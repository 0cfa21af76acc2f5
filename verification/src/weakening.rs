//! Monotonicity in policy, of the files: a configuration whose policies ask
//! less keeps every package that passed passing.

use crate::check::{config_known, config_valid, known, list_known, policy_known, versions_ok};
use crate::criteria::{holds, lemma_table_view_wf, subset, table_names, table_view, TableView};
use crate::format::{AuditsFile, ConfigFile, ImportsFile, PolicyEntry};
use crate::graph::{graph_view, GraphView, PackageNode};
use crate::laws::{accepted_model, asks_less, laxer, lemma_accepted, lemma_laxer_policy_keeps_pass};
use crate::model::Verdict;
use crate::prepare::{declared_deps, declared_self, exemptions_of, plan_of};
use crate::resolver::{spec_fault, spec_resolve};
use crate::text::{lemma_find, spec_find, views};
use vstd::prelude::*;

verus! {

/// Configuration `weak` asks no more than configuration `strong` of the
/// packages of the graph, and exempts the same.
pub open spec fn config_laxer(
    g: GraphView,
    t: TableView,
    weak: &ConfigFile,
    strong: &ConfigFile,
) -> bool {
    &&& subset(t.expansion(weak.default_criteria@), t.expansion(strong.default_criteria@))
    &&& forall|name: Seq<char>| #[trigger]
        exemptions_of(weak, name) == exemptions_of(strong, name)
    &&& forall|k: int|
        #![trigger g.packages[k]]
        0 <= k < g.packages.len() ==> {
            let name = g.packages[k].name;
            let deps = g.dep_names(k);
            &&& asks_less(declared_self(t, weak, name), declared_self(t, strong, name))
            &&& forall|j: int|
                0 <= j < deps.len() ==> asks_less(
                    #[trigger] declared_deps(t, weak, name, deps)[j],
                    declared_deps(t, strong, name, deps)[j],
                )
        }
}

/// Monotonicity in policy: under a configuration that asks less, every
/// package that passed still passes, and a resolution that succeeded still
/// succeeds. Read from the other side: under a configuration that asks more,
/// a package that failed still fails.
pub proof fn lemma_laxer_config_keeps_pass(
    nodes: &Vec<PackageNode>,
    weak: &ConfigFile,
    strong: &ConfigFile,
    audits: &AuditsFile,
    imports: &ImportsFile,
)
    requires
        spec_fault(nodes, weak, audits, imports).is_none(),
        spec_fault(nodes, strong, audits, imports).is_none(),
        config_laxer(graph_view(nodes), table_view(&audits.criteria), weak, strong),
    ensures
        forall|k: int|
            0 <= k < nodes@.len() && (#[trigger] spec_resolve(
                nodes,
                strong,
                audits,
                imports,
            ).unwrap().packages[k]).verdict == Verdict::Pass ==> spec_resolve(
                nodes,
                weak,
                audits,
                imports,
            ).unwrap().packages[k].verdict == Verdict::Pass,
        spec_resolve(nodes, strong, audits, imports).unwrap().success ==> spec_resolve(
            nodes,
            weak,
            audits,
            imports,
        ).unwrap().success,
{
    let g = graph_view(nodes);
    let t = table_view(&audits.criteria);
    let m = accepted_model(nodes, weak, audits, imports);
    let n = accepted_model(nodes, strong, audits, imports);
    lemma_accepted(nodes, weak, audits, imports);
    lemma_accepted(nodes, strong, audits, imports);
    assert(laxer(m, n)) by {
        assert forall|k: int|
            #![trigger m.plans[k]]
            0 <= k < m.plans.len() implies {
            let p = m.plans[k];
            let q = n.plans[k];
            &&& p.version == q.version
            &&& p.first_party == q.first_party
            &&& p.is_root == q.is_root
            &&& p.deps == q.deps
            &&& p.evidence == q.evidence
            &&& p.violations == q.violations
            &&& asks_less(p.self_declared, q.self_declared)
            &&& p.dep_declared.len() == q.dep_declared.len()
            &&& forall|j: int|
                0 <= j < p.dep_declared.len() ==> asks_less(
                    #[trigger] p.dep_declared[j],
                    q.dep_declared[j],
                )
        } by {
            let _ = g.packages[k];
            assert(m.plans[k] == plan_of(g, t, weak, audits, imports, k));
            assert(n.plans[k] == plan_of(g, t, strong, audits, imports, k));
            assert(exemptions_of(weak, g.packages[k].name) == exemptions_of(
                strong,
                g.packages[k].name,
            ));
        }
    }
    lemma_laxer_policy_keeps_pass(m, n);
    let first = spec_resolve(nodes, strong, audits, imports).unwrap();
    let second = spec_resolve(nodes, weak, audits, imports).unwrap();
    assert forall|k: int|
        0 <= k < nodes@.len() && (#[trigger] first.packages[k]).verdict
            == Verdict::Pass implies second.packages[k].verdict == Verdict::Pass by {
        let _ = second.packages[k];
        assert(n.passes(k));
        assert(m.passes(k));
    }
}

/// Weakening a list of criteria: with one of its criteria replaced by a
/// criterion that the first implies, the list stands for no more than it
/// stood for.
pub proof fn lemma_replacing_weakens(
    t: TableView,
    list: Seq<Seq<char>>,
    i: int,
    weaker: Seq<char>,
)
    requires
        t.wf(),
        forall|k: int| 0 <= k < list.len() ==> spec_find(t.names, #[trigger] list[k]).is_some(),
        0 <= i < list.len(),
        spec_find(t.names, weaker).is_some(),
        t.implies(spec_find(t.names, list[i]).unwrap(), spec_find(t.names, weaker).unwrap()),
    ensures
        t.expand_names(list.update(i, weaker)).is_some(),
        t.expand_names(list).is_some(),
        subset(
            t.expand_names(list.update(i, weaker)).unwrap(),
            t.expand_names(list).unwrap(),
        ),
{
    let less = list.update(i, weaker);
    let one = t.expand_names(less).unwrap();
    let two = t.expand_names(list).unwrap();
    assert forall|k: int| 0 <= k < less.len() implies spec_find(
        t.names,
        #[trigger] less[k],
    ).is_some() by {
        if k != i {
            assert(less[k] == list[k]);
        }
    }
    assert forall|b: int| #[trigger] holds(one, b) implies holds(two, b) by {
        let k = choose|k: int|
            0 <= k < less.len() && t.implies(#[trigger] spec_find(t.names, less[k]).unwrap(), b);
        if k == i {
            assert(t.implies(spec_find(t.names, list[i]).unwrap(), b));
        } else {
            assert(less[k] == list[k]);
            assert(t.implies(spec_find(t.names, list[k]).unwrap(), b));
        }
    }
}

/// The list `weak` is the list `strong` with the name at place `i` replaced
/// by `weaker`.
pub open spec fn replaced(
    weak: &Vec<String>,
    strong: &Vec<String>,
    i: int,
    weaker: Seq<char>,
) -> bool {
    &&& 0 <= i < strong@.len()
    &&& views(weak) == views(strong).update(i, weaker)
}

/// Policy `weak` is policy `strong` with the criterion at place `i` of the
/// list for the package itself replaced by `weaker`.
pub open spec fn own_replaced(
    weak: PolicyEntry,
    strong: PolicyEntry,
    i: int,
    weaker: Seq<char>,
) -> bool {
    &&& replaced(&weak.criteria, &strong.criteria, i, weaker)
    &&& weak.build_and_dev_criteria == strong.build_and_dev_criteria
    &&& weak.dependency_criteria == strong.dependency_criteria
}

/// Policy `weak` is policy `strong` with the criterion at place `i` of the
/// list for the dependency at place `d` replaced by `weaker`.
pub open spec fn dependency_replaced(
    weak: PolicyEntry,
    strong: PolicyEntry,
    d: int,
    i: int,
    weaker: Seq<char>,
) -> bool {
    let one = weak.dependency_criteria.entries@;
    let two = strong.dependency_criteria.entries@;
    &&& weak.criteria == strong.criteria
    &&& weak.build_and_dev_criteria == strong.build_and_dev_criteria
    &&& one.len() == two.len()
    &&& 0 <= d < two.len()
    &&& forall|e: int| 0 <= e < two.len() ==> (#[trigger] one[e]).0@ == two[e].0@
    &&& forall|e: int| 0 <= e < two.len() && e != d ==> (#[trigger] one[e]).1 == two[e].1
    &&& replaced(&one[d].1, &two[d].1, i, weaker)
}

/// Configuration `weak` is configuration `strong` but for the policy at
/// place `p`, which stands under the same name.
pub open spec fn same_but_policy(weak: &ConfigFile, strong: &ConfigFile, p: int) -> bool {
    let one = weak.policy.entries@;
    let two = strong.policy.entries@;
    &&& weak.default_criteria@ == strong.default_criteria@
    &&& weak.imports == strong.imports
    &&& weak.unaudited == strong.unaudited
    &&& one.len() == two.len()
    &&& 0 <= p < two.len()
    &&& forall|q: int| 0 <= q < two.len() ==> (#[trigger] one[q]).0@ == two[q].0@
    &&& forall|q: int| 0 <= q < two.len() && q != p ==> (#[trigger] one[q]).1 == two[q].1
}

/// Of the package called `name` with the dependencies `deps`, configuration
/// `weak` asks no more than configuration `strong`.
pub open spec fn asks_less_of(
    t: TableView,
    weak: &ConfigFile,
    strong: &ConfigFile,
    name: Seq<char>,
    deps: Seq<Seq<char>>,
) -> bool {
    &&& asks_less(declared_self(t, weak, name), declared_self(t, strong, name))
    &&& forall|j: int|
        0 <= j < deps.len() ==> asks_less(
            #[trigger] declared_deps(t, weak, name, deps)[j],
            declared_deps(t, strong, name, deps)[j],
        )
}

/// A list with one name replaced by a known name holds known names only.
proof fn lemma_replaced_known(
    names: Seq<Seq<char>>,
    weak: &Vec<String>,
    strong: &Vec<String>,
    i: int,
    weaker: Seq<char>,
)
    requires
        replaced(weak, strong, i, weaker),
        list_known(names, strong),
        known(names, weaker),
    ensures
        list_known(names, weak),
        weak@.len() == strong@.len(),
        forall|k: int|
            0 <= k < strong@.len() ==> spec_find(names, #[trigger] views(strong)[k]).is_some(),
{
    assert(views(weak).len() == views(strong).len());
    assert forall|k: int| 0 <= k < weak@.len() implies known(names, (#[trigger] weak@[k])@) by {
        assert(views(weak)[k] == views(strong).update(i, weaker)[k]);
        if k != i {
            assert(known(names, strong@[k]@));
        }
    }
    assert forall|k: int| 0 <= k < strong@.len() implies spec_find(
        names,
        #[trigger] views(strong)[k],
    ).is_some() by {
        assert(known(names, strong@[k]@));
    }
}

/// With the policy at one place changed into one that names known criteria
/// only, has a valid map and asks no more, the configuration has no fault
/// where it had none, and asks no more than it asked.
proof fn lemma_policy_weakened(
    nodes: &Vec<PackageNode>,
    weak: &ConfigFile,
    strong: &ConfigFile,
    audits: &AuditsFile,
    imports: &ImportsFile,
    p: int,
)
    requires
        spec_fault(nodes, strong, audits, imports).is_none(),
        same_but_policy(weak, strong, p),
        policy_known(table_names(&audits.criteria), &weak.policy.entries@[p].1),
        weak.policy.entries@[p].1.dependency_criteria.wf(),
        forall|deps: Seq<Seq<char>>| #[trigger]
            asks_less_of(
                table_view(&audits.criteria),
                weak,
                strong,
                strong.policy.entries@[p].0@,
                deps,
            ),
    ensures
        spec_fault(nodes, weak, audits, imports).is_none(),
        config_laxer(graph_view(nodes), table_view(&audits.criteria), weak, strong),
{
    let g = graph_view(nodes);
    let t = table_view(&audits.criteria);
    let names = table_names(&audits.criteria);
    assert(weak.policy.keys() =~= strong.policy.keys());
    assert forall|q: int| 0 <= q < weak.policy.entries@.len() implies policy_known(
        names,
        &(#[trigger] weak.policy.entries@[q]).1,
    ) && weak.policy.entries@[q].1.dependency_criteria.wf() && known(
        g.names(),
        weak.policy.entries@[q].0@,
    ) by {
        let _ = strong.policy.entries@[q];
    }
    assert(config_valid(weak));
    assert(config_known(names, weak));
    assert(versions_ok(weak, audits, imports));
    assert forall|name: Seq<char>| #[trigger]
        exemptions_of(weak, name) == exemptions_of(strong, name) by {}
    assert forall|k: int|
        #![trigger g.packages[k]]
        0 <= k < g.packages.len() implies {
        let name = g.packages[k].name;
        let deps = g.dep_names(k);
        &&& asks_less(declared_self(t, weak, name), declared_self(t, strong, name))
        &&& forall|j: int|
            0 <= j < deps.len() ==> asks_less(
                #[trigger] declared_deps(t, weak, name, deps)[j],
                declared_deps(t, strong, name, deps)[j],
            )
    } by {
        let name = g.packages[k].name;
        let deps = g.dep_names(k);
        let at = strong.policy.spec_position(name);
        lemma_find(strong.policy.keys(), name);
        if at == Some(p) {
            assert(name == strong.policy.entries@[p].0@);
            assert(asks_less_of(t, weak, strong, name, deps));
        } else {
            if at.is_some() {
                assert(weak.policy.entries@[at.unwrap()].1 == strong.policy.entries@[at.unwrap()].1);
            }
            assert(declared_self(t, weak, name) == declared_self(t, strong, name));
            assert(declared_deps(t, weak, name, deps) == declared_deps(t, strong, name, deps));
        }
    }
}

/// Replacing a criterion of a policy, the package's own list: a
/// configuration in which one criterion that a policy names for the package
/// itself stands replaced by a criterion that it implies has no fault where
/// the first had none, and asks no more than the first. So every package
/// that passed under the first passes under it.
pub proof fn lemma_weaker_own_criterion(
    nodes: &Vec<PackageNode>,
    weak: &ConfigFile,
    strong: &ConfigFile,
    audits: &AuditsFile,
    imports: &ImportsFile,
    p: int,
    i: int,
    weaker: Seq<char>,
)
    requires
        spec_fault(nodes, strong, audits, imports).is_none(),
        same_but_policy(weak, strong, p),
        own_replaced(weak.policy.entries@[p].1, strong.policy.entries@[p].1, i, weaker),
        known(table_names(&audits.criteria), weaker),
        table_view(&audits.criteria).implies(
            spec_find(table_names(&audits.criteria), strong.policy.entries@[p].1.criteria@[i]@).unwrap(),
            spec_find(table_names(&audits.criteria), weaker).unwrap(),
        ),
    ensures
        spec_fault(nodes, weak, audits, imports).is_none(),
        config_laxer(graph_view(nodes), table_view(&audits.criteria), weak, strong),
{
    let t = table_view(&audits.criteria);
    let names = table_names(&audits.criteria);
    let one = weak.policy.entries@[p].1;
    let two = strong.policy.entries@[p].1;
    let name = strong.policy.entries@[p].0@;
    lemma_table_view_wf(&audits.criteria);
    assert(policy_known(names, &strong.policy.entries@[p].1));
    lemma_replaced_known(names, &one.criteria, &two.criteria, i, weaker);
    assert(views(&two.criteria)[i] == two.criteria@[i]@);
    lemma_replacing_weakens(t, views(&two.criteria), i, weaker);
    assert(weak.policy.keys() =~= strong.policy.keys());
    lemma_find(strong.policy.keys(), name);
    lemma_find(weak.policy.keys(), name);
    assert(strong.policy.keys()[p] == name);
    assert(strong.policy.spec_position(name) == Some(p));
    assert forall|deps: Seq<Seq<char>>| #[trigger]
        asks_less_of(t, weak, strong, name, deps) by {
        assert(declared_deps(t, weak, name, deps) == declared_deps(t, strong, name, deps));
    }
    lemma_policy_weakened(nodes, weak, strong, audits, imports, p);
}

/// Replacing a criterion of a policy, a dependency's list: a configuration
/// in which one criterion that a policy names for one dependency stands
/// replaced by a criterion that it implies has no fault where the first had
/// none, and asks no more than the first. So every package that passed under
/// the first passes under it.
pub proof fn lemma_weaker_dependency_criterion(
    nodes: &Vec<PackageNode>,
    weak: &ConfigFile,
    strong: &ConfigFile,
    audits: &AuditsFile,
    imports: &ImportsFile,
    p: int,
    d: int,
    i: int,
    weaker: Seq<char>,
)
    requires
        spec_fault(nodes, strong, audits, imports).is_none(),
        same_but_policy(weak, strong, p),
        dependency_replaced(weak.policy.entries@[p].1, strong.policy.entries@[p].1, d, i, weaker),
        known(table_names(&audits.criteria), weaker),
        table_view(&audits.criteria).implies(
            spec_find(
                table_names(&audits.criteria),
                strong.policy.entries@[p].1.dependency_criteria.entries@[d].1@[i]@,
            ).unwrap(),
            spec_find(table_names(&audits.criteria), weaker).unwrap(),
        ),
    ensures
        spec_fault(nodes, weak, audits, imports).is_none(),
        config_laxer(graph_view(nodes), table_view(&audits.criteria), weak, strong),
{
    let t = table_view(&audits.criteria);
    let names = table_names(&audits.criteria);
    let one = weak.policy.entries@[p].1;
    let two = strong.policy.entries@[p].1;
    let name = strong.policy.entries@[p].0@;
    let weak_map = &one.dependency_criteria;
    let strong_map = &two.dependency_criteria;
    lemma_table_view_wf(&audits.criteria);
    assert(policy_known(names, &strong.policy.entries@[p].1));
    assert(list_known(names, &strong_map.entries@[d].1));
    lemma_replaced_known(names, &weak_map.entries@[d].1, &strong_map.entries@[d].1, i, weaker);
    assert(views(&strong_map.entries@[d].1)[i] == strong_map.entries@[d].1@[i]@);
    lemma_replacing_weakens(t, views(&strong_map.entries@[d].1), i, weaker);
    assert(weak_map.keys() =~= strong_map.keys());
    assert forall|e: int| 0 <= e < weak_map.entries@.len() implies list_known(
        names,
        &(#[trigger] weak_map.entries@[e]).1,
    ) by {
        let _ = strong_map.entries@[e];
    }
    assert(weak.policy.keys() =~= strong.policy.keys());
    lemma_find(strong.policy.keys(), name);
    assert(strong.policy.keys()[p] == name);
    assert(strong.policy.spec_position(name) == Some(p));
    assert forall|deps: Seq<Seq<char>>| #[trigger]
        asks_less_of(t, weak, strong, name, deps) by {
        assert(declared_self(t, weak, name) == declared_self(t, strong, name));
        assert forall|j: int| 0 <= j < deps.len() implies asks_less(
            #[trigger] declared_deps(t, weak, name, deps)[j],
            declared_deps(t, strong, name, deps)[j],
        ) by {
            let at = strong_map.spec_position(deps[j]);
            lemma_find(strong_map.keys(), deps[j]);
            if at.is_some() && at.unwrap() != d {
                assert(weak_map.entries@[at.unwrap()].1 == strong_map.entries@[at.unwrap()].1);
            }
        }
    }
    lemma_policy_weakened(nodes, weak, strong, audits, imports, p);
}

} // verus!
