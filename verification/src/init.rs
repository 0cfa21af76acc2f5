//! The files of a project that starts out: every third-party package is
//! exempted at its version, so that resolution passes before the first audit
//! is written.

use crate::format::{AuditsFile, ConfigFile, ImportsFile, StableMap, UnauditedDependency};
use crate::graph::PackageNode;
use crate::check::files_valid;
use crate::text::{distinct, find, lemma_find_push, spec_find, views};
use crate::version::VersionView;
use vstd::prelude::*;

verus! {

/// The criterion of the exemptions that [`init_files`] writes, and the
/// default criterion of its configuration.
pub open spec fn init_criterion() -> Seq<char> {
    "safe-to-deploy"@
}

/// The default criterion of a configuration: the one that it names, or else
/// the one of a project that starts out.
pub fn criterion_or_default(named: Option<String>) -> (name: String)
    ensures
        match named {
            Some(given) => name == given,
            None => name@ == init_criterion(),
        },
{
    match named {
        Some(given) => given,
        None => "safe-to-deploy".to_owned(),
    }
}

/// The names under which the first `upto` packages are exempted, and under
/// each the versions that are exempted, in the order of the packages.
pub open spec fn init_exemptions(nodes: &Vec<PackageNode>, upto: nat) -> (Seq<Seq<char>>, Seq<
    Seq<VersionView>,
>)
    decreases upto,
{
    if upto == 0 {
        (Seq::empty(), Seq::empty())
    } else {
        let (names, lists) = init_exemptions(nodes, (upto - 1) as nat);
        let node = nodes@[upto - 1];
        if node.is_first_party {
            (names, lists)
        } else {
            match spec_find(names, node.name@) {
                Some(i) => (names, lists.update(i, lists[i].push(node.version@))),
                None => (names.push(node.name@), lists.push(seq![node.version@])),
            }
        }
    }
}

/// The list holds one exemption for each of `versions`, in order, each at
/// the criterion of [`init_criterion`] and open to suggestions.
pub open spec fn exempts(list: &Vec<UnauditedDependency>, versions: Seq<VersionView>) -> bool {
    &&& list@.len() == versions.len()
    &&& forall|i: int|
        #![trigger list@[i]]
        0 <= i < list@.len() ==> {
            &&& list@[i].version@ == versions[i]
            &&& list@[i].criteria@ == init_criterion()
            &&& list@[i].notes.is_none()
            &&& list@[i].suggest
        }
}

/// The configuration is the one that [`init_files`] writes for `nodes`.
pub open spec fn init_config(config: &ConfigFile, nodes: &Vec<PackageNode>) -> bool {
    let (names, lists) = init_exemptions(nodes, nodes@.len());
    &&& config.default_criteria@ == init_criterion()
    &&& config.imports.entries@.len() == 0
    &&& config.policy.entries@.len() == 0
    &&& config.unaudited.keys() == names
    &&& forall|u: int|
        0 <= u < config.unaudited.entries@.len() ==> exempts(
            &(#[trigger] config.unaudited.entries@[u]).1,
            lists[u],
        )
}

/// The files of a project that starts out: no audits, no policy, the default
/// criterion `safe-to-deploy`, and an exemption at that criterion for every
/// third-party package at its version.
pub fn init_files(nodes: &Vec<PackageNode>) -> (r: (ConfigFile, AuditsFile, ImportsFile))
    ensures
        init_config(&r.0, nodes),
        r.1.criteria.entries@.len() == 0,
        r.1.audits.entries@.len() == 0,
        r.2.audits.entries@.len() == 0,
        files_valid(&r.0, &r.1, &r.2),
{
    let n = nodes.len();
    let mut names: Vec<String> = Vec::new();
    let mut lists: Vec<Vec<UnauditedDependency>> = Vec::new();
    let mut k: usize = 0;
    assert(views(&names) =~= init_exemptions(nodes, 0).0);
    while k < n
        invariant
            n == nodes@.len(),
            k <= n,
            names@.len() == lists@.len(),
            views(&names) == init_exemptions(nodes, k as nat).0,
            lists@.len() == init_exemptions(nodes, k as nat).1.len(),
            forall|u: int|
                0 <= u < lists@.len() ==> exempts(
                    #[trigger] &lists@[u],
                    init_exemptions(nodes, k as nat).1[u],
                ),
        decreases n - k,
    {
        let node = &nodes[k];
        let ghost before_names = views(&names);
        let ghost before = init_exemptions(nodes, k as nat).1;
        if !node.is_first_party {
            let entry = UnauditedDependency {
                version: node.version.duplicate(),
                criteria: "safe-to-deploy".to_owned(),
                notes: None,
                suggest: true,
            };
            match find(&names, &node.name) {
                Some(i) => {
                    let mut list = lists.remove(i);
                    list.push(entry);
                    lists.insert(i, list);
                    assert(lists@.len() == before.len());
                    assert forall|u: int| 0 <= u < lists@.len() implies exempts(
                        #[trigger] &lists@[u],
                        before.update(i as int, before[i as int].push(node.version@))[u],
                    ) by {}
                },
                None => {
                    names.push(node.name.clone());
                    let mut list: Vec<UnauditedDependency> = Vec::new();
                    list.push(entry);
                    lists.push(list);
                    assert(views(&names) =~= before_names.push(node.name@));
                    assert forall|u: int| 0 <= u < lists@.len() implies exempts(
                        #[trigger] &lists@[u],
                        before.push(seq![node.version@])[u],
                    ) by {}
                },
            }
        }
        k += 1;
    }
    let ghost goal = init_exemptions(nodes, n as nat);
    let count = names.len();
    let mut entries: Vec<(String, Vec<UnauditedDependency>)> = Vec::new();
    while names.len() > 0
        invariant
            names@.len() == lists@.len(),
            names@.len() + entries@.len() == count,
            count == goal.0.len(),
            count == goal.1.len(),
            forall|u: int| 0 <= u < names@.len() ==> (#[trigger] names@[u])@ == goal.0[u],
            forall|u: int| 0 <= u < lists@.len() ==> exempts(#[trigger] &lists@[u], goal.1[u]),
            forall|u: int|
                #![trigger entries@[u]]
                0 <= u < entries@.len() ==> entries@[u].0@ == goal.0[count - 1 - u] && exempts(
                    &entries@[u].1,
                    goal.1[count - 1 - u],
                ),
        decreases names@.len(),
    {
        let ghost at = names@.len() - 1;
        assert(exempts(&lists@[at], goal.1[at]));
        assert(names@[at]@ == goal.0[at]);
        let name = names.pop().unwrap();
        let list = lists.pop().unwrap();
        entries.push((name, list));
    }
    let mut ordered: Vec<(String, Vec<UnauditedDependency>)> = Vec::new();
    while entries.len() > 0
        invariant
            entries@.len() + ordered@.len() == count,
            count == goal.0.len(),
            count == goal.1.len(),
            forall|u: int|
                #![trigger entries@[u]]
                0 <= u < entries@.len() ==> entries@[u].0@ == goal.0[count - 1 - u] && exempts(
                    &entries@[u].1,
                    goal.1[count - 1 - u],
                ),
            forall|u: int|
                #![trigger ordered@[u]]
                0 <= u < ordered@.len() ==> ordered@[u].0@ == goal.0[u] && exempts(
                    &ordered@[u].1,
                    goal.1[u],
                ),
        decreases entries@.len(),
    {
        let ghost at = entries@.len() - 1;
        let ghost _ = entries@[at];
        let pair = entries.pop().unwrap();
        ordered.push(pair);
    }
    let config = ConfigFile {
        default_criteria: "safe-to-deploy".to_owned(),
        imports: StableMap::new(),
        unaudited: StableMap { entries: ordered },
        policy: StableMap::new(),
    };
    assert(config.unaudited.keys() =~= goal.0);
    let audits = AuditsFile { criteria: StableMap::new(), audits: StableMap::new() };
    let imports = ImportsFile { audits: StableMap::new() };
    proof {
        lemma_init_exemptions(nodes, nodes@.len());
    }
    (config, audits, imports)
}

/// Version `version` is exempted under `name`.
pub open spec fn exempted_under(
    names: Seq<Seq<char>>,
    lists: Seq<Seq<VersionView>>,
    name: Seq<char>,
    version: VersionView,
) -> bool {
    match spec_find(names, name) {
        Some(u) => u < lists.len() && lists[u].contains(version),
        None => false,
    }
}

/// What [`init_files`] exempts: under each name as many lists as names;
/// every third-party package among the first `upto` at its version; and no
/// version but the version of a package.
pub proof fn lemma_init_exemptions(nodes: &Vec<PackageNode>, upto: nat)
    requires
        upto <= nodes@.len(),
    ensures
        init_exemptions(nodes, upto).0.len() == init_exemptions(nodes, upto).1.len(),
        distinct(init_exemptions(nodes, upto).0),
        forall|i: int|
            0 <= i < upto && !(#[trigger] nodes@[i]).is_first_party ==> exempted_under(
                init_exemptions(nodes, upto).0,
                init_exemptions(nodes, upto).1,
                nodes@[i].name@,
                nodes@[i].version@,
            ),
        forall|u: int, e: int|
            #![trigger init_exemptions(nodes, upto).1[u][e]]
            0 <= u < init_exemptions(nodes, upto).1.len() && 0 <= e < init_exemptions(
                nodes,
                upto,
            ).1[u].len() ==> exists|i: int|
                0 <= i < upto && (#[trigger] nodes@[i]).version@ == init_exemptions(
                    nodes,
                    upto,
                ).1[u][e],
    decreases upto,
{
    if upto > 0 {
        lemma_init_exemptions(nodes, (upto - 1) as nat);
        let (names, lists) = init_exemptions(nodes, (upto - 1) as nat);
        let (names2, lists2) = init_exemptions(nodes, upto);
        let node = nodes@[upto - 1];
        crate::text::lemma_find(names, node.name@);
        if node.is_first_party {
        } else {
            match spec_find(names, node.name@) {
                Some(at) => {
                    assert(lists2[at].last() == node.version@);
                    assert forall|i: int|
                        0 <= i < upto && !(#[trigger] nodes@[i]).is_first_party implies exempted_under(
                        names2,
                        lists2,
                        nodes@[i].name@,
                        nodes@[i].version@,
                    ) by {
                        if i < upto - 1 {
                            assert(exempted_under(
                                names,
                                lists,
                                nodes@[i].name@,
                                nodes@[i].version@,
                            ));
                            crate::text::lemma_find(names, nodes@[i].name@);
                            let u = spec_find(names, nodes@[i].name@).unwrap();
                            let w = choose|w: int|
                                0 <= w < lists[u].len() && lists[u][w] == nodes@[i].version@;
                            if u == at {
                                assert(lists2[u][w] == nodes@[i].version@);
                            } else {
                                assert(lists2[u][w] == nodes@[i].version@);
                            }
                        } else {
                            assert(lists2[at][lists2[at].len() - 1] == node.version@);
                        }
                    }
                    assert forall|u: int, e: int|
                        #![trigger lists2[u][e]]
                        0 <= u < lists2.len() && 0 <= e < lists2[u].len() implies exists|i: int|
                        0 <= i < upto && (#[trigger] nodes@[i]).version@ == lists2[u][e] by {
                        if u == at && e == lists[at].len() {
                            assert(nodes@[upto - 1].version@ == lists2[u][e]);
                        } else {
                            let i = choose|i: int|
                                0 <= i < upto - 1 && (#[trigger] nodes@[i]).version@
                                    == lists[u][e];
                            assert(nodes@[i].version@ == lists2[u][e]);
                        }
                    }
                },
                None => {
                    assert forall|i: int|
                        0 <= i < upto && !(#[trigger] nodes@[i]).is_first_party implies exempted_under(
                        names2,
                        lists2,
                        nodes@[i].name@,
                        nodes@[i].version@,
                    ) by {
                        lemma_find_push(names, node.name@, nodes@[i].name@);
                        if i < upto - 1 {
                            assert(exempted_under(
                                names,
                                lists,
                                nodes@[i].name@,
                                nodes@[i].version@,
                            ));
                            crate::text::lemma_find(names, nodes@[i].name@);
                            let u = spec_find(names, nodes@[i].name@).unwrap();
                            let w = choose|w: int|
                                0 <= w < lists[u].len() && lists[u][w] == nodes@[i].version@;
                            assert(lists2[u][w] == nodes@[i].version@);
                        } else {
                            assert(lists2[names.len() as int][0] == node.version@);
                        }
                    }
                    assert forall|u: int, e: int|
                        #![trigger lists2[u][e]]
                        0 <= u < lists2.len() && 0 <= e < lists2[u].len() implies exists|i: int|
                        0 <= i < upto && (#[trigger] nodes@[i]).version@ == lists2[u][e] by {
                        if u == lists.len() {
                            assert(nodes@[upto - 1].version@ == lists2[u][e]);
                        } else {
                            let i = choose|i: int|
                                0 <= i < upto - 1 && (#[trigger] nodes@[i]).version@
                                    == lists[u][e];
                            assert(nodes@[i].version@ == lists2[u][e]);
                        }
                    }
                },
            }
        }
    }
}

} // verus!
