//! The law of the first day: resolution passes on the files that
//! [`crate::init::init_files`] writes.

use crate::check::{
    config_known, exemptions_known, file_known, imports_known, known, policies_placed,
    requirements_ok, versions_ok,
};
use crate::criteria::{
    all_known, has_cycle, implication, names_directly, safe_to_deploy, safe_to_run, subset,
    table_links, table_lists, table_names, table_view,
};
use crate::format::{AuditsFile, ConfigFile, CriteriaEntry, ImportsFile, StableMap};
use crate::graph::{dep_indices, graph_view, lemma_graph_view, sound, spec_order, PackageNode};
use crate::init::{
    exempted_under, exempts, init_config, init_criterion, init_exemptions, lemma_init_exemptions,
};
use crate::prepare::{
    audit_evidence, audit_violations, audits_of, entries_in, exemption_evidence, exemption_view,
    exemptions_of, imported, model_of, plan_of,
};
use crate::reach::{all_of, is_chain, lemma_start_reached, unit};
use crate::resolver::{spec_fault, spec_resolve};
use crate::text::{lemma_find, spec_find};
use vstd::prelude::*;

verus! {

/// The table of a file that defines no criterion: the two built-in criteria,
/// of which the second implies both.
pub proof fn lemma_built_in_table(file: &StableMap<CriteriaEntry>)
    requires
        file.entries@.len() == 0,
    ensures
        table_names(file) == seq![safe_to_run(), safe_to_deploy()],
        all_known(table_names(file), table_lists(file)),
        !has_cycle(table_links(file)),
        table_view(file).implied.len() == 2,
        table_view(file).implied[1] == seq![true, true],
        spec_find(table_names(file), safe_to_deploy()) == Some(1int),
{
    reveal_strlit("safe-to-run");
    reveal_strlit("safe-to-deploy");
    let run = safe_to_run();
    let deploy = safe_to_deploy();
    assert(run.len() == 11 && deploy.len() == 14);
    let keys = file.keys();
    assert(keys =~= Seq::<Seq<char>>::empty());
    let one = keys.push(run);
    assert(one.drop_last() =~= keys);
    lemma_find(keys, run);
    assert(spec_find(keys, run).is_none());
    lemma_find(one, deploy);
    assert(one[0] == run);
    assert(spec_find(one, deploy).is_none());
    let names = table_names(file);
    assert(names =~= seq![run, deploy]);
    lemma_find(names, run);
    lemma_find(names, deploy);
    assert(names[0] == run && names[1] == deploy);
    assert(spec_find(names, run) == Some(0int));
    assert(spec_find(names, deploy) == Some(1int));
    let lists = table_lists(file);
    let given = Seq::new(
        file.entries@.len(),
        |a: int| crate::text::views(&file.entries@[a].1.implies),
    );
    assert(given =~= Seq::<Seq<Seq<char>>>::empty());
    assert(lists =~= seq![Seq::<Seq<char>>::empty(), seq![run]]);
    assert(all_known(names, lists)) by {
        assert forall|a: int, k: int|
            0 <= a < lists.len() && 0 <= k < lists[a].len() implies spec_find(
            names,
            #[trigger] lists[a][k],
        ).is_some() by {
            assert(a == 1 && k == 0);
        }
    }
    let links = table_links(file);
    assert(links.len() == 2);
    assert forall|b: int| !names_directly(names, lists[0], b) by {}
    assert(names_directly(names, lists[1], 0)) by {
        assert(spec_find(names, lists[1][0]) == Some(0int));
    }
    assert(links[0].len() == 2 && links[1].len() == 2);
    assert(links[1][0]);
    let all = all_of(2);
    assert(!implication(links, 0, 1)) by {
        if implication(links, 0, 1) {
            let c = choose|c: Seq<int>| #[trigger]
                is_chain(links, unit(2, 0), all, c) && c.last() == 1;
            assert(unit(2, 0)[c[0]]);
            assert(c[0] == 0);
            if c.len() > 1 {
                assert(links[c[0]][c[1]]);
                assert(links[0][c[1]] == names_directly(names, lists[0], c[1]));
            }
        }
    }
    assert(implication(links, 1, 1)) by {
        lemma_start_reached(links, unit(2, 1), all, 1);
    }
    assert(implication(links, 1, 0)) by {
        let c = seq![1int, 0int];
        assert(is_chain(links, unit(2, 1), all, c));
        assert(c.last() == 0);
    }
    assert(table_view(file).implied[1] =~= seq![true, true]);
}

/// The files are those of a project that starts out on the packages of
/// `nodes`.
pub open spec fn first_day(
    nodes: &Vec<PackageNode>,
    config: &ConfigFile,
    audits: &AuditsFile,
    imports: &ImportsFile,
) -> bool {
    &&& init_config(config, nodes)
    &&& audits.criteria.entries@.len() == 0
    &&& audits.audits.entries@.len() == 0
    &&& imports.audits.entries@.len() == 0
}

/// Resolution finds no fault in the files of the first day.
pub proof fn lemma_first_day_fit(
    nodes: &Vec<PackageNode>,
    config: &ConfigFile,
    audits: &AuditsFile,
    imports: &ImportsFile,
)
    requires
        sound(nodes),
        first_day(nodes, config, audits, imports),
    ensures
        spec_fault(nodes, config, audits, imports).is_none(),
{
    lemma_built_in_table(&audits.criteria);
    lemma_init_exemptions(nodes, nodes@.len());
    let names = table_names(&audits.criteria);
    let (keys, lists) = init_exemptions(nodes, nodes@.len());
    assert(config.unaudited.keys().len() == config.unaudited.entries@.len());
    assert(known(names, init_criterion()));
    assert forall|u: int| 0 <= u < config.unaudited.entries@.len() implies exemptions_known(
        names,
        &(#[trigger] config.unaudited.entries@[u]).1,
    ) by {
        assert(exempts(&config.unaudited.entries@[u].1, lists[u]));
    }
    assert(config_known(names, config));
    assert(file_known(names, audits));
    assert(imports_known(names, imports));
    assert forall|u: int, i: int|
        0 <= u < config.unaudited.entries@.len() && 0 <= i < config.unaudited.entries@[u].1@.len() implies (
    #[trigger] config.unaudited.entries@[u].1@[i]).version@.well_formed() by {
        assert(exempts(&config.unaudited.entries@[u].1, lists[u]));
        let _ = lists[u][i];
        let x = choose|x: int| 0 <= x < nodes@.len() && (#[trigger] nodes@[x]).version@ == lists[u][i];
        assert(nodes@[x].version@.well_formed());
    }
    assert(versions_ok(config, audits, imports));
    assert(requirements_ok(audits, imports));
    assert(policies_placed(graph_view(nodes).names(), config));
}

/// On the first day every third-party package has an exemption at its
/// version that covers every criterion, and no violation.
pub proof fn lemma_first_day_plan(
    nodes: &Vec<PackageNode>,
    config: &ConfigFile,
    audits: &AuditsFile,
    imports: &ImportsFile,
    k: int,
)
    requires
        sound(nodes),
        first_day(nodes, config, audits, imports),
        0 <= k < nodes@.len(),
        !graph_view(nodes).packages[k].is_first_party,
    ensures
        ({
            let g = graph_view(nodes);
            let t = table_view(&audits.criteria);
            let p = plan_of(g, t, config, audits, imports, k);
            &&& p.violations.len() == 0
            &&& exists|i: int|
                #![trigger p.evidence[i]]
                0 <= i < p.evidence.len() && p.evidence[i].from.is_none() && p.evidence[i].to
                    == p.version && p.evidence[i].criteria == seq![true, true] && forall|j: int|
                    0 <= j < p.deps.len() ==> (#[trigger] p.evidence[i].requirements[j]).is_none()
        }),
{
    let g = graph_view(nodes);
    let t = table_view(&audits.criteria);
    let p = plan_of(g, t, config, audits, imports, k);
    lemma_built_in_table(&audits.criteria);
    lemma_graph_view(nodes);
    lemma_init_exemptions(nodes, nodes@.len());
    let (keys, lists) = init_exemptions(nodes, nodes@.len());
    let gp = g.packages[k];
    let i = spec_order(dep_indices(nodes)).unwrap()[k];
    assert(gp.name == nodes@[i].name@ && gp.version == nodes@[i].version@);
    assert(!nodes@[i].is_first_party);
    assert(exempted_under(keys, lists, gp.name, gp.version));
    lemma_find(keys, gp.name);
    let u = spec_find(keys, gp.name).unwrap();
    let e = choose|e: int| 0 <= e < lists[u].len() && lists[u][e] == gp.version;
    assert(config.unaudited.keys().len() == config.unaudited.entries@.len());
    let list = config.unaudited.entries@[u].1;
    assert(exempts(&list, lists[u]));
    assert(exemptions_of(config, gp.name) == list@);
    lemma_find(audits.audits.keys(), gp.name);
    assert(entries_in(audits, gp.name) =~= Seq::empty());
    assert(imported(imports, gp.name, 0) =~= Seq::empty());
    let recorded = audits_of(audits, imports, gp.name);
    assert(recorded =~= Seq::empty());
    assert(audit_evidence(t, recorded, g.dep_names(k), 0) =~= Seq::empty());
    assert(audit_violations(t, recorded, 0) =~= Seq::empty());
    let exempted = exemption_evidence(t, list@, g.dep_names(k).len());
    assert(p.evidence =~= exempted);
    assert(p.evidence[e] == exemption_view(t, list@[e], e, g.dep_names(k).len()));
    assert(list@[e].criteria@ == safe_to_deploy());
    assert(t.expansion(safe_to_deploy()) == t.implied[1]);
    assert(p.evidence[e].criteria == seq![true, true]);
    assert(p.evidence[e].to == p.version);
}

/// On the first day every package achieves every criterion.
pub proof fn lemma_first_day_achieved(
    nodes: &Vec<PackageNode>,
    config: &ConfigFile,
    audits: &AuditsFile,
    imports: &ImportsFile,
    k: nat,
)
    requires
        sound(nodes),
        first_day(nodes, config, audits, imports),
        k <= nodes@.len(),
    ensures
        ({
            let g = graph_view(nodes);
            let t = table_view(&audits.criteria);
            let m = model_of(g, t, config, audits, imports);
            &&& m.achieved_upto(k).len() == k
            &&& forall|d: int| 0 <= d < k ==> #[trigger] m.achieved_upto(k)[d] == seq![true, true]
        }),
    decreases k,
{
    let g = graph_view(nodes);
    let t = table_view(&audits.criteria);
    let m = model_of(g, t, config, audits, imports);
    lemma_built_in_table(&audits.criteria);
    lemma_graph_view(nodes);
    if k > 0 {
        lemma_first_day_achieved(nodes, config, audits, imports, (k - 1) as nat);
        let before = m.achieved_upto((k - 1) as nat);
        let p = m.plans[k - 1];
        assert(p == plan_of(g, t, config, audits, imports, k - 1));
        let set = p.achieved_set(m.implied, before);
        if p.first_party {
            assert(set =~= seq![true, true]);
        } else {
            lemma_first_day_plan(nodes, config, audits, imports, k - 1);
            let i = choose|i: int|
                #![trigger p.evidence[i]]
                0 <= i < p.evidence.len() && p.evidence[i].from.is_none() && p.evidence[i].to
                    == p.version && p.evidence[i].criteria == seq![true, true] && forall|j: int|
                    0 <= j < p.deps.len() ==> (#[trigger] p.evidence[i].requirements[j]).is_none();
            assert forall|c: int| 0 <= c < 2 implies p.attains(m.implied, before, c) by {
                let usable = p.usable_for(m.implied, before, c);
                assert(p.covers(i, c));
                assert forall|j: int|
                    #![trigger p.deps[j]]
                    0 <= j < p.deps.len() implies subset(
                    p.evidence[i].asks(m.implied, j, c),
                    before[p.deps[j]],
                ) by {
                    assert(p.evidence[i].requirements[j].is_none());
                    assert(g.packages[k - 1].deps[j] < k - 1);
                    assert(before[p.deps[j]] == seq![true, true]);
                    assert(m.implied[c].len() == 2);
                }
                assert(p.usable(m.implied, before, i, c));
                assert(usable[i]);
                lemma_start_reached(p.links(), p.starts(), usable, i);
                assert(p.arrivals()[i]);
            }
            assert(set =~= seq![true, true]);
        }
    }
}

/// Idempotence of the first day: resolution accepts the files that
/// [`crate::init::init_files`] writes for a sound graph, and succeeds on
/// them.
pub proof fn lemma_first_day_passes(
    nodes: &Vec<PackageNode>,
    config: &ConfigFile,
    audits: &AuditsFile,
    imports: &ImportsFile,
)
    requires
        sound(nodes),
        first_day(nodes, config, audits, imports),
    ensures
        spec_resolve(nodes, config, audits, imports) matches Ok(report) && report.success,
{
    let g = graph_view(nodes);
    let t = table_view(&audits.criteria);
    let m = model_of(g, t, config, audits, imports);
    lemma_first_day_fit(nodes, config, audits, imports);
    lemma_built_in_table(&audits.criteria);
    lemma_graph_view(nodes);
    let n = nodes@.len();
    lemma_first_day_achieved(nodes, config, audits, imports, n);
    assert forall|k: int| 0 <= k < m.plans.len() implies #[trigger] m.passes(k) by {
        let p = m.plans[k];
        assert(p == plan_of(g, t, config, audits, imports, k));
        crate::laws::lemma_required_unfold(m, k);
        assert(m.required(k).len() == 2);
        if p.first_party {
            lemma_find(config.policy.keys(), g.packages[k].name);
            assert forall|j: int|
                #![trigger p.deps[j]]
                0 <= j < p.deps.len() implies subset(
                m.demand(k, m.required(k), j),
                m.achieved()[p.deps[j]],
            ) by {
                assert(0 <= g.packages[k].deps[j] < k);
                assert(p.dep_declared[j].is_none());
                assert(p.self_declared.is_none());
                assert(m.default.len() == 2);
                assert(m.achieved()[p.deps[j]] == seq![true, true]);
            }
        }
    }
}

} // verus!
