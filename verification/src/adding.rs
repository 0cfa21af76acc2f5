//! Monotonicity in evidence, of the files: a further audit that is no
//! violation, or a further exemption, under the name of a package keeps a
//! successful resolution successful.

use crate::criteria::{subset, table_view, TableView};
use crate::format::{AuditEntry, AuditsFile, ConfigFile, ImportsFile, UnauditedDependency};
use crate::graph::{graph_view, PackageNode};
use crate::laws::{
    accepted_model, grows, lemma_accepted, lemma_evidence_helps, lemma_more_evidence_keeps_success,
    plan_grows, same_places, same_policies,
};
use crate::model::{EvidenceView, PlanView, ViolationView};
use crate::prepare::{
    audit_evidence, audit_violations, audits_of, evidence_view, exemption_evidence, exemptions_of,
    plan_of, violation_view,
};
use crate::resolver::{spec_fault, spec_resolve};
use crate::version::VersionView;
use vstd::prelude::*;

verus! {

/// The two pieces of evidence agree in all but the place of their entry.
pub open spec fn same_but_place(a: EvidenceView, b: EvidenceView) -> bool {
    &&& a.from == b.from
    &&& a.to == b.to
    &&& a.criteria == b.criteria
    &&& a.requirements == b.requirements
}

/// The two violations agree in all but the place of their entry.
pub open spec fn same_violation(a: ViolationView, b: ViolationView) -> bool {
    a.requirement == b.requirement && a.criteria == b.criteria
}

/// The entry is no violation.
pub open spec fn is_evidence(e: AuditEntry) -> bool {
    !(e.kind is Violation)
}

/// Lists of audits that agree on their first `upto` entries give the same
/// evidence and the same violations from those.
proof fn lemma_agree(
    t: TableView,
    one: Seq<AuditEntry>,
    two: Seq<AuditEntry>,
    deps: Seq<Seq<char>>,
    upto: nat,
)
    requires
        forall|i: int| 0 <= i < upto ==> one[i] == two[i],
    ensures
        audit_evidence(t, one, deps, upto) == audit_evidence(t, two, deps, upto),
        audit_violations(t, one, upto) == audit_violations(t, two, upto),
    decreases upto,
{
    if upto > 0 {
        lemma_agree(t, one, two, deps, (upto - 1) as nat);
    }
}

/// The evidence of a list of audits with an audit put in at place `pos`: the
/// evidence of the list, with that of the new audit put in where the
/// evidence of the first `pos` audits ends. The violations stay.
proof fn lemma_put_in(
    t: TableView,
    entries: Seq<AuditEntry>,
    deps: Seq<Seq<char>>,
    pos: int,
    e: AuditEntry,
    upto: nat,
)
    requires
        0 <= pos <= entries.len(),
        pos < upto <= entries.len() + 1,
        is_evidence(e),
    ensures
        ({
            let more = entries.insert(pos, e);
            let start = audit_evidence(t, entries, deps, pos as nat).len();
            let old = audit_evidence(t, entries, deps, (upto - 1) as nat);
            let now = audit_evidence(t, more, deps, upto);
            let old_violations = audit_violations(t, entries, (upto - 1) as nat);
            let now_violations = audit_violations(t, more, upto);
            &&& start <= old.len()
            &&& now.len() == old.len() + 1
            &&& forall|x: int| 0 <= x < start ==> #[trigger] now[x] == old[x]
            &&& same_but_place(now[start as int], evidence_view(t, e, pos, deps).unwrap())
            &&& forall|x: int| start <= x < old.len() ==> same_but_place(now[x + 1], #[trigger] old[x])
            &&& now_violations.len() == old_violations.len()
            &&& forall|w: int|
                0 <= w < old_violations.len() ==> same_violation(
                    now_violations[w],
                    #[trigger] old_violations[w],
                )
        }),
    decreases upto,
{
    let more = entries.insert(pos, e);
    let start = audit_evidence(t, entries, deps, pos as nat).len();
    let old = audit_evidence(t, entries, deps, (upto - 1) as nat);
    let now = audit_evidence(t, more, deps, upto);
    let old_violations = audit_violations(t, entries, (upto - 1) as nat);
    let now_violations = audit_violations(t, more, upto);
    if upto == pos + 1 {
        assert forall|i: int| 0 <= i < pos implies entries[i] == more[i] by {}
        lemma_agree(t, entries, more, deps, pos as nat);
        assert(more[pos] == e);
        let one = evidence_view(t, e, pos, deps).unwrap();
        assert(now == old.push(one));
    } else {
        lemma_put_in(t, entries, deps, pos, e, (upto - 1) as nat);
        let before_old = audit_evidence(t, entries, deps, (upto - 2) as nat);
        let before_now = audit_evidence(t, more, deps, (upto - 1) as nat);
        let before_old_violations = audit_violations(t, entries, (upto - 2) as nat);
        let before_now_violations = audit_violations(t, more, (upto - 1) as nat);
        assert(more[upto - 1] == entries[upto - 2]);
        let last = entries[upto - 2];
        match evidence_view(t, last, upto - 2, deps) {
            Some(one) => {
                let two = evidence_view(t, last, upto - 1, deps).unwrap();
                assert(same_but_place(two, one));
                assert(old == before_old.push(one));
                assert(now == before_now.push(two));
                assert(now_violations == before_now_violations);
                assert(old_violations == before_old_violations);
                assert forall|x: int| start <= x < old.len() implies same_but_place(
                    now[x + 1],
                    #[trigger] old[x],
                ) by {
                    if x < before_old.len() {
                        assert(same_but_place(before_now[x + 1], before_old[x]));
                    }
                }
            },
            None => {
                let v = violation_view(t, last, upto - 2).unwrap();
                let w = violation_view(t, last, upto - 1).unwrap();
                assert(same_violation(w, v));
                assert(old == before_old);
                assert(now == before_now);
                assert(old_violations == before_old_violations.push(v));
                assert(now_violations == before_now_violations.push(w));
                assert forall|x: int| 0 <= x < old_violations.len() implies same_violation(
                    now_violations[x],
                    #[trigger] old_violations[x],
                ) by {
                    if x < before_old_violations.len() {
                        assert(same_violation(before_now_violations[x], before_old_violations[x]));
                    }
                }
            },
        }
    }
}

/// The renaming of `n` places that leaves room at place `start`.
pub open spec fn skipping(n: nat, start: int) -> Seq<int> {
    Seq::new(
        n,
        |x: int|
            if x < start {
                x
            } else {
                x + 1
            },
    )
}

/// A plan whose evidence is that of another with one piece put in, and whose
/// violations are the same, has at least the evidence of the other.
proof fn lemma_plan_put_in(p: PlanView, q: PlanView, start: int)
    requires
        q.version == p.version,
        q.first_party == p.first_party,
        q.deps == p.deps,
        0 <= start <= p.evidence.len(),
        q.evidence.len() == p.evidence.len() + 1,
        forall|x: int| 0 <= x < start ==> same_but_place(q.evidence[x], #[trigger] p.evidence[x]),
        forall|x: int|
            start <= x < p.evidence.len() ==> same_but_place(
                q.evidence[x + 1],
                #[trigger] p.evidence[x],
            ),
        q.violations.len() == p.violations.len(),
        forall|w: int|
            0 <= w < p.violations.len() ==> same_violation(
                q.violations[w],
                #[trigger] p.violations[w],
            ),
    ensures
        plan_grows(p, q, skipping(p.evidence.len(), start)),
{
    let embed = skipping(p.evidence.len(), start);
    assert forall|c: int, v: VersionView| q.masked(c, v) implies p.masked(c, v) by {
        let w = choose|w: int| 0 <= w < q.violations.len() && (#[trigger] q.violations[w]).hits(c, v);
        assert(same_violation(q.violations[w], p.violations[w]));
        assert(p.violations[w].hits(c, v));
    }
    assert forall|i: int|
        #![trigger embed[i]]
        0 <= i < p.evidence.len() implies {
        &&& 0 <= embed[i] < q.evidence.len()
        &&& q.evidence[embed[i]].from == p.evidence[i].from
        &&& q.evidence[embed[i]].to == p.evidence[i].to
        &&& q.evidence[embed[i]].requirements == p.evidence[i].requirements
        &&& forall|c: int| #[trigger] p.covers(i, c) ==> q.covers(embed[i], c)
    } by {
        assert(same_but_place(q.evidence[embed[i]], p.evidence[i]));
        assert forall|c: int| #[trigger] p.covers(i, c) implies q.covers(embed[i], c) by {
            if q.masked(c, q.evidence[embed[i]].to) {
                assert(p.masked(c, p.evidence[i].to));
            }
            if q.evidence[embed[i]].from.is_some() && q.masked(
                c,
                q.evidence[embed[i]].from.unwrap(),
            ) {
                assert(p.masked(c, p.evidence[i].from.unwrap()));
            }
        }
    }
}

/// A plan has at least its own evidence.
proof fn lemma_plan_same(p: PlanView)
    ensures
        plan_grows(p, p, same_places(p.evidence.len())),
{
}

/// Monotonicity in evidence, for a further audit: where resolution succeeds
/// on files, it succeeds on files that differ from them by one more audit
/// under one name, put in at any place among the audits of that name, as long
/// as the audit is no violation.
pub proof fn lemma_further_audit_keeps_success(
    nodes: &Vec<PackageNode>,
    config: &ConfigFile,
    audits: &AuditsFile,
    imports: &ImportsFile,
    more_audits: &AuditsFile,
    more_imports: &ImportsFile,
    name: Seq<char>,
    pos: int,
    e: AuditEntry,
)
    requires
        spec_fault(nodes, config, audits, imports).is_none(),
        spec_fault(nodes, config, more_audits, more_imports).is_none(),
        audits.criteria == more_audits.criteria,
        is_evidence(e),
        0 <= pos <= audits_of(audits, imports, name).len(),
        audits_of(more_audits, more_imports, name) == audits_of(audits, imports, name).insert(
            pos,
            e,
        ),
        forall|other: Seq<char>|
            other != name ==> #[trigger] audits_of(more_audits, more_imports, other) == audits_of(
                audits,
                imports,
                other,
            ),
        spec_resolve(nodes, config, audits, imports).unwrap().success,
    ensures
        spec_resolve(nodes, config, more_audits, more_imports).unwrap().success,
{
    let g = graph_view(nodes);
    let t = table_view(&audits.criteria);
    let m = accepted_model(nodes, config, audits, imports);
    let n = accepted_model(nodes, config, more_audits, more_imports);
    lemma_accepted(nodes, config, audits, imports);
    lemma_accepted(nodes, config, more_audits, more_imports);
    let recorded = audits_of(audits, imports, name);
    let more = audits_of(more_audits, more_imports, name);
    let embed = Seq::new(
        m.plans.len(),
        |k: int|
            if g.packages[k].name == name && !g.packages[k].is_first_party {
                skipping(
                    m.plans[k].evidence.len(),
                    audit_evidence(t, recorded, g.dep_names(k), pos as nat).len() as int,
                )
            } else {
                same_places(m.plans[k].evidence.len())
            },
    );
    assert forall|k: int| 0 <= k < m.plans.len() implies plan_grows(
        #[trigger] m.plans[k],
        n.plans[k],
        embed[k],
    ) by {
        let p = m.plans[k];
        let q = n.plans[k];
        let gp = g.packages[k];
        let deps = g.dep_names(k);
        assert(p == plan_of(g, t, config, audits, imports, k));
        assert(q == plan_of(g, t, config, more_audits, more_imports, k));
        if gp.name == name && !gp.is_first_party {
            lemma_put_in(t, recorded, deps, pos, e, more.len());
            let start = audit_evidence(t, recorded, deps, pos as nat).len() as int;
            let old = audit_evidence(t, recorded, deps, recorded.len());
            let now = audit_evidence(t, more, deps, more.len());
            let exempted = exemption_evidence(t, exemptions_of(config, gp.name), deps.len());
            assert(p.evidence == old + exempted);
            assert(q.evidence == now + exempted);
            assert forall|x: int| 0 <= x < start implies same_but_place(
                q.evidence[x],
                #[trigger] p.evidence[x],
            ) by {
                assert(now[x] == old[x]);
            }
            assert forall|x: int| start <= x < p.evidence.len() implies same_but_place(
                q.evidence[x + 1],
                #[trigger] p.evidence[x],
            ) by {
                if x < old.len() {
                    assert(same_but_place(now[x + 1], old[x]));
                } else {
                    assert(q.evidence[x + 1] == exempted[x - old.len()]);
                    assert(p.evidence[x] == exempted[x - old.len()]);
                }
            }
            lemma_plan_put_in(p, q, start);
        } else {
            if !gp.is_first_party {
                assert(audits_of(more_audits, more_imports, gp.name) == audits_of(
                    audits,
                    imports,
                    gp.name,
                ));
            }
            assert(p == q);
            lemma_plan_same(p);
        }
    }
    assert(grows(m, n, embed));
    assert(same_policies(m, n)) by {
        assert forall|k: int|
            #![trigger m.plans[k]]
            0 <= k < m.plans.len() implies {
            &&& n.plans[k].is_root == m.plans[k].is_root
            &&& n.plans[k].self_declared == m.plans[k].self_declared
            &&& n.plans[k].dep_declared == m.plans[k].dep_declared
        } by {
            assert(m.plans[k] == plan_of(g, t, config, audits, imports, k));
            assert(n.plans[k] == plan_of(g, t, config, more_audits, more_imports, k));
        }
    }
    lemma_more_evidence_keeps_success(m, n, embed);
}

/// Monotonicity in evidence, for a further exemption: where resolution
/// succeeds on files, it succeeds on files that differ from them by one more
/// exemption under one name, put in at any place among the exemptions of that
/// name.
pub proof fn lemma_further_exemption_keeps_success(
    nodes: &Vec<PackageNode>,
    config: &ConfigFile,
    audits: &AuditsFile,
    imports: &ImportsFile,
    more_config: &ConfigFile,
    name: Seq<char>,
    pos: int,
    u: UnauditedDependency,
)
    requires
        spec_fault(nodes, config, audits, imports).is_none(),
        spec_fault(nodes, more_config, audits, imports).is_none(),
        more_config.default_criteria == config.default_criteria,
        more_config.policy == config.policy,
        0 <= pos <= exemptions_of(config, name).len(),
        exemptions_of(more_config, name) == exemptions_of(config, name).insert(pos, u),
        forall|other: Seq<char>|
            other != name ==> #[trigger] exemptions_of(more_config, other) == exemptions_of(
                config,
                other,
            ),
        spec_resolve(nodes, config, audits, imports).unwrap().success,
    ensures
        spec_resolve(nodes, more_config, audits, imports).unwrap().success,
{
    let g = graph_view(nodes);
    let t = table_view(&audits.criteria);
    let m = accepted_model(nodes, config, audits, imports);
    let n = accepted_model(nodes, more_config, audits, imports);
    lemma_accepted(nodes, config, audits, imports);
    lemma_accepted(nodes, more_config, audits, imports);
    let list = exemptions_of(config, name);
    let more = exemptions_of(more_config, name);
    let embed = Seq::new(
        m.plans.len(),
        |k: int|
            if g.packages[k].name == name && !g.packages[k].is_first_party {
                skipping(m.plans[k].evidence.len(), m.plans[k].evidence.len() - list.len() + pos)
            } else {
                same_places(m.plans[k].evidence.len())
            },
    );
    assert forall|k: int| 0 <= k < m.plans.len() implies plan_grows(
        #[trigger] m.plans[k],
        n.plans[k],
        embed[k],
    ) by {
        let p = m.plans[k];
        let q = n.plans[k];
        let gp = g.packages[k];
        let deps = g.dep_names(k);
        assert(p == plan_of(g, t, config, audits, imports, k));
        assert(q == plan_of(g, t, more_config, audits, imports, k));
        if gp.name == name && !gp.is_first_party {
            let recorded = audits_of(audits, imports, name);
            let audited = audit_evidence(t, recorded, deps, recorded.len());
            let old = exemption_evidence(t, list, deps.len());
            let now = exemption_evidence(t, more, deps.len());
            let start = audited.len() + pos;
            assert(p.evidence == audited + old);
            assert(q.evidence == audited + now);
            assert forall|x: int| 0 <= x < start implies same_but_place(
                q.evidence[x],
                #[trigger] p.evidence[x],
            ) by {
                if x >= audited.len() {
                    assert(more[x - audited.len()] == list[x - audited.len()]);
                }
            }
            assert forall|x: int| start <= x < p.evidence.len() implies same_but_place(
                q.evidence[x + 1],
                #[trigger] p.evidence[x],
            ) by {
                assert(more[x + 1 - audited.len()] == list[x - audited.len()]);
            }
            lemma_plan_put_in(p, q, start);
        } else {
            if !gp.is_first_party {
                assert(exemptions_of(more_config, gp.name) == exemptions_of(config, gp.name));
            }
            assert(p == q);
            lemma_plan_same(p);
        }
    }
    assert(grows(m, n, embed));
    assert(same_policies(m, n)) by {
        assert forall|k: int|
            #![trigger m.plans[k]]
            0 <= k < m.plans.len() implies {
            &&& n.plans[k].is_root == m.plans[k].is_root
            &&& n.plans[k].self_declared == m.plans[k].self_declared
            &&& n.plans[k].dep_declared == m.plans[k].dep_declared
        } by {
            assert(m.plans[k] == plan_of(g, t, config, audits, imports, k));
            assert(n.plans[k] == plan_of(g, t, more_config, audits, imports, k));
        }
    }
    lemma_more_evidence_keeps_success(m, n, embed);
}

/// The list holds a violation that agrees with `v` in all but its place.
pub open spec fn kept(list: Seq<ViolationView>, v: ViolationView) -> bool {
    exists|x: int| 0 <= x < list.len() && same_violation(#[trigger] list[x], v)
}

/// The evidence of a list of audits with a violation put in at place `pos`
/// is the evidence of the list; its violations are those of the list with
/// the new one put in.
proof fn lemma_put_in_violation(
    t: TableView,
    entries: Seq<AuditEntry>,
    deps: Seq<Seq<char>>,
    pos: int,
    e: AuditEntry,
    upto: nat,
)
    requires
        0 <= pos <= entries.len(),
        pos < upto <= entries.len() + 1,
        !is_evidence(e),
    ensures
        ({
            let more = entries.insert(pos, e);
            let old = audit_evidence(t, entries, deps, (upto - 1) as nat);
            let now = audit_evidence(t, more, deps, upto);
            let old_violations = audit_violations(t, entries, (upto - 1) as nat);
            let now_violations = audit_violations(t, more, upto);
            &&& now.len() == old.len()
            &&& forall|x: int| 0 <= x < old.len() ==> same_but_place(now[x], #[trigger] old[x])
            &&& forall|w: int|
                0 <= w < old_violations.len() ==> kept(now_violations, #[trigger] old_violations[w])
        }),
    decreases upto,
{
    let more = entries.insert(pos, e);
    let old = audit_evidence(t, entries, deps, (upto - 1) as nat);
    let now = audit_evidence(t, more, deps, upto);
    let old_violations = audit_violations(t, entries, (upto - 1) as nat);
    let now_violations = audit_violations(t, more, upto);
    if upto == pos + 1 {
        assert forall|i: int| 0 <= i < pos implies entries[i] == more[i] by {}
        lemma_agree(t, entries, more, deps, pos as nat);
        assert(more[pos] == e);
        let one = violation_view(t, e, pos).unwrap();
        assert(now == old);
        assert(now_violations == old_violations.push(one));
        assert forall|w: int| 0 <= w < old_violations.len() implies kept(
            now_violations,
            #[trigger] old_violations[w],
        ) by {
            assert(same_violation(now_violations[w], old_violations[w]));
        }
    } else {
        lemma_put_in_violation(t, entries, deps, pos, e, (upto - 1) as nat);
        let before_old = audit_evidence(t, entries, deps, (upto - 2) as nat);
        let before_now = audit_evidence(t, more, deps, (upto - 1) as nat);
        let before_old_violations = audit_violations(t, entries, (upto - 2) as nat);
        let before_now_violations = audit_violations(t, more, (upto - 1) as nat);
        assert(more[upto - 1] == entries[upto - 2]);
        let last = entries[upto - 2];
        match evidence_view(t, last, upto - 2, deps) {
            Some(one) => {
                let two = evidence_view(t, last, upto - 1, deps).unwrap();
                assert(same_but_place(two, one));
                assert(old == before_old.push(one));
                assert(now == before_now.push(two));
                assert(now_violations == before_now_violations);
                assert(old_violations == before_old_violations);
                assert forall|x: int| 0 <= x < old.len() implies same_but_place(
                    now[x],
                    #[trigger] old[x],
                ) by {
                    if x < before_old.len() {
                        assert(same_but_place(before_now[x], before_old[x]));
                    }
                }
            },
            None => {
                let v = violation_view(t, last, upto - 2).unwrap();
                let w = violation_view(t, last, upto - 1).unwrap();
                assert(same_violation(w, v));
                assert(old == before_old);
                assert(now == before_now);
                assert(old_violations == before_old_violations.push(v));
                assert(now_violations == before_now_violations.push(w));
                assert forall|y: int| 0 <= y < old_violations.len() implies kept(
                    now_violations,
                    #[trigger] old_violations[y],
                ) by {
                    if y < before_old_violations.len() {
                        assert(kept(before_now_violations, before_old_violations[y]));
                        let x = choose|x: int|
                            0 <= x < before_now_violations.len() && same_violation(
                                #[trigger] before_now_violations[x],
                                before_old_violations[y],
                            );
                        assert(same_violation(now_violations[x], old_violations[y]));
                    } else {
                        assert(same_violation(
                            now_violations[before_now_violations.len() as int],
                            old_violations[y],
                        ));
                    }
                }
            },
        }
    }
}

/// Violation masks, of the files: removing a violation cannot decrease what
/// any package achieves. The files `with` differ from the files without by
/// one more violation under one name.
pub proof fn lemma_fewer_violations_help(
    nodes: &Vec<PackageNode>,
    config: &ConfigFile,
    audits: &AuditsFile,
    imports: &ImportsFile,
    with_audits: &AuditsFile,
    with_imports: &ImportsFile,
    name: Seq<char>,
    pos: int,
    e: AuditEntry,
    k: int,
)
    requires
        spec_fault(nodes, config, audits, imports).is_none(),
        spec_fault(nodes, config, with_audits, with_imports).is_none(),
        audits.criteria == with_audits.criteria,
        !is_evidence(e),
        0 <= pos <= audits_of(audits, imports, name).len(),
        audits_of(with_audits, with_imports, name) == audits_of(audits, imports, name).insert(
            pos,
            e,
        ),
        forall|other: Seq<char>|
            other != name ==> #[trigger] audits_of(with_audits, with_imports, other) == audits_of(
                audits,
                imports,
                other,
            ),
        0 <= k < nodes@.len(),
    ensures
        subset(
            spec_resolve(nodes, config, with_audits, with_imports).unwrap().packages[k].achieved,
            spec_resolve(nodes, config, audits, imports).unwrap().packages[k].achieved,
        ),
{
    let g = graph_view(nodes);
    let t = table_view(&audits.criteria);
    let m = accepted_model(nodes, config, with_audits, with_imports);
    let n = accepted_model(nodes, config, audits, imports);
    lemma_accepted(nodes, config, audits, imports);
    lemma_accepted(nodes, config, with_audits, with_imports);
    let recorded = audits_of(audits, imports, name);
    let more = audits_of(with_audits, with_imports, name);
    let embed = Seq::new(m.plans.len(), |x: int| same_places(m.plans[x].evidence.len()));
    assert forall|x: int| 0 <= x < m.plans.len() implies plan_grows(
        #[trigger] m.plans[x],
        n.plans[x],
        embed[x],
    ) by {
        let p = m.plans[x];
        let q = n.plans[x];
        let gp = g.packages[x];
        let deps = g.dep_names(x);
        assert(p == plan_of(g, t, config, with_audits, with_imports, x));
        assert(q == plan_of(g, t, config, audits, imports, x));
        if gp.name == name && !gp.is_first_party {
            lemma_put_in_violation(t, recorded, deps, pos, e, more.len());
            let old = audit_evidence(t, recorded, deps, recorded.len());
            let now = audit_evidence(t, more, deps, more.len());
            let exempted = exemption_evidence(t, exemptions_of(config, gp.name), deps.len());
            assert(q.evidence == old + exempted);
            assert(p.evidence == now + exempted);
            assert forall|c: int, v: VersionView| q.masked(c, v) implies p.masked(c, v) by {
                let w = choose|w: int|
                    0 <= w < q.violations.len() && (#[trigger] q.violations[w]).hits(c, v);
                assert(kept(p.violations, q.violations[w]));
                let y = choose|y: int|
                    0 <= y < p.violations.len() && same_violation(
                        #[trigger] p.violations[y],
                        q.violations[w],
                    );
                assert(p.violations[y].hits(c, v));
            }
            assert forall|i: int|
                #![trigger embed[x][i]]
                0 <= i < p.evidence.len() implies {
                &&& 0 <= embed[x][i] < q.evidence.len()
                &&& q.evidence[embed[x][i]].from == p.evidence[i].from
                &&& q.evidence[embed[x][i]].to == p.evidence[i].to
                &&& q.evidence[embed[x][i]].requirements == p.evidence[i].requirements
                &&& forall|c: int| #[trigger] p.covers(i, c) ==> q.covers(embed[x][i], c)
            } by {
                if i < old.len() {
                    assert(same_but_place(now[i], old[i]));
                } else {
                    assert(p.evidence[i] == exempted[i - now.len()]);
                    assert(q.evidence[i] == exempted[i - old.len()]);
                }
                assert(same_but_place(p.evidence[i], q.evidence[i]));
                assert forall|c: int| #[trigger] p.covers(i, c) implies q.covers(
                    embed[x][i],
                    c,
                ) by {
                    if q.masked(c, q.evidence[i].to) {
                        assert(p.masked(c, p.evidence[i].to));
                    }
                    if q.evidence[i].from.is_some() && q.masked(c, q.evidence[i].from.unwrap()) {
                        assert(p.masked(c, p.evidence[i].from.unwrap()));
                    }
                }
            }
        } else {
            if !gp.is_first_party {
                assert(audits_of(with_audits, with_imports, gp.name) == audits_of(
                    audits,
                    imports,
                    gp.name,
                ));
            }
            assert(p == q);
            lemma_plan_same(p);
        }
    }
    assert(grows(m, n, embed));
    lemma_evidence_helps(m, n, embed);
    let first = spec_resolve(nodes, config, with_audits, with_imports).unwrap();
    let second = spec_resolve(nodes, config, audits, imports).unwrap();
    let _ = first.packages[k];
    let _ = second.packages[k];
    assert(subset(m.achieved()[k], n.achieved()[k]));
}

} // verus!
