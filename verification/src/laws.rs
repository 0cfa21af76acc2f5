//! What holds of resolution for every model: laws about what packages
//! achieve, what is required of them, and whether they pass.

use crate::criteria::lemma_table_view_wf;
use crate::criteria::table_view;
use crate::criteria::{holds, subset, TableView};
use crate::format::{AuditEntry, AuditKind, AuditsFile, ConfigFile, ImportsFile};
use crate::graph::{graph_view, GraphView, PackageNode};
use crate::graph::{lemma_graph_view, sound};
use crate::model::{ModelView, PlanView};
use crate::prepare::{
    audit_violations, audits_of, lemma_model_wf, model_of, plan_of, violation_view,
};
use crate::reach::{
    is_chain, lemma_reached_is_active, lemma_reaches_embedded, reaches, well_shaped,
};
use crate::report::Report;
use crate::resolver::{resolves_to, result_view, spec_fault, spec_resolve, ResolveError};
use crate::settle::{lemma_achieved_at, lemma_required_prefix};
use crate::version::{semver_matches, VersionView};
use crate::warn::stray_upto;
use vstd::prelude::*;

verus! {

/// The links of a plan form a square matrix over its entries.
pub proof fn lemma_plan_shape(p: PlanView, active: Seq<bool>)
    requires
        active.len() == p.evidence.len(),
    ensures
        well_shaped(p.links(), p.starts(), active),
        well_shaped(p.back_links(), p.arrivals(), active),
{
}

/// The renaming of the entries of a plan that renames nothing.
pub open spec fn same_places(n: nat) -> Seq<int> {
    Seq::new(n, |i: int| i)
}

/// A violation masks: a package does not achieve a criterion that is masked
/// at its version, whatever the evidence, and no entry that touches a version
/// masked for a criterion covers that criterion.
pub proof fn lemma_violation_masks(m: ModelView, k: int, c: int)
    requires
        m.wf(),
        0 <= k < m.plans.len(),
        !m.plans[k].first_party,
        m.plans[k].masked(c, m.plans[k].version),
    ensures
        !holds(m.achieved()[k], c),
        !m.plans[k].attains_alone(c),
        forall|i: int|
            0 <= i < m.plans[k].evidence.len() && (m.plans[k].masked(c, m.plans[k].evidence[i].to)
                || (m.plans[k].evidence[i].from matches Some(f) && m.plans[k].masked(c, f)))
                ==> !#[trigger] m.plans[k].covers(i, c),
{
    let p = m.plans[k];
    lemma_achieved_at(m, k);
    let usable = p.usable_for(m.implied, m.achieved(), c);
    if p.witnessed(usable) {
        let i = choose|i: int|
            0 <= i < p.evidence.len() && p.arrivals()[i] && #[trigger] reaches(
                p.links(),
                p.starts(),
                usable,
                i,
            );
        lemma_reached_is_active(p.links(), p.starts(), usable, i);
        assert(p.usable(m.implied, m.achieved(), i, c));
    }
    if p.witnessed(p.covering(c)) {
        let i = choose|i: int|
            0 <= i < p.evidence.len() && p.arrivals()[i] && #[trigger] reaches(
                p.links(),
                p.starts(),
                p.covering(c),
                i,
            );
        lemma_reached_is_active(p.links(), p.starts(), p.covering(c), i);
        assert(p.covers(i, c));
    }
}

/// At the versions that entry `i` starts from and leads to, criterion `d` is
/// masked only where criterion `c` is masked.
pub open spec fn masked_no_more(p: PlanView, i: int, c: int, d: int) -> bool {
    &&& p.masked(d, p.evidence[i].to) ==> p.masked(c, p.evidence[i].to)
    &&& p.evidence[i].from matches Some(f) ==> (p.masked(d, f) ==> p.masked(c, f))
}

/// An entry that is usable for a criterion is usable for every criterion
/// that the first implies, unless a violation masks the second alone at a
/// version that the entry touches.
pub proof fn lemma_usable_implied(m: ModelView, k: int, i: int, c: int, d: int)
    requires
        m.wf(),
        0 <= k < m.plans.len(),
        0 <= i < m.plans[k].evidence.len(),
        m.plans[k].usable(m.implied, m.achieved(), i, c),
        m.implies(c, d),
        masked_no_more(m.plans[k], i, c, d),
    ensures
        m.plans[k].usable(m.implied, m.achieved(), i, d),
{
    let p = m.plans[k];
    let a = m.achieved();
    assert(m.plan_wf(k));
    assert(m.closed(p.evidence[i].criteria));
    assert(holds(p.evidence[i].criteria, d));
    assert forall|j: int|
        #![trigger p.deps[j]]
        0 <= j < p.deps.len() implies subset(p.evidence[i].asks(m.implied, j, d), a[p.deps[j]]) by {
        assert(subset(p.evidence[i].asks(m.implied, j, c), a[p.deps[j]]));
        if p.evidence[i].requirements[j].is_none() {
            assert forall|x: int| #[trigger] holds(m.implied[d], x) implies holds(
                a[p.deps[j]],
                x,
            ) by {
                assert(m.implies(d, x));
                assert(m.implies(c, x));
                assert(holds(m.implied[c], x));
            }
        }
    }
}

/// `chain` is a witness of criterion `c` for the package, and at none of the
/// versions on it is criterion `d` masked where `c` is not.
pub open spec fn unhindered(m: ModelView, k: int, c: int, d: int, chain: Seq<int>) -> bool {
    let p = m.plans[k];
    &&& is_chain(p.links(), p.starts(), p.usable_for(m.implied, m.achieved(), c), chain)
    &&& p.arrivals()[chain.last()]
    &&& forall|x: int| 0 <= x < chain.len() ==> masked_no_more(p, #[trigger] chain[x], c, d)
}

/// Implication closure along a witness: a package achieves every criterion
/// that is implied by a criterion for which it has a witness, unless a
/// violation masks the implied criterion alone at a version on that witness.
pub proof fn lemma_achieved_closed_along(m: ModelView, k: int, c: int, d: int, chain: Seq<int>)
    requires
        m.wf(),
        0 <= k < m.plans.len(),
        m.implies(c, d),
        unhindered(m, k, c, d, chain),
    ensures
        holds(m.achieved()[k], d),
{
    let p = m.plans[k];
    let a = m.achieved();
    lemma_achieved_at(m, k);
    assert(m.plan_wf(k));
    assert(0 <= d < m.implied.len());
    if !p.first_party {
        let first = p.usable_for(m.implied, a, c);
        let second = p.usable_for(m.implied, a, d);
        assert forall|x: int| 0 <= x < chain.len() implies 0 <= #[trigger] chain[x] < second.len()
            && second[chain[x]] by {
            assert(first[chain[x]]);
            lemma_usable_implied(m, k, chain[x], c, d);
        }
        assert(is_chain(p.links(), p.starts(), second, chain));
        assert(reaches(p.links(), p.starts(), second, chain.last()));
        assert(p.attains(m.implied, a, d));
    }
}

/// What a package achieves is closed under implication: with a criterion it
/// achieves every criterion that the first implies, as long as no violation
/// masks the second, and leaves the first alone, at a version that an entry
/// of the package starts from or leads to. Violations at other versions play
/// no part.
pub proof fn lemma_achieved_closed(m: ModelView, k: int, c: int, d: int)
    requires
        m.wf(),
        0 <= k < m.plans.len(),
        holds(m.achieved()[k], c),
        m.implies(c, d),
        forall|i: int|
            0 <= i < m.plans[k].evidence.len() ==> #[trigger] masked_no_more(m.plans[k], i, c, d),
    ensures
        holds(m.achieved()[k], d),
{
    let p = m.plans[k];
    let a = m.achieved();
    lemma_achieved_at(m, k);
    assert(0 <= d < m.implied.len());
    if !p.first_party {
        let first = p.usable_for(m.implied, a, c);
        let i = choose|i: int|
            0 <= i < p.evidence.len() && p.arrivals()[i] && #[trigger] reaches(
                p.links(),
                p.starts(),
                first,
                i,
            );
        let chain = choose|chain: Seq<int>| #[trigger]
            is_chain(p.links(), p.starts(), first, chain) && chain.last() == i;
        lemma_achieved_closed_along(m, k, c, d, chain);
    }
}

/// Plan `q` has at least the evidence of plan `p` for the same package:
/// `embed` gives for each entry of `p` an entry of `q` between the same
/// versions that asks the same of the dependencies and covers at least the
/// same criteria.
pub open spec fn plan_grows(p: PlanView, q: PlanView, embed: Seq<int>) -> bool {
    &&& q.version == p.version
    &&& q.first_party == p.first_party
    &&& q.deps == p.deps
    &&& embed.len() == p.evidence.len()
    &&& forall|i: int|
        #![trigger embed[i]]
        0 <= i < p.evidence.len() ==> {
            &&& 0 <= embed[i] < q.evidence.len()
            &&& q.evidence[embed[i]].from == p.evidence[i].from
            &&& q.evidence[embed[i]].to == p.evidence[i].to
            &&& q.evidence[embed[i]].requirements == p.evidence[i].requirements
            &&& forall|c: int| #[trigger] p.covers(i, c) ==> q.covers(embed[i], c)
        }
}

/// Model `second` has at least the evidence of model `first`, over the same
/// criteria and the same graph.
pub open spec fn grows(first: ModelView, second: ModelView, embed: Seq<Seq<int>>) -> bool {
    &&& second.implied == first.implied
    &&& second.plans.len() == first.plans.len()
    &&& embed.len() == first.plans.len()
    &&& forall|k: int|
        0 <= k < first.plans.len() ==> plan_grows(
            #[trigger] first.plans[k],
            second.plans[k],
            embed[k],
        )
}

/// With more evidence a package achieves at least what it achieved, given
/// that its dependencies do.
pub proof fn lemma_plan_grows(
    p: PlanView,
    q: PlanView,
    embed: Seq<int>,
    implied: Seq<Seq<bool>>,
    first: Seq<Seq<bool>>,
    second: Seq<Seq<bool>>,
)
    requires
        plan_grows(p, q, embed),
        forall|j: int|
            0 <= j < p.deps.len() ==> subset(first[#[trigger] p.deps[j]], second[p.deps[j]]),
    ensures
        subset(p.achieved_set(implied, first), q.achieved_set(implied, second)),
{
    if !p.first_party {
        assert forall|c: int| #[trigger]
            holds(p.achieved_set(implied, first), c) implies holds(
            q.achieved_set(implied, second),
            c,
        ) by {
            let before = p.usable_for(implied, first, c);
            let after = q.usable_for(implied, second, c);
            let i = choose|i: int|
                0 <= i < p.evidence.len() && p.arrivals()[i] && #[trigger] reaches(
                    p.links(),
                    p.starts(),
                    before,
                    i,
                );
            lemma_plan_shape(p, before);
            lemma_plan_shape(q, after);
            assert forall|x: int| 0 <= x < before.len() && before[x] implies after[#[trigger] embed[x]] by {
                assert(p.usable(implied, first, x, c));
                assert(p.covers(x, c));
                assert forall|j: int|
                    #![trigger q.deps[j]]
                    0 <= j < q.deps.len() implies subset(
                    q.evidence[embed[x]].asks(implied, j, c),
                    second[q.deps[j]],
                ) by {
                    assert(subset(p.evidence[x].asks(implied, j, c), first[p.deps[j]]));
                    assert(subset(first[p.deps[j]], second[p.deps[j]]));
                }
                assert(q.usable(implied, second, embed[x], c));
            }
            assert forall|x: int, y: int|
                #![trigger embed[y], embed[x]]
                0 <= x < before.len() && 0 <= y < before.len() && before[x] && before[y]
                    && p.links()[y][x] implies q.links()[embed[y]][embed[x]] by {
                assert(p.follows(y, x));
                assert(q.follows(embed[y], embed[x]));
            }
            lemma_reaches_embedded(
                p.links(),
                p.starts(),
                before,
                q.links(),
                q.starts(),
                after,
                embed,
                i,
            );
            assert(q.arrivals()[embed[i]]);
            assert(q.attains(implied, second, c));
        }
    }
}

/// With more evidence every package achieves at least what it achieved.
pub proof fn lemma_grows_upto(first: ModelView, second: ModelView, embed: Seq<Seq<int>>, k: nat)
    requires
        first.wf(),
        grows(first, second, embed),
        k <= first.plans.len(),
    ensures
        first.achieved_upto(k).len() == k,
        second.achieved_upto(k).len() == k,
        forall|d: int|
            0 <= d < k ==> subset(#[trigger] first.achieved_upto(k)[d], second.achieved_upto(k)[d]),
    decreases k,
{
    if k > 0 {
        lemma_grows_upto(first, second, embed, (k - 1) as nat);
        let a = first.achieved_upto((k - 1) as nat);
        let b = second.achieved_upto((k - 1) as nat);
        let p = first.plans[k - 1];
        let q = second.plans[k - 1];
        assert(first.plan_wf(k - 1));
        assert(plan_grows(p, q, embed[k - 1]));
        assert forall|j: int| 0 <= j < p.deps.len() implies subset(
            a[#[trigger] p.deps[j]],
            b[p.deps[j]],
        ) by {
            assert(0 <= p.deps[j] < k - 1);
        }
        lemma_plan_grows(p, q, embed[k - 1], first.implied, a, b);
    }
}

/// Monotonicity in evidence, for what packages achieve: in a model with more
/// evidence, or with fewer violations, every package achieves at least what
/// it achieved.
pub proof fn lemma_evidence_helps(first: ModelView, second: ModelView, embed: Seq<Seq<int>>)
    requires
        first.wf(),
        grows(first, second, embed),
    ensures
        forall|k: int|
            0 <= k < first.plans.len() ==> subset(
                #[trigger] first.achieved()[k],
                second.achieved()[k],
            ),
{
    lemma_grows_upto(first, second, embed, first.plans.len());
}

/// The model with the violations of package `k` replaced.
pub open spec fn with_violations(
    m: ModelView,
    k: int,
    violations: Seq<crate::model::ViolationView>,
) -> ModelView {
    ModelView {
        plans: m.plans.update(k, PlanView { violations, ..m.plans[k] }),
        ..m
    }
}

/// Removing a violation cannot decrease what packages achieve.
pub proof fn lemma_removing_violation_helps(m: ModelView, k: int, w: int)
    requires
        m.wf(),
        0 <= k < m.plans.len(),
        0 <= w < m.plans[k].violations.len(),
    ensures
        forall|x: int|
            0 <= x < m.plans.len() ==> subset(
                #[trigger] m.achieved()[x],
                with_violations(m, k, m.plans[k].violations.remove(w)).achieved()[x],
            ),
{
    let fewer = m.plans[k].violations.remove(w);
    let second = with_violations(m, k, fewer);
    let embed = Seq::new(m.plans.len(), |x: int| same_places(m.plans[x].evidence.len()));
    assert forall|x: int| 0 <= x < m.plans.len() implies plan_grows(
        #[trigger] m.plans[x],
        second.plans[x],
        embed[x],
    ) by {
        let p = m.plans[x];
        let q = second.plans[x];
        if x == k {
            assert forall|c: int, v: VersionView| #[trigger] q.masked(c, v) implies p.masked(
                c,
                v,
            ) by {
                let u = choose|u: int|
                    0 <= u < q.violations.len() && (#[trigger] q.violations[u]).hits(c, v);
                if u < w {
                    assert(p.violations[u].hits(c, v));
                } else {
                    assert(p.violations[u + 1].hits(c, v));
                }
            }
            assert forall|i: int|
                #![trigger embed[x][i]]
                0 <= i < p.evidence.len() implies (forall|c: int| #[trigger]
                p.covers(i, c) ==> q.covers(embed[x][i], c)) by {
                assert forall|c: int| #[trigger] p.covers(i, c) implies q.covers(
                    embed[x][i],
                    c,
                ) by {
                    if q.masked(c, q.evidence[i].to) {
                        assert(p.masked(c, p.evidence[i].to));
                    }
                    if q.evidence[i].from.is_some() && q.masked(c, q.evidence[i].from.unwrap()) {
                        assert(p.masked(c, p.evidence[i].from.unwrap()));
                    }
                }
            }
        }
    }
    assert(grows(m, second, embed));
    lemma_evidence_helps(m, second, embed);
}

/// What is required of a package is what its consumers demand of it, each
/// given what is required of the consumer.
pub proof fn lemma_required_unfold(m: ModelView, k: int)
    requires
        0 <= k < m.plans.len(),
    ensures
        m.required(k) == m.required_at(m.required_top((m.plans.len() - 1 - k) as nat), k),
        forall|q: int|
            k < q < m.plans.len() ==> #[trigger] m.required_top(
                (m.plans.len() - 1 - k) as nat,
            )[m.plans.len() - 1 - q] == m.required(q),
{
    let n = m.plans.len();
    lemma_required_prefix(m, (n - k) as nat, n);
    lemma_required_prefix(m, (n - 1 - k) as nat, n);
}

/// Criterion `x` is required of package `k` exactly when a consumer demands
/// it.
pub proof fn lemma_required_means(m: ModelView, k: int, x: int)
    requires
        0 <= k < m.plans.len(),
    ensures
        holds(m.required(k), x) <==> (0 <= x < m.implied.len() && exists|q: int, j: int|
            #[trigger] m.consumes(q, j, k) && holds(m.demand(q, m.required(q), j), x)),
{
    let n = m.plans.len();
    let above = m.required_top((n - 1 - k) as nat);
    lemma_required_unfold(m, k);
    if holds(m.required(k), x) {
        let (q, j) = choose|q: int, j: int| #[trigger]
            m.consumes(q, j, k) && holds(m.demand(q, above[n - 1 - q], j), x);
        assert(above[n - 1 - q] == m.required(q));
        assert(m.consumes(q, j, k) && holds(m.demand(q, m.required(q), j), x));
    }
    if 0 <= x < m.implied.len() && exists|q: int, j: int| #[trigger]
        m.consumes(q, j, k) && holds(m.demand(q, m.required(q), j), x) {
        let (q, j) = choose|q: int, j: int| #[trigger]
            m.consumes(q, j, k) && holds(m.demand(q, m.required(q), j), x);
        assert(above[n - 1 - q] == m.required(q));
        assert(m.consumes(q, j, k) && holds(m.demand(q, above[n - 1 - q], j), x));
    }
}

/// Every first-party package passes.
pub open spec fn policies_met(m: ModelView) -> bool {
    forall|f: int| 0 <= f < m.plans.len() && m.plans[f].first_party ==> #[trigger] m.passes(f)
}

/// Where every first-party package passes, every third-party package
/// passes: what a third-party consumer demands, its usable entries ask, and
/// what they ask is achieved.
pub proof fn lemma_third_party_passes(m: ModelView, k: int)
    requires
        m.wf(),
        0 <= k < m.plans.len(),
        policies_met(m),
    ensures
        m.passes(k),
    decreases m.plans.len() - k,
{
    let p = m.plans[k];
    let a = m.achieved();
    if !p.first_party {
        assert forall|x: int| #[trigger] holds(m.required(k), x) implies holds(a[k], x) by {
            lemma_required_means(m, k, x);
            let (q, j) = choose|q: int, j: int| #[trigger]
                m.consumes(q, j, k) && holds(m.demand(q, m.required(q), j), x);
            let c = m.plans[q];
            if c.first_party {
                assert(m.passes(q));
                assert(subset(m.demand(q, m.required(q), j), a[c.deps[j]]));
            } else {
                lemma_third_party_passes(m, q);
                lemma_achieved_at(m, q);
                let r = m.required(q);
                let (y, i) = choose|y: int, i: int| #[trigger]
                    c.asked_through(m.implied, a, r, j, x, y, i);
                assert(holds(a[q], y));
                assert(c.attains(m.implied, a, y));
                let usable = c.usable_for(m.implied, a, y);
                lemma_reached_is_active(c.links(), c.starts(), usable, i);
                assert(c.usable(m.implied, a, i, y));
                assert(subset(c.evidence[i].asks(m.implied, j, y), a[c.deps[j]]));
            }
        }
    }
}

/// Resolution succeeds exactly when every first-party package passes.
pub proof fn lemma_success_is_policy(m: ModelView)
    requires
        m.wf(),
    ensures
        m.success() == policies_met(m),
{
    if policies_met(m) {
        assert forall|k: int| 0 <= k < m.plans.len() implies #[trigger] m.passes(k) by {
            lemma_third_party_passes(m, k);
        }
    }
}

/// The two models have the same policies.
pub open spec fn same_policies(first: ModelView, second: ModelView) -> bool {
    &&& second.default == first.default
    &&& second.plans.len() == first.plans.len()
    &&& forall|k: int|
        #![trigger first.plans[k]]
        0 <= k < first.plans.len() ==> {
            &&& second.plans[k].is_root == first.plans[k].is_root
            &&& second.plans[k].self_declared == first.plans[k].self_declared
            &&& second.plans[k].dep_declared == first.plans[k].dep_declared
        }
}

/// What is required of a first-party package depends on the graph and the
/// policies alone, not on the evidence.
pub proof fn lemma_policy_alone(
    first: ModelView,
    second: ModelView,
    embed: Seq<Seq<int>>,
    t: nat,
)
    requires
        grows(first, second, embed),
        same_policies(first, second),
        t <= first.plans.len(),
    ensures
        first.required_top(t).len() == t,
        second.required_top(t).len() == t,
        forall|x: int|
            0 <= x < t && first.plans[first.plans.len() - 1 - x].first_party
                ==> #[trigger] first.required_top(t)[x] == second.required_top(t)[x],
    decreases t,
{
    let n = first.plans.len();
    if t > 0 {
        lemma_policy_alone(first, second, embed, (t - 1) as nat);
        let a = first.required_top((t - 1) as nat);
        let b = second.required_top((t - 1) as nat);
        let k = n - t;
        if first.plans[k].first_party {
            let one = first.required_at(a, k);
            let two = second.required_at(b, k);
            assert forall|x: int| 0 <= x < first.implied.len() implies one[x] == two[x] by {
                assert forall|q: int, j: int| #[trigger] first.consumes(q, j, k) implies (
                second.consumes(q, j, k) && first.demand(q, a[n - 1 - q], j) == second.demand(
                    q,
                    b[n - 1 - q],
                    j,
                )) by {
                    assert(plan_grows(first.plans[q], second.plans[q], embed[q]));
                    assert(plan_grows(first.plans[k], second.plans[k], embed[k]));
                    assert(first.plans[q].first_party);
                    assert(a[n - 1 - q] == b[n - 1 - q]);
                }
                assert forall|q: int, j: int| #[trigger] second.consumes(q, j, k) implies (
                first.consumes(q, j, k)) by {
                    assert(plan_grows(first.plans[q], second.plans[q], embed[q]));
                    assert(plan_grows(first.plans[k], second.plans[k], embed[k]));
                }
                if one[x] {
                    let (q, j) = choose|q: int, j: int| #[trigger]
                        first.consumes(q, j, k) && holds(first.demand(q, a[n - 1 - q], j), x);
                    assert(second.consumes(q, j, k) && holds(
                        second.demand(q, b[second.plans.len() - 1 - q], j),
                        x,
                    ));
                }
                if two[x] {
                    let (q, j) = choose|q: int, j: int| #[trigger]
                        second.consumes(q, j, k) && holds(
                            second.demand(q, b[second.plans.len() - 1 - q], j),
                            x,
                        );
                    assert(first.consumes(q, j, k));
                    assert(first.consumes(q, j, k) && holds(
                        first.demand(q, a[n - 1 - q], j),
                        x,
                    ));
                }
            }
            assert(one =~= two);
        }
    }
}

/// Monotonicity in evidence: where resolution succeeds, it still succeeds
/// with more evidence under the same policies, be it a further full audit, a
/// further exemption or a further delta audit.
pub proof fn lemma_more_evidence_keeps_success(
    first: ModelView,
    second: ModelView,
    embed: Seq<Seq<int>>,
)
    requires
        first.wf(),
        second.wf(),
        grows(first, second, embed),
        same_policies(first, second),
        first.success(),
    ensures
        second.success(),
{
    let n = first.plans.len();
    lemma_evidence_helps(first, second, embed);
    lemma_policy_alone(first, second, embed, n);
    assert forall|f: int| 0 <= f < n && second.plans[f].first_party implies #[trigger] second.passes(
        f,
    ) by {
        let p = first.plans[f];
        let q = second.plans[f];
        assert(plan_grows(p, q, embed[f]));
        assert(first.passes(f));
        assert(first.plan_wf(f));
        assert(first.required(f) == second.required(f));
        assert forall|j: int|
            #![trigger q.deps[j]]
            0 <= j < q.deps.len() implies subset(
            second.demand(f, second.required(f), j),
            second.achieved()[q.deps[j]],
        ) by {
            assert(subset(
                first.demand(f, first.required(f), j),
                first.achieved()[p.deps[j]],
            ));
            assert(subset(first.achieved()[p.deps[j]], second.achieved()[p.deps[j]]));
        }
    }
    lemma_success_is_policy(second);
}

/// Declaration `weak` asks no more than declaration `strong`: both declare
/// nothing, or both declare and the first declares a subset of the second.
pub open spec fn asks_less(weak: Option<Seq<bool>>, strong: Option<Seq<bool>>) -> bool {
    match (weak, strong) {
        (Some(a), Some(b)) => subset(a, b),
        (None, None) => true,
        _ => false,
    }
}

/// Model `weak` differs from model `strong` in its policies alone, and each
/// policy of `weak` asks no more than the policy of `strong` in its place: a
/// criterion of `strong` may stand replaced by criteria that it implies.
pub open spec fn laxer(weak: ModelView, strong: ModelView) -> bool {
    &&& weak.implied == strong.implied
    &&& weak.plans.len() == strong.plans.len()
    &&& subset(weak.default, strong.default)
    &&& forall|k: int|
        #![trigger weak.plans[k]]
        0 <= k < weak.plans.len() ==> {
            let p = weak.plans[k];
            let q = strong.plans[k];
            &&& p.version == q.version
            &&& p.first_party == q.first_party
            &&& p.is_root == q.is_root
            &&& p.deps == q.deps
            &&& p.evidence == q.evidence
            &&& p.violations == q.violations
            &&& asks_less(p.self_declared, q.self_declared)
            &&& p.dep_declared.len() == q.dep_declared.len()
            &&& forall|j: int|
                0 <= j < p.dep_declared.len() ==> asks_less(
                    #[trigger] p.dep_declared[j],
                    q.dep_declared[j],
                )
        }
}

/// Two plans with the same evidence and the same violations have the same
/// links, the same covering entries and the same usable entries.
pub proof fn lemma_same_evidence(
    p: PlanView,
    q: PlanView,
    implied: Seq<Seq<bool>>,
    achieved: Seq<Seq<bool>>,
    c: int,
)
    requires
        p.version == q.version,
        p.deps == q.deps,
        p.evidence == q.evidence,
        p.violations == q.violations,
    ensures
        p.links() == q.links(),
        p.back_links() == q.back_links(),
        p.starts() == q.starts(),
        p.arrivals() == q.arrivals(),
        p.covering(c) == q.covering(c),
        p.usable_for(implied, achieved, c) == q.usable_for(implied, achieved, c),
        p.attains(implied, achieved, c) == q.attains(implied, achieved, c),
        p.deciding(implied, achieved, c) == q.deciding(implied, achieved, c),
{
    assert forall|v: VersionView| p.masked(c, v) == q.masked(c, v) by {}
    assert forall|i: int| 0 <= i < p.evidence.len() implies p.covers(i, c) == q.covers(i, c) by {}
    assert forall|i: int| 0 <= i < p.evidence.len() implies p.usable(implied, achieved, i, c)
        == q.usable(implied, achieved, i, c) by {}
    assert(p.links() =~= q.links()) by {
        assert forall|j: int| 0 <= j < p.evidence.len() implies #[trigger] p.links()[j]
            =~= q.links()[j] by {}
    }
    assert(p.back_links() =~= q.back_links()) by {
        assert forall|j: int| 0 <= j < p.evidence.len() implies #[trigger] p.back_links()[j]
            =~= q.back_links()[j] by {}
    }
    assert(p.starts() =~= q.starts());
    assert(p.arrivals() =~= q.arrivals());
    assert(p.covering(c) =~= q.covering(c));
    assert(p.usable_for(implied, achieved, c) =~= q.usable_for(implied, achieved, c));
}

/// Policies play no part in what packages achieve.
pub proof fn lemma_policy_free(weak: ModelView, strong: ModelView, k: nat)
    requires
        laxer(weak, strong),
        k <= weak.plans.len(),
    ensures
        weak.achieved_upto(k) == strong.achieved_upto(k),
    decreases k,
{
    if k > 0 {
        lemma_policy_free(weak, strong, (k - 1) as nat);
        let before = weak.achieved_upto((k - 1) as nat);
        let p = weak.plans[k - 1];
        let q = strong.plans[k - 1];
        assert forall|c: int| p.attains(weak.implied, before, c) == q.attains(
            weak.implied,
            before,
            c,
        ) by {
            lemma_same_evidence(p, q, weak.implied, before, c);
        }
        assert(p.achieved_set(weak.implied, before) =~= q.achieved_set(weak.implied, before));
    }
}

/// A package that is required less, under laxer policies, demands less of
/// its dependencies.
pub proof fn lemma_demand_monotone(
    weak: ModelView,
    strong: ModelView,
    q: int,
    less: Seq<bool>,
    more: Seq<bool>,
    j: int,
)
    requires
        laxer(weak, strong),
        0 <= q < weak.plans.len(),
        0 <= j < weak.plans[q].dep_declared.len(),
        subset(less, more),
    ensures
        subset(weak.demand(q, less, j), strong.demand(q, more, j)),
{
    let p = weak.plans[q];
    let s = strong.plans[q];
    lemma_policy_free(weak, strong, weak.plans.len());
    let a = weak.achieved();
    if p.first_party {
        assert(asks_less(p.dep_declared[j], s.dep_declared[j]));
    } else {
        assert forall|x: int| #[trigger] holds(weak.demand(q, less, j), x) implies holds(
            strong.demand(q, more, j),
            x,
        ) by {
            let (c, i) = choose|c: int, i: int| #[trigger]
                p.asked_through(weak.implied, a, less, j, x, c, i);
            lemma_same_evidence(p, s, weak.implied, a, c);
            assert(holds(more, c));
            assert(s.asked_through(strong.implied, a, more, j, x, c, i));
        }
    }
}

/// Under laxer policies no more is required of the last `t` packages.
pub proof fn lemma_required_monotone(weak: ModelView, strong: ModelView, t: nat)
    requires
        weak.wf(),
        laxer(weak, strong),
        t <= weak.plans.len(),
    ensures
        weak.required_top(t).len() == t,
        strong.required_top(t).len() == t,
        forall|x: int|
            0 <= x < t ==> subset(#[trigger] weak.required_top(t)[x], strong.required_top(t)[x]),
    decreases t,
{
    let n = weak.plans.len();
    if t > 0 {
        lemma_required_monotone(weak, strong, (t - 1) as nat);
        let a = weak.required_top((t - 1) as nat);
        let b = strong.required_top((t - 1) as nat);
        let k = n - t;
        let one = weak.required_at(a, k);
        let two = strong.required_at(b, k);
        assert forall|x: int| #[trigger] holds(one, x) implies holds(two, x) by {
            let (q, j) = choose|q: int, j: int| #[trigger]
                weak.consumes(q, j, k) && holds(weak.demand(q, a[n - 1 - q], j), x);
            let _ = weak.plans[q];
            let _ = weak.plans[k];
            assert(weak.plan_wf(q));
            assert(strong.consumes(q, j, k));
            assert(subset(a[n - 1 - q], b[n - 1 - q]));
            lemma_demand_monotone(weak, strong, q, a[n - 1 - q], b[n - 1 - q], j);
            assert(strong.consumes(q, j, k) && holds(
                strong.demand(q, b[strong.plans.len() - 1 - q], j),
                x,
            ));
        }
    }
}

/// Monotonicity in policy: under laxer policies no more is required of any
/// package, and a package that passed still passes. Read from the other
/// side: under stricter policies a package that failed still fails.
pub proof fn lemma_laxer_policy_keeps_pass(weak: ModelView, strong: ModelView)
    requires
        weak.wf(),
        laxer(weak, strong),
    ensures
        weak.achieved() == strong.achieved(),
        forall|k: int|
            0 <= k < weak.plans.len() ==> subset(#[trigger] weak.required(k), strong.required(k)),
        forall|k: int|
            0 <= k < weak.plans.len() && strong.passes(k) ==> #[trigger] weak.passes(k),
        strong.success() ==> weak.success(),
{
    let n = weak.plans.len();
    lemma_policy_free(weak, strong, n);
    lemma_required_monotone(weak, strong, n);
    assert forall|k: int| 0 <= k < n && strong.passes(k) implies #[trigger] weak.passes(k) by {
        let p = weak.plans[k];
        let q = strong.plans[k];
        assert(subset(weak.required(k), strong.required(k)));
        if p.first_party {
            assert(weak.plan_wf(k));
            assert forall|j: int|
                #![trigger p.deps[j]]
                0 <= j < p.deps.len() implies subset(
                weak.demand(k, weak.required(k), j),
                weak.achieved()[p.deps[j]],
            ) by {
                lemma_demand_monotone(weak, strong, k, weak.required(k), strong.required(k), j);
                assert(subset(
                    strong.demand(k, strong.required(k), j),
                    strong.achieved()[q.deps[j]],
                ));
            }
        }
    }
    if strong.success() {
        assert forall|k: int| 0 <= k < n implies #[trigger] weak.passes(k) by {
            assert(strong.passes(k));
        }
    }
}

/// `name` is the name of a third-party package of the graph.
pub open spec fn third_party_name(g: GraphView, name: Seq<char>) -> bool {
    exists|k: int|
        0 <= k < g.packages.len() && !(#[trigger] g.packages[k]).is_first_party
            && g.packages[k].name == name
}

/// The two pairs of files record the same audits under every name of a
/// third-party package of the graph.
pub open spec fn same_third_party_audits(
    g: GraphView,
    audits: &AuditsFile,
    imports: &ImportsFile,
    other_audits: &AuditsFile,
    other_imports: &ImportsFile,
) -> bool {
    forall|name: Seq<char>| #[trigger]
        third_party_name(g, name) ==> audits_of(audits, imports, name) == audits_of(
            other_audits,
            other_imports,
            name,
        )
}

proof fn lemma_same_strays(
    g: GraphView,
    audits: &AuditsFile,
    imports: &ImportsFile,
    other_audits: &AuditsFile,
    other_imports: &ImportsFile,
    upto: nat,
)
    requires
        same_third_party_audits(g, audits, imports, other_audits, other_imports),
        upto <= g.packages.len(),
    ensures
        stray_upto(g, audits, imports, upto) == stray_upto(g, other_audits, other_imports, upto),
    decreases upto,
{
    if upto > 0 {
        lemma_same_strays(g, audits, imports, other_audits, other_imports, (upto - 1) as nat);
        let p = g.packages[upto - 1];
        if !p.is_first_party {
            assert(third_party_name(g, p.name));
        }
    }
}

/// First-party neutrality: the audits recorded under names that no
/// third-party package bears play no part. Two inputs that resolution
/// accepts, with the same graph, the same criteria table, the same
/// configuration and the same audits under every third-party name, have the
/// same report.
pub proof fn lemma_first_party_neutral(
    nodes: &Vec<PackageNode>,
    config: &ConfigFile,
    audits: &AuditsFile,
    imports: &ImportsFile,
    other_audits: &AuditsFile,
    other_imports: &ImportsFile,
)
    requires
        spec_fault(nodes, config, audits, imports).is_none(),
        spec_fault(nodes, config, other_audits, other_imports).is_none(),
        audits.criteria == other_audits.criteria,
        same_third_party_audits(graph_view(nodes), audits, imports, other_audits, other_imports),
    ensures
        spec_resolve(nodes, config, audits, imports) == spec_resolve(
            nodes,
            config,
            other_audits,
            other_imports,
        ),
{
    let g = graph_view(nodes);
    let t = table_view(&audits.criteria);
    let m = model_of(g, t, config, audits, imports);
    let o = model_of(g, t, config, other_audits, other_imports);
    assert forall|k: int| 0 <= k < g.packages.len() implies plan_of(
        g,
        t,
        config,
        audits,
        imports,
        k,
    ) == plan_of(g, t, config, other_audits, other_imports, k) by {
        let p = g.packages[k];
        if !p.is_first_party {
            assert(third_party_name(g, p.name));
        }
    }
    assert(m.plans =~= o.plans);
    assert(m == o);
    lemma_same_strays(g, audits, imports, other_audits, other_imports, g.packages.len());
}

/// Determinism: whatever resolution returns for an input, it returns the
/// same fault or a report of the same value every time.
pub proof fn lemma_deterministic(
    nodes: &Vec<PackageNode>,
    config: &ConfigFile,
    audits: &AuditsFile,
    imports: &ImportsFile,
    first: Result<Report, ResolveError>,
    second: Result<Report, ResolveError>,
)
    requires
        resolves_to(nodes, config, audits, imports, first),
        resolves_to(nodes, config, audits, imports, second),
    ensures
        result_view(first) == result_view(second),
{
}

/// The model that resolution works on for an input that it accepts.
pub open spec fn accepted_model(
    nodes: &Vec<PackageNode>,
    config: &ConfigFile,
    audits: &AuditsFile,
    imports: &ImportsFile,
) -> ModelView {
    model_of(graph_view(nodes), table_view(&audits.criteria), config, audits, imports)
}

/// For an input without fault the graph, the criteria table and the model
/// are well formed, so that the laws of this file hold of the model, and the
/// report says of each package what the model says.
pub proof fn lemma_accepted(
    nodes: &Vec<PackageNode>,
    config: &ConfigFile,
    audits: &AuditsFile,
    imports: &ImportsFile,
)
    requires
        spec_fault(nodes, config, audits, imports).is_none(),
    ensures
        sound(nodes),
        graph_view(nodes).wf(),
        table_view(&audits.criteria).wf(),
        accepted_model(nodes, config, audits, imports).wf(),
        accepted_model(nodes, config, audits, imports).plans.len() == nodes@.len(),
        spec_resolve(nodes, config, audits, imports) matches Ok(report) && report.success
            == accepted_model(nodes, config, audits, imports).success() && report.packages.len()
            == nodes@.len() && forall|k: int|
            #![trigger report.packages[k]]
            0 <= k < nodes@.len() ==> {
                let m = accepted_model(nodes, config, audits, imports);
                &&& report.packages[k].achieved == m.achieved()[k]
                &&& report.packages[k].required == m.required(k)
                &&& report.packages[k].missing == m.missing(k)
                &&& report.packages[k].verdict == m.verdict(k)
                &&& report.packages[k].is_third_party == !m.plans[k].first_party
            },
{
    lemma_graph_view(nodes);
    lemma_table_view_wf(&audits.criteria);
    lemma_model_wf(graph_view(nodes), table_view(&audits.criteria), config, audits, imports);
}

/// Implication closure, of the report: what the report says a package
/// achieves is closed under implication, as long as no violation masks the
/// implied criterion, and leaves the implying one alone, at a version that an
/// entry of the package starts from or leads to.
pub proof fn lemma_report_closed(
    nodes: &Vec<PackageNode>,
    config: &ConfigFile,
    audits: &AuditsFile,
    imports: &ImportsFile,
    k: int,
    c: int,
    d: int,
)
    requires
        spec_fault(nodes, config, audits, imports).is_none(),
        0 <= k < nodes@.len(),
        holds(spec_resolve(nodes, config, audits, imports).unwrap().packages[k].achieved, c),
        table_view(&audits.criteria).implies(c, d),
        forall|i: int|
            0 <= i < accepted_model(nodes, config, audits, imports).plans[k].evidence.len()
                ==> #[trigger] masked_no_more(
                accepted_model(nodes, config, audits, imports).plans[k],
                i,
                c,
                d,
            ),
    ensures
        holds(spec_resolve(nodes, config, audits, imports).unwrap().packages[k].achieved, d),
{
    lemma_accepted(nodes, config, audits, imports);
    let m = accepted_model(nodes, config, audits, imports);
    let report = spec_resolve(nodes, config, audits, imports).unwrap();
    let _ = report.packages[k];
    lemma_achieved_closed(m, k, c, d);
}

/// Implication closure along a witness, of the report: the report says that
/// a package achieves every criterion that is implied by a criterion for
/// which the package has a witness, unless a violation masks the implied
/// criterion alone at a version on that witness.
pub proof fn lemma_report_closed_along(
    nodes: &Vec<PackageNode>,
    config: &ConfigFile,
    audits: &AuditsFile,
    imports: &ImportsFile,
    k: int,
    c: int,
    d: int,
    chain: Seq<int>,
)
    requires
        spec_fault(nodes, config, audits, imports).is_none(),
        0 <= k < nodes@.len(),
        table_view(&audits.criteria).implies(c, d),
        unhindered(accepted_model(nodes, config, audits, imports), k, c, d, chain),
    ensures
        holds(spec_resolve(nodes, config, audits, imports).unwrap().packages[k].achieved, d),
{
    lemma_accepted(nodes, config, audits, imports);
    let m = accepted_model(nodes, config, audits, imports);
    let report = spec_resolve(nodes, config, audits, imports).unwrap();
    let _ = report.packages[k];
    lemma_achieved_closed_along(m, k, c, d, chain);
}

/// Violation masks, of the report: the report never says that a third-party
/// package achieves a criterion that a violation masks at its version.
pub proof fn lemma_report_masked(
    nodes: &Vec<PackageNode>,
    config: &ConfigFile,
    audits: &AuditsFile,
    imports: &ImportsFile,
    k: int,
    c: int,
)
    requires
        spec_fault(nodes, config, audits, imports).is_none(),
        0 <= k < nodes@.len(),
        !graph_view(nodes).packages[k].is_first_party,
        accepted_model(nodes, config, audits, imports).plans[k].masked(
            c,
            graph_view(nodes).packages[k].version,
        ),
    ensures
        !holds(spec_resolve(nodes, config, audits, imports).unwrap().packages[k].achieved, c),
{
    lemma_accepted(nodes, config, audits, imports);
    let m = accepted_model(nodes, config, audits, imports);
    let report = spec_resolve(nodes, config, audits, imports).unwrap();
    let _ = report.packages[k];
    lemma_violation_masks(m, k, c);
}

/// A violation among the first `upto` entries stands among the violations
/// that are read from them.
proof fn lemma_violation_read(t: TableView, entries: Seq<AuditEntry>, upto: nat, i: int)
    requires
        0 <= i < upto <= entries.len(),
        violation_view(t, entries[i], i).is_some(),
    ensures
        exists|w: int|
            0 <= w < audit_violations(t, entries, upto).len() && #[trigger] audit_violations(
                t,
                entries,
                upto,
            )[w] == violation_view(t, entries[i], i).unwrap(),
    decreases upto,
{
    let all = audit_violations(t, entries, upto);
    let before = audit_violations(t, entries, (upto - 1) as nat);
    if i == upto - 1 {
        assert(all[all.len() - 1] == violation_view(t, entries[i], i).unwrap());
    } else {
        lemma_violation_read(t, entries, (upto - 1) as nat, i);
        let w = choose|w: int|
            0 <= w < before.len() && #[trigger] before[w] == violation_view(
                t,
                entries[i],
                i,
            ).unwrap();
        assert(all[w] == before[w]);
    }
}

/// Violation masks, of the files: where the audits recorded under the name
/// of a third-party package hold a violation whose requirement matches the
/// package's version, the report says of no criterion that the violation's
/// criterion implies, nor of that criterion itself, that the package
/// achieves it, whatever else is recorded.
pub proof fn lemma_violation_entry_masks(
    nodes: &Vec<PackageNode>,
    config: &ConfigFile,
    audits: &AuditsFile,
    imports: &ImportsFile,
    k: int,
    i: int,
    c: int,
)
    requires
        spec_fault(nodes, config, audits, imports).is_none(),
        0 <= k < nodes@.len(),
        !graph_view(nodes).packages[k].is_first_party,
        0 <= i < audits_of(audits, imports, graph_view(nodes).packages[k].name).len(),
        audits_of(audits, imports, graph_view(nodes).packages[k].name)[i].kind matches AuditKind::Violation {
            violation,
        } && semver_matches(violation.text@, graph_view(nodes).packages[k].version),
        holds(
            table_view(&audits.criteria).expansion(
                audits_of(audits, imports, graph_view(nodes).packages[k].name)[i].criteria@,
            ),
            c,
        ),
    ensures
        !holds(spec_resolve(nodes, config, audits, imports).unwrap().packages[k].achieved, c),
{
    let g = graph_view(nodes);
    let t = table_view(&audits.criteria);
    let m = accepted_model(nodes, config, audits, imports);
    let entries = audits_of(audits, imports, g.packages[k].name);
    lemma_accepted(nodes, config, audits, imports);
    assert(m.plans[k] == plan_of(g, t, config, audits, imports, k));
    lemma_violation_read(t, entries, entries.len(), i);
    let w = choose|w: int|
        0 <= w < audit_violations(t, entries, entries.len()).len() && #[trigger] audit_violations(
            t,
            entries,
            entries.len(),
        )[w] == violation_view(t, entries[i], i).unwrap();
    assert(m.plans[k].violations[w].hits(c, g.packages[k].version));
    lemma_report_masked(nodes, config, audits, imports, k, c);
}

} // verus!
