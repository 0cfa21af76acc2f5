//! What resolution works on: for each package of the graph, in resolution
//! order, the evidence and the violations recorded under its name and the
//! policy that applies to it, with criteria as sets over the criteria table.
//!
//! The functions of this file say what a package achieves, what is required
//! of it, and whether it passes.

use crate::criteria::{difference_of, holds, overlap, subset, CriteriaSet};
use crate::reach::{all_of, reaches};
use crate::version::{semver_matches, Version, VersionReq, VersionView};
use vstd::prelude::*;

verus! {

/// What resolution says of a package.
#[derive(Clone, Copy, Debug, PartialEq, Eq, Structural)]
pub enum Verdict {
    /// The package achieves all that is required of it.
    Pass,
    /// The evidence does not reach a required criterion.
    FailMissing,
    /// A violation masks a required criterion at the package's version.
    FailViolation,
    /// A dependency of a first-party package does not achieve what the
    /// package demands of it.
    FailPolicy,
}

/// One piece of evidence for a package: a full audit or an exemption (no
/// `from`), or a delta audit.
#[derive(Clone, Debug)]
pub struct Evidence {
    pub from: Option<Version>,
    pub to: Version,
    /// The criteria that the entry asserts, with all that they imply.
    pub criteria: CriteriaSet,
    /// For each dependency of the package, what the entry asks of it; `None`
    /// where it leaves the dependency to the default.
    pub requirements: Vec<Option<CriteriaSet>>,
    /// The entry is an exemption, not an audit.
    pub exempted: bool,
    /// The place of the entry among the audits, or among the exemptions, of
    /// the package's name.
    pub entry: usize,
}

/// A violation recorded for a package.
#[derive(Clone, Debug)]
pub struct Violation {
    pub requirement: VersionReq,
    /// The criteria that matching versions fail, with all that they imply.
    pub criteria: CriteriaSet,
    /// The place of the entry among the audits of the package's name.
    pub entry: usize,
}

/// A package with all that resolution reads of it.
#[derive(Clone, Debug)]
pub struct Plan {
    pub version: Version,
    pub first_party: bool,
    pub is_root: bool,
    /// The places of its dependencies, each before its own.
    pub deps: Vec<usize>,
    pub evidence: Vec<Evidence>,
    pub violations: Vec<Violation>,
    /// The criteria that its policy declares for itself.
    pub self_declared: Option<CriteriaSet>,
    /// For each dependency, the criteria that its policy declares for it.
    pub dep_declared: Vec<Option<CriteriaSet>>,
}

/// The whole input of resolution.
#[derive(Clone, Debug)]
pub struct Model {
    /// Set `a` holds every criterion that `a` implies.
    pub implied: Vec<CriteriaSet>,
    /// The default criterion with all that it implies.
    pub default: CriteriaSet,
    pub plans: Vec<Plan>,
}

pub struct EvidenceView {
    pub from: Option<VersionView>,
    pub to: VersionView,
    pub criteria: Seq<bool>,
    pub requirements: Seq<Option<Seq<bool>>>,
    pub exempted: bool,
    pub entry: int,
}

pub struct ViolationView {
    pub requirement: Seq<char>,
    pub criteria: Seq<bool>,
    pub entry: int,
}

pub struct PlanView {
    pub version: VersionView,
    pub first_party: bool,
    pub is_root: bool,
    pub deps: Seq<int>,
    pub evidence: Seq<EvidenceView>,
    pub violations: Seq<ViolationView>,
    pub self_declared: Option<Seq<bool>>,
    pub dep_declared: Seq<Option<Seq<bool>>>,
}

pub struct ModelView {
    pub implied: Seq<Seq<bool>>,
    pub default: Seq<bool>,
    pub plans: Seq<PlanView>,
}

/// The value of an optional set.
pub open spec fn set_view(s: Option<CriteriaSet>) -> Option<Seq<bool>> {
    match s {
        Some(set) => Some(set@),
        None => None,
    }
}

/// The values of a list of optional sets.
pub open spec fn set_views(list: &Vec<Option<CriteriaSet>>) -> Seq<Option<Seq<bool>>> {
    Seq::new(list@.len(), |j: int| set_view(list@[j]))
}

impl View for Evidence {
    type V = EvidenceView;

    open spec fn view(&self) -> EvidenceView {
        EvidenceView {
            from: match self.from {
                Some(v) => Some(v@),
                None => None,
            },
            to: self.to@,
            criteria: self.criteria@,
            requirements: set_views(&self.requirements),
            exempted: self.exempted,
            entry: self.entry as int,
        }
    }
}

impl View for Violation {
    type V = ViolationView;

    open spec fn view(&self) -> ViolationView {
        ViolationView {
            requirement: self.requirement.text@,
            criteria: self.criteria@,
            entry: self.entry as int,
        }
    }
}

impl View for Plan {
    type V = PlanView;

    open spec fn view(&self) -> PlanView {
        PlanView {
            version: self.version@,
            first_party: self.first_party,
            is_root: self.is_root,
            deps: Seq::new(self.deps@.len(), |j: int| self.deps@[j] as int),
            evidence: Seq::new(self.evidence@.len(), |i: int| self.evidence@[i]@),
            violations: Seq::new(self.violations@.len(), |w: int| self.violations@[w]@),
            self_declared: set_view(self.self_declared),
            dep_declared: set_views(&self.dep_declared),
        }
    }
}

impl View for Model {
    type V = ModelView;

    open spec fn view(&self) -> ModelView {
        ModelView {
            implied: Seq::new(self.implied@.len(), |a: int| self.implied@[a]@),
            default: self.default@,
            plans: Seq::new(self.plans@.len(), |k: int| self.plans@[k]@),
        }
    }
}

impl ViolationView {
    /// The violation says that version `v` fails criterion `c`.
    pub open spec fn hits(self, c: int, v: VersionView) -> bool {
        holds(self.criteria, c) && semver_matches(self.requirement, v)
    }
}

impl EvidenceView {
    /// What the entry asks of dependency `j` when it witnesses criterion `c`:
    /// what it declares for that dependency, or else `c` with all it implies.
    pub open spec fn asks(self, implied: Seq<Seq<bool>>, j: int, c: int) -> Seq<bool> {
        match self.requirements[j] {
            Some(s) => s,
            None => implied[c],
        }
    }
}

impl PlanView {
    /// Violation `w` matches the package's version and fails a criterion that
    /// is required of the package.
    pub open spec fn blames(self, required: Seq<bool>, w: int) -> bool {
        &&& semver_matches(self.violations[w].requirement, self.version)
        &&& overlap(required, self.violations[w].criteria)
    }

    /// The entries of the violations among the first `upto` that are to blame
    /// for a failure of the package, in their order.
    pub open spec fn blamed(self, required: Seq<bool>, upto: nat) -> Seq<int>
        decreases upto,
    {
        if upto == 0 {
            Seq::empty()
        } else {
            let before = self.blamed(required, (upto - 1) as nat);
            if self.blames(required, upto - 1) {
                before.push(self.violations[upto - 1].entry)
            } else {
                before
            }
        }
    }

    /// Some violation says that version `v` fails criterion `c`.
    pub open spec fn masked(self, c: int, v: VersionView) -> bool {
        exists|w: int| 0 <= w < self.violations.len() && (#[trigger] self.violations[w]).hits(c, v)
    }

    /// Entry `i` covers criterion `c` and touches no version that is masked
    /// for `c`.
    pub open spec fn covers(self, i: int, c: int) -> bool {
        &&& holds(self.evidence[i].criteria, c)
        &&& !self.masked(c, self.evidence[i].to)
        &&& self.evidence[i].from matches Some(f) ==> !self.masked(c, f)
    }

    /// Entry `i` is usable for criterion `c`: it covers `c`, and every
    /// dependency has achieved what the entry asks of it.
    pub open spec fn usable(
        self,
        implied: Seq<Seq<bool>>,
        achieved: Seq<Seq<bool>>,
        i: int,
        c: int,
    ) -> bool {
        &&& self.covers(i, c)
        &&& forall|j: int|
            #![trigger self.deps[j]]
            0 <= j < self.deps.len() ==> subset(
                self.evidence[i].asks(implied, j, c),
                achieved[self.deps[j]],
            )
    }

    /// The entries that cover criterion `c`.
    pub open spec fn covering(self, c: int) -> Seq<bool> {
        Seq::new(self.evidence.len(), |i: int| self.covers(i, c))
    }

    /// The entries that are usable for criterion `c`.
    pub open spec fn usable_for(
        self,
        implied: Seq<Seq<bool>>,
        achieved: Seq<Seq<bool>>,
        c: int,
    ) -> Seq<bool> {
        Seq::new(self.evidence.len(), |i: int| self.usable(implied, achieved, i, c))
    }

    /// Entry `i` can follow entry `j`: it starts at the version where `j`
    /// ends.
    pub open spec fn follows(self, j: int, i: int) -> bool {
        self.evidence[i].from == Some(self.evidence[j].to)
    }

    /// Row `j` marks the entries that can follow entry `j`.
    pub open spec fn links(self) -> Seq<Seq<bool>> {
        Seq::new(
            self.evidence.len(),
            |j: int| Seq::new(self.evidence.len(), |i: int| self.follows(j, i)),
        )
    }

    /// Row `i` marks the entries that entry `i` can follow.
    pub open spec fn back_links(self) -> Seq<Seq<bool>> {
        Seq::new(
            self.evidence.len(),
            |i: int| Seq::new(self.evidence.len(), |j: int| self.follows(j, i)),
        )
    }

    /// The entries that start from nothing: full audits and exemptions.
    pub open spec fn starts(self) -> Seq<bool> {
        Seq::new(self.evidence.len(), |i: int| self.evidence[i].from.is_none())
    }

    /// The entries that end at the package's own version.
    pub open spec fn arrivals(self) -> Seq<bool> {
        Seq::new(self.evidence.len(), |i: int| self.evidence[i].to == self.version)
    }

    /// A chain of entries among `active` leads from nothing to the package's
    /// version.
    pub open spec fn witnessed(self, active: Seq<bool>) -> bool {
        exists|i: int|
            0 <= i < self.evidence.len() && self.arrivals()[i] && #[trigger] reaches(
                self.links(),
                self.starts(),
                active,
                i,
            )
    }

    /// The package achieves criterion `c`: a chain of usable entries leads to
    /// its version.
    pub open spec fn attains(
        self,
        implied: Seq<Seq<bool>>,
        achieved: Seq<Seq<bool>>,
        c: int,
    ) -> bool {
        self.witnessed(self.usable_for(implied, achieved, c))
    }

    /// The package's own entries would witness criterion `c` if its
    /// dependencies achieved all that the entries ask.
    pub open spec fn attains_alone(self, c: int) -> bool {
        self.witnessed(self.covering(c))
    }

    /// The criteria that the package achieves, given what the packages before
    /// it achieve. A first-party package achieves every criterion.
    pub open spec fn achieved_set(self, implied: Seq<Seq<bool>>, achieved: Seq<Seq<bool>>) -> Seq<
        bool,
    > {
        if self.first_party {
            all_of(implied.len())
        } else {
            Seq::new(implied.len(), |c: int| self.attains(implied, achieved, c))
        }
    }

    /// Entry `i` lies on a chain of entries among `active` that leads from
    /// nothing to the package's version.
    pub open spec fn on_witness(self, active: Seq<bool>, i: int) -> bool {
        &&& reaches(self.links(), self.starts(), active, i)
        &&& reaches(self.back_links(), self.arrivals(), active, i)
    }

    /// The entries that decide what criterion `c` asks of the dependencies:
    /// where the package achieves `c`, the usable entries; else the entries
    /// that cover `c`.
    pub open spec fn deciding(
        self,
        implied: Seq<Seq<bool>>,
        achieved: Seq<Seq<bool>>,
        c: int,
    ) -> Seq<bool> {
        if self.attains(implied, achieved, c) {
            self.usable_for(implied, achieved, c)
        } else {
            self.covering(c)
        }
    }

    /// Criterion `x` is asked of dependency `j` because criterion `c` is
    /// required of the package and entry `i` lies on a witness for `c`.
    pub open spec fn asked_through(
        self,
        implied: Seq<Seq<bool>>,
        achieved: Seq<Seq<bool>>,
        required: Seq<bool>,
        j: int,
        x: int,
        c: int,
        i: int,
    ) -> bool {
        &&& holds(required, c)
        &&& 0 <= i < self.evidence.len()
        &&& self.on_witness(self.deciding(implied, achieved, c), i)
        &&& holds(self.evidence[i].asks(implied, j, c), x)
    }

    /// What a third-party package demands of dependency `j`, given what is
    /// required of the package itself.
    pub open spec fn evidence_demand(
        self,
        implied: Seq<Seq<bool>>,
        achieved: Seq<Seq<bool>>,
        required: Seq<bool>,
        j: int,
    ) -> Seq<bool> {
        Seq::new(
            implied.len(),
            |x: int|
                exists|c: int, i: int|
                    #[trigger] self.asked_through(implied, achieved, required, j, x, c, i),
        )
    }

    /// The criteria that a first-party package holds itself to: what its
    /// policy declares; else the default for a root, and for another package
    /// what its consumers demand of it.
    pub open spec fn own_criteria(self, default: Seq<bool>, required: Seq<bool>) -> Seq<bool> {
        match self.self_declared {
            Some(s) => s,
            None => if self.is_root {
                default
            } else {
                required
            },
        }
    }

    /// What a first-party package demands of dependency `j`: what its policy
    /// declares for that dependency, or else what it holds itself to.
    pub open spec fn policy_demand(self, default: Seq<bool>, required: Seq<bool>, j: int) -> Seq<
        bool,
    > {
        match self.dep_declared[j] {
            Some(s) => s,
            None => self.own_criteria(default, required),
        }
    }
}

impl ModelView {
    /// Criterion `a` implies criterion `b`.
    pub open spec fn implies(self, a: int, b: int) -> bool {
        0 <= a < self.implied.len() && holds(self.implied[a], b)
    }

    /// The set ranges over the criteria of the table and is closed under
    /// implication.
    pub open spec fn closed(self, s: Seq<bool>) -> bool {
        &&& s.len() == self.implied.len()
        &&& forall|a: int, b: int| holds(s, a) && #[trigger] self.implies(a, b) ==> holds(s, b)
    }

    /// The shape that resolution relies on: implication is reflexive and
    /// transitive, every set is closed, and every package comes after its
    /// dependencies.
    pub open spec fn wf(self) -> bool {
        &&& forall|a: int|
            0 <= a < self.implied.len() ==> (#[trigger] self.implied[a]).len()
                == self.implied.len()
        &&& forall|a: int| 0 <= a < self.implied.len() ==> #[trigger] self.implies(a, a)
        &&& forall|a: int, b: int, c: int|
            #[trigger] self.implies(a, b) && #[trigger] self.implies(b, c) ==> self.implies(a, c)
        &&& self.closed(self.default)
        &&& forall|k: int| 0 <= k < self.plans.len() ==> self.plan_wf(k)
    }

    /// The plan of package `k` has the shape that resolution relies on.
    pub open spec fn plan_wf(self, k: int) -> bool {
        let p = self.plans[k];
        &&& forall|j: int| 0 <= j < p.deps.len() ==> 0 <= #[trigger] p.deps[j] < k
        &&& p.dep_declared.len() == p.deps.len()
        &&& p.self_declared matches Some(s) ==> self.closed(s)
        &&& forall|j: int|
            0 <= j < p.dep_declared.len() ==> (#[trigger] p.dep_declared[j] matches Some(s)
                ==> self.closed(s))
        &&& forall|i: int|
            #![trigger p.evidence[i]]
            0 <= i < p.evidence.len() ==> {
                &&& self.closed(p.evidence[i].criteria)
                &&& p.evidence[i].requirements.len() == p.deps.len()
                &&& forall|j: int|
                    0 <= j < p.deps.len() ==> (#[trigger] p.evidence[i].requirements[j] matches Some(
                        s,
                    ) ==> self.closed(s))
            }
        &&& forall|w: int|
            0 <= w < p.violations.len() ==> (#[trigger] p.violations[w]).criteria.len()
                == self.implied.len()
    }

    /// What the first `k` packages achieve.
    pub open spec fn achieved_upto(self, k: nat) -> Seq<Seq<bool>>
        decreases k,
    {
        if k == 0 {
            Seq::empty()
        } else {
            let before = self.achieved_upto((k - 1) as nat);
            before.push(self.plans[k - 1].achieved_set(self.implied, before))
        }
    }

    /// What every package achieves.
    pub open spec fn achieved(self) -> Seq<Seq<bool>> {
        self.achieved_upto(self.plans.len())
    }

    /// What package `q` demands of its dependency `j`, given what is required
    /// of `q`.
    pub open spec fn demand(self, q: int, required: Seq<bool>, j: int) -> Seq<bool> {
        if self.plans[q].first_party {
            self.plans[q].policy_demand(self.default, required, j)
        } else {
            self.plans[q].evidence_demand(self.implied, self.achieved(), required, j)
        }
    }

    /// Package `q` has package `k` as its dependency `j`, and its demand
    /// counts: a first-party package answers to first-party consumers only.
    pub open spec fn consumes(self, q: int, j: int, k: int) -> bool {
        &&& k < q < self.plans.len()
        &&& 0 <= j < self.plans[q].deps.len()
        &&& self.plans[q].deps[j] == k
        &&& self.plans[q].first_party || !self.plans[k].first_party
    }

    /// What is required of package `k`, given in `above` what is required of
    /// the packages after it, the last package first: all that its consumers
    /// demand of it.
    pub open spec fn required_at(self, above: Seq<Seq<bool>>, k: int) -> Seq<bool> {
        Seq::new(
            self.implied.len(),
            |x: int|
                exists|q: int, j: int|
                    #[trigger] self.consumes(q, j, k) && holds(
                        self.demand(q, above[self.plans.len() - 1 - q], j),
                        x,
                    ),
        )
    }

    /// What is required of the last `t` packages, the last package first.
    pub open spec fn required_top(self, t: nat) -> Seq<Seq<bool>>
        decreases t,
    {
        if t == 0 {
            Seq::empty()
        } else {
            let above = self.required_top((t - 1) as nat);
            above.push(self.required_at(above, self.plans.len() - t))
        }
    }

    /// What is required of package `k`.
    pub open spec fn required(self, k: int) -> Seq<bool> {
        self.required_top(self.plans.len())[self.plans.len() - 1 - k]
    }

    /// Package `k` passes: a third-party package achieves all that is
    /// required of it, and every dependency of a first-party package achieves
    /// what the package demands of it.
    pub open spec fn passes(self, k: int) -> bool {
        if self.plans[k].first_party {
            forall|j: int|
                #![trigger self.plans[k].deps[j]]
                0 <= j < self.plans[k].deps.len() ==> subset(
                    self.demand(k, self.required(k), j),
                    self.achieved()[self.plans[k].deps[j]],
                )
        } else {
            subset(self.required(k), self.achieved()[k])
        }
    }

    /// A criterion required of package `k` is masked at its version: a
    /// violation is to blame.
    pub open spec fn blocked(self, k: int) -> bool {
        exists|w: int|
            0 <= w < self.plans[k].violations.len() && #[trigger] self.plans[k].blames(
                self.required(k),
                w,
            )
    }

    /// The verdict on package `k`.
    pub open spec fn verdict(self, k: int) -> Verdict {
        if self.passes(k) {
            Verdict::Pass
        } else if self.plans[k].first_party {
            Verdict::FailPolicy
        } else if self.blocked(k) {
            Verdict::FailViolation
        } else {
            Verdict::FailMissing
        }
    }

    /// The criteria that are required of package `k` and that it does not
    /// achieve.
    pub open spec fn missing(self, k: int) -> Seq<bool> {
        difference_of(self.required(k), self.achieved()[k])
    }

    /// Every package passes.
    pub open spec fn success(self) -> bool {
        forall|k: int| 0 <= k < self.plans.len() ==> #[trigger] self.passes(k)
    }
}

} // verus!
