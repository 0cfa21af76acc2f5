//! The cheapest missing audit: for a package that misses a criterion, from
//! which version that has evidence to which version that leads on to the
//! package an audit would cost least.

use crate::model::{Plan, PlanView};
use crate::reach::{closure, reaches};
use crate::settle::Workings;
use crate::version::{semver_less, Distance, Version, VersionView};
use vstd::prelude::*;

verus! {

impl PlanView {
    /// The entries at which a chain of entries that cover criterion `c`
    /// ends: the versions they lead to have evidence for `c`.
    pub open spec fn forward(self, c: int) -> Seq<bool> {
        Seq::new(
            self.evidence.len(),
            |i: int| reaches(self.links(), self.starts(), self.covering(c), i),
        )
    }

    /// The entries from which a chain of entries that cover criterion `c`
    /// leads to the package's version.
    pub open spec fn backward(self, c: int) -> Seq<bool> {
        Seq::new(
            self.evidence.len(),
            |i: int| reaches(self.back_links(), self.arrivals(), self.covering(c), i),
        )
    }

    /// Some version has evidence for criterion `c`.
    pub open spec fn anchored(self, c: int) -> bool {
        exists|i: int| 0 <= i < self.evidence.len() && #[trigger] self.forward(c)[i]
    }

    /// Place `a` names a version to audit from: the version that entry `a`
    /// leads to, which has evidence; or, for a negative `a`, nothing, where
    /// no version has evidence.
    pub open spec fn anchor_fits(self, c: int, a: int) -> bool {
        if a < 0 {
            !self.anchored(c)
        } else {
            a < self.evidence.len() && self.forward(c)[a]
        }
    }

    /// Place `t` names a version to audit up to: the version that entry `t`
    /// starts from, which leads on to the package; or, for a negative `t`,
    /// the version of the package itself.
    pub open spec fn target_fits(self, c: int, t: int) -> bool {
        t < 0 || (t < self.evidence.len() && self.backward(c)[t] && self.evidence[t].from.is_some())
    }

    pub open spec fn anchor_version(self, a: int) -> Option<VersionView> {
        if a < 0 {
            None
        } else {
            Some(self.evidence[a].to)
        }
    }

    pub open spec fn target_version(self, t: int) -> VersionView {
        if t < 0 {
            self.version
        } else {
            self.evidence[t].from.unwrap()
        }
    }

    /// What the audit from place `a` to place `t` costs: the distance between
    /// the two versions, and for a full audit the distance from `0.0.0`.
    pub open spec fn cost(self, a: int, t: int) -> Distance {
        match self.anchor_version(a) {
            Some(v) => Distance::spec_between(v, self.target_version(t)),
            None => Distance::spec_from_origin(self.target_version(t)),
        }
    }

    /// The first audit is to be preferred to the second: it costs less; or
    /// as much, and leads to a lower version; or as much and to the same
    /// version, and starts from a lower version.
    pub open spec fn better(self, a1: int, t1: int, a2: int, t2: int) -> bool {
        let c1 = self.cost(a1, t1);
        let c2 = self.cost(a2, t2);
        ||| c1.spec_lt(c2)
        ||| (c1 == c2 && semver_less(self.target_version(t1), self.target_version(t2)))
        ||| (c1 == c2 && self.target_version(t1) == self.target_version(t2) && a1 >= 0 && a2 >= 0
            && semver_less(self.evidence[a1].to, self.evidence[a2].to))
    }

    /// The better of `best` and the audit from `a` to `t`, if that one fits.
    pub open spec fn consider(self, c: int, best: Option<(int, int)>, a: int, t: int) -> Option<
        (int, int),
    > {
        if self.anchor_fits(c, a) && self.target_fits(c, t) {
            match best {
                None => Some((a, t)),
                Some((a2, t2)) => if self.better(a, t, a2, t2) {
                    Some((a, t))
                } else {
                    best
                },
            }
        } else {
            best
        }
    }

    /// The best of `best` and the audits to `t` from the first `count`
    /// places, of which the first is nothing and the others are the entries
    /// in their order.
    pub open spec fn best_anchor(self, c: int, best: Option<(int, int)>, t: int, count: nat) -> Option<
        (int, int),
    >
        decreases count,
    {
        if count == 0 {
            best
        } else {
            self.consider(c, self.best_anchor(c, best, t, (count - 1) as nat), count - 2, t)
        }
    }

    /// The best of the audits to the first `count` places, of which the
    /// first is the package's version and the others are the entries in their
    /// order.
    pub open spec fn best_target(self, c: int, count: nat) -> Option<(int, int)>
        decreases count,
    {
        if count == 0 {
            None
        } else {
            self.best_anchor(
                c,
                self.best_target(c, (count - 1) as nat),
                count - 2,
                self.evidence.len() + 1,
            )
        }
    }

    /// The cheapest audit that would help towards criterion `c`, as the
    /// places it leads from and to.
    pub open spec fn cheapest(self, c: int) -> Option<(int, int)> {
        self.best_target(c, self.evidence.len() + 1)
    }
}

/// The place that an optional index names: the index, or `-1` for none.
pub open spec fn place(o: Option<usize>) -> int {
    match o {
        Some(i) => i as int,
        None => -1,
    }
}

/// A pair of optional indices as a pair of places.
pub open spec fn places(o: Option<(Option<usize>, Option<usize>)>) -> Option<(int, int)> {
    match o {
        Some((a, t)) => Some((place(a), place(t))),
        None => None,
    }
}

fn anchor_of(p: &Plan, a: Option<usize>) -> (r: Option<&Version>)
    requires
        a matches Some(i) ==> i < p.evidence@.len(),
    ensures
        match r {
            Some(v) => p@.anchor_version(place(a)) == Some(v@),
            None => p@.anchor_version(place(a)).is_none(),
        },
        r.is_some() == a.is_some(),
        r matches Some(v) ==> a matches Some(i) && *v == p.evidence@[i as int].to,
{
    match a {
        Some(i) => {
            assert(p@.evidence[i as int] == p.evidence@[i as int]@);
            Some(&p.evidence[i].to)
        },
        None => None,
    }
}

fn target_of(p: &Plan, t: Option<usize>) -> (r: &Version)
    requires
        t matches Some(i) ==> i < p.evidence@.len() && p.evidence@[i as int].from.is_some(),
    ensures
        r@ == p@.target_version(place(t)),
        t matches Some(i) ==> Some(*r) == p.evidence@[i as int].from,
        t.is_none() ==> *r == p.version,
{
    match t {
        Some(i) => {
            assert(p@.evidence[i as int] == p.evidence@[i as int]@);
            match &p.evidence[i].from {
                Some(v) => v,
                None => &p.version,
            }
        },
        None => &p.version,
    }
}

/// The versions that the audit from place `a` to place `t` leads from and
/// to.
pub(crate) fn versions_of(p: &Plan, a: Option<usize>, t: Option<usize>) -> (r: (Option<Version>, Version))
    requires
        a matches Some(i) ==> i < p.evidence@.len(),
        t matches Some(i) ==> i < p.evidence@.len() && p.evidence@[i as int].from.is_some(),
    ensures
        match r.0 {
            Some(v) => p@.anchor_version(place(a)) == Some(v@),
            None => p@.anchor_version(place(a)).is_none(),
        },
        r.1@ == p@.target_version(place(t)),
{
    let from = match anchor_of(p, a) {
        Some(v) => Some(v.duplicate()),
        None => None,
    };
    (from, target_of(p, t).duplicate())
}

/// What the audit from place `a` to place `t` costs.
pub(crate) fn cost_of(p: &Plan, a: Option<usize>, t: Option<usize>) -> (d: Distance)
    requires
        a matches Some(i) ==> i < p.evidence@.len(),
        t matches Some(i) ==> i < p.evidence@.len() && p.evidence@[i as int].from.is_some(),
    ensures
        d == p@.cost(place(a), place(t)),
{
    let to = target_of(p, t);
    match anchor_of(p, a) {
        Some(from) => Distance::between(from, to),
        None => Distance::from_origin(to),
    }
}

fn is_better(
    p: &Plan,
    a1: Option<usize>,
    t1: Option<usize>,
    a2: Option<usize>,
    t2: Option<usize>,
) -> (r: bool)
    requires
        p.checked(),
        a1 matches Some(i) ==> i < p.evidence@.len(),
        t1 matches Some(i) ==> i < p.evidence@.len() && p.evidence@[i as int].from.is_some(),
        a2 matches Some(i) ==> i < p.evidence@.len(),
        t2 matches Some(i) ==> i < p.evidence@.len() && p.evidence@[i as int].from.is_some(),
    ensures
        r == p@.better(place(a1), place(t1), place(a2), place(t2)),
{
    let c1 = cost_of(p, a1, t1);
    let c2 = cost_of(p, a2, t2);
    if c1.lt(&c2) {
        return true;
    }
    if c1 != c2 {
        return false;
    }
    let to1 = target_of(p, t1);
    let to2 = target_of(p, t2);
    if to1.precedes(to2) {
        return true;
    }
    if !to1.same(to2) {
        return false;
    }
    match (anchor_of(p, a1), anchor_of(p, a2)) {
        (Some(f1), Some(f2)) => {
            assert(p@.evidence[place(a1)].to == f1@);
            assert(p@.evidence[place(a2)].to == f2@);
            f1.precedes(f2)
        },
        _ => false,
    }
}

/// The places of the pick are entries of the plan, and the entry to audit up
/// to starts from a version.
pub open spec fn picks_in_range(p: &Plan, pick: Option<(Option<usize>, Option<usize>)>) -> bool {
    pick matches Some((a, t)) ==> (a matches Some(i) ==> i < p.evidence@.len()) && (t matches Some(
        i,
    ) ==> i < p.evidence@.len() && p.evidence@[i as int].from.is_some())
}

/// The better of `best` and the audit from `a` to `t`, if that one fits.
fn considered(
    p: &Plan,
    best: Option<(Option<usize>, Option<usize>)>,
    a: Option<usize>,
    t: Option<usize>,
    fits: bool,
    Ghost(c): Ghost<int>,
) -> (r: Option<(Option<usize>, Option<usize>)>)
    requires
        p.checked(),
        picks_in_range(p, best),
        fits == (p@.anchor_fits(c, place(a)) && p@.target_fits(c, place(t))),
        fits ==> picks_in_range(p, Some((a, t))),
    ensures
        places(r) == p@.consider(c, places(best), place(a), place(t)),
        picks_in_range(p, r),
{
    if !fits {
        return best;
    }
    match best {
        None => Some((a, t)),
        Some((a2, t2)) => {
            if is_better(p, a, t, a2, t2) {
                Some((a, t))
            } else {
                best
            }
        },
    }
}

/// The best of `best` and the audits to place `t` from every place.
fn best_from(
    p: &Plan,
    forward: &Vec<bool>,
    backward: &Vec<bool>,
    anchored: bool,
    c: usize,
    best: Option<(Option<usize>, Option<usize>)>,
    t: Option<usize>,
    Ghost(before): Ghost<nat>,
) -> (r: Option<(Option<usize>, Option<usize>)>)
    requires
        p.checked(),
        forward@ == p@.forward(c as int),
        backward@ == p@.backward(c as int),
        anchored == p@.anchored(c as int),
        t matches Some(i) ==> i < p.evidence@.len(),
        place(t) == before - 1,
        places(best) == p@.best_target(c as int, before),
        picks_in_range(p, best),
    ensures
        places(r) == p@.best_target(c as int, before + 1),
        picks_in_range(p, r),
{
    let n = p.evidence.len();
    let ghost pv = p@;
    let ghost start = places(best);
    let target_fits = match t {
        None => true,
        Some(i) => {
            assert(pv.evidence[i as int] == p.evidence@[i as int]@);
            backward[i] && p.evidence[i].from.is_some()
        },
    };
    assert(target_fits == pv.target_fits(c as int, place(t)));
    let mut best = best;
    assert(places(best) == pv.best_anchor(c as int, start, place(t), 0));
    best = considered(p, best, None, t, !anchored && target_fits, Ghost(c as int));
    let mut ai: usize = 0;
    while ai < n
        invariant
            p.checked(),
            pv == p@,
            n == p.evidence@.len(),
            forward@ == pv.forward(c as int),
            anchored == pv.anchored(c as int),
            target_fits == pv.target_fits(c as int, place(t)),
            target_fits ==> (t matches Some(i) ==> i < n && p.evidence@[i as int].from.is_some()),
            ai <= n,
            places(best) == pv.best_anchor(c as int, start, place(t), (ai + 1) as nat),
            picks_in_range(p, best),
        decreases n - ai,
    {
        best = considered(p, best, Some(ai), t, forward[ai] && target_fits, Ghost(c as int));
        ai += 1;
    }
    best
}

/// The cheapest audit that would help the package towards criterion `c`.
pub(crate) fn cheapest(
    p: &Plan,
    w: &Workings,
    c: usize,
    Ghost(implied): Ghost<Seq<Seq<bool>>>,
    Ghost(achieved): Ghost<Seq<Seq<bool>>>,
) -> (r: Option<(Option<usize>, Option<usize>)>)
    requires
        p.checked(),
        w.describes(p@, implied, achieved),
        c < implied.len(),
    ensures
        places(r) == p@.cheapest(c as int),
        picks_in_range(p, r),
{
    let n = p.evidence.len();
    let ghost pv = p@;
    assert(w.covering@[c as int]@ == pv.covering(c as int));
    let forward = closure(&w.links, &w.starts, &w.covering[c]);
    let backward = closure(&w.back, &w.arrivals, &w.covering[c]);
    assert(forward@ =~= pv.forward(c as int));
    assert(backward@ =~= pv.backward(c as int));
    let mut anchored = false;
    let mut i: usize = 0;
    while i < n
        invariant
            n == forward@.len(),
            i <= n,
            anchored == exists|x: int| 0 <= x < i && #[trigger] forward@[x],
        decreases n - i,
    {
        if forward[i] {
            anchored = true;
        }
        i += 1;
    }
    assert(anchored == pv.anchored(c as int));
    let mut best: Option<(Option<usize>, Option<usize>)> = None;
    best = best_from(p, &forward, &backward, anchored, c, best, None, Ghost(0));
    let mut ti: usize = 0;
    while ti < n
        invariant
            p.checked(),
            pv == p@,
            n == p.evidence@.len(),
            forward@ == pv.forward(c as int),
            backward@ == pv.backward(c as int),
            anchored == pv.anchored(c as int),
            ti <= n,
            places(best) == pv.best_target(c as int, (ti + 1) as nat),
            picks_in_range(p, best),
        decreases n - ti,
    {
        best = best_from(p, &forward, &backward, anchored, c, best, Some(ti), Ghost((ti + 1) as nat));
        ti += 1;
    }
    best
}

/// The audit from place `a` to place `t` fits.
pub open spec fn fits(p: PlanView, c: int, a: int, t: int) -> bool {
    &&& -1 <= a < p.evidence.len()
    &&& -1 <= t < p.evidence.len()
    &&& p.anchor_fits(c, a)
    &&& p.target_fits(c, t)
}

/// The audit from place `a` to place `t` fits, and leads to a place before
/// `targets`, or to place `targets` from a place before `anchors`.
pub open spec fn in_scope(p: PlanView, c: int, a: int, t: int, targets: int, anchors: int) -> bool {
    fits(p, c, a, t) && (t < targets || (t == targets && a < anchors))
}

/// The pick is an audit that fits and that costs no more than any audit in
/// the scope of `targets` and `anchors`.
pub open spec fn least_so_far(
    p: PlanView,
    c: int,
    pick: Option<(int, int)>,
    targets: int,
    anchors: int,
) -> bool {
    &&& match pick {
        Some((a, t)) => fits(p, c, a, t),
        None => true,
    }
    &&& forall|a2: int, t2: int| #[trigger]
        in_scope(p, c, a2, t2, targets, anchors) ==> pick.is_some() && p.cost(
            pick.unwrap().0,
            pick.unwrap().1,
        ).spec_le(p.cost(a2, t2))
}

proof fn lemma_best_anchor(p: PlanView, c: int, best: Option<(int, int)>, t: int, count: nat)
    requires
        -1 <= t < p.evidence.len(),
        count <= p.evidence.len() + 1,
        least_so_far(p, c, best, t, -1),
    ensures
        least_so_far(p, c, p.best_anchor(c, best, t, count), t, count - 1),
    decreases count,
{
    if count > 0 {
        lemma_best_anchor(p, c, best, t, (count - 1) as nat);
        let before = p.best_anchor(c, best, t, (count - 1) as nat);
        let a = count - 2;
        let after = p.consider(c, before, a, t);
        assert forall|a2: int, t2: int| #[trigger]
            in_scope(p, c, a2, t2, t, count - 1) implies after.is_some() && p.cost(
            after.unwrap().0,
            after.unwrap().1,
        ).spec_le(p.cost(a2, t2)) by {
            if t2 == t && a2 == a {
            } else {
                assert(in_scope(p, c, a2, t2, t, count - 2));
            }
        }
    }
}

proof fn lemma_best_target(p: PlanView, c: int, count: nat)
    requires
        count <= p.evidence.len() + 1,
    ensures
        least_so_far(p, c, p.best_target(c, count), count - 1, -1),
    decreases count,
{
    if count > 0 {
        lemma_best_target(p, c, (count - 1) as nat);
        let before = p.best_target(c, (count - 1) as nat);
        assert forall|a2: int, t2: int| #[trigger]
            in_scope(p, c, a2, t2, count - 2, -1) implies before.is_some() && p.cost(
            before.unwrap().0,
            before.unwrap().1,
        ).spec_le(p.cost(a2, t2)) by {}
        lemma_best_anchor(p, c, before, count - 2, p.evidence.len() + 1);
        let after = p.best_target(c, count);
        assert forall|a2: int, t2: int| #[trigger]
            in_scope(p, c, a2, t2, count - 1, -1) implies after.is_some() && p.cost(
            after.unwrap().0,
            after.unwrap().1,
        ).spec_le(p.cost(a2, t2)) by {
            assert(in_scope(p, c, a2, t2, count - 2, p.evidence.len() as int));
        }
    }
}

/// The cheapest audit is the cheapest: it fits, and no audit that fits costs
/// less. There always is one, since a full audit of the package's version
/// fits where no version has evidence.
pub proof fn lemma_cheapest(p: PlanView, c: int)
    ensures
        p.cheapest(c) matches Some((a, t)) && fits(p, c, a, t) && forall|a2: int, t2: int|
            #![trigger p.cost(a2, t2)]
            fits(p, c, a2, t2) ==> p.cost(a, t).spec_le(p.cost(a2, t2)),
{
    let n = p.evidence.len() as int;
    lemma_best_target(p, c, p.evidence.len() + 1);
    let pick = p.cheapest(c);
    if p.anchored(c) {
        let i = choose|i: int| 0 <= i < p.evidence.len() && #[trigger] p.forward(c)[i];
        assert(in_scope(p, c, i, -1, n, -1));
    } else {
        assert(in_scope(p, c, -1, -1, n, -1));
    }
    assert forall|a2: int, t2: int|
        #![trigger p.cost(a2, t2)]
        fits(p, c, a2, t2) implies p.cost(pick.unwrap().0, pick.unwrap().1).spec_le(
        p.cost(a2, t2),
    ) by {
        assert(in_scope(p, c, a2, t2, n, -1));
    }
}

/// Another version of a package that achieves a criterion is a version to
/// audit from: where two plans hold the same entries and the same
/// violations, as the plans of two packages of one name do, and the second
/// achieves criterion `c`, the entries of the first lead to the version of
/// the second with evidence for `c`.
pub proof fn lemma_sibling_is_anchor(
    p: PlanView,
    q: PlanView,
    implied: Seq<Seq<bool>>,
    achieved: Seq<Seq<bool>>,
    c: int,
)
    requires
        p.evidence.len() == q.evidence.len(),
        forall|i: int|
            #![trigger p.evidence[i]]
            0 <= i < p.evidence.len() ==> p.evidence[i].from == q.evidence[i].from
                && p.evidence[i].to == q.evidence[i].to && p.evidence[i].criteria
                == q.evidence[i].criteria,
        forall|v: VersionView| #[trigger] p.masked(c, v) == q.masked(c, v),
        q.attains(implied, achieved, c),
    ensures
        exists|i: int|
            0 <= i < p.evidence.len() && #[trigger] p.forward(c)[i] && p.evidence[i].to
                == q.version,
{
    let usable = q.usable_for(implied, achieved, c);
    let i = choose|i: int|
        0 <= i < q.evidence.len() && q.arrivals()[i] && #[trigger] reaches(
            q.links(),
            q.starts(),
            usable,
            i,
        );
    let same = Seq::new(p.evidence.len(), |x: int| x);
    assert forall|x: int| 0 <= x < usable.len() && usable[x] implies p.covering(c)[#[trigger] same[x]] by {
        assert(q.usable(implied, achieved, x, c));
        assert(q.covers(x, c));
        let _ = p.evidence[x];
        assert(p.covers(x, c));
    }
    assert forall|x: int, y: int|
        #![trigger same[y], same[x]]
        0 <= x < usable.len() && 0 <= y < usable.len() && usable[x] && usable[y]
            && q.links()[y][x] implies p.links()[same[y]][same[x]] by {
        let _ = p.evidence[x];
        let _ = p.evidence[y];
        assert(q.follows(y, x));
        assert(p.follows(y, x));
    }
    assert forall|x: int|
        0 <= x < usable.len() && usable[x] && q.starts()[x] implies p.starts()[#[trigger] same[x]] by {
        let _ = p.evidence[x];
    }
    crate::reach::lemma_reaches_embedded(
        q.links(),
        q.starts(),
        usable,
        p.links(),
        p.starts(),
        p.covering(c),
        same,
        i,
    );
    let _ = p.evidence[i];
    assert(p.forward(c)[i]);
}

} // verus!
