//! For one package: which entries cover a criterion, which are usable, and
//! whether a chain of them leads to the package's version.

use crate::criteria::{subset, CriteriaSet};
use crate::model::{Plan, PlanView};
use crate::reach::{closure, reaches, rows};
use crate::version::{semver_matches, semver_requirement_ok, Version, VersionView};
use vstd::prelude::*;

verus! {

impl Plan {
    /// Every version of the plan is well formed, and every requirement is
    /// one that `semver` accepts.
    pub open spec fn checked(&self) -> bool {
        &&& self.version@.well_formed()
        &&& forall|i: int|
            #![trigger self.evidence@[i]]
            0 <= i < self.evidence@.len() ==> {
                &&& self.evidence@[i].to@.well_formed()
                &&& self.evidence@[i].from matches Some(f) ==> f@.well_formed()
            }
        &&& forall|w: int|
            0 <= w < self.violations@.len() ==> semver_requirement_ok(
                (#[trigger] self.violations@[w]).requirement.text@,
            )
    }
}

/// The values of a list of sets.
pub open spec fn sets_view(sets: &Vec<CriteriaSet>) -> Seq<Seq<bool>> {
    Seq::new(sets@.len(), |k: int| sets@[k]@)
}

/// Row `j` marks the entries that can follow entry `j`.
pub(crate) fn link_matrix(p: &Plan) -> (m: Vec<Vec<bool>>)
    ensures
        rows(&m) == p@.links(),
{
    let n = p.evidence.len();
    let mut m: Vec<Vec<bool>> = Vec::new();
    let mut j: usize = 0;
    while j < n
        invariant
            n == p.evidence@.len(),
            j <= n,
            m@.len() == j,
            forall|y: int| 0 <= y < j ==> (#[trigger] m@[y])@ == p@.links()[y],
        decreases n - j,
    {
        let mut row: Vec<bool> = Vec::new();
        let mut i: usize = 0;
        while i < n
            invariant
                n == p.evidence@.len(),
                j < n,
                i <= n,
                row@.len() == i,
                forall|x: int| 0 <= x < i ==> #[trigger] row@[x] == p@.follows(j as int, x),
            decreases n - i,
        {
            let follows = match &p.evidence[i].from {
                Some(f) => f.same(&p.evidence[j].to),
                None => false,
            };
            row.push(follows);
            i += 1;
        }
        assert(row@ =~= p@.links()[j as int]);
        m.push(row);
        j += 1;
    }
    assert(rows(&m) =~= p@.links());
    m
}

/// Row `i` marks the entries that entry `i` can follow.
pub(crate) fn back_matrix(p: &Plan) -> (m: Vec<Vec<bool>>)
    ensures
        rows(&m) == p@.back_links(),
{
    let n = p.evidence.len();
    let mut m: Vec<Vec<bool>> = Vec::new();
    let mut i: usize = 0;
    while i < n
        invariant
            n == p.evidence@.len(),
            i <= n,
            m@.len() == i,
            forall|y: int| 0 <= y < i ==> (#[trigger] m@[y])@ == p@.back_links()[y],
        decreases n - i,
    {
        let mut row: Vec<bool> = Vec::new();
        let mut j: usize = 0;
        while j < n
            invariant
                n == p.evidence@.len(),
                i < n,
                j <= n,
                row@.len() == j,
                forall|x: int| 0 <= x < j ==> #[trigger] row@[x] == p@.follows(x, i as int),
            decreases n - j,
        {
            let follows = match &p.evidence[i].from {
                Some(f) => f.same(&p.evidence[j].to),
                None => false,
            };
            row.push(follows);
            j += 1;
        }
        assert(row@ =~= p@.back_links()[i as int]);
        m.push(row);
        i += 1;
    }
    assert(rows(&m) =~= p@.back_links());
    m
}

/// The entries that start from nothing.
pub(crate) fn start_marks(p: &Plan) -> (s: Vec<bool>)
    ensures
        s@ == p@.starts(),
{
    let n = p.evidence.len();
    let mut s: Vec<bool> = Vec::new();
    let mut i: usize = 0;
    while i < n
        invariant
            n == p.evidence@.len(),
            i <= n,
            s@.len() == i,
            forall|x: int| 0 <= x < i ==> #[trigger] s@[x] == p@.evidence[x].from.is_none(),
        decreases n - i,
    {
        s.push(p.evidence[i].from.is_none());
        i += 1;
    }
    assert(s@ =~= p@.starts());
    s
}

/// The entries that end at the package's version.
pub(crate) fn arrival_marks(p: &Plan) -> (s: Vec<bool>)
    ensures
        s@ == p@.arrivals(),
{
    let n = p.evidence.len();
    let mut s: Vec<bool> = Vec::new();
    let mut i: usize = 0;
    while i < n
        invariant
            n == p.evidence@.len(),
            i <= n,
            s@.len() == i,
            forall|x: int| 0 <= x < i ==> #[trigger] s@[x] == (p@.evidence[x].to == p@.version),
        decreases n - i,
    {
        s.push(p.evidence[i].to.same(&p.version));
        i += 1;
    }
    assert(s@ =~= p@.arrivals());
    s
}

/// For each violation of the plan, whether its requirement matches `version`.
pub(crate) fn matches_of(p: &Plan, version: &Version) -> (hits: Vec<bool>)
    requires
        p.checked(),
        version@.well_formed(),
    ensures
        hits@.len() == p.violations@.len(),
        forall|w: int|
            0 <= w < hits@.len() ==> #[trigger] hits@[w] == semver_matches(
                p@.violations[w].requirement,
                version@,
            ),
{
    let n = p.violations.len();
    let mut hits: Vec<bool> = Vec::new();
    let mut w: usize = 0;
    while w < n
        invariant
            p.checked(),
            version@.well_formed(),
            n == p.violations@.len(),
            w <= n,
            hits@.len() == w,
            forall|x: int|
                0 <= x < w ==> #[trigger] hits@[x] == semver_matches(
                    p@.violations[x].requirement,
                    version@,
                ),
        decreases n - w,
    {
        assert(semver_requirement_ok(p.violations@[w as int].requirement.text@));
        hits.push(p.violations[w].requirement.matches(version));
        w += 1;
    }
    hits
}

/// Whether some violation says that the version behind `hits` fails
/// criterion `c`.
fn masked_by_hits(p: &Plan, hits: &Vec<bool>, c: usize, version: Ghost<VersionView>) -> (r: bool)
    requires
        hits@.len() == p.violations@.len(),
        forall|w: int|
            0 <= w < hits@.len() ==> #[trigger] hits@[w] == semver_matches(
                p@.violations[w].requirement,
                version@,
            ),
    ensures
        r == p@.masked(c as int, version@),
{
    let n = p.violations.len();
    let mut w: usize = 0;
    while w < n
        invariant
            n == p.violations@.len(),
            hits@.len() == n,
            forall|x: int|
                0 <= x < hits@.len() ==> #[trigger] hits@[x] == semver_matches(
                    p@.violations[x].requirement,
                    version@,
                ),
            w <= n,
            forall|x: int| 0 <= x < w ==> !(#[trigger] p@.violations[x]).hits(c as int, version@),
        decreases n - w,
    {
        if hits[w] && p.violations[w].criteria.contains(c) {
            assert(p@.violations[w as int].hits(c as int, version@));
            return true;
        }
        assert(!p@.violations[w as int].hits(c as int, version@)) by {
            assert(hits@[w as int] == semver_matches(
                p@.violations[w as int].requirement,
                version@,
            ));
        }
        w += 1;
    }
    false
}

impl PlanView {
    /// The criteria for which version `v` is masked, among the first `count`
    /// criteria.
    pub open spec fn masks(self, v: VersionView, count: nat) -> Seq<bool> {
        Seq::new(count, |c: int| self.masked(c, v))
    }
}

impl Plan {
    /// The criteria, among the first `count`, that the violations of the
    /// plan mask at `version`.
    pub fn violations_matching(&self, version: &Version, count: usize) -> (s: CriteriaSet)
        requires
            self.checked(),
            version@.well_formed(),
        ensures
            s@ == self@.masks(version@, count as nat),
    {
        let hits = matches_of(self, version);
        let mut bits: Vec<bool> = Vec::new();
        let mut c: usize = 0;
        while c < count
            invariant
                hits@.len() == self.violations@.len(),
                forall|w: int|
                    0 <= w < hits@.len() ==> #[trigger] hits@[w] == semver_matches(
                        self@.violations[w].requirement,
                        version@,
                    ),
                c <= count,
                bits@.len() == c,
                forall|x: int| 0 <= x < c ==> #[trigger] bits@[x] == self@.masked(x, version@),
            decreases count - c,
        {
            bits.push(masked_by_hits(self, &hits, c, Ghost(version@)));
            c += 1;
        }
        assert(bits@ =~= self@.masks(version@, count as nat));
        CriteriaSet { bits }
    }
}

/// For each criterion, the entries that cover it.
pub(crate) fn covering_table(p: &Plan, count: usize) -> (t: Vec<Vec<bool>>)
    requires
        p.checked(),
    ensures
        t@.len() == count,
        forall|c: int| 0 <= c < count ==> (#[trigger] t@[c])@ == p@.covering(c),
{
    let n = p.evidence.len();
    let mut ends: Vec<CriteriaSet> = Vec::new();
    let mut begins: Vec<CriteriaSet> = Vec::new();
    let mut i: usize = 0;
    while i < n
        invariant
            p.checked(),
            n == p.evidence@.len(),
            i <= n,
            ends@.len() == i,
            begins@.len() == i,
            forall|x: int|
                0 <= x < i ==> (#[trigger] ends@[x])@ == p@.masks(p@.evidence[x].to, count as nat),
            forall|x: int|
                0 <= x < i ==> (p@.evidence[x].from matches Some(f) ==> (#[trigger] begins@[x])@
                    == p@.masks(f, count as nat)),
        decreases n - i,
    {
        let e = &p.evidence[i];
        assert(p@.evidence[i as int] == e@);
        assert(e.to@.well_formed());
        ends.push(p.violations_matching(&e.to, count));
        match &e.from {
            Some(f) => {
                begins.push(p.violations_matching(f, count));
            },
            None => {
                begins.push(CriteriaSet::empty(0));
            },
        }
        i += 1;
    }
    let mut t: Vec<Vec<bool>> = Vec::new();
    let mut c: usize = 0;
    while c < count
        invariant
            n == p.evidence@.len(),
            ends@.len() == n,
            begins@.len() == n,
            forall|x: int|
                0 <= x < n ==> (#[trigger] ends@[x])@ == p@.masks(p@.evidence[x].to, count as nat),
            forall|x: int|
                0 <= x < n ==> (p@.evidence[x].from matches Some(f) ==> (#[trigger] begins@[x])@
                    == p@.masks(f, count as nat)),
            c <= count,
            t@.len() == c,
            forall|y: int| 0 <= y < c ==> (#[trigger] t@[y])@ == p@.covering(y),
        decreases count - c,
    {
        let mut row: Vec<bool> = Vec::new();
        let mut i: usize = 0;
        while i < n
            invariant
                n == p.evidence@.len(),
                ends@.len() == n,
                begins@.len() == n,
                forall|x: int|
                    0 <= x < n ==> (#[trigger] ends@[x])@ == p@.masks(
                        p@.evidence[x].to,
                        count as nat,
                    ),
                forall|x: int|
                    0 <= x < n ==> (p@.evidence[x].from matches Some(f) ==> (
                    #[trigger] begins@[x])@ == p@.masks(f, count as nat)),
                c < count,
                i <= n,
                row@.len() == i,
                forall|x: int| 0 <= x < i ==> #[trigger] row@[x] == p@.covers(x, c as int),
            decreases n - i,
        {
            let e = &p.evidence[i];
            assert(p@.evidence[i as int] == e@);
            assert(ends@[i as int]@ == p@.masks(e@.to, count as nat));
            let ghost _ = begins@[i as int];
            let covers = e.criteria.contains(c) && !ends[i].contains(c) && (e.from.is_none()
                || !begins[i].contains(c));
            row.push(covers);
            i += 1;
        }
        assert(row@ =~= p@.covering(c as int));
        t.push(row);
        c += 1;
    }
    t
}

/// Whether every dependency has achieved what entry `i` asks of it for
/// criterion `c`.
fn dependencies_meet(
    p: &Plan,
    implied: &Vec<CriteriaSet>,
    achieved: &Vec<CriteriaSet>,
    i: usize,
    c: usize,
) -> (r: bool)
    requires
        i < p.evidence@.len(),
        c < implied@.len(),
        p.evidence@[i as int].requirements@.len() == p.deps@.len(),
        forall|j: int| 0 <= j < p.deps@.len() ==> #[trigger] p.deps@[j] < achieved@.len(),
    ensures
        r == forall|j: int|
            #![trigger p@.deps[j]]
            0 <= j < p@.deps.len() ==> subset(
                p@.evidence[i as int].asks(sets_view(implied), j, c as int),
                sets_view(achieved)[p@.deps[j]],
            ),
{
    let m = p.deps.len();
    let e = &p.evidence[i];
    assert(p@.evidence[i as int] == e@);
    let mut j: usize = 0;
    while j < m
        invariant
            m == p.deps@.len(),
            i < p.evidence@.len(),
            c < implied@.len(),
            e == p.evidence@[i as int],
            p@.evidence[i as int] == e@,
            e.requirements@.len() == m,
            forall|x: int| 0 <= x < p.deps@.len() ==> #[trigger] p.deps@[x] < achieved@.len(),
            j <= m,
            forall|x: int|
                #![trigger p@.deps[x]]
                0 <= x < j ==> subset(
                    p@.evidence[i as int].asks(sets_view(implied), x, c as int),
                    sets_view(achieved)[p@.deps[x]],
                ),
        decreases m - j,
    {
        let d = p.deps[j];
        assert(p@.deps[j as int] == d);
        let met = match &e.requirements[j] {
            Some(s) => achieved[d].contains_all(s),
            None => achieved[d].contains_all(&implied[c]),
        };
        assert(met == subset(
            p@.evidence[i as int].asks(sets_view(implied), j as int, c as int),
            sets_view(achieved)[p@.deps[j as int]],
        )) by {
            assert(e@.requirements[j as int] == crate::model::set_view(e.requirements@[j as int]));
        }
        if !met {
            return false;
        }
        j += 1;
    }
    true
}

/// For each criterion, the entries that are usable for it.
pub(crate) fn usable_table(
    p: &Plan,
    implied: &Vec<CriteriaSet>,
    achieved: &Vec<CriteriaSet>,
    covering: &Vec<Vec<bool>>,
) -> (t: Vec<Vec<bool>>)
    requires
        covering@.len() == implied@.len(),
        forall|c: int| 0 <= c < covering@.len() ==> (#[trigger] covering@[c])@ == p@.covering(c),
        forall|i: int|
            0 <= i < p.evidence@.len() ==> (#[trigger] p.evidence@[i]).requirements@.len()
                == p.deps@.len(),
        forall|j: int| 0 <= j < p.deps@.len() ==> #[trigger] p.deps@[j] < achieved@.len(),
    ensures
        t@.len() == implied@.len(),
        forall|c: int|
            0 <= c < t@.len() ==> (#[trigger] t@[c])@ == p@.usable_for(
                sets_view(implied),
                sets_view(achieved),
                c,
            ),
{
    let count = implied.len();
    let n = p.evidence.len();
    let mut t: Vec<Vec<bool>> = Vec::new();
    let mut c: usize = 0;
    while c < count
        invariant
            count == implied@.len(),
            n == p.evidence@.len(),
            covering@.len() == count,
            forall|y: int| 0 <= y < covering@.len() ==> (#[trigger] covering@[y])@ == p@.covering(y),
            forall|i: int|
                0 <= i < p.evidence@.len() ==> (#[trigger] p.evidence@[i]).requirements@.len()
                    == p.deps@.len(),
            forall|j: int| 0 <= j < p.deps@.len() ==> #[trigger] p.deps@[j] < achieved@.len(),
            c <= count,
            t@.len() == c,
            forall|y: int|
                0 <= y < c ==> (#[trigger] t@[y])@ == p@.usable_for(
                    sets_view(implied),
                    sets_view(achieved),
                    y,
                ),
        decreases count - c,
    {
        let mut row: Vec<bool> = Vec::new();
        let mut i: usize = 0;
        assert(covering@[c as int]@ == p@.covering(c as int));
        while i < n
            invariant
                count == implied@.len(),
                n == p.evidence@.len(),
                c < count,
                covering@.len() == count,
                covering@[c as int]@ == p@.covering(c as int),
                forall|x: int|
                    0 <= x < p.evidence@.len() ==> (#[trigger] p.evidence@[x]).requirements@.len()
                        == p.deps@.len(),
                forall|j: int| 0 <= j < p.deps@.len() ==> #[trigger] p.deps@[j] < achieved@.len(),
                i <= n,
                row@.len() == i,
                forall|x: int|
                    0 <= x < i ==> #[trigger] row@[x] == p@.usable(
                        sets_view(implied),
                        sets_view(achieved),
                        x,
                        c as int,
                    ),
            decreases n - i,
        {
            assert(covering@[c as int]@[i as int] == p@.covers(i as int, c as int));
            let usable = covering[c][i] && dependencies_meet(p, implied, achieved, i, c);
            row.push(usable);
            i += 1;
        }
        assert(row@ =~= p@.usable_for(sets_view(implied), sets_view(achieved), c as int));
        t.push(row);
        c += 1;
    }
    t
}

/// Whether a chain of entries among `active` leads from nothing to the
/// package's version.
pub(crate) fn witnessed(
    p: &Plan,
    links: &Vec<Vec<bool>>,
    starts: &Vec<bool>,
    arrivals: &Vec<bool>,
    active: &Vec<bool>,
) -> (r: bool)
    requires
        rows(links) == p@.links(),
        starts@ == p@.starts(),
        arrivals@ == p@.arrivals(),
        active@.len() == p.evidence@.len(),
    ensures
        r == p@.witnessed(active@),
{
    let n = active.len();
    let marks = closure(links, starts, active);
    let mut i: usize = 0;
    while i < n
        invariant
            n == p.evidence@.len(),
            marks@.len() == n,
            arrivals@ == p@.arrivals(),
            forall|x: int|
                0 <= x < n ==> #[trigger] marks@[x] == reaches(
                    p@.links(),
                    p@.starts(),
                    active@,
                    x,
                ),
            i <= n,
            forall|x: int|
                0 <= x < i ==> !(p@.arrivals()[x] && #[trigger] reaches(
                    p@.links(),
                    p@.starts(),
                    active@,
                    x,
                )),
        decreases n - i,
    {
        if arrivals[i] && marks[i] {
            assert(reaches(p@.links(), p@.starts(), active@, i as int));
            return true;
        }
        assert(marks@[i as int] == reaches(p@.links(), p@.starts(), active@, i as int));
        i += 1;
    }
    false
}

} // verus!
