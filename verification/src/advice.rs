//! Which audits to suggest: for each package that fails for want of
//! evidence, the cheapest audit towards each criterion it misses, with the
//! suggestions for one name side by side and the cheaper ones first.

use crate::criteria::{holds, CriteriaSet};
use crate::graph::{GraphView, PackageGraph};
use crate::model::{Model, ModelView, Verdict};
use crate::settle::{model_ready, Settled};
use crate::suggest::{cheapest, cost_of, place, versions_of};
use crate::text::{find, spec_find, views};
use crate::version::{Distance, Version, VersionView};
use crate::witness::witnessed;
use vstd::prelude::*;

verus! {

/// An audit to suggest, before names are put in.
#[derive(Clone, Debug)]
pub struct Advice {
    /// The place of the first package with the name of this one.
    pub group: usize,
    pub package: usize,
    pub criterion: usize,
    pub from: Option<Version>,
    pub to: Version,
    pub cost: Distance,
}

pub struct AdviceView {
    pub group: int,
    pub package: int,
    pub criterion: int,
    pub from: Option<VersionView>,
    pub to: VersionView,
    pub cost: Distance,
}

impl View for Advice {
    type V = AdviceView;

    open spec fn view(&self) -> AdviceView {
        AdviceView {
            group: self.group as int,
            package: self.package as int,
            criterion: self.criterion as int,
            from: match self.from {
                Some(v) => Some(v@),
                None => None,
            },
            to: self.to@,
            cost: self.cost,
        }
    }
}

/// The values of a list of advice.
pub open spec fn advice_views(list: &Vec<Advice>) -> Seq<AdviceView> {
    Seq::new(list@.len(), |i: int| list@[i]@)
}

impl ModelView {
    /// An audit is to be suggested for package `k` and criterion `c`: the
    /// package fails for want of evidence, `c` is among the strongest
    /// criteria that it misses, and its own entries do not lead to its
    /// version for `c`, whatever its dependencies achieve.
    pub open spec fn wants(self, k: int, c: int) -> bool {
        &&& !self.plans[k].first_party
        &&& self.verdict(k) == Verdict::FailMissing
        &&& holds(self.missing(k), c)
        &&& forall|d: int| holds(self.missing(k), d) && #[trigger] self.implies(d, c) ==> d == c
        &&& !self.plans[k].attains_alone(c)
    }
}

/// The audit to suggest for package `k` and criterion `c`.
pub open spec fn advice_for(g: GraphView, m: ModelView, k: int, c: int) -> AdviceView {
    let p = m.plans[k];
    let (a, t) = p.cheapest(c).unwrap();
    AdviceView {
        group: spec_find(g.names(), g.packages[k].name).unwrap(),
        package: k,
        criterion: c,
        from: p.anchor_version(a),
        to: p.target_version(t),
        cost: p.cost(a, t),
    }
}

/// The audits to suggest for package `k` and the first `upto` criteria.
pub open spec fn advice_in(g: GraphView, m: ModelView, k: int, upto: nat) -> Seq<AdviceView>
    decreases upto,
{
    if upto == 0 {
        Seq::empty()
    } else {
        let before = advice_in(g, m, k, (upto - 1) as nat);
        if m.wants(k, upto - 1) {
            before.push(advice_for(g, m, k, upto - 1))
        } else {
            before
        }
    }
}

/// The audits to suggest for the first `upto` packages, package after
/// package.
pub open spec fn advice_upto(g: GraphView, m: ModelView, upto: nat) -> Seq<AdviceView>
    decreases upto,
{
    if upto == 0 {
        Seq::empty()
    } else {
        advice_upto(g, m, (upto - 1) as nat) + advice_in(g, m, upto - 1, m.implied.len())
    }
}

/// Advice `a` is to stand before advice `b`: its name comes first in the
/// graph, or it is for the same name and costs less.
pub open spec fn goes_before(a: AdviceView, b: AdviceView) -> bool {
    a.group < b.group || (a.group == b.group && a.cost.spec_lt(b.cost))
}

/// The list with `x` put in: before the advice that it is to stand before,
/// and after all other.
pub open spec fn inserted(sorted: Seq<AdviceView>, x: AdviceView) -> Seq<AdviceView>
    decreases sorted.len(),
{
    if sorted.len() == 0 {
        seq![x]
    } else if goes_before(x, sorted.last()) {
        inserted(sorted.drop_last(), x).push(sorted.last())
    } else {
        sorted.push(x)
    }
}

/// The first `upto` pieces of advice put in order, one after the other.
pub open spec fn in_order(list: Seq<AdviceView>, upto: nat) -> Seq<AdviceView>
    decreases upto,
{
    if upto == 0 {
        Seq::empty()
    } else {
        inserted(in_order(list, (upto - 1) as nat), list[upto - 1])
    }
}

/// The advice of a model in the order of the report.
pub open spec fn spec_advice(g: GraphView, m: ModelView) -> Seq<AdviceView> {
    let all = advice_upto(g, m, m.plans.len());
    in_order(all, all.len())
}

/// No piece of advice of the list is to stand before one that stands
/// earlier.
pub open spec fn sorted(s: Seq<AdviceView>) -> bool {
    forall|a: int, b: int| 0 <= a < b < s.len() ==> !goes_before(#[trigger] s[b], #[trigger] s[a])
}

/// Putting a piece of advice into a list that is in order gives a list in
/// order that holds the same advice and the new piece.
pub proof fn lemma_inserted_sorted(s: Seq<AdviceView>, x: AdviceView)
    requires
        sorted(s),
    ensures
        sorted(inserted(s, x)),
        inserted(s, x).len() == s.len() + 1,
        inserted(s, x).to_multiset() == s.to_multiset().insert(x),
        forall|a: int|
            0 <= a < inserted(s, x).len() ==> #[trigger] inserted(s, x)[a] == x || s.contains(
                inserted(s, x)[a],
            ),
    decreases s.len(),
{
    broadcast use vstd::seq_lib::to_multiset_build;

    let r = inserted(s, x);
    if s.len() == 0 {
        assert(s =~= Seq::empty());
        assert(r =~= Seq::<AdviceView>::empty().push(x));
    } else if goes_before(x, s.last()) {
        let front = s.drop_last();
        let last = s.last();
        assert(sorted(front)) by {
            assert forall|a: int, b: int| 0 <= a < b < front.len() implies !goes_before(
                #[trigger] front[b],
                #[trigger] front[a],
            ) by {
                assert(front[a] == s[a] && front[b] == s[b]);
            }
        }
        lemma_inserted_sorted(front, x);
        let inner = inserted(front, x);
        assert(r == inner.push(last));
        assert(s =~= front.push(last));
        assert forall|a: int| 0 <= a < r.len() implies #[trigger] r[a] == x || s.contains(
            r[a],
        ) by {
            if a < inner.len() {
                if inner[a] != x {
                    let i = choose|i: int| 0 <= i < front.len() && front[i] == inner[a];
                    assert(s[i] == r[a]);
                }
            } else {
                assert(s[s.len() - 1] == r[a]);
            }
        }
        assert forall|a: int, b: int| 0 <= a < b < r.len() implies !goes_before(
            #[trigger] r[b],
            #[trigger] r[a],
        ) by {
            if b == r.len() - 1 {
                if inner[a] != x {
                    let i = choose|i: int| 0 <= i < front.len() && front[i] == inner[a];
                    assert(!goes_before(s[s.len() - 1], s[i]));
                }
            } else {
                assert(!goes_before(inner[b], inner[a]));
            }
        }
    } else {
        assert(r == s.push(x));
        assert forall|a: int| 0 <= a < r.len() implies #[trigger] r[a] == x || s.contains(
            r[a],
        ) by {
            if a < s.len() {
                assert(s[a] == r[a]);
            }
        }
        assert forall|a: int, b: int| 0 <= a < b < r.len() implies !goes_before(
            #[trigger] r[b],
            #[trigger] r[a],
        ) by {
            if b == r.len() - 1 {
                if a < s.len() - 1 {
                    assert(!goes_before(s[s.len() - 1], s[a]));
                }
            } else {
                assert(!goes_before(s[b], s[a]));
            }
        }
    }
}

/// The order of the report: the advice put in order is in order, and it is
/// the same advice.
pub proof fn lemma_in_order(list: Seq<AdviceView>, upto: nat)
    requires
        upto <= list.len(),
    ensures
        sorted(in_order(list, upto)),
        in_order(list, upto).len() == upto,
        in_order(list, upto).to_multiset() == list.take(upto as int).to_multiset(),
    decreases upto,
{
    broadcast use vstd::seq_lib::to_multiset_build;

    if upto == 0 {
        assert(list.take(0) =~= in_order(list, 0));
    } else {
        lemma_in_order(list, (upto - 1) as nat);
        lemma_inserted_sorted(in_order(list, (upto - 1) as nat), list[upto - 1]);
        assert(list.take(upto as int) =~= list.take(upto - 1).push(list[upto - 1]));
    }
}

/// Putting `x` in is putting it at the place behind which everything is to
/// stand after it.
proof fn lemma_inserted(s: Seq<AdviceView>, x: AdviceView, pos: int)
    requires
        0 <= pos <= s.len(),
        forall|i: int| pos <= i < s.len() ==> goes_before(x, #[trigger] s[i]),
        pos > 0 ==> !goes_before(x, s[pos - 1]),
    ensures
        inserted(s, x) == s.insert(pos, x),
    decreases s.len(),
{
    if s.len() == 0 {
        assert(seq![x] =~= s.insert(pos, x));
    } else if goes_before(x, s.last()) {
        assert(pos < s.len());
        let front = s.drop_last();
        assert forall|i: int| pos <= i < front.len() implies goes_before(x, #[trigger] front[i]) by {
            assert(front[i] == s[i]);
        }
        if pos > 0 {
            assert(front[pos - 1] == s[pos - 1]);
        }
        lemma_inserted(front, x, pos);
        assert(front.insert(pos, x).push(s.last()) =~= s.insert(pos, x));
    } else {
        if pos < s.len() {
            assert(goes_before(x, s[s.len() - 1]));
        }
        assert(s.push(x) =~= s.insert(pos, x));
    }
}

fn stands_before(a: &Advice, b: &Advice) -> (r: bool)
    ensures
        r == goes_before(a@, b@),
{
    a.group < b.group || (a.group == b.group && a.cost.lt(&b.cost))
}

/// Every piece of advice names a package before `packages` and a criterion
/// before `criteria`.
pub open spec fn in_bounds(list: &Vec<Advice>, packages: int, criteria: int) -> bool {
    forall|i: int|
        0 <= i < list@.len() ==> (#[trigger] list@[i]).package < packages && list@[i].criterion
            < criteria
}

/// Puts `x` into a list that is in order.
fn put_in(list: &mut Vec<Advice>, x: Advice, Ghost(packages): Ghost<int>, Ghost(criteria): Ghost<int>)
    requires
        in_bounds(old(list), packages, criteria),
        x.package < packages,
        x.criterion < criteria,
    ensures
        advice_views(final(list)) == inserted(advice_views(old(list)), x@),
        in_bounds(final(list), packages, criteria),
{
    let ghost before = advice_views(list);
    let mut pos = list.len();
    while pos > 0 && stands_before(&x, &list[pos - 1])
        invariant
            pos <= list@.len(),
            before == advice_views(list),
            in_bounds(list, packages, criteria),
            forall|i: int| pos <= i < list@.len() ==> goes_before(x@, #[trigger] before[i]),
        decreases pos,
    {
        pos -= 1;
    }
    proof {
        lemma_inserted(before, x@, pos as int);
    }
    let ghost old_list = list@;
    list.insert(pos, x);
    assert(advice_views(list) =~= before.insert(pos as int, x@));
    assert forall|i: int| 0 <= i < list@.len() implies (#[trigger] list@[i]).package < packages
        && list@[i].criterion < criteria by {
        if i < pos {
            assert(list@[i] == old_list[i]);
        } else if i > pos {
            assert(list@[i] == old_list[i - 1]);
        }
    }
}

/// The list in the order of the report.
pub(crate) fn ordered(list: Vec<Advice>, Ghost(packages): Ghost<int>, Ghost(criteria): Ghost<int>) -> (r:
    Vec<Advice>)
    requires
        in_bounds(&list, packages, criteria),
    ensures
        advice_views(&r) == in_order(advice_views(&list), list@.len() as nat),
        in_bounds(&r, packages, criteria),
{
    let ghost all = advice_views(&list);
    let n = list.len();
    let mut list = list;
    let mut back: Vec<Advice> = Vec::new();
    while list.len() > 0
        invariant
            list@.len() + back@.len() == n,
            n == all.len(),
            in_bounds(&list, packages, criteria),
            in_bounds(&back, packages, criteria),
            forall|i: int| 0 <= i < list@.len() ==> (#[trigger] list@[i])@ == all[i],
            forall|i: int| 0 <= i < back@.len() ==> (#[trigger] back@[i])@ == all[n - 1 - i],
        decreases list@.len(),
    {
        let ghost at = list@.len() - 1;
        let ghost _ = list@[at];
        let x = list.pop().unwrap();
        back.push(x);
    }
    let mut r: Vec<Advice> = Vec::new();
    let mut done: usize = 0;
    assert(advice_views(&r) =~= in_order(all, 0));
    while back.len() > 0
        invariant
            back@.len() + done == n,
            n == all.len(),
            in_bounds(&back, packages, criteria),
            in_bounds(&r, packages, criteria),
            forall|i: int| 0 <= i < back@.len() ==> (#[trigger] back@[i])@ == all[n - 1 - i],
            advice_views(&r) == in_order(all, done as nat),
        decreases back@.len(),
    {
        let ghost at = back@.len() - 1;
        let ghost _ = back@[at];
        let x = back.pop().unwrap();
        put_in(&mut r, x, Ghost(packages), Ghost(criteria));
        done += 1;
    }
    r
}

/// Whether an audit is to be suggested for package `k` and criterion `c`.
fn wanted(
    m: &Model,
    s: &Settled,
    k: usize,
    c: usize,
    verdict: Verdict,
    missing: &CriteriaSet,
) -> (r: bool)
    requires
        model_ready(m),
        s.describes(m@),
        k < m.plans@.len(),
        c < m.implied@.len(),
        verdict == m@.verdict(k as int),
        missing@ == m@.missing(k as int),
    ensures
        r == m@.wants(k as int, c as int),
{
    let p = &m.plans[k];
    let ghost mv = m@;
    assert(mv.plans[k as int] == p@);
    if p.first_party || verdict != Verdict::FailMissing || !missing.contains(c) {
        return false;
    }
    let count = m.implied.len();
    let mut d: usize = 0;
    while d < count
        invariant
            mv == m@,
            count == m.implied@.len(),
            missing@ == mv.missing(k as int),
            c < count,
            d <= count,
            forall|x: int|
                0 <= x < d && holds(missing@, x) && #[trigger] mv.implies(x, c as int) ==> x == c,
        decreases count - d,
    {
        assert(mv.implied[d as int] == m.implied@[d as int]@);
        if d != c && missing.contains(d) && m.implied[d].contains(c) {
            assert(holds(missing@, d as int) && mv.implies(d as int, c as int));
            return false;
        }
        d += 1;
    }
    let w = &s.workings[k];
    assert(w.covering@[c as int]@ == p@.covering(c as int));
    !witnessed(p, &w.links, &w.starts, &w.arrivals, &w.covering[c])
}

/// Appends the audits to suggest for package `k`.
pub(crate) fn advise(
    list: &mut Vec<Advice>,
    g: &PackageGraph,
    m: &Model,
    s: &Settled,
    names: &Vec<String>,
    k: usize,
    verdict: Verdict,
    missing: &CriteriaSet,
)
    requires
        model_ready(m),
        s.describes(m@),
        k < m.plans@.len(),
        g.packages@.len() == m.plans@.len(),
        views(names) == g@.names(),
        verdict == m@.verdict(k as int),
        missing@ == m@.missing(k as int),
        in_bounds(old(list), m.plans@.len() as int, m.implied@.len() as int),
    ensures
        advice_views(final(list)) == advice_views(old(list)) + advice_in(
            g@,
            m@,
            k as int,
            m@.implied.len(),
        ),
        in_bounds(final(list), m.plans@.len() as int, m.implied@.len() as int),
{
    let p = &m.plans[k];
    let ghost mv = m@;
    let ghost gv = g@;
    let ghost base = advice_views(list);
    let count = m.implied.len();
    assert(mv.plans[k as int] == p@);
    assert(gv.packages[k as int] == g.packages@[k as int]@);
    assert(gv.names()[k as int] == g.packages@[k as int].name@);
    let group = match find(names, &g.packages[k].name) {
        Some(i) => i,
        None => {
            proof {
                crate::text::lemma_find(gv.names(), gv.packages[k as int].name);
            }
            k
        },
    };
    let mut c: usize = 0;
    assert(advice_views(list) =~= base + advice_in(gv, mv, k as int, 0));
    while c < count
        invariant
            model_ready(m),
            mv == m@,
            gv == g@,
            s.describes(mv),
            k < m.plans@.len(),
            p == m.plans@[k as int],
            mv.plans[k as int] == p@,
            count == m.implied@.len(),
            verdict == mv.verdict(k as int),
            missing@ == mv.missing(k as int),
            group as int == spec_find(gv.names(), gv.packages[k as int].name).unwrap(),
            c <= count,
            advice_views(list) == base + advice_in(gv, mv, k as int, c as nat),
            in_bounds(list, m.plans@.len() as int, count as int),
        decreases count - c,
    {
        let ghost so_far = advice_views(list);
        if wanted(m, s, k, c, verdict, missing) {
            assert(p.checked());
            let pick = cheapest(
                p,
                &s.workings[k],
                c,
                Ghost(mv.implied),
                Ghost(mv.achieved()),
            );
            proof {
                crate::suggest::lemma_cheapest(p@, c as int);
            }
            match pick {
                Some((a, t)) => {
                    let (from, to) = versions_of(p, a, t);
                    let one = Advice {
                        group,
                        package: k,
                        criterion: c,
                        from,
                        to,
                        cost: cost_of(p, a, t),
                    };
                    assert(one@ == advice_for(gv, mv, k as int, c as int));
                    list.push(one);
                    assert(advice_views(list) =~= so_far.push(one@));
                },
                None => {},
            }
        }
        assert(advice_views(list) =~= base + advice_in(gv, mv, k as int, (c + 1) as nat));
        c += 1;
    }
}

} // verus!
