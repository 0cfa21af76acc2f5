//! The two passes of resolution over the packages: upwards, what each package
//! achieves; downwards, what is required of each and what each demands of its
//! dependencies.

use crate::criteria::{holds, union_of, CriteriaSet};
use crate::model::{set_view, Model, ModelView, Plan, PlanView};
use crate::reach::{closure, reaches, rows};
use crate::witness::{
    arrival_marks, back_matrix, covering_table, link_matrix, sets_view, start_marks, usable_table,
    witnessed,
};
use vstd::prelude::*;

verus! {

impl Model {
    /// Every plan is checked.
    pub open spec fn checked(&self) -> bool {
        forall|k: int| 0 <= k < self.plans@.len() ==> (#[trigger] self.plans@[k]).checked()
    }
}

/// What was worked out about the entries of one package.
pub struct Workings {
    pub links: Vec<Vec<bool>>,
    pub back: Vec<Vec<bool>>,
    pub starts: Vec<bool>,
    pub arrivals: Vec<bool>,
    /// For each criterion, the entries that cover it.
    pub covering: Vec<Vec<bool>>,
    /// For each criterion, the entries that are usable for it.
    pub usable: Vec<Vec<bool>>,
}

impl Workings {
    /// The workings are those of plan `p`, given what the packages before it
    /// achieve.
    pub open spec fn describes(
        &self,
        p: PlanView,
        implied: Seq<Seq<bool>>,
        achieved: Seq<Seq<bool>>,
    ) -> bool {
        &&& rows(&self.links) == p.links()
        &&& rows(&self.back) == p.back_links()
        &&& self.starts@ == p.starts()
        &&& self.arrivals@ == p.arrivals()
        &&& self.covering@.len() == implied.len()
        &&& self.usable@.len() == implied.len()
        &&& forall|c: int|
            0 <= c < implied.len() ==> (#[trigger] self.covering@[c])@ == p.covering(c)
        &&& forall|c: int|
            0 <= c < implied.len() ==> (#[trigger] self.usable@[c])@ == p.usable_for(
                implied,
                achieved,
                c,
            )
    }
}

/// The table of what the first `a` packages achieve is the beginning of the
/// table for the first `b`.
pub proof fn lemma_achieved_prefix(m: ModelView, a: nat, b: nat)
    requires
        a <= b,
    ensures
        m.achieved_upto(a).len() == a,
        m.achieved_upto(b).len() == b,
        forall|d: int| 0 <= d < a ==> m.achieved_upto(b)[d] == m.achieved_upto(a)[d],
    decreases b,
{
    if b > 0 {
        if a < b {
            lemma_achieved_prefix(m, a, (b - 1) as nat);
        } else {
            lemma_achieved_prefix(m, (a - 1) as nat, (b - 1) as nat);
        }
    }
}

/// Whether an entry is usable depends on what the dependencies of the package
/// achieve, and on nothing else of the table.
pub proof fn lemma_usable_agrees(
    p: PlanView,
    implied: Seq<Seq<bool>>,
    first: Seq<Seq<bool>>,
    second: Seq<Seq<bool>>,
    c: int,
)
    requires
        forall|j: int| 0 <= j < p.deps.len() ==> first[#[trigger] p.deps[j]] == second[p.deps[j]],
    ensures
        p.usable_for(implied, first, c) == p.usable_for(implied, second, c),
{
    assert forall|i: int| 0 <= i < p.evidence.len() implies p.usable(implied, first, i, c)
        == p.usable(implied, second, i, c) by {}
    assert(p.usable_for(implied, first, c) =~= p.usable_for(implied, second, c));
}

/// Works out the links, the covering entries and the usable entries of a
/// package.
pub(crate) fn examine(p: &Plan, implied: &Vec<CriteriaSet>, achieved: &Vec<CriteriaSet>) -> (w: Workings)
    requires
        p.checked(),
        forall|i: int|
            0 <= i < p.evidence@.len() ==> (#[trigger] p.evidence@[i]).requirements@.len()
                == p.deps@.len(),
        forall|j: int| 0 <= j < p.deps@.len() ==> #[trigger] p.deps@[j] < achieved@.len(),
    ensures
        w.describes(p@, sets_view(implied), sets_view(achieved)),
{
    let covering = covering_table(p, implied.len());
    let usable = usable_table(p, implied, achieved, &covering);
    Workings {
        links: link_matrix(p),
        back: back_matrix(p),
        starts: start_marks(p),
        arrivals: arrival_marks(p),
        covering,
        usable,
    }
}

/// The criteria that a package achieves.
pub(crate) fn achieved_of(
    p: &Plan,
    w: &Workings,
    count: usize,
    Ghost(implied): Ghost<Seq<Seq<bool>>>,
    Ghost(achieved): Ghost<Seq<Seq<bool>>>,
) -> (s: CriteriaSet)
    requires
        implied.len() == count,
        w.describes(p@, implied, achieved),
    ensures
        s@ == p@.achieved_set(implied, achieved),
{
    if p.first_party {
        return CriteriaSet::full(count);
    }
    let mut bits: Vec<bool> = Vec::new();
    let mut c: usize = 0;
    while c < count
        invariant
            implied.len() == count,
            w.describes(p@, implied, achieved),
            c <= count,
            bits@.len() == c,
            forall|x: int| 0 <= x < c ==> #[trigger] bits@[x] == p@.attains(implied, achieved, x),
        decreases count - c,
    {
        assert(w.usable@[c as int]@ == p@.usable_for(implied, achieved, c as int));
        let r = witnessed(p, &w.links, &w.starts, &w.arrivals, &w.usable[c]);
        bits.push(r);
        c += 1;
    }
    assert(bits@ =~= p@.achieved_set(implied, achieved));
    CriteriaSet { bits }
}

/// Place `(c1, i1)` comes before place `(c2, i2)` when rows are gone through
/// one after the other.
pub open spec fn before(c1: int, i1: int, c2: int, i2: int) -> bool {
    c1 < c2 || (c1 == c2 && i1 < i2)
}

/// Entry `i` is marked for criterion `c` in `table`, and asks criterion `x` of
/// dependency `j`.
pub open spec fn picked(
    p: PlanView,
    implied: Seq<Seq<bool>>,
    table: Seq<Seq<bool>>,
    j: int,
    x: int,
    c: int,
    i: int,
) -> bool {
    &&& 0 <= c < table.len()
    &&& 0 <= i < p.evidence.len()
    &&& table[c][i]
    &&& holds(p.evidence[i].asks(implied, j, c), x)
}

/// For each required criterion, the entries that lie on a witness for it.
fn witness_table(
    p: &Plan,
    w: &Workings,
    attained: &CriteriaSet,
    required: &CriteriaSet,
    Ghost(implied): Ghost<Seq<Seq<bool>>>,
    Ghost(achieved): Ghost<Seq<Seq<bool>>>,
) -> (t: Vec<Vec<bool>>)
    requires
        !p.first_party,
        w.describes(p@, implied, achieved),
        attained@ == p@.achieved_set(implied, achieved),
    ensures
        t@.len() == implied.len(),
        forall|c: int, i: int|
            #![trigger t@[c]@[i]]
            0 <= c < implied.len() && 0 <= i < p.evidence@.len() ==> t@[c]@[i] == (holds(
                required@,
                c,
            ) && p@.on_witness(p@.deciding(implied, achieved, c), i)),
        forall|c: int| 0 <= c < implied.len() ==> (#[trigger] t@[c])@.len() == p.evidence@.len(),
{
    let count = w.covering.len();
    let n = p.evidence.len();
    let mut t: Vec<Vec<bool>> = Vec::new();
    let mut c: usize = 0;
    while c < count
        invariant
            !p.first_party,
            w.describes(p@, implied, achieved),
            attained@ == p@.achieved_set(implied, achieved),
            count == implied.len(),
            n == p.evidence@.len(),
            c <= count,
            t@.len() == c,
            forall|y: int, i: int|
                #![trigger t@[y]@[i]]
                0 <= y < c && 0 <= i < n ==> t@[y]@[i] == (holds(required@, y) && p@.on_witness(
                    p@.deciding(implied, achieved, y),
                    i,
                )),
            forall|y: int| 0 <= y < c ==> (#[trigger] t@[y])@.len() == n,
        decreases count - c,
    {
        let mut row: Vec<bool> = Vec::new();
        if required.contains(c) {
            assert(attained@[c as int] == p@.attains(implied, achieved, c as int));
            assert(w.usable@[c as int]@ == p@.usable_for(implied, achieved, c as int));
            assert(w.covering@[c as int]@ == p@.covering(c as int));
            let active = if attained.contains(c) {
                &w.usable[c]
            } else {
                &w.covering[c]
            };
            assert(active@ == p@.deciding(implied, achieved, c as int));
            let forward = closure(&w.links, &w.starts, active);
            let backward = closure(&w.back, &w.arrivals, active);
            let mut i: usize = 0;
            while i < n
                invariant
                    n == p.evidence@.len(),
                    forward@.len() == n,
                    backward@.len() == n,
                    i <= n,
                    row@.len() == i,
                    forall|x: int| 0 <= x < i ==> #[trigger] row@[x] == (forward@[x] && backward@[x]),
                decreases n - i,
            {
                row.push(forward[i] && backward[i]);
                i += 1;
            }
            assert forall|i: int| 0 <= i < n implies #[trigger] row@[i] == (holds(
                required@,
                c as int,
            ) && p@.on_witness(p@.deciding(implied, achieved, c as int), i)) by {
                assert(forward@[i] == reaches(p@.links(), p@.starts(), active@, i));
                assert(backward@[i] == reaches(p@.back_links(), p@.arrivals(), active@, i));
            }
        } else {
            let mut i: usize = 0;
            while i < n
                invariant
                    i <= n,
                    row@.len() == i,
                    forall|x: int| 0 <= x < i ==> !#[trigger] row@[x],
                decreases n - i,
            {
                row.push(false);
                i += 1;
            }
        }
        t.push(row);
        c += 1;
    }
    t
}

/// What a third-party package demands of dependency `j`, from the table of
/// the entries that lie on a witness.
fn demand_on(p: &Plan, implied: &Vec<CriteriaSet>, table: &Vec<Vec<bool>>, j: usize) -> (s:
    CriteriaSet)
    requires
        j < p.deps@.len(),
        table@.len() == implied@.len(),
        forall|c: int| 0 <= c < table@.len() ==> (#[trigger] table@[c])@.len() == p.evidence@.len(),
        forall|i: int|
            0 <= i < p.evidence@.len() ==> (#[trigger] p.evidence@[i]).requirements@.len()
                == p.deps@.len(),
    ensures
        s@.len() == implied@.len(),
        forall|x: int|
            0 <= x < implied@.len() ==> #[trigger] s@[x] == (exists|c: int, i: int| #[trigger]
                picked(p@, sets_view(implied), rows(table), j as int, x, c, i)),
{
    let count = implied.len();
    let n = p.evidence.len();
    let ghost iv = sets_view(implied);
    let ghost tv = rows(table);
    let mut s = CriteriaSet::empty(count);
    let mut c: usize = 0;
    while c < count
        invariant
            j < p.deps@.len(),
            count == implied@.len(),
            n == p.evidence@.len(),
            iv == sets_view(implied),
            tv == rows(table),
            table@.len() == count,
            forall|y: int| 0 <= y < table@.len() ==> (#[trigger] table@[y])@.len() == n,
            forall|i: int|
                0 <= i < p.evidence@.len() ==> (#[trigger] p.evidence@[i]).requirements@.len()
                    == p.deps@.len(),
            c <= count,
            s@.len() == count,
            forall|x: int|
                0 <= x < count ==> #[trigger] s@[x] == (exists|c1: int, i1: int|
                    before(c1, i1, c as int, 0) && #[trigger] picked(p@, iv, tv, j as int, x, c1, i1)),
        decreases count - c,
    {
        let mut i: usize = 0;
        while i < n
            invariant
                j < p.deps@.len(),
                count == implied@.len(),
                n == p.evidence@.len(),
                iv == sets_view(implied),
                tv == rows(table),
                table@.len() == count,
                forall|y: int| 0 <= y < table@.len() ==> (#[trigger] table@[y])@.len() == n,
                forall|y: int|
                    0 <= y < p.evidence@.len() ==> (#[trigger] p.evidence@[y]).requirements@.len()
                        == p.deps@.len(),
                c < count,
                i <= n,
                s@.len() == count,
                forall|x: int|
                    0 <= x < count ==> #[trigger] s@[x] == (exists|c1: int, i1: int|
                        before(c1, i1, c as int, i as int) && #[trigger] picked(
                            p@,
                            iv,
                            tv,
                            j as int,
                            x,
                            c1,
                            i1,
                        )),
            decreases n - i,
        {
            let ghost old_s = s@;
            let e = &p.evidence[i];
            assert(p@.evidence[i as int] == e@);
            assert(tv[c as int] == table@[c as int]@);
            let ghost asked = e@.asks(iv, j as int, c as int);
            if table[c][i] {
                match &e.requirements[j] {
                    Some(r) => {
                        assert(e@.requirements[j as int] == set_view(e.requirements@[j as int]));
                        s = s.union(r);
                    },
                    None => {
                        assert(e@.requirements[j as int] == set_view(e.requirements@[j as int]));
                        s = s.union(&implied[c]);
                    },
                }
                assert(s@ == union_of(old_s, asked));
            }
            proof {
                assert forall|x: int| 0 <= x < count implies #[trigger] s@[x] == (exists|
                    c1: int,
                    i1: int,
                |
                    before(c1, i1, c as int, i + 1) && #[trigger] picked(
                        p@,
                        iv,
                        tv,
                        j as int,
                        x,
                        c1,
                        i1,
                    )) by {
                    if s@[x] {
                        if old_s[x] {
                            let (c1, i1) = choose|c1: int, i1: int|
                                before(c1, i1, c as int, i as int) && #[trigger] picked(
                                    p@,
                                    iv,
                                    tv,
                                    j as int,
                                    x,
                                    c1,
                                    i1,
                                );
                            assert(before(c1, i1, c as int, i + 1));
                        } else {
                            assert(picked(p@, iv, tv, j as int, x, c as int, i as int));
                            assert(before(c as int, i as int, c as int, i + 1));
                        }
                    }
                    if exists|c1: int, i1: int|
                        before(c1, i1, c as int, i + 1) && #[trigger] picked(
                            p@,
                            iv,
                            tv,
                            j as int,
                            x,
                            c1,
                            i1,
                        ) {
                        let (c1, i1) = choose|c1: int, i1: int|
                            before(c1, i1, c as int, i + 1) && #[trigger] picked(
                                p@,
                                iv,
                                tv,
                                j as int,
                                x,
                                c1,
                                i1,
                            );
                        if before(c1, i1, c as int, i as int) {
                            assert(old_s[x]);
                        } else {
                            assert(c1 == c && i1 == i);
                            assert(holds(asked, x));
                        }
                    }
                }
            }
            i += 1;
        }
        proof {
            assert forall|x: int| 0 <= x < count implies #[trigger] s@[x] == (exists|
                c1: int,
                i1: int,
            |
                before(c1, i1, c + 1, 0) && #[trigger] picked(p@, iv, tv, j as int, x, c1, i1)) by {
                if s@[x] {
                    let (c1, i1) = choose|c1: int, i1: int|
                        before(c1, i1, c as int, n as int) && #[trigger] picked(
                            p@,
                            iv,
                            tv,
                            j as int,
                            x,
                            c1,
                            i1,
                        );
                    assert(before(c1, i1, c + 1, 0));
                }
                if exists|c1: int, i1: int|
                    before(c1, i1, c + 1, 0) && #[trigger] picked(p@, iv, tv, j as int, x, c1, i1) {
                    let (c1, i1) = choose|c1: int, i1: int|
                        before(c1, i1, c + 1, 0) && #[trigger] picked(
                            p@,
                            iv,
                            tv,
                            j as int,
                            x,
                            c1,
                            i1,
                        );
                    assert(before(c1, i1, c as int, n as int));
                }
            }
        }
        c += 1;
    }
    proof {
        assert forall|x: int| 0 <= x < count implies #[trigger] s@[x] == (exists|c1: int, i1: int| #[trigger]
            picked(p@, iv, tv, j as int, x, c1, i1)) by {
            if s@[x] {
                let (c1, i1) = choose|c1: int, i1: int|
                    before(c1, i1, count as int, 0) && #[trigger] picked(
                        p@,
                        iv,
                        tv,
                        j as int,
                        x,
                        c1,
                        i1,
                    );
                assert(picked(p@, iv, tv, j as int, x, c1, i1));
            }
            if exists|c1: int, i1: int| #[trigger] picked(p@, iv, tv, j as int, x, c1, i1) {
                let (c1, i1) = choose|c1: int, i1: int| #[trigger]
                    picked(p@, iv, tv, j as int, x, c1, i1);
                assert(before(c1, i1, count as int, 0));
            }
        }
    }
    s
}

/// What a third-party package demands of each of its dependencies, given
/// what is required of it.
pub(crate) fn evidence_demands(
    p: &Plan,
    w: &Workings,
    implied: &Vec<CriteriaSet>,
    attained: &CriteriaSet,
    required: &CriteriaSet,
    Ghost(achieved): Ghost<Seq<Seq<bool>>>,
) -> (d: Vec<CriteriaSet>)
    requires
        !p.first_party,
        w.describes(p@, sets_view(implied), achieved),
        attained@ == p@.achieved_set(sets_view(implied), achieved),
        required@.len() == implied@.len(),
        forall|i: int|
            0 <= i < p.evidence@.len() ==> (#[trigger] p.evidence@[i]).requirements@.len()
                == p.deps@.len(),
    ensures
        d@.len() == p.deps@.len(),
        forall|j: int|
            0 <= j < d@.len() ==> (#[trigger] d@[j])@ == p@.evidence_demand(
                sets_view(implied),
                achieved,
                required@,
                j,
            ),
{
    let ghost iv = sets_view(implied);
    let table = witness_table(p, w, attained, required, Ghost(iv), Ghost(achieved));
    let m = p.deps.len();
    let mut d: Vec<CriteriaSet> = Vec::new();
    let mut j: usize = 0;
    while j < m
        invariant
            m == p.deps@.len(),
            iv == sets_view(implied),
            required@.len() == implied@.len(),
            table@.len() == implied@.len(),
            forall|c: int, i: int|
                #![trigger table@[c]@[i]]
                0 <= c < iv.len() && 0 <= i < p.evidence@.len() ==> table@[c]@[i] == (holds(
                    required@,
                    c,
                ) && p@.on_witness(p@.deciding(iv, achieved, c), i)),
            forall|c: int| 0 <= c < iv.len() ==> (#[trigger] table@[c])@.len() == p.evidence@.len(),
            forall|i: int|
                0 <= i < p.evidence@.len() ==> (#[trigger] p.evidence@[i]).requirements@.len()
                    == p.deps@.len(),
            j <= m,
            d@.len() == j,
            forall|y: int|
                0 <= y < j ==> (#[trigger] d@[y])@ == p@.evidence_demand(
                    iv,
                    achieved,
                    required@,
                    y,
                ),
        decreases m - j,
    {
        let s = demand_on(p, implied, &table, j);
        proof {
            let tv = rows(&table);
            assert forall|x: int| 0 <= x < iv.len() implies #[trigger] s@[x] == p@.evidence_demand(
                iv,
                achieved,
                required@,
                j as int,
            )[x] by {
                if s@[x] {
                    let (c, i) = choose|c: int, i: int| #[trigger]
                        picked(p@, iv, tv, j as int, x, c, i);
                    assert(tv[c] == table@[c]@);
                    assert(table@[c]@[i]);
                    assert(p@.asked_through(iv, achieved, required@, j as int, x, c, i));
                }
                if exists|c: int, i: int| #[trigger]
                    p@.asked_through(iv, achieved, required@, j as int, x, c, i) {
                    let (c, i) = choose|c: int, i: int| #[trigger]
                        p@.asked_through(iv, achieved, required@, j as int, x, c, i);
                    assert(0 <= c < iv.len());
                    assert(tv[c] == table@[c]@);
                    assert(table@[c]@[i]);
                    assert(picked(p@, iv, tv, j as int, x, c, i));
                }
            }
            assert(s@ =~= p@.evidence_demand(iv, achieved, required@, j as int));
        }
        d.push(s);
        j += 1;
    }
    d
}

/// What a first-party package demands of each of its dependencies, given
/// what is required of it.
pub(crate) fn policy_demands(p: &Plan, default: &CriteriaSet, required: &CriteriaSet) -> (d: Vec<
    CriteriaSet,
>)
    requires
        p.dep_declared@.len() == p.deps@.len(),
    ensures
        d@.len() == p.deps@.len(),
        forall|j: int|
            0 <= j < d@.len() ==> (#[trigger] d@[j])@ == p@.policy_demand(
                default@,
                required@,
                j,
            ),
{
    let m = p.deps.len();
    let mut d: Vec<CriteriaSet> = Vec::new();
    let mut j: usize = 0;
    while j < m
        invariant
            m == p.deps@.len(),
            p.dep_declared@.len() == m,
            j <= m,
            d@.len() == j,
            forall|y: int|
                0 <= y < j ==> (#[trigger] d@[y])@ == p@.policy_demand(default@, required@, y),
        decreases m - j,
    {
        assert(p@.dep_declared[j as int] == set_view(p.dep_declared@[j as int]));
        let s = match &p.dep_declared[j] {
            Some(s) => s.duplicate(),
            None => match &p.self_declared {
                Some(own) => own.duplicate(),
                None => if p.is_root {
                    default.duplicate()
                } else {
                    required.duplicate()
                },
            },
        };
        d.push(s);
        j += 1;
    }
    d
}

/// The table of what is required of the last `a` packages is the beginning
/// of the table for the last `b`.
pub proof fn lemma_required_prefix(m: ModelView, a: nat, b: nat)
    requires
        a <= b,
    ensures
        m.required_top(a).len() == a,
        m.required_top(b).len() == b,
        forall|x: int| 0 <= x < a ==> m.required_top(b)[x] == m.required_top(a)[x],
    decreases b,
{
    if b > 0 {
        if a < b {
            lemma_required_prefix(m, a, (b - 1) as nat);
        } else {
            lemma_required_prefix(m, (a - 1) as nat, (b - 1) as nat);
        }
    }
}

/// What package `k` achieves is what its plan achieves on the table of all
/// packages.
pub proof fn lemma_achieved_at(m: ModelView, k: int)
    requires
        m.wf(),
        0 <= k < m.plans.len(),
    ensures
        m.achieved().len() == m.plans.len(),
        m.achieved()[k] == m.plans[k].achieved_set(m.implied, m.achieved()),
        m.achieved()[k] == m.plans[k].achieved_set(m.implied, m.achieved_upto(k as nat)),
        forall|c: int|
            m.plans[k].usable_for(m.implied, m.achieved_upto(k as nat), c)
                == m.plans[k].usable_for(m.implied, m.achieved(), c),
{
    let n = m.plans.len();
    let p = m.plans[k];
    lemma_achieved_prefix(m, (k + 1) as nat, n);
    lemma_achieved_prefix(m, k as nat, n);
    let part = m.achieved_upto(k as nat);
    let full = m.achieved();
    assert(m.plan_wf(k));
    assert forall|c: int| p.usable_for(m.implied, part, c) == p.usable_for(m.implied, full, c) by {
        lemma_usable_agrees(p, m.implied, part, full, c);
    }
    assert(m.achieved_upto((k + 1) as nat)[k] == p.achieved_set(m.implied, part));
    if !p.first_party {
        assert(p.achieved_set(m.implied, part) =~= p.achieved_set(m.implied, full));
    }
}

/// Place `(q1, j1)` among the consumers comes before place `(q2, j2)`.
pub open spec fn sooner(q1: int, j1: int, q2: int, j2: int) -> bool {
    q1 < q2 || (q1 == q2 && j1 < j2)
}

/// All that the consumers of package `k` demand of it.
fn required_of(
    m: &Model,
    demands: &Vec<Vec<CriteriaSet>>,
    k: usize,
    Ghost(above): Ghost<Seq<Seq<bool>>>,
) -> (r: CriteriaSet)
    requires
        k < m.plans@.len(),
        demands@.len() == m.plans@.len() - 1 - k,
        forall|x: int|
            #![trigger demands@[x]]
            0 <= x < demands@.len() ==> {
                let q = m.plans@.len() - 1 - x;
                &&& demands@[x]@.len() == m@.plans[q].deps.len()
                &&& forall|j: int|
                    0 <= j < demands@[x]@.len() ==> (#[trigger] demands@[x]@[j])@ == m@.demand(
                        q,
                        above[x],
                        j,
                    )
            },
    ensures
        r@ == m@.required_at(above, k as int),
{
    let n = m.plans.len();
    let count = m.implied.len();
    let ghost mv = m@;
    let mut r = CriteriaSet::empty(count);
    let mut q: usize = k + 1;
    while q < n
        invariant
            mv == m@,
            n == m.plans@.len(),
            count == m.implied@.len(),
            k < q <= n,
            demands@.len() == n - 1 - k,
            forall|x: int|
                #![trigger demands@[x]]
                0 <= x < demands@.len() ==> {
                    let q = m.plans@.len() - 1 - x;
                    &&& demands@[x]@.len() == mv.plans[q].deps.len()
                    &&& forall|j: int|
                        0 <= j < demands@[x]@.len() ==> (#[trigger] demands@[x]@[j])@ == mv.demand(
                            q,
                            above[x],
                            j,
                        )
                },
            r@.len() == count,
            forall|x: int|
                0 <= x < count ==> #[trigger] r@[x] == (exists|q1: int, j1: int|
                    sooner(q1, j1, q as int, 0) && #[trigger] mv.consumes(q1, j1, k as int) && holds(
                        mv.demand(q1, above[n - 1 - q1], j1),
                        x,
                    )),
        decreases n - q,
    {
        let consumer = &m.plans[q];
        assert(mv.plans[q as int] == consumer@);
        let counts = consumer.first_party || !m.plans[k].first_party;
        assert(mv.plans[k as int] == m.plans@[k as int]@);
        let len = consumer.deps.len();
        let ghost at = n - 1 - q;
        let ghost _ = demands@[at];
        let mut j: usize = 0;
        while j < len
            invariant
                mv == m@,
                n == m.plans@.len(),
                count == m.implied@.len(),
                k < q < n,
                at == n - 1 - q,
                consumer == m.plans@[q as int],
                mv.plans[q as int] == consumer@,
                mv.plans[k as int] == m.plans@[k as int]@,
                counts == (consumer.first_party || !m.plans@[k as int].first_party),
                len == consumer.deps@.len(),
                demands@.len() == n - 1 - k,
                demands@[at]@.len() == len,
                forall|y: int|
                    0 <= y < len ==> (#[trigger] demands@[at]@[y])@ == mv.demand(
                        q as int,
                        above[at],
                        y,
                    ),
                j <= len,
                r@.len() == count,
                forall|x: int|
                    0 <= x < count ==> #[trigger] r@[x] == (exists|q1: int, j1: int|
                        sooner(q1, j1, q as int, j as int) && #[trigger] mv.consumes(
                            q1,
                            j1,
                            k as int,
                        ) && holds(mv.demand(q1, above[n - 1 - q1], j1), x)),
            decreases len - j,
        {
            let ghost old_r = r@;
            let ghost hit = mv.consumes(q as int, j as int, k as int);
            assert(hit == (counts && consumer.deps@[j as int] == k));
            let ghost asked = mv.demand(q as int, above[at], j as int);
            if counts && consumer.deps[j] == k {
                r = r.union(&demands[n - 1 - q][j]);
                assert(r@ == union_of(old_r, asked));
            }
            proof {
                assert forall|x: int| 0 <= x < count implies #[trigger] r@[x] == (exists|
                    q1: int,
                    j1: int,
                |
                    sooner(q1, j1, q as int, j + 1) && #[trigger] mv.consumes(q1, j1, k as int)
                        && holds(mv.demand(q1, above[n - 1 - q1], j1), x)) by {
                    if r@[x] {
                        if old_r[x] {
                            let (q1, j1) = choose|q1: int, j1: int|
                                sooner(q1, j1, q as int, j as int) && #[trigger] mv.consumes(
                                    q1,
                                    j1,
                                    k as int,
                                ) && holds(mv.demand(q1, above[n - 1 - q1], j1), x);
                            assert(sooner(q1, j1, q as int, j + 1));
                        } else {
                            assert(hit && holds(asked, x));
                            assert(sooner(q as int, j as int, q as int, j + 1));
                        }
                    }
                    if exists|q1: int, j1: int|
                        sooner(q1, j1, q as int, j + 1) && #[trigger] mv.consumes(q1, j1, k as int)
                            && holds(mv.demand(q1, above[n - 1 - q1], j1), x) {
                        let (q1, j1) = choose|q1: int, j1: int|
                            sooner(q1, j1, q as int, j + 1) && #[trigger] mv.consumes(
                                q1,
                                j1,
                                k as int,
                            ) && holds(mv.demand(q1, above[n - 1 - q1], j1), x);
                        if sooner(q1, j1, q as int, j as int) {
                            assert(old_r[x]);
                        } else {
                            assert(q1 == q && j1 == j);
                        }
                    }
                }
            }
            j += 1;
        }
        proof {
            assert forall|x: int| 0 <= x < count implies #[trigger] r@[x] == (exists|
                q1: int,
                j1: int,
            |
                sooner(q1, j1, q + 1, 0) && #[trigger] mv.consumes(q1, j1, k as int) && holds(
                    mv.demand(q1, above[n - 1 - q1], j1),
                    x,
                )) by {
                if r@[x] {
                    let (q1, j1) = choose|q1: int, j1: int|
                        sooner(q1, j1, q as int, len as int) && #[trigger] mv.consumes(
                            q1,
                            j1,
                            k as int,
                        ) && holds(mv.demand(q1, above[n - 1 - q1], j1), x);
                    assert(sooner(q1, j1, q + 1, 0));
                }
                if exists|q1: int, j1: int|
                    sooner(q1, j1, q + 1, 0) && #[trigger] mv.consumes(q1, j1, k as int) && holds(
                        mv.demand(q1, above[n - 1 - q1], j1),
                        x,
                    ) {
                    let (q1, j1) = choose|q1: int, j1: int|
                        sooner(q1, j1, q + 1, 0) && #[trigger] mv.consumes(q1, j1, k as int)
                            && holds(mv.demand(q1, above[n - 1 - q1], j1), x);
                    assert(sooner(q1, j1, q as int, len as int));
                }
            }
        }
        q += 1;
    }
    proof {
        let goal = mv.required_at(above, k as int);
        assert forall|x: int| 0 <= x < count implies #[trigger] r@[x] == goal[x] by {
            if r@[x] {
                let (q1, j1) = choose|q1: int, j1: int|
                    sooner(q1, j1, n as int, 0) && #[trigger] mv.consumes(q1, j1, k as int) && holds(
                        mv.demand(q1, above[n - 1 - q1], j1),
                        x,
                    );
                assert(mv.consumes(q1, j1, k as int) && holds(
                    mv.demand(q1, above[mv.plans.len() - 1 - q1], j1),
                    x,
                ));
            }
            if goal[x] {
                let (q1, j1) = choose|q1: int, j1: int| #[trigger]
                    mv.consumes(q1, j1, k as int) && holds(
                        mv.demand(q1, above[mv.plans.len() - 1 - q1], j1),
                        x,
                    );
                assert(sooner(q1, j1, n as int, 0));
            }
        }
        assert(r@ =~= goal);
    }
    r
}

/// What resolution works out for every package.
pub struct Settled {
    /// What each package achieves.
    pub achieved: Vec<CriteriaSet>,
    /// What is required of each package.
    pub required: Vec<CriteriaSet>,
    /// What each package demands of each of its dependencies.
    pub demands: Vec<Vec<CriteriaSet>>,
    pub workings: Vec<Workings>,
}

impl Settled {
    /// The tables are those of model `m`.
    pub open spec fn describes(&self, m: ModelView) -> bool {
        &&& sets_view(&self.achieved) == m.achieved()
        &&& self.achieved@.len() == m.plans.len()
        &&& self.required@.len() == m.plans.len()
        &&& self.demands@.len() == m.plans.len()
        &&& self.workings@.len() == m.plans.len()
        &&& forall|k: int|
            0 <= k < m.plans.len() ==> (#[trigger] self.required@[k])@ == m.required(k)
        &&& forall|k: int|
            #![trigger self.demands@[k]]
            0 <= k < m.plans.len() ==> {
                &&& self.demands@[k]@.len() == m.plans[k].deps.len()
                &&& forall|j: int|
                    0 <= j < self.demands@[k]@.len() ==> (#[trigger] self.demands@[k]@[j])@
                        == m.demand(k, m.required(k), j)
            }
        &&& forall|k: int|
            0 <= k < m.plans.len() ==> (#[trigger] self.workings@[k]).describes(
                m.plans[k],
                m.implied,
                m.achieved(),
            )
    }
}

/// The model has the shape that resolution relies on, in the values that the
/// program holds.
pub open spec fn model_ready(m: &Model) -> bool {
    &&& m@.wf()
    &&& m.checked()
}

/// Works out what every package achieves, what is required of each, and what
/// each demands of its dependencies.
pub fn settle(m: &Model) -> (s: Settled)
    requires
        model_ready(m),
    ensures
        s.describes(m@),
{
    let n = m.plans.len();
    let count = m.implied.len();
    let ghost mv = m@;
    let ghost iv = sets_view(&m.implied);
    assert(iv =~= mv.implied);
    let mut achieved: Vec<CriteriaSet> = Vec::new();
    let mut workings: Vec<Workings> = Vec::new();
    let mut k: usize = 0;
    assert(sets_view(&achieved) =~= mv.achieved_upto(0));
    while k < n
        invariant
            model_ready(m),
            mv == m@,
            iv == sets_view(&m.implied),
            iv == mv.implied,
            n == m.plans@.len(),
            count == m.implied@.len(),
            k <= n,
            achieved@.len() == k,
            workings@.len() == k,
            sets_view(&achieved) == mv.achieved_upto(k as nat),
            forall|x: int|
                0 <= x < k ==> (#[trigger] workings@[x]).describes(
                    mv.plans[x],
                    iv,
                    mv.achieved_upto(x as nat),
                ),
        decreases n - k,
    {
        let p = &m.plans[k];
        let ghost before = sets_view(&achieved);
        proof {
            assert(mv.plans[k as int] == p@);
            assert(mv.plan_wf(k as int));
            assert(p.checked());
            assert forall|i: int| 0 <= i < p.evidence@.len() implies (
            #[trigger] p.evidence@[i]).requirements@.len() == p.deps@.len() by {
                assert(p@.evidence[i].requirements.len() == p@.deps.len());
            }
            assert forall|j: int| 0 <= j < p.deps@.len() implies #[trigger] p.deps@[j]
                < achieved@.len() by {
                assert(p@.deps[j] < k);
            }
        }
        let w = examine(p, &m.implied, &achieved);
        let set = achieved_of(p, &w, count, Ghost(iv), Ghost(before));
        achieved.push(set);
        workings.push(w);
        assert(sets_view(&achieved) =~= mv.achieved_upto((k + 1) as nat));
        k += 1;
    }
    proof {
        assert forall|x: int| 0 <= x < n implies (#[trigger] workings@[x]).describes(
            mv.plans[x],
            iv,
            mv.achieved(),
        ) by {
            lemma_achieved_at(mv, x);
        }
    }
    let ghost full = mv.achieved();
    let mut top_required: Vec<CriteriaSet> = Vec::new();
    let mut top_demands: Vec<Vec<CriteriaSet>> = Vec::new();
    let mut t: usize = 0;
    assert(sets_view(&top_required) =~= mv.required_top(0));
    while t < n
        invariant
            model_ready(m),
            mv == m@,
            iv == sets_view(&m.implied),
            iv == mv.implied,
            full == mv.achieved(),
            n == m.plans@.len(),
            count == m.implied@.len(),
            achieved@.len() == n,
            workings@.len() == n,
            sets_view(&achieved) == full,
            forall|x: int|
                0 <= x < n ==> (#[trigger] workings@[x]).describes(mv.plans[x], iv, full),
            t <= n,
            top_required@.len() == t,
            top_demands@.len() == t,
            sets_view(&top_required) == mv.required_top(t as nat),
            forall|x: int|
                #![trigger top_demands@[x]]
                0 <= x < t ==> {
                    let q = n - 1 - x;
                    &&& top_demands@[x]@.len() == mv.plans[q].deps.len()
                    &&& forall|j: int|
                        0 <= j < top_demands@[x]@.len() ==> (#[trigger] top_demands@[x]@[j])@
                            == mv.demand(q, mv.required_top(t as nat)[x], j)
                },
        decreases n - t,
    {
        let k = n - 1 - t;
        let p = &m.plans[k];
        let ghost above = mv.required_top(t as nat);
        proof {
            lemma_required_prefix(mv, t as nat, t as nat);
        }
        let required = required_of(m, &top_demands, k, Ghost(above));
        proof {
            assert(mv.plans[k as int] == p@);
            assert(mv.plan_wf(k as int));
            lemma_achieved_at(mv, k as int);
            assert(achieved@[k as int]@ == full[k as int]);
            assert forall|i: int| 0 <= i < p.evidence@.len() implies (
            #[trigger] p.evidence@[i]).requirements@.len() == p.deps@.len() by {
                assert(p@.evidence[i].requirements.len() == p@.deps.len());
            }
            assert(p@.dep_declared.len() == p@.deps.len());
        }
        let demands = if p.first_party {
            policy_demands(p, &m.default, &required)
        } else {
            evidence_demands(p, &workings[k], &m.implied, &achieved[k], &required, Ghost(full))
        };
        proof {
            assert forall|j: int| 0 <= j < demands@.len() implies (#[trigger] demands@[j])@
                == mv.demand(k as int, required@, j) by {}
        }
        top_required.push(required);
        top_demands.push(demands);
        proof {
            lemma_required_prefix(mv, t as nat, (t + 1) as nat);
            assert(sets_view(&top_required) =~= mv.required_top((t + 1) as nat));
            assert forall|x: int|
                #![trigger top_demands@[x]]
                0 <= x < t + 1 implies {
                let q = n - 1 - x;
                &&& top_demands@[x]@.len() == mv.plans[q].deps.len()
                &&& forall|j: int|
                    0 <= j < top_demands@[x]@.len() ==> (#[trigger] top_demands@[x]@[j])@
                        == mv.demand(q, mv.required_top((t + 1) as nat)[x], j)
            } by {
                if x < t {
                    assert(mv.required_top((t + 1) as nat)[x] == above[x]);
                }
            }
        }
        t += 1;
    }
    let mut required: Vec<CriteriaSet> = Vec::new();
    let mut demands: Vec<Vec<CriteriaSet>> = Vec::new();
    let mut k: usize = 0;
    while k < n
        invariant
            mv == m@,
            n == m.plans@.len(),
            top_required@.len() == n,
            top_demands@.len() == n,
            sets_view(&top_required) == mv.required_top(n as nat),
            forall|x: int|
                #![trigger top_demands@[x]]
                0 <= x < n ==> {
                    let q = n - 1 - x;
                    &&& top_demands@[x]@.len() == mv.plans[q].deps.len()
                    &&& forall|j: int|
                        0 <= j < top_demands@[x]@.len() ==> (#[trigger] top_demands@[x]@[j])@
                            == mv.demand(q, mv.required_top(n as nat)[x], j)
                },
            k <= n,
            required@.len() == k,
            demands@.len() == k,
            forall|x: int| 0 <= x < k ==> (#[trigger] required@[x])@ == mv.required(x),
            forall|x: int|
                #![trigger demands@[x]]
                0 <= x < k ==> {
                    &&& demands@[x]@.len() == mv.plans[x].deps.len()
                    &&& forall|j: int|
                        0 <= j < demands@[x]@.len() ==> (#[trigger] demands@[x]@[j])@ == mv.demand(
                            x,
                            mv.required(x),
                            j,
                        )
                },
        decreases n - k,
    {
        let at = n - 1 - k;
        assert(sets_view(&top_required)[at as int] == top_required@[at as int]@);
        required.push(top_required[at].duplicate());
        let source = &top_demands[at];
        let len = source.len();
        let mut row: Vec<CriteriaSet> = Vec::new();
        let mut j: usize = 0;
        while j < len
            invariant
                len == source@.len(),
                j <= len,
                row@.len() == j,
                forall|y: int| 0 <= y < j ==> (#[trigger] row@[y])@ == source@[y]@,
            decreases len - j,
        {
            row.push(source[j].duplicate());
            j += 1;
        }
        assert(top_demands@[at as int] == source);
        demands.push(row);
        k += 1;
    }
    Settled { achieved, required, demands, workings }
}

} // verus!
