//! The criteria lattice: named criteria, what each implies, and sets of
//! criteria.

use crate::format::{CriteriaEntry, StableMap};
use crate::reach::{
    all_of, closure, lemma_reaches_transitive, lemma_start_reached, reaches, rows, unit,
};
use crate::text::{copy_names, distinct, find, lemma_find, spec_find, views};
use vstd::prelude::*;

verus! {

/// Criterion `c` is in the set.
pub open spec fn holds(s: Seq<bool>, c: int) -> bool {
    0 <= c < s.len() && s[c]
}

/// Every criterion of `a` is in `b`.
pub open spec fn subset(a: Seq<bool>, b: Seq<bool>) -> bool {
    forall|c: int| #[trigger] holds(a, c) ==> holds(b, c)
}

/// The criteria that are in `a` or in `b`, over the criteria that `a` knows.
pub open spec fn union_of(a: Seq<bool>, b: Seq<bool>) -> Seq<bool> {
    Seq::new(a.len(), |c: int| a[c] || holds(b, c))
}

/// The criteria that are in `a` and in `b`.
pub open spec fn intersection_of(a: Seq<bool>, b: Seq<bool>) -> Seq<bool> {
    Seq::new(a.len(), |c: int| a[c] && holds(b, c))
}

/// The criteria that are in `a` and not in `b`.
pub open spec fn difference_of(a: Seq<bool>, b: Seq<bool>) -> Seq<bool> {
    Seq::new(a.len(), |c: int| a[c] && !holds(b, c))
}

/// Some criterion is in both sets.
pub open spec fn overlap(a: Seq<bool>, b: Seq<bool>) -> bool {
    exists|c: int| #[trigger] holds(a, c) && holds(b, c)
}

/// The set over `n` criteria that holds none.
pub open spec fn none_of(n: nat) -> Seq<bool> {
    Seq::new(n, |c: int| false)
}

/// A set of criteria: one mark for each criterion of the table, by its number.
#[derive(Clone, Debug, PartialEq, Eq)]
pub struct CriteriaSet {
    pub bits: Vec<bool>,
}

impl View for CriteriaSet {
    type V = Seq<bool>;

    open spec fn view(&self) -> Seq<bool> {
        self.bits@
    }
}

impl CriteriaSet {
    /// The empty set over `n` criteria.
    pub fn empty(n: usize) -> (s: CriteriaSet)
        ensures
            s@ == none_of(n as nat),
    {
        let mut bits: Vec<bool> = Vec::new();
        let mut i: usize = 0;
        while i < n
            invariant
                i <= n,
                bits@.len() == i,
                forall|k: int| 0 <= k < i ==> !#[trigger] bits@[k],
            decreases n - i,
        {
            bits.push(false);
            i += 1;
        }
        assert(bits@ =~= none_of(n as nat));
        CriteriaSet { bits }
    }

    /// The set of all `n` criteria.
    pub fn full(n: usize) -> (s: CriteriaSet)
        ensures
            s@ == all_of(n as nat),
    {
        let mut bits: Vec<bool> = Vec::new();
        let mut i: usize = 0;
        while i < n
            invariant
                i <= n,
                bits@.len() == i,
                forall|k: int| 0 <= k < i ==> #[trigger] bits@[k],
            decreases n - i,
        {
            bits.push(true);
            i += 1;
        }
        assert(bits@ =~= all_of(n as nat));
        CriteriaSet { bits }
    }

    /// How many criteria the set ranges over.
    pub fn len(&self) -> (n: usize)
        ensures
            n == self@.len(),
    {
        self.bits.len()
    }

    pub fn contains(&self, c: usize) -> (r: bool)
        ensures
            r == holds(self@, c as int),
    {
        c < self.bits.len() && self.bits[c]
    }

    /// Adds criterion `c`, if the set ranges over it.
    pub fn insert(&mut self, c: usize)
        ensures
            final(self)@ == (if c < old(self)@.len() {
                old(self)@.update(c as int, true)
            } else {
                old(self)@
            }),
    {
        if c < self.bits.len() {
            self.bits.set(c, true);
        }
    }

    pub fn union(&self, other: &CriteriaSet) -> (s: CriteriaSet)
        ensures
            s@ == union_of(self@, other@),
    {
        let n = self.bits.len();
        let mut bits: Vec<bool> = Vec::new();
        let mut i: usize = 0;
        while i < n
            invariant
                n == self@.len(),
                i <= n,
                bits@.len() == i,
                forall|k: int| 0 <= k < i ==> #[trigger] bits@[k] == (self@[k] || holds(other@, k)),
            decreases n - i,
        {
            bits.push(self.bits[i] || other.contains(i));
            i += 1;
        }
        assert(bits@ =~= union_of(self@, other@));
        CriteriaSet { bits }
    }

    pub fn intersect(&self, other: &CriteriaSet) -> (s: CriteriaSet)
        ensures
            s@ == intersection_of(self@, other@),
    {
        let n = self.bits.len();
        let mut bits: Vec<bool> = Vec::new();
        let mut i: usize = 0;
        while i < n
            invariant
                n == self@.len(),
                i <= n,
                bits@.len() == i,
                forall|k: int| 0 <= k < i ==> #[trigger] bits@[k] == (self@[k] && holds(other@, k)),
            decreases n - i,
        {
            bits.push(self.bits[i] && other.contains(i));
            i += 1;
        }
        assert(bits@ =~= intersection_of(self@, other@));
        CriteriaSet { bits }
    }

    /// The criteria of the set that are not in `other`.
    pub fn without(&self, other: &CriteriaSet) -> (s: CriteriaSet)
        ensures
            s@ == difference_of(self@, other@),
    {
        let n = self.bits.len();
        let mut bits: Vec<bool> = Vec::new();
        let mut i: usize = 0;
        while i < n
            invariant
                n == self@.len(),
                i <= n,
                bits@.len() == i,
                forall|k: int| 0 <= k < i ==> #[trigger] bits@[k] == (self@[k] && !holds(other@, k)),
            decreases n - i,
        {
            bits.push(self.bits[i] && !other.contains(i));
            i += 1;
        }
        assert(bits@ =~= difference_of(self@, other@));
        CriteriaSet { bits }
    }

    /// Whether the two sets have a criterion in common.
    pub fn overlaps(&self, other: &CriteriaSet) -> (r: bool)
        ensures
            r == overlap(self@, other@),
    {
        let n = self.bits.len();
        let mut i: usize = 0;
        while i < n
            invariant
                n == self@.len(),
                i <= n,
                forall|k: int| 0 <= k < i ==> !(#[trigger] holds(self@, k) && holds(other@, k)),
            decreases n - i,
        {
            if self.bits[i] && other.contains(i) {
                assert(holds(self@, i as int) && holds(other@, i as int));
                return true;
            }
            i += 1;
        }
        false
    }

    /// Whether every criterion of `required` is in the set.
    pub fn contains_all(&self, required: &CriteriaSet) -> (r: bool)
        ensures
            r == subset(required@, self@),
    {
        let n = required.bits.len();
        let mut i: usize = 0;
        while i < n
            invariant
                n == required@.len(),
                i <= n,
                forall|k: int| 0 <= k < i && #[trigger] holds(required@, k) ==> holds(self@, k),
            decreases n - i,
        {
            if required.bits[i] && !self.contains(i) {
                assert(holds(required@, i as int));
                return false;
            }
            i += 1;
        }
        true
    }

    pub fn is_empty(&self) -> (r: bool)
        ensures
            r == (forall|c: int| !#[trigger] holds(self@, c)),
    {
        let n = self.bits.len();
        let mut i: usize = 0;
        while i < n
            invariant
                n == self@.len(),
                i <= n,
                forall|k: int| 0 <= k < i ==> !#[trigger] holds(self@, k),
            decreases n - i,
        {
            if self.bits[i] {
                assert(holds(self@, i as int));
                return false;
            }
            i += 1;
        }
        true
    }

    /// A copy with the same members.
    pub fn duplicate(&self) -> (s: CriteriaSet)
        ensures
            s@ == self@,
    {
        let n = self.bits.len();
        let mut bits: Vec<bool> = Vec::new();
        let mut i: usize = 0;
        while i < n
            invariant
                n == self@.len(),
                i <= n,
                bits@.len() == i,
                forall|k: int| 0 <= k < i ==> #[trigger] bits@[k] == self@[k],
            decreases n - i,
        {
            bits.push(self.bits[i]);
            i += 1;
        }
        assert(bits@ =~= self@);
        CriteriaSet { bits }
    }
}

/// Why a criteria table was refused.
#[derive(Clone, Copy, Debug, PartialEq, Eq, Structural)]
pub enum CriteriaError {
    /// An `implies` list names a criterion that the table does not define.
    UnknownCriterion,
    /// Two different criteria imply each other.
    ImplicationCycle,
}

/// The name of the weaker built-in criterion.
pub open spec fn safe_to_run() -> Seq<char> {
    "safe-to-run"@
}

/// The name of the stronger built-in criterion, which implies the weaker.
pub open spec fn safe_to_deploy() -> Seq<char> {
    "safe-to-deploy"@
}

/// The names of the table for a file that defines `keys`: the file's names,
/// then each built-in criterion that the file does not define.
pub open spec fn effective_names(keys: Seq<Seq<char>>) -> Seq<Seq<char>> {
    let with_run = if spec_find(keys, safe_to_run()).is_none() {
        keys.push(safe_to_run())
    } else {
        keys
    };
    if spec_find(with_run, safe_to_deploy()).is_none() {
        with_run.push(safe_to_deploy())
    } else {
        with_run
    }
}

/// What each criterion of [`effective_names`] implies directly, by name.
pub open spec fn effective_implies(
    keys: Seq<Seq<char>>,
    lists: Seq<Seq<Seq<char>>>,
) -> Seq<Seq<Seq<char>>> {
    let with_run = if spec_find(keys, safe_to_run()).is_none() {
        lists.push(Seq::empty())
    } else {
        lists
    };
    let names = if spec_find(keys, safe_to_run()).is_none() {
        keys.push(safe_to_run())
    } else {
        keys
    };
    if spec_find(names, safe_to_deploy()).is_none() {
        with_run.push(seq![safe_to_run()])
    } else {
        with_run
    }
}

/// Every name in the lists is a name of the table.
pub open spec fn all_known(names: Seq<Seq<char>>, lists: Seq<Seq<Seq<char>>>) -> bool {
    forall|a: int, k: int|
        0 <= a < lists.len() && 0 <= k < lists[a].len() ==> spec_find(
            names,
            #[trigger] lists[a][k],
        ).is_some()
}

/// Criterion `a` names criterion `b` in its list.
pub open spec fn names_directly(
    names: Seq<Seq<char>>,
    list: Seq<Seq<char>>,
    b: int,
) -> bool {
    exists|k: int| 0 <= k < list.len() && spec_find(names, #[trigger] list[k]) == Some(b)
}

/// The direct implications as a matrix: row `a` marks what `a` names.
pub open spec fn direct_links(
    names: Seq<Seq<char>>,
    lists: Seq<Seq<Seq<char>>>,
) -> Seq<Seq<bool>> {
    Seq::new(
        names.len(),
        |a: int| Seq::new(names.len(), |b: int| names_directly(names, lists[a], b)),
    )
}

/// Criterion `a` implies criterion `b`: they are the same, or a chain of
/// direct implications leads from `a` to `b`.
pub open spec fn implication(links: Seq<Seq<bool>>, a: int, b: int) -> bool {
    reaches(links, unit(links.len(), a), all_of(links.len()), b)
}

/// Two different criteria imply each other.
pub open spec fn has_cycle(links: Seq<Seq<bool>>) -> bool {
    exists|a: int, b: int|
        0 <= a < links.len() && 0 <= b < links.len() && a != b && #[trigger] implication(
            links,
            a,
            b,
        ) && implication(links, b, a)
}

/// The criteria of a project by number, with the implications among them.
#[derive(Clone, Debug)]
pub struct CriteriaTable {
    pub names: Vec<String>,
    /// Row `a` marks every criterion that `a` implies, itself included.
    pub implied: Vec<Vec<bool>>,
}

/// The mathematical value of a [`CriteriaTable`].
pub struct TableView {
    pub names: Seq<Seq<char>>,
    pub implied: Seq<Seq<bool>>,
}

impl TableView {
    /// Criterion `a` implies criterion `b`.
    pub open spec fn implies(self, a: int, b: int) -> bool {
        0 <= a < self.implied.len() && holds(self.implied[a], b)
    }

    /// No two criteria have one name, the matrix is square over the names,
    /// and implication is reflexive, transitive and free of cycles.
    pub open spec fn wf(self) -> bool {
        &&& distinct(self.names)
        &&& self.implied.len() == self.names.len()
        &&& forall|a: int|
            0 <= a < self.implied.len() ==> (#[trigger] self.implied[a]).len() == self.names.len()
        &&& forall|a: int| 0 <= a < self.names.len() ==> #[trigger] self.implies(a, a)
        &&& forall|a: int, b: int, c: int|
            #[trigger] self.implies(a, b) && #[trigger] self.implies(b, c) ==> self.implies(a, c)
        &&& forall|a: int, b: int| #[trigger] self.implies(a, b) && a != b ==> !self.implies(b, a)
    }

    /// Everything that criterion `c` implies, itself included.
    pub open spec fn expand(self, c: int) -> Seq<bool> {
        self.implied[c]
    }

    /// The members of `s` and everything they imply.
    pub open spec fn close(self, s: Seq<bool>) -> Seq<bool> {
        Seq::new(
            self.names.len(),
            |b: int| exists|a: int| holds(s, a) && #[trigger] self.implies(a, b),
        )
    }

    /// The set ranges over the criteria of the table and is closed under
    /// implication.
    pub open spec fn closed(self, s: Seq<bool>) -> bool {
        &&& s.len() == self.names.len()
        &&& forall|a: int, b: int| holds(s, a) && #[trigger] self.implies(a, b) ==> holds(s, b)
    }

    /// The closed set that a list of criterion names stands for, if the table
    /// defines every name.
    pub open spec fn expand_names(self, list: Seq<Seq<char>>) -> Option<Seq<bool>> {
        if forall|k: int| 0 <= k < list.len() ==> spec_find(self.names, #[trigger] list[k]).is_some() {
            Some(
                Seq::new(
                    self.names.len(),
                    |b: int|
                        exists|k: int|
                            0 <= k < list.len() && self.implies(
                                #[trigger] spec_find(self.names, list[k]).unwrap(),
                                b,
                            ),
                ),
            )
        } else {
            None
        }
    }

    /// The criterion called `name` with all that it implies.
    pub open spec fn expansion(self, name: Seq<char>) -> Seq<bool> {
        self.expand(spec_find(self.names, name).unwrap())
    }
}

impl View for CriteriaTable {
    type V = TableView;

    open spec fn view(&self) -> TableView {
        TableView { names: views(&self.names), implied: rows(&self.implied) }
    }
}

impl CriteriaTable {
    /// The table is well formed.
    pub open spec fn wf(&self) -> bool {
        &&& self@.wf()
        &&& self.implied@.len() == self.names@.len()
        &&& forall|a: int|
            0 <= a < self.implied@.len() ==> (#[trigger] self.implied@[a])@.len()
                == self.names@.len()
    }

    /// How many criteria the table defines.
    pub fn len(&self) -> (n: usize)
        ensures
            n == self.names@.len(),
    {
        self.names.len()
    }

    /// The number of the criterion called `name`.
    pub fn index_of(&self, name: &String) -> (r: Option<usize>)
        ensures
            match r {
                Some(i) => spec_find(views(&self.names), name@) == Some(i as int) && i
                    < self.names@.len(),
                None => spec_find(views(&self.names), name@).is_none(),
            },
    {
        find(&self.names, name)
    }

    /// Whether criterion `a` implies criterion `b`.
    pub fn implies(&self, a: usize, b: usize) -> (r: bool)
        requires
            self.wf(),
        ensures
            r == self@.implies(a as int, b as int),
    {
        a < self.implied.len() && b < self.implied[a].len() && self.implied[a][b]
    }

    /// Everything that criterion `c` implies, itself included.
    pub fn expand(&self, c: usize) -> (s: CriteriaSet)
        requires
            self.wf(),
            c < self.names@.len(),
        ensures
            s@ == self@.expand(c as int),
            self@.closed(s@),
            holds(s@, c as int),
    {
        let n = self.names.len();
        let mut bits: Vec<bool> = Vec::new();
        let mut i: usize = 0;
        while i < n
            invariant
                self.wf(),
                c < n,
                n == self.names@.len(),
                i <= n,
                bits@.len() == i,
                forall|k: int| 0 <= k < i ==> #[trigger] bits@[k] == self.implied@[c as int]@[k],
            decreases n - i,
        {
            bits.push(self.implied[c][i]);
            i += 1;
        }
        proof {
            assert(bits@ =~= self@.expand(c as int));
            assert(self@.implies(c as int, c as int));
            assert forall|a: int, b: int| holds(bits@, a) && #[trigger] self@.implies(
                a,
                b,
            ) implies holds(bits@, b) by {
                assert(self@.implies(c as int, a));
            }
        }
        CriteriaSet { bits }
    }

    /// Whether a set of criteria implies criterion `c`: whether one of its
    /// members does.
    pub fn set_implies(&self, set: &CriteriaSet, c: usize) -> (r: bool)
        requires
            self.wf(),
        ensures
            r == holds(self@.close(set@), c as int),
    {
        let n = self.names.len();
        if c >= n {
            return false;
        }
        let mut a: usize = 0;
        while a < n
            invariant
                self.wf(),
                n == self.names@.len(),
                c < n,
                a <= n,
                forall|k: int| 0 <= k < a ==> !(holds(set@, k) && #[trigger] self@.implies(k, c as int)),
            decreases n - a,
        {
            if set.contains(a) && self.implied[a][c] {
                assert(holds(set@, a as int) && self@.implies(a as int, c as int));
                return true;
            }
            a += 1;
        }
        false
    }

    /// The members of `set` and everything they imply.
    pub fn close(&self, set: &CriteriaSet) -> (s: CriteriaSet)
        requires
            self.wf(),
        ensures
            s@ == self@.close(set@),
            self@.closed(s@),
    {
        let n = self.names.len();
        let mut bits: Vec<bool> = Vec::new();
        let mut b: usize = 0;
        while b < n
            invariant
                self.wf(),
                n == self.names@.len(),
                b <= n,
                bits@.len() == b,
                forall|k: int| 0 <= k < b ==> #[trigger] bits@[k] == self@.close(set@)[k],
            decreases n - b,
        {
            let r = self.set_implies(set, b);
            bits.push(r);
            b += 1;
        }
        proof {
            assert(bits@ =~= self@.close(set@));
            assert forall|x: int, y: int| holds(bits@, x) && #[trigger] self@.implies(
                x,
                y,
            ) implies holds(bits@, y) by {
                let a = choose|a: int| holds(set@, a) && #[trigger] self@.implies(a, x);
                assert(self@.implies(a, y));
            }
        }
        CriteriaSet { bits }
    }

    /// The closed set that a list of criterion names stands for, or `None`
    /// where the table does not define one of the names.
    pub fn expand_names(&self, list: &Vec<String>) -> (r: Option<CriteriaSet>)
        requires
            self.wf(),
        ensures
            match r {
                Some(s) => self@.expand_names(views(list)) == Some(s@) && self@.closed(s@),
                None => self@.expand_names(views(list)).is_none(),
            },
    {
        let n = self.names.len();
        let m = list.len();
        let mut set = CriteriaSet::empty(n);
        let ghost names = views(&self.names);
        let ghost l = views(list);
        let mut k: usize = 0;
        while k < m
            invariant
                self.wf(),
                n == self.names@.len(),
                m == list@.len(),
                names == views(&self.names),
                l == views(list),
                k <= m,
                set@.len() == n,
                forall|j: int| 0 <= j < k ==> spec_find(names, #[trigger] l[j]).is_some(),
                forall|b: int|
                    0 <= b < n ==> #[trigger] set@[b] == (exists|j: int|
                        0 <= j < k && self@.implies(
                            #[trigger] spec_find(names, l[j]).unwrap(),
                            b,
                        )),
            decreases m - k,
        {
            match self.index_of(&list[k]) {
                None => {
                    assert(spec_find(names, l[k as int]).is_none());
                    return None;
                },
                Some(a) => {
                    let row = self.expand(a);
                    let ghost before = set@;
                    set = set.union(&row);
                    proof {
                        assert(l[k as int] == list@[k as int]@);
                        assert forall|b: int| 0 <= b < n implies #[trigger] set@[b] == (exists|
                            j: int,
                        |
                            0 <= j < k + 1 && self@.implies(
                                #[trigger] spec_find(names, l[j]).unwrap(),
                                b,
                            )) by {
                            if set@[b] {
                                if before[b] {
                                    let j = choose|j: int|
                                        0 <= j < k && self@.implies(
                                            #[trigger] spec_find(names, l[j]).unwrap(),
                                            b,
                                        );
                                    assert(0 <= j < k + 1);
                                } else {
                                    assert(self@.implies(
                                        spec_find(names, l[k as int]).unwrap(),
                                        b,
                                    ));
                                }
                            }
                            if exists|j: int|
                                0 <= j < k + 1 && self@.implies(
                                    #[trigger] spec_find(names, l[j]).unwrap(),
                                    b,
                                ) {
                                let j = choose|j: int|
                                    0 <= j < k + 1 && self@.implies(
                                        #[trigger] spec_find(names, l[j]).unwrap(),
                                        b,
                                    );
                                if j < k {
                                    assert(before[b]);
                                } else {
                                    assert(holds(row@, b));
                                }
                            }
                        }
                    }
                },
            }
            k += 1;
        }
        proof {
            assert(set@ =~= self@.expand_names(l).unwrap());
            assert forall|x: int, y: int| holds(set@, x) && #[trigger] self@.implies(
                x,
                y,
            ) implies holds(set@, y) by {
                let j = choose|j: int|
                    0 <= j < m && self@.implies(
                        #[trigger] spec_find(names, l[j]).unwrap(),
                        x,
                    );
                assert(self@.implies(spec_find(names, l[j]).unwrap(), y));
            }
        }
        Some(set)
    }
}

/// The names that a criteria file defines, with the built-in criteria.
pub open spec fn table_names(entries: &StableMap<CriteriaEntry>) -> Seq<Seq<char>> {
    effective_names(entries.keys())
}

/// What each criterion of [`table_names`] implies directly, by name.
pub open spec fn table_lists(entries: &StableMap<CriteriaEntry>) -> Seq<Seq<Seq<char>>> {
    effective_implies(
        entries.keys(),
        Seq::new(entries.entries@.len(), |a: int| views(&entries.entries@[a].1.implies)),
    )
}

/// The direct implications of a criteria file, as a matrix.
pub open spec fn table_links(entries: &StableMap<CriteriaEntry>) -> Seq<Seq<bool>> {
    direct_links(table_names(entries), table_lists(entries))
}

/// The table of a criteria file: its criteria in the file's order, then each
/// built-in criterion that the file does not define, and for each what it
/// implies by any chain of direct implications.
pub open spec fn table_view(entries: &StableMap<CriteriaEntry>) -> TableView {
    let names = table_names(entries);
    TableView {
        names,
        implied: Seq::new(
            names.len(),
            |a: int| Seq::new(names.len(), |b: int| implication(table_links(entries), a, b)),
        ),
    }
}

fn unit_marks(n: usize, a: usize) -> (v: Vec<bool>)
    ensures
        v@ == unit(n as nat, a as int),
{
    let mut v: Vec<bool> = Vec::new();
    let mut i: usize = 0;
    while i < n
        invariant
            i <= n,
            v@.len() == i,
            forall|k: int| 0 <= k < i ==> #[trigger] v@[k] == (k == a),
        decreases n - i,
    {
        v.push(i == a);
        i += 1;
    }
    assert(v@ =~= unit(n as nat, a as int));
    v
}

/// The row of the matrix for a criterion that names `list`, or `None` where
/// the list holds a name that the table does not define.
fn direct_row(names: &Vec<String>, list: &Vec<String>) -> (r: Option<Vec<bool>>)
    ensures
        match r {
            Some(row) => {
                &&& forall|k: int|
                    0 <= k < list@.len() ==> spec_find(
                        views(names),
                        #[trigger] views(list)[k],
                    ).is_some()
                &&& row@ == Seq::new(
                    names@.len(),
                    |b: int| names_directly(views(names), views(list), b),
                )
            },
            None => exists|k: int|
                0 <= k < list@.len() && spec_find(views(names), #[trigger] views(list)[k]).is_none(),
        },
{
    let n = names.len();
    let m = list.len();
    let ghost nv = views(names);
    let ghost lv = views(list);
    let mut row = CriteriaSet::empty(n).bits;
    let mut k: usize = 0;
    while k < m
        invariant
            n == names@.len(),
            m == list@.len(),
            nv == views(names),
            lv == views(list),
            k <= m,
            row@.len() == n,
            forall|j: int| 0 <= j < k ==> spec_find(nv, #[trigger] lv[j]).is_some(),
            forall|b: int|
                0 <= b < n ==> #[trigger] row@[b] == (exists|j: int|
                    0 <= j < k && spec_find(nv, #[trigger] lv[j]) == Some(b)),
        decreases m - k,
    {
        assert(lv[k as int] == list@[k as int]@);
        match find(names, &list[k]) {
            None => {
                assert(spec_find(nv, lv[k as int]).is_none());
                return None;
            },
            Some(b) => {
                let ghost before = row@;
                row.set(b, true);
                proof {
                    assert forall|x: int| 0 <= x < n implies #[trigger] row@[x] == (exists|j: int|
                        0 <= j < k + 1 && spec_find(nv, #[trigger] lv[j]) == Some(x)) by {
                        if row@[x] {
                            if x == b {
                                assert(spec_find(nv, lv[k as int]) == Some(x));
                            } else {
                                assert(before[x]);
                                let j = choose|j: int|
                                    0 <= j < k && spec_find(nv, #[trigger] lv[j]) == Some(x);
                                assert(0 <= j < k + 1);
                            }
                        }
                        if exists|j: int|
                            0 <= j < k + 1 && spec_find(nv, #[trigger] lv[j]) == Some(x) {
                            let j = choose|j: int|
                                0 <= j < k + 1 && spec_find(nv, #[trigger] lv[j]) == Some(x);
                            if j < k {
                                assert(before[x]);
                            }
                        }
                    }
                }
            },
        }
        k += 1;
    }
    assert(row@ =~= Seq::new(n as nat, |b: int| names_directly(nv, lv, b)));
    Some(row)
}

impl CriteriaTable {
    /// Builds the table of a valid criteria file: its criteria in the file's
    /// order, then each built-in criterion that the file does not define, and
    /// for each what it implies by any chain of direct implications.
    pub fn build(entries: &StableMap<CriteriaEntry>) -> (r: Result<CriteriaTable, CriteriaError>)
        requires
            entries.wf(),
        ensures
            match r {
                Ok(t) => {
                    &&& all_known(table_names(entries), table_lists(entries))
                    &&& !has_cycle(table_links(entries))
                    &&& t@ == table_view(entries)
                    &&& t.wf()
                },
                Err(CriteriaError::UnknownCriterion) => !all_known(
                    table_names(entries),
                    table_lists(entries),
                ),
                Err(CriteriaError::ImplicationCycle) => all_known(
                    table_names(entries),
                    table_lists(entries),
                ) && has_cycle(table_links(entries)),
            },
    {
        let count = entries.entries.len();
        let ghost keys = entries.keys();
        let ghost given = Seq::new(count as nat, |a: int| views(&entries.entries@[a].1.implies));
        let mut names: Vec<String> = Vec::new();
        let mut lists: Vec<Vec<String>> = Vec::new();
        let mut i: usize = 0;
        while i < count
            invariant
                count == entries.entries@.len(),
                i <= count,
                names@.len() == i,
                lists@.len() == i,
                forall|j: int| 0 <= j < i ==> #[trigger] names@[j]@ == entries.entries@[j].0@,
                forall|j: int|
                    0 <= j < i ==> views(#[trigger] &lists@[j]) == views(
                        &entries.entries@[j].1.implies,
                    ),
            decreases count - i,
        {
            names.push(entries.entries[i].0.clone());
            lists.push(copy_names(&entries.entries[i].1.implies));
            i += 1;
        }
        assert(views(&names) =~= keys);
        let ghost lists_view = Seq::new(lists@.len(), |a: int| views(&lists@[a]));
        assert(lists_view =~= given);
        let run = "safe-to-run".to_owned();
        let deploy = "safe-to-deploy".to_owned();
        if find(&names, &run).is_none() {
            names.push(run.clone());
            let none: Vec<String> = Vec::new();
            assert(views(&none) =~= Seq::<Seq<char>>::empty());
            lists.push(none);
            assert(views(&names) =~= keys.push(safe_to_run()));
            assert(Seq::new(lists@.len(), |a: int| views(&lists@[a])) =~= given.push(
                Seq::empty(),
            ));
        }
        let ghost with_run = views(&names);
        let ghost lists_with_run = Seq::new(lists@.len(), |a: int| views(&lists@[a]));
        if find(&names, &deploy).is_none() {
            names.push(deploy);
            let mut one: Vec<String> = Vec::new();
            one.push(run);
            assert(views(&one) =~= seq![safe_to_run()]);
            lists.push(one);
            assert(views(&names) =~= with_run.push(safe_to_deploy()));
            assert(Seq::new(lists@.len(), |a: int| views(&lists@[a])) =~= lists_with_run.push(
                seq![safe_to_run()],
            ));
        }
        let ghost nv = views(&names);
        let ghost lv = Seq::new(lists@.len(), |a: int| views(&lists@[a]));
        assert(nv == table_names(entries));
        assert(lv == table_lists(entries));
        let n = names.len();
        assert(lists@.len() == n);
        let mut direct: Vec<Vec<bool>> = Vec::new();
        let mut a: usize = 0;
        while a < n
            invariant
                n == names@.len(),
                lists@.len() == n,
                nv == views(&names),
                lv == Seq::new(lists@.len(), |a: int| views(&lists@[a])),
                nv == table_names(entries),
                lv == table_lists(entries),
                a <= n,
                direct@.len() == a,
                forall|x: int, k: int|
                    0 <= x < a && 0 <= k < lv[x].len() ==> spec_find(nv, #[trigger] lv[x][k]).is_some(),
                forall|x: int|
                    0 <= x < a ==> (#[trigger] direct@[x])@ == Seq::new(
                        n as nat,
                        |b: int| names_directly(nv, lv[x], b),
                    ),
            decreases n - a,
        {
            assert(lv[a as int] == views(&lists@[a as int]));
            match direct_row(&names, &lists[a]) {
                None => {
                    proof {
                        let k = choose|k: int|
                            0 <= k < lists@[a as int]@.len() && spec_find(
                                nv,
                                #[trigger] views(&lists@[a as int])[k],
                            ).is_none();
                        assert(spec_find(nv, lv[a as int][k]).is_none());
                    }
                    return Err(CriteriaError::UnknownCriterion);
                },
                Some(row) => {
                    direct.push(row);
                },
            }
            a += 1;
        }
        let ghost links = rows(&direct);
        proof {
            assert(links =~= direct_links(nv, lv)) by {
                assert forall|x: int| 0 <= x < n implies #[trigger] links[x] =~= direct_links(
                    nv,
                    lv,
                )[x] by {}
            }
            assert(all_known(nv, lv));
        }
        let everything = CriteriaSet::full(n).bits;
        let mut implied: Vec<Vec<bool>> = Vec::new();
        let mut a: usize = 0;
        while a < n
            invariant
                n == names@.len(),
                links == rows(&direct),
                links.len() == n,
                forall|x: int| 0 <= x < n ==> (#[trigger] links[x]).len() == n,
                everything@ == all_of(n as nat),
                a <= n,
                implied@.len() == a,
                forall|x: int| 0 <= x < a ==> (#[trigger] implied@[x])@.len() == n,
                forall|x: int, y: int|
                    0 <= x < a && 0 <= y < n ==> #[trigger] implied@[x]@[y] == implication(
                        links,
                        x,
                        y,
                    ),
            decreases n - a,
        {
            let only = unit_marks(n, a);
            let row = closure(&direct, &only, &everything);
            implied.push(row);
            a += 1;
        }
        let table = CriteriaTable { names, implied };
        proof {
            lemma_table_names_distinct(entries);
        }
        let mut a: usize = 0;
        while a < n
            invariant
                n == table.names@.len(),
                table.implied@.len() == n,
                forall|x: int| 0 <= x < n ==> (#[trigger] table.implied@[x])@.len() == n,
                forall|x: int, y: int|
                    0 <= x < n && 0 <= y < n ==> #[trigger] table.implied@[x]@[y] == implication(
                        links,
                        x,
                        y,
                    ),
                links.len() == n,
                links == table_links(entries),
                all_known(table_names(entries), table_lists(entries)),
                a <= n,
                forall|x: int, y: int|
                    0 <= x < a && 0 <= y < n && x != y ==> !(#[trigger] implication(links, x, y)
                        && implication(links, y, x)),
            decreases n - a,
        {
            let mut b: usize = 0;
            while b < n
                invariant
                    n == table.names@.len(),
                    table.implied@.len() == n,
                    forall|x: int| 0 <= x < n ==> (#[trigger] table.implied@[x])@.len() == n,
                    forall|x: int, y: int|
                        0 <= x < n && 0 <= y < n ==> #[trigger] table.implied@[x]@[y]
                            == implication(links, x, y),
                    links.len() == n,
                    links == table_links(entries),
                    all_known(table_names(entries), table_lists(entries)),
                    a < n,
                    b <= n,
                    forall|y: int|
                        0 <= y < b && a != y ==> !(#[trigger] implication(links, a as int, y)
                            && implication(links, y, a as int)),
                decreases n - b,
            {
                if a != b && table.implied[a][b] && table.implied[b][a] {
                    assert(implication(links, a as int, b as int) && implication(
                        links,
                        b as int,
                        a as int,
                    ));
                    return Err(CriteriaError::ImplicationCycle);
                }
                b += 1;
            }
            a += 1;
        }
        proof {
            let all = all_of(n as nat);
            assert forall|x: int| 0 <= x < n implies #[trigger] table@.implies(x, x) by {
                lemma_start_reached(links, unit(n as nat, x), all, x);
            }
            assert forall|x: int, y: int, z: int| #[trigger]
                table@.implies(x, y) && #[trigger] table@.implies(
                    y,
                    z,
                ) implies table@.implies(x, z) by {
                assert(table.implied@[x]@[y] == implication(links, x, y));
                assert(table.implied@[y]@[z] == implication(links, y, z));
                lemma_reaches_transitive(links, unit(n as nat, x), all, y, z);
                assert(table.implied@[x]@[z] == implication(links, x, z));
            }
            assert forall|x: int, y: int| #[trigger]
                table@.implies(x, y) && x != y implies !table@.implies(y, x) by {
                assert(table.implied@[x]@[y] == implication(links, x, y));
                if table@.implies(y, x) {
                    assert(table.implied@[y]@[x] == implication(links, y, x));
                }
            }
            let goal = table_view(entries);
            assert(table@.names == goal.names);
            assert forall|x: int| 0 <= x < n implies #[trigger] table@.implied[x] =~= goal.implied[x] by {
                assert forall|y: int| 0 <= y < n implies table@.implied[x][y] == goal.implied[x][y] by {
                    assert(table.implied@[x]@[y] == implication(links, x, y));
                }
            }
            assert(table@.implied =~= goal.implied);
        }
        Ok(table)
    }
}

/// In the table of a valid criteria file no two criteria have one name.
pub proof fn lemma_table_names_distinct(entries: &StableMap<CriteriaEntry>)
    requires
        entries.wf(),
    ensures
        distinct(table_names(entries)),
{
    let keys = entries.keys();
    lemma_find(keys, safe_to_run());
    let with_run = if spec_find(keys, safe_to_run()).is_none() {
        keys.push(safe_to_run())
    } else {
        keys
    };
    assert(distinct(with_run));
    lemma_find(with_run, safe_to_deploy());
}

/// The table of a valid criteria file that names known criteria only and
/// has no cycle is well formed.
pub proof fn lemma_table_view_wf(entries: &StableMap<CriteriaEntry>)
    requires
        entries.wf(),
        all_known(table_names(entries), table_lists(entries)),
        !has_cycle(table_links(entries)),
    ensures
        table_view(entries).wf(),
{
    lemma_table_names_distinct(entries);
    let t = table_view(entries);
    let links = table_links(entries);
    let n = t.names.len();
    let all = all_of(n);
    assert(links.len() == n);
    assert forall|a: int, b: int| 0 <= a < n && 0 <= b < n implies #[trigger] t.implies(a, b)
        == implication(links, a, b) by {}
    assert forall|a: int| 0 <= a < n implies #[trigger] t.implies(a, a) by {
        lemma_start_reached(links, unit(n, a), all, a);
    }
    assert forall|a: int, b: int, c: int| #[trigger]
        t.implies(a, b) && #[trigger] t.implies(b, c) implies t.implies(a, c) by {
        assert(implication(links, a, b));
        assert(implication(links, b, c));
        lemma_reaches_transitive(links, unit(n, a), all, b, c);
    }
    assert forall|a: int, b: int| #[trigger] t.implies(a, b) && a != b implies !t.implies(
        b,
        a,
    ) by {
        if t.implies(b, a) {
            assert(implication(links, a, b) && implication(links, b, a));
        }
    }
}

/// In a well-formed table a criterion with all that it implies is a closed
/// set.
pub proof fn lemma_expansion_closed(t: TableView, name: Seq<char>)
    requires
        t.wf(),
        spec_find(t.names, name).is_some(),
    ensures
        t.closed(t.expansion(name)),
{
    lemma_find(t.names, name);
    let c = spec_find(t.names, name).unwrap();
    let s = t.expansion(name);
    assert forall|a: int, b: int| holds(s, a) && #[trigger] t.implies(a, b) implies holds(
        s,
        b,
    ) by {
        assert(t.implies(c, a));
        assert(t.implies(c, b));
    }
}

/// In a well-formed table the set that a list of known names stands for is
/// closed.
pub proof fn lemma_expand_names_closed(t: TableView, list: Seq<Seq<char>>)
    requires
        t.wf(),
        forall|k: int| 0 <= k < list.len() ==> spec_find(t.names, #[trigger] list[k]).is_some(),
    ensures
        t.expand_names(list).is_some(),
        t.closed(t.expand_names(list).unwrap()),
{
    let s = t.expand_names(list).unwrap();
    assert forall|a: int, b: int| holds(s, a) && #[trigger] t.implies(a, b) implies holds(
        s,
        b,
    ) by {
        let k = choose|k: int|
            0 <= k < list.len() && t.implies(#[trigger] spec_find(t.names, list[k]).unwrap(), a);
        assert(t.implies(spec_find(t.names, list[k]).unwrap(), b));
    }
}

} // verus!
