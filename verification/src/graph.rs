//! The resolved dependency graph: packages by name and version, which of them
//! are first-party, and an order in which every package comes after the
//! packages it depends on.

use crate::text::{lemma_find, spec_find};
use crate::version::{Version, VersionView};
use vstd::prelude::*;

verus! {

/// A package by name and version.
#[derive(Clone, Debug, PartialEq, Eq)]
pub struct PackageId {
    pub name: String,
    pub version: Version,
}

impl PackageId {
    /// The identity as a pair of plain values.
    pub open spec fn key(&self) -> (Seq<char>, VersionView) {
        (self.name@, self.version@)
    }
}

/// What a package needs a dependency for. Resolution treats every kind
/// alike.
#[derive(Clone, Copy, Debug, PartialEq, Eq, Structural)]
pub enum EdgeKind {
    /// The package needs the dependency to build and to run.
    Normal,
    /// The package needs the dependency for its build script.
    Build,
    /// The package needs the dependency for its tests and examples.
    Dev,
}

/// A dependency of a package: the package it names, and what for.
#[derive(Clone, Debug, PartialEq, Eq)]
pub struct PackageEdge {
    pub id: PackageId,
    pub kind: EdgeKind,
}

impl PackageEdge {
    /// The identity of the package that the edge leads to.
    pub open spec fn key(&self) -> (Seq<char>, VersionView) {
        self.id.key()
    }

    /// An edge of the normal kind to the package with this name and version.
    pub fn normal(name: String, version: Version) -> (e: PackageEdge)
        ensures
            e.id.name == name,
            e.id.version == version,
            e.kind == EdgeKind::Normal,
    {
        PackageEdge { id: PackageId { name, version }, kind: EdgeKind::Normal }
    }
}

/// A package of the resolved graph as the metadata provider gives it.
#[derive(Clone, Debug, PartialEq, Eq)]
pub struct PackageNode {
    pub name: String,
    pub version: Version,
    /// The package is a member of the workspace.
    pub is_root: bool,
    /// The package comes from the workspace, a path or a repository rather
    /// than from the registry.
    pub is_first_party: bool,
    pub deps: Vec<PackageEdge>,
}

/// The source text that marks a package of the registry.
pub open spec fn registry_source() -> Seq<char> {
    "registry+https://github.com/rust-lang/crates.io-index"@
}

/// Whether a package with this source is first-party: every package but those
/// that come from the registry.
pub open spec fn spec_first_party(source: Option<Seq<char>>) -> bool {
    match source {
        Some(text) => text != registry_source(),
        None => true,
    }
}

impl PackageNode {
    pub open spec fn key(&self) -> (Seq<char>, VersionView) {
        (self.name@, self.version@)
    }

    /// A node for a package with the given source, as package metadata names
    /// it: no source for a package of the workspace or of a path.
    pub fn from_source(
        name: String,
        version: Version,
        source: Option<&String>,
        is_root: bool,
        deps: Vec<PackageEdge>,
    ) -> (node: PackageNode)
        ensures
            node.name == name,
            node.version == version,
            node.is_root == is_root,
            node.deps == deps,
            node.is_first_party == spec_first_party(
                match source {
                    Some(s) => Some(s@),
                    None => None,
                },
            ),
    {
        let is_first_party = match source {
            Some(text) => !source_is_registry(text),
            None => true,
        };
        PackageNode { name, version, is_root, is_first_party, deps }
    }

    pub fn is_third_party(&self) -> (r: bool)
        ensures
            r == !self.is_first_party,
    {
        !self.is_first_party
    }
}

/// Calls `cargo_metadata::Source::is_crates_io` on a source with this text.
/// Trusted: it compares the text with the address of the registry's index.
#[verifier::external_body]
fn source_is_registry(text: &String) -> (r: bool)
    ensures
        r == (text@ == registry_source()),
{
    cargo_metadata::Source { repr: text.clone() }.is_crates_io()
}

/// Why a list of packages is no resolved graph.
#[derive(Clone, Copy, Debug, PartialEq, Eq, Structural)]
pub enum GraphError {
    /// A tag of a package's version does not follow the grammar.
    MalformedVersion,
    /// Two packages have the same name and version.
    DuplicatePackage,
    /// A package depends on a name and version that the list does not hold.
    UnknownDependency,
    /// Some packages depend on each other in a circle.
    DependencyCycle,
}

/// The identities of a list of packages.
pub open spec fn keys_of(nodes: &Vec<PackageNode>) -> Seq<(Seq<char>, VersionView)> {
    Seq::new(nodes@.len(), |i: int| nodes@[i].key())
}

/// The version of every package is well formed.
pub open spec fn versions_well_formed(nodes: &Vec<PackageNode>) -> bool {
    forall|i: int| 0 <= i < nodes@.len() ==> (#[trigger] nodes@[i]).version@.well_formed()
}

/// Two packages of the list have the same identity.
pub open spec fn has_duplicate(keys: Seq<(Seq<char>, VersionView)>) -> bool {
    exists|i: int, j: int| 0 <= i < j < keys.len() && #[trigger] keys[i] == #[trigger] keys[j]
}

/// Every dependency names a package of the list.
pub open spec fn deps_known(nodes: &Vec<PackageNode>) -> bool {
    forall|i: int, j: int|
        0 <= i < nodes@.len() && 0 <= j < nodes@[i].deps@.len() ==> spec_find(
            keys_of(nodes),
            (#[trigger] nodes@[i].deps@[j]).key(),
        ).is_some()
}

/// For each package, the places in the list of the packages it depends on.
pub open spec fn dep_indices(nodes: &Vec<PackageNode>) -> Seq<Seq<int>> {
    Seq::new(
        nodes@.len(),
        |i: int|
            Seq::new(
                nodes@[i].deps@.len(),
                |j: int| spec_find(keys_of(nodes), nodes@[i].deps@[j].key()).unwrap(),
            ),
    )
}

/// Package `i` is not in `order` yet, and everything it depends on is.
pub open spec fn ready(deps: Seq<Seq<int>>, order: Seq<int>, i: int) -> bool {
    &&& !order.contains(i)
    &&& forall|j: int| 0 <= j < deps[i].len() ==> order.contains(#[trigger] deps[i][j])
}

/// The first package before `upto` that is ready.
pub open spec fn first_ready(deps: Seq<Seq<int>>, order: Seq<int>, upto: int) -> Option<int>
    decreases upto,
{
    if upto <= 0 {
        None
    } else {
        match first_ready(deps, order, upto - 1) {
            Some(i) => Some(i),
            None => if ready(deps, order, upto - 1) {
                Some(upto - 1)
            } else {
                None
            },
        }
    }
}

/// The first `k` packages of the order: each is the first package of the list
/// that was ready when its turn came. `None` where no package was ready.
pub open spec fn order_prefix(deps: Seq<Seq<int>>, k: nat) -> Option<Seq<int>>
    decreases k,
{
    if k == 0 {
        Some(Seq::empty())
    } else {
        match order_prefix(deps, (k - 1) as nat) {
            None => None,
            Some(before) => match first_ready(deps, before, deps.len() as int) {
                None => None,
                Some(i) => Some(before.push(i)),
            },
        }
    }
}

/// The order in which the packages are resolved: dependencies first, and
/// among the packages that are ready the one that stands first in the list.
/// `None` where packages depend on each other in a circle.
pub open spec fn spec_order(deps: Seq<Seq<int>>) -> Option<Seq<int>> {
    order_prefix(deps, deps.len())
}

/// [`first_ready`] gives the least ready package, and `None` exactly when none
/// is ready.
pub proof fn lemma_first_ready(deps: Seq<Seq<int>>, order: Seq<int>, upto: int)
    ensures
        match first_ready(deps, order, upto) {
            Some(i) => 0 <= i < upto && ready(deps, order, i) && forall|x: int|
                0 <= x < i ==> !ready(deps, order, x),
            None => forall|x: int| 0 <= x < upto ==> !ready(deps, order, x),
        },
    decreases upto,
{
    if upto > 0 {
        lemma_first_ready(deps, order, upto - 1);
    }
}

/// A package of the graph in resolution order.
#[derive(Clone, Debug)]
pub struct Package {
    pub name: String,
    pub version: Version,
    pub is_root: bool,
    pub is_first_party: bool,
    /// The places in the order of the packages it depends on.
    pub deps: Vec<usize>,
    /// Its place in the list that the graph was made from.
    pub index: usize,
}

/// A resolved graph, its packages in resolution order.
#[derive(Clone, Debug)]
pub struct PackageGraph {
    pub packages: Vec<Package>,
}

/// The mathematical value of a [`Package`].
pub struct PackageView {
    pub name: Seq<char>,
    pub version: VersionView,
    pub is_root: bool,
    pub is_first_party: bool,
    pub deps: Seq<int>,
    pub index: int,
}

/// The mathematical value of a [`PackageGraph`].
pub struct GraphView {
    pub packages: Seq<PackageView>,
}

impl View for Package {
    type V = PackageView;

    open spec fn view(&self) -> PackageView {
        PackageView {
            name: self.name@,
            version: self.version@,
            is_root: self.is_root,
            is_first_party: self.is_first_party,
            deps: as_ints(&self.deps),
            index: self.index as int,
        }
    }
}

impl View for PackageGraph {
    type V = GraphView;

    open spec fn view(&self) -> GraphView {
        GraphView { packages: Seq::new(self.packages@.len(), |k: int| self.packages@[k]@) }
    }
}

impl GraphView {
    /// Every package comes after the packages it depends on, and every
    /// version is well formed.
    pub open spec fn wf(self) -> bool {
        &&& forall|k: int, j: int|
            0 <= k < self.packages.len() && 0 <= j < self.packages[k].deps.len() ==> 0
                <= #[trigger] self.packages[k].deps[j] < k
        &&& forall|k: int|
            0 <= k < self.packages.len() ==> (#[trigger] self.packages[k]).version.well_formed()
    }

    /// The names of the packages.
    pub open spec fn names(self) -> Seq<Seq<char>> {
        Seq::new(self.packages.len(), |k: int| self.packages[k].name)
    }

    /// The names of the dependencies of package `k`.
    pub open spec fn dep_names(self, k: int) -> Seq<Seq<char>> {
        Seq::new(
            self.packages[k].deps.len(),
            |j: int| self.packages[self.packages[k].deps[j]].name,
        )
    }
}

/// The packages of `nodes` in the order `order`, each dependency as the place
/// in that order of the package it names.
pub open spec fn arranged(nodes: &Vec<PackageNode>, order: Seq<int>) -> GraphView {
    GraphView {
        packages: Seq::new(
            order.len(),
            |k: int|
                {
                    let i = order[k];
                    PackageView {
                        name: nodes@[i].name@,
                        version: nodes@[i].version@,
                        is_root: nodes@[i].is_root,
                        is_first_party: nodes@[i].is_first_party,
                        deps: Seq::new(
                            nodes@[i].deps@.len(),
                            |j: int| spec_find(order, dep_indices(nodes)[i][j]).unwrap(),
                        ),
                        index: i,
                    }
                },
        ),
    }
}

/// The graph that a list of packages stands for, in resolution order.
pub open spec fn graph_view(nodes: &Vec<PackageNode>) -> GraphView {
    arranged(nodes, spec_order(dep_indices(nodes)).unwrap())
}

impl PackageGraph {
    /// The graph is in resolution order, its versions well formed.
    pub open spec fn wf(&self) -> bool {
        &&& self@.wf()
        &&& forall|k: int, j: int|
            0 <= k < self.packages@.len() && 0 <= j < self.packages@[k].deps@.len()
                ==> #[trigger] self.packages@[k].deps@[j] < k
        &&& forall|k: int|
            0 <= k < self.packages@.len() ==> (#[trigger] self.packages@[k]).version@.well_formed()
    }
}

/// A list of places as integers.
pub open spec fn as_ints(v: &Vec<usize>) -> Seq<int> {
    Seq::new(v@.len(), |i: int| v@[i] as int)
}

/// Lists of places as integers.
pub open spec fn as_int_rows(d: &Vec<Vec<usize>>) -> Seq<Seq<int>> {
    Seq::new(d@.len(), |i: int| as_ints(&d@[i]))
}

proof fn lemma_push_contains(s: Seq<int>, a: int, x: int)
    ensures
        s.push(a).contains(x) == (s.contains(x) || x == a),
{
    let t = s.push(a);
    if s.contains(x) {
        let i = choose|i: int| 0 <= i < s.len() && s[i] == x;
        assert(t[i] == x);
    }
    if x == a {
        assert(t[s.len() as int] == x);
    }
    if t.contains(x) {
        let i = choose|i: int| 0 <= i < t.len() && t[i] == x;
        if i < s.len() {
            assert(s[i] == x);
        }
    }
}

proof fn lemma_prefix_stays_none(deps: Seq<Seq<int>>, a: nat, b: nat)
    requires
        a <= b,
        order_prefix(deps, a).is_none(),
    ensures
        order_prefix(deps, b).is_none(),
    decreases b,
{
    if a < b {
        lemma_prefix_stays_none(deps, a, (b - 1) as nat);
    }
}

fn versions_checked(nodes: &Vec<PackageNode>) -> (r: bool)
    ensures
        r == versions_well_formed(nodes),
{
    let n = nodes.len();
    let mut i: usize = 0;
    while i < n
        invariant
            n == nodes@.len(),
            i <= n,
            forall|k: int| 0 <= k < i ==> (#[trigger] nodes@[k]).version@.well_formed(),
        decreases n - i,
    {
        if !nodes[i].version.is_well_formed() {
            return false;
        }
        i += 1;
    }
    true
}

/// The first place in the list of the package with this name and version.
pub fn find_node(nodes: &Vec<PackageNode>, name: &String, version: &Version) -> (r: Option<usize>)
    ensures
        match r {
            Some(i) => spec_find(keys_of(nodes), (name@, version@)) == Some(i as int) && i
                < nodes@.len(),
            None => spec_find(keys_of(nodes), (name@, version@)).is_none(),
        },
{
    let n = nodes.len();
    let ghost keys = keys_of(nodes);
    let ghost key = (name@, version@);
    let mut i: usize = 0;
    while i < n
        invariant
            n == nodes@.len(),
            keys == keys_of(nodes),
            key == (name@, version@),
            i <= n,
            forall|j: int| 0 <= j < i ==> keys[j] != key,
        decreases n - i,
    {
        if nodes[i].name == *name && nodes[i].version.same(version) {
            proof {
                lemma_find(keys, key);
                assert(keys[i as int] == key);
            }
            return Some(i);
        }
        assert(keys[i as int] != key);
        i += 1;
    }
    proof {
        lemma_find(keys, key);
    }
    None
}

pub(crate) fn duplicates_found(nodes: &Vec<PackageNode>) -> (r: bool)
    ensures
        r == has_duplicate(keys_of(nodes)),
{
    let n = nodes.len();
    let ghost keys = keys_of(nodes);
    let mut j: usize = 0;
    while j < n
        invariant
            n == nodes@.len(),
            keys == keys_of(nodes),
            j <= n,
            forall|a: int, b: int| 0 <= a < b < j ==> #[trigger] keys[a] != #[trigger] keys[b],
        decreases n - j,
    {
        let first = find_node(nodes, &nodes[j].name, &nodes[j].version);
        proof {
            lemma_find(keys, keys[j as int]);
        }
        match first {
            Some(i) => {
                if i != j {
                    assert(keys[i as int] == keys[j as int]);
                    assert(has_duplicate(keys));
                    return true;
                }
            },
            None => {
                assert(keys[j as int] == keys[j as int]);
                assert(false);
            },
        }
        j += 1;
    }
    false
}

fn deps_resolved(nodes: &Vec<PackageNode>) -> (r: Option<Vec<Vec<usize>>>)
    ensures
        match r {
            Some(d) => deps_known(nodes) && as_int_rows(&d) == dep_indices(nodes) && forall|
                i: int,
                j: int,
            |
                0 <= i < d@.len() && 0 <= j < d@[i]@.len() ==> #[trigger] d@[i]@[j] < nodes@.len(),
            None => !deps_known(nodes),
        },
{
    let n = nodes.len();
    let ghost keys = keys_of(nodes);
    let mut all: Vec<Vec<usize>> = Vec::new();
    let mut i: usize = 0;
    while i < n
        invariant
            n == nodes@.len(),
            keys == keys_of(nodes),
            i <= n,
            all@.len() == i,
            forall|a: int, b: int|
                0 <= a < i && 0 <= b < nodes@[a].deps@.len() ==> spec_find(
                    keys,
                    (#[trigger] nodes@[a].deps@[b]).key(),
                ).is_some(),
            forall|a: int| 0 <= a < i ==> as_ints(#[trigger] &all@[a]) == dep_indices(nodes)[a],
            forall|a: int, b: int|
                0 <= a < i && 0 <= b < all@[a]@.len() ==> #[trigger] all@[a]@[b] < n,
        decreases n - i,
    {
        let m = nodes[i].deps.len();
        let mut row: Vec<usize> = Vec::new();
        let mut j: usize = 0;
        while j < m
            invariant
                n == nodes@.len(),
                keys == keys_of(nodes),
                i < n,
                m == nodes@[i as int].deps@.len(),
                j <= m,
                row@.len() == j,
                forall|b: int|
                    0 <= b < j ==> spec_find(keys, (#[trigger] nodes@[i as int].deps@[b]).key())
                        == Some(row@[b] as int),
                forall|b: int| 0 <= b < j ==> #[trigger] row@[b] < n,
            decreases m - j,
        {
            let dep = &nodes[i].deps[j];
            match find_node(nodes, &dep.id.name, &dep.id.version) {
                None => {
                    assert(spec_find(keys, nodes@[i as int].deps@[j as int].key()).is_none());
                    return None;
                },
                Some(at) => {
                    row.push(at);
                },
            }
            j += 1;
        }
        assert(as_ints(&row) =~= dep_indices(nodes)[i as int]);
        all.push(row);
        i += 1;
    }
    assert(as_int_rows(&all) =~= dep_indices(nodes));
    Some(all)
}

fn all_placed(row: &Vec<usize>, placed: &Vec<bool>) -> (r: bool)
    requires
        forall|j: int| 0 <= j < row@.len() ==> #[trigger] row@[j] < placed@.len(),
    ensures
        r == forall|j: int| 0 <= j < row@.len() ==> placed@[#[trigger] row@[j] as int],
{
    let m = row.len();
    let mut j: usize = 0;
    while j < m
        invariant
            m == row@.len(),
            j <= m,
            forall|x: int| 0 <= x < row@.len() ==> #[trigger] row@[x] < placed@.len(),
            forall|x: int| 0 <= x < j ==> placed@[#[trigger] row@[x] as int],
        decreases m - j,
    {
        if !placed[row[j]] {
            return false;
        }
        j += 1;
    }
    true
}

/// The resolution order of a graph given by the places of each package's
/// dependencies, and for each package its place in that order.
fn order_of(deps: &Vec<Vec<usize>>) -> (r: Option<(Vec<usize>, Vec<usize>)>)
    requires
        forall|i: int, j: int|
            0 <= i < deps@.len() && 0 <= j < deps@[i]@.len() ==> #[trigger] deps@[i]@[j]
                < deps@.len(),
    ensures
        match r {
            Some((order, position)) => {
                &&& spec_order(as_int_rows(deps)) == Some(as_ints(&order))
                &&& order@.len() == deps@.len()
                &&& position@.len() == deps@.len()
                &&& forall|p: int| 0 <= p < order@.len() ==> #[trigger] order@[p] < deps@.len()
                &&& forall|p: int, q: int|
                    0 <= p < q < order@.len() ==> #[trigger] order@[p] != #[trigger] order@[q]
                &&& forall|p: int, j: int|
                    #![trigger deps@[order@[p] as int]@[j]]
                    0 <= p < order@.len() && 0 <= j < deps@[order@[p] as int]@.len() ==> {
                        let d = deps@[order@[p] as int]@[j] as int;
                        position@[d] < p && order@[position@[d] as int] == d
                    }
            },
            None => spec_order(as_int_rows(deps)).is_none(),
        },
{
    let n = deps.len();
    let ghost rows = as_int_rows(deps);
    let mut placed: Vec<bool> = Vec::new();
    let mut position: Vec<usize> = Vec::new();
    let mut i: usize = 0;
    while i < n
        invariant
            i <= n,
            placed@.len() == i,
            position@.len() == i,
            forall|x: int| 0 <= x < i ==> !#[trigger] placed@[x],
        decreases n - i,
    {
        placed.push(false);
        position.push(0);
        i += 1;
    }
    let mut order: Vec<usize> = Vec::new();
    let mut k: usize = 0;
    assert(as_ints(&order) =~= Seq::<int>::empty());
    while k < n
        invariant
            n == deps@.len(),
            rows == as_int_rows(deps),
            forall|i: int, j: int|
                0 <= i < deps@.len() && 0 <= j < deps@[i]@.len() ==> #[trigger] deps@[i]@[j]
                    < deps@.len(),
            k <= n,
            placed@.len() == n,
            position@.len() == n,
            order@.len() == k,
            order_prefix(rows, k as nat) == Some(as_ints(&order)),
            forall|x: int| 0 <= x < n ==> #[trigger] placed@[x] == as_ints(&order).contains(x),
            forall|p: int| 0 <= p < k ==> #[trigger] order@[p] < n,
            forall|p: int, q: int| 0 <= p < q < k ==> #[trigger] order@[p] != #[trigger] order@[q],
            forall|x: int|
                0 <= x < n && #[trigger] placed@[x] ==> position@[x] < k && order@[position@[x] as int]
                    == x,
            forall|p: int, j: int|
                #![trigger deps@[order@[p] as int]@[j]]
                0 <= p < k && 0 <= j < deps@[order@[p] as int]@.len() ==> {
                    let d = deps@[order@[p] as int]@[j] as int;
                    position@[d] < p && order@[position@[d] as int] == d
                },
        decreases n - k,
    {
        let ghost so_far = as_ints(&order);
        let mut i: usize = 0;
        let mut found = false;
        while i < n && !found
            invariant
                n == deps@.len(),
                rows == as_int_rows(deps),
                forall|i: int, j: int|
                    0 <= i < deps@.len() && 0 <= j < deps@[i]@.len() ==> #[trigger] deps@[i]@[j]
                        < deps@.len(),
                placed@.len() == n,
                so_far == as_ints(&order),
                forall|x: int| 0 <= x < n ==> #[trigger] placed@[x] == so_far.contains(x),
                i <= n,
                found ==> i < n && ready(rows, so_far, i as int),
                forall|x: int| 0 <= x < i ==> !ready(rows, so_far, x),
            decreases n - i, !found as int,
        {
            let ghost row = rows[i as int];
            assert(row == as_ints(&deps@[i as int]));
            if !placed[i] && all_placed(&deps[i], &placed) {
                proof {
                    assert forall|j: int| 0 <= j < row.len() implies so_far.contains(
                        #[trigger] row[j],
                    ) by {
                        assert(placed@[deps@[i as int]@[j] as int]);
                    }
                }
                found = true;
            } else {
                proof {
                    if !placed@[i as int] {
                        let j = choose|j: int|
                            0 <= j < deps@[i as int]@.len() && !placed@[#[trigger] deps@[i as int]@[j] as int];
                        assert(!so_far.contains(row[j]));
                    }
                }
                i += 1;
            }
        }
        proof {
            lemma_first_ready(rows, so_far, n as int);
        }
        if !found {
            proof {
                assert(order_prefix(rows, (k + 1) as nat).is_none());
                lemma_prefix_stays_none(rows, (k + 1) as nat, n as nat);
            }
            return None;
        }
        proof {
            assert(first_ready(rows, so_far, n as int) == Some(i as int));
            assert forall|x: int| 0 <= x < n implies so_far.push(i as int).contains(x) == (
            so_far.contains(x) || x == i) by {
                lemma_push_contains(so_far, i as int, x);
            }
        }
        let ghost old_order = order@;
        let ghost old_position = position@;
        let ghost old_placed = placed@;
        placed.set(i, true);
        position.set(i, k);
        order.push(i);
        proof {
            assert(as_ints(&order) =~= so_far.push(i as int));
            assert forall|p: int, q: int| 0 <= p < q < k + 1 implies #[trigger] order@[p]
                != #[trigger] order@[q] by {
                if q == k {
                    assert(so_far[p] == old_order[p]);
                    assert(!so_far.contains(i as int));
                }
            }
            assert forall|p: int, j: int|
                #![trigger deps@[order@[p] as int]@[j]]
                0 <= p < k + 1 && 0 <= j < deps@[order@[p] as int]@.len() implies {
                let d = deps@[order@[p] as int]@[j] as int;
                position@[d] < p && order@[position@[d] as int] == d
            } by {
                let d = deps@[order@[p] as int]@[j] as int;
                if p < k {
                    assert(order@[p] == old_order[p]);
                    assert(deps@[old_order[p] as int]@[j] == d);
                    assert(old_position[d] < p);
                    assert(d != i) by {
                        assert(old_order[old_position[d] as int] == d);
                        assert(so_far[old_position[d] as int] == d);
                        assert(so_far.contains(d));
                    }
                    assert(position@[d] == old_position[d]);
                    assert(order@[position@[d] as int] == old_order[old_position[d] as int]);
                } else {
                    assert(order@[p] == i);
                    assert(rows[i as int] == as_ints(&deps@[i as int]));
                    assert(rows[i as int][j] == d);
                    assert(so_far.contains(d));
                    assert(d != i);
                    assert(0 <= d < n);
                    assert(old_placed[d]);
                    assert(old_position[d] < k);
                    assert(position@[d] == old_position[d]);
                    assert(order@[position@[d] as int] == old_order[old_position[d] as int]);
                }
            }
        }
        k += 1;
    }
    Some((order, position))
}

impl PackageGraph {
    /// Checks a list of packages and puts it in resolution order.
    pub fn new(nodes: &Vec<PackageNode>) -> (r: Result<PackageGraph, GraphError>)
        ensures
            match r {
                Ok(g) => {
                    &&& versions_well_formed(nodes)
                    &&& !has_duplicate(keys_of(nodes))
                    &&& deps_known(nodes)
                    &&& spec_order(dep_indices(nodes)).is_some()
                    &&& g@ == graph_view(nodes)
                    &&& g.wf()
                },
                Err(GraphError::MalformedVersion) => !versions_well_formed(nodes),
                Err(GraphError::DuplicatePackage) => versions_well_formed(nodes) && has_duplicate(
                    keys_of(nodes),
                ),
                Err(GraphError::UnknownDependency) => versions_well_formed(nodes) && !has_duplicate(
                    keys_of(nodes),
                ) && !deps_known(nodes),
                Err(GraphError::DependencyCycle) => versions_well_formed(nodes) && !has_duplicate(
                    keys_of(nodes),
                ) && deps_known(nodes) && spec_order(dep_indices(nodes)).is_none(),
            },
    {
        if !versions_checked(nodes) {
            return Err(GraphError::MalformedVersion);
        }
        if duplicates_found(nodes) {
            return Err(GraphError::DuplicatePackage);
        }
        let deps = match deps_resolved(nodes) {
            None => {
                return Err(GraphError::UnknownDependency);
            },
            Some(d) => d,
        };
        assert(deps@.len() == nodes@.len()) by {
            assert(as_int_rows(&deps).len() == dep_indices(nodes).len());
        }
        let (order, position) = match order_of(&deps) {
            None => {
                return Err(GraphError::DependencyCycle);
            },
            Some(pair) => pair,
        };
        let n = nodes.len();
        let ghost ord = as_ints(&order);
        let mut packages: Vec<Package> = Vec::new();
        let mut k: usize = 0;
        while k < n
            invariant
                n == nodes@.len(),
                deps@.len() == n,
                order@.len() == n,
                position@.len() == n,
                ord == as_ints(&order),
                as_int_rows(&deps) == dep_indices(nodes),
                versions_well_formed(nodes),
                forall|p: int| 0 <= p < order@.len() ==> #[trigger] order@[p] < n,
                forall|p: int, q: int|
                    0 <= p < q < order@.len() ==> #[trigger] order@[p] != #[trigger] order@[q],
                forall|p: int, j: int|
                    #![trigger deps@[order@[p] as int]@[j]]
                    0 <= p < order@.len() && 0 <= j < deps@[order@[p] as int]@.len() ==> {
                        let d = deps@[order@[p] as int]@[j] as int;
                        position@[d] < p && order@[position@[d] as int] == d
                    },
                forall|i: int, j: int|
                    0 <= i < deps@.len() && 0 <= j < deps@[i]@.len() ==> #[trigger] deps@[i]@[j] < n,
                k <= n,
                packages@.len() == k,
                forall|x: int, j: int|
                    0 <= x < k && 0 <= j < packages@[x].deps@.len() ==> #[trigger] packages@[x].deps@[j]
                        < x,
                forall|x: int| 0 <= x < k ==> (#[trigger] packages@[x]).version@.well_formed(),
                forall|x: int|
                    #![trigger packages@[x]]
                    0 <= x < k ==> {
                        let p = packages@[x];
                        let i = ord[x];
                        &&& 0 <= i < nodes@.len()
                        &&& p.index == i
                        &&& p.name@ == nodes@[i].name@
                        &&& p.version@ == nodes@[i].version@
                        &&& p.is_root == nodes@[i].is_root
                        &&& p.is_first_party == nodes@[i].is_first_party
                        &&& p.deps@.len() == nodes@[i].deps@.len()
                        &&& forall|j: int|
                            0 <= j < p.deps@.len() ==> 0 <= #[trigger] p.deps@[j] < ord.len()
                                && ord[p.deps@[j] as int] == dep_indices(nodes)[i][j]
                    },
            decreases n - k,
        {
            let i = order[k];
            let node = &nodes[i];
            let m = deps[i].len();
            assert(as_ints(&deps@[i as int]) == dep_indices(nodes)[i as int]) by {
                assert(as_int_rows(&deps)[i as int] == as_ints(&deps@[i as int]));
            }
            assert(m == node.deps@.len()) by {
                assert(as_ints(&deps@[i as int]).len() == m);
            }
            let mut places: Vec<usize> = Vec::new();
            let mut j: usize = 0;
            while j < m
                invariant
                    n == nodes@.len(),
                    deps@.len() == n,
                    order@.len() == n,
                    position@.len() == n,
                    ord == as_ints(&order),
                    k < n,
                    i == order@[k as int],
                    i < n,
                    m == deps@[i as int]@.len(),
                    as_ints(&deps@[i as int]) == dep_indices(nodes)[i as int],
                    forall|p: int, j: int|
                        #![trigger deps@[order@[p] as int]@[j]]
                        0 <= p < order@.len() && 0 <= j < deps@[order@[p] as int]@.len() ==> {
                            let d = deps@[order@[p] as int]@[j] as int;
                            position@[d] < p && order@[position@[d] as int] == d
                        },
                    forall|a: int, b: int|
                        0 <= a < deps@.len() && 0 <= b < deps@[a]@.len() ==> #[trigger] deps@[a]@[b]
                            < n,
                    j <= m,
                    places@.len() == j,
                    forall|b: int|
                        0 <= b < j ==> #[trigger] places@[b] < k && ord[places@[b] as int]
                            == dep_indices(nodes)[i as int][b],
                decreases m - j,
            {
                let d = deps[i][j];
                assert(deps@[order@[k as int] as int]@[j as int] == d);
                assert(as_ints(&deps@[i as int])[j as int] == d);
                places.push(position[d]);
                j += 1;
            }
            packages.push(
                Package {
                    name: node.name.clone(),
                    version: node.version.duplicate(),
                    is_root: node.is_root,
                    is_first_party: node.is_first_party,
                    deps: places,
                    index: i,
                },
            );
            k += 1;
        }
        let graph = PackageGraph { packages };
        proof {
            assert(ord == spec_order(dep_indices(nodes)).unwrap());
            let goal = graph_view(nodes);
            assert forall|x: int| 0 <= x < n implies graph@.packages[x] == goal.packages[x] by {
                let p = graph.packages@[x];
                let i = ord[x];
                assert forall|j: int| 0 <= j < p.deps@.len() implies p@.deps[j]
                    == goal.packages[x].deps[j] by {
                    let d = dep_indices(nodes)[i][j];
                    let at = p.deps@[j] as int;
                    assert(ord[at] == d);
                    lemma_find(ord, d);
                    let found = spec_find(ord, d).unwrap();
                    if found < at {
                        assert(order@[found] != order@[at]);
                    }
                }
                assert(p@.deps =~= goal.packages[x].deps);
            }
            assert(graph@.packages =~= goal.packages);
            assert(graph@.wf()) by {
                assert forall|k: int, j: int|
                    0 <= k < graph@.packages.len() && 0 <= j < graph@.packages[k].deps.len() implies 0
                    <= #[trigger] graph@.packages[k].deps[j] < k by {
                    assert(graph.packages@[k].deps@[j] < k);
                }
            }
        }
        Ok(graph)
    }
}

/// The list of packages has none of the faults of a graph.
pub open spec fn sound(nodes: &Vec<PackageNode>) -> bool {
    &&& versions_well_formed(nodes)
    &&& !has_duplicate(keys_of(nodes))
    &&& deps_known(nodes)
    &&& spec_order(dep_indices(nodes)).is_some()
}

/// What the package at place `p` of the order depends on in the `j`th place
/// stands before it in the order.
pub open spec fn placed_before(order: Seq<int>, deps: Seq<Seq<int>>, p: int, j: int) -> bool {
    exists|q: int| 0 <= q < p && #[trigger] order[q] == deps[order[p]][j]
}

/// The first `k` packages of the order are packages of the list, no two the
/// same, and each has all it depends on before it.
pub proof fn lemma_order_prefix(deps: Seq<Seq<int>>, k: nat)
    requires
        order_prefix(deps, k).is_some(),
    ensures
        order_prefix(deps, k).unwrap().len() == k,
        forall|p: int|
            0 <= p < k ==> 0 <= #[trigger] order_prefix(deps, k).unwrap()[p] < deps.len(),
        forall|p: int, q: int|
            0 <= p < q < k ==> #[trigger] order_prefix(deps, k).unwrap()[p]
                != #[trigger] order_prefix(deps, k).unwrap()[q],
        forall|p: int, j: int|
            0 <= p < k && 0 <= j < deps[order_prefix(deps, k).unwrap()[p]].len()
                ==> #[trigger] placed_before(order_prefix(deps, k).unwrap(), deps, p, j),
    decreases k,
{
    if k > 0 {
        let before = order_prefix(deps, (k - 1) as nat).unwrap();
        lemma_order_prefix(deps, (k - 1) as nat);
        lemma_first_ready(deps, before, deps.len() as int);
        let i = first_ready(deps, before, deps.len() as int).unwrap();
        let order = order_prefix(deps, k).unwrap();
        assert(order == before.push(i));
        assert forall|p: int, q: int| 0 <= p < q < k implies #[trigger] order[p]
            != #[trigger] order[q] by {
            if q == k - 1 {
                assert(before[p] == order[p]);
                assert(!before.contains(i));
            }
        }
        assert forall|p: int, j: int|
            0 <= p < k && 0 <= j < deps[order[p]].len() implies #[trigger] placed_before(
            order,
            deps,
            p,
            j,
        ) by {
            if p < k - 1 {
                assert(order[p] == before[p]);
                assert(placed_before(before, deps, p, j));
                let q = choose|q: int| 0 <= q < p && #[trigger] before[q] == deps[before[p]][j];
                assert(order[q] == deps[order[p]][j]);
            } else {
                assert(before.contains(deps[i][j]));
                let q = choose|q: int| 0 <= q < before.len() && before[q] == deps[i][j];
                assert(order[q] == deps[order[p]][j]);
            }
        }
    }
}

/// The graph of a sound list holds every package of the list once, each
/// after the packages it depends on.
pub proof fn lemma_graph_view(nodes: &Vec<PackageNode>)
    requires
        sound(nodes),
    ensures
        graph_view(nodes).wf(),
        graph_view(nodes).packages.len() == nodes@.len(),
        forall|k: int|
            #![trigger graph_view(nodes).packages[k]]
            0 <= k < nodes@.len() ==> {
                let i = spec_order(dep_indices(nodes)).unwrap()[k];
                &&& 0 <= i < nodes@.len()
                &&& graph_view(nodes).packages[k].index == i
                &&& graph_view(nodes).packages[k].name == nodes@[i].name@
                &&& graph_view(nodes).packages[k].version == nodes@[i].version@
                &&& graph_view(nodes).packages[k].is_first_party == nodes@[i].is_first_party
                &&& graph_view(nodes).packages[k].is_root == nodes@[i].is_root
            },
{
    let deps = dep_indices(nodes);
    let order = spec_order(deps).unwrap();
    let g = graph_view(nodes);
    lemma_order_prefix(deps, deps.len());
    assert forall|k: int, j: int|
        0 <= k < g.packages.len() && 0 <= j < g.packages[k].deps.len() implies 0
        <= #[trigger] g.packages[k].deps[j] < k by {
        let i = order[k];
        let d = deps[i][j];
        assert(placed_before(order, deps, k, j));
        let q = choose|q: int| 0 <= q < k && #[trigger] order[q] == deps[order[k]][j];
        lemma_find(order, d);
    }
    assert forall|k: int| 0 <= k < g.packages.len() implies (
    #[trigger] g.packages[k]).version.well_formed() by {
        assert(nodes@[order[k]].version@.well_formed());
    }
}

/// The packages that are not in `placed` form a knot: there is one, and
/// each of them depends on one of them.
pub open spec fn knotted(deps: Seq<Seq<int>>, placed: Seq<int>) -> bool {
    &&& exists|i: int| 0 <= i < deps.len() && !placed.contains(i)
    &&& forall|i: int|
        0 <= i < deps.len() && !placed.contains(i) ==> exists|j: int|
            0 <= j < deps[i].len() && !placed.contains(#[trigger] deps[i][j])
}

/// A sequence shorter than `n` misses a number below `n`.
proof fn lemma_misses_one(o: Seq<int>, n: nat)
    requires
        o.len() < n,
    ensures
        exists|i: int| 0 <= i < n && !o.contains(i),
{
    if forall|i: int| 0 <= i < n ==> o.contains(i) {
        let range = vstd::set_lib::set_int_range(0, n as int);
        vstd::set_lib::lemma_int_range(0, n as int);
        o.lemma_cardinality_of_set();
        vstd::seq_lib::seq_to_set_is_finite(o);
        assert(range.subset_of(o.to_set())) by {
            assert forall|i: int| range.contains(i) implies o.to_set().contains(i) by {
                assert(o.contains(i));
            }
        }
        vstd::set_lib::lemma_len_subset(range, o.to_set());
    }
}

proof fn lemma_where_stuck(deps: Seq<Seq<int>>, k: nat) -> (at: nat)
    requires
        order_prefix(deps, k).is_none(),
    ensures
        at < k,
        order_prefix(deps, at).is_some(),
        first_ready(deps, order_prefix(deps, at).unwrap(), deps.len() as int).is_none(),
    decreases k,
{
    if order_prefix(deps, (k - 1) as nat).is_none() {
        lemma_where_stuck(deps, (k - 1) as nat)
    } else {
        (k - 1) as nat
    }
}

/// Where the packages cannot be put in order, some of them form a knot: a
/// set of packages each of which depends on another of the set.
pub proof fn lemma_no_order_is_a_knot(deps: Seq<Seq<int>>)
    requires
        spec_order(deps).is_none(),
    ensures
        exists|placed: Seq<int>| knotted(deps, placed),
{
    let at = lemma_where_stuck(deps, deps.len());
    let placed = order_prefix(deps, at).unwrap();
    lemma_order_prefix(deps, at);
    lemma_first_ready(deps, placed, deps.len() as int);
    lemma_misses_one(placed, deps.len());
    assert forall|i: int| 0 <= i < deps.len() && !placed.contains(i) implies exists|j: int|
        0 <= j < deps[i].len() && !placed.contains(#[trigger] deps[i][j]) by {
        assert(!ready(deps, placed, i));
    }
    assert(knotted(deps, placed));
}

} // verus!
