//! Sample graphs and sample files to try resolution on: a simple tree of five
//! packages, a complex graph of ten, and for either the files of a project
//! that starts out, of one without exemptions, and of one that has audited
//! every third-party package in full. The files use four criteria,
//! `strong-reviewed` which implies `reviewed` which implies `weak-reviewed`,
//! and `fuzzed`, with `reviewed` as the default.

use crate::check::files_valid;
use crate::format::{
    full_audit, violation, AuditEntry, AuditKind, AuditsFile, ConfigFile, CriteriaEntry,
    ImportsFile, PolicyEntry, StableMap, UnauditedDependency,
};
use crate::graph::{
    duplicates_found, has_duplicate, keys_of, EdgeKind, PackageEdge, PackageNode,
};
use crate::init::{init_config, init_exemptions, init_files, lemma_init_exemptions};
use crate::text::{find, lemma_find, views};
use crate::version::{Version, VersionReq, VersionView};
use vstd::prelude::*;

verus! {

/// The major number of the versions of the sample packages: some room above
/// and below.
pub const DEFAULT_VER: u64 = 10;

/// The name of the default criterion of the sample files.
pub const DEFAULT_CRIT: &'static str = "reviewed";

/// The default criterion of the sample files.
pub open spec fn default_crit() -> Seq<char> {
    "reviewed"@
}

/// The release `major.0.0`.
pub open spec fn release(major: u64) -> VersionView {
    VersionView {
        major,
        minor: 0,
        patch: 0,
        pre: Seq::<char>::empty(),
        build: Seq::<char>::empty(),
    }
}

/// The edge is a normal dependency on the package `name` at `major.0.0`.
pub open spec fn edge_is(e: PackageEdge, name: Seq<char>, major: u64) -> bool {
    &&& e.id.name@ == name
    &&& e.id.version@ == release(major)
    &&& e.kind == EdgeKind::Normal
}

/// The node is the package `name` at `major.0.0` with these flags and these
/// dependencies, in order.
pub open spec fn node_is(
    n: PackageNode,
    name: Seq<char>,
    major: u64,
    root: bool,
    first_party: bool,
    deps: Seq<(Seq<char>, u64)>,
) -> bool {
    &&& n.name@ == name
    &&& n.version@ == release(major)
    &&& n.is_root == root
    &&& n.is_first_party == first_party
    &&& n.deps@.len() == deps.len()
    &&& forall|j: int| 0 <= j < deps.len() ==> edge_is(#[trigger] n.deps@[j], deps[j].0, deps[j].1)
}

/// The release `major.0.0`.
pub fn ver(major: u64) -> (v: Version)
    ensures
        v@ == release(major),
        v@.well_formed(),
{
    Version::new(major, 0, 0)
}

/// A dependency on the package `name` at the default version.
pub fn dep(name: &str) -> (e: PackageEdge)
    ensures
        edge_is(e, name@, DEFAULT_VER),
{
    dep_ver(name, DEFAULT_VER)
}

/// A dependency on the package `name` at `version.0.0`.
pub fn dep_ver(name: &str, version: u64) -> (e: PackageEdge)
    ensures
        edge_is(e, name@, version),
{
    PackageEdge::normal(name.to_owned(), ver(version))
}

/// A violation that fails the weakest of the sample criteria.
pub fn violation_hard(version: VersionReq) -> (e: AuditEntry)
    ensures
        e.criteria@ == "weak-reviewed"@,
        e.who.is_none(),
        e.notes.is_none(),
        e.kind matches AuditKind::Violation { violation: r } && r == version,
{
    violation(version, "weak-reviewed")
}

/// The package `name` at `major.0.0` with these flags and dependencies.
fn mock_package(name: &str, major: u64, root: bool, first_party: bool, deps: Vec<PackageEdge>) -> (n:
    PackageNode)
    ensures
        n.name@ == name@,
        n.version@ == release(major),
        n.is_root == root,
        n.is_first_party == first_party,
        n.deps == deps,
{
    PackageNode {
        name: name.to_owned(),
        version: ver(major),
        is_root: root,
        is_first_party: first_party,
        deps,
    }
}

/// The address of the registry, as the source of a third-party package.
pub open spec fn registry() -> Seq<char> {
    "registry+https://github.com/rust-lang/crates.io-index"@
}

/// A graph to try resolution on.
pub struct MockMetadata {
    pub packages: Vec<PackageNode>,
}

/// The packages of the simple tree.
pub open spec fn is_simple(nodes: Seq<PackageNode>) -> bool {
    &&& nodes.len() == 5
    &&& node_is(nodes[0], "root-package"@, 10, true, true, seq![("first-party"@, 10u64)])
    &&& node_is(
        nodes[1],
        "first-party"@,
        10,
        false,
        true,
        seq![("third-party1"@, 10u64), ("third-party2"@, 10u64)],
    )
    &&& node_is(
        nodes[2],
        "third-party1"@,
        10,
        false,
        false,
        seq![("transitive-third-party1"@, 10u64)],
    )
    &&& node_is(nodes[3], "third-party2"@, 10, false, false, seq![])
    &&& node_is(nodes[4], "transitive-third-party1"@, 10, false, false, seq![])
}

/// The packages of the complex graph.
pub open spec fn is_complex(nodes: Seq<PackageNode>) -> bool {
    &&& nodes.len() == 10
    &&& node_is(
        nodes[0],
        "rootA"@,
        10,
        true,
        true,
        seq![("firstA"@, 10u64), ("firstAB"@, 10u64)],
    )
    &&& node_is(
        nodes[1],
        "rootB"@,
        10,
        true,
        true,
        seq![("firstB"@, 10u64), ("firstAB"@, 10u64), ("firstB-nodeps"@, 10u64)],
    )
    &&& node_is(
        nodes[2],
        "firstA"@,
        10,
        false,
        true,
        seq![("thirdA"@, 10u64), ("third-core"@, 5u64)],
    )
    &&& node_is(nodes[3], "firstAB"@, 10, false, true, seq![("thirdAB"@, 10u64)])
    &&& node_is(nodes[4], "firstB"@, 10, false, true, seq![("third-core"@, 10u64)])
    &&& node_is(nodes[5], "firstB-nodeps"@, 10, false, true, seq![])
    &&& node_is(nodes[6], "thirdA"@, 10, false, false, seq![("third-core"@, 10u64)])
    &&& node_is(nodes[7], "thirdAB"@, 10, false, false, seq![("third-core"@, 10u64)])
    &&& node_is(nodes[8], "third-core"@, 10, false, false, seq![])
    &&& node_is(nodes[9], "third-core"@, 5, false, false, seq![])
}

impl MockMetadata {
    /// A simple dependency tree to test basic functionality on.
    ///
    /// ```text
    ///                  root-package
    ///                        |
    ///                  first-party
    ///                 /           \
    ///        third-party1       third-party2
    ///             |
    ///   transitive-third-party1
    /// ```
    pub fn simple() -> (mock: MockMetadata)
        ensures
            is_simple(mock.packages@),
    {
        let mut packages: Vec<PackageNode> = Vec::new();
        packages.push(mock_package("root-package", DEFAULT_VER, true, true, vec![dep("first-party")]));
        packages.push(
            mock_package(
                "first-party",
                DEFAULT_VER,
                false,
                true,
                vec![dep("third-party1"), dep("third-party2")],
            ),
        );
        packages.push(
            mock_package(
                "third-party1",
                DEFAULT_VER,
                false,
                false,
                vec![dep("transitive-third-party1")],
            ),
        );
        packages.push(mock_package("third-party2", DEFAULT_VER, false, false, Vec::new()));
        packages.push(
            mock_package("transitive-third-party1", DEFAULT_VER, false, false, Vec::new()),
        );
        MockMetadata { packages }
    }

    /// A complex dependency graph to test corner cases on: `firstAB` is
    /// shared between two roots, `firstB-nodeps` has no third-party
    /// dependency, and `third-core` is in the graph in two versions.
    ///
    /// ```text
    ///               rootA                rootB
    ///              -------       ---------------------
    ///             /       \     /          |          \
    ///          firstA     firstAB       firstB     firstB-nodeps
    ///         /      \         \           |
    ///        /      thirdA    thirdAB      +
    ///       /           \        |        /
    ///  third-core:v5     third-core:v10
    /// ```
    pub fn complex() -> (mock: MockMetadata)
        ensures
            is_complex(mock.packages@),
    {
        let mut packages: Vec<PackageNode> = Vec::new();
        packages.push(
            mock_package("rootA", DEFAULT_VER, true, true, vec![dep("firstA"), dep("firstAB")]),
        );
        packages.push(
            mock_package(
                "rootB",
                DEFAULT_VER,
                true,
                true,
                vec![dep("firstB"), dep("firstAB"), dep("firstB-nodeps")],
            ),
        );
        packages.push(
            mock_package(
                "firstA",
                DEFAULT_VER,
                false,
                true,
                vec![dep("thirdA"), dep_ver("third-core", 5)],
            ),
        );
        packages.push(mock_package("firstAB", DEFAULT_VER, false, true, vec![dep("thirdAB")]));
        packages.push(mock_package("firstB", DEFAULT_VER, false, true, vec![dep("third-core")]));
        packages.push(mock_package("firstB-nodeps", DEFAULT_VER, false, true, Vec::new()));
        packages.push(mock_package("thirdA", DEFAULT_VER, false, false, vec![dep("third-core")]));
        packages.push(mock_package("thirdAB", DEFAULT_VER, false, false, vec![dep("third-core")]));
        packages.push(mock_package("third-core", DEFAULT_VER, false, false, Vec::new()));
        packages.push(mock_package("third-core", 5, false, false, Vec::new()));
        MockMetadata { packages }
    }

    /// The graph of the packages, or `None` where two of them have the same
    /// name and version.
    pub fn new(packages: Vec<PackageNode>) -> (r: Option<MockMetadata>)
        ensures
            r.is_some() == !has_duplicate(keys_of(&packages)),
            r matches Some(mock) ==> mock.packages == packages,
    {
        if duplicates_found(&packages) {
            None
        } else {
            Some(MockMetadata { packages })
        }
    }

    /// The source of a package as package metadata names it: the registry
    /// for a third-party package, none for a first-party one.
    pub fn source(package: &PackageNode) -> (r: Option<String>)
        ensures
            match r {
                Some(text) => !package.is_first_party && text@ == registry(),
                None => package.is_first_party,
            },
    {
        if package.is_first_party {
            None
        } else {
            Some("registry+https://github.com/rust-lang/crates.io-index".to_owned())
        }
    }

    /// The packages of the graph as resolution reads them.
    pub fn metadata(self) -> (nodes: Vec<PackageNode>)
        ensures
            nodes == self.packages,
    {
        self.packages
    }
}

/// The entry of the criteria table implies `implies` and is described by
/// `description`.
pub open spec fn criterion_is(
    e: CriteriaEntry,
    implies: Seq<Seq<char>>,
    description: Seq<char>,
) -> bool {
    &&& views(&e.implies) == implies
    &&& match e.description {
        Some(text) => text@ == description,
        None => false,
    }
    &&& e.description_url.is_none()
}

/// The criteria table of the sample files: `strong-reviewed` implies
/// `reviewed`, which implies `weak-reviewed`; `fuzzed` stands alone.
pub open spec fn mock_criteria(table: &StableMap<CriteriaEntry>) -> bool {
    &&& table.keys() == seq!["strong-reviewed"@, "reviewed"@, "weak-reviewed"@, "fuzzed"@]
    &&& criterion_is(table.entries@[0].1, seq!["reviewed"@], "strongly reviewed"@)
    &&& criterion_is(table.entries@[1].1, seq!["weak-reviewed"@], "reviewed"@)
    &&& criterion_is(table.entries@[2].1, Seq::empty(), "weakly reviewed"@)
    &&& criterion_is(table.entries@[3].1, Seq::empty(), "fuzzed"@)
}

/// The policy that the sample files give to a root: the default criterion
/// for itself and for its build, nothing for single dependencies, no targets.
pub open spec fn root_policy(p: PolicyEntry) -> bool {
    &&& views(&p.criteria) == seq![default_crit()]
    &&& views(&p.build_and_dev_criteria) == seq![default_crit()]
    &&& p.dependency_criteria.entries@.len() == 0
    &&& p.targets.is_none()
    &&& p.build_and_dev_targets.is_none()
}

/// One of the first `upto` packages is a root called `name`.
pub open spec fn root_named(nodes: &Vec<PackageNode>, upto: int, name: Seq<char>) -> bool {
    exists|i: int| 0 <= i < upto && (#[trigger] nodes@[i]).is_root && nodes@[i].name@ == name
}

/// The policies of the sample files for the first `upto` packages: a valid
/// map that holds the policy of a root under the name of every root, and
/// nothing else.
pub open spec fn mock_policies(
    policy: &StableMap<PolicyEntry>,
    nodes: &Vec<PackageNode>,
    upto: int,
) -> bool {
    &&& policy.wf()
    &&& forall|p: int|
        0 <= p < policy.entries@.len() ==> root_policy((#[trigger] policy.entries@[p]).1)
    &&& forall|name: Seq<char>| #[trigger]
        policy.spec_get(name).is_some() == root_named(nodes, upto, name)
}

/// The configuration of the sample files but for its exemptions: the default
/// criterion `reviewed`, no imports, and for every root its policy.
pub open spec fn mock_config(config: &ConfigFile, nodes: &Vec<PackageNode>) -> bool {
    &&& config.default_criteria@ == default_crit()
    &&& config.imports.entries@.len() == 0
    &&& mock_policies(&config.policy, nodes, nodes@.len() as int)
}

/// The list holds one exemption for each of `versions`, in order, each at
/// the default criterion and open to suggestions.
pub open spec fn exempts_by_default(
    list: &Vec<UnauditedDependency>,
    versions: Seq<VersionView>,
) -> bool {
    &&& list@.len() == versions.len()
    &&& forall|i: int|
        #![trigger list@[i]]
        0 <= i < list@.len() ==> {
            &&& list@[i].version@ == versions[i]
            &&& list@[i].criteria@ == default_crit()
            &&& list@[i].notes.is_none()
            &&& list@[i].suggest
        }
}

/// The exemptions of the sample files of a project that starts out: those
/// that [`init_files`] writes, at the default criterion.
pub open spec fn mock_exemptions(config: &ConfigFile, nodes: &Vec<PackageNode>) -> bool {
    let (names, lists) = init_exemptions(nodes, nodes@.len());
    &&& config.unaudited.keys() == names
    &&& forall|u: int|
        0 <= u < config.unaudited.entries@.len() ==> exempts_by_default(
            &(#[trigger] config.unaudited.entries@[u]).1,
            lists[u],
        )
}

/// The entry is a full audit of `version` at the default criterion that
/// leaves the dependencies to the default.
pub open spec fn audit_in_full(e: AuditEntry, version: VersionView) -> bool {
    &&& e.criteria@ == default_crit()
    &&& e.who.is_none()
    &&& e.notes.is_none()
    &&& match e.kind {
        AuditKind::Full { version: v, dependency_criteria } => v@ == version
            && dependency_criteria.entries@.len() == 0,
        _ => false,
    }
}

/// The list holds one full audit for each of `versions`, in order.
pub open spec fn audits_in_full(list: &Vec<AuditEntry>, versions: Seq<VersionView>) -> bool {
    &&& list@.len() == versions.len()
    &&& forall|i: int| 0 <= i < list@.len() ==> audit_in_full(#[trigger] list@[i], versions[i])
}

/// The audits of the sample files of a project that has audited everything:
/// under the name of every third-party package, in the order in which the
/// names first come, one full audit for each version of that name, in the
/// order of the packages.
pub open spec fn mock_audits(audits: &AuditsFile, nodes: &Vec<PackageNode>) -> bool {
    let (names, lists) = init_exemptions(nodes, nodes@.len());
    &&& audits.audits.keys() == names
    &&& forall|u: int|
        0 <= u < audits.audits.entries@.len() ==> audits_in_full(
            &(#[trigger] audits.audits.entries@[u]).1,
            lists[u],
        )
}

fn one_name(name: &str) -> (r: Vec<String>)
    ensures
        views(&r) == seq![name@],
{
    let mut r: Vec<String> = Vec::new();
    r.push(name.to_owned());
    assert(views(&r) =~= seq![name@]);
    r
}

fn criterion(implies: Vec<String>, description: &str) -> (e: CriteriaEntry)
    ensures
        criterion_is(e, views(&implies), description@),
{
    CriteriaEntry { implies, description: Some(description.to_owned()), description_url: None }
}

/// The criteria table of the sample files.
fn criteria_table() -> (table: StableMap<CriteriaEntry>)
    ensures
        mock_criteria(&table),
        table.wf(),
{
    let mut entries: Vec<(String, CriteriaEntry)> = Vec::new();
    entries.push(("strong-reviewed".to_owned(), criterion(one_name("reviewed"), "strongly reviewed")));
    entries.push(("reviewed".to_owned(), criterion(one_name("weak-reviewed"), "reviewed")));
    let none: Vec<String> = Vec::new();
    assert(views(&none) =~= Seq::<Seq<char>>::empty());
    entries.push(("weak-reviewed".to_owned(), criterion(none, "weakly reviewed")));
    let none: Vec<String> = Vec::new();
    assert(views(&none) =~= Seq::<Seq<char>>::empty());
    entries.push(("fuzzed".to_owned(), criterion(none, "fuzzed")));
    let table = StableMap { entries };
    proof {
        reveal_strlit("strong-reviewed");
        reveal_strlit("reviewed");
        reveal_strlit("weak-reviewed");
        reveal_strlit("fuzzed");
        assert(table.keys() =~= seq![
            "strong-reviewed"@,
            "reviewed"@,
            "weak-reviewed"@,
            "fuzzed"@,
        ]);
        assert("strong-reviewed"@.len() == 15 && "reviewed"@.len() == 8 && "weak-reviewed"@.len()
            == 13 && "fuzzed"@.len() == 6);
    }
    table
}

/// For every root its policy.
fn root_policies(nodes: &Vec<PackageNode>) -> (policy: StableMap<PolicyEntry>)
    ensures
        mock_policies(&policy, nodes, nodes@.len() as int),
        forall|p: int|
            0 <= p < policy.entries@.len() ==> (
            #[trigger] policy.entries@[p]).1.dependency_criteria.wf(),
{
    let n = nodes.len();
    let mut policy: StableMap<PolicyEntry> = StableMap::new();
    let mut k: usize = 0;
    proof {
        lemma_find(policy.keys(), Seq::<char>::empty());
        assert forall|name: Seq<char>| #[trigger]
            policy.spec_get(name).is_some() == root_named(nodes, 0, name) by {
            lemma_find(policy.keys(), name);
        }
    }
    while k < n
        invariant
            n == nodes@.len(),
            k <= n,
            mock_policies(&policy, nodes, k as int),
            forall|p: int|
                0 <= p < policy.entries@.len() ==> (
                #[trigger] policy.entries@[p]).1.dependency_criteria.wf(),
        decreases n - k,
    {
        let ghost before = policy;
        if nodes[k].is_root {
            let entry = PolicyEntry {
                criteria: one_name("reviewed"),
                build_and_dev_criteria: one_name("reviewed"),
                dependency_criteria: StableMap::new(),
                targets: None,
                build_and_dev_targets: None,
            };
            assert(root_policy(entry));
            let name = nodes[k].name.clone();
            proof {
                lemma_find(policy.keys(), name@);
            }
            policy.insert(name, entry);
            proof {
                assert forall|p: int| 0 <= p < policy.entries@.len() implies root_policy(
                    (#[trigger] policy.entries@[p]).1,
                ) && policy.entries@[p].1.dependency_criteria.wf() by {
                    if before.spec_position(nodes@[k as int].name@).is_some() {
                        if p != before.spec_position(nodes@[k as int].name@).unwrap() {
                            assert(policy.entries@[p] == before.entries@[p]);
                        }
                    } else {
                        if p < before.entries@.len() {
                            assert(policy.entries@[p] == before.entries@[p]);
                        }
                    }
                }
            }
        }
        proof {
            assert forall|name: Seq<char>| #[trigger]
                policy.spec_get(name).is_some() == root_named(nodes, k + 1, name) by {
                if root_named(nodes, k + 1, name) {
                    let i = choose|i: int|
                        0 <= i < k + 1 && (#[trigger] nodes@[i]).is_root && nodes@[i].name@ == name;
                    if i < k {
                        assert(root_named(nodes, k as int, name));
                    }
                }
                if policy.spec_get(name).is_some() {
                    if nodes@[k as int].is_root && nodes@[k as int].name@ == name {
                        let _ = nodes@[k as int];
                    } else {
                        assert(before.spec_get(name).is_some());
                        assert(root_named(nodes, k as int, name));
                        let i = choose|i: int|
                            0 <= i < k && (#[trigger] nodes@[i]).is_root && nodes@[i].name@
                                == name;
                        assert(0 <= i < k + 1);
                    }
                }
            }
        }
        k += 1;
    }
    policy
}

/// The exemptions of [`init_files`], at the default criterion.
fn default_exemptions(config: &ConfigFile, nodes: &Vec<PackageNode>) -> (r: StableMap<
    Vec<UnauditedDependency>,
>)
    requires
        init_config(config, nodes),
    ensures
        r.keys() == init_exemptions(nodes, nodes@.len()).0,
        forall|u: int|
            0 <= u < r.entries@.len() ==> exempts_by_default(
                &(#[trigger] r.entries@[u]).1,
                init_exemptions(nodes, nodes@.len()).1[u],
            ),
        r.wf(),
{
    let ghost goal = init_exemptions(nodes, nodes@.len());
    let count = config.unaudited.entries.len();
    let mut entries: Vec<(String, Vec<UnauditedDependency>)> = Vec::new();
    let mut u: usize = 0;
    assert(config.unaudited.keys().len() == count);
    while u < count
        invariant
            init_config(config, nodes),
            goal == init_exemptions(nodes, nodes@.len()),
            count == config.unaudited.entries@.len(),
            count == goal.0.len(),
            u <= count,
            entries@.len() == u,
            forall|x: int|
                #![trigger entries@[x]]
                0 <= x < u ==> entries@[x].0@ == goal.0[x] && exempts_by_default(
                    &entries@[x].1,
                    goal.1[x],
                ),
        decreases count - u,
    {
        let source = &config.unaudited.entries[u].1;
        assert(crate::init::exempts(&config.unaudited.entries@[u as int].1, goal.1[u as int]));
        assert(config.unaudited.keys()[u as int] == goal.0[u as int]);
        let len = source.len();
        let mut list: Vec<UnauditedDependency> = Vec::new();
        let mut i: usize = 0;
        while i < len
            invariant
                len == source@.len(),
                crate::init::exempts(source, goal.1[u as int]),
                i <= len,
                list@.len() == i,
                forall|x: int|
                    #![trigger list@[x]]
                    0 <= x < i ==> {
                        &&& list@[x].version@ == goal.1[u as int][x]
                        &&& list@[x].criteria@ == default_crit()
                        &&& list@[x].notes.is_none()
                        &&& list@[x].suggest
                    },
            decreases len - i,
        {
            let ghost _ = source@[i as int];
            list.push(
                UnauditedDependency {
                    version: source[i].version.duplicate(),
                    criteria: "reviewed".to_owned(),
                    notes: None,
                    suggest: true,
                },
            );
            i += 1;
        }
        entries.push((config.unaudited.entries[u].0.clone(), list));
        u += 1;
    }
    let r = StableMap { entries };
    proof {
        lemma_init_exemptions(nodes, nodes@.len());
        assert(r.keys() =~= goal.0);
    }
    r
}

/// The files of a sample project that starts out: the files that
/// [`init_files`] writes, with the sample criteria in place of the built-in
/// ones. The criteria table is that of [`mock_criteria`], the default
/// criterion is `reviewed`, every root has the policy of [`root_policy`], and
/// every third-party package is exempted at `reviewed`.
pub fn files_inited(metadata: &Vec<PackageNode>) -> (r: (ConfigFile, AuditsFile, ImportsFile))
    ensures
        mock_config(&r.0, metadata),
        mock_exemptions(&r.0, metadata),
        mock_criteria(&r.1.criteria),
        r.1.audits.entries@.len() == 0,
        r.2.audits.entries@.len() == 0,
        files_valid(&r.0, &r.1, &r.2),
{
    let (config, audits, imports) = init_files(metadata);
    let config = ConfigFile {
        default_criteria: "reviewed".to_owned(),
        imports: StableMap::new(),
        unaudited: default_exemptions(&config, metadata),
        policy: root_policies(metadata),
    };
    let audits = AuditsFile { criteria: criteria_table(), audits: audits.audits };
    (config, audits, imports)
}

/// The files of a sample project without exemptions: those of
/// [`files_inited`] with every exemption taken out.
pub fn files_no_unaudited(metadata: &Vec<PackageNode>) -> (r: (ConfigFile, AuditsFile, ImportsFile))
    ensures
        mock_config(&r.0, metadata),
        r.0.unaudited.entries@.len() == 0,
        mock_criteria(&r.1.criteria),
        r.1.audits.entries@.len() == 0,
        r.2.audits.entries@.len() == 0,
        files_valid(&r.0, &r.1, &r.2),
{
    let (config, audits, imports) = files_inited(metadata);
    let config = ConfigFile {
        default_criteria: config.default_criteria,
        imports: config.imports,
        unaudited: StableMap::new(),
        policy: config.policy,
    };
    (config, audits, imports)
}

/// The list holds the versions `versions`, in order.
pub open spec fn holds_versions(list: &Vec<Version>, versions: Seq<VersionView>) -> bool {
    &&& list@.len() == versions.len()
    &&& forall|i: int| 0 <= i < list@.len() ==> (#[trigger] list@[i])@ == versions[i]
}

/// The names of the third-party packages in the order in which they first
/// come, and under each the versions of that name in the order of the
/// packages.
fn third_party_versions(nodes: &Vec<PackageNode>) -> (r: (Vec<String>, Vec<Vec<Version>>))
    ensures
        views(&r.0) == init_exemptions(nodes, nodes@.len()).0,
        r.1@.len() == r.0@.len(),
        forall|u: int|
            0 <= u < r.1@.len() ==> holds_versions(
                #[trigger] &r.1@[u],
                init_exemptions(nodes, nodes@.len()).1[u],
            ),
{
    let n = nodes.len();
    let mut names: Vec<String> = Vec::new();
    let mut lists: Vec<Vec<Version>> = Vec::new();
    let mut k: usize = 0;
    assert(views(&names) =~= init_exemptions(nodes, 0).0);
    while k < n
        invariant
            n == nodes@.len(),
            k <= n,
            names@.len() == lists@.len(),
            views(&names) == init_exemptions(nodes, k as nat).0,
            lists@.len() == init_exemptions(nodes, k as nat).1.len(),
            forall|u: int|
                0 <= u < lists@.len() ==> holds_versions(
                    #[trigger] &lists@[u],
                    init_exemptions(nodes, k as nat).1[u],
                ),
        decreases n - k,
    {
        let node = &nodes[k];
        let ghost before_names = views(&names);
        let ghost before = init_exemptions(nodes, k as nat).1;
        if !node.is_first_party {
            let version = node.version.duplicate();
            match find(&names, &node.name) {
                Some(i) => {
                    let mut list = lists.remove(i);
                    list.push(version);
                    lists.insert(i, list);
                    assert(lists@.len() == before.len());
                    assert forall|u: int| 0 <= u < lists@.len() implies holds_versions(
                        #[trigger] &lists@[u],
                        before.update(i as int, before[i as int].push(node.version@))[u],
                    ) by {}
                },
                None => {
                    names.push(node.name.clone());
                    let mut list: Vec<Version> = Vec::new();
                    list.push(version);
                    lists.push(list);
                    assert(views(&names) =~= before_names.push(node.name@));
                    assert forall|u: int| 0 <= u < lists@.len() implies holds_versions(
                        #[trigger] &lists@[u],
                        before.push(seq![node.version@])[u],
                    ) by {}
                },
            }
        }
        k += 1;
    }
    (names, lists)
}

/// The files of a sample project that has audited every third-party package
/// in full: those of [`files_no_unaudited`] with the audits of
/// [`mock_audits`].
pub fn files_full_audited(metadata: &Vec<PackageNode>) -> (r: (ConfigFile, AuditsFile, ImportsFile))
    ensures
        mock_config(&r.0, metadata),
        r.0.unaudited.entries@.len() == 0,
        mock_criteria(&r.1.criteria),
        mock_audits(&r.1, metadata),
        r.2.audits.entries@.len() == 0,
        files_valid(&r.0, &r.1, &r.2),
{
    let (config, audits, imports) = files_no_unaudited(metadata);
    let ghost goal = init_exemptions(metadata, metadata@.len());
    let (names, versions) = third_party_versions(metadata);
    let count = names.len();
    let mut entries: Vec<(String, Vec<AuditEntry>)> = Vec::new();
    let mut u: usize = 0;
    while u < count
        invariant
            goal == init_exemptions(metadata, metadata@.len()),
            count == names@.len(),
            versions@.len() == count,
            views(&names) == goal.0,
            forall|x: int|
                0 <= x < versions@.len() ==> holds_versions(#[trigger] &versions@[x], goal.1[x]),
            u <= count,
            entries@.len() == u,
            forall|x: int|
                #![trigger entries@[x]]
                0 <= x < u ==> entries@[x].0@ == goal.0[x] && audits_in_full(
                    &entries@[x].1,
                    goal.1[x],
                ) && forall|i: int|
                    0 <= i < entries@[x].1@.len() ==> crate::check::entry_valid(
                        #[trigger] &entries@[x].1@[i],
                    ),
        decreases count - u,
    {
        let source = &versions[u];
        assert(holds_versions(&versions@[u as int], goal.1[u as int]));
        let len = source.len();
        let mut list: Vec<AuditEntry> = Vec::new();
        let mut i: usize = 0;
        while i < len
            invariant
                len == source@.len(),
                holds_versions(source, goal.1[u as int]),
                i <= len,
                list@.len() == i,
                forall|x: int|
                    0 <= x < i ==> audit_in_full(#[trigger] list@[x], goal.1[u as int][x])
                        && crate::check::entry_valid(&list@[x]),
            decreases len - i,
        {
            let ghost _ = source@[i as int];
            list.push(full_audit(source[i].duplicate(), "reviewed"));
            i += 1;
        }
        assert(views(&names)[u as int] == names@[u as int]@);
        entries.push((names[u].clone(), list));
        u += 1;
    }
    let audited = StableMap { entries };
    proof {
        lemma_init_exemptions(metadata, metadata@.len());
        assert(audited.keys() =~= goal.0);
    }
    let audits = AuditsFile { criteria: audits.criteria, audits: audited };
    (config, audits, imports)
}

} // verus!
