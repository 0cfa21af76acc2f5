use cargo_vet::criteria::{CriteriaError, CriteriaSet, CriteriaTable};
use cargo_vet::format::{
    default_policy, default_unaudited, delta_audit, delta_audit_dep, dep_policy, full_audit,
    full_audit_dep, self_policy, unaudited, violation, AuditEntry, AuditKind, AuditsFile,
    ConfigFile, CriteriaEntry, Delta, ImportsFile, StableMap,
};
use cargo_vet::graph::{EdgeKind, GraphError, PackageEdge, PackageGraph, PackageNode};
use cargo_vet::init::init_files;
use cargo_vet::model::Verdict;
use cargo_vet::report::{Report, Warning};
use cargo_vet::resolver::{resolve, ResolveError};
use cargo_vet::version::{Distance, Version, VersionError, VersionReq};

const REGISTRY: &str = "registry+https://github.com/rust-lang/crates.io-index";

fn ver(major: u64) -> Version {
    Version::new(major, 0, 0)
}

fn names(list: &[&str]) -> Vec<String> {
    list.iter().map(|s| s.to_string()).collect()
}

fn node(name: &str, version: Version, root: bool, first: bool, deps: &[(&str, u64)]) -> PackageNode {
    PackageNode {
        name: name.to_string(),
        version,
        is_root: root,
        is_first_party: first,
        deps: deps
            .iter()
            .map(|(n, v)| PackageEdge::normal(n.to_string(), ver(*v)))
            .collect(),
    }
}

/// root -> first -> {thirdA, thirdB}; thirdA -> trans; all at 10.0.0.
fn simple() -> Vec<PackageNode> {
    vec![
        node("root", ver(10), true, true, &[("first", 10)]),
        node("first", ver(10), false, true, &[("thirdA", 10), ("thirdB", 10)]),
        node("thirdA", ver(10), false, false, &[("trans", 10)]),
        node("thirdB", ver(10), false, false, &[]),
        node("trans", ver(10), false, false, &[]),
    ]
}

fn criteria() -> StableMap<CriteriaEntry> {
    let entry = |implies: &[&str]| CriteriaEntry {
        implies: names(implies),
        description: None,
        description_url: None,
    };
    StableMap::from_entries(vec![
        ("strong-reviewed".to_string(), entry(&["reviewed"])),
        ("reviewed".to_string(), entry(&["weak-reviewed"])),
        ("weak-reviewed".to_string(), entry(&[])),
        ("fuzzed".to_string(), entry(&[])),
    ])
}

fn config() -> ConfigFile {
    ConfigFile {
        default_criteria: "reviewed".to_string(),
        imports: StableMap::new(),
        unaudited: StableMap::new(),
        policy: StableMap::new(),
    }
}

fn no_imports() -> ImportsFile {
    ImportsFile {
        audits: StableMap::new(),
    }
}

fn audited(list: Vec<(&str, Vec<AuditEntry>)>) -> AuditsFile {
    AuditsFile {
        criteria: criteria(),
        audits: StableMap::from_entries(
            list.into_iter().map(|(n, e)| (n.to_string(), e)).collect(),
        ),
    }
}

fn all_audited() -> AuditsFile {
    audited(vec![
        ("thirdA", vec![full_audit(ver(10), "reviewed")]),
        ("thirdB", vec![full_audit(ver(10), "reviewed")]),
        ("trans", vec![full_audit(ver(10), "reviewed")]),
    ])
}

fn verdict(report: &Report, name: &str) -> Verdict {
    report.packages.iter().find(|p| p.name == name).unwrap().verdict
}

fn achieved(report: &Report, name: &str) -> Vec<String> {
    let package = report.packages.iter().find(|p| p.name == name).unwrap();
    report.names_of(&package.achieved)
}

fn required(report: &Report, name: &str) -> Vec<String> {
    let package = report.packages.iter().find(|p| p.name == name).unwrap();
    report.names_of(&package.required)
}

fn missing(report: &Report, name: &str) -> Vec<String> {
    let package = report.packages.iter().find(|p| p.name == name).unwrap();
    report.names_of(&package.missing)
}

fn set(bits: &[bool]) -> CriteriaSet {
    CriteriaSet { bits: bits.to_vec() }
}

// ---- versions ----

#[test]
fn version_parse_reads_numbers_and_tags() {
    let v = Version::parse("1.2.3-alpha.1+build.5").unwrap();
    assert_eq!((v.major, v.minor, v.patch), (1, 2, 3));
    assert_eq!(v.pre, "alpha.1");
    assert_eq!(v.build, "build.5");
    assert!(v.is_well_formed());
}

#[test]
fn version_text_is_what_semver_writes() {
    assert_eq!(ver(10).text(), Some("10.0.0".to_string()));
    let tagged = Version::parse("1.2.3-alpha.1+build.5").unwrap();
    assert_eq!(tagged.text(), Some("1.2.3-alpha.1+build.5".to_string()));
    let mut bad = ver(1);
    bad.pre = "!".to_string();
    assert_eq!(bad.text(), None);
}

#[test]
fn version_parse_refuses_what_is_no_version() {
    assert_eq!(Version::parse("1.0").unwrap_err(), VersionError::MalformedVersion);
    assert_eq!(Version::parse("1.0.01").unwrap_err(), VersionError::MalformedVersion);
    assert_eq!(Version::parse("").unwrap_err(), VersionError::MalformedVersion);
}

#[test]
fn version_with_a_bad_tag_is_not_well_formed() {
    let mut v = ver(1);
    v.pre = "not valid!".to_string();
    assert!(!v.is_well_formed());
    let mut w = ver(1);
    w.build = "a..b".to_string();
    assert!(!w.is_well_formed());
    assert_eq!(v.checked_precedes(&ver(2)), None);
}

#[test]
fn version_order_is_that_of_semver() {
    let alpha = Version::parse("1.0.0-alpha").unwrap();
    let beta2 = Version::parse("1.0.0-beta.2").unwrap();
    let beta11 = Version::parse("1.0.0-beta.11").unwrap();
    let release = Version::parse("1.0.0").unwrap();
    assert_eq!(alpha.checked_precedes(&beta2), Some(true));
    assert_eq!(beta2.checked_precedes(&beta11), Some(true));
    assert_eq!(beta11.checked_precedes(&release), Some(true));
    assert_eq!(release.checked_precedes(&alpha), Some(false));
    assert_eq!(release.checked_precedes(&release), Some(false));
    assert_eq!(
        Version::new(1, 5, 0).checked_precedes(&Version::new(1, 19, 0)),
        Some(true)
    );
}

#[test]
fn version_same_compares_every_part() {
    assert!(ver(3).same(&Version::new(3, 0, 0)));
    assert!(!ver(3).same(&Version::new(3, 0, 1)));
    let tagged = Version::parse("3.0.0-rc.1").unwrap();
    assert!(!ver(3).same(&tagged));
    assert!(tagged.same(&tagged.duplicate()));
}

#[test]
fn requirement_parse_and_match() {
    let req = VersionReq::parse(">=1.2.3, <1.8.0").unwrap();
    assert_eq!(req.text, ">=1.2.3, <1.8.0");
    assert_eq!(req.checked_matches(&Version::new(1, 5, 0)), Some(true));
    assert_eq!(req.checked_matches(&Version::new(1, 8, 0)), Some(false));
    assert_eq!(req.checked_matches(&Version::new(1, 2, 2)), Some(false));
    let star = VersionReq::parse("*").unwrap();
    assert_eq!(star.checked_matches(&ver(7)), Some(true));
    assert_eq!(
        star.checked_matches(&Version::parse("7.0.0-pre").unwrap()),
        Some(false)
    );
}

#[test]
fn requirement_parse_refuses_what_is_no_requirement() {
    assert_eq!(
        VersionReq::parse("@1.0.0").unwrap_err(),
        VersionError::MalformedRequirement
    );
    let bad = VersionReq {
        text: ">=1.0 <2.0".to_string(),
    };
    assert!(!bad.is_well_formed());
    assert_eq!(bad.checked_matches(&ver(1)), None);
}

#[test]
fn distance_is_the_difference_of_the_numbers() {
    let a = Version::new(9, 0, 0);
    let b = Version::new(9, 5, 2);
    assert_eq!(Distance::between(&a, &b), Distance { major: 0, minor: 5, patch: 2 });
    assert_eq!(Distance::between(&b, &a), Distance { major: 0, minor: 5, patch: 2 });
    assert_eq!(Distance::between(&a, &a), Distance { major: 0, minor: 0, patch: 0 });
    assert_eq!(Distance::from_origin(&b), Distance { major: 9, minor: 5, patch: 2 });
}

#[test]
fn distance_compares_major_first() {
    let small = Distance { major: 0, minor: 9, patch: 9 };
    let large = Distance { major: 1, minor: 0, patch: 0 };
    assert!(small.lt(&large));
    assert!(!large.lt(&small));
    assert!(!small.lt(&small));
    assert!(Distance { major: 1, minor: 0, patch: 1 }.lt(&Distance { major: 1, minor: 1, patch: 0 }));
}

#[test]
fn delta_parse_reads_both_versions() {
    let delta = Delta::parse("9.0.0 -> 10.0.0").unwrap();
    assert!(delta.from.same(&ver(9)));
    assert!(delta.to.same(&ver(10)));
    let tagged = Delta::parse("1.0.0-rc.1 -> 1.0.0").unwrap();
    assert_eq!(tagged.from.pre, "rc.1");
}

#[test]
fn delta_parse_refuses_bad_text() {
    assert_eq!(Delta::parse("9.0.0->10.0.0").unwrap_err(), VersionError::MalformedVersion);
    assert_eq!(Delta::parse("9.0.0 -> ten").unwrap_err(), VersionError::MalformedVersion);
    assert_eq!(
        Delta::parse("1.0.0 -> 2.0.0 -> 3.0.0").unwrap_err(),
        VersionError::MalformedVersion
    );
}

// ---- criteria ----

#[test]
fn table_holds_the_file_then_the_built_in_criteria() {
    let table = CriteriaTable::build(&criteria()).unwrap();
    assert_eq!(
        table.names,
        names(&[
            "strong-reviewed",
            "reviewed",
            "weak-reviewed",
            "fuzzed",
            "safe-to-run",
            "safe-to-deploy"
        ])
    );
    assert_eq!(table.len(), 6);
    assert_eq!(table.index_of(&"fuzzed".to_string()), Some(3));
    assert_eq!(table.index_of(&"nothing".to_string()), None);
}

#[test]
fn table_closes_implication() {
    let table = CriteriaTable::build(&criteria()).unwrap();
    // strong-reviewed implies reviewed implies weak-reviewed
    assert!(table.implies(0, 0));
    assert!(table.implies(0, 1));
    assert!(table.implies(0, 2));
    assert!(table.implies(1, 2));
    assert!(!table.implies(2, 1));
    assert!(!table.implies(0, 3));
    // safe-to-deploy implies safe-to-run
    assert!(table.implies(5, 4));
    assert!(!table.implies(4, 5));
    assert_eq!(table.expand(1).bits, vec![false, true, true, false, false, false]);
}

#[test]
fn table_of_an_empty_file_has_the_built_in_criteria() {
    let table = CriteriaTable::build(&StableMap::new()).unwrap();
    assert_eq!(table.names, names(&["safe-to-run", "safe-to-deploy"]));
    assert!(table.implies(1, 0));
    assert!(!table.implies(0, 1));
}

#[test]
fn table_keeps_a_built_in_criterion_that_the_file_defines() {
    let file = StableMap::from_entries(vec![(
        "safe-to-deploy".to_string(),
        CriteriaEntry {
            implies: vec![],
            description: None,
            description_url: None,
        },
    )]);
    let table = CriteriaTable::build(&file).unwrap();
    assert_eq!(table.names, names(&["safe-to-deploy", "safe-to-run"]));
    assert!(!table.implies(0, 1));
}

#[test]
fn table_refuses_an_unknown_criterion() {
    let file = StableMap::from_entries(vec![(
        "reviewed".to_string(),
        CriteriaEntry {
            implies: names(&["nothing"]),
            description: None,
            description_url: None,
        },
    )]);
    assert_eq!(
        CriteriaTable::build(&file).unwrap_err(),
        CriteriaError::UnknownCriterion
    );
}

#[test]
fn table_refuses_a_cycle() {
    let entry = |implies: &[&str]| CriteriaEntry {
        implies: names(implies),
        description: None,
        description_url: None,
    };
    let file = StableMap::from_entries(vec![
        ("a".to_string(), entry(&["b"])),
        ("b".to_string(), entry(&["c"])),
        ("c".to_string(), entry(&["a"])),
    ]);
    assert_eq!(
        CriteriaTable::build(&file).unwrap_err(),
        CriteriaError::ImplicationCycle
    );
}

#[test]
fn table_expands_names() {
    let table = CriteriaTable::build(&criteria()).unwrap();
    let both = table.expand_names(&names(&["reviewed", "fuzzed"])).unwrap();
    assert_eq!(both.bits, vec![false, true, true, true, false, false]);
    let none = table.expand_names(&vec![]).unwrap();
    assert!(none.is_empty());
    assert!(table.expand_names(&names(&["reviewed", "nothing"])).is_none());
}

#[test]
fn set_operations() {
    let a = set(&[true, true, false, false]);
    let b = set(&[false, true, true, false]);
    assert_eq!(a.union(&b).bits, vec![true, true, true, false]);
    assert_eq!(a.intersect(&b).bits, vec![false, true, false, false]);
    assert_eq!(a.without(&b).bits, vec![true, false, false, false]);
    assert!(a.overlaps(&b));
    assert!(!a.overlaps(&set(&[false, false, true, true])));
    assert!(a.contains_all(&set(&[true, false, false, false])));
    assert!(!a.contains_all(&b));
    assert!(a.contains_all(&CriteriaSet::empty(4)));
    assert!(CriteriaSet::full(4).contains_all(&a));
    assert!(a.contains(1));
    assert!(!a.contains(2));
    assert!(!a.contains(9));
    assert!(CriteriaSet::empty(3).is_empty());
    assert!(!a.is_empty());
    assert_eq!(a.len(), 4);
    let mut c = CriteriaSet::empty(3);
    c.insert(1);
    c.insert(7);
    assert_eq!(c.bits, vec![false, true, false]);
    assert_eq!(a.duplicate(), a);
}

#[test]
fn set_implies_through_the_table() {
    let table = CriteriaTable::build(&criteria()).unwrap();
    let reviewed = set(&[false, true, false, false, false, false]);
    assert!(table.set_implies(&reviewed, 1));
    assert!(table.set_implies(&reviewed, 2));
    assert!(!table.set_implies(&reviewed, 0));
    assert!(!table.set_implies(&reviewed, 3));
    assert_eq!(
        table.close(&reviewed).bits,
        vec![false, true, true, false, false, false]
    );
}

// ---- maps and builders ----

#[test]
fn stable_map_keeps_order_and_replaces_in_place() {
    let mut map: StableMap<u32> = StableMap::new();
    map.insert("b".to_string(), 1);
    map.insert("a".to_string(), 2);
    map.insert("b".to_string(), 3);
    assert_eq!(map.len(), 2);
    assert_eq!(map.position(&"b".to_string()), Some(0));
    assert_eq!(map.get(&"b".to_string()), Some(&3));
    assert_eq!(map.get(&"a".to_string()), Some(&2));
    assert_eq!(map.get(&"c".to_string()), None);
    assert!(map.contains_key(&"a".to_string()));
    map.clear();
    assert_eq!(map.len(), 0);
}

#[test]
fn stable_map_keeps_the_last_of_two_equal_names() {
    let map = StableMap::from_entries(vec![
        ("x".to_string(), 1),
        ("y".to_string(), 5),
        ("x".to_string(), 2),
    ]);
    assert_eq!(map.len(), 2);
    assert_eq!(map.get(&"x".to_string()), Some(&2));
    assert_eq!(map.get(&"y".to_string()), Some(&5));
    let keys: Vec<&str> = map.entries.iter().map(|e| e.0.as_str()).collect();
    assert_eq!(keys, vec!["x", "y"]);
    assert!(map.is_valid());
    assert!(StableMap::<u32>::new().is_valid());
}

#[test]
fn stable_map_with_a_name_twice_is_not_valid() {
    let map = StableMap {
        entries: vec![
            ("x".to_string(), 1),
            ("y".to_string(), 5),
            ("x".to_string(), 2),
        ],
    };
    assert!(!map.is_valid());
    let mut mended = map;
    mended.entries.pop();
    assert!(mended.is_valid());
}

#[test]
fn dep_policy_keeps_the_last_pair_of_a_name() {
    let p = dep_policy(vec![
        ("x".to_string(), names(&["reviewed"])),
        ("x".to_string(), names(&["fuzzed"])),
    ]);
    assert_eq!(p.dependency_criteria.len(), 1);
    assert_eq!(
        p.dependency_criteria.get(&"x".to_string()),
        Some(&names(&["fuzzed"]))
    );
    assert!(p.dependency_criteria.is_valid());
    let q = dep_policy(vec![
        ("x".to_string(), names(&["reviewed"])),
        ("y".to_string(), names(&["weak-reviewed", "fuzzed"])),
        ("x".to_string(), vec![]),
    ]);
    assert_eq!(q.dependency_criteria.len(), 2);
    assert_eq!(q.dependency_criteria.get(&"x".to_string()), Some(&vec![]));
    assert_eq!(
        q.dependency_criteria.get(&"y".to_string()),
        Some(&names(&["weak-reviewed", "fuzzed"]))
    );
}

#[test]
fn audits_with_pairs_keep_the_last_pair_of_a_name() {
    let pairs = || {
        vec![
            ("x".to_string(), names(&["reviewed"])),
            ("y".to_string(), names(&["fuzzed", "reviewed"])),
            ("x".to_string(), names(&["weak-reviewed"])),
        ]
    };
    let delta = delta_audit_dep(ver(3), ver(4), "fuzzed", pairs());
    assert_eq!(delta.criteria, "fuzzed");
    assert!(delta.who.is_none() && delta.notes.is_none());
    match &delta.kind {
        AuditKind::Delta { delta, dependency_criteria } => {
            assert!(delta.from.same(&ver(3)));
            assert!(delta.to.same(&ver(4)));
            assert_eq!(dependency_criteria.len(), 2);
            assert_eq!(
                dependency_criteria.get(&"x".to_string()),
                Some(&names(&["weak-reviewed"]))
            );
            assert_eq!(
                dependency_criteria.get(&"y".to_string()),
                Some(&names(&["fuzzed", "reviewed"]))
            );
        }
        _ => panic!("a delta audit was asked for"),
    }
    let full = full_audit_dep(ver(3), "reviewed", pairs());
    match &full.kind {
        AuditKind::Full { version, dependency_criteria } => {
            assert!(version.same(&ver(3)));
            assert_eq!(dependency_criteria.len(), 2);
            assert_eq!(
                dependency_criteria.get(&"x".to_string()),
                Some(&names(&["weak-reviewed"]))
            );
        }
        _ => panic!("a full audit was asked for"),
    }
}

#[test]
fn policies_are_built_as_asked() {
    let plain = default_policy();
    assert!(plain.criteria.is_empty());
    assert!(plain.build_and_dev_criteria.is_empty());
    assert_eq!(plain.dependency_criteria.len(), 0);
    assert!(plain.targets.is_none());
    assert!(plain.build_and_dev_targets.is_none());
    let own = self_policy(names(&["reviewed", "fuzzed"]));
    assert_eq!(own.criteria, names(&["reviewed", "fuzzed"]));
    assert_eq!(own.dependency_criteria.len(), 0);
    let dep = dep_policy(vec![("thirdA".to_string(), names(&["weak-reviewed"]))]);
    assert!(dep.criteria.is_empty());
    assert_eq!(
        dep.dependency_criteria.get(&"thirdA".to_string()),
        Some(&names(&["weak-reviewed"]))
    );
}

#[test]
fn entries_are_built_as_asked() {
    let full = full_audit(ver(3), "reviewed");
    assert_eq!(full.criteria, "reviewed");
    assert!(full.who.is_none() && full.notes.is_none());
    assert!(matches!(&full.kind, AuditKind::Full { version, dependency_criteria }
        if version.same(&ver(3)) && dependency_criteria.len() == 0));
    let full_dep = full_audit_dep(ver(3), "reviewed", vec![("x".to_string(), names(&["fuzzed"]))]);
    assert!(matches!(&full_dep.kind, AuditKind::Full { dependency_criteria, .. }
        if dependency_criteria.get(&"x".to_string()) == Some(&names(&["fuzzed"]))));
    let delta = delta_audit(ver(3), ver(4), "fuzzed");
    assert!(matches!(&delta.kind, AuditKind::Delta { delta, dependency_criteria }
        if delta.from.same(&ver(3)) && delta.to.same(&ver(4)) && dependency_criteria.len() == 0));
    let delta_dep = delta_audit_dep(ver(3), ver(4), "fuzzed", vec![("x".to_string(), vec![])]);
    assert!(matches!(&delta_dep.kind, AuditKind::Delta { dependency_criteria, .. }
        if dependency_criteria.get(&"x".to_string()) == Some(&vec![])));
    let bad = violation(VersionReq::parse("<2").unwrap(), "weak-reviewed");
    assert_eq!(bad.criteria, "weak-reviewed");
    assert!(matches!(&bad.kind, AuditKind::Violation { violation } if violation.text == "<2"));
    let exempt = unaudited(ver(5), "fuzzed");
    assert!(exempt.version.same(&ver(5)) && exempt.criteria == "fuzzed" && exempt.suggest);
    let by_default = default_unaudited(ver(5), &config());
    assert_eq!(by_default.criteria, "reviewed");
}

// ---- graph ----

#[test]
fn source_decides_who_is_first_party() {
    let registry = REGISTRY.to_string();
    let git = "git+https://github.com/example/example".to_string();
    let other = "registry+https://example.com/index".to_string();
    let from = |source: Option<&String>| {
        PackageNode::from_source("p".to_string(), ver(1), source, false, vec![])
    };
    assert!(from(None).is_first_party);
    assert!(!from(Some(&registry)).is_first_party);
    assert!(from(Some(&registry)).is_third_party());
    assert!(from(Some(&git)).is_first_party);
    assert!(from(Some(&other)).is_first_party);
}

#[test]
fn graph_puts_dependencies_first() {
    let graph = PackageGraph::new(&simple()).unwrap();
    let order: Vec<&str> = graph.packages.iter().map(|p| p.name.as_str()).collect();
    assert_eq!(order, vec!["thirdB", "trans", "thirdA", "first", "root"]);
    let index: Vec<usize> = graph.packages.iter().map(|p| p.index).collect();
    assert_eq!(index, vec![3, 4, 2, 1, 0]);
    assert_eq!(graph.packages[2].deps, vec![1]);
    assert_eq!(graph.packages[3].deps, vec![2, 0]);
    assert_eq!(graph.packages[4].deps, vec![3]);
    for (place, package) in graph.packages.iter().enumerate() {
        assert!(package.deps.iter().all(|d| *d < place));
    }
}

#[test]
fn graph_of_nothing_is_empty() {
    assert!(PackageGraph::new(&vec![]).unwrap().packages.is_empty());
}

#[test]
fn graph_refuses_a_malformed_version() {
    let mut nodes = simple();
    nodes[4].version.pre = "?".to_string();
    // the edge to it is repaired, so that only the version is at fault
    nodes[2].deps[0].id.version.pre = "?".to_string();
    assert_eq!(PackageGraph::new(&nodes).unwrap_err(), GraphError::MalformedVersion);
}

#[test]
fn graph_refuses_a_duplicate() {
    let mut nodes = simple();
    nodes.push(node("trans", ver(10), false, false, &[]));
    assert_eq!(PackageGraph::new(&nodes).unwrap_err(), GraphError::DuplicatePackage);
}

#[test]
fn graph_takes_two_versions_of_a_name() {
    let mut nodes = simple();
    nodes.push(node("trans", ver(9), false, false, &[]));
    assert_eq!(PackageGraph::new(&nodes).unwrap().packages.len(), 6);
}

#[test]
fn graph_refuses_an_unknown_dependency() {
    let mut nodes = simple();
    nodes[3].deps.push(PackageEdge::normal("trans".to_string(), ver(9)));
    assert_eq!(PackageGraph::new(&nodes).unwrap_err(), GraphError::UnknownDependency);
}

#[test]
fn graph_refuses_a_cycle() {
    let mut nodes = simple();
    nodes[4].deps.push(PackageEdge::normal("thirdA".to_string(), ver(10)));
    assert_eq!(PackageGraph::new(&nodes).unwrap_err(), GraphError::DependencyCycle);
    let mut own = simple();
    own[3].deps.push(PackageEdge::normal("thirdB".to_string(), ver(10)));
    assert_eq!(PackageGraph::new(&own).unwrap_err(), GraphError::DependencyCycle);
}

#[test]
fn graph_treats_every_kind_of_edge_alike() {
    let mut nodes = simple();
    nodes[2].deps[0].kind = EdgeKind::Build;
    nodes[1].deps[1].kind = EdgeKind::Dev;
    let report = resolve(&nodes, &config(), &all_audited(), &no_imports()).unwrap();
    assert!(report.success);
    assert_eq!(required(&report, "trans"), names(&["reviewed", "weak-reviewed"]));
}

// ---- faults ----

fn fault(nodes: &Vec<PackageNode>, config: &ConfigFile, audits: &AuditsFile) -> ResolveError {
    resolve(nodes, config, audits, &no_imports()).unwrap_err()
}

#[test]
fn resolve_refuses_a_bad_graph() {
    let mut malformed = simple();
    malformed[0].version.build = "+".to_string();
    assert_eq!(fault(&malformed, &config(), &all_audited()), ResolveError::MalformedVersion);
    let mut duplicate = simple();
    duplicate.push(node("root", ver(10), true, true, &[]));
    assert_eq!(fault(&duplicate, &config(), &all_audited()), ResolveError::DuplicatePackage);
    let mut unknown = simple();
    unknown[0].deps.push(PackageEdge::normal("gone".to_string(), ver(1)));
    assert_eq!(fault(&unknown, &config(), &all_audited()), ResolveError::UnknownDependency);
    let mut cycle = simple();
    cycle[4].deps.push(PackageEdge::normal("root".to_string(), ver(10)));
    assert_eq!(fault(&cycle, &config(), &all_audited()), ResolveError::DependencyCycle);
}

#[test]
fn resolve_refuses_a_bad_criteria_table() {
    let mut audits = all_audited();
    audits.criteria.insert(
        "fuzzed".to_string(),
        CriteriaEntry {
            implies: names(&["nothing"]),
            description: None,
            description_url: None,
        },
    );
    assert_eq!(fault(&simple(), &config(), &audits), ResolveError::UnknownCriterion);
    let mut cyclic = all_audited();
    cyclic.criteria.insert(
        "weak-reviewed".to_string(),
        CriteriaEntry {
            implies: names(&["strong-reviewed"]),
            description: None,
            description_url: None,
        },
    );
    assert_eq!(fault(&simple(), &config(), &cyclic), ResolveError::ImplicationCycle);
}

#[test]
fn resolve_refuses_an_unknown_criterion_anywhere() {
    let mut default = config();
    default.default_criteria = "nothing".to_string();
    assert_eq!(fault(&simple(), &default, &all_audited()), ResolveError::UnknownCriterion);

    let mut policy = config();
    policy.policy.insert("first".to_string(), self_policy(names(&["nothing"])));
    assert_eq!(fault(&simple(), &policy, &all_audited()), ResolveError::UnknownCriterion);

    let mut dep = config();
    dep.policy.insert(
        "first".to_string(),
        dep_policy(vec![("thirdA".to_string(), names(&["nothing"]))]),
    );
    assert_eq!(fault(&simple(), &dep, &all_audited()), ResolveError::UnknownCriterion);

    let mut exempt = config();
    exempt.unaudited.insert("trans".to_string(), vec![unaudited(ver(10), "nothing")]);
    assert_eq!(fault(&simple(), &exempt, &all_audited()), ResolveError::UnknownCriterion);

    let audit = audited(vec![("trans", vec![full_audit(ver(10), "nothing")])]);
    assert_eq!(fault(&simple(), &config(), &audit), ResolveError::UnknownCriterion);

    let asked = audited(vec![(
        "thirdA",
        vec![full_audit_dep(
            ver(10),
            "reviewed",
            vec![("trans".to_string(), names(&["nothing"]))],
        )],
    )]);
    assert_eq!(fault(&simple(), &config(), &asked), ResolveError::UnknownCriterion);

    // also under a name that no package bears
    let stale = audited(vec![("gone", vec![violation(VersionReq::parse("*").unwrap(), "nothing")])]);
    assert_eq!(fault(&simple(), &config(), &stale), ResolveError::UnknownCriterion);

    let imports = ImportsFile {
        audits: StableMap::from_entries(vec![(
            "peer".to_string(),
            audited(vec![("trans", vec![full_audit(ver(10), "nothing")])]),
        )]),
    };
    assert_eq!(
        resolve(&simple(), &config(), &all_audited(), &imports).unwrap_err(),
        ResolveError::UnknownCriterion
    );
}

fn twice<V: Clone>(name: &str, value: V) -> StableMap<V> {
    StableMap {
        entries: vec![(name.to_string(), value.clone()), (name.to_string(), value)],
    }
}

#[test]
fn resolve_refuses_a_name_that_stands_twice() {
    let entry = CriteriaEntry {
        implies: vec![],
        description: None,
        description_url: None,
    };
    let mut table = all_audited();
    table.criteria = twice("fuzzed", entry);
    assert_eq!(fault(&simple(), &config(), &table), ResolveError::RepeatedName);

    let mut packages = all_audited();
    packages.audits = twice("trans", vec![full_audit(ver(10), "reviewed")]);
    assert_eq!(fault(&simple(), &config(), &packages), ResolveError::RepeatedName);

    let mut declared = full_audit(ver(10), "reviewed");
    declared.kind = AuditKind::Full {
        version: ver(10),
        dependency_criteria: twice("trans", names(&["reviewed"])),
    };
    let asked = audited(vec![("thirdA", vec![declared])]);
    assert_eq!(fault(&simple(), &config(), &asked), ResolveError::RepeatedName);

    let mut policies = config();
    policies.policy = twice("first", default_policy());
    assert_eq!(fault(&simple(), &policies, &all_audited()), ResolveError::RepeatedName);

    let mut inner = default_policy();
    inner.dependency_criteria = twice("thirdA", names(&["reviewed"]));
    let mut policy = config();
    policy.policy.insert("first".to_string(), inner);
    assert_eq!(fault(&simple(), &policy, &all_audited()), ResolveError::RepeatedName);

    let mut exempt = config();
    exempt.unaudited = twice("trans", vec![unaudited(ver(10), "reviewed")]);
    assert_eq!(fault(&simple(), &exempt, &all_audited()), ResolveError::RepeatedName);

    let sources = ImportsFile {
        audits: twice("peer", audited(vec![])),
    };
    assert_eq!(
        resolve(&simple(), &config(), &all_audited(), &sources).unwrap_err(),
        ResolveError::RepeatedName
    );
    let mut foreign = audited(vec![]);
    foreign.audits = twice("trans", vec![]);
    let nested = ImportsFile {
        audits: StableMap::from_entries(vec![("peer".to_string(), foreign)]),
    };
    assert_eq!(
        resolve(&simple(), &config(), &all_audited(), &nested).unwrap_err(),
        ResolveError::RepeatedName
    );
}

#[test]
fn a_name_that_stands_twice_comes_after_the_graph_and_before_the_criteria() {
    let mut audits = audited(vec![("trans", vec![full_audit(ver(10), "nothing")])]);
    audits.audits = twice("trans", vec![full_audit(ver(10), "nothing")]);
    assert_eq!(fault(&simple(), &config(), &audits), ResolveError::RepeatedName);
    let mut cycle = simple();
    cycle[4].deps.push(PackageEdge::normal("root".to_string(), ver(10)));
    assert_eq!(fault(&cycle, &config(), &audits), ResolveError::DependencyCycle);
}

#[test]
fn resolve_refuses_a_policy_for_an_unknown_package() {
    let mut config = config();
    config.policy.insert("gone".to_string(), default_policy());
    assert_eq!(fault(&simple(), &config, &all_audited()), ResolveError::UnknownPackage);
}

#[test]
fn resolve_refuses_a_malformed_version_in_the_files() {
    let mut bad = ver(10);
    bad.pre = "..".to_string();
    let audit = audited(vec![("trans", vec![full_audit(bad.clone(), "reviewed")])]);
    assert_eq!(fault(&simple(), &config(), &audit), ResolveError::MalformedVersion);
    let delta = audited(vec![("trans", vec![delta_audit(ver(9), bad.clone(), "reviewed")])]);
    assert_eq!(fault(&simple(), &config(), &delta), ResolveError::MalformedVersion);
    let mut exempt = config();
    exempt.unaudited.insert("trans".to_string(), vec![unaudited(bad, "reviewed")]);
    assert_eq!(fault(&simple(), &exempt, &all_audited()), ResolveError::MalformedVersion);
}

#[test]
fn resolve_refuses_a_malformed_requirement() {
    let bad = VersionReq {
        text: "not a requirement".to_string(),
    };
    let audits = audited(vec![("trans", vec![violation(bad, "reviewed")])]);
    assert_eq!(fault(&simple(), &config(), &audits), ResolveError::MalformedRequirement);
}

#[test]
fn resolve_names_the_first_fault_in_its_order() {
    // an unknown criterion and a malformed requirement: the criterion is named
    let bad = VersionReq {
        text: "??".to_string(),
    };
    let audits = audited(vec![("trans", vec![violation(bad, "nothing")])]);
    assert_eq!(fault(&simple(), &config(), &audits), ResolveError::UnknownCriterion);
    // a cycle in the graph comes before anything in the files
    let mut cycle = simple();
    cycle[4].deps.push(PackageEdge::normal("root".to_string(), ver(10)));
    assert_eq!(fault(&cycle, &config(), &audits), ResolveError::DependencyCycle);
}

// ---- scenarios ----

#[test]
fn scenario_all_fully_audited() {
    let report = resolve(&simple(), &config(), &all_audited(), &no_imports()).unwrap();
    assert!(report.success);
    assert_eq!(report.packages.len(), 5);
    assert!(report.packages.iter().all(|p| p.verdict == Verdict::Pass));
    assert!(report.suggestions.is_empty());
    assert!(report.warnings.is_empty());
    assert_eq!(
        report.criteria,
        names(&[
            "strong-reviewed",
            "reviewed",
            "weak-reviewed",
            "fuzzed",
            "safe-to-run",
            "safe-to-deploy"
        ])
    );
    let order: Vec<&str> = report.packages.iter().map(|p| p.name.as_str()).collect();
    assert_eq!(order, vec!["thirdB", "trans", "thirdA", "first", "root"]);
    assert_eq!(achieved(&report, "thirdA"), names(&["reviewed", "weak-reviewed"]));
    assert_eq!(required(&report, "thirdA"), names(&["reviewed", "weak-reviewed"]));
    assert_eq!(required(&report, "first"), names(&["reviewed", "weak-reviewed"]));
    assert!(required(&report, "root").is_empty());
    assert_eq!(achieved(&report, "first").len(), 6);
    let third_party: Vec<bool> = report.packages.iter().map(|p| p.is_third_party).collect();
    assert_eq!(third_party, vec![true, true, true, false, false]);
}

#[test]
fn scenario_missing_transitive() {
    let mut audits = all_audited();
    audits.audits.insert("trans".to_string(), vec![]);
    let report = resolve(&simple(), &config(), &audits, &no_imports()).unwrap();
    assert!(!report.success);
    assert_eq!(verdict(&report, "trans"), Verdict::FailMissing);
    assert_eq!(missing(&report, "trans"), names(&["reviewed", "weak-reviewed"]));
    assert_eq!(report.suggestions.len(), 1);
    let suggestion = &report.suggestions[0];
    assert_eq!(suggestion.name, "trans");
    assert!(suggestion.from.is_none());
    assert!(suggestion.to.same(&ver(10)));
    assert_eq!(suggestion.criteria, "reviewed");
    assert_eq!(suggestion.cost, Distance { major: 10, minor: 0, patch: 0 });
    // thirdA has its audit and fails for its dependency alone
    assert_eq!(verdict(&report, "thirdA"), Verdict::FailMissing);
    assert_eq!(verdict(&report, "thirdB"), Verdict::Pass);
    assert_eq!(verdict(&report, "first"), Verdict::FailPolicy);
    assert_eq!(verdict(&report, "root"), Verdict::Pass);
}

#[test]
fn scenario_violation_on_direct() {
    let mut audits = all_audited();
    audits.audits.insert(
        "thirdA".to_string(),
        vec![
            full_audit(ver(10), "reviewed"),
            violation(VersionReq::parse("=10.0.0").unwrap(), "weak-reviewed"),
        ],
    );
    let report = resolve(&simple(), &config(), &audits, &no_imports()).unwrap();
    assert!(!report.success);
    assert_eq!(verdict(&report, "thirdA"), Verdict::FailViolation);
    let package = report.packages.iter().find(|p| p.name == "thirdA").unwrap();
    assert_eq!(package.masked_by, vec![1]);
    assert_eq!(missing(&report, "thirdA"), names(&["weak-reviewed"]));
    assert_eq!(achieved(&report, "thirdA"), names(&["reviewed"]));
    assert!(report.suggestions.is_empty());
}

#[test]
fn scenario_delta_to_unaudited() {
    let mut audits = all_audited();
    audits
        .audits
        .insert("thirdA".to_string(), vec![delta_audit(ver(9), ver(10), "reviewed")]);
    let mut config = config();
    config
        .unaudited
        .insert("thirdA".to_string(), vec![unaudited(ver(9), "reviewed")]);
    let report = resolve(&simple(), &config, &audits, &no_imports()).unwrap();
    assert!(report.success);
    assert_eq!(verdict(&report, "thirdA"), Verdict::Pass);
    assert!(report.warnings.is_empty());
}

#[test]
fn scenario_delta_undershoot() {
    let mut audits = all_audited();
    audits.audits.insert(
        "thirdA".to_string(),
        vec![delta_audit(Version::new(9, 5, 0), ver(10), "reviewed")],
    );
    let mut config = config();
    config
        .unaudited
        .insert("thirdA".to_string(), vec![unaudited(ver(9), "reviewed")]);
    let report = resolve(&simple(), &config, &audits, &no_imports()).unwrap();
    assert!(!report.success);
    assert_eq!(verdict(&report, "thirdA"), Verdict::FailMissing);
    // the gap is closed from the exempted version to where the delta starts
    assert_eq!(report.suggestions.len(), 1);
    let suggestion = &report.suggestions[0];
    assert_eq!(suggestion.name, "thirdA");
    assert!(suggestion.from.as_ref().unwrap().same(&ver(9)));
    assert!(suggestion.to.same(&Version::new(9, 5, 0)));
    assert_eq!(suggestion.criteria, "reviewed");
    assert_eq!(suggestion.cost, Distance { major: 0, minor: 5, patch: 0 });
}

#[test]
fn scenario_weak_criterion_propagates() {
    let audits = audited(vec![
        (
            "thirdA",
            vec![full_audit_dep(
                ver(10),
                "reviewed",
                vec![("trans".to_string(), names(&["weak-reviewed"]))],
            )],
        ),
        ("thirdB", vec![full_audit(ver(10), "reviewed")]),
        ("trans", vec![full_audit(ver(10), "weak-reviewed")]),
    ]);
    let report = resolve(&simple(), &config(), &audits, &no_imports()).unwrap();
    assert!(report.success);
    assert_eq!(verdict(&report, "thirdA"), Verdict::Pass);
    assert_eq!(verdict(&report, "trans"), Verdict::Pass);
    assert_eq!(required(&report, "trans"), names(&["weak-reviewed"]));
    assert_eq!(achieved(&report, "trans"), names(&["weak-reviewed"]));
}

// ---- laws on chosen values ----

#[test]
fn more_evidence_keeps_success() {
    let base = resolve(&simple(), &config(), &all_audited(), &no_imports()).unwrap();
    assert!(base.success);
    let mut more = all_audited();
    more.audits.insert(
        "trans".to_string(),
        vec![
            full_audit(ver(10), "reviewed"),
            full_audit(ver(8), "fuzzed"),
            full_audit_dep(ver(10), "strong-reviewed", vec![]),
        ],
    );
    let mut config = config();
    config
        .unaudited
        .insert("thirdB".to_string(), vec![unaudited(ver(10), "weak-reviewed")]);
    let report = resolve(&simple(), &config, &more, &no_imports()).unwrap();
    assert!(report.success);
    assert_eq!(
        achieved(&report, "trans"),
        names(&["strong-reviewed", "reviewed", "weak-reviewed"])
    );
}

#[test]
fn weaker_policy_keeps_pass_and_stronger_keeps_fail() {
    let mut weak = config();
    weak.policy.insert("root".to_string(), self_policy(names(&["weak-reviewed"])));
    let mut strong = config();
    strong.policy.insert("root".to_string(), self_policy(names(&["strong-reviewed"])));
    let middle = resolve(&simple(), &config(), &all_audited(), &no_imports()).unwrap();
    let weaker = resolve(&simple(), &weak, &all_audited(), &no_imports()).unwrap();
    let stronger = resolve(&simple(), &strong, &all_audited(), &no_imports()).unwrap();
    assert!(middle.success && weaker.success && !stronger.success);
    assert_eq!(required(&weaker, "trans"), names(&["weak-reviewed"]));
    assert_eq!(required(&middle, "trans"), names(&["reviewed", "weak-reviewed"]));
    assert_eq!(
        required(&stronger, "thirdA"),
        names(&["strong-reviewed", "reviewed", "weak-reviewed"])
    );
    // thirdA has no evidence for the strongest criterion, and asks nothing
    // of its dependency in its name
    assert_eq!(required(&stronger, "trans"), names(&["reviewed", "weak-reviewed"]));
    for name in ["thirdA", "thirdB", "trans"] {
        assert_eq!(achieved(&weaker, name), achieved(&stronger, name));
    }
}

#[test]
fn violation_masks_and_its_removal_helps() {
    let chain = vec![
        full_audit(ver(8), "reviewed"),
        delta_audit(ver(8), ver(9), "reviewed"),
        delta_audit(ver(9), ver(10), "reviewed"),
    ];
    let mut with = chain.clone();
    with.push(violation(VersionReq::parse("=9.0.0").unwrap(), "reviewed"));
    let mut audits = all_audited();
    audits.audits.insert("trans".to_string(), with);
    let masked = resolve(&simple(), &config(), &audits, &no_imports()).unwrap();
    // no path may go through the masked version 9.0.0
    assert!(achieved(&masked, "trans").is_empty());
    assert_eq!(verdict(&masked, "trans"), Verdict::FailMissing);
    audits.audits.insert("trans".to_string(), chain);
    let free = resolve(&simple(), &config(), &audits, &no_imports()).unwrap();
    assert_eq!(achieved(&free, "trans"), names(&["reviewed", "weak-reviewed"]));
    assert!(free.success);
}

#[test]
fn violation_masks_what_its_criterion_implies() {
    let mut audits = all_audited();
    audits.audits.insert(
        "trans".to_string(),
        vec![
            full_audit(ver(10), "strong-reviewed"),
            violation(VersionReq::parse("^10").unwrap(), "reviewed"),
        ],
    );
    let report = resolve(&simple(), &config(), &audits, &no_imports()).unwrap();
    assert_eq!(achieved(&report, "trans"), names(&["strong-reviewed"]));
    assert_eq!(verdict(&report, "trans"), Verdict::FailViolation);
}

#[test]
fn achieved_is_closed_under_implication() {
    let audits = audited(vec![
        ("thirdA", vec![full_audit(ver(10), "strong-reviewed")]),
        ("thirdB", vec![full_audit(ver(10), "reviewed"), full_audit(ver(10), "fuzzed")]),
        ("trans", vec![full_audit(ver(10), "strong-reviewed")]),
    ]);
    let report = resolve(&simple(), &config(), &audits, &no_imports()).unwrap();
    let table = CriteriaTable::build(&criteria()).unwrap();
    for package in &report.packages {
        for a in 0..table.len() {
            for b in 0..table.len() {
                if package.achieved.contains(a) && table.implies(a, b) {
                    assert!(package.achieved.contains(b));
                }
            }
        }
    }
    assert_eq!(
        achieved(&report, "thirdA"),
        names(&["strong-reviewed", "reviewed", "weak-reviewed"])
    );
    assert_eq!(achieved(&report, "thirdB"), names(&["reviewed", "weak-reviewed", "fuzzed"]));
}

#[test]
fn violation_at_an_untouched_version_leaves_closure_alone() {
    let mut audits = all_audited();
    audits.audits.insert(
        "trans".to_string(),
        vec![
            full_audit(ver(10), "reviewed"),
            violation(VersionReq::parse("=3.0.0").unwrap(), "weak-reviewed"),
        ],
    );
    let report = resolve(&simple(), &config(), &audits, &no_imports()).unwrap();
    assert!(report.success);
    assert_eq!(achieved(&report, "trans"), names(&["reviewed", "weak-reviewed"]));
}

#[test]
fn audits_of_first_party_names_change_nothing() {
    let base = resolve(&simple(), &config(), &all_audited(), &no_imports()).unwrap();
    let mut audits = all_audited();
    audits.audits.insert(
        "first".to_string(),
        vec![
            violation(VersionReq::parse("*").unwrap(), "weak-reviewed"),
            full_audit_dep(ver(10), "fuzzed", vec![("gone".to_string(), vec![])]),
        ],
    );
    audits
        .audits
        .insert("root".to_string(), vec![delta_audit(ver(1), ver(2), "reviewed")]);
    let changed = resolve(&simple(), &config(), &audits, &no_imports()).unwrap();
    assert_eq!(format!("{base:?}"), format!("{changed:?}"));
}

#[test]
fn resolution_is_deterministic() {
    let mut audits = all_audited();
    audits.audits.insert("trans".to_string(), vec![]);
    let first = resolve(&simple(), &config(), &audits, &no_imports()).unwrap();
    let second = resolve(&simple(), &config(), &audits, &no_imports()).unwrap();
    assert_eq!(format!("{first:?}"), format!("{second:?}"));
}

#[test]
fn init_files_pass() {
    let mut nodes = simple();
    nodes.push(node("trans", ver(9), false, false, &[]));
    nodes[3].deps.push(PackageEdge::normal("trans".to_string(), ver(9)));
    let (config, audits, imports) = init_files(&nodes);
    assert_eq!(config.default_criteria, "safe-to-deploy");
    assert_eq!(config.policy.len(), 0);
    assert_eq!(config.imports.len(), 0);
    assert_eq!(audits.criteria.len(), 0);
    assert_eq!(audits.audits.len(), 0);
    assert_eq!(imports.audits.len(), 0);
    let keys: Vec<&str> = config.unaudited.entries.iter().map(|e| e.0.as_str()).collect();
    assert_eq!(keys, vec!["thirdA", "thirdB", "trans"]);
    let versions: Vec<u64> = config
        .unaudited
        .get(&"trans".to_string())
        .unwrap()
        .iter()
        .map(|u| u.version.major)
        .collect();
    assert_eq!(versions, vec![10, 9]);
    assert!(config
        .unaudited
        .entries
        .iter()
        .all(|e| e.1.iter().all(|u| u.criteria == "safe-to-deploy" && u.suggest)));
    let report = resolve(&nodes, &config, &audits, &imports).unwrap();
    assert!(report.success);
    assert!(report.warnings.is_empty());
    assert_eq!(achieved(&report, "thirdB"), names(&["safe-to-run", "safe-to-deploy"]));
}

// ---- more of the resolver ----

#[test]
fn imported_audits_count_like_local_ones() {
    let mut audits = all_audited();
    audits.audits.insert("trans".to_string(), vec![]);
    let imports = ImportsFile {
        audits: StableMap::from_entries(vec![
            ("peer".to_string(), audited(vec![("gone", vec![])])),
            (
                "other".to_string(),
                audited(vec![("trans", vec![full_audit(ver(10), "reviewed")])]),
            ),
        ]),
    };
    let report = resolve(&simple(), &config(), &audits, &imports).unwrap();
    assert!(report.success);
}

#[test]
fn imported_violation_is_numbered_after_the_local_audits() {
    let imports = ImportsFile {
        audits: StableMap::from_entries(vec![(
            "peer".to_string(),
            audited(vec![(
                "trans",
                vec![violation(VersionReq::parse(">=10").unwrap(), "reviewed")],
            )]),
        )]),
    };
    let report = resolve(&simple(), &config(), &all_audited(), &imports).unwrap();
    let package = report.packages.iter().find(|p| p.name == "trans").unwrap();
    assert_eq!(package.verdict, Verdict::FailViolation);
    assert_eq!(package.masked_by, vec![1]);
}

#[test]
fn override_for_a_stranger_is_warned_of_and_ignored() {
    let audits = audited(vec![
        (
            "thirdA",
            vec![full_audit_dep(
                ver(10),
                "reviewed",
                vec![
                    ("gone".to_string(), names(&["strong-reviewed"])),
                    ("trans".to_string(), names(&["weak-reviewed"])),
                ],
            )],
        ),
        ("thirdB", vec![full_audit(ver(10), "reviewed")]),
        ("trans", vec![full_audit(ver(10), "weak-reviewed")]),
    ]);
    let report = resolve(&simple(), &config(), &audits, &no_imports()).unwrap();
    assert!(report.success);
    assert_eq!(report.warnings.len(), 1);
    assert!(matches!(&report.warnings[0],
        Warning::UnknownDependency { name, version, entry, dependency }
            if name == "thirdA" && version.same(&ver(10)) && *entry == 0 && dependency == "gone"));
}

#[test]
fn exemption_that_nothing_leans_on_is_warned_of() {
    let mut config = config();
    config.unaudited.insert(
        "trans".to_string(),
        vec![unaudited(ver(10), "reviewed"), unaudited(ver(3), "reviewed")],
    );
    config
        .unaudited
        .insert("gone".to_string(), vec![unaudited(ver(1), "fuzzed")]);
    let mut audits = all_audited();
    audits.audits.insert("trans".to_string(), vec![]);
    let report = resolve(&simple(), &config, &audits, &no_imports()).unwrap();
    assert!(report.success);
    let unused: Vec<(String, usize)> = report
        .warnings
        .iter()
        .map(|w| match w {
            Warning::UnusedExemption { name, entry } => (name.clone(), *entry),
            Warning::UnknownDependency { .. } => unreachable!(),
        })
        .collect();
    assert_eq!(unused, vec![("trans".to_string(), 1), ("gone".to_string(), 0)]);
    // beside a full audit the exemption is not needed either
    let report = resolve(&simple(), &config, &all_audited(), &no_imports()).unwrap();
    assert_eq!(report.warnings.len(), 3);
}

#[test]
fn suggestions_stand_by_name_and_by_cost() {
    let nodes = vec![
        node("root", ver(1), true, true, &[("core", 10), ("core", 5), ("lib", 3)]),
        node("core", ver(10), false, false, &[]),
        node("lib", ver(3), false, false, &[]),
        node("core", ver(5), false, false, &[]),
    ];
    let report = resolve(&nodes, &config(), &audited(vec![]), &no_imports()).unwrap();
    let list: Vec<(&str, u64)> = report
        .suggestions
        .iter()
        .map(|s| (s.name.as_str(), s.to.major))
        .collect();
    assert_eq!(list, vec![("core", 5), ("core", 10), ("lib", 3)]);
}

#[test]
fn suggestion_prefers_the_nearest_anchor_and_then_the_lower() {
    let mut audits = all_audited();
    audits.audits.insert(
        "trans".to_string(),
        vec![
            full_audit(ver(13), "reviewed"),
            full_audit(ver(4), "reviewed"),
            full_audit(ver(12), "reviewed"),
            full_audit(ver(8), "reviewed"),
        ],
    );
    let report = resolve(&simple(), &config(), &audits, &no_imports()).unwrap();
    assert_eq!(report.suggestions.len(), 1);
    // 8 and 12 are equally near; the lower wins
    assert!(report.suggestions[0].from.as_ref().unwrap().same(&ver(8)));
    assert!(report.suggestions[0].to.same(&ver(10)));
    assert_eq!(report.suggestions[0].cost, Distance { major: 2, minor: 0, patch: 0 });
}

#[test]
fn suggestion_is_made_for_the_strongest_missing_criteria() {
    let mut config = config();
    config.policy.insert(
        "first".to_string(),
        dep_policy(vec![("thirdB".to_string(), names(&["strong-reviewed", "fuzzed"]))]),
    );
    let mut audits = all_audited();
    audits
        .audits
        .insert("thirdB".to_string(), vec![full_audit(ver(10), "weak-reviewed")]);
    let report = resolve(&simple(), &config, &audits, &no_imports()).unwrap();
    assert_eq!(missing(&report, "thirdB"), names(&["strong-reviewed", "reviewed", "fuzzed"]));
    let list: Vec<&str> = report.suggestions.iter().map(|s| s.criteria.as_str()).collect();
    assert_eq!(list, vec!["strong-reviewed", "fuzzed"]);
}

#[test]
fn first_party_answers_to_first_party_only() {
    // a registry package that depends on a path package: its demand is not
    // handed on
    let nodes = vec![
        node("root", ver(1), true, true, &[("third", 1)]),
        node("third", ver(1), false, false, &[("inner", 1)]),
        node("inner", ver(1), false, true, &[("leaf", 1)]),
        node("leaf", ver(1), false, false, &[]),
    ];
    let audits = audited(vec![("third", vec![full_audit(ver(1), "strong-reviewed")])]);
    let mut config = config();
    config.policy.insert("root".to_string(), self_policy(names(&["strong-reviewed"])));
    let report = resolve(&nodes, &config, &audits, &no_imports()).unwrap();
    assert!(report.success);
    assert!(required(&report, "inner").is_empty());
    assert!(required(&report, "leaf").is_empty());
}

#[test]
fn declared_policy_replaces_what_is_handed_down() {
    let mut config = config();
    config.policy.insert("root".to_string(), self_policy(names(&["strong-reviewed"])));
    config.policy.insert("first".to_string(), self_policy(names(&["fuzzed"])));
    let audits = audited(vec![
        ("thirdA", vec![full_audit(ver(10), "fuzzed")]),
        ("thirdB", vec![full_audit(ver(10), "fuzzed")]),
        ("trans", vec![full_audit(ver(10), "fuzzed")]),
    ]);
    let report = resolve(&simple(), &config, &audits, &no_imports()).unwrap();
    assert!(report.success);
    assert_eq!(required(&report, "first"), names(&["strong-reviewed", "reviewed", "weak-reviewed"]));
    assert_eq!(required(&report, "thirdA"), names(&["fuzzed"]));
}

#[test]
fn delta_from_a_version_to_itself_changes_nothing() {
    let mut audits = all_audited();
    audits
        .audits
        .insert("trans".to_string(), vec![delta_audit(ver(10), ver(10), "reviewed")]);
    let report = resolve(&simple(), &config(), &audits, &no_imports()).unwrap();
    assert_eq!(verdict(&report, "trans"), Verdict::FailMissing);
    assert!(achieved(&report, "trans").is_empty());
}

#[test]
fn delta_cycle_does_not_help_and_does_not_hang() {
    let mut audits = all_audited();
    audits.audits.insert(
        "trans".to_string(),
        vec![
            delta_audit(ver(8), ver(9), "reviewed"),
            delta_audit(ver(9), ver(10), "reviewed"),
            delta_audit(ver(10), ver(8), "reviewed"),
        ],
    );
    let report = resolve(&simple(), &config(), &audits, &no_imports()).unwrap();
    assert_eq!(verdict(&report, "trans"), Verdict::FailMissing);
    let mut config = config();
    config
        .unaudited
        .insert("trans".to_string(), vec![unaudited(ver(9), "reviewed")]);
    let report = resolve(&simple(), &config, &audits, &no_imports()).unwrap();
    assert!(report.success);
}

#[test]
fn build_metadata_tells_versions_apart() {
    let tagged = Version::parse("10.0.0+one").unwrap();
    let mut audits = all_audited();
    audits
        .audits
        .insert("trans".to_string(), vec![full_audit(tagged, "reviewed")]);
    let report = resolve(&simple(), &config(), &audits, &no_imports()).unwrap();
    assert_eq!(verdict(&report, "trans"), Verdict::FailMissing);
}

#[test]
fn long_chain_resolves() {
    let count: u64 = 150;
    let mut nodes = vec![node("root", ver(1), true, true, &[("p0", 1)])];
    for i in 0..count {
        let name = format!("p{i}");
        let next = format!("p{}", i + 1);
        let deps: Vec<(&str, u64)> = if i + 1 < count {
            vec![(next.as_str(), 1)]
        } else {
            vec![]
        };
        nodes.push(node(&name, ver(1), false, false, &deps));
    }
    let (config, audits, imports) = init_files(&nodes);
    let report = resolve(&nodes, &config, &audits, &imports).unwrap();
    assert!(report.success);
    assert_eq!(report.packages.len(), 151);
    assert_eq!(report.packages[0].name, "p149");
    assert_eq!(report.packages[150].name, "root");
    // without the exemption of the last package the whole chain fails
    let mut config = config;
    config.unaudited.insert("p149".to_string(), vec![]);
    let report = resolve(&nodes, &config, &audits, &imports).unwrap();
    assert!(!report.success);
    assert_eq!(report.suggestions.len(), 1);
    assert_eq!(report.suggestions[0].name, "p149");
    assert!(report.packages.iter().all(|p| p.verdict != Verdict::Pass || p.name == "root"));
}

#[test]
fn resolve_of_nothing_succeeds() {
    let report = resolve(&vec![], &config(), &audited(vec![]), &no_imports()).unwrap();
    assert!(report.success);
    assert!(report.packages.is_empty());
}

#[test]
fn version_new_is_plain_release() {
    let v = Version::new(10, 0, 0);
    assert_eq!(v.major, 10);
    assert!(v.pre.is_empty());
    assert!(v.is_well_formed());
}

#[test]
fn requirement_matches_exact_version() {
    let req = VersionReq::parse("=10").unwrap();
    assert_eq!(req.checked_matches(&Version::new(10, 0, 0)), Some(true));
    assert_eq!(req.checked_matches(&Version::new(9, 0, 0)), Some(false));
}

#[test]
fn distance_between_versions() {
    let d = Distance::between(&Version::new(9, 0, 0), &Version::new(9, 5, 0));
    assert_eq!(d, Distance { major: 0, minor: 5, patch: 0 });
}
