use cargo_vet::format::{
    dep_policy, full_audit, recorded_unaudited, self_policy, AuditKind, PolicyEntry,
};
use cargo_vet::graph::{EdgeKind, PackageNode};
use cargo_vet::init::{criterion_or_default, init_files};
use cargo_vet::mock::{
    dep, dep_ver, files_full_audited, files_inited, files_no_unaudited, ver, violation_hard,
    MockMetadata, DEFAULT_CRIT, DEFAULT_VER,
};
use cargo_vet::model::Verdict;
use cargo_vet::resolver::resolve;
use cargo_vet::version::{Version, VersionReq};

fn names(list: &[&str]) -> Vec<String> {
    list.iter().map(|s| s.to_string()).collect()
}

fn shape(nodes: &[PackageNode]) -> Vec<(String, u64, bool, bool, Vec<(String, u64)>)> {
    nodes
        .iter()
        .map(|n| {
            assert_eq!(n.version, Version::new(n.version.major, 0, 0));
            (
                n.name.clone(),
                n.version.major,
                n.is_root,
                n.is_first_party,
                n.deps
                    .iter()
                    .map(|d| {
                        assert_eq!(d.kind, EdgeKind::Normal);
                        assert_eq!(d.id.version, Version::new(d.id.version.major, 0, 0));
                        (d.id.name.clone(), d.id.version.major)
                    })
                    .collect(),
            )
        })
        .collect()
}

fn place(name: &str, major: u64, root: bool, first: bool, deps: &[(&str, u64)]) -> (String, u64, bool, bool, Vec<(String, u64)>) {
    (
        name.to_string(),
        major,
        root,
        first,
        deps.iter().map(|(n, v)| (n.to_string(), *v)).collect(),
    )
}

fn policy_is_that_of_a_root(policy: &PolicyEntry) {
    assert_eq!(policy.criteria, names(&["reviewed"]));
    assert_eq!(policy.build_and_dev_criteria, names(&["reviewed"]));
    assert_eq!(policy.dependency_criteria.len(), 0);
    assert!(policy.targets.is_none());
    assert!(policy.build_and_dev_targets.is_none());
}

#[test]
fn sample_versions_and_dependencies() {
    assert_eq!(DEFAULT_VER, 10);
    assert_eq!(DEFAULT_CRIT, "reviewed");
    assert_eq!(ver(7), Version::new(7, 0, 0));
    assert_eq!(ver(7).text().unwrap(), "7.0.0");
    let same = dep("left");
    assert_eq!(same.id.name, "left");
    assert_eq!(same.id.version, Version::new(10, 0, 0));
    assert_eq!(same.kind, EdgeKind::Normal);
    let other = dep_ver("right", 3);
    assert_eq!(other.id.name, "right");
    assert_eq!(other.id.version, Version::new(3, 0, 0));
    assert_eq!(other.kind, EdgeKind::Normal);
}

#[test]
fn hard_violation_fails_the_weakest_criterion() {
    let entry = violation_hard(VersionReq::parse("=10.0.0").unwrap());
    assert_eq!(entry.criteria, "weak-reviewed");
    assert!(entry.who.is_none());
    assert!(entry.notes.is_none());
    assert!(matches!(&entry.kind, AuditKind::Violation { violation } if violation.text == "=10.0.0"));
}

#[test]
fn simple_sample_is_a_tree_of_five() {
    let nodes = MockMetadata::simple().metadata();
    assert_eq!(
        shape(&nodes),
        vec![
            place("root-package", 10, true, true, &[("first-party", 10)]),
            place("first-party", 10, false, true, &[("third-party1", 10), ("third-party2", 10)]),
            place("third-party1", 10, false, false, &[("transitive-third-party1", 10)]),
            place("third-party2", 10, false, false, &[]),
            place("transitive-third-party1", 10, false, false, &[]),
        ]
    );
}

#[test]
fn complex_sample_is_a_graph_of_ten() {
    let nodes = MockMetadata::complex().metadata();
    assert_eq!(
        shape(&nodes),
        vec![
            place("rootA", 10, true, true, &[("firstA", 10), ("firstAB", 10)]),
            place("rootB", 10, true, true, &[("firstB", 10), ("firstAB", 10), ("firstB-nodeps", 10)]),
            place("firstA", 10, false, true, &[("thirdA", 10), ("third-core", 5)]),
            place("firstAB", 10, false, true, &[("thirdAB", 10)]),
            place("firstB", 10, false, true, &[("third-core", 10)]),
            place("firstB-nodeps", 10, false, true, &[]),
            place("thirdA", 10, false, false, &[("third-core", 10)]),
            place("thirdAB", 10, false, false, &[("third-core", 10)]),
            place("third-core", 10, false, false, &[]),
            place("third-core", 5, false, false, &[]),
        ]
    );
}

#[test]
fn sample_graph_refuses_a_package_that_stands_twice() {
    let mut packages = MockMetadata::simple().metadata();
    let kept = shape(&packages);
    let mock = MockMetadata::new(packages.clone()).unwrap();
    assert_eq!(shape(&mock.metadata()), kept);
    packages.push(packages[3].clone());
    assert!(MockMetadata::new(packages.clone()).is_none());
    // the same name at another version is no duplicate
    packages[5].version = ver(4);
    let mock = MockMetadata::new(packages).unwrap();
    assert_eq!(mock.packages.len(), 6);
}

#[test]
fn sample_source_is_the_registry_for_third_parties() {
    let nodes = MockMetadata::simple().metadata();
    assert_eq!(MockMetadata::source(&nodes[0]), None);
    assert_eq!(MockMetadata::source(&nodes[1]), None);
    let source = MockMetadata::source(&nodes[2]);
    assert_eq!(
        source.as_deref(),
        Some("registry+https://github.com/rust-lang/crates.io-index")
    );
    let again = PackageNode::from_source(
        nodes[2].name.clone(),
        nodes[2].version.clone(),
        source.as_ref(),
        false,
        vec![],
    );
    assert!(!again.is_first_party);
}

#[test]
fn files_inited_hold_the_sample_criteria_and_exempt_everything() {
    let nodes = MockMetadata::complex().metadata();
    let (config, audits, imports) = files_inited(&nodes);
    assert_eq!(config.default_criteria, "reviewed");
    assert_eq!(config.imports.len(), 0);
    let table: Vec<(&str, Vec<String>, Option<&str>)> = audits
        .criteria
        .entries
        .iter()
        .map(|(n, e)| {
            assert!(e.description_url.is_none());
            (n.as_str(), e.implies.clone(), e.description.as_deref())
        })
        .collect();
    assert_eq!(
        table,
        vec![
            ("strong-reviewed", names(&["reviewed"]), Some("strongly reviewed")),
            ("reviewed", names(&["weak-reviewed"]), Some("reviewed")),
            ("weak-reviewed", names(&[]), Some("weakly reviewed")),
            ("fuzzed", names(&[]), Some("fuzzed")),
        ]
    );
    let roots: Vec<&str> = config.policy.entries.iter().map(|(n, _)| n.as_str()).collect();
    assert_eq!(roots, vec!["rootA", "rootB"]);
    for (_, policy) in &config.policy.entries {
        policy_is_that_of_a_root(policy);
    }
    let exempted: Vec<(&str, Vec<(u64, &str, bool)>)> = config
        .unaudited
        .entries
        .iter()
        .map(|(n, list)| {
            (
                n.as_str(),
                list.iter()
                    .map(|u| {
                        assert!(u.notes.is_none());
                        assert_eq!(u.version, ver(u.version.major));
                        (u.version.major, u.criteria.as_str(), u.suggest)
                    })
                    .collect(),
            )
        })
        .collect();
    assert_eq!(
        exempted,
        vec![
            ("thirdA", vec![(10, "reviewed", true)]),
            ("thirdAB", vec![(10, "reviewed", true)]),
            ("third-core", vec![(10, "reviewed", true), (5, "reviewed", true)]),
        ]
    );
    assert_eq!(audits.audits.len(), 0);
    assert_eq!(imports.audits.len(), 0);
    // the exemptions are those of a project that starts out, at another criterion
    let (started, _, _) = init_files(&nodes);
    assert_eq!(started.unaudited.len(), config.unaudited.len());
    for (mine, theirs) in config.unaudited.entries.iter().zip(&started.unaudited.entries) {
        assert_eq!(mine.0, theirs.0);
        assert_eq!(mine.1.len(), theirs.1.len());
        for (a, b) in mine.1.iter().zip(&theirs.1) {
            assert_eq!(a.version, b.version);
            assert_eq!(b.criteria, "safe-to-deploy");
        }
    }
}

#[test]
fn files_no_unaudited_exempt_nothing() {
    let nodes = MockMetadata::simple().metadata();
    let (config, audits, imports) = files_no_unaudited(&nodes);
    assert_eq!(config.unaudited.len(), 0);
    assert_eq!(config.default_criteria, "reviewed");
    assert_eq!(config.policy.len(), 1);
    assert_eq!(config.policy.entries[0].0, "root-package");
    policy_is_that_of_a_root(&config.policy.entries[0].1);
    let table: Vec<&str> = audits.criteria.entries.iter().map(|(n, _)| n.as_str()).collect();
    assert_eq!(table, vec!["strong-reviewed", "reviewed", "weak-reviewed", "fuzzed"]);
    assert_eq!(audits.audits.len(), 0);
    assert_eq!(imports.audits.len(), 0);
}

#[test]
fn files_full_audited_audit_every_third_party_version() {
    let nodes = MockMetadata::complex().metadata();
    let (config, audits, imports) = files_full_audited(&nodes);
    assert_eq!(config.unaudited.len(), 0);
    assert_eq!(config.policy.len(), 2);
    assert_eq!(imports.audits.len(), 0);
    let listed: Vec<(&str, Vec<u64>)> = audits
        .audits
        .entries
        .iter()
        .map(|(n, list)| {
            (
                n.as_str(),
                list.iter()
                    .map(|e| {
                        assert_eq!(e.criteria, "reviewed");
                        assert!(e.who.is_none() && e.notes.is_none());
                        match &e.kind {
                            AuditKind::Full { version, dependency_criteria } => {
                                assert_eq!(dependency_criteria.len(), 0);
                                assert_eq!(*version, ver(version.major));
                                version.major
                            }
                            _ => panic!("a full audit was expected"),
                        }
                    })
                    .collect(),
            )
        })
        .collect();
    assert_eq!(
        listed,
        vec![("thirdA", vec![10]), ("thirdAB", vec![10]), ("third-core", vec![10, 5])]
    );
}

#[test]
fn sample_files_resolve_as_they_are_meant_to() {
    for nodes in [MockMetadata::simple().metadata(), MockMetadata::complex().metadata()] {
        let (config, audits, imports) = files_inited(&nodes);
        assert!(resolve(&nodes, &config, &audits, &imports).unwrap().success);
        let (config, audits, imports) = files_full_audited(&nodes);
        assert!(resolve(&nodes, &config, &audits, &imports).unwrap().success);
        let (config, audits, imports) = files_no_unaudited(&nodes);
        let report = resolve(&nodes, &config, &audits, &imports).unwrap();
        assert!(!report.success);
        assert!(report
            .packages
            .iter()
            .any(|p| p.is_third_party && p.verdict == Verdict::FailMissing));
        assert!(report
            .packages
            .iter()
            .all(|p| p.is_third_party || p.verdict != Verdict::FailMissing));
    }
}

#[test]
fn replacing_a_policy_criterion_by_one_it_implies_keeps_what_passed() {
    let nodes = MockMetadata::simple().metadata();
    let (mut strong, mut audits, imports) = files_full_audited(&nodes);
    // third-party1 is audited at `reviewed`, and its dependency only weakly
    audits.audits.entries[2].1 = vec![full_audit(ver(DEFAULT_VER), "weak-reviewed")];
    strong.policy.insert(
        "first-party".to_string(),
        dep_policy(vec![(
            "third-party1".to_string(),
            names(&["strong-reviewed", "fuzzed"]),
        )]),
    );
    let mut weak = strong.clone();
    weak.policy.entries[1].1.dependency_criteria.entries[0].1 = names(&["reviewed", "fuzzed"]);
    let mut weaker = weak.clone();
    weaker.policy.entries[0].1.criteria = names(&["weak-reviewed"]);
    let first = resolve(&nodes, &strong, &audits, &imports).unwrap();
    let second = resolve(&nodes, &weak, &audits, &imports).unwrap();
    let third = resolve(&nodes, &weaker, &audits, &imports).unwrap();
    for k in 0..nodes.len() {
        if first.packages[k].verdict == Verdict::Pass {
            assert_eq!(second.packages[k].verdict, Verdict::Pass);
        }
        if second.packages[k].verdict == Verdict::Pass {
            assert_eq!(third.packages[k].verdict, Verdict::Pass);
        }
        assert_eq!(first.packages[k].achieved, second.packages[k].achieved);
        assert_eq!(second.packages[k].achieved, third.packages[k].achieved);
    }
    assert!(!first.success && !second.success && !third.success);
    // with the dependency audited in full, the weaker root policy is met
    audits.audits.entries[2].1 = vec![full_audit(ver(DEFAULT_VER), "reviewed")];
    weaker.policy.entries[1].1 = self_policy(names(&[]));
    assert!(resolve(&nodes, &weaker, &audits, &imports).unwrap().success);
}

#[test]
fn recorded_violation_masks_whatever_else_is_recorded() {
    let nodes = MockMetadata::simple().metadata();
    let (config, mut audits, imports) = files_full_audited(&nodes);
    audits.audits.entries[0]
        .1
        .push(full_audit(ver(DEFAULT_VER), "strong-reviewed"));
    audits.audits.entries[0]
        .1
        .insert(0, violation_hard(VersionReq::parse("^10").unwrap()));
    audits.audits.entries[2]
        .1
        .push(full_audit(ver(DEFAULT_VER), "strong-reviewed"));
    let report = resolve(&nodes, &config, &audits, &imports).unwrap();
    let package = report.packages.iter().find(|p| p.name == "third-party1").unwrap();
    // the violation stands at `weak-reviewed`, which implies nothing else
    assert_eq!(
        report.names_of(&package.achieved),
        names(&["strong-reviewed", "reviewed"])
    );
    assert_eq!(package.verdict, Verdict::FailViolation);
    assert_eq!(package.masked_by, vec![0]);
}

#[test]
fn default_criterion_and_suggest_flag_of_a_file() {
    assert_eq!(criterion_or_default(None), "safe-to-deploy");
    assert_eq!(criterion_or_default(Some("reviewed".to_string())), "reviewed");
    let open = recorded_unaudited(ver(3), "reviewed".to_string(), None, None);
    assert!(open.suggest);
    assert_eq!(open.version, ver(3));
    assert_eq!(open.criteria, "reviewed");
    assert!(open.notes.is_none());
    let shut = recorded_unaudited(ver(3), "fuzzed".to_string(), Some("known".to_string()), Some(false));
    assert!(!shut.suggest);
    assert_eq!(shut.notes.as_deref(), Some("known"));
    let said = recorded_unaudited(ver(3), "fuzzed".to_string(), None, Some(true));
    assert!(said.suggest);
}

#[test]
fn version_without_tags_is_well_formed() {
    assert!(Version::new(0, 0, 0).is_well_formed());
    assert!(Version::new(1, 2, 3).is_well_formed());
    assert!(ver(DEFAULT_VER).is_well_formed());
}
