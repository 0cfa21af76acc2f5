use cargo_vet::format::{
    delta_audit, dep_policy, full_audit, full_audit_dep, self_policy, unaudited, StableMap,
};
use cargo_vet::graph::PackageNode;
use cargo_vet::mock::{
    files_full_audited, files_inited, files_no_unaudited, ver, violation_hard, MockMetadata,
    DEFAULT_CRIT, DEFAULT_VER,
};
use cargo_vet::model::Verdict;
use cargo_vet::report::{Report, Warning};
use cargo_vet::resolver::resolve;
use cargo_vet::version::{Version, VersionReq};

fn names(list: &[&str]) -> Vec<String> {
    list.iter().map(|s| s.to_string()).collect()
}

fn dep_criteria(list: &[(&str, &[&str])]) -> Vec<(String, Vec<String>)> {
    list.iter()
        .map(|(k, v)| (k.to_string(), names(v)))
        .collect()
}

fn show(version: &Version) -> String {
    version.text().unwrap()
}

fn entry_or_insert<'a, V>(map: &'a mut StableMap<Vec<V>>, name: &str) -> &'a mut Vec<V> {
    if !map.contains_key(&name.to_string()) {
        map.insert(name.to_string(), vec![]);
    }
    at(map, name)
}

fn at<'a, V>(map: &'a mut StableMap<V>, name: &str) -> &'a mut V {
    let found = map.entries.iter_mut().find(|entry| entry.0 == name);
    &mut found.unwrap().1
}

fn verdict_of(report: &Report, name: &str, version: u64) -> Verdict {
    let found = report
        .packages
        .iter()
        .find(|p| p.name == name && p.version == ver(version));
    found.unwrap().verdict
}

fn failures(report: &Report) -> Vec<(String, u64, Verdict)> {
    let mut list: Vec<(String, u64, Verdict)> = report
        .packages
        .iter()
        .filter(|p| p.verdict != Verdict::Pass)
        .map(|p| (p.name.clone(), p.version.major, p.verdict))
        .collect();
    list.sort_by(|a, b| (&a.0, a.1).cmp(&(&b.0, b.1)));
    list
}

fn failed(list: &[(&str, u64, Verdict)]) -> Vec<(String, u64, Verdict)> {
    list.iter().map(|(n, v, d)| (n.to_string(), *v, *d)).collect()
}

fn suggested(report: &Report) -> Vec<(String, Option<u64>, u64, String)> {
    report
        .suggestions
        .iter()
        .map(|s| {
            (
                s.name.clone(),
                s.from.as_ref().map(|v| v.major),
                s.to.major,
                s.criteria.clone(),
            )
        })
        .collect()
}

fn suggestions(list: &[(&str, Option<u64>, u64, &str)]) -> Vec<(String, Option<u64>, u64, String)> {
    list.iter()
        .map(|(n, f, t, c)| (n.to_string(), *f, *t, c.to_string()))
        .collect()
}

fn unused(report: &Report) -> Vec<(String, usize)> {
    report
        .warnings
        .iter()
        .map(|w| match w {
            Warning::UnusedExemption { name, entry } => (name.clone(), *entry),
            Warning::UnknownDependency { name, entry, .. } => (format!("{}?", name), *entry),
        })
        .collect()
}

fn get_report(metadata: &Vec<PackageNode>, report: Report) -> String {
    let mut stdout = String::new();
    assert_eq!(metadata.len(), report.packages.len());
    stdout.push_str(if report.success {
        "Vetting Succeeded\n"
    } else {
        "Vetting Failed!\n"
    });
    for package in &report.packages {
        stdout.push_str(&format!(
            "  {}:{} {:?} achieved {:?} required {:?} missing {:?} masked_by {:?}\n",
            package.name,
            show(&package.version),
            package.verdict,
            report.names_of(&package.achieved),
            report.names_of(&package.required),
            report.names_of(&package.missing),
            package.masked_by
        ));
    }
    for suggestion in &report.suggestions {
        stdout.push_str(&format!(
            "  suggest {} {} -> {} for {} at cost {:?}\n",
            suggestion.name,
            match &suggestion.from {
                Some(v) => show(v),
                None => "nothing".to_string(),
            },
            show(&suggestion.to),
            suggestion.criteria,
            suggestion.cost
        ));
    }
    for warning in &report.warnings {
        stdout.push_str(&format!("  warning {:?}\n", warning));
    }
    stdout
}

#[test]
fn mock_simple_init() {
    // (Pass) Should look the same as a fresh 'vet init'.

    let mock = MockMetadata::simple();

    let metadata = mock.metadata();
    let (config, audits, imports) = files_inited(&metadata);

    let report = resolve(&metadata, &config, &audits, &imports).unwrap();
    assert_eq!(report.success, true);
    assert_eq!(failures(&report), failed(&[]));
    assert_eq!(suggested(&report), suggestions(&[]));
    assert_eq!(unused(&report), vec![]);
    let stdout = get_report(&metadata, report);
    assert!(stdout.starts_with("Vetting Succeeded"));
}

#[test]
fn mock_simple_no_unaudited() {
    // (Fail) Should look the same as a fresh 'vet init' but with all 'unaudited' entries deleted.

    let mock = MockMetadata::simple();

    let metadata = mock.metadata();
    let (config, audits, imports) = files_no_unaudited(&metadata);

    let report = resolve(&metadata, &config, &audits, &imports).unwrap();

    assert_eq!(report.success, false);
    assert_eq!(failures(&report), failed(&[("first-party", 10, Verdict::FailPolicy), ("third-party1", 10, Verdict::FailMissing), ("third-party2", 10, Verdict::FailMissing)]));
    assert_eq!(suggested(&report), suggestions(&[("third-party2", None, 10, "reviewed"), ("third-party1", None, 10, "reviewed")]));
    assert_eq!(unused(&report), vec![]);
    let stdout = get_report(&metadata, report);
    assert!(stdout.starts_with("Vetting Failed!"));
}

#[test]
fn mock_simple_full_audited() {
    // (Pass) All entries have direct full audits.

    let mock = MockMetadata::simple();

    let metadata = mock.metadata();
    let (config, audits, imports) = files_full_audited(&metadata);

    let report = resolve(&metadata, &config, &audits, &imports).unwrap();

    assert_eq!(report.success, true);
    assert_eq!(failures(&report), failed(&[]));
    assert_eq!(suggested(&report), suggestions(&[]));
    assert_eq!(unused(&report), vec![]);
    let stdout = get_report(&metadata, report);
    assert!(stdout.starts_with("Vetting Succeeded"));
}

#[test]
fn mock_simple_forbidden_unaudited() {
    // (Fail) All marked 'unaudited' but a 'violation' entry matches a current version.

    let mock = MockMetadata::simple();

    let metadata = mock.metadata();
    let (config, mut audits, imports) = files_inited(&metadata);

    let violation = VersionReq::parse(&format!("={DEFAULT_VER}")).unwrap();
    entry_or_insert(&mut audits.audits, "third-party1").push(violation_hard(violation));

    let report = resolve(&metadata, &config, &audits, &imports).unwrap();

    assert_eq!(report.success, false);
    assert_eq!(failures(&report), failed(&[("first-party", 10, Verdict::FailPolicy), ("third-party1", 10, Verdict::FailViolation)]));
    assert_eq!(suggested(&report), suggestions(&[]));
    assert_eq!(unused(&report), vec![]);
    let stdout = get_report(&metadata, report);
    assert!(stdout.starts_with("Vetting Failed!"));
}

#[test]
fn mock_simple_missing_transitive() {
    // (Fail) Missing an audit for a transitive dep

    let mock = MockMetadata::simple();

    let metadata = mock.metadata();
    let (config, mut audits, imports) = files_full_audited(&metadata);

    at(&mut audits.audits, "transitive-third-party1").clear();

    let report = resolve(&metadata, &config, &audits, &imports).unwrap();

    assert_eq!(report.success, false);
    assert_eq!(failures(&report), failed(&[("first-party", 10, Verdict::FailPolicy), ("third-party1", 10, Verdict::FailMissing), ("transitive-third-party1", 10, Verdict::FailMissing)]));
    assert_eq!(suggested(&report), suggestions(&[("transitive-third-party1", None, 10, "reviewed")]));
    assert_eq!(unused(&report), vec![]);
    let stdout = get_report(&metadata, report);
    assert!(stdout.starts_with("Vetting Failed!"));
}

#[test]
fn mock_simple_missing_direct_internal() {
    // (Fail) Missing an audit for a direct dep that has children

    let mock = MockMetadata::simple();

    let metadata = mock.metadata();
    let (config, mut audits, imports) = files_full_audited(&metadata);

    at(&mut audits.audits, "third-party1").clear();

    let report = resolve(&metadata, &config, &audits, &imports).unwrap();

    assert_eq!(report.success, false);
    assert_eq!(failures(&report), failed(&[("first-party", 10, Verdict::FailPolicy), ("third-party1", 10, Verdict::FailMissing)]));
    assert_eq!(suggested(&report), suggestions(&[("third-party1", None, 10, "reviewed")]));
    assert_eq!(unused(&report), vec![]);
    let stdout = get_report(&metadata, report);
    assert!(stdout.starts_with("Vetting Failed!"));
}

#[test]
fn mock_simple_missing_direct_leaf() {
    // (Fail) Missing an entry for direct dep that has no children

    let mock = MockMetadata::simple();

    let metadata = mock.metadata();
    let (config, mut audits, imports) = files_full_audited(&metadata);

    at(&mut audits.audits, "third-party2").clear();

    let report = resolve(&metadata, &config, &audits, &imports).unwrap();

    assert_eq!(report.success, false);
    assert_eq!(failures(&report), failed(&[("first-party", 10, Verdict::FailPolicy), ("third-party2", 10, Verdict::FailMissing)]));
    assert_eq!(suggested(&report), suggestions(&[("third-party2", None, 10, "reviewed")]));
    assert_eq!(unused(&report), vec![]);
    let stdout = get_report(&metadata, report);
    assert!(stdout.starts_with("Vetting Failed!"));
}

#[test]
fn mock_simple_missing_leaves() {
    // (Fail) Missing all leaf audits (but not the internal)

    let mock = MockMetadata::simple();

    let metadata = mock.metadata();
    let (config, mut audits, imports) = files_full_audited(&metadata);

    at(&mut audits.audits, "third-party2").clear();
    at(&mut audits.audits, "transitive-third-party1").clear();

    let report = resolve(&metadata, &config, &audits, &imports).unwrap();

    assert_eq!(report.success, false);
    assert_eq!(failures(&report), failed(&[("first-party", 10, Verdict::FailPolicy), ("third-party1", 10, Verdict::FailMissing), ("third-party2", 10, Verdict::FailMissing), ("transitive-third-party1", 10, Verdict::FailMissing)]));
    assert_eq!(suggested(&report), suggestions(&[("third-party2", None, 10, "reviewed"), ("transitive-third-party1", None, 10, "reviewed")]));
    assert_eq!(unused(&report), vec![]);
    let stdout = get_report(&metadata, report);
    assert!(stdout.starts_with("Vetting Failed!"));
}

#[test]
fn mock_simple_weaker_transitive_req() {
    // (Pass) A third-party dep with weaker requirements on a child dep

    let mock = MockMetadata::simple();

    let metadata = mock.metadata();
    let (config, mut audits, imports) = files_full_audited(&metadata);

    let trans_audits = at(&mut audits.audits, "transitive-third-party1");
    trans_audits.clear();
    trans_audits.push(full_audit(ver(DEFAULT_VER), "weak-reviewed"));

    let direct_audits = at(&mut audits.audits, "third-party1");
    direct_audits.clear();
    direct_audits.push(full_audit_dep(
        ver(DEFAULT_VER),
        "reviewed",
        dep_criteria(&[("transitive-third-party1", &["weak-reviewed"])]),
    ));

    let report = resolve(&metadata, &config, &audits, &imports).unwrap();

    assert_eq!(report.success, true);
    assert_eq!(failures(&report), failed(&[]));
    assert_eq!(suggested(&report), suggestions(&[]));
    assert_eq!(unused(&report), vec![]);
    let stdout = get_report(&metadata, report);
    assert!(stdout.starts_with("Vetting Succeeded"));
}

#[test]
fn mock_simple_weaker_transitive_req_using_implies() {
    // (Pass) A third-party dep with weaker requirements on a child dep
    // but the child dep actually has *super* reqs, to check that implies works

    let mock = MockMetadata::simple();

    let metadata = mock.metadata();
    let (config, mut audits, imports) = files_full_audited(&metadata);

    let trans_audits = at(&mut audits.audits, "transitive-third-party1");
    trans_audits.clear();
    trans_audits.push(full_audit(ver(DEFAULT_VER), "strong-reviewed"));

    let direct_audits = at(&mut audits.audits, "third-party1");
    direct_audits.clear();
    direct_audits.push(full_audit_dep(
        ver(DEFAULT_VER),
        "reviewed",
        dep_criteria(&[("transitive-third-party1", &["weak-reviewed"])]),
    ));

    let report = resolve(&metadata, &config, &audits, &imports).unwrap();

    assert_eq!(report.success, true);
    assert_eq!(failures(&report), failed(&[]));
    assert_eq!(suggested(&report), suggestions(&[]));
    assert_eq!(unused(&report), vec![]);
    let stdout = get_report(&metadata, report);
    assert!(stdout.starts_with("Vetting Succeeded"));
}

#[test]
fn mock_simple_lower_version_review() {
    // (Fail) A dep that has a review but for a lower version.

    let mock = MockMetadata::simple();

    let metadata = mock.metadata();
    let (config, mut audits, imports) = files_full_audited(&metadata);

    let direct_audits = at(&mut audits.audits, "third-party1");
    direct_audits.clear();
    direct_audits.push(full_audit(ver(DEFAULT_VER - 1), DEFAULT_CRIT));

    let report = resolve(&metadata, &config, &audits, &imports).unwrap();

    assert_eq!(report.success, false);
    assert_eq!(failures(&report), failed(&[("first-party", 10, Verdict::FailPolicy), ("third-party1", 10, Verdict::FailMissing)]));
    assert_eq!(suggested(&report), suggestions(&[("third-party1", Some(9), 10, "reviewed")]));
    assert_eq!(unused(&report), vec![]);
    let stdout = get_report(&metadata, report);
    assert!(stdout.starts_with("Vetting Failed!"));
}

#[test]
fn mock_simple_higher_version_review() {
    // (Fail) A dep that has a review but for a higher version.

    let mock = MockMetadata::simple();

    let metadata = mock.metadata();
    let (config, mut audits, imports) = files_full_audited(&metadata);

    let direct_audits = at(&mut audits.audits, "third-party1");
    direct_audits.clear();
    direct_audits.push(full_audit(ver(DEFAULT_VER + 1), DEFAULT_CRIT));

    let report = resolve(&metadata, &config, &audits, &imports).unwrap();

    assert_eq!(report.success, false);
    assert_eq!(failures(&report), failed(&[("first-party", 10, Verdict::FailPolicy), ("third-party1", 10, Verdict::FailMissing)]));
    assert_eq!(suggested(&report), suggestions(&[("third-party1", Some(11), 10, "reviewed")]));
    assert_eq!(unused(&report), vec![]);
    let stdout = get_report(&metadata, report);
    assert!(stdout.starts_with("Vetting Failed!"));
}

#[test]
fn mock_simple_higher_and_lower_version_review() {
    // (Fail) A dep that has a review but for both a higher and lower version.
    // Once I mock out fake diffs it should prefer the lower one because the
    // system will make application size grow quadratically.

    let mock = MockMetadata::simple();

    let metadata = mock.metadata();
    let (config, mut audits, imports) = files_full_audited(&metadata);

    let direct_audits = at(&mut audits.audits, "third-party1");
    direct_audits.clear();
    direct_audits.push(full_audit(ver(DEFAULT_VER - 1), DEFAULT_CRIT));
    direct_audits.push(full_audit(ver(DEFAULT_VER + 1), DEFAULT_CRIT));

    let report = resolve(&metadata, &config, &audits, &imports).unwrap();

    assert_eq!(report.success, false);
    assert_eq!(failures(&report), failed(&[("first-party", 10, Verdict::FailPolicy), ("third-party1", 10, Verdict::FailMissing)]));
    assert_eq!(suggested(&report), suggestions(&[("third-party1", Some(9), 10, "reviewed")]));
    assert_eq!(unused(&report), vec![]);
    let stdout = get_report(&metadata, report);
    assert!(stdout.starts_with("Vetting Failed!"));
}

#[test]
fn mock_simple_reviewed_too_weakly() {
    // (Fail) A dep has a review but the criteria is too weak

    let mock = MockMetadata::simple();

    let metadata = mock.metadata();
    let (config, mut audits, imports) = files_full_audited(&metadata);

    let trans_audits = at(&mut audits.audits, "transitive-third-party1");
    trans_audits.clear();
    trans_audits.push(full_audit(ver(DEFAULT_VER), "weak-reviewed"));

    let report = resolve(&metadata, &config, &audits, &imports).unwrap();

    assert_eq!(report.success, false);
    assert_eq!(failures(&report), failed(&[("first-party", 10, Verdict::FailPolicy), ("third-party1", 10, Verdict::FailMissing), ("transitive-third-party1", 10, Verdict::FailMissing)]));
    assert_eq!(suggested(&report), suggestions(&[("transitive-third-party1", None, 10, "reviewed")]));
    assert_eq!(unused(&report), vec![]);
    let stdout = get_report(&metadata, report);
    assert!(stdout.starts_with("Vetting Failed!"));
}

#[test]
fn mock_simple_delta_to_unaudited() {
    // (Pass) A dep has a delta to an unaudited entry

    let mock = MockMetadata::simple();

    let metadata = mock.metadata();
    let (mut config, mut audits, imports) = files_full_audited(&metadata);

    let direct_audits = at(&mut audits.audits, "third-party1");
    direct_audits.clear();
    direct_audits.push(delta_audit(
        ver(DEFAULT_VER - 5),
        ver(DEFAULT_VER),
        DEFAULT_CRIT,
    ));

    let direct_unaudited = &mut config.unaudited;
    direct_unaudited.insert(
        "third-party1".to_string(),
        vec![unaudited(ver(DEFAULT_VER - 5), DEFAULT_CRIT)],
    );

    let report = resolve(&metadata, &config, &audits, &imports).unwrap();

    assert_eq!(report.success, true);
    assert_eq!(failures(&report), failed(&[]));
    assert_eq!(suggested(&report), suggestions(&[]));
    assert_eq!(unused(&report), vec![]);
    let stdout = get_report(&metadata, report);
    assert!(stdout.starts_with("Vetting Succeeded"));
}

#[test]
fn mock_simple_delta_to_unaudited_overshoot() {
    // (Fail) A dep has a delta but it overshoots the unaudited entry.

    let mock = MockMetadata::simple();

    let metadata = mock.metadata();
    let (mut config, mut audits, imports) = files_full_audited(&metadata);

    let direct_audits = at(&mut audits.audits, "third-party1");
    direct_audits.clear();
    direct_audits.push(delta_audit(
        ver(DEFAULT_VER - 7),
        ver(DEFAULT_VER),
        DEFAULT_CRIT,
    ));

    let direct_unaudited = &mut config.unaudited;
    direct_unaudited.insert(
        "third-party1".to_string(),
        vec![unaudited(ver(DEFAULT_VER - 5), DEFAULT_CRIT)],
    );

    let report = resolve(&metadata, &config, &audits, &imports).unwrap();

    assert_eq!(report.success, false);
    assert_eq!(failures(&report), failed(&[("first-party", 10, Verdict::FailPolicy), ("third-party1", 10, Verdict::FailMissing)]));
    assert_eq!(suggested(&report), suggestions(&[("third-party1", Some(5), 3, "reviewed")]));
    assert_eq!(unused(&report), vec![("third-party1".to_string(), 0)]);
    let stdout = get_report(&metadata, report);
    assert!(stdout.starts_with("Vetting Failed!"));
}

#[test]
fn mock_simple_delta_to_unaudited_undershoot() {
    // (Fail) A dep has a delta but it undershoots the unaudited entry.

    let mock = MockMetadata::simple();

    let metadata = mock.metadata();
    let (mut config, mut audits, imports) = files_full_audited(&metadata);

    let direct_audits = at(&mut audits.audits, "third-party1");
    direct_audits.clear();
    direct_audits.push(delta_audit(
        ver(DEFAULT_VER - 3),
        ver(DEFAULT_VER),
        DEFAULT_CRIT,
    ));

    let direct_unaudited = &mut config.unaudited;
    direct_unaudited.insert(
        "third-party1".to_string(),
        vec![unaudited(ver(DEFAULT_VER - 5), DEFAULT_CRIT)],
    );

    let report = resolve(&metadata, &config, &audits, &imports).unwrap();

    assert_eq!(report.success, false);
    assert_eq!(failures(&report), failed(&[("first-party", 10, Verdict::FailPolicy), ("third-party1", 10, Verdict::FailMissing)]));
    assert_eq!(suggested(&report), suggestions(&[("third-party1", Some(5), 7, "reviewed")]));
    assert_eq!(unused(&report), vec![("third-party1".to_string(), 0)]);
    let stdout = get_report(&metadata, report);
    assert!(stdout.starts_with("Vetting Failed!"));
}

#[test]
fn mock_simple_delta_to_full_audit() {
    // (Pass) A dep has a delta to a fully audited entry

    let mock = MockMetadata::simple();

    let metadata = mock.metadata();
    let (config, mut audits, imports) = files_full_audited(&metadata);

    let direct_audits = at(&mut audits.audits, "third-party1");
    direct_audits.clear();
    direct_audits.push(delta_audit(
        ver(DEFAULT_VER - 5),
        ver(DEFAULT_VER),
        DEFAULT_CRIT,
    ));
    direct_audits.push(full_audit(ver(DEFAULT_VER - 5), DEFAULT_CRIT));

    let report = resolve(&metadata, &config, &audits, &imports).unwrap();

    assert_eq!(report.success, true);
    assert_eq!(failures(&report), failed(&[]));
    assert_eq!(suggested(&report), suggestions(&[]));
    assert_eq!(unused(&report), vec![]);
    let stdout = get_report(&metadata, report);
    assert!(stdout.starts_with("Vetting Succeeded"));
}

#[test]
fn mock_simple_delta_to_full_audit_overshoot() {
    // (Fail) A dep has a delta to a fully audited entry but overshoots

    let mock = MockMetadata::simple();

    let metadata = mock.metadata();
    let (config, mut audits, imports) = files_full_audited(&metadata);

    let direct_audits = at(&mut audits.audits, "third-party1");
    direct_audits.clear();
    direct_audits.push(delta_audit(
        ver(DEFAULT_VER - 7),
        ver(DEFAULT_VER),
        DEFAULT_CRIT,
    ));
    direct_audits.push(full_audit(ver(DEFAULT_VER - 5), DEFAULT_CRIT));

    let report = resolve(&metadata, &config, &audits, &imports).unwrap();

    assert_eq!(report.success, false);
    assert_eq!(failures(&report), failed(&[("first-party", 10, Verdict::FailPolicy), ("third-party1", 10, Verdict::FailMissing)]));
    assert_eq!(suggested(&report), suggestions(&[("third-party1", Some(5), 3, "reviewed")]));
    assert_eq!(unused(&report), vec![]);
    let stdout = get_report(&metadata, report);
    assert!(stdout.starts_with("Vetting Failed!"));
}

#[test]
fn mock_simple_delta_to_full_audit_undershoot() {
    // (Fail) A dep has a delta to a fully audited entry but undershoots

    let mock = MockMetadata::simple();

    let metadata = mock.metadata();
    let (config, mut audits, imports) = files_full_audited(&metadata);

    let direct_audits = at(&mut audits.audits, "third-party1");
    direct_audits.clear();
    direct_audits.push(delta_audit(
        ver(DEFAULT_VER - 3),
        ver(DEFAULT_VER),
        DEFAULT_CRIT,
    ));
    direct_audits.push(full_audit(ver(DEFAULT_VER - 5), DEFAULT_CRIT));

    let report = resolve(&metadata, &config, &audits, &imports).unwrap();

    assert_eq!(report.success, false);
    assert_eq!(failures(&report), failed(&[("first-party", 10, Verdict::FailPolicy), ("third-party1", 10, Verdict::FailMissing)]));
    assert_eq!(suggested(&report), suggestions(&[("third-party1", Some(5), 7, "reviewed")]));
    assert_eq!(unused(&report), vec![]);
    let stdout = get_report(&metadata, report);
    assert!(stdout.starts_with("Vetting Failed!"));
}

#[test]
fn mock_simple_reverse_delta_to_full_audit() {
    // (Pass) A dep has a *reverse* delta to a fully audited entry

    let mock = MockMetadata::simple();

    let metadata = mock.metadata();
    let (config, mut audits, imports) = files_full_audited(&metadata);

    let direct_audits = at(&mut audits.audits, "third-party1");
    direct_audits.clear();
    direct_audits.push(delta_audit(
        ver(DEFAULT_VER + 5),
        ver(DEFAULT_VER),
        DEFAULT_CRIT,
    ));
    direct_audits.push(full_audit(ver(DEFAULT_VER + 5), DEFAULT_CRIT));

    let report = resolve(&metadata, &config, &audits, &imports).unwrap();

    assert_eq!(report.success, true);
    assert_eq!(failures(&report), failed(&[]));
    assert_eq!(suggested(&report), suggestions(&[]));
    assert_eq!(unused(&report), vec![]);
    let stdout = get_report(&metadata, report);
    assert!(stdout.starts_with("Vetting Succeeded"));
}

#[test]
fn mock_simple_reverse_delta_to_unaudited() {
    // (Pass) A dep has a *reverse* delta to an unaudited entry

    let mock = MockMetadata::simple();

    let metadata = mock.metadata();
    let (mut config, mut audits, imports) = files_full_audited(&metadata);

    let direct_audits = at(&mut audits.audits, "third-party1");
    direct_audits.clear();
    direct_audits.push(delta_audit(
        ver(DEFAULT_VER + 5),
        ver(DEFAULT_VER),
        DEFAULT_CRIT,
    ));

    let direct_unaudited = &mut config.unaudited;
    direct_unaudited.insert(
        "third-party1".to_string(),
        vec![unaudited(ver(DEFAULT_VER + 5), DEFAULT_CRIT)],
    );

    let report = resolve(&metadata, &config, &audits, &imports).unwrap();

    assert_eq!(report.success, true);
    assert_eq!(failures(&report), failed(&[]));
    assert_eq!(suggested(&report), suggestions(&[]));
    assert_eq!(unused(&report), vec![]);
    let stdout = get_report(&metadata, report);
    assert!(stdout.starts_with("Vetting Succeeded"));
}

#[test]
fn mock_simple_wrongly_reversed_delta_to_unaudited() {
    // (Fail) A dep has a *reverse* delta to an unaudited entry but they needed a normal one

    let mock = MockMetadata::simple();

    let metadata = mock.metadata();
    let (mut config, mut audits, imports) = files_full_audited(&metadata);

    let direct_audits = at(&mut audits.audits, "third-party1");
    direct_audits.clear();
    direct_audits.push(delta_audit(
        ver(DEFAULT_VER),
        ver(DEFAULT_VER - 5),
        DEFAULT_CRIT,
    ));

    let direct_unaudited = &mut config.unaudited;
    direct_unaudited.insert(
        "third-party1".to_string(),
        vec![unaudited(ver(DEFAULT_VER - 5), DEFAULT_CRIT)],
    );

    let report = resolve(&metadata, &config, &audits, &imports).unwrap();

    assert_eq!(report.success, false);
    assert_eq!(failures(&report), failed(&[("first-party", 10, Verdict::FailPolicy), ("third-party1", 10, Verdict::FailMissing)]));
    assert_eq!(suggested(&report), suggestions(&[("third-party1", Some(5), 10, "reviewed")]));
    assert_eq!(unused(&report), vec![("third-party1".to_string(), 0)]);
    let stdout = get_report(&metadata, report);
    assert!(stdout.starts_with("Vetting Failed!"));
}

#[test]
fn mock_simple_wrongly_reversed_delta_to_full_audit() {
    // (Fail) A dep has a *reverse* delta to a fully audited entry but they needed a normal one

    let mock = MockMetadata::simple();

    let metadata = mock.metadata();
    let (config, mut audits, imports) = files_full_audited(&metadata);

    let direct_audits = at(&mut audits.audits, "third-party1");
    direct_audits.clear();
    direct_audits.push(delta_audit(
        ver(DEFAULT_VER),
        ver(DEFAULT_VER - 5),
        DEFAULT_CRIT,
    ));
    direct_audits.push(full_audit(ver(DEFAULT_VER - 5), DEFAULT_CRIT));

    let report = resolve(&metadata, &config, &audits, &imports).unwrap();

    assert_eq!(report.success, false);
    assert_eq!(failures(&report), failed(&[("first-party", 10, Verdict::FailPolicy), ("third-party1", 10, Verdict::FailMissing)]));
    assert_eq!(suggested(&report), suggestions(&[("third-party1", Some(5), 10, "reviewed")]));
    assert_eq!(unused(&report), vec![]);
    let stdout = get_report(&metadata, report);
    assert!(stdout.starts_with("Vetting Failed!"));
}

#[test]
fn mock_simple_needed_reversed_delta_to_unaudited() {
    // (Fail) A dep has a delta to an unaudited entry but they needed a reversed one

    let mock = MockMetadata::simple();

    let metadata = mock.metadata();
    let (mut config, mut audits, imports) = files_full_audited(&metadata);

    let direct_audits = at(&mut audits.audits, "third-party1");
    direct_audits.clear();
    direct_audits.push(delta_audit(
        ver(DEFAULT_VER),
        ver(DEFAULT_VER + 5),
        DEFAULT_CRIT,
    ));

    let direct_unaudited = &mut config.unaudited;
    direct_unaudited.insert(
        "third-party1".to_string(),
        vec![unaudited(ver(DEFAULT_VER + 5), DEFAULT_CRIT)],
    );

    let report = resolve(&metadata, &config, &audits, &imports).unwrap();

    assert_eq!(report.success, false);
    assert_eq!(failures(&report), failed(&[("first-party", 10, Verdict::FailPolicy), ("third-party1", 10, Verdict::FailMissing)]));
    assert_eq!(suggested(&report), suggestions(&[("third-party1", Some(15), 10, "reviewed")]));
    assert_eq!(unused(&report), vec![("third-party1".to_string(), 0)]);
    let stdout = get_report(&metadata, report);
    assert!(stdout.starts_with("Vetting Failed!"));
}

#[test]
fn mock_simple_delta_to_unaudited_too_weak() {
    // (Fail) A dep has a delta to an unaudited entry but it's too weak

    let mock = MockMetadata::simple();

    let metadata = mock.metadata();
    let (mut config, mut audits, imports) = files_full_audited(&metadata);

    let direct_audits = at(&mut audits.audits, "third-party1");
    direct_audits.clear();
    direct_audits.push(delta_audit(
        ver(DEFAULT_VER - 5),
        ver(DEFAULT_VER),
        "weak-reviewed",
    ));

    let direct_unaudited = &mut config.unaudited;
    direct_unaudited.insert(
        "third-party1".to_string(),
        vec![unaudited(ver(DEFAULT_VER - 5), DEFAULT_CRIT)],
    );

    let report = resolve(&metadata, &config, &audits, &imports).unwrap();

    assert_eq!(report.success, false);
    assert_eq!(failures(&report), failed(&[("first-party", 10, Verdict::FailPolicy), ("third-party1", 10, Verdict::FailMissing)]));
    assert_eq!(suggested(&report), suggestions(&[("third-party1", Some(5), 10, "reviewed")]));
    assert_eq!(unused(&report), vec![]);
    let stdout = get_report(&metadata, report);
    assert!(stdout.starts_with("Vetting Failed!"));
}

#[test]
fn mock_simple_delta_to_full_audit_too_weak() {
    // (Fail) A dep has a delta to a fully audited entry but it's too weak

    let mock = MockMetadata::simple();

    let metadata = mock.metadata();
    let (config, mut audits, imports) = files_full_audited(&metadata);

    let direct_audits = at(&mut audits.audits, "third-party1");
    direct_audits.clear();
    direct_audits.push(delta_audit(
        ver(DEFAULT_VER - 5),
        ver(DEFAULT_VER),
        "weak-reviewed",
    ));
    direct_audits.push(full_audit(ver(DEFAULT_VER - 5), DEFAULT_CRIT));

    let report = resolve(&metadata, &config, &audits, &imports).unwrap();

    assert_eq!(report.success, false);
    assert_eq!(failures(&report), failed(&[("first-party", 10, Verdict::FailPolicy), ("third-party1", 10, Verdict::FailMissing)]));
    assert_eq!(suggested(&report), suggestions(&[("third-party1", Some(5), 10, "reviewed")]));
    assert_eq!(unused(&report), vec![]);
    let stdout = get_report(&metadata, report);
    assert!(stdout.starts_with("Vetting Failed!"));
}

#[test]
fn mock_simple_delta_to_too_weak_full_audit() {
    // (Fail) A dep has a delta to a fully audited entry but it's too weak

    let mock = MockMetadata::simple();

    let metadata = mock.metadata();
    let (config, mut audits, imports) = files_full_audited(&metadata);

    let direct_audits = at(&mut audits.audits, "third-party1");
    direct_audits.clear();
    direct_audits.push(delta_audit(
        ver(DEFAULT_VER - 5),
        ver(DEFAULT_VER),
        DEFAULT_CRIT,
    ));
    direct_audits.push(full_audit(ver(DEFAULT_VER - 5), "weak-reviewed"));

    let report = resolve(&metadata, &config, &audits, &imports).unwrap();

    assert_eq!(report.success, false);
    assert_eq!(failures(&report), failed(&[("first-party", 10, Verdict::FailPolicy), ("third-party1", 10, Verdict::FailMissing)]));
    assert_eq!(suggested(&report), suggestions(&[("third-party1", None, 5, "reviewed")]));
    assert_eq!(unused(&report), vec![]);
    let stdout = get_report(&metadata, report);
    assert!(stdout.starts_with("Vetting Failed!"));
}

#[test]
fn mock_complex_no_unaudited() {
    // (Fail) Should look the same as a fresh 'vet init' but with all 'unaudited' entries deleted.

    let mock = MockMetadata::complex();
    let metadata = mock.metadata();
    let (config, audits, imports) = files_no_unaudited(&metadata);

    let report = resolve(&metadata, &config, &audits, &imports).unwrap();
    assert_eq!(report.success, false);
    assert_eq!(failures(&report), failed(&[("firstA", 10, Verdict::FailPolicy), ("firstAB", 10, Verdict::FailPolicy), ("firstB", 10, Verdict::FailPolicy), ("third-core", 5, Verdict::FailMissing), ("third-core", 10, Verdict::FailMissing), ("thirdA", 10, Verdict::FailMissing), ("thirdAB", 10, Verdict::FailMissing)]));
    assert_eq!(suggested(&report), suggestions(&[("third-core", None, 5, "reviewed"), ("third-core", None, 10, "reviewed"), ("thirdA", None, 10, "reviewed"), ("thirdAB", None, 10, "reviewed")]));
    assert_eq!(unused(&report), vec![]);
    let stdout = get_report(&metadata, report);
    assert!(stdout.starts_with("Vetting Failed!"));
}

#[test]
fn mock_complex_full_audited() {
    // (Pass) All entries have direct full audits.

    let mock = MockMetadata::complex();
    let metadata = mock.metadata();
    let (config, audits, imports) = files_full_audited(&metadata);

    let report = resolve(&metadata, &config, &audits, &imports).unwrap();
    assert_eq!(report.success, true);
    assert_eq!(failures(&report), failed(&[]));
    assert_eq!(suggested(&report), suggestions(&[]));
    assert_eq!(unused(&report), vec![]);
    let stdout = get_report(&metadata, report);
    assert!(stdout.starts_with("Vetting Succeeded"));
}

#[test]
fn mock_complex_missing_core5() {
    // (Fail) Missing an audit for the v5 version of third-core

    let mock = MockMetadata::complex();
    let metadata = mock.metadata();
    let (config, mut audits, imports) = files_full_audited(&metadata);

    *at(&mut audits.audits, "third-core") = vec![full_audit(ver(DEFAULT_VER), "reviewed")];

    let report = resolve(&metadata, &config, &audits, &imports).unwrap();
    assert_eq!(report.success, false);
    assert_eq!(failures(&report), failed(&[("firstA", 10, Verdict::FailPolicy), ("third-core", 5, Verdict::FailMissing)]));
    assert_eq!(suggested(&report), suggestions(&[("third-core", Some(10), 5, "reviewed")]));
    assert_eq!(unused(&report), vec![]);
    let stdout = get_report(&metadata, report);
    assert!(stdout.starts_with("Vetting Failed!"));
}

#[test]
fn mock_complex_missing_core10() {
    // (Fail) Missing an audit for the v10 version of third-core

    let mock = MockMetadata::complex();
    let metadata = mock.metadata();
    let (config, mut audits, imports) = files_full_audited(&metadata);

    *at(&mut audits.audits, "third-core") = vec![full_audit(ver(5), "reviewed")];

    let report = resolve(&metadata, &config, &audits, &imports).unwrap();
    assert_eq!(report.success, false);
    assert_eq!(failures(&report), failed(&[("firstA", 10, Verdict::FailPolicy), ("firstAB", 10, Verdict::FailPolicy), ("firstB", 10, Verdict::FailPolicy), ("third-core", 10, Verdict::FailMissing), ("thirdA", 10, Verdict::FailMissing), ("thirdAB", 10, Verdict::FailMissing)]));
    assert_eq!(suggested(&report), suggestions(&[("third-core", Some(5), 10, "reviewed")]));
    assert_eq!(unused(&report), vec![]);
    let stdout = get_report(&metadata, report);
    assert!(stdout.starts_with("Vetting Failed!"));
}

#[test]
fn mock_complex_core10_too_weak() {
    // (Fail) Criteria for core10 is too weak

    let mock = MockMetadata::complex();
    let metadata = mock.metadata();
    let (config, mut audits, imports) = files_full_audited(&metadata);

    *at(&mut audits.audits, "third-core") = vec![
        full_audit(ver(DEFAULT_VER), "weak-reviewed"),
        full_audit(ver(5), "reviewed"),
    ];

    let report = resolve(&metadata, &config, &audits, &imports).unwrap();
    assert_eq!(report.success, false);
    assert_eq!(failures(&report), failed(&[("firstA", 10, Verdict::FailPolicy), ("firstAB", 10, Verdict::FailPolicy), ("firstB", 10, Verdict::FailPolicy), ("third-core", 10, Verdict::FailMissing), ("thirdA", 10, Verdict::FailMissing), ("thirdAB", 10, Verdict::FailMissing)]));
    assert_eq!(suggested(&report), suggestions(&[("third-core", Some(5), 10, "reviewed")]));
    assert_eq!(unused(&report), vec![]);
    let stdout = get_report(&metadata, report);
    assert!(stdout.starts_with("Vetting Failed!"));
}

#[test]
fn mock_complex_core10_partially_too_weak() {
    // (Fail) Criteria for core10 is too weak for thirdA but not thirdA and thirdAB (full)

    let mock = MockMetadata::complex();
    let metadata = mock.metadata();
    let (config, mut audits, imports) = files_full_audited(&metadata);

    *at(&mut audits.audits, "third-core") = vec![
        full_audit(ver(DEFAULT_VER), "weak-reviewed"),
        full_audit(ver(5), "reviewed"),
    ];

    let audit_with_weaker_req = full_audit_dep(
        ver(DEFAULT_VER),
        "reviewed",
        dep_criteria(&[("third-core", &["weak-reviewed"])]),
    );
    *at(&mut audits.audits, "thirdA") = vec![audit_with_weaker_req.clone()];
    *at(&mut audits.audits, "thirdAB") = vec![audit_with_weaker_req];

    let report = resolve(&metadata, &config, &audits, &imports).unwrap();
    assert_eq!(report.success, false);
    assert_eq!(failures(&report), failed(&[("firstB", 10, Verdict::FailPolicy), ("third-core", 10, Verdict::FailMissing)]));
    assert_eq!(suggested(&report), suggestions(&[("third-core", Some(5), 10, "reviewed")]));
    assert_eq!(unused(&report), vec![]);
    let stdout = get_report(&metadata, report);
    assert!(stdout.starts_with("Vetting Failed!"));
}

#[test]
fn mock_complex_core10_partially_too_weak_via_weak_delta() {
    // (Fail) Criteria for core10 is too weak for thirdA but not thirdA and thirdAB (weak delta)

    let mock = MockMetadata::complex();
    let metadata = mock.metadata();
    let (config, mut audits, imports) = files_full_audited(&metadata);

    *at(&mut audits.audits, "third-core") = vec![
        delta_audit(ver(5), ver(DEFAULT_VER), "weak-reviewed"),
        full_audit(ver(5), "reviewed"),
    ];

    let audit_with_weaker_req = full_audit_dep(
        ver(DEFAULT_VER),
        "reviewed",
        dep_criteria(&[("third-core", &["weak-reviewed"])]),
    );
    *at(&mut audits.audits, "thirdA") = vec![audit_with_weaker_req.clone()];
    *at(&mut audits.audits, "thirdAB") = vec![audit_with_weaker_req];

    let report = resolve(&metadata, &config, &audits, &imports).unwrap();
    assert_eq!(report.success, false);
    assert_eq!(failures(&report), failed(&[("firstB", 10, Verdict::FailPolicy), ("third-core", 10, Verdict::FailMissing)]));
    assert_eq!(suggested(&report), suggestions(&[("third-core", Some(5), 10, "reviewed")]));
    assert_eq!(unused(&report), vec![]);
    let stdout = get_report(&metadata, report);
    assert!(stdout.starts_with("Vetting Failed!"));
}

#[test]
fn mock_complex_core10_partially_too_weak_via_strong_delta() {
    // (Fail) Criteria for core10 is too weak for thirdA but not thirdA and thirdAB
    // because there's a strong delta from 5->10 but 0->5 is still weak!

    let mock = MockMetadata::complex();
    let metadata = mock.metadata();
    let (mut config, mut audits, imports) = files_full_audited(&metadata);

    *at(&mut audits.audits, "third-core") = vec![
        delta_audit(ver(5), ver(DEFAULT_VER), "reviewed"),
        full_audit(ver(5), "weak-reviewed"),
    ];

    let audit_with_weaker_req = full_audit_dep(
        ver(DEFAULT_VER),
        "reviewed",
        dep_criteria(&[("third-core", &["weak-reviewed"])]),
    );
    *at(&mut audits.audits, "thirdA") = vec![audit_with_weaker_req.clone()];
    *at(&mut audits.audits, "thirdAB") = vec![audit_with_weaker_req];

    config.policy.insert(
        "firstA".to_string(),
        dep_policy(dep_criteria(&[("third-core", &["weak-reviewed"])])),
    );

    let report = resolve(&metadata, &config, &audits, &imports).unwrap();
    assert_eq!(report.success, false);
    assert_eq!(failures(&report), failed(&[("firstB", 10, Verdict::FailPolicy), ("third-core", 10, Verdict::FailMissing)]));
    assert_eq!(suggested(&report), suggestions(&[("third-core", None, 5, "reviewed")]));
    assert_eq!(unused(&report), vec![]);
    let stdout = get_report(&metadata, report);
    assert!(stdout.starts_with("Vetting Failed!"));
}

#[test]
fn mock_simple_policy_root_too_strong() {
    // (Fail) Root policy is too strong

    let mock = MockMetadata::simple();
    let metadata = mock.metadata();
    let (mut config, audits, imports) = files_full_audited(&metadata);

    config
        .policy
        .insert("root-package".to_string(), self_policy(names(&["strong-reviewed"])));

    let report = resolve(&metadata, &config, &audits, &imports).unwrap();
    assert_eq!(report.success, false);
    assert_eq!(failures(&report), failed(&[("first-party", 10, Verdict::FailPolicy), ("third-party1", 10, Verdict::FailMissing), ("third-party2", 10, Verdict::FailMissing)]));
    assert_eq!(suggested(&report), suggestions(&[("third-party2", None, 10, "strong-reviewed"), ("third-party1", None, 10, "strong-reviewed")]));
    assert_eq!(unused(&report), vec![]);
    let stdout = get_report(&metadata, report);
    assert!(stdout.starts_with("Vetting Failed!"));
}

#[test]
fn mock_simple_policy_root_weaker() {
    // (Pass) Root policy weaker than necessary

    let mock = MockMetadata::simple();
    let metadata = mock.metadata();
    let (mut config, audits, imports) = files_full_audited(&metadata);

    config
        .policy
        .insert("root-package".to_string(), self_policy(names(&["weak-reviewed"])));

    let report = resolve(&metadata, &config, &audits, &imports).unwrap();
    assert_eq!(report.success, true);
    assert_eq!(failures(&report), failed(&[]));
    assert_eq!(suggested(&report), suggestions(&[]));
    assert_eq!(unused(&report), vec![]);
    let stdout = get_report(&metadata, report);
    assert!(stdout.starts_with("Vetting Succeeded"));
}

#[test]
fn mock_simple_policy_first_too_strong() {
    // (Fail) First-party policy is too strong

    let mock = MockMetadata::simple();
    let metadata = mock.metadata();
    let (mut config, audits, imports) = files_full_audited(&metadata);

    config
        .policy
        .insert("first-party".to_string(), self_policy(names(&["strong-reviewed"])));

    let report = resolve(&metadata, &config, &audits, &imports).unwrap();
    assert_eq!(report.success, false);
    assert_eq!(failures(&report), failed(&[("first-party", 10, Verdict::FailPolicy), ("third-party1", 10, Verdict::FailMissing), ("third-party2", 10, Verdict::FailMissing)]));
    assert_eq!(suggested(&report), suggestions(&[("third-party2", None, 10, "strong-reviewed"), ("third-party1", None, 10, "strong-reviewed")]));
    assert_eq!(unused(&report), vec![]);
    let stdout = get_report(&metadata, report);
    assert!(stdout.starts_with("Vetting Failed!"));
}

#[test]
fn mock_simple_policy_first_weaker() {
    // (Pass) First-party policy weaker than necessary

    let mock = MockMetadata::simple();
    let metadata = mock.metadata();
    let (mut config, audits, imports) = files_full_audited(&metadata);

    config
        .policy
        .insert("first-party".to_string(), self_policy(names(&["weak-reviewed"])));

    let report = resolve(&metadata, &config, &audits, &imports).unwrap();
    assert_eq!(report.success, true);
    assert_eq!(failures(&report), failed(&[]));
    assert_eq!(suggested(&report), suggestions(&[]));
    assert_eq!(unused(&report), vec![]);
    let stdout = get_report(&metadata, report);
    assert!(stdout.starts_with("Vetting Succeeded"));
}

#[test]
fn mock_simple_policy_root_dep_weaker() {
    // (Pass) root->first-party policy weaker than necessary

    let mock = MockMetadata::simple();
    let metadata = mock.metadata();
    let (mut config, audits, imports) = files_full_audited(&metadata);

    config.policy.insert(
        "root-package".to_string(),
        dep_policy(dep_criteria(&[("first-party", &["weak-reviewed"])])),
    );

    let report = resolve(&metadata, &config, &audits, &imports).unwrap();
    assert_eq!(report.success, true);
    assert_eq!(failures(&report), failed(&[]));
    assert_eq!(suggested(&report), suggestions(&[]));
    assert_eq!(unused(&report), vec![]);
    let stdout = get_report(&metadata, report);
    assert!(stdout.starts_with("Vetting Succeeded"));
}

#[test]
fn mock_simple_policy_root_dep_too_strong() {
    // (Fail) root->first-party policy too strong: the first-party package
    // hands the demand on to its dependencies

    let mock = MockMetadata::simple();
    let metadata = mock.metadata();
    let (mut config, audits, imports) = files_full_audited(&metadata);

    config.policy.insert(
        "root-package".to_string(),
        dep_policy(dep_criteria(&[("first-party", &["strong-reviewed"])])),
    );

    let report = resolve(&metadata, &config, &audits, &imports).unwrap();
    assert_eq!(report.success, false);
    assert_eq!(failures(&report), failed(&[("first-party", 10, Verdict::FailPolicy), ("third-party1", 10, Verdict::FailMissing), ("third-party2", 10, Verdict::FailMissing)]));
    assert_eq!(suggested(&report), suggestions(&[("third-party2", None, 10, "strong-reviewed"), ("third-party1", None, 10, "strong-reviewed")]));
    assert_eq!(unused(&report), vec![]);
    let stdout = get_report(&metadata, report);
    assert!(stdout.starts_with("Vetting Failed!"));
}

#[test]
fn mock_simple_policy_first_dep_weaker() {
    // (Pass) first-party->third-party policy weaker than necessary

    let mock = MockMetadata::simple();
    let metadata = mock.metadata();
    let (mut config, audits, imports) = files_full_audited(&metadata);

    config.policy.insert(
        "first-party".to_string(),
        dep_policy(dep_criteria(&[("third-party1", &["weak-reviewed"])])),
    );

    let report = resolve(&metadata, &config, &audits, &imports).unwrap();
    assert_eq!(report.success, true);
    assert_eq!(failures(&report), failed(&[]));
    assert_eq!(suggested(&report), suggestions(&[]));
    assert_eq!(unused(&report), vec![]);
    let stdout = get_report(&metadata, report);
    assert!(stdout.starts_with("Vetting Succeeded"));
}

#[test]
fn mock_simple_policy_first_dep_too_strong() {
    // (Fail) first-party->third-party policy too strong

    let mock = MockMetadata::simple();
    let metadata = mock.metadata();
    let (mut config, audits, imports) = files_full_audited(&metadata);

    config.policy.insert(
        "first-party".to_string(),
        dep_policy(dep_criteria(&[("third-party1", &["strong-reviewed"])])),
    );

    let report = resolve(&metadata, &config, &audits, &imports).unwrap();
    assert_eq!(report.success, false);
    assert_eq!(failures(&report), failed(&[("first-party", 10, Verdict::FailPolicy), ("third-party1", 10, Verdict::FailMissing)]));
    assert_eq!(suggested(&report), suggestions(&[("third-party1", None, 10, "strong-reviewed")]));
    assert_eq!(unused(&report), vec![]);
    let stdout = get_report(&metadata, report);
    assert!(stdout.starts_with("Vetting Failed!"));
}

#[test]
fn mock_simple_policy_first_dep_stronger() {
    // (Pass) first-party->third-party policy stronger but satisfied

    let mock = MockMetadata::simple();
    let metadata = mock.metadata();
    let (mut config, mut audits, imports) = files_full_audited(&metadata);

    config.policy.insert(
        "first-party".to_string(),
        dep_policy(dep_criteria(&[("third-party2", &["strong-reviewed"])])),
    );

    *at(&mut audits.audits, "third-party2") = vec![full_audit(ver(DEFAULT_VER), "strong-reviewed")];

    let report = resolve(&metadata, &config, &audits, &imports).unwrap();
    assert_eq!(report.success, true);
    assert_eq!(failures(&report), failed(&[]));
    assert_eq!(suggested(&report), suggestions(&[]));
    assert_eq!(unused(&report), vec![]);
    let stdout = get_report(&metadata, report);
    assert!(stdout.starts_with("Vetting Succeeded"));
}

#[test]
fn mock_simple_policy_first_dep_weaker_needed() {
    // (Pass) first-party->third-party policy weaker out of necessity

    let mock = MockMetadata::simple();
    let metadata = mock.metadata();
    let (mut config, mut audits, imports) = files_full_audited(&metadata);

    config.policy.insert(
        "first-party".to_string(),
        dep_policy(dep_criteria(&[("third-party1", &["weak-reviewed"])])),
    );

    *at(&mut audits.audits, "third-party1") = vec![full_audit(ver(DEFAULT_VER), "weak-reviewed")];

    let report = resolve(&metadata, &config, &audits, &imports).unwrap();
    assert_eq!(report.success, true);
    assert_eq!(failures(&report), failed(&[]));
    assert_eq!(suggested(&report), suggestions(&[]));
    assert_eq!(unused(&report), vec![]);
    let stdout = get_report(&metadata, report);
    assert!(stdout.starts_with("Vetting Succeeded"));
}

#[test]
fn mock_simple_policy_first_dep_extra() {
    // (Pass) first-party->third-party policy has extra satisfied criteria

    let mock = MockMetadata::simple();
    let metadata = mock.metadata();
    let (mut config, mut audits, imports) = files_full_audited(&metadata);

    config.policy.insert(
        "first-party".to_string(),
        dep_policy(dep_criteria(&[("third-party2", &["reviewed", "fuzzed"])])),
    );

    *at(&mut audits.audits, "third-party2") = vec![
        full_audit(ver(DEFAULT_VER), "reviewed"),
        full_audit(ver(DEFAULT_VER), "fuzzed"),
    ];

    let report = resolve(&metadata, &config, &audits, &imports).unwrap();
    assert_eq!(report.success, true);
    assert_eq!(failures(&report), failed(&[]));
    assert_eq!(suggested(&report), suggestions(&[]));
    assert_eq!(unused(&report), vec![]);
    let stdout = get_report(&metadata, report);
    assert!(stdout.starts_with("Vetting Succeeded"));
}

#[test]
fn mock_simple_policy_first_dep_extra_missing() {
    // (Fail) first-party->third-party policy has extra unsatisfied criteria

    let mock = MockMetadata::simple();
    let metadata = mock.metadata();
    let (mut config, mut audits, imports) = files_full_audited(&metadata);

    config.policy.insert(
        "first-party".to_string(),
        dep_policy(dep_criteria(&[("third-party2", &["reviewed", "fuzzed"])])),
    );

    *at(&mut audits.audits, "third-party2") = vec![full_audit(ver(DEFAULT_VER), "reviewed")];

    let report = resolve(&metadata, &config, &audits, &imports).unwrap();
    assert_eq!(report.success, false);
    assert_eq!(failures(&report), failed(&[("first-party", 10, Verdict::FailPolicy), ("third-party2", 10, Verdict::FailMissing)]));
    assert_eq!(suggested(&report), suggestions(&[("third-party2", None, 10, "fuzzed")]));
    assert_eq!(unused(&report), vec![]);
    let stdout = get_report(&metadata, report);
    assert!(stdout.starts_with("Vetting Failed!"));
}

#[test]
fn mock_simple_policy_first_extra_partially_missing() {
    // (Fail) first-party policy has extra unsatisfied criteria

    let mock = MockMetadata::simple();
    let metadata = mock.metadata();
    let (mut config, mut audits, imports) = files_full_audited(&metadata);

    config.policy.insert(
        "first-party".to_string(),
        self_policy(names(&["reviewed", "fuzzed"])),
    );

    *at(&mut audits.audits, "third-party2") = vec![
        full_audit(ver(DEFAULT_VER), "reviewed"),
        full_audit(ver(DEFAULT_VER), "fuzzed"),
    ];

    let report = resolve(&metadata, &config, &audits, &imports).unwrap();
    assert_eq!(report.success, false);
    assert_eq!(failures(&report), failed(&[("first-party", 10, Verdict::FailPolicy), ("third-party1", 10, Verdict::FailMissing)]));
    assert_eq!(suggested(&report), suggestions(&[("third-party1", None, 10, "fuzzed")]));
    assert_eq!(unused(&report), vec![]);
    let stdout = get_report(&metadata, report);
    assert!(stdout.starts_with("Vetting Failed!"));
}

#[test]
fn mock_simple_first_policy_redundant() {
    // (Pass) first-party policy has redundant implied things

    let mock = MockMetadata::simple();
    let metadata = mock.metadata();
    let (mut config, audits, imports) = files_full_audited(&metadata);

    config.policy.insert(
        "first-party".to_string(),
        self_policy(names(&["reviewed", "weak-reviewed"])),
    );

    let report = resolve(&metadata, &config, &audits, &imports).unwrap();
    assert_eq!(report.success, true);
    assert_eq!(failures(&report), failed(&[]));
    assert_eq!(suggested(&report), suggestions(&[]));
    assert_eq!(unused(&report), vec![]);
    let stdout = get_report(&metadata, report);
    assert!(stdout.starts_with("Vetting Succeeded"));
}

