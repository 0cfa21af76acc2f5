//! From the files to the model: for each package the evidence and the
//! violations recorded under its name, and the policy that applies to it.

use crate::check::{
    criteria_known, entries_known, entry_known, entry_requirement_ok, entry_versions_ok,
    exemptions_known, file_known, file_requirements_ok, file_versions_ok, known, list_known,
    map_known, policy_known, requirements_ok, versions_ok,
};
use crate::criteria::{
    lemma_expand_names_closed, lemma_expansion_closed, CriteriaSet, CriteriaTable, TableView,
};
use crate::format::{
    AuditEntry, AuditKind, AuditsFile, ConfigFile, DependencyCriteria, ImportsFile,
    UnauditedDependency,
};
use crate::graph::{GraphView, PackageGraph};
use crate::model::{
    set_view, set_views, Evidence, EvidenceView, Model, ModelView, Plan, PlanView, Violation,
    ViolationView,
};
use crate::settle::model_ready;
use crate::text::{lemma_find, spec_find, views};
use vstd::prelude::*;

verus! {

/// The audits that a file records under `name`.
pub open spec fn entries_in(file: &AuditsFile, name: Seq<char>) -> Seq<AuditEntry> {
    match file.audits.spec_get(name) {
        Some(list) => list@,
        None => Seq::empty(),
    }
}

/// The audits that the first `upto` sources of the imports record under
/// `name`, source after source.
pub open spec fn imported(imports: &ImportsFile, name: Seq<char>, upto: nat) -> Seq<AuditEntry>
    decreases upto,
{
    if upto == 0 {
        Seq::empty()
    } else {
        imported(imports, name, (upto - 1) as nat) + entries_in(
            &imports.audits.entries@[upto - 1].1,
            name,
        )
    }
}

/// All audits recorded under `name`: the local ones, then the imported ones.
pub open spec fn audits_of(audits: &AuditsFile, imports: &ImportsFile, name: Seq<char>) -> Seq<
    AuditEntry,
> {
    entries_in(audits, name) + imported(imports, name, imports.audits.entries@.len())
}

/// The exemptions recorded under `name`.
pub open spec fn exemptions_of(config: &ConfigFile, name: Seq<char>) -> Seq<UnauditedDependency> {
    match config.unaudited.spec_get(name) {
        Some(list) => list@,
        None => Seq::empty(),
    }
}

/// What a map of dependency criteria declares for the dependency called
/// `dep`.
pub open spec fn asked_of(t: TableView, map: &DependencyCriteria, dep: Seq<char>) -> Option<
    Seq<bool>,
> {
    match map.spec_get(dep) {
        Some(list) => Some(t.expand_names(views(&list)).unwrap()),
        None => None,
    }
}

/// What a map of dependency criteria declares for each of the dependencies.
pub open spec fn requirements_of(
    t: TableView,
    map: &DependencyCriteria,
    deps: Seq<Seq<char>>,
) -> Seq<Option<Seq<bool>>> {
    Seq::new(deps.len(), |j: int| asked_of(t, map, deps[j]))
}

/// The evidence that an audit gives, if it is not a violation.
pub open spec fn evidence_view(
    t: TableView,
    e: AuditEntry,
    at: int,
    deps: Seq<Seq<char>>,
) -> Option<EvidenceView> {
    match e.kind {
        AuditKind::Full { version, dependency_criteria } => Some(
            EvidenceView {
                from: None,
                to: version@,
                criteria: t.expansion(e.criteria@),
                requirements: requirements_of(t, &dependency_criteria, deps),
                exempted: false,
                entry: at,
            },
        ),
        AuditKind::Delta { delta, dependency_criteria } => Some(
            EvidenceView {
                from: Some(delta.from@),
                to: delta.to@,
                criteria: t.expansion(e.criteria@),
                requirements: requirements_of(t, &dependency_criteria, deps),
                exempted: false,
                entry: at,
            },
        ),
        AuditKind::Violation { violation } => None,
    }
}

/// The violation that an audit records, if it is one.
pub open spec fn violation_view(t: TableView, e: AuditEntry, at: int) -> Option<
    ViolationView,
> {
    match e.kind {
        AuditKind::Violation { violation } => Some(
            ViolationView {
                requirement: violation.text@,
                criteria: t.expansion(e.criteria@),
                entry: at,
            },
        ),
        _ => None,
    }
}

/// The evidence that the first `upto` audits give, in their order.
pub open spec fn audit_evidence(
    t: TableView,
    entries: Seq<AuditEntry>,
    deps: Seq<Seq<char>>,
    upto: nat,
) -> Seq<EvidenceView>
    decreases upto,
{
    if upto == 0 {
        Seq::empty()
    } else {
        let before = audit_evidence(t, entries, deps, (upto - 1) as nat);
        match evidence_view(t, entries[upto - 1], upto - 1, deps) {
            Some(e) => before.push(e),
            None => before,
        }
    }
}

/// The violations among the first `upto` audits, in their order.
pub open spec fn audit_violations(t: TableView, entries: Seq<AuditEntry>, upto: nat) -> Seq<
    ViolationView,
>
    decreases upto,
{
    if upto == 0 {
        Seq::empty()
    } else {
        let before = audit_violations(t, entries, (upto - 1) as nat);
        match violation_view(t, entries[upto - 1], upto - 1) {
            Some(v) => before.push(v),
            None => before,
        }
    }
}

/// The evidence that an exemption gives: that of a full audit which leaves
/// every dependency to the default.
pub open spec fn exemption_view(
    t: TableView,
    u: UnauditedDependency,
    at: int,
    deps: nat,
) -> EvidenceView {
    EvidenceView {
        from: None,
        to: u.version@,
        criteria: t.expansion(u.criteria@),
        requirements: Seq::new(deps, |j: int| None),
        exempted: true,
        entry: at,
    }
}

/// The evidence of a list of exemptions.
pub open spec fn exemption_evidence(
    t: TableView,
    list: Seq<UnauditedDependency>,
    deps: nat,
) -> Seq<EvidenceView> {
    Seq::new(list.len(), |i: int| exemption_view(t, list[i], i, deps))
}

/// The criteria that the policy of the package called `name` declares for the
/// package itself.
pub open spec fn declared_self(t: TableView, config: &ConfigFile, name: Seq<char>) -> Option<
    Seq<bool>,
> {
    match config.policy.spec_get(name) {
        Some(policy) => if policy.criteria@.len() > 0 {
            Some(t.expand_names(views(&policy.criteria)).unwrap())
        } else {
            None
        },
        None => None,
    }
}

/// The criteria that the policy of the package called `name` declares for
/// each of its dependencies.
pub open spec fn declared_deps(
    t: TableView,
    config: &ConfigFile,
    name: Seq<char>,
    deps: Seq<Seq<char>>,
) -> Seq<Option<Seq<bool>>> {
    match config.policy.spec_get(name) {
        Some(policy) => requirements_of(t, &policy.dependency_criteria, deps),
        None => Seq::new(deps.len(), |j: int| None),
    }
}

/// The plan of package `k`. A first-party package has no evidence and no
/// violations: what is recorded under its name is not read.
pub open spec fn plan_of(
    g: GraphView,
    t: TableView,
    config: &ConfigFile,
    audits: &AuditsFile,
    imports: &ImportsFile,
    k: int,
) -> PlanView {
    let p = g.packages[k];
    let deps = g.dep_names(k);
    let recorded = audits_of(audits, imports, p.name);
    PlanView {
        version: p.version,
        first_party: p.is_first_party,
        is_root: p.is_root,
        deps: p.deps,
        evidence: if p.is_first_party {
            Seq::empty()
        } else {
            audit_evidence(t, recorded, deps, recorded.len()) + exemption_evidence(
                t,
                exemptions_of(config, p.name),
                deps.len(),
            )
        },
        violations: if p.is_first_party {
            Seq::empty()
        } else {
            audit_violations(t, recorded, recorded.len())
        },
        self_declared: declared_self(t, config, p.name),
        dep_declared: declared_deps(t, config, p.name, deps),
    }
}

/// The model that the graph and the files stand for.
pub open spec fn model_of(
    g: GraphView,
    t: TableView,
    config: &ConfigFile,
    audits: &AuditsFile,
    imports: &ImportsFile,
) -> ModelView {
    ModelView {
        implied: t.implied,
        default: t.expansion(config.default_criteria@),
        plans: Seq::new(g.packages.len(), |k: int| plan_of(g, t, config, audits, imports, k)),
    }
}

/// The entry names known criteria, and its versions and its requirement
/// follow the grammar.
pub open spec fn entry_fit(names: Seq<Seq<char>>, e: &AuditEntry) -> bool {
    &&& entry_known(names, e)
    &&& entry_versions_ok(e)
    &&& entry_requirement_ok(e)
}

/// Every entry of the file is fit.
pub open spec fn file_fit(names: Seq<Seq<char>>, file: &AuditsFile) -> bool {
    forall|n: int, i: int|
        0 <= n < file.audits.entries@.len() && 0 <= i < file.audits.entries@[n].1@.len()
            ==> entry_fit(names, #[trigger] &file.audits.entries@[n].1@[i])
}

/// The files passed every check against the criteria called `names`.
pub open spec fn files_fit(
    names: Seq<Seq<char>>,
    config: &ConfigFile,
    audits: &AuditsFile,
    imports: &ImportsFile,
) -> bool {
    &&& criteria_known(names, config, audits, imports)
    &&& versions_ok(config, audits, imports)
    &&& requirements_ok(audits, imports)
}

pub proof fn lemma_file_fit(names: Seq<Seq<char>>, file: &AuditsFile)
    requires
        file_known(names, file),
        file_versions_ok(file),
        file_requirements_ok(file),
    ensures
        file_fit(names, file),
{
    assert forall|n: int, i: int|
        0 <= n < file.audits.entries@.len() && 0 <= i < file.audits.entries@[n].1@.len() implies entry_fit(
        names,
        #[trigger] &file.audits.entries@[n].1@[i],
    ) by {
        assert(entries_known(names, &file.audits.entries@[n].1));
    }
}

/// The values that a list of references points to.
pub open spec fn pointed(refs: Seq<&AuditEntry>) -> Seq<AuditEntry> {
    Seq::new(refs.len(), |i: int| *refs[i])
}

/// Appends the audits that `file` records under `name`.
fn gather_from<'a>(
    all: &mut Vec<&'a AuditEntry>,
    file: &'a AuditsFile,
    name: &String,
    Ghost(names): Ghost<Seq<Seq<char>>>,
)
    requires
        file_fit(names, file),
        forall|i: int| 0 <= i < old(all)@.len() ==> entry_fit(names, #[trigger] old(all)@[i]),
    ensures
        pointed(final(all)@) == pointed(old(all)@) + entries_in(file, name@),
        forall|i: int| 0 <= i < final(all)@.len() ==> entry_fit(names, #[trigger] final(all)@[i]),
{
    let ghost start = all@;
    match file.audits.position(name) {
        None => {
            assert(pointed(all@) =~= pointed(start) + entries_in(file, name@));
        },
        Some(at) => {
            let list = &file.audits.entries[at].1;
            let n = list.len();
            let mut i: usize = 0;
            while i < n
                invariant
                    at < file.audits.entries@.len(),
                    list == &file.audits.entries@[at as int].1,
                    file_fit(names, file),
                    n == list@.len(),
                    i <= n,
                    all@.len() == start.len() + i,
                    forall|x: int| 0 <= x < start.len() ==> all@[x] == start[x],
                    forall|x: int| 0 <= x < i ==> *all@[start.len() + x] == list@[x],
                    forall|x: int| 0 <= x < all@.len() ==> entry_fit(names, #[trigger] all@[x]),
                decreases n - i,
            {
                assert(entry_fit(names, &file.audits.entries@[at as int].1@[i as int]));
                all.push(&list[i]);
                i += 1;
            }
            assert(entries_in(file, name@) == list@);
            assert(pointed(all@) =~= pointed(start) + entries_in(file, name@));
        },
    }
}

/// All audits recorded under `name`: the local ones, then the imported ones.
pub(crate) fn gather<'a>(
    audits: &'a AuditsFile,
    imports: &'a ImportsFile,
    name: &String,
    Ghost(names): Ghost<Seq<Seq<char>>>,
) -> (all: Vec<&'a AuditEntry>)
    requires
        file_fit(names, audits),
        forall|s: int|
            0 <= s < imports.audits.entries@.len() ==> file_fit(
                names,
                &(#[trigger] imports.audits.entries@[s]).1,
            ),
    ensures
        pointed(all@) == audits_of(audits, imports, name@),
        forall|i: int| 0 <= i < all@.len() ==> entry_fit(names, #[trigger] all@[i]),
{
    let mut all: Vec<&'a AuditEntry> = Vec::new();
    assert(pointed(all@) =~= Seq::<AuditEntry>::empty());
    gather_from(&mut all, audits, name, Ghost(names));
    assert(pointed(all@) =~= entries_in(audits, name@));
    let n = imports.audits.entries.len();
    let mut s: usize = 0;
    assert(pointed(all@) =~= entries_in(audits, name@) + imported(imports, name@, 0));
    while s < n
        invariant
            n == imports.audits.entries@.len(),
            s <= n,
            forall|x: int|
                0 <= x < imports.audits.entries@.len() ==> file_fit(
                    names,
                    &(#[trigger] imports.audits.entries@[x]).1,
                ),
            pointed(all@) == entries_in(audits, name@) + imported(imports, name@, s as nat),
            forall|i: int| 0 <= i < all@.len() ==> entry_fit(names, #[trigger] all@[i]),
        decreases n - s,
    {
        let ghost before = pointed(all@);
        gather_from(&mut all, &imports.audits.entries[s].1, name, Ghost(names));
        assert(pointed(all@) =~= entries_in(audits, name@) + imported(
            imports,
            name@,
            (s + 1) as nat,
        ));
        s += 1;
    }
    all
}

/// The criterion called `name` with all that it implies.
fn expand_one(t: &CriteriaTable, name: &String) -> (s: CriteriaSet)
    requires
        t.wf(),
        known(views(&t.names), name@),
    ensures
        s@ == t@.expansion(name@),
        t@.closed(s@),
{
    match t.index_of(name) {
        Some(c) => t.expand(c),
        None => CriteriaSet::empty(t.len()),
    }
}

/// The names of a list are all known: the set they stand for.
fn expand_list(t: &CriteriaTable, list: &Vec<String>) -> (s: CriteriaSet)
    requires
        t.wf(),
        list_known(views(&t.names), list),
    ensures
        Some(s@) == t@.expand_names(views(list)),
        t@.closed(s@),
{
    assert forall|k: int| 0 <= k < views(list).len() implies spec_find(
        views(&t.names),
        #[trigger] views(list)[k],
    ).is_some() by {
        assert(known(views(&t.names), list@[k]@));
    }
    match t.expand_names(list) {
        Some(s) => s,
        None => CriteriaSet::empty(t.len()),
    }
}

/// The sets are closed sets of the table.
pub open spec fn all_closed(t: TableView, sets: &Vec<Option<CriteriaSet>>) -> bool {
    forall|j: int|
        0 <= j < sets@.len() ==> ((#[trigger] sets@[j]) matches Some(s) ==> t.closed(s@))
}

/// What a map of dependency criteria declares for each dependency of package
/// `k`.
fn requirements_for(t: &CriteriaTable, map: &DependencyCriteria, g: &PackageGraph, k: usize) -> (r:
    Vec<Option<CriteriaSet>>)
    requires
        t.wf(),
        g.wf(),
        k < g.packages@.len(),
        map_known(views(&t.names), map),
    ensures
        set_views(&r) == requirements_of(t@, map, g@.dep_names(k as int)),
        r@.len() == g.packages@[k as int].deps@.len(),
        all_closed(t@, &r),
{
    let p = &g.packages[k];
    let m = p.deps.len();
    let ghost deps = g@.dep_names(k as int);
    let mut r: Vec<Option<CriteriaSet>> = Vec::new();
    let mut j: usize = 0;
    while j < m
        invariant
            t.wf(),
            g.wf(),
            k < g.packages@.len(),
            p == g.packages@[k as int],
            map_known(views(&t.names), map),
            deps == g@.dep_names(k as int),
            m == p.deps@.len(),
            j <= m,
            r@.len() == j,
            forall|y: int| 0 <= y < j ==> set_view(#[trigger] r@[y]) == asked_of(t@, map, deps[y]),
            all_closed(t@, &r),
        decreases m - j,
    {
        let d = p.deps[j];
        assert(g.packages@[k as int].deps@[j as int] < k);
        let name = &g.packages[d].name;
        assert(name@ == deps[j as int]);
        let asked = match map.position(name) {
            None => None,
            Some(at) => {
                assert(list_known(views(&t.names), &map.entries@[at as int].1));
                Some(expand_list(t, &map.entries[at].1))
            },
        };
        assert(set_view(asked) == asked_of(t@, map, deps[j as int]));
        r.push(asked);
        j += 1;
    }
    assert(set_views(&r) =~= requirements_of(t@, map, deps));
    r
}

/// The evidence is fit for the plan of a package with `deps` dependencies.
pub open spec fn evidence_fit(t: TableView, e: &Evidence, deps: nat) -> bool {
    &&& t.closed(e.criteria@)
    &&& e.requirements@.len() == deps
    &&& all_closed(t, &e.requirements)
    &&& e.to@.well_formed()
    &&& e.from matches Some(f) ==> f@.well_formed()
}

/// The evidence that an audit gives, if it is not a violation.
fn evidence_from(t: &CriteriaTable, e: &AuditEntry, at: usize, g: &PackageGraph, k: usize) -> (r:
    Option<Evidence>)
    requires
        t.wf(),
        g.wf(),
        k < g.packages@.len(),
        entry_fit(views(&t.names), e),
    ensures
        match r {
            Some(ev) => evidence_view(t@, *e, at as int, g@.dep_names(k as int)) == Some(ev@)
                && evidence_fit(t@, &ev, g.packages@[k as int].deps@.len()),
            None => evidence_view(t@, *e, at as int, g@.dep_names(k as int)).is_none(),
        },
{
    match &e.kind {
        AuditKind::Full { version, dependency_criteria } => {
            let ev = Evidence {
                from: None,
                to: version.duplicate(),
                criteria: expand_one(t, &e.criteria),
                requirements: requirements_for(t, dependency_criteria, g, k),
                exempted: false,
                entry: at,
            };
            Some(ev)
        },
        AuditKind::Delta { delta, dependency_criteria } => {
            let ev = Evidence {
                from: Some(delta.from.duplicate()),
                to: delta.to.duplicate(),
                criteria: expand_one(t, &e.criteria),
                requirements: requirements_for(t, dependency_criteria, g, k),
                exempted: false,
                entry: at,
            };
            Some(ev)
        },
        AuditKind::Violation { violation } => None,
    }
}

/// The violation that an audit records, if it is one.
fn violation_from(t: &CriteriaTable, e: &AuditEntry, at: usize) -> (r: Option<Violation>)
    requires
        t.wf(),
        entry_fit(views(&t.names), e),
    ensures
        match r {
            Some(v) => violation_view(t@, *e, at as int) == Some(v@) && v@.criteria.len()
                == t@.names.len() && crate::version::semver_requirement_ok(v.requirement.text@),
            None => violation_view(t@, *e, at as int).is_none(),
        },
{
    match &e.kind {
        AuditKind::Violation { violation } => Some(
            Violation {
                requirement: violation.duplicate(),
                criteria: expand_one(t, &e.criteria),
                entry: at,
            },
        ),
        _ => None,
    }
}

/// A list of `n` sets that declares nothing.
fn nothing_declared(n: usize) -> (r: Vec<Option<CriteriaSet>>)
    ensures
        set_views(&r) == Seq::new(n as nat, |j: int| None::<Seq<bool>>),
        r@.len() == n,
        forall|j: int| 0 <= j < n ==> (#[trigger] r@[j]).is_none(),
{
    let mut r: Vec<Option<CriteriaSet>> = Vec::new();
    let mut j: usize = 0;
    while j < n
        invariant
            j <= n,
            r@.len() == j,
            forall|y: int| 0 <= y < j ==> (#[trigger] r@[y]).is_none(),
        decreases n - j,
    {
        r.push(None);
        j += 1;
    }
    assert(set_views(&r) =~= Seq::new(n as nat, |j: int| None::<Seq<bool>>));
    r
}

/// The values of a list of evidence.
pub open spec fn evidence_views(list: &Vec<Evidence>) -> Seq<EvidenceView> {
    Seq::new(list@.len(), |i: int| list@[i]@)
}

/// The values of a list of violations.
pub open spec fn violation_views(list: &Vec<Violation>) -> Seq<ViolationView> {
    Seq::new(list@.len(), |w: int| list@[w]@)
}

/// The plan is fit to stand at place `k` of a model over table `t`.
pub open spec fn plan_fit(t: TableView, p: &Plan, k: int) -> bool {
    &&& p.checked()
    &&& forall|j: int| 0 <= j < p.deps@.len() ==> #[trigger] p.deps@[j] < k
    &&& p.dep_declared@.len() == p.deps@.len()
    &&& all_closed(t, &p.dep_declared)
    &&& p.self_declared matches Some(s) ==> t.closed(s@)
    &&& forall|i: int|
        0 <= i < p.evidence@.len() ==> evidence_fit(t, #[trigger] &p.evidence@[i], p.deps@.len())
    &&& forall|w: int|
        0 <= w < p.violations@.len() ==> (#[trigger] p.violations@[w])@.criteria.len()
            == t.names.len()
}

fn copy_places(v: &Vec<usize>) -> (r: Vec<usize>)
    ensures
        r@ == v@,
{
    let n = v.len();
    let mut r: Vec<usize> = Vec::new();
    let mut i: usize = 0;
    while i < n
        invariant
            n == v@.len(),
            i <= n,
            r@.len() == i,
            forall|x: int| 0 <= x < i ==> r@[x] == v@[x],
        decreases n - i,
    {
        r.push(v[i]);
        i += 1;
    }
    assert(r@ =~= v@);
    r
}

/// The evidence and the violations that the audits under the name of package
/// `k` give.
fn recorded_for(
    g: &PackageGraph,
    t: &CriteriaTable,
    audits: &AuditsFile,
    imports: &ImportsFile,
    k: usize,
) -> (r: (Vec<Evidence>, Vec<Violation>))
    requires
        t.wf(),
        g.wf(),
        k < g.packages@.len(),
        file_fit(views(&t.names), audits),
        forall|s: int|
            0 <= s < imports.audits.entries@.len() ==> file_fit(
                views(&t.names),
                &(#[trigger] imports.audits.entries@[s]).1,
            ),
    ensures
        ({
            let recorded = audits_of(audits, imports, g.packages@[k as int].name@);
            &&& evidence_views(&r.0) == audit_evidence(
                t@,
                recorded,
                g@.dep_names(k as int),
                recorded.len(),
            )
            &&& violation_views(&r.1) == audit_violations(t@, recorded, recorded.len())
        }),
        forall|i: int|
            0 <= i < r.0@.len() ==> evidence_fit(
                t@,
                #[trigger] &r.0@[i],
                g.packages@[k as int].deps@.len(),
            ),
        forall|w: int|
            0 <= w < r.1@.len() ==> (#[trigger] r.1@[w])@.criteria.len() == t@.names.len()
                && crate::version::semver_requirement_ok(r.1@[w].requirement.text@),
{
    let pkg = &g.packages[k];
    let ghost names = views(&t.names);
    let ghost deps = g@.dep_names(k as int);
    let all = gather(audits, imports, &pkg.name, Ghost(names));
    let ghost recorded = pointed(all@);
    let n = all.len();
    let mut evidence: Vec<Evidence> = Vec::new();
    let mut violations: Vec<Violation> = Vec::new();
    let mut i: usize = 0;
    assert(evidence_views(&evidence) =~= audit_evidence(t@, recorded, deps, 0));
    assert(violation_views(&violations) =~= audit_violations(t@, recorded, 0));
    while i < n
        invariant
            t.wf(),
            g.wf(),
            k < g.packages@.len(),
            names == views(&t.names),
            deps == g@.dep_names(k as int),
            recorded == pointed(all@),
            n == all@.len(),
            forall|x: int| 0 <= x < all@.len() ==> entry_fit(names, #[trigger] all@[x]),
            i <= n,
            evidence_views(&evidence) == audit_evidence(t@, recorded, deps, i as nat),
            violation_views(&violations) == audit_violations(t@, recorded, i as nat),
            forall|x: int|
                0 <= x < evidence@.len() ==> evidence_fit(
                    t@,
                    #[trigger] &evidence@[x],
                    g.packages@[k as int].deps@.len(),
                ),
            forall|w: int|
                0 <= w < violations@.len() ==> (#[trigger] violations@[w])@.criteria.len()
                    == t@.names.len() && crate::version::semver_requirement_ok(
                    violations@[w].requirement.text@,
                ),
        decreases n - i,
    {
        let e = all[i];
        assert(recorded[i as int] == *e);
        assert(entry_fit(names, all@[i as int]));
        let ghost ev_before = evidence_views(&evidence);
        let ghost vi_before = violation_views(&violations);
        match evidence_from(t, e, i, g, k) {
            Some(ev) => {
                evidence.push(ev);
                assert(evidence_views(&evidence) =~= ev_before.push(ev@));
            },
            None => {},
        }
        match violation_from(t, e, i) {
            Some(v) => {
                violations.push(v);
                assert(violation_views(&violations) =~= vi_before.push(v@));
            },
            None => {},
        }
        i += 1;
    }
    (evidence, violations)
}

/// Appends the evidence that the exemptions under the name of package `k`
/// give.
fn exempt(
    evidence: &mut Vec<Evidence>,
    g: &PackageGraph,
    t: &CriteriaTable,
    config: &ConfigFile,
    k: usize,
)
    requires
        t.wf(),
        k < g.packages@.len(),
        crate::check::config_known(views(&t.names), config),
        forall|u: int, i: int|
            0 <= u < config.unaudited.entries@.len() && 0 <= i < config.unaudited.entries@[u].1@.len()
                ==> (#[trigger] config.unaudited.entries@[u].1@[i]).version@.well_formed(),
        forall|i: int|
            0 <= i < old(evidence)@.len() ==> evidence_fit(
                t@,
                #[trigger] &old(evidence)@[i],
                g.packages@[k as int].deps@.len(),
            ),
    ensures
        evidence_views(final(evidence)) == evidence_views(old(evidence)) + exemption_evidence(
            t@,
            exemptions_of(config, g.packages@[k as int].name@),
            g.packages@[k as int].deps@.len() as nat,
        ),
        forall|i: int|
            0 <= i < final(evidence)@.len() ==> evidence_fit(
                t@,
                #[trigger] &final(evidence)@[i],
                g.packages@[k as int].deps@.len(),
            ),
{
    let pkg = &g.packages[k];
    let deps = pkg.deps.len();
    let ghost base = evidence_views(evidence);
    let ghost names = views(&t.names);
    match config.unaudited.position(&pkg.name) {
        None => {
            assert(evidence_views(evidence) =~= base + exemption_evidence(
                t@,
                exemptions_of(config, pkg.name@),
                deps as nat,
            ));
        },
        Some(at) => {
            let list = &config.unaudited.entries[at].1;
            let n = list.len();
            assert(exemptions_of(config, pkg.name@) == list@);
            assert(exemptions_known(names, &config.unaudited.entries@[at as int].1));
            let mut i: usize = 0;
            while i < n
                invariant
                    t.wf(),
                    names == views(&t.names),
                    at < config.unaudited.entries@.len(),
                    list == &config.unaudited.entries@[at as int].1,
                    exemptions_known(names, list),
                    forall|x: int|
                        0 <= x < list@.len() ==> (#[trigger] list@[x]).version@.well_formed(),
                    n == list@.len(),
                    i <= n,
                    evidence@.len() == base.len() + i,
                    forall|x: int| 0 <= x < base.len() ==> evidence@[x]@ == base[x],
                    forall|x: int|
                        0 <= x < i ==> evidence@[base.len() + x]@ == exemption_view(
                            t@,
                            list@[x],
                            x,
                            deps as nat,
                        ),
                    forall|x: int|
                        0 <= x < evidence@.len() ==> evidence_fit(
                            t@,
                            #[trigger] &evidence@[x],
                            deps as nat,
                        ),
                decreases n - i,
            {
                let u = &list[i];
                assert(known(names, list@[i as int].criteria@));
                let ev = Evidence {
                    from: None,
                    to: u.version.duplicate(),
                    criteria: expand_one(t, &u.criteria),
                    requirements: nothing_declared(deps),
                    exempted: true,
                    entry: i,
                };
                assert(ev@ == exemption_view(t@, *u, i as int, deps as nat));
                evidence.push(ev);
                i += 1;
            }
            assert(evidence_views(evidence) =~= base + exemption_evidence(t@, list@, deps as nat));
        },
    }
}

/// The plan of package `k`.
fn plan_for(
    g: &PackageGraph,
    t: &CriteriaTable,
    config: &ConfigFile,
    audits: &AuditsFile,
    imports: &ImportsFile,
    k: usize,
) -> (p: Plan)
    requires
        t.wf(),
        g.wf(),
        k < g.packages@.len(),
        files_fit(views(&t.names), config, audits, imports),
    ensures
        p@ == plan_of(g@, t@, config, audits, imports, k as int),
        plan_fit(t@, &p, k as int),
{
    let pkg = &g.packages[k];
    let ghost names = views(&t.names);
    let ghost deps = g@.dep_names(k as int);
    let count = pkg.deps.len();
    let mut self_declared: Option<CriteriaSet> = None;
    let dep_declared = match config.policy.position(&pkg.name) {
        None => nothing_declared(count),
        Some(at) => {
            let policy = &config.policy.entries[at].1;
            assert(policy_known(names, &config.policy.entries@[at as int].1));
            if policy.criteria.len() > 0 {
                self_declared = Some(expand_list(t, &policy.criteria));
            }
            requirements_for(t, &policy.dependency_criteria, g, k)
        },
    };
    assert(set_view(self_declared) == declared_self(t@, config, pkg.name@));
    assert(set_views(&dep_declared) == declared_deps(t@, config, pkg.name@, deps));
    let mut evidence: Vec<Evidence> = Vec::new();
    let mut violations: Vec<Violation> = Vec::new();
    if !pkg.is_first_party {
        proof {
            lemma_file_fit(names, audits);
            assert forall|s: int| 0 <= s < imports.audits.entries@.len() implies file_fit(
                names,
                &(#[trigger] imports.audits.entries@[s]).1,
            ) by {
                lemma_file_fit(names, &imports.audits.entries@[s].1);
            }
        }
        let (ev, vi) = recorded_for(g, t, audits, imports, k);
        evidence = ev;
        violations = vi;
        exempt(&mut evidence, g, t, config, k);
    }
    let p = Plan {
        version: pkg.version.duplicate(),
        first_party: pkg.is_first_party,
        is_root: pkg.is_root,
        deps: copy_places(&pkg.deps),
        evidence,
        violations,
        self_declared,
        dep_declared,
    };
    proof {
        let goal = plan_of(g@, t@, config, audits, imports, k as int);
        assert(p@.deps =~= goal.deps);
        assert(p@.evidence =~= evidence_views(&p.evidence));
        assert(p@.violations =~= violation_views(&p.violations));
        assert(p@.evidence =~= goal.evidence);
        assert(p@.violations =~= goal.violations);
        assert(p@.dep_declared == goal.dep_declared);
        assert(p@.self_declared == goal.self_declared);
        assert(p.checked()) by {
            assert forall|i: int|
                #![trigger p.evidence@[i]]
                0 <= i < p.evidence@.len() implies {
                &&& p.evidence@[i].to@.well_formed()
                &&& p.evidence@[i].from matches Some(f) ==> f@.well_formed()
            } by {
                assert(evidence_fit(t@, &p.evidence@[i], count as nat));
            }
        }
    }
    p
}

/// A model made of fit plans over a well-formed table is ready for
/// resolution.
proof fn lemma_ready(t: &CriteriaTable, m: &Model)
    requires
        t.wf(),
        m@.implied == t@.implied,
        t@.closed(m.default@),
        forall|k: int| 0 <= k < m.plans@.len() ==> plan_fit(t@, #[trigger] &m.plans@[k], k),
    ensures
        model_ready(m),
{
    let mv = m@;
    assert forall|a: int, b: int| mv.implies(a, b) == t@.implies(a, b) by {}
    assert forall|s: Seq<bool>| #[trigger] t@.closed(s) implies mv.closed(s) by {
        assert forall|a: int, b: int| crate::criteria::holds(s, a) && #[trigger] mv.implies(
            a,
            b,
        ) implies crate::criteria::holds(s, b) by {
            assert(t@.implies(a, b));
        }
    }
    assert forall|a: int| 0 <= a < mv.implied.len() implies #[trigger] mv.implies(a, a) by {
        assert(t@.implies(a, a));
    }
    assert forall|a: int, b: int, c: int| #[trigger]
        mv.implies(a, b) && #[trigger] mv.implies(b, c) implies mv.implies(a, c) by {
        assert(t@.implies(a, b) && t@.implies(b, c));
    }
    assert forall|k: int| 0 <= k < mv.plans.len() implies mv.plan_wf(k) by {
        let p = &m.plans@[k];
        let pv = mv.plans[k];
        assert(plan_fit(t@, p, k));
        assert(pv == p@);
        assert forall|j: int| 0 <= j < pv.dep_declared.len() implies (
        #[trigger] pv.dep_declared[j] matches Some(s) ==> mv.closed(s)) by {
            assert(pv.dep_declared[j] == set_view(p.dep_declared@[j]));
        }
        assert forall|i: int|
            #![trigger pv.evidence[i]]
            0 <= i < pv.evidence.len() implies {
            &&& mv.closed(pv.evidence[i].criteria)
            &&& pv.evidence[i].requirements.len() == pv.deps.len()
            &&& forall|j: int|
                0 <= j < pv.deps.len() ==> (#[trigger] pv.evidence[i].requirements[j] matches Some(
                    s,
                ) ==> mv.closed(s))
        } by {
            let e = &p.evidence@[i];
            assert(evidence_fit(t@, e, p.deps@.len()));
            assert(pv.evidence[i] == e@);
            assert forall|j: int| 0 <= j < pv.deps.len() implies (
            #[trigger] pv.evidence[i].requirements[j] matches Some(s) ==> mv.closed(s)) by {
                assert(e@.requirements[j] == set_view(e.requirements@[j]));
            }
        }
        assert forall|w: int| 0 <= w < pv.violations.len() implies (
        #[trigger] pv.violations[w]).criteria.len() == mv.implied.len() by {
            assert(pv.violations[w] == p.violations@[w]@);
        }
    }
    assert(m.checked()) by {
        assert forall|k: int| 0 <= k < m.plans@.len() implies (#[trigger] m.plans@[k]).checked() by {
            assert(plan_fit(t@, &m.plans@[k], k));
        }
    }
}

/// Builds the model that the graph and the files stand for.
pub fn prepare(
    g: &PackageGraph,
    t: &CriteriaTable,
    config: &ConfigFile,
    audits: &AuditsFile,
    imports: &ImportsFile,
) -> (m: Model)
    requires
        t.wf(),
        g.wf(),
        files_fit(views(&t.names), config, audits, imports),
    ensures
        m@ == model_of(g@, t@, config, audits, imports),
        model_ready(&m),
{
    let n = g.packages.len();
    let count = t.len();
    let mut implied: Vec<CriteriaSet> = Vec::new();
    let mut a: usize = 0;
    while a < count
        invariant
            t.wf(),
            count == t@.names.len(),
            a <= count,
            implied@.len() == a,
            forall|x: int| 0 <= x < a ==> (#[trigger] implied@[x])@ == t.implied@[x]@,
        decreases count - a,
    {
        implied.push(t.expand(a));
        a += 1;
    }
    let default = expand_one(t, &config.default_criteria);
    let mut plans: Vec<Plan> = Vec::new();
    let mut k: usize = 0;
    while k < n
        invariant
            t.wf(),
            g.wf(),
            n == g.packages@.len(),
            files_fit(views(&t.names), config, audits, imports),
            k <= n,
            plans@.len() == k,
            forall|x: int|
                0 <= x < k ==> (#[trigger] plans@[x])@ == plan_of(g@, t@, config, audits, imports, x),
            forall|x: int| 0 <= x < k ==> plan_fit(t@, #[trigger] &plans@[x], x),
        decreases n - k,
    {
        plans.push(plan_for(g, t, config, audits, imports, k));
        k += 1;
    }
    let m = Model { implied, default, plans };
    proof {
        let goal = model_of(g@, t@, config, audits, imports);
        assert(m@.implied =~= goal.implied);
        assert(m@.plans =~= goal.plans);
        lemma_ready(t, &m);
    }
    m
}

/// The evidence has the shape that a model over table `t` asks of the
/// evidence of a package with `deps` dependencies.
pub open spec fn evidence_shaped(t: TableView, e: EvidenceView, deps: nat) -> bool {
    &&& t.closed(e.criteria)
    &&& e.requirements.len() == deps
    &&& forall|j: int|
        0 <= j < deps ==> (#[trigger] e.requirements[j] matches Some(s) ==> t.closed(s))
}

proof fn lemma_entries_known(names: Seq<Seq<char>>, file: &AuditsFile, name: Seq<char>)
    requires
        file_known(names, file),
    ensures
        forall|i: int|
            0 <= i < entries_in(file, name).len() ==> entry_known(
                names,
                #[trigger] &entries_in(file, name)[i],
            ),
{
    lemma_find(file.audits.keys(), name);
    match file.audits.spec_position(name) {
        Some(at) => {
            assert(entries_known(names, &file.audits.entries@[at].1));
        },
        None => {},
    }
}

proof fn lemma_imported_known(
    names: Seq<Seq<char>>,
    imports: &ImportsFile,
    name: Seq<char>,
    upto: nat,
)
    requires
        crate::check::imports_known(names, imports),
        upto <= imports.audits.entries@.len(),
    ensures
        forall|i: int|
            0 <= i < imported(imports, name, upto).len() ==> entry_known(
                names,
                #[trigger] &imported(imports, name, upto)[i],
            ),
    decreases upto,
{
    if upto > 0 {
        lemma_imported_known(names, imports, name, (upto - 1) as nat);
        let file = &imports.audits.entries@[upto - 1].1;
        assert(file_known(names, file));
        lemma_entries_known(names, file, name);
        let before = imported(imports, name, (upto - 1) as nat);
        let more = entries_in(file, name);
        let all = imported(imports, name, upto);
        assert(all == before + more);
        assert forall|i: int| 0 <= i < all.len() implies entry_known(names, #[trigger] &all[i]) by {
            if i < before.len() {
                assert(all[i] == before[i]);
                assert(entry_known(names, &before[i]));
            } else {
                assert(all[i] == more[i - before.len()]);
                assert(entry_known(names, &more[i - before.len()]));
            }
        }
    }
}

/// What is recorded under a name in files that name known criteria only
/// names known criteria only.
pub proof fn lemma_recorded_known(
    names: Seq<Seq<char>>,
    audits: &AuditsFile,
    imports: &ImportsFile,
    name: Seq<char>,
)
    requires
        file_known(names, audits),
        crate::check::imports_known(names, imports),
    ensures
        forall|i: int|
            0 <= i < audits_of(audits, imports, name).len() ==> entry_known(
                names,
                #[trigger] &audits_of(audits, imports, name)[i],
            ),
{
    lemma_entries_known(names, audits, name);
    lemma_imported_known(names, imports, name, imports.audits.entries@.len());
    let before = entries_in(audits, name);
    let more = imported(imports, name, imports.audits.entries@.len());
    let all = audits_of(audits, imports, name);
    assert forall|i: int| 0 <= i < all.len() implies entry_known(names, #[trigger] &all[i]) by {
        if i < before.len() {
            assert(all[i] == before[i]);
            assert(entry_known(names, &before[i]));
        } else {
            assert(all[i] == more[i - before.len()]);
            assert(entry_known(names, &more[i - before.len()]));
        }
    }
}

proof fn lemma_requirements_shaped(t: TableView, map: &DependencyCriteria, deps: Seq<Seq<char>>)
    requires
        t.wf(),
        map_known(t.names, map),
    ensures
        requirements_of(t, map, deps).len() == deps.len(),
        forall|j: int|
            0 <= j < deps.len() ==> (#[trigger] requirements_of(t, map, deps)[j] matches Some(s)
                ==> t.closed(s)),
{
    assert forall|j: int| 0 <= j < deps.len() implies (#[trigger] requirements_of(
        t,
        map,
        deps,
    )[j] matches Some(s) ==> t.closed(s)) by {
        lemma_find(map.keys(), deps[j]);
        match map.spec_position(deps[j]) {
            Some(at) => {
                let list = map.entries@[at].1;
                assert(list_known(t.names, &map.entries@[at].1));
                assert forall|k: int| 0 <= k < views(&list).len() implies spec_find(
                    t.names,
                    #[trigger] views(&list)[k],
                ).is_some() by {
                    assert(known(t.names, list@[k]@));
                }
                lemma_expand_names_closed(t, views(&list));
            },
            None => {},
        }
    }
}

proof fn lemma_audit_evidence_shaped(
    t: TableView,
    entries: Seq<AuditEntry>,
    deps: Seq<Seq<char>>,
    upto: nat,
)
    requires
        t.wf(),
        upto <= entries.len(),
        forall|i: int| 0 <= i < entries.len() ==> entry_known(t.names, #[trigger] &entries[i]),
    ensures
        forall|x: int|
            0 <= x < audit_evidence(t, entries, deps, upto).len() ==> evidence_shaped(
                t,
                #[trigger] audit_evidence(t, entries, deps, upto)[x],
                deps.len(),
            ),
        forall|w: int|
            0 <= w < audit_violations(t, entries, upto).len() ==> (#[trigger] audit_violations(
                t,
                entries,
                upto,
            )[w]).criteria.len() == t.names.len(),
    decreases upto,
{
    if upto > 0 {
        lemma_audit_evidence_shaped(t, entries, deps, (upto - 1) as nat);
        let e = entries[upto - 1];
        assert(entry_known(t.names, &entries[upto - 1]));
        assert(known(t.names, e.criteria@));
        lemma_expansion_closed(t, e.criteria@);
        lemma_find(t.names, e.criteria@);
        let before = audit_evidence(t, entries, deps, (upto - 1) as nat);
        let after = audit_evidence(t, entries, deps, upto);
        let violations_before = audit_violations(t, entries, (upto - 1) as nat);
        let violations_after = audit_violations(t, entries, upto);
        match e.kind {
            AuditKind::Full { version, dependency_criteria } => {
                lemma_requirements_shaped(t, &dependency_criteria, deps);
                let one = evidence_view(t, e, upto - 1, deps).unwrap();
                assert(evidence_shaped(t, one, deps.len()));
                assert(after == before.push(one));
                assert(violations_after == violations_before);
            },
            AuditKind::Delta { delta, dependency_criteria } => {
                lemma_requirements_shaped(t, &dependency_criteria, deps);
                let one = evidence_view(t, e, upto - 1, deps).unwrap();
                assert(evidence_shaped(t, one, deps.len()));
                assert(after == before.push(one));
                assert(violations_after == violations_before);
            },
            AuditKind::Violation { violation } => {
                assert(after == before);
                let one = violation_view(t, e, upto - 1).unwrap();
                assert(violations_after == violations_before.push(one));
                assert(one.criteria.len() == t.names.len());
            },
        }
        assert forall|x: int| 0 <= x < after.len() implies evidence_shaped(
            t,
            #[trigger] after[x],
            deps.len(),
        ) by {
            if x < before.len() {
                assert(after[x] == before[x]);
            }
        }
        assert forall|w: int| 0 <= w < violations_after.len() implies (
        #[trigger] violations_after[w]).criteria.len() == t.names.len() by {
            if w < violations_before.len() {
                assert(violations_after[w] == violations_before[w]);
            }
        }
    }
}

/// The model of a well-formed graph, a well-formed table and files that
/// name known criteria only is well formed.
pub proof fn lemma_model_wf(
    g: GraphView,
    t: TableView,
    config: &ConfigFile,
    audits: &AuditsFile,
    imports: &ImportsFile,
)
    requires
        g.wf(),
        t.wf(),
        criteria_known(t.names, config, audits, imports),
    ensures
        model_of(g, t, config, audits, imports).wf(),
{
    let m = model_of(g, t, config, audits, imports);
    assert forall|a: int, b: int| m.implies(a, b) == t.implies(a, b) by {}
    assert forall|s: Seq<bool>| #[trigger] t.closed(s) implies m.closed(s) by {
        assert forall|a: int, b: int| crate::criteria::holds(s, a) && #[trigger] m.implies(
            a,
            b,
        ) implies crate::criteria::holds(s, b) by {
            assert(t.implies(a, b));
        }
    }
    assert forall|a: int| 0 <= a < m.implied.len() implies #[trigger] m.implies(a, a) by {
        assert(t.implies(a, a));
    }
    assert forall|a: int, b: int, c: int| #[trigger]
        m.implies(a, b) && #[trigger] m.implies(b, c) implies m.implies(a, c) by {
        assert(t.implies(a, b) && t.implies(b, c));
    }
    lemma_expansion_closed(t, config.default_criteria@);
    assert forall|k: int| 0 <= k < m.plans.len() implies m.plan_wf(k) by {
        let p = m.plans[k];
        let gp = g.packages[k];
        let deps = g.dep_names(k);
        assert(p == plan_of(g, t, config, audits, imports, k));
        lemma_find(config.policy.keys(), gp.name);
        match config.policy.spec_position(gp.name) {
            Some(at) => {
                let policy = config.policy.entries@[at].1;
                assert(policy_known(t.names, &config.policy.entries@[at].1));
                lemma_requirements_shaped(t, &policy.dependency_criteria, deps);
                if policy.criteria@.len() > 0 {
                    assert forall|x: int| 0 <= x < views(&policy.criteria).len() implies spec_find(
                        t.names,
                        #[trigger] views(&policy.criteria)[x],
                    ).is_some() by {
                        assert(known(t.names, policy.criteria@[x]@));
                    }
                    lemma_expand_names_closed(t, views(&policy.criteria));
                }
            },
            None => {},
        }
        if !gp.is_first_party {
            let recorded = audits_of(audits, imports, gp.name);
            lemma_recorded_known(t.names, audits, imports, gp.name);
            lemma_audit_evidence_shaped(t, recorded, deps, recorded.len());
            let first = audit_evidence(t, recorded, deps, recorded.len());
            let list = exemptions_of(config, gp.name);
            lemma_find(config.unaudited.keys(), gp.name);
            assert forall|i: int|
                #![trigger p.evidence[i]]
                0 <= i < p.evidence.len() implies evidence_shaped(t, p.evidence[i], deps.len()) by {
                if i < first.len() {
                    assert(p.evidence[i] == first[i]);
                } else {
                    let e = i - first.len();
                    let at = config.unaudited.spec_position(gp.name).unwrap();
                    assert(exemptions_known(t.names, &config.unaudited.entries@[at].1));
                    assert(known(t.names, list[e].criteria@));
                    lemma_expansion_closed(t, list[e].criteria@);
                    assert(p.evidence[i] == exemption_view(t, list[e], e, deps.len()));
                }
            }
        }
    }
}

} // verus!
