//! Resolution: from the list of packages and the files to the report.

use crate::advice::{
    advice_upto, advice_views, advise, in_bounds, ordered, spec_advice, Advice, AdviceView,
};
use crate::check::{
    criteria_checked, criteria_known, files_valid, files_validated, policies_checked,
    policies_placed, requirements_checked, requirements_ok, versions_checked, versions_ok,
};
use crate::criteria::{
    all_known, has_cycle, subset, table_links, table_lists, table_names, table_view, CriteriaError,
    CriteriaSet, CriteriaTable, TableView,
};
use crate::format::{AuditsFile, ConfigFile, ImportsFile};
use crate::graph::{
    dep_indices, deps_known, graph_view, has_duplicate, keys_of, spec_order, versions_well_formed,
    GraphError, GraphView, PackageGraph, PackageNode,
};
use crate::model::{Model, ModelView, Plan, PlanView, Verdict};
use crate::prepare::{file_fit, files_fit, lemma_file_fit, model_of, prepare};
use crate::report::{
    PackageReport, PackageReportView, Report, ReportView, Suggestion, SuggestionView, Warning,
};
use crate::settle::{model_ready, settle, Settled};
use crate::text::{copy_names, views};
use crate::warn::{spec_warnings, stray_upto, stray_warnings, unused_warnings, warning_views};
use crate::witness::{matches_of, sets_view};
use vstd::prelude::*;

verus! {

/// Why resolution refused to run.
#[derive(Clone, Copy, Debug, PartialEq, Eq, Structural)]
pub enum ResolveError {
    /// A tag of a version does not follow the grammar.
    MalformedVersion,
    /// The requirement of a violation does not follow the grammar.
    MalformedRequirement,
    /// Two packages of the graph have the same name and version.
    DuplicatePackage,
    /// A package depends on a name and version that the graph does not hold.
    UnknownDependency,
    /// Some packages depend on each other in a circle.
    DependencyCycle,
    /// The files name a criterion that the criteria table does not define.
    UnknownCriterion,
    /// Two different criteria imply each other.
    ImplicationCycle,
    /// The configuration holds a policy for a package that is not in the
    /// graph.
    UnknownPackage,
    /// A name stands twice in a map of the files: a criterion is defined
    /// twice, a package has two lists of audits, of exemptions or two
    /// policies, or criteria are declared twice for one dependency.
    RepeatedName,
}

/// The fault for which resolution refuses the input, if it has one. The
/// graph is looked at first, then the maps of the files, the criteria table,
/// the criteria that the files name, the packages that policies name, the
/// versions and the requirements.
pub open spec fn spec_fault(
    nodes: &Vec<PackageNode>,
    config: &ConfigFile,
    audits: &AuditsFile,
    imports: &ImportsFile,
) -> Option<ResolveError> {
    let names = table_names(&audits.criteria);
    if !versions_well_formed(nodes) {
        Some(ResolveError::MalformedVersion)
    } else if has_duplicate(keys_of(nodes)) {
        Some(ResolveError::DuplicatePackage)
    } else if !deps_known(nodes) {
        Some(ResolveError::UnknownDependency)
    } else if spec_order(dep_indices(nodes)).is_none() {
        Some(ResolveError::DependencyCycle)
    } else if !files_valid(config, audits, imports) {
        Some(ResolveError::RepeatedName)
    } else if !all_known(names, table_lists(&audits.criteria)) {
        Some(ResolveError::UnknownCriterion)
    } else if has_cycle(table_links(&audits.criteria)) {
        Some(ResolveError::ImplicationCycle)
    } else if !criteria_known(names, config, audits, imports) {
        Some(ResolveError::UnknownCriterion)
    } else if !policies_placed(graph_view(nodes).names(), config) {
        Some(ResolveError::UnknownPackage)
    } else if !versions_ok(config, audits, imports) {
        Some(ResolveError::MalformedVersion)
    } else if !requirements_ok(audits, imports) {
        Some(ResolveError::MalformedRequirement)
    } else {
        None
    }
}

/// What the report says of package `k`.
pub open spec fn spec_package_report(g: GraphView, m: ModelView, k: int) -> PackageReportView {
    PackageReportView {
        name: g.packages[k].name,
        version: g.packages[k].version,
        is_third_party: !g.packages[k].is_first_party,
        verdict: m.verdict(k),
        achieved: m.achieved()[k],
        required: m.required(k),
        missing: m.missing(k),
        masked_by: m.plans[k].blamed(m.required(k), m.plans[k].violations.len()),
    }
}

/// A piece of advice with the names put in.
pub open spec fn suggestion_of(g: GraphView, t: TableView, a: AdviceView) -> SuggestionView {
    SuggestionView {
        name: g.packages[a.package].name,
        from: a.from,
        to: a.to,
        criteria: t.names[a.criterion],
        cost: a.cost,
    }
}

/// The suggestions of the report: for each package that fails for want of
/// evidence the cheapest audit towards each of the strongest criteria it
/// misses, the suggestions for one name side by side, the cheaper first.
pub open spec fn spec_suggestions(g: GraphView, t: TableView, m: ModelView) -> Seq<SuggestionView> {
    let advice = spec_advice(g, m);
    Seq::new(advice.len(), |i: int| suggestion_of(g, t, advice[i]))
}

/// The report on a graph, a criteria table, the model made of them, and the
/// files.
pub open spec fn spec_report(
    g: GraphView,
    t: TableView,
    m: ModelView,
    config: &ConfigFile,
    audits: &AuditsFile,
    imports: &ImportsFile,
) -> ReportView {
    ReportView {
        success: m.success(),
        criteria: t.names,
        packages: Seq::new(g.packages.len(), |k: int| spec_package_report(g, m, k)),
        suggestions: spec_suggestions(g, t, m),
        warnings: spec_warnings(g, m, config, audits, imports),
    }
}

/// What resolution makes of an input: the fault for which it refuses it, or
/// the report.
pub open spec fn spec_resolve(
    nodes: &Vec<PackageNode>,
    config: &ConfigFile,
    audits: &AuditsFile,
    imports: &ImportsFile,
) -> Result<ReportView, ResolveError> {
    match spec_fault(nodes, config, audits, imports) {
        Some(fault) => Err(fault),
        None => {
            let g = graph_view(nodes);
            let t = table_view(&audits.criteria);
            Ok(spec_report(g, t, model_of(g, t, config, audits, imports), config, audits, imports))
        },
    }
}

/// What [`resolve`] promises of its result: the fault that the input has, or
/// a report of the value that the input determines.
pub open spec fn resolves_to(
    nodes: &Vec<PackageNode>,
    config: &ConfigFile,
    audits: &AuditsFile,
    imports: &ImportsFile,
    result: Result<Report, ResolveError>,
) -> bool {
    match result {
        Ok(report) => spec_resolve(nodes, config, audits, imports) == Ok::<
            ReportView,
            ResolveError,
        >(report@),
        Err(fault) => spec_resolve(nodes, config, audits, imports) == Err::<
            ReportView,
            ResolveError,
        >(fault),
    }
}

/// The value of a result of resolution.
pub open spec fn result_view(result: Result<Report, ResolveError>) -> Result<
    ReportView,
    ResolveError,
> {
    match result {
        Ok(report) => Ok(report@),
        Err(fault) => Err(fault),
    }
}

/// Some violation among the first `upto` is to blame exactly when the list of
/// blamed entries is not empty.
pub proof fn lemma_blamed(p: PlanView, required: Seq<bool>, upto: nat)
    ensures
        p.blamed(required, upto).len() > 0 <==> exists|w: int|
            0 <= w < upto && #[trigger] p.blames(required, w),
    decreases upto,
{
    if upto > 0 {
        lemma_blamed(p, required, (upto - 1) as nat);
        if p.blamed(required, upto).len() > 0 {
            if p.blames(required, upto - 1) {
            } else {
                let w = choose|w: int| 0 <= w < upto - 1 && #[trigger] p.blames(required, w);
                assert(0 <= w < upto);
            }
        }
        if exists|w: int| 0 <= w < upto && #[trigger] p.blames(required, w) {
            let w = choose|w: int| 0 <= w < upto && #[trigger] p.blames(required, w);
            if w < upto - 1 {
                assert(p.blamed(required, (upto - 1) as nat).len() > 0);
            }
        }
    }
}

/// The violations that are to blame for a failure of the package.
fn blamed_entries(p: &Plan, required: &CriteriaSet) -> (r: Vec<usize>)
    requires
        p.checked(),
    ensures
        Seq::new(r@.len(), |i: int| r@[i] as int) == p@.blamed(
            required@,
            p@.violations.len(),
        ),
{
    let hits = matches_of(p, &p.version);
    let n = p.violations.len();
    let mut r: Vec<usize> = Vec::new();
    let mut w: usize = 0;
    assert(Seq::new(r@.len(), |i: int| r@[i] as int) =~= p@.blamed(required@, 0));
    while w < n
        invariant
            n == p.violations@.len(),
            hits@.len() == n,
            forall|x: int|
                0 <= x < n ==> #[trigger] hits@[x] == crate::version::semver_matches(
                    p@.violations[x].requirement,
                    p.version@,
                ),
            w <= n,
            Seq::new(r@.len(), |i: int| r@[i] as int) == p@.blamed(required@, w as nat),
        decreases n - w,
    {
        let ghost before = Seq::new(r@.len(), |i: int| r@[i] as int);
        let v = &p.violations[w];
        assert(p@.violations[w as int] == v@);
        if hits[w] && required.overlaps(&v.criteria) {
            r.push(v.entry);
            assert(Seq::new(r@.len(), |i: int| r@[i] as int) =~= before.push(v.entry as int));
        }
        w += 1;
    }
    r
}

/// Whether package `k` passes.
fn passes(m: &Model, s: &Settled, k: usize) -> (r: bool)
    requires
        model_ready(m),
        s.describes(m@),
        k < m.plans@.len(),
    ensures
        r == m@.passes(k as int),
{
    let p = &m.plans[k];
    let ghost mv = m@;
    assert(mv.plans[k as int] == p@);
    assert(mv.plan_wf(k as int));
    if !p.first_party {
        assert(sets_view(&s.achieved)[k as int] == s.achieved@[k as int]@);
        return s.achieved[k].contains_all(&s.required[k]);
    }
    let n = p.deps.len();
    let demands = &s.demands[k];
    let mut j: usize = 0;
    while j < n
        invariant
            mv == m@,
            s.describes(mv),
            k < m.plans@.len(),
            p == m.plans@[k as int],
            mv.plans[k as int] == p@,
            mv.plan_wf(k as int),
            demands == s.demands@[k as int],
            n == p.deps@.len(),
            p.first_party,
            j <= n,
            forall|x: int|
                #![trigger mv.plans[k as int].deps[x]]
                0 <= x < j ==> subset(
                    mv.demand(k as int, mv.required(k as int), x),
                    mv.achieved()[mv.plans[k as int].deps[x]],
                ),
        decreases n - j,
    {
        let d = p.deps[j];
        assert(mv.plans[k as int].deps[j as int] == d);
        assert(sets_view(&s.achieved)[d as int] == s.achieved@[d as int]@);
        assert(demands@[j as int]@ == mv.demand(k as int, mv.required(k as int), j as int));
        if !s.achieved[d].contains_all(&demands[j]) {
            return false;
        }
        j += 1;
    }
    true
}

/// What the report says of package `k`.
fn package_report(g: &PackageGraph, m: &Model, s: &Settled, k: usize) -> (r: PackageReport)
    requires
        model_ready(m),
        s.describes(m@),
        k < m.plans@.len(),
        g.packages@.len() == m.plans@.len(),
    ensures
        r@ == spec_package_report(g@, m@, k as int),
{
    let p = &m.plans[k];
    let pkg = &g.packages[k];
    let ghost mv = m@;
    assert(mv.plans[k as int] == p@);
    assert(g@.packages[k as int] == pkg@);
    assert(sets_view(&s.achieved)[k as int] == s.achieved@[k as int]@);
    let masked_by = blamed_entries(p, &s.required[k]);
    proof {
        lemma_blamed(p@, mv.required(k as int), p@.violations.len());
    }
    let verdict = if passes(m, s, k) {
        Verdict::Pass
    } else if p.first_party {
        Verdict::FailPolicy
    } else if masked_by.len() > 0 {
        Verdict::FailViolation
    } else {
        Verdict::FailMissing
    };
    PackageReport {
        name: pkg.name.clone(),
        version: pkg.version.duplicate(),
        is_third_party: !pkg.is_first_party,
        verdict,
        achieved: s.achieved[k].duplicate(),
        required: s.required[k].duplicate(),
        missing: s.required[k].without(&s.achieved[k]),
        masked_by,
    }
}

/// The advice with the names put in.
fn suggestions_from(g: &PackageGraph, t: &CriteriaTable, advice: &Vec<Advice>) -> (r: Vec<
    Suggestion,
>)
    requires
        in_bounds(advice, g.packages@.len() as int, t.names@.len() as int),
    ensures
        Seq::new(r@.len(), |i: int| r@[i]@) == Seq::new(
            advice@.len(),
            |i: int| suggestion_of(g@, t@, advice@[i]@),
        ),
{
    let n = advice.len();
    let mut r: Vec<Suggestion> = Vec::new();
    let mut i: usize = 0;
    while i < n
        invariant
            in_bounds(advice, g.packages@.len() as int, t.names@.len() as int),
            n == advice@.len(),
            i <= n,
            r@.len() == i,
            forall|x: int| 0 <= x < i ==> (#[trigger] r@[x])@ == suggestion_of(g@, t@, advice@[x]@),
        decreases n - i,
    {
        let a = &advice[i];
        assert(a.package < g.packages@.len() && a.criterion < t.names@.len());
        assert(g@.packages[a.package as int] == g.packages@[a.package as int]@);
        let one = Suggestion {
            name: g.packages[a.package].name.clone(),
            from: match &a.from {
                Some(v) => Some(v.duplicate()),
                None => None,
            },
            to: a.to.duplicate(),
            criteria: t.names[a.criterion].clone(),
            cost: a.cost,
        };
        r.push(one);
        i += 1;
    }
    assert(Seq::new(r@.len(), |i: int| r@[i]@) =~= Seq::new(
        advice@.len(),
        |i: int| suggestion_of(g@, t@, advice@[i]@),
    ));
    r
}

/// The report on a model.
fn report_on(
    g: &PackageGraph,
    t: &CriteriaTable,
    m: &Model,
    config: &ConfigFile,
    audits: &AuditsFile,
    imports: &ImportsFile,
) -> (r: Report)
    requires
        model_ready(m),
        g.wf(),
        t.wf(),
        g.packages@.len() == m.plans@.len(),
        m@.implied.len() == t.names@.len(),
        files_fit(views(&t.names), config, audits, imports),
    ensures
        r@ == spec_report(g@, t@, m@, config, audits, imports),
{
    let s = settle(m);
    let n = m.plans.len();
    let ghost mv = m@;
    let ghost gv = g@;
    let ghost names = views(&t.names);
    let package_names = package_names(g);
    proof {
        lemma_file_fit(names, audits);
        assert forall|x: int| 0 <= x < imports.audits.entries@.len() implies file_fit(
            names,
            &(#[trigger] imports.audits.entries@[x]).1,
        ) by {
            lemma_file_fit(names, &imports.audits.entries@[x].1);
        }
    }
    let mut packages: Vec<PackageReport> = Vec::new();
    let mut advice: Vec<Advice> = Vec::new();
    let mut warnings: Vec<Warning> = Vec::new();
    let mut success = true;
    let mut k: usize = 0;
    assert(advice_views(&advice) =~= advice_upto(gv, mv, 0));
    assert(warning_views(&warnings) =~= stray_upto(gv, audits, imports, 0));
    while k < n
        invariant
            model_ready(m),
            g.wf(),
            mv == m@,
            gv == g@,
            s.describes(mv),
            n == m.plans@.len(),
            g.packages@.len() == n,
            views(&package_names) == gv.names(),
            file_fit(names, audits),
            forall|x: int|
                0 <= x < imports.audits.entries@.len() ==> file_fit(
                    names,
                    &(#[trigger] imports.audits.entries@[x]).1,
                ),
            k <= n,
            packages@.len() == k,
            forall|x: int|
                0 <= x < k ==> (#[trigger] packages@[x])@ == spec_package_report(gv, mv, x),
            success == forall|x: int| 0 <= x < k ==> #[trigger] mv.passes(x),
            advice_views(&advice) == advice_upto(gv, mv, k as nat),
            in_bounds(&advice, n as int, m.implied@.len() as int),
            warning_views(&warnings) == stray_upto(gv, audits, imports, k as nat),
        decreases n - k,
    {
        let one = package_report(g, m, &s, k);
        if one.verdict != Verdict::Pass {
            assert(!mv.passes(k as int));
            success = false;
        } else {
            assert(mv.passes(k as int));
        }
        advise(&mut advice, g, m, &s, &package_names, k, one.verdict, &one.missing);
        assert(gv.packages[k as int] == g.packages@[k as int]@);
        if !g.packages[k].is_first_party {
            stray_warnings(&mut warnings, g, audits, imports, k, Ghost(names));
        }
        packages.push(one);
        k += 1;
    }
    let ghost all = advice_views(&advice);
    let advice = ordered(advice, Ghost(n as int), Ghost(m.implied@.len() as int));
    let suggestions = suggestions_from(g, t, &advice);
    unused_warnings(&mut warnings, g, m, &s, config);
    let report = Report { success, criteria: copy_names(&t.names), packages, suggestions, warnings };
    proof {
        let goal = spec_report(gv, t@, mv, config, audits, imports);
        assert(report@.packages =~= goal.packages);
        assert(advice_views(&advice) == spec_advice(gv, mv));
        assert(report@.suggestions =~= goal.suggestions);
        assert(report@.warnings =~= goal.warnings);
    }
    report
}

/// The names of the packages of a graph.
fn package_names(g: &PackageGraph) -> (names: Vec<String>)
    ensures
        views(&names) == g@.names(),
{
    let n = g.packages.len();
    let mut names: Vec<String> = Vec::new();
    let mut k: usize = 0;
    while k < n
        invariant
            n == g.packages@.len(),
            k <= n,
            names@.len() == k,
            forall|x: int| 0 <= x < k ==> (#[trigger] names@[x])@ == g.packages@[x].name@,
        decreases n - k,
    {
        names.push(g.packages[k].name.clone());
        k += 1;
    }
    assert(views(&names) =~= g@.names());
    names
}

/// Resolves a dependency graph against the audits, the exemptions and the
/// policy of the files: checks the input, puts the packages in resolution
/// order, and reports what each achieves and whether it passes.
pub fn resolve(
    nodes: &Vec<PackageNode>,
    config: &ConfigFile,
    audits: &AuditsFile,
    imports: &ImportsFile,
) -> (r: Result<Report, ResolveError>)
    ensures
        resolves_to(nodes, config, audits, imports, r),
{
    let graph = match PackageGraph::new(nodes) {
        Ok(g) => g,
        Err(GraphError::MalformedVersion) => {
            return Err(ResolveError::MalformedVersion);
        },
        Err(GraphError::DuplicatePackage) => {
            return Err(ResolveError::DuplicatePackage);
        },
        Err(GraphError::UnknownDependency) => {
            return Err(ResolveError::UnknownDependency);
        },
        Err(GraphError::DependencyCycle) => {
            return Err(ResolveError::DependencyCycle);
        },
    };
    if !files_validated(config, audits, imports) {
        return Err(ResolveError::RepeatedName);
    }
    let table = match CriteriaTable::build(&audits.criteria) {
        Ok(t) => t,
        Err(CriteriaError::UnknownCriterion) => {
            return Err(ResolveError::UnknownCriterion);
        },
        Err(CriteriaError::ImplicationCycle) => {
            return Err(ResolveError::ImplicationCycle);
        },
    };
    assert(views(&table.names) == table_names(&audits.criteria));
    if !criteria_checked(&table.names, config, audits, imports) {
        return Err(ResolveError::UnknownCriterion);
    }
    let names = package_names(&graph);
    if !policies_checked(&names, config) {
        return Err(ResolveError::UnknownPackage);
    }
    if !versions_checked(config, audits, imports) {
        return Err(ResolveError::MalformedVersion);
    }
    if !requirements_checked(audits, imports) {
        return Err(ResolveError::MalformedRequirement);
    }
    let model = prepare(&graph, &table, config, audits, imports);
    assert(model@.plans.len() == graph@.packages.len());
    Ok(report_on(&graph, &table, &model, config, audits, imports))
}

} // verus!
