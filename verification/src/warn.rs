//! What the report warns of: exemptions that help no package to a criterion
//! that is required of it, and audits that declare criteria for a dependency
//! that the package does not have.

use crate::criteria::{holds, CriteriaSet};
use crate::format::{declared_map, AuditEntry, AuditKind, AuditsFile, ConfigFile, DependencyCriteria, ImportsFile};
use crate::graph::{GraphView, PackageGraph};
use crate::model::{Model, ModelView, Plan, PlanView};
use crate::prepare::{audits_of, file_fit, gather, pointed};
use crate::report::{Warning, WarningView};
use crate::settle::{model_ready, Settled, Workings};
use crate::text::{find, spec_find, views};
use crate::version::VersionView;
use crate::witness::{sets_view, witnessed};
use vstd::prelude::*;

verus! {

impl PlanView {
    /// The package leans on entry `i`: without it, it would not achieve a
    /// criterion that is required of it and that it achieves.
    pub open spec fn leans_on(
        self,
        implied: Seq<Seq<bool>>,
        achieved: Seq<Seq<bool>>,
        required: Seq<bool>,
        i: int,
    ) -> bool {
        exists|c: int|
            0 <= c < implied.len() && holds(required, c) && #[trigger] self.attains(
                implied,
                achieved,
                c,
            ) && !self.witnessed(self.usable_for(implied, achieved, c).update(i, false))
    }

    /// The package leans on the exemption at place `e` under its name.
    pub open spec fn needs_exemption(
        self,
        implied: Seq<Seq<bool>>,
        achieved: Seq<Seq<bool>>,
        required: Seq<bool>,
        e: int,
    ) -> bool {
        exists|i: int|
            0 <= i < self.evidence.len() && self.evidence[i].exempted && self.evidence[i].entry
                == e && #[trigger] self.leans_on(implied, achieved, required, i)
    }
}

/// Some third-party package that reads the exemptions at place `u` of the
/// configuration leans on the exemption at place `e` among them.
pub open spec fn exemption_used(
    g: GraphView,
    m: ModelView,
    config: &ConfigFile,
    u: int,
    e: int,
) -> bool {
    exists|k: int|
        0 <= k < m.plans.len() && !m.plans[k].first_party && config.unaudited.spec_position(
            g.packages[k].name,
        ) == Some(u) && #[trigger] m.plans[k].needs_exemption(
            m.implied,
            m.achieved(),
            m.required(k),
            e,
        )
}

/// The warnings for the unused exemptions among the first `upto` at place
/// `u` of the configuration.
pub open spec fn unused_in(
    g: GraphView,
    m: ModelView,
    config: &ConfigFile,
    u: int,
    upto: nat,
) -> Seq<WarningView>
    decreases upto,
{
    if upto == 0 {
        Seq::empty()
    } else {
        let before = unused_in(g, m, config, u, (upto - 1) as nat);
        if exemption_used(g, m, config, u, upto - 1) {
            before
        } else {
            before.push(
                WarningView::UnusedExemption {
                    name: config.unaudited.entries@[u].0@,
                    entry: upto - 1,
                },
            )
        }
    }
}

/// The warnings for the unused exemptions under the first `upto` names of
/// the configuration.
pub open spec fn unused_upto(g: GraphView, m: ModelView, config: &ConfigFile, upto: nat) -> Seq<
    WarningView,
>
    decreases upto,
{
    if upto == 0 {
        Seq::empty()
    } else {
        unused_upto(g, m, config, (upto - 1) as nat) + unused_in(
            g,
            m,
            config,
            upto - 1,
            config.unaudited.entries@[upto - 1].1@.len(),
        )
    }
}

/// The warnings for those among the first `upto` names of the map that are
/// no dependency of the package.
pub open spec fn stray_in(
    map: &DependencyCriteria,
    name: Seq<char>,
    version: VersionView,
    entry: int,
    deps: Seq<Seq<char>>,
    upto: nat,
) -> Seq<WarningView>
    decreases upto,
{
    if upto == 0 {
        Seq::empty()
    } else {
        let before = stray_in(map, name, version, entry, deps, (upto - 1) as nat);
        let key = map.entries@[upto - 1].0@;
        if spec_find(deps, key).is_none() {
            before.push(
                WarningView::UnknownDependency { name, version, entry, dependency: key },
            )
        } else {
            before
        }
    }
}

/// The warnings for the first `upto` audits recorded under the name of a
/// package.
pub open spec fn stray_among(
    entries: Seq<AuditEntry>,
    name: Seq<char>,
    version: VersionView,
    deps: Seq<Seq<char>>,
    upto: nat,
) -> Seq<WarningView>
    decreases upto,
{
    if upto == 0 {
        Seq::empty()
    } else {
        let before = stray_among(entries, name, version, deps, (upto - 1) as nat);
        match declared_map(&entries[upto - 1]) {
            Some(map) => before + stray_in(
                &map,
                name,
                version,
                upto - 1,
                deps,
                map.entries@.len(),
            ),
            None => before,
        }
    }
}

/// The warnings for the audits of the first `upto` packages: of a
/// first-party package no audit is read, and none is warned of.
pub open spec fn stray_upto(
    g: GraphView,
    audits: &AuditsFile,
    imports: &ImportsFile,
    upto: nat,
) -> Seq<WarningView>
    decreases upto,
{
    if upto == 0 {
        Seq::empty()
    } else {
        let before = stray_upto(g, audits, imports, (upto - 1) as nat);
        let p = g.packages[upto - 1];
        if p.is_first_party {
            before
        } else {
            let recorded = audits_of(audits, imports, p.name);
            before + stray_among(
                recorded,
                p.name,
                p.version,
                g.dep_names(upto - 1),
                recorded.len(),
            )
        }
    }
}

/// The warnings of the report: first those for audits, package after
/// package, then those for exemptions in the order of the configuration.
pub open spec fn spec_warnings(
    g: GraphView,
    m: ModelView,
    config: &ConfigFile,
    audits: &AuditsFile,
    imports: &ImportsFile,
) -> Seq<WarningView> {
    stray_upto(g, audits, imports, g.packages.len()) + unused_upto(
        g,
        m,
        config,
        config.unaudited.entries@.len(),
    )
}

/// The values of a list of warnings.
pub open spec fn warning_views(list: &Vec<Warning>) -> Seq<WarningView> {
    Seq::new(list@.len(), |i: int| list@[i]@)
}

/// Whether the package leans on entry `i`.
fn leans(
    p: &Plan,
    w: &Workings,
    required: &CriteriaSet,
    attained: &CriteriaSet,
    i: usize,
    Ghost(implied): Ghost<Seq<Seq<bool>>>,
    Ghost(achieved): Ghost<Seq<Seq<bool>>>,
) -> (r: bool)
    requires
        !p.first_party,
        w.describes(p@, implied, achieved),
        attained@ == p@.achieved_set(implied, achieved),
        i < p.evidence@.len(),
    ensures
        r == p@.leans_on(implied, achieved, required@, i as int),
{
    let count = w.usable.len();
    let n = p.evidence.len();
    let mut c: usize = 0;
    while c < count
        invariant
            !p.first_party,
            w.describes(p@, implied, achieved),
            attained@ == p@.achieved_set(implied, achieved),
            count == implied.len(),
            n == p.evidence@.len(),
            i < n,
            c <= count,
            forall|x: int|
                0 <= x < c ==> !(holds(required@, x) && #[trigger] p@.attains(implied, achieved, x)
                    && !p@.witnessed(p@.usable_for(implied, achieved, x).update(i as int, false))),
        decreases count - c,
    {
        assert(attained@[c as int] == p@.attains(implied, achieved, c as int));
        assert(w.usable@[c as int]@ == p@.usable_for(implied, achieved, c as int));
        if required.contains(c) && attained.contains(c) {
            let source = &w.usable[c];
            let mut active: Vec<bool> = Vec::new();
            let mut x: usize = 0;
            while x < n
                invariant
                    n == source@.len(),
                    i < n,
                    x <= n,
                    active@.len() == x,
                    forall|y: int| 0 <= y < x ==> #[trigger] active@[y] == (y != i && source@[y]),
                decreases n - x,
            {
                active.push(x != i && source[x]);
                x += 1;
            }
            assert(active@ =~= source@.update(i as int, false));
            if !witnessed(p, &w.links, &w.starts, &w.arrivals, &active) {
                return true;
            }
        }
        c += 1;
    }
    false
}

/// Whether the package leans on the exemption at place `e` under its name.
pub(crate) fn needs(
    p: &Plan,
    w: &Workings,
    required: &CriteriaSet,
    attained: &CriteriaSet,
    e: usize,
    Ghost(implied): Ghost<Seq<Seq<bool>>>,
    Ghost(achieved): Ghost<Seq<Seq<bool>>>,
) -> (r: bool)
    requires
        !p.first_party,
        w.describes(p@, implied, achieved),
        attained@ == p@.achieved_set(implied, achieved),
    ensures
        r == p@.needs_exemption(implied, achieved, required@, e as int),
{
    let n = p.evidence.len();
    let mut i: usize = 0;
    while i < n
        invariant
            !p.first_party,
            w.describes(p@, implied, achieved),
            attained@ == p@.achieved_set(implied, achieved),
            n == p.evidence@.len(),
            i <= n,
            forall|x: int|
                0 <= x < i ==> !(p@.evidence[x].exempted && p@.evidence[x].entry == e
                    && #[trigger] p@.leans_on(implied, achieved, required@, x)),
        decreases n - i,
    {
        assert(p@.evidence[i as int] == p.evidence@[i as int]@);
        if p.evidence[i].exempted && p.evidence[i].entry == e && leans(
            p,
            w,
            required,
            attained,
            i,
            Ghost(implied),
            Ghost(achieved),
        ) {
            return true;
        }
        i += 1;
    }
    false
}

/// The names of the dependencies of package `k`.
fn dep_name_list(g: &PackageGraph, k: usize) -> (r: Vec<String>)
    requires
        g.wf(),
        k < g.packages@.len(),
    ensures
        views(&r) == g@.dep_names(k as int),
{
    let p = &g.packages[k];
    let n = p.deps.len();
    let mut r: Vec<String> = Vec::new();
    let mut j: usize = 0;
    while j < n
        invariant
            g.wf(),
            k < g.packages@.len(),
            p == g.packages@[k as int],
            n == p.deps@.len(),
            j <= n,
            r@.len() == j,
            forall|x: int|
                0 <= x < j ==> (#[trigger] r@[x])@ == g.packages@[p.deps@[x] as int].name@,
        decreases n - j,
    {
        let d = p.deps[j];
        assert(g.packages@[k as int].deps@[j as int] < k);
        r.push(g.packages[d].name.clone());
        j += 1;
    }
    assert(views(&r) =~= g@.dep_names(k as int));
    r
}

/// Appends the warnings for the names of a map that are no dependency of the
/// package.
fn stray_keys(
    list: &mut Vec<Warning>,
    map: &DependencyCriteria,
    name: &String,
    version: &crate::version::Version,
    entry: usize,
    deps: &Vec<String>,
)
    ensures
        warning_views(final(list)) == warning_views(old(list)) + stray_in(
            map,
            name@,
            version@,
            entry as int,
            views(deps),
            map.entries@.len(),
        ),
{
    let ghost base = warning_views(list);
    let n = map.entries.len();
    let mut d: usize = 0;
    assert(warning_views(list) =~= base + stray_in(
        map,
        name@,
        version@,
        entry as int,
        views(deps),
        0,
    ));
    while d < n
        invariant
            n == map.entries@.len(),
            d <= n,
            warning_views(list) == base + stray_in(
                map,
                name@,
                version@,
                entry as int,
                views(deps),
                d as nat,
            ),
        decreases n - d,
    {
        let ghost so_far = warning_views(list);
        let key = &map.entries[d].0;
        if find(deps, key).is_none() {
            let one = Warning::UnknownDependency {
                name: name.clone(),
                version: version.duplicate(),
                entry,
                dependency: key.clone(),
            };
            list.push(one);
            assert(warning_views(list) =~= so_far.push(one@));
        }
        assert(warning_views(list) =~= base + stray_in(
            map,
            name@,
            version@,
            entry as int,
            views(deps),
            (d + 1) as nat,
        ));
        d += 1;
    }
}

/// Appends the warnings for the audits recorded under the name of the
/// third-party package `k`.
pub(crate) fn stray_warnings(
    list: &mut Vec<Warning>,
    g: &PackageGraph,
    audits: &AuditsFile,
    imports: &ImportsFile,
    k: usize,
    Ghost(names): Ghost<Seq<Seq<char>>>,
)
    requires
        g.wf(),
        k < g.packages@.len(),
        file_fit(names, audits),
        forall|s: int|
            0 <= s < imports.audits.entries@.len() ==> file_fit(
                names,
                &(#[trigger] imports.audits.entries@[s]).1,
            ),
    ensures
        ({
            let p = g@.packages[k as int];
            let recorded = audits_of(audits, imports, p.name);
            warning_views(final(list)) == warning_views(old(list)) + stray_among(
                recorded,
                p.name,
                p.version,
                g@.dep_names(k as int),
                recorded.len(),
            )
        }),
{
    let pkg = &g.packages[k];
    let ghost base = warning_views(list);
    let deps = dep_name_list(g, k);
    let all = gather(audits, imports, &pkg.name, Ghost(names));
    let ghost recorded = pointed(all@);
    let n = all.len();
    let mut i: usize = 0;
    assert(warning_views(list) =~= base + stray_among(recorded, pkg.name@, pkg.version@, views(
        &deps,
    ), 0));
    while i < n
        invariant
            recorded == pointed(all@),
            n == all@.len(),
            i <= n,
            warning_views(list) == base + stray_among(
                recorded,
                pkg.name@,
                pkg.version@,
                views(&deps),
                i as nat,
            ),
        decreases n - i,
    {
        let ghost so_far = warning_views(list);
        let e = all[i];
        assert(recorded[i as int] == *e);
        match &e.kind {
            AuditKind::Full { version, dependency_criteria } => {
                stray_keys(list, dependency_criteria, &pkg.name, &pkg.version, i, &deps);
            },
            AuditKind::Delta { delta, dependency_criteria } => {
                stray_keys(list, dependency_criteria, &pkg.name, &pkg.version, i, &deps);
            },
            AuditKind::Violation { violation } => {},
        }
        assert(warning_views(list) =~= base + stray_among(
            recorded,
            pkg.name@,
            pkg.version@,
            views(&deps),
            (i + 1) as nat,
        ));
        i += 1;
    }
}

/// Whether some third-party package that reads the exemptions at place `u`
/// leans on the exemption at place `e` among them.
fn used(
    g: &PackageGraph,
    m: &Model,
    s: &Settled,
    config: &ConfigFile,
    slots: &Vec<Option<usize>>,
    u: usize,
    e: usize,
) -> (r: bool)
    requires
        model_ready(m),
        s.describes(m@),
        g.packages@.len() == m.plans@.len(),
        slots@.len() == m.plans@.len(),
        forall|k: int|
            0 <= k < slots@.len() ==> match #[trigger] slots@[k] {
                Some(at) => config.unaudited.spec_position(g@.packages[k].name) == Some(at as int),
                None => config.unaudited.spec_position(g@.packages[k].name).is_none(),
            },
    ensures
        r == exemption_used(g@, m@, config, u as int, e as int),
{
    let n = m.plans.len();
    let ghost mv = m@;
    let ghost gv = g@;
    let mut k: usize = 0;
    while k < n
        invariant
            model_ready(m),
            mv == m@,
            gv == g@,
            s.describes(mv),
            n == m.plans@.len(),
            slots@.len() == n,
            forall|x: int|
                0 <= x < slots@.len() ==> match #[trigger] slots@[x] {
                    Some(at) => config.unaudited.spec_position(gv.packages[x].name) == Some(
                        at as int,
                    ),
                    None => config.unaudited.spec_position(gv.packages[x].name).is_none(),
                },
            k <= n,
            forall|x: int|
                0 <= x < k ==> !(!mv.plans[x].first_party && config.unaudited.spec_position(
                    gv.packages[x].name,
                ) == Some(u as int) && #[trigger] mv.plans[x].needs_exemption(
                    mv.implied,
                    mv.achieved(),
                    mv.required(x),
                    e as int,
                )),
        decreases n - k,
    {
        let p = &m.plans[k];
        assert(mv.plans[k as int] == p@);
        let reads = match slots[k] {
            Some(at) => at == u,
            None => false,
        };
        assert(reads == (config.unaudited.spec_position(gv.packages[k as int].name) == Some(
            u as int,
        )));
        if !p.first_party && reads {
            proof {
                crate::settle::lemma_achieved_at(mv, k as int);
                assert(sets_view(&s.achieved)[k as int] == s.achieved@[k as int]@);
            }
            if needs(
                p,
                &s.workings[k],
                &s.required[k],
                &s.achieved[k],
                e,
                Ghost(mv.implied),
                Ghost(mv.achieved()),
            ) {
                return true;
            }
        }
        k += 1;
    }
    false
}

/// Appends the warnings for the exemptions that no package leans on.
pub(crate) fn unused_warnings(
    list: &mut Vec<Warning>,
    g: &PackageGraph,
    m: &Model,
    s: &Settled,
    config: &ConfigFile,
)
    requires
        model_ready(m),
        s.describes(m@),
        g.packages@.len() == m.plans@.len(),
    ensures
        warning_views(final(list)) == warning_views(old(list)) + unused_upto(
            g@,
            m@,
            config,
            config.unaudited.entries@.len(),
        ),
{
    let n = m.plans.len();
    let ghost mv = m@;
    let ghost gv = g@;
    let ghost base = warning_views(list);
    let mut slots: Vec<Option<usize>> = Vec::new();
    let mut k: usize = 0;
    while k < n
        invariant
            gv == g@,
            n == g.packages@.len(),
            k <= n,
            slots@.len() == k,
            forall|x: int|
                0 <= x < k ==> match #[trigger] slots@[x] {
                    Some(at) => config.unaudited.spec_position(gv.packages[x].name) == Some(
                        at as int,
                    ),
                    None => config.unaudited.spec_position(gv.packages[x].name).is_none(),
                },
        decreases n - k,
    {
        assert(gv.packages[k as int] == g.packages@[k as int]@);
        slots.push(config.unaudited.position(&g.packages[k].name));
        k += 1;
    }
    let count = config.unaudited.entries.len();
    let mut u: usize = 0;
    assert(warning_views(list) =~= base + unused_upto(gv, mv, config, 0));
    while u < count
        invariant
            model_ready(m),
            mv == m@,
            gv == g@,
            s.describes(mv),
            g.packages@.len() == m.plans@.len(),
            slots@.len() == m.plans@.len(),
            forall|x: int|
                0 <= x < slots@.len() ==> match #[trigger] slots@[x] {
                    Some(at) => config.unaudited.spec_position(gv.packages[x].name) == Some(
                        at as int,
                    ),
                    None => config.unaudited.spec_position(gv.packages[x].name).is_none(),
                },
            count == config.unaudited.entries@.len(),
            u <= count,
            warning_views(list) == base + unused_upto(gv, mv, config, u as nat),
        decreases count - u,
    {
        let ghost start = warning_views(list);
        let name = &config.unaudited.entries[u].0;
        let len = config.unaudited.entries[u].1.len();
        let mut e: usize = 0;
        assert(warning_views(list) =~= start + unused_in(gv, mv, config, u as int, 0));
        while e < len
            invariant
                model_ready(m),
                mv == m@,
                gv == g@,
                s.describes(mv),
                g.packages@.len() == m.plans@.len(),
                slots@.len() == m.plans@.len(),
                forall|x: int|
                    0 <= x < slots@.len() ==> match #[trigger] slots@[x] {
                        Some(at) => config.unaudited.spec_position(gv.packages[x].name) == Some(
                            at as int,
                        ),
                        None => config.unaudited.spec_position(gv.packages[x].name).is_none(),
                    },
                u < config.unaudited.entries@.len(),
                name == config.unaudited.entries@[u as int].0,
                len == config.unaudited.entries@[u as int].1@.len(),
                e <= len,
                warning_views(list) == start + unused_in(gv, mv, config, u as int, e as nat),
            decreases len - e,
        {
            let ghost so_far = warning_views(list);
            if !used(g, m, s, config, &slots, u, e) {
                let one = Warning::UnusedExemption { name: name.clone(), entry: e };
                list.push(one);
                assert(warning_views(list) =~= so_far.push(one@));
            }
            assert(warning_views(list) =~= start + unused_in(
                gv,
                mv,
                config,
                u as int,
                (e + 1) as nat,
            ));
            e += 1;
        }
        assert(warning_views(list) =~= base + unused_upto(gv, mv, config, (u + 1) as nat));
        u += 1;
    }
}

} // verus!
