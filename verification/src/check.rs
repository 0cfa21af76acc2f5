//! What makes the files unfit for resolution: a criterion that the table does
//! not define, a policy for a package that the graph does not hold, a version
//! or a requirement that does not follow the grammar.

use crate::format::{declared_map, 
    AuditEntry, AuditKind, AuditsFile, ConfigFile, ImportsFile, PolicyEntry, StableMap,
    UnauditedDependency,
};
use crate::text::{find, spec_find, views};
use crate::version::semver_requirement_ok;
use vstd::prelude::*;

verus! {

/// `name` is one of `names`.
pub open spec fn known(names: Seq<Seq<char>>, name: Seq<char>) -> bool {
    spec_find(names, name).is_some()
}

/// Every name of the list is one of `names`.
pub open spec fn list_known(names: Seq<Seq<char>>, list: &Vec<String>) -> bool {
    forall|k: int| 0 <= k < list@.len() ==> known(names, (#[trigger] list@[k])@)
}

/// Every list of the map holds names of `names` only.
pub open spec fn map_known(names: Seq<Seq<char>>, map: &StableMap<Vec<String>>) -> bool {
    forall|d: int|
        0 <= d < map.entries@.len() ==> list_known(names, &(#[trigger] map.entries@[d]).1)
}

/// The entry names criteria of `names` only.
pub open spec fn entry_known(names: Seq<Seq<char>>, e: &AuditEntry) -> bool {
    &&& known(names, e.criteria@)
    &&& match e.kind {
        AuditKind::Full { version, dependency_criteria } => map_known(names, &dependency_criteria),
        AuditKind::Delta { delta, dependency_criteria } => map_known(names, &dependency_criteria),
        AuditKind::Violation { violation } => true,
    }
}

pub open spec fn entries_known(names: Seq<Seq<char>>, list: &Vec<AuditEntry>) -> bool {
    forall|i: int| 0 <= i < list@.len() ==> entry_known(names, #[trigger] &list@[i])
}

pub open spec fn file_known(names: Seq<Seq<char>>, file: &AuditsFile) -> bool {
    forall|n: int|
        0 <= n < file.audits.entries@.len() ==> entries_known(
            names,
            &(#[trigger] file.audits.entries@[n]).1,
        )
}

pub open spec fn imports_known(names: Seq<Seq<char>>, imports: &ImportsFile) -> bool {
    forall|s: int|
        0 <= s < imports.audits.entries@.len() ==> file_known(
            names,
            &(#[trigger] imports.audits.entries@[s]).1,
        )
}

pub open spec fn policy_known(names: Seq<Seq<char>>, policy: &PolicyEntry) -> bool {
    &&& list_known(names, &policy.criteria)
    &&& list_known(names, &policy.build_and_dev_criteria)
    &&& map_known(names, &policy.dependency_criteria)
}

pub open spec fn exemptions_known(names: Seq<Seq<char>>, list: &Vec<UnauditedDependency>) -> bool {
    forall|i: int| 0 <= i < list@.len() ==> known(names, (#[trigger] list@[i]).criteria@)
}

pub open spec fn config_known(names: Seq<Seq<char>>, config: &ConfigFile) -> bool {
    &&& known(names, config.default_criteria@)
    &&& forall|p: int|
        0 <= p < config.policy.entries@.len() ==> policy_known(
            names,
            &(#[trigger] config.policy.entries@[p]).1,
        )
    &&& forall|u: int|
        0 <= u < config.unaudited.entries@.len() ==> exemptions_known(
            names,
            &(#[trigger] config.unaudited.entries@[u]).1,
        )
}

/// Every criterion that the files name is one of `names`.
pub open spec fn criteria_known(
    names: Seq<Seq<char>>,
    config: &ConfigFile,
    audits: &AuditsFile,
    imports: &ImportsFile,
) -> bool {
    &&& config_known(names, config)
    &&& file_known(names, audits)
    &&& imports_known(names, imports)
}

/// Every policy is the policy of a package of the graph.
pub open spec fn policies_placed(packages: Seq<Seq<char>>, config: &ConfigFile) -> bool {
    forall|p: int|
        0 <= p < config.policy.entries@.len() ==> known(
            packages,
            (#[trigger] config.policy.entries@[p]).0@,
        )
}

/// The versions of the entry are well formed.
pub open spec fn entry_versions_ok(e: &AuditEntry) -> bool {
    match e.kind {
        AuditKind::Full { version, dependency_criteria } => version@.well_formed(),
        AuditKind::Delta { delta, dependency_criteria } => delta.from@.well_formed()
            && delta.to@.well_formed(),
        AuditKind::Violation { violation } => true,
    }
}

pub open spec fn file_versions_ok(file: &AuditsFile) -> bool {
    forall|n: int, i: int|
        0 <= n < file.audits.entries@.len() && 0 <= i < file.audits.entries@[n].1@.len()
            ==> entry_versions_ok(#[trigger] &file.audits.entries@[n].1@[i])
}

/// Every version that the files hold is well formed.
pub open spec fn versions_ok(config: &ConfigFile, audits: &AuditsFile, imports: &ImportsFile) -> bool {
    &&& file_versions_ok(audits)
    &&& forall|s: int|
        0 <= s < imports.audits.entries@.len() ==> file_versions_ok(
            &(#[trigger] imports.audits.entries@[s]).1,
        )
    &&& forall|u: int, i: int|
        0 <= u < config.unaudited.entries@.len() && 0 <= i < config.unaudited.entries@[u].1@.len()
            ==> (#[trigger] config.unaudited.entries@[u].1@[i]).version@.well_formed()
}

/// The requirement of the entry, if it is a violation, is one that `semver`
/// accepts.
pub open spec fn entry_requirement_ok(e: &AuditEntry) -> bool {
    match e.kind {
        AuditKind::Violation { violation } => semver_requirement_ok(violation.text@),
        _ => true,
    }
}

pub open spec fn file_requirements_ok(file: &AuditsFile) -> bool {
    forall|n: int, i: int|
        0 <= n < file.audits.entries@.len() && 0 <= i < file.audits.entries@[n].1@.len()
            ==> entry_requirement_ok(#[trigger] &file.audits.entries@[n].1@[i])
}

/// Every requirement that the files hold is one that `semver` accepts.
pub open spec fn requirements_ok(audits: &AuditsFile, imports: &ImportsFile) -> bool {
    &&& file_requirements_ok(audits)
    &&& forall|s: int|
        0 <= s < imports.audits.entries@.len() ==> file_requirements_ok(
            &(#[trigger] imports.audits.entries@[s]).1,
        )
}

fn list_checked(names: &Vec<String>, list: &Vec<String>) -> (r: bool)
    ensures
        r == list_known(views(names), list),
{
    let n = list.len();
    let mut k: usize = 0;
    while k < n
        invariant
            n == list@.len(),
            k <= n,
            forall|x: int| 0 <= x < k ==> known(views(names), (#[trigger] list@[x])@),
        decreases n - k,
    {
        if find(names, &list[k]).is_none() {
            return false;
        }
        k += 1;
    }
    true
}

fn map_checked(names: &Vec<String>, map: &StableMap<Vec<String>>) -> (r: bool)
    ensures
        r == map_known(views(names), map),
{
    let n = map.entries.len();
    let mut d: usize = 0;
    while d < n
        invariant
            n == map.entries@.len(),
            d <= n,
            forall|x: int| 0 <= x < d ==> list_known(views(names), &(#[trigger] map.entries@[x]).1),
        decreases n - d,
    {
        if !list_checked(names, &map.entries[d].1) {
            return false;
        }
        d += 1;
    }
    true
}

fn entry_checked(names: &Vec<String>, e: &AuditEntry) -> (r: bool)
    ensures
        r == entry_known(views(names), e),
{
    if find(names, &e.criteria).is_none() {
        return false;
    }
    match &e.kind {
        AuditKind::Full { version, dependency_criteria } => map_checked(names, dependency_criteria),
        AuditKind::Delta { delta, dependency_criteria } => map_checked(names, dependency_criteria),
        AuditKind::Violation { violation } => true,
    }
}

fn file_checked(names: &Vec<String>, file: &AuditsFile) -> (r: bool)
    ensures
        r == file_known(views(names), file),
{
    let n = file.audits.entries.len();
    let mut a: usize = 0;
    while a < n
        invariant
            n == file.audits.entries@.len(),
            a <= n,
            forall|x: int|
                0 <= x < a ==> entries_known(views(names), &(#[trigger] file.audits.entries@[x]).1),
        decreases n - a,
    {
        let list = &file.audits.entries[a].1;
        let m = list.len();
        let mut i: usize = 0;
        while i < m
            invariant
                a < n,
                n == file.audits.entries@.len(),
                list == &file.audits.entries@[a as int].1,
                m == list@.len(),
                i <= m,
                forall|x: int| 0 <= x < i ==> entry_known(views(names), #[trigger] &list@[x]),
            decreases m - i,
        {
            if !entry_checked(names, &list[i]) {
                assert(!entries_known(views(names), &file.audits.entries@[a as int].1));
                return false;
            }
            i += 1;
        }
        a += 1;
    }
    true
}

fn config_checked(names: &Vec<String>, config: &ConfigFile) -> (r: bool)
    ensures
        r == config_known(views(names), config),
{
    if find(names, &config.default_criteria).is_none() {
        return false;
    }
    let n = config.policy.entries.len();
    let mut p: usize = 0;
    while p < n
        invariant
            n == config.policy.entries@.len(),
            p <= n,
            forall|x: int|
                0 <= x < p ==> policy_known(views(names), &(#[trigger] config.policy.entries@[x]).1),
        decreases n - p,
    {
        let policy = &config.policy.entries[p].1;
        if !(list_checked(names, &policy.criteria) && list_checked(
            names,
            &policy.build_and_dev_criteria,
        ) && map_checked(names, &policy.dependency_criteria)) {
            return false;
        }
        p += 1;
    }
    let n = config.unaudited.entries.len();
    let mut u: usize = 0;
    while u < n
        invariant
            n == config.unaudited.entries@.len(),
            u <= n,
            forall|x: int|
                0 <= x < u ==> exemptions_known(
                    views(names),
                    &(#[trigger] config.unaudited.entries@[x]).1,
                ),
        decreases n - u,
    {
        let list = &config.unaudited.entries[u].1;
        let m = list.len();
        let mut i: usize = 0;
        while i < m
            invariant
                u < n,
                n == config.unaudited.entries@.len(),
                list == &config.unaudited.entries@[u as int].1,
                m == list@.len(),
                i <= m,
                forall|x: int| 0 <= x < i ==> known(views(names), (#[trigger] list@[x]).criteria@),
            decreases m - i,
        {
            if find(names, &list[i].criteria).is_none() {
                assert(!exemptions_known(views(names), &config.unaudited.entries@[u as int].1));
                return false;
            }
            i += 1;
        }
        u += 1;
    }
    true
}

/// Whether every criterion that the files name is one of `names`.
pub fn criteria_checked(
    names: &Vec<String>,
    config: &ConfigFile,
    audits: &AuditsFile,
    imports: &ImportsFile,
) -> (r: bool)
    ensures
        r == criteria_known(views(names), config, audits, imports),
{
    if !config_checked(names, config) {
        return false;
    }
    if !file_checked(names, audits) {
        return false;
    }
    let n = imports.audits.entries.len();
    let mut s: usize = 0;
    while s < n
        invariant
            n == imports.audits.entries@.len(),
            s <= n,
            forall|x: int|
                0 <= x < s ==> file_known(views(names), &(#[trigger] imports.audits.entries@[x]).1),
        decreases n - s,
    {
        if !file_checked(names, &imports.audits.entries[s].1) {
            return false;
        }
        s += 1;
    }
    true
}

/// Whether every policy is the policy of one of `packages`.
pub fn policies_checked(packages: &Vec<String>, config: &ConfigFile) -> (r: bool)
    ensures
        r == policies_placed(views(packages), config),
{
    let n = config.policy.entries.len();
    let mut p: usize = 0;
    while p < n
        invariant
            n == config.policy.entries@.len(),
            p <= n,
            forall|x: int|
                0 <= x < p ==> known(views(packages), (#[trigger] config.policy.entries@[x]).0@),
        decreases n - p,
    {
        if find(packages, &config.policy.entries[p].0).is_none() {
            return false;
        }
        p += 1;
    }
    true
}

fn file_versions_checked(file: &AuditsFile) -> (r: bool)
    ensures
        r == file_versions_ok(file),
{
    let n = file.audits.entries.len();
    let mut a: usize = 0;
    while a < n
        invariant
            n == file.audits.entries@.len(),
            a <= n,
            forall|x: int, i: int|
                0 <= x < a && 0 <= i < file.audits.entries@[x].1@.len() ==> entry_versions_ok(
                    #[trigger] &file.audits.entries@[x].1@[i],
                ),
        decreases n - a,
    {
        let list = &file.audits.entries[a].1;
        let m = list.len();
        let mut i: usize = 0;
        while i < m
            invariant
                a < n,
                n == file.audits.entries@.len(),
                list == &file.audits.entries@[a as int].1,
                m == list@.len(),
                i <= m,
                forall|x: int| 0 <= x < i ==> entry_versions_ok(#[trigger] &list@[x]),
            decreases m - i,
        {
            let ok = match &list[i].kind {
                AuditKind::Full { version, dependency_criteria } => version.is_well_formed(),
                AuditKind::Delta { delta, dependency_criteria } => delta.from.is_well_formed()
                    && delta.to.is_well_formed(),
                AuditKind::Violation { violation } => true,
            };
            if !ok {
                assert(!entry_versions_ok(&file.audits.entries@[a as int].1@[i as int]));
                return false;
            }
            i += 1;
        }
        a += 1;
    }
    true
}

/// Whether every version that the files hold is well formed.
pub fn versions_checked(config: &ConfigFile, audits: &AuditsFile, imports: &ImportsFile) -> (r:
    bool)
    ensures
        r == versions_ok(config, audits, imports),
{
    if !file_versions_checked(audits) {
        return false;
    }
    let n = imports.audits.entries.len();
    let mut s: usize = 0;
    while s < n
        invariant
            n == imports.audits.entries@.len(),
            s <= n,
            forall|x: int|
                0 <= x < s ==> file_versions_ok(&(#[trigger] imports.audits.entries@[x]).1),
        decreases n - s,
    {
        if !file_versions_checked(&imports.audits.entries[s].1) {
            return false;
        }
        s += 1;
    }
    let n = config.unaudited.entries.len();
    let mut u: usize = 0;
    while u < n
        invariant
            n == config.unaudited.entries@.len(),
            u <= n,
            forall|x: int, i: int|
                0 <= x < u && 0 <= i < config.unaudited.entries@[x].1@.len() ==> (
                #[trigger] config.unaudited.entries@[x].1@[i]).version@.well_formed(),
        decreases n - u,
    {
        let list = &config.unaudited.entries[u].1;
        let m = list.len();
        let mut i: usize = 0;
        while i < m
            invariant
                u < n,
                n == config.unaudited.entries@.len(),
                list == &config.unaudited.entries@[u as int].1,
                m == list@.len(),
                i <= m,
                forall|x: int| 0 <= x < i ==> (#[trigger] list@[x]).version@.well_formed(),
            decreases m - i,
        {
            if !list[i].version.is_well_formed() {
                assert(!config.unaudited.entries@[u as int].1@[i as int].version@.well_formed());
                return false;
            }
            i += 1;
        }
        u += 1;
    }
    true
}

fn file_requirements_checked(file: &AuditsFile) -> (r: bool)
    ensures
        r == file_requirements_ok(file),
{
    let n = file.audits.entries.len();
    let mut a: usize = 0;
    while a < n
        invariant
            n == file.audits.entries@.len(),
            a <= n,
            forall|x: int, i: int|
                0 <= x < a && 0 <= i < file.audits.entries@[x].1@.len() ==> entry_requirement_ok(
                    #[trigger] &file.audits.entries@[x].1@[i],
                ),
        decreases n - a,
    {
        let list = &file.audits.entries[a].1;
        let m = list.len();
        let mut i: usize = 0;
        while i < m
            invariant
                a < n,
                n == file.audits.entries@.len(),
                list == &file.audits.entries@[a as int].1,
                m == list@.len(),
                i <= m,
                forall|x: int| 0 <= x < i ==> entry_requirement_ok(#[trigger] &list@[x]),
            decreases m - i,
        {
            let ok = match &list[i].kind {
                AuditKind::Violation { violation } => violation.is_well_formed(),
                _ => true,
            };
            if !ok {
                assert(!entry_requirement_ok(&file.audits.entries@[a as int].1@[i as int]));
                return false;
            }
            i += 1;
        }
        a += 1;
    }
    true
}

/// Whether every requirement that the files hold is one that `semver`
/// accepts.
pub fn requirements_checked(audits: &AuditsFile, imports: &ImportsFile) -> (r: bool)
    ensures
        r == requirements_ok(audits, imports),
{
    if !file_requirements_checked(audits) {
        return false;
    }
    let n = imports.audits.entries.len();
    let mut s: usize = 0;
    while s < n
        invariant
            n == imports.audits.entries@.len(),
            s <= n,
            forall|x: int|
                0 <= x < s ==> file_requirements_ok(&(#[trigger] imports.audits.entries@[x]).1),
        decreases n - s,
    {
        if !file_requirements_checked(&imports.audits.entries[s].1) {
            return false;
        }
        s += 1;
    }
    true
}

/// The map of the entry, if it has one, is valid.
pub open spec fn entry_valid(e: &AuditEntry) -> bool {
    declared_map(e) matches Some(map) ==> map.wf()
}

/// The maps of the audits file are valid: no criterion is defined twice, no
/// package stands twice, and no audit declares criteria twice for one
/// dependency.
pub open spec fn file_valid(file: &AuditsFile) -> bool {
    &&& file.criteria.wf()
    &&& file.audits.wf()
    &&& forall|n: int, i: int|
        0 <= n < file.audits.entries@.len() && 0 <= i < file.audits.entries@[n].1@.len()
            ==> entry_valid(#[trigger] &file.audits.entries@[n].1@[i])
}

/// The maps of the configuration are valid.
pub open spec fn config_valid(config: &ConfigFile) -> bool {
    &&& config.imports.wf()
    &&& config.unaudited.wf()
    &&& config.policy.wf()
    &&& forall|p: int|
        0 <= p < config.policy.entries@.len() ==> (
        #[trigger] config.policy.entries@[p]).1.dependency_criteria.wf()
}

/// The maps of the imports file are valid.
pub open spec fn imports_valid(imports: &ImportsFile) -> bool {
    &&& imports.audits.wf()
    &&& forall|s: int|
        0 <= s < imports.audits.entries@.len() ==> file_valid(
            &(#[trigger] imports.audits.entries@[s]).1,
        )
}

/// Every map of the files is valid: in none does a name stand twice.
pub open spec fn files_valid(config: &ConfigFile, audits: &AuditsFile, imports: &ImportsFile) -> bool {
    &&& config_valid(config)
    &&& file_valid(audits)
    &&& imports_valid(imports)
}

fn file_validated(file: &AuditsFile) -> (r: bool)
    ensures
        r == file_valid(file),
{
    if !file.criteria.is_valid() || !file.audits.is_valid() {
        return false;
    }
    let n = file.audits.entries.len();
    let mut a: usize = 0;
    while a < n
        invariant
            n == file.audits.entries@.len(),
            a <= n,
            forall|x: int, i: int|
                0 <= x < a && 0 <= i < file.audits.entries@[x].1@.len() ==> entry_valid(
                    #[trigger] &file.audits.entries@[x].1@[i],
                ),
        decreases n - a,
    {
        let list = &file.audits.entries[a].1;
        let m = list.len();
        let mut i: usize = 0;
        while i < m
            invariant
                a < n,
                n == file.audits.entries@.len(),
                list == &file.audits.entries@[a as int].1,
                m == list@.len(),
                i <= m,
                forall|x: int| 0 <= x < i ==> entry_valid(#[trigger] &list@[x]),
            decreases m - i,
        {
            let ok = match &list[i].kind {
                AuditKind::Full { version, dependency_criteria } => dependency_criteria.is_valid(),
                AuditKind::Delta { delta, dependency_criteria } => dependency_criteria.is_valid(),
                AuditKind::Violation { violation } => true,
            };
            if !ok {
                assert(!entry_valid(&file.audits.entries@[a as int].1@[i as int]));
                return false;
            }
            i += 1;
        }
        a += 1;
    }
    true
}

/// Whether every map of the files is valid.
pub fn files_validated(config: &ConfigFile, audits: &AuditsFile, imports: &ImportsFile) -> (r: bool)
    ensures
        r == files_valid(config, audits, imports),
{
    if !config.imports.is_valid() || !config.unaudited.is_valid() || !config.policy.is_valid() {
        return false;
    }
    let n = config.policy.entries.len();
    let mut p: usize = 0;
    while p < n
        invariant
            n == config.policy.entries@.len(),
            p <= n,
            forall|x: int|
                0 <= x < p ==> (#[trigger] config.policy.entries@[x]).1.dependency_criteria.wf(),
        decreases n - p,
    {
        if !config.policy.entries[p].1.dependency_criteria.is_valid() {
            return false;
        }
        p += 1;
    }
    if !file_validated(audits) {
        return false;
    }
    if !imports.audits.is_valid() {
        return false;
    }
    let n = imports.audits.entries.len();
    let mut s: usize = 0;
    while s < n
        invariant
            n == imports.audits.entries@.len(),
            s <= n,
            forall|x: int|
                0 <= x < s ==> file_valid(&(#[trigger] imports.audits.entries@[x]).1),
        decreases n - s,
    {
        if !file_validated(&imports.audits.entries[s].1) {
            return false;
        }
        s += 1;
    }
    true
}

} // verus!
