//! The contents of the audits, configuration and imports files as plain values,
//! and the functions that build their entries.

use crate::text::{distinct, lemma_find, lemma_find_push, spec_find};
use crate::version::{semver_parse, Version, VersionError, VersionReq, VersionView};
use vstd::prelude::*;

verus! {

/// The names of a sequence of pairs, in order.
pub open spec fn pair_keys<V>(pairs: Seq<(String, V)>) -> Seq<Seq<char>> {
    Seq::new(pairs.len(), |i: int| pairs[i].0@)
}

/// The value of the first pair with the name `key`.
pub open spec fn pair_get<V>(pairs: Seq<(String, V)>, key: Seq<char>) -> Option<V> {
    match spec_find(pair_keys(pairs), key) {
        Some(i) => Some(pairs[i].1),
        None => None,
    }
}

/// The entries of the map that the first `upto` pairs make, put in one after
/// the other: a pair with a new name goes to the end, a pair with a name
/// that stands already takes the place of the pair with that name.
pub open spec fn collected<V>(pairs: Seq<(String, V)>, upto: nat) -> Seq<(String, V)>
    decreases upto,
{
    if upto == 0 {
        Seq::empty()
    } else {
        let before = collected(pairs, (upto - 1) as nat);
        let pair = pairs[upto - 1];
        match spec_find(pair_keys(before), pair.0@) {
            Some(i) => before.update(i, pair),
            None => before.push(pair),
        }
    }
}

/// The value of the last of the first `upto` pairs that has the name `key`.
pub open spec fn last_given<V>(pairs: Seq<(String, V)>, upto: nat, key: Seq<char>) -> Option<V>
    decreases upto,
{
    if upto == 0 {
        None
    } else if pairs[upto - 1].0@ == key {
        Some(pairs[upto - 1].1)
    } else {
        last_given(pairs, (upto - 1) as nat, key)
    }
}

/// Pairs that are put in one after the other make a map in which no name
/// stands twice and every name reads the value of the last pair given for it.
pub proof fn lemma_collected<V>(pairs: Seq<(String, V)>, upto: nat)
    requires
        upto <= pairs.len(),
    ensures
        distinct(pair_keys(collected(pairs, upto))),
        forall|key: Seq<char>| #[trigger]
            pair_get(collected(pairs, upto), key) == last_given(pairs, upto, key),
    decreases upto,
{
    if upto > 0 {
        lemma_collected(pairs, (upto - 1) as nat);
        let before = collected(pairs, (upto - 1) as nat);
        let after = collected(pairs, upto);
        let pair = pairs[upto - 1];
        let keys = pair_keys(before);
        lemma_find(keys, pair.0@);
        match spec_find(keys, pair.0@) {
            Some(at) => {
                assert(pair_keys(after) =~= keys);
                assert forall|key: Seq<char>| #[trigger]
                    pair_get(after, key) == last_given(pairs, upto, key) by {
                    lemma_find(keys, key);
                    assert(pair_get(before, key) == last_given(pairs, (upto - 1) as nat, key));
                }
            },
            None => {
                assert(pair_keys(after) =~= keys.push(pair.0@));
                assert forall|key: Seq<char>| #[trigger]
                    pair_get(after, key) == last_given(pairs, upto, key) by {
                    lemma_find(keys, key);
                    lemma_find_push(keys, pair.0@, key);
                    assert(pair_get(before, key) == last_given(pairs, (upto - 1) as nat, key));
                }
            },
        }
    }
}

/// A map from names to values that keeps the order in which names were first
/// inserted. In a valid map no name stands twice ([`StableMap::wf`]); the
/// functions of this type make valid maps and keep them valid.
#[derive(Clone, Debug)]
pub struct StableMap<V> {
    pub entries: Vec<(String, V)>,
}

impl<V> StableMap<V> {
    /// The names, in order.
    pub open spec fn keys(&self) -> Seq<Seq<char>> {
        Seq::new(self.entries@.len(), |i: int| self.entries@[i].0@)
    }

    /// The map is valid: no name stands twice.
    pub open spec fn wf(&self) -> bool {
        distinct(self.keys())
    }

    /// Where `key` stands.
    pub open spec fn spec_position(&self, key: Seq<char>) -> Option<int> {
        spec_find(self.keys(), key)
    }

    /// The value under `key`.
    pub open spec fn spec_get(&self, key: Seq<char>) -> Option<V> {
        match self.spec_position(key) {
            Some(i) => Some(self.entries@[i].1),
            None => None,
        }
    }

    /// The map is the one that the pairs make, given one after the other: it
    /// is valid, holds the names in the order in which they first came, and
    /// under each name the value of the last pair given for it.
    pub open spec fn gathers(&self, pairs: Seq<(String, V)>) -> bool {
        &&& self.wf()
        &&& self.entries@ == collected(pairs, pairs.len())
        &&& forall|key: Seq<char>| #[trigger]
            self.spec_get(key) == last_given(pairs, pairs.len(), key)
    }

    pub fn new() -> (m: Self)
        ensures
            m.entries@.len() == 0,
            m.wf(),
    {
        StableMap { entries: Vec::new() }
    }

    /// The map that the pairs make, given one after the other: of several
    /// pairs with one name the last is kept, at the place of the first.
    pub fn from_entries(entries: Vec<(String, V)>) -> (m: Self)
        ensures
            m.gathers(entries@),
    {
        let ghost given = entries@;
        let n = entries.len();
        let mut rest = entries;
        let mut back: Vec<(String, V)> = Vec::new();
        while rest.len() > 0
            invariant
                rest@.len() + back@.len() == n,
                n == given.len(),
                forall|i: int| 0 <= i < rest@.len() ==> rest@[i] == given[i],
                forall|i: int| 0 <= i < back@.len() ==> back@[i] == given[n - 1 - i],
            decreases rest@.len(),
        {
            let pair = rest.pop().unwrap();
            back.push(pair);
        }
        let mut m: StableMap<V> = StableMap::new();
        let mut done: usize = 0;
        assert(m.entries@ =~= collected(given, 0));
        while back.len() > 0
            invariant
                back@.len() + done == n,
                n == given.len(),
                forall|i: int| 0 <= i < back@.len() ==> back@[i] == given[n - 1 - i],
                m.entries@ == collected(given, done as nat),
            decreases back@.len(),
        {
            let pair = back.pop().unwrap();
            assert(pair == given[done as int]);
            assert(m.keys() =~= pair_keys(m.entries@));
            m.insert(pair.0, pair.1);
            done += 1;
        }
        proof {
            lemma_collected(given, n as nat);
            assert(m.keys() =~= pair_keys(m.entries@));
            assert forall|key: Seq<char>| #[trigger]
                m.spec_get(key) == last_given(given, given.len(), key) by {
                assert(m.spec_get(key) == pair_get(m.entries@, key));
            }
        }
        m
    }

    /// Whether no name stands twice.
    pub fn is_valid(&self) -> (r: bool)
        ensures
            r == self.wf(),
    {
        let n = self.entries.len();
        let ghost keys = self.keys();
        let mut j: usize = 0;
        while j < n
            invariant
                n == self.entries@.len(),
                keys == self.keys(),
                j <= n,
                forall|a: int, b: int| 0 <= a < b < j ==> #[trigger] keys[a] != #[trigger] keys[b],
            decreases n - j,
        {
            let first = self.position(&self.entries[j].0);
            proof {
                lemma_find(keys, keys[j as int]);
            }
            match first {
                Some(i) => {
                    if i != j {
                        assert(keys[i as int] == keys[j as int]);
                        return false;
                    }
                },
                None => {
                    return false;
                },
            }
            j += 1;
        }
        true
    }

    pub fn len(&self) -> (n: usize)
        ensures
            n == self.entries@.len(),
    {
        self.entries.len()
    }

    /// Where `key` stands first.
    pub fn position(&self, key: &String) -> (r: Option<usize>)
        ensures
            match r {
                Some(i) => self.spec_position(key@) == Some(i as int) && i < self.entries@.len(),
                None => self.spec_position(key@).is_none(),
            },
    {
        let n = self.entries.len();
        let mut i: usize = 0;
        while i < n
            invariant
                n == self.entries@.len(),
                i <= n,
                forall|j: int| 0 <= j < i ==> self.entries@[j].0@ != key@,
            decreases n - i,
        {
            if self.entries[i].0 == *key {
                proof {
                    lemma_find(self.keys(), key@);
                    assert(self.keys()[i as int] == key@);
                    assert forall|j: int| 0 <= j < i implies self.keys()[j] != key@ by {}
                }
                return Some(i);
            }
            i += 1;
        }
        proof {
            lemma_find(self.keys(), key@);
            assert forall|j: int| 0 <= j < n implies self.keys()[j] != key@ by {}
        }
        None
    }

    /// The value under `key`.
    pub fn get(&self, key: &String) -> (r: Option<&V>)
        ensures
            match r {
                Some(v) => self.spec_get(key@) == Some(*v),
                None => self.spec_get(key@).is_none(),
            },
    {
        match self.position(key) {
            Some(i) => Some(&self.entries[i].1),
            None => None,
        }
    }

    pub fn contains_key(&self, key: &String) -> (r: bool)
        ensures
            r == self.spec_position(key@).is_some(),
    {
        self.position(key).is_some()
    }

    /// Puts `value` under `key`: in place of the value that stands there, or
    /// at the end where the key is new. A valid map stays valid, `key` reads
    /// `value`, and every other name reads what it read.
    pub fn insert(&mut self, key: String, value: V)
        ensures
            match old(self).spec_position(key@) {
                Some(i) => final(self).entries@ == old(self).entries@.update(i, (key, value)),
                None => final(self).entries@ == old(self).entries@.push((key, value)),
            },
            old(self).wf() ==> final(self).wf(),
            final(self).spec_get(key@) == Some(value),
            forall|other: Seq<char>|
                other != key@ ==> #[trigger] final(self).spec_get(other) == old(self).spec_get(
                    other,
                ),
    {
        let ghost before = self.keys();
        let ghost old_entries = self.entries@;
        proof {
            lemma_find(before, key@);
        }
        match self.position(&key) {
            Some(i) => {
                self.entries.set(i, (key, value));
                proof {
                    assert(self.keys() =~= before);
                    assert forall|other: Seq<char>| other != key@ implies #[trigger] self.spec_get(
                        other,
                    ) == pair_get(old_entries, other) by {
                        lemma_find(before, other);
                        assert(pair_keys(old_entries) =~= before);
                    }
                    assert(pair_keys(old_entries) =~= before);
                }
            },
            None => {
                self.entries.push((key, value));
                proof {
                    assert(self.keys() =~= before.push(key@));
                    lemma_find_push(before, key@, key@);
                    assert forall|other: Seq<char>| other != key@ implies #[trigger] self.spec_get(
                        other,
                    ) == pair_get(old_entries, other) by {
                        lemma_find(before, other);
                        lemma_find_push(before, key@, other);
                        assert(pair_keys(old_entries) =~= before);
                    }
                    assert(pair_keys(old_entries) =~= before);
                }
            },
        }
    }

    /// Removes every entry.
    pub fn clear(&mut self)
        ensures
            final(self).entries@.len() == 0,
            final(self).wf(),
    {
        self.entries.clear();
    }
}

/// One criterion of the criteria table: what it implies, and what it means.
#[derive(Clone, Debug)]
pub struct CriteriaEntry {
    pub implies: Vec<String>,
    pub description: Option<String>,
    pub description_url: Option<String>,
}

/// For an audit or a policy: the criteria that each named dependency must meet.
pub type DependencyCriteria = StableMap<Vec<String>>;

/// The two versions of a delta audit.
#[derive(Clone, Debug)]
pub struct Delta {
    pub from: Version,
    pub to: Version,
}

/// What stands between the two versions in the text of a delta.
pub open spec fn arrow() -> Seq<char> {
    " -> "@
}

/// `text` is `from`, the separator, and `to`.
pub open spec fn splits_at(
    text: Seq<char>,
    separator: Seq<char>,
    from: Seq<char>,
    to: Seq<char>,
) -> bool {
    text == from + separator + to
}

/// `text` splits into `from` and `to` at its first separator.
pub open spec fn splits_first_at(
    text: Seq<char>,
    separator: Seq<char>,
    from: Seq<char>,
    to: Seq<char>,
) -> bool {
    &&& splits_at(text, separator, from, to)
    &&& forall|x: Seq<char>, y: Seq<char>| #[trigger]
        splits_at(text, separator, x, y) ==> from.len() <= x.len()
}

/// `text` is `from`, the arrow, and `to`.
pub open spec fn splits_at_arrow(text: Seq<char>, from: Seq<char>, to: Seq<char>) -> bool {
    splits_at(text, arrow(), from, to)
}

/// `text` splits into `from` and `to` at its first arrow.
pub open spec fn splits_first(text: Seq<char>, from: Seq<char>, to: Seq<char>) -> bool {
    splits_first_at(text, arrow(), from, to)
}

/// The two versions that the text of a delta spells: what stands before its
/// first arrow and what stands after it, each read as a version. `None`
/// where the text has no arrow or a part is no version.
pub open spec fn spec_delta(text: Seq<char>) -> Option<(VersionView, VersionView)> {
    if exists|x: Seq<char>, y: Seq<char>| splits_first(text, x, y) {
        let (from, to) = choose|x: Seq<char>, y: Seq<char>| splits_first(text, x, y);
        match (semver_parse(from), semver_parse(to)) {
            (Some(a), Some(b)) => Some((a, b)),
            _ => None,
        }
    } else {
        None
    }
}

/// A text splits at its first arrow in one way only.
pub proof fn lemma_first_split_unique(
    text: Seq<char>,
    a: Seq<char>,
    b: Seq<char>,
    x: Seq<char>,
    y: Seq<char>,
)
    requires
        splits_first(text, a, b),
        splits_first(text, x, y),
    ensures
        a == x,
        b == y,
{
    assert(a.len() == x.len());
    assert(a =~= text.subrange(0, a.len() as int));
    assert(x =~= text.subrange(0, a.len() as int));
    let skip = a.len() + arrow().len();
    assert(b =~= text.subrange(skip as int, text.len() as int));
    assert(y =~= text.subrange(skip as int, text.len() as int));
}

/// Calls `str::split_once`. Trusted: it splits the text at the first place
/// where the separator stands, and gives nothing where it stands nowhere.
#[verifier::external_body]
fn split_first<'a>(text: &'a str, separator: &str) -> (r: Option<(&'a str, &'a str)>)
    ensures
        match r {
            Some((a, b)) => splits_first_at(text@, separator@, a@, b@),
            None => forall|x: Seq<char>, y: Seq<char>| !splits_at(text@, separator@, x, y),
        },
{
    text.split_once(separator)
}

impl Delta {
    /// Reads a delta from its text: a version, an arrow with a space on each
    /// side, and a version.
    pub fn parse(text: &str) -> (r: Result<Delta, VersionError>)
        ensures
            match r {
                Ok(d) => spec_delta(text@) == Some((d.from@, d.to@)) && d.from@.well_formed()
                    && d.to@.well_formed(),
                Err(e) => spec_delta(text@).is_none() && e == VersionError::MalformedVersion,
            },
    {
        match split_first(text, " -> ") {
            None => {
                assert forall|x: Seq<char>, y: Seq<char>| !splits_first(text@, x, y) by {
                    assert(!splits_at(text@, arrow(), x, y));
                }
                Err(VersionError::MalformedVersion)
            },
            Some((a, b)) => {
                proof {
                    let (x, y) = choose|x: Seq<char>, y: Seq<char>| splits_first(text@, x, y);
                    lemma_first_split_unique(text@, a@, b@, x, y);
                }
                let from = Version::parse(a);
                let to = Version::parse(b);
                match (from, to) {
                    (Ok(from), Ok(to)) => Ok(Delta { from, to }),
                    _ => Err(VersionError::MalformedVersion),
                }
            },
        }
    }
}

/// What an audit entry speaks of.
#[derive(Clone, Debug)]
pub enum AuditKind {
    /// The package at this version meets the criteria.
    Full { version: Version, dependency_criteria: DependencyCriteria },
    /// The change from one version to another keeps the criteria.
    Delta { delta: Delta, dependency_criteria: DependencyCriteria },
    /// Every version that matches the requirement fails the criteria.
    Violation { violation: VersionReq },
}

/// A recorded judgement about a package.
#[derive(Clone, Debug)]
pub struct AuditEntry {
    pub who: Option<String>,
    pub notes: Option<String>,
    pub criteria: String,
    pub kind: AuditKind,
}

/// An exemption: the package at this version is taken to meet the criteria
/// without an audit.
#[derive(Clone, Debug)]
pub struct UnauditedDependency {
    pub version: Version,
    pub criteria: String,
    pub notes: Option<String>,
    pub suggest: bool,
}

/// What a first-party package demands. An empty `criteria` list stands for the
/// default.
#[derive(Clone, Debug)]
pub struct PolicyEntry {
    pub criteria: Vec<String>,
    pub build_and_dev_criteria: Vec<String>,
    pub dependency_criteria: DependencyCriteria,
    pub targets: Option<Vec<String>>,
    pub build_and_dev_targets: Option<Vec<String>>,
}

/// The audits file: the criteria table and the audits of each package.
#[derive(Clone, Debug)]
pub struct AuditsFile {
    pub criteria: StableMap<CriteriaEntry>,
    pub audits: StableMap<Vec<AuditEntry>>,
}

/// A source of imported audits.
#[derive(Clone, Debug)]
pub struct ImportEntry {
    pub url: String,
}

/// The configuration file.
#[derive(Clone, Debug)]
pub struct ConfigFile {
    pub default_criteria: String,
    pub imports: StableMap<ImportEntry>,
    pub unaudited: StableMap<Vec<UnauditedDependency>>,
    pub policy: StableMap<PolicyEntry>,
}

/// The imports file: the audits of each source, already in local criteria.
#[derive(Clone, Debug)]
pub struct ImportsFile {
    pub audits: StableMap<AuditsFile>,
}

/// A policy that declares nothing.
pub fn default_policy() -> (p: PolicyEntry)
    ensures
        p.criteria@.len() == 0,
        p.build_and_dev_criteria@.len() == 0,
        p.dependency_criteria.entries@.len() == 0,
        p.dependency_criteria.wf(),
        p.targets.is_none(),
        p.build_and_dev_targets.is_none(),
{
    PolicyEntry {
        criteria: Vec::new(),
        build_and_dev_criteria: Vec::new(),
        dependency_criteria: StableMap::new(),
        targets: None,
        build_and_dev_targets: None,
    }
}

/// A policy that declares the criteria of the package itself.
pub fn self_policy(criteria: Vec<String>) -> (p: PolicyEntry)
    ensures
        p.criteria == criteria,
        p.build_and_dev_criteria@.len() == 0,
        p.dependency_criteria.entries@.len() == 0,
        p.dependency_criteria.wf(),
        p.targets.is_none(),
        p.build_and_dev_targets.is_none(),
{
    PolicyEntry {
        criteria,
        build_and_dev_criteria: Vec::new(),
        dependency_criteria: StableMap::new(),
        targets: None,
        build_and_dev_targets: None,
    }
}

/// A policy that declares criteria for named dependencies. The pairs are put
/// into the map one after the other: no name stands twice in it, and a name
/// that is given twice reads the list of the last pair given for it.
pub fn dep_policy(dependency_criteria: Vec<(String, Vec<String>)>) -> (p: PolicyEntry)
    ensures
        p.criteria@.len() == 0,
        p.build_and_dev_criteria@.len() == 0,
        p.dependency_criteria.gathers(dependency_criteria@),
        p.targets.is_none(),
        p.build_and_dev_targets.is_none(),
{
    PolicyEntry {
        criteria: Vec::new(),
        build_and_dev_criteria: Vec::new(),
        dependency_criteria: StableMap::from_entries(dependency_criteria),
        targets: None,
        build_and_dev_targets: None,
    }
}

/// An exemption for `version` at `criteria`, open to suggestions.
pub fn unaudited(version: Version, criteria: &str) -> (u: UnauditedDependency)
    ensures
        u.version == version,
        u.criteria@ == criteria@,
        u.notes.is_none(),
        u.suggest,
{
    UnauditedDependency { version, criteria: criteria.to_owned(), notes: None, suggest: true }
}

/// An exemption as a file records it: open to suggestions unless the file
/// says otherwise.
pub fn recorded_unaudited(
    version: Version,
    criteria: String,
    notes: Option<String>,
    suggest: Option<bool>,
) -> (u: UnauditedDependency)
    ensures
        u.version == version,
        u.criteria == criteria,
        u.notes == notes,
        u.suggest == match suggest {
            Some(open) => open,
            None => true,
        },
{
    let suggest = match suggest {
        Some(open) => open,
        None => true,
    };
    UnauditedDependency { version, criteria, notes, suggest }
}

/// An exemption for `version` at the default criterion of `config`.
pub fn default_unaudited(version: Version, config: &ConfigFile) -> (u: UnauditedDependency)
    ensures
        u.version == version,
        u.criteria@ == config.default_criteria@,
        u.notes.is_none(),
        u.suggest,
{
    UnauditedDependency {
        version,
        criteria: config.default_criteria.clone(),
        notes: None,
        suggest: true,
    }
}

/// The map of a full audit or of a delta audit, if the entry is one.
pub open spec fn declared_map(e: &AuditEntry) -> Option<DependencyCriteria> {
    match e.kind {
        AuditKind::Full { version, dependency_criteria } => Some(dependency_criteria),
        AuditKind::Delta { delta, dependency_criteria } => Some(dependency_criteria),
        AuditKind::Violation { violation } => None,
    }
}

/// A full audit of `version` that leaves the dependencies to the default.
pub fn full_audit(version: Version, criteria: &str) -> (e: AuditEntry)
    ensures
        e.criteria@ == criteria@,
        e.who.is_none(),
        e.notes.is_none(),
        e.kind matches AuditKind::Full { version: v, dependency_criteria: d } && v == version
            && d.entries@.len() == 0 && d.wf(),
{
    AuditEntry {
        who: None,
        notes: None,
        criteria: criteria.to_owned(),
        kind: AuditKind::Full { version, dependency_criteria: StableMap::new() },
    }
}

/// A full audit of `version` with criteria for named dependencies. The pairs
/// are put into the map one after the other: no name stands twice in it, and
/// a name that is given twice reads the list of the last pair given for it.
pub fn full_audit_dep(
    version: Version,
    criteria: &str,
    dependency_criteria: Vec<(String, Vec<String>)>,
) -> (e: AuditEntry)
    ensures
        e.criteria@ == criteria@,
        e.who.is_none(),
        e.notes.is_none(),
        e.kind matches AuditKind::Full { version: v, dependency_criteria: d } && v == version,
        declared_map(&e).unwrap().gathers(dependency_criteria@),
{
    AuditEntry {
        who: None,
        notes: None,
        criteria: criteria.to_owned(),
        kind: AuditKind::Full {
            version,
            dependency_criteria: StableMap::from_entries(dependency_criteria),
        },
    }
}

/// A delta audit that leaves the dependencies to the default.
pub fn delta_audit(from: Version, to: Version, criteria: &str) -> (e: AuditEntry)
    ensures
        e.criteria@ == criteria@,
        e.who.is_none(),
        e.notes.is_none(),
        e.kind matches AuditKind::Delta { delta, dependency_criteria: d } && delta.from == from
            && delta.to == to && d.entries@.len() == 0 && d.wf(),
{
    AuditEntry {
        who: None,
        notes: None,
        criteria: criteria.to_owned(),
        kind: AuditKind::Delta { delta: Delta { from, to }, dependency_criteria: StableMap::new() },
    }
}

/// A delta audit from `from` to `to` with criteria for named dependencies.
/// The pairs are put into the map one after the other: no name stands twice
/// in it, and a name that is given twice reads the list of the last pair
/// given for it.
pub fn delta_audit_dep(
    from: Version,
    to: Version,
    criteria: &str,
    dependency_criteria: Vec<(String, Vec<String>)>,
) -> (e: AuditEntry)
    ensures
        e.criteria@ == criteria@,
        e.who.is_none(),
        e.notes.is_none(),
        e.kind matches AuditKind::Delta { delta, dependency_criteria: d } && delta.from == from
            && delta.to == to,
        declared_map(&e).unwrap().gathers(dependency_criteria@),
{
    AuditEntry {
        who: None,
        notes: None,
        criteria: criteria.to_owned(),
        kind: AuditKind::Delta {
            delta: Delta { from, to },
            dependency_criteria: StableMap::from_entries(dependency_criteria),
        },
    }
}

/// A violation: the versions that match `version` fail `criteria`.
pub fn violation(version: VersionReq, criteria: &str) -> (e: AuditEntry)
    ensures
        e.criteria@ == criteria@,
        e.who.is_none(),
        e.notes.is_none(),
        e.kind matches AuditKind::Violation { violation: r } && r == version,
{
    AuditEntry {
        who: None,
        notes: None,
        criteria: criteria.to_owned(),
        kind: AuditKind::Violation { violation: version },
    }
}

} // verus!
