//! Semantic versions and version requirements as plain values. What only the
//! `semver` crate can decide (its grammar, its ordering, whether a requirement
//! matches) is asked of it through the trusted wrappers at the end of this file.

use vstd::prelude::*;

verus! {

/// The mathematical value of a [`Version`].
pub struct VersionView {
    pub major: u64,
    pub minor: u64,
    pub patch: u64,
    pub pre: Seq<char>,
    pub build: Seq<char>,
}

impl VersionView {
    /// Both tags follow the `semver` grammar.
    pub open spec fn well_formed(self) -> bool {
        semver_prerelease_ok(self.pre) && semver_build_ok(self.build)
    }
}

/// A semantic version: three numbers, a pre-release tag and build metadata
/// (both empty for an ordinary release).
#[derive(Clone, Debug, PartialEq, Eq)]
pub struct Version {
    pub major: u64,
    pub minor: u64,
    pub patch: u64,
    pub pre: String,
    pub build: String,
}

impl View for Version {
    type V = VersionView;

    open spec fn view(&self) -> VersionView {
        VersionView {
            major: self.major,
            minor: self.minor,
            patch: self.patch,
            pre: self.pre@,
            build: self.build@,
        }
    }
}

/// Why a text was not accepted as a version or as a requirement.
#[derive(Clone, Copy, Debug, PartialEq, Eq, Structural)]
pub enum VersionError {
    /// The text is not a semantic version.
    MalformedVersion,
    /// The text is not a version requirement.
    MalformedRequirement,
}

impl Version {
    /// The ordinary release `major.minor.patch`. It is well formed: `semver`
    /// accepts the empty tags.
    pub fn new(major: u64, minor: u64, patch: u64) -> (v: Version)
        ensures
            v@ == (VersionView {
                major,
                minor,
                patch,
                pre: Seq::<char>::empty(),
                build: Seq::<char>::empty(),
            }),
            v@.well_formed(),
    {
        let v = Version { major, minor, patch, pre: String::new(), build: String::new() };
        let pre = prerelease_accepted(v.pre.as_str());
        let build = build_accepted(v.build.as_str());
        assert(pre && build);
        v
    }

    /// Reads a version from its text, as `semver` does.
    pub fn parse(text: &str) -> (r: Result<Version, VersionError>)
        ensures
            match r {
                Ok(v) => semver_parse(text@) == Some(v@) && v@.well_formed(),
                Err(e) => semver_parse(text@).is_none() && e == VersionError::MalformedVersion,
            },
    {
        match parse_version(text) {
            Some(v) => Ok(v),
            None => Err(VersionError::MalformedVersion),
        }
    }

    /// Whether two versions are the same version, build metadata included.
    pub fn same(&self, other: &Version) -> (r: bool)
        ensures
            r == (self@ == other@),
    {
        self.major == other.major && self.minor == other.minor && self.patch == other.patch
            && self.pre == other.pre && self.build == other.build
    }

    /// A copy with the same value.
    pub fn duplicate(&self) -> (v: Version)
        ensures
            v@ == self@,
    {
        Version {
            major: self.major,
            minor: self.minor,
            patch: self.patch,
            pre: self.pre.clone(),
            build: self.build.clone(),
        }
    }

    /// Whether both tags follow the `semver` grammar.
    pub fn is_well_formed(&self) -> (r: bool)
        ensures
            r == self@.well_formed(),
    {
        prerelease_accepted(self.pre.as_str()) && build_accepted(self.build.as_str())
    }

    /// The text of the version as `semver` writes it, or `None` where a tag
    /// is malformed.
    pub fn text(&self) -> (r: Option<String>)
        ensures
            match r {
                Some(t) => self@.well_formed() && t@ == semver_text(self@),
                None => !self@.well_formed(),
            },
    {
        if self.is_well_formed() {
            Some(version_text(self))
        } else {
            None
        }
    }

    /// Whether `self` comes before `other` in the total order of `semver`.
    pub fn precedes(&self, other: &Version) -> (r: bool)
        requires
            self@.well_formed(),
            other@.well_formed(),
        ensures
            r == semver_less(self@, other@),
    {
        version_less(self, other)
    }

    /// [`Version::precedes`] for versions of unknown form: `None` where a tag
    /// of either is malformed.
    pub fn checked_precedes(&self, other: &Version) -> (r: Option<bool>)
        ensures
            r == (if self@.well_formed() && other@.well_formed() {
                Some(semver_less(self@, other@))
            } else {
                None
            }),
    {
        if self.is_well_formed() && other.is_well_formed() {
            Some(self.precedes(other))
        } else {
            None
        }
    }
}

/// A version requirement such as `>=1.2.3, <1.8`, kept as its text.
#[derive(Clone, Debug, PartialEq, Eq)]
pub struct VersionReq {
    pub text: String,
}

impl VersionReq {
    /// Accepts `text` if `semver` reads it as a requirement.
    pub fn parse(text: &str) -> (r: Result<VersionReq, VersionError>)
        ensures
            match r {
                Ok(req) => req.text@ == text@ && semver_requirement_ok(text@),
                Err(e) => !semver_requirement_ok(text@) && e == VersionError::MalformedRequirement,
            },
    {
        if requirement_accepted(text) {
            Ok(VersionReq { text: text.to_owned() })
        } else {
            Err(VersionError::MalformedRequirement)
        }
    }

    /// Whether `semver` reads the text as a requirement.
    pub fn is_well_formed(&self) -> (r: bool)
        ensures
            r == semver_requirement_ok(self.text@),
    {
        requirement_accepted(self.text.as_str())
    }

    /// Whether `version` satisfies the requirement.
    pub fn matches(&self, version: &Version) -> (r: bool)
        requires
            semver_requirement_ok(self.text@),
            version@.well_formed(),
        ensures
            r == semver_matches(self.text@, version@),
    {
        requirement_matches(self.text.as_str(), version)
    }

    /// [`VersionReq::matches`] for values of unknown form: `None` where the
    /// requirement or a tag of the version is malformed.
    pub fn checked_matches(&self, version: &Version) -> (r: Option<bool>)
        ensures
            r == (if semver_requirement_ok(self.text@) && version@.well_formed() {
                Some(semver_matches(self.text@, version@))
            } else {
                None
            }),
    {
        if self.is_well_formed() && version.is_well_formed() {
            Some(self.matches(version))
        } else {
            None
        }
    }

    /// A copy with the same text.
    pub fn duplicate(&self) -> (r: VersionReq)
        ensures
            r.text@ == self.text@,
    {
        VersionReq { text: self.text.clone() }
    }
}

/// How far apart two versions are: the differences of their three numbers,
/// compared from the major number down. Tags play no part.
#[derive(Clone, Copy, Debug, PartialEq, Eq, Structural)]
pub struct Distance {
    pub major: u64,
    pub minor: u64,
    pub patch: u64,
}

pub open spec fn spec_abs_diff(a: u64, b: u64) -> u64 {
    if a <= b {
        (b - a) as u64
    } else {
        (a - b) as u64
    }
}

fn abs_diff(a: u64, b: u64) -> (d: u64)
    ensures
        d == spec_abs_diff(a, b),
{
    if a <= b {
        b - a
    } else {
        a - b
    }
}

impl Distance {
    /// The distance between two versions.
    pub open spec fn spec_between(a: VersionView, b: VersionView) -> Distance {
        Distance {
            major: spec_abs_diff(a.major, b.major),
            minor: spec_abs_diff(a.minor, b.minor),
            patch: spec_abs_diff(a.patch, b.patch),
        }
    }

    /// The distance of a version from `0.0.0`: what auditing it in full costs.
    pub open spec fn spec_from_origin(v: VersionView) -> Distance {
        Distance { major: v.major, minor: v.minor, patch: v.patch }
    }

    /// Strictly smaller, comparing major, then minor, then patch.
    pub open spec fn spec_lt(self, other: Distance) -> bool {
        self.major < other.major || (self.major == other.major && (self.minor < other.minor || (
        self.minor == other.minor && self.patch < other.patch)))
    }

    pub open spec fn spec_le(self, other: Distance) -> bool {
        self == other || self.spec_lt(other)
    }

    pub fn between(a: &Version, b: &Version) -> (d: Distance)
        ensures
            d == Distance::spec_between(a@, b@),
    {
        Distance {
            major: abs_diff(a.major, b.major),
            minor: abs_diff(a.minor, b.minor),
            patch: abs_diff(a.patch, b.patch),
        }
    }

    pub fn from_origin(v: &Version) -> (d: Distance)
        ensures
            d == Distance::spec_from_origin(v@),
    {
        Distance { major: v.major, minor: v.minor, patch: v.patch }
    }

    pub fn lt(&self, other: &Distance) -> (r: bool)
        ensures
            r == self.spec_lt(*other),
    {
        self.major < other.major || (self.major == other.major && (self.minor < other.minor || (
        self.minor == other.minor && self.patch < other.patch)))
    }
}

/// Whether `semver` accepts the text as a pre-release tag.
pub uninterp spec fn semver_prerelease_ok(text: Seq<char>) -> bool;

/// Whether `semver` accepts the text as build metadata.
pub uninterp spec fn semver_build_ok(text: Seq<char>) -> bool;

/// Whether `semver` accepts the text as a version requirement.
pub uninterp spec fn semver_requirement_ok(text: Seq<char>) -> bool;

/// What `semver` reads the text as, if it is a version.
pub uninterp spec fn semver_parse(text: Seq<char>) -> Option<VersionView>;

/// Whether the version satisfies the requirement, by `semver`'s rules.
pub uninterp spec fn semver_matches(requirement: Seq<char>, version: VersionView) -> bool;

/// Whether the first version is less than the second in `semver`'s total order.
pub uninterp spec fn semver_less(a: VersionView, b: VersionView) -> bool;

/// The text that `semver` writes for the version.
pub uninterp spec fn semver_text(version: VersionView) -> Seq<char>;

/// Calls the `to_string` of `semver::Version` on the version that the
/// argument spells. Trusted: the text depends on the version alone. The tags
/// must be ones that `semver` accepts.
#[verifier::external_body]
fn version_text(version: &Version) -> (r: String)
    requires
        version@.well_formed(),
    ensures
        r@ == semver_text(version@),
{
    let mut v = semver::Version::new(version.major, version.minor, version.patch);
    v.pre = semver::Prerelease::new(version.pre.as_str()).unwrap();
    v.build = semver::BuildMetadata::new(version.build.as_str()).unwrap();
    v.to_string()
}

/// Calls `semver::Prerelease::new` and reports whether it accepted the text.
/// Trusted: the answer depends on the text alone, and the empty text, the
/// tag of an ordinary release, is accepted.
#[verifier::external_body]
fn prerelease_accepted(text: &str) -> (r: bool)
    ensures
        r == semver_prerelease_ok(text@),
        text@.len() == 0 ==> r,
{
    semver::Prerelease::new(text).is_ok()
}

/// Calls `semver::BuildMetadata::new` and reports whether it accepted the
/// text. Trusted: the answer depends on the text alone, and the empty text,
/// the metadata of a version that has none, is accepted.
#[verifier::external_body]
fn build_accepted(text: &str) -> (r: bool)
    ensures
        r == semver_build_ok(text@),
        text@.len() == 0 ==> r,
{
    semver::BuildMetadata::new(text).is_ok()
}

/// Calls `semver::VersionReq::parse` and reports whether it accepted the text.
/// Trusted: the answer depends on the text alone.
#[verifier::external_body]
fn requirement_accepted(text: &str) -> (r: bool)
    ensures
        r == semver_requirement_ok(text@),
{
    semver::VersionReq::parse(text).is_ok()
}

/// Calls `semver::Version::parse` and copies the fields of what it read.
/// Trusted: the result depends on the text alone, and the tags of a version
/// that was read are ones that `semver` accepts.
#[verifier::external_body]
fn parse_version(text: &str) -> (r: Option<Version>)
    ensures
        r.is_some() == semver_parse(text@).is_some(),
        r matches Some(v) ==> semver_parse(text@) == Some(v@) && v@.well_formed(),
{
    match semver::Version::parse(text) {
        Ok(v) => Some(Version {
            major: v.major,
            minor: v.minor,
            patch: v.patch,
            pre: v.pre.as_str().to_string(),
            build: v.build.as_str().to_string(),
        }),
        Err(_) => None,
    }
}

/// Calls `semver::VersionReq::matches` on the requirement and the version that
/// the arguments spell. Trusted: the answer depends on the two values alone.
/// The texts must be ones that `semver` accepts.
#[verifier::external_body]
fn requirement_matches(requirement: &str, version: &Version) -> (r: bool)
    requires
        semver_requirement_ok(requirement@),
        version@.well_formed(),
    ensures
        r == semver_matches(requirement@, version@),
{
    let req = semver::VersionReq::parse(requirement).unwrap();
    let mut v = semver::Version::new(version.major, version.minor, version.patch);
    v.pre = semver::Prerelease::new(version.pre.as_str()).unwrap();
    v.build = semver::BuildMetadata::new(version.build.as_str()).unwrap();
    req.matches(&v)
}

/// Compares two versions with the `<` of `semver::Version`. Trusted: the
/// answer depends on the two values alone. Their tags must be ones that
/// `semver` accepts.
#[verifier::external_body]
fn version_less(a: &Version, b: &Version) -> (r: bool)
    requires
        a@.well_formed(),
        b@.well_formed(),
    ensures
        r == semver_less(a@, b@),
{
    let mut x = semver::Version::new(a.major, a.minor, a.patch);
    x.pre = semver::Prerelease::new(a.pre.as_str()).unwrap();
    x.build = semver::BuildMetadata::new(a.build.as_str()).unwrap();
    let mut y = semver::Version::new(b.major, b.minor, b.patch);
    y.pre = semver::Prerelease::new(b.pre.as_str()).unwrap();
    y.build = semver::BuildMetadata::new(b.build.as_str()).unwrap();
    x < y
}

} // verus!
