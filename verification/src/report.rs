//! The structured report of a resolution.

use crate::criteria::CriteriaSet;
use crate::model::Verdict;
use crate::version::{Distance, Version, VersionView};
use vstd::prelude::*;

verus! {

/// What resolution found for one package.
#[derive(Clone, Debug)]
pub struct PackageReport {
    pub name: String,
    pub version: Version,
    pub is_third_party: bool,
    pub verdict: Verdict,
    /// The criteria that the package achieves.
    pub achieved: CriteriaSet,
    /// The criteria that its consumers demand of it.
    pub required: CriteriaSet,
    /// The required criteria that it does not achieve.
    pub missing: CriteriaSet,
    /// The violations that are to blame, by their place among the audits of
    /// the package's name.
    pub masked_by: Vec<usize>,
}

pub struct PackageReportView {
    pub name: Seq<char>,
    pub version: VersionView,
    pub is_third_party: bool,
    pub verdict: Verdict,
    pub achieved: Seq<bool>,
    pub required: Seq<bool>,
    pub missing: Seq<bool>,
    pub masked_by: Seq<int>,
}

impl View for PackageReport {
    type V = PackageReportView;

    open spec fn view(&self) -> PackageReportView {
        PackageReportView {
            name: self.name@,
            version: self.version@,
            is_third_party: self.is_third_party,
            verdict: self.verdict,
            achieved: self.achieved@,
            required: self.required@,
            missing: self.missing@,
            masked_by: Seq::new(self.masked_by@.len(), |i: int| self.masked_by@[i] as int),
        }
    }
}

/// The cheapest audit that would help a package to a criterion it misses: a
/// delta audit from `from`, or a full audit where there is no `from`.
#[derive(Clone, Debug)]
pub struct Suggestion {
    pub name: String,
    pub from: Option<Version>,
    pub to: Version,
    pub criteria: String,
    pub cost: Distance,
}

pub struct SuggestionView {
    pub name: Seq<char>,
    pub from: Option<VersionView>,
    pub to: VersionView,
    pub criteria: Seq<char>,
    pub cost: Distance,
}

impl View for Suggestion {
    type V = SuggestionView;

    open spec fn view(&self) -> SuggestionView {
        SuggestionView {
            name: self.name@,
            from: match self.from {
                Some(v) => Some(v@),
                None => None,
            },
            to: self.to@,
            criteria: self.criteria@,
            cost: self.cost,
        }
    }
}

/// Something in the files that did not stop resolution and that an operator
/// may want to mend.
#[derive(Clone, Debug)]
pub enum Warning {
    /// The exemption at place `entry` under `name` helps no package to a
    /// criterion that is required of it.
    UnusedExemption { name: String, entry: usize },
    /// The audit at place `entry` under the name of the package declares
    /// criteria for `dependency`, which the package does not depend on.
    UnknownDependency { name: String, version: Version, entry: usize, dependency: String },
}

pub enum WarningView {
    UnusedExemption { name: Seq<char>, entry: int },
    UnknownDependency { name: Seq<char>, version: VersionView, entry: int, dependency: Seq<char> },
}

impl View for Warning {
    type V = WarningView;

    open spec fn view(&self) -> WarningView {
        match self {
            Warning::UnusedExemption { name, entry } => WarningView::UnusedExemption {
                name: name@,
                entry: *entry as int,
            },
            Warning::UnknownDependency {
                name,
                version,
                entry,
                dependency,
            } => WarningView::UnknownDependency {
                name: name@,
                version: version@,
                entry: *entry as int,
                dependency: dependency@,
            },
        }
    }
}

/// The report: whether every package passes, what was found for each package
/// in resolution order, what to audit next, and what to mend.
#[derive(Clone, Debug)]
pub struct Report {
    pub success: bool,
    /// The names of the criteria, by their number in the sets of the report.
    pub criteria: Vec<String>,
    pub packages: Vec<PackageReport>,
    pub suggestions: Vec<Suggestion>,
    pub warnings: Vec<Warning>,
}

pub struct ReportView {
    pub success: bool,
    pub criteria: Seq<Seq<char>>,
    pub packages: Seq<PackageReportView>,
    pub suggestions: Seq<SuggestionView>,
    pub warnings: Seq<WarningView>,
}

impl View for Report {
    type V = ReportView;

    open spec fn view(&self) -> ReportView {
        ReportView {
            success: self.success,
            criteria: crate::text::views(&self.criteria),
            packages: Seq::new(self.packages@.len(), |k: int| self.packages@[k]@),
            suggestions: Seq::new(self.suggestions@.len(), |i: int| self.suggestions@[i]@),
            warnings: Seq::new(self.warnings@.len(), |i: int| self.warnings@[i]@),
        }
    }
}

/// The names among the first `upto` criteria that are in the set, in the
/// order of the table.
pub open spec fn names_in(names: Seq<Seq<char>>, set: Seq<bool>, upto: nat) -> Seq<Seq<char>>
    decreases upto,
{
    if upto == 0 {
        Seq::empty()
    } else {
        let before = names_in(names, set, (upto - 1) as nat);
        if crate::criteria::holds(set, upto - 1) {
            before.push(names[upto - 1])
        } else {
            before
        }
    }
}

impl Report {
    /// The names of the criteria of a set of the report, in the order of the
    /// table.
    pub fn names_of(&self, set: &CriteriaSet) -> (r: Vec<String>)
        ensures
            crate::text::views(&r) == names_in(
                crate::text::views(&self.criteria),
                set@,
                self.criteria@.len() as nat,
            ),
    {
        let n = self.criteria.len();
        let ghost names = crate::text::views(&self.criteria);
        let mut r: Vec<String> = Vec::new();
        let mut c: usize = 0;
        assert(crate::text::views(&r) =~= names_in(names, set@, 0));
        while c < n
            invariant
                n == self.criteria@.len(),
                names == crate::text::views(&self.criteria),
                c <= n,
                crate::text::views(&r) == names_in(names, set@, c as nat),
            decreases n - c,
        {
            let ghost before = crate::text::views(&r);
            if set.contains(c) {
                r.push(self.criteria[c].clone());
                assert(crate::text::views(&r) =~= before.push(names[c as int]));
            }
            c += 1;
        }
        r
    }
}

} // verus!
