//! Shared types: package metadata, findings and verdicts.

use crate::text;
use vstd::prelude::*;

verus! {

/// Metadata about an AUR package as reported by the AUR.
///
/// A `maintainer` of `None` means that the package is orphaned.
#[derive(Debug)]
pub struct PackageMeta {
    pub name: String,
    pub package_base: String,
    pub version: String,
    pub description: Option<String>,
    pub maintainer: Option<String>,
    pub num_votes: u64,
    /// The popularity, as the bits of an IEEE 754 double. It is carried for
    /// display only.
    pub popularity_bits: u64,
    /// Unix timestamp of the first submission.
    pub first_submitted: i64,
    /// Unix timestamp of the last update.
    pub last_modified: i64,
    /// `Some(ts)` if flagged out of date.
    pub out_of_date: Option<i64>,
    pub url: Option<String>,
    /// Runtime dependencies (may carry version constraints, e.g. `pacman>6.1`).
    pub depends: Vec<String>,
    /// Build-time dependencies.
    pub make_depends: Vec<String>,
    /// Test-time dependencies.
    pub check_depends: Vec<String>,
}

/// Appends every string of `from` to `out`.
fn push_all<'a>(out: &mut Vec<&'a str>, from: &'a Vec<String>)
    ensures
        text::slices(final(out)@) == text::slices(old(out)@) + text::texts(from@),
{
    let mut i: usize = 0;
    proof {
        assert(text::slices(out@) =~= text::slices(old(out)@) + text::texts(from@).take(0));
    }
    while i < from.len()
        invariant
            i <= from@.len(),
            text::slices(out@) == text::slices(old(out)@) + text::texts(from@).take(i as int),
        decreases from@.len() - i,
    {
        let ghost before = text::slices(out@);
        out.push(from[i].as_str());
        proof {
            assert(text::slices(out@) =~= before.push(from@[i as int]@));
            assert(text::slices(out@) =~= text::slices(old(out)@) + text::texts(from@).take(i + 1));
        }
        i += 1;
    }
    proof {
        assert(text::texts(from@).take(from@.len() as int) =~= text::texts(from@));
    }
}

impl PackageMeta {
    /// Every dependency relevant to building this package (runtime, then make,
    /// then check), in declaration order. Names may still carry version
    /// constraints.
    pub fn build_deps(&self) -> (r: Vec<&str>)
        ensures
            text::slices(r@) == text::texts(self.depends@) + text::texts(self.make_depends@)
                + text::texts(self.check_depends@),
    {
        let mut out: Vec<&str> = Vec::new();
        proof {
            assert(text::slices(out@) =~= Seq::<Seq<char>>::empty());
        }
        push_all(&mut out, &self.depends);
        push_all(&mut out, &self.make_depends);
        push_all(&mut out, &self.check_depends);
        proof {
            assert(text::slices(out@) =~= text::texts(self.depends@) + text::texts(
                self.make_depends@,
            ) + text::texts(self.check_depends@));
        }
        out
    }
}

/// How severe a single finding is, least severe first.
#[derive(Debug, Clone, Copy, PartialEq, Eq, PartialOrd, Ord, Structural)]
pub enum Severity {
    Info,
    Low,
    Medium,
    High,
    Critical,
}

/// The place of a severity in the order `Info < Low < Medium < High < Critical`.
pub open spec fn rank(s: Severity) -> int {
    match s {
        Severity::Info => 0,
        Severity::Low => 1,
        Severity::Medium => 2,
        Severity::High => 3,
        Severity::Critical => 4,
    }
}

/// Points that a severity contributes to the risk score.
pub open spec fn points(s: Severity) -> int {
    match s {
        Severity::Info => 0,
        Severity::Low => 3,
        Severity::Medium => 8,
        Severity::High => 20,
        Severity::Critical => 40,
    }
}

/// The more severe of two severities.
pub open spec fn worse(a: Severity, b: Severity) -> Severity {
    if rank(a) < rank(b) {
        b
    } else {
        a
    }
}

/// A more severe finding weighs strictly more.
pub proof fn law_weight_follows_severity(a: Severity, b: Severity)
    ensures
        rank(a) < rank(b) <==> points(a) < points(b),
        rank(a) == rank(b) <==> a == b,
{
}

impl Severity {
    /// Points that this severity contributes to the risk score.
    pub fn weight(self) -> (r: u32)
        ensures
            r == points(self),
    {
        match self {
            Severity::Info => 0,
            Severity::Low => 3,
            Severity::Medium => 8,
            Severity::High => 20,
            Severity::Critical => 40,
        }
    }

    /// The name of this severity as it is shown to the user.
    pub fn label(self) -> (r: &'static str)
        ensures
            r@ == (match self {
                Severity::Info => "INFO"@,
                Severity::Low => "LOW"@,
                Severity::Medium => "MEDIUM"@,
                Severity::High => "HIGH"@,
                Severity::Critical => "CRITICAL"@,
            }),
    {
        match self {
            Severity::Info => "INFO",
            Severity::Low => "LOW",
            Severity::Medium => "MEDIUM",
            Severity::High => "HIGH",
            Severity::Critical => "CRITICAL",
        }
    }

    fn rank_of(self) -> (r: u8)
        ensures
            r == rank(self),
    {
        match self {
            Severity::Info => 0,
            Severity::Low => 1,
            Severity::Medium => 2,
            Severity::High => 3,
            Severity::Critical => 4,
        }
    }

    /// The more severe of this severity and `other`.
    pub fn worse_of(self, other: Severity) -> (r: Severity)
        ensures
            r == worse(self, other),
    {
        if self.rank_of() < other.rank_of() {
            other
        } else {
            self
        }
    }
}

/// A single thing noticed while vetting a package.
#[derive(Debug)]
pub struct Finding {
    /// Stable rule id, e.g. `scan.pip-install` or `trust.orphaned`.
    pub id: String,
    pub severity: Severity,
    /// One-line human summary.
    pub title: String,
    /// Why this matters and what to check.
    pub detail: String,
    /// Where it was seen, e.g. `PKGBUILD:42` or `foo.install`.
    pub location: Option<String>,
}

/// The contents of a finding.
pub struct FindingView {
    pub id: Seq<char>,
    pub severity: Severity,
    pub title: Seq<char>,
    pub detail: Seq<char>,
    pub location: Option<Seq<char>>,
}

impl View for Finding {
    type V = FindingView;

    open spec fn view(&self) -> FindingView {
        FindingView {
            id: self.id@,
            severity: self.severity,
            title: self.title@,
            detail: self.detail@,
            location: text::opt_text(self.location),
        }
    }
}

/// The contents of a list of findings.
pub open spec fn findings_of(v: Seq<Finding>) -> Seq<FindingView> {
    Seq::new(v.len(), |i: int| v[i]@)
}

/// The contents of two lists of findings, one after the other.
pub proof fn lemma_findings_add(a: Seq<Finding>, b: Seq<Finding>)
    ensures
        findings_of(a + b) == findings_of(a) + findings_of(b),
{
    assert(findings_of(a + b) =~= findings_of(a) + findings_of(b));
}

/// The contents of a list of findings that grew by one.
pub proof fn lemma_findings_push(a: Seq<Finding>, f: Finding)
    ensures
        findings_of(a.push(f)) == findings_of(a).push(f@),
{
    assert(findings_of(a.push(f)) =~= findings_of(a).push(f@));
}

impl Finding {
    /// A finding with the given contents.
    pub fn new(id: &str, severity: Severity, title: String, detail: &str, location: Option<String>) -> (r:
        Finding)
        ensures
            r@ == (FindingView {
                id: id@,
                severity,
                title: title@,
                detail: detail@,
                location: text::opt_text(location),
            }),
    {
        Finding {
            id: String::from_str(id),
            severity,
            title,
            detail: String::from_str(detail),
            location,
        }
    }
}

impl Clone for Finding {
    fn clone(&self) -> (r: Finding)
        ensures
            r@ == self@,
    {
        Finding {
            id: self.id.clone(),
            severity: self.severity,
            title: self.title.clone(),
            detail: self.detail.clone(),
            location: match &self.location {
                Some(l) => Some(l.clone()),
                None => None,
            },
        }
    }
}

/// What was decided about a package after vetting it.
#[derive(Debug, Clone, Copy, PartialEq, Eq, Structural)]
pub enum Decision {
    /// Clean enough to vouch for.
    Vouched,
    /// Needs a human to look before proceeding.
    Review,
    /// Refused: too risky to install as it is.
    Refused,
}

impl Decision {
    /// The name of this decision as it is shown to the user.
    pub fn label(self) -> (r: &'static str)
        ensures
            r@ == (match self {
                Decision::Vouched => "VOUCHED"@,
                Decision::Review => "REVIEW REQUIRED"@,
                Decision::Refused => "REFUSED"@,
            }),
    {
        match self {
            Decision::Vouched => "VOUCHED",
            Decision::Review => "REVIEW REQUIRED",
            Decision::Refused => "REFUSED",
        }
    }
}

/// The aggregate result of vetting one package.
#[derive(Debug)]
pub struct Verdict {
    pub package: String,
    /// 0 (clean) to 100 (highest risk).
    pub score: u32,
    pub decision: Decision,
    pub findings: Vec<Finding>,
}

impl Verdict {
    /// The severity of the most severe finding, if there is any finding.
    pub fn highest_severity(&self) -> (r: Option<Severity>)
        ensures
            r is None <==> self.findings@.len() == 0,
            r matches Some(s) ==> {
                &&& exists|i: int| 0 <= i < self.findings@.len() && self.findings@[i].severity == s
                &&& forall|i: int|
                    0 <= i < self.findings@.len() ==> rank(#[trigger] self.findings@[i].severity)
                        <= rank(s)
            },
    {
        let mut best: Option<Severity> = None;
        let mut i: usize = 0;
        while i < self.findings.len()
            invariant
                i <= self.findings@.len(),
                best is None <==> i == 0,
                best matches Some(s) ==> {
                    &&& exists|j: int| 0 <= j < i && self.findings@[j].severity == s
                    &&& forall|j: int|
                        0 <= j < i ==> rank(#[trigger] self.findings@[j].severity) <= rank(s)
                },
            decreases self.findings@.len() - i,
        {
            let s = self.findings[i].severity;
            best = match best {
                Some(b) => Some(b.worse_of(s)),
                None => Some(s),
            };
            i += 1;
        }
        best
    }
}

/// The severities are in the order of their names, and what each adds to the
/// score is fixed.
pub proof fn law_severities()
    ensures
        rank(Severity::Info) < rank(Severity::Low) < rank(Severity::Medium) < rank(Severity::High)
            < rank(Severity::Critical),
        points(Severity::Info) == 0,
        points(Severity::Low) == 3,
        points(Severity::Medium) == 8,
        points(Severity::High) == 20,
        points(Severity::Critical) == 40,
{
}

/// The worse of two severities is one of them, and neither is more severe.
pub proof fn law_worse_of_two(a: Severity, b: Severity)
    ensures
        worse(a, b) == a || worse(a, b) == b,
        points(a) <= points(worse(a, b)) && points(b) <= points(worse(a, b)),
        worse(a, b) == worse(b, a),
{
}

} // verus!
