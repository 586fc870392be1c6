//! How verdicts are shown.

use crate::package::{Decision, Finding, FindingView, PackageMeta, Severity};
use crate::text;
use vstd::prelude::*;

verus! {

/// A colour.
#[derive(Debug, Clone, Copy, PartialEq, Eq, Structural)]
pub enum Tone {
    Red,
    BrightRed,
    Yellow,
    BrightBlue,
    BrightBlack,
    Green,
}

/// The colour of a severity.
pub open spec fn tone_of(s: Severity) -> Tone {
    match s {
        Severity::Critical => Tone::Red,
        Severity::High => Tone::BrightRed,
        Severity::Medium => Tone::Yellow,
        Severity::Low => Tone::BrightBlue,
        Severity::Info => Tone::BrightBlack,
    }
}

/// The colour of a severity.
pub fn severity_color(s: Severity) -> (r: Tone)
    ensures
        r == tone_of(s),
{
    match s {
        Severity::Critical => Tone::Red,
        Severity::High => Tone::BrightRed,
        Severity::Medium => Tone::Yellow,
        Severity::Low => Tone::BrightBlue,
        Severity::Info => Tone::BrightBlack,
    }
}

/// The colour of a decision.
pub fn decision_color(d: Decision) -> (r: Tone)
    ensures
        r == (match d {
            Decision::Vouched => Tone::Green,
            Decision::Review => Tone::Yellow,
            Decision::Refused => Tone::Red,
        }),
{
    match d {
        Decision::Vouched => Tone::Green,
        Decision::Review => Tone::Yellow,
        Decision::Refused => Tone::Red,
    }
}

/// The mark in front of a finding.
pub open spec fn mark_of(s: Severity) -> Seq<char> {
    match s {
        Severity::Critical => "✗"@,
        Severity::High => "✗"@,
        Severity::Medium => "!"@,
        Severity::Low => "·"@,
        Severity::Info => "·"@,
    }
}

/// The mark in front of a finding.
pub fn mark(severity: Severity) -> (r: &'static str)
    ensures
        r@ == mark_of(severity),
{
    match severity {
        Severity::Critical => "✗",
        Severity::High => "✗",
        Severity::Medium => "!",
        Severity::Low => "·",
        Severity::Info => "·",
    }
}

/// The name of a severity as it is shown.
pub open spec fn label_of(s: Severity) -> Seq<char> {
    match s {
        Severity::Info => "INFO"@,
        Severity::Low => "LOW"@,
        Severity::Medium => "MEDIUM"@,
        Severity::High => "HIGH"@,
        Severity::Critical => "CRITICAL"@,
    }
}

/// The width that labels are filled up to.
pub const LABEL_WIDTH: usize = 8;

/// A text filled up with spaces to a width.
pub open spec fn padded(s: Seq<char>, width: nat) -> Seq<char> {
    s + Seq::new(
        if s.len() < width {
            (width - s.len()) as nat
        } else {
            0
        },
        |i: int| ' ',
    )
}

/// A text filled up with spaces to a width.
pub fn pad(s: &str, width: usize) -> (r: String)
    ensures
        r@ == padded(s@, width as nat),
{
    let cs = text::chars_of(s);
    let mut out = String::from_str(s);
    let mut n: usize = cs.len();
    proof {
        assert(out@ =~= padded(s@, n as nat));
    }
    while n < width
        invariant
            cs@ == s@,
            s@.len() <= n,
            n <= width || n == s@.len(),
            out@ == padded(s@, n as nat),
        decreases width - n,
    {
        out.push(' ');
        n += 1;
        proof {
            assert(out@ =~= padded(s@, n as nat));
        }
    }
    proof {
        assert(out@ =~= padded(s@, width as nat));
    }
    out
}

/// A place as it is shown behind a finding.
pub open spec fn shown_place(location: Option<Seq<char>>) -> Seq<char> {
    match location {
        Some(l) => " ["@ + l + "]"@,
        None => Seq::empty(),
    }
}

/// A place as it is shown behind a finding.
pub fn place_suffix(location: Option<&str>) -> (r: String)
    ensures
        r@ == shown_place(text::opt_slice(location)),
{
    match location {
        Some(l) => text::concat3(" [", l, "]"),
        None => String::new(),
    }
}

/// A finding as it is shown on a line.
#[derive(Debug)]
pub struct FindingLine {
    pub mark: &'static str,
    pub label: String,
    pub title: String,
    pub place: String,
    /// The colour of the mark and the label.
    pub tone: Tone,
}

/// A line shows a finding.
pub open spec fn shows(line: FindingLine, f: FindingView) -> bool {
    &&& line.mark@ == mark_of(f.severity)
    &&& line.label@ == padded(label_of(f.severity), LABEL_WIDTH as nat)
    &&& line.title@ == f.title
    &&& line.place@ == shown_place(f.location)
    &&& line.tone == tone_of(f.severity)
}

/// The findings as they are shown, each on a line.
pub fn finding_lines(findings: &Vec<Finding>) -> (r: Vec<FindingLine>)
    ensures
        r@.len() == findings@.len(),
        forall|i: int| 0 <= i < r@.len() ==> shows(#[trigger] r@[i], findings@[i]@),
{
    let mut out: Vec<FindingLine> = Vec::new();
    let mut i: usize = 0;
    while i < findings.len()
        invariant
            i <= findings@.len(),
            out@.len() == i,
            forall|j: int| 0 <= j < i ==> shows(#[trigger] out@[j], findings@[j]@),
        decreases findings@.len() - i,
    {
        let f = &findings[i];
        let location = match &f.location {
            Some(l) => Some(l.as_str()),
            None => None,
        };
        out.push(
            FindingLine {
                mark: mark(f.severity),
                label: pad(f.severity.label(), LABEL_WIDTH),
                title: f.title.clone(),
                place: place_suffix(location),
                tone: severity_color(f.severity),
            },
        );
        i += 1;
    }
    out
}

/// What a decision means for the user.
pub fn verb(decision: Decision) -> (r: &'static str)
    ensures
        r@ == (match decision {
            Decision::Vouched => "vouches for this package"@,
            Decision::Review => "needs your review before installing"@,
            Decision::Refused => "refuses to install this package"@,
        }),
{
    match decision {
        Decision::Vouched => "vouches for this package",
        Decision::Review => "needs your review before installing",
        Decision::Refused => "refuses to install this package",
    }
}

/// A score as it is shown.
pub fn risk(score: u32) -> (r: String)
    ensures
        r@ == "(risk "@ + text::dec(score as nat) + "/100)"@,
{
    text::concat3("(risk ", text::decimal(score as u128).as_str(), "/100)")
}

/// The maintainer of a package as it is shown.
pub fn maintainer(meta: &PackageMeta) -> (r: String)
    ensures
        r@ == (match meta.maintainer {
            Some(m) => m@,
            None => "(orphaned)"@,
        }),
{
    match &meta.maintainer {
        Some(m) => m.clone(),
        None => String::from_str("(orphaned)"),
    }
}

/// Filling up adds spaces behind a text until it has the width, and never cuts it.
pub proof fn law_filling_up(s: Seq<char>, width: nat)
    ensures
        s.len() <= width ==> padded(s, width).len() == width,
        s.len() >= width ==> padded(s, width) == s,
        padded(s, width).take(s.len() as int) == s,
        forall|i: int| s.len() <= i < padded(s, width).len() ==> padded(s, width)[i] == ' ',
{
    assert(padded(s, width).take(s.len() as int) =~= s);
    if s.len() >= width {
        assert(padded(s, width) =~= s);
    }
}

/// How each severity is shown: its name, its mark, and its colour.
pub proof fn law_severities_are_shown()
    ensures
        label_of(Severity::Critical) == "CRITICAL"@ && mark_of(Severity::Critical) == "✗"@
            && tone_of(Severity::Critical) == Tone::Red,
        label_of(Severity::High) == "HIGH"@ && mark_of(Severity::High) == "✗"@ && tone_of(
            Severity::High,
        ) == Tone::BrightRed,
        label_of(Severity::Medium) == "MEDIUM"@ && mark_of(Severity::Medium) == "!"@ && tone_of(
            Severity::Medium,
        ) == Tone::Yellow,
        label_of(Severity::Low) == "LOW"@ && mark_of(Severity::Low) == "·"@ && tone_of(
            Severity::Low,
        ) == Tone::BrightBlue,
        label_of(Severity::Info) == "INFO"@ && mark_of(Severity::Info) == "·"@ && tone_of(
            Severity::Info,
        ) == Tone::BrightBlack,
{
}

/// A place is shown in brackets behind a finding; without one nothing is.
pub proof fn law_places_are_shown(place: Seq<char>)
    ensures
        shown_place(Some(place)) == " ["@ + place + "]"@,
        shown_place(None).len() == 0,
{
}

/// A line shows the whole finding: the mark, the label at its width, the title as
/// it is, the place, and the colour.
pub proof fn law_lines_show_findings(line: FindingLine, f: FindingView)
    requires
        shows(line, f),
    ensures
        line.title@ == f.title,
        line.label@.len() >= 8,
        line.label@.take(label_of(f.severity).len() as int) == label_of(f.severity),
        f.location matches Some(place) ==> line.place@ == " ["@ + place + "]"@,
        f.location is None ==> line.place@.len() == 0,
        line.mark@ == mark_of(f.severity),
        line.tone == tone_of(f.severity),
{
    law_filling_up(label_of(f.severity), LABEL_WIDTH as nat);
    if label_of(f.severity).len() >= LABEL_WIDTH {
        assert(line.label@ == label_of(f.severity));
    }
}

} // verus!
