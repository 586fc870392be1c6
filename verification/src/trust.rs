//! Trust signals from the metadata of a package.
//!
//! None of these signals proves malice on its own: they raise the bar for
//! review.

use crate::package;
use crate::package::{Finding, FindingView, PackageMeta, Severity};
use crate::text;
use vstd::prelude::*;

verus! {

/// A package updated within this many seconds gets extra scrutiny.
pub const RECENT_UPDATE_SECS: i64 = 604800;

/// Below this many votes a package is essentially unvetted by the community.
pub const LOW_VOTES: u64 = 10;

/// Why an orphaned package is a concern.
pub const ORPHANED_DETAIL: &'static str =
    "Orphaned AUR packages can be adopted by anyone. This was the primary entry point of the June 2026 'Atomic Arch' attack. Treat any orphaned package as untrusted until reviewed.";

/// Why few votes are a concern.
pub const LOW_VOTES_DETAIL: &'static str =
    "Few votes means little community review. Popular packages are more likely to have many eyes on changes.";

/// Why a recent update is a concern.
pub const RECENT_DETAIL: &'static str =
    "A very recent update is exactly when a hijacked package would push its payload. Review the diff against the version you last trusted.";

/// Why an out-of-date flag is a concern.
pub const OUT_OF_DATE_DETAIL: &'static str =
    "An out-of-date flag can mean the maintainer is inactive — a precursor to orphaning and adoption.";

/// A finding about the package as a whole.
pub open spec fn signal(
    id: Seq<char>,
    severity: Severity,
    title: Seq<char>,
    detail: Seq<char>,
) -> FindingView {
    FindingView { id, severity, title, detail, location: None }
}

/// `f` alone if the condition holds, nothing otherwise.
pub open spec fn only_if(condition: bool, f: FindingView) -> Seq<FindingView> {
    if condition {
        seq![f]
    } else {
        Seq::empty()
    }
}

/// The signals that need no clock.
pub open spec fn signals(meta: PackageMeta) -> Seq<FindingView> {
    only_if(
        meta.maintainer is None,
        signal(
            "trust.orphaned"@,
            Severity::High,
            "Package is orphaned (no maintainer)"@,
            ORPHANED_DETAIL@,
        ),
    ) + only_if(
        meta.num_votes < LOW_VOTES,
        signal(
            "trust.low-votes"@,
            Severity::Low,
            "Low community trust ("@ + text::dec(meta.num_votes as nat) + " votes)"@,
            LOW_VOTES_DETAIL@,
        ),
    )
}

/// The signals at a time.
pub open spec fn signals_at(meta: PackageMeta, now: int) -> Seq<FindingView> {
    signals(meta) + only_if(
        0 <= now - meta.last_modified <= RECENT_UPDATE_SECS,
        signal(
            "trust.recent-update"@,
            Severity::Low,
            "Updated within the last 7 days"@,
            RECENT_DETAIL@,
        ),
    ) + only_if(
        meta.out_of_date is Some,
        signal(
            "trust.out-of-date"@,
            Severity::Info,
            "Flagged out-of-date"@,
            OUT_OF_DATE_DETAIL@,
        ),
    )
}

/// The trust signals of a package that need no clock.
pub fn evaluate(meta: &PackageMeta) -> (r: Vec<Finding>)
    ensures
        package::findings_of(r@) == signals(*meta),
{
    let mut out: Vec<Finding> = Vec::new();
    if meta.maintainer.is_none() {
        out.push(
            Finding::new(
                "trust.orphaned",
                Severity::High,
                String::from_str("Package is orphaned (no maintainer)"),
                ORPHANED_DETAIL,
                None,
            ),
        );
    }
    if meta.num_votes < LOW_VOTES {
        let votes = text::decimal(meta.num_votes as u128);
        out.push(
            Finding::new(
                "trust.low-votes",
                Severity::Low,
                text::concat3("Low community trust (", votes.as_str(), " votes)"),
                LOW_VOTES_DETAIL,
                None,
            ),
        );
    }
    proof {
        assert(package::findings_of(out@) =~= signals(*meta));
    }
    out
}

/// Like [`evaluate`], but at a given time (Unix timestamp in seconds), so that
/// recency can be judged.
pub fn evaluate_at(meta: &PackageMeta, now: i64) -> (r: Vec<Finding>)
    ensures
        package::findings_of(r@) == signals_at(*meta, now as int),
{
    let mut out = evaluate(meta);
    let ghost first = package::findings_of(out@);
    let age: i128 = now as i128 - meta.last_modified as i128;
    let recent = 0 <= age && age <= RECENT_UPDATE_SECS as i128;
    if recent {
        out.push(
            Finding::new(
                "trust.recent-update",
                Severity::Low,
                String::from_str("Updated within the last 7 days"),
                RECENT_DETAIL,
                None,
            ),
        );
    }
    if meta.out_of_date.is_some() {
        out.push(
            Finding::new(
                "trust.out-of-date",
                Severity::Info,
                String::from_str("Flagged out-of-date"),
                OUT_OF_DATE_DETAIL,
                None,
            ),
        );
    }
    proof {
        assert(package::findings_of(out@) =~= signals_at(*meta, now as int));
    }
    out
}

/// A finding of this id and severity is among them, about the package as a whole.
pub open spec fn says(fs: Seq<FindingView>, id: Seq<char>, severity: Severity) -> bool {
    exists|i: int|
        0 <= i < fs.len() && (#[trigger] fs[i]).id == id && fs[i].severity == severity
            && fs[i].location is None
}

/// Each trust signal is given exactly when its condition holds: an orphaned
/// package, fewer than ten votes, an update within the last seven days that is
/// not in the future, and a flag as out of date; and no other signal is.
pub proof fn law_trust_signals(meta: PackageMeta, now: int)
    ensures
        says(signals_at(meta, now), "trust.orphaned"@, Severity::High) <==> meta.maintainer is None,
        says(signals_at(meta, now), "trust.low-votes"@, Severity::Low) <==> meta.num_votes < 10,
        says(signals_at(meta, now), "trust.recent-update"@, Severity::Low)
            <==> meta.last_modified <= now <= meta.last_modified + 7 * 24 * 60 * 60,
        says(signals_at(meta, now), "trust.out-of-date"@, Severity::Info)
            <==> meta.out_of_date is Some,
        signals_at(meta, now).len() == (if meta.maintainer is None {
            1int
        } else {
            0
        }) + (if meta.num_votes < 10 {
            1int
        } else {
            0
        }) + (if meta.last_modified <= now <= meta.last_modified + 7 * 24 * 60 * 60 {
            1int
        } else {
            0
        }) + (if meta.out_of_date is Some {
            1int
        } else {
            0
        }),
        signals(meta).is_prefix_of(signals_at(meta, now)),
        says(signals(meta), "trust.orphaned"@, Severity::High) <==> meta.maintainer is None,
        says(signals(meta), "trust.low-votes"@, Severity::Low) <==> meta.num_votes < 10,
{
    reveal_strlit("trust.orphaned");
    reveal_strlit("trust.low-votes");
    reveal_strlit("trust.recent-update");
    reveal_strlit("trust.out-of-date");
    assert("trust.orphaned"@[6] == 'o' && "trust.orphaned"@[7] == 'r');
    assert("trust.low-votes"@[6] == 'l');
    assert("trust.recent-update"@[6] == 'r');
    assert("trust.out-of-date"@[6] == 'o' && "trust.out-of-date"@[7] == 'u');
    let fs = signals_at(meta, now);
    let a: int = if meta.maintainer is None {
        1
    } else {
        0
    };
    let b: int = if meta.num_votes < 10 {
        1
    } else {
        0
    };
    let c: int = if meta.last_modified <= now <= meta.last_modified + 7 * 24 * 60 * 60 {
        1
    } else {
        0
    };
    let first = signals(meta);
    assert(first.len() == a + b);
    if a == 1 {
        assert(first[0].id == "trust.orphaned"@);
        assert(fs[0] == first[0]);
    }
    if b == 1 {
        assert(first[a].id == "trust.low-votes"@);
        assert(fs[a] == first[a]);
    }
    if c == 1 {
        assert(fs[a + b].id == "trust.recent-update"@);
    }
    if meta.out_of_date is Some {
        assert(fs[a + b + c].id == "trust.out-of-date"@);
    }
    assert(first =~= fs.subrange(0, first.len() as int));
}

/// What the signals say: each has its title, and few votes are counted in it.
pub proof fn law_titles_of_signals(meta: PackageMeta, now: int, i: int)
    requires
        0 <= i < signals_at(meta, now).len(),
    ensures
        ({
            let f = signals_at(meta, now)[i];
            ||| f.id == "trust.orphaned"@ && f.title == "Package is orphaned (no maintainer)"@
            ||| f.id == "trust.low-votes"@ && f.title == "Low community trust ("@ + text::dec(
                meta.num_votes as nat,
            ) + " votes)"@
            ||| f.id == "trust.recent-update"@ && f.title == "Updated within the last 7 days"@
            ||| f.id == "trust.out-of-date"@ && f.title == "Flagged out-of-date"@
        }),
{
}

} // verus!
