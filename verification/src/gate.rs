//! Whether a verdict lets a build go on.

use crate::package::{Decision, Verdict};
use crate::paths;
use crate::text;
use vstd::prelude::*;

verus! {

/// The outcome of holding a verdict against the flags.
#[derive(Debug)]
pub enum Gate {
    /// Go on.
    Pass,
    /// Go on against a refusal, with a warning.
    Overridden,
    /// Stop: the exit code, and why.
    Stop { code: u8, message: String },
}

/// How far a decision is from vouching.
pub open spec fn grade(d: Decision) -> int {
    match d {
        Decision::Vouched => 0,
        Decision::Review => 1,
        Decision::Refused => 2,
    }
}

/// The exit code for an error.
pub const ERROR_CODE: u8 = 3;

/// The exit code for a decision: 0 for vouched, 1 for review required, 2 for
/// refused.
pub fn exit_code_for(decision: Decision) -> (r: u8)
    ensures
        r == grade(decision),
        r < ERROR_CODE,
{
    match decision {
        Decision::Vouched => 0,
        Decision::Review => 1,
        Decision::Refused => 2,
    }
}

/// The message at a stop.
pub open spec fn stop_message(decision: Decision, score: nat) -> Seq<char> {
    if decision is Review {
        "verdict is REVIEW REQUIRED (risk "@ + text::dec(score)
            + "/100). Read the findings above, then re-run with --yes to proceed."@
    } else {
        "verdict is REFUSED (risk "@ + text::dec(score)
            + "/100). vouch will not build this. Override with --force only if you fully understand the findings."@
    }
}

/// The outcome for a decision.
pub open spec fn is_gate(g: Gate, decision: Decision, score: nat, force: bool, yes: bool) -> bool {
    match decision {
        Decision::Vouched => g is Pass,
        Decision::Review => if yes {
            g is Pass
        } else {
            g matches Gate::Stop { code, message } && code == grade(decision) && message@
                == stop_message(decision, score)
        },
        Decision::Refused => if force {
            g is Overridden
        } else {
            g matches Gate::Stop { code, message } && code == grade(decision) && message@
                == stop_message(decision, score)
        },
    }
}

/// Whether a verdict lets a build go on: a review needs `yes`, a refusal needs
/// `force`.
pub fn gate(verdict: &Verdict, force: bool, yes: bool) -> (r: Gate)
    ensures
        is_gate(r, verdict.decision, verdict.score as nat, force, yes),
{
    match verdict.decision {
        Decision::Vouched => Gate::Pass,
        Decision::Review => if yes {
            Gate::Pass
        } else {
            let score = text::decimal(verdict.score as u128);
            Gate::Stop {
                code: exit_code_for(verdict.decision),
                message: text::concat3(
                    "verdict is REVIEW REQUIRED (risk ",
                    score.as_str(),
                    "/100). Read the findings above, then re-run with --yes to proceed.",
                ),
            }
        },
        Decision::Refused => if force {
            Gate::Overridden
        } else {
            let score = text::decimal(verdict.score as u128);
            Gate::Stop {
                code: exit_code_for(verdict.decision),
                message: text::concat3(
                    "verdict is REFUSED (risk ",
                    score.as_str(),
                    "/100). vouch will not build this. Override with --force only if you fully understand the findings.",
                ),
            }
        },
    }
}

/// A second verdict, on what is about to be built, is worse than the first.
pub open spec fn is_worse(first: Verdict, second: Verdict) -> bool {
    second.score > first.score || grade(second.decision) > grade(first.decision)
}

/// What the flags make of a later verdict, if that is worse than the earlier one.
pub open spec fn is_second_outcome(
    g: Option<Gate>,
    first: Verdict,
    second: Verdict,
    force: bool,
    yes: bool,
) -> bool {
    match g {
        Some(g) => is_worse(first, second) && is_gate(
            g,
            second.decision,
            second.score as nat,
            force,
            yes,
        ),
        None => !is_worse(first, second),
    }
}

/// Holds the verdict on what was cloned against the flags, if it is worse than
/// the verdict on what was fetched before: if its score is higher, or its
/// decision is worse. `None` if it is not.
pub fn second_gate(first: &Verdict, second: &Verdict, force: bool, yes: bool) -> (r: Option<Gate>)
    ensures
        is_second_outcome(r, *first, *second, force, yes),
        match r {
            Some(g) => is_worse(*first, *second) && is_gate(
                g,
                second.decision,
                second.score as nat,
                force,
                yes,
            ),
            None => !is_worse(*first, *second),
        },
{
    if second.score > first.score || exit_code_for(second.decision) > exit_code_for(
        first.decision,
    ) {
        Some(gate(second, force, yes))
    } else {
        None
    }
}

/// A refused package is never built without `force`, and one that needs review
/// never without `yes`.
pub proof fn law_gate_stops(g: Gate, decision: Decision, score: nat, force: bool, yes: bool)
    requires
        is_gate(g, decision, score, force, yes),
    ensures
        decision is Refused && !force ==> g is Stop,
        decision is Review && !yes ==> g is Stop,
        decision is Vouched ==> g is Pass,
        g is Overridden ==> decision is Refused && force,
{
}

/// A package whose recipe was cloned is built only if neither verdict stops it. So a
/// cloned recipe that is refused is never built without `force`, and one that needs
/// review is never built without `yes`, unless `force` overrode a refusal before and
/// the second verdict is no worse.
pub proof fn law_second_gate_stops(
    first: Verdict,
    second: Verdict,
    g1: Gate,
    g2: Option<Gate>,
    force: bool,
    yes: bool,
)
    requires
        is_gate(g1, first.decision, first.score as nat, force, yes),
        match g2 {
            Some(g) => is_worse(first, second) && is_gate(
                g,
                second.decision,
                second.score as nat,
                force,
                yes,
            ),
            None => !is_worse(first, second),
        },
        ({
            ||| second.decision is Refused && !force
            ||| second.decision is Review && !yes && !(force && first.decision is Refused
                && !is_worse(first, second))
        }),
    ensures
        g1 is Stop || (g2 is Some && g2->0 is Stop),
{
}

/// The name of the directory in which a package is built.
pub fn unique_build_dir(temp: &str, base: &str, stamp: u128) -> (r: String)
    ensures
        r@ == paths::joined(temp@, "vouch-build-"@ + base@ + "-"@ + text::dec(stamp as nat)),
{
    let head = text::concat3("vouch-build-", base, "-");
    let name = text::concat(head.as_str(), text::decimal(stamp).as_str());
    paths::join(temp, name.as_str())
}

/// Decisions have the exit codes 0, 1 and 2, and none has that of an error.
pub proof fn law_exit_codes()
    ensures
        grade(Decision::Vouched) == 0,
        grade(Decision::Review) == 1,
        grade(Decision::Refused) == 2,
        ERROR_CODE == 3,
{
}

/// What was agreed to goes on: a review with `yes`, a refusal with `force`, which
/// is noted; neither flag stands for the other. A stop has the exit code of the
/// decision, says which flag goes on, and gives the score.
pub proof fn law_flags_are_answered(g: Gate, decision: Decision, score: nat, force: bool, yes: bool)
    requires
        is_gate(g, decision, score, force, yes),
    ensures
        decision is Review && yes ==> g is Pass,
        decision is Refused && force ==> g is Overridden,
        g matches Gate::Stop { code, message } ==> {
            &&& decision is Review ==> code == 1 && text::contains_text(message@, "--yes"@)
                && !yes
            &&& decision is Refused ==> code == 2 && text::contains_text(message@, "--force"@)
                && !force
            &&& text::contains_text(message@, text::dec(score))
        },
{
    if let Gate::Stop { code, message } = g {
        if decision is Review {
            let head = "verdict is REVIEW REQUIRED (risk "@;
            let tail = "/100). Read the findings above, then re-run with --yes to proceed."@;
            text::lemma_holds_pattern(head, text::dec(score), tail);
            reveal_strlit("/100). Read the findings above, then re-run with --yes to proceed.");
            reveal_strlit("--yes");
            let before = head + text::dec(score) + tail.take(49);
            let after = tail.skip(54);
            assert(tail.subrange(49, 54) =~= "--yes"@);
            text::lemma_holds_pattern(before, "--yes"@, after);
            assert(message@ =~= before + "--yes"@ + after);
        } else {
            let head = "verdict is REFUSED (risk "@;
            let tail =
                "/100). vouch will not build this. Override with --force only if you fully understand the findings."@;
            text::lemma_holds_pattern(head, text::dec(score), tail);
            reveal_strlit(
                "/100). vouch will not build this. Override with --force only if you fully understand the findings.",
            );
            reveal_strlit("--force");
            let before = head + text::dec(score) + tail.take(48);
            let after = tail.skip(55);
            assert(tail.subrange(48, 55) =~= "--force"@);
            text::lemma_holds_pattern(before, "--force"@, after);
            assert(message@ =~= before + "--force"@ + after);
        }
    }
}

/// A second verdict is worse exactly if its score is higher, or it needs review
/// or is refused where the first was not.
pub proof fn law_when_a_verdict_is_worse(first: Verdict, second: Verdict)
    ensures
        is_worse(first, second) <==> {
            ||| second.score > first.score
            ||| second.decision is Refused && !(first.decision is Refused)
            ||| second.decision is Review && first.decision is Vouched
        },
{
}

/// A second verdict is held against the flags whenever it is worse in score or in
/// decision, and passed over otherwise; so nothing that got worse goes unseen.
pub proof fn law_what_got_worse_is_seen(
    g: Option<Gate>,
    first: Verdict,
    second: Verdict,
    force: bool,
    yes: bool,
)
    requires
        is_second_outcome(g, first, second, force, yes),
    ensures
        second.score > first.score ==> g is Some,
        second.decision is Refused && !(first.decision is Refused) ==> g is Some,
        second.decision is Review && first.decision is Vouched ==> g is Some,
        second.score <= first.score && second.decision == first.decision ==> g is None,
        g is Some && second.decision is Refused && !force ==> g->0 is Stop,
        g is Some && second.decision is Review && !yes ==> g->0 is Stop,
        g is Some && second.decision is Vouched ==> g->0 is Pass,
{
}

} // verus!
