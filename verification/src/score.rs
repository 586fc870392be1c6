//! From findings to a verdict.
//!
//! The score is a capped sum of severity weights, but the decision is not a
//! pure threshold: a single critical finding refuses the package outright,
//! because many small risks and one rootkit must not be averaged together.

use crate::package;
use crate::package::{Decision, Finding, FindingView, Severity, Verdict};
use crate::text;
use vstd::prelude::*;

verus! {

/// At or above this score a package needs a human before proceeding.
pub const REVIEW_THRESHOLD: u32 = 25;

/// At or above this score a package is refused outright.
pub const REFUSE_THRESHOLD: u32 = 60;

/// The highest score.
pub const MAX_SCORE: u32 = 100;

/// The highest severity among the findings of a rule, `Info` if there is none.
pub open spec fn worst(fs: Seq<FindingView>, id: Seq<char>) -> Severity
    decreases fs.len(),
{
    if fs.len() == 0 {
        Severity::Info
    } else if fs.last().id == id {
        package::worse(worst(fs.drop_last(), id), fs.last().severity)
    } else {
        worst(fs.drop_last(), id)
    }
}

/// Whether no finding before the `i`-th is of the same rule.
pub open spec fn is_first_of_rule(fs: Seq<FindingView>, i: int) -> bool {
    forall|j: int| 0 <= j < i ==> (#[trigger] fs[j]).id != fs[i].id
}

/// The weights of the distinct rules among the first `n` findings, each rule
/// weighed by the highest severity it has in the whole list.
pub open spec fn weights(fs: Seq<FindingView>, n: nat) -> int
    decreases n,
{
    if n == 0 {
        0
    } else {
        weights(fs, (n - 1) as nat) + (if is_first_of_rule(fs, n - 1) {
            package::points(worst(fs, fs[n - 1].id))
        } else {
            0
        })
    }
}

/// The score of a list of findings.
pub open spec fn score(fs: Seq<FindingView>) -> int {
    if weights(fs, fs.len()) < MAX_SCORE {
        weights(fs, fs.len())
    } else {
        MAX_SCORE as int
    }
}

/// Whether a list of findings holds a critical one.
pub open spec fn has_critical(fs: Seq<FindingView>) -> bool {
    exists|i: int| 0 <= i < fs.len() && (#[trigger] fs[i]).severity == Severity::Critical
}

/// What is decided on a list of findings.
pub open spec fn decision(fs: Seq<FindingView>) -> Decision {
    if has_critical(fs) || score(fs) >= REFUSE_THRESHOLD {
        Decision::Refused
    } else if score(fs) >= REVIEW_THRESHOLD {
        Decision::Review
    } else {
        Decision::Vouched
    }
}

/// The findings of one severity, in order.
pub open spec fn of_severity(fs: Seq<FindingView>, s: Severity) -> Seq<FindingView> {
    fs.filter(|f: FindingView| f.severity == s)
}

/// The findings in descending order of severity, findings of the same severity
/// in the order they had.
pub open spec fn worst_first(fs: Seq<FindingView>) -> Seq<FindingView> {
    of_severity(fs, Severity::Critical) + of_severity(fs, Severity::High) + of_severity(
        fs,
        Severity::Medium,
    ) + of_severity(fs, Severity::Low) + of_severity(fs, Severity::Info)
}

fn worst_of_rule(findings: &Vec<Finding>, id: &str) -> (r: Severity)
    ensures
        r == worst(package::findings_of(findings@), id@),
{
    let ghost fs = package::findings_of(findings@);
    let mut out = Severity::Info;
    let mut i: usize = 0;
    while i < findings.len()
        invariant
            i <= findings@.len(),
            fs == package::findings_of(findings@),
            out == worst(fs.take(i as int), id@),
        decreases findings@.len() - i,
    {
        proof {
            assert(fs.take(i + 1).drop_last() =~= fs.take(i as int));
            assert(fs.take(i + 1).last() == findings@[i as int]@);
        }
        if text::same(findings[i].id.as_str(), id) {
            out = out.worse_of(findings[i].severity);
        }
        i += 1;
    }
    proof {
        assert(fs.take(fs.len() as int) =~= fs);
    }
    out
}

fn first_of_rule(findings: &Vec<Finding>, at: usize) -> (r: bool)
    requires
        at < findings@.len(),
    ensures
        r == is_first_of_rule(package::findings_of(findings@), at as int),
{
    let ghost fs = package::findings_of(findings@);
    let mut i: usize = 0;
    while i < at
        invariant
            i <= at < findings@.len(),
            fs == package::findings_of(findings@),
            forall|j: int| 0 <= j < i ==> (#[trigger] fs[j]).id != fs[at as int].id,
        decreases at - i,
    {
        if text::same(findings[i].id.as_str(), findings[at].id.as_str()) {
            proof {
                assert(fs[i as int].id == fs[at as int].id);
            }
            return false;
        }
        i += 1;
    }
    true
}

proof fn lemma_weights_nonnegative(fs: Seq<FindingView>, n: nat)
    ensures
        0 <= weights(fs, n),
    decreases n,
{
    if n > 0 {
        lemma_weights_nonnegative(fs, (n - 1) as nat);
    }
}

fn score_of(findings: &Vec<Finding>) -> (r: u32)
    ensures
        r == score(package::findings_of(findings@)),
{
    let ghost fs = package::findings_of(findings@);
    let mut total: u32 = 0;
    let mut i: usize = 0;
    while i < findings.len()
        invariant
            i <= findings@.len(),
            fs == package::findings_of(findings@),
            total == (if weights(fs, i as nat) < MAX_SCORE {
                weights(fs, i as nat)
            } else {
                MAX_SCORE as int
            }),
        decreases findings@.len() - i,
    {
        proof {
            lemma_weights_nonnegative(fs, i as nat);
        }
        if first_of_rule(findings, i) {
            let weight: u32 = worst_of_rule(findings, findings[i].id.as_str()).weight();
            total = if total + weight < MAX_SCORE {
                total + weight
            } else {
                MAX_SCORE
            };
        }
        i += 1;
    }
    total
}

/// The verdict on a package: the score by distinct rule, each with its highest
/// severity, so that a rule that matches many times is a single concern; the
/// decision; and the findings, the worst first.
pub fn build_verdict(package: &str, findings: Vec<Finding>) -> (r: Verdict)
    ensures
        r.package@ == package@,
        r.score == score(package::findings_of(findings@)),
        r.decision == decision(package::findings_of(findings@)),
        package::findings_of(r.findings@) == worst_first(package::findings_of(findings@)),
{
    let ghost all = findings@;
    let ghost fs = package::findings_of(all);
    let score = score_of(&findings);
    let mut critical: Vec<Finding> = Vec::new();
    let mut high: Vec<Finding> = Vec::new();
    let mut medium: Vec<Finding> = Vec::new();
    let mut low: Vec<Finding> = Vec::new();
    let mut info: Vec<Finding> = Vec::new();
    proof {
        reveal(Seq::filter);
        assert(fs.take(0) =~= Seq::<FindingView>::empty());
        assert(package::findings_of(critical@) =~= Seq::<FindingView>::empty());
        assert(package::findings_of(high@) =~= Seq::<FindingView>::empty());
        assert(package::findings_of(medium@) =~= Seq::<FindingView>::empty());
        assert(package::findings_of(low@) =~= Seq::<FindingView>::empty());
        assert(package::findings_of(info@) =~= Seq::<FindingView>::empty());
    }
    for f in it: findings.into_iter()
        invariant
            it.seq() == all,
            fs == package::findings_of(all),
            package::findings_of(critical@) == of_severity(
                fs.take(it.index() as int),
                Severity::Critical,
            ),
            package::findings_of(high@) == of_severity(
                fs.take(it.index() as int),
                Severity::High,
            ),
            package::findings_of(medium@) == of_severity(
                fs.take(it.index() as int),
                Severity::Medium,
            ),
            package::findings_of(low@) == of_severity(
                fs.take(it.index() as int),
                Severity::Low,
            ),
            package::findings_of(info@) == of_severity(
                fs.take(it.index() as int),
                Severity::Info,
            ),
    {
        let ghost i = it.index() as int;
        proof {
            reveal(Seq::filter);
            assert(fs.take(i + 1).drop_last() =~= fs.take(i));
            assert(fs.take(i + 1).last() == f@);
            package::lemma_findings_push(critical@, f);
            package::lemma_findings_push(high@, f);
            package::lemma_findings_push(medium@, f);
            package::lemma_findings_push(low@, f);
            package::lemma_findings_push(info@, f);
        }
        match f.severity {
            Severity::Critical => critical.push(f),
            Severity::High => high.push(f),
            Severity::Medium => medium.push(f),
            Severity::Low => low.push(f),
            Severity::Info => info.push(f),
        }
    }
    proof {
        assert(fs.take(fs.len() as int) =~= fs);
        lemma_filter_empty(fs, Severity::Critical);
    }
    let decision = if critical.len() > 0 || score >= REFUSE_THRESHOLD {
        Decision::Refused
    } else if score >= REVIEW_THRESHOLD {
        Decision::Review
    } else {
        Decision::Vouched
    };
    proof {
        package::lemma_findings_add(critical@, high@);
        package::lemma_findings_add(critical@ + high@, medium@);
        package::lemma_findings_add(critical@ + high@ + medium@, low@);
        package::lemma_findings_add(critical@ + high@ + medium@ + low@, info@);
    }
    critical.append(&mut high);
    critical.append(&mut medium);
    critical.append(&mut low);
    critical.append(&mut info);
    Verdict { package: String::from_str(package), score, decision, findings: critical }
}

/// No finding of a severity is kept if and only if there is none.
proof fn lemma_filter_empty(fs: Seq<FindingView>, s: Severity)
    ensures
        of_severity(fs, s).len() == 0 <==> forall|i: int|
            0 <= i < fs.len() ==> (#[trigger] fs[i]).severity != s,
    decreases fs.len(),
{
    reveal(Seq::filter);
    if fs.len() > 0 {
        lemma_filter_empty(fs.drop_last(), s);
        let rest = fs.drop_last();
        if forall|i: int| 0 <= i < rest.len() ==> (#[trigger] rest[i]).severity != s {
            assert forall|i: int| 0 <= i < fs.len() - 1 implies (#[trigger] fs[i]).severity
                != s by {
                assert(rest[i].severity != s);
            }
        } else {
            let i = choose|i: int| 0 <= i < rest.len() && (#[trigger] rest[i]).severity == s;
            assert(fs[i].severity == s);
        }
    }
}

/// The score never leaves its range.
pub proof fn law_score_is_capped(fs: Seq<FindingView>)
    ensures
        0 <= score(fs) <= MAX_SCORE,
{
    lemma_weights_nonnegative(fs, fs.len());
}

/// One critical finding refuses the package, whatever the score.
pub proof fn law_critical_refuses(fs: Seq<FindingView>, i: int)
    requires
        0 <= i < fs.len(),
        fs[i].severity == Severity::Critical,
    ensures
        decision(fs) == Decision::Refused,
{
    assert(has_critical(fs));
}

/// Without a critical finding the score decides: below the first threshold a
/// package is vouched for, at or above the second it is refused, and between
/// them it needs review.
pub proof fn law_score_decides(fs: Seq<FindingView>)
    requires
        !has_critical(fs),
    ensures
        decision(fs) == Decision::Vouched <==> score(fs) < 25,
        decision(fs) == Decision::Review <==> 25 <= score(fs) < 60,
        decision(fs) == Decision::Refused <==> 60 <= score(fs),
{
}

/// Without findings a package is vouched for.
pub proof fn law_clean_is_vouched()
    ensures
        score(Seq::empty()) == 0,
        decision(Seq::empty()) == Decision::Vouched,
{
}

/// The sum of the weights of the rules of a set.
spec fn sum_over(ids: Set<Seq<char>>, w: spec_fn(Seq<char>) -> int) -> int
    decreases ids.len(),
{
    if ids.finite() && ids.len() > 0 {
        let x = ids.choose();
        w(x) + sum_over(ids.remove(x), w)
    } else {
        0
    }
}

proof fn lemma_sum_over(ids: Set<Seq<char>>, w: spec_fn(Seq<char>) -> int, x: Seq<char>)
    requires
        ids.finite(),
        ids.contains(x),
    ensures
        sum_over(ids, w) == w(x) + sum_over(ids.remove(x), w),
    decreases ids.len(),
{
    let y = ids.choose();
    assert(ids.len() > 0) by {
        if ids.len() == 0 {
            assert(ids =~= Set::empty());
        }
    }
    assert(ids.contains(y));
    if x != y {
        lemma_sum_over(ids.remove(y), w, x);
        lemma_sum_over(ids.remove(x), w, y);
        assert(ids.remove(y).remove(x) =~= ids.remove(x).remove(y));
    }
}

/// The rules of the first `n` findings.
spec fn rule_ids(fs: Seq<FindingView>, n: nat) -> Set<Seq<char>>
    decreases n,
{
    if n == 0 {
        Set::empty()
    } else {
        rule_ids(fs, (n - 1) as nat).insert(fs[n - 1].id)
    }
}

proof fn lemma_rule_ids(fs: Seq<FindingView>, n: nat)
    requires
        n <= fs.len(),
    ensures
        rule_ids(fs, n).finite(),
        forall|id: Seq<char>| #[trigger]
            rule_ids(fs, n).contains(id) <==> exists|i: int|
                0 <= i < n && (#[trigger] fs[i]).id == id,
    decreases n,
{
    if n > 0 {
        lemma_rule_ids(fs, (n - 1) as nat);
        assert forall|id: Seq<char>| #[trigger]
            rule_ids(fs, n).contains(id) <==> exists|i: int|
                0 <= i < n && (#[trigger] fs[i]).id == id by {
            assert(fs[n - 1].id == fs[n - 1].id);
        }
    }
}

/// What each rule of a list weighs.
spec fn rule_points(fs: Seq<FindingView>) -> spec_fn(Seq<char>) -> int {
    |id: Seq<char>| package::points(worst(fs, id))
}

proof fn lemma_weights_sum(fs: Seq<FindingView>, n: nat)
    requires
        n <= fs.len(),
    ensures
        weights(fs, n) == sum_over(rule_ids(fs, n), rule_points(fs)),
    decreases n,
{
    if n > 0 {
        let p = (n - 1) as nat;
        lemma_weights_sum(fs, p);
        lemma_rule_ids(fs, p);
        lemma_rule_ids(fs, n);
        let id = fs[n - 1].id;
        let before = rule_ids(fs, p);
        if is_first_of_rule(fs, n - 1) {
            assert(!before.contains(id));
            lemma_sum_over(rule_ids(fs, n), rule_points(fs), id);
            assert(rule_ids(fs, n).remove(id) =~= before);
        } else {
            let j = choose|j: int| 0 <= j < n - 1 && (#[trigger] fs[j]).id == id;
            assert(before.contains(id));
            assert(rule_ids(fs, n) =~= before);
        }
    }
}

/// `worst` is the highest severity that the rule has.
proof fn lemma_worst(fs: Seq<FindingView>, id: Seq<char>)
    ensures
        forall|i: int|
            0 <= i < fs.len() && (#[trigger] fs[i]).id == id ==> package::rank(fs[i].severity)
                <= package::rank(worst(fs, id)),
        worst(fs, id) == Severity::Info || exists|i: int|
            0 <= i < fs.len() && (#[trigger] fs[i]).id == id && fs[i].severity == worst(fs, id),
    decreases fs.len(),
{
    if fs.len() > 0 {
        let rest = fs.drop_last();
        lemma_worst(rest, id);
        assert forall|i: int| 0 <= i < fs.len() && (#[trigger] fs[i]).id == id implies package::rank(
            fs[i].severity,
        ) <= package::rank(worst(fs, id)) by {
            if i < fs.len() - 1 {
                assert(rest[i] == fs[i]);
            }
        }
        if worst(fs, id) != Severity::Info {
            if fs.last().id == id && fs.last().severity == worst(fs, id) {
                assert(fs[fs.len() - 1].id == id);
            } else {
                assert(worst(rest, id) == worst(fs, id));
                let i = choose|i: int|
                    0 <= i < rest.len() && (#[trigger] rest[i]).id == id && rest[i].severity
                        == worst(rest, id);
                assert(fs[i].id == id);
            }
        }
    }
}

/// Some finding of the list is of the rule of `f` and no less severe.
pub open spec fn is_covered(fs: Seq<FindingView>, f: FindingView) -> bool {
    exists|j: int|
        0 <= j < fs.len() && (#[trigger] fs[j]).id == f.id && package::rank(f.severity)
            <= package::rank(fs[j].severity)
}

/// Every rule of `fs` is in `other`, and there no less severe.
pub open spec fn covers(other: Seq<FindingView>, fs: Seq<FindingView>) -> bool {
    forall|i: int| 0 <= i < fs.len() ==> is_covered(other, #[trigger] fs[i])
}

/// The score depends on which rules matched and on how severe each was at
/// worst, and on nothing else: not on the order of the findings, nor on how
/// often a rule matched.
pub proof fn law_score_counts_rules(a: Seq<FindingView>, b: Seq<FindingView>)
    requires
        covers(a, b),
        covers(b, a),
    ensures
        score(a) == score(b),
        decision(a) == decision(b),
{
    lemma_weights_sum(a, a.len());
    lemma_weights_sum(b, b.len());
    lemma_rule_ids(a, a.len());
    lemma_rule_ids(b, b.len());
    lemma_covered_ids(a, b);
    lemma_covered_ids(b, a);
    assert(rule_ids(a, a.len()) =~= rule_ids(b, b.len()));
    assert forall|id: Seq<char>| #[trigger] rule_points(a)(id) == rule_points(b)(id) by {
        lemma_worst_le(a, b, id);
        lemma_worst_le(b, a, id);
        package::law_weight_follows_severity(worst(a, id), worst(b, id));
    }
    assert(rule_points(a) =~= rule_points(b));
    lemma_covered_critical(a, b);
    lemma_covered_critical(b, a);
}

proof fn lemma_covered_ids(a: Seq<FindingView>, b: Seq<FindingView>)
    requires
        covers(b, a),
    ensures
        rule_ids(a, a.len()).subset_of(rule_ids(b, b.len())),
{
    lemma_rule_ids(a, a.len());
    lemma_rule_ids(b, b.len());
    assert forall|id: Seq<char>| rule_ids(a, a.len()).contains(id) implies rule_ids(
        b,
        b.len(),
    ).contains(id) by {
        let i = choose|i: int| 0 <= i < a.len() && (#[trigger] a[i]).id == id;
        assert(is_covered(b, a[i]));
        let j = choose|j: int|
            0 <= j < b.len() && (#[trigger] b[j]).id == a[i].id && package::rank(a[i].severity)
                <= package::rank(b[j].severity);
        assert(b[j].id == id);
    }
}

proof fn lemma_covered_critical(a: Seq<FindingView>, b: Seq<FindingView>)
    requires
        covers(b, a),
    ensures
        has_critical(a) ==> has_critical(b),
{
    if has_critical(a) {
        let i = choose|i: int| 0 <= i < a.len() && (#[trigger] a[i]).severity == Severity::Critical;
        assert(is_covered(b, a[i]));
        let j = choose|j: int|
            0 <= j < b.len() && (#[trigger] b[j]).id == a[i].id && package::rank(a[i].severity)
                <= package::rank(b[j].severity);
        assert(b[j].severity == Severity::Critical);
    }
}

proof fn lemma_worst_le(a: Seq<FindingView>, b: Seq<FindingView>, id: Seq<char>)
    requires
        covers(b, a),
    ensures
        package::rank(worst(a, id)) <= package::rank(worst(b, id)),
{
    lemma_worst(a, id);
    lemma_worst(b, id);
    if worst(a, id) != Severity::Info {
        let i = choose|i: int|
            0 <= i < a.len() && (#[trigger] a[i]).id == id && a[i].severity == worst(a, id);
        assert(is_covered(b, a[i]));
        let j = choose|j: int|
            0 <= j < b.len() && (#[trigger] b[j]).id == a[i].id && package::rank(a[i].severity)
                <= package::rank(b[j].severity);
        assert(b[j].id == id);
    }
}

/// More findings never lower the score, and never turn a refusal into anything
/// else.
pub proof fn law_findings_only_raise(fs: Seq<FindingView>, f: FindingView)
    ensures
        score(fs) <= score(fs.push(f)),
        decision(fs) == Decision::Refused ==> decision(fs.push(f)) == Decision::Refused,
        decision(fs) == Decision::Review ==> decision(fs.push(f)) != Decision::Vouched,
{
    let gs = fs.push(f);
    lemma_weights_sum(fs, fs.len());
    lemma_weights_sum(gs, gs.len());
    lemma_rule_ids(fs, fs.len());
    lemma_rule_ids(gs, gs.len());
    assert forall|id: Seq<char>| package::rank(worst(fs, id)) <= package::rank(worst(gs, id)) by {
        assert(gs.drop_last() =~= fs);
    }
    let small = rule_ids(fs, fs.len());
    let large = rule_ids(gs, gs.len());
    assert(small.subset_of(large)) by {
        assert forall|id: Seq<char>| small.contains(id) implies large.contains(id) by {
            let i = choose|i: int| 0 <= i < fs.len() && (#[trigger] fs[i]).id == id;
            assert(gs[i].id == id);
        }
    }
    assert forall|id: Seq<char>|
        0 <= (#[trigger] rule_points(fs)(id)) <= rule_points(gs)(id) by {
        assert(package::rank(worst(fs, id)) <= package::rank(worst(gs, id)));
        package::law_weight_follows_severity(worst(gs, id), worst(fs, id));
    }
    lemma_sum_monotone(small, large, rule_points(fs), rule_points(gs));
    if has_critical(fs) {
        let i = choose|i: int|
            0 <= i < fs.len() && (#[trigger] fs[i]).severity == Severity::Critical;
        assert(gs[i].severity == Severity::Critical);
    }
}

proof fn lemma_sum_monotone(
    a: Set<Seq<char>>,
    b: Set<Seq<char>>,
    w: spec_fn(Seq<char>) -> int,
    v: spec_fn(Seq<char>) -> int,
)
    requires
        a.finite(),
        b.finite(),
        a.subset_of(b),
        forall|id: Seq<char>| 0 <= (#[trigger] w(id)) <= v(id),
    ensures
        0 <= sum_over(a, w) <= sum_over(b, v),
    decreases b.len(),
{
    if b.len() > 0 {
        let x = b.choose();
        assert(b.contains(x));
        assert(0 <= w(x) <= v(x));
        if a.contains(x) {
            lemma_sum_over(a, w, x);
            lemma_sum_monotone(a.remove(x), b.remove(x), w, v);
        } else {
            assert(a.subset_of(b.remove(x)));
            lemma_sum_monotone(a, b.remove(x), w, v);
        }
    } else {
        assert(b =~= Set::empty());
        assert(a =~= Set::empty());
    }
}

/// A verdict shows exactly the findings it was made of, each as often as it was
/// found.
pub proof fn law_findings_are_kept(fs: Seq<FindingView>)
    ensures
        worst_first(fs).to_multiset() == fs.to_multiset(),
        forall|f: FindingView| worst_first(fs).contains(f) <==> fs.contains(f),
{
    let c = of_severity(fs, Severity::Critical);
    let h = of_severity(fs, Severity::High);
    let m = of_severity(fs, Severity::Medium);
    let l = of_severity(fs, Severity::Low);
    let i = of_severity(fs, Severity::Info);
    vstd::seq_lib::lemma_multiset_commutative(c, h);
    vstd::seq_lib::lemma_multiset_commutative(c + h, m);
    vstd::seq_lib::lemma_multiset_commutative(c + h + m, l);
    vstd::seq_lib::lemma_multiset_commutative(c + h + m + l, i);
    assert forall|f: FindingView|
        worst_first(fs).to_multiset().count(f) == fs.to_multiset().count(f) by {
        lemma_count(fs, Severity::Critical, f);
        lemma_count(fs, Severity::High, f);
        lemma_count(fs, Severity::Medium, f);
        lemma_count(fs, Severity::Low, f);
        lemma_count(fs, Severity::Info, f);
    }
    assert(worst_first(fs).to_multiset() =~= fs.to_multiset());
    worst_first(fs).to_multiset_ensures();
    fs.to_multiset_ensures();
    assert forall|f: FindingView| worst_first(fs).contains(f) <==> fs.contains(f) by {
        assert(worst_first(fs).contains(f) <==> worst_first(fs).to_multiset().count(f) > 0);
        assert(fs.contains(f) <==> fs.to_multiset().count(f) > 0);
    }
}

/// How often a finding is among those of a severity.
proof fn lemma_count(fs: Seq<FindingView>, s: Severity, f: FindingView)
    ensures
        of_severity(fs, s).to_multiset().count(f) == (if f.severity == s {
            fs.to_multiset().count(f)
        } else {
            0
        }),
    decreases fs.len(),
{
    reveal(Seq::filter);
    if fs.len() == 0 {
        fs.to_multiset_ensures();
        assert(of_severity(fs, s) =~= fs);
        assert(!fs.contains(f));
    } else {
        let rest = fs.drop_last();
        lemma_count(rest, s, f);
        assert(fs =~= rest.push(fs.last()));
        rest.to_multiset_ensures();
        of_severity(rest, s).to_multiset_ensures();
        assert(fs.to_multiset() =~= rest.to_multiset().insert(fs.last()));
        if fs.last().severity == s {
            assert(of_severity(fs, s) =~= of_severity(rest, s).push(fs.last()));
            assert(of_severity(fs, s).to_multiset() =~= of_severity(rest, s).to_multiset().insert(
                fs.last(),
            ));
        } else {
            assert(of_severity(fs, s) =~= of_severity(rest, s));
        }
    }
}

/// A finding of a rule that was not found before adds the weight of its severity,
/// up to a hundred in all: 3 for a low one, 8 for a medium one, 20 for a high one
/// and 40 for a critical one.
pub proof fn law_new_rule_adds_its_weight(fs: Seq<FindingView>, f: FindingView)
    requires
        forall|i: int| 0 <= i < fs.len() ==> (#[trigger] fs[i]).id != f.id,
    ensures
        ({
            let sum = score(fs) + match f.severity {
                Severity::Info => 0int,
                Severity::Low => 3,
                Severity::Medium => 8,
                Severity::High => 20,
                Severity::Critical => 40,
            };
            score(fs.push(f)) == if sum < 100 {
                sum
            } else {
                100
            }
        }),
{
    let gs = fs.push(f);
    let n = fs.len();
    lemma_weights_keep(fs, f, n);
    lemma_weights_nonnegative(fs, n);
    lemma_worst(fs, f.id);
    if worst(fs, f.id) != Severity::Info {
        let i = choose|i: int|
            0 <= i < fs.len() && (#[trigger] fs[i]).id == f.id && fs[i].severity == worst(
                fs,
                f.id,
            );
        assert(fs[i].id != f.id);
    }
    assert(gs.drop_last() =~= fs);
    assert(is_first_of_rule(gs, n as int)) by {
        assert forall|j: int| 0 <= j < n implies (#[trigger] gs[j]).id != gs[n as int].id by {
            assert(gs[j] == fs[j]);
        }
    }
    assert(worst(gs, f.id) == f.severity);
    assert(weights(gs, gs.len()) == weights(gs, n) + package::points(f.severity));
}

proof fn lemma_weights_keep(fs: Seq<FindingView>, f: FindingView, n: nat)
    requires
        n <= fs.len(),
        forall|i: int| 0 <= i < fs.len() ==> (#[trigger] fs[i]).id != f.id,
    ensures
        weights(fs.push(f), n) == weights(fs, n),
    decreases n,
{
    if n > 0 {
        let gs = fs.push(f);
        lemma_weights_keep(fs, f, (n - 1) as nat);
        assert(gs.drop_last() =~= fs);
        assert(gs[n - 1] == fs[n - 1]);
        assert(is_first_of_rule(gs, n - 1) == is_first_of_rule(fs, n - 1)) by {
            if is_first_of_rule(fs, n - 1) {
                assert forall|j: int| 0 <= j < n - 1 implies (#[trigger] gs[j]).id != gs[n - 1].id by {
                    assert(gs[j] == fs[j]);
                }
            }
            if is_first_of_rule(gs, n - 1) {
                assert forall|j: int| 0 <= j < n - 1 implies (#[trigger] fs[j]).id != fs[n - 1].id by {
                    assert(gs[j] == fs[j]);
                }
            }
        }
    }
}

/// A verdict shows its findings by severity, the worst first, and leaves those of
/// one severity in the order in which they were found.
pub proof fn law_worst_comes_first(fs: Seq<FindingView>, i: int, j: int, s: Severity)
    ensures
        0 <= i < j < worst_first(fs).len() ==> package::rank(worst_first(fs)[i].severity)
            >= package::rank(worst_first(fs)[j].severity),
        worst_first(fs).filter(|f: FindingView| f.severity == s) == fs.filter(
            |f: FindingView| f.severity == s,
        ),
{
    let c = of_severity(fs, Severity::Critical);
    let h = of_severity(fs, Severity::High);
    let m = of_severity(fs, Severity::Medium);
    let l = of_severity(fs, Severity::Low);
    let n = of_severity(fs, Severity::Info);
    lemma_one_severity(fs, Severity::Critical, s);
    lemma_one_severity(fs, Severity::High, s);
    lemma_one_severity(fs, Severity::Medium, s);
    lemma_one_severity(fs, Severity::Low, s);
    lemma_one_severity(fs, Severity::Info, s);
    let keep = |f: FindingView| f.severity == s;
    Seq::filter_distributes_over_add(c + h + m + l, n, keep);
    Seq::filter_distributes_over_add(c + h + m, l, keep);
    Seq::filter_distributes_over_add(c + h, m, keep);
    Seq::filter_distributes_over_add(c, h, keep);
    assert(worst_first(fs).filter(keep) =~= of_severity(fs, s));
}

proof fn lemma_one_severity(fs: Seq<FindingView>, a: Severity, s: Severity)
    ensures
        forall|i: int|
            0 <= i < of_severity(fs, a).len() ==> (#[trigger] of_severity(fs, a)[i]).severity == a,
        of_severity(of_severity(fs, a), s) == (if a == s {
            of_severity(fs, a)
        } else {
            Seq::empty()
        }),
    decreases fs.len(),
{
    reveal(Seq::filter);
    if fs.len() > 0 {
        let rest = fs.drop_last();
        lemma_one_severity(rest, a, s);
        let before = of_severity(rest, a);
        let now = of_severity(fs, a);
        if fs.last().severity == a {
            assert(now =~= before.push(fs.last()));
            assert(now.drop_last() =~= before);
            assert forall|i: int| 0 <= i < now.len() implies (#[trigger] now[i]).severity == a by {
                if i < before.len() {
                    assert(now[i] == before[i]);
                }
            }
        }
    } else {
        assert(of_severity(fs, a) =~= Seq::<FindingView>::empty());
    }
}

} // verus!
