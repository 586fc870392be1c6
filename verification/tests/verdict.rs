use vouch::gate::{exit_code_for, gate, second_gate, unique_build_dir, Gate};
use vouch::ioc::Indicators;
use vouch::package::{Decision, Finding, PackageMeta, Severity, Verdict};
use vouch::recipe::SourceBundle;
use vouch::report::{
    decision_color, finding_lines, maintainer, mark, pad, place_suffix, risk, severity_color, verb,
    Tone,
};
use vouch::score::build_verdict;
use vouch::{security, trust};

fn finding(id: &str, severity: Severity) -> Finding {
    Finding::new(id, severity, "t".to_string(), "d", None)
}

fn meta() -> PackageMeta {
    PackageMeta {
        name: "app".to_string(),
        package_base: "app-base".to_string(),
        version: "1-1".to_string(),
        description: None,
        maintainer: Some("jane".to_string()),
        num_votes: 1820,
        popularity_bits: 22.4f64.to_bits(),
        first_submitted: 0,
        last_modified: 1_000_000,
        out_of_date: None,
        url: None,
        depends: vec!["a".to_string()],
        make_depends: vec!["b".to_string()],
        check_depends: vec!["c".to_string(), "d".to_string()],
    }
}

fn bundle(pkgbuild: &str) -> SourceBundle {
    SourceBundle {
        package_base: "app-base".to_string(),
        pkgbuild: pkgbuild.to_string(),
        install_files: vec![],
    }
}

#[test]
fn weights_and_labels() {
    let all = [
        (Severity::Info, 0, "INFO"),
        (Severity::Low, 3, "LOW"),
        (Severity::Medium, 8, "MEDIUM"),
        (Severity::High, 20, "HIGH"),
        (Severity::Critical, 40, "CRITICAL"),
    ];
    for (s, weight, label) in all {
        assert_eq!(s.weight(), weight);
        assert_eq!(s.label(), label);
    }
    assert_eq!(Severity::Low.worse_of(Severity::High), Severity::High);
    assert_eq!(Severity::High.worse_of(Severity::Low), Severity::High);
    assert_eq!(Decision::Vouched.label(), "VOUCHED");
    assert_eq!(Decision::Review.label(), "REVIEW REQUIRED");
    assert_eq!(Decision::Refused.label(), "REFUSED");
}

#[test]
fn build_dependencies_in_order() {
    assert_eq!(meta().build_deps(), vec!["a", "b", "c", "d"]);
}

#[test]
fn no_findings_is_vouched() {
    let v = build_verdict("p", vec![]);
    assert_eq!((v.package.as_str(), v.score, v.decision), ("p", 0, Decision::Vouched));
    assert_eq!(v.highest_severity(), None);
}

#[test]
fn thresholds_decide() {
    // 20 + 3 = 23: vouched; 20 + 3 + 3 = 26: review; 3 * 20 = 60: refused.
    let v = build_verdict("p", vec![finding("a", Severity::High), finding("b", Severity::Low)]);
    assert_eq!((v.score, v.decision), (23, Decision::Vouched));
    let v = build_verdict(
        "p",
        vec![
            finding("a", Severity::High),
            finding("b", Severity::Low),
            finding("c", Severity::Low),
        ],
    );
    assert_eq!((v.score, v.decision), (26, Decision::Review));
    let v = build_verdict(
        "p",
        vec![
            finding("a", Severity::High),
            finding("b", Severity::High),
            finding("c", Severity::High),
        ],
    );
    assert_eq!((v.score, v.decision), (60, Decision::Refused));
}

#[test]
fn one_critical_finding_refuses() {
    let v = build_verdict("p", vec![finding("a", Severity::Critical)]);
    assert_eq!((v.score, v.decision), (40, Decision::Refused));
}

#[test]
fn a_rule_counts_once_at_its_worst() {
    let v = build_verdict(
        "p",
        vec![
            finding("a", Severity::Low),
            finding("a", Severity::High),
            finding("b", Severity::Medium),
            finding("a", Severity::Medium),
        ],
    );
    assert_eq!(v.score, 28);
    assert_eq!(v.highest_severity(), Some(Severity::High));
}

#[test]
fn score_is_capped() {
    let many = (0..40)
        .map(|i| finding(&format!("r{i}"), Severity::High))
        .collect();
    assert_eq!(build_verdict("p", many).score, 100);
}

#[test]
fn worst_findings_come_first() {
    let v = build_verdict(
        "p",
        vec![
            finding("i", Severity::Info),
            finding("h1", Severity::High),
            finding("l", Severity::Low),
            finding("h2", Severity::High),
            finding("c", Severity::Critical),
            finding("m", Severity::Medium),
        ],
    );
    let ids: Vec<&str> = v.findings.iter().map(|f| f.id.as_str()).collect();
    assert_eq!(ids, vec!["c", "h1", "h2", "m", "l", "i"]);
}

#[test]
fn order_and_repetition_do_not_change_the_score() {
    let a = vec![
        finding("x", Severity::High),
        finding("y", Severity::Low),
        finding("x", Severity::Info),
    ];
    let b = vec![finding("y", Severity::Low), finding("x", Severity::High)];
    assert_eq!(build_verdict("p", a).score, build_verdict("p", b).score);
}

#[test]
fn trust_signals() {
    let mut m = meta();
    assert!(trust::evaluate(&m).is_empty());
    m.maintainer = None;
    m.num_votes = 9;
    let found = trust::evaluate(&m);
    assert_eq!(found.len(), 2);
    assert_eq!((found[0].id.as_str(), found[0].severity), ("trust.orphaned", Severity::High));
    assert_eq!((found[1].id.as_str(), found[1].severity), ("trust.low-votes", Severity::Low));
    assert_eq!(found[1].title, "Low community trust (9 votes)");
    m.num_votes = 10;
    assert_eq!(trust::evaluate(&m).len(), 1);
}

#[test]
fn recency_is_judged_by_the_given_time() {
    let mut m = meta();
    let week = 7 * 24 * 3600;
    assert!(trust::evaluate_at(&m, m.last_modified - 1).is_empty());
    assert_eq!(trust::evaluate_at(&m, m.last_modified)[0].id, "trust.recent-update");
    assert_eq!(trust::evaluate_at(&m, m.last_modified + week).len(), 1);
    assert!(trust::evaluate_at(&m, m.last_modified + week + 1).is_empty());
    m.out_of_date = Some(5);
    let found = trust::evaluate_at(&m, m.last_modified + week + 1);
    assert_eq!((found[0].id.as_str(), found[0].severity), ("trust.out-of-date", Severity::Info));
    // The extremes of the clock do not overflow.
    m.out_of_date = None;
    m.last_modified = i64::MIN;
    assert!(trust::evaluate_at(&m, i64::MAX).is_empty());
}

#[test]
fn evaluation_gathers_all_sources() {
    let mut m = meta();
    m.maintainer = Some("evil".to_string());
    m.num_votes = 0;
    let mut ind = Indicators::builtin();
    ind.bad_maintainers.insert("evil".to_string());
    let v = security::evaluate(&m, &bundle("eval x\njs-digest\n"), &ind, 0);
    let ids: Vec<&str> = v.findings.iter().map(|f| f.id.as_str()).collect();
    assert_eq!(
        ids,
        vec!["ioc.bad-maintainer", "ioc.bad-string", "scan.eval", "trust.low-votes"]
    );
    assert_eq!(v.package, "app");
    assert_eq!(v.score, 91);
    assert_eq!(v.decision, Decision::Refused);
}

#[test]
fn scanning_alone_needs_no_metadata() {
    let mut ind = Indicators::default();
    ind.bad_package_names.insert("app".to_string());
    let v = security::scan_only("app", &bundle("eval x\n"), &ind);
    let ids: Vec<&str> = v.findings.iter().map(|f| f.id.as_str()).collect();
    assert_eq!(ids, vec!["ioc.bad-package", "scan.eval"]);
    let v = security::scan_only("other", &bundle("make\n"), &ind);
    assert_eq!((v.package.as_str(), v.score, v.decision), ("other", 0, Decision::Vouched));
}

fn verdict(score: u32, decision: Decision) -> Verdict {
    Verdict {
        package: "p".to_string(),
        score,
        decision,
        findings: vec![],
    }
}

#[test]
fn gate_needs_the_right_flag() {
    assert!(matches!(gate(&verdict(0, Decision::Vouched), false, false), Gate::Pass));
    assert!(matches!(gate(&verdict(30, Decision::Review), false, true), Gate::Pass));
    assert!(matches!(gate(&verdict(70, Decision::Refused), true, false), Gate::Overridden));
    match gate(&verdict(30, Decision::Review), true, false) {
        Gate::Stop { code, message } => {
            assert_eq!(code, 1);
            assert_eq!(
                message,
                "verdict is REVIEW REQUIRED (risk 30/100). Read the findings above, then re-run with --yes to proceed."
            );
        }
        other => panic!("expected a stop, got {other:?}"),
    }
    match gate(&verdict(70, Decision::Refused), false, true) {
        Gate::Stop { code, message } => {
            assert_eq!(code, 2);
            assert_eq!(
                message,
                "verdict is REFUSED (risk 70/100). vouch will not build this. Override with --force only if you fully understand the findings."
            );
        }
        other => panic!("expected a stop, got {other:?}"),
    }
}

#[test]
fn cloned_recipe_is_gated_when_worse() {
    let first = verdict(40, Decision::Review);
    let second = |v: Verdict| second_gate(&first, &v, false, true);
    assert!(matches!(second(verdict(41, Decision::Review)), Some(Gate::Pass)));
    assert!(matches!(
        second(verdict(40, Decision::Refused)),
        Some(Gate::Stop { code: 2, .. })
    ));
    assert!(second(verdict(40, Decision::Review)).is_none());
    assert!(second(verdict(10, Decision::Vouched)).is_none());
    // What needs review after all stops without a yes.
    let vouched = verdict(10, Decision::Vouched);
    assert!(matches!(
        second_gate(&vouched, &verdict(40, Decision::Review), true, false),
        Some(Gate::Stop { .. })
    ));
}

#[test]
fn more_findings_never_help() {
    let few = vec![finding("a", Severity::High)];
    let mut more = few.clone();
    more.push(finding("b", Severity::Info));
    more.push(finding("a", Severity::Critical));
    let (few, more) = (build_verdict("p", few), build_verdict("p", more));
    assert!(few.score <= more.score);
    assert_eq!((few.decision, more.decision), (Decision::Vouched, Decision::Refused));
}

#[test]
fn built_in_names_refuse_in_any_case() {
    let mut feed = Indicators::default();
    feed.bad_maintainers.insert("jane".to_string());
    let ind = Indicators::load_default(Some(feed));
    for name in ["Atomic-LockFile", "JS-DIGEST", "lockfile-js"] {
        let v = security::scan_only("app", &bundle(name), &ind);
        assert_eq!(v.decision, Decision::Refused);
        assert!(v.findings.iter().all(|f| !f.id.starts_with("trust.") && f.id != "ioc.bad-maintainer"));
    }
}

#[test]
fn metadata_does_not_help_a_bad_recipe() {
    let recipe = bundle("npm install x\n");
    let ind = Indicators::builtin();
    assert_eq!(security::scan_only("app", &recipe, &ind).decision, Decision::Refused);
    assert_eq!(security::evaluate(&meta(), &recipe, &ind, 0).decision, Decision::Refused);
}

#[test]
fn exit_codes() {
    assert_eq!(exit_code_for(Decision::Vouched), 0);
    assert_eq!(exit_code_for(Decision::Review), 1);
    assert_eq!(exit_code_for(Decision::Refused), 2);
}

#[test]
fn presentation() {
    assert_eq!(mark(Severity::Critical), "✗");
    assert_eq!(mark(Severity::High), "✗");
    assert_eq!(mark(Severity::Medium), "!");
    assert_eq!(mark(Severity::Low), "·");
    assert_eq!(mark(Severity::Info), "·");
    assert_eq!(place_suffix(Some("PKGBUILD:7")), " [PKGBUILD:7]");
    assert_eq!(place_suffix(None), "");
    assert_eq!(severity_color(Severity::High), Tone::BrightRed);
    assert_eq!(decision_color(Decision::Vouched), Tone::Green);
    assert_eq!(pad("LOW", 8), "LOW     ");
    assert_eq!(pad("CRITICAL", 3), "CRITICAL");
    assert_eq!(risk(60), "(risk 60/100)");
    let mut m = meta();
    assert_eq!(maintainer(&m), "jane");
    m.maintainer = None;
    assert_eq!(maintainer(&m), "(orphaned)");
    let mut f = finding("a", Severity::Medium);
    f.location = Some("x:1".to_string());
    let lines = finding_lines(&vec![f]);
    assert_eq!(
        (lines[0].mark, lines[0].label.as_str(), lines[0].title.as_str(), lines[0].place.as_str()),
        ("!", "MEDIUM  ", "t", " [x:1]")
    );
    assert_eq!(lines[0].tone, Tone::Yellow);
    assert_eq!(verb(Decision::Vouched), "vouches for this package");
    assert_eq!(verb(Decision::Review), "needs your review before installing");
    assert_eq!(verb(Decision::Refused), "refuses to install this package");
    assert_eq!(
        unique_build_dir("/tmp", "foo", 123456789012345678901234567890),
        "/tmp/vouch-build-foo-123456789012345678901234567890"
    );
}
