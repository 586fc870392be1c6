use vouch::digest::sha256_hex;
use vouch::ioc::{check_file, import_feed, user_feed_path, Indicators};
use vouch::names::NameSet;
use vouch::package::Severity;

#[test]
fn builtin_flags_atomic_arch_payload() {
    let ind = Indicators::builtin();
    let findings = ind.scan_content(&[(
        "PKGBUILD",
        "source=('https://r.example/atomic-lockfile.tgz')\nbuild() { :; }\n",
    )]);
    assert_eq!(findings.len(), 1);
    assert_eq!(findings[0].id, "ioc.bad-string");
    assert_eq!(findings[0].severity, Severity::Critical);
}

#[test]
fn clean_content_is_clean() {
    let ind = Indicators::builtin();
    assert!(ind
        .scan_content(&[("PKGBUILD", "pkgname=foo\nbuild() { make; }\n")])
        .is_empty());
}

#[test]
fn matches_bad_maintainer_and_package() {
    let mut ind = Indicators::default();
    ind.bad_maintainers.insert("evil-acct".into());
    ind.bad_package_names.insert("totally-legit".into());
    assert_eq!(ind.check_meta("totally-legit", Some("someone")).len(), 1);
    assert_eq!(ind.check_meta("ok", Some("evil-acct")).len(), 1);
    assert!(ind.check_meta("ok", Some("good")).is_empty());
}

#[test]
fn matches_known_hash() {
    let content = "malware\n";
    let mut ind = Indicators::default();
    ind.bad_sha256.insert(sha256_hex(content.as_bytes()));
    let findings = ind.scan_content(&[("evil.install", content)]);
    assert_eq!(findings.len(), 1);
    assert_eq!(findings[0].id, "ioc.bad-hash");
}

#[test]
fn merge_combines_sets() {
    let mut a = Indicators::builtin();
    let n0 = a.total();
    let mut b = Indicators::default();
    b.bad_strings.insert("new-bad-thing".into());
    a.merge(b);
    assert_eq!(a.total(), n0 + 1);
}

#[test]
fn strings_match_whatever_their_case() {
    let mut ind = Indicators::default();
    ind.bad_strings.insert("Ärger-Domain".into());
    let found = ind.scan_content(&[("PKGBUILD", "x"), ("a.install", "curl ÄRGER-DOMAIN/x")]);
    assert_eq!(found.len(), 1);
    assert_eq!(found[0].title, "Recipe references known IoC 'ärger-domain'");
    assert_eq!(found[0].location.as_deref(), Some("a.install"));
}

#[test]
fn digests_are_sha256() {
    assert_eq!(
        sha256_hex(b"abc"),
        "ba7816bf8f01cfea414140de5dae2223b00361a396177a9cb410ff61f20015ad"
    );
    assert_eq!(
        sha256_hex(b""),
        "e3b0c44298fc1c149afbf4c8996fb92427ae41e4649b934ca495991b7852b855"
    );
}

#[test]
fn findings_name_what_matched() {
    let mut ind = Indicators::default();
    ind.bad_maintainers.insert("m".into());
    ind.bad_package_names.insert("p".into());
    let found = ind.check_meta("p", Some("m"));
    assert_eq!(found.len(), 2);
    assert_eq!(found[0].id, "ioc.bad-package");
    assert_eq!(found[0].title, "Package 'p' is on a known-malicious list");
    assert_eq!(found[1].id, "ioc.bad-maintainer");
    assert_eq!(found[1].title, "Maintainer 'm' is a known-bad account");
    assert!(found.iter().all(|f| f.severity == Severity::Critical));
    assert!(ind.check_meta("x", None).is_empty());
}

#[test]
fn files_are_checked_in_order() {
    let mut hashes = NameSet::new();
    hashes.insert("d1".to_string());
    let needles = vec!["one".to_string(), "two".to_string()];
    let found = check_file(&needles, &hashes, "f", "two one", Some("d1"));
    let ids: Vec<&str> = found.iter().map(|f| f.id.as_str()).collect();
    assert_eq!(ids, vec!["ioc.bad-string", "ioc.bad-string", "ioc.bad-hash"]);
    assert_eq!(found[0].title, "Recipe references known IoC 'one'");
    assert_eq!(found[2].title, "File 'f' matches a known-malicious hash");
    assert!(check_file(&needles, &hashes, "f", "three", Some("d2")).is_empty());
}

#[test]
fn feeds_extend_the_baseline() {
    let mut feed = Indicators::default();
    feed.bad_maintainers.insert("x".into());
    let all = Indicators::load_default(Some(feed));
    assert_eq!(all.total(), 4);
    assert!(all.bad_strings.contains("js-digest"));
    assert_eq!(Indicators::load_default(None).total(), 3);

    let mut stored = Indicators::default();
    stored.bad_sha256.insert("00".into());
    let mut incoming = Indicators::default();
    incoming.bad_sha256.insert("00".into());
    incoming.bad_sha256.insert("11".into());
    let merged = import_feed(Some(stored), incoming);
    assert_eq!(merged.total(), 2);
    let mut again = Indicators::default();
    again.bad_sha256.insert("11".into());
    assert_eq!(import_feed(Some(merged), again).total(), 2);
    assert_eq!(import_feed(None, Indicators::builtin()).total(), 3);
}

#[test]
fn feed_lives_in_the_data_directory() {
    assert_eq!(
        user_feed_path(Some("/xdg"), Some("/home/me")),
        Some("/xdg/vouch/ioc.json".to_string())
    );
    assert_eq!(
        user_feed_path(Some("/xdg/"), None),
        Some("/xdg/vouch/ioc.json".to_string())
    );
    assert_eq!(
        user_feed_path(None, Some("/home/me")),
        Some("/home/me/.local/share/vouch/ioc.json".to_string())
    );
    assert_eq!(user_feed_path(Some(""), None), None);
}
