use vouch::devel::{
    default_path, entry_has_new_commits, has_vcs_sources, ls_remote, parse_vcs_sources,
    remote_queries, resolve_current, DevelDb, DevelEntry, Reference,
};
use vouch::names::NameMap;

fn sources(pairs: &[(&str, &str)]) -> NameMap<String> {
    let mut m = NameMap::new();
    for (k, v) in pairs {
        m.insert(k.to_string(), v.to_string());
    }
    m
}

#[test]
fn parses_plain_git_head_source() {
    let pkgbuild = "source=('myapp::git+https://github.com/foo/bar.git')\n";
    let s = parse_vcs_sources(pkgbuild);
    assert_eq!(s.len(), 1);
    assert_eq!(s[0].vcs, "git");
    assert_eq!(s[0].url, "https://github.com/foo/bar.git");
    assert_eq!(s[0].reference, Reference::Head);
}

#[test]
fn parses_branch_and_pins() {
    let branch = parse_vcs_sources("source=(git+https://x/y.git#branch=dev)");
    assert_eq!(branch[0].reference, Reference::Branch("dev".into()));

    for frag in ["#commit=abcdef", "#tag=v1.2.3", "#revision=42"] {
        let s = parse_vcs_sources(&format!("source=(git+https://x/y.git{frag})"));
        assert_eq!(s[0].reference, Reference::Pinned, "fragment {frag}");
        assert_eq!(s[0].url, "https://x/y.git");
    }
}

#[test]
fn parses_multiple_mixed_sources() {
    let pkgbuild = "\
source=('LICENSE'
        'app::git+https://github.com/a/b.git#branch=main'
        'lib::git+https://gitlab.com/c/d.git')\n";
    let s = parse_vcs_sources(pkgbuild);
    assert_eq!(s.len(), 2);
    assert!(has_vcs_sources(pkgbuild));
    assert!(!has_vcs_sources("source=('only-a-tarball-1.0.tar.gz')"));
}

#[test]
fn new_commit_detection() {
    let entry = DevelEntry {
        recorded_at: 0,
        sources: sources(&[("https://x/y.git", "aaaa")]),
    };
    // same commit -> no change
    let same = sources(&[("https://x/y.git", "aaaa")]);
    assert!(!entry_has_new_commits(&entry, &same));
    // advanced commit -> change
    let moved = sources(&[("https://x/y.git", "bbbb")]);
    assert!(entry_has_new_commits(&entry, &moved));
    // a brand-new source -> change
    let added = sources(&[("https://x/z.git", "cccc")]);
    assert!(entry_has_new_commits(&entry, &added));
    // nothing resolvable right now -> no invented upgrade
    assert!(!entry_has_new_commits(&entry, &sources(&[])));
}

/// The database that is opened on what another one would store.
fn reopen(db: &DevelDb) -> DevelDb {
    let mut stored = NameMap::new();
    for package in db.tracked_packages() {
        let entry = db.get(package).unwrap();
        let mut sources = NameMap::new();
        for url in entry.sources.keys() {
            sources.insert(url.clone(), entry.sources.get(url).unwrap().clone());
        }
        stored.insert(
            package.clone(),
            DevelEntry {
                recorded_at: entry.recorded_at,
                sources,
            },
        );
    }
    DevelDb::open(db.path(), Some(stored))
}

#[test]
fn record_load_forget_roundtrip() {
    let mut db = DevelDb::open("/data/devel.json", None);
    db.record(
        "session-desktop",
        sources(&[("https://x/y.git", "deadbeef")]),
        123,
    );

    let db2 = reopen(&db);
    assert!(db2.is_tracked("session-desktop"));
    let entry = db2.get("session-desktop").unwrap();
    assert_eq!(entry.recorded_at, 123);
    assert_eq!(entry.sources.get("https://x/y.git").unwrap(), "deadbeef");

    let mut db3 = reopen(&db);
    assert!(db3.forget("session-desktop"));
    assert!(!db3.forget("session-desktop"));
    assert!(db3.get("session-desktop").is_none());
    assert!(!reopen(&db3).is_tracked("session-desktop"));
}

#[test]
fn sources_of_two_texts_add_up() {
    let a = "source=(git+http://a svn+http://b)";
    let b = "hg+http://c git+http://d#branch=x";
    let by = |text: &str, kind: &str| -> Vec<String> {
        parse_vcs_sources(text)
            .into_iter()
            .filter(|s| s.vcs == kind)
            .map(|s| s.url)
            .collect()
    };
    for kind in ["git", "svn", "hg", "bzr"] {
        let mut both = by(a, kind);
        both.extend(by(b, kind));
        assert_eq!(by(&format!("{a}\n{b}"), kind), both);
    }
    assert_eq!(by(&format!("{a}\n{b}"), "git"), vec!["http://a", "http://d"]);
}

#[test]
fn sources_come_by_kind() {
    let s = parse_vcs_sources("source=(hg+http://h/x svn+http://s/y git+http://g/z bzr+http://b/w)");
    let kinds: Vec<&str> = s.iter().map(|x| x.vcs.as_str()).collect();
    assert_eq!(kinds, vec!["git", "svn", "hg", "bzr"]);
    assert_eq!(s[1].url, "http://s/y");
}

#[test]
fn fragments_with_several_parts() {
    let reference = |frag: &str| {
        parse_vcs_sources(&format!("git+https://x/y.git{frag}"))
            .remove(0)
            .reference
    };
    assert_eq!(reference("#"), Reference::Head);
    assert_eq!(reference("#branch="), Reference::Pinned);
    assert_eq!(
        reference("#signed&branch=next"),
        Reference::Branch("next".into())
    );
    assert_eq!(reference("#branch=a&branch=b"), Reference::Branch("a".into()));
    assert_eq!(reference("#signed"), Reference::Pinned);
}

#[test]
fn sources_without_url_are_skipped() {
    assert!(parse_vcs_sources("git+ git+#branch=x 'git+'").is_empty());
    assert!(!has_vcs_sources("git+"));
}

#[test]
fn pinned_and_foreign_kinds_are_not_asked() {
    let pkgbuild = "source=(git+https://a/a.git#tag=v1 svn+https://b/b git+https://c/c.git \
                    git+https://d/d.git#branch=dev)";
    let q = remote_queries(pkgbuild);
    let got: Vec<(&str, &str)> = q.iter().map(|x| (x.url.as_str(), x.refname.as_str())).collect();
    assert_eq!(got, vec![("https://c/c.git", "HEAD"), ("https://d/d.git", "dev")]);

    let current = resolve_current(pkgbuild, &vec![None, Some("abc".to_string())]);
    assert_eq!(current.keys(), &vec!["https://d/d.git".to_string()]);
    assert_eq!(current.get("https://d/d.git").unwrap(), "abc");
}

#[test]
fn last_answer_for_a_url_stays() {
    let pkgbuild = "git+https://a/a.git git+https://a/a.git#branch=dev";
    let current = resolve_current(
        pkgbuild,
        &vec![Some("one".to_string()), Some("two".to_string())],
    );
    assert_eq!(current.get("https://a/a.git").unwrap(), "two");
    assert_eq!(current.keys().len(), 1);
}

#[test]
fn listing_gives_first_hash() {
    assert_eq!(
        ls_remote(Some("ABCDEF12\trefs/heads/x\n99\tHEAD\n")),
        Some("abcdef12".to_string())
    );
    assert_eq!(ls_remote(Some("")), None);
    assert_eq!(ls_remote(Some("\nabc\tHEAD\n")), None);
    assert_eq!(ls_remote(None), None);
}

#[test]
fn recording_nothing_drops_the_package() {
    let mut db = DevelDb::open("/data/devel.json", None);
    db.record("a", sources(&[("u", "1")]), 1);
    db.record("b", sources(&[("v", "2")]), 2);
    db.record("a", sources(&[]), 3);
    assert!(!db.is_tracked("a"));
    assert_eq!(db.tracked_packages(), &vec!["b".to_string()]);
    // A new record replaces the old one.
    db.record("b", sources(&[("w", "3")]), 4);
    assert_eq!(db.get("b").unwrap().recorded_at, 4);
    assert!(db.get("b").unwrap().sources.get("v").is_none());
}

#[test]
fn database_starts_with_what_was_stored() {
    let mut stored = NameMap::new();
    stored.insert(
        "pkg".to_string(),
        DevelEntry {
            recorded_at: 7,
            sources: sources(&[("u", "1")]),
        },
    );
    let db = DevelDb::open_default(Some("/xdg"), Some("/home/me"), Some(stored)).unwrap();
    assert_eq!(db.path(), "/xdg/vouch/devel.json");
    assert!(db.is_tracked("pkg"));
    assert!(DevelDb::open_default(None, None, None).is_none());
    assert_eq!(
        default_path(Some(""), Some("/home/me")),
        Some("/home/me/.local/share/vouch/devel.json".to_string())
    );
    assert_eq!(default_path(None, None), None);
}
