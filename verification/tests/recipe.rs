use vouch::recipe::{
    bundle_of, clone, fetch, install_names, load_local, local_base, plain_url,
    referenced_install_files, SourceBundle, SourceFile,
};

fn file(name: &str, content: &str) -> SourceFile {
    SourceFile {
        name: name.to_string(),
        content: content.to_string(),
    }
}

#[test]
fn recipe_comes_first_among_files() {
    let bundle = SourceBundle {
        package_base: "p".to_string(),
        pkgbuild: "x".to_string(),
        install_files: vec![file("b", "1"), file("a", "2")],
    };
    assert_eq!(
        bundle.files(),
        vec![("PKGBUILD", "x"), ("b", "1"), ("a", "2")]
    );
}

#[test]
fn files_are_addressed_by_base() {
    assert_eq!(
        plain_url("foo", "PKGBUILD"),
        "https://aur.archlinux.org/cgit/aur.git/plain/PKGBUILD?h=foo"
    );
}

#[test]
fn install_declarations_are_found() {
    let recipe = "pkgname=foo\ninstall=foo.install\n  install='$pkgname.install'\ninstall=\"${pkgbase}-x.install\"\n#install=no\nmyinstall=no\ninstall=foo.install\n";
    assert_eq!(
        referenced_install_files(recipe, "foo"),
        vec!["foo.install", "foo-x.install"]
    );
    assert!(referenced_install_files("pkgname=foo\n", "foo").is_empty());
}

#[test]
fn variables_are_resolved_in_names() {
    let found = |raw: &str| vec![(Some(raw.to_string()), None, 0, 0)];
    assert_eq!(install_names(&found("${pkgname}.install"), "b"), vec!["b.install"]);
    assert_eq!(install_names(&found("$pkgbase$pkgname"), "b"), vec!["bb"]);
    assert_eq!(install_names(&found("$other"), "b"), vec!["$other"]);
    assert!(install_names(&vec![], "b").is_empty());
}

#[test]
fn unreadable_hooks_are_left_out() {
    let recipe = "install=a.install\n  install=b.install\n".to_string();
    let bundle = fetch("p", recipe, &vec![file("b.install", "B"), file("c", "C")]);
    assert_eq!(bundle.package_base, "p");
    assert_eq!(
        bundle.files()[1..],
        [("b.install", "B")]
    );
    let names = vec!["x".to_string(), "y".to_string()];
    let bundle = bundle_of("p", "r".to_string(), &names, &vec![file("y", "1"), file("x", "2")]);
    assert_eq!(bundle.files(), vec![("PKGBUILD", "r"), ("x", "2"), ("y", "1")]);
}

#[test]
fn local_recipes_take_the_name_of_their_directory() {
    let recipe = "install=$pkgname.install\n".to_string();
    let bundle = load_local(None, Some("dir"), recipe.clone(), &vec![file("dir.install", "x")]);
    assert_eq!(bundle.package_base, "dir");
    assert_eq!(bundle.install_files.len(), 1);
    let bundle = load_local(None, None, recipe, &vec![file("local.install", "x")]);
    assert_eq!(bundle.package_base, "local");
    assert_eq!(bundle.install_files[0].name, "local.install");
    assert_eq!(local_base(None, Some("d")), "d");
    assert_eq!(local_base(None, None), "local");
    assert_eq!(local_base(Some("b"), Some("d")), "b");
}

#[test]
fn clone_reads_what_a_fetch_reads() {
    let recipe = "install=$pkgname.install\n".to_string();
    let files = vec![file("foo.install", "x"), file("vouch-build-foo-1.install", "y")];
    let fetched = fetch("foo", recipe.clone(), &files);
    let cloned = load_local(Some("foo"), Some("vouch-build-foo-1"), recipe, &files);
    assert_eq!(cloned.package_base, "foo");
    assert_eq!(cloned.files(), fetched.files());
    assert_eq!(cloned.files()[1], ("foo.install", "x"));
}

#[test]
fn clone_refuses_what_leaves_the_path() {
    assert_eq!(
        clone("foo-git_1.0+x", "/tmp/d").unwrap(),
        vec![
            "clone",
            "--depth",
            "1",
            "--quiet",
            "https://aur.archlinux.org/foo-git_1.0+x.git",
            "/tmp/d"
        ]
    );
    for bad in ["", "a/b", "a b", "ä", "a?b"] {
        assert_eq!(clone(bad, "/tmp/d").unwrap_err().package_base, bad);
    }
}
