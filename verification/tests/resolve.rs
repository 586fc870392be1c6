use vouch::graph::{build_layers, flatten, topo_order};
use vouch::names::{NameMap, NameSet};
use vouch::package::PackageMeta;
use vouch::resolve::{resolve, resolve_many, strip_version, Request, ResolveError, Resolver};

#[test]
fn strips_version_constraints() {
    assert_eq!(strip_version("pacman>6.1"), "pacman");
    assert_eq!(strip_version("go>=1.24"), "go");
    assert_eq!(strip_version("git"), "git");
    assert_eq!(strip_version("libalpm.so>=14"), "libalpm.so");
    assert_eq!(strip_version("foo=1.0"), "foo");
    assert_eq!(strip_version("bar<2"), "bar");
}

fn nodes(names: &[&str]) -> NameSet {
    let mut set = NameSet::new();
    for n in names {
        set.insert(n.to_string());
    }
    set
}

fn edges(pairs: &[(&str, &[&str])]) -> NameMap<NameSet> {
    let mut map = NameMap::new();
    for (k, v) in pairs {
        map.insert(k.to_string(), nodes(v));
    }
    map
}

#[test]
fn orders_dependencies_before_dependents() {
    // a depends on b, b depends on c  =>  build c, then b, then a.
    let n = nodes(&["a", "b", "c"]);
    let e = edges(&[("a", &["b"]), ("b", &["c"])]);
    let order = topo_order(&n, &e).unwrap();
    let pos = |x: &str| order.iter().position(|s| s == x).unwrap();
    assert!(pos("c") < pos("b"));
    assert!(pos("b") < pos("a"));
}

#[test]
fn detects_cycles() {
    let n = nodes(&["a", "b"]);
    let e = edges(&[("a", &["b"]), ("b", &["a"])]);
    assert!(topo_order(&n, &e).is_err());
}

#[test]
fn layers_group_independent_packages() {
    // a -> b -> c, plus an independent d.
    let n = nodes(&["a", "b", "c", "d"]);
    let e = edges(&[("a", &["b"]), ("b", &["c"])]);
    let layers = build_layers(&n, &e);
    // c and d have no deps -> layer 0; b -> layer 1; a -> layer 2.
    assert_eq!(layers, vec![vec!["c", "d"], vec!["b"], vec!["a"]]);
    // Flattening a layering is always a valid build order.
    let flat: Vec<String> = flatten(&layers);
    let pos = |x: &str| flat.iter().position(|s| s == x).unwrap();
    assert!(pos("c") < pos("b") && pos("b") < pos("a"));
}

fn meta(name: &str, depends: &[&str], make: &[&str], check: &[&str]) -> PackageMeta {
    let list = |v: &[&str]| v.iter().map(|s| s.to_string()).collect::<Vec<String>>();
    PackageMeta {
        name: name.to_string(),
        package_base: name.to_string(),
        version: "1-1".to_string(),
        description: None,
        maintainer: Some("m".to_string()),
        num_votes: 100,
        popularity_bits: 0,
        first_submitted: 0,
        last_modified: 0,
        out_of_date: None,
        url: None,
        depends: list(depends),
        make_depends: list(make),
        check_depends: list(check),
    }
}

/// Runs a resolution against a fixed world: the packages of the AUR, and the
/// atoms that a repository provides.
fn run(mut r: Resolver, aur: &dyn Fn(&str) -> Option<PackageMeta>, repo: &[(&str, &str)]) -> Result<vouch::resolve::ResolvedPlan, ResolveError> {
    loop {
        match r.next() {
            Request::Target(t) => r.target_found(aur(&t))?,
            Request::Dependencies(q) => {
                let in_aur = q.names.iter().filter_map(|n| aur(n)).collect();
                let providers = q
                    .atoms
                    .iter()
                    .map(|a| {
                        repo.iter()
                            .find(|(atom, _)| *atom == a.raw)
                            .map(|(_, p)| p.to_string())
                    })
                    .collect();
                r.dependencies_found(in_aur, providers);
            }
            Request::Nothing => return r.plan(),
        }
    }
}

#[test]
fn constraints_may_be_surrounded_by_space() {
    assert_eq!(strip_version("  foo >= 1 "), "foo");
    assert_eq!(strip_version(">=1"), "");
    assert_eq!(strip_version(""), "");
}

#[test]
fn plan_splits_repository_and_aur() {
    let aur = |n: &str| match n {
        "app" => Some(meta("app", &["libfoo>=2", "glibc", "helper"], &["cmake", "glibc"], &["pytest"])),
        "libfoo" => Some(meta("libfoo", &["helper"], &[], &[])),
        "helper" => Some(meta("helper", &[], &[], &[])),
        "glibc" => Some(meta("glibc", &[], &[], &[])),
        _ => None,
    };
    let repo = [("glibc", "glibc"), ("cmake", "cmake"), ("pytest", "python-pytest")];
    let plan = run(resolve("app"), &aur, &repo).unwrap();
    assert_eq!(plan.explicit_targets, vec!["app"]);
    assert_eq!(plan.layers, vec![vec!["helper"], vec!["libfoo"], vec!["app"]]);
    assert_eq!(plan.aur_build_order, vec!["helper", "libfoo", "app"]);
    assert_eq!(plan.repo_deps, vec!["cmake", "glibc", "python-pytest"]);
    // glibc is needed at run time too, so it is no candidate for removal.
    assert_eq!(plan.make_only_deps, vec!["cmake", "python-pytest"]);
}

#[test]
fn build_order_is_layers_flattened() {
    // z needs nothing, a needs m: both orders are valid, the layers decide.
    let aur = |n: &str| match n {
        "a" => Some(meta("a", &["m"], &[], &[])),
        "m" => Some(meta("m", &[], &[], &[])),
        "z" => Some(meta("z", &[], &[], &[])),
        _ => None,
    };
    let plan = run(resolve_many(&["a", "z", "a"]), &aur, &[]).unwrap();
    assert_eq!(plan.explicit_targets, vec!["a", "z"]);
    assert_eq!(plan.aur_build_order, vec!["m", "z", "a"]);
    assert_eq!(plan.layers, vec![vec!["m", "z"], vec!["a"]]);
}

#[test]
fn signed_binary_is_preferred() {
    let aur = |n: &str| match n {
        "app" => Some(meta("app", &["tool"], &[], &[])),
        "tool" => Some(meta("tool", &[], &[], &[])),
        _ => None,
    };
    let plan = run(resolve("app"), &aur, &[("tool", "tool-bin")]).unwrap();
    assert_eq!(plan.aur_build_order, vec!["app"]);
    assert_eq!(plan.repo_deps, vec!["tool-bin"]);
    // Without a repository to ask, what the AUR has is built.
    let plan = run(resolve("app"), &aur, &[]).unwrap();
    assert_eq!(plan.aur_build_order, vec!["tool", "app"]);
    assert!(plan.repo_deps.is_empty());
}

#[test]
fn unknown_target_is_an_error() {
    let err = run(resolve("ghost"), &|_| None, &[]).unwrap_err();
    assert!(matches!(err, ResolveError::NotInAur(_)));
    assert_eq!(err.message(), "'ghost' is not in the AUR");
}

#[test]
fn circular_dependencies_are_an_error() {
    let aur = |n: &str| match n {
        "a" => Some(meta("a", &["b"], &[], &[])),
        "b" => Some(meta("b", &[], &["a"], &[])),
        _ => None,
    };
    let err = run(resolve("a"), &aur, &[]).unwrap_err();
    assert!(matches!(err, ResolveError::Cycle(_)));
    assert_eq!(err.message(), "dependency cycle detected at 'a'");
}

#[test]
fn each_name_is_asked_once() {
    let mut r = resolve("app");
    let m = meta("app", &["x>1", "", "x"], &["y", ">=2"], &["y<3", "z"]);
    r.target_found(Some(m)).unwrap();
    match r.next() {
        Request::Dependencies(q) => {
            assert_eq!(q.package, "app");
            assert_eq!(q.names, vec!["x", "y", "z"]);
            let atoms: Vec<(&str, bool)> = q.atoms.iter().map(|a| (a.raw.as_str(), a.runtime)).collect();
            assert_eq!(atoms, vec![("x>1", true), ("y", false), ("z", false)]);
        }
        _ => panic!("expected a question about dependencies"),
    }
}

#[test]
fn layers_stop_at_a_cycle() {
    let n = nodes(&["a", "b", "c"]);
    let e = edges(&[("a", &["b"]), ("b", &["a"])]);
    assert_eq!(build_layers(&n, &e), vec![vec!["c"]]);
    let cycle = topo_order(&n, &e).unwrap_err();
    assert_eq!(cycle.at, "a");
}

#[test]
fn order_reaches_beyond_the_nodes() {
    let order = topo_order(&nodes(&["a"]), &edges(&[("a", &["x", "b"]), ("b", &["x"])])).unwrap();
    assert_eq!(order, vec!["x", "b", "a"]);
}
