use vouch::names::NameSet;
use vouch::package::PackageMeta;
use vouch::pacman::{paths, repo_list, setting, Db, Installed};
use vouch::rpc::{info, info_many, info_url, urlencode, RpcResponse};
use vouch::upgrade::{
    devel_candidates, extract_commit, find_devel_upgrades, find_upgrades, first_vcs_url,
    git_ls_remote_head, name_chunks, upgrade_candidates, upstream_changed, upstream_query,
    vcs_packages,
};

fn meta(name: &str, base: &str, version: &str) -> PackageMeta {
    PackageMeta {
        name: name.to_string(),
        package_base: base.to_string(),
        version: version.to_string(),
        description: None,
        maintainer: None,
        num_votes: 0,
        popularity_bits: 0,
        first_submitted: 0,
        last_modified: 0,
        out_of_date: None,
        url: None,
        depends: vec![],
        make_depends: vec![],
        check_depends: vec![],
    }
}

fn pairs(list: &[(&str, &str)]) -> Vec<(String, String)> {
    list.iter().map(|(a, b)| (a.to_string(), b.to_string())).collect()
}

#[test]
fn foreign_packages_are_in_no_repository() {
    let mut core = NameSet::new();
    core.insert("bash".to_string());
    let mut extra = NameSet::new();
    extra.insert("vim".to_string());
    let installed = |n: &str, v: &str| Installed {
        name: n.to_string(),
        version: v.to_string(),
    };
    let db = Db {
        installed: vec![installed("bash", "5"), installed("paru", "2"), installed("vim", "9"), installed("aaa", "1")],
        repos: vec![core, extra],
    };
    assert_eq!(db.foreign_packages(), pairs(&[("paru", "2"), ("aaa", "1")]));
    assert_eq!(db.installed_version("vim"), Some("9".to_string()));
    assert_eq!(db.installed_version("emacs"), None);
    let found = vec![None, Some("b".to_string()), Some("c".to_string())];
    assert_eq!(db.provider(&found), Some("b".to_string()));
    assert!(db.repo_satisfies(&found));
    assert_eq!(db.provider(&vec![None]), None);
    assert!(!db.repo_satisfies(&vec![None, None]));
}

#[test]
fn settings_have_usual_places() {
    assert_eq!(setting(Some(" /x \n")), Some("/x".to_string()));
    assert_eq!(setting(Some(" \n")), None);
    assert_eq!(setting(None), None);
    assert_eq!(paths(None, Some("")), ("/".to_string(), "/var/lib/pacman".to_string()));
    assert_eq!(paths(Some("/r\n"), Some("/db\n")), ("/r".to_string(), "/db".to_string()));
    assert_eq!(repo_list(Some("core\n\n extra \r\nchaotic-aur")), vec!["core", "extra", "chaotic-aur"]);
    assert!(repo_list(None).is_empty());
}

#[test]
fn names_are_asked_in_pieces() {
    let list: Vec<(String, String)> = (0..101).map(|i| (format!("p{i}"), String::new())).collect();
    let chunks = name_chunks(&list);
    let sizes: Vec<usize> = chunks.iter().map(|c| c.len()).collect();
    assert_eq!(sizes, vec![50, 50, 1]);
    assert_eq!(chunks[2], vec!["p100"]);
    assert!(name_chunks(&vec![]).is_empty());
    assert_eq!(name_chunks(&list[..50].to_vec()).len(), 1);
}

#[test]
fn newer_versions_are_upgrades() {
    let foreign = pairs(&[("z", "1"), ("gone", "1"), ("a", "1"), ("same", "3")]);
    let metas = vec![meta("a", "a", "0"), meta("z", "z", "2"), meta("same", "same", "3"), meta("a", "a", "2")];
    let found = upgrade_candidates(&foreign, &metas);
    let names: Vec<&str> = found.iter().map(|u| u.name.as_str()).collect();
    assert_eq!(names, vec!["z", "a", "same"]);
    // The last answer for a name counts.
    assert_eq!(found[1].available, "2");
    let up = find_upgrades(found, &vec![true, true, false]);
    let got: Vec<(&str, &str, &str)> = up
        .iter()
        .map(|u| (u.name.as_str(), u.installed.as_str(), u.available.as_str()))
        .collect();
    assert_eq!(got, vec![("a", "1", "2"), ("z", "1", "2")]);
}

#[test]
fn devel_packages_are_known_by_suffix() {
    let foreign = pairs(&[("a-git", "1"), ("git-b", "1"), ("c-darcs", "1"), ("d-hg", "1"), ("e-svn", "1"), ("f-bzr", "1"), ("g-cvs", "1"), ("git", "1")]);
    let names: Vec<String> = vcs_packages(&foreign).into_iter().map(|p| p.0).collect();
    assert_eq!(names, vec!["a-git", "c-darcs", "d-hg", "e-svn", "f-bzr", "g-cvs"]);
}

#[test]
fn devel_upgrades_are_rebuilt_to_be_safe() {
    let list = pairs(&[("z-git", "r1"), ("a-git", "r2"), ("m-git", "r3"), ("gone-git", "r4")]);
    let metas = vec![meta("a-git", "abase", "1"), meta("m-git", "m", "1"), meta("z-git", "z", "1")];
    let candidates = devel_candidates(&list, &metas);
    assert_eq!(candidates.len(), 3);
    assert_eq!(candidates[1].package_base, "abase");
    let up = find_devel_upgrades(&candidates, &vec![Some(true), None, Some(false)]);
    let got: Vec<(&str, &str)> = up.iter().map(|u| (u.name.as_str(), u.available.as_str())).collect();
    assert_eq!(got, vec![("a-git", "latest commit"), ("z-git", "latest commit")]);
}

#[test]
fn first_url_is_found_by_place() {
    assert_eq!(
        first_vcs_url("source=('name::git+https://x/y.git#branch=z')"),
        Some("https://x/y.git".to_string())
    );
    // The source that stands first wins, of whatever protocol.
    assert_eq!(
        first_vcs_url("source=('svn+https://a/b' 'git+https://c/d.git')"),
        Some("https://a/b".to_string())
    );
    assert_eq!(
        first_vcs_url("hg+http://h/x git+http://g/y"),
        Some("http://h/x".to_string())
    );
    assert_eq!(
        first_vcs_url("git+ 'git+#x' git+http://g/y svn+http://s"),
        Some("http://g/y".to_string())
    );
    assert_eq!(first_vcs_url("git+ svn+http://s"), Some("http://s".to_string()));
    assert_eq!(first_vcs_url("bzr+http://b)"), Some("http://b".to_string()));
    assert_eq!(first_vcs_url("source=(x.tar.gz)"), None);
}

#[test]
fn commits_are_hexadecimal_runs() {
    assert_eq!(extract_commit("r567.2d12974-1"), Some("2d12974".to_string()));
    assert_eq!(extract_commit("1.0.r3.gABCDEF01-1"), Some("abcdef01".to_string()));
    assert_eq!(extract_commit("1.18.0-1"), None);
    assert_eq!(extract_commit("abcdef"), None);
    assert_eq!(extract_commit(""), None);
    assert_eq!(extract_commit("é1234567"), Some("1234567".to_string()));
}

#[test]
fn upstream_is_compared_by_prefix() {
    let recipe = "source=(git+https://x/y.git)";
    let q = upstream_query(Some(recipe), "r1.2d12974-1");
    assert_eq!(q.as_ref().unwrap().url, "https://x/y.git");
    assert_eq!(q.as_ref().unwrap().commit, "2d12974");
    assert_eq!(upstream_changed(&q, Some("2d12974ffff")), Some(false));
    assert_eq!(upstream_changed(&q, Some("2d12975ffff")), Some(true));
    assert_eq!(upstream_changed(&q, None), None);
    assert!(upstream_query(None, "r1.2d12974-1").is_none());
    assert!(upstream_query(Some("source=(x)"), "r1.2d12974-1").is_none());
    assert!(upstream_query(Some(recipe), "1.0-1").is_none());
    assert_eq!(upstream_changed(&None, Some("x")), None);
}

#[test]
fn head_of_a_listing() {
    assert_eq!(git_ls_remote_head(Some("  \nABC\tHEAD\n")), Some("abc".to_string()));
    assert_eq!(git_ls_remote_head(Some(" \n")), None);
    assert_eq!(git_ls_remote_head(None), None);
}

#[test]
fn names_are_encoded_in_queries() {
    assert_eq!(urlencode("a-Z_0.~+"), "a-Z_0.~+");
    assert_eq!(urlencode("a b/é&"), "a%20b%2F%C3%A9%26");
    assert_eq!(
        info_url(&["c++"]),
        "https://aur.archlinux.org/rpc/v5/info?arg[]=c++"
    );
    assert_eq!(
        info_url(&["a", "b=", "c"]),
        "https://aur.archlinux.org/rpc/v5/info?arg[]=a&arg[]=b%3D&arg[]=c"
    );
}

fn response(kind: &str, error: Option<&str>, results: Vec<PackageMeta>) -> RpcResponse {
    RpcResponse {
        kind: kind.to_string(),
        error: error.map(|e| e.to_string()),
        results,
    }
}

#[test]
fn answers_are_told_from_errors() {
    let found = info(response("multiinfo", None, vec![meta("a", "a", "1"), meta("b", "b", "1")]));
    assert_eq!(found.unwrap().unwrap().name, "a");
    assert!(info(response("multiinfo", None, vec![])).unwrap().is_none());
    assert_eq!(
        info(response("error", Some("Too many requests."), vec![])).unwrap_err().message,
        "AUR RPC error: Too many requests."
    );
    assert_eq!(
        info_many(response("error", None, vec![meta("a", "a", "1")])).unwrap_err().message,
        "AUR RPC error: unknown"
    );
    assert_eq!(info_many(response("multiinfo", None, vec![meta("a", "a", "1")])).unwrap().len(), 1);
}
