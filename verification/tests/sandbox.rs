use vouch::makepkg::{build_in_sandbox, collect_packages, BuildError};
use vouch::sandbox::{default_env, Sandbox, SandboxError};

fn args_of(s: &Sandbox) -> Vec<String> {
    s.command(Some("/work"), "/usr/bin/true", &["-x", "y"]).unwrap()
}

#[test]
fn command_line_is_exact() {
    let s = Sandbox::new("rel", None).ro_bind("/var/cache").env("K", "V");
    assert_eq!(
        args_of(&s),
        vec![
            "--ro-bind", "/usr", "/usr",
            "--symlink", "usr/bin", "/bin",
            "--symlink", "usr/bin", "/sbin",
            "--symlink", "usr/lib", "/lib",
            "--symlink", "usr/lib", "/lib64",
            "--ro-bind", "/etc", "/etc",
            "--ro-bind-try", "/var/lib/pacman", "/var/lib/pacman",
            "--proc", "/proc",
            "--dev", "/dev",
            "--tmpfs", "/tmp",
            "--ro-bind-try", "/var/cache", "/var/cache",
            "--bind", "/work", "/work",
            "--chdir", "/work",
            "--unshare-user",
            "--unshare-ipc",
            "--unshare-pid",
            "--unshare-uts",
            "--unshare-cgroup-try",
            "--unshare-net",
            "--die-with-parent",
            "--new-session",
            "--clearenv",
            "--setenv", "PATH", "/usr/bin",
            "--setenv", "LANG", "C.UTF-8",
            "--setenv", "TERM", "xterm",
            "--setenv", "K", "V",
            "--setenv", "HOME", "/work",
            "--", "/usr/bin/true", "-x", "y",
        ]
    );
    assert_eq!(s.workdir(), "rel");
}

#[test]
fn allowing_the_network_changes_one_argument() {
    let denied = args_of(&Sandbox::new("/w", Some("vt100")));
    let allowed = args_of(&Sandbox::new("/w", Some("vt100")).allow_network(true));
    assert!(denied.contains(&"--unshare-net".to_string()));
    assert!(!allowed.contains(&"--unshare-net".to_string()));
    let rest: Vec<String> = denied.into_iter().filter(|a| a != "--unshare-net").collect();
    assert_eq!(rest, allowed);
    let again = args_of(&Sandbox::new("/w", Some("vt100")).allow_network(true).allow_network(false));
    assert!(again.contains(&"--unshare-net".to_string()));
}

#[test]
fn one_directory_is_writable() {
    let args = args_of(&Sandbox::new("/w", None).ro_bind("/a").ro_bind("/b"));
    assert_eq!(args.iter().filter(|a| *a == "--bind").count(), 1);
    assert_eq!(args.iter().filter(|a| *a == "--ro-bind-try").count(), 3);
}

#[test]
fn work_directory_must_exist_and_be_absolute() {
    let s = Sandbox::new("some/dir", None);
    let err = s.command(None, "x", &[]).unwrap_err();
    assert!(matches!(err, SandboxError::NoWorkdir(_)));
    assert_eq!(err.message(), "work directory does not exist: some/dir");
    let err = s.command(Some("not/absolute"), "x", &[]).unwrap_err();
    assert!(matches!(err, SandboxError::NotAbsolute(_)));
    assert_eq!(err.message(), "work directory must be absolute: not/absolute");
}

#[test]
fn environment_is_an_allow_list() {
    let env = default_env(Some("vt100"));
    let got: Vec<(&str, &str)> = env.iter().map(|(k, v)| (k.as_str(), v.as_str())).collect();
    assert_eq!(got, vec![("PATH", "/usr/bin"), ("LANG", "C.UTF-8"), ("TERM", "vt100")]);
}

#[test]
fn build_runs_in_two_phases() {
    let first = build_in_sandbox(true, "pkg", Some("/pkg"), true).unwrap();
    let run = first.invocation(None);
    assert_eq!(run.program, "/usr/bin/makepkg");
    assert_eq!(run.args, vec!["--verifysource", "--nodeps", "--noconfirm"]);
    let args: Vec<&str> = run.args.iter().map(|s| s.as_str()).collect();
    let line = run.sandbox.command(Some("/pkg"), &run.program, &args).unwrap();
    assert!(!line.contains(&"--unshare-net".to_string()));

    let second = first.finish(true).unwrap();
    assert_eq!(second.dir(), "/pkg");
    let run = second.invocation(None);
    assert_eq!(run.args, vec!["--noconfirm", "--nodeps", "-f"]);
    let args: Vec<&str> = run.args.iter().map(|s| s.as_str()).collect();
    let line = run.sandbox.command(Some("/pkg"), &run.program, &args).unwrap();
    assert!(line.contains(&"--unshare-net".to_string()));

    let files = vec!["b-1.pkg.tar.zst".to_string(), "PKGBUILD".to_string(), "a-1.pkg.tar.xz".to_string()];
    let outcome = second.finish(true, &files).unwrap();
    assert_eq!(outcome.packages, vec!["/pkg/a-1.pkg.tar.xz", "/pkg/b-1.pkg.tar.zst"]);
}

#[test]
fn build_stops_at_the_first_failure() {
    let message = |e: BuildError| e.message();
    assert_eq!(
        message(build_in_sandbox(false, "./d", None, false).unwrap_err()),
        "secure build sandbox unavailable (bwrap missing or unprivileged user namespaces disabled). Refusing to build unsandboxed."
    );
    assert_eq!(
        message(build_in_sandbox(true, "./d", None, true).unwrap_err()),
        "package directory ./d"
    );
    assert_eq!(
        message(build_in_sandbox(true, "./d", Some("/d"), false).unwrap_err()),
        "no PKGBUILD found in /d"
    );
    assert_eq!(
        message(build_in_sandbox(true, "./d", Some("/d"), true).unwrap().finish(false).unwrap_err()),
        "source download / integrity verification failed"
    );
    let second = || build_in_sandbox(true, "./d", Some("/d"), true).unwrap().finish(true).unwrap();
    assert_eq!(
        message(second().finish(false, &vec!["x.pkg.tar.zst".to_string()]).unwrap_err()),
        "build failed inside the network-denied sandbox"
    );
    assert_eq!(
        message(second().finish(true, &vec!["x.tar".to_string()]).unwrap_err()),
        "build reported success but produced no package artifact"
    );
}

#[test]
fn packages_are_sorted() {
    let names = ["z.pkg.tar.zst", "a.pkg.tar.zst", "x.pkg.tar", "m.pkg.tar.gz.sig"];
    let names = names.iter().map(|s| s.to_string()).collect();
    assert_eq!(
        collect_packages("/d/", &names),
        vec!["/d/a.pkg.tar.zst", "/d/m.pkg.tar.gz.sig", "/d/z.pkg.tar.zst"]
    );
}
