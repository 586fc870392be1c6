//! The build sandbox: which restrictions a command is run under.
//!
//! The scanner can be fooled by obfuscation. The sandbox cannot: with the
//! network unshared there is no route off the machine to fetch a payload. The
//! restrictions are those of bubblewrap, and are given as its arguments.

use crate::text;
use vstd::prelude::*;

verus! {

/// The program that establishes the sandbox.
pub const BWRAP: &'static str = "bwrap";

/// One restriction, or one thing that is made visible.
#[derive(Debug)]
pub enum Restriction {
    /// A host path that is visible and read-only.
    RoBind(String),
    /// A host path that is visible and read-only, if it exists.
    RoBindTry(String),
    /// A symbolic link: what it holds, and where it is.
    Symlink(String, String),
    /// The process file system.
    Proc(String),
    /// A minimal device directory.
    Dev(String),
    /// An empty directory that lives as long as the sandbox.
    Tmpfs(String),
    /// A host path that is visible and writable.
    Bind(String),
    /// The directory to start in.
    Chdir(String),
    UnshareUser,
    UnshareIpc,
    UnsharePid,
    UnshareUts,
    UnshareCgroupTry,
    /// No network but an isolated loopback.
    UnshareNet,
    DieWithParent,
    /// A session of its own, so that nothing can be typed into the terminal.
    NewSession,
    /// No environment but what is set afterwards.
    ClearEnv,
    /// An environment variable.
    SetEnv(String, String),
}

/// The contents of a restriction.
pub enum RestrictionView {
    RoBind(Seq<char>),
    RoBindTry(Seq<char>),
    Symlink(Seq<char>, Seq<char>),
    Proc(Seq<char>),
    Dev(Seq<char>),
    Tmpfs(Seq<char>),
    Bind(Seq<char>),
    Chdir(Seq<char>),
    UnshareUser,
    UnshareIpc,
    UnsharePid,
    UnshareUts,
    UnshareCgroupTry,
    UnshareNet,
    DieWithParent,
    NewSession,
    ClearEnv,
    SetEnv(Seq<char>, Seq<char>),
}

impl View for Restriction {
    type V = RestrictionView;

    open spec fn view(&self) -> RestrictionView {
        match self {
            Restriction::RoBind(p) => RestrictionView::RoBind(p@),
            Restriction::RoBindTry(p) => RestrictionView::RoBindTry(p@),
            Restriction::Symlink(a, b) => RestrictionView::Symlink(a@, b@),
            Restriction::Proc(p) => RestrictionView::Proc(p@),
            Restriction::Dev(p) => RestrictionView::Dev(p@),
            Restriction::Tmpfs(p) => RestrictionView::Tmpfs(p@),
            Restriction::Bind(p) => RestrictionView::Bind(p@),
            Restriction::Chdir(p) => RestrictionView::Chdir(p@),
            Restriction::UnshareUser => RestrictionView::UnshareUser,
            Restriction::UnshareIpc => RestrictionView::UnshareIpc,
            Restriction::UnsharePid => RestrictionView::UnsharePid,
            Restriction::UnshareUts => RestrictionView::UnshareUts,
            Restriction::UnshareCgroupTry => RestrictionView::UnshareCgroupTry,
            Restriction::UnshareNet => RestrictionView::UnshareNet,
            Restriction::DieWithParent => RestrictionView::DieWithParent,
            Restriction::NewSession => RestrictionView::NewSession,
            Restriction::ClearEnv => RestrictionView::ClearEnv,
            Restriction::SetEnv(k, v) => RestrictionView::SetEnv(k@, v@),
        }
    }
}

/// The contents of a list of restrictions.
pub open spec fn restrictions_of(v: Seq<Restriction>) -> Seq<RestrictionView> {
    Seq::new(v.len(), |i: int| v[i]@)
}

/// The arguments that a restriction stands for.
pub open spec fn arguments(r: RestrictionView) -> Seq<Seq<char>> {
    match r {
        RestrictionView::RoBind(p) => seq!["--ro-bind"@, p, p],
        RestrictionView::RoBindTry(p) => seq!["--ro-bind-try"@, p, p],
        RestrictionView::Symlink(a, b) => seq!["--symlink"@, a, b],
        RestrictionView::Proc(p) => seq!["--proc"@, p],
        RestrictionView::Dev(p) => seq!["--dev"@, p],
        RestrictionView::Tmpfs(p) => seq!["--tmpfs"@, p],
        RestrictionView::Bind(p) => seq!["--bind"@, p, p],
        RestrictionView::Chdir(p) => seq!["--chdir"@, p],
        RestrictionView::UnshareUser => seq!["--unshare-user"@],
        RestrictionView::UnshareIpc => seq!["--unshare-ipc"@],
        RestrictionView::UnsharePid => seq!["--unshare-pid"@],
        RestrictionView::UnshareUts => seq!["--unshare-uts"@],
        RestrictionView::UnshareCgroupTry => seq!["--unshare-cgroup-try"@],
        RestrictionView::UnshareNet => seq!["--unshare-net"@],
        RestrictionView::DieWithParent => seq!["--die-with-parent"@],
        RestrictionView::NewSession => seq!["--new-session"@],
        RestrictionView::ClearEnv => seq!["--clearenv"@],
        RestrictionView::SetEnv(k, v) => seq!["--setenv"@, k, v],
    }
}

/// The arguments that restrictions stand for, in order.
pub open spec fn all_arguments(rs: Seq<RestrictionView>) -> Seq<Seq<char>>
    decreases rs.len(),
{
    if rs.len() == 0 {
        Seq::empty()
    } else {
        all_arguments(rs.drop_last()) + arguments(rs.last())
    }
}

/// An isolated environment for a single command.
#[derive(Debug)]
pub struct Sandbox {
    workdir: String,
    allow_network: bool,
    ro_binds: Vec<String>,
    env: Vec<(String, String)>,
}

/// What a sandbox is set to.
#[verifier::ext_equal]
pub struct SandboxView {
    /// The only writable directory.
    pub workdir: Seq<char>,
    /// Whether the network is shared with the host.
    pub allow_network: bool,
    /// Extra paths that are visible and read-only.
    pub ro_binds: Seq<Seq<char>>,
    /// What the environment holds.
    pub env: Seq<(Seq<char>, Seq<char>)>,
}

/// Names and values of variables.
pub open spec fn vars_of(v: Seq<(String, String)>) -> Seq<(Seq<char>, Seq<char>)> {
    Seq::new(v.len(), |i: int| (v[i].0@, v[i].1@))
}

impl View for Sandbox {
    type V = SandboxView;

    closed spec fn view(&self) -> SandboxView {
        SandboxView {
            workdir: self.workdir@,
            allow_network: self.allow_network,
            ro_binds: text::texts(self.ro_binds@),
            env: vars_of(self.env@),
        }
    }
}

/// The environment that every command starts with.
pub open spec fn base_env(term: Option<Seq<char>>) -> Seq<(Seq<char>, Seq<char>)> {
    seq![
        ("PATH"@, "/usr/bin"@),
        ("LANG"@, "C.UTF-8"@),
        (
            "TERM"@,
            match term {
                Some(t) => t,
                None => "xterm"@,
            },
        ),
    ]
}

/// The environment that every command starts with. `term` is the terminal of
/// the host.
pub fn default_env(term: Option<&str>) -> (r: Vec<(String, String)>)
    ensures
        vars_of(r@) == base_env(text::opt_slice(term)),
{
    let term_value = match term {
        Some(t) => String::from_str(t),
        None => String::from_str("xterm"),
    };
    let mut out: Vec<(String, String)> = Vec::new();
    out.push((String::from_str("PATH"), String::from_str("/usr/bin")));
    out.push((String::from_str("LANG"), String::from_str("C.UTF-8")));
    out.push((String::from_str("TERM"), term_value));
    proof {
        assert(vars_of(out@) =~= base_env(text::opt_slice(term)));
    }
    out
}

/// The read-only system: `/usr`, the links into it, `/etc` and the package
/// database, with fresh `/proc`, `/dev` and `/tmp`.
pub open spec fn system_view() -> Seq<RestrictionView> {
    seq![
        RestrictionView::RoBind("/usr"@),
        RestrictionView::Symlink("usr/bin"@, "/bin"@),
        RestrictionView::Symlink("usr/bin"@, "/sbin"@),
        RestrictionView::Symlink("usr/lib"@, "/lib"@),
        RestrictionView::Symlink("usr/lib"@, "/lib64"@),
        RestrictionView::RoBind("/etc"@),
        RestrictionView::RoBindTry("/var/lib/pacman"@),
        RestrictionView::Proc("/proc"@),
        RestrictionView::Dev("/dev"@),
        RestrictionView::Tmpfs("/tmp"@),
    ]
}

/// Paths that are visible and read-only, if they exist.
pub open spec fn extra_binds(paths: Seq<Seq<char>>) -> Seq<RestrictionView> {
    paths.map_values(|p: Seq<char>| RestrictionView::RoBindTry(p))
}

/// The writable directory, in which the command starts, and the namespaces.
pub open spec fn isolation(workdir: Seq<char>, allow_network: bool) -> Seq<RestrictionView> {
    seq![
        RestrictionView::Bind(workdir),
        RestrictionView::Chdir(workdir),
        RestrictionView::UnshareUser,
        RestrictionView::UnshareIpc,
        RestrictionView::UnsharePid,
        RestrictionView::UnshareUts,
        RestrictionView::UnshareCgroupTry,
    ] + (if allow_network {
        Seq::empty()
    } else {
        seq![RestrictionView::UnshareNet]
    }) + seq![
        RestrictionView::DieWithParent,
        RestrictionView::NewSession,
        RestrictionView::ClearEnv,
    ]
}

/// Environment variables.
pub open spec fn set_env(env: Seq<(Seq<char>, Seq<char>)>) -> Seq<RestrictionView> {
    env.map_values(|v: (Seq<char>, Seq<char>)| RestrictionView::SetEnv(v.0, v.1))
}

/// All restrictions of a sandbox whose directory is at `workdir`. `HOME` is set
/// last, to the writable directory.
pub open spec fn restrictions(s: SandboxView, workdir: Seq<char>) -> Seq<RestrictionView> {
    system_view() + extra_binds(s.ro_binds) + isolation(workdir, s.allow_network) + set_env(s.env)
        + seq![RestrictionView::SetEnv("HOME"@, workdir)]
}

/// The arguments that run a command under all restrictions.
pub open spec fn invocation(
    s: SandboxView,
    workdir: Seq<char>,
    program: Seq<char>,
    args: Seq<Seq<char>>,
) -> Seq<Seq<char>> {
    all_arguments(restrictions(s, workdir)) + seq!["--"@, program] + args
}

/// Why a sandbox cannot be set up.
#[derive(Debug)]
pub enum SandboxError {
    /// The work directory does not exist.
    NoWorkdir(String),
    /// The work directory is not absolute.
    NotAbsolute(String),
}

impl SandboxError {
    /// The message that is shown to the user.
    pub fn message(&self) -> (r: String)
        ensures
            r@ == (match self {
                SandboxError::NoWorkdir(p) => "work directory does not exist: "@ + p@,
                SandboxError::NotAbsolute(p) => "work directory must be absolute: "@ + p@,
            }),
    {
        match self {
            SandboxError::NoWorkdir(p) => text::concat(
                "work directory does not exist: ",
                p.as_str(),
            ),
            SandboxError::NotAbsolute(p) => text::concat(
                "work directory must be absolute: ",
                p.as_str(),
            ),
        }
    }
}

/// Appends strings.
fn push_strs(out: &mut Vec<String>, items: &[&str])
    ensures
        text::texts(final(out)@) == text::texts(old(out)@) + text::slices(items@),
{
    let ghost start = text::texts(out@);
    let ghost all = text::slices(items@);
    let mut i: usize = 0;
    proof {
        assert(start + all.take(0) =~= start);
    }
    while i < items.len()
        invariant
            i <= items@.len(),
            all == text::slices(items@),
            text::texts(out@) == start + all.take(i as int),
        decreases items@.len() - i,
    {
        let ghost before = text::texts(out@);
        out.push(String::from_str(items[i]));
        proof {
            assert(text::texts(out@) =~= before.push(all[i as int]));
            assert(text::texts(out@) =~= start + all.take(i + 1));
        }
        i += 1;
    }
    proof {
        assert(all.take(all.len() as int) =~= all);
    }
}

fn push1(out: &mut Vec<String>, a: &str)
    ensures
        text::texts(final(out)@) == text::texts(old(out)@) + seq![a@],
{
    let items = [a];
    push_strs(out, &items);
    proof {
        assert(text::slices(items@) =~= seq![a@]);
    }
}

fn push2(out: &mut Vec<String>, a: &str, b: &str)
    ensures
        text::texts(final(out)@) == text::texts(old(out)@) + seq![a@, b@],
{
    let items = [a, b];
    push_strs(out, &items);
    proof {
        assert(text::slices(items@) =~= seq![a@, b@]);
    }
}

fn push3(out: &mut Vec<String>, a: &str, b: &str, c: &str)
    ensures
        text::texts(final(out)@) == text::texts(old(out)@) + seq![a@, b@, c@],
{
    let items = [a, b, c];
    push_strs(out, &items);
    proof {
        assert(text::slices(items@) =~= seq![a@, b@, c@]);
    }
}

/// Appends the arguments of one restriction.
fn push_arguments(out: &mut Vec<String>, r: &Restriction)
    ensures
        text::texts(final(out)@) == text::texts(old(out)@) + arguments(r@),
{
    match r {
        Restriction::RoBind(p) => push3(out, "--ro-bind", p.as_str(), p.as_str()),
        Restriction::RoBindTry(p) => push3(out, "--ro-bind-try", p.as_str(), p.as_str()),
        Restriction::Symlink(a, b) => push3(out, "--symlink", a.as_str(), b.as_str()),
        Restriction::Proc(p) => push2(out, "--proc", p.as_str()),
        Restriction::Dev(p) => push2(out, "--dev", p.as_str()),
        Restriction::Tmpfs(p) => push2(out, "--tmpfs", p.as_str()),
        Restriction::Bind(p) => push3(out, "--bind", p.as_str(), p.as_str()),
        Restriction::Chdir(p) => push2(out, "--chdir", p.as_str()),
        Restriction::UnshareUser => push1(out, "--unshare-user"),
        Restriction::UnshareIpc => push1(out, "--unshare-ipc"),
        Restriction::UnsharePid => push1(out, "--unshare-pid"),
        Restriction::UnshareUts => push1(out, "--unshare-uts"),
        Restriction::UnshareCgroupTry => push1(out, "--unshare-cgroup-try"),
        Restriction::UnshareNet => push1(out, "--unshare-net"),
        Restriction::DieWithParent => push1(out, "--die-with-parent"),
        Restriction::NewSession => push1(out, "--new-session"),
        Restriction::ClearEnv => push1(out, "--clearenv"),
        Restriction::SetEnv(k, v) => push3(out, "--setenv", k.as_str(), v.as_str()),
    }
}

/// The read-only system.
fn system() -> (r: Vec<Restriction>)
    ensures
        restrictions_of(r@) == system_view(),
{
    let mut out: Vec<Restriction> = Vec::new();
    out.push(Restriction::RoBind(String::from_str("/usr")));
    out.push(Restriction::Symlink(String::from_str("usr/bin"), String::from_str("/bin")));
    out.push(Restriction::Symlink(String::from_str("usr/bin"), String::from_str("/sbin")));
    out.push(Restriction::Symlink(String::from_str("usr/lib"), String::from_str("/lib")));
    out.push(Restriction::Symlink(String::from_str("usr/lib"), String::from_str("/lib64")));
    out.push(Restriction::RoBind(String::from_str("/etc")));
    out.push(Restriction::RoBindTry(String::from_str("/var/lib/pacman")));
    out.push(Restriction::Proc(String::from_str("/proc")));
    out.push(Restriction::Dev(String::from_str("/dev")));
    out.push(Restriction::Tmpfs(String::from_str("/tmp")));
    proof {
        assert(restrictions_of(out@) =~= system_view());
    }
    out
}

/// The writable directory and the namespaces.
fn isolate(workdir: &str, allow_network: bool) -> (r: Vec<Restriction>)
    ensures
        restrictions_of(r@) == isolation(workdir@, allow_network),
{
    let mut out: Vec<Restriction> = Vec::new();
    out.push(Restriction::Bind(String::from_str(workdir)));
    out.push(Restriction::Chdir(String::from_str(workdir)));
    out.push(Restriction::UnshareUser);
    out.push(Restriction::UnshareIpc);
    out.push(Restriction::UnsharePid);
    out.push(Restriction::UnshareUts);
    out.push(Restriction::UnshareCgroupTry);
    if !allow_network {
        out.push(Restriction::UnshareNet);
    }
    out.push(Restriction::DieWithParent);
    out.push(Restriction::NewSession);
    out.push(Restriction::ClearEnv);
    proof {
        assert(restrictions_of(out@) =~= isolation(workdir@, allow_network));
    }
    out
}

proof fn lemma_restrictions_add(a: Seq<Restriction>, b: Seq<Restriction>)
    ensures
        restrictions_of(a + b) == restrictions_of(a) + restrictions_of(b),
{
    assert(restrictions_of(a + b) =~= restrictions_of(a) + restrictions_of(b));
}

impl Sandbox {
    /// A sandbox whose only writable path is `workdir`. The network is denied.
    /// `term` is the terminal of the host.
    pub fn new(workdir: &str, term: Option<&str>) -> (r: Sandbox)
        ensures
            r@ == (SandboxView {
                workdir: workdir@,
                allow_network: false,
                ro_binds: Seq::empty(),
                env: base_env(text::opt_slice(term)),
            }),
    {
        let r = Sandbox {
            workdir: String::from_str(workdir),
            allow_network: false,
            ro_binds: Vec::new(),
            env: default_env(term),
        };
        proof {
            assert(r@.ro_binds =~= Seq::<Seq<char>>::empty());
        }
        r
    }

    /// Allows or denies network access. Only the download of sources should
    /// ever allow it.
    pub fn allow_network(self, yes: bool) -> (r: Sandbox)
        ensures
            r@ == (SandboxView { allow_network: yes, ..self@ }),
    {
        Sandbox {
            workdir: self.workdir,
            allow_network: yes,
            ro_binds: self.ro_binds,
            env: self.env,
        }
    }

    /// Makes a further host path visible and read-only.
    pub fn ro_bind(self, path: &str) -> (r: Sandbox)
        ensures
            r@ == (SandboxView { ro_binds: self@.ro_binds.push(path@), ..self@ }),
    {
        let ghost before = self@;
        let mut ro_binds = self.ro_binds;
        ro_binds.push(String::from_str(path));
        let r = Sandbox {
            workdir: self.workdir,
            allow_network: self.allow_network,
            ro_binds,
            env: self.env,
        };
        proof {
            assert(r@.ro_binds =~= before.ro_binds.push(path@));
        }
        r
    }

    /// Adds a variable to the environment.
    pub fn env(self, key: &str, val: &str) -> (r: Sandbox)
        ensures
            r@ == (SandboxView { env: self@.env.push((key@, val@)), ..self@ }),
    {
        let ghost before = self@;
        let mut env = self.env;
        env.push((String::from_str(key), String::from_str(val)));
        let r = Sandbox {
            workdir: self.workdir,
            allow_network: self.allow_network,
            ro_binds: self.ro_binds,
            env,
        };
        proof {
            assert(r@.env =~= before.env.push((key@, val@)));
        }
        r
    }

    /// The writable directory as it was given.
    pub fn workdir(&self) -> (r: &str)
        ensures
            r@ == self@.workdir,
    {
        self.workdir.as_str()
    }

    /// All restrictions, with the writable directory at `workdir`.
    pub fn restrictions(&self, workdir: &str) -> (r: Vec<Restriction>)
        ensures
            restrictions_of(r@) == restrictions(self@, workdir@),
    {
        let mut out = system();
        let ghost mut done = system_view();
        let ghost binds = extra_binds(self@.ro_binds);
        let mut i: usize = 0;
        proof {
            assert(done + binds.take(0) =~= done);
        }
        while i < self.ro_binds.len()
            invariant
                i <= self.ro_binds@.len(),
                binds == extra_binds(self@.ro_binds),
                restrictions_of(out@) == done + binds.take(i as int),
            decreases self.ro_binds@.len() - i,
        {
            let ghost before = restrictions_of(out@);
            out.push(Restriction::RoBindTry(self.ro_binds[i].clone()));
            proof {
                assert(restrictions_of(out@) =~= before.push(binds[i as int]));
                assert(restrictions_of(out@) =~= done + binds.take(i + 1));
            }
            i += 1;
        }
        let mut inner = isolate(workdir, self.allow_network);
        proof {
            assert(binds.take(binds.len() as int) =~= binds);
            done = done + binds + restrictions_of(inner@);
            lemma_restrictions_add(out@, inner@);
        }
        out.append(&mut inner);
        let ghost vars = set_env(self@.env);
        let mut j: usize = 0;
        proof {
            assert(done + vars.take(0) =~= done);
        }
        while j < self.env.len()
            invariant
                j <= self.env@.len(),
                vars == set_env(self@.env),
                restrictions_of(out@) == done + vars.take(j as int),
            decreases self.env@.len() - j,
        {
            let ghost before = restrictions_of(out@);
            out.push(Restriction::SetEnv(self.env[j].0.clone(), self.env[j].1.clone()));
            proof {
                assert(restrictions_of(out@) =~= before.push(vars[j as int]));
                assert(restrictions_of(out@) =~= done + vars.take(j + 1));
            }
            j += 1;
        }
        let ghost before = restrictions_of(out@);
        out.push(Restriction::SetEnv(String::from_str("HOME"), String::from_str(workdir)));
        proof {
            assert(vars.take(vars.len() as int) =~= vars);
            assert(restrictions_of(out@) =~= before + seq![
                RestrictionView::SetEnv("HOME"@, workdir@),
            ]);
        }
        out
    }

    /// The arguments for [`BWRAP`] that run a program in the sandbox. `resolved`
    /// is where the work directory is after all links were followed, or `None`
    /// if it does not exist.
    pub fn command(&self, resolved: Option<&str>, program: &str, args: &[&str]) -> (r: Result<
        Vec<String>,
        SandboxError,
    >)
        ensures
            match resolved {
                None => r matches Err(SandboxError::NoWorkdir(p)) && p@ == self@.workdir,
                Some(dir) => if "/"@.is_prefix_of(dir@) {
                    r is Ok && text::texts(r->Ok_0@) == invocation(
                        self@,
                        dir@,
                        program@,
                        text::slices(args@),
                    )
                } else {
                    r matches Err(SandboxError::NotAbsolute(p)) && p@ == dir@
                },
            },
    {
        let dir = match resolved {
            Some(dir) => dir,
            None => {
                return Err(SandboxError::NoWorkdir(self.workdir.clone()));
            },
        };
        if !text::starts_with(dir, "/") {
            return Err(SandboxError::NotAbsolute(String::from_str(dir)));
        }
        let list = self.restrictions(dir);
        let ghost all = restrictions_of(list@);
        let mut out: Vec<String> = Vec::new();
        let mut i: usize = 0;
        proof {
            assert(text::texts(out@) =~= Seq::<Seq<char>>::empty());
        }
        while i < list.len()
            invariant
                i <= list@.len(),
                all == restrictions_of(list@),
                text::texts(out@) == all_arguments(all.take(i as int)),
            decreases list@.len() - i,
        {
            proof {
                assert(all.take(i + 1).drop_last() =~= all.take(i as int));
                assert(all.take(i + 1).last() == list@[i as int]@);
            }
            push_arguments(&mut out, &list[i]);
            i += 1;
        }
        proof {
            assert(all.take(all.len() as int) =~= all);
        }
        push2(&mut out, "--", program);
        push_strs(&mut out, args);
        Ok(out)
    }
}

/// The network is unshared if and only if it is not allowed, and that is all
/// the difference that allowing it makes.
pub proof fn law_network_is_denied_unless_allowed(s: SandboxView, workdir: Seq<char>)
    ensures
        restrictions(s, workdir).contains(RestrictionView::UnshareNet) <==> !s.allow_network,
        restrictions(SandboxView { allow_network: true, ..s }, workdir) == restrictions(
            SandboxView { allow_network: false, ..s },
            workdir,
        ).filter(|r: RestrictionView| r != RestrictionView::UnshareNet),
{
    let net = RestrictionView::UnshareNet;
    let head = system_view() + extra_binds(s.ro_binds) + isolation(workdir, false).take(7);
    let tail = isolation(workdir, false).skip(8) + set_env(s.env) + seq![
        RestrictionView::SetEnv("HOME"@, workdir),
    ];
    let a = restrictions(SandboxView { allow_network: false, ..s }, workdir);
    let b = restrictions(SandboxView { allow_network: true, ..s }, workdir);
    lemma_around_network(s, workdir);
    lemma_without(head, net, tail);
    assert(restrictions(s, workdir) == (if s.allow_network {
        b
    } else {
        a
    }));
    assert(not_network() =~= (|r: RestrictionView| r != RestrictionView::UnshareNet));
}

/// Picks all restrictions but that of the network.
spec fn not_network() -> spec_fn(RestrictionView) -> bool {
    |r: RestrictionView| r != RestrictionView::UnshareNet
}

/// The restriction of the network stands between others that are the same with
/// and without it.
proof fn lemma_around_network(s: SandboxView, workdir: Seq<char>)
    ensures
        ({
            let head = system_view() + extra_binds(s.ro_binds) + isolation(workdir, false).take(7);
            let tail = isolation(workdir, false).skip(8) + set_env(s.env) + seq![
                RestrictionView::SetEnv("HOME"@, workdir),
            ];
            let a = restrictions(SandboxView { allow_network: false, ..s }, workdir);
            let b = restrictions(SandboxView { allow_network: true, ..s }, workdir);
            &&& a == head + seq![RestrictionView::UnshareNet] + tail
            &&& b == head + tail
            &&& forall|i: int| 0 <= i < head.len() ==> #[trigger] not_network()(head[i])
            &&& forall|i: int| 0 <= i < tail.len() ==> #[trigger] not_network()(tail[i])
        }),
{
    let closed = isolation(workdir, false);
    let shared = isolation(workdir, true);
    assert(closed =~= closed.take(7) + seq![RestrictionView::UnshareNet] + closed.skip(8));
    assert(shared =~= closed.take(7) + closed.skip(8));
    let before = system_view() + extra_binds(s.ro_binds);
    let after = set_env(s.env) + seq![RestrictionView::SetEnv("HOME"@, workdir)];
    let head = before + closed.take(7);
    let tail = closed.skip(8) + set_env(s.env) + seq![RestrictionView::SetEnv("HOME"@, workdir)];
    let a = restrictions(SandboxView { allow_network: false, ..s }, workdir);
    let b = restrictions(SandboxView { allow_network: true, ..s }, workdir);
    assert(a =~= before + closed + after);
    assert(b =~= before + shared + after);
    assert(a =~= head + seq![RestrictionView::UnshareNet] + tail);
    assert(b =~= head + tail);
    assert forall|i: int| 0 <= i < head.len() implies #[trigger] not_network()(head[i]) by {
        if i >= system_view().len() && i < before.len() {
            assert(head[i] == RestrictionView::RoBindTry(s.ro_binds[i - system_view().len()]));
        }
    }
    assert forall|i: int| 0 <= i < tail.len() implies #[trigger] not_network()(tail[i]) by {
        if 3 <= i < 3 + s.env.len() {
            assert(tail[i] == RestrictionView::SetEnv(s.env[i - 3].0, s.env[i - 3].1));
        }
    }
}

/// Taking out the restriction of the network leaves what stands around it.
proof fn lemma_without(
    head: Seq<RestrictionView>,
    net: RestrictionView,
    tail: Seq<RestrictionView>,
)
    requires
        net == RestrictionView::UnshareNet,
        forall|i: int| 0 <= i < head.len() ==> #[trigger] not_network()(head[i]),
        forall|i: int| 0 <= i < tail.len() ==> #[trigger] not_network()(tail[i]),
    ensures
        (head + seq![net] + tail).filter(not_network()) == head + tail,
        (head + seq![net] + tail).contains(net),
        !(head + tail).contains(net),
{
    let keep = not_network();
    lemma_filter_all(head, keep);
    lemma_filter_all(tail, keep);
    Seq::filter_distributes_over_add(head + seq![net], tail, keep);
    Seq::filter_distributes_over_add(head, seq![net], keep);
    assert(seq![net].filter(keep) =~= Seq::<RestrictionView>::empty()) by {
        reveal(Seq::filter);
        assert(seq![net].drop_last() =~= Seq::<RestrictionView>::empty());
    }
    assert(head + Seq::<RestrictionView>::empty() + tail =~= head + tail);
    let all = head + seq![net] + tail;
    assert(all[head.len() as int] == net);
    let rest = head + tail;
    if rest.contains(net) {
        let i = choose|i: int| 0 <= i < rest.len() && rest[i] == net;
        if i < head.len() {
            assert(not_network()(head[i]));
        } else {
            assert(not_network()(tail[i - head.len()]));
        }
    }
}

proof fn lemma_filter_all(s: Seq<RestrictionView>, keep: spec_fn(RestrictionView) -> bool)
    requires
        forall|i: int| 0 <= i < s.len() ==> #[trigger] keep(s[i]),
    ensures
        s.filter(keep) == s,
    decreases s.len(),
{
    reveal(Seq::filter);
    if s.len() > 0 {
        let t = s.drop_last();
        assert forall|i: int| 0 <= i < t.len() implies #[trigger] keep(t[i]) by {
            assert(keep(s[i]));
        }
        lemma_filter_all(t, keep);
        assert(keep(s[s.len() - 1]));
        assert(s =~= t.push(s.last()));
    }
}

/// The work directory is the one writable mount, and every namespace but the
/// network is always unshared.
pub proof fn law_only_workdir_is_writable(s: SandboxView, workdir: Seq<char>, path: Seq<char>)
    ensures
        restrictions(s, workdir).contains(RestrictionView::Bind(path)) <==> path == workdir,
        restrictions(s, workdir).contains(RestrictionView::RoBind("/usr"@)),
        restrictions(s, workdir).contains(RestrictionView::RoBind("/etc"@)),
        restrictions(s, workdir).contains(RestrictionView::UnshareUser),
        restrictions(s, workdir).contains(RestrictionView::UnsharePid),
        restrictions(s, workdir).contains(RestrictionView::UnshareIpc),
        restrictions(s, workdir).contains(RestrictionView::UnshareUts),
        restrictions(s, workdir).contains(RestrictionView::DieWithParent),
        restrictions(s, workdir).contains(RestrictionView::NewSession),
        restrictions(s, workdir).contains(RestrictionView::ClearEnv),
{
    let before = system_view() + extra_binds(s.ro_binds);
    let inner = isolation(workdir, s.allow_network);
    let after = set_env(s.env) + seq![RestrictionView::SetEnv("HOME"@, workdir)];
    let all = restrictions(s, workdir);
    assert(all =~= before + inner + after);
    let n = before.len() as int;
    assert(all[0] == RestrictionView::RoBind("/usr"@));
    assert(all[5] == RestrictionView::RoBind("/etc"@));
    assert(all[n] == RestrictionView::Bind(workdir));
    assert(all[n + 2] == RestrictionView::UnshareUser);
    assert(all[n + 3] == RestrictionView::UnshareIpc);
    assert(all[n + 4] == RestrictionView::UnsharePid);
    assert(all[n + 5] == RestrictionView::UnshareUts);
    let m = n + inner.len();
    assert(all[m - 3] == RestrictionView::DieWithParent);
    assert(all[m - 2] == RestrictionView::NewSession);
    assert(all[m - 1] == RestrictionView::ClearEnv);
    if all.contains(RestrictionView::Bind(path)) {
        let i = choose|i: int| 0 <= i < all.len() && all[i] == RestrictionView::Bind(path);
        if i < n {
            assert(before[i] == RestrictionView::Bind(path));
            if i >= 10 {
                assert(before[i] == RestrictionView::RoBindTry(s.ro_binds[i - 10]));
            }
        } else if i < m {
            assert(inner[i - n] == RestrictionView::Bind(path));
        } else {
            assert(after[i - m] == RestrictionView::Bind(path));
        }
    }
}

/// The environment holds nothing but what is set after it was cleared.
pub proof fn law_environment_is_clean(s: SandboxView, workdir: Seq<char>, i: int, j: int)
    requires
        0 <= i < restrictions(s, workdir).len(),
        0 <= j < restrictions(s, workdir).len(),
        restrictions(s, workdir)[i] is SetEnv,
        restrictions(s, workdir)[j] is ClearEnv,
    ensures
        j < i,
        restrictions(s, workdir).last() == RestrictionView::SetEnv("HOME"@, workdir),
{
    let before = system_view() + extra_binds(s.ro_binds);
    let inner = isolation(workdir, s.allow_network);
    let after = set_env(s.env) + seq![RestrictionView::SetEnv("HOME"@, workdir)];
    let all = restrictions(s, workdir);
    assert(all =~= before + inner + after);
    let n = before.len() as int;
    let m = n + inner.len();
    if i < n {
        assert(all[i] == before[i]);
        if i >= 10 {
            assert(before[i] == RestrictionView::RoBindTry(s.ro_binds[i - 10]));
        }
    } else if i < m {
        assert(all[i] == inner[i - n]);
    }
    assert(i >= m);
    if j >= m {
        assert(all[j] == after[j - m]);
        if j - m < s.env.len() {
            assert(after[j - m] == RestrictionView::SetEnv(s.env[j - m].0, s.env[j - m].1));
        }
    }
}

/// What each restriction is called on the command line: a path that is bound is
/// found inside where it is outside.
pub proof fn law_arguments_of_restrictions(p: Seq<char>, q: Seq<char>)
    ensures
        arguments(RestrictionView::UnshareNet) == seq!["--unshare-net"@],
        arguments(RestrictionView::UnshareUser) == seq!["--unshare-user"@],
        arguments(RestrictionView::UnshareIpc) == seq!["--unshare-ipc"@],
        arguments(RestrictionView::UnsharePid) == seq!["--unshare-pid"@],
        arguments(RestrictionView::UnshareUts) == seq!["--unshare-uts"@],
        arguments(RestrictionView::UnshareCgroupTry) == seq!["--unshare-cgroup-try"@],
        arguments(RestrictionView::DieWithParent) == seq!["--die-with-parent"@],
        arguments(RestrictionView::NewSession) == seq!["--new-session"@],
        arguments(RestrictionView::ClearEnv) == seq!["--clearenv"@],
        arguments(RestrictionView::Bind(p)) == seq!["--bind"@, p, p],
        arguments(RestrictionView::RoBind(p)) == seq!["--ro-bind"@, p, p],
        arguments(RestrictionView::RoBindTry(p)) == seq!["--ro-bind-try"@, p, p],
        arguments(RestrictionView::Tmpfs(p)) == seq!["--tmpfs"@, p],
        arguments(RestrictionView::Chdir(p)) == seq!["--chdir"@, p],
        arguments(RestrictionView::SetEnv(p, q)) == seq!["--setenv"@, p, q],
{
}

/// A command line is the arguments of all restrictions, in order, and only then
/// the program with its own arguments, behind `--`.
pub proof fn law_command_lines(
    s: SandboxView,
    workdir: Seq<char>,
    program: Seq<char>,
    args: Seq<Seq<char>>,
    i: int,
)
    requires
        0 <= i < restrictions(s, workdir).len(),
    ensures
        exists|a: Seq<Seq<char>>, b: Seq<Seq<char>>|
            all_arguments(restrictions(s, workdir)) == #[trigger] (a + arguments(
                restrictions(s, workdir)[i],
            ) + b),
        invocation(s, workdir, program, args) == all_arguments(restrictions(s, workdir)) + (seq![
            "--"@,
            program,
        ] + args),
{
    let rs = restrictions(s, workdir);
    lemma_arguments_hold(rs, i);
    assert(invocation(s, workdir, program, args) =~= all_arguments(rs) + (seq!["--"@, program]
        + args));
}

proof fn lemma_arguments_hold(rs: Seq<RestrictionView>, i: int)
    requires
        0 <= i < rs.len(),
    ensures
        exists|a: Seq<Seq<char>>, b: Seq<Seq<char>>|
            all_arguments(rs) == #[trigger] (a + arguments(rs[i]) + b),
    decreases rs.len(),
{
    let rest = rs.drop_last();
    let e = Seq::<Seq<char>>::empty();
    if i == rs.len() - 1 {
        assert(all_arguments(rs) =~= all_arguments(rest) + arguments(rs[i]) + e);
    } else {
        lemma_arguments_hold(rest, i);
        let (a, b) = choose|a: Seq<Seq<char>>, b: Seq<Seq<char>>|
            all_arguments(rest) == #[trigger] (a + arguments(rest[i]) + b);
        let c = b + arguments(rs.last());
        assert(all_arguments(rs) =~= a + arguments(rs[i]) + c);
    }
}

/// A command sees programs only where the system keeps them, in a fixed language,
/// and the terminal of the host; its home is the work directory, whatever else is
/// set.
pub proof fn law_environment(s: SandboxView, workdir: Seq<char>, term: Seq<char>, i: int)
    ensures
        base_env(Some(term)) == seq![
            ("PATH"@, "/usr/bin"@),
            ("LANG"@, "C.UTF-8"@),
            ("TERM"@, term),
        ],
        base_env(None) == seq![
            ("PATH"@, "/usr/bin"@),
            ("LANG"@, "C.UTF-8"@),
            ("TERM"@, "xterm"@),
        ],
        restrictions(s, workdir).last() == RestrictionView::SetEnv("HOME"@, workdir),
        0 <= i < s.env.len() ==> restrictions(s, workdir).contains(
            RestrictionView::SetEnv(s.env[i].0, s.env[i].1),
        ),
        0 <= i < s.ro_binds.len() ==> restrictions(s, workdir).contains(
            RestrictionView::RoBindTry(s.ro_binds[i]),
        ),
        restrictions(s, workdir).contains(RestrictionView::Chdir(workdir)),
        restrictions(s, workdir).contains(RestrictionView::Tmpfs("/tmp"@)),
{
    let all = restrictions(s, workdir);
    let before = system_view() + extra_binds(s.ro_binds);
    let inner = isolation(workdir, s.allow_network);
    let n = before.len() as int;
    let m = n + inner.len();
    assert(all[n + 1] == RestrictionView::Chdir(workdir));
    assert(all[9] == RestrictionView::Tmpfs("/tmp"@));
    if 0 <= i < s.env.len() {
        assert(all[m + i] == RestrictionView::SetEnv(s.env[i].0, s.env[i].1));
    }
    if 0 <= i < s.ro_binds.len() {
        assert(all[10 + i] == RestrictionView::RoBindTry(s.ro_binds[i]));
    }
}

/// Nothing of the host is visible but the system, the package database, the work
/// directory and the paths that were added; and nothing of it can be written but
/// the work directory.
pub proof fn law_nothing_else_is_visible(s: SandboxView, workdir: Seq<char>, p: Seq<char>)
    ensures
        restrictions(s, workdir).contains(RestrictionView::RoBind(p)) <==> p == "/usr"@ || p
            == "/etc"@,
        restrictions(s, workdir).contains(RestrictionView::RoBindTry(p)) <==> p
            == "/var/lib/pacman"@ || s.ro_binds.contains(p),
        restrictions(s, workdir).contains(RestrictionView::Bind(p)) <==> p == workdir,
{
    law_only_workdir_is_writable(s, workdir, p);
    let all = restrictions(s, workdir);
    let before = system_view() + extra_binds(s.ro_binds);
    let inner = isolation(workdir, s.allow_network);
    let after = set_env(s.env) + seq![RestrictionView::SetEnv("HOME"@, workdir)];
    assert(all =~= before + inner + after);
    let n = before.len() as int;
    let m = n + inner.len();
    assert(all[6] == RestrictionView::RoBindTry("/var/lib/pacman"@));
    assert forall|i: int| 0 <= i < all.len() implies (all[i] == RestrictionView::RoBind(p) ==> p
        == "/usr"@ || p == "/etc"@) && (all[i] == RestrictionView::RoBindTry(p) ==> p
        == "/var/lib/pacman"@ || s.ro_binds.contains(p)) by {
        if i < 10 {
            assert(all[i] == system_view()[i]);
        } else if i < n {
            assert(all[i] == RestrictionView::RoBindTry(s.ro_binds[i - 10]));
        } else if i < m {
            assert(all[i] == inner[i - n]);
        } else {
            assert(all[i] == after[i - m]);
            if i - m < s.env.len() {
                assert(after[i - m] == RestrictionView::SetEnv(s.env[i - m].0, s.env[i - m].1));
            }
        }
    }
    if s.ro_binds.contains(p) {
        let j = choose|j: int| 0 <= j < s.ro_binds.len() && s.ro_binds[j] == p;
        assert(all[10 + j] == RestrictionView::RoBindTry(p));
    }
}

} // verus!
