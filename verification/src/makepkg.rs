//! Building a package in two phases, the second without the network.
//!
//! In the first phase the declared sources are fetched and their checksums
//! verified; the network is allowed. In the second everything is extracted,
//! built and packaged; the network is denied. Without a working sandbox nothing
//! is built.
//!
//! Running the phases is the caller's work. A phase can only be had from the
//! phase before it, once that succeeded.

use crate::order;
use crate::paths;
use crate::sandbox::{Sandbox, SandboxView};
use crate::sandbox;
use crate::sort;
use crate::sort::Named;
use crate::text;
use vstd::prelude::*;

verus! {

/// The program that builds packages.
pub const MAKEPKG: &'static str = "/usr/bin/makepkg";

/// The message for a missing sandbox.
pub const NO_SANDBOX: &'static str =
    "secure build sandbox unavailable (bwrap missing or unprivileged user namespaces disabled). Refusing to build unsandboxed.";

/// What a successful build produced.
#[derive(Debug)]
pub struct BuildOutcome {
    /// Paths of the built packages, inside the build directory.
    pub packages: Vec<String>,
}

/// Why a build stopped.
#[derive(Debug)]
pub enum BuildError {
    /// No sandbox can be established.
    NoSandbox,
    /// The package directory does not exist.
    NoDirectory(String),
    /// The package directory holds no recipe.
    NoRecipe(String),
    /// The sources could not be fetched, or are not what the recipe says.
    Sources,
    /// The build itself failed.
    Build,
    /// The build left no package behind.
    NoPackage,
}

impl BuildError {
    /// The message that is shown to the user.
    pub fn message(&self) -> (r: String)
        ensures
            r@ == (match self {
                BuildError::NoSandbox => NO_SANDBOX@,
                BuildError::NoDirectory(dir) => "package directory "@ + dir@,
                BuildError::NoRecipe(dir) => "no PKGBUILD found in "@ + dir@,
                BuildError::Sources => "source download / integrity verification failed"@,
                BuildError::Build => "build failed inside the network-denied sandbox"@,
                BuildError::NoPackage =>
                    "build reported success but produced no package artifact"@,
            }),
    {
        match self {
            BuildError::NoSandbox => String::from_str(NO_SANDBOX),
            BuildError::NoDirectory(dir) => text::concat("package directory ", dir.as_str()),
            BuildError::NoRecipe(dir) => text::concat("no PKGBUILD found in ", dir.as_str()),
            BuildError::Sources => String::from_str(
                "source download / integrity verification failed",
            ),
            BuildError::Build => String::from_str(
                "build failed inside the network-denied sandbox",
            ),
            BuildError::NoPackage => String::from_str(
                "build reported success but produced no package artifact",
            ),
        }
    }
}

/// A program to run in a sandbox.
#[derive(Debug)]
pub struct Invocation {
    pub sandbox: Sandbox,
    pub program: String,
    pub args: Vec<String>,
}

/// The sandbox of a phase.
pub open spec fn phase_sandbox(dir: Seq<char>, network: bool, term: Option<Seq<char>>) -> SandboxView {
    SandboxView {
        workdir: dir,
        allow_network: network,
        ro_binds: Seq::empty(),
        env: sandbox::base_env(term),
    }
}

/// The first phase: fetch and verify the sources.
#[derive(Debug)]
pub struct SourceCheck {
    dir: String,
}

impl View for SourceCheck {
    type V = Seq<char>;

    closed spec fn view(&self) -> Seq<char> {
        self.dir@
    }
}

/// The second phase: build and package.
#[derive(Debug)]
pub struct Packaging {
    dir: String,
}

impl View for Packaging {
    type V = Seq<char>;

    closed spec fn view(&self) -> Seq<char> {
        self.dir@
    }
}

/// Starts to build the package whose recipe is in the directory `pkgdir`.
/// `available` says whether a sandbox can be established, `dir` where the directory
/// is once links are followed (`None` if it does not exist), and `has_recipe`
/// whether it holds a recipe.
pub fn build_in_sandbox(
    available: bool,
    pkgdir: &str,
    dir: Option<&str>,
    has_recipe: bool,
) -> (r: Result<SourceCheck, BuildError>)
    ensures
        match r {
            Ok(phase) => available && has_recipe && dir is Some && phase@ == dir->0@,
            Err(BuildError::NoSandbox) => !available,
            Err(BuildError::NoDirectory(d)) => available && dir is None && d@ == pkgdir@,
            Err(BuildError::NoRecipe(d)) => available && dir is Some && d@ == dir->0@
                && !has_recipe,
            Err(_) => false,
        },
{
    if !available {
        return Err(BuildError::NoSandbox);
    }
    match dir {
        None => Err(BuildError::NoDirectory(String::from_str(pkgdir))),
        Some(dir) => if has_recipe {
            Ok(SourceCheck { dir: String::from_str(dir) })
        } else {
            Err(BuildError::NoRecipe(String::from_str(dir)))
        },
    }
}

fn three(a: &str, b: &str, c: &str) -> (r: Vec<String>)
    ensures
        text::texts(r@) == seq![a@, b@, c@],
{
    let mut out: Vec<String> = Vec::new();
    out.push(String::from_str(a));
    out.push(String::from_str(b));
    out.push(String::from_str(c));
    proof {
        assert(text::texts(out@) =~= seq![a@, b@, c@]);
    }
    out
}

impl SourceCheck {
    /// What to run: the network is allowed, and only the build directory can be
    /// written. `term` is the terminal of the host.
    pub fn invocation(&self, term: Option<&str>) -> (r: Invocation)
        ensures
            r.sandbox@ == phase_sandbox(self@, true, text::opt_slice(term)),
            r.program@ == MAKEPKG@,
            text::texts(r.args@) == seq!["--verifysource"@, "--nodeps"@, "--noconfirm"@],
    {
        Invocation {
            sandbox: Sandbox::new(self.dir.as_str(), term).allow_network(true),
            program: String::from_str(MAKEPKG),
            args: three("--verifysource", "--nodeps", "--noconfirm"),
        }
    }

    /// The second phase, if this one succeeded.
    pub fn finish(self, success: bool) -> (r: Result<Packaging, BuildError>)
        ensures
            match r {
                Ok(next) => success && next@ == self@,
                Err(e) => !success && e is Sources,
            },
    {
        if success {
            Ok(Packaging { dir: self.dir })
        } else {
            Err(BuildError::Sources)
        }
    }
}

/// A file name of a built package.
pub open spec fn is_package_file(name: Seq<char>) -> bool {
    text::contains_text(name, ".pkg.tar."@)
}

/// The built packages among the files of a directory, in ascending order.
pub open spec fn packages_in(dir: Seq<char>, names: Seq<Seq<char>>) -> Seq<Seq<char>> {
    sort::by_key(names.filter(|n: Seq<char>| is_package_file(n)), sort::itself()).map_values(
        |n: Seq<char>| paths::joined(dir, n),
    )
}

/// A file name that is ordered by itself.
struct FileName {
    name: String,
}

impl Named for FileName {
    closed spec fn key(&self) -> Seq<char> {
        self.name@
    }

    fn name(&self) -> (r: &str) {
        self.name.as_str()
    }
}

/// The built packages among the files of a directory, in ascending order.
pub fn collect_packages(dir: &str, names: &Vec<String>) -> (r: Vec<String>)
    ensures
        text::texts(r@) == packages_in(dir@, text::texts(names@)),
{
    let ghost all = text::texts(names@);
    let ghost keep = |n: Seq<char>| is_package_file(n);
    let ghost view = |f: FileName| f.name@;
    let mut kept: Vec<FileName> = Vec::new();
    let mut i: usize = 0;
    proof {
        reveal(Seq::filter);
        assert(kept@.map_values(view) =~= all.take(0).filter(keep));
    }
    while i < names.len()
        invariant
            i <= names@.len(),
            all == text::texts(names@),
            keep == (|n: Seq<char>| is_package_file(n)),
            view == (|f: FileName| f.name@),
            kept@.map_values(view) == all.take(i as int).filter(keep),
        decreases names@.len() - i,
    {
        let ghost before = kept@.map_values(view);
        proof {
            reveal(Seq::filter);
            assert(all.take(i + 1).drop_last() =~= all.take(i as int));
            assert(all.take(i + 1).last() == names@[i as int]@);
        }
        if text::contains(names[i].as_str(), ".pkg.tar.") {
            kept.push(FileName { name: names[i].clone() });
            proof {
                assert(kept@.map_values(view) =~= before.push(names@[i as int]@));
            }
        }
        i += 1;
    }
    let ghost unsorted = kept@;
    let sorted = sort::sort_by_name(kept);
    let ghost in_order = sorted@.map_values(view);
    proof {
        assert(all.take(all.len() as int) =~= all);
        sort::lemma_by_key_map(unsorted, view, sort::name_of::<FileName>(), sort::itself());
    }
    let ghost result = packages_in(dir@, all);
    let mut out: Vec<String> = Vec::new();
    let mut j: usize = 0;
    while j < sorted.len()
        invariant
            j <= sorted@.len(),
            view == (|f: FileName| f.name@),
            in_order == sorted@.map_values(view),
            result == in_order.map_values(|n: Seq<char>| paths::joined(dir@, n)),
            text::texts(out@) == result.take(j as int),
        decreases sorted@.len() - j,
    {
        let ghost before = text::texts(out@);
        out.push(paths::join(dir, sorted[j].name.as_str()));
        proof {
            assert(in_order[j as int] == sorted@[j as int].name@);
            assert(text::texts(out@) =~= before.push(result[j as int]));
            assert(text::texts(out@) =~= result.take(j + 1));
        }
        j += 1;
    }
    proof {
        assert(result.take(result.len() as int) =~= result);
    }
    out
}

impl Packaging {
    /// What to run: the network is denied, and a package that is there already
    /// is overwritten. `term` is the terminal of the host.
    pub fn invocation(&self, term: Option<&str>) -> (r: Invocation)
        ensures
            r.sandbox@ == phase_sandbox(self@, false, text::opt_slice(term)),
            r.program@ == MAKEPKG@,
            text::texts(r.args@) == seq!["--noconfirm"@, "--nodeps"@, "-f"@],
    {
        Invocation {
            sandbox: Sandbox::new(self.dir.as_str(), term).allow_network(false),
            program: String::from_str(MAKEPKG),
            args: three("--noconfirm", "--nodeps", "-f"),
        }
    }

    /// The directory of the build.
    pub fn dir(&self) -> (r: &str)
        ensures
            r@ == self@,
    {
        self.dir.as_str()
    }

    /// What was built, if this phase succeeded and left packages among the files
    /// of the build directory.
    pub fn finish(self, success: bool, files: &Vec<String>) -> (r: Result<BuildOutcome, BuildError>)
        ensures
            match r {
                Ok(outcome) => {
                    &&& success
                    &&& text::texts(outcome.packages@) == packages_in(self@, text::texts(files@))
                    &&& outcome.packages@.len() > 0
                },
                Err(BuildError::Build) => !success,
                Err(BuildError::NoPackage) => success && packages_in(
                    self@,
                    text::texts(files@),
                ).len() == 0,
                Err(_) => false,
            },
    {
        if !success {
            return Err(BuildError::Build);
        }
        let packages = collect_packages(self.dir.as_str(), files);
        proof {
            assert(text::texts(packages@).len() == packages@.len());
        }
        if packages.len() == 0 {
            return Err(BuildError::NoPackage);
        }
        Ok(BuildOutcome { packages })
    }
}

/// The phase that runs the code of the recipe has no route off the machine: its
/// sandbox unshares the network, whatever the directory and the environment.
pub proof fn law_build_phase_has_no_network(
    dir: Seq<char>,
    term: Option<Seq<char>>,
    workdir: Seq<char>,
)
    ensures
        sandbox::restrictions(phase_sandbox(dir, false, term), workdir).contains(
            sandbox::RestrictionView::UnshareNet,
        ),
{
    sandbox::law_network_is_denied_unless_allowed(phase_sandbox(dir, false, term), workdir);
}

/// What was built is every file of the directory whose name holds `.pkg.tar.`,
/// and no other, as a path below the directory.
pub proof fn law_built_packages_are_collected(
    dir: Seq<char>,
    names: Seq<Seq<char>>,
    path: Seq<char>,
)
    ensures
        packages_in(dir, names).contains(path) <==> exists|i: int|
            0 <= i < names.len() && text::contains_text(#[trigger] names[i], ".pkg.tar."@) && path
                == paths::joined(dir, names[i]),
{
    let keep = |n: Seq<char>| is_package_file(n);
    let kept = names.filter(keep);
    let sorted = sort::by_key(kept, sort::itself());
    let all = packages_in(dir, names);
    sort::lemma_by_key_keeps(kept, sort::itself());
    kept.to_multiset_ensures();
    sorted.to_multiset_ensures();
    if all.contains(path) {
        let i = choose|i: int| 0 <= i < all.len() && all[i] == path;
        let n = sorted[i];
        assert(sorted.to_multiset().count(n) > 0);
        assert(kept.contains(n));
        lemma_kept(names, n);
        let j = choose|j: int| 0 <= j < names.len() && names[j] == n;
        assert(text::contains_text(names[j], ".pkg.tar."@));
    }
    if exists|i: int|
        0 <= i < names.len() && text::contains_text(#[trigger] names[i], ".pkg.tar."@) && path
            == paths::joined(dir, names[i]) {
        let i = choose|i: int|
            0 <= i < names.len() && text::contains_text(#[trigger] names[i], ".pkg.tar."@) && path
                == paths::joined(dir, names[i]);
        let n = names[i];
        assert(names.contains(n));
        lemma_kept(names, n);
        assert(kept.to_multiset().count(n) > 0);
        assert(sorted.contains(n));
        let j = choose|j: int| 0 <= j < sorted.len() && sorted[j] == n;
        assert(all[j] == path);
    }
}

proof fn lemma_kept(names: Seq<Seq<char>>, n: Seq<char>)
    ensures
        names.filter(|m: Seq<char>| is_package_file(m)).contains(n) <==> names.contains(n)
            && is_package_file(n),
    decreases names.len(),
{
    let keep = |m: Seq<char>| is_package_file(m);
    reveal(Seq::filter);
    if names.len() > 0 {
        let rest = names.drop_last();
        lemma_kept(rest, n);
        let before = rest.filter(keep);
        let now = names.filter(keep);
        if now.contains(n) {
            let i = choose|i: int| 0 <= i < now.len() && now[i] == n;
            if i < before.len() {
                assert(before[i] == n);
                let j = choose|j: int| 0 <= j < rest.len() && rest[j] == n;
                assert(names[j] == n);
            } else {
                assert(names[names.len() - 1] == n);
            }
        }
        if names.contains(n) && is_package_file(n) {
            let j = choose|j: int| 0 <= j < names.len() && names[j] == n;
            if j < rest.len() {
                assert(rest[j] == n);
                let i = choose|i: int| 0 <= i < before.len() && before[i] == n;
                assert(now[i] == n);
            } else {
                assert(now[before.len() as int] == n);
            }
        }
    }
}

/// Both phases work in the directory of the package and see nothing else of the
/// user; only the phase that fetches the sources has the network.
pub proof fn law_phases(dir: Seq<char>, term: Option<Seq<char>>)
    ensures
        phase_sandbox(dir, true, term).allow_network,
        !phase_sandbox(dir, false, term).allow_network,
        forall|network: bool|
            (#[trigger] phase_sandbox(dir, network, term)).workdir == dir && phase_sandbox(
                dir,
                network,
                term,
            ).ro_binds.len() == 0 && phase_sandbox(dir, network, term).env == sandbox::base_env(
                term,
            ),
        MAKEPKG@ == "/usr/bin/makepkg"@,
{
}

/// The paths are those of the files, which are all files with `.pkg.tar.` in their
/// names, in ascending order.
pub open spec fn lists_packages(
    paths: Seq<Seq<char>>,
    dir: Seq<char>,
    names: Seq<Seq<char>>,
    files: Seq<Seq<char>>,
) -> bool {
    &&& files.to_multiset() == names.filter(
        |n: Seq<char>| text::contains_text(n, ".pkg.tar."@),
    ).to_multiset()
    &&& paths.len() == files.len()
    &&& forall|i: int| 0 <= i < files.len() ==> #[trigger] paths[i] == paths::joined(dir, files[i])
    &&& forall|i: int, j: int|
        0 <= i < j < files.len() ==> !order::text_lt(#[trigger] files[j], #[trigger] files[i])
}

/// What was built is listed in ascending order of the file names, and no file is
/// listed more often than it is there.
pub proof fn law_built_packages_are_in_order(dir: Seq<char>, names: Seq<Seq<char>>)
    ensures
        exists|files: Seq<Seq<char>>| #[trigger]
            lists_packages(packages_in(dir, names), dir, names, files),
{
    let keep = |n: Seq<char>| is_package_file(n);
    assert(keep =~= (|n: Seq<char>| text::contains_text(n, ".pkg.tar."@)));
    let kept = names.filter(keep);
    let files = sort::by_key(kept, sort::itself());
    sort::lemma_by_key_keeps(kept, sort::itself());
    sort::lemma_by_key_sorted(kept, sort::itself());
    assert forall|i: int, j: int| 0 <= i < j < files.len() implies !order::text_lt(
        #[trigger] files[j],
        #[trigger] files[i],
    ) by {
        let key = sort::itself();
        assert(!order::text_lt(key(files[j]), key(files[i])));
    }
    assert(lists_packages(packages_in(dir, names), dir, names, files));
}

} // verus!
