//! The build recipe of a package: what is read of it, without executing
//! anything.

use crate::pattern;
use crate::text;
use vstd::prelude::*;

verus! {

/// Where single files of a package repository can be read.
pub const CGIT_PLAIN: &'static str = "https://aur.archlinux.org/cgit/aur.git/plain";

/// One file of a package repository.
#[derive(Debug, Clone)]
pub struct SourceFile {
    /// File name as it lives in the repository, e.g. `PKGBUILD` or
    /// `foo.install`.
    pub name: String,
    pub content: String,
}

/// Everything that was read of a package, ready to be scanned.
#[derive(Debug, Clone)]
pub struct SourceBundle {
    pub package_base: String,
    pub pkgbuild: String,
    /// The `.install` hook files that the recipe refers to (may be empty).
    pub install_files: Vec<SourceFile>,
}

/// Names and contents of a list of files.
pub open spec fn files_of(v: Seq<SourceFile>) -> Seq<(Seq<char>, Seq<char>)> {
    Seq::new(v.len(), |i: int| (v[i].name@, v[i].content@))
}

/// Names and contents of a list of borrowed files.
pub open spec fn borrowed(v: Seq<(&str, &str)>) -> Seq<(Seq<char>, Seq<char>)> {
    Seq::new(v.len(), |i: int| (v[i].0@, v[i].1@))
}

/// Names and contents of all files of a bundle, the recipe first.
pub open spec fn bundle_files(b: SourceBundle) -> Seq<(Seq<char>, Seq<char>)> {
    seq![("PKGBUILD"@, b.pkgbuild@)] + files_of(b.install_files@)
}

impl SourceBundle {
    /// Every file as `(name, content)`, the recipe first.
    pub fn files(&self) -> (r: Vec<(&str, &str)>)
        ensures
            borrowed(r@) == bundle_files(*self),
    {
        let ghost rest = files_of(self.install_files@);
        let ghost first = seq![("PKGBUILD"@, self.pkgbuild@)];
        let mut out: Vec<(&str, &str)> = Vec::new();
        out.push(("PKGBUILD", self.pkgbuild.as_str()));
        proof {
            assert(borrowed(out@) =~= first + rest.take(0));
        }
        let mut i: usize = 0;
        while i < self.install_files.len()
            invariant
                i <= self.install_files@.len(),
                rest == files_of(self.install_files@),
                borrowed(out@) == first + rest.take(i as int),
            decreases self.install_files@.len() - i,
        {
            let ghost before = borrowed(out@);
            let f = &self.install_files[i];
            out.push((f.name.as_str(), f.content.as_str()));
            proof {
                assert(borrowed(out@) =~= before.push((f.name@, f.content@)));
                assert(borrowed(out@) =~= first + rest.take(i + 1));
            }
            i += 1;
        }
        proof {
            assert(rest.take(rest.len() as int) =~= rest);
        }
        out
    }
}

/// The address of one file of a package repository.
pub fn plain_url(package_base: &str, file: &str) -> (r: String)
    ensures
        r@ == CGIT_PLAIN@ + "/"@ + file@ + "?h="@ + package_base@,
{
    let head = text::concat3(CGIT_PLAIN, "/", file);
    text::concat3(head.as_str(), "?h=", package_base)
}

/// A declared file name with the package base put in for the variables that
/// stand for it.
pub open spec fn resolved(raw: Seq<char>, base: Seq<char>) -> Seq<char> {
    text::replaced(
        text::replaced(
            text::replaced(
                text::replaced(raw, "${pkgbase}"@, base),
                "$pkgbase"@,
                base,
            ),
            "${pkgname}"@,
            base,
        ),
        "$pkgname"@,
        base,
    )
}

fn resolve_name(raw: &str, base: &str) -> (r: String)
    ensures
        r@ == resolved(raw@, base@),
{
    proof {
        reveal_strlit("${pkgbase}");
        reveal_strlit("$pkgbase");
        reveal_strlit("${pkgname}");
        reveal_strlit("$pkgname");
    }
    let a = text::replace(raw, "${pkgbase}", base);
    let b = text::replace(a.as_str(), "$pkgbase", base);
    let c = text::replace(b.as_str(), "${pkgname}", base);
    text::replace(c.as_str(), "$pkgname", base)
}

/// The file names that declarations give, each once, in the order in which they
/// are first declared.
pub open spec fn declared(
    found: Seq<(Option<Seq<char>>, Option<Seq<char>>, int, int)>,
    base: Seq<char>,
) -> Seq<Seq<char>>
    decreases found.len(),
{
    if found.len() == 0 {
        Seq::empty()
    } else {
        let before = declared(found.drop_last(), base);
        match found.last().0 {
            Some(raw) if !before.contains(resolved(raw, base)) => before.push(resolved(raw, base)),
            _ => before,
        }
    }
}

/// The file names that the declarations found in a recipe give.
pub fn install_names(
    found: &Vec<(Option<String>, Option<String>, usize, usize)>,
    package_base: &str,
) -> (r: Vec<String>)
    ensures
        text::texts(r@) == declared(pattern::captures_of(found@), package_base@),
{
    let ghost all = pattern::captures_of(found@);
    let mut names: Vec<String> = Vec::new();
    let mut i: usize = 0;
    proof {
        assert(text::texts(names@) =~= Seq::<Seq<char>>::empty());
    }
    while i < found.len()
        invariant
            i <= found@.len(),
            all == pattern::captures_of(found@),
            text::texts(names@) == declared(all.take(i as int), package_base@),
        decreases found@.len() - i,
    {
        let ghost before = text::texts(names@);
        proof {
            assert(all.take(i + 1).drop_last() =~= all.take(i as int));
            assert(all.take(i + 1).last() == all[i as int]);
        }
        if let Some(raw) = &found[i].0 {
            let name = resolve_name(raw.as_str(), package_base);
            if !text::list_contains(&names, name.as_str()) {
                names.push(name);
                proof {
                    assert(text::texts(names@) =~= before.push(name@));
                }
            }
        }
        i += 1;
    }
    proof {
        assert(all.take(all.len() as int) =~= all);
    }
    names
}

/// The `.install` hook files that a recipe refers to.
pub open spec fn install_files(pkgbuild: Seq<char>, base: Seq<char>) -> Seq<Seq<char>> {
    declared(pattern::regex_captures(pattern::INSTALL_FILE@, pkgbuild), base)
}

/// The `install=` declarations of a recipe, with `$pkgname` and `$pkgbase`
/// resolved to the package base.
pub fn referenced_install_files(pkgbuild: &str, package_base: &str) -> (r: Vec<String>)
    ensures
        text::texts(r@) == install_files(pkgbuild@, package_base@),
{
    let found = pattern::captures(pattern::INSTALL_FILE, pkgbuild);
    install_names(&found, package_base)
}

/// The content of the first file of a list that has this name.
pub open spec fn content_in(files: Seq<SourceFile>, name: Seq<char>) -> Option<Seq<char>>
    decreases files.len(),
{
    if files.len() == 0 {
        None
    } else if files[0].name@ == name {
        Some(files[0].content@)
    } else {
        content_in(files.drop_first(), name)
    }
}

/// The named files that could be read, with their contents, in the order of the
/// names.
pub open spec fn readable(names: Seq<Seq<char>>, read: Seq<SourceFile>) -> Seq<
    (Seq<char>, Seq<char>),
>
    decreases names.len(),
{
    if names.len() == 0 {
        Seq::empty()
    } else {
        let before = readable(names.drop_last(), read);
        match content_in(read, names.last()) {
            Some(content) => before.push((names.last(), content)),
            None => before,
        }
    }
}

fn find_content(files: &Vec<SourceFile>, name: &str) -> (r: Option<String>)
    ensures
        text::opt_text(r) == content_in(files@, name@),
{
    let ghost all = files@;
    let mut i: usize = 0;
    proof {
        assert(all.skip(0) =~= all);
    }
    while i < files.len()
        invariant
            i <= files@.len(),
            all == files@,
            content_in(all, name@) == content_in(all.skip(i as int), name@),
        decreases files@.len() - i,
    {
        proof {
            assert(all.skip(i as int)[0] == all[i as int]);
            assert(all.skip(i as int).drop_first() =~= all.skip(i + 1));
        }
        if text::same(files[i].name.as_str(), name) {
            return Some(files[i].content.clone());
        }
        i += 1;
    }
    None
}

/// The bundle of a recipe that names these hook files, of which `read` could be
/// read. A declared file that could not be read is left out.
pub fn bundle_of(
    package_base: &str,
    pkgbuild: String,
    names: &Vec<String>,
    read: &Vec<SourceFile>,
) -> (r: SourceBundle)
    ensures
        r.package_base@ == package_base@,
        r.pkgbuild@ == pkgbuild@,
        files_of(r.install_files@) == readable(text::texts(names@), read@),
{
    let ghost all = text::texts(names@);
    let mut install_files: Vec<SourceFile> = Vec::new();
    let mut i: usize = 0;
    proof {
        assert(files_of(install_files@) =~= Seq::<(Seq<char>, Seq<char>)>::empty());
    }
    while i < names.len()
        invariant
            i <= names@.len(),
            all == text::texts(names@),
            files_of(install_files@) == readable(all.take(i as int), read@),
        decreases names@.len() - i,
    {
        let ghost before = files_of(install_files@);
        proof {
            assert(all.take(i + 1).drop_last() =~= all.take(i as int));
            assert(all.take(i + 1).last() == names@[i as int]@);
        }
        if let Some(content) = find_content(read, names[i].as_str()) {
            install_files.push(SourceFile { name: names[i].clone(), content });
            proof {
                assert(files_of(install_files@) =~= before.push((names@[i as int]@, content@)));
            }
        }
        i += 1;
    }
    proof {
        assert(all.take(all.len() as int) =~= all);
    }
    SourceBundle { package_base: String::from_str(package_base), pkgbuild, install_files }
}

/// The bundle of a recipe holds the recipe and those of the hook files that the
/// recipe names, for its base, that could be read.
pub open spec fn is_bundle(
    b: SourceBundle,
    base: Seq<char>,
    pkgbuild: Seq<char>,
    read: Seq<SourceFile>,
) -> bool {
    &&& b.package_base@ == base
    &&& b.pkgbuild@ == pkgbuild
    &&& files_of(b.install_files@) == readable(install_files(pkgbuild, base), read)
}

/// The bundle of a package whose recipe was fetched, with those of its hook
/// files that could be fetched.
pub fn fetch(package_base: &str, pkgbuild: String, fetched: &Vec<SourceFile>) -> (r: SourceBundle)
    ensures
        is_bundle(r, package_base@, pkgbuild@, fetched@),
{
    let names = referenced_install_files(pkgbuild.as_str(), package_base);
    bundle_of(package_base, pkgbuild, &names, fetched)
}

/// The package base of a recipe in a local directory: the base if it is known,
/// else the name of the directory, else `local`.
pub open spec fn base_of(package_base: Option<Seq<char>>, dir_name: Option<Seq<char>>) -> Seq<char> {
    match package_base {
        Some(base) => base,
        None => match dir_name {
            Some(name) => name,
            None => "local"@,
        },
    }
}

/// The package base of a recipe in a local directory. It is known of a clone,
/// whose directory may have any name.
pub fn local_base(package_base: Option<&str>, dir_name: Option<&str>) -> (r: String)
    ensures
        r@ == base_of(text::opt_slice(package_base), text::opt_slice(dir_name)),
{
    match package_base {
        Some(base) => String::from_str(base),
        None => match dir_name {
            Some(name) => String::from_str(name),
            None => String::from_str("local"),
        },
    }
}

/// The bundle of a recipe that was read from a local directory, with those of
/// its hook files that could be read. Of a clone of a known base it reads the
/// files that [`fetch`] would.
pub fn load_local(
    package_base: Option<&str>,
    dir_name: Option<&str>,
    pkgbuild: String,
    read: &Vec<SourceFile>,
) -> (r: SourceBundle)
    ensures
        is_bundle(
            r,
            base_of(text::opt_slice(package_base), text::opt_slice(dir_name)),
            pkgbuild@,
            read@,
        ),
{
    let base = local_base(package_base, dir_name);
    fetch(base.as_str(), pkgbuild, read)
}

/// A clone of a base that is audited again gives the same files as a fetch of
/// the base, whatever the name of its directory.
pub proof fn law_clone_reads_what_fetch_reads(
    fetched: SourceBundle,
    cloned: SourceBundle,
    base: Seq<char>,
    dir_name: Option<Seq<char>>,
    pkgbuild: Seq<char>,
    files: Seq<SourceFile>,
)
    requires
        is_bundle(fetched, base, pkgbuild, files),
        is_bundle(cloned, base_of(Some(base), dir_name), pkgbuild, files),
    ensures
        cloned.package_base@ == fetched.package_base@,
        bundle_files(cloned) == bundle_files(fetched),
{
}

/// A package base that names a repository of the AUR.
pub open spec fn is_package_base(s: Seq<char>) -> bool {
    s.len() > 0 && forall|i: int| 0 <= i < s.len() ==> text::is_name_char(#[trigger] s[i])
}

fn package_base_ok(s: &str) -> (r: bool)
    ensures
        r == is_package_base(s@),
{
    let cs = text::chars_of(s);
    let mut i: usize = 0;
    while i < cs.len()
        invariant
            i <= cs@.len(),
            cs@ == s@,
            forall|j: int| 0 <= j < i ==> text::is_name_char(#[trigger] cs@[j]),
        decreases cs@.len() - i,
    {
        if !text::name_char(cs[i]) {
            return false;
        }
        i += 1;
    }
    cs.len() > 0
}

/// The address of the git repository of a package base.
pub open spec fn git_url(base: Seq<char>) -> Seq<char> {
    "https://aur.archlinux.org/"@ + base + ".git"@
}

/// A package base that could lead out of the path of the repositories.
#[derive(Debug)]
pub struct InvalidBase {
    pub package_base: String,
}

/// The arguments for `git` that clone the repository of a package into `dest`
/// (shallow). Refuses a base that could lead out of the path of the
/// repositories.
pub fn clone(package_base: &str, dest: &str) -> (r: Result<Vec<String>, InvalidBase>)
    ensures
        match r {
            Ok(args) => {
                &&& is_package_base(package_base@)
                &&& text::texts(args@) == seq![
                    "clone"@,
                    "--depth"@,
                    "1"@,
                    "--quiet"@,
                    git_url(package_base@),
                    dest@,
                ]
            },
            Err(e) => !is_package_base(package_base@) && e.package_base@ == package_base@,
        },
{
    if !package_base_ok(package_base) {
        return Err(InvalidBase { package_base: String::from_str(package_base) });
    }
    let mut args: Vec<String> = Vec::new();
    args.push(String::from_str("clone"));
    args.push(String::from_str("--depth"));
    args.push(String::from_str("1"));
    args.push(String::from_str("--quiet"));
    args.push(text::concat3("https://aur.archlinux.org/", package_base, ".git"));
    args.push(String::from_str(dest));
    proof {
        assert(text::texts(args@) =~= seq![
            "clone"@,
            "--depth"@,
            "1"@,
            "--quiet"@,
            git_url(package_base@),
            dest@,
        ]);
    }
    Ok(args)
}

/// A package base that is accepted holds nothing that separates or ends the
/// path of a URL.
pub proof fn law_package_base_stays_in_path(base: Seq<char>)
    requires
        is_package_base(base),
    ensures
        !base.contains('/'),
        !base.contains('?'),
        !base.contains('#'),
        !base.contains('%'),
        !base.contains(':'),
        !base.contains('@'),
{
}

/// The base stands in for each of the four variables, and what is not a variable
/// stays.
pub proof fn law_variables_stand_for_the_base(a: Seq<char>, b: Seq<char>, base: Seq<char>)
    requires
        !a.contains('$') && !b.contains('$') && !base.contains('$'),
    ensures
        resolved(a, base) == a,
        resolved(a + "${pkgbase}"@ + b, base) == a + base + b,
        resolved(a + "$pkgbase"@ + b, base) == a + base + b,
        resolved(a + "${pkgname}"@ + b, base) == a + base + b,
        resolved(a + "$pkgname"@ + b, base) == a + base + b,
{
    reveal_strlit("${pkgbase}");
    reveal_strlit("$pkgbase");
    reveal_strlit("${pkgname}");
    reveal_strlit("$pkgname");
    lemma_no_variable(a, base);
    let done = a + base + b;
    assert(!done.contains('$')) by {
        if done.contains('$') {
            let i = choose|i: int| 0 <= i < done.len() && done[i] == '$';
            if i < a.len() {
                assert(a.contains(a[i]));
            } else if i < a.len() + base.len() {
                assert(base.contains(base[i - a.len()]));
            } else {
                assert(b.contains(b[i - a.len() - base.len()]));
            }
        }
    }
    lemma_no_variable(done, base);
    lemma_variable(a, "${pkgbase}"@, b, base);
    lemma_variable(a, "$pkgbase"@, b, base);
    lemma_variable(a, "${pkgname}"@, b, base);
    lemma_variable(a, "$pkgname"@, b, base);
    lemma_other_variable(a, "$pkgbase"@, b, "${pkgbase}"@, base, 1);
    lemma_other_variable(a, "${pkgname}"@, b, "${pkgbase}"@, base, 5);
    lemma_other_variable(a, "${pkgname}"@, b, "$pkgbase"@, base, 1);
    lemma_other_variable(a, "$pkgname"@, b, "${pkgbase}"@, base, 1);
    lemma_other_variable(a, "$pkgname"@, b, "$pkgbase"@, base, 4);
    lemma_other_variable(a, "$pkgname"@, b, "${pkgname}"@, base, 1);
}

proof fn lemma_no_pattern(s: Seq<char>, pat: Seq<char>)
    requires
        !s.contains('$'),
        pat.len() > 0 && pat[0] == '$',
    ensures
        !text::contains_text(s, pat),
{
    if text::contains_text(s, pat) {
        let i = choose|i: int| text::occurs_at(s, pat, i);
        assert(s.subrange(i, i + pat.len())[0] == s[i]);
        assert(s.contains(s[i]));
    }
}

/// A text without `$` holds no variable.
proof fn lemma_no_variable(s: Seq<char>, base: Seq<char>)
    requires
        !s.contains('$'),
    ensures
        text::replaced(s, "${pkgbase}"@, base) == s,
        text::replaced(s, "$pkgbase"@, base) == s,
        text::replaced(s, "${pkgname}"@, base) == s,
        text::replaced(s, "$pkgname"@, base) == s,
{
    reveal_strlit("${pkgbase}");
    reveal_strlit("$pkgbase");
    reveal_strlit("${pkgname}");
    reveal_strlit("$pkgname");
    lemma_unchanged(s, "${pkgbase}"@, base);
    lemma_unchanged(s, "$pkgbase"@, base);
    lemma_unchanged(s, "${pkgname}"@, base);
    lemma_unchanged(s, "$pkgname"@, base);
}

proof fn lemma_unchanged(s: Seq<char>, pat: Seq<char>, base: Seq<char>)
    requires
        !s.contains('$'),
        pat.len() > 0 && pat[0] == '$',
    ensures
        text::replaced(s, pat, base) == s,
{
    lemma_no_pattern(s, pat);
    text::lemma_first_at(s, pat, 0);
    if text::first_at(s, pat, 0) is Some {
        assert(text::occurs_at(s, pat, text::first_at(s, pat, 0)->0));
    }
}

/// Around a variable that is the only `$`, nothing else can start one.
proof fn lemma_only_here(a: Seq<char>, v: Seq<char>, b: Seq<char>, pat: Seq<char>)
    requires
        !a.contains('$') && !b.contains('$'),
        v.len() > 0 && v[0] == '$',
        forall|i: int| 0 < i < v.len() ==> v[i] != '$',
        pat.len() > 0 && pat[0] == '$',
    ensures
        forall|i: int| i != a.len() ==> !#[trigger] text::occurs_at(a + v + b, pat, i),
{
    let s = a + v + b;
    assert forall|i: int| i != a.len() implies !#[trigger] text::occurs_at(s, pat, i) by {
        if text::occurs_at(s, pat, i) {
            assert(s.subrange(i, i + pat.len())[0] == s[i]);
            assert(s[i] == '$');
            if i < a.len() {
                assert(a.contains(a[i]));
            } else if i < a.len() + v.len() {
                assert(s[i] == v[i - a.len()]);
            } else {
                assert(b.contains(b[i - a.len() - v.len()]));
            }
        }
    }
}

/// A variable is replaced.
proof fn lemma_variable(a: Seq<char>, v: Seq<char>, b: Seq<char>, base: Seq<char>)
    requires
        !a.contains('$') && !b.contains('$'),
        v.len() > 0 && v[0] == '$',
        forall|i: int| 0 < i < v.len() ==> v[i] != '$',
    ensures
        text::replaced(a + v + b, v, base) == a + base + b,
{
    lemma_only_here(a, v, b, v);
    lemma_no_pattern(a, v);
    lemma_unchanged(b, v, base);
    text::law_replacing(a, v, b, base, a);
}

/// Another variable than the one that stands there is not found.
proof fn lemma_other_variable(
    a: Seq<char>,
    v: Seq<char>,
    b: Seq<char>,
    pat: Seq<char>,
    base: Seq<char>,
    at: int,
)
    requires
        !a.contains('$') && !b.contains('$'),
        v.len() > 0 && v[0] == '$',
        forall|i: int| 0 < i < v.len() ==> v[i] != '$',
        pat.len() > 0 && pat[0] == '$',
        0 < at < v.len() && at < pat.len() && v[at] != pat[at],
    ensures
        text::replaced(a + v + b, pat, base) == a + v + b,
{
    let s = a + v + b;
    lemma_only_here(a, v, b, pat);
    text::lemma_first_at(s, pat, 0);
    if text::first_at(s, pat, 0) is Some {
        let i = text::first_at(s, pat, 0)->0;
        assert(text::occurs_at(s, pat, i));
        assert(i == a.len());
        assert(s.subrange(i, i + pat.len())[at] == s[i + at]);
        assert(s[i + at] == v[at]);
    }
}

/// Every declared hook file is listed, each once, and nothing that is not
/// declared.
pub proof fn law_declared_files_are_listed(
    found: Seq<(Option<Seq<char>>, Option<Seq<char>>, int, int)>,
    base: Seq<char>,
    name: Seq<char>,
)
    ensures
        declared(found, base).contains(name) <==> exists|i: int|
            0 <= i < found.len() && ((#[trigger] found[i]).0 matches Some(raw) && resolved(raw, base)
                == name),
        declared(found, base).no_duplicates(),
    decreases found.len(),
{
    if found.len() > 0 {
        let rest = found.drop_last();
        law_declared_files_are_listed(rest, base, name);
        let before = declared(rest, base);
        let now = declared(found, base);
        if now.contains(name) {
            let j = choose|j: int| 0 <= j < now.len() && now[j] == name;
            if j < before.len() {
                assert(before[j] == name);
                let i = choose|i: int|
                    0 <= i < rest.len() && ((#[trigger] rest[i]).0 matches Some(raw) && resolved(
                        raw,
                        base,
                    ) == name);
                assert(found[i] == rest[i]);
            } else {
                assert(found[found.len() - 1] == found.last());
            }
        }
        if exists|i: int|
            0 <= i < found.len() && ((#[trigger] found[i]).0 matches Some(raw) && resolved(raw, base)
                == name) {
            let i = choose|i: int|
                0 <= i < found.len() && ((#[trigger] found[i]).0 matches Some(raw) && resolved(
                    raw,
                    base,
                ) == name);
            if i < rest.len() {
                assert(rest[i] == found[i]);
                let j = choose|j: int| 0 <= j < before.len() && before[j] == name;
                assert(now[j] == name);
            } else if !before.contains(name) {
                assert(now[before.len() as int] == name);
            } else {
                let j = choose|j: int| 0 <= j < before.len() && before[j] == name;
                assert(now[j] == name);
            }
        }
        assert forall|i: int, j: int| 0 <= i < now.len() && 0 <= j < now.len() && i != j implies now[i]
            != now[j] by {
            if i == before.len() {
                assert(before.contains(before[j]));
            } else if j == before.len() {
                assert(before.contains(before[i]));
            }
        }
    }
}

/// A file is in a bundle exactly if it is named and could be read, with what was
/// read of the first file of its name.
pub proof fn law_readable_files_are_kept(
    names: Seq<Seq<char>>,
    read: Seq<SourceFile>,
    name: Seq<char>,
    content: Seq<char>,
)
    ensures
        readable(names, read).contains((name, content)) <==> names.contains(name) && exists|i: int|
            0 <= i < read.len() && (#[trigger] read[i]).name@ == name && read[i].content@ == content
                && forall|j: int| 0 <= j < i ==> (#[trigger] read[j]).name@ != name,
    decreases names.len(),
{
    lemma_first_file(read, name);
    let f = (name, content);
    if names.len() > 0 {
        let rest = names.drop_last();
        law_readable_files_are_kept(rest, read, name, content);
        let before = readable(rest, read);
        let now = readable(names, read);
        if now.contains(f) {
            let j = choose|j: int| 0 <= j < now.len() && now[j] == f;
            if j < before.len() {
                assert(before[j] == f);
                let i = choose|i: int| 0 <= i < rest.len() && rest[i] == name;
                assert(names[i] == name);
            } else {
                assert(names[names.len() - 1] == name);
            }
        }
        if names.contains(name) && content_in(read, name) == Some(content) {
            let i = choose|i: int| 0 <= i < names.len() && names[i] == name;
            if i < rest.len() {
                assert(rest[i] == name);
                let j = choose|j: int| 0 <= j < before.len() && before[j] == f;
                assert(now[j] == f);
            } else {
                assert(now[before.len() as int] == f);
            }
        }
    }
}

proof fn lemma_first_file(read: Seq<SourceFile>, name: Seq<char>)
    ensures
        forall|content: Seq<char>|
            content_in(read, name) == Some(content) <==> exists|i: int|
                0 <= i < read.len() && (#[trigger] read[i]).name@ == name && read[i].content@
                    == content && forall|j: int| 0 <= j < i ==> (#[trigger] read[j]).name@ != name,
    decreases read.len(),
{
    assert forall|content: Seq<char>|
        content_in(read, name) == Some(content) <==> exists|i: int|
            0 <= i < read.len() && (#[trigger] read[i]).name@ == name && read[i].content@ == content
                && forall|j: int| 0 <= j < i ==> (#[trigger] read[j]).name@ != name by {
        if read.len() > 0 {
            let rest = read.drop_first();
            lemma_first_file(rest, name);
            if read[0].name@ != name {
                if content_in(rest, name) == Some(content) {
                    let i = choose|i: int|
                        0 <= i < rest.len() && (#[trigger] rest[i]).name@ == name
                            && rest[i].content@ == content && forall|j: int|
                            0 <= j < i ==> (#[trigger] rest[j]).name@ != name;
                    assert(read[i + 1] == rest[i]);
                    assert forall|j: int| 0 <= j < i + 1 implies (#[trigger] read[j]).name@ != name by {
                        if j > 0 {
                            assert(rest[j - 1] == read[j]);
                        }
                    }
                }
                if exists|i: int|
                    0 <= i < read.len() && (#[trigger] read[i]).name@ == name && read[i].content@
                        == content && forall|j: int|
                        0 <= j < i ==> (#[trigger] read[j]).name@ != name {
                    let i = choose|i: int|
                        0 <= i < read.len() && (#[trigger] read[i]).name@ == name
                            && read[i].content@ == content && forall|j: int|
                            0 <= j < i ==> (#[trigger] read[j]).name@ != name;
                    assert(rest[i - 1] == read[i]);
                    assert forall|j: int| 0 <= j < i - 1 implies (#[trigger] rest[j]).name@ != name by {
                        assert(rest[j] == read[j + 1]);
                    }
                }
            } else {
                if content_in(read, name) == Some(content) {
                    assert(read[0].content@ == content);
                }
                if exists|i: int|
                    0 <= i < read.len() && (#[trigger] read[i]).name@ == name && read[i].content@
                        == content && forall|j: int|
                        0 <= j < i ==> (#[trigger] read[j]).name@ != name {
                    let i = choose|i: int|
                        0 <= i < read.len() && (#[trigger] read[i]).name@ == name
                            && read[i].content@ == content && forall|j: int|
                            0 <= j < i ==> (#[trigger] read[j]).name@ != name;
                    if i > 0 {
                        assert(read[0].name@ != name);
                    }
                }
            }
        }
    }
}

/// A bundle is the recipe under its usual name, then every hook file.
pub proof fn law_recipe_comes_first(b: SourceBundle, i: int)
    ensures
        bundle_files(b).len() == b.install_files@.len() + 1,
        bundle_files(b)[0] == ("PKGBUILD"@, b.pkgbuild@),
        0 <= i < b.install_files@.len() ==> bundle_files(b)[i + 1] == (
            b.install_files@[i].name@,
            b.install_files@[i].content@,
        ),
{
}

/// A package is cloned from the repository of its base, and of a local recipe the
/// base that is known counts before the name of the directory.
pub proof fn law_repositories_and_bases(base: Seq<char>, dir: Seq<char>, other: Option<Seq<char>>)
    ensures
        git_url(base) == "https://aur.archlinux.org/"@ + base + ".git"@,
        base_of(Some(base), other) == base,
        base_of(None, Some(dir)) == dir,
        base_of(None, None) == "local"@,
{
}

/// A package base is accepted exactly if it is not empty and made of letters,
/// digits and `-_.+` alone.
pub proof fn law_accepted_bases(base: Seq<char>)
    ensures
        is_package_base(base) <==> base.len() > 0 && forall|i: int|
            0 <= i < base.len() ==> {
                let c = (#[trigger] base[i]) as int;
                (0x61 <= c <= 0x7a) || (0x41 <= c <= 0x5a) || (0x30 <= c <= 0x39) || c == 0x2d || c
                    == 0x5f || c == 0x2e || c == 0x2b
            },
{
    if base.len() > 0 && forall|i: int|
        0 <= i < base.len() ==> {
            let c = (#[trigger] base[i]) as int;
            (0x61 <= c <= 0x7a) || (0x41 <= c <= 0x5a) || (0x30 <= c <= 0x39) || c == 0x2d || c
                == 0x5f || c == 0x2e || c == 0x2b
        } {
        assert forall|i: int| 0 <= i < base.len() implies text::is_name_char(#[trigger] base[i]) by {
            let c = base[i] as int;
            assert(0x61 <= c <= 0x7a || 0x41 <= c <= 0x5a || 0x30 <= c <= 0x39 || c == 0x2d || c
                == 0x5f || c == 0x2e || c == 0x2b);
        }
    }
}

/// Hook files are listed in the order in which they are first declared, and kept
/// in the order in which they are listed.
pub proof fn law_hook_files_are_in_order(
    found: Seq<(Option<Seq<char>>, Option<Seq<char>>, int, int)>,
    next: (Option<Seq<char>>, Option<Seq<char>>, int, int),
    base: Seq<char>,
    names: Seq<Seq<char>>,
    name: Seq<char>,
    read: Seq<SourceFile>,
)
    ensures
        declared(found, base).is_prefix_of(declared(found.push(next), base)),
        declared(found.push(next), base).len() <= declared(found, base).len() + 1,
        readable(names, read).is_prefix_of(readable(names.push(name), read)),
        readable(names.push(name), read).len() <= readable(names, read).len() + 1,
{
    assert(found.push(next).drop_last() =~= found);
    assert(names.push(name).drop_last() =~= names);
    let a = declared(found, base);
    let b = declared(found.push(next), base);
    assert(a =~= b.subrange(0, a.len() as int));
    let c = readable(names, read);
    let d = readable(names.push(name), read);
    assert(c =~= d.subrange(0, c.len() as int));
}

} // verus!
