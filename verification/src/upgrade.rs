//! Installed packages that can be upgraded: those with a newer version in the
//! AUR, and those built from version control whose upstream moved on.

use crate::names::NameMap;
use crate::package::PackageMeta;
use crate::pacman;
use crate::sort;
use crate::sort::Named;
use crate::text;
use vstd::prelude::*;

verus! {

/// An installed AUR package with a newer version available upstream.
#[derive(Debug)]
pub struct Upgrade {
    pub name: String,
    pub installed: String,
    pub available: String,
}

/// The contents of an upgrade.
pub struct UpgradeView {
    pub name: Seq<char>,
    pub installed: Seq<char>,
    pub available: Seq<char>,
}

impl View for Upgrade {
    type V = UpgradeView;

    open spec fn view(&self) -> UpgradeView {
        UpgradeView {
            name: self.name@,
            installed: self.installed@,
            available: self.available@,
        }
    }
}

impl Named for Upgrade {
    open spec fn key(&self) -> Seq<char> {
        self.name@
    }

    fn name(&self) -> (r: &str) {
        self.name.as_str()
    }
}

/// Picks the name of an upgrade.
pub open spec fn view_name() -> spec_fn(UpgradeView) -> Seq<char> {
    |u: UpgradeView| u.name
}

/// The contents of a list of upgrades.
pub open spec fn upgrades_of(v: Seq<Upgrade>) -> Seq<UpgradeView> {
    Seq::new(v.len(), |i: int| v[i]@)
}

/// How many packages are asked for at once.
pub const CHUNK: usize = 50;

/// A list cut into pieces of `CHUNK`, the last of which may be shorter.
pub open spec fn chunks(s: Seq<Seq<char>>) -> Seq<Seq<Seq<char>>>
    decreases s.len(),
{
    if s.len() == 0 {
        Seq::empty()
    } else if s.len() <= CHUNK {
        seq![s]
    } else {
        seq![s.take(CHUNK as int)] + chunks(s.skip(CHUNK as int))
    }
}

/// The names of the packages of a list.
pub open spec fn names_of(v: Seq<(String, String)>) -> Seq<Seq<char>> {
    Seq::new(v.len(), |i: int| v[i].0@)
}

/// The names of the packages, in pieces that are asked for one at a time, so
/// that no request grows too long.
pub fn name_chunks(packages: &Vec<(String, String)>) -> (r: Vec<Vec<String>>)
    ensures
        Seq::new(r@.len(), |i: int| text::texts(r@[i]@)) == chunks(names_of(packages@)),
{
    let ghost all = names_of(packages@);
    let n: usize = packages.len();
    let mut out: Vec<Vec<String>> = Vec::new();
    let mut at: usize = 0;
    proof {
        assert(all.skip(0) =~= all);
        assert(Seq::new(out@.len(), |i: int| text::texts(out@[i]@)) + chunks(all) =~= chunks(all));
    }
    while at < n
        invariant
            n == packages@.len(),
            at <= n,
            all == names_of(packages@),
            Seq::new(out@.len(), |i: int| text::texts(out@[i]@)) + chunks(all.skip(at as int))
                == chunks(all),
        decreases n - at,
    {
        let end: usize = if n - at <= CHUNK {
            n
        } else {
            at + CHUNK
        };
        let mut piece: Vec<String> = Vec::new();
        let mut i: usize = at;
        while i < end
            invariant
                at <= i <= end <= n,
                n == packages@.len(),
                all == names_of(packages@),
                text::texts(piece@) == all.subrange(at as int, i as int),
            decreases end - i,
        {
            let ghost before = text::texts(piece@);
            piece.push(packages[i].0.clone());
            proof {
                assert(text::texts(piece@) =~= before.push(all[i as int]));
                assert(text::texts(piece@) =~= all.subrange(at as int, i + 1));
            }
            i += 1;
        }
        let ghost was = Seq::new(out@.len(), |i: int| text::texts(out@[i]@));
        let ghost rest = all.skip(at as int);
        out.push(piece);
        proof {
            let now = Seq::new(out@.len(), |i: int| text::texts(out@[i]@));
            assert(now =~= was.push(text::texts(piece@)));
            assert(text::texts(piece@) =~= rest.take(end - at));
            assert(rest.skip(end - at) =~= all.skip(end as int));
            if rest.len() <= CHUNK {
                assert(rest.take(end - at) =~= rest);
                assert(all.skip(end as int) =~= Seq::<Seq<char>>::empty());
            }
            assert(now + chunks(all.skip(end as int)) =~= was + chunks(rest));
        }
        at = end;
    }
    proof {
        assert(all.skip(at as int) =~= Seq::<Seq<char>>::empty());
        let done = Seq::new(out@.len(), |i: int| text::texts(out@[i]@));
        assert(done + Seq::<Seq<Seq<char>>>::empty() =~= done);
    }
    out
}

/// A text that the last package of a list with this name has.
pub open spec fn known(
    metas: Seq<PackageMeta>,
    name: Seq<char>,
    field: spec_fn(PackageMeta) -> Seq<char>,
) -> Option<Seq<char>>
    decreases metas.len(),
{
    if metas.len() == 0 {
        None
    } else if metas.last().name@ == name {
        Some(field(metas.last()))
    } else {
        known(metas.drop_last(), name, field)
    }
}

/// Picks the version of a package.
pub open spec fn version() -> spec_fn(PackageMeta) -> Seq<char> {
    |m: PackageMeta| m.version@
}

/// Picks the base of a package.
pub open spec fn base() -> spec_fn(PackageMeta) -> Seq<char> {
    |m: PackageMeta| m.package_base@
}

/// What a map says of a name.
pub open spec fn lookup(m: Map<Seq<char>, String>, name: Seq<char>) -> Option<Seq<char>> {
    if m.dom().contains(name) {
        Some(m[name]@)
    } else {
        None
    }
}

/// The versions of the packages, by name.
fn versions(metas: &Vec<PackageMeta>) -> (r: NameMap<String>)
    ensures
        forall|n: Seq<char>| #[trigger] lookup(r@, n) == known(metas@, n, version()),
{
    let ghost all = metas@;
    let mut out: NameMap<String> = NameMap::new();
    let mut i: usize = 0;
    while i < metas.len()
        invariant
            i <= metas@.len(),
            all == metas@,
            forall|n: Seq<char>| #[trigger]
                lookup(out@, n) == known(all.take(i as int), n, version()),
        decreases metas@.len() - i,
    {
        let ghost before = out@;
        out.insert(metas[i].name.clone(), metas[i].version.clone());
        proof {
            assert(all.take(i + 1).drop_last() =~= all.take(i as int));
            assert(all.take(i + 1).last() == all[i as int]);
            assert forall|n: Seq<char>| #[trigger] lookup(out@, n) == known(
                all.take(i + 1),
                n,
                version(),
            ) by {
                assert(lookup(before, n) == known(all.take(i as int), n, version()));
            }
        }
        i += 1;
    }
    proof {
        assert(all.take(all.len() as int) =~= all);
    }
    out
}

/// The bases of the packages, by name.
fn bases(metas: &Vec<PackageMeta>) -> (r: NameMap<String>)
    ensures
        forall|n: Seq<char>| #[trigger] lookup(r@, n) == known(metas@, n, base()),
{
    let ghost all = metas@;
    let mut out: NameMap<String> = NameMap::new();
    let mut i: usize = 0;
    while i < metas.len()
        invariant
            i <= metas@.len(),
            all == metas@,
            forall|n: Seq<char>| #[trigger]
                lookup(out@, n) == known(all.take(i as int), n, base()),
        decreases metas@.len() - i,
    {
        let ghost before = out@;
        out.insert(metas[i].name.clone(), metas[i].package_base.clone());
        proof {
            assert(all.take(i + 1).drop_last() =~= all.take(i as int));
            assert(all.take(i + 1).last() == all[i as int]);
            assert forall|n: Seq<char>| #[trigger] lookup(out@, n) == known(
                all.take(i + 1),
                n,
                base(),
            ) by {
                assert(lookup(before, n) == known(all.take(i as int), n, base()));
            }
        }
        i += 1;
    }
    proof {
        assert(all.take(all.len() as int) =~= all);
    }
    out
}

/// The installed packages that the AUR has, with the version it has, in order.
pub open spec fn candidates(
    foreign: Seq<(Seq<char>, Seq<char>)>,
    metas: Seq<PackageMeta>,
) -> Seq<UpgradeView>
    decreases foreign.len(),
{
    if foreign.len() == 0 {
        Seq::empty()
    } else {
        let before = candidates(foreign.drop_last(), metas);
        let (name, installed) = foreign.last();
        match known(metas, name, version()) {
            Some(available) => before.push(UpgradeView { name, installed, available }),
            None => before,
        }
    }
}

/// The installed packages that the AUR has, with the version it has. Packages
/// that are no longer in the AUR are skipped.
pub fn upgrade_candidates(
    foreign: &Vec<(String, String)>,
    metas: &Vec<PackageMeta>,
) -> (r: Vec<Upgrade>)
    ensures
        upgrades_of(r@) == candidates(pacman::pairs_of(foreign@), metas@),
{
    let available = versions(metas);
    let ghost all = pacman::pairs_of(foreign@);
    let mut out: Vec<Upgrade> = Vec::new();
    let mut i: usize = 0;
    proof {
        assert(upgrades_of(out@) =~= Seq::<UpgradeView>::empty());
    }
    while i < foreign.len()
        invariant
            i <= foreign@.len(),
            all == pacman::pairs_of(foreign@),
            forall|n: Seq<char>| #[trigger]
                lookup(available@, n) == known(metas@, n, version()),
            upgrades_of(out@) == candidates(all.take(i as int), metas@),
        decreases foreign@.len() - i,
    {
        let ghost before = upgrades_of(out@);
        let name = &foreign[i].0;
        let installed = &foreign[i].1;
        proof {
            assert(all.take(i + 1).drop_last() =~= all.take(i as int));
            assert(all.take(i + 1).last() == (name@, installed@));
            assert(lookup(available@, name@) == known(metas@, name@, version()));
        }
        if let Some(v) = available.get(name.as_str()) {
            out.push(
                Upgrade { name: name.clone(), installed: installed.clone(), available: v.clone() },
            );
            proof {
                assert(upgrades_of(out@) =~= before.push(
                    UpgradeView { name: name@, installed: installed@, available: v@ },
                ));
            }
        }
        i += 1;
    }
    proof {
        assert(all.take(all.len() as int) =~= all);
    }
    out
}

/// The values of a list whose flag is set, in order.
pub open spec fn flagged<T>(s: Seq<T>, flags: Seq<bool>) -> Seq<T>
    decreases s.len(),
{
    if s.len() == 0 {
        s
    } else {
        let before = flagged(s.drop_last(), flags);
        if flags[s.len() - 1] {
            before.push(s.last())
        } else {
            before
        }
    }
}

/// The candidates whose AUR version is newer than the installed one, in
/// ascending order of their names. `newer` holds for each candidate in turn
/// whether it is.
pub fn find_upgrades(candidates: Vec<Upgrade>, newer: &Vec<bool>) -> (r: Vec<Upgrade>)
    requires
        newer@.len() == candidates@.len(),
    ensures
        r@ == sort::by_key(flagged(candidates@, newer@), sort::name_of::<Upgrade>()),
{
    let ghost all = candidates@;
    let mut kept: Vec<Upgrade> = Vec::new();
    let n: usize = newer.len();
    let mut i: usize = 0;
    for u in it: candidates.into_iter()
        invariant
            it.seq() == all,
            i == it.index(),
            n == newer@.len(),
            newer@.len() == all.len(),
            kept@ == flagged(all.take(it.index() as int), newer@),
    {
        proof {
            assert(all.take(i + 1).drop_last() =~= all.take(i as int));
            assert(all.take(i + 1).last() == u);
        }
        if newer[i] {
            kept.push(u);
        }
        i += 1;
    }
    proof {
        assert(all.take(all.len() as int) =~= all);
    }
    sort::sort_by_name(kept)
}

/// A name that marks a package built from version control.
pub open spec fn has_vcs_suffix(name: Seq<char>) -> bool {
    ||| "-git"@.is_suffix_of(name)
    ||| "-svn"@.is_suffix_of(name)
    ||| "-hg"@.is_suffix_of(name)
    ||| "-bzr"@.is_suffix_of(name)
    ||| "-cvs"@.is_suffix_of(name)
    ||| "-darcs"@.is_suffix_of(name)
}

fn vcs_suffix(name: &str) -> (r: bool)
    ensures
        r == has_vcs_suffix(name@),
{
    text::ends_with(name, "-git") || text::ends_with(name, "-svn") || text::ends_with(name, "-hg")
        || text::ends_with(name, "-bzr") || text::ends_with(name, "-cvs") || text::ends_with(
        name,
        "-darcs",
    )
}

/// The packages of a list whose names mark them as built from version control.
pub open spec fn vcs_only(list: Seq<(Seq<char>, Seq<char>)>) -> Seq<(Seq<char>, Seq<char>)> {
    list.filter(|p: (Seq<char>, Seq<char>)| has_vcs_suffix(p.0))
}

/// The installed packages that were built from version control.
pub fn vcs_packages(foreign: &Vec<(String, String)>) -> (r: Vec<(String, String)>)
    ensures
        pacman::pairs_of(r@) == vcs_only(pacman::pairs_of(foreign@)),
{
    let ghost all = pacman::pairs_of(foreign@);
    let ghost keep = |p: (Seq<char>, Seq<char>)| has_vcs_suffix(p.0);
    let mut out: Vec<(String, String)> = Vec::new();
    let mut i: usize = 0;
    proof {
        reveal(Seq::filter);
        assert(pacman::pairs_of(out@) =~= all.take(0).filter(keep));
    }
    while i < foreign.len()
        invariant
            i <= foreign@.len(),
            all == pacman::pairs_of(foreign@),
            keep == (|p: (Seq<char>, Seq<char>)| has_vcs_suffix(p.0)),
            pacman::pairs_of(out@) == all.take(i as int).filter(keep),
        decreases foreign@.len() - i,
    {
        let ghost before = pacman::pairs_of(out@);
        proof {
            reveal(Seq::filter);
            assert(all.take(i + 1).drop_last() =~= all.take(i as int));
            assert(all.take(i + 1).last() == all[i as int]);
        }
        if vcs_suffix(foreign[i].0.as_str()) {
            out.push((foreign[i].0.clone(), foreign[i].1.clone()));
            proof {
                assert(pacman::pairs_of(out@) =~= before.push(all[i as int]));
            }
        }
        i += 1;
    }
    proof {
        assert(all.take(all.len() as int) =~= all);
    }
    out
}

/// An installed package that was built from version control.
#[derive(Debug)]
pub struct DevelCandidate {
    pub name: String,
    pub installed: String,
    /// The package base, whose recipe says where the sources come from.
    pub package_base: String,
}

/// The contents of a candidate.
pub struct CandidateView {
    pub name: Seq<char>,
    pub installed: Seq<char>,
    pub package_base: Seq<char>,
}

impl View for DevelCandidate {
    type V = CandidateView;

    open spec fn view(&self) -> CandidateView {
        CandidateView {
            name: self.name@,
            installed: self.installed@,
            package_base: self.package_base@,
        }
    }
}

/// The contents of a list of candidates.
pub open spec fn candidates_of(v: Seq<DevelCandidate>) -> Seq<CandidateView> {
    Seq::new(v.len(), |i: int| v[i]@)
}

/// The packages of a list that the AUR still has, with their bases, in order.
pub open spec fn with_bases(
    list: Seq<(Seq<char>, Seq<char>)>,
    metas: Seq<PackageMeta>,
) -> Seq<CandidateView>
    decreases list.len(),
{
    if list.len() == 0 {
        Seq::empty()
    } else {
        let before = with_bases(list.drop_last(), metas);
        let (name, installed) = list.last();
        match known(metas, name, base()) {
            Some(package_base) => before.push(CandidateView { name, installed, package_base }),
            None => before,
        }
    }
}

/// The packages that the AUR still has, with their bases.
pub fn devel_candidates(
    packages: &Vec<(String, String)>,
    metas: &Vec<PackageMeta>,
) -> (r: Vec<DevelCandidate>)
    ensures
        candidates_of(r@) == with_bases(pacman::pairs_of(packages@), metas@),
{
    let base_of = bases(metas);
    let ghost all = pacman::pairs_of(packages@);
    let mut out: Vec<DevelCandidate> = Vec::new();
    let mut i: usize = 0;
    proof {
        assert(candidates_of(out@) =~= Seq::<CandidateView>::empty());
    }
    while i < packages.len()
        invariant
            i <= packages@.len(),
            all == pacman::pairs_of(packages@),
            forall|n: Seq<char>| #[trigger] lookup(base_of@, n) == known(metas@, n, base()),
            candidates_of(out@) == with_bases(all.take(i as int), metas@),
        decreases packages@.len() - i,
    {
        let ghost before = candidates_of(out@);
        let name = &packages[i].0;
        let installed = &packages[i].1;
        proof {
            assert(all.take(i + 1).drop_last() =~= all.take(i as int));
            assert(all.take(i + 1).last() == (name@, installed@));
            assert(lookup(base_of@, name@) == known(metas@, name@, base()));
        }
        if let Some(b) = base_of.get(name.as_str()) {
            out.push(
                DevelCandidate {
                    name: name.clone(),
                    installed: installed.clone(),
                    package_base: b.clone(),
                },
            );
            proof {
                assert(candidates_of(out@) =~= before.push(
                    CandidateView { name: name@, installed: installed@, package_base: b@ },
                ));
            }
        }
        i += 1;
    }
    proof {
        assert(all.take(all.len() as int) =~= all);
    }
    out
}

/// Picks the characters that end a source URL.
pub open spec fn ends_url() -> spec_fn(char) -> bool {
    |c: char| c == '#' || c == '\'' || c == '"' || text::is_white_space(c) || c == ')'
}

/// The URL that starts at an offset, if it is not empty.
pub open spec fn url_behind(s: Seq<char>, from: int) -> Option<Seq<char>> {
    let after = s.skip(from);
    let n = text::until(after, ends_url());
    if n > 0 {
        Some(after.take(n))
    } else {
        None
    }
}

/// The URL of the source whose protocol stands at an offset, if one of the
/// protocols stands there with a URL behind it.
pub open spec fn url_at(s: Seq<char>, i: int) -> Option<Seq<char>> {
    if text::occurs_at(s, "git+"@, i) {
        url_behind(s, i + 4)
    } else if text::occurs_at(s, "svn+"@, i) {
        url_behind(s, i + 4)
    } else if text::occurs_at(s, "hg+"@, i) {
        url_behind(s, i + 3)
    } else if text::occurs_at(s, "bzr+"@, i) {
        url_behind(s, i + 4)
    } else {
        None
    }
}

/// The URL of the first version control source from an offset on.
pub open spec fn vcs_url_from(s: Seq<char>, i: int) -> Option<Seq<char>>
    decreases s.len() - i,
{
    if i >= s.len() {
        None
    } else if let Some(url) = url_at(s, i) {
        Some(url)
    } else {
        vcs_url_from(s, i + 1)
    }
}

/// The URL of the first version control source of a recipe.
pub open spec fn vcs_url(s: Seq<char>) -> Option<Seq<char>> {
    vcs_url_from(s, 0)
}

/// The URL that is found is that of the source that stands first, of whatever
/// protocol, and none is found only if there is none.
pub proof fn law_first_source_wins(s: Seq<char>)
    ensures
        match vcs_url(s) {
            Some(url) => exists|i: int|
                0 <= i < s.len() && #[trigger] url_at(s, i) == Some(url) && forall|j: int|
                    0 <= j < i ==> (#[trigger] url_at(s, j)) is None,
            None => forall|i: int| 0 <= i < s.len() ==> (#[trigger] url_at(s, i)) is None,
        },
{
    lemma_first_source(s, 0);
}

proof fn lemma_first_source(s: Seq<char>, from: int)
    requires
        0 <= from,
        forall|j: int| 0 <= j < from && j < s.len() ==> (#[trigger] url_at(s, j)) is None,
    ensures
        match vcs_url_from(s, from) {
            Some(url) => exists|i: int|
                0 <= i < s.len() && #[trigger] url_at(s, i) == Some(url) && forall|j: int|
                    0 <= j < i ==> (#[trigger] url_at(s, j)) is None,
            None => forall|i: int| 0 <= i < s.len() ==> (#[trigger] url_at(s, i)) is None,
        },
    decreases s.len() - from,
{
    if from < s.len() {
        if url_at(s, from) is None {
            lemma_first_source(s, from + 1);
        }
    }
}

fn read_url(cs: &Vec<char>, from: usize) -> (r: Option<String>)
    requires
        from <= cs@.len(),
    ensures
        text::opt_text(r) == url_behind(cs@, from as int),
{
    let n: usize = cs.len();
    let mut end: usize = from;
    let ghost after = cs@.skip(from as int);
    while end < n && cs[end] != '#' && cs[end] != '\'' && cs[end] != '"' && !text::white_space(
        cs[end],
    ) && cs[end] != ')'
        invariant
            n == cs@.len(),
            from <= end <= n,
            forall|j: int| from <= j < end ==> !ends_url()(#[trigger] cs@[j]),
        decreases n - end,
    {
        end += 1;
    }
    proof {
        assert forall|j: int| 0 <= j < end - from implies !ends_url()(#[trigger] after[j]) by {
            assert(after[j] == cs@[from + j]);
        }
        text::lemma_until_at(after, ends_url(), end - from);
        assert(cs@.subrange(from as int, end as int) =~= after.take(end - from));
    }
    if end == from {
        return None;
    }
    Some(text::string_between(cs, from, end))
}

/// The URL of the first version control source of a recipe:
/// `name::git+https://x/y.git#z` gives `https://x/y.git`.
pub fn first_vcs_url(pkgbuild: &str) -> (r: Option<String>)
    ensures
        text::opt_text(r) == vcs_url(pkgbuild@),
{
    let cs = text::chars_of(pkgbuild);
    let git = text::chars_of("git+");
    let svn = text::chars_of("svn+");
    let hg = text::chars_of("hg+");
    let bzr = text::chars_of("bzr+");
    let n: usize = cs.len();
    let mut i: usize = 0;
    proof {
        reveal_strlit("git+");
        reveal_strlit("svn+");
        reveal_strlit("hg+");
        reveal_strlit("bzr+");
    }
    while i < n
        invariant
            n == cs@.len(),
            i <= n,
            cs@ == pkgbuild@,
            git@ == "git+"@ && git@.len() == 4,
            svn@ == "svn+"@ && svn@.len() == 4,
            hg@ == "hg+"@ && hg@.len() == 3,
            bzr@ == "bzr+"@ && bzr@.len() == 4,
            vcs_url(cs@) == vcs_url_from(cs@, i as int),
        decreases n - i,
    {
        let found = if text::stands_at(&cs, &git, i) || text::stands_at(&cs, &svn, i) {
            read_url(&cs, i + 4)
        } else if text::stands_at(&cs, &hg, i) {
            read_url(&cs, i + 3)
        } else if text::stands_at(&cs, &bzr, i) {
            read_url(&cs, i + 4)
        } else {
            None
        };
        proof {
            assert(text::opt_text(found) == url_at(cs@, i as int));
        }
        if found.is_some() {
            return found;
        }
        i += 1;
    }
    None
}

/// Picks the characters that are no hexadecimal digits.
pub open spec fn no_hex() -> spec_fn(char) -> bool {
    |c: char| !text::is_hex_digit(c)
}

/// The first run of at least seven hexadecimal digits, in lower case.
pub open spec fn commit_in(s: Seq<char>) -> Option<Seq<char>>
    decreases s.len(),
{
    if s.len() == 0 {
        None
    } else {
        let n = text::until(s, no_hex());
        if n >= 7 {
            Some(text::ascii_lowered(s.take(n)))
        } else if 0 < n <= s.len() {
            commit_in(s.skip(n))
        } else {
            commit_in(s.drop_first())
        }
    }
}

/// The short commit hash in the version of a package built from version
/// control: `r567.2d12974-1` gives `2d12974`.
pub fn extract_commit(version: &str) -> (r: Option<String>)
    ensures
        text::opt_text(r) == commit_in(version@),
{
    let cs = text::chars_of(version);
    let n: usize = cs.len();
    let mut at: usize = 0;
    proof {
        assert(cs@.skip(0) =~= cs@);
    }
    while at < n
        invariant
            n == cs@.len(),
            at <= n,
            cs@ == version@,
            commit_in(cs@) == commit_in(cs@.skip(at as int)),
        decreases n - at,
    {
        let mut end: usize = at;
        while end < n && text::hex_digit(cs[end])
            invariant
                n == cs@.len(),
                at <= end <= n,
                forall|j: int| at <= j < end ==> text::is_hex_digit(#[trigger] cs@[j]),
            decreases n - end,
        {
            end += 1;
        }
        proof {
            let rest = cs@.skip(at as int);
            assert forall|j: int| 0 <= j < end - at implies !no_hex()(#[trigger] rest[j]) by {
                assert(rest[j] == cs@[at + j]);
            }
            text::lemma_until_at(rest, no_hex(), end - at);
            assert(rest.take(end - at) =~= cs@.subrange(at as int, end as int));
            assert(rest.skip(end - at) =~= cs@.skip(end as int));
            assert(rest.drop_first() =~= cs@.skip(at + 1));
            if end - at >= 7 {
                assert(commit_in(rest) == Some(text::ascii_lowered(rest.take(end - at))));
            }
        }
        if end - at >= 7 {
            return Some(text::lowered_between(&cs, at, end));
        }
        if end > at {
            at = end;
        } else {
            at += 1;
        }
    }
    None
}

/// The commit at the head of a repository, as the listing of its references
/// gives it: the first word, in lower case. `None` stands for a failed listing.
pub fn git_ls_remote_head(output: Option<&str>) -> (r: Option<String>)
    ensures
        text::opt_text(r) == (match output {
            Some(s) => text::first_word(s@),
            None => None,
        }),
{
    match output {
        Some(s) => text::word(s),
        None => None,
    }
}

/// What has to be asked upstream about a package: the repository, and the
/// commit that the installed version was built from.
#[derive(Debug)]
pub struct UpstreamQuery {
    pub url: String,
    pub commit: String,
}

/// What has to be asked upstream, given the recipe (`None` if it could not be
/// fetched) and the installed version. `None` if it cannot be determined.
pub fn upstream_query(pkgbuild: Option<&str>, installed: &str) -> (r: Option<UpstreamQuery>)
    ensures
        match r {
            Some(q) => {
                &&& pkgbuild is Some
                &&& vcs_url(pkgbuild->0@) == Some(q.url@)
                &&& commit_in(installed@) == Some(q.commit@)
            },
            None => pkgbuild is None || vcs_url(pkgbuild->0@) is None || commit_in(
                installed@,
            ) is None,
        },
{
    let pkgbuild = match pkgbuild {
        Some(p) => p,
        None => {
            return None;
        },
    };
    let url = match first_vcs_url(pkgbuild) {
        Some(url) => url,
        None => {
            return None;
        },
    };
    match extract_commit(installed) {
        Some(commit) => Some(UpstreamQuery { url, commit }),
        None => None,
    }
}

/// The head of a repository is another commit than the one that a version names
/// by its first digits.
pub open spec fn is_another_commit(commit: Seq<char>, head: Seq<char>) -> bool {
    !commit.is_prefix_of(head)
}

/// `Some(true)` if the upstream head differs from the commit in the installed
/// version, `Some(false)` if it is the same, `None` if that cannot be
/// determined.
pub fn upstream_changed(query: &Option<UpstreamQuery>, head: Option<&str>) -> (r: Option<bool>)
    ensures
        query is Some && head is Some ==> r == Some(is_another_commit(query->0.commit@, head->0@)),
        query is None || head is None ==> r is None,
        r == (match (query, head) {
            (Some(q), Some(h)) => Some(!q.commit@.is_prefix_of(h@)),
            _ => None,
        }),
{
    match query {
        Some(q) => match head {
            Some(h) => Some(!text::starts_with(h, q.commit.as_str())),
            None => None,
        },
        None => None,
    }
}

/// The candidates that are rebuilt, in order: all but those known to be up to
/// date.
pub open spec fn rebuilt(
    list: Seq<DevelCandidate>,
    changed: Seq<Option<bool>>,
) -> Seq<UpgradeView>
    decreases list.len(),
{
    if list.len() == 0 {
        Seq::empty()
    } else {
        let before = rebuilt(list.drop_last(), changed);
        let c = list.last();
        if changed[list.len() - 1] == Some(false) {
            before
        } else {
            before.push(
                UpgradeView {
                    name: c.name@,
                    installed: c.installed@,
                    available: "latest commit"@,
                },
            )
        }
    }
}

/// The candidates whose upstream has new commits, in ascending order of their
/// names. `changed` holds what is known of each candidate in turn; one that
/// cannot be determined is rebuilt, to be safe.
pub fn find_devel_upgrades(
    candidates: &Vec<DevelCandidate>,
    changed: &Vec<Option<bool>>,
) -> (r: Vec<Upgrade>)
    requires
        changed@.len() == candidates@.len(),
    ensures
        upgrades_of(r@) == sort::by_key(rebuilt(candidates@, changed@), view_name()),
{
    let ghost all = candidates@;
    let mut kept: Vec<Upgrade> = Vec::new();
    let mut i: usize = 0;
    proof {
        assert(upgrades_of(kept@) =~= Seq::<UpgradeView>::empty());
    }
    while i < candidates.len()
        invariant
            i <= candidates@.len(),
            all == candidates@,
            changed@.len() == all.len(),
            upgrades_of(kept@) == rebuilt(all.take(i as int), changed@),
        decreases candidates@.len() - i,
    {
        let c = &candidates[i];
        let ghost before = upgrades_of(kept@);
        proof {
            assert(all.take(i + 1).drop_last() =~= all.take(i as int));
            assert(all.take(i + 1).last() == *c);
        }
        let rebuild = match changed[i] {
            Some(b) => b,
            None => true,
        };
        if rebuild {
            kept.push(
                Upgrade {
                    name: c.name.clone(),
                    installed: c.installed.clone(),
                    available: String::from_str("latest commit"),
                },
            );
            proof {
                assert(upgrades_of(kept@) =~= before.push(
                    UpgradeView {
                        name: c.name@,
                        installed: c.installed@,
                        available: "latest commit"@,
                    },
                ));
            }
        }
        i += 1;
    }
    proof {
        assert(all.take(all.len() as int) =~= all);
    }
    let ghost unsorted = kept@;
    let r = sort::sort_by_name(kept);
    proof {
        let view = |u: Upgrade| u@;
        sort::lemma_by_key_map(unsorted, view, sort::name_of::<Upgrade>(), view_name());
        assert(unsorted.map_values(view) =~= upgrades_of(unsorted));
        assert(r@.map_values(view) =~= upgrades_of(r@));
    }
    r
}

/// A character that cannot stand in the URL of a source.
pub open spec fn ends_a_url(c: char) -> bool {
    c == '#' || c == '\'' || c == '"' || c == ')' || text::is_white_space(c)
}

/// One of the protocols stands right before an offset.
pub open spec fn behind_protocol(s: Seq<char>, i: int) -> bool {
    ||| i >= 4 && s.subrange(i - 4, i) == "git+"@
    ||| i >= 4 && s.subrange(i - 4, i) == "svn+"@
    ||| i >= 3 && s.subrange(i - 3, i) == "hg+"@
    ||| i >= 4 && s.subrange(i - 4, i) == "bzr+"@
}

/// The URL that is found is bare, and whole: it is not empty, it stands in the
/// recipe right behind a protocol, it holds no `#`, no quote, no `)` and no white
/// space, and it reaches up to the first of these or the end of the recipe.
pub proof fn law_found_url_is_bare(s: Seq<char>, url: Seq<char>)
    requires
        vcs_url(s) == Some(url),
    ensures
        url.len() > 0,
        forall|j: int| 0 <= j < url.len() ==> !ends_a_url(#[trigger] url[j]),
        exists|i: int|
            0 <= i <= s.len() - url.len() && #[trigger] behind_protocol(s, i) && s.subrange(
                i,
                i + url.len(),
            ) == url && (i + url.len() < s.len() ==> ends_a_url(s[i + url.len()])),
{
    reveal_strlit("git+");
    reveal_strlit("svn+");
    reveal_strlit("hg+");
    reveal_strlit("bzr+");
    law_first_source_wins(s);
    let at = choose|i: int|
        0 <= i < s.len() && #[trigger] url_at(s, i) == Some(url) && forall|j: int|
            0 <= j < i ==> (#[trigger] url_at(s, j)) is None;
    let n: int = if text::occurs_at(s, "git+"@, at) || text::occurs_at(s, "svn+"@, at) {
        4
    } else if text::occurs_at(s, "hg+"@, at) {
        3
    } else {
        4
    };
    let from = at + n;
    assert(url_behind(s, from) == Some(url));
    let after = s.skip(from);
    text::lemma_until(after, ends_url());
    assert forall|j: int| 0 <= j < url.len() implies !ends_a_url(#[trigger] url[j]) by {
        assert(url[j] == after[j]);
        assert(!ends_url()(after[j]));
    }
    assert(s.subrange(from, from + url.len()) =~= url);
    if from + url.len() < s.len() {
        assert(after[url.len() as int] == s[from + url.len()]);
    }
    assert(behind_protocol(s, from));
}

/// A source that stands in a recipe behind text without a `+` is the one that is
/// found, of each of the protocols.
pub proof fn law_source_is_found(a: Seq<char>, vcs: Seq<char>, url: Seq<char>, rest: Seq<char>)
    requires
        vcs == "git+"@ || vcs == "svn+"@ || vcs == "hg+"@ || vcs == "bzr+"@,
        !a.contains('+'),
        url.len() > 0,
        forall|j: int| 0 <= j < url.len() ==> !ends_a_url(#[trigger] url[j]),
        rest.len() > 0 ==> ends_a_url(rest[0]),
    ensures
        vcs_url(a + vcs + url + rest) == Some(url),
        vcs_url(a) is None,
{
    reveal_strlit("git+");
    reveal_strlit("svn+");
    reveal_strlit("hg+");
    reveal_strlit("bzr+");
    let s = a + vcs + url + rest;
    let k = a.len() as int;
    let n = vcs.len() as int;
    assert(s.subrange(k, k + n) =~= vcs);
    assert(text::occurs_at(s, vcs, k));
    lemma_no_source_before(a, vcs, url + rest);
    assert(a + vcs + (url + rest) =~= s);
    lemma_no_source_before(a, Seq::empty(), Seq::empty());
    assert(a + Seq::<char>::empty() + Seq::<char>::empty() =~= a);
    let after = s.skip(k + n);
    assert(after =~= url + rest);
    assert forall|j: int| 0 <= j < url.len() implies !ends_url()(#[trigger] after[j]) by {
        assert(after[j] == url[j]);
        assert(!ends_a_url(url[j]));
    }
    if rest.len() > 0 {
        assert(after[url.len() as int] == rest[0]);
    }
    text::lemma_until_at(after, ends_url(), url.len() as int);
    assert(after.take(url.len() as int) =~= url);
    assert(url_behind(s, k + n) == Some(url));
    lemma_one_protocol(s, vcs, k);
    assert(url_at(s, k) == Some(url));
    law_first_source_wins(s);
    law_first_source_wins(a);
    match vcs_url(s) {
        Some(found) => {
            let i = choose|i: int|
                0 <= i < s.len() && #[trigger] url_at(s, i) == Some(found) && forall|j: int|
                    0 <= j < i ==> (#[trigger] url_at(s, j)) is None;
            if i < k {
                assert(url_at(s, i) is None);
            } else if i > k {
                assert(url_at(s, k) is None);
            }
        },
        None => {
            assert(url_at(s, k) is None);
        },
    }
}

/// At one place stands at most one of the protocols.
proof fn lemma_one_protocol(s: Seq<char>, vcs: Seq<char>, k: int)
    requires
        vcs == "git+"@ || vcs == "svn+"@ || vcs == "hg+"@ || vcs == "bzr+"@,
        text::occurs_at(s, vcs, k),
    ensures
        vcs != "git+"@ ==> !text::occurs_at(s, "git+"@, k),
        vcs != "svn+"@ ==> !text::occurs_at(s, "svn+"@, k),
        vcs != "hg+"@ ==> !text::occurs_at(s, "hg+"@, k),
        vcs != "bzr+"@ ==> !text::occurs_at(s, "bzr+"@, k),
{
    reveal_strlit("git+");
    reveal_strlit("svn+");
    reveal_strlit("hg+");
    reveal_strlit("bzr+");
    assert(s.subrange(k, k + vcs.len())[0] == s[k]);
    if text::occurs_at(s, "git+"@, k) {
        assert(s.subrange(k, k + 4)[0] == s[k]);
    }
    if text::occurs_at(s, "svn+"@, k) {
        assert(s.subrange(k, k + 4)[0] == s[k]);
    }
    if text::occurs_at(s, "hg+"@, k) {
        assert(s.subrange(k, k + 3)[0] == s[k]);
    }
    if text::occurs_at(s, "bzr+"@, k) {
        assert(s.subrange(k, k + 4)[0] == s[k]);
    }
}

/// No source starts in a text without a `+`, whatever protocol follows it.
proof fn lemma_no_source_before(a: Seq<char>, vcs: Seq<char>, rest: Seq<char>)
    requires
        vcs == "git+"@ || vcs == "svn+"@ || vcs == "hg+"@ || vcs == "bzr+"@ || (vcs.len() == 0
            && rest.len() == 0),
        !a.contains('+'),
    ensures
        forall|j: int| 0 <= j < a.len() ==> (#[trigger] url_at(a + vcs + rest, j)) is None,
{
    reveal_strlit("git+");
    reveal_strlit("svn+");
    reveal_strlit("hg+");
    reveal_strlit("bzr+");
    let s = a + vcs + rest;
    let k = a.len() as int;
    assert forall|j: int| 0 <= j < k implies (#[trigger] url_at(s, j)) is None by {
        assert forall|i: int| 0 <= i < k implies s[i] != '+' by {
            assert(s[i] == a[i]);
            assert(a.contains(a[i]));
        }
        if text::occurs_at(s, "git+"@, j) {
            let t = s.subrange(j, j + 4);
            assert(t[1] == s[j + 1] && t[2] == s[j + 2] && t[3] == s[j + 3]);
            assert(s[j + 3] == '+');
            assert(s[j + 3] == vcs[j + 3 - k]);
            assert(s[j + 1] == 'i');
        }
        if text::occurs_at(s, "svn+"@, j) {
            let t = s.subrange(j, j + 4);
            assert(t[1] == s[j + 1] && t[2] == s[j + 2] && t[3] == s[j + 3]);
            assert(s[j + 3] == vcs[j + 3 - k]);
            assert(s[j + 1] == 'v');
        }
        if text::occurs_at(s, "hg+"@, j) {
            let t = s.subrange(j, j + 3);
            assert(t[1] == s[j + 1] && t[2] == s[j + 2]);
            assert(s[j + 2] == vcs[j + 2 - k]);
        }
        if text::occurs_at(s, "bzr+"@, j) {
            let t = s.subrange(j, j + 4);
            assert(t[1] == s[j + 1] && t[2] == s[j + 2] && t[3] == s[j + 3]);
            assert(s[j + 3] == vcs[j + 3 - k]);
            assert(s[j + 1] == 'z');
        }
    }
}

/// A run of seven hexadecimal digits starts at an offset.
pub open spec fn seven_digits_at(s: Seq<char>, i: int) -> bool {
    0 <= i <= s.len() - 7 && forall|j: int| i <= j < i + 7 ==> text::is_hex_digit(#[trigger] s[j])
}

/// A run of hexadecimal digits that no digit precedes or follows.
pub open spec fn is_run(s: Seq<char>, i: int, n: int) -> bool {
    &&& 0 <= i && 0 <= n && i + n <= s.len()
    &&& forall|j: int| i <= j < i + n ==> text::is_hex_digit(#[trigger] s[j])
    &&& i > 0 ==> !text::is_hex_digit(s[i - 1])
    &&& i + n < s.len() ==> !text::is_hex_digit(s[i + n])
}

/// A text is the run of at least seven hexadecimal digits at an offset, in lower
/// case, and no seven digits in a row start before it.
pub open spec fn is_first_run(s: Seq<char>, i: int, c: Seq<char>) -> bool {
    &&& is_run(s, i, c.len() as int)
    &&& c.len() >= 7
    &&& c == text::ascii_lowered(s.subrange(i, i + c.len()))
    &&& forall|j: int| 0 <= j < i ==> !#[trigger] seven_digits_at(s, j)
}

/// The commit in a version is its first whole run of at least seven hexadecimal
/// digits, in lower case; a version has none only if it has no seven digits in a
/// row.
pub proof fn law_commit_in_a_version(s: Seq<char>)
    ensures
        match commit_in(s) {
            Some(c) => exists|i: int| #[trigger] is_first_run(s, i, c),
            None => forall|i: int| !#[trigger] seven_digits_at(s, i),
        },
{
    assert(s.skip(0) =~= s);
    lemma_commit_from(s, 0);
}

proof fn lemma_commit_from(s: Seq<char>, at: int)
    requires
        0 <= at <= s.len(),
        at > 0 ==> at == s.len() || !text::is_hex_digit(s[at - 1]) || !text::is_hex_digit(s[at]),
        forall|j: int| 0 <= j < at ==> !#[trigger] seven_digits_at(s, j),
    ensures
        match commit_in(s.skip(at)) {
            Some(c) => exists|i: int| #[trigger] is_first_run(s, i, c),
            None => forall|i: int| !#[trigger] seven_digits_at(s, i),
        },
    decreases s.len() - at,
{
    let t = s.skip(at);
    if t.len() > 0 {
        let n = text::until(t, no_hex());
        text::lemma_until(t, no_hex());
        assert forall|j: int| at <= j < at + n implies text::is_hex_digit(#[trigger] s[j]) by {
            assert(s[j] == t[j - at]);
            assert(!no_hex()(t[j - at]));
        }
        if n < t.len() {
            assert(s[at + n] == t[n]);
            assert(!text::is_hex_digit(s[at + n]));
        }
        if n >= 7 {
            assert(t.take(n) =~= s.subrange(at, at + n));
            if at > 0 {
                assert(text::is_hex_digit(s[at]));
            }
            assert(commit_in(t) is Some);
            let c = commit_in(t)->0;
            assert(c == text::ascii_lowered(t.take(n)));
            assert(c.len() == n);
            assert(is_run(s, at, c.len() as int));
            assert(c == text::ascii_lowered(s.subrange(at, at + c.len())));
            assert(is_first_run(s, at, c));
        } else if n > 0 {
            assert forall|j: int| 0 <= j < at + n implies !#[trigger] seven_digits_at(s, j) by {
                if j >= at && seven_digits_at(s, j) {
                    assert(text::is_hex_digit(s[at + n]));
                }
            }
            assert(t.skip(n) =~= s.skip(at + n));
            lemma_commit_from(s, at + n);
            assert(commit_in(t) == commit_in(s.skip(at + n)));
        } else {
            assert forall|j: int| 0 <= j < at + 1 implies !#[trigger] seven_digits_at(s, j) by {
                if j == at && seven_digits_at(s, j) {
                    assert(text::is_hex_digit(s[at]));
                }
            }
            assert(t.drop_first() =~= s.skip(at + 1));
            lemma_commit_from(s, at + 1);
            assert(commit_in(t) == commit_in(s.skip(at + 1)));
        }
    } else {
        assert forall|i: int| !#[trigger] seven_digits_at(s, i) by {
            if seven_digits_at(s, i) {
                assert(i < at);
            }
        }
        assert(commit_in(t) is None);
    }
}

/// The names that are asked for are all the names, in order, at most fifty at a
/// time, and no request is empty.
pub proof fn law_every_name_is_asked_for(s: Seq<Seq<char>>)
    ensures
        chunks(s).flatten() == s,
        forall|i: int|
            0 <= i < chunks(s).len() ==> 0 < (#[trigger] chunks(s)[i]).len() <= 50,
        forall|i: int| 0 <= i < chunks(s).len() - 1 ==> (#[trigger] chunks(s)[i]).len() == 50,
    decreases s.len(),
{
    if s.len() == 0 {
        assert(chunks(s).flatten() =~= s);
    } else if s.len() <= CHUNK {
        chunks(s).lemma_flatten_one_element();
    } else {
        let rest = s.skip(CHUNK as int);
        law_every_name_is_asked_for(rest);
        let all = chunks(s);
        assert(all.drop_first() =~= chunks(rest));
        assert(all.flatten() =~= s);
        assert forall|i: int| 0 <= i < all.len() implies 0 < (#[trigger] all[i]).len() <= 50 by {
            if i > 0 {
                assert(all[i] == chunks(rest)[i - 1]);
            }
        }
        assert forall|i: int| 0 <= i < all.len() - 1 implies (#[trigger] all[i]).len() == 50 by {
            if i > 0 {
                assert(all[i] == chunks(rest)[i - 1]);
            }
        }
    }
}

/// What is known of a name is what the last package of that name says; a name
/// that no package has is not known.
pub proof fn law_last_package_counts(
    metas: Seq<PackageMeta>,
    name: Seq<char>,
    field: spec_fn(PackageMeta) -> Seq<char>,
)
    ensures
        match known(metas, name, field) {
            Some(v) => exists|i: int|
                0 <= i < metas.len() && (#[trigger] metas[i]).name@ == name && v == field(metas[i])
                    && forall|j: int|
                    i < j < metas.len() ==> (#[trigger] metas[j]).name@ != name,
            None => forall|i: int| 0 <= i < metas.len() ==> (#[trigger] metas[i]).name@ != name,
        },
    decreases metas.len(),
{
    if metas.len() > 0 {
        let rest = metas.drop_last();
        let last = metas.len() - 1;
        if metas.last().name@ == name {
            assert(metas[last].name@ == name);
        } else {
            law_last_package_counts(rest, name, field);
            match known(rest, name, field) {
                Some(v) => {
                    let i = choose|i: int|
                        0 <= i < rest.len() && (#[trigger] rest[i]).name@ == name && v == field(
                            rest[i],
                        ) && forall|j: int|
                            i < j < rest.len() ==> (#[trigger] rest[j]).name@ != name;
                    assert(metas[i] == rest[i]);
                    assert forall|j: int| i < j < metas.len() implies (#[trigger] metas[j]).name@
                        != name by {
                        if j < last {
                            assert(rest[j] == metas[j]);
                        }
                    }
                },
                None => {
                    assert forall|i: int| 0 <= i < metas.len() implies (#[trigger] metas[i]).name@
                        != name by {
                        if i < last {
                            assert(rest[i] == metas[i]);
                        }
                    }
                },
            }
        }
    }
}

/// A candidate for an upgrade is an installed package, with its installed
/// version, that the AUR has, with the version it has there; and every such
/// package is one.
pub proof fn law_candidates_are_what_the_aur_has(
    foreign: Seq<(Seq<char>, Seq<char>)>,
    metas: Seq<PackageMeta>,
    u: UpgradeView,
)
    ensures
        candidates(foreign, metas).contains(u) <==> foreign.contains((u.name, u.installed))
            && known(metas, u.name, |m: PackageMeta| m.version@) == Some(u.available),
    decreases foreign.len(),
{
    assert(version() =~= (|m: PackageMeta| m.version@));
    let now = candidates(foreign, metas);
    if foreign.len() > 0 {
        let rest = foreign.drop_last();
        let before = candidates(rest, metas);
        law_candidates_are_what_the_aur_has(rest, metas, u);
        if now.contains(u) {
            let i = choose|i: int| 0 <= i < now.len() && now[i] == u;
            if i < before.len() {
                assert(before[i] == u);
                let j = choose|j: int| 0 <= j < rest.len() && rest[j] == (u.name, u.installed);
                assert(foreign[j] == (u.name, u.installed));
            } else {
                assert(foreign[foreign.len() - 1] == (u.name, u.installed));
            }
        }
        if foreign.contains((u.name, u.installed)) && known(metas, u.name, version()) == Some(
            u.available,
        ) {
            let j = choose|j: int| 0 <= j < foreign.len() && foreign[j] == (u.name, u.installed);
            if j < rest.len() {
                assert(rest[j] == (u.name, u.installed));
                let i = choose|i: int| 0 <= i < before.len() && before[i] == u;
                assert(now[i] == u);
            } else {
                assert(now[before.len() as int] == u);
            }
        }
    }
}

/// A candidate for a rebuild is a package of the list that the AUR has, with its
/// base there; and every such package is one.
pub proof fn law_rebuild_candidates_are_what_the_aur_has(
    list: Seq<(Seq<char>, Seq<char>)>,
    metas: Seq<PackageMeta>,
    c: CandidateView,
)
    ensures
        with_bases(list, metas).contains(c) <==> list.contains((c.name, c.installed)) && known(
            metas,
            c.name,
            |m: PackageMeta| m.package_base@,
        ) == Some(c.package_base),
    decreases list.len(),
{
    assert(base() =~= (|m: PackageMeta| m.package_base@));
    let now = with_bases(list, metas);
    if list.len() > 0 {
        let rest = list.drop_last();
        let before = with_bases(rest, metas);
        law_rebuild_candidates_are_what_the_aur_has(rest, metas, c);
        if now.contains(c) {
            let i = choose|i: int| 0 <= i < now.len() && now[i] == c;
            if i < before.len() {
                assert(before[i] == c);
                let j = choose|j: int| 0 <= j < rest.len() && rest[j] == (c.name, c.installed);
                assert(list[j] == (c.name, c.installed));
            } else {
                assert(list[list.len() - 1] == (c.name, c.installed));
            }
        }
        if list.contains((c.name, c.installed)) && known(metas, c.name, base()) == Some(
            c.package_base,
        ) {
            let j = choose|j: int| 0 <= j < list.len() && list[j] == (c.name, c.installed);
            if j < rest.len() {
                assert(rest[j] == (c.name, c.installed));
                let i = choose|i: int| 0 <= i < before.len() && before[i] == c;
                assert(now[i] == c);
            } else {
                assert(now[before.len() as int] == c);
            }
        }
    }
}

/// A package is built from version control exactly if its name is something and
/// one of the six suffixes; of the installed packages those are kept, and no
/// other.
pub proof fn law_version_control_suffixes(
    stem: Seq<char>,
    name: Seq<char>,
    list: Seq<(Seq<char>, Seq<char>)>,
    p: (Seq<char>, Seq<char>),
)
    ensures
        has_vcs_suffix(stem + "-git"@),
        has_vcs_suffix(stem + "-svn"@),
        has_vcs_suffix(stem + "-hg"@),
        has_vcs_suffix(stem + "-bzr"@),
        has_vcs_suffix(stem + "-cvs"@),
        has_vcs_suffix(stem + "-darcs"@),
        has_vcs_suffix(name) ==> exists|s: Seq<char>|
            name == #[trigger] (s + "-git"@) || name == s + "-svn"@ || name == s + "-hg"@ || name
                == s + "-bzr"@ || name == s + "-cvs"@ || name == s + "-darcs"@,
        vcs_only(list).contains(p) <==> list.contains(p) && has_vcs_suffix(p.0),
{
    lemma_suffix(stem, "-git"@);
    lemma_suffix(stem, "-svn"@);
    lemma_suffix(stem, "-hg"@);
    lemma_suffix(stem, "-bzr"@);
    lemma_suffix(stem, "-cvs"@);
    lemma_suffix(stem, "-darcs"@);
    if has_vcs_suffix(name) {
        let suffix = if "-git"@.is_suffix_of(name) {
            "-git"@
        } else if "-svn"@.is_suffix_of(name) {
            "-svn"@
        } else if "-hg"@.is_suffix_of(name) {
            "-hg"@
        } else if "-bzr"@.is_suffix_of(name) {
            "-bzr"@
        } else if "-cvs"@.is_suffix_of(name) {
            "-cvs"@
        } else {
            "-darcs"@
        };
        let s = name.take(name.len() - suffix.len());
        assert(name =~= s + suffix);
        let git = s + "-git"@;
    }
    let keep = |q: (Seq<char>, Seq<char>)| has_vcs_suffix(q.0);
    list.filter_lemma(keep);
    if vcs_only(list).contains(p) {
        let i = choose|i: int| 0 <= i < vcs_only(list).len() && vcs_only(list)[i] == p;
        assert(keep(list.filter(keep)[i]));
        lemma_filter_source(list, keep, p);
    }
    if list.contains(p) && has_vcs_suffix(p.0) {
        lemma_filter_source(list, keep, p);
    }
}

proof fn lemma_suffix(stem: Seq<char>, suffix: Seq<char>)
    ensures
        suffix.is_suffix_of(stem + suffix),
{
    let s = stem + suffix;
    assert(s.subrange(s.len() - suffix.len(), s.len() as int) =~= suffix);
}

proof fn lemma_filter_source(
    list: Seq<(Seq<char>, Seq<char>)>,
    keep: spec_fn((Seq<char>, Seq<char>)) -> bool,
    p: (Seq<char>, Seq<char>),
)
    ensures
        list.filter(keep).contains(p) <==> list.contains(p) && keep(p),
    decreases list.len(),
{
    reveal(Seq::filter);
    if list.len() > 0 {
        let rest = list.drop_last();
        lemma_filter_source(rest, keep, p);
        let before = rest.filter(keep);
        let now = list.filter(keep);
        if now.contains(p) {
            let i = choose|i: int| 0 <= i < now.len() && now[i] == p;
            if i < before.len() {
                assert(before[i] == p);
                let j = choose|j: int| 0 <= j < rest.len() && rest[j] == p;
                assert(list[j] == p);
            } else {
                assert(list[list.len() - 1] == p);
            }
        }
        if list.contains(p) && keep(p) {
            let j = choose|j: int| 0 <= j < list.len() && list[j] == p;
            if j < rest.len() {
                assert(rest[j] == p);
                let i = choose|i: int| 0 <= i < before.len() && before[i] == p;
                assert(now[i] == p);
            } else {
                assert(now[before.len() as int] == p);
            }
        }
    }
}

/// Of a list exactly the values with a set flag are kept.
pub proof fn law_flagged_are_kept<T>(s: Seq<T>, flags: Seq<bool>, x: T)
    requires
        s.len() <= flags.len(),
    ensures
        flagged(s, flags).contains(x) <==> exists|i: int|
            0 <= i < s.len() && #[trigger] s[i] == x && flags[i],
        (forall|i: int| 0 <= i < s.len() ==> #[trigger] flags[i]) ==> flagged(s, flags) == s,
    decreases s.len(),
{
    if s.len() > 0 {
        let rest = s.drop_last();
        law_flagged_are_kept(rest, flags, x);
        let before = flagged(rest, flags);
        let now = flagged(s, flags);
        if now.contains(x) {
            let j = choose|j: int| 0 <= j < now.len() && now[j] == x;
            if j < before.len() {
                assert(before[j] == x);
                let i = choose|i: int| 0 <= i < rest.len() && #[trigger] rest[i] == x && flags[i];
                assert(s[i] == x);
            } else {
                assert(s[s.len() - 1] == x);
            }
        }
        if exists|i: int| 0 <= i < s.len() && #[trigger] s[i] == x && flags[i] {
            let i = choose|i: int| 0 <= i < s.len() && #[trigger] s[i] == x && flags[i];
            if i < rest.len() {
                assert(rest[i] == x);
                let j = choose|j: int| 0 <= j < before.len() && before[j] == x;
                assert(now[j] == x);
            } else {
                assert(now[before.len() as int] == x);
            }
        }
        if forall|i: int| 0 <= i < s.len() ==> #[trigger] flags[i] {
            assert(flags[s.len() - 1]);
            assert(now =~= s);
        }
    }
}

/// A candidate is rebuilt unless it is known to be up to date: one whose upstream
/// changed, and one of which nothing could be found out, are.
pub proof fn law_doubt_rebuilds(list: Seq<DevelCandidate>, changed: Seq<Option<bool>>, name: Seq<char>)
    requires
        list.len() <= changed.len(),
    ensures
        (exists|i: int|
            0 <= i < rebuilt(list, changed).len() && (#[trigger] rebuilt(list, changed)[i]).name
                == name) <==> exists|i: int|
            0 <= i < list.len() && (#[trigger] list[i]).name@ == name && (changed[i] is None
                || changed[i] == Some(true)),
        forall|i: int|
            0 <= i < rebuilt(list, changed).len() ==> (#[trigger] rebuilt(
                list,
                changed,
            )[i]).available == "latest commit"@,
    decreases list.len(),
{
    if list.len() > 0 {
        let rest = list.drop_last();
        law_doubt_rebuilds(rest, changed, name);
        let before = rebuilt(rest, changed);
        let now = rebuilt(list, changed);
        let last = list.len() - 1;
        assert(changed[last] != Some(false) <==> changed[last] is None || changed[last] == Some(
            true,
        )) by {
            match changed[last] {
                Some(b) => {
                    if b {
                        assert(changed[last] == Some(true));
                    } else {
                        assert(changed[last] == Some(false));
                    }
                },
                None => {},
            }
        }
        assert(list[last] == list.last());
        if exists|i: int| 0 <= i < now.len() && (#[trigger] now[i]).name == name {
            let i = choose|i: int| 0 <= i < now.len() && (#[trigger] now[i]).name == name;
            if i < before.len() {
                assert(before[i].name == name);
                let j = choose|j: int|
                    0 <= j < rest.len() && (#[trigger] rest[j]).name@ == name && (changed[j] is None
                        || changed[j] == Some(true));
                assert(list[j] == rest[j]);
            } else {
                assert(list[last].name@ == name);
            }
        }
        if exists|i: int|
            0 <= i < list.len() && (#[trigger] list[i]).name@ == name && (changed[i] is None
                || changed[i] == Some(true)) {
            let j = choose|j: int|
                0 <= j < list.len() && (#[trigger] list[j]).name@ == name && (changed[j] is None
                    || changed[j] == Some(true));
            if j < last {
                assert(rest[j] == list[j]);
                let i = choose|i: int| 0 <= i < before.len() && (#[trigger] before[i]).name == name;
                assert(now[i].name == name);
            } else {
                assert(now[before.len() as int].name == name);
            }
        }
        assert forall|i: int| 0 <= i < now.len() implies (#[trigger] now[i]).available
            == "latest commit"@ by {
            if i < before.len() {
                assert(now[i] == before[i]);
            }
        }
    }
}

/// A head is the commit of a version exactly if it starts with all of the digits
/// that the version has of it.
pub proof fn law_head_of_a_version(commit: Seq<char>, rest: Seq<char>, head: Seq<char>, i: int)
    ensures
        !is_another_commit(commit, commit + rest),
        0 <= i < commit.len() && (i >= head.len() || head[i] != commit[i]) ==> is_another_commit(
            commit,
            head,
        ),
{
    assert((commit + rest).subrange(0, commit.len() as int) =~= commit);
    if commit.is_prefix_of(head) && 0 <= i < commit.len() {
        assert(head.subrange(0, commit.len() as int)[i] == head[i]);
    }
}

/// Candidates are in the order of the installed packages, one for each that the
/// AUR has.
pub proof fn law_candidates_are_in_order(
    list: Seq<(Seq<char>, Seq<char>)>,
    name: Seq<char>,
    installed: Seq<char>,
    metas: Seq<PackageMeta>,
)
    ensures
        (forall|i: int| 0 <= i < metas.len() ==> (#[trigger] metas[i]).name@ != name) ==> candidates(
            list.push((name, installed)),
            metas,
        ) == candidates(list, metas) && with_bases(list.push((name, installed)), metas)
            == with_bases(list, metas),
        (exists|i: int| 0 <= i < metas.len() && (#[trigger] metas[i]).name@ == name) ==> candidates(
            list.push((name, installed)),
            metas,
        ).drop_last() == candidates(list, metas) && candidates(
            list.push((name, installed)),
            metas,
        ).last().installed == installed && with_bases(
            list.push((name, installed)),
            metas,
        ).drop_last() == with_bases(list, metas) && with_bases(
            list.push((name, installed)),
            metas,
        ).last().installed == installed,
{
    let longer = list.push((name, installed));
    assert(longer.drop_last() =~= list);
    assert(longer.last() == (name, installed));
    law_last_package_counts(metas, name, version());
    law_last_package_counts(metas, name, base());
    if exists|i: int| 0 <= i < metas.len() && (#[trigger] metas[i]).name@ == name {
        let i = choose|i: int| 0 <= i < metas.len() && (#[trigger] metas[i]).name@ == name;
        assert(metas[i].name@ == name);
        assert(candidates(longer, metas).drop_last() =~= candidates(list, metas));
        assert(with_bases(longer, metas).drop_last() =~= with_bases(list, metas));
    }
}

} // verus!
