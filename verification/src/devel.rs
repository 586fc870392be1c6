//! Tracking of packages that are built from a moving upstream.
//!
//! Such a package keeps its version until it is rebuilt, so its version does
//! not tell whether there is anything new. What tells is the commit that each
//! of its sources was at when it was built. That is recorded here, by the
//! sources of the recipe and not by the name of the package.

use crate::names::NameMap;
use crate::paths;
use crate::text;
use vstd::prelude::*;

verus! {

/// Which upstream reference a source follows.
#[derive(Debug, Clone, PartialEq, Eq)]
pub enum Reference {
    /// No fragment: the default branch (`HEAD`).
    Head,
    /// `#branch=<name>`: a named branch.
    Branch(String),
    /// `#commit=`, `#tag=`, `#revision=`: pinned, never upgraded.
    Pinned,
}

/// One version control source of a recipe.
#[derive(Debug, Clone, PartialEq, Eq)]
pub struct VcsSource {
    /// The kind: `git`, `svn`, `hg` or `bzr`.
    pub vcs: String,
    /// The URL without the fragment, e.g. `https://github.com/x/y.git`.
    pub url: String,
    /// The reference that the source follows.
    pub reference: Reference,
}

/// The contents of a reference.
pub enum ReferenceView {
    Head,
    Branch(Seq<char>),
    Pinned,
}

impl View for Reference {
    type V = ReferenceView;

    open spec fn view(&self) -> ReferenceView {
        match self {
            Reference::Head => ReferenceView::Head,
            Reference::Branch(b) => ReferenceView::Branch(b@),
            Reference::Pinned => ReferenceView::Pinned,
        }
    }
}

/// The contents of a source.
pub struct SourceView {
    pub vcs: Seq<char>,
    pub url: Seq<char>,
    pub reference: ReferenceView,
}

impl View for VcsSource {
    type V = SourceView;

    open spec fn view(&self) -> SourceView {
        SourceView { vcs: self.vcs@, url: self.url@, reference: self.reference@ }
    }
}

/// The contents of a list of sources.
pub open spec fn sources_of(v: Seq<VcsSource>) -> Seq<SourceView> {
    Seq::new(v.len(), |i: int| v[i]@)
}

/// Picks one character.
pub open spec fn is_char(c: char) -> spec_fn(char) -> bool {
    |d: char| d == c
}

/// Picks the characters that end a source.
pub open spec fn ends_source() -> spec_fn(char) -> bool {
    |c: char| c == '\'' || c == '"' || c == ')' || text::is_white_space(c)
}

/// The branch that a fragment names: what follows `branch=` in the first of its
/// parts that starts so. The parts are separated by `&`.
pub open spec fn branch_of(frag: Seq<char>) -> Option<Seq<char>>
    decreases frag.len(),
{
    let n = text::until(frag, is_char('&'));
    let part = frag.take(n);
    if "branch="@.is_prefix_of(part) {
        Some(part.skip("branch="@.len() as int))
    } else if 0 <= n < frag.len() {
        branch_of(frag.skip(n + 1))
    } else {
        None
    }
}

/// The reference that a fragment stands for.
pub open spec fn reference_of(frag: Seq<char>) -> ReferenceView {
    if frag.len() == 0 {
        ReferenceView::Head
    } else {
        match branch_of(frag) {
            Some(b) if b.len() > 0 => ReferenceView::Branch(b),
            _ => ReferenceView::Pinned,
        }
    }
}

/// The source that a token stands for, if it has a URL.
pub open spec fn source_of(vcs: Seq<char>, token: Seq<char>) -> Option<SourceView> {
    let n = text::until(token, is_char('#'));
    if n == 0 {
        None
    } else {
        Some(
            SourceView {
                vcs,
                url: token.take(n),
                reference: if n < token.len() {
                    reference_of(token.skip(n + 1))
                } else {
                    ReferenceView::Head
                },
            },
        )
    }
}

/// The sources of one kind in a recipe from an offset on. Each starts with the
/// kind and a `+`, and ends before a quote, a closing parenthesis or white
/// space.
pub open spec fn sources_from(s: Seq<char>, vcs: Seq<char>, from: int) -> Seq<SourceView>
    decreases s.len() - from,
{
    match text::first_at(s, vcs + "+"@, from) {
        Some(at) => {
            let start = at + vcs.len() + 1;
            let after = s.skip(start);
            let n = text::until(after, ends_source());
            let rest = if from < start + n <= s.len() {
                sources_from(s, vcs, start + n)
            } else {
                Seq::empty()
            };
            match source_of(vcs, after.take(n)) {
                Some(src) => seq![src] + rest,
                None => rest,
            }
        },
        None => Seq::empty(),
    }
}

/// The sources of a recipe, by kind.
pub open spec fn sources_in(s: Seq<char>) -> Seq<SourceView> {
    sources_from(s, "git"@, 0) + sources_from(s, "svn"@, 0) + sources_from(s, "hg"@, 0)
        + sources_from(s, "bzr"@, 0)
}

/// The end of the run of characters from `from` on that `c` does not stop.
fn end_of(cs: &Vec<char>, from: usize, to: usize, c: char) -> (r: usize)
    requires
        from <= to <= cs@.len(),
    ensures
        from <= r <= to,
        r - from == text::until(cs@.subrange(from as int, to as int), is_char(c)),
{
    let mut i: usize = from;
    let ghost part = cs@.subrange(from as int, to as int);
    while i < to && cs[i] != c
        invariant
            from <= i <= to <= cs@.len(),
            forall|j: int| from <= j < i ==> #[trigger] cs@[j] != c,
        decreases to - i,
    {
        i += 1;
    }
    proof {
        assert forall|j: int| 0 <= j < i - from implies !is_char(c)(#[trigger] part[j]) by {
            assert(part[j] == cs@[from + j]);
        }
        text::lemma_until_at(part, is_char(c), i - from);
    }
    i
}

fn find_branch(cs: &Vec<char>, from: usize, to: usize) -> (r: Option<String>)
    requires
        from <= to <= cs@.len(),
    ensures
        text::opt_text(r) == branch_of(cs@.subrange(from as int, to as int)),
{
    let prefix = text::chars_of("branch=");
    let ghost all = cs@.subrange(from as int, to as int);
    let mut at: usize = from;
    loop
        invariant
            from <= at <= to <= cs@.len(),
            prefix@ == "branch="@,
            all == cs@.subrange(from as int, to as int),
            branch_of(all) == branch_of(cs@.subrange(at as int, to as int)),
        decreases to - at,
    {
        let ghost frag = cs@.subrange(at as int, to as int);
        let end = end_of(cs, at, to, '&');
        proof {
            assert(frag.take(end - at) =~= cs@.subrange(at as int, end as int));
        }
        if end - at >= prefix.len() && text::stands_at(cs, &prefix, at) {
            proof {
                let part = frag.take(end - at);
                assert(part.subrange(0, prefix@.len() as int) =~= cs@.subrange(
                    at as int,
                    at + prefix@.len(),
                ));
                assert(prefix@.is_prefix_of(part));
                assert(part.skip(prefix@.len() as int) =~= cs@.subrange(
                    at + prefix@.len(),
                    end as int,
                ));
            }
            return Some(text::string_between(cs, at + prefix.len(), end));
        }
        proof {
            let part = frag.take(end - at);
            if prefix@.is_prefix_of(part) {
                assert(part.subrange(0, prefix@.len() as int) =~= cs@.subrange(
                    at as int,
                    at + prefix@.len(),
                ));
                assert(text::occurs_at(cs@, prefix@, at as int));
            }
        }
        if end == to {
            return None;
        }
        proof {
            assert(frag.skip(end - at + 1) =~= cs@.subrange(end + 1, to as int));
        }
        at = end + 1;
    }
}

fn read_reference(cs: &Vec<char>, from: usize, to: usize) -> (r: Reference)
    requires
        from <= to <= cs@.len(),
    ensures
        r@ == reference_of(cs@.subrange(from as int, to as int)),
{
    if from == to {
        return Reference::Head;
    }
    match find_branch(cs, from, to) {
        Some(b) => if b.as_str().is_empty() {
            Reference::Pinned
        } else {
            Reference::Branch(b)
        },
        None => Reference::Pinned,
    }
}

fn read_source(vcs: &str, cs: &Vec<char>, from: usize, to: usize) -> (r: Option<VcsSource>)
    requires
        from <= to <= cs@.len(),
    ensures
        match r {
            Some(src) => source_of(vcs@, cs@.subrange(from as int, to as int)) == Some(src@),
            None => source_of(vcs@, cs@.subrange(from as int, to as int)) is None,
        },
{
    let ghost token = cs@.subrange(from as int, to as int);
    let hash = end_of(cs, from, to, '#');
    if hash == from {
        return None;
    }
    proof {
        assert(token.take(hash - from) =~= cs@.subrange(from as int, hash as int));
    }
    let url = text::string_between(cs, from, hash);
    let reference = if hash < to {
        proof {
            assert(token.skip(hash - from + 1) =~= cs@.subrange(hash + 1, to as int));
        }
        read_reference(cs, hash + 1, to)
    } else {
        Reference::Head
    };
    Some(VcsSource { vcs: String::from_str(vcs), url, reference })
}

/// Appends the sources of one kind.
fn read_sources(out: &mut Vec<VcsSource>, cs: &Vec<char>, vcs: &str)
    ensures
        sources_of(final(out)@) == sources_of(old(out)@) + sources_from(cs@, vcs@, 0),
{
    let proto = text::chars_of(text::concat(vcs, "+").as_str());
    let n: usize = cs.len();
    let ghost before = sources_of(out@);
    let ghost all = sources_from(cs@, vcs@, 0);
    let mut from: usize = 0;
    proof {
        reveal_strlit("+");
        assert(proto@.len() == vcs@.len() + 1);
        assert(before + all =~= sources_of(out@) + all);
    }
    loop
        invariant
            n == cs@.len(),
            from <= n,
            proto@ == vcs@ + "+"@,
            proto@.len() == vcs@.len() + 1,
            before + all == sources_of(out@) + sources_from(cs@, vcs@, from as int),
        ensures
            sources_of(out@) == before + all,
        decreases n - from,
    {
        proof {
            text::lemma_first_at(cs@, proto@, from as int);
        }
        let at: usize = match text::find(cs, &proto, from) {
            Some(at) => at,
            None => {
                proof {
                    assert(sources_of(out@) + Seq::<SourceView>::empty() =~= sources_of(out@));
                }
                break;
            },
        };
        let start: usize = at + proto.len();
        let mut end: usize = start;
        let ghost after = cs@.skip(start as int);
        while end < n && cs[end] != '\'' && cs[end] != '"' && cs[end] != ')' && !text::white_space(
            cs[end],
        )
            invariant
                n == cs@.len(),
                start <= end <= n,
                forall|j: int| start <= j < end ==> !ends_source()(#[trigger] cs@[j]),
            decreases n - end,
        {
            end += 1;
        }
        proof {
            assert forall|j: int| 0 <= j < end - start implies !ends_source()(
                #[trigger] after[j],
            ) by {
                assert(after[j] == cs@[start + j]);
            }
            text::lemma_until_at(after, ends_source(), end - start);
            assert(after.take(end - start) =~= cs@.subrange(start as int, end as int));
        }
        let ghost was = sources_of(out@);
        let ghost rest = sources_from(cs@, vcs@, end as int);
        if let Some(src) = read_source(vcs, cs, start, end) {
            out.push(src);
            proof {
                assert(sources_of(out@) =~= was.push(src@));
                assert(was + (seq![src@] + rest) =~= sources_of(out@) + rest);
            }
        }
        from = end;
    }
}

/// The version control sources of a recipe. The recipe is not executed, only
/// searched for tokens of the form `vcs+<url>[#fragment]`.
pub fn parse_vcs_sources(pkgbuild: &str) -> (r: Vec<VcsSource>)
    ensures
        sources_of(r@) == sources_in(pkgbuild@),
{
    let cs = text::chars_of(pkgbuild);
    let mut out: Vec<VcsSource> = Vec::new();
    proof {
        assert(sources_of(out@) =~= Seq::<SourceView>::empty());
    }
    read_sources(&mut out, &cs, "git");
    read_sources(&mut out, &cs, "svn");
    read_sources(&mut out, &cs, "hg");
    read_sources(&mut out, &cs, "bzr");
    proof {
        assert(sources_of(out@) =~= sources_in(pkgbuild@));
    }
    out
}

/// Whether a recipe has any version control source.
pub fn has_vcs_sources(pkgbuild: &str) -> (r: bool)
    ensures
        r == (sources_in(pkgbuild@).len() > 0),
{
    let sources = parse_vcs_sources(pkgbuild);
    proof {
        assert(sources_of(sources@).len() == sources@.len());
    }
    sources.len() > 0
}

/// A question to a git repository: which commit is a reference at?
#[derive(Debug)]
pub struct RemoteQuery {
    pub url: String,
    pub refname: String,
}

/// The contents of a list of questions.
pub open spec fn queries_of(v: Seq<RemoteQuery>) -> Seq<(Seq<char>, Seq<char>)> {
    Seq::new(v.len(), |i: int| (v[i].url@, v[i].refname@))
}

/// The reference to ask for, if the source can be asked and is not pinned.
pub open spec fn refname_of(src: SourceView) -> Option<Seq<char>> {
    if src.vcs != "git"@ {
        None
    } else {
        match src.reference {
            ReferenceView::Head => Some("HEAD"@),
            ReferenceView::Branch(b) => Some(b),
            ReferenceView::Pinned => None,
        }
    }
}

/// The questions that a list of sources gives.
pub open spec fn questions(sources: Seq<SourceView>) -> Seq<(Seq<char>, Seq<char>)>
    decreases sources.len(),
{
    if sources.len() == 0 {
        Seq::empty()
    } else {
        let before = questions(sources.drop_last());
        match refname_of(sources.last()) {
            Some(refname) => before.push((sources.last().url, refname)),
            None => before,
        }
    }
}

/// What has to be asked upstream to know the current commits of the sources of
/// a recipe. Pinned sources are not asked, and of the kinds only git can be.
pub fn remote_queries(pkgbuild: &str) -> (r: Vec<RemoteQuery>)
    ensures
        queries_of(r@) == questions(sources_in(pkgbuild@)),
{
    let sources = parse_vcs_sources(pkgbuild);
    let ghost all = sources_of(sources@);
    let mut out: Vec<RemoteQuery> = Vec::new();
    let mut i: usize = 0;
    proof {
        assert(queries_of(out@) =~= Seq::<(Seq<char>, Seq<char>)>::empty());
    }
    while i < sources.len()
        invariant
            i <= sources@.len(),
            all == sources_of(sources@),
            queries_of(out@) == questions(all.take(i as int)),
        decreases sources@.len() - i,
    {
        let ghost before = queries_of(out@);
        let src = &sources[i];
        proof {
            assert(all.take(i + 1).drop_last() =~= all.take(i as int));
            assert(all.take(i + 1).last() == src@);
        }
        if text::same(src.vcs.as_str(), "git") {
            let refname = match &src.reference {
                Reference::Head => Some(String::from_str("HEAD")),
                Reference::Branch(b) => Some(b.clone()),
                Reference::Pinned => None,
            };
            if let Some(refname) = refname {
                out.push(RemoteQuery { url: src.url.clone(), refname });
                proof {
                    assert(queries_of(out@) =~= before.push((src.url@, refname@)));
                }
            }
        }
        i += 1;
    }
    proof {
        assert(all.take(all.len() as int) =~= all);
    }
    out
}

/// A map of texts.
pub open spec fn text_map(m: Map<Seq<char>, String>) -> Map<Seq<char>, Seq<char>> {
    Map::new(|k: Seq<char>| m.dom().contains(k), |k: Seq<char>| m[k]@)
}

/// The commits by URL: for each question that was answered, the answer. Where a
/// URL was asked more than once the last answer stays.
pub open spec fn commits_of(
    asked: Seq<(Seq<char>, Seq<char>)>,
    answers: Seq<Option<String>>,
) -> Map<Seq<char>, Seq<char>>
    decreases asked.len(),
{
    if asked.len() == 0 {
        Map::empty()
    } else {
        let before = commits_of(asked.drop_last(), answers);
        match answers[asked.len() - 1] {
            Some(commit) => before.insert(asked.last().0, commit@),
            None => before,
        }
    }
}

/// The current commits of the sources of a recipe, by URL, given the answers to
/// its [`remote_queries`]. A source that could not be reached is left out
/// rather than guessed, so nothing may be left to compare.
pub fn resolve_current(pkgbuild: &str, answers: &Vec<Option<String>>) -> (r: NameMap<String>)
    requires
        answers@.len() == questions(sources_in(pkgbuild@)).len(),
    ensures
        text_map(r@) == commits_of(questions(sources_in(pkgbuild@)), answers@),
{
    let queries = remote_queries(pkgbuild);
    let ghost all = queries_of(queries@);
    let mut out: NameMap<String> = NameMap::new();
    let mut i: usize = 0;
    proof {
        assert(text_map(out@) =~= Map::<Seq<char>, Seq<char>>::empty());
    }
    while i < queries.len()
        invariant
            i <= queries@.len(),
            all == queries_of(queries@),
            answers@.len() == all.len(),
            text_map(out@) == commits_of(all.take(i as int), answers@),
        decreases queries@.len() - i,
    {
        let ghost before = text_map(out@);
        proof {
            assert(all.take(i + 1).drop_last() =~= all.take(i as int));
            assert(all.take(i + 1).last() == all[i as int]);
        }
        if let Some(commit) = &answers[i] {
            out.insert(queries[i].url.clone(), commit.clone());
            proof {
                assert(text_map(out@) =~= before.insert(all[i as int].0, commit@));
            }
        }
        i += 1;
    }
    proof {
        assert(all.take(all.len() as int) =~= all);
    }
    out
}

/// The first word of the first line of a text, in lower case.
pub open spec fn first_hash(s: Seq<char>) -> Option<Seq<char>> {
    let lines = text::lines_of(s);
    if lines.len() == 0 {
        None
    } else {
        text::first_word(lines[0])
    }
}

/// The commit of the first reference that `git ls-remote` listed, in lower
/// case. `None` stands for a failed listing; an empty one has no commit.
pub fn ls_remote(output: Option<&str>) -> (r: Option<String>)
    ensures
        text::opt_text(r) == (match output {
            Some(s) => first_hash(s@),
            None => None,
        }),
{
    match output {
        Some(s) => {
            let lines = text::lines(s);
            proof {
                assert(text::texts(lines@).len() == lines@.len());
            }
            if lines.len() == 0 {
                return None;
            }
            text::word(lines[0].as_str())
        },
        None => None,
    }
}

/// What was recorded of a package when it was last built.
#[derive(Debug)]
pub struct DevelEntry {
    /// Unix timestamp of the record.
    pub recorded_at: i64,
    /// The commit of each source, by URL, as built.
    pub sources: NameMap<String>,
}

/// The contents of an entry.
pub struct EntryView {
    pub recorded_at: int,
    pub sources: Map<Seq<char>, Seq<char>>,
}

impl View for DevelEntry {
    type V = EntryView;

    open spec fn view(&self) -> EntryView {
        EntryView { recorded_at: self.recorded_at as int, sources: text_map(self.sources@) }
    }
}

/// The database of tracked packages.
#[derive(Debug)]
pub struct DevelDb {
    path: String,
    map: NameMap<DevelEntry>,
}

/// The entries by package.
pub open spec fn entries_of(m: Map<Seq<char>, DevelEntry>) -> Map<Seq<char>, EntryView> {
    Map::new(|k: Seq<char>| m.dom().contains(k), |k: Seq<char>| m[k]@)
}

/// The contents of a database.
#[verifier::ext_equal]
pub struct DbView {
    pub path: Seq<char>,
    pub entries: Map<Seq<char>, EntryView>,
}

impl View for DevelDb {
    type V = DbView;

    closed spec fn view(&self) -> DbView {
        DbView { path: self.path@, entries: entries_of(self.map@) }
    }
}

/// A database in which the sources of a package were recorded. A package
/// without sources is dropped rather than kept empty.
pub open spec fn recorded(
    db: DbView,
    package: Seq<char>,
    sources: Map<Seq<char>, Seq<char>>,
    now: int,
) -> DbView {
    DbView {
        entries: if sources == Map::<Seq<char>, Seq<char>>::empty() {
            db.entries.remove(package)
        } else {
            db.entries.insert(package, EntryView { recorded_at: now, sources })
        },
        ..db
    }
}

/// The database at a path, with the entries that were stored there. It is empty
/// where nothing was.
pub open spec fn opened(path: Seq<char>, stored: Option<Map<Seq<char>, EntryView>>) -> DbView {
    DbView {
        path,
        entries: match stored {
            Some(entries) => entries,
            None => Map::empty(),
        },
    }
}

/// The entries that were stored, if anything was.
pub open spec fn stored_entries(stored: Option<NameMap<DevelEntry>>) -> Option<
    Map<Seq<char>, EntryView>,
> {
    match stored {
        Some(m) => Some(entries_of(m@)),
        None => None,
    }
}

/// Where the database of the user is kept, from `XDG_DATA_HOME` and `HOME`.
pub fn default_path(xdg: Option<&str>, home: Option<&str>) -> (r: Option<String>)
    ensures
        text::opt_text(r) == paths::data_place(
            text::opt_slice(xdg),
            text::opt_slice(home),
            "devel.json"@,
        ),
{
    paths::data_file(xdg, home, "devel.json")
}

impl DevelDb {
    /// The database of the user, from `XDG_DATA_HOME` and `HOME`, with what was
    /// read of it. `None` if neither variable is set.
    pub fn open_default(
        xdg: Option<&str>,
        home: Option<&str>,
        stored: Option<NameMap<DevelEntry>>,
    ) -> (r: Option<DevelDb>)
        ensures
            match paths::data_place(text::opt_slice(xdg), text::opt_slice(home), "devel.json"@) {
                Some(path) => r is Some && r->0@ == opened(path, stored_entries(stored)),
                None => r is None,
            },
    {
        match default_path(xdg, home) {
            Some(path) => Some(DevelDb::open(path.as_str(), stored)),
            None => None,
        }
    }

    /// The database at a path, with what was read of it. It starts empty where
    /// there was nothing to read.
    pub fn open(path: &str, stored: Option<NameMap<DevelEntry>>) -> (r: DevelDb)
        ensures
            r@ == opened(path@, stored_entries(stored)),
    {
        let map = match stored {
            Some(m) => m,
            None => NameMap::new(),
        };
        let r = DevelDb { path: String::from_str(path), map };
        proof {
            if stored is None {
                assert(r@.entries =~= Map::<Seq<char>, EntryView>::empty());
            }
        }
        r
    }

    /// Where the database is kept.
    pub fn path(&self) -> (r: &str)
        ensures
            r@ == self@.path,
    {
        self.path.as_str()
    }

    /// The entry of a package, if it is tracked.
    pub fn get(&self, package: &str) -> (r: Option<&DevelEntry>)
        ensures
            match r {
                Some(e) => self@.entries.dom().contains(package@) && e@
                    == self@.entries[package@],
                None => !self@.entries.dom().contains(package@),
            },
    {
        self.map.get(package)
    }

    /// Whether a package is tracked.
    pub fn is_tracked(&self, package: &str) -> (r: bool)
        ensures
            r == self@.entries.dom().contains(package@),
    {
        self.map.contains_key(package)
    }

    /// The tracked packages, in ascending order.
    pub fn tracked_packages(&self) -> (r: &Vec<String>)
        ensures
            crate::order::sorted(text::texts(r@)),
            text::texts(r@).to_set() == self@.entries.dom(),
    {
        let keys = self.map.keys();
        proof {
            assert(self@.entries.dom() =~= self.map@.dom());
        }
        keys
    }

    /// Records, or replaces, the commits that a package was just built at.
    pub fn record(&mut self, package: &str, sources: NameMap<String>, now: i64)
        ensures
            final(self)@ == recorded(old(self)@, package@, text_map(sources@), now as int),
    {
        let ghost before = self@;
        let ghost given = text_map(sources@);
        if sources.is_empty() {
            self.map.remove(package);
            proof {
                assert(given =~= Map::<Seq<char>, Seq<char>>::empty());
            }
        } else {
            proof {
                assert(given != Map::<Seq<char>, Seq<char>>::empty()) by {
                    if given == Map::<Seq<char>, Seq<char>>::empty() {
                        assert(sources@.dom() =~= Set::<Seq<char>>::empty()) by {
                            assert forall|k: Seq<char>| !sources@.dom().contains(k) by {
                                assert(!given.dom().contains(k));
                            }
                        }
                        assert(sources@ =~= Map::<Seq<char>, String>::empty());
                    }
                }
            }
            self.map.insert(
                String::from_str(package),
                DevelEntry { recorded_at: now, sources },
            );
        }
        proof {
            assert(self@.entries =~= recorded(before, package@, given, now as int).entries);
        }
    }

    /// Stops tracking a package. Returns whether it was tracked.
    pub fn forget(&mut self, package: &str) -> (r: bool)
        ensures
            r == old(self)@.entries.dom().contains(package@),
            final(self)@ == forgotten(old(self)@, package@),
    {
        let ghost before = self@;
        let r = self.map.remove(package).is_some();
        proof {
            assert(self@.entries =~= before.entries.remove(package@));
        }
        r
    }
}

/// Upstream moved on: a source that can be compared has another commit than was
/// recorded, or was not recorded.
pub open spec fn moved_on(
    seen: Map<Seq<char>, Seq<char>>,
    current: Map<Seq<char>, Seq<char>>,
) -> bool {
    exists|url: Seq<char>| #[trigger]
        current.dom().contains(url) && !(seen.dom().contains(url) && seen[url] == current[url])
}

/// Whether upstream moved on since a package was recorded. Where nothing can be
/// compared it did not: no upgrade is invented.
pub fn entry_has_new_commits(entry: &DevelEntry, current: &NameMap<String>) -> (r: bool)
    ensures
        r == moved_on(entry@.sources, text_map(current@)),
{
    let urls = current.keys();
    let ghost now = text_map(current@);
    let ghost seen = entry@.sources;
    let mut i: usize = 0;
    while i < urls.len()
        invariant
            i <= urls@.len(),
            now == text_map(current@),
            seen == text_map(entry.sources@),
            text::texts(urls@).to_set() == current@.dom(),
            forall|j: int|
                0 <= j < i ==> seen.dom().contains(#[trigger] urls@[j]@) && seen[urls@[j]@]
                    == now[urls@[j]@],
        decreases urls@.len() - i,
    {
        let url = urls[i].as_str();
        proof {
            assert(text::texts(urls@)[i as int] == url@);
            assert(text::texts(urls@).contains(url@));
            assert(text::texts(urls@).to_set().contains(url@));
        }
        let same = match (entry.sources.get(url), current.get(url)) {
            (Some(a), Some(b)) => text::same(a.as_str(), b.as_str()),
            _ => false,
        };
        if !same {
            proof {
                assert(now.dom().contains(url@));
            }
            return true;
        }
        i += 1;
    }
    proof {
        assert forall|url: Seq<char>| #[trigger] now.dom().contains(url) implies seen.dom().contains(
            url,
        ) && seen[url] == now[url] by {
            assert(text::texts(urls@).to_set().contains(url));
            let j = choose|j: int| 0 <= j < urls@.len() && text::texts(urls@)[j] == url;
            assert(urls@[j]@ == url);
        }
    }
    false
}

/// What was recorded is read back, and forgetting undoes it; other packages are
/// not touched.
pub proof fn law_record_then_read(
    db: DbView,
    package: Seq<char>,
    sources: Map<Seq<char>, Seq<char>>,
    now: int,
    other: Seq<char>,
)
    requires
        sources != Map::<Seq<char>, Seq<char>>::empty(),
        other != package,
    ensures
        recorded(db, package, sources, now).entries.dom().contains(package),
        recorded(db, package, sources, now).entries[package] == (EntryView {
            recorded_at: now,
            sources,
        }),
        recorded(db, package, sources, now).entries.remove(package) == db.entries.remove(package),
        recorded(db, package, sources, now).entries.dom().contains(other)
            <==> db.entries.dom().contains(other),
        db.entries.dom().contains(other) ==> recorded(db, package, sources, now).entries[other]
            == db.entries[other],
{
    assert(recorded(db, package, sources, now).entries.remove(package) =~= db.entries.remove(
        package,
    ));
}

/// A package without comparable sources is not tracked.
pub proof fn law_empty_record_drops(db: DbView, package: Seq<char>, now: int)
    ensures
        !recorded(db, package, Map::empty(), now).entries.dom().contains(package),
{
}

/// Right after a package was recorded it has nothing new, and where nothing can
/// be compared it has nothing new either.
pub proof fn law_no_invented_upgrade(seen: Map<Seq<char>, Seq<char>>)
    ensures
        !moved_on(seen, seen),
        !moved_on(seen, Map::empty()),
{
}

/// A pinned source is never asked for, so it never makes an upgrade.
pub proof fn law_pinned_is_never_asked(src: SourceView)
    requires
        src.reference is Pinned,
    ensures
        refname_of(src) is None,
        questions(seq![src]) == Seq::<(Seq<char>, Seq<char>)>::empty(),
{
    assert(seq![src].drop_last() =~= Seq::<SourceView>::empty());
    assert(questions(Seq::<SourceView>::empty()) == Seq::<(Seq<char>, Seq<char>)>::empty());
}

/// A URL as it stands in a recipe: not empty, without a fragment, and without
/// anything that ends a source.
pub open spec fn is_bare_url(url: Seq<char>) -> bool {
    &&& url.len() > 0
    &&& forall|j: int|
        0 <= j < url.len() ==> (#[trigger] url[j]) != '#' && url[j] != '\'' && url[j] != '"'
            && url[j] != ')' && !text::is_white_space(url[j])
}

/// Every source that is searched by a kind is of that kind and has a bare URL.
proof fn lemma_sources_are_bare(s: Seq<char>, vcs: Seq<char>, from: int, i: int)
    requires
        0 <= i < sources_from(s, vcs, from).len(),
    ensures
        sources_from(s, vcs, from)[i].vcs == vcs,
        is_bare_url(sources_from(s, vcs, from)[i].url),
    decreases s.len() - from,
{
    let at = text::first_at(s, vcs + "+"@, from)->0;
    let start = at + vcs.len() + 1;
    let after = s.skip(start);
    let n = text::until(after, ends_source());
    let token = after.take(n);
    let rest = if from < start + n <= s.len() {
        sources_from(s, vcs, start + n)
    } else {
        Seq::empty()
    };
    match source_of(vcs, token) {
        Some(src) => {
            if i == 0 {
                assert((seq![src] + rest)[0] == src);
                let k = text::until(token, is_char('#'));
                text::lemma_until(token, is_char('#'));
                text::lemma_until(after, ends_source());
                assert forall|j: int| 0 <= j < src.url.len() implies (#[trigger] src.url[j]) != '#'
                    && src.url[j] != '\'' && src.url[j] != '"' && src.url[j] != ')'
                    && !text::is_white_space(src.url[j]) by {
                    assert(src.url[j] == token[j]);
                    assert(!is_char('#')(token[j]));
                    assert(token[j] == after[j]);
                    assert(!ends_source()(after[j]));
                }
            } else {
                assert((seq![src] + rest)[i] == rest[i - 1]);
                lemma_sources_are_bare(s, vcs, start + n, i - 1);
            }
        },
        None => {
            lemma_sources_are_bare(s, vcs, start + n, i);
        },
    }
}

/// Every source of a recipe is of one of the four kinds, and its URL is bare: it
/// is not empty and holds no fragment, no quote, no closing parenthesis and no
/// white space.
pub proof fn law_sources_are_bare(s: Seq<char>, i: int)
    requires
        0 <= i < sources_in(s).len(),
    ensures
        ({
            let src = sources_in(s)[i];
            &&& is_bare_url(src.url)
            &&& src.vcs == "git"@ || src.vcs == "svn"@ || src.vcs == "hg"@ || src.vcs == "bzr"@
        }),
{
    let git = sources_from(s, "git"@, 0);
    let svn = sources_from(s, "svn"@, 0);
    let hg = sources_from(s, "hg"@, 0);
    let bzr = sources_from(s, "bzr"@, 0);
    if i < git.len() {
        lemma_sources_are_bare(s, "git"@, 0, i);
    } else if i < git.len() + svn.len() {
        lemma_sources_are_bare(s, "svn"@, 0, i - git.len());
    } else if i < git.len() + svn.len() + hg.len() {
        lemma_sources_are_bare(s, "hg"@, 0, i - git.len() - svn.len());
    } else {
        lemma_sources_are_bare(s, "bzr"@, 0, i - git.len() - svn.len() - hg.len());
    }
}

/// The sources of one kind, in order.
pub open spec fn of_kind(sources: Seq<SourceView>, vcs: Seq<char>) -> Seq<SourceView> {
    sources.filter(|src: SourceView| src.vcs == vcs)
}

/// Sources that are all of a kind, or none of it.
proof fn lemma_of_kind(sources: Seq<SourceView>, kind: Seq<char>, vcs: Seq<char>)
    requires
        forall|i: int| 0 <= i < sources.len() ==> (#[trigger] sources[i]).vcs == kind,
    ensures
        kind == vcs ==> of_kind(sources, vcs) == sources,
        kind != vcs ==> of_kind(sources, vcs) == Seq::<SourceView>::empty(),
    decreases sources.len(),
{
    reveal(Seq::filter);
    if sources.len() > 0 {
        let rest = sources.drop_last();
        assert forall|i: int| 0 <= i < rest.len() implies (#[trigger] rest[i]).vcs == kind by {
            assert(rest[i] == sources[i]);
        }
        lemma_of_kind(rest, kind, vcs);
        assert(sources[sources.len() - 1].vcs == kind);
        assert(sources =~= rest.push(sources.last()));
    } else {
        assert(of_kind(sources, vcs) =~= Seq::<SourceView>::empty());
    }
}

/// The sources of one kind in a recipe are those that are searched by it.
proof fn lemma_kinds(s: Seq<char>, vcs: Seq<char>)
    requires
        vcs == "git"@ || vcs == "svn"@ || vcs == "hg"@ || vcs == "bzr"@,
    ensures
        of_kind(sources_in(s), vcs) == sources_from(s, vcs, 0),
{
    reveal_strlit("git");
    reveal_strlit("svn");
    reveal_strlit("hg");
    reveal_strlit("bzr");
    assert("git"@[0] != "svn"@[0] && "git"@[0] != "hg"@[0] && "git"@[0] != "bzr"@[0]);
    assert("svn"@[0] != "hg"@[0] && "svn"@[0] != "bzr"@[0] && "hg"@[0] != "bzr"@[0]);
    let git = sources_from(s, "git"@, 0);
    let svn = sources_from(s, "svn"@, 0);
    let hg = sources_from(s, "hg"@, 0);
    let bzr = sources_from(s, "bzr"@, 0);
    lemma_all_of_kind(s, "git"@);
    lemma_all_of_kind(s, "svn"@);
    lemma_all_of_kind(s, "hg"@);
    lemma_all_of_kind(s, "bzr"@);
    lemma_of_kind(git, "git"@, vcs);
    lemma_of_kind(svn, "svn"@, vcs);
    lemma_of_kind(hg, "hg"@, vcs);
    lemma_of_kind(bzr, "bzr"@, vcs);
    let pick = |src: SourceView| src.vcs == vcs;
    Seq::filter_distributes_over_add(git + svn + hg, bzr, pick);
    Seq::filter_distributes_over_add(git + svn, hg, pick);
    Seq::filter_distributes_over_add(git, svn, pick);
    assert(of_kind(sources_in(s), vcs) =~= sources_from(s, vcs, 0));
}

proof fn lemma_all_of_kind(s: Seq<char>, vcs: Seq<char>)
    ensures
        forall|i: int|
            0 <= i < sources_from(s, vcs, 0).len() ==> (#[trigger] sources_from(s, vcs, 0)[i]).vcs
                == vcs,
{
    assert forall|i: int| 0 <= i < sources_from(s, vcs, 0).len() implies (
    #[trigger] sources_from(s, vcs, 0)[i]).vcs == vcs by {
        lemma_sources_are_bare(s, vcs, 0, i);
    }
}

/// A pattern stands in the second of two texts where it stands behind the line
/// between them.
proof fn lemma_first_at_behind(a: Seq<char>, b: Seq<char>, pat: Seq<char>, from: int)
    requires
        0 <= from,
    ensures
        text::first_at(a + "\n"@ + b, pat, a.len() + 1 + from) == (match text::first_at(
            b,
            pat,
            from,
        ) {
            Some(i) => Some(a.len() + 1 + i),
            None => None,
        }),
    decreases b.len() + 1 - from,
{
    reveal_strlit("\n");
    let t = a + "\n"@ + b;
    let k = a.len() + 1;
    assert(t.len() == k + b.len());
    if from + pat.len() <= b.len() {
        assert(t.subrange(k + from, k + from + pat.len()) =~= b.subrange(from, from + pat.len()));
        assert(text::occurs_at(t, pat, k + from) == text::occurs_at(b, pat, from));
        if !text::occurs_at(b, pat, from) {
            lemma_first_at_behind(a, b, pat, from + 1);
        }
    }
}

/// The sources behind the line between two texts are those of the second.
proof fn lemma_sources_behind(a: Seq<char>, b: Seq<char>, vcs: Seq<char>, from: int)
    requires
        0 <= from,
    ensures
        sources_from(a + "\n"@ + b, vcs, a.len() + 1 + from) == sources_from(b, vcs, from),
    decreases b.len() - from,
{
    reveal_strlit("\n");
    reveal_strlit("+");
    let t = a + "\n"@ + b;
    let k = a.len() + 1;
    let pat = vcs + "+"@;
    lemma_first_at_behind(a, b, pat, from);
    text::lemma_first_at(b, pat, from);
    match text::first_at(b, pat, from) {
        Some(at) => {
            let start = at + vcs.len() + 1;
            assert(t.skip(k + start) =~= b.skip(start));
            let after = b.skip(start);
            text::lemma_until(after, ends_source());
            let n = text::until(after, ends_source());
            lemma_sources_behind(a, b, vcs, start + n);
        },
        None => {},
    }
}

/// Where a pattern that holds no line end is first found: in the first of two
/// texts on lines of their own, or else in the second.
proof fn lemma_first_at_lines(a: Seq<char>, b: Seq<char>, pat: Seq<char>, from: int)
    requires
        0 <= from <= a.len() + 1,
        pat.len() > 0,
        !pat.contains('\n'),
    ensures
        text::first_at(a + "\n"@ + b, pat, from) == (match text::first_at(a, pat, from) {
            Some(i) => Some(i),
            None => text::first_at(a + "\n"@ + b, pat, a.len() as int + 1),
        }),
    decreases a.len() + 1 - from,
{
    reveal_strlit("\n");
    let t = a + "\n"@ + b;
    if from <= a.len() {
        if from + pat.len() <= a.len() {
            assert(t.subrange(from, from + pat.len()) =~= a.subrange(from, from + pat.len()));
            assert(text::occurs_at(t, pat, from) == text::occurs_at(a, pat, from));
            if !text::occurs_at(a, pat, from) {
                lemma_first_at_lines(a, b, pat, from + 1);
            }
        } else {
            if text::occurs_at(t, pat, from) {
                let j = a.len() - from;
                assert(t.subrange(from, from + pat.len())[j] == t[a.len() as int]);
                assert(t[a.len() as int] == '\n');
                assert(pat[j] == '\n');
                assert(pat.contains('\n'));
            }
            lemma_first_at_lines(a, b, pat, from + 1);
            if from + 1 <= a.len() {
                assert(text::first_at(a, pat, from + 1) is None);
            }
            if from + pat.len() > t.len() {
                assert(text::first_at(t, pat, from) is None);
                assert(text::first_at(t, pat, a.len() as int + 1) is None);
            }
        }
    } else {
        assert(text::first_at(a, pat, from) is None);
    }
}

/// What comes before a stop that ends a part is found in the part alone.
proof fn lemma_until_lines(a: Seq<char>, rest: Seq<char>)
    requires
        rest.len() > 0,
        rest[0] == '\n',
    ensures
        text::until(a + rest, ends_source()) == text::until(a, ends_source()),
{
    let n = text::until(a, ends_source());
    let t = a + rest;
    text::lemma_until(a, ends_source());
    assert forall|i: int| 0 <= i < n implies !ends_source()(#[trigger] t[i]) by {
        assert(t[i] == a[i]);
    }
    if n < a.len() {
        assert(t[n] == a[n]);
    } else {
        assert(t[n] == rest[0]);
    }
    text::lemma_until_at(t, ends_source(), n);
}

/// The sources of two texts on lines of their own, from an offset in the first.
proof fn lemma_sources_lines(a: Seq<char>, b: Seq<char>, vcs: Seq<char>, from: int)
    requires
        0 <= from <= a.len(),
        !vcs.contains('\n'),
    ensures
        sources_from(a + "\n"@ + b, vcs, from) == sources_from(a, vcs, from) + sources_from(
            b,
            vcs,
            0,
        ),
    decreases a.len() - from,
{
    reveal_strlit("\n");
    reveal_strlit("+");
    let t = a + "\n"@ + b;
    let pat = vcs + "+"@;
    assert(!pat.contains('\n')) by {
        if pat.contains('\n') {
            let i = choose|i: int| 0 <= i < pat.len() && pat[i] == '\n';
            if i < vcs.len() {
                assert(vcs[i] == '\n');
            }
        }
    }
    lemma_first_at_lines(a, b, pat, from);
    text::lemma_first_at(a, pat, from);
    match text::first_at(a, pat, from) {
        Some(at) => {
            let start = at + vcs.len() + 1;
            let after = a.skip(start);
            assert(t.skip(start) =~= after + ("\n"@ + b));
            lemma_until_lines(after, "\n"@ + b);
            text::lemma_until(after, ends_source());
            let n = text::until(after, ends_source());
            assert(t.skip(start).take(n) =~= after.take(n));
            lemma_sources_lines(a, b, vcs, start + n);
            let second = sources_from(b, vcs, 0);
            let rest = sources_from(a, vcs, start + n);
            assert(sources_from(t, vcs, start + n) == rest + second);
            match source_of(vcs, after.take(n)) {
                Some(src) => {
                    assert(seq![src] + (rest + second) =~= (seq![src] + rest) + second);
                },
                None => {},
            }
        },
        None => {
            let k = a.len() as int + 1;
            lemma_sources_behind(a, b, vcs, 0);
            text::lemma_first_at(t, pat, k);
            assert(text::first_at(t, pat, from) == text::first_at(t, pat, k));
            match text::first_at(t, pat, k) {
                Some(at) => {
                    let start = at + vcs.len() + 1;
                    text::lemma_until(t.skip(start), ends_source());
                },
                None => {},
            }
            assert(sources_from(t, vcs, from) == sources_from(t, vcs, k));
            assert(sources_from(a, vcs, from) =~= Seq::<SourceView>::empty());
            assert(Seq::<SourceView>::empty() + sources_from(b, vcs, 0) =~= sources_from(b, vcs, 0));
        },
    }
}

/// The sources of two texts on lines of their own are, by kind, those of the
/// first and then those of the second: none is lost and none comes twice.
pub proof fn law_sources_add_up(a: Seq<char>, b: Seq<char>, vcs: Seq<char>)
    requires
        vcs == "git"@ || vcs == "svn"@ || vcs == "hg"@ || vcs == "bzr"@,
    ensures
        of_kind(sources_in(a + "\n"@ + b), vcs) == of_kind(sources_in(a), vcs) + of_kind(
            sources_in(b),
            vcs,
        ),
{
    reveal_strlit("git");
    reveal_strlit("svn");
    reveal_strlit("hg");
    reveal_strlit("bzr");
    assert(!vcs.contains('\n'));
    lemma_kinds(a + "\n"@ + b, vcs);
    lemma_kinds(a, vcs);
    lemma_kinds(b, vcs);
    lemma_sources_lines(a, b, vcs, 0);
}

/// A database without a package.
pub open spec fn forgotten(db: DbView, package: Seq<char>) -> DbView {
    DbView { entries: db.entries.remove(package), ..db }
}

/// What was recorded is there when what was stored is opened again, of every
/// package.
pub proof fn law_record_survives_reopening(
    db: DbView,
    package: Seq<char>,
    sources: Map<Seq<char>, Seq<char>>,
    now: int,
)
    ensures
        ({
            let after = recorded(db, package, sources, now);
            opened(after.path, Some(after.entries)) == after
        }),
{
}

/// Forgetting a package leaves it untracked and every other as it was. Forgetting
/// it again changes nothing, nor does forgetting one that is not tracked, and it
/// stays forgotten when what was stored is opened again.
pub proof fn law_forget_is_final(db: DbView, package: Seq<char>, other: Seq<char>)
    requires
        other != package,
    ensures
        !forgotten(db, package).entries.dom().contains(package),
        forgotten(forgotten(db, package), package) == forgotten(db, package),
        !db.entries.dom().contains(package) ==> forgotten(db, package) == db,
        forgotten(db, package).entries.dom().contains(other) <==> db.entries.dom().contains(other),
        db.entries.dom().contains(other) ==> forgotten(db, package).entries[other]
            == db.entries[other],
        opened(db.path, Some(forgotten(db, package).entries)) == forgotten(db, package),
{
    let once = forgotten(db, package);
    assert(forgotten(once, package).entries =~= once.entries);
    if !db.entries.dom().contains(package) {
        assert(once.entries =~= db.entries);
    }
}

/// One source that advanced is enough: upstream moved on if any source has a
/// commit that was not recorded for it, whatever the other sources are at; and
/// it did not if every source is at the commit that was recorded.
pub proof fn law_one_new_commit_is_enough(
    seen: Map<Seq<char>, Seq<char>>,
    current: Map<Seq<char>, Seq<char>>,
)
    ensures
        forall|url: Seq<char>|
            #[trigger] current.dom().contains(url) && !seen.dom().contains(url) ==> moved_on(
                seen,
                current,
            ),
        forall|url: Seq<char>|
            #[trigger] current.dom().contains(url) && seen.dom().contains(url) && seen[url]
                != current[url] ==> moved_on(seen, current),
        (forall|url: Seq<char>| #[trigger]
            current.dom().contains(url) ==> seen.dom().contains(url) && seen[url] == current[url])
            ==> !moved_on(seen, current),
{
}

/// What a fragment stands for: none at all the default branch; `branch=` that
/// branch; anything else a fixed state, which is never asked for.
pub proof fn law_fragments(b: Seq<char>, other: Seq<char>)
    requires
        b.len() > 0 && !b.contains('&'),
        other.len() > 0 && !other.contains('&'),
        !"branch="@.is_prefix_of(other),
    ensures
        reference_of(Seq::empty()) is Head,
        reference_of("branch="@ + b) == ReferenceView::Branch(b),
        reference_of("branch="@) is Pinned,
        reference_of(other) is Pinned,
        reference_of(other + "&"@ + "branch="@ + b) == ReferenceView::Branch(b),
        reference_of("branch="@ + b + "&"@ + other) == ReferenceView::Branch(b),
{
    reveal_strlit("branch=");
    reveal_strlit("&");
    let head = "branch="@;
    let amp = is_char('&');
    let own = head + b;
    assert forall|i: int| 0 <= i < own.len() implies !amp(#[trigger] own[i]) by {
        if i >= head.len() {
            assert(b.contains(b[i - head.len()]));
        }
    }
    assert forall|i: int| 0 <= i < other.len() implies !amp(#[trigger] other[i]) by {
        assert(other.contains(other[i]));
    }
    text::lemma_until_at(own, amp, own.len() as int);
    assert(own.take(own.len() as int) =~= own);
    assert(own.subrange(0, head.len() as int) =~= head);
    assert(own.skip(head.len() as int) =~= b);
    assert(branch_of(own) == Some(b));
    text::lemma_until_at(head, amp, head.len() as int);
    assert(head.take(head.len() as int) =~= head);
    assert(head.skip(head.len() as int) =~= Seq::<char>::empty());
    assert(branch_of(head) == Some(Seq::<char>::empty()));
    text::lemma_until_at(other, amp, other.len() as int);
    assert(other.take(other.len() as int) =~= other);
    assert(branch_of(other) is None);
    let late = other + "&"@ + head + b;
    assert forall|i: int| 0 <= i < other.len() implies !amp(#[trigger] late[i]) by {
        assert(late[i] == other[i]);
    }
    assert(late[other.len() as int] == '&');
    text::lemma_until_at(late, amp, other.len() as int);
    assert(late.take(other.len() as int) =~= other);
    assert(late.skip(other.len() as int + 1) =~= own);
    assert(branch_of(late) == Some(b));
    let early = own + "&"@ + other;
    assert forall|i: int| 0 <= i < own.len() implies !amp(#[trigger] early[i]) by {
        assert(early[i] == own[i]);
    }
    assert(early[own.len() as int] == '&');
    text::lemma_until_at(early, amp, own.len() as int);
    assert(early.take(own.len() as int) =~= own);
    assert(branch_of(early) == Some(b));
}

/// A token is a URL, and a fragment behind the first `#`. Without a URL it is no
/// source.
pub proof fn law_tokens(vcs: Seq<char>, url: Seq<char>, frag: Seq<char>)
    requires
        url.len() > 0 && !url.contains('#'),
    ensures
        source_of(vcs, url) == Some(SourceView { vcs, url, reference: ReferenceView::Head }),
        source_of(vcs, url + "#"@ + frag) == Some(
            SourceView { vcs, url, reference: reference_of(frag) },
        ),
        source_of(vcs, "#"@ + frag) is None,
        source_of(vcs, Seq::empty()) is None,
{
    reveal_strlit("#");
    let hash = is_char('#');
    let token = url + "#"@ + frag;
    assert forall|i: int| 0 <= i < url.len() implies !hash(#[trigger] url[i]) && !hash(token[i]) by {
        assert(url.contains(url[i]));
        assert(token[i] == url[i]);
    }
    assert forall|i: int| 0 <= i < url.len() implies !hash(#[trigger] token[i]) by {
        assert(!hash(url[i]));
    }
    assert(token[url.len() as int] == '#');
    text::lemma_until_at(url, hash, url.len() as int);
    text::lemma_until_at(token, hash, url.len() as int);
    assert(url.take(url.len() as int) =~= url);
    assert(token.take(url.len() as int) =~= url);
    assert(token.skip(url.len() as int + 1) =~= frag);
    assert(("#"@ + frag)[0] == '#');
}

/// A character that ends a source in a recipe.
spec fn stops(c: char) -> bool {
    c == '\'' || c == '"' || c == ')' || text::is_white_space(c)
}

/// Where a source stands in a recipe, its token reaches up to the first quote,
/// closing parenthesis or white space behind the kind and the `+`.
pub proof fn law_source_is_read(
    a: Seq<char>,
    vcs: Seq<char>,
    url: Seq<char>,
    frag: Seq<char>,
    rest: Seq<char>,
)
    requires
        vcs == "git"@ || vcs == "svn"@ || vcs == "hg"@ || vcs == "bzr"@,
        !a.contains('+'),
        is_bare_url(url),
        forall|i: int|
            0 <= i < frag.len() ==> (#[trigger] frag[i]) != '\'' && frag[i] != '"' && frag[i] != ')'
                && !text::is_white_space(frag[i]),
        rest.len() > 0 ==> rest[0] == '\'' || rest[0] == '"' || rest[0] == ')'
            || text::is_white_space(rest[0]),
    ensures
        sources_in(a + vcs + "+"@ + url + rest).contains(
            SourceView { vcs, url, reference: ReferenceView::Head },
        ),
        sources_in(a + vcs + "+"@ + url + "#"@ + frag + rest).contains(
            SourceView { vcs, url, reference: reference_of(frag) },
        ),
{
    reveal_strlit("#");
    assert(!url.contains('#')) by {
        if url.contains('#') {
            let i = choose|i: int| 0 <= i < url.len() && url[i] == '#';
            assert(url[i] != '#');
        }
    }
    law_tokens(vcs, url, frag);
    lemma_token_is_read(a, vcs, url, rest);
    let token = url + "#"@ + frag;
    assert forall|i: int| 0 <= i < token.len() implies !stops(#[trigger] token[i]) by {
        if i < url.len() {
            assert(token[i] == url[i]);
        } else if i > url.len() {
            assert(token[i] == frag[i - url.len() - 1]);
        }
    }
    lemma_token_is_read(a, vcs, token, rest);
    assert(a + vcs + "+"@ + token + rest =~= a + vcs + "+"@ + url + "#"@ + frag + rest);
}

proof fn lemma_token_is_read(a: Seq<char>, vcs: Seq<char>, token: Seq<char>, rest: Seq<char>)
    requires
        vcs == "git"@ || vcs == "svn"@ || vcs == "hg"@ || vcs == "bzr"@,
        !a.contains('+'),
        forall|i: int| 0 <= i < token.len() ==> !stops(#[trigger] token[i]),
        rest.len() > 0 ==> stops(rest[0]),
        source_of(vcs, token) is Some,
    ensures
        sources_in(a + vcs + "+"@ + token + rest).contains(source_of(vcs, token)->0),
{
    reveal_strlit("+");
    reveal_strlit("git");
    reveal_strlit("svn");
    reveal_strlit("hg");
    reveal_strlit("bzr");
    let s = a + vcs + "+"@ + token + rest;
    let pat = vcs + "+"@;
    let k = vcs.len() as int;
    let at = a.len() as int;
    assert(s.subrange(at, at + pat.len()) =~= pat);
    assert(text::occurs_at(s, pat, at));
    assert forall|j: int| 0 <= j < at implies !text::occurs_at(s, pat, j) by {
        if text::occurs_at(s, pat, j) {
            assert(s.subrange(j, j + pat.len())[k] == pat[k]);
            assert(s[j + k] == '+');
            if j + k < at {
                assert(a.contains(a[j + k]));
            } else {
                assert(s[j + k] == vcs[j + k - at]);
            }
        }
    }
    text::lemma_first_at(s, pat, 0);
    assert(text::first_at(s, pat, 0) == Some(at));
    let start = at + k + 1;
    let after = s.skip(start);
    assert(after =~= token + rest);
    assert forall|i: int| 0 <= i < token.len() implies !ends_source()(#[trigger] after[i]) by {
        assert(after[i] == token[i]);
    }
    if rest.len() > 0 {
        assert(after[token.len() as int] == rest[0]);
    }
    text::lemma_until_at(after, ends_source(), token.len() as int);
    assert(after.take(token.len() as int) =~= token);
    let src = source_of(vcs, token)->0;
    let found = sources_from(s, vcs, 0);
    assert(found[0] == src);
    let git = sources_from(s, "git"@, 0);
    let svn = sources_from(s, "svn"@, 0);
    let hg = sources_from(s, "hg"@, 0);
    let all = sources_in(s);
    if vcs == "git"@ {
        assert(all[0] == src);
    } else if vcs == "svn"@ {
        assert(all[git.len() as int] == src);
    } else if vcs == "hg"@ {
        assert(all[git.len() as int + svn.len()] == src);
    } else {
        assert(all[git.len() as int + svn.len() + hg.len()] == src);
    }
}

/// Exactly the git sources that follow a branch are asked for: one without a
/// fragment by `HEAD`, one with a branch by its name.
pub proof fn law_what_is_asked(sources: Seq<SourceView>, url: Seq<char>, refname: Seq<char>)
    ensures
        questions(sources).contains((url, refname)) <==> exists|i: int|
            0 <= i < sources.len() && (#[trigger] sources[i]).vcs == "git"@ && sources[i].url
                == url && (sources[i].reference == ReferenceView::Branch(refname) || (
            sources[i].reference is Head && refname == "HEAD"@)),
        questions(sources).len() <= sources.len(),
    decreases sources.len(),
{
    if sources.len() > 0 {
        let rest = sources.drop_last();
        let before = questions(rest);
        let now = questions(sources);
        let q = (url, refname);
        law_what_is_asked(rest, url, refname);
        if now.contains(q) {
            let j = choose|j: int| 0 <= j < now.len() && now[j] == q;
            if j < before.len() {
                assert(before[j] == q);
                let i = choose|i: int|
                    0 <= i < rest.len() && (#[trigger] rest[i]).vcs == "git"@ && rest[i].url == url
                        && (rest[i].reference == ReferenceView::Branch(refname) || (
                    rest[i].reference is Head && refname == "HEAD"@));
                assert(sources[i] == rest[i]);
            } else {
                assert(sources[sources.len() - 1].url == url);
            }
        }
        if exists|i: int|
            0 <= i < sources.len() && (#[trigger] sources[i]).vcs == "git"@ && sources[i].url
                == url && (sources[i].reference == ReferenceView::Branch(refname) || (
            sources[i].reference is Head && refname == "HEAD"@)) {
            let i = choose|i: int|
                0 <= i < sources.len() && (#[trigger] sources[i]).vcs == "git"@ && sources[i].url
                    == url && (sources[i].reference == ReferenceView::Branch(refname) || (
                sources[i].reference is Head && refname == "HEAD"@));
            if i < rest.len() {
                assert(rest[i] == sources[i]);
                let j = choose|j: int| 0 <= j < before.len() && before[j] == q;
                assert(now[j] == q);
            } else {
                assert(now[before.len() as int] == q);
            }
        }
    }
}

/// The current commit of a URL is the last answer to a question about it; a URL
/// that nothing was answered about is left out.
pub proof fn law_answers_give_commits(
    asked: Seq<(Seq<char>, Seq<char>)>,
    answers: Seq<Option<String>>,
    url: Seq<char>,
    i: int,
)
    requires
        0 <= i < asked.len(),
        asked.len() <= answers.len(),
    ensures
        asked[i].0 == url && answers[i] is Some && (forall|j: int|
            i < j < asked.len() && (#[trigger] asked[j]).0 == url ==> answers[j] is None)
            ==> commits_of(asked, answers).dom().contains(url) && commits_of(asked, answers)[url]
            == answers[i]->0@,
        (forall|j: int|
            0 <= j < asked.len() && (#[trigger] asked[j]).0 == url ==> answers[j] is None)
            ==> !commits_of(asked, answers).dom().contains(url),
    decreases asked.len(),
{
    let rest = asked.drop_last();
    let n = asked.len() - 1;
    let last = asked[n];
    if rest.len() > 0 {
        law_answers_give_commits(rest, answers, url, if i < n {
            i
        } else {
            0
        });
    }
    if forall|j: int|
        i < j < asked.len() && (#[trigger] asked[j]).0 == url ==> answers[j] is None {
        if i < n {
            assert(asked[n].0 == url ==> answers[n] is None);
            assert forall|j: int| i < j < rest.len() && (#[trigger] rest[j]).0 == url implies answers[j] is None by {
                assert(asked[j].0 == url);
            }
        }
    }
    if forall|j: int|
        0 <= j < asked.len() && (#[trigger] asked[j]).0 == url ==> answers[j] is None {
        assert(asked[n].0 == url ==> answers[n] is None);
        assert forall|j: int| 0 <= j < rest.len() && (#[trigger] rest[j]).0 == url implies answers[j] is None by {
            assert(asked[j].0 == url);
        }
        assert(!commits_of(rest, answers).dom().contains(url));
        if answers[n] is Some {
            assert(asked[n].0 != url);
        }
    }
}

/// What a listing of references gives is the commit of its first line, in lower
/// case, whatever follows; an empty listing gives none.
pub proof fn law_listing_gives_the_first_commit(
    commit: Seq<char>,
    reference: Seq<char>,
    more: Seq<char>,
)
    requires
        commit.len() > 0,
        forall|i: int| 0 <= i < commit.len() ==> !text::is_white_space(#[trigger] commit[i]),
        !reference.contains('\n'),
        reference.len() > 0 ==> reference.last() != '\r',
    ensures
        first_hash(commit + seq!['\t'] + reference + seq!['\n'] + more) == Some(
            text::ascii_lowered(commit),
        ),
        first_hash(Seq::empty()) is None,
{
    let line = commit + seq!['\t'] + reference;
    assert forall|i: int| 0 <= i < line.len() implies line[i] != '\n' by {
        if i < commit.len() {
            assert(!text::is_white_space(commit[i]));
            assert(line[i] == commit[i]);
        } else if i > commit.len() {
            assert(line[i] == reference[i - commit.len() - 1]);
            assert(reference.contains(reference[i - commit.len() - 1]));
        }
    }
    assert(!line.contains('\n'));
    text::law_line_feeds_end_lines(line, more);
    let e = Seq::<char>::empty();
    text::law_first_word(e, commit, seq!['\t'] + reference);
    assert(e + commit + (seq!['\t'] + reference) =~= line);
    if reference.len() > 0 {
        assert(line.last() == reference.last());
    } else {
        assert(line.last() == '\t');
    }
}

/// A pattern stands in the rest of a text where it stands behind its start.
proof fn lemma_first_at_rest(s: Seq<char>, pat: Seq<char>, base: int, from: int)
    requires
        0 <= base <= s.len(),
        0 <= from,
    ensures
        text::first_at(s, pat, base + from) == (match text::first_at(s.skip(base), pat, from) {
            Some(i) => Some(base + i),
            None => None,
        }),
    decreases s.len() + 1 - base - from,
{
    let t = s.skip(base);
    if from + pat.len() <= t.len() {
        assert(t.subrange(from, from + pat.len()) =~= s.subrange(
            base + from,
            base + from + pat.len(),
        ));
        if !text::occurs_at(t, pat, from) {
            lemma_first_at_rest(s, pat, base, from + 1);
        }
    }
}

/// The sources from an offset on are those of the rest of the text.
proof fn lemma_sources_rest(s: Seq<char>, vcs: Seq<char>, base: int, from: int)
    requires
        0 <= base <= s.len(),
        0 <= from,
    ensures
        sources_from(s, vcs, base + from) == sources_from(s.skip(base), vcs, from),
    decreases s.len() - base - from,
{
    reveal_strlit("+");
    let t = s.skip(base);
    let pat = vcs + "+"@;
    lemma_first_at_rest(s, pat, base, from);
    text::lemma_first_at(t, pat, from);
    match text::first_at(t, pat, from) {
        Some(at) => {
            let start = at + vcs.len() + 1;
            assert(s.skip(base + start) =~= t.skip(start));
            let after = t.skip(start);
            text::lemma_until(after, ends_source());
            let n = text::until(after, ends_source());
            lemma_sources_rest(s, vcs, base, start + n);
        },
        None => {},
    }
}

/// Behind text without a `+` a kind is found where it stands, and in the text
/// itself it is not.
proof fn lemma_kind_stands(a: Seq<char>, vcs: Seq<char>, tail: Seq<char>)
    requires
        !a.contains('+') && !vcs.contains('+'),
    ensures
        text::first_at(a + vcs + "+"@ + tail, vcs + "+"@, 0) == Some(a.len() as int),
        text::first_at(a, vcs + "+"@, 0) is None,
{
    reveal_strlit("+");
    let s = a + vcs + "+"@ + tail;
    let pat = vcs + "+"@;
    let k = vcs.len() as int;
    let at = a.len() as int;
    assert(s.subrange(at, at + pat.len()) =~= pat);
    assert(text::occurs_at(s, pat, at));
    assert(pat[k] == '+');
    assert forall|j: int| 0 <= j < at implies !text::occurs_at(s, pat, j) by {
        if text::occurs_at(s, pat, j) {
            assert(s.subrange(j, j + pat.len())[k] == s[j + k]);
            if j + k < at {
                assert(a.contains(a[j + k]));
            } else {
                assert(s[j + k] == vcs[j + k - at]);
                assert(vcs.contains(vcs[j + k - at]));
            }
        }
    }
    text::lemma_first_at(s, pat, 0);
    text::lemma_first_at(a, pat, 0);
    if text::first_at(a, pat, 0) is Some {
        let j = text::first_at(a, pat, 0)->0;
        assert(a.subrange(j, j + pat.len())[k] == a[j + k]);
        assert(a.contains(a[j + k]));
    }
}

/// A source that stands behind text without a `+` comes before those behind it.
proof fn lemma_source_then_rest(a: Seq<char>, vcs: Seq<char>, url: Seq<char>, rest: Seq<char>)
    requires
        !a.contains('+') && !vcs.contains('+'),
        is_bare_url(url),
        rest.len() > 0 ==> stops(rest[0]),
    ensures
        sources_from(a + vcs + "+"@ + url + rest, vcs, 0) == seq![
            SourceView { vcs, url, reference: ReferenceView::Head },
        ] + sources_from(rest, vcs, 0),
        sources_from(a, vcs, 0) == Seq::<SourceView>::empty(),
{
    let s = a + vcs + "+"@ + url + rest;
    lemma_kind_stands(a, vcs, url + rest);
    assert(a + vcs + "+"@ + (url + rest) =~= s);
    reveal_strlit("+");
    let start = a.len() + vcs.len() + 1;
    let after = s.skip(start as int);
    assert(after =~= url + rest);
    assert forall|i: int| 0 <= i < url.len() implies !ends_source()(#[trigger] after[i]) by {
        assert(after[i] == url[i]);
    }
    if rest.len() > 0 {
        assert(after[url.len() as int] == rest[0]);
    }
    text::lemma_until_at(after, ends_source(), url.len() as int);
    assert(after.take(url.len() as int) =~= url);
    assert(!url.contains('#')) by {
        if url.contains('#') {
            let i = choose|i: int| 0 <= i < url.len() && url[i] == '#';
            assert(url[i] != '#');
        }
    }
    law_tokens(vcs, url, Seq::empty());
    let end = start + url.len();
    lemma_sources_rest(s, vcs, end as int, 0);
    assert(s.skip(end as int) =~= rest);
}

proof fn lemma_kind_has_no_plus(vcs: Seq<char>)
    requires
        vcs == "git"@ || vcs == "svn"@ || vcs == "hg"@ || vcs == "bzr"@,
    ensures
        !vcs.contains('+'),
{
    reveal_strlit("git");
    reveal_strlit("svn");
    reveal_strlit("hg");
    reveal_strlit("bzr");
    if vcs.contains('+') {
        let i = choose|i: int| 0 <= i < vcs.len() && vcs[i] == '+';
        assert(0 <= i < 3);
    }
}

/// No source hides another: behind a source the search goes on where its token
/// ends, so that all sources of a kind are read, in order, on one line or on many.
pub proof fn law_no_source_hides_another(
    a: Seq<char>,
    vcs: Seq<char>,
    url: Seq<char>,
    rest: Seq<char>,
)
    requires
        vcs == "git"@ || vcs == "svn"@ || vcs == "hg"@ || vcs == "bzr"@,
        !a.contains('+'),
        is_bare_url(url),
        rest.len() > 0 ==> rest[0] == '\'' || rest[0] == '"' || rest[0] == ')'
            || text::is_white_space(rest[0]),
    ensures
        of_kind(sources_in(a + vcs + "+"@ + url + rest), vcs) == seq![
            SourceView { vcs, url, reference: ReferenceView::Head },
        ] + of_kind(sources_in(rest), vcs),
        of_kind(sources_in(a), vcs) == Seq::<SourceView>::empty(),
{
    let s = a + vcs + "+"@ + url + rest;
    lemma_kind_has_no_plus(vcs);
    lemma_source_then_rest(a, vcs, url, rest);
    assert(of_kind(sources_in(s), vcs) == sources_from(s, vcs, 0)) by {
        lemma_kinds(s, vcs);
    }
    assert(of_kind(sources_in(rest), vcs) == sources_from(rest, vcs, 0)) by {
        lemma_kinds(rest, vcs);
    }
    assert(of_kind(sources_in(a), vcs) == sources_from(a, vcs, 0)) by {
        lemma_kinds(a, vcs);
    }
}

/// Questions come in the order of the sources: a source adds one at the end if it
/// is of git and follows a branch, and none otherwise.
pub proof fn law_questions_follow_the_sources(sources: Seq<SourceView>, src: SourceView)
    ensures
        src.vcs == "git"@ && src.reference is Head ==> questions(sources.push(src)) == questions(
            sources,
        ).push((src.url, "HEAD"@)),
        src.vcs == "git"@ && src.reference is Branch ==> questions(sources.push(src)) == questions(
            sources,
        ).push((src.url, src.reference->Branch_0)),
        src.vcs != "git"@ || src.reference is Pinned ==> questions(sources.push(src)) == questions(
            sources,
        ),
        questions(Seq::empty()) == Seq::<(Seq<char>, Seq<char>)>::empty(),
{
    assert(sources.push(src).drop_last() =~= sources);
}

/// A database stays at its path, whatever is recorded or forgotten, and where
/// nothing was stored it starts without any package.
pub proof fn law_databases_keep_their_path(
    db: DbView,
    package: Seq<char>,
    sources: Map<Seq<char>, Seq<char>>,
    now: int,
    path: Seq<char>,
)
    ensures
        recorded(db, package, sources, now).path == db.path,
        forgotten(db, package).path == db.path,
        opened(path, None).path == path && opened(path, Some(db.entries)).path == path,
        opened(path, Some(db.entries)).entries == db.entries,
        !opened(path, None).entries.dom().contains(package),
{
}

} // verus!
