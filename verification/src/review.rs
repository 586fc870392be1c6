//! Trust on first use: what was vouched for, and whether it changed.
//!
//! The exact content of a recipe that was approved is recorded. Later it can be
//! said whether a recipe is byte for byte what was approved, and if it is not,
//! what changed.

use crate::digest;
use crate::names::NameSet;
use crate::order;
use crate::paths;
use crate::sort;
use crate::sort::Named;
use crate::text;
use vstd::prelude::*;
use vstd::utf8;

verus! {

/// One file (the recipe or an install hook) as it was approved.
#[derive(Debug, PartialEq, Eq)]
pub struct ReviewedFile {
    pub name: String,
    pub content: String,
}

impl ReviewedFile {
    /// A file with this name and content.
    pub fn new(name: &str, content: &str) -> (r: ReviewedFile)
        ensures
            r.name@ == name@,
            r.content@ == content@,
    {
        ReviewedFile { name: String::from_str(name), content: String::from_str(content) }
    }
}

impl View for ReviewedFile {
    type V = (Seq<char>, Seq<char>);

    open spec fn view(&self) -> (Seq<char>, Seq<char>) {
        (self.name@, self.content@)
    }
}

impl Clone for ReviewedFile {
    fn clone(&self) -> (r: ReviewedFile)
        ensures
            r@ == self@,
    {
        ReviewedFile { name: self.name.clone(), content: self.content.clone() }
    }
}

impl Named for ReviewedFile {
    open spec fn key(&self) -> Seq<char> {
        self.name@
    }

    fn name(&self) -> (r: &str) {
        self.name.as_str()
    }
}

/// Names and contents of a list of files.
pub open spec fn files_of(v: Seq<ReviewedFile>) -> Seq<(Seq<char>, Seq<char>)> {
    Seq::new(v.len(), |i: int| v[i]@)
}

/// Picks the name of a file.
pub open spec fn file_name() -> spec_fn((Seq<char>, Seq<char>)) -> Seq<char> {
    |f: (Seq<char>, Seq<char>)| f.0
}

/// The files in ascending order of their names, files of the same name in the
/// order they had.
pub open spec fn in_order(files: Seq<(Seq<char>, Seq<char>)>) -> Seq<(Seq<char>, Seq<char>)> {
    sort::by_key(files, file_name())
}

/// A persisted record of a recipe that was vouched for.
#[derive(Debug)]
pub struct ReviewRecord {
    pub package: String,
    /// SHA-256 (hex) of the canonical content of the recipe.
    pub fingerprint: String,
    /// Unix timestamp of the approval.
    pub approved_at: i64,
    /// The risk score at approval time, for context on later changes.
    pub score_at_approval: u32,
    /// Whether the package may use the network while it is built. Tied to this
    /// exact recipe.
    pub build_network: bool,
    /// The exact files that were approved.
    pub files: Vec<ReviewedFile>,
}

/// How a recipe relates to what was vouched for before.
#[derive(Debug)]
pub enum ReviewStatus {
    /// Never vouched for: trust on first use.
    New,
    /// Byte for byte identical to the approved version.
    Unchanged { record: ReviewRecord },
    /// Differs from the approved version. See [`render_diff`].
    Changed { previous: ReviewRecord, current_fingerprint: String },
}

/// The files one after another, each under a header.
pub open spec fn serialized(files: Seq<(Seq<char>, Seq<char>)>) -> Seq<char>
    decreases files.len(),
{
    if files.len() == 0 {
        Seq::empty()
    } else {
        serialized(files.drop_last()) + "=== "@ + files.last().0 + " ===\n"@ + files.last().1
            + "\n"@
    }
}

/// The canonical form of a recipe, which does not depend on the order in which
/// its files were read.
pub open spec fn canonical_form(files: Seq<(Seq<char>, Seq<char>)>) -> Seq<char> {
    serialized(in_order(files))
}

/// The fingerprint of a recipe.
pub open spec fn fingerprint_of(files: Seq<(Seq<char>, Seq<char>)>) -> Seq<char> {
    text::hex_of(digest::sha256_digest(utf8::encode_utf8(canonical_form(files))))
}

/// A copy of the files in ascending order of their names.
fn sorted_files(files: &[ReviewedFile]) -> (r: Vec<ReviewedFile>)
    ensures
        files_of(r@) == in_order(files_of(files@)),
{
    let mut copy: Vec<ReviewedFile> = Vec::new();
    let ghost all = files_of(files@);
    let mut i: usize = 0;
    while i < files.len()
        invariant
            i <= files@.len(),
            all == files_of(files@),
            files_of(copy@) == all.take(i as int),
        decreases files@.len() - i,
    {
        let ghost before = files_of(copy@);
        copy.push(files[i].clone());
        proof {
            assert(files_of(copy@) =~= before.push(all[i as int]));
            assert(files_of(copy@) =~= all.take(i + 1));
        }
        i += 1;
    }
    let ghost unsorted = copy@;
    let r = sort::sort_by_name(copy);
    proof {
        let view = |f: ReviewedFile| f@;
        assert(all.take(all.len() as int) =~= all);
        sort::lemma_by_key_map(unsorted, view, sort::name_of::<ReviewedFile>(), file_name());
        assert(unsorted.map_values(view) =~= files_of(unsorted));
        assert(r@.map_values(view) =~= files_of(r@));
    }
    r
}

/// The canonical form of a recipe.
pub fn canonical(files: &[ReviewedFile]) -> (r: String)
    ensures
        r@ == canonical_form(files_of(files@)),
{
    let sorted = sorted_files(files);
    let ghost all = files_of(sorted@);
    let mut out = String::new();
    let mut i: usize = 0;
    while i < sorted.len()
        invariant
            i <= sorted@.len(),
            all == files_of(sorted@),
            out@ == serialized(all.take(i as int)),
        decreases sorted@.len() - i,
    {
        proof {
            assert(all.take(i + 1).drop_last() =~= all.take(i as int));
            assert(all.take(i + 1).last() == sorted@[i as int]@);
        }
        out.append("=== ");
        out.append(sorted[i].name.as_str());
        out.append(" ===\n");
        out.append(sorted[i].content.as_str());
        out.append("\n");
        i += 1;
    }
    proof {
        assert(all.take(all.len() as int) =~= all);
    }
    out
}

/// SHA-256 (hex) of the canonical form of a recipe.
pub fn fingerprint(files: &[ReviewedFile]) -> (r: String)
    ensures
        r@ == fingerprint_of(files_of(files@)),
        r@.len() == 64,
{
    let s = canonical(files);
    digest::sha256_hex(s.as_str().as_bytes())
}

/// Whether two lists of files are the same, in the same order.
fn same_files(a: &Vec<ReviewedFile>, b: &Vec<ReviewedFile>) -> (r: bool)
    ensures
        r == (files_of(a@) == files_of(b@)),
{
    let ghost x = files_of(a@);
    let ghost y = files_of(b@);
    if a.len() != b.len() {
        proof {
            assert(x.len() != y.len());
        }
        return false;
    }
    let mut i: usize = 0;
    while i < a.len()
        invariant
            i <= a@.len(),
            a@.len() == b@.len(),
            x == files_of(a@),
            y == files_of(b@),
            forall|j: int| 0 <= j < i ==> x[j] == y[j],
        decreases a@.len() - i,
    {
        if !text::same(a[i].name.as_str(), b[i].name.as_str()) || !text::same(
            a[i].content.as_str(),
            b[i].content.as_str(),
        ) {
            proof {
                assert(x[i as int] != y[i as int]);
            }
            return false;
        }
        proof {
            assert(x[i as int] == y[i as int]);
        }
        i += 1;
    }
    proof {
        assert(x =~= y);
    }
    true
}

/// The recipe is byte for byte what the record approved.
pub open spec fn is_unchanged(record: ReviewRecord, files: Seq<(Seq<char>, Seq<char>)>) -> bool {
    &&& record.fingerprint@ == fingerprint_of(files)
    &&& in_order(files_of(record.files@)) == in_order(files)
}

/// How files relate to the record of their package, if there is one.
pub open spec fn is_status(
    r: ReviewStatus,
    loaded: Option<ReviewRecord>,
    files: Seq<(Seq<char>, Seq<char>)>,
) -> bool {
    match loaded {
        None => r is New,
        Some(rec) => if is_unchanged(rec, files) {
            r == (ReviewStatus::Unchanged { record: rec })
        } else {
            r matches ReviewStatus::Changed { previous, current_fingerprint } && previous == rec
                && current_fingerprint@ == fingerprint_of(files)
        },
    }
}

/// The record of an approval.
pub open spec fn is_approval(
    record: ReviewRecord,
    package: Seq<char>,
    files: Seq<(Seq<char>, Seq<char>)>,
    score: int,
    now: int,
    build_network: bool,
) -> bool {
    &&& record.package@ == package
    &&& record.fingerprint@ == fingerprint_of(files)
    &&& record.approved_at == now
    &&& record.score_at_approval == score
    &&& record.build_network == build_network
    &&& files_of(record.files@) == files
}

/// The store of review records: one file per package below a directory.
#[derive(Debug)]
pub struct ReviewStore {
    root: String,
}

impl View for ReviewStore {
    type V = Seq<char>;

    closed spec fn view(&self) -> Seq<char> {
        self.root@
    }
}

/// Whether a name would stand for a directory and not for a file in it.
pub open spec fn is_traversal(s: Seq<char>) -> bool {
    s.len() == 0 || s == "."@ || s == ".."@
}

/// A name with everything replaced that is not safe in a file name.
pub open spec fn cleaned(package: Seq<char>) -> Seq<char> {
    package.map_values(
        |c: char|
            if text::is_name_char(c) {
                c
            } else {
                '_'
            },
    )
}

/// Where the record of a package is kept below the directory of a store.
pub open spec fn place_of(root: Seq<char>, package: Seq<char>) -> Seq<char> {
    paths::joined(root, stem(package) + ".json"@)
}

/// The record of a package among the records by their places, if there is one.
pub open spec fn loaded(
    records: Map<Seq<char>, ReviewRecord>,
    root: Seq<char>,
    package: Seq<char>,
) -> Option<ReviewRecord> {
    if records.dom().contains(place_of(root, package)) {
        Some(records[place_of(root, package)])
    } else {
        None
    }
}

/// The file stem for a package: its cleaned name, or a digest where that would
/// not name a file.
pub open spec fn stem(package: Seq<char>) -> Seq<char> {
    if is_traversal(cleaned(package)) {
        "_"@ + fingerprint_of(seq![("name"@, package)])
    } else {
        cleaned(package)
    }
}

/// A name with everything replaced by `_` that is not safe in a file name.
pub fn clean(package: &str) -> (r: String)
    ensures
        r@ == cleaned(package@),
{
    let cs = text::chars_of(package);
    let ghost clean = cleaned(package@);
    let mut out = String::new();
    let mut i: usize = 0;
    while i < cs.len()
        invariant
            i <= cs@.len(),
            cs@ == package@,
            clean == cleaned(package@),
            out@ == clean.take(i as int),
        decreases cs@.len() - i,
    {
        let ghost before = out@;
        if text::name_char(cs[i]) {
            out.push(cs[i]);
        } else {
            out.push('_');
        }
        proof {
            assert(out@ =~= before.push(clean[i as int]));
            assert(out@ =~= clean.take(i + 1));
        }
        i += 1;
    }
    proof {
        assert(clean.take(clean.len() as int) =~= clean);
    }
    out
}

/// The file stem for a package, which is a single component of a path.
pub fn sanitize(package: &str) -> (r: String)
    ensures
        r@ == stem(package@),
{
    let out = clean(package);
    if out.as_str().is_empty() || text::same(out.as_str(), ".") || text::same(out.as_str(), "..") {
        let files = [ReviewedFile::new("name", package)];
        proof {
            assert(files_of(files@) =~= seq![("name"@, package@)]);
        }
        let digest = fingerprint(&files);
        return text::concat("_", digest.as_str());
    }
    out
}

/// How files with a given fingerprint relate to a record, if there is one: they
/// are unchanged if the record has their fingerprint and exactly them.
pub fn compare(
    loaded: Option<ReviewRecord>,
    current_fingerprint: String,
    files: &[ReviewedFile],
) -> (r: ReviewStatus)
    ensures
        match loaded {
            None => r is New,
            Some(rec) => if rec.fingerprint@ == current_fingerprint@ && in_order(
                files_of(rec.files@),
            ) == in_order(files_of(files@)) {
                r == (ReviewStatus::Unchanged { record: rec })
            } else {
                r matches ReviewStatus::Changed { previous, current_fingerprint: fp } && previous
                    == rec && fp@ == current_fingerprint@
            },
        },
{
    match loaded {
        None => ReviewStatus::New,
        Some(record) => {
            if text::same(record.fingerprint.as_str(), current_fingerprint.as_str()) {
                let approved = sorted_files(record.files.as_slice());
                let current = sorted_files(files);
                if same_files(&approved, &current) {
                    return ReviewStatus::Unchanged { record };
                }
            }
            ReviewStatus::Changed { previous: record, current_fingerprint }
        },
    }
}

impl ReviewStore {
    /// The store of the user, from `XDG_DATA_HOME` and `HOME`. `None` if
    /// neither is set.
    pub fn open_default(xdg: Option<&str>, home: Option<&str>) -> (r: Option<ReviewStore>)
        ensures
            match paths::data_place(text::opt_slice(xdg), text::opt_slice(home), "reviews"@) {
                Some(dir) => r is Some && r->0@ == dir,
                None => r is None,
            },
    {
        match paths::data_file(xdg, home, "reviews") {
            Some(root) => Some(ReviewStore { root }),
            None => None,
        }
    }

    /// A store below an explicit directory.
    pub fn open(root: &str) -> (r: ReviewStore)
        ensures
            r@ == root@,
    {
        ReviewStore { root: String::from_str(root) }
    }

    /// The directory of the store.
    pub fn root(&self) -> (r: &str)
        ensures
            r@ == self@,
    {
        self.root.as_str()
    }

    /// Where the record of a package is kept.
    pub fn record_path(&self, package: &str) -> (r: String)
        ensures
            r@ == place_of(self@, package@),
    {
        let file = text::concat(sanitize(package).as_str(), ".json");
        paths::join(self.root.as_str(), file.as_str())
    }

    /// How files relate to the record that was loaded for their package, if
    /// there is one.
    pub fn status(&self, loaded: Option<ReviewRecord>, files: &[ReviewedFile]) -> (r: ReviewStatus)
        ensures
            is_status(r, loaded, files_of(files@)),
    {
        let current_fingerprint = fingerprint(files);
        compare(loaded, current_fingerprint, files)
    }

    /// The record to keep when the user vouches for `files` at time `now`. It
    /// supersedes any record of the package.
    pub fn approve(
        &self,
        package: &str,
        files: Vec<ReviewedFile>,
        score: u32,
        now: i64,
        build_network: bool,
    ) -> (r: ReviewRecord)
        ensures
            is_approval(
                r,
                package@,
                files_of(files@),
                score as int,
                now as int,
                build_network,
            ),
    {
        let fingerprint = fingerprint(files.as_slice());
        ReviewRecord {
            package: String::from_str(package),
            fingerprint,
            approved_at: now,
            score_at_approval: score,
            build_network,
            files,
        }
    }

    /// Which file to remove to forget the record of a package.
    pub fn forget(&self, package: &str) -> (r: String)
        ensures
            r@ == place_of(self@, package@),
    {
        self.record_path(package)
    }
}

/// The content of the first file of a list that has this name, or nothing.
pub open spec fn content_in(files: Seq<(Seq<char>, Seq<char>)>, name: Seq<char>) -> Seq<char>
    decreases files.len(),
{
    if files.len() == 0 {
        Seq::empty()
    } else if files[0].0 == name {
        files[0].1
    } else {
        content_in(files.drop_first(), name)
    }
}

/// The content of the first file of a list that has this name, or nothing.
pub fn content_of(files: &[ReviewedFile], name: &str) -> (r: String)
    ensures
        r@ == content_in(files_of(files@), name@),
{
    let ghost all = files_of(files@);
    let mut i: usize = 0;
    proof {
        assert(all.skip(0) =~= all);
    }
    while i < files.len()
        invariant
            i <= files@.len(),
            all == files_of(files@),
            content_in(all, name@) == content_in(all.skip(i as int), name@),
        decreases files@.len() - i,
    {
        proof {
            assert(all.skip(i as int)[0] == all[i as int]);
            assert(all.skip(i as int).drop_first() =~= all.skip(i + 1));
        }
        if text::same(files[i].name.as_str(), name) {
            return files[i].content.clone();
        }
        i += 1;
    }
    String::new()
}

/// The changes of lines that `similar::TextDiff` finds between two texts, in
/// order: of each, whether the old text has it, whether the new text has it,
/// and the line with its line ending.
pub uninterp spec fn line_diff(old: Seq<char>, new: Seq<char>) -> Seq<(bool, bool, Seq<char>)>;

/// The contents of a list of changes.
pub open spec fn changes_of(v: Seq<(bool, bool, String)>) -> Seq<(bool, bool, Seq<char>)> {
    Seq::new(v.len(), |i: int| (v[i].0, v[i].1, v[i].2@))
}

/// The number of characters of the first line of a text, its line ending included.
/// A line ends with a line feed, with a carriage return and a line feed, or with a
/// carriage return alone.
pub open spec fn full_line_len(s: Seq<char>) -> int
    decreases s.len(),
{
    if s.len() == 0 {
        0
    } else if s[0] == '\n' {
        1
    } else if s[0] == '\r' {
        if s.len() > 1 && s[1] == '\n' {
            2
        } else {
            1
        }
    } else {
        1 + full_line_len(s.drop_first())
    }
}

/// The first line of a text that is not empty is not empty, and breaks at its end
/// only.
pub proof fn lemma_full_line_len(s: Seq<char>)
    ensures
        0 <= full_line_len(s) <= s.len(),
        s.len() > 0 ==> 0 < full_line_len(s),
        forall|i: int| 0 <= i < full_line_len(s) - 1 ==> s[i] != '\n',
    decreases s.len(),
{
    if s.len() > 0 {
        let rest = s.drop_first();
        lemma_full_line_len(rest);
        assert forall|i: int| 0 <= i < full_line_len(s) - 1 implies s[i] != '\n' by {
            if i > 0 {
                assert(s[i] == rest[i - 1]);
            }
        }
    }
}

/// The lines of a text, each with its line ending. The last may have none.
pub open spec fn full_lines(s: Seq<char>) -> Seq<Seq<char>>
    decreases s.len(),
{
    if s.len() == 0 {
        Seq::empty()
    } else {
        proof {
            lemma_full_line_len(s);
        }
        seq![s.take(full_line_len(s))] + full_lines(s.skip(full_line_len(s)))
    }
}

/// The lines that the old text has.
pub open spec fn old_lines(changes: Seq<(bool, bool, Seq<char>)>) -> Seq<Seq<char>>
    decreases changes.len(),
{
    if changes.len() == 0 {
        Seq::empty()
    } else if changes.last().0 {
        old_lines(changes.drop_last()).push(changes.last().2)
    } else {
        old_lines(changes.drop_last())
    }
}

/// The lines that the new text has.
pub open spec fn new_lines(changes: Seq<(bool, bool, Seq<char>)>) -> Seq<Seq<char>>
    decreases changes.len(),
{
    if changes.len() == 0 {
        Seq::empty()
    } else if changes.last().1 {
        new_lines(changes.drop_last()).push(changes.last().2)
    } else {
        new_lines(changes.drop_last())
    }
}

/// The changes are a diff of the lines of two texts: each is a line of one of them
/// or of both, those of the old text are its lines in order, and those of the new
/// text are its lines in order.
pub open spec fn is_line_diff(
    old: Seq<char>,
    new: Seq<char>,
    changes: Seq<(bool, bool, Seq<char>)>,
) -> bool {
    &&& old_lines(changes) == full_lines(old)
    &&& new_lines(changes) == full_lines(new)
    &&& forall|i: int| 0 <= i < changes.len() ==> (#[trigger] changes[i]).0 || changes[i].1
}

/// Two texts can be compared: their distinct lines can be numbered with 32 bits.
pub open spec fn is_comparable(old: Seq<char>, new: Seq<char>) -> bool {
    (full_lines(old) + full_lines(new)).to_set().len() <= u32::MAX
}

/// Calls `similar::TextDiff::from_lines` and lists the changes it reports. Which
/// lines are paired is left to the diff algorithm, and named: it runs without a
/// deadline, so the result depends on the two texts alone. Beside that the
/// contract claims what makes it a diff of lines: what is kept or deleted are the
/// lines of the old text in order, and what is kept or inserted those of the new
/// one. The algorithm numbers distinct lines with 32 bits, so the texts must not
/// have more of them than that.
#[verifier::external_body]
fn line_changes(old: &str, new: &str) -> (r: Vec<(bool, bool, String)>)
    requires
        is_comparable(old@, new@),
    ensures
        changes_of(r@) == line_diff(old@, new@),
        is_line_diff(old@, new@, changes_of(r@)),
{
    let entry = |c: similar::Change<&str>| match c.tag() {
        similar::ChangeTag::Equal => (true, true, c.value().to_string()),
        similar::ChangeTag::Delete => (true, false, c.value().to_string()),
        similar::ChangeTag::Insert => (false, true, c.value().to_string()),
    };
    similar::TextDiff::from_lines(old, new).iter_all_changes().map(entry).collect()
}

/// The mark of a change: `-` for a line that was deleted, `+` for one that was
/// inserted, a space for one that was kept.
pub open spec fn sign(change: (bool, bool, Seq<char>)) -> char {
    if !change.1 {
        '-'
    } else if !change.0 {
        '+'
    } else {
        ' '
    }
}

/// A line with a line ending.
pub open spec fn with_newline(line: Seq<char>) -> Seq<char> {
    if line.len() > 0 && line.last() == '\n' {
        line
    } else {
        line.push('\n')
    }
}

/// A change as it is shown, on a line of its own behind its mark.
pub open spec fn row(change: (bool, bool, Seq<char>)) -> Seq<char> {
    seq![sign(change)] + with_newline(change.2)
}

/// The changes as they are shown, one behind the other.
pub open spec fn marked(changes: Seq<(bool, bool, Seq<char>)>) -> Seq<char>
    decreases changes.len(),
{
    if changes.len() == 0 {
        Seq::empty()
    } else {
        marked(changes.drop_last()) + row(changes.last())
    }
}

/// Shows changes, each on a line of its own behind its mark.
pub fn mark_changes(changes: &Vec<(bool, bool, String)>) -> (r: String)
    ensures
        r@ == marked(changes_of(changes@)),
{
    let ghost all = changes_of(changes@);
    let mut out = String::new();
    let mut i: usize = 0;
    while i < changes.len()
        invariant
            i <= changes@.len(),
            all == changes_of(changes@),
            out@ == marked(all.take(i as int)),
        decreases changes@.len() - i,
    {
        let ghost before = out@;
        proof {
            assert(all.take(i + 1).drop_last() =~= all.take(i as int));
            assert(all.take(i + 1).last() == all[i as int]);
            reveal_strlit("\n");
        }
        let line = changes[i].2.as_str();
        let mark = if !changes[i].1 {
            '-'
        } else if !changes[i].0 {
            '+'
        } else {
            ' '
        };
        out.push(mark);
        out.append(line);
        if !text::ends_with(line, "\n") {
            out.push('\n');
            proof {
                assert(!(line@.len() > 0 && line@.last() == '\n')) by {
                    if line@.len() > 0 && line@.last() == '\n' {
                        assert("\n"@ =~= line@.subrange(line@.len() - 1, line@.len() as int));
                    }
                }
                assert(out@ =~= before + row(all[i as int]));
            }
        } else {
            proof {
                assert("\n"@[0] == '\n');
                assert(line@.subrange(line@.len() - 1, line@.len() as int)[0] == line@.last());
                assert(out@ =~= before + row(all[i as int]));
            }
        }
        i += 1;
    }
    proof {
        assert(all.take(all.len() as int) =~= all);
    }
    out
}

/// The diff of one file, under a header.
pub open spec fn shown_file(name: Seq<char>, changes: Seq<(bool, bool, Seq<char>)>) -> Seq<char> {
    "--- "@ + name + "\n"@ + marked(changes)
}

/// The diff of one file, under a header.
pub fn show_file(name: &str, changes: &Vec<(bool, bool, String)>) -> (r: String)
    ensures
        r@ == shown_file(name@, changes_of(changes@)),
{
    let head = text::concat3("--- ", name, "\n");
    text::concat(head.as_str(), mark_changes(changes).as_str())
}

/// The names of the files of either list.
pub open spec fn all_names(
    old: Seq<(Seq<char>, Seq<char>)>,
    new: Seq<(Seq<char>, Seq<char>)>,
) -> Set<Seq<char>> {
    Set::new(|n: Seq<char>| has_file(old, n) || has_file(new, n))
}

/// A file of the list has this name.
pub open spec fn has_file(files: Seq<(Seq<char>, Seq<char>)>, name: Seq<char>) -> bool {
    exists|i: int| 0 <= i < files.len() && (#[trigger] files[i]).0 == name
}

/// A file differs: only one of the lists has it, or its content is another.
pub open spec fn differs(
    old: Seq<(Seq<char>, Seq<char>)>,
    new: Seq<(Seq<char>, Seq<char>)>,
    name: Seq<char>,
) -> bool {
    has_file(old, name) != has_file(new, name) || content_in(old, name) != content_in(new, name)
}

/// The changes between two contents: none where they are the same.
pub open spec fn changes_between(old: Seq<char>, new: Seq<char>) -> Seq<(bool, bool, Seq<char>)> {
    if old == new {
        Seq::empty()
    } else {
        line_diff(old, new)
    }
}

/// The diff of the files of the given names: of each that differs a header and
/// its changes. An empty file that was added or removed has its header alone.
pub open spec fn diff_of(
    old: Seq<(Seq<char>, Seq<char>)>,
    new: Seq<(Seq<char>, Seq<char>)>,
    names: Seq<Seq<char>>,
) -> Seq<char>
    decreases names.len(),
{
    if names.len() == 0 {
        Seq::empty()
    } else {
        let before = diff_of(old, new, names.drop_last());
        let a = content_in(old, names.last());
        let b = content_in(new, names.last());
        if differs(old, new, names.last()) {
            before + shown_file(names.last(), changes_between(a, b))
        } else {
            before
        }
    }
}

/// Whether a file of the list has this name.
fn has(files: &[ReviewedFile], name: &str) -> (r: bool)
    ensures
        r == has_file(files_of(files@), name@),
{
    let ghost all = files_of(files@);
    let mut i: usize = 0;
    while i < files.len()
        invariant
            i <= files@.len(),
            all == files_of(files@),
            forall|j: int| 0 <= j < i ==> (#[trigger] all[j]).0 != name@,
        decreases files@.len() - i,
    {
        if text::same(files[i].name.as_str(), name) {
            proof {
                assert(all[i as int].0 == name@);
            }
            return true;
        }
        i += 1;
    }
    false
}

fn add_names(set: &mut NameSet, files: &[ReviewedFile])
    ensures
        forall|n: Seq<char>|
            final(set)@.contains(n) <==> old(set)@.contains(n) || has_file(files_of(files@), n),
{
    let ghost all = files_of(files@);
    let ghost start = set@;
    let mut i: usize = 0;
    while i < files.len()
        invariant
            i <= files@.len(),
            all == files_of(files@),
            forall|n: Seq<char>|
                set@.contains(n) <==> start.contains(n) || has_file(all.take(i as int), n),
        decreases files@.len() - i,
    {
        let ghost before = set@;
        set.insert(files[i].name.clone());
        proof {
            let now = all.take(i + 1);
            assert forall|n: Seq<char>|
                set@.contains(n) <==> start.contains(n) || has_file(now, n) by {
                assert(before.contains(n) <==> start.contains(n) || has_file(
                    all.take(i as int),
                    n,
                ));
                if has_file(all.take(i as int), n) {
                    let j = choose|j: int|
                        0 <= j < i && (#[trigger] all.take(i as int)[j]).0 == n;
                    assert(now[j].0 == n);
                }
                assert(now[i as int].0 == files@[i as int].name@);
                if has_file(now, n) && n != files@[i as int].name@ {
                    let j = choose|j: int| 0 <= j < now.len() && (#[trigger] now[j]).0 == n;
                    assert(all.take(i as int)[j].0 == n);
                }
            }
        }
        i += 1;
    }
    proof {
        assert(all.take(all.len() as int) =~= all);
    }
}

/// The diff between the files of a record and the current files: a header for
/// each file that differs, and its lines, marked. A file that was added or
/// removed is shown even if it is empty. The diff is empty if and only if nothing
/// differs. Of each file that differs, the lines that are shown as kept or
/// deleted are those of the approved content, and the lines that are shown as kept
/// or inserted are those of the current content.
pub fn render_diff(previous: &ReviewRecord, current: &[ReviewedFile]) -> (r: String)
    requires
        forall|n: Seq<char>|
            (#[trigger] content_in(files_of(previous.files@), n)) != content_in(
                files_of(current@),
                n,
            ) ==> is_comparable(
                content_in(files_of(previous.files@), n),
                content_in(files_of(current@), n),
            ),
    ensures
        r@ == diff_of(
            files_of(previous.files@),
            files_of(current@),
            order::sorted_list(all_names(files_of(previous.files@), files_of(current@))),
        ),
        forall|n: Seq<char>|
            all_names(files_of(previous.files@), files_of(current@)).contains(n) && (
            #[trigger] content_in(files_of(previous.files@), n)) != content_in(
                files_of(current@),
                n,
            ) ==> {
                let a = content_in(files_of(previous.files@), n);
                let b = content_in(files_of(current@), n);
                is_line_diff(a, b, line_diff(a, b))
            },
{
    let ghost old = files_of(previous.files@);
    let ghost new = files_of(current@);
    let mut set = NameSet::new();
    add_names(&mut set, previous.files.as_slice());
    add_names(&mut set, current);
    proof {
        assert(set@ =~= all_names(old, new));
    }
    let names = set.names();
    let ghost all = text::texts(names@);
    let mut out = String::new();
    let mut i: usize = 0;
    while i < names.len()
        invariant
            i <= names@.len(),
            all == text::texts(names@),
            old == files_of(previous.files@),
            new == files_of(current@),
            forall|n: Seq<char>|
                (#[trigger] content_in(old, n)) != content_in(new, n) ==> is_comparable(
                    content_in(old, n),
                    content_in(new, n),
                ),
            out@ == diff_of(old, new, all.take(i as int)),
            forall|j: int|
                0 <= j < i && content_in(old, #[trigger] all[j]) != content_in(new, all[j]) ==> {
                    let a = content_in(old, all[j]);
                    let b = content_in(new, all[j]);
                    is_line_diff(a, b, line_diff(a, b))
                },
        decreases names@.len() - i,
    {
        let name = names[i].as_str();
        let a = content_of(previous.files.as_slice(), name);
        let b = content_of(current, name);
        proof {
            assert(all.take(i + 1).drop_last() =~= all.take(i as int));
            assert(all.take(i + 1).last() == name@);
            assert(all[i as int] == name@);
        }
        let same = text::same(a.as_str(), b.as_str());
        if !same || has(previous.files.as_slice(), name) != has(current, name) {
            let changes: Vec<(bool, bool, String)> = if same {
                Vec::new()
            } else {
                line_changes(a.as_str(), b.as_str())
            };
            proof {
                assert(changes_of(changes@) =~= changes_between(a@, b@));
            }
            let shown = show_file(name, &changes);
            out.append(shown.as_str());
        }
        i += 1;
    }
    proof {
        assert(all.take(all.len() as int) =~= all);
        assert forall|n: Seq<char>|
            all_names(old, new).contains(n) && (#[trigger] content_in(old, n)) != content_in(
                new,
                n,
            ) implies ({
            let a = content_in(old, n);
            let b = content_in(new, n);
            is_line_diff(a, b, line_diff(a, b))
        }) by {
            assert(all.to_set().contains(n));
            let j = choose|j: int| 0 <= j < all.len() && all[j] == n;
            assert(all[j] == n);
        }
    }
    out
}

proof fn lemma_full_lines(s: Seq<char>)
    ensures
        full_lines(s).flatten() == s,
        full_lines(s).len() <= s.len(),
        forall|i: int| 0 <= i < full_lines(s).len() ==> is_one_line(#[trigger] full_lines(s)[i]),
    decreases s.len(),
{
    if s.len() > 0 {
        lemma_full_line_len(s);
        let n = full_line_len(s);
        let rest = full_lines(s.skip(n));
        lemma_full_lines(s.skip(n));
        let all = full_lines(s);
        assert(all == seq![s.take(n)] + rest);
        assert(all.drop_first() =~= rest);
        assert(all.flatten() =~= s);
        assert forall|i: int| 0 <= i < all.len() implies is_one_line(#[trigger] all[i]) by {
            if i > 0 {
                assert(all[i] == rest[i - 1]);
            }
        }
    } else {
        assert(full_lines(s).flatten() =~= s);
    }
}

/// A line that is not empty and breaks at its end only.
pub open spec fn is_one_line(line: Seq<char>) -> bool {
    &&& line.len() > 0
    &&& forall|i: int| 0 <= i < line.len() - 1 ==> line[i] != '\n'
}

/// The lines of a text put together are the text.
pub proof fn law_lines_give_the_text_back(s: Seq<char>)
    ensures
        full_lines(s).flatten() == s,
{
    lemma_full_lines(s);
}

/// A diff loses nothing: the lines that it shows as kept or deleted put together are
/// the old text, and those that it shows as kept or inserted are the new one.
pub proof fn law_diff_gives_both_texts_back(
    old: Seq<char>,
    new: Seq<char>,
    changes: Seq<(bool, bool, Seq<char>)>,
)
    requires
        is_line_diff(old, new, changes),
    ensures
        old_lines(changes).flatten() == old,
        new_lines(changes).flatten() == new,
{
    lemma_full_lines(old);
    lemma_full_lines(new);
}

/// Two texts that have no more characters than 32 bits can number can be compared.
pub proof fn law_short_texts_are_comparable(old: Seq<char>, new: Seq<char>)
    requires
        old.len() + new.len() <= u32::MAX,
    ensures
        is_comparable(old, new),
{
    lemma_full_lines(old);
    lemma_full_lines(new);
    (full_lines(old) + full_lines(new)).lemma_cardinality_of_set();
}

proof fn lemma_changes_are_listed(changes: Seq<(bool, bool, Seq<char>)>, i: int)
    requires
        0 <= i < changes.len(),
    ensures
        changes[i].0 ==> old_lines(changes).contains(changes[i].2),
        changes[i].1 ==> new_lines(changes).contains(changes[i].2),
    decreases changes.len(),
{
    let before = changes.drop_last();
    if i == changes.len() - 1 {
        if changes[i].0 {
            assert(old_lines(changes).last() == changes[i].2);
        }
        if changes[i].1 {
            assert(new_lines(changes).last() == changes[i].2);
        }
    } else {
        lemma_changes_are_listed(before, i);
        if changes[i].0 {
            let j = old_lines(before).index_of(changes[i].2);
            assert(old_lines(changes)[j] == changes[i].2);
        }
        if changes[i].1 {
            let j = new_lines(before).index_of(changes[i].2);
            assert(new_lines(changes)[j] == changes[i].2);
        }
    }
}

/// The rows in which changes are shown.
pub open spec fn rows(changes: Seq<(bool, bool, Seq<char>)>) -> Seq<Seq<char>> {
    Seq::new(changes.len(), |i: int| row(changes[i]))
}

/// A place of a text at which a line starts.
pub open spec fn starts_line(s: Seq<char>, i: int) -> bool {
    0 <= i < s.len() && (i == 0 || s[i - 1] == '\n')
}

proof fn lemma_marked(changes: Seq<(bool, bool, Seq<char>)>)
    requires
        forall|i: int| 0 <= i < changes.len() ==> is_one_line((#[trigger] changes[i]).2),
    ensures
        marked(changes) == rows(changes).flatten(),
        changes.len() > 0 ==> marked(changes).len() > 0 && marked(changes).last() == '\n',
        forall|p: int| #[trigger]
            starts_line(marked(changes), p) ==> marked(changes)[p] == '-' || marked(changes)[p]
                == '+' || marked(changes)[p] == ' ',
    decreases changes.len(),
{
    if changes.len() == 0 {
        assert(rows(changes) =~= Seq::<Seq<char>>::empty());
    } else {
        let before = changes.drop_last();
        let last = changes.last();
        lemma_marked(before);
        rows(before).lemma_flatten_push(row(last));
        assert(rows(changes) =~= rows(before).push(row(last)));
        assert(is_one_line(changes[changes.len() - 1].2));
        let shown = marked(changes);
        let n = marked(before).len() as int;
        assert(row(last).last() == '\n');
        assert forall|p: int| #[trigger] starts_line(shown, p) implies shown[p] == '-' || shown[p]
            == '+' || shown[p] == ' ' by {
            if p < n {
                assert(starts_line(marked(before), p));
            } else if p > n {
                assert(shown[p - 1] == row(last)[p - 1 - n]);
                if p - 1 - n > 0 {
                    assert(row(last)[p - 1 - n] == with_newline(last.2)[p - 2 - n]);
                }
            }
        }
    }
}

/// The diff of a file reads line by line: each change takes one line, which starts
/// with the mark of the change and ends with the line feed, and no line starts with
/// anything but a mark.
pub proof fn law_every_line_is_marked(
    old: Seq<char>,
    new: Seq<char>,
    changes: Seq<(bool, bool, Seq<char>)>,
)
    requires
        is_line_diff(old, new, changes),
    ensures
        marked(changes) == rows(changes).flatten(),
        forall|i: int|
            0 <= i < changes.len() ==> {
                let r = #[trigger] rows(changes)[i];
                r[0] == sign(changes[i]) && r.last() == '\n' && is_one_line(r)
            },
        forall|p: int| #[trigger]
            starts_line(marked(changes), p) ==> marked(changes)[p] == '-' || marked(changes)[p]
                == '+' || marked(changes)[p] == ' ',
{
    lemma_full_lines(old);
    lemma_full_lines(new);
    assert forall|i: int| 0 <= i < changes.len() implies is_one_line((#[trigger] changes[i]).2) by {
        lemma_changes_are_listed(changes, i);
        if changes[i].0 {
            let j = old_lines(changes).index_of(changes[i].2);
            assert(is_one_line(full_lines(old)[j]));
        } else {
            let j = new_lines(changes).index_of(changes[i].2);
            assert(is_one_line(full_lines(new)[j]));
        }
    }
    lemma_marked(changes);
    assert forall|i: int| 0 <= i < changes.len() implies ({
        let r = #[trigger] rows(changes)[i];
        r[0] == sign(changes[i]) && r.last() == '\n' && is_one_line(r)
    }) by {
        let line = changes[i].2;
        let r = rows(changes)[i];
        assert(is_one_line(changes[i].2));
        assert forall|k: int| 0 <= k < r.len() - 1 implies r[k] != '\n' by {
            if k > 0 {
                assert(r[k] == with_newline(line)[k - 1]);
                if k - 1 == line.len() - 1 {
                    assert(line.last() != '\n');
                }
            }
        }
    }
}

/// What was approved is unchanged: a recipe that is looked at again, whatever
/// the order in which its files are read, is what was vouched for.
pub proof fn law_approved_is_unchanged(
    record: ReviewRecord,
    package: Seq<char>,
    approved: Seq<(Seq<char>, Seq<char>)>,
    current: Seq<(Seq<char>, Seq<char>)>,
    score: int,
    now: int,
    build_network: bool,
)
    requires
        is_approval(record, package, approved, score, now, build_network),
        approved == current || (approved.to_multiset() == current.to_multiset()
            && sort::keys_of(approved, file_name()).no_duplicates()),
    ensures
        is_unchanged(record, current),
{
    if approved != current {
        law_fingerprint_ignores_order(approved, current);
    }
}

/// The fingerprint does not depend on the order of the files, if no two of them
/// have the same name.
pub proof fn law_fingerprint_ignores_order(
    a: Seq<(Seq<char>, Seq<char>)>,
    b: Seq<(Seq<char>, Seq<char>)>,
)
    requires
        a.to_multiset() == b.to_multiset(),
        sort::keys_of(a, file_name()).no_duplicates(),
    ensures
        in_order(a) == in_order(b),
        fingerprint_of(a) == fingerprint_of(b),
{
    sort::lemma_by_key_unique(a, b, file_name());
}

/// Nothing that changed passes as unchanged: an unchanged recipe has exactly the
/// files that were approved, with exactly their contents.
pub proof fn law_unchanged_is_identical(
    record: ReviewRecord,
    current: Seq<(Seq<char>, Seq<char>)>,
)
    requires
        is_unchanged(record, current),
    ensures
        files_of(record.files@).to_multiset() == current.to_multiset(),
        files_of(record.files@).len() == current.len(),
{
    sort::lemma_by_key_keeps(files_of(record.files@), file_name());
    sort::lemma_by_key_keeps(current, file_name());
}

/// A recipe of which one file has another content than was approved is changed.
pub proof fn law_changed_content_is_noticed(
    record: ReviewRecord,
    i: int,
    content: Seq<char>,
)
    requires
        0 <= i < record.files@.len(),
        content != record.files@[i].content@,
    ensures
        !is_unchanged(
            record,
            files_of(record.files@).update(i, (record.files@[i].name@, content)),
        ),
{
    let old = files_of(record.files@);
    let new = old.update(i, (old[i].0, content));
    if is_unchanged(record, new) {
        law_unchanged_is_identical(record, new);
        assert(old.remove(i) =~= new.remove(i));
        old.to_multiset_ensures();
        new.to_multiset_ensures();
        assert(old.remove(i).to_multiset() =~= old.to_multiset().remove(old[i]));
        assert(new.remove(i).to_multiset() =~= new.to_multiset().remove(new[i]));
        assert(old.to_multiset().count(old[i]) > 0);
        assert(old.to_multiset().remove(old[i]).count(old[i]) == old.to_multiset().count(old[i])
            - 1);
        assert(new.to_multiset().remove(new[i]).count(old[i]) == new.to_multiset().count(old[i]));
    }
}

/// A stem is a single component of a path that names a file.
pub proof fn law_stem_is_safe(package: Seq<char>)
    ensures
        !is_traversal(stem(package)),
        !stem(package).contains('/'),
{
    let clean = cleaned(package);
    if is_traversal(clean) {
        reveal_strlit("_");
        reveal_strlit(".");
        reveal_strlit("..");
        let digest = digest::sha256_digest(
            utf8::encode_utf8(canonical_form(seq![("name"@, package)])),
        );
        let s = stem(package);
        lemma_hex_has_no_slash(digest);
        assert(s[0] == '_');
        assert(s != "."@) by {
            assert("."@[0] == '.');
        }
        assert(s != ".."@) by {
            assert(".."@[0] == '.');
        }
        assert forall|i: int| 0 <= i < s.len() implies s[i] != '/' by {
            if i > 0 {
                assert(s[i] == text::hex_of(digest)[i - 1]);
            }
        }
    } else {
        assert forall|i: int| 0 <= i < clean.len() implies clean[i] != '/' by {
            let c = package[i];
            if text::is_name_char(c) {
                assert(clean[i] == c);
            }
        }
    }
}

proof fn lemma_hex_has_no_slash(bytes: Seq<u8>)
    ensures
        forall|i: int| 0 <= i < text::hex_of(bytes).len() ==> text::hex_of(bytes)[i] != '/',
    decreases bytes.len(),
{
    if bytes.len() > 0 {
        lemma_hex_has_no_slash(bytes.drop_last());
        let b = bytes.last();
        assert(text::digit((b / 16) as nat) != '/');
        assert(text::digit((b % 16) as nat) != '/');
        let before = text::hex_of(bytes.drop_last());
        let now = text::hex_of(bytes);
        assert forall|i: int| 0 <= i < now.len() implies now[i] != '/' by {
            if i < before.len() {
                assert(now[i] == before[i]);
            } else if i == before.len() {
                assert(now[i] == text::digit((b / 16) as nat));
            } else {
                assert(now[i] == text::digit((b % 16) as nat));
            }
        }
    }
}

/// A name that is safe already is its own stem, so no two such packages share a
/// record.
pub proof fn law_safe_names_keep_apart(a: Seq<char>, b: Seq<char>)
    requires
        forall|i: int| 0 <= i < a.len() ==> text::is_name_char(#[trigger] a[i]),
        forall|i: int| 0 <= i < b.len() ==> text::is_name_char(#[trigger] b[i]),
        !is_traversal(a),
        !is_traversal(b),
    ensures
        stem(a) == a,
        stem(a) == stem(b) <==> a == b,
{
    assert(cleaned(a) =~= a);
    assert(cleaned(b) =~= b);
}

/// A record that was kept is what is loaded, so the approved files are
/// unchanged; and keeping it does not touch the record of a package that is kept
/// elsewhere.
pub proof fn law_kept_record_is_loaded(
    records: Map<Seq<char>, ReviewRecord>,
    root: Seq<char>,
    package: Seq<char>,
    record: ReviewRecord,
    other: Seq<char>,
)
    requires
        record.fingerprint@ == fingerprint_of(files_of(record.files@)),
        place_of(root, other) != place_of(root, package),
    ensures
        ({
            let kept = records.insert(place_of(root, package), record);
            &&& loaded(kept, root, package) == Some(record)
            &&& loaded(kept, root, other) == loaded(records, root, other)
            &&& forall|r: ReviewStatus| #[trigger]
                is_status(r, loaded(kept, root, package), files_of(record.files@))
                    ==> r is Unchanged
        }),
{
}

/// Forgetting re-arms trust on first use: after a record was kept and its place
/// was cleared, there was a record and there is none to clear a second time, and
/// any files are new, even those that were approved.
pub proof fn law_forget_rearms(
    records: Map<Seq<char>, ReviewRecord>,
    root: Seq<char>,
    package: Seq<char>,
    record: ReviewRecord,
    files: Seq<(Seq<char>, Seq<char>)>,
    status: ReviewStatus,
)
    requires
        is_status(
            status,
            loaded(
                records.insert(place_of(root, package), record).remove(place_of(root, package)),
                root,
                package,
            ),
            files,
        ),
    ensures
        records.insert(place_of(root, package), record).dom().contains(place_of(root, package)),
        !records.insert(place_of(root, package), record).remove(
            place_of(root, package),
        ).dom().contains(place_of(root, package)),
        status is New,
{
}

/// The diff is empty if and only if no file differs.
pub proof fn law_no_difference_no_diff(
    old: Seq<(Seq<char>, Seq<char>)>,
    new: Seq<(Seq<char>, Seq<char>)>,
    names: Seq<Seq<char>>,
)
    ensures
        diff_of(old, new, names).len() == 0 <==> forall|i: int|
            0 <= i < names.len() ==> !differs(old, new, #[trigger] names[i]),
    decreases names.len(),
{
    if names.len() > 0 {
        let rest = names.drop_last();
        law_no_difference_no_diff(old, new, rest);
        reveal_strlit("--- ");
        if diff_of(old, new, names).len() == 0 {
            assert forall|i: int| 0 <= i < names.len() implies !differs(
                old,
                new,
                #[trigger] names[i],
            ) by {
                if i < names.len() - 1 {
                    assert(rest[i] == names[i]);
                }
            }
        }
        if forall|i: int| 0 <= i < names.len() ==> !differs(old, new, #[trigger] names[i]) {
            assert forall|i: int| 0 <= i < rest.len() implies !differs(
                old,
                new,
                #[trigger] rest[i],
            ) by {
                assert(rest[i] == names[i]);
            }
            assert(names[names.len() - 1] == names.last());
        }
    }
}

/// Where the diff of all names is empty, both lists have the same names with the same contents.
pub proof fn law_diff_shows_every_difference(
    old: Seq<(Seq<char>, Seq<char>)>,
    new: Seq<(Seq<char>, Seq<char>)>,
    names: Seq<Seq<char>>,
    n: Seq<char>,
)
    requires
        names.to_set() == all_names(old, new),
        diff_of(old, new, names).len() == 0,
    ensures
        has_file(old, n) <==> has_file(new, n),
        content_in(old, n) == content_in(new, n),
{
    law_no_difference_no_diff(old, new, names);
    if all_names(old, new).contains(n) {
        assert(names.to_set().contains(n));
        let i = choose|i: int| 0 <= i < names.len() && names[i] == n;
        assert(!differs(old, new, names[i]));
    } else {
        lemma_absent_is_empty(old, n);
        lemma_absent_is_empty(new, n);
    }
}

/// A file that is not there counts as empty.
proof fn lemma_absent_is_empty(files: Seq<(Seq<char>, Seq<char>)>, n: Seq<char>)
    requires
        !has_file(files, n),
    ensures
        content_in(files, n) == Seq::<char>::empty(),
    decreases files.len(),
{
    if files.len() > 0 {
        let rest = files.drop_first();
        assert(files[0].0 != n);
        if has_file(rest, n) {
            let i = choose|i: int| 0 <= i < rest.len() && (#[trigger] rest[i]).0 == n;
            assert(files[i + 1].0 == n);
        }
        lemma_absent_is_empty(rest, n);
    }
}

/// A deleted line is marked `-`, an inserted one `+`, a kept one with a space; and
/// a line is shown as it is, with a line ending added only if it has none.
pub proof fn law_marks_of_changes(line: Seq<char>)
    ensures
        sign((true, false, line)) == '-',
        sign((false, true, line)) == '+',
        sign((true, true, line)) == ' ',
        line.len() > 0 && line.last() == '\n' ==> with_newline(line) == line,
        line.len() == 0 || line.last() != '\n' ==> with_newline(line) == line + seq!['\n'],
{
    assert(line.push('\n') =~= line + seq!['\n']);
}

/// A file name keeps letters, digits and `-_.+`, and has `_` for everything else.
pub proof fn law_clean_names(package: Seq<char>, i: int)
    requires
        0 <= i < package.len(),
    ensures
        cleaned(package).len() == package.len(),
        ({
            let c = package[i] as int;
            if (0x61 <= c <= 0x7a) || (0x41 <= c <= 0x5a) || (0x30 <= c <= 0x39) || c == 0x2d || c
                == 0x5f || c == 0x2e || c == 0x2b {
                cleaned(package)[i] == package[i]
            } else {
                cleaned(package)[i] == '_'
            }
        }),
{
}

/// The record of a package is the file of its name, ending in `.json`, in the
/// directory of the store; so no two packages share a record.
pub proof fn law_records_have_their_places(root: Seq<char>, package: Seq<char>)
    requires
        root.len() > 0 && root.last() != '/',
        package.len() > 0 && package != "."@ && package != ".."@,
        forall|i: int| 0 <= i < package.len() ==> text::is_name_char(#[trigger] package[i]),
    ensures
        place_of(root, package) == root + "/"@ + package + ".json"@,
{
    law_safe_names_keep_apart(package, package);
    let file = package + ".json"@;
    assert(file[0] == package[0]);
    assert(text::is_name_char(package[0]));
    paths::law_paths_are_joined(root, file);
    reveal_strlit("/");
    assert(root + seq!['/'] + file =~= root + "/"@ + package + ".json"@);
}

/// The content that counts for a name is that of the first file of the name; a
/// name without a file counts as empty.
pub proof fn law_first_content_counts(
    files: Seq<(Seq<char>, Seq<char>)>,
    name: Seq<char>,
    i: int,
)
    ensures
        0 <= i < files.len() && files[i].0 == name && (forall|j: int|
            0 <= j < i ==> (#[trigger] files[j]).0 != name) ==> content_in(files, name)
            == files[i].1,
        (forall|j: int| 0 <= j < files.len() ==> (#[trigger] files[j]).0 != name) ==> content_in(
            files,
            name,
        ) == Seq::<char>::empty(),
        has_file(files, name) <==> !(forall|j: int|
            0 <= j < files.len() ==> (#[trigger] files[j]).0 != name),
    decreases files.len(),
{
    if files.len() > 0 {
        let rest = files.drop_first();
        law_first_content_counts(rest, name, i - 1);
        if files[0].0 != name {
            if 0 <= i < files.len() && files[i].0 == name {
                assert(rest[i - 1] == files[i]);
                if forall|j: int| 0 <= j < i ==> (#[trigger] files[j]).0 != name {
                    assert forall|j: int| 0 <= j < i - 1 implies (#[trigger] rest[j]).0 != name by {
                        assert(rest[j] == files[j + 1]);
                    }
                }
            }
            if forall|j: int| 0 <= j < files.len() ==> (#[trigger] files[j]).0 != name {
                assert forall|j: int| 0 <= j < rest.len() implies (#[trigger] rest[j]).0 != name by {
                    assert(rest[j] == files[j + 1]);
                }
            }
        }
    }
}

/// Trust on first use: without a record a recipe is new; the recipe that was
/// approved is unchanged; and one that differs from it in any file is changed,
/// with the record of what was approved.
pub proof fn law_status_of_a_recipe(
    record: ReviewRecord,
    package: Seq<char>,
    approved: Seq<(Seq<char>, Seq<char>)>,
    current: Seq<(Seq<char>, Seq<char>)>,
    score: int,
    now: int,
    build_network: bool,
    first: ReviewStatus,
    later: ReviewStatus,
)
    requires
        is_approval(record, package, approved, score, now, build_network),
        is_status(first, None, current),
        is_status(later, Some(record), current),
    ensures
        first is New,
        current == approved ==> later == (ReviewStatus::Unchanged { record }),
        current.to_multiset() != approved.to_multiset() ==> (later matches ReviewStatus::Changed {
            previous,
            ..
        } && previous == record),
{
    if current.to_multiset() != approved.to_multiset() {
        if is_unchanged(record, current) {
            law_unchanged_is_identical(record, current);
        }
    }
}

/// The diff shows every file that differs, under its name: its changes if it is
/// in both, and at least its name otherwise.
pub proof fn law_diff_shows_every_file_that_differs(
    old: Seq<(Seq<char>, Seq<char>)>,
    new: Seq<(Seq<char>, Seq<char>)>,
    names: Seq<Seq<char>>,
    i: int,
)
    requires
        0 <= i < names.len(),
    ensures
        content_in(old, names[i]) != content_in(new, names[i]) ==> text::contains_text(
            diff_of(old, new, names),
            "--- "@ + names[i] + "\n"@ + marked(
                line_diff(content_in(old, names[i]), content_in(new, names[i])),
            ),
        ),
        has_file(old, names[i]) != has_file(new, names[i]) ==> text::contains_text(
            diff_of(old, new, names),
            "--- "@ + names[i] + "\n"@,
        ),
    decreases names.len(),
{
    let rest = names.drop_last();
    let before = diff_of(old, new, rest);
    let now = diff_of(old, new, names);
    let n = names[i];
    let a = content_in(old, n);
    let b = content_in(new, n);
    let head = "--- "@ + n + "\n"@;
    let e = Seq::<char>::empty();
    if i < rest.len() {
        law_diff_shows_every_file_that_differs(old, new, rest, i);
        assert(rest[i] == n);
        let tail = now.skip(before.len() as int);
        assert(now =~= before + tail);
        if a != b {
            lemma_holds_more(before, tail, head + marked(line_diff(a, b)));
        }
        if has_file(old, n) != has_file(new, n) {
            lemma_holds_more(before, tail, head);
        }
    } else if differs(old, new, n) {
        let shown = shown_file(n, changes_between(a, b));
        assert(now =~= before + shown + e);
        text::lemma_holds_pattern(before, shown, e);
        if has_file(old, n) != has_file(new, n) {
            text::lemma_holds_pattern(before, head, marked(changes_between(a, b)));
            assert(now =~= before + head + marked(changes_between(a, b)));
        }
    }
}

proof fn lemma_holds_more(s: Seq<char>, t: Seq<char>, pat: Seq<char>)
    requires
        text::contains_text(s, pat),
    ensures
        text::contains_text(s + t, pat),
{
    let i = choose|i: int| text::occurs_at(s, pat, i);
    assert((s + t).subrange(i, i + pat.len()) =~= s.subrange(i, i + pat.len()));
    assert(text::occurs_at(s + t, pat, i));
}

/// What is fingerprinted holds every file, each under its name, in ascending
/// order of the names.
pub proof fn law_canonical_form(
    files: Seq<(Seq<char>, Seq<char>)>,
    f: (Seq<char>, Seq<char>),
    g: (Seq<char>, Seq<char>),
)
    requires
        order::text_lt(f.0, g.0),
    ensures
        serialized(files.push(f)) == serialized(files) + "=== "@ + f.0 + " ===\n"@ + f.1 + "\n"@,
        serialized(Seq::empty()) == Seq::<char>::empty(),
        in_order(seq![f, g]) == seq![f, g],
        in_order(seq![g, f]) == seq![f, g],
{
    assert(files.push(f).drop_last() =~= files);
    let key = file_name();
    let none = Seq::<(Seq<char>, Seq<char>)>::empty();
    order::lemma_total(f.0, g.0);
    let fg = seq![f, g];
    let gf = seq![g, f];
    assert(fg.drop_last() =~= seq![f]);
    assert(gf.drop_last() =~= seq![g]);
    assert(seq![f].drop_last() =~= none);
    assert(seq![g].drop_last() =~= none);
    assert(sort::by_key(none, key) == none);
    assert(sort::place(none, key, f.0) == 0);
    assert(sort::place(none, key, g.0) == 0);
    assert(sort::by_key(seq![f], key) =~= seq![f]);
    assert(sort::by_key(seq![g], key) =~= seq![g]);
    assert(seq![f].drop_first() =~= none);
    assert(sort::place(seq![f], key, g.0) == 1);
    assert(sort::place(seq![g], key, f.0) == 0);
    assert(sort::by_key(fg, key) =~= fg);
    assert(sort::by_key(gf, key) =~= fg);
}

/// An approval records what was approved: the package, exactly the files, the
/// score, the time and the permission, under the digest of the canonical form.
pub proof fn law_approvals_record_everything(
    record: ReviewRecord,
    package: Seq<char>,
    files: Seq<(Seq<char>, Seq<char>)>,
    score: int,
    now: int,
    build_network: bool,
)
    requires
        is_approval(record, package, files, score, now, build_network),
    ensures
        record.package@ == package,
        record.files@.len() == files.len(),
        forall|i: int|
            0 <= i < files.len() ==> (#[trigger] record.files@[i]).name@ == files[i].0
                && record.files@[i].content@ == files[i].1,
        record.score_at_approval == score,
        record.approved_at == now,
        record.build_network == build_network,
        record.fingerprint@ == text::hex_of(
            digest::sha256_digest(utf8::encode_utf8(serialized(in_order(files)))),
        ),
{
    assert forall|i: int| 0 <= i < files.len() implies (#[trigger] record.files@[i]).name@
        == files[i].0 && record.files@[i].content@ == files[i].1 by {
        assert(files_of(record.files@)[i] == record.files@[i]@);
    }
}

/// No name of a package leads out of the store: its file is never nameless, never
/// the directory itself or the one above, and holds no separator.
pub proof fn law_records_stay_in_the_store(package: Seq<char>)
    ensures
        stem(package).len() > 0,
        stem(package) != "."@,
        stem(package) != ".."@,
        forall|i: int| 0 <= i < stem(package).len() ==> stem(package)[i] != '/',
{
    law_stem_is_safe(package);
    let s = stem(package);
    assert forall|i: int| 0 <= i < s.len() implies s[i] != '/' by {
        assert(s.contains(s[i]));
    }
}

/// The diff goes through the names in order: that of two lists of names is that of
/// the first and then that of the second; and the names are those of all files of
/// either side.
pub proof fn law_diff_goes_by_name(
    old: Seq<(Seq<char>, Seq<char>)>,
    new: Seq<(Seq<char>, Seq<char>)>,
    a: Seq<Seq<char>>,
    b: Seq<Seq<char>>,
    n: Seq<char>,
)
    ensures
        diff_of(old, new, a + b) == diff_of(old, new, a) + diff_of(old, new, b),
        all_names(old, new).contains(n) <==> (exists|i: int|
            0 <= i < old.len() && (#[trigger] old[i]).0 == n) || (exists|i: int|
            0 <= i < new.len() && (#[trigger] new[i]).0 == n),
    decreases b.len(),
{
    if b.len() > 0 {
        let rest = b.drop_last();
        law_diff_goes_by_name(old, new, a, rest, n);
        assert((a + b).drop_last() =~= a + rest);
        assert((a + b).last() == b.last());
        let x = diff_of(old, new, a);
        let y = diff_of(old, new, rest);
        let shown = shown_file(
            b.last(),
            changes_between(content_in(old, b.last()), content_in(new, b.last())),
        );
        assert(x + y + shown =~= x + (y + shown));
    } else {
        assert(a + b =~= a);
        assert(diff_of(old, new, a) + diff_of(old, new, b) =~= diff_of(old, new, a));
    }
}

} // verus!
