//! Indicators of compromise: what is already known to be malicious.
//!
//! The scanner judges behaviour; this module judges identity. It matches a
//! recipe against lists of known payload names, accounts, package names and
//! file hashes. Any match is critical.

use crate::digest;
use crate::names::NameSet;
use crate::order;
use crate::package;
use crate::package::{Finding, FindingView, Severity};
use crate::paths;
use crate::recipe;
use crate::score;
use crate::sort;
use crate::text;
use vstd::prelude::*;
use vstd::utf8;

verus! {

/// What `str::to_lowercase` makes of a text.
pub uninterp spec fn unicode_lowercase(s: Seq<char>) -> Seq<char>;

/// `str::to_lowercase`: the text in lower case, as Unicode defines it. The
/// contract names the result and claims that it depends on the text alone.
pub assume_specification[ str::to_lowercase ](s: &str) -> (r: String)
    ensures
        r@ == unicode_lowercase(s@),
;

/// Why a known package name is a concern.
pub const PACKAGE_DETAIL: &'static str =
    "This exact package name matches a known supply-chain compromise. Do not install it.";

/// Why a known account is a concern.
pub const MAINTAINER_DETAIL: &'static str =
    "This account is flagged as having published malicious packages.";

/// Why a known string is a concern.
pub const STRING_DETAIL: &'static str =
    "This string matches a known-malicious payload/indicator (e.g. an 'Atomic Arch' npm package). The recipe is compromised.";

/// Why a known file is a concern.
pub const HASH_DETAIL: &'static str =
    "The exact contents of this file are on a known-bad hash list.";

/// A set of known-bad indicators.
#[derive(Debug)]
pub struct Indicators {
    /// Hijacked or known-malicious AUR package (or base) names.
    pub bad_package_names: NameSet,
    /// Banned attacker maintainer accounts.
    pub bad_maintainers: NameSet,
    /// Substrings that should never appear in a recipe (payload package names,
    /// domains, etc.). Matched case-insensitively.
    pub bad_strings: NameSet,
    /// SHA-256 (hex) of known-malicious files.
    pub bad_sha256: NameSet,
}

/// The contents of a set of indicators.
#[verifier::ext_equal]
pub struct IndicatorsView {
    pub packages: Set<Seq<char>>,
    pub maintainers: Set<Seq<char>>,
    pub strings: Set<Seq<char>>,
    pub hashes: Set<Seq<char>>,
}

impl View for Indicators {
    type V = IndicatorsView;

    open spec fn view(&self) -> IndicatorsView {
        IndicatorsView {
            packages: self.bad_package_names@,
            maintainers: self.bad_maintainers@,
            strings: self.bad_strings@,
            hashes: self.bad_sha256@,
        }
    }
}

/// No indicators.
pub open spec fn no_indicators() -> IndicatorsView {
    IndicatorsView {
        packages: Set::empty(),
        maintainers: Set::empty(),
        strings: Set::empty(),
        hashes: Set::empty(),
    }
}

/// The built-in baseline: the documented payload names.
pub open spec fn baseline() -> IndicatorsView {
    IndicatorsView {
        strings: set!["atomic-lockfile"@, "js-digest"@, "lockfile-js"@],
        ..no_indicators()
    }
}

/// The indicators of either set.
pub open spec fn merged(a: IndicatorsView, b: IndicatorsView) -> IndicatorsView {
    IndicatorsView {
        packages: a.packages.union(b.packages),
        maintainers: a.maintainers.union(b.maintainers),
        strings: a.strings.union(b.strings),
        hashes: a.hashes.union(b.hashes),
    }
}

/// The indicators that are in force: the built-in ones, with those of a feed.
pub open spec fn effective(feed: Option<IndicatorsView>) -> IndicatorsView {
    match feed {
        Some(extra) => merged(baseline(), extra),
        None => baseline(),
    }
}

/// The feed to store: what is stored, if anything is, with what comes in.
pub open spec fn imported(
    stored: Option<IndicatorsView>,
    incoming: IndicatorsView,
) -> IndicatorsView {
    match stored {
        Some(s) => merged(s, incoming),
        None => merged(no_indicators(), incoming),
    }
}

/// A critical finding.
pub open spec fn critical_finding(
    id: Seq<char>,
    title: Seq<char>,
    detail: Seq<char>,
    location: Option<Seq<char>>,
) -> FindingView {
    FindingView { id, severity: Severity::Critical, title, detail, location }
}

fn critical(id: &str, title: String, detail: &str, location: Option<String>) -> (r: Finding)
    ensures
        r@ == critical_finding(id@, title@, detail@, text::opt_text(location)),
{
    Finding::new(id, Severity::Critical, title, detail, location)
}

/// The findings on the identity of a package.
pub open spec fn identity_findings(
    ind: IndicatorsView,
    name: Seq<char>,
    maintainer: Option<Seq<char>>,
) -> Seq<FindingView> {
    (if ind.packages.contains(name) {
        seq![
            critical_finding(
                "ioc.bad-package"@,
                "Package '"@ + name + "' is on a known-malicious list"@,
                PACKAGE_DETAIL@,
                None,
            ),
        ]
    } else {
        Seq::empty()
    }) + (match maintainer {
        Some(m) if ind.maintainers.contains(m) => seq![
            critical_finding(
                "ioc.bad-maintainer"@,
                "Maintainer '"@ + m + "' is a known-bad account"@,
                MAINTAINER_DETAIL@,
                None,
            ),
        ],
        _ => Seq::empty(),
    })
}

/// The known strings to look for, in lower case, in ascending order of the
/// strings as they are listed.
pub open spec fn needles_of(strings: Set<Seq<char>>) -> Seq<Seq<char>> {
    order::sorted_list(strings).map_values(|s: Seq<char>| unicode_lowercase(s))
}

/// The findings of the first `n` needles in a text that is in lower case.
pub open spec fn string_findings(
    needles: Seq<Seq<char>>,
    file: Seq<char>,
    haystack: Seq<char>,
    n: nat,
) -> Seq<FindingView>
    decreases n,
{
    if n == 0 {
        Seq::empty()
    } else {
        let before = string_findings(needles, file, haystack, (n - 1) as nat);
        let needle = needles[n - 1];
        if text::contains_text(haystack, needle) {
            before.push(
                critical_finding(
                    "ioc.bad-string"@,
                    "Recipe references known IoC '"@ + needle + "'"@,
                    STRING_DETAIL@,
                    Some(file),
                ),
            )
        } else {
            before
        }
    }
}

/// The findings on a file, given its content in lower case and its digest.
pub open spec fn file_findings(
    needles: Seq<Seq<char>>,
    hashes: Set<Seq<char>>,
    file: Seq<char>,
    haystack: Seq<char>,
    digest: Seq<char>,
) -> Seq<FindingView> {
    string_findings(needles, file, haystack, needles.len()) + (if hashes.contains(digest) {
        seq![
            critical_finding(
                "ioc.bad-hash"@,
                "File '"@ + file + "' matches a known-malicious hash"@,
                HASH_DETAIL@,
                Some(file),
            ),
        ]
    } else {
        Seq::empty()
    })
}

/// The digest of a text, in lower case hexadecimal.
pub open spec fn digest_of(content: Seq<char>) -> Seq<char> {
    text::hex_of(digest::sha256_digest(utf8::encode_utf8(content)))
}

/// The findings on the first `n` files.
pub open spec fn content_findings(
    ind: IndicatorsView,
    files: Seq<(Seq<char>, Seq<char>)>,
    n: nat,
) -> Seq<FindingView>
    decreases n,
{
    if n == 0 {
        Seq::empty()
    } else {
        let (file, content) = files[n - 1];
        content_findings(ind, files, (n - 1) as nat) + file_findings(
            needles_of(ind.strings),
            ind.hashes,
            file,
            unicode_lowercase(content),
            digest_of(content),
        )
    }
}

/// The findings on a file, given its content in lower case. `digest` is its
/// digest, or `None` where no hash is known.
pub fn check_file(
    needles: &Vec<String>,
    hashes: &NameSet,
    file: &str,
    haystack: &str,
    digest: Option<&str>,
) -> (r: Vec<Finding>)
    requires
        digest is None ==> hashes@ == Set::<Seq<char>>::empty(),
    ensures
        package::findings_of(r@) == file_findings(
            text::texts(needles@),
            hashes@,
            file@,
            haystack@,
            (match digest {
                Some(d) => d@,
                None => Seq::empty(),
            }),
        ),
{
    let ghost all = text::texts(needles@);
    let mut out: Vec<Finding> = Vec::new();
    let mut i: usize = 0;
    proof {
        assert(package::findings_of(out@) =~= Seq::<FindingView>::empty());
    }
    while i < needles.len()
        invariant
            i <= needles@.len(),
            all == text::texts(needles@),
            package::findings_of(out@) == string_findings(all, file@, haystack@, i as nat),
        decreases needles@.len() - i,
    {
        if text::contains(haystack, needles[i].as_str()) {
            let f = critical(
                "ioc.bad-string",
                text::concat3("Recipe references known IoC '", needles[i].as_str(), "'"),
                STRING_DETAIL,
                Some(String::from_str(file)),
            );
            proof {
                package::lemma_findings_push(out@, f);
            }
            out.push(f);
        }
        i += 1;
    }
    let ghost first = package::findings_of(out@);
    proof {
        assert(first + Seq::<FindingView>::empty() =~= first);
    }
    if let Some(d) = digest {
        if hashes.contains(d) {
            let f = critical(
                "ioc.bad-hash",
                text::concat3("File '", file, "' matches a known-malicious hash"),
                HASH_DETAIL,
                Some(String::from_str(file)),
            );
            proof {
                package::lemma_findings_push(out@, f);
                assert(first.push(f@) =~= first + seq![f@]);
            }
            out.push(f);
        }
    }
    out
}

impl Indicators {
    /// No indicators.
    pub fn empty() -> (r: Indicators)
        ensures
            r@ == no_indicators(),
    {
        Indicators {
            bad_package_names: NameSet::new(),
            bad_maintainers: NameSet::new(),
            bad_strings: NameSet::new(),
            bad_sha256: NameSet::new(),
        }
    }

    /// The built-in baseline. Conservative on purpose: it holds the concrete
    /// payload package names that were documented. Account names and hashes
    /// are left to the user feed.
    pub fn builtin() -> (r: Indicators)
        ensures
            r@ == baseline(),
    {
        let mut r = Indicators::empty();
        r.bad_strings.insert(String::from_str("atomic-lockfile"));
        r.bad_strings.insert(String::from_str("js-digest"));
        r.bad_strings.insert(String::from_str("lockfile-js"));
        proof {
            assert(r@.strings =~= baseline().strings);
        }
        r
    }

    /// The built-in baseline merged with the user feed, if there is one. A
    /// missing or malformed feed leaves the baseline.
    pub fn load_default(feed: Option<Indicators>) -> (r: Indicators)
        ensures
            r@ == effective(
                match feed {
                    Some(extra) => Some(extra@),
                    None => None,
                },
            ),
            r@ == (match feed {
                Some(extra) => merged(baseline(), extra@),
                None => baseline(),
            }),
    {
        let mut r = Indicators::builtin();
        if let Some(extra) = feed {
            r.merge(extra);
        }
        r
    }

    /// Folds another set of indicators into this one.
    pub fn merge(&mut self, other: Indicators)
        ensures
            final(self)@ == merged(old(self)@, other@),
    {
        let packages = self.bad_package_names.union(&other.bad_package_names);
        let maintainers = self.bad_maintainers.union(&other.bad_maintainers);
        let strings = self.bad_strings.union(&other.bad_strings);
        let hashes = self.bad_sha256.union(&other.bad_sha256);
        self.bad_package_names = packages;
        self.bad_maintainers = maintainers;
        self.bad_strings = strings;
        self.bad_sha256 = hashes;
    }

    /// The number of indicators.
    pub fn total(&self) -> (r: usize)
        requires
            self@.packages.len() + self@.maintainers.len() + self@.strings.len()
                + self@.hashes.len() <= usize::MAX,
        ensures
            r == self@.packages.len() + self@.maintainers.len() + self@.strings.len()
                + self@.hashes.len(),
    {
        self.bad_package_names.len() + self.bad_maintainers.len() + self.bad_strings.len()
            + self.bad_sha256.len()
    }

    /// Checks the identity of a package against the indicators.
    pub fn check_meta(&self, name: &str, maintainer: Option<&str>) -> (r: Vec<Finding>)
        ensures
            package::findings_of(r@) == identity_findings(
                self@,
                name@,
                text::opt_slice(maintainer),
            ),
    {
        let mut out: Vec<Finding> = Vec::new();
        if self.bad_package_names.contains(name) {
            out.push(
                critical(
                    "ioc.bad-package",
                    text::concat3("Package '", name, "' is on a known-malicious list"),
                    PACKAGE_DETAIL,
                    None,
                ),
            );
        }
        if let Some(m) = maintainer {
            if self.bad_maintainers.contains(m) {
                out.push(
                    critical(
                        "ioc.bad-maintainer",
                        text::concat3("Maintainer '", m, "' is a known-bad account"),
                        MAINTAINER_DETAIL,
                        None,
                    ),
                );
            }
        }
        proof {
            assert(package::findings_of(out@) =~= identity_findings(
                self@,
                name@,
                text::opt_slice(maintainer),
            ));
        }
        out
    }

    /// The known strings in lower case.
    fn needles(&self) -> (r: Vec<String>)
        ensures
            text::texts(r@) == needles_of(self@.strings),
    {
        let names = self.bad_strings.names();
        let ghost all = needles_of(self@.strings);
        let mut out: Vec<String> = Vec::new();
        let mut i: usize = 0;
        while i < names.len()
            invariant
                i <= names@.len(),
                text::texts(names@) == order::sorted_list(self@.strings),
                all == needles_of(self@.strings),
                text::texts(out@) == all.take(i as int),
            decreases names@.len() - i,
        {
            let ghost before = text::texts(out@);
            out.push(names[i].as_str().to_lowercase());
            proof {
                assert(text::texts(names@)[i as int] == names@[i as int]@);
                assert(text::texts(out@) =~= before.push(all[i as int]));
                assert(text::texts(out@) =~= all.take(i + 1));
            }
            i += 1;
        }
        proof {
            assert(all.take(all.len() as int) =~= all);
        }
        out
    }

    /// Scans the contents of files for known strings and known hashes.
    pub fn scan_content(&self, files: &[(&str, &str)]) -> (r: Vec<Finding>)
        ensures
            package::findings_of(r@) == content_findings(
                self@,
                recipe::borrowed(files@),
                files@.len(),
            ),
    {
        let needles = self.needles();
        let hashing = !self.bad_sha256.is_empty();
        let ghost all = recipe::borrowed(files@);
        let mut out: Vec<Finding> = Vec::new();
        let mut i: usize = 0;
        proof {
            assert(package::findings_of(out@) =~= Seq::<FindingView>::empty());
        }
        while i < files.len()
            invariant
                i <= files@.len(),
                all == recipe::borrowed(files@),
                text::texts(needles@) == needles_of(self@.strings),
                hashing == (self@.hashes != Set::<Seq<char>>::empty()),
                package::findings_of(out@) == content_findings(self@, all, i as nat),
            decreases files@.len() - i,
        {
            let (name, content) = files[i];
            let haystack = content.to_lowercase();
            let mut found = if hashing {
                let digest = digest::sha256_hex(content.as_bytes());
                check_file(
                    &needles,
                    &self.bad_sha256,
                    name,
                    haystack.as_str(),
                    Some(digest.as_str()),
                )
            } else {
                check_file(&needles, &self.bad_sha256, name, haystack.as_str(), None)
            };
            proof {
                assert(all[i as int] == (name@, content@));
                package::lemma_findings_add(out@, found@);
            }
            out.append(&mut found);
            i += 1;
        }
        out
    }
}

impl Default for Indicators {
    fn default() -> (r: Indicators)
        ensures
            r@ == no_indicators(),
    {
        Indicators::empty()
    }
}

/// Where the feed of the user is kept, from `XDG_DATA_HOME` and `HOME`.
pub fn user_feed_path(xdg: Option<&str>, home: Option<&str>) -> (r: Option<String>)
    ensures
        text::opt_text(r) == paths::data_place(
            text::opt_slice(xdg),
            text::opt_slice(home),
            "ioc.json"@,
        ),
{
    paths::data_file(xdg, home, "ioc.json")
}

/// The feed to store when another one is imported into what is stored, if
/// anything is.
pub fn import_feed(stored: Option<Indicators>, incoming: Indicators) -> (r: Indicators)
    ensures
        r@ == imported(
            match stored {
                Some(s) => Some(s@),
                None => None,
            },
            incoming@,
        ),
        r@ == merged(
            (match stored {
                Some(s) => s@,
                None => no_indicators(),
            }),
            incoming@,
        ),
{
    let mut current = match stored {
        Some(s) => s,
        None => Indicators::empty(),
    };
    current.merge(incoming);
    current
}

/// Merging loses nothing, adds nothing of its own, and merging the same
/// indicators again changes nothing.
pub proof fn law_merge_is_union(a: IndicatorsView, b: IndicatorsView)
    ensures
        merged(a, b) == merged(b, a),
        merged(merged(a, b), b) == merged(a, b),
        a.strings.subset_of(merged(a, b).strings),
        a.packages.subset_of(merged(a, b).packages),
        a.maintainers.subset_of(merged(a, b).maintainers),
        a.hashes.subset_of(merged(a, b).hashes),
{
    assert(merged(a, b) =~= merged(b, a));
    assert(merged(merged(a, b), b) =~= merged(a, b));
}

/// Every finding of a list is critical.
pub open spec fn all_critical(fs: Seq<FindingView>) -> bool {
    forall|i: int| 0 <= i < fs.len() ==> (#[trigger] fs[i]).severity == Severity::Critical
}

proof fn lemma_string_findings(
    needles: Seq<Seq<char>>,
    file: Seq<char>,
    haystack: Seq<char>,
    n: nat,
)
    ensures
        all_critical(string_findings(needles, file, haystack, n)),
        (exists|i: int| 0 <= i < n && text::contains_text(haystack, #[trigger] needles[i]))
            <==> string_findings(needles, file, haystack, n).len() > 0,
    decreases n,
{
    if n > 0 {
        lemma_string_findings(needles, file, haystack, (n - 1) as nat);
        if exists|i: int| 0 <= i < n && text::contains_text(haystack, #[trigger] needles[i]) {
            let i = choose|i: int|
                0 <= i < n && text::contains_text(haystack, #[trigger] needles[i]);
            if i < n - 1 {
                assert(text::contains_text(haystack, needles[i]));
            }
        }
    }
}

/// Every match of an indicator is critical.
pub proof fn law_matches_are_critical(
    ind: IndicatorsView,
    name: Seq<char>,
    maintainer: Option<Seq<char>>,
    files: Seq<(Seq<char>, Seq<char>)>,
    n: nat,
)
    ensures
        all_critical(identity_findings(ind, name, maintainer)),
        all_critical(content_findings(ind, files, n)),
    decreases n,
{
    if n > 0 {
        law_matches_are_critical(ind, name, maintainer, files, (n - 1) as nat);
        lemma_string_findings(
            needles_of(ind.strings),
            files[n - 1].0,
            unicode_lowercase(files[n - 1].1),
            needles_of(ind.strings).len(),
        );
    }
}

/// The content of a file holds a known string, or its digest is known.
pub open spec fn is_known_bad(ind: IndicatorsView, content: Seq<char>) -> bool {
    ||| ind.hashes.contains(digest_of(content))
    ||| exists|s: Seq<char>|
        #[trigger] ind.strings.contains(s) && text::contains_text(
            unicode_lowercase(content),
            unicode_lowercase(s),
        )
}

/// Among the contents of files there are findings if and only if one of them
/// holds a known string or has a known digest.
pub proof fn law_content_findings_iff_known(
    ind: IndicatorsView,
    files: Seq<(Seq<char>, Seq<char>)>,
    n: nat,
)
    requires
        n <= files.len(),
        ind.strings.finite(),
    ensures
        content_findings(ind, files, n).len() > 0 <==> exists|i: int|
            0 <= i < n && is_known_bad(ind, (#[trigger] files[i]).1),
    decreases n,
{
    if n > 0 {
        law_content_findings_iff_known(ind, files, (n - 1) as nat);
        let (file, content) = files[n - 1];
        let needles = needles_of(ind.strings);
        let list = sort::lemma_sortable(ind.strings);
        let hay = unicode_lowercase(content);
        lemma_string_findings(needles, file, hay, needles.len());
        let here = file_findings(needles, ind.hashes, file, hay, digest_of(content));
        assert(here.len() > 0 <==> is_known_bad(ind, content)) by {
            if exists|i: int|
                0 <= i < needles.len() && text::contains_text(hay, #[trigger] needles[i]) {
                let i = choose|i: int|
                    0 <= i < needles.len() && text::contains_text(hay, #[trigger] needles[i]);
                assert(list.to_set().contains(list[i]));
                assert(ind.strings.contains(list[i]));
            }
            if exists|s: Seq<char>| #[trigger]
                ind.strings.contains(s) && text::contains_text(hay, unicode_lowercase(s)) {
                let s = choose|s: Seq<char>| #[trigger]
                    ind.strings.contains(s) && text::contains_text(hay, unicode_lowercase(s));
                assert(list.to_set().contains(s));
                let i = choose|i: int| 0 <= i < list.len() && list[i] == s;
                assert(needles[i] == unicode_lowercase(s));
            }
        }
        if content_findings(ind, files, n).len() > 0 {
            if here.len() > 0 {
                assert(is_known_bad(ind, files[n - 1].1));
            }
        }
        if exists|i: int| 0 <= i < n && is_known_bad(ind, (#[trigger] files[i]).1) {
            let i = choose|i: int| 0 <= i < n && is_known_bad(ind, (#[trigger] files[i]).1);
            if i == n - 1 {
                assert(here.len() > 0);
            }
        }
    }
}

/// Findings that hold all of a list of critical ones are refused, if the list
/// is not empty.
pub proof fn law_any_match_refuses(
    before: Seq<FindingView>,
    matches: Seq<FindingView>,
    after: Seq<FindingView>,
)
    requires
        all_critical(matches),
        matches.len() > 0,
    ensures
        score::decision(before + matches + after) == package::Decision::Refused,
{
    let all = before + matches + after;
    assert(all[before.len() as int] == matches[0]);
    score::law_critical_refuses(all, before.len() as int);
}

/// The id of a finding on the contents of a file.
pub open spec fn is_content_id(id: Seq<char>) -> bool {
    id == "ioc.bad-string"@ || id == "ioc.bad-hash"@
}

/// Findings on the contents of files are about strings and hashes only.
pub proof fn law_content_ids(ind: IndicatorsView, files: Seq<(Seq<char>, Seq<char>)>, n: nat)
    ensures
        forall|i: int|
            0 <= i < content_findings(ind, files, n).len() ==> is_content_id(
                (#[trigger] content_findings(ind, files, n)[i]).id,
            ),
    decreases n,
{
    if n > 0 {
        law_content_ids(ind, files, (n - 1) as nat);
        let needles = needles_of(ind.strings);
        let (file, content) = files[n - 1];
        let before = content_findings(ind, files, (n - 1) as nat);
        let here = file_findings(
            needles,
            ind.hashes,
            file,
            unicode_lowercase(content),
            digest_of(content),
        );
        lemma_string_ids(needles, file, unicode_lowercase(content), needles.len());
        assert forall|i: int| 0 <= i < content_findings(ind, files, n).len() implies is_content_id(
            (#[trigger] content_findings(ind, files, n)[i]).id,
        ) by {
            if i < before.len() {
                assert(content_findings(ind, files, n)[i] == before[i]);
            } else {
                assert(content_findings(ind, files, n)[i] == here[i - before.len()]);
            }
        }
    }
}

proof fn lemma_string_ids(needles: Seq<Seq<char>>, file: Seq<char>, haystack: Seq<char>, n: nat)
    ensures
        forall|i: int|
            0 <= i < string_findings(needles, file, haystack, n).len() ==> is_content_id(
                (#[trigger] string_findings(needles, file, haystack, n)[i]).id,
            ),
    decreases n,
{
    if n > 0 {
        lemma_string_ids(needles, file, haystack, (n - 1) as nat);
        let before = string_findings(needles, file, haystack, (n - 1) as nat);
        let now = string_findings(needles, file, haystack, n);
        assert forall|i: int| 0 <= i < now.len() implies is_content_id((#[trigger] now[i]).id) by {
            if i < before.len() {
                assert(now[i] == before[i]);
            }
        }
    }
}

/// A finding of this id is among them.
pub open spec fn names_id(fs: Seq<FindingView>, id: Seq<char>) -> bool {
    exists|i: int| 0 <= i < fs.len() && (#[trigger] fs[i]).id == id
}

/// A package is reported by its name exactly if the name is listed, and by its
/// maintainer exactly if the account is.
pub proof fn law_identity_is_checked(
    ind: IndicatorsView,
    name: Seq<char>,
    maintainer: Option<Seq<char>>,
)
    ensures
        names_id(identity_findings(ind, name, maintainer), "ioc.bad-package"@)
            <==> ind.packages.contains(name),
        names_id(identity_findings(ind, name, maintainer), "ioc.bad-maintainer"@) <==> (maintainer
            matches Some(m) && ind.maintainers.contains(m)),
        all_critical(identity_findings(ind, name, maintainer)),
{
    reveal_strlit("ioc.bad-package");
    reveal_strlit("ioc.bad-maintainer");
    assert("ioc.bad-package"@[8] != "ioc.bad-maintainer"@[8]);
    let fs = identity_findings(ind, name, maintainer);
    let n: int = if ind.packages.contains(name) {
        1
    } else {
        0
    };
    if n == 1 {
        assert(fs[0].id == "ioc.bad-package"@);
    }
    if let Some(m) = maintainer {
        if ind.maintainers.contains(m) {
            assert(fs[n].id == "ioc.bad-maintainer"@);
        }
    }
}

/// A file that holds a listed string, in whatever case, is reported under its
/// name, and so is one whose digest is listed; both are critical.
pub proof fn law_known_content_is_reported(
    ind: IndicatorsView,
    files: Seq<(Seq<char>, Seq<char>)>,
    k: int,
    s: Seq<char>,
    a: Seq<char>,
    b: Seq<char>,
)
    requires
        0 <= k < files.len(),
        ind.strings.finite(),
    ensures
        ind.strings.contains(s) && unicode_lowercase(files[k].1) == a + unicode_lowercase(s) + b
            ==> exists|i: int|
            0 <= i < content_findings(ind, files, files.len()).len() && {
                let f = #[trigger] content_findings(ind, files, files.len())[i];
                f.id == "ioc.bad-string"@ && f.severity == Severity::Critical && f.location == Some(
                    files[k].0,
                )
            },
        ind.hashes.contains(
            text::hex_of(digest::sha256_digest(utf8::encode_utf8(files[k].1))),
        ) ==> exists|i: int|
            0 <= i < content_findings(ind, files, files.len()).len() && {
                let f = #[trigger] content_findings(ind, files, files.len())[i];
                f.id == "ioc.bad-hash"@ && f.severity == Severity::Critical && f.location == Some(
                    files[k].0,
                )
            },
{
    let needles = needles_of(ind.strings);
    let list = sort::lemma_sortable(ind.strings);
    let (file, content) = files[k];
    let hay = unicode_lowercase(content);
    let here = file_findings(needles, ind.hashes, file, hay, digest_of(content));
    let all = content_findings(ind, files, files.len());
    if ind.strings.contains(s) && hay == a + unicode_lowercase(s) + b {
        assert(list.to_set().contains(s));
        let i = choose|i: int| 0 <= i < list.len() && list[i] == s;
        assert(needles[i] == unicode_lowercase(s));
        text::lemma_holds_pattern(a, unicode_lowercase(s), b);
        lemma_needle_is_reported(needles, file, hay, needles.len(), i);
        let found = string_findings(needles, file, hay, needles.len());
        let f = critical_finding(
            "ioc.bad-string"@,
            "Recipe references known IoC '"@ + needles[i] + "'"@,
            STRING_DETAIL@,
            Some(file),
        );
        let j = choose|j: int| 0 <= j < found.len() && found[j] == f;
        assert(here[j] == f);
        lemma_file_is_reported(ind, files, files.len(), k, f);
        let m = choose|m: int| 0 <= m < all.len() && all[m] == f;
        assert(all[m].id == "ioc.bad-string"@);
    }
    if ind.hashes.contains(digest_of(content)) {
        let f = critical_finding(
            "ioc.bad-hash"@,
            "File '"@ + file + "' matches a known-malicious hash"@,
            HASH_DETAIL@,
            Some(file),
        );
        assert(here[here.len() - 1] == f);
        lemma_file_is_reported(ind, files, files.len(), k, f);
        let m = choose|m: int| 0 <= m < all.len() && all[m] == f;
        assert(all[m].id == "ioc.bad-hash"@);
    }
}

proof fn lemma_needle_is_reported(
    needles: Seq<Seq<char>>,
    file: Seq<char>,
    haystack: Seq<char>,
    n: nat,
    i: int,
)
    requires
        0 <= i < n <= needles.len(),
        text::contains_text(haystack, needles[i]),
    ensures
        string_findings(needles, file, haystack, n).contains(
            critical_finding(
                "ioc.bad-string"@,
                "Recipe references known IoC '"@ + needles[i] + "'"@,
                STRING_DETAIL@,
                Some(file),
            ),
        ),
    decreases n,
{
    let before = string_findings(needles, file, haystack, (n - 1) as nat);
    let now = string_findings(needles, file, haystack, n);
    let f = critical_finding(
        "ioc.bad-string"@,
        "Recipe references known IoC '"@ + needles[i] + "'"@,
        STRING_DETAIL@,
        Some(file),
    );
    if i == n - 1 {
        assert(now[before.len() as int] == f);
    } else {
        lemma_needle_is_reported(needles, file, haystack, (n - 1) as nat, i);
        let j = choose|j: int| 0 <= j < before.len() && before[j] == f;
        assert(now[j] == f);
    }
}

proof fn lemma_file_is_reported(
    ind: IndicatorsView,
    files: Seq<(Seq<char>, Seq<char>)>,
    n: nat,
    k: int,
    f: FindingView,
)
    requires
        0 <= k < n <= files.len(),
        file_findings(
            needles_of(ind.strings),
            ind.hashes,
            files[k].0,
            unicode_lowercase(files[k].1),
            digest_of(files[k].1),
        ).contains(f),
    ensures
        content_findings(ind, files, n).contains(f),
    decreases n,
{
    let before = content_findings(ind, files, (n - 1) as nat);
    let now = content_findings(ind, files, n);
    let here = file_findings(
        needles_of(ind.strings),
        ind.hashes,
        files[n - 1].0,
        unicode_lowercase(files[n - 1].1),
        digest_of(files[n - 1].1),
    );
    if k == n - 1 {
        let i = choose|i: int| 0 <= i < here.len() && here[i] == f;
        assert(now[before.len() + i] == f);
    } else {
        lemma_file_is_reported(ind, files, (n - 1) as nat, k, f);
        let i = choose|i: int| 0 <= i < before.len() && before[i] == f;
        assert(now[i] == f);
    }
}

/// Content that holds no listed string and has no listed digest gives no finding,
/// so nothing is reported that is not known.
pub proof fn law_unknown_content_is_not_reported(
    ind: IndicatorsView,
    files: Seq<(Seq<char>, Seq<char>)>,
)
    requires
        ind.strings.finite(),
        forall|k: int, s: Seq<char>|
            0 <= k < files.len() && #[trigger] ind.strings.contains(s) ==> !text::contains_text(
                unicode_lowercase((#[trigger] files[k]).1),
                unicode_lowercase(s),
            ),
        forall|k: int|
            0 <= k < files.len() ==> !ind.hashes.contains(
                text::hex_of(digest::sha256_digest(utf8::encode_utf8((#[trigger] files[k]).1))),
            ),
    ensures
        content_findings(ind, files, files.len()).len() == 0,
{
    law_content_findings_iff_known(ind, files, files.len());
    if exists|i: int| 0 <= i < files.len() && is_known_bad(ind, (#[trigger] files[i]).1) {
        let i = choose|i: int| 0 <= i < files.len() && is_known_bad(ind, (#[trigger] files[i]).1);
        if !ind.hashes.contains(digest_of(files[i].1)) {
            let s = choose|s: Seq<char>| #[trigger]
                ind.strings.contains(s) && text::contains_text(
                    unicode_lowercase(files[i].1),
                    unicode_lowercase(s),
                );
            assert(ind.strings.contains(s));
        }
    }
}

/// Merging holds, in each list, exactly what either holds there; the built-in
/// indicators are the three documented payload names and nothing else.
pub proof fn law_merging_and_the_baseline(a: IndicatorsView, b: IndicatorsView, s: Seq<char>)
    ensures
        merged(a, b).packages.contains(s) <==> a.packages.contains(s) || b.packages.contains(s),
        merged(a, b).maintainers.contains(s) <==> a.maintainers.contains(s)
            || b.maintainers.contains(s),
        merged(a, b).strings.contains(s) <==> a.strings.contains(s) || b.strings.contains(s),
        merged(a, b).hashes.contains(s) <==> a.hashes.contains(s) || b.hashes.contains(s),
        baseline().strings.contains(s) <==> s == "atomic-lockfile"@ || s == "js-digest"@ || s
            == "lockfile-js"@,
        !baseline().packages.contains(s) && !baseline().maintainers.contains(s)
            && !baseline().hashes.contains(s),
        !no_indicators().packages.contains(s) && !no_indicators().maintainers.contains(s)
            && !no_indicators().strings.contains(s) && !no_indicators().hashes.contains(s),
{
}

/// The built-in indicators are always in force, whatever a feed holds, and so is
/// everything that the feed holds; importing keeps what was stored and adds what
/// comes in.
pub proof fn law_feeds_only_add(feed: IndicatorsView, stored: IndicatorsView, s: Seq<char>)
    ensures
        effective(Some(feed)).strings.contains(s) <==> s == "atomic-lockfile"@ || s
            == "js-digest"@ || s == "lockfile-js"@ || feed.strings.contains(s),
        effective(None).strings.contains(s) <==> s == "atomic-lockfile"@ || s == "js-digest"@ || s
            == "lockfile-js"@,
        effective(Some(feed)).packages == feed.packages,
        effective(Some(feed)).maintainers == feed.maintainers,
        effective(Some(feed)).hashes == feed.hashes,
        imported(None, feed) == feed,
        imported(Some(stored), feed).strings.contains(s) <==> stored.strings.contains(s)
            || feed.strings.contains(s),
        imported(Some(stored), feed).packages.contains(s) <==> stored.packages.contains(s)
            || feed.packages.contains(s),
        imported(Some(stored), feed).maintainers.contains(s) <==> stored.maintainers.contains(s)
            || feed.maintainers.contains(s),
        imported(Some(stored), feed).hashes.contains(s) <==> stored.hashes.contains(s)
            || feed.hashes.contains(s),
{
    assert(effective(Some(feed)).packages =~= feed.packages);
    assert(effective(Some(feed)).maintainers =~= feed.maintainers);
    assert(effective(Some(feed)).hashes =~= feed.hashes);
    assert(imported(None, feed) =~= feed);
}

/// A name and an account are each reported at most once, and say which they are.
pub proof fn law_identity_is_reported_once(
    ind: IndicatorsView,
    name: Seq<char>,
    m: Seq<char>,
)
    ensures
        identity_findings(ind, name, None).len() == (if ind.packages.contains(name) {
            1int
        } else {
            0
        }),
        identity_findings(ind, name, Some(m)).len() == (if ind.packages.contains(name) {
            1int
        } else {
            0
        }) + (if ind.maintainers.contains(m) {
            1int
        } else {
            0
        }),
        ind.packages.contains(name) ==> identity_findings(ind, name, Some(m))[0].title
            == "Package '"@ + name + "' is on a known-malicious list"@,
        ind.maintainers.contains(m) ==> identity_findings(ind, name, Some(m)).last().title
            == "Maintainer '"@ + m + "' is a known-bad account"@,
{
}

} // verus!
