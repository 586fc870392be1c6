//! The engine that decides whether a package can be vouched for.
//!
//! It combines trust signals, static findings and indicators of compromise into
//! a single verdict.

use crate::ioc;
use crate::ioc::{Indicators, IndicatorsView};
use crate::package;
use crate::package::{Decision, Finding, FindingView, PackageMeta, Verdict};
use crate::recipe;
use crate::recipe::SourceBundle;
use crate::scan;
use crate::score;
use crate::text;
use crate::trust;
use vstd::prelude::*;

verus! {

/// All findings on a package: trust signals, static findings, and indicators on
/// its identity and on its files.
pub open spec fn all_findings(
    meta: PackageMeta,
    bundle: SourceBundle,
    ind: IndicatorsView,
    now: int,
) -> Seq<FindingView> {
    trust::signals_at(meta, now) + recipe_findings(
        meta.name@,
        text::opt_text(meta.maintainer),
        bundle,
        ind,
    )
}

/// The findings on a recipe: static findings, and indicators on the identity of
/// the package and on its files.
pub open spec fn recipe_findings(
    name: Seq<char>,
    maintainer: Option<Seq<char>>,
    bundle: SourceBundle,
    ind: IndicatorsView,
) -> Seq<FindingView> {
    scan::findings_on_bundle(bundle) + ioc::identity_findings(ind, name, maintainer)
        + ioc::content_findings(
        ind,
        recipe::bundle_files(bundle),
        recipe::bundle_files(bundle).len(),
    )
}

/// A verdict says of a package what its findings give.
pub open spec fn is_verdict_on(v: Verdict, name: Seq<char>, fs: Seq<FindingView>) -> bool {
    &&& v.package@ == name
    &&& v.score == score::score(fs)
    &&& v.decision == score::decision(fs)
    &&& package::findings_of(v.findings@) == score::worst_first(fs)
}

fn findings_on_recipe(
    name: &str,
    maintainer: Option<&str>,
    bundle: &SourceBundle,
    ind: &Indicators,
) -> (r: Vec<Finding>)
    ensures
        package::findings_of(r@) == recipe_findings(
            name@,
            text::opt_slice(maintainer),
            *bundle,
            ind@,
        ),
{
    let mut out = scan::evaluate(bundle);
    let mut identity = ind.check_meta(name, maintainer);
    let files = bundle.files();
    let mut content = ind.scan_content(files.as_slice());
    proof {
        package::lemma_findings_add(out@, identity@);
        package::lemma_findings_add(out@ + identity@, content@);
    }
    out.append(&mut identity);
    out.append(&mut content);
    out
}

/// Vets a package end to end. `now` is the current Unix timestamp in seconds,
/// by which recent updates are judged.
pub fn evaluate(meta: &PackageMeta, bundle: &SourceBundle, ind: &Indicators, now: i64) -> (r:
    Verdict)
    ensures
        is_verdict_on(r, meta.name@, all_findings(*meta, *bundle, ind@, now as int)),
{
    let mut out = trust::evaluate_at(meta, now);
    let maintainer = match &meta.maintainer {
        Some(m) => Some(m.as_str()),
        None => None,
    };
    let mut more = findings_on_recipe(meta.name.as_str(), maintainer, bundle, ind);
    proof {
        package::lemma_findings_add(out@, more@);
    }
    out.append(&mut more);
    score::build_verdict(meta.name.as_str(), out)
}

/// Vets a recipe without metadata: a local directory, or a cloned repository
/// that is about to be built.
pub fn scan_only(name: &str, bundle: &SourceBundle, ind: &Indicators) -> (r: Verdict)
    ensures
        is_verdict_on(r, name@, recipe_findings(name@, None, *bundle, ind@)),
{
    let out = findings_on_recipe(name, None, bundle, ind);
    score::build_verdict(name, out)
}

/// A package whose name or maintainer is known to be bad is refused, and so is
/// a recipe of which a file holds a known string or has a known digest.
pub proof fn law_known_bad_is_refused(
    meta: PackageMeta,
    bundle: SourceBundle,
    ind: Indicators,
    now: int,
)
    requires
        ({
            ||| ind@.packages.contains(meta.name@)
            ||| meta.maintainer matches Some(m) && ind@.maintainers.contains(m@)
            ||| exists|i: int|
                0 <= i < recipe::bundle_files(bundle).len() && ioc::is_known_bad(
                    ind@,
                    (#[trigger] recipe::bundle_files(bundle)[i]).1,
                )
        }),
    ensures
        score::decision(all_findings(meta, bundle, ind@, now)) == Decision::Refused,
{
    let maintainer = text::opt_text(meta.maintainer);
    let files = recipe::bundle_files(bundle);
    let trusted = trust::signals_at(meta, now);
    let scanned = scan::findings_on_bundle(bundle);
    let identity = ioc::identity_findings(ind@, meta.name@, maintainer);
    let content = ioc::content_findings(ind@, files, files.len());
    ind.bad_strings.lemma_finite();
    ioc::law_matches_are_critical(ind@, meta.name@, maintainer, files, files.len());
    ioc::law_content_findings_iff_known(ind@, files, files.len());
    let all = all_findings(meta, bundle, ind@, now);
    if content.len() > 0 {
        let before = trusted + scanned + identity;
        assert(all =~= before + content + Seq::<FindingView>::empty());
        ioc::law_any_match_refuses(before, content, Seq::empty());
    } else {
        let before = trusted + scanned;
        assert(identity.len() > 0);
        assert(all =~= before + identity + content);
        ioc::law_any_match_refuses(before, identity, content);
    }
}

/// Metadata can only add findings: what is refused on its recipe alone is
/// refused with its metadata too.
pub proof fn law_metadata_only_raises(
    meta: PackageMeta,
    bundle: SourceBundle,
    ind: IndicatorsView,
    now: int,
)
    ensures
        score::has_critical(recipe_findings(meta.name@, None, bundle, ind)) ==> score::decision(
            all_findings(meta, bundle, ind, now),
        ) == Decision::Refused,
{
    let alone = recipe_findings(meta.name@, None, bundle, ind);
    let all = all_findings(meta, bundle, ind, now);
    if score::has_critical(alone) {
        let i = choose|i: int|
            0 <= i < alone.len() && (#[trigger] alone[i]).severity == package::Severity::Critical;
        let t = trust::signals_at(meta, now);
        let a = scan::findings_on_bundle(bundle);
        let b = ioc::identity_findings(ind, meta.name@, None);
        let b2 = ioc::identity_findings(ind, meta.name@, text::opt_text(meta.maintainer));
        let extra = b2.len() - b.len();
        assert(b.is_prefix_of(b2));
        if i < a.len() + b.len() {
            assert(all[t.len() + i] == alone[i]);
            score::law_critical_refuses(all, t.len() + i);
        } else {
            assert(all[t.len() + i + extra] == alone[i]);
            score::law_critical_refuses(all, t.len() + i + extra);
        }
    }
}

/// An id that only metadata can give: a trust signal, or a known maintainer.
pub open spec fn is_metadata_id(id: Seq<char>) -> bool {
    "trust."@.is_prefix_of(id) || id == "ioc.bad-maintainer"@
}

/// A verdict without metadata shows exactly what the scan and the indicators
/// found on the recipe and its name, and nothing that only metadata could give.
pub proof fn law_scan_needs_no_metadata(
    v: Verdict,
    name: Seq<char>,
    bundle: SourceBundle,
    ind: IndicatorsView,
)
    requires
        is_verdict_on(v, name, recipe_findings(name, None, bundle, ind)),
    ensures
        package::findings_of(v.findings@).to_multiset() == recipe_findings(
            name,
            None,
            bundle,
            ind,
        ).to_multiset(),
        forall|i: int|
            0 <= i < v.findings@.len() ==> !is_metadata_id((#[trigger] v.findings@[i]).id@),
{
    let fs = recipe_findings(name, None, bundle, ind);
    let files = recipe::bundle_files(bundle);
    let scanned = scan::findings_on_bundle(bundle);
    let identity = ioc::identity_findings(ind, name, None);
    let content = ioc::content_findings(ind, files, files.len());
    score::law_findings_are_kept(fs);
    scan::law_scan_ids(bundle);
    ioc::law_content_ids(ind, files, files.len());
    lemma_other_ids();
    assert forall|k: int| 0 <= k < fs.len() implies !is_metadata_id((#[trigger] fs[k]).id) by {
        if k < scanned.len() {
            assert(fs[k] == scanned[k]);
            lemma_scan_id_is_other(scanned[k].id);
        } else if k < scanned.len() + identity.len() {
            assert(fs[k] == identity[k - scanned.len()]);
        } else {
            assert(fs[k] == content[k - scanned.len() - identity.len()]);
        }
    }
    let shown = package::findings_of(v.findings@);
    assert forall|i: int| 0 <= i < v.findings@.len() implies !is_metadata_id(
        (#[trigger] v.findings@[i]).id@,
    ) by {
        assert(shown[i].id == v.findings@[i].id@);
        assert(shown.contains(shown[i]));
        assert(fs.contains(shown[i]));
        let k = choose|k: int| 0 <= k < fs.len() && fs[k] == shown[i];
        assert(!is_metadata_id(fs[k].id));
    }
}

/// The ids of indicators on the name and on files are no ids of metadata.
proof fn lemma_other_ids()
    ensures
        !is_metadata_id("ioc.bad-package"@),
        !is_metadata_id("ioc.bad-string"@),
        !is_metadata_id("ioc.bad-hash"@),
{
    reveal_strlit("trust.");
    reveal_strlit("ioc.bad-maintainer");
    reveal_strlit("ioc.bad-package");
    reveal_strlit("ioc.bad-string");
    reveal_strlit("ioc.bad-hash");
    assert("trust."@[0] == 't');
    assert("ioc.bad-package"@.subrange(0, 6)[0] == 'i');
    assert("ioc.bad-string"@.subrange(0, 6)[0] == 'i');
    assert("ioc.bad-hash"@.subrange(0, 6)[0] == 'i');
    assert("ioc.bad-maintainer"@[8] == 'm');
    assert("ioc.bad-package"@[8] == 'p');
    assert("ioc.bad-string"@[8] == 's');
    assert("ioc.bad-hash"@[8] == 'h');
}

/// The id of a scan is no id of metadata.
proof fn lemma_scan_id_is_other(id: Seq<char>)
    requires
        scan::is_scan_id(id),
    ensures
        !is_metadata_id(id),
{
    reveal_strlit("scan.");
    reveal_strlit("trust.");
    reveal_strlit("ioc.bad-maintainer");
    assert(id.subrange(0, 5)[0] == id[0]);
    assert("scan."@[0] == 's');
    assert("trust."@[0] == 't');
    assert("ioc.bad-maintainer"@[0] == 'i');
    if "trust."@.is_prefix_of(id) {
        assert(id.subrange(0, 6)[0] == id[0]);
    }
}

/// A recipe of which a file holds one of the built-in names, compared in lower
/// case, is refused on the recipe alone, whatever the feed of the user adds.
pub proof fn law_built_in_names_refuse(
    v: Verdict,
    name: Seq<char>,
    bundle: SourceBundle,
    ind: Indicators,
    feed: Option<IndicatorsView>,
    i: int,
    bad: Seq<char>,
)
    requires
        is_verdict_on(v, name, recipe_findings(name, None, bundle, ind@)),
        ind@ == (match feed {
            Some(extra) => ioc::merged(ioc::baseline(), extra),
            None => ioc::baseline(),
        }),
        bad == "atomic-lockfile"@ || bad == "js-digest"@ || bad == "lockfile-js"@,
        0 <= i < recipe::bundle_files(bundle).len(),
        text::contains_text(
            ioc::unicode_lowercase(recipe::bundle_files(bundle)[i].1),
            ioc::unicode_lowercase(bad),
        ),
    ensures
        v.decision == Decision::Refused,
{
    let files = recipe::bundle_files(bundle);
    let before = scan::findings_on_bundle(bundle) + ioc::identity_findings(ind@, name, None);
    let content = ioc::content_findings(ind@, files, files.len());
    assert(ind@.strings.contains(bad));
    assert(ioc::is_known_bad(ind@, files[i].1));
    ind.bad_strings.lemma_finite();
    ioc::law_content_findings_iff_known(ind@, files, files.len());
    ioc::law_matches_are_critical(ind@, name, None, files, files.len());
    assert(recipe_findings(name, None, bundle, ind@) =~= before + content + Seq::<
        FindingView,
    >::empty());
    ioc::law_any_match_refuses(before, content, Seq::empty());
}

/// A verdict sees everything: a finding is among those on a package exactly if it
/// is a trust signal, a finding of the scan of any of its files, or an indicator
/// on its name, its maintainer or the content of its files.
pub proof fn law_every_source_of_findings_counts(
    meta: PackageMeta,
    bundle: SourceBundle,
    ind: IndicatorsView,
    now: int,
    f: FindingView,
)
    ensures
        all_findings(meta, bundle, ind, now).contains(f) <==> {
            ||| trust::signals_at(meta, now).contains(f)
            ||| scan::findings_on_bundle(bundle).contains(f)
            ||| ioc::identity_findings(ind, meta.name@, text::opt_text(meta.maintainer)).contains(f)
            ||| ioc::content_findings(
                ind,
                recipe::bundle_files(bundle),
                recipe::bundle_files(bundle).len(),
            ).contains(f)
        },
        recipe_findings(meta.name@, None, bundle, ind).contains(f) <==> {
            ||| scan::findings_on_bundle(bundle).contains(f)
            ||| ioc::identity_findings(ind, meta.name@, None).contains(f)
            ||| ioc::content_findings(
                ind,
                recipe::bundle_files(bundle),
                recipe::bundle_files(bundle).len(),
            ).contains(f)
        },
{
    let files = recipe::bundle_files(bundle);
    let maintainer = text::opt_text(meta.maintainer);
    let t = trust::signals_at(meta, now);
    let a = scan::findings_on_bundle(bundle);
    let b = ioc::identity_findings(ind, meta.name@, maintainer);
    let b0 = ioc::identity_findings(ind, meta.name@, None);
    let c = ioc::content_findings(ind, files, files.len());
    lemma_in_either(t, a + b + c, f);
    lemma_in_either(a + b, c, f);
    lemma_in_either(a, b, f);
    lemma_in_either(a + b0, c, f);
    lemma_in_either(a, b0, f);
}

proof fn lemma_in_either(a: Seq<FindingView>, b: Seq<FindingView>, f: FindingView)
    ensures
        (a + b).contains(f) <==> a.contains(f) || b.contains(f),
{
    let s = a + b;
    if a.contains(f) {
        let i = choose|i: int| 0 <= i < a.len() && a[i] == f;
        assert(s[i] == f);
    }
    if b.contains(f) {
        let i = choose|i: int| 0 <= i < b.len() && b[i] == f;
        assert(s[a.len() + i] == f);
    }
    if s.contains(f) {
        let i = choose|i: int| 0 <= i < s.len() && s[i] == f;
        if i < a.len() {
            assert(a[i] == f);
        } else {
            assert(b[i - a.len()] == f);
        }
    }
}

/// A verdict is on the package that was asked about, and shows every finding.
pub proof fn law_verdict_shows_what_was_found(v: Verdict, name: Seq<char>, fs: Seq<FindingView>)
    requires
        is_verdict_on(v, name, fs),
    ensures
        v.package@ == name,
        package::findings_of(v.findings@).to_multiset() == fs.to_multiset(),
        v.score <= 100,
        v.decision is Vouched ==> v.score < 25,
        v.score >= 60 ==> v.decision is Refused,
        25 <= v.score ==> !(v.decision is Vouched),
{
    score::law_findings_are_kept(fs);
    score::law_score_is_capped(fs);
    if !score::has_critical(fs) {
        score::law_score_decides(fs);
    }
}

} // verus!
