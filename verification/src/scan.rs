//! Static analysis of the recipe and its install hooks.
//!
//! There are two passes. The first tries a table of patterns on single lines.
//! The second knows the bodies of shell functions: a network call in a function
//! that must not make one, and a hook that runs as root.
//!
//! Findings are signals for review and scoring, not a verdict on their own.

use crate::package;
use crate::package::{Finding, FindingView, Severity};
use crate::pattern;
use crate::recipe;
use crate::recipe::SourceBundle;
use crate::text;
use vstd::prelude::*;
use vstd::utf8;

verus! {

/// Why installing a JavaScript package is a concern.
pub const JS_DETAIL: &'static str =
    "`npm/pnpm/yarn/bun install` pulls and executes arbitrary code from a separate registry that the AUR never reviewed. This is the exact mechanism of the 'Atomic Arch' attack (atomic-lockfile / js-digest).";

/// Why installing a Python package is a concern.
pub const PIP_DETAIL: &'static str =
    "`pip install` fetches and runs setup code from PyPI, outside any AUR review. Dependencies should be declared as packages, not pulled ad-hoc.";

/// Why piping a download into a shell is a concern.
pub const PIPE_DETAIL: &'static str =
    "`curl ... | sh` (or wget) runs remote code with no integrity check. The remote content can change at any time, after review.";

/// Why eBPF is a concern.
pub const EBPF_DETAIL: &'static str =
    "References to BPF maps, /sys/fs/bpf, libbpf or getdents64 hooking are hallmarks of the 'Atomic Arch' eBPF rootkit that hid its own files and processes. A normal package never needs this.";

/// Why decoding base64 is a concern.
pub const BASE64_DETAIL: &'static str =
    "Decoding base64 inline is a common way to hide a script or binary from a casual read of the PKGBUILD.";

/// Why `eval` is a concern.
pub const EVAL_DETAIL: &'static str =
    "`eval` runs constructed strings as code; combined with a download or decode it can hide what actually executes.";

/// Why a setuid bit is a concern.
pub const SETUID_DETAIL: &'static str =
    "Granting setuid/setgid to an installed file is a classic privilege escalation / persistence trick and is rarely legitimate in a PKGBUILD.";

/// Why persistence is a concern.
pub const PERSISTENCE_DETAIL: &'static str =
    "Touching systemd units, cron, profile.d or shell rc files lets code persist and re-run after install. Packages install their own units via the package(), not by editing system-wide rc files directly.";

/// Why a file-sharing host is a concern.
pub const HOST_DETAIL: &'static str =
    "Sources hosted on paste/temp services can be swapped silently and are not appropriate origins for a package.";

/// Why an IP address is a concern.
pub const IP_DETAIL: &'static str =
    "Fetching from a raw IP (rather than a versioned, named release URL) is unusual and harder to audit or trust.";

/// Why clearing the shell history is a concern.
pub const HISTORY_DETAIL: &'static str =
    "Disabling or wiping shell history during install is an evasion behavior with no legitimate packaging purpose.";

/// Why a network call in a build function is a concern.
pub const NET_DETAIL: &'static str =
    "Sources must be declared in source=() so makepkg fetches and checksums them. A network call inside this function pulls unverified content at build time — the dependency confusion vector behind 'Atomic Arch'.";

/// Why an install hook is a concern.
pub const HOOK_DETAIL: &'static str =
    "pacman runs install hooks as root. Read this function in full — it is the highest-impact code in the package and where the 'Atomic Arch' payload was triggered.";

/// A rule that is tried on single lines.
pub struct Rule {
    pub id: &'static str,
    pub severity: Severity,
    pub title: &'static str,
    pub detail: &'static str,
    pub pattern: &'static str,
}

/// The contents of a rule.
pub struct RuleView {
    pub id: Seq<char>,
    pub severity: Severity,
    pub title: Seq<char>,
    pub detail: Seq<char>,
    pub pattern: Seq<char>,
}

impl View for Rule {
    type V = RuleView;

    open spec fn view(&self) -> RuleView {
        RuleView {
            id: self.id@,
            severity: self.severity,
            title: self.title@,
            detail: self.detail@,
            pattern: self.pattern@,
        }
    }
}

/// The contents of a list of rules.
pub open spec fn rules_of(v: Seq<Rule>) -> Seq<RuleView> {
    Seq::new(v.len(), |i: int| v[i]@)
}

/// The rules that are tried on single lines.
pub open spec fn rule_table() -> Seq<RuleView> {
    seq![
        RuleView {
            id: "scan.js-pkg-install"@,
            severity: Severity::Critical,
            title: "Installs a JavaScript package during build/install"@,
            detail: JS_DETAIL@,
            pattern: pattern::JS_PKG_INSTALL@,
        },
        RuleView {
            id: "scan.pip-install"@,
            severity: Severity::High,
            title: "Installs a Python package during build/install"@,
            detail: PIP_DETAIL@,
            pattern: pattern::PIP_INSTALL@,
        },
        RuleView {
            id: "scan.pipe-to-shell"@,
            severity: Severity::Critical,
            title: "Pipes a downloaded file straight into a shell"@,
            detail: PIPE_DETAIL@,
            pattern: pattern::PIPE_TO_SHELL@,
        },
        RuleView {
            id: "scan.ebpf"@,
            severity: Severity::Critical,
            title: "Touches eBPF / kernel tracing facilities"@,
            detail: EBPF_DETAIL@,
            pattern: pattern::EBPF@,
        },
        RuleView {
            id: "scan.base64-decode"@,
            severity: Severity::High,
            title: "Decodes base64 (possible obfuscated payload)"@,
            detail: BASE64_DETAIL@,
            pattern: pattern::BASE64_DECODE@,
        },
        RuleView {
            id: "scan.eval"@,
            severity: Severity::Medium,
            title: "Uses `eval` (dynamic code execution)"@,
            detail: EVAL_DETAIL@,
            pattern: pattern::EVAL@,
        },
        RuleView {
            id: "scan.setuid"@,
            severity: Severity::High,
            title: "Sets a setuid/setgid bit"@,
            detail: SETUID_DETAIL@,
            pattern: pattern::SETUID@,
        },
        RuleView {
            id: "scan.persistence"@,
            severity: Severity::High,
            title: "Writes to an autostart / shell-init / scheduler location"@,
            detail: PERSISTENCE_DETAIL@,
            pattern: pattern::PERSISTENCE@,
        },
        RuleView {
            id: "scan.suspicious-host"@,
            severity: Severity::High,
            title: "Downloads from an ephemeral file-sharing host"@,
            detail: HOST_DETAIL@,
            pattern: pattern::SUSPICIOUS_HOST@,
        },
        RuleView {
            id: "scan.raw-ip-download"@,
            severity: Severity::Medium,
            title: "Downloads from a hardcoded IP address"@,
            detail: IP_DETAIL@,
            pattern: pattern::RAW_IP@,
        },
        RuleView {
            id: "scan.history-evasion"@,
            severity: Severity::Medium,
            title: "Clears shell history (anti-forensics)"@,
            detail: HISTORY_DETAIL@,
            pattern: pattern::HISTORY@,
        },
    ]
}

/// The rules that are tried on single lines.
pub fn rules() -> (r: Vec<Rule>)
    ensures
        rules_of(r@) == rule_table(),
{
    let r = vec![
        Rule {
            id: "scan.js-pkg-install",
            severity: Severity::Critical,
            title: "Installs a JavaScript package during build/install",
            detail: JS_DETAIL,
            pattern: pattern::JS_PKG_INSTALL,
        },
        Rule {
            id: "scan.pip-install",
            severity: Severity::High,
            title: "Installs a Python package during build/install",
            detail: PIP_DETAIL,
            pattern: pattern::PIP_INSTALL,
        },
        Rule {
            id: "scan.pipe-to-shell",
            severity: Severity::Critical,
            title: "Pipes a downloaded file straight into a shell",
            detail: PIPE_DETAIL,
            pattern: pattern::PIPE_TO_SHELL,
        },
        Rule {
            id: "scan.ebpf",
            severity: Severity::Critical,
            title: "Touches eBPF / kernel tracing facilities",
            detail: EBPF_DETAIL,
            pattern: pattern::EBPF,
        },
        Rule {
            id: "scan.base64-decode",
            severity: Severity::High,
            title: "Decodes base64 (possible obfuscated payload)",
            detail: BASE64_DETAIL,
            pattern: pattern::BASE64_DECODE,
        },
        Rule {
            id: "scan.eval",
            severity: Severity::Medium,
            title: "Uses `eval` (dynamic code execution)",
            detail: EVAL_DETAIL,
            pattern: pattern::EVAL,
        },
        Rule {
            id: "scan.setuid",
            severity: Severity::High,
            title: "Sets a setuid/setgid bit",
            detail: SETUID_DETAIL,
            pattern: pattern::SETUID,
        },
        Rule {
            id: "scan.persistence",
            severity: Severity::High,
            title: "Writes to an autostart / shell-init / scheduler location",
            detail: PERSISTENCE_DETAIL,
            pattern: pattern::PERSISTENCE,
        },
        Rule {
            id: "scan.suspicious-host",
            severity: Severity::High,
            title: "Downloads from an ephemeral file-sharing host",
            detail: HOST_DETAIL,
            pattern: pattern::SUSPICIOUS_HOST,
        },
        Rule {
            id: "scan.raw-ip-download",
            severity: Severity::Medium,
            title: "Downloads from a hardcoded IP address",
            detail: IP_DETAIL,
            pattern: pattern::RAW_IP,
        },
        Rule {
            id: "scan.history-evasion",
            severity: Severity::Medium,
            title: "Clears shell history (anti-forensics)",
            detail: HISTORY_DETAIL,
            pattern: pattern::HISTORY,
        },
    ];
    proof {
        assert(rules_of(r@) =~= rule_table());
    }
    r
}

/// A place in a file: its name and a line number.
pub open spec fn place(file: Seq<char>, line: nat) -> Seq<char> {
    file + ":"@ + text::dec(line)
}

fn place_of(file: &str, line: u128) -> (r: String)
    ensures
        r@ == place(file@, line as nat),
{
    let number = text::decimal(line);
    text::concat3(file, ":", number.as_str())
}

/// The finding of a rule that matched on a line.
pub open spec fn rule_finding(rule: RuleView, file: Seq<char>, line: nat) -> FindingView {
    FindingView {
        id: rule.id,
        severity: rule.severity,
        title: rule.title,
        detail: rule.detail,
        location: Some(place(file, line)),
    }
}

/// The findings of the first `n` rules on a line, given which of them matched.
pub open spec fn rule_findings(
    file: Seq<char>,
    line: nat,
    hits: Seq<bool>,
    n: nat,
) -> Seq<FindingView>
    decreases n,
{
    if n == 0 {
        Seq::empty()
    } else {
        let before = rule_findings(file, line, hits, (n - 1) as nat);
        if hits[n - 1] {
            before.push(rule_finding(rule_table()[n - 1], file, line))
        } else {
            before
        }
    }
}

/// A line whose first visible character is `#`.
pub open spec fn is_comment(line: Seq<char>) -> bool {
    text::trim_start(line).len() > 0 && text::trim_start(line)[0] == '#'
}

/// The findings on a line (counted from one), given which rules match it. A
/// comment line gives none, to cut obvious false positives.
pub open spec fn findings_on_line(
    file: Seq<char>,
    number: nat,
    line: Seq<char>,
    hits: Seq<bool>,
) -> Seq<FindingView> {
    if is_comment(line) {
        Seq::empty()
    } else {
        rule_findings(file, number, hits, rule_table().len())
    }
}

/// The findings on one line, given which rules match it.
pub fn line_findings(file: &str, number: u128, line: &str, hits: &Vec<bool>) -> (r: Vec<Finding>)
    requires
        hits@.len() == rule_table().len(),
    ensures
        package::findings_of(r@) == findings_on_line(file@, number as nat, line@, hits@),
{
    let mut out: Vec<Finding> = Vec::new();
    proof {
        assert(package::findings_of(out@) =~= Seq::<FindingView>::empty());
    }
    if text::first_visible_is(line, '#') {
        return out;
    }
    let table = rules();
    let mut i: usize = 0;
    while i < table.len()
        invariant
            i <= table@.len(),
            rules_of(table@) == rule_table(),
            hits@.len() == table@.len(),
            package::findings_of(out@) == rule_findings(file@, number as nat, hits@, i as nat),
        decreases table@.len() - i,
    {
        if hits[i] {
            let rule = &table[i];
            let finding = Finding::new(
                rule.id,
                rule.severity,
                String::from_str(rule.title),
                rule.detail,
                Some(place_of(file, number)),
            );
            proof {
                package::lemma_findings_push(out@, finding);
                assert(rules_of(table@)[i as int] == rule@);
            }
            out.push(finding);
        }
        i += 1;
    }
    out
}

/// Which rules match a line.
pub open spec fn hits_on(line: Seq<char>) -> Seq<bool> {
    Seq::new(rule_table().len(), |i: int| pattern::regex_matches(rule_table()[i].pattern, line))
}

fn hits(table: &Vec<Rule>, line: &str) -> (r: Vec<bool>)
    requires
        rules_of(table@) == rule_table(),
    ensures
        r@ == hits_on(line@),
{
    let mut out: Vec<bool> = Vec::new();
    let mut i: usize = 0;
    while i < table.len()
        invariant
            i <= table@.len(),
            rules_of(table@) == rule_table(),
            out@ == hits_on(line@).take(i as int),
        decreases table@.len() - i,
    {
        let ghost before = out@;
        proof {
            lemma_line_pattern(i as int);
            assert(rules_of(table@)[i as int] == table@[i as int]@);
        }
        out.push(pattern::is_match(table[i].pattern, line));
        proof {
            assert(out@ =~= hits_on(line@).take(i + 1));
        }
        i += 1;
    }
    proof {
        assert(out@ =~= hits_on(line@));
    }
    out
}

proof fn lemma_line_pattern(i: int)
    requires
        0 <= i < rule_table().len(),
    ensures
        pattern::is_line_pattern(rule_table()[i].pattern),
{
    let t = rule_table();
    assert(t.len() == 11);
    if i == 0 {
    } else if i == 1 {
    } else if i == 2 {
    } else if i == 3 {
    } else if i == 4 {
    } else if i == 5 {
    } else if i == 6 {
    } else if i == 7 {
    } else if i == 8 {
    } else if i == 9 {
    }
}

/// The findings on the first `n` lines.
pub open spec fn findings_on_lines(file: Seq<char>, lines: Seq<Seq<char>>, n: nat) -> Seq<
    FindingView,
>
    decreases n,
{
    if n == 0 {
        Seq::empty()
    } else {
        findings_on_lines(file, lines, (n - 1) as nat) + findings_on_line(
            file,
            n,
            lines[n - 1],
            hits_on(lines[n - 1]),
        )
    }
}

/// A shell function.
#[derive(Debug)]
pub struct ShellFunc {
    pub name: String,
    /// The line, counted from one, on which the function opens.
    pub start_line: usize,
    /// The line, counted from one, of its opening brace, where its body begins.
    pub body_line: usize,
    /// What stands between its braces.
    pub body: String,
}

/// The contents of a shell function.
pub struct ShellFuncView {
    pub name: Seq<char>,
    pub start_line: int,
    pub body_line: int,
    pub body: Seq<char>,
}

impl View for ShellFunc {
    type V = ShellFuncView;

    open spec fn view(&self) -> ShellFuncView {
        ShellFuncView {
            name: self.name@,
            start_line: self.start_line as int,
            body_line: self.body_line as int,
            body: self.body@,
        }
    }
}

/// The contents of a list of shell functions.
pub open spec fn funcs_of(v: Seq<ShellFunc>) -> Seq<ShellFuncView> {
    Seq::new(v.len(), |i: int| v[i]@)
}

/// The number of newlines among the first `n` bytes.
pub open spec fn newlines(bytes: Seq<u8>, n: int) -> int
    decreases n,
{
    if n <= 0 {
        0
    } else if bytes[n - 1] == 0x0a {
        newlines(bytes, n - 1) + 1
    } else {
        newlines(bytes, n - 1)
    }
}

/// The number of newlines before a byte offset, or in the whole text where it
/// is shorter.
pub open spec fn lines_before(s: Seq<char>, offset: int) -> int {
    let bytes = utf8::encode_utf8(s);
    newlines(
        bytes,
        if offset < bytes.len() {
            offset
        } else {
            bytes.len() as int
        },
    )
}

proof fn lemma_newlines(bytes: Seq<u8>, n: int)
    ensures
        0 <= newlines(bytes, n),
        n >= 0 ==> newlines(bytes, n) <= n,
    decreases n,
{
    if n > 0 {
        lemma_newlines(bytes, n - 1);
    }
}

/// The number of newlines before a byte offset, that is the line it is on,
/// counted from zero.
pub fn line_offset(s: &str, byte_offset: usize) -> (r: usize)
    ensures
        r == lines_before(s@, byte_offset as int),
        r <= byte_offset,
{
    let bytes = s.as_bytes();
    let mut count: usize = 0;
    let mut i: usize = 0;
    while i < byte_offset && i < bytes.len()
        invariant
            i <= byte_offset,
            i <= bytes@.len(),
            bytes@ == utf8::encode_utf8(s@),
            count == newlines(bytes@, i as int),
            count <= i,
        decreases byte_offset - i,
    {
        if bytes[i] == 0x0a {
            count += 1;
        }
        i += 1;
    }
    count
}

/// The place of the brace that closes what is open `depth` times at `i`.
pub open spec fn closing(bytes: Seq<u8>, i: int, depth: int) -> Option<int>
    decreases bytes.len() - i,
{
    if i >= bytes.len() {
        None
    } else if bytes[i] == 0x7b {
        closing(bytes, i + 1, depth + 1)
    } else if bytes[i] == 0x7d {
        if depth <= 1 {
            Some(i)
        } else {
            closing(bytes, i + 1, depth - 1)
        }
    } else {
        closing(bytes, i + 1, depth)
    }
}

/// The place of the brace that closes the one that stands before `open`.
fn find_closing(bytes: &[u8], open: usize) -> (r: Option<usize>)
    requires
        0 < open <= bytes@.len(),
    ensures
        match r {
            Some(i) => closing(bytes@, open as int, 1) == Some(i as int) && open <= i < bytes@.len()
                && bytes@[i as int] == 0x7d,
            None => closing(bytes@, open as int, 1) is None,
        },
{
    let mut depth: usize = 1;
    let mut i: usize = open;
    while i < bytes.len()
        invariant
            0 < open <= i <= bytes@.len(),
            1 <= depth <= i - open + 1,
            closing(bytes@, open as int, 1) == closing(bytes@, i as int, depth as int),
        decreases bytes@.len() - i,
    {
        if bytes[i] == 0x7b {
            depth += 1;
        } else if bytes[i] == 0x7d {
            if depth == 1 {
                return Some(i);
            }
            depth -= 1;
        }
        i += 1;
    }
    None
}

/// A header of a function starts and ends at character boundaries, and its last
/// character is the opening brace.
pub open spec fn is_header(
    content: Seq<char>,
    header: (Option<Seq<char>>, Option<Seq<char>>, int, int),
) -> bool {
    let bytes = utf8::encode_utf8(content);
    &&& 0 <= header.2 < header.3 <= bytes.len()
    &&& utf8::is_char_boundary(bytes, header.2)
    &&& utf8::is_char_boundary(bytes, header.3)
    &&& bytes[header.3 - 1] == 0x7b
}

/// The name in a header: the first of its two groups that took part.
pub open spec fn header_name(header: (Option<Seq<char>>, Option<Seq<char>>, int, int)) -> Seq<char> {
    match header.0 {
        Some(name) => name,
        None => match header.1 {
            Some(name) => name,
            None => Seq::empty(),
        },
    }
}

/// The number of newlines in the white space that a text starts with.
pub open spec fn leading_newlines(s: Seq<char>) -> int
    decreases s.len(),
{
    if s.len() == 0 || !text::is_white_space(s[0]) {
        0
    } else if s[0] == '\n' {
        1 + leading_newlines(s.drop_first())
    } else {
        leading_newlines(s.drop_first())
    }
}

/// The number of newlines in the white space that a text starts with.
fn newlines_ahead(s: &str) -> (r: usize)
    ensures
        r == leading_newlines(s@),
        r <= s@.len(),
{
    let cs = text::chars_of(s);
    let mut count: usize = 0;
    let mut i: usize = 0;
    proof {
        assert(cs@.subrange(0, cs@.len() as int) =~= s@);
    }
    while i < cs.len() && text::white_space(cs[i])
        invariant
            i <= cs@.len(),
            count <= i,
            count + leading_newlines(cs@.subrange(i as int, cs@.len() as int)) == leading_newlines(
                s@,
            ),
        decreases cs@.len() - i,
    {
        proof {
            assert(cs@.subrange(i as int, cs@.len() as int).drop_first() =~= cs@.subrange(
                i + 1,
                cs@.len() as int,
            ));
        }
        if cs[i] == '\n' {
            count += 1;
        }
        i += 1;
    }
    count
}

/// The line, counted from one, of the first visible character of a header.
pub open spec fn opening_line(
    content: Seq<char>,
    header: (Option<Seq<char>>, Option<Seq<char>>, int, int),
) -> int {
    let bytes = utf8::encode_utf8(content);
    newlines(bytes, header.2) + leading_newlines(
        utf8::decode_utf8(bytes.subrange(header.2, header.3 - 1)),
    ) + 1
}

/// The function that a header starts, if its braces close. It opens on the line of
/// the first visible character of the header: white space ahead of that belongs to
/// the lines before.
pub open spec fn function_at(
    content: Seq<char>,
    header: (Option<Seq<char>>, Option<Seq<char>>, int, int),
) -> Option<ShellFuncView> {
    let bytes = utf8::encode_utf8(content);
    match closing(bytes, header.3, 1) {
        Some(end) => Some(
            ShellFuncView {
                name: header_name(header),
                start_line: opening_line(content, header),
                body_line: newlines(bytes, header.3 - 1) + 1,
                body: utf8::decode_utf8(bytes.subrange(header.3, end)),
            },
        ),
        None => None,
    }
}

/// The functions that headers start, in order.
pub open spec fn functions_of_headers(
    content: Seq<char>,
    headers: Seq<(Option<Seq<char>>, Option<Seq<char>>, int, int)>,
) -> Seq<ShellFuncView>
    decreases headers.len(),
{
    if headers.len() == 0 {
        Seq::empty()
    } else {
        let before = functions_of_headers(content, headers.drop_last());
        match function_at(content, headers.last()) {
            Some(f) => before.push(f),
            None => before,
        }
    }
}

/// The part of a text between two byte offsets, the first at a character
/// boundary and the second at an ASCII character.
fn between(s: &str, from: usize, to: usize) -> (r: String)
    requires
        from <= to < utf8::encode_utf8(s@).len(),
        utf8::is_char_boundary(utf8::encode_utf8(s@), from as int),
        utf8::encode_utf8(s@)[to as int] < 0x80,
    ensures
        utf8::encode_utf8(r@) == utf8::encode_utf8(s@).subrange(from as int, to as int),
        r@ == utf8::decode_utf8(utf8::encode_utf8(s@).subrange(from as int, to as int)),
{
    let ghost bytes = utf8::encode_utf8(s@);
    let (_, tail) = s.split_at(from);
    proof {
        let rest = utf8::encode_utf8(tail@);
        utf8::encode_utf8_valid_utf8(tail@);
        assert(rest == bytes.subrange(from as int, bytes.len() as int));
        assert(rest[to - from] == bytes[to as int]);
        let b = rest[to - from];
        assert(b < 0x80 ==> !utf8::is_continuation_byte(b)) by {
            utf8::utf8_byte_ranges_bitwise(b);
        }
        utf8::is_char_boundary_iff_not_is_continuation_byte(rest, to - from);
    }
    let (body, _) = tail.split_at(to - from);
    proof {
        assert(utf8::encode_utf8(body@) == bytes.subrange(from as int, to as int));
        utf8::encode_utf8_decode_utf8(body@);
    }
    String::from_str(body)
}

/// A text has at least as many bytes as characters.
proof fn lemma_bytes_per_char(s: Seq<char>)
    ensures
        s.len() <= utf8::encode_utf8(s).len(),
    decreases s.len(),
{
    if s.len() > 0 {
        lemma_bytes_per_char(s.drop_first());
        assert(utf8::encode_scalar(s[0] as u32).len() >= 1);
    }
}

/// The line, counted from one, of the first visible character of a header.
fn line_of_header(
    content: &str,
    header: &(Option<String>, Option<String>, usize, usize),
) -> (r: usize)
    requires
        is_header(content@, pattern::capture_of(*header)),
    ensures
        r == opening_line(content@, pattern::capture_of(*header)),
{
    let ghost bytes = utf8::encode_utf8(content@);
    let start: usize = header.2;
    let brace: usize = header.3 - 1;
    let ahead = between(content, start, brace);
    proof {
        let part = bytes.subrange(start as int, brace as int);
        lemma_bytes_per_char(ahead@);
        assert(utf8::encode_utf8(ahead@) == part);
        lemma_newlines(bytes, start as int);
    }
    line_offset(content, start) + newlines_ahead(ahead.as_str()) + 1
}

/// The functions of a text whose headers were found, in order. A function whose
/// braces do not close is left out.
pub fn functions_at(
    content: &str,
    headers: &Vec<(Option<String>, Option<String>, usize, usize)>,
) -> (r: Vec<ShellFunc>)
    requires
        forall|i: int|
            0 <= i < headers@.len() ==> is_header(
                content@,
                #[trigger] pattern::captures_of(headers@)[i],
            ),
    ensures
        funcs_of(r@) == functions_of_headers(content@, pattern::captures_of(headers@)),
{
    let ghost all = pattern::captures_of(headers@);
    let bytes = content.as_bytes();
    let mut out: Vec<ShellFunc> = Vec::new();
    let mut i: usize = 0;
    proof {
        assert(funcs_of(out@) =~= Seq::<ShellFuncView>::empty());
    }
    while i < headers.len()
        invariant
            i <= headers@.len(),
            all == pattern::captures_of(headers@),
            bytes@ == utf8::encode_utf8(content@),
            forall|j: int| 0 <= j < headers@.len() ==> is_header(content@, #[trigger] all[j]),
            funcs_of(out@) == functions_of_headers(content@, all.take(i as int)),
        decreases headers@.len() - i,
    {
        let ghost before = funcs_of(out@);
        let open: usize = headers[i].3;
        proof {
            assert(all[i as int] == pattern::capture_of(headers@[i as int]));
            assert(is_header(content@, all[i as int]));
            assert(all.take(i + 1).drop_last() =~= all.take(i as int));
            assert(all.take(i + 1).last() == all[i as int]);
        }
        if let Some(end) = find_closing(bytes, open) {
            let name = match &headers[i].0 {
                Some(name) => name.clone(),
                None => match &headers[i].1 {
                    Some(name) => name.clone(),
                    None => String::new(),
                },
            };
            let func = ShellFunc {
                name,
                start_line: line_of_header(content, &headers[i]),
                body_line: line_offset(content, open - 1) + 1,
                body: between(content, open, end),
            };
            out.push(func);
            proof {
                assert(function_at(content@, all[i as int]) == Some(func@));
                assert(funcs_of(out@) =~= before.push(func@));
            }
        }
        i += 1;
    }
    proof {
        assert(all.take(all.len() as int) =~= all);
    }
    out
}

/// The shell functions of a text.
pub open spec fn functions_in(content: Seq<char>) -> Seq<ShellFuncView> {
    functions_of_headers(content, pattern::regex_captures(pattern::FUNCTION_HEADER@, content))
}

/// The shell functions of a text, by brace matching. Takes the forms `name() {`
/// and `function name {`. Good enough for recipes and hooks, which do not nest
/// function definitions in practice.
pub fn extract_functions(content: &str) -> (r: Vec<ShellFunc>)
    ensures
        funcs_of(r@) == functions_in(content@),
{
    let headers = pattern::captures(pattern::FUNCTION_HEADER, content);
    proof {
        assert forall|i: int| 0 <= i < headers@.len() implies is_header(
            content@,
            #[trigger] pattern::captures_of(headers@)[i],
        ) by {
            assert(headers@[i].3 <= utf8::encode_utf8(content@).len());
        }
    }
    functions_at(content, &headers)
}

/// A function whose body must not make network calls: sources belong in the
/// `source=()` array, fetched and checksummed by makepkg.
pub open spec fn is_net_free(name: Seq<char>) -> bool {
    ||| name == "prepare"@
    ||| name == "build"@
    ||| name == "check"@
    ||| name == "package"@
}

fn net_free(name: &str) -> (r: bool)
    ensures
        r == is_net_free(name@),
{
    text::same(name, "prepare") || text::same(name, "build") || text::same(name, "check")
        || text::same(name, "package")
}

/// A function of an install hook, which pacman runs as root.
pub open spec fn is_install_hook(name: Seq<char>) -> bool {
    ||| name == "pre_install"@
    ||| name == "post_install"@
    ||| name == "pre_upgrade"@
    ||| name == "post_upgrade"@
    ||| name == "pre_remove"@
    ||| name == "post_remove"@
}

fn install_hook(name: &str) -> (r: bool)
    ensures
        r == is_install_hook(name@),
{
    text::same(name, "pre_install") || text::same(name, "post_install") || text::same(
        name,
        "pre_upgrade",
    ) || text::same(name, "post_upgrade") || text::same(name, "pre_remove") || text::same(
        name,
        "post_remove",
    )
}

/// The byte offset of the tool in a network call, given where the match of the call
/// starts and where the name of the tool was captured. In `git clone`, which has no
/// such name, the match starts with the tool.
pub open spec fn tool_at(call: (int, Option<int>)) -> int {
    match call.1 {
        Some(tool) => tool,
        None => call.0,
    }
}

/// The byte offset of the tool in a network call.
pub fn tool_offset(call: (usize, Option<usize>)) -> (r: usize)
    ensures
        r == tool_at((call.0 as int, pattern::opt_int(call.1))),
{
    match call.1 {
        Some(tool) => tool,
        None => call.0,
    }
}

/// The finding of a network call in the body of a function. Its place is the line
/// of the tool.
pub open spec fn net_finding(
    file: Seq<char>,
    f: ShellFuncView,
    call: (int, Option<int>),
) -> FindingView {
    FindingView {
        id: "scan.net-in-build"@,
        severity: Severity::High,
        title: "Network access inside "@ + f.name + "()"@,
        detail: NET_DETAIL@,
        location: Some(place(file, (f.body_line + lines_before(f.body, tool_at(call))) as nat)),
    }
}

/// The finding of an install hook.
pub open spec fn hook_finding(file: Seq<char>, f: ShellFuncView) -> FindingView {
    FindingView {
        id: "scan.install-hook"@,
        severity: Severity::Medium,
        title: "Defines a "@ + f.name + "() hook (runs as root)"@,
        detail: HOOK_DETAIL@,
        location: Some(place(file, f.start_line as nat)),
    }
}

/// The findings on a function, given the first network call in its body, if it makes
/// one: the byte offsets at which the call and the name of its tool start.
pub open spec fn findings_on_function(
    file: Seq<char>,
    f: ShellFuncView,
    net: Option<(int, Option<int>)>,
) -> Seq<FindingView> {
    (match net {
        Some(call) if is_net_free(f.name) => seq![net_finding(file, f, call)],
        _ => Seq::empty(),
    }) + (if is_install_hook(f.name) {
        seq![hook_finding(file, f)]
    } else {
        Seq::empty()
    })
}

/// The findings on a function, given the first network call in its body, if it makes
/// one: the byte offsets at which the call and the name of its tool start.
pub fn function_findings(
    file: &str,
    func: &ShellFunc,
    net: Option<(usize, Option<usize>)>,
) -> (r: Vec<Finding>)
    ensures
        package::findings_of(r@) == findings_on_function(file@, func@, pattern::first_of(net)),
{
    let mut out: Vec<Finding> = Vec::new();
    if let Some(call) = net {
        if net_free(func.name.as_str()) {
            let line: u128 = func.body_line as u128 + line_offset(
                func.body.as_str(),
                tool_offset(call),
            ) as u128;
            out.push(
                Finding::new(
                    "scan.net-in-build",
                    Severity::High,
                    text::concat3("Network access inside ", func.name.as_str(), "()"),
                    NET_DETAIL,
                    Some(place_of(file, line)),
                ),
            );
        }
    }
    if install_hook(func.name.as_str()) {
        out.push(
            Finding::new(
                "scan.install-hook",
                Severity::Medium,
                text::concat3("Defines a ", func.name.as_str(), "() hook (runs as root)"),
                HOOK_DETAIL,
                Some(place_of(file, func.start_line as u128)),
            ),
        );
    }
    proof {
        assert(package::findings_of(out@) =~= findings_on_function(file@, func@, pattern::first_of(net)));
    }
    out
}

/// The findings on the first `n` functions.
pub open spec fn findings_on_functions(file: Seq<char>, funcs: Seq<ShellFuncView>, n: nat) -> Seq<
    FindingView,
>
    decreases n,
{
    if n == 0 {
        Seq::empty()
    } else {
        let f = funcs[n - 1];
        findings_on_functions(file, funcs, (n - 1) as nat) + findings_on_function(
            file,
            f,
            pattern::regex_first(pattern::NETWORK_TOOL@, f.body),
        )
    }
}

/// The findings on a file: those on its lines, then those on its functions.
pub open spec fn findings_on_file(file: Seq<char>, content: Seq<char>) -> Seq<FindingView> {
    findings_on_lines(file, text::lines_of(content), text::lines_of(content).len())
        + findings_on_functions(file, functions_in(content), functions_in(content).len())
}

/// Appends findings.
fn append(out: &mut Vec<Finding>, mut more: Vec<Finding>)
    ensures
        package::findings_of(final(out)@) == package::findings_of(old(out)@)
            + package::findings_of(more@),
{
    proof {
        package::lemma_findings_add(out@, more@);
    }
    out.append(&mut more);
}

fn file_findings(file: &str, content: &str) -> (r: Vec<Finding>)
    ensures
        package::findings_of(r@) == findings_on_file(file@, content@),
{
    let mut out: Vec<Finding> = Vec::new();
    let table = rules();
    let lines = text::lines(content);
    let ghost all = text::texts(lines@);
    proof {
        assert(package::findings_of(out@) =~= Seq::<FindingView>::empty());
    }
    let mut i: usize = 0;
    while i < lines.len()
        invariant
            i <= lines@.len(),
            all == text::texts(lines@),
            rules_of(table@) == rule_table(),
            package::findings_of(out@) == findings_on_lines(file@, all, i as nat),
        decreases lines@.len() - i,
    {
        let matched = hits(&table, lines[i].as_str());
        let number: u128 = i as u128 + 1;
        append(&mut out, line_findings(file, number, lines[i].as_str(), &matched));
        i += 1;
    }
    let ghost first = package::findings_of(out@);
    let funcs = extract_functions(content);
    let ghost fs = funcs_of(funcs@);
    let mut j: usize = 0;
    proof {
        assert(first + Seq::<FindingView>::empty() =~= first);
    }
    while j < funcs.len()
        invariant
            j <= funcs@.len(),
            fs == funcs_of(funcs@),
            package::findings_of(out@) == first + findings_on_functions(file@, fs, j as nat),
        decreases funcs@.len() - j,
    {
        let func = &funcs[j];
        let net = if net_free(func.name.as_str()) {
            pattern::first(pattern::NETWORK_TOOL, func.body.as_str())
        } else {
            None
        };
        let ghost before = findings_on_functions(file@, fs, j as nat);
        let ghost here = findings_on_function(file@, func@, pattern::first_of(net));
        append(&mut out, function_findings(file, func, net));
        proof {
            assert(fs[j as int] == func@);
            assert(here == findings_on_function(
                file@,
                func@,
                pattern::regex_first(pattern::NETWORK_TOOL@, func@.body),
            ));
            assert(first + before + here =~= first + (before + here));
        }
        j += 1;
    }
    out
}

/// The findings on the first `n` files.
pub open spec fn findings_on_files(files: Seq<(Seq<char>, Seq<char>)>, n: nat) -> Seq<FindingView>
    decreases n,
{
    if n == 0 {
        Seq::empty()
    } else {
        findings_on_files(files, (n - 1) as nat) + findings_on_file(
            files[n - 1].0,
            files[n - 1].1,
        )
    }
}

/// The findings on a bundle: those on each of its files in turn.
pub open spec fn findings_on_bundle(bundle: SourceBundle) -> Seq<FindingView> {
    findings_on_files(recipe::bundle_files(bundle), recipe::bundle_files(bundle).len())
}

/// Scans every file of a bundle.
pub fn evaluate(bundle: &SourceBundle) -> (r: Vec<Finding>)
    ensures
        package::findings_of(r@) == findings_on_bundle(*bundle),
{
    let files = bundle.files();
    let ghost all = recipe::bundle_files(*bundle);
    let mut out: Vec<Finding> = Vec::new();
    let mut i: usize = 0;
    proof {
        assert(package::findings_of(out@) =~= Seq::<FindingView>::empty());
    }
    while i < files.len()
        invariant
            i <= files@.len(),
            all == recipe::borrowed(files@),
            package::findings_of(out@) == findings_on_files(all, i as nat),
        decreases files@.len() - i,
    {
        append(&mut out, file_findings(files[i].0, files[i].1));
        i += 1;
    }
    out
}

/// The id of a finding of this module.
pub open spec fn is_scan_id(id: Seq<char>) -> bool {
    "scan."@.is_prefix_of(id)
}

/// Every finding of a list is of this module.
pub open spec fn all_scan(fs: Seq<FindingView>) -> bool {
    forall|i: int| 0 <= i < fs.len() ==> is_scan_id((#[trigger] fs[i]).id)
}

/// Every rule has an id of this module.
proof fn lemma_rule_ids(i: int)
    requires
        0 <= i < rule_table().len(),
    ensures
        is_scan_id(rule_table()[i].id),
{
    reveal_strlit("scan.");
    reveal_strlit("scan.js-pkg-install");
    reveal_strlit("scan.pip-install");
    reveal_strlit("scan.pipe-to-shell");
    reveal_strlit("scan.ebpf");
    reveal_strlit("scan.base64-decode");
    reveal_strlit("scan.eval");
    reveal_strlit("scan.setuid");
    reveal_strlit("scan.persistence");
    reveal_strlit("scan.suspicious-host");
    reveal_strlit("scan.raw-ip-download");
    reveal_strlit("scan.history-evasion");
    let id = rule_table()[i].id;
    assert(rule_table().len() == 11);
    assert(id.len() >= 5 && id[0] == 's' && id[1] == 'c' && id[2] == 'a' && id[3] == 'n' && id[4]
        == '.') by {
        if i == 0 {
        } else if i == 1 {
        } else if i == 2 {
        } else if i == 3 {
        } else if i == 4 {
        } else if i == 5 {
        } else if i == 6 {
        } else if i == 7 {
        } else if i == 8 {
        } else if i == 9 {
        }
    }
    assert(id.subrange(0, 5) =~= "scan."@);
}

proof fn lemma_rule_findings_scan(file: Seq<char>, line: nat, hits: Seq<bool>, n: nat)
    requires
        n <= rule_table().len(),
    ensures
        all_scan(rule_findings(file, line, hits, n)),
    decreases n,
{
    if n > 0 {
        lemma_rule_findings_scan(file, line, hits, (n - 1) as nat);
        lemma_rule_ids(n - 1);
    }
}

proof fn lemma_lines_scan(file: Seq<char>, lines: Seq<Seq<char>>, n: nat)
    ensures
        all_scan(findings_on_lines(file, lines, n)),
    decreases n,
{
    if n > 0 {
        lemma_lines_scan(file, lines, (n - 1) as nat);
        lemma_rule_findings_scan(file, n, hits_on(lines[n - 1]), rule_table().len());
    }
}

proof fn lemma_functions_scan(file: Seq<char>, funcs: Seq<ShellFuncView>, n: nat)
    ensures
        all_scan(findings_on_functions(file, funcs, n)),
    decreases n,
{
    if n > 0 {
        lemma_functions_scan(file, funcs, (n - 1) as nat);
        reveal_strlit("scan.");
        reveal_strlit("scan.net-in-build");
        reveal_strlit("scan.install-hook");
        assert("scan.net-in-build"@.subrange(0, 5) =~= "scan."@);
        assert("scan.install-hook"@.subrange(0, 5) =~= "scan."@);
        let f = funcs[n - 1];
        let here = findings_on_function(
            file,
            f,
            pattern::regex_first(pattern::NETWORK_TOOL@, f.body),
        );
        assert(all_scan(here));
    }
}

proof fn lemma_files_scan(files: Seq<(Seq<char>, Seq<char>)>, n: nat)
    ensures
        all_scan(findings_on_files(files, n)),
    decreases n,
{
    if n > 0 {
        lemma_files_scan(files, (n - 1) as nat);
        let (file, content) = files[n - 1];
        lemma_lines_scan(file, text::lines_of(content), text::lines_of(content).len());
        lemma_functions_scan(file, functions_in(content), functions_in(content).len());
    }
}

/// The scan of a recipe reports by ids of its own only.
pub proof fn law_scan_ids(bundle: SourceBundle)
    ensures
        all_scan(findings_on_bundle(bundle)),
{
    lemma_files_scan(recipe::bundle_files(bundle), recipe::bundle_files(bundle).len());
}

/// One of the findings has this id.
pub open spec fn mentions(fs: Seq<FindingView>, id: Seq<char>) -> bool {
    exists|i: int| 0 <= i < fs.len() && (#[trigger] fs[i]).id == id
}

proof fn lemma_function_in_file(file: Seq<char>, content: Seq<char>, k: int, f: FindingView)
    requires
        0 <= k < functions_in(content).len(),
        findings_on_function(
            file,
            functions_in(content)[k],
            pattern::regex_first(pattern::NETWORK_TOOL@, functions_in(content)[k].body),
        ).contains(f),
    ensures
        findings_on_file(file, content).contains(f),
{
    let funcs = functions_in(content);
    lemma_function_among(file, funcs, funcs.len(), k, f);
    let lines = findings_on_lines(file, text::lines_of(content), text::lines_of(content).len());
    let all = findings_on_functions(file, funcs, funcs.len());
    let i = choose|i: int| 0 <= i < all.len() && all[i] == f;
    assert(findings_on_file(file, content)[lines.len() + i] == f);
}

proof fn lemma_function_among(
    file: Seq<char>,
    funcs: Seq<ShellFuncView>,
    n: nat,
    k: int,
    f: FindingView,
)
    requires
        0 <= k < n <= funcs.len(),
        findings_on_function(
            file,
            funcs[k],
            pattern::regex_first(pattern::NETWORK_TOOL@, funcs[k].body),
        ).contains(f),
    ensures
        findings_on_functions(file, funcs, n).contains(f),
    decreases n,
{
    let before = findings_on_functions(file, funcs, (n - 1) as nat);
    let here = findings_on_function(
        file,
        funcs[n - 1],
        pattern::regex_first(pattern::NETWORK_TOOL@, funcs[n - 1].body),
    );
    let all = findings_on_functions(file, funcs, n);
    if k == n - 1 {
        let i = choose|i: int| 0 <= i < here.len() && here[i] == f;
        assert(all[before.len() + i] == f);
    } else {
        lemma_function_among(file, funcs, (n - 1) as nat, k, f);
        let i = choose|i: int| 0 <= i < before.len() && before[i] == f;
        assert(all[i] == f);
    }
}

/// A network call in `prepare`, `build`, `check` or `package` is reported among
/// the findings on the file, as severe, at the line of the tool; and a function
/// of any other name gives no such finding, whatever it calls.
pub proof fn law_network_calls_are_reported(
    file: Seq<char>,
    content: Seq<char>,
    k: int,
    call: (int, Option<int>),
    other: ShellFuncView,
    net: Option<(int, Option<int>)>,
)
    requires
        0 <= k < functions_in(content).len(),
        pattern::regex_first(pattern::NETWORK_TOOL@, functions_in(content)[k].body) == Some(call),
        other.name != "prepare"@ && other.name != "build"@ && other.name != "check"@ && other.name
            != "package"@,
    ensures
        ({
            let f = functions_in(content)[k];
            f.name == "prepare"@ || f.name == "build"@ || f.name == "check"@ || f.name
                == "package"@ ==> exists|i: int|
                0 <= i < findings_on_file(file, content).len() && {
                    let found = #[trigger] findings_on_file(file, content)[i];
                    &&& found.id == "scan.net-in-build"@
                    &&& found.severity == Severity::High
                    &&& found.title == "Network access inside "@ + f.name + "()"@
                    &&& found.location == Some(
                        file + ":"@ + text::dec(
                            (f.body_line + lines_before(
                                f.body,
                                match call.1 {
                                    Some(tool) => tool,
                                    None => call.0,
                                },
                            )) as nat,
                        ),
                    )
                }
        }),
        !mentions(findings_on_function(file, other, net), "scan.net-in-build"@),
        net is None ==> !mentions(
            findings_on_function(file, functions_in(content)[k], net),
            "scan.net-in-build"@,
        ),
{
    reveal_strlit("scan.net-in-build");
    reveal_strlit("scan.install-hook");
    assert("scan.net-in-build"@[5] != "scan.install-hook"@[5]);
    let f = functions_in(content)[k];
    if f.name == "prepare"@ || f.name == "build"@ || f.name == "check"@ || f.name == "package"@ {
        let found = net_finding(file, f, call);
        let here = findings_on_function(file, f, Some(call));
        assert(here[0] == found);
        lemma_function_in_file(file, content, k, found);
        let i = choose|i: int|
            0 <= i < findings_on_file(file, content).len() && findings_on_file(file, content)[i]
                == found;
        assert(findings_on_file(file, content)[i].id == "scan.net-in-build"@);
    }
}

/// A function that pacman runs as root is reported among the findings on the
/// file, at the line on which it opens; and a function of any other name gives no
/// such finding.
pub proof fn law_install_hooks_are_reported(
    file: Seq<char>,
    content: Seq<char>,
    k: int,
    other: ShellFuncView,
    net: Option<(int, Option<int>)>,
)
    requires
        0 <= k < functions_in(content).len(),
        other.name != "pre_install"@ && other.name != "post_install"@ && other.name
            != "pre_upgrade"@ && other.name != "post_upgrade"@ && other.name != "pre_remove"@
            && other.name != "post_remove"@,
    ensures
        ({
            let f = functions_in(content)[k];
            f.name == "pre_install"@ || f.name == "post_install"@ || f.name == "pre_upgrade"@
                || f.name == "post_upgrade"@ || f.name == "pre_remove"@ || f.name
                == "post_remove"@ ==> exists|i: int|
                0 <= i < findings_on_file(file, content).len() && {
                    let found = #[trigger] findings_on_file(file, content)[i];
                    &&& found.id == "scan.install-hook"@
                    &&& found.severity == Severity::Medium
                    &&& found.title == "Defines a "@ + f.name + "() hook (runs as root)"@
                    &&& found.location == Some(file + ":"@ + text::dec(f.start_line as nat))
                }
        }),
        !mentions(findings_on_function(file, other, net), "scan.install-hook"@),
{
    reveal_strlit("scan.net-in-build");
    reveal_strlit("scan.install-hook");
    assert("scan.net-in-build"@[5] != "scan.install-hook"@[5]);
    let f = functions_in(content)[k];
    if is_install_hook(f.name) {
        let net = pattern::regex_first(pattern::NETWORK_TOOL@, f.body);
        let found = hook_finding(file, f);
        let here = findings_on_function(file, f, net);
        assert(here.last() == found);
        assert(here[here.len() - 1] == found);
        lemma_function_in_file(file, content, k, found);
        let i = choose|i: int|
            0 <= i < findings_on_file(file, content).len() && findings_on_file(file, content)[i]
                == found;
        assert(findings_on_file(file, content)[i].id == "scan.install-hook"@);
    }
}

/// The severity of the rule of a pattern for single lines, by its id.
pub open spec fn severity_by_id(id: Seq<char>) -> Severity {
    if id == "scan.js-pkg-install"@ || id == "scan.pipe-to-shell"@ || id == "scan.ebpf"@ {
        Severity::Critical
    } else if id == "scan.eval"@ || id == "scan.raw-ip-download"@ || id
        == "scan.history-evasion"@ {
        Severity::Medium
    } else {
        Severity::High
    }
}

/// A pattern for single lines, and the id under which a match of it is reported.
pub open spec fn is_reported_as(pattern: Seq<char>, id: Seq<char>) -> bool {
    ||| pattern == pattern::JS_PKG_INSTALL@ && id == "scan.js-pkg-install"@
    ||| pattern == pattern::PIP_INSTALL@ && id == "scan.pip-install"@
    ||| pattern == pattern::PIPE_TO_SHELL@ && id == "scan.pipe-to-shell"@
    ||| pattern == pattern::EBPF@ && id == "scan.ebpf"@
    ||| pattern == pattern::BASE64_DECODE@ && id == "scan.base64-decode"@
    ||| pattern == pattern::EVAL@ && id == "scan.eval"@
    ||| pattern == pattern::SETUID@ && id == "scan.setuid"@
    ||| pattern == pattern::PERSISTENCE@ && id == "scan.persistence"@
    ||| pattern == pattern::SUSPICIOUS_HOST@ && id == "scan.suspicious-host"@
    ||| pattern == pattern::RAW_IP@ && id == "scan.raw-ip-download"@
    ||| pattern == pattern::HISTORY@ && id == "scan.history-evasion"@
}

/// A line that a pattern matches and that is no comment is reported among the
/// findings on the file, under the id of the pattern, with its severity, and at
/// the number of the line, counted from one.
pub proof fn law_matching_lines_are_reported(
    file: Seq<char>,
    content: Seq<char>,
    n: int,
    pattern: Seq<char>,
    id: Seq<char>,
    white: Seq<char>,
    visible: Seq<char>,
)
    requires
        0 <= n < text::lines_of(content).len(),
        is_reported_as(pattern, id),
        pattern::regex_matches(pattern, text::lines_of(content)[n]),
        text::lines_of(content)[n] == white + visible,
        text::is_blank(white),
        visible.len() > 0 ==> visible[0] != '#' && !text::is_white_space(visible[0]),
    ensures
        exists|i: int|
            0 <= i < findings_on_file(file, content).len() && {
                let found = #[trigger] findings_on_file(file, content)[i];
                &&& found.id == id
                &&& found.severity == severity_by_id(id)
                &&& found.location == Some(file + ":"@ + text::dec((n + 1) as nat))
            },
{
    let lines = text::lines_of(content);
    let line = lines[n];
    lemma_visible(white, visible);
    let r = lemma_rule_of(pattern, id);
    let found = rule_finding(rule_table()[r], file, (n + 1) as nat);
    assert(hits_on(line)[r]);
    lemma_rule_is_reported(file, (n + 1) as nat, hits_on(line), rule_table().len(), r);
    lemma_line_among(file, lines, lines.len(), n, found);
    let first = findings_on_lines(file, lines, lines.len());
    let i = choose|i: int| 0 <= i < first.len() && first[i] == found;
    assert(findings_on_file(file, content)[i] == found);
}

proof fn lemma_visible(white: Seq<char>, visible: Seq<char>)
    requires
        text::is_blank(white),
        visible.len() > 0 ==> !text::is_white_space(visible[0]),
    ensures
        text::trim_start(white + visible) == visible,
    decreases white.len(),
{
    if white.len() > 0 {
        let rest = white.drop_first();
        assert forall|i: int| 0 <= i < rest.len() implies text::is_white_space(#[trigger] rest[i]) by {
            assert(rest[i] == white[i + 1]);
        }
        lemma_visible(rest, visible);
        assert((white + visible).drop_first() =~= rest + visible);
        assert((white + visible)[0] == white[0]);
    } else {
        assert(white + visible =~= visible);
    }
}

/// The ids of the rules are apart, so each has its own severity.
proof fn lemma_severities_by_id()
    ensures
        severity_by_id("scan.js-pkg-install"@) == Severity::Critical,
        severity_by_id("scan.pip-install"@) == Severity::High,
        severity_by_id("scan.pipe-to-shell"@) == Severity::Critical,
        severity_by_id("scan.ebpf"@) == Severity::Critical,
        severity_by_id("scan.base64-decode"@) == Severity::High,
        severity_by_id("scan.eval"@) == Severity::Medium,
        severity_by_id("scan.setuid"@) == Severity::High,
        severity_by_id("scan.persistence"@) == Severity::High,
        severity_by_id("scan.suspicious-host"@) == Severity::High,
        severity_by_id("scan.raw-ip-download"@) == Severity::Medium,
        severity_by_id("scan.history-evasion"@) == Severity::Medium,
{
    reveal_strlit("scan.js-pkg-install");
    reveal_strlit("scan.pip-install");
    reveal_strlit("scan.pipe-to-shell");
    reveal_strlit("scan.ebpf");
    reveal_strlit("scan.base64-decode");
    reveal_strlit("scan.eval");
    reveal_strlit("scan.setuid");
    reveal_strlit("scan.persistence");
    reveal_strlit("scan.suspicious-host");
    reveal_strlit("scan.raw-ip-download");
    reveal_strlit("scan.history-evasion");
    assert("scan.js-pkg-install"@[5] == 'j');
    assert("scan.pip-install"@[5] == 'p' && "scan.pip-install"@.len() == 16);
    assert("scan.pipe-to-shell"@[5] == 'p' && "scan.pipe-to-shell"@.len() == 18);
    assert("scan.ebpf"@[6] == 'b');
    assert("scan.base64-decode"@[5] == 'b');
    assert("scan.eval"@[6] == 'v');
    assert("scan.setuid"@[5] == 's' && "scan.setuid"@[6] == 'e');
    assert("scan.persistence"@[5] == 'p' && "scan.persistence"@[6] == 'e');
    assert("scan.suspicious-host"@[5] == 's' && "scan.suspicious-host"@[6] == 'u');
    assert("scan.raw-ip-download"@[5] == 'r');
    assert("scan.history-evasion"@[5] == 'h');
}

proof fn lemma_rule_of(pattern: Seq<char>, id: Seq<char>) -> (r: int)
    requires
        is_reported_as(pattern, id),
    ensures
        0 <= r < rule_table().len(),
        rule_table()[r].pattern == pattern,
        rule_table()[r].id == id,
        rule_table()[r].severity == severity_by_id(id),
{
    lemma_severities_by_id();
    let t = rule_table();
    if pattern == pattern::JS_PKG_INSTALL@ && id == "scan.js-pkg-install"@ {
        0
    } else if pattern == pattern::PIP_INSTALL@ && id == "scan.pip-install"@ {
        1
    } else if pattern == pattern::PIPE_TO_SHELL@ && id == "scan.pipe-to-shell"@ {
        2
    } else if pattern == pattern::EBPF@ && id == "scan.ebpf"@ {
        3
    } else if pattern == pattern::BASE64_DECODE@ && id == "scan.base64-decode"@ {
        4
    } else if pattern == pattern::EVAL@ && id == "scan.eval"@ {
        5
    } else if pattern == pattern::SETUID@ && id == "scan.setuid"@ {
        6
    } else if pattern == pattern::PERSISTENCE@ && id == "scan.persistence"@ {
        7
    } else if pattern == pattern::SUSPICIOUS_HOST@ && id == "scan.suspicious-host"@ {
        8
    } else if pattern == pattern::RAW_IP@ && id == "scan.raw-ip-download"@ {
        9
    } else {
        10
    }
}

proof fn lemma_rule_is_reported(file: Seq<char>, line: nat, hits: Seq<bool>, n: nat, r: int)
    requires
        0 <= r < n <= rule_table().len(),
        hits[r],
    ensures
        rule_findings(file, line, hits, n).contains(rule_finding(rule_table()[r], file, line)),
    decreases n,
{
    let before = rule_findings(file, line, hits, (n - 1) as nat);
    let now = rule_findings(file, line, hits, n);
    let f = rule_finding(rule_table()[r], file, line);
    if r == n - 1 {
        assert(now[before.len() as int] == f);
    } else {
        lemma_rule_is_reported(file, line, hits, (n - 1) as nat, r);
        let i = choose|i: int| 0 <= i < before.len() && before[i] == f;
        assert(now[i] == f);
    }
}

proof fn lemma_line_among(
    file: Seq<char>,
    lines: Seq<Seq<char>>,
    n: nat,
    k: int,
    f: FindingView,
)
    requires
        0 <= k < n <= lines.len(),
        findings_on_line(file, (k + 1) as nat, lines[k], hits_on(lines[k])).contains(f),
    ensures
        findings_on_lines(file, lines, n).contains(f),
    decreases n,
{
    let before = findings_on_lines(file, lines, (n - 1) as nat);
    let here = findings_on_line(file, n, lines[n - 1], hits_on(lines[n - 1]));
    let now = findings_on_lines(file, lines, n);
    if k == n - 1 {
        let i = choose|i: int| 0 <= i < here.len() && here[i] == f;
        assert(now[before.len() + i] == f);
    } else {
        lemma_line_among(file, lines, (n - 1) as nat, k, f);
        let i = choose|i: int| 0 <= i < before.len() && before[i] == f;
        assert(now[i] == f);
    }
}

/// A line whose first visible character is `#` gives no finding, whatever
/// matches; and a line gives no more findings than patterns match it.
pub proof fn law_comments_are_passed_over(
    file: Seq<char>,
    number: nat,
    white: Seq<char>,
    comment: Seq<char>,
    hits: Seq<bool>,
    line: Seq<char>,
)
    requires
        text::is_blank(white),
        comment.len() > 0 && comment[0] == '#',
        forall|i: int| 0 <= i < rule_table().len() ==> !#[trigger] hits[i],
    ensures
        findings_on_line(file, number, white + comment, hits) == Seq::<FindingView>::empty(),
        findings_on_line(file, number, white + comment, hits_on(white + comment)) == Seq::<
            FindingView,
        >::empty(),
        findings_on_line(file, number, line, hits) == Seq::<FindingView>::empty(),
{
    lemma_visible(white, comment);
    lemma_no_hits(file, number, hits, rule_table().len());
}

proof fn lemma_no_hits(file: Seq<char>, line: nat, hits: Seq<bool>, n: nat)
    requires
        n <= rule_table().len(),
        forall|i: int| 0 <= i < rule_table().len() ==> !#[trigger] hits[i],
    ensures
        rule_findings(file, line, hits, n) == Seq::<FindingView>::empty(),
    decreases n,
{
    if n > 0 {
        lemma_no_hits(file, line, hits, (n - 1) as nat);
        assert(!hits[n - 1]);
    }
}

/// Every file of a bundle is scanned: whatever is found on one of them is found
/// on the bundle.
pub proof fn law_every_file_is_scanned(bundle: SourceBundle, k: int, f: FindingView)
    requires
        0 <= k < recipe::bundle_files(bundle).len(),
        findings_on_file(
            recipe::bundle_files(bundle)[k].0,
            recipe::bundle_files(bundle)[k].1,
        ).contains(f),
    ensures
        findings_on_bundle(bundle).contains(f),
{
    let files = recipe::bundle_files(bundle);
    lemma_file_among(files, files.len(), k, f);
}

proof fn lemma_file_among(files: Seq<(Seq<char>, Seq<char>)>, n: nat, k: int, f: FindingView)
    requires
        0 <= k < n <= files.len(),
        findings_on_file(files[k].0, files[k].1).contains(f),
    ensures
        findings_on_files(files, n).contains(f),
    decreases n,
{
    let before = findings_on_files(files, (n - 1) as nat);
    let here = findings_on_file(files[n - 1].0, files[n - 1].1);
    let now = findings_on_files(files, n);
    if k == n - 1 {
        let i = choose|i: int| 0 <= i < here.len() && here[i] == f;
        assert(now[before.len() + i] == f);
    } else {
        lemma_file_among(files, (n - 1) as nat, k, f);
        let i = choose|i: int| 0 <= i < before.len() && before[i] == f;
        assert(now[i] == f);
    }
}

/// How many more braces are opened than closed between two offsets.
pub open spec fn balance(bytes: Seq<u8>, from: int, to: int) -> int
    decreases to - from,
{
    if to <= from {
        0
    } else if bytes[to - 1] == '{' as u8 {
        balance(bytes, from, to - 1) + 1
    } else if bytes[to - 1] == '}' as u8 {
        balance(bytes, from, to - 1) - 1
    } else {
        balance(bytes, from, to - 1)
    }
}

/// The body of a function ends at the brace that closes the one before it: at the
/// first place where as many braces were closed as opened, counting that one. A
/// body that has no end has no such place.
pub proof fn law_bodies_end_at_their_brace(bytes: Seq<u8>, open: int)
    requires
        0 <= open <= bytes.len(),
    ensures
        match closing(bytes, open, 1) {
            Some(end) => {
                &&& open <= end < bytes.len()
                &&& bytes[end] == '}' as u8
                &&& balance(bytes, open, end) == 0
                &&& forall|j: int| open <= j <= end ==> #[trigger] balance(bytes, open, j) >= 0
            },
            None => forall|j: int|
                open <= j <= bytes.len() ==> #[trigger] balance(bytes, open, j) >= 0,
        },
{
    lemma_closing(bytes, open, open, 1);
}

proof fn lemma_closing(bytes: Seq<u8>, open: int, at: int, depth: int)
    requires
        0 <= open <= at <= bytes.len(),
        depth == balance(bytes, open, at) + 1,
        depth >= 1,
        forall|j: int| open <= j <= at ==> #[trigger] balance(bytes, open, j) >= 0,
    ensures
        match closing(bytes, at, depth) {
            Some(end) => {
                &&& open <= end < bytes.len()
                &&& bytes[end] == '}' as u8
                &&& balance(bytes, open, end) == 0
                &&& forall|j: int| open <= j <= end ==> #[trigger] balance(bytes, open, j) >= 0
            },
            None => forall|j: int|
                open <= j <= bytes.len() ==> #[trigger] balance(bytes, open, j) >= 0,
        },
    decreases bytes.len() - at,
{
    assert('{' as u8 == 0x7b && '}' as u8 == 0x7d);
    if at < bytes.len() {
        let b = bytes[at];
        let step = balance(bytes, open, at + 1);
        if b == 0x7b {
            lemma_closing(bytes, open, at + 1, depth + 1);
        } else if b == 0x7d {
            if depth > 1 {
                lemma_closing(bytes, open, at + 1, depth - 1);
            }
        } else {
            lemma_closing(bytes, open, at + 1, depth);
        }
    }
}

/// The line of an offset is one more for each newline before it: text without a
/// newline adds none, a newline adds one.
pub proof fn law_newlines_are_counted(bytes: Seq<u8>, n: int)
    requires
        0 <= n <= bytes.len(),
    ensures
        newlines(bytes, n) == bytes.take(n).filter(|b: u8| b == '\n' as u8).len(),
    decreases n,
{
    reveal(Seq::filter);
    assert('\n' as u8 == 0x0a);
    if n > 0 {
        law_newlines_are_counted(bytes, n - 1);
        assert(bytes.take(n).drop_last() =~= bytes.take(n - 1));
        assert(bytes.take(n).last() == bytes[n - 1]);
    }
}

/// White space ahead of a function belongs to the lines before it: the function
/// opens on the line of its first visible character, and not on an earlier one.
pub proof fn law_blank_lines_ahead(white: Seq<char>, visible: Seq<char>)
    requires
        text::is_blank(white),
        visible.len() > 0 ==> !text::is_white_space(visible[0]),
    ensures
        leading_newlines(white + visible) == white.filter(|c: char| c == '\n').len(),
    decreases white.len(),
{
    let nl = |c: char| c == '\n';
    if white.len() > 0 {
        let first = white[0];
        let rest = white.drop_first();
        assert forall|i: int| 0 <= i < rest.len() implies text::is_white_space(#[trigger] rest[i]) by {
            assert(rest[i] == white[i + 1]);
        }
        law_blank_lines_ahead(rest, visible);
        assert((white + visible).drop_first() =~= rest + visible);
        assert((white + visible)[0] == first);
        assert(text::is_white_space(first));
        assert(white =~= seq![first] + rest);
        Seq::filter_distributes_over_add(seq![first], rest, nl);
        reveal(Seq::filter);
        assert(seq![first].drop_last() =~= Seq::<char>::empty());
        assert(Seq::<char>::empty().filter(nl) =~= Seq::<char>::empty());
        assert(seq![first].last() == first);
        assert(seq![first].filter(nl).len() == if first == '\n' {
            1int
        } else {
            0int
        });
    } else {
        reveal(Seq::filter);
        assert(white + visible =~= visible);
    }
}

/// What is read of a function: its name is the one in its header, its body is what
/// stands between its braces, its body begins on the line of its brace, and it
/// opens on the line of its first visible character, all counted from one.
pub proof fn law_functions_are_read(
    content: Seq<char>,
    header: (Option<Seq<char>>, Option<Seq<char>>, int, int),
    end: int,
)
    requires
        is_header(content, header),
        closing(utf8::encode_utf8(content), header.3, 1) == Some(end),
    ensures
        ({
            let bytes = utf8::encode_utf8(content);
            let newline = |b: u8| b == '\n' as u8;
            &&& function_at(content, header) matches Some(f) && {
                &&& header.0 matches Some(name) ==> f.name == name
                &&& header.0 is None && (header.1 is Some) ==> f.name == header.1->0
                &&& f.body == utf8::decode_utf8(bytes.subrange(header.3, end))
                &&& f.body_line == bytes.take(header.3 - 1).filter(newline).len() + 1
                &&& f.start_line == bytes.take(header.2).filter(newline).len() + leading_newlines(
                    utf8::decode_utf8(bytes.subrange(header.2, header.3 - 1)),
                ) + 1
            }
        }),
{
    let bytes = utf8::encode_utf8(content);
    law_newlines_are_counted(bytes, header.3 - 1);
    law_newlines_are_counted(bytes, header.2);
}

/// Every header whose brace is closed gives a function, in order, and no other
/// does.
pub proof fn law_every_function_is_read(
    content: Seq<char>,
    headers: Seq<(Option<Seq<char>>, Option<Seq<char>>, int, int)>,
    header: (Option<Seq<char>>, Option<Seq<char>>, int, int),
)
    ensures
        closing(utf8::encode_utf8(content), header.3, 1) is None ==> functions_of_headers(
            content,
            headers.push(header),
        ) == functions_of_headers(content, headers),
        closing(utf8::encode_utf8(content), header.3, 1) is Some ==> functions_of_headers(
            content,
            headers.push(header),
        ).len() == functions_of_headers(content, headers).len() + 1 && functions_of_headers(
            content,
            headers,
        ).is_prefix_of(functions_of_headers(content, headers.push(header))) && function_at(
            content,
            header,
        ) == Some(functions_of_headers(content, headers.push(header)).last()),
{
    assert(headers.push(header).drop_last() =~= headers);
    let before = functions_of_headers(content, headers);
    let now = functions_of_headers(content, headers.push(header));
    if closing(utf8::encode_utf8(content), header.3, 1) is Some {
        assert(before =~= now.subrange(0, before.len() as int));
    }
}

/// The line of an offset within a text is one more for each newline before it.
pub proof fn law_line_of_an_offset(s: Seq<char>, offset: int)
    requires
        0 <= offset <= utf8::encode_utf8(s).len(),
    ensures
        lines_before(s, offset) == utf8::encode_utf8(s).take(offset).filter(
            |b: u8| b == '\n' as u8,
        ).len(),
{
    law_newlines_are_counted(utf8::encode_utf8(s), offset);
}

/// The rules are eleven, each with a pattern and an id of its own, and the
/// severity that goes with the id.
pub proof fn law_rules(r: int)
    requires
        0 <= r < rule_table().len(),
    ensures
        rule_table().len() == 11,
        is_reported_as(rule_table()[r].pattern, rule_table()[r].id),
        rule_table()[r].severity == severity_by_id(rule_table()[r].id),
{
    let t = rule_table();
    assert(t.len() == 11);
    lemma_severities_by_id();
    if r == 0 {
    } else if r == 1 {
    } else if r == 2 {
    } else if r == 3 {
    } else if r == 4 {
    } else if r == 5 {
    } else if r == 6 {
    } else if r == 7 {
    } else if r == 8 {
    } else if r == 9 {
    }
}

/// A finding is that of a rule that matches a line, which is no comment.
pub open spec fn is_found_on_a_line(
    file: Seq<char>,
    lines: Seq<Seq<char>>,
    n: int,
    r: int,
    f: FindingView,
) -> bool {
    &&& 0 <= n < lines.len() && 0 <= r < rule_table().len()
    &&& pattern::regex_matches(rule_table()[r].pattern, lines[n])
    &&& !(text::trim_start(lines[n]).len() > 0 && text::trim_start(lines[n])[0] == '#')
    &&& f.id == rule_table()[r].id && f.severity == rule_table()[r].severity
    &&& f.location == Some(file + ":"@ + text::dec((n + 1) as nat))
}

/// A finding is one on a function of a file.
pub open spec fn is_found_on_a_function(
    file: Seq<char>,
    funcs: Seq<ShellFuncView>,
    k: int,
    f: FindingView,
) -> bool {
    0 <= k < funcs.len() && findings_on_function(
        file,
        funcs[k],
        pattern::regex_first(pattern::NETWORK_TOOL@, funcs[k].body),
    ).contains(f)
}

/// Nothing is reported without a reason: a finding on a file is that of a rule
/// that matches one of its lines, or one on one of its functions.
pub proof fn law_findings_have_a_reason(file: Seq<char>, content: Seq<char>, f: FindingView)
    requires
        findings_on_file(file, content).contains(f),
    ensures
        (exists|n: int, r: int| #[trigger]
            is_found_on_a_line(file, text::lines_of(content), n, r, f)) || (exists|k: int| #[trigger]
            is_found_on_a_function(file, functions_in(content), k, f)),
{
    let lines = text::lines_of(content);
    let funcs = functions_in(content);
    let a = findings_on_lines(file, lines, lines.len());
    let b = findings_on_functions(file, funcs, funcs.len());
    let all = findings_on_file(file, content);
    let i = choose|i: int| 0 <= i < all.len() && all[i] == f;
    if i < a.len() {
        assert(a[i] == f);
        lemma_line_reason(file, lines, lines.len(), f);
    } else {
        assert(b[i - a.len()] == f);
        lemma_function_reason(file, funcs, funcs.len(), f);
    }
}

proof fn lemma_line_reason(file: Seq<char>, lines: Seq<Seq<char>>, n: nat, f: FindingView)
    requires
        n <= lines.len(),
        findings_on_lines(file, lines, n).contains(f),
    ensures
        exists|m: int, r: int| #[trigger] is_found_on_a_line(file, lines, m, r, f),
    decreases n,
{
    let now = findings_on_lines(file, lines, n);
    let i = choose|i: int| 0 <= i < now.len() && now[i] == f;
    let before = findings_on_lines(file, lines, (n - 1) as nat);
    let line = lines[n - 1];
    let here = findings_on_line(file, n, line, hits_on(line));
    if i < before.len() {
        assert(before[i] == f);
        lemma_line_reason(file, lines, (n - 1) as nat, f);
    } else {
        assert(here[i - before.len()] == f);
        let r = lemma_rule_reason(file, n, hits_on(line), rule_table().len(), f);
        assert(hits_on(line)[r]);
        assert(is_found_on_a_line(file, lines, n - 1, r, f));
    }
}

proof fn lemma_rule_reason(
    file: Seq<char>,
    line: nat,
    hits: Seq<bool>,
    n: nat,
    f: FindingView,
) -> (r: int)
    requires
        n <= rule_table().len(),
        rule_findings(file, line, hits, n).contains(f),
    ensures
        0 <= r < n,
        hits[r],
        f == rule_finding(rule_table()[r], file, line),
    decreases n,
{
    let now = rule_findings(file, line, hits, n);
    let i = choose|i: int| 0 <= i < now.len() && now[i] == f;
    let before = rule_findings(file, line, hits, (n - 1) as nat);
    if i < before.len() {
        assert(before[i] == f);
        lemma_rule_reason(file, line, hits, (n - 1) as nat, f)
    } else {
        n - 1
    }
}

proof fn lemma_function_reason(
    file: Seq<char>,
    funcs: Seq<ShellFuncView>,
    n: nat,
    f: FindingView,
)
    requires
        n <= funcs.len(),
        findings_on_functions(file, funcs, n).contains(f),
    ensures
        exists|k: int| #[trigger] is_found_on_a_function(file, funcs, k, f),
    decreases n,
{
    let now = findings_on_functions(file, funcs, n);
    let i = choose|i: int| 0 <= i < now.len() && now[i] == f;
    let before = findings_on_functions(file, funcs, (n - 1) as nat);
    let here = findings_on_function(
        file,
        funcs[n - 1],
        pattern::regex_first(pattern::NETWORK_TOOL@, funcs[n - 1].body),
    );
    if i < before.len() {
        assert(before[i] == f);
        lemma_function_reason(file, funcs, (n - 1) as nat, f);
    } else {
        assert(here[i - before.len()] == f);
        assert(is_found_on_a_function(file, funcs, n - 1, f));
    }
}

/// Each match is reported once: a line that is no comment gives exactly one
/// finding for each rule that matches it, and the findings on a file are those on
/// its lines, in order, and then those on its functions, in order.
pub proof fn law_each_match_is_reported_once(
    file: Seq<char>,
    content: Seq<char>,
    number: nat,
    white: Seq<char>,
    visible: Seq<char>,
    n: nat,
)
    requires
        text::is_blank(white),
        visible.len() > 0 ==> visible[0] != '#' && !text::is_white_space(visible[0]),
        0 < n,
    ensures
        findings_on_line(file, number, white + visible, hits_on(white + visible)).len()
            == hits_on(white + visible).filter(|hit: bool| hit).len(),
        n <= text::lines_of(content).len() ==> findings_on_lines(
            file,
            text::lines_of(content),
            n,
        ) == findings_on_lines(file, text::lines_of(content), (n - 1) as nat) + findings_on_line(
            file,
            n,
            text::lines_of(content)[n - 1],
            hits_on(text::lines_of(content)[n - 1]),
        ),
        n <= functions_in(content).len() ==> findings_on_functions(file, functions_in(content), n)
            == findings_on_functions(file, functions_in(content), (n - 1) as nat)
            + findings_on_function(
            file,
            functions_in(content)[n - 1],
            pattern::regex_first(pattern::NETWORK_TOOL@, functions_in(content)[n - 1].body),
        ),
        findings_on_file(file, content).len() == findings_on_lines(
            file,
            text::lines_of(content),
            text::lines_of(content).len(),
        ).len() + findings_on_functions(
            file,
            functions_in(content),
            functions_in(content).len(),
        ).len(),
{
    lemma_visible(white, visible);
    let hits = hits_on(white + visible);
    lemma_hits_are_counted(file, number, hits, hits.len());
    assert(hits.take(hits.len() as int) =~= hits);
}

proof fn lemma_hits_are_counted(file: Seq<char>, line: nat, hits: Seq<bool>, n: nat)
    requires
        n <= hits.len(),
    ensures
        rule_findings(file, line, hits, n).len() == hits.take(n as int).filter(
            |hit: bool| hit,
        ).len(),
    decreases n,
{
    reveal(Seq::filter);
    if n > 0 {
        lemma_hits_are_counted(file, line, hits, (n - 1) as nat);
        assert(hits.take(n as int).drop_last() =~= hits.take(n - 1));
        assert(hits.take(n as int).last() == hits[n - 1]);
    }
}

/// What a rule is called in a report, by its id.
pub open spec fn is_titled(id: Seq<char>, title: Seq<char>) -> bool {
    ||| id == "scan.js-pkg-install"@ && title
        == "Installs a JavaScript package during build/install"@
    ||| id == "scan.pip-install"@ && title == "Installs a Python package during build/install"@
    ||| id == "scan.pipe-to-shell"@ && title == "Pipes a downloaded file straight into a shell"@
    ||| id == "scan.ebpf"@ && title == "Touches eBPF / kernel tracing facilities"@
    ||| id == "scan.base64-decode"@ && title == "Decodes base64 (possible obfuscated payload)"@
    ||| id == "scan.eval"@ && title == "Uses `eval` (dynamic code execution)"@
    ||| id == "scan.setuid"@ && title == "Sets a setuid/setgid bit"@
    ||| id == "scan.persistence"@ && title
        == "Writes to an autostart / shell-init / scheduler location"@
    ||| id == "scan.suspicious-host"@ && title == "Downloads from an ephemeral file-sharing host"@
    ||| id == "scan.raw-ip-download"@ && title == "Downloads from a hardcoded IP address"@
    ||| id == "scan.history-evasion"@ && title == "Clears shell history (anti-forensics)"@
}

/// Every rule is reported under the title that goes with its id.
pub proof fn law_titles_of_rules(r: int, file: Seq<char>, line: nat)
    requires
        0 <= r < rule_table().len(),
    ensures
        is_titled(rule_table()[r].id, rule_table()[r].title),
        rule_finding(rule_table()[r], file, line).title == rule_table()[r].title,
        rule_finding(rule_table()[r], file, line).detail == rule_table()[r].detail,
{
    assert(rule_table().len() == 11);
    if r == 0 {
    } else if r == 1 {
    } else if r == 2 {
    } else if r == 3 {
    } else if r == 4 {
    } else if r == 5 {
    } else if r == 6 {
    } else if r == 7 {
    } else if r == 8 {
    } else if r == 9 {
    }
}

} // verus!
