//! Regular expressions, by plain values.

use crate::text;
use vstd::prelude::*;
use vstd::utf8;

verus! {

/// `npm`, `pnpm`, `yarn` or `bun` installing or running a package.
pub const JS_PKG_INSTALL: &'static str =
    r"\b(npm|pnpm|yarn|bun)\b\s+(install|add|i|ci|x|exec|dlx)\b";

/// `pip` installing a package.
pub const PIP_INSTALL: &'static str = r"\bpip[0-9.]*\s+install\b";

/// A download that is piped into a shell.
pub const PIPE_TO_SHELL: &'static str =
    r"(curl|wget|fetch)\b[^\n|]*\|\s*(sudo\s+)?(ba|z)?sh\b";

/// Names from the eBPF and kernel tracing facilities.
pub const EBPF: &'static str =
    r"(/sys/fs/bpf|\bbpftool\b|\blibbpf\b|\bbpf_[a-z_]+\b|BPF_PROG|getdents64)";

/// `base64` decoding.
pub const BASE64_DECODE: &'static str = r"\bbase64\b\s+(-d|-D|--decode)\b";

/// The word `eval`.
pub const EVAL: &'static str = r"\beval\b";

/// `chmod` setting a setuid or setgid bit.
pub const SETUID: &'static str = r"chmod\s+(u\+s|g\+s|\+s|[0-7]*[2467][0-7]{3})\b";

/// Places from which code is started again.
pub const PERSISTENCE: &'static str =
    r"(/etc/systemd/system|/etc/cron|/etc/profile\.d|\.bashrc|\.zshrc|\.profile|\.config/autostart|\bcrontab\s+-)";

/// Hosts that share files for a while.
pub const SUSPICIOUS_HOST: &'static str =
    r"(pastebin\.com|anonfiles|transfer\.sh|0x0\.st|file\.io|bashupload|ghostbin|termbin)";

/// A URL with an IP address for a host.
pub const RAW_IP: &'static str = r"https?://\d{1,3}(\.\d{1,3}){3}";

/// Clearing or disabling the shell history.
pub const HISTORY: &'static str = r"(history\s+-c|unset\s+HISTFILE|HISTFILE=/dev/null)";

/// A network tool in command position: at the start of a line or right after a
/// shell separator. White space and line ends may stand before the tool, but a
/// match ends with its name.
pub const NETWORK_TOOL: &'static str =
    r"(?m)(?:^|[;&|(`]|&&|\|\||\bthen\b|\bdo\b|\$\()\s*(curl|wget|scp|rsync|ncat|socat)\b|\bgit\s+clone\b";

/// The header of a shell function up to its opening brace: `name() {`,
/// `function name {` or `function name() {`.
pub const FUNCTION_HEADER: &'static str =
    r"(?m)^\s*(?:function\s+([A-Za-z_][A-Za-z0-9_]*)(?:\s*\(\s*\))?|([A-Za-z_][A-Za-z0-9_]*)\s*\(\s*\))\s*\{";

/// The declaration of an install hook file: `install=foo.install`, with or
/// without quotes.
pub const INSTALL_FILE: &'static str = r#"(?m)^\s*install=["']?([^"'\s]+)"#;

/// One of the patterns that are tried on single lines.
pub open spec fn is_line_pattern(p: Seq<char>) -> bool {
    ||| p == JS_PKG_INSTALL@
    ||| p == PIP_INSTALL@
    ||| p == PIPE_TO_SHELL@
    ||| p == EBPF@
    ||| p == BASE64_DECODE@
    ||| p == EVAL@
    ||| p == SETUID@
    ||| p == PERSISTENCE@
    ||| p == SUSPICIOUS_HOST@
    ||| p == RAW_IP@
    ||| p == HISTORY@
}

/// Whether `regex::Regex::is_match` finds a match of the pattern in the text.
pub uninterp spec fn regex_matches(pattern: Seq<char>, text: Seq<char>) -> bool;

/// The first match that `regex::Regex::captures` reports: the byte offset at
/// which it starts, and the one at which its first group starts, if that took
/// part.
pub uninterp spec fn regex_first(pattern: Seq<char>, text: Seq<char>) -> Option<
    (int, Option<int>),
>;

/// The matches that `regex::Regex::captures_iter` reports, in order: of each,
/// the first and the second group, and the byte offsets at which it starts and
/// ends.
pub uninterp spec fn regex_captures(pattern: Seq<char>, text: Seq<char>) -> Seq<
    (Option<Seq<char>>, Option<Seq<char>>, int, int),
>;

/// The contents of a match.
pub open spec fn capture_of(m: (Option<String>, Option<String>, usize, usize)) -> (
    Option<Seq<char>>,
    Option<Seq<char>>,
    int,
    int,
) {
    (text::opt_text(m.0), text::opt_text(m.1), m.2 as int, m.3 as int)
}

/// The contents of a list of matches.
pub open spec fn captures_of(v: Seq<(Option<String>, Option<String>, usize, usize)>) -> Seq<
    (Option<Seq<char>>, Option<Seq<char>>, int, int),
> {
    Seq::new(v.len(), |i: int| capture_of(v[i]))
}

/// An optional offset as a number.
pub open spec fn opt_int(o: Option<usize>) -> Option<int> {
    match o {
        Some(i) => Some(i as int),
        None => None,
    }
}

/// The contents of a first match.
pub open spec fn first_of(m: Option<(usize, Option<usize>)>) -> Option<(int, Option<int>)> {
    match m {
        Some((start, group)) => Some((start as int, opt_int(group))),
        None => None,
    }
}

/// Calls `regex::Regex::is_match`. What the answer is for a pattern and a text
/// is left to the regex engine: the contract names it, and claims that it
/// depends on the two alone. The line patterns are valid, so compiling one does
/// not fail.
#[verifier::external_body]
pub(crate) fn is_match(pattern: &str, text: &str) -> (r: bool)
    requires
        is_line_pattern(pattern@),
    ensures
        r == regex_matches(pattern@, text@),
{
    regex::Regex::new(pattern).expect("valid pattern").is_match(text)
}

/// Calls `regex::Regex::captures` and gives the offsets at which the match and its
/// first group start. Which match is found first is left to the regex engine, and
/// named.
#[verifier::external_body]
pub(crate) fn first(pattern: &str, text: &str) -> (r: Option<(usize, Option<usize>)>)
    requires
        pattern@ == NETWORK_TOOL@,
    ensures
        first_of(r) == regex_first(pattern@, text@),
{
    let start = |c: &regex::Captures| c.get(0).map_or(0, |m| m.start());
    let re = regex::Regex::new(pattern).expect("valid pattern");
    re.captures(text).map(|c| (start(&c), c.get(1).map(|m| m.start())))
}

/// Calls `regex::Regex::captures_iter` and gives of each match the first two
/// groups and the offsets at which it starts and ends. Which matches there are is
/// left to the regex engine, and named. Beside that the contract claims that a
/// match starts and ends within the text at character boundaries, and that a match
/// of a function header ends with the opening brace.
#[verifier::external_body]
pub(crate) fn captures(pattern: &str, text: &str) -> (r: Vec<
    (Option<String>, Option<String>, usize, usize),
>)
    requires
        pattern@ == FUNCTION_HEADER@ || pattern@ == INSTALL_FILE@,
    ensures
        captures_of(r@) == regex_captures(pattern@, text@),
        forall|i: int|
            0 <= i < r@.len() ==> {
                &&& (#[trigger] r@[i]).2 <= r@[i].3 <= utf8::encode_utf8(text@).len()
                &&& utf8::is_char_boundary(utf8::encode_utf8(text@), r@[i].2 as int)
                &&& utf8::is_char_boundary(utf8::encode_utf8(text@), r@[i].3 as int)
                &&& pattern@ == FUNCTION_HEADER@ ==> r@[i].2 < r@[i].3 && utf8::encode_utf8(
                    text@,
                )[r@[i].3 - 1] == 0x7b
            },
{
    let group = |c: &regex::Captures, i: usize| c.get(i).map(|m| m.as_str().to_string());
    let span = |c: &regex::Captures| c.get(0).map_or((0, 0), |m| (m.start(), m.end()));
    let re = regex::Regex::new(pattern).expect("valid pattern");
    re.captures_iter(text).map(|c| (group(&c, 1), group(&c, 2), span(&c).0, span(&c).1)).collect()
}

/// The JavaScript package managers, then white space, then a verb that installs or
/// runs a package.
pub proof fn law_js_pkg_install_pattern()
    ensures
        JS_PKG_INSTALL@ == r"\b(npm|pnpm|yarn|bun)\b"@ + r"\s+"@ + r"(install|add|i|ci|x|exec|dlx)\b"@,
{
    reveal_strlit(r"\b(npm|pnpm|yarn|bun)\b\s+(install|add|i|ci|x|exec|dlx)\b");
    reveal_strlit(r"\b(npm|pnpm|yarn|bun)\b");
    reveal_strlit(r"\s+");
    reveal_strlit(r"(install|add|i|ci|x|exec|dlx)\b");
    assert(JS_PKG_INSTALL@ =~= r"\b(npm|pnpm|yarn|bun)\b"@ + r"\s+"@ + r"(install|add|i|ci|x|exec|dlx)\b"@);
}

/// `pip` in any version, then white space, then `install`.
pub proof fn law_pip_install_pattern()
    ensures
        PIP_INSTALL@ == r"\bpip[0-9.]*"@ + r"\s+"@ + r"install\b"@,
{
    reveal_strlit(r"\bpip[0-9.]*\s+install\b");
    reveal_strlit(r"\bpip[0-9.]*");
    reveal_strlit(r"\s+");
    reveal_strlit(r"install\b");
    assert(PIP_INSTALL@ =~= r"\bpip[0-9.]*"@ + r"\s+"@ + r"install\b"@);
}

/// A tool that downloads, a pipe on the same line, and a shell behind it, with or
/// without `sudo`.
pub proof fn law_pipe_to_shell_pattern()
    ensures
        PIPE_TO_SHELL@ == r"(curl|wget|fetch)\b"@ + r"[^\n|]*\|\s*"@ + r"(sudo\s+)?"@ + r"(ba|z)?sh\b"@,
{
    reveal_strlit(r"(curl|wget|fetch)\b[^\n|]*\|\s*(sudo\s+)?(ba|z)?sh\b");
    reveal_strlit(r"(curl|wget|fetch)\b");
    reveal_strlit(r"[^\n|]*\|\s*");
    reveal_strlit(r"(sudo\s+)?");
    reveal_strlit(r"(ba|z)?sh\b");
    assert(PIPE_TO_SHELL@ =~= r"(curl|wget|fetch)\b"@ + r"[^\n|]*\|\s*"@ + r"(sudo\s+)?"@ + r"(ba|z)?sh\b"@);
}

/// The places, tools and calls of eBPF, and the call that hides files.
pub proof fn law_ebpf_pattern()
    ensures
        EBPF@ == r"(/sys/fs/bpf|\bbpftool\b|\blibbpf\b"@ + r"|\bbpf_[a-z_]+\b|BPF_PROG"@ + r"|getdents64)"@,
{
    reveal_strlit(r"(/sys/fs/bpf|\bbpftool\b|\blibbpf\b|\bbpf_[a-z_]+\b|BPF_PROG|getdents64)");
    reveal_strlit(r"(/sys/fs/bpf|\bbpftool\b|\blibbpf\b");
    reveal_strlit(r"|\bbpf_[a-z_]+\b|BPF_PROG");
    reveal_strlit(r"|getdents64)");
    assert(EBPF@ =~= r"(/sys/fs/bpf|\bbpftool\b|\blibbpf\b"@ + r"|\bbpf_[a-z_]+\b|BPF_PROG"@ + r"|getdents64)"@);
}

/// `base64` with one of the options that decode.
pub proof fn law_base64_decode_pattern()
    ensures
        BASE64_DECODE@ == r"\bbase64\b"@ + r"\s+"@ + r"(-d|-D|--decode)\b"@,
{
    reveal_strlit(r"\bbase64\b\s+(-d|-D|--decode)\b");
    reveal_strlit(r"\bbase64\b");
    reveal_strlit(r"\s+");
    reveal_strlit(r"(-d|-D|--decode)\b");
    assert(BASE64_DECODE@ =~= r"\bbase64\b"@ + r"\s+"@ + r"(-d|-D|--decode)\b"@);
}

/// The word `eval`, and not a longer one.
pub proof fn law_eval_pattern()
    ensures
        EVAL@ == r"\b"@ + r"eval"@ + r"\b"@,
{
    reveal_strlit(r"\beval\b");
    reveal_strlit(r"\b");
    reveal_strlit(r"eval");
    assert(EVAL@ =~= r"\b"@ + r"eval"@ + r"\b"@);
}

/// `chmod` with a mode that sets a setuid or setgid bit, by letter or by number.
pub proof fn law_setuid_pattern()
    ensures
        SETUID@ == r"chmod\s+"@ + r"(u\+s|g\+s|\+s"@ + r"|[0-7]*[2467][0-7]{3})\b"@,
{
    reveal_strlit(r"chmod\s+(u\+s|g\+s|\+s|[0-7]*[2467][0-7]{3})\b");
    reveal_strlit(r"chmod\s+");
    reveal_strlit(r"(u\+s|g\+s|\+s");
    reveal_strlit(r"|[0-7]*[2467][0-7]{3})\b");
    assert(SETUID@ =~= r"chmod\s+"@ + r"(u\+s|g\+s|\+s"@ + r"|[0-7]*[2467][0-7]{3})\b"@);
}

/// The places of system services, scheduled jobs, profiles, shell start files and
/// desktop sessions.
pub proof fn law_persistence_pattern()
    ensures
        PERSISTENCE@ == r"(/etc/systemd/system|/etc/cron|/etc/profile\.d"@ + r"|\.bashrc|\.zshrc|\.profile"@ + r"|\.config/autostart|\bcrontab\s+-)"@,
{
    reveal_strlit(r"(/etc/systemd/system|/etc/cron|/etc/profile\.d|\.bashrc|\.zshrc|\.profile|\.config/autostart|\bcrontab\s+-)");
    reveal_strlit(r"(/etc/systemd/system|/etc/cron|/etc/profile\.d");
    reveal_strlit(r"|\.bashrc|\.zshrc|\.profile");
    reveal_strlit(r"|\.config/autostart|\bcrontab\s+-)");
    assert(PERSISTENCE@ =~= r"(/etc/systemd/system|/etc/cron|/etc/profile\.d"@ + r"|\.bashrc|\.zshrc|\.profile"@ + r"|\.config/autostart|\bcrontab\s+-)"@);
}

/// The hosts that share files for a while.
pub proof fn law_suspicious_host_pattern()
    ensures
        SUSPICIOUS_HOST@ == r"(pastebin\.com|anonfiles|transfer\.sh|0x0\.st"@ + r"|file\.io|bashupload|ghostbin|termbin)"@,
{
    reveal_strlit(r"(pastebin\.com|anonfiles|transfer\.sh|0x0\.st|file\.io|bashupload|ghostbin|termbin)");
    reveal_strlit(r"(pastebin\.com|anonfiles|transfer\.sh|0x0\.st");
    reveal_strlit(r"|file\.io|bashupload|ghostbin|termbin)");
    assert(SUSPICIOUS_HOST@ =~= r"(pastebin\.com|anonfiles|transfer\.sh|0x0\.st"@ + r"|file\.io|bashupload|ghostbin|termbin)"@);
}

/// A web address whose host is four numbers.
pub proof fn law_raw_ip_pattern()
    ensures
        RAW_IP@ == r"https?://"@ + r"\d{1,3}"@ + r"(\.\d{1,3}){3}"@,
{
    reveal_strlit(r"https?://\d{1,3}(\.\d{1,3}){3}");
    reveal_strlit(r"https?://");
    reveal_strlit(r"\d{1,3}");
    reveal_strlit(r"(\.\d{1,3}){3}");
    assert(RAW_IP@ =~= r"https?://"@ + r"\d{1,3}"@ + r"(\.\d{1,3}){3}"@);
}

/// Clearing the history, forgetting its file, or sending it nowhere.
pub proof fn law_history_pattern()
    ensures
        HISTORY@ == r"(history\s+-c"@ + r"|unset\s+HISTFILE"@ + r"|HISTFILE=/dev/null)"@,
{
    reveal_strlit(r"(history\s+-c|unset\s+HISTFILE|HISTFILE=/dev/null)");
    reveal_strlit(r"(history\s+-c");
    reveal_strlit(r"|unset\s+HISTFILE");
    reveal_strlit(r"|HISTFILE=/dev/null)");
    assert(HISTORY@ =~= r"(history\s+-c"@ + r"|unset\s+HISTFILE"@ + r"|HISTFILE=/dev/null)"@);
}

/// A tool that reaches the network, at the start of a line or behind a separator of
/// commands; or `git clone` anywhere.
pub proof fn law_network_tool_pattern()
    ensures
        NETWORK_TOOL@ == r"(?m)(?:^|[;&|(`]|&&|\|\||\bthen\b|\bdo\b|\$\()"@ + r"\s*"@ + r"(curl|wget|scp|rsync|ncat|socat)\b"@ + r"|\bgit\s+clone\b"@,
{
    reveal_strlit(r"(?m)(?:^|[;&|(`]|&&|\|\||\bthen\b|\bdo\b|\$\()\s*(curl|wget|scp|rsync|ncat|socat)\b|\bgit\s+clone\b");
    reveal_strlit(r"(?m)(?:^|[;&|(`]|&&|\|\||\bthen\b|\bdo\b|\$\()");
    reveal_strlit(r"\s*");
    reveal_strlit(r"(curl|wget|scp|rsync|ncat|socat)\b");
    reveal_strlit(r"|\bgit\s+clone\b");
    assert(NETWORK_TOOL@ =~= r"(?m)(?:^|[;&|(`]|&&|\|\||\bthen\b|\bdo\b|\$\()"@ + r"\s*"@ + r"(curl|wget|scp|rsync|ncat|socat)\b"@ + r"|\bgit\s+clone\b"@);
}

/// At the start of a line `function` and a name, with or without parentheses, or a
/// name with them; then the brace.
pub proof fn law_function_header_pattern()
    ensures
        FUNCTION_HEADER@ == r"(?m)^\s*"@ + r"(?:function\s+([A-Za-z_][A-Za-z0-9_]*)(?:\s*\(\s*\))?"@ + r"|([A-Za-z_][A-Za-z0-9_]*)\s*\(\s*\))"@ + r"\s*\{"@,
{
    reveal_strlit(r"(?m)^\s*(?:function\s+([A-Za-z_][A-Za-z0-9_]*)(?:\s*\(\s*\))?|([A-Za-z_][A-Za-z0-9_]*)\s*\(\s*\))\s*\{");
    reveal_strlit(r"(?m)^\s*");
    reveal_strlit(r"(?:function\s+([A-Za-z_][A-Za-z0-9_]*)(?:\s*\(\s*\))?");
    reveal_strlit(r"|([A-Za-z_][A-Za-z0-9_]*)\s*\(\s*\))");
    reveal_strlit(r"\s*\{");
    assert(FUNCTION_HEADER@ =~= r"(?m)^\s*"@ + r"(?:function\s+([A-Za-z_][A-Za-z0-9_]*)(?:\s*\(\s*\))?"@ + r"|([A-Za-z_][A-Za-z0-9_]*)\s*\(\s*\))"@ + r"\s*\{"@);
}

/// At the start of a line `install=` and what follows it up to a quote or white
/// space.
pub proof fn law_install_file_pattern()
    ensures
        INSTALL_FILE@ == r"(?m)^\s*"@ + r"install="@ + r#"["']?"#@ + r#"([^"'\s]+)"#@,
{
    reveal_strlit(r#"(?m)^\s*install=["']?([^"'\s]+)"#);
    reveal_strlit(r"(?m)^\s*");
    reveal_strlit(r"install=");
    reveal_strlit(r#"["']?"#);
    reveal_strlit(r#"([^"'\s]+)"#);
    assert(INSTALL_FILE@ =~= r"(?m)^\s*"@ + r"install="@ + r#"["']?"#@ + r#"([^"'\s]+)"#@);
}

} // verus!
