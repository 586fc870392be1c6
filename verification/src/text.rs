//! Character-level text operations, each proved against a short definition
//! over the sequence of characters (or bytes) of the text.

use vstd::prelude::*;
use vstd::utf8;

verus! {

/// `String::push` appends one character to the end of the string.
pub assume_specification[ String::push ](s: &mut String, c: char)
    ensures
        final(s)@ == old(s)@.push(c),
;

/// The contents of a list of strings.
pub open spec fn texts(v: Seq<String>) -> Seq<Seq<char>> {
    Seq::new(v.len(), |i: int| v[i]@)
}

/// The contents of a list of string slices.
pub open spec fn slices(v: Seq<&str>) -> Seq<Seq<char>> {
    Seq::new(v.len(), |i: int| v[i]@)
}

/// The contents of an optional string.
pub open spec fn opt_text(o: Option<String>) -> Option<Seq<char>> {
    match o {
        Some(s) => Some(s@),
        None => None,
    }
}

/// The contents of an optional string slice.
pub open spec fn opt_slice(o: Option<&str>) -> Option<Seq<char>> {
    match o {
        Some(s) => Some(s@),
        None => None,
    }
}

/// The characters of a string, in order.
pub fn chars_of(s: &str) -> (r: Vec<char>)
    ensures
        r@ == s@,
{
    let mut out: Vec<char> = Vec::new();
    for c in it: s.chars()
        invariant
            out@ == s@.take(it.index()),
            it.seq() == s@,
    {
        proof {
            assert(s@.take(it.index() + 1) =~= s@.take(it.index()).push(c));
        }
        out.push(c);
    }
    proof {
        assert(s@.take(s@.len() as int) =~= s@);
    }
    out
}

/// The string made of the characters `cs[from..to]`.
pub fn string_between(cs: &Vec<char>, from: usize, to: usize) -> (r: String)
    requires
        from <= to <= cs@.len(),
    ensures
        r@ == cs@.subrange(from as int, to as int),
{
    let mut s = String::new();
    let mut i: usize = from;
    while i < to
        invariant
            from <= i <= to <= cs@.len(),
            s@ == cs@.subrange(from as int, i as int),
        decreases to - i,
    {
        proof {
            assert(cs@.subrange(from as int, i + 1) =~= cs@.subrange(from as int, i as int).push(
                cs@[i as int],
            ));
        }
        s.push(cs[i]);
        i += 1;
    }
    s
}

/// `a` followed by `b`.
pub fn concat(a: &str, b: &str) -> (r: String)
    ensures
        r@ == a@ + b@,
{
    let mut s = String::from_str(a);
    s.append(b);
    s
}

/// `a`, then `b`, then `c`.
pub fn concat3(a: &str, b: &str, c: &str) -> (r: String)
    ensures
        r@ == a@ + b@ + c@,
{
    let mut s = String::from_str(a);
    s.append(b);
    s.append(c);
    s
}

/// Whether two string slices have the same contents.
pub fn same(a: &str, b: &str) -> (r: bool)
    ensures
        r == (a@ == b@),
{
    let x = a.as_bytes();
    let y = b.as_bytes();
    proof {
        utf8::encode_utf8_decode_utf8(a@);
        utf8::encode_utf8_decode_utf8(b@);
    }
    if x.len() != y.len() {
        return false;
    }
    let mut i: usize = 0;
    while i < x.len()
        invariant
            i <= x@.len(),
            x@.len() == y@.len(),
            x@ == utf8::encode_utf8(a@),
            y@ == utf8::encode_utf8(b@),
            forall|j: int| 0 <= j < i ==> x@[j] == y@[j],
        decreases x@.len() - i,
    {
        if x[i] != y[i] {
            return false;
        }
        i += 1;
    }
    proof {
        assert(x@ =~= y@);
    }
    true
}

/// Whether the list holds a string with the contents `s`.
pub fn list_contains(v: &Vec<String>, s: &str) -> (r: bool)
    ensures
        r == texts(v@).contains(s@),
{
    let mut i: usize = 0;
    while i < v.len()
        invariant
            i <= v@.len(),
            forall|j: int| 0 <= j < i ==> v@[j]@ != s@,
        decreases v@.len() - i,
    {
        if same(v[i].as_str(), s) {
            proof {
                assert(texts(v@)[i as int] == s@);
            }
            return true;
        }
        i += 1;
    }
    false
}

/// The Unicode `White_Space` property.
pub open spec fn is_white_space(c: char) -> bool {
    ||| '\u{9}' <= c <= '\u{d}'
    ||| c == ' '
    ||| c == '\u{85}'
    ||| c == '\u{a0}'
    ||| c == '\u{1680}'
    ||| '\u{2000}' <= c <= '\u{200a}'
    ||| c == '\u{2028}'
    ||| c == '\u{2029}'
    ||| c == '\u{202f}'
    ||| c == '\u{205f}'
    ||| c == '\u{3000}'
}

/// Whether `c` has the Unicode `White_Space` property.
pub fn white_space(c: char) -> (r: bool)
    ensures
        r == is_white_space(c),
{
    ('\u{9}' <= c && c <= '\u{d}') || c == ' ' || c == '\u{85}' || c == '\u{a0}' || c == '\u{1680}'
        || ('\u{2000}' <= c && c <= '\u{200a}') || c == '\u{2028}' || c == '\u{2029}' || c
        == '\u{202f}' || c == '\u{205f}' || c == '\u{3000}'
}

/// `s` without its leading white space.
pub open spec fn trim_start(s: Seq<char>) -> Seq<char>
    decreases s.len(),
{
    if s.len() > 0 && is_white_space(s[0]) {
        trim_start(s.drop_first())
    } else {
        s
    }
}

/// `s` without its trailing white space.
pub open spec fn trim_end(s: Seq<char>) -> Seq<char>
    decreases s.len(),
{
    if s.len() > 0 && is_white_space(s.last()) {
        trim_end(s.drop_last())
    } else {
        s
    }
}

/// `s` without leading and trailing white space.
pub open spec fn trimmed(s: Seq<char>) -> Seq<char> {
    trim_end(trim_start(s))
}

/// The index in `cs[from..to]` where leading white space ends.
fn skip_white_space(cs: &Vec<char>, from: usize, to: usize) -> (r: usize)
    requires
        from <= to <= cs@.len(),
    ensures
        from <= r <= to,
        cs@.subrange(r as int, to as int) == trim_start(cs@.subrange(from as int, to as int)),
{
    let mut i: usize = from;
    while i < to && white_space(cs[i])
        invariant
            from <= i <= to <= cs@.len(),
            trim_start(cs@.subrange(i as int, to as int)) == trim_start(
                cs@.subrange(from as int, to as int),
            ),
        decreases to - i,
    {
        proof {
            assert(cs@.subrange(i as int, to as int).drop_first() =~= cs@.subrange(
                i + 1,
                to as int,
            ));
        }
        i += 1;
    }
    i
}

/// `s` without leading and trailing white space.
pub fn trim(s: &str) -> (r: String)
    ensures
        r@ == trimmed(s@),
{
    let cs = chars_of(s);
    let n: usize = cs.len();
    let start: usize = skip_white_space(&cs, 0, n);
    let mut end: usize = n;
    proof {
        assert(cs@.subrange(0, n as int) =~= s@);
    }
    while end > start && white_space(cs[end - 1])
        invariant
            start <= end <= n,
            n == cs@.len(),
            trim_end(cs@.subrange(start as int, end as int)) == trim_end(
                cs@.subrange(start as int, n as int),
            ),
        decreases end,
    {
        proof {
            assert(cs@.subrange(start as int, end as int).drop_last() =~= cs@.subrange(
                start as int,
                end - 1,
            ));
        }
        end -= 1;
    }
    string_between(&cs, start, end)
}

/// Whether the first character of `s` that is not white space is `c`.
pub fn first_visible_is(s: &str, c: char) -> (r: bool)
    ensures
        r == (trim_start(s@).len() > 0 && trim_start(s@)[0] == c),
{
    let cs = chars_of(s);
    let i: usize = skip_white_space(&cs, 0, cs.len());
    proof {
        assert(cs@.subrange(0, cs@.len() as int) =~= s@);
        if i < cs@.len() {
            assert(cs@.subrange(i as int, cs@.len() as int)[0] == cs@[i as int]);
        }
    }
    i < cs.len() && cs[i] == c
}

/// The number of characters of `s` before its first line feed.
pub open spec fn line_len(s: Seq<char>) -> int
    decreases s.len(),
{
    if s.len() == 0 || s[0] == '\n' {
        0
    } else {
        1 + line_len(s.drop_first())
    }
}

/// A line that was ended by a line feed, without the carriage return before it.
pub open spec fn without_cr(s: Seq<char>) -> Seq<char> {
    if s.len() > 0 && s.last() == '\r' {
        s.drop_last()
    } else {
        s
    }
}

/// The lines of a text. A line ends with `\n` or `\r\n`, which are not part of
/// it; the end of the last line is optional.
pub open spec fn lines_of(s: Seq<char>) -> Seq<Seq<char>>
    decreases s.len(),
    via lines_of_decreases
{
    if s.len() == 0 {
        Seq::empty()
    } else if line_len(s) == s.len() {
        seq![s]
    } else {
        seq![without_cr(s.take(line_len(s)))] + lines_of(s.skip(line_len(s) + 1))
    }
}

#[via_fn]
proof fn lines_of_decreases(s: Seq<char>) {
    lemma_line_len(s);
}

/// The first line feed of a text comes right after its first line.
pub proof fn lemma_line_len(s: Seq<char>)
    ensures
        0 <= line_len(s) <= s.len(),
        forall|i: int| 0 <= i < line_len(s) ==> s[i] != '\n',
        line_len(s) < s.len() ==> s[line_len(s)] == '\n',
    decreases s.len(),
{
    if s.len() > 0 && s[0] != '\n' {
        let t = s.drop_first();
        lemma_line_len(t);
        assert forall|i: int| 0 <= i < line_len(s) implies s[i] != '\n' by {
            if i > 0 {
                assert(s[i] == t[i - 1]);
            }
        }
        if line_len(s) < s.len() {
            assert(s[line_len(s)] == t[line_len(t)]);
        }
    }
}

/// The length of the first line of a text is where its first line feed is.
proof fn lemma_line_len_at(s: Seq<char>, k: int)
    requires
        0 <= k <= s.len(),
        forall|i: int| 0 <= i < k ==> s[i] != '\n',
        k < s.len() ==> s[k] == '\n',
    ensures
        line_len(s) == k,
{
    lemma_line_len(s);
    if line_len(s) < k {
        assert(s[line_len(s)] == '\n');
    }
}

/// The lines of a text.
pub fn lines(s: &str) -> (r: Vec<String>)
    ensures
        texts(r@) == lines_of(s@),
{
    let cs = chars_of(s);
    let n: usize = cs.len();
    let mut out: Vec<String> = Vec::new();
    let mut start: usize = 0;
    proof {
        assert(cs@.skip(0) =~= cs@);
        assert(texts(out@) + lines_of(cs@) =~= lines_of(cs@));
    }
    while start < n
        invariant
            start <= n,
            n == cs@.len(),
            texts(out@) + lines_of(cs@.skip(start as int)) == lines_of(cs@),
        decreases n - start,
    {
        let ghost rest = cs@.skip(start as int);
        let mut k: usize = start;
        while k < n && cs[k] != '\n'
            invariant
                start <= k <= n,
                n == cs@.len(),
                forall|i: int| start <= i < k ==> cs@[i] != '\n',
            decreases n - k,
        {
            k += 1;
        }
        proof {
            lemma_line_len_at(rest, k - start);
        }
        let ghost before = texts(out@);
        if k == n {
            let line = string_between(&cs, start, n);
            proof {
                assert(line@ =~= rest);
            }
            out.push(line);
            start = n;
            proof {
                assert(texts(out@) =~= before.push(rest));
                assert(cs@.skip(n as int) =~= Seq::<char>::empty());
                assert(texts(out@) + lines_of(cs@.skip(n as int)) =~= before + lines_of(rest));
            }
        } else {
            let end: usize = if k > start && cs[k - 1] == '\r' {
                k - 1
            } else {
                k
            };
            let line = string_between(&cs, start, end);
            let ghost text = without_cr(rest.take(k - start));
            proof {
                assert(line@ =~= text);
            }
            out.push(line);
            start = k + 1;
            proof {
                assert(texts(out@) =~= before.push(text));
                assert(rest.skip(line_len(rest) + 1) =~= cs@.skip(start as int));
                assert(texts(out@) + lines_of(cs@.skip(start as int)) =~= before + lines_of(rest));
            }
        }
    }
    proof {
        assert(cs@.skip(start as int) =~= Seq::<char>::empty());
        assert(texts(out@) + lines_of(cs@.skip(start as int)) =~= texts(out@));
    }
    out
}

/// Whether `pat` stands in `s` at index `i`.
pub open spec fn occurs_at(s: Seq<char>, pat: Seq<char>, i: int) -> bool {
    &&& 0 <= i
    &&& i + pat.len() <= s.len()
    &&& s.subrange(i, i + pat.len()) == pat
}

/// Whether `pat` stands anywhere in `s`.
pub open spec fn contains_text(s: Seq<char>, pat: Seq<char>) -> bool {
    exists|i: int| occurs_at(s, pat, i)
}

/// Where `pat` first stands in `s` at or after index `from`.
pub open spec fn first_at(s: Seq<char>, pat: Seq<char>, from: int) -> Option<int>
    decreases s.len() + 1 - from,
{
    if from + pat.len() > s.len() {
        None
    } else if occurs_at(s, pat, from) {
        Some(from)
    } else {
        first_at(s, pat, from + 1)
    }
}

/// What `first_at` finds is the least index at which the pattern stands.
pub proof fn lemma_first_at(s: Seq<char>, pat: Seq<char>, from: int)
    requires
        0 <= from,
    ensures
        match first_at(s, pat, from) {
            Some(i) => {
                &&& from <= i
                &&& occurs_at(s, pat, i)
                &&& forall|j: int| from <= j < i ==> !occurs_at(s, pat, j)
            },
            None => forall|j: int| from <= j ==> !occurs_at(s, pat, j),
        },
    decreases s.len() + 1 - from,
{
    if from + pat.len() <= s.len() && !occurs_at(s, pat, from) {
        lemma_first_at(s, pat, from + 1);
    }
}

/// Whether `pat` stands in `cs` at index `i`.
pub fn stands_at(cs: &Vec<char>, pat: &Vec<char>, i: usize) -> (r: bool)
    ensures
        r == occurs_at(cs@, pat@, i as int),
{
    let n: usize = cs.len();
    if i > n || pat.len() > n - i {
        return false;
    }
    let mut k: usize = 0;
    while k < pat.len()
        invariant
            k <= pat@.len(),
            n == cs@.len(),
            i + pat@.len() <= n,
            forall|j: int| 0 <= j < k ==> cs@[i + j] == pat@[j],
        decreases pat@.len() - k,
    {
        if cs[i + k] != pat[k] {
            proof {
                assert(cs@.subrange(i as int, i + pat@.len())[k as int] != pat@[k as int]);
            }
            return false;
        }
        k += 1;
    }
    proof {
        assert(cs@.subrange(i as int, i + pat@.len()) =~= pat@);
    }
    true
}

/// Where `pat` first stands in `cs` at or after index `from`.
pub fn find(cs: &Vec<char>, pat: &Vec<char>, from: usize) -> (r: Option<usize>)
    ensures
        match r {
            Some(i) => first_at(cs@, pat@, from as int) == Some(i as int),
            None => first_at(cs@, pat@, from as int) is None,
        },
{
    let mut i: usize = from;
    while i <= cs.len() && pat.len() <= cs.len() - i
        invariant
            from <= i,
            i <= cs@.len() + 1 || i == from,
            first_at(cs@, pat@, i as int) == first_at(cs@, pat@, from as int),
        decreases cs@.len() + 1 - i,
    {
        if stands_at(cs, pat, i) {
            return Some(i);
        }
        if i == cs.len() {
            proof {
                assert(cs@.subrange(i as int, i as int) =~= pat@);
            }
            return None;
        }
        i += 1;
    }
    None
}

/// Whether `pat` stands anywhere in `s`.
pub fn contains(s: &str, pat: &str) -> (r: bool)
    ensures
        r == contains_text(s@, pat@),
{
    let cs = chars_of(s);
    let p = chars_of(pat);
    proof {
        lemma_first_at(s@, pat@, 0);
    }
    find(&cs, &p, 0).is_some()
}

/// Whether `s` begins with `pat`.
pub fn starts_with(s: &str, pat: &str) -> (r: bool)
    ensures
        r == pat@.is_prefix_of(s@),
{
    let cs = chars_of(s);
    let p = chars_of(pat);
    stands_at(&cs, &p, 0)
}

/// Whether `s` ends with `pat`.
pub fn ends_with(s: &str, pat: &str) -> (r: bool)
    ensures
        r == pat@.is_suffix_of(s@),
{
    let cs = chars_of(s);
    let p = chars_of(pat);
    if p.len() > cs.len() {
        return false;
    }
    stands_at(&cs, &p, cs.len() - p.len())
}

/// `s` with each occurrence of `pat`, taken from the left without overlap,
/// replaced by `to`.
pub open spec fn replaced(s: Seq<char>, pat: Seq<char>, to: Seq<char>) -> Seq<char>
    decreases s.len(),
{
    match first_at(s, pat, 0) {
        Some(i) if 0 <= i && pat.len() > 0 && i + pat.len() <= s.len() => s.take(i) + to + replaced(
            s.skip(i + pat.len()),
            pat,
            to,
        ),
        _ => s,
    }
}

/// The first occurrence in a suffix, seen from the whole text.
proof fn lemma_first_at_skip(s: Seq<char>, pat: Seq<char>, base: int, from: int)
    requires
        0 <= base <= s.len(),
        0 <= from,
    ensures
        first_at(s, pat, base + from) == (match first_at(s.skip(base), pat, from) {
            Some(i) => Some(base + i),
            None => None,
        }),
    decreases s.len() + 1 - base - from,
{
    let t = s.skip(base);
    if from + pat.len() <= t.len() {
        assert(t.subrange(from, from + pat.len()) =~= s.subrange(
            base + from,
            base + from + pat.len(),
        ));
        if !occurs_at(t, pat, from) {
            lemma_first_at_skip(s, pat, base, from + 1);
        }
    }
}

/// `s` with each occurrence of `pat` replaced by `to`.
pub fn replace(s: &str, pat: &str, to: &str) -> (r: String)
    requires
        pat@.len() > 0,
    ensures
        r@ == replaced(s@, pat@, to@),
{
    let cs = chars_of(s);
    let n: usize = cs.len();
    let p = chars_of(pat);
    let mut out = String::new();
    let mut from: usize = 0;
    proof {
        assert(cs@.skip(0) =~= cs@);
        assert(out@ + replaced(cs@, pat@, to@) =~= replaced(cs@, pat@, to@));
    }
    loop
        invariant
            from <= n,
            n == cs@.len(),
            cs@ == s@,
            p@ == pat@,
            pat@.len() > 0,
            out@ + replaced(cs@.skip(from as int), pat@, to@) == replaced(cs@, pat@, to@),
        decreases cs@.len() - from,
    {
        let ghost rest = cs@.skip(from as int);
        proof {
            lemma_first_at_skip(cs@, pat@, from as int, 0);
            lemma_first_at(rest, pat@, 0);
        }
        match find(&cs, &p, from) {
            Some(i) => {
                let piece = string_between(&cs, from, i);
                let ghost before = out@;
                out.append(piece.as_str());
                out.append(to);
                from = i + p.len();
                proof {
                    let k = first_at(rest, pat@, 0)->0;
                    assert(piece@ =~= rest.take(k));
                    assert(cs@.skip(from as int) =~= rest.skip(k + pat@.len()));
                    assert(out@ + replaced(cs@.skip(from as int), pat@, to@) =~= before + (
                    rest.take(k) + to@ + replaced(rest.skip(k + pat@.len()), pat@, to@)));
                }
            },
            None => {
                let piece = string_between(&cs, from, n);
                proof {
                    assert(piece@ =~= rest);
                }
                out.append(piece.as_str());
                return out;
            },
        }
    }
}

/// The decimal digits of a number.
pub open spec fn dec(n: nat) -> Seq<char>
    decreases n,
{
    if n < 10 {
        seq![digit(n)]
    } else {
        dec(n / 10).push(digit(n % 10))
    }
}

/// The lower-case digit of a value below sixteen.
pub open spec fn digit(n: nat) -> char {
    if n < 10 {
        (48 + n) as char
    } else {
        (87 + n) as char
    }
}

/// The upper-case digit of a value below sixteen.
pub open spec fn upper_digit(n: nat) -> char {
    if n < 10 {
        (48 + n) as char
    } else {
        (55 + n) as char
    }
}

fn digit_char(n: u8) -> (r: char)
    requires
        n < 16,
    ensures
        r == digit(n as nat),
{
    if n < 10 {
        (48 + n) as char
    } else {
        (87 + n) as char
    }
}

fn upper_digit_char(n: u8) -> (r: char)
    requires
        n < 16,
    ensures
        r == upper_digit(n as nat),
{
    if n < 10 {
        (48 + n) as char
    } else {
        (55 + n) as char
    }
}

/// The decimal digits of a number.
pub fn decimal(n: u128) -> (r: String)
    ensures
        r@ == dec(n as nat),
    decreases n,
{
    let mut s = if n < 10 {
        String::new()
    } else {
        decimal(n / 10)
    };
    s.push(digit_char((n % 10) as u8));
    proof {
        assert(n < 10 ==> s@ =~= seq![digit(n as nat)]);
    }
    s
}

/// Two lower-case hexadecimal digits for each byte.
pub open spec fn hex_of(bytes: Seq<u8>) -> Seq<char>
    decreases bytes.len(),
{
    if bytes.len() == 0 {
        Seq::empty()
    } else {
        hex_of(bytes.drop_last()).push(digit((bytes.last() / 16) as nat)).push(
            digit((bytes.last() % 16) as nat),
        )
    }
}

/// Two lower-case hexadecimal digits for each byte.
pub fn hex(bytes: &Vec<u8>) -> (r: String)
    ensures
        r@ == hex_of(bytes@),
{
    let mut s = String::new();
    let mut i: usize = 0;
    while i < bytes.len()
        invariant
            i <= bytes@.len(),
            s@ == hex_of(bytes@.take(i as int)),
        decreases bytes@.len() - i,
    {
        proof {
            assert(bytes@.take(i + 1).drop_last() =~= bytes@.take(i as int));
        }
        s.push(digit_char(bytes[i] / 16));
        s.push(digit_char(bytes[i] % 16));
        i += 1;
    }
    proof {
        assert(bytes@.take(bytes@.len() as int) =~= bytes@);
    }
    s
}

/// `%` and the two upper-case hexadecimal digits of a byte.
pub open spec fn percent_code(b: u8) -> Seq<char> {
    seq!['%', upper_digit((b / 16) as nat), upper_digit((b % 16) as nat)]
}

/// Appends `%` and the two upper-case hexadecimal digits of a byte.
pub fn push_percent_code(s: &mut String, b: u8)
    ensures
        final(s)@ == old(s)@ + percent_code(b),
{
    s.push('%');
    s.push(upper_digit_char(b / 16));
    s.push(upper_digit_char(b % 16));
    proof {
        assert(s@ =~= old(s)@ + percent_code(b));
    }
}

/// An ASCII letter or digit.
pub open spec fn is_alphanumeric(c: char) -> bool {
    ||| 'a' <= c <= 'z'
    ||| 'A' <= c <= 'Z'
    ||| '0' <= c <= '9'
}

/// A character that a package name may hold.
pub open spec fn is_name_char(c: char) -> bool {
    is_alphanumeric(c) || c == '-' || c == '_' || c == '.' || c == '+'
}

/// Whether `c` may stand in a package name.
pub fn name_char(c: char) -> (r: bool)
    ensures
        r == is_name_char(c),
{
    ('a' <= c && c <= 'z') || ('A' <= c && c <= 'Z') || ('0' <= c && c <= '9') || c == '-' || c
        == '_' || c == '.' || c == '+'
}

/// An ASCII hexadecimal digit.
pub open spec fn is_hex_digit(c: char) -> bool {
    ||| '0' <= c <= '9'
    ||| 'a' <= c <= 'f'
    ||| 'A' <= c <= 'F'
}

/// Whether `c` is an ASCII hexadecimal digit.
pub fn hex_digit(c: char) -> (r: bool)
    ensures
        r == is_hex_digit(c),
{
    ('0' <= c && c <= '9') || ('a' <= c && c <= 'f') || ('A' <= c && c <= 'F')
}

/// The lower-case form of an ASCII letter; any other character as it is.
pub open spec fn ascii_lower(c: char) -> char {
    if 'A' <= c <= 'Z' {
        (c as u32 + 32) as char
    } else {
        c
    }
}

/// `s` with each ASCII letter in its lower-case form.
pub open spec fn ascii_lowered(s: Seq<char>) -> Seq<char> {
    s.map_values(|c: char| ascii_lower(c))
}

/// The characters `cs[from..to]` with each ASCII letter in its lower-case form.
pub fn lowered_between(cs: &Vec<char>, from: usize, to: usize) -> (r: String)
    requires
        from <= to <= cs@.len(),
    ensures
        r@ == ascii_lowered(cs@.subrange(from as int, to as int)),
{
    let mut s = String::new();
    let mut i: usize = from;
    while i < to
        invariant
            from <= i <= to <= cs@.len(),
            s@ == ascii_lowered(cs@.subrange(from as int, i as int)),
        decreases to - i,
    {
        let c = cs[i];
        let low = if 'A' <= c && c <= 'Z' {
            (c as u8 + 32) as char
        } else {
            c
        };
        proof {
            assert(cs@.subrange(from as int, i + 1) =~= cs@.subrange(from as int, i as int).push(c));
            assert(ascii_lowered(cs@.subrange(from as int, i + 1)) =~= ascii_lowered(
                cs@.subrange(from as int, i as int),
            ).push(low));
        }
        s.push(low);
        i += 1;
    }
    s
}

/// The number of leading characters before the first that `stop` picks.
pub open spec fn until(s: Seq<char>, stop: spec_fn(char) -> bool) -> int
    decreases s.len(),
{
    if s.len() == 0 || stop(s[0]) {
        0
    } else {
        1 + until(s.drop_first(), stop)
    }
}

/// `until` ends at the first character that `stop` picks.
pub proof fn lemma_until_at(s: Seq<char>, stop: spec_fn(char) -> bool, k: int)
    requires
        0 <= k <= s.len(),
        forall|i: int| 0 <= i < k ==> !stop(#[trigger] s[i]),
        k < s.len() ==> stop(s[k]),
    ensures
        until(s, stop) == k,
    decreases s.len(),
{
    if k > 0 {
        let t = s.drop_first();
        assert(!stop(s[0]));
        assert forall|i: int| 0 <= i < k - 1 implies !stop(#[trigger] t[i]) by {
            assert(t[i] == s[i + 1]);
        }
        lemma_until_at(t, stop, k - 1);
    }
}

/// Picks the characters that are white space.
pub open spec fn is_space() -> spec_fn(char) -> bool {
    |c: char| is_white_space(c)
}

/// The first word of a text, in lower case.
pub open spec fn first_word(s: Seq<char>) -> Option<Seq<char>> {
    let t = trim_start(s);
    if t.len() == 0 {
        None
    } else {
        Some(ascii_lowered(t.take(until(t, is_space()))))
    }
}

/// The first word of a text, in lower case.
pub fn word(s: &str) -> (r: Option<String>)
    ensures
        opt_text(r) == first_word(s@),
{
    let cs = chars_of(s);
    let n: usize = cs.len();
    let from = skip_white_space(&cs, 0, n);
    let ghost t = cs@.subrange(from as int, n as int);
    proof {
        assert(cs@.subrange(0, n as int) =~= s@);
    }
    if from == n {
        return None;
    }
    let mut end: usize = from;
    while end < n && !white_space(cs[end])
        invariant
            n == cs@.len(),
            from <= end <= n,
            forall|j: int| from <= j < end ==> !is_white_space(#[trigger] cs@[j]),
        decreases n - end,
    {
        end += 1;
    }
    proof {
        assert forall|j: int| 0 <= j < end - from implies !is_space()(#[trigger] t[j]) by {
            assert(t[j] == cs@[from + j]);
        }
        lemma_until_at(t, is_space(), end - from);
        assert(t.take(end - from) =~= cs@.subrange(from as int, end as int));
    }
    Some(lowered_between(&cs, from, end))
}

/// `until` stops at the first character that `stop` picks.
pub proof fn lemma_until(s: Seq<char>, stop: spec_fn(char) -> bool)
    ensures
        0 <= until(s, stop) <= s.len(),
        forall|i: int| 0 <= i < until(s, stop) ==> !stop(#[trigger] s[i]),
        until(s, stop) < s.len() ==> stop(s[until(s, stop)]),
    decreases s.len(),
{
    if s.len() > 0 && !stop(s[0]) {
        let t = s.drop_first();
        lemma_until(t, stop);
        assert forall|i: int| 0 <= i < until(s, stop) implies !stop(#[trigger] s[i]) by {
            if i > 0 {
                assert(t[i - 1] == s[i]);
            }
        }
    }
}

/// Trimming adds no character.
pub proof fn lemma_trimmed(s: Seq<char>, c: char)
    ensures
        trimmed(s).contains(c) ==> s.contains(c),
{
    lemma_trim_start(s, c);
    lemma_trim_end(trim_start(s), c);
}

proof fn lemma_trim_start(s: Seq<char>, c: char)
    ensures
        trim_start(s).contains(c) ==> s.contains(c),
    decreases s.len(),
{
    if s.len() > 0 && is_white_space(s[0]) {
        lemma_trim_start(s.drop_first(), c);
        if s.drop_first().contains(c) {
            let i = choose|i: int| 0 <= i < s.drop_first().len() && s.drop_first()[i] == c;
            assert(s[i + 1] == c);
        }
    }
}

proof fn lemma_trim_end(s: Seq<char>, c: char)
    ensures
        trim_end(s).contains(c) ==> s.contains(c),
    decreases s.len(),
{
    if s.len() > 0 && is_white_space(s.last()) {
        lemma_trim_end(s.drop_last(), c);
        if s.drop_last().contains(c) {
            let i = choose|i: int| 0 <= i < s.drop_last().len() && s.drop_last()[i] == c;
            assert(s[i] == c);
        }
    }
}

/// Each byte gives two digits.
pub proof fn lemma_hex_len(bytes: Seq<u8>)
    ensures
        hex_of(bytes).len() == 2 * bytes.len(),
    decreases bytes.len(),
{
    if bytes.len() > 0 {
        lemma_hex_len(bytes.drop_last());
    }
}

/// What counts as white space, by code point: the ASCII separators, and those
/// of Unicode.
pub proof fn law_white_space(c: char)
    ensures
        (c as u32) < 0x80 ==> (is_white_space(c) <==> c as u32 == 0x20 || 0x09 <= c as u32 <= 0x0d),
        (c as u32) >= 0x80 ==> (is_white_space(c) <==> c as u32 == 0x85 || c as u32 == 0xa0
            || c as u32 == 0x1680 || 0x2000 <= c as u32 <= 0x200a || c as u32 == 0x2028
            || c as u32 == 0x2029 || c as u32 == 0x202f || c as u32 == 0x205f || c as u32
            == 0x3000),
{
}

/// Every character of a text is white space.
pub open spec fn is_blank(s: Seq<char>) -> bool {
    forall|i: int| 0 <= i < s.len() ==> is_white_space(#[trigger] s[i])
}

/// A text neither starts nor ends with white space.
pub open spec fn is_tight(s: Seq<char>) -> bool {
    s.len() > 0 ==> !is_white_space(s[0]) && !is_white_space(s.last())
}

/// Trimming takes off the white space at both ends, and nothing else.
pub proof fn law_trimming_takes_white_space_off(w: Seq<char>, n: Seq<char>, v: Seq<char>)
    requires
        is_blank(w),
        is_tight(n),
        is_blank(v),
    ensures
        trimmed(w + n + v) == n,
        trim_start(w + n) == n,
{
    lemma_trim_start_blank(w, n + v);
    lemma_trim_start_blank(w, n);
    assert(w + n + v =~= w + (n + v));
    if n.len() > 0 {
        assert((n + v)[0] == n[0]);
        lemma_trim_end_blank(n, v);
    } else {
        assert(n + v =~= v);
        lemma_trim_start_blank(v, Seq::empty());
        assert(v + Seq::<char>::empty() =~= v);
        assert(trim_start(v) =~= n);
    }
}

proof fn lemma_trim_start_blank(w: Seq<char>, s: Seq<char>)
    requires
        is_blank(w),
    ensures
        trim_start(w + s) == trim_start(s),
    decreases w.len(),
{
    if w.len() > 0 {
        let rest = w.drop_first();
        assert forall|i: int| 0 <= i < rest.len() implies is_white_space(#[trigger] rest[i]) by {
            assert(rest[i] == w[i + 1]);
        }
        lemma_trim_start_blank(rest, s);
        assert((w + s).drop_first() =~= rest + s);
        assert((w + s)[0] == w[0]);
    } else {
        assert(w + s =~= s);
    }
}

proof fn lemma_trim_end_blank(s: Seq<char>, v: Seq<char>)
    requires
        is_blank(v),
        s.len() > 0,
        !is_white_space(s.last()),
    ensures
        trim_end(s + v) == s,
    decreases v.len(),
{
    if v.len() > 0 {
        let rest = v.drop_last();
        assert forall|i: int| 0 <= i < rest.len() implies is_white_space(#[trigger] rest[i]) by {
            assert(rest[i] == v[i]);
        }
        lemma_trim_end_blank(s, rest);
        assert((s + v).drop_last() =~= s + rest);
        assert((s + v).last() == v[v.len() - 1]);
    } else {
        assert(s + v =~= s);
    }
}

/// A line feed ends a line, and a carriage return before it belongs to the line
/// ending; what follows the last line feed is a line if it is not empty.
pub proof fn law_line_feeds_end_lines(line: Seq<char>, rest: Seq<char>)
    requires
        !line.contains('\n'),
    ensures
        lines_of(line + seq!['\n'] + rest) == seq![
            if line.len() > 0 && line.last() == '\r' {
                line.drop_last()
            } else {
                line
            },
        ] + lines_of(rest),
        line.len() > 0 ==> lines_of(line) == seq![line],
        lines_of(Seq::empty()) == Seq::<Seq<char>>::empty(),
{
    let s = line + seq!['\n'] + rest;
    assert forall|i: int| 0 <= i < line.len() implies s[i] != '\n' && line[i] != '\n' by {
        assert(s[i] == line[i]);
        assert(line.contains(line[i]));
    }
    lemma_line_len_at(s, line.len() as int);
    lemma_line_len_at(line, line.len() as int);
    assert(s.take(line.len() as int) =~= line);
    assert(s.skip(line.len() as int + 1) =~= rest);
}

/// A text holds a pattern exactly if it is something, the pattern, and something.
pub proof fn law_holding_a_pattern(s: Seq<char>, pat: Seq<char>)
    ensures
        contains_text(s, pat) <==> exists|a: Seq<char>, b: Seq<char>| s == #[trigger] (a + pat + b),
{
    if contains_text(s, pat) {
        let i = choose|i: int| occurs_at(s, pat, i);
        let a = s.take(i);
        let b = s.skip(i + pat.len());
        assert(s =~= a + pat + b);
    }
    if exists|a: Seq<char>, b: Seq<char>| s == #[trigger] (a + pat + b) {
        let (a, b) = choose|a: Seq<char>, b: Seq<char>| s == #[trigger] (a + pat + b);
        assert(s.subrange(a.len() as int, a.len() as int + pat.len()) =~= pat);
        assert(occurs_at(s, pat, a.len() as int));
    }
}

/// A text around a pattern holds it.
pub proof fn lemma_holds_pattern(a: Seq<char>, pat: Seq<char>, b: Seq<char>)
    ensures
        contains_text(a + pat + b, pat),
        occurs_at(a + pat + b, pat, a.len() as int),
{
    let s = a + pat + b;
    assert(s.subrange(a.len() as int, a.len() as int + pat.len()) =~= pat);
    assert(occurs_at(s, pat, a.len() as int));
}

/// Replacing goes from the left: what precedes the first occurrence of the
/// pattern stays, the occurrence is replaced, and the rest is treated alike. A
/// text without the pattern stays as it is.
pub proof fn law_replacing(a: Seq<char>, pat: Seq<char>, b: Seq<char>, to: Seq<char>, s: Seq<char>)
    requires
        pat.len() > 0,
        forall|i: int| 0 <= i < a.len() ==> !#[trigger] occurs_at(a + pat + b, pat, i),
        !contains_text(s, pat),
    ensures
        replaced(a + pat + b, pat, to) == a + to + replaced(b, pat, to),
        replaced(s, pat, to) == s,
{
    let t = a + pat + b;
    lemma_holds_pattern(a, pat, b);
    lemma_first_at(t, pat, 0);
    lemma_first_at(s, pat, 0);
    let i = first_at(t, pat, 0)->0;
    if i < a.len() {
        assert(!occurs_at(t, pat, i));
    }
    assert(t.take(i) =~= a);
    assert(t.skip(i + pat.len()) =~= b);
}

/// The number that a decimal numeral stands for.
pub open spec fn number_of(digits: Seq<char>) -> int
    decreases digits.len(),
{
    if digits.len() == 0 {
        0
    } else {
        10 * number_of(digits.drop_last()) + (digits.last() as int - 48)
    }
}

/// The decimal form of a number reads back as the number: it is made of digits
/// only, and has no leading zero but for zero itself.
pub proof fn law_decimal_reads_back(n: nat)
    ensures
        number_of(dec(n)) == n,
        dec(n).len() > 0,
        forall|i: int| 0 <= i < dec(n).len() ==> 48 <= (#[trigger] dec(n)[i]) as int <= 57,
        dec(n)[0] == '0' ==> n == 0,
    decreases n,
{
    assert('0' as int == 48);
    if n >= 10 {
        law_decimal_reads_back(n / 10);
        let before = dec(n / 10);
        let now = dec(n);
        assert(now.drop_last() =~= before);
        assert(now.last() as int == 48 + n % 10);
        assert(now[0] == before[0]);
        assert forall|i: int| 0 <= i < now.len() implies 48 <= (#[trigger] now[i]) as int <= 57 by {
            if i < before.len() {
                assert(now[i] == before[i]);
            }
        }
    } else {
        let now = dec(n);
        assert(now.drop_last() =~= Seq::<char>::empty());
        assert(now.last() as int == 48 + n);
        assert(number_of(now.drop_last()) == 0);
    }
}

/// The hexadecimal form of bytes has two digits for each, the high half first, in
/// lower case.
pub proof fn law_hexadecimal_digits(bytes: Seq<u8>, i: int)
    requires
        0 <= i < bytes.len(),
    ensures
        hex_of(bytes).len() == 2 * bytes.len(),
        hex_of(bytes)[2 * i] == "0123456789abcdef"@[bytes[i] as int / 16],
        hex_of(bytes)[2 * i + 1] == "0123456789abcdef"@[bytes[i] as int % 16],
    decreases bytes.len(),
{
    reveal_strlit("0123456789abcdef");
    lemma_hex_len(bytes);
    let rest = bytes.drop_last();
    lemma_hex_len(rest);
    if i < bytes.len() - 1 {
        law_hexadecimal_digits(rest, i);
        assert(rest[i] == bytes[i]);
    } else {
        lemma_digit_of((bytes[i] / 16) as nat);
        lemma_digit_of((bytes[i] % 16) as nat);
    }
}

/// A code is a percent sign and the two hexadecimal digits of the byte, the high
/// half first, in upper case.
pub proof fn law_percent_codes(b: u8)
    ensures
        percent_code(b).len() == 3,
        percent_code(b)[0] == '%',
        percent_code(b)[1] == "0123456789ABCDEF"@[b as int / 16],
        percent_code(b)[2] == "0123456789ABCDEF"@[b as int % 16],
{
    lemma_upper_digit_of((b / 16) as nat);
    lemma_upper_digit_of((b % 16) as nat);
}

proof fn lemma_digit_of(n: nat)
    requires
        n < 16,
    ensures
        digit(n) == "0123456789abcdef"@[n as int],
{
    reveal_strlit("0123456789abcdef");
    let s = "0123456789abcdef"@;
    assert(s[0] == '0' && s[1] == '1' && s[2] == '2' && s[3] == '3' && s[4] == '4' && s[5] == '5'
        && s[6] == '6' && s[7] == '7' && s[8] == '8' && s[9] == '9' && s[10] == 'a' && s[11] == 'b'
        && s[12] == 'c' && s[13] == 'd' && s[14] == 'e' && s[15] == 'f');
    assert(digit(n) as int == if n < 10 {
        48 + n as int
    } else {
        87 + n as int
    });
}

proof fn lemma_upper_digit_of(n: nat)
    requires
        n < 16,
    ensures
        upper_digit(n) == "0123456789ABCDEF"@[n as int],
{
    reveal_strlit("0123456789ABCDEF");
    let s = "0123456789ABCDEF"@;
    assert(s[0] == '0' && s[1] == '1' && s[2] == '2' && s[3] == '3' && s[4] == '4' && s[5] == '5'
        && s[6] == '6' && s[7] == '7' && s[8] == '8' && s[9] == '9' && s[10] == 'A' && s[11] == 'B'
        && s[12] == 'C' && s[13] == 'D' && s[14] == 'E' && s[15] == 'F');
    assert(upper_digit(n) as int == if n < 10 {
        48 + n as int
    } else {
        55 + n as int
    });
}

/// A package name may hold ASCII letters, digits and `-_.+`, and nothing else; a
/// hexadecimal digit is one of the sixteen, in either case.
pub proof fn law_kinds_of_characters(c: char)
    ensures
        is_name_char(c) <==> {
            ||| 0x61 <= c as u32 <= 0x7a
            ||| 0x41 <= c as u32 <= 0x5a
            ||| 0x30 <= c as u32 <= 0x39
            ||| c as u32 == 0x2d
            ||| c as u32 == 0x5f
            ||| c as u32 == 0x2e
            ||| c as u32 == 0x2b
        },
        is_hex_digit(c) <==> {
            ||| 0x30 <= c as u32 <= 0x39
            ||| 0x61 <= c as u32 <= 0x66
            ||| 0x41 <= c as u32 <= 0x46
        },
{
}

/// Lower case changes the ASCII capitals only, each into its small letter.
pub proof fn law_lower_case(s: Seq<char>, i: int)
    requires
        0 <= i < s.len(),
    ensures
        ascii_lowered(s).len() == s.len(),
        0x41 <= s[i] as u32 <= 0x5a ==> ascii_lowered(s)[i] as u32 == s[i] as u32 + 0x20,
        !(0x41 <= s[i] as u32 <= 0x5a) ==> ascii_lowered(s)[i] == s[i],
{
}

/// The first word of a text is what stands between white space, in lower case; a
/// blank text has none.
pub proof fn law_first_word(w: Seq<char>, word: Seq<char>, rest: Seq<char>)
    requires
        is_blank(w),
        word.len() > 0,
        forall|i: int| 0 <= i < word.len() ==> !is_white_space(#[trigger] word[i]),
        rest.len() > 0 ==> is_white_space(rest[0]),
    ensures
        first_word(w + word + rest) == Some(ascii_lowered(word)),
        first_word(w) is None,
{
    let t = word + rest;
    lemma_trim_start_blank(w, t);
    assert(w + word + rest =~= w + t);
    assert(t[0] == word[0]);
    assert forall|i: int| 0 <= i < word.len() implies !is_space()(#[trigger] t[i]) by {
        assert(t[i] == word[i]);
    }
    lemma_until_at(t, is_space(), word.len() as int);
    assert(t.take(word.len() as int) =~= word);
    lemma_trim_start_blank(w, Seq::empty());
    assert(w + Seq::<char>::empty() =~= w);
}

} // verus!
