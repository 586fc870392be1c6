//! The order of strings: lexicographic by the bytes of their UTF-8 encoding.

use vstd::prelude::*;
use vstd::utf8;

verus! {

/// `a` comes strictly before `b`, byte by byte.
pub open spec fn bytes_lt(a: Seq<u8>, b: Seq<u8>) -> bool
    decreases a.len(),
{
    if b.len() == 0 {
        false
    } else if a.len() == 0 {
        true
    } else if a[0] == b[0] {
        bytes_lt(a.drop_first(), b.drop_first())
    } else {
        a[0] < b[0]
    }
}

/// The string `a` comes strictly before the string `b`.
pub open spec fn text_lt(a: Seq<char>, b: Seq<char>) -> bool {
    bytes_lt(utf8::encode_utf8(a), utf8::encode_utf8(b))
}

/// The list is in strictly ascending order, so nothing occurs twice.
pub open spec fn sorted(s: Seq<Seq<char>>) -> bool {
    forall|i: int, j: int| 0 <= i < j < s.len() ==> text_lt(#[trigger] s[i], #[trigger] s[j])
}

/// The elements of a finite set in ascending order.
pub open spec fn sorted_list(s: Set<Seq<char>>) -> Seq<Seq<char>> {
    choose|l: Seq<Seq<char>>| sorted(l) && l.to_set() == s
}

proof fn lemma_bytes_irreflexive(a: Seq<u8>)
    ensures
        !bytes_lt(a, a),
    decreases a.len(),
{
    if a.len() > 0 {
        lemma_bytes_irreflexive(a.drop_first());
    }
}

proof fn lemma_bytes_transitive(a: Seq<u8>, b: Seq<u8>, c: Seq<u8>)
    requires
        bytes_lt(a, b),
        bytes_lt(b, c),
    ensures
        bytes_lt(a, c),
    decreases a.len(),
{
    if a.len() > 0 && a[0] == b[0] && b[0] == c[0] {
        lemma_bytes_transitive(a.drop_first(), b.drop_first(), c.drop_first());
    }
}

proof fn lemma_bytes_total(a: Seq<u8>, b: Seq<u8>)
    ensures
        a == b || bytes_lt(a, b) || bytes_lt(b, a),
    decreases a.len(),
{
    if a.len() > 0 && b.len() > 0 && a[0] == b[0] {
        lemma_bytes_total(a.drop_first(), b.drop_first());
        if a.drop_first() == b.drop_first() {
            assert(a =~= seq![a[0]] + a.drop_first());
            assert(b =~= seq![b[0]] + b.drop_first());
        }
    } else if a.len() == 0 && b.len() == 0 {
        assert(a =~= b);
    }
}

/// No string comes before itself.
pub proof fn lemma_irreflexive(a: Seq<char>)
    ensures
        !text_lt(a, a),
{
    lemma_bytes_irreflexive(utf8::encode_utf8(a));
}

/// The order of strings is transitive.
pub proof fn lemma_transitive(a: Seq<char>, b: Seq<char>, c: Seq<char>)
    requires
        text_lt(a, b),
        text_lt(b, c),
    ensures
        text_lt(a, c),
{
    lemma_bytes_transitive(utf8::encode_utf8(a), utf8::encode_utf8(b), utf8::encode_utf8(c));
}

/// Of two different strings exactly one comes before the other.
pub proof fn lemma_total(a: Seq<char>, b: Seq<char>)
    ensures
        a == b || text_lt(a, b) || text_lt(b, a),
        !(text_lt(a, b) && text_lt(b, a)),
{
    lemma_bytes_total(utf8::encode_utf8(a), utf8::encode_utf8(b));
    utf8::encode_utf8_decode_utf8(a);
    utf8::encode_utf8_decode_utf8(b);
    if text_lt(a, b) && text_lt(b, a) {
        lemma_transitive(a, b, a);
        lemma_irreflexive(a);
    }
}

/// A strictly ascending list holds nothing twice.
pub proof fn lemma_sorted_distinct(s: Seq<Seq<char>>)
    requires
        sorted(s),
    ensures
        s.no_duplicates(),
{
    assert forall|i: int, j: int| 0 <= i < s.len() && 0 <= j < s.len() && i != j implies s[i]
        != s[j] by {
        lemma_irreflexive(s[i]);
        if i < j {
            assert(text_lt(s[i], s[j]));
        } else {
            assert(text_lt(s[j], s[i]));
        }
    }
}

/// Two strictly ascending lists with the same elements are the same list.
pub proof fn lemma_sorted_unique(a: Seq<Seq<char>>, b: Seq<Seq<char>>)
    requires
        sorted(a),
        sorted(b),
        a.to_set() == b.to_set(),
    ensures
        a == b,
    decreases a.len(),
{
    if a.len() == 0 {
        if b.len() > 0 {
            assert(b.to_set().contains(b[0]));
            assert(a.contains(b[0]));
        }
        assert(a =~= b);
    } else if b.len() == 0 {
        assert(a.to_set().contains(a[0]));
        assert(b.contains(a[0]));
    } else {
        let x = a.last();
        let y = b.last();
        assert(a.to_set().contains(x) && b.to_set().contains(y));
        let i = choose|i: int| 0 <= i < b.len() && b[i] == x;
        let j = choose|j: int| 0 <= j < a.len() && a[j] == y;
        assert(b.contains(x) && a.contains(y));
        if x != y {
            assert(text_lt(b[i], y));
            assert(text_lt(a[j], x));
            lemma_total(x, y);
        }
        let p = a.drop_last();
        let q = b.drop_last();
        lemma_sorted_distinct(a);
        lemma_sorted_distinct(b);
        assert(p.to_set() =~= q.to_set()) by {
            assert forall|z: Seq<char>| p.to_set().contains(z) <==> q.to_set().contains(z) by {
                if p.contains(z) {
                    let k = choose|k: int| 0 <= k < p.len() && p[k] == z;
                    assert(a[k] == z);
                    assert(a.to_set().contains(z));
                    assert(b.contains(z));
                    let m = choose|m: int| 0 <= m < b.len() && b[m] == z;
                    assert(a[k] != a[a.len() - 1]);
                    assert(q[m] == z);
                }
                if q.contains(z) {
                    let k = choose|k: int| 0 <= k < q.len() && q[k] == z;
                    assert(b[k] == z);
                    assert(b.to_set().contains(z));
                    assert(a.contains(z));
                    let m = choose|m: int| 0 <= m < a.len() && a[m] == z;
                    assert(b[k] != b[b.len() - 1]);
                    assert(p[m] == z);
                }
            }
        }
        lemma_sorted_unique(p, q);
        assert(a =~= p.push(x));
        assert(b =~= q.push(y));
    }
}

/// A strictly ascending list is the sorted list of its elements.
pub proof fn lemma_sorted_list(l: Seq<Seq<char>>)
    requires
        sorted(l),
    ensures
        sorted_list(l.to_set()) == l,
{
    let s = l.to_set();
    assert(sorted(l) && l.to_set() == s);
    lemma_sorted_unique(sorted_list(s), l);
}

/// Whether `a` comes strictly before `b`.
pub fn before(a: &str, b: &str) -> (r: bool)
    ensures
        r == text_lt(a@, b@),
{
    let x = a.as_bytes();
    let y = b.as_bytes();
    let mut i: usize = 0;
    proof {
        assert(x@.skip(0) =~= x@);
        assert(y@.skip(0) =~= y@);
    }
    while i < x.len() && i < y.len()
        invariant
            i <= x@.len(),
            i <= y@.len(),
            x@ == utf8::encode_utf8(a@),
            y@ == utf8::encode_utf8(b@),
            bytes_lt(x@.skip(i as int), y@.skip(i as int)) == text_lt(a@, b@),
        decreases x@.len() - i,
    {
        if x[i] != y[i] {
            return x[i] < y[i];
        }
        proof {
            assert(x@.skip(i as int).drop_first() =~= x@.skip(i + 1));
            assert(y@.skip(i as int).drop_first() =~= y@.skip(i + 1));
        }
        i += 1;
    }
    i < y.len()
}

/// Where `k` stands, or belongs, in a strictly ascending list.
pub fn position(keys: &Vec<String>, k: &str) -> (r: (usize, bool))
    requires
        sorted(crate::text::texts(keys@)),
    ensures
        r.0 <= keys@.len(),
        forall|i: int| 0 <= i < r.0 ==> text_lt(#[trigger] keys@[i]@, k@),
        r.1 ==> r.0 < keys@.len() && keys@[r.0 as int]@ == k@,
        !r.1 ==> forall|i: int| r.0 <= i < keys@.len() ==> text_lt(k@, #[trigger] keys@[i]@),
        r.1 == crate::text::texts(keys@).contains(k@),
{
    let ghost list = crate::text::texts(keys@);
    let mut i: usize = 0;
    while i < keys.len() && before(keys[i].as_str(), k)
        invariant
            i <= keys@.len(),
            forall|j: int| 0 <= j < i ==> text_lt(#[trigger] keys@[j]@, k@),
        decreases keys@.len() - i,
    {
        i += 1;
    }
    let found = i < keys.len() && crate::text::same(keys[i].as_str(), k);
    proof {
        if found {
            assert(list[i as int] == k@);
        } else {
            assert forall|j: int| i <= j < keys@.len() implies text_lt(k@, #[trigger] keys@[j]@) by {
                lemma_total(keys@[i as int]@, k@);
                if i < j {
                    assert(text_lt(list[i as int], list[j]));
                    lemma_transitive(k@, keys@[i as int]@, keys@[j]@);
                }
            }
            if list.contains(k@) {
                let j = choose|j: int| 0 <= j < list.len() && list[j] == k@;
                assert(keys@[j]@ == k@);
                lemma_irreflexive(k@);
            }
        }
    }
    (i, found)
}

/// Strings are ordered as their bytes: what is a proper start of another comes
/// before it, and otherwise the first byte that differs decides.
pub proof fn law_first_difference_decides(
    p: Seq<u8>,
    a: u8,
    b: u8,
    x: Seq<u8>,
    y: Seq<u8>,
)
    requires
        a < b,
    ensures
        bytes_lt(p + seq![a] + x, p + seq![b] + y),
        !bytes_lt(p + seq![b] + y, p + seq![a] + x),
        bytes_lt(p, p + seq![a] + x),
        !bytes_lt(p + seq![a] + x, p),
        !bytes_lt(p, p),
    decreases p.len(),
{
    let l = p + seq![a] + x;
    let r = p + seq![b] + y;
    if p.len() > 0 {
        law_first_difference_decides(p.drop_first(), a, b, x, y);
        assert(l.drop_first() =~= p.drop_first() + seq![a] + x);
        assert(r.drop_first() =~= p.drop_first() + seq![b] + y);
        assert(l[0] == p[0] && r[0] == p[0]);
    } else {
        assert(l[0] == a && r[0] == b);
    }
}

/// A string comes before every longer string that it starts, and the empty string
/// before every other.
pub proof fn law_prefixes_come_first(s: Seq<char>, t: Seq<char>)
    requires
        t.len() > 0,
    ensures
        text_lt(s, s + t),
        !text_lt(s + t, s),
{
    let p = utf8::encode_utf8(s);
    let q = utf8::encode_utf8(t);
    lemma_encode_add(s, t);
    assert(q.len() > 0) by {
        assert(utf8::encode_scalar(t[0] as u32).len() >= 1);
    }
    let a = q[0];
    let x = q.drop_first();
    assert(p + q =~= p + seq![a] + x);
    if a < 255 {
        law_first_difference_decides(p, a, 255, x, x);
    } else {
        lemma_prefix_before(p, q);
    }
}

proof fn lemma_prefix_before(p: Seq<u8>, q: Seq<u8>)
    requires
        q.len() > 0,
    ensures
        bytes_lt(p, p + q),
        !bytes_lt(p + q, p),
    decreases p.len(),
{
    if p.len() > 0 {
        lemma_prefix_before(p.drop_first(), q);
        assert((p + q).drop_first() =~= p.drop_first() + q);
        assert((p + q)[0] == p[0]);
    }
}

proof fn lemma_encode_add(s: Seq<char>, t: Seq<char>)
    ensures
        utf8::encode_utf8(s + t) == utf8::encode_utf8(s) + utf8::encode_utf8(t),
    decreases s.len(),
{
    if s.len() > 0 {
        lemma_encode_add(s.drop_first(), t);
        assert((s + t).drop_first() =~= s.drop_first() + t);
        assert((s + t)[0] == s[0]);
        assert(utf8::encode_utf8(s + t) =~= utf8::encode_utf8(s) + utf8::encode_utf8(t));
    } else {
        assert(s + t =~= t);
        assert(utf8::encode_utf8(s) + utf8::encode_utf8(t) =~= utf8::encode_utf8(t));
    }
}

/// Of two strings that differ first in an ASCII character, the one with the lower
/// character comes first.
pub proof fn law_ascii_decides(p: Seq<char>, a: char, b: char, x: Seq<char>, y: Seq<char>)
    requires
        (a as u32) < (b as u32) < 0x80,
    ensures
        text_lt(p + seq![a] + x, p + seq![b] + y),
{
    let c = a as u32;
    let d = b as u32;
    lemma_encode_add(p + seq![a], x);
    lemma_encode_add(p, seq![a]);
    lemma_encode_add(p + seq![b], y);
    lemma_encode_add(p, seq![b]);
    lemma_encode_ascii(a);
    lemma_encode_ascii(b);
    law_first_difference_decides(
        utf8::encode_utf8(p),
        c as u8,
        d as u8,
        utf8::encode_utf8(x),
        utf8::encode_utf8(y),
    );
}

proof fn lemma_encode_ascii(a: char)
    requires
        (a as u32) < 0x80,
    ensures
        utf8::encode_utf8(seq![a]) == seq![a as u32 as u8],
{
    utf8::is_ascii_chars_encode_utf8(seq![a]);
    assert(seq![a].drop_first() =~= Seq::<char>::empty());
    assert(utf8::encode_utf8(seq![a]) =~= seq![a as u32 as u8]);
}

} // verus!
