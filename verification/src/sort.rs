//! Stable sorting by name.

use crate::order;
use vstd::prelude::*;

verus! {

/// A value that is ordered by its name.
pub trait Named: Sized {
    /// The name that orders the value.
    spec fn key(&self) -> Seq<char>;

    /// The name that orders the value.
    fn name(&self) -> (r: &str)
        ensures
            r@ == self.key(),
    ;
}

/// Picks the name of a value.
pub open spec fn name_of<T: Named>() -> spec_fn(T) -> Seq<char> {
    |x: T| x.key()
}

/// The number of leading values that are not ordered after `k`.
pub open spec fn place<A>(s: Seq<A>, key: spec_fn(A) -> Seq<char>, k: Seq<char>) -> int
    decreases s.len(),
{
    if s.len() == 0 || order::text_lt(k, key(s[0])) {
        0
    } else {
        1 + place(s.drop_first(), key, k)
    }
}

/// The values in ascending order of their keys, values of the same key in the
/// order they had.
pub open spec fn by_key<A>(s: Seq<A>, key: spec_fn(A) -> Seq<char>) -> Seq<A>
    decreases s.len(),
{
    if s.len() == 0 {
        s
    } else {
        let before = by_key(s.drop_last(), key);
        before.insert(place(before, key, key(s.last())), s.last())
    }
}

proof fn lemma_place<A>(s: Seq<A>, key: spec_fn(A) -> Seq<char>, k: Seq<char>)
    ensures
        0 <= place(s, key, k) <= s.len(),
        forall|i: int|
            0 <= i < place(s, key, k) ==> !order::text_lt(k, key(#[trigger] s[i])),
        place(s, key, k) < s.len() ==> order::text_lt(k, key(s[place(s, key, k)])),
    decreases s.len(),
{
    if s.len() > 0 && !order::text_lt(k, key(s[0])) {
        let t = s.drop_first();
        lemma_place(t, key, k);
        assert forall|i: int| 0 <= i < place(s, key, k) implies !order::text_lt(
            k,
            key(#[trigger] s[i]),
        ) by {
            if i > 0 {
                assert(t[i - 1] == s[i]);
            }
        }
    }
}

proof fn lemma_place_at<A>(s: Seq<A>, key: spec_fn(A) -> Seq<char>, k: Seq<char>, at: int)
    requires
        0 <= at <= s.len(),
        forall|i: int| 0 <= i < at ==> !order::text_lt(k, key(#[trigger] s[i])),
        at < s.len() ==> order::text_lt(k, key(s[at])),
    ensures
        place(s, key, k) == at,
{
    lemma_place(s, key, k);
    let p = place(s, key, k);
    if p < at {
        assert(!order::text_lt(k, key(s[p])));
    } else if at < p {
        assert(!order::text_lt(k, key(s[at])));
    }
}

/// Sorts values by their names. Values of the same name keep their order.
pub fn sort_by_name<T: Named>(v: Vec<T>) -> (r: Vec<T>)
    ensures
        r@ == by_key(v@, name_of::<T>()),
{
    let ghost all = v@;
    let ghost key = name_of::<T>();
    let mut out: Vec<T> = Vec::new();
    for x in it: v.into_iter()
        invariant
            it.seq() == all,
            key == name_of::<T>(),
            out@ == by_key(all.take(it.index() as int), key),
    {
        let ghost i = it.index() as int;
        let n: usize = out.len();
        let mut k: usize = 0;
        while k < n && !order::before(x.name(), out[k].name())
            invariant
                n == out@.len(),
                k <= n,
                key == name_of::<T>(),
                forall|j: int| 0 <= j < k ==> !order::text_lt(x.key(), key(#[trigger] out@[j])),
            decreases n - k,
        {
            k += 1;
        }
        proof {
            lemma_place_at(out@, key, x.key(), k as int);
            assert(all.take(i + 1).drop_last() =~= all.take(i));
            assert(all.take(i + 1).last() == x);
        }
        out.insert(k, x);
    }
    proof {
        assert(all.take(all.len() as int) =~= all);
    }
    out
}

/// Sorting and then mapping is mapping and then sorting, if the mapping keeps
/// the keys.
pub proof fn lemma_by_key_map<A, B>(
    s: Seq<A>,
    f: spec_fn(A) -> B,
    ka: spec_fn(A) -> Seq<char>,
    kb: spec_fn(B) -> Seq<char>,
)
    requires
        forall|a: A| kb(f(a)) == #[trigger] ka(a),
    ensures
        by_key(s, ka).map_values(f) == by_key(s.map_values(f), kb),
    decreases s.len(),
{
    if s.len() > 0 {
        let before = by_key(s.drop_last(), ka);
        lemma_by_key_map(s.drop_last(), f, ka, kb);
        assert(s.map_values(f).drop_last() =~= s.drop_last().map_values(f));
        let k = ka(s.last());
        lemma_place(before, ka, k);
        let mapped = before.map_values(f);
        assert forall|i: int| 0 <= i < place(before, ka, k) implies !order::text_lt(
            k,
            kb(#[trigger] mapped[i]),
        ) by {
            assert(kb(f(before[i])) == ka(before[i]));
        }
        let p = place(before, ka, k);
        if p < before.len() {
            assert(kb(f(before[p])) == ka(before[p]));
        }
        lemma_place_at(mapped, kb, k, p);
        assert(kb(f(s.last())) == k);
        assert(by_key(s, ka).map_values(f) =~= by_key(s.map_values(f), kb));
    } else {
        assert(by_key(s, ka).map_values(f) =~= by_key(s.map_values(f), kb));
    }
}

/// Sorting keeps the values.
pub proof fn lemma_by_key_keeps<A>(s: Seq<A>, key: spec_fn(A) -> Seq<char>)
    ensures
        by_key(s, key).to_multiset() == s.to_multiset(),
        by_key(s, key).len() == s.len(),
    decreases s.len(),
{
    if s.len() > 0 {
        let rest = s.drop_last();
        let before = by_key(rest, key);
        let x = s.last();
        lemma_by_key_keeps(rest, key);
        lemma_place(before, key, key(x));
        let p = place(before, key, key(x));
        let now = before.insert(p, x);
        assert(now.remove(p) =~= before);
        now.to_multiset_ensures();
        assert(now.to_multiset().count(x) > 0) by {
            assert(now[p] == x);
        }
        assert(before.to_multiset() =~= now.to_multiset().remove(x));
        assert(now.to_multiset() =~= before.to_multiset().insert(x));
        assert(s =~= rest.push(x));
        rest.to_multiset_ensures();
    }
}

/// The keys of a list.
pub open spec fn keys_of<A>(s: Seq<A>, key: spec_fn(A) -> Seq<char>) -> Seq<Seq<char>> {
    s.map_values(key)
}

/// No key comes after a key that it is ordered before.
pub open spec fn is_sorted<A>(s: Seq<A>, key: spec_fn(A) -> Seq<char>) -> bool {
    forall|i: int, j: int|
        0 <= i < j < s.len() ==> !order::text_lt(key(#[trigger] s[j]), key(#[trigger] s[i]))
}

/// Sorting sorts.
pub proof fn lemma_by_key_sorted<A>(s: Seq<A>, key: spec_fn(A) -> Seq<char>)
    ensures
        is_sorted(by_key(s, key), key),
    decreases s.len(),
{
    if s.len() > 0 {
        let before = by_key(s.drop_last(), key);
        let x = s.last();
        lemma_by_key_sorted(s.drop_last(), key);
        lemma_place(before, key, key(x));
        let p = place(before, key, key(x));
        let now = before.insert(p, x);
        assert forall|i: int, j: int| 0 <= i < j < now.len() implies !order::text_lt(
            key(#[trigger] now[j]),
            key(#[trigger] now[i]),
        ) by {
            if i < p && j < p {
                assert(now[i] == before[i] && now[j] == before[j]);
            } else if i < p && j == p {
                assert(now[i] == before[i]);
            } else if i < p {
                assert(now[i] == before[i] && now[j] == before[j - 1]);
            } else if i == p {
                // The value behind the new one is ordered after it, and so are
                // those behind that.
                assert(now[j] == before[j - 1]);
                assert(order::text_lt(key(x), key(before[p])));
                if order::text_lt(key(before[j - 1]), key(x)) {
                    order::lemma_transitive(key(before[j - 1]), key(x), key(before[p]));
                    if j - 1 > p {
                        assert(!order::text_lt(key(before[j - 1]), key(before[p])));
                    } else {
                        order::lemma_irreflexive(key(before[p]));
                    }
                }
            } else {
                assert(now[i] == before[i - 1] && now[j] == before[j - 1]);
            }
        }
    }
}

/// Lists of the same values, no two of the same key, are the same when sorted.
pub proof fn lemma_by_key_unique<A>(a: Seq<A>, b: Seq<A>, key: spec_fn(A) -> Seq<char>)
    requires
        a.to_multiset() == b.to_multiset(),
        keys_of(a, key).no_duplicates(),
    ensures
        by_key(a, key) == by_key(b, key),
{
    let x = by_key(a, key);
    let y = by_key(b, key);
    lemma_by_key_sorted(a, key);
    lemma_by_key_sorted(b, key);
    lemma_by_key_keeps(a, key);
    lemma_by_key_keeps(b, key);
    a.to_multiset_ensures();
    b.to_multiset_ensures();
    x.to_multiset_ensures();
    y.to_multiset_ensures();
    assert(a.len() == b.len());
    lemma_distinct_values(a, key);
    lemma_distinct_keys(x, a, key);
    lemma_distinct_keys(y, a, key);
    let kx = keys_of(x, key);
    let ky = keys_of(y, key);
    lemma_strict(x, key);
    lemma_strict(y, key);
    assert(kx.to_set() =~= ky.to_set()) by {
        assert forall|k: Seq<char>| kx.to_set().contains(k) <==> ky.to_set().contains(k) by {
            if kx.contains(k) {
                let i = choose|i: int| 0 <= i < kx.len() && kx[i] == k;
                assert(x.to_multiset().count(x[i]) > 0);
                assert(y.contains(x[i]));
                let j = choose|j: int| 0 <= j < y.len() && y[j] == x[i];
                assert(ky[j] == k);
            }
            if ky.contains(k) {
                let i = choose|i: int| 0 <= i < ky.len() && ky[i] == k;
                assert(y.to_multiset().count(y[i]) > 0);
                assert(x.contains(y[i]));
                let j = choose|j: int| 0 <= j < x.len() && x[j] == y[i];
                assert(kx[j] == k);
            }
        }
    }
    order::lemma_sorted_unique(kx, ky);
    assert forall|i: int| 0 <= i < x.len() implies x[i] == y[i] by {
        assert(x.to_multiset().count(x[i]) > 0);
        assert(y.contains(x[i]));
        let j = choose|j: int| 0 <= j < y.len() && y[j] == x[i];
        assert(ky[j] == kx[i]);
        assert(ky[i] == kx[i]);
        if i != j {
            assert(ky[i] != ky[j]);
        }
    }
    assert(x =~= y);
}

/// No value of a list with distinct keys occurs twice.
proof fn lemma_distinct_values<A>(a: Seq<A>, key: spec_fn(A) -> Seq<char>)
    requires
        keys_of(a, key).no_duplicates(),
    ensures
        a.no_duplicates(),
{
    assert forall|i: int, j: int| 0 <= i < a.len() && 0 <= j < a.len() && i != j implies a[i]
        != a[j] by {
        assert(keys_of(a, key)[i] != keys_of(a, key)[j]);
    }
}

/// A list that holds the same values as one with distinct keys has distinct
/// keys.
proof fn lemma_distinct_keys<A>(x: Seq<A>, a: Seq<A>, key: spec_fn(A) -> Seq<char>)
    requires
        x.to_multiset() == a.to_multiset(),
        keys_of(a, key).no_duplicates(),
    ensures
        keys_of(x, key).no_duplicates(),
{
    lemma_distinct_values(a, key);
    a.lemma_multiset_has_no_duplicates();
    x.to_multiset_ensures();
    a.to_multiset_ensures();
    assert forall|v: A| x.to_multiset().contains(v) implies x.to_multiset().count(v) == 1 by {
        assert(a.to_multiset().contains(v));
    }
    x.lemma_multiset_has_no_duplicates_conv();
    let kx = keys_of(x, key);
    assert forall|i: int, j: int| 0 <= i < kx.len() && 0 <= j < kx.len() && i != j implies kx[i]
        != kx[j] by {
        assert(x.to_multiset().count(x[i]) > 0);
        assert(x.to_multiset().count(x[j]) > 0);
        assert(a.contains(x[i]) && a.contains(x[j]));
        let p = choose|p: int| 0 <= p < a.len() && a[p] == x[i];
        let q = choose|q: int| 0 <= q < a.len() && a[q] == x[j];
        assert(x[i] != x[j]);
        assert(p != q);
        assert(keys_of(a, key)[p] != keys_of(a, key)[q]);
    }
}

/// The keys of a sorted list with distinct keys ascend strictly.
proof fn lemma_strict<A>(x: Seq<A>, key: spec_fn(A) -> Seq<char>)
    requires
        is_sorted(x, key),
        keys_of(x, key).no_duplicates(),
    ensures
        order::sorted(keys_of(x, key)),
{
    let kx = keys_of(x, key);
    assert forall|i: int, j: int| 0 <= i < j < kx.len() implies order::text_lt(
        #[trigger] kx[i],
        #[trigger] kx[j],
    ) by {
        assert(!order::text_lt(key(x[j]), key(x[i])));
        assert(kx[i] != kx[j]);
        order::lemma_total(kx[i], kx[j]);
    }
}

/// The text itself, as a key.
pub open spec fn itself() -> spec_fn(Seq<char>) -> Seq<char> {
    |s: Seq<char>| s
}

/// The names of a finite set can be listed in ascending order.
pub proof fn lemma_sortable(s: Set<Seq<char>>) -> (l: Seq<Seq<char>>)
    requires
        s.finite(),
    ensures
        order::sorted(l),
        l.to_set() == s,
        order::sorted_list(s) == l,
    decreases s.len(),
{
    if s.len() == 0 {
        let l = Seq::<Seq<char>>::empty();
        assert(l.to_set() =~= Set::<Seq<char>>::empty());
        assert(s =~= Set::<Seq<char>>::empty());
        order::lemma_sorted_list(l);
        l
    } else {
        let x = s.choose();
        let rest = lemma_sortable(s.remove(x));
        let all = rest.push(x);
        let l = by_key(all, itself());
        lemma_by_key_sorted(all, itself());
        lemma_by_key_keeps(all, itself());
        order::lemma_sorted_distinct(rest);
        assert(!rest.contains(x)) by {
            if rest.contains(x) {
                assert(rest.to_set().contains(x));
            }
        }
        let keys = keys_of(all, itself());
        assert(keys =~= all);
        assert forall|i: int, j: int| 0 <= i < all.len() && 0 <= j < all.len() && i != j implies all[i]
            != all[j] by {
            if i == rest.len() {
                assert(rest.contains(rest[j]));
            } else if j == rest.len() {
                assert(rest.contains(rest[i]));
            }
        }
        lemma_distinct_keys(l, all, itself());
        lemma_strict(l, itself());
        assert(keys_of(l, itself()) =~= l);
        l.to_multiset_ensures();
        all.to_multiset_ensures();
        assert(l.to_set() =~= s) by {
            assert forall|y: Seq<char>| l.to_set().contains(y) <==> s.contains(y) by {
                assert(l.contains(y) <==> l.to_multiset().count(y) > 0);
                assert(all.contains(y) <==> all.to_multiset().count(y) > 0);
                if all.contains(y) {
                    let i = choose|i: int| 0 <= i < all.len() && all[i] == y;
                    if i < rest.len() {
                        assert(rest.to_set().contains(rest[i]));
                    }
                }
                if s.contains(y) {
                    if y == x {
                        assert(all[rest.len() as int] == x);
                    } else {
                        assert(rest.to_set().contains(y));
                        let i = choose|i: int| 0 <= i < rest.len() && rest[i] == y;
                        assert(all[i] == y);
                    }
                }
            }
        }
        order::lemma_sorted_list(l);
        l
    }
}

/// Sorting puts values in ascending order of their keys, loses none, adds none,
/// and leaves values of one key in the order in which they were.
pub proof fn law_sorting<A>(s: Seq<A>, key: spec_fn(A) -> Seq<char>, k: Seq<char>)
    ensures
        forall|i: int, j: int|
            0 <= i < j < by_key(s, key).len() ==> !order::text_lt(
                key(#[trigger] by_key(s, key)[j]),
                key(#[trigger] by_key(s, key)[i]),
            ),
        by_key(s, key).to_multiset() == s.to_multiset(),
        by_key(s, key).filter(|x: A| key(x) == k) == s.filter(|x: A| key(x) == k),
{
    lemma_by_key_sorted(s, key);
    lemma_by_key_keeps(s, key);
    lemma_by_key_stable(s, key, k);
}

proof fn lemma_by_key_stable<A>(s: Seq<A>, key: spec_fn(A) -> Seq<char>, k: Seq<char>)
    ensures
        by_key(s, key).filter(|x: A| key(x) == k) == s.filter(|x: A| key(x) == k),
    decreases s.len(),
{
    let keep = |x: A| key(x) == k;
    reveal(Seq::filter);
    if s.len() > 0 {
        let rest = s.drop_last();
        let x = s.last();
        lemma_by_key_stable(rest, key, k);
        lemma_by_key_sorted(rest, key);
        let before = by_key(rest, key);
        lemma_place(before, key, key(x));
        let p = place(before, key, key(x));
        let low = before.take(p);
        let high = before.skip(p);
        assert(before =~= low + high);
        assert(by_key(s, key) =~= low + seq![x] + high);
        Seq::filter_distributes_over_add(low, high, keep);
        Seq::filter_distributes_over_add(low + seq![x], high, keep);
        Seq::filter_distributes_over_add(low, seq![x], keep);
        assert(seq![x].drop_last() =~= Seq::<A>::empty());
        assert(Seq::<A>::empty().filter(keep) =~= Seq::<A>::empty());
        if key(x) == k {
            assert forall|i: int| 0 <= i < high.len() implies !keep(#[trigger] high[i]) by {
                assert(high[i] == before[p + i]);
                assert(order::text_lt(key(x), key(before[p])));
                if keep(high[i]) {
                    if i > 0 {
                        assert(!order::text_lt(key(before[p + i]), key(before[p])));
                    } else {
                        order::lemma_irreflexive(key(x));
                    }
                }
            }
            lemma_filter_none(high, keep);
            assert(by_key(s, key).filter(keep) =~= rest.filter(keep).push(x));
        } else {
            assert(by_key(s, key).filter(keep) =~= rest.filter(keep));
        }
    }
}

proof fn lemma_filter_none<A>(s: Seq<A>, keep: spec_fn(A) -> bool)
    requires
        forall|i: int| 0 <= i < s.len() ==> !keep(#[trigger] s[i]),
    ensures
        s.filter(keep) == Seq::<A>::empty(),
    decreases s.len(),
{
    reveal(Seq::filter);
    if s.len() > 0 {
        let rest = s.drop_last();
        assert forall|i: int| 0 <= i < rest.len() implies !keep(#[trigger] rest[i]) by {
            assert(rest[i] == s[i]);
        }
        lemma_filter_none(rest, keep);
        assert(!keep(s[s.len() - 1]));
    } else {
        assert(s.filter(keep) =~= Seq::<A>::empty());
    }
}

} // verus!
