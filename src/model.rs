//! The mathematical model of the map: a sequence of `(key, value)` pairs, oldest
//! first, in which no key occurs twice.

use vstd::prelude::*;

verus! {

broadcast use vstd::seq_lib::group_filter_ensures;

/// A key as the map sees it: the bytes that identify it.
pub type KeyView = Seq<u8>;

/// No key occurs twice in `s`.
pub open spec fn keys_unique<V>(s: Seq<(KeyView, V)>) -> bool {
    forall|i: int, j: int|
        0 <= i < s.len() && 0 <= j < s.len() && #[trigger] s[i].0 == #[trigger] s[j].0 ==> i == j
}

/// `k` is the key of some pair of `s`.
pub open spec fn contains_key<V>(s: Seq<(KeyView, V)>, k: KeyView) -> bool {
    exists|i: int| 0 <= i < s.len() && #[trigger] s[i].0 == k
}

/// Holds of the pairs whose key is not `k`.
pub open spec fn key_differs<V>(k: KeyView) -> spec_fn((KeyView, V)) -> bool {
    |e: (KeyView, V)| e.0 != k
}

/// The pairs of `s` whose key is not `k`, in the order of `s`.
pub open spec fn without_key<V>(s: Seq<(KeyView, V)>, k: KeyView) -> Seq<(KeyView, V)> {
    s.filter(key_differs(k))
}

/// The value stored under `k` in `s`, if any.
pub open spec fn value_of<V>(s: Seq<(KeyView, V)>, k: KeyView) -> Option<V> {
    if contains_key(s, k) {
        Some(s[choose|i: int| 0 <= i < s.len() && #[trigger] s[i].0 == k].1)
    } else {
        None
    }
}

/// The entries after inserting or updating `k` with `v`: any earlier pair with
/// key `k` is dropped and `(k, v)` becomes the newest pair.
pub open spec fn with_entry<V>(s: Seq<(KeyView, V)>, k: KeyView, v: V) -> Seq<(KeyView, V)> {
    without_key(s, k).push((k, v))
}


/// Dropping an absent key changes nothing.
pub proof fn lemma_without_absent_key<V>(s: Seq<(KeyView, V)>, k: KeyView)
    requires
        !contains_key(s, k),
    ensures
        without_key(s, k) == s,
    decreases s.len(),
{
    reveal(Seq::filter);
    if s.len() > 0 {
        let p = s.drop_last();
        assert forall|i: int| 0 <= i < p.len() implies #[trigger] p[i].0 != k by {
            assert(p[i] == s[i]);
        }
        lemma_without_absent_key(p, k);
        assert(p.push(s.last()) =~= s);
    }
}

/// In a sequence with unique keys, dropping the key at position `j` is
/// removing position `j`.
pub proof fn lemma_without_key_at<V>(s: Seq<(KeyView, V)>, j: int)
    requires
        keys_unique(s),
        0 <= j < s.len(),
    ensures
        without_key(s, s[j].0) == s.remove(j),
    decreases s.len(),
{
    reveal(Seq::filter);
    let k = s[j].0;
    let p = s.drop_last();
    let n = s.len() - 1;
    assert(keys_unique(p)) by {
        assert forall|a: int, b: int| 0 <= a < p.len() && 0 <= b < p.len() && #[trigger] p[a].0 == #[trigger] p[b].0 implies a == b by {
            assert(p[a] == s[a] && p[b] == s[b]);
        }
    }
    if j == n {
        assert forall|i: int| 0 <= i < p.len() implies #[trigger] p[i].0 != k by {
            assert(p[i] == s[i]);
        }
        lemma_without_absent_key(p, k);
        assert(s.remove(j) =~= p);
    } else {
        assert(p[j] == s[j]);
        lemma_without_key_at(p, j);
        assert(s.last().0 != k);
        assert(s.remove(j) =~= p.remove(j).push(s.last()));
    }
}

/// In a sequence with unique keys, the value stored under the key at position
/// `j` is the one at position `j`.
pub proof fn lemma_value_of_at<V>(s: Seq<(KeyView, V)>, j: int)
    requires
        keys_unique(s),
        0 <= j < s.len(),
    ensures
        value_of(s, s[j].0) == Some(s[j].1),
{
    assert(contains_key(s, s[j].0));
}


/// The keys after an insert are the earlier keys and the inserted one.
pub proof fn lemma_with_entry_keys<V>(s: Seq<(KeyView, V)>, k: KeyView, v: V, k2: KeyView)
    ensures
        contains_key(with_entry(s, k, v), k2) <==> k2 == k || contains_key(s, k2),
{
    let w = without_key(s, k);
    let t = with_entry(s, k, v);
    assert(t[t.len() - 1] == (k, v));
    if k2 == k {
        assert(t[t.len() - 1].0 == k2);
    }
    lemma_without_key_keys(s, k, k2);
    if contains_key(t, k2) && k2 != k {
        let i = choose|i: int| 0 <= i < t.len() && #[trigger] t[i].0 == k2;
        assert(t[i] == w[i]);
    }
    if contains_key(s, k2) && k2 != k {
        let j = choose|j: int| 0 <= j < w.len() && #[trigger] w[j].0 == k2;
        assert(t[j] == w[j]);
    }
}

/// Dropping a key keeps the other keys and drops that one.
pub proof fn lemma_without_key_keys<V>(s: Seq<(KeyView, V)>, k: KeyView, k2: KeyView)
    ensures
        contains_key(without_key(s, k), k2) <==> k2 != k && contains_key(s, k2),
{
    let w = without_key(s, k);
    if contains_key(w, k2) {
        let i = choose|i: int| 0 <= i < w.len() && #[trigger] w[i].0 == k2;
        assert(w.contains(w[i]));
        s.lemma_filter_contains_rev(key_differs(k), w[i]);
        let j = choose|j: int| 0 <= j < s.len() && s[j] == w[i];
        assert(s[j].0 == k2);
    }
    if contains_key(s, k2) && k2 != k {
        let i = choose|i: int| 0 <= i < s.len() && #[trigger] s[i].0 == k2;
        assert(w.contains(s[i]));
        let j = choose|j: int| 0 <= j < w.len() && w[j] == s[i];
        assert(w[j].0 == k2);
    }
}

/// Dropping a key keeps the keys unique.
pub proof fn lemma_without_key_unique<V>(s: Seq<(KeyView, V)>, k: KeyView)
    requires
        keys_unique(s),
    ensures
        keys_unique(without_key(s, k)),
{
    if contains_key(s, k) {
        let j = choose|j: int| 0 <= j < s.len() && #[trigger] s[j].0 == k;
        lemma_without_key_at(s, j);
        assert forall|a: int, b: int| 0 <= a < s.len() - 1 && 0 <= b < s.len() - 1 && #[trigger] s.remove(j)[a].0 == #[trigger] s.remove(j)[b].0 implies a == b by {
            let x = if a < j { a } else { a + 1 };
            let y = if b < j { b } else { b + 1 };
            assert(s.remove(j)[a] == s[x] && s.remove(j)[b] == s[y]);
        }
    } else {
        lemma_without_absent_key(s, k);
    }
}

/// Inserting keeps the keys unique.
pub proof fn lemma_with_entry_unique<V>(s: Seq<(KeyView, V)>, k: KeyView, v: V)
    requires
        keys_unique(s),
    ensures
        keys_unique(with_entry(s, k, v)),
{
    let w = without_key(s, k);
    let t = with_entry(s, k, v);
    lemma_without_key_unique(s, k);
    assert forall|a: int, b: int| 0 <= a < t.len() && 0 <= b < t.len() && #[trigger] t[a].0 == #[trigger] t[b].0 implies a == b by {
        if a < w.len() && b == w.len() {
            lemma_without_key_keys(s, k, k);
            assert(t[a] == w[a]);
        } else if b < w.len() && a == w.len() {
            lemma_without_key_keys(s, k, k);
            assert(t[b] == w[b]);
        } else if a < w.len() && b < w.len() {
            assert(t[a] == w[a] && t[b] == w[b]);
        }
    }
}

/// Update-not-duplicate: inserting a key that is present keeps the number of
/// entries and stores the new value.
pub proof fn lemma_update_in_place<V>(s: Seq<(KeyView, V)>, k: KeyView, v: V)
    requires
        keys_unique(s),
        contains_key(s, k),
    ensures
        with_entry(s, k, v).len() == s.len(),
        value_of(with_entry(s, k, v), k) == Some(v),
{
    let j = choose|j: int| 0 <= j < s.len() && #[trigger] s[j].0 == k;
    lemma_without_key_at(s, j);
    lemma_with_entry_unique(s, k, v);
    let t = with_entry(s, k, v);
    lemma_value_of_at(t, t.len() - 1);
}

/// Round trip: after inserting `(k, v)` the value under `k` is `v` and every
/// other key keeps its value; after removing `k` there is no value under `k`
/// and every other key keeps its value. Both keep the keys unique.
pub proof fn lemma_round_trip<V>(s: Seq<(KeyView, V)>, k: KeyView, v: V, other: KeyView)
    requires
        keys_unique(s),
        other != k,
    ensures
        keys_unique(with_entry(s, k, v)),
        keys_unique(without_key(s, k)),
        value_of(with_entry(s, k, v), k) == Some(v),
        value_of(with_entry(s, k, v), other) == value_of(s, other),
        value_of(without_key(s, k), k) is None,
        value_of(without_key(s, k), other) == value_of(s, other),
{
    lemma_with_entry_unique(s, k, v);
    lemma_without_key_unique(s, k);
    let t = with_entry(s, k, v);
    let w = without_key(s, k);
    lemma_value_of_at(t, t.len() - 1);
    lemma_with_entry_keys(s, k, v, other);
    lemma_without_key_keys(s, k, k);
    lemma_remove_keeps_others(s, k, other);
    if contains_key(w, other) {
        let j = choose|j: int| 0 <= j < w.len() && #[trigger] w[j].0 == other;
        lemma_value_of_at(w, j);
        assert(t[j] == w[j]);
        lemma_value_of_at(t, j);
    }
}

/// Tombstone probing correctness, as the model states it: removing one key
/// leaves every other key reachable with its value.
pub proof fn lemma_remove_keeps_others<V>(s: Seq<(KeyView, V)>, removed: KeyView, other: KeyView)
    requires
        keys_unique(s),
        other != removed,
    ensures
        contains_key(without_key(s, removed), other) == contains_key(s, other),
        value_of(without_key(s, removed), other) == value_of(s, other),
{
    let w = without_key(s, removed);
    lemma_without_key_keys(s, removed, other);
    lemma_without_key_unique(s, removed);
    if contains_key(s, other) {
        let i = choose|i: int| 0 <= i < s.len() && #[trigger] s[i].0 == other;
        lemma_value_of_at(s, i);
        assert(w.contains(s[i]));
        let j = choose|j: int| 0 <= j < w.len() && w[j] == s[i];
        lemma_value_of_at(w, j);
    }
}

/// Order invariant: an insert makes its entry the newest and leaves before it
/// the other entries, in their earlier order.
pub proof fn lemma_order_kept<V>(s: Seq<(KeyView, V)>, k: KeyView, v: V)
    ensures
        with_entry(s, k, v).last() == (k, v),
        with_entry(s, k, v).drop_last() == without_key(s, k),
{
    assert(with_entry(s, k, v).drop_last() =~= without_key(s, k));
}

} // verus!
