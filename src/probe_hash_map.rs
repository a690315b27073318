//! The slot array, the probe search and the order list.

use std::hash::Hasher;
use vstd::prelude::*;
use vstd::std_specs::hash::DefaultHasherAdditionalSpecFns;
use crate::key::ProbeKey;
use crate::model::{
    contains_key, keys_unique, lemma_update_in_place, lemma_value_of_at, lemma_with_entry_keys, lemma_without_absent_key, lemma_without_key_at,
    value_of, with_entry, without_key, KeyView,
};

verus! {

/// A key and its value, as handed out by the oldest / newest queries.
pub struct Entry<K, V> {
    pub key: K,
    pub value: V,
}

/// What a slot holds: nothing yet, a live entry, or the mark of a removed entry.
enum Storage<K, V> {
    UnOccupied,
    Occupied(Entry<K, V>),
    OccupiedDeleted,
}

/// Slot indices of the neighbours of a live slot in the order list.
#[derive(Clone, Copy)]
struct Linkage {
    previous: Option<usize>,
    next: Option<usize>,
}

/// One cell of the slot array.
pub struct ProbeHashMapEntry<K, V> {
    storage: Storage<K, V>,
    linkage: Linkage,
}

/// The map has a fixed number of slots and can become full.
#[derive(Debug, PartialEq, Eq, Structural)]
pub enum InsertionError {
    ContainerFull,
}

impl InsertionError {
    /// A sentence that describes the error.
    pub fn message(&self) -> (r: String)
        ensures
            r@ == "The container is full."@,
    {
        match self {
            InsertionError::ContainerFull => String::from_str("The container is full."),
        }
    }
}

impl<K, V> ProbeHashMapEntry<K, V> {
    /// The slot has never held an entry and is in no order list.
    pub closed spec fn is_fresh(&self) -> bool {
        &&& self.storage is UnOccupied
        &&& self.linkage.previous is None
        &&& self.linkage.next is None
    }

    /// An unused slot with no links.
    pub fn new() -> (r: Self)
        ensures
            r.is_fresh(),
    {
        ProbeHashMapEntry { storage: Storage::UnOccupied, linkage: Linkage { previous: None, next: None } }
    }
}

/// The home slot of the key with bytes `k` in a table of `size` slots: the
/// digest of `DefaultHasher` over those bytes, modulo `size`.
pub open spec fn home_slot(k: KeyView, size: nat) -> int {
    (<std::hash::DefaultHasher as DefaultHasherAdditionalSpecFns>::spec_finish(seq![k]) as nat % size) as int
}

/// A map from keys to values with `SIZE` slots, open addressing with
/// linear probing, and an order list from the oldest to the newest entry.
pub struct ProbeHashMap<K, V, const SIZE: usize> {
    first_index: Option<usize>,
    last_index: Option<usize>,
    entry_array: Vec<ProbeHashMapEntry<K, V>>,
    order: Ghost<Seq<usize>>,
}

/// The slot reached after `d` probe steps from slot `h`, wrapping around a
/// table of `size` slots.
pub open spec fn probe_pos(h: int, d: int, size: int) -> int {
    if h + d < size {
        h + d
    } else {
        h + d - size
    }
}

/// The number of probe steps from slot `h` to slot `i`.
pub open spec fn probe_dist(h: int, i: int, size: int) -> int {
    if i >= h {
        i - h
    } else {
        i + size - h
    }
}

/// Whether two byte strings are equal.
fn bytes_eq(x: &[u8], y: &[u8]) -> (r: bool)
    ensures
        r == (x@ == y@),
{
    if x.len() != y.len() {
        return false;
    }
    let mut i: usize = 0;
    while i < x.len()
        invariant
            x@.len() == y@.len(),
            i <= x@.len(),
            forall|j: int| 0 <= j < i ==> x@[j] == y@[j],
        decreases x@.len() - i,
    {
        if x[i] != y[i] {
            return false;
        }
        i += 1;
    }
    assert(x@ =~= y@);
    true
}

/// Where a key stands in the table, or where it can be placed.
enum FindResult {
    Exhausted,
    Entry(usize),
    UnOccupied(usize),
}

impl<K, V, const SIZE: usize> ProbeHashMap<K, V, SIZE> {
    /// The order list, as the ghost sequence of slot indices from oldest to newest,
    /// agrees with the stored links and with the first / last indices.
    #[verifier::opaque]
    spec fn links_wf(&self) -> bool {
        let o = self.order@;
        let a = self.entry_array@;
        &&& a.len() == SIZE
        &&& o.no_duplicates()
        &&& forall|j: int| 0 <= j < o.len() ==> o[j] < SIZE
        &&& self.first_index == if o.len() == 0 { None } else { Some(o[0]) }
        &&& self.last_index == if o.len() == 0 { None } else { Some(o.last()) }
        &&& forall|j: int|
            0 <= j < o.len() ==> a[#[trigger] o[j] as int].linkage.previous == if j == 0 {
                None
            } else {
                Some(o[j - 1])
            }
        &&& forall|j: int|
            0 <= j < o.len() ==> a[#[trigger] o[j] as int].linkage.next == if j == o.len() - 1 {
                None
            } else {
                Some(o[j + 1])
            }
        &&& forall|i: int|
            0 <= i < SIZE && !o.contains(i as usize) ==> (#[trigger] a[i]).linkage.previous is None
                && a[i].linkage.next is None
    }

    /// Both maps hold the same slot contents; their links may differ.
    spec fn same_storage(&self, other: &Self) -> bool {
        &&& self.entry_array@.len() == other.entry_array@.len()
        &&& forall|i: int|
            0 <= i < self.entry_array@.len() ==> (#[trigger] self.entry_array@[i]).storage
                == other.entry_array@[i].storage
    }

    /// Whether the links are valid does not depend on the slot contents.
    proof fn lemma_links_keep(pre: Self, post: Self)
        requires
            pre.links_wf(),
            post.order == pre.order,
            post.first_index == pre.first_index,
            post.last_index == pre.last_index,
            post.entry_array@.len() == pre.entry_array@.len(),
            forall|i: int| 0 <= i < pre.entry_array@.len() ==> (#[trigger] post.entry_array@[i]).linkage
                == pre.entry_array@[i].linkage,
        ensures
            post.links_wf(),
    {
        reveal(ProbeHashMap::links_wf);
    }

    /// Sets the link to the next entry of slot `i`.
    fn set_next(&mut self, i: usize, next: Option<usize>)
        requires
            i < old(self).entry_array@.len(),
        ensures
            final(self).entry_array@ == old(self).entry_array@.update(
                i as int,
                ProbeHashMapEntry {
                    storage: old(self).entry_array@[i as int].storage,
                    linkage: Linkage { previous: old(self).entry_array@[i as int].linkage.previous, next },
                },
            ),
            final(self).first_index == old(self).first_index,
            final(self).last_index == old(self).last_index,
            final(self).order == old(self).order,
    {
        self.entry_array[i].linkage.next = next;
    }

    /// Sets the link to the previous entry of slot `i`.
    fn set_previous(&mut self, i: usize, previous: Option<usize>)
        requires
            i < old(self).entry_array@.len(),
        ensures
            final(self).entry_array@ == old(self).entry_array@.update(
                i as int,
                ProbeHashMapEntry {
                    storage: old(self).entry_array@[i as int].storage,
                    linkage: Linkage { previous, next: old(self).entry_array@[i as int].linkage.next },
                },
            ),
            final(self).first_index == old(self).first_index,
            final(self).last_index == old(self).last_index,
            final(self).order == old(self).order,
    {
        self.entry_array[i].linkage.previous = previous;
    }

    /// The links are valid again once the entry at position `j` of the order
    /// list is cut out: its neighbours point at each other (or the first / last
    /// index moves past it), its own links are cleared, and nothing else changes.
    #[verifier::rlimit(40)]
    proof fn lemma_unlinked(pre: Self, post: Self, j: int)
        requires
            pre.links_wf(),
            0 <= j < pre.order@.len(),
            post.order@ == pre.order@.remove(j),
            post.entry_array@.len() == pre.entry_array@.len(),
            post.first_index == if j == 0 {
                pre.entry_array@[pre.order@[j] as int].linkage.next
            } else {
                pre.first_index
            },
            post.last_index == if j == pre.order@.len() - 1 {
                pre.entry_array@[pre.order@[j] as int].linkage.previous
            } else {
                pre.last_index
            },
            forall|i: int| 0 <= i < post.entry_array@.len() ==> (#[trigger] post.entry_array@[i]).storage
                == pre.entry_array@[i].storage,
            post.entry_array@[pre.order@[j] as int].linkage == (Linkage { previous: None, next: None }),
            forall|i: int|
                0 <= i < post.entry_array@.len() && i != pre.order@[j] && (j == 0 || i != pre.order@[j - 1])
                    && (j == pre.order@.len() - 1 || i != pre.order@[j + 1]) ==> (#[trigger] post.entry_array@[i]).linkage
                    == pre.entry_array@[i].linkage,
            j > 0 ==> post.entry_array@[pre.order@[j - 1] as int].linkage == (Linkage {
                previous: pre.entry_array@[pre.order@[j - 1] as int].linkage.previous,
                next: pre.entry_array@[pre.order@[j] as int].linkage.next,
            }),
            j < pre.order@.len() - 1 ==> post.entry_array@[pre.order@[j + 1] as int].linkage == (Linkage {
                previous: pre.entry_array@[pre.order@[j] as int].linkage.previous,
                next: pre.entry_array@[pre.order@[j + 1] as int].linkage.next,
            }),
        ensures
            post.links_wf(),
            !post.order@.contains(pre.order@[j]),
    {
        reveal(ProbeHashMap::links_wf);
        let o = pre.order@;
        let a0 = pre.entry_array@;
        let a = post.entry_array@;
        let n = o.remove(j);
        let len = o.len();
        let index = o[j];
        assert forall|k: int| 0 <= k < n.len() implies n[k] == if k < j {
            o[k]
        } else {
            o[k + 1]
        } by {}
        assert(n.no_duplicates());
        assert forall|k: int| 0 <= k < n.len() implies a[#[trigger] n[k] as int].linkage.previous
            == if k == 0 {
            None
        } else {
            Some(n[k - 1])
        } by {
            if k < j {
                assert(a[o[k] as int].linkage.previous == a0[o[k] as int].linkage.previous);
            } else if k > j {
                assert(a[o[k + 1] as int].linkage.previous == a0[o[k + 1] as int].linkage.previous);
            }
        }
        assert forall|k: int| 0 <= k < n.len() implies a[#[trigger] n[k] as int].linkage.next
            == if k == n.len() - 1 {
            None
        } else {
            Some(n[k + 1])
        } by {
            if k < j - 1 {
                assert(a[o[k] as int].linkage.next == a0[o[k] as int].linkage.next);
            } else if k >= j {
                assert(a[o[k + 1] as int].linkage.next == a0[o[k + 1] as int].linkage.next);
            }
        }
        assert forall|i: int| 0 <= i < SIZE && !n.contains(i as usize) implies
            (#[trigger] a[i]).linkage.previous is None && a[i].linkage.next is None by {
            if i != index {
                if o.contains(i as usize) {
                    let k = choose|k: int| 0 <= k < len && o[k] == i as usize;
                    assert(n[if k < j { k } else { k - 1 }] == i);
                }
            }
        }
    }

    /// Takes the live slot at position `j` of the order list out of the list and
    /// clears its links.
    fn unlink(&mut self, index: usize, Ghost(j): Ghost<int>)
        requires
            old(self).links_wf(),
            0 <= j < old(self).order@.len(),
            old(self).order@[j] == index,
        ensures
            final(self).links_wf(),
            final(self).order@ == old(self).order@.remove(j),
            !final(self).order@.contains(index),
            final(self).same_storage(old(self)),
    {
        let ghost pre = *self;
        let ghost o = self.order@;
        let ghost len = o.len();
        proof {
            reveal(ProbeHashMap::links_wf);
            assert(index < self.entry_array@.len());
            if j > 0 {
                assert(o[j - 1] < self.entry_array@.len() && o[j - 1] != index);
            }
            if j < len - 1 {
                assert(o[j + 1] < self.entry_array@.len() && o[j + 1] != index);
            }
            if j > 0 && j < len - 1 {
                assert(o[j - 1] != o[j + 1]);
            }
        }
        let previous = self.entry_array[index].linkage.previous;
        let next = self.entry_array[index].linkage.next;
        proof {
            reveal(ProbeHashMap::links_wf);
            assert(previous == if j == 0 { None } else { Some(o[j - 1]) });
            assert(next == if j == len - 1 { None } else { Some(o[j + 1]) });
        }
        match previous {
            Some(previous_index) => {
                self.set_next(previous_index, next);
            },
            None => {
                self.first_index = next;
            },
        }
        match next {
            Some(next_index) => {
                self.set_previous(next_index, previous);
            },
            None => {
                self.last_index = previous;
            },
        }
        self.set_previous(index, None);
        self.set_next(index, None);
        self.order = Ghost(o.remove(j));
        proof {
            Self::lemma_unlinked(pre, *self, j);
        }
    }

    /// Appends the slot `index`, which is in no order list, as the newest entry.
    fn link_as_last(&mut self, index: usize)
        requires
            old(self).links_wf(),
            index < SIZE,
            !old(self).order@.contains(index),
        ensures
            final(self).links_wf(),
            final(self).order@ == old(self).order@.push(index),
            final(self).same_storage(old(self)),
    {
        reveal(ProbeHashMap::links_wf);
        let ghost o = self.order@;
        let ghost a0 = self.entry_array@;
        match self.last_index {
            Some(previous_last_index) => {
                self.set_previous(index, Some(previous_last_index));
                self.set_next(previous_last_index, Some(index));
            },
            None => {
                self.set_previous(index, None);
                self.first_index = Some(index);
            },
        }
        self.set_next(index, None);
        self.last_index = Some(index);
        self.order = Ghost(o.push(index));
        proof {
            reveal(ProbeHashMap::links_wf);
            let a = self.entry_array@;
            let n = o.push(index);
            let len = o.len();
            assert forall|i: int|
                0 <= i < SIZE && i != index && (len == 0 || i != o[len - 1]) implies #[trigger] a[i]
                == a0[i] by {}
            assert(a[index as int].storage == a0[index as int].storage);
            if len > 0 {
                assert(a[o[len - 1] as int].storage == a0[o[len - 1] as int].storage);
            }
            assert(n.no_duplicates()) by {
                assert forall|x: int, y: int| 0 <= x < n.len() && 0 <= y < n.len() && x != y implies n[x]
                    != n[y] by {
                    if x == len {
                        assert(o[y] == n[y]);
                    } else if y == len {
                        assert(o[x] == n[x]);
                    }
                }
            }
            assert forall|k: int| 0 <= k < n.len() implies a[#[trigger] n[k] as int].linkage.previous
                == if k == 0 {
                None
            } else {
                Some(n[k - 1])
            } by {
                if k < len {
                    assert(n[k] == o[k]);
                }
            }
            assert forall|k: int| 0 <= k < n.len() implies a[#[trigger] n[k] as int].linkage.next
                == if k == n.len() - 1 {
                None
            } else {
                Some(n[k + 1])
            } by {
                if k < len - 1 {
                    assert(n[k] == o[k]);
                }
            }
            assert forall|i: int| 0 <= i < SIZE && !n.contains(i as usize) implies
                (#[trigger] a[i]).linkage.previous is None && a[i].linkage.next is None by {
                if i == index {
                    assert(n[len as int] == index);
                } else if o.contains(i as usize) {
                    let k = choose|k: int| 0 <= k < len && o[k] == i as usize;
                    assert(n[k] == i);
                }
            }
        }
    }

    /// A slot is live exactly when it is in the order list.
    #[verifier::opaque]
    spec fn occupancy_wf(&self) -> bool {
        forall|i: int|
            0 <= i < SIZE ==> ((#[trigger] self.entry_array@[i]).storage is Occupied
                <==> self.order@.contains(i as usize))
    }

    /// The number of slots that never held an entry.
    pub closed spec fn unused(&self) -> nat {
        count_unused(self.entry_array@)
    }

    /// The number of slots that hold a live entry.
    pub closed spec fn live(&self) -> nat {
        count_live(self.entry_array@)
    }

    /// The number of slots that held an entry that was removed.
    pub closed spec fn tombstones(&self) -> nat {
        count_deleted(self.entry_array@)
    }
}

/// The number of never-used slots in `s`.
spec fn count_unused<K, V>(s: Seq<ProbeHashMapEntry<K, V>>) -> nat
    decreases s.len(),
{
    if s.len() == 0 {
        0
    } else {
        count_unused(s.drop_last()) + if s.last().storage is UnOccupied { 1nat } else { 0nat }
    }
}

/// The number of tombstone slots in `s`.
spec fn count_deleted<K, V>(s: Seq<ProbeHashMapEntry<K, V>>) -> nat
    decreases s.len(),
{
    if s.len() == 0 {
        0
    } else {
        count_deleted(s.drop_last()) + if s.last().storage is OccupiedDeleted { 1nat } else { 0nat }
    }
}

/// The number of live slots in `s`.
spec fn count_live<K, V>(s: Seq<ProbeHashMapEntry<K, V>>) -> nat
    decreases s.len(),
{
    if s.len() == 0 {
        0
    } else {
        count_live(s.drop_last()) + if s.last().storage is Occupied { 1nat } else { 0nat }
    }
}

/// Every slot is unused, a tombstone or live.
proof fn lemma_counts_sum<K, V>(s: Seq<ProbeHashMapEntry<K, V>>)
    ensures
        count_unused(s) + count_deleted(s) + count_live(s) == s.len(),
    decreases s.len(),
{
    if s.len() > 0 {
        lemma_counts_sum(s.drop_last());
    }
}

/// The counts depend on the slot contents alone.
proof fn lemma_counts_same_storage<K, V>(a: Seq<ProbeHashMapEntry<K, V>>, b: Seq<ProbeHashMapEntry<K, V>>)
    requires
        a.len() == b.len(),
        forall|i: int| 0 <= i < a.len() ==> (#[trigger] a[i]).storage == b[i].storage,
    ensures
        count_unused(a) == count_unused(b),
        count_deleted(a) == count_deleted(b),
    decreases a.len(),
{
    if a.len() > 0 {
        lemma_counts_same_storage(a.drop_last(), b.drop_last());
    }
}

/// How the counts change when one slot is replaced.
proof fn lemma_counts_update<K, V>(s: Seq<ProbeHashMapEntry<K, V>>, i: int, x: ProbeHashMapEntry<K, V>)
    requires
        0 <= i < s.len(),
    ensures
        count_unused(s.update(i, x)) == count_unused(s) - (if s[i].storage is UnOccupied { 1int } else { 0int })
            + (if x.storage is UnOccupied { 1int } else { 0int }),
        count_deleted(s.update(i, x)) == count_deleted(s) - (if s[i].storage is OccupiedDeleted { 1int } else { 0int })
            + (if x.storage is OccupiedDeleted { 1int } else { 0int }),
    decreases s.len(),
{
    let t = s.update(i, x);
    if i == s.len() - 1 {
        assert(t.drop_last() =~= s.drop_last());
    } else {
        lemma_counts_update(s.drop_last(), i, x);
        assert(t.drop_last() =~= s.drop_last().update(i, x));
    }
}

/// A positive count of never-used slots means that there is one.
proof fn lemma_unused_exists<K, V>(s: Seq<ProbeHashMapEntry<K, V>>)
    ensures
        count_unused(s) > 0 <==> exists|i: int| 0 <= i < s.len() && (#[trigger] s[i]).storage is UnOccupied,
    decreases s.len(),
{
    if s.len() > 0 {
        let p = s.drop_last();
        lemma_unused_exists(p);
        if exists|i: int| 0 <= i < p.len() && (#[trigger] p[i]).storage is UnOccupied {
            let i = choose|i: int| 0 <= i < p.len() && (#[trigger] p[i]).storage is UnOccupied;
            assert(s[i] == p[i]);
        }
        if exists|i: int| 0 <= i < s.len() && (#[trigger] s[i]).storage is UnOccupied {
            let i = choose|i: int| 0 <= i < s.len() && (#[trigger] s[i]).storage is UnOccupied;
            if i < p.len() {
                assert(s[i] == p[i]);
            }
        }
    }
}

/// Slots that never held an entry are all counted as unused.
proof fn lemma_fresh_counts<K, V>(s: Seq<ProbeHashMapEntry<K, V>>)
    requires
        forall|i: int| 0 <= i < s.len() ==> (#[trigger] s[i]).is_fresh(),
    ensures
        count_unused(s) == s.len(),
        count_deleted(s) == 0,
    decreases s.len(),
{
    if s.len() > 0 {
        let p = s.drop_last();
        assert forall|i: int| 0 <= i < p.len() implies (#[trigger] p[i]).is_fresh() by {
            assert(p[i] == s[i]);
        }
        lemma_fresh_counts(p);
    }
}

/// Probing from `h` for `d` steps and measuring the distance back gives `d`.
proof fn lemma_probe_round_trip(h: int, d: int, size: int)
    requires
        0 <= h < size,
        0 <= d < size,
    ensures
        0 <= probe_pos(h, d, size) < size,
        probe_dist(h, probe_pos(h, d, size), size) == d,
{
}

/// Removing position `j` from a sequence without repeats removes exactly the
/// element at `j`.
proof fn lemma_remove_contains(o: Seq<usize>, j: int, x: usize)
    requires
        o.no_duplicates(),
        0 <= j < o.len(),
    ensures
        o.remove(j).contains(x) <==> o.contains(x) && x != o[j],
{
    let n = o.remove(j);
    if n.contains(x) {
        let k = choose|k: int| 0 <= k < n.len() && n[k] == x;
        assert(o[if k < j { k } else { k + 1 }] == x);
    }
    if o.contains(x) && x != o[j] {
        let k = choose|k: int| 0 <= k < o.len() && o[k] == x;
        assert(n[if k < j { k } else { k - 1 }] == x);
    }
}

impl<K: ProbeKey, T, const SIZE: usize> View for ProbeHashMap<K, T, SIZE> {
    type V = Seq<(KeyView, T)>;

    /// The live entries, from the least to the most recently inserted or updated.
    closed spec fn view(&self) -> Seq<(KeyView, T)> {
        self.order@.map_values(|i: usize| self.slot_entry(i as int))
    }
}

impl<K: ProbeKey, V, const SIZE: usize> ProbeHashMap<K, V, SIZE> {
    /// Slot `i` holds a live entry with key `k`.
    spec fn occupied_with(&self, i: int, k: KeyView) -> bool {
        &&& self.entry_array@[i].storage is Occupied
        &&& self.entry_array@[i].storage->Occupied_0.key.key_view() == k
    }

    /// The key and value of the live entry in slot `i`.
    spec fn slot_entry(&self, i: int) -> (KeyView, V) {
        let e = self.entry_array@[i].storage->Occupied_0;
        (e.key.key_view(), e.value)
    }

    /// No two live slots hold equal keys.
    #[verifier::opaque]
    spec fn keys_wf(&self) -> bool {
        forall|i: int, j: int|
            0 <= i < SIZE && 0 <= j < SIZE && #[trigger] self.entry_array@[i].storage is Occupied
                && #[trigger] self.entry_array@[j].storage is Occupied
                && self.entry_array@[i].storage->Occupied_0.key.key_view()
                == self.entry_array@[j].storage->Occupied_0.key.key_view() ==> i == j
    }

    /// No never-used slot lies on the probe path from a live key's home slot to
    /// the slot that holds it.
    #[verifier::opaque]
    spec fn probe_wf(&self) -> bool {
        forall|i: int, d: int|
            0 <= i < SIZE && (#[trigger] self.entry_array@[i]).storage is Occupied && 0 <= d
                < probe_dist(self.home_of_slot(i), i, SIZE as int) ==> !self.slot_unused(
                #[trigger] probe_pos(self.home_of_slot(i), d, SIZE as int),
            )
    }

    /// Slot `i` never held an entry.
    spec fn slot_unused(&self, i: int) -> bool {
        self.entry_array@[i].storage is UnOccupied
    }

    /// The home slot of the key held in slot `i`.
    spec fn home_of_slot(&self, i: int) -> int {
        home_slot(self.entry_array@[i].storage->Occupied_0.key.key_view(), SIZE as nat)
    }

    /// Every live slot shows up in the view at its place in the order list, and
    /// the view has unique keys.
    proof fn lemma_view(&self)
        requires
            self.wf(),
        ensures
            keys_unique(self@),
            self@.len() == self.order@.len(),
            forall|j: int| 0 <= j < self.order@.len() ==> #[trigger] self@[j] == self.slot_entry(self.order@[j] as int),
            forall|j: int| 0 <= j < self.order@.len() ==> (#[trigger] self.entry_array@[self.order@[j] as int]).storage is Occupied,
            forall|i: int, k: KeyView| 0 <= i < SIZE && self.occupied_with(i, k) ==> contains_key(self@, k),
            forall|k: KeyView| contains_key(self@, k) ==> exists|i: int| 0 <= i < SIZE && self.occupied_with(i, k),
    {
        reveal(ProbeHashMap::links_wf);
        reveal(ProbeHashMap::occupancy_wf);
        reveal(ProbeHashMap::keys_wf);
        let o = self.order@;
        let v = self@;
        assert forall|j: int| 0 <= j < o.len() implies (#[trigger] self.entry_array@[o[j] as int]).storage is Occupied by {
            assert(o.contains(o[j]));
        }
        assert forall|a: int, b: int| 0 <= a < v.len() && 0 <= b < v.len() && #[trigger] v[a].0 == #[trigger] v[b].0 implies a == b by {
            assert(self.entry_array@[o[a] as int].storage is Occupied);
            assert(self.entry_array@[o[b] as int].storage is Occupied);
        }
        assert forall|i: int, k: KeyView| 0 <= i < SIZE && self.occupied_with(i, k) implies contains_key(self@, k) by {
            assert(o.contains(i as usize));
            let j = choose|j: int| 0 <= j < o.len() && o[j] == i as usize;
            assert(v[j].0 == k);
        }
        assert forall|k: KeyView| contains_key(self@, k) implies exists|i: int| 0 <= i < SIZE && self.occupied_with(i, k) by {
            let j = choose|j: int| 0 <= j < v.len() && #[trigger] v[j].0 == k;
            assert(self.occupied_with(o[j] as int, k));
        }
    }

    /// The order list has no repeated slot, and names only slots of the table.
    proof fn lemma_order_facts(&self)
        requires
            self.wf(),
        ensures
            self.order@.no_duplicates(),
            forall|j: int| 0 <= j < self.order@.len() ==> #[trigger] self.order@[j] < SIZE,
    {
        reveal(ProbeHashMap::links_wf);
    }

    /// The map's invariant.
    pub closed spec fn wf(&self) -> bool {
        &&& SIZE > 0
        &&& self.entry_array@.len() == SIZE
        &&& self.links_wf()
        &&& self.occupancy_wf()
        &&& self.keys_wf()
        &&& self.probe_wf()
    }

}

impl<K: ProbeKey, V, const SIZE: usize> ProbeHashMap<K, V, SIZE> {
    /// The home slot of `key`.
    fn hash<Q: ProbeKey + ?Sized>(&self, key: &Q) -> (r: usize)
        requires
            SIZE > 0,
        ensures
            r == home_slot(key.key_view(), SIZE as nat),
            r < SIZE,
    {
        let mut state = std::hash::DefaultHasher::new();
        state.write(key.key_bytes());
        let h = state.finish();
        (h % (SIZE as u64)) as usize
    }

    /// The keys stay unique and the probe paths stay free of never-used slots
    /// when no slot gains a key, changes its key, or becomes unused.
    proof fn lemma_keys_probe_keep(pre: Self, post: Self)
        requires
            pre.keys_wf(),
            pre.probe_wf(),
            forall|i: int|
                0 <= i < SIZE && (#[trigger] post.entry_array@[i]).storage is Occupied ==> pre.entry_array@[i].storage is Occupied
                    && post.entry_array@[i].storage->Occupied_0.key.key_view()
                    == pre.entry_array@[i].storage->Occupied_0.key.key_view(),
            forall|i: int| 0 <= i < SIZE && #[trigger] post.slot_unused(i) ==> pre.slot_unused(i),
        ensures
            post.keys_wf(),
            post.probe_wf(),
    {
        reveal(ProbeHashMap::keys_wf);
        reveal(ProbeHashMap::probe_wf);
        let a = post.entry_array@;
        let a0 = pre.entry_array@;
        assert forall|x: int, y: int| 0 <= x < SIZE && 0 <= y < SIZE && #[trigger] a[x].storage is Occupied
            && #[trigger] a[y].storage is Occupied
            && a[x].storage->Occupied_0.key.key_view() == a[y].storage->Occupied_0.key.key_view() implies x == y by {
            assert(a0[x].storage is Occupied && a0[y].storage is Occupied);
        }
        assert forall|i: int, d: int|
            0 <= i < SIZE && (#[trigger] a[i]).storage is Occupied && 0 <= d
                < probe_dist(post.home_of_slot(i), i, SIZE as int) implies !post.slot_unused(
                #[trigger] probe_pos(post.home_of_slot(i), d, SIZE as int),
            ) by {
            let hi = post.home_of_slot(i);
            assert(a0[i].storage is Occupied);
            assert(pre.home_of_slot(i) == hi);
            lemma_probe_round_trip(hi, d, SIZE as int);
            assert(!pre.slot_unused(probe_pos(hi, d, SIZE as int)));
        }
    }

    /// The invariant and the view after the entry at position `j` of the order
    /// list got a new value and moved to the end of the list.
    proof fn lemma_after_relink(pre: Self, post: Self, j: int, value: V)
        requires
            pre.wf(),
            post.links_wf(),
            post.entry_array@.len() == SIZE,
            0 <= j < pre.order@.len(),
            post.order@ == pre.order@.remove(j).push(pre.order@[j]),
            forall|i: int| 0 <= i < SIZE && i != pre.order@[j] ==> (#[trigger] post.entry_array@[i]).storage
                == pre.entry_array@[i].storage,
            post.entry_array@[pre.order@[j] as int].storage is Occupied,
            post.entry_array@[pre.order@[j] as int].storage->Occupied_0.key
                == pre.entry_array@[pre.order@[j] as int].storage->Occupied_0.key,
            post.entry_array@[pre.order@[j] as int].storage->Occupied_0.value == value,
        ensures
            post.wf(),
            post@ == pre@.remove(j).push((pre@[j].0, value)),
    {
        pre.lemma_view();
        pre.lemma_order_facts();
        let a = post.entry_array@;
        let a0 = pre.entry_array@;
        let o0 = pre.order@;
        let o = post.order@;
        let index = o0[j];
        assert forall|i: int| 0 <= i < SIZE implies (#[trigger] a[i]).storage is Occupied == a0[i].storage is Occupied by {}
        Self::lemma_keys_probe_keep(pre, post);
        assert(post.occupancy_wf()) by {
            reveal(ProbeHashMap::occupancy_wf);
            assert forall|i: int| 0 <= i < SIZE implies ((#[trigger] a[i]).storage is Occupied
                <==> o.contains(i as usize)) by {
                lemma_remove_contains(o0, j, i as usize);
                assert(o.contains(i as usize) <==> o0.remove(j).contains(i as usize) || i == index) by {
                    if i == index {
                        assert(o[o.len() - 1] == index);
                    } else if o.contains(i as usize) {
                        let x = choose|x: int| 0 <= x < o.len() && o[x] == i as usize;
                        assert(o0.remove(j)[x] == i);
                    } else if o0.remove(j).contains(i as usize) {
                        let x = choose|x: int| 0 <= x < o0.remove(j).len() && o0.remove(j)[x] == i as usize;
                        assert(o[x] == i);
                    }
                }
            }
        }
        let v0 = pre@;
        assert(post@ =~= v0.remove(j).push((v0[j].0, value))) by {
            assert forall|x: int| 0 <= x < o.len() - 1 implies #[trigger] post@[x] == v0.remove(j)[x] by {
                let y = if x < j { x } else { x + 1 };
                assert(o[x] == o0[y]);
                assert(o0[y] != index);
            }
        }
    }

    /// The invariant and the view after the entry at position `j` of the order
    /// list left the list and its slot became a tombstone.
    proof fn lemma_after_unlink(pre: Self, post: Self, j: int)
        requires
            pre.wf(),
            post.links_wf(),
            post.entry_array@.len() == SIZE,
            0 <= j < pre.order@.len(),
            post.order@ == pre.order@.remove(j),
            forall|i: int| 0 <= i < SIZE && i != pre.order@[j] ==> (#[trigger] post.entry_array@[i]).storage
                == pre.entry_array@[i].storage,
            post.entry_array@[pre.order@[j] as int].storage is OccupiedDeleted,
        ensures
            post.wf(),
            post@ == pre@.remove(j),
    {
        pre.lemma_view();
        pre.lemma_order_facts();
        let a = post.entry_array@;
        let a0 = pre.entry_array@;
        let o0 = pre.order@;
        let o = post.order@;
        let index = o0[j];
        Self::lemma_keys_probe_keep(pre, post);
        assert(post.occupancy_wf()) by {
            reveal(ProbeHashMap::occupancy_wf);
            assert forall|i: int| 0 <= i < SIZE implies ((#[trigger] a[i]).storage is Occupied
                <==> o.contains(i as usize)) by {
                lemma_remove_contains(o0, j, i as usize);
            }
        }
        assert(post@ =~= pre@.remove(j)) by {
            assert forall|x: int| 0 <= x < o.len() implies #[trigger] post@[x] == pre@.remove(j)[x] by {
                let y = if x < j { x } else { x + 1 };
                assert(o[x] == o0[y]);
                assert(o0[y] != index);
            }
        }
    }

    /// Stores a new key in the free slot `index` and links it as the newest entry.
    fn insert_at_index(&mut self, index: usize, key: K, value: V)
        requires
            old(self).wf(),
            index < SIZE,
            !(old(self).entry_array@[index as int].storage is Occupied),
            forall|j: int| 0 <= j < SIZE ==> !old(self).occupied_with(j, key.key_view()),
            forall|d: int|
                0 <= d < probe_dist(home_slot(key.key_view(), SIZE as nat), index as int, SIZE as int)
                    ==> !old(self).slot_unused(
                    #[trigger] probe_pos(home_slot(key.key_view(), SIZE as nat), d, SIZE as int),
                ),
        ensures
            final(self).wf(),
            final(self)@ == old(self)@.push((key.key_view(), value)),
            final(self).unused() + final(self).tombstones() + 1 == old(self).unused() + old(self).tombstones(),
            final(self).tombstones() <= old(self).tombstones(),
    {
        let ghost k = key.key_view();
        let ghost pre = *self;
        let ghost h = home_slot(k, SIZE as nat);
        self.entry_array[index].storage = Storage::Occupied(Entry { key, value });
        proof {
            reveal(ProbeHashMap::links_wf);
            reveal(ProbeHashMap::occupancy_wf);
            reveal(ProbeHashMap::keys_wf);
            reveal(ProbeHashMap::probe_wf);
            lemma_counts_update(pre.entry_array@, index as int, self.entry_array@[index as int]);
            Self::lemma_links_keep(pre, *self);
            assert(!pre.order@.contains(index));
        }
        let ghost mid = *self;
        self.link_as_last(index);
        proof {
            reveal(ProbeHashMap::links_wf);
            reveal(ProbeHashMap::occupancy_wf);
            reveal(ProbeHashMap::keys_wf);
            reveal(ProbeHashMap::probe_wf);
            lemma_counts_same_storage(self.entry_array@, mid.entry_array@);
            pre.lemma_view();
            let a = self.entry_array@;
            let a0 = pre.entry_array@;
            assert forall|i: int| 0 <= i < SIZE && i != index implies (#[trigger] a[i]).storage == a0[i].storage by {}
            assert(self.occupancy_wf()) by {
                assert forall|i: int| 0 <= i < SIZE implies ((#[trigger] a[i]).storage is Occupied
                    <==> self.order@.contains(i as usize)) by {
                    if i == index {
                        assert(self.order@[pre.order@.len() as int] == index);
                    } else if pre.order@.contains(i as usize) {
                        let j = choose|j: int| 0 <= j < pre.order@.len() && pre.order@[j] == i as usize;
                        assert(self.order@[j] == i);
                    }
                }
            }
            assert(self.keys_wf()) by {
                assert forall|x: int, y: int| 0 <= x < SIZE && 0 <= y < SIZE && #[trigger] a[x].storage is Occupied
                    && #[trigger] a[y].storage is Occupied
                    && a[x].storage->Occupied_0.key.key_view() == a[y].storage->Occupied_0.key.key_view() implies x == y by {
                    if x != index && y != index {
                        assert(a0[x].storage is Occupied && a0[y].storage is Occupied);
                    } else if x != index {
                        assert(pre.occupied_with(x, k));
                    } else if y != index {
                        assert(pre.occupied_with(y, k));
                    }
                }
            }
            assert(self.probe_wf()) by {
                assert forall|i: int, d: int|
                    0 <= i < SIZE && (#[trigger] a[i]).storage is Occupied && 0 <= d
                        < probe_dist(self.home_of_slot(i), i, SIZE as int) implies !self.slot_unused(
                        #[trigger] probe_pos(self.home_of_slot(i), d, SIZE as int),
                    ) by {
                    let hi = self.home_of_slot(i);
                    lemma_probe_round_trip(hi, d, SIZE as int);
                    if i == index {
                        assert(hi == h);
                        assert(probe_pos(h, d, SIZE as int) != index);
                    } else {
                        assert(a0[i].storage is Occupied);
                        assert(pre.home_of_slot(i) == hi);
                        assert(!pre.slot_unused(probe_pos(hi, d, SIZE as int)));
                    }
                }
            }
            assert(self@ =~= pre@.push((k, value))) by {
                assert forall|j: int| 0 <= j < pre.order@.len() implies #[trigger] self@[j] == pre@[j] by {
                    assert(self.order@[j] == pre.order@[j]);
                    assert(pre.order@[j] != index);
                }
            }
        }
    }

    /// Gives the live slot `index`, at position `j` of the order list, a new
    /// value and makes it the newest entry.
    fn update_at_index(&mut self, index: usize, value: V, Ghost(j): Ghost<int>)
        requires
            old(self).wf(),
            index < SIZE,
            0 <= j < old(self).order@.len(),
            old(self).order@[j] == index,
        ensures
            final(self).wf(),
            final(self)@ == old(self)@.remove(j).push((old(self)@[j].0, value)),
            final(self).unused() == old(self).unused(),
            final(self).tombstones() == old(self).tombstones(),
            forall|i: int| 0 <= i < SIZE ==> #[trigger] final(self).slot_key(i) == old(self).slot_key(i),
    {
        let ghost pre = *self;
        proof {
            pre.lemma_view();
        }
        match &mut self.entry_array[index].storage {
            Storage::Occupied(entry) => {
                entry.value = value;
            },
            _ => {},
        }
        let ghost mid = *self;
        proof {
            lemma_counts_update(pre.entry_array@, index as int, self.entry_array@[index as int]);
            Self::lemma_links_keep(pre, mid);
        }
        self.unlink(index, Ghost(j));
        self.link_as_last(index);
        proof {
            lemma_counts_same_storage(self.entry_array@, mid.entry_array@);
            Self::lemma_after_relink(pre, *self, j, value);
            assert forall|i: int| 0 <= i < SIZE implies #[trigger] self.slot_key(i) == pre.slot_key(i) by {
                assert(self.entry_array@[i].storage == mid.entry_array@[i].storage);
            }
        }
    }

    /// Takes the live slot `index`, at position `j` of the order list, out of
    /// the order list and marks it as a tombstone.
    fn remove_at_index(&mut self, index: usize, Ghost(j): Ghost<int>)
        requires
            old(self).wf(),
            index < SIZE,
            0 <= j < old(self).order@.len(),
            old(self).order@[j] == index,
        ensures
            final(self).wf(),
            final(self)@ == old(self)@.remove(j),
            final(self).unused() == old(self).unused(),
            final(self).tombstones() == old(self).tombstones() + 1,
    {
        let ghost pre = *self;
        proof {
            pre.lemma_view();
        }
        self.unlink(index, Ghost(j));
        let ghost mid = *self;
        self.entry_array[index].storage = Storage::OccupiedDeleted;
        proof {
            lemma_counts_same_storage(mid.entry_array@, pre.entry_array@);
            lemma_counts_update(mid.entry_array@, index as int, self.entry_array@[index as int]);
            Self::lemma_links_keep(mid, *self);
            Self::lemma_after_unlink(pre, *self, j);
        }
    }

    /// The slot that holds `key`; else, if the probe path meets a never-used
    /// slot, the first free slot (tombstone or never used) on the path; else
    /// `Exhausted`.
    fn find_entry_or_unoccupied<Q: ProbeKey + ?Sized>(&self, key: &Q) -> (r: FindResult)
        requires
            self.wf(),
        ensures
            match r {
                FindResult::Entry(i) => i < SIZE && self.occupied_with(i as int, key.key_view()),
                FindResult::UnOccupied(i) => {
                    &&& i < SIZE
                    &&& !(self.entry_array@[i as int].storage is Occupied)
                    &&& forall|j: int| 0 <= j < SIZE ==> !self.occupied_with(j, key.key_view())
                    &&& exists|j: int| 0 <= j < SIZE && self.slot_unused(j)
                    &&& forall|d: int|
                        0 <= d < probe_dist(home_slot(key.key_view(), SIZE as nat), i as int, SIZE as int)
                            ==> !self.slot_unused(
                            #[trigger] probe_pos(home_slot(key.key_view(), SIZE as nat), d, SIZE as int),
                        )
                },
                FindResult::Exhausted => {
                    &&& forall|j: int| 0 <= j < SIZE ==> !self.occupied_with(j, key.key_view())
                    &&& forall|j: int| 0 <= j < SIZE ==> !self.slot_unused(j)
                },
            },
    {
        let h = self.hash(key);
        let mut index: usize = h;
        let mut step: usize = 0;
        let mut first_deleted: Option<usize> = None;
        while step < SIZE
            invariant
                self.wf(),
                h == home_slot(key.key_view(), SIZE as nat),
                h < SIZE,
                step <= SIZE,
                index < SIZE,
                index == probe_pos(h as int, step as int, SIZE as int),
                forall|d: int|
                    0 <= d < step ==> !self.occupied_with(
                        #[trigger] probe_pos(h as int, d, SIZE as int),
                        key.key_view(),
                    ) && !self.slot_unused(probe_pos(h as int, d, SIZE as int)),
                match first_deleted {
                    Some(t) => t < SIZE && self.entry_array@[t as int].storage is OccupiedDeleted
                        && probe_dist(h as int, t as int, SIZE as int) < step,
                    None => true,
                },
            decreases SIZE - step,
        {
            match &self.entry_array[index].storage {
                Storage::Occupied(entry) => {
                    if bytes_eq(entry.key.key_bytes(), key.key_bytes()) {
                        return FindResult::Entry(index);
                    }
                },
                Storage::UnOccupied => {
                    proof {
                        reveal(ProbeHashMap::probe_wf);
                        assert forall|i: int| 0 <= i < SIZE implies !self.occupied_with(i, key.key_view()) by {
                            if self.occupied_with(i, key.key_view()) {
                                let d = probe_dist(h as int, i, SIZE as int);
                                assert(probe_pos(h as int, d, SIZE as int) == i);
                                if d > step {
                                    assert(self.home_of_slot(i) == h);
                                    assert(!self.slot_unused(
                                        probe_pos(self.home_of_slot(i), step as int, SIZE as int),
                                    ));
                                }
                            }
                        }
                        assert(self.slot_unused(index as int));
                    }
                    return match first_deleted {
                        Some(t) => FindResult::UnOccupied(t),
                        None => FindResult::UnOccupied(index),
                    };
                },
                Storage::OccupiedDeleted => {
                    if first_deleted.is_none() {
                        first_deleted = Some(index);
                    }
                },
            }
            index = if index + 1 == SIZE { 0 } else { index + 1 };
            step += 1;
        }
        proof {
            reveal(ProbeHashMap::probe_wf);
            assert forall|i: int| 0 <= i < SIZE implies !self.occupied_with(i, key.key_view()) by {
                let d = probe_dist(h as int, i, SIZE as int);
                assert(probe_pos(h as int, d, SIZE as int) == i);
            }
            assert forall|i: int| 0 <= i < SIZE implies !self.slot_unused(i) by {
                let d = probe_dist(h as int, i, SIZE as int);
                assert(probe_pos(h as int, d, SIZE as int) == i);
            }
        }
        FindResult::Exhausted
    }

    /// The slot that holds `key`, if a live one does.
    fn find_index_of<Q: ProbeKey + ?Sized>(&self, key: &Q) -> (r: Option<usize>)
        requires
            self.wf(),
        ensures
            match r {
                Some(i) => i < SIZE && self.occupied_with(i as int, key.key_view()),
                None => forall|i: int| 0 <= i < SIZE ==> !self.occupied_with(i, key.key_view()),
            },
    {
        let h = self.hash(key);
        let mut index: usize = h;
        let mut step: usize = 0;
        while step < SIZE
            invariant
                self.wf(),
                h == home_slot(key.key_view(), SIZE as nat),
                h < SIZE,
                step <= SIZE,
                index < SIZE,
                index == probe_pos(h as int, step as int, SIZE as int),
                forall|d: int| 0 <= d < step ==> !self.occupied_with(#[trigger] probe_pos(h as int, d, SIZE as int), key.key_view()),
            decreases SIZE - step,
        {
            match &self.entry_array[index].storage {
                Storage::Occupied(entry) => {
                    if bytes_eq(entry.key.key_bytes(), key.key_bytes()) {
                        return Some(index);
                    }
                },
                Storage::UnOccupied => {
                    proof {
                        reveal(ProbeHashMap::probe_wf);
                        assert forall|i: int| 0 <= i < SIZE implies !self.occupied_with(i, key.key_view()) by {
                            if self.occupied_with(i, key.key_view()) {
                                let d = probe_dist(h as int, i, SIZE as int);
                                assert(probe_pos(h as int, d, SIZE as int) == i);
                                if d > step {
                                    assert(self.home_of_slot(i) == h);
                                    assert(!self.slot_unused(
                                        probe_pos(self.home_of_slot(i), step as int, SIZE as int),
                                    ));
                                }
                            }
                        }
                    }
                    return None;
                },
                Storage::OccupiedDeleted => {},
            }
            index = if index + 1 == SIZE { 0 } else { index + 1 };
            step += 1;
        }
        proof {
            reveal(ProbeHashMap::probe_wf);
            assert forall|i: int| 0 <= i < SIZE implies !self.occupied_with(i, key.key_view()) by {
                let d = probe_dist(h as int, i, SIZE as int);
                assert(probe_pos(h as int, d, SIZE as int) == i);
            }
        }
        None
    }

    /// The live entry with key `key`, if there is one.
    fn find_entry<Q: ProbeKey + ?Sized>(&self, key: &Q) -> (r: Option<&Entry<K, V>>)
        requires
            self.wf(),
        ensures
            match r {
                Some(e) => e.key.key_view() == key.key_view() && value_of(self@, key.key_view()) == Some(e.value),
                None => !contains_key(self@, key.key_view()),
            },
    {
        proof {
            reveal(ProbeHashMap::occupancy_wf);
            self.lemma_view();
        }
        match self.find_index_of(key) {
            None => None,
            Some(index) => {
                proof {
                    reveal(ProbeHashMap::occupancy_wf);
                    assert(self.order@.contains(index));
                    let j = choose|j: int| 0 <= j < self.order@.len() && self.order@[j] == index;
                    assert(self@[j] == self.slot_entry(index as int));
                    lemma_value_of_at(self@, j);
                }
                match &self.entry_array[index].storage {
                    Storage::Occupied(entry) => Some(entry),
                    _ => None,
                }
            },
        }
    }
}

impl<K: ProbeKey, V, const SIZE: usize> ProbeHashMap<K, V, SIZE> {
    /// An empty map with `SIZE` never-used slots.
    pub fn new() -> (r: Self)
        requires
            SIZE > 0,
        ensures
            r.wf(),
            r@ == Seq::<(KeyView, V)>::empty(),
            r.unused() == SIZE,
            r.tombstones() == 0,
    {
        let mut entry_array: Vec<ProbeHashMapEntry<K, V>> = Vec::with_capacity(SIZE);
        let mut i: usize = 0;
        while i < SIZE
            invariant
                i <= SIZE,
                entry_array@.len() == i,
                forall|j: int| 0 <= j < i ==> (#[trigger] entry_array@[j]).is_fresh(),
            decreases SIZE - i,
        {
            entry_array.push(ProbeHashMapEntry::new());
            i += 1;
        }
        let r = ProbeHashMap { first_index: None, last_index: None, entry_array, order: Ghost(Seq::empty()) };
        proof {
            reveal(ProbeHashMap::links_wf);
            reveal(ProbeHashMap::occupancy_wf);
            reveal(ProbeHashMap::keys_wf);
            reveal(ProbeHashMap::probe_wf);
            lemma_fresh_counts(r.entry_array@);
            assert(r@ =~= Seq::<(KeyView, V)>::empty());
        }
        r
    }

    /// Inserts `key` with `value`, or gives an existing `key` the new value; either
    /// way the entry becomes the newest. Fails, changing nothing, when `key` is
    /// new and no slot of the table is still unused.
    pub fn insert(&mut self, key: K, value: V) -> (r: Result<(), InsertionError>)
        requires
            old(self).wf(),
        ensures
            final(self).wf(),
            r is Err <==> !contains_key(old(self)@, key.key_view()) && old(self).unused() == 0,
            r is Ok ==> final(self)@ == with_entry(old(self)@, key.key_view(), value),
            r is Err ==> final(self)@ == old(self)@,
            contains_key(old(self)@, key.key_view()) || r is Err ==> final(self).unused() == old(self).unused()
                && final(self).tombstones() == old(self).tombstones(),
            !contains_key(old(self)@, key.key_view()) && r is Ok ==> final(self).unused() + final(self).tombstones()
                + 1 == old(self).unused() + old(self).tombstones() && final(self).tombstones()
                <= old(self).tombstones(),
            contains_key(old(self)@, key.key_view()) ==> forall|i: int|
                0 <= i < SIZE ==> #[trigger] final(self).slot_key(i) == old(self).slot_key(i),
            Self::insert_step(*old(self), key.key_view(), value, r is Ok, *final(self)),
    {
        proof {
            reveal(ProbeHashMap::occupancy_wf);
            self.lemma_view();
            lemma_unused_exists(self.entry_array@);
        }
        match self.find_entry_or_unoccupied(&key) {
            FindResult::Exhausted => {
                proof {
                    reveal(ProbeHashMap::occupancy_wf);
                    assert(!(exists|i: int| 0 <= i < self.entry_array@.len() && (#[trigger] self.entry_array@[i]).storage is UnOccupied)) by {
                        assert forall|i: int| 0 <= i < self.entry_array@.len() implies !((#[trigger] self.entry_array@[i]).storage is UnOccupied) by {
                            assert(!self.slot_unused(i));
                        }
                    }
                }
                return Err(InsertionError::ContainerFull);
            },
            FindResult::Entry(index) => {
                let ghost j = choose|j: int| 0 <= j < self.order@.len() && self.order@[j] == index;
                proof {
                    reveal(ProbeHashMap::occupancy_wf);
                    assert(self.order@.contains(index));
                    assert(self@[j] == self.slot_entry(index as int));
                    lemma_without_key_at(self@, j);
                }
                self.update_at_index(index, value, Ghost(j));
            },
            FindResult::UnOccupied(index) => {
                proof {
                    reveal(ProbeHashMap::occupancy_wf);
                    let j = choose|j: int| 0 <= j < SIZE && self.slot_unused(j);
                    assert(self.entry_array@[j].storage is UnOccupied);
                    lemma_without_absent_key(self@, key.key_view());
                }
                self.insert_at_index(index, key, value);
            },
        };
        Ok(())
    }

    /// Removes the entry with key `key`, if there is one; its slot becomes a
    /// tombstone.
    pub fn remove<Q: ProbeKey + ?Sized>(&mut self, key: &Q)
        requires
            old(self).wf(),
        ensures
            final(self).wf(),
            final(self)@ == without_key(old(self)@, key.key_view()),
            final(self).unused() == old(self).unused(),
            final(self).tombstones() == old(self).tombstones() + if contains_key(old(self)@, key.key_view()) {
                1int
            } else {
                0int
            },
    {
        proof {
            reveal(ProbeHashMap::occupancy_wf);
            self.lemma_view();
        }
        match self.find_index_of(key) {
            Some(index) => {
                let ghost j = choose|j: int| 0 <= j < self.order@.len() && self.order@[j] == index;
                proof {
                    reveal(ProbeHashMap::occupancy_wf);
                    assert(self.order@.contains(index));
                    assert(self@[j] == self.slot_entry(index as int));
                    lemma_without_key_at(self@, j);
                }
                self.remove_at_index(index, Ghost(j));
            },
            None => {
                proof {
                    reveal(ProbeHashMap::occupancy_wf);
                    lemma_without_absent_key(self@, key.key_view());
                }
            },
        };
    }

    /// The value stored under `key`, if any.
    pub fn get<Q: ProbeKey + ?Sized>(&self, key: &Q) -> (r: Option<&V>)
        requires
            self.wf(),
        ensures
            match r {
                Some(v) => value_of(self@, key.key_view()) == Some(*v),
                None => value_of(self@, key.key_view()) is None,
            },
    {
        match self.find_entry(key) {
            None => None,
            Some(entry) => Some(&entry.value),
        }
    }

    /// The most recently inserted or updated entry, or `None` if the map is empty.
    pub fn get_last(&self) -> (r: Option<&Entry<K, V>>)
        requires
            self.wf(),
        ensures
            match r {
                Some(e) => self@.len() > 0 && self@.last() == (e.key.key_view(), e.value),
                None => self@.len() == 0,
            },
    {
        proof {
            reveal(ProbeHashMap::links_wf);
            self.lemma_view();
        }
        let index = match self.last_index {
            None => return None,
            Some(index) => index,
        };
        proof {
            reveal(ProbeHashMap::links_wf);
            let n = self.order@.len() - 1;
            assert(n >= 0 && index == self.order@[n]);
            assert(self@[n] == self.slot_entry(self.order@[n] as int));
        }
        match &self.entry_array[index].storage {
            Storage::Occupied(entry) => Some(entry),
            _ => None,
        }
    }

    /// The least recently inserted or updated entry, or `None` if the map is empty.
    pub fn get_first(&self) -> (r: Option<&Entry<K, V>>)
        requires
            self.wf(),
        ensures
            match r {
                Some(e) => self@.len() > 0 && self@[0] == (e.key.key_view(), e.value),
                None => self@.len() == 0,
            },
    {
        proof {
            reveal(ProbeHashMap::links_wf);
            self.lemma_view();
        }
        let index = match self.first_index {
            None => return None,
            Some(index) => index,
        };
        proof {
            reveal(ProbeHashMap::links_wf);
            assert(self.order@.len() > 0 && index == self.order@[0]);
            assert(self@[0] == self.slot_entry(self.order@[0] as int));
        }
        match &self.entry_array[index].storage {
            Storage::Occupied(entry) => Some(entry),
            _ => None,
        }
    }
}

impl<K: ProbeKey, V, const SIZE: usize> ProbeHashMap<K, V, SIZE> {
    /// The key held by slot `i`, if the slot is live.
    pub closed spec fn slot_key(&self, i: int) -> Option<KeyView> {
        if self.entry_array@[i].storage is Occupied {
            Some(self.entry_array@[i].storage->Occupied_0.key.key_view())
        } else {
            None
        }
    }

    /// The slot indices of the order list, from the oldest to the newest entry.
    pub closed spec fn order_slots(&self) -> Seq<usize> {
        self.order@
    }

    /// The slot at the head of the order list (the oldest entry).
    pub closed spec fn head(&self) -> Option<usize> {
        self.first_index
    }

    /// The slot at the tail of the order list (the newest entry).
    pub closed spec fn tail(&self) -> Option<usize> {
        self.last_index
    }

    /// The link from slot `i` to the next newer entry.
    pub closed spec fn next_link(&self, i: int) -> Option<usize> {
        self.entry_array@[i].linkage.next
    }

    /// The link from slot `i` to the next older entry.
    pub closed spec fn previous_link(&self, i: int) -> Option<usize> {
        self.entry_array@[i].linkage.previous
    }

    /// What `insert(key, value)` does, as a relation between the map before
    /// (`pre`) and after (`post`) the call; `ok` tells whether it succeeded.
    pub open spec fn insert_step(pre: Self, key: KeyView, value: V, ok: bool, post: Self) -> bool {
        &&& post.wf()
        &&& ok <==> contains_key(pre@, key) || pre.unused() > 0
        &&& ok ==> post@ == with_entry(pre@, key, value)
        &&& !ok ==> post@ == pre@
        &&& contains_key(pre@, key) || !ok ==> post.unused() == pre.unused() && post.tombstones()
            == pre.tombstones()
        &&& !contains_key(pre@, key) && ok ==> post.unused() + post.tombstones() + 1 == pre.unused()
            + pre.tombstones() && post.tombstones() <= pre.tombstones()
        &&& contains_key(pre@, key) ==> forall|i: int|
            0 <= i < SIZE ==> #[trigger] post.slot_key(i) == pre.slot_key(i)
    }

    /// Uniqueness: in a well-formed map, at most one live slot holds a given key,
    /// and the live entries have distinct keys.
    pub proof fn lemma_one_slot_per_key(&self)
        requires
            self.wf(),
        ensures
            forall|i: int, j: int|
                0 <= i < SIZE && 0 <= j < SIZE && (#[trigger] self.slot_key(i)) is Some
                    && #[trigger] self.slot_key(j) == self.slot_key(i) ==> i == j,
            keys_unique(self@),
    {
        reveal(ProbeHashMap::keys_wf);
        self.lemma_view();
    }

    /// Every slot of a well-formed map is unused, a tombstone or live.
    pub proof fn lemma_slot_counts(&self)
        requires
            self.wf(),
        ensures
            self.unused() + self.tombstones() + self.live() == SIZE,
    {
        lemma_counts_sum(self.entry_array@);
    }

    /// Update-not-duplicate: inserting a key that is already present succeeds,
    /// stores the new value in the slot that held the key, and leaves the number
    /// of entries, the keys of all slots and the number of live slots as they
    /// were.
    pub proof fn lemma_update_keeps_count(pre: Self, key: KeyView, value: V, ok: bool, post: Self)
        requires
            pre.wf(),
            Self::insert_step(pre, key, value, ok, post),
            contains_key(pre@, key),
        ensures
            ok,
            post@.len() == pre@.len(),
            value_of(post@, key) == Some(value),
            post.live() == pre.live(),
            forall|i: int| 0 <= i < SIZE ==> #[trigger] post.slot_key(i) == pre.slot_key(i),
    {
        pre.lemma_slot_counts();
        post.lemma_slot_counts();
        pre.lemma_one_slot_per_key();
        lemma_update_in_place(pre@, key, value);
    }

    /// Order invariant: following the links from the head visits the live slots
    /// in the order of the entries, oldest first, and ends at the tail; the
    /// links read backwards give the same walk in reverse; no other slot is
    /// linked or live.
    pub proof fn lemma_order_chain(&self)
        requires
            self.wf(),
        ensures
            self.order_slots().len() == self@.len(),
            self.head() == if self@.len() == 0 { None } else { Some(self.order_slots()[0]) },
            self.tail() == if self@.len() == 0 { None } else { Some(self.order_slots().last()) },
            forall|j: int|
                0 <= j < self@.len() ==> {
                    &&& self.order_slots()[j] < SIZE
                    &&& self.slot_key(#[trigger] self.order_slots()[j] as int) == Some(self@[j].0)
                    &&& self.next_link(self.order_slots()[j] as int) == if j == self@.len() - 1 {
                        None
                    } else {
                        Some(self.order_slots()[j + 1])
                    }
                    &&& self.previous_link(self.order_slots()[j] as int) == if j == 0 {
                        None
                    } else {
                        Some(self.order_slots()[j - 1])
                    }
                },
            forall|i: int|
                0 <= i < SIZE && !self.order_slots().contains(i as usize) ==> {
                    &&& self.slot_key(i) is None
                    &&& self.next_link(i) is None
                    &&& self.previous_link(i) is None
                },
    {
        reveal(ProbeHashMap::links_wf);
        reveal(ProbeHashMap::occupancy_wf);
        self.lemma_view();
        assert forall|i: int| 0 <= i < SIZE && !self.order_slots().contains(i as usize) implies self.slot_key(i) is None by {
            assert(!(self.entry_array@[i].storage is Occupied));
        }
    }

    /// The first `n` of the inserts described in `lemma_exhaustion` all succeed,
    /// use up `n` unused slots, create no tombstone and insert only those keys.
    proof fn lemma_exhaustion_prefix(maps: Seq<Self>, keys: Seq<KeyView>, values: Seq<V>, oks: Seq<bool>, n: int)
        requires
            maps.len() == SIZE + 2,
            keys.len() == SIZE + 1,
            values.len() == SIZE + 1,
            oks.len() == SIZE + 1,
            maps[0]@.len() == 0,
            maps[0].unused() == SIZE,
            maps[0].tombstones() == 0,
            forall|a: int, b: int| 0 <= a < b < keys.len() ==> keys[a] != keys[b],
            forall|i: int|
                0 <= i < SIZE + 1 ==> Self::insert_step(
                    #[trigger] maps[i],
                    keys[i],
                    values[i],
                    oks[i],
                    maps[i + 1],
                ),
            0 <= n <= SIZE,
        ensures
            forall|t: int| 0 <= t < n ==> #[trigger] oks[t],
            maps[n].tombstones() == 0,
            maps[n].unused() == SIZE - n,
            forall|k: KeyView| contains_key(maps[n]@, k) ==> exists|t: int| 0 <= t < n && keys[t] == k,
        decreases n,
    {
        if n > 0 {
            let i = n - 1;
            Self::lemma_exhaustion_prefix(maps, keys, values, oks, i);
            let pre = maps[i];
            let post = maps[n];
            assert(Self::insert_step(pre, keys[i], values[i], oks[i], post));
            assert(!contains_key(pre@, keys[i])) by {
                if contains_key(pre@, keys[i]) {
                    let t = choose|t: int| 0 <= t < i && keys[t] == keys[i];
                }
            }
            assert forall|k: KeyView| contains_key(post@, k) implies exists|t: int| 0 <= t < n && keys[t] == k by {
                lemma_with_entry_keys(pre@, keys[i], values[i], k);
                if k != keys[i] {
                    let t = choose|t: int| 0 <= t < i && keys[t] == k;
                    assert(0 <= t < n && keys[t] == k);
                } else {
                    assert(0 <= i < n && keys[i] == k);
                }
            }
        }
    }

    /// Exhaustion: starting from an empty map with every slot unused, inserting
    /// `SIZE + 1` distinct keys one after the other succeeds `SIZE` times and
    /// fails on the last key.
    pub proof fn lemma_exhaustion(maps: Seq<Self>, keys: Seq<KeyView>, values: Seq<V>, oks: Seq<bool>)
        requires
            maps.len() == SIZE + 2,
            keys.len() == SIZE + 1,
            values.len() == SIZE + 1,
            oks.len() == SIZE + 1,
            maps[0]@.len() == 0,
            maps[0].unused() == SIZE,
            maps[0].tombstones() == 0,
            forall|a: int, b: int| 0 <= a < b < keys.len() ==> keys[a] != keys[b],
            forall|i: int|
                0 <= i < SIZE + 1 ==> Self::insert_step(
                    #[trigger] maps[i],
                    keys[i],
                    values[i],
                    oks[i],
                    maps[i + 1],
                ),
        ensures
            forall|i: int| 0 <= i < SIZE ==> #[trigger] oks[i],
            !oks[SIZE as int],
    {
        Self::lemma_exhaustion_prefix(maps, keys, values, oks, SIZE as int);
        let i = SIZE as int;
        assert(Self::insert_step(maps[i], keys[i], values[i], oks[i], maps[i + 1]));
        assert(!contains_key(maps[i]@, keys[i])) by {
            if contains_key(maps[i]@, keys[i]) {
                let t = choose|t: int| 0 <= t < i && keys[t] == keys[i];
            }
        }
    }
}

} // verus!
