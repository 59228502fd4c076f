//! A priority buffer for results that completed ahead of their turn.
//!
//! The buffer is a binary heap stored level by level in a vector: the entry
//! at slot `j > 0` has its parent at slot `(j - 1) / 2`, and no entry is
//! greater than its parent. Entries compare as `OrderWrapper` does, by
//! sequence number and backwards, so the entry with the least sequence number
//! is the greatest one and sits at the root.
use vstd::prelude::*;
use vstd::pervasive::VecAdditionalExecFns;
use crate::order_wrapper::OrderWrapper;

verus! {

/// The entry at slot `j` is not greater than the entry at its parent slot:
/// its sequence number is not the smaller of the two.
spec fn ordered_at<V>(s: Seq<OrderWrapper<V>>, j: int) -> bool {
    s[(j - 1) / 2].index <= s[j].index
}

/// Every entry but the root is in order with its parent.
spec fn heap_ordered<V>(s: Seq<OrderWrapper<V>>) -> bool {
    forall|j: int| 0 < j < s.len() ==> #[trigger] ordered_at(s, j)
}

/// No two slots hold the same sequence number.
spec fn distinct<V>(s: Seq<OrderWrapper<V>>) -> bool {
    forall|i: int, j: int|
        #![trigger s[i], s[j]]
        0 <= i < j < s.len() ==> s[i].index != s[j].index
}

/// Slot `j` holds the sequence number `index`.
spec fn holds_at<V>(s: Seq<OrderWrapper<V>>, j: int, index: usize) -> bool {
    0 <= j < s.len() && s[j].index == index
}

/// No slot holds the sequence number `index`.
spec fn lacks<V>(s: Seq<OrderWrapper<V>>, index: usize) -> bool {
    forall|j: int| !#[trigger] holds_at(s, j, index)
}

/// The entries as a map from sequence number to value.
spec fn keyed<V>(s: Seq<OrderWrapper<V>>) -> Map<usize, V> {
    Map::new(
        |k: usize| exists|j: int| #[trigger] holds_at(s, j, k),
        |k: usize| s[choose|j: int| #[trigger] holds_at(s, j, k)].item,
    )
}

/// With distinct sequence numbers, each slot is what `keyed` maps its
/// sequence number to.
proof fn lemma_keyed_entry<V>(s: Seq<OrderWrapper<V>>, j: int)
    requires
        distinct(s),
        0 <= j < s.len(),
    ensures
        keyed(s).contains_key(s[j].index),
        keyed(s)[s[j].index] == s[j].item,
{
    let k = s[j].index;
    assert(holds_at(s, j, k));
    let c = choose|c: int| #[trigger] holds_at(s, c, k);
    assert(holds_at(s, c, k));
    if c < j {
        assert(s[c].index != s[j].index);
    } else if j < c {
        assert(s[j].index != s[c].index);
    }
}

/// A map that agrees with every slot of `s`, and has no key beyond them, is
/// `keyed(s)`.
proof fn lemma_keyed_is<V>(s: Seq<OrderWrapper<V>>, m: Map<usize, V>)
    requires
        distinct(s),
        forall|j: int|
            0 <= j < s.len() ==> m.contains_key((#[trigger] s[j]).index) && m[s[j].index]
                == s[j].item,
        forall|k: usize| m.contains_key(k) ==> !lacks(s, k),
    ensures
        keyed(s) == m,
{
    assert forall|k: usize| keyed(s).contains_key(k) implies m.contains_key(k) && keyed(s)[k]
        == m[k] by {
        let j = choose|j: int| #[trigger] holds_at(s, j, k);
        assert(holds_at(s, j, k));
        lemma_keyed_entry(s, j);
    }
    assert forall|k: usize| m.contains_key(k) implies keyed(s).contains_key(k) by {
        assert(!lacks(s, k));
    }
    assert(keyed(s) =~= m);
}

/// Appending an entry with a new sequence number adds it to the map.
proof fn lemma_keyed_push<V>(s: Seq<OrderWrapper<V>>, e: OrderWrapper<V>)
    requires
        distinct(s),
        lacks(s, e.index),
    ensures
        distinct(s.push(e)),
        keyed(s.push(e)) == keyed(s).insert(e.index, e.item),
{
    let s2 = s.push(e);
    let m = keyed(s).insert(e.index, e.item);
    assert forall|i: int, j: int| 0 <= i < j < s2.len() implies s2[i].index != s2[j].index by {
        if j == s.len() {
            assert(!holds_at(s, i, e.index));
        } else {
            assert(s[i].index != s[j].index);
        }
    }
    assert forall|j: int| 0 <= j < s2.len() implies m.contains_key((#[trigger] s2[j]).index)
        && m[s2[j].index] == s2[j].item by {
        if j < s.len() {
            lemma_keyed_entry(s, j);
            assert(!holds_at(s, j, e.index));
        }
    }
    assert forall|k: usize| m.contains_key(k) implies !lacks(s2, k) by {
        if k == e.index {
            assert(holds_at(s2, s.len() as int, k));
        } else {
            let j = choose|j: int| #[trigger] holds_at(s, j, k);
            assert(holds_at(s2, j, k));
        }
    }
    lemma_keyed_is(s2, m);
}

/// Exchanging the entry at slot `i` for an entry with a new sequence number
/// exchanges them in the map too.
proof fn lemma_keyed_update<V>(s: Seq<OrderWrapper<V>>, i: int, e: OrderWrapper<V>)
    requires
        distinct(s),
        lacks(s, e.index),
        0 <= i < s.len(),
    ensures
        distinct(s.update(i, e)),
        lacks(s.update(i, e), s[i].index),
        keyed(s.update(i, e)).insert(s[i].index, s[i].item) == keyed(s).insert(e.index, e.item),
{
    let s2 = s.update(i, e);
    let d = s[i];
    let whole = keyed(s).insert(e.index, e.item);
    let m = whole.remove(d.index);
    assert(!holds_at(s, i, e.index));
    assert forall|a: int, b: int| 0 <= a < b < s2.len() implies s2[a].index != s2[b].index by {
        assert(!holds_at(s, a, e.index));
        assert(!holds_at(s, b, e.index));
        assert(s[a].index != s[b].index);
    }
    assert forall|j: int| !#[trigger] holds_at(s2, j, d.index) by {
        if 0 <= j < s.len() && j != i {
            if j < i {
                assert(s[j].index != s[i].index);
            } else {
                assert(s[i].index != s[j].index);
            }
        }
    }
    assert forall|j: int| 0 <= j < s2.len() implies m.contains_key((#[trigger] s2[j]).index)
        && m[s2[j].index] == s2[j].item by {
        if j != i {
            lemma_keyed_entry(s, j);
            assert(!holds_at(s, j, e.index));
            assert(!holds_at(s2, j, d.index));
        }
    }
    assert forall|k: usize| m.contains_key(k) implies !lacks(s2, k) by {
        if k == e.index {
            assert(holds_at(s2, i, k));
        } else {
            let j = choose|j: int| #[trigger] holds_at(s, j, k);
            assert(holds_at(s2, j, k));
        }
    }
    lemma_keyed_is(s2, m);
    lemma_keyed_entry(s, i);
    assert(m.insert(d.index, d.item) =~= whole);
}

/// Dropping the last slot removes its sequence number from the map.
proof fn lemma_keyed_drop_last<V>(s: Seq<OrderWrapper<V>>)
    requires
        distinct(s),
        s.len() > 0,
    ensures
        distinct(s.drop_last()),
        lacks(s.drop_last(), s.last().index),
        keyed(s.drop_last()) == keyed(s).remove(s.last().index),
{
    let s1 = s.drop_last();
    let l = s.last();
    let m = keyed(s).remove(l.index);
    assert forall|a: int, b: int| 0 <= a < b < s1.len() implies s1[a].index != s1[b].index by {
        assert(s[a].index != s[b].index);
    }
    assert forall|j: int| !#[trigger] holds_at(s1, j, l.index) by {
        if 0 <= j < s1.len() {
            assert(s[j].index != s[s.len() - 1].index);
        }
    }
    assert forall|j: int| 0 <= j < s1.len() implies m.contains_key((#[trigger] s1[j]).index)
        && m[s1[j].index] == s1[j].item by {
        lemma_keyed_entry(s, j);
        assert(!holds_at(s1, j, l.index));
    }
    assert forall|k: usize| m.contains_key(k) implies !lacks(s1, k) by {
        let j = choose|j: int| #[trigger] holds_at(s, j, k);
        assert(holds_at(s1, j, k));
    }
    lemma_keyed_is(s1, m);
}

/// With distinct sequence numbers there are as many keys as slots.
proof fn lemma_keyed_len<V>(s: Seq<OrderWrapper<V>>)
    requires
        distinct(s),
    ensures
        keyed(s).dom().finite(),
        keyed(s).len() == s.len(),
    decreases s.len(),
{
    if s.len() == 0 {
        assert(keyed(s) =~= Map::<usize, V>::empty());
    } else {
        let s1 = s.drop_last();
        lemma_keyed_drop_last(s);
        lemma_keyed_len(s1);
        assert(s1.push(s.last()) =~= s);
        lemma_keyed_push(s1, s.last());
    }
}

/// In a heap no entry has a smaller sequence number than the root.
proof fn lemma_root_is_least<V>(s: Seq<OrderWrapper<V>>, j: int)
    requires
        heap_ordered(s),
        0 <= j < s.len(),
    ensures
        s[0].index <= s[j].index,
    decreases j,
{
    if j > 0 {
        assert(ordered_at(s, j));
        lemma_root_is_least(s, (j - 1) / 2);
    }
}

/// Works `entry` into the path from the root to `slot`: every entry on the
/// path that is less than `entry` moves one step down, and the one pushed
/// off `slot` is handed back. If the entry at `slot` is not less than
/// `entry`, nothing moves and `entry` itself comes back.
fn raise<V>(entries: &mut Vec<OrderWrapper<V>>, slot: usize, entry: OrderWrapper<V>) -> (displaced:
    OrderWrapper<V>)
    requires
        heap_ordered(old(entries)@),
        distinct(old(entries)@),
        lacks(old(entries)@, entry.index),
        slot < old(entries)@.len(),
    ensures
        final(entries)@.len() == old(entries)@.len(),
        heap_ordered(final(entries)@),
        distinct(final(entries)@),
        lacks(final(entries)@, displaced.index),
        keyed(final(entries)@).insert(displaced.index, displaced.item) == keyed(
            old(entries)@,
        ).insert(entry.index, entry.item),
        final(entries)@[slot as int].index <= displaced.index,
        displaced == if old(entries)@[slot as int].index <= entry.index {
            entry
        } else {
            old(entries)@[slot as int]
        },
        forall|j: int| slot < j < old(entries)@.len() ==> final(entries)@[j] == old(entries)@[j],
    decreases slot,
{
    if entries[slot] >= entry {
        return entry;
    }
    let ghost before = entries@;
    let mut carry = if slot > 0 {
        raise(entries, (slot - 1) / 2, entry)
    } else {
        entry
    };
    let ghost lifted = entries@;
    let ghost incoming = carry;
    entries.set_and_swap(slot, &mut carry);
    proof {
        lemma_keyed_update(lifted, slot as int, incoming);
        if slot > 0 {
            assert(ordered_at(before, slot as int));
        }
        assert(incoming.index <= before[slot as int].index);
        assert forall|j: int| 0 < j < entries@.len() implies #[trigger] ordered_at(entries@, j) by {
            assert(ordered_at(lifted, j));
            assert(ordered_at(before, j));
        }
    }
    carry
}

/// Puts `entry` in the place of the entry at `slot` and restores the order
/// below it: as long as a child is greater than `entry`, the greater child
/// moves one step up. The entry that was at `slot` is handed back.
fn lower<V>(entries: &mut Vec<OrderWrapper<V>>, slot: usize, entry: OrderWrapper<V>) -> (displaced:
    OrderWrapper<V>)
    requires
        heap_ordered(old(entries)@),
        distinct(old(entries)@),
        lacks(old(entries)@, entry.index),
        slot < old(entries)@.len(),
    ensures
        final(entries)@.len() == old(entries)@.len(),
        displaced == old(entries)@[slot as int],
        distinct(final(entries)@),
        lacks(final(entries)@, displaced.index),
        keyed(final(entries)@).insert(displaced.index, displaced.item) == keyed(
            old(entries)@,
        ).insert(entry.index, entry.item),
        forall|j: int|
            0 < j < old(entries)@.len() && j != slot ==> #[trigger] ordered_at(final(entries)@, j),
        forall|j: int| 0 <= j < slot ==> final(entries)@[j] == old(entries)@[j],
        forall|j: int|
            #![trigger final(entries)@[j]]
            0 <= j < old(entries)@.len() ==> final(entries)@[j] == entry
                || final(entries)@[j].index >= old(entries)@[j].index,
    decreases old(entries)@.len() - slot,
{
    let len = entries.len();
    let ghost before = entries@;
    if slot < len / 2 {
        let left = 2 * slot + 1;
        let right = left + 1;
        let child = if right < len && entries[right] > entries[left] {
            right
        } else {
            left
        };
        assert(ordered_at(before, child as int));
        if entries[child] > entry {
            let mut carry = lower(entries, child, entry);
            let ghost sunk = entries@;
            let ghost incoming = carry;
            entries.set_and_swap(slot, &mut carry);
            proof {
                lemma_keyed_update(sunk, slot as int, incoming);
                assert forall|j: int| 0 < j < len && j != slot implies #[trigger] ordered_at(
                    entries@,
                    j,
                ) by {
                    if (j - 1) / 2 == slot {
                        assert(j == left || j == right);
                        assert(sunk[j] == entry || sunk[j].index >= before[j].index);
                    } else {
                        assert(ordered_at(sunk, j));
                    }
                }
                assert forall|j: int|
                    #![trigger entries@[j]]
                    0 <= j < len implies entries@[j] == entry || entries@[j].index
                    >= before[j].index by {
                    if j != slot {
                        assert(sunk[j] == entry || sunk[j].index >= before[j].index);
                    }
                }
            }
            return carry;
        }
    }
    let mut carry = entry;
    entries.set_and_swap(slot, &mut carry);
    proof {
        lemma_keyed_update(before, slot as int, entry);
        assert forall|j: int| 0 < j < len && j != slot implies #[trigger] ordered_at(
            entries@,
            j,
        ) by {
            assert(ordered_at(before, j));
            if (j - 1) / 2 == slot {
                assert(j == 2 * slot + 1 || j == 2 * slot + 2);
                assert(ordered_at(before, 2 * slot + 1));
            }
        }
    }
    carry
}

/// Completed results waiting for their turn, each under its sequence number.
///
/// The view is the map from sequence number to result. No sequence number is
/// held twice, and the least one is always at hand.
pub struct ReorderBuffer<V> {
    entries: Vec<OrderWrapper<V>>,
}

impl<V> View for ReorderBuffer<V> {
    type V = Map<usize, V>;

    closed spec fn view(&self) -> Map<usize, V> {
        keyed(self.entries@)
    }
}

impl<V> ReorderBuffer<V> {
    /// The entries form a heap, and no sequence number occurs twice.
    #[verifier::type_invariant]
    spec fn well_formed(&self) -> bool {
        heap_ordered(self.entries@) && distinct(self.entries@)
    }

    /// `index` is held, and no smaller sequence number is.
    pub open spec fn min_is(&self, index: usize) -> bool {
        &&& self@.contains_key(index)
        &&& forall|k: usize| self@.contains_key(k) ==> index <= k
    }

    /// An empty buffer.
    pub fn new() -> (buffer: Self)
        ensures
            buffer@ == Map::<usize, V>::empty(),
    {
        let buffer = ReorderBuffer { entries: Vec::new() };
        assert(buffer@ =~= Map::<usize, V>::empty());
        buffer
    }

    /// The number of results held.
    pub fn len(&self) -> (n: usize)
        ensures
            self@.dom().finite(),
            n == self@.len(),
    {
        proof {
            use_type_invariant(self);
            lemma_keyed_len(self.entries@);
        }
        self.entries.len()
    }

    /// Whether nothing is held.
    pub fn is_empty(&self) -> (b: bool)
        ensures
            b <==> self@ == Map::<usize, V>::empty(),
    {
        proof {
            use_type_invariant(self);
            lemma_keyed_len(self.entries@);
            if self.entries@.len() == 0 {
                assert(self@ =~= Map::<usize, V>::empty());
            }
        }
        self.entries.is_empty()
    }

    /// Whether a result is held under `index`.
    pub fn contains(&self, index: usize) -> (b: bool)
        ensures
            b == self@.contains_key(index),
    {
        let mut j: usize = 0;
        while j < self.entries.len()
            invariant
                j <= self.entries@.len(),
                forall|i: int| 0 <= i < j ==> !#[trigger] holds_at(self.entries@, i, index),
            decreases self.entries@.len() - j,
        {
            if self.entries[j].index == index {
                assert(holds_at(self.entries@, j as int, index));
                return true;
            }
            j = j + 1;
        }
        proof {
            if self@.contains_key(index) {
                let i = choose|i: int| #[trigger] holds_at(self.entries@, i, index);
                assert(holds_at(self.entries@, i, index));
            }
        }
        false
    }

    /// Takes `value` in under the sequence number `index`.
    pub fn insert(&mut self, index: usize, value: V)
        requires
            !old(self)@.contains_key(index),
        ensures
            final(self)@ == old(self)@.insert(index, value),
    {
        proof {
            use_type_invariant(&*self);
        }
        let mut entries = Vec::new();
        core::mem::swap(&mut entries, &mut self.entries);
        let entry = OrderWrapper { item: value, index };
        let len = entries.len();
        let last = if len > 0 {
            raise(&mut entries, (len - 1) / 2, entry)
        } else {
            entry
        };
        proof {
            lemma_keyed_push(entries@, last);
            assert forall|j: int| 0 < j < entries@.len() + 1 implies #[trigger] ordered_at(
                entries@.push(last),
                j,
            ) by {
                if j < len {
                    assert(ordered_at(entries@, j));
                }
            }
        }
        entries.push(last);
        self.entries = entries;
    }

    /// If the least sequence number held is `expected`, takes its result out
    /// and returns it; otherwise returns nothing and changes nothing.
    pub fn peek_min_if_matches(&mut self, expected: usize) -> (released: Option<V>)
        ensures
            old(self).min_is(expected) ==> released == Some(old(self)@[expected]) && final(self)@
                == old(self)@.remove(expected),
            !old(self).min_is(expected) ==> released is None && final(self)@ == old(self)@,
    {
        proof {
            use_type_invariant(&*self);
        }
        let ghost before = self.entries@;
        if self.entries.len() == 0 || self.entries[0].index != expected {
            proof {
                if self.min_is(expected) {
                    let j = choose|j: int| #[trigger] holds_at(before, j, expected);
                    assert(holds_at(before, j, expected));
                    lemma_root_is_least(before, j);
                    lemma_keyed_entry(before, 0);
                }
            }
            return None;
        }
        proof {
            lemma_keyed_entry(before, 0);
            assert forall|k: usize| self@.contains_key(k) implies expected <= k by {
                let j = choose|j: int| #[trigger] holds_at(before, j, k);
                assert(holds_at(before, j, k));
                lemma_root_is_least(before, j);
            }
            lemma_keyed_drop_last(before);
            lemma_keyed_entry(before, before.len() - 1);
        }
        let mut entries = Vec::new();
        core::mem::swap(&mut entries, &mut self.entries);
        let last = entries.pop().unwrap();
        proof {
            assert(entries@ =~= before.drop_last());
            assert forall|j: int| 0 < j < entries@.len() implies #[trigger] ordered_at(
                entries@,
                j,
            ) by {
                assert(ordered_at(before, j));
            }
            assert(keyed(entries@).insert(last.index, last.item) =~= keyed(before));
        }
        let least = if entries.len() > 0 {
            lower(&mut entries, 0, last)
        } else {
            last
        };
        proof {
            assert(!holds_at(entries@, 0, least.index));
            assert(!keyed(entries@).contains_key(least.index)) by {
                if keyed(entries@).contains_key(least.index) {
                    let j = choose|j: int| #[trigger] holds_at(entries@, j, least.index);
                    assert(holds_at(entries@, j, least.index));
                }
            }
            assert(keyed(entries@) =~= keyed(before).remove(expected));
        }
        self.entries = entries;
        Some(least.item)
    }
}

} // verus!
