//! The in-memory index: for each live key, where its latest record stands.
//!
//! The index keeps its keys in the order in which they were first bound:
//! binding a key again keeps its place, and a key that was removed and is
//! bound anew goes to the end.

use vstd::prelude::*;
use vstd::string::*;

verus! {

/// Where a record stands: the generation, the offset of its first byte in
/// that generation, and its length in bytes.
#[derive(Debug, Clone, Copy, PartialEq, Eq, Structural)]
pub struct Location {
    pub generation: u64,
    pub offset: u64,
    pub length: u64,
}

/// A key of the index with the location of its record.
#[derive(Debug, Clone)]
pub struct IndexEntry {
    pub key: String,
    pub location: Location,
}

/// An entry of the index as a mathematical value.
pub struct Slot {
    pub key: Seq<char>,
    pub location: Location,
}

impl View for IndexEntry {
    type V = Slot;

    open spec fn view(&self) -> Slot {
        Slot { key: self.key@, location: self.location }
    }
}

/// Whether some slot holds `key`.
pub open spec fn has_key(slots: Seq<Slot>, key: Seq<char>) -> bool {
    exists|i: int| 0 <= i < slots.len() && #[trigger] slots[i].key == key
}

/// The position of a slot that holds `key`, where there is one.
pub open spec fn position(slots: Seq<Slot>, key: Seq<char>) -> int {
    choose|i: int| 0 <= i < slots.len() && #[trigger] slots[i].key == key
}

/// Whether no key occurs in two slots.
pub open spec fn distinct_keys(slots: Seq<Slot>) -> bool {
    forall|i: int, j: int|
        0 <= i < j < slots.len() ==> #[trigger] slots[i].key != #[trigger] slots[j].key
}

/// The location that `key` is bound to.
pub open spec fn find(slots: Seq<Slot>, key: Seq<char>) -> Option<Location> {
    if has_key(slots, key) {
        Some(slots[position(slots, key)].location)
    } else {
        None
    }
}

/// The slots with `key` bound to `location`: in its old place where it was
/// bound before, at the end where it was not.
pub open spec fn upsert(slots: Seq<Slot>, key: Seq<char>, location: Location) -> Seq<Slot> {
    if has_key(slots, key) {
        slots.update(position(slots, key), Slot { key, location })
    } else {
        slots.push(Slot { key, location })
    }
}

/// The slots without the binding of `key`.
pub open spec fn delete(slots: Seq<Slot>, key: Seq<char>) -> Seq<Slot> {
    if has_key(slots, key) {
        slots.remove(position(slots, key))
    } else {
        slots
    }
}

/// The bytes of the records that the slots point at.
pub open spec fn live_bytes(slots: Seq<Slot>) -> nat
    decreases slots.len(),
{
    if slots.len() == 0 {
        0
    } else {
        live_bytes(slots.drop_last()) + slots.last().location.length as nat
    }
}

/// The length of the record that `key` is bound to, or 0 where it is unbound.
pub open spec fn credit(slots: Seq<Slot>, key: Seq<char>) -> nat {
    match find(slots, key) {
        Some(location) => location.length as nat,
        None => 0,
    }
}

/// Putting another slot at a position changes the live bytes by the
/// difference of the two lengths.
pub proof fn lemma_live_update(slots: Seq<Slot>, i: int, slot: Slot)
    requires
        0 <= i < slots.len(),
    ensures
        live_bytes(slots.update(i, slot)) + slots[i].location.length == live_bytes(slots)
            + slot.location.length,
    decreases slots.len(),
{
    let after = slots.update(i, slot);
    if i == slots.len() - 1 {
        assert(after.drop_last() =~= slots.drop_last());
    } else {
        lemma_live_update(slots.drop_last(), i, slot);
        assert(after.drop_last() =~= slots.drop_last().update(i, slot));
    }
}

/// Taking a slot out takes its length from the live bytes.
pub proof fn lemma_live_remove(slots: Seq<Slot>, i: int)
    requires
        0 <= i < slots.len(),
    ensures
        live_bytes(slots.remove(i)) + slots[i].location.length == live_bytes(slots),
    decreases slots.len(),
{
    let after = slots.remove(i);
    if i == slots.len() - 1 {
        assert(after =~= slots.drop_last());
    } else {
        lemma_live_remove(slots.drop_last(), i);
        assert(after.drop_last() =~= slots.drop_last().remove(i));
    }
}

/// With distinct keys, the slot that holds a key is the only one.
pub proof fn lemma_position_unique(slots: Seq<Slot>, key: Seq<char>, i: int)
    requires
        distinct_keys(slots),
        0 <= i < slots.len(),
        slots[i].key == key,
    ensures
        has_key(slots, key),
        position(slots, key) == i,
{
    let p = position(slots, key);
    if p < i {
        assert(slots[p].key != slots[i].key);
    } else if i < p {
        assert(slots[i].key != slots[p].key);
    }
}

/// Binding a key keeps the keys distinct, binds that key, and leaves the
/// other keys as they were.
pub proof fn lemma_upsert(slots: Seq<Slot>, key: Seq<char>, location: Location)
    requires
        distinct_keys(slots),
    ensures
        distinct_keys(upsert(slots, key, location)),
        find(upsert(slots, key, location), key) == Some(location),
        forall|other: Seq<char>|
            other != key ==> #[trigger] find(upsert(slots, key, location), other) == find(
                slots,
                other,
            ),
        forall|other: Seq<char>|
            #[trigger] has_key(upsert(slots, key, location), other) <==> (other == key || has_key(
                slots,
                other,
            )),
        forall|slot: Slot| #[trigger]
            upsert(slots, key, location).contains(slot) ==> slot == (Slot { key, location }) || (
            slots.contains(slot) && slot.key != key),
        live_bytes(upsert(slots, key, location)) + credit(slots, key) == live_bytes(slots)
            + location.length,
{
    let after = upsert(slots, key, location);
    let at: int = if has_key(slots, key) {
        position(slots, key)
    } else {
        slots.len() as int
    };
    assert(after.len() > at && after[at].key == key && after[at].location == location);
    assert forall|i: int| 0 <= i < after.len() && i != at implies after[i] == slots[i]
        && slots[i].key != key by {
        if has_key(slots, key) {
            lemma_position_unique(slots, key, at);
            if slots[i].key == key {
                lemma_position_unique(slots, key, i);
            }
        }
    }
    assert(distinct_keys(after)) by {
        assert forall|i: int, j: int| 0 <= i < j < after.len() implies after[i].key
            != after[j].key by {
            if i != at && j != at {
                assert(slots[i].key != slots[j].key);
            }
        }
    }
    lemma_position_unique(after, key, at);
    assert forall|other: Seq<char>| other != key implies #[trigger] find(after, other) == find(
        slots,
        other,
    ) by {
        if has_key(slots, other) {
            let p = position(slots, other);
            assert(after[p] == slots[p]);
            lemma_position_unique(after, other, p);
        } else if has_key(after, other) {
            let p = position(after, other);
            assert(slots[p].key == other);
        }
    }
    assert forall|other: Seq<char>| #[trigger]
        has_key(after, other) <==> (other == key || has_key(slots, other)) by {
        if other != key {
            assert(find(after, other) == find(slots, other));
        }
    }
    assert forall|slot: Slot| #[trigger] after.contains(slot) implies slot == (Slot {
        key,
        location,
    }) || (slots.contains(slot) && slot.key != key) by {
        let i = choose|i: int| 0 <= i < after.len() && after[i] == slot;
        if i != at {
            assert(slots[i] == slot);
        }
    }
    if has_key(slots, key) {
        lemma_live_update(slots, at, Slot { key, location });
    } else {
        assert(after.drop_last() =~= slots);
    }
}

/// Dropping a key keeps the keys distinct, unbinds that key, and leaves the
/// other keys as they were.
pub proof fn lemma_delete(slots: Seq<Slot>, key: Seq<char>)
    requires
        distinct_keys(slots),
    ensures
        distinct_keys(delete(slots, key)),
        !has_key(delete(slots, key), key),
        forall|other: Seq<char>|
            other != key ==> #[trigger] find(delete(slots, key), other) == find(slots, other),
        forall|other: Seq<char>|
            #[trigger] has_key(delete(slots, key), other) <==> (other != key && has_key(
                slots,
                other,
            )),
        forall|slot: Slot| #[trigger]
            delete(slots, key).contains(slot) ==> slots.contains(slot) && slot.key != key,
        live_bytes(delete(slots, key)) + credit(slots, key) == live_bytes(slots),
{
    let after = delete(slots, key);
    if has_key(slots, key) {
        let at = position(slots, key);
        lemma_live_remove(slots, at);
        assert forall|i: int| 0 <= i < after.len() implies after[i] == slots[if i < at {
            i
        } else {
            i + 1
        }] by {}
        assert(distinct_keys(after)) by {
            assert forall|i: int, j: int| 0 <= i < j < after.len() implies after[i].key
                != after[j].key by {
                let si: int = if i < at {
                    i
                } else {
                    i + 1
                };
                let sj: int = if j < at {
                    j
                } else {
                    j + 1
                };
                assert(slots[si].key != slots[sj].key);
            }
        }
        assert(!has_key(after, key)) by {
            if has_key(after, key) {
                let p = position(after, key);
                let sp: int = if p < at {
                    p
                } else {
                    p + 1
                };
                lemma_position_unique(slots, key, sp);
            }
        }
        assert forall|other: Seq<char>| other != key implies #[trigger] find(after, other)
            == find(slots, other) by {
            if has_key(slots, other) {
                let p = position(slots, other);
                let ap: int = if p < at {
                    p
                } else {
                    p - 1
                };
                assert(after[ap] == slots[p]);
                lemma_position_unique(after, other, ap);
            } else if has_key(after, other) {
                let p = position(after, other);
                let sp: int = if p < at {
                    p
                } else {
                    p + 1
                };
                assert(slots[sp].key == other);
            }
        }
        assert forall|other: Seq<char>| #[trigger]
            has_key(after, other) <==> (other != key && has_key(slots, other)) by {
            if other != key {
                assert(find(after, other) == find(slots, other));
            }
        }
        assert forall|slot: Slot| #[trigger] after.contains(slot) implies slots.contains(slot)
            && slot.key != key by {
            let i = choose|i: int| 0 <= i < after.len() && after[i] == slot;
            let si: int = if i < at {
                i
            } else {
                i + 1
            };
            assert(slots[si] == slot);
            if slot.key == key {
                lemma_position_unique(slots, key, si);
            }
        }
    } else {
        assert forall|slot: Slot| #[trigger] after.contains(slot) implies slot.key != key by {
            let i = choose|i: int| 0 <= i < after.len() && after[i] == slot;
            assert(slots[i].key == slot.key);
        }
    }
}

/// The index of the store.
#[derive(Debug, Clone)]
pub struct Index {
    entries: Vec<IndexEntry>,
}

impl View for Index {
    type V = Seq<Slot>;

    closed spec fn view(&self) -> Seq<Slot> {
        Seq::new(self.entries@.len(), |i: int| self.entries@[i]@)
    }
}

impl Index {
    /// Whether the index is well formed: no key occurs twice.
    pub open spec fn wf(&self) -> bool {
        distinct_keys(self@)
    }

    /// An index without keys.
    pub fn new() -> (index: Index)
        ensures
            index@ == Seq::<Slot>::empty(),
            index.wf(),
    {
        let index = Index { entries: Vec::new() };
        assert(index@ =~= Seq::<Slot>::empty());
        index
    }

    /// The number of keys.
    pub fn len(&self) -> (n: usize)
        ensures
            n == self@.len(),
    {
        self.entries.len()
    }

    /// The entry at position `i`.
    pub fn entry(&self, i: usize) -> (entry: &IndexEntry)
        requires
            i < self@.len(),
        ensures
            entry@ == self@[i as int],
    {
        &self.entries[i]
    }

    /// The position of `key` among the entries.
    fn search(&self, key: &String) -> (r: Option<usize>)
        requires
            self.wf(),
        ensures
            r is Some <==> has_key(self@, key@),
            r matches Some(i) ==> i == position(self@, key@),
    {
        let mut i: usize = 0;
        while i < self.entries.len()
            invariant
                i <= self.entries.len(),
                self.wf(),
                forall|j: int| 0 <= j < i ==> (#[trigger] self@[j]).key != key@,
            decreases self.entries.len() - i,
        {
            if self.entries[i].key == *key {
                proof {
                    lemma_position_unique(self@, key@, i as int);
                }
                return Some(i);
            }
            i += 1;
        }
        None
    }

    /// The location that `key` is bound to.
    pub fn lookup(&self, key: &String) -> (r: Option<Location>)
        requires
            self.wf(),
        ensures
            r == find(self@, key@),
    {
        match self.search(key) {
            Some(i) => Some(self.entries[i].location),
            None => None,
        }
    }

    /// Binds `key` to `location` and returns the location it was bound to
    /// before.
    pub fn insert(&mut self, key: String, location: Location) -> (r: Option<Location>)
        requires
            old(self).wf(),
        ensures
            final(self)@ == upsert(old(self)@, key@, location),
            final(self).wf(),
            r == find(old(self)@, key@),
    {
        proof {
            lemma_upsert(self@, key@, location);
        }
        match self.search(&key) {
            Some(i) => {
                let before = self.entries[i].location;
                self.entries.set(i, IndexEntry { key, location });
                assert(self@ =~= upsert(old(self)@, key@, location));
                Some(before)
            },
            None => {
                self.entries.push(IndexEntry { key, location });
                assert(self@ =~= upsert(old(self)@, key@, location));
                None
            },
        }
    }

    /// Moves the entry at position `i` to `location`.
    pub fn relocate(&mut self, i: usize, location: Location)
        requires
            old(self).wf(),
            i < old(self)@.len(),
        ensures
            final(self)@ == old(self)@.update(
                i as int,
                Slot { key: old(self)@[i as int].key, location },
            ),
            final(self).wf(),
    {
        let key = self.entries[i].key.clone();
        self.entries.set(i, IndexEntry { key, location });
        assert(self@ =~= old(self)@.update(
            i as int,
            Slot { key: old(self)@[i as int].key, location },
        ));
        assert forall|a: int, b: int| 0 <= a < b < self@.len() implies #[trigger] self@[a].key
            != #[trigger] self@[b].key by {
            assert(old(self)@[a].key != old(self)@[b].key);
        }
    }

    /// Drops the binding of `key` and returns the location it was bound to.
    pub fn remove(&mut self, key: &String) -> (r: Option<Location>)
        requires
            old(self).wf(),
        ensures
            final(self)@ == delete(old(self)@, key@),
            final(self).wf(),
            r == find(old(self)@, key@),
    {
        proof {
            lemma_delete(self@, key@);
        }
        match self.search(key) {
            Some(i) => {
                let entry = self.entries.remove(i);
                assert(self@ =~= delete(old(self)@, key@));
                Some(entry.location)
            },
            None => None,
        }
    }
}

} // verus!
