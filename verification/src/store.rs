//! The key-value map, with entries that end.
//!
//! The map is a hash table. Its keys are strings of bytes, and what the
//! standard hash map does with such keys has no contract to build on; what it
//! does with numbers has. So the table is a standard hash map from the digest
//! of a key to the bucket of the keys that share that digest.

use vstd::prelude::*;
use vstd::std_specs::hash::DefaultHasherAdditionalSpecFns;
use bytes::Bytes;
use std::collections::hash_map::DefaultHasher;
use std::collections::HashMap;
use std::hash::Hasher;
use crate::text::same_bytes;

verus! {

/// `bytes::Bytes`, a buffer of bytes that is never changed once it is made.
/// What it holds is spoken of through `contents`.
#[verifier::external_type_specification]
#[verifier::external_body]
pub struct ExBytes(Bytes);

/// The bytes that a `Bytes` holds, in their order.
pub uninterp spec fn contents(b: Bytes) -> Seq<u8>;

/// `Bytes::from` for a `Vec<u8>`: the buffer takes the vector over and holds
/// the bytes that the vector held, in their order.
#[verifier::external_body]
fn bytes_from(v: Vec<u8>) -> (out: Bytes)
    ensures
        contents(out) == v@,
{
    Bytes::from(v)
}

/// `Deref::deref` of `Bytes`, and `to_vec` on the slice it gives: a new
/// vector with the bytes that the buffer holds, in their order.
#[verifier::external_body]
fn bytes_to_vec(b: &Bytes) -> (out: Vec<u8>)
    ensures
        out@ == contents(*b),
{
    b.to_vec()
}

/// What is kept under a key.
struct DbData {
    data: Bytes,
    expire: Option<u64>,
}

/// A key with what is kept under it.
struct Slot {
    key: Vec<u8>,
    entry: DbData,
}

/// An entry as contracts speak of it: its bytes, and the last millisecond at
/// which it can be read, if there is one.
pub struct Entry {
    pub data: Seq<u8>,
    pub expire: Option<u64>,
}

/// The entry that a slot holds.
spec fn entry_of(slot: Slot) -> Entry {
    Entry { data: contents(slot.entry.data), expire: slot.entry.expire }
}

/// Whether slot `i` of `slots` holds `key`.
spec fn holds(slots: Seq<Slot>, key: Seq<u8>, i: int) -> bool {
    0 <= i < slots.len() && slots[i].key@ == key
}

/// Whether no two of `slots` hold the same key.
spec fn distinct(slots: Seq<Slot>) -> bool {
    forall|i: int, j: int| 0 <= i < j < slots.len() ==> slots[i].key@ != slots[j].key@
}

/// The map that `slots` stand for.
spec fn map_of(slots: Seq<Slot>) -> Map<Seq<u8>, Entry> {
    Map::new(
        |key: Seq<u8>| exists|i: int| holds(slots, key, i),
        |key: Seq<u8>| entry_of(slots[choose|i: int| holds(slots, key, i)]),
    )
}

/// Each slot is found in the map under its key.
proof fn lemma_map_of(slots: Seq<Slot>, i: int)
    requires
        distinct(slots),
        0 <= i < slots.len(),
    ensures
        map_of(slots).dom().contains(slots[i].key@),
        map_of(slots)[slots[i].key@] == entry_of(slots[i]),
{
    let key = slots[i].key@;
    assert(holds(slots, key, i));
    let j = choose|j: int| holds(slots, key, j);
    assert(j == i);
}

/// The map after one slot was given another entry under the same key.
proof fn lemma_map_update(slots: Seq<Slot>, i: int, slot: Slot)
    requires
        distinct(slots),
        0 <= i < slots.len(),
        slot.key@ == slots[i].key@,
    ensures
        distinct(slots.update(i, slot)),
        map_of(slots.update(i, slot)) == map_of(slots).insert(slot.key@, entry_of(slot)),
{
    let after = slots.update(i, slot);
    assert forall|key: Seq<u8>| #[trigger]
        map_of(after).dom().contains(key) == map_of(slots).insert(
            slot.key@,
            entry_of(slot),
        ).dom().contains(key) by {
        if map_of(after).dom().contains(key) {
            let j = choose|j: int| holds(after, key, j);
            assert(holds(slots, key, j));
        }
        if map_of(slots).dom().contains(key) {
            let j = choose|j: int| holds(slots, key, j);
            assert(holds(after, key, j));
        }
        if key == slot.key@ {
            assert(holds(after, key, i));
        }
    }
    assert forall|key: Seq<u8>| #[trigger] map_of(after).dom().contains(key) implies map_of(
        after,
    )[key] == map_of(slots).insert(slot.key@, entry_of(slot))[key] by {
        let j = choose|j: int| holds(after, key, j);
        lemma_map_of(after, j);
        if j != i {
            lemma_map_of(slots, j);
        }
    }
    assert(map_of(after) =~= map_of(slots).insert(slot.key@, entry_of(slot)));
}

/// The map after a slot with a new key was added.
proof fn lemma_map_push(slots: Seq<Slot>, slot: Slot)
    requires
        distinct(slots),
        forall|i: int| !holds(slots, slot.key@, i),
    ensures
        distinct(slots.push(slot)),
        map_of(slots.push(slot)) == map_of(slots).insert(slot.key@, entry_of(slot)),
{
    let after = slots.push(slot);
    let last = slots.len() as int;
    assert forall|i: int, j: int| 0 <= i < j < after.len() implies after[i].key@
        != after[j].key@ by {
        if j == last {
            assert(!holds(slots, slot.key@, i));
        }
    }
    assert forall|key: Seq<u8>| #[trigger]
        map_of(after).dom().contains(key) == map_of(slots).insert(
            slot.key@,
            entry_of(slot),
        ).dom().contains(key) by {
        if map_of(after).dom().contains(key) {
            let j = choose|j: int| holds(after, key, j);
            if j != last {
                assert(holds(slots, key, j));
            }
        }
        if map_of(slots).dom().contains(key) {
            let j = choose|j: int| holds(slots, key, j);
            assert(holds(after, key, j));
        }
        if key == slot.key@ {
            assert(holds(after, key, last));
        }
    }
    assert forall|key: Seq<u8>| #[trigger] map_of(after).dom().contains(key) implies map_of(
        after,
    )[key] == map_of(slots).insert(slot.key@, entry_of(slot))[key] by {
        let j = choose|j: int| holds(after, key, j);
        lemma_map_of(after, j);
        if j != last {
            lemma_map_of(slots, j);
        }
    }
    assert(map_of(after) =~= map_of(slots).insert(slot.key@, entry_of(slot)));
}

/// The map after one slot was taken out and the last slot was put in its
/// place.
proof fn lemma_map_swap_remove(slots: Seq<Slot>, i: int)
    requires
        distinct(slots),
        0 <= i < slots.len(),
    ensures
        distinct(slots.update(i, slots.last()).drop_last()),
        map_of(slots.update(i, slots.last()).drop_last()) == map_of(slots).remove(slots[i].key@),
{
    let after = slots.update(i, slots.last()).drop_last();
    let last = slots.len() - 1;
    let gone = slots[i].key@;
    assert forall|k: int| 0 <= k < after.len() implies #[trigger] after[k] == (if k == i {
        slots[last]
    } else {
        slots[k]
    }) by {}
    assert forall|key: Seq<u8>| #[trigger]
        map_of(after).dom().contains(key) == map_of(slots).remove(gone).dom().contains(key) by {
        if map_of(after).dom().contains(key) {
            let j = choose|j: int| holds(after, key, j);
            if j == i {
                assert(holds(slots, key, last));
            } else {
                assert(holds(slots, key, j));
            }
        }
        if map_of(slots).dom().contains(key) && key != gone {
            let j = choose|j: int| holds(slots, key, j);
            if j == last {
                assert(holds(after, key, i));
            } else {
                assert(holds(after, key, j));
            }
        }
    }
    assert forall|key: Seq<u8>| #[trigger] map_of(after).dom().contains(key) implies map_of(
        after,
    )[key] == map_of(slots).remove(gone)[key] by {
        let j = choose|j: int| holds(after, key, j);
        lemma_map_of(after, j);
        if j == i {
            lemma_map_of(slots, last);
        } else {
            lemma_map_of(slots, j);
        }
    }
    assert(map_of(after) =~= map_of(slots).remove(gone));
}

/// The index of the slot that holds `key`.
fn position(slots: &Vec<Slot>, key: &[u8]) -> (out: Option<usize>)
    ensures
        match out {
            Some(i) => holds(slots@, key@, i as int),
            None => forall|i: int| !holds(slots@, key@, i),
        },
{
    let mut i: usize = 0;
    while i < slots.len()
        invariant
            i <= slots.len(),
            forall|j: int| 0 <= j < i ==> !holds(slots@, key@, j),
        decreases slots.len() - i,
    {
        if same_bytes(slots[i].key.as_slice(), key) {
            return Some(i);
        }
        i += 1;
    }
    None
}

/// The digest of a key: what the standard hasher makes of its bytes.
spec fn digest(key: Seq<u8>) -> u64 {
    DefaultHasher::spec_finish(seq![key])
}

/// Computes the digest of a key.
fn digest_of(key: &[u8]) -> (out: u64)
    ensures
        out == digest(key@),
{
    let mut hasher = DefaultHasher::new();
    hasher.write(key);
    assert(hasher@ =~= seq![key@]);
    hasher.finish()
}

/// The slots kept under the digest `h`: those of its bucket, or none.
spec fn slots_at(buckets: Map<u64, Vec<Slot>>, h: u64) -> Seq<Slot> {
    if buckets.contains_key(h) {
        buckets[h]@
    } else {
        Seq::empty()
    }
}

/// Whether every bucket holds keys of its own digest only, and none of them
/// twice.
spec fn well_formed(buckets: Map<u64, Vec<Slot>>) -> bool {
    forall|h: u64| #[trigger]
        buckets.contains_key(h) ==> distinct(buckets[h]@) && forall|i: int|
            0 <= i < buckets[h]@.len() ==> digest(#[trigger] buckets[h]@[i].key@) == h
}

/// The map that `buckets` stand for: a key is looked for in the bucket of
/// its digest.
spec fn whole_map(buckets: Map<u64, Vec<Slot>>) -> Map<Seq<u8>, Entry> {
    Map::new(
        |key: Seq<u8>| map_of(slots_at(buckets, digest(key))).dom().contains(key),
        |key: Seq<u8>| map_of(slots_at(buckets, digest(key)))[key],
    )
}

/// Whether `after` keeps under every digest but `h` what `before` kept.
spec fn same_but(before: Map<u64, Vec<Slot>>, after: Map<u64, Vec<Slot>>, h: u64) -> bool {
    forall|g: u64| g != h ==> #[trigger] slots_at(after, g) == slots_at(before, g)
}

/// The map after one bucket was changed so as to hold `entry` under `key`.
proof fn lemma_written(
    before: Map<u64, Vec<Slot>>,
    after: Map<u64, Vec<Slot>>,
    key: Seq<u8>,
    entry: Entry,
)
    requires
        same_but(before, after, digest(key)),
        map_of(slots_at(after, digest(key))) == map_of(slots_at(before, digest(key))).insert(
            key,
            entry,
        ),
    ensures
        whole_map(after) == whole_map(before).insert(key, entry),
{
    let h = digest(key);
    assert forall|q: Seq<u8>| #[trigger]
        whole_map(after).dom().contains(q) == whole_map(before).insert(
            key,
            entry,
        ).dom().contains(q) by {
        if digest(q) != h {
            assert(slots_at(after, digest(q)) == slots_at(before, digest(q)));
        }
    }
    assert forall|q: Seq<u8>| #[trigger] whole_map(after).dom().contains(q) implies whole_map(
        after,
    )[q] == whole_map(before).insert(key, entry)[q] by {
        if digest(q) != h {
            assert(slots_at(after, digest(q)) == slots_at(before, digest(q)));
        }
    }
    assert(whole_map(after) =~= whole_map(before).insert(key, entry));
}

/// The map after one bucket was changed so as to hold nothing under `key`.
proof fn lemma_taken_out(before: Map<u64, Vec<Slot>>, after: Map<u64, Vec<Slot>>, key: Seq<u8>)
    requires
        same_but(before, after, digest(key)),
        map_of(slots_at(after, digest(key))) == map_of(slots_at(before, digest(key))).remove(key),
    ensures
        whole_map(after) == whole_map(before).remove(key),
{
    let h = digest(key);
    assert forall|q: Seq<u8>| #[trigger]
        whole_map(after).dom().contains(q) == whole_map(before).remove(key).dom().contains(
            q,
        ) by {
        if digest(q) != h {
            assert(slots_at(after, digest(q)) == slots_at(before, digest(q)));
        }
    }
    assert forall|q: Seq<u8>| #[trigger] whole_map(after).dom().contains(q) implies whole_map(
        after,
    )[q] == whole_map(before).remove(key)[q] by {
        if digest(q) != h {
            assert(slots_at(after, digest(q)) == slots_at(before, digest(q)));
        }
    }
    assert(whole_map(after) =~= whole_map(before).remove(key));
}

/// The last millisecond at which an entry can be read that was written at
/// `now` to end after `expire` milliseconds, if it ends at all. Where the
/// sum does not fit in 64 bits it is the largest number that does: no clock
/// of 64 bits gets past it.
pub open spec fn deadline(now: u64, expire: Option<u64>) -> Option<u64> {
    match expire {
        None => None,
        Some(ms) => if now + ms > u64::MAX {
            Some(u64::MAX)
        } else {
            Some((now + ms) as u64)
        },
    }
}

/// Whether `entry` has ended at `now`: it ends, and `now` is past its last
/// millisecond.
pub open spec fn expired(entry: Entry, now: u64) -> bool {
    entry.expire is Some && now > entry.expire->0
}

/// What reading `key` at `now` returns: the bytes under it, where there is
/// an entry that has not ended.
pub open spec fn read(m: Map<Seq<u8>, Entry>, key: Seq<u8>, now: u64) -> Option<Seq<u8>> {
    if m.dom().contains(key) && !expired(m[key], now) {
        Some(m[key].data)
    } else {
        None
    }
}

/// What reading `key` at `now` leaves of the map: an entry that has ended
/// is taken out on the way.
pub open spec fn swept(m: Map<Seq<u8>, Entry>, key: Seq<u8>, now: u64) -> Map<Seq<u8>, Entry> {
    if m.dom().contains(key) && expired(m[key], now) {
        m.remove(key)
    } else {
        m
    }
}

/// The map from keys to entries. No key occurs twice in it.
pub struct Store {
    buckets: HashMap<u64, Vec<Slot>>,
}

impl View for Store {
    type V = Map<Seq<u8>, Entry>;

    closed spec fn view(&self) -> Map<Seq<u8>, Entry> {
        whole_map(self.buckets@)
    }
}

impl Store {
    /// Every bucket holds keys of its own digest only, and none of them
    /// twice.
    #[verifier::type_invariant]
    spec fn buckets_well_formed(self) -> bool {
        well_formed(self.buckets@)
    }

    /// A map with no entry.
    pub fn new() -> (out: Store)
        ensures
            out@ == Map::<Seq<u8>, Entry>::empty(),
    {
        let out = Store { buckets: HashMap::new() };
        assert(out@ =~= Map::<Seq<u8>, Entry>::empty());
        out
    }

    /// Writes `value` under `key` at the time `now`, to end `expire`
    /// milliseconds later if `expire` is given. What was under `key` before
    /// is gone.
    pub fn set(&mut self, key: Vec<u8>, value: Vec<u8>, expire: Option<u64>, now: u64)
        ensures
            final(self)@ == old(self)@.insert(
                key@,
                Entry { data: value@, expire: deadline(now, expire) },
            ),
    {
        proof {
            use_type_invariant(&*self);
        }
        let until = match expire {
            Some(ms) => Some(now.saturating_add(ms)),
            None => None,
        };
        let h = digest_of(key.as_slice());
        let mut buckets: HashMap<u64, Vec<Slot>> = HashMap::new();
        std::mem::swap(&mut buckets, &mut self.buckets);
        let ghost before = buckets@;
        let mut slots = match buckets.remove(&h) {
            Some(slots) => slots,
            None => Vec::new(),
        };
        assert(slots@ == slots_at(before, h));
        let found = position(&slots, key.as_slice());
        let slot = Slot { key: key, entry: DbData { data: bytes_from(value), expire: until } };
        match found {
            Some(i) => {
                proof {
                    lemma_map_update(slots@, i as int, slot);
                }
                slots.set(i, slot);
            },
            None => {
                proof {
                    lemma_map_push(slots@, slot);
                }
                slots.push(slot);
            },
        }
        buckets.insert(h, slots);
        proof {
            let after = buckets@;
            assert forall|g: u64| g != h implies #[trigger] slots_at(after, g) == slots_at(
                before,
                g,
            ) by {}
            lemma_written(before, after, slot.key@, entry_of(slot));
        }
        self.buckets = buckets;
    }

    /// Reads what is under `key` at the time `now`. An entry that has ended
    /// is not returned, and is taken out of the map.
    pub fn get(&mut self, key: &[u8], now: u64) -> (out: Option<Vec<u8>>)
        ensures
            match out {
                Some(data) => read(old(self)@, key@, now) == Some(data@),
                None => read(old(self)@, key@, now) is None,
            },
            final(self)@ == swept(old(self)@, key@, now),
    {
        proof {
            use_type_invariant(&*self);
        }
        let h = digest_of(key);
        let ended_at = match self.buckets.get(&h) {
            None => {
                return None;
            },
            Some(slots) => match position(slots, key) {
                None => {
                    return None;
                },
                Some(i) => {
                    proof {
                        lemma_map_of(slots@, i as int);
                    }
                    let ended = match slots[i].entry.expire {
                        Some(until) => now > until,
                        None => false,
                    };
                    if !ended {
                        return Some(bytes_to_vec(&slots[i].entry.data));
                    }
                    i
                },
            },
        };
        let mut buckets: HashMap<u64, Vec<Slot>> = HashMap::new();
        std::mem::swap(&mut buckets, &mut self.buckets);
        let ghost before = buckets@;
        let mut slots = match buckets.remove(&h) {
            Some(slots) => slots,
            None => Vec::new(),
        };
        assert(slots@ == slots_at(before, h));
        assert(holds(slots@, key@, ended_at as int));
        proof {
            lemma_map_swap_remove(slots@, ended_at as int);
        }
        slots.swap_remove(ended_at);
        if slots.len() > 0 {
            buckets.insert(h, slots);
        } else {
            assert(slots@ =~= Seq::<Slot>::empty());
        }
        proof {
            let after = buckets@;
            assert(slots_at(after, h) == slots@);
            assert forall|g: u64| g != h implies #[trigger] slots_at(after, g) == slots_at(
                before,
                g,
            ) by {}
            lemma_taken_out(before, after, key@);
        }
        self.buckets = buckets;
        None
    }
}

} // verus!
