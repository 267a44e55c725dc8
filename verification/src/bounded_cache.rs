//! A cache of bounded size that lets go of the entry used longest ago.

use crate::region::PixelRegion;
use fnv::{FnvHashMap, FnvHasher};
use std::hash::BuildHasherDefault;
use std::marker::PhantomData;
use vstd::prelude::*;

verus! {

/// The hasher of the `fnv` crate, carried inside the maps below.
#[verifier::external_type_specification]
#[verifier::external_body]
pub struct ExFnvHasher(FnvHasher);

/// The builder that a `fnv::FnvHashMap` makes its hashers with.
#[verifier::external_type_specification]
#[verifier::external_body]
#[verifier::reject_recursive_types(Hasher)]
pub struct ExBuildHasherDefault<Hasher>(BuildHasherDefault<Hasher>);

/// `get_mut` of `fnv::FnvHashMap`: the entry under a key, or nothing where the
/// map does not hold the key. What the caller writes through the reference is
/// what the map then holds under that key; all other entries stay.
#[verifier::external_body]
fn map_get_mut<'a, Entry>(
    map: &'a mut FnvHashMap<(u128, u64), Entry>,
    key: &(u128, u64),
) -> (entry: Option<&'a mut Entry>)
    ensures
        match entry {
            Some(entry) => {
                &&& old(map)@.contains_key(*key)
                &&& *entry == old(map)@[*key]
                &&& final(map)@ == old(map)@.insert(*key, *final(entry))
            },
            None => !old(map)@.contains_key(*key) && final(map)@ == old(map)@,
        },
{
    map.get_mut(key)
}

/// `contains_key` of `fnv::FnvHashMap`: whether the map holds an entry under
/// the key.
#[verifier::external_body]
fn map_contains_key<Entry>(map: &FnvHashMap<(u128, u64), Entry>, key: &(u128, u64)) -> (held: bool)
    ensures
        held == map@.contains_key(*key),
{
    map.contains_key(key)
}

/// `len` of `fnv::FnvHashMap`: the number of entries.
#[verifier::external_body]
fn map_len<Entry>(map: &FnvHashMap<(u128, u64), Entry>) -> (count: usize)
    ensures
        count == map@.len(),
{
    map.len()
}

/// `remove` of `fnv::FnvHashMap`: takes the entry under the key out of the map
/// and hands it back, if there is one.
#[verifier::external_body]
fn map_remove<Entry>(
    map: &mut FnvHashMap<(u128, u64), Entry>,
    key: &(u128, u64),
) -> (removed: Option<Entry>)
    ensures
        final(map)@ == old(map)@.remove(*key),
        removed == (if old(map)@.contains_key(*key) {
            Some(old(map)@[*key])
        } else {
            None
        }),
{
    map.remove(key)
}

/// `insert` of `fnv::FnvHashMap`: puts the entry under the key, and hands back
/// what stood there before. All other entries stay.
#[verifier::external_body]
fn map_insert<Entry>(
    map: &mut FnvHashMap<(u128, u64), Entry>,
    key: (u128, u64),
    entry: Entry,
) -> (replaced: Option<Entry>)
    ensures
        final(map)@ == old(map)@.insert(key, entry),
        replaced == (if old(map)@.contains_key(key) {
            Some(old(map)@[key])
        } else {
            None
        }),
{
    map.insert(key, entry)
}

/// `iter` of `fnv::FnvHashMap`, with each entry reduced to its key and stamp:
/// every entry comes exactly once. The order is left open.
#[verifier::external_body]
fn map_stamps<Value>(
    map: &FnvHashMap<(u128, u64), CacheEntry<Value>>,
) -> (stamps: Vec<((u128, u64), u64)>)
    ensures
        stamps@.len() == map@.len(),
        forall|i: int|
            0 <= i < stamps@.len() ==> map@.contains_key((#[trigger] stamps@[i]).0)
                && map@[stamps@[i].0].last_access == stamps@[i].1,
        forall|i: int, j: int|
            0 <= i < j < stamps@.len() ==> (#[trigger] stamps@[i]).0 != (#[trigger] stamps@[j]).0,
        forall|key: (u128, u64)| #[trigger]
            map@.contains_key(key) ==> exists|i: int|
                0 <= i < stamps@.len() && (#[trigger] stamps@[i]).0 == key,
{
    map.iter().map(|(key, entry)| (*key, entry.last_access)).collect()
}

/// A key of a [`BoundedCache`]: a value that two integers identify.
pub trait MapKey: Sized {
    /// The two integers.
    spec fn spec_words(self) -> (u128, u64);

    fn words(&self) -> (words: (u128, u64))
        ensures
            words == self.spec_words(),
    ;

    /// Different keys have different words.
    proof fn words_identify(a: Self, b: Self)
        ensures
            a.spec_words() == b.spec_words() ==> a == b,
    ;
}

/// Four 32-bit words in one integer, the first lowest.
pub open spec fn packed(a: u32, b: u32, c: u32, d: u32) -> int {
    a + b * 0x1_0000_0000 + c * 0x1_0000_0000_0000_0000 + d * 0x1_0000_0000_0000_0000_0000_0000
}

/// Packs four 32-bit words into one integer.
pub fn pack(a: u32, b: u32, c: u32, d: u32) -> (word: u128)
    ensures
        word == packed(a, b, c, d),
{
    a as u128 + b as u128 * 0x1_0000_0000 + c as u128 * 0x1_0000_0000_0000_0000 + d as u128
        * 0x1_0000_0000_0000_0000_0000_0000
}

/// Packed words can be told apart.
pub proof fn packing_is_injective(
    a: (u32, u32, u32, u32),
    b: (u32, u32, u32, u32),
)
    requires
        packed(a.0, a.1, a.2, a.3) == packed(b.0, b.1, b.2, b.3),
    ensures
        a == b,
{
}

impl MapKey for u64 {
    open spec fn spec_words(self) -> (u128, u64) {
        (0, self)
    }

    fn words(&self) -> (words: (u128, u64)) {
        (0, *self)
    }

    proof fn words_identify(a: Self, b: Self) {
    }
}

impl MapKey for PixelRegion {
    open spec fn spec_words(self) -> (u128, u64) {
        (packed(self.x_min, self.y_min, self.x_max, self.y_max) as u128, 0)
    }

    fn words(&self) -> (words: (u128, u64)) {
        (pack(self.x_min, self.y_min, self.x_max, self.y_max), 0)
    }

    proof fn words_identify(a: Self, b: Self) {
        if a.spec_words() == b.spec_words() {
            packing_is_injective(
                (a.x_min, a.y_min, a.x_max, a.y_max),
                (b.x_min, b.y_min, b.x_max, b.y_max),
            );
        }
    }
}

/// A cached value, with the number of the access that used it last.
#[derive(Debug)]
pub struct CacheEntry<Value> {
    pub value: Value,
    pub last_access: u64,
}

/// Whether no entry was used longer ago than the one under `key`.
pub open spec fn is_oldest<Value>(
    entries: Map<(u128, u64), CacheEntry<Value>>,
    key: (u128, u64),
) -> bool {
    &&& entries.contains_key(key)
    &&& forall|other: (u128, u64)| #[trigger]
        entries.contains_key(other) ==> entries[key].last_access <= entries[other].last_access
}

/// Whether `after` is what is left of `before` once one more entry fits: all of
/// it if there was room, else all but one entry used longest ago.
pub open spec fn made_room<Value>(
    before: Map<(u128, u64), CacheEntry<Value>>,
    capacity: nat,
    after: Map<(u128, u64), CacheEntry<Value>>,
) -> bool {
    if before.len() < capacity {
        after == before
    } else {
        exists|key: (u128, u64)| #[trigger] is_oldest(before, key) && after == before.remove(key)
    }
}

/// Whether an access to `key` that leaves `entry` there turns `before` into
/// `after`: an entry that the cache held is replaced, and a new one first gets
/// room.
pub open spec fn accessed<Value>(
    before: Map<(u128, u64), CacheEntry<Value>>,
    capacity: nat,
    key: (u128, u64),
    entry: CacheEntry<Value>,
    after: Map<(u128, u64), CacheEntry<Value>>,
) -> bool {
    if before.contains_key(key) {
        after == before.insert(key, entry)
    } else {
        exists|room: Map<(u128, u64), CacheEntry<Value>>| #[trigger]
            made_room(before, capacity, room) && after == room.insert(key, entry)
    }
}

/// A map of at most `capacity` entries. Every access has a number, and every
/// entry remembers the number of the access that used it last.
pub struct BoundedCache<Key, Value> {
    entries: FnvHashMap<(u128, u64), CacheEntry<Value>>,
    capacity: usize,
    access: u64,
    key: PhantomData<Key>,
}

impl<Key: MapKey, Value> BoundedCache<Key, Value> {
    /// The entries, by the words of their keys.
    pub closed spec fn entries(&self) -> Map<(u128, u64), CacheEntry<Value>> {
        self.entries@
    }

    pub closed spec fn spec_capacity(&self) -> nat {
        self.capacity as nat
    }

    /// The number of the last access.
    pub closed spec fn access(&self) -> u64 {
        self.access
    }

    pub open spec fn wf(&self) -> bool {
        &&& 0 < self.spec_capacity() <= usize::MAX
        &&& self.entries().dom().finite()
        &&& self.entries().len() <= self.spec_capacity()
    }

    /// An empty cache.
    pub fn new(capacity: usize) -> (cache: Self)
        requires
            capacity > 0,
        ensures
            cache.wf(),
            cache.entries() == Map::<(u128, u64), CacheEntry<Value>>::empty(),
            cache.spec_capacity() == capacity,
            cache.access() == 0,
    {
        BoundedCache { entries: FnvHashMap::default(), capacity, access: 0, key: PhantomData }
    }

    /// Whether the cache holds a value for `key`. This is no access.
    pub fn contains_key(&self, key: &Key) -> (held: bool)
        ensures
            held == self.entries().contains_key(key.spec_words()),
    {
        map_contains_key(&self.entries, &key.words())
    }

    /// A key whose entry was used longest ago.
    fn oldest(&self) -> (key: (u128, u64))
        requires
            self.entries().dom().finite(),
            self.entries().len() > 0,
        ensures
            is_oldest(self.entries(), key),
    {
        let stamps = map_stamps(&self.entries);
        let mut best: usize = 0;
        let mut i: usize = 1;
        while i < stamps.len()
            invariant
                best < i <= stamps@.len(),
                forall|j: int| 0 <= j < i ==> stamps@[best as int].1 <= (#[trigger] stamps@[j]).1,
            decreases stamps.len() - i,
        {
            if stamps[i].1 < stamps[best].1 {
                best = i;
            }
            i += 1;
        }
        let key = stamps[best].0;
        proof {
            assert forall|other: (u128, u64)| #[trigger]
                self.entries@.contains_key(other) implies self.entries@[key].last_access
                <= self.entries@[other].last_access by {
                let j = choose|j: int| 0 <= j < stamps@.len() && (#[trigger] stamps@[j]).0 == other;
                assert(stamps@[best as int].1 <= stamps@[j].1);
            }
        }
        key
    }

    /// The value for `key`, made by `create` where the cache does not hold one;
    /// a full cache first lets one entry go that was used longest ago. Either
    /// way this counts as an access to the entry.
    pub fn get_or_insert_with(&mut self, key: Key, create: impl FnOnce() -> Value) -> (value:
        &mut Value)
        requires
            old(self).wf(),
            !old(self).entries().contains_key(key.spec_words()) ==> call_requires(create, ()),
        ensures
            final(self).wf(),
            final(self).spec_capacity() == old(self).spec_capacity(),
            final(self).access() == old(self).access().wrapping_add(1),
            accessed(
                old(self).entries(),
                old(self).spec_capacity(),
                key.spec_words(),
                (CacheEntry { value: *final(value), last_access: final(self).access() }),
                final(self).entries(),
            ),
            if old(self).entries().contains_key(key.spec_words()) {
                *value == old(self).entries()[key.spec_words()].value
            } else {
                call_ensures(create, (), *value)
            },
    {
        let words = key.words();
        self.access = self.access.wrapping_add(1);
        let access = self.access;
        if map_contains_key(&self.entries, &words) {
            let entry = map_get_mut(&mut self.entries, &words).unwrap();
            entry.last_access = access;
            return &mut entry.value;
        }
        if map_len(&self.entries) >= self.capacity {
            let oldest = self.oldest();
            map_remove(&mut self.entries, &oldest);
        }
        let ghost room = self.entries@;
        assert(made_room(old(self).entries(), old(self).spec_capacity(), room));
        assert forall|a: CacheEntry<Value>, b: CacheEntry<Value>| #[trigger]
            room.insert(words, a).insert(words, b) == room.insert(words, b) by {
            assert(room.insert(words, a).insert(words, b) =~= room.insert(words, b));
        }
        let value = create();
        map_insert(&mut self.entries, words, CacheEntry { value, last_access: access });
        &mut map_get_mut(&mut self.entries, &words).unwrap().value
    }
}

/// Whether the stamps tell the order of use: they are all different, and none
/// is ahead of the last access.
pub open spec fn in_order<Value>(
    entries: Map<(u128, u64), CacheEntry<Value>>,
    access: u64,
) -> bool {
    &&& forall|key: (u128, u64)| #[trigger]
        entries.contains_key(key) ==> entries[key].last_access <= access
    &&& forall|a: (u128, u64), b: (u128, u64)| #[trigger]
        entries.contains_key(a) && #[trigger] entries.contains_key(b) && a != b
            ==> entries[a].last_access != entries[b].last_access
}

/// As long as the count of accesses has not run through all its values, the
/// stamps tell the order of use: the access that stamps the entry under `key`
/// leaves them in order, whichever entries were let go before.
pub proof fn access_keeps_order<Value>(
    before: Map<(u128, u64), CacheEntry<Value>>,
    access: u64,
    room: Map<(u128, u64), CacheEntry<Value>>,
    key: (u128, u64),
    entry: CacheEntry<Value>,
)
    requires
        in_order(before, access),
        access < u64::MAX,
        room.submap_of(before),
        entry.last_access == access.wrapping_add(1),
    ensures
        in_order(room.insert(key, entry), access.wrapping_add(1)),
{
    let after = room.insert(key, entry);
    assert forall|other: (u128, u64)| after.contains_key(other) && other != key implies (
    #[trigger] before.contains_key(other)) && after[other] == before[other] by {
        assert(room.dom().contains(other) && before.dom().contains(other));
    }
    assert forall|other: (u128, u64)| #[trigger] after.contains_key(other) && other
        != key implies after[other].last_access <= access by {
        assert(before.contains_key(other));
    }
    assert forall|a: (u128, u64), b: (u128, u64)| #[trigger]
        after.contains_key(a) && #[trigger] after.contains_key(b) && a
            != b implies after[a].last_access != after[b].last_access by {
        if a != key && b != key {
            assert(before.contains_key(a) && before.contains_key(b));
        }
    }
}

/// With the stamps in order a full cache has one entry that was used before
/// all others, and that is the one it lets go.
pub proof fn least_recent_entry_leaves<Value>(
    before: Map<(u128, u64), CacheEntry<Value>>,
    access: u64,
    capacity: nat,
    after: Map<(u128, u64), CacheEntry<Value>>,
    key: (u128, u64),
)
    requires
        in_order(before, access),
        before.len() >= capacity,
        made_room(before, capacity, after),
        is_oldest(before, key),
    ensures
        after == before.remove(key),
        forall|other: (u128, u64)| #[trigger]
            before.contains_key(other) && other != key ==> before[key].last_access
                < before[other].last_access,
{
    let gone = choose|gone: (u128, u64)| #[trigger]
        is_oldest(before, gone) && after == before.remove(gone);
    assert(before.contains_key(gone) && before.contains_key(key));
}

/// The entry that the last access used is not the next to go, unless it is the
/// only one.
pub proof fn fresh_entry_stays<Value>(
    before: Map<(u128, u64), CacheEntry<Value>>,
    access: u64,
    capacity: nat,
    after: Map<(u128, u64), CacheEntry<Value>>,
    key: (u128, u64),
)
    requires
        in_order(before, access),
        before.contains_key(key),
        before[key].last_access == access,
        exists|other: (u128, u64)| #[trigger] before.contains_key(other) && other != key,
        made_room(before, capacity, after),
    ensures
        after.contains_key(key) && after[key] == before[key],
{
    let other = choose|other: (u128, u64)| #[trigger] before.contains_key(other) && other != key;
    assert(before[other].last_access < access);
}

/// Making room keeps a cache within its capacity once the new entry is in: the
/// size never exceeds the capacity, and no entry changes that stays.
pub proof fn room_is_for_one_more<Value>(
    before: Map<(u128, u64), CacheEntry<Value>>,
    capacity: nat,
    after: Map<(u128, u64), CacheEntry<Value>>,
)
    requires
        before.dom().finite(),
        0 < before.len() <= capacity || before.len() < capacity,
        made_room(before, capacity, after),
    ensures
        after.len() < capacity,
        after.submap_of(before),
        before.len() <= after.len() + 1,
{
}

/// Whether the access `i` to `keys` leads from one of the states to the next.
pub open spec fn is_step<Value>(
    states: Seq<Map<(u128, u64), CacheEntry<Value>>>,
    capacity: nat,
    access: u64,
    keys: Seq<(u128, u64)>,
    i: int,
) -> bool {
    &&& states[i + 1].contains_key(keys[i])
    &&& states[i + 1][keys[i]].last_access == access + i + 1
    &&& accessed(states[i], capacity, keys[i], states[i + 1][keys[i]], states[i + 1])
}

/// Whether a cache goes through `states` when `keys` are accessed in turn, after
/// the access with the number `access`. The count of accesses does not run
/// through all its values.
pub open spec fn is_history<Value>(
    states: Seq<Map<(u128, u64), CacheEntry<Value>>>,
    capacity: nat,
    access: u64,
    keys: Seq<(u128, u64)>,
) -> bool {
    &&& states.len() == keys.len() + 1
    &&& access + keys.len() <= u64::MAX
    &&& forall|i: int|
        0 <= i < keys.len() ==> #[trigger] is_step(states, capacity, access, keys, i)
}

/// What holds of the entry under `key`, used last by the access `access`, after
/// some accesses to the keys `used`.
spec fn is_watched<Value>(
    first: Map<(u128, u64), CacheEntry<Value>>,
    now: Map<(u128, u64), CacheEntry<Value>>,
    capacity: nat,
    access: u64,
    count: int,
    used: Set<(u128, u64)>,
    key: (u128, u64),
) -> bool {
    &&& now.dom().finite()
    &&& now.len() <= capacity
    &&& in_order(now, (access + count) as u64)
    &&& used.finite()
    &&& forall|other: (u128, u64)|
        now.contains_key(other) && (#[trigger] now[other]).last_access > access
            ==> used.contains(other)
    &&& now.contains_key(key) <==> used.len() < capacity
    &&& now.contains_key(key) ==> {
        &&& now[key] == first[key]
        &&& forall|other: (u128, u64)| #[trigger]
            used.contains(other) ==> now.contains_key(other) && now[other].last_access > access
    }
}

proof fn lemma_watched_step<Value>(
    first: Map<(u128, u64), CacheEntry<Value>>,
    before: Map<(u128, u64), CacheEntry<Value>>,
    after: Map<(u128, u64), CacheEntry<Value>>,
    capacity: nat,
    access: u64,
    count: int,
    used: Set<(u128, u64)>,
    key: (u128, u64),
    next: (u128, u64),
)
    requires
        0 < capacity,
        0 <= count,
        access + count < u64::MAX,
        first[key].last_access == access,
        is_watched(first, before, capacity, access, count, used, key),
        !used.contains(key),
        next != key,
        after.contains_key(next),
        after[next].last_access == access + count + 1,
        accessed(before, capacity, next, after[next], after),
    ensures
        is_watched(first, after, capacity, access, count + 1, used.insert(next), key),
{
    let entry = after[next];
    let used_after = used.insert(next);
    let room = if before.contains_key(next) {
        before
    } else {
        choose|room: Map<(u128, u64), CacheEntry<Value>>| #[trigger]
            made_room(before, capacity, room) && after == room.insert(next, entry)
    };
    assert(after == room.insert(next, entry));
    if !before.contains_key(next) {
        room_is_for_one_more(before, capacity, room);
    }
    access_keeps_order(before, (access + count) as u64, room, next, entry);
    assert forall|other: (u128, u64)|
        after.contains_key(other) && (
        #[trigger] after[other]).last_access > access implies used_after.contains(other) by {
        if other != next {
            assert(room.dom().contains(other) && before.dom().contains(other));
            assert(before[other].last_access > access);
        }
    }
    if before.contains_key(key) {
        if room.contains_key(key) {
            assert(after[key] == first[key]);
            assert forall|other: (u128, u64)| #[trigger]
                used_after.contains(other) implies after.contains_key(other)
                && after[other].last_access > access by {
                if other != next {
                    assert(used.contains(other));
                    if !room.contains_key(other) {
                        // Then it was the oldest entry, and older than the one under `key`.
                        assert(is_oldest(before, other));
                        assert(before[other].last_access <= before[key].last_access);
                    }
                }
            }
            assert(used_after.insert(key).subset_of(after.dom()));
            vstd::set_lib::lemma_len_subset(used_after.insert(key), after.dom());
        } else {
            assert(is_oldest(before, key));
            assert(before.dom().remove(key) =~= used) by {
                assert forall|other: (u128, u64)| #[trigger]
                    before.dom().remove(key).contains(other) implies used.contains(other) by {
                    assert(before.contains_key(other) && before.contains_key(key));
                    assert(before[other].last_access > access);
                }
            }
            assert(before.len() >= capacity);
            assert(used.len() + 1 == before.len());
        }
    } else {
        assert(!room.contains_key(key));
        assert(used_after.len() >= used.len());
    }
}

proof fn lemma_watched<Value>(
    states: Seq<Map<(u128, u64), CacheEntry<Value>>>,
    capacity: nat,
    access: u64,
    keys: Seq<(u128, u64)>,
    key: (u128, u64),
    n: int,
)
    requires
        0 < capacity,
        is_history(states, capacity, access, keys),
        states[0].dom().finite(),
        states[0].len() <= capacity,
        in_order(states[0], access),
        states[0].contains_key(key),
        states[0][key].last_access == access,
        !keys.contains(key),
        0 <= n <= keys.len(),
    ensures
        is_watched(
            states[0],
            states[n],
            capacity,
            access,
            n,
            keys.take(n).to_set(),
            key,
        ),
    decreases n,
{
    broadcast use vstd::seq_lib::group_seq_properties;

    if n == 0 {
        assert(keys.take(0).to_set() =~= Set::<(u128, u64)>::empty());
        assert forall|other: (u128, u64)| states[0].contains_key(other) implies (
        #[trigger] states[0][other]).last_access <= access by {}
    } else {
        lemma_watched(states, capacity, access, keys, key, n - 1);
        let used = keys.take(n - 1).to_set();
        let next = keys[n - 1];
        assert(is_step(states, capacity, access, keys, n - 1));
        assert(keys.contains(next));
        assert(!used.contains(key)) by {
            if keys.take(n - 1).contains(key) {
                let i = keys.take(n - 1).index_of(key);
                assert(keys[i] == key);
            }
        }
        lemma_watched_step(
            states[0],
            states[n - 1],
            states[n],
            capacity,
            access,
            n - 1,
            used,
            key,
            next,
        );
        assert(keys.take(n) =~= keys.take(n - 1).push(next));
        assert(keys.take(n).to_set() =~= used.insert(next));
    }
}

/// How long an entry stays: it is kept, as it was, through accesses to fewer
/// other keys than the cache has room for, and it is gone once as many others
/// were accessed, in whatever order and however often.
pub proof fn entry_outlives_other_accesses<Value>(
    states: Seq<Map<(u128, u64), CacheEntry<Value>>>,
    capacity: nat,
    access: u64,
    keys: Seq<(u128, u64)>,
    key: (u128, u64),
)
    requires
        0 < capacity,
        is_history(states, capacity, access, keys),
        states[0].dom().finite(),
        states[0].len() <= capacity,
        in_order(states[0], access),
        states[0].contains_key(key),
        states[0][key].last_access == access,
        !keys.contains(key),
    ensures
        states.last().contains_key(key) <==> keys.to_set().len() < capacity,
        states.last().contains_key(key) ==> states.last()[key] == states[0][key],
{
    lemma_watched(states, capacity, access, keys, key, keys.len() as int);
    assert(keys.take(keys.len() as int) =~= keys);
}

/// Through any accesses the stamps go on to tell the order of use, and the size
/// stays within the capacity. An empty cache, to begin with, is in order.
pub proof fn history_stays_in_order<Value>(
    states: Seq<Map<(u128, u64), CacheEntry<Value>>>,
    capacity: nat,
    access: u64,
    keys: Seq<(u128, u64)>,
    n: int,
)
    requires
        0 < capacity,
        is_history(states, capacity, access, keys),
        states[0].dom().finite(),
        states[0].len() <= capacity,
        in_order(states[0], access),
        0 <= n <= keys.len(),
    ensures
        states[n].dom().finite(),
        states[n].len() <= capacity,
        in_order(states[n], (access + n) as u64),
    decreases n,
{
    if n > 0 {
        history_stays_in_order(states, capacity, access, keys, n - 1);
        assert(is_step(states, capacity, access, keys, n - 1));
        let before = states[n - 1];
        let after = states[n];
        let key = keys[n - 1];
        let room = if before.contains_key(key) {
            before
        } else {
            choose|room: Map<(u128, u64), CacheEntry<Value>>| #[trigger]
                made_room(before, capacity, room) && after == room.insert(key, after[key])
        };
        assert(after == room.insert(key, after[key]));
        if !before.contains_key(key) {
            room_is_for_one_more(before, capacity, room);
        }
        access_keeps_order(before, (access + n - 1) as u64, room, key, after[key]);
    }
}

} // verus!
