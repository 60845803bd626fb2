//! Which code objects a thread has resolved of late.

use vstd::prelude::*;

verus! {

/// How many code objects a cache can hold.
pub const SLOTS: usize = 256;

const EMPTY_KEY: usize = 0;

const GOLDEN: u64 = 0x9E37_79B9_7F4A_7C15;

#[derive(Clone, Copy)]
struct Slot {
    key: usize,
    id: u32,
    pad: u32,
}

/// A table with one place for each key, which the key shares with others. The
/// null key has none.
pub struct CodeCache {
    slots: [Slot; 256],
}

/// The place of a key: the top bits of its product with a constant that spreads
/// keys which lie close together.
pub open spec fn place_of(key: usize) -> int {
    (key * 0x9E37_79B9_7F4A_7C15) % 0x1_0000_0000_0000_0000 / 0x100_0000_0000_0000
}

/// Whether a cache differs from another one in holding a key in its place. The null
/// key is not held.
pub open spec fn stores(before: CodeCache, after: CodeCache, key: usize, id: u32) -> bool {
    forall|place: int|
        0 <= place < SLOTS ==> #[trigger] after.held(place) == (if key != 0 && place == place_of(
            key,
        ) {
            (key, id)
        } else {
            before.held(place)
        })
}

impl CodeCache {
    /// What a place holds, as a key and an id.
    pub closed spec fn held(&self, place: int) -> (usize, u32) {
        (self.slots@[place].key, self.slots@[place].id)
    }

    /// What the cache says of a key.
    pub open spec fn lookup(&self, key: usize) -> Option<u32> {
        if key != 0 && self.held(place_of(key)).0 == key {
            Some(self.held(place_of(key)).1)
        } else {
            None
        }
    }

    /// A cache that holds nothing.
    pub fn empty() -> (cache: Self)
        ensures
            forall|place: int| 0 <= place < SLOTS ==> #[trigger] cache.held(place) == (0usize, 0u32),
            forall|key: usize| #[trigger] cache.lookup(key) is None,
    {
        let cache = CodeCache { slots: [Slot { key: EMPTY_KEY, id: 0, pad: 0 };256] };
        proof {
            assert forall|key: usize| #[trigger] cache.lookup(key) is None by {
                lemma_place(key);
                assert(cache.held(place_of(key)) == (0usize, 0u32));
            }
        }
        cache
    }

    pub fn get(&self, key: usize) -> (id: Option<u32>)
        ensures
            id == self.lookup(key),
    {
        if key == EMPTY_KEY {
            return None;
        }
        let slot = self.slots[Self::slot_of(key)];
        if slot.key == key {
            Some(slot.id)
        } else {
            None
        }
    }

    /// Stores a key, in place of the one that was there. The null key is not stored.
    pub fn put(&mut self, key: usize, id: u32)
        ensures
            stores(*old(self), *final(self), key, id),
    {
        if key == EMPTY_KEY {
            return;
        }
        let place: usize = Self::slot_of(key);
        self.slots[place] = Slot { key, id, pad: 0 };
    }

    /// What a place holds, as a key and an id.
    pub fn slot(&self, place: usize) -> (r: (usize, u32))
        requires
            place < SLOTS,
        ensures
            r == self.held(place as int),
    {
        (self.slots[place].key, self.slots[place].id)
    }

    /// The place of a key.
    pub fn slot_of(key: usize) -> (place: usize)
        ensures
            place == place_of(key),
            place < SLOTS,
    {
        let spread: u64 = (key as u64).wrapping_mul(GOLDEN);
        proof {
            assert(spread >> 56 == spread / 0x100_0000_0000_0000 && spread >> 56 < 256)
                by (bit_vector);
            vstd::arithmetic::mul::lemma_mul_is_commutative(key as int, GOLDEN as int);
        }
        (spread >> 56) as usize
    }
}

proof fn lemma_place(key: usize)
    ensures
        0 <= place_of(key) < SLOTS,
{
}

/// A stored key reads back as it was stored, an id of zero too.
pub proof fn a_stored_key_reads_back(before: CodeCache, after: CodeCache, key: usize, id: u32)
    requires
        key != 0,
        stores(before, after, key, id),
    ensures
        after.lookup(key) == Some(id),
{
    lemma_place(key);
    assert(after.held(place_of(key)) == (key, id));
}

/// Storing a key makes the cache forget another one with the same place, and leaves
/// what it says of every other key as it was.
pub proof fn storing_touches_one_place(
    before: CodeCache,
    after: CodeCache,
    key: usize,
    id: u32,
    other: usize,
)
    requires
        other != key,
        stores(before, after, key, id),
    ensures
        key != 0 && place_of(other) == place_of(key) ==> after.lookup(other) is None,
        key == 0 || place_of(other) != place_of(key) ==> after.lookup(other) == before.lookup(
            other,
        ),
{
    lemma_place(other);
    assert(after.held(place_of(other)).0 == after.held(place_of(other)).0);
}

/// A key has the place that the top eight bits of its product with the constant say.
pub proof fn a_place_is_the_top_of_a_product(key: usize)
    ensures
        ({
            let spread = (key * 0x9E37_79B9_7F4A_7C15) % 0x1_0000_0000_0000_0000;
            &&& 0 <= place_of(key) < 256
            &&& place_of(key) * 0x100_0000_0000_0000 <= spread
            &&& spread < (place_of(key) + 1) * 0x100_0000_0000_0000
        }),
{
}

/// A cache says of a key only what was stored under that key, and nothing of the null key.
pub proof fn a_cache_speaks_only_of_the_key_it_holds(cache: CodeCache, key: usize)
    ensures
        cache.lookup(key) matches Some(id) ==> key != 0 && exists|place: int|
            0 <= place < 256 && #[trigger] cache.held(place) == (key, id),
{
    lemma_place(key);
    if let Some(id) = cache.lookup(key) {
        assert(cache.held(place_of(key)) == (key, id));
    }
}

/// A key that is put into a cache is found under its number, unless it is the null key;
/// another key is found as before or not at all.
pub proof fn a_key_that_is_put_is_found(
    cache: &mut CodeCache,
    key: usize,
    id: u32,
    other: usize,
    found: Option<u32>,
    seen: Option<u32>,
)
    requires
        call_ensures(CodeCache::put, (cache, key, id), ()),
        call_ensures(CodeCache::get, (final(cache), key), found),
        call_ensures(CodeCache::get, (final(cache), other), seen),
    ensures
        key != 0 ==> found == Some(id),
        key == 0 ==> found is None,
        other != key ==> seen is None || seen == old(cache).lookup(other),
        key == 0 ==> seen == old(cache).lookup(other),
{
    if key != 0 {
        a_stored_key_reads_back(*old(cache), *final(cache), key, id);
    }
    if other != key {
        storing_touches_one_place(*old(cache), *final(cache), key, id, other);
    }
}

} // verus!
