//! The textures and view transforms that a renderer keeps between frames.

use crate::bounded_cache;
use crate::bounded_cache::{pack, BoundedCache, CacheEntry, MapKey};
use crate::buffer_pool;
use crate::buffer_pool::{AlwaysCompatible, BufferPool, PoolEntry};
use crate::gpu::{Extent3d, TextureDescriptor, TextureFormat};
use crate::region::PixelRegion;
use vstd::prelude::*;

verus! {

/// How many kinds of textures are pooled.
pub const MAX_TEXTURE_POOL_KEYS: usize = 256;

/// How many unused textures of one kind are kept.
pub const MAX_TEXTURES_PER_KEY: usize = 2;

/// For how many viewports the view transforms are kept.
pub const MAX_GLOBALS: usize = 256;

/// A kind of texture. Textures of the same kind can stand for each other.
#[derive(Clone, Copy, Debug, PartialEq, Eq, Structural)]
pub struct TextureKey {
    pub size: Extent3d,
    pub usage: u32,
    pub format: TextureFormat,
    pub sample_count: u32,
}

impl TextureKey {
    /// What a device is asked for to make a texture of this kind.
    pub open spec fn spec_descriptor(self) -> TextureDescriptor {
        TextureDescriptor {
            size: self.size,
            sample_count: self.sample_count,
            format: self.format,
            usage: self.usage,
        }
    }

    pub fn descriptor(&self) -> (descriptor: TextureDescriptor)
        ensures
            descriptor == self.spec_descriptor(),
    {
        TextureDescriptor {
            size: self.size,
            sample_count: self.sample_count,
            format: self.format,
            usage: self.usage,
        }
    }
}

impl MapKey for TextureKey {
    open spec fn spec_words(self) -> (u128, u64) {
        (
            bounded_cache::packed(
                self.size.width,
                self.size.height,
                self.size.depth_or_array_layers,
                self.sample_count,
            ) as u128,
            (self.usage + self.format.id * 0x1_0000_0000) as u64,
        )
    }

    fn words(&self) -> (words: (u128, u64)) {
        (
            pack(
                self.size.width,
                self.size.height,
                self.size.depth_or_array_layers,
                self.sample_count,
            ),
            self.usage as u64 + self.format.id as u64 * 0x1_0000_0000,
        )
    }

    proof fn words_identify(a: Self, b: Self) {
        if a.spec_words() == b.spec_words() {
            bounded_cache::packing_is_injective(
                (a.size.width, a.size.height, a.size.depth_or_array_layers, a.sample_count),
                (b.size.width, b.size.height, b.size.depth_or_array_layers, b.sample_count),
            );
        }
    }
}

/// Pools of textures, one for each kind, and view transforms, one for each
/// viewport. Of each the most recently used ones are kept.
pub struct TexturePool<Pool, Globals> {
    pools: BoundedCache<TextureKey, Pool>,
    globals_cache: BoundedCache<PixelRegion, Globals>,
}

impl<Pool, Globals> Default for TexturePool<Pool, Globals> {
    fn default() -> (pool: Self)
        ensures
            pool.wf(),
            pool.pools() == Map::<(u128, u64), CacheEntry<Pool>>::empty(),
            pool.globals() == Map::<(u128, u64), CacheEntry<Globals>>::empty(),
            pool.pools_access() == 0,
            pool.globals_access() == 0,
    {
        Self::new()
    }
}

impl<Pool, Globals> TexturePool<Pool, Globals> {
    /// The pools of textures, by the words of their kinds.
    pub closed spec fn pools(&self) -> Map<(u128, u64), CacheEntry<Pool>> {
        self.pools.entries()
    }

    /// The number of the last access to the pools.
    pub closed spec fn pools_access(&self) -> u64 {
        self.pools.access()
    }

    /// The view transforms, by the words of their viewports.
    pub closed spec fn globals(&self) -> Map<(u128, u64), CacheEntry<Globals>> {
        self.globals_cache.entries()
    }

    /// The number of the last access to the view transforms.
    pub closed spec fn globals_access(&self) -> u64 {
        self.globals_cache.access()
    }

    pub closed spec fn wf(&self) -> bool {
        &&& self.pools.wf()
        &&& self.pools.spec_capacity() == MAX_TEXTURE_POOL_KEYS
        &&& self.globals_cache.wf()
        &&& self.globals_cache.spec_capacity() == MAX_GLOBALS
    }

    /// Nothing kept yet.
    pub fn new() -> (pool: Self)
        ensures
            pool.wf(),
            pool.pools() == Map::<(u128, u64), CacheEntry<Pool>>::empty(),
            pool.globals() == Map::<(u128, u64), CacheEntry<Globals>>::empty(),
            pool.pools_access() == 0,
            pool.globals_access() == 0,
    {
        TexturePool {
            pools: BoundedCache::new(MAX_TEXTURE_POOL_KEYS),
            globals_cache: BoundedCache::new(MAX_GLOBALS),
        }
    }

    /// A texture of the given kind: `take` gets it from the pool for that kind.
    /// Where there is no such pool, `create_pool` makes one, from what a device
    /// is asked for and from the number of unused textures to keep.
    pub fn get_texture<Entry>(
        &mut self,
        size: Extent3d,
        usage: u32,
        format: TextureFormat,
        sample_count: u32,
        create_pool: impl FnOnce(TextureDescriptor, usize) -> Pool,
        take: impl FnOnce(&mut Pool) -> Entry,
    ) -> (entry: Entry)
        requires
            old(self).wf(),
            ({
                let key = TextureKey { size, usage, format, sample_count };
                &&& !old(self).pools().contains_key(key.spec_words()) ==> call_requires(
                    create_pool,
                    (key.spec_descriptor(), MAX_TEXTURES_PER_KEY),
                )
                &&& forall|pool: &mut Pool|
                    (if old(self).pools().contains_key(key.spec_words()) {
                        *pool == old(self).pools()[key.spec_words()].value
                    } else {
                        call_ensures(
                            create_pool,
                            (key.spec_descriptor(), MAX_TEXTURES_PER_KEY),
                            *pool,
                        )
                    }) ==> #[trigger] call_requires(take, (pool,))
            }),
        ensures
            final(self).wf(),
            final(self).globals() == old(self).globals(),
            final(self).globals_access() == old(self).globals_access(),
            final(self).pools_access() == old(self).pools_access().wrapping_add(1),
            ({
                let key = TextureKey { size, usage, format, sample_count };
                exists|pool: &mut Pool|
                    {
                        &&& #[trigger] call_ensures(take, (pool,), entry)
                        &&& if old(self).pools().contains_key(key.spec_words()) {
                            *pool == old(self).pools()[key.spec_words()].value
                        } else {
                            call_ensures(
                                create_pool,
                                (key.spec_descriptor(), MAX_TEXTURES_PER_KEY),
                                *pool,
                            )
                        }
                        &&& bounded_cache::accessed(
                            old(self).pools(),
                            MAX_TEXTURE_POOL_KEYS as nat,
                            key.spec_words(),
                            (CacheEntry {
                                value: *final(pool),
                                last_access: final(self).pools_access(),
                            }),
                            final(self).pools(),
                        )
                    }
            }),
    {
        let key = TextureKey { size, usage, format, sample_count };
        let descriptor = key.descriptor();
        let create = || -> (pool: Pool)
            requires
                call_requires(create_pool, (descriptor, MAX_TEXTURES_PER_KEY)),
            ensures
                call_ensures(create_pool, (descriptor, MAX_TEXTURES_PER_KEY), pool),
            { create_pool(descriptor, MAX_TEXTURES_PER_KEY) };
        let pool = self.pools.get_or_insert_with(key, create);
        take(pool)
    }

    /// The view transforms for `viewport`, made by `create` where they are not
    /// kept.
    pub fn get_globals(
        &mut self,
        viewport: PixelRegion,
        create: impl FnOnce(PixelRegion) -> Globals,
    ) -> (globals: Globals) where Globals: Clone
        requires
            old(self).wf(),
            !old(self).globals().contains_key(viewport.spec_words()) ==> call_requires(
                create,
                (viewport,),
            ),
        ensures
            final(self).wf(),
            final(self).pools() == old(self).pools(),
            final(self).pools_access() == old(self).pools_access(),
            final(self).globals_access() == old(self).globals_access().wrapping_add(1),
            ({
                let slot = final(self).globals()[viewport.spec_words()];
                &&& final(self).globals().contains_key(viewport.spec_words())
                &&& slot.last_access == final(self).globals_access()
                &&& cloned(slot.value, globals)
                &&& if old(self).globals().contains_key(viewport.spec_words()) {
                    slot.value == old(self).globals()[viewport.spec_words()].value
                } else {
                    call_ensures(create, (viewport,), slot.value)
                }
                &&& bounded_cache::accessed(
                    old(self).globals(),
                    MAX_GLOBALS as nat,
                    viewport.spec_words(),
                    slot,
                    final(self).globals(),
                )
            }),
    {
        let create_globals = || -> (globals: Globals)
            requires
                call_requires(create, (viewport,)),
            ensures
                call_ensures(create, (viewport,), globals),
            { create(viewport) };
        let globals = self.globals_cache.get_or_insert_with(viewport, create_globals);
        globals.clone()
    }

    /// However many kinds of textures and viewports are asked for, no more than
    /// the fixed numbers of them are kept.
    pub proof fn stays_bounded(&self)
        requires
            self.wf(),
        ensures
            self.pools().dom().finite(),
            self.pools().len() <= 256,
            self.globals().dom().finite(),
            self.globals().len() <= 256,
    {
    }
}

/// Whether each kept pool was `made` for its kind.
pub open spec fn each_made<Pool>(
    pools: Map<(u128, u64), CacheEntry<Pool>>,
    made: spec_fn(TextureKey, Pool) -> bool,
) -> bool {
    forall|kind: TextureKey|
        pools.contains_key(#[trigger] kind.spec_words()) ==> made(
            kind,
            pools[kind.spec_words()].value,
        )
}

/// Requests for different kinds never share a pool: if each kept pool was
/// `made` for its kind, and the one that a request for `key` leaves was made
/// for `key`, then after that request each kept pool was made for its kind.
pub proof fn pools_match_their_kinds<Pool>(
    before: Map<(u128, u64), CacheEntry<Pool>>,
    key: TextureKey,
    slot: CacheEntry<Pool>,
    after: Map<(u128, u64), CacheEntry<Pool>>,
    made: spec_fn(TextureKey, Pool) -> bool,
)
    requires
        each_made(before, made),
        made(key, slot.value),
        bounded_cache::accessed(
            before,
            MAX_TEXTURE_POOL_KEYS as nat,
            key.spec_words(),
            slot,
            after,
        ),
    ensures
        each_made(after, made),
{
    assert forall|kind: TextureKey|
        after.contains_key(#[trigger] kind.spec_words()) implies made(
        kind,
        after[kind.spec_words()].value,
    ) by {
        TextureKey::words_identify(kind, key);
    }
}

/// Whether a pool is one for textures of the given kind: it keeps as many
/// unused ones as it should, those it has are of the kind, and so are all that
/// its constructor makes. `kind_of` tells the kind of a texture.
pub open spec fn is_pool_of<Texture, Constructor, Descriptors>(
    pool: BufferPool<Texture, AlwaysCompatible, Constructor>,
    kind: TextureKey,
    kind_of: spec_fn(Texture) -> TextureKey,
) -> bool where Constructor: Fn(&Descriptors, &AlwaysCompatible) -> Texture {
    &&& pool.wf()
    &&& pool.spec_retained_capacity() == MAX_TEXTURES_PER_KEY
    &&& forall|i: int|
        0 <= i < pool.available().len() ==> kind_of((#[trigger] pool.available()[i]).0) == kind
    &&& forall|descriptors: &Descriptors, description: &AlwaysCompatible, texture: Texture|
        #[trigger]
        call_ensures(pool.constructor(), (descriptors, description), texture) ==> kind_of(texture)
            == kind
}

/// A request is answered with a texture of exactly the size, usage, format and
/// sample count that it asks for, so that no two requests that differ in one of
/// them are ever answered with the same texture. If every kept pool is one of
/// its kind before, then so it is after, and none keeps more unused textures
/// than it should.
pub proof fn requests_are_answered_in_kind<Texture, Constructor, Descriptors>(
    before: Map<(u128, u64), CacheEntry<BufferPool<Texture, AlwaysCompatible, Constructor>>>,
    key: TextureKey,
    pool: BufferPool<Texture, AlwaysCompatible, Constructor>,
    descriptors: &Descriptors,
    entry: PoolEntry<Texture, AlwaysCompatible>,
    slot: CacheEntry<BufferPool<Texture, AlwaysCompatible, Constructor>>,
    after: Map<(u128, u64), CacheEntry<BufferPool<Texture, AlwaysCompatible, Constructor>>>,
    kind_of: spec_fn(Texture) -> TextureKey,
) where Constructor: Fn(&Descriptors, &AlwaysCompatible) -> Texture
    requires
        each_made(
            before,
            |kind: TextureKey, pool: BufferPool<Texture, AlwaysCompatible, Constructor>|
                is_pool_of::<Texture, Constructor, Descriptors>(pool, kind, kind_of),
        ),
        if before.contains_key(key.spec_words()) {
            pool == before[key.spec_words()].value
        } else {
            is_pool_of::<Texture, Constructor, Descriptors>(pool, key, kind_of)
        },
        buffer_pool::took(pool, descriptors, AlwaysCompatible, entry, slot.value),
        bounded_cache::accessed(
            before,
            MAX_TEXTURE_POOL_KEYS as nat,
            key.spec_words(),
            slot,
            after,
        ),
    ensures
        kind_of(entry.item) == key,
        each_made(
            after,
            |kind: TextureKey, pool: BufferPool<Texture, AlwaysCompatible, Constructor>|
                is_pool_of::<Texture, Constructor, Descriptors>(pool, kind, kind_of),
        ),
        forall|kind: TextureKey|
            after.contains_key(#[trigger] kind.spec_words())
                ==> after[kind.spec_words()].value.available().len() <= MAX_TEXTURES_PER_KEY,
{
    let made = |kind: TextureKey, pool: BufferPool<Texture, AlwaysCompatible, Constructor>|
        is_pool_of::<Texture, Constructor, Descriptors>(pool, kind, kind_of);
    if before.contains_key(key.spec_words()) {
        assert(made(key, before[key.spec_words()].value));
    }
    let left = slot.value;
    assert forall|i: int| 0 <= i < left.available().len() implies kind_of(
        (#[trigger] left.available()[i]).0,
    ) == key by {
        if left.available()[i] != pool.available()[i] {
            assert(pool.available()[pool.available().len() - 1].0 == left.available()[i].0);
        }
    }
    assert(made(key, left));
    pools_match_their_kinds(before, key, slot, after, made);
    assert forall|kind: TextureKey|
        after.contains_key(
            #[trigger] kind.spec_words(),
        ) implies after[kind.spec_words()].value.available().len() <= MAX_TEXTURES_PER_KEY by {
        assert(made(kind, after[kind.spec_words()].value));
    }
}

/// Giving a texture back to the pool of its kind leaves a pool of that kind.
pub proof fn returns_are_kept_in_kind<Texture, Constructor, Descriptors>(
    before: BufferPool<Texture, AlwaysCompatible, Constructor>,
    kind: TextureKey,
    entry: PoolEntry<Texture, AlwaysCompatible>,
    after: BufferPool<Texture, AlwaysCompatible, Constructor>,
    kind_of: spec_fn(Texture) -> TextureKey,
) where Constructor: Fn(&Descriptors, &AlwaysCompatible) -> Texture
    requires
        is_pool_of::<Texture, Constructor, Descriptors>(before, kind, kind_of),
        kind_of(entry.item) == kind,
        buffer_pool::released(before, entry, after),
    ensures
        is_pool_of::<Texture, Constructor, Descriptors>(after, kind, kind_of),
{
}

/// A texture that was given back is handed out again: where a request for a
/// kind is followed by giving its texture back and by the same request, the
/// second request makes no new texture. It is answered with the same texture,
/// unless another one lay unused behind that already: then with the other.
pub proof fn returned_texture_is_handed_out_again<Texture, Constructor, Descriptors>(
    pools: Seq<Map<(u128, u64), CacheEntry<BufferPool<Texture, AlwaysCompatible, Constructor>>>>,
    key: TextureKey,
    descriptors: &Descriptors,
    found: BufferPool<Texture, AlwaysCompatible, Constructor>,
    first: PoolEntry<Texture, AlwaysCompatible>,
    second: PoolEntry<Texture, AlwaysCompatible>,
) where Constructor: Fn(&Descriptors, &AlwaysCompatible) -> Texture
    requires
        pools.len() == 4,
        found.wf(),
        found.spec_retained_capacity() == MAX_TEXTURES_PER_KEY,
        forall|i: int| 1 <= i < 4 ==> (#[trigger] pools[i]).contains_key(key.spec_words()),
        // The first request.
        pools[0].contains_key(key.spec_words()) ==> found == pools[0][key.spec_words()].value,
        buffer_pool::took(
            found,
            descriptors,
            AlwaysCompatible,
            first,
            pools[1][key.spec_words()].value,
        ),
        bounded_cache::accessed(
            pools[0],
            MAX_TEXTURE_POOL_KEYS as nat,
            key.spec_words(),
            pools[1][key.spec_words()],
            pools[1],
        ),
        // The texture goes back to its pool.
        buffer_pool::released(
            pools[1][key.spec_words()].value,
            first,
            pools[2][key.spec_words()].value,
        ),
        pools[2] == pools[1].insert(key.spec_words(), pools[2][key.spec_words()]),
        // The second request.
        buffer_pool::took(
            pools[2][key.spec_words()].value,
            descriptors,
            AlwaysCompatible,
            second,
            pools[3][key.spec_words()].value,
        ),
        bounded_cache::accessed(
            pools[2],
            MAX_TEXTURE_POOL_KEYS as nat,
            key.spec_words(),
            pools[3][key.spec_words()],
            pools[3],
        ),
    ensures
        buffer_pool::some_fits(AlwaysCompatible, pools[2][key.spec_words()].value.available()),
        second.item == (if found.available().len() <= 1 {
            first.item
        } else {
            found.available()[1].0
        }),
        found.available().len() <= 1 ==> pools[3][key.spec_words()].value.available()
            == pools[1][key.spec_words()].value.available(),
{
    let idle = found.available();
    let taken = pools[1][key.spec_words()].value.available();
    let held = pools[2][key.spec_words()].value.available();
    if idle.len() > 0 {
        buffer_pool::first_of_equals_is_taken(idle, 0);
        assert forall|i: int| 0 <= i < idle.len() implies (#[trigger] buffer_pool::is_best(
            AlwaysCompatible,
            idle,
            i,
        ) <==> i == 0) by {
            buffer_pool::first_of_equals_is_taken(idle, i);
        }
        assert(taken == buffer_pool::without(idle, 0));
    }
    buffer_pool::first_of_equals_is_taken(held, 0);
    assert forall|i: int| 0 <= i < held.len() implies (#[trigger] buffer_pool::is_best(
        AlwaysCompatible,
        held,
        i,
    ) <==> i == 0) by {
        buffer_pool::first_of_equals_is_taken(held, i);
    }
    if idle.len() <= 1 {
        assert(taken.len() == 0);
        assert(pools[3][key.spec_words()].value.available() =~= taken);
    }
}

/// How long a view transform is kept: requests for up to as many other
/// viewports as the cache has room for beside it leave it as it was, and with
/// one more it is gone.
pub proof fn kept_globals_outlive_other_viewports<Globals>(
    states: Seq<Map<(u128, u64), CacheEntry<Globals>>>,
    access: u64,
    viewports: Seq<PixelRegion>,
    viewport: PixelRegion,
)
    requires
        bounded_cache::is_history(
            states,
            MAX_GLOBALS as nat,
            access,
            viewports.map_values(|other: PixelRegion| other.spec_words()),
        ),
        states[0].dom().finite(),
        states[0].len() <= MAX_GLOBALS,
        bounded_cache::in_order(states[0], access),
        states[0].contains_key(viewport.spec_words()),
        states[0][viewport.spec_words()].last_access == access,
        viewports.no_duplicates(),
        !viewports.contains(viewport),
    ensures
        viewports.len() < MAX_GLOBALS ==> states.last().contains_key(viewport.spec_words())
            && states.last()[viewport.spec_words()] == states[0][viewport.spec_words()],
        viewports.len() >= MAX_GLOBALS ==> !states.last().contains_key(viewport.spec_words()),
{
    let words = viewports.map_values(|other: PixelRegion| other.spec_words());
    assert(words.no_duplicates()) by {
        assert forall|i: int, j: int| 0 <= i < words.len() && 0 <= j < words.len() && i
            != j implies words[i] != words[j] by {
            PixelRegion::words_identify(viewports[i], viewports[j]);
        }
    }
    if words.contains(viewport.spec_words()) {
        let i = words.index_of(viewport.spec_words());
        PixelRegion::words_identify(viewports[i], viewport);
        assert(viewports[i] == viewport);
    }
    words.unique_seq_to_set();
    bounded_cache::entry_outlives_other_accesses(
        states,
        MAX_GLOBALS as nat,
        access,
        words,
        viewport.spec_words(),
    );
}

/// A device is asked for a texture with the very values of its kind.
pub proof fn descriptor_has_the_values_of_its_kind(kind: TextureKey)
    ensures
        kind.spec_descriptor().size == kind.size,
        kind.spec_descriptor().usage == kind.usage,
        kind.spec_descriptor().format == kind.format,
        kind.spec_descriptor().sample_count == kind.sample_count,
{
}

} // verus!
