use frame_cache::bounded_cache::{pack, BoundedCache, MapKey};
use frame_cache::buffer_pool::{AlwaysCompatible, BufferDescription, BufferPool, PoolEntry};
use frame_cache::gpu::{Extent3d, TextureDescriptor, TextureFormat};
use frame_cache::region::PixelRegion;
use frame_cache::texture_pool::{
    TextureKey, TexturePool, MAX_GLOBALS, MAX_TEXTURES_PER_KEY, MAX_TEXTURE_POOL_KEYS,
};
use std::cell::{Cell, RefCell};
use std::rc::Rc;

#[test]
fn bounded_cache_evicts_least_recently_used_entry() {
    let mut cache: BoundedCache<u64, &str> = BoundedCache::new(2);
    cache.get_or_insert_with(1, || "one");
    cache.get_or_insert_with(2, || "two");
    cache.get_or_insert_with(3, || "three");

    assert!(!cache.contains_key(&1));
    assert!(cache.contains_key(&2));
    assert!(cache.contains_key(&3));
}

#[test]
fn bounded_cache_refreshes_existing_entry() {
    let mut cache: BoundedCache<u64, &str> = BoundedCache::new(2);
    cache.get_or_insert_with(1, || "one");
    cache.get_or_insert_with(2, || "two");
    cache.get_or_insert_with(1, || unreachable!());
    cache.get_or_insert_with(3, || "three");

    assert!(cache.contains_key(&1));
    assert!(!cache.contains_key(&2));
    assert!(cache.contains_key(&3));
}

#[test]
fn bounded_cache_keeps_what_is_written_to_a_value() {
    let mut cache: BoundedCache<u64, String> = BoundedCache::new(2);
    cache.get_or_insert_with(1, || String::from("a")).push('b');
    assert_eq!(cache.get_or_insert_with(1, || unreachable!()), "ab");
    cache.get_or_insert_with(1, || unreachable!()).push('c');
    assert_eq!(cache.get_or_insert_with(1, || unreachable!()), "abc");
}

#[test]
fn bounded_cache_of_one_entry_replaces_it() {
    let mut cache: BoundedCache<u64, u32> = BoundedCache::new(1);
    assert_eq!(*cache.get_or_insert_with(1, || 10), 10);
    assert_eq!(*cache.get_or_insert_with(2, || 20), 20);
    assert!(!cache.contains_key(&1));
    assert!(cache.contains_key(&2));
}

#[test]
fn words_tell_keys_apart() {
    assert_eq!(pack(1, 2, 3, 4), 0x0000_0004_0000_0003_0000_0002_0000_0001);
    assert_eq!(7u64.words(), (0, 7));
    let region = PixelRegion {
        x_min: 1,
        y_min: 2,
        x_max: 3,
        y_max: 4,
    };
    assert_eq!(
        region.words(),
        (0x0000_0004_0000_0003_0000_0002_0000_0001, 0)
    );
    let key = TextureKey {
        size: Extent3d {
            width: 1,
            height: 2,
            depth_or_array_layers: 3,
        },
        usage: 5,
        format: TextureFormat { id: 6 },
        sample_count: 4,
    };
    assert_eq!(
        key.words(),
        (
            0x0000_0004_0000_0003_0000_0002_0000_0001,
            0x0000_0006_0000_0005
        )
    );
}

#[test]
fn pool_entry_limits_returned_items() {
    let constructor = |_: &(), _: &AlwaysCompatible| 0;
    let mut pool = BufferPool::with_retained_capacity(constructor, 2);
    for item in 0..3 {
        PoolEntry {
            item,
            description: AlwaysCompatible,
        }
        .release(Some(&mut pool));
    }

    assert_eq!(pool.len(), 2);
}

struct DropFlag(Rc<Cell<bool>>);

impl Drop for DropFlag {
    fn drop(&mut self) {
        self.0.set(true);
    }
}

fn no_drop_flag(_: &(), _: &AlwaysCompatible) -> DropFlag {
    unreachable!()
}

#[test]
fn pool_entry_drops_item_after_pool_is_evicted() {
    let dropped = Rc::new(Cell::new(false));
    let mut pool = Some(BufferPool::with_retained_capacity(no_drop_flag, 1));
    let entry = PoolEntry {
        item: DropFlag(Rc::clone(&dropped)),
        description: AlwaysCompatible,
    };
    drop(pool.take());
    entry.release(pool.as_mut());

    assert!(dropped.get());
}

#[test]
fn pool_keeps_item_while_it_has_room() {
    let dropped = Rc::new(Cell::new(false));
    let mut pool = BufferPool::with_retained_capacity(no_drop_flag, 1);
    PoolEntry {
        item: DropFlag(Rc::clone(&dropped)),
        description: AlwaysCompatible,
    }
    .release(Some(&mut pool));
    assert!(!dropped.get());
    assert_eq!(pool.len(), 1);

    let entry = pool.take(&(), AlwaysCompatible);
    assert!(Rc::ptr_eq(&entry.0, &dropped));
    assert_eq!(pool.len(), 0);
}

#[derive(Clone, Debug)]
struct Size(u32);

impl BufferDescription for Size {
    type Cost = u32;

    fn spec_cost_to_use(&self, other: &Self) -> Option<u32> {
        self.cost_to_use(other)
    }

    fn cost_to_use(&self, other: &Self) -> Option<u32> {
        other.0.checked_sub(self.0)
    }
}

fn named(_: &(), size: &Size) -> String {
    format!("new {}", size.0)
}

#[test]
fn pool_takes_first_of_the_cheapest_items() {
    let mut pool = BufferPool::new(named);
    for (item, size) in [("a", 9), ("b", 5), ("c", 2), ("d", 5)] {
        PoolEntry {
            item: item.to_string(),
            description: Size(size),
        }
        .release(Some(&mut pool));
    }
    let best = pool.take(&(), Size(4));
    assert_eq!(*best, "b");
    assert_eq!(best.description.0, 5);
    // The last item has moved to the place of the one that was taken.
    assert_eq!(*pool.take(&(), Size(4)), "d");
    assert_eq!(*pool.take(&(), Size(4)), "a");
    assert_eq!(pool.len(), 1);
}

#[test]
fn pool_makes_new_item_where_none_fits() {
    let mut pool = BufferPool::new(named);
    PoolEntry {
        item: String::from("small"),
        description: Size(3),
    }
    .release(Some(&mut pool));
    let entry = pool.take(&(), Size(4));
    assert_eq!(*entry, "new 4");
    assert_eq!(entry.description.0, 4);
    assert_eq!(pool.len(), 1);
}

#[test]
fn items_that_always_fit_are_taken_from_the_front() {
    let mut pool = BufferPool::new(|_: &(), _: &AlwaysCompatible| 0);
    for item in [1, 2, 3] {
        PoolEntry {
            item,
            description: AlwaysCompatible,
        }
        .release(Some(&mut pool));
    }
    assert_eq!(*pool.take(&(), AlwaysCompatible), 1);
    assert_eq!(*pool.take(&(), AlwaysCompatible), 3);
    assert_eq!(*pool.take(&(), AlwaysCompatible), 2);
    assert_eq!(*pool.take(&(), AlwaysCompatible), 0);
}

#[test]
fn release_undoes_take() {
    let mut pool = BufferPool::with_retained_capacity(|_: &(), _: &AlwaysCompatible| 0, 2);
    for item in [1, 2] {
        PoolEntry {
            item,
            description: AlwaysCompatible,
        }
        .release(Some(&mut pool));
    }
    let entry = pool.take(&(), AlwaysCompatible);
    entry.release(Some(&mut pool));
    assert_eq!(pool.len(), 2);
    let mut items = vec![
        *pool.take(&(), AlwaysCompatible),
        *pool.take(&(), AlwaysCompatible),
    ];
    items.sort();
    assert_eq!(items, vec![1, 2]);
}

type MadePool = Rc<RefCell<(TextureDescriptor, usize, u32)>>;

fn request(pool: &mut TexturePool<MadePool, u32>, width: u32) -> (MadePool, u32) {
    pool.get_texture(
        Extent3d {
            width,
            height: 16,
            depth_or_array_layers: 1,
        },
        20,
        TextureFormat { id: 3 },
        4,
        |descriptor, retained| Rc::new(RefCell::new((descriptor, retained, 0))),
        |made: &mut MadePool| {
            made.borrow_mut().2 += 1;
            let taken = made.borrow().2;
            (Rc::clone(made), taken)
        },
    )
}

#[test]
fn textures_of_one_kind_come_from_one_pool() {
    let mut pool = TexturePool::new();
    let (first, taken) = request(&mut pool, 8);
    assert_eq!(taken, 1);
    let (second, taken) = request(&mut pool, 8);
    assert_eq!(taken, 2);
    assert!(Rc::ptr_eq(&first, &second));
    let (other, taken) = request(&mut pool, 9);
    assert_eq!(taken, 1);
    assert!(!Rc::ptr_eq(&first, &other));
    let made = first.borrow();
    assert_eq!(
        made.0,
        TextureDescriptor {
            size: Extent3d {
                width: 8,
                height: 16,
                depth_or_array_layers: 1
            },
            sample_count: 4,
            format: TextureFormat { id: 3 },
            usage: 20,
        }
    );
    assert_eq!(made.1, MAX_TEXTURES_PER_KEY);
    assert_eq!(MAX_TEXTURES_PER_KEY, 2);
}

#[test]
fn texture_kinds_are_bounded() {
    let mut pool = TexturePool::default();
    let kinds = MAX_TEXTURE_POOL_KEYS as u32;
    assert_eq!(kinds, 256);
    for width in 0..kinds {
        request(&mut pool, width);
    }
    assert_eq!(request(&mut pool, 0).1, 2);
    // One kind more lets go of the one used longest ago.
    assert_eq!(request(&mut pool, kinds).1, 1);
    assert_eq!(request(&mut pool, 0).1, 3);
    assert_eq!(request(&mut pool, 1).1, 1);
}

#[test]
fn globals_are_made_once_for_each_viewport() {
    let mut pool: TexturePool<MadePool, u32> = TexturePool::new();
    let viewport = |x_max| PixelRegion {
        x_min: 0,
        y_min: 0,
        x_max,
        y_max: 1,
    };
    assert_eq!(pool.get_globals(viewport(5), |made| made.x_max), 5);
    assert_eq!(pool.get_globals(viewport(5), |_| 0), 5);
    assert_eq!(pool.get_globals(viewport(6), |made| made.x_max), 6);
}

#[test]
fn globals_outlive_as_many_other_viewports_as_fit() {
    let viewport = |x_max| PixelRegion {
        x_min: 0,
        y_min: 0,
        x_max,
        y_max: 1,
    };
    let others = MAX_GLOBALS as u32;
    assert_eq!(others, 256);
    for (count, kept) in [(others - 1, true), (others, false)] {
        let mut pool: TexturePool<MadePool, u32> = TexturePool::new();
        assert_eq!(pool.get_globals(viewport(1000), |made| made.x_max), 1000);
        for x_max in 0..count {
            assert_eq!(pool.get_globals(viewport(x_max), |made| made.x_max), x_max);
            // Viewports that were asked for before do not count again.
            assert_eq!(pool.get_globals(viewport(x_max), |_| unreachable!()), x_max);
        }
        let again = pool.get_globals(viewport(1000), |_| 7);
        assert_eq!(again, if kept { 1000 } else { 7 });
    }
}

type Shared = Rc<RefCell<BufferPool<u32, AlwaysCompatible, Box<dyn Fn(&(), &AlwaysCompatible) -> u32>>>>;

#[test]
fn returned_texture_is_handed_out_again() {
    let mut pool: TexturePool<Shared, ()> = TexturePool::new();
    let made = Rc::new(Cell::new(0));
    let mut request = |width: u32| {
        let counter = Rc::clone(&made);
        pool.get_texture(
            Extent3d {
                width,
                height: 1,
                depth_or_array_layers: 1,
            },
            20,
            TextureFormat { id: 3 },
            4,
            move |descriptor, retained| {
                let constructor = move |_: &(), _: &AlwaysCompatible| {
                    counter.set(counter.get() + 1);
                    descriptor.size.width * 100 + counter.get()
                };
                Rc::new(RefCell::new(BufferPool::with_retained_capacity(
                    Box::new(constructor) as Box<dyn Fn(&(), &AlwaysCompatible) -> u32>,
                    retained,
                )))
            },
            |shared: &mut Shared| {
                let entry = shared.borrow_mut().take(&(), AlwaysCompatible);
                (entry, Rc::clone(shared))
            },
        )
    };
    let (first, home) = request(8);
    assert_eq!(*first, 801);
    first.release(Some(&mut *home.borrow_mut()));
    // Another kind does not get it, the same kind does.
    let (other, _) = request(9);
    assert_eq!(*other, 902);
    let (second, _) = request(8);
    assert_eq!(*second, 801);
    // With others lying unused, the one behind the first comes next.
    let (third, _) = request(8);
    let (fourth, _) = request(8);
    assert_eq!((*third, *fourth), (803, 804));
    second.release(Some(&mut *home.borrow_mut()));
    third.release(Some(&mut *home.borrow_mut()));
    fourth.release(Some(&mut *home.borrow_mut()));
    assert_eq!(home.borrow().len(), MAX_TEXTURES_PER_KEY);
    let (fifth, _) = request(8);
    assert_eq!(*fifth, 801);
    fifth.release(Some(&mut *home.borrow_mut()));
    let (sixth, _) = request(8);
    assert_eq!(*sixth, 803);
    assert_eq!(made.get(), 4);
}
