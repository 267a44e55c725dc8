//! Pools of reusable buffers: what is given back can be taken again by whoever
//! asks for something that it fits.

use std::cmp::Ordering;
use std::fmt::Debug;
use std::ops::Deref;
use vstd::prelude::*;
use vstd::std_specs::cmp::{PartialEqSpecImpl, PartialOrdSpec, PartialOrdSpecImpl};

verus! {

/// What a buffer has to be like.
pub trait BufferDescription: Clone + Debug {
    type Cost: Ord;

    spec fn spec_cost_to_use(&self, other: &Self) -> Option<Self::Cost>;

    /// If the potential buffer represented by this description (`self`)
    /// fits another existing buffer and its description (`other`),
    /// return the cost to use that buffer instead of making a new one.
    ///
    /// Cost is an arbitrary unit, but lower is better.
    /// None means that the other buffer cannot be used in place of this one.
    fn cost_to_use(&self, other: &Self) -> (cost: Option<Self::Cost>)
        ensures
            cost == self.spec_cost_to_use(other),
    ;
}

/// The cost of a buffer that is as good as any other.
#[derive(Clone, Copy, Debug, Eq, Ord)]
pub struct NoCost;

impl PartialEq for NoCost {
    fn eq(&self, _other: &Self) -> (equal: bool) {
        true
    }
}

impl PartialEqSpecImpl for NoCost {
    open spec fn obeys_eq_spec() -> bool {
        true
    }

    open spec fn eq_spec(&self, _other: &Self) -> bool {
        true
    }
}

impl PartialOrd for NoCost {
    fn partial_cmp(&self, _other: &Self) -> (order: Option<Ordering>) {
        Some(Ordering::Equal)
    }
}

impl PartialOrdSpecImpl for NoCost {
    open spec fn obeys_partial_cmp_spec() -> bool {
        true
    }

    open spec fn partial_cmp_spec(&self, _other: &Self) -> Option<Ordering> {
        Some(Ordering::Equal)
    }
}

/// The description of buffers that can all stand for each other.
#[derive(Clone, Debug)]
pub struct AlwaysCompatible;

impl BufferDescription for AlwaysCompatible {
    type Cost = NoCost;

    open spec fn spec_cost_to_use(&self, _other: &Self) -> Option<NoCost> {
        Some(NoCost)
    }

    fn cost_to_use(&self, _other: &Self) -> (cost: Option<NoCost>) {
        Some(NoCost)
    }
}

/// Whether `a` is the higher cost.
pub open spec fn costs_more<Cost: Ord>(a: Cost, b: Cost) -> bool {
    a.partial_cmp_spec(&b) == Some(Ordering::Greater)
}

/// Whether the comparison of costs is an order: `>` compares as `costs_more`
/// says, no cost is above itself, what is above is transitive, and every third
/// cost lies below the higher or above the lower of two.
pub open spec fn is_ordered<Cost: Ord>() -> bool {
    &&& Cost::obeys_partial_cmp_spec()
    &&& forall|a: Cost| !(#[trigger] costs_more(a, a))
    &&& forall|a: Cost, b: Cost, c: Cost| #[trigger]
        costs_more(a, b) && #[trigger] costs_more(b, c) ==> costs_more(a, c)
    &&& forall|a: Cost, b: Cost, c: Cost| #[trigger]
        costs_more(a, c) ==> #[trigger] costs_more(a, b) || costs_more(b, c)
}

/// What it costs to use the item at `i` for `description`.
pub open spec fn cost_at<Type, Description: BufferDescription>(
    description: Description,
    available: Seq<(Type, Description)>,
    i: int,
) -> Option<Description::Cost> {
    description.spec_cost_to_use(&available[i].1)
}

/// Whether some item fits `description`.
pub open spec fn some_fits<Type, Description: BufferDescription>(
    description: Description,
    available: Seq<(Type, Description)>,
) -> bool {
    exists|i: int| 0 <= i < available.len() && #[trigger] cost_at(description, available, i) is Some
}

/// Whether the item at `i` is the first of those that fit at the least cost,
/// among the first `count`.
pub open spec fn is_best_of<Type, Description: BufferDescription>(
    description: Description,
    available: Seq<(Type, Description)>,
    count: int,
    i: int,
) -> bool {
    &&& 0 <= i < count
    &&& cost_at(description, available, i) is Some
    &&& forall|j: int|
        0 <= j < count && (#[trigger] cost_at(description, available, j)) is Some ==> !costs_more(
            cost_at(description, available, i).unwrap(),
            cost_at(description, available, j).unwrap(),
        )
    &&& forall|j: int|
        0 <= j < i && (#[trigger] cost_at(description, available, j)) is Some ==> costs_more(
            cost_at(description, available, j).unwrap(),
            cost_at(description, available, i).unwrap(),
        )
}

/// Whether the item at `i` is the first of those that fit at the least cost.
pub open spec fn is_best<Type, Description: BufferDescription>(
    description: Description,
    available: Seq<(Type, Description)>,
    i: int,
) -> bool {
    is_best_of(description, available, available.len() as int, i)
}

/// What is left when the item at `i` is taken: the last one moves to its place.
pub open spec fn without<Item>(available: Seq<Item>, i: int) -> Seq<Item> {
    available.update(i, available.last()).drop_last()
}

/// What is available once `item` has been given back: the item is kept if the
/// pool retains fewer than it may.
pub open spec fn with_returned<Item>(available: Seq<Item>, retained_capacity: nat, item: Item) -> Seq<
    Item,
> {
    if available.len() < retained_capacity {
        available.push(item)
    } else {
        available
    }
}

/// Buffers that nobody uses at the moment, with what makes new ones.
pub struct BufferPool<Type, Description: BufferDescription, Constructor> {
    available: Vec<(Type, Description)>,
    retained_capacity: usize,
    constructor: Constructor,
}

impl<Type, Description: BufferDescription, Constructor> BufferPool<Type, Description, Constructor> {
    pub closed spec fn available(&self) -> Seq<(Type, Description)> {
        self.available@
    }

    pub closed spec fn spec_retained_capacity(&self) -> nat {
        self.retained_capacity as nat
    }

    pub closed spec fn constructor(&self) -> Constructor {
        self.constructor
    }

    pub open spec fn wf(&self) -> bool {
        &&& self.available().len() <= self.spec_retained_capacity()
        &&& self.spec_retained_capacity() <= usize::MAX
    }

    /// An empty pool that keeps all that it is given back.
    pub fn new(constructor: Constructor) -> (pool: Self)
        ensures
            pool.wf(),
            pool.available() == Seq::<(Type, Description)>::empty(),
            pool.spec_retained_capacity() == usize::MAX,
            pool.constructor() == constructor,
    {
        Self::with_retained_capacity(constructor, usize::MAX)
    }

    /// An empty pool that keeps at most `retained_capacity` items.
    pub fn with_retained_capacity(constructor: Constructor, retained_capacity: usize) -> (pool: Self)
        ensures
            pool.wf(),
            pool.available() == Seq::<(Type, Description)>::empty(),
            pool.spec_retained_capacity() == retained_capacity,
            pool.constructor() == constructor,
    {
        BufferPool { available: Vec::new(), retained_capacity, constructor }
    }

    /// The number of items that nobody uses.
    pub fn len(&self) -> (count: usize)
        ensures
            count == self.available().len(),
    {
        self.available.len()
    }

    /// The place of the item to use for `description`: the first of those that
    /// fit at the least cost.
    fn best(&self, description: &Description) -> (best: Option<usize>)
        ensures
            best is Some == some_fits(*description, self.available()),
            best matches Some(i) ==> {
                &&& i < self.available().len()
                &&& cost_at(*description, self.available(), i as int) is Some
                &&& is_ordered::<Description::Cost>() ==> is_best(
                    *description,
                    self.available(),
                    i as int,
                )
            },
    {
        let mut best: Option<(Description::Cost, usize)> = None;
        let mut i: usize = 0;
        while i < self.available.len()
            invariant
                i <= self.available@.len(),
                best is None ==> forall|j: int|
                    0 <= j < i ==> #[trigger] cost_at(*description, self.available@, j) is None,
                best matches Some(found) ==> {
                    &&& found.1 < i
                    &&& cost_at(*description, self.available@, found.1 as int) == Some(found.0)
                    &&& is_ordered::<Description::Cost>() ==> is_best_of(
                        *description,
                        self.available@,
                        i as int,
                        found.1 as int,
                    )
                },
            decreases self.available.len() - i,
        {
            let ghost earlier = best;
            if let Some(cost) = description.cost_to_use(&self.available[i].1) {
                let better = match &best {
                    Some(found) => found.0 > cost,
                    None => true,
                };
                if better {
                    best = Some((cost, i));
                }
                proof {
                    assert(cost_at(*description, self.available@, i as int) == Some(cost));
                    if is_ordered::<Description::Cost>() {
                        assert(!costs_more(cost, cost));
                        if let Some(found) = earlier {
                            assert(better == costs_more(found.0, cost));
                        }
                    }
                }
            }
            i += 1;
        }
        match best {
            Some((_, i)) => Some(i),
            None => None,
        }
    }

    /// An item for `description`: an available one that fits, the first of
    /// those at the least cost, or a new one where none fits.
    pub fn take<Descriptors>(&mut self, descriptors: &Descriptors, description: Description) -> (entry:
        PoolEntry<Type, Description>) where Constructor: Fn(&Descriptors, &Description) -> Type
        requires
            old(self).wf(),
            !some_fits(description, old(self).available()) ==> call_requires(
                old(self).constructor(),
                (descriptors, &description),
            ),
        ensures
            final(self).wf(),
            took(*old(self), descriptors, description, entry, *final(self)),
    {
        match self.best(&description) {
            Some(best) => {
                assert(cost_at(description, self.available@, best as int) is Some);
                let (item, description) = self.available.swap_remove(best);
                PoolEntry { item, description }
            },
            None => {
                let item = (self.constructor)(descriptors, &description);
                PoolEntry { item, description }
            },
        }
    }
}

/// Whether taking an item for `description` from the pool `before` gives
/// `entry` and leaves the pool `after`: the item is an available one that fits,
/// the first of those at the least cost, or a new one where none fits.
pub open spec fn took<Type, Description: BufferDescription, Constructor, Descriptors>(
    before: BufferPool<Type, Description, Constructor>,
    descriptors: &Descriptors,
    description: Description,
    entry: PoolEntry<Type, Description>,
    after: BufferPool<Type, Description, Constructor>,
) -> bool where Constructor: Fn(&Descriptors, &Description) -> Type {
    &&& after.spec_retained_capacity() == before.spec_retained_capacity()
    &&& after.constructor() == before.constructor()
    &&& if some_fits(description, before.available()) {
        exists|i: int|
            {
                &&& 0 <= i < before.available().len()
                &&& (#[trigger] cost_at(description, before.available(), i)) is Some
                &&& is_ordered::<Description::Cost>() ==> is_best(
                    description,
                    before.available(),
                    i,
                )
                &&& (entry.item, entry.description) == before.available()[i]
                &&& after.available() == without(before.available(), i)
            }
    } else {
        &&& after.available() == before.available()
        &&& entry.description == description
        &&& call_ensures(before.constructor(), (descriptors, &description), entry.item)
    }
}

/// Whether giving `entry` back to the pool `before` leaves the pool `after`.
pub open spec fn released<Type, Description: BufferDescription, Constructor>(
    before: BufferPool<Type, Description, Constructor>,
    entry: PoolEntry<Type, Description>,
    after: BufferPool<Type, Description, Constructor>,
) -> bool {
    &&& after.spec_retained_capacity() == before.spec_retained_capacity()
    &&& after.constructor() == before.constructor()
    &&& after.available() == with_returned(
        before.available(),
        before.spec_retained_capacity(),
        (entry.item, entry.description),
    )
}

/// An item taken from a pool, with the description it was made for.
#[derive(Debug)]
pub struct PoolEntry<Type, Description: BufferDescription> {
    pub item: Type,
    pub description: Description,
}

impl<Type, Description: BufferDescription> PoolEntry<Type, Description> {
    /// Gives the item back to its pool, which keeps it if it retains fewer than
    /// it may. Without a pool, or where the pool is full, the item is dropped.
    pub fn release<Constructor>(
        self,
        pool: Option<&mut BufferPool<Type, Description, Constructor>>,
    )
        requires
            pool matches Some(pool) ==> pool.wf(),
        ensures
            pool matches Some(pool) ==> final(pool).wf() && released(*pool, self, *final(pool)),
    {
        if let Some(pool) = pool {
            if pool.available.len() < pool.retained_capacity {
                pool.available.push((self.item, self.description));
            }
        }
    }
}

impl<Type, Description: BufferDescription> Deref for PoolEntry<Type, Description> {
    type Target = Type;

    fn deref(&self) -> (item: &Type)
        ensures
            *item == self.item,
    {
        &self.item
    }
}

/// Where every item fits at the same cost, the first available one is taken.
pub proof fn first_of_equals_is_taken<Type>(
    available: Seq<(Type, AlwaysCompatible)>,
    i: int,
)
    requires
        0 <= i < available.len(),
    ensures
        is_ordered::<NoCost>(),
        some_fits(AlwaysCompatible, available),
        is_best(AlwaysCompatible, available, i) <==> i == 0,
{
    assert(cost_at(AlwaysCompatible, available, 0) is Some);
}

/// The choice of an item is settled by the costs: no two places are best.
pub proof fn best_is_unique<Type, Description: BufferDescription>(
    description: Description,
    available: Seq<(Type, Description)>,
    i: int,
    j: int,
)
    requires
        is_best(description, available, i),
        is_best(description, available, j),
    ensures
        i == j,
{
    assert(cost_at(description, available, i) is Some);
    assert(cost_at(description, available, j) is Some);
}

/// A pool that still has room offers what it was given back to everyone whom
/// it fits.
pub proof fn returned_item_can_be_taken<Type, Description: BufferDescription>(
    available: Seq<(Type, Description)>,
    retained_capacity: nat,
    item: (Type, Description),
    description: Description,
)
    requires
        available.len() < retained_capacity,
        description.spec_cost_to_use(&item.1) is Some,
    ensures
        some_fits(description, with_returned(available, retained_capacity, item)),
{
    let after = with_returned(available, retained_capacity, item);
    assert(cost_at(description, after, available.len() as int) is Some);
}

/// However much is given back, a pool keeps no more than its capacity, and
/// below that it keeps everything.
pub proof fn returns_stop_at_capacity<Item>(
    available: Seq<Item>,
    retained_capacity: nat,
    item: Item,
)
    requires
        available.len() <= retained_capacity,
    ensures
        with_returned(available, retained_capacity, item).len() == if available.len()
            == retained_capacity {
            retained_capacity
        } else {
            available.len() + 1
        },
        available.is_prefix_of(with_returned(available, retained_capacity, item)),
{
}

/// Taking an item removes that item and no other.
pub proof fn taking_removes_one_item<Item>(available: Seq<Item>, i: int)
    requires
        0 <= i < available.len(),
    ensures
        without(available, i).to_multiset() == available.to_multiset().remove(available[i]),
{
    broadcast use vstd::seq_lib::group_to_multiset_ensures;

    let last = available.last();
    let front = available.drop_last();
    assert(available == front.push(last));
    if i == available.len() - 1 {
        assert(without(available, i) == front);
        assert(front.to_multiset().insert(last).remove(last) =~= front.to_multiset());
    } else {
        assert(without(available, i) == front.update(i, last));
        vstd::seq_lib::to_multiset_update(front, i, last);
        assert(front.to_multiset().contains(front[i]));
        assert(front.to_multiset().insert(last).remove(front[i]) =~= front.to_multiset().remove(
            front[i],
        ).insert(last));
    }
}

/// Giving back what was taken leaves the pool with the same items, in whatever
/// order.
pub proof fn release_undoes_take<Item>(
    available: Seq<Item>,
    retained_capacity: nat,
    i: int,
)
    requires
        available.len() <= retained_capacity,
        0 <= i < available.len(),
    ensures
        with_returned(without(available, i), retained_capacity, available[i]).to_multiset()
            == available.to_multiset(),
{
    broadcast use vstd::seq_lib::group_to_multiset_ensures;

    taking_removes_one_item(available, i);
    assert(available.to_multiset().contains(available[i]));
    assert(available.to_multiset().remove(available[i]).insert(available[i])
        =~= available.to_multiset());
}

/// The best item fits, no other one that fits costs less, and those before it that fit cost more.
pub proof fn best_item_costs_least<Type, Description: BufferDescription>(
    description: Description,
    available: Seq<(Type, Description)>,
    i: int,
    j: int,
)
    requires
        is_best(description, available, i),
        0 <= j < available.len(),
        description.spec_cost_to_use(&available[j].1) is Some,
    ensures
        0 <= i < available.len(),
        description.spec_cost_to_use(&available[i].1) is Some,
        ({
            let best = description.spec_cost_to_use(&available[i].1).unwrap();
            let other = description.spec_cost_to_use(&available[j].1).unwrap();
            &&& best.partial_cmp_spec(&other) != Some(Ordering::Greater)
            &&& j < i ==> other.partial_cmp_spec(&best) == Some(Ordering::Greater)
        }),
{
    assert(cost_at(description, available, j) is Some);
}

/// Numbers are ordered costs, and so is no cost at all.
pub proof fn numbers_are_ordered_costs()
    ensures
        is_ordered::<u32>(),
        is_ordered::<u64>(),
        is_ordered::<usize>(),
        is_ordered::<NoCost>(),
{
}

/// The last item fills the gap that a taken one leaves; all others keep their places.
pub proof fn last_item_fills_the_gap<Item>(available: Seq<Item>, i: int, j: int)
    requires
        0 <= i < available.len(),
        0 <= j < available.len() - 1,
    ensures
        without(available, i).len() == available.len() - 1,
        without(available, i)[j] == if j == i {
            available[available.len() - 1]
        } else {
            available[j]
        },
{
}

/// What is given back to a pool that has room lies behind all that it has; a full pool stays as it
/// is.
pub proof fn returned_item_lies_last<Item>(
    available: Seq<Item>,
    retained_capacity: nat,
    item: Item,
)
    ensures
        available.len() < retained_capacity ==> with_returned(available, retained_capacity, item)
            == available + seq![item],
        available.len() >= retained_capacity ==> with_returned(available, retained_capacity, item)
            == available,
{
    assert(available.push(item) =~= available + seq![item]);
}

/// Taking gives an item that fits: if some available one does, one of those, with its own
/// description, which then is gone and no other with it. Otherwise a new one for the description,
/// and the pool stays as it is.
pub proof fn taken_item_fits<Type, Description: BufferDescription, Constructor, Descriptors>(
    before: BufferPool<Type, Description, Constructor>,
    descriptors: &Descriptors,
    description: Description,
    entry: PoolEntry<Type, Description>,
    after: BufferPool<Type, Description, Constructor>,
) where Constructor: Fn(&Descriptors, &Description) -> Type
    requires
        took(before, descriptors, description, entry, after),
    ensures
        ({
            let fitting = exists|i: int|
                0 <= i < before.available().len() && description.spec_cost_to_use(
                    &(#[trigger] before.available()[i]).1,
                ) is Some;
            &&& fitting ==> {
                &&& before.available().contains((entry.item, entry.description))
                &&& description.spec_cost_to_use(&entry.description) is Some
                &&& after.available().to_multiset() == before.available().to_multiset().remove(
                    (entry.item, entry.description),
                )
            }
            &&& !fitting ==> {
                &&& call_ensures(before.constructor(), (descriptors, &description), entry.item)
                &&& entry.description == description
                &&& after.available() == before.available()
            }
        }),
        after.spec_retained_capacity() == before.spec_retained_capacity(),
        after.constructor() == before.constructor(),
{
    let offered = before.available();
    if some_fits(description, offered) {
        let i = choose|i: int|
            {
                &&& 0 <= i < offered.len()
                &&& (#[trigger] cost_at(description, offered, i)) is Some
                &&& is_ordered::<Description::Cost>() ==> is_best(description, offered, i)
                &&& (entry.item, entry.description) == offered[i]
                &&& after.available() == without(offered, i)
            };
        assert(offered[i] == (entry.item, entry.description));
        taking_removes_one_item(offered, i);
    } else {
        assert forall|i: int| 0 <= i < offered.len() implies !(description.spec_cost_to_use(
            &(#[trigger] offered[i]).1,
        ) is Some) by {
            assert(!(cost_at(description, offered, i) is Some));
        }
    }
}

} // verus!
