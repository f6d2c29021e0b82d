//! The arena: a fixed number of slots, an intrusive free list threaded
//! through the unused ones, and one generation counter shared by all slots.
use vstd::prelude::*;

use crate::index::{lemma_counter_eq, lemma_handle_counter, lemma_handle_eq, GenerationCounter, GenerationIndex, SlotIndex};

verus! {

/// One unit of storage: either unused and linked to the next unused slot,
/// or holding a value stamped with the generation it was inserted under.
enum Slot<T> {
    Free { next_free: Option<SlotIndex> },
    Occupied { generation: GenerationCounter, value: T },
}

/// A pool of `ELEMENTS_COUNT` slots holding values of one type.
///
/// Its contents are seen as a finite map from the handles that are live to
/// the values they name. A handle is live exactly when its slot holds a
/// value stamped with the handle's generation.
///
/// The capacity is fixed when the type is chosen; the slot storage is made
/// once, by `new`, and never grows or shrinks.
pub struct GenerationalArena<T, const ELEMENTS_COUNT: usize> {
    items: Vec<Slot<T>>,
    free_list_head: Option<SlotIndex>,
    generation: GenerationCounter,
    len: usize,
    /// The free list, head first.
    free: Ghost<Seq<SlotIndex>>,
    /// The live handles.
    live: Ghost<Set<GenerationIndex>>,
}

impl<T, const ELEMENTS_COUNT: usize> View for GenerationalArena<T, ELEMENTS_COUNT> {
    type V = Map<GenerationIndex, T>;

    closed spec fn view(&self) -> Map<GenerationIndex, T> {
        Map::new(
            |h: GenerationIndex| self.live@.contains(h),
            |h: GenerationIndex| slot_value(self.items@[h.slot() as int]),
        )
    }
}

/// Does `h` name the value held at its slot in `items`?
spec fn slot_holds<T>(items: Seq<Slot<T>>, h: GenerationIndex) -> bool {
    &&& h.slot() < items.len()
    &&& items[h.slot() as int] matches Slot::Occupied { generation, .. }
    &&& generation.value() == h.gen()
}

/// The value an occupied slot holds.
spec fn slot_value<T>(s: Slot<T>) -> T
    recommends
        s is Occupied,
{
    match s {
        Slot::Occupied { value, .. } => value,
        Slot::Free { .. } => arbitrary(),
    }
}

/// The link stored in a free slot.
spec fn link_of(free: Seq<SlotIndex>, k: int) -> Option<SlotIndex> {
    if k + 1 < free.len() {
        Some(free[k + 1])
    } else {
        None
    }
}

impl<T, const ELEMENTS_COUNT: usize> GenerationalArena<T, ELEMENTS_COUNT> {
    /// The generation that the next insertion is stamped with.
    pub closed spec fn current_generation(&self) -> nat {
        self.generation.value()
    }

    /// The free slots in the order insertions will take them.
    pub closed spec fn free_slots(&self) -> Seq<SlotIndex> {
        self.free@
    }

    /// `h` was live once and can never be live again: its value was removed
    /// and every later insertion carries a newer generation.
    pub open spec fn retired(&self, h: GenerationIndex) -> bool {
        &&& h.gen() < self.current_generation()
        &&& !self@.contains_key(h)
    }

    /// `next` comes from `self` by operations of the arena: the generation
    /// never goes back, and a handle that became live was stamped with a
    /// generation no older than `self`'s.
    pub open spec fn evolves_to(&self, next: &Self) -> bool {
        &&& self.current_generation() <= next.current_generation()
        &&& forall|k: GenerationIndex|
            #[trigger] next@.contains_key(k) && !self@.contains_key(k)
                ==> self.current_generation() <= k.gen()
    }

    /// The arena's internal invariant.
    pub closed spec fn wf(&self) -> bool {
        let items = self.items@;
        let free = self.free@;
        let live = self.live@;
        &&& ELEMENTS_COUNT > 0
        &&& items.len() == ELEMENTS_COUNT
        &&& self.generation.wf()
        // the free list: a chain of distinct free slots, in list order
        &&& free.no_duplicates()
        &&& self.free_list_head == (if free.len() > 0 { Some(free[0]) } else { None::<SlotIndex> })
        &&& forall|k: int|
            0 <= k < free.len() ==> {
                &&& #[trigger] free[k] < ELEMENTS_COUNT
                &&& items[free[k] as int] == (Slot::<T>::Free { next_free: link_of(free, k) })
            }
        // the live count
        &&& self.len + free.len() == ELEMENTS_COUNT
        &&& live.finite()
        &&& live.len() == self.len
        // the live handles are those whose slot holds a value of their generation
        &&& forall|h: GenerationIndex| #[trigger] live.contains(h) <==> slot_holds(items, h)
        // no slot is stamped with a generation that has not been reached
        &&& forall|h: GenerationIndex|
            #[trigger] live.contains(h) ==> 1 <= h.gen() <= self.generation.value()
    }

    /// The handles of the view are the live set, and the live count is its size.
    proof fn lemma_view_dom(&self)
        requires
            self.wf(),
        ensures
            self@.dom() == self.live@,
            self@.len() == self.len,
    {
        assert(self@.dom() =~= self.live@);
    }

    /// Stores `value` in a free slot and returns the handle that names it,
    /// stamped with the current generation. On a full arena the value comes
    /// back unchanged and nothing changes.
    pub fn try_insert(&mut self, value: T) -> (r: Result<GenerationIndex, T>)
        requires
            old(self).wf(),
        ensures
            final(self).wf(),
            old(self).evolves_to(final(self)),
            final(self).current_generation() == old(self).current_generation(),
            r is Err <==> old(self)@.len() == ELEMENTS_COUNT,
            r is Err <==> old(self).free_slots().len() == 0,
            match r {
                Ok(h) => {
                    &&& !old(self)@.contains_key(h)
                    &&& h.slot() < ELEMENTS_COUNT
                    &&& h.slot() == old(self).free_slots()[0]
                    &&& final(self).free_slots() == old(self).free_slots().drop_first()
                    &&& h.gen() == old(self).current_generation()
                    &&& forall|k: GenerationIndex| #[trigger]
                        old(self)@.contains_key(k) ==> k.slot() != h.slot()
                    &&& final(self)@ == old(self)@.insert(h, value)
                    &&& final(self)@.contains_key(h)
                    &&& final(self)@[h] == value
                    &&& final(self)@.len() == old(self)@.len() + 1
                },
                Err(v) => {
                    &&& v == value
                    &&& *final(self) == *old(self)
                },
            },
    {
        proof {
            self.lemma_view_dom();
        }
        match self.free_list_head {
            None => Err(value),
            Some(i) => {
                let ghost old_self = *self;
                let ghost free = self.free@;
                assert(free[0] == i);
                let next_free = match &self.items[i] {
                    Slot::Free { next_free } => *next_free,
                    Slot::Occupied { .. } => {
                        // the head of the free list is a free slot
                        proof {
                            assert(false);
                        }
                        None
                    },
                };
                self.free_list_head = next_free;
                self.len = self.len + 1;
                let gen_index = GenerationIndex::from_parts(i, self.generation);
                let ghost v = value;
                self.items.set(i, Slot::Occupied { generation: self.generation, value });
                proof {
                    assert(!self.live@.contains(gen_index));
                    self.free = Ghost(free.drop_first());
                    self.live = Ghost(self.live@.insert(gen_index));
                    assert forall|k: int| 0 <= k < self.free@.len() implies link_of(self.free@, k)
                        == link_of(free, k + 1) && self.free@[k] != i by {
                        assert(free[k + 1] != free[0]);
                    }
                    assert forall|h: GenerationIndex| #[trigger]
                        self.live@.contains(h) <==> slot_holds(self.items@, h) by {
                        if h.slot() == i {
                            if slot_holds(self.items@, h) {
                                lemma_handle_eq(h, gen_index);
                            }
                        }
                    }
                    assert forall|k: GenerationIndex| #[trigger]
                        old_self@.contains_key(k) implies k.slot() != gen_index.slot() by {
                        assert(slot_holds(old_self.items@, k));
                    }
                    assert(self@ =~= old_self@.insert(gen_index, v));
                    self.lemma_view_dom();
                }
                Ok(gen_index)
            },
        }
    }

    /// Removes the value that `generation_index` names and returns it, and
    /// advances the generation so that no handle issued so far for that slot
    /// is live again. A handle that is not live gives `None` and changes
    /// nothing. The handle's position must lie inside the arena, and the
    /// generation counter must not be at its end when a value is removed.
    pub fn remove(&mut self, generation_index: GenerationIndex) -> (r: Option<T>)
        requires
            old(self).wf(),
            generation_index.slot() < ELEMENTS_COUNT,
            old(self)@.contains_key(generation_index) ==> old(self).current_generation()
                < usize::MAX,
        ensures
            final(self).wf(),
            old(self).evolves_to(final(self)),
            r is Some <==> old(self)@.contains_key(generation_index),
            match r {
                Some(v) => {
                    &&& v == old(self)@[generation_index]
                    &&& final(self)@ == old(self)@.remove(generation_index)
                    &&& final(self)@.len() + 1 == old(self)@.len()
                    &&& final(self).current_generation() == old(self).current_generation() + 1
                    &&& final(self).retired(generation_index)
                    &&& final(self).free_slots() == seq![generation_index.slot() as SlotIndex].add(
                        old(self).free_slots(),
                    )
                },
                None => *final(self) == *old(self),
            },
    {
        proof {
            self.lemma_view_dom();
        }
        let i = generation_index.index();
        let matches = match &self.items[i] {
            Slot::Occupied { generation, .. } => *generation == generation_index.counter(),
            Slot::Free { .. } => false,
        };
        if matches {
            let ghost old_self = *self;
            let ghost free = self.free@;
            assert(self.live@.contains(generation_index));
            assert(!free.contains(i)) by {
                if free.contains(i) {
                    let k = choose|k: int| 0 <= k < free.len() && free[k] == i;
                    assert(free[k] < ELEMENTS_COUNT);
                }
            }
            let mut slot = Slot::Free { next_free: self.free_list_head };
            std::mem::swap(&mut self.items[i], &mut slot);
            self.generation.next_generation();
            self.free_list_head = Some(i);
            self.len = self.len - 1;
            proof {
                self.free = Ghost(seq![i].add(free));
                self.live = Ghost(self.live@.remove(generation_index));
                assert forall|k: int| 0 <= k < self.free@.len() implies #[trigger] self.free@[k]
                    < ELEMENTS_COUNT && self.items@[self.free@[k] as int] == (Slot::<T>::Free {
                    next_free: link_of(self.free@, k),
                }) by {
                    if k > 0 {
                        assert(self.free@[k] == free[k - 1]);
                        assert(link_of(self.free@, k) == link_of(free, k - 1));
                    }
                }
                assert forall|h: GenerationIndex| #[trigger]
                    self.live@.contains(h) <==> slot_holds(self.items@, h) by {
                    if h.slot() == i && old_self.live@.contains(h) {
                        lemma_handle_eq(h, generation_index);
                    }
                }
                assert(self@ =~= old_self@.remove(generation_index));
                self.lemma_view_dom();
            }
            match slot {
                Slot::Occupied { value, .. } => Some(value),
                Slot::Free { .. } => {
                    // the slot was just seen occupied
                    proof {
                        assert(false);
                    }
                    None
                },
            }
        } else {
            proof {
                if let Slot::Occupied { generation, .. } = self.items@[i as int] {
                    lemma_counter_eq(generation, generation_index.counter_spec());
                    lemma_handle_counter(generation_index);
                }
            }
            None
        }
    }

    /// The number of live values. This is the occupancy, not the number of
    /// slots.
    pub fn capacity(&self) -> (r: usize)
        requires
            self.wf(),
        ensures
            r == self@.len(),
    {
        proof {
            self.lemma_view_dom();
        }
        self.len
    }

    /// The value that `generation_index` names, if it is live.
    pub fn get(&self, generation_index: GenerationIndex) -> (r: Option<&T>)
        requires
            self.wf(),
        ensures
            r is Some <==> self@.contains_key(generation_index),
            r matches Some(v) ==> *v == self@[generation_index],
    {
        let i = generation_index.index();
        if i >= self.items.len() {
            return None;
        }
        proof {
            lemma_handle_counter(generation_index);
        }
        match &self.items[i] {
            Slot::Occupied { generation, value } => {
                proof {
                    lemma_counter_eq(*generation, generation_index.counter_spec());
                }
                if *generation == generation_index.counter() {
                    Some(value)
                } else {
                    None
                }
            },
            Slot::Free { .. } => None,
        }
    }

    /// A mutable reference to the value that `generation_index` names, if it
    /// is live. Writing through it changes that value only: the handle, the
    /// set of live handles and the generation stay as they are.
    pub fn get_mut(&mut self, generation_index: GenerationIndex) -> (r: Option<&mut T>)
        requires
            old(self).wf(),
        ensures
            r is Some <==> old(self)@.contains_key(generation_index),
            r matches Some(v) ==> *v == old(self)@[generation_index],
            r matches Some(v) ==> final(self).wf(),
            r matches Some(v) ==> final(self)@ == old(self)@.insert(generation_index, *final(v)),
            r matches Some(v) ==> old(self).evolves_to(final(self)),
            r matches Some(v) ==> final(self).current_generation() == old(self).current_generation(),
            r is None ==> *final(self) == *old(self),
    {
        if !self.contains(generation_index) {
            return None;
        }
        let ghost before = *self;
        proof {
            lemma_handle_counter(generation_index);
            self.lemma_view_dom();
            assert(slot_holds(self.items@, generation_index));
            if let Slot::Occupied { generation, .. } = self.items@[generation_index.slot() as int] {
                lemma_counter_eq(generation, generation_index.counter_spec());
            }
            assert forall|after: Self|
                #![trigger after.wf()]
                #![trigger after.view()]
                Self::differs_in_value(before, after, generation_index) implies {
                &&& after.wf()
                &&& after@ == before@.insert(
                    generation_index,
                    slot_value(after.items@[generation_index.slot() as int]),
                )
            } by {
                Self::lemma_differs_in_value(before, after, generation_index);
            }
        }
        let i = generation_index.index();
        match &mut self.items[i] {
            Slot::Occupied { value, .. } => Some(value),
            Slot::Free { .. } => {
                // a live handle names an occupied slot
                proof {
                    assert(false);
                }
                None
            },
        }
    }

    /// Whether `generation_index` is live.
    pub fn contains(&self, generation_index: GenerationIndex) -> (r: bool)
        requires
            self.wf(),
        ensures
            r == self@.contains_key(generation_index),
    {
        self.get(generation_index).is_some()
    }

    /// `after` is `before` with the value held for the live handle `h`
    /// replaced, and nothing else changed.
    spec fn differs_in_value(before: Self, after: Self, h: GenerationIndex) -> bool {
        &&& after.items@.len() == before.items@.len()
        &&& h.slot() < before.items@.len()
        &&& after.items@[h.slot() as int] matches Slot::Occupied { generation, .. }
        &&& generation == h.counter_spec()
        &&& forall|j: int|
            0 <= j < before.items@.len() && j != h.slot() ==> #[trigger] after.items@[j]
                == before.items@[j]
        &&& after.free_list_head == before.free_list_head
        &&& after.generation == before.generation
        &&& after.len == before.len
        &&& after.free == before.free
        &&& after.live == before.live
    }

    proof fn lemma_differs_in_value(before: Self, after: Self, h: GenerationIndex)
        requires
            before.wf(),
            before@.contains_key(h),
            Self::differs_in_value(before, after, h),
        ensures
            after.wf(),
            after@ == before@.insert(h, slot_value(after.items@[h.slot() as int])),
    {
        lemma_handle_counter(h);
        let free = before.free@;
        let i = h.slot() as int;
        let x = slot_value(after.items@[i]);
        assert(slot_holds(before.items@, h));
        assert forall|k: int| 0 <= k < free.len() implies #[trigger] free[k] < ELEMENTS_COUNT
            && after.items@[free[k] as int] == (Slot::<T>::Free {
            next_free: link_of(free, k),
        }) by {
            assert(before.items@[free[k] as int] == (Slot::<T>::Free {
                next_free: link_of(free, k),
            }));
            assert(free[k] != i);
        }
        assert forall|g: GenerationIndex| #[trigger]
            after.live@.contains(g) <==> slot_holds(after.items@, g) by {
            assert(slot_holds(after.items@, g) == slot_holds(before.items@, g));
        }
        assert forall|g: GenerationIndex| #[trigger]
            before.live@.contains(g) && g != h implies g.slot() != h.slot() by {
            assert(slot_holds(before.items@, g));
            lemma_handle_eq(g, h);
            lemma_handle_counter(g);
            lemma_counter_eq(g.counter_spec(), h.counter_spec());
        }
        assert(after@ =~= before@.insert(h, x));
    }

    /// A new arena whose slots are all free, with the generation at 1.
    pub fn new() -> (r: Self)
        requires
            ELEMENTS_COUNT > 0,
        ensures
            r.wf(),
            r@ == Map::<GenerationIndex, T>::empty(),
            r.current_generation() == 1,
            r.free_slots() == Seq::new(ELEMENTS_COUNT as nat, |k: int| k as SlotIndex),
    {
        let mut arena = GenerationalArena {
            items: Vec::with_capacity(ELEMENTS_COUNT),
            free_list_head: None,
            generation: GenerationCounter::new(),
            len: 0,
            free: Ghost(Seq::empty()),
            live: Ghost(Set::empty()),
        };
        arena.initialize_slots();
        assert(arena@ =~= Map::<GenerationIndex, T>::empty());
        arena
    }

    /// Fills the empty slot storage with free slots, each linked to the next
    /// position, the last one ending the list, and points the head at slot 0.
    fn initialize_slots(&mut self)
        requires
            ELEMENTS_COUNT > 0,
            old(self).items@.len() == 0,
            old(self).generation.wf(),
            old(self).len == 0,
            old(self).live@ == Set::<GenerationIndex>::empty(),
        ensures
            final(self).wf(),
            final(self).live@ == old(self).live@,
            final(self).generation == old(self).generation,
            final(self).free@ =~= Seq::new(ELEMENTS_COUNT as nat, |k: int| k as SlotIndex),
    {
        let mut i: usize = 0;
        while i < ELEMENTS_COUNT
            invariant
                0 <= i <= ELEMENTS_COUNT,
                self.items@.len() == i,
                self.live@ == Set::<GenerationIndex>::empty(),
                self.generation == old(self).generation,
                self.generation.wf(),
                self.len == 0,
                forall|k: int|
                    0 <= k < i ==> #[trigger] self.items@[k] == (Slot::<T>::Free {
                        next_free: if k + 1 < ELEMENTS_COUNT { Some((k + 1) as usize) } else { None },
                    }),
            decreases ELEMENTS_COUNT - i,
        {
            let next_free = if i == ELEMENTS_COUNT - 1 {
                None
            } else {
                Some(i + 1)
            };
            self.items.push(Slot::Free { next_free });
            i = i + 1;
        }
        self.free_list_head = Some(0);
        self.free = Ghost(Seq::new(ELEMENTS_COUNT as nat, |k: int| k as SlotIndex));
        assert forall|k: int| 0 <= k < self.free@.len() implies link_of(self.free@, k) == (if k + 1
            < ELEMENTS_COUNT {
            Some((k + 1) as usize)
        } else {
            None
        }) by {}
    }
}

/// A sequence of arena operations: every state evolves to itself.
pub proof fn lemma_evolves_to_refl<T, const N: usize>(a: GenerationalArena<T, N>)
    ensures
        a.evolves_to(&a),
{
}

/// A sequence of arena operations: evolving is transitive, so what holds
/// after one operation chains through any number of them.
pub proof fn lemma_evolves_to_trans<T, const N: usize>(
    a: GenerationalArena<T, N>,
    b: GenerationalArena<T, N>,
    c: GenerationalArena<T, N>,
)
    requires
        a.evolves_to(&b),
        b.evolves_to(&c),
    ensures
        a.evolves_to(&c),
{
    assert forall|k: GenerationIndex| #[trigger]
        c@.contains_key(k) && !a@.contains_key(k) implies a.current_generation() <= k.gen() by {
        if !b@.contains_key(k) {
            assert(b.current_generation() <= k.gen());
        }
    }
}

/// A handle that has been removed stays dead for good: whatever the arena
/// does afterwards, even reusing the handle's slot, the handle is never
/// live again, so `contains` is false and `get` gives nothing.
pub proof fn lemma_tombstone<T, const N: usize>(
    a: GenerationalArena<T, N>,
    b: GenerationalArena<T, N>,
    h: GenerationIndex,
)
    requires
        a.retired(h),
        a.evolves_to(&b),
    ensures
        b.retired(h),
        !b@.contains_key(h),
{
}

/// A handle issued after another handle was removed differs from it, even
/// when both name the same slot: the removed one is dead while the new one
/// is live, and the new one carries a later generation.
pub proof fn lemma_generation_uniqueness<T, const N: usize>(
    a: GenerationalArena<T, N>,
    b: GenerationalArena<T, N>,
    h1: GenerationIndex,
    h2: GenerationIndex,
)
    requires
        a.retired(h1),
        a.evolves_to(&b),
        !a@.contains_key(h2),
        b@.contains_key(h2),
    ensures
        h1 != h2,
        h1.gen() < h2.gen(),
        !b@.contains_key(h1),
{
}

} // verus!
