//! Handles into an arena and the generation counter that tags them.
use vstd::prelude::*;

verus! {

/// Position of a slot in an arena's backing store.
pub type SlotIndex = usize;

/// A strictly positive counter that stamps each insertion into an arena.
#[derive(Debug, Clone, Copy, PartialEq, Eq, Structural, PartialOrd, Ord)]
pub struct GenerationCounter(usize);

impl GenerationCounter {
    /// The counter's value.
    pub closed spec fn value(self) -> nat {
        self.0 as nat
    }

    /// A counter never reads zero.
    pub open spec fn wf(self) -> bool {
        self.value() >= 1
    }

    /// The first generation, 1.
    pub fn new() -> (r: GenerationCounter)
        ensures
            r.wf(),
            r.value() == 1,
    {
        GenerationCounter(1)
    }

    /// Advances the counter by one. Running out of the counter's range is
    /// left out by the precondition: the counter must never wrap.
    pub fn next_generation(&mut self)
        requires
            old(self).value() < usize::MAX,
        ensures
            final(self).value() == old(self).value() + 1,
            final(self).wf(),
    {
        self.0 = self.0 + 1;
    }

    /// The counter's value as an integer.
    pub fn get(&self) -> (r: usize)
        ensures
            r as nat == self.value(),
    {
        self.0
    }
}

/// A key into a `GenerationalArena`: the position of a slot together with
/// the generation under which its value was inserted.
///
/// Handles are ordered by position first, then by generation.
#[derive(Debug, Clone, Copy, PartialEq, Eq, Structural, PartialOrd, Ord)]
pub struct GenerationIndex {
    index: SlotIndex,
    generation: GenerationCounter,
}

impl GenerationIndex {
    /// The slot position this handle names.
    pub closed spec fn slot(self) -> nat {
        self.index as nat
    }

    /// The generation under which the named value was inserted.
    pub closed spec fn gen(self) -> nat {
        self.generation.value()
    }

    /// The generation counter this handle carries.
    pub closed spec fn counter_spec(self) -> GenerationCounter {
        self.generation
    }

    pub(crate) fn from_parts(index: SlotIndex, generation: GenerationCounter) -> (r: GenerationIndex)
        ensures
            r.slot() == index as nat,
            r.gen() == generation.value(),
    {
        GenerationIndex { index, generation }
    }

    /// The slot position this handle names.
    pub fn index(&self) -> (r: usize)
        ensures
            r as nat == self.slot(),
    {
        self.index
    }

    /// The generation under which the named value was inserted.
    pub fn generation(&self) -> (r: usize)
        ensures
            r as nat == self.gen(),
    {
        self.generation.get()
    }

    pub(crate) fn counter(&self) -> (r: GenerationCounter)
        ensures
            r == self.counter_spec(),
            r.value() == self.gen(),
    {
        self.generation
    }
}

/// Two counters are equal exactly when their values are.
pub proof fn lemma_counter_eq(a: GenerationCounter, b: GenerationCounter)
    ensures
        (a == b) <==> (a.value() == b.value()),
{
}

/// A handle's generation is the value of the counter it carries.
pub proof fn lemma_handle_counter(h: GenerationIndex)
    ensures
        h.gen() == h.counter_spec().value(),
{
}

/// Two handles are equal exactly when they agree on slot and generation.
pub proof fn lemma_handle_eq(a: GenerationIndex, b: GenerationIndex)
    ensures
        (a == b) <==> (a.slot() == b.slot() && a.gen() == b.gen()),
{
}

} // verus!
