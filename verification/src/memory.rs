use vstd::prelude::*;
use std::collections::VecDeque;

verus! {

/// The most recent `capacity` summaries of a history, oldest first.
pub open spec fn retained<T>(history: Seq<T>, capacity: nat) -> Seq<T> {
    if history.len() <= capacity {
        history
    } else {
        history.subrange(history.len() - capacity, history.len() as int)
    }
}

/// Compressed long-context memory: keeps the most recent `capacity` summaries.
#[derive(Debug)]
pub struct TemporalMemory<T> {
    capacity: usize,
    slots: VecDeque<T>,
}

impl<T> TemporalMemory<T> {
    #[verifier::type_invariant]
    spec fn well_formed(self) -> bool {
        self.slots@.len() <= self.capacity
    }

    pub closed spec fn spec_capacity(self) -> usize {
        self.capacity
    }

    /// The kept summaries, oldest first.
    pub closed spec fn summaries_view(self) -> Seq<T> {
        self.slots@
    }

    pub fn new(capacity: usize) -> (memory: Self)
        ensures
            memory.spec_capacity() == capacity,
            memory.summaries_view() == Seq::<T>::empty(),
    {
        TemporalMemory { capacity, slots: VecDeque::with_capacity(capacity) }
    }

    /// Remembers `summary`, forgetting the oldest summary when the memory is full. A memory of
    /// capacity zero keeps nothing.
    pub fn push(&mut self, summary: T)
        ensures
            final(self).spec_capacity() == old(self).spec_capacity(),
            final(self).summaries_view() == retained(
                old(self).summaries_view().push(summary),
                old(self).spec_capacity() as nat,
            ),
    {
        proof {
            use_type_invariant(&*self);
        }
        if self.capacity == 0 {
            assert(old(self).summaries_view().len() == 0);
            return;
        }
        let mut slots: VecDeque<T> = VecDeque::new();
        std::mem::swap(&mut slots, &mut self.slots);
        let ghost before = slots@;
        if slots.len() == self.capacity {
            slots.pop_front();
        }
        slots.push_back(summary);
        assert(slots@ =~= retained(before.push(summary), self.capacity as nat));
        self.slots = slots;
    }

    /// The number of summaries kept.
    pub fn len(&self) -> (n: usize)
        ensures
            n == self.summaries_view().len(),
            n <= self.spec_capacity(),
    {
        proof {
            use_type_invariant(self);
        }
        self.slots.len()
    }

    /// The `index`-th kept summary, oldest first.
    pub fn summary(&self, index: usize) -> (s: &T)
        requires
            index < self.summaries_view().len(),
        ensures
            *s == self.summaries_view()[index as int],
    {
        &self.slots[index]
    }
}

impl<T: Clone> Clone for TemporalMemory<T> {
    /// A memory of the same capacity holding a clone of each kept summary, in the same order.
    fn clone(&self) -> (copy: Self)
        ensures
            copy.spec_capacity() == self.spec_capacity(),
            copy.summaries_view().len() == self.summaries_view().len(),
            forall|i: int|
                0 <= i < self.summaries_view().len() ==> cloned::<T>(
                    self.summaries_view()[i],
                    #[trigger] copy.summaries_view()[i],
                ),
    {
        proof {
            use_type_invariant(self);
        }
        TemporalMemory { capacity: self.capacity, slots: self.slots.clone() }
    }
}

/// Remembering in turn keeps exactly the last `capacity` summaries of the whole history.
pub proof fn lemma_retained_push<T>(history: Seq<T>, summary: T, capacity: nat)
    requires
        capacity > 0,
    ensures
        retained(retained(history, capacity).push(summary), capacity) == retained(
            history.push(summary),
            capacity,
        ),
        retained(history.push(summary), capacity).len() <= capacity,
        retained(history.push(summary), capacity).last() == summary,
{
    let kept = retained(history, capacity);
    let pushed = history.push(summary);
    if history.len() <= capacity {
        assert(kept == history);
    } else {
        assert(kept.push(summary).len() == capacity + 1);
        assert(retained(kept.push(summary), capacity) =~= retained(pushed, capacity));
    }
    if pushed.len() > capacity {
        let r = retained(pushed, capacity);
        assert(r.last() == pushed.last());
    }
}

} // verus!
