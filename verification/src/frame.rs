//! The pool of physical frames: one bit per frame, set while the frame is free.

use vstd::prelude::*;

verus! {

/// The lowest index at or above `from` whose bit is set.
pub open spec fn lowest_free_from(bits: Seq<bool>, from: int) -> Option<int>
    decreases bits.len() - from,
{
    if from < 0 || from >= bits.len() {
        None
    } else if bits[from] {
        Some(from)
    } else {
        lowest_free_from(bits, from + 1)
    }
}

/// The lowest index whose bit is set.
pub open spec fn lowest_free(bits: Seq<bool>) -> Option<int> {
    lowest_free_from(bits, 0)
}

/// The bits after the frames of `[start, end)` that the pool covers are set free.
pub open spec fn bits_insert(bits: Seq<bool>, start: int, end: int) -> Seq<bool> {
    Seq::new(bits.len(), |i: int| bits[i] || start <= i < end)
}

/// The bits after frame `id` is given back; an `id` outside the pool changes nothing.
pub open spec fn bits_dealloc(bits: Seq<bool>, id: int) -> Seq<bool> {
    if 0 <= id < bits.len() {
        bits.update(id, true)
    } else {
        bits
    }
}

/// `lowest_free_from` finds a set bit with none set between `from` and it,
/// and finds none only where none is set from `from` on.
pub proof fn lemma_lowest_free_from(bits: Seq<bool>, from: int)
    requires
        0 <= from,
    ensures
        match lowest_free_from(bits, from) {
            Some(i) => from <= i < bits.len() && bits[i] && forall|j: int| from <= j < i ==> !bits[j],
            None => forall|j: int| from <= j < bits.len() ==> !bits[j],
        },
    decreases bits.len() - from,
{
    if from < bits.len() && !bits[from] {
        lemma_lowest_free_from(bits, from + 1);
    }
}

/// The pool hands out the lowest free frame, and none only when none is free.
pub proof fn lemma_lowest_free(bits: Seq<bool>)
    ensures
        match lowest_free(bits) {
            Some(i) => 0 <= i < bits.len() && bits[i] && forall|j: int| 0 <= j < i ==> !bits[j],
            None => forall|j: int| 0 <= j < bits.len() ==> !bits[j],
        },
{
    lemma_lowest_free_from(bits, 0);
}

/// A bitmap allocator of frames, each named by its index in the pool.
pub struct FrameAllocator {
    pub bits: Vec<bool>,
}

impl View for FrameAllocator {
    type V = Seq<bool>;

    open spec fn view(&self) -> Seq<bool> {
        self.bits@
    }
}

impl FrameAllocator {
    /// A pool that covers `capacity` frames, none of them free yet.
    pub fn new(capacity: usize) -> (pool: FrameAllocator)
        ensures
            pool@ == Seq::new(capacity as nat, |i: int| false),
    {
        let mut bits: Vec<bool> = Vec::new();
        let mut i: usize = 0;
        while i < capacity
            invariant
                i <= capacity,
                bits@ == Seq::new(i as nat, |k: int| false),
            decreases capacity - i,
        {
            bits.push(false);
            i += 1;
            assert(bits@ =~= Seq::new(i as nat, |k: int| false));
        }
        FrameAllocator { bits }
    }

    /// How many frames the pool covers.
    pub fn capacity(&self) -> (n: usize)
        ensures
            n == self@.len(),
    {
        self.bits.len()
    }

    /// Sets free the frames of `[start, end)` that the pool covers.
    pub fn insert(&mut self, start: usize, end: usize)
        ensures
            final(self)@ == bits_insert(old(self)@, start as int, end as int),
    {
        let n: usize = self.bits.len();
        let stop: usize = if end < n {
            end
        } else {
            n
        };
        let mut i: usize = start;
        while i < stop
            invariant
                stop <= n,
                stop <= end,
                start <= i,
                end < n ==> stop == end,
                end >= n ==> stop == n,
                self.bits@.len() == n,
                n == old(self)@.len(),
                forall|k: int|
                    0 <= k < n ==> self.bits@[k] == (old(self)@[k] || (start <= k < i && k < stop)),
            decreases stop - i,
        {
            self.bits[i] = true;
            i += 1;
        }
        assert(self.bits@ =~= bits_insert(old(self)@, start as int, end as int));
    }

    /// Takes the lowest free frame out of the pool, if one is free.
    pub fn allocate(&mut self) -> (id: Option<usize>)
        ensures
            match id {
                Some(i) => lowest_free(old(self)@) == Some(i as int) && final(self)@ == old(
                    self,
                )@.update(i as int, false),
                None => lowest_free(old(self)@) is None && final(self)@ == old(self)@,
            },
    {
        let n: usize = self.bits.len();
        let mut i: usize = 0;
        while i < n
            invariant
                i <= n,
                n == self.bits@.len(),
                self.bits@ == old(self)@,
                lowest_free(old(self)@) == lowest_free_from(old(self)@, i as int),
            decreases n - i,
        {
            if self.bits[i] {
                self.bits[i] = false;
                return Some(i);
            }
            i += 1;
        }
        None
    }

    /// Gives frame `id` back to the pool. An `id` that the pool does not cover
    /// is ignored.
    pub fn deallocate(&mut self, id: usize)
        ensures
            final(self)@ == bits_dealloc(old(self)@, id as int),
    {
        if id < self.bits.len() {
            self.bits[id] = true;
        }
    }

    /// Whether frame `id` is free.
    pub fn test(&self, id: usize) -> (free: bool)
        ensures
            free == (id < self@.len() && self@[id as int]),
    {
        id < self.bits.len() && self.bits[id]
    }
}

} // verus!
