//! Swapping: the queue of pages that may be evicted, oldest first, and the
//! backing store that keeps the content of evicted pages.

use std::collections::HashMap;
use vstd::prelude::*;
use crate::addr::VirtAddr;
use crate::phys::{pages_view, Contents};

verus! {

broadcast use vstd::std_specs::hash::group_hash_axioms;

/// A page that may be evicted: the handle of its page table and the address
/// of its first byte.
pub type SwapKey = (usize, VirtAddr);

/// Why a page could not be swapped.
#[derive(Debug, Clone, Copy, PartialEq, Eq, Structural)]
pub enum SwapError {
    /// The page has no entry.
    NotMapped,
    /// The page is to be brought in, but is not swapped out.
    NotSwapped,
    /// The page is to be evicted, but is swapped out already.
    AlreadySwapped,
    /// The backing store refused.
    IOError,
    /// No page may be evicted.
    NoVictim,
}

/// The index of the first occurrence of `key` in `queue` at or after `from`.
pub open spec fn position_from(queue: Seq<SwapKey>, key: SwapKey, from: int) -> Option<int>
    decreases queue.len() - from,
{
    if from < 0 || from >= queue.len() {
        None
    } else if queue[from] == key {
        Some(from)
    } else {
        position_from(queue, key, from + 1)
    }
}

/// The index of the first occurrence of `key` in `queue`.
pub open spec fn position(queue: Seq<SwapKey>, key: SwapKey) -> Option<int> {
    position_from(queue, key, 0)
}

/// The queue after `key` joins it at the back. A key that waits already keeps
/// its place.
pub open spec fn queue_push(queue: Seq<SwapKey>, key: SwapKey) -> Seq<SwapKey> {
    if position(queue, key) is Some {
        queue
    } else {
        queue.push(key)
    }
}

/// The queue after `key` leaves it.
pub open spec fn queue_remove(queue: Seq<SwapKey>, key: SwapKey) -> Seq<SwapKey> {
    match position(queue, key) {
        Some(i) => queue.remove(i),
        None => queue,
    }
}

/// No key waits twice.
pub open spec fn queue_distinct(queue: Seq<SwapKey>) -> bool {
    forall|i: int, j: int| 0 <= i < j < queue.len() ==> queue[i] != queue[j]
}

/// `position_from` finds the first occurrence, and none only where there is none.
pub proof fn lemma_position_from(queue: Seq<SwapKey>, key: SwapKey, from: int)
    requires
        0 <= from,
    ensures
        match position_from(queue, key, from) {
            Some(i) => from <= i < queue.len() && queue[i] == key && forall|j: int|
                from <= j < i ==> queue[j] != key,
            None => forall|j: int| from <= j < queue.len() ==> queue[j] != key,
        },
    decreases queue.len() - from,
{
    if from < queue.len() && queue[from] != key {
        lemma_position_from(queue, key, from + 1);
    }
}

/// A key has a position exactly when the queue holds it.
pub proof fn lemma_position(queue: Seq<SwapKey>, key: SwapKey)
    ensures
        position(queue, key) is Some <==> queue.contains(key),
        match position(queue, key) {
            Some(i) => 0 <= i < queue.len() && queue[i] == key && forall|j: int|
                0 <= j < i ==> queue[j] != key,
            None => forall|j: int| 0 <= j < queue.len() ==> queue[j] != key,
        },
{
    lemma_position_from(queue, key, 0);
}

/// Pushing and removing keep a queue free of repeats; a removed key is gone.
pub proof fn lemma_queue_distinct(queue: Seq<SwapKey>, key: SwapKey)
    requires
        queue_distinct(queue),
    ensures
        queue_distinct(queue_push(queue, key)),
        queue_distinct(queue_remove(queue, key)),
        queue_push(queue, key).contains(key),
        !queue_remove(queue, key).contains(key),
{
    lemma_position(queue, key);
    let pushed = queue_push(queue, key);
    if position(queue, key) is None {
        assert(pushed[queue.len() as int] == key);
    }
    let removed = queue_remove(queue, key);
    match position(queue, key) {
        Some(i) => {
            assert forall|j: int| 0 <= j < removed.len() implies removed[j] != key by {
                if j < i {
                } else {
                    assert(removed[j] == queue[j + 1]);
                }
            }
        },
        None => {},
    }
}

/// The pages that may be evicted, in the order in which they were registered.
pub struct FifoSwapManager {
    pub queue: Vec<SwapKey>,
}

impl View for FifoSwapManager {
    type V = Seq<SwapKey>;

    open spec fn view(&self) -> Seq<SwapKey> {
        self.queue@
    }
}

impl FifoSwapManager {
    /// An empty queue.
    pub fn new() -> (manager: FifoSwapManager)
        ensures
            manager@ == Seq::<SwapKey>::empty(),
    {
        FifoSwapManager { queue: Vec::new() }
    }

    /// How many pages wait.
    pub fn len(&self) -> (n: usize)
        ensures
            n == self@.len(),
    {
        self.queue.len()
    }

    /// Where `key` waits, counted from the front.
    pub fn find(&self, key: SwapKey) -> (index: Option<usize>)
        ensures
            match index {
                Some(i) => i < self@.len() && position(self@, key) == Some(i as int),
                None => position(self@, key) is None,
            },
    {
        let mut i: usize = 0;
        while i < self.queue.len()
            invariant
                i <= self.queue@.len(),
                position(self@, key) == position_from(self@, key, i as int),
            decreases self.queue@.len() - i,
        {
            if self.queue[i].0 == key.0 && self.queue[i].1 == key.1 {
                return Some(i);
            }
            i += 1;
        }
        None
    }

    /// Registers `key` as the youngest page, unless it waits already.
    pub fn push(&mut self, key: SwapKey)
        ensures
            final(self)@ == queue_push(old(self)@, key),
    {
        if self.find(key).is_none() {
            self.queue.push(key);
        }
    }

    /// Takes the oldest page off the queue.
    pub fn pop(&mut self) -> (key: Option<SwapKey>)
        ensures
            match key {
                Some(k) => old(self)@.len() > 0 && k == old(self)@[0] && final(self)@ == old(
                    self,
                )@.drop_first(),
                None => old(self)@.len() == 0 && final(self)@ == old(self)@,
            },
    {
        if self.queue.len() == 0 {
            None
        } else {
            let key = self.queue.remove(0);
            assert(self.queue@ =~= old(self)@.drop_first());
            Some(key)
        }
    }

    /// Takes `key` off the queue, wherever it waits.
    pub fn remove(&mut self, key: SwapKey)
        ensures
            final(self)@ == queue_remove(old(self)@, key),
    {
        match self.find(key) {
            Some(i) => {
                self.queue.remove(i);
            },
            None => {},
        }
    }
}

/// A backing store that keeps pages in memory, each under a token that it
/// hands out once.
pub struct MockSwapper {
    pub pages: HashMap<usize, Vec<u8>>,
    pub next_token: usize,
}

impl View for MockSwapper {
    type V = Contents;

    open spec fn view(&self) -> Contents {
        pages_view(self.pages@)
    }
}

impl MockSwapper {
    /// An empty store.
    pub fn new() -> (store: MockSwapper)
        ensures
            store@ == Map::<usize, Seq<u8>>::empty(),
            store.next_token == 0,
    {
        let store = MockSwapper { pages: HashMap::new(), next_token: 0 };
        assert(store@ =~= Map::<usize, Seq<u8>>::empty());
        store
    }

    /// Keeps `data` and returns the token under which it can be had back.
    /// Fails, and keeps nothing, once the tokens have run out.
    pub fn swap_out(&mut self, data: Vec<u8>) -> (token: Result<usize, ()>)
        ensures
            match token {
                Ok(t) => {
                    &&& old(self).next_token < usize::MAX
                    &&& t == old(self).next_token
                    &&& final(self).next_token == t + 1
                    &&& final(self)@ == old(self)@.insert(t, data@)
                },
                Err(_) => old(self).next_token == usize::MAX && *final(self) == *old(self),
            },
    {
        if self.next_token == usize::MAX {
            return Err(());
        }
        let token: usize = self.next_token;
        self.pages.insert(token, data);
        self.next_token = token + 1;
        assert(self@ =~= old(self)@.insert(token, data@));
        Ok(token)
    }

    /// Hands back the page kept under `token` and forgets it. Fails where
    /// nothing is kept under `token`.
    pub fn swap_in(&mut self, token: usize) -> (data: Result<Vec<u8>, ()>)
        ensures
            final(self).next_token == old(self).next_token,
            match data {
                Ok(d) => {
                    &&& old(self)@.contains_key(token)
                    &&& d@ == old(self)@[token]
                    &&& final(self)@ == old(self)@.remove(token)
                },
                Err(_) => !old(self)@.contains_key(token) && final(self)@ == old(self)@,
            },
    {
        match self.pages.remove(&token) {
            Some(d) => {
                assert(old(self).pages@.contains_key(token));
                assert(old(self)@.contains_key(token));
                assert(self@ =~= old(self)@.remove(token));
                Ok(d)
            },
            None => {
                assert(!old(self).pages@.contains_key(token));
                assert(self.pages@ =~= old(self).pages@);
                Err(())
            },
        }
    }
}

/// The swap extension: who may be evicted, and where evicted content goes.
pub struct SwapExt {
    pub manager: FifoSwapManager,
    pub swapper: MockSwapper,
}

impl SwapExt {
    /// A swap extension with nothing registered and nothing stored.
    pub fn new(manager: FifoSwapManager, swapper: MockSwapper) -> (ext: SwapExt)
        ensures
            ext.manager == manager,
            ext.swapper == swapper,
    {
        SwapExt { manager, swapper }
    }
}

} // verus!
