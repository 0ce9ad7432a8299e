//! The table of frames that several address spaces share after a fork.

use std::collections::HashMap;
use vstd::prelude::*;
use crate::addr::PhysAddr;

verus! {

broadcast use vstd::std_specs::hash::group_hash_axioms;

/// For each shared frame, by its address: how many mappings refer to it, and
/// whether the area that shares it may be written.
pub type Shares = Map<usize, (usize, bool)>;

/// How many mappings refer to `frame`.
pub open spec fn share_count(shares: Shares, frame: usize) -> nat {
    if shares.contains_key(frame) {
        shares[frame].0 as nat
    } else {
        0
    }
}

/// Whether one more mapping of `frame` can be counted.
pub open spec fn can_share(shares: Shares, frame: usize) -> bool {
    share_count(shares, frame) < usize::MAX
}

/// The table after one more mapping of `frame` is counted.
pub open spec fn shares_map(shares: Shares, frame: usize, writable: bool) -> Shares {
    if can_share(shares, frame) {
        shares.insert(frame, ((share_count(shares, frame) + 1) as usize, writable))
    } else {
        shares
    }
}

/// Whether `frame` has no mapping left once one of them is dropped.
pub open spec fn shares_last(shares: Shares, frame: usize) -> bool {
    shares.contains_key(frame) && shares[frame].0 <= 1
}

/// The table after one mapping of `frame` is dropped.
pub open spec fn shares_unmap(shares: Shares, frame: usize) -> Shares {
    if !shares.contains_key(frame) {
        shares
    } else if shares[frame].0 <= 1 {
        shares.remove(frame)
    } else {
        shares.insert(frame, ((shares[frame].0 - 1) as usize, shares[frame].1))
    }
}

/// The reference counts of the frames that are shared copy-on-write.
pub struct CowExt {
    pub rc_map: HashMap<usize, (usize, bool)>,
}

impl View for CowExt {
    type V = Shares;

    open spec fn view(&self) -> Shares {
        self.rc_map@
    }
}

impl CowExt {
    /// A table that counts no frame.
    pub fn new() -> (table: CowExt)
        ensures
            table@ == Map::<usize, (usize, bool)>::empty(),
    {
        CowExt { rc_map: HashMap::new() }
    }

    /// How many mappings refer to `target`.
    pub fn count(&self, target: PhysAddr) -> (n: usize)
        ensures
            n == share_count(self@, target),
    {
        match self.rc_map.get(&target) {
            Some(rc) => rc.0,
            None => 0,
        }
    }

    /// Counts one more mapping of `target`, and records whether the sharing
    /// area may be written. Returns false, and counts nothing, when the count
    /// is at its limit.
    pub fn map_to_shared(&mut self, target: PhysAddr, writable: bool) -> (counted: bool)
        ensures
            counted == can_share(old(self)@, target),
            final(self)@ == shares_map(old(self)@, target, writable),
    {
        let n = self.count(target);
        if n < usize::MAX {
            self.rc_map.insert(target, (n + 1, writable));
            true
        } else {
            false
        }
    }

    /// Drops one mapping of `target`. Returns true when that was the last one:
    /// the frame is then no longer counted and the caller frees it. A frame
    /// that is not counted is left alone.
    pub fn unmap_shared(&mut self, target: PhysAddr) -> (last: bool)
        ensures
            last == shares_last(old(self)@, target),
            final(self)@ == shares_unmap(old(self)@, target),
    {
        let (n, writable) = match self.rc_map.get(&target) {
            Some(rc) => (rc.0, rc.1),
            None => {
                return false;
            },
        };
        if n <= 1 {
            self.rc_map.remove(&target);
            true
        } else {
            self.rc_map.insert(target, (n - 1, writable));
            false
        }
    }

    /// Whether exactly one mapping refers to `target`.
    pub fn is_one_shared(&self, target: PhysAddr) -> (one: bool)
        ensures
            one == (share_count(self@, target) == 1),
    {
        self.count(target) == 1
    }

    /// Whether the area that shares `target` may be written.
    pub fn is_writable_shared(&self, target: PhysAddr) -> (writable: bool)
        ensures
            writable == (self@.contains_key(target) && self@[target].1),
    {
        match self.rc_map.get(&target) {
            Some(rc) => rc.1,
            None => false,
        }
    }
}

} // verus!
