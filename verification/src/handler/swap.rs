//! The swappable policy.

use vstd::prelude::*;
use crate::addr::VirtAddr;
use crate::context::{MemoryContext, MemoryError, State};
use crate::residency::registered_at;
use crate::soundness::{
    clone_keeps_sound, lemma_clone_page_keeps_sound, lemma_map_keeps_sound,
    lemma_page_fault_keeps_sound, lemma_unmap_keeps_sound, map_keeps_sound, sound,
    unmap_keeps_sound,
};
use crate::handler::{fill, install, Fault, Step, Policy};
use crate::memory_set::MemoryAttr;
use crate::paging::{slot, Entry};

verus! {

/// Whether `addr` itself is on the list `delay`. This is what mapping asks.
pub open spec fn listed(delay: Seq<VirtAddr>, addr: VirtAddr) -> bool {
    delay.contains(addr)
}

/// Whether the page of `addr` is the page of an address on the list
/// `delay`. This is what a fault asks, which may come at any address of the
/// page.
pub open spec fn delayed(delay: Seq<VirtAddr>, addr: VirtAddr) -> bool {
    exists|i: int| 0 <= i < delay.len() && slot(#[trigger] delay[i]) == slot(addr)
}

/// The entry of a page whose frame is yet to come: the attributes `flags`,
/// not present, not swapped, bound to nothing.
pub open spec fn unbacked(flags: MemoryAttr) -> Entry {
    Entry { present: false, ..flags.applied(Entry::mapped(0)) }
}

/// A state, the pages whose allocation is delayed, and whether the step that
/// led to them succeeded.
pub type DelayStep = (State, Seq<VirtAddr>, Result<(), MemoryError>);

/// The policy of memory that may be evicted: each page gets a frame of its
/// own and is registered with the swap extension. The pages listed in
/// `delay_alloc` get their frame only when they are first touched.
#[derive(Debug)]
pub struct SwapMemoryHandler {
    pub flags: MemoryAttr,
    pub delay_alloc: Vec<VirtAddr>,
}

impl SwapMemoryHandler {
    /// An address that is on the list of delayed addresses gets an entry with
    /// nothing behind it. Any other address gets a frame and is registered as
    /// a page that may be evicted.
    pub open spec fn spec_map(
        flags: MemoryAttr,
        delay: Seq<VirtAddr>,
        s: State,
        inpt: usize,
        addr: VirtAddr,
    ) -> Step {
        if listed(delay, addr) {
            (install(s, inpt, addr, unbacked(flags)), Ok(()))
        } else {
            let (s1, frame) = s.alloc_frame();
            match frame {
                None => (s1, Err(MemoryError::OutOfMemory)),
                Some(target) => (
                    install(s1, inpt, addr, flags.applied(Entry::mapped(target))).set_swappable(
                        inpt,
                        addr,
                    ),
                    Ok(()),
                ),
            }
        }
    }

    /// Takes the page out of the swap extension, which brings it back if it
    /// is swapped out, and empties the page's entry. A page that is present
    /// gives its frame back first; a page with nothing behind it has no frame
    /// to give back, and none is freed.
    pub open spec fn spec_unmap(s: State, inpt: usize, addr: VirtAddr) -> Step {
        let (s1, r) = s.remove_from_swappable(inpt, addr);
        match r {
            Err(e) => (s1, Err(e)),
            Ok(_) => match s1.entry(inpt, addr) {
                None => (s1, Err(MemoryError::NotMapped)),
                Some(e) => if e.present {
                    (s1.dealloc_frame(e.target).unmap(inpt, addr), Ok(()))
                } else {
                    (s1.unmap(inpt, addr), Ok(()))
                },
            },
        }
    }

    /// Gives a delayed page its frame: the entry is bound to a newly
    /// allocated frame, gets the attributes, and the page is registered as
    /// one that may be evicted.
    pub open spec fn spec_back(flags: MemoryAttr, s: State, inpt: usize, addr: VirtAddr) -> Fault {
        let (s1, frame) = s.alloc_frame();
        match frame {
            None => (s1, Err(MemoryError::OutOfMemory)),
            Some(target) => match s1.entry(inpt, addr) {
                None => (s1, Err(MemoryError::NotMapped)),
                Some(e) => (
                    s1.update(inpt, addr, flags.applied(Entry { target, ..e })).set_swappable(
                        inpt,
                        addr,
                    ),
                    Ok(true),
                ),
            },
        }
    }

    /// Brings a swapped-out page into a newly allocated frame.
    pub open spec fn spec_bring_in(s: State, inpt: usize, addr: VirtAddr) -> Fault {
        let (s1, frame) = s.alloc_frame();
        match frame {
            None => (s1, Err(MemoryError::OutOfMemory)),
            Some(target) => {
                let (s2, r) = s1.swap_in(inpt, addr, target);
                match r {
                    Ok(_) => (s2, Ok(true)),
                    Err(e) => (s2, Err(MemoryError::Swap(e))),
                }
            },
        }
    }

    /// A delayed page with nothing behind it gets its frame; failing that, a
    /// page that is swapped out is brought in; any other fault is not resolved.
    pub open spec fn spec_page_fault(
        flags: MemoryAttr,
        delay: Seq<VirtAddr>,
        s: State,
        inpt: usize,
        addr: VirtAddr,
    ) -> Fault {
        match s.entry(inpt, addr) {
            None => if delayed(delay, addr) {
                (s, Err(MemoryError::NotMapped))
            } else {
                (s, Ok(false))
            },
            Some(e) => if delayed(delay, addr) && !e.present && !e.swapped {
                Self::spec_back(flags, s, inpt, addr)
            } else if e.swapped && !e.present {
                Self::spec_bring_in(s, inpt, addr)
            } else {
                (s, Ok(false))
            },
        }
    }

    /// A page that the live table has nothing behind is delayed in the new
    /// table too, and joins `delay`. A page that is present or swapped out
    /// gets a frame in the new table, is registered as one that may be
    /// evicted, and gets the bytes that the live table has at `addr`.
    pub open spec fn spec_map_clone(
        flags: MemoryAttr,
        delay: Seq<VirtAddr>,
        s: State,
        inpt: usize,
        addr: VirtAddr,
    ) -> DelayStep {
        match s.entry(s.active, addr) {
            None => (s, delay, Err(MemoryError::NotMapped)),
            Some(e) => if !(e.present || e.swapped) {
                (install(s, inpt, addr, unbacked(flags)), delay.push(addr), Ok(()))
            } else {
                let (s1, frame) = s.alloc_frame();
                match frame {
                    None => (s1, delay, Err(MemoryError::OutOfMemory)),
                    Some(target) => {
                        let s2 = install(
                            s1,
                            inpt,
                            addr,
                            flags.applied(Entry::mapped(target)),
                        ).set_swappable(inpt, addr);
                        match s2.page_content(s2.active, addr) {
                            None => (s2, delay, Err(MemoryError::NotMapped)),
                            Some(data) => (fill(s2, target, data), delay, Ok(())),
                        }
                    },
                }
            },
        }
    }

    /// A swappable policy with the attributes `flags` that delays the
    /// allocation of the pages of `delay_alloc`.
    pub fn new(flags: MemoryAttr, delay_alloc: Vec<VirtAddr>) -> (handler: SwapMemoryHandler)
        ensures
            handler.flags == flags,
            handler.delay_alloc == delay_alloc,
    {
        SwapMemoryHandler { flags, delay_alloc }
    }

    /// Whether `addr` itself is on the list of delayed addresses.
    pub fn is_listed(&self, addr: VirtAddr) -> (found: bool)
        ensures
            found == listed(self.delay_alloc@, addr),
    {
        let mut i: usize = 0;
        while i < self.delay_alloc.len()
            invariant
                i <= self.delay_alloc@.len(),
                forall|k: int| 0 <= k < i ==> self.delay_alloc@[k] != addr,
            decreases self.delay_alloc@.len() - i,
        {
            if self.delay_alloc[i] == addr {
                return true;
            }
            i += 1;
        }
        false
    }

    /// Whether the page of `addr` is the page of an address on the list of
    /// delayed addresses.
    pub fn is_delayed(&self, addr: VirtAddr) -> (found: bool)
        ensures
            found == delayed(self.delay_alloc@, addr),
    {
        let mut i: usize = 0;
        while i < self.delay_alloc.len()
            invariant
                i <= self.delay_alloc@.len(),
                forall|k: int| 0 <= k < i ==> slot(#[trigger] self.delay_alloc@[k]) != slot(addr),
            decreases self.delay_alloc@.len() - i,
        {
            if self.delay_alloc[i] / 4096 == addr / 4096 {
                return true;
            }
            i += 1;
        }
        false
    }

    /// Maps the page at `addr` in the page table `inpt`: with nothing behind
    /// it if `addr` is on the list of delayed addresses, else with a frame of
    /// its own, and registered as a page that may be evicted.
    pub fn map(&self, ctx: &mut MemoryContext, inpt: usize, addr: VirtAddr) -> (done: Result<
        (),
        MemoryError,
    >)
        requires
            old(ctx).wf(),
            old(ctx)@.valid_table(inpt),
        ensures
            final(ctx).wf(),
            final(ctx)@.tables.len() == old(ctx)@.tables.len(),
            (final(ctx)@, done) == Self::spec_map(
                self.flags,
                self.delay_alloc@,
                old(ctx)@,
                inpt,
                addr,
            ),            sound(old(ctx)@) && map_keeps_sound((Policy::Swappable { flags: self.flags, delay: self.delay_alloc@ }), old(ctx)@, inpt, addr) ==> sound(
                final(ctx)@,
            ),
    {
        proof {
            if sound(ctx@) && map_keeps_sound((Policy::Swappable { flags: self.flags, delay: self.delay_alloc@ }), ctx@, inpt, addr) {
                lemma_map_keeps_sound((Policy::Swappable { flags: self.flags, delay: self.delay_alloc@ }), ctx@, inpt, addr);
            }
        }
        if self.is_listed(addr) {
            let mut entry = ctx.map(inpt, addr, 0);
            self.flags.apply(&mut entry);
            entry.set_present(false);
            ctx.update(inpt, addr, entry);
            Ok(())
        } else {
            let target = match ctx.alloc_frame() {
                None => {
                    return Err(MemoryError::OutOfMemory);
                },
                Some(target) => target,
            };
            let mut entry = ctx.map(inpt, addr, target);
            self.flags.apply(&mut entry);
            ctx.update(inpt, addr, entry);
            ctx.set_swappable(inpt, addr);
            Ok(())
        }
    }

    /// Takes the page at `addr` out of the swap extension, gives up what is
    /// behind it and empties its entry in the page table `inpt`. A page with
    /// nothing behind it is marked present first, so that it can be unmapped
    /// like any other, and no frame is freed for it.
    ///
    /// The list of delayed addresses is left as it is: an address stays on
    /// the list after its page is unmapped, so a page that is mapped at that
    /// address again by this handler is delayed again.
    pub fn unmap(&self, ctx: &mut MemoryContext, inpt: usize, addr: VirtAddr) -> (done: Result<
        (),
        MemoryError,
    >)
        requires
            old(ctx).wf(),
            old(ctx)@.valid_table(inpt),
        ensures
            final(ctx).wf(),
            final(ctx)@.tables.len() == old(ctx)@.tables.len(),
            (final(ctx)@, done) == Self::spec_unmap(old(ctx)@, inpt, addr),
            sound(old(ctx)@) && unmap_keeps_sound((Policy::Swappable { flags: self.flags, delay: self.delay_alloc@ }), old(ctx)@, inpt, addr) ==> sound(
                final(ctx)@,
            ),
    {
        proof {
            if sound(ctx@) && unmap_keeps_sound((Policy::Swappable { flags: self.flags, delay: self.delay_alloc@ }), ctx@, inpt, addr) {
                lemma_unmap_keeps_sound((Policy::Swappable { flags: self.flags, delay: self.delay_alloc@ }), ctx@, inpt, addr);
            }
        }
        match ctx.remove_from_swappable(inpt, addr) {
            Err(e) => {
                return Err(e);
            },
            Ok(_) => {},
        }
        let mut entry = match ctx.get_entry(inpt, addr) {
            None => {
                return Err(MemoryError::NotMapped);
            },
            Some(entry) => entry,
        };
        if entry.present() {
            ctx.dealloc_frame(entry.target());
            ctx.unmap(inpt, addr);
        } else {
            let ghost removed = ctx@;
            entry.set_present(true);
            ctx.update(inpt, addr, entry);
            ctx.unmap(inpt, addr);
            assert(ctx@ =~~= removed.unmap(inpt, addr));
        }
        Ok(())
    }

    /// Handles a fault at `addr` in the page table `inpt`: backs a delayed
    /// page, or brings a swapped-out page in.
    pub fn page_fault_handler(&self, ctx: &mut MemoryContext, inpt: usize, addr: VirtAddr) -> (done:
        Result<bool, MemoryError>)
        requires
            old(ctx).wf(),
            old(ctx)@.valid_table(inpt),
        ensures
            final(ctx).wf(),
            final(ctx)@.tables.len() == old(ctx)@.tables.len(),
            (final(ctx)@, done) == Self::spec_page_fault(
                self.flags,
                self.delay_alloc@,
                old(ctx)@,
                inpt,
                addr,
            ),            sound(old(ctx)@) && ((Policy::Swappable { flags: self.flags, delay: self.delay_alloc@ }) is CopyOnWrite ==> !registered_at(old(ctx)@, inpt, slot(addr) as int)) ==> sound(final(ctx)@),
    {
        proof {
            if sound(ctx@) && ((Policy::Swappable { flags: self.flags, delay: self.delay_alloc@ }) is CopyOnWrite ==> !registered_at(ctx@, inpt, slot(addr) as int)) {
                lemma_page_fault_keeps_sound((Policy::Swappable { flags: self.flags, delay: self.delay_alloc@ }), ctx@, inpt, addr);
            }
        }
        let found = ctx.get_entry(inpt, addr);
        if self.is_delayed(addr) {
            let entry = match found {
                None => {
                    return Err(MemoryError::NotMapped);
                },
                Some(entry) => entry,
            };
            if !entry.present() && !entry.swapped() {
                let frame = match ctx.alloc_frame() {
                    None => {
                        return Err(MemoryError::OutOfMemory);
                    },
                    Some(frame) => frame,
                };
                let mut entry = match ctx.get_entry(inpt, addr) {
                    None => {
                        return Err(MemoryError::NotMapped);
                    },
                    Some(entry) => entry,
                };
                entry.set_target(frame);
                self.flags.apply(&mut entry);
                ctx.update(inpt, addr, entry);
                ctx.set_swappable(inpt, addr);
                return Ok(true);
            }
        }
        match found {
            None => {
                return Ok(false);
            },
            Some(entry) => {
                if !(entry.swapped() && !entry.present()) {
                    return Ok(false);
                }
            },
        }
        let frame = match ctx.alloc_frame() {
            None => {
                return Err(MemoryError::OutOfMemory);
            },
            Some(frame) => frame,
        };
        match ctx.swap_in(inpt, addr, frame) {
            Ok(_) => Ok(true),
            Err(e) => Err(MemoryError::Swap(e)),
        }
    }

    /// Carries the page at `addr` over from the live table to the new page
    /// table `inpt`: delayed if the live table has nothing behind it, else
    /// with a frame of its own and a copy of the bytes.
    pub fn map_clone(&mut self, ctx: &mut MemoryContext, inpt: usize, addr: VirtAddr) -> (done:
        Result<(), MemoryError>)
        requires
            old(ctx).wf(),
            old(ctx)@.valid_table(inpt),
        ensures
            final(ctx).wf(),
            final(ctx)@.tables.len() == old(ctx)@.tables.len(),
            final(self).flags == old(self).flags,
            (final(ctx)@, final(self).delay_alloc@, done) == Self::spec_map_clone(
                old(self).flags,
                old(self).delay_alloc@,
                old(ctx)@,
                inpt,
                addr,
            ),            sound(old(ctx)@) && old(ctx)@.valid_table(old(ctx)@.active) && clone_keeps_sound(
                (Policy::Swappable { flags: old(self).flags, delay: old(self).delay_alloc@ }),
                old(ctx)@,
                inpt,
                addr,
            ) ==> sound(final(ctx)@),
    {
        proof {
            if sound(ctx@) && ctx@.valid_table(ctx@.active) && clone_keeps_sound(
                (Policy::Swappable { flags: self.flags, delay: self.delay_alloc@ }),
                ctx@,
                inpt,
                addr,
            ) {
                lemma_clone_page_keeps_sound((Policy::Swappable { flags: self.flags, delay: self.delay_alloc@ }), ctx@, inpt, addr);
            }
        }
        let active = ctx.active_table();
        let allocated = match ctx.get_entry(active, addr) {
            None => {
                return Err(MemoryError::NotMapped);
            },
            Some(entry) => entry.present() || entry.swapped(),
        };
        if !allocated {
            self.delay_alloc.push(addr);
            let mut entry = ctx.map(inpt, addr, 0);
            self.flags.apply(&mut entry);
            entry.set_present(false);
            ctx.update(inpt, addr, entry);
            Ok(())
        } else {
            let target = match ctx.alloc_frame() {
                None => {
                    return Err(MemoryError::OutOfMemory);
                },
                Some(target) => target,
            };
            let mut entry = ctx.map(inpt, addr, target);
            self.flags.apply(&mut entry);
            ctx.update(inpt, addr, entry);
            ctx.set_swappable(inpt, addr);
            let active = ctx.active_table();
            match ctx.read_page(active, addr) {
                None => Err(MemoryError::NotMapped),
                Some(data) => {
                    ctx.fill_frame(target, data);
                    Ok(())
                },
            }
        }
    }
}

} // verus!
