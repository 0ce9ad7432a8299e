//! The copy-on-write policy.

use vstd::prelude::*;
use crate::addr::VirtAddr;
use crate::context::{MemoryContext, MemoryError, State};
use crate::cow::{can_share, share_count, shares_last, shares_map, shares_unmap};
use crate::paging::slot;
use crate::residency::registered_at;
use crate::soundness::{
    clone_keeps_sound, lemma_clone_page_keeps_sound, lemma_map_keeps_sound,
    lemma_page_fault_keeps_sound, lemma_unmap_keeps_sound, map_keeps_sound, sound,
    unmap_keeps_sound,
};
use crate::handler::{fill, install, Fault, Step, Policy};
use crate::memory_set::MemoryAttr;
use crate::paging::Entry;
use crate::phys::content;

verus! {

/// The state after one more mapping of `frame` is counted, if it can be.
pub open spec fn share(s: State, frame: usize, writable: bool) -> Step {
    if can_share(s.shares, frame) {
        (State { shares: shares_map(s.shares, frame, writable), ..s }, Ok(()))
    } else {
        (s, Err(MemoryError::ShareLimit))
    }
}

/// The state after one mapping of `frame` is dropped from the count.
pub open spec fn unshare(s: State, frame: usize) -> State {
    State { shares: shares_unmap(s.shares, frame), ..s }
}

/// The policy of memory that forked address spaces share until one of them
/// writes: each page's frame is counted in the copy-on-write table.
#[derive(Debug, Clone, Copy, PartialEq, Eq, Structural)]
pub struct CowMemoryHandler {
    pub flags: MemoryAttr,
}

impl CowMemoryHandler {
    /// Allocates a frame, binds the page to it with the area's attributes and
    /// the shared bit, and counts the frame's first mapping.
    pub open spec fn spec_map(self, s: State, inpt: usize, addr: VirtAddr) -> Step {
        let (s1, frame) = s.alloc_frame();
        match frame {
            None => (s1, Err(MemoryError::OutOfMemory)),
            Some(target) => share(
                install(
                    s1,
                    inpt,
                    addr,
                    Entry { shared: true, ..self.flags.applied(Entry::mapped(target)) },
                ),
                target,
                !self.flags.readonly,
            ),
        }
    }

    /// Empties the page's entry and drops one mapping of its frame from the
    /// count; the frame goes back to the pool when that was the last one.
    pub open spec fn spec_unmap(self, s: State, inpt: usize, addr: VirtAddr) -> Step {
        match s.entry(inpt, addr) {
            None => (s, Err(MemoryError::NotMapped)),
            Some(e) => {
                let s1 = unshare(s.unmap(inpt, addr), e.target);
                (
                    if shares_last(s.shares, e.target) {
                        s1.dealloc_frame(e.target)
                    } else {
                        s1
                    },
                    Ok(()),
                )
            },
        }
    }

    /// Gives the writer a frame of its own: the old frame loses one mapping
    /// and stays with the others, the page is bound, writable, to a newly
    /// allocated frame that is counted once and holds the old frame's bytes.
    pub open spec fn spec_split(self, s: State, inpt: usize, addr: VirtAddr, old_target: usize) -> Fault {
        let data = content(s.memory, old_target);
        let (s1, frame) = unshare(s, old_target).alloc_frame();
        match frame {
            None => (s1, Err(MemoryError::OutOfMemory)),
            Some(target) => match s1.entry(inpt, addr) {
                None => (s1, Err(MemoryError::NotMapped)),
                Some(e) => {
                    let (s2, r) = share(
                        s1.update(inpt, addr, Entry { writable: true, target, ..e }),
                        target,
                        !self.flags.readonly,
                    );
                    match r {
                        Err(e) => (s2, Err(e)),
                        Ok(_) => (fill(s2, target, data), Ok(true)),
                    }
                },
            },
        }
    }

    /// A read-only area resolves no fault. Where the page's frame has one
    /// mapping only, the page is made writable as it is; else the writer gets
    /// a frame of its own.
    pub open spec fn spec_page_fault(self, s: State, inpt: usize, addr: VirtAddr) -> Fault {
        if self.flags.readonly {
            (s, Ok(false))
        } else {
            match s.entry(inpt, addr) {
                None => (s, Err(MemoryError::NotMapped)),
                Some(e) => if share_count(s.shares, e.target) == 1 {
                    (s.update(inpt, addr, Entry { writable: true, ..e }), Ok(true))
                } else {
                    self.spec_split(s, inpt, addr, e.target)
                },
            }
        }
    }

    /// Write-protects the page in the live table, binds the page in the new
    /// table to the same frame, write-protected and shared, and counts one
    /// more mapping of the frame.
    pub open spec fn spec_map_clone(self, s: State, inpt: usize, addr: VirtAddr) -> Step {
        match s.entry(s.active, addr) {
            None => (s, Err(MemoryError::NotMapped)),
            Some(e) => share(
                install(
                    s.update(s.active, addr, Entry { writable: false, ..e }),
                    inpt,
                    addr,
                    Entry {
                        writable: false,
                        shared: true,
                        ..self.flags.applied(Entry::mapped(e.target))
                    },
                ),
                e.target,
                !self.flags.readonly,
            ),
        }
    }

    /// A copy-on-write policy with the attributes `flags`.
    pub fn new(flags: MemoryAttr) -> (handler: CowMemoryHandler)
        ensures
            handler == (CowMemoryHandler { flags }),
    {
        CowMemoryHandler { flags }
    }

    /// Gives the page at `addr` a frame in the page table `inpt` and counts
    /// the frame's first mapping.
    pub fn map(&self, ctx: &mut MemoryContext, inpt: usize, addr: VirtAddr) -> (done: Result<
        (),
        MemoryError,
    >)
        requires
            old(ctx).wf(),
            old(ctx)@.valid_table(inpt),
        ensures
            final(ctx).wf(),
            final(ctx)@.tables.len() == old(ctx)@.tables.len(),
            (final(ctx)@, done) == self.spec_map(old(ctx)@, inpt, addr),            sound(old(ctx)@) && map_keeps_sound(Policy::CopyOnWrite(*self), old(ctx)@, inpt, addr) ==> sound(
                final(ctx)@,
            ),
    {
        proof {
            if sound(ctx@) && map_keeps_sound(Policy::CopyOnWrite(*self), ctx@, inpt, addr) {
                lemma_map_keeps_sound(Policy::CopyOnWrite(*self), ctx@, inpt, addr);
            }
        }
        let target = match ctx.alloc_frame() {
            None => {
                return Err(MemoryError::OutOfMemory);
            },
            Some(target) => target,
        };
        let mut entry = ctx.map(inpt, addr, target);
        self.flags.apply(&mut entry);
        entry.set_shared(true);
        ctx.update(inpt, addr, entry);
        ctx.share_frame(target, !self.flags.is_readonly())
    }

    /// Empties the entry of the page at `addr` in the page table `inpt` and
    /// frees its frame if no other mapping is left.
    pub fn unmap(&self, ctx: &mut MemoryContext, inpt: usize, addr: VirtAddr) -> (done: Result<
        (),
        MemoryError,
    >)
        requires
            old(ctx).wf(),
            old(ctx)@.valid_table(inpt),
        ensures
            final(ctx).wf(),
            final(ctx)@.tables.len() == old(ctx)@.tables.len(),
            (final(ctx)@, done) == self.spec_unmap(old(ctx)@, inpt, addr),
            sound(old(ctx)@) && unmap_keeps_sound(Policy::CopyOnWrite(*self), old(ctx)@, inpt, addr) ==> sound(
                final(ctx)@,
            ),
    {
        proof {
            if sound(ctx@) && unmap_keeps_sound(Policy::CopyOnWrite(*self), ctx@, inpt, addr) {
                lemma_unmap_keeps_sound(Policy::CopyOnWrite(*self), ctx@, inpt, addr);
            }
        }
        let target = match ctx.get_entry(inpt, addr) {
            None => {
                return Err(MemoryError::NotMapped);
            },
            Some(entry) => entry.target(),
        };
        ctx.unmap(inpt, addr);
        if ctx.unshare_frame(target) {
            ctx.dealloc_frame(target);
        }
        Ok(())
    }

    /// Handles a write fault at `addr` in the page table `inpt`: makes the
    /// page writable, in a frame of its own if the frame was shared.
    pub fn page_fault_handler(&self, ctx: &mut MemoryContext, inpt: usize, addr: VirtAddr) -> (done:
        Result<bool, MemoryError>)
        requires
            old(ctx).wf(),
            old(ctx)@.valid_table(inpt),
        ensures
            final(ctx).wf(),
            final(ctx)@.tables.len() == old(ctx)@.tables.len(),
            (final(ctx)@, done) == self.spec_page_fault(old(ctx)@, inpt, addr),            sound(old(ctx)@) && (Policy::CopyOnWrite(*self) is CopyOnWrite ==> !registered_at(old(ctx)@, inpt, slot(addr) as int)) ==> sound(final(ctx)@),
    {
        proof {
            if sound(ctx@) && (Policy::CopyOnWrite(*self) is CopyOnWrite ==> !registered_at(ctx@, inpt, slot(addr) as int)) {
                lemma_page_fault_keeps_sound(Policy::CopyOnWrite(*self), ctx@, inpt, addr);
            }
        }
        if self.flags.is_readonly() {
            return Ok(false);
        }
        let mut entry = match ctx.get_entry(inpt, addr) {
            None => {
                return Err(MemoryError::NotMapped);
            },
            Some(entry) => entry,
        };
        let target = entry.target();
        if ctx.is_one_shared(target) {
            entry.set_writable(true);
            ctx.update(inpt, addr, entry);
            return Ok(true);
        }
        let data = ctx.load_frame(target);
        ctx.unshare_frame(target);
        let new_target = match ctx.alloc_frame() {
            None => {
                return Err(MemoryError::OutOfMemory);
            },
            Some(frame) => frame,
        };
        let mut entry = match ctx.get_entry(inpt, addr) {
            None => {
                return Err(MemoryError::NotMapped);
            },
            Some(entry) => entry,
        };
        entry.set_writable(true);
        entry.set_target(new_target);
        ctx.update(inpt, addr, entry);
        match ctx.share_frame(new_target, !self.flags.is_readonly()) {
            Err(e) => {
                return Err(e);
            },
            Ok(_) => {},
        }
        ctx.fill_frame(new_target, data);
        Ok(true)
    }

    /// Shares the page at `addr` between the live table and the new page
    /// table `inpt`, write-protected in both.
    pub fn map_clone(&self, ctx: &mut MemoryContext, inpt: usize, addr: VirtAddr) -> (done: Result<
        (),
        MemoryError,
    >)
        requires
            old(ctx).wf(),
            old(ctx)@.valid_table(inpt),
        ensures
            final(ctx).wf(),
            final(ctx)@.tables.len() == old(ctx)@.tables.len(),
            (final(ctx)@, done) == self.spec_map_clone(old(ctx)@, inpt, addr),            sound(old(ctx)@) && old(ctx)@.valid_table(old(ctx)@.active) && clone_keeps_sound(
                Policy::CopyOnWrite(*self),
                old(ctx)@,
                inpt,
                addr,
            ) ==> sound(final(ctx)@),
    {
        proof {
            if sound(ctx@) && ctx@.valid_table(ctx@.active) && clone_keeps_sound(
                Policy::CopyOnWrite(*self),
                ctx@,
                inpt,
                addr,
            ) {
                lemma_clone_page_keeps_sound(Policy::CopyOnWrite(*self), ctx@, inpt, addr);
            }
        }
        let active = ctx.active_table();
        let mut parent = match ctx.get_entry(active, addr) {
            None => {
                return Err(MemoryError::NotMapped);
            },
            Some(entry) => entry,
        };
        let target = parent.target();
        parent.set_writable(false);
        ctx.update(active, addr, parent);
        let mut entry = ctx.map(inpt, addr, target);
        self.flags.apply(&mut entry);
        entry.set_writable(false);
        entry.set_shared(true);
        ctx.update(inpt, addr, entry);
        ctx.share_frame(target, !self.flags.is_readonly())
    }
}

} // verus!
