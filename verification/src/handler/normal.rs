//! The eager policy.

use vstd::prelude::*;
use crate::addr::VirtAddr;
use crate::context::{MemoryContext, MemoryError, State};
use crate::paging::slot;
use crate::residency::registered_at;
use crate::soundness::{
    clone_keeps_sound, lemma_clone_page_keeps_sound, lemma_map_keeps_sound,
    lemma_page_fault_keeps_sound, lemma_unmap_keeps_sound, map_keeps_sound, sound,
    unmap_keeps_sound,
};
use crate::handler::{fill, install, Fault, Step, Policy};
use crate::memory_set::MemoryAttr;
use crate::paging::Entry;

verus! {

/// The policy of memory that is backed from the start: each page gets a
/// frame of its own when it is mapped and gives it back when it is unmapped.
#[derive(Debug, Clone, Copy, PartialEq, Eq, Structural)]
pub struct NormalMemoryHandler {
    pub flags: MemoryAttr,
}

impl NormalMemoryHandler {
    /// Allocates a frame and binds the page to it, with the area's attributes.
    pub open spec fn spec_map(self, s: State, inpt: usize, addr: VirtAddr) -> Step {
        let (s1, frame) = s.alloc_frame();
        match frame {
            None => (s1, Err(MemoryError::OutOfMemory)),
            Some(target) => (
                install(s1, inpt, addr, self.flags.applied(Entry::mapped(target))),
                Ok(()),
            ),
        }
    }

    /// Frees the page's frame and empties its entry.
    pub open spec fn spec_unmap(self, s: State, inpt: usize, addr: VirtAddr) -> Step {
        match s.entry(inpt, addr) {
            None => (s, Err(MemoryError::NotMapped)),
            Some(e) => (s.dealloc_frame(e.target).unmap(inpt, addr), Ok(())),
        }
    }

    /// Resolves no fault.
    pub open spec fn spec_page_fault(self, s: State, inpt: usize, addr: VirtAddr) -> Fault {
        (s, Ok(false))
    }

    /// Allocates a frame, binds the page to it in the new table, and copies
    /// into it the bytes that the live table has at `addr`.
    pub open spec fn spec_map_clone(self, s: State, inpt: usize, addr: VirtAddr) -> Step {
        let (s1, frame) = s.alloc_frame();
        match frame {
            None => (s1, Err(MemoryError::OutOfMemory)),
            Some(target) => {
                let s2 = install(s1, inpt, addr, self.flags.applied(Entry::mapped(target)));
                match s2.page_content(s2.active, addr) {
                    None => (s2, Err(MemoryError::NotMapped)),
                    Some(data) => (fill(s2, target, data), Ok(())),
                }
            },
        }
    }

    /// An eager policy with the attributes `flags`.
    pub fn new(flags: MemoryAttr) -> (handler: NormalMemoryHandler)
        ensures
            handler == (NormalMemoryHandler { flags }),
    {
        NormalMemoryHandler { flags }
    }

    /// Gives the page at `addr` a frame of its own in the page table `inpt`.
    pub fn map(&self, ctx: &mut MemoryContext, inpt: usize, addr: VirtAddr) -> (done: Result<
        (),
        MemoryError,
    >)
        requires
            old(ctx).wf(),
            old(ctx)@.valid_table(inpt),
        ensures
            final(ctx).wf(),
            final(ctx)@.tables.len() == old(ctx)@.tables.len(),
            (final(ctx)@, done) == self.spec_map(old(ctx)@, inpt, addr),            sound(old(ctx)@) && map_keeps_sound(Policy::Eager(*self), old(ctx)@, inpt, addr) ==> sound(
                final(ctx)@,
            ),
    {
        proof {
            if sound(ctx@) && map_keeps_sound(Policy::Eager(*self), ctx@, inpt, addr) {
                lemma_map_keeps_sound(Policy::Eager(*self), ctx@, inpt, addr);
            }
        }
        let target = match ctx.alloc_frame() {
            None => {
                return Err(MemoryError::OutOfMemory);
            },
            Some(target) => target,
        };
        let mut entry = ctx.map(inpt, addr, target);
        self.flags.apply(&mut entry);
        ctx.update(inpt, addr, entry);
        Ok(())
    }

    /// Frees the frame of the page at `addr` and empties its entry in the
    /// page table `inpt`. Fails if the page has no entry.
    pub fn unmap(&self, ctx: &mut MemoryContext, inpt: usize, addr: VirtAddr) -> (done: Result<
        (),
        MemoryError,
    >)
        requires
            old(ctx).wf(),
            old(ctx)@.valid_table(inpt),
        ensures
            final(ctx).wf(),
            final(ctx)@.tables.len() == old(ctx)@.tables.len(),
            (final(ctx)@, done) == self.spec_unmap(old(ctx)@, inpt, addr),
            sound(old(ctx)@) && unmap_keeps_sound(Policy::Eager(*self), old(ctx)@, inpt, addr) ==> sound(
                final(ctx)@,
            ),
    {
        proof {
            if sound(ctx@) && unmap_keeps_sound(Policy::Eager(*self), ctx@, inpt, addr) {
                lemma_unmap_keeps_sound(Policy::Eager(*self), ctx@, inpt, addr);
            }
        }
        let entry = match ctx.get_entry(inpt, addr) {
            None => {
                return Err(MemoryError::NotMapped);
            },
            Some(entry) => entry,
        };
        ctx.dealloc_frame(entry.target());
        ctx.unmap(inpt, addr);
        Ok(())
    }

    /// Resolves no fault: every page has its frame from the start.
    pub fn page_fault_handler(&self, ctx: &mut MemoryContext, inpt: usize, addr: VirtAddr) -> (done:
        Result<bool, MemoryError>)
        requires
            old(ctx).wf(),
            old(ctx)@.valid_table(inpt),
        ensures
            final(ctx).wf(),
            final(ctx)@.tables.len() == old(ctx)@.tables.len(),
            (final(ctx)@, done) == self.spec_page_fault(old(ctx)@, inpt, addr),            sound(old(ctx)@) && (Policy::Eager(*self) is CopyOnWrite ==> !registered_at(old(ctx)@, inpt, slot(addr) as int)) ==> sound(final(ctx)@),
    {
        proof {
            if sound(ctx@) && (Policy::Eager(*self) is CopyOnWrite ==> !registered_at(ctx@, inpt, slot(addr) as int)) {
                lemma_page_fault_keeps_sound(Policy::Eager(*self), ctx@, inpt, addr);
            }
        }
        Ok(false)
    }

    /// Gives the page at `addr` a frame of its own in the new page table
    /// `inpt` and copies into it the bytes that the live table has there.
    pub fn map_clone(&self, ctx: &mut MemoryContext, inpt: usize, addr: VirtAddr) -> (done: Result<
        (),
        MemoryError,
    >)
        requires
            old(ctx).wf(),
            old(ctx)@.valid_table(inpt),
        ensures
            final(ctx).wf(),
            final(ctx)@.tables.len() == old(ctx)@.tables.len(),
            (final(ctx)@, done) == self.spec_map_clone(old(ctx)@, inpt, addr),            sound(old(ctx)@) && old(ctx)@.valid_table(old(ctx)@.active) && clone_keeps_sound(
                Policy::Eager(*self),
                old(ctx)@,
                inpt,
                addr,
            ) ==> sound(final(ctx)@),
    {
        proof {
            if sound(ctx@) && ctx@.valid_table(ctx@.active) && clone_keeps_sound(
                Policy::Eager(*self),
                ctx@,
                inpt,
                addr,
            ) {
                lemma_clone_page_keeps_sound(Policy::Eager(*self), ctx@, inpt, addr);
            }
        }
        let target = match ctx.alloc_frame() {
            None => {
                return Err(MemoryError::OutOfMemory);
            },
            Some(target) => target,
        };
        let mut entry = ctx.map(inpt, addr, target);
        self.flags.apply(&mut entry);
        ctx.update(inpt, addr, entry);
        let active = ctx.active_table();
        match ctx.read_page(active, addr) {
            None => Err(MemoryError::NotMapped),
            Some(data) => {
                ctx.fill_frame(target, data);
                Ok(())
            },
        }
    }
}

} // verus!
