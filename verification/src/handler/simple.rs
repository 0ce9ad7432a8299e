//! The direct policy.

use vstd::prelude::*;
use crate::addr::{PhysAddr, VirtAddr};
use crate::context::{MemoryContext, MemoryError, State};
use crate::paging::slot;
use crate::residency::registered_at;
use crate::soundness::{
    clone_keeps_sound, lemma_clone_page_keeps_sound, lemma_map_keeps_sound,
    lemma_page_fault_keeps_sound, lemma_unmap_keeps_sound, map_keeps_sound, sound,
    unmap_keeps_sound,
};
use crate::handler::{install, Fault, Step, Policy};
use crate::memory_set::MemoryAttr;
use crate::paging::Entry;

verus! {

/// The frame to which a direct mapping that sends `start` to `phys` sends
/// `addr`: `addr - start + phys`, computed in machine words.
pub open spec fn direct_target(start: VirtAddr, phys: PhysAddr, addr: VirtAddr) -> PhysAddr {
    let d: int = if addr >= start {
        addr - start
    } else {
        addr - start + usize::MAX + 1
    };
    if d + phys <= usize::MAX {
        (d + phys) as usize
    } else {
        (d + phys - usize::MAX - 1) as usize
    }
}

/// The policy of memory that is there already, such as the kernel's own:
/// each page is bound to the frame at a fixed distance, nothing is allocated
/// and nothing is reclaimed.
#[derive(Debug, Clone, Copy, PartialEq, Eq, Structural)]
pub struct SimpleMemoryHandler {
    pub start_addr: VirtAddr,
    pub phys_start_addr: PhysAddr,
    pub flags: MemoryAttr,
}

impl SimpleMemoryHandler {
    /// The frame that the page at `addr` is bound to.
    pub open spec fn spec_target(self, addr: VirtAddr) -> PhysAddr {
        direct_target(self.start_addr, self.phys_start_addr, addr)
    }

    /// Binds the page to its frame, with the area's attributes.
    pub open spec fn spec_map(self, s: State, inpt: usize, addr: VirtAddr) -> Step {
        (
            install(s, inpt, addr, self.flags.applied(Entry::mapped(self.spec_target(addr)))),
            Ok(()),
        )
    }

    /// Empties the page's entry.
    pub open spec fn spec_unmap(self, s: State, inpt: usize, addr: VirtAddr) -> Step {
        (s.unmap(inpt, addr), Ok(()))
    }

    /// Resolves no fault.
    pub open spec fn spec_page_fault(self, s: State, inpt: usize, addr: VirtAddr) -> Fault {
        (s, Ok(false))
    }

    /// Binds the page to the same frame in the new table; no content is copied.
    pub open spec fn spec_map_clone(self, s: State, inpt: usize, addr: VirtAddr) -> Step {
        self.spec_map(s, inpt, addr)
    }

    /// A direct policy that sends `start_addr` to `phys_start_addr`.
    pub fn new(start_addr: VirtAddr, phys_start_addr: PhysAddr, flags: MemoryAttr) -> (handler:
        SimpleMemoryHandler)
        ensures
            handler == (SimpleMemoryHandler { start_addr, phys_start_addr, flags }),
    {
        SimpleMemoryHandler { start_addr, phys_start_addr, flags }
    }

    /// The frame that the page at `addr` is bound to.
    pub fn target(&self, addr: VirtAddr) -> (target: PhysAddr)
        ensures
            target == self.spec_target(addr),
    {
        addr.wrapping_sub(self.start_addr).wrapping_add(self.phys_start_addr)
    }

    /// Binds the page at `addr` to its frame in the page table `inpt`.
    pub fn map(&self, ctx: &mut MemoryContext, inpt: usize, addr: VirtAddr) -> (done: Result<
        (),
        MemoryError,
    >)
        requires
            old(ctx).wf(),
            old(ctx)@.valid_table(inpt),
        ensures
            final(ctx).wf(),
            final(ctx)@.tables.len() == old(ctx)@.tables.len(),
            (final(ctx)@, done) == self.spec_map(old(ctx)@, inpt, addr),            sound(old(ctx)@) && map_keeps_sound(Policy::Direct(*self), old(ctx)@, inpt, addr) ==> sound(
                final(ctx)@,
            ),
    {
        proof {
            if sound(ctx@) && map_keeps_sound(Policy::Direct(*self), ctx@, inpt, addr) {
                lemma_map_keeps_sound(Policy::Direct(*self), ctx@, inpt, addr);
            }
        }
        let target = self.target(addr);
        let mut entry = ctx.map(inpt, addr, target);
        self.flags.apply(&mut entry);
        ctx.update(inpt, addr, entry);
        Ok(())
    }

    /// Empties the entry of the page at `addr` in the page table `inpt`.
    pub fn unmap(&self, ctx: &mut MemoryContext, inpt: usize, addr: VirtAddr) -> (done: Result<
        (),
        MemoryError,
    >)
        requires
            old(ctx).wf(),
            old(ctx)@.valid_table(inpt),
        ensures
            final(ctx).wf(),
            final(ctx)@.tables.len() == old(ctx)@.tables.len(),
            (final(ctx)@, done) == self.spec_unmap(old(ctx)@, inpt, addr),
            sound(old(ctx)@) && unmap_keeps_sound(Policy::Direct(*self), old(ctx)@, inpt, addr) ==> sound(
                final(ctx)@,
            ),
    {
        proof {
            if sound(ctx@) && unmap_keeps_sound(Policy::Direct(*self), ctx@, inpt, addr) {
                lemma_unmap_keeps_sound(Policy::Direct(*self), ctx@, inpt, addr);
            }
        }
        ctx.unmap(inpt, addr);
        Ok(())
    }

    /// Resolves no fault: the policy has nothing to bring in.
    pub fn page_fault_handler(&self, ctx: &mut MemoryContext, inpt: usize, addr: VirtAddr) -> (done:
        Result<bool, MemoryError>)
        requires
            old(ctx).wf(),
            old(ctx)@.valid_table(inpt),
        ensures
            final(ctx).wf(),
            final(ctx)@.tables.len() == old(ctx)@.tables.len(),
            (final(ctx)@, done) == self.spec_page_fault(old(ctx)@, inpt, addr),            sound(old(ctx)@) && (Policy::Direct(*self) is CopyOnWrite ==> !registered_at(old(ctx)@, inpt, slot(addr) as int)) ==> sound(final(ctx)@),
    {
        proof {
            if sound(ctx@) && (Policy::Direct(*self) is CopyOnWrite ==> !registered_at(ctx@, inpt, slot(addr) as int)) {
                lemma_page_fault_keeps_sound(Policy::Direct(*self), ctx@, inpt, addr);
            }
        }
        Ok(false)
    }

    /// Binds the page at `addr` to the same frame in the new page table `inpt`.
    pub fn map_clone(&self, ctx: &mut MemoryContext, inpt: usize, addr: VirtAddr) -> (done: Result<
        (),
        MemoryError,
    >)
        requires
            old(ctx).wf(),
            old(ctx)@.valid_table(inpt),
        ensures
            final(ctx).wf(),
            final(ctx)@.tables.len() == old(ctx)@.tables.len(),
            (final(ctx)@, done) == self.spec_map_clone(old(ctx)@, inpt, addr),            sound(old(ctx)@) && old(ctx)@.valid_table(old(ctx)@.active) && clone_keeps_sound(
                Policy::Direct(*self),
                old(ctx)@,
                inpt,
                addr,
            ) ==> sound(final(ctx)@),
    {
        proof {
            if sound(ctx@) && ctx@.valid_table(ctx@.active) && clone_keeps_sound(
                Policy::Direct(*self),
                ctx@,
                inpt,
                addr,
            ) {
                lemma_clone_page_keeps_sound(Policy::Direct(*self), ctx@, inpt, addr);
            }
        }
        self.map(ctx, inpt, addr)
    }
}

} // verus!
