//! The mapping policies: how the pages of an area are bound to frames, given
//! up again, brought in on a fault, and carried over to a forked address space.

pub mod cow;
pub mod normal;
pub mod simple;
pub mod swap;

use vstd::prelude::*;
use crate::addr::{PhysAddr, VirtAddr};
use crate::context::{MemoryContext, MemoryError, State};
use crate::memory_set::MemoryAttr;
use crate::paging::{slot, Entry};
use crate::residency::registered_at;
use crate::soundness::{clone_keeps_sound, map_keeps_sound, sound, unmap_keeps_sound};
use self::cow::CowMemoryHandler;
use self::normal::NormalMemoryHandler;
use self::simple::SimpleMemoryHandler;
use self::swap::SwapMemoryHandler;

verus! {

/// A state and whether the step that led to it succeeded.
pub type Step = (State, Result<(), MemoryError>);

/// A state and whether the fault that led to it was resolved.
pub type Fault = (State, Result<bool, MemoryError>);

/// The state after the page of `addr` is bound in `table` with `entry` as its entry.
pub open spec fn install(s: State, table: usize, addr: VirtAddr, entry: Entry) -> State {
    s.map(table, addr, entry.target).update(table, addr, entry)
}

/// The state after the bytes `data` are put into `frame`.
pub open spec fn fill(s: State, frame: PhysAddr, data: Seq<u8>) -> State {
    State { memory: s.memory.insert(frame, data), ..s }
}

/// Installing an entry gives the page's slot that entry and leaves every
/// other slot, and everything but the table, as it was.
pub proof fn lemma_install(s: State, table: usize, addr: VirtAddr, entry: Entry)
    requires
        s.valid_table(table),
    ensures
        install(s, table, addr, entry) == s.with_entries(
            table,
            s.tables[table as int].insert(slot(addr), entry),
        ),
        install(s, table, addr, entry).entry(table, addr) == Some(entry),
{
    assert(install(s, table, addr, entry) =~~= s.with_entries(
        table,
        s.tables[table as int].insert(slot(addr), entry),
    ));
}

/// A mapping policy as a mathematical value.
#[verifier::ext_equal]
pub enum Policy {
    /// Bind each page to the frame at a fixed distance.
    Direct(SimpleMemoryHandler),
    /// Give each page a frame of its own at once.
    Eager(NormalMemoryHandler),
    /// Give each page a frame that may be taken away again; the pages of
    /// `delay` get theirs when they are first touched.
    Swappable { flags: MemoryAttr, delay: Seq<VirtAddr> },
    /// Share each page's frame with forked address spaces until one writes.
    CopyOnWrite(CowMemoryHandler),
}

/// A state, a policy, and whether the step that led to them succeeded.
pub type PolicyStep = (State, Policy, Result<(), MemoryError>);

impl Policy {
    /// The attributes that the policy gives to its pages.
    pub open spec fn flags(self) -> MemoryAttr {
        match self {
            Policy::Direct(h) => h.flags,
            Policy::Eager(h) => h.flags,
            Policy::Swappable { flags, delay } => flags,
            Policy::CopyOnWrite(h) => h.flags,
        }
    }

    /// The policy that a forked area starts with: the same, with no page delayed.
    pub open spec fn box_clone(self) -> Policy {
        match self {
            Policy::Swappable { flags, delay } => Policy::Swappable {
                flags,
                delay: Seq::<VirtAddr>::empty(),
            },
            _ => self,
        }
    }

    /// Maps the page at `addr` in table `inpt`.
    pub open spec fn map(self, s: State, inpt: usize, addr: VirtAddr) -> Step {
        match self {
            Policy::Direct(h) => h.spec_map(s, inpt, addr),
            Policy::Eager(h) => h.spec_map(s, inpt, addr),
            Policy::Swappable { flags, delay } => SwapMemoryHandler::spec_map(
                flags,
                delay,
                s,
                inpt,
                addr,
            ),
            Policy::CopyOnWrite(h) => h.spec_map(s, inpt, addr),
        }
    }

    /// Unmaps the page at `addr` in table `inpt`.
    pub open spec fn unmap(self, s: State, inpt: usize, addr: VirtAddr) -> Step {
        match self {
            Policy::Direct(h) => h.spec_unmap(s, inpt, addr),
            Policy::Eager(h) => h.spec_unmap(s, inpt, addr),
            Policy::Swappable { flags, delay } => SwapMemoryHandler::spec_unmap(s, inpt, addr),
            Policy::CopyOnWrite(h) => h.spec_unmap(s, inpt, addr),
        }
    }

    /// Handles a fault at `addr` in table `inpt`.
    pub open spec fn page_fault(self, s: State, inpt: usize, addr: VirtAddr) -> Fault {
        match self {
            Policy::Direct(h) => h.spec_page_fault(s, inpt, addr),
            Policy::Eager(h) => h.spec_page_fault(s, inpt, addr),
            Policy::Swappable { flags, delay } => SwapMemoryHandler::spec_page_fault(
                flags,
                delay,
                s,
                inpt,
                addr,
            ),
            Policy::CopyOnWrite(h) => h.spec_page_fault(s, inpt, addr),
        }
    }

    /// Carries the page at `addr` of the live table over to table `inpt`.
    pub open spec fn map_clone(self, s: State, inpt: usize, addr: VirtAddr) -> PolicyStep {
        match self {
            Policy::Direct(h) => {
                let (s1, r) = h.spec_map_clone(s, inpt, addr);
                (s1, self, r)
            },
            Policy::Eager(h) => {
                let (s1, r) = h.spec_map_clone(s, inpt, addr);
                (s1, self, r)
            },
            Policy::Swappable { flags, delay } => {
                let (s1, d, r) = SwapMemoryHandler::spec_map_clone(flags, delay, s, inpt, addr);
                (s1, Policy::Swappable { flags, delay: d }, r)
            },
            Policy::CopyOnWrite(h) => {
                let (s1, r) = h.spec_map_clone(s, inpt, addr);
                (s1, self, r)
            },
        }
    }
}

/// The mapping policy of a memory area.
#[derive(Debug)]
pub enum MemoryHandler {
    Direct(SimpleMemoryHandler),
    Eager(NormalMemoryHandler),
    Swappable(SwapMemoryHandler),
    CopyOnWrite(CowMemoryHandler),
}

impl View for MemoryHandler {
    type V = Policy;

    open spec fn view(&self) -> Policy {
        match self {
            MemoryHandler::Direct(h) => Policy::Direct(*h),
            MemoryHandler::Eager(h) => Policy::Eager(*h),
            MemoryHandler::Swappable(h) => Policy::Swappable {
                flags: h.flags,
                delay: h.delay_alloc@,
            },
            MemoryHandler::CopyOnWrite(h) => Policy::CopyOnWrite(*h),
        }
    }
}

impl MemoryHandler {
    /// The handler that a forked area starts with: the same policy and
    /// attributes, with no page delayed.
    pub fn box_clone(&self) -> (handler: MemoryHandler)
        ensures
            handler@ == self@.box_clone(),
    {
        match self {
            MemoryHandler::Direct(h) => MemoryHandler::Direct(*h),
            MemoryHandler::Eager(h) => MemoryHandler::Eager(*h),
            MemoryHandler::Swappable(h) => {
                let fresh = SwapMemoryHandler::new(h.flags, Vec::new());
                assert(fresh.delay_alloc@ =~= Seq::<VirtAddr>::empty());
                MemoryHandler::Swappable(fresh)
            },
            MemoryHandler::CopyOnWrite(h) => MemoryHandler::CopyOnWrite(*h),
        }
    }

    /// Maps the page at `addr` in the page table `inpt`.
    pub fn map(&self, ctx: &mut MemoryContext, inpt: usize, addr: VirtAddr) -> (done: Result<
        (),
        MemoryError,
    >)
        requires
            old(ctx).wf(),
            old(ctx)@.valid_table(inpt),
        ensures
            final(ctx).wf(),
            final(ctx)@.tables.len() == old(ctx)@.tables.len(),
            (final(ctx)@, done) == self@.map(old(ctx)@, inpt, addr),
            sound(old(ctx)@) && map_keeps_sound(self@, old(ctx)@, inpt, addr) ==> sound(final(ctx)@),
    {
        match self {
            MemoryHandler::Direct(h) => h.map(ctx, inpt, addr),
            MemoryHandler::Eager(h) => h.map(ctx, inpt, addr),
            MemoryHandler::Swappable(h) => h.map(ctx, inpt, addr),
            MemoryHandler::CopyOnWrite(h) => h.map(ctx, inpt, addr),
        }
    }

    /// Unmaps the page at `addr` in the page table `inpt`.
    pub fn unmap(&self, ctx: &mut MemoryContext, inpt: usize, addr: VirtAddr) -> (done: Result<
        (),
        MemoryError,
    >)
        requires
            old(ctx).wf(),
            old(ctx)@.valid_table(inpt),
        ensures
            final(ctx).wf(),
            final(ctx)@.tables.len() == old(ctx)@.tables.len(),
            (final(ctx)@, done) == self@.unmap(old(ctx)@, inpt, addr),
            sound(old(ctx)@) && unmap_keeps_sound(self@, old(ctx)@, inpt, addr) ==> sound(
                final(ctx)@,
            ),
    {
        match self {
            MemoryHandler::Direct(h) => h.unmap(ctx, inpt, addr),
            MemoryHandler::Eager(h) => h.unmap(ctx, inpt, addr),
            MemoryHandler::Swappable(h) => h.unmap(ctx, inpt, addr),
            MemoryHandler::CopyOnWrite(h) => h.unmap(ctx, inpt, addr),
        }
    }

    /// Handles a fault at `addr` in the page table `inpt`. Returns whether
    /// the fault was resolved.
    pub fn page_fault_handler(&self, ctx: &mut MemoryContext, inpt: usize, addr: VirtAddr) -> (done:
        Result<bool, MemoryError>)
        requires
            old(ctx).wf(),
            old(ctx)@.valid_table(inpt),
        ensures
            final(ctx).wf(),
            final(ctx)@.tables.len() == old(ctx)@.tables.len(),
            (final(ctx)@, done) == self@.page_fault(old(ctx)@, inpt, addr),
            sound(old(ctx)@) && (self@ is CopyOnWrite ==> !registered_at(
                old(ctx)@,
                inpt,
                slot(addr) as int,
            )) ==> sound(final(ctx)@),
    {
        match self {
            MemoryHandler::Direct(h) => h.page_fault_handler(ctx, inpt, addr),
            MemoryHandler::Eager(h) => h.page_fault_handler(ctx, inpt, addr),
            MemoryHandler::Swappable(h) => h.page_fault_handler(ctx, inpt, addr),
            MemoryHandler::CopyOnWrite(h) => h.page_fault_handler(ctx, inpt, addr),
        }
    }

    /// Carries the page at `addr` of the live table over to the new page
    /// table `inpt`.
    pub fn map_clone(&mut self, ctx: &mut MemoryContext, inpt: usize, addr: VirtAddr) -> (done:
        Result<(), MemoryError>)
        requires
            old(ctx).wf(),
            old(ctx)@.valid_table(inpt),
        ensures
            final(ctx).wf(),
            final(ctx)@.tables.len() == old(ctx)@.tables.len(),
            (final(ctx)@, final(self)@, done) == old(self)@.map_clone(old(ctx)@, inpt, addr),
            sound(old(ctx)@) && old(ctx)@.valid_table(old(ctx)@.active) && clone_keeps_sound(
                old(self)@,
                old(ctx)@,
                inpt,
                addr,
            ) ==> sound(final(ctx)@),
    {
        match self {
            MemoryHandler::Direct(h) => h.map_clone(ctx, inpt, addr),
            MemoryHandler::Eager(h) => h.map_clone(ctx, inpt, addr),
            MemoryHandler::Swappable(h) => h.map_clone(ctx, inpt, addr),
            MemoryHandler::CopyOnWrite(h) => h.map_clone(ctx, inpt, addr),
        }
    }
}

} // verus!
