//! Memory attributes, memory areas and memory sets.

use vstd::prelude::*;
use crate::addr::{page_bound, page_number, Page, PhysAddr, VirtAddr};
use crate::context::{MemoryContext, MemoryError, State};
use crate::handler::{Fault, MemoryHandler, Policy, PolicyStep, Step};
use crate::paging::{slot, Entry, PageTable};
use crate::residency::registered_at;
use crate::soundness::{
    area_clones_soundly, area_maps_soundly, clears_soundly, clone_keeps_sound, forks_soundly,
    lemma_clone_pages_keeps_sound, lemma_map_pages_keeps_sound, map_keeps_sound, lemma_clear_keeps_valid, lemma_fork_keeps_valid,
    lemma_new_set_is_valid, lemma_page_fault_keeps_sound, lemma_push_keeps_valid,
    lemma_unmap_pages_keeps_sound, pushes_soundly, registers_only_in, sound, unmap_pages_soundly,
    valid,
};

verus! {

/// The attributes of a memory area: who may reach its pages, and how.
#[derive(Debug, Copy, Clone, Eq, PartialEq, Structural)]
pub struct MemoryAttr {
    pub user: bool,
    pub readonly: bool,
    pub execute: bool,
}

impl Default for MemoryAttr {
    /// Kernel-only, writable, not executable.
    fn default() -> (attr: MemoryAttr)
        ensures
            attr == (MemoryAttr { user: false, readonly: false, execute: false }),
    {
        MemoryAttr { user: false, readonly: false, execute: false }
    }
}

impl MemoryAttr {
    /// `entry` with these attributes applied: present, and its user, writable
    /// and execute bits set from the attributes.
    pub open spec fn applied(self, entry: Entry) -> Entry {
        Entry {
            present: true,
            user: self.user,
            writable: !self.readonly,
            execute: self.execute,
            ..entry
        }
    }

    /// The same attributes, with user access.
    pub fn user(self) -> (attr: MemoryAttr)
        ensures
            attr == (MemoryAttr { user: true, ..self }),
    {
        MemoryAttr { user: true, readonly: self.readonly, execute: self.execute }
    }

    /// The same attributes, read-only.
    pub fn readonly(self) -> (attr: MemoryAttr)
        ensures
            attr == (MemoryAttr { readonly: true, ..self }),
    {
        MemoryAttr { user: self.user, readonly: true, execute: self.execute }
    }

    /// The same attributes, executable.
    pub fn execute(self) -> (attr: MemoryAttr)
        ensures
            attr == (MemoryAttr { execute: true, ..self }),
    {
        MemoryAttr { user: self.user, readonly: self.readonly, execute: true }
    }

    /// Applies the attributes to a page-table entry.
    pub fn apply(&self, entry: &mut Entry)
        ensures
            *final(entry) == self.applied(*old(entry)),
    {
        entry.set_present(true);
        entry.set_user(self.user);
        entry.set_writable(!self.readonly);
        entry.set_execute(self.execute);
    }

    /// Whether the attributes forbid writing.
    pub fn is_readonly(&self) -> (readonly: bool)
        ensures
            readonly == self.readonly,
    {
        self.readonly
    }
}

/// The address of the first byte of page `page`.
pub open spec fn page_addr(page: int) -> VirtAddr {
    (page * 4096) as usize
}

/// Maps the pages `page` up to, not including, `end` in rising order, and
/// stops at the first that fails.
pub open spec fn map_pages(policy: Policy, s: State, inpt: usize, page: int, end: int) -> Step
    decreases end - page,
{
    if page >= end {
        (s, Ok(()))
    } else {
        let (s1, r) = policy.map(s, inpt, page_addr(page));
        match r {
            Err(e) => (s1, Err(e)),
            Ok(_) => map_pages(policy, s1, inpt, page + 1, end),
        }
    }
}

/// Unmaps the pages `page` up to, not including, `end` in rising order, and
/// stops at the first that fails.
pub open spec fn unmap_pages(policy: Policy, s: State, inpt: usize, page: int, end: int) -> Step
    decreases end - page,
{
    if page >= end {
        (s, Ok(()))
    } else {
        let (s1, r) = policy.unmap(s, inpt, page_addr(page));
        match r {
            Err(e) => (s1, Err(e)),
            Ok(_) => unmap_pages(policy, s1, inpt, page + 1, end),
        }
    }
}

/// Carries the pages `page` up to, not including, `end` over to table `inpt`
/// in rising order, and stops at the first that fails.
pub open spec fn clone_pages(policy: Policy, s: State, inpt: usize, page: int, end: int) -> PolicyStep
    decreases end - page,
{
    if page >= end {
        (s, policy, Ok(()))
    } else {
        let (s1, carried, r) = policy.map_clone(s, inpt, page_addr(page));
        match r {
            Err(e) => (s1, carried, Err(e)),
            Ok(_) => clone_pages(carried, s1, inpt, page + 1, end),
        }
    }
}

/// A memory area as a mathematical value.
#[verifier::ext_equal]
pub struct Area {
    pub start: VirtAddr,
    pub end: VirtAddr,
    pub policy: Policy,
    pub name: Seq<char>,
}

impl Area {
    /// The area does not end before it starts.
    pub open spec fn wf(self) -> bool {
        self.start <= self.end
    }

    /// Whether `addr` lies in the area.
    pub open spec fn contains(self, addr: VirtAddr) -> bool {
        self.start <= addr < self.end
    }

    /// The number of the area's first page.
    pub open spec fn first_page(self) -> int {
        page_number(self.start as int)
    }

    /// The number of the page after the area's last.
    pub open spec fn end_page(self) -> int {
        page_bound(self.end as int)
    }

    /// Whether page `page` is one of the area's pages.
    pub open spec fn has_page(self, page: int) -> bool {
        self.first_page() <= page < self.end_page()
    }

    /// Whether neither area lies wholly before the other, page-wise.
    pub open spec fn overlaps(self, other: Area) -> bool {
        !(self.end_page() <= other.first_page() || self.first_page() >= other.end_page())
    }

    /// Maps every page of the area in table `inpt`.
    pub open spec fn map(self, s: State, inpt: usize) -> Step {
        map_pages(self.policy, s, inpt, self.first_page(), self.end_page())
    }

    /// Unmaps every page of the area in table `inpt`.
    pub open spec fn unmap(self, s: State, inpt: usize) -> Step {
        unmap_pages(self.policy, s, inpt, self.first_page(), self.end_page())
    }

    /// Carries every page of the area over to table `inpt`.
    pub open spec fn map_clone(self, s: State, inpt: usize) -> PolicyStep {
        clone_pages(self.policy, s, inpt, self.first_page(), self.end_page())
    }

    /// The area that a forked address space starts with.
    pub open spec fn box_clone(self) -> Area {
        Area { policy: self.policy.box_clone(), ..self }
    }
}

/// A stretch of virtual memory whose pages are all mapped by one policy.
#[derive(Debug)]
pub struct MemoryArea {
    pub start_addr: VirtAddr,
    pub end_addr: VirtAddr,
    pub memory_handler: MemoryHandler,
    pub name: &'static str,
}

impl View for MemoryArea {
    type V = Area;

    open spec fn view(&self) -> Area {
        Area {
            start: self.start_addr,
            end: self.end_addr,
            policy: self.memory_handler@,
            name: self.name@,
        }
    }
}

impl Clone for MemoryArea {
    /// The area that a forked address space starts with: the same stretch,
    /// name and policy, with no page delayed.
    fn clone(&self) -> (area: MemoryArea)
        ensures
            area@ == self@.box_clone(),
    {
        MemoryArea {
            start_addr: self.start_addr,
            end_addr: self.end_addr,
            memory_handler: self.memory_handler.box_clone(),
            name: self.name,
        }
    }
}

impl MemoryArea {
    /// The area `[start_addr, end_addr)`, mapped by `memory_handler`.
    pub fn new(
        start_addr: VirtAddr,
        end_addr: VirtAddr,
        memory_handler: MemoryHandler,
        name: &'static str,
    ) -> (area: MemoryArea)
        requires
            start_addr <= end_addr,
        ensures
            area.start_addr == start_addr,
            area.end_addr == end_addr,
            area.memory_handler == memory_handler,
            area.name == name,
            area@.wf(),
    {
        MemoryArea { start_addr, end_addr, memory_handler, name }
    }

    /// Whether `addr` lies in the area.
    pub fn contains(&self, addr: VirtAddr) -> (inside: bool)
        ensures
            inside == self@.contains(addr),
    {
        addr >= self.start_addr && addr < self.end_addr
    }

    /// Whether the pages of the two areas overlap: whether neither area lies
    /// wholly before the other once both are rounded out to whole pages.
    pub fn is_overlap_with(&self, other: &MemoryArea) -> (overlap: bool)
        ensures
            overlap == self@.overlaps(other@),
    {
        let mine = Page::range_of(self.start_addr, self.end_addr);
        let theirs = Page::range_of(other.start_addr, other.end_addr);
        !(mine.end.number <= theirs.start.number || mine.start.number >= theirs.end.number)
    }

    /// Maps every page of the area in the page table `inpt`, lowest first.
    /// Stops at the first page that fails.
    pub fn map(&self, ctx: &mut MemoryContext, inpt: usize) -> (done: Result<(), MemoryError>)
        requires
            old(ctx).wf(),
            old(ctx)@.valid_table(inpt),
        ensures
            final(ctx).wf(),
            final(ctx)@.tables.len() == old(ctx)@.tables.len(),
            (final(ctx)@, done) == self@.map(old(ctx)@, inpt),
            sound(old(ctx)@) && area_maps_soundly(self@, old(ctx)@, inpt) ==> sound(final(ctx)@),
    {
        proof {
            if sound(ctx@) && area_maps_soundly(self@, ctx@, inpt) {
                assert forall|q: int|
                    self@.first_page() <= q < self@.end_page() implies map_keeps_sound(
                    self@.policy,
                    ctx@,
                    inpt,
                    #[trigger] page_addr(q),
                ) by {
                    assert(self@.has_page(q));
                }
                lemma_map_pages_keeps_sound(
                    self@.policy,
                    ctx@,
                    inpt,
                    self@.first_page(),
                    self@.end_page(),
                );
            }
        }
        let mut range = Page::range_of(self.start_addr, self.end_addr);
        loop
            invariant
                ctx.wf(),
                ctx@.tables.len() == old(ctx)@.tables.len(),
                old(ctx)@.valid_table(inpt),
                range.wf(),
                range.end.number == self@.end_page(),
                map_pages(
                    self@.policy,
                    ctx@,
                    inpt,
                    range.start.number as int,
                    range.end.number as int,
                ) == self@.map(old(ctx)@, inpt),
                sound(old(ctx)@) && area_maps_soundly(self@, old(ctx)@, inpt) ==> sound(
                    self@.map(old(ctx)@, inpt).0,
                ),
            decreases range.spec_len(),
        {
            match range.next() {
                None => {
                    return Ok(());
                },
                Some(page) => {
                    let addr = page.start_address();
                    match self.memory_handler.map(ctx, inpt, addr) {
                        Err(e) => {
                            return Err(e);
                        },
                        Ok(_) => {},
                    }
                },
            }
        }
    }

    /// Unmaps every page of the area in the page table `inpt`, lowest first.
    /// Stops at the first page that fails.
    pub fn unmap(&self, ctx: &mut MemoryContext, inpt: usize) -> (done: Result<(), MemoryError>)
        requires
            old(ctx).wf(),
            old(ctx)@.valid_table(inpt),
        ensures
            final(ctx).wf(),
            final(ctx)@.tables.len() == old(ctx)@.tables.len(),
            (final(ctx)@, done) == self@.unmap(old(ctx)@, inpt),
            sound(old(ctx)@) && unmap_pages_soundly(
                self@.policy,
                old(ctx)@,
                inpt,
                self@.first_page(),
                self@.end_page(),
            ) ==> sound(final(ctx)@),
    {
        proof {
            if sound(ctx@) && unmap_pages_soundly(
                self@.policy,
                ctx@,
                inpt,
                self@.first_page(),
                self@.end_page(),
            ) {
                lemma_unmap_pages_keeps_sound(
                    self@.policy,
                    ctx@,
                    inpt,
                    self@.first_page(),
                    self@.end_page(),
                );
            }
        }
        let mut range = Page::range_of(self.start_addr, self.end_addr);
        loop
            invariant
                ctx.wf(),
                ctx@.tables.len() == old(ctx)@.tables.len(),
                old(ctx)@.valid_table(inpt),
                range.wf(),
                range.end.number == self@.end_page(),
                unmap_pages(
                    self@.policy,
                    ctx@,
                    inpt,
                    range.start.number as int,
                    range.end.number as int,
                ) == self@.unmap(old(ctx)@, inpt),
                sound(old(ctx)@) && unmap_pages_soundly(
                    self@.policy,
                    old(ctx)@,
                    inpt,
                    self@.first_page(),
                    self@.end_page(),
                ) ==> sound(self@.unmap(old(ctx)@, inpt).0),
            decreases range.spec_len(),
        {
            match range.next() {
                None => {
                    return Ok(());
                },
                Some(page) => {
                    let addr = page.start_address();
                    match self.memory_handler.unmap(ctx, inpt, addr) {
                        Err(e) => {
                            return Err(e);
                        },
                        Ok(_) => {},
                    }
                },
            }
        }
    }

    /// The address at which the area starts.
    pub fn get_start_addr(&self) -> (addr: VirtAddr)
        ensures
            addr == self.start_addr,
    {
        self.start_addr
    }

    /// The address at which the area ends.
    pub fn get_end_addr(&self) -> (addr: VirtAddr)
        ensures
            addr == self.end_addr,
    {
        self.end_addr
    }

    /// Hands a fault at `addr` in the page table `inpt` to the area's policy.
    /// Returns whether the fault was resolved. A sound context stays sound,
    /// provided that under the copy-on-write policy the page is not
    /// registered as one that may be evicted.
    pub fn page_fault_handler(&self, ctx: &mut MemoryContext, inpt: usize, addr: VirtAddr) -> (done:
        Result<bool, MemoryError>)
        requires
            old(ctx).wf(),
            old(ctx)@.valid_table(inpt),
        ensures
            final(ctx).wf(),
            final(ctx)@.tables.len() == old(ctx)@.tables.len(),
            (final(ctx)@, done) == self@.policy.page_fault(old(ctx)@, inpt, addr),
            sound(old(ctx)@) && (self@.policy is CopyOnWrite ==> !registered_at(
                old(ctx)@,
                inpt,
                slot(addr) as int,
            )) ==> sound(final(ctx)@),
    {
        proof {
            if sound(ctx@) && (self@.policy is CopyOnWrite ==> !registered_at(
                ctx@,
                inpt,
                slot(addr) as int,
            )) {
                lemma_page_fault_keeps_sound(self@.policy, ctx@, inpt, addr);
            }
        }
        self.memory_handler.page_fault_handler(ctx, inpt, addr)
    }

    /// Carries every page of the area over from the live table to the new
    /// page table `inpt`, lowest first. Stops at the first page that fails.
    pub fn map_clone(&mut self, ctx: &mut MemoryContext, inpt: usize) -> (done: Result<
        (),
        MemoryError,
    >)
        requires
            old(ctx).wf(),
            old(ctx)@.valid_table(inpt),
        ensures
            final(ctx).wf(),
            final(ctx)@.tables.len() == old(ctx)@.tables.len(),
            final(self)@ == (Area { policy: final(self)@.policy, ..old(self)@ }),
            (final(ctx)@, final(self)@.policy, done) == old(self)@.map_clone(old(ctx)@, inpt),
            sound(old(ctx)@) && area_clones_soundly(old(self)@, old(ctx)@, inpt) ==> sound(
                final(ctx)@,
            ),
    {
        proof {
            if sound(ctx@) && area_clones_soundly(self@, ctx@, inpt) {
                assert forall|q: int|
                    self@.first_page() <= q < self@.end_page() implies clone_keeps_sound(
                    self@.policy,
                    ctx@,
                    inpt,
                    #[trigger] page_addr(q),
                ) by {
                    assert(self@.has_page(q));
                }
                lemma_clone_pages_keeps_sound(
                    self@.policy,
                    ctx@,
                    inpt,
                    self@.first_page(),
                    self@.end_page(),
                );
            }
        }
        let mut range = Page::range_of(self.start_addr, self.end_addr);
        loop
            invariant
                ctx.wf(),
                ctx@.tables.len() == old(ctx)@.tables.len(),
                old(ctx)@.valid_table(inpt),
                range.wf(),
                range.end.number == old(self)@.end_page(),
                self@ == (Area { policy: self@.policy, ..old(self)@ }),
                clone_pages(
                    self@.policy,
                    ctx@,
                    inpt,
                    range.start.number as int,
                    range.end.number as int,
                ) == old(self)@.map_clone(old(ctx)@, inpt),
                sound(old(ctx)@) && area_clones_soundly(old(self)@, old(ctx)@, inpt) ==> sound(
                    old(self)@.map_clone(old(ctx)@, inpt).0,
                ),
            decreases range.spec_len(),
        {
            match range.next() {
                None => {
                    return Ok(());
                },
                Some(page) => {
                    let addr = page.start_address();
                    match self.memory_handler.map_clone(ctx, inpt, addr) {
                        Err(e) => {
                            return Err(e);
                        },
                        Ok(_) => {},
                    }
                },
            }
        }
    }
}

/// A page table that need not be the live one, named by its handle in the
/// shared context.
#[derive(Debug, Clone, Copy, PartialEq, Eq, Structural)]
pub struct InactivePageTable {
    pub id: usize,
}

impl InactivePageTable {
    /// A new page table that starts as a copy of the kernel's table.
    pub fn new(ctx: &mut MemoryContext) -> (table: InactivePageTable)
        requires
            old(ctx).wf(),
        ensures
            final(ctx).wf(),
            table.id == old(ctx)@.tables.len(),
            final(ctx)@ == old(ctx)@.new_table(false),
    {
        InactivePageTable { id: ctx.new_table(false) }
    }

    /// A new page table in which nothing is mapped.
    pub fn new_bare(ctx: &mut MemoryContext) -> (table: InactivePageTable)
        requires
            old(ctx).wf(),
        ensures
            final(ctx).wf(),
            table.id == old(ctx)@.tables.len(),
            final(ctx)@ == old(ctx)@.new_table(true),
    {
        InactivePageTable { id: ctx.new_table(true) }
    }

    /// Makes this table the live one.
    pub fn activate(&self, ctx: &mut MemoryContext)
        requires
            old(ctx).wf(),
            old(ctx)@.valid_table(self.id),
        ensures
            final(ctx).wf(),
            final(ctx)@ == (State { active: self.id, ..old(ctx)@ }),
    {
        ctx.activate(self.id);
    }

    /// Hands out this table for editing, whether or not it is the live one.
    /// What the caller does to the table handed out is done to this table
    /// in the context; nothing else in the context changes.
    pub fn edit<'a>(&self, ctx: &'a mut MemoryContext) -> (table: &'a mut PageTable)
        requires
            old(ctx).wf(),
            old(ctx)@.valid_table(self.id),
        ensures
            table@ == old(ctx)@.tables[self.id as int],
            final(ctx)@ == old(ctx)@.with_entries(self.id, final(table)@),
            final(ctx).wf(),
    {
        &mut ctx.tables[self.id]
    }

    /// Runs `f` on the context while this table is the live one, and makes
    /// the table that was live before live again. What `f` sees is the
    /// context as it was, but for the live table, which is this one.
    pub fn with<T, F: FnOnce(&MemoryContext) -> T>(&self, ctx: &mut MemoryContext, f: F) -> (ret: T)
        requires
            old(ctx).wf(),
            old(ctx)@.valid_table(self.id),
            forall|live: MemoryContext|
                live@ == (State { active: self.id, ..old(ctx)@ }) ==> f.requires((&live,)),
        ensures
            final(ctx).wf(),
            final(ctx)@ == old(ctx)@,
            exists|live: MemoryContext|
                live@ == (State { active: self.id, ..old(ctx)@ }) && f.ensures((&live,), ret),
    {
        let previous = ctx.active_table();
        ctx.activate(self.id);
        let ghost live = *ctx;
        let ret = f(&*ctx);
        assert(live@ == (State { active: self.id, ..old(ctx)@ }) && f.ensures((&live,), ret));
        ctx.activate(previous);
        assert(ctx@ =~~= old(ctx)@);
        ret
    }

    /// The handle that names this table.
    pub fn token(&self) -> (token: usize)
        ensures
            token == self.id,
    {
        self.id
    }

    /// Allocates a frame for an address space.
    pub fn alloc_frame(ctx: &mut MemoryContext) -> (frame: Option<PhysAddr>)
        requires
            old(ctx).wf(),
        ensures
            final(ctx).wf(),
            (final(ctx)@, frame) == old(ctx)@.alloc_frame(),
            frame is Some <==> old(ctx)@.can_alloc(),
            sound(old(ctx)@) ==> sound(final(ctx)@) && (frame is Some ==> crate::soundness::spare(
                final(ctx)@,
                frame.unwrap(),
            )),
    {
        ctx.alloc_frame()
    }

    /// Gives the frame at `target` back.
    pub fn dealloc_frame(ctx: &mut MemoryContext, target: PhysAddr)
        requires
            old(ctx).wf(),
        ensures
            final(ctx).wf(),
            final(ctx)@ == old(ctx)@.dealloc_frame(target),
    {
        ctx.dealloc_frame(target);
    }
}

/// The areas of a sequence of memory areas, as mathematical values.
pub open spec fn areas_view(areas: Seq<MemoryArea>) -> Seq<Area> {
    Seq::new(areas.len(), |i: int| areas[i]@)
}

/// Whether `area` overlaps one of `areas`.
pub open spec fn overlaps_any(areas: Seq<Area>, area: Area) -> bool {
    exists|i: int| 0 <= i < areas.len() && area.overlaps(#[trigger] areas[i])
}

/// No two of `areas` overlap.
pub open spec fn pairwise_disjoint(areas: Seq<Area>) -> bool {
    forall|i: int, j: int|
        0 <= i < areas.len() && 0 <= j < areas.len() && i != j ==> !(#[trigger] areas[i]).overlaps(
            #[trigger] areas[j],
        )
}

/// Unmaps the areas from index `i` on, in order, and stops at the first page
/// that fails.
pub open spec fn unmap_areas(areas: Seq<Area>, s: State, inpt: usize, i: int) -> Step
    decreases areas.len() - i,
{
    if i < 0 || i >= areas.len() {
        (s, Ok(()))
    } else {
        let (s1, r) = areas[i].unmap(s, inpt);
        match r {
            Err(e) => (s1, Err(e)),
            Ok(_) => unmap_areas(areas, s1, inpt, i + 1),
        }
    }
}

/// The areas that a forked address space starts with.
pub open spec fn box_clone_all(areas: Seq<Area>) -> Seq<Area> {
    Seq::new(areas.len(), |i: int| areas[i].box_clone())
}

/// A state, a sequence of areas, and whether the step that led to them succeeded.
pub type AreasStep = (State, Seq<Area>, Result<(), MemoryError>);

/// Carries the areas from index `i` on over to table `inpt`, in order, and
/// stops at the first page that fails. Each area keeps the policy that
/// carrying its pages over has left it with.
pub open spec fn clone_areas(areas: Seq<Area>, s: State, inpt: usize, i: int) -> AreasStep
    decreases areas.len() - i,
{
    if i < 0 || i >= areas.len() {
        (s, areas, Ok(()))
    } else {
        let (s1, p, r) = areas[i].map_clone(s, inpt);
        let carried = areas.update(i, Area { policy: p, ..areas[i] });
        match r {
            Err(e) => (s1, carried, Err(e)),
            Ok(_) => clone_areas(carried, s1, inpt, i + 1),
        }
    }
}

/// A memory set as a mathematical value: its areas, in the order in which
/// they were pushed, and the handle of its page table.
#[verifier::ext_equal]
pub struct Space {
    pub areas: Seq<Area>,
    pub table: usize,
}

/// The index of the first of `areas`, from index `i` on, that contains `addr`.
pub open spec fn first_containing(areas: Seq<Area>, addr: VirtAddr, i: int) -> Option<int>
    decreases areas.len() - i,
{
    if i < 0 || i >= areas.len() {
        None
    } else if areas[i].contains(addr) {
        Some(i)
    } else {
        first_containing(areas, addr, i + 1)
    }
}

/// A state, a memory set, and whether the step that led to them succeeded.
pub type SpaceStep = (State, Space, Result<(), MemoryError>);

impl Space {
    /// Every area is well formed and no two areas overlap.
    pub open spec fn wf(self) -> bool {
        &&& forall|i: int| 0 <= i < self.areas.len() ==> (#[trigger] self.areas[i]).wf()
        &&& pairwise_disjoint(self.areas)
    }

    /// A fault at `addr` goes to the policy of the first area that contains
    /// `addr`, in the set's own page table; a fault that no area contains is
    /// not resolved.
    pub open spec fn page_fault(self, s: State, addr: VirtAddr) -> Fault {
        match first_containing(self.areas, addr, 0) {
            None => (s, Ok(false)),
            Some(j) => self.areas[j].policy.page_fault(s, self.table, addr),
        }
    }

    /// Pushing an area that overlaps one of the set fails and changes
    /// nothing. Any other area is mapped page by page and then joins the set;
    /// if a page fails, the area does not join.
    pub open spec fn push(self, s: State, area: Area) -> SpaceStep {
        if overlaps_any(self.areas, area) {
            (s, self, Err(MemoryError::Overlap))
        } else {
            let (s1, r) = area.map(s, self.table);
            match r {
                Err(e) => (s1, self, Err(e)),
                Ok(_) => (s1, Space { areas: self.areas.push(area), ..self }, Ok(())),
            }
        }
    }

    /// Unmaps every area in the order of pushing and then forgets them all;
    /// if a page fails, the areas stay.
    pub open spec fn clear(self, s: State) -> SpaceStep {
        let (s1, r) = unmap_areas(self.areas, s, self.table, 0);
        match r {
            Err(e) => (s1, self, Err(e)),
            Ok(_) => (s1, Space { areas: Seq::<Area>::empty(), ..self }, Ok(())),
        }
    }

    /// Forks the set: a new page table with the kernel's mappings, and every
    /// area carried over to it from the live table, in the order of pushing.
    pub open spec fn fork(self, s: State) -> SpaceStep {
        let table = s.tables.len() as usize;
        let (s1, areas, r) = clone_areas(
            box_clone_all(self.areas),
            s.new_table(false),
            table,
            0,
        );
        (s1, Space { areas, table }, r)
    }
}

/// An address space: a page table and the areas that are mapped in it.
#[derive(Debug)]
pub struct MemorySet {
    pub areas: Vec<MemoryArea>,
    pub page_table: InactivePageTable,
}

impl View for MemorySet {
    type V = Space;

    open spec fn view(&self) -> Space {
        Space { areas: areas_view(self.areas@), table: self.page_table.id }
    }
}

impl MemorySet {
    /// The set's areas are well formed and disjoint, and its page table is
    /// one of the context's.
    pub open spec fn wf(&self, ctx: &MemoryContext) -> bool {
        self@.wf() && ctx@.valid_table(self.page_table.id)
    }

    /// An empty set over a new page table that holds the kernel's mappings.
    /// In a sound context in which no page of the kernel's table is
    /// registered as one that may be evicted, the set is valid.
    pub fn new(ctx: &mut MemoryContext) -> (set: MemorySet)
        requires
            old(ctx).wf(),
        ensures
            final(ctx).wf(),
            set.wf(final(ctx)),
            set@ == (Space { areas: Seq::<Area>::empty(), table: old(ctx)@.tables.len() as usize }),
            final(ctx)@ == old(ctx)@.new_table(false),
            sound(old(ctx)@) && (forall|q: int| !#[trigger] registered_at(old(ctx)@, 0, q))
                ==> valid(set@, final(ctx)@),
    {
        let set = MemorySet { areas: Vec::new(), page_table: InactivePageTable::new(ctx) };
        assert(set@.areas =~= Seq::<Area>::empty());
        proof {
            assert(ctx.tables.len() == ctx.tables@.len());
            assert(ctx@.tables.len() == old(ctx)@.tables.len() + 1);
            if sound(old(ctx)@) && (forall|q: int| !#[trigger] registered_at(old(ctx)@, 0, q)) {
                lemma_new_set_is_valid(old(ctx)@, false);
            }
        }
        set
    }

    /// An empty set over a new page table in which nothing is mapped. In a
    /// sound context the set is valid.
    pub fn new_bare(ctx: &mut MemoryContext) -> (set: MemorySet)
        requires
            old(ctx).wf(),
        ensures
            final(ctx).wf(),
            set.wf(final(ctx)),
            set@ == (Space { areas: Seq::<Area>::empty(), table: old(ctx)@.tables.len() as usize }),
            final(ctx)@ == old(ctx)@.new_table(true),
            sound(old(ctx)@) ==> valid(set@, final(ctx)@),
    {
        let set = MemorySet { areas: Vec::new(), page_table: InactivePageTable::new_bare(ctx) };
        assert(set@.areas =~= Seq::<Area>::empty());
        proof {
            assert(ctx.tables.len() == ctx.tables@.len());
            assert(ctx@.tables.len() == old(ctx)@.tables.len() + 1);
            if sound(old(ctx)@) {
                lemma_new_set_is_valid(old(ctx)@, true);
            }
        }
        set
    }

    /// The first area, in the order of pushing, that contains `addr`.
    pub fn find_area(&self, addr: VirtAddr) -> (found: Option<&MemoryArea>)
        ensures
            match found {
                Some(area) => exists|i: int|
                    0 <= i < self.areas@.len() && *area == #[trigger] self.areas@[i]
                        && self@.areas[i].contains(addr) && forall|j: int|
                        0 <= j < i ==> !(#[trigger] self@.areas[j]).contains(addr),
                None => forall|i: int|
                    0 <= i < self@.areas.len() ==> !(#[trigger] self@.areas[i]).contains(addr),
            },
    {
        let mut i: usize = 0;
        while i < self.areas.len()
            invariant
                i <= self.areas@.len(),
                forall|j: int| 0 <= j < i ==> !(#[trigger] self@.areas[j]).contains(addr),
            decreases self.areas@.len() - i,
        {
            if self.areas[i].contains(addr) {
                assert(self@.areas[i as int] == self.areas@[i as int]@);
                return Some(&self.areas[i]);
            }
            i += 1;
        }
        None
    }

    /// Handles a fault at `addr`: hands it to the policy of the first area that
    /// contains `addr`. Returns whether the fault was resolved; a fault at an
    /// address that no area contains is not. A set that is valid in the
    /// context stays valid.
    pub fn page_fault_handler(&self, ctx: &mut MemoryContext, addr: VirtAddr) -> (done: Result<
        bool,
        MemoryError,
    >)
        requires
            old(ctx).wf(),
            self.wf(old(ctx)),
        ensures
            final(ctx).wf(),
            self.wf(final(ctx)),
            (final(ctx)@, done) == self@.page_fault(old(ctx)@, addr),
            valid(self@, old(ctx)@) ==> valid(self@, final(ctx)@) && registers_only_in(
                old(ctx)@,
                final(ctx)@,
                self@.table,
            ),
    {
        let mut i: usize = 0;
        while i < self.areas.len()
            invariant
                i <= self.areas@.len(),
                *ctx == *old(ctx),
                ctx.wf(),
                self.wf(ctx),
                first_containing(self@.areas, addr, i as int) == first_containing(
                    self@.areas,
                    addr,
                    0,
                ),
            decreases self.areas@.len() - i,
        {
            assert(self@.areas[i as int] == self.areas@[i as int]@);
            if self.areas[i].contains(addr) {
                proof {
                    if valid(self@, ctx@) {
                        crate::soundness::lemma_page_fault_keeps_valid(self@, ctx@, i as int, addr);
                    }
                }
                return self.areas[i].page_fault_handler(ctx, self.page_table.id, addr);
            }
            i += 1;
        }
        Ok(false)
    }

    /// Adds `area` to the set and maps its pages. An area that overlaps one
    /// of the set is refused, and nothing changes.
    ///
    /// A set that is valid in the context stays valid, where mapping the
    /// area's pages keeps the state sound and the area is swappable or has no
    /// page registered as one that may be evicted.
    pub fn push(&mut self, ctx: &mut MemoryContext, area: MemoryArea) -> (done: Result<
        (),
        MemoryError,
    >)
        requires
            old(ctx).wf(),
            old(self).wf(old(ctx)),
            area@.wf(),
        ensures
            final(ctx).wf(),
            final(self).wf(final(ctx)),
            (final(ctx)@, final(self)@, done) == old(self)@.push(old(ctx)@, area@),
            overlaps_any(old(self)@.areas, area@) ==> done == Err::<(), MemoryError>(
                MemoryError::Overlap,
            ) && final(ctx)@ == old(ctx)@ && final(self)@ == old(self)@,
            done is Ok ==> !overlaps_any(old(self)@.areas, area@) && final(self)@.areas == old(
                self,
            )@.areas.push(area@),
            valid(old(self)@, old(ctx)@) && pushes_soundly(area@, old(ctx)@, old(self)@.table)
                ==> valid(final(self)@, final(ctx)@) && registers_only_in(
                old(ctx)@,
                final(ctx)@,
                old(self)@.table,
            ),
    {
        proof {
            if valid(self@, ctx@) && pushes_soundly(area@, ctx@, self@.table) {
                lemma_push_keeps_valid(self@, ctx@, area@);
            }
        }
        let mut i: usize = 0;
        while i < self.areas.len()
            invariant
                i <= self.areas@.len(),
                *self == *old(self),
                *ctx == *old(ctx),
                ctx.wf(),
                self.wf(ctx),
                forall|j: int| 0 <= j < i ==> !area@.overlaps(#[trigger] self@.areas[j]),
            decreases self.areas@.len() - i,
        {
            if area.is_overlap_with(&self.areas[i]) {
                assert(area@.overlaps(self@.areas[i as int]));
                return Err(MemoryError::Overlap);
            }
            i += 1;
        }
        match area.map(ctx, self.page_table.id) {
            Err(e) => {
                return Err(e);
            },
            Ok(_) => {},
        }
        self.areas.push(area);
        assert(self@.areas =~= old(self)@.areas.push(area@));
        assert(!overlaps_any(old(self)@.areas, area@));
        assert(pairwise_disjoint(self@.areas)) by {
            assert forall|a: int, b: int|
                0 <= a < self@.areas.len() && 0 <= b < self@.areas.len() && a != b implies !(
                #[trigger] self@.areas[a]).overlaps(#[trigger] self@.areas[b]) by {
                if a < old(self)@.areas.len() && b < old(self)@.areas.len() {
                    assert(!old(self)@.areas[a].overlaps(old(self)@.areas[b]));
                } else if a < old(self)@.areas.len() {
                    assert(!area@.overlaps(old(self)@.areas[a]));
                } else {
                    assert(!area@.overlaps(old(self)@.areas[b]));
                }
            }
        }
        Ok(())
    }

    /// The areas of the set, in the order of pushing.
    pub fn iter(&self) -> (areas: &Vec<MemoryArea>)
        ensures
            *areas == self.areas,
    {
        &self.areas
    }

    /// Makes the set's page table the live one.
    pub fn activate(&self, ctx: &mut MemoryContext)
        requires
            old(ctx).wf(),
            self.wf(old(ctx)),
        ensures
            final(ctx).wf(),
            final(ctx)@ == (State { active: self.page_table.id, ..old(ctx)@ }),
    {
        self.page_table.activate(ctx);
    }

    /// Runs `f` on the context while the set's page table is the live one, and
    /// makes the table that was live before live again.
    pub fn with<T, F: FnOnce(&MemoryContext) -> T>(&self, ctx: &mut MemoryContext, f: F) -> (ret: T)
        requires
            old(ctx).wf(),
            self.wf(old(ctx)),
            forall|live: MemoryContext|
                live@ == (State { active: self.page_table.id, ..old(ctx)@ }) ==> f.requires(
                    (&live,),
                ),
        ensures
            final(ctx).wf(),
            final(ctx)@ == old(ctx)@,
            exists|live: MemoryContext|
                live@ == (State { active: self.page_table.id, ..old(ctx)@ }) && f.ensures(
                    (&live,),
                    ret,
                ),
    {
        self.page_table.with(ctx, f)
    }

    /// The handle that names the set's page table.
    pub fn token(&self) -> (token: usize)
        ensures
            token == self.page_table.id,
    {
        self.page_table.token()
    }

    /// The set's page table, for the caller to name another table by.
    pub fn get_page_table_mut(&mut self) -> (table: &mut InactivePageTable)
        ensures
            *table == old(self).page_table,
            final(self).page_table == *final(table),
            final(self).areas == old(self).areas,
    {
        &mut self.page_table
    }

    /// Unmaps every area of the set, in the order of pushing, and empties the
    /// set. If a page fails, the areas stay. A set that is valid in the
    /// context stays valid, where each page, when its turn comes, can be
    /// unmapped soundly.
    pub fn clear(&mut self, ctx: &mut MemoryContext) -> (done: Result<(), MemoryError>)
        requires
            old(ctx).wf(),
            old(self).wf(old(ctx)),
        ensures
            final(ctx).wf(),
            final(self).wf(final(ctx)),
            (final(ctx)@, final(self)@, done) == old(self)@.clear(old(ctx)@),
            valid(old(self)@, old(ctx)@) && clears_soundly(old(self)@, old(ctx)@) ==> valid(
                final(self)@,
                final(ctx)@,
            ) && registers_only_in(old(ctx)@, final(ctx)@, old(self)@.table),
    {
        proof {
            if valid(self@, ctx@) && clears_soundly(self@, ctx@) {
                lemma_clear_keeps_valid(self@, ctx@);
            }
        }
        let mut i: usize = 0;
        while i < self.areas.len()
            invariant
                i <= self.areas@.len(),
                *self == *old(self),
                ctx.wf(),
                ctx@.tables.len() == old(ctx)@.tables.len(),
                old(self).wf(old(ctx)),
                valid(old(self)@, old(ctx)@) && clears_soundly(old(self)@, old(ctx)@) ==> valid(
                    old(self)@.clear(old(ctx)@).1,
                    old(self)@.clear(old(ctx)@).0,
                ) && registers_only_in(
                    old(ctx)@,
                    old(self)@.clear(old(ctx)@).0,
                    old(self)@.table,
                ),
                unmap_areas(self@.areas, ctx@, self.page_table.id, i as int) == unmap_areas(
                    self@.areas,
                    old(ctx)@,
                    self.page_table.id,
                    0,
                ),
            decreases self.areas@.len() - i,
        {
            assert(self@.areas[i as int] == self.areas@[i as int]@);
            match self.areas[i].unmap(ctx, self.page_table.id) {
                Err(e) => {
                    return Err(e);
                },
                Ok(_) => {},
            }
            i += 1;
        }
        self.areas.clear();
        assert(self@.areas =~= Seq::<Area>::empty());
        Ok(())
    }

    /// Forks the set for a new address space: a new page table with the
    /// kernel's mappings, into which every area is carried over from the live
    /// table according to its policy.
    ///
    /// A set that is valid in the context stays valid, and the new set is
    /// valid, where no area is direct, no page of the kernel's table is
    /// registered as one that may be evicted, and the live table has every
    /// page of a copy-on-write area present and not registered.
    pub fn clone(&self, ctx: &mut MemoryContext) -> (forked: Result<MemorySet, MemoryError>)
        requires
            old(ctx).wf(),
            self.wf(old(ctx)),
        ensures
            final(ctx).wf(),
            final(ctx)@ == self@.fork(old(ctx)@).0,
            match forked {
                Ok(set) => self@.fork(old(ctx)@).2 is Ok && set@ == self@.fork(old(ctx)@).1
                    && set.wf(final(ctx)),
                Err(e) => self@.fork(old(ctx)@).2 == Err::<(), MemoryError>(e),
            },
            valid(self@, old(ctx)@) && forks_soundly(self@, old(ctx)@) ==> valid(
                self@,
                final(ctx)@,
            ) && registers_only_in(old(ctx)@, final(ctx)@, old(ctx)@.tables.len() as usize)
                && match forked {
                Ok(set) => valid(set@, final(ctx)@),
                Err(_) => true,
            },
    {
        proof {
            if valid(self@, ctx@) && forks_soundly(self@, ctx@) {
                lemma_fork_keeps_valid(self@, ctx@);
            }
        }
        let page_table = InactivePageTable::new(ctx);
        let mut areas: Vec<MemoryArea> = Vec::new();
        let mut i: usize = 0;
        let ghost cloned = box_clone_all(self@.areas);
        while i < self.areas.len()
            invariant
                i <= self.areas@.len(),
                areas@.len() == i,
                cloned == box_clone_all(self@.areas),
                valid(self@, old(ctx)@) && forks_soundly(self@, old(ctx)@) ==> valid(
                    self@,
                    self@.fork(old(ctx)@).0,
                ) && valid(self@.fork(old(ctx)@).1, self@.fork(old(ctx)@).0) && registers_only_in(
                    old(ctx)@,
                    self@.fork(old(ctx)@).0,
                    old(ctx)@.tables.len() as usize,
                ),
                forall|j: int| 0 <= j < i ==> (#[trigger] areas@[j])@ == cloned[j],
            decreases self.areas@.len() - i,
        {
            areas.push(self.areas[i].clone());
            i += 1;
        }
        assert(areas_view(areas@) =~= cloned);
        let ghost start = ctx@;
        let mut k: usize = 0;
        while k < areas.len()
            invariant
                k <= areas@.len(),
                areas@.len() == self.areas@.len(),
                ctx.wf(),
                ctx@.tables.len() == start.tables.len(),
                start.valid_table(page_table.id),
                start == old(ctx)@.new_table(false),
                page_table.id == old(ctx)@.tables.len(),
                cloned == box_clone_all(self@.areas),
                self@.wf(),
                valid(self@, old(ctx)@) && forks_soundly(self@, old(ctx)@) ==> valid(
                    self@,
                    self@.fork(old(ctx)@).0,
                ) && valid(self@.fork(old(ctx)@).1, self@.fork(old(ctx)@).0) && registers_only_in(
                    old(ctx)@,
                    self@.fork(old(ctx)@).0,
                    old(ctx)@.tables.len() as usize,
                ),
                clone_areas(areas_view(areas@), ctx@, page_table.id, k as int) == clone_areas(
                    cloned,
                    start,
                    page_table.id,
                    0,
                ),
                forall|j: int|
                    0 <= j < areas@.len() ==> (#[trigger] areas@[j])@.start == self@.areas[j].start
                        && areas@[j]@.end == self@.areas[j].end,
            decreases areas@.len() - k,
        {
            let ghost before = areas_view(areas@);
            let ghost state = ctx@;
            assert(before[k as int] == areas@[k as int]@);
            let done = areas[k].map_clone(ctx, page_table.id);
            assert(areas_view(areas@) =~= before.update(
                k as int,
                Area { policy: areas@[k as int]@.policy, ..before[k as int] },
            ));
            assert((ctx@, areas@[k as int]@.policy, done) == before[k as int].map_clone(
                state,
                page_table.id,
            ));
            match done {
                Err(e) => {
                    assert(clone_areas(before, state, page_table.id, k as int).2 == Err::<
                        (),
                        MemoryError,
                    >(e));
                    return Err(e);
                },
                Ok(_) => {},
            }
            k += 1;
        }
        let set = MemorySet { areas, page_table };
        assert(set@.wf()) by {
            assert forall|a: int| 0 <= a < set@.areas.len() implies (#[trigger] set@.areas[a]).wf() by {
                assert(self@.areas[a].wf());
                assert(set@.areas[a] == areas@[a]@);
            }
            assert forall|a: int, b: int|
                0 <= a < set@.areas.len() && 0 <= b < set@.areas.len() && a != b implies !(
                #[trigger] set@.areas[a]).overlaps(#[trigger] set@.areas[b]) by {
                assert(!self@.areas[a].overlaps(self@.areas[b]));
                assert(set@.areas[a] == areas@[a]@);
                assert(set@.areas[b] == areas@[b]@);
            }
        }
        Ok(set)
    }
}

} // verus!
