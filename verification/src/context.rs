//! The state that all address spaces share: the frame pool, the page tables,
//! the swap and copy-on-write extensions and the content of memory.

use vstd::prelude::*;
use crate::addr::{PhysAddr, VirtAddr, PAGE_SIZE};
use crate::cow::{CowExt, Shares};
use crate::frame::{bits_dealloc, bits_insert, lowest_free, FrameAllocator};
use crate::paging::{
    entries_get, entries_map, entries_unmap, entries_update, Entries, Entry, PageTable,
};
use crate::phys::{content, contents_wf, Contents, PhysMemory};
use crate::swap::{
    lemma_queue_distinct, queue_distinct, queue_push, queue_remove, FifoSwapManager, MockSwapper,
    SwapError, SwapExt, SwapKey,
};

verus! {

/// Why an operation on an address space was given up.
#[derive(Debug, Clone, Copy, PartialEq, Eq, Structural)]
pub enum MemoryError {
    /// The area overlaps one that the set holds already.
    Overlap,
    /// A page that the operation reads has no entry, or nothing behind it.
    NotMapped,
    /// No frame is free and none could be evicted.
    OutOfMemory,
    /// A frame is shared by as many mappings as can be counted.
    ShareLimit,
    /// The swap extension failed.
    Swap(SwapError),
}

/// The address of the first byte of the page that holds `addr`.
pub open spec fn page_start(addr: VirtAddr) -> VirtAddr {
    (addr - addr % 4096) as usize
}

/// The shared state, as mathematical values.
#[verifier::ext_equal]
pub struct State {
    /// The frame pool: one bit per frame, set while the frame is free.
    pub frames: Seq<bool>,
    /// The address of the pool's first frame.
    pub offset: usize,
    /// The entries of every page table, by the table's handle.
    pub tables: Seq<Entries>,
    /// The handle of the table that is live.
    pub active: usize,
    /// The pages that may be evicted, oldest first.
    pub queue: Seq<SwapKey>,
    /// The content of the pages that are swapped out, by token.
    pub store: Contents,
    /// The token that the backing store hands out next.
    pub next_token: usize,
    /// The reference counts of the shared frames.
    pub shares: Shares,
    /// The content of the frames.
    pub memory: Contents,
}

impl State {
    /// The pool's frames have addresses, a table is live, no page is
    /// registered twice as one that may be evicted, and every page held in
    /// memory or in the backing store is a whole page.
    pub open spec fn wf(self) -> bool {
        &&& self.offset + self.frames.len() * 4096 <= usize::MAX
        &&& self.active < self.tables.len()
        &&& queue_distinct(self.queue)
        &&& contents_wf(self.memory)
        &&& contents_wf(self.store)
    }

    /// Whether `table` is the handle of a page table.
    pub open spec fn valid_table(self, table: usize) -> bool {
        table < self.tables.len()
    }

    /// The entry of the page of `addr` in `table`.
    pub open spec fn entry(self, table: usize, addr: VirtAddr) -> Option<Entry> {
        entries_get(self.tables[table as int], addr)
    }

    /// The state with the entries of `table` replaced.
    pub open spec fn with_entries(self, table: usize, entries: Entries) -> State {
        State { tables: self.tables.update(table as int, entries), ..self }
    }

    /// The state after the page of `addr` is freshly bound to `target` in `table`.
    pub open spec fn map(self, table: usize, addr: VirtAddr, target: PhysAddr) -> State {
        self.with_entries(table, entries_map(self.tables[table as int], addr, target))
    }

    /// The state after the entry of the page of `addr` in `table` is emptied.
    pub open spec fn unmap(self, table: usize, addr: VirtAddr) -> State {
        self.with_entries(table, entries_unmap(self.tables[table as int], addr))
    }

    /// The state after `entry` is written to the slot of the page of `addr` in `table`.
    pub open spec fn update(self, table: usize, addr: VirtAddr, entry: Entry) -> State {
        self.with_entries(table, entries_update(self.tables[table as int], addr, entry))
    }

    /// The state with one more table: a copy of the kernel's table, which has
    /// handle 0, or an empty one.
    pub open spec fn new_table(self, bare: bool) -> State {
        State {
            tables: self.tables.push(
                if bare {
                    Map::<usize, Entry>::empty()
                } else {
                    self.tables[0]
                },
            ),
            ..self
        }
    }

    /// The address of the frame with index `id` in the pool.
    pub open spec fn frame_addr(self, id: int) -> PhysAddr {
        (self.offset + id * 4096) as usize
    }

    /// The index in the pool of the frame that holds `target`; -1 below the pool.
    pub open spec fn frame_id(self, target: PhysAddr) -> int {
        if target >= self.offset {
            (target - self.offset) / 4096
        } else {
            -1
        }
    }

    /// The state after the frames with indices in `[start, end)` are set free.
    pub open spec fn insert_frames(self, start: usize, end: usize) -> State {
        State { frames: bits_insert(self.frames, start as int, end as int), ..self }
    }

    /// The state after the frame that holds `target` goes back to the pool.
    pub open spec fn dealloc_frame(self, target: PhysAddr) -> State {
        State { frames: bits_dealloc(self.frames, self.frame_id(target)), ..self }
    }

    /// Evicts the page `key`: its content goes to the backing store under a
    /// fresh token, its entry is marked swapped and not present and keeps the
    /// token as its target. The result is the frame that the page gives up.
    pub open spec fn swap_out(self, key: SwapKey) -> (State, Result<PhysAddr, SwapError>) {
        if !self.valid_table(key.0) {
            (self, Err(SwapError::NotMapped))
        } else {
            match self.entry(key.0, key.1) {
                None => (self, Err(SwapError::NotMapped)),
                Some(e) => if e.swapped {
                    (self, Err(SwapError::AlreadySwapped))
                } else if self.next_token == usize::MAX {
                    (self, Err(SwapError::IOError))
                } else {
                    (
                        State {
                            store: self.store.insert(
                                self.next_token,
                                content(self.memory, e.target),
                            ),
                            next_token: (self.next_token + 1) as usize,
                            ..self.update(
                                key.0,
                                key.1,
                                Entry {
                                    target: self.next_token,
                                    swapped: true,
                                    present: false,
                                    ..e
                                },
                            )
                        },
                        Ok(e.target),
                    )
                },
            }
        }
    }

    /// Takes the oldest registered page off the queue and evicts it.
    pub open spec fn swap_out_any(self) -> (State, Result<PhysAddr, SwapError>) {
        if self.queue.len() == 0 {
            (self, Err(SwapError::NoVictim))
        } else {
            (State { queue: self.queue.drop_first(), ..self }).swap_out(self.queue[0])
        }
    }

    /// Whether a request for a frame can be met: a frame is free, or the page
    /// that was registered first belongs to a page table, has an entry, is
    /// not swapped out already, and the backing store has a token left.
    pub open spec fn can_alloc(self) -> bool {
        ||| exists|i: int| 0 <= i < self.frames.len() && self.frames[i]
        ||| {
            &&& self.queue.len() > 0
            &&& self.valid_table(self.queue[0].0)
            &&& self.entry(self.queue[0].0, self.queue[0].1) is Some
            &&& !self.entry(self.queue[0].0, self.queue[0].1).unwrap().swapped
            &&& self.next_token < usize::MAX
        }
    }

    /// Hands out the lowest free frame of the pool; with none free, the frame
    /// of the oldest registered page, which is evicted.
    pub open spec fn alloc_frame(self) -> (State, Option<PhysAddr>) {
        match lowest_free(self.frames) {
            Some(id) => (
                State { frames: self.frames.update(id, false), ..self },
                Some(self.frame_addr(id)),
            ),
            None => {
                let (s, r) = self.swap_out_any();
                (
                    s,
                    match r {
                        Ok(frame) => Some(frame),
                        Err(_) => None,
                    },
                )
            },
        }
    }

    /// Registers the page of `addr` in `table` as the youngest page that may
    /// be evicted, if it is present.
    pub open spec fn set_swappable(self, table: usize, addr: VirtAddr) -> State {
        match self.entry(table, addr) {
            Some(e) => if e.present {
                State { queue: queue_push(self.queue, (table, page_start(addr))), ..self }
            } else {
                self
            },
            None => self,
        }
    }

    /// Brings the swapped-out page of `addr` in `table` into `frame`: the
    /// content leaves the backing store, the entry is bound to `frame`,
    /// present and no longer swapped.
    pub open spec fn swap_load(self, table: usize, addr: VirtAddr, frame: PhysAddr) -> (
        State,
        Result<(), SwapError>,
    ) {
        match self.entry(table, addr) {
            None => (self, Err(SwapError::NotMapped)),
            Some(e) => if !e.swapped {
                (self, Err(SwapError::NotSwapped))
            } else if !self.store.contains_key(e.target) {
                (self, Err(SwapError::IOError))
            } else {
                (
                    State {
                        memory: self.memory.insert(frame, self.store[e.target]),
                        store: self.store.remove(e.target),
                        ..self.update(
                            table,
                            addr,
                            Entry { target: frame, swapped: false, present: true, ..e },
                        )
                    },
                    Ok(()),
                )
            },
        }
    }

    /// Brings the swapped-out page of `addr` in `table` into `frame` and
    /// registers it again as a page that may be evicted.
    pub open spec fn swap_in(self, table: usize, addr: VirtAddr, frame: PhysAddr) -> (
        State,
        Result<(), SwapError>,
    ) {
        let (s, r) = self.swap_load(table, addr, frame);
        match r {
            Ok(_) => (
                State { queue: queue_push(s.queue, (table, page_start(addr))), ..s },
                Ok(()),
            ),
            Err(_) => (s, r),
        }
    }

    /// Takes the page of `addr` in `table` out of the pages that may be
    /// evicted. A page that is swapped out is first brought back, into a
    /// frame allocated for it.
    pub open spec fn remove_from_swappable(self, table: usize, addr: VirtAddr) -> (
        State,
        Result<(), MemoryError>,
    ) {
        match self.entry(table, addr) {
            None => (self, Err(MemoryError::NotMapped)),
            Some(e) => if !e.swapped {
                (
                    if e.present {
                        State {
                            queue: queue_remove(self.queue, (table, page_start(addr))),
                            ..self
                        }
                    } else {
                        self
                    },
                    Ok(()),
                )
            } else {
                let (s1, f) = self.alloc_frame();
                match f {
                    None => (s1, Err(MemoryError::OutOfMemory)),
                    Some(frame) => {
                        let (s2, r) = s1.swap_load(table, addr, frame);
                        (
                            s2,
                            match r {
                                Ok(_) => Ok(()),
                                Err(e) => Err(MemoryError::Swap(e)),
                            },
                        )
                    },
                }
            },
        }
    }

    /// The bytes of the page of `addr` as `table` sees them: in its frame if
    /// the page is present, in the backing store if it is swapped out.
    pub open spec fn page_content(self, table: usize, addr: VirtAddr) -> Option<Seq<u8>> {
        match self.entry(table, addr) {
            None => None,
            Some(e) => if e.present {
                Some(content(self.memory, e.target))
            } else if e.swapped && self.store.contains_key(e.target) {
                Some(self.store[e.target])
            } else {
                None
            },
        }
    }
}

/// The shared state of the memory subsystem.
pub struct MemoryContext {
    pub frames: FrameAllocator,
    pub memory_offset: usize,
    pub tables: Vec<PageTable>,
    pub active: usize,
    pub swap: SwapExt,
    pub cow: CowExt,
    pub memory: PhysMemory,
}

impl View for MemoryContext {
    type V = State;

    open spec fn view(&self) -> State {
        State {
            frames: self.frames@,
            offset: self.memory_offset,
            tables: Seq::new(self.tables@.len(), |i: int| self.tables@[i]@),
            active: self.active,
            queue: self.swap.manager@,
            store: self.swap.swapper@,
            next_token: self.swap.swapper.next_token,
            shares: self.cow@,
            memory: self.memory@,
        }
    }
}

impl MemoryContext {
    /// The state is well formed.
    pub open spec fn wf(&self) -> bool {
        self@.wf()
    }

    /// A context whose pool covers `capacity` frames from address
    /// `memory_offset` on, none of them free yet, with empty memory and empty
    /// extensions. `kernel` becomes the kernel's page table, with handle 0,
    /// and is live. The context is sound.
    pub fn new(memory_offset: usize, capacity: usize, kernel: PageTable) -> (ctx: MemoryContext)
        requires
            memory_offset + capacity * 4096 <= usize::MAX,
        ensures
            ctx.wf(),
            ctx@.frames == Seq::new(capacity as nat, |i: int| false),
            ctx@.offset == memory_offset,
            ctx@.tables == seq![kernel@],
            ctx@.active == 0,
            ctx@.queue == Seq::<SwapKey>::empty(),
            ctx@.store == Map::<usize, Seq<u8>>::empty(),
            ctx@.next_token == 0,
            ctx@.shares == Map::<usize, (usize, bool)>::empty(),
            ctx@.memory == Map::<usize, Seq<u8>>::empty(),
            crate::soundness::sound(ctx@),
    {
        let mut tables: Vec<PageTable> = Vec::new();
        tables.push(kernel);
        let ctx = MemoryContext {
            frames: FrameAllocator::new(capacity),
            memory_offset,
            tables,
            active: 0,
            swap: SwapExt::new(FifoSwapManager::new(), MockSwapper::new()),
            cow: CowExt::new(),
            memory: PhysMemory::new(),
        };
        assert(ctx@.tables =~= seq![kernel@]);
        proof {
            crate::soundness::lemma_fresh_state_is_sound(ctx@);
        }
        ctx
    }

    /// How many page tables there are.
    pub fn table_count(&self) -> (n: usize)
        ensures
            n == self@.tables.len(),
    {
        self.tables.len()
    }

    /// The handle of the live table.
    pub fn active_table(&self) -> (table: usize)
        ensures
            table == self@.active,
    {
        self.active
    }

    /// Makes `table` the live table.
    pub fn activate(&mut self, table: usize)
        requires
            old(self).wf(),
            old(self)@.valid_table(table),
        ensures
            final(self).wf(),
            final(self)@ == (State { active: table, ..old(self)@ }),
    {
        self.active = table;
        assert(self@ =~~= (State { active: table, ..old(self)@ }));
    }

    /// Adds a page table and returns its handle: a copy of the kernel's table,
    /// or an empty table if `bare`.
    pub fn new_table(&mut self, bare: bool) -> (table: usize)
        requires
            old(self).wf(),
        ensures
            final(self).wf(),
            table == old(self)@.tables.len(),
            final(self)@ == old(self)@.new_table(bare),
    {
        let fresh = if bare {
            PageTable::new()
        } else {
            self.tables[0].duplicate()
        };
        let table: usize = self.tables.len();
        self.tables.push(fresh);
        assert(self@ =~~= old(self)@.new_table(bare));
        table
    }

    /// The indices of the frames that hold the addresses from `start` up to,
    /// not including, `end`.
    pub fn to_range(&self, start: PhysAddr, end: PhysAddr) -> (range: (usize, usize))
        requires
            self@.offset <= start,
            self@.offset < end,
        ensures
            range.0 == (start - self@.offset) / 4096,
            range.1 == (end - self@.offset - 1) / 4096 + 1,
    {
        let page_start = (start - self.memory_offset) / PAGE_SIZE;
        let page_end = (end - self.memory_offset - 1) / PAGE_SIZE + 1;
        (page_start, page_end)
    }

    /// Sets free the frames with indices in `[start, end)` that the pool
    /// covers. A sound context stays sound if the frames were unused.
    pub fn insert_frames(&mut self, start: usize, end: usize)
        requires
            old(self).wf(),
        ensures
            final(self).wf(),
            final(self)@ == old(self)@.insert_frames(start, end),
            crate::soundness::sound(old(self)@) && crate::soundness::frames_unused(
                old(self)@,
                start,
                end,
            ) ==> crate::soundness::sound(final(self)@),
    {
        proof {
            if crate::soundness::sound(self@) && crate::soundness::frames_unused(self@, start, end) {
                crate::soundness::lemma_insert_frames_keeps_sound(self@, start, end);
            }
        }
        self.frames.insert(start, end);
        assert(self@ =~~= old(self)@.insert_frames(start, end));
    }

    /// Binds the page of `addr` to `target` in `table`; the entry installed
    /// is present, with every other bit off.
    pub fn map(&mut self, table: usize, addr: VirtAddr, target: PhysAddr) -> (entry: Entry)
        requires
            old(self).wf(),
            old(self)@.valid_table(table),
        ensures
            final(self).wf(),
            entry == Entry::mapped(target),
            final(self)@ == old(self)@.map(table, addr, target),
    {
        let entry = self.tables[table].map(addr, target);
        assert(self@ =~~= old(self)@.map(table, addr, target));
        entry
    }

    /// Empties the entry of the page of `addr` in `table`.
    pub fn unmap(&mut self, table: usize, addr: VirtAddr)
        requires
            old(self).wf(),
            old(self)@.valid_table(table),
        ensures
            final(self).wf(),
            final(self)@ == old(self)@.unmap(table, addr),
    {
        self.tables[table].unmap(addr);
        assert(self@ =~~= old(self)@.unmap(table, addr));
    }

    /// The entry of the page of `addr` in `table`, if the page has a slot.
    pub fn get_entry(&self, table: usize, addr: VirtAddr) -> (entry: Option<Entry>)
        requires
            self@.valid_table(table),
        ensures
            entry == self@.entry(table, addr),
    {
        self.tables[table].get_entry(addr)
    }

    /// Writes `entry` to the slot of the page of `addr` in `table`, if the
    /// page has one.
    pub fn update(&mut self, table: usize, addr: VirtAddr, entry: Entry)
        requires
            old(self).wf(),
            old(self)@.valid_table(table),
        ensures
            final(self).wf(),
            final(self)@ == old(self)@.update(table, addr, entry),
    {
        self.tables[table].update(addr, entry);
        assert(self@ =~~= old(self)@.update(table, addr, entry));
    }

    /// Gives the frame that holds `target` back to the pool. An address that
    /// the pool does not cover is ignored.
    pub fn dealloc_frame(&mut self, target: PhysAddr)
        requires
            old(self).wf(),
        ensures
            final(self).wf(),
            final(self)@ == old(self)@.dealloc_frame(target),
    {
        if target >= self.memory_offset {
            self.frames.deallocate((target - self.memory_offset) / PAGE_SIZE);
        }
        assert(self@ =~~= old(self)@.dealloc_frame(target));
    }

    /// Evicts the page `key`, and returns the frame that it gives up.
    pub fn swap_out(&mut self, key: SwapKey) -> (frame: Result<PhysAddr, SwapError>)
        requires
            old(self).wf(),
        ensures
            final(self).wf(),
            final(self)@ == old(self)@.swap_out(key).0,
            frame == old(self)@.swap_out(key).1,
    {
        if key.0 >= self.tables.len() {
            return Err(SwapError::NotMapped);
        }
        let e = match self.tables[key.0].get_entry(key.1) {
            None => {
                return Err(SwapError::NotMapped);
            },
            Some(e) => e,
        };
        if e.swapped {
            return Err(SwapError::AlreadySwapped);
        }
        let data = self.memory.load(e.target);
        let token = match self.swap.swapper.swap_out(data) {
            Err(_) => {
                assert(self@ =~~= old(self)@);
                return Err(SwapError::IOError);
            },
            Ok(token) => token,
        };
        let evicted = Entry {
            present: false,
            user: e.user,
            writable: e.writable,
            execute: e.execute,
            shared: e.shared,
            swapped: true,
            target: token,
        };
        self.tables[key.0].update(key.1, evicted);
        assert(self@ =~~= old(self)@.swap_out(key).0);
        Ok(e.target)
    }

    /// Evicts the oldest registered page, and returns the frame that it gives up.
    pub fn swap_out_any(&mut self) -> (frame: Result<PhysAddr, SwapError>)
        requires
            old(self).wf(),
        ensures
            final(self).wf(),
            final(self)@ == old(self)@.swap_out_any().0,
            frame == old(self)@.swap_out_any().1,
    {
        match self.swap.manager.pop() {
            None => Err(SwapError::NoVictim),
            Some(key) => {
                assert(self@ =~~= (State { queue: old(self)@.queue.drop_first(), ..old(self)@ }));
                self.swap_out(key)
            },
        }
    }

    /// Allocates a frame: the lowest free one of the pool or, when none is
    /// free, the frame of the oldest page that may be evicted. Returns `None`
    /// exactly when no frame is free and none can be had by eviction; one
    /// eviction is tried, and no more. In a sound context the frame handed
    /// out is spare: no page is present in it any more, and it is not counted
    /// as shared.
    pub fn alloc_frame(&mut self) -> (frame: Option<PhysAddr>)
        requires
            old(self).wf(),
        ensures
            final(self).wf(),
            final(self)@ == old(self)@.alloc_frame().0,
            frame == old(self)@.alloc_frame().1,
            frame is Some <==> old(self)@.can_alloc(),
            crate::soundness::sound(old(self)@) ==> crate::soundness::sound(final(self)@) && (
            frame is Some ==> crate::soundness::spare(final(self)@, frame.unwrap())),
    {
        proof {
            crate::frame::lemma_lowest_free(self@.frames);
            if crate::soundness::sound(self@) {
                crate::soundness::lemma_alloc_keeps_sound(self@);
            }
        }
        match self.frames.allocate() {
            Some(id) => {
                assert(id < old(self)@.frames.len()) by {
                    crate::frame::lemma_lowest_free(old(self)@.frames);
                }
                let ghost n = old(self)@.frames.len();
                assert(id * 4096 <= n * 4096) by (nonlinear_arith)
                    requires
                        id < n,
                ;
                assert(self@ =~~= old(self)@.alloc_frame().0);
                Some(id * PAGE_SIZE + self.memory_offset)
            },
            None => {
                assert(self@ =~~= old(self)@);
                match self.swap_out_any() {
                    Ok(frame) => Some(frame),
                    Err(_) => None,
                }
            },
        }
    }

    /// Registers the page of `addr` in `table` as one that may be evicted, if
    /// it is present.
    pub fn set_swappable(&mut self, table: usize, addr: VirtAddr)
        requires
            old(self).wf(),
            old(self)@.valid_table(table),
        ensures
            final(self).wf(),
            final(self)@ == old(self)@.set_swappable(table, addr),
    {
        match self.tables[table].get_entry(addr) {
            Some(e) => {
                if e.present {
                    self.swap.manager.push((table, addr - addr % PAGE_SIZE));
                    proof {
                        lemma_queue_distinct(old(self)@.queue, (table, page_start(addr)));
                    }
                    assert(self@ =~~= old(self)@.set_swappable(table, addr));
                }
            },
            None => {},
        }
    }

    /// Brings the swapped-out page of `addr` in `table` into `frame`.
    pub fn swap_load(&mut self, table: usize, addr: VirtAddr, frame: PhysAddr) -> (done: Result<
        (),
        SwapError,
    >)
        requires
            old(self).wf(),
            old(self)@.valid_table(table),
        ensures
            final(self).wf(),
            final(self)@ == old(self)@.swap_load(table, addr, frame).0,
            done == old(self)@.swap_load(table, addr, frame).1,
    {
        let e = match self.tables[table].get_entry(addr) {
            None => {
                return Err(SwapError::NotMapped);
            },
            Some(e) => e,
        };
        if !e.swapped {
            return Err(SwapError::NotSwapped);
        }
        let data = match self.swap.swapper.swap_in(e.target) {
            Err(_) => {
                assert(self@ =~~= old(self)@);
                return Err(SwapError::IOError);
            },
            Ok(data) => data,
        };
        self.memory.store(frame, data);
        let loaded = Entry {
            present: true,
            user: e.user,
            writable: e.writable,
            execute: e.execute,
            shared: e.shared,
            swapped: false,
            target: frame,
        };
        self.tables[table].update(addr, loaded);
        assert(self@ =~~= old(self)@.swap_load(table, addr, frame).0);
        Ok(())
    }

    /// Brings the swapped-out page of `addr` in `table` into `frame`, and
    /// registers it again as one that may be evicted.
    pub fn swap_in(&mut self, table: usize, addr: VirtAddr, frame: PhysAddr) -> (done: Result<
        (),
        SwapError,
    >)
        requires
            old(self).wf(),
            old(self)@.valid_table(table),
        ensures
            final(self).wf(),
            final(self)@ == old(self)@.swap_in(table, addr, frame).0,
            done == old(self)@.swap_in(table, addr, frame).1,
    {
        match self.swap_load(table, addr, frame) {
            Ok(_) => {
                let ghost loaded = self@;
                self.swap.manager.push((table, addr - addr % PAGE_SIZE));
                proof {
                    lemma_queue_distinct(loaded.queue, (table, page_start(addr)));
                }
                assert(self@ =~~= (State {
                    queue: queue_push(loaded.queue, (table, page_start(addr))),
                    ..loaded
                }));
                Ok(())
            },
            Err(e) => Err(e),
        }
    }

    /// Takes the page of `addr` in `table` out of the pages that may be
    /// evicted; a page that is swapped out is brought back first.
    pub fn remove_from_swappable(&mut self, table: usize, addr: VirtAddr) -> (done: Result<
        (),
        MemoryError,
    >)
        requires
            old(self).wf(),
            old(self)@.valid_table(table),
        ensures
            final(self).wf(),
            final(self)@.tables.len() == old(self)@.tables.len(),
            final(self)@ == old(self)@.remove_from_swappable(table, addr).0,
            done == old(self)@.remove_from_swappable(table, addr).1,
    {
        let e = match self.tables[table].get_entry(addr) {
            None => {
                return Err(MemoryError::NotMapped);
            },
            Some(e) => e,
        };
        if !e.swapped {
            if e.present {
                self.swap.manager.remove((table, addr - addr % PAGE_SIZE));
                proof {
                    lemma_queue_distinct(old(self)@.queue, (table, page_start(addr)));
                }
                assert(self@ =~~= old(self)@.remove_from_swappable(table, addr).0);
            }
            return Ok(());
        }
        let frame = match self.alloc_frame() {
            None => {
                return Err(MemoryError::OutOfMemory);
            },
            Some(frame) => frame,
        };
        match self.swap_load(table, addr, frame) {
            Ok(_) => Ok(()),
            Err(e) => Err(MemoryError::Swap(e)),
        }
    }

    /// Counts one more mapping of `frame` in the copy-on-write table. Fails,
    /// and counts nothing, when the count is at its limit.
    pub fn share_frame(&mut self, frame: PhysAddr, writable: bool) -> (done: Result<
        (),
        MemoryError,
    >)
        requires
            old(self).wf(),
        ensures
            final(self).wf(),
            (final(self)@, done) == crate::handler::cow::share(old(self)@, frame, writable),
    {
        if self.cow.map_to_shared(frame, writable) {
            assert(self@ =~~= crate::handler::cow::share(old(self)@, frame, writable).0);
            Ok(())
        } else {
            assert(self@ =~~= old(self)@);
            Err(MemoryError::ShareLimit)
        }
    }

    /// Drops one mapping of `frame` from the copy-on-write table. Returns
    /// whether that was the last one.
    pub fn unshare_frame(&mut self, frame: PhysAddr) -> (last: bool)
        requires
            old(self).wf(),
        ensures
            final(self).wf(),
            last == crate::cow::shares_last(old(self)@.shares, frame),
            final(self)@ == crate::handler::cow::unshare(old(self)@, frame),
    {
        let last = self.cow.unmap_shared(frame);
        assert(self@ =~~= crate::handler::cow::unshare(old(self)@, frame));
        last
    }

    /// Whether exactly one mapping of `frame` is counted.
    pub fn is_one_shared(&self, frame: PhysAddr) -> (one: bool)
        ensures
            one == (crate::cow::share_count(self@.shares, frame) == 1),
    {
        self.cow.is_one_shared(frame)
    }

    /// A copy of the page that `frame` holds.
    pub fn load_frame(&self, frame: PhysAddr) -> (data: Vec<u8>)
        ensures
            data@ == content(self@.memory, frame),
            self.wf() ==> data@.len() == 4096,
    {
        self.memory.load(frame)
    }

    /// Puts the page `data` into `frame`.
    pub fn fill_frame(&mut self, frame: PhysAddr, data: Vec<u8>)
        requires
            old(self).wf(),
            data@.len() == 4096,
        ensures
            final(self).wf(),
            final(self)@ == (State {
                memory: old(self)@.memory.insert(frame, data@),
                ..old(self)@
            }),
    {
        self.memory.store(frame, data);
        assert(self@ =~~= (State {
            memory: old(self)@.memory.insert(frame, data@),
            ..old(self)@
        }));
    }

    /// A copy of the bytes of the page of `addr` as `table` sees them.
    pub fn read_page(&self, table: usize, addr: VirtAddr) -> (data: Option<Vec<u8>>)
        requires
            self@.valid_table(table),
        ensures
            match data {
                Some(d) => self@.page_content(table, addr) == Some(d@) && (self.wf() ==> d@.len()
                    == 4096),
                None => self@.page_content(table, addr) is None,
            },
    {
        match self.tables[table].get_entry(addr) {
            None => None,
            Some(e) => {
                if e.present {
                    Some(self.memory.load(e.target))
                } else if e.swapped {
                    match self.swap.swapper.pages.get(&e.target) {
                        Some(page) => Some(crate::phys::copy_bytes(page)),
                        None => None,
                    }
                } else {
                    None
                }
            },
        }
    }
}

} // verus!
