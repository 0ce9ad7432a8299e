//! What holds of memory sets and of the policies, whatever the state they
//! start from.

use vstd::prelude::*;
use crate::addr::VirtAddr;
use crate::context::{page_start, MemoryError, State};
use crate::cow::share_count;
use crate::delaying::{lemma_untouched_areas_are_delayed, only_table_changed, unbacked_at, untouched};
use crate::effects::{delays, lemma_map_pages_touches, lemma_unmap_pages_touches, present_at};
use crate::frame::{lemma_lowest_free, lowest_free};
use crate::handler::cow::CowMemoryHandler;
use crate::handler::swap::{delayed, listed, unbacked, SwapMemoryHandler};
use crate::memory_set::{
    box_clone_all, clone_areas, overlaps_any, page_addr, pairwise_disjoint, unmap_areas, Area,
    MemoryAttr, Space,
};
use crate::ownership::{
    bound, bound_apart, keeps, lemma_eager_clone_areas, others_fade, unregistered,
};
use crate::paging::{slot, Entry};
use crate::phys::content;
use crate::residency::{
    lemma_alloc_keeps_resident, registered_at, resident, resident_key, unregistered_area,
};
use crate::soundness::{lemma_sound_keeps, sound, valid};
use crate::sharing::{lemma_cow_clone_areas, only_tables_and_shares, shared_pair};

verus! {

/// No two areas of a memory set have a page in common.
pub proof fn lemma_areas_share_no_page(space: Space, i: int, j: int, page: int)
    requires
        space.wf(),
        0 <= i < space.areas.len(),
        0 <= j < space.areas.len(),
        i != j,
    ensures
        !(space.areas[i].has_page(page) && space.areas[j].has_page(page)),
{
    assert(!space.areas[i].overlaps(space.areas[j]));
}

/// Pushing an area that overlaps one of the set fails and leaves the set and
/// the state as they were.
pub proof fn lemma_push_overlap_is_refused(space: Space, s: State, area: Area)
    requires
        overlaps_any(space.areas, area),
    ensures
        space.push(s, area) == (s, space, Err::<(), MemoryError>(MemoryError::Overlap)),
{
}

/// Pushing keeps the areas of a set disjoint, whether it succeeds or not; an
/// area joins the set only if it overlaps none.
pub proof fn lemma_push_keeps_disjoint(space: Space, s: State, area: Area)
    requires
        space.wf(),
        area.wf(),
    ensures
        space.push(s, area).1.wf(),
        space.push(s, area).2 is Ok ==> !overlaps_any(space.areas, area) && space.push(
            s,
            area,
        ).1.areas == space.areas.push(area),
{
    let after = space.push(s, area).1;
    if space.push(s, area).2 is Ok {
        assert(after.areas == space.areas.push(area));
        assert forall|a: int, b: int|
            0 <= a < after.areas.len() && 0 <= b < after.areas.len() && a != b implies !(
            #[trigger] after.areas[a]).overlaps(#[trigger] after.areas[b]) by {
            if a < space.areas.len() && b < space.areas.len() {
                assert(!space.areas[a].overlaps(space.areas[b]));
            } else if a < space.areas.len() {
                assert(!area.overlaps(space.areas[a]));
            } else {
                assert(!area.overlaps(space.areas[b]));
            }
        }
    }
}

/// With no frame free and a page registered as one that may be evicted, a
/// request for a frame succeeds by evicting the page that was registered
/// first: the request is given that page's frame, the page's bytes are
/// kept under a fresh token, its entry is marked swapped and not present,
/// and the pages registered after it move up and stay resident. This holds
/// wherever every registered page is resident and the backing store has a
/// token left.
pub proof fn lemma_exhausted_pool_evicts_oldest(s: State)
    requires
        resident(s),
        forall|i: int| 0 <= i < s.frames.len() ==> !s.frames[i],
        s.queue.len() > 0,
        s.next_token < usize::MAX,
    ensures
        ({
            let (table, addr) = s.queue[0];
            let victim = s.entry(table, addr).unwrap();
            let (after, frame) = s.alloc_frame();
            &&& s.entry(table, addr) is Some
            &&& frame == Some(victim.target)
            &&& after.queue == s.queue.drop_first()
            &&& after.frames == s.frames
            &&& after.memory == s.memory
            &&& after.entry(table, addr) == Some(
                Entry { present: false, swapped: true, target: s.next_token, ..victim },
            )
            &&& after.store == s.store.insert(s.next_token, content(s.memory, victim.target))
            &&& resident(after)
        }),
{
    lemma_lowest_free(s.frames);
    assert(resident_key(s, s.queue[0]));
    lemma_alloc_keeps_resident(s);
}

/// While a frame is free, a request for a frame evicts nothing: it is given
/// the lowest free frame, and only the pool changes.
pub proof fn lemma_free_frame_is_handed_out(s: State)
    requires
        exists|i: int| 0 <= i < s.frames.len() && s.frames[i],
    ensures
        ({
            let (after, frame) = s.alloc_frame();
            &&& lowest_free(s.frames) is Some
            &&& frame == Some(s.frame_addr(lowest_free(s.frames).unwrap()))
            &&& after == (State {
                frames: s.frames.update(lowest_free(s.frames).unwrap(), false),
                ..s
            })
        }),
{
    lemma_lowest_free(s.frames);
}

/// Carrying over a swappable page that the live table has nothing behind
/// allocates no frame and copies no bytes: the new table gets an entry with
/// nothing behind it, the page joins the delayed pages, and everything but
/// the new table stays as it was.
pub proof fn lemma_untouched_page_is_delayed(
    flags: MemoryAttr,
    delay: Seq<VirtAddr>,
    s: State,
    inpt: usize,
    addr: VirtAddr,
)
    requires
        s.valid_table(inpt),
        s.entry(s.active, addr) is Some,
        !s.entry(s.active, addr).unwrap().present,
        !s.entry(s.active, addr).unwrap().swapped,
    ensures
        ({
            let (after, delay_after, done) = SwapMemoryHandler::spec_map_clone(
                flags,
                delay,
                s,
                inpt,
                addr,
            );
            &&& done is Ok
            &&& delay_after == delay.push(addr)
            &&& listed(delay_after, addr)
            &&& delayed(delay_after, addr)
            &&& after.frames == s.frames
            &&& after.memory == s.memory
            &&& after.store == s.store
            &&& after.queue == s.queue
            &&& after.shares == s.shares
            &&& after.entry(inpt, addr) == Some(unbacked(flags))
            &&& after == s.with_entries(inpt, s.tables[inpt as int].insert(slot(addr), unbacked(flags)))
        }),
{
    crate::handler::lemma_install(s, inpt, addr, unbacked(flags));
    let d = delay.push(addr);
    assert(slot(d[delay.len() as int]) == slot(addr));
    assert(d[delay.len() as int] == addr);
}

/// The first touch of a delayed page with nothing behind it is resolved by
/// one allocation: the fault handler requests one frame, binds the page to
/// it, present and with the area's attributes, and registers the page as one
/// that may be evicted. Nothing else changes but what the one request for a
/// frame changes. This holds wherever every registered page is resident and
/// the request succeeds.
pub proof fn lemma_first_touch_backs_delayed_page(
    flags: MemoryAttr,
    delay: Seq<VirtAddr>,
    s: State,
    inpt: usize,
    addr: VirtAddr,
)
    requires
        s.valid_table(inpt),
        delayed(delay, addr),
        s.entry(inpt, addr) == Some(unbacked(flags)),
        s.alloc_frame().1 is Some,
        resident(s),
    ensures
        ({
            let (allocated, frame) = s.alloc_frame();
            let (after, done) = SwapMemoryHandler::spec_page_fault(flags, delay, s, inpt, addr);
            &&& done == Ok::<bool, MemoryError>(true)
            &&& after.frames == allocated.frames
            &&& after.memory == allocated.memory
            &&& after.store == allocated.store
            &&& after.shares == allocated.shares
            &&& after.entry(inpt, addr) == Some(flags.applied(Entry::mapped(frame.unwrap())))
            &&& after.queue == crate::swap::queue_push(allocated.queue, (inpt, page_start(addr)))
            &&& after.queue.contains((inpt, page_start(addr)))
            &&& after.tables == allocated.tables.update(
                inpt as int,
                allocated.tables[inpt as int].insert(
                    slot(addr),
                    flags.applied(Entry::mapped(frame.unwrap())),
                ),
            )
        }),
{
    let (allocated, frame) = s.alloc_frame();
    lemma_alloc_keeps_slots(s);
    lemma_alloc_keeps_resident(s);
    if registered_at(s, inpt, slot(addr) as int) {
        let i = choose|i: int|
            0 <= i < s.queue.len() && (#[trigger] s.queue[i]).0 == inpt && slot(s.queue[i].1)
                == slot(addr) as int;
        assert(resident_key(s, s.queue[i]));
    }
    assert(allocated.tables[inpt as int].contains_key(slot(addr)));
    assert(allocated.entry(inpt, addr) == s.entry(inpt, addr));
    let e = allocated.entry(inpt, addr).unwrap();
    let bound = allocated.update(inpt, addr, flags.applied(Entry { target: frame.unwrap(), ..e }));
    assert(bound.entry(inpt, addr) == Some(flags.applied(Entry { target: frame.unwrap(), ..e })));
    crate::swap::lemma_position(bound.queue, (inpt, page_start(addr)));
    if crate::swap::position(bound.queue, (inpt, page_start(addr))) is None {
        assert(bound.queue.push((inpt, page_start(addr)))[bound.queue.len() as int] == (
            inpt,
            page_start(addr),
        ));
    }
    let (after, done) = SwapMemoryHandler::spec_page_fault(flags, delay, s, inpt, addr);
    assert(after.tables =~= allocated.tables.update(
        inpt as int,
        allocated.tables[inpt as int].insert(slot(addr), flags.applied(Entry::mapped(frame.unwrap()))),
    ));
}

/// A request for a frame adds no table and takes no slot away from one.
pub proof fn lemma_alloc_keeps_slots(s: State)
    ensures
        s.alloc_frame().0.tables.len() == s.tables.len(),
        forall|t: int, k: usize|
            0 <= t < s.tables.len() && s.tables[t].contains_key(k)
                ==> #[trigger] s.alloc_frame().0.tables[t].contains_key(k),
{
}

/// Once a frame has one mapping only, a write fault on it allocates nothing:
/// the page is made writable where it is.
pub proof fn lemma_sole_owner_write_keeps_frame(
    handler: CowMemoryHandler,
    s: State,
    inpt: usize,
    addr: VirtAddr,
)
    requires
        s.valid_table(inpt),
        !handler.flags.readonly,
        s.entry(inpt, addr) is Some,
        share_count(s.shares, s.entry(inpt, addr).unwrap().target) == 1,
    ensures
        ({
            let (after, done) = handler.spec_page_fault(s, inpt, addr);
            let e = s.entry(inpt, addr).unwrap();
            &&& done == Ok::<bool, MemoryError>(true)
            &&& after.entry(inpt, addr) == Some(Entry { writable: true, ..e })
            &&& after.frames == s.frames
            &&& after.memory == s.memory
            &&& after.shares == s.shares
            &&& after.queue == s.queue
            &&& after.store == s.store
        }),
{
}

/// Unmapping the areas from index `i` on leaves no page of any of them
/// present, if it succeeds.
pub proof fn lemma_unmap_areas_unmaps_all(
    areas: Seq<Area>,
    s: State,
    table: usize,
    i: int,
    j: int,
    q: int,
)
    requires
        s.valid_table(table),
        0 <= i <= j < areas.len(),
        pairwise_disjoint(areas),
        areas[j].has_page(q),
        unmap_areas(areas, s, table, i).1 is Ok,
    ensures
        !present_at(unmap_areas(areas, s, table, i).0, table, q),
        unmap_areas(areas, s, table, i).0.tables.len() == s.tables.len(),
    decreases areas.len() - i,
{
    let area = areas[i];
    let (s1, r) = area.unmap(s, table);
    lemma_unmap_pages_touches(area.policy, s, table, area.first_page(), area.end_page());
    if i == j {
        assert(!present_at(s1, table, q));
        lemma_unmap_areas_spares(areas, s1, table, i + 1, j, q);
    } else {
        lemma_unmap_areas_unmaps_all(areas, s1, table, i + 1, j, q);
    }
}

/// Unmapping the areas from index `i` on makes no page of an earlier area
/// present that was not.
pub proof fn lemma_unmap_areas_spares(areas: Seq<Area>, s: State, table: usize, i: int, j: int, q: int)
    requires
        s.valid_table(table),
        0 <= j < i <= areas.len(),
        pairwise_disjoint(areas),
        areas[j].has_page(q),
        !present_at(s, table, q),
    ensures
        !present_at(unmap_areas(areas, s, table, i).0, table, q),
        unmap_areas(areas, s, table, i).0.tables.len() == s.tables.len(),
    decreases areas.len() - i,
{
    if i < areas.len() {
        let area = areas[i];
        let (s1, r) = area.unmap(s, table);
        lemma_unmap_pages_touches(area.policy, s, table, area.first_page(), area.end_page());
        assert(!area.overlaps(areas[j]));
        assert(!(area.first_page() <= q < area.end_page()));
        assert(s1.tables[table as int].contains_key(q as usize) == s.tables[table as int].contains_key(
            q as usize,
        ));
        assert(!present_at(s1, table, q));
        if r is Ok {
            lemma_unmap_areas_spares(areas, s1, table, i + 1, j, q);
        }
    }
}

/// A clear that succeeds leaves the set empty and no page of any of its
/// areas present in the set's page table.
pub proof fn lemma_clear_unmaps(space: Space, s: State, j: int, q: int)
    requires
        space.wf(),
        s.valid_table(space.table),
        space.clear(s).2 is Ok,
        0 <= j < space.areas.len(),
        space.areas[j].has_page(q),
    ensures
        space.clear(s).1.areas.len() == 0,
        space.clear(s).1.table == space.table,
        !present_at(space.clear(s).0, space.table, q),
{
    lemma_unmap_areas_unmaps_all(space.areas, s, space.table, 0, j, q);
}

/// A push followed at once by a clear leaves no page of the pushed area
/// present in the set's page table, and the set empty, whatever the policy
/// of the area and whether or not the allocation of its pages is delayed.
/// If no page of the area was present before the push, the push and the
/// clear together have made none present.
pub proof fn lemma_push_then_clear_unmaps(space: Space, s: State, area: Area)
    requires
        space.wf(),
        s.valid_table(space.table),
        space.push(s, area).2 is Ok,
        space.push(s, area).1.clear(space.push(s, area).0).2 is Ok,
    ensures
        ({
            let (pushed, with_area, _) = space.push(s, area);
            let (cleared, emptied, _) = with_area.clear(pushed);
            &&& emptied.areas.len() == 0
            &&& emptied.table == space.table
            &&& forall|q: int| area.has_page(q) ==> !#[trigger] present_at(cleared, space.table, q)
        }),
{
    let (pushed, with_area, _) = space.push(s, area);
    let table = space.table;
    lemma_map_pages_touches(area.policy, s, table, area.first_page(), area.end_page());
    assert(with_area.areas == space.areas.push(area));
    let last = with_area.areas.len() - 1;
    assert(with_area.areas[last] == area);
    assert(pairwise_disjoint(with_area.areas)) by {
        assert forall|a: int, b: int|
            0 <= a < with_area.areas.len() && 0 <= b < with_area.areas.len() && a != b implies !(
            #[trigger] with_area.areas[a]).overlaps(#[trigger] with_area.areas[b]) by {
            if a < space.areas.len() && b < space.areas.len() {
                assert(!space.areas[a].overlaps(space.areas[b]));
            } else if a < space.areas.len() {
                assert(!area.overlaps(space.areas[a]));
            } else {
                assert(!area.overlaps(space.areas[b]));
            }
        }
    }
    let cleared = with_area.clear(pushed).0;
    assert forall|q: int| area.has_page(q) implies !#[trigger] present_at(cleared, table, q) by {
        lemma_unmap_areas_unmaps_all(with_area.areas, pushed, table, 0, last, q);
    }
}

/// A new page table takes no frame out of the state's keeping.
pub proof fn lemma_new_table_keeps(s: State, bare: bool, frame: usize)
    requires
        keeps(s, frame),
    ensures
        keeps(s.new_table(bare), frame),
{
    reveal(keeps);
    let after = s.new_table(bare);
    assert forall|i: int| 0 <= i < after.queue.len() implies {
        &&& after.valid_table((#[trigger] after.queue[i]).0)
        &&& after.entry(after.queue[i].0, after.queue[i].1) is Some && !after.entry(
            after.queue[i].0,
            after.queue[i].1,
        ).unwrap().swapped ==> after.entry(after.queue[i].0, after.queue[i].1).unwrap().target
            != frame
    } by {
        assert(s.valid_table(s.queue[i].0));
        assert(after.tables[s.queue[i].0 as int] == s.tables[s.queue[i].0 as int]);
    }
    assert forall|i: int| 0 <= i < after.frames.len() && after.frames[i] implies #[trigger] after.frame_addr(
        i,
    ) != frame by {
        assert(s.frame_addr(i) != frame);
    }
}

/// The fork of a memory set whose areas are all eager binds every page of
/// the child to a frame that the state did not keep: where the state keeps
/// the frames of the parent's present pages from being handed out, the
/// child's frames are frames of none of them.
pub proof fn lemma_eager_fork_avoids_kept_frames(
    space: Space,
    s: State,
    j: int,
    q: int,
    j2: int,
    q2: int,
)
    requires
        space.wf(),
        s.valid_table(space.table),
        s.tables.len() < usize::MAX,
        forall|i: int| 0 <= i < s.queue.len() ==> s.valid_table((#[trigger] s.queue[i]).0),
        forall|a: int| 0 <= a < space.areas.len() ==> (#[trigger] space.areas[a]).policy is Eager,
        forall|a: int, p: int|
            0 <= a < space.areas.len() && (#[trigger] space.areas[a]).has_page(p) && #[trigger] present_at(
                s,
                space.table,
                p,
            ) ==> keeps(s, s.tables[space.table as int][p as usize].target),
        space.fork(s).2 is Ok,
        0 <= j < space.areas.len(),
        space.areas[j].has_page(q),
        0 <= j2 < space.areas.len(),
        space.areas[j2].has_page(q2),
    ensures
        ({
            let (after, child, _) = space.fork(s);
            &&& child.table == s.tables.len()
            &&& child.areas == space.areas
            &&& bound(after, child.table, q)
            &&& present_at(after, space.table, q2) ==> {
                &&& present_at(s, space.table, q2)
                &&& after.tables[space.table as int][q2 as usize] == s.tables[space.table as int][q2 as usize]
                &&& after.tables[child.table as int][q as usize].target
                    != after.tables[space.table as int][q2 as usize].target
            }
        }),
{
    let s0 = s.new_table(false);
    let table = s.tables.len() as usize;
    let areas = box_clone_all(space.areas);
    assert(areas =~= space.areas) by {
        assert forall|a: int| 0 <= a < space.areas.len() implies areas[a] == space.areas[a] by {
            assert(space.areas[a].policy is Eager);
        }
    }
    assert(unregistered(s0, table)) by {
        assert forall|i: int| 0 <= i < s0.queue.len() implies (#[trigger] s0.queue[i]).0 != table by {
            assert(s.valid_table(s.queue[i].0));
        }
    }
    let (after, out, done) = clone_areas(areas, s0, table, 0);
    lemma_eager_clone_areas(areas, s0, table, 0, 0);
    assert(bound(after, table, q)) by {
        assert(areas[j].has_page(q));
    }
    if present_at(after, space.table, q2) {
        reveal(others_fade);
        let k = q2 as usize;
        let parent = space.table as int;
        assert(after.tables[parent].contains_key(k) == s0.tables[parent].contains_key(k));
        assert(s0.tables[parent] == s.tables[parent]);
        assert(after.tables[parent][k] == s.tables[parent][k]);
        assert(present_at(s, space.table, q2));
        let g = s.tables[parent][k].target;
        assert(space.areas[j2].has_page(q2));
        assert(keeps(s, g));
        lemma_new_table_keeps(s, false, g);
        lemma_eager_clone_areas(areas, s0, table, 0, g);
        assert(bound_apart(after, table, q, g)) by {
            assert(areas[j].has_page(q));
        }
    }
}

/// The fork of the live memory set, all of whose areas are copy-on-write,
/// allocates no frame and copies no bytes. Right after it every page of the
/// set is bound to the same frame in the parent's table and in the child's,
/// and neither may write it: the parent's entry is what it was but for the
/// writable bit, and the child's is present, shared and write-protected.
pub proof fn lemma_cow_fork_shares_frames(space: Space, s: State, j: int, q: int)
    requires
        space.wf(),
        s.valid_table(space.table),
        s.active == space.table,
        s.tables.len() < usize::MAX,
        forall|a: int|
            0 <= a < space.areas.len() ==> (#[trigger] space.areas[a]).policy is CopyOnWrite,
        space.fork(s).2 is Ok,
        0 <= j < space.areas.len(),
        space.areas[j].has_page(q),
    ensures
        ({
            let (after, child, _) = space.fork(s);
            let parent_before = s.tables[space.table as int];
            let parent_after = after.tables[space.table as int];
            let child_after = after.tables[child.table as int];
            let k = q as usize;
            &&& child.table == s.tables.len()
            &&& child.areas == space.areas
            &&& after.frames == s.frames
            &&& after.memory == s.memory
            &&& after.queue == s.queue
            &&& after.store == s.store
            &&& parent_before.contains_key(k)
            &&& parent_after.contains_key(k)
            &&& parent_after[k] == (Entry { writable: false, ..parent_before[k] })
            &&& child_after.contains_key(k)
            &&& child_after[k].target == parent_before[k].target
            &&& child_after[k].present
            &&& child_after[k].shared
            &&& !child_after[k].writable
        }),
{
    let s0 = s.new_table(false);
    let table = s.tables.len() as usize;
    let areas = box_clone_all(space.areas);
    assert(areas =~= space.areas) by {
        assert forall|a: int| 0 <= a < space.areas.len() implies areas[a] == space.areas[a] by {
            assert(space.areas[a].policy is CopyOnWrite);
        }
    }
    lemma_cow_clone_areas(areas, s0, table, 0);
    let after = clone_areas(areas, s0, table, 0).0;
    assert(areas[j].has_page(q));
    assert(shared_pair(s0, after, table, q));
    assert(only_tables_and_shares(s0, after));
    assert(s0.tables[space.table as int] == s.tables[space.table as int]);
}

/// The fork of a memory set whose areas are all swappable, while the live
/// table has nothing behind any of their pages, succeeds without allocating
/// a frame or copying a byte: the frame pool, memory, the backing store, the
/// pages that may be evicted, the count of mappings and every table that
/// was there stay as they were. In the child's table each page gets an entry
/// with the attributes of its area and nothing behind it, and the child's
/// area delays the page until it is first touched.
pub proof fn lemma_untouched_fork_allocates_nothing(space: Space, s: State, j: int, q: int)
    requires
        space.wf(),
        s.valid_table(s.active),
        s.tables.len() < usize::MAX,
        forall|a: int| 0 <= a < space.areas.len() ==> (#[trigger] space.areas[a]).policy is Swappable,
        forall|a: int, p: int|
            0 <= a < space.areas.len() && (#[trigger] space.areas[a]).has_page(p) ==> #[trigger] untouched(
                s,
                p,
            ),
        0 <= j < space.areas.len(),
        space.areas[j].has_page(q),
    ensures
        ({
            let (after, child, done) = space.fork(s);
            &&& done is Ok
            &&& after == (State { tables: after.tables, ..s })
            &&& after.tables.len() == s.tables.len() + 1
            &&& forall|t: int| 0 <= t < s.tables.len() ==> #[trigger] after.tables[t] == s.tables[t]
            &&& child.table == s.tables.len()
            &&& child.areas.len() == space.areas.len()
            &&& child.areas[j].start == space.areas[j].start
            &&& child.areas[j].end == space.areas[j].end
            &&& child.areas[j].policy.flags() == space.areas[j].policy.flags()
            &&& delays(child.areas[j].policy, page_addr(q))
            &&& unbacked_at(after, child.table, q, space.areas[j].policy.flags())
        }),
{
    let s0 = s.new_table(false);
    let table = s.tables.len() as usize;
    let areas = box_clone_all(space.areas);
    assert(pairwise_disjoint(areas)) by {
        assert forall|a: int, b: int|
            0 <= a < areas.len() && 0 <= b < areas.len() && a != b implies !(#[trigger] areas[a]).overlaps(
            #[trigger] areas[b],
        ) by {
            assert(!space.areas[a].overlaps(space.areas[b]));
        }
    }
    assert forall|a: int| 0 <= a < areas.len() implies (#[trigger] areas[a]).policy is Swappable by {
        assert(space.areas[a].policy is Swappable);
    }
    assert forall|a: int, p: int|
        0 <= a < areas.len() && (#[trigger] areas[a]).has_page(p) implies #[trigger] untouched(
        s0,
        p,
    ) by {
        assert(space.areas[a].has_page(p));
        assert(untouched(s, p));
        assert(s0.tables[s.active as int] == s.tables[s.active as int]);
    }
    lemma_untouched_areas_are_delayed(areas, s0, table, 0);
    let (after, out, done) = clone_areas(areas, s0, table, 0);
    assert(only_table_changed(s0, after, table));
    assert forall|t: int| 0 <= t < s.tables.len() implies #[trigger] after.tables[t] == s.tables[t] by {
        assert(after.tables[t] == s0.tables[t]);
    }
    assert(areas[j].has_page(q));
    assert(out[j].start == areas[j].start);
    assert(unbacked_at(after, table, q, areas[j].policy.flags()));
    assert(delays(out[j].policy, page_addr(q)));
    assert(areas[j].policy.flags() == space.areas[j].policy.flags());
}

/// The fork of a memory set whose areas are all eager gives every page of
/// the child a frame of its own: the page is present in the child's table,
/// and its frame is the frame of no page that the parent still has present.
/// So nothing that is written to a page of the child reaches a page of the
/// parent, and nothing written to a page of the parent reaches the child.
/// This holds of every memory set that is valid in the state: the state is
/// sound, and none of the set's pages is registered as one that may be
/// evicted.
pub proof fn lemma_eager_fork_is_independent(
    space: Space,
    s: State,
    j: int,
    q: int,
    j2: int,
    q2: int,
)
    requires
        space.wf(),
        s.valid_table(space.table),
        s.tables.len() < usize::MAX,
        valid(space, s),
        forall|a: int| 0 <= a < space.areas.len() ==> (#[trigger] space.areas[a]).policy is Eager,
        space.fork(s).2 is Ok,
        0 <= j < space.areas.len(),
        space.areas[j].has_page(q),
        0 <= j2 < space.areas.len(),
        space.areas[j2].has_page(q2),
    ensures
        ({
            let (after, child, _) = space.fork(s);
            &&& child.table == s.tables.len()
            &&& child.areas == space.areas
            &&& bound(after, child.table, q)
            &&& present_at(after, space.table, q2) ==> {
                &&& present_at(s, space.table, q2)
                &&& after.tables[space.table as int][q2 as usize] == s.tables[space.table as int][q2 as usize]
                &&& after.tables[child.table as int][q as usize].target
                    != after.tables[space.table as int][q2 as usize].target
            }
        }),
{
    assert forall|i: int| 0 <= i < s.queue.len() implies s.valid_table((#[trigger] s.queue[i]).0) by {
        assert(resident_key(s, s.queue[i]));
    }
    assert forall|a: int, p: int|
        0 <= a < space.areas.len() && (#[trigger] space.areas[a]).has_page(p) && #[trigger] present_at(
            s,
            space.table,
            p,
        ) implies keeps(s, s.tables[space.table as int][p as usize].target) by {
        assert(space.areas[a].policy is Eager);
        assert(unregistered_area(s, space.table, space.areas[a]));
        assert(!registered_at(s, space.table, p));
        lemma_sound_keeps(s, space.table, p);
    }
    lemma_eager_fork_avoids_kept_frames(space, s, j, q, j2, q2);
}

/// Carrying a page over under the eager policy makes one request for a
/// frame and binds the page, in the new table, to the frame handed out,
/// with the area's attributes. That frame is not the frame of the page in
/// the live table; it holds a copy of that page's bytes; and the live
/// table's entry and the bytes of its frame are as they were. This holds in
/// every sound state in which the live table has the page present and not
/// registered as one that may be evicted.
pub proof fn lemma_eager_clone_page_is_a_copy(
    h: crate::handler::normal::NormalMemoryHandler,
    s: State,
    inpt: usize,
    addr: VirtAddr,
)
    requires
        sound(s),
        s.valid_table(inpt),
        s.valid_table(s.active),
        inpt != s.active,
        s.entry(s.active, addr) is Some,
        s.entry(s.active, addr).unwrap().present,
        !s.entry(s.active, addr).unwrap().swapped,
        !registered_at(s, s.active, slot(addr) as int),
        h.spec_map_clone(s, inpt, addr).1 is Ok,
    ensures
        ({
            let (after, _) = h.spec_map_clone(s, inpt, addr);
            let source = s.entry(s.active, addr).unwrap();
            let handed = s.alloc_frame().1;
            &&& handed is Some
            &&& after.entry(inpt, addr) == Some(h.flags.applied(Entry::mapped(handed.unwrap())))
            &&& after.frames == s.alloc_frame().0.frames
            &&& handed.unwrap() != source.target
            &&& content(after.memory, handed.unwrap()) == content(s.memory, source.target)
            &&& after.entry(s.active, addr) == Some(source)
            &&& content(after.memory, source.target) == content(s.memory, source.target)
            &&& sound(after)
        }),
{
    lemma_sound_keeps(s, s.active, slot(addr) as int);
    crate::ownership::lemma_eager_clone_copies(h, s, inpt, addr);
    crate::soundness::lemma_clone_page_keeps_sound(
        crate::handler::Policy::Eager(h),
        s,
        inpt,
        addr,
    );
}

} // verus!
