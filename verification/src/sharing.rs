//! What a copy-on-write fork and a write fault do to the page tables and to
//! the count of mappings.

use vstd::prelude::*;
use crate::addr::{PhysAddr, VirtAddr};
use crate::context::{MemoryError, State};
use crate::cow::share_count;
use crate::handler::cow::{unshare, CowMemoryHandler};
use crate::handler::{lemma_install, Policy};
use crate::memory_set::{clone_areas, clone_pages, page_addr, pairwise_disjoint, Area};
use crate::ownership::{in_areas_from, keeps, lemma_alloc_keeps, lemma_page_of_one_area};
use crate::paging::{slot, Entry};
use crate::residency::{lemma_alloc_keeps_resident, registered_at};
use crate::soundness::{lemma_alloc_keeps_sound, lemma_sound_keeps, sound};
use crate::phys::content;

verus! {

/// From `s` to `after`, no table came or went, and outside the pages `lo`
/// up to, not including, `hi` every table kept its entries.
pub open spec fn pages_same_outside(s: State, after: State, lo: int, hi: int) -> bool {
    &&& after.tables.len() == s.tables.len()
    &&& forall|t: int, k: usize|
        #![trigger after.tables[t].contains_key(k)]
        0 <= t < s.tables.len() && !(lo <= k < hi) ==> {
            &&& after.tables[t].contains_key(k) == s.tables[t].contains_key(k)
            &&& s.tables[t].contains_key(k) ==> after.tables[t][k] == s.tables[t][k]
        }
}

/// From `s` to `after`, no table came or went, and outside the pages of
/// `areas` from index `i` on every table kept its entries.
pub open spec fn pages_same_outside_areas(s: State, after: State, areas: Seq<Area>, i: int) -> bool {
    &&& after.tables.len() == s.tables.len()
    &&& forall|t: int, k: usize|
        #![trigger after.tables[t].contains_key(k)]
        0 <= t < s.tables.len() && !in_areas_from(areas, i, k as int) ==> {
            &&& after.tables[t].contains_key(k) == s.tables[t].contains_key(k)
            &&& s.tables[t].contains_key(k) ==> after.tables[t][k] == s.tables[t][k]
        }
}

/// Page `page` is shared between the table that was live in `s` and the
/// table `inpt`: in `after` the live table has the entry it had in `s`, but
/// write-protected, and `inpt` has the page present, bound to the same
/// frame, write-protected and marked shared.
pub open spec fn shared_pair(s: State, after: State, inpt: usize, page: int) -> bool {
    let parent = s.active as int;
    let k = page as usize;
    &&& s.tables[parent].contains_key(k)
    &&& after.tables[parent].contains_key(k)
    &&& after.tables[parent][k] == (Entry { writable: false, ..s.tables[parent][k] })
    &&& after.tables[inpt as int].contains_key(k)
    &&& after.tables[inpt as int][k].target == s.tables[parent][k].target
    &&& after.tables[inpt as int][k].present
    &&& after.tables[inpt as int][k].shared
    &&& !after.tables[inpt as int][k].writable
}

/// Everything but the page tables and the count of mappings is as it was.
pub open spec fn only_tables_and_shares(s: State, after: State) -> bool {
    &&& after.frames == s.frames
    &&& after.offset == s.offset
    &&& after.active == s.active
    &&& after.queue == s.queue
    &&& after.store == s.store
    &&& after.next_token == s.next_token
    &&& after.memory == s.memory
}

/// Carrying one page over under the copy-on-write policy shares the page
/// between the live table and the new one, counts one more mapping of its
/// frame, allocates nothing and copies nothing.
pub proof fn lemma_cow_clone_page(h: CowMemoryHandler, s: State, inpt: usize, addr: VirtAddr)
    requires
        s.valid_table(inpt),
        s.valid_table(s.active),
        inpt != s.active,
    ensures
        pages_same_outside(s, h.spec_map_clone(s, inpt, addr).0, slot(addr) as int, slot(addr) + 1),
        only_tables_and_shares(s, h.spec_map_clone(s, inpt, addr).0),
        h.spec_map_clone(s, inpt, addr).1 is Ok ==> shared_pair(
            s,
            h.spec_map_clone(s, inpt, addr).0,
            inpt,
            slot(addr) as int,
        ),
        h.spec_map_clone(s, inpt, addr).1 is Ok ==> share_count(
            h.spec_map_clone(s, inpt, addr).0.shares,
            s.entry(s.active, addr).unwrap().target,
        ) == share_count(s.shares, s.entry(s.active, addr).unwrap().target) + 1,
{
    match s.entry(s.active, addr) {
        None => {},
        Some(e) => {
            let s1 = s.update(s.active, addr, Entry { writable: false, ..e });
            let entry = Entry {
                writable: false,
                shared: true,
                ..h.flags.applied(Entry::mapped(e.target))
            };
            lemma_install(s1, inpt, addr, entry);
        },
    }
}

/// Carrying the pages `page` up to `end` over under the copy-on-write
/// policy shares each of them between the live table and the new one.
pub proof fn lemma_cow_clone_pages(h: CowMemoryHandler, s: State, inpt: usize, page: int, end: int)
    requires
        s.valid_table(inpt),
        s.valid_table(s.active),
        inpt != s.active,
        0 <= page,
        (end - 1) * 4096 <= usize::MAX,
    ensures
        clone_pages(Policy::CopyOnWrite(h), s, inpt, page, end).1 == Policy::CopyOnWrite(h),
        pages_same_outside(s, clone_pages(Policy::CopyOnWrite(h), s, inpt, page, end).0, page, end),
        only_tables_and_shares(s, clone_pages(Policy::CopyOnWrite(h), s, inpt, page, end).0),
        clone_pages(Policy::CopyOnWrite(h), s, inpt, page, end).2 is Ok ==> forall|q: int|
            page <= q < end ==> #[trigger] shared_pair(
                s,
                clone_pages(Policy::CopyOnWrite(h), s, inpt, page, end).0,
                inpt,
                q,
            ),
    decreases end - page,
{
    let whole = clone_pages(Policy::CopyOnWrite(h), s, inpt, page, end);
    if page < end {
        let addr = page_addr(page);
        assert(slot(addr) == page);
        let (s1, done1) = h.spec_map_clone(s, inpt, addr);
        lemma_cow_clone_page(h, s, inpt, addr);
        if done1 is Ok {
            lemma_cow_clone_pages(h, s1, inpt, page + 1, end);
            let tail = clone_pages(Policy::CopyOnWrite(h), s1, inpt, page + 1, end);
            assert(whole == tail);
            let after = tail.0;
            assert forall|t: int, k: usize|
                #![trigger after.tables[t].contains_key(k)]
                0 <= t < s.tables.len() && !(page <= k < end) implies {
                &&& after.tables[t].contains_key(k) == s.tables[t].contains_key(k)
                &&& s.tables[t].contains_key(k) ==> after.tables[t][k] == s.tables[t][k]
            } by {
                assert(s1.tables[t].contains_key(k) == s.tables[t].contains_key(k));
            }
            if tail.2 is Ok {
                let parent = s.active as int;
                let child = inpt as int;
                assert forall|q: int| page <= q < end implies #[trigger] shared_pair(
                    s,
                    after,
                    inpt,
                    q,
                ) by {
                    let k = q as usize;
                    if q == page {
                        assert(shared_pair(s, s1, inpt, page));
                        assert(after.tables[parent].contains_key(k) == s1.tables[parent].contains_key(k));
                        assert(after.tables[child].contains_key(k) == s1.tables[child].contains_key(k));
                    } else {
                        assert(shared_pair(s1, after, inpt, q));
                        assert(s1.tables[parent].contains_key(k) == s.tables[parent].contains_key(k));
                    }
                }
            }
        } else {
            assert(whole == (s1, Policy::CopyOnWrite(h), done1));
            assert forall|t: int, k: usize|
                #![trigger s1.tables[t].contains_key(k)]
                0 <= t < s.tables.len() && !(page <= k < end) implies {
                &&& s1.tables[t].contains_key(k) == s.tables[t].contains_key(k)
                &&& s.tables[t].contains_key(k) ==> s1.tables[t][k] == s.tables[t][k]
            } by {}
        }
    } else {
        assert(whole == (s, Policy::CopyOnWrite(h), Ok::<(), MemoryError>(())));
    }
}

/// Carrying the areas from index `i` on over, all of them under the
/// copy-on-write policy, shares each of their pages between the live table
/// and the new one.
pub proof fn lemma_cow_clone_areas(areas: Seq<Area>, s: State, inpt: usize, i: int)
    requires
        s.valid_table(inpt),
        s.valid_table(s.active),
        inpt != s.active,
        0 <= i <= areas.len(),
        pairwise_disjoint(areas),
        forall|j: int| 0 <= j < areas.len() ==> (#[trigger] areas[j]).policy is CopyOnWrite,
    ensures
        clone_areas(areas, s, inpt, i).1 == areas,
        pages_same_outside_areas(s, clone_areas(areas, s, inpt, i).0, areas, i),
        only_tables_and_shares(s, clone_areas(areas, s, inpt, i).0),
        clone_areas(areas, s, inpt, i).2 is Ok ==> forall|j: int, q: int|
            i <= j < areas.len() && (#[trigger] areas[j]).has_page(q) ==> #[trigger] shared_pair(
                s,
                clone_areas(areas, s, inpt, i).0,
                inpt,
                q,
            ),
    decreases areas.len() - i,
{
    let whole = clone_areas(areas, s, inpt, i);
    if i < areas.len() {
        let area = areas[i];
        match area.policy {
            Policy::CopyOnWrite(h) => {
                let (s1, p, done1) = area.map_clone(s, inpt);
                lemma_cow_clone_pages(h, s, inpt, area.first_page(), area.end_page());
                let carried = areas.update(i, Area { policy: p, ..area });
                assert(carried =~= areas);
                if done1 is Ok {
                    lemma_cow_clone_areas(areas, s1, inpt, i + 1);
                    let tail = clone_areas(areas, s1, inpt, i + 1);
                    assert(whole == tail);
                    let after = tail.0;
                    assert forall|t: int, k: usize|
                        #![trigger after.tables[t].contains_key(k)]
                        0 <= t < s.tables.len() && !in_areas_from(areas, i, k as int) implies {
                        &&& after.tables[t].contains_key(k) == s.tables[t].contains_key(k)
                        &&& s.tables[t].contains_key(k) ==> after.tables[t][k] == s.tables[t][k]
                    } by {
                        if area.has_page(k as int) {
                            assert(areas[i].has_page(k as int));
                            assert(in_areas_from(areas, i, k as int));
                        }
                        assert(!(area.first_page() <= k < area.end_page()));
                        if in_areas_from(areas, i + 1, k as int) {
                            let j = choose|j: int|
                                i + 1 <= j < areas.len() && (#[trigger] areas[j]).has_page(k as int);
                            assert(areas[j].has_page(k as int));
                            assert(in_areas_from(areas, i, k as int));
                        }
                        assert(s1.tables[t].contains_key(k) == s.tables[t].contains_key(k));
                        assert(after.tables[t].contains_key(k) == s1.tables[t].contains_key(k));
                    }
                    if tail.2 is Ok {
                        let parent = s.active as int;
                        let child = inpt as int;
                        assert forall|j: int, q: int|
                            i <= j < areas.len() && (#[trigger] areas[j]).has_page(
                                q,
                            ) implies #[trigger] shared_pair(s, after, inpt, q) by {
                            let k = q as usize;
                            if j == i {
                                assert(shared_pair(s, s1, inpt, q));
                                lemma_page_of_one_area(areas, i, q);
                                assert(after.tables[parent].contains_key(k)
                                    == s1.tables[parent].contains_key(k));
                                assert(after.tables[child].contains_key(k)
                                    == s1.tables[child].contains_key(k));
                            } else {
                                assert(shared_pair(s1, after, inpt, q));
                                assert(!areas[i].overlaps(areas[j]));
                                assert(!(area.first_page() <= k < area.end_page()));
                                assert(s1.tables[parent].contains_key(k) == s.tables[parent].contains_key(
                                    k,
                                ));
                            }
                        }
                    }
                } else {
                    assert(whole == (s1, carried, done1));
                    assert forall|t: int, k: usize|
                        #![trigger s1.tables[t].contains_key(k)]
                        0 <= t < s.tables.len() && !in_areas_from(areas, i, k as int) implies {
                        &&& s1.tables[t].contains_key(k) == s.tables[t].contains_key(k)
                        &&& s.tables[t].contains_key(k) ==> s1.tables[t][k] == s.tables[t][k]
                    } by {
                        if area.has_page(k as int) {
                            assert(areas[i].has_page(k as int));
                            assert(in_areas_from(areas, i, k as int));
                        }
                        assert(!(area.first_page() <= k < area.end_page()));
                    }
                }
            },
            _ => {},
        }
    } else {
        assert(whole == (s, areas, Ok::<(), MemoryError>(())));
    }
}

/// A write fault on a present page whose frame has more than one mapping
/// gives the writer a frame of its own. In every sound state in which the
/// faulting page is not registered as one that may be evicted, and a frame
/// can be had: one request for a frame is made and no frame is freed; the
/// entry of every other page that is not registered, so that of the other
/// owner too, is as it was; the state stays sound; and the writer's
/// page is bound, writable, to a frame other than the shared one, which is
/// counted once and holds a copy of the shared frame's bytes; the shared
/// frame loses one mapping and keeps its bytes, as does every frame but the
/// writer's new one.
pub proof fn lemma_shared_write_fault_splits(
    h: CowMemoryHandler,
    s: State,
    inpt: usize,
    addr: VirtAddr,
)
    requires
        s.valid_table(inpt),
        !h.flags.readonly,
        s.entry(inpt, addr) is Some,
        s.entry(inpt, addr).unwrap().present,
        share_count(s.shares, s.entry(inpt, addr).unwrap().target) >= 2,
        s.alloc_frame().1 is Some,
        sound(s),
        !registered_at(s, inpt, slot(addr) as int),
    ensures
        ({
            let shared = s.entry(inpt, addr).unwrap();
            let (after, done) = h.spec_page_fault(s, inpt, addr);
            let own = after.entry(inpt, addr).unwrap();
            &&& done == Ok::<bool, MemoryError>(true)
            &&& after.entry(inpt, addr) is Some
            &&& own == (Entry { writable: true, target: own.target, ..shared })
            &&& Some(own.target) == s.alloc_frame().1
            &&& own.target != shared.target
            &&& share_count(after.shares, own.target) == 1
            &&& share_count(after.shares, shared.target) == share_count(s.shares, shared.target) - 1
            &&& content(after.memory, own.target) == content(s.memory, shared.target)
            &&& forall|other: PhysAddr|
                other != own.target ==> #[trigger] content(after.memory, other) == content(
                    s.memory,
                    other,
                )
            &&& after.frames == s.alloc_frame().0.frames
            &&& after.tables.len() == s.tables.len()
            &&& forall|t: int, k: usize|
                0 <= t < s.tables.len() && !registered_at(s, t as usize, k as int) && !(t == inpt
                    && k == slot(addr)) ==> {
                    &&& (#[trigger] after.tables[t].contains_key(k)) == s.tables[t].contains_key(k)
                    &&& s.tables[t].contains_key(k) ==> after.tables[t][k] == s.tables[t][k]
                }
            &&& sound(after)
        }),
{
    let shared = s.entry(inpt, addr).unwrap();
    crate::soundness::lemma_cow_fault_keeps_sound(h, s, inpt, addr);
    lemma_sound_keeps(s, inpt, slot(addr) as int);
    lemma_alloc_keeps_sound(s);
    assert(s.alloc_frame().0.shares == s.shares);
    let s0 = unshare(s, shared.target);
    lemma_alloc_ignores_shares(s, s0);
    lemma_alloc_keeps_resident(s);
    assert(s.alloc_frame().0.tables[inpt as int].contains_key(slot(addr)));
    assert(s.alloc_frame().0.entry(inpt, addr) == s.entry(inpt, addr));
    lemma_alloc_keeps(s, shared.target);
    let (s1, got) = s0.alloc_frame();
    let target = got.unwrap();
    assert(s1.memory == s.memory);
    assert(s1.shares == s0.shares);
    let e = s1.entry(inpt, addr).unwrap();
    let s2 = s1.update(inpt, addr, Entry { writable: true, target, ..e });
    assert(s2.entry(inpt, addr) == Some(Entry { writable: true, target, ..e }));
    let after = h.spec_page_fault(s, inpt, addr).0;
    assert(after.tables == s2.tables);
    assert forall|t: int, k: usize|
        0 <= t < s.tables.len() && !registered_at(s, t as usize, k as int) && !(t == inpt && k
            == slot(addr)) implies {
        &&& (#[trigger] after.tables[t].contains_key(k)) == s.tables[t].contains_key(k)
        &&& s.tables[t].contains_key(k) ==> after.tables[t][k] == s.tables[t][k]
    } by {
        assert(s.alloc_frame().0.tables[t].contains_key(k) == s.tables[t].contains_key(k));
        assert(s1.tables == s.alloc_frame().0.tables);
    }
}

/// A request for a frame neither reads nor changes the count of mappings.
pub proof fn lemma_alloc_ignores_shares(s: State, other: State)
    requires
        other == (State { shares: other.shares, ..s }),
    ensures
        other.alloc_frame().1 == s.alloc_frame().1,
        other.alloc_frame().0 == (State { shares: other.shares, ..s.alloc_frame().0 }),
{
}

} // verus!
