//! Which frames a request for a frame can be given, and which it cannot.

use vstd::prelude::*;
use crate::addr::{PhysAddr, VirtAddr};
use crate::context::State;
use crate::frame::lemma_lowest_free;
use crate::handler::normal::NormalMemoryHandler;
use crate::effects::{fades, lemma_alloc_touches};
use crate::handler::{install, Policy};
use crate::memory_set::{clone_areas, clone_pages, page_addr, pairwise_disjoint, Area};
use crate::paging::{slot, Entry};
use crate::phys::content;

verus! {

/// Whether the state keeps frame `frame` from every request for a frame:
/// the frame is not free, every page that may be evicted belongs to a page
/// table, and none of them that is not swapped out is bound to the frame.
#[verifier::opaque]
pub open spec fn keeps(s: State, frame: PhysAddr) -> bool {
    &&& forall|i: int| 0 <= i < s.frames.len() && s.frames[i] ==> #[trigger] s.frame_addr(i) != frame
    &&& forall|i: int|
        0 <= i < s.queue.len() ==> {
            &&& s.valid_table((#[trigger] s.queue[i]).0)
            &&& s.entry(s.queue[i].0, s.queue[i].1) is Some && !s.entry(
                s.queue[i].0,
                s.queue[i].1,
            ).unwrap().swapped ==> s.entry(s.queue[i].0, s.queue[i].1).unwrap().target != frame
        }
}

/// Whether no page of `table` is registered as one that may be evicted.
pub open spec fn unregistered(s: State, table: usize) -> bool {
    forall|i: int| 0 <= i < s.queue.len() ==> (#[trigger] s.queue[i]).0 != table
}

/// From `s` to `after`, the entries of `table` changed for the pages `lo` up
/// to, not including, `hi` only.
pub open spec fn table_same_outside(s: State, after: State, table: usize, lo: int, hi: int) -> bool {
    forall|k: usize|
        !(lo <= k < hi) ==> {
            &&& (#[trigger] after.tables[table as int].contains_key(k))
                == s.tables[table as int].contains_key(k)
            &&& s.tables[table as int].contains_key(k) ==> after.tables[table as int][k]
                == s.tables[table as int][k]
        }
}

/// From `s` to `after`, no table came or went, and in every table but
/// `table` each page kept its slot and its entry, or was evicted.
#[verifier::opaque]
pub open spec fn others_fade(s: State, after: State, table: usize) -> bool {
    &&& after.tables.len() == s.tables.len()
    &&& forall|t: int, k: usize|
        #![trigger after.tables[t].contains_key(k)]
        0 <= t < s.tables.len() && t != table ==> {
            &&& after.tables[t].contains_key(k) == s.tables[t].contains_key(k)
            &&& s.tables[t].contains_key(k) ==> fades(s.tables[t][k], after.tables[t][k])
        }
}

/// What fades twice has faded.
pub proof fn lemma_others_fade_twice(s: State, mid: State, after: State, table: usize)
    requires
        others_fade(s, mid, table),
        others_fade(mid, after, table),
    ensures
        others_fade(s, after, table),
{
    reveal(others_fade);
    assert forall|t: int, k: usize|
        #![trigger after.tables[t].contains_key(k)]
        0 <= t < s.tables.len() && t != table implies {
        &&& after.tables[t].contains_key(k) == s.tables[t].contains_key(k)
        &&& s.tables[t].contains_key(k) ==> fades(s.tables[t][k], after.tables[t][k])
    } by {
        assert(mid.tables[t].contains_key(k) == s.tables[t].contains_key(k));
        assert(after.tables[t].contains_key(k) == mid.tables[t].contains_key(k));
        if s.tables[t].contains_key(k) {
            assert(fades(s.tables[t][k], mid.tables[t][k]));
            assert(fades(mid.tables[t][k], after.tables[t][k]));
        }
    }
}

/// A request for a frame is never given a frame that the state keeps, and
/// the state keeps that frame afterwards too.
pub proof fn lemma_alloc_keeps(s: State, frame: PhysAddr)
    requires
        keeps(s, frame),
    ensures
        s.alloc_frame().1 != Some(frame),
        keeps(s.alloc_frame().0, frame),
{
    reveal(keeps);
    lemma_lowest_free(s.frames);
    let (after, got) = s.alloc_frame();
    match crate::frame::lowest_free(s.frames) {
        Some(id) => {
            assert(s.frame_addr(id) != frame);
            assert forall|i: int| 0 <= i < after.frames.len() && after.frames[i] implies #[trigger] after.frame_addr(
                i,
            ) != frame by {
                assert(s.frames[i]);
                assert(s.frame_addr(i) != frame);
            }
        },
        None => {
            if s.queue.len() > 0 {
                let key = s.queue[0];
                assert(s.valid_table(key.0));
                assert forall|i: int| 0 <= i < after.queue.len() implies {
                    &&& after.valid_table((#[trigger] after.queue[i]).0)
                    &&& after.entry(after.queue[i].0, after.queue[i].1) is Some && !after.entry(
                        after.queue[i].0,
                        after.queue[i].1,
                    ).unwrap().swapped ==> after.entry(
                        after.queue[i].0,
                        after.queue[i].1,
                    ).unwrap().target != frame
                } by {
                    assert(after.queue[i] == s.queue[i + 1]);
                    assert(s.valid_table(s.queue[i + 1].0));
                }
            }
        },
    }
}

/// A request for a frame leaves alone every table in which no page is
/// registered as one that may be evicted, and registers no page.
pub proof fn lemma_alloc_spares_unregistered(s: State, table: usize)
    requires
        unregistered(s, table),
        s.valid_table(table),
    ensures
        s.alloc_frame().0.tables.len() == s.tables.len(),
        s.alloc_frame().0.tables[table as int] == s.tables[table as int],
        s.alloc_frame().0.active == s.active,
        unregistered(s.alloc_frame().0, table),
{
    let after = s.alloc_frame().0;
    if s.queue.len() > 0 {
        assert(s.queue[0].0 != table);
        assert forall|i: int| 0 <= i < after.queue.len() implies (#[trigger] after.queue[i]).0
            != table by {
            if after.queue.len() == s.queue.len() {
                assert(after.queue[i] == s.queue[i]);
            } else {
                assert(after.queue[i] == s.queue[i + 1]);
            }
        }
    }
}

/// Binding a page to a frame other than `frame` leaves `frame` kept.
pub proof fn lemma_install_keeps(s: State, table: usize, addr: VirtAddr, entry: Entry, frame: PhysAddr)
    requires
        keeps(s, frame),
        s.valid_table(table),
        entry.target != frame,
    ensures
        keeps(install(s, table, addr, entry), frame),
{
    reveal(keeps);
    let after = install(s, table, addr, entry);
    crate::handler::lemma_install(s, table, addr, entry);
    assert forall|i: int| 0 <= i < after.queue.len() implies {
        &&& after.valid_table((#[trigger] after.queue[i]).0)
        &&& after.entry(after.queue[i].0, after.queue[i].1) is Some && !after.entry(
            after.queue[i].0,
            after.queue[i].1,
        ).unwrap().swapped ==> after.entry(after.queue[i].0, after.queue[i].1).unwrap().target
            != frame
    } by {
        assert(after.queue[i] == s.queue[i]);
        assert(s.valid_table(s.queue[i].0));
    }
    assert forall|i: int| 0 <= i < after.frames.len() && after.frames[i] implies #[trigger] after.frame_addr(
        i,
    ) != frame by {
        assert(s.frame_addr(i) != frame);
    }
}

/// Whatever a state keeps, it keeps when its memory alone has changed.
pub proof fn lemma_fill_keeps(s: State, target: PhysAddr, data: Seq<u8>, frame: PhysAddr)
    requires
        keeps(s, frame),
    ensures
        keeps(crate::handler::fill(s, target, data), frame),
{
    reveal(keeps);
    let after = crate::handler::fill(s, target, data);
    assert forall|i: int| 0 <= i < after.queue.len() implies {
        &&& after.valid_table((#[trigger] after.queue[i]).0)
        &&& after.entry(after.queue[i].0, after.queue[i].1) is Some && !after.entry(
            after.queue[i].0,
            after.queue[i].1,
        ).unwrap().swapped ==> after.entry(after.queue[i].0, after.queue[i].1).unwrap().target
            != frame
    } by {
        assert(s.valid_table(s.queue[i].0));
    }
    assert forall|i: int| 0 <= i < after.frames.len() && after.frames[i] implies #[trigger] after.frame_addr(
        i,
    ) != frame by {
        assert(s.frame_addr(i) != frame);
    }
}

/// A request for a frame lets the entries of every table fade at most.
pub proof fn lemma_alloc_others_fade(s: State, table: usize)
    ensures
        others_fade(s, s.alloc_frame().0, table),
{
    reveal(others_fade);
    lemma_alloc_touches(s, table);
}

/// Binding a page in a table, or changing memory alone, leaves every other
/// table as it was.
pub proof fn lemma_install_others_fade(s: State, table: usize, addr: VirtAddr, entry: Entry)
    requires
        s.valid_table(table),
    ensures
        others_fade(s, install(s, table, addr, entry), table),
        others_fade(s, s, table),
        forall|target: PhysAddr, data: Seq<u8>|
            others_fade(s, #[trigger] crate::handler::fill(s, target, data), table),
{
    reveal(others_fade);
}

/// Carrying one page over under the eager policy binds the page, in the new
/// table, to a frame that the state did not keep, changes nothing else in
/// the new table, and leaves kept what was kept.
pub proof fn lemma_eager_clone_page(
    h: NormalMemoryHandler,
    s: State,
    inpt: usize,
    addr: VirtAddr,
    frame: PhysAddr,
)
    requires
        s.valid_table(inpt),
        unregistered(s, inpt),
    ensures
        ({
            let (after, done) = h.spec_map_clone(s, inpt, addr);
            &&& after.tables.len() == s.tables.len()
            &&& after.active == s.active
            &&& unregistered(after, inpt)
            &&& table_same_outside(s, after, inpt, slot(addr) as int, slot(addr) + 1)
            &&& others_fade(s, after, inpt)
            &&& keeps(s, frame) ==> keeps(after, frame)
            &&& done is Ok ==> {
                &&& after.tables[inpt as int].contains_key(slot(addr))
                &&& after.tables[inpt as int][slot(addr)].present
                &&& s.alloc_frame().1 == Some(after.tables[inpt as int][slot(addr)].target)
                &&& keeps(s, frame) ==> after.tables[inpt as int][slot(addr)].target != frame
            }
        }),
{
    let (s1, got) = s.alloc_frame();
    lemma_alloc_spares_unregistered(s, inpt);
    lemma_alloc_others_fade(s, inpt);
    if keeps(s, frame) {
        lemma_alloc_keeps(s, frame);
    }
    match got {
        None => {
            assert(h.spec_map_clone(s, inpt, addr).0 == s1);
            assert(table_same_outside(s, s1, inpt, slot(addr) as int, slot(addr) + 1));
        },
        Some(target) => {
            let entry = h.flags.applied(Entry::mapped(target));
            let s2 = install(s1, inpt, addr, entry);
            crate::handler::lemma_install(s1, inpt, addr, entry);
            lemma_install_others_fade(s1, inpt, addr, entry);
            lemma_others_fade_twice(s, s1, s2, inpt);
            if keeps(s, frame) {
                lemma_install_keeps(s1, inpt, addr, entry, frame);
            }
            assert(s2.queue == s1.queue);
            assert(table_same_outside(s, s2, inpt, slot(addr) as int, slot(addr) + 1));
            assert(unregistered(s2, inpt));
            let (after, done) = h.spec_map_clone(s, inpt, addr);
            match s2.page_content(s2.active, addr) {
                None => {
                    assert(after == s2);
                },
                Some(data) => {
                    assert(after == crate::handler::fill(s2, target, data));
                    lemma_install_others_fade(s2, inpt, addr, entry);
                    lemma_others_fade_twice(s, s2, after, inpt);
                    if keeps(s, frame) {
                        lemma_fill_keeps(s2, target, data, frame);
                    }
                },
            }
        },
    }
}

/// Whether page `page` is bound in `table` to a frame other than `frame`,
/// and present.
pub open spec fn bound_apart(s: State, table: usize, page: int, frame: PhysAddr) -> bool {
    &&& s.tables[table as int].contains_key(page as usize)
    &&& s.tables[table as int][page as usize].present
    &&& s.tables[table as int][page as usize].target != frame
}

/// Whether page `page` is bound in `table` to some frame, and present.
pub open spec fn bound(s: State, table: usize, page: int) -> bool {
    &&& s.tables[table as int].contains_key(page as usize)
    &&& s.tables[table as int][page as usize].present
}

/// Carrying the pages `page` up to `end` over under the eager policy binds
/// each of them, in the new table, to a frame that the state did not keep.
pub proof fn lemma_eager_clone_pages(
    h: NormalMemoryHandler,
    s: State,
    inpt: usize,
    page: int,
    end: int,
    frame: PhysAddr,
)
    requires
        s.valid_table(inpt),
        unregistered(s, inpt),
        0 <= page,
        (end - 1) * 4096 <= usize::MAX,
    ensures
        clone_pages(Policy::Eager(h), s, inpt, page, end).1 == Policy::Eager(h),
        clone_pages(Policy::Eager(h), s, inpt, page, end).0.tables.len() == s.tables.len(),
        clone_pages(Policy::Eager(h), s, inpt, page, end).0.active == s.active,
        unregistered(clone_pages(Policy::Eager(h), s, inpt, page, end).0, inpt),
        table_same_outside(s, clone_pages(Policy::Eager(h), s, inpt, page, end).0, inpt, page, end),
        others_fade(s, clone_pages(Policy::Eager(h), s, inpt, page, end).0, inpt),
        keeps(s, frame) ==> keeps(clone_pages(Policy::Eager(h), s, inpt, page, end).0, frame),
        clone_pages(Policy::Eager(h), s, inpt, page, end).2 is Ok ==> forall|q: int|
            page <= q < end ==> #[trigger] bound(
                clone_pages(Policy::Eager(h), s, inpt, page, end).0,
                inpt,
                q,
            ),
        clone_pages(Policy::Eager(h), s, inpt, page, end).2 is Ok && keeps(s, frame) ==> forall|
            q: int,
        |
            page <= q < end ==> #[trigger] bound_apart(
                clone_pages(Policy::Eager(h), s, inpt, page, end).0,
                inpt,
                q,
                frame,
            ),
    decreases end - page,
{
    let whole = clone_pages(Policy::Eager(h), s, inpt, page, end);
    if page < end {
        let addr = page_addr(page);
        assert(slot(addr) == page);
        let (s1, done1) = h.spec_map_clone(s, inpt, addr);
        lemma_eager_clone_page(h, s, inpt, addr, frame);
        if done1 is Ok {
            lemma_eager_clone_pages(h, s1, inpt, page + 1, end, frame);
            let tail = clone_pages(Policy::Eager(h), s1, inpt, page + 1, end);
            assert(whole == tail);
            let after = tail.0;
            lemma_others_fade_twice(s, s1, after, inpt);
            assert forall|k: usize| !(page <= k < end) implies {
                &&& (#[trigger] after.tables[inpt as int].contains_key(k))
                    == s.tables[inpt as int].contains_key(k)
                &&& s.tables[inpt as int].contains_key(k) ==> after.tables[inpt as int][k]
                    == s.tables[inpt as int][k]
            } by {
                assert(s1.tables[inpt as int].contains_key(k) == s.tables[inpt as int].contains_key(k));
            }
            assert(after.tables[inpt as int].contains_key(page as usize)
                == s1.tables[inpt as int].contains_key(page as usize));
            if tail.2 is Ok {
                assert forall|q: int| page <= q < end implies #[trigger] bound(after, inpt, q) by {
                    if q != page {
                        assert(bound(tail.0, inpt, q));
                    }
                }
                if keeps(s, frame) {
                    assert forall|q: int| page <= q < end implies #[trigger] bound_apart(
                        after,
                        inpt,
                        q,
                        frame,
                    ) by {
                        if q != page {
                            assert(bound_apart(tail.0, inpt, q, frame));
                        }
                    }
                }
            }
        } else {
            assert(whole == (s1, Policy::Eager(h), done1));
            assert(table_same_outside(s, s1, inpt, page, end));
        }
    } else {
        assert(whole == (s, Policy::Eager(h), Ok::<(), crate::context::MemoryError>(())));
        lemma_install_others_fade(s, inpt, 0, Entry::mapped(0));
    }
}

/// Whether page `page` belongs to one of `areas` from index `i` on.
pub open spec fn in_areas_from(areas: Seq<Area>, i: int, page: int) -> bool {
    exists|j: int| i <= j < areas.len() && (#[trigger] areas[j]).has_page(page)
}

/// From `s` to `after`, the entries of `table` changed only for pages of
/// `areas` from index `i` on.
pub open spec fn table_same_outside_areas(
    s: State,
    after: State,
    table: usize,
    areas: Seq<Area>,
    i: int,
) -> bool {
    forall|k: usize|
        !in_areas_from(areas, i, k as int) ==> {
            &&& (#[trigger] after.tables[table as int].contains_key(k))
                == s.tables[table as int].contains_key(k)
            &&& s.tables[table as int].contains_key(k) ==> after.tables[table as int][k]
                == s.tables[table as int][k]
        }
}

/// A page of one area is a page of no later one.
pub proof fn lemma_page_of_one_area(areas: Seq<Area>, i: int, q: int)
    requires
        pairwise_disjoint(areas),
        0 <= i < areas.len(),
        areas[i].has_page(q),
    ensures
        !in_areas_from(areas, i + 1, q),
{
    if in_areas_from(areas, i + 1, q) {
        let j = choose|j: int| i + 1 <= j < areas.len() && (#[trigger] areas[j]).has_page(q);
        assert(!areas[i].overlaps(areas[j]));
    }
}

/// Carrying the areas from index `i` on over, all of them under the eager
/// policy, binds each of their pages, in the new table, to a frame that the
/// state did not keep.
pub proof fn lemma_eager_clone_areas(areas: Seq<Area>, s: State, inpt: usize, i: int, frame: PhysAddr)
    requires
        s.valid_table(inpt),
        unregistered(s, inpt),
        0 <= i <= areas.len(),
        pairwise_disjoint(areas),
        forall|j: int| 0 <= j < areas.len() ==> (#[trigger] areas[j]).policy is Eager,
    ensures
        clone_areas(areas, s, inpt, i).1 == areas,
        clone_areas(areas, s, inpt, i).0.tables.len() == s.tables.len(),
        clone_areas(areas, s, inpt, i).0.active == s.active,
        unregistered(clone_areas(areas, s, inpt, i).0, inpt),
        others_fade(s, clone_areas(areas, s, inpt, i).0, inpt),
        keeps(s, frame) ==> keeps(clone_areas(areas, s, inpt, i).0, frame),
        table_same_outside_areas(s, clone_areas(areas, s, inpt, i).0, inpt, areas, i),
        clone_areas(areas, s, inpt, i).2 is Ok ==> forall|j: int, q: int|
            i <= j < areas.len() && (#[trigger] areas[j]).has_page(q) ==> #[trigger] bound(
                clone_areas(areas, s, inpt, i).0,
                inpt,
                q,
            ),
        clone_areas(areas, s, inpt, i).2 is Ok && keeps(s, frame) ==> forall|j: int, q: int|
            i <= j < areas.len() && (#[trigger] areas[j]).has_page(q) ==> #[trigger] bound_apart(
                clone_areas(areas, s, inpt, i).0,
                inpt,
                q,
                frame,
            ),
    decreases areas.len() - i,
{
    let whole = clone_areas(areas, s, inpt, i);
    if i < areas.len() {
        let area = areas[i];
        match area.policy {
            Policy::Eager(h) => {
                let (s1, p, done1) = area.map_clone(s, inpt);
                lemma_eager_clone_pages(h, s, inpt, area.first_page(), area.end_page(), frame);
                let carried = areas.update(i, Area { policy: p, ..area });
                assert(carried =~= areas);
                if done1 is Ok {
                    lemma_eager_clone_areas(areas, s1, inpt, i + 1, frame);
                    let tail = clone_areas(areas, s1, inpt, i + 1);
                    assert(whole == tail);
                    let after = tail.0;
                    lemma_others_fade_twice(s, s1, after, inpt);
                    assert forall|k: usize| !in_areas_from(areas, i, k as int) implies {
                        &&& (#[trigger] after.tables[inpt as int].contains_key(k))
                            == s.tables[inpt as int].contains_key(k)
                        &&& s.tables[inpt as int].contains_key(k) ==> after.tables[inpt as int][k]
                            == s.tables[inpt as int][k]
                    } by {
                        if area.has_page(k as int) {
                            assert(areas[i].has_page(k as int));
                            assert(in_areas_from(areas, i, k as int));
                        }
                        assert(!(area.first_page() <= k < area.end_page()));
                        if in_areas_from(areas, i + 1, k as int) {
                            let j = choose|j: int|
                                i + 1 <= j < areas.len() && (#[trigger] areas[j]).has_page(k as int);
                            assert(areas[j].has_page(k as int));
                            assert(in_areas_from(areas, i, k as int));
                        }
                        assert(!in_areas_from(areas, i + 1, k as int));
                        assert(s1.tables[inpt as int].contains_key(k) == s.tables[inpt as int].contains_key(
                            k,
                        ));
                        assert(after.tables[inpt as int].contains_key(k) == s1.tables[inpt as int].contains_key(
                            k,
                        ));
                    }
                    if tail.2 is Ok {
                        assert forall|j: int, q: int|
                            i <= j < areas.len() && (#[trigger] areas[j]).has_page(
                                q,
                            ) implies #[trigger] bound(after, inpt, q) by {
                            if j == i {
                                assert(bound(s1, inpt, q));
                                lemma_page_of_one_area(areas, i, q);
                                assert(after.tables[inpt as int].contains_key(q as usize)
                                    == s1.tables[inpt as int].contains_key(q as usize));
                            } else {
                                assert(bound(tail.0, inpt, q));
                            }
                        }
                        if keeps(s, frame) {
                            assert forall|j: int, q: int|
                                i <= j < areas.len() && (#[trigger] areas[j]).has_page(
                                    q,
                                ) implies #[trigger] bound_apart(after, inpt, q, frame) by {
                                if j == i {
                                    assert(bound_apart(s1, inpt, q, frame));
                                    lemma_page_of_one_area(areas, i, q);
                                    assert(after.tables[inpt as int].contains_key(q as usize)
                                        == s1.tables[inpt as int].contains_key(q as usize));
                                } else {
                                    assert(bound_apart(tail.0, inpt, q, frame));
                                }
                            }
                        }
                    }
                } else {
                    assert(whole == (s1, carried, done1));
                    assert forall|k: usize| !in_areas_from(areas, i, k as int) implies {
                        &&& (#[trigger] s1.tables[inpt as int].contains_key(k))
                            == s.tables[inpt as int].contains_key(k)
                        &&& s.tables[inpt as int].contains_key(k) ==> s1.tables[inpt as int][k]
                            == s.tables[inpt as int][k]
                    } by {
                        if area.has_page(k as int) {
                            assert(areas[i].has_page(k as int));
                            assert(in_areas_from(areas, i, k as int));
                        }
                        assert(!(area.first_page() <= k < area.end_page()));
                    }
                }
            },
            _ => {},
        }
    } else {
        assert(whole == (s, areas, Ok::<(), crate::context::MemoryError>(())));
        lemma_install_others_fade(s, inpt, 0, Entry::mapped(0));
    }
}

/// While the state keeps a frame, carrying a page over under the eager
/// policy leaves the entry and the bytes of a present page bound to that
/// frame as they were, and gives the new page a copy of the bytes that the
/// live table has at the address.
pub proof fn lemma_eager_clone_copies(h: NormalMemoryHandler, s: State, inpt: usize, addr: VirtAddr)
    requires
        s.valid_table(inpt),
        s.valid_table(s.active),
        inpt != s.active,
        s.entry(s.active, addr) is Some,
        s.entry(s.active, addr).unwrap().present,
        !s.entry(s.active, addr).unwrap().swapped,
        keeps(s, s.entry(s.active, addr).unwrap().target),
        h.spec_map_clone(s, inpt, addr).1 is Ok,
    ensures
        ({
            let (after, _) = h.spec_map_clone(s, inpt, addr);
            let source = s.entry(s.active, addr).unwrap();
            let copy = after.entry(inpt, addr).unwrap();
            &&& after.entry(s.active, addr) == Some(source)
            &&& after.entry(inpt, addr) == Some(
                h.flags.applied(Entry::mapped(s.alloc_frame().1.unwrap())),
            )
            &&& s.alloc_frame().1 is Some
            &&& after.frames == s.alloc_frame().0.frames
            &&& after.queue == s.alloc_frame().0.queue
            &&& after.shares == s.shares
            &&& copy.target != source.target
            &&& content(after.memory, copy.target) == content(s.memory, source.target)
            &&& content(after.memory, source.target) == content(s.memory, source.target)
        }),
{
    reveal(keeps);
    let source = s.entry(s.active, addr).unwrap();
    lemma_alloc_keeps(s, source.target);
    lemma_lowest_free(s.frames);
    let (s1, got) = s.alloc_frame();
    assert(s1.memory == s.memory);
    assert(s1.entry(s.active, addr) == Some(source)) by {
        if crate::frame::lowest_free(s.frames) is None && s.queue.len() > 0 {
            let key = s.queue[0];
            assert(s.valid_table(key.0));
        }
    }
    let entry = h.flags.applied(Entry::mapped(got.unwrap()));
    crate::handler::lemma_install(s1, inpt, addr, entry);
}

/// Putting bytes into one frame changes the bytes of no other.
pub proof fn lemma_fill_is_local(s: State, frame: PhysAddr, data: Seq<u8>, other: PhysAddr)
    requires
        other != frame,
    ensures
        content(crate::handler::fill(s, frame, data).memory, other) == content(s.memory, other),
        content(crate::handler::fill(s, frame, data).memory, frame) == data,
{
}

} // verus!
