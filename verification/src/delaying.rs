//! What the fork of swappable pages that were never touched does.

use vstd::prelude::*;
use crate::addr::VirtAddr;
use crate::context::{MemoryError, State};
use crate::effects::delays;
use crate::handler::swap::{delayed, unbacked, SwapMemoryHandler};
use crate::handler::{lemma_install, Policy};
use crate::memory_set::{
    clone_areas, clone_pages, page_addr, pairwise_disjoint, Area, MemoryAttr,
};
use crate::ownership::{in_areas_from, table_same_outside, table_same_outside_areas};
use crate::paging::slot;

verus! {

/// Whether the live table has an entry for page `page` with nothing behind
/// it: the page is neither present nor swapped out.
pub open spec fn untouched(s: State, page: int) -> bool {
    let live = s.tables[s.active as int];
    &&& live.contains_key(page as usize)
    &&& !live[page as usize].present
    &&& !live[page as usize].swapped
}

/// From `s` to `after`, nothing changed but the entries of `table`.
pub open spec fn only_table_changed(s: State, after: State, table: usize) -> bool {
    &&& after == (State { tables: after.tables, ..s })
    &&& after.tables.len() == s.tables.len()
    &&& forall|t: int| 0 <= t < s.tables.len() && t != table ==> #[trigger] after.tables[t] == s.tables[t]
}

/// Whether page `page` has, in `table`, an entry with the attributes `flags`
/// and nothing behind it.
pub open spec fn unbacked_at(s: State, table: usize, page: int, flags: MemoryAttr) -> bool {
    s.tables[table as int].contains_key(page as usize) && s.tables[table as int][page as usize]
        == unbacked(flags)
}

/// A page that is delayed stays delayed when another page joins.
pub proof fn lemma_delayed_push(delay: Seq<VirtAddr>, addr: VirtAddr, other: VirtAddr)
    ensures
        delayed(delay.push(addr), addr),
        delayed(delay, other) ==> delayed(delay.push(addr), other),
{
    let d = delay.push(addr);
    assert(slot(d[delay.len() as int]) == slot(addr));
    if delayed(delay, other) {
        let i = choose|i: int| 0 <= i < delay.len() && slot(#[trigger] delay[i]) == slot(other);
        assert(slot(d[i]) == slot(other));
    }
}

/// Carrying over swappable pages that the live table has nothing behind
/// succeeds, allocates no frame and copies no bytes: each page gets, in the
/// new table, an entry with nothing behind it and is delayed from then on.
pub proof fn lemma_untouched_pages_are_delayed(
    flags: MemoryAttr,
    delay: Seq<VirtAddr>,
    s: State,
    inpt: usize,
    page: int,
    end: int,
)
    requires
        s.valid_table(inpt),
        s.valid_table(s.active),
        inpt != s.active,
        0 <= page,
        (end - 1) * 4096 <= usize::MAX,
        forall|q: int| page <= q < end ==> #[trigger] untouched(s, q),
    ensures
        clone_pages(Policy::Swappable { flags, delay }, s, inpt, page, end).2 is Ok,
        clone_pages(Policy::Swappable { flags, delay }, s, inpt, page, end).1 is Swappable,
        clone_pages(Policy::Swappable { flags, delay }, s, inpt, page, end).1.flags() == flags,
        only_table_changed(
            s,
            clone_pages(Policy::Swappable { flags, delay }, s, inpt, page, end).0,
            inpt,
        ),
        table_same_outside(
            s,
            clone_pages(Policy::Swappable { flags, delay }, s, inpt, page, end).0,
            inpt,
            page,
            end,
        ),
        forall|x: VirtAddr|
            delayed(delay, x) ==> #[trigger] delays(
                clone_pages(Policy::Swappable { flags, delay }, s, inpt, page, end).1,
                x,
            ),
        forall|q: int|
            page <= q < end ==> delays(
                clone_pages(Policy::Swappable { flags, delay }, s, inpt, page, end).1,
                #[trigger] page_addr(q),
            ),
        forall|q: int|
            page <= q < end ==> #[trigger] unbacked_at(
                clone_pages(Policy::Swappable { flags, delay }, s, inpt, page, end).0,
                inpt,
                q,
                flags,
            ),
    decreases end - page,
{
    let policy = Policy::Swappable { flags, delay };
    let whole = clone_pages(policy, s, inpt, page, end);
    if page < end {
        let addr = page_addr(page);
        assert(slot(addr) == page);
        assert(untouched(s, page));
        let (s1, d1, done1) = SwapMemoryHandler::spec_map_clone(flags, delay, s, inpt, addr);
        lemma_install(s, inpt, addr, unbacked(flags));
        assert(done1 is Ok);
        assert(d1 == delay.push(addr));
        assert(s1 == s.with_entries(inpt, s.tables[inpt as int].insert(slot(addr), unbacked(flags))));
        assert forall|q: int| page + 1 <= q < end implies #[trigger] untouched(s1, q) by {
            assert(untouched(s, q));
        }
        lemma_untouched_pages_are_delayed(flags, d1, s1, inpt, page + 1, end);
        let tail = clone_pages(Policy::Swappable { flags, delay: d1 }, s1, inpt, page + 1, end);
        assert(whole == tail);
        let after = tail.0;
        assert(only_table_changed(s, after, inpt)) by {
            assert forall|t: int| 0 <= t < s.tables.len() && t != inpt implies #[trigger] after.tables[t]
                == s.tables[t] by {
                assert(after.tables[t] == s1.tables[t]);
            }
        }
        assert forall|k: usize| !(page <= k < end) implies {
            &&& (#[trigger] after.tables[inpt as int].contains_key(k))
                == s.tables[inpt as int].contains_key(k)
            &&& s.tables[inpt as int].contains_key(k) ==> after.tables[inpt as int][k]
                == s.tables[inpt as int][k]
        } by {
            assert(s1.tables[inpt as int].contains_key(k) == s.tables[inpt as int].contains_key(k));
        }
        assert forall|x: VirtAddr| delayed(delay, x) implies #[trigger] delays(tail.1, x) by {
            lemma_delayed_push(delay, addr, x);
            assert(delays(tail.1, x));
        }
        assert forall|q: int| page <= q < end implies delays(tail.1, #[trigger] page_addr(q)) by {
            if q == page {
                lemma_delayed_push(delay, addr, addr);
                assert(delays(tail.1, addr));
            }
        }
        assert forall|q: int| page <= q < end implies #[trigger] unbacked_at(
            after,
            inpt,
            q,
            flags,
        ) by {
            if q == page {
                assert(after.tables[inpt as int].contains_key(page as usize)
                    == s1.tables[inpt as int].contains_key(page as usize));
            } else {
                assert(unbacked_at(tail.0, inpt, q, flags));
            }
        }
    } else {
        assert(whole == (s, policy, Ok::<(), MemoryError>(())));
    }
}

/// Carrying over swappable areas none of whose pages the live table has
/// anything behind succeeds, allocates no frame and copies no bytes: nothing
/// changes but the new table, in which each page of each area gets an entry
/// with nothing behind it, and each area delays all its pages from then on.
pub proof fn lemma_untouched_areas_are_delayed(areas: Seq<Area>, s: State, inpt: usize, i: int)
    requires
        s.valid_table(inpt),
        s.valid_table(s.active),
        inpt != s.active,
        0 <= i <= areas.len(),
        pairwise_disjoint(areas),
        forall|j: int| i <= j < areas.len() ==> (#[trigger] areas[j]).policy is Swappable,
        forall|j: int, q: int|
            i <= j < areas.len() && (#[trigger] areas[j]).has_page(q) ==> #[trigger] untouched(s, q),
    ensures
        clone_areas(areas, s, inpt, i).2 is Ok,
        clone_areas(areas, s, inpt, i).1.len() == areas.len(),
        only_table_changed(s, clone_areas(areas, s, inpt, i).0, inpt),
        table_same_outside_areas(s, clone_areas(areas, s, inpt, i).0, inpt, areas, i),
        forall|j: int|
            0 <= j < areas.len() ==> {
                &&& (#[trigger] clone_areas(areas, s, inpt, i).1[j]).start == areas[j].start
                &&& clone_areas(areas, s, inpt, i).1[j].end == areas[j].end
                &&& clone_areas(areas, s, inpt, i).1[j].name == areas[j].name
                &&& clone_areas(areas, s, inpt, i).1[j].policy.flags() == areas[j].policy.flags()
                &&& j < i ==> clone_areas(areas, s, inpt, i).1[j] == areas[j]
            },
        forall|j: int, q: int|
            i <= j < areas.len() && (#[trigger] areas[j]).has_page(q) ==> #[trigger] unbacked_at(
                clone_areas(areas, s, inpt, i).0,
                inpt,
                q,
                areas[j].policy.flags(),
            ),
        forall|j: int, q: int|
            i <= j < areas.len() && (#[trigger] areas[j]).has_page(q) ==> delays(
                clone_areas(areas, s, inpt, i).1[j].policy,
                #[trigger] page_addr(q),
            ),
    decreases areas.len() - i,
{
    let whole = clone_areas(areas, s, inpt, i);
    if i < areas.len() {
        let area = areas[i];
        match area.policy {
            Policy::Swappable { flags, delay } => {
                assert forall|q: int| area.first_page() <= q < area.end_page() implies #[trigger] untouched(
                    s,
                    q,
                ) by {
                    assert(areas[i].has_page(q));
                }
                lemma_untouched_pages_are_delayed(
                    flags,
                    delay,
                    s,
                    inpt,
                    area.first_page(),
                    area.end_page(),
                );
                let (s1, p, done1) = area.map_clone(s, inpt);
                let carried = areas.update(i, Area { policy: p, ..area });
                assert(pairwise_disjoint(carried)) by {
                    assert forall|a: int, b: int|
                        0 <= a < carried.len() && 0 <= b < carried.len() && a != b implies !(
                        #[trigger] carried[a]).overlaps(#[trigger] carried[b]) by {
                        assert(!areas[a].overlaps(areas[b]));
                    }
                }
                assert forall|j: int, q: int|
                    i + 1 <= j < carried.len() && (#[trigger] carried[j]).has_page(
                        q,
                    ) implies #[trigger] untouched(s1, q) by {
                    assert(areas[j].has_page(q));
                    assert(untouched(s, q));
                    assert(s1.tables[s.active as int] == s.tables[s.active as int]);
                }
                assert forall|j: int| i + 1 <= j < carried.len() implies (#[trigger] carried[j]).policy is Swappable by {
                    assert(areas[j].policy is Swappable);
                }
                lemma_untouched_areas_are_delayed(carried, s1, inpt, i + 1);
                let tail = clone_areas(carried, s1, inpt, i + 1);
                assert(whole == tail);
                let after = tail.0;
                let out = tail.1;
                assert(only_table_changed(s, after, inpt)) by {
                    assert forall|t: int|
                        0 <= t < s.tables.len() && t != inpt implies #[trigger] after.tables[t]
                        == s.tables[t] by {
                        assert(after.tables[t] == s1.tables[t]);
                    }
                }
                assert forall|k: usize| !in_areas_from(areas, i, k as int) implies {
                    &&& (#[trigger] after.tables[inpt as int].contains_key(k))
                        == s.tables[inpt as int].contains_key(k)
                    &&& s.tables[inpt as int].contains_key(k) ==> after.tables[inpt as int][k]
                        == s.tables[inpt as int][k]
                } by {
                    if area.has_page(k as int) {
                        assert(areas[i].has_page(k as int));
                        assert(in_areas_from(areas, i, k as int));
                    }
                    assert(!(area.first_page() <= k < area.end_page()));
                    if in_areas_from(carried, i + 1, k as int) {
                        let j = choose|j: int|
                            i + 1 <= j < carried.len() && (#[trigger] carried[j]).has_page(k as int);
                        assert(areas[j].has_page(k as int));
                        assert(in_areas_from(areas, i, k as int));
                    }
                    assert(s1.tables[inpt as int].contains_key(k) == s.tables[inpt as int].contains_key(k));
                    assert(after.tables[inpt as int].contains_key(k) == s1.tables[inpt as int].contains_key(
                        k,
                    ));
                }
                assert forall|j: int| 0 <= j < areas.len() implies {
                    &&& (#[trigger] out[j]).start == areas[j].start
                    &&& out[j].end == areas[j].end
                    &&& out[j].name == areas[j].name
                    &&& out[j].policy.flags() == areas[j].policy.flags()
                    &&& j < i ==> out[j] == areas[j]
                } by {
                    assert(out[j].start == carried[j].start);
                }
                assert forall|j: int, q: int|
                    i <= j < areas.len() && (#[trigger] areas[j]).has_page(
                        q,
                    ) implies #[trigger] unbacked_at(after, inpt, q, areas[j].policy.flags()) by {
                    if j == i {
                        assert(unbacked_at(s1, inpt, q, flags));
                        if in_areas_from(carried, i + 1, q) {
                            let j2 = choose|j2: int|
                                i + 1 <= j2 < carried.len() && (#[trigger] carried[j2]).has_page(q);
                            assert(!areas[i].overlaps(areas[j2]));
                        }
                        assert(after.tables[inpt as int].contains_key(q as usize)
                            == s1.tables[inpt as int].contains_key(q as usize));
                    } else {
                        assert(carried[j].has_page(q));
                        assert(unbacked_at(tail.0, inpt, q, carried[j].policy.flags()));
                    }
                }
                assert forall|j: int, q: int|
                    i <= j < areas.len() && (#[trigger] areas[j]).has_page(q) implies delays(
                    out[j].policy,
                    #[trigger] page_addr(q),
                ) by {
                    if j == i {
                        assert(out[i] == carried[i]);
                        assert(delays(p, page_addr(q)));
                    } else {
                        assert(carried[j].has_page(q));
                    }
                }
            },
            _ => {},
        }
    } else {
        assert(whole == (s, areas, Ok::<(), MemoryError>(())));
    }
}

} // verus!
