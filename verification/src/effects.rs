//! Which page-table entries a step can change, and how.

use vstd::prelude::*;
use crate::addr::VirtAddr;
use crate::context::State;
use crate::handler::swap::{delayed, listed, SwapMemoryHandler};
use crate::handler::Policy;
use crate::memory_set::{map_pages, page_addr, unmap_pages};
use crate::paging::{slot, Entry};

verus! {

/// What can become of an entry that a step does not address: it stays as it
/// is, or its page is evicted.
pub open spec fn fades(before: Entry, after: Entry) -> bool {
    after == before || (after.swapped && !after.present)
}

/// Whether page `page` is present in `table`.
pub open spec fn present_at(s: State, table: usize, page: int) -> bool {
    s.tables[table as int].contains_key(page as usize) && s.tables[table as int][page as usize].present
}

/// From `s` to `after`, only the entries of the pages `lo` up to, not
/// including, `hi` of `table` were changed at will. No table came or went,
/// no other page got or lost its slot, and every other entry stayed as it
/// was or had its page evicted.
pub open spec fn touches_only(s: State, after: State, table: usize, lo: int, hi: int) -> bool {
    &&& after.tables.len() == s.tables.len()
    &&& forall|t: int, k: usize|
        #![trigger after.tables[t].contains_key(k)]
        0 <= t < s.tables.len() && !(t == table && lo <= k < hi) ==> {
            &&& after.tables[t].contains_key(k) == s.tables[t].contains_key(k)
            &&& s.tables[t].contains_key(k) ==> fades(s.tables[t][k], after.tables[t][k])
        }
}

/// Whether mapping at `addr` under the policy gives an entry with nothing
/// behind it: the policy is swappable and `addr` is on its list.
pub open spec fn lists(policy: Policy, addr: VirtAddr) -> bool {
    match policy {
        Policy::Swappable { flags, delay } => listed(delay, addr),
        _ => false,
    }
}

/// Whether the policy treats a fault at `addr` as the first touch of a
/// delayed page: the policy is swappable and the page of `addr` is the page
/// of an address on its list.
pub open spec fn delays(policy: Policy, addr: VirtAddr) -> bool {
    match policy {
        Policy::Swappable { flags, delay } => delayed(delay, addr),
        _ => false,
    }
}

/// Two steps in a row touch what either of them touches.
pub proof fn lemma_touches_compose(
    s: State,
    mid: State,
    after: State,
    table: usize,
    lo1: int,
    hi1: int,
    lo2: int,
    hi2: int,
    lo: int,
    hi: int,
)
    requires
        touches_only(s, mid, table, lo1, hi1),
        touches_only(mid, after, table, lo2, hi2),
        lo1 >= hi1 || (lo <= lo1 && hi1 <= hi),
        lo2 >= hi2 || (lo <= lo2 && hi2 <= hi),
    ensures
        touches_only(s, after, table, lo, hi),
{
    assert forall|t: int, k: usize|
        #![trigger after.tables[t].contains_key(k)]
        0 <= t < s.tables.len() && !(t == table && lo <= k < hi) implies {
        &&& after.tables[t].contains_key(k) == s.tables[t].contains_key(k)
        &&& s.tables[t].contains_key(k) ==> fades(s.tables[t][k], after.tables[t][k])
    } by {
        assert(!(t == table && lo1 <= k < hi1));
        assert(!(t == table && lo2 <= k < hi2));
        assert(mid.tables[t].contains_key(k) == s.tables[t].contains_key(k));
        assert(after.tables[t].contains_key(k) == mid.tables[t].contains_key(k));
        if s.tables[t].contains_key(k) {
            assert(fades(s.tables[t][k], mid.tables[t][k]));
            assert(fades(mid.tables[t][k], after.tables[t][k]));
        }
    }
}

/// A request for a frame changes no entry at will.
pub proof fn lemma_alloc_touches(s: State, table: usize)
    ensures
        touches_only(s, s.alloc_frame().0, table, 0, 0),
{
}

/// Taking a page out of the pages that may be evicted changes at will the
/// entry of that page only.
pub proof fn lemma_remove_touches(s: State, table: usize, addr: VirtAddr)
    requires
        s.valid_table(table),
    ensures
        touches_only(
            s,
            s.remove_from_swappable(table, addr).0,
            table,
            slot(addr) as int,
            slot(addr) + 1,
        ),
{
    lemma_alloc_touches(s, table);
}

/// Mapping a page changes at will the entry of that page only.
pub proof fn lemma_map_touches(policy: Policy, s: State, table: usize, addr: VirtAddr)
    requires
        s.valid_table(table),
    ensures
        touches_only(s, policy.map(s, table, addr).0, table, slot(addr) as int, slot(addr) + 1),
{
    lemma_alloc_touches(s, table);
}

/// Emptying, or writing, the entry of a page changes the entry of that page only.
pub proof fn lemma_table_step_touches(s: State, table: usize, addr: VirtAddr, entry: Entry)
    requires
        s.valid_table(table),
    ensures
        touches_only(s, s.unmap(table, addr), table, slot(addr) as int, slot(addr) + 1),
        touches_only(s, s.update(table, addr, entry), table, slot(addr) as int, slot(addr) + 1),
        touches_only(s, s.map(table, addr, entry.target), table, slot(addr) as int, slot(addr) + 1),
        touches_only(s, s.dealloc_frame(entry.target), table, slot(addr) as int, slot(addr) + 1),
{
}

/// Unmapping a swappable page changes at will the entry of that page only.
/// Afterwards the page is not present.
pub proof fn lemma_swap_unmap_touches(s: State, table: usize, addr: VirtAddr)
    requires
        s.valid_table(table),
    ensures
        touches_only(
            s,
            SwapMemoryHandler::spec_unmap(s, table, addr).0,
            table,
            slot(addr) as int,
            slot(addr) + 1,
        ),
        SwapMemoryHandler::spec_unmap(s, table, addr).1 is Ok ==> !present_at(
            SwapMemoryHandler::spec_unmap(s, table, addr).0,
            table,
            slot(addr) as int,
        ),
{
    let k = slot(addr) as int;
    let (s1, r) = s.remove_from_swappable(table, addr);
    lemma_remove_touches(s, table, addr);
    if r is Ok {
        match s1.entry(table, addr) {
            None => {},
            Some(e) => {
                let s2 = s1.dealloc_frame(e.target);
                lemma_table_step_touches(s1, table, addr, e);
                lemma_table_step_touches(s2, table, addr, e);
                let after = SwapMemoryHandler::spec_unmap(s, table, addr).0;
                if e.present {
                    lemma_touches_compose(s1, s2, after, table, k, k + 1, k, k + 1, k, k + 1);
                }
                lemma_touches_compose(s, s1, after, table, k, k + 1, k, k + 1, k, k + 1);
            },
        }
    }
}

/// Unmapping a page changes at will the entry of that page only. Afterwards
/// the page is not present.
pub proof fn lemma_unmap_touches(policy: Policy, s: State, table: usize, addr: VirtAddr)
    requires
        s.valid_table(table),
    ensures
        touches_only(s, policy.unmap(s, table, addr).0, table, slot(addr) as int, slot(addr) + 1),
        policy.unmap(s, table, addr).1 is Ok ==> !present_at(
            policy.unmap(s, table, addr).0,
            table,
            slot(addr) as int,
        ),
{
    match policy {
        Policy::Swappable { flags, delay } => {
            lemma_swap_unmap_touches(s, table, addr);
        },
        Policy::Direct(h) => {},
        Policy::Eager(h) => {},
        Policy::CopyOnWrite(h) => {},
    }
}

/// Mapping the pages `page` up to `end` changes at will the entries of those
/// pages only.
pub proof fn lemma_map_pages_touches(policy: Policy, s: State, table: usize, page: int, end: int)
    requires
        s.valid_table(table),
        0 <= page,
        (end - 1) * 4096 <= usize::MAX,
    ensures
        touches_only(s, map_pages(policy, s, table, page, end).0, table, page, end),
    decreases end - page,
{
    if page < end {
        let (s1, r) = policy.map(s, table, page_addr(page));
        lemma_map_touches(policy, s, table, page_addr(page));
        assert(slot(page_addr(page)) == page);
        if r is Ok {
            lemma_map_pages_touches(policy, s1, table, page + 1, end);
            let after = map_pages(policy, s1, table, page + 1, end).0;
            lemma_touches_compose(s, s1, after, table, page, page + 1, page + 1, end, page, end);
        } else {
            lemma_touches_compose(s, s, s1, table, 0, 0, page, page + 1, page, end);
        }
    }
}

/// Unmapping the pages `page` up to `end` changes at will the entries of
/// those pages only. If it succeeds, none of them is present afterwards.
pub proof fn lemma_unmap_pages_touches(policy: Policy, s: State, table: usize, page: int, end: int)
    requires
        s.valid_table(table),
        0 <= page,
        (end - 1) * 4096 <= usize::MAX,
    ensures
        touches_only(s, unmap_pages(policy, s, table, page, end).0, table, page, end),
        unmap_pages(policy, s, table, page, end).1 is Ok ==> forall|q: int|
            page <= q < end ==> !#[trigger] present_at(
                unmap_pages(policy, s, table, page, end).0,
                table,
                q,
            ),
    decreases end - page,
{
    if page < end {
        let (s1, r) = policy.unmap(s, table, page_addr(page));
        lemma_unmap_touches(policy, s, table, page_addr(page));
        assert(slot(page_addr(page)) == page);
        if r is Ok {
            lemma_unmap_pages_touches(policy, s1, table, page + 1, end);
            let after = unmap_pages(policy, s1, table, page + 1, end).0;
            lemma_touches_compose(s, s1, after, table, page, page + 1, page + 1, end, page, end);
            if unmap_pages(policy, s, table, page, end).1 is Ok {
                assert forall|q: int| page <= q < end implies !#[trigger] present_at(
                    after,
                    table,
                    q,
                ) by {
                    if q == page {
                        assert(!present_at(s1, table, page));
                        assert(after.tables[table as int].contains_key(page as usize)
                            == s1.tables[table as int].contains_key(page as usize));
                    }
                }
            }
        } else {
            lemma_touches_compose(s, s, s1, table, 0, 0, page, page + 1, page, end);
        }
    }
}

} // verus!
