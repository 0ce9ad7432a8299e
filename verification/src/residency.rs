//! The pages that may be evicted are resident: what keeps this true.

use vstd::prelude::*;
use crate::addr::{PhysAddr, VirtAddr};
use crate::context::{page_start, State};
use crate::frame::lemma_lowest_free;
use crate::effects::lists;
use crate::handler::cow::CowMemoryHandler;
use crate::handler::swap::{unbacked, SwapMemoryHandler};
use crate::handler::{install, lemma_install, Policy};
use crate::memory_set::{
    map_pages, overlaps_any, page_addr, unmap_areas, unmap_pages, Area, MemoryAttr, Space,
};
use crate::paging::{slot, Entry};
use crate::swap::{lemma_position, lemma_queue_distinct, position, queue_distinct, SwapKey};

verus! {

/// Whether the page `key` is one that can be evicted as it is: it belongs
/// to a page table, is named by the address of its first byte, and is
/// present and not swapped out.
pub open spec fn resident_key(s: State, key: SwapKey) -> bool {
    &&& s.valid_table(key.0)
    &&& key.1 % 4096 == 0
    &&& s.tables[key.0 as int].contains_key(slot(key.1))
    &&& s.tables[key.0 as int][slot(key.1)].present
    &&& !s.tables[key.0 as int][slot(key.1)].swapped
}

/// Every page that is registered as one that may be evicted is resident,
/// and none is registered twice.
pub open spec fn resident(s: State) -> bool {
    &&& queue_distinct(s.queue)
    &&& forall|i: int| 0 <= i < s.queue.len() ==> resident_key(s, #[trigger] s.queue[i])
}

/// Whether page `page` of `table` is registered as one that may be evicted.
pub open spec fn registered_at(s: State, table: usize, page: int) -> bool {
    exists|i: int|
        0 <= i < s.queue.len() && (#[trigger] s.queue[i]).0 == table && slot(s.queue[i].1) == page
}

/// Two registered pages that are named by the address of their first byte
/// and have the same slot in the same table are one page.
pub proof fn lemma_same_slot_same_key(a: SwapKey, b: SwapKey)
    requires
        a.1 % 4096 == 0,
        b.1 % 4096 == 0,
        a.0 == b.0,
        slot(a.1) == slot(b.1),
    ensures
        a == b,
{
}

/// A request for a frame leaves every registered page resident: the page
/// that it evicts is registered no longer.
pub proof fn lemma_alloc_keeps_resident(s: State)
    requires
        resident(s),
    ensures
        resident(s.alloc_frame().0),
        forall|t: usize, page: int|
            #[trigger] registered_at(s.alloc_frame().0, t, page) ==> registered_at(s, t, page),
        forall|t: int, k: usize|
            0 <= t < s.tables.len() && !registered_at(s, t as usize, k as int) ==> {
                &&& (#[trigger] s.alloc_frame().0.tables[t].contains_key(k)) == s.tables[t].contains_key(k)
                &&& s.tables[t].contains_key(k) ==> s.alloc_frame().0.tables[t][k] == s.tables[t][k]
            },
        s.alloc_frame().0.tables.len() == s.tables.len(),
{
    lemma_lowest_free(s.frames);
    let after = s.alloc_frame().0;
    if crate::frame::lowest_free(s.frames) is None && s.queue.len() > 0 {
        let key = s.queue[0];
        assert(resident_key(s, key));
        assert forall|i: int| 0 <= i < after.queue.len() implies resident_key(
            after,
            #[trigger] after.queue[i],
        ) by {
            let other = s.queue[i + 1];
            assert(after.queue[i] == other);
            assert(resident_key(s, other));
            assert(other != key);
            if other.0 == key.0 && slot(other.1) == slot(key.1) {
                lemma_same_slot_same_key(other, key);
            }
        }
        assert forall|t: usize, page: int| #[trigger] registered_at(after, t, page) implies registered_at(
            s,
            t,
            page,
        ) by {
            let i = choose|i: int|
                0 <= i < after.queue.len() && (#[trigger] after.queue[i]).0 == t && slot(
                    after.queue[i].1,
                ) == page;
            assert(s.queue[i + 1] == after.queue[i]);
        }
        assert forall|t: int, k: usize|
            0 <= t < s.tables.len() && !registered_at(s, t as usize, k as int) implies {
            &&& (#[trigger] after.tables[t].contains_key(k)) == s.tables[t].contains_key(k)
            &&& s.tables[t].contains_key(k) ==> after.tables[t][k] == s.tables[t][k]
        } by {
            if t == key.0 && k == slot(key.1) {
                assert(s.queue[0].0 == t as usize);
                assert(registered_at(s, t as usize, k as int));
            }
        }
    }
}

/// Registering a page leaves every registered page resident, provided no
/// entry is both present and swapped out.
pub proof fn lemma_set_swappable_keeps_resident(s: State, table: usize, addr: VirtAddr)
    requires
        resident(s),
        s.valid_table(table),
        s.entry(table, addr) is Some ==> !(s.entry(table, addr).unwrap().present && s.entry(
            table,
            addr,
        ).unwrap().swapped),
    ensures
        resident(s.set_swappable(table, addr)),
{
    let key = (table, page_start(addr));
    lemma_queue_distinct(s.queue, key);
    lemma_position(s.queue, key);
    let after = s.set_swappable(table, addr);
    assert(slot(page_start(addr)) == slot(addr));
    assert forall|i: int| 0 <= i < after.queue.len() implies resident_key(
        after,
        #[trigger] after.queue[i],
    ) by {
        if i < s.queue.len() {
            assert(after.queue[i] == s.queue[i]);
            assert(resident_key(s, s.queue[i]));
        }
    }
}

/// Writing to the entry of a page that is not registered, or writing an
/// entry that is present and not swapped out, leaves every registered page
/// resident.
pub proof fn lemma_write_keeps_resident(s: State, table: usize, addr: VirtAddr, entry: Entry)
    requires
        resident(s),
        s.valid_table(table),
        !registered_at(s, table, slot(addr) as int) || (entry.present && !entry.swapped),
    ensures
        resident(s.update(table, addr, entry)),
        resident(s.map(table, addr, entry.target).update(table, addr, entry)),
        !registered_at(s, table, slot(addr) as int) ==> resident(s.unmap(table, addr)),
        resident(s.dealloc_frame(entry.target)),
        forall|frame: PhysAddr, data: Seq<u8>|
            resident(#[trigger] crate::handler::fill(s, frame, data)),
        forall|frame: PhysAddr| resident(#[trigger] crate::handler::cow::unshare(s, frame)),
        forall|frame: PhysAddr, writable: bool|
            resident((#[trigger] crate::handler::cow::share(s, frame, writable)).0),
{
    let updated = s.update(table, addr, entry);
    let installed = s.map(table, addr, entry.target).update(table, addr, entry);
    let unmapped = s.unmap(table, addr);
    lemma_install(s, table, addr, entry);
    assert forall|i: int| 0 <= i < s.queue.len() implies resident_key(
        updated,
        #[trigger] updated.queue[i],
    ) && resident_key(installed, installed.queue[i]) && (!registered_at(
        s,
        table,
        slot(addr) as int,
    ) ==> resident_key(unmapped, unmapped.queue[i])) by {
        let key = s.queue[i];
        assert(resident_key(s, key));
        if key.0 == table && slot(key.1) == slot(addr) {
            assert(registered_at(s, table, slot(addr) as int));
        }
    }
    assert forall|frame: PhysAddr, data: Seq<u8>|
        resident(#[trigger] crate::handler::fill(s, frame, data)) by {
        let after = crate::handler::fill(s, frame, data);
        assert forall|i: int| 0 <= i < after.queue.len() implies resident_key(
            after,
            #[trigger] after.queue[i],
        ) by {
            assert(resident_key(s, s.queue[i]));
        }
    }
    assert forall|frame: PhysAddr| resident(#[trigger] crate::handler::cow::unshare(s, frame)) by {
        let after = crate::handler::cow::unshare(s, frame);
        assert forall|i: int| 0 <= i < after.queue.len() implies resident_key(
            after,
            #[trigger] after.queue[i],
        ) by {
            assert(resident_key(s, s.queue[i]));
        }
    }
    assert forall|frame: PhysAddr, writable: bool|
        resident((#[trigger] crate::handler::cow::share(s, frame, writable)).0) by {
        let after = crate::handler::cow::share(s, frame, writable).0;
        assert forall|i: int| 0 <= i < after.queue.len() implies resident_key(
            after,
            #[trigger] after.queue[i],
        ) by {
            assert(resident_key(s, s.queue[i]));
        }
    }
    let freed = s.dealloc_frame(entry.target);
    assert forall|i: int| 0 <= i < freed.queue.len() implies resident_key(
        freed,
        #[trigger] freed.queue[i],
    ) by {
        assert(resident_key(s, s.queue[i]));
    }
}

/// Bringing a swapped-out page in leaves every registered page resident,
/// and registers none.
pub proof fn lemma_swap_load_keeps_resident(s: State, table: usize, addr: VirtAddr, frame: PhysAddr)
    requires
        resident(s),
        s.valid_table(table),
    ensures
        resident(s.swap_load(table, addr, frame).0),
        s.swap_load(table, addr, frame).0.queue == s.queue,
        s.swap_load(table, addr, frame).1 is Ok ==> {
            &&& s.swap_load(table, addr, frame).0.entry(table, addr) is Some
            &&& s.swap_load(table, addr, frame).0.entry(table, addr).unwrap().present
            &&& !s.swap_load(table, addr, frame).0.entry(table, addr).unwrap().swapped
        },
{
    let (after, done) = s.swap_load(table, addr, frame);
    if done is Ok {
        let e = s.entry(table, addr).unwrap();
        let loaded = Entry { target: frame, swapped: false, present: true, ..e };
        lemma_write_keeps_resident(s, table, addr, loaded);
        let written = s.update(table, addr, loaded);
        assert forall|i: int| 0 <= i < after.queue.len() implies resident_key(
            after,
            #[trigger] after.queue[i],
        ) by {
            assert(resident_key(written, written.queue[i]));
        }
    }
}

/// Bringing a swapped-out page in and registering it again leaves every
/// registered page resident.
pub proof fn lemma_swap_in_keeps_resident(s: State, table: usize, addr: VirtAddr, frame: PhysAddr)
    requires
        resident(s),
        s.valid_table(table),
    ensures
        resident(s.swap_in(table, addr, frame).0),
{
    let (loaded, done) = s.swap_load(table, addr, frame);
    lemma_swap_load_keeps_resident(s, table, addr, frame);
    if done is Ok {
        lemma_set_swappable_keeps_resident(loaded, table, addr);
        assert(s.swap_in(table, addr, frame).0 == loaded.set_swappable(table, addr));
    }
}

/// Taking a page out of the pages that may be evicted leaves every
/// registered page resident; where it succeeds, the page is registered no
/// longer.
pub proof fn lemma_remove_keeps_resident(s: State, table: usize, addr: VirtAddr)
    requires
        resident(s),
        s.valid_table(table),
    ensures
        resident(s.remove_from_swappable(table, addr).0),
        s.remove_from_swappable(table, addr).0.tables.len() == s.tables.len(),
        s.remove_from_swappable(table, addr).1 is Ok ==> !registered_at(
            s.remove_from_swappable(table, addr).0,
            table,
            slot(addr) as int,
        ),
{
    let (after, done) = s.remove_from_swappable(table, addr);
    let key = (table, page_start(addr));
    assert(slot(page_start(addr)) == slot(addr));
    match s.entry(table, addr) {
        None => {},
        Some(e) => {
            if !e.swapped {
                if e.present {
                    lemma_queue_distinct(s.queue, key);
                    lemma_position(s.queue, key);
                    match position(s.queue, key) {
                        Some(p) => {
                            assert forall|i: int| 0 <= i < after.queue.len() implies resident_key(
                                after,
                                #[trigger] after.queue[i],
                            ) by {
                                if i < p {
                                    assert(after.queue[i] == s.queue[i]);
                                } else {
                                    assert(after.queue[i] == s.queue[i + 1]);
                                }
                            }
                        },
                        None => {},
                    }
                    if registered_at(after, table, slot(addr) as int) {
                        let i = choose|i: int|
                            0 <= i < after.queue.len() && (#[trigger] after.queue[i]).0 == table
                                && slot(after.queue[i].1) == slot(addr) as int;
                        assert(resident_key(after, after.queue[i]));
                        lemma_same_slot_same_key(after.queue[i], key);
                        assert(after.queue.contains(key));
                    }
                } else {
                    if registered_at(s, table, slot(addr) as int) {
                        let i = choose|i: int|
                            0 <= i < s.queue.len() && (#[trigger] s.queue[i]).0 == table && slot(
                                s.queue[i].1,
                            ) == slot(addr) as int;
                        assert(resident_key(s, s.queue[i]));
                    }
                }
            } else {
                if registered_at(s, table, slot(addr) as int) {
                    let i = choose|i: int|
                        0 <= i < s.queue.len() && (#[trigger] s.queue[i]).0 == table && slot(
                            s.queue[i].1,
                        ) == slot(addr) as int;
                    assert(resident_key(s, s.queue[i]));
                }
                lemma_alloc_keeps_resident(s);
                let (s1, got) = s.alloc_frame();
                assert(!registered_at(s1, table, slot(addr) as int));
                match got {
                    None => {},
                    Some(frame) => {
                        lemma_swap_load_keeps_resident(s1, table, addr, frame);
                        let s2 = s1.swap_load(table, addr, frame).0;
                        if registered_at(s2, table, slot(addr) as int) {
                            let i = choose|i: int|
                                0 <= i < s2.queue.len() && (#[trigger] s2.queue[i]).0 == table
                                    && slot(s2.queue[i].1) == slot(addr) as int;
                            assert(s1.queue[i] == s2.queue[i]);
                            assert(registered_at(s1, table, slot(addr) as int));
                        }
                    },
                }
            }
        },
    }
}

/// Mapping a page leaves every registered page resident, unless the page
/// is registered and gets an entry with nothing behind it. Afterwards no
/// page is registered that was not, but the page itself.
pub proof fn lemma_map_keeps_resident(policy: Policy, s: State, table: usize, addr: VirtAddr)
    requires
        resident(s),
        s.valid_table(table),
        !(lists(policy, addr) && registered_at(s, table, slot(addr) as int)),
    ensures
        resident(policy.map(s, table, addr).0),
        policy.map(s, table, addr).0.tables.len() == s.tables.len(),
        forall|t: usize, page: int|
            #[trigger] registered_at(policy.map(s, table, addr).0, t, page) && !(t == table && page
                == slot(addr)) ==> registered_at(s, t, page),
{
    let (s1, got) = s.alloc_frame();
    lemma_alloc_keeps_resident(s);
    let after = policy.map(s, table, addr).0;
    match policy {
        Policy::Direct(h) => {
            let entry = h.flags.applied(Entry::mapped(h.spec_target(addr)));
            lemma_write_keeps_resident(s, table, addr, entry);
            assert(after.queue == s.queue);
        },
        Policy::Eager(h) => {
            if got is Some {
                let entry = h.flags.applied(Entry::mapped(got.unwrap()));
                lemma_write_keeps_resident(s1, table, addr, entry);
            }
            assert(after.queue == s1.queue);
        },
        Policy::CopyOnWrite(h) => {
            if got is Some {
                let entry = Entry { shared: true, ..h.flags.applied(Entry::mapped(got.unwrap())) };
                lemma_write_keeps_resident(s1, table, addr, entry);
                let s2 = install(s1, table, addr, entry);
                lemma_write_keeps_resident(s2, table, addr, entry);
            }
            assert(after.queue == s1.queue);
        },
        Policy::Swappable { flags, delay } => {
            if lists(policy, addr) {
                lemma_write_keeps_resident(s, table, addr, unbacked(flags));
                assert(after.queue == s.queue);
            } else if got is Some {
                let entry = flags.applied(Entry::mapped(got.unwrap()));
                lemma_write_keeps_resident(s1, table, addr, entry);
                let s2 = install(s1, table, addr, entry);
                lemma_install(s1, table, addr, entry);
                lemma_set_swappable_keeps_resident(s2, table, addr);
                lemma_registers_one(s2, table, addr);
                assert(s2.queue == s1.queue);
            } else {
                assert(after.queue == s1.queue);
            }
        },
    }
    assert forall|t: usize, page: int|
        #[trigger] registered_at(after, t, page) && !(t == table && page == slot(
            addr,
        )) implies registered_at(s, t, page) by {
        let i = choose|i: int|
            0 <= i < after.queue.len() && (#[trigger] after.queue[i]).0 == t && slot(
                after.queue[i].1,
            ) == page;
        if after.queue == s.queue {
            assert(s.queue[i] == after.queue[i]);
        } else if after.queue == s1.queue {
            assert(s1.queue[i] == after.queue[i]);
            assert(registered_at(s1, t, page));
        } else {
            assert(registered_at(s1, t, page));
        }
    }
}

/// Registering a page registers no other.
pub proof fn lemma_registers_one(s: State, table: usize, addr: VirtAddr)
    ensures
        forall|t: usize, page: int|
            #[trigger] registered_at(s.set_swappable(table, addr), t, page) && !(t == table && page
                == slot(addr)) ==> registered_at(s, t, page),
{
    let after = s.set_swappable(table, addr);
    let key = (table, page_start(addr));
    assert(slot(page_start(addr)) == slot(addr));
    assert forall|t: usize, page: int|
        #[trigger] registered_at(after, t, page) && !(t == table && page == slot(
            addr,
        )) implies registered_at(s, t, page) by {
        let i = choose|i: int|
            0 <= i < after.queue.len() && (#[trigger] after.queue[i]).0 == t && slot(
                after.queue[i].1,
            ) == page;
        if i < s.queue.len() {
            assert(after.queue[i] == s.queue[i]);
        } else {
            assert(after.queue[i] == key);
        }
    }
}

/// Unmapping a page under the swappable policy, or a page that is not
/// registered under any other, leaves every registered page resident and
/// registers none.
pub proof fn lemma_unmap_keeps_resident(policy: Policy, s: State, table: usize, addr: VirtAddr)
    requires
        resident(s),
        s.valid_table(table),
        policy is Swappable || !registered_at(s, table, slot(addr) as int),
    ensures
        resident(policy.unmap(s, table, addr).0),
        policy.unmap(s, table, addr).0.tables.len() == s.tables.len(),
        forall|t: usize, page: int|
            #[trigger] registered_at(policy.unmap(s, table, addr).0, t, page) ==> registered_at(
                s,
                t,
                page,
            ),
{
    let after = policy.unmap(s, table, addr).0;
    match policy {
        Policy::Direct(h) => {
            lemma_write_keeps_resident(s, table, addr, Entry::empty());
            assert(after.queue == s.queue);
        },
        Policy::Eager(h) => {
            match s.entry(table, addr) {
                None => {},
                Some(e) => {
                    lemma_write_keeps_resident(s, table, addr, e);
                    let s1 = s.dealloc_frame(e.target);
                    assert(!registered_at(s1, table, slot(addr) as int)) by {
                        assert(s1.queue == s.queue);
                        if registered_at(s1, table, slot(addr) as int) {
                            let i = choose|i: int|
                                0 <= i < s1.queue.len() && (#[trigger] s1.queue[i]).0 == table
                                    && slot(s1.queue[i].1) == slot(addr) as int;
                            assert(s.queue[i] == s1.queue[i]);
                        }
                    }
                    lemma_write_keeps_resident(s1, table, addr, e);
                },
            }
            assert(after.queue == s.queue);
        },
        Policy::CopyOnWrite(h) => {
            match s.entry(table, addr) {
                None => {},
                Some(e) => {
                    lemma_write_keeps_resident(s, table, addr, e);
                    let s1 = s.unmap(table, addr);
                    lemma_write_keeps_resident(s1, table, addr, e);
                    let s2 = crate::handler::cow::unshare(s1, e.target);
                    lemma_write_keeps_resident(s2, table, addr, e);
                },
            }
            assert(after.queue == s.queue);
        },
        Policy::Swappable { flags, delay } => {
            let (s1, done) = s.remove_from_swappable(table, addr);
            lemma_remove_keeps_resident(s, table, addr);
            lemma_remove_registers_none(s, table, addr);
            if done is Ok {
                match s1.entry(table, addr) {
                    None => {},
                    Some(e) => {
                        let s2 = s1.dealloc_frame(e.target);
                        lemma_write_keeps_resident(s1, table, addr, e);
                        assert(s2.queue == s1.queue);
                        assert(!registered_at(s2, table, slot(addr) as int)) by {
                            if registered_at(s2, table, slot(addr) as int) {
                                let i = choose|i: int|
                                    0 <= i < s2.queue.len() && (#[trigger] s2.queue[i]).0 == table
                                        && slot(s2.queue[i].1) == slot(addr) as int;
                                assert(s1.queue[i] == s2.queue[i]);
                            }
                        }
                        lemma_write_keeps_resident(s2, table, addr, e);
                    },
                }
            }
            assert(after.queue == s1.queue);
            assert forall|t: usize, page: int| #[trigger] registered_at(after, t, page) implies registered_at(
                s,
                t,
                page,
            ) by {
                let i = choose|i: int|
                    0 <= i < after.queue.len() && (#[trigger] after.queue[i]).0 == t && slot(
                        after.queue[i].1,
                    ) == page;
                assert(s1.queue[i] == after.queue[i]);
                assert(registered_at(s1, t, page));
            }
        },
    }
    if !(policy is Swappable) {
        assert forall|t: usize, page: int| #[trigger] registered_at(after, t, page) implies registered_at(
            s,
            t,
            page,
        ) by {
            let i = choose|i: int|
                0 <= i < after.queue.len() && (#[trigger] after.queue[i]).0 == t && slot(
                    after.queue[i].1,
                ) == page;
            assert(s.queue[i] == after.queue[i]);
        }
    }
}

/// Taking a page out of the pages that may be evicted registers none.
pub proof fn lemma_remove_registers_none(s: State, table: usize, addr: VirtAddr)
    requires
        resident(s),
        s.valid_table(table),
    ensures
        forall|t: usize, page: int|
            #[trigger] registered_at(s.remove_from_swappable(table, addr).0, t, page)
                ==> registered_at(s, t, page),
{
    let after = s.remove_from_swappable(table, addr).0;
    let key = (table, page_start(addr));
    lemma_position(s.queue, key);
    lemma_alloc_keeps_resident(s);
    let s1 = s.alloc_frame().0;
    assert forall|t: usize, page: int| #[trigger] registered_at(after, t, page) implies registered_at(
        s,
        t,
        page,
    ) by {
        let i = choose|i: int|
            0 <= i < after.queue.len() && (#[trigger] after.queue[i]).0 == t && slot(
                after.queue[i].1,
            ) == page;
        if after.queue == s.queue {
            assert(s.queue[i] == after.queue[i]);
        } else if after.queue == s1.queue {
            assert(s1.queue[i] == after.queue[i]);
            assert(registered_at(s1, t, page));
        } else {
            let p = position(s.queue, key).unwrap();
            assert(after.queue == s.queue.remove(p));
            if i < p {
                assert(s.queue[i] == after.queue[i]);
            } else {
                assert(s.queue[i + 1] == after.queue[i]);
            }
        }
    }
}

/// Handling a fault leaves every registered page resident.
pub proof fn lemma_page_fault_keeps_resident(policy: Policy, s: State, table: usize, addr: VirtAddr)
    requires
        resident(s),
        s.valid_table(table),
    ensures
        resident(policy.page_fault(s, table, addr).0),
        policy.page_fault(s, table, addr).0.tables.len() == s.tables.len(),
{
    let after = policy.page_fault(s, table, addr).0;
    match policy {
        Policy::Direct(h) => {},
        Policy::Eager(h) => {},
        Policy::CopyOnWrite(h) => {
            lemma_cow_fault_keeps_resident(h, s, table, addr);
        },
        Policy::Swappable { flags, delay } => {
            lemma_swap_fault_keeps_resident(flags, delay, s, table, addr);
        },
    }
}

/// Writing back an entry whose present and swapped bits are as they were
/// leaves every registered page resident.
pub proof fn lemma_rewrite_keeps_resident(s: State, table: usize, addr: VirtAddr, entry: Entry)
    requires
        resident(s),
        s.valid_table(table),
        s.entry(table, addr) is Some,
        entry.present == s.entry(table, addr).unwrap().present,
        entry.swapped == s.entry(table, addr).unwrap().swapped,
    ensures
        resident(s.update(table, addr, entry)),
{
    let after = s.update(table, addr, entry);
    assert forall|i: int| 0 <= i < after.queue.len() implies resident_key(
        after,
        #[trigger] after.queue[i],
    ) by {
        assert(resident_key(s, s.queue[i]));
    }
}

/// A write fault under the copy-on-write policy leaves every registered
/// page resident.
pub proof fn lemma_cow_fault_keeps_resident(
    h: CowMemoryHandler,
    s: State,
    table: usize,
    addr: VirtAddr,
)
    requires
        resident(s),
        s.valid_table(table),
    ensures
        resident(h.spec_page_fault(s, table, addr).0),
        h.spec_page_fault(s, table, addr).0.tables.len() == s.tables.len(),
{
    if !h.flags.readonly {
        match s.entry(table, addr) {
            None => {},
            Some(e) => {
                lemma_rewrite_keeps_resident(s, table, addr, Entry { writable: true, ..e });
                lemma_write_keeps_resident(s, table, addr, Entry { present: true, swapped: false, ..e });
                let s0 = crate::handler::cow::unshare(s, e.target);
                lemma_alloc_keeps_resident(s0);
                let (s1, got) = s0.alloc_frame();
                match got {
                    None => {},
                    Some(target) => {
                        match s1.entry(table, addr) {
                            None => {},
                            Some(e1) => {
                                let entry = Entry { writable: true, target, ..e1 };
                                lemma_rewrite_keeps_resident(s1, table, addr, entry);
                                let s2 = s1.update(table, addr, entry);
                                lemma_write_keeps_resident(
                                    s2,
                                    table,
                                    addr,
                                    Entry { present: true, swapped: false, ..e1 },
                                );
                                let (s3, r) = crate::handler::cow::share(
                                    s2,
                                    target,
                                    !h.flags.readonly,
                                );
                                lemma_write_keeps_resident(
                                    s3,
                                    table,
                                    addr,
                                    Entry { present: true, swapped: false, ..e1 },
                                );
                            },
                        }
                    },
                }
            },
        }
    }
}

/// A fault under the swappable policy leaves every registered page resident.
pub proof fn lemma_swap_fault_keeps_resident(
    flags: MemoryAttr,
    delay: Seq<VirtAddr>,
    s: State,
    table: usize,
    addr: VirtAddr,
)
    requires
        resident(s),
        s.valid_table(table),
    ensures
        resident(SwapMemoryHandler::spec_page_fault(flags, delay, s, table, addr).0),
        SwapMemoryHandler::spec_page_fault(flags, delay, s, table, addr).0.tables.len()
            == s.tables.len(),
{
    lemma_alloc_keeps_resident(s);
    let (s1, got) = s.alloc_frame();
    match s.entry(table, addr) {
        None => {},
        Some(e) => {
            if got is Some {
                let target = got.unwrap();
                if !e.present && !e.swapped {
                    if registered_at(s, table, slot(addr) as int) {
                        let i = choose|i: int|
                            0 <= i < s.queue.len() && (#[trigger] s.queue[i]).0 == table && slot(
                                s.queue[i].1,
                            ) == slot(addr) as int;
                        assert(resident_key(s, s.queue[i]));
                    }
                    assert(s1.tables[table as int].contains_key(slot(addr)));
                    assert(s1.entry(table, addr) == Some(e));
                    let entry = flags.applied(Entry { target, ..e });
                    lemma_write_keeps_resident(s1, table, addr, entry);
                    let s2 = s1.update(table, addr, entry);
                    lemma_set_swappable_keeps_resident(s2, table, addr);
                }
                lemma_swap_in_keeps_resident(s1, table, addr, target);
            }
        },
    }
}

/// Mapping the pages `page` up to `end` leaves every registered page
/// resident, provided none of them is registered and gets an entry with
/// nothing behind it. Afterwards no page is registered that was not, but for
/// the pages mapped.
pub proof fn lemma_map_pages_keeps_resident(policy: Policy, s: State, table: usize, page: int, end: int)
    requires
        resident(s),
        s.valid_table(table),
        0 <= page,
        (end - 1) * 4096 <= usize::MAX,
        forall|q: int|
            page <= q < end ==> !(lists(policy, #[trigger] page_addr(q)) && registered_at(
                s,
                table,
                q,
            )),
    ensures
        resident(map_pages(policy, s, table, page, end).0),
        map_pages(policy, s, table, page, end).0.tables.len() == s.tables.len(),
        forall|t: usize, q: int|
            #[trigger] registered_at(map_pages(policy, s, table, page, end).0, t, q) && !(t == table
                && page <= q < end) ==> registered_at(s, t, q),
    decreases end - page,
{
    let whole = map_pages(policy, s, table, page, end);
    if page < end {
        let addr = page_addr(page);
        assert(slot(addr) == page);
        let (s1, done1) = policy.map(s, table, addr);
        lemma_map_keeps_resident(policy, s, table, addr);
        if done1 is Ok {
            assert forall|q: int| page + 1 <= q < end implies !(lists(
                policy,
                #[trigger] page_addr(q),
            ) && registered_at(s1, table, q)) by {
                if registered_at(s1, table, q) {
                    assert(registered_at(s, table, q));
                }
            }
            lemma_map_pages_keeps_resident(policy, s1, table, page + 1, end);
            let tail = map_pages(policy, s1, table, page + 1, end);
            assert(whole == tail);
            assert forall|t: usize, q: int|
                #[trigger] registered_at(tail.0, t, q) && !(t == table && page <= q
                    < end) implies registered_at(s, t, q) by {
                assert(registered_at(s1, t, q));
            }
        } else {
            assert(whole == (s1, done1));
        }
    } else {
        assert(whole.0 == s);
    }
}

/// Unmapping the pages `page` up to `end` under the swappable policy, or
/// under any other if none of them is registered, leaves every registered
/// page resident and registers none.
pub proof fn lemma_unmap_pages_keeps_resident(
    policy: Policy,
    s: State,
    table: usize,
    page: int,
    end: int,
)
    requires
        resident(s),
        s.valid_table(table),
        0 <= page,
        (end - 1) * 4096 <= usize::MAX,
        policy is Swappable || forall|q: int|
            page <= q < end ==> !#[trigger] registered_at(s, table, q),
    ensures
        resident(unmap_pages(policy, s, table, page, end).0),
        unmap_pages(policy, s, table, page, end).0.tables.len() == s.tables.len(),
        forall|t: usize, q: int|
            #[trigger] registered_at(unmap_pages(policy, s, table, page, end).0, t, q)
                ==> registered_at(s, t, q),
    decreases end - page,
{
    let whole = unmap_pages(policy, s, table, page, end);
    if page < end {
        let addr = page_addr(page);
        assert(slot(addr) == page);
        let (s1, done1) = policy.unmap(s, table, addr);
        if !(policy is Swappable) {
            assert(!registered_at(s, table, page));
        }
        lemma_unmap_keeps_resident(policy, s, table, addr);
        if done1 is Ok {
            if !(policy is Swappable) {
                assert forall|q: int| page + 1 <= q < end implies !#[trigger] registered_at(
                    s1,
                    table,
                    q,
                ) by {
                    if registered_at(s1, table, q) {
                        assert(registered_at(s, table, q));
                    }
                }
            }
            lemma_unmap_pages_keeps_resident(policy, s1, table, page + 1, end);
            let tail = unmap_pages(policy, s1, table, page + 1, end);
            assert(whole == tail);
            assert forall|t: usize, q: int| #[trigger] registered_at(tail.0, t, q) implies registered_at(
                s,
                t,
                q,
            ) by {
                assert(registered_at(s1, t, q));
            }
        } else {
            assert(whole == (s1, done1));
        }
    } else {
        assert(whole.0 == s);
    }
}

/// Whether no page of `area` is registered in `table` as one that may be evicted.
pub open spec fn unregistered_area(s: State, table: usize, area: Area) -> bool {
    forall|q: int| area.has_page(q) ==> !#[trigger] registered_at(s, table, q)
}

/// Whether only swappable areas of the set have pages that are registered
/// as ones that may be evicted.
pub open spec fn tracks(space: Space, s: State) -> bool {
    forall|j: int|
        0 <= j < space.areas.len() ==> (#[trigger] space.areas[j]).policy is Swappable
            || unregistered_area(s, space.table, space.areas[j])
}

/// Unmapping the areas from index `i` on leaves every registered page
/// resident, provided no page of an area that is not swappable is registered.
pub proof fn lemma_unmap_areas_keeps_resident(areas: Seq<Area>, s: State, table: usize, i: int)
    requires
        resident(s),
        s.valid_table(table),
        0 <= i,
        forall|j: int|
            i <= j < areas.len() ==> (#[trigger] areas[j]).policy is Swappable || unregistered_area(
                s,
                table,
                areas[j],
            ),
    ensures
        resident(unmap_areas(areas, s, table, i).0),
        unmap_areas(areas, s, table, i).0.tables.len() == s.tables.len(),
        forall|t: usize, q: int|
            #[trigger] registered_at(unmap_areas(areas, s, table, i).0, t, q) ==> registered_at(
                s,
                t,
                q,
            ),
    decreases areas.len() - i,
{
    let whole = unmap_areas(areas, s, table, i);
    if i < areas.len() {
        let area = areas[i];
        let (s1, done1) = area.unmap(s, table);
        if !(area.policy is Swappable) {
            assert(unregistered_area(s, table, area));
            assert forall|q: int| area.first_page() <= q < area.end_page() implies !#[trigger] registered_at(
                s,
                table,
                q,
            ) by {
                assert(area.has_page(q));
            }
        }
        lemma_unmap_pages_keeps_resident(area.policy, s, table, area.first_page(), area.end_page());
        if done1 is Ok {
            assert forall|j: int| i + 1 <= j < areas.len() implies (#[trigger] areas[j]).policy is Swappable
                || unregistered_area(s1, table, areas[j]) by {
                if !(areas[j].policy is Swappable) {
                    assert(unregistered_area(s, table, areas[j]));
                    assert forall|q: int| areas[j].has_page(q) implies !#[trigger] registered_at(
                        s1,
                        table,
                        q,
                    ) by {
                        if registered_at(s1, table, q) {
                            assert(registered_at(s, table, q));
                        }
                    }
                }
            }
            lemma_unmap_areas_keeps_resident(areas, s1, table, i + 1);
            let tail = unmap_areas(areas, s1, table, i + 1);
            assert(whole == tail);
            assert forall|t: usize, q: int| #[trigger] registered_at(tail.0, t, q) implies registered_at(
                s,
                t,
                q,
            ) by {
                assert(registered_at(s1, t, q));
            }
        } else {
            assert(whole == (s1, done1));
        }
    } else {
        assert(whole.0 == s);
    }
}

/// A push leaves every registered page resident, provided no page of the
/// area is registered and gets an entry with nothing behind it.
pub proof fn lemma_push_keeps_resident(space: Space, s: State, area: Area)
    requires
        resident(s),
        s.valid_table(space.table),
        forall|q: int|
            area.has_page(q) ==> !(lists(area.policy, #[trigger] page_addr(q)) && registered_at(
                s,
                space.table,
                q,
            )),
    ensures
        resident(space.push(s, area).0),
{
    if !overlaps_any(space.areas, area) {
        lemma_map_pages_keeps_resident(
            area.policy,
            s,
            space.table,
            area.first_page(),
            area.end_page(),
        );
    }
}

/// A clear leaves every registered page resident and registers none,
/// provided no page of an area that is not swappable is registered.
pub proof fn lemma_clear_keeps_resident(space: Space, s: State)
    requires
        resident(s),
        s.valid_table(space.table),
        tracks(space, s),
    ensures
        resident(space.clear(s).0),
        forall|t: usize, q: int|
            #[trigger] registered_at(space.clear(s).0, t, q) ==> registered_at(s, t, q),
{
    lemma_unmap_areas_keeps_resident(space.areas, s, space.table, 0);
}

} // verus!
