//! Frame ownership: what a state must satisfy for frames to be handed out
//! to one owner at a time, and what keeps it so.

use vstd::prelude::*;
use crate::addr::{PhysAddr, VirtAddr};
use crate::context::State;
use crate::cow::share_count;
use crate::frame::{lemma_lowest_free, lowest_free};
use crate::context::page_start;
use crate::effects::lists;
use crate::handler::cow::{share, unshare, CowMemoryHandler};
use crate::handler::swap::{unbacked, SwapMemoryHandler};
use crate::memory_set::MemoryAttr;
use crate::handler::{install, lemma_install, Policy};
use crate::memory_set::{
    box_clone_all, clone_areas, clone_pages, map_pages, overlaps_any, page_addr, pairwise_disjoint,
    unmap_areas, unmap_pages, Area, Space,
};
use crate::ownership::keeps;
use crate::paging::{slot, Entry};
use crate::cow::shares_last;
use crate::residency::{
    lemma_alloc_keeps_resident, lemma_clear_keeps_resident, lemma_map_keeps_resident,
    lemma_map_pages_keeps_resident, lemma_remove_keeps_resident, lemma_same_slot_same_key, lemma_set_swappable_keeps_resident,
    lemma_write_keeps_resident, registered_at, resident, resident_key, tracks, unregistered_area,
};
use crate::swap::{lemma_queue_distinct, position, queue_remove};
use crate::swap::{lemma_position, SwapKey};

verus! {

/// Whether the frame at `frame` is one of the pool's frames and is free.
pub open spec fn pool_free(s: State, frame: PhysAddr) -> bool {
    exists|i: int| 0 <= i < s.frames.len() && s.frames[i] && #[trigger] s.frame_addr(i) == frame
}

/// The entry of the page `key`.
pub open spec fn key_entry(s: State, key: SwapKey) -> Entry {
    s.tables[key.0 as int][slot(key.1)]
}

/// Whether page `k` of table `t` is present.
pub open spec fn present_in(s: State, t: int, k: usize) -> bool {
    0 <= t < s.tables.len() && s.tables[t].contains_key(k) && s.tables[t][k].present
}

/// No page is present in a frame that is free.
pub open spec fn mapped_frames_taken(s: State) -> bool {
    forall|t: int, k: usize| #[trigger] present_in(s, t, k) ==> !pool_free(s, s.tables[t][k].target)
}

/// A page that may be evicted has its frame to itself: no other present
/// page, in any table, is bound to it.
pub open spec fn registered_frames_private(s: State) -> bool {
    forall|i: int, t: int, k: usize|
        0 <= i < s.queue.len() && #[trigger] present_in(s, t, k) && !(t == (#[trigger] s.queue[i]).0
            && k == slot(s.queue[i].1)) ==> s.tables[t][k].target != key_entry(s, s.queue[i]).target
}

/// No frame that is free, and no frame of a page that may be evicted, is
/// counted in the copy-on-write table.
pub open spec fn spare_frames_uncounted(s: State) -> bool {
    &&& forall|i: int|
        0 <= i < s.frames.len() && s.frames[i] ==> share_count(s.shares, #[trigger] s.frame_addr(i))
            == 0
    &&& forall|i: int|
        0 <= i < s.queue.len() ==> share_count(s.shares, key_entry(s, #[trigger] s.queue[i]).target)
            == 0
}

/// The state is sound: every frame has at most one kind of holder. Every
/// page that may be evicted is resident and has its frame to itself, no page
/// is present in a free frame, and neither the free frames nor the frames of
/// pages that may be evicted are counted as shared.
pub open spec fn sound(s: State) -> bool {
    &&& s.offset + s.frames.len() * 4096 <= usize::MAX
    &&& resident(s)
    &&& mapped_frames_taken(s)
    &&& registered_frames_private(s)
    &&& spare_frames_uncounted(s)
}

/// A state in which no frame is free and no page is registered is sound.
pub proof fn lemma_fresh_state_is_sound(s: State)
    requires
        s.offset + s.frames.len() * 4096 <= usize::MAX,
        forall|i: int| 0 <= i < s.frames.len() ==> !s.frames[i],
        s.queue.len() == 0,
    ensures
        sound(s),
{
}

/// Distinct frames of the pool have distinct addresses.
pub proof fn lemma_frame_addr_injective(s: State, i: int, j: int)
    requires
        s.offset + s.frames.len() * 4096 <= usize::MAX,
        0 <= i < s.frames.len(),
        0 <= j < s.frames.len(),
        s.frame_addr(i) == s.frame_addr(j),
    ensures
        i == j,
{
}

/// A sound state keeps the frame of every present page that is not
/// registered as one that may be evicted.
pub proof fn lemma_sound_keeps(s: State, table: usize, page: int)
    requires
        sound(s),
        present_in(s, table as int, page as usize),
        !registered_at(s, table, page),
        0 <= page <= usize::MAX,
    ensures
        keeps(s, s.tables[table as int][page as usize].target),
{
    reveal(keeps);
    let frame = s.tables[table as int][page as usize].target;
    assert forall|i: int| 0 <= i < s.frames.len() && s.frames[i] implies #[trigger] s.frame_addr(i)
        != frame by {
        if s.frame_addr(i) == frame {
            assert(pool_free(s, frame));
        }
    }
    assert forall|i: int| 0 <= i < s.queue.len() implies {
        &&& s.valid_table((#[trigger] s.queue[i]).0)
        &&& s.entry(s.queue[i].0, s.queue[i].1) is Some && !s.entry(
            s.queue[i].0,
            s.queue[i].1,
        ).unwrap().swapped ==> s.entry(s.queue[i].0, s.queue[i].1).unwrap().target != frame
    } by {
        let key = s.queue[i];
        assert(resident_key(s, key));
        if key.0 == table && slot(key.1) == page as usize {
            assert(registered_at(s, table, page));
        }
        assert(present_in(s, table as int, page as usize));
    }
}

/// In a sound state a request for a frame is given a frame that no present
/// page is bound to, unless it is the page evicted, and that is not counted
/// as shared; and the state is sound afterwards.
pub proof fn lemma_alloc_keeps_sound(s: State)
    requires
        sound(s),
    ensures
        sound(s.alloc_frame().0),
        s.alloc_frame().1 is Some ==> {
            &&& share_count(s.alloc_frame().0.shares, s.alloc_frame().1.unwrap()) == 0
            &&& !pool_free(s.alloc_frame().0, s.alloc_frame().1.unwrap())
            &&& forall|t: int, k: usize|
                #[trigger] present_in(s.alloc_frame().0, t, k) ==> s.alloc_frame().0.tables[t][k].target
                    != s.alloc_frame().1.unwrap()
            &&& forall|i: int|
                0 <= i < s.alloc_frame().0.queue.len() ==> key_entry(
                    s.alloc_frame().0,
                    #[trigger] s.alloc_frame().0.queue[i],
                ).target != s.alloc_frame().1.unwrap()
        },
{
    lemma_lowest_free(s.frames);
    lemma_alloc_keeps_resident(s);
    let (after, got) = s.alloc_frame();
    match lowest_free(s.frames) {
        Some(id) => {
            let frame = s.frame_addr(id);
            assert(pool_free(s, frame));
            assert forall|g: PhysAddr| pool_free(after, g) implies pool_free(s, g) by {
                let i = choose|i: int|
                    0 <= i < after.frames.len() && after.frames[i] && #[trigger] after.frame_addr(i)
                        == g;
                assert(s.frames[i] && s.frame_addr(i) == g);
            }
            assert(!pool_free(after, frame)) by {
                if pool_free(after, frame) {
                    let i = choose|i: int|
                        0 <= i < after.frames.len() && after.frames[i] && #[trigger] after.frame_addr(
                            i,
                        ) == frame;
                    lemma_frame_addr_injective(s, i, id);
                }
            }
            assert forall|t: int, k: usize| #[trigger] present_in(after, t, k) implies !pool_free(
                after,
                after.tables[t][k].target,
            ) && after.tables[t][k].target != frame by {
                assert(present_in(s, t, k));
            }
            assert forall|i: int, t: int, k: usize|
                0 <= i < after.queue.len() && #[trigger] present_in(after, t, k) && !(t == (
                #[trigger] after.queue[i]).0 && k == slot(after.queue[i].1)) implies after.tables[t][k].target
                != key_entry(after, after.queue[i]).target by {
                assert(present_in(s, t, k));
                assert(s.queue[i] == after.queue[i]);
            }
            assert forall|i: int| 0 <= i < after.queue.len() implies key_entry(
                after,
                #[trigger] after.queue[i],
            ).target != frame && share_count(after.shares, key_entry(after, after.queue[i]).target)
                == 0 by {
                let key = s.queue[i];
                assert(resident_key(s, key));
                assert(present_in(s, key.0 as int, slot(key.1)));
            }
            assert forall|i: int| 0 <= i < after.frames.len() && after.frames[i] implies share_count(
                after.shares,
                #[trigger] after.frame_addr(i),
            ) == 0 by {
                assert(s.frames[i]);
                assert(share_count(s.shares, s.frame_addr(i)) == 0);
            }
        },
        None => {
            if s.queue.len() > 0 {
                let key = s.queue[0];
                assert(resident_key(s, key));
                let victim = key_entry(s, key);
                assert(s.entry(key.0, key.1) == Some(victim));
                if s.next_token < usize::MAX {
                    let frame = victim.target;
                    assert(got == Some(frame));
                    assert forall|t: int, k: usize| #[trigger] present_in(after, t, k) implies present_in(
                        s,
                        t,
                        k,
                    ) && after.tables[t][k] == s.tables[t][k] && !(t == key.0 && k == slot(
                        key.1,
                    )) by {
                        if t == key.0 && k == slot(key.1) {
                        }
                    }
                    assert forall|g: PhysAddr| pool_free(after, g) implies pool_free(s, g) by {
                        let i = choose|i: int|
                            0 <= i < after.frames.len() && after.frames[i] && #[trigger] after.frame_addr(
                                i,
                            ) == g;
                        assert(s.frames[i] && s.frame_addr(i) == g);
                    }
                    assert(present_in(s, key.0 as int, slot(key.1)));
                    assert(!pool_free(s, frame));
                    assert forall|t: int, k: usize| #[trigger] present_in(after, t, k) implies !pool_free(
                        after,
                        after.tables[t][k].target,
                    ) && after.tables[t][k].target != frame by {
                        assert(present_in(s, t, k));
                        assert(s.queue[0] == key);
                    }
                    assert forall|i: int| 0 <= i < after.queue.len() implies key_entry(
                        after,
                        #[trigger] after.queue[i],
                    ) == key_entry(s, s.queue[i + 1]) && key_entry(after, after.queue[i]).target
                        != frame && share_count(
                        after.shares,
                        key_entry(after, after.queue[i]).target,
                    ) == 0 by {
                        let other = s.queue[i + 1];
                        assert(after.queue[i] == other);
                        assert(resident_key(s, other));
                        assert(other != key);
                        if other.0 == key.0 && slot(other.1) == slot(key.1) {
                            lemma_same_slot_same_key(other, key);
                        }
                        assert(present_in(s, other.0 as int, slot(other.1)));
                        assert(s.queue[0] == key);
                    }
                    assert forall|i: int, t: int, k: usize|
                        0 <= i < after.queue.len() && #[trigger] present_in(after, t, k) && !(t == (
                        #[trigger] after.queue[i]).0 && k == slot(
                            after.queue[i].1,
                        )) implies after.tables[t][k].target != key_entry(
                        after,
                        after.queue[i],
                    ).target by {
                        assert(present_in(s, t, k));
                        assert(after.queue[i] == s.queue[i + 1]);
                    }
                    assert forall|i: int|
                        0 <= i < after.frames.len() && after.frames[i] implies share_count(
                        after.shares,
                        #[trigger] after.frame_addr(i),
                    ) == 0 by {
                        assert(s.frames[i]);
                        assert(share_count(s.shares, s.frame_addr(i)) == 0);
                    }
                    assert(share_count(s.shares, key_entry(s, s.queue[0]).target) == 0);
                } else {
                    lemma_queue_suffix_sound(s);
                }
            }
        },
    }
}

/// A sound state is sound when the page registered first is registered no
/// longer.
pub proof fn lemma_queue_suffix_sound(s: State)
    requires
        sound(s),
        s.queue.len() > 0,
    ensures
        sound(State { queue: s.queue.drop_first(), ..s }),
{
    let after = State { queue: s.queue.drop_first(), ..s };
    assert forall|i: int| 0 <= i < after.queue.len() implies resident_key(
        after,
        #[trigger] after.queue[i],
    ) && share_count(after.shares, key_entry(after, after.queue[i]).target) == 0 by {
        assert(after.queue[i] == s.queue[i + 1]);
        assert(resident_key(s, s.queue[i + 1]));
    }
    assert forall|t: int, k: usize| #[trigger] present_in(after, t, k) implies !pool_free(
        after,
        after.tables[t][k].target,
    ) by {
        assert(present_in(s, t, k));
        if pool_free(after, after.tables[t][k].target) {
            let i = choose|i: int|
                0 <= i < after.frames.len() && after.frames[i] && #[trigger] after.frame_addr(i)
                    == after.tables[t][k].target;
            assert(s.frame_addr(i) == s.tables[t][k].target);
            assert(pool_free(s, s.tables[t][k].target));
        }
    }
    assert forall|i: int, t: int, k: usize|
        0 <= i < after.queue.len() && #[trigger] present_in(after, t, k) && !(t == (
        #[trigger] after.queue[i]).0 && k == slot(after.queue[i].1)) implies after.tables[t][k].target
        != key_entry(after, after.queue[i]).target by {
        assert(present_in(s, t, k));
        assert(after.queue[i] == s.queue[i + 1]);
    }
    assert forall|i: int| 0 <= i < after.frames.len() && after.frames[i] implies share_count(
        after.shares,
        #[trigger] after.frame_addr(i),
    ) == 0 by {
        assert(s.frames[i]);
        assert(share_count(s.shares, s.frame_addr(i)) == 0);
    }
}

/// Whether the frame at `frame` is spare in `s`: not free, bound to no
/// present page, and not counted as shared. Such is the frame that a
/// request for a frame has just handed out.
pub open spec fn spare(s: State, frame: PhysAddr) -> bool {
    &&& !pool_free(s, frame)
    &&& forall|t: int, k: usize| #[trigger] present_in(s, t, k) ==> s.tables[t][k].target != frame
    &&& share_count(s.shares, frame) == 0
}

/// In a sound state, the frame that a request for a frame hands out is spare
/// afterwards.
pub proof fn lemma_alloc_gives_spare(s: State)
    requires
        sound(s),
        s.alloc_frame().1 is Some,
    ensures
        sound(s.alloc_frame().0),
        spare(s.alloc_frame().0, s.alloc_frame().1.unwrap()),
{
    lemma_alloc_keeps_sound(s);
}

/// Binding a page to a spare frame leaves a sound state sound; the page is
/// then the only present page bound to that frame, and the frame is still
/// neither free nor counted.
pub proof fn lemma_install_spare_keeps_sound(s: State, table: usize, addr: VirtAddr, entry: Entry)
    requires
        sound(s),
        s.valid_table(table),
        spare(s, entry.target),
        entry.present,
        !entry.swapped,
    ensures
        sound(install(s, table, addr, entry)),
        install(s, table, addr, entry).queue == s.queue,
        install(s, table, addr, entry).shares == s.shares,
        !pool_free(install(s, table, addr, entry), entry.target),
        forall|t: int, k: usize|
            #[trigger] present_in(install(s, table, addr, entry), t, k) && !(t == table && k
                == slot(addr)) ==> install(s, table, addr, entry).tables[t][k].target
                != entry.target,
{
    let after = install(s, table, addr, entry);
    lemma_install(s, table, addr, entry);
    lemma_write_keeps_resident(s, table, addr, entry);
    assert forall|g: PhysAddr| pool_free(after, g) implies pool_free(s, g) by {
        let i = choose|i: int|
            0 <= i < after.frames.len() && after.frames[i] && #[trigger] after.frame_addr(i) == g;
        assert(s.frames[i] && s.frame_addr(i) == g);
    }
    assert forall|t: int, k: usize| #[trigger] present_in(after, t, k) implies (!pool_free(
        after,
        after.tables[t][k].target,
    )) && (!(t == table && k == slot(addr)) ==> present_in(s, t, k) && after.tables[t][k]
        == s.tables[t][k] && after.tables[t][k].target != entry.target) by {
        if !(t == table && k == slot(addr)) {
            assert(present_in(s, t, k));
        }
    }
    assert forall|i: int, t: int, k: usize|
        0 <= i < after.queue.len() && #[trigger] present_in(after, t, k) && !(t == (
        #[trigger] after.queue[i]).0 && k == slot(after.queue[i].1)) implies after.tables[t][k].target
        != key_entry(after, after.queue[i]).target by {
        let key = s.queue[i];
        assert(resident_key(s, key));
        assert(present_in(s, key.0 as int, slot(key.1)));
        if key.0 == table && slot(key.1) == slot(addr) {
            assert(present_in(s, t, k));
        } else if t == table && k == slot(addr) {
        } else {
            assert(present_in(s, t, k));
        }
    }
    assert forall|i: int| 0 <= i < after.queue.len() implies share_count(
        after.shares,
        key_entry(after, #[trigger] after.queue[i]).target,
    ) == 0 by {
        let key = s.queue[i];
        assert(resident_key(s, key));
    }
    assert forall|i: int| 0 <= i < after.frames.len() && after.frames[i] implies share_count(
        after.shares,
        #[trigger] after.frame_addr(i),
    ) == 0 by {
        assert(s.frames[i]);
        assert(share_count(s.shares, s.frame_addr(i)) == 0);
    }
}

/// Registering a present page whose frame is bound to no other present page
/// and is not counted leaves a sound state sound.
pub proof fn lemma_register_keeps_sound(s: State, table: usize, addr: VirtAddr)
    requires
        sound(s),
        s.valid_table(table),
        present_in(s, table as int, slot(addr)),
        !s.tables[table as int][slot(addr)].swapped,
        share_count(s.shares, s.tables[table as int][slot(addr)].target) == 0,
        forall|t: int, k: usize|
            #[trigger] present_in(s, t, k) && !(t == table && k == slot(addr))
                ==> s.tables[t][k].target != s.tables[table as int][slot(addr)].target,
    ensures
        sound(s.set_swappable(table, addr)),
{
    let after = s.set_swappable(table, addr);
    let key = (table, page_start(addr));
    assert(slot(page_start(addr)) == slot(addr));
    lemma_set_swappable_keeps_resident(s, table, addr);
    lemma_position(s.queue, key);
    assert forall|g: PhysAddr| pool_free(after, g) implies pool_free(s, g) by {
        let i = choose|i: int|
            0 <= i < after.frames.len() && after.frames[i] && #[trigger] after.frame_addr(i) == g;
        assert(s.frames[i] && s.frame_addr(i) == g);
    }
    assert forall|t: int, k: usize| #[trigger] present_in(after, t, k) implies !pool_free(
        after,
        after.tables[t][k].target,
    ) by {
        assert(present_in(s, t, k));
    }
    assert forall|i: int, t: int, k: usize|
        0 <= i < after.queue.len() && #[trigger] present_in(after, t, k) && !(t == (
        #[trigger] after.queue[i]).0 && k == slot(after.queue[i].1)) implies after.tables[t][k].target
        != key_entry(after, after.queue[i]).target by {
        assert(present_in(s, t, k));
        if i < s.queue.len() {
            assert(after.queue[i] == s.queue[i]);
        } else {
            assert(after.queue[i] == key);
        }
    }
    assert forall|i: int| 0 <= i < after.queue.len() implies share_count(
        after.shares,
        key_entry(after, #[trigger] after.queue[i]).target,
    ) == 0 by {
        if i < s.queue.len() {
            assert(after.queue[i] == s.queue[i]);
        } else {
            assert(after.queue[i] == key);
        }
    }
    assert forall|i: int| 0 <= i < after.frames.len() && after.frames[i] implies share_count(
        after.shares,
        #[trigger] after.frame_addr(i),
    ) == 0 by {
        assert(share_count(s.shares, s.frame_addr(i)) == 0);
    }
}

/// Counting a mapping of a frame that is not free and is the frame of no
/// page that may be evicted leaves a sound state sound.
pub proof fn lemma_share_keeps_sound(s: State, frame: PhysAddr, writable: bool)
    requires
        sound(s),
        !pool_free(s, frame),
        forall|i: int| 0 <= i < s.queue.len() ==> key_entry(s, #[trigger] s.queue[i]).target != frame,
    ensures
        sound(share(s, frame, writable).0),
{
    let after = share(s, frame, writable).0;
    assert forall|i: int| 0 <= i < after.queue.len() implies resident_key(
        after,
        #[trigger] after.queue[i],
    ) by {
        assert(resident_key(s, s.queue[i]));
    }
    assert forall|g: PhysAddr| pool_free(after, g) implies pool_free(s, g) by {
        let i = choose|i: int|
            0 <= i < after.frames.len() && after.frames[i] && #[trigger] after.frame_addr(i) == g;
        assert(s.frames[i] && s.frame_addr(i) == g);
    }
    assert forall|t: int, k: usize| #[trigger] present_in(after, t, k) implies !pool_free(
        after,
        after.tables[t][k].target,
    ) by {
        assert(present_in(s, t, k));
    }
    assert forall|i: int, t: int, k: usize|
        0 <= i < after.queue.len() && #[trigger] present_in(after, t, k) && !(t == (
        #[trigger] after.queue[i]).0 && k == slot(after.queue[i].1)) implies after.tables[t][k].target
        != key_entry(after, after.queue[i]).target by {
        assert(present_in(s, t, k));
        assert(after.queue[i] == s.queue[i]);
    }
    assert forall|i: int| 0 <= i < after.frames.len() && after.frames[i] implies share_count(
        after.shares,
        #[trigger] after.frame_addr(i),
    ) == 0 by {
        assert(share_count(s.shares, s.frame_addr(i)) == 0);
        if s.frame_addr(i) == frame {
            assert(pool_free(s, frame));
        }
    }
    assert forall|i: int| 0 <= i < after.queue.len() implies share_count(
        after.shares,
        key_entry(after, #[trigger] after.queue[i]).target,
    ) == 0 by {
        assert(key_entry(s, s.queue[i]).target != frame);
        assert(share_count(s.shares, key_entry(s, s.queue[i]).target) == 0);
    }
}

/// Whether mapping the page at `addr` in `table` under `policy` is sure to
/// leave a sound state sound. The eager policy always does. The swappable
/// policy does unless the page is registered and its address listed as delayed; the copy-on-write
/// policy does for a page that is not registered; the direct policy does
/// for a page that is not registered and a frame that is neither free nor
/// the frame of a page that may be evicted.
pub open spec fn map_keeps_sound(policy: Policy, s: State, table: usize, addr: VirtAddr) -> bool {
    match policy {
        Policy::Eager(h) => true,
        Policy::Swappable { flags, delay } => !(lists(policy, addr) && registered_at(
            s,
            table,
            slot(addr) as int,
        )),
        Policy::CopyOnWrite(h) => !registered_at(s, table, slot(addr) as int),
        Policy::Direct(h) => {
            &&& !registered_at(s, table, slot(addr) as int)
            &&& !pool_free(s, h.spec_target(addr))
            &&& forall|i: int|
                0 <= i < s.queue.len() ==> key_entry(s, #[trigger] s.queue[i]).target
                    != h.spec_target(addr)
        },
    }
}

/// Writing to the entry of a page that is not registered an entry that is
/// not present, or one bound to a frame that is neither free nor the frame
/// of a page that may be evicted, leaves a sound state sound.
pub proof fn lemma_write_unregistered_keeps_sound(s: State, table: usize, addr: VirtAddr, entry: Entry)
    requires
        sound(s),
        s.valid_table(table),
        !registered_at(s, table, slot(addr) as int),
        entry.present ==> !pool_free(s, entry.target) && forall|i: int|
            0 <= i < s.queue.len() ==> key_entry(s, #[trigger] s.queue[i]).target != entry.target,
    ensures
        sound(install(s, table, addr, entry)),
        sound(s.update(table, addr, entry)),
        install(s, table, addr, entry).queue == s.queue,
{
    lemma_install(s, table, addr, entry);
    lemma_write_keeps_resident(s, table, addr, entry);
    let installed = install(s, table, addr, entry);
    let updated = s.update(table, addr, entry);
    assert forall|g: PhysAddr| (pool_free(installed, g) || pool_free(updated, g)) implies pool_free(
        s,
        g,
    ) by {
        if pool_free(installed, g) {
            let i = choose|i: int|
                0 <= i < installed.frames.len() && installed.frames[i]
                    && #[trigger] installed.frame_addr(i) == g;
            assert(s.frames[i] && s.frame_addr(i) == g);
        } else {
            let i = choose|i: int|
                0 <= i < updated.frames.len() && updated.frames[i] && #[trigger] updated.frame_addr(
                    i,
                ) == g;
            assert(s.frames[i] && s.frame_addr(i) == g);
        }
    }
    assert forall|i: int| 0 <= i < s.queue.len() implies key_entry(installed, #[trigger] s.queue[i])
        == key_entry(s, s.queue[i]) && key_entry(updated, s.queue[i]) == key_entry(s, s.queue[i]) by {
        let key = s.queue[i];
        assert(resident_key(s, key));
        if key.0 == table && slot(key.1) == slot(addr) {
            assert(registered_at(s, table, slot(addr) as int));
        }
    }
    assert forall|t: int, k: usize| #[trigger] present_in(installed, t, k) implies !pool_free(
        installed,
        installed.tables[t][k].target,
    ) by {
        if !(t == table && k == slot(addr)) {
            assert(present_in(s, t, k));
        }
    }
    assert forall|t: int, k: usize| #[trigger] present_in(updated, t, k) implies !pool_free(
        updated,
        updated.tables[t][k].target,
    ) by {
        if !(t == table && k == slot(addr)) {
            assert(present_in(s, t, k));
        }
    }
    assert forall|i: int, t: int, k: usize|
        0 <= i < installed.queue.len() && #[trigger] present_in(installed, t, k) && !(t == (
        #[trigger] installed.queue[i]).0 && k == slot(
            installed.queue[i].1,
        )) implies installed.tables[t][k].target != key_entry(installed, installed.queue[i]).target by {
        assert(key_entry(installed, s.queue[i]) == key_entry(s, s.queue[i]));
        if !(t == table && k == slot(addr)) {
            assert(present_in(s, t, k));
        }
    }
    assert forall|i: int, t: int, k: usize|
        0 <= i < updated.queue.len() && #[trigger] present_in(updated, t, k) && !(t == (
        #[trigger] updated.queue[i]).0 && k == slot(
            updated.queue[i].1,
        )) implies updated.tables[t][k].target != key_entry(updated, updated.queue[i]).target by {
        assert(key_entry(updated, s.queue[i]) == key_entry(s, s.queue[i]));
        if !(t == table && k == slot(addr)) {
            assert(present_in(s, t, k));
        }
    }
    assert forall|i: int| 0 <= i < s.queue.len() implies share_count(
        installed.shares,
        key_entry(installed, #[trigger] installed.queue[i]).target,
    ) == 0 && share_count(updated.shares, key_entry(updated, updated.queue[i]).target) == 0 by {
        assert(key_entry(installed, s.queue[i]) == key_entry(s, s.queue[i]));
        assert(share_count(s.shares, key_entry(s, s.queue[i]).target) == 0);
    }
    assert forall|i: int| 0 <= i < s.frames.len() && s.frames[i] implies share_count(
        installed.shares,
        #[trigger] installed.frame_addr(i),
    ) == 0 && share_count(updated.shares, updated.frame_addr(i)) == 0 by {
        assert(share_count(s.shares, s.frame_addr(i)) == 0);
    }
    assert(spare_frames_uncounted(updated)) by {
        assert forall|i: int| 0 <= i < updated.frames.len() && updated.frames[i] implies share_count(
            updated.shares,
            #[trigger] updated.frame_addr(i),
        ) == 0 by {
            assert(share_count(s.shares, s.frame_addr(i)) == 0);
        }
    }
}

/// Mapping a page leaves a sound state sound, under the condition that
/// `map_keeps_sound` names.
pub proof fn lemma_map_keeps_sound(policy: Policy, s: State, table: usize, addr: VirtAddr)
    requires
        sound(s),
        s.valid_table(table),
        map_keeps_sound(policy, s, table, addr),
    ensures
        sound(policy.map(s, table, addr).0),
{
    let after = policy.map(s, table, addr).0;
    match policy {
        Policy::Direct(h) => {
            let entry = h.flags.applied(Entry::mapped(h.spec_target(addr)));
            lemma_write_unregistered_keeps_sound(s, table, addr, entry);
        },
        Policy::Eager(h) => {
            lemma_alloc_keeps_sound(s);
            let (s1, got) = s.alloc_frame();
            if got is Some {
                let entry = h.flags.applied(Entry::mapped(got.unwrap()));
                lemma_install_spare_keeps_sound(s1, table, addr, entry);
            }
        },
        Policy::CopyOnWrite(h) => {
            lemma_alloc_keeps_sound(s);
            lemma_alloc_keeps_resident(s);
            let (s1, got) = s.alloc_frame();
            if got is Some {
                let target = got.unwrap();
                let entry = Entry { shared: true, ..h.flags.applied(Entry::mapped(target)) };
                lemma_install_spare_keeps_sound(s1, table, addr, entry);
                let s2 = install(s1, table, addr, entry);
                lemma_install(s1, table, addr, entry);
                assert(!registered_at(s1, table, slot(addr) as int));
                assert forall|i: int| 0 <= i < s2.queue.len() implies key_entry(
                    s2,
                    #[trigger] s2.queue[i],
                ).target != target by {
                    let key = s1.queue[i];
                    assert(s2.queue[i] == key);
                    assert(resident_key(s1, key));
                    if key.0 == table && slot(key.1) == slot(addr) {
                        assert(registered_at(s1, table, slot(addr) as int));
                    }
                    assert(present_in(s2, key.0 as int, slot(key.1)));
                }
                lemma_share_keeps_sound(s2, target, !h.flags.readonly);
            }
        },
        Policy::Swappable { flags, delay } => {
            if lists(policy, addr) {
                lemma_write_unregistered_keeps_sound(s, table, addr, unbacked(flags));
            } else {
                lemma_alloc_keeps_sound(s);
                let (s1, got) = s.alloc_frame();
                if got is Some {
                    let entry = flags.applied(Entry::mapped(got.unwrap()));
                    lemma_install_spare_keeps_sound(s1, table, addr, entry);
                    let s2 = install(s1, table, addr, entry);
                    lemma_install(s1, table, addr, entry);
                    assert(present_in(s2, table as int, slot(addr)));
                    lemma_register_keeps_sound(s2, table, addr);
                }
            }
        },
    }
}

/// Mapping a page under a policy that is not swappable registers no page.
pub proof fn lemma_map_registers_nothing(policy: Policy, s: State, table: usize, addr: VirtAddr)
    requires
        resident(s),
        s.valid_table(table),
        !(policy is Swappable),
    ensures
        forall|t: usize, q: int|
            #[trigger] registered_at(policy.map(s, table, addr).0, t, q) ==> registered_at(s, t, q),
{
    let after = policy.map(s, table, addr).0;
    lemma_alloc_keeps_resident(s);
    let s1 = s.alloc_frame().0;
    assert forall|t: usize, q: int| #[trigger] registered_at(after, t, q) implies registered_at(
        s,
        t,
        q,
    ) by {
        let i = choose|i: int|
            0 <= i < after.queue.len() && (#[trigger] after.queue[i]).0 == t && slot(
                after.queue[i].1,
            ) == q;
        if after.queue == s.queue {
            assert(s.queue[i] == after.queue[i]);
        } else {
            assert(after.queue == s1.queue);
            assert(s1.queue[i] == after.queue[i]);
            assert(registered_at(s1, t, q));
        }
    }
}

/// Mapping one page leaves the condition for mapping another as it was.
pub proof fn lemma_map_keeps_condition(
    policy: Policy,
    s: State,
    table: usize,
    addr: VirtAddr,
    other: VirtAddr,
)
    requires
        sound(s),
        s.valid_table(table),
        map_keeps_sound(policy, s, table, addr),
        map_keeps_sound(policy, s, table, other),
        slot(other) != slot(addr),
    ensures
        map_keeps_sound(policy, policy.map(s, table, addr).0, table, other),
{
    let after = policy.map(s, table, addr).0;
    lemma_map_keeps_resident(policy, s, table, addr);
    if registered_at(after, table, slot(other) as int) {
        assert(registered_at(s, table, slot(other) as int));
    }
    match policy {
        Policy::Direct(h) => {
            let entry = h.flags.applied(Entry::mapped(h.spec_target(addr)));
            lemma_install(s, table, addr, entry);
            if pool_free(after, h.spec_target(other)) {
                let i = choose|i: int|
                    0 <= i < after.frames.len() && after.frames[i] && #[trigger] after.frame_addr(i)
                        == h.spec_target(other);
                assert(s.frames[i] && s.frame_addr(i) == h.spec_target(other));
                assert(pool_free(s, h.spec_target(other)));
            }
            assert forall|i: int| 0 <= i < after.queue.len() implies key_entry(
                after,
                #[trigger] after.queue[i],
            ).target != h.spec_target(other) by {
                let key = s.queue[i];
                assert(after.queue[i] == key);
                assert(resident_key(s, key));
                if key.0 == table && slot(key.1) == slot(addr) {
                    assert(registered_at(s, table, slot(addr) as int));
                }
                assert(key_entry(after, key) == key_entry(s, key));
            }
        },
        _ => {},
    }
}

/// Mapping the pages `page` up to `end` leaves a sound state sound, where
/// mapping each of them does.
pub proof fn lemma_map_pages_keeps_sound(policy: Policy, s: State, table: usize, page: int, end: int)
    requires
        sound(s),
        s.valid_table(table),
        0 <= page,
        (end - 1) * 4096 <= usize::MAX,
        forall|q: int|
            page <= q < end ==> map_keeps_sound(policy, s, table, #[trigger] page_addr(q)),
    ensures
        sound(map_pages(policy, s, table, page, end).0),
    decreases end - page,
{
    let whole = map_pages(policy, s, table, page, end);
    if page < end {
        let addr = page_addr(page);
        assert(slot(addr) == page);
        let (s1, done1) = policy.map(s, table, addr);
        assert(map_keeps_sound(policy, s, table, page_addr(page)));
        lemma_map_keeps_sound(policy, s, table, addr);
        lemma_map_keeps_resident(policy, s, table, addr);
        if done1 is Ok {
            assert forall|q: int| page + 1 <= q < end implies map_keeps_sound(
                policy,
                s1,
                table,
                #[trigger] page_addr(q),
            ) by {
                assert(slot(page_addr(q)) == q);
                lemma_map_keeps_condition(policy, s, table, addr, page_addr(q));
            }
            lemma_map_pages_keeps_sound(policy, s1, table, page + 1, end);
            assert(whole == map_pages(policy, s1, table, page + 1, end));
        } else {
            assert(whole == (s1, done1));
        }
    } else {
        assert(whole.0 == s);
    }
}

/// Whether mapping every page of `area` in `table` is sure to leave a sound
/// state sound.
pub open spec fn area_maps_soundly(area: Area, s: State, table: usize) -> bool {
    forall|q: int| area.has_page(q) ==> map_keeps_sound(area.policy, s, table, #[trigger] page_addr(q))
}

/// A push leaves a sound state sound, where mapping each page of the area
/// does: always for an eager area, and for any area none of whose pages is
/// registered, unless it is a direct area onto free or evictable frames.
pub proof fn lemma_push_keeps_sound(space: Space, s: State, area: Area)
    requires
        sound(s),
        s.valid_table(space.table),
        area_maps_soundly(area, s, space.table),
    ensures
        sound(space.push(s, area).0),
{
    if !overlaps_any(space.areas, area) {
        assert forall|q: int| area.first_page() <= q < area.end_page() implies map_keeps_sound(
            area.policy,
            s,
            space.table,
            #[trigger] page_addr(q),
        ) by {
            assert(area.has_page(q));
        }
        lemma_map_pages_keeps_sound(area.policy, s, space.table, area.first_page(), area.end_page());
    }
}

/// Mapping the pages `page` up to `end` under a policy that is not
/// swappable registers no page.
pub proof fn lemma_map_pages_registers_nothing(
    policy: Policy,
    s: State,
    table: usize,
    page: int,
    end: int,
)
    requires
        resident(s),
        s.valid_table(table),
        !(policy is Swappable),
        0 <= page,
        (end - 1) * 4096 <= usize::MAX,
    ensures
        forall|t: usize, q: int|
            #[trigger] registered_at(map_pages(policy, s, table, page, end).0, t, q)
                ==> registered_at(s, t, q),
    decreases end - page,
{
    let whole = map_pages(policy, s, table, page, end);
    if page < end {
        let addr = page_addr(page);
        let (s1, done1) = policy.map(s, table, addr);
        lemma_map_registers_nothing(policy, s, table, addr);
        lemma_map_keeps_resident(policy, s, table, addr);
        if done1 is Ok {
            lemma_map_pages_registers_nothing(policy, s1, table, page + 1, end);
            let tail = map_pages(policy, s1, table, page + 1, end);
            assert(whole == tail);
            assert forall|t: usize, q: int| #[trigger] registered_at(tail.0, t, q) implies registered_at(
                s,
                t,
                q,
            ) by {
                assert(registered_at(s1, t, q));
            }
        } else {
            assert(whole == (s1, done1));
        }
    } else {
        assert(whole.0 == s);
    }
}

/// After a push, still only swappable areas of the set have registered
/// pages, provided that held before and the area pushed is swappable or has
/// no page registered.
pub proof fn lemma_push_keeps_tracks(space: Space, s: State, area: Area)
    requires
        resident(s),
        space.wf(),
        s.valid_table(space.table),
        tracks(space, s),
        area.policy is Swappable || unregistered_area(s, space.table, area),
        forall|q: int|
            area.has_page(q) ==> !(lists(area.policy, #[trigger] page_addr(q)) && registered_at(
                s,
                space.table,
                q,
            )),
    ensures
        tracks(space.push(s, area).1, space.push(s, area).0),
{
    let (after, pushed, done) = space.push(s, area);
    let table = space.table;
    if !overlaps_any(space.areas, area) {
        lemma_map_pages_keeps_resident(area.policy, s, table, area.first_page(), area.end_page());
        if !(area.policy is Swappable) {
            lemma_map_pages_registers_nothing(
                area.policy,
                s,
                table,
                area.first_page(),
                area.end_page(),
            );
        }
        assert forall|j: int| 0 <= j < pushed.areas.len() implies (#[trigger] pushed.areas[j]).policy is Swappable
            || unregistered_area(after, table, pushed.areas[j]) by {
            let a = pushed.areas[j];
            if !(a.policy is Swappable) {
                assert forall|q: int| a.has_page(q) implies !#[trigger] registered_at(
                    after,
                    table,
                    q,
                ) by {
                    if j < space.areas.len() {
                        assert(a == space.areas[j]);
                        assert(unregistered_area(s, table, space.areas[j]));
                        assert(!area.overlaps(space.areas[j]));
                        assert(!(area.first_page() <= q < area.end_page()));
                        if registered_at(after, table, q) {
                            assert(registered_at(s, table, q));
                        }
                    } else {
                        assert(a == area);
                        assert(done is Ok);
                        if registered_at(after, table, q) {
                            assert(registered_at(s, table, q));
                        }
                    }
                }
            }
        }
    }
}

/// Soundness speaks of the frame pool, the page tables, the pages that may
/// be evicted and the count of mappings only: a state that agrees with a
/// sound one on these is sound.
pub proof fn lemma_same_core_sound(s: State, other: State)
    requires
        sound(s),
        other.frames == s.frames,
        other.offset == s.offset,
        other.tables == s.tables,
        other.queue == s.queue,
        other.shares == s.shares,
    ensures
        sound(other),
{
    assert forall|i: int| 0 <= i < other.queue.len() implies resident_key(
        other,
        #[trigger] other.queue[i],
    ) by {
        assert(resident_key(s, s.queue[i]));
    }
    assert forall|t: int, k: usize| #[trigger] present_in(other, t, k) implies !pool_free(
        other,
        other.tables[t][k].target,
    ) by {
        assert(present_in(s, t, k));
        if pool_free(other, other.tables[t][k].target) {
            let i = choose|i: int|
                0 <= i < other.frames.len() && other.frames[i] && #[trigger] other.frame_addr(i)
                    == other.tables[t][k].target;
            assert(s.frame_addr(i) == s.tables[t][k].target);
            assert(pool_free(s, s.tables[t][k].target));
        }
    }
    assert forall|i: int, t: int, k: usize|
        0 <= i < other.queue.len() && #[trigger] present_in(other, t, k) && !(t == (
        #[trigger] other.queue[i]).0 && k == slot(other.queue[i].1)) implies other.tables[t][k].target
        != key_entry(other, other.queue[i]).target by {
        assert(present_in(s, t, k));
        assert(s.queue[i] == other.queue[i]);
    }
    assert forall|i: int| 0 <= i < other.frames.len() && other.frames[i] implies share_count(
        other.shares,
        #[trigger] other.frame_addr(i),
    ) == 0 by {
        assert(share_count(s.shares, s.frame_addr(i)) == 0);
    }
    assert forall|i: int| 0 <= i < other.queue.len() implies share_count(
        other.shares,
        key_entry(other, #[trigger] other.queue[i]).target,
    ) == 0 by {
        assert(share_count(s.shares, key_entry(s, s.queue[i]).target) == 0);
    }
}

/// Writing back an entry whose present bit, swapped bit and frame are as
/// they were leaves a sound state sound.
pub proof fn lemma_rewrite_keeps_sound(s: State, table: usize, addr: VirtAddr, entry: Entry)
    requires
        sound(s),
        s.valid_table(table),
        s.entry(table, addr) is Some,
        entry.present == s.entry(table, addr).unwrap().present,
        entry.swapped == s.entry(table, addr).unwrap().swapped,
        entry.target == s.entry(table, addr).unwrap().target,
    ensures
        sound(s.update(table, addr, entry)),
{
    let after = s.update(table, addr, entry);
    assert forall|t: int, k: usize| #[trigger] present_in(after, t, k) implies present_in(s, t, k)
        && after.tables[t][k].target == s.tables[t][k].target by {}
    assert forall|t: int, k: usize| #[trigger] present_in(s, t, k) implies present_in(after, t, k)
        && after.tables[t][k].target == s.tables[t][k].target by {}
    assert forall|i: int| 0 <= i < after.queue.len() implies resident_key(
        after,
        #[trigger] after.queue[i],
    ) && key_entry(after, after.queue[i]).target == key_entry(s, s.queue[i]).target by {
        assert(resident_key(s, s.queue[i]));
    }
    assert forall|t: int, k: usize| #[trigger] present_in(after, t, k) implies !pool_free(
        after,
        after.tables[t][k].target,
    ) by {
        assert(present_in(s, t, k));
        if pool_free(after, after.tables[t][k].target) {
            let i = choose|i: int|
                0 <= i < after.frames.len() && after.frames[i] && #[trigger] after.frame_addr(i)
                    == after.tables[t][k].target;
            assert(s.frame_addr(i) == s.tables[t][k].target);
            assert(pool_free(s, s.tables[t][k].target));
        }
    }
    assert forall|i: int, t: int, k: usize|
        0 <= i < after.queue.len() && #[trigger] present_in(after, t, k) && !(t == (
        #[trigger] after.queue[i]).0 && k == slot(after.queue[i].1)) implies after.tables[t][k].target
        != key_entry(after, after.queue[i]).target by {
        assert(present_in(s, t, k));
        assert(s.queue[i] == after.queue[i]);
        assert(key_entry(after, after.queue[i]).target == key_entry(s, s.queue[i]).target);
    }
    assert forall|i: int| 0 <= i < after.frames.len() && after.frames[i] implies share_count(
        after.shares,
        #[trigger] after.frame_addr(i),
    ) == 0 by {
        assert(share_count(s.shares, s.frame_addr(i)) == 0);
    }
    assert forall|i: int| 0 <= i < after.queue.len() implies share_count(
        after.shares,
        key_entry(after, #[trigger] after.queue[i]).target,
    ) == 0 by {
        assert(key_entry(after, after.queue[i]).target == key_entry(s, s.queue[i]).target);
        assert(share_count(s.shares, key_entry(s, s.queue[i]).target) == 0);
    }
}

/// Dropping one mapping of a frame from the count leaves a sound state sound.
pub proof fn lemma_unshare_keeps_sound(s: State, frame: PhysAddr)
    requires
        sound(s),
    ensures
        sound(unshare(s, frame)),
{
    let after = unshare(s, frame);
    assert forall|i: int| 0 <= i < after.queue.len() implies resident_key(
        after,
        #[trigger] after.queue[i],
    ) by {
        assert(resident_key(s, s.queue[i]));
    }
    assert forall|t: int, k: usize| #[trigger] present_in(after, t, k) implies !pool_free(
        after,
        after.tables[t][k].target,
    ) by {
        assert(present_in(s, t, k));
        if pool_free(after, after.tables[t][k].target) {
            let i = choose|i: int|
                0 <= i < after.frames.len() && after.frames[i] && #[trigger] after.frame_addr(i)
                    == after.tables[t][k].target;
            assert(s.frame_addr(i) == s.tables[t][k].target);
            assert(pool_free(s, s.tables[t][k].target));
        }
    }
    assert forall|i: int, t: int, k: usize|
        0 <= i < after.queue.len() && #[trigger] present_in(after, t, k) && !(t == (
        #[trigger] after.queue[i]).0 && k == slot(after.queue[i].1)) implies after.tables[t][k].target
        != key_entry(after, after.queue[i]).target by {
        assert(present_in(s, t, k));
        assert(s.queue[i] == after.queue[i]);
    }
    assert forall|i: int| 0 <= i < after.frames.len() && after.frames[i] implies share_count(
        after.shares,
        #[trigger] after.frame_addr(i),
    ) == 0 by {
        assert(share_count(s.shares, s.frame_addr(i)) == 0);
    }
    assert forall|i: int| 0 <= i < after.queue.len() implies share_count(
        after.shares,
        key_entry(after, #[trigger] after.queue[i]).target,
    ) == 0 by {
        assert(share_count(s.shares, key_entry(s, s.queue[i]).target) == 0);
    }
}

/// A fault under the swappable policy leaves a sound state sound.
pub proof fn lemma_swap_fault_keeps_sound(
    flags: MemoryAttr,
    delay: Seq<VirtAddr>,
    s: State,
    table: usize,
    addr: VirtAddr,
)
    requires
        sound(s),
        s.valid_table(table),
    ensures
        sound(SwapMemoryHandler::spec_page_fault(flags, delay, s, table, addr).0),
{
    lemma_alloc_keeps_sound(s);
    lemma_alloc_keeps_resident(s);
    let (s1, got) = s.alloc_frame();
    match s.entry(table, addr) {
        None => {},
        Some(e) => {
            if got is Some {
                let target = got.unwrap();
                if !e.present {
                    if registered_at(s, table, slot(addr) as int) {
                        let i = choose|i: int|
                            0 <= i < s.queue.len() && (#[trigger] s.queue[i]).0 == table && slot(
                                s.queue[i].1,
                            ) == slot(addr) as int;
                        assert(resident_key(s, s.queue[i]));
                    }
                    assert(s1.tables[table as int].contains_key(slot(addr)));
                    assert(s1.entry(table, addr) == Some(e));
                    if !e.swapped {
                        let entry = flags.applied(Entry { target, ..e });
                        lemma_install_spare_keeps_sound(s1, table, addr, entry);
                        lemma_install(s1, table, addr, entry);
                        let s2 = s1.update(table, addr, entry);
                        assert(s2 =~~= install(s1, table, addr, entry));
                        assert(present_in(s2, table as int, slot(addr)));
                        lemma_register_keeps_sound(s2, table, addr);
                    } else {
                        let loaded = Entry { target, swapped: false, present: true, ..e };
                        lemma_install_spare_keeps_sound(s1, table, addr, loaded);
                        lemma_install(s1, table, addr, loaded);
                        let written = s1.update(table, addr, loaded);
                        assert(written =~~= install(s1, table, addr, loaded));
                        let (s2, r) = s1.swap_load(table, addr, target);
                        if r is Ok {
                            lemma_same_core_sound(written, s2);
                            assert(present_in(s2, table as int, slot(addr)));
                            assert forall|t: int, k: usize|
                                #[trigger] present_in(s2, t, k) && !(t == table && k == slot(
                                    addr,
                                )) implies s2.tables[t][k].target != s2.tables[table as int][slot(
                                    addr,
                                )].target by {
                                assert(present_in(written, t, k));
                            }
                            lemma_register_keeps_sound(s2, table, addr);
                            assert(s1.swap_in(table, addr, target).0 == s2.set_swappable(table, addr));
                        }
                    }
                }
            }
        },
    }
}

/// A write fault under the copy-on-write policy on a page that is not
/// registered as one that may be evicted leaves a sound state sound.
pub proof fn lemma_cow_fault_keeps_sound(h: CowMemoryHandler, s: State, table: usize, addr: VirtAddr)
    requires
        sound(s),
        s.valid_table(table),
        !registered_at(s, table, slot(addr) as int),
    ensures
        sound(h.spec_page_fault(s, table, addr).0),
{
    if !h.flags.readonly {
        match s.entry(table, addr) {
            None => {},
            Some(e) => {
                lemma_rewrite_keeps_sound(s, table, addr, Entry { writable: true, ..e });
                let s0 = unshare(s, e.target);
                lemma_unshare_keeps_sound(s, e.target);
                lemma_alloc_keeps_sound(s0);
                lemma_alloc_keeps_resident(s0);
                let (s1, got) = s0.alloc_frame();
                assert(!registered_at(s0, table, slot(addr) as int)) by {
                    if registered_at(s0, table, slot(addr) as int) {
                        let i = choose|i: int|
                            0 <= i < s0.queue.len() && (#[trigger] s0.queue[i]).0 == table && slot(
                                s0.queue[i].1,
                            ) == slot(addr) as int;
                        assert(s.queue[i] == s0.queue[i]);
                    }
                }
                match got {
                    None => {},
                    Some(target) => {
                        match s1.entry(table, addr) {
                            None => {},
                            Some(e1) => {
                                let entry = Entry { writable: true, target, ..e1 };
                                assert(!registered_at(s1, table, slot(addr) as int));
                                assert forall|i: int| 0 <= i < s1.queue.len() implies key_entry(
                                    s1,
                                    #[trigger] s1.queue[i],
                                ).target != target by {}
                                lemma_write_unregistered_keeps_sound(s1, table, addr, entry);
                                let s2 = s1.update(table, addr, entry);
                                assert forall|i: int| 0 <= i < s2.queue.len() implies key_entry(
                                    s2,
                                    #[trigger] s2.queue[i],
                                ).target != target by {
                                    let key = s1.queue[i];
                                    assert(s2.queue[i] == key);
                                    assert(resident_key(s1, key));
                                    if key.0 == table && slot(key.1) == slot(addr) {
                                        assert(registered_at(s1, table, slot(addr) as int));
                                    }
                                    assert(key_entry(s2, key) == key_entry(s1, key));
                                }
                                assert(!pool_free(s2, target)) by {
                                    if pool_free(s2, target) {
                                        let i = choose|i: int|
                                            0 <= i < s2.frames.len() && s2.frames[i]
                                                && #[trigger] s2.frame_addr(i) == target;
                                        assert(s1.frames[i] && s1.frame_addr(i) == target);
                                        assert(pool_free(s1, target));
                                    }
                                }
                                lemma_share_keeps_sound(s2, target, !h.flags.readonly);
                                let (s3, r) = share(s2, target, !h.flags.readonly);
                                if r is Ok {
                                    let data = crate::phys::content(s.memory, e.target);
                                    lemma_same_core_sound(s3, crate::handler::fill(s3, target, data));
                                }
                            },
                        }
                    },
                }
            },
        }
    }
}

/// Handling a fault on a page leaves a sound state sound, provided that
/// under the copy-on-write policy the page is not registered as one that may
/// be evicted.
pub proof fn lemma_page_fault_keeps_sound(policy: Policy, s: State, table: usize, addr: VirtAddr)
    requires
        sound(s),
        s.valid_table(table),
        policy is CopyOnWrite ==> !registered_at(s, table, slot(addr) as int),
    ensures
        sound(policy.page_fault(s, table, addr).0),
{
    match policy {
        Policy::Direct(h) => {},
        Policy::Eager(h) => {},
        Policy::CopyOnWrite(h) => {
            lemma_cow_fault_keeps_sound(h, s, table, addr);
        },
        Policy::Swappable { flags, delay } => {
            lemma_swap_fault_keeps_sound(flags, delay, s, table, addr);
        },
    }
}

/// Whether carrying the page at `addr` over to table `inpt` under `policy`
/// is sure to leave a sound state sound. The eager policy always does. The
/// swappable policy does for a page that is not registered in the new
/// table. The copy-on-write policy does where the new table is not the live
/// one, the live table has the page present, and the page is registered in
/// neither. The direct policy does where mapping the page does.
pub open spec fn clone_keeps_sound(policy: Policy, s: State, inpt: usize, addr: VirtAddr) -> bool {
    match policy {
        Policy::Eager(h) => true,
        Policy::Swappable { flags, delay } => !registered_at(s, inpt, slot(addr) as int),
        Policy::CopyOnWrite(h) => {
            &&& inpt != s.active
            &&& present_in(s, s.active as int, slot(addr))
            &&& !registered_at(s, s.active, slot(addr) as int)
            &&& !registered_at(s, inpt, slot(addr) as int)
        },
        Policy::Direct(h) => map_keeps_sound(policy, s, inpt, addr),
    }
}

/// Carrying a page over registers no page but, at most, the page itself in
/// the new table, and changes the entry of no page that is not registered,
/// but for the page itself in the new table and in the live one.
pub proof fn lemma_clone_page_effects(policy: Policy, s: State, inpt: usize, addr: VirtAddr)
    requires
        resident(s),
        s.valid_table(inpt),
        s.valid_table(s.active),
    ensures
        policy.map_clone(s, inpt, addr).0.tables.len() == s.tables.len(),
        policy.map_clone(s, inpt, addr).0.active == s.active,
        forall|t: usize, q: int|
            #[trigger] registered_at(policy.map_clone(s, inpt, addr).0, t, q) && !(t == inpt && q
                == slot(addr)) ==> registered_at(s, t, q),
        forall|t: int, k: usize|
            0 <= t < s.tables.len() && !registered_at(s, t as usize, k as int) && !(k == slot(addr)
                && (t == inpt || t == s.active)) ==> {
                &&& (#[trigger] policy.map_clone(s, inpt, addr).0.tables[t].contains_key(k))
                    == s.tables[t].contains_key(k)
                &&& s.tables[t].contains_key(k) ==> policy.map_clone(s, inpt, addr).0.tables[t][k]
                    == s.tables[t][k]
            },
{
    let after = policy.map_clone(s, inpt, addr).0;
    lemma_alloc_keeps_resident(s);
    let (s1, got) = s.alloc_frame();
    let key = (inpt, page_start(addr));
    assert(slot(page_start(addr)) == slot(addr));
    assert forall|t: usize, q: int|
        #[trigger] registered_at(after, t, q) && !(t == inpt && q == slot(
            addr,
        )) implies registered_at(s, t, q) by {
        let i = choose|i: int|
            0 <= i < after.queue.len() && (#[trigger] after.queue[i]).0 == t && slot(
                after.queue[i].1,
            ) == q;
        if after.queue == s.queue {
            assert(s.queue[i] == after.queue[i]);
        } else if after.queue == s1.queue {
            assert(s1.queue[i] == after.queue[i]);
            assert(registered_at(s1, t, q));
        } else {
            lemma_position(s1.queue, key);
            if i < s1.queue.len() {
                assert(s1.queue[i] == after.queue[i]);
                assert(registered_at(s1, t, q));
            } else {
                assert(after.queue[i] == key);
            }
        }
    }
    assert forall|t: int, k: usize|
        0 <= t < s.tables.len() && !registered_at(s, t as usize, k as int) && !(k == slot(addr) && (
        t == inpt || t == s.active)) implies {
        &&& (#[trigger] after.tables[t].contains_key(k)) == s.tables[t].contains_key(k)
        &&& s.tables[t].contains_key(k) ==> after.tables[t][k] == s.tables[t][k]
    } by {
        assert(s1.tables[t].contains_key(k) == s.tables[t].contains_key(k));
    }
}

/// Carrying a page over leaves a sound state sound, under the condition
/// that `clone_keeps_sound` names.
pub proof fn lemma_clone_page_keeps_sound(policy: Policy, s: State, inpt: usize, addr: VirtAddr)
    requires
        sound(s),
        s.valid_table(inpt),
        s.valid_table(s.active),
        clone_keeps_sound(policy, s, inpt, addr),
    ensures
        sound(policy.map_clone(s, inpt, addr).0),
{
    let after = policy.map_clone(s, inpt, addr).0;
    match policy {
        Policy::Direct(h) => {
            lemma_map_keeps_sound(policy, s, inpt, addr);
        },
        Policy::Eager(h) => {
            lemma_alloc_keeps_sound(s);
            let (s1, got) = s.alloc_frame();
            if got is Some {
                let entry = h.flags.applied(Entry::mapped(got.unwrap()));
                lemma_install_spare_keeps_sound(s1, inpt, addr, entry);
                let s2 = install(s1, inpt, addr, entry);
                lemma_same_core_sound(s2, after);
            }
        },
        Policy::Swappable { flags, delay } => {
            match s.entry(s.active, addr) {
                None => {},
                Some(e) => {
                    if !(e.present || e.swapped) {
                        lemma_write_unregistered_keeps_sound(s, inpt, addr, unbacked(flags));
                    } else {
                        lemma_alloc_keeps_sound(s);
                        let (s1, got) = s.alloc_frame();
                        if got is Some {
                            let entry = flags.applied(Entry::mapped(got.unwrap()));
                            lemma_install_spare_keeps_sound(s1, inpt, addr, entry);
                            let s2 = install(s1, inpt, addr, entry);
                            lemma_install(s1, inpt, addr, entry);
                            assert(present_in(s2, inpt as int, slot(addr)));
                            lemma_register_keeps_sound(s2, inpt, addr);
                            lemma_same_core_sound(s2.set_swappable(inpt, addr), after);
                        }
                    }
                },
            }
        },
        Policy::CopyOnWrite(h) => {
            let e = s.tables[s.active as int][slot(addr)];
            assert(s.entry(s.active, addr) == Some(e));
            let s1 = s.update(s.active, addr, Entry { writable: false, ..e });
            lemma_rewrite_keeps_sound(s, s.active, addr, Entry { writable: false, ..e });
            let entry = Entry {
                writable: false,
                shared: true,
                ..h.flags.applied(Entry::mapped(e.target))
            };
            assert(present_in(s1, s.active as int, slot(addr)));
            assert(!pool_free(s1, e.target));
            assert forall|i: int| 0 <= i < s1.queue.len() implies key_entry(s1, #[trigger] s1.queue[i]).target
                != e.target by {
                let key = s1.queue[i];
                assert(s.queue[i] == key);
                assert(resident_key(s, key));
                if key.0 == s.active && slot(key.1) == slot(addr) {
                    assert(registered_at(s, s.active, slot(addr) as int));
                }
            }
            assert(!registered_at(s1, inpt, slot(addr) as int)) by {
                if registered_at(s1, inpt, slot(addr) as int) {
                    let i = choose|i: int|
                        0 <= i < s1.queue.len() && (#[trigger] s1.queue[i]).0 == inpt && slot(
                            s1.queue[i].1,
                        ) == slot(addr) as int;
                    assert(s.queue[i] == s1.queue[i]);
                }
            }
            lemma_write_unregistered_keeps_sound(s1, inpt, addr, entry);
            let s2 = install(s1, inpt, addr, entry);
            lemma_install(s1, inpt, addr, entry);
            assert(!pool_free(s2, e.target)) by {
                if pool_free(s2, e.target) {
                    let i = choose|i: int|
                        0 <= i < s2.frames.len() && s2.frames[i] && #[trigger] s2.frame_addr(i)
                            == e.target;
                    assert(s1.frames[i] && s1.frame_addr(i) == e.target);
                    assert(pool_free(s1, e.target));
                }
            }
            assert forall|i: int| 0 <= i < s2.queue.len() implies key_entry(s2, #[trigger] s2.queue[i]).target
                != e.target by {
                let key = s1.queue[i];
                assert(s2.queue[i] == key);
                assert(resident_key(s1, key));
                if key.0 == inpt && slot(key.1) == slot(addr) {
                    assert(registered_at(s1, inpt, slot(addr) as int));
                }
                assert(key_entry(s2, key) == key_entry(s1, key));
            }
            lemma_share_keeps_sound(s2, e.target, !h.flags.readonly);
        },
    }
}

/// Carrying one page over leaves the condition for carrying another over as
/// it was.
pub proof fn lemma_clone_keeps_condition(
    first: Policy,
    second: Policy,
    s: State,
    inpt: usize,
    addr: VirtAddr,
    other: VirtAddr,
)
    requires
        sound(s),
        s.valid_table(inpt),
        s.valid_table(s.active),
        clone_keeps_sound(second, s, inpt, other),
        !(second is Direct),
        slot(other) != slot(addr),
    ensures
        clone_keeps_sound(second, first.map_clone(s, inpt, addr).0, inpt, other),
{
    lemma_clone_page_effects(first, s, inpt, addr);
    let after = first.map_clone(s, inpt, addr).0;
    if registered_at(after, inpt, slot(other) as int) {
        assert(registered_at(s, inpt, slot(other) as int));
    }
    if registered_at(after, s.active, slot(other) as int) {
        assert(registered_at(s, s.active, slot(other) as int));
    }
    if second is CopyOnWrite {
        assert(after.tables[s.active as int].contains_key(slot(other)) == s.tables[s.active as int].contains_key(
            slot(other),
        ));
    }
}

/// Carrying the pages `page` up to `end` over leaves a sound state sound,
/// where carrying each of them over does.
pub proof fn lemma_clone_pages_keeps_sound(policy: Policy, s: State, inpt: usize, page: int, end: int)
    requires
        sound(s),
        s.valid_table(inpt),
        s.valid_table(s.active),
        0 <= page,
        (end - 1) * 4096 <= usize::MAX,
        !(policy is Direct),
        forall|q: int|
            page <= q < end ==> clone_keeps_sound(policy, s, inpt, #[trigger] page_addr(q)),
    ensures
        sound(clone_pages(policy, s, inpt, page, end).0),
        clone_pages(policy, s, inpt, page, end).0.tables.len() == s.tables.len(),
        clone_pages(policy, s, inpt, page, end).0.active == s.active,
        forall|kind: Policy, x: VirtAddr|
            !(page <= slot(x) < end) && !(kind is Direct) && #[trigger] clone_keeps_sound(
                kind,
                s,
                inpt,
                x,
            ) ==> clone_keeps_sound(kind, clone_pages(policy, s, inpt, page, end).0, inpt, x),
    decreases end - page,
{
    let whole = clone_pages(policy, s, inpt, page, end);
    if page < end {
        let addr = page_addr(page);
        assert(slot(addr) == page);
        let (s1, next, done1) = policy.map_clone(s, inpt, addr);
        assert(clone_keeps_sound(policy, s, inpt, page_addr(page)));
        lemma_clone_page_keeps_sound(policy, s, inpt, addr);
        lemma_clone_page_effects(policy, s, inpt, addr);
        assert forall|kind: Policy, x: VirtAddr|
            slot(x) != page && !(kind is Direct) && #[trigger] clone_keeps_sound(
                kind,
                s,
                inpt,
                x,
            ) implies clone_keeps_sound(kind, s1, inpt, x) by {
            lemma_clone_keeps_condition(policy, kind, s, inpt, addr, x);
        }
        if done1 is Ok {
            assert(!(next is Direct));
            assert forall|q: int| page + 1 <= q < end implies clone_keeps_sound(
                next,
                s1,
                inpt,
                #[trigger] page_addr(q),
            ) by {
                assert(slot(page_addr(q)) == q);
                assert(clone_keeps_sound(policy, s, inpt, page_addr(q)));
                assert(clone_keeps_sound(policy, s1, inpt, page_addr(q)));
            }
            lemma_clone_pages_keeps_sound(next, s1, inpt, page + 1, end);
            let tail = clone_pages(next, s1, inpt, page + 1, end);
            assert(whole == tail);
            assert forall|kind: Policy, x: VirtAddr|
                !(page <= slot(x) < end) && !(kind is Direct) && #[trigger] clone_keeps_sound(
                    kind,
                    s,
                    inpt,
                    x,
                ) implies clone_keeps_sound(kind, tail.0, inpt, x) by {
                assert(clone_keeps_sound(kind, s1, inpt, x));
            }
        } else {
            assert(whole == (s1, next, done1));
        }
    } else {
        assert(whole.0 == s);
    }
}

/// Whether carrying every page of `area` over to `table` is sure to leave a
/// sound state sound: a table is live, the area is not direct, and carrying
/// each page over keeps the state sound.
pub open spec fn area_clones_soundly(area: Area, s: State, table: usize) -> bool {
    &&& s.valid_table(s.active)
    &&& !(area.policy is Direct)
    &&& forall|q: int|
        area.has_page(q) ==> clone_keeps_sound(area.policy, s, table, #[trigger] page_addr(q))
}

/// Carrying the areas from index `i` on over leaves a sound state sound,
/// where carrying each of their pages over does.
pub proof fn lemma_clone_areas_keeps_sound(areas: Seq<Area>, s: State, inpt: usize, i: int)
    requires
        sound(s),
        s.valid_table(inpt),
        s.valid_table(s.active),
        0 <= i <= areas.len(),
        pairwise_disjoint(areas),
        forall|j: int| i <= j < areas.len() ==> !((#[trigger] areas[j]).policy is Direct),
        forall|j: int, q: int|
            i <= j < areas.len() && (#[trigger] areas[j]).has_page(q) ==> clone_keeps_sound(
                areas[j].policy,
                s,
                inpt,
                #[trigger] page_addr(q),
            ),
    ensures
        sound(clone_areas(areas, s, inpt, i).0),
    decreases areas.len() - i,
{
    let whole = clone_areas(areas, s, inpt, i);
    if i < areas.len() {
        let area = areas[i];
        let (s1, p, done1) = area.map_clone(s, inpt);
        assert forall|q: int| area.first_page() <= q < area.end_page() implies clone_keeps_sound(
            area.policy,
            s,
            inpt,
            #[trigger] page_addr(q),
        ) by {
            assert(areas[i].has_page(q));
        }
        lemma_clone_pages_keeps_sound(area.policy, s, inpt, area.first_page(), area.end_page());
        let carried = areas.update(i, Area { policy: p, ..area });
        if done1 is Ok {
            assert(pairwise_disjoint(carried)) by {
                assert forall|a: int, b: int|
                    0 <= a < carried.len() && 0 <= b < carried.len() && a != b implies !(
                    #[trigger] carried[a]).overlaps(#[trigger] carried[b]) by {
                    assert(!areas[a].overlaps(areas[b]));
                }
            }
            assert forall|j: int, q: int|
                i + 1 <= j < carried.len() && (#[trigger] carried[j]).has_page(
                    q,
                ) implies clone_keeps_sound(carried[j].policy, s1, inpt, #[trigger] page_addr(q)) by {
                assert(carried[j] == areas[j]);
                assert(areas[j].has_page(q));
                assert(slot(page_addr(q)) == q);
                assert(!areas[i].overlaps(areas[j]));
                assert(!(area.first_page() <= q < area.end_page()));
                assert(clone_keeps_sound(areas[j].policy, s, inpt, page_addr(q)));
            }
            assert forall|j: int| i + 1 <= j < carried.len() implies !((#[trigger] carried[j]).policy is Direct) by {
                assert(carried[j] == areas[j]);
            }
            lemma_clone_areas_keeps_sound(carried, s1, inpt, i + 1);
            assert(whole == clone_areas(carried, s1, inpt, i + 1));
        } else {
            assert(whole == (s1, carried, done1));
        }
    } else {
        assert(whole.0 == s);
    }
}

/// Carrying a page over under a policy that is not swappable registers no page.
pub proof fn lemma_clone_registers_nothing(policy: Policy, s: State, inpt: usize, addr: VirtAddr)
    requires
        resident(s),
        s.valid_table(inpt),
        s.valid_table(s.active),
        !(policy is Swappable),
    ensures
        forall|t: usize, q: int|
            #[trigger] registered_at(policy.map_clone(s, inpt, addr).0, t, q) ==> registered_at(
                s,
                t,
                q,
            ),
{
    let after = policy.map_clone(s, inpt, addr).0;
    lemma_alloc_keeps_resident(s);
    let s1 = s.alloc_frame().0;
    assert forall|t: usize, q: int| #[trigger] registered_at(after, t, q) implies registered_at(
        s,
        t,
        q,
    ) by {
        let i = choose|i: int|
            0 <= i < after.queue.len() && (#[trigger] after.queue[i]).0 == t && slot(
                after.queue[i].1,
            ) == q;
        if after.queue == s.queue {
            assert(s.queue[i] == after.queue[i]);
        } else {
            assert(after.queue == s1.queue);
            assert(s1.queue[i] == after.queue[i]);
            assert(registered_at(s1, t, q));
        }
    }
}

/// Carrying the pages `page` up to `end` over registers no page but, under
/// the swappable policy, those pages themselves in the new table.
pub proof fn lemma_clone_pages_registers(policy: Policy, s: State, inpt: usize, page: int, end: int)
    requires
        sound(s),
        s.valid_table(inpt),
        s.valid_table(s.active),
        0 <= page,
        (end - 1) * 4096 <= usize::MAX,
        !(policy is Direct),
        forall|q: int|
            page <= q < end ==> clone_keeps_sound(policy, s, inpt, #[trigger] page_addr(q)),
    ensures
        (clone_pages(policy, s, inpt, page, end).1 is Swappable) == (policy is Swappable),
        forall|t: usize, q: int|
            #[trigger] registered_at(clone_pages(policy, s, inpt, page, end).0, t, q) && !(
            policy is Swappable && t == inpt && page <= q < end) ==> registered_at(s, t, q),
    decreases end - page,
{
    let whole = clone_pages(policy, s, inpt, page, end);
    if page < end {
        let addr = page_addr(page);
        assert(slot(addr) == page);
        let (s1, next, done1) = policy.map_clone(s, inpt, addr);
        assert(clone_keeps_sound(policy, s, inpt, page_addr(page)));
        lemma_clone_page_keeps_sound(policy, s, inpt, addr);
        lemma_clone_page_effects(policy, s, inpt, addr);
        if !(policy is Swappable) {
            lemma_clone_registers_nothing(policy, s, inpt, addr);
        }
        if done1 is Ok {
            assert forall|q: int| page + 1 <= q < end implies clone_keeps_sound(
                next,
                s1,
                inpt,
                #[trigger] page_addr(q),
            ) by {
                assert(slot(page_addr(q)) == q);
                assert(clone_keeps_sound(policy, s, inpt, page_addr(q)));
                lemma_clone_keeps_condition(policy, policy, s, inpt, addr, page_addr(q));
            }
            lemma_clone_pages_registers(next, s1, inpt, page + 1, end);
            let tail = clone_pages(next, s1, inpt, page + 1, end);
            assert(whole == tail);
            assert forall|t: usize, q: int|
                #[trigger] registered_at(tail.0, t, q) && !(policy is Swappable && t == inpt && page
                    <= q < end) implies registered_at(s, t, q) by {
                assert(registered_at(s1, t, q));
            }
        } else {
            assert(whole == (s1, next, done1));
        }
    } else {
        assert(whole == (s, policy, Ok::<(), crate::context::MemoryError>(())));
    }
}

/// Whether page `page` belongs to a swappable area among `areas` from index
/// `i` on.
pub open spec fn in_swappable_from(areas: Seq<Area>, i: int, page: int) -> bool {
    exists|j: int|
        i <= j < areas.len() && (#[trigger] areas[j]).has_page(page) && areas[j].policy is Swappable
}

/// Carrying the areas from index `i` on over registers no page but pages of
/// swappable areas among them, in the new table; and each area keeps its
/// stretch and the kind of its policy.
pub proof fn lemma_clone_areas_registers(areas: Seq<Area>, s: State, inpt: usize, i: int)
    requires
        sound(s),
        s.valid_table(inpt),
        s.valid_table(s.active),
        0 <= i <= areas.len(),
        pairwise_disjoint(areas),
        forall|j: int| i <= j < areas.len() ==> !((#[trigger] areas[j]).policy is Direct),
        forall|j: int, q: int|
            i <= j < areas.len() && (#[trigger] areas[j]).has_page(q) ==> clone_keeps_sound(
                areas[j].policy,
                s,
                inpt,
                #[trigger] page_addr(q),
            ),
    ensures
        clone_areas(areas, s, inpt, i).1.len() == areas.len(),
        forall|j: int|
            0 <= j < areas.len() ==> {
                &&& (#[trigger] clone_areas(areas, s, inpt, i).1[j]).start == areas[j].start
                &&& clone_areas(areas, s, inpt, i).1[j].end == areas[j].end
                &&& (clone_areas(areas, s, inpt, i).1[j].policy is Swappable)
                    == (areas[j].policy is Swappable)
            },
        forall|t: usize, q: int|
            #[trigger] registered_at(clone_areas(areas, s, inpt, i).0, t, q) && !(t == inpt
                && in_swappable_from(areas, i, q)) ==> registered_at(s, t, q),
    decreases areas.len() - i,
{
    let whole = clone_areas(areas, s, inpt, i);
    if i < areas.len() {
        let area = areas[i];
        let (s1, p, done1) = area.map_clone(s, inpt);
        assert forall|q: int| area.first_page() <= q < area.end_page() implies clone_keeps_sound(
            area.policy,
            s,
            inpt,
            #[trigger] page_addr(q),
        ) by {
            assert(areas[i].has_page(q));
        }
        lemma_clone_pages_keeps_sound(area.policy, s, inpt, area.first_page(), area.end_page());
        lemma_clone_pages_registers(area.policy, s, inpt, area.first_page(), area.end_page());
        let carried = areas.update(i, Area { policy: p, ..area });
        assert forall|t: usize, q: int|
            #[trigger] registered_at(s1, t, q) && !(t == inpt && in_swappable_from(
                areas,
                i,
                q,
            )) implies registered_at(s, t, q) by {
            if area.policy is Swappable && t == inpt && area.first_page() <= q < area.end_page() {
                assert(areas[i].has_page(q));
                assert(in_swappable_from(areas, i, q));
            }
        }
        if done1 is Ok {
            assert(pairwise_disjoint(carried)) by {
                assert forall|a: int, b: int|
                    0 <= a < carried.len() && 0 <= b < carried.len() && a != b implies !(
                    #[trigger] carried[a]).overlaps(#[trigger] carried[b]) by {
                    assert(!areas[a].overlaps(areas[b]));
                }
            }
            assert forall|j: int, q: int|
                i + 1 <= j < carried.len() && (#[trigger] carried[j]).has_page(
                    q,
                ) implies clone_keeps_sound(carried[j].policy, s1, inpt, #[trigger] page_addr(q)) by {
                assert(carried[j] == areas[j]);
                assert(areas[j].has_page(q));
                assert(slot(page_addr(q)) == q);
                assert(!areas[i].overlaps(areas[j]));
                assert(!(area.first_page() <= q < area.end_page()));
                assert(clone_keeps_sound(areas[j].policy, s, inpt, page_addr(q)));
            }
            assert forall|j: int| i + 1 <= j < carried.len() implies !((#[trigger] carried[j]).policy is Direct) by {
                assert(carried[j] == areas[j]);
            }
            lemma_clone_areas_registers(carried, s1, inpt, i + 1);
            let tail = clone_areas(carried, s1, inpt, i + 1);
            assert(whole == tail);
            assert forall|j: int| 0 <= j < areas.len() implies {
                &&& (#[trigger] tail.1[j]).start == areas[j].start
                &&& tail.1[j].end == areas[j].end
                &&& (tail.1[j].policy is Swappable) == (areas[j].policy is Swappable)
            } by {
                assert(tail.1[j].start == carried[j].start);
            }
            assert forall|t: usize, q: int|
                #[trigger] registered_at(tail.0, t, q) && !(t == inpt && in_swappable_from(
                    areas,
                    i,
                    q,
                )) implies registered_at(s, t, q) by {
                if t == inpt && in_swappable_from(carried, i + 1, q) {
                    let j = choose|j: int|
                        i + 1 <= j < carried.len() && (#[trigger] carried[j]).has_page(q)
                            && carried[j].policy is Swappable;
                    assert(carried[j] == areas[j]);
                    assert(areas[j].has_page(q));
                    assert(in_swappable_from(areas, i, q));
                }
                assert(registered_at(s1, t, q));
            }
        } else {
            assert(whole == (s1, carried, done1));
            assert forall|j: int| 0 <= j < areas.len() implies {
                &&& (#[trigger] carried[j]).start == areas[j].start
                &&& carried[j].end == areas[j].end
                &&& (carried[j].policy is Swappable) == (areas[j].policy is Swappable)
            } by {}
        }
    } else {
        assert(whole == (s, areas, Ok::<(), crate::context::MemoryError>(())));
    }
}

/// A new page table leaves a sound state sound, if it is empty or no page
/// of the kernel's table is registered as one that may be evicted; and no
/// page of the new table is registered.
pub proof fn lemma_new_table_keeps_sound(s: State, bare: bool)
    requires
        sound(s),
        s.tables.len() < usize::MAX,
        bare || (s.tables.len() > 0 && forall|q: int| !#[trigger] registered_at(s, 0, q)),
    ensures
        sound(s.new_table(bare)),
        forall|q: int| !#[trigger] registered_at(s.new_table(bare), s.tables.len() as usize, q),
        forall|t: usize, q: int|
            #[trigger] registered_at(s.new_table(bare), t, q) ==> registered_at(s, t, q),
{
    let after = s.new_table(bare);
    let fresh = s.tables.len() as int;
    assert forall|i: int| 0 <= i < after.queue.len() implies resident_key(
        after,
        #[trigger] after.queue[i],
    ) && key_entry(after, after.queue[i]) == key_entry(s, s.queue[i]) && after.queue[i].0
        != fresh by {
        assert(resident_key(s, s.queue[i]));
    }
    assert forall|t: int, k: usize| #[trigger] present_in(after, t, k) implies present_in(
        s,
        if t == fresh {
            0
        } else {
            t
        },
        k,
    ) && after.tables[t][k] == s.tables[if t == fresh {
        0
    } else {
        t
    }][k] by {
        if t == fresh {
            assert(!bare);
            assert(after.tables[t] == s.tables[0]);
        }
    }
    assert forall|t: int, k: usize| #[trigger] present_in(after, t, k) implies !pool_free(
        after,
        after.tables[t][k].target,
    ) by {
        let u = if t == fresh {
            0
        } else {
            t
        };
        assert(present_in(s, u, k));
        if pool_free(after, after.tables[t][k].target) {
            let i = choose|i: int|
                0 <= i < after.frames.len() && after.frames[i] && #[trigger] after.frame_addr(i)
                    == after.tables[t][k].target;
            assert(s.frame_addr(i) == s.tables[u][k].target);
            assert(pool_free(s, s.tables[u][k].target));
        }
    }
    assert forall|i: int, t: int, k: usize|
        0 <= i < after.queue.len() && #[trigger] present_in(after, t, k) && !(t == (
        #[trigger] after.queue[i]).0 && k == slot(after.queue[i].1)) implies after.tables[t][k].target
        != key_entry(after, after.queue[i]).target by {
        let u = if t == fresh {
            0
        } else {
            t
        };
        assert(present_in(s, u, k));
        assert(s.queue[i] == after.queue[i]);
        assert(key_entry(after, after.queue[i]) == key_entry(s, s.queue[i]));
        if t == fresh && s.queue[i].0 == 0 && k == slot(s.queue[i].1) {
            assert(registered_at(s, 0, k as int));
        }
    }
    assert forall|i: int| 0 <= i < after.frames.len() && after.frames[i] implies share_count(
        after.shares,
        #[trigger] after.frame_addr(i),
    ) == 0 by {
        assert(share_count(s.shares, s.frame_addr(i)) == 0);
    }
    assert forall|i: int| 0 <= i < after.queue.len() implies share_count(
        after.shares,
        key_entry(after, #[trigger] after.queue[i]).target,
    ) == 0 by {
        assert(key_entry(after, after.queue[i]) == key_entry(s, s.queue[i]));
        assert(share_count(s.shares, key_entry(s, s.queue[i]).target) == 0);
    }
    assert forall|q: int| !#[trigger] registered_at(after, s.tables.len() as usize, q) by {
        if registered_at(after, s.tables.len() as usize, q) {
            let i = choose|i: int|
                0 <= i < after.queue.len() && (#[trigger] after.queue[i]).0 == s.tables.len() as usize
                    && slot(after.queue[i].1) == q;
            assert(resident_key(s, s.queue[i]));
        }
    }
    assert forall|t: usize, q: int| #[trigger] registered_at(after, t, q) implies registered_at(
        s,
        t,
        q,
    ) by {
        let i = choose|i: int|
            0 <= i < after.queue.len() && (#[trigger] after.queue[i]).0 == t && slot(
                after.queue[i].1,
            ) == q;
        assert(s.queue[i] == after.queue[i]);
    }
}

/// Whether the fork of `space` is sure to leave a sound state sound: no
/// area is direct, no page of the kernel's table is registered as one that
/// may be evicted, and every page of a copy-on-write area is present in the
/// live table and not registered there.
pub open spec fn forks_soundly(space: Space, s: State) -> bool {
    &&& s.tables.len() < usize::MAX
    &&& s.valid_table(s.active)
    &&& forall|q: int| !#[trigger] registered_at(s, 0, q)
    &&& forall|j: int| 0 <= j < space.areas.len() ==> !((#[trigger] space.areas[j]).policy is Direct)
    &&& forall|j: int, q: int|
        0 <= j < space.areas.len() && (#[trigger] space.areas[j]).has_page(q)
            && space.areas[j].policy is CopyOnWrite ==> #[trigger] present_in(
            s,
            s.active as int,
            q as usize,
        ) && !registered_at(s, s.active, q)
}

/// A fork leaves a sound state sound, under the condition that
/// `forks_soundly` names. Afterwards only swappable areas of the child have
/// registered pages, and no page is registered in another table that was
/// not registered before.
pub proof fn lemma_fork_keeps_sound(space: Space, s: State)
    requires
        sound(s),
        space.wf(),
        forks_soundly(space, s),
    ensures
        sound(space.fork(s).0),
        tracks(space.fork(s).1, space.fork(s).0),
        forall|t: usize, q: int|
            #[trigger] registered_at(space.fork(s).0, t, q) && t != space.fork(s).1.table
                ==> registered_at(s, t, q),
{
    let s0 = s.new_table(false);
    let table = s.tables.len() as usize;
    let areas = box_clone_all(space.areas);
    lemma_new_table_keeps_sound(s, false);
    assert(pairwise_disjoint(areas)) by {
        assert forall|a: int, b: int|
            0 <= a < areas.len() && 0 <= b < areas.len() && a != b implies !(#[trigger] areas[a]).overlaps(
            #[trigger] areas[b],
        ) by {
            assert(!space.areas[a].overlaps(space.areas[b]));
        }
    }
    assert forall|j: int| 0 <= j < areas.len() implies !((#[trigger] areas[j]).policy is Direct) by {
        assert(!(space.areas[j].policy is Direct));
    }
    assert forall|j: int, q: int|
        0 <= j < areas.len() && (#[trigger] areas[j]).has_page(q) implies clone_keeps_sound(
        areas[j].policy,
        s0,
        table,
        #[trigger] page_addr(q),
    ) by {
        assert(space.areas[j].has_page(q));
        assert(slot(page_addr(q)) == q);
        assert(!registered_at(s0, table, q));
        if areas[j].policy is CopyOnWrite {
            assert(space.areas[j].policy is CopyOnWrite);
            assert(present_in(s, s.active as int, q as usize));
            assert(s0.tables[s.active as int] == s.tables[s.active as int]);
            if registered_at(s0, s.active, q) {
                assert(registered_at(s, s.active, q));
            }
        }
    }
    lemma_clone_areas_keeps_sound(areas, s0, table, 0);
    lemma_clone_areas_registers(areas, s0, table, 0);
    let (after, out, done) = clone_areas(areas, s0, table, 0);
    let child = space.fork(s).1;
    assert(child.areas == out && child.table == table);
    assert forall|j: int| 0 <= j < out.len() implies (#[trigger] out[j]).policy is Swappable
        || unregistered_area(after, table, out[j]) by {
        if !(out[j].policy is Swappable) {
            assert forall|q: int| out[j].has_page(q) implies !#[trigger] registered_at(
                after,
                table,
                q,
            ) by {
                assert(out[j].start == areas[j].start);
                assert(areas[j].has_page(q));
                if registered_at(after, table, q) {
                    if in_swappable_from(areas, 0, q) {
                        let j2 = choose|j2: int|
                            0 <= j2 < areas.len() && (#[trigger] areas[j2]).has_page(q)
                                && areas[j2].policy is Swappable;
                        if j2 != j {
                            assert(!areas[j].overlaps(areas[j2]));
                        }
                    }
                    assert(registered_at(s0, table, q));
                }
            }
        }
    }
    assert forall|t: usize, q: int|
        #[trigger] registered_at(after, t, q) && t != table implies registered_at(s, t, q) by {
        assert(registered_at(s0, t, q));
    }
}

/// Whether the frames with indices in `[start, end)` are unused: no present
/// page is bound to one of them, and none is counted as shared.
pub open spec fn frames_unused(s: State, start: usize, end: usize) -> bool {
    &&& forall|i: int, t: int, k: usize|
        start <= i < end && 0 <= i < s.frames.len() && #[trigger] present_in(s, t, k)
            ==> s.tables[t][k].target != #[trigger] s.frame_addr(i)
    &&& forall|i: int|
        start <= i < end && 0 <= i < s.frames.len() ==> share_count(
            s.shares,
            #[trigger] s.frame_addr(i),
        ) == 0
}

/// Setting unused frames free leaves a sound state sound.
pub proof fn lemma_insert_frames_keeps_sound(s: State, start: usize, end: usize)
    requires
        sound(s),
        frames_unused(s, start, end),
    ensures
        sound(s.insert_frames(start, end)),
{
    let after = s.insert_frames(start, end);
    assert forall|i: int| 0 <= i < after.queue.len() implies resident_key(
        after,
        #[trigger] after.queue[i],
    ) by {
        assert(resident_key(s, s.queue[i]));
    }
    assert forall|t: int, k: usize| #[trigger] present_in(after, t, k) implies !pool_free(
        after,
        after.tables[t][k].target,
    ) by {
        assert(present_in(s, t, k));
        if pool_free(after, after.tables[t][k].target) {
            let i = choose|i: int|
                0 <= i < after.frames.len() && after.frames[i] && #[trigger] after.frame_addr(i)
                    == after.tables[t][k].target;
            assert(s.frame_addr(i) == s.tables[t][k].target);
            if s.frames[i] {
                assert(pool_free(s, s.tables[t][k].target));
            }
        }
    }
    assert forall|i: int, t: int, k: usize|
        0 <= i < after.queue.len() && #[trigger] present_in(after, t, k) && !(t == (
        #[trigger] after.queue[i]).0 && k == slot(after.queue[i].1)) implies after.tables[t][k].target
        != key_entry(after, after.queue[i]).target by {
        assert(present_in(s, t, k));
        assert(s.queue[i] == after.queue[i]);
    }
    assert forall|i: int| 0 <= i < after.frames.len() && after.frames[i] implies share_count(
        after.shares,
        #[trigger] after.frame_addr(i),
    ) == 0 by {
        assert(share_count(s.shares, s.frame_addr(i)) == 0);
    }
    assert forall|i: int| 0 <= i < after.queue.len() implies share_count(
        after.shares,
        key_entry(after, #[trigger] after.queue[i]).target,
    ) == 0 by {
        assert(share_count(s.shares, key_entry(s, s.queue[i]).target) == 0);
    }
}

/// From `s` to `after`, no page was registered as one that may be evicted
/// in any table but `table`.
pub open spec fn registers_only_in(s: State, after: State, table: usize) -> bool {
    forall|t: usize, q: int| #[trigger] registered_at(after, t, q) && t != table ==> registered_at(s, t, q)
}

/// A memory set that was valid is valid in a sound state in which no page
/// of its table was registered meanwhile: what is done to one memory set
/// soundly leaves every other valid.
pub proof fn lemma_valid_elsewhere(other: Space, s: State, after: State, table: usize)
    requires
        valid(other, s),
        sound(after),
        other.table != table,
        registers_only_in(s, after, table),
    ensures
        valid(other, after),
{
    assert forall|j: int| 0 <= j < other.areas.len() implies (#[trigger] other.areas[j]).policy is Swappable
        || unregistered_area(after, other.table, other.areas[j]) by {
        if !(other.areas[j].policy is Swappable) {
            assert(unregistered_area(s, other.table, other.areas[j]));
            assert forall|q: int| other.areas[j].has_page(q) implies !#[trigger] registered_at(
                after,
                other.table,
                q,
            ) by {
                if registered_at(after, other.table, q) {
                    assert(registered_at(s, other.table, q));
                }
            }
        }
    }
}

/// Whether the state is sound and only swappable areas of `space` have
/// registered pages: the validity of a memory set in a state.
pub open spec fn valid(space: Space, s: State) -> bool {
    sound(s) && tracks(space, s)
}

/// Whether pushing `area` is sure to keep a memory set valid: mapping each
/// of its pages keeps the state sound, and the area is swappable or has no
/// page registered.
pub open spec fn pushes_soundly(area: Area, s: State, table: usize) -> bool {
    area_maps_soundly(area, s, table) && (area.policy is Swappable || unregistered_area(
        s,
        table,
        area,
    ))
}

/// A push keeps a memory set valid, under the condition that
/// `pushes_soundly` names.
pub proof fn lemma_push_keeps_valid(space: Space, s: State, area: Area)
    requires
        valid(space, s),
        space.wf(),
        s.valid_table(space.table),
        pushes_soundly(area, s, space.table),
    ensures
        valid(space.push(s, area).1, space.push(s, area).0),
        registers_only_in(s, space.push(s, area).0, space.table),
{
    if !overlaps_any(space.areas, area) {
        assert forall|q: int| area.first_page() <= q < area.end_page() implies !(lists(
            area.policy,
            #[trigger] page_addr(q),
        ) && registered_at(s, space.table, q)) by {
            assert(area.has_page(q));
            assert(slot(page_addr(q)) == q);
            assert(map_keeps_sound(area.policy, s, space.table, page_addr(q)));
            if !(area.policy is Swappable) {
                assert(!registered_at(s, space.table, q));
            }
        }
        lemma_map_pages_keeps_resident(
            area.policy,
            s,
            space.table,
            area.first_page(),
            area.end_page(),
        );
    }
    lemma_push_keeps_sound(space, s, area);
    assert forall|q: int| area.has_page(q) implies !(lists(area.policy, #[trigger] page_addr(q))
        && registered_at(s, space.table, q)) by {
        assert(slot(page_addr(q)) == q);
        assert(map_keeps_sound(area.policy, s, space.table, page_addr(q)));
        if !(area.policy is Swappable) {
            assert(!registered_at(s, space.table, q));
        }
    }
    lemma_push_keeps_tracks(space, s, area);
}

/// A fork keeps the parent valid and leaves the child valid, under the
/// condition that `forks_soundly` names.
pub proof fn lemma_fork_keeps_valid(space: Space, s: State)
    requires
        valid(space, s),
        space.wf(),
        s.valid_table(space.table),
        forks_soundly(space, s),
    ensures
        valid(space, space.fork(s).0),
        valid(space.fork(s).1, space.fork(s).0),
        registers_only_in(s, space.fork(s).0, space.fork(s).1.table),
{
    lemma_fork_keeps_sound(space, s);
    let after = space.fork(s).0;
    assert forall|j: int| 0 <= j < space.areas.len() implies (#[trigger] space.areas[j]).policy is Swappable
        || unregistered_area(after, space.table, space.areas[j]) by {
        if !(space.areas[j].policy is Swappable) {
            assert(unregistered_area(s, space.table, space.areas[j]));
            assert forall|q: int| space.areas[j].has_page(q) implies !#[trigger] registered_at(
                after,
                space.table,
                q,
            ) by {
                if registered_at(after, space.table, q) {
                    assert(registered_at(s, space.table, q));
                }
            }
        }
    }
}

/// An empty set over a new page table is valid in a sound state.
pub proof fn lemma_new_set_is_valid(s: State, bare: bool)
    requires
        sound(s),
        s.tables.len() < usize::MAX,
        bare || (s.tables.len() > 0 && forall|q: int| !#[trigger] registered_at(s, 0, q)),
    ensures
        valid(
            Space { areas: Seq::<Area>::empty(), table: s.tables.len() as usize },
            s.new_table(bare),
        ),
{
    lemma_new_table_keeps_sound(s, bare);
}

/// Handling a fault registers no page but, under the swappable policy, the
/// page of the fault.
pub proof fn lemma_page_fault_registers(policy: Policy, s: State, table: usize, addr: VirtAddr)
    requires
        resident(s),
        s.valid_table(table),
    ensures
        forall|t: usize, q: int|
            #[trigger] registered_at(policy.page_fault(s, table, addr).0, t, q) && !(
            policy is Swappable && t == table && q == slot(addr)) ==> registered_at(s, t, q),
{
    let after = policy.page_fault(s, table, addr).0;
    lemma_alloc_keeps_resident(s);
    let s1 = s.alloc_frame().0;
    let key = (table, page_start(addr));
    assert(slot(page_start(addr)) == slot(addr));
    match policy {
        Policy::CopyOnWrite(h) => {
            match s.entry(table, addr) {
                None => {},
                Some(e) => {
                    let s0 = unshare(s, e.target);
                    lemma_unshare_registers_nothing(s, e.target);
                    assert(resident(s0)) by {
                        assert forall|i: int| 0 <= i < s0.queue.len() implies resident_key(
                            s0,
                            #[trigger] s0.queue[i],
                        ) by {
                            assert(resident_key(s, s.queue[i]));
                        }
                    }
                    lemma_alloc_keeps_resident(s0);
                    let s2 = s0.alloc_frame().0;
                    assert forall|t: usize, q: int| #[trigger] registered_at(after, t, q) implies registered_at(
                        s,
                        t,
                        q,
                    ) by {
                        let i = choose|i: int|
                            0 <= i < after.queue.len() && (#[trigger] after.queue[i]).0 == t && slot(
                                after.queue[i].1,
                            ) == q;
                        if after.queue == s.queue {
                            assert(s.queue[i] == after.queue[i]);
                        } else {
                            assert(after.queue == s2.queue);
                            assert(s2.queue[i] == after.queue[i]);
                            assert(registered_at(s2, t, q));
                            assert(registered_at(s0, t, q));
                        }
                    }
                },
            }
        },
        Policy::Swappable { flags, delay } => {
            assert forall|t: usize, q: int|
                #[trigger] registered_at(after, t, q) && !(t == table && q == slot(
                    addr,
                )) implies registered_at(s, t, q) by {
                let i = choose|i: int|
                    0 <= i < after.queue.len() && (#[trigger] after.queue[i]).0 == t && slot(
                        after.queue[i].1,
                    ) == q;
                if after.queue == s.queue {
                    assert(s.queue[i] == after.queue[i]);
                } else if after.queue == s1.queue {
                    assert(s1.queue[i] == after.queue[i]);
                    assert(registered_at(s1, t, q));
                } else {
                    lemma_position(s1.queue, key);
                    if i < s1.queue.len() {
                        assert(s1.queue[i] == after.queue[i]);
                        assert(registered_at(s1, t, q));
                    } else {
                        assert(after.queue[i] == key);
                    }
                }
            }
        },
        _ => {},
    }
}

/// Dropping one mapping of a frame from the count registers no page.
pub proof fn lemma_unshare_registers_nothing(s: State, frame: PhysAddr)
    ensures
        forall|t: usize, q: int|
            #[trigger] registered_at(unshare(s, frame), t, q) ==> registered_at(s, t, q),
{
    let after = unshare(s, frame);
    assert forall|t: usize, q: int| #[trigger] registered_at(after, t, q) implies registered_at(
        s,
        t,
        q,
    ) by {
        let i = choose|i: int|
            0 <= i < after.queue.len() && (#[trigger] after.queue[i]).0 == t && slot(
                after.queue[i].1,
            ) == q;
        assert(s.queue[i] == after.queue[i]);
    }
}

/// Handling a fault on a page of one of its areas, by that area's policy,
/// keeps a memory set valid.
pub proof fn lemma_page_fault_keeps_valid(space: Space, s: State, j: int, addr: VirtAddr)
    requires
        valid(space, s),
        space.wf(),
        s.valid_table(space.table),
        0 <= j < space.areas.len(),
        space.areas[j].has_page(slot(addr) as int),
    ensures
        valid(space, space.areas[j].policy.page_fault(s, space.table, addr).0),
        registers_only_in(s, space.areas[j].policy.page_fault(s, space.table, addr).0, space.table),
{
    let policy = space.areas[j].policy;
    let after = policy.page_fault(s, space.table, addr).0;
    if policy is CopyOnWrite {
        assert(unregistered_area(s, space.table, space.areas[j]));
        assert(!registered_at(s, space.table, slot(addr) as int));
    }
    lemma_page_fault_keeps_sound(policy, s, space.table, addr);
    lemma_page_fault_registers(policy, s, space.table, addr);
    assert forall|a: int| 0 <= a < space.areas.len() implies (#[trigger] space.areas[a]).policy is Swappable
        || unregistered_area(after, space.table, space.areas[a]) by {
        if !(space.areas[a].policy is Swappable) {
            assert(unregistered_area(s, space.table, space.areas[a]));
            assert forall|q: int| space.areas[a].has_page(q) implies !#[trigger] registered_at(
                after,
                space.table,
                q,
            ) by {
                if registered_at(after, space.table, q) {
                    if policy is Swappable && q == slot(addr) {
                        assert(a != j);
                        assert(!space.areas[a].overlaps(space.areas[j]));
                    }
                    assert(registered_at(s, space.table, q));
                }
            }
        }
    }
}

/// The address of the frame that is set free when `target` is given back:
/// the frame of the pool that holds `target`, if the pool covers it.
pub open spec fn released(s: State, target: PhysAddr) -> Option<PhysAddr> {
    if 0 <= s.frame_id(target) < s.frames.len() {
        Some(s.frame_addr(s.frame_id(target)))
    } else {
        None
    }
}

/// Whether page `k` of `table` can give `target` back cleanly: the frame
/// that is set free is bound to no other present page and is not counted as
/// shared.
pub open spec fn releases_cleanly(s: State, table: usize, k: usize, target: PhysAddr) -> bool {
    match released(s, target) {
        None => true,
        Some(frame) => {
            &&& share_count(s.shares, frame) == 0
            &&& forall|t2: int, k2: usize|
                #[trigger] present_in(s, t2, k2) && !(t2 == table && k2 == k)
                    ==> s.tables[t2][k2].target != frame
        },
    }
}

/// Giving back a frame that no present page is bound to and that is not
/// counted leaves a sound state sound.
pub proof fn lemma_dealloc_keeps_sound(s: State, target: PhysAddr)
    requires
        sound(s),
        released(s, target) is Some ==> share_count(s.shares, released(s, target).unwrap()) == 0,
        released(s, target) is Some ==> forall|t: int, k: usize|
            #[trigger] present_in(s, t, k) ==> s.tables[t][k].target != released(s, target).unwrap(),
    ensures
        sound(s.dealloc_frame(target)),
{
    let after = s.dealloc_frame(target);
    assert forall|i: int| 0 <= i < after.queue.len() implies resident_key(
        after,
        #[trigger] after.queue[i],
    ) by {
        assert(resident_key(s, s.queue[i]));
    }
    assert forall|g: PhysAddr| pool_free(after, g) implies pool_free(s, g) || released(s, target)
        == Some(g) by {
        let i = choose|i: int|
            0 <= i < after.frames.len() && after.frames[i] && #[trigger] after.frame_addr(i) == g;
        if s.frames[i] {
            assert(s.frame_addr(i) == g);
        }
    }
    assert forall|t: int, k: usize| #[trigger] present_in(after, t, k) implies !pool_free(
        after,
        after.tables[t][k].target,
    ) by {
        assert(present_in(s, t, k));
    }
    assert forall|i: int, t: int, k: usize|
        0 <= i < after.queue.len() && #[trigger] present_in(after, t, k) && !(t == (
        #[trigger] after.queue[i]).0 && k == slot(after.queue[i].1)) implies after.tables[t][k].target
        != key_entry(after, after.queue[i]).target by {
        assert(present_in(s, t, k));
        assert(s.queue[i] == after.queue[i]);
    }
    assert forall|i: int| 0 <= i < after.frames.len() && after.frames[i] implies share_count(
        after.shares,
        #[trigger] after.frame_addr(i),
    ) == 0 by {
        if s.frames[i] {
            assert(share_count(s.shares, s.frame_addr(i)) == 0);
        } else {
            assert(released(s, target) == Some(s.frame_addr(i)));
        }
    }
    assert forall|i: int| 0 <= i < after.queue.len() implies share_count(
        after.shares,
        key_entry(after, #[trigger] after.queue[i]).target,
    ) == 0 by {
        assert(share_count(s.shares, key_entry(s, s.queue[i]).target) == 0);
    }
}

/// A sound state is sound when one page is registered no longer.
pub proof fn lemma_deregister_keeps_sound(s: State, key: SwapKey)
    requires
        sound(s),
    ensures
        sound(State { queue: queue_remove(s.queue, key), ..s }),
{
    let after = State { queue: queue_remove(s.queue, key), ..s };
    lemma_queue_distinct(s.queue, key);
    lemma_position(s.queue, key);
    match position(s.queue, key) {
        None => {},
        Some(p) => {
            assert forall|i: int| 0 <= i < after.queue.len() implies (exists|j: int|
                0 <= j < s.queue.len() && s.queue[j] == #[trigger] after.queue[i]) by {
                if i < p {
                    assert(s.queue[i] == after.queue[i]);
                } else {
                    assert(s.queue[i + 1] == after.queue[i]);
                }
            }
            assert forall|i: int| 0 <= i < after.queue.len() implies resident_key(
                after,
                #[trigger] after.queue[i],
            ) && share_count(after.shares, key_entry(after, after.queue[i]).target) == 0 by {
                let j = choose|j: int| 0 <= j < s.queue.len() && s.queue[j] == after.queue[i];
                assert(resident_key(s, s.queue[j]));
                assert(share_count(s.shares, key_entry(s, s.queue[j]).target) == 0);
            }
            assert forall|t: int, k: usize| #[trigger] present_in(after, t, k) implies !pool_free(
                after,
                after.tables[t][k].target,
            ) by {
                assert(present_in(s, t, k));
                if pool_free(after, after.tables[t][k].target) {
                    let i = choose|i: int|
                        0 <= i < after.frames.len() && after.frames[i] && #[trigger] after.frame_addr(
                            i,
                        ) == after.tables[t][k].target;
                    assert(s.frame_addr(i) == s.tables[t][k].target);
                    assert(pool_free(s, s.tables[t][k].target));
                }
            }
            assert forall|i: int, t: int, k: usize|
                0 <= i < after.queue.len() && #[trigger] present_in(after, t, k) && !(t == (
                #[trigger] after.queue[i]).0 && k == slot(
                    after.queue[i].1,
                )) implies after.tables[t][k].target != key_entry(after, after.queue[i]).target by {
                let j = choose|j: int| 0 <= j < s.queue.len() && s.queue[j] == after.queue[i];
                assert(present_in(s, t, k));
                assert(s.queue[j] == after.queue[i]);
            }
            assert forall|i: int| 0 <= i < after.frames.len() && after.frames[i] implies share_count(
                after.shares,
                #[trigger] after.frame_addr(i),
            ) == 0 by {
                assert(share_count(s.shares, s.frame_addr(i)) == 0);
            }
        },
    }
}

/// Taking a page out of the pages that may be evicted leaves a sound state
/// sound.
pub proof fn lemma_remove_keeps_sound(s: State, table: usize, addr: VirtAddr)
    requires
        sound(s),
        s.valid_table(table),
    ensures
        sound(s.remove_from_swappable(table, addr).0),
{
    let (after, done) = s.remove_from_swappable(table, addr);
    match s.entry(table, addr) {
        None => {},
        Some(e) => {
            if !e.swapped {
                if e.present {
                    lemma_deregister_keeps_sound(s, (table, page_start(addr)));
                }
            } else {
                if registered_at(s, table, slot(addr) as int) {
                    let i = choose|i: int|
                        0 <= i < s.queue.len() && (#[trigger] s.queue[i]).0 == table && slot(
                            s.queue[i].1,
                        ) == slot(addr) as int;
                    assert(resident_key(s, s.queue[i]));
                }
                lemma_alloc_keeps_sound(s);
                lemma_alloc_keeps_resident(s);
                let (s1, got) = s.alloc_frame();
                match got {
                    None => {},
                    Some(target) => {
                        assert(s1.tables[table as int].contains_key(slot(addr)));
                        assert(s1.entry(table, addr) == Some(e));
                        let loaded = Entry { target, swapped: false, present: true, ..e };
                        lemma_install_spare_keeps_sound(s1, table, addr, loaded);
                        lemma_install(s1, table, addr, loaded);
                        let written = s1.update(table, addr, loaded);
                        assert(written =~~= install(s1, table, addr, loaded));
                        let (s2, r) = s1.swap_load(table, addr, target);
                        if r is Ok {
                            lemma_same_core_sound(written, s2);
                        }
                    },
                }
            }
        },
    }
}

/// Whether unmapping the page at `addr` in `table` under `policy` is sure
/// to leave a sound state sound. A page without an entry is left alone. For
/// any other, under the direct, eager and copy-on-write policies the page
/// must not be registered as one that may be evicted; and wherever a frame is
/// given back, it must be given back cleanly: under the eager policy the
/// frame of the entry, under the copy-on-write policy the frame of the
/// entry when its last mapping goes, under the swappable policy the frame
/// that the page has once it is taken out of the swap extension.
pub open spec fn unmap_keeps_sound(policy: Policy, s: State, table: usize, addr: VirtAddr) -> bool {
    match policy {
        Policy::Direct(h) => !registered_at(s, table, slot(addr) as int),
        Policy::Eager(h) => match s.entry(table, addr) {
            None => true,
            Some(e) => !registered_at(s, table, slot(addr) as int) && releases_cleanly(
                s,
                table,
                slot(addr),
                e.target,
            ),
        },
        Policy::CopyOnWrite(h) => match s.entry(table, addr) {
            None => true,
            Some(e) => !registered_at(s, table, slot(addr) as int) && (shares_last(
                s.shares,
                e.target,
            ) ==> releases_cleanly(unshare(s, e.target), table, slot(addr), e.target)),
        },
        Policy::Swappable { flags, delay } => {
            let (s1, r) = s.remove_from_swappable(table, addr);
            r is Ok && s1.entry(table, addr) is Some && s1.entry(table, addr).unwrap().present
                ==> releases_cleanly(s1, table, slot(addr), s1.entry(table, addr).unwrap().target)
        },
    }
}

/// Emptying the entry of a page that is not registered, and then giving a
/// frame back cleanly, leaves a sound state sound.
pub proof fn lemma_release_keeps_sound(s: State, table: usize, addr: VirtAddr, target: PhysAddr)
    requires
        sound(s),
        s.valid_table(table),
        !registered_at(s, table, slot(addr) as int),
        releases_cleanly(s, table, slot(addr), target),
    ensures
        sound(s.unmap(table, addr)),
        sound(s.dealloc_frame(target).unmap(table, addr)),
        sound(s.unmap(table, addr).dealloc_frame(target)),
{
    let emptied = s.unmap(table, addr);
    lemma_write_unregistered_keeps_sound(s, table, addr, Entry::empty());
    assert(emptied =~~= s.update(table, addr, Entry::empty()));
    assert forall|t: int, k: usize| #[trigger] present_in(emptied, t, k) implies present_in(s, t, k)
        && !(t == table && k == slot(addr)) && emptied.tables[t][k] == s.tables[t][k] by {}
    assert(released(emptied, target) == released(s, target));
    lemma_dealloc_keeps_sound(emptied, target);
    assert(s.dealloc_frame(target).unmap(table, addr) =~~= emptied.dealloc_frame(target));
}

/// Unmapping a page leaves a sound state sound, under the condition that
/// `unmap_keeps_sound` names.
pub proof fn lemma_unmap_keeps_sound(policy: Policy, s: State, table: usize, addr: VirtAddr)
    requires
        sound(s),
        s.valid_table(table),
        unmap_keeps_sound(policy, s, table, addr),
    ensures
        sound(policy.unmap(s, table, addr).0),
{
    match policy {
        Policy::Direct(h) => {
            lemma_write_unregistered_keeps_sound(s, table, addr, Entry::empty());
            assert(s.unmap(table, addr) =~~= s.update(table, addr, Entry::empty()));
        },
        Policy::Eager(h) => {
            match s.entry(table, addr) {
                None => {},
                Some(e) => {
                    lemma_release_keeps_sound(s, table, addr, e.target);
                },
            }
        },
        Policy::CopyOnWrite(h) => {
            match s.entry(table, addr) {
                None => {},
                Some(e) => {
                    let s0 = unshare(s, e.target);
                    lemma_unshare_keeps_sound(s, e.target);
                    assert(!registered_at(s0, table, slot(addr) as int)) by {
                        if registered_at(s0, table, slot(addr) as int) {
                            let i = choose|i: int|
                                0 <= i < s0.queue.len() && (#[trigger] s0.queue[i]).0 == table
                                    && slot(s0.queue[i].1) == slot(addr) as int;
                            assert(s.queue[i] == s0.queue[i]);
                        }
                    }
                    lemma_write_unregistered_keeps_sound(s0, table, addr, Entry::empty());
                    assert(s0.unmap(table, addr) =~~= s0.update(table, addr, Entry::empty()));
                    assert(unshare(s.unmap(table, addr), e.target) =~~= s0.unmap(table, addr));
                    if shares_last(s.shares, e.target) {
                        lemma_release_keeps_sound(s0, table, addr, e.target);
                    }
                },
            }
        },
        Policy::Swappable { flags, delay } => {
            let (s1, r) = s.remove_from_swappable(table, addr);
            lemma_remove_keeps_sound(s, table, addr);
            lemma_remove_keeps_resident(s, table, addr);
            if r is Ok {
                match s1.entry(table, addr) {
                    None => {},
                    Some(e) => {
                        if e.present {
                            lemma_release_keeps_sound(s1, table, addr, e.target);
                        } else {
                            lemma_write_unregistered_keeps_sound(s1, table, addr, Entry::empty());
                            assert(s1.unmap(table, addr) =~~= s1.update(table, addr, Entry::empty()));
                        }
                    },
                }
            }
        },
    }
}

/// Whether unmapping the pages `page` up to `end` in turn is sure to leave a
/// sound state sound: each of them, when its turn comes, can be unmapped so.
pub open spec fn unmap_pages_soundly(policy: Policy, s: State, table: usize, page: int, end: int) -> bool
    decreases end - page,
{
    if page >= end {
        true
    } else {
        &&& unmap_keeps_sound(policy, s, table, page_addr(page))
        &&& policy.unmap(s, table, page_addr(page)).1 is Ok ==> unmap_pages_soundly(
            policy,
            policy.unmap(s, table, page_addr(page)).0,
            table,
            page + 1,
            end,
        )
    }
}

/// Whether unmapping the areas from index `i` on in turn is sure to leave a
/// sound state sound.
pub open spec fn unmap_areas_soundly(areas: Seq<Area>, s: State, table: usize, i: int) -> bool
    decreases areas.len() - i,
{
    if i < 0 || i >= areas.len() {
        true
    } else {
        &&& unmap_pages_soundly(
            areas[i].policy,
            s,
            table,
            areas[i].first_page(),
            areas[i].end_page(),
        )
        &&& areas[i].unmap(s, table).1 is Ok ==> unmap_areas_soundly(
            areas,
            areas[i].unmap(s, table).0,
            table,
            i + 1,
        )
    }
}

/// Whether a clear of `space` is sure to leave a sound state sound: every
/// page of every area, when its turn comes, can be unmapped so.
pub open spec fn clears_soundly(space: Space, s: State) -> bool {
    unmap_areas_soundly(space.areas, s, space.table, 0)
}

/// Unmapping the pages `page` up to `end` leaves a sound state sound, where
/// each of them can be unmapped so when its turn comes.
pub proof fn lemma_unmap_pages_keeps_sound(policy: Policy, s: State, table: usize, page: int, end: int)
    requires
        sound(s),
        s.valid_table(table),
        unmap_pages_soundly(policy, s, table, page, end),
    ensures
        sound(unmap_pages(policy, s, table, page, end).0),
        unmap_pages(policy, s, table, page, end).0.tables.len() == s.tables.len(),
    decreases end - page,
{
    if page < end {
        let (s1, done1) = policy.unmap(s, table, page_addr(page));
        lemma_unmap_keeps_sound(policy, s, table, page_addr(page));
        crate::effects::lemma_unmap_touches(policy, s, table, page_addr(page));
        if done1 is Ok {
            lemma_unmap_pages_keeps_sound(policy, s1, table, page + 1, end);
        }
    }
}

/// Unmapping the areas from index `i` on leaves a sound state sound, where
/// each of their pages can be unmapped so when its turn comes.
pub proof fn lemma_unmap_areas_keeps_sound(areas: Seq<Area>, s: State, table: usize, i: int)
    requires
        sound(s),
        s.valid_table(table),
        0 <= i,
        unmap_areas_soundly(areas, s, table, i),
    ensures
        sound(unmap_areas(areas, s, table, i).0),
    decreases areas.len() - i,
{
    if i < areas.len() {
        let area = areas[i];
        let (s1, done1) = area.unmap(s, table);
        lemma_unmap_pages_keeps_sound(area.policy, s, table, area.first_page(), area.end_page());
        if done1 is Ok {
            lemma_unmap_areas_keeps_sound(areas, s1, table, i + 1);
        }
    }
}

/// A clear leaves a sound state sound, where it clears soundly.
pub proof fn lemma_clear_keeps_sound(space: Space, s: State)
    requires
        sound(s),
        s.valid_table(space.table),
        clears_soundly(space, s),
    ensures
        sound(space.clear(s).0),
{
    lemma_unmap_areas_keeps_sound(space.areas, s, space.table, 0);
}

/// A clear keeps a memory set valid, where it clears soundly.
pub proof fn lemma_clear_keeps_valid(space: Space, s: State)
    requires
        valid(space, s),
        s.valid_table(space.table),
        clears_soundly(space, s),
    ensures
        valid(space.clear(s).1, space.clear(s).0),
        registers_only_in(s, space.clear(s).0, space.table),
{
    lemma_clear_keeps_sound(space, s);
    lemma_clear_keeps_resident(space, s);
    let (after, cleared, done) = space.clear(s);
    assert forall|j: int| 0 <= j < cleared.areas.len() implies (#[trigger] cleared.areas[j]).policy is Swappable
        || unregistered_area(after, cleared.table, cleared.areas[j]) by {
        assert(cleared.areas == space.areas);
        if !(space.areas[j].policy is Swappable) {
            assert(unregistered_area(s, space.table, space.areas[j]));
            assert forall|q: int| space.areas[j].has_page(q) implies !#[trigger] registered_at(
                after,
                space.table,
                q,
            ) by {
                if registered_at(after, space.table, q) {
                    assert(registered_at(s, space.table, q));
                }
            }
        }
    }
}

/// Whether page `page` of `table` can be unmapped soundly under a policy
/// that neither allocates nor counts, the direct or the eager one: the page
/// is not registered as one that may be evicted and, under the eager
/// policy, gives the frame of its entry back cleanly.
pub open spec fn quiet_unmap(policy: Policy, s: State, table: usize, page: int) -> bool {
    &&& policy is Direct || policy is Eager
    &&& !registered_at(s, table, page)
    &&& policy is Eager && s.tables[table as int].contains_key(page as usize) ==> releases_cleanly(
        s,
        table,
        page as usize,
        s.tables[table as int][page as usize].target,
    )
}

/// Unmapping a page under the direct or the eager policy leaves every other
/// page that could be unmapped soundly so.
pub proof fn lemma_quiet_unmap_persists(
    policy: Policy,
    s: State,
    table: usize,
    addr: VirtAddr,
    other: Policy,
    page: int,
)
    requires
        s.valid_table(table),
        policy is Direct || policy is Eager,
        quiet_unmap(other, s, table, page),
        page != slot(addr),
        0 <= page <= usize::MAX,
    ensures
        quiet_unmap(other, policy.unmap(s, table, addr).0, table, page),
        policy.unmap(s, table, addr).0.tables.len() == s.tables.len(),
{
    let after = policy.unmap(s, table, addr).0;
    assert(after.queue == s.queue);
    assert(after.shares == s.shares);
    assert(after.offset == s.offset);
    assert(after.frames.len() == s.frames.len());
    if registered_at(after, table, page) {
        let i = choose|i: int|
            0 <= i < after.queue.len() && (#[trigger] after.queue[i]).0 == table && slot(
                after.queue[i].1,
            ) == page;
        assert(s.queue[i] == after.queue[i]);
        assert(registered_at(s, table, page));
    }
    assert(after.tables[table as int].contains_key(page as usize) == s.tables[table as int].contains_key(
        page as usize,
    ));
    if other is Eager && s.tables[table as int].contains_key(page as usize) {
        let target = s.tables[table as int][page as usize].target;
        assert(after.tables[table as int][page as usize] == s.tables[table as int][page as usize]);
        assert(released(after, target) == released(s, target));
        assert forall|t2: int, k2: usize| #[trigger] present_in(after, t2, k2) implies present_in(
            s,
            t2,
            k2,
        ) && after.tables[t2][k2] == s.tables[t2][k2] by {}
    }
}

/// Unmapping the pages `page` up to `end` under the direct or the eager
/// policy is sound where each of them can be unmapped soundly at the
/// start, and leaves every page outside them that could be unmapped soundly
/// so.
pub proof fn lemma_quiet_unmap_pages(policy: Policy, s: State, table: usize, page: int, end: int)
    requires
        s.valid_table(table),
        0 <= page,
        (end - 1) * 4096 <= usize::MAX,
        policy is Direct || policy is Eager,
        forall|q: int| page <= q < end ==> #[trigger] quiet_unmap(policy, s, table, q),
    ensures
        unmap_pages_soundly(policy, s, table, page, end),
        unmap_pages(policy, s, table, page, end).0.tables.len() == s.tables.len(),
        forall|other: Policy, q: int|
            !(page <= q < end) && 0 <= q <= usize::MAX && #[trigger] quiet_unmap(other, s, table, q)
                ==> quiet_unmap(other, unmap_pages(policy, s, table, page, end).0, table, q),
    decreases end - page,
{
    let whole = unmap_pages(policy, s, table, page, end);
    if page < end {
        let addr = page_addr(page);
        assert(slot(addr) == page);
        let (s1, done1) = policy.unmap(s, table, addr);
        assert(quiet_unmap(policy, s, table, page));
        assert(unmap_keeps_sound(policy, s, table, addr));
        assert forall|other: Policy, q: int|
            q != page && 0 <= q <= usize::MAX && #[trigger] quiet_unmap(
                other,
                s,
                table,
                q,
            ) implies quiet_unmap(other, s1, table, q) by {
            lemma_quiet_unmap_persists(policy, s, table, addr, other, q);
        }
        assert(s1.tables.len() == s.tables.len());
        if done1 is Ok {
            assert forall|q: int| page + 1 <= q < end implies #[trigger] quiet_unmap(
                policy,
                s1,
                table,
                q,
            ) by {
                assert(quiet_unmap(policy, s, table, q));
            }
            lemma_quiet_unmap_pages(policy, s1, table, page + 1, end);
            let tail = unmap_pages(policy, s1, table, page + 1, end);
            assert(whole == tail);
            assert forall|other: Policy, q: int|
                !(page <= q < end) && 0 <= q <= usize::MAX && #[trigger] quiet_unmap(
                    other,
                    s,
                    table,
                    q,
                ) implies quiet_unmap(other, tail.0, table, q) by {
                assert(quiet_unmap(other, s1, table, q));
            }
        } else {
            assert(whole == (s1, done1));
        }
    } else {
        assert(whole.0 == s);
    }
}

/// Unmapping the areas from index `i` on, all of them direct or eager, is
/// sound where each of their pages can be unmapped soundly at the start.
pub proof fn lemma_quiet_unmap_areas(areas: Seq<Area>, s: State, table: usize, i: int)
    requires
        s.valid_table(table),
        0 <= i <= areas.len(),
        pairwise_disjoint(areas),
        forall|j: int, q: int|
            i <= j < areas.len() && (#[trigger] areas[j]).has_page(q) ==> #[trigger] quiet_unmap(
                areas[j].policy,
                s,
                table,
                q,
            ),
        forall|j: int|
            i <= j < areas.len() ==> (#[trigger] areas[j]).policy is Direct || areas[j].policy is Eager,
    ensures
        unmap_areas_soundly(areas, s, table, i),
    decreases areas.len() - i,
{
    if i < areas.len() {
        let area = areas[i];
        let (s1, done1) = area.unmap(s, table);
        assert forall|q: int| area.first_page() <= q < area.end_page() implies #[trigger] quiet_unmap(
            area.policy,
            s,
            table,
            q,
        ) by {
            assert(areas[i].has_page(q));
        }
        lemma_quiet_unmap_pages(area.policy, s, table, area.first_page(), area.end_page());
        if done1 is Ok {
            assert forall|j: int, q: int|
                i + 1 <= j < areas.len() && (#[trigger] areas[j]).has_page(
                    q,
                ) implies #[trigger] quiet_unmap(areas[j].policy, s1, table, q) by {
                assert(quiet_unmap(areas[j].policy, s, table, q));
                assert(!areas[i].overlaps(areas[j]));
                assert(!(area.first_page() <= q < area.end_page()));
            }
            lemma_quiet_unmap_areas(areas, s1, table, i + 1);
        }
    }
}

/// A set of direct and eager areas clears soundly where none of its pages
/// is registered as one that may be evicted and each page of an eager area
/// gives the frame of its entry back cleanly: the frame is bound to no
/// other present page and is not counted as shared.
pub proof fn lemma_quiet_set_clears_soundly(space: Space, s: State)
    requires
        space.wf(),
        s.valid_table(space.table),
        forall|j: int, q: int|
            0 <= j < space.areas.len() && (#[trigger] space.areas[j]).has_page(q)
                ==> #[trigger] quiet_unmap(space.areas[j].policy, s, space.table, q),
        forall|j: int|
            0 <= j < space.areas.len() ==> (#[trigger] space.areas[j]).policy is Direct
                || space.areas[j].policy is Eager,
    ensures
        clears_soundly(space, s),
{
    lemma_quiet_unmap_areas(space.areas, s, space.table, 0);
}

} // verus!
