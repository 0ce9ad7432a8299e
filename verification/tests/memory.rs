use ucore_memory::addr::PAGE_SIZE;
use ucore_memory::context::{MemoryContext, MemoryError};
use ucore_memory::handler::cow::CowMemoryHandler;
use ucore_memory::handler::normal::NormalMemoryHandler;
use ucore_memory::handler::simple::SimpleMemoryHandler;
use ucore_memory::handler::swap::SwapMemoryHandler;
use ucore_memory::handler::MemoryHandler;
use ucore_memory::memory_set::{InactivePageTable, MemoryArea, MemoryAttr, MemorySet};
use ucore_memory::paging::{Entry, PageTable};
use ucore_memory::program::{memory_attr_from, memory_set_from, Segment};
use ucore_memory::swap::SwapError;

const OFFSET: usize = 0x8000_0000;

fn context(frames: usize) -> MemoryContext {
    let mut ctx = MemoryContext::new(OFFSET, frames, PageTable::new());
    ctx.insert_frames(0, frames);
    ctx
}

fn free_frames(ctx: &MemoryContext) -> usize {
    ctx.frames.bits.iter().filter(|free| **free).count()
}

fn eager(start: usize, end: usize) -> MemoryArea {
    MemoryArea::new(start, end, MemoryHandler::Eager(NormalMemoryHandler::new(MemoryAttr::default().user())), "eager")
}

fn cow(start: usize, end: usize) -> MemoryArea {
    MemoryArea::new(start, end, MemoryHandler::CopyOnWrite(CowMemoryHandler::new(MemoryAttr::default().user())), "cow")
}

fn swappable(start: usize, end: usize, delay: Vec<usize>) -> MemoryArea {
    MemoryArea::new(
        start,
        end,
        MemoryHandler::Swappable(SwapMemoryHandler::new(MemoryAttr::default().user(), delay)),
        "swap",
    )
}

fn direct(start: usize, end: usize, phys: usize) -> MemoryArea {
    MemoryArea::new(
        start,
        end,
        MemoryHandler::Direct(SimpleMemoryHandler::new(start, phys, MemoryAttr::default())),
        "direct",
    )
}

#[test]
fn is_overlap_with_compares_whole_pages() {
    let a = eager(0, 4096);
    let b = eager(4096, 8192);
    let c = eager(0, 4097);
    assert!(!a.is_overlap_with(&b));
    assert!(!b.is_overlap_with(&a));
    assert!(c.is_overlap_with(&b));
    assert!(b.is_overlap_with(&c));
    assert!(a.is_overlap_with(&c));
    assert!(a.is_overlap_with(&a));
    let d = eager(100, 200);
    let e = eager(300, 400);
    assert!(d.is_overlap_with(&e));
}

#[test]
fn area_contains_is_half_open() {
    let a = eager(0x1000, 0x3000);
    assert_eq!(a.get_start_addr(), 0x1000);
    assert_eq!(a.get_end_addr(), 0x3000);
    assert!(!a.contains(0xfff));
    assert!(a.contains(0x1000));
    assert!(a.contains(0x2fff));
    assert!(!a.contains(0x3000));
}

#[test]
fn simple_memory_handler_test() {
    let mut ctx = context(4);
    let mhandler = SimpleMemoryHandler::new(0x0, 0x0, MemoryAttr::default());
    let inpt = ctx.active_table();
    assert_eq!(mhandler.map(&mut ctx, inpt, 0x0), Ok(()));
    assert!(ctx.get_entry(inpt, 0x0).expect("failed to get entry").present());
    assert_eq!(ctx.get_entry(inpt, 0x0).expect("failed to get entry").target(), 0x0);
    assert_eq!(mhandler.unmap(&mut ctx, inpt, 0x0), Ok(()));
    assert!(!ctx.get_entry(inpt, 0x0).expect("failed to get entry").present());
}

#[test]
fn direct_maps_at_fixed_distance() {
    let mut ctx = context(4);
    let handler = SimpleMemoryHandler::new(0xc000_0000, 0x10_0000, MemoryAttr::default().execute());
    assert_eq!(handler.target(0xc000_3000), 0x10_3000);
    assert_eq!(handler.target(0xc000_0000 - 0x1000), 0xf_f000);
    let wrap = SimpleMemoryHandler::new(0, usize::MAX, MemoryAttr::default());
    assert_eq!(wrap.target(2), 1);
    let table = InactivePageTable::new_bare(&mut ctx);
    assert_eq!(handler.map(&mut ctx, table.token(), 0xc000_3000), Ok(()));
    let entry = ctx.get_entry(table.token(), 0xc000_3abc).unwrap();
    assert_eq!(entry.target(), 0x10_3000);
    assert!(entry.present() && entry.writable() && entry.execute() && !entry.user());
    assert_eq!(free_frames(&ctx), 4);
    assert_eq!(handler.page_fault_handler(&mut ctx, table.token(), 0xc000_3000), Ok(false));
    let other = InactivePageTable::new_bare(&mut ctx);
    assert_eq!(handler.map_clone(&mut ctx, other.token(), 0xc000_3000), Ok(()));
    assert_eq!(ctx.get_entry(other.token(), 0xc000_3000), Some(entry));
}

#[test]
fn alloc_frame_gives_offset_plus_index_times_page() {
    let mut ctx = MemoryContext::new(OFFSET, 8, PageTable::new());
    assert_eq!(ctx.alloc_frame(), None);
    ctx.insert_frames(3, 5);
    assert_eq!(InactivePageTable::alloc_frame(&mut ctx), Some(OFFSET + 3 * PAGE_SIZE));
    assert_eq!(ctx.alloc_frame(), Some(OFFSET + 4 * PAGE_SIZE));
    assert_eq!(ctx.alloc_frame(), None);
    InactivePageTable::dealloc_frame(&mut ctx, OFFSET + 3 * PAGE_SIZE + 5);
    ctx.dealloc_frame(OFFSET - 1);
    ctx.dealloc_frame(OFFSET + 100 * PAGE_SIZE);
    assert_eq!(ctx.alloc_frame(), Some(OFFSET + 3 * PAGE_SIZE));
    assert_eq!(ctx.alloc_frame(), None);
}

#[test]
fn new_table_copies_kernel_mappings() {
    let mut kernel = PageTable::new();
    kernel.map(0xc000_0000, 0x1000);
    let mut ctx = MemoryContext::new(OFFSET, 2, kernel);
    assert_eq!(ctx.table_count(), 1);
    let set = MemorySet::new(&mut ctx);
    let bare = MemorySet::new_bare(&mut ctx);
    assert_eq!(set.token(), 1);
    assert_eq!(bare.token(), 2);
    assert_eq!(ctx.table_count(), 3);
    assert_eq!(ctx.get_entry(set.token(), 0xc000_0000).unwrap().target(), 0x1000);
    assert_eq!(ctx.get_entry(bare.token(), 0xc000_0000), None);
    assert_eq!(ctx.active_table(), 0);
    bare.activate(&mut ctx);
    assert_eq!(ctx.active_table(), 2);
    assert!(set.iter().is_empty());
}

#[test]
fn push_refuses_overlap_and_changes_nothing() {
    let mut ctx = context(8);
    let mut set = MemorySet::new_bare(&mut ctx);
    assert_eq!(set.push(&mut ctx, eager(0x1000, 0x3000)), Ok(()));
    assert_eq!(free_frames(&ctx), 6);
    assert_eq!(set.push(&mut ctx, eager(0x2fff, 0x5000)), Err(MemoryError::Overlap));
    assert_eq!(set.iter().len(), 1);
    assert_eq!(free_frames(&ctx), 6);
    assert_eq!(ctx.get_entry(set.token(), 0x3000), None);
    assert_eq!(set.push(&mut ctx, eager(0x3000, 0x5000)), Ok(()));
    assert_eq!(set.iter().len(), 2);
    assert_eq!(free_frames(&ctx), 4);
    for a in set.iter() {
        for b in set.iter() {
            if a.get_start_addr() != b.get_start_addr() {
                assert!(!a.is_overlap_with(b));
            }
        }
    }
}

#[test]
fn find_area_returns_first_containing() {
    let mut ctx = context(8);
    let mut set = MemorySet::new_bare(&mut ctx);
    set.push(&mut ctx, eager(0x1000, 0x2800)).unwrap();
    set.push(&mut ctx, cow(0x4000, 0x5000)).unwrap();
    assert!(set.find_area(0xfff).is_none());
    assert_eq!(set.find_area(0x1000).unwrap().get_end_addr(), 0x2800);
    assert_eq!(set.find_area(0x27ff).unwrap().get_start_addr(), 0x1000);
    assert!(set.find_area(0x2800).is_none());
    assert_eq!(set.find_area(0x4abc).unwrap().name, "cow");
}

#[test]
fn push_then_clear_leaves_nothing_mapped() {
    let mut ctx = context(8);
    let mut set = MemorySet::new_bare(&mut ctx);
    set.push(&mut ctx, eager(0x1000, 0x3000)).unwrap();
    set.push(&mut ctx, cow(0x4000, 0x5000)).unwrap();
    set.push(&mut ctx, swappable(0x6000, 0x8000, Vec::new())).unwrap();
    set.push(&mut ctx, direct(0xa000, 0xb000, 0x1000)).unwrap();
    assert_eq!(free_frames(&ctx), 3);
    assert_eq!(ctx.swap.manager.len(), 2);
    assert_eq!(ctx.cow.count(ctx.get_entry(set.token(), 0x4000).unwrap().target()), 1);
    assert_eq!(set.clear(&mut ctx), Ok(()));
    assert!(set.iter().is_empty());
    for addr in [0x1000usize, 0x2000, 0x4000, 0x6000, 0x7000, 0xa000] {
        assert_eq!(ctx.get_entry(set.token(), addr).map(|e| e.present()), Some(false));
    }
    assert_eq!(free_frames(&ctx), 8);
    assert_eq!(ctx.swap.manager.len(), 0);
    assert!(ctx.cow.rc_map.is_empty());
}

#[test]
fn clear_unmaps_unbacked_swappable_page() {
    let mut ctx = context(2);
    let mut set = MemorySet::new_bare(&mut ctx);
    set.push(&mut ctx, swappable(0x1000, 0x2000, vec![0x1000])).unwrap();
    let entry = ctx.get_entry(set.token(), 0x1000).unwrap();
    assert!(!entry.present() && !entry.swapped() && entry.user() && entry.writable());
    assert_eq!(entry.target(), 0);
    assert_eq!(free_frames(&ctx), 2);
    assert_eq!(set.clear(&mut ctx), Ok(()));
    let cleared = ctx.get_entry(set.token(), 0x1000).unwrap();
    assert!(!cleared.present() && !cleared.swapped() && !cleared.user() && !cleared.writable());
    assert_eq!(cleared.target(), 0);
    assert_eq!(free_frames(&ctx), 2);
    assert_eq!(ctx.swap.manager.len(), 0);
}

#[test]
fn swappable_unmap_of_unbacked_page_frees_nothing_and_keeps_delay() {
    let mut ctx = context(1);
    let table = InactivePageTable::new_bare(&mut ctx);
    let t = table.token();
    let handler = SwapMemoryHandler::new(MemoryAttr::default(), vec![0x3000]);
    assert_eq!(handler.map(&mut ctx, t, 0x3000), Ok(()));
    assert_eq!(ctx.alloc_frame(), Some(OFFSET));
    assert_eq!(free_frames(&ctx), 0);
    assert_eq!(handler.unmap(&mut ctx, t, 0x3000), Ok(()));
    assert_eq!(free_frames(&ctx), 0);
    let entry = ctx.get_entry(t, 0x3000).unwrap();
    assert!(!entry.present());
    assert_eq!(entry.target(), 0);
    assert_eq!(handler.delay_alloc, vec![0x3000]);
    assert!(handler.is_delayed(0x3000));
    assert_eq!(handler.map(&mut ctx, t, 0x3000), Ok(()));
    assert!(!ctx.get_entry(t, 0x3000).unwrap().present());
}

#[test]
fn eager_out_of_memory() {
    let mut ctx = context(1);
    let mut set = MemorySet::new_bare(&mut ctx);
    assert_eq!(set.push(&mut ctx, eager(0x1000, 0x3000)), Err(MemoryError::OutOfMemory));
    assert!(set.iter().is_empty());
    assert!(ctx.get_entry(set.token(), 0x1000).unwrap().present());
    assert_eq!(ctx.get_entry(set.token(), 0x2000), None);
}

#[test]
fn unmap_without_entry_is_not_mapped() {
    let mut ctx = context(2);
    let table = InactivePageTable::new_bare(&mut ctx);
    let t = table.token();
    assert_eq!(NormalMemoryHandler::new(MemoryAttr::default()).unmap(&mut ctx, t, 0x1000), Err(MemoryError::NotMapped));
    assert_eq!(CowMemoryHandler::new(MemoryAttr::default()).unmap(&mut ctx, t, 0x1000), Err(MemoryError::NotMapped));
    assert_eq!(
        SwapMemoryHandler::new(MemoryAttr::default(), Vec::new()).unmap(&mut ctx, t, 0x1000),
        Err(MemoryError::NotMapped)
    );
    assert_eq!(SimpleMemoryHandler::new(0, 0, MemoryAttr::default()).unmap(&mut ctx, t, 0x1000), Ok(()));
    assert_eq!(
        CowMemoryHandler::new(MemoryAttr::default()).page_fault_handler(&mut ctx, t, 0x1000),
        Err(MemoryError::NotMapped)
    );
    assert_eq!(
        CowMemoryHandler::new(MemoryAttr::default().readonly()).page_fault_handler(&mut ctx, t, 0x1000),
        Ok(false)
    );
}

#[test]
fn cow_share_limit() {
    let mut ctx = context(1);
    ctx.cow.rc_map.insert(OFFSET, (usize::MAX, true));
    let table = InactivePageTable::new_bare(&mut ctx);
    assert_eq!(
        CowMemoryHandler::new(MemoryAttr::default()).map(&mut ctx, table.token(), 0x1000),
        Err(MemoryError::ShareLimit)
    );
}

#[test]
fn swap_errors() {
    let mut ctx = context(1);
    assert_eq!(ctx.swap_out_any(), Err(SwapError::NoVictim));
    let table = InactivePageTable::new_bare(&mut ctx);
    let t = table.token();
    assert_eq!(ctx.swap_out((t, 0x1000)), Err(SwapError::NotMapped));
    assert_eq!(ctx.swap_out((99, 0x1000)), Err(SwapError::NotMapped));
    assert_eq!(ctx.swap_in(t, 0x1000, OFFSET), Err(SwapError::NotMapped));
    ctx.map(t, 0x1000, OFFSET);
    assert_eq!(ctx.swap_in(t, 0x1000, OFFSET), Err(SwapError::NotSwapped));
    ctx.swap.swapper.next_token = usize::MAX;
    assert_eq!(ctx.swap_out((t, 0x1000)), Err(SwapError::IOError));
    ctx.swap.swapper.next_token = 5;
    assert_eq!(ctx.swap_out((t, 0x1000)), Ok(OFFSET));
    assert_eq!(ctx.get_entry(t, 0x1000).unwrap().target(), 5);
    assert_eq!(ctx.swap_out((t, 0x1000)), Err(SwapError::AlreadySwapped));
    ctx.swap.swapper.pages.clear();
    assert_eq!(ctx.swap_in(t, 0x1000, OFFSET), Err(SwapError::IOError));
    let handler = SwapMemoryHandler::new(MemoryAttr::default(), Vec::new());
    assert_eq!(ctx.alloc_frame(), Some(OFFSET));
    ctx.dealloc_frame(OFFSET);
    assert_eq!(
        handler.page_fault_handler(&mut ctx, t, 0x1000),
        Err(MemoryError::Swap(SwapError::IOError))
    );
}

#[test]
fn exhausted_pool_evicts_oldest_registered_page() {
    let mut ctx = context(1);
    let mut set = MemorySet::new_bare(&mut ctx);
    let t = set.token();
    set.push(&mut ctx, swappable(0x1000, 0x2000, Vec::new())).unwrap();
    let first = ctx.get_entry(t, 0x1000).unwrap();
    assert_eq!(first.target(), OFFSET);
    ctx.memory.write(OFFSET, 9, 0x77);
    assert_eq!(free_frames(&ctx), 0);
    set.push(&mut ctx, swappable(0x5000, 0x6000, Vec::new())).unwrap();
    let evicted = ctx.get_entry(t, 0x1000).unwrap();
    assert!(!evicted.present() && evicted.swapped());
    assert_eq!(evicted.target(), 0);
    let second = ctx.get_entry(t, 0x5000).unwrap();
    assert!(second.present() && !second.swapped());
    assert_eq!(second.target(), OFFSET);
    assert_eq!(ctx.swap.manager.pop(), Some((t, 0x5000)));
    ctx.swap.manager.push((t, 0x5000));
    ctx.memory.write(OFFSET, 9, 0x11);
    let area = set.find_area(0x1234).unwrap();
    assert_eq!(area.page_fault_handler(&mut ctx, t, 0x1234), Ok(true));
    let back = ctx.get_entry(t, 0x1000).unwrap();
    assert!(back.present() && !back.swapped());
    assert_eq!(back.target(), OFFSET);
    assert_eq!(ctx.memory.read(OFFSET, 9), 0x77);
    let other = ctx.get_entry(t, 0x5000).unwrap();
    assert!(!other.present() && other.swapped());
    assert_eq!(ctx.read_page(t, 0x5000).unwrap()[9], 0x11);
    assert_eq!(set.find_area(0x1234).unwrap().page_fault_handler(&mut ctx, t, 0x1234), Ok(false));
    assert_eq!(set.clear(&mut ctx), Ok(()));
    assert_eq!(free_frames(&ctx), 1);
    assert!(ctx.swap.swapper.pages.is_empty());
}

#[test]
fn alloc_fails_when_nothing_can_be_evicted() {
    let mut ctx = context(1);
    let mut set = MemorySet::new_bare(&mut ctx);
    set.push(&mut ctx, eager(0x1000, 0x2000)).unwrap();
    assert_eq!(ctx.alloc_frame(), None);
    assert_eq!(set.push(&mut ctx, cow(0x3000, 0x4000)), Err(MemoryError::OutOfMemory));
}

#[test]
fn eager_fork_copies_and_diverges() {
    let mut ctx = context(8);
    let mut parent = MemorySet::new_bare(&mut ctx);
    parent.activate(&mut ctx);
    parent.push(&mut ctx, eager(0x1000, 0x3000)).unwrap();
    let first = ctx.get_entry(parent.token(), 0x1000).unwrap().target();
    let second = ctx.get_entry(parent.token(), 0x2000).unwrap().target();
    ctx.memory.write(first, 5, 0xaa);
    ctx.memory.write(second, 6, 0xbb);
    let child = parent.clone(&mut ctx).unwrap();
    assert_eq!(child.iter().len(), 1);
    assert_eq!(child.iter()[0].get_start_addr(), 0x1000);
    assert_eq!(child.iter()[0].get_end_addr(), 0x3000);
    let one = ctx.get_entry(child.token(), 0x1000).unwrap();
    let two = ctx.get_entry(child.token(), 0x2000).unwrap();
    assert!(one.present() && one.writable() && one.user());
    assert!(one.target() != first && one.target() != second && two.target() != first && two.target() != second);
    assert!(one.target() != two.target());
    assert_eq!(ctx.memory.load(one.target()), ctx.memory.load(first));
    assert_eq!(ctx.memory.read(two.target(), 6), 0xbb);
    ctx.memory.write(one.target(), 5, 0x01);
    ctx.memory.write(second, 6, 0x02);
    assert_eq!(ctx.memory.read(first, 5), 0xaa);
    assert_eq!(ctx.memory.read(one.target(), 5), 0x01);
    assert_eq!(ctx.memory.read(two.target(), 6), 0xbb);
    assert_eq!(free_frames(&ctx), 4);
}

#[test]
fn cow_fork_shares_until_written() {
    let mut ctx = context(8);
    let mut parent = MemorySet::new_bare(&mut ctx);
    parent.activate(&mut ctx);
    parent.push(&mut ctx, cow(0x1000, 0x2000)).unwrap();
    let before = ctx.get_entry(parent.token(), 0x1000).unwrap();
    assert!(before.present() && before.writable() && before.shared());
    let frame = before.target();
    ctx.memory.write(frame, 3, 0x42);
    let child = parent.clone(&mut ctx).unwrap();
    let p = ctx.get_entry(parent.token(), 0x1000).unwrap();
    let c = ctx.get_entry(child.token(), 0x1000).unwrap();
    assert_eq!(p.target(), frame);
    assert_eq!(c.target(), frame);
    assert!(!p.writable() && !c.writable());
    assert!(c.present() && c.shared() && c.user());
    assert_eq!(ctx.cow.count(frame), 2);
    assert_eq!(free_frames(&ctx), 7);

    let area = child.find_area(0x1800).unwrap();
    assert_eq!(area.page_fault_handler(&mut ctx, child.token(), 0x1800), Ok(true));
    let c = ctx.get_entry(child.token(), 0x1000).unwrap();
    assert!(c.writable());
    assert!(c.target() != frame);
    assert_eq!(ctx.cow.count(c.target()), 1);
    assert_eq!(ctx.cow.count(frame), 1);
    assert_eq!(ctx.memory.read(c.target(), 3), 0x42);
    assert_eq!(free_frames(&ctx), 6);
    ctx.memory.write(c.target(), 3, 0x99);
    assert_eq!(ctx.memory.read(frame, 3), 0x42);
    let p = ctx.get_entry(parent.token(), 0x1000).unwrap();
    assert_eq!(p.target(), frame);
    assert!(!p.writable());

    let area = parent.find_area(0x1000).unwrap();
    assert_eq!(area.page_fault_handler(&mut ctx, parent.token(), 0x1000), Ok(true));
    let p = ctx.get_entry(parent.token(), 0x1000).unwrap();
    assert!(p.writable());
    assert_eq!(p.target(), frame);
    assert_eq!(free_frames(&ctx), 6);
    assert_eq!(ctx.memory.read(frame, 3), 0x42);
}

#[test]
fn cow_unmap_frees_frame_with_last_owner() {
    let mut ctx = context(4);
    let mut parent = MemorySet::new_bare(&mut ctx);
    parent.activate(&mut ctx);
    parent.push(&mut ctx, cow(0x1000, 0x2000)).unwrap();
    let mut child = parent.clone(&mut ctx).unwrap();
    assert_eq!(free_frames(&ctx), 3);
    assert_eq!(child.clear(&mut ctx), Ok(()));
    assert_eq!(free_frames(&ctx), 3);
    assert!(ctx.get_entry(parent.token(), 0x1000).unwrap().present());
    assert_eq!(parent.clear(&mut ctx), Ok(()));
    assert_eq!(free_frames(&ctx), 4);
}

#[test]
fn swappable_fork_delays_untouched_pages() {
    let mut ctx = context(4);
    let mut parent = MemorySet::new_bare(&mut ctx);
    parent.activate(&mut ctx);
    parent.push(&mut ctx, swappable(0x1000, 0x3000, vec![0x2000])).unwrap();
    assert_eq!(free_frames(&ctx), 3);
    let backed = ctx.get_entry(parent.token(), 0x1000).unwrap().target();
    ctx.memory.write(backed, 1, 0x5a);
    let child = parent.clone(&mut ctx).unwrap();
    assert_eq!(free_frames(&ctx), 2);
    let t = child.token();
    let copied = ctx.get_entry(t, 0x1000).unwrap();
    assert!(copied.present() && copied.target() != backed);
    assert_eq!(ctx.memory.read(copied.target(), 1), 0x5a);
    let delayed = ctx.get_entry(t, 0x2000).unwrap();
    assert!(!delayed.present() && !delayed.swapped());
    assert_eq!(delayed.target(), 0);
    match &child.iter()[0].memory_handler {
        MemoryHandler::Swappable(h) => {
            assert_eq!(h.delay_alloc, vec![0x2000]);
            assert!(h.is_delayed(0x2abc));
            assert!(!h.is_delayed(0x1000));
        }
        _ => panic!("policy changed"),
    }
    let area = child.find_area(0x2abc).unwrap();
    assert_eq!(area.page_fault_handler(&mut ctx, t, 0x2abc), Ok(true));
    assert_eq!(free_frames(&ctx), 1);
    let resident = ctx.get_entry(t, 0x2000).unwrap();
    assert!(resident.present() && resident.user() && resident.writable());
    assert_eq!(ctx.swap.manager.find((t, 0x2000)), Some(2));
    let area = child.find_area(0x2abc).unwrap();
    assert_eq!(area.page_fault_handler(&mut ctx, t, 0x2abc), Ok(false));
    assert_eq!(free_frames(&ctx), 1);
}

#[test]
fn fork_of_unmapped_source_fails() {
    let mut ctx = context(4);
    let mut parent = MemorySet::new_bare(&mut ctx);
    parent.push(&mut ctx, cow(0x1000, 0x2000)).unwrap();
    assert_eq!(ctx.active_table(), 0);
    assert_eq!(parent.clone(&mut ctx).err(), Some(MemoryError::NotMapped));
    let mut handler = MemoryHandler::Eager(NormalMemoryHandler::new(MemoryAttr::default()));
    assert_eq!(handler.map_clone(&mut ctx, parent.token(), 0x7000), Err(MemoryError::NotMapped));
    let copy = handler.box_clone();
    assert!(matches!(copy, MemoryHandler::Eager(_)));
    let updated = Entry { present: true, user: false, writable: false, execute: false, shared: false, swapped: false, target: 1 };
    ctx.update(parent.token(), 0x9000, updated);
    assert_eq!(ctx.get_entry(parent.token(), 0x9000), None);
}

#[test]
fn with_runs_while_table_is_live_and_restores() {
    let mut ctx = context(2);
    let set = MemorySet::new_bare(&mut ctx);
    assert_eq!(ctx.active_table(), 0);
    let seen = set.with(&mut ctx, |live| live.active_table());
    assert_eq!(seen, set.token());
    assert_eq!(ctx.active_table(), 0);
    let table = InactivePageTable::new_bare(&mut ctx);
    set.activate(&mut ctx);
    table.edit(&mut ctx).map(0x4000, 0x9000);
    let target = table.with(&mut ctx, |live| {
        live.get_entry(live.active_table(), 0x4000).map(|e| e.target())
    });
    assert_eq!(target, Some(0x9000));
    assert_eq!(ctx.active_table(), set.token());
}

#[test]
fn swappable_unmap_brings_swapped_page_back_first() {
    let mut ctx = context(1);
    let mut set = MemorySet::new_bare(&mut ctx);
    let t = set.token();
    set.push(&mut ctx, swappable(0x1000, 0x2000, Vec::new())).unwrap();
    assert_eq!(ctx.swap_out_any(), Ok(OFFSET));
    ctx.dealloc_frame(OFFSET);
    assert!(ctx.get_entry(t, 0x1000).unwrap().swapped());
    assert_eq!(ctx.swap.swapper.pages.len(), 1);
    assert_eq!(set.clear(&mut ctx), Ok(()));
    assert!(ctx.swap.swapper.pages.is_empty());
    assert_eq!(free_frames(&ctx), 1);
    let entry = ctx.get_entry(t, 0x1000).unwrap();
    assert!(!entry.present() && !entry.swapped());
}

#[test]
fn eager_fork_under_exhaustion_evicts_registered_page() {
    let mut ctx = context(2);
    let mut other = MemorySet::new_bare(&mut ctx);
    other.push(&mut ctx, swappable(0x9000, 0xa000, Vec::new())).unwrap();
    let victim = ctx.get_entry(other.token(), 0x9000).unwrap().target();
    let mut parent = MemorySet::new_bare(&mut ctx);
    parent.activate(&mut ctx);
    parent.push(&mut ctx, eager(0x1000, 0x2000)).unwrap();
    let p = ctx.get_entry(parent.token(), 0x1000).unwrap().target();
    ctx.memory.write(p, 0, 0x33);
    assert_eq!(free_frames(&ctx), 0);
    let child = parent.clone(&mut ctx).unwrap();
    let c = ctx.get_entry(child.token(), 0x1000).unwrap();
    assert_eq!(c.target(), victim);
    assert!(c.target() != p);
    assert_eq!(ctx.memory.read(c.target(), 0), 0x33);
    assert!(ctx.get_entry(other.token(), 0x9000).unwrap().swapped());
    assert_eq!(ctx.get_entry(parent.token(), 0x1000).unwrap().target(), p);
}

#[test]
fn memory_set_from_pushes_one_cow_area_per_segment() {
    assert_eq!(memory_attr_from(false), MemoryAttr { user: true, readonly: false, execute: false });
    assert_eq!(memory_attr_from(true), MemoryAttr { user: true, readonly: false, execute: true });
    let mut ctx = context(8);
    let segments = vec![
        Segment { virt_addr: 0x1_0000, mem_size: 0x1800, execute: true },
        Segment { virt_addr: 0x2_0000, mem_size: 0x10, execute: false },
    ];
    let set = memory_set_from(&mut ctx, &segments).unwrap();
    assert_eq!(set.iter().len(), 2);
    assert_eq!(set.iter()[0].get_start_addr(), 0x1_0000);
    assert_eq!(set.iter()[0].get_end_addr(), 0x1_1800);
    assert_eq!(set.iter()[1].name, "");
    assert!(matches!(set.iter()[1].memory_handler, MemoryHandler::CopyOnWrite(_)));
    assert_eq!(free_frames(&ctx), 5);
    let code = ctx.get_entry(set.token(), 0x1_1000).unwrap();
    assert!(code.present() && code.user() && code.execute() && code.writable() && code.shared());
    let data = ctx.get_entry(set.token(), 0x2_0000).unwrap();
    assert!(data.present() && !data.execute());
    let overlapping = vec![
        Segment { virt_addr: 0x1000, mem_size: 0x1000, execute: false },
        Segment { virt_addr: 0x1800, mem_size: 0x1000, execute: false },
    ];
    assert_eq!(memory_set_from(&mut ctx, &overlapping).err(), Some(MemoryError::Overlap));
}

#[test]
fn to_range_rounds_outward() {
    let ctx = context(8);
    assert_eq!(ctx.to_range(OFFSET, OFFSET + 1), (0, 1));
    assert_eq!(ctx.to_range(OFFSET + 0x1fff, OFFSET + 0x3000), (1, 3));
    assert_eq!(ctx.to_range(OFFSET + 0x2000, OFFSET + 0x3001), (2, 4));
}

#[test]
fn empty_area_maps_nothing() {
    let mut ctx = context(2);
    let mut set = MemorySet::new_bare(&mut ctx);
    assert_eq!(set.push(&mut ctx, eager(0x1000, 0x1000)), Ok(()));
    assert_eq!(set.push(&mut ctx, eager(0, 0)), Ok(()));
    assert_eq!(free_frames(&ctx), 2);
    assert_eq!(ctx.get_entry(set.token(), 0x1000), None);
    assert!(set.find_area(0x1000).is_none());
    assert_eq!(set.clear(&mut ctx), Ok(()));
}

#[test]
fn edit_reaches_a_table_that_is_not_live() {
    let mut ctx = context(2);
    let table = InactivePageTable::new_bare(&mut ctx);
    assert!(ctx.active_table() != table.token());
    let entry = table.edit(&mut ctx).map(0x5000, 0x9000);
    assert_eq!(ctx.get_entry(table.token(), 0x5123), Some(entry));
    assert_eq!(ctx.get_entry(0, 0x5000), None);
    table.edit(&mut ctx).unmap(0x5000);
    assert!(!ctx.get_entry(table.token(), 0x5000).unwrap().present());
    assert_eq!(free_frames(&ctx), 2);
}

#[test]
fn get_page_table_mut_names_the_sets_table() {
    let mut ctx = context(1);
    let mut set = MemorySet::new_bare(&mut ctx);
    let token = set.token();
    assert_eq!(set.get_page_table_mut().token(), token);
    assert_eq!(*set.get_page_table_mut(), InactivePageTable { id: token });
}

#[test]
fn map_delays_only_an_address_that_is_listed() {
    let mut ctx = context(2);
    let table = InactivePageTable::new_bare(&mut ctx);
    let t = table.token();
    let handler = SwapMemoryHandler::new(MemoryAttr::default(), vec![0x1004, 0x5000]);
    assert!(!handler.is_listed(0x1000));
    assert!(handler.is_listed(0x1004));
    assert!(handler.is_delayed(0x1000));
    assert_eq!(handler.map(&mut ctx, t, 0x1000), Ok(()));
    let backed = ctx.get_entry(t, 0x1000).unwrap();
    assert!(backed.present());
    assert_eq!(backed.target(), OFFSET);
    assert_eq!(free_frames(&ctx), 1);
    assert_eq!(ctx.swap.manager.find((t, 0x1000)), Some(0));
    assert_eq!(handler.map(&mut ctx, t, 0x5000), Ok(()));
    let unbacked = ctx.get_entry(t, 0x5000).unwrap();
    assert!(!unbacked.present() && !unbacked.swapped());
    assert_eq!(unbacked.target(), 0);
    assert_eq!(free_frames(&ctx), 1);
    assert_eq!(ctx.swap.manager.len(), 1);
    assert_eq!(handler.page_fault_handler(&mut ctx, t, 0x5abc), Ok(true));
    assert!(ctx.get_entry(t, 0x5000).unwrap().present());
    assert_eq!(free_frames(&ctx), 0);
}

#[test]
fn set_page_fault_goes_to_first_containing_area() {
    let mut ctx = context(4);
    let mut set = MemorySet::new_bare(&mut ctx);
    set.activate(&mut ctx);
    set.push(&mut ctx, eager(0x1000, 0x2000)).unwrap();
    set.push(&mut ctx, swappable(0x4000, 0x5000, vec![0x4000])).unwrap();
    assert_eq!(free_frames(&ctx), 3);
    assert_eq!(set.page_fault_handler(&mut ctx, 0x9000), Ok(false));
    assert_eq!(set.page_fault_handler(&mut ctx, 0x1800), Ok(false));
    assert_eq!(set.page_fault_handler(&mut ctx, 0x5000), Ok(false));
    assert_eq!(free_frames(&ctx), 3);
    assert_eq!(set.page_fault_handler(&mut ctx, 0x4123), Ok(true));
    assert!(ctx.get_entry(set.token(), 0x4000).unwrap().present());
    assert_eq!(free_frames(&ctx), 2);
    assert_eq!(set.page_fault_handler(&mut ctx, 0x4123), Ok(false));
    let mut cows = MemorySet::new_bare(&mut ctx);
    cows.push(&mut ctx, cow(0x1000, 0x1800)).unwrap();
    assert_eq!(cows.page_fault_handler(&mut ctx, 0x1900), Ok(false));
    assert_eq!(cows.page_fault_handler(&mut ctx, 0x17ff), Ok(true));
}
