use ucore_memory::addr::{Page, PAGE_SIZE};
use ucore_memory::cow::CowExt;
use ucore_memory::frame::FrameAllocator;
use ucore_memory::memory_set::MemoryAttr;
use ucore_memory::paging::{Entry, PageTable};
use ucore_memory::phys::PhysMemory;
use ucore_memory::swap::{FifoSwapManager, MockSwapper};

#[test]
fn it_works() {
    assert_eq!(2 + 2, 4);
}

#[test]
fn page_of_addr_rounds_down() {
    assert_eq!(Page::of_addr(0).number, 0);
    assert_eq!(Page::of_addr(PAGE_SIZE - 1).number, 0);
    assert_eq!(Page::of_addr(PAGE_SIZE).number, 1);
    assert_eq!(Page::of_addr(3 * PAGE_SIZE + 17).start_address(), 3 * PAGE_SIZE);
}

#[test]
fn page_range_holds_every_touched_page() {
    let mut range = Page::range_of(0x1000, 0x3001);
    assert_eq!(range.len(), 3);
    assert_eq!(range.next(), Some(Page { number: 1 }));
    assert_eq!(range.next(), Some(Page { number: 2 }));
    assert_eq!(range.next(), Some(Page { number: 3 }));
    assert_eq!(range.next(), None);
    assert_eq!(range.len(), 0);
}

#[test]
fn page_range_of_nothing_is_empty() {
    let mut range = Page::range_of(0, 0);
    assert_eq!(range.len(), 0);
    assert_eq!(range.next(), None);
    let mut range = Page::range_of(0x2000, 0x2000);
    assert_eq!(range.len(), 0);
    assert_eq!(range.next(), None);
}

#[test]
fn attr_builders_set_one_bit_each() {
    let attr = MemoryAttr::default();
    assert_eq!(attr, MemoryAttr { user: false, readonly: false, execute: false });
    assert_eq!(attr.user(), MemoryAttr { user: true, readonly: false, execute: false });
    assert_eq!(attr.readonly(), MemoryAttr { user: false, readonly: true, execute: false });
    assert_eq!(attr.execute(), MemoryAttr { user: false, readonly: false, execute: true });
    assert!(attr.readonly().is_readonly());
    assert!(!attr.user().execute().is_readonly());
}

#[test]
fn attr_apply_sets_entry_bits() {
    let mut table = PageTable::new();
    let mut entry = table.map(0x5000, 0x9000);
    assert_eq!(
        entry,
        Entry {
            present: true,
            user: false,
            writable: false,
            execute: false,
            shared: false,
            swapped: false,
            target: 0x9000
        }
    );
    entry.set_present(false);
    entry.set_shared(true);
    MemoryAttr::default().user().execute().apply(&mut entry);
    assert!(entry.present());
    assert!(entry.user());
    assert!(entry.writable());
    assert!(entry.execute());
    assert!(entry.shared());
    assert!(!entry.swapped());
    assert_eq!(entry.target(), 0x9000);
    MemoryAttr::default().readonly().apply(&mut entry);
    assert!(!entry.user());
    assert!(!entry.writable());
    assert!(!entry.execute());
}

#[test]
fn page_table_keeps_slot_after_unmap() {
    let mut table = PageTable::new();
    assert_eq!(table.get_entry(0x1234), None);
    table.unmap(0x1234);
    assert_eq!(table.get_entry(0x1234), None);
    assert!(!table.update(0x1234, Entry { present: true, user: true, writable: true, execute: true, shared: true, swapped: true, target: 7 }));
    assert_eq!(table.get_entry(0x1234), None);
    table.map(0x1234, 0x8000);
    assert_eq!(table.get_entry(0x1000).unwrap().target(), 0x8000);
    assert_eq!(table.get_entry(0x1fff).unwrap().target(), 0x8000);
    assert_eq!(table.get_entry(0x2000), None);
    let mut entry = table.get_entry(0x1234).unwrap();
    entry.set_writable(true);
    entry.set_target(0xa000);
    assert!(table.update(0x1000, entry));
    assert_eq!(table.get_entry(0x1234), Some(entry));
    table.unmap(0x1234);
    let cleared = table.get_entry(0x1234).unwrap();
    assert!(!cleared.present());
    assert!(!cleared.writable());
    assert_eq!(cleared.target(), 0);
    let copy = table.duplicate();
    assert_eq!(copy.get_entry(0x1234), Some(cleared));
}

#[test]
fn frame_allocator_hands_out_lowest_free() {
    let mut pool = FrameAllocator::new(8);
    assert_eq!(pool.capacity(), 8);
    assert_eq!(pool.allocate(), None);
    pool.insert(2, 5);
    assert!(!pool.test(1));
    assert!(pool.test(2));
    assert!(pool.test(4));
    assert!(!pool.test(5));
    assert_eq!(pool.allocate(), Some(2));
    assert_eq!(pool.allocate(), Some(3));
    pool.deallocate(2);
    assert_eq!(pool.allocate(), Some(2));
    assert_eq!(pool.allocate(), Some(4));
    assert_eq!(pool.allocate(), None);
    pool.deallocate(100);
    assert_eq!(pool.allocate(), None);
    pool.insert(6, 100);
    assert_eq!(pool.allocate(), Some(6));
    assert_eq!(pool.allocate(), Some(7));
    assert_eq!(pool.allocate(), None);
}

#[test]
fn cow_table_counts_mappings() {
    let mut cow = CowExt::new();
    assert_eq!(cow.count(0x8000), 0);
    assert!(!cow.is_one_shared(0x8000));
    assert!(!cow.unmap_shared(0x8000));
    assert!(cow.map_to_shared(0x8000, true));
    assert!(cow.is_one_shared(0x8000));
    assert!(cow.is_writable_shared(0x8000));
    assert!(cow.map_to_shared(0x8000, true));
    assert_eq!(cow.count(0x8000), 2);
    assert!(!cow.is_one_shared(0x8000));
    assert!(!cow.unmap_shared(0x8000));
    assert!(cow.is_one_shared(0x8000));
    assert!(cow.unmap_shared(0x8000));
    assert_eq!(cow.count(0x8000), 0);
    assert!(!cow.is_writable_shared(0x8000));
}

#[test]
fn cow_table_refuses_past_the_limit() {
    let mut cow = CowExt::new();
    cow.rc_map.insert(0x8000, (usize::MAX, false));
    assert!(!cow.map_to_shared(0x8000, true));
    assert_eq!(cow.count(0x8000), usize::MAX);
    assert!(!cow.is_writable_shared(0x8000));
}

#[test]
fn swap_queue_is_first_in_first_out() {
    let mut queue = FifoSwapManager::new();
    assert_eq!(queue.pop(), None);
    queue.push((1, 0x1000));
    queue.push((1, 0x2000));
    queue.push((2, 0x1000));
    queue.push((1, 0x1000));
    assert_eq!(queue.len(), 3);
    assert_eq!(queue.find((2, 0x1000)), Some(2));
    assert_eq!(queue.find((3, 0x1000)), None);
    queue.remove((1, 0x2000));
    queue.remove((5, 0x2000));
    assert_eq!(queue.len(), 2);
    assert_eq!(queue.pop(), Some((1, 0x1000)));
    assert_eq!(queue.pop(), Some((2, 0x1000)));
    assert_eq!(queue.pop(), None);
}

#[test]
fn mock_swapper_hands_back_what_it_took() {
    let mut store = MockSwapper::new();
    assert_eq!(store.swap_in(0), Err(()));
    assert_eq!(store.swap_out(vec![1u8, 2, 3]), Ok(0));
    assert_eq!(store.swap_out(vec![4u8]), Ok(1));
    assert_eq!(store.swap_in(0), Ok(vec![1u8, 2, 3]));
    assert_eq!(store.swap_in(0), Err(()));
    assert_eq!(store.swap_out(vec![9u8]), Ok(2));
    assert_eq!(store.swap_in(1), Ok(vec![4u8]));
    store.next_token = usize::MAX;
    assert_eq!(store.swap_out(vec![7u8]), Err(()));
    assert_eq!(store.swap_in(2), Ok(vec![9u8]));
}

#[test]
fn memory_reads_zero_until_written() {
    let mut mem = PhysMemory::new();
    assert_eq!(mem.read(0x8000, 17), 0);
    assert_eq!(mem.load(0x8000), vec![0u8; PAGE_SIZE]);
    mem.write(0x8000, 17, 0xab);
    assert_eq!(mem.read(0x8000, 17), 0xab);
    assert_eq!(mem.read(0x8000, 18), 0);
    assert_eq!(mem.read(0x9000, 17), 0);
    let mut page = mem.load(0x8000);
    assert_eq!(page.len(), PAGE_SIZE);
    page[0] = 1;
    mem.store(0x9000, page);
    assert_eq!(mem.read(0x9000, 0), 1);
    assert_eq!(mem.read(0x9000, 17), 0xab);
    assert_eq!(mem.read(0x8000, 0), 0);
}
