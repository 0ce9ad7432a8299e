//! Page-table entries and the page table that the memory policies edit.

use std::collections::HashMap;
use vstd::prelude::*;
use crate::addr::{page_number, PhysAddr, VirtAddr, PAGE_SIZE};

verus! {

broadcast use vstd::std_specs::hash::group_hash_axioms;

/// One entry of a page table: the frame a page is bound to, or the token
/// under which its content was swapped out, and the entry's bits.
#[derive(Debug, Clone, Copy, PartialEq, Eq, Structural)]
pub struct Entry {
    pub present: bool,
    pub user: bool,
    pub writable: bool,
    pub execute: bool,
    pub shared: bool,
    pub swapped: bool,
    pub target: PhysAddr,
}

impl Entry {
    /// The entry of a page that is bound to nothing.
    pub open spec fn empty() -> Entry {
        Entry {
            present: false,
            user: false,
            writable: false,
            execute: false,
            shared: false,
            swapped: false,
            target: 0,
        }
    }

    /// The entry that a fresh mapping to `target` installs.
    pub open spec fn mapped(target: PhysAddr) -> Entry {
        Entry { present: true, target, ..Entry::empty() }
    }

    /// Whether the page is in a frame.
    pub fn present(&self) -> (b: bool)
        ensures
            b == self.present,
    {
        self.present
    }

    /// Whether user code may reach the page.
    pub fn user(&self) -> (b: bool)
        ensures
            b == self.user,
    {
        self.user
    }

    /// Whether the page may be written.
    pub fn writable(&self) -> (b: bool)
        ensures
            b == self.writable,
    {
        self.writable
    }

    /// Whether code may run from the page.
    pub fn execute(&self) -> (b: bool)
        ensures
            b == self.execute,
    {
        self.execute
    }

    /// Whether the page's frame is counted in the copy-on-write table.
    pub fn shared(&self) -> (b: bool)
        ensures
            b == self.shared,
    {
        self.shared
    }

    /// Whether the page's content is in the backing store.
    pub fn swapped(&self) -> (b: bool)
        ensures
            b == self.swapped,
    {
        self.swapped
    }

    /// The frame that the page is bound to or, for a page that is swapped
    /// out, the token of its content.
    pub fn target(&self) -> (addr: PhysAddr)
        ensures
            addr == self.target,
    {
        self.target
    }

    /// Sets the present bit.
    pub fn set_present(&mut self, value: bool)
        ensures
            *final(self) == (Entry { present: value, ..*old(self) }),
    {
        self.present = value;
    }

    /// Sets the user bit.
    pub fn set_user(&mut self, value: bool)
        ensures
            *final(self) == (Entry { user: value, ..*old(self) }),
    {
        self.user = value;
    }

    /// Sets the writable bit.
    pub fn set_writable(&mut self, value: bool)
        ensures
            *final(self) == (Entry { writable: value, ..*old(self) }),
    {
        self.writable = value;
    }

    /// Sets the execute bit.
    pub fn set_execute(&mut self, value: bool)
        ensures
            *final(self) == (Entry { execute: value, ..*old(self) }),
    {
        self.execute = value;
    }

    /// Sets the shared bit.
    pub fn set_shared(&mut self, value: bool)
        ensures
            *final(self) == (Entry { shared: value, ..*old(self) }),
    {
        self.shared = value;
    }

    /// Sets the swapped bit.
    pub fn set_swapped(&mut self, value: bool)
        ensures
            *final(self) == (Entry { swapped: value, ..*old(self) }),
    {
        self.swapped = value;
    }

    /// Binds the entry to `target`.
    pub fn set_target(&mut self, target: PhysAddr)
        ensures
            *final(self) == (Entry { target, ..*old(self) }),
    {
        self.target = target;
    }
}

/// What a table holds: for each page that has a slot, its entry.
pub type Entries = Map<usize, Entry>;

/// The slot of the page that holds `addr`.
pub open spec fn slot(addr: VirtAddr) -> usize {
    page_number(addr as int) as usize
}

/// `entries` after a fresh mapping of the page of `addr` to `target`.
pub open spec fn entries_map(entries: Entries, addr: VirtAddr, target: PhysAddr) -> Entries {
    entries.insert(slot(addr), Entry::mapped(target))
}

/// `entries` after the page of `addr` is unmapped: its slot stays, emptied.
pub open spec fn entries_unmap(entries: Entries, addr: VirtAddr) -> Entries {
    if entries.contains_key(slot(addr)) {
        entries.insert(slot(addr), Entry::empty())
    } else {
        entries
    }
}

/// The entry of the page of `addr`, where the page has a slot.
pub open spec fn entries_get(entries: Entries, addr: VirtAddr) -> Option<Entry> {
    if entries.contains_key(slot(addr)) {
        Some(entries[slot(addr)])
    } else {
        None
    }
}

/// `entries` after `entry` is written to the slot of the page of `addr`;
/// a page without a slot gets none.
pub open spec fn entries_update(entries: Entries, addr: VirtAddr, entry: Entry) -> Entries {
    if entries.contains_key(slot(addr)) {
        entries.insert(slot(addr), entry)
    } else {
        entries
    }
}

/// A page table: the entries of the pages of one address space.
pub struct PageTable {
    pub entries: HashMap<usize, Entry>,
}

impl View for PageTable {
    type V = Entries;

    open spec fn view(&self) -> Entries {
        self.entries@
    }
}

impl PageTable {
    /// A table in which no page has a slot.
    pub fn new() -> (table: PageTable)
        ensures
            table@ == Map::<usize, Entry>::empty(),
    {
        PageTable { entries: HashMap::new() }
    }

    /// A table with the same entries.
    pub fn duplicate(&self) -> (table: PageTable)
        ensures
            table@ == self@,
    {
        PageTable { entries: self.entries.clone() }
    }

    /// Binds the page of `addr` to `target` and returns the entry installed:
    /// present, with every other bit off.
    pub fn map(&mut self, addr: VirtAddr, target: PhysAddr) -> (entry: Entry)
        ensures
            entry == Entry::mapped(target),
            final(self)@ == entries_map(old(self)@, addr, target),
    {
        let entry = Entry {
            present: true,
            user: false,
            writable: false,
            execute: false,
            shared: false,
            swapped: false,
            target,
        };
        self.entries.insert(addr / PAGE_SIZE, entry);
        entry
    }

    /// Empties the entry of the page of `addr`. The slot itself stays.
    pub fn unmap(&mut self, addr: VirtAddr)
        ensures
            final(self)@ == entries_unmap(old(self)@, addr),
    {
        let key: usize = addr / PAGE_SIZE;
        if self.entries.contains_key(&key) {
            let entry = Entry {
                present: false,
                user: false,
                writable: false,
                execute: false,
                shared: false,
                swapped: false,
                target: 0,
            };
            self.entries.insert(key, entry);
        }
    }

    /// The entry of the page of `addr`, if the page has a slot.
    pub fn get_entry(&self, addr: VirtAddr) -> (entry: Option<Entry>)
        ensures
            entry == entries_get(self@, addr),
    {
        let key: usize = addr / PAGE_SIZE;
        match self.entries.get(&key) {
            Some(e) => Some(*e),
            None => None,
        }
    }

    /// Writes `entry` back to the slot of the page of `addr`. Returns whether
    /// the page has a slot; without one nothing is written.
    pub fn update(&mut self, addr: VirtAddr, entry: Entry) -> (written: bool)
        ensures
            written == old(self)@.contains_key(slot(addr)),
            final(self)@ == entries_update(old(self)@, addr, entry),
    {
        let key: usize = addr / PAGE_SIZE;
        if self.entries.contains_key(&key) {
            self.entries.insert(key, entry);
            true
        } else {
            false
        }
    }
}

} // verus!
