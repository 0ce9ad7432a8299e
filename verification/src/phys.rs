//! The content of physical frames, page by page.

use std::collections::HashMap;
use vstd::prelude::*;
use crate::addr::{PhysAddr, PAGE_SIZE};

verus! {

broadcast use vstd::std_specs::hash::group_hash_axioms;

/// The content of each frame that was ever written, by the frame's address.
pub type Contents = Map<usize, Seq<u8>>;

/// A page of zero bytes.
pub open spec fn zero_page() -> Seq<u8> {
    Seq::new(4096, |i: int| 0u8)
}

/// The content of `frame`: what was last stored there, and zeros before that.
pub open spec fn content(mem: Contents, frame: usize) -> Seq<u8> {
    if mem.contains_key(frame) {
        mem[frame]
    } else {
        zero_page()
    }
}

/// Every page held is a whole page.
pub open spec fn contents_wf(mem: Contents) -> bool {
    forall|f: usize| mem.contains_key(f) ==> (#[trigger] mem[f]).len() == 4096
}

/// The pages of a map of byte vectors, as sequences.
pub open spec fn pages_view(pages: Map<usize, Vec<u8>>) -> Contents {
    Map::new(|f: usize| pages.contains_key(f), |f: usize| pages[f]@)
}

/// A copy of `bytes`.
pub fn copy_bytes(bytes: &Vec<u8>) -> (copy: Vec<u8>)
    ensures
        copy@ == bytes@,
{
    let mut copy: Vec<u8> = Vec::new();
    let mut i: usize = 0;
    while i < bytes.len()
        invariant
            i <= bytes.len(),
            copy@ == bytes@.take(i as int),
        decreases bytes.len() - i,
    {
        copy.push(bytes[i]);
        i += 1;
        assert(copy@ =~= bytes@.take(i as int));
    }
    assert(bytes@.take(bytes.len() as int) =~= bytes@);
    copy
}

/// A fresh page of zero bytes.
pub fn new_zero_page() -> (page: Vec<u8>)
    ensures
        page@ == zero_page(),
{
    let mut page: Vec<u8> = Vec::new();
    let mut i: usize = 0;
    while i < PAGE_SIZE
        invariant
            i <= 4096,
            page@ == Seq::new(i as nat, |k: int| 0u8),
        decreases 4096 - i,
    {
        page.push(0u8);
        i += 1;
        assert(page@ =~= Seq::new(i as nat, |k: int| 0u8));
    }
    page
}

/// Physical memory: the bytes of every frame.
pub struct PhysMemory {
    pub pages: HashMap<usize, Vec<u8>>,
}

impl View for PhysMemory {
    type V = Contents;

    open spec fn view(&self) -> Contents {
        pages_view(self.pages@)
    }
}

impl PhysMemory {
    /// Every frame holds a whole page.
    pub open spec fn wf(&self) -> bool {
        contents_wf(self@)
    }

    /// Memory in which every frame holds zeros.
    pub fn new() -> (mem: PhysMemory)
        ensures
            mem@ == Map::<usize, Seq<u8>>::empty(),
            mem.wf(),
    {
        let mem = PhysMemory { pages: HashMap::new() };
        assert(mem@ =~= Map::<usize, Seq<u8>>::empty());
        mem
    }

    /// A copy of the page that `frame` holds.
    pub fn load(&self, frame: PhysAddr) -> (data: Vec<u8>)
        ensures
            data@ == content(self@, frame),
    {
        match self.pages.get(&frame) {
            Some(page) => copy_bytes(page),
            None => new_zero_page(),
        }
    }

    /// Replaces the page that `frame` holds by `data`.
    pub fn store(&mut self, frame: PhysAddr, data: Vec<u8>)
        ensures
            final(self)@ == old(self)@.insert(frame, data@),
    {
        self.pages.insert(frame, data);
        assert(self@ =~= old(self)@.insert(frame, data@));
    }

    /// The byte at `offset` in `frame`.
    pub fn read(&self, frame: PhysAddr, offset: usize) -> (value: u8)
        requires
            self.wf(),
            offset < 4096,
        ensures
            value == content(self@, frame)[offset as int],
    {
        match self.pages.get(&frame) {
            Some(page) => {
                assert(self@.contains_key(frame));
                assert(self@[frame].len() == 4096);
                page[offset]
            },
            None => 0u8,
        }
    }

    /// Sets the byte at `offset` in `frame` to `value`.
    pub fn write(&mut self, frame: PhysAddr, offset: usize, value: u8)
        requires
            old(self).wf(),
            offset < 4096,
        ensures
            final(self).wf(),
            final(self)@ == old(self)@.insert(
                frame,
                content(old(self)@, frame).update(offset as int, value),
            ),
    {
        let mut page = self.load(frame);
        assert(old(self)@.contains_key(frame) ==> old(self)@[frame].len() == 4096);
        page[offset] = value;
        self.store(frame, page);
    }
}

} // verus!
