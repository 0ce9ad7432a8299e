//! Addresses and pages.

use vstd::prelude::*;

verus! {

/// A virtual address.
pub type VirtAddr = usize;

/// A physical address.
pub type PhysAddr = usize;

/// The size of a page and of a frame, in bytes.
pub const PAGE_SIZE: usize = 4096;

/// The number of the page that holds `addr`.
pub open spec fn page_number(addr: int) -> int {
    addr / 4096
}

/// The number of the first page that lies wholly at or above `addr`:
/// one past the page of the last byte below `addr`.
pub open spec fn page_bound(addr: int) -> int {
    (addr + 4095) / 4096
}

/// A page of virtual memory, named by its number.
#[derive(Debug, Clone, Copy, PartialEq, Eq, Structural)]
pub struct Page {
    pub number: usize,
}

impl Page {
    /// A page whose first byte has an address.
    pub open spec fn wf(&self) -> bool {
        self.number * 4096 <= usize::MAX
    }

    /// The page that holds `addr`.
    pub fn of_addr(addr: VirtAddr) -> (page: Page)
        ensures
            page.number == page_number(addr as int),
            page.wf(),
    {
        Page { number: addr / PAGE_SIZE }
    }

    /// The address of the first byte of the page.
    pub fn start_address(&self) -> (addr: VirtAddr)
        requires
            self.wf(),
        ensures
            addr == self.number * 4096,
    {
        self.number * PAGE_SIZE
    }

    /// The pages that hold the bytes of `[begin, end)`.
    pub fn range_of(begin: VirtAddr, end: VirtAddr) -> (range: PageRange)
        ensures
            range.start.number == page_number(begin as int),
            range.end.number == page_bound(end as int),
            range.wf(),
    {
        let stop: usize = if end == 0 {
            0
        } else {
            (end - 1) / PAGE_SIZE + 1
        };
        PageRange { start: Page { number: begin / PAGE_SIZE }, end: Page { number: stop } }
    }
}

/// The pages from `start` up to, not including, `end`.
#[derive(Debug, Clone, Copy)]
pub struct PageRange {
    pub start: Page,
    pub end: Page,
}

impl PageRange {
    /// Every page of the range has an address.
    pub open spec fn wf(&self) -> bool {
        (self.end.number - 1) * 4096 <= usize::MAX
    }

    /// How many pages are left.
    pub open spec fn spec_len(&self) -> nat {
        if self.start.number < self.end.number {
            (self.end.number - self.start.number) as nat
        } else {
            0
        }
    }

    /// The pages that are left, in rising order.
    pub open spec fn pages(&self) -> Seq<Page> {
        Seq::new(self.spec_len(), |i: int| Page { number: (self.start.number + i) as usize })
    }

    /// How many pages are left.
    pub fn len(&self) -> (n: usize)
        ensures
            n == self.spec_len(),
    {
        if self.start.number < self.end.number {
            self.end.number - self.start.number
        } else {
            0
        }
    }

    /// Takes the lowest page off the range, if one is left.
    pub fn next(&mut self) -> (page: Option<Page>)
        requires
            old(self).wf(),
        ensures
            final(self).wf(),
            final(self).end == old(self).end,
            match page {
                Some(p) => {
                    &&& old(self).start.number < old(self).end.number
                    &&& p == old(self).start
                    &&& p.wf()
                    &&& final(self).start.number == old(self).start.number + 1
                },
                None => old(self).start.number >= old(self).end.number && *final(self) == *old(
                    self,
                ),
            },
    {
        if self.start.number < self.end.number {
            let page = self.start;
            self.start = Page { number: page.number + 1 };
            Some(page)
        } else {
            None
        }
    }
}

} // verus!
