//! Virtual pages and the four table indices of a page number.

use vstd::prelude::*;

verus! {

/// Bytes in a page and in a frame.
pub const PAGE_SIZE: u64 = 4096;

/// Entries in a table of any level.
pub const ENTRY_COUNT: usize = 512;

/// A canonical address lies in the lower half or in the upper half of the
/// 64-bit address space; the hardware faults on everything in between.
pub open spec fn canonical(address: u64) -> bool {
    address < 0x0000_8000_0000_0000 || address >= 0xffff_8000_0000_0000
}

/// Tells whether `address` may be handed to [`Page::containing_address`].
pub fn is_canonical(address: u64) -> (ok: bool)
    ensures
        ok == canonical(address),
{
    address < 0x0000_8000_0000_0000 || address >= 0xffff_8000_0000_0000
}

/// A virtual page, named by its number: its first address divided by the
/// page size.
#[derive(Debug, Clone, Copy, PartialEq, Eq, PartialOrd, Ord, Structural)]
pub struct Page {
    pub number: u64,
}

impl Page {
    /// The page numbers that canonical addresses have.
    pub open spec fn valid(self) -> bool {
        self.number < 0x8_0000_0000 || (0xf_fff8_0000_0000 <= self.number
            && self.number <= 0xf_ffff_ffff_ffff)
    }

    /// The page that holds `address`.
    pub open spec fn containing(address: u64) -> Page {
        Page { number: address / 4096 }
    }

    /// The first address of the page.
    pub open spec fn start(self) -> int {
        self.number * 4096
    }

    /// Index into the level-4 table.
    pub open spec fn p4(self) -> int {
        ((self.number >> 27) & 0x1ff) as int
    }

    /// Index into the level-3 table.
    pub open spec fn p3(self) -> int {
        ((self.number >> 18) & 0x1ff) as int
    }

    /// Index into the level-2 table.
    pub open spec fn p2(self) -> int {
        ((self.number >> 9) & 0x1ff) as int
    }

    /// Index into the level-1 table.
    pub open spec fn p1(self) -> int {
        (self.number & 0x1ff) as int
    }

    /// The page that holds the canonical address `address`.
    pub fn containing_address(address: u64) -> (page: Page)
        requires
            canonical(address),
        ensures
            page == Page::containing(address),
            page.valid(),
    {
        Page { number: address / PAGE_SIZE }
    }

    /// The first address of the page.
    pub fn start_address(&self) -> (address: u64)
        requires
            self.valid(),
        ensures
            address == self.start(),
            canonical(address),
            address % 4096 == 0,
    {
        self.number * PAGE_SIZE
    }

    /// Index into the level-4 table.
    pub fn p4_index(&self) -> (index: usize)
        ensures
            index == self.p4(),
            index < 512,
    {
        let number: u64 = self.number;
        assert((number >> 27) & 0x1ff < 512) by (bit_vector);
        ((number >> 27) & 0o777) as usize
    }

    /// Index into the level-3 table.
    pub fn p3_index(&self) -> (index: usize)
        ensures
            index == self.p3(),
            index < 512,
    {
        let number: u64 = self.number;
        assert((number >> 18) & 0x1ff < 512) by (bit_vector);
        ((number >> 18) & 0o777) as usize
    }

    /// Index into the level-2 table.
    pub fn p2_index(&self) -> (index: usize)
        ensures
            index == self.p2(),
            index < 512,
    {
        let number: u64 = self.number;
        assert((number >> 9) & 0x1ff < 512) by (bit_vector);
        ((number >> 9) & 0o777) as usize
    }

    /// Index into the level-1 table.
    pub fn p1_index(&self) -> (index: usize)
        ensures
            index == self.p1(),
            index < 512,
    {
        let number: u64 = self.number;
        assert((number >> 0) & 0x1ff == number & 0x1ff && number & 0x1ff < 512) by (bit_vector);
        ((number >> 0) & 0o777) as usize
    }

    /// The pages from `start` to `end`, both included, in rising order.
    pub fn range_inclusive(start: Page, end: Page) -> (pages: PageIter)
        ensures
            pages.start == start,
            pages.end == end,
    {
        PageIter { start, end }
    }

    /// Each index names one of 512 slots.
    pub proof fn lemma_indices_in_range(self)
        ensures
            0 <= self.p4() < 512,
            0 <= self.p3() < 512,
            0 <= self.p2() < 512,
            0 <= self.p1() < 512,
    {
        let n = self.number;
        assert((n >> 27) & 0x1ff < 512 && (n >> 18) & 0x1ff < 512 && (n >> 9) & 0x1ff < 512 && n
            & 0x1ff < 512) by (bit_vector);
    }

    /// A valid page is determined by its four indices.
    pub proof fn lemma_indices_determine_page(self, other: Page)
        requires
            self.valid(),
            other.valid(),
            self.p4() == other.p4(),
            self.p3() == other.p3(),
            self.p2() == other.p2(),
            self.p1() == other.p1(),
        ensures
            self == other,
    {
        let a = self.number;
        let b = other.number;
        assert(a == b) by (bit_vector)
            requires
                a < 0x8_0000_0000 || (0xf_fff8_0000_0000 <= a && a <= 0xf_ffff_ffff_ffff),
                b < 0x8_0000_0000 || (0xf_fff8_0000_0000 <= b && b <= 0xf_ffff_ffff_ffff),
                (a >> 27) & 0x1ff == (b >> 27) & 0x1ff,
                (a >> 18) & 0x1ff == (b >> 18) & 0x1ff,
                (a >> 9) & 0x1ff == (b >> 9) & 0x1ff,
                a & 0x1ff == b & 0x1ff,
        ;
    }

    /// An address lies in the page that holds it: at or after the page's
    /// first address, and less than one page size beyond it.
    pub proof fn lemma_containing_address_bounds(address: u64)
        requires
            canonical(address),
        ensures
            Page::containing(address).valid(),
            Page::containing(address).start() <= address,
            address < Page::containing(address).start() + PAGE_SIZE,
    {
    }
}

/// The pages that are left of an inclusive range.
pub struct PageIter {
    pub start: Page,
    pub end: Page,
}

impl PageIter {
    /// The pages still to come, in the order in which `next` hands them out.
    pub open spec fn view(self) -> Seq<Page> {
        if self.start.number <= self.end.number {
            Seq::new(
                (self.end.number - self.start.number + 1) as nat,
                |i: int| Page { number: (self.start.number + i) as u64 },
            )
        } else {
            Seq::empty()
        }
    }

    /// Hands out the first page that is left, if any.
    pub fn next(&mut self) -> (page: Option<Page>)
        requires
            old(self).end.number < u64::MAX,
        ensures
            final(self).end == old(self).end,
            match page {
                Some(p) => {
                    &&& old(self)@.len() > 0
                    &&& p == old(self)@[0]
                    &&& p == old(self).start
                    &&& final(self)@ == old(self)@.drop_first()
                    &&& final(self).start.number == old(self).start.number + 1
                },
                None => old(self)@.len() == 0 && *final(self) == *old(self),
            },
    {
        if self.start.number <= self.end.number {
            let page = self.start;
            self.start.number += 1;
            assert(self@ =~= old(self)@.drop_first());
            Some(page)
        } else {
            None
        }
    }
}

} // verus!
