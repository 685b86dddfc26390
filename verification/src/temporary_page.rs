//! One page that is mapped to a frame for as long as the frame is edited.

use vstd::prelude::*;
use crate::active::ActivePageTable;
use crate::allocator::{FrameAllocator, OutOfFrames};
use crate::entry::{compose, Entry, EntryFlags, PRESENT, WRITABLE};
use crate::frame::Frame;
use crate::machine::Machine;
use crate::mapper::Mapper;
use crate::page::Page;
use crate::space::edited;
use crate::table::{Table, TableLevel};
use crate::tiny_allocator::TinyAllocator;
use crate::tree::{frames_of, layout_of};

verus! {

/// A page that is not otherwise used, with the frames for the tables that
/// mapping it may need.
pub struct TemporaryPage {
    pub page: Page,
    pub allocator: TinyAllocator,
}

impl TemporaryPage {
    /// The temporary page at `page`, with up to three frames of `allocator`.
    pub fn new<A: FrameAllocator>(page: Page, allocator: &mut A) -> (temporary: TemporaryPage)
        requires
            old(allocator).wf(),
        ensures
            final(allocator).wf(),
            temporary.allocator.wf(),
            temporary.page == page,
            temporary.allocator.free_frames().subset_of(old(allocator).free_frames()),
            final(allocator).free_frames() == old(allocator).free_frames().difference(
                temporary.allocator.free_frames(),
            ),
            forall|frame: Frame| old(allocator).accepts(frame) ==> final(allocator).accepts(frame),
            temporary.allocator.free_frames().finite(),
            temporary.allocator.free_frames().len() <= 3,
            old(allocator).eager() ==> final(allocator).eager(),
            old(allocator).free_frames().finite() ==> final(allocator).free_frames().finite()
                && final(allocator).free_frames().len() + temporary.allocator.free_frames().len()
                == old(allocator).free_frames().len(),
            old(allocator).eager()
                && old(allocator).free_frames().finite()
                && old(allocator).free_frames().len() >= 3
                ==> temporary.allocator.free_frames().len() == 3,
    {
        TemporaryPage { page, allocator: TinyAllocator::new(allocator) }
    }

    /// The page can be mapped in `mapper`: it is a page outside the
    /// recursive slot that is not mapped, no huge page lies on the way to
    /// it, and the tables that are missing on the way can be made of the
    /// frames that are held.
    pub open spec fn ready<M: Machine>(self, mapper: Mapper<M>) -> bool {
        &&& mapper.wf()
        &&& self.allocator.wf()
        &&& self.page.valid()
        &&& self.page.p4() != 511
        &&& mapper.resolve(self.page) == None::<Frame>
        &&& !mapper.blocked(self.page)
        &&& mapper.covers(self.page) || mapper.can_take(self.allocator.free_frames())
    }

    /// Maps the page to `frame` in the active table, writable, and returns
    /// the page's first address.
    pub fn map<M: Machine>(
        &mut self,
        frame: Frame,
        active_table: &mut ActivePageTable<M>,
    ) -> (result: Result<u64, OutOfFrames>)
        requires
            old(self).ready(old(active_table).mapper),
            frame.valid(),
        ensures
            final(self).page == old(self).page,
            final(self).allocator.wf(),
            final(active_table).mapper.wf(),
            edited(old(active_table).mapper.machine@, final(active_table).mapper.machine@),
            match result {
                Ok(address) => {
                    &&& address == old(self).page.start()
                    &&& final(active_table).mapper@ == old(active_table).mapper@.insert(
                        old(self).page,
                        Entry { bits: compose(frame.number, WRITABLE | PRESENT) },
                    )
                    &&& final(active_table).mapper.covers(old(self).page)
                },
                Err(_) => final(active_table).mapper@ == old(active_table).mapper@,
            },
            old(active_table).mapper.covers(old(self).page) ==> {
                &&& result is Ok
                &&& final(self).allocator.free_frames() == old(self).allocator.free_frames()
            },
            final(self).allocator.free_frames().finite(),
            old(self).allocator.free_frames().finite(),
            (result is Ok) ==> final(self).allocator.free_frames().len()
                + old(active_table).mapper.missing(old(self).page)
                == old(self).allocator.free_frames().len(),
            old(self).allocator.free_frames().len() >= old(active_table).mapper.missing(
                old(self).page,
            ) ==> (result is Ok),
            final(self).allocator.free_frames().subset_of(old(self).allocator.free_frames()),
            !old(active_table).mapper.covers(old(self).page) && (result is Ok)
                ==> final(self).allocator.free_frames() != old(self).allocator.free_frames(),
            forall|table: u64| #[trigger]
                frames_of(
                    final(active_table).mapper.machine@.memory,
                    old(active_table).mapper.root(),
                ).contains(table) ==> frames_of(
                    old(active_table).mapper.machine@.memory,
                    old(active_table).mapper.root(),
                ).contains(table) || Mapper::<M>::taken(
                    old(self).allocator,
                    final(self).allocator,
                    table,
                ),
    {
        let page = self.page;
        let address: u64 = page.start_address();
        proof {
            self.allocator.lemma_slots();
        }
        let mapped = active_table.mapper.map_to(
            page,
            frame,
            EntryFlags { bits: WRITABLE },
            &mut self.allocator,
        );
        proof {
            self.allocator.lemma_slots();
        }
        if mapped.is_ok() {
            Ok(address)
        } else {
            Err(OutOfFrames)
        }
    }

    /// Unmaps the page in the active table. The frame that it was mapped to
    /// goes to the frames that are held.
    pub fn unmap<M: Machine>(&mut self, active_table: &mut ActivePageTable<M>)
        requires
            old(active_table).mapper.wf(),
            old(self).allocator.wf(),
            old(self).page.valid(),
            old(self).page.p4() != 511,
            old(active_table).mapper@.contains_key(old(self).page),
            old(self).allocator.free_frames().len() < 3,
            !old(self).allocator.free_frames().contains(
                old(active_table).mapper@[old(self).page].frame().unwrap(),
            ),
        ensures
            final(self).page == old(self).page,
            final(self).allocator.wf(),
            final(active_table).mapper.wf(),
            edited(old(active_table).mapper.machine@, final(active_table).mapper.machine@),
            final(active_table).mapper@ == old(active_table).mapper@.remove(old(self).page),
            final(self).allocator.free_frames() == old(self).allocator.free_frames().insert(
                old(active_table).mapper@[old(self).page].frame().unwrap(),
            ),
            final(self).allocator.free_frames().finite(),
            final(self).allocator.free_frames().len() == old(self).allocator.free_frames().len()
                + 1,
            layout_of(
                final(active_table).mapper.machine@.memory,
                old(active_table).mapper.root(),
            ) == layout_of(
                old(active_table).mapper.machine@.memory,
                old(active_table).mapper.root(),
            ),
    {
        proof {
            self.allocator.lemma_slots();
        }
        active_table.mapper.unmap(self.page, &mut self.allocator)
    }

    /// Maps the page to `frame` in the active table and returns the page as
    /// a table. The table is given level 1, which has no next table: what
    /// the frame's entries refer to cannot be reached through it.
    pub fn map_table_frame<M: Machine>(
        &mut self,
        frame: Frame,
        active_table: &mut ActivePageTable<M>,
    ) -> (result: Result<Table, OutOfFrames>)
        requires
            old(self).ready(old(active_table).mapper),
            frame.valid(),
        ensures
            final(self).page == old(self).page,
            final(self).allocator.wf(),
            final(active_table).mapper.wf(),
            edited(old(active_table).mapper.machine@, final(active_table).mapper.machine@),
            match result {
                Ok(table) => {
                    &&& table.address == old(self).page.start()
                    &&& table.level == TableLevel::Level1
                    &&& final(active_table).mapper@ == old(active_table).mapper@.insert(
                        old(self).page,
                        Entry { bits: compose(frame.number, WRITABLE | PRESENT) },
                    )
                    &&& final(active_table).mapper.covers(old(self).page)
                },
                Err(_) => final(active_table).mapper@ == old(active_table).mapper@,
            },
            old(active_table).mapper.covers(old(self).page) ==> {
                &&& result is Ok
                &&& final(self).allocator.free_frames() == old(self).allocator.free_frames()
            },
            final(self).allocator.free_frames().finite(),
            old(self).allocator.free_frames().finite(),
            (result is Ok) ==> final(self).allocator.free_frames().len()
                + old(active_table).mapper.missing(old(self).page)
                == old(self).allocator.free_frames().len(),
            old(self).allocator.free_frames().len() >= old(active_table).mapper.missing(
                old(self).page,
            ) ==> (result is Ok),
            final(self).allocator.free_frames().subset_of(old(self).allocator.free_frames()),
            !old(active_table).mapper.covers(old(self).page) && (result is Ok)
                ==> final(self).allocator.free_frames() != old(self).allocator.free_frames(),
            forall|table: u64| #[trigger]
                frames_of(
                    final(active_table).mapper.machine@.memory,
                    old(active_table).mapper.root(),
                ).contains(table) ==> frames_of(
                    old(active_table).mapper.machine@.memory,
                    old(active_table).mapper.root(),
                ).contains(table) || Mapper::<M>::taken(
                    old(self).allocator,
                    final(self).allocator,
                    table,
                ),
    {
        match self.map(frame, active_table) {
            Ok(address) => Ok(Table { address, level: TableLevel::Level1 }),
            Err(error) => Err(error),
        }
    }
}

} // verus!
