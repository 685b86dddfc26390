//! Level-4 tables that the processor does not use.

use vstd::prelude::*;
use crate::allocator::{FrameAllocator, OutOfFrames};
use crate::entry::{compose, lemma_compose, Entry, EntryFlags, PRESENT, WRITABLE};
use crate::frame::Frame;
use crate::machine::{backed, child, lemma_walk_agrees, walk, walk_reads, zeroed, Machine, State};
use crate::page::Page;
use crate::space::{lemma_absent_slot_changes_none, mappings, plain, root_of};
use crate::table::Table;
use crate::temporary_page::TemporaryPage;
use crate::tree::{frames_of, tree, tree_ok};
use crate::active::ActivePageTable;
use crate::handover::{
    lemma_covered_not_blocked, lemma_fresh_table, lemma_inactive_kept, lemma_page_shows_frame,
};

verus! {

/// A level-4 table that the processor does not use.
pub struct InactivePageTable {
    pub p4_frame: Frame,
}

impl InactivePageTable {
    /// The table is in order in `state`: its last slot refers to the table
    /// itself, the tables below it form a tree, and none of them is a table
    /// of the active table.
    pub open spec fn wf(self, state: State) -> bool {
        &&& self.p4_frame.valid()
        &&& tree_ok(state.memory, self.p4_frame.number)
        &&& child(state.memory, self.p4_frame.number, 511) == Some(self.p4_frame.number)
        &&& frames_of(state.memory, self.p4_frame.number).disjoint(
            frames_of(state.memory, state.base),
        )
    }

    /// The pages that the table maps, each with its entry.
    pub open spec fn mappings(self, state: State) -> Map<Page, Entry> {
        mappings(state.memory, self.p4_frame.number)
    }

    /// Makes `frame` an empty level-4 table: maps it at the temporary page,
    /// clears it, makes its last slot refer to the frame itself, and unmaps
    /// the temporary page again. It fails only where the temporary page
    /// cannot be mapped for want of frames: where it holds as many frames as
    /// tables are missing on its way, it succeeds. The frame ends among the
    /// frames that the temporary page holds. The last slot of the active
    /// table holds what it held.
    pub fn new<M: Machine>(
        frame: Frame,
        active_table: &mut ActivePageTable<M>,
        temporary_page: &mut TemporaryPage,
    ) -> (result: Result<InactivePageTable, OutOfFrames>)
        requires
            old(active_table).wf(),
            old(temporary_page).ready(old(active_table).mapper),
            frame.valid(),
            backed(old(active_table).mapper.machine@.memory, frame.number),
            !old(active_table).mapper.tables().contains(frame.number),
            !old(temporary_page).allocator.free_frames().contains(frame),
            old(active_table).mapper.covers(old(temporary_page).page) ==>
                old(temporary_page).allocator.free_frames().len() < 3,
        ensures
            final(active_table).wf(),
            final(active_table)@ == old(active_table)@,
            final(active_table).mapper.machine@.base == old(active_table).mapper.machine@.base,
            final(active_table).mapper.machine@.memory.dom()
                == old(active_table).mapper.machine@.memory.dom(),
            final(temporary_page).page == old(temporary_page).page,
            final(temporary_page).allocator.wf(),
            final(temporary_page).allocator.free_frames().subset_of(
                old(temporary_page).allocator.free_frames().insert(frame),
            ),
            (result is Ok) ==> final(temporary_page).allocator.free_frames().contains(frame),
            old(temporary_page).allocator.free_frames().len() >= old(active_table).mapper.missing(
                old(temporary_page).page,
            ) ==> (result is Ok),
            final(active_table).last_slot() == old(active_table).last_slot(),
            (result is Ok) ==> final(active_table).mapper.machine@.memory[frame.number]
                == zeroed().update(511, compose(frame.number, PRESENT | WRITABLE)),
            old(active_table).mapper.covers(old(temporary_page).page) ==> {
                &&& result is Ok
                &&& final(temporary_page).allocator.free_frames()
                    == old(temporary_page).allocator.free_frames().insert(frame)
            },
            forall|table: u64| #[trigger]
                frames_of(
                    final(active_table).mapper.machine@.memory,
                    old(active_table).mapper.machine@.base,
                ).contains(table) ==> frames_of(
                    old(active_table).mapper.machine@.memory,
                    old(active_table).mapper.machine@.base,
                ).contains(table) || old(temporary_page).allocator.free_frames().contains(
                    Frame { number: table },
                ),
            forall|other: u64|
                !frames_of(
                    final(active_table).mapper.machine@.memory,
                    old(active_table).mapper.machine@.base,
                ).contains(other) && other != frame.number
                    ==> #[trigger] final(active_table).mapper.machine@.memory[other]
                    == old(active_table).mapper.machine@.memory[other],
            match result {
                Ok(table) => {
                    &&& table.p4_frame == frame
                    &&& table.wf(final(active_table).mapper.machine@)
                    &&& table.mappings(final(active_table).mapper.machine@) == Map::<
                        Page,
                        Entry,
                    >::empty()
                    &&& frames_of(final(active_table).mapper.machine@.memory, frame.number)
                        == set![frame.number]
                    &&& plain(final(active_table).mapper.machine@.memory, frame.number)
                    &&& final(temporary_page).ready(final(active_table).mapper)
                    &&& final(active_table).mapper.covers(old(temporary_page).page)
                    &&& final(temporary_page).allocator.free_frames().finite()
                    &&& final(temporary_page).allocator.free_frames().len()
                        + old(active_table).mapper.missing(old(temporary_page).page)
                        == old(temporary_page).allocator.free_frames().len() + 1
                },
                Err(_) => final(active_table).mapper.machine@.memory[frame.number]
                    == old(active_table).mapper.machine@.memory[frame.number],
            },
    {
        let ghost before = active_table.mapper.machine@;
        let ghost base = before.base;
        let ghost page = temporary_page.page;
        proof {
            temporary_page.allocator.lemma_slots();
        }
        let table = match temporary_page.map_table_frame(frame, active_table) {
            Ok(table) => table,
            Err(error) => {
                return Err(error);
            },
        };
        let ghost mapped = active_table.mapper.machine@;
        proof {
            assert(root_of(mapped) == base);
            assert(active_table.mapper@.contains_key(page));
            assert(active_table.mapper@[page] == Entry {
                bits: compose(frame.number, WRITABLE | PRESENT),
            });
            assert((WRITABLE | PRESENT) & 0x1 == 0x1) by (bit_vector);
            lemma_page_shows_frame(mapped, table, page, frame.number, WRITABLE | PRESENT);
        }
        table.make_root(&mut active_table.mapper.machine, frame);
        let ghost linked = active_table.mapper.machine@;
        proof {
            lemma_fresh_table(mapped, linked, frame.number);
            assert(active_table.mapper@ == mappings(mapped.memory, base));
            lemma_compose(frame.number, WRITABLE | PRESENT);
            assert(active_table.mapper@[page].frame() == Some(frame));
        }
        temporary_page.unmap(active_table);
        proof {
            let last = active_table.mapper.machine@;
            assert(active_table.mapper@ =~= old(active_table)@);
            lemma_inactive_kept(linked, last, InactivePageTable { p4_frame: frame });
            assert(frames_of(last.memory, base) == frames_of(mapped.memory, base));
            crate::tree::lemma_cover_kept(mapped.memory, last.memory, base, page);
            assert(!active_table.mapper.blocked(page)) by {
                lemma_covered_not_blocked(last, page);
            }
            assert(!old(active_table)@.contains_key(page));
            assert(!active_table.mapper@.contains_key(page));
        }
        Ok(InactivePageTable { p4_frame: frame })
    }
}

impl Table {
    /// Makes the frame that the table shows an empty level-4 table: clears
    /// it and makes its last slot refer to the frame itself, present and
    /// writable. No walk may read the frame.
    pub fn make_root<M: Machine>(&self, machine: &mut M, frame: Frame)
        requires
            self.mapped(old(machine)@),
            self.frame(old(machine)@) == frame.number,
            frame.valid(),
            old(machine)@.stale == Set::<Page>::empty(),
            forall|other: Page|
                !walk_reads(old(machine)@.memory, old(machine)@.base, other, frame.number),
        ensures
            final(machine)@.base == old(machine)@.base,
            final(machine)@.stale == Set::<Page>::empty(),
            final(machine)@.memory == old(machine)@.memory.insert(
                frame.number,
                zeroed().update(511, compose(frame.number, PRESENT | WRITABLE)),
            ),
    {
        let ghost before = machine@;
        self.zero(machine);
        let ghost cleared = machine@;
        proof {
            assert(cleared.stale =~= Set::<Page>::empty());
            lemma_walk_agrees(before.memory, cleared.memory, before.base, self.page());
            assert(0u64 & 0x1 != 0x1) by (bit_vector);
        }
        let mut entry = Entry { bits: 0 };
        entry.set(frame, EntryFlags { bits: PRESENT | WRITABLE });
        proof {
            lemma_absent_slot_changes_none(
                cleared.memory,
                before.base,
                frame.number,
                511,
                entry.bits,
            );
        }
        self.set_entry(machine, 511, entry);
        proof {
            assert(machine@.stale =~= Set::<Page>::empty());
            assert(machine@.memory[frame.number] =~= zeroed().update(
                511,
                compose(frame.number, PRESENT | WRITABLE),
            ));
            assert(machine@.memory =~= before.memory.insert(
                frame.number,
                zeroed().update(
                    511,
                    compose(frame.number, PRESENT | WRITABLE),
                ),
            ));
        }
    }
}

} // verus!
