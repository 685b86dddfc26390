//! The table that the processor uses.

use vstd::prelude::*;
use crate::allocator::{FrameAllocator, OutOfFrames};
use crate::entry::{compose, lemma_compose, Entry, EntryFlags, PRESENT, WRITABLE};
use crate::frame::Frame;
use crate::machine::{child, walk, Machine, State};
use crate::mapper::Mapper;
use crate::page::Page;
use crate::space::{edited, mappings, plain, root_of, space_ok};
use crate::table::Table;
use crate::temporary_page::TemporaryPage;
use crate::tree::{frames_of, layout_of, tree};
use crate::handover::{
    lemma_active_kept, lemma_frame_number_fits, lemma_inactive_survives, lemma_lend, lemma_return,
    lemma_shared_none,
};
use crate::inactive::InactivePageTable;

verus! {

/// The level-4 table whose frame is in the table-base register. Its mapper
/// edits the table itself, but for the time that `with` lends the mapper to
/// an inactive table.
pub struct ActivePageTable<M: Machine> {
    pub mapper: Mapper<M>,
}

impl<M: Machine> ActivePageTable<M> {
    /// The machine is in order, and the recursive mapping shows the active
    /// table.
    pub open spec fn wf(&self) -> bool {
        self.mapper.wf() && self.mapper.root() == self.mapper.machine@.base
    }

    /// The pages that the active table maps, each with its entry.
    pub open spec fn view(&self) -> Map<Page, Entry> {
        self.mapper@
    }

    /// The word in the last slot of the active table: the slot of the
    /// recursive mapping.
    pub open spec fn last_slot(&self) -> u64 {
        self.mapper.machine@.memory[self.mapper.machine@.base][511]
    }

    /// The active table of a machine whose tables are in order and whose
    /// active table refers to itself in its last slot.
    pub fn new(machine: M) -> (table: ActivePageTable<M>)
        requires
            space_ok(machine@),
            root_of(machine@) == machine@.base,
        ensures
            table.mapper.machine == machine,
            table.wf(),
    {
        ActivePageTable { mapper: Mapper::new(machine) }
    }
}

impl<M: Machine> std::ops::Deref for ActivePageTable<M> {
    type Target = Mapper<M>;

    /// The mapper of the active table.
    fn deref(&self) -> (mapper: &Mapper<M>)
        ensures
            *mapper == self.mapper,
    {
        &self.mapper
    }
}

impl<M: Machine> ActivePageTable<M> {
    /// Runs `f` on `table` as if it were the active table. The active
    /// table's own frame is mapped at the temporary page; its last slot is
    /// made to refer to `table`, so that the recursive mapping shows `table`,
    /// and the translation cache is flushed. Then `f` runs, with the mapper
    /// and with `context`, which is handed through to it. Afterwards the
    /// last slot is set back through the temporary page, the cache is
    /// flushed again, and the temporary page is unmapped.
    ///
    /// `f` must leave the mapper in order and touch the inactive table only.
    /// Where the temporary page cannot be mapped for want of frames, `f`
    /// does not run; where the temporary page holds as many frames as
    /// tables are missing on its way, it can be mapped, and `f` runs. The
    /// frame of the active table ends among the frames that the temporary
    /// page holds, and the last slot of the active table refers to the table
    /// itself again, present and writable.
    pub fn with<T, O, F>(
        &mut self,
        table: &mut InactivePageTable,
        temporary_page: &mut TemporaryPage,
        context: &mut T,
        f: F,
    ) -> (result: Result<O, OutOfFrames>) where F: FnOnce(&mut Mapper<M>, &mut T) -> O
        requires
            old(self).wf(),
            old(table).wf(old(self).mapper.machine@),
            old(temporary_page).ready(old(self).mapper),
            old(self).mapper.covers(old(temporary_page).page) ==>
                old(temporary_page).allocator.free_frames().len() < 3,
            !old(temporary_page).allocator.free_frames().contains(
                Frame { number: old(self).mapper.machine@.base },
            ),
            old(self).mapper.covers(old(temporary_page).page) || forall|frame: Frame| #[trigger]
                old(temporary_page).allocator.free_frames().contains(frame) ==> !frames_of(
                    old(self).mapper.machine@.memory,
                    old(table).p4_frame.number,
                ).contains(frame.number),
            forall|m: &mut Mapper<M>, c: &mut T|
                lent(
                    old(self).mapper.machine@,
                    *old(table),
                    old(temporary_page).allocator.free_frames(),
                    (*m).machine@,
                ) && *c == *old(context) ==> call_requires(f, (m, c)),
            forall|m: &mut Mapper<M>, c: &mut T, o: O|
                lent(
                    old(self).mapper.machine@,
                    *old(table),
                    old(temporary_page).allocator.free_frames(),
                    (*m).machine@,
                ) && call_ensures(f, (m, c), o) ==> (*final(m)).wf() && edited(
                    (*m).machine@,
                    (*final(m)).machine@,
                ),
        ensures
            final(self).wf(),
            final(self)@ == old(self)@,
            final(self).mapper.machine@.base == old(self).mapper.machine@.base,
            *final(table) == *old(table),
            final(table).wf(final(self).mapper.machine@),
            final(temporary_page).page == old(temporary_page).page,
            final(temporary_page).allocator.wf(),
            final(temporary_page).allocator.free_frames().subset_of(
                old(temporary_page).allocator.free_frames().insert(
                    Frame { number: old(self).mapper.machine@.base },
                ),
            ),
            (result is Ok) ==> final(temporary_page).allocator.free_frames().contains(
                Frame { number: old(self).mapper.machine@.base },
            ),
            old(temporary_page).allocator.free_frames().len() >= old(self).mapper.missing(
                old(temporary_page).page,
            ) ==> (result is Ok),
            (result is Ok) ==> final(self).last_slot() == compose(
                old(self).mapper.machine@.base,
                PRESENT | WRITABLE,
            ),
            (result is Err) ==> final(self).last_slot() == old(self).last_slot(),
            old(self).mapper.covers(old(temporary_page).page) ==> {
                &&& result is Ok
                &&& final(temporary_page).allocator.free_frames()
                    == old(temporary_page).allocator.free_frames().insert(
                    Frame { number: old(self).mapper.machine@.base },
                )
            },
            (result is Ok) ==> exists|m: &mut Mapper<M>, c: &mut T, o: O|
                {
                    &&& result == Ok::<O, OutOfFrames>(o)
                    &&& lent(
                        old(self).mapper.machine@,
                        *old(table),
                        old(temporary_page).allocator.free_frames(),
                        (*m).machine@,
                    )
                    &&& *c == *old(context)
                    &&& *final(c) == *final(context)
                    &&& #[trigger] call_ensures(f, (m, c), o)
                    &&& final(table).mappings(final(self).mapper.machine@) == (*final(m))@
                    &&& given_back((*final(m)).machine@, final(self).mapper.machine@)
                },
            (result is Err) ==> *final(context) == *old(context) && final(table).mappings(
                final(self).mapper.machine@,
            ) == old(table).mappings(old(self).mapper.machine@),
    {
        let ghost before = self.mapper.machine@;
        let ghost base = before.base;
        let ghost page = temporary_page.page;
        let ghost inactive = *table;
        let ghost reserve = temporary_page.allocator.free_frames();
        proof {
            lemma_frame_number_fits(before.memory[base][511]);
            temporary_page.allocator.lemma_slots();
        }
        let backup = Frame::containing_address(self.mapper.machine.table_base());
        let p4_table = match temporary_page.map_table_frame(backup, self) {
            Ok(shown) => shown,
            Err(error) => {
                proof {
                    lemma_shared_none(
                        before,
                        self.mapper.machine@,
                        inactive,
                        reserve,
                        temporary_page.allocator.free_frames(),
                    );
                    lemma_inactive_survives(before, self.mapper.machine@, inactive);
                }
                return Err(error);
            },
        };
        let ghost mapped = self.mapper.machine@;
        proof {
            lemma_shared_none(
                before,
                mapped,
                inactive,
                reserve,
                temporary_page.allocator.free_frames(),
            );
            lemma_inactive_survives(before, mapped, inactive);
            assert(root_of(mapped) == base);
            assert(mappings(mapped.memory, base)[page] == Entry {
                bits: compose(backup.number, WRITABLE | PRESENT),
            });
            assert(mappings(mapped.memory, base).contains_key(page));
            vstd::set_lib::lemma_len_subset(temporary_page.allocator.free_frames(), reserve);
        }
        let p4 = self.mapper.p4();
        let mut entry = Entry { bits: 0 };
        entry.set(table.p4_frame, EntryFlags { bits: PRESENT | WRITABLE });
        p4.set_entry(&mut self.mapper.machine, 511, entry);
        self.mapper.machine.flush_all();
        let ghost turned = self.mapper.machine@;
        proof {
            lemma_lend(mapped, turned, inactive);
            Table::lemma_p4(turned);
            assert(lent(before, inactive, reserve, turned));
        }
        let output = f(&mut self.mapper, context);
        let ghost done = self.mapper.machine@;
        proof {
            lemma_active_kept(turned, done);
            assert(mappings(done.memory, base) == mappings(mapped.memory, base));
            assert(mappings(done.memory, base).contains_key(page));
            assert(mappings(done.memory, base)[page] == Entry {
                bits: compose(backup.number, WRITABLE | PRESENT),
            });
            assert(walk(done.memory, base, page) == Some(
                compose(backup.number, WRITABLE | PRESENT),
            ));
            assert((WRITABLE | PRESENT) & 0x1 == 0x1) by (bit_vector);
            lemma_compose(backup.number, WRITABLE | PRESENT);
            crate::tree::lemma_tables_backed(done.memory, base);
            assert(p4_table.mapped(done));
            assert(p4_table.frame(done) == base);
        }
        let mut entry = Entry { bits: 0 };
        entry.set(backup, EntryFlags { bits: PRESENT | WRITABLE });
        p4_table.set_entry(&mut self.mapper.machine, 511, entry);
        self.mapper.machine.flush_all();
        let ghost back = self.mapper.machine@;
        proof {
            lemma_return(done, back);
            assert(self.mapper@ == mappings(mapped.memory, base));
            assert(self.mapper@[page].frame() == Some(backup));
        }
        temporary_page.unmap(self);
        proof {
            let last = self.mapper.machine@;
            assert(frames_of(last.memory, base) == frames_of(back.memory, base));
            lemma_inactive_survives(back, last, inactive);
            assert(self.mapper@ =~= old(self)@);
            assert(root_of(done) == inactive.p4_frame.number);
            assert(mappings(back.memory, inactive.p4_frame.number) == mappings(
                done.memory,
                inactive.p4_frame.number,
            ));
            assert(inactive.mappings(last) == mappings(done.memory, root_of(done)));
        }
        Ok(output)
    }
}

impl<M: Machine> ActivePageTable<M> {
    /// Makes `new_table` the active table and returns the table that was
    /// active. The processor translates through the new table from then on,
    /// and has dropped what it had cached.
    pub fn switch(&mut self, new_table: InactivePageTable) -> (old_table: InactivePageTable)
        requires
            old(self).wf(),
            new_table.wf(old(self).mapper.machine@),
        ensures
            final(self).wf(),
            final(self).mapper.machine@.memory == old(self).mapper.machine@.memory,
            final(self).mapper.machine@.base == new_table.p4_frame.number,
            final(self)@ == new_table.mappings(old(self).mapper.machine@),
            old_table.p4_frame.number == old(self).mapper.machine@.base,
            old_table.wf(final(self).mapper.machine@),
            old_table.mappings(final(self).mapper.machine@) == old(self)@,
    {
        let ghost before = self.mapper.machine@;
        let old_table = InactivePageTable {
            p4_frame: Frame::containing_address(self.mapper.machine.table_base()),
        };
        proof {
            lemma_frame_number_fits(before.memory[before.base][511]);
        }
        self.mapper.machine.set_table_base(new_table.p4_frame.start_address());
        old_table
    }
}

/// What `with` leaves of the machine as its task left it: the inactive
/// table is as the task left it, and so is all memory outside the active
/// table's tables.
pub open spec fn given_back(left: State, state: State) -> bool {
    &&& state.base == left.base
    &&& state.memory.dom() == left.memory.dom()
    &&& frames_of(state.memory, state.base) == frames_of(left.memory, left.base)
    &&& layout_of(state.memory, root_of(left)) == layout_of(left.memory, root_of(left))
    &&& forall|frame: u64|
        !frames_of(state.memory, state.base).contains(frame) ==> #[trigger] state.memory[frame]
            == left.memory[frame]
}

/// What `with` hands to its task: the machine with the recursive mapping
/// turned to `table`, whose frame the last slot of the active table holds,
/// present and writable, so that the address of the recursive mapping is
/// translated to that frame. `before` is the machine when `with` was called, and
/// `reserve` the frames that the temporary page held then. The inactive
/// table is as it was; the active table may have got tables from the
/// reserve; memory outside the active table's tables is as it was.
pub open spec fn lent(
    before: State,
    table: InactivePageTable,
    reserve: Set<Frame>,
    state: State,
) -> bool {
    &&& space_ok(state)
    &&& state.base == before.base
    &&& state.memory[state.base][511] == compose(table.p4_frame.number, PRESENT | WRITABLE)
    &&& state.accessible(crate::table::P4)
    &&& state.frame_at(crate::table::P4) == table.p4_frame.number
    &&& root_of(state) == table.p4_frame.number
    &&& root_of(state) != state.base
    &&& state.memory.dom() == before.memory.dom()
    &&& layout_of(state.memory, table.p4_frame.number) == layout_of(
        before.memory,
        table.p4_frame.number,
    )
    &&& mappings(state.memory, table.p4_frame.number) == mappings(
        before.memory,
        table.p4_frame.number,
    )
    &&& plain(before.memory, table.p4_frame.number) ==> plain(
        state.memory,
        table.p4_frame.number,
    )
    &&& forall|frame: u64| #[trigger]
        frames_of(state.memory, state.base).contains(frame) ==> frames_of(
            before.memory,
            before.base,
        ).contains(frame) || reserve.contains(Frame { number: frame })
    &&& forall|frame: u64|
        !frames_of(state.memory, state.base).contains(frame) ==> #[trigger] state.memory[frame]
            == before.memory[frame]
}

/// While `with` lends the mapper out, the address of the recursive mapping
/// shows the inactive table: it can be read and written, and it is
/// translated to the inactive table's own frame.
pub proof fn lemma_lent_shows_table(
    before: State,
    table: InactivePageTable,
    reserve: Set<Frame>,
    state: State,
)
    requires
        lent(before, table, reserve, state),
    ensures
        state.accessible(crate::table::P4),
        state.frame_at(crate::table::P4) == table.p4_frame.number,
        child(state.memory, table.p4_frame.number, 511) == Some(table.p4_frame.number),
{
    Table::lemma_p4(state);
}

} // verus!
