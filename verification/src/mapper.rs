//! Translating, mapping and unmapping pages in the address space that the
//! recursive mapping shows.

use vstd::prelude::*;
use crate::allocator::{FrameAllocator, OutOfFrames};
use crate::entry::{
    compose, frame_number, is_present, lemma_compose, Entry, EntryFlags, HUGE_PAGE, PRESENT,
};
use crate::frame::Frame;
use crate::machine::{backed, child, leaf, patched, table1, table2, table3, walk, Machine, State};
use crate::page::{canonical, Page};
use crate::space::{
    blocked, can_take, edited, lemma_absent_slot_changes_none, lemma_edited_twice,
    lemma_leaf_changes_one, lemma_leaf_keeps_plain, plain,
    lemma_leaf_keeps_walks, lemma_table_slots, mappings, root_of, space_ok,
};
use crate::table::{Table, TableLevel};
use crate::tree::{
    frames_of, layout_of, lemma_descent, lemma_step, lemma_tree_agrees, lemma_tree_kept, placed,
    tree,
};

verus! {

/// The address space that the recursive mapping shows, with the machine that
/// holds it.
pub struct Mapper<M: Machine> {
    pub machine: M,
}

impl<M: Machine> Mapper<M> {
    /// The machine is in order.
    pub open spec fn wf(&self) -> bool {
        space_ok(self.machine@)
    }

    /// The level-4 table that the mapper edits.
    pub open spec fn root(&self) -> u64 {
        root_of(self.machine@)
    }

    /// The pages that are mapped, each with its entry.
    pub open spec fn view(&self) -> Map<Page, Entry> {
        mappings(self.machine@.memory, self.root())
    }

    /// The frame that `page` is translated to. Nothing is said of a page
    /// under a huge-page entry: huge pages are not supported, and such a page
    /// counts as unmapped.
    pub open spec fn resolve(&self, page: Page) -> Option<Frame> {
        match walk(self.machine@.memory, self.root(), page) {
            Some(bits) => Some(Frame { number: frame_number(bits) }),
            None => None,
        }
    }

    /// The physical address that `address` is translated to.
    pub open spec fn translation(&self, address: u64) -> Option<u64> {
        match self.resolve(Page::containing(address)) {
            Some(frame) => Some((frame.number * 4096 + address % 4096) as u64),
            None => None,
        }
    }

    /// The level-1 table for `page` exists: mapping the page needs no frame.
    pub open spec fn covers(&self, page: Page) -> bool {
        table1(self.machine@.memory, self.root(), page) != None::<u64>
    }

    /// A huge-page entry lies on the way to `page`.
    pub open spec fn blocked(&self, page: Page) -> bool {
        blocked(self.machine@.memory, self.root(), page)
    }

    /// The address space holds no huge page.
    pub open spec fn plain(&self) -> bool {
        plain(self.machine@.memory, self.root())
    }

    /// The number of tables that are missing on the way to `page`.
    pub open spec fn missing(&self, page: Page) -> nat {
        if table3(self.machine@.memory, self.root(), page) is None {
            3
        } else if table2(self.machine@.memory, self.root(), page) is None {
            2
        } else if table1(self.machine@.memory, self.root(), page) is None {
            1
        } else {
            0
        }
    }

    /// The frames that hold tables: those of the tree that is edited, and
    /// those of the active tree.
    pub open spec fn tables(&self) -> Set<u64> {
        frames_of(self.machine@.memory, self.root()).union(
            frames_of(self.machine@.memory, self.machine@.base),
        )
    }

    /// Every frame of `free` can become a table: it exists, its number fits
    /// an entry, and it holds no table.
    pub open spec fn can_take(&self, free: Set<Frame>) -> bool {
        can_take(self.machine@, free)
    }

    /// Whether table `frame` came from `allocator` during a call.
    pub open spec fn taken<A: FrameAllocator>(before: A, after: A, frame: u64) -> bool {
        before.free_frames().contains(Frame { number: frame }) && !after.free_frames().contains(
            Frame { number: frame },
        )
    }

    /// The mapper of a machine whose tables are in order.
    pub fn new(machine: M) -> (mapper: Mapper<M>)
        requires
            space_ok(machine@),
        ensures
            mapper.machine == machine,
            mapper.wf(),
    {
        Mapper { machine }
    }

    /// The level-4 table.
    pub fn p4(&self) -> (table: Table)
        requires
            self.wf(),
        ensures
            table == (Table { address: crate::table::P4, level: TableLevel::Level4 }),
            table.in_tree(self.machine@),
            table.frame(self.machine@) == self.root(),
    {
        proof {
            Table::lemma_p4(self.machine@);
        }
        Table::p4()
    }

    /// The level-1 table for `page`: down from the level-4 table, one
    /// `next_table` per level.
    pub fn p1_table(&self, page: Page) -> (found: Option<Table>)
        requires
            self.wf(),
        ensures
            match found {
                Some(table) => {
                    &&& table.mapped(self.machine@)
                    &&& table.level == TableLevel::Level1
                    &&& table1(self.machine@.memory, self.root(), page) == Some(
                        table.frame(self.machine@),
                    )
                    &&& backed(self.machine@.memory, table.frame(self.machine@))
                },
                None => table1(self.machine@.memory, self.root(), page) == None::<u64>,
            },
    {
        let ghost state = self.machine@;
        let ghost root = self.root();
        let ghost layout = layout_of(state.memory, root);
        proof {
            page.lemma_indices_in_range();
            assert(tree(state.memory, root, layout));
            assert(placed(state.memory, root, layout, root));
        }
        let p4 = self.p4();
        let p3 = match p4.next_table(&self.machine, page.p4_index()) {
            Some(table) => table,
            None => {
                return None;
            },
        };
        proof {
            lemma_step(state.memory, root, layout, root, page.p4());
            p4.lemma_next(state, page.p4());
        }
        let p2 = match p3.next_table(&self.machine, page.p3_index()) {
            Some(table) => table,
            None => {
                return None;
            },
        };
        proof {
            lemma_step(state.memory, root, layout, p3.frame(state), page.p3());
            p3.lemma_next(state, page.p3());
        }
        let p1 = match p2.next_table(&self.machine, page.p2_index()) {
            Some(table) => table,
            None => {
                return None;
            },
        };
        proof {
            lemma_step(state.memory, root, layout, p2.frame(state), page.p2());
            p2.lemma_next(state, page.p2());
        }
        Some(p1)
    }

    /// The number of tables that are missing on the way to `page`: as many
    /// frames as mapping the page takes.
    pub fn missing_tables(&self, page: Page) -> (count: usize)
        requires
            self.wf(),
        ensures
            count == self.missing(page),
    {
        let ghost state = self.machine@;
        let ghost root = self.root();
        let ghost layout = layout_of(state.memory, root);
        proof {
            page.lemma_indices_in_range();
            assert(tree(state.memory, root, layout));
            assert(placed(state.memory, root, layout, root));
        }
        let p4 = self.p4();
        let p3 = match p4.next_table(&self.machine, page.p4_index()) {
            Some(table) => table,
            None => {
                return 3;
            },
        };
        proof {
            lemma_step(state.memory, root, layout, root, page.p4());
            p4.lemma_next(state, page.p4());
        }
        let p2 = match p3.next_table(&self.machine, page.p3_index()) {
            Some(table) => table,
            None => {
                return 2;
            },
        };
        proof {
            lemma_step(state.memory, root, layout, p3.frame(state), page.p3());
            p3.lemma_next(state, page.p3());
        }
        match p2.next_table(&self.machine, page.p2_index()) {
            Some(_) => 0,
            None => 1,
        }
    }

    /// Whether a huge-page entry lies on the way to `page`: such a page can
    /// be neither mapped nor translated.
    pub fn is_blocked(&self, page: Page) -> (blocked: bool)
        requires
            self.wf(),
        ensures
            blocked == self.blocked(page),
    {
        let ghost state = self.machine@;
        let ghost root = self.root();
        let ghost layout = layout_of(state.memory, root);
        proof {
            page.lemma_indices_in_range();
            assert(tree(state.memory, root, layout));
            assert(placed(state.memory, root, layout, root));
        }
        let p4 = self.p4();
        let huge = EntryFlags { bits: HUGE_PAGE };
        if p4.entry(&self.machine, page.p4_index()).flags().contains(huge) {
            proof {
                lemma_huge(state.memory[root][page.p4()]);
            }
            return true;
        }
        let p3 = match p4.next_table(&self.machine, page.p4_index()) {
            Some(table) => table,
            None => {
                proof {
                    lemma_huge(state.memory[root][page.p4()]);
                }
                return false;
            },
        };
        proof {
            lemma_huge(state.memory[root][page.p4()]);
            lemma_step(state.memory, root, layout, root, page.p4());
            p4.lemma_next(state, page.p4());
            lemma_huge(state.memory[p3.frame(state)][page.p3()]);
        }
        if p3.entry(&self.machine, page.p3_index()).flags().contains(huge) {
            return true;
        }
        let p2 = match p3.next_table(&self.machine, page.p3_index()) {
            Some(table) => table,
            None => {
                return false;
            },
        };
        proof {
            lemma_step(state.memory, root, layout, p3.frame(state), page.p3());
            p3.lemma_next(state, page.p3());
            lemma_huge(state.memory[p2.frame(state)][page.p2()]);
        }
        p2.entry(&self.machine, page.p2_index()).flags().contains(huge)
    }

    /// The frame that `page` is mapped to, if it is mapped. Huge pages are
    /// not supported: a page under a huge-page entry counts as unmapped.
    pub fn translate_page(&self, page: Page) -> (frame: Option<Frame>)
        requires
            self.wf(),
        ensures
            frame == self.resolve(page),
            page.valid() && page.p4() != 511 ==> frame == if self@.contains_key(page) {
                self@[page].frame()
            } else {
                None
            },
            frame != None::<Frame> ==> frame.unwrap().valid(),
    {
        match self.p1_table(page) {
            Some(p1) => p1.entry(&self.machine, page.p1_index()).pointed_frame(),
            None => None,
        }
    }

    /// The physical address that the virtual address `virtual_address` is
    /// translated to, if its page is mapped.
    pub fn translate(&self, virtual_address: u64) -> (physical_address: Option<u64>)
        requires
            self.wf(),
            canonical(virtual_address),
        ensures
            physical_address == self.translation(virtual_address),
    {
        let offset: u64 = virtual_address % 4096;
        match self.translate_page(Page::containing_address(virtual_address)) {
            Some(frame) => Some(frame.number * 4096 + offset),
            None => None,
        }
    }

    /// Maps `page` to `frame` with `flags` and the present flag. The tables
    /// on the way that are missing are made of frames from `allocator`; where
    /// it hands out none, no page has been mapped. An eager allocator with
    /// as many frames as tables are missing suffices.
    pub fn map_to<A: FrameAllocator>(
        &mut self,
        page: Page,
        frame: Frame,
        flags: EntryFlags,
        allocator: &mut A,
    ) -> (result: Result<(), OutOfFrames>)
        requires
            old(self).wf(),
            old(allocator).wf(),
            page.valid(),
            page.p4() != 511,
            frame.valid(),
            old(self).resolve(page) == None::<Frame>,
            !old(self).blocked(page),
            old(self).covers(page) || old(self).can_take(old(allocator).free_frames()),
        ensures
            final(self).wf(),
            final(allocator).wf(),
            edited(old(self).machine@, final(self).machine@),
            old(self).plain() ==> final(self).plain(),
            match result {
                Ok(_) => final(self)@ == old(self)@.insert(
                    page,
                    Entry { bits: compose(frame.number, flags.bits | PRESENT) },
                ) && final(self).covers(page) && final(self).resolve(page) == Some(frame),
                Err(_) => final(self)@ == old(self)@,
            },
            old(self).covers(page) ==> {
                &&& result is Ok
                &&& final(allocator).free_frames() == old(allocator).free_frames()
            },
            old(allocator).eager() ==> final(allocator).eager(),
            old(allocator).eager()
                && old(allocator).free_frames().finite()
                && old(allocator).free_frames().len() >= old(self).missing(page)
                ==> (result is Ok),
            old(allocator).eager() && (result is Err)
                ==> final(allocator).free_frames() == Set::<Frame>::empty(),
            (result is Ok) && old(allocator).free_frames().finite()
                ==> final(allocator).free_frames().len() + old(self).missing(page)
                == old(allocator).free_frames().len(),
            final(allocator).free_frames().subset_of(old(allocator).free_frames()),
            !old(self).covers(page) && (result is Ok)
                ==> final(allocator).free_frames() != old(allocator).free_frames(),
            forall|f: Frame| old(allocator).accepts(f) ==> final(allocator).accepts(f),
            forall|table: u64| #[trigger]
                frames_of(final(self).machine@.memory, old(self).root()).contains(table)
                    ==> frames_of(old(self).machine@.memory, old(self).root()).contains(table)
                    || Self::taken(*old(allocator), *final(allocator), table),
            old(self).can_take(old(allocator).free_frames()) ==> final(self).can_take(
                final(allocator).free_frames(),
            ),
    {
        let ghost before = self.machine@;
        let ghost root = self.root();
        proof {
            page.lemma_indices_in_range();
            assert(tree(before.memory, root, layout_of(before.memory, root)));
            assert(placed(before.memory, root, layout_of(before.memory, root), root));
            assert(0u64 & 0x80 != 0x80 && 0u64 & 0x1 != 0x1) by (bit_vector);
        }
        let p4 = self.p4();
        let p3 = match p4.next_table_create(&mut self.machine, page.p4_index(), allocator) {
            Some(table) => table,
            None => {
                return Err(OutOfFrames);
            },
        };
        let ghost first = self.machine@;
        let ghost a = p3.frame(first);
        proof {
            let layout = layout_of(first.memory, root);
            assert(tree(first.memory, root, layout));
            assert(placed(first.memory, root, layout, root));
            assert(placed(first.memory, root, layout, a));
            assert(child(first.memory, root, page.p4()) == Some(a));
        }
        let p2 = match p3.next_table_create(&mut self.machine, page.p3_index(), allocator) {
            Some(table) => table,
            None => {
                proof {
                    lemma_edited_twice(before, first, self.machine@);
                }
                return Err(OutOfFrames);
            },
        };
        let ghost second = self.machine@;
        let ghost b = p2.frame(second);
        proof {
            lemma_edited_twice(before, first, second);
            let layout = layout_of(second.memory, root);
            assert(tree(second.memory, root, layout));
            assert(placed(second.memory, root, layout, root));
            assert(placed(second.memory, root, layout, a));
            assert(placed(second.memory, root, layout, b));
            assert(child(second.memory, root, page.p4()) == Some(a));
            assert(child(second.memory, a, page.p3()) == Some(b));
        }
        let p1 = match p2.next_table_create(&mut self.machine, page.p2_index(), allocator) {
            Some(table) => table,
            None => {
                proof {
                    lemma_edited_twice(before, second, self.machine@);
                }
                return Err(OutOfFrames);
            },
        };
        let ghost third = self.machine@;
        let ghost c = p1.frame(third);
        let ghost layout = layout_of(third.memory, root);
        proof {
            lemma_edited_twice(before, second, third);
            assert(tree(third.memory, root, layout));
            assert(placed(third.memory, root, layout, root));
            assert(placed(third.memory, root, layout, a));
            assert(placed(third.memory, root, layout, b));
            assert(placed(third.memory, root, layout, c));
            assert(child(third.memory, root, page.p4()) == Some(a));
            assert(child(third.memory, a, page.p3()) == Some(b));
            assert(child(third.memory, b, page.p2()) == Some(c));
            assert(table1(third.memory, root, page) == Some(c));
            assert(!mappings(before.memory, root).contains_key(page));
            assert(!mappings(third.memory, root).contains_key(page));
            assert(!is_present(third.memory[c][page.p1()]));
        }
        let mut entry = Entry { bits: 0 };
        entry.set(frame, flags.union(EntryFlags { bits: PRESENT }));
        proof {
            lemma_compose(frame.number, flags.bits | PRESENT);
            let f = flags.bits;
            assert((f | 0x1) & 0x1 == 0x1) by (bit_vector);
            lemma_absent_slot_changes_none(
                third.memory,
                third.base,
                c,
                page.p1(),
                entry.bits,
            );
        }
        p1.set_entry(&mut self.machine, page.p1_index(), entry);
        proof {
            let last = self.machine@;
            assert(last.stale =~= Set::<Page>::empty());
            assert(last.memory.dom() =~= third.memory.dom());
            assert(frame == Frame { number: frame.number });
            Self::lemma_leaf_edit(third, last, page, entry.bits);
            lemma_edited_twice(before, third, last);
            assert(mappings(last.memory, root) =~= mappings(third.memory, root).insert(
                page,
                entry,
            )) by {
                assert forall|other: Page|
                    other.valid() && other.p4() != 511 && other != page implies walk(
                    last.memory,
                    root,
                    other,
                ) == walk(third.memory, root, other) by {
                    lemma_leaf_keeps_walks(third.memory, root, layout, page, entry.bits, other);
                }
            }
        }
        Ok(())
    }

    /// A page that was mapped to a frame translates to that frame, whatever
    /// the flags; once it is unmapped again, it translates to nothing.
    pub proof fn lemma_map_translate_unmap(
        before: Mapper<M>,
        mapped: Mapper<M>,
        unmapped: Mapper<M>,
        page: Page,
        frame: Frame,
        flags: EntryFlags,
    )
        requires
            page.valid(),
            page.p4() != 511,
            frame.valid(),
            mapped@ == before@.insert(
                page,
                Entry { bits: compose(frame.number, flags.bits | PRESENT) },
            ),
            unmapped@ == mapped@.remove(page),
        ensures
            mapped.resolve(page) == Some(frame),
            unmapped.resolve(page) == None::<Frame>,
    {
        lemma_compose(frame.number, flags.bits | PRESENT);
        assert(mapped@.contains_key(page));
        assert(mapped@[page].bits == compose(frame.number, flags.bits | PRESENT));
        assert(!unmapped@.contains_key(page));
    }

    /// A page that is mapped cannot be mapped again, to the same frame or to
    /// another: `map_to` asks that the page translates to nothing.
    pub proof fn lemma_mapped_page_is_taken(mapper: Mapper<M>, page: Page)
        requires
            page.valid(),
            page.p4() != 511,
            mapper@.contains_key(page),
        ensures
            mapper.resolve(page) != None::<Frame>,
    {
    }

    /// An address of a frame that is mapped to itself translates to itself.
    pub proof fn lemma_identity_translates(mapper: Mapper<M>, frame: Frame, flags: EntryFlags)
        requires
            frame.number < 0x8_0000_0000,
            mapper@.contains_key(Page { number: frame.number }),
            mapper@[Page { number: frame.number }] == (Entry {
                bits: compose(frame.number, flags.bits | PRESENT),
            }),
        ensures
            mapper.translation((frame.number * 4096) as u64) == Some((frame.number * 4096) as u64),
    {
        lemma_compose(frame.number, flags.bits | PRESENT);
        assert(Page::containing((frame.number * 4096) as u64) == Page { number: frame.number });
    }

    /// A store to the level-1 slot of a page, where it leaves no page stale,
    /// keeps the machine in order and both trees as they are.
    pub proof fn lemma_leaf_edit(before: State, after: State, page: Page, value: u64)
        requires
            space_ok(before),
            page.valid(),
            page.p4() != 511,
            table1(before.memory, root_of(before), page) != None::<u64>,
            after.base == before.base,
            after.stale == Set::<Page>::empty(),
            after.memory == patched(
                before.memory,
                table1(before.memory, root_of(before), page).unwrap(),
                page.p1(),
                value,
            ),
        ensures
            space_ok(after),
            edited(before, after),
            layout_of(after.memory, root_of(before)) == layout_of(before.memory, root_of(before)),
            table1(after.memory, root_of(before), page) == table1(
                before.memory,
                root_of(before),
                page,
            ),
            walk(after.memory, root_of(before), page) == leaf(
                after.memory,
                table1(before.memory, root_of(before), page).unwrap(),
                page.p1(),
            ),
            after.memory[table1(before.memory, root_of(before), page).unwrap()][page.p1()]
                == value,
            frames_of(after.memory, before.base) == frames_of(before.memory, before.base),
            forall|free: Set<Frame>| can_take(before, free) ==> #[trigger] can_take(after, free),
            plain(before.memory, root_of(before)) ==> plain(after.memory, root_of(before)),
    {
        let root = root_of(before);
        let layout = layout_of(before.memory, root);
        let lower = layout_of(before.memory, before.base);
        let c = table1(before.memory, root, page).unwrap();
        page.lemma_indices_in_range();
        lemma_descent(before.memory, root, layout, page);
        assert(placed(before.memory, root, layout, root));
        assert(placed(before.memory, before.base, lower, before.base));
        assert(after.memory.dom() =~= before.memory.dom());
        assert forall|table: u64| #[trigger] layout.contains_key(table) implies backed(
            after.memory,
            table,
        ) by {
            assert(placed(before.memory, root, layout, table));
        }
        lemma_tree_kept(before.memory, after.memory, root, layout);
        if plain(before.memory, root) {
            lemma_leaf_keeps_plain(before.memory, root, layout, c, page.p1(), value);
        }
        if root != before.base {
            assert(!frames_of(before.memory, before.base).contains(c));
            crate::tree::lemma_tables_backed(before.memory, before.base);
            lemma_tree_agrees(before.memory, after.memory, before.base);
        }
        assert forall|frame: u64| #[trigger]
            backed(after.memory, frame) == backed(before.memory, frame) by {}
        lemma_table_slots(before.memory, after.memory, root, page);
    }

    /// Maps `page` to a frame from `allocator`, with `flags` and the present
    /// flag. The allocator is asked for the frame first, and then, by
    /// `map_to`, for the tables that are missing. Where it hands out no
    /// frame, nothing has changed; where it hands out the frame, but no
    /// table, the frame stays taken and no page has been mapped.
    pub fn map<A: FrameAllocator>(
        &mut self,
        page: Page,
        flags: EntryFlags,
        allocator: &mut A,
    ) -> (result: Result<(), OutOfFrames>)
        requires
            old(self).wf(),
            old(allocator).wf(),
            page.valid(),
            page.p4() != 511,
            old(self).resolve(page) == None::<Frame>,
            !old(self).blocked(page),
            old(self).can_take(old(allocator).free_frames()),
        ensures
            final(self).wf(),
            final(allocator).wf(),
            edited(old(self).machine@, final(self).machine@),
            old(self).plain() ==> final(self).plain(),
            match result {
                Ok(_) => {
                    &&& final(self)@.contains_key(page)
                    &&& final(self)@[page].frame() != None::<Frame>
                    &&& old(allocator).free_frames().contains(final(self)@[page].frame().unwrap())
                    &&& !final(allocator).free_frames().contains(
                        final(self)@[page].frame().unwrap(),
                    )
                    &&& final(self)@ == old(self)@.insert(
                        page,
                        Entry {
                            bits: compose(
                                final(self)@[page].frame().unwrap().number,
                                flags.bits | PRESENT,
                            ),
                        },
                    )
                },
                Err(_) => final(self)@ == old(self)@,
            },
            final(allocator).free_frames().subset_of(old(allocator).free_frames()),
            final(self).can_take(final(allocator).free_frames()),
            forall|f: Frame| old(allocator).accepts(f) ==> final(allocator).accepts(f),
            forall|table: u64| #[trigger]
                frames_of(final(self).machine@.memory, old(self).root()).contains(table)
                    ==> frames_of(old(self).machine@.memory, old(self).root()).contains(table)
                    || Self::taken(*old(allocator), *final(allocator), table),
            old(self).covers(page) && (result is Err)
                ==> final(allocator).free_frames() == old(allocator).free_frames()
                && final(self).machine@ == old(self).machine@,
            (result is Ok) && old(allocator).free_frames().finite()
                ==> final(allocator).free_frames().len() + old(self).missing(page) + 1
                == old(allocator).free_frames().len(),
            old(allocator).eager() ==> final(allocator).eager(),
            old(allocator).eager() && old(allocator).free_frames().finite()
                && old(allocator).free_frames().len() >= old(self).missing(page) + 1
                ==> (result is Ok),
    {
        let frame = match allocator.allocate_frame() {
            Some(frame) => frame,
            None => {
                proof {
                    assert(edited(self.machine@, self.machine@));
                }
                return Err(OutOfFrames);
            },
        };
        proof {
            lemma_compose(frame.number, flags.bits | PRESENT);
            let f = flags.bits;
            assert((f | 0x1) & 0x1 == 0x1) by (bit_vector);
        }
        let result = self.map_to(page, frame, flags, allocator);
        result
    }

    /// Maps the page with `frame`'s number to `frame`, with `flags` and the
    /// present flag.
    pub fn identity_map<A: FrameAllocator>(
        &mut self,
        frame: Frame,
        flags: EntryFlags,
        allocator: &mut A,
    ) -> (result: Result<(), OutOfFrames>)
        requires
            old(self).wf(),
            old(allocator).wf(),
            frame.number < 0x8_0000_0000,
            old(self).resolve(Page { number: frame.number }) == None::<Frame>,
            !old(self).blocked(Page { number: frame.number }),
            old(self).covers(Page { number: frame.number }) || old(self).can_take(
                old(allocator).free_frames(),
            ),
            (Page { number: frame.number }).p4() != 511,
        ensures
            final(self).wf(),
            final(allocator).wf(),
            edited(old(self).machine@, final(self).machine@),
            old(self).plain() ==> final(self).plain(),
            match result {
                Ok(_) => {
                    &&& final(self)@ == old(self)@.insert(
                        Page { number: frame.number },
                        Entry { bits: compose(frame.number, flags.bits | PRESENT) },
                    )
                    &&& final(self).resolve(Page { number: frame.number }) == Some(frame)
                    &&& final(self).translation((frame.number * 4096) as u64) == Some(
                        (frame.number * 4096) as u64,
                    )
                },
                Err(_) => final(self)@ == old(self)@,
            },
            old(self).covers(Page { number: frame.number }) ==> (result is Ok),
            old(allocator).eager() ==> final(allocator).eager(),
            old(allocator).eager() && old(allocator).free_frames().finite()
                && old(allocator).free_frames().len() >= old(self).missing(
                Page { number: frame.number },
            ) ==> (result is Ok),
            old(allocator).eager() && (result is Err)
                ==> final(allocator).free_frames() == Set::<Frame>::empty(),
            (result is Ok) && old(allocator).free_frames().finite()
                ==> final(allocator).free_frames().len() + old(self).missing(
                Page { number: frame.number },
            ) == old(allocator).free_frames().len(),
            final(allocator).free_frames().subset_of(old(allocator).free_frames()),
            forall|f: Frame| old(allocator).accepts(f) ==> final(allocator).accepts(f),
            forall|table: u64| #[trigger]
                frames_of(final(self).machine@.memory, old(self).root()).contains(table)
                    ==> frames_of(old(self).machine@.memory, old(self).root()).contains(table)
                    || Self::taken(*old(allocator), *final(allocator), table),
            old(self).can_take(old(allocator).free_frames()) ==> final(self).can_take(
                final(allocator).free_frames(),
            ),
    {
        let page = Page::containing_address(frame.start_address());
        proof {
            assert(Page::containing((frame.number * 4096) as u64) == page);
        }
        self.map_to(page, frame, flags, allocator)
    }

    /// Unmaps `page`: clears its entry, flushes its translation, and hands
    /// the frame that it was mapped to back to `allocator`.
    pub fn unmap<A: FrameAllocator>(&mut self, page: Page, allocator: &mut A)
        requires
            old(self).wf(),
            old(allocator).wf(),
            page.valid(),
            page.p4() != 511,
            old(self)@.contains_key(page),
            old(allocator).accepts(old(self)@[page].frame().unwrap()),
            !old(allocator).free_frames().contains(old(self)@[page].frame().unwrap()),
        ensures
            final(self).wf(),
            final(allocator).wf(),
            edited(old(self).machine@, final(self).machine@),
            old(self).plain() ==> final(self).plain(),
            final(self)@ == old(self)@.remove(page),
            final(self).resolve(page) == None::<Frame>,
            final(allocator).free_frames() == old(allocator).free_frames().insert(
                old(self)@[page].frame().unwrap(),
            ),
            old(allocator).eager() ==> final(allocator).eager(),
            layout_of(final(self).machine@.memory, old(self).root()) == layout_of(
                old(self).machine@.memory,
                old(self).root(),
            ),
    {
        let ghost before = self.machine@;
        let ghost root = self.root();
        let ghost layout = layout_of(before.memory, root);
        proof {
            page.lemma_indices_in_range();
            assert(0u64 & 0x1 != 0x1) by (bit_vector);
        }
        let p1 = self.p1_table(page).unwrap();
        let mut entry = p1.entry(&self.machine, page.p1_index());
        let frame = entry.pointed_frame().unwrap();
        entry.set_unused();
        proof {
            lemma_leaf_changes_one(before, page, 0);
        }
        p1.set_entry(&mut self.machine, page.p1_index(), entry);
        self.machine.flush(page.start_address());
        proof {
            let last = self.machine@;
            assert(last.stale =~= Set::<Page>::empty());
            Self::lemma_leaf_edit(before, last, page, 0);
            assert(mappings(last.memory, root) =~= mappings(before.memory, root).remove(page)) by {
                assert forall|other: Page|
                    other.valid() && other.p4() != 511 && other != page implies walk(
                    last.memory,
                    root,
                    other,
                ) == walk(before.memory, root, other) by {
                    lemma_leaf_keeps_walks(before.memory, root, layout, page, 0, other);
                }
            }
        }
        allocator.deallocate_frame(frame);
    }
}

/// Frames that could become tables before an edit can become tables after
/// it, if the edit took none of them.
pub proof fn lemma_edit_keeps_takes(before: State, after: State, free: Set<Frame>)
    requires
        can_take(before, free),
        edited(before, after),
        space_ok(before),
        space_ok(after),
        frames_of(after.memory, root_of(before)) == frames_of(before.memory, root_of(before)),
    ensures
        can_take(after, free),
{
    if root_of(before) != before.base {
        crate::tree::lemma_tables_backed(before.memory, before.base);
        assert forall|table: u64| #[trigger]
            frames_of(before.memory, before.base).contains(table) implies after.memory.contains_key(
            table,
        ) && after.memory[table] == before.memory[table] by {
            assert(before.memory.dom().contains(table));
            assert(after.memory.dom().contains(table));
        }
        lemma_tree_agrees(before.memory, after.memory, before.base);
    }
    assert forall|frame: Frame| #[trigger] free.contains(frame) implies backed(
        after.memory,
        frame.number,
    ) by {
        assert(after.memory[frame.number] == before.memory[frame.number]);
        assert(before.memory.dom().contains(frame.number));
        assert(after.memory.dom().contains(frame.number));
    }
}

/// The flags of an entry hold the huge-page flag where the entry does.
pub proof fn lemma_huge(bits: u64)
    ensures
        ((bits & 0x8000_0000_0000_01ff) & 0x80 == 0x80) == (bits & 0x80 == 0x80),
{
    assert(((bits & 0x8000_0000_0000_01ff) & 0x80 == 0x80) == (bits & 0x80 == 0x80))
        by (bit_vector);
}

} // verus!
