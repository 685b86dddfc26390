//! Tables as the running kernel sees them: by the virtual address at which
//! the recursive mapping shows them.
//!
//! The last slot of the active level-4 table refers to a level-4 table, so an
//! address whose level-4 index is 511 is walked one level short: it names a
//! table, not a page. A table's own address, shifted left by nine bits and
//! joined with a slot's index, names the table that the slot refers to.

use vstd::prelude::*;
use crate::allocator::FrameAllocator;
use crate::entry::{
    compose, frame_number, is_huge, is_link, is_present, lemma_compose, Entry, EntryFlags, PRESENT,
    WRITABLE,
};
use crate::frame::Frame;
use crate::machine::{
    backed, changed, child, lemma_walk_agrees, patched, table1, table2, table3, walk, walk_reads,
    zeroed, Machine, State,
};
use crate::page::{canonical, Page};
use crate::space::{
    can_take, edited, lemma_absent_slot_changes_none, lemma_install_keeps_plain,
    lemma_install_keeps_walks, lemma_walk_shape, mappings, plain, root_of, space_ok,
};
use crate::tree::{
    frames_of, layout_of, lemma_step, lemma_tree_agrees, lemma_tree_grown, node, placed, tree,
};

verus! {

/// The address at which the recursive mapping shows the level-4 table.
pub const P4: u64 = 0xffff_ffff_ffff_f000;

/// The level of a table in the hierarchy.
#[derive(Debug, Clone, Copy, PartialEq, Eq, Structural)]
pub enum TableLevel {
    Level4,
    Level3,
    Level2,
    Level1,
}

impl TableLevel {
    /// The level as a number, 4 down to 1.
    pub open spec fn number(self) -> int {
        match self {
            TableLevel::Level4 => 4,
            TableLevel::Level3 => 3,
            TableLevel::Level2 => 2,
            TableLevel::Level1 => 1,
        }
    }

    /// The level below; level 1 has none and stays.
    pub open spec fn below(self) -> TableLevel {
        match self {
            TableLevel::Level4 => TableLevel::Level3,
            TableLevel::Level3 => TableLevel::Level2,
            _ => TableLevel::Level1,
        }
    }

    /// The level of the tables that a table of this level refers to.
    pub fn next_level(self) -> (next: TableLevel)
        requires
            self != TableLevel::Level1,
        ensures
            next == self.below(),
            next.number() == self.number() - 1,
    {
        match self {
            TableLevel::Level4 => TableLevel::Level3,
            TableLevel::Level3 => TableLevel::Level2,
            _ => TableLevel::Level1,
        }
    }
}

/// The address in the recursive slot's range whose level-3, level-2 and
/// level-1 indices are `b`, `c` and `d`.
pub open spec fn window(b: int, c: int, d: int) -> u64 {
    0xffff_ff80_0000_0000u64 | ((b as u64) << 30) | ((c as u64) << 21) | ((d as u64) << 12)
}

/// `address` with its upper sixteen bits made copies of bit 47, as a
/// canonical address has them.
pub open spec fn sign_extended(address: u64) -> u64 {
    if address & 0x0000_8000_0000_0000 != 0 {
        address | 0xffff_0000_0000_0000
    } else {
        address & 0x0000_ffff_ffff_ffff
    }
}

/// The address made of `address` shifted up one level and `index`.
pub open spec fn shifted(address: u64, index: int) -> u64 {
    sign_extended((address << 9) | ((index as u64) << 12))
}

/// A sign-extended address is canonical.
pub proof fn lemma_sign_extended(address: u64)
    ensures
        canonical(sign_extended(address)),
{
    assert((if address & 0x0000_8000_0000_0000 != 0 {
        address | 0xffff_0000_0000_0000
    } else {
        address & 0x0000_ffff_ffff_ffff
    }) < 0x0000_8000_0000_0000 || (if address & 0x0000_8000_0000_0000 != 0 {
        address | 0xffff_0000_0000_0000
    } else {
        address & 0x0000_ffff_ffff_ffff
    }) >= 0xffff_8000_0000_0000) by (bit_vector);
}

/// What the address `window(b, c, d)` is made of.
pub proof fn lemma_window(b: int, c: int, d: int)
    requires
        0 <= b < 512,
        0 <= c < 512,
        0 <= d < 512,
    ensures
        window(b, c, d) % 4096 == 0,
        canonical(window(b, c, d)),
        Page::containing(window(b, c, d)).valid(),
        Page::containing(window(b, c, d)).p4() == 511,
        Page::containing(window(b, c, d)).p3() == b,
        Page::containing(window(b, c, d)).p2() == c,
        Page::containing(window(b, c, d)).p1() == d,
        window(511, 511, 511) == P4,
{
    let b = b as u64;
    let c = c as u64;
    let d = d as u64;
    let a = 0xffff_ff80_0000_0000u64 | (b << 30) | (c << 21) | (d << 12);
    assert(a % 4096 == 0 && a >= 0xffff_8000_0000_0000 && 0xf_fff8_0000_0000 <= a / 4096 && a
        / 4096 <= 0xf_ffff_ffff_ffff && ((a / 4096) >> 27) & 0x1ff == 511 && ((a / 4096) >> 18)
        & 0x1ff == b && ((a / 4096) >> 9) & 0x1ff == c && (a / 4096) & 0x1ff == d)
        by (bit_vector)
        requires
            a == 0xffff_ff80_0000_0000u64 | (b << 30) | (c << 21) | (d << 12),
            b < 512,
            c < 512,
            d < 512,
    ;
    assert(0xffff_ff80_0000_0000u64 | (511u64 << 30) | (511u64 << 21) | (511u64 << 12)
        == 0xffff_ffff_ffff_f000) by (bit_vector);
}

/// Shifting an address of the recursive range up one level: the indices move
/// up by one place, and the new one comes in last.
pub proof fn lemma_shifted(c: int, d: int, index: int)
    requires
        0 <= c < 512,
        0 <= d < 512,
        0 <= index < 512,
    ensures
        shifted(window(511, c, d), index) == window(c, d, index),
{
    let c = c as u64;
    let d = d as u64;
    let i = index as u64;
    let raw = ((0xffff_ff80_0000_0000u64 | (511u64 << 30) | (c << 21) | (d << 12)) << 9) | (i
        << 12);
    assert(raw & 0x0000_8000_0000_0000 != 0 && raw | 0xffff_0000_0000_0000
        == 0xffff_ff80_0000_0000u64 | (c << 30) | (d << 21) | (i << 12)) by (bit_vector)
        requires
            raw == ((0xffff_ff80_0000_0000u64 | (511u64 << 30) | (c << 21) | (d << 12)) << 9) | (i
                << 12),
            c < 512,
            d < 512,
            i < 512,
    ;
}

/// A table, by the virtual address of its first slot.
#[derive(Debug, Clone, Copy, PartialEq, Eq, Structural)]
pub struct Table {
    pub address: u64,
    pub level: TableLevel,
}

impl Table {
    /// The page that shows the table.
    pub open spec fn page(self) -> Page {
        Page::containing(self.address)
    }

    /// The frame that holds the table.
    pub open spec fn frame(self, state: State) -> u64 {
        state.frame_at(self.address)
    }

    /// The table's slots can be read and written: its address is the start
    /// of a page that is mapped to an existing frame and not stale.
    pub open spec fn mapped(self, state: State) -> bool {
        self.address % 4096 == 0 && state.accessible(self.address)
    }

    /// The address of slot `index`.
    pub open spec fn slot(self, index: int) -> u64 {
        (self.address + 8 * index) as u64
    }

    /// Every slot of a mapped table is accessible, and lies on the table's
    /// page.
    pub proof fn lemma_slots(self, state: State, index: int)
        requires
            self.mapped(state),
            0 <= index < 512,
        ensures
            self.address + 8 * index <= u64::MAX,
            state.accessible(self.slot(index)),
            Page::containing(self.slot(index)) == self.page(),
            state.frame_at(self.slot(index)) == self.frame(state),
            State::offset(self.slot(index)) == index,
    {
    }

    /// The level-4 table that the recursive mapping shows.
    pub fn p4() -> (table: Table)
        ensures
            table.address == P4,
            table.level == TableLevel::Level4,
    {
        Table { address: P4, level: TableLevel::Level4 }
    }

    /// The entry in slot `index`.
    pub fn entry<M: Machine>(&self, machine: &M, index: usize) -> (entry: Entry)
        requires
            self.mapped(machine@),
            index < 512,
        ensures
            entry.bits == machine@.memory[self.frame(machine@)][index as int],
    {
        proof {
            self.lemma_slots(machine@, index as int);
        }
        Entry { bits: machine.load(self.address + 8 * (index as u64)) }
    }

    /// Writes `entry` to slot `index`.
    pub fn set_entry<M: Machine>(&self, machine: &mut M, index: usize, entry: Entry)
        requires
            self.mapped(old(machine)@),
            index < 512,
        ensures
            final(machine)@.memory == patched(
                old(machine)@.memory,
                self.frame(old(machine)@),
                index as int,
                entry.bits,
            ),
            final(machine)@.base == old(machine)@.base,
            final(machine)@.stale == old(machine)@.stale.union(
                changed(old(machine)@.memory, final(machine)@.memory, old(machine)@.base),
            ),
    {
        proof {
            self.lemma_slots(machine@, index as int);
        }
        machine.store(self.address + 8 * (index as u64), entry.bits);
    }

    /// Clears every slot of the table. The table must not be one of those
    /// through which its own address is translated. Pages whose translation
    /// went through the table may be stale afterwards.
    pub fn zero<M: Machine>(&self, machine: &mut M)
        requires
            self.mapped(old(machine)@),
            !walk_reads(
                old(machine)@.memory,
                old(machine)@.base,
                self.page(),
                self.frame(old(machine)@),
            ),
        ensures
            final(machine)@.memory == old(machine)@.memory.insert(
                self.frame(old(machine)@),
                zeroed(),
            ),
            final(machine)@.base == old(machine)@.base,
            forall|page: Page| #[trigger]
                final(machine)@.stale.contains(page) ==> old(machine)@.stale.contains(page)
                    || walk_reads(
                    old(machine)@.memory,
                    old(machine)@.base,
                    page,
                    self.frame(old(machine)@),
                ),
    {
        let ghost before = machine@;
        let ghost frame = self.frame(before);
        let mut index: usize = 0;
        while index < 512
            invariant
                index <= 512,
                self.mapped(before),
                frame == self.frame(before),
                !walk_reads(before.memory, before.base, self.page(), frame),
                machine@.base == before.base,
                machine@.memory.dom() == before.memory.dom(),
                forall|other: u64|
                    other != frame ==> #[trigger] machine@.memory[other] == before.memory[other],
                machine@.memory[frame].len() == 512,
                forall|i: int| 0 <= i < index ==> #[trigger] machine@.memory[frame][i] == 0,
                forall|page: Page| #[trigger]
                    machine@.stale.contains(page) ==> before.stale.contains(page) || walk_reads(
                        before.memory,
                        before.base,
                        page,
                        frame,
                    ),
            decreases 512 - index,
        {
            let ghost mid = machine@;
            proof {
                lemma_walk_agrees(before.memory, mid.memory, before.base, self.page());
                assert(self.mapped(mid));
                self.lemma_slots(mid, index as int);
            }
            machine.store(self.address + 8 * (index as u64), 0);
            proof {
                let after = machine@;
                assert(after.memory == patched(mid.memory, frame, index as int, 0));
                assert(after.memory.dom() =~= before.memory.dom());
                assert forall|page: Page| #[trigger] after.stale.contains(page) implies (
                before.stale.contains(page) || walk_reads(
                    before.memory,
                    before.base,
                    page,
                    frame,
                )) by {
                    if !walk_reads(before.memory, before.base, page, frame) {
                        lemma_walk_agrees(before.memory, mid.memory, before.base, page);
                        lemma_walk_agrees(before.memory, after.memory, before.base, page);
                    }
                }
            }
            index += 1;
        }
        assert(machine@.memory =~= before.memory.insert(frame, zeroed())) by {
            assert(machine@.memory[frame] =~= zeroed());
        }
    }

    /// The address of the table that slot `index` refers to: the table's
    /// own address shifted left by nine bits, joined with the index, and
    /// sign-extended. None where the slot is absent or maps a huge page.
    pub fn next_table_address<M: Machine>(&self, machine: &M, index: usize) -> (address: Option<
        u64,
    >)
        requires
            self.mapped(machine@),
            index < 512,
        ensures
            address == if is_link(machine@.memory[self.frame(machine@)][index as int]) {
                Some(shifted(self.address, index as int))
            } else {
                None
            },
            address != None::<u64> ==> canonical(address.unwrap()),
    {
        let entry = self.entry(machine, index);
        let bits: u64 = entry.bits;
        if bits & 0x1 == 0x1 && bits & 0x80 != 0x80 {
            let raw: u64 = (self.address << 9) | ((index as u64) << 12);
            proof {
                lemma_sign_extended(raw);
            }
            if raw & 0x0000_8000_0000_0000 != 0 {
                Some(raw | 0xffff_0000_0000_0000)
            } else {
                Some(raw & 0x0000_ffff_ffff_ffff)
            }
        } else {
            None
        }
    }

    /// The table that slot `index` refers to; none where the slot is absent
    /// or maps a huge page. A table of level 1 refers to frames, not to
    /// tables, and has no next table.
    pub fn next_table<M: Machine>(&self, machine: &M, index: usize) -> (next: Option<Table>)
        requires
            self.mapped(machine@),
            index < 512,
            self.level != TableLevel::Level1,
        ensures
            next == if is_link(machine@.memory[self.frame(machine@)][index as int]) {
                Some(self.next(index as int))
            } else {
                None
            },
    {
        match self.next_table_address(machine, index) {
            Some(address) => Some(Table { address, level: self.level.next_level() }),
            None => None,
        }
    }
}

impl Table {
    /// The table is one of the tree that the recursive mapping shows, above
    /// level 1, and `self` names it by its address in the recursive range.
    pub open spec fn in_tree(self, state: State) -> bool {
        &&& self.mapped(state)
        &&& self.level != TableLevel::Level1
        &&& self.address == window(511, self.page().p2(), self.page().p1())
        &&& self.level == TableLevel::Level4 ==> self.page().p2() == 511 && self.page().p1() == 511
        &&& self.level == TableLevel::Level3 ==> self.page().p2() == 511
        &&& is_link(walk(state.memory, state.base, self.page()).unwrap())
        &&& frames_of(state.memory, root_of(state)).contains(self.frame(state))
        &&& layout_of(state.memory, root_of(state))[self.frame(state)].level == self.level.number()
    }

    /// The table that slot `index` refers to, as `next_table` names it.
    pub open spec fn next(self, index: int) -> Table {
        Table { address: shifted(self.address, index), level: self.level.below() }
    }

    /// Where a slot of a table that is reached through the recursive slot
    /// refers to a table, the shifted address shows that table.
    pub proof fn lemma_next(self, state: State, index: int)
        requires
            child(state.memory, state.base, 511) == Some(root_of(state)),
            child(state.memory, root_of(state), 511) == Some(root_of(state)),
            self.mapped(state),
            self.address == window(511, self.page().p2(), self.page().p1()),
            is_link(walk(state.memory, state.base, self.page()).unwrap()),
            0 <= index < 512,
            is_present(state.memory[self.frame(state)][index]),
            backed(state.memory, frame_number(state.memory[self.frame(state)][index])),
            state.stale == Set::<Page>::empty(),
        ensures
            self.next(index).address == window(self.page().p2(), self.page().p1(), index),
            self.next(index).mapped(state),
            self.next(index).page().valid(),
            self.next(index).page().p4() == 511,
            self.next(index).page().p3() == self.page().p2(),
            self.next(index).page().p2() == self.page().p1(),
            self.next(index).page().p1() == index,
            self.next(index).frame(state) == frame_number(state.memory[self.frame(state)][index]),
            walk(state.memory, state.base, self.next(index).page()) == Some(
                state.memory[self.frame(state)][index],
            ),
            table3(state.memory, state.base, self.next(index).page()) == Some(root_of(state)),
            table2(state.memory, state.base, self.next(index).page()) == table1(
                state.memory,
                state.base,
                self.page(),
            ),
            table1(state.memory, state.base, self.next(index).page()) == Some(self.frame(state)),
    {
        self.page().lemma_indices_in_range();
        let c = self.page().p2();
        let d = self.page().p1();
        lemma_window(511, c, d);
        lemma_window(c, d, index);
        lemma_shifted(c, d, index);
    }

    /// The level-4 table is in the tree that the recursive mapping shows.
    pub proof fn lemma_p4(state: State)
        requires
            space_ok(state),
        ensures
            (Table { address: P4, level: TableLevel::Level4 }).in_tree(state),
            (Table { address: P4, level: TableLevel::Level4 }).frame(state) == root_of(state),
    {
        lemma_window(511, 511, 511);
        let root = root_of(state);
        assert(placed(state.memory, root, layout_of(state.memory, root), root));
    }

    /// Makes `frame` the table that the empty slot `index` refers to: enters
    /// it in the slot as present and writable, clears it, and flushes the
    /// translation cache, because the frame was reachable before it was
    /// cleared.
    pub fn install_table<M: Machine>(&self, machine: &mut M, index: usize, frame: Frame) -> (table:
        Table)
        requires
            space_ok(old(machine)@),
            self.in_tree(old(machine)@),
            index < 512,
            !(self.frame(old(machine)@) == root_of(old(machine)@) && index == 511),
            !is_present(old(machine)@.memory[self.frame(old(machine)@)][index as int]),
            frame.valid(),
            backed(old(machine)@.memory, frame.number),
            !frames_of(old(machine)@.memory, old(machine)@.base).contains(frame.number),
            !frames_of(old(machine)@.memory, root_of(old(machine)@)).contains(frame.number),
        ensures
            space_ok(final(machine)@),
            edited(old(machine)@, final(machine)@),
            final(machine)@.memory == patched(
                old(machine)@.memory,
                self.frame(old(machine)@),
                index as int,
                compose(frame.number, PRESENT | WRITABLE),
            ).insert(frame.number, zeroed()),
            mappings(final(machine)@.memory, root_of(old(machine)@)) == mappings(
                old(machine)@.memory,
                root_of(old(machine)@),
            ),
            layout_of(final(machine)@.memory, root_of(old(machine)@)) == layout_of(
                old(machine)@.memory,
                root_of(old(machine)@),
            ).insert(
                frame.number,
                node(self.level.number() - 1, self.frame(old(machine)@), index as int),
            ),
            root_of(old(machine)@) != old(machine)@.base ==> layout_of(
                final(machine)@.memory,
                old(machine)@.base,
            ) == layout_of(old(machine)@.memory, old(machine)@.base),
            plain(old(machine)@.memory, root_of(old(machine)@)) ==> plain(
                final(machine)@.memory,
                root_of(old(machine)@),
            ),
            table == self.next(index as int),
            table.mapped(final(machine)@),
            table.frame(final(machine)@) == frame.number,
            self.level != TableLevel::Level2 ==> table.in_tree(final(machine)@),
    {
        let ghost before = machine@;
        let ghost root = root_of(before);
        let ghost parent = self.frame(before);
        let ghost layout = layout_of(before.memory, root);
        let ghost lower = layout_of(before.memory, before.base);
        proof {
            assert(tree(before.memory, root, layout));
            assert(tree(before.memory, before.base, lower));
            assert(placed(before.memory, root, layout, parent));
            assert(placed(before.memory, root, layout, root));
            assert(placed(before.memory, before.base, lower, before.base));
        }
        let ghost fresh = frame.number;
        let mut entry = Entry { bits: 0 };
        entry.set(frame, EntryFlags { bits: PRESENT | WRITABLE });
        proof {
            lemma_compose(fresh, PRESENT | WRITABLE);
            assert((PRESENT | WRITABLE) & 0x1 == 0x1 && (PRESENT | WRITABLE) & 0x80
                != 0x80) by (bit_vector);
            let bits = before.memory[parent][index as int];
            assert(!is_present(bits));
            lemma_absent_slot_changes_none(
                before.memory,
                before.base,
                parent,
                index as int,
                entry.bits,
            );
        }
        self.set_entry(machine, index, entry);
        let ghost linked = machine@;
        proof {
            assert(linked.stale =~= Set::<Page>::empty());
            assert(parent != before.base || index != 511);
            lemma_walk_agrees_after_link(before, linked, *self, index as int);
            self.lemma_next(linked, index as int);
        }
        let table = self.next_table(machine, index).unwrap();
        proof {
            lemma_walk_shape(before, self.page());
            assert(walk_reads(
                before.memory,
                before.base,
                self.page(),
                table1(before.memory, before.base, self.page()).unwrap(),
            ));
            assert(walk_reads(
                before.memory,
                before.base,
                self.page(),
                table2(before.memory, before.base, self.page()).unwrap(),
            ));
            assert(!walk_reads(
                linked.memory,
                linked.base,
                table.page(),
                fresh,
            ));
        }
        table.zero(machine);
        machine.flush_all();
        proof {
            let after = machine@;
            assert(0u64 & 0x1 != 0x1) by (bit_vector);
            assert forall|slot: int| #[trigger]
                child(after.memory, fresh, slot) is None by {}
            assert(after.memory.dom() =~= before.memory.dom());
            assert forall|other: u64| #[trigger]
                layout.contains_key(other) implies backed(after.memory, other) by {
                assert(placed(before.memory, root, layout, other));
            }
            lemma_tree_grown(
                before.memory,
                after.memory,
                root,
                layout,
                parent,
                index as int,
                fresh,
            );
            let grown = layout.insert(
                fresh,
                node(layout[parent].level - 1, parent, index as int),
            );
            if root != before.base {
                crate::tree::lemma_tables_backed(before.memory, before.base);
                lemma_tree_agrees(before.memory, after.memory, before.base);
            }
            assert(frames_of(after.memory, root) =~= grown.dom());
            assert forall|parent: u64| #[trigger]
                backed(after.memory, parent) == backed(before.memory, parent) by {}
            assert forall|page: Page|
                page.valid() && page.p4() != 511 implies walk(
                after.memory,
                root,
                page,
            ) == walk(before.memory, root, page) by {
                lemma_install_keeps_walks(
                    before.memory,
                    after.memory,
                    root,
                    layout,
                    parent,
                    index as int,
                    fresh,
                    page,
                );
            }
            assert(mappings(after.memory, root) =~= mappings(before.memory, root));
            if plain(before.memory, root) {
                lemma_install_keeps_plain(
                    before.memory,
                    after.memory,
                    root,
                    layout,
                    parent,
                    index as int,
                    fresh,
                );
            }
            assert(walk_reads(
                before.memory,
                before.base,
                self.page(),
                table3(before.memory, before.base, self.page()).unwrap(),
            ));
            assert(!walk_reads(linked.memory, linked.base, self.page(), fresh));
            lemma_walk_agrees_after_zero(
                before,
                linked,
                after,
                *self,
                index as int,
                fresh,
            );
            self.lemma_next(after, index as int);
        }
        proof {
            let after = machine@;
            assert(after.memory =~= patched(
                before.memory,
                parent,
                index as int,
                compose(frame.number, PRESENT | WRITABLE),
            ).insert(frame.number, zeroed()));
        }
        table
    }

    /// The table that slot `index` refers to. Where the slot is empty, a
    /// frame is taken from `allocator`, entered in the slot as present and
    /// writable, and cleared; the translation cache is then flushed, because
    /// the frame was reachable before it was cleared. None where the slot is
    /// empty and the allocator hands out no frame: nothing has changed then.
    /// An allocator that is eager hands one out while it has one.
    pub fn next_table_create<M: Machine, A: FrameAllocator>(
        &self,
        machine: &mut M,
        index: usize,
        allocator: &mut A,
    ) -> (next: Option<Table>)
        requires
            space_ok(old(machine)@),
            old(allocator).wf(),
            self.in_tree(old(machine)@),
            index < 512,
            !(self.frame(old(machine)@) == root_of(old(machine)@) && index == 511),
            !is_huge(old(machine)@.memory[self.frame(old(machine)@)][index as int]),
            is_link(old(machine)@.memory[self.frame(old(machine)@)][index as int]) || can_take(
                old(machine)@,
                old(allocator).free_frames(),
            ),
        ensures
            space_ok(final(machine)@),
            final(allocator).wf(),
            edited(old(machine)@, final(machine)@),
            mappings(final(machine)@.memory, root_of(old(machine)@)) == mappings(
                old(machine)@.memory,
                root_of(old(machine)@),
            ),
            forall|table: u64| #[trigger]
                layout_of(old(machine)@.memory, root_of(old(machine)@)).contains_key(table)
                    ==> layout_of(final(machine)@.memory, root_of(old(machine)@)).contains_key(
                    table,
                ) && layout_of(final(machine)@.memory, root_of(old(machine)@))[table] == layout_of(
                    old(machine)@.memory,
                    root_of(old(machine)@),
                )[table],
            forall|table: u64| #[trigger]
                frames_of(final(machine)@.memory, root_of(old(machine)@)).contains(table)
                    ==> frames_of(old(machine)@.memory, root_of(old(machine)@)).contains(table) || (
                old(allocator).free_frames().contains(Frame { number: table })
                    && !final(allocator).free_frames().contains(Frame { number: table })),
            final(allocator).free_frames().subset_of(old(allocator).free_frames()),
            forall|frame: Frame| old(allocator).accepts(frame) ==> final(allocator).accepts(frame),
            is_link(old(machine)@.memory[self.frame(old(machine)@)][index as int]) ==> {
                &&& next != None::<Table>
                &&& final(machine)@ == old(machine)@
                &&& final(allocator).free_frames() == old(allocator).free_frames()
            },
            can_take(old(machine)@, old(allocator).free_frames()) ==> can_take(
                final(machine)@,
                final(allocator).free_frames(),
            ),
            plain(old(machine)@.memory, root_of(old(machine)@)) ==> plain(
                final(machine)@.memory,
                root_of(old(machine)@),
            ),
            !is_link(old(machine)@.memory[self.frame(old(machine)@)][index as int]) && next
                != None::<Table> ==> final(allocator).free_frames() != old(allocator).free_frames(),
            match next {
                Some(table) => {
                    &&& table == self.next(index as int)
                    &&& !is_link(old(machine)@.memory[self.frame(old(machine)@)][index as int])
                        ==> forall|slot: int|
                        0 <= slot < 512 ==> #[trigger] final(machine)@.memory[table.frame(
                            final(machine)@,
                        )][slot] == 0
                    &&& !is_link(old(machine)@.memory[self.frame(old(machine)@)][index as int])
                        ==> old(allocator).free_frames().contains(
                        Frame { number: table.frame(final(machine)@) },
                    ) && final(allocator).free_frames() == old(allocator).free_frames().remove(
                        Frame { number: table.frame(final(machine)@) },
                    )
                    &&& table.mapped(final(machine)@)
                    &&& self.level != TableLevel::Level2 ==> table.in_tree(final(machine)@)
                    &&& frames_of(final(machine)@.memory, root_of(old(machine)@)).contains(
                        table.frame(final(machine)@),
                    )
                    &&& layout_of(final(machine)@.memory, root_of(old(machine)@))[table.frame(
                        final(machine)@,
                    )] == node(self.level.number() - 1, self.frame(old(machine)@), index as int)
                },
                None => {
                    &&& final(machine)@ == old(machine)@
                    &&& final(allocator).free_frames() == old(allocator).free_frames()
                    &&& !is_link(old(machine)@.memory[self.frame(old(machine)@)][index as int])
                },
            },
            !is_link(old(machine)@.memory[self.frame(old(machine)@)][index as int]) && next
                != None::<Table> ==> final(machine)@.memory == patched(
                old(machine)@.memory,
                self.frame(old(machine)@),
                index as int,
                compose(next.unwrap().frame(final(machine)@), PRESENT | WRITABLE),
            ).insert(next.unwrap().frame(final(machine)@), zeroed()),
            old(allocator).eager() ==> final(allocator).eager(),
            old(allocator).eager() && old(allocator).free_frames() != Set::<Frame>::empty()
                ==> next != None::<Table>,
    {
        let ghost before = machine@;
        let ghost root = root_of(before);
        let ghost frame = self.frame(before);
        let ghost layout = layout_of(before.memory, root);
        let ghost lower = layout_of(before.memory, before.base);
        proof {
            assert(tree(before.memory, root, layout));
            assert(tree(before.memory, before.base, lower));
            assert(placed(before.memory, root, layout, frame));
            assert(placed(before.memory, root, layout, root));
            assert(placed(before.memory, before.base, lower, before.base));
        }
        match self.next_table(machine, index) {
            Some(table) => {
                proof {
                    lemma_step(before.memory, root, layout, frame, index as int);
                    self.lemma_next(before, index as int);
                }
                Some(table)
            },
            None => {
                match allocator.allocate_frame() {
                    None => None,
                    Some(new) => {
                        let table = self.install_table(machine, index, new);
                        proof {
                            let after = machine@;
                            assert(frames_of(after.memory, root) =~= frames_of(
                                before.memory,
                                root,
                            ).insert(new.number));
                            if root != before.base {
                                assert(frames_of(after.memory, before.base) == frames_of(
                                    before.memory,
                                    before.base,
                                ));
                            }
                            assert(after.memory[new.number] == zeroed());
                        }
                        Some(table)
                    },
                }
            },
        }
    }
}

/// Linking a frame into an empty slot of a table leaves the table where it
/// is shown.
proof fn lemma_walk_agrees_after_link(before: State, linked: State, table: Table, index: int)
    requires
        table.mapped(before),
        0 <= index < 512,
        !is_present(before.memory[table.frame(before)][index]),
        linked.base == before.base,
        linked.stale == Set::<Page>::empty(),
        linked.memory == patched(
            before.memory,
            table.frame(before),
            index,
            linked.memory[table.frame(before)][index],
        ),
        child(before.memory, before.base, 511) == Some(root_of(before)),
        child(before.memory, root_of(before), 511) == Some(root_of(before)),
        !(table.frame(before) == before.base && index == 511),
        !(table.frame(before) == root_of(before) && index == 511),
    ensures
        table.mapped(linked),
        table.frame(linked) == table.frame(before),
        walk(linked.memory, linked.base, table.page()) == walk(
            before.memory,
            before.base,
            table.page(),
        ),
        table1(linked.memory, linked.base, table.page()) == table1(
            before.memory,
            before.base,
            table.page(),
        ),
        table2(linked.memory, linked.base, table.page()) == table2(
            before.memory,
            before.base,
            table.page(),
        ),
        table3(linked.memory, linked.base, table.page()) == table3(
            before.memory,
            before.base,
            table.page(),
        ),
        root_of(linked) == root_of(before),
        child(linked.memory, linked.base, 511) == Some(root_of(before)),
        child(linked.memory, root_of(before), 511) == Some(root_of(before)),
{
    crate::machine::lemma_absent_slot_unread(
        before.memory,
        before.base,
        table.frame(before),
        index,
        linked.memory[table.frame(before)][index],
        table.page(),
    );
}

/// Clearing a frame that is no table of either tree leaves the tables where
/// they are shown.
proof fn lemma_walk_agrees_after_zero(
    before: State,
    linked: State,
    after: State,
    table: Table,
    index: int,
    fresh: u64,
)
    requires
        space_ok(before),
        table.mapped(linked),
        table.frame(linked) == table.frame(before),
        after.base == linked.base,
        linked.base == before.base,
        root_of(linked) == root_of(before),
        child(linked.memory, linked.base, 511) == Some(root_of(before)),
        child(linked.memory, root_of(before), 511) == Some(root_of(before)),
        after.stale == Set::<Page>::empty(),
        after.memory == linked.memory.insert(fresh, zeroed()),
        backed(linked.memory, fresh),
        !walk_reads(linked.memory, linked.base, table.page(), fresh),
        fresh != before.base,
        fresh != root_of(before),
        fresh != table.frame(before),
    ensures
        table.mapped(after),
        table.frame(after) == table.frame(before),
        walk(after.memory, after.base, table.page()) == walk(
            linked.memory,
            linked.base,
            table.page(),
        ),
        table1(after.memory, after.base, table.page()) == table1(
            linked.memory,
            linked.base,
            table.page(),
        ),
        root_of(after) == root_of(before),
        child(after.memory, after.base, 511) == Some(root_of(before)),
        child(after.memory, root_of(before), 511) == Some(root_of(before)),
        after.memory[table.frame(before)] == linked.memory[table.frame(before)],
{
    lemma_walk_agrees(linked.memory, after.memory, linked.base, table.page());
}

} // verus!
