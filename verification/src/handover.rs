//! Why the active table and an inactive one stay in order while the
//! recursive mapping is turned from one to the other and back.

use vstd::prelude::*;

use crate::entry::{compose, lemma_compose, Entry, PRESENT, WRITABLE};
use crate::frame::Frame;
use crate::machine::{
    backed, child, table1, table2, table3, walk, walk_reads, zeroed, State,
};
use crate::page::Page;
use crate::space::{
    edited, lemma_mappings_agree, lemma_walk_shape, mappings, plain, root_of, space_ok,
};
use crate::table::Table;
use crate::tree::{
    frames_of, layout_of, lemma_layout_unique, node, placed, slot_placed, tree, tree_ok, tree_slot,
};
use crate::inactive::InactivePageTable;

verus! {

/// The frame number in an entry fits an entry.
pub proof fn lemma_frame_number_fits(bits: u64)
    ensures
        crate::entry::frame_number(bits) < 0x100_0000_0000,
{
    assert((bits & 0x000f_ffff_ffff_f000) >> 12 < 0x100_0000_0000) by (bit_vector);
}

/// A page that is mapped to a frame which holds no table shows that frame,
/// and no walk reads the frame.
pub proof fn lemma_page_shows_frame(
    state: State,
    table: Table,
    page: Page,
    frame: u64,
    flags: u64,
)
    requires
        space_ok(state),
        root_of(state) == state.base,
        page.valid(),
        frame < 0x100_0000_0000,
        flags & 0x1 == 0x1,
        table.address == page.start(),
        walk(state.memory, state.base, page) == Some(compose(frame, flags)),
        backed(state.memory, frame),
        !frames_of(state.memory, state.base).contains(frame),
    ensures
        table.page() == page,
        table.mapped(state),
        table.frame(state) == frame,
        forall|other: Page| !walk_reads(state.memory, state.base, other, frame),
{
    lemma_compose(frame, flags);
    assert forall|other: Page| !walk_reads(state.memory, state.base, other, frame) by {
        lemma_walk_shape(state, other);
    }
}

/// A frame that held no table, cleared and with its last slot made to refer
/// to itself, is an empty level-4 table; the active table is as it was.
pub proof fn lemma_fresh_table(before: State, after: State, frame: u64)
    requires
        space_ok(before),
        root_of(before) == before.base,
        frame < 0x100_0000_0000,
        backed(before.memory, frame),
        !frames_of(before.memory, before.base).contains(frame),
        after.base == before.base,
        after.stale == Set::<Page>::empty(),
        after.memory == before.memory.insert(
            frame,
            zeroed().update(511, compose(frame, PRESENT | WRITABLE)),
        ),
    ensures
        space_ok(after),
        root_of(after) == after.base,
        after.memory.dom() == before.memory.dom(),
        layout_of(after.memory, after.base) == layout_of(before.memory, before.base),
        mappings(after.memory, after.base) == mappings(before.memory, before.base),
        tree_ok(after.memory, frame),
        child(after.memory, frame, 511) == Some(frame),
        frames_of(after.memory, frame) == set![frame],
        mappings(after.memory, frame) == Map::<Page, Entry>::empty(),
        plain(after.memory, frame),
{
    let base = before.base;
    lemma_compose(frame, PRESENT | WRITABLE);
    assert((PRESENT | WRITABLE) & 0x1 == 0x1 && (PRESENT | WRITABLE) & 0x80 != 0x80 && 0u64 & 0x1
        != 0x1) by (bit_vector);
    assert(after.memory.dom() =~= before.memory.dom());
    assert(tree(before.memory, base, layout_of(before.memory, base)));
    assert forall|other: u64| #[trigger]
        frames_of(before.memory, base).contains(other) implies backed(after.memory, other) by {
        assert(placed(before.memory, base, layout_of(before.memory, base), other));
    }
    assert(frames_of(before.memory, base).contains(base));
    lemma_mappings_agree(before.memory, after.memory, base);
    let own = map![frame => node(4, frame, 511)];
    assert forall|other: u64, index: int| #[trigger]
        slot_placed(after.memory, frame, own, other, index) by {
        if tree_slot(frame, own, other, index) && 0 <= index < 512 {
            assert(after.memory[other][index] == 0);
        }
    }
    lemma_layout_unique(after.memory, frame, own);
    assert(own.dom() =~= set![frame]);
    assert(mappings(after.memory, frame) =~= Map::<Page, Entry>::empty()) by {
        assert forall|other: Page| other.p4() != 511 implies walk(after.memory, frame, other)
            is None by {
            other.lemma_indices_in_range();
            assert(after.memory[frame][other.p4()] == 0);
        }
    }
    assert(0u64 & 0x80 != 0x80) by (bit_vector);
    assert forall|other: Page| !#[trigger] crate::space::blocked(after.memory, frame, other) by {
        other.lemma_indices_in_range();
        if other.p4() != 511 {
            assert(after.memory[frame][other.p4()] == 0);
        } else if other.p3() != 511 {
            assert(after.memory[frame][other.p3()] == 0);
        } else if other.p2() != 511 {
            assert(after.memory[frame][other.p2()] == 0);
        }
    }
}

/// An inactive table stays in order, and maps what it mapped, where memory
/// keeps its tables and the active table takes none of them.
pub proof fn lemma_inactive_kept(before: State, after: State, table: InactivePageTable)
    requires
        table.wf(before),
        forall|frame: u64| #[trigger]
            frames_of(before.memory, table.p4_frame.number).contains(frame)
                ==> after.memory.contains_key(frame) && after.memory[frame]
                == before.memory[frame] && !frames_of(after.memory, after.base).contains(frame),
    ensures
        table.wf(after),
        table.mappings(after) == table.mappings(before),
        layout_of(after.memory, table.p4_frame.number) == layout_of(
            before.memory,
            table.p4_frame.number,
        ),
        plain(before.memory, table.p4_frame.number) ==> plain(
            after.memory,
            table.p4_frame.number,
        ),
{
    let root = table.p4_frame.number;
    if plain(before.memory, root) {
        crate::tree::lemma_tables_backed(before.memory, root);
        crate::space::lemma_plain_agrees(before.memory, after.memory, root);
    }
    let layout = layout_of(before.memory, root);
    assert(tree(before.memory, root, layout));
    assert forall|frame: u64| #[trigger]
        frames_of(before.memory, root).contains(frame) implies backed(after.memory, frame) by {
        assert(placed(before.memory, root, layout, frame));
    }
    assert(frames_of(before.memory, root).contains(root));
    lemma_mappings_agree(before.memory, after.memory, root);
}

/// An inactive table stays in order, and maps what it mapped, through edits
/// of the active table that take none of its tables.
pub proof fn lemma_inactive_survives(before: State, after: State, table: InactivePageTable)
    requires
        table.wf(before),
        edited(before, after),
        root_of(before) == before.base,
        frames_of(after.memory, after.base).disjoint(
            frames_of(before.memory, table.p4_frame.number),
        ),
    ensures
        table.wf(after),
        table.mappings(after) == table.mappings(before),
        layout_of(after.memory, table.p4_frame.number) == layout_of(
            before.memory,
            table.p4_frame.number,
        ),
        plain(before.memory, table.p4_frame.number) ==> plain(
            after.memory,
            table.p4_frame.number,
        ),
{
    crate::tree::lemma_tables_backed(before.memory, table.p4_frame.number);
    assert forall|frame: u64| #[trigger]
        frames_of(before.memory, table.p4_frame.number).contains(frame) implies (
    after.memory.contains_key(frame) && after.memory[frame] == before.memory[frame]
        && !frames_of(after.memory, after.base).contains(frame)) by {
        assert(before.memory.dom().contains(frame));
        assert(after.memory.dom().contains(frame));
    }
    lemma_inactive_kept(before, after, table);
}

/// The active table shares no table with an inactive one after it took
/// tables from a reserve that held none of the inactive table's. `rest` is
/// what is left of the reserve.
pub proof fn lemma_shared_none(
    before: State,
    after: State,
    table: InactivePageTable,
    reserve: Set<Frame>,
    rest: Set<Frame>,
)
    requires
        table.wf(before),
        forall|frame: u64| #[trigger]
            frames_of(after.memory, after.base).contains(frame) ==> frames_of(
                before.memory,
                before.base,
            ).contains(frame) || (reserve.contains(Frame { number: frame }) && !rest.contains(
                Frame { number: frame },
            )),
        rest == reserve || forall|frame: Frame| #[trigger]
            reserve.contains(frame) ==> !frames_of(before.memory, table.p4_frame.number).contains(
                frame.number,
            ),
    ensures
        frames_of(after.memory, after.base).disjoint(
            frames_of(before.memory, table.p4_frame.number),
        ),
{
    assert forall|frame: u64|
        !(frames_of(after.memory, after.base).contains(frame) && frames_of(
            before.memory,
            table.p4_frame.number,
        ).contains(frame)) by {
        if frames_of(after.memory, after.base).contains(frame) && !frames_of(
            before.memory,
            before.base,
        ).contains(frame) {
            assert(reserve.contains(Frame { number: frame }));
        }
    }
}

/// No huge page lies on the way to a page whose level-1 table exists.
pub proof fn lemma_covered_not_blocked(state: State, page: Page)
    requires
        table1(state.memory, root_of(state), page) != None::<u64>,
    ensures
        !crate::entry::is_huge(state.memory[root_of(state)][page.p4()]),
        !crate::entry::is_huge(
            state.memory[table3(state.memory, root_of(state), page).unwrap()][page.p3()],
        ),
        !crate::entry::is_huge(
            state.memory[table2(state.memory, root_of(state), page).unwrap()][page.p2()],
        ),
{
}

/// A tree is as it was after a store to the last slot of the active table,
/// whether the tree is the active table's or shares no table with it.
pub proof fn lemma_swap_keeps(before: State, after: State, value: u64, root: u64)
    requires
        tree_ok(before.memory, root),
        backed(before.memory, before.base),
        after.memory == crate::machine::patched(before.memory, before.base, 511, value),
        root == before.base || !frames_of(before.memory, root).contains(before.base),
    ensures
        tree_ok(after.memory, root),
        layout_of(after.memory, root) == layout_of(before.memory, root),
        frames_of(after.memory, root) == frames_of(before.memory, root),
        mappings(after.memory, root) == mappings(before.memory, root),
        root != before.base ==> child(after.memory, root, 511) == child(before.memory, root, 511),
{
    crate::tree::lemma_tables_backed(before.memory, root);
    lemma_mappings_agree(before.memory, after.memory, root);
}

/// The machine after the recursive mapping was turned from the active table
/// to an inactive one.
pub proof fn lemma_lend(before: State, after: State, table: InactivePageTable)
    requires
        space_ok(before),
        root_of(before) == before.base,
        table.wf(before),
        after.base == before.base,
        after.stale == Set::<Page>::empty(),
        after.memory == crate::machine::patched(
            before.memory,
            before.base,
            511,
            compose(table.p4_frame.number, PRESENT | WRITABLE),
        ),
    ensures
        space_ok(after),
        root_of(after) == table.p4_frame.number,
        root_of(after) != after.base,
        after.memory.dom() == before.memory.dom(),
        layout_of(after.memory, table.p4_frame.number) == layout_of(
            before.memory,
            table.p4_frame.number,
        ),
        mappings(after.memory, table.p4_frame.number) == mappings(
            before.memory,
            table.p4_frame.number,
        ),
        layout_of(after.memory, after.base) == layout_of(before.memory, before.base),
        mappings(after.memory, after.base) == mappings(before.memory, before.base),
        forall|frame: u64|
            frame != before.base ==> #[trigger] after.memory[frame] == before.memory[frame],
        plain(before.memory, table.p4_frame.number) ==> plain(
            after.memory,
            table.p4_frame.number,
        ),
{
    let base = before.base;
    let root = table.p4_frame.number;
    if plain(before.memory, root) {
        crate::tree::lemma_tables_backed(before.memory, root);
        assert(after.memory.dom() =~= before.memory.dom());
        crate::space::lemma_plain_agrees(before.memory, after.memory, root);
    }
    let value = compose(root, PRESENT | WRITABLE);
    lemma_compose(root, PRESENT | WRITABLE);
    assert((PRESENT | WRITABLE) & 0x1 == 0x1 && (PRESENT | WRITABLE) & 0x80 != 0x80)
        by (bit_vector);
    crate::tree::lemma_tables_backed(before.memory, base);
    crate::tree::lemma_tables_backed(before.memory, root);
    assert(after.memory.dom() =~= before.memory.dom());
    lemma_swap_keeps(before, after, value, base);
    lemma_swap_keeps(before, after, value, root);
}

/// The machine after the recursive mapping was turned back to the active
/// table.
pub proof fn lemma_return(before: State, after: State)
    requires
        space_ok(before),
        root_of(before) != before.base,
        before.base < 0x100_0000_0000,
        after.base == before.base,
        after.stale == Set::<Page>::empty(),
        after.memory == crate::machine::patched(
            before.memory,
            before.base,
            511,
            compose(before.base, PRESENT | WRITABLE),
        ),
    ensures
        space_ok(after),
        root_of(after) == after.base,
        after.memory.dom() == before.memory.dom(),
        layout_of(after.memory, after.base) == layout_of(before.memory, before.base),
        mappings(after.memory, after.base) == mappings(before.memory, before.base),
        (InactivePageTable { p4_frame: Frame { number: root_of(before) } }).wf(after),
        layout_of(after.memory, root_of(before)) == layout_of(before.memory, root_of(before)),
        mappings(after.memory, root_of(before)) == mappings(before.memory, root_of(before)),
        forall|frame: u64|
            frame != before.base ==> #[trigger] after.memory[frame] == before.memory[frame],
{
    let base = before.base;
    let root = root_of(before);
    let value = compose(base, PRESENT | WRITABLE);
    lemma_compose(base, PRESENT | WRITABLE);
    lemma_frame_number_fits(before.memory[base][511]);
    assert((PRESENT | WRITABLE) & 0x1 == 0x1 && (PRESENT | WRITABLE) & 0x80 != 0x80)
        by (bit_vector);
    crate::tree::lemma_tables_backed(before.memory, base);
    crate::tree::lemma_tables_backed(before.memory, root);
    assert(after.memory.dom() =~= before.memory.dom());
    lemma_swap_keeps(before, after, value, base);
    lemma_swap_keeps(before, after, value, root);
}

/// The active table is as it was after edits of an inactive one.
pub proof fn lemma_active_kept(before: State, after: State)
    requires
        space_ok(before),
        root_of(before) != before.base,
        edited(before, after),
    ensures
        tree_ok(after.memory, after.base),
        layout_of(after.memory, after.base) == layout_of(before.memory, before.base),
        frames_of(after.memory, after.base) == frames_of(before.memory, before.base),
        mappings(after.memory, after.base) == mappings(before.memory, before.base),
{
    crate::tree::lemma_tables_backed(before.memory, before.base);
    assert forall|table: u64| #[trigger]
        frames_of(before.memory, before.base).contains(table) implies backed(
        after.memory,
        table,
    ) by {
        assert(before.memory.dom().contains(table));
        assert(after.memory.dom().contains(table));
    }
    lemma_mappings_agree(before.memory, after.memory, before.base);
}

} // verus!
