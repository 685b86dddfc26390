//! What holds of the machine between the mapper's operations.
//!
//! The table-base register names the active level-4 table. Its last slot
//! refers to the table that the recursive mapping shows: the active table
//! itself, or an inactive one while that is being edited. Both are roots of
//! trees of tables, and no page is stale.

use vstd::prelude::*;
use crate::entry::{frame_number, is_huge, is_link, is_present, Entry};
use crate::frame::Frame;
use crate::machine::{
    backed, changed, child, lemma_absent_slot_unread, patched, table1, table2, table3, walk,
    walk_reads, Memory, State,
};
use crate::page::Page;
use crate::tree::{
    frames_of, layout_of, lemma_descent, lemma_step, placed, tree, tree_ok, tree_slot, Layout,
};

verus! {

/// The level-4 table that the recursive mapping shows: what the last slot of
/// the active table refers to.
pub open spec fn root_of(state: State) -> u64 {
    frame_number(state.memory[state.base][511])
}

/// The machine is in order.
pub open spec fn space_ok(state: State) -> bool {
    &&& child(state.memory, state.base, 511) == Some(root_of(state))
    &&& child(state.memory, root_of(state), 511) == Some(root_of(state))
    &&& tree_ok(state.memory, state.base)
    &&& tree_ok(state.memory, root_of(state))
    &&& root_of(state) != state.base ==> frames_of(state.memory, state.base).disjoint(
        frames_of(state.memory, root_of(state)),
    )
    &&& state.stale == Set::<Page>::empty()
}

/// The pages that the address space rooted at `root` maps, each with its
/// level-1 entry. The pages of the recursive slot are left out: they show
/// tables.
pub open spec fn mappings(memory: Memory, root: u64) -> Map<Page, Entry> {
    Map::new(
        |page: Page| page.valid() && page.p4() != 511 && walk(memory, root, page) is Some,
        |page: Page| Entry { bits: walk(memory, root, page).unwrap() },
    )
}

/// A huge-page entry lies on the way from `root` to `page`.
pub open spec fn blocked(memory: Memory, root: u64, page: Page) -> bool {
    ||| is_huge(memory[root][page.p4()])
    ||| match table3(memory, root, page) {
        Some(a) => is_huge(memory[a][page.p3()]),
        None => false,
    }
    ||| match table2(memory, root, page) {
        Some(b) => is_huge(memory[b][page.p2()]),
        None => false,
    }
}

/// The address space rooted at `root` holds no huge page: none lies on the
/// way to any page.
pub open spec fn plain(memory: Memory, root: u64) -> bool {
    forall|page: Page| !#[trigger] blocked(memory, root, page)
}

/// An address space that holds no huge page holds none where memory agrees
/// on its tables.
pub proof fn lemma_plain_agrees(before: Memory, after: Memory, root: u64)
    requires
        tree_ok(before, root),
        child(before, root, 511) == Some(root),
        plain(before, root),
        forall|table: u64| #[trigger]
            frames_of(before, root).contains(table) ==> backed(after, table) && after[table]
                == before[table],
    ensures
        plain(after, root),
{
    let layout = layout_of(before, root);
    assert(tree(before, root, layout));
    assert(placed(before, root, layout, root));
    crate::tree::lemma_tables_backed(before, root);
    assert forall|page: Page| !#[trigger] blocked(after, root, page) by {
        assert(!blocked(before, root, page));
        assert(frames_of(before, root).contains(root));
        match table3(before, root, page) {
            Some(a) => {
                lemma_step(before, root, layout, root, page.p4());
                assert(frames_of(before, root).contains(a));
                match table2(before, root, page) {
                    Some(b) => {
                        lemma_step(before, root, layout, a, page.p3());
                        assert(frames_of(before, root).contains(b));
                    },
                    None => {},
                }
            },
            None => {},
        }
    }
}

/// A new, empty table in an empty slot brings no huge page.
pub proof fn lemma_install_keeps_plain(
    before: Memory,
    after: Memory,
    root: u64,
    layout: Layout,
    table: u64,
    index: int,
    fresh: u64,
)
    requires
        tree(before, root, layout),
        child(before, root, 511) == Some(root),
        plain(before, root),
        layout.contains_key(table),
        0 <= index < 512,
        !layout.contains_key(fresh),
        is_link(after[table][index]),
        frame_number(after[table][index]) == fresh,
        forall|frame: u64| #[trigger] backed(after, frame) == backed(before, frame),
        forall|slot: int| 0 <= slot < 512 ==> #[trigger] after[fresh][slot] == 0,
        forall|frame: u64, slot: int|
            frame != fresh && !(frame == table && slot == index) && 0 <= slot < 512
                ==> #[trigger] after[frame][slot] == before[frame][slot],
    ensures
        plain(after, root),
{
    assert(0u64 & 0x80 != 0x80 && 0u64 & 0x1 != 0x1) by (bit_vector);
    assert(placed(before, root, layout, root));
    assert forall|page: Page| !#[trigger] blocked(after, root, page) by {
        assert(!blocked(before, root, page));
        page.lemma_indices_in_range();
        assert(backed(after, root) == backed(before, root));
        assert(backed(after, fresh) == backed(before, fresh));
        if root == table && page.p4() == index {
            assert(after[fresh][page.p3()] == 0);
            assert(after[fresh][page.p2()] == 0);
        } else {
            assert(after[root][page.p4()] == before[root][page.p4()]);
            match table3(before, root, page) {
                Some(a) => {
                    lemma_step(before, root, layout, root, page.p4());
                    assert(backed(after, a) == backed(before, a));
                    if a == table && page.p3() == index {
                        assert(after[fresh][page.p2()] == 0);
                    } else {
                        assert(after[a][page.p3()] == before[a][page.p3()]);
                        match table2(before, root, page) {
                            Some(b) => {
                                lemma_step(before, root, layout, a, page.p3());
                                assert(backed(after, b) == backed(before, b));
                                if b == table && page.p2() == index {
                                } else {
                                    assert(after[b][page.p2()] == before[b][page.p2()]);
                                }
                            },
                            None => {},
                        }
                    }
                },
                None => {},
            }
        }
    }
}

/// A store to a level-1 slot brings no huge page.
pub proof fn lemma_leaf_keeps_plain(
    before: Memory,
    root: u64,
    layout: Layout,
    table: u64,
    index: int,
    value: u64,
)
    requires
        tree(before, root, layout),
        child(before, root, 511) == Some(root),
        plain(before, root),
        layout.contains_key(table),
        layout[table].level == 1,
        0 <= index < 512,
    ensures
        plain(patched(before, table, index, value), root),
{
    let after = patched(before, table, index, value);
    assert(placed(before, root, layout, root));
    assert(placed(before, root, layout, table));
    assert forall|frame: u64| #[trigger] backed(after, frame) == backed(before, frame) by {}
    assert forall|page: Page| !#[trigger] blocked(after, root, page) by {
        assert(!blocked(before, root, page));
        match table3(before, root, page) {
            Some(a) => {
                lemma_step(before, root, layout, root, page.p4());
                match table2(before, root, page) {
                    Some(b) => {
                        lemma_step(before, root, layout, a, page.p3());
                    },
                    None => {},
                }
            },
            None => {},
        }
        lemma_table_slots(before, after, root, page);
    }
}

/// Every frame of `free` can become a table: it exists, its number fits an
/// entry, and it is no table yet.
pub open spec fn can_take(state: State, free: Set<Frame>) -> bool {
    forall|frame: Frame| #[trigger]
        free.contains(frame) ==> frame.valid() && backed(state.memory, frame.number)
            && !frames_of(state.memory, state.base).contains(frame.number) && !frames_of(
            state.memory,
            root_of(state),
        ).contains(frame.number)
}

/// `after` came from `before` by edits of the tree that the recursive
/// mapping shows: the registers are the same, the last slots of the active
/// table and of the tree's root hold what they held, every table of the
/// tree is where it was, and memory outside the tree is as it was. While an inactive
/// table is edited, the active one is as it was.
pub open spec fn edited(before: State, after: State) -> bool {
    &&& after.base == before.base
    &&& root_of(after) == root_of(before)
    &&& after.memory[before.base][511] == before.memory[before.base][511]
    &&& after.memory[root_of(before)][511] == before.memory[root_of(before)][511]
    &&& after.memory.dom() == before.memory.dom()
    &&& frames_of(before.memory, root_of(before)).subset_of(
        frames_of(after.memory, root_of(before)),
    )
    &&& forall|table: u64| #[trigger]
        layout_of(before.memory, root_of(before)).contains_key(table) ==> layout_of(
            after.memory,
            root_of(before),
        ).contains_key(table) && layout_of(after.memory, root_of(before))[table] == layout_of(
            before.memory,
            root_of(before),
        )[table]
    &&& forall|frame: u64|
        !frames_of(after.memory, root_of(before)).contains(frame) ==> #[trigger] after.memory[frame]
            == before.memory[frame]
    &&& root_of(before) != before.base ==> forall|frame: u64| #[trigger]
        frames_of(before.memory, before.base).contains(frame) ==> after.memory[frame]
            == before.memory[frame]
}

/// Edits follow one another.
pub proof fn lemma_edited_twice(first: State, second: State, third: State)
    requires
        tree_ok(first.memory, first.base),
        edited(first, second),
        edited(second, third),
    ensures
        edited(first, third),
{
    let root = root_of(first);
    if root != first.base {
        let lower = layout_of(first.memory, first.base);
        assert(tree(first.memory, first.base, lower));
        assert forall|frame: u64| #[trigger]
            frames_of(first.memory, first.base).contains(frame) implies second.memory.contains_key(
            frame,
        ) && second.memory[frame] == first.memory[frame] by {
            assert(placed(first.memory, first.base, lower, frame));
            assert(first.memory.dom().contains(frame));
            assert(second.memory.dom().contains(frame));
        }
        crate::tree::lemma_tree_agrees(first.memory, second.memory, first.base);
        assert forall|frame: u64| #[trigger]
            frames_of(first.memory, first.base).contains(frame) implies third.memory[frame]
            == first.memory[frame] by {
            assert(frames_of(second.memory, second.base).contains(frame));
        }
    }
    assert forall|frame: u64|
        !frames_of(third.memory, root).contains(frame) implies #[trigger] third.memory[frame]
        == first.memory[frame] by {
        assert(!frames_of(second.memory, root).contains(frame));
        assert(second.memory[frame] == first.memory[frame]);
    }
}

/// The tables on the way to a page stay on the way to it through edits: a
/// page that needed no table needs none afterwards.
pub proof fn lemma_edited_keeps_cover(before: State, after: State, page: Page)
    requires
        tree_ok(before.memory, root_of(before)),
        tree_ok(after.memory, root_of(before)),
        edited(before, after),
        page.p4() != 511,
        table1(before.memory, root_of(before), page) != None::<u64>,
    ensures
        table3(after.memory, root_of(before), page) == table3(
            before.memory,
            root_of(before),
            page,
        ),
        table2(after.memory, root_of(before), page) == table2(
            before.memory,
            root_of(before),
            page,
        ),
        table1(after.memory, root_of(before), page) == table1(
            before.memory,
            root_of(before),
            page,
        ),
{
    let root = root_of(before);
    let old_layout = layout_of(before.memory, root);
    let new_layout = layout_of(after.memory, root);
    assert(tree(before.memory, root, old_layout));
    assert(tree(after.memory, root, new_layout));
    lemma_descent(before.memory, root, old_layout, page);
    let a = table3(before.memory, root, page).unwrap();
    let b = table2(before.memory, root, page).unwrap();
    let c = table1(before.memory, root, page).unwrap();
    assert(old_layout.contains_key(a) && old_layout.contains_key(b) && old_layout.contains_key(c));
    assert(placed(after.memory, root, new_layout, a));
    assert(placed(after.memory, root, new_layout, b));
    assert(placed(after.memory, root, new_layout, c));
}

/// A walk finds in `after` what it finds in `before` where the two agree on
/// every slot that it reads in `before`.
pub proof fn lemma_walk_slots(before: Memory, after: Memory, root: u64, page: Page)
    requires
        backed(after, root) == backed(before, root),
        after[root][page.p4()] == before[root][page.p4()],
        match table3(before, root, page) {
            Some(a) => backed(after, a) == backed(before, a) && after[a][page.p3()]
                == before[a][page.p3()],
            None => true,
        },
        match table2(before, root, page) {
            Some(b) => backed(after, b) == backed(before, b) && after[b][page.p2()]
                == before[b][page.p2()],
            None => true,
        },
        match table1(before, root, page) {
            Some(c) => backed(after, c) == backed(before, c) && after[c][page.p1()]
                == before[c][page.p1()],
            None => true,
        },
    ensures
        table3(after, root, page) == table3(before, root, page),
        table2(after, root, page) == table2(before, root, page),
        table1(after, root, page) == table1(before, root, page),
        walk(after, root, page) == walk(before, root, page),
{
    lemma_table_slots(before, after, root, page);
}

/// A walk reaches in `after` the tables that it reaches in `before` where
/// the two agree on every slot above level 1 that it reads in `before`.
pub proof fn lemma_table_slots(before: Memory, after: Memory, root: u64, page: Page)
    requires
        backed(after, root) == backed(before, root),
        after[root][page.p4()] == before[root][page.p4()],
        match table3(before, root, page) {
            Some(a) => backed(after, a) == backed(before, a) && after[a][page.p3()]
                == before[a][page.p3()],
            None => true,
        },
        match table2(before, root, page) {
            Some(b) => backed(after, b) == backed(before, b) && after[b][page.p2()]
                == before[b][page.p2()],
            None => true,
        },
    ensures
        table3(after, root, page) == table3(before, root, page),
        table2(after, root, page) == table2(before, root, page),
        table1(after, root, page) == table1(before, root, page),
{
}

/// An address space maps in `after` what it maps in `before` where its
/// tables stay and keep their slots, but for the last slot of the root.
pub proof fn lemma_mappings_agree(before: Memory, after: Memory, root: u64)
    requires
        tree_ok(before, root),
        forall|table: u64| #[trigger]
            frames_of(before, root).contains(table) ==> backed(after, table),
        forall|table: u64, index: int|
            frames_of(before, root).contains(table) && 0 <= index < 512 && !(table == root
                && index == 511) ==> #[trigger] after[table][index] == before[table][index],
    ensures
        tree_ok(after, root),
        layout_of(after, root) == layout_of(before, root),
        frames_of(after, root) == frames_of(before, root),
        mappings(after, root) == mappings(before, root),
{
    let layout = layout_of(before, root);
    assert(tree(before, root, layout));
    assert forall|table: u64| #[trigger] layout.contains_key(table) implies backed(
        after,
        table,
    ) && backed(before, table) by {
        assert(frames_of(before, root).contains(table));
        assert(placed(before, root, layout, table));
    }
    assert forall|table: u64, index: int|
        #![trigger child(after, table, index)]
        tree_slot(root, layout, table, index) implies child(after, table, index) == child(
        before,
        table,
        index,
    ) by {
        assert(frames_of(before, root).contains(table));
        if 0 <= index < 512 {
            assert(after[table][index] == before[table][index]);
        }
    }
    crate::tree::lemma_tree_kept(before, after, root, layout);
    assert forall|page: Page| page.valid() && page.p4() != 511 implies walk(after, root, page)
        == walk(before, root, page) by {
        page.lemma_indices_in_range();
        lemma_descent(before, root, layout, page);
        assert(frames_of(before, root).contains(root));
        assert(placed(before, root, layout, root));
        match table3(before, root, page) {
            Some(a) => {
                assert(frames_of(before, root).contains(a));
                assert(placed(before, root, layout, a));
            },
            None => {},
        }
        match table2(before, root, page) {
            Some(b) => {
                assert(frames_of(before, root).contains(b));
                assert(placed(before, root, layout, b));
            },
            None => {},
        }
        match table1(before, root, page) {
            Some(c) => {
                assert(frames_of(before, root).contains(c));
                assert(placed(before, root, layout, c));
            },
            None => {},
        }
        lemma_walk_slots(before, after, root, page);
    }
    assert(mappings(after, root) =~= mappings(before, root));
}

/// The tables that a walk from the active table reads are tables of the two
/// trees. A walk through the recursive slot stays above level 1.
pub proof fn lemma_walk_shape(state: State, page: Page)
    requires
        space_ok(state),
    ensures
        page.p4() == 511 ==> table3(state.memory, state.base, page) == Some(root_of(state)),
        page.p4() == 511 ==> match table2(state.memory, state.base, page) {
            Some(b) => frames_of(state.memory, root_of(state)).contains(b) && layout_of(
                state.memory,
                root_of(state),
            )[b].level >= 3,
            None => true,
        },
        page.p4() == 511 ==> match table1(state.memory, state.base, page) {
            Some(c) => frames_of(state.memory, root_of(state)).contains(c) && layout_of(
                state.memory,
                root_of(state),
            )[c].level >= 2,
            None => true,
        },
        forall|table: u64| #[trigger]
            walk_reads(state.memory, state.base, page, table) ==> frames_of(
                state.memory,
                state.base,
            ).contains(table) || frames_of(state.memory, root_of(state)).contains(table),
{
    let memory = state.memory;
    let root = root_of(state);
    let upper = layout_of(memory, root);
    let lower = layout_of(memory, state.base);
    assert(placed(memory, root, upper, root));
    if page.p4() == 511 {
        match table2(memory, state.base, page) {
            Some(b) => {
                lemma_step(memory, root, upper, root, page.p3());
                match table1(memory, state.base, page) {
                    Some(c) => {
                        lemma_step(memory, root, upper, b, page.p2());
                    },
                    None => {},
                }
            },
            None => {},
        }
    } else {
        lemma_descent(memory, state.base, lower, page);
    }
}

/// A new, empty table in an empty slot changes no translation.
pub proof fn lemma_install_keeps_walks(
    before: Memory,
    after: Memory,
    root: u64,
    layout: Layout,
    table: u64,
    index: int,
    fresh: u64,
    page: Page,
)
    requires
        tree(before, root, layout),
        page.p4() != 511,
        layout.contains_key(table),
        layout[table].level > 1,
        0 <= index < 512,
        child(before, table, index) == None::<u64>,
        !layout.contains_key(fresh),
        child(after, table, index) == Some(fresh),
        forall|frame: u64| #[trigger] backed(after, frame) == backed(before, frame),
        forall|slot: int| 0 <= slot < 512 ==> !is_present(#[trigger] after[fresh][slot]),
        forall|frame: u64, slot: int|
            frame != fresh && !(frame == table && slot == index) && 0 <= slot < 512
                ==> #[trigger] after[frame][slot] == before[frame][slot],
    ensures
        walk(after, root, page) == walk(before, root, page),
{
    lemma_descent(before, root, layout, page);
    assert(placed(before, root, layout, root));
    assert(backed(after, root) == backed(before, root));
    assert(backed(after, fresh) == backed(before, fresh));
    page.lemma_indices_in_range();
    if root == table && page.p4() == index {
        assert(!is_present(after[fresh][page.p3()]));
    } else {
        assert(after[root][page.p4()] == before[root][page.p4()]);
        match table3(before, root, page) {
            Some(a) => {
                assert(backed(after, a) == backed(before, a));
                if a == table && page.p3() == index {
                    assert(!is_present(after[fresh][page.p2()]));
                } else {
                    assert(after[a][page.p3()] == before[a][page.p3()]);
                    match table2(before, root, page) {
                        Some(b) => {
                            assert(backed(after, b) == backed(before, b));
                            if b == table && page.p2() == index {
                                assert(!is_present(after[fresh][page.p1()]));
                            } else {
                                assert(after[b][page.p2()] == before[b][page.p2()]);
                                match table1(before, root, page) {
                                    Some(c) => {
                                        assert(backed(after, c) == backed(before, c));
                                        assert(after[c][page.p1()] == before[c][page.p1()]);
                                    },
                                    None => {},
                                }
                            }
                        },
                        None => {},
                    }
                }
            },
            None => {},
        }
    }
}

/// A store to the level-1 slot of one page changes the translation of no
/// other page of the tree.
pub proof fn lemma_leaf_keeps_walks(
    before: Memory,
    root: u64,
    layout: Layout,
    target: Page,
    value: u64,
    page: Page,
)
    requires
        tree(before, root, layout),
        target.valid(),
        target.p4() != 511,
        table1(before, root, target) != None::<u64>,
        page.valid(),
        page.p4() != 511,
        page != target,
    ensures
        walk(
            patched(before, table1(before, root, target).unwrap(), target.p1(), value),
            root,
            page,
        ) == walk(before, root, page),
{
    let table = table1(before, root, target).unwrap();
    let after = patched(before, table, target.p1(), value);
    lemma_descent(before, root, layout, page);
    lemma_descent(before, root, layout, target);
    assert(placed(before, root, layout, root));
    page.lemma_indices_in_range();
    target.lemma_indices_in_range();
    assert(backed(before, table));
    match table1(before, root, page) {
        Some(c) => {
            let b = table2(before, root, page).unwrap();
            let a = table3(before, root, page).unwrap();
            assert(a != table && b != table && root != table);
            if c == table && page.p1() == target.p1() {
                assert(layout[c] == crate::tree::node(1, b, page.p2()));
                assert(b == table2(before, root, target).unwrap() && page.p2() == target.p2());
                assert(layout[b] == crate::tree::node(2, a, page.p3()));
                assert(a == table3(before, root, target).unwrap() && page.p3() == target.p3());
                assert(layout[a] == crate::tree::node(3, root, page.p4()));
                assert(page.p4() == target.p4());
                page.lemma_indices_determine_page(target);
            }
        },
        None => {},
    }
    assert forall|frame: u64| #[trigger] backed(after, frame) == backed(before, frame) by {
        if frame == table {
            assert(after[table].len() == before[table].len());
        }
    }
    lemma_walk_slots(before, after, root, page);
}

/// A store to the level-1 slot of one page changes the valid translation of
/// no other page, as the active table translates them.
pub proof fn lemma_leaf_changes_one(state: State, target: Page, value: u64)
    requires
        space_ok(state),
        target.valid(),
        target.p4() != 511,
        table1(state.memory, root_of(state), target) != None::<u64>,
    ensures
        changed(
            state.memory,
            patched(
                state.memory,
                table1(state.memory, root_of(state), target).unwrap(),
                target.p1(),
                value,
            ),
            state.base,
        ).subset_of(set![target]),
{
    let memory = state.memory;
    let root = root_of(state);
    let table = table1(memory, root, target).unwrap();
    let after = patched(memory, table, target.p1(), value);
    let upper = layout_of(memory, root);
    let lower = layout_of(memory, state.base);
    lemma_descent(memory, root, upper, target);
    assert(placed(memory, root, upper, root));
    assert(placed(memory, state.base, lower, state.base));
    assert forall|page: Page| changed(memory, after, state.base).contains(page) implies set![
        target,
    ].contains(page) by {
        if page != target {
            lemma_walk_shape(state, page);
            if page.p4() != 511 {
                if root == state.base {
                    lemma_leaf_keeps_walks(memory, root, upper, target, value, page);
                } else {
                    lemma_descent(memory, state.base, lower, page);
                    lemma_walk_slots(memory, after, state.base, page);
                }
            } else {
                lemma_walk_slots(memory, after, state.base, page);
            }
        }
    }
}

/// A store to a slot that held no present entry leaves no page stale.
pub proof fn lemma_absent_slot_changes_none(
    memory: Memory,
    root: u64,
    frame: u64,
    index: int,
    value: u64,
)
    requires
        backed(memory, frame),
        0 <= index < 512,
        !is_present(memory[frame][index]),
    ensures
        changed(memory, patched(memory, frame, index, value), root) == Set::<Page>::empty(),
{
    assert forall|page: Page|
        !changed(memory, patched(memory, frame, index, value), root).contains(page) by {
        if walk(memory, root, page) is Some {
            lemma_absent_slot_unread(memory, root, frame, index, value, page);
        }
    }
    assert(changed(memory, patched(memory, frame, index, value), root) =~= Set::<Page>::empty());
}

} // verus!
