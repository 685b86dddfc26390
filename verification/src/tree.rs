//! The shape of an address space in memory: which frames are its tables, and
//! where each of them hangs.
//!
//! The tables below a level-4 table form a tree, but for the last slot of the
//! root, which is kept for the recursive mapping and is no part of the tree.
//! A layout gives each table of the tree its level and the one slot that
//! refers to it; that such a layout exists says that no table is used twice.

use vstd::prelude::*;
use crate::machine::{backed, child, table1, table2, table3, Memory};
use crate::page::Page;

verus! {

/// The place of a table in its tree.
pub struct Node {
    /// 4 for the root, down to 1.
    pub level: int,
    /// The table whose slot refers to this one; the root for the root.
    pub parent: u64,
    /// The slot of the parent; 511 for the root.
    pub index: int,
}

/// The place at `level` under slot `index` of `parent`.
pub open spec fn node(level: int, parent: u64, index: int) -> Node {
    Node { level, parent, index }
}

/// The place of every table of one tree.
pub type Layout = Map<u64, Node>;

/// The place that `layout` gives `table`, if it gives it one, is its place
/// in `memory`.
pub open spec fn placed(memory: Memory, root: u64, layout: Layout, table: u64) -> bool {
    layout.contains_key(table) ==> {
        &&& backed(memory, table)
        &&& if table == root {
            layout[table] == Node { level: 4, parent: root, index: 511 }
        } else {
            &&& 1 <= layout[table].level < 4
            &&& 0 <= layout[table].index < 512
            &&& layout.contains_key(layout[table].parent)
            &&& layout[layout[table].parent].level == layout[table].level + 1
            &&& !(layout[table].parent == root && layout[table].index == 511)
            &&& child(memory, layout[table].parent, layout[table].index) == Some(table)
        }
    }
}

/// Slot `index` of `table` belongs to the tree: `table` is one of its tables
/// above level 1, and the slot is not the root's last.
pub open spec fn tree_slot(root: u64, layout: Layout, table: u64, index: int) -> bool {
    layout.contains_key(table) && layout[table].level > 1 && !(table == root && index == 511)
}

/// What slot `index` of `table` refers to has its place in `layout`.
pub open spec fn slot_placed(
    memory: Memory,
    root: u64,
    layout: Layout,
    table: u64,
    index: int,
) -> bool {
    tree_slot(root, layout, table, index) && child(memory, table, index) is Some ==> {
        let next = child(memory, table, index).unwrap();
        layout.contains_key(next) && layout[next] == Node {
            level: layout[table].level - 1,
            parent: table,
            index,
        }
    }
}

/// `layout` is the layout of the tree rooted at `root`.
pub open spec fn tree(memory: Memory, root: u64, layout: Layout) -> bool {
    &&& layout.contains_key(root)
    &&& forall|table: u64| #[trigger] placed(memory, root, layout, table)
    &&& forall|table: u64, index: int| #[trigger] slot_placed(memory, root, layout, table, index)
}

/// The tables below `root` form a tree.
pub open spec fn tree_ok(memory: Memory, root: u64) -> bool {
    exists|layout: Layout| tree(memory, root, layout)
}

/// The layout of the tree rooted at `root`.
pub open spec fn layout_of(memory: Memory, root: u64) -> Layout {
    choose|layout: Layout| tree(memory, root, layout)
}

/// The frames that hold the tables of the tree rooted at `root`.
pub open spec fn frames_of(memory: Memory, root: u64) -> Set<u64> {
    layout_of(memory, root).dom()
}

proof fn lemma_layout_into(memory: Memory, root: u64, one: Layout, other: Layout, table: u64)
    requires
        tree(memory, root, one),
        tree(memory, root, other),
        one.contains_key(table),
    ensures
        other.contains_key(table),
        other[table] == one[table],
    decreases 4 - one[table].level,
{
    assert(placed(memory, root, one, table));
    assert(placed(memory, root, other, root));
    if table != root {
        let node = one[table];
        lemma_layout_into(memory, root, one, other, node.parent);
        assert(slot_placed(memory, root, other, node.parent, node.index));
    }
}

/// A tree has one layout.
pub proof fn lemma_layout_unique(memory: Memory, root: u64, layout: Layout)
    requires
        tree(memory, root, layout),
    ensures
        tree_ok(memory, root),
        layout_of(memory, root) == layout,
        frames_of(memory, root) == layout.dom(),
{
    let other = layout_of(memory, root);
    assert(tree(memory, root, other));
    assert forall|table: u64| #[trigger] layout.contains_key(table) implies other.contains_key(
        table,
    ) && other[table] == layout[table] by {
        lemma_layout_into(memory, root, layout, other, table);
    }
    assert forall|table: u64| #[trigger] other.contains_key(table) implies layout.contains_key(
        table,
    ) by {
        lemma_layout_into(memory, root, other, layout, table);
    }
    assert(other.dom() =~= layout.dom());
    assert(other =~= layout);
}

/// A tree keeps its layout where its tables stay and its slots refer to what
/// they referred to.
pub proof fn lemma_tree_kept(before: Memory, after: Memory, root: u64, layout: Layout)
    requires
        tree(before, root, layout),
        forall|table: u64| #[trigger] layout.contains_key(table) ==> backed(after, table),
        forall|table: u64, index: int|
            #![trigger child(after, table, index)]
            tree_slot(root, layout, table, index) ==> child(after, table, index) == child(
                before,
                table,
                index,
            ),
    ensures
        tree(after, root, layout),
        tree_ok(after, root),
        layout_of(after, root) == layout,
{
    assert forall|table: u64| #[trigger] placed(after, root, layout, table) by {
        assert(placed(before, root, layout, table));
        if layout.contains_key(table) && table != root {
            let node = layout[table];
            assert(placed(before, root, layout, node.parent));
            assert(tree_slot(root, layout, node.parent, node.index));
            assert(child(after, node.parent, node.index) == child(
                before,
                node.parent,
                node.index,
            ));
        }
    }
    assert forall|table: u64, index: int| #[trigger]
        slot_placed(after, root, layout, table, index) by {
        if tree_slot(root, layout, table, index) {
            assert(child(after, table, index) == child(before, table, index));
            assert(slot_placed(before, root, layout, table, index));
        }
    }
    lemma_layout_unique(after, root, layout);
}

/// A tree keeps its layout where memory agrees on its tables.
pub proof fn lemma_tree_agrees(before: Memory, after: Memory, root: u64)
    requires
        tree_ok(before, root),
        forall|table: u64| #[trigger]
            frames_of(before, root).contains(table) ==> after.contains_key(table)
                && after[table] == before[table],
    ensures
        tree_ok(after, root),
        layout_of(after, root) == layout_of(before, root),
        frames_of(after, root) == frames_of(before, root),
{
    let layout = layout_of(before, root);
    assert(tree(before, root, layout));
    assert forall|table: u64| #[trigger] layout.contains_key(table) implies backed(
        after,
        table,
    ) by {
        assert(frames_of(before, root).contains(table));
        assert(placed(before, root, layout, table));
    }
    assert forall|table: u64, index: int|
        #![trigger child(after, table, index)]
        tree_slot(root, layout, table, index) implies child(after, table, index) == child(
        before,
        table,
        index,
    ) by {
        assert(frames_of(before, root).contains(table));
        assert(placed(before, root, layout, table));
    }
    lemma_tree_kept(before, after, root, layout);
}

/// The tables of a tree exist.
pub proof fn lemma_tables_backed(memory: Memory, root: u64)
    requires
        tree_ok(memory, root),
    ensures
        frames_of(memory, root).contains(root),
        forall|table: u64| #[trigger]
            frames_of(memory, root).contains(table) ==> backed(memory, table),
{
    let layout = layout_of(memory, root);
    assert(tree(memory, root, layout));
    assert forall|table: u64| #[trigger] frames_of(memory, root).contains(table) implies backed(
        memory,
        table,
    ) by {
        assert(placed(memory, root, layout, table));
    }
}

/// The way to a page's level-1 table is the same in two memories in which
/// the tree has the same layout.
pub proof fn lemma_cover_kept(before: Memory, after: Memory, root: u64, page: Page)
    requires
        tree_ok(before, root),
        tree_ok(after, root),
        layout_of(after, root) == layout_of(before, root),
        page.p4() != 511,
        table1(before, root, page) != None::<u64>,
    ensures
        table3(after, root, page) == table3(before, root, page),
        table2(after, root, page) == table2(before, root, page),
        table1(after, root, page) == table1(before, root, page),
{
    let layout = layout_of(before, root);
    assert(tree(before, root, layout));
    assert(tree(after, root, layout));
    lemma_descent(before, root, layout, page);
    let a = table3(before, root, page).unwrap();
    let b = table2(before, root, page).unwrap();
    let c = table1(before, root, page).unwrap();
    assert(placed(after, root, layout, a));
    assert(placed(after, root, layout, b));
    assert(placed(after, root, layout, c));
}

/// A tree grows by one table where an empty slot of it comes to refer to a
/// frame that was none of its tables, and that holds no reference itself.
pub proof fn lemma_tree_grown(
    before: Memory,
    after: Memory,
    root: u64,
    layout: Layout,
    table: u64,
    index: int,
    fresh: u64,
)
    requires
        tree(before, root, layout),
        tree_slot(root, layout, table, index),
        0 <= index < 512,
        child(before, table, index) == None::<u64>,
        !layout.contains_key(fresh),
        child(after, table, index) == Some(fresh),
        backed(after, fresh),
        forall|slot: int| #[trigger] child(after, fresh, slot) is None,
        forall|other: u64| #[trigger] layout.contains_key(other) ==> backed(after, other),
        forall|other: u64, slot: int|
            #![trigger child(after, other, slot)]
            tree_slot(root, layout, other, slot) && !(other == table && slot == index) ==> child(
                after,
                other,
                slot,
            ) == child(before, other, slot),
    ensures
        tree(after, root, layout.insert(fresh, node(layout[table].level - 1, table, index))),
        tree_ok(after, root),
        layout_of(after, root) == layout.insert(
            fresh,
            node(layout[table].level - 1, table, index),
        ),
{
    let grown = layout.insert(
        fresh,
        Node { level: layout[table].level - 1, parent: table, index },
    );
    assert(placed(before, root, layout, root));
    assert(placed(before, root, layout, table));
    assert forall|other: u64| #[trigger] placed(after, root, grown, other) by {
        if other == fresh {
        } else if grown.contains_key(other) {
            assert(placed(before, root, layout, other));
            if other != root {
                let node = layout[other];
                assert(placed(before, root, layout, node.parent));
                assert(tree_slot(root, layout, node.parent, node.index));
                assert(child(after, node.parent, node.index) == child(
                    before,
                    node.parent,
                    node.index,
                ));
            }
        }
    }
    assert forall|other: u64, slot: int| #[trigger]
        slot_placed(after, root, grown, other, slot) by {
        if tree_slot(root, grown, other, slot) && child(after, other, slot) is Some {
            if other == fresh {
                assert(child(after, fresh, slot) is None);
            } else if other == table && slot == index {
            } else {
                assert(tree_slot(root, layout, other, slot));
                assert(child(after, other, slot) == child(before, other, slot));
                assert(slot_placed(before, root, layout, other, slot));
            }
        }
    }
    lemma_layout_unique(after, root, grown);
}

/// The tables that a walk for a page outside the recursive slot passes
/// through, each with its place.
pub proof fn lemma_descent(memory: Memory, root: u64, layout: Layout, page: Page)
    requires
        tree(memory, root, layout),
        page.p4() != 511,
    ensures
        match table3(memory, root, page) {
            Some(a) => layout.contains_key(a) && layout[a] == node(3, root, page.p4()) && backed(
                memory,
                a,
            ),
            None => true,
        },
        match table2(memory, root, page) {
            Some(b) => layout.contains_key(b) && layout[b] == node(
                2,
                table3(memory, root, page).unwrap(),
                page.p3(),
            ) && backed(memory, b),
            None => true,
        },
        match table1(memory, root, page) {
            Some(c) => layout.contains_key(c) && layout[c] == node(
                1,
                table2(memory, root, page).unwrap(),
                page.p2(),
            ) && backed(memory, c),
            None => true,
        },
{
    assert(placed(memory, root, layout, root));
    match table3(memory, root, page) {
        Some(a) => {
            assert(slot_placed(memory, root, layout, root, page.p4()));
            assert(placed(memory, root, layout, a));
            match table2(memory, root, page) {
                Some(b) => {
                    assert(slot_placed(memory, root, layout, a, page.p3()));
                    assert(placed(memory, root, layout, b));
                    match table1(memory, root, page) {
                        Some(c) => {
                            assert(slot_placed(memory, root, layout, b, page.p2()));
                            assert(placed(memory, root, layout, c));
                        },
                        None => {},
                    }
                },
                None => {},
            }
        },
        None => {},
    }
}

/// One step down from a table of a tree whose root's last slot refers to the
/// root itself stays in the tree, and goes down at most one level.
pub proof fn lemma_step(memory: Memory, root: u64, layout: Layout, table: u64, index: int)
    requires
        tree(memory, root, layout),
        child(memory, root, 511) == Some(root),
        layout.contains_key(table),
        layout[table].level > 1,
        child(memory, table, index) != None::<u64>,
    ensures
        layout.contains_key(child(memory, table, index).unwrap()),
        backed(memory, child(memory, table, index).unwrap()),
        layout[child(memory, table, index).unwrap()].level >= layout[table].level - 1,
        table == root && index == 511 ==> child(memory, table, index).unwrap() == root,
        !(table == root && index == 511) ==> layout[child(memory, table, index).unwrap()] == node(
            layout[table].level - 1,
            table,
            index,
        ),
{
    let next = child(memory, table, index).unwrap();
    assert(placed(memory, root, layout, root));
    assert(placed(memory, root, layout, table));
    if !(table == root && index == 511) {
        assert(slot_placed(memory, root, layout, table, index));
    }
    assert(placed(memory, root, layout, next));
}

} // verus!
