//! The hardware that the paging code runs on, as a contract.
//!
//! Physical memory is a map from frame numbers to frames of 512 words. Code
//! reaches it only through virtual addresses, which the memory-management
//! unit translates by walking four levels of tables from the frame in the
//! table-base register. The translation cache may keep any translation that
//! was valid at some time: a page is *stale* from the moment a store changes
//! its valid translation until it is flushed, and a stale page must not be
//! used.
//!
//! Three things that the hardware does are left out. It sets the accessed
//! and the dirty flag in the entries that it uses; here memory changes by
//! stores only. It keeps the translations of pages that are marked global
//! when the table base changes; here every translation is dropped then. And
//! it checks the flags of the entries on the way: a store to a page that is
//! not writable, or a load in user mode from a page that is not open to it,
//! faults; here a page that is mapped can be loaded from and stored to,
//! whatever its flags. The library maps every table, and every page that it
//! stores to, as writable.

use vstd::prelude::*;
use crate::entry::{frame_number, is_link, is_present};
use crate::page::{canonical, Page};

verus! {

/// Physical memory: the words of each frame that exists, by frame number.
pub type Memory = Map<u64, Seq<u64>>;

/// `frame` exists in `memory`.
pub open spec fn backed(memory: Memory, frame: u64) -> bool {
    memory.contains_key(frame) && memory[frame].len() == 512
}

/// The table of the next level that slot `index` of `table` refers to.
pub open spec fn child(memory: Memory, table: u64, index: int) -> Option<u64> {
    if backed(memory, table) && 0 <= index < 512 && is_link(memory[table][index]) {
        Some(frame_number(memory[table][index]))
    } else {
        None
    }
}

/// The entry in slot `index` of `table`, where it is present.
pub open spec fn leaf(memory: Memory, table: u64, index: int) -> Option<u64> {
    if backed(memory, table) && 0 <= index < 512 && is_present(memory[table][index]) {
        Some(memory[table][index])
    } else {
        None
    }
}

/// The level-3 table that a walk from `root` reaches for `page`.
pub open spec fn table3(memory: Memory, root: u64, page: Page) -> Option<u64> {
    child(memory, root, page.p4())
}

/// The level-2 table that a walk from `root` reaches for `page`.
pub open spec fn table2(memory: Memory, root: u64, page: Page) -> Option<u64> {
    match table3(memory, root, page) {
        Some(table) => child(memory, table, page.p3()),
        None => None,
    }
}

/// The level-1 table that a walk from `root` reaches for `page`.
pub open spec fn table1(memory: Memory, root: u64, page: Page) -> Option<u64> {
    match table2(memory, root, page) {
        Some(table) => child(memory, table, page.p2()),
        None => None,
    }
}

/// The level-1 entry that maps `page` in the address space rooted at `root`:
/// the result of a four-level walk. A walk ends without a result at the
/// first absent entry, and also at a huge-page entry of level 3 or 2: huge
/// pages are not translated.
pub open spec fn walk(memory: Memory, root: u64, page: Page) -> Option<u64> {
    match table1(memory, root, page) {
        Some(table) => leaf(memory, table, page.p1()),
        None => None,
    }
}

/// A frame of zeroes.
pub open spec fn zeroed() -> Seq<u64> {
    Seq::new(512, |i: int| 0u64)
}

/// `memory` with word `index` of `frame` replaced by `value`.
pub open spec fn patched(memory: Memory, frame: u64, index: int, value: u64) -> Memory {
    memory.insert(frame, memory[frame].update(index, value))
}

/// Whether a walk from `root` for `page` reads a slot of `table`.
pub open spec fn walk_reads(memory: Memory, root: u64, page: Page, table: u64) -> bool {
    ||| table == root
    ||| table3(memory, root, page) == Some(table)
    ||| table2(memory, root, page) == Some(table)
    ||| table1(memory, root, page) == Some(table)
}

/// A walk finds in `after` what it finds in `before` where the two agree on
/// every table that it reads in `before`.
pub proof fn lemma_walk_agrees(before: Memory, after: Memory, root: u64, page: Page)
    requires
        forall|table: u64| #[trigger]
            walk_reads(before, root, page, table) ==> (after.contains_key(table)
                <==> before.contains_key(table)) && after[table] == before[table],
    ensures
        table3(after, root, page) == table3(before, root, page),
        table2(after, root, page) == table2(before, root, page),
        table1(after, root, page) == table1(before, root, page),
        walk(after, root, page) == walk(before, root, page),
{
    assert(walk_reads(before, root, page, root));
    match table3(before, root, page) {
        Some(a) => {
            assert(walk_reads(before, root, page, a));
            match table2(before, root, page) {
                Some(b) => {
                    assert(walk_reads(before, root, page, b));
                    match table1(before, root, page) {
                        Some(c) => {
                            assert(walk_reads(before, root, page, c));
                        },
                        None => {},
                    }
                },
                None => {},
            }
        },
        None => {},
    }
}

/// A store to a slot that held no present entry changes no valid
/// translation.
pub proof fn lemma_absent_slot_unread(
    memory: Memory,
    root: u64,
    frame: u64,
    index: int,
    value: u64,
    page: Page,
)
    requires
        backed(memory, frame),
        0 <= index < 512,
        !is_present(memory[frame][index]),
        walk(memory, root, page) is Some,
    ensures
        walk(patched(memory, frame, index, value), root, page) == walk(memory, root, page),
        table1(patched(memory, frame, index, value), root, page) == table1(memory, root, page),
        table2(patched(memory, frame, index, value), root, page) == table2(memory, root, page),
        table3(patched(memory, frame, index, value), root, page) == table3(memory, root, page),
{
}

/// The pages whose valid translation in `before` is not their translation in
/// `after`. Only valid pages count: no other page is ever used.
pub open spec fn changed(before: Memory, after: Memory, root: u64) -> Set<Page> {
    Set::new(
        |page: Page|
            page.valid() && walk(before, root, page) is Some && walk(after, root, page) != walk(
                before,
                root,
                page,
            ),
    )
}

/// What the paging code can observe of the machine.
pub struct State {
    /// Physical memory.
    pub memory: Memory,
    /// Number of the frame in the table-base register.
    pub base: u64,
    /// Pages of which the translation cache may hold an outdated translation.
    pub stale: Set<Page>,
}

impl State {
    /// The word of its frame that `address` names.
    pub open spec fn offset(address: u64) -> int {
        (address % 4096) as int / 8
    }

    /// The frame that `address` is translated to.
    pub open spec fn frame_at(self, address: u64) -> u64 {
        frame_number(walk(self.memory, self.base, Page::containing(address)).unwrap())
    }

    /// A load or store of the word at `address` is defined: the address is
    /// canonical and aligned, its page is mapped to a frame that exists, and
    /// the page is not stale.
    pub open spec fn accessible(self, address: u64) -> bool {
        &&& canonical(address)
        &&& address % 8 == 0
        &&& walk(self.memory, self.base, Page::containing(address)) is Some
        &&& backed(self.memory, self.frame_at(address))
        &&& !self.stale.contains(Page::containing(address))
    }

    /// The word at `address`.
    pub open spec fn word(self, address: u64) -> u64 {
        self.memory[self.frame_at(address)][State::offset(address)]
    }

    /// Memory after a store of `value` at `address`.
    pub open spec fn memory_after(self, address: u64, value: u64) -> Memory {
        patched(self.memory, self.frame_at(address), State::offset(address), value)
    }

    /// The state after a store of `value` at `address`: the word is replaced,
    /// and every page whose valid translation the store changed is stale.
    pub open spec fn stored(self, address: u64, value: u64) -> State {
        State {
            memory: self.memory_after(address, value),
            base: self.base,
            stale: self.stale.union(
                changed(self.memory, self.memory_after(address, value), self.base),
            ),
        }
    }
}

/// The architecture's primitives: memory through address translation, the
/// table-base register, and the translation cache.
///
/// What is proved of the library holds of a machine whose operations keep
/// these contracts for the state that `view` gives it. An implementation
/// outside of verified code has no `view` to give: it leaves the one below,
/// and its author answers for the contracts.
pub trait Machine: Sized {
    /// The machine's state.
    open spec fn view(&self) -> State {
        State { memory: Map::empty(), base: 0, stale: Set::empty() }
    }

    /// Reads the word at the virtual address `address`.
    fn load(&self, address: u64) -> (value: u64)
        requires
            self@.accessible(address),
        ensures
            value == self@.word(address),
    ;

    /// Writes `value` to the word at the virtual address `address`.
    fn store(&mut self, address: u64, value: u64)
        requires
            old(self)@.accessible(address),
        ensures
            final(self)@ == old(self)@.stored(address, value),
    ;

    /// Reads the table-base register: a physical address in the frame of the
    /// active level-4 table.
    fn table_base(&self) -> (address: u64)
        ensures
            address / 4096 == self@.base,
    ;

    /// Writes the physical address `address` to the table-base register. The
    /// hardware drops every cached translation with it, but for those of
    /// pages that are marked global, which this model leaves out.
    fn set_table_base(&mut self, address: u64)
        requires
            address % 4096 == 0,
            address < 0x10_0000_0000_0000,
        ensures
            final(self)@ == (State {
                memory: old(self)@.memory,
                base: address / 4096,
                stale: Set::empty(),
            }),
    ;

    /// Drops the cached translation of the page that holds `address`.
    fn flush(&mut self, address: u64)
        requires
            canonical(address),
        ensures
            final(self)@ == (State {
                memory: old(self)@.memory,
                base: old(self)@.base,
                stale: old(self)@.stale.remove(Page::containing(address)),
            }),
    ;

    /// Drops every cached translation.
    fn flush_all(&mut self)
        ensures
            final(self)@ == (State {
                memory: old(self)@.memory,
                base: old(self)@.base,
                stale: Set::empty(),
            }),
    ;
}

} // verus!
