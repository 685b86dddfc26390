//! A machine in software: physical memory in a vector, walked as the
//! memory-management unit walks it.

use vstd::prelude::*;
use crate::entry::{compose, frame_number, lemma_compose};
use crate::frame::Frame;
use crate::machine::{backed, changed, child, walk, Machine, Memory, State};
use crate::page::Page;
use crate::space::space_ok;
use crate::tree::{frames_of, lemma_layout_unique, node, slot_placed, tree_slot};

verus! {

/// Physical memory of `frames.len()` frames, numbered from zero, with a
/// table-base register. It keeps no translations, so no page of it is ever
/// outdated in fact; `stale` records what a cache could hold.
pub struct SimMachine {
    pub frames: Vec<Vec<u64>>,
    /// What the table-base register holds: a physical address.
    pub register: u64,
    pub stale: Ghost<Set<Page>>,
}

impl SimMachine {
    /// The memory that the vector stands for.
    pub open spec fn memory(&self) -> Memory {
        Map::new(
            |frame: u64| frame < self.frames.len() && self.frames[frame as int].len() == 512,
            |frame: u64| self.frames[frame as int]@,
        )
    }

    /// The table that slot `index` of `table` refers to, as the hardware
    /// reads it.
    fn next_table(&self, table: u64, index: usize) -> (next: Option<u64>)
        requires
            index < 512,
        ensures
            next == child(self.memory(), table, index as int),
    {
        if table < self.frames.len() as u64 && self.frames[table as usize].len() == 512 {
            let bits: u64 = self.frames[table as usize][index];
            if bits & 0x1 == 0x1 && bits & 0x80 != 0x80 {
                return Some((bits & 0x000f_ffff_ffff_f000) >> 12);
            }
        }
        None
    }

    /// The frame that the hardware translates `page` to.
    pub fn translate(&self, page: Page) -> (frame: Option<Frame>)
        ensures
            frame == match walk(self.memory(), self.register / 4096, page) {
                Some(bits) => Some(Frame { number: frame_number(bits) }),
                None => None,
            },
    {
        let p3 = match self.next_table(self.register / 4096, page.p4_index()) {
            Some(table) => table,
            None => { return None; },
        };
        let p2 = match self.next_table(p3, page.p3_index()) {
            Some(table) => table,
            None => { return None; },
        };
        let p1 = match self.next_table(p2, page.p2_index()) {
            Some(table) => table,
            None => { return None; },
        };
        if p1 < self.frames.len() as u64 && self.frames[p1 as usize].len() == 512 {
            let bits: u64 = self.frames[p1 as usize][page.p1_index()];
            if bits & 0x1 == 0x1 {
                return Some(Frame { number: (bits & 0x000f_ffff_ffff_f000) >> 12 });
            }
        }
        None
    }

    /// A machine with `count` frames of zeroes, but for frame `base`: it is in
    /// the table-base register, and its last slot refers to the frame itself,
    /// present and writable.
    pub fn new(count: usize, base: Frame) -> (machine: SimMachine)
        requires
            base.number < count,
            base.valid(),
        ensures
            machine@.base == base.number,
            machine@.stale == Set::<Page>::empty(),
            space_ok(machine@),
            frames_of(machine@.memory, base.number) == set![base.number],
            forall|frame: u64| backed(machine@.memory, frame) <==> frame < count,
            forall|frame: u64, index: int|
                frame < count && 0 <= index < 512 ==> #[trigger] machine@.memory[frame][index] == (
                if frame == base.number && index == 511 {
                    compose(base.number, 0x3)
                } else {
                    0
                }),
    {
        let mut frames: Vec<Vec<u64>> = Vec::new();
        let mut i: usize = 0;
        while i < count
            invariant
                i <= count,
                frames.len() == i,
                forall|f: int| 0 <= f < i ==> (#[trigger] frames[f]).len() == 512,
                forall|f: int, x: int| 0 <= f < i && 0 <= x < 512 ==> #[trigger] frames[f][x] == 0,
            decreases count - i,
        {
            let mut words: Vec<u64> = Vec::new();
            let mut j: usize = 0;
            while j < 512
                invariant
                    j <= 512,
                    words.len() == j,
                    forall|x: int| 0 <= x < j ==> #[trigger] words[x] == 0,
                decreases 512 - j,
            {
                words.push(0);
                j += 1;
            }
            frames.push(words);
            i += 1;
        }
        let ghost zeroed = frames@;
        let entry: u64 = (base.number << 12) | (0x3u64 & 0x8000_0000_0000_01ff);
        frames[base.number as usize][511] = entry;
        let machine = SimMachine {
            frames,
            register: base.number * 4096,
            stale: Ghost(Set::empty()),
        };
        proof {
            lemma_compose(base.number, 0x3);
            assert(0x3u64 & 0x1 == 0x1 && 0x3u64 & 0x80 != 0x80 && 0u64 & 0x1 != 0x1)
                by (bit_vector);
            let memory = machine@.memory;
            let layout = map![base.number => node(4, base.number, 511)];
            assert(memory[base.number][511] == compose(base.number, 0x3));
            assert forall|table: u64, index: int| #[trigger]
                slot_placed(memory, base.number, layout, table, index) by {
                if tree_slot(base.number, layout, table, index) && 0 <= index < 512 {
                    assert(memory[table][index] == 0);
                }
            }
            lemma_layout_unique(memory, base.number, layout);
            assert(layout.dom() =~= set![base.number]);
        }
        machine
    }
}

impl Machine for SimMachine {
    open spec fn view(&self) -> State {
        State { memory: self.memory(), base: self.register / 4096, stale: self.stale@ }
    }

    fn load(&self, address: u64) -> (value: u64) {
        let page = Page::containing_address(address);
        let frame = self.translate(page).unwrap();
        self.frames[frame.number as usize][((address % 4096) / 8) as usize]
    }

    fn store(&mut self, address: u64, value: u64) {
        let page = Page::containing_address(address);
        let frame = self.translate(page).unwrap();
        let ghost before = self@;
        self.frames[frame.number as usize][((address % 4096) / 8) as usize] = value;
        proof {
            let after = before.memory_after(address, value);
            assert(self.memory() =~= after);
            self.stale@ = before.stale.union(changed(before.memory, after, before.base));
        }
    }

    fn table_base(&self) -> (address: u64) {
        self.register
    }

    fn set_table_base(&mut self, address: u64) {
        self.register = address;
        proof {
            self.stale@ = Set::empty();
        }
    }

    fn flush(&mut self, address: u64) {
        proof {
            self.stale@ = self.stale@.remove(Page::containing(address));
        }
    }

    fn flush_all(&mut self) {
        proof {
            self.stale@ = Set::empty();
        }
    }
}

} // verus!
