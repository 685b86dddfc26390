use paging::active::ActivePageTable;
use paging::allocator::FrameAllocator;
use paging::entry::{NO_EXECUTE, PRESENT, WRITABLE};
use paging::machine::Machine;
use paging::mapper::Mapper;
use paging::sim::SimMachine;
use paging::{EntryFlags, Frame, Page};

/// Hands out the frames from `next` up to, not including, `end`, and keeps
/// what it gets back.
struct Pool {
    next: u64,
    end: u64,
    returned: Vec<Frame>,
}

impl FrameAllocator for Pool {
    fn allocate_frame(&mut self) -> Option<Frame> {
        if self.next < self.end {
            self.next += 1;
            Some(Frame { number: self.next - 1 })
        } else {
            None
        }
    }

    fn deallocate_frame(&mut self, frame: Frame) {
        self.returned.push(frame);
    }
}

fn pool(next: u64, end: u64) -> Pool {
    Pool { next, end, returned: Vec::new() }
}

#[test]
fn map_translate_unmap() {
    let mut table = ActivePageTable::new(SimMachine::new(64, Frame { number: 1 }));
    let mut allocator = pool(2, 6);
    let addr: u64 = 42 * 512 * 512 * 4096;
    let page = Page::containing_address(addr);
    let frame = allocator.allocate_frame().expect("no more frames");
    assert_eq!(frame, Frame { number: 2 });
    assert_eq!(table.mapper.translate(addr), None);
    assert!(table.mapper.map_to(page, frame, EntryFlags::empty(), &mut allocator).is_ok());
    assert_eq!(table.mapper.translate(addr), Some(2 * 4096));
    assert_eq!(table.mapper.translate(addr + 0x123), Some(2 * 4096 + 0x123));
    assert_eq!(table.mapper.translate_page(page), Some(frame));
    assert_eq!(allocator.allocate_frame(), None);
    table.mapper.unmap(Page::containing_address(addr), &mut allocator);
    assert_eq!(table.mapper.translate(addr), None);
    assert_eq!(allocator.returned, vec![frame]);
}

#[test]
fn map_to_makes_the_tables_it_needs() {
    let mut mapper = Mapper::new(SimMachine::new(16, Frame { number: 0 }));
    let mut allocator = pool(1, 16);
    let page = Page { number: 0o001_002_003_004 };
    assert!(mapper
        .map_to(page, Frame { number: 9 }, EntryFlags::from_bits_truncate(WRITABLE), &mut allocator)
        .is_ok());
    // Three tables: frames 1, 2 and 3.
    assert_eq!(allocator.next, 4);
    let memory = &mapper.machine.frames;
    assert_eq!(memory[0][0o001], (1 << 12) | PRESENT | WRITABLE);
    assert_eq!(memory[1][0o002], (2 << 12) | PRESENT | WRITABLE);
    assert_eq!(memory[2][0o003], (3 << 12) | PRESENT | WRITABLE);
    assert_eq!(memory[3][0o004], (9 << 12) | PRESENT | WRITABLE);
    assert_eq!(memory[0][511], PRESENT | WRITABLE);
    // A neighbour in the same level-1 table needs none.
    let neighbour = Page { number: 0o001_002_003_005 };
    assert!(mapper
        .map_to(
            neighbour,
            Frame { number: 10 },
            EntryFlags::from_bits_truncate(NO_EXECUTE),
            &mut allocator
        )
        .is_ok());
    assert_eq!(allocator.next, 4);
    assert_eq!(mapper.machine.frames[3][0o005], (10 << 12) | PRESENT | NO_EXECUTE);
    assert_eq!(mapper.translate_page(page), Some(Frame { number: 9 }));
    assert_eq!(mapper.translate_page(neighbour), Some(Frame { number: 10 }));
    assert_eq!(mapper.translate_page(Page { number: 0o001_002_003_006 }), None);
}

#[test]
fn map_to_without_frames_maps_nothing() {
    let mut mapper = Mapper::new(SimMachine::new(16, Frame { number: 0 }));
    let mut allocator = pool(1, 3);
    let page = Page { number: 0o001_002_003_004 };
    assert!(mapper.map_to(page, Frame { number: 9 }, EntryFlags::empty(), &mut allocator).is_err());
    assert_eq!(mapper.translate_page(page), None);
}

#[test]
fn machine_translates_as_the_mapper_does() {
    let mut mapper = Mapper::new(SimMachine::new(16, Frame { number: 0 }));
    let mut allocator = pool(1, 16);
    let page = Page { number: 7 };
    assert!(mapper.map_to(page, Frame { number: 12 }, EntryFlags::empty(), &mut allocator).is_ok());
    assert_eq!(mapper.machine.translate(page), Some(Frame { number: 12 }));
    mapper.machine.store(7 * 4096 + 16, 0xdead_beef);
    assert_eq!(mapper.machine.frames[12][2], 0xdead_beef);
    assert_eq!(mapper.machine.load(7 * 4096 + 16), 0xdead_beef);
    assert_eq!(mapper.machine.table_base(), 0);
}

#[test]
fn mapped_page_cannot_be_mapped_again() {
    let mut table = ActivePageTable::new(SimMachine::new(16, Frame { number: 0 }));
    let mut allocator = pool(1, 16);
    let page = Page { number: 77 };
    let frame = Frame { number: 9 };
    // `map_to` asks that the page translates to nothing.
    assert_eq!(table.translate_page(page), None);
    assert!(table.mapper.map_to(page, frame, EntryFlags::empty(), &mut allocator).is_ok());
    // Now it does not: neither the same frame nor another can be mapped there.
    assert_eq!(table.translate_page(page), Some(frame));
    table.mapper.unmap(page, &mut allocator);
    assert_eq!(table.translate_page(page), None);
    assert!(table.mapper.map_to(page, frame, EntryFlags::empty(), &mut allocator).is_ok());
    assert_eq!(table.translate_page(page), Some(frame));
}

#[test]
fn identity_map_translates_an_address_to_itself() {
    let mut mapper = Mapper::new(SimMachine::new(16, Frame { number: 0 }));
    let mut allocator = pool(1, 16);
    let frame = Frame::containing_address(0xb8000);
    let flags = EntryFlags::from_bits_truncate(WRITABLE);
    assert!(mapper.identity_map(frame, flags, &mut allocator).is_ok());
    assert_eq!(mapper.translate(frame.start_address()), Some(frame.start_address()));
    assert_eq!(mapper.translate(0xb8fff), Some(0xb8fff));
    assert_eq!(mapper.translate(0xb7fff), None);
    assert_eq!(mapper.translate(0xb9000), None);
}

#[test]
fn map_takes_its_frame_from_the_allocator() {
    let mut mapper = Mapper::new(SimMachine::new(16, Frame { number: 0 }));
    let mut allocator = pool(1, 16);
    let page = Page { number: 5 };
    assert!(mapper.map(page, EntryFlags::from_bits_truncate(WRITABLE), &mut allocator).is_ok());
    // The first frame is mapped; the tables took the next three.
    assert_eq!(mapper.translate_page(page), Some(Frame { number: 1 }));
    assert_eq!(allocator.next, 5);
    assert_eq!(mapper.machine.frames[4][5], (1 << 12) | PRESENT | WRITABLE);
    let mut none = pool(0, 0);
    assert!(mapper.map(Page { number: 6 }, EntryFlags::empty(), &mut none).is_err());
    assert_eq!(mapper.translate_page(Page { number: 6 }), None);
}

#[test]
fn unmap_flushes_and_frees() {
    let mut mapper = Mapper::new(SimMachine::new(16, Frame { number: 0 }));
    let mut allocator = pool(1, 16);
    let first = Page { number: 5 };
    let second = Page { number: 6 };
    let none = EntryFlags::empty();
    assert!(mapper.map_to(first, Frame { number: 10 }, none, &mut allocator).is_ok());
    assert!(mapper.map_to(second, Frame { number: 11 }, none, &mut allocator).is_ok());
    mapper.unmap(first, &mut allocator);
    assert_eq!(mapper.translate_page(first), None);
    assert_eq!(mapper.translate_page(second), Some(Frame { number: 11 }));
    assert_eq!(mapper.machine.frames[3][5], 0);
    assert_eq!(allocator.returned, vec![Frame { number: 10 }]);
}

#[test]
fn map_without_a_frame_changes_nothing() {
    let mut mapper = Mapper::new(SimMachine::new(16, Frame { number: 0 }));
    let mut allocator = pool(1, 5);
    assert!(mapper.map(Page { number: 5 }, EntryFlags::empty(), &mut allocator).is_ok());
    let memory = mapper.machine.frames.clone();
    // The tables for the neighbour exist, but no frame is left for it.
    assert!(mapper.map(Page { number: 6 }, EntryFlags::empty(), &mut allocator).is_err());
    assert_eq!(mapper.machine.frames, memory);
    assert_eq!(allocator.next, 5);
    // With one frame it is mapped, and no table is taken.
    let mut one = pool(9, 10);
    assert!(mapper.map(Page { number: 6 }, EntryFlags::empty(), &mut one).is_ok());
    assert_eq!(mapper.translate_page(Page { number: 6 }), Some(Frame { number: 9 }));
}
