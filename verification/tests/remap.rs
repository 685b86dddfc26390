use paging::allocator::FrameAllocator;
use paging::entry::{NO_EXECUTE, PRESENT, WRITABLE};
use paging::machine::Machine;
use paging::remap::{test_paging, test_paging_with, TEMPORARY_PAGE, TEST_ADDRESS, VGA_BUFFER};
use paging::sim::SimMachine;
use paging::temporary_page::TemporaryPage;
use paging::{
    map_frames, map_kernel, remap_into, remap_the_kernel, ActivePageTable, BootInfo, EntryFlags,
    Frame, Mapper, OutOfFrames, Page, Section,
};

struct Range {
    next: u64,
    end: u64,
    returned: Vec<Frame>,
}

impl FrameAllocator for Range {
    fn allocate_frame(&mut self) -> Option<Frame> {
        if self.next < self.end {
            self.next += 1;
            Some(Frame { number: self.next - 1 })
        } else {
            None
        }
    }

    fn deallocate_frame(&mut self, frame: Frame) {
        self.returned.push(frame);
    }
}

fn range(next: u64, end: u64) -> Range {
    Range { next, end, returned: Vec::new() }
}

fn entry_of(table: &ActivePageTable<SimMachine>, page: u64) -> Option<u64> {
    let machine = &table.mapper.machine;
    let mut frame = (machine.table_base() / 4096) as usize;
    for shift in [27, 18, 9] {
        let bits = machine.frames[frame][((page >> shift) & 511) as usize];
        if bits & PRESENT == 0 {
            return None;
        }
        frame = ((bits & 0x000f_ffff_ffff_f000) >> 12) as usize;
    }
    let bits = machine.frames[frame][(page & 511) as usize];
    if bits & PRESENT == 0 {
        None
    } else {
        Some(bits)
    }
}

#[test]
fn remap_maps_the_kernel_and_guards_the_old_table() {
    let machine = SimMachine::new(64, Frame { number: 2 });
    let mut allocator = range(16, 64);
    let boot_info = BootInfo {
        start: 0x2000,
        end: 0x3000,
        sections: vec![Section { addr: 0x5000, size: 0x1000, flags: 0x3 }],
    };
    let (table, result) = remap_the_kernel(machine, &mut allocator, &boot_info);
    assert_eq!(result, Ok(()));
    // The new level-4 table is the first frame that was left after the
    // temporary page took its three.
    assert_eq!(table.mapper.machine.table_base(), 19 * 4096);
    // The section: mapped to itself, writable, not executable.
    assert_eq!(table.mapper.translate(0x5000), Some(0x5000));
    assert_eq!(table.mapper.translate(0x5fff), Some(0x5fff));
    assert_eq!(entry_of(&table, 5), Some(0x5000 | PRESENT | WRITABLE | NO_EXECUTE));
    // The VGA text buffer: mapped to itself, writable.
    assert_eq!(table.mapper.translate(VGA_BUFFER), Some(VGA_BUFFER));
    assert_eq!(entry_of(&table, 0xb8), Some(0xb8000 | PRESENT | WRITABLE));
    // The page of the old level-4 table is a guard page.
    assert_eq!(table.mapper.translate(0x2000), None);
    assert_eq!(table.mapper.translate_page(Page { number: 2 }), None);
    assert_eq!(allocator.returned, vec![Frame { number: 2 }]);
    // Nothing else is mapped: not the temporary page, not a neighbour.
    assert_eq!(table.mapper.translate_page(Page { number: TEMPORARY_PAGE }), None);
    assert_eq!(table.mapper.translate(0x4000), None);
    assert_eq!(table.mapper.translate(0x6000), None);
    // The new table refers to itself in its last slot.
    assert_eq!(table.mapper.machine.frames[19][511], (19 << 12) | PRESENT | WRITABLE);
    assert_eq!(table.mapper.translate(0xffff_ffff_ffff_f000), Some(19 * 4096));
    // The old table refers to itself again.
    assert_eq!(table.mapper.machine.frames[2][511], (2 << 12) | PRESENT | WRITABLE);
}

#[test]
fn remap_maps_every_frame_of_a_section_and_of_the_report() {
    let machine = SimMachine::new(128, Frame { number: 1 });
    let mut allocator = range(64, 128);
    let boot_info = BootInfo {
        start: 0x9010,
        end: 0xb008,
        sections: vec![
            Section { addr: 0x1000, size: 0x2001, flags: 0x6 },
            Section { addr: 0x7000, size: 0x800, flags: 0x1 },
            Section { addr: 0x20_0000, size: 0x1000, flags: 0x2 },
        ],
    };
    let (table, result) = remap_the_kernel(machine, &mut allocator, &boot_info);
    assert_eq!(result, Ok(()));
    // Allocated and executable: frames 1 to 3, of which 1 held the old table.
    assert_eq!(entry_of(&table, 1), None);
    assert_eq!(entry_of(&table, 2), Some(0x2000 | PRESENT));
    assert_eq!(entry_of(&table, 3), Some(0x3000 | PRESENT));
    assert_eq!(entry_of(&table, 4), None);
    // Not allocated: left out.
    assert_eq!(entry_of(&table, 7), None);
    // Allocated only: present and not executable, in a level-1 table of its own.
    assert_eq!(entry_of(&table, 0x200), Some(0x20_0000 | PRESENT | NO_EXECUTE));
    // The report spans frames 9 to 11.
    assert_eq!(entry_of(&table, 8), None);
    assert_eq!(entry_of(&table, 9), Some(0x9000 | PRESENT));
    assert_eq!(entry_of(&table, 10), Some(0xa000 | PRESENT));
    assert_eq!(entry_of(&table, 11), Some(0xb000 | PRESENT));
    assert_eq!(entry_of(&table, 12), None);
    assert_eq!(entry_of(&table, 0xb8), Some(0xb8000 | PRESENT | WRITABLE));
}

#[test]
fn remap_without_frames_fails() {
    let boot_info = BootInfo {
        start: 0x2000,
        end: 0x3000,
        sections: vec![Section { addr: 0x5000, size: 0x1000, flags: 0x3 }],
    };
    for frames in 0..7 {
        let machine = SimMachine::new(64, Frame { number: 2 });
        let mut allocator = range(16, 16 + frames);
        let (table, result) = remap_the_kernel(machine, &mut allocator, &boot_info);
        assert_eq!(result, Err(OutOfFrames), "with {} frames", frames);
        // The old table is still the active one, and maps nothing.
        assert_eq!(table.mapper.machine.table_base(), 2 * 4096);
        assert_eq!(table.translate(0xffff_ffff_ffff_f000), Some(2 * 4096));
        assert_eq!(table.translate(0x5000), None);
        assert_eq!(table.translate(VGA_BUFFER), None);
        assert_eq!(table.translate_page(Page { number: TEMPORARY_PAGE }), None);
    }
    // Three for the temporary page, one for the new table, three for the
    // tables below it.
    let machine = SimMachine::new(64, Frame { number: 2 });
    let mut allocator = range(16, 16 + 7);
    assert_eq!(remap_the_kernel(machine, &mut allocator, &boot_info).1, Ok(()));
}

#[test]
fn map_frames_maps_a_range() {
    let mut mapper = Mapper::new(SimMachine::new(32, Frame { number: 0 }));
    let mut allocator = range(1, 32);
    let flags = EntryFlags::from_bits_truncate(WRITABLE);
    let range = (Frame { number: 510 }, Frame { number: 513 });
    assert!(map_frames(&mut mapper, &mut allocator, range.0, range.1, flags).is_ok());
    for number in 510..=513 {
        assert_eq!(mapper.translate_page(Page { number }), Some(Frame { number }));
    }
    assert_eq!(mapper.translate_page(Page { number: 509 }), None);
    assert_eq!(mapper.translate_page(Page { number: 514 }), None);
    // Two level-1 tables were needed, under one level-2 and one level-3 table.
    assert_eq!(allocator.next, 5);
    // An empty range maps nothing.
    let empty = (Frame { number: 9 }, Frame { number: 8 });
    assert!(map_frames(&mut mapper, &mut allocator, empty.0, empty.1, flags).is_ok());
    assert_eq!(mapper.translate_page(Page { number: 8 }), None);
    assert_eq!(mapper.translate_page(Page { number: 9 }), None);
}

#[test]
fn map_kernel_stops_when_frames_run_out() {
    let mut mapper = Mapper::new(SimMachine::new(32, Frame { number: 0 }));
    let mut allocator = range(1, 4);
    let boot_info = BootInfo {
        start: 0x40_0000,
        end: 0x40_1000,
        sections: vec![Section { addr: 0x5000, size: 0x1000, flags: 0x2 }],
    };
    // The section and the VGA buffer share their tables; the report needs a
    // level-1 table of its own.
    assert_eq!(map_kernel(&mut mapper, &mut allocator, &boot_info), Err(OutOfFrames));
    assert_eq!(mapper.translate(0x5000), Some(0x5000));
    assert_eq!(mapper.translate(VGA_BUFFER), Some(VGA_BUFFER));
    assert_eq!(mapper.translate(0x40_0000), None);
}

#[test]
fn test_paging_reports_what_it_saw() {
    let mut table = ActivePageTable::new(SimMachine::new(64, Frame { number: 1 }));
    let mut allocator = range(2, 7);
    let report = test_paging(&mut table, &mut allocator).expect("no more frames");
    assert_eq!(report.before, None);
    assert_eq!(report.frame, Frame { number: 2 });
    assert_eq!(report.mapped, Some(2 * 4096));
    assert_eq!(report.next_free, Some(Frame { number: 6 }));
    assert_eq!(report.after, None);
    assert_eq!(table.mapper.translate(TEST_ADDRESS), None);
    assert_eq!(allocator.returned, vec![Frame { number: 2 }]);
    let mut none = range(0, 0);
    assert_eq!(test_paging(&mut table, &mut none).err(), Some(OutOfFrames));
}

#[test]
fn test_paging_with_needs_no_table_where_it_exists() {
    let mut table = ActivePageTable::new(SimMachine::new(64, Frame { number: 1 }));
    let mut allocator = range(2, 5);
    // A neighbour of the test address brings the tables.
    let neighbour = Page { number: TEST_ADDRESS / 4096 + 1 };
    let none = EntryFlags::empty();
    assert!(table.mapper.map_to(neighbour, Frame { number: 40 }, none, &mut allocator).is_ok());
    assert_eq!(allocator.next, 5);
    // No frame is left, and none is needed.
    let report = test_paging_with(&mut table, &mut allocator, Frame { number: 41 }).unwrap();
    assert_eq!(report.before, None);
    assert_eq!(report.frame, Frame { number: 41 });
    assert_eq!(report.mapped, Some(41 * 4096));
    assert_eq!(report.next_free, None);
    assert_eq!(report.after, None);
    assert_eq!(allocator.returned, vec![Frame { number: 41 }]);
    assert_eq!(table.translate_page(neighbour), Some(Frame { number: 40 }));
}

#[test]
fn test_paging_with_fails_where_a_table_is_missing_and_none_is_handed_out() {
    let mut table = ActivePageTable::new(SimMachine::new(64, Frame { number: 1 }));
    let mut allocator = range(2, 4);
    assert_eq!(
        test_paging_with(&mut table, &mut allocator, Frame { number: 41 }),
        Err(OutOfFrames)
    );
    assert_eq!(table.translate(TEST_ADDRESS), None);
    assert!(allocator.returned.is_empty());
}

#[test]
fn map_kernel_needs_no_frame_where_the_tables_exist() {
    let mut mapper = Mapper::new(SimMachine::new(32, Frame { number: 0 }));
    let mut allocator = range(1, 4);
    // A page of the first level-1 table brings the tables for all of them.
    let first = Page { number: 0x1ff };
    let none = EntryFlags::empty();
    assert!(mapper.map_to(first, Frame { number: 20 }, none, &mut allocator).is_ok());
    assert_eq!(allocator.next, 4);
    let boot_info = BootInfo {
        start: 0x2000,
        end: 0x3000,
        sections: vec![Section { addr: 0x5000, size: 0x1000, flags: 0x3 }],
    };
    assert_eq!(map_kernel(&mut mapper, &mut allocator, &boot_info), Ok(()));
    assert_eq!(mapper.translate(0x5000), Some(0x5000));
    assert_eq!(mapper.translate(VGA_BUFFER), Some(VGA_BUFFER));
    assert_eq!(mapper.translate(0x2000), Some(0x2000));
    assert_eq!(mapper.translate_page(first), Some(Frame { number: 20 }));
}

#[test]
fn map_kernel_stops_before_the_frame_that_finds_no_table() {
    let mut mapper = Mapper::new(SimMachine::new(32, Frame { number: 0 }));
    let mut allocator = range(1, 4);
    // The second frame of the section lies in another level-1 table.
    let boot_info = BootInfo {
        start: 0x2000,
        end: 0x3000,
        sections: vec![Section { addr: 0x1f_f000, size: 0x2000, flags: 0x2 }],
    };
    assert_eq!(map_kernel(&mut mapper, &mut allocator, &boot_info), Err(OutOfFrames));
    assert_eq!(mapper.translate(0x1f_f000), Some(0x1f_f000));
    assert_eq!(mapper.translate(0x20_0000), None);
    assert_eq!(mapper.translate(VGA_BUFFER), None);
    assert_eq!(mapper.translate(0x2000), None);
}

#[test]
fn test_paging_with_four_frames_finds_none_left() {
    let mut table = ActivePageTable::new(SimMachine::new(64, Frame { number: 1 }));
    let mut allocator = range(2, 6);
    let report = test_paging(&mut table, &mut allocator).expect("no more frames");
    assert_eq!(report.frame, Frame { number: 2 });
    assert_eq!(report.mapped, Some(2 * 4096));
    assert_eq!(report.next_free, None);
    assert_eq!(table.mapper.machine.table_base(), 4096);
    // Three frames are too few.
    let mut table = ActivePageTable::new(SimMachine::new(64, Frame { number: 1 }));
    let mut allocator = range(2, 5);
    assert_eq!(test_paging(&mut table, &mut allocator), Err(OutOfFrames));
}

#[test]
fn remap_into_builds_the_table_in_the_frame() {
    let mut active = ActivePageTable::new(SimMachine::new(64, Frame { number: 2 }));
    let mut allocator = range(16, 22);
    let mut temporary = TemporaryPage::new(Page { number: TEMPORARY_PAGE }, &mut allocator);
    let boot_info = BootInfo {
        start: 0x2000,
        end: 0x3000,
        sections: vec![Section { addr: 0x5000, size: 0x1000, flags: 0x3 }],
    };
    // Three frames are left, for the three tables that the kernel needs.
    let frame = Frame { number: 40 };
    let result = remap_into(&mut active, &mut temporary, frame, &mut allocator, &boot_info);
    assert_eq!(result, Ok(()));
    assert_eq!(allocator.next, 22);
    assert_eq!(active.mapper.machine.table_base(), 40 * 4096);
    assert_eq!(active.translate(0x5000), Some(0x5000));
    assert_eq!(active.translate(0x2000), None);
    assert_eq!(allocator.returned, vec![Frame { number: 2 }]);
    // With one frame less the old table stays.
    let mut active = ActivePageTable::new(SimMachine::new(64, Frame { number: 2 }));
    let mut allocator = range(16, 21);
    let mut temporary = TemporaryPage::new(Page { number: TEMPORARY_PAGE }, &mut allocator);
    let result = remap_into(&mut active, &mut temporary, frame, &mut allocator, &boot_info);
    assert_eq!(result, Err(OutOfFrames));
    assert_eq!(active.mapper.machine.table_base(), 2 * 4096);
    assert_eq!(active.translate(0x5000), None);
}
