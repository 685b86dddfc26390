use paging::allocator::FrameAllocator;
use paging::entry::{PRESENT, WRITABLE};
use paging::machine::Machine;
use paging::sim::SimMachine;
use paging::table::{Table, TableLevel, P4};
use paging::tiny_allocator::TinyAllocator;
use paging::{
    ActivePageTable, Entry, EntryFlags, Frame, InactivePageTable, Mapper, OutOfFrames, Page,
    TemporaryPage,
};

struct Range {
    next: u64,
    end: u64,
}

impl FrameAllocator for Range {
    fn allocate_frame(&mut self) -> Option<Frame> {
        if self.next < self.end {
            self.next += 1;
            Some(Frame { number: self.next - 1 })
        } else {
            None
        }
    }

    fn deallocate_frame(&mut self, _frame: Frame) {}
}

#[test]
fn tiny_allocator_holds_three_frames() {
    let mut source = Range { next: 10, end: 20 };
    let mut tiny = TinyAllocator::new(&mut source);
    assert_eq!(source.next, 13);
    assert_eq!(tiny.allocate_frame(), Some(Frame { number: 10 }));
    assert_eq!(tiny.allocate_frame(), Some(Frame { number: 11 }));
    tiny.deallocate_frame(Frame { number: 30 });
    assert_eq!(tiny.allocate_frame(), Some(Frame { number: 30 }));
    assert_eq!(tiny.allocate_frame(), Some(Frame { number: 12 }));
    assert_eq!(tiny.allocate_frame(), None);
    tiny.deallocate_frame(Frame { number: 1 });
    tiny.deallocate_frame(Frame { number: 2 });
    tiny.deallocate_frame(Frame { number: 3 });
    assert_eq!(tiny.allocate_frame(), Some(Frame { number: 1 }));
    assert_eq!(tiny.allocate_frame(), Some(Frame { number: 2 }));
    assert_eq!(tiny.allocate_frame(), Some(Frame { number: 3 }));
    assert_eq!(tiny.allocate_frame(), None);
}

#[test]
fn tiny_allocator_of_a_short_source() {
    let mut source = Range { next: 10, end: 11 };
    let mut tiny = TinyAllocator::new(&mut source);
    assert_eq!(tiny.allocate_frame(), Some(Frame { number: 10 }));
    assert_eq!(tiny.allocate_frame(), None);
}

#[test]
fn table_addresses_shift_up_one_level() {
    let mut mapper = Mapper::new(SimMachine::new(16, Frame { number: 0 }));
    let mut allocator = Range { next: 1, end: 16 };
    let page = Page { number: 0o001_002_003_004 };
    assert!(mapper.map_to(page, Frame { number: 9 }, EntryFlags::empty(), &mut allocator).is_ok());
    let p4 = mapper.p4();
    assert_eq!(p4, Table { address: P4, level: TableLevel::Level4 });
    assert_eq!(p4.next_table_address(&mapper.machine, 0o001), Some(0xffff_ffff_ffe0_1000));
    let p3 = p4.next_table(&mapper.machine, 0o001).unwrap();
    assert_eq!(p3, Table { address: 0xffff_ffff_ffe0_1000, level: TableLevel::Level3 });
    let p2 = p3.next_table(&mapper.machine, 0o002).unwrap();
    assert_eq!(p2, Table { address: 0xffff_ffff_c020_2000, level: TableLevel::Level2 });
    let p1 = p2.next_table(&mapper.machine, 0o003).unwrap();
    assert_eq!(p1, Table { address: 0xffff_ff80_4040_3000, level: TableLevel::Level1 });
    assert_eq!(mapper.p1_table(page), Some(p1));
    assert_eq!(p1.entry(&mapper.machine, 0o004), Entry { bits: (9 << 12) | PRESENT });
    assert_eq!(p4.next_table(&mapper.machine, 0o002), None);
    assert_eq!(p3.next_table(&mapper.machine, 0o003), None);
    assert_eq!(mapper.p1_table(Page { number: 0o001_002_004_004 }), None);
    // The recursive address shows the level-4 table itself.
    assert_eq!(p4.entry(&mapper.machine, 511), Entry { bits: PRESENT | WRITABLE });
    assert_eq!(p4.entry(&mapper.machine, 0o001), Entry { bits: (1 << 12) | PRESENT | WRITABLE });
}

#[test]
fn next_table_create_makes_a_cleared_table() {
    let mut machine = SimMachine::new(16, Frame { number: 0 });
    let mut allocator = Range { next: 5, end: 6 };
    for word in machine.frames[5].iter_mut() {
        *word = 0xffff_ffff_ffff_ffff;
    }
    let p4 = Table::p4();
    let made = p4.next_table_create(&mut machine, 7, &mut allocator);
    assert_eq!(made, Some(Table { address: 0xffff_ffff_ffe0_7000, level: TableLevel::Level3 }));
    assert_eq!(machine.frames[0][7], (5 << 12) | PRESENT | WRITABLE);
    assert!(machine.frames[5].iter().all(|word| *word == 0));
    // The table is there now: no frame is taken.
    assert_eq!(p4.next_table_create(&mut machine, 7, &mut allocator), made);
    // No frame is left for another.
    assert_eq!(p4.next_table_create(&mut machine, 8, &mut allocator), None);
    assert_eq!(machine.frames[0][8], 0);
}

#[test]
fn table_zero_and_set_entry() {
    let mut mapper = Mapper::new(SimMachine::new(16, Frame { number: 0 }));
    let mut allocator = Range { next: 1, end: 16 };
    let page = Page { number: 3 };
    assert!(mapper
        .map_to(page, Frame { number: 9 }, EntryFlags::from_bits_truncate(WRITABLE), &mut allocator)
        .is_ok());
    for word in mapper.machine.frames[9].iter_mut() {
        *word = 7;
    }
    let window = Table { address: 3 * 4096, level: TableLevel::Level1 };
    assert_eq!(window.entry(&mapper.machine, 5), Entry { bits: 7 });
    window.zero(&mut mapper.machine);
    assert!(mapper.machine.frames[9].iter().all(|word| *word == 0));
    window.set_entry(&mut mapper.machine, 511, Entry { bits: 0x1234 });
    assert_eq!(mapper.machine.frames[9][511], 0x1234);
    window.make_root(&mut mapper.machine, Frame { number: 9 });
    assert_eq!(mapper.machine.frames[9][511], (9 << 12) | PRESENT | WRITABLE);
    assert!(mapper.machine.frames[9][..511].iter().all(|word| *word == 0));
}

#[test]
fn temporary_page_maps_and_unmaps() {
    let mut source = Range { next: 1, end: 16 };
    let mut active = ActivePageTable::new(SimMachine::new(16, Frame { number: 0 }));
    let mut temporary = TemporaryPage::new(Page { number: 0xcafebabe }, &mut source);
    assert_eq!(source.next, 4);
    assert_eq!(temporary.map(Frame { number: 9 }, &mut active), Ok(0xcafebabe * 4096));
    assert_eq!(active.mapper.translate(0xcafebabe * 4096 + 8), Some(9 * 4096 + 8));
    assert_eq!(active.mapper.machine.frames[3][0xcafebabe & 511], (9 << 12) | PRESENT | WRITABLE);
    temporary.unmap(&mut active);
    assert_eq!(active.mapper.translate(0xcafebabe * 4096), None);
    // The frame that was mapped went to the frames that the page holds.
    assert_eq!(temporary.allocator.allocate_frame(), Some(Frame { number: 9 }));
    assert_eq!(temporary.allocator.allocate_frame(), None);
    // The tables stay: the page is mapped again without a frame.
    assert_eq!(
        temporary.map_table_frame(Frame { number: 10 }, &mut active),
        Ok(Table { address: 0xcafebabe * 4096, level: TableLevel::Level1 })
    );
    assert_eq!(active.translate_page(Page { number: 0xcafebabe }), Some(Frame { number: 10 }));
}

#[test]
fn temporary_page_without_frames() {
    let mut source = Range { next: 1, end: 3 };
    let mut active = ActivePageTable::new(SimMachine::new(16, Frame { number: 0 }));
    let mut temporary = TemporaryPage::new(Page { number: 0xcafebabe }, &mut source);
    assert_eq!(temporary.map(Frame { number: 9 }, &mut active), Err(OutOfFrames));
    assert_eq!(active.mapper.translate_page(Page { number: 0xcafebabe }), None);
}

#[test]
fn inactive_table_is_empty_and_refers_to_itself() {
    let mut source = Range { next: 1, end: 16 };
    let mut active = ActivePageTable::new(SimMachine::new(16, Frame { number: 0 }));
    let mut temporary = TemporaryPage::new(Page { number: 0xcafebabe }, &mut source);
    for word in active.mapper.machine.frames[12].iter_mut() {
        *word = 0xffff_ffff_ffff_ffff;
    }
    let table = InactivePageTable::new(Frame { number: 12 }, &mut active, &mut temporary).unwrap();
    assert_eq!(table.p4_frame, Frame { number: 12 });
    let frame = &active.mapper.machine.frames[12];
    assert!(frame[..511].iter().all(|word| *word == 0));
    assert_eq!(frame[511], (12 << 12) | PRESENT | WRITABLE);
    assert_eq!(active.mapper.translate_page(Page { number: 0xcafebabe }), None);
}

#[test]
fn with_edits_the_inactive_table_only() {
    let mut source = Range { next: 1, end: 16 };
    let mut active = ActivePageTable::new(SimMachine::new(32, Frame { number: 0 }));
    let mut temporary = TemporaryPage::new(Page { number: 0xcafebabe }, &mut source);
    let mut table =
        InactivePageTable::new(Frame { number: 20 }, &mut active, &mut temporary).unwrap();
    let page = Page { number: 0o001_002_003_004 };
    let seen = active.with(&mut table, &mut temporary, &mut source, |mapper, source| {
        // The recursive address shows the inactive table.
        let shown = mapper.translate(0xffff_ffff_ffff_f000);
        let mapped = mapper.map_to(page, Frame { number: 9 }, EntryFlags::empty(), source);
        (shown, mapped, mapper.translate_page(page))
    });
    assert_eq!(seen, Ok((Some(20 * 4096), Ok(()), Some(Frame { number: 9 }))));
    // The active table shows itself again, and does not map the page.
    assert_eq!(active.mapper.translate(0xffff_ffff_ffff_f000), Some(0));
    assert_eq!(active.mapper.translate_page(page), None);
    assert_eq!(active.mapper.translate_page(Page { number: 0xcafebabe }), None);
    assert_eq!(active.mapper.machine.frames[0][511], PRESENT | WRITABLE);
    assert_eq!(active.mapper.machine.frames[0][0o001], 0);
    // The inactive table got the tables and the mapping.
    assert_eq!(active.mapper.machine.frames[20][0o001], (4 << 12) | PRESENT | WRITABLE);
    assert_eq!(active.mapper.machine.frames[20][511], (20 << 12) | PRESENT | WRITABLE);
    // After the switch the page is mapped, and the old table is handed back.
    let old = active.switch(table);
    assert_eq!(old.p4_frame, Frame { number: 0 });
    assert_eq!(active.mapper.machine.table_base(), 20 * 4096);
    assert_eq!(active.mapper.translate_page(page), Some(Frame { number: 9 }));
    assert_eq!(active.mapper.translate(0xffff_ffff_ffff_f000), Some(20 * 4096));
}

#[test]
fn with_and_new_need_no_frame_where_the_tables_exist() {
    let mut source = Range { next: 1, end: 4 };
    let mut active = ActivePageTable::new(SimMachine::new(32, Frame { number: 0 }));
    let mut temporary = TemporaryPage::new(Page { number: 0xcafebabe }, &mut source);
    // The first table takes the three frames for the tables of the page.
    let first = InactivePageTable::new(Frame { number: 20 }, &mut active, &mut temporary);
    assert!(first.is_ok());
    assert_eq!(temporary.allocator.allocate_frame(), Some(Frame { number: 20 }));
    assert_eq!(temporary.allocator.allocate_frame(), None);
    // The page holds no frame now, and needs none.
    let mut second =
        InactivePageTable::new(Frame { number: 21 }, &mut active, &mut temporary).unwrap();
    assert_eq!(active.mapper.machine.frames[21][511], (21 << 12) | PRESENT | WRITABLE);
    assert_eq!(temporary.allocator.allocate_frame(), Some(Frame { number: 21 }));
    let seen = active.with(&mut second, &mut temporary, &mut source, |mapper, _| {
        mapper.translate(0xffff_ffff_ffff_f000)
    });
    assert_eq!(seen, Ok(Some(21 * 4096)));
    // The frame of the active table went to the frames that the page holds.
    assert_eq!(temporary.allocator.allocate_frame(), Some(Frame { number: 0 }));
    assert_eq!(temporary.allocator.allocate_frame(), None);
}

#[test]
fn with_does_not_run_its_task_without_the_temporary_page() {
    let mut source = Range { next: 1, end: 3 };
    let mut active = ActivePageTable::new(SimMachine::new(32, Frame { number: 0 }));
    let mut temporary = TemporaryPage::new(Page { number: 0xcafebabe }, &mut source);
    let mut table = InactivePageTable { p4_frame: Frame { number: 20 } };
    active.mapper.machine.frames[20][511] = (20 << 12) | PRESENT | WRITABLE;
    let mut ran = false;
    let seen = active.with(&mut table, &mut temporary, &mut ran, |_, ran| {
        *ran = true;
    });
    assert_eq!(seen, Err(OutOfFrames));
    assert!(!ran);
    assert_eq!(active.translate(0xffff_ffff_ffff_f000), Some(0));
}

#[test]
fn install_table_links_and_clears_the_frame() {
    let mut machine = SimMachine::new(16, Frame { number: 0 });
    for word in machine.frames[7].iter_mut() {
        *word = 0xffff_ffff_ffff_ffff;
    }
    let p4 = Table::p4();
    let made = p4.install_table(&mut machine, 3, Frame { number: 7 });
    assert_eq!(made, Table { address: 0xffff_ffff_ffe0_3000, level: TableLevel::Level3 });
    assert_eq!(machine.frames[0][3], (7 << 12) | PRESENT | WRITABLE);
    assert!(machine.frames[7].iter().all(|word| *word == 0));
    assert_eq!(machine.frames[0][511], PRESENT | WRITABLE);
    assert_eq!(p4.next_table(&machine, 3), Some(made));
}

#[test]
fn missing_tables_and_huge_pages_are_told() {
    let mut mapper = Mapper::new(SimMachine::new(16, Frame { number: 0 }));
    let mut allocator = Range { next: 1, end: 16 };
    let page = Page { number: 0o001_002_003_004 };
    assert_eq!(mapper.missing_tables(page), 3);
    assert!(mapper.map_to(page, Frame { number: 9 }, EntryFlags::empty(), &mut allocator).is_ok());
    assert_eq!(mapper.missing_tables(page), 0);
    assert_eq!(mapper.missing_tables(Page { number: 0o001_002_003_777 }), 0);
    assert_eq!(mapper.missing_tables(Page { number: 0o001_002_004_004 }), 1);
    assert_eq!(mapper.missing_tables(Page { number: 0o001_003_003_004 }), 2);
    assert_eq!(mapper.missing_tables(Page { number: 0o002_002_003_004 }), 3);
    assert!(!mapper.is_blocked(page));
    // A huge page in the level-2 table, beside the level-1 table.
    mapper.machine.frames[2][0o004] = (8 << 12) | 0x80 | PRESENT;
    assert!(mapper.is_blocked(Page { number: 0o001_002_004_004 }));
    assert!(!mapper.is_blocked(page));
    assert_eq!(mapper.translate_page(Page { number: 0o001_002_004_004 }), None);
    // A huge page in the level-3 table.
    mapper.machine.frames[1][0o005] = (8 << 12) | 0x80 | PRESENT;
    assert!(mapper.is_blocked(Page { number: 0o001_005_000_000 }));
    assert!(!mapper.is_blocked(Page { number: 0o001_006_000_000 }));
}

#[test]
fn inactive_table_leaves_the_active_slot_as_it_is() {
    let mut source = Range { next: 1, end: 16 };
    let mut active = ActivePageTable::new(SimMachine::new(32, Frame { number: 0 }));
    active.mapper.machine.frames[0][511] |= 0x8000_0000_0000_0000;
    let word = active.mapper.machine.frames[0][511];
    let mut temporary = TemporaryPage::new(Page { number: 0xcafebabe }, &mut source);
    let mut table =
        InactivePageTable::new(Frame { number: 20 }, &mut active, &mut temporary).unwrap();
    assert_eq!(active.mapper.machine.frames[0][511], word);
    // `with` puts the slot back as present and writable.
    let seen = active.with(&mut table, &mut temporary, &mut source, |mapper, _| {
        mapper.machine.frames[0][511]
    });
    assert_eq!(seen, Ok((20 << 12) | PRESENT | WRITABLE));
    assert_eq!(active.mapper.machine.frames[0][511], PRESENT | WRITABLE);
}
