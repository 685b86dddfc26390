use paging::entry::{
    HUGE_PAGE, NO_EXECUTE, PRESENT, USER_ACCESSIBLE, WRITABLE,
};
use paging::{Entry, EntryFlags, Frame, Section};

#[test]
fn entry_set_and_read_back() {
    let mut entry = Entry { bits: 0xffff_ffff_ffff_ffff };
    let flags = EntryFlags::from_bits_truncate(PRESENT | WRITABLE | NO_EXECUTE);
    entry.set(Frame { number: 0xb8 }, flags);
    assert_eq!(entry.bits, 0x8000_0000_000b_8003);
    assert_eq!(entry.pointed_frame(), Some(Frame { number: 0xb8 }));
    assert_eq!(entry.flags(), flags);
    assert!(entry.is_present());
    entry.set_unused();
    assert_eq!(entry.bits, 0);
    assert!(!entry.is_present());
    assert_eq!(entry.pointed_frame(), None);
}

#[test]
fn absent_entry_has_no_frame() {
    let mut entry = Entry { bits: 0 };
    entry.set(Frame { number: 5 }, EntryFlags::from_bits_truncate(WRITABLE));
    assert_eq!(entry.bits, 0x5002);
    assert!(!entry.is_present());
    assert_eq!(entry.pointed_frame(), None);
}

#[test]
fn flags_drop_what_is_no_flag() {
    let flags = EntryFlags::from_bits_truncate(0xffff_ffff_ffff_ffff);
    assert_eq!(flags.bits(), 0x8000_0000_0000_01ff);
    assert!(flags.contains(EntryFlags::from_bits_truncate(HUGE_PAGE | USER_ACCESSIBLE)));
    assert!(!EntryFlags::empty().contains(EntryFlags::from_bits_truncate(PRESENT)));
    assert_eq!(
        EntryFlags::from_bits_truncate(PRESENT)
            .union(EntryFlags::from_bits_truncate(WRITABLE))
            .bits(),
        3
    );
}

#[test]
fn section_flags_become_entry_flags() {
    let section = |flags: u64| Section { addr: 0x10_0000, size: 0x1000, flags };
    assert_eq!(EntryFlags::from_elf_section_flags(&section(0)).bits(), NO_EXECUTE);
    assert_eq!(EntryFlags::from_elf_section_flags(&section(0x2)).bits(), PRESENT | NO_EXECUTE);
    assert_eq!(
        EntryFlags::from_elf_section_flags(&section(0x3)).bits(),
        PRESENT | WRITABLE | NO_EXECUTE
    );
    assert_eq!(EntryFlags::from_elf_section_flags(&section(0x6)).bits(), PRESENT);
    assert_eq!(EntryFlags::from_elf_section_flags(&section(0x7)).bits(), PRESENT | WRITABLE);
    assert_eq!(EntryFlags::from_elf_section_flags(&section(0x4)).bits(), 0);
    assert_eq!(EntryFlags::from_elf_section_flags(&section(0x30)).bits(), NO_EXECUTE);
}
