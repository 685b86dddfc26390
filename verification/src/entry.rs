//! The 64-bit slots of a table: a frame address and flag bits.

use vstd::prelude::*;
use crate::boot::{elf_permissions, Section};
use crate::frame::Frame;

verus! {

/// The entry's frame is mapped.
pub const PRESENT: u64 = 0x1;

/// The page may be written.
pub const WRITABLE: u64 = 0x2;

/// Code that runs in user mode may reach the page.
pub const USER_ACCESSIBLE: u64 = 0x4;

/// Writes go through to memory.
pub const WRITE_THROUGH: u64 = 0x8;

/// The page is not cached.
pub const NO_CACHE: u64 = 0x10;

/// The hardware sets it when the page is used.
pub const ACCESSED: u64 = 0x20;

/// The hardware sets it when the page is written.
pub const DIRTY: u64 = 0x40;

/// In a table of level 3 or 2: the entry maps a huge page, not a table.
pub const HUGE_PAGE: u64 = 0x80;

/// The translation survives a change of the address space.
pub const GLOBAL: u64 = 0x100;

/// No code on the page may run.
pub const NO_EXECUTE: u64 = 0x8000_0000_0000_0000;

/// The bits of an entry that hold flags.
pub const FLAG_MASK: u64 = 0x8000_0000_0000_01ff;

/// The bits of an entry that hold the frame's address.
pub const ADDRESS_MASK: u64 = 0x000f_ffff_ffff_f000;

/// Whether the present bit of `bits` is set.
pub open spec fn is_present(bits: u64) -> bool {
    bits & 0x1 == 0x1
}

/// Whether the huge-page bit of `bits` is set.
pub open spec fn is_huge(bits: u64) -> bool {
    bits & 0x80 == 0x80
}

/// Whether `bits`, read in a table of level 4, 3 or 2, refers to a table of
/// the next level: it is present and no huge page.
pub open spec fn is_link(bits: u64) -> bool {
    is_present(bits) && !is_huge(bits)
}

/// The number of the frame whose address `bits` holds.
pub open spec fn frame_number(bits: u64) -> u64 {
    (bits & 0x000f_ffff_ffff_f000) >> 12
}

/// The bits of an entry for frame number `frame` with the flags in `flags`;
/// what in `flags` is no flag is left out.
pub open spec fn compose(frame: u64, flags: u64) -> u64 {
    (frame << 12) | (flags & 0x8000_0000_0000_01ff)
}

/// What an entry made by `compose` holds.
pub proof fn lemma_compose(frame: u64, flags: u64)
    requires
        frame < 0x100_0000_0000,
    ensures
        frame_number(compose(frame, flags)) == frame,
        compose(frame, flags) & 0x8000_0000_0000_01ff == flags & 0x8000_0000_0000_01ff,
        compose(frame, flags) & !0x800f_ffff_ffff_f1ffu64 == 0,
        is_present(compose(frame, flags)) == is_present(flags),
        is_huge(compose(frame, flags)) == is_huge(flags),
{
    assert(((((frame << 12) | (flags & 0x8000_0000_0000_01ff)) & 0x000f_ffff_ffff_f000) >> 12)
        == frame && ((frame << 12) | (flags & 0x8000_0000_0000_01ff)) & 0x8000_0000_0000_01ff
        == flags & 0x8000_0000_0000_01ff && ((frame << 12) | (flags & 0x8000_0000_0000_01ff))
        & !0x800f_ffff_ffff_f1ffu64 == 0 && (((frame << 12) | (flags & 0x8000_0000_0000_01ff))
        & 0x1 == 0x1) == (flags & 0x1 == 0x1) && (((frame << 12) | (flags
        & 0x8000_0000_0000_01ff)) & 0x80 == 0x80) == (flags & 0x80 == 0x80)) by (bit_vector)
        requires
            frame < 0x100_0000_0000,
    ;
}

/// A set of entry flags, one bit each.
#[derive(Debug, Clone, Copy, PartialEq, Eq, Structural)]
pub struct EntryFlags {
    pub bits: u64,
}

impl EntryFlags {
    /// No flag.
    pub fn empty() -> (flags: EntryFlags)
        ensures
            flags.bits == 0,
    {
        EntryFlags { bits: 0 }
    }

    /// The flags among `bits`; bits that are no flag are dropped.
    pub fn from_bits_truncate(bits: u64) -> (flags: EntryFlags)
        ensures
            flags.bits == bits & FLAG_MASK,
    {
        EntryFlags { bits: bits & FLAG_MASK }
    }

    /// The flags as bits.
    pub fn bits(&self) -> (bits: u64)
        ensures
            bits == self.bits,
    {
        self.bits
    }

    /// Whether every flag of `other` is in `self`.
    pub fn contains(&self, other: EntryFlags) -> (held: bool)
        ensures
            held == (self.bits & other.bits == other.bits),
    {
        self.bits & other.bits == other.bits
    }

    /// The flags of `self` together with those of `other`.
    pub fn union(self, other: EntryFlags) -> (flags: EntryFlags)
        ensures
            flags.bits == self.bits | other.bits,
    {
        EntryFlags { bits: self.bits | other.bits }
    }

    /// The entry flags that `section` asks for, given how an ELF section's
    /// flag word is laid out: bit 0 writable, bit 1 allocated, bit 2
    /// executable.
    pub open spec fn of_section(section: Section) -> u64 {
        (if section.flags & 0x2 == 0x2 {
            PRESENT
        } else {
            0
        }) | (if section.flags & 0x1 == 0x1 {
            WRITABLE
        } else {
            0
        }) | (if section.flags & 0x4 == 0x4 {
            0
        } else {
            NO_EXECUTE
        })
    }

    /// The flags under which a section is mapped: present where it is
    /// allocated, writable where it is writable, and barred from execution
    /// unless it is executable.
    pub fn from_elf_section_flags(section: &Section) -> (flags: EntryFlags)
        ensures
            flags.bits == EntryFlags::of_section(*section),
    {
        let (allocated, writable, executable) = elf_permissions(section.flags);
        let mut flags = EntryFlags::empty();
        if allocated {
            flags = flags.union(EntryFlags { bits: PRESENT });
        }
        if writable {
            flags = flags.union(EntryFlags { bits: WRITABLE });
        }
        if !executable {
            flags = flags.union(EntryFlags { bits: NO_EXECUTE });
        }
        proof {
            let p: u64 = if allocated { 0x1 } else { 0 };
            let w: u64 = if writable { 0x2 } else { 0 };
            let x: u64 = if executable { 0 } else { 0x8000_0000_0000_0000 };
            assert(0u64 | p == p && p | 0 == p && (p | w) | 0 == p | w && (p | 0) | x == p | 0 | x)
                by (bit_vector);
        }
        flags
    }
}

/// One slot of a table.
#[derive(Debug, Clone, Copy, PartialEq, Eq, Structural)]
pub struct Entry {
    pub bits: u64,
}

impl Entry {
    /// The frame that the entry points at, if the entry is present.
    pub open spec fn frame(self) -> Option<Frame> {
        if is_present(self.bits) {
            Some(Frame { number: frame_number(self.bits) })
        } else {
            None
        }
    }

    /// Clears every bit of the entry.
    pub fn set_unused(&mut self)
        ensures
            final(self).bits == 0,
    {
        self.bits = 0;
    }

    /// Whether the entry is present.
    pub fn is_present(&self) -> (present: bool)
        ensures
            present == is_present(self.bits),
    {
        self.bits & PRESENT == PRESENT
    }

    /// The flags of the entry.
    pub fn flags(&self) -> (flags: EntryFlags)
        ensures
            flags.bits == self.bits & FLAG_MASK,
    {
        EntryFlags::from_bits_truncate(self.bits)
    }

    /// The frame that the entry points at; none where the entry is absent.
    pub fn pointed_frame(&self) -> (frame: Option<Frame>)
        ensures
            frame == self.frame(),
            frame is Some ==> frame.unwrap().valid(),
    {
        if self.is_present() {
            let bits: u64 = self.bits;
            assert((bits & 0x000f_ffff_ffff_f000) >> 12 < 0x100_0000_0000) by (bit_vector);
            Some(Frame { number: (self.bits & ADDRESS_MASK) >> 12 })
        } else {
            None
        }
    }

    /// Makes the entry point at `frame` with `flags`, and clears every other
    /// bit. Present is one of the flags: the caller sets it or leaves it out.
    pub fn set(&mut self, frame: Frame, flags: EntryFlags)
        requires
            frame.valid(),
        ensures
            final(self).bits == compose(frame.number, flags.bits),
    {
        self.bits = (frame.number << 12) | (flags.bits & FLAG_MASK);
    }
}

} // verus!
