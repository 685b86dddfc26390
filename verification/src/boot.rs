//! What the boot loader reports: the kernel's sections and the place of its
//! own report.

use vstd::prelude::*;

verus! {

/// One section of the kernel image, as its ELF section header gives it.
#[derive(Debug, Clone, Copy, PartialEq, Eq, Structural)]
pub struct Section {
    /// Physical address of the first byte.
    pub addr: u64,
    /// Length in bytes.
    pub size: u64,
    /// The header's flag word.
    pub flags: u64,
}

impl Section {
    /// The section occupies memory when the kernel runs.
    pub open spec fn allocated(self) -> bool {
        self.flags & 0x2 == 0x2
    }

    /// The section can be mapped: it starts at a frame's first address,
    /// holds at least one byte, and ends in the lower half of the address
    /// space.
    pub open spec fn wf(self) -> bool {
        self.addr % 4096 == 0 && 0 < self.addr + self.size <= 0x8000_0000_0000
    }

    /// The frame that holds the section's first byte.
    pub open spec fn first_frame(self) -> u64 {
        self.addr / 4096
    }

    /// The number of frames that the section spans.
    pub open spec fn frame_count(self) -> nat {
        frame_span(self.addr, (self.addr + self.size) as u64)
    }

    /// Whether the section occupies memory when the kernel runs.
    pub fn is_allocated(&self) -> (allocated: bool)
        ensures
            allocated == self.allocated(),
    {
        elf_permissions(self.flags).0
    }

    /// The address of the section's first byte.
    pub fn start_address(&self) -> (address: u64)
        ensures
            address == self.addr,
    {
        self.addr
    }

    /// The address after the section's last byte.
    pub fn end_address(&self) -> (address: u64)
        requires
            self.addr + self.size <= u64::MAX,
        ensures
            address == self.addr + self.size,
    {
        self.addr + self.size
    }
}

/// The number of frames from the frame of `start` to the frame of the byte
/// before `end`, both included.
pub open spec fn frame_span(start: u64, end: u64) -> nat {
    if end > 0 && (end - 1) / 4096 >= start / 4096 {
        ((end - 1) / 4096 - start / 4096 + 1) as nat
    } else {
        0
    }
}

/// What the boot loader reports.
pub struct BootInfo {
    /// The address of the report's first byte.
    pub start: u64,
    /// The address after the report's last byte.
    pub end: u64,
    /// The sections of the kernel image.
    pub sections: Vec<Section>,
}

impl BootInfo {
    /// The address of the report's first byte.
    pub fn start_address(&self) -> (address: u64)
        ensures
            address == self.start,
    {
        self.start
    }

    /// The address after the report's last byte.
    pub fn end_address(&self) -> (address: u64)
        ensures
            address == self.end,
    {
        self.end
    }
}

/// Decodes an ELF section's flag word with `multiboot2::ElfSectionFlags`:
/// `from_bits_retain` keeps the word as it is, and `contains` tells for each
/// of `ALLOCATED` (bit 1), `WRITABLE` (bit 0) and `EXECUTABLE` (bit 2) whether
/// that bit is set. The result names them in this order.
#[verifier::external_body]
pub(crate) fn elf_permissions(flags: u64) -> (held: (bool, bool, bool))
    ensures
        held.0 == (flags & 0x2 == 0x2),
        held.1 == (flags & 0x1 == 0x1),
        held.2 == (flags & 0x4 == 0x4),
{
    let flags = multiboot2::ElfSectionFlags::from_bits_retain(flags);
    (
        flags.contains(multiboot2::ElfSectionFlags::ALLOCATED),
        flags.contains(multiboot2::ElfSectionFlags::WRITABLE),
        flags.contains(multiboot2::ElfSectionFlags::EXECUTABLE),
    )
}

} // verus!
