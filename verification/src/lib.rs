//! Four-level x86-64 paging through a recursively mapped top-level table.
//!
//! The hardware is reached through the [`machine::Machine`] trait: physical
//! memory seen through address translation, the table-base register and the
//! translation cache. Everything above it is proved against that trait's
//! contract:
//!
//! - [`page`], [`frame`], [`entry`]: addresses, table indices and the bits of
//!   an entry;
//! - [`table`]: tables by their address in the recursive mapping;
//! - [`mapper`]: translating, mapping, unmapping;
//! - [`temporary_page`], [`tiny_allocator`]: the page through which a frame
//!   is edited;
//! - [`active`], [`inactive`]: the table in use, tables not in use, `with`
//!   and `switch`;
//! - [`remap`], [`boot`]: the kernel's own address space.
//!
//! [`tree`], [`space`] and [`handover`] hold what is proved of memory itself:
//! that the tables of an address space form a tree, and that the operations
//! keep it one. [`sim`] is a machine in software.

pub mod active;
pub mod allocator;
pub mod boot;
pub mod entry;
pub mod frame;
pub mod handover;
pub mod inactive;
pub mod machine;
pub mod mapper;
pub mod page;
pub mod remap;
pub mod sim;
pub mod space;
pub mod table;
pub mod temporary_page;
pub mod tiny_allocator;
pub mod tree;

pub use active::ActivePageTable;
pub use inactive::InactivePageTable;
pub use allocator::{FrameAllocator, OutOfFrames};
pub use boot::{BootInfo, Section};
pub use entry::{Entry, EntryFlags};
pub use frame::{Frame, FrameIter};
pub use machine::Machine;
pub use mapper::Mapper;
pub use page::{Page, PageIter};
pub use remap::{
    map_frames, map_kernel, remap_into, remap_the_kernel, test_paging, test_paging_with,
    PagingReport,
};
pub use temporary_page::TemporaryPage;
