//! Building the kernel's own address space and switching to it.

use vstd::prelude::*;
use crate::active::{lent, ActivePageTable};
use crate::inactive::InactivePageTable;
use crate::allocator::{FrameAllocator, OutOfFrames};
use crate::boot::{frame_span, BootInfo, Section};
use crate::entry::{compose, lemma_compose, Entry, EntryFlags, PRESENT, WRITABLE};
use crate::frame::Frame;
use crate::machine::{backed, table2, walk, Machine, State};
use crate::mapper::Mapper;
use crate::page::Page;
use crate::space::{blocked, can_take, edited, mappings, plain, root_of, space_ok};
use crate::temporary_page::TemporaryPage;
use crate::tree::frames_of;

verus! {

/// The physical address of the VGA text buffer.
pub const VGA_BUFFER: u64 = 0xb8000;

/// The entry that maps a frame to itself with `flags` and the present flag.
pub open spec fn identity_entry(frame: u64, flags: u64) -> Entry {
    Entry { bits: compose(frame, flags | PRESENT) }
}

/// `view` after the `count` frames from `first` on were mapped to
/// themselves with `flags`, in rising order.
pub open spec fn with_frames(view: Map<Page, Entry>, first: u64, count: nat, flags: u64) -> Map<
    Page,
    Entry,
>
    decreases count,
{
    if count == 0 {
        view
    } else {
        with_frames(view, first, (count - 1) as nat, flags).insert(
            Page { number: (first + count - 1) as u64 },
            identity_entry((first + count - 1) as u64, flags),
        )
    }
}

/// The `count` frames from `first` on can be mapped to themselves in turn:
/// each lies in the lower half of the address space, and the page of each
/// is unmapped when its turn comes.
pub open spec fn frames_fit(view: Map<Page, Entry>, first: u64, count: nat, flags: u64) -> bool
    decreases count,
{
    count == 0 || {
        &&& frames_fit(view, first, (count - 1) as nat, flags)
        &&& first + count - 1 < 0x8_0000_0000
        &&& !with_frames(view, first, (count - 1) as nat, flags).contains_key(
            Page { number: (first + count - 1) as u64 },
        )
    }
}

/// `view` after the first `count` of `sections` were mapped: each section
/// that is allocated, frame by frame, with the flags of the section.
pub open spec fn with_sections(view: Map<Page, Entry>, sections: Seq<Section>, count: nat) -> Map<
    Page,
    Entry,
>
    decreases count,
{
    if count == 0 {
        view
    } else {
        let before = with_sections(view, sections, (count - 1) as nat);
        let section = sections[count - 1];
        if section.allocated() {
            with_frames(
                before,
                section.first_frame(),
                section.frame_count(),
                EntryFlags::of_section(section),
            )
        } else {
            before
        }
    }
}

/// The first `count` of `sections` can be mapped in turn.
pub open spec fn sections_fit(view: Map<Page, Entry>, sections: Seq<Section>, count: nat) -> bool
    decreases count,
{
    count == 0 || {
        &&& sections_fit(view, sections, (count - 1) as nat)
        &&& sections[count - 1].allocated() ==> sections[count - 1].wf() && frames_fit(
            with_sections(view, sections, (count - 1) as nat),
            sections[count - 1].first_frame(),
            sections[count - 1].frame_count(),
            EntryFlags::of_section(sections[count - 1]),
        )
    }
}

impl BootInfo {
    /// `view` after the kernel was mapped: its sections, then the VGA text
    /// buffer, writable, then the boot loader's report.
    pub open spec fn mapped_onto(self, view: Map<Page, Entry>) -> Map<Page, Entry> {
        with_frames(
            with_frames(
                with_sections(view, self.sections@, self.sections@.len()),
                0xb8,
                1,
                WRITABLE,
            ),
            self.start / 4096,
            frame_span(self.start, self.end),
            PRESENT,
        )
    }

    /// The kernel can be mapped onto `view`: every frame's page is unmapped
    /// when its turn comes.
    pub open spec fn fits_onto(self, view: Map<Page, Entry>) -> bool {
        &&& sections_fit(view, self.sections@, self.sections@.len())
        &&& frames_fit(
            with_sections(view, self.sections@, self.sections@.len()),
            0xb8,
            1,
            WRITABLE,
        )
        &&& 0 < self.end <= 0x8000_0000_0000
        &&& frames_fit(
            with_frames(
                with_sections(view, self.sections@, self.sections@.len()),
                0xb8,
                1,
                WRITABLE,
            ),
            self.start / 4096,
            frame_span(self.start, self.end),
            PRESENT,
        )
    }
}

/// `page` is the page of one of the `count` frames from `first` on.
pub open spec fn in_frames(first: u64, count: nat, page: Page) -> bool {
    first <= page.number < first + count
}

/// `page` is the page of a frame of `section`, and the section is
/// allocated.
pub open spec fn in_section(section: Section, page: Page) -> bool {
    section.allocated() && in_frames(section.first_frame(), section.frame_count(), page)
}

/// What a view maps after frames were mapped to themselves: the pages of
/// those frames, each to the frame of its number with the flags given, and
/// what it mapped before.
pub proof fn lemma_with_frames(
    view: Map<Page, Entry>,
    first: u64,
    count: nat,
    flags: u64,
    page: Page,
)
    requires
        frames_fit(view, first, count, flags),
    ensures
        with_frames(view, first, count, flags).contains_key(page) <==> view.contains_key(page)
            || in_frames(first, count, page),
        in_frames(first, count, page) ==> !view.contains_key(page) && with_frames(
            view,
            first,
            count,
            flags,
        )[page] == identity_entry(page.number, flags),
        view.contains_key(page) ==> with_frames(view, first, count, flags)[page] == view[page],
    decreases count,
{
    if count > 0 {
        lemma_with_frames(view, first, (count - 1) as nat, flags, page);
        let last = Page { number: (first + count - 1) as u64 };
        lemma_with_frames(view, first, (count - 1) as nat, flags, last);
    }
}

/// What a view maps after sections were mapped: the pages of the frames of
/// each section that is allocated, with the flags of the section, and what
/// it mapped before.
pub proof fn lemma_with_sections(
    view: Map<Page, Entry>,
    sections: Seq<Section>,
    count: nat,
    page: Page,
)
    requires
        sections_fit(view, sections, count),
        count <= sections.len(),
    ensures
        with_sections(view, sections, count).contains_key(page) <==> view.contains_key(page) || (
        exists|i: int| 0 <= i < count && #[trigger] in_section(sections[i], page)),
        forall|i: int|
            0 <= i < count && #[trigger] in_section(sections[i], page) ==> !view.contains_key(page)
                && with_sections(view, sections, count)[page] == identity_entry(
                page.number,
                EntryFlags::of_section(sections[i]),
            ),
        view.contains_key(page) ==> with_sections(view, sections, count)[page] == view[page],
    decreases count,
{
    if count > 0 {
        let before = with_sections(view, sections, (count - 1) as nat);
        let section = sections[count - 1];
        lemma_with_sections(view, sections, (count - 1) as nat, page);
        if section.allocated() {
            lemma_with_frames(
                before,
                section.first_frame(),
                section.frame_count(),
                EntryFlags::of_section(section),
                page,
            );
        }
        if with_sections(view, sections, count).contains_key(page) && !view.contains_key(page) {
            if before.contains_key(page) {
                let i = choose|i: int|
                    0 <= i < count - 1 && #[trigger] in_section(sections[i], page);
                assert(in_section(sections[i], page));
            } else {
                assert(in_section(sections[count - 1], page));
            }
        }
    }
}

/// What the kernel's address space maps: the frames of every section that
/// is allocated, with the flags of the section; the frame of the VGA text
/// buffer, writable; and the frames of the boot loader's report. Each is
/// mapped to itself, and nothing else is mapped.
pub proof fn lemma_kernel_view(boot_info: BootInfo, page: Page)
    requires
        boot_info.fits_onto(Map::empty()),
    ensures
        boot_info.mapped_onto(Map::empty()).contains_key(page) <==> {
            ||| exists|i: int|
                0 <= i < boot_info.sections@.len() && #[trigger] in_section(
                    boot_info.sections@[i],
                    page,
                )
            ||| page.number == 0xb8
            ||| in_frames(
                boot_info.start / 4096,
                frame_span(boot_info.start, boot_info.end),
                page,
            )
        },
        forall|i: int|
            0 <= i < boot_info.sections@.len() && #[trigger] in_section(
                boot_info.sections@[i],
                page,
            ) ==> boot_info.mapped_onto(Map::empty())[page] == identity_entry(
                page.number,
                EntryFlags::of_section(boot_info.sections@[i]),
            ),
        page.number == 0xb8 ==> boot_info.mapped_onto(Map::empty())[page] == identity_entry(
            0xb8,
            WRITABLE,
        ),
        in_frames(boot_info.start / 4096, frame_span(boot_info.start, boot_info.end), page)
            ==> boot_info.mapped_onto(Map::empty())[page] == identity_entry(page.number, PRESENT),
{
    let sections = boot_info.sections@;
    let empty = Map::<Page, Entry>::empty();
    let first = with_sections(empty, sections, sections.len());
    let second = with_frames(first, 0xb8, 1, WRITABLE);
    lemma_with_sections(empty, sections, sections.len(), page);
    lemma_with_frames(first, 0xb8, 1, WRITABLE, page);
    lemma_with_frames(
        second,
        boot_info.start / 4096,
        frame_span(boot_info.start, boot_info.end),
        PRESENT,
        page,
    );
}

/// Frames of the lower half whose pages a view does not map can be mapped
/// in turn.
pub proof fn lemma_free_frames_fit(view: Map<Page, Entry>, first: u64, count: nat, flags: u64)
    requires
        count > 0 ==> first + count <= 0x8_0000_0000,
        forall|page: Page| #[trigger] in_frames(first, count, page) ==> !view.contains_key(page),
    ensures
        frames_fit(view, first, count, flags),
    decreases count,
{
    if count > 0 {
        let last = Page { number: (first + count - 1) as u64 };
        assert forall|page: Page| #[trigger]
            in_frames(first, (count - 1) as nat, page) implies !view.contains_key(page) by {
            assert(in_frames(first, count, page));
        }
        lemma_free_frames_fit(view, first, (count - 1) as nat, flags);
        lemma_with_frames(view, first, (count - 1) as nat, flags, last);
        assert(in_frames(first, count, last));
    }
}

/// The frames of a section that can be mapped lie in the lower half.
pub proof fn lemma_section_is_low(section: Section)
    requires
        section.wf(),
    ensures
        section.first_frame() + section.frame_count() <= 0x8_0000_0000,
{
}

/// Sections of which no two share a frame, and none has a frame whose page
/// a view maps, can be mapped in turn.
pub proof fn lemma_apart_sections_fit(view: Map<Page, Entry>, sections: Seq<Section>, count: nat)
    requires
        count <= sections.len(),
        forall|i: int| 0 <= i < count && (#[trigger] sections[i]).allocated() ==> sections[i].wf(),
        forall|i: int, page: Page|
            0 <= i < count && #[trigger] in_section(sections[i], page) ==> !view.contains_key(page),
        forall|i: int, j: int, page: Page|
            0 <= i < j < count && #[trigger] in_section(sections[i], page)
                ==> !#[trigger] in_section(sections[j], page),
    ensures
        sections_fit(view, sections, count),
    decreases count,
{
    if count > 0 {
        let shorter = (count - 1) as nat;
        let section = sections[count - 1];
        lemma_apart_sections_fit(view, sections, shorter);
        if section.allocated() {
            lemma_section_is_low(section);
            let before = with_sections(view, sections, shorter);
            assert forall|page: Page| #[trigger]
                in_frames(
                    section.first_frame(),
                    section.frame_count(),
                    page,
                ) implies !before.contains_key(page) by {
                lemma_with_sections(view, sections, shorter, page);
                assert(in_section(sections[count - 1], page));
                if before.contains_key(page) {
                    let i = choose|i: int|
                        0 <= i < shorter && #[trigger] in_section(sections[i], page);
                    assert(in_section(sections[i], page));
                }
            }
            lemma_free_frames_fit(
                before,
                section.first_frame(),
                section.frame_count(),
                EntryFlags::of_section(section),
            );
        }
    }
}

impl BootInfo {
    /// No frame is listed twice: every section that is allocated can be
    /// mapped, no two of them share a frame, none holds the frame of the VGA
    /// text buffer or a frame of the boot loader's report, and the report,
    /// which ends in the lower half, does not hold the frame of the VGA text
    /// buffer.
    pub open spec fn apart(self) -> bool {
        &&& forall|i: int|
            0 <= i < self.sections@.len() && (#[trigger] self.sections@[i]).allocated()
                ==> self.sections@[i].wf()
        &&& forall|i: int, j: int, page: Page|
            0 <= i < j < self.sections@.len() && #[trigger] in_section(self.sections@[i], page)
                ==> !#[trigger] in_section(self.sections@[j], page)
        &&& forall|i: int, page: Page|
            0 <= i < self.sections@.len() && #[trigger] in_section(self.sections@[i], page)
                ==> page.number != 0xb8 && !in_frames(
                self.start / 4096,
                frame_span(self.start, self.end),
                page,
            )
        &&& !in_frames(
            self.start / 4096,
            frame_span(self.start, self.end),
            Page { number: 0xb8 },
        )
        &&& 0 < self.end <= 0x8000_0000_0000
    }

    /// Where no frame is listed twice, the kernel can be mapped onto an
    /// empty address space.
    pub proof fn lemma_apart_fits(self)
        requires
            self.apart(),
        ensures
            self.fits_onto(Map::empty()),
    {
        let sections = self.sections@;
        let empty = Map::<Page, Entry>::empty();
        lemma_apart_sections_fit(empty, sections, sections.len());
        let first = with_sections(empty, sections, sections.len());
        assert forall|page: Page| #[trigger] in_frames(0xb8, 1, page) implies !first.contains_key(
            page,
        ) by {
            lemma_with_sections(empty, sections, sections.len(), page);
            if first.contains_key(page) {
                let i = choose|i: int|
                    0 <= i < sections.len() && #[trigger] in_section(sections[i], page);
                assert(in_section(self.sections@[i], page));
            }
        }
        lemma_free_frames_fit(first, 0xb8, 1, WRITABLE);
        let second = with_frames(first, 0xb8, 1, WRITABLE);
        let start = self.start / 4096;
        let count = frame_span(self.start, self.end);
        assert forall|page: Page| #[trigger]
            in_frames(start, count, page) implies !second.contains_key(page) by {
            lemma_with_frames(first, 0xb8, 1, WRITABLE, page);
            lemma_with_sections(empty, sections, sections.len(), page);
            if first.contains_key(page) {
                let i = choose|i: int|
                    0 <= i < sections.len() && #[trigger] in_section(sections[i], page);
                assert(in_section(self.sections@[i], page));
            }
            if page.number == 0xb8 {
                assert(page == Page { number: 0xb8 });
            }
        }
        lemma_free_frames_fit(second, start, count, PRESENT);
    }
}

impl BootInfo {
    /// `page` is the page of a frame that the kernel's address space maps: a
    /// frame of a section that is allocated, the frame of the VGA text
    /// buffer, or a frame of the boot loader's report.
    pub open spec fn lists(self, page: Page) -> bool {
        ||| exists|i: int|
            0 <= i < self.sections@.len() && #[trigger] in_section(self.sections@[i], page)
        ||| page.number == 0xb8
        ||| in_frames(self.start / 4096, frame_span(self.start, self.end), page)
    }

    /// `view` is what mapping the kernel onto `start` leaves where it stops
    /// for want of a table: everything before some frame of a section,
    /// before the frame of the VGA text buffer, or before some frame of the
    /// boot loader's report is mapped, and nothing after it.
    pub open spec fn stopped(self, start: Map<Page, Entry>, view: Map<Page, Entry>) -> bool {
        ||| exists|i: int, done: nat|
            0 <= i < self.sections@.len() && self.sections@[i].allocated() && done
                < self.sections@[i].frame_count() && view == #[trigger] with_frames(
                with_sections(start, self.sections@, i as nat),
                self.sections@[i].first_frame(),
                done,
                EntryFlags::of_section(self.sections@[i]),
            )
        ||| view == with_sections(start, self.sections@, self.sections@.len())
        ||| exists|done: nat|
            done < frame_span(self.start, self.end) && view == #[trigger] with_frames(
                with_frames(
                    with_sections(start, self.sections@, self.sections@.len()),
                    0xb8,
                    1,
                    WRITABLE,
                ),
                self.start / 4096,
                done,
                PRESENT,
            )
    }
}

/// The number of frames of the first `count` of `sections` that are
/// allocated.
pub open spec fn sections_frames(sections: Seq<Section>, count: nat) -> nat
    decreases count,
{
    if count == 0 {
        0
    } else {
        sections_frames(sections, (count - 1) as nat) + if sections[count - 1].allocated() {
            sections[count - 1].frame_count()
        } else {
            0
        }
    }
}

/// More sections have no fewer frames.
pub proof fn lemma_sections_frames_grow(sections: Seq<Section>, fewer: nat, more: nat)
    requires
        fewer <= more,
    ensures
        sections_frames(sections, fewer) <= sections_frames(sections, more),
    decreases more,
{
    if fewer < more {
        lemma_sections_frames_grow(sections, fewer, (more - 1) as nat);
    }
}

impl BootInfo {
    /// The number of frames that the kernel's address space maps: those of
    /// the sections that are allocated, the frame of the VGA text buffer,
    /// and those of the boot loader's report. Each needs at most three
    /// tables.
    pub open spec fn frame_total(self) -> nat {
        sections_frames(self.sections@, self.sections@.len()) + 1 + frame_span(
            self.start,
            self.end,
        )
    }
}

/// Frames that fit lie in the lower half.
pub proof fn lemma_fitting_frames_are_low(
    view: Map<Page, Entry>,
    first: u64,
    count: nat,
    flags: u64,
    page: Page,
)
    requires
        frames_fit(view, first, count, flags),
        in_frames(first, count, page),
    ensures
        page.number < 0x8_0000_0000,
    decreases count,
{
    if page.number < first + count - 1 {
        lemma_fitting_frames_are_low(view, first, (count - 1) as nat, flags, page);
    }
}

/// Frames that fit, fit up to any point.
pub proof fn lemma_frames_fit_prefix(
    view: Map<Page, Entry>,
    first: u64,
    count: nat,
    flags: u64,
    shorter: nat,
)
    requires
        frames_fit(view, first, count, flags),
        shorter <= count,
    ensures
        frames_fit(view, first, shorter, flags),
    decreases count,
{
    if shorter < count {
        lemma_frames_fit_prefix(view, first, (count - 1) as nat, flags, shorter);
    }
}

/// Sections that fit, fit up to any point.
pub proof fn lemma_sections_fit_prefix(
    view: Map<Page, Entry>,
    sections: Seq<Section>,
    count: nat,
    shorter: nat,
)
    requires
        sections_fit(view, sections, count),
        shorter <= count,
    ensures
        sections_fit(view, sections, shorter),
    decreases count,
{
    if shorter < count {
        lemma_sections_fit_prefix(view, sections, (count - 1) as nat, shorter);
    }
}

/// A page of the lower half is valid and lies outside the recursive slot.
pub proof fn lemma_low_page(number: u64)
    requires
        number < 0x8_0000_0000,
    ensures
        (Page { number }).valid(),
        (Page { number }).p4() != 511,
{
    assert((number >> 27) & 0x1ff != 511) by (bit_vector)
        requires
            number < 0x8_0000_0000,
    ;
}

/// Maps the frames from `start_frame` to `end_frame`, both included, to
/// themselves with `flags`, in rising order. It stops at the first frame
/// for which the allocator has no table left. Where the tables for all of
/// them exist, it asks for none and maps them all.
pub fn map_frames<M: Machine, A: FrameAllocator>(
    mapper: &mut Mapper<M>,
    allocator: &mut A,
    start_frame: Frame,
    end_frame: Frame,
    flags: EntryFlags,
) -> (result: Result<(), OutOfFrames>)
    requires
        old(mapper).wf(),
        old(allocator).wf(),
        old(mapper).plain(),
        old(mapper).can_take(old(allocator).free_frames()),
        end_frame.number < u64::MAX,
        frames_fit(
            old(mapper)@,
            start_frame.number,
            Frame::range_inclusive_spec(start_frame, end_frame),
            flags.bits,
        ),
    ensures
        final(mapper).wf(),
        final(allocator).wf(),
        final(mapper).plain(),
        final(mapper).can_take(final(allocator).free_frames()),
        edited(old(mapper).machine@, final(mapper).machine@),
        final(allocator).free_frames().subset_of(old(allocator).free_frames()),
        forall|frame: Frame| old(allocator).accepts(frame) ==> final(allocator).accepts(frame),
        forall|table: u64| #[trigger]
            frames_of(final(mapper).machine@.memory, old(mapper).root()).contains(table)
                ==> frames_of(old(mapper).machine@.memory, old(mapper).root()).contains(table)
                || old(allocator).free_frames().contains(Frame { number: table }),
        (result is Ok) ==> final(mapper)@ == with_frames(
            old(mapper)@,
            start_frame.number,
            Frame::range_inclusive_spec(start_frame, end_frame),
            flags.bits,
        ),
        (result is Err) ==> exists|done: nat|
            done < Frame::range_inclusive_spec(start_frame, end_frame) && final(mapper)@
                == #[trigger] with_frames(old(mapper)@, start_frame.number, done, flags.bits),
        (forall|page: Page| #[trigger]
            in_frames(
                start_frame.number,
                Frame::range_inclusive_spec(start_frame, end_frame),
                page,
            ) ==> old(mapper).covers(page)) ==> (result is Ok),
        old(allocator).eager() ==> final(allocator).eager(),
        (result is Ok) && old(allocator).free_frames().finite()
            ==> final(allocator).free_frames().len() + 3 * Frame::range_inclusive_spec(
            start_frame,
            end_frame,
        ) >= old(allocator).free_frames().len(),
        old(allocator).eager()
            && old(allocator).free_frames().finite()
            && old(allocator).free_frames().len()
                >= 3 * Frame::range_inclusive_spec(start_frame, end_frame)
            ==> (
        result is Ok),
        old(allocator).eager() && (result is Err)
            ==> final(allocator).free_frames() == Set::<Frame>::empty(),
{
    let ghost before = mapper.machine@;
    let ghost origin = *mapper;
    let ghost view = mapper@;
    let ghost first = start_frame.number;
    let ghost count = Frame::range_inclusive_spec(start_frame, end_frame);
    let ghost free = allocator.free_frames();
    let ghost taker = *allocator;
    let mut frames = Frame::range_inclusive(start_frame, end_frame);
    let ghost mut done: nat = 0;
    while frames.start.number <= frames.end.number
        invariant
            before == old(mapper).machine@,
            origin == *old(mapper),
            origin.wf(),
            view == old(mapper)@,
            free == old(allocator).free_frames(),
            taker == *old(allocator),
            frames.end == end_frame,
            end_frame.number < u64::MAX,
            done <= count,
            frames.start.number == first + done,
            frames.start.number <= frames.end.number <==> done < count,
            frames_fit(view, first, count, flags.bits),
            count == Frame::range_inclusive_spec(start_frame, end_frame),
            first == start_frame.number,
            mapper.wf(),
            allocator.wf(),
            mapper.plain(),
            mapper.can_take(allocator.free_frames()),
            mapper.root() == crate::space::root_of(before),
            crate::tree::tree_ok(before.memory, before.base),
            edited(before, mapper.machine@),
            allocator.free_frames().subset_of(free),
            taker.eager() ==> allocator.eager(),
            free.finite() ==> allocator.free_frames().finite() && allocator.free_frames().len()
                + 3 * done >= free.len(),
            forall|frame: Frame| taker.accepts(frame) ==> allocator.accepts(frame),
            forall|table: u64| #[trigger]
                frames_of(mapper.machine@.memory, mapper.root()).contains(table) ==> frames_of(
                    before.memory,
                    mapper.root(),
                ).contains(table) || free.contains(Frame { number: table }),
            mapper@ == with_frames(view, first, done, flags.bits),
        decreases count - done,
    {
        let frame = frames.next().unwrap();
        let ghost middle = mapper.machine@;
        proof {
            lemma_frames_fit_prefix(view, first, count, flags.bits, done + 1);
            lemma_low_page(frame.number);
            assert(!mapper@.contains_key(Page { number: frame.number }));
            assert(!mapper.blocked(Page { number: frame.number }));
            assert(in_frames(first, count, Page { number: frame.number }));
            if origin.covers(Page { number: frame.number }) {
                crate::space::lemma_edited_keeps_cover(
                    before,
                    middle,
                    Page { number: frame.number },
                );
            }
        }
        match mapper.identity_map(frame, flags, allocator) {
            Ok(_) => {},
            Err(error) => {
                proof {
                    crate::space::lemma_edited_twice(before, middle, mapper.machine@);
                    assert(mapper@ == with_frames(view, first, done, flags.bits));
                }
                return Err(error);
            },
        }
        proof {
            crate::space::lemma_edited_twice(before, middle, mapper.machine@);
            if free.finite() {
                vstd::set_lib::lemma_len_subset(allocator.free_frames(), free);
            }
            done = done + 1;
        }
    }
    Ok(())
}

/// Maps what the kernel needs, each frame to itself: every section that is
/// allocated, with the flags of the section; the VGA text buffer, writable;
/// and the boot loader's report. It stops at the first frame for which the
/// allocator has no table left: what came before it is mapped, and nothing
/// after it. Where the tables for all of them exist, it asks for none and
/// maps them all.
pub fn map_kernel<M: Machine, A: FrameAllocator>(
    mapper: &mut Mapper<M>,
    allocator: &mut A,
    boot_info: &BootInfo,
) -> (result: Result<(), OutOfFrames>)
    requires
        old(mapper).wf(),
        old(allocator).wf(),
        old(mapper).plain(),
        old(mapper).can_take(old(allocator).free_frames()),
        boot_info.fits_onto(old(mapper)@),
    ensures
        final(mapper).wf(),
        final(allocator).wf(),
        final(mapper).plain(),
        final(mapper).can_take(final(allocator).free_frames()),
        edited(old(mapper).machine@, final(mapper).machine@),
        final(allocator).free_frames().subset_of(old(allocator).free_frames()),
        forall|frame: Frame| old(allocator).accepts(frame) ==> final(allocator).accepts(frame),
        forall|table: u64| #[trigger]
            frames_of(final(mapper).machine@.memory, old(mapper).root()).contains(table)
                ==> frames_of(old(mapper).machine@.memory, old(mapper).root()).contains(table)
                || old(allocator).free_frames().contains(Frame { number: table }),
        (result is Ok) ==> final(mapper)@ == boot_info.mapped_onto(old(mapper)@),
        (result is Err) ==> boot_info.stopped(old(mapper)@, final(mapper)@),
        (forall|page: Page| #[trigger] boot_info.lists(page) ==> old(mapper).covers(page)) ==> (
        result is Ok),
        old(allocator).eager() ==> final(allocator).eager(),
        (result is Ok) && old(allocator).free_frames().finite()
            ==> final(allocator).free_frames().len() + 3 * boot_info.frame_total()
                >= old(allocator).free_frames().len(),
        old(allocator).eager()
            && old(allocator).free_frames().finite()
            && old(allocator).free_frames().len() >= 3 * boot_info.frame_total()
            ==> (result is Ok),
        old(allocator).eager() && (result is Err)
            ==> final(allocator).free_frames() == Set::<Frame>::empty(),
{
    let ghost before = mapper.machine@;
    let ghost origin = *mapper;
    let ghost view = mapper@;
    let ghost free = allocator.free_frames();
    let ghost taker = *allocator;
    let ghost sections = boot_info.sections@;
    let ghost sure = forall|page: Page| #[trigger] boot_info.lists(page) ==> origin.covers(page);
    let mut index: usize = 0;
    while index < boot_info.sections.len()
        invariant
            before == old(mapper).machine@,
            origin == *old(mapper),
            origin.wf(),
            sure == (forall|page: Page| #[trigger] boot_info.lists(page) ==> origin.covers(page)),
            free == old(allocator).free_frames(),
            taker == *old(allocator),
            view == old(mapper)@,
            index <= boot_info.sections.len(),
            sections == boot_info.sections@,
            sections_fit(view, sections, sections.len()),
            mapper.wf(),
            allocator.wf(),
            mapper.plain(),
            mapper.can_take(allocator.free_frames()),
            mapper.root() == crate::space::root_of(before),
            crate::tree::tree_ok(before.memory, before.base),
            edited(before, mapper.machine@),
            allocator.free_frames().subset_of(free),
            taker.eager() ==> allocator.eager(),
            free.finite() ==> allocator.free_frames().finite() && allocator.free_frames().len()
                + 3 * sections_frames(sections, index as nat) >= free.len(),
            forall|frame: Frame| taker.accepts(frame) ==> allocator.accepts(frame),
            forall|table: u64| #[trigger]
                frames_of(mapper.machine@.memory, mapper.root()).contains(table) ==> frames_of(
                    before.memory,
                    mapper.root(),
                ).contains(table) || free.contains(Frame { number: table }),
            mapper@ == with_sections(view, sections, index as nat),
        decreases boot_info.sections.len() - index,
    {
        let section = &boot_info.sections[index];
        let ghost middle = mapper.machine@;
        proof {
            lemma_sections_fit_prefix(view, sections, sections.len(), (index + 1) as nat);
            lemma_sections_frames_grow(sections, (index + 1) as nat, sections.len());
        }
        if section.is_allocated() {
            let flags = EntryFlags::from_elf_section_flags(section);
            let start_frame = Frame::containing_address(section.start_address());
            let end_frame = Frame::containing_address(section.end_address() - 1);
            proof {
                if sure {
                    assert forall|page: Page| #[trigger]
                        in_frames(
                            start_frame.number,
                            Frame::range_inclusive_spec(start_frame, end_frame),
                            page,
                        ) implies mapper.covers(page) by {
                        assert(in_section(boot_info.sections@[index as int], page));
                        assert(boot_info.lists(page));
                        lemma_fitting_frames_are_low(
                            mapper@,
                            start_frame.number,
                            Frame::range_inclusive_spec(start_frame, end_frame),
                            flags.bits,
                            page,
                        );
                        lemma_low_page(page.number);
                        crate::space::lemma_edited_keeps_cover(before, middle, page);
                    }
                }
            }
            match map_frames(mapper, allocator, start_frame, end_frame, flags) {
                Ok(_) => {},
                Err(error) => {
                    proof {
                        crate::space::lemma_edited_twice(before, middle, mapper.machine@);
                        assert(boot_info.sections@[index as int].allocated());
                    }
                    return Err(error);
                },
            }
            proof {
                crate::space::lemma_edited_twice(before, middle, mapper.machine@);
                if free.finite() {
                    vstd::set_lib::lemma_len_subset(allocator.free_frames(), free);
                }
            }
        }
        index += 1;
    }
    let ghost mapped = mapper.machine@;
    let vga_buffer_frame = Frame::containing_address(VGA_BUFFER);
    proof {
        lemma_low_page(0xb8);
        assert(with_frames(mapper@, 0xb8, 0, WRITABLE) == mapper@);
        assert(!mapper@.contains_key(Page { number: 0xb8 }));
        assert(!mapper.blocked(Page { number: 0xb8 }));
        if sure {
            assert(boot_info.lists(Page { number: 0xb8 }));
            crate::space::lemma_edited_keeps_cover(before, mapped, Page { number: 0xb8 });
        }
    }
    match mapper.identity_map(vga_buffer_frame, EntryFlags { bits: WRITABLE }, allocator) {
        Ok(_) => {},
        Err(error) => {
            proof {
                crate::space::lemma_edited_twice(before, mapped, mapper.machine@);
            }
            return Err(error);
        },
    }
    let ghost shown = mapper.machine@;
    proof {
        crate::space::lemma_edited_twice(before, mapped, shown);
        assert(mapper@ == with_frames(
            with_sections(view, sections, sections.len()),
            0xb8,
            1,
            WRITABLE,
        ));
    }
    let multiboot_start = Frame::containing_address(boot_info.start_address());
    let multiboot_end = Frame::containing_address(boot_info.end_address() - 1);
    proof {
        if sure {
            assert forall|page: Page| #[trigger]
                in_frames(
                    multiboot_start.number,
                    Frame::range_inclusive_spec(multiboot_start, multiboot_end),
                    page,
                ) implies mapper.covers(page) by {
                assert(boot_info.lists(page));
                lemma_fitting_frames_are_low(
                    mapper@,
                    multiboot_start.number,
                    Frame::range_inclusive_spec(multiboot_start, multiboot_end),
                    PRESENT,
                    page,
                );
                lemma_low_page(page.number);
                crate::space::lemma_edited_keeps_cover(before, shown, page);
            }
        }
    }
    let result = map_frames(
        mapper,
        allocator,
        multiboot_start,
        multiboot_end,
        EntryFlags { bits: PRESENT },
    );
    proof {
        crate::space::lemma_edited_twice(before, shown, mapper.machine@);
    }
    result
}

/// The number of the page that the kernel remap uses as its temporary page.
pub const TEMPORARY_PAGE: u64 = 0xcafebabe;

/// Every page of `view` is mapped to the frame of its own number.
pub open spec fn identity_view(view: Map<Page, Entry>) -> bool {
    forall|page: Page| #[trigger]
        view.contains_key(page) ==> view[page].frame() == Some(Frame { number: page.number })
}

/// Frames mapped to themselves keep a view an identity view.
pub proof fn lemma_frames_identity(view: Map<Page, Entry>, first: u64, count: nat, flags: u64)
    requires
        identity_view(view),
        frames_fit(view, first, count, flags),
    ensures
        identity_view(with_frames(view, first, count, flags)),
    decreases count,
{
    if count > 0 {
        lemma_frames_identity(view, first, (count - 1) as nat, flags);
        let number = (first + count - 1) as u64;
        lemma_compose(number, flags | PRESENT);
        assert((flags | 0x1) & 0x1 == 0x1) by (bit_vector);
    }
}

/// Sections mapped frame by frame keep a view an identity view.
pub proof fn lemma_sections_identity(view: Map<Page, Entry>, sections: Seq<Section>, count: nat)
    requires
        identity_view(view),
        sections_fit(view, sections, count),
    ensures
        identity_view(with_sections(view, sections, count)),
    decreases count,
{
    if count > 0 {
        lemma_sections_identity(view, sections, (count - 1) as nat);
        let section = sections[count - 1];
        if section.allocated() {
            lemma_frames_identity(
                with_sections(view, sections, (count - 1) as nat),
                section.first_frame(),
                section.frame_count(),
                EntryFlags::of_section(section),
            );
        }
    }
}

/// The kernel's address space maps every page to the frame of its own
/// number.
pub proof fn lemma_kernel_identity(boot_info: BootInfo)
    requires
        boot_info.fits_onto(Map::empty()),
    ensures
        identity_view(boot_info.mapped_onto(Map::empty())),
{
    let sections = boot_info.sections@;
    let empty = Map::<Page, Entry>::empty();
    lemma_sections_identity(empty, sections, sections.len());
    let first = with_sections(empty, sections, sections.len());
    lemma_frames_identity(first, 0xb8, 1, WRITABLE);
    lemma_frames_identity(
        with_frames(first, 0xb8, 1, WRITABLE),
        boot_info.start / 4096,
        frame_span(boot_info.start, boot_info.end),
        PRESENT,
    );
}

/// What `with` hands over is fit for mapping the kernel: the inactive table
/// is empty and holds no huge page, and the allocator's frames can become
/// its tables.
pub proof fn lemma_task_ready(
    before: State,
    table: InactivePageTable,
    reserve: Set<Frame>,
    state: State,
    free: Set<Frame>,
)
    requires
        lent(before, table, reserve, state),
        frames_of(before.memory, table.p4_frame.number) == set![table.p4_frame.number],
        plain(before.memory, table.p4_frame.number),
        mappings(before.memory, table.p4_frame.number) == Map::<Page, Entry>::empty(),
        forall|frame: Frame| #[trigger]
            free.contains(frame) ==> frame.valid() && backed(before.memory, frame.number)
                && !frames_of(before.memory, before.base).contains(frame.number)
                && !reserve.contains(frame) && frame.number != table.p4_frame.number,
    ensures
        can_take(state, free),
        plain(state.memory, root_of(state)),
        mappings(state.memory, root_of(state)) == Map::<Page, Entry>::empty(),
{
    assert forall|frame: Frame| #[trigger] free.contains(frame) implies frame.valid() && backed(
        state.memory,
        frame.number,
    ) && !frames_of(state.memory, state.base).contains(frame.number) && !frames_of(
        state.memory,
        root_of(state),
    ).contains(frame.number) by {
        assert(frame == Frame { number: frame.number });
        if frames_of(state.memory, state.base).contains(frame.number) {
            assert(reserve.contains(Frame { number: frame.number }));
        }
        assert(state.memory[frame.number] == before.memory[frame.number]);
        assert(before.memory.dom().contains(frame.number));
        assert(state.memory.dom().contains(frame.number));
    }
}

/// The frames that the task could take from, `with` being over, the new
/// active table will be able to take from: they hold none of the new table's
/// tables, and `with` has not touched them.
pub proof fn lemma_takes_after_task(state: State, table: InactivePageTable, free: Set<Frame>)
    requires
        table.wf(state),
        exists|left: State|
            crate::active::given_back(left, state) && root_of(left) == table.p4_frame.number
                && #[trigger] can_take(left, free),
    ensures
        forall|frame: Frame| #[trigger]
            free.contains(frame) ==> frame.valid() && backed(state.memory, frame.number)
                && !frames_of(state.memory, table.p4_frame.number).contains(frame.number),
{
    let left = choose|left: State|
        crate::active::given_back(left, state) && root_of(left) == table.p4_frame.number
            && #[trigger] can_take(left, free);
    assert forall|frame: Frame| #[trigger] free.contains(frame) implies frame.valid() && backed(
        state.memory,
        frame.number,
    ) && !frames_of(state.memory, table.p4_frame.number).contains(frame.number) by {
        assert(state.memory[frame.number] == left.memory[frame.number]);
        assert(left.memory.dom().contains(frame.number));
        assert(state.memory.dom().contains(frame.number));
    }
}

/// Builds a new address space that maps what the kernel needs and nothing
/// else, and switches to it.
///
/// The temporary page takes three frames from `allocator`, and a fourth
/// becomes the new level-4 table; `remap_into` does the rest.
///
/// The active table is handed back in either case. Where the allocator runs
/// out of frames, it is the old one, which maps what it mapped: an address
/// space that is not complete is never made the active one. An eager
/// allocator with four frames, and three more for every frame that is
/// mapped, suffices.
///
/// The temporary page must lack two tables on its way at least. Its frames
/// hold those tables afterwards, and room is left among them for the two
/// level-4 tables that are unmapped from it in turn.
pub fn remap_the_kernel<M: Machine, A: FrameAllocator>(
    machine: M,
    allocator: &mut A,
    boot_info: &BootInfo,
) -> (result: (ActivePageTable<M>, Result<(), OutOfFrames>))
    requires
        space_ok(machine@),
        root_of(machine@) == machine@.base,
        old(allocator).wf(),
        can_take(machine@, old(allocator).free_frames()),
        walk(machine@.memory, machine@.base, Page { number: TEMPORARY_PAGE }) == None::<u64>,
        !blocked(machine@.memory, machine@.base, Page { number: TEMPORARY_PAGE }),
        table2(machine@.memory, machine@.base, Page { number: TEMPORARY_PAGE }) == None::<u64>,
        boot_info.fits_onto(Map::empty()),
        machine@.base < 0x8_0000_0000,
        boot_info.mapped_onto(Map::empty()).contains_key(Page { number: machine@.base }),
        old(allocator).accepts(Frame { number: machine@.base }),
    ensures
        final(allocator).wf(),
        final(allocator).free_frames().subset_of(
            old(allocator).free_frames().insert(Frame { number: machine@.base }),
        ),
        old(allocator).eager() ==> final(allocator).eager(),
        old(allocator).eager()
            && old(allocator).free_frames().finite()
            && old(allocator).free_frames().len() >= 4 + 3 * boot_info.frame_total()
            ==> (result.1 is Ok),
        result.0.wf(),
        match result.1 {
            Ok(_) => {
                &&& result.0@ == boot_info.mapped_onto(Map::empty()).remove(
                    Page { number: machine@.base },
                )
                &&& old(allocator).free_frames().contains(
                    Frame { number: result.0.mapper.machine@.base },
                )
                &&& result.0.mapper.machine@.base != machine@.base
                &&& result.0.mapper.can_take(final(allocator).free_frames())
            },
            Err(_) => {
                &&& result.0@ == mappings(machine@.memory, machine@.base)
                &&& result.0.mapper.machine@.base == machine@.base
            },
        },
{
    let ghost start = machine@;
    let ghost base = start.base;
    proof {
        lemma_low_page(TEMPORARY_PAGE);
        crate::tree::lemma_tables_backed(start.memory, base);
    }
    let mut temporary_page = TemporaryPage::new(Page { number: TEMPORARY_PAGE }, allocator);
    let mut active_table = ActivePageTable::new(machine);
    match allocator.allocate_frame() {
        Some(frame) => {
            let result = remap_into(
                &mut active_table,
                &mut temporary_page,
                frame,
                allocator,
                boot_info,
            );
            (active_table, result)
        },
        None => (active_table, Err(OutOfFrames)),
    }
}

/// What `remap_the_kernel` does with the frame that the allocator handed
/// out: makes it an empty level-4 table through the temporary page; maps in
/// it, through `with`, what the kernel needs; makes it the active table;
/// and unmaps in it the page of the old level-4 table, whose frame goes to
/// the allocator. Where a table is wanting, the old table stays the active
/// one and maps what it mapped.
pub fn remap_into<M: Machine, A: FrameAllocator>(
    active_table: &mut ActivePageTable<M>,
    temporary_page: &mut TemporaryPage,
    frame: Frame,
    allocator: &mut A,
    boot_info: &BootInfo,
) -> (result: Result<(), OutOfFrames>)
    requires
        old(active_table).wf(),
        old(allocator).wf(),
        old(temporary_page).ready(old(active_table).mapper),
        table2(
            old(active_table).mapper.machine@.memory,
            old(active_table).mapper.machine@.base,
            old(temporary_page).page,
        ) == None::<u64>,
        frame.valid(),
        backed(old(active_table).mapper.machine@.memory, frame.number),
        !old(active_table).mapper.tables().contains(frame.number),
        !old(temporary_page).allocator.free_frames().contains(frame),
        !old(allocator).free_frames().contains(frame),
        old(active_table).mapper.can_take(old(allocator).free_frames()),
        forall|free: Frame| #[trigger]
            old(allocator).free_frames().contains(free)
                ==> !old(temporary_page).allocator.free_frames().contains(free),
        boot_info.fits_onto(Map::empty()),
        old(active_table).mapper.machine@.base < 0x8_0000_0000,
        boot_info.mapped_onto(Map::empty()).contains_key(
            Page { number: old(active_table).mapper.machine@.base },
        ),
        old(allocator).accepts(Frame { number: old(active_table).mapper.machine@.base }),
    ensures
        final(active_table).wf(),
        final(allocator).wf(),
        final(temporary_page).page == old(temporary_page).page,
        final(temporary_page).allocator.wf(),
        final(allocator).free_frames().subset_of(
            old(allocator).free_frames().insert(
                Frame { number: old(active_table).mapper.machine@.base },
            ),
        ),
        old(allocator).eager() ==> final(allocator).eager(),
        old(temporary_page).allocator.free_frames().len() >= old(active_table).mapper.missing(
            old(temporary_page).page,
        ) && old(allocator).eager() && old(allocator).free_frames().finite()
            && old(allocator).free_frames().len() >= 3 * boot_info.frame_total()
            ==> (result is Ok),
        match result {
            Ok(_) => {
                &&& final(active_table)@ == boot_info.mapped_onto(Map::empty()).remove(
                    Page { number: old(active_table).mapper.machine@.base },
                )
                &&& final(active_table).mapper.machine@.base == frame.number
                &&& final(active_table).mapper.can_take(final(allocator).free_frames())
                &&& final(allocator).free_frames().contains(
                    Frame { number: old(active_table).mapper.machine@.base },
                )
            },
            Err(_) => {
                &&& final(active_table)@ == old(active_table)@
                &&& final(active_table).mapper.machine@.base
                    == old(active_table).mapper.machine@.base
            },
        },
{
    let ghost start = active_table.mapper.machine@;
    let ghost base = start.base;
    proof {
        lemma_low_page(base);
        crate::tree::lemma_tables_backed(start.memory, base);
        lemma_kernel_identity(*boot_info);
        temporary_page.allocator.lemma_slots();
    }
    let mut new_table = match InactivePageTable::new(frame, active_table, temporary_page) {
        Ok(table) => table,
        Err(error) => {
            return Err(error);
        },
    };
    let ghost made = active_table.mapper.machine@;
    let ghost held = temporary_page.allocator.free_frames();
    let ghost left = allocator.free_frames();
    let ghost lender = *allocator;
    let ghost inactive = new_table;
    let task = |mapper: &mut Mapper<M>, allocator: &mut A| -> (mapped: Result<(), OutOfFrames>)
        requires
            (*mapper).wf(),
            (*allocator).wf(),
            (*mapper).plain(),
            (*mapper).can_take((*allocator).free_frames()),
            boot_info.fits_onto((*mapper)@),
        ensures
            (*final(mapper)).wf(),
            (*final(allocator)).wf(),
            edited((*old(mapper)).machine@, (*final(mapper)).machine@),
            (*final(mapper)).can_take((*final(allocator)).free_frames()),
            (*final(allocator)).free_frames().subset_of((*old(allocator)).free_frames()),
            forall|frame: Frame|
                (*old(allocator)).accepts(frame) ==> (*final(allocator)).accepts(frame),
            (*old(allocator)).eager() ==> (*final(allocator)).eager(),
            (*old(allocator)).eager()
                && (*old(allocator)).free_frames().finite()
                && (*old(allocator)).free_frames().len() >= 3 * boot_info.frame_total()
                ==> (mapped is Ok),
            (mapped is Ok) ==> (*final(mapper))@ == boot_info.mapped_onto((*old(mapper))@),
        { map_kernel(mapper, allocator, boot_info) };
    proof {
        assert forall|m: &mut Mapper<M>, c: &mut A|
            lent(made, inactive, held, (*m).machine@) && *c == lender implies call_requires(
            task,
            (m, c),
        ) by {
            lemma_task_ready(made, inactive, held, (*m).machine@, left);
        }
    }
    let mapped = active_table.with(&mut new_table, temporary_page, allocator, task);
    let ghost turned = active_table.mapper.machine@;
    match mapped {
        Ok(Ok(_)) => {},
        Ok(Err(error)) => {
            return Err(error);
        },
        Err(error) => {
            return Err(error);
        },
    }
    proof {
        lemma_takes_after_task(turned, new_table, allocator.free_frames());
    }
    let old_table = active_table.switch(new_table);
    let ghost switched = active_table.mapper.machine@;
    let old_p4_page = Page::containing_address(old_table.p4_frame.start_address());
    proof {
        assert(old_p4_page == Page { number: base });
        assert(active_table@ == boot_info.mapped_onto(Map::empty()));
        assert(active_table@[old_p4_page].frame() == Some(Frame { number: base }));
        crate::tree::lemma_tables_backed(switched.memory, base);
        assert(can_take(switched, allocator.free_frames().insert(Frame { number: base })));
    }
    let ghost asked = allocator.free_frames();
    active_table.mapper.unmap(old_p4_page, allocator);
    proof {
        let last = active_table.mapper.machine@;
        crate::mapper::lemma_edit_keeps_takes(
            switched,
            last,
            asked.insert(Frame { number: base }),
        );
    }
    Ok(())
}

/// What `test_paging` saw.
#[derive(Debug, Clone, Copy, PartialEq, Eq, Structural)]
pub struct PagingReport {
    /// The translation of the test address before it was mapped.
    pub before: Option<u64>,
    /// The frame that the test address was mapped to.
    pub frame: Frame,
    /// The translation of the test address while it was mapped.
    pub mapped: Option<u64>,
    /// What the allocator handed out next.
    pub next_free: Option<Frame>,
    /// The translation of the test address after it was unmapped.
    pub after: Option<u64>,
}

/// The address that `test_paging` maps: the first of the 42nd entry of the
/// first level-3 table.
pub const TEST_ADDRESS: u64 = 42 * 512 * 512 * 4096;

/// Maps the test address to a frame from `allocator`, translates it, asks
/// the allocator for its next frame, and unmaps the test address again,
/// which hands the frame back. It fails where the allocator hands out no
/// frame for the test address, or none for a table that is missing on the
/// way to it.
pub fn test_paging<M: Machine, A: FrameAllocator>(
    page_table: &mut ActivePageTable<M>,
    allocator: &mut A,
) -> (result: Result<PagingReport, OutOfFrames>)
    requires
        old(page_table).wf(),
        old(allocator).wf(),
        old(page_table).mapper.can_take(old(allocator).free_frames()),
        !old(page_table)@.contains_key(Page::containing(TEST_ADDRESS)),
        !old(page_table).mapper.blocked(Page::containing(TEST_ADDRESS)),
        forall|frame: Frame| #[trigger]
            old(allocator).free_frames().contains(frame) ==> old(allocator).accepts(frame),
    ensures
        final(page_table).wf(),
        final(allocator).wf(),
        final(page_table)@ == old(page_table)@,
        edited(old(page_table).mapper.machine@, final(page_table).mapper.machine@),
        final(allocator).free_frames().subset_of(old(allocator).free_frames()),
        old(allocator).eager() ==> final(allocator).eager(),
        old(allocator).eager() && old(allocator).free_frames().finite()
            && old(allocator).free_frames().len() >= old(page_table).mapper.missing(
            Page::containing(TEST_ADDRESS),
        ) + 1 ==> (result is Ok),
        match result {
            Ok(report) => {
                &&& old(allocator).free_frames().finite()
                    ==> final(allocator).free_frames().len() + old(page_table).mapper.missing(
                    Page::containing(TEST_ADDRESS),
                ) + asked(report.next_free) == old(allocator).free_frames().len()
                &&& old(allocator).eager() && old(allocator).free_frames().finite() ==> (
                report.next_free is None <==> old(allocator).free_frames().len()
                    == old(page_table).mapper.missing(Page::containing(TEST_ADDRESS)) + 1)
                &&& report.before == None::<u64>
                &&& old(allocator).free_frames().contains(report.frame)
                &&& report.mapped == Some((report.frame.number * 4096) as u64)
                &&& report.after == None::<u64>
                &&& final(allocator).free_frames().contains(report.frame)
                &&& match report.next_free {
                    Some(next) => old(allocator).free_frames().contains(next) && next
                        != report.frame && !final(allocator).free_frames().contains(next),
                    None => true,
                }
                &&& old(page_table).mapper.covers(Page::containing(TEST_ADDRESS))
                    ==> final(allocator).free_frames() == after_test(
                    old(allocator).free_frames(),
                    report.next_free,
                )
            },
            Err(_) => old(page_table).mapper.covers(Page::containing(TEST_ADDRESS))
                ==> final(allocator).free_frames() == old(allocator).free_frames()
                && final(page_table).mapper.machine@ == old(page_table).mapper.machine@,
        },
{
    match allocator.allocate_frame() {
        Some(frame) => {
            let ghost taken = allocator.free_frames();
            let result = test_paging_with(page_table, allocator, frame);
            proof {
                assert(taken.insert(frame) =~= old(allocator).free_frames());
                match result {
                    Ok(report) => {
                        if old(page_table).mapper.covers(Page::containing(TEST_ADDRESS)) {
                            assert(allocator.free_frames() =~= after_test(
                                old(allocator).free_frames(),
                                report.next_free,
                            ));
                        }
                    },
                    Err(_) => {},
                }
            }
            result
        },
        None => {
            proof {
                assert(edited(page_table.mapper.machine@, page_table.mapper.machine@));
            }
            Err(OutOfFrames)
        },
    }
}

/// One where the allocator handed out a next frame, none where it did not.
pub open spec fn asked(next_free: Option<Frame>) -> nat {
    match next_free {
        Some(_) => 1,
        None => 0,
    }
}

/// The frames that are free after the test where no table was missing:
/// those that were free before, but for the frame that the allocator handed
/// out next.
pub open spec fn after_test(free: Set<Frame>, next_free: Option<Frame>) -> Set<Frame> {
    match next_free {
        Some(next) => free.remove(next),
        None => free,
    }
}

/// What `test_paging` does with the frame that the allocator handed out:
/// translates the test address, maps it to `frame`, translates it again,
/// asks the allocator for its next frame, unmaps the test address, which
/// hands `frame` back, and translates it once more. It fails only where a
/// table is missing on the way to the test address and the allocator hands
/// out none; `frame` stays taken then.
pub fn test_paging_with<M: Machine, A: FrameAllocator>(
    page_table: &mut ActivePageTable<M>,
    allocator: &mut A,
    frame: Frame,
) -> (result: Result<PagingReport, OutOfFrames>)
    requires
        old(page_table).wf(),
        old(allocator).wf(),
        old(page_table).mapper.can_take(old(allocator).free_frames()),
        !old(page_table)@.contains_key(Page::containing(TEST_ADDRESS)),
        !old(page_table).mapper.blocked(Page::containing(TEST_ADDRESS)),
        frame.valid(),
        old(allocator).accepts(frame),
        !old(allocator).free_frames().contains(frame),
    ensures
        final(page_table).wf(),
        final(allocator).wf(),
        final(page_table)@ == old(page_table)@,
        edited(old(page_table).mapper.machine@, final(page_table).mapper.machine@),
        old(page_table).mapper.covers(Page::containing(TEST_ADDRESS)) ==> (result is Ok),
        old(allocator).eager() ==> final(allocator).eager(),
        old(allocator).eager() && old(allocator).free_frames().finite()
            && old(allocator).free_frames().len() >= old(page_table).mapper.missing(
            Page::containing(TEST_ADDRESS),
        ) ==> (result is Ok),
        match result {
            Ok(report) => {
                &&& old(allocator).free_frames().finite()
                    ==> final(allocator).free_frames().len() + old(page_table).mapper.missing(
                    Page::containing(TEST_ADDRESS),
                ) + asked(report.next_free) == old(allocator).free_frames().len() + 1
                &&& old(allocator).eager() && old(allocator).free_frames().finite() ==> (
                report.next_free is None <==> old(allocator).free_frames().len()
                    == old(page_table).mapper.missing(Page::containing(TEST_ADDRESS)))
                &&& report.before == None::<u64>
                &&& report.frame == frame
                &&& report.mapped == Some((frame.number * 4096) as u64)
                &&& report.after == None::<u64>
                &&& final(allocator).free_frames().subset_of(
                    old(allocator).free_frames().insert(frame),
                )
                &&& final(allocator).free_frames().contains(frame)
                &&& match report.next_free {
                    Some(next) => old(allocator).free_frames().contains(next)
                        && !final(allocator).free_frames().contains(next),
                    None => true,
                }
                &&& old(page_table).mapper.covers(Page::containing(TEST_ADDRESS))
                    ==> final(allocator).free_frames() == after_test(
                    old(allocator).free_frames(),
                    report.next_free,
                ).insert(frame)
            },
            Err(_) => final(allocator).free_frames().subset_of(old(allocator).free_frames()),
        },
{
    let addr: u64 = TEST_ADDRESS;
    let page = Page::containing_address(addr);
    proof {
        lemma_low_page(page.number);
    }
    let ghost start = page_table.mapper.machine@;
    let before = page_table.mapper.translate(addr);
    match page_table.mapper.map_to(page, frame, EntryFlags::empty(), allocator) {
        Ok(_) => {},
        Err(error) => {
            return Err(error);
        },
    }
    proof {
        lemma_compose(frame.number, 0 | PRESENT);
        assert((0u64 | 0x1) & 0x1 == 0x1) by (bit_vector);
    }
    let mapped = page_table.mapper.translate(addr);
    let ghost middle = page_table.mapper.machine@;
    let ghost left = allocator.free_frames();
    let next_free = allocator.allocate_frame();
    let ghost rest = allocator.free_frames();
    page_table.mapper.unmap(Page::containing_address(addr), allocator);
    let after = page_table.mapper.translate(addr);
    proof {
        crate::space::lemma_edited_twice(start, middle, page_table.mapper.machine@);
        assert(page_table@ =~= old(page_table)@);
        if old(allocator).free_frames().finite() {
            let missing = old(page_table).mapper.missing(page);
            assert(left.len() + missing == old(allocator).free_frames().len());
            vstd::set_lib::lemma_len_subset(left, old(allocator).free_frames());
            assert(rest.len() + asked(next_free) == left.len());
            assert(!rest.contains(frame));
            assert(allocator.free_frames() == rest.insert(frame));
            assert(allocator.free_frames().len() == rest.len() + 1);
            if old(allocator).eager() {
                assert(next_free is None <==> left.len() == 0) by {
                    if left.len() == 0 {
                        assert(left =~= Set::<Frame>::empty()) by {
                            if exists|f: Frame| left.contains(f) {
                                let f = choose|f: Frame| left.contains(f);
                                assert(left.remove(f).len() + 1 == left.len());
                            }
                        }
                    }
                }
            }
        }
        if old(page_table).mapper.covers(page) {
            assert(allocator.free_frames() =~= after_test(
                old(allocator).free_frames(),
                next_free,
            ).insert(frame));
        }
    }
    Ok(PagingReport { before, frame, mapped, next_free, after })
}

} // verus!
