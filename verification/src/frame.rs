//! Physical frames.

use vstd::prelude::*;

verus! {

/// A physical frame, named by its number: its first address divided by the
/// frame size.
#[derive(Debug, Clone, Copy, PartialEq, Eq, PartialOrd, Ord, Structural)]
pub struct Frame {
    pub number: u64,
}

impl Frame {
    /// The frame numbers that fit the address field of a table entry.
    pub open spec fn valid(self) -> bool {
        self.number < 0x100_0000_0000
    }

    /// The frame that holds `address`.
    pub open spec fn containing(address: u64) -> Frame {
        Frame { number: address / 4096 }
    }

    /// The first address of the frame.
    pub open spec fn start(self) -> int {
        self.number * 4096
    }

    /// The number of frames from `start` to `end`, both included.
    pub open spec fn range_inclusive_spec(start: Frame, end: Frame) -> nat {
        if start.number <= end.number {
            (end.number - start.number + 1) as nat
        } else {
            0
        }
    }

    /// The frame that holds the physical address `address`.
    pub fn containing_address(address: u64) -> (frame: Frame)
        ensures
            frame == Frame::containing(address),
            frame.number <= 0xf_ffff_ffff_ffff,
    {
        Frame { number: address / 4096 }
    }

    /// The first address of the frame.
    pub fn start_address(&self) -> (address: u64)
        requires
            self.number <= 0xf_ffff_ffff_ffff,
        ensures
            address == self.start(),
            address % 4096 == 0,
    {
        self.number * 4096
    }

    /// The frames from `start` to `end`, both included, in rising order.
    pub fn range_inclusive(start: Frame, end: Frame) -> (frames: FrameIter)
        ensures
            frames.start == start,
            frames.end == end,
    {
        FrameIter { start, end }
    }
}

/// The frames that are left of an inclusive range.
pub struct FrameIter {
    pub start: Frame,
    pub end: Frame,
}

impl FrameIter {
    /// The frames still to come, in the order in which `next` hands them out.
    pub open spec fn view(self) -> Seq<Frame> {
        if self.start.number <= self.end.number {
            Seq::new(
                (self.end.number - self.start.number + 1) as nat,
                |i: int| Frame { number: (self.start.number + i) as u64 },
            )
        } else {
            Seq::empty()
        }
    }

    /// Hands out the first frame that is left, if any.
    pub fn next(&mut self) -> (frame: Option<Frame>)
        requires
            old(self).end.number < u64::MAX,
        ensures
            final(self).end == old(self).end,
            match frame {
                Some(f) => {
                    &&& old(self)@.len() > 0
                    &&& f == old(self)@[0]
                    &&& f == old(self).start
                    &&& final(self)@ == old(self)@.drop_first()
                    &&& final(self).start.number == old(self).start.number + 1
                },
                None => old(self)@.len() == 0 && *final(self) == *old(self),
            },
    {
        if self.start.number <= self.end.number {
            let frame = self.start;
            self.start.number += 1;
            assert(self@ =~= old(self)@.drop_first());
            Some(frame)
        } else {
            None
        }
    }
}

} // verus!
