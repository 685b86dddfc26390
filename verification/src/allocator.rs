//! The source of physical frames.

use vstd::prelude::*;
use crate::frame::Frame;

verus! {

/// No frame was left when one was needed.
#[derive(Debug, Clone, Copy, PartialEq, Eq, Structural)]
pub struct OutOfFrames;

/// Hands out physical frames and takes them back.
///
/// What is proved of the library holds of an allocator whose operations keep
/// these contracts for the frames that `free_frames` gives it. An
/// implementation outside of verified code leaves the descriptions below
/// as they are, and its author answers for the contracts: that a frame
/// which was handed out is not handed out again before it came back, and
/// that the frames handed out can hold tables.
pub trait FrameAllocator {
    /// The allocator's own records are in order.
    open spec fn wf(&self) -> bool {
        true
    }

    /// The frames that the allocator may hand out.
    open spec fn free_frames(&self) -> Set<Frame> {
        Set::empty()
    }

    /// Whether the allocator can take `frame` back.
    open spec fn accepts(&self, frame: Frame) -> bool {
        true
    }

    /// The allocator refuses no frame while one is free. Not every allocator
    /// says so of itself; of one that does, the library can say when mapping
    /// succeeds.
    open spec fn eager(&self) -> bool {
        false
    }

    /// Hands out a free frame, if there is one. A frame that was handed out
    /// is free no more.
    fn allocate_frame(&mut self) -> (frame: Option<Frame>)
        requires
            old(self).wf(),
        ensures
            final(self).wf(),
            match frame {
                Some(f) => old(self).free_frames().contains(f) && final(self).free_frames()
                    == old(self).free_frames().remove(f),
                None => final(self).free_frames() == old(self).free_frames(),
            },
            forall|f: Frame| old(self).accepts(f) ==> final(self).accepts(f),
            old(self).eager() ==> final(self).eager(),
            old(self).eager() && frame is None ==> old(self).free_frames() == Set::<Frame>::empty(),
    ;

    /// Takes `frame` back: it is free again.
    fn deallocate_frame(&mut self, frame: Frame)
        requires
            old(self).wf(),
            old(self).accepts(frame),
            !old(self).free_frames().contains(frame),
        ensures
            final(self).wf(),
            final(self).free_frames() == old(self).free_frames().insert(frame),
            old(self).eager() ==> final(self).eager(),
    ;
}

} // verus!
