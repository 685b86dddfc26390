//! The allocator that a temporary page maps itself with.

use vstd::prelude::*;
use crate::allocator::FrameAllocator;
use crate::frame::Frame;

verus! {

/// `set` with the frame of `slot`, if it holds one.
pub open spec fn with_slot(set: Set<Frame>, slot: Option<Frame>) -> Set<Frame> {
    match slot {
        Some(frame) => set.insert(frame),
        None => set,
    }
}

/// An allocator of at most three frames: enough for the level-3, level-2 and
/// level-1 table of one page.
pub struct TinyAllocator {
    frames: [Option<Frame>; 3],
}

impl TinyAllocator {

    /// The three slots.
    pub closed spec fn slots(self) -> Seq<Option<Frame>> {
        self.frames@
    }

    /// There are three slots.
    pub proof fn lemma_slots(self)
        ensures
            self.slots().len() == 3,
            self.free_frames() == with_slot(
                with_slot(with_slot(Set::empty(), self.slots()[0]), self.slots()[1]),
                self.slots()[2],
            ),
            self.free_frames().finite(),
            self.free_frames().len() <= 3,
    {
    }

    /// Takes up to three frames from `allocator`.
    pub fn new<A: FrameAllocator>(allocator: &mut A) -> (tiny: TinyAllocator)
        requires
            old(allocator).wf(),
        ensures
            final(allocator).wf(),
            tiny.wf(),
            tiny.free_frames().subset_of(old(allocator).free_frames()),
            final(allocator).free_frames() == old(allocator).free_frames().difference(
                tiny.free_frames(),
            ),
            forall|frame: Frame| old(allocator).accepts(frame) ==> final(allocator).accepts(frame),
            tiny.free_frames().finite(),
            tiny.free_frames().len() <= 3,
            old(allocator).eager() ==> final(allocator).eager(),
            old(allocator).free_frames().finite() ==> final(allocator).free_frames().finite()
                && final(allocator).free_frames().len() + tiny.free_frames().len()
                    == old(allocator).free_frames().len(),
            old(allocator).eager()
                && old(allocator).free_frames().finite()
                && old(allocator).free_frames().len() >= 3
                ==> tiny.free_frames().len() == 3,
    {
        let first = allocator.allocate_frame();
        let second = allocator.allocate_frame();
        let third = allocator.allocate_frame();
        let tiny = TinyAllocator { frames: [first, second, third] };
        proof {
            assert(final(allocator).free_frames() =~= old(allocator).free_frames().difference(
                tiny.free_frames(),
            ));
        }
        tiny
    }
}

impl FrameAllocator for TinyAllocator {
    /// No frame is held twice.
    closed spec fn wf(&self) -> bool {
        &&& self.frames[0] is Some ==> self.frames[0] != self.frames[1] && self.frames[0]
            != self.frames[2]
        &&& self.frames[1] is Some ==> self.frames[1] != self.frames[2]
    }

    closed spec fn free_frames(&self) -> Set<Frame> {
        with_slot(
            with_slot(with_slot(Set::empty(), self.frames[0]), self.frames[1]),
            self.frames[2],
        )
    }

    /// The allocator takes a frame back while it holds fewer than three.
    open spec fn accepts(&self, frame: Frame) -> bool {
        self.free_frames().len() < 3
    }

    /// It hands out a frame whenever it holds one.
    open spec fn eager(&self) -> bool {
        true
    }

    /// Hands out the frame of the first slot that holds one.
    fn allocate_frame(&mut self) -> (frame: Option<Frame>)
        ensures
            frame is None <==> old(self).free_frames() == Set::<Frame>::empty(),
    {
        let mut index: usize = 0;
        while index < 3
            invariant
                index <= 3,
                *self == *old(self),
                old(self).wf(),
                forall|i: int| 0 <= i < index ==> self.frames[i] is None,
            decreases 3 - index,
        {
            if self.frames[index].is_some() {
                let frame = self.frames[index];
                self.frames[index] = None;
                proof {
                    assert(self.frames@ == old(self).frames@.update(index as int, None));
                    assert(forall|i: int|
                        0 <= i < 3 ==> self.frames[i] == if i == index {
                            None
                        } else {
                            old(self).frames[i]
                        });
                    assert(self.free_frames() =~= old(self).free_frames().remove(frame.unwrap()));
                }
                return frame;
            }
            index += 1;
        }
        proof {
            assert(self.free_frames() =~= Set::<Frame>::empty());
        }
        None
    }

    fn deallocate_frame(&mut self, frame: Frame) {
        let mut index: usize = 0;
        while index < 3
            invariant
                index <= 3,
                *self == *old(self),
                old(self).wf(),
                old(self).accepts(frame),
                !old(self).free_frames().contains(frame),
                forall|i: int| 0 <= i < index ==> self.frames[i] is Some,
            decreases 3 - index,
        {
            if self.frames[index].is_none() {
                self.frames[index] = Some(frame);
                proof {
                    assert(self.frames@ == old(self).frames@.update(index as int, Some(frame)));
                    assert(forall|i: int|
                        0 <= i < 3 ==> self.frames[i] == if i == index {
                            Some(frame)
                        } else {
                            old(self).frames[i]
                        });
                    assert(self.free_frames() =~= old(self).free_frames().insert(frame));
                }
                return ;
            }
            index += 1;
        }
        proof {
            let a = self.frames[0].unwrap();
            let b = self.frames[1].unwrap();
            let c = self.frames[2].unwrap();
            assert(self.free_frames() == Set::<Frame>::empty().insert(a).insert(b).insert(c));
            assert(self.free_frames().len() == 3);
        }
    }
}

} // verus!
