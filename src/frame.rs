//! The frame manager behind the heap: frame 0 is never handed out, so a
//! frame's address is never the null address.
use vstd::prelude::*;

verus! {

use crate::bitmap::{
    FrameBitmap, MemoryRegion, FRAME_COUNTS, set_range, is_first_fit, has_fit, reserved,
    usable_end,
};

/// The lowest frame index this manager hands out.
pub const FRAME_MIN: usize = 1;

/// Tracks which frames of `[begin, end)` are held, one bit per frame.
pub struct BitMapFrameManager {
    alloc_map: FrameBitmap,
    begin: usize,
    end: usize,
}

impl BitMapFrameManager {
    pub closed spec fn wf(&self) -> bool {
        &&& self.alloc_map.wf()
        &&& self.begin == FRAME_MIN
        &&& self.end <= FRAME_COUNTS
    }

    /// Held state of every frame the bitmap describes.
    pub closed spec fn held(&self) -> Seq<bool> {
        self.alloc_map@
    }

    /// Lowest frame index that may be handed out.
    pub closed spec fn lower(&self) -> int {
        self.begin as int
    }

    /// Frame index one past the highest that may be handed out.
    pub closed spec fn upper(&self) -> int {
        self.end as int
    }

    /// The bitmap covers every frame, the range starts at `FRAME_MIN` and ends
    /// within the bitmap.
    pub proof fn lemma_held_len(&self)
        requires
            self.wf(),
        ensures
            self.held().len() == FRAME_COUNTS,
            self.lower() == FRAME_MIN,
            self.upper() <= FRAME_COUNTS,
    {
        self.alloc_map.lemma_view_len();
    }

    /// A manager with every frame free and the whole bitmap in range.
    pub fn new() -> (r: Self)
        ensures
            r.wf(),
            r.held() == Seq::new(FRAME_COUNTS as nat, |i: int| false),
            r.lower() == FRAME_MIN,
            r.upper() == FRAME_COUNTS,
    {
        BitMapFrameManager { alloc_map: FrameBitmap::new(), begin: FRAME_MIN, end: FRAME_COUNTS }
    }

    /// Reads the firmware memory map: every frame outside usable RAM is
    /// marked held, and the upper bound becomes the last descriptor's end.
    pub fn init(&mut self, regions: &[MemoryRegion])
        requires
            old(self).wf(),
        ensures
            final(self).wf(),
            final(self).held() == Seq::new(
                FRAME_COUNTS as nat,
                |f: int| old(self).held()[f] || reserved(regions@, f),
            ),
            final(self).lower() == old(self).lower(),
            final(self).upper() == usable_end(regions@),
    {
        self.end = self.alloc_map.reserve_gaps(regions);
    }

    /// Marks the `frame_num` frames from `start_frame_id` as held.
    pub fn mark_allocated(&mut self, start_frame_id: usize, frame_num: usize)
        requires
            old(self).wf(),
            start_frame_id + frame_num <= FRAME_COUNTS,
        ensures
            final(self).wf(),
            final(self).held() == set_range(
                old(self).held(),
                start_frame_id as int,
                frame_num as int,
                true,
            ),
            final(self).lower() == old(self).lower(),
            final(self).upper() == old(self).upper(),
    {
        self.alloc_map.set_range(start_frame_id, frame_num, true);
    }

    /// Whether frame `index` is held.
    pub fn get_bit(&self, index: usize) -> (r: bool)
        requires
            self.wf(),
            index < FRAME_COUNTS,
        ensures
            r == self.held()[index as int],
    {
        self.alloc_map.get_bit(index)
    }

    /// Takes the lowest run of `num_frames` free frames in `[begin, end)`;
    /// `None` when no such run exists, and then nothing changes.
    pub fn allocate(&mut self, num_frames: usize) -> (r: Option<usize>)
        requires
            old(self).wf(),
        ensures
            final(self).wf(),
            final(self).lower() == old(self).lower(),
            final(self).upper() == old(self).upper(),
            match r {
                Some(s) => {
                    &&& forall|i: int|
                        s <= i < s + num_frames ==> !#[trigger] old(self).held()[i]
                    &&& is_first_fit(
                        old(self).held(),
                        old(self).lower(),
                        old(self).upper(),
                        num_frames as int,
                        s as int,
                    )
                    &&& final(self).held() == set_range(
                        old(self).held(),
                        s as int,
                        num_frames as int,
                        true,
                    )
                },
                None => {
                    &&& !has_fit(
                        old(self).held(),
                        old(self).lower(),
                        old(self).upper(),
                        num_frames as int,
                    )
                    &&& final(self).held() == old(self).held()
                },
            },
    {
        self.alloc_map.allocate_first_fit(self.begin, self.end, num_frames)
    }

    /// Returns the `num_frames` frames from `frame` to the free pool. The
    /// caller must hold them: a frame freed twice is not detected.
    pub fn free(&mut self, frame: usize, num_frames: usize)
        requires
            old(self).wf(),
            frame + num_frames <= FRAME_COUNTS,
        ensures
            final(self).wf(),
            final(self).held() == set_range(old(self).held(), frame as int, num_frames as int, false),
            final(self).lower() == old(self).lower(),
            final(self).upper() == old(self).upper(),
    {
        self.alloc_map.set_range(frame, num_frames, false);
    }
}

} // verus!
