//! A bitmap over physical frames: one bit per frame, set while the frame
//! is held by some owner.
use vstd::prelude::*;

verus! {

/// Size of one physical frame in bytes.
pub const FRAME_BYTES: usize = 4096;

/// Number of frames in one bitmap word.
pub const BITS_PER_MAP_LINE: usize = 64;

/// Number of frames the bitmap can describe (128 GiB of physical memory).
pub const FRAME_COUNTS: usize = 33554432;

/// Number of words in the bitmap.
pub const MAP_LINES: usize = FRAME_COUNTS / BITS_PER_MAP_LINE;

/// Bit `b` of the word `w`.
pub open spec fn word_bit(w: u64, b: u64) -> bool {
    (w >> b) & 1u64 == 1u64
}

/// `bits` with every index in `[start, start + n)` set to `v`.
pub open spec fn set_range(bits: Seq<bool>, start: int, n: int, v: bool) -> Seq<bool> {
    Seq::new(bits.len(), |i: int| if start <= i < start + n { v } else { bits[i] })
}

/// Frames `[s, s + n)` all lie below `end` and are all free in `bits`.
pub open spec fn fits(bits: Seq<bool>, end: int, s: int, n: int) -> bool {
    0 <= s && s + n <= end && forall|i: int| s <= i < s + n ==> !#[trigger] bits[i]
}

/// `s` is the lowest index at or above `begin` where `n` free frames fit.
pub open spec fn is_first_fit(bits: Seq<bool>, begin: int, end: int, n: int, s: int) -> bool {
    &&& begin <= s
    &&& fits(bits, end, s, n)
    &&& forall|t: int| begin <= t < s ==> !#[trigger] fits(bits, end, t, n)
}

/// Some run of `n` free frames starts at or above `begin` and ends by `end`.
pub open spec fn has_fit(bits: Seq<bool>, begin: int, end: int, n: int) -> bool {
    exists|s: int| begin <= s && #[trigger] fits(bits, end, s, n)
}

/// One firmware descriptor of usable RAM, `[phys_start, phys_end)` in bytes.
#[derive(Clone, Copy, Debug, PartialEq, Eq)]
pub struct MemoryRegion {
    pub phys_start: u64,
    pub phys_end: u64,
}

/// Where the usable RAM before descriptor `k` ends (0 before the first).
pub open spec fn prev_end(regions: Seq<MemoryRegion>, k: int) -> int {
    if k == 0 {
        0
    } else {
        regions[k - 1].phys_end as int
    }
}

/// Frame `f` overlaps the gap between descriptor `k - 1` (or address 0)
/// and descriptor `k`.
pub open spec fn gap_covers(regions: Seq<MemoryRegion>, k: int, f: int) -> bool {
    &&& prev_end(regions, k) < regions[k].phys_start
    &&& prev_end(regions, k) / (FRAME_BYTES as int) <= f
    &&& f * (FRAME_BYTES as int) < regions[k].phys_start
}

/// Frame `f` overlaps one of the gaps before descriptor `k`.
pub open spec fn reserved_before(regions: Seq<MemoryRegion>, k: int, f: int) -> bool {
    exists|j: int| 0 <= j < k && #[trigger] gap_covers(regions, j, f)
}

/// Frame `f` is not wholly covered by usable RAM up to the last descriptor.
pub open spec fn reserved(regions: Seq<MemoryRegion>, f: int) -> bool {
    reserved_before(regions, regions.len() as int, f)
}

/// The frame bound given by the last descriptor's end, kept within the bitmap.
pub open spec fn usable_end(regions: Seq<MemoryRegion>) -> int {
    let e = prev_end(regions, regions.len() as int) / (FRAME_BYTES as int);
    if e < FRAME_COUNTS {
        e
    } else {
        FRAME_COUNTS as int
    }
}

/// A change that a caller observes on the bitmap: a run of frames it was
/// handed, or a run it gave back.
pub enum FrameEvent {
    Allocated { start: usize, n: usize },
    Freed { start: usize, n: usize },
}

/// The frames `[start, start + n)`.
pub open spec fn frame_run(start: int, n: int) -> Set<int> {
    Set::new(|i: int| start <= i < start + n)
}

/// A frame's bit is set exactly when the firmware reserved it or a caller
/// holds it.
pub open spec fn tracks(bits: Seq<bool>, reserved: Set<int>, held: Set<int>) -> bool {
    forall|i: int| 0 <= i < bits.len() ==> (#[trigger] bits[i] <==> (reserved.contains(i) || held.contains(i)))
}

/// An event that the frame manager's contracts allow: a run handed out is
/// free before, and a run given back is wholly held (no double free).
pub open spec fn event_allowed(bits: Seq<bool>, held: Set<int>, e: FrameEvent) -> bool {
    match e {
        FrameEvent::Allocated { start, n } => fits(bits, bits.len() as int, start as int, n as int),
        FrameEvent::Freed { start, n } => {
            &&& start + n <= bits.len()
            &&& frame_run(start as int, n as int).subset_of(held)
        },
    }
}

/// The bitmap and the set of held frames after one event.
pub open spec fn after_event(bits: Seq<bool>, held: Set<int>, e: FrameEvent) -> (Seq<bool>, Set<int>) {
    match e {
        FrameEvent::Allocated { start, n } => (
            set_range(bits, start as int, n as int, true),
            held.union(frame_run(start as int, n as int)),
        ),
        FrameEvent::Freed { start, n } => (
            set_range(bits, start as int, n as int, false),
            held.difference(frame_run(start as int, n as int)),
        ),
    }
}

/// Every event of `events`, taken in order from `(bits, held)`, is allowed.
pub open spec fn history_allowed(bits: Seq<bool>, held: Set<int>, events: Seq<FrameEvent>) -> bool
    decreases events.len(),
{
    if events.len() == 0 {
        true
    } else {
        let next = after_event(bits, held, events[0]);
        event_allowed(bits, held, events[0]) && history_allowed(next.0, next.1, events.drop_first())
    }
}

/// The bitmap and the set of held frames after `events`, in order.
pub open spec fn replay(bits: Seq<bool>, held: Set<int>, events: Seq<FrameEvent>) -> (Seq<bool>, Set<int>)
    decreases events.len(),
{
    if events.len() == 0 {
        (bits, held)
    } else {
        let next = after_event(bits, held, events[0]);
        replay(next.0, next.1, events.drop_first())
    }
}

/// Through any sequence of allocations and frees without a double free,
/// the set bits stay exactly the reserved frames plus the frames that
/// callers currently hold, and no held frame is ever a reserved one.
pub proof fn lemma_bitmap_tracks_holdings(
    bits: Seq<bool>,
    reserved: Set<int>,
    held: Set<int>,
    events: Seq<FrameEvent>,
)
    requires
        tracks(bits, reserved, held),
        reserved.disjoint(held),
        history_allowed(bits, held, events),
    ensures
        tracks(replay(bits, held, events).0, reserved, replay(bits, held, events).1),
        reserved.disjoint(replay(bits, held, events).1),
    decreases events.len(),
{
    if events.len() > 0 {
        let e = events[0];
        let next = after_event(bits, held, e);
        match e {
            FrameEvent::Allocated { start, n } => {
                assert forall|i: int| 0 <= i < next.0.len() implies (#[trigger] next.0[i] <==> (
                reserved.contains(i) || next.1.contains(i))) by {
                    if start <= i < start + n {
                        assert(!bits[i]);
                    }
                }
                assert forall|i: int| reserved.contains(i) implies !next.1.contains(i) by {
                    if start <= i < start + n {
                        assert(!bits[i]);
                    } else {
                        assert(!held.contains(i));
                    }
                }
            },
            FrameEvent::Freed { start, n } => {
                assert forall|i: int| 0 <= i < next.0.len() implies (#[trigger] next.0[i] <==> (
                reserved.contains(i) || next.1.contains(i))) by {
                    if start <= i < start + n {
                        assert(frame_run(start as int, n as int).contains(i));
                        assert(held.contains(i));
                    }
                }
            },
        }
        lemma_bitmap_tracks_holdings(next.0, reserved, next.1, events.drop_first());
    }
}

proof fn lemma_frame_below(f: int, s: int)
    requires
        f >= 0,
        s >= 0,
    ensures
        (f * 4096 < s) == (f < s / 4096 + (if s % 4096 != 0 { 1int } else { 0int })),
{
    assert((f * 4096 < s) == (f < s / 4096 + (if s % 4096 != 0 { 1int } else { 0int }))) by (nonlinear_arith)
        requires f >= 0, s >= 0;
}

proof fn lemma_word_bits(w: u64, b: u64, c: u64)
    requires
        b < 64,
        c < 64,
    ensures
        word_bit(w | (1u64 << b), c) == (c == b || word_bit(w, c)),
        word_bit(w & !(1u64 << b), c) == (c != b && word_bit(w, c)),
        ((w & (1u64 << b)) != 0u64) == word_bit(w, b),
{
    assert(word_bit(w | (1u64 << b), c) == (c == b || word_bit(w, c))) by (bit_vector)
        requires b < 64, c < 64;
    assert(word_bit(w & !(1u64 << b), c) == (c != b && word_bit(w, c))) by (bit_vector)
        requires b < 64, c < 64;
    assert(((w & (1u64 << b)) != 0u64) == word_bit(w, b)) by (bit_vector)
        requires b < 64;
}

proof fn lemma_zero_word(c: u64)
    requires
        c < 64,
    ensures
        !word_bit(0u64, c),
{
    assert(!word_bit(0u64, c)) by (bit_vector);
}

/// The frame bitmap: a fixed arena of words addressed by frame index.
pub struct FrameBitmap {
    words: Vec<u64>,
}

impl FrameBitmap {
    /// The bitmap is exactly `MAP_LINES` words long.
    pub closed spec fn wf(&self) -> bool {
        self.words@.len() == MAP_LINES
    }

    /// Bit `i` of the sequence is set exactly when frame `i` is held.
    pub closed spec fn view(&self) -> Seq<bool> {
        Seq::new(
            FRAME_COUNTS as nat,
            |i: int| word_bit(self.words@[i / 64], (i % 64) as u64),
        )
    }

    pub proof fn lemma_view_len(&self)
        ensures
            self@.len() == FRAME_COUNTS,
    {
    }

    /// A bitmap with every frame free.
    pub fn new() -> (r: FrameBitmap)
        ensures
            r.wf(),
            r@ == Seq::new(FRAME_COUNTS as nat, |i: int| false),
    {
        let r = FrameBitmap { words: vec![0u64; MAP_LINES] };
        proof {
            assert forall|i: int| 0 <= i < FRAME_COUNTS implies !r@[i] by {
                lemma_zero_word((i % 64) as u64);
            }
            assert(r@ =~= Seq::new(FRAME_COUNTS as nat, |i: int| false));
        }
        r
    }

    /// Whether frame `index` is held.
    pub fn get_bit(&self, index: usize) -> (r: bool)
        requires
            self.wf(),
            index < FRAME_COUNTS,
        ensures
            r == self@[index as int],
    {
        let line_index = index / BITS_PER_MAP_LINE;
        let bit_index = (index % BITS_PER_MAP_LINE) as u64;
        proof {
            lemma_word_bits(self.words@[line_index as int], bit_index, bit_index);
        }
        (self.words[line_index] & (1u64 << bit_index)) != 0
    }

    /// Records frame `index` as held (`allocated`) or free.
    pub fn set_bit(&mut self, index: usize, allocated: bool)
        requires
            old(self).wf(),
            index < FRAME_COUNTS,
        ensures
            final(self).wf(),
            final(self)@ == old(self)@.update(index as int, allocated),
    {
        let line_index = index / BITS_PER_MAP_LINE;
        let bit_index = (index % BITS_PER_MAP_LINE) as u64;
        let w = self.words[line_index];
        if allocated {
            self.words[line_index] = w | (1u64 << bit_index);
        } else {
            self.words[line_index] = w & !(1u64 << bit_index);
        }
        proof {
            let old_view = old(self)@;
            assert forall|i: int| 0 <= i < FRAME_COUNTS implies #[trigger] self@[i] == old_view.update(
                index as int,
                allocated,
            )[i] by {
                if i / 64 == line_index {
                    lemma_word_bits(w, bit_index, (i % 64) as u64);
                }
            }
            assert(self@ =~= old_view.update(index as int, allocated));
        }
    }

    /// Sets every frame in `[start, start + n)` to `allocated`.
    pub fn set_range(&mut self, start: usize, n: usize, allocated: bool)
        requires
            old(self).wf(),
            start + n <= FRAME_COUNTS,
        ensures
            final(self).wf(),
            final(self)@ == set_range(old(self)@, start as int, n as int, allocated),
    {
        let mut i: usize = 0;
        while i < n
            invariant
                self.wf(),
                i <= n,
                start + n <= FRAME_COUNTS,
                self@ == set_range(old(self)@, start as int, i as int, allocated),
            decreases n - i,
        {
            self.set_bit(start + i, allocated);
            i += 1;
            assert(self@ =~= set_range(old(self)@, start as int, i as int, allocated));
        }
    }

    /// Finds the lowest run of `num_frames` free frames in `[begin, end)`
    /// and marks it held. After a held frame is met behind `i` free ones,
    /// the search resumes just past that held frame.
    pub fn allocate_first_fit(&mut self, begin: usize, end: usize, num_frames: usize) -> (r: Option<
        usize,
    >)
        requires
            old(self).wf(),
            end <= FRAME_COUNTS,
        ensures
            final(self).wf(),
            match r {
                Some(s) => {
                    &&& is_first_fit(old(self)@, begin as int, end as int, num_frames as int, s as int)
                    &&& final(self)@ == set_range(old(self)@, s as int, num_frames as int, true)
                },
                None => {
                    &&& !has_fit(old(self)@, begin as int, end as int, num_frames as int)
                    &&& final(self)@ == old(self)@
                },
            },
    {
        let ghost bits = self@;
        let ghost n = num_frames as int;
        if begin > end {
            assert(!has_fit(bits, begin as int, end as int, n));
            return None;
        }
        let mut frame = begin;
        loop
            invariant
                self.wf(),
                self@ == bits,
                bits == old(self)@,
                n == num_frames,
                begin <= frame <= end,
                end <= FRAME_COUNTS,
                forall|t: int| begin <= t < frame ==> !#[trigger] fits(bits, end as int, t, n),
            decreases end - frame,
        {
            if num_frames > end - frame {
                assert forall|t: int| begin <= t implies !#[trigger] fits(bits, end as int, t, n) by {
                    if t >= frame {
                        assert(t + n > end);
                    }
                }
                return None;
            }
            let mut i: usize = 0;
            let mut blocked = false;
            while i < num_frames && !blocked
                invariant
                    self.wf(),
                    self@ == bits,
                    frame + num_frames <= end,
                    end <= FRAME_COUNTS,
                    i <= num_frames,
                    forall|j: int| frame <= j < frame + i ==> !#[trigger] bits[j],
                    blocked ==> i < num_frames && bits[frame + i],
                decreases num_frames - i + (if blocked { 0int } else { 1int }),
            {
                if self.get_bit(frame + i) {
                    blocked = true;
                } else {
                    i += 1;
                }
            }
            if !blocked {
                self.set_range(frame, num_frames, true);
                return Some(frame);
            }
            assert forall|t: int| begin <= t < frame + i + 1 implies !#[trigger] fits(
                bits,
                end as int,
                t,
                n,
            ) by {
                if t >= frame {
                    assert(bits[frame + i]);
                }
            }
            frame = frame + i + 1;
        }
    }

    /// Marks held every frame that overlaps a gap before, or between, the
    /// descriptors of usable RAM; returns the frame bound that the last
    /// descriptor's end gives.
    pub fn reserve_gaps(&mut self, regions: &[MemoryRegion]) -> (end: usize)
        requires
            old(self).wf(),
        ensures
            final(self).wf(),
            final(self)@ == Seq::new(
                FRAME_COUNTS as nat,
                |f: int| old(self)@[f] || reserved(regions@, f),
            ),
            end == usable_end(regions@),
    {
        let mut available_end: u64 = 0;
        let mut k: usize = 0;
        while k < regions.len()
            invariant
                self.wf(),
                k <= regions@.len(),
                available_end == prev_end(regions@, k as int),
                self@ == Seq::new(
                    FRAME_COUNTS as nat,
                    |f: int| old(self)@[f] || reserved_before(regions@, k as int, f),
                ),
            decreases regions@.len() - k,
        {
            let d = regions[k];
            let ghost before = self@;
            let mut lo: usize = FRAME_COUNTS;
            let mut hi: usize = FRAME_COUNTS;
            if available_end < d.phys_start {
                let lo_frame: u64 = available_end / 4096;
                let hi_frame: u64 = d.phys_start / 4096 + if d.phys_start % 4096 != 0 {
                    1
                } else {
                    0
                };
                if lo_frame < FRAME_COUNTS as u64 {
                    lo = lo_frame as usize;
                }
                if hi_frame < FRAME_COUNTS as u64 {
                    hi = hi_frame as usize;
                }
                if lo < hi {
                    self.set_range(lo, hi - lo, true);
                }
                proof {
                    assert forall|f: int| 0 <= f < FRAME_COUNTS implies gap_covers(regions@, k as int, f)
                        == (lo <= f < hi) by {
                        lemma_frame_below(f, d.phys_start as int);
                    }
                }
            }
            available_end = d.phys_end;
            k += 1;
            proof {
                let target = Seq::new(
                    FRAME_COUNTS as nat,
                    |f: int| old(self)@[f] || reserved_before(regions@, k as int, f),
                );
                assert forall|f: int| 0 <= f < FRAME_COUNTS implies #[trigger] self@[f] == target[f] by {
                    if gap_covers(regions@, k - 1, f) {
                        assert(reserved_before(regions@, k as int, f));
                    }
                    if reserved_before(regions@, k as int, f) && !gap_covers(regions@, k - 1, f) {
                        let j = choose|j: int| 0 <= j < k && #[trigger] gap_covers(regions@, j, f);
                        assert(reserved_before(regions@, k - 1, f));
                    }
                    if reserved_before(regions@, k - 1, f) {
                        let j = choose|j: int| 0 <= j < k - 1 && #[trigger] gap_covers(regions@, j, f);
                        assert(reserved_before(regions@, k as int, f));
                    }
                }
                assert(self@ =~= target);
            }
        }
        assert(available_end == prev_end(regions@, regions@.len() as int));
        let e = available_end / 4096;
        if e < FRAME_COUNTS as u64 {
            e as usize
        } else {
            FRAME_COUNTS
        }
    }
}

} // verus!
