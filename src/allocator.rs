//! The heap allocator: segregated free lists over fixed size classes,
//! refilled one frame at a time from the frame manager.
use vstd::prelude::*;
use x86_64::VirtAddr;

verus! {

use crate::bitmap::{FRAME_BYTES, FRAME_COUNTS, set_range, is_first_fit, has_fit};
use crate::frame::BitMapFrameManager;
use vstd::arithmetic::div_mod::lemma_fundamental_div_mod_converse;

/// Number of size classes.
pub const CLASS_COUNT: usize = 9;

/// The largest block size served from a size class.
pub const MAX_BLOCK_SIZE: usize = 2048;

/// Block size of class `k`: 8, 16, 32, ..., 2048 bytes.
pub open spec fn class_size(k: int) -> int {
    if k == 0 {
        8
    } else if k == 1 {
        16
    } else if k == 2 {
        32
    } else if k == 3 {
        64
    } else if k == 4 {
        128
    } else if k == 5 {
        256
    } else if k == 6 {
        512
    } else if k == 7 {
        1024
    } else {
        2048
    }
}

/// The block size a request of `size` bytes aligned to `align` needs.
pub open spec fn required_size(size: int, align: int) -> int {
    if size >= align {
        size
    } else {
        align
    }
}

/// Class `k` is the smallest one whose blocks hold `required` bytes.
pub open spec fn is_class_for(required: int, k: int) -> bool {
    &&& 0 <= k < CLASS_COUNT
    &&& class_size(k) >= required
    &&& (k == 0 || class_size(k - 1) < required)
}

/// The size class serving `(size, align)`, if any.
pub open spec fn class_for(size: int, align: int) -> Option<int> {
    let req = required_size(size, align);
    if req <= MAX_BLOCK_SIZE {
        Some(choose|k: int| is_class_for(req, k))
    } else {
        None
    }
}

/// The blocks a fresh frame at `base` adds to class `k`, the block at
/// `base` itself excluded; the last element is the lowest block.
pub open spec fn carved(base: int, k: int) -> Seq<u64> {
    let bs = class_size(k);
    let n = FRAME_BYTES as int / bs;
    Seq::new((n - 1) as nat, |j: int| (base + (n - 1 - j) * bs) as u64)
}

/// `lists` after the head block of class `k` is taken.
pub open spec fn pop_block(lists: Seq<Seq<u64>>, k: int) -> Seq<Seq<u64>> {
    lists.update(k, lists[k].drop_last())
}

/// `lists` after block `p` is given back to class `k`.
pub open spec fn push_block(lists: Seq<Seq<u64>>, k: int, p: u64) -> Seq<Seq<u64>> {
    lists.update(k, lists[k].push(p))
}

/// `p` is the address of the frame that a frame manager with held bits
/// `before` and range `[lower, upper)` hands out first for one frame, and
/// `after` is `before` with that frame held.
pub open spec fn took_first_frame(
    before: Seq<bool>,
    lower: int,
    upper: int,
    after: Seq<bool>,
    p: u64,
) -> bool {
    &&& p % (FRAME_BYTES as u64) == 0
    &&& is_first_fit(before, lower, upper, 1, p as int / (FRAME_BYTES as int))
    &&& after == set_range(before, p as int / (FRAME_BYTES as int), 1, true)
}

/// The outcome of an allocation from an empty class `k`: when the frame
/// manager has a free frame, the first one is taken, its first block is
/// returned and the rest become the class's free list; otherwise the
/// request fails with `OutOfMemory` and nothing changes.
pub open spec fn refilled(
    before: Seq<bool>,
    lower: int,
    upper: int,
    after: Seq<bool>,
    lists: Seq<Seq<u64>>,
    lists_after: Seq<Seq<u64>>,
    k: int,
    r: Result<u64, AllocError>,
) -> bool {
    if has_fit(before, lower, upper, 1) {
        match r {
            Ok(p) => {
                &&& took_first_frame(before, lower, upper, after, p)
                &&& lists_after == lists.update(k, carved(p as int, k))
            },
            Err(_) => false,
        }
    } else {
        &&& r == Err::<u64, AllocError>(AllocError::OutOfMemory)
        &&& after == before
        &&& lists_after == lists
    }
}

/// The outcome of a whole-frame allocation: the first free frame when
/// there is one, otherwise `OutOfMemory` with nothing changed.
pub open spec fn whole_frame(
    before: Seq<bool>,
    lower: int,
    upper: int,
    after: Seq<bool>,
    r: Result<u64, AllocError>,
) -> bool {
    if has_fit(before, lower, upper, 1) {
        match r {
            Ok(p) => took_first_frame(before, lower, upper, after, p),
            Err(_) => false,
        }
    } else {
        &&& r == Err::<u64, AllocError>(AllocError::OutOfMemory)
        &&& after == before
    }
}

/// Why a heap request failed.
#[derive(Clone, Copy, Debug, PartialEq, Eq, Structural)]
pub enum AllocError {
    /// The frame manager has no free frame left.
    OutOfMemory,
    /// Larger than every size class and not exactly one frame.
    Unsupported,
}

/// Relies on x86_64::VirtAddr::new, which returns a canonical address
/// unchanged, and on VirtAddr::as_u64, which gives it back.
#[verifier::external_body]
fn virt_addr(addr: u64) -> (r: u64)
    requires
        addr < 0x8000_0000_0000,
    ensures
        r == addr,
{
    VirtAddr::new(addr).as_u64()
}

proof fn lemma_class_for(size: int, align: int, k: int)
    requires
        is_class_for(required_size(size, align), k),
    ensures
        class_for(size, align) == Some(k),
{
    let req = required_size(size, align);
    let c = choose|c: int| is_class_for(req, c);
    assert(is_class_for(req, c));
    if c < k {
        assert(class_size(c) <= class_size(k - 1));
    } else if c > k {
        assert(class_size(k) <= class_size(c - 1));
    }
}

/// Block `p` lies in a frame that `held` marks as held.
pub open spec fn in_held_frame(held: Seq<bool>, p: u64) -> bool {
    &&& p as int / (FRAME_BYTES as int) < held.len()
    &&& held[p as int / (FRAME_BYTES as int)]
}

/// Block `p` is on one of the free lists.
pub open spec fn on_free_list(lists: Seq<Seq<u64>>, p: u64) -> bool {
    exists|k: int, i: int| 0 <= k < lists.len() && 0 <= i < lists[k].len() && #[trigger] lists[k][i] == p
}

/// The free lists are sound against the frame bitmap `held`: every free
/// block is aligned to its class size and lies in a held frame; no block
/// is free twice; and blocks of different classes never share a frame,
/// so no two free blocks overlap.
pub open spec fn free_lists_sound(lists: Seq<Seq<u64>>, held: Seq<bool>) -> bool {
    &&& lists.len() == CLASS_COUNT
    &&& forall|k: int, i: int|
        0 <= k < CLASS_COUNT && 0 <= i < lists[k].len() ==> {
            &&& #[trigger] lists[k][i] as int % class_size(k) == 0
            &&& in_held_frame(held, lists[k][i])
        }
    &&& forall|k1: int, i1: int, k2: int, i2: int|
        0 <= k1 < CLASS_COUNT && 0 <= k2 < CLASS_COUNT && 0 <= i1 < lists[k1].len() && 0 <= i2
            < lists[k2].len() && (k1 != k2 || i1 != i2) ==> {
            &&& #[trigger] lists[k1][i1] != #[trigger] lists[k2][i2]
            &&& k1 != k2 ==> lists[k1][i1] as int / (FRAME_BYTES as int) != lists[k2][i2] as int / (
            FRAME_BYTES as int)
        }
}

/// No free block of a class other than `k` lies in the frame of `p`
/// (with `k` outside the classes: no free block at all).
pub open spec fn frame_unshared(lists: Seq<Seq<u64>>, k: int, p: u64) -> bool {
    forall|k2: int, i2: int|
        0 <= k2 < lists.len() && k2 != k && 0 <= i2 < lists[k2].len() ==> #[trigger] lists[k2][i2] as int
            / (FRAME_BYTES as int) != p as int / (FRAME_BYTES as int)
}

/// Block `p` may go back onto the free list of class `k`: it is aligned to
/// the class size, lies in a held frame, is not free already, and shares
/// its frame with no free block of another class.
pub open spec fn returnable(lists: Seq<Seq<u64>>, held: Seq<bool>, k: int, p: u64) -> bool {
    &&& p as int % class_size(k) == 0
    &&& in_held_frame(held, p)
    &&& !on_free_list(lists, p)
    &&& frame_unshared(lists, k, p)
}

proof fn lemma_sound_pop(lists: Seq<Seq<u64>>, held: Seq<bool>, k: int)
    requires
        free_lists_sound(lists, held),
        0 <= k < CLASS_COUNT,
        lists[k].len() > 0,
    ensures
        free_lists_sound(pop_block(lists, k), held),
        returnable(pop_block(lists, k), held, k, lists[k].last()),
{
    let l2 = pop_block(lists, k);
    let p = lists[k].last();
    assert forall|k1: int, i1: int| 0 <= k1 < CLASS_COUNT && 0 <= i1 < l2[k1].len() implies #[trigger] l2[k1][i1]
        == lists[k1][i1] by {}
    let last = lists[k].len() - 1;
    if on_free_list(l2, p) {
        let (k1, i1) = choose|k1: int, i1: int| 0 <= k1 < l2.len() && 0 <= i1 < l2[k1].len() && #[trigger] l2[k1][i1] == p;
        assert(lists[k1][i1] == lists[k][last]);
    }
    assert(lists[k][last] as int % class_size(k) == 0);
    assert(in_held_frame(held, lists[k][last]));
    assert forall|k2: int, i2: int| 0 <= k2 < l2.len() && k2 != k && 0 <= i2 < l2[k2].len() implies #[trigger] l2[k2][i2] as int
        / (FRAME_BYTES as int) != p as int / (FRAME_BYTES as int) by {
        assert(l2[k2][i2] == lists[k2][i2]);
        assert(lists[k2][i2] != lists[k][last]);
    }
}

proof fn lemma_sound_grow(lists: Seq<Seq<u64>>, held: Seq<bool>, held2: Seq<bool>)
    requires
        free_lists_sound(lists, held),
        held2.len() == held.len(),
        forall|i: int| 0 <= i < held.len() && held[i] ==> #[trigger] held2[i],
    ensures
        free_lists_sound(lists, held2),
{
    assert forall|k: int, i: int| 0 <= k < CLASS_COUNT && 0 <= i < lists[k].len() implies in_held_frame(
        held2,
        #[trigger] lists[k][i],
    ) by {
        assert(in_held_frame(held, lists[k][i]));
    }
}

proof fn lemma_carved_block(f: int, k: int, m: int)
    requires
        0 <= f < FRAME_COUNTS,
        0 <= k < CLASS_COUNT,
        0 <= m < FRAME_BYTES as int / class_size(k) - 1,
    ensures
        carved(f * 4096, k)[m] as int == f * 4096 + (FRAME_BYTES as int / class_size(k) - 1 - m)
            * class_size(k),
        carved(f * 4096, k)[m] as int / 4096 == f,
        carved(f * 4096, k)[m] as int % class_size(k) == 0,
        carved(f * 4096, k)[m] as int != f * 4096,
{
    let bs = class_size(k);
    let n = 4096int / bs;
    let j = n - 1 - m;
    assert(n * bs == 4096) by {
        if k == 0 {
        } else if k == 1 {
        } else if k == 2 {
        } else if k == 3 {
        } else if k == 4 {
        } else if k == 5 {
        } else if k == 6 {
        } else if k == 7 {
        } else {
        }
    }
    assert(1 <= j < n);
    assert(bs <= j * bs < 4096) by (nonlinear_arith)
        requires
            1 <= j < n,
            n * bs == 4096,
            bs > 0,
    ;
    lemma_fundamental_div_mod_converse(f * 4096 + j * bs, 4096, f, j * bs);
    assert((f * n + j) * bs == f * 4096 + j * bs) by (nonlinear_arith)
        requires
            n * bs == 4096,
    ;
    lemma_fundamental_div_mod_converse(f * 4096 + j * bs, bs, f * n + j, 0);
}

proof fn lemma_sound_refill(lists: Seq<Seq<u64>>, held: Seq<bool>, k: int, f: int)
    requires
        free_lists_sound(lists, held),
        0 <= k < CLASS_COUNT,
        lists[k].len() == 0,
        held.len() == FRAME_COUNTS,
        0 <= f < FRAME_COUNTS,
        !held[f],
    ensures
        free_lists_sound(lists.update(k, carved(f * 4096, k)), set_range(held, f, 1, true)),
        returnable(lists.update(k, carved(f * 4096, k)), set_range(held, f, 1, true), k, (f * 4096) as u64),
{
    let c = carved(f * 4096, k);
    let l2 = lists.update(k, c);
    let h2 = set_range(held, f, 1, true);
    assert forall|m: int| 0 <= m < c.len() implies (#[trigger] c[m]) as int / 4096 == f && c[m] as int
        % class_size(k) == 0 && c[m] as int != f * 4096 && c[m] as int == f * 4096 + (FRAME_BYTES as int
        / class_size(k) - 1 - m) * class_size(k) by {
        lemma_carved_block(f, k, m);
    }
    assert forall|k1: int, i1: int| 0 <= k1 < CLASS_COUNT && 0 <= i1 < l2[k1].len() implies {
        &&& #[trigger] l2[k1][i1] as int % class_size(k1) == 0
        &&& in_held_frame(h2, l2[k1][i1])
    } by {
        if k1 != k {
            assert(in_held_frame(held, lists[k1][i1]));
        }
    }
    assert forall|k1: int, i1: int, k2: int, i2: int|
        0 <= k1 < CLASS_COUNT && 0 <= k2 < CLASS_COUNT && 0 <= i1 < l2[k1].len() && 0 <= i2
            < l2[k2].len() && (k1 != k2 || i1 != i2) implies {
        &&& #[trigger] l2[k1][i1] != #[trigger] l2[k2][i2]
        &&& k1 != k2 ==> l2[k1][i1] as int / (FRAME_BYTES as int) != l2[k2][i2] as int / (
        FRAME_BYTES as int)
    } by {
        if k1 == k && k2 != k {
            assert(in_held_frame(held, lists[k2][i2]));
        } else if k2 == k && k1 != k {
            assert(in_held_frame(held, lists[k1][i1]));
        } else if k1 != k && k2 != k {
            assert(lists[k1][i1] == l2[k1][i1]);
            assert(lists[k2][i2] == l2[k2][i2]);
        } else if i1 != i2 {
            let n = FRAME_BYTES as int / class_size(k);
            let bs = class_size(k);
            assert((n - 1 - i1) * bs != (n - 1 - i2) * bs) by (nonlinear_arith)
                requires
                    i1 != i2,
                    bs > 0,
            ;
        }
    }
    if on_free_list(l2, (f * 4096) as u64) {
        let (k1, i1) = choose|k1: int, i1: int| 0 <= k1 < l2.len() && 0 <= i1 < l2[k1].len() && #[trigger] l2[k1][i1] == (f * 4096) as u64;
        if k1 != k {
            assert(in_held_frame(held, lists[k1][i1]));
        }
    }
    assert forall|k2: int, i2: int| 0 <= k2 < l2.len() && k2 != k && 0 <= i2 < l2[k2].len() implies #[trigger] l2[k2][i2] as int
        / (FRAME_BYTES as int) != ((f * 4096) as u64) as int / (FRAME_BYTES as int) by {
        assert(in_held_frame(held, lists[k2][i2]));
    }
    lemma_frame_aligned(f, k);
}

proof fn lemma_frame_aligned(f: int, k: int)
    requires
        0 <= f < FRAME_COUNTS,
        0 <= k < CLASS_COUNT,
    ensures
        (f * 4096) as u64 as int == f * 4096,
        ((f * 4096) as u64) as int / 4096 == f,
        (f * 4096) % class_size(k) == 0,
{
    let bs = class_size(k);
    let n = 4096int / bs;
    assert(n * bs == 4096) by {
        if k == 0 {
        } else if k == 1 {
        } else if k == 2 {
        } else if k == 3 {
        } else if k == 4 {
        } else if k == 5 {
        } else if k == 6 {
        } else if k == 7 {
        } else {
        }
    }
    assert((f * n) * bs == f * 4096) by (nonlinear_arith)
        requires
            n * bs == 4096,
    ;
    lemma_fundamental_div_mod_converse(f * 4096, bs, f * n, 0);
    lemma_fundamental_div_mod_converse(f * 4096, 4096, f, 0);
}

proof fn lemma_fresh_frame_not_free(lists: Seq<Seq<u64>>, held: Seq<bool>, f: int)
    requires
        free_lists_sound(lists, held),
        held.len() == FRAME_COUNTS,
        0 <= f < FRAME_COUNTS,
        !held[f],
    ensures
        !on_free_list(lists, (f * 4096) as u64),
        frame_unshared(lists, -1, (f * 4096) as u64),
{
    if on_free_list(lists, (f * 4096) as u64) {
        let (k1, i1) = choose|k1: int, i1: int| 0 <= k1 < lists.len() && 0 <= i1 < lists[k1].len() && #[trigger] lists[k1][i1] == (f * 4096) as u64;
        assert(in_held_frame(held, lists[k1][i1]));
        assert(f * 4096 < 0x1_0000_0000_0000_0000);
    }
    assert(f * 4096 < 0x1_0000_0000_0000_0000);
    assert(((f * 4096) as u64) as int / 4096 == f);
    assert forall|k2: int, i2: int| 0 <= k2 < lists.len() && k2 != -1 && 0 <= i2 < lists[k2].len() implies #[trigger] lists[k2][i2] as int
        / (FRAME_BYTES as int) != ((f * 4096) as u64) as int / (FRAME_BYTES as int) by {
        assert(in_held_frame(held, lists[k2][i2]));
    }
}

/// Giving back a block that may go back onto its class's list keeps the
/// free lists sound.
pub proof fn lemma_dealloc_keeps_sound(lists: Seq<Seq<u64>>, held: Seq<bool>, k: int, p: u64)
    requires
        free_lists_sound(lists, held),
        0 <= k < CLASS_COUNT,
        returnable(lists, held, k, p),
    ensures
        free_lists_sound(push_block(lists, k, p), held),
{
    let l2 = push_block(lists, k, p);
    let last = lists[k].len() as int;
    assert forall|k1: int, i1: int| 0 <= k1 < CLASS_COUNT && 0 <= i1 < l2[k1].len() && !(k1 == k && i1
        == last) implies #[trigger] l2[k1][i1] == lists[k1][i1] by {}
    assert forall|k1: int, i1: int, k2: int, i2: int|
        0 <= k1 < CLASS_COUNT && 0 <= k2 < CLASS_COUNT && 0 <= i1 < l2[k1].len() && 0 <= i2
            < l2[k2].len() && (k1 != k2 || i1 != i2) implies {
        &&& #[trigger] l2[k1][i1] != #[trigger] l2[k2][i2]
        &&& k1 != k2 ==> l2[k1][i1] as int / (FRAME_BYTES as int) != l2[k2][i2] as int / (
        FRAME_BYTES as int)
    } by {
        if k1 == k && i1 == last {
            assert(l2[k2][i2] == lists[k2][i2]);
        } else if k2 == k && i2 == last {
            assert(l2[k1][i1] == lists[k1][i1]);
        } else {
            assert(l2[k1][i1] == lists[k1][i1]);
            assert(l2[k2][i2] == lists[k2][i2]);
        }
    }
}

/// Returning to the frame manager a frame that holds no free block keeps
/// the free lists sound.
pub proof fn lemma_frame_free_keeps_sound(lists: Seq<Seq<u64>>, held: Seq<bool>, p: u64)
    requires
        free_lists_sound(lists, held),
        frame_unshared(lists, -1, p),
    ensures
        free_lists_sound(lists, set_range(held, p as int / (FRAME_BYTES as int), 1, false)),
{
    let h2 = set_range(held, p as int / (FRAME_BYTES as int), 1, false);
    assert forall|k: int, i: int| 0 <= k < CLASS_COUNT && 0 <= i < lists[k].len() implies in_held_frame(
        h2,
        #[trigger] lists[k][i],
    ) by {
        assert(in_held_frame(held, lists[k][i]));
    }
}

/// Giving a block back to its class and then asking for the same shape
/// again hands out that very block, and leaves the free lists as they were
/// before the block was given back.
pub proof fn lemma_dealloc_then_alloc(lists: Seq<Seq<u64>>, k: int, p: u64)
    requires
        0 <= k < lists.len(),
    ensures
        push_block(lists, k, p)[k].len() > 0,
        push_block(lists, k, p)[k].last() == p,
        pop_block(push_block(lists, k, p), k) == lists,
{
    assert(lists[k].push(p).drop_last() =~= lists[k]);
    assert(pop_block(push_block(lists, k, p), k) =~= lists);
}

/// Block size of class `index`.
pub fn block_size(index: usize) -> (r: usize)
    requires
        index < CLASS_COUNT,
    ensures
        r == class_size(index as int),
{
    if index == 0 {
        8
    } else if index == 1 {
        16
    } else if index == 2 {
        32
    } else if index == 3 {
        64
    } else if index == 4 {
        128
    } else if index == 5 {
        256
    } else if index == 6 {
        512
    } else if index == 7 {
        1024
    } else {
        2048
    }
}

/// The size class that serves a request of `size` bytes aligned to
/// `align`: the smallest whose block holds `max(size, align)` bytes.
pub fn list_index(size: usize, align: usize) -> (r: Option<usize>)
    ensures
        match r {
            Some(k) => {
                &&& is_class_for(required_size(size as int, align as int), k as int)
                &&& class_for(size as int, align as int) == Some(k as int)
            },
            None => {
                &&& required_size(size as int, align as int) > MAX_BLOCK_SIZE
                &&& class_for(size as int, align as int) is None
            },
        },
{
    let required = if size >= align {
        size
    } else {
        align
    };
    let mut k: usize = 0;
    while k < CLASS_COUNT
        invariant
            k <= CLASS_COUNT,
            required == required_size(size as int, align as int),
            forall|j: int| 0 <= j < k ==> class_size(j) < required,
        decreases CLASS_COUNT - k,
    {
        if block_size(k) >= required {
            proof {
                lemma_class_for(size as int, align as int, k as int);
            }
            return Some(k);
        }
        k += 1;
    }
    assert(class_size(8) < required);
    None
}

/// The heap allocator's state: one free list per size class. The last
/// element of a list is its head, the block handed out next.
pub struct KernelAllocator {
    list_heads: Vec<Vec<u64>>,
}

impl KernelAllocator {
    pub closed spec fn wf(&self) -> bool {
        self.list_heads@.len() == CLASS_COUNT
    }

    /// The free blocks of each class, head last.
    pub closed spec fn free_lists(&self) -> Seq<Seq<u64>> {
        self.list_heads@.map_values(|l: Vec<u64>| l@)
    }

    pub proof fn lemma_free_lists_len(&self)
        requires
            self.wf(),
        ensures
            self.free_lists().len() == CLASS_COUNT,
    {
    }

    /// An allocator with every free list empty.
    pub fn new() -> (r: Self)
        ensures
            r.wf(),
            r.free_lists() == Seq::new(CLASS_COUNT as nat, |k: int| Seq::<u64>::empty()),
            forall|held: Seq<bool>| free_lists_sound(r.free_lists(), held),
    {
        let mut list_heads: Vec<Vec<u64>> = Vec::new();
        let mut k: usize = 0;
        while k < CLASS_COUNT
            invariant
                k <= CLASS_COUNT,
                list_heads@.len() == k,
                forall|j: int| 0 <= j < k ==> (#[trigger] list_heads@[j])@ == Seq::<u64>::empty(),
            decreases CLASS_COUNT - k,
        {
            list_heads.push(Vec::new());
            k += 1;
        }
        let r = KernelAllocator { list_heads };
        assert(r.free_lists() =~= Seq::new(CLASS_COUNT as nat, |k: int| Seq::<u64>::empty()));
        r
    }

    /// Takes one frame from `frames`, cuts it into blocks of class `index`
    /// and threads all but the first block onto that class's free list,
    /// lowest address at the head; returns the first block's address.
    fn allocate_frame_for_block(&mut self, frames: &mut BitMapFrameManager, index: usize) -> (r:
        Option<u64>)
        requires
            old(self).wf(),
            old(frames).wf(),
            index < CLASS_COUNT,
        ensures
            final(self).wf(),
            final(frames).wf(),
            final(frames).lower() == old(frames).lower(),
            final(frames).upper() == old(frames).upper(),
            match r {
                Some(p) => {
                    &&& took_first_frame(
                        old(frames).held(),
                        old(frames).lower(),
                        old(frames).upper(),
                        final(frames).held(),
                        p,
                    )
                    &&& final(self).free_lists() == old(self).free_lists().update(
                        index as int,
                        old(self).free_lists()[index as int] + carved(p as int, index as int),
                    )
                },
                None => {
                    &&& !has_fit(old(frames).held(), old(frames).lower(), old(frames).upper(), 1)
                    &&& final(frames).held() == old(frames).held()
                    &&& final(self).free_lists() == old(self).free_lists()
                },
            },
    {
        let block_size = block_size(index) as u64;
        let num_blocks_per_frame = FRAME_BYTES as u64 / block_size;
        let frame = match frames.allocate(1) {
            Some(frame) => frame,
            None => {
                return None;
            },
        };
        proof {
            frames.lemma_held_len();
        }
        let base = virt_addr(frame as u64 * FRAME_BYTES as u64);
        let ghost lists0 = self.free_lists();
        assert(num_blocks_per_frame >= 2) by (nonlinear_arith)
            requires
                num_blocks_per_frame == 4096int / (block_size as int),
                0 < block_size <= 2048,
        ;
        let mut pushed: u64 = 0;
        while pushed < num_blocks_per_frame - 1
            invariant
                self.wf(),
                index < CLASS_COUNT,
                block_size == class_size(index as int),
                num_blocks_per_frame == FRAME_BYTES as int / block_size as int,
                base < 0x8000_0000_0000,
                lists0.len() == CLASS_COUNT,
                pushed <= num_blocks_per_frame - 1,
                self.free_lists() == lists0.update(
                    index as int,
                    lists0[index as int] + carved(base as int, index as int).take(pushed as int),
                ),
            decreases num_blocks_per_frame - 1 - pushed,
        {
            let i = num_blocks_per_frame - 1 - pushed;
            assert(i * block_size < 4096) by (nonlinear_arith)
                requires
                    i < num_blocks_per_frame,
                    num_blocks_per_frame == 4096int / (block_size as int),
                    block_size > 0,
            ;
            let addr = base + i * block_size;
            let ghost before = self.list_heads@;
            let ghost fl_before = self.free_lists();
            assert(fl_before[index as int] == before[index as int]@);
            assert(fl_before[index as int] == lists0[index as int] + carved(
                base as int,
                index as int,
            ).take(pushed as int));
            self.list_heads[index].push(addr);
            pushed += 1;
            proof {
                assert forall|j: int| 0 <= j < CLASS_COUNT implies #[trigger] self.free_lists()[j]
                    == (if j == index { before[j]@.push(addr) } else { before[j]@ }) by {}
                let c = carved(base as int, index as int);
                assert(c.take(pushed as int) =~= c.take(pushed - 1).push(addr));
                assert(before[index as int]@ == lists0[index as int] + c.take(pushed - 1));
                assert((lists0[index as int] + c.take(pushed - 1)).push(addr) =~= lists0[index as int]
                    + c.take(pushed as int));
                let target = lists0.update(index as int, lists0[index as int] + c.take(pushed as int));
                assert forall|j: int| 0 <= j < CLASS_COUNT implies #[trigger] self.free_lists()[j]
                    == target[j] by {
                    if j != index {
                        assert(fl_before[j] == before[j]@);
                    }
                }
                assert(self.free_lists() =~= target);
            }
        }
        assert(carved(base as int, index as int).take(pushed as int) =~= carved(
            base as int,
            index as int,
        ));
        Some(base)
    }

    /// Serves a request of `size` bytes aligned to `align`.
    ///
    /// A request that a size class serves takes that class's head block;
    /// when the class is empty, one fresh frame is cut into blocks first.
    /// A request of exactly one frame, aligned to at most a frame, takes a
    /// whole frame. Any other request fails with `Unsupported` and changes
    /// nothing.
    pub fn alloc_block(&mut self, frames: &mut BitMapFrameManager, size: usize, align: usize) -> (r:
        Result<u64, AllocError>)
        requires
            old(self).wf(),
            old(frames).wf(),
        ensures
            final(self).wf(),
            final(frames).wf(),
            final(frames).lower() == old(frames).lower(),
            final(frames).upper() == old(frames).upper(),
            match class_for(size as int, align as int) {
                Some(k) => if old(self).free_lists()[k].len() > 0 {
                    &&& r == Ok::<u64, AllocError>(old(self).free_lists()[k].last())
                    &&& final(self).free_lists() == pop_block(old(self).free_lists(), k)
                    &&& final(frames).held() == old(frames).held()
                } else {
                    refilled(old(frames).held(), old(frames).lower(), old(frames).upper(),
                        final(frames).held(), old(self).free_lists(), final(self).free_lists(), k, r)
                },
                None => if size == FRAME_BYTES && align <= FRAME_BYTES {
                    &&& final(self).free_lists() == old(self).free_lists()
                    &&& whole_frame(old(frames).held(), old(frames).lower(), old(frames).upper(),
                        final(frames).held(), r)
                } else {
                    &&& r == Err::<u64, AllocError>(AllocError::Unsupported)
                    &&& final(self).free_lists() == old(self).free_lists()
                    &&& final(frames).held() == old(frames).held()
                },
            },
            free_lists_sound(old(self).free_lists(), old(frames).held()) ==> {
                &&& free_lists_sound(final(self).free_lists(), final(frames).held())
                &&& r matches Ok(p) ==> match class_for(size as int, align as int) {
                    Some(k) => returnable(final(self).free_lists(), final(frames).held(), k, p),
                    None => {
                        &&& in_held_frame(final(frames).held(), p)
                        &&& frame_unshared(final(self).free_lists(), -1, p)
                    },
                }
            },
    {
        let ghost held0 = frames.held();
        proof {
            frames.lemma_held_len();
        }
        match list_index(size, align) {
            Some(index) => {
                if self.list_heads[index].len() > 0 {
                    let ghost before = self.list_heads@;
                    let ghost lists0 = self.free_lists();
                    let node = self.list_heads[index].pop().unwrap();
                    proof {
                        if free_lists_sound(lists0, held0) {
                            lemma_sound_pop(lists0, held0, index as int);
                            assert(in_held_frame(held0, lists0[index as int][lists0[index as int].len() - 1]));
                        }
                        let target = pop_block(lists0, index as int);
                        assert forall|j: int| 0 <= j < CLASS_COUNT implies #[trigger] self.free_lists()[j]
                            == target[j] by {
                            assert(lists0[j] == before[j]@);
                        }
                        assert(self.free_lists() =~= target);
                    }
                    Ok(node)
                } else {
                    let ghost lists0 = self.free_lists();
                    match self.allocate_frame_for_block(frames, index) {
                        Some(p) => {
                            assert(lists0[index as int] + carved(p as int, index as int) =~= carved(
                                p as int,
                                index as int,
                            ));
                            proof {
                                let f = p as int / 4096;
                                assert(f * 4096 == p);
                                assert(!held0[f]);
                                if free_lists_sound(lists0, held0) {
                                    lemma_sound_refill(lists0, held0, index as int, f);
                                }
                            }
                            Ok(p)
                        },
                        None => Err(AllocError::OutOfMemory),
                    }
                }
            },
            None => {
                if size == FRAME_BYTES && align <= FRAME_BYTES {
                    match frames.allocate(1) {
                        Some(frame) => {
                            proof {
                                frames.lemma_held_len();
                                assert((frame as u64 * 4096u64) % 4096 == 0);
                                assert((frame as u64 * 4096u64) as int / 4096 == frame);
                                if free_lists_sound(self.free_lists(), held0) {
                                    assert(!held0[frame as int]);
                                    lemma_fresh_frame_not_free(self.free_lists(), held0, frame as int);
                                    lemma_sound_grow(self.free_lists(), held0, frames.held());
                                }
                            }
                            Ok(virt_addr(frame as u64 * FRAME_BYTES as u64))
                        },
                        None => Err(AllocError::OutOfMemory),
                    }
                } else {
                    Err(AllocError::Unsupported)
                }
            },
        }
    }

    /// Gives back the block at `ptr`, allocated with the same `size` and
    /// `align`: it becomes the head of its class's free list, or, for a
    /// whole-frame block, its frame is returned to `frames`.
    pub fn dealloc(&mut self, frames: &mut BitMapFrameManager, ptr: u64, size: usize, align: usize)
        requires
            old(self).wf(),
            old(frames).wf(),
            class_for(size as int, align as int) is None ==> ptr / (FRAME_BYTES as u64)
                < FRAME_COUNTS,
        ensures
            final(self).wf(),
            final(frames).wf(),
            final(frames).lower() == old(frames).lower(),
            final(frames).upper() == old(frames).upper(),
            match class_for(size as int, align as int) {
                Some(k) => {
                    &&& final(self).free_lists() == push_block(old(self).free_lists(), k, ptr)
                    &&& final(frames).held() == old(frames).held()
                },
                None => {
                    &&& final(self).free_lists() == old(self).free_lists()
                    &&& final(frames).held() == set_range(
                        old(frames).held(),
                        ptr as int / (FRAME_BYTES as int),
                        1,
                        false,
                    )
                },
            },
            free_lists_sound(old(self).free_lists(), old(frames).held()) && match class_for(
                size as int,
                align as int,
            ) {
                Some(k) => returnable(old(self).free_lists(), old(frames).held(), k, ptr),
                None => frame_unshared(old(self).free_lists(), -1, ptr),
            } ==> free_lists_sound(final(self).free_lists(), final(frames).held()),
    {
        let ghost held0 = frames.held();
        match list_index(size, align) {
            Some(index) => {
                let ghost before = self.list_heads@;
                let ghost lists0 = self.free_lists();
                self.list_heads[index].push(ptr);
                proof {
                    let target = push_block(lists0, index as int, ptr);
                    assert forall|j: int| 0 <= j < CLASS_COUNT implies #[trigger] self.free_lists()[j]
                        == target[j] by {
                        assert(lists0[j] == before[j]@);
                    }
                    assert(self.free_lists() =~= target);
                    if free_lists_sound(lists0, held0) && returnable(lists0, held0, index as int, ptr) {
                        lemma_dealloc_keeps_sound(lists0, held0, index as int, ptr);
                    }
                }
            },
            None => {
                frames.free((ptr / FRAME_BYTES as u64) as usize, 1);
                proof {
                    if free_lists_sound(self.free_lists(), held0) && frame_unshared(self.free_lists(), -1, ptr) {
                        lemma_frame_free_keeps_sound(self.free_lists(), held0, ptr);
                    }
                }
            },
        }
    }
}

} // verus!
