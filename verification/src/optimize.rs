//! The optimizer: a dynamic-programming search over all byte positions and
//! match offsets that produces the bit-optimal parse of the input, backed by
//! an arena of parse-graph nodes recycled through reference counting and a
//! free list.

use std::collections::VecDeque;
use vstd::prelude::*;

use crate::gamma::elias_gamma_bits;
use crate::gamma::gamma_bits;
use crate::gamma::lemma_gamma_linear;
use crate::gamma::lemma_gamma_pos;
use crate::gamma::lemma_gamma_pow_bound;

verus! {

/// One node of the optimal-parse predecessor graph: the cumulative bit count
/// of the best parse ending at input position `index`, the match `offset` of
/// the final token (`0` for a literal run), the handle of the predecessor
/// block (`0` for the synthetic root) and the number of live references.
#[derive(Clone, Copy)]
pub struct Block {
    pub bits: u32,
    pub index: i32,
    pub offset: u32,
    pub next_index: usize,
    /// Number of live references to this block: handles held in parse
    /// tables plus predecessor links of live blocks. Maintained exclusively
    /// by the arena.
    pub refcount: u64,
}

/// Number of occurrences of handle `h` in a table of handle slots.
spec fn cnt(s: Seq<usize>, h: int) -> int
    decreases s.len(),
{
    if s.len() == 0 {
        0
    } else {
        cnt(s.drop_last(), h) + if s.last() == h {
            1int
        } else {
            0int
        }
    }
}

/// Whether block `b` holds a live reference to handle `h`.
spec fn child_ref(b: Block, h: int) -> bool {
    b.refcount >= 1 && b.next_index == h
}

/// Number of live blocks in `s` whose predecessor link points at handle `h`.
spec fn ccnt(s: Seq<Block>, h: int) -> int
    decreases s.len(),
{
    if s.len() == 0 {
        0
    } else {
        ccnt(s.drop_last(), h) + if child_ref(s.last(), h) {
            1int
        } else {
            0int
        }
    }
}

proof fn lemma_cnt_nonneg(s: Seq<usize>, h: int)
    ensures
        cnt(s, h) >= 0,
    decreases s.len(),
{
    if s.len() > 0 {
        lemma_cnt_nonneg(s.drop_last(), h);
    }
}

proof fn lemma_cnt_update(s: Seq<usize>, i: int, v: usize, h: int)
    requires
        0 <= i < s.len(),
    ensures
        cnt(s.update(i, v), h) == cnt(s, h) + (if v == h {
            1int
        } else {
            0int
        }) - (if s[i] == h {
            1int
        } else {
            0int
        }),
    decreases s.len(),
{
    let t = s.update(i, v);
    if i == s.len() - 1 {
        assert(t.drop_last() =~= s.drop_last());
    } else {
        assert(t.drop_last() =~= s.drop_last().update(i, v));
        lemma_cnt_update(s.drop_last(), i, v, h);
    }
}

proof fn lemma_cnt_at(s: Seq<usize>, i: int, h: int)
    requires
        0 <= i < s.len(),
        s[i] == h,
    ensures
        cnt(s, h) >= 1,
    decreases s.len(),
{
    lemma_cnt_nonneg(s.drop_last(), h);
    if i < s.len() - 1 {
        lemma_cnt_at(s.drop_last(), i, h);
        lemma_cnt_nonneg(s, h);
    }
}

proof fn lemma_ccnt_nonneg(s: Seq<Block>, h: int)
    ensures
        ccnt(s, h) >= 0,
    decreases s.len(),
{
    if s.len() > 0 {
        lemma_ccnt_nonneg(s.drop_last(), h);
    }
}

proof fn lemma_ccnt_update(s: Seq<Block>, i: int, b: Block, h: int)
    requires
        0 <= i < s.len(),
    ensures
        ccnt(s.update(i, b), h) == ccnt(s, h) + (if child_ref(b, h) {
            1int
        } else {
            0int
        }) - (if child_ref(s[i], h) {
            1int
        } else {
            0int
        }),
    decreases s.len(),
{
    let t = s.update(i, b);
    if i == s.len() - 1 {
        assert(t.drop_last() =~= s.drop_last());
    } else {
        assert(t.drop_last() =~= s.drop_last().update(i, b));
        lemma_ccnt_update(s.drop_last(), i, b, h);
    }
}

proof fn lemma_ccnt_push(s: Seq<Block>, b: Block, h: int)
    ensures
        ccnt(s.push(b), h) == ccnt(s, h) + (if child_ref(b, h) {
            1int
        } else {
            0int
        }),
{
    assert(s.push(b).drop_last() =~= s);
}

proof fn lemma_ccnt_at(s: Seq<Block>, i: int, h: int)
    requires
        0 <= i < s.len(),
        child_ref(s[i], h),
    ensures
        ccnt(s, h) >= 1,
    decreases s.len(),
{
    lemma_ccnt_nonneg(s.drop_last(), h);
    if i < s.len() - 1 {
        lemma_ccnt_at(s.drop_last(), i, h);
        lemma_ccnt_nonneg(s, h);
    }
}

/// Block `b` with its reference count replaced by `rc`.
spec fn with_rc(b: Block, rc: int) -> Block {
    Block { bits: b.bits, index: b.index, offset: b.offset, next_index: b.next_index, refcount: rc as u64 }
}

/// A freshly allocated block with a single reference.
spec fn fresh_block(bits: u32, index: i32, offset: u32, next_index: usize) -> Block {
    Block { bits, index, offset, next_index, refcount: 1 }
}

/// The block table after incrementing the reference count of `next` (when
/// nonzero) and decrementing that of `prior` (when nonzero).
spec fn adjust_rcs(b0: Seq<Block>, prior: int, next: int) -> Seq<Block> {
    let s1 = if next == 0 {
        b0
    } else {
        b0.update(next, with_rc(b0[next], b0[next].refcount + 1))
    };
    if prior == 0 {
        s1
    } else {
        s1.update(prior, with_rc(s1[prior], s1[prior].refcount - 1))
    }
}

/// Raising the operation bound preserves the arena invariant.
proof fn lemma_wf_ops_grow(a0: Allocator, a1: Allocator)
    requires
        a0.wf(),
        a1.blocks_view() == a0.blocks_view(),
        a1.free_view() == a0.free_view(),
        a1.ops() >= a0.ops(),
    ensures
        a1.wf(),
{
    let b = a1.blocks_view();
    let f = a1.free_view();
    assert(a1.rc(0) == a0.rc(0));
    assert forall|k: int| 0 <= k < f.len() implies 1 <= #[trigger] f[k] < b.len() && a1.rc(
        f[k] as int,
    ) == 0 by {
        assert(a0.free_view()[k] == f[k]);
        assert(a0.rc(f[k] as int) == 0);
    }
    assert forall|h2: int| 1 <= h2 < b.len() && (#[trigger] a1.rc(h2)) == 0 implies exists|k: int|
        0 <= k < f.len() && f[k] == h2 by {
        assert(a0.rc(h2) == 0);
        let k = choose|k: int| 0 <= k < a0.free_view().len() && a0.free_view()[k] == h2;
        assert(f[k] == h2);
    }
    assert forall|h2: int| 0 <= h2 < b.len() implies (#[trigger] a1.rc(h2)) <= a1.ops() by {
        assert(a0.rc(h2) <= a0.ops());
    }
}

/// The arena: a growable table of blocks plus a queue of handles whose
/// reference count has dropped to zero and whose storage may be reused.
/// Handle `0` is reserved as the null sentinel.
pub struct Allocator {
    free_list: VecDeque<usize>,
    blocks: Vec<Block>,
    ops: Ghost<nat>,
}

impl Allocator {
    /// The block table.
    pub closed spec fn blocks_view(self) -> Seq<Block> {
        self.blocks@
    }

    /// The queue of recyclable handles.
    pub closed spec fn free_view(self) -> Seq<usize> {
        self.free_list@
    }

    /// An upper bound on every reference count: the number of reference
    /// updates performed so far.
    pub closed spec fn ops(self) -> nat {
        self.ops@
    }

    /// The reference count of the block designated by `h`.
    pub closed spec fn rc(self, h: int) -> int {
        self.blocks_view()[h].refcount as int
    }

    /// Whether handle `h` designates a block with at least one live
    /// reference.
    pub open spec fn live(self, h: int) -> bool {
        1 <= h < self.blocks_view().len() && self.rc(h) >= 1
    }

    /// The arena invariant. In particular the free list holds exactly the
    /// handles whose reference count is zero, each exactly once: every
    /// listed handle has count zero, no handle is listed twice, and every
    /// block with count zero is listed.
    pub open spec fn wf(self) -> bool {
        let b = self.blocks_view();
        let f = self.free_view();
        &&& b.len() >= 1
        &&& self.rc(0) == 0
        &&& forall|k: int|
            0 <= k < f.len() ==> 1 <= #[trigger] f[k] < b.len() && self.rc(f[k] as int) == 0
        &&& forall|k1: int, k2: int| 0 <= k1 < k2 < f.len() ==> f[k1] != f[k2]
        &&& forall|h: int|
            1 <= h < b.len() && (#[trigger] self.rc(h)) == 0 ==> exists|k: int|
                0 <= k < f.len() && f[k] == h
        &&& forall|h: int| 0 <= h < b.len() ==> (#[trigger] self.rc(h)) <= self.ops()
    }

    /// Creates an empty arena holding only the null sentinel block.
    fn new() -> (a: Allocator)
        ensures
            a.wf(),
            a.blocks_view().len() == 1,
            a.free_view().len() == 0,
            a.ops() == 0,
    {
        let mut blocks: Vec<Block> = Vec::with_capacity(1024 * 1024);

        // Special block index only used for null values.
        blocks.push(Block { bits: 0, index: 0, offset: 0, next_index: 0, refcount: 0 });

        Allocator { free_list: VecDeque::new(), blocks, ops: Ghost(0) }
    }

    /// Adds one reference to the live block `h`.
    fn bump(&mut self, h: usize)
        requires
            old(self).wf(),
            1 <= h < old(self).blocks_view().len(),
            old(self).rc(h as int) >= 1,
            old(self).rc(h as int) + 1 <= old(self).ops(),
            old(self).rc(h as int) + 1 <= u64::MAX,
        ensures
            final(self).wf(),
            final(self).blocks_view() == old(self).blocks_view().update(
                h as int,
                with_rc(old(self).blocks_view()[h as int], old(self).rc(h as int) + 1),
            ),
            final(self).free_view() == old(self).free_view(),
            final(self).ops() == old(self).ops(),
    {
        let mut blk = self.blocks[h];
        proof {
            assert(blk.refcount == old(self).rc(h as int));
        }
        blk.refcount = blk.refcount + 1;
        self.blocks.set(h, blk);
        proof {
            let b1 = self.blocks_view();
            let f1 = self.free_view();
            assert(self.rc(0) == old(self).rc(0));
            assert forall|k: int| 0 <= k < f1.len() implies 1 <= #[trigger] f1[k] < b1.len()
                && self.rc(f1[k] as int) == 0 by {
                assert(f1[k] == old(self).free_view()[k]);
                assert(old(self).rc(f1[k] as int) == 0);
            }
            assert forall|k1: int, k2: int| 0 <= k1 < k2 < f1.len() implies f1[k1] != f1[k2] by {
                assert(f1[k1] == old(self).free_view()[k1]);
                assert(f1[k2] == old(self).free_view()[k2]);
            }
            assert forall|h2: int| 1 <= h2 < b1.len() && (#[trigger] self.rc(h2)) == 0
                implies exists|k: int| 0 <= k < f1.len() && f1[k] == h2 by {
                assert(old(self).rc(h2) == 0);
                let k = choose|k: int|
                    0 <= k < old(self).free_view().len() && old(self).free_view()[k] == h2;
                assert(f1[k] == h2);
            }
            assert forall|h2: int| 0 <= h2 < b1.len() implies (#[trigger] self.rc(h2)) <= self.ops() by {
                if h2 != h as int {
                    assert(old(self).rc(h2) <= old(self).ops());
                }
            }
        }
    }

    /// Drops one reference from the live block `h`, queueing it for reuse
    /// when no reference remains.
    fn release(&mut self, h: usize)
        requires
            old(self).wf(),
            1 <= h < old(self).blocks_view().len(),
            old(self).rc(h as int) >= 1,
        ensures
            final(self).wf(),
            final(self).blocks_view() == old(self).blocks_view().update(
                h as int,
                with_rc(old(self).blocks_view()[h as int], old(self).rc(h as int) - 1),
            ),
            old(self).rc(h as int) == 1 ==> final(self).free_view() == old(self).free_view().push(
                h,
            ),
            old(self).rc(h as int) > 1 ==> final(self).free_view() == old(self).free_view(),
            final(self).ops() == old(self).ops(),
    {
        let mut blk = self.blocks[h];
        proof {
            assert(blk.refcount == old(self).rc(h as int));
        }
        blk.refcount = blk.refcount - 1;
        self.blocks.set(h, blk);

        if blk.refcount == 0 {
            self.free_list.push_back(h);
        }
        proof {
            let b1 = self.blocks_view();
            let f0 = old(self).free_view();
            let f1 = self.free_view();
            assert forall|k: int| 0 <= k < f1.len() implies 1 <= #[trigger] f1[k] < b1.len()
                && self.rc(f1[k] as int) == 0 by {
                if k < f0.len() {
                    assert(f1[k] == f0[k]);
                    assert(old(self).rc(f0[k] as int) == 0);
                    assert(f0[k] != h);
                }
            }
            assert forall|h2: int| 1 <= h2 < b1.len() && (#[trigger] self.rc(h2)) == 0 implies exists|k: int|
                0 <= k < f1.len() && f1[k] == h2 by {
                if h2 == h as int {
                    assert(self.rc(h2) == old(self).rc(h2) - 1);
                    assert(f1[f1.len() - 1] == h);
                } else {
                    assert(old(self).rc(h2) == 0);
                    let k = choose|k: int| 0 <= k < f0.len() && f0[k] == h2;
                    assert(f1[k] == h2);
                }
            }
            assert forall|h2: int| 0 <= h2 < b1.len() implies (#[trigger] self.rc(h2)) <= self.ops() by {
                assert(old(self).rc(h2) <= old(self).ops());
            }
        }
    }

    /// Points `ptr` at the existing block `next_index`, adjusting reference
    /// counts and recycling the prior target of `ptr` when its count reaches
    /// zero.
    fn assign(&mut self, ptr: &mut usize, next_index: usize)
        requires
            old(self).wf(),
            1 <= next_index < old(self).blocks_view().len(),
            old(self).rc(next_index as int) >= 1,
            *old(ptr) < old(self).blocks_view().len(),
            *old(ptr) != 0 ==> old(self).rc(*old(ptr) as int) >= 1,
            old(self).ops() + 2 <= u64::MAX,
        ensures
            final(self).wf(),
            *final(ptr) == next_index,
            final(self).ops() == old(self).ops() + 2,
            final(self).blocks_view() == adjust_rcs(
                old(self).blocks_view(),
                *old(ptr) as int,
                next_index as int,
            ),
            final(self).free_view() == if *old(ptr) != 0 && *old(ptr) != next_index && old(
                self,
            ).rc(*old(ptr) as int) == 1 {
                old(self).free_view().push(*old(ptr))
            } else {
                old(self).free_view()
            },
    {
        self.ops = Ghost(self.ops@ + 2);
        proof {
            lemma_wf_ops_grow(*old(self), *self);
        }
        self.bump(next_index);

        if *ptr != 0 {
            self.release(*ptr);
        }

        *ptr = next_index;
    }

    /// Creates a new block with the given fields and a single reference and
    /// points `ptr` at it, adjusting reference counts as [`Self::assign`]
    /// does. The block reuses a recycled slot when one is queued, otherwise
    /// it extends the table.
    fn assign_new(&mut self, ptr: &mut usize, bits: u32, index: i32, offset: u32, next_index: usize)
        requires
            old(self).wf(),
            next_index < old(self).blocks_view().len(),
            next_index != 0 ==> old(self).rc(next_index as int) >= 1,
            *old(ptr) < old(self).blocks_view().len(),
            *old(ptr) != 0 ==> old(self).rc(*old(ptr) as int) >= 1,
            old(self).ops() + 2 <= u64::MAX,
        ensures
            final(self).wf(),
            final(self).ops() == old(self).ops() + 2,
            1 <= *final(ptr) < final(self).blocks_view().len(),
            *final(ptr) != next_index,
            final(self).blocks_view()[*final(ptr) as int] == fresh_block(bits, index, offset, next_index),
            ({
                // The recycled slot is the front of the free queue, the
                // queue extended first by the slot the call just released;
                // the table grows only when that queue is empty.
                let f_mid = if *old(ptr) != 0 && *old(ptr) != next_index && old(self).rc(
                    *old(ptr) as int,
                ) == 1 {
                    old(self).free_view().push(*old(ptr))
                } else {
                    old(self).free_view()
                };
                if f_mid.len() > 0 {
                    &&& *final(ptr) == f_mid[0]
                    &&& final(self).free_view() == f_mid.subrange(1, f_mid.len() as int)
                    &&& final(self).blocks_view().len() == old(self).blocks_view().len()
                } else {
                    &&& *final(ptr) == old(self).blocks_view().len()
                    &&& final(self).free_view() == f_mid
                    &&& final(self).blocks_view().len() == old(self).blocks_view().len() + 1
                }
            }),
            ({
                let b0 = old(self).blocks_view();
                let mid = adjust_rcs(b0, *old(ptr) as int, next_index as int);
                let r = *final(ptr) as int;
                if r < b0.len() {
                    &&& mid[r].refcount == 0
                    &&& final(self).blocks_view() == mid.update(
                        r,
                        fresh_block(bits, index, offset, next_index),
                    )
                } else {
                    &&& r == b0.len()
                    &&& final(self).blocks_view() == mid.push(fresh_block(bits, index, offset, next_index))
                }
            }),
    {
        self.ops = Ghost(self.ops@ + 2);
        proof {
            lemma_wf_ops_grow(*old(self), *self);
        }
        if next_index != 0 {
            self.bump(next_index);
        }

        if *ptr != 0 {
            self.release(*ptr);
        }

        let ghost mid_state = *self;
        let block = Block { bits, index, offset, next_index, refcount: 1 };

        *ptr = if let Some(i) = self.free_list.pop_front() {
            proof {
                assert(mid_state.wf());
                assert(mid_state.free_view()[0] == i);
                assert(self.rc(i as int) == 0);
                if next_index != 0 {
                    assert(mid_state.rc(next_index as int) >= 1);
                }
            }
            self.blocks.set(i, block);
            proof {
                let b1 = self.blocks_view();
                let f0 = mid_state.free_view();
                let f1 = self.free_view();
                assert(f1 == f0.subrange(1, f0.len() as int));
                assert forall|k: int| 0 <= k < f1.len() implies 1 <= #[trigger] f1[k] < b1.len()
                    && self.rc(f1[k] as int) == 0 by {
                    assert(f1[k] == f0[k + 1]);
                    assert(f0[k + 1] != f0[0]);
                }
                assert forall|h2: int| 1 <= h2 < b1.len() && (#[trigger] self.rc(h2)) == 0
                    implies exists|k: int| 0 <= k < f1.len() && f1[k] == h2 by {
                    assert(h2 != i as int);
                    assert(mid_state.rc(h2) == 0);
                    let k = choose|k: int| 0 <= k < f0.len() && f0[k] == h2;
                    assert(f0[k] != f0[0]);
                    assert(f1[k - 1] == h2);
                }
                assert forall|h2: int| 0 <= h2 < b1.len() implies (#[trigger] self.rc(h2))
                    <= self.ops() by {
                    if h2 != i as int {
                        assert(mid_state.rc(h2) <= mid_state.ops());
                    }
                }
            }
            i
        } else {
            proof {
                assert(mid_state.wf());
                if next_index != 0 {
                    assert(mid_state.rc(next_index as int) >= 1);
                }
            }
            self.blocks.push(block);
            proof {
                let b1 = self.blocks_view();
                let f1 = self.free_view();
                assert forall|h2: int| 1 <= h2 < b1.len() && (#[trigger] self.rc(h2)) == 0
                    implies exists|k: int| 0 <= k < f1.len() && f1[k] == h2 by {
                    assert(h2 < b1.len() - 1);
                    assert(mid_state.rc(h2) == 0);
                }
                assert forall|h2: int| 0 <= h2 < b1.len() implies (#[trigger] self.rc(h2))
                    <= self.ops() by {
                    if h2 < b1.len() - 1 {
                        assert(mid_state.rc(h2) <= mid_state.ops());
                    }
                }
                assert forall|k: int| 0 <= k < f1.len() implies 1 <= #[trigger] f1[k] < b1.len()
                    && self.rc(f1[k] as int) == 0 by {
                    assert(mid_state.rc(f1[k] as int) == 0);
                }
            }
            self.blocks.len() - 1
        };
    }


    /// Reads the block designated by `index`.
    pub fn get(&self, index: usize) -> (b: &Block)
        requires
            index < self.blocks_view().len(),
        ensures
            *b == self.blocks_view()[index as int],
    {
        &self.blocks[index]
    }
}


/// The clamp applied to candidate match offsets: at least the initial
/// offset 1, at most `limit`, at most `index`.
pub open spec fn offset_ceiling_spec(index: int, limit: int) -> int {
    if index > limit {
        limit
    } else if index < 1 {
        1
    } else {
        index
    }
}

/// Computes `offset_ceiling_spec`: the largest usable match offset at the
/// given input index.
pub fn offset_ceiling(index: usize, offset_limit: usize) -> (r: usize)
    requires
        offset_limit >= 1,
    ensures
        r == offset_ceiling_spec(index as int, offset_limit as int),
        1 <= r <= offset_limit,
{
    if index > offset_limit {
        offset_limit
    } else if index < crate::INITIAL_OFFSET {
        crate::INITIAL_OFFSET
    } else {
        index
    }
}

/// Structural well-formedness of the live block `h` for an input of `n`
/// bytes with `skip` prefix bytes: its predecessor link points at a live
/// block ending earlier (or at the null sentinel for the synthetic root),
/// and its cumulative bit count grows from the predecessor's by exactly the
/// bit cost of the token it represents, mirroring the token costs of the
/// emitter ([`crate::compress::chain_step_wf`]).
pub open spec fn block_wf(a: Allocator, h: int, n: int, skip: int) -> bool {
    let b = a.blocks_view()[h];
    &&& b.next_index < a.blocks_view().len()
    &&& skip - 1 <= b.index < n
    &&& b.bits <= 42 * (b.index - skip + 2)
    &&& b.offset <= 32640
    &&& if b.next_index == 0 {
        &&& b.offset == 1
        &&& b.bits == 0
        &&& b.index == skip - 1
    } else {
        let p = a.blocks_view()[b.next_index as int];
        let l = b.index - p.index;
        &&& a.live(b.next_index as int)
        &&& p.index < b.index
        &&& if b.offset == 0 {
            &&& p.offset != 0
            &&& b.bits == p.bits + 1 + gamma_bits(l) + 8 * l
        } else {
            &&& b.offset >= 1
            &&& {
                ||| {
                    &&& p.offset == 0
                    &&& p.next_index != 0
                    &&& a.blocks_view()[p.next_index as int].offset == b.offset
                    &&& b.bits == p.bits + 1 + gamma_bits(l)
                }
                ||| {
                    &&& l >= 2
                    &&& p.index >= skip
                    &&& b.bits == p.bits + 8 + gamma_bits((b.offset - 1) / 128 + 1) + gamma_bits(
                        l - 1,
                    )
                }
            }
        }
    }
}

/// Every live block of the arena is well formed.
pub open spec fn arena_wf(a: Allocator, n: int, skip: int) -> bool {
    forall|h: int| a.live(h) ==> #[trigger] block_wf(a, h, n, skip)
}

/// Two blocks that agree on everything except the reference count.
spec fn same_fields(x: Block, y: Block) -> bool {
    x.bits == y.bits && x.index == y.index && x.offset == y.offset && x.next_index == y.next_index
}

/// The central counting invariant: the references a block receives from the
/// three parse tables plus those from live predecessor links never exceed
/// its reference count.
spec fn counts_ok(a: Allocator, ll: Seq<usize>, lm: Seq<usize>, opt: Seq<usize>) -> bool {
    forall|h: int|
        1 <= h < a.blocks_view().len() ==> cnt(ll, h) + cnt(lm, h) + cnt(opt, h) + ccnt(
            a.blocks_view(),
            h,
        ) <= #[trigger] a.rc(h)
}

proof fn lemma_cnt_none(s: Seq<usize>, h: int)
    requires
        forall|j: int| 0 <= j < s.len() ==> s[j] != h,
    ensures
        cnt(s, h) == 0,
    decreases s.len(),
{
    if s.len() > 0 {
        lemma_cnt_none(s.drop_last(), h);
    }
}

proof fn lemma_ccnt_none(s: Seq<Block>, h: int)
    requires
        forall|j: int| 0 <= j < s.len() ==> !child_ref(s[j], h),
    ensures
        ccnt(s, h) == 0,
    decreases s.len(),
{
    if s.len() > 0 {
        lemma_ccnt_none(s.drop_last(), h);
    }
}

/// Field preservation and pointwise reference-count arithmetic of
/// [`adjust_rcs`].
proof fn lemma_adjust_rcs(b0: Seq<Block>, prior: int, next: int)
    requires
        0 <= prior < b0.len(),
        0 <= next < b0.len(),
        next != 0 ==> b0[next].refcount + 1 <= u64::MAX,
        prior != 0 ==> b0[prior].refcount >= 1,
    ensures
        adjust_rcs(b0, prior, next).len() == b0.len(),
        forall|h: int|
            0 <= h < b0.len() ==> same_fields(#[trigger] adjust_rcs(b0, prior, next)[h], b0[h]),
        forall|h: int|
            0 <= h < b0.len() ==> (#[trigger] adjust_rcs(b0, prior, next)[h]).refcount == b0[
                h
            ].refcount + (if h == next && next != 0 {
                1int
            } else {
                0int
            }) - (if h == prior && prior != 0 {
                1int
            } else {
                0int
            }),
{
}

/// Adjusting reference counts never raises the number of live predecessor
/// links to any handle.
proof fn lemma_ccnt_adjust(b0: Seq<Block>, prior: int, next: int, h: int)
    requires
        0 <= prior < b0.len(),
        0 <= next < b0.len(),
        next != 0 ==> b0[next].refcount >= 1,
        prior != 0 ==> b0[prior].refcount >= 1,
    ensures
        ccnt(adjust_rcs(b0, prior, next), h) <= ccnt(b0, h),
{
    let s1 = if next == 0 {
        b0
    } else {
        b0.update(next, with_rc(b0[next], b0[next].refcount + 1))
    };
    if next != 0 {
        lemma_ccnt_update(b0, next, with_rc(b0[next], b0[next].refcount + 1), h);
    }
    if prior != 0 {
        lemma_ccnt_update(s1, prior, with_rc(s1[prior], s1[prior].refcount - 1), h);
    }
}

/// Re-establishes the counting invariant and records field preservation
/// after `assign` replaced one table slot holding `prior` with `next`.
proof fn lemma_tables_after_assign(
    a0: Allocator,
    a1: Allocator,
    prior: int,
    next: int,
    ll0: Seq<usize>,
    lm0: Seq<usize>,
    opt0: Seq<usize>,
    ll1: Seq<usize>,
    lm1: Seq<usize>,
    opt1: Seq<usize>,
)
    requires
        counts_ok(a0, ll0, lm0, opt0),
        0 <= prior < a0.blocks_view().len(),
        1 <= next < a0.blocks_view().len(),
        a0.rc(next) >= 1,
        a0.rc(next) + 1 <= u64::MAX,
        prior != 0 ==> a0.rc(prior) >= 1,
        a1.blocks_view() == adjust_rcs(a0.blocks_view(), prior, next),
        forall|h: int|
            1 <= h ==> cnt(ll1, h) + cnt(lm1, h) + cnt(opt1, h) == cnt(ll0, h) + cnt(lm0, h) + cnt(
                opt0,
                h,
            ) + (if next == h {
                1int
            } else {
                0int
            }) - (if prior == h {
                1int
            } else {
                0int
            }),
    ensures
        counts_ok(a1, ll1, lm1, opt1),
        a1.blocks_view().len() == a0.blocks_view().len(),
        forall|h: int|
            0 <= h < a1.blocks_view().len() ==> same_fields(
                #[trigger] a1.blocks_view()[h],
                a0.blocks_view()[h],
            ),
        forall|h: int|
            1 <= h < a0.blocks_view().len() ==> a1.rc(h) == a0.rc(h) + (if h == next {
                1int
            } else {
                0int
            }) - (if h == prior && prior != 0 {
                1int
            } else {
                0int
            }),
{
    let b0 = a0.blocks_view();
    let b1 = a1.blocks_view();
    lemma_adjust_rcs(b0, prior, next);
    assert forall|h: int|
        1 <= h < b1.len() implies cnt(ll1, h) + cnt(lm1, h) + cnt(opt1, h) + ccnt(b1, h)
        <= #[trigger] a1.rc(h) by {
        lemma_ccnt_adjust(b0, prior, next, h);
        assert(cnt(ll0, h) + cnt(lm0, h) + cnt(opt0, h) + ccnt(b0, h) <= a0.rc(h));
    }
}

/// Re-establishes the counting invariant and records preservation facts
/// after `assign_new` created block `r` with predecessor `pred`, replacing
/// a table slot that held `prior`.
proof fn lemma_tables_after_assign_new(
    a0: Allocator,
    a1: Allocator,
    prior: int,
    pred: int,
    r: int,
    nb: Block,
    ll0: Seq<usize>,
    lm0: Seq<usize>,
    opt0: Seq<usize>,
    ll1: Seq<usize>,
    lm1: Seq<usize>,
    opt1: Seq<usize>,
)
    requires
        counts_ok(a0, ll0, lm0, opt0),
        0 <= prior < a0.blocks_view().len(),
        0 <= pred < a0.blocks_view().len(),
        pred != 0 ==> a0.rc(pred) >= 1,
        pred != 0 ==> a0.rc(pred) + 1 <= u64::MAX,
        prior != 0 ==> a0.rc(prior) >= 1,
        nb.refcount == 1,
        nb.next_index == pred,
        1 <= r,
        r != pred,
        ({
            let mid = adjust_rcs(a0.blocks_view(), prior, pred);
            if r < a0.blocks_view().len() {
                mid[r].refcount == 0 && a1.blocks_view() == mid.update(r, nb)
            } else {
                r == a0.blocks_view().len() && a1.blocks_view() == mid.push(nb)
            }
        }),
        forall|j: int| 0 <= j < ll0.len() ==> ll0[j] < a0.blocks_view().len(),
        forall|j: int| 0 <= j < lm0.len() ==> lm0[j] < a0.blocks_view().len(),
        forall|j: int| 0 <= j < opt0.len() ==> opt0[j] < a0.blocks_view().len(),
        forall|j: int|
            0 <= j < a0.blocks_view().len() && a0.blocks_view()[j].refcount >= 1
                ==> a0.blocks_view()[j].next_index < a0.blocks_view().len(),
        forall|h: int|
            1 <= h ==> cnt(ll1, h) + cnt(lm1, h) + cnt(opt1, h) == cnt(ll0, h) + cnt(lm0, h) + cnt(
                opt0,
                h,
            ) + (if r == h {
                1int
            } else {
                0int
            }) - (if prior == h {
                1int
            } else {
                0int
            }),
    ensures
        counts_ok(a1, ll1, lm1, opt1),
        a1.blocks_view().len() == if r < a0.blocks_view().len() {
            a0.blocks_view().len()
        } else {
            a0.blocks_view().len() + 1
        },
        a1.blocks_view()[r] == nb,
        forall|h: int|
            0 <= h < a0.blocks_view().len() && h != r ==> same_fields(
                #[trigger] a1.blocks_view()[h],
                a0.blocks_view()[h],
            ),
        forall|h: int|
            1 <= h < a0.blocks_view().len() && h != r && h != prior ==> a1.rc(h) >= a0.rc(h),
        forall|h: int|
            1 <= h < a0.blocks_view().len() && a0.rc(h) >= 1 && h != prior ==> h != r && a1.rc(h)
                >= 1,
        forall|h: int|
            1 <= h < a0.blocks_view().len() && a0.rc(h) >= 2 ==> h != r && a1.rc(h) >= 1,
        a1.rc(r) == 1,
        pred != 0 ==> a1.rc(pred) >= 1,
{
    let b0 = a0.blocks_view();
    let b1 = a1.blocks_view();
    let mid = adjust_rcs(b0, prior, pred);
    lemma_adjust_rcs(b0, prior, pred);
    if r < b0.len() {
        assert(b1 == mid.update(r, nb));
    } else {
        assert(b1 == mid.push(nb));
    }
    assert forall|h: int|
        1 <= h < b1.len() implies cnt(ll1, h) + cnt(lm1, h) + cnt(opt1, h) + ccnt(b1, h)
        <= #[trigger] a1.rc(h) by {
        lemma_ccnt_adjust(b0, prior, pred, h);
        if r < b0.len() {
            lemma_ccnt_update(mid, r, nb, h);
        } else {
            lemma_ccnt_push(mid, nb, h);
        }
        if h == r {
            if r < b0.len() {
                // The recycled slot had no remaining references.
                assert(a0.rc(r) == if r == prior {
                    1int
                } else {
                    0int
                });
                assert(cnt(ll0, r) + cnt(lm0, r) + cnt(opt0, r) + ccnt(b0, r) <= a0.rc(r));
                lemma_cnt_nonneg(ll0, r);
                lemma_cnt_nonneg(lm0, r);
                lemma_cnt_nonneg(opt0, r);
                lemma_ccnt_nonneg(b0, r);
            } else {
                lemma_cnt_none(ll0, r);
                lemma_cnt_none(lm0, r);
                lemma_cnt_none(opt0, r);
                assert forall|j: int| 0 <= j < b0.len() implies !child_ref(b0[j], r) by {}
                lemma_ccnt_none(b0, r);
            }
        } else {
            assert(h < b0.len());
            assert(cnt(ll0, h) + cnt(lm0, h) + cnt(opt0, h) + ccnt(b0, h) <= a0.rc(h));
        }
    }
}


/// Every live block stays well formed when `assign` repoints a table slot:
/// no block is overwritten, and blocks reachable from surviving references
/// keep a positive reference count.
proof fn lemma_wf_after_assign(
    a0: Allocator,
    a1: Allocator,
    prior: int,
    next: int,
    n: int,
    skip: int,
    ll0: Seq<usize>,
    lm0: Seq<usize>,
    opt0: Seq<usize>,
)
    requires
        counts_ok(a0, ll0, lm0, opt0),
        arena_wf(a0, n, skip),
        0 <= prior < a0.blocks_view().len(),
        1 <= next < a0.blocks_view().len(),
        a0.rc(next) >= 1,
        a0.rc(next) + 1 <= u64::MAX,
        prior != 0 ==> a0.rc(prior) >= 1,
        prior != 0 ==> cnt(ll0, prior) + cnt(lm0, prior) + cnt(opt0, prior) >= 1,
        a1.blocks_view() == adjust_rcs(a0.blocks_view(), prior, next),
    ensures
        arena_wf(a1, n, skip),
{
    let b0 = a0.blocks_view();
    let b1 = a1.blocks_view();
    lemma_adjust_rcs(b0, prior, next);
    assert forall|h: int| a1.live(h) implies #[trigger] block_wf(a1, h, n, skip) by {
        if h == prior && a0.rc(h) == 0 {
            assert(a1.rc(h) <= 0);
        }
        assert(a0.live(h));
        assert(block_wf(a0, h, n, skip));
        let b = b0[h];
        assert(same_fields(b1[h], b0[h]));
        if b.next_index != 0 {
            let c = b.next_index as int;
            assert(a0.live(c));
            assert(block_wf(a0, c, n, skip));
            if c == prior {
                lemma_ccnt_at(b0, h, c);
                lemma_cnt_nonneg(ll0, c);
                lemma_cnt_nonneg(lm0, c);
                lemma_cnt_nonneg(opt0, c);
                assert(cnt(ll0, c) + cnt(lm0, c) + cnt(opt0, c) + ccnt(b0, c) <= a0.rc(c));
                assert(a0.rc(c) >= 2);
            }
            assert(a1.live(c));
            assert(same_fields(b1[c], b0[c]));
            let p = b0[c];
            if b.offset != 0 && p.offset == 0 && p.next_index != 0 && b0[
                p.next_index as int
            ].offset == b.offset {
                let g = p.next_index as int;
                assert(same_fields(b1[g], b0[g]));
            }
        }
    }
}

/// Every live block other than the freshly created `r` stays well formed
/// when `assign_new` allocates: the recycled slot had no references, so no
/// surviving block or table slot could reach it.
proof fn lemma_wf_after_assign_new(
    a0: Allocator,
    a1: Allocator,
    prior: int,
    pred: int,
    r: int,
    nb: Block,
    n: int,
    skip: int,
    ll0: Seq<usize>,
    lm0: Seq<usize>,
    opt0: Seq<usize>,
)
    requires
        counts_ok(a0, ll0, lm0, opt0),
        arena_wf(a0, n, skip),
        0 <= prior < a0.blocks_view().len(),
        0 <= pred < a0.blocks_view().len(),
        pred != 0 ==> a0.rc(pred) >= 1,
        pred != 0 ==> a0.rc(pred) + 1 <= u64::MAX,
        prior != 0 ==> a0.rc(prior) >= 1,
        prior != 0 ==> cnt(ll0, prior) + cnt(lm0, prior) + cnt(opt0, prior) >= 1,
        nb.refcount == 1,
        nb.next_index == pred,
        1 <= r,
        r != pred,
        ({
            let mid = adjust_rcs(a0.blocks_view(), prior, pred);
            if r < a0.blocks_view().len() {
                mid[r].refcount == 0 && a1.blocks_view() == mid.update(r, nb)
            } else {
                r == a0.blocks_view().len() && a1.blocks_view() == mid.push(nb)
            }
        }),
    ensures
        forall|h: int| a1.live(h) && h != r ==> #[trigger] block_wf(a1, h, n, skip),
{
    let b0 = a0.blocks_view();
    let b1 = a1.blocks_view();
    lemma_adjust_rcs(b0, prior, pred);
    assert forall|h: int| a1.live(h) && h != r implies #[trigger] block_wf(a1, h, n, skip) by {
        assert(h < b0.len());
        assert(a0.live(h));
        assert(block_wf(a0, h, n, skip));
        let b = b0[h];
        assert(same_fields(b1[h], b0[h]));
        if b.next_index != 0 {
            let c = b.next_index as int;
            assert(a0.live(c));
            assert(block_wf(a0, c, n, skip));
            if c == prior {
                lemma_ccnt_at(b0, h, c);
                lemma_cnt_nonneg(ll0, c);
                lemma_cnt_nonneg(lm0, c);
                lemma_cnt_nonneg(opt0, c);
                assert(cnt(ll0, c) + cnt(lm0, c) + cnt(opt0, c) + ccnt(b0, c) <= a0.rc(c));
                assert(a0.rc(c) >= 2);
            }
            assert(c != r && a1.live(c));
            assert(same_fields(b1[c], b0[c]));
            let p = b0[c];
            if b.offset != 0 && p.offset == 0 && p.next_index != 0 && b0[p.next_index as int].offset
                == b.offset {
                let g = p.next_index as int;
                assert(a0.live(g));
                if g == prior {
                    lemma_ccnt_at(b0, c, g);
                    lemma_cnt_nonneg(ll0, g);
                    lemma_cnt_nonneg(lm0, g);
                    lemma_cnt_nonneg(opt0, g);
                    assert(cnt(ll0, g) + cnt(lm0, g) + cnt(opt0, g) + ccnt(b0, g) <= a0.rc(g));
                    assert(a0.rc(g) >= 2);
                }
                assert(g != r);
                assert(same_fields(b1[g], b0[g]));
            }
        }
    }
}


/// A handle stored in a `last_match` slot for offset `o`: either null or a
/// live match block with that offset, ending at or before input index
/// `bound`.
pub open spec fn lm_entry_ok(a: Allocator, v: usize, o: int, bound: int) -> bool {
    v != 0 ==> {
        &&& a.live(v as int)
        &&& a.blocks_view()[v as int].offset == o
        &&& a.blocks_view()[v as int].index <= bound
        &&& (o >= 2 ==> a.blocks_view()[v as int].index >= o)
    }
}

/// A handle stored in a `last_literal` slot for offset `o`: either null or
/// a live literal block whose predecessor is a match with offset `o`,
/// ending at or before input index `bound`.
pub open spec fn ll_entry_ok(a: Allocator, input: Seq<u8>, v: usize, o: int, bound: int) -> bool {
    v != 0 ==> {
        &&& a.live(v as int)
        &&& a.blocks_view()[v as int].offset == 0
        &&& a.blocks_view()[v as int].next_index != 0
        &&& a.blocks_view()[a.blocks_view()[v as int].next_index as int].offset == o
        &&& a.blocks_view()[v as int].index <= bound
        &&& (o >= 2 ==> a.blocks_view()[v as int].index >= o)
        &&& run_ok(input, o, bound - a.blocks_view()[v as int].index, bound)
    }
}

/// A handle stored in `optimal[j]`: either null or a live block ending
/// exactly at input index `j`.
pub open spec fn opt_entry_ok(a: Allocator, v: usize, j: int) -> bool {
    v != 0 ==> a.live(v as int) && a.blocks_view()[v as int].index == j
}

/// All handles in a table are inside the arena.
pub open spec fn handles_ok(a: Allocator, t: Seq<usize>) -> bool {
    forall|j: int| 0 <= j < t.len() ==> #[trigger] t[j] < a.blocks_view().len()
}

/// Bundles the proof work after `assign` repointed `optimal[i]` at the live
/// block `x`: the counting invariant, well-formedness of all live blocks,
/// and liveness preservation for every other referenced handle.
proof fn lemma_opt_assign_site(
    a0: Allocator,
    a1: Allocator,
    x: int,
    i: int,
    n: int,
    skip: int,
    ll0: Seq<usize>,
    lm0: Seq<usize>,
    opt0: Seq<usize>,
    opt1: Seq<usize>,
)
    requires
        counts_ok(a0, ll0, lm0, opt0),
        arena_wf(a0, n, skip),
        1 <= x < a0.blocks_view().len(),
        x <= usize::MAX,
        a0.rc(x) >= 1,
        a0.rc(x) + 1 <= u64::MAX,
        0 <= i < opt0.len(),
        opt0[i] < a0.blocks_view().len(),
        opt1 == opt0.update(i, x as usize),
        a1.blocks_view() == adjust_rcs(a0.blocks_view(), opt0[i] as int, x),
    ensures
        counts_ok(a1, ll0, lm0, opt1),
        arena_wf(a1, n, skip),
        a1.blocks_view().len() == a0.blocks_view().len(),
        forall|h: int|
            0 <= h < a1.blocks_view().len() ==> same_fields(
                #[trigger] a1.blocks_view()[h],
                a0.blocks_view()[h],
            ),
        forall|h: int|
            1 <= h < a0.blocks_view().len() && a0.rc(h) >= 1 && h != opt0[i] ==> a1.rc(h) >= 1,
        forall|h: int| 1 <= h < a0.blocks_view().len() && a0.rc(h) >= 2 ==> a1.rc(h) >= 1,
        a1.rc(x) >= 1,
{
    let prior = opt0[i] as int;
    if prior != 0 {
        lemma_cnt_at(opt0, i, prior);
        lemma_cnt_nonneg(ll0, prior);
        lemma_cnt_nonneg(lm0, prior);
        lemma_ccnt_nonneg(a0.blocks_view(), prior);
        assert(cnt(ll0, prior) + cnt(lm0, prior) + cnt(opt0, prior) + ccnt(
            a0.blocks_view(),
            prior,
        ) <= a0.rc(prior));
    }
    assert forall|h: int|
        1 <= h implies cnt(ll0, h) + cnt(lm0, h) + cnt(opt1, h) == cnt(ll0, h) + cnt(lm0, h) + cnt(
        opt0,
        h,
    ) + (if x == h {
        1int
    } else {
        0int
    }) - (if prior == h {
        1int
    } else {
        0int
    }) by {
        lemma_cnt_update(opt0, i, x as usize, h);
    }
    lemma_tables_after_assign(a0, a1, prior, x, ll0, lm0, opt0, ll0, lm0, opt1);
    lemma_wf_after_assign(a0, a1, prior, x, n, skip, ll0, lm0, opt0);
}


/// Bundles the proof work after `assign_new` created block `r` (contents
/// `nb`, predecessor `pred`) and stored its handle into `last_match[pos]`:
/// counting invariant, well-formedness of surviving live blocks, and
/// liveness preservation facts.
proof fn lemma_lm_assign_new_site(
    a0: Allocator,
    a1: Allocator,
    pos: int,
    pred: int,
    r: int,
    nb: Block,
    n: int,
    skip: int,
    ll0: Seq<usize>,
    lm0: Seq<usize>,
    opt0: Seq<usize>,
    t1: Seq<usize>,
)
    requires
        counts_ok(a0, ll0, lm0, opt0),
        arena_wf(a0, n, skip),
        a0.rc(0) == 0,
        handles_ok(a0, ll0),
        handles_ok(a0, lm0),
        handles_ok(a0, opt0),
        0 <= pos < lm0.len(),
        0 <= pred < a0.blocks_view().len(),
        pred != 0 ==> a0.rc(pred) >= 1,
        pred != 0 ==> a0.rc(pred) + 1 <= u64::MAX,
        nb.refcount == 1,
        nb.next_index == pred,
        1 <= r <= usize::MAX,
        r != pred,
        ({
            let mid = adjust_rcs(a0.blocks_view(), lm0[pos] as int, pred);
            if r < a0.blocks_view().len() {
                mid[r].refcount == 0 && a1.blocks_view() == mid.update(r, nb)
            } else {
                r == a0.blocks_view().len() && a1.blocks_view() == mid.push(nb)
            }
        }),
        t1 == lm0.update(pos, r as usize),
    ensures
        counts_ok(a1, ll0, t1, opt0),
        forall|h: int| a1.live(h) && h != r ==> #[trigger] block_wf(a1, h, n, skip),
        a1.blocks_view().len() == if r < a0.blocks_view().len() {
            a0.blocks_view().len()
        } else {
            a0.blocks_view().len() + 1
        },
        a1.blocks_view()[r] == nb,
        forall|h: int|
            0 <= h < a0.blocks_view().len() && h != r ==> same_fields(
                #[trigger] a1.blocks_view()[h],
                a0.blocks_view()[h],
            ),
        forall|h: int|
            1 <= h < a0.blocks_view().len() && a0.rc(h) >= 1 && h != lm0[pos] ==> h != r
                && a1.rc(h) >= 1,
        forall|h: int| 1 <= h < a0.blocks_view().len() && a0.rc(h) >= 2 ==> h != r && a1.rc(h) >= 1,
        a1.rc(r) == 1,
        pred != 0 ==> a1.rc(pred) >= 1,
{
    let b0 = a0.blocks_view();
    let prior = lm0[pos] as int;
    if prior != 0 {
        lemma_cnt_at(lm0, pos, prior);
        lemma_cnt_nonneg(ll0, prior);
        lemma_cnt_nonneg(opt0, prior);
        lemma_ccnt_nonneg(b0, prior);
        assert(cnt(ll0, prior) + cnt(lm0, prior) + cnt(opt0, prior) + ccnt(b0, prior) <= a0.rc(
            prior,
        ));
    }
    assert forall|j: int|
        0 <= j < b0.len() && b0[j].refcount >= 1 implies b0[j].next_index < b0.len() by {
        if j == 0 {
            assert(a0.rc(0) >= 1);
            assert(false);
        } else {
            assert(a0.live(j));
            assert(block_wf(a0, j, n, skip));
        }
    }
    assert forall|h: int|
        1 <= h implies cnt(ll0, h) + cnt(t1, h) + cnt(opt0, h) == cnt(ll0, h) + cnt(lm0, h)
        + cnt(opt0, h) + (if r == h {
        1int
    } else {
        0int
    }) - (if prior == h {
        1int
    } else {
        0int
    }) by {
        lemma_cnt_update(lm0, pos, r as usize, h);
    }
    lemma_tables_after_assign_new(a0, a1, prior, pred, r, nb, ll0, lm0, opt0, ll0, t1, opt0);
    lemma_wf_after_assign_new(a0, a1, prior, pred, r, nb, n, skip, ll0, lm0, opt0);
}


/// Bundles the proof work after `assign_new` created block `r` (contents
/// `nb`, predecessor `pred`) and stored its handle into `last_literal[pos]`:
/// counting invariant, well-formedness of surviving live blocks, and
/// liveness preservation facts.
proof fn lemma_ll_assign_new_site(
    a0: Allocator,
    a1: Allocator,
    pos: int,
    pred: int,
    r: int,
    nb: Block,
    n: int,
    skip: int,
    ll0: Seq<usize>,
    lm0: Seq<usize>,
    opt0: Seq<usize>,
    t1: Seq<usize>,
)
    requires
        counts_ok(a0, ll0, lm0, opt0),
        arena_wf(a0, n, skip),
        a0.rc(0) == 0,
        handles_ok(a0, ll0),
        handles_ok(a0, lm0),
        handles_ok(a0, opt0),
        0 <= pos < ll0.len(),
        0 <= pred < a0.blocks_view().len(),
        pred != 0 ==> a0.rc(pred) >= 1,
        pred != 0 ==> a0.rc(pred) + 1 <= u64::MAX,
        nb.refcount == 1,
        nb.next_index == pred,
        1 <= r <= usize::MAX,
        r != pred,
        ({
            let mid = adjust_rcs(a0.blocks_view(), ll0[pos] as int, pred);
            if r < a0.blocks_view().len() {
                mid[r].refcount == 0 && a1.blocks_view() == mid.update(r, nb)
            } else {
                r == a0.blocks_view().len() && a1.blocks_view() == mid.push(nb)
            }
        }),
        t1 == ll0.update(pos, r as usize),
    ensures
        counts_ok(a1, t1, lm0, opt0),
        forall|h: int| a1.live(h) && h != r ==> #[trigger] block_wf(a1, h, n, skip),
        a1.blocks_view().len() == if r < a0.blocks_view().len() {
            a0.blocks_view().len()
        } else {
            a0.blocks_view().len() + 1
        },
        a1.blocks_view()[r] == nb,
        forall|h: int|
            0 <= h < a0.blocks_view().len() && h != r ==> same_fields(
                #[trigger] a1.blocks_view()[h],
                a0.blocks_view()[h],
            ),
        forall|h: int|
            1 <= h < a0.blocks_view().len() && a0.rc(h) >= 1 && h != ll0[pos] ==> h != r
                && a1.rc(h) >= 1,
        forall|h: int| 1 <= h < a0.blocks_view().len() && a0.rc(h) >= 2 ==> h != r && a1.rc(h) >= 1,
        a1.rc(r) == 1,
        pred != 0 ==> a1.rc(pred) >= 1,
{
    let b0 = a0.blocks_view();
    let prior = ll0[pos] as int;
    if prior != 0 {
        lemma_cnt_at(ll0, pos, prior);
        lemma_cnt_nonneg(lm0, prior);
        lemma_cnt_nonneg(opt0, prior);
        lemma_ccnt_nonneg(b0, prior);
        assert(cnt(ll0, prior) + cnt(lm0, prior) + cnt(opt0, prior) + ccnt(b0, prior) <= a0.rc(
            prior,
        ));
    }
    assert forall|j: int|
        0 <= j < b0.len() && b0[j].refcount >= 1 implies b0[j].next_index < b0.len() by {
        if j == 0 {
            assert(a0.rc(0) >= 1);
            assert(false);
        } else {
            assert(a0.live(j));
            assert(block_wf(a0, j, n, skip));
        }
    }
    assert forall|h: int|
        1 <= h implies cnt(t1, h) + cnt(lm0, h) + cnt(opt0, h) == cnt(ll0, h) + cnt(lm0, h)
        + cnt(opt0, h) + (if r == h {
        1int
    } else {
        0int
    }) - (if prior == h {
        1int
    } else {
        0int
    }) by {
        lemma_cnt_update(ll0, pos, r as usize, h);
    }
    lemma_tables_after_assign_new(a0, a1, prior, pred, r, nb, ll0, lm0, opt0, t1, lm0, opt0);
    lemma_wf_after_assign_new(a0, a1, prior, pred, r, nb, n, skip, ll0, lm0, opt0);
}



/// Extends the current match run at `offset`: lengthens the run counter,
/// refreshes the tie-broken `best_length` table up to the new run length,
/// and records the best match ending at `index` with this offset, updating
/// `optimal[index]` when it improves. Returns the new high-water mark of
/// the `best_length` table.
#[verifier::loop_isolation(false)]
#[verifier::rlimit(100)]
fn match_step2(
    allocator: &mut Allocator,
    last_literal: &Vec<usize>,
    last_match: &mut Vec<usize>,
    optimal: &mut Vec<usize>,
    match_length: &mut Vec<usize>,
    best_length: &mut Vec<usize>,
    best_length_size: &mut usize,
    index: usize,
    offset: usize,
    skip: usize,
    n_g: Ghost<int>,
    mo_g: Ghost<int>,
    hw_g: Ghost<int>,
    input_g: Ghost<Seq<u8>>,
) -> (hw_out: Ghost<int>)
    requires
        1 <= n_g@ <= 0x4000000,
        skip < n_g@,
        skip < index < n_g@,
        1 <= offset <= mo_g@,
        1 <= mo_g@ <= 32640,
        offset <= index,
        dp_inv(
            *old(allocator),
            last_literal@,
            old(last_match)@,
            old(optimal)@,
            old(match_length)@,
            old(best_length)@,
            n_g@,
            skip as int,
            mo_g@,
            index as int,
            offset + 1,
            hw_g@,
            *old(best_length_size) as int,
            input_g@,
        ),
        old(match_length)@[offset as int] <= index - skip - 1,
        run_ok(input_g@, offset as int, old(match_length)@[offset as int] + 1, index as int),
        old(allocator).ops() + 4 <= u64::MAX,
    ensures
        dp_inv(
            *final(allocator),
            last_literal@,
            final(last_match)@,
            final(optimal)@,
            final(match_length)@,
            final(best_length)@,
            n_g@,
            skip as int,
            mo_g@,
            index as int,
            offset + 1,
            hw_out@,
            *final(best_length_size) as int,
            input_g@,
        ),
        old(optimal)@[index as int] != 0 ==> final(optimal)@[index as int] != 0,
        final(allocator).ops() <= old(allocator).ops() + 4,
{
    let ghost n = n_g@;
    let ghost skip_g = skip as int;
    let ghost mo = mo_g@;
    let ghost mut hw = hw_g@;
                // Copy from new offset.
                match_length.set(offset, match_length[offset] + 1);
                let ml_o = match_length[offset];
                proof {
                    assert(run_ok(input_g@, offset as int, ml_o as int, index as int));
                }
                if ml_o > 1 {
                    if (*best_length_size) < ml_o {
                        let blv = best_length[(*best_length_size)];
                        let mut bits_run = allocator.get(optimal[index - blv]).bits;
                        proof {
                            assert(opt_entry_ok(*allocator, optimal@[index - blv], index - blv));
                            assert(block_wf(*allocator, optimal@[index - blv] as int, n, skip_g));
                        }
                        bits_run = bits_run + elias_gamma_bits(blv as u32 - 1);

                        while (*best_length_size) < ml_o
                            invariant
                                2 <= (*best_length_size) <= ml_o,
                                ml_o <= index - skip_g,
                                n > 2,
                                best_length@.len() == n,
                                forall|s: int|
                                    2 <= s <= (*best_length_size) ==> 2 <= #[trigger] best_length@[s]
                                        <= s,
                                forall|s: int|
                                    2 <= s <= hw ==> 2 <= #[trigger] best_length@[s] <= s,
                                bits_run <= 42 * (n + 1) + 63,
                            decreases ml_o - (*best_length_size),
                        {
                            (*best_length_size) = (*best_length_size) + 1;
                            proof {
                                assert(opt_entry_ok(
                                    *allocator,
                                    optimal@[index - (*best_length_size)],
                                    index - (*best_length_size),
                                ));
                                assert(block_wf(
                                    *allocator,
                                    optimal@[index - (*best_length_size)] as int,
                                    n,
                                    skip_g,
                                ));
                            }
                            let bits2 = allocator.get(optimal[index - (*best_length_size)]).bits
                                + elias_gamma_bits((*best_length_size) as u32 - 1);

                            if bits2 <= bits_run {
                                best_length.set((*best_length_size), (*best_length_size));
                                bits_run = bits2;
                            } else {
                                let prev = best_length[(*best_length_size) - 1];
                                best_length.set((*best_length_size), prev);
                            }
                        }
                        proof {
                            if (*best_length_size) > hw {
                                hw = (*best_length_size) as int;
                            }
                        }
                    }

                    let length = best_length[ml_o];
                    let pred_h = optimal[index - length];
                    let ob = *allocator.get(pred_h);
                    proof {
                        assert(opt_entry_ok(*allocator, optimal@[index - length], index - length));
                        assert(block_wf(*allocator, pred_h as int, n, skip_g));
                        lemma_gamma_pos((offset - 1) / 128 + 1);
                        assert(vstd::arithmetic::power2::pow2(9) == 512) by {
                            vstd::arithmetic::power2::lemma2_to64();
                        }
                        lemma_gamma_pow_bound((offset - 1) / 128 + 1, 9);
                        lemma_gamma_linear(length - 1);
                    }
                    let bits = ob.bits + 8 + elias_gamma_bits((offset as u32 - 1) / 128 + 1)
                        + elias_gamma_bits(length as u32 - 1);

                    if last_match[offset] == 0 || allocator.get(last_match[offset]).index
                        != index as i32 || allocator.get(last_match[offset]).bits > bits {
                        let ghost a0 = *allocator;
                        let ghost ll0 = last_literal@;
                        let ghost lm0 = last_match@;
                        let ghost opt0 = optimal@;
                        let ghost prior = last_match@[offset as int] as int;
                        proof {
                            lemma_cnt_at(opt0, index - length, pred_h as int);
                            lemma_cnt_nonneg(ll0, pred_h as int);
                            lemma_cnt_nonneg(lm0, pred_h as int);
                            lemma_ccnt_nonneg(a0.blocks_view(), pred_h as int);
                            assert(cnt(ll0, pred_h as int) + cnt(lm0, pred_h as int) + cnt(
                                opt0,
                                pred_h as int,
                            ) + ccnt(a0.blocks_view(), pred_h as int) <= a0.rc(pred_h as int));
                        }
                        let mut slot = last_match[offset];
                        allocator.assign_new(&mut slot, bits, index as i32, offset as u32, pred_h);
                        last_match.set(offset, slot);
                        proof {
                            let r = slot as int;
                            let nb = fresh_block(bits, index as i32, offset as u32, pred_h);
                            lemma_lm_assign_new_site(
                                a0,
                                *allocator,
                                offset as int,
                                pred_h as int,
                                r,
                                nb,
                                n,
                                skip_g,
                                ll0,
                                lm0,
                                opt0,
                                last_match@,
                            );
                            let b0 = a0.blocks_view();
                            let b1 = allocator.blocks_view();
                            assert(pred_h as int != r && same_fields(
                                b1[pred_h as int],
                                b0[pred_h as int],
                            ));
                            assert(block_wf(*allocator, r, n, skip_g));
                            assert forall|h: int| allocator.live(h) implies #[trigger] block_wf(
                                *allocator,
                                h,
                                n,
                                skip_g,
                            ) by {}
                            assert(lm_entry_ok(a0, lm0[offset as int], offset as int, index as int));
                            lemma_entries_after_lm_site(a0, *allocator, offset as int, r, index as int,
                                offset + 1, mo, n, skip_g, ll0, lm0, opt0, input_g@);
                            assert(lm_entry_ok(*allocator, last_match@[offset as int], offset as int, index as int));
                            if prior != 0 {
                                lemma_cnt_at(lm0, offset as int, prior);
                                lemma_cnt_nonneg(ll0, prior);
                                lemma_cnt_nonneg(opt0, prior);
                            }
                            lemma_matches_after_assign_new(
                                a0,
                                *allocator,
                                prior,
                                pred_h as int,
                                r,
                                nb,
                                input_g@,
                                n,
                                skip_g,
                                mo,
                                ll0,
                                lm0,
                                opt0,
                            );
                            lemma_run_shrink(
                                input_g@,
                                offset as int,
                                ml_o as int,
                                length as int,
                                index as int,
                            );
                            assert(block_matches(*allocator, input_g@, r));
                            assert forall|h: int| allocator.live(h) implies #[trigger] block_matches(
                                *allocator,
                                input_g@,
                                h,
                            ) by {}
                        }

                        if optimal[index] == 0 || allocator.get(optimal[index]).bits > bits {
                            let ghost a1 = *allocator;
                            let ghost opt1 = optimal@;
                            let x = last_match[offset];
                            let mut oslot = optimal[index];
                            allocator.assign(&mut oslot, x);
                            optimal.set(index, oslot);
                            proof {
                                lemma_opt_assign_site(
                                    a1,
                                    *allocator,
                                    x as int,
                                    index as int,
                                    n,
                                    skip_g,
                                    last_literal@,
                                    last_match@,
                                    opt1,
                                    optimal@,
                                );
                                lemma_matches_after_assign(
                                    a1,
                                    *allocator,
                                    opt1[index as int] as int,
                                    x as int,
                                    input_g@,
                                    n,
                                    skip_g,
                                    mo,
                                );
                                assert forall|h: int| allocator.live(h) implies #[trigger] block_matches(
                                    *allocator,
                                    input_g@,
                                    h,
                                ) by {}
                                let b1 = a1.blocks_view();
                                let po = opt1[index as int] as int;
                                assert forall|o2: int| 1 <= o2 <= mo implies lm_entry_ok(a1, last_match@[o2], o2,
                                    if o2 < offset + 1 { index as int } else { index - 1 }) by {
                                    if o2 != offset {
                                        assert(lm_entry_ok(a1, last_match@[o2], o2, if o2 < offset { index as int } else { index - 1 }));
                                    } else {
                                        assert(lm_entry_ok(a1, last_match@[o2], o2, index as int));
                                    }
                                }
                                assert forall|o2: int| 1 <= o2 <= mo implies ll_entry_ok(a1, input_g@, last_literal@[o2], o2,
                                    if o2 < offset + 1 { index as int } else { index - 1 }) by {
                                    if o2 != offset {
                                        assert(ll_entry_ok(a1, input_g@, last_literal@[o2], o2, if o2 < offset { index as int } else { index - 1 }));
                                    } else {
                                        assert(ll_entry_ok(a1, input_g@, last_literal@[o2], o2, index as int));
                                    }
                                }
                                lemma_entries_after_opt_site(a1, *allocator, index as int, offset as int + 1, mo, n, skip_g,
                                    last_literal@, last_match@, opt1, input_g@);
                                assert(opt_entry_ok(*allocator, optimal@[index as int], index as int));
                            }
                        }
                    }
                }
    Ghost(hw)
}


/// Handles a byte mismatch at (`index`, `offset`): resets the run counter
/// and, when a best match with this offset exists, records the best parse
/// that follows it with a literal run ending at `index`, updating
/// `optimal[index]` when it improves.
#[verifier::loop_isolation(false)]
#[verifier::rlimit(100)]
fn literals_case(
    allocator: &mut Allocator,
    last_literal: &mut Vec<usize>,
    last_match: &Vec<usize>,
    optimal: &mut Vec<usize>,
    match_length: &mut Vec<usize>,
    best_length: &Vec<usize>,
    best_length_size: usize,
    index: usize,
    offset: usize,
    skip: usize,
    n_g: Ghost<int>,
    mo_g: Ghost<int>,
    hw_g: Ghost<int>,
    input_g: Ghost<Seq<u8>>,
)
    requires
        1 <= n_g@ <= 0x4000000,
        skip < n_g@,
        skip <= index < n_g@,
        1 <= offset <= mo_g@,
        1 <= mo_g@ <= 32640,
        dp_inv(
            *old(allocator),
            old(last_literal)@,
            last_match@,
            old(optimal)@,
            old(match_length)@,
            best_length@,
            n_g@,
            skip as int,
            mo_g@,
            index as int,
            offset as int,
            hw_g@,
            best_length_size as int,
            input_g@,
        ),
        old(allocator).ops() + 4 <= u64::MAX,
    ensures
        dp_inv(
            *final(allocator),
            final(last_literal)@,
            last_match@,
            final(optimal)@,
            final(match_length)@,
            best_length@,
            n_g@,
            skip as int,
            mo_g@,
            index as int,
            offset + 1,
            hw_g@,
            best_length_size as int,
            input_g@,
        ),
        final(allocator).ops() <= old(allocator).ops() + 4,
        last_match@[offset as int] != 0 ==> final(last_literal)@[offset as int] != 0
            && final(optimal)@[index as int] != 0,
        old(optimal)@[index as int] != 0 ==> final(optimal)@[index as int] != 0,
        old(last_literal)@[1] != 0 ==> final(last_literal)@[1] != 0,
{
    let ghost n = n_g@;
    let ghost skip_g = skip as int;
    let ghost mo = mo_g@;
                // Copy literals.
                match_length.set(offset, 0);
                if last_match[offset] != 0 {
                    let lm_o = last_match[offset];
                    let lmb = *allocator.get(lm_o);
                    proof {
                        assert(lm_entry_ok(*allocator, last_match@[offset as int], offset as int, index - 1));
                        assert(allocator.live(lm_o as int));
                        assert(block_wf(*allocator, lm_o as int, n, skip_g));
                    }
                    let length = index as i32 - lmb.index;
                    let egl = elias_gamma_bits(length as u32);
                    proof {
                        lemma_gamma_linear(length as int);
                    }
                    let bits = lmb.bits + 1 + egl + (length as u32) * 8;

                    let ghost a0 = *allocator;
                    let ghost ll0 = last_literal@;
                    let ghost lm0 = last_match@;
                    let ghost opt0 = optimal@;
                    let ghost prior = last_literal@[offset as int] as int;
                    let mut slot = last_literal[offset];
                    allocator.assign_new(&mut slot, bits, index as i32, 0, lm_o);
                    last_literal.set(offset, slot);
                    proof {
                        let r = slot as int;
                        let nb = fresh_block(bits, index as i32, 0, lm_o);
                        lemma_ll_assign_new_site(
                            a0,
                            *allocator,
                            offset as int,
                            lm_o as int,
                            r,
                            nb,
                            n,
                            skip_g,
                            ll0,
                            lm0,
                            opt0,
                            last_literal@,
                        );
                        let b0 = a0.blocks_view();
                        let b1 = allocator.blocks_view();
                        assert(lm_o as int != r && same_fields(b1[lm_o as int], b0[lm_o as int]));
                        assert(block_wf(*allocator, r, n, skip_g));
                        assert forall|h: int| allocator.live(h) implies #[trigger] block_wf(
                            *allocator,
                            h,
                            n,
                            skip_g,
                        ) by {}
                        assert(ll_entry_ok(a0, input_g@, ll0[offset as int], offset as int, index - 1));
                        lemma_entries_after_ll_site(a0, *allocator, offset as int, r, index as int,
                            offset as int, mo, n, skip_g, ll0, lm0, opt0, input_g@);
                        if prior != 0 {
                            lemma_cnt_at(ll0, offset as int, prior);
                            lemma_cnt_nonneg(lm0, prior);
                            lemma_cnt_nonneg(opt0, prior);
                        }
                        lemma_matches_after_assign_new(
                            a0,
                            *allocator,
                            prior,
                            lm_o as int,
                            r,
                            nb,
                            input_g@,
                            n,
                            skip_g,
                            mo,
                            ll0,
                            lm0,
                            opt0,
                        );
                        assert(block_matches(*allocator, input_g@, r));
                        assert forall|h: int| allocator.live(h) implies #[trigger] block_matches(
                            *allocator,
                            input_g@,
                            h,
                        ) by {}
                        assert(run_ok(input_g@, offset as int, 0, index as int));
                        assert(ll_entry_ok(*allocator, input_g@, last_literal@[offset as int], offset as int, index as int));
                    }

                    if optimal[index] == 0 || allocator.get(optimal[index]).bits > bits {
                        let ghost a1 = *allocator;
                        let ghost opt1 = optimal@;
                        let x = last_literal[offset];
                        let mut oslot = optimal[index];
                        allocator.assign(&mut oslot, x);
                        optimal.set(index, oslot);
                        proof {
                            lemma_opt_assign_site(
                                a1,
                                *allocator,
                                x as int,
                                index as int,
                                n,
                                skip_g,
                                last_literal@,
                                last_match@,
                                opt1,
                                optimal@,
                            );
                            lemma_matches_after_assign(
                                a1,
                                *allocator,
                                opt1[index as int] as int,
                                x as int,
                                input_g@,
                                n,
                                skip_g,
                                mo,
                            );
                            assert forall|h: int| allocator.live(h) implies #[trigger] block_matches(
                                *allocator,
                                input_g@,
                                h,
                            ) by {}
                            let b1 = a1.blocks_view();
                            let po = opt1[index as int] as int;
                            assert forall|o2: int| 1 <= o2 <= mo implies lm_entry_ok(a1, last_match@[o2], o2,
                                if o2 < offset + 1 { index as int } else { index - 1 }) by {
                                if o2 != offset {
                                    assert(lm_entry_ok(a1, last_match@[o2], o2, if o2 < offset { index as int } else { index - 1 }));
                                } else {
                                    assert(lm_entry_ok(a1, last_match@[o2], o2, index as int));
                                }
                            }
                            assert forall|o2: int| 1 <= o2 <= mo implies ll_entry_ok(a1, input_g@, last_literal@[o2], o2,
                                if o2 < offset + 1 { index as int } else { index - 1 }) by {
                                if o2 != offset {
                                    assert(ll_entry_ok(a1, input_g@, last_literal@[o2], o2, if o2 < offset { index as int } else { index - 1 }));
                                } else {
                                    assert(ll_entry_ok(a1, input_g@, last_literal@[o2], o2, index as int));
                                }
                            }
                            lemma_entries_after_opt_site(a1, *allocator, index as int, offset as int + 1, mo, n, skip_g,
                                last_literal@, last_match@, opt1, input_g@);
                            assert(opt_entry_ok(*allocator, optimal@[index as int], index as int));
                        }
                    }
                }
}

/// Runs the dynamic-programming search: for every input position from
/// `skip` on and every admissible match offset, extends the best parses
/// ending in a literal or in a match, and returns the arena together with
/// the handle of the optimal parse ending at the final input byte.
#[verifier::loop_isolation(false)]
#[verifier::rlimit(100)]
pub fn optimize(input: &[u8], skip: usize, offset_limit: usize) -> (r: (Allocator, usize))
    requires
        1 <= input@.len() <= crate::MAX_INPUT_LEN,
        skip < input@.len(),
        1 <= offset_limit <= crate::MAX_OFFSET_ZX0,
    ensures
        r.0.wf(),
        arena_wf(r.0, input@.len() as int, skip as int),
        arena_matches(r.0, input@),
        arena_capped(r.0, offset_ceiling_spec(input@.len() - 1, offset_limit as int)),
        arena_capped(r.0, offset_limit as int),
        r.0.live(r.1 as int),
        r.0.blocks_view()[r.1 as int].index == input@.len() - 1,
{
    let ghost n = input@.len() as int;
    let ghost skip_g = skip as int;
    let mut allocator = Allocator::new();

    let max_offset = offset_ceiling(input.len() - 1, offset_limit);
    let ghost mo = max_offset as int;

    // Allocate all main data structures at once.
    let mut last_literal: Vec<usize> = Vec::new();
    let mut last_match: Vec<usize> = Vec::new();
    let mut match_length: Vec<usize> = Vec::new();
    while last_literal.len() < max_offset + 1
        invariant
            last_literal@.len() <= mo + 1,
            forall|j: int| 0 <= j < last_literal@.len() ==> last_literal@[j] == 0,
        decreases mo + 1 - last_literal@.len(),
    {
        last_literal.push(0);
    }
    while last_match.len() < max_offset + 1
        invariant
            last_match@.len() <= mo + 1,
            forall|j: int| 0 <= j < last_match@.len() ==> last_match@[j] == 0,
        decreases mo + 1 - last_match@.len(),
    {
        last_match.push(0);
    }
    while match_length.len() < max_offset + 1
        invariant
            match_length@.len() <= mo + 1,
            forall|j: int| 0 <= j < match_length@.len() ==> match_length@[j] == 0,
        decreases mo + 1 - match_length@.len(),
    {
        match_length.push(0);
    }
    let mut optimal: Vec<usize> = Vec::new();
    let mut best_length: Vec<usize> = Vec::new();
    while optimal.len() < input.len()
        invariant
            optimal@.len() <= n,
            forall|j: int| 0 <= j < optimal@.len() ==> optimal@[j] == 0,
        decreases n - optimal@.len(),
    {
        optimal.push(0);
    }
    while best_length.len() < input.len()
        invariant
            best_length@.len() <= n,
            forall|j: int| 0 <= j < best_length@.len() ==> best_length@[j] == 0,
        decreases n - best_length@.len(),
    {
        best_length.push(0);
    }

    let ghost mut hw: int = 2;
    if input.len() > 2 {
        best_length.set(2, 2);
    }

    // Start with the synthetic root block.
    proof {
        assert forall|h: int| 1 <= h implies cnt(last_literal@, h) == 0 && cnt(last_match@, h)
            == 0 && cnt(optimal@, h) == 0 by {
            lemma_cnt_none(last_literal@, h);
            lemma_cnt_none(last_match@, h);
            lemma_cnt_none(optimal@, h);
        }
    }
    let ghost a_pre_root = allocator;
    let ghost lm_pre_root = last_match@;
    let mut root_slot = last_match[crate::INITIAL_OFFSET];
    allocator.assign_new(&mut root_slot, 0, skip as i32 - 1, crate::INITIAL_OFFSET as u32, 0);
    last_match.set(crate::INITIAL_OFFSET, root_slot);
    proof {
        let r = root_slot as int;
        let nb = fresh_block(0, (skip - 1) as i32, crate::INITIAL_OFFSET as u32, 0);
        lemma_lm_assign_new_site(
            a_pre_root,
            allocator,
            1,
            0,
            r,
            nb,
            n,
            skip_g,
            last_literal@,
            lm_pre_root,
            optimal@,
            last_match@,
        );
        assert(block_wf(allocator, r, n, skip_g));
        assert forall|h: int| allocator.live(h) implies #[trigger] block_wf(
            allocator,
            h,
            n,
            skip_g,
        ) by {
            if h != r {
                assert(a_pre_root.live(h));
                assert(1 <= h < 1);
            }
        }
        assert forall|h: int| allocator.live(h) implies #[trigger] block_matches(
            allocator,
            input@,
            h,
        ) by {
            assert(allocator.blocks_view()[h].next_index == 0);
        }
        assert forall|h: int| allocator.live(h) implies (#[trigger] allocator.blocks_view()[
            h
        ]).offset <= mo by {
            assert(allocator.blocks_view()[h] == nb);
        }
    }

    // Process remaining bytes.
    let mut index = skip;
    while index < input.len()
        invariant
            skip <= index <= n,
            allocator.wf(),
            counts_ok(allocator, last_literal@, last_match@, optimal@),
            arena_wf(allocator, n, skip_g),
            handles_ok(allocator, last_literal@),
            handles_ok(allocator, last_match@),
            handles_ok(allocator, optimal@),
            last_literal@.len() == mo + 1,
            last_match@.len() == mo + 1,
            match_length@.len() == mo + 1,
            optimal@.len() == n,
            best_length@.len() == n,
            forall|o2: int|
                1 <= o2 <= mo ==> lm_entry_ok(allocator, last_match@[o2], o2, index - 1),
            forall|o2: int|
                1 <= o2 <= mo ==> ll_entry_ok(allocator, input@, last_literal@[o2], o2, index - 1),
            forall|j: int| 0 <= j < n ==> opt_entry_ok(allocator, optimal@[j], j),
            forall|j: int| skip_g <= j < index ==> optimal@[j] != 0,
            forall|j: int| 0 <= j < n && !(skip_g <= j < index) ==> optimal@[j] == 0,
            last_match@[1] != 0,
            index > skip ==> last_literal@[1] != 0,
            forall|o2: int|
                0 <= o2 <= mo ==> #[trigger] match_length@[o2] <= (if index == skip_g {
                    0int
                } else {
                    index - skip_g - 1
                }),
            arena_matches(allocator, input@),
            arena_capped(allocator, mo),
            forall|o2: int|
                1 <= o2 <= mo ==> run_ok(
                    input@,
                    o2,
                    (#[trigger] match_length@[o2]) as int,
                    index - 1,
                ),
            forall|o2: int|
                1 <= o2 <= mo && last_literal@[o2] != 0 ==> (#[trigger] last_match@[o2]) != 0,
            n > 2 ==> 2 <= hw <= n - 1 && (forall|s: int|
                2 <= s <= hw ==> 2 <= #[trigger] best_length@[s] <= s),
            allocator.ops() <= 2 + 8 * ((index - skip_g) * mo),
        decreases n - index,
    {
        let mut best_length_size: usize = 2;
        let local_max_offset = offset_ceiling(index, offset_limit);
        let ghost mo_i = local_max_offset as int;
        proof {
            assert(mo_i <= mo);
        }

        let mut offset: usize = 1;
        while offset <= local_max_offset
            invariant
                1 <= offset <= mo_i + 1,
                skip <= index < n,
                allocator.wf(),
                counts_ok(allocator, last_literal@, last_match@, optimal@),
                arena_wf(allocator, n, skip_g),
                handles_ok(allocator, last_literal@),
                handles_ok(allocator, last_match@),
                handles_ok(allocator, optimal@),
                last_literal@.len() == mo + 1,
                last_match@.len() == mo + 1,
                match_length@.len() == mo + 1,
                optimal@.len() == n,
                best_length@.len() == n,
                forall|o2: int|
                    1 <= o2 <= mo ==> lm_entry_ok(
                        allocator,
                        last_match@[o2],
                        o2,
                        if o2 < offset {
                            index as int
                        } else {
                            index - 1
                        },
                    ),
                forall|o2: int|
                    1 <= o2 <= mo ==> ll_entry_ok(
                        allocator,
                        input@,
                        last_literal@[o2],
                        o2,
                        if o2 < offset {
                            index as int
                        } else {
                            index - 1
                        },
                    ),
                forall|j: int| 0 <= j < n ==> opt_entry_ok(allocator, optimal@[j], j),
                forall|j: int| skip_g <= j < index ==> optimal@[j] != 0,
                forall|j: int| 0 <= j < n && !(skip_g <= j <= index) ==> optimal@[j] == 0,
                offset > 1 ==> optimal@[index as int] != 0,
                last_match@[1] != 0,
                index > skip && offset <= 1 ==> last_literal@[1] != 0,
                offset > 1 ==> last_literal@[1] != 0,
                forall|o2: int|
                    0 <= o2 <= mo ==> #[trigger] match_length@[o2] <= (if o2 < offset {
                        index - skip_g
                    } else if index == skip_g {
                        0int
                    } else {
                        index - skip_g - 1
                    }),
                arena_matches(allocator, input@),
                arena_capped(allocator, mo),
                forall|o2: int|
                    1 <= o2 <= mo ==> run_ok(
                        input@,
                        o2,
                        (#[trigger] match_length@[o2]) as int,
                        if o2 < offset {
                            index as int
                        } else {
                            index - 1
                        },
                    ),
                forall|o2: int|
                    1 <= o2 <= mo && last_literal@[o2] != 0 ==> (
                    #[trigger] last_match@[o2]) != 0,
                2 <= best_length_size,
                best_length_size == 2 || best_length_size <= index - skip_g,
                n > 2 ==> best_length_size <= hw,
                n > 2 ==> 2 <= hw <= n - 1 && (forall|s: int|
                    2 <= s <= hw ==> 2 <= #[trigger] best_length@[s] <= s),
                allocator.ops() <= 2 + 8 * ((index - skip_g) * mo + (offset - 1)),
            decreases mo_i + 1 - offset,
        {
            proof {
                assert((index - skip_g) * mo + (offset - 1) <= n * mo) by (nonlinear_arith)
                    requires
                        0 <= index - skip_g,
                        index - skip_g + 1 <= n,
                        1 <= offset <= mo,
                        mo >= 1,
                        n >= 1,
                ;
                assert(n * mo <= 0x4000000 * 32640) by (nonlinear_arith)
                    requires
                        0 <= n <= 0x4000000,
                        0 <= mo <= 32640,
                ;
                assert(allocator.ops() + 8 <= u64::MAX);
            }
            if index >= offset && index != skip && input[index] == input[index - offset] {
                // The byte at `index` repeats at this offset, so the
                // literal-run and match-run facts extend to it.
                proof {
                    assert(run_at(input@, offset as int, index as int));
                    assert forall|o2: int|
                        1 <= o2 <= mo implies ll_entry_ok(
                        allocator,
                        input@,
                        last_literal@[o2],
                        o2,
                        if o2 < offset + 1 {
                            index as int
                        } else {
                            index - 1
                        },
                    ) by {
                        assert(ll_entry_ok(allocator, input@, last_literal@[o2], o2, if o2
                            < offset {
                            index as int
                        } else {
                            index - 1
                        }));
                        if o2 == offset && last_literal@[o2] != 0 {
                            lemma_run_extend(
                                input@,
                                o2,
                                index - 1 - allocator.blocks_view()[last_literal@[o2] as int].index,
                                index as int,
                            );
                        }
                    }
                    assert(run_ok(
                        input@,
                        offset as int,
                        match_length@[offset as int] as int,
                        index - 1,
                    ));
                    lemma_run_shift(
                        input@,
                        offset as int,
                        match_length@[offset as int] as int,
                        index as int,
                    );
                    lemma_run_extend(
                        input@,
                        offset as int,
                        match_length@[offset as int] as int,
                        index as int,
                    );
                    assert forall|o2: int|
                        1 <= o2 <= mo implies run_ok(
                        input@,
                        o2,
                        (match_length@[o2]) as int,
                        if o2 < offset + 1 {
                            index as int
                        } else {
                            index - 1
                        },
                    ) by {
                        if o2 != offset {
                            assert(run_ok(input@, o2, (match_length@[o2]) as int, if o2 < offset {
                                index as int
                            } else {
                                index - 1
                            }));
                        }
                    }
                }
                // Copy from last offset.
                if last_literal[offset] != 0 {
                    let ll_o = last_literal[offset];
                    let llb = *allocator.get(ll_o);
                    proof {
                        assert(ll_entry_ok(allocator, input@, last_literal@[offset as int], offset as int, index - 1));
                        assert(allocator.live(ll_o as int));
                        assert(block_wf(allocator, ll_o as int, n, skip_g));
                    }
                    let length = index as i32 - llb.index;
                    let egl = elias_gamma_bits(length as u32);
                    proof {
                        lemma_gamma_linear(length as int);
                    }
                    let bits = llb.bits + 1 + egl;

                    let ghost a0 = allocator;
                    let ghost ll0 = last_literal@;
                    let ghost lm0 = last_match@;
                    let ghost opt0 = optimal@;
                    let ghost prior = last_match@[offset as int] as int;
                    let mut slot = last_match[offset];
                    allocator.assign_new(
                        &mut slot,
                        bits,
                        index as i32,
                        offset as u32,
                        ll_o,
                    );
                    last_match.set(offset, slot);
                    proof {
                        let r = slot as int;
                        let nb = fresh_block(bits, index as i32, offset as u32, ll_o);
                        lemma_lm_assign_new_site(
                            a0,
                            allocator,
                            offset as int,
                            ll_o as int,
                            r,
                            nb,
                            n,
                            skip_g,
                            ll0,
                            lm0,
                            opt0,
                            last_match@,
                        );
                        let b0 = a0.blocks_view();
                        let b1 = allocator.blocks_view();
                        // The new block is a well-formed repeat-offset match.
                        let g = b0[ll_o as int].next_index as int;
                        assert(b0[g].offset == offset);
                        if g as int == prior {
                            lemma_ccnt_at(b0, ll_o as int, g);
                            lemma_cnt_at(lm0, offset as int, g);
                            lemma_cnt_nonneg(ll0, g);
                            lemma_cnt_nonneg(opt0, g);
                            assert(cnt(ll0, g) + cnt(lm0, g) + cnt(opt0, g) + ccnt(b0, g)
                                <= a0.rc(g));
                            assert(a0.rc(g) >= 2);
                        } else {
                            lemma_ccnt_at(b0, ll_o as int, g);
                            lemma_cnt_nonneg(ll0, g);
                            lemma_cnt_nonneg(lm0, g);
                            lemma_cnt_nonneg(opt0, g);
                            assert(cnt(ll0, g) + cnt(lm0, g) + cnt(opt0, g) + ccnt(b0, g)
                                <= a0.rc(g));
                        }
                        assert(g != r && same_fields(b1[g], b0[g]));
                        assert(ll_o as int != r && same_fields(b1[ll_o as int], b0[ll_o as int]));
                        assert(block_wf(allocator, r, n, skip_g));
                        assert forall|h: int| allocator.live(h) implies #[trigger] block_wf(
                            allocator,
                            h,
                            n,
                            skip_g,
                        ) by {}
                        // Surviving table entries keep their facts.
                        assert(lm_entry_ok(a0, lm0[offset as int], offset as int, index as int));
                            lemma_entries_after_lm_site(a0, allocator, offset as int, r, index as int,
                            offset + 1, mo, n, skip_g, ll0, lm0, opt0, input@);
                        assert(lm_entry_ok(allocator, last_match@[offset as int], offset as int, index as int));
                        if prior != 0 {
                            lemma_cnt_at(lm0, offset as int, prior);
                            lemma_cnt_nonneg(ll0, prior);
                            lemma_cnt_nonneg(opt0, prior);
                        }
                        lemma_matches_after_assign_new(
                            a0,
                            allocator,
                            prior,
                            ll_o as int,
                            r,
                            nb,
                            input@,
                            n,
                            skip_g,
                            mo,
                            ll0,
                            lm0,
                            opt0,
                        );
                        lemma_run_extend(
                            input@,
                            offset as int,
                            index - 1 - llb.index,
                            index as int,
                        );
                        assert(block_matches(allocator, input@, r));
                        assert forall|h: int| allocator.live(h) implies #[trigger] block_matches(
                            allocator,
                            input@,
                            h,
                        ) by {}
                    }

                    if optimal[index] == 0 || allocator.get(optimal[index]).bits > bits {
                        let ghost a1 = allocator;
                        let ghost opt1 = optimal@;
                        let x = last_match[offset];
                        let mut oslot = optimal[index];
                        allocator.assign(&mut oslot, x);
                        optimal.set(index, oslot);
                        proof {
                            lemma_opt_assign_site(
                                a1,
                                allocator,
                                x as int,
                                index as int,
                                n,
                                skip_g,
                                last_literal@,
                                last_match@,
                                opt1,
                                optimal@,
                            );
                            lemma_matches_after_assign(
                                a1,
                                allocator,
                                opt1[index as int] as int,
                                x as int,
                                input@,
                                n,
                                skip_g,
                                mo,
                            );
                            assert forall|h: int| allocator.live(h) implies #[trigger] block_matches(
                                allocator,
                                input@,
                                h,
                            ) by {}
                            let b1 = a1.blocks_view();
                            let b2 = allocator.blocks_view();
                            let po = opt1[index as int] as int;
                            assert forall|o2: int| 1 <= o2 <= mo implies lm_entry_ok(a1, last_match@[o2], o2,
                                if o2 < offset + 1 { index as int } else { index - 1 }) by {
                                if o2 == offset {
                                    assert(lm_entry_ok(a1, last_match@[o2], o2, index as int));
                                }
                            }
                            lemma_entries_after_opt_site(a1, allocator, index as int, offset as int + 1, mo, n, skip_g,
                                last_literal@, last_match@, opt1, input@);
                            assert(opt_entry_ok(allocator, optimal@[index as int], index as int));
                        }
                    }
                }


                proof {
                    assert(dp_inv(
                        allocator,
                        last_literal@,
                        last_match@,
                        optimal@,
                        match_length@,
                        best_length@,
                        n,
                        skip_g,
                        mo,
                        index as int,
                        offset + 1,
                        hw,
                        best_length_size as int,
                     input@));
                }
                let hw2 = match_step2(
                    &mut allocator,
                    &last_literal,
                    &mut last_match,
                    &mut optimal,
                    &mut match_length,
                    &mut best_length,
                    &mut best_length_size,
                    index,
                    offset,
                    skip,
                    Ghost(n),
                    Ghost(mo),
                    Ghost(hw),
                    Ghost(input@),
                );
                proof {
                    hw = hw2@;
                }

            } else {
                // Copy literals.
                literals_case(
                    &mut allocator,
                    &mut last_literal,
                    &last_match,
                    &mut optimal,
                    &mut match_length,
                    &best_length,
                    best_length_size,
                    index,
                    offset,
                    skip,
                    Ghost(n),
                    Ghost(mo),
                    Ghost(hw),
                    Ghost(input@),
                );
            }

            offset = offset + 1;
            proof {
                assert((index - skip_g) * mo + (offset - 1) <= (index - skip_g) * mo + mo);
            }
        }

        proof {
            // Offsets beyond this position's ceiling were not visited: no
            // run or literal entry can exist for them, so the per-offset
            // facts carry over to the next position.
            assert forall|o2: int|
                1 <= o2 <= mo implies run_ok(
                input@,
                o2,
                (match_length@[o2]) as int,
                index as int,
            ) by {
                if o2 <= mo_i {
                    assert(run_ok(input@, o2, (match_length@[o2]) as int, if o2 < mo_i + 1 {
                        index as int
                    } else {
                        index - 1
                    }));
                } else {
                    assert(o2 > index - 1);
                    if match_length@[o2] as int > 0 {
                        assert(run_ok(input@, o2, (match_length@[o2]) as int, index - 1));
                        assert(run_at(input@, o2, index - 1));
                        assert(false);
                    }
                    assert(run_ok(input@, o2, 0, index as int));
                }
            }
            assert forall|o2: int|
                1 <= o2 <= mo implies ll_entry_ok(
                allocator,
                input@,
                last_literal@[o2],
                o2,
                index as int,
            ) by {
                assert(ll_entry_ok(allocator, input@, last_literal@[o2], o2, if o2 < mo_i + 1 {
                    index as int
                } else {
                    index - 1
                }));
                if o2 > mo_i && last_literal@[o2] != 0 {
                    assert(o2 > index - 1);
                    assert(allocator.blocks_view()[last_literal@[o2] as int].index >= o2);
                    assert(false);
                }
            }
            assert forall|o2: int|
                1 <= o2 <= mo implies lm_entry_ok(
                allocator,
                last_match@[o2],
                o2,
                index as int,
            ) by {
                assert(lm_entry_ok(allocator, last_match@[o2], o2, if o2 < mo_i + 1 {
                    index as int
                } else {
                    index - 1
                }));
            }
        }
        index = index + 1;
        proof {
            assert((index - skip_g) * mo == (index - 1 - skip_g) * mo + mo) by (nonlinear_arith)
                requires
                    mo >= 0,
            ;
        }
    }

    let terminal = optimal[input.len() - 1];
    (allocator, terminal)
}


/// Re-establishes the table-entry facts after a new block `r` replaced the
/// handle in `last_match[offi]`: every other slot kept a handle that survived
/// with its block untouched.
proof fn lemma_entries_after_lm_site(
    a0: Allocator,
    a1: Allocator,
    offi: int,
    r: int,
    index: int,
    cut: int,
    mo: int,
    n: int,
    skip: int,
    ll0: Seq<usize>,
    lm0: Seq<usize>,
    opt0: Seq<usize>,
    input: Seq<u8>,
)
    requires
        counts_ok(a0, ll0, lm0, opt0),
        arena_wf(a0, n, skip),
        ll0.len() == mo + 1,
        lm0.len() == mo + 1,
        opt0.len() == n,
        1 <= offi <= mo,
        1 <= r,
        forall|o2: int|
            1 <= o2 <= mo && o2 != offi ==> lm_entry_ok(a0, lm0[o2], o2, if o2 < cut { index } else { index - 1 }),
        lm_entry_ok(a0, lm0[offi], offi, index),
        forall|o2: int| 1 <= o2 <= mo ==> ll_entry_ok(a0, input, ll0[o2], o2, if o2 < cut { index } else { index - 1 }),
        forall|j: int| 0 <= j < n ==> opt_entry_ok(a0, opt0[j], j),
        forall|h: int|
            0 <= h < a0.blocks_view().len() && h != r ==> same_fields(
                #[trigger] a1.blocks_view()[h],
                a0.blocks_view()[h],
            ),
        forall|h: int|
            1 <= h < a0.blocks_view().len() && a0.rc(h) >= 1 && h != lm0[offi] as int ==> h != r && a1.rc(h)
                >= 1,
        forall|h: int| 1 <= h < a0.blocks_view().len() && a0.rc(h) >= 2 ==> h != r && a1.rc(h) >= 1,
        a1.blocks_view().len() >= a0.blocks_view().len(),
    ensures
        forall|o2: int|
            1 <= o2 <= mo && o2 != offi ==> lm_entry_ok(a1, lm0[o2], o2, if o2 < cut { index } else { index - 1 }),
        forall|o2: int|
            1 <= o2 <= mo ==> ll_entry_ok(a1, input, ll0[o2], o2, if o2 < cut { index } else { index - 1 }),
        forall|j: int| 0 <= j < n ==> opt_entry_ok(a1, opt0[j], j),
{
    let b0 = a0.blocks_view();
    let b1 = a1.blocks_view();
    let prior = lm0[offi] as int;
    assert forall|o2: int|
        1 <= o2 <= mo && o2 != offi implies lm_entry_ok(a1, lm0[o2], o2, if o2 < cut { index } else { index - 1 }) by {
        let v = lm0[o2] as int;
        if v != 0 {
            assert(lm_entry_ok(a0, lm0[o2], o2, if o2 < cut { index } else { index - 1 }));
            if v == prior {
                assert(lm_entry_ok(a0, lm0[offi], offi, index));
                assert(false);
            }
            assert(v != r && a1.rc(v) >= 1);
        }
    }
    assert forall|o2: int|
        1 <= o2 <= mo implies ll_entry_ok(a1, input, ll0[o2], o2, if o2 < cut { index } else { index - 1 }) by {
        let v = ll0[o2] as int;
        if v != 0 {
            assert(ll_entry_ok(a0, input, ll0[o2], o2, if o2 < cut { index } else { index - 1 }));
            assert(block_wf(a0, v, n, skip));
            if v == prior {
                assert(lm_entry_ok(a0, lm0[offi], offi, index));
                assert(false);
            }
            assert(v != r && a1.rc(v) >= 1);
            let g2 = b0[v].next_index as int;
            lemma_ccnt_at(b0, v, g2);
            lemma_cnt_nonneg(ll0, g2);
            lemma_cnt_nonneg(lm0, g2);
            lemma_cnt_nonneg(opt0, g2);
            assert(cnt(ll0, g2) + cnt(lm0, g2) + cnt(opt0, g2) + ccnt(b0, g2) <= a0.rc(g2));
            if g2 == prior {
                lemma_cnt_at(lm0, offi, g2);
                assert(a0.rc(g2) >= 2);
            }
            assert(g2 != r && same_fields(b1[g2], b0[g2]));
        }
    }
    assert forall|j: int| 0 <= j < n implies opt_entry_ok(a1, opt0[j], j) by {
        let v = opt0[j] as int;
        if v != 0 {
            assert(opt_entry_ok(a0, opt0[j], j));
            if v == prior {
                lemma_cnt_at(lm0, offi, v);
                lemma_cnt_at(opt0, j, v);
                lemma_cnt_nonneg(ll0, v);
                lemma_ccnt_nonneg(b0, v);
                assert(cnt(ll0, v) + cnt(lm0, v) + cnt(opt0, v) + ccnt(b0, v) <= a0.rc(v));
                assert(a0.rc(v) >= 2);
            }
            assert(v != r && a1.rc(v) >= 1);
        }
    }
}


/// Re-establishes the table-entry facts after a new block `r` replaced the
/// handle in `last_literal[offi]`: every other slot kept a handle that survived
/// with its block untouched.
proof fn lemma_entries_after_ll_site(
    a0: Allocator,
    a1: Allocator,
    offi: int,
    r: int,
    index: int,
    cut: int,
    mo: int,
    n: int,
    skip: int,
    ll0: Seq<usize>,
    lm0: Seq<usize>,
    opt0: Seq<usize>,
    input: Seq<u8>,
)
    requires
        counts_ok(a0, ll0, lm0, opt0),
        arena_wf(a0, n, skip),
        ll0.len() == mo + 1,
        lm0.len() == mo + 1,
        opt0.len() == n,
        1 <= offi <= mo,
        1 <= r,
        forall|o2: int| 1 <= o2 <= mo ==> lm_entry_ok(a0, lm0[o2], o2, if o2 < cut { index } else { index - 1 }),
        forall|o2: int|
            1 <= o2 <= mo && o2 != offi ==> ll_entry_ok(a0, input, ll0[o2], o2, if o2 < cut { index } else { index - 1 }),
        ll0[offi] != 0 ==> a0.blocks_view()[ll0[offi] as int].offset == 0 && a0.blocks_view()[
            ll0[offi] as int
        ].next_index != 0 && a0.blocks_view()[a0.blocks_view()[ll0[offi] as int].next_index as int].offset
            == offi,
        forall|j: int| 0 <= j < n ==> opt_entry_ok(a0, opt0[j], j),
        forall|h: int|
            0 <= h < a0.blocks_view().len() && h != r ==> same_fields(
                #[trigger] a1.blocks_view()[h],
                a0.blocks_view()[h],
            ),
        forall|h: int|
            1 <= h < a0.blocks_view().len() && a0.rc(h) >= 1 && h != ll0[offi] as int ==> h != r && a1.rc(h)
                >= 1,
        forall|h: int| 1 <= h < a0.blocks_view().len() && a0.rc(h) >= 2 ==> h != r && a1.rc(h) >= 1,
        a1.blocks_view().len() >= a0.blocks_view().len(),
    ensures
        forall|o2: int|
            1 <= o2 <= mo ==> lm_entry_ok(a1, lm0[o2], o2, if o2 < cut { index } else { index - 1 }),
        forall|o2: int|
            1 <= o2 <= mo && o2 != offi ==> ll_entry_ok(a1, input, ll0[o2], o2, if o2 < cut { index } else { index - 1 }),
        forall|j: int| 0 <= j < n ==> opt_entry_ok(a1, opt0[j], j),
{
    let b0 = a0.blocks_view();
    let b1 = a1.blocks_view();
    let prior = ll0[offi] as int;
    assert forall|o2: int|
        1 <= o2 <= mo implies lm_entry_ok(a1, lm0[o2], o2, if o2 < cut { index } else { index - 1 }) by {
        let v = lm0[o2] as int;
        if v != 0 {
            assert(lm_entry_ok(a0, lm0[o2], o2, if o2 < cut { index } else { index - 1 }));
            if v == prior {
                assert(a0.blocks_view()[prior].offset == 0);
                assert(false);
            }
            assert(v != r && a1.rc(v) >= 1);
        }
    }
    assert forall|o2: int|
        1 <= o2 <= mo && o2 != offi implies ll_entry_ok(a1, input, ll0[o2], o2, if o2 < cut { index } else { index - 1 }) by {
        let v = ll0[o2] as int;
        if v != 0 {
            assert(ll_entry_ok(a0, input, ll0[o2], o2, if o2 < cut { index } else { index - 1 }));
            assert(block_wf(a0, v, n, skip));
            if v == prior {
                assert(a0.blocks_view()[a0.blocks_view()[prior].next_index as int].offset == offi);
                assert(false);
            }
            assert(v != r && a1.rc(v) >= 1);
            let g2 = b0[v].next_index as int;
            lemma_ccnt_at(b0, v, g2);
            lemma_cnt_nonneg(ll0, g2);
            lemma_cnt_nonneg(lm0, g2);
            lemma_cnt_nonneg(opt0, g2);
            assert(cnt(ll0, g2) + cnt(lm0, g2) + cnt(opt0, g2) + ccnt(b0, g2) <= a0.rc(g2));
            if g2 == prior {
                lemma_cnt_at(ll0, offi, g2);
                assert(a0.rc(g2) >= 2);
            }
            assert(g2 != r && same_fields(b1[g2], b0[g2]));
        }
    }
    assert forall|j: int| 0 <= j < n implies opt_entry_ok(a1, opt0[j], j) by {
        let v = opt0[j] as int;
        if v != 0 {
            assert(opt_entry_ok(a0, opt0[j], j));
            if v == prior {
                lemma_cnt_at(ll0, offi, v);
                lemma_cnt_at(opt0, j, v);
                lemma_cnt_nonneg(lm0, v);
                lemma_ccnt_nonneg(b0, v);
                assert(cnt(ll0, v) + cnt(lm0, v) + cnt(opt0, v) + ccnt(b0, v) <= a0.rc(v));
                assert(a0.rc(v) >= 2);
            }
            assert(v != r && a1.rc(v) >= 1);
        }
    }
}


/// Re-establishes the table-entry facts after `optimal[index]` was
/// repointed: all other slots kept live handles and untouched blocks.
proof fn lemma_entries_after_opt_site(
    a0: Allocator,
    a1: Allocator,
    index: int,
    cut: int,
    mo: int,
    n: int,
    skip: int,
    ll0: Seq<usize>,
    lm0: Seq<usize>,
    opt0: Seq<usize>,
    input: Seq<u8>,
)
    requires
        counts_ok(a0, ll0, lm0, opt0),
        arena_wf(a0, n, skip),
        ll0.len() == mo + 1,
        lm0.len() == mo + 1,
        opt0.len() == n,
        0 <= index < n,
        forall|o2: int| 1 <= o2 <= mo ==> lm_entry_ok(a0, lm0[o2], o2, if o2 < cut { index } else { index - 1 }),
        forall|o2: int| 1 <= o2 <= mo ==> ll_entry_ok(a0, input, ll0[o2], o2, if o2 < cut { index } else { index - 1 }),
        forall|j: int| 0 <= j < n ==> opt_entry_ok(a0, opt0[j], j),
        a1.blocks_view().len() == a0.blocks_view().len(),
        forall|h: int|
            0 <= h < a0.blocks_view().len() ==> same_fields(
                #[trigger] a1.blocks_view()[h],
                a0.blocks_view()[h],
            ),
        forall|h: int|
            1 <= h < a0.blocks_view().len() && a0.rc(h) >= 1 && h != opt0[index] ==> a1.rc(h) >= 1,
        forall|h: int| 1 <= h < a0.blocks_view().len() && a0.rc(h) >= 2 ==> a1.rc(h) >= 1,
    ensures
        forall|o2: int| 1 <= o2 <= mo ==> lm_entry_ok(a1, lm0[o2], o2, if o2 < cut { index } else { index - 1 }),
        forall|o2: int| 1 <= o2 <= mo ==> ll_entry_ok(a1, input, ll0[o2], o2, if o2 < cut { index } else { index - 1 }),
        forall|j: int| 0 <= j < n && j != index ==> opt_entry_ok(a1, opt0[j], j),
{
    let b0 = a0.blocks_view();
    let b1 = a1.blocks_view();
    let prior = opt0[index] as int;
    assert forall|o2: int|
        1 <= o2 <= mo implies lm_entry_ok(a1, lm0[o2], o2, if o2 < cut { index } else { index - 1 }) by {
        let v = lm0[o2] as int;
        if v != 0 {
            assert(lm_entry_ok(a0, lm0[o2], o2, if o2 < cut { index } else { index - 1 }));
            if v == prior {
                lemma_cnt_at(lm0, o2, v);
                lemma_cnt_at(opt0, index, v);
                lemma_cnt_nonneg(ll0, v);
                lemma_ccnt_nonneg(b0, v);
                assert(cnt(ll0, v) + cnt(lm0, v) + cnt(opt0, v) + ccnt(b0, v) <= a0.rc(v));
                assert(a0.rc(v) >= 2);
            }
            assert(a1.rc(v) >= 1);
        }
    }
    assert forall|o2: int|
        1 <= o2 <= mo implies ll_entry_ok(a1, input, ll0[o2], o2, if o2 < cut { index } else { index - 1 }) by {
        let v = ll0[o2] as int;
        if v != 0 {
            assert(ll_entry_ok(a0, input, ll0[o2], o2, if o2 < cut { index } else { index - 1 }));
            assert(block_wf(a0, v, n, skip));
            if v == prior {
                lemma_cnt_at(ll0, o2, v);
                lemma_cnt_at(opt0, index, v);
                lemma_cnt_nonneg(lm0, v);
                lemma_ccnt_nonneg(b0, v);
                assert(cnt(ll0, v) + cnt(lm0, v) + cnt(opt0, v) + ccnt(b0, v) <= a0.rc(v));
                assert(a0.rc(v) >= 2);
            }
            assert(a1.rc(v) >= 1);
            let g2 = b0[v].next_index as int;
            lemma_ccnt_at(b0, v, g2);
            lemma_cnt_nonneg(ll0, g2);
            lemma_cnt_nonneg(lm0, g2);
            lemma_cnt_nonneg(opt0, g2);
            assert(cnt(ll0, g2) + cnt(lm0, g2) + cnt(opt0, g2) + ccnt(b0, g2) <= a0.rc(g2));
            if g2 == prior {
                lemma_cnt_at(opt0, index, g2);
                assert(a0.rc(g2) >= 2);
            }
            assert(a1.rc(g2) >= 1 && same_fields(b1[g2], b0[g2]));
        }
    }
    assert forall|j: int| 0 <= j < n && j != index implies opt_entry_ok(a1, opt0[j], j) by {
        let v = opt0[j] as int;
        if v != 0 {
            assert(opt_entry_ok(a0, opt0[j], j));
            if v == prior {
                assert(opt_entry_ok(a0, opt0[index], index));
                assert(false);
            }
            assert(a1.rc(v) >= 1);
        }
    }
}


/// The joint invariant of the dynamic-programming state while input
/// position `index` is processed and offsets below `cut` are already done:
/// the arena and counting invariants hold, every table entry is a live
/// well-formed block of the right shape, and the `best_length` prefix up to
/// the high-water mark `hw` holds valid tie-broken copy lengths.
spec fn dp_inv(
    a: Allocator,
    ll: Seq<usize>,
    lm: Seq<usize>,
    opt: Seq<usize>,
    ml: Seq<usize>,
    bl: Seq<usize>,
    n: int,
    skip: int,
    mo: int,
    index: int,
    cut: int,
    hw: int,
    bls: int,
    input: Seq<u8>,
) -> bool {
    &&& a.wf()
    &&& counts_ok(a, ll, lm, opt)
    &&& arena_wf(a, n, skip)
    &&& handles_ok(a, ll)
    &&& handles_ok(a, lm)
    &&& handles_ok(a, opt)
    &&& ll.len() == mo + 1
    &&& lm.len() == mo + 1
    &&& ml.len() == mo + 1
    &&& opt.len() == n
    &&& bl.len() == n
    &&& forall|o2: int|
        1 <= o2 <= mo ==> lm_entry_ok(a, lm[o2], o2, if o2 < cut {
            index
        } else {
            index - 1
        })
    &&& forall|o2: int|
        1 <= o2 <= mo ==> ll_entry_ok(a, input, ll[o2], o2, if o2 < cut {
            index
        } else {
            index - 1
        })
    &&& forall|j: int| 0 <= j < n ==> opt_entry_ok(a, opt[j], j)
    &&& forall|j: int| skip <= j < index ==> opt[j] != 0
    &&& forall|j: int| 0 <= j < n && !(skip <= j <= index) ==> opt[j] == 0
    &&& lm[1] != 0
    &&& forall|o2: int|
        0 <= o2 <= mo ==> #[trigger] ml[o2] <= (if o2 < cut {
            index - skip
        } else if index == skip {
            0int
        } else {
            index - skip - 1
        })
    &&& (n > 2 ==> 2 <= hw <= n - 1 && (forall|s: int|
        2 <= s <= hw ==> 2 <= #[trigger] bl[s] <= s))
    &&& 2 <= bls
    &&& (bls == 2 || bls <= index - skip)
    &&& (n > 2 ==> bls <= hw)
    &&& arena_matches(a, input)
    &&& arena_capped(a, mo)
    &&& forall|o2: int|
        1 <= o2 <= mo ==> run_ok(
            input,
            o2,
            (#[trigger] ml[o2]) as int,
            if o2 < cut {
                index
            } else {
                index - 1
            },
        )
    &&& forall|o2: int| 1 <= o2 <= mo && ll[o2] != 0 ==> (#[trigger] lm[o2]) != 0
}


/// The free-list law of a well-formed arena: a block's storage is
/// recyclable exactly when no reference remains. Every handle other than
/// the null sentinel whose reference count is zero appears in the free
/// queue, the queue never lists a handle twice, and a handle with a
/// positive count never appears in it.
pub proof fn lemma_free_list_exact(a: Allocator, h: int)
    requires
        a.wf(),
        1 <= h < a.blocks_view().len(),
    ensures
        a.rc(h) == 0 ==> exists|k: int|
            0 <= k < a.free_view().len() && a.free_view()[k] == h,
        forall|k1: int, k2: int|
            0 <= k1 < k2 < a.free_view().len() ==> a.free_view()[k1] != a.free_view()[k2],
        a.rc(h) >= 1 ==> forall|k: int|
            0 <= k < a.free_view().len() ==> a.free_view()[k] != h,
{
    if a.rc(h) >= 1 {
        assert forall|k: int| 0 <= k < a.free_view().len() implies a.free_view()[k] != h by {
            assert(a.rc(a.free_view()[k] as int) == 0);
        }
    }
}


/// Input index `k` repeats the byte `o` positions earlier.
pub open spec fn run_at(input: Seq<u8>, o: int, k: int) -> bool {
    k >= o && input[k] == input[k - o]
}

/// A run of `len` bytes ending at input index `end` that repeat at distance
/// `o`: every covered byte equals the byte `o` positions earlier.
pub open spec fn run_ok(input: Seq<u8>, o: int, len: int, end: int) -> bool {
    forall|k: int| end - len < k <= end ==> #[trigger] run_at(input, o, k)
}


proof fn lemma_run_shrink(input: Seq<u8>, o: int, len1: int, len2: int, end: int)
    requires
        run_ok(input, o, len1, end),
        len2 <= len1,
    ensures
        run_ok(input, o, len2, end),
{
    assert forall|k: int| end - len2 < k <= end implies #[trigger] run_at(input, o, k) by {
        assert(end - len1 < k <= end);
    }
}

proof fn lemma_run_extend(input: Seq<u8>, o: int, len: int, end: int)
    requires
        run_ok(input, o, len, end - 1),
        run_at(input, o, end),
    ensures
        run_ok(input, o, len + 1, end),
{
    assert forall|k: int| end - len - 1 < k <= end implies #[trigger] run_at(input, o, k) by {
        if k < end {
            assert(end - 1 - len < k <= end - 1);
        } else {
            assert(run_at(input, o, end));
        }
    }
}

proof fn lemma_run_shift(input: Seq<u8>, o: int, len: int, end: int)
    requires
        run_ok(input, o, len, end - 1),
        run_at(input, o, end),
    ensures
        run_ok(input, o, len, end),
{
    lemma_run_extend(input, o, len, end);
    lemma_run_shrink(input, o, len + 1, len, end);
}

/// The live block `h` copies only bytes that really repeat in `input`.
pub open spec fn block_matches(a: Allocator, input: Seq<u8>, h: int) -> bool {
    let b = a.blocks_view()[h];
    b.offset != 0 && b.next_index != 0 ==> run_ok(
        input,
        b.offset as int,
        b.index - a.blocks_view()[b.next_index as int].index,
        b.index as int,
    )
}

/// Every live block of the arena is a faithful piece of a parse of `input`.
pub open spec fn arena_matches(a: Allocator, input: Seq<u8>) -> bool {
    forall|h: int| a.live(h) ==> #[trigger] block_matches(a, input, h)
}

/// No live block records a match offset above `cap`.
pub open spec fn arena_capped(a: Allocator, cap: int) -> bool {
    forall|h: int| a.live(h) ==> (#[trigger] a.blocks_view()[h]).offset <= cap
}

/// Repointing a slot preserves faithfulness: no block changes its fields.
proof fn lemma_matches_after_assign(
    a0: Allocator,
    a1: Allocator,
    prior: int,
    next: int,
    input: Seq<u8>,
    n: int,
    skip: int,
    cap: int,
)
    requires
        arena_matches(a0, input),
        arena_capped(a0, cap),
        arena_wf(a0, n, skip),
        0 <= prior < a0.blocks_view().len(),
        1 <= next < a0.blocks_view().len(),
        a0.rc(next) >= 1,
        a0.rc(next) + 1 <= u64::MAX,
        prior != 0 ==> a0.rc(prior) >= 1,
        a1.blocks_view() == adjust_rcs(a0.blocks_view(), prior, next),
    ensures
        forall|h: int| a1.live(h) ==> #[trigger] block_matches(a1, input, h),
        arena_capped(a1, cap),
{
    let b0 = a0.blocks_view();
    let b1 = a1.blocks_view();
    lemma_adjust_rcs(b0, prior, next);
    assert forall|h: int| a1.live(h) implies (#[trigger] a1.blocks_view()[h]).offset <= cap by {
        assert(a0.live(h));
        assert(a0.blocks_view()[h].offset <= cap);
        assert(same_fields(b1[h], b0[h]));
    }
    assert forall|h: int| a1.live(h) implies #[trigger] block_matches(a1, input, h) by {
        assert(a0.live(h));
        assert(block_wf(a0, h, n, skip));
        assert(block_matches(a0, input, h));
        assert(same_fields(b1[h], b0[h]));
        let bb = b1[h];
        if bb.offset != 0 && bb.next_index != 0 {
            assert(same_fields(b1[bb.next_index as int], b0[bb.next_index as int]));
        }
    }
}

/// Allocating a new block preserves faithfulness of every other live block:
/// the recycled slot had no remaining references, so no surviving block's
/// predecessor is overwritten.
proof fn lemma_matches_after_assign_new(
    a0: Allocator,
    a1: Allocator,
    prior: int,
    pred: int,
    r: int,
    nb: Block,
    input: Seq<u8>,
    n: int,
    skip: int,
    cap: int,
    ll0: Seq<usize>,
    lm0: Seq<usize>,
    opt0: Seq<usize>,
)
    requires
        arena_matches(a0, input),
        arena_capped(a0, cap),
        nb.offset <= cap,
        counts_ok(a0, ll0, lm0, opt0),
        arena_wf(a0, n, skip),
        0 <= prior < a0.blocks_view().len(),
        0 <= pred < a0.blocks_view().len(),
        pred != 0 ==> a0.rc(pred) >= 1,
        pred != 0 ==> a0.rc(pred) + 1 <= u64::MAX,
        prior != 0 ==> a0.rc(prior) >= 1,
        prior != 0 ==> cnt(ll0, prior) + cnt(lm0, prior) + cnt(opt0, prior) >= 1,
        nb.refcount == 1,
        nb.next_index == pred,
        1 <= r,
        r != pred,
        ({
            let mid = adjust_rcs(a0.blocks_view(), prior, pred);
            if r < a0.blocks_view().len() {
                mid[r].refcount == 0 && a1.blocks_view() == mid.update(r, nb)
            } else {
                r == a0.blocks_view().len() && a1.blocks_view() == mid.push(nb)
            }
        }),
    ensures
        forall|h: int| a1.live(h) && h != r ==> #[trigger] block_matches(a1, input, h),
        arena_capped(a1, cap),
{
    let b0 = a0.blocks_view();
    let b1 = a1.blocks_view();
    lemma_adjust_rcs(b0, prior, pred);
    assert forall|h: int| a1.live(h) implies (#[trigger] a1.blocks_view()[h]).offset <= cap by {
        if h != r {
            assert(h < b0.len());
            assert(a0.live(h));
            assert(a0.blocks_view()[h].offset <= cap);
            assert(same_fields(b1[h], b0[h]));
        } else {
            assert(b1[r] == nb);
        }
    }
    assert forall|h: int| a1.live(h) && h != r implies #[trigger] block_matches(a1, input, h) by {
        assert(h < b0.len());
        assert(a0.live(h));
        assert(block_wf(a0, h, n, skip));
        assert(block_matches(a0, input, h));
        let b = b0[h];
        assert(same_fields(b1[h], b0[h]));
        if b.next_index != 0 {
            let c = b.next_index as int;
            assert(a0.live(c));
            if c == prior {
                lemma_ccnt_at(b0, h, c);
                lemma_cnt_nonneg(ll0, c);
                lemma_cnt_nonneg(lm0, c);
                lemma_cnt_nonneg(opt0, c);
                assert(cnt(ll0, c) + cnt(lm0, c) + cnt(opt0, c) + ccnt(b0, c) <= a0.rc(c));
                assert(a0.rc(c) >= 2);
            }
            assert(c != r);
            assert(same_fields(b1[c], b0[c]));
        }
    }
}

} // verus!
