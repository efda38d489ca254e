//! The compressor front end: configuration via the builder pattern and the
//! glue that runs the optimizer, rebuilds the parse chain in forward order
//! and hands it to the bit emitter.

use vstd::prelude::*;

use crate::compress::chain_capped;
use crate::compress::chain_matches;
use crate::compress::chain_step_wf;
use crate::compress::chain_wf;
use crate::compress::token_matches;
use crate::compress::zx0_delta;
use crate::compress::zx0_stream;
use crate::optimize::arena_matches;
use crate::optimize::arena_wf;
use crate::optimize::block_matches;
use crate::optimize::block_wf;
use crate::optimize::optimize;

verus! {

/// The compressed data together with metadata about the compression run.
pub struct CompressionResult {
    /// The compressed output data.
    pub output: Vec<u8>,
    /// The minimum gap to keep between the end of the compressed data and the
    /// end of the uncompressed data when decompressing in place (between the
    /// two start addresses in backwards mode).
    pub delta: usize,
}

/// Configures and performs ZX0 compression runs.
///
/// A fresh instance from [`Compressor::new`] uses the default settings: no
/// prefix skipping, quick mode disabled, backwards mode disabled, classic
/// mode disabled. The builder methods change one setting each; `compress`
/// may be called any number of times on the same instance.
pub struct Compressor {
    skip: usize,
    quick_mode: bool,
    backwards_mode: bool,
    classic_mode: bool,
}

impl Compressor {
    /// Number of input bytes used only as a dictionary prefix.
    pub closed spec fn skip_spec(self) -> usize {
        self.skip
    }

    /// Whether quick mode (the reduced offset limit) is enabled.
    pub closed spec fn quick_mode_spec(self) -> bool {
        self.quick_mode
    }

    /// Whether the bitstream is meant for back-to-front decompression.
    pub closed spec fn backwards_mode_spec(self) -> bool {
        self.backwards_mode
    }

    /// Whether the legacy v1 bit format is selected.
    pub closed spec fn classic_mode_spec(self) -> bool {
        self.classic_mode
    }

    /// Creates a compressor with the default settings: skip 0 and all modes
    /// disabled.
    pub fn new() -> (c: Self)
        ensures
            c.skip_spec() == 0,
            !c.quick_mode_spec(),
            !c.backwards_mode_spec(),
            !c.classic_mode_spec(),
    {
        Self { skip: 0, quick_mode: false, backwards_mode: false, classic_mode: false }
    }

    /// Enables or disables quick mode: a smaller offset limit, trading
    /// compression ratio for speed.
    pub fn quick_mode(&mut self, quick_mode: bool)
        ensures
            final(self).quick_mode_spec() == quick_mode,
            final(self).skip_spec() == old(self).skip_spec(),
            final(self).backwards_mode_spec() == old(self).backwards_mode_spec(),
            final(self).classic_mode_spec() == old(self).classic_mode_spec(),
    {
        self.quick_mode = quick_mode;
    }

    /// Enables or disables backwards mode: a bitstream meant to be
    /// decompressed back to front, which allows in-place expansion when the
    /// end of the compressed data overlaps the end of the target region.
    pub fn backwards_mode(&mut self, backwards_mode: bool)
        ensures
            final(self).backwards_mode_spec() == backwards_mode,
            final(self).skip_spec() == old(self).skip_spec(),
            final(self).quick_mode_spec() == old(self).quick_mode_spec(),
            final(self).classic_mode_spec() == old(self).classic_mode_spec(),
    {
        self.backwards_mode = backwards_mode;
    }

    /// Enables or disables classic mode: the legacy v1 bit format, for
    /// targets that only ship a v1 decompression routine.
    pub fn classic_mode(&mut self, classic_mode: bool)
        ensures
            final(self).classic_mode_spec() == classic_mode,
            final(self).skip_spec() == old(self).skip_spec(),
            final(self).quick_mode_spec() == old(self).quick_mode_spec(),
            final(self).backwards_mode_spec() == old(self).backwards_mode_spec(),
    {
        self.classic_mode = classic_mode;
    }

    /// Sets the number of prefix bytes (suffix bytes in backwards mode) that
    /// the decompressor will already have in memory; they are used only as a
    /// dictionary.
    pub fn skip(&mut self, skip: usize)
        ensures
            final(self).skip_spec() == skip,
            final(self).quick_mode_spec() == old(self).quick_mode_spec(),
            final(self).backwards_mode_spec() == old(self).backwards_mode_spec(),
            final(self).classic_mode_spec() == old(self).classic_mode_spec(),
    {
        self.skip = skip;
    }

    /// Compresses `input`, returning the bitstream together with the peak
    /// surplus `delta` of bytes consumed over bytes produced, which bounds
    /// the gap needed for in-place decompression and never exceeds the
    /// output length.
    #[verifier::loop_isolation(false)]
    #[verifier::rlimit(60)]
    pub fn compress(&mut self, input: &[u8]) -> (r: CompressionResult)
        requires
            1 <= input@.len() <= crate::MAX_INPUT_LEN,
            old(self).skip_spec() < input@.len(),
        ensures
            *final(self) == *old(self),
            r.delta <= r.output@.len(),
            r.output@.len() >= 1,
            exists|c: Seq<crate::compress::Block>|
                {
                    &&& #[trigger] chain_wf(c, input@.len() as int, old(self).skip_spec() as int)
                    &&& chain_matches(c, input@)
                    &&& chain_capped(
                        c,
                        if old(self).quick_mode_spec() {
                            crate::MAX_OFFSET_ZX7 as int
                        } else {
                            crate::MAX_OFFSET_ZX0 as int
                        },
                    )
                    &&& r.output@ == zx0_stream(
                        c,
                        input@,
                        old(self).backwards_mode_spec(),
                        !old(self).classic_mode_spec() && !old(self).backwards_mode_spec(),
                    )
                    &&& r.delta == zx0_delta(
                        c,
                        input@,
                        old(self).skip_spec() as int,
                        old(self).backwards_mode_spec(),
                        !old(self).classic_mode_spec() && !old(self).backwards_mode_spec(),
                        0,
                    )
                },
    {
        let ghost n = input@.len() as int;
        let ghost skip_g = self.skip as int;

        let (allocator, terminal) = optimize(
            input,
            self.skip,
            if self.quick_mode {
                crate::MAX_OFFSET_ZX7
            } else {
                crate::MAX_OFFSET_ZX0
            },
        );

        let mut chain: Vec<crate::compress::Block> = Vec::new();
        let ghost mut handles: Seq<int> = Seq::empty();
        let mut optimal = terminal;
        proof {
            assert(block_wf(allocator, terminal as int, n, skip_g));
        }

        while optimal != 0
            invariant
                allocator.wf(),
                arena_wf(allocator, n, skip_g),
                optimal < allocator.blocks_view().len(),
                optimal != 0 ==> allocator.live(optimal as int),
                optimal != 0 && chain@.len() == 0 ==> allocator.blocks_view()[
                    optimal as int
                ].index == n - 1,
                handles.len() == chain@.len(),
                forall|k: int|
                    0 <= k < chain@.len() ==> {
                        let h = #[trigger] handles[k];
                        &&& allocator.live(h)
                        &&& chain@[k].bits == allocator.blocks_view()[h].bits
                        &&& chain@[k].index == allocator.blocks_view()[h].index
                        &&& chain@[k].offset == allocator.blocks_view()[h].offset
                    },
                forall|k: int|
                    0 <= k < chain@.len() - 1 ==> allocator.blocks_view()[
                        #[trigger] handles[k]
                    ].next_index == handles[k + 1],
                chain@.len() > 0 ==> allocator.blocks_view()[
                    handles[chain@.len() - 1]
                ].next_index == optimal,
                chain@.len() > 0 ==> chain@[0].index == n - 1,
                chain@.len() == 0 ==> optimal == terminal,
            decreases (if optimal == 0 {
                0int
            } else {
                allocator.blocks_view()[optimal as int].index - skip_g + 2
            }),
        {
            proof {
                assert(block_wf(allocator, optimal as int, n, skip_g));
            }
            let oblock = *allocator.get(optimal);

            chain.push(
                crate::compress::Block {
                    bits: oblock.bits,
                    index: oblock.index as isize,
                    offset: oblock.offset as usize,
                },
            );
            proof {
                handles = handles.push(optimal as int);
                if oblock.next_index != 0 {
                    assert(block_wf(allocator, oblock.next_index as int, n, skip_g));
                }
            }

            optimal = oblock.next_index;
        }

        let ghost fwd = chain@.reverse();
        proof {
            let bv = allocator.blocks_view();
            let len = chain@.len();
            assert(len >= 1);
            assert(bv[handles[len - 1]].next_index == 0);
            assert(block_wf(allocator, handles[len - 1], n, skip_g));
            if len == 1 {
                assert(chain@[0].index == n - 1 && chain@[0].index == skip_g - 1);
                assert(false);
            }
            assert(fwd.len() == len);
            assert forall|i: int| 1 <= i < fwd.len() implies chain_step_wf(fwd, i, n, skip_g) by {
                let k = len - 1 - i;
                assert(fwd[i] == chain@[k]);
                assert(fwd[i - 1] == chain@[k + 1]);
                let h = handles[k];
                assert(block_wf(allocator, h, n, skip_g));
                assert(bv[h].next_index == handles[k + 1]);
                assert(block_wf(allocator, handles[k + 1], n, skip_g));
                if i >= 2 {
                    assert(fwd[i - 2] == chain@[k + 2]);
                    assert(bv[handles[k + 1]].next_index == handles[k + 2]);
                }
                if i == 1 {
                    assert(bv[handles[k + 1]].next_index == 0);
                }
            }
            assert(chain_wf(fwd, n, skip_g));
            assert forall|i: int| 1 <= i < fwd.len() implies #[trigger] token_matches(
                fwd,
                input@,
                i,
            ) by {
                let k = len - 1 - i;
                let h = handles[k];
                if fwd[i].offset != 0 {
                    assert(block_matches(allocator, input@, h));
                    assert(bv[h].next_index == handles[k + 1]);
                    assert(allocator.live(handles[k + 1]));
                    assert(fwd[i - 1].index == bv[handles[k + 1]].index);
                }
            }
            assert(chain_matches(fwd, input@));
            assert forall|i: int| 0 <= i < fwd.len() implies (#[trigger] fwd[i]).offset <= (
            if old(self).quick_mode_spec() {
                crate::MAX_OFFSET_ZX7 as int
            } else {
                crate::MAX_OFFSET_ZX0 as int
            }) by {
                let k = len - 1 - i;
                let h = handles[k];
                assert(allocator.live(h));
                assert(allocator.blocks_view()[h].offset <= (if old(self).quick_mode_spec() {
                    crate::MAX_OFFSET_ZX7 as int
                } else {
                    crate::MAX_OFFSET_ZX0 as int
                }));
            }
            assert(chain_capped(
                fwd,
                if old(self).quick_mode_spec() {
                    crate::MAX_OFFSET_ZX7 as int
                } else {
                    crate::MAX_OFFSET_ZX0 as int
                },
            ));
        }

        let invert_mode = !self.classic_mode && !self.backwards_mode;
        let mut delta: usize = 0;

        let output = crate::compress::compress(
            chain,
            input,
            self.skip,
            self.backwards_mode,
            invert_mode,
            &mut delta,
        );
        proof {
            assert(chain_wf(fwd, input@.len() as int, old(self).skip_spec() as int)
                && chain_matches(fwd, input@) && output@ == zx0_stream(
                fwd,
                input@,
                old(self).backwards_mode_spec(),
                !old(self).classic_mode_spec() && !old(self).backwards_mode_spec(),
            ) && chain_capped(
                fwd,
                if old(self).quick_mode_spec() {
                    crate::MAX_OFFSET_ZX7 as int
                } else {
                    crate::MAX_OFFSET_ZX0 as int
                },
            ) && delta == zx0_delta(
                fwd,
                input@,
                old(self).skip_spec() as int,
                old(self).backwards_mode_spec(),
                !old(self).classic_mode_spec() && !old(self).backwards_mode_spec(),
                0,
            ));
        }

        CompressionResult { output, delta }
    }
}

impl Default for Compressor {
    /// Same settings as [`Compressor::new`].
    fn default() -> (c: Self)
        ensures
            c.skip_spec() == 0,
            !c.quick_mode_spec(),
            !c.backwards_mode_spec(),
            !c.classic_mode_spec(),
    {
        Self::new()
    }
}

} // verus!
