//! A verified ZX0 compressor.
//!
//! ZX0 is a byte-oriented LZ77-style compression format aimed at
//! size-constrained targets. The compressor works in two stages: a
//! dynamic-programming search over all byte positions and match offsets that
//! produces the bit-optimal parse ([`optimize`](optimize::optimize)), and a
//! bit-level emitter that serializes the parse with interlaced Elias-Gamma
//! codes ([`compress`](compress::compress)).
//!
//! The compressor can be driven through a [`Compressor`] instance, configured
//! with the builder methods, or through the top level [`compress`](compress())
//! shortcut that uses the default settings.

use vstd::prelude::*;

pub mod compress;
pub mod compressor;
pub mod gamma;
pub mod optimize;

pub use compressor::CompressionResult;
pub use compressor::Compressor;

verus! {

/// Offset value reserved for the synthetic root block of a parse chain.
pub const INITIAL_OFFSET: usize = 1;

/// Largest match offset representable by the standard bitstream format.
pub const MAX_OFFSET_ZX0: usize = 32640;

/// Largest match offset used in quick mode.
pub const MAX_OFFSET_ZX7: usize = 2176;

/// Largest supported input length. Keeping inputs below 64 MiB guarantees
/// that the cumulative bit counts of the parse graph fit in 32 bits.
pub const MAX_INPUT_LEN: usize = 0x400_0000;

/// Compresses the input with the default settings: no prefix skipping and
/// all mode switches off. Shortcut for building a [`Compressor`] and taking
/// the output of its `compress` method.
pub fn compress(input: &[u8]) -> (r: Vec<u8>)
    requires
        1 <= input@.len() <= MAX_INPUT_LEN,
    ensures
        r@.len() >= 1,
        exists|c: Seq<compress::Block>|
            {
                &&& #[trigger] compress::chain_wf(c, input@.len() as int, 0)
                &&& compress::chain_matches(c, input@)
                &&& compress::chain_capped(c, MAX_OFFSET_ZX0 as int)
                &&& r@ == compress::zx0_stream(c, input@, false, true)
            },
{
    let mut compressor = Compressor::new();
    compressor.compress(input).output
}

} // verus!
