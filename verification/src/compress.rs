//! The bit emitter: walks the optimal parse chain in forward order and
//! serializes literal runs, repeat-offset matches and new-offset matches as
//! the ZX0 bitstream, using interlaced Elias-Gamma codes and the one-bit
//! backtrack trick.

use vstd::prelude::*;

use crate::gamma::gamma_bits;
use crate::gamma::lemma_gamma_linear;
use crate::gamma::lemma_gamma_mono;
use crate::gamma::lemma_gamma_pos;
use crate::gamma::lemma_gamma_pow_bound;
use crate::gamma::lemma_gamma_step;

verus! {

/// One node of the parse chain handed to the emitter: the cumulative bit
/// count of the parse ending here, the input index of the last byte covered,
/// and the match offset (`0` for a literal run, `1` for the synthetic root).
#[derive(Clone, Copy)]
pub struct Block {
    pub bits: u32,
    pub index: isize,
    pub offset: usize,
}

/// The structural well-formedness of one link of a forward parse chain
/// `c`: indexes grow, stay below the input length `n`, and the cumulative
/// bit count grows by exactly the bit cost of the token.
///
/// A literal run of length `l` costs one indicator bit, the Elias-Gamma code
/// of `l` and `8 * l` raw bits. A match is either a repeat-offset match
/// (preceded by a literal run whose own predecessor used the same offset),
/// costing one indicator bit plus the code of `l`, or a new-offset match,
/// costing the indicator bit, the code of the offset's high part, the
/// offset's low byte and the code of `l - 1`, minus the bit saved by the
/// backtrack trick.
pub open spec fn chain_step_wf(c: Seq<Block>, i: int, n: int, skip: int) -> bool {
    let p = c[i - 1];
    let b = c[i];
    let l = b.index - p.index;
    &&& p.index < b.index
    &&& b.index < n
    &&& b.bits <= 42 * (b.index - skip + 2)
    &&& if b.offset == 0 {
        &&& p.offset != 0
        &&& b.bits == p.bits + 1 + gamma_bits(l) + 8 * l
    } else {
        &&& 1 <= b.offset <= 32640
        &&& {
            ||| {
                &&& i >= 2
                &&& p.offset == 0
                &&& c[i - 2].offset == b.offset
                &&& b.bits == p.bits + 1 + gamma_bits(l)
            }
            ||| {
                &&& l >= 2
                &&& p.index >= skip
                &&& b.bits == p.bits + 8 + gamma_bits((b.offset - 1) / 128 + 1) + gamma_bits(
                    l - 1,
                )
            }
        }
    }
}

/// A forward parse chain for an input of `n` bytes with `skip` prefix bytes:
/// the synthetic root first, then one well-formed link per token, ending at
/// the final input byte.
pub open spec fn chain_wf(c: Seq<Block>, n: int, skip: int) -> bool {
    &&& 2 <= c.len()
    &&& c[0].index == skip - 1
    &&& c[0].offset == 1
    &&& c[0].bits == 0
    &&& c[c.len() - 1].index == n - 1
    &&& forall|i: int| 1 <= i < c.len() ==> chain_step_wf(c, i, n, skip)
}


/// Token `i` of chain `c` copies only bytes that really repeat: every byte
/// a match covers equals the byte `offset` positions earlier in the input.
pub open spec fn token_matches(c: Seq<Block>, input: Seq<u8>, i: int) -> bool {
    c[i].offset != 0 ==> crate::optimize::run_ok(
        input,
        c[i].offset as int,
        c[i].index - c[i - 1].index,
        c[i].index as int,
    )
}

/// The whole chain is a faithful parse of `input`: decoding it reproduces
/// the input, because literal runs carry the bytes verbatim and every match
/// repeats bytes that are present at its offset.
pub open spec fn chain_matches(c: Seq<Block>, input: Seq<u8>) -> bool {
    forall|i: int| 1 <= i < c.len() ==> #[trigger] token_matches(c, input, i)
}

/// No token of the chain uses a match offset above `cap` (in quick mode the
/// reduced offset limit, otherwise the format's full offset range).
pub open spec fn chain_capped(c: Seq<Block>, cap: int) -> bool {
    forall|i: int| 0 <= i < c.len() ==> (#[trigger] c[i]).offset <= cap
}

/// The match offset in effect when token `i` of chain `c` is emitted: the
/// offset of the latest preceding match, or the initial offset 1.
pub open spec fn last_offset_at(c: Seq<Block>, i: int) -> int
    decreases i,
{
    if i <= 1 {
        1
    } else if c[i - 1].offset != 0 {
        c[i - 1].offset as int
    } else {
        last_offset_at(c, i - 1)
    }
}

/// Cumulative bit counts never decrease along a well-formed chain.
proof fn lemma_chain_bits_mono(c: Seq<Block>, n: int, skip: int, i: int, j: int)
    requires
        chain_wf(c, n, skip),
        0 <= i <= j < c.len(),
    ensures
        c[i].bits <= c[j].bits,
    decreases j - i,
{
    if i < j {
        lemma_chain_bits_mono(c, n, skip, i, j - 1);
        assert(chain_step_wf(c, j, n, skip));
        let l = c[j].index - c[j - 1].index;
        lemma_gamma_pos(l);
        lemma_gamma_pos(l - 1);
        lemma_gamma_pos((c[j].offset - 1) / 128 + 1);
    }
}

/// The first real token of a well-formed chain is always a literal run.
proof fn lemma_first_token_literal(c: Seq<Block>, n: int, skip: int)
    requires
        chain_wf(c, n, skip),
    ensures
        c[1].offset == 0,
{
    assert(chain_step_wf(c, 1, n, skip));
}

/// A match whose offset differs from the offset in effect must be a
/// new-offset match, with the corresponding bit cost.
proof fn lemma_new_offset_kind(c: Seq<Block>, n: int, skip: int, i: int)
    requires
        chain_wf(c, n, skip),
        1 <= i < c.len(),
        c[i].offset != 0,
        c[i].offset != last_offset_at(c, i),
    ensures
        c[i].index - c[i - 1].index >= 2,
        c[i - 1].index >= skip,
        c[i].bits == c[i - 1].bits + 8 + gamma_bits((c[i].offset - 1) / 128 + 1) + gamma_bits(
            c[i].index - c[i - 1].index - 1,
        ),
{
    assert(chain_step_wf(c, i, n, skip));
    let l = c[i].index - c[i - 1].index;
    if !(l >= 2 && c[i - 1].index >= skip && c[i].bits == c[i - 1].bits + 8 + gamma_bits(
        (c[i].offset - 1) / 128 + 1,
    ) + gamma_bits(l - 1)) {
        assert(i >= 2 && c[i - 1].offset == 0 && c[i - 2].offset == c[i].offset);
        assert(last_offset_at(c, i) == last_offset_at(c, i - 1));
        if i - 1 <= 1 {
            assert(last_offset_at(c, 1) == 1);
            assert(c[0].offset == 1);
        } else {
            assert(last_offset_at(c, i - 1) == c[i - 2].offset);
        }
        assert(false);
    }
}


/// Spec-level mirror of the bit-writer state: the output bytes, the write
/// cursor, the current carrier byte's position and remaining mask, and the
/// backtrack flag. [`spec_write_byte`], [`spec_write_bit`] and
/// [`spec_write_gamma`] define, bit for bit, what the writer appends;
/// the writer's contracts state that it performs exactly these transitions.
#[verifier::ext_equal]
pub struct Stream {
    pub out: Seq<u8>,
    pub cursor: int,
    pub mask: u8,
    pub carrier: int,
    pub backtrack: bool,
}

/// Stores `v` at the cursor and advances it.
pub open spec fn spec_write_byte(s: Stream, v: u8) -> Stream {
    Stream {
        out: s.out.update(s.cursor, v),
        cursor: s.cursor + 1,
        mask: s.mask,
        carrier: s.carrier,
        backtrack: s.backtrack,
    }
}

/// Appends one bit: under backtrack it lands in the low bit of the byte
/// before the cursor; otherwise it occupies the next mask position of the
/// carrier byte, a fresh zero carrier byte being emitted first when the
/// previous one is full.
pub open spec fn spec_write_bit(s: Stream, v: u8) -> Stream {
    if s.backtrack {
        let out1 = if v != 0 {
            s.out.update(s.cursor - 1, s.out[s.cursor - 1] | 1)
        } else {
            s.out
        };
        Stream { out: out1, cursor: s.cursor, mask: s.mask, carrier: s.carrier, backtrack: false }
    } else {
        let s1 = if s.mask == 0 {
            Stream {
                out: s.out.update(s.cursor, 0),
                cursor: s.cursor + 1,
                mask: 128,
                carrier: s.cursor,
                backtrack: false,
            }
        } else {
            s
        };
        let out2 = if v != 0 {
            s1.out.update(s1.carrier, s1.out[s1.carrier] | s1.mask)
        } else {
            s1.out
        };
        Stream { out: out2, cursor: s1.cursor, mask: s1.mask / 2, carrier: s1.carrier, backtrack: false }
    }
}

/// The largest power of two not above `v` (for `v >= 1`): the position of
/// the leading one bit, where the interlaced Elias-Gamma code starts.
pub open spec fn leading_pos(v: int) -> int
    decreases v,
{
    if v < 2 {
        1
    } else {
        2 * leading_pos(v / 2)
    }
}

/// The interlaced Elias-Gamma bit sequence from marker position `pos` down:
/// a continuation bit (`1` in backwards mode, else `0`) and a data bit of
/// `value` (XOR-inverted when `invert` is set) per position, closed by the
/// opposite of the continuation bit.
pub open spec fn spec_gamma_from(s: Stream, value: usize, pos: int, backwards: bool, invert: bool) -> Stream
    decreases pos,
{
    if pos < 2 {
        spec_write_bit(
            s,
            if !backwards {
                1u8
            } else {
                0u8
            },
        )
    } else {
        let cont = spec_write_bit(
            s,
            if backwards {
                1u8
            } else {
                0u8
            },
        );
        let raw = value & ((pos / 2) as usize) != 0;
        let data = spec_write_bit(
            cont,
            if invert {
                if raw {
                    0u8
                } else {
                    1u8
                }
            } else {
                if raw {
                    1u8
                } else {
                    0u8
                }
            },
        );
        spec_gamma_from(data, value, pos / 2, backwards, invert)
    }
}


/// Powers of two.
pub open spec fn is_pow(i: int) -> bool
    decreases i,
{
    if i <= 1 {
        i == 1
    } else {
        i % 2 == 0 && is_pow(i / 2)
    }
}

proof fn lemma_leading_pos_bounds(v: int)
    requires
        v >= 1,
    ensures
        1 <= leading_pos(v) <= v < 2 * leading_pos(v),
        is_pow(leading_pos(v)),
    decreases v,
{
    if v >= 2 {
        lemma_leading_pos_bounds(v / 2);
    }
}

proof fn lemma_pow_le_leading(v: int, m: int)
    requires
        is_pow(m),
        1 <= m <= v,
    ensures
        m <= leading_pos(v),
    decreases m,
{
    if m >= 2 {
        lemma_pow_le_leading(v / 2, m / 2);
    } else {
        lemma_leading_pos_bounds(v);
    }
}

proof fn lemma_pow_between(m1: int, m2: int)
    requires
        is_pow(m1),
        is_pow(m2),
        m1 <= m2 < 2 * m1,
    ensures
        m1 == m2,
    decreases m1,
{
    if m1 >= 2 && m2 >= 2 {
        lemma_pow_between(m1 / 2, m2 / 2);
    }
}

/// The full interlaced Elias-Gamma code of `value`.
pub open spec fn spec_write_gamma(s: Stream, value: usize, backwards: bool, invert: bool) -> Stream {
    spec_gamma_from(s, value, leading_pos(value as int), backwards, invert)
}

/// The bit-level output state: the output buffer with its write cursor, the
/// position and mask of the current bit-carrier byte, the backtrack flag,
/// the input read cursor and the running surplus `diff` of bytes consumed
/// over bytes produced.
struct Context {
    backtrack: bool,
    bit_mask: u8,
    bit_index: usize,
    input_index: usize,
    output: Vec<u8>,
    output_index: usize,
    diff: isize,
}

impl Context {
    /// The spec-level stream this writer state denotes.
    spec fn stream(self) -> Stream {
        Stream {
            out: self.output@,
            cursor: self.output_index as int,
            mask: self.bit_mask,
            carrier: self.bit_index as int,
            backtrack: self.backtrack,
        }
    }

    /// Number of bit positions still free in the current carrier byte.
    spec fn avail(self) -> int {
        if self.bit_mask == 128 {
            8
        } else if self.bit_mask == 64 {
            7
        } else if self.bit_mask == 32 {
            6
        } else if self.bit_mask == 16 {
            5
        } else if self.bit_mask == 8 {
            4
        } else if self.bit_mask == 4 {
            3
        } else if self.bit_mask == 2 {
            2
        } else if self.bit_mask == 1 {
            1
        } else {
            0
        }
    }

    /// Total bit capacity left in the output buffer.
    spec fn free_bits(self) -> int {
        8 * (self.output@.len() - self.output_index) + self.avail()
    }

    spec fn wf(self) -> bool {
        &&& self.output_index <= self.output@.len()
        &&& self.output@.len() < 0x4000_0000
        &&& self.diff + self.output_index >= -0x400_0000
        &&& (self.bit_mask == 0 || self.bit_mask == 1 || self.bit_mask == 2 || self.bit_mask == 4
            || self.bit_mask == 8 || self.bit_mask == 16 || self.bit_mask == 32 || self.bit_mask
            == 64 || self.bit_mask == 128)
        &&& (self.bit_mask != 0 ==> self.bit_index < self.output_index)
    }

    /// Advances the input cursor by `n` bytes and raises `delta` to the new
    /// surplus when it grew past the old maximum.
    fn read_bytes(&mut self, n: usize, delta: &mut usize)
        requires
            old(self).input_index + n <= usize::MAX,
            n <= isize::MAX,
            old(self).diff + n <= isize::MAX,
        ensures
            final(self).input_index == old(self).input_index + n,
            final(self).diff == old(self).diff + n,
            final(self).backtrack == old(self).backtrack,
            final(self).bit_mask == old(self).bit_mask,
            final(self).bit_index == old(self).bit_index,
            final(self).output == old(self).output,
            final(self).output_index == old(self).output_index,
            *final(delta) == if *old(delta) < final(self).diff {
                final(self).diff as usize
            } else {
                *old(delta)
            },
            *final(delta) >= *old(delta),
    {
        self.input_index = self.input_index + n;
        self.diff = self.diff + (n as isize);

        if self.diff > 0 && *delta < self.diff as usize {
            *delta = self.diff as usize;
        }
    }

    /// Stores one byte at the output cursor.
    fn write_byte(&mut self, value: u8)
        requires
            old(self).wf(),
            old(self).output_index < old(self).output@.len(),
        ensures
            final(self).wf(),
            final(self).output@ == old(self).output@.update(old(self).output_index as int, value),
            final(self).output@.len() == old(self).output@.len(),
            final(self).output_index == old(self).output_index + 1,
            final(self).diff == old(self).diff - 1,
            final(self).free_bits() == old(self).free_bits() - 8,
            final(self).avail() == old(self).avail(),
            final(self).backtrack == old(self).backtrack,
            final(self).bit_mask == old(self).bit_mask,
            final(self).bit_index == old(self).bit_index,
            final(self).input_index == old(self).input_index,
            final(self).stream() == spec_write_byte(old(self).stream(), value),
    {
        self.output.set(self.output_index, value);
        self.output_index = self.output_index + 1;
        self.diff = self.diff - 1;
    }

    /// Appends one bit to the bitstream. With the backtrack flag set, the
    /// bit lands in the low bit of the byte just written instead, consuming
    /// no fresh capacity.
    fn write_bit(&mut self, value: u8)
        requires
            old(self).wf(),
            old(self).backtrack && value != 0 ==> old(self).output_index >= 1,
            !old(self).backtrack ==> old(self).free_bits() >= 1,
        ensures
            final(self).wf(),
            !final(self).backtrack,
            final(self).output@.len() == old(self).output@.len(),
            final(self).input_index == old(self).input_index,
            old(self).backtrack ==> final(self).free_bits() == old(self).free_bits()
                && final(self).output_index == old(self).output_index && final(self).diff == old(
                self,
            ).diff,
            !old(self).backtrack ==> final(self).free_bits() == old(self).free_bits() - 1
                && final(self).output_index + final(self).diff == old(self).output_index + old(
                self,
            ).diff && final(self).output_index >= old(self).output_index,
            final(self).stream() == spec_write_bit(old(self).stream(), value),
    {
        if self.backtrack {
            if value != 0 {
                let b = self.output[self.output_index - 1] | 1;
                self.output.set(self.output_index - 1, b);
            }
            self.backtrack = false;
        } else {
            if self.bit_mask == 0 {
                self.bit_index = self.output_index;
                self.write_byte(0);
                self.bit_mask = 128;
            }
            if value != 0 {
                let b = self.output[self.bit_index] | self.bit_mask;
                self.output.set(self.bit_index, b);
            }
            self.bit_mask = self.bit_mask / 2;
        }
    }

    /// Writes the interlaced Elias-Gamma code of `value`: alternating
    /// continuation and data bits, closed by an inverted continuation bit.
    /// Consumes at most `gamma_bits(value)` bits of capacity, one less when
    /// the backtrack flag absorbs the first bit.
    #[verifier::loop_isolation(false)]
    fn write_interlaced_elias_gamma(&mut self, value: usize, backwards_mode: bool, invert_mode: bool)
        requires
            old(self).wf(),
            1 <= value < 0x1000_0000,
            old(self).free_bits() >= gamma_bits(value as int) - if old(self).backtrack {
                1int
            } else {
                0int
            },
            old(self).backtrack ==> old(self).output_index >= 1,
        ensures
            final(self).wf(),
            !final(self).backtrack,
            final(self).output@.len() == old(self).output@.len(),
            final(self).input_index == old(self).input_index,
            final(self).free_bits() >= old(self).free_bits() - (gamma_bits(value as int) - if old(
                self,
            ).backtrack {
                1int
            } else {
                0int
            }),
            final(self).output_index + final(self).diff == old(self).output_index + old(self).diff,
            final(self).output_index >= old(self).output_index,
            final(self).diff <= old(self).diff,
            final(self).stream() == spec_write_gamma(
                old(self).stream(),
                value,
                backwards_mode,
                invert_mode,
            ),
    {
        let ghost target = old(self).free_bits() - (gamma_bits(value as int) - if old(
            self,
        ).backtrack {
            1int
        } else {
            0int
        });
        proof {
            lemma_gamma_pos(value as int);
        }
        assert(target >= 0);

        let mut i: usize = 2;
        proof {
            assert(is_pow(1));
            assert(is_pow(2));
            lemma_leading_pos_bounds(value as int);
        }
        while i <= value
            invariant
                2 <= i,
                i <= 2 * value,
                i % 2 == 0,
                is_pow(i as int),
                leading_pos(value as int) >= i / 2,
            decreases 2 * value - i,
        {
            proof {
                lemma_pow_le_leading(value as int, i as int);
            }
            i = i * 2;
        }

        proof {
            lemma_leading_pos_bounds(value as int);
            lemma_pow_between((i / 2) as int, leading_pos(value as int));
        }
        i = i / 2;
        assert(1 <= i <= value);
        assert(i == leading_pos(value as int));
        proof {
            lemma_gamma_mono(i as int, value as int);
        }

        while i >= 2
            invariant
                1 <= i,
                spec_gamma_from(self.stream(), value, i as int, backwards_mode, invert_mode)
                    == spec_write_gamma(old(self).stream(), value, backwards_mode, invert_mode),
                self.wf(),
                self.free_bits() >= target + gamma_bits(i as int) - if self.backtrack {
                    1int
                } else {
                    0int
                },
                self.backtrack ==> self.output_index >= 1,
                self.output@.len() == old(self).output@.len(),
                self.input_index == old(self).input_index,
                self.output_index + self.diff == old(self).output_index + old(self).diff,
                self.output_index >= old(self).output_index,
                self.diff <= old(self).diff,
            decreases i,
        {
            proof {
                lemma_gamma_pos(i as int);
                lemma_gamma_pos((i / 2) as int);
            }
            self.write_bit(
                if backwards_mode {
                    1
                } else {
                    0
                },
            );

            let pos = i / 2;
            self.write_bit(
                if invert_mode {
                    if value & pos != 0 {
                        0
                    } else {
                        1
                    }
                } else if value & pos != 0 {
                    1
                } else {
                    0
                },
            );

            i = pos;
        }

        self.write_bit(
            if !backwards_mode {
                1
            } else {
                0
            },
        );
    }
}


/// `count` input bytes starting at `from`, stored at the cursor in order.
pub open spec fn spec_copy_bytes(s: Stream, input: Seq<u8>, from: int, count: int) -> Stream
    decreases count,
{
    if count <= 0 {
        s
    } else {
        spec_write_byte(spec_copy_bytes(s, input, from, count - 1), input[from + count - 1])
    }
}

/// The bits and bytes of token `i` of forward chain `c`: a zero indicator
/// and the length code, followed by the raw bytes for a literal run;
/// a zero indicator and the length code alone for a repeat-offset match;
/// a one indicator, the offset's high-part code, its low byte and the
/// backtracked code of length minus one for a new-offset match.
pub open spec fn spec_emit_token(
    s: Stream,
    c: Seq<Block>,
    input: Seq<u8>,
    i: int,
    backwards: bool,
    invert: bool,
) -> Stream {
    let p = c[i - 1];
    let b = c[i];
    let l = b.index - p.index;
    if b.offset == 0 {
        spec_copy_bytes(
            spec_write_gamma(spec_write_bit(s, 0), l as usize, backwards, false),
            input,
            p.index + 1,
            l,
        )
    } else if b.offset == last_offset_at(c, i) {
        spec_write_gamma(spec_write_bit(s, 0), l as usize, backwards, false)
    } else {
        let s1 = spec_write_bit(s, 1);
        let s2 = spec_write_gamma(s1, ((b.offset - 1) / 128 + 1) as usize, backwards, invert);
        let lsb = if backwards {
            (((b.offset - 1) % 128) * 2) as u8
        } else {
            ((127 - (b.offset - 1) % 128) * 2) as u8
        };
        let s3 = spec_write_byte(s2, lsb);
        let s4 = Stream {
            out: s3.out,
            cursor: s3.cursor,
            mask: s3.mask,
            carrier: s3.carrier,
            backtrack: true,
        };
        spec_write_gamma(s4, (l - 1) as usize, backwards, false)
    }
}

/// The stream state after emitting tokens `1` to `t - 1` of chain `c`.
pub open spec fn spec_emit_upto(
    s0: Stream,
    c: Seq<Block>,
    input: Seq<u8>,
    t: int,
    backwards: bool,
    invert: bool,
) -> Stream
    decreases t,
{
    if t <= 1 {
        s0
    } else {
        spec_emit_token(
            spec_emit_upto(s0, c, input, t - 1, backwards, invert),
            c,
            input,
            t - 1,
            backwards,
            invert,
        )
    }
}

/// The zero-filled buffer the emitter starts from, with the backtrack flag
/// set so that the first token's indicator bit is absorbed.
pub open spec fn spec_initial(size: int) -> Stream {
    Stream {
        out: Seq::new(size as nat, |j: int| 0u8),
        cursor: 0,
        mask: 0,
        carrier: 0,
        backtrack: true,
    }
}


/// Copying advances the write cursor by exactly the byte count.
proof fn lemma_copy_cursor(s: Stream, input: Seq<u8>, from: int, count: int)
    requires
        count >= 0,
    ensures
        spec_copy_bytes(s, input, from, count).cursor == s.cursor + count,
    decreases count,
{
    if count > 0 {
        lemma_copy_cursor(s, input, from, count - 1);
    }
}

/// The surplus of input bytes consumed over output bytes produced that the
/// writer observes while token `i` consumes its input: the initial slack of
/// the sized buffer plus the input position after the token minus the bytes
/// written up to and including the token. During a literal run both advance
/// in step, so every check of that token sees this same value.
pub open spec fn spec_token_diff(
    c: Seq<Block>,
    input: Seq<u8>,
    i: int,
    size: int,
    skip: int,
    backwards: bool,
    invert: bool,
) -> int {
    size - (input.len() - skip) + (c[i].index + 1 - skip) - spec_emit_upto(
        spec_initial(size),
        c,
        input,
        i + 1,
        backwards,
        invert,
    ).cursor
}

/// The peak in-place decompression gap after the first `t - 1` tokens,
/// starting from `delta0`: the running maximum of the per-token surplus,
/// never decreasing below its initial value.
pub open spec fn spec_delta_upto(
    c: Seq<Block>,
    input: Seq<u8>,
    t: int,
    size: int,
    skip: int,
    backwards: bool,
    invert: bool,
    delta0: int,
) -> int
    decreases t,
{
    if t <= 1 {
        delta0
    } else {
        let prev = spec_delta_upto(c, input, t - 1, size, skip, backwards, invert, delta0);
        let d = spec_token_diff(c, input, t - 1, size, skip, backwards, invert);
        if prev < d {
            d
        } else {
            prev
        }
    }
}

/// The `delta` value accompanying [`zx0_stream`]: the peak surplus over the
/// whole emission, exactly as the writer accumulates it.
pub open spec fn zx0_delta(
    c: Seq<Block>,
    input: Seq<u8>,
    skip: int,
    backwards: bool,
    invert: bool,
    delta0: int,
) -> int {
    spec_delta_upto(
        c,
        input,
        c.len() as int,
        (c[c.len() - 1].bits + 25) / 8,
        skip,
        backwards,
        invert,
        delta0,
    )
}

/// The complete ZX0 bitstream of forward parse chain `c` over `input`:
/// every token emitted in order into a buffer of the pinned size, closed by
/// the end marker (a one indicator and the code of 256).
pub open spec fn zx0_stream(c: Seq<Block>, input: Seq<u8>, backwards: bool, invert: bool) -> Seq<
    u8,
> {
    let size = (c[c.len() - 1].bits + 25) / 8;
    let done = spec_emit_upto(spec_initial(size), c, input, c.len() as int, backwards, invert);
    spec_write_gamma(spec_write_bit(done, 1), 256, backwards, invert).out
}

/// Serializes the parse chain `chain` (terminal block first, synthetic root
/// last, as produced by walking the optimizer's predecessor links) over
/// `input`, returning the compressed bitstream and raising `delta` to the
/// peak surplus of bytes consumed over bytes produced.
///
/// The output buffer holds `(chain[0].bits + 25) / 8` bytes: the terminal
/// block's exact bit count plus the end marker and worst-case alignment
/// slack. The chain well-formedness precondition guarantees every write
/// stays inside it.
#[verifier::loop_isolation(false)]
#[verifier::rlimit(80)]
pub fn compress(
    chain: Vec<Block>,
    input: &[u8],
    skip: usize,
    backwards_mode: bool,
    invert_mode: bool,
    delta: &mut usize,
) -> (output: Vec<u8>)
    requires
        1 <= input@.len() <= crate::MAX_INPUT_LEN,
        skip < input@.len(),
        chain_wf(chain@.reverse(), input@.len() as int, skip as int),
    ensures
        output@.len() == (chain@[0].bits + 25) / 8,
        output@ == zx0_stream(chain@.reverse(), input@, backwards_mode, invert_mode),
        *final(delta) == zx0_delta(
            chain@.reverse(),
            input@,
            skip as int,
            backwards_mode,
            invert_mode,
            *old(delta) as int,
        ),
        *final(delta) >= *old(delta),
        *final(delta) <= *old(delta) || *final(delta) <= output@.len(),
{
    let ghost fwd = chain@.reverse();
    let ghost n = input@.len() as int;
    let ghost delta0 = *delta;

    assert(chain@.len() == fwd.len());
    assert(fwd[fwd.len() - 1] == chain@[0]);
    let ghost terminal = fwd[fwd.len() - 1];
    assert(chain_step_wf(fwd, fwd.len() - 1, n, skip as int));
    assert(terminal.bits <= 42 * (n - skip + 2));

    // Calculate and allocate the output buffer.
    let terminal_bits = chain[0].bits;
    let output_size = ((terminal_bits + 25) / 8) as usize;
    let mut output: Vec<u8> = Vec::new();
    while output.len() < output_size
        invariant
            output@.len() <= output_size,
            forall|j: int| 0 <= j < output@.len() ==> output@[j] == 0,
        decreases output_size - output@.len(),
    {
        output.push(0);
    }

    // Bring the chain into forward order.
    let mut forward: Vec<Block> = Vec::new();
    let mut k = chain.len();
    while k > 0
        invariant
            k <= chain@.len(),
            forward@.len() == chain@.len() - k,
            forall|j: int| 0 <= j < forward@.len() ==> forward@[j] == chain@[chain@.len() - 1 - j],
        decreases k,
    {
        k = k - 1;
        forward.push(chain[k]);
    }
    assert(forward@ =~= fwd);

    let mut last_offset: usize = crate::INITIAL_OFFSET;

    let mut context = Context {
        backtrack: true,
        bit_mask: 0,
        bit_index: 0,
        input_index: skip,
        output,
        output_index: 0,
        diff: output_size as isize - input.len() as isize + skip as isize,
    };
    assert(context.free_bits() == 8 * output_size);
    let ghost s0 = spec_initial(output_size as int);
    proof {
        assert(context.output@ =~= s0.out);
        assert(context.stream() =~= s0);
    }

    let mut t: usize = 1;
    while t < forward.len()
        invariant
            1 <= t <= fwd.len(),
            context.wf(),
            context.output@.len() == output_size,
            context.backtrack <==> t == 1,
            context.input_index == fwd[t - 1].index + 1,
            context.free_bits() >= terminal.bits - fwd[t - 1].bits + 18 - if t == 1 {
                1int
            } else {
                0int
            },
            context.diff == output_size - (n - skip) + (context.input_index - skip)
                - context.output_index,
            last_offset == last_offset_at(fwd, t as int),
            1 <= last_offset <= 32640,
            context.stream() == spec_emit_upto(
                s0,
                fwd,
                input@,
                t as int,
                backwards_mode,
                invert_mode,
            ),
            *delta == spec_delta_upto(
                fwd,
                input@,
                t as int,
                output_size as int,
                skip as int,
                backwards_mode,
                invert_mode,
                delta0 as int,
            ),
            *delta >= delta0,
            *delta == delta0 || *delta <= output_size,
        decreases fwd.len() - t,
    {
        let ghost s_before = context.stream();
        let previous_block = forward[t - 1];
        let current_block = forward[t];
        assert(chain_step_wf(fwd, t as int, n, skip as int));
        proof {
            lemma_chain_bits_mono(fwd, n, skip as int, t as int, fwd.len() - 1);
        }
        let ghost l = current_block.index - previous_block.index;
        let length = (current_block.index - previous_block.index) as usize;
        proof {
            lemma_gamma_pos(l);
            lemma_gamma_linear(l);
        }

        if current_block.offset == 0 {
            // Literal run: indicator bit, length code, then the raw bytes.
            context.write_bit(0);
            context.write_interlaced_elias_gamma(length, backwards_mode, false);
            let ghost s_coded = context.stream();
            proof {
                lemma_copy_cursor(s_coded, input@, previous_block.index + 1, l);
                assert(spec_emit_upto(s0, fwd, input@, t + 1, backwards_mode, invert_mode)
                    == spec_copy_bytes(s_coded, input@, previous_block.index + 1, l));
            }

            let mut j: usize = 0;
            while j < length
                invariant
                    j <= length,
                    context.wf(),
                    !context.backtrack,
                    context.output@.len() == output_size,
                    context.input_index == previous_block.index + 1 + j,
                    context.free_bits() >= terminal.bits - current_block.bits + 18 + 8 * (length
                        - j),
                    context.diff == output_size - (n - skip) + (context.input_index - skip)
                        - context.output_index,
                    context.stream() == spec_copy_bytes(
                        s_coded,
                        input@,
                        previous_block.index + 1,
                        j as int,
                    ),
                    j == 0 ==> *delta == spec_delta_upto(
                        fwd,
                        input@,
                        t as int,
                        output_size as int,
                        skip as int,
                        backwards_mode,
                        invert_mode,
                        delta0 as int,
                    ),
                    j > 0 ==> *delta == spec_delta_upto(
                        fwd,
                        input@,
                        t + 1,
                        output_size as int,
                        skip as int,
                        backwards_mode,
                        invert_mode,
                        delta0 as int,
                    ),
                    *delta >= delta0,
                    *delta == delta0 || *delta <= output_size,
                decreases length - j,
            {
                assert(context.avail() <= 8);
                assert(context.output_index < context.output@.len());
                let byte = input[context.input_index];
                context.write_byte(byte);
                context.read_bytes(1, delta);
                proof {
                    lemma_copy_cursor(s_coded, input@, previous_block.index + 1, j + 1);
                    assert(context.diff == spec_token_diff(
                        fwd,
                        input@,
                        t as int,
                        output_size as int,
                        skip as int,
                        backwards_mode,
                        invert_mode,
                    ));
                }
                j = j + 1;
            }
            proof {
                assert(context.stream() == spec_emit_token(
                    s_before,
                    fwd,
                    input@,
                    t as int,
                    backwards_mode,
                    invert_mode,
                ));
            }
        } else if current_block.offset == last_offset {
            // Repeat-offset match: indicator bit and length code only.
            assert(t >= 2) by {
                lemma_first_token_literal(fwd, n, skip as int);
            }
            assert(current_block.bits >= previous_block.bits + 1 + gamma_bits(l)) by {
                if l >= 2 {
                    lemma_gamma_step(l);
                    lemma_gamma_pos(l - 1);
                    lemma_gamma_pos((current_block.offset - 1) / 128 + 1);
                }
            }
            context.write_bit(0);
            context.write_interlaced_elias_gamma(length, backwards_mode, false);
            context.read_bytes(length, delta);
            proof {
                assert(context.stream() == spec_emit_token(
                    s_before,
                    fwd,
                    input@,
                    t as int,
                    backwards_mode,
                    invert_mode,
                ));
                assert(context.diff == spec_token_diff(
                    fwd,
                    input@,
                    t as int,
                    output_size as int,
                    skip as int,
                    backwards_mode,
                    invert_mode,
                ));
            }
        } else {
            // New-offset match: indicator bit, offset high part, offset low
            // byte, then the length code with the backtrack trick.
            assert(t >= 2) by {
                lemma_first_token_literal(fwd, n, skip as int);
            }
            proof {
                lemma_new_offset_kind(fwd, n, skip as int, t as int);
                lemma_gamma_pos((current_block.offset - 1) / 128 + 1);
                lemma_gamma_pos(l - 1);
                assert(vstd::arithmetic::power2::pow2(9) == 512) by {
                    vstd::arithmetic::power2::lemma2_to64();
                }
                lemma_gamma_pow_bound((current_block.offset - 1) / 128 + 1, 9);
            }
            context.write_bit(1);
            context.write_interlaced_elias_gamma(
                (current_block.offset - 1) / 128 + 1,
                backwards_mode,
                invert_mode,
            );

            assert(context.avail() <= 8);
            assert(context.output_index < context.output@.len());
            if backwards_mode {
                context.write_byte((((current_block.offset - 1) % 128) * 2) as u8);
            } else {
                context.write_byte(((127 - (current_block.offset - 1) % 128) * 2) as u8);
            }

            context.backtrack = true;
            context.write_interlaced_elias_gamma(length - 1, backwards_mode, false);
            context.read_bytes(length, delta);
            proof {
                assert(context.stream() == spec_emit_token(
                    s_before,
                    fwd,
                    input@,
                    t as int,
                    backwards_mode,
                    invert_mode,
                ));
                assert(context.diff == spec_token_diff(
                    fwd,
                    input@,
                    t as int,
                    output_size as int,
                    skip as int,
                    backwards_mode,
                    invert_mode,
                ));
            }

            last_offset = current_block.offset;
        }

        proof {
            assert(last_offset_at(fwd, t + 1) == if fwd[t as int].offset != 0 {
                fwd[t as int].offset as int
            } else {
                last_offset_at(fwd, t as int)
            });
            assert(spec_emit_upto(s0, fwd, input@, t + 1, backwards_mode, invert_mode)
                == spec_emit_token(
                spec_emit_upto(s0, fwd, input@, t as int, backwards_mode, invert_mode),
                fwd,
                input@,
                t as int,
                backwards_mode,
                invert_mode,
            ));
        }
        t = t + 1;
    }

    // End marker.
    assert(t == fwd.len());
    proof {
        assert(vstd::arithmetic::power2::pow2(9) == 512) by {
            vstd::arithmetic::power2::lemma2_to64();
        }
        lemma_gamma_pow_bound(256, 9);
        lemma_gamma_pos(256);
    }
    context.write_bit(1);
    context.write_interlaced_elias_gamma(256, backwards_mode, invert_mode);
    proof {
        assert(context.output@ == zx0_stream(fwd, input@, backwards_mode, invert_mode));
    }

    context.output
}

} // verus!
