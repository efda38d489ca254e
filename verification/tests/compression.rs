//! End-to-end tests: compressed streams are deterministic, respect the
//! delta bound, and decode back to the original input in every mode.

use zx0::compress;
use zx0::Compressor;

/// Bit-level reader for ZX0 streams, mirroring the encoder's conventions:
/// carrier bytes are consumed high bit first, and the backtrack flag makes
/// the next bit come from the low bit of the last data byte.
struct Reader<'a> {
    data: &'a [u8],
    pos: usize,
    bit_mask: u8,
    bit_value: u8,
    backtrack: bool,
    last_byte: u8,
}

impl<'a> Reader<'a> {
    fn new(data: &'a [u8]) -> Self {
        Reader { data, pos: 0, bit_mask: 0, bit_value: 0, backtrack: false, last_byte: 0 }
    }

    fn byte(&mut self) -> u8 {
        let b: u8 = self.data[self.pos];
        self.pos += 1;
        b
    }

    fn bit(&mut self) -> bool {
        if self.backtrack {
            self.backtrack = false;
            return self.last_byte & 1 != 0;
        }
        self.bit_mask >>= 1;
        if self.bit_mask == 0 {
            self.bit_value = self.byte();
            self.bit_mask = 128;
        }
        self.bit_value & self.bit_mask != 0
    }

    fn elias(&mut self, backwards: bool, inverted: bool) -> usize {
        let mut value: usize = 1;
        loop {
            let cont: bool = self.bit();
            let stop: bool = if backwards { !cont } else { cont };
            if stop {
                break;
            }
            let mut data_bit: bool = self.bit();
            if inverted {
                data_bit = !data_bit;
            }
            value = (value << 1) | (data_bit as usize);
        }
        value
    }
}

/// Decodes a ZX0 stream produced with the given mode switches, seeded with
/// the dictionary `prefix`, and returns prefix plus decompressed data.
fn decompress(data: &[u8], prefix: &[u8], backwards: bool, classic: bool) -> Vec<u8> {
    let inverted: bool = !classic && !backwards;
    let mut out: Vec<u8> = prefix.to_vec();
    let mut r = Reader::new(data);
    let mut last_offset: usize = 1;
    // 0: literal run, 1: repeat-offset match, 2: new-offset match.
    let mut state: u8 = 0;
    loop {
        if state == 0 {
            let length: usize = r.elias(backwards, false);
            for _ in 0..length {
                let b: u8 = r.byte();
                out.push(b);
            }
            state = if r.bit() { 2 } else { 1 };
        } else if state == 1 {
            let length: usize = r.elias(backwards, false);
            for _ in 0..length {
                let b: u8 = out[out.len() - last_offset];
                out.push(b);
            }
            state = if r.bit() { 2 } else { 0 };
        } else {
            let msb: usize = r.elias(backwards, inverted);
            if msb == 256 {
                break;
            }
            let low: u8 = r.byte();
            last_offset = if backwards {
                128 * msb - 127 + (low >> 1) as usize
            } else {
                128 * msb - (low >> 1) as usize
            };
            r.backtrack = true;
            r.last_byte = low;
            let length: usize = r.elias(backwards, false) + 1;
            for _ in 0..length {
                let b: u8 = out[out.len() - last_offset];
                out.push(b);
            }
            state = if r.bit() { 2 } else { 0 };
        }
    }
    out
}

/// Deterministic byte generator (64-bit linear congruential step).
fn pseudo_random(len: usize, seed: u64) -> Vec<u8> {
    let mut v: Vec<u8> = Vec::new();
    let mut s: u64 = seed;
    for _ in 0..len {
        s = s.wrapping_mul(6364136223846793005).wrapping_add(1442695040888963407);
        v.push((s >> 33) as u8);
    }
    v
}

/// Compresses twice with fresh compressors, checks determinism and the
/// delta bound, decodes the stream and compares it with the input.
fn check_roundtrip(
    input: &[u8],
    skip: usize,
    quick: bool,
    backwards: bool,
    classic: bool,
) -> (Vec<u8>, usize) {
    let mut c = Compressor::new();
    c.skip(skip);
    c.quick_mode(quick);
    c.backwards_mode(backwards);
    c.classic_mode(classic);
    let result = c.compress(input);

    let mut c2 = Compressor::new();
    c2.skip(skip);
    c2.quick_mode(quick);
    c2.backwards_mode(backwards);
    c2.classic_mode(classic);
    let again = c2.compress(input);
    assert_eq!(result.output, again.output);
    assert_eq!(result.delta, again.delta);

    let residual: usize = input.len() - skip;
    let bound: usize = if result.output.len() > residual { result.output.len() } else { residual };
    assert!(result.delta <= bound);

    let decoded = decompress(&result.output, &input[..skip], backwards, classic);
    assert_eq!(decoded, input);

    (result.output, result.delta)
}

#[test]
fn single_byte_exact_stream() {
    let mut c = Compressor::new();
    let result = c.compress(&[42]);
    assert_eq!(result.output, vec![0xd5, 0x2a, 0x55, 0x60]);
    assert_eq!(result.delta, 2);
}

#[test]
fn repeated_pattern_default() {
    let input: Vec<u8> = b"abcabcabcabcabcabc".to_vec();
    assert_eq!(input.len(), 18);
    let (output, _delta) = check_roundtrip(&input, 0, false, false, false);
    assert!(output.len() < input.len());
}

#[test]
fn random_default() {
    let input = pseudo_random(4096, 1);
    check_roundtrip(&input, 0, false, false, false);
}

#[test]
fn random_quick() {
    let input = pseudo_random(4096, 1);
    check_roundtrip(&input, 0, true, false, false);
}

#[test]
fn random_backwards() {
    let input = pseudo_random(4096, 1);
    check_roundtrip(&input, 0, false, true, false);
}

#[test]
fn random_classic() {
    let input = pseudo_random(4096, 1);
    check_roundtrip(&input, 0, false, false, true);
}

#[test]
fn random_with_prefix() {
    let input = pseudo_random(2048, 7);
    check_roundtrip(&input, 1024, false, false, false);
}

#[test]
fn tiny_inputs() {
    check_roundtrip(&[0], 0, false, false, false);
    check_roundtrip(&[7], 0, false, true, false);
    check_roundtrip(&[9], 0, false, false, true);
    check_roundtrip(&[1, 2], 0, false, false, false);
    check_roundtrip(&[1, 1, 1], 0, false, false, false);
}

#[test]
fn skip_all_but_one() {
    let input = pseudo_random(256, 3);
    let (output, delta) = check_roundtrip(&input, 255, false, false, false);
    // One literal token plus the end marker, exactly as for a one-byte input.
    assert_eq!(output.len(), 4);
    assert_eq!(delta, 2);
    check_roundtrip(&input, 255, false, true, false);
}

#[test]
fn long_zero_run() {
    let zeros: Vec<u8> = vec![0; 4096];
    let (output, _delta) = check_roundtrip(&zeros, 0, false, false, false);
    assert!(output.len() < 64);

    let more_zeros: Vec<u8> = vec![0; 16384];
    let (output2, _delta2) = check_roundtrip(&more_zeros, 0, true, false, false);
    assert!(output2.len() < 64);
}

#[test]
fn incompressible_overhead() {
    let input = pseudo_random(4096, 11);
    let (output, _delta) = check_roundtrip(&input, 0, false, false, false);
    assert!(output.len() <= input.len() + 64);
}

#[test]
fn shortcut_matches_compressor() {
    let input = pseudo_random(512, 5);
    let shortcut = compress(&input);
    let mut c = Compressor::new();
    let result = c.compress(&input);
    assert_eq!(shortcut, result.output);
}

#[test]
fn all_mode_combinations_roundtrip() {
    let mut input = pseudo_random(384, 13);
    // Splice in repeated stretches so matches at several offsets appear.
    for i in 0..128 {
        let b: u8 = input[i];
        input.push(b);
    }
    for skip in [0usize, 1, 200] {
        for backwards in [false, true] {
            for classic in [false, true] {
                check_roundtrip(&input, skip, false, backwards, classic);
            }
        }
    }
}

#[test]
fn compressor_is_reusable() {
    let input1 = pseudo_random(300, 17);
    let input2 = pseudo_random(300, 19);
    let mut c = Compressor::new();
    let first = c.compress(&input1);
    let second = c.compress(&input2);
    let third = c.compress(&input1);
    assert_eq!(first.output, third.output);
    assert_ne!(first.output, second.output);
}
