//! The RIFF/WAVE container header.
//!
//! The output is a canonical little-endian RIFF/WAVE PCM file: mono,
//! 16-bit samples, `fmt ` chunk of size 16, format tag 1, block align 2.
//! The RIFF size and the `data` chunk size are written as zero
//! placeholders when the stream starts and patched with the true values
//! once every sample is flushed.

use vstd::prelude::*;

verus! {

/// The little-endian bytes of a 32-bit value.
pub open spec fn spec_le32(x: int) -> Seq<u8> {
    seq![
        (x % 256) as u8,
        ((x / 256) % 256) as u8,
        ((x / 65536) % 256) as u8,
        ((x / 16777216) % 256) as u8,
    ]
}

/// The 44 header bytes written before any sample: `RIFF`, a zero size
/// placeholder, `WAVE`, the 16-byte PCM `fmt ` chunk for one 16-bit
/// channel at `fps` frames per second, and a `data` chunk with a zero
/// size placeholder.
pub open spec fn spec_wav_header(fps: int) -> Seq<u8> {
    seq![82u8, 73u8, 70u8, 70u8, 0u8, 0u8, 0u8, 0u8, 87u8, 65u8, 86u8, 69u8]
        + seq![102u8, 109u8, 116u8, 32u8, 16u8, 0u8, 0u8, 0u8, 1u8, 0u8, 1u8, 0u8]
        + spec_le32(fps) + spec_le32(fps * 2) + seq![2u8, 0u8, 16u8, 0u8]
        + seq![100u8, 97u8, 116u8, 97u8, 0u8, 0u8, 0u8, 0u8]
}

/// Encodes a 32-bit value in little-endian order.
pub fn le32(x: u32) -> (r: Vec<u8>)
    ensures
        r@ == spec_le32(x as int),
{
    let mut r: Vec<u8> = Vec::new();
    r.push((x % 256) as u8);
    r.push(((x / 256) % 256) as u8);
    r.push(((x / 65536) % 256) as u8);
    r.push(((x / 16777216) % 256) as u8);
    proof {
        assert(r@ =~= spec_le32(x as int));
    }
    r
}

/// Builds the header to write before the first sample.
pub fn wav_header(fps: u32) -> (h: Vec<u8>)
    requires
        fps <= 0x7FFFFFFF,
    ensures
        h@ == spec_wav_header(fps as int),
        h@.len() == 44,
{
    let mut h: Vec<u8> = Vec::new();
    h.push(82);
    h.push(73);
    h.push(70);
    h.push(70);
    h.push(0);
    h.push(0);
    h.push(0);
    h.push(0);
    h.push(87);
    h.push(65);
    h.push(86);
    h.push(69);
    h.push(102);
    h.push(109);
    h.push(116);
    h.push(32);
    h.push(16);
    h.push(0);
    h.push(0);
    h.push(0);
    h.push(1);
    h.push(0);
    h.push(1);
    h.push(0);
    let rate = le32(fps);
    let mut i: usize = 0;
    while i < 4
        invariant
            i <= 4,
            rate@ == spec_le32(fps as int),
            rate@.len() == 4,
            h@ =~= spec_wav_header(fps as int).subrange(0, 24 + i as int),
        decreases 4 - i,
    {
        h.push(rate[i]);
        proof {
            assert(h@ =~= spec_wav_header(fps as int).subrange(0, 24 + i + 1));
        }
        i += 1;
    }
    let byte_rate = le32(fps * 2);
    let mut j: usize = 0;
    while j < 4
        invariant
            j <= 4,
            byte_rate@ == spec_le32(fps as int * 2),
            byte_rate@.len() == 4,
            h@ =~= spec_wav_header(fps as int).subrange(0, 28 + j as int),
        decreases 4 - j,
    {
        h.push(byte_rate[j]);
        proof {
            assert(h@ =~= spec_wav_header(fps as int).subrange(0, 28 + j + 1));
        }
        j += 1;
    }
    h.push(2);
    h.push(0);
    h.push(16);
    h.push(0);
    h.push(100);
    h.push(97);
    h.push(116);
    h.push(97);
    h.push(0);
    h.push(0);
    h.push(0);
    h.push(0);
    proof {
        assert(h@ =~= spec_wav_header(fps as int));
    }
    h
}

/// The values to patch into the two size placeholders once the file is
/// complete: the RIFF chunk size (file length minus the 8-byte RIFF
/// header) and the `data` chunk size (file length minus all 44 header
/// bytes).
pub fn riff_sizes(file_len: u64) -> (r: (u32, u32))
    requires
        44 <= file_len <= u32::MAX,
    ensures
        r.0 == file_len - 8,
        r.1 == file_len - 44,
{
    ((file_len - 8) as u32, (file_len - 44) as u32)
}


/// The two's-complement value of a 16-bit sample.
pub open spec fn sample_code(x: i16) -> int {
    if x >= 0 {
        x as int
    } else {
        x as int + 65536
    }
}

/// The little-endian bytes of one 16-bit sample.
pub open spec fn spec_le16(x: i16) -> Seq<u8> {
    seq![(sample_code(x) % 256) as u8, (sample_code(x) / 256) as u8]
}

/// The little-endian bytes of a run of samples, in order.
pub open spec fn spec_sample_bytes(s: Seq<i16>) -> Seq<u8>
    decreases s.len(),
{
    if s.len() == 0 {
        Seq::empty()
    } else {
        spec_sample_bytes(s.drop_last()) + spec_le16(s.last())
    }
}

/// Encodes drained samples as the little-endian byte stream of the
/// `data` chunk.
pub fn sample_bytes(samples: &[i16]) -> (r: Vec<u8>)
    ensures
        r@ == spec_sample_bytes(samples@),
        r@.len() == 2 * samples@.len(),
{
    let mut r: Vec<u8> = Vec::new();
    let mut i: usize = 0;
    proof {
        assert(samples@.subrange(0, 0) =~= Seq::<i16>::empty());
        assert(r@ =~= spec_sample_bytes(samples@.subrange(0, 0)));
    }
    while i < samples.len()
        invariant
            i <= samples@.len(),
            r@ == spec_sample_bytes(samples@.subrange(0, i as int)),
            r@.len() == 2 * i,
        decreases samples.len() - i,
    {
        let x = samples[i];
        let code: u16 = if x >= 0 {
            x as u16
        } else {
            ((x as i32) + 65536) as u16
        };
        r.push((code % 256) as u8);
        r.push((code / 256) as u8);
        proof {
            assert(samples@.subrange(0, i + 1).drop_last() =~= samples@.subrange(0, i as int));
            assert(samples@.subrange(0, i + 1).last() == samples@[i as int]);
            assert(code as int == sample_code(samples@[i as int]));
            assert(r@ =~= spec_sample_bytes(samples@.subrange(0, i + 1)));
        }
        i += 1;
    }
    proof {
        assert(samples@.subrange(0, samples@.len() as int) =~= samples@);
    }
    r
}

} // verus!
