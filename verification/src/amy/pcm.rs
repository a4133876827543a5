//! Blocks of samples, and the WAV file that holds them.

use crate::bytes;
use vstd::prelude::*;

verus! {

/// The absolute value of a sample; the most negative one has the largest.
pub open spec fn magnitude(sample: i16) -> int {
    if sample == i16::MIN {
        i16::MAX as int
    } else if sample < 0 {
        -sample
    } else {
        sample as int
    }
}

/// The largest magnitude in a block.
pub open spec fn peak_of(block: Seq<i16>) -> int
    decreases block.len(),
{
    if block.len() == 0 {
        0
    } else {
        let rest = peak_of(block.drop_last());
        if magnitude(block.last()) > rest {
            magnitude(block.last())
        } else {
            rest
        }
    }
}

/// Peak absolute sample of a block.
pub fn peak(block: &[i16]) -> (peak: i16)
    ensures
        peak == peak_of(block@),
{
    let mut peak: i16 = 0;
    let mut i: usize = 0;
    assert(block@.subrange(0, 0).len() == 0);
    while i < block.len()
        invariant
            i <= block@.len(),
            peak == peak_of(block@.subrange(0, i as int)),
        decreases block@.len() - i,
    {
        let sample: i16 = block[i];
        let size: i16 = if sample == i16::MIN {
            i16::MAX
        } else if sample < 0 {
            -sample
        } else {
            sample
        };
        proof {
            assert(block@.subrange(0, i + 1).drop_last() =~= block@.subrange(0, i as int));
        }
        if size > peak {
            peak = size;
        }
        i = i + 1;
    }
    assert(block@.subrange(0, i as int) =~= block@);
    peak
}

/// The peak of a block is reached by a sample of it, and no sample exceeds it.
pub proof fn law_peak_is_the_largest_magnitude(block: Seq<i16>, i: int)
    requires
        0 <= i < block.len(),
    ensures
        magnitude(block[i]) <= peak_of(block),
        exists|j: int| 0 <= j < block.len() && #[trigger] magnitude(block[j]) == peak_of(block),
    decreases block.len(),
{
    let rest = block.drop_last();
    if i < rest.len() {
        law_peak_is_the_largest_magnitude(rest, i);
        assert(rest[i] == block[i]);
    }
    if magnitude(block.last()) > peak_of(rest) || rest.len() == 0 {
        assert(magnitude(block[block.len() - 1]) == peak_of(block));
    } else {
        law_peak_is_the_largest_magnitude(rest, 0);
        let j = choose|j: int|
            0 <= j < rest.len() && #[trigger] magnitude(rest[j]) == peak_of(rest);
        assert(magnitude(block[j]) == peak_of(block));
    }
}

/// `x` written as `width` bytes, least significant first.
pub open spec fn le(x: nat, width: nat) -> Seq<u8>
    decreases width,
{
    if width == 0 {
        Seq::empty()
    } else {
        seq![(x % 256) as u8] + le(x / 256, (width - 1) as nat)
    }
}

fn push_le(out: &mut Vec<u8>, x: u32, width: usize)
    ensures
        final(out)@ == old(out)@ + le(x as nat, width as nat),
    decreases width,
{
    if width > 0 {
        out.push((x % 256) as u8);
        push_le(out, x / 256, width - 1);
    }
    assert(out@ =~= old(out)@ + le(x as nat, width as nat));
}

/// A signed sample as the unsigned number with the same bits.
pub open spec fn sample_bits(sample: i16) -> nat {
    if sample >= 0 {
        sample as nat
    } else {
        (sample + 0x1_0000) as nat
    }
}

/// The samples, two bytes each.
pub open spec fn sample_bytes(samples: Seq<i16>) -> Seq<u8>
    decreases samples.len(),
{
    if samples.len() == 0 {
        Seq::empty()
    } else {
        sample_bytes(samples.drop_last()) + le(sample_bits(samples.last()), 2)
    }
}

/// The bytes of `RIFF`.
pub const RIFF: [u8; 4] = [0x52, 0x49, 0x46, 0x46];

/// The bytes of `WAVE`.
pub const WAVE: [u8; 4] = [0x57, 0x41, 0x56, 0x45];

/// The bytes of `fmt `.
pub const FMT: [u8; 4] = [0x66, 0x6d, 0x74, 0x20];

/// The bytes of `data`.
pub const DATA: [u8; 4] = [0x64, 0x61, 0x74, 0x61];

/// A 16-bit PCM WAV file of interleaved samples.
pub open spec fn wav(samples: Seq<i16>, sample_rate: u32, channels: u16) -> Seq<u8> {
    let data_bytes = 2 * samples.len();
    RIFF@ + le(36 + data_bytes, 4) + WAVE@ + FMT@ + le(16, 4) + le(1, 2) + le(channels as nat, 2)
        + le(sample_rate as nat, 4) + le((sample_rate * channels * 2) as nat, 4) + le(
        (channels * 2) as nat,
        2,
    ) + le(16, 2) + DATA@ + le(data_bytes, 4) + sample_bytes(samples)
}

/// The bytes of a 16-bit PCM WAV file of interleaved samples.
pub fn wav_bytes(samples: &[i16], sample_rate: u32, channels: u16) -> (out: Vec<u8>)
    requires
        sample_rate * channels * 2 <= u32::MAX,
        channels * 2 <= u16::MAX,
        36 + 2 * samples@.len() <= u32::MAX,
    ensures
        out@ == wav(samples@, sample_rate, channels),
{
    let data_bytes: u32 = 2 * (samples.len() as u32);
    let byte_rate: u32 = (sample_rate as u64 * channels as u64 * 2) as u32;
    let mut out: Vec<u8> = bytes::to_vec(&RIFF);
    push_le(&mut out, 36 + data_bytes, 4);
    bytes::push_bytes(&mut out, &WAVE);
    bytes::push_bytes(&mut out, &FMT);
    push_le(&mut out, 16, 4);
    push_le(&mut out, 1, 2);
    push_le(&mut out, channels as u32, 2);
    push_le(&mut out, sample_rate, 4);
    push_le(&mut out, byte_rate, 4);
    push_le(&mut out, channels as u32 * 2, 2);
    push_le(&mut out, 16, 2);
    bytes::push_bytes(&mut out, &DATA);
    push_le(&mut out, data_bytes, 4);
    let ghost header = out@;
    let mut i: usize = 0;
    assert(samples@.subrange(0, 0).len() == 0);
    assert(out@ =~= header + sample_bytes(samples@.subrange(0, 0)));
    while i < samples.len()
        invariant
            i <= samples@.len(),
            out@ == header + sample_bytes(samples@.subrange(0, i as int)),
        decreases samples@.len() - i,
    {
        let sample: i16 = samples[i];
        let raw: u32 = if sample >= 0 {
            sample as u32
        } else {
            (sample as i32 + 0x1_0000) as u32
        };
        push_le(&mut out, raw, 2);
        proof {
            assert(samples@.subrange(0, i + 1).drop_last() =~= samples@.subrange(0, i as int));
            assert(out@ =~= header + sample_bytes(samples@.subrange(0, i + 1)));
        }
        i = i + 1;
    }
    assert(samples@.subrange(0, i as int) =~= samples@);
    assert(out@ =~= wav(samples@, sample_rate, channels));
    out
}

/// A sample is as loud as it is far from zero, and the lowest as loud as the highest.
/// Silence has no peak.
pub proof fn law_magnitudes_ignore_the_sign(sample: i16)
    ensures
        sample >= 0 ==> magnitude(sample) == sample,
        -32_767 <= sample < 0 ==> magnitude(sample) == -sample,
        sample == -32_768 ==> magnitude(sample) == 32_767,
        peak_of(Seq::<i16>::empty()) == 0,
{
}

/// Numbers are written with their least significant byte first.
pub proof fn law_the_last_byte_counts_most(x: nat, width: nat, i: int)
    requires
        0 <= i < width,
    ensures
        le(x, width).len() == width,
        le(x, width)[i] as int == (x as int / vstd::arithmetic::power::pow(256, i as nat)) % 256,
    decreases width,
{
    reveal(vstd::arithmetic::power::pow);
    lemma_le_len(x, width);
    if i == 0 {
        assert(vstd::arithmetic::power::pow(256, 0) == 1);
    } else {
        let p = vstd::arithmetic::power::pow(256, (i - 1) as nat);
        law_the_last_byte_counts_most(x / 256, (width - 1) as nat, i - 1);
        assert(vstd::arithmetic::power::pow(256, i as nat) == 256 * p);
        vstd::arithmetic::power::lemma_pow_positive(256, (i - 1) as nat);
        vstd::arithmetic::div_mod::lemma_div_denominator(x as int, 256, p);
        assert(le(x, width)[i] == le(x / 256, (width - 1) as nat)[i - 1]);
    }
}

proof fn lemma_le_len(x: nat, width: nat)
    ensures
        le(x, width).len() == width,
    decreases width,
{
    if width > 0 {
        lemma_le_len(x / 256, (width - 1) as nat);
    }
}

proof fn lemma_sample_bytes_at(samples: Seq<i16>, i: int)
    requires
        0 <= i < samples.len(),
    ensures
        sample_bytes(samples).len() == 2 * samples.len(),
        sample_bytes(samples).subrange(2 * i, 2 * i + 2) == le(sample_bits(samples[i]), 2),
    decreases samples.len(),
{
    let front = samples.drop_last();
    lemma_le_len(sample_bits(samples.last()), 2);
    if front.len() > 0 {
        lemma_sample_bytes_at(front, 0);
    } else {
        assert(sample_bytes(front) =~= Seq::<u8>::empty());
    }
    assert(sample_bytes(samples) == sample_bytes(front) + le(sample_bits(samples.last()), 2));
    if i < front.len() {
        lemma_sample_bytes_at(front, i);
        assert(sample_bytes(samples).subrange(2 * i, 2 * i + 2) =~= sample_bytes(front).subrange(
            2 * i,
            2 * i + 2,
        ));
    } else {
        assert(sample_bytes(samples).subrange(2 * i, 2 * i + 2) =~= le(
            sample_bits(samples[i]),
            2,
        ));
    }
}

/// Where every field of a wave file stands: the sizes, the format of sixteen bits a
/// sample, the rates that follow from it, and then the samples, each as its complement
/// where it is negative.
pub proof fn law_wave_files_have_their_layout(
    samples: Seq<i16>,
    sample_rate: u32,
    channels: u16,
    i: int,
)
    requires
        0 <= i < samples.len(),
    ensures
        ({
            let s = wav(samples, sample_rate, channels);
            let bits = if samples[i] >= 0 {
                samples[i] as int
            } else {
                samples[i] + 65_536
            };
            &&& s.len() == 44 + 2 * samples.len()
            &&& s.subrange(0, 4) == seq![0x52u8, 0x49, 0x46, 0x46]
            &&& s.subrange(4, 8) == le((36 + 2 * samples.len()) as nat, 4)
            &&& s.subrange(8, 16) == seq![0x57u8, 0x41, 0x56, 0x45, 0x66, 0x6d, 0x74, 0x20]
            &&& s.subrange(16, 20) == le(16, 4)
            &&& s.subrange(20, 22) == le(1, 2)
            &&& s.subrange(22, 24) == le(channels as nat, 2)
            &&& s.subrange(24, 28) == le(sample_rate as nat, 4)
            &&& s.subrange(28, 32) == le((2 * (sample_rate * channels)) as nat, 4)
            &&& s.subrange(32, 34) == le((2 * channels) as nat, 2)
            &&& s.subrange(34, 36) == le(16, 2)
            &&& s.subrange(36, 40) == seq![0x64u8, 0x61, 0x74, 0x61]
            &&& s.subrange(40, 44) == le((2 * samples.len()) as nat, 4)
            &&& s.subrange(44 + 2 * i, 46 + 2 * i) == le(bits as nat, 2)
        }),
{
    let s = wav(samples, sample_rate, channels);
    let data_bytes = 2 * samples.len();
    let rate = (sample_rate * channels * 2) as nat;
    assert(sample_rate * channels >= 0) by (nonlinear_arith);
    assert(rate == 2 * (sample_rate * channels));
    lemma_le_len(36 + data_bytes, 4);
    lemma_le_len(16, 4);
    lemma_le_len(1, 2);
    lemma_le_len(channels as nat, 2);
    lemma_le_len(sample_rate as nat, 4);
    lemma_le_len(rate, 4);
    lemma_le_len((channels * 2) as nat, 2);
    lemma_le_len(16, 2);
    lemma_le_len(data_bytes, 4);
    lemma_sample_bytes_at(samples, i);
    assert(s.subrange(0, 4) =~= seq![0x52u8, 0x49, 0x46, 0x46]);
    assert(s.subrange(4, 8) =~= le(36 + data_bytes, 4));
    assert(s.subrange(8, 16) =~= seq![0x57u8, 0x41, 0x56, 0x45, 0x66, 0x6d, 0x74, 0x20]);
    assert(s.subrange(16, 20) =~= le(16, 4));
    assert(s.subrange(20, 22) =~= le(1, 2));
    assert(s.subrange(22, 24) =~= le(channels as nat, 2));
    assert(s.subrange(24, 28) =~= le(sample_rate as nat, 4));
    assert(s.subrange(28, 32) =~= le(rate, 4));
    assert(s.subrange(32, 34) =~= le((channels * 2) as nat, 2));
    assert(s.subrange(34, 36) =~= le(16, 2));
    assert(s.subrange(36, 40) =~= seq![0x64u8, 0x61, 0x74, 0x61]);
    assert(s.subrange(40, 44) =~= le(data_bytes, 4));
    assert(s.subrange(44 + 2 * i, 46 + 2 * i) =~= sample_bytes(samples).subrange(2 * i, 2 * i + 2));
}

} // verus!
