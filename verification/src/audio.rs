//! Recorded sound: decoding of the sample stream, loudness, and the test that
//! decides whether a recording holds speech.
//!
//! Loudness is single-precision floating point. Here such a number stands as
//! its bit pattern; patterns of numbers that are not negative are ordered as the
//! numbers are.

use vstd::arithmetic::div_mod::*;
use vstd::arithmetic::power2::*;
use vstd::prelude::*;

use crate::float;
use crate::float::{rounded, rounded_root, single_pattern, square};

verus! {

/// The samples of a second.
pub const SAMPLE_RATE: u32 = 16_000;

/// The bytes of a sample.
pub const BYTES_PER_SAMPLE: u64 = 2;

/// The time between two readings of the sound source.
pub const RECORDING_LATENCY_MILLIS: u32 = 30;

/// The bit pattern of 0.015, the loudness from which a chunk counts as speech.
pub const SPEECH_RMS_THRESHOLD: u32 = 0x3c75_c28f;

/// The bit pattern of 1.0.
pub const ONE: u32 = 0x3f80_0000;

/// The bit that a negative number has set.
pub const SIGN: u32 = 0x8000_0000;

/// The largest sample.
pub const FULL_SCALE: u64 = 32_767;

/// The signed 16-bit number in two bytes, the low one first.
pub open spec fn sample_value(low: u8, high: u8) -> int {
    if high < 128 {
        low + 256 * high
    } else {
        low + 256 * high - 65536
    }
}

/// The bytes that a chunk is decoded from: the byte that was carried over, then
/// the chunk. An empty chunk decodes nothing, and drops the carried byte.
pub open spec fn stream(carry: Option<u8>, bytes: Seq<u8>) -> Seq<u8> {
    match carry {
        Some(previous) => if bytes.len() > 0 {
            seq![previous] + bytes
        } else {
            Seq::empty()
        },
        None => bytes,
    }
}

/// The samples in a sequence of bytes; a last byte without its pair is left over.
pub open spec fn samples_in(bytes: Seq<u8>) -> Seq<int> {
    Seq::new(bytes.len() / 2, |i: int| sample_value(bytes[2 * i], bytes[2 * i + 1]))
}

/// The byte that the samples leave over.
pub open spec fn left_over(bytes: Seq<u8>) -> Option<u8> {
    if bytes.len() % 2 == 1 {
        Some(bytes.last())
    } else {
        None
    }
}

/// The absolute value.
pub open spec fn magnitude(sample: int) -> nat {
    if sample < 0 {
        (-sample) as nat
    } else {
        sample as nat
    }
}

/// The magnitude of a sample as a single-precision part of full scale, in units
/// of 2^-39.
pub open spec fn normalized(sample: int) -> nat {
    rounded(magnitude(sample) * pow2(39), 32767, 24)
}

/// The bit pattern of a sample as a single-precision part of full scale.
pub open spec fn sample_pattern(sample: int) -> int {
    if sample < 0 {
        SIGN + single_pattern(normalized(sample), 39)
    } else {
        single_pattern(normalized(sample), 39)
    }
}

/// The largest magnitude among some samples, in units of 2^-39.
pub open spec fn peak(samples: Seq<int>) -> nat
    decreases samples.len(),
{
    if samples.len() == 0 {
        0
    } else if normalized(samples.last()) > peak(samples.drop_last()) {
        normalized(samples.last())
    } else {
        peak(samples.drop_last())
    }
}

/// The sum of the squares of some samples in double precision, added up one
/// after the other, in units of 2^-78.
pub open spec fn square_sum(samples: Seq<int>) -> nat
    decreases samples.len(),
{
    if samples.len() == 0 {
        0
    } else {
        rounded(square_sum(samples.drop_last()) + square(normalized(samples.last())), 1, 53)
    }
}

/// The root of the mean square of some samples, taken in double precision and
/// then given in single precision, in units of 2^-128.
pub open spec fn rms(samples: Seq<int>) -> nat {
    if samples.len() == 0 {
        0
    } else {
        root_mean(square_sum(samples), samples.len())
    }
}

/// The root of the mean of a sum, in units of 2^-128 where the sum is in units of
/// 2^-78.
pub open spec fn root_mean(sum: nat, count: nat) -> nat {
    let mean = rounded(sum * pow2(178), count, 53);
    rounded(rounded_root(mean, 53), 1, 24)
}

/// The bit pattern from which a number is none, but for the sign.
pub const INFINITY: u32 = 0x7f80_0000;

/// The bit pattern of a number brought between 0.0 and 1.0. What is no number,
/// and a negative zero, stay as they are.
pub open spec fn clamped_level(level: u32) -> u32 {
    if level <= INFINITY {
        if level > ONE {
            ONE
        } else {
            level
        }
    } else if SIGN < level <= SIGN + INFINITY {
        0
    } else {
        level
    }
}

/// The bit pattern of a number brought between 0.0 and 1.0.
pub fn clamp_level(level: u32) -> (clamped: u32)
    ensures
        clamped == clamped_level(level),
{
    if level <= INFINITY {
        if level > ONE {
            ONE
        } else {
            level
        }
    } else if SIGN < level && level <= 0xff80_0000 {
        0
    } else {
        level
    }
}

/// The loudness of a chunk: the largest magnitude and the root of the mean
/// square, as bit patterns.
#[derive(Debug, Default, Clone, Copy, PartialEq, Eq, Structural)]
pub struct AudioChunkMetrics {
    pub peak: u32,
    pub rms: u32,
}

impl AudioChunkMetrics {
    /// Whether these are the metrics of some samples.
    pub open spec fn measures(self, samples: Seq<int>) -> bool {
        &&& self.peak == single_pattern(peak(samples), 39)
        &&& self.rms == single_pattern(rms(samples), 128)
    }
}

proof fn normalized_small(k: nat)
    requires
        0 < k < 512,
    ensures
        rounded(k * pow2(39), 32767, 24) == k * 0x100_0200,
{
    lemma2_to64();
    lemma2_to64_rest();
    let n = k * pow2(39);
    let q = k * 0x100_0200;
    let r = k * 512;
    let whole = n / 32767;
    assert(n == 32767 * q + r);
    lemma_fundamental_div_mod(n as int, 32767);
    assert(q <= whole < q + 9);
    // The number of digits of `k` is the number of digits to drop.
    float::bit_length_bounds(k);
    let b = float::bit_length(k);
    lemma_pow2_adds((b - 1) as nat, 24);
    lemma_pow2_adds(b, 24);
    float::few_digits(k, 9);
    assert(whole < pow2(b) * pow2(24)) by {
        assert(k + 1 <= pow2(b));
        assert(whole < (k + 1) * 0x100_0000);
        let p = pow2(b);
        assert((k + 1) * 0x100_0000 <= p * 0x100_0000);
    }
    float::bit_length_from_bounds(whole, (b - 1 + 24) as nat);
    assert(float::excess(whole, 24) == b);
    let unit = pow2(b);
    lemma_pow2_adds(b, (9 - b) as nat);
    lemma_pow2_pos(b);
    let m = k * 0x8001 * pow2((9 - b) as nat);
    assert(m * unit == q) by (nonlinear_arith)
        requires
            m == k * 0x8001 * pow2((9 - b) as nat),
            unit * pow2((9 - b) as nat) == 512,
            q == k * 0x100_0200,
    ;
    let d = 32767 * unit;
    assert(m * d == 32767 * q) by (nonlinear_arith)
        requires
            m * unit == q,
            d == 32767 * unit,
    ;
    float::nearest_is(n, d, m);
}

proof fn normalized_large(k: nat)
    requires
        512 <= k <= 32768,
    ensures
        rounded(k * pow2(39), 32767, 24) % 1024 == 0,
{
    lemma2_to64();
    lemma2_to64_rest();
    let whole = k * pow2(39) / 32767;
    lemma_fundamental_div_mod((k * pow2(39)) as int, 32767);
    assert(whole >= pow2(33));
    float::enough_digits(whole, 34);
    let e = float::excess(whole, 24);
    assert(e >= 10);
    lemma_pow2_adds(10, (e - 10) as nat);
    let m = float::nearest(k * pow2(39), 32767 * pow2(e));
    let f = m * pow2((e - 10) as nat);
    assert(m * pow2(e) == f * 1024) by (nonlinear_arith)
        requires
            pow2(e) == 1024 * pow2((e - 10) as nat),
            f == m * pow2((e - 10) as nat),
    ;
}

/// Every sample is a multiple of 2^-30 of full scale, and hardly more than it.
pub proof fn normalized_is_coarse(k: nat)
    requires
        k <= 32768,
    ensures
        rounded(k * pow2(39), 32767, 24) % 512 == 0,
        rounded(k * pow2(39), 32767, 24) <= pow2(40),
        k > 0 ==> rounded(k * pow2(39), 32767, 24) >= pow2(24),
{
    lemma2_to64();
    lemma2_to64_rest();
    let n = k * pow2(39);
    if k == 0 {
        assert(0 * pow2(39) == 0);
        float::zero_rounds_to_zero(32767, 24);
    } else {
        lemma_fundamental_div_mod(n as int, 32767);
        assert(n / 32767 < pow2(40));
        float::rounded_bound(n, 32767, 24, 40);
        if k < 512 {
            normalized_small(k);
        } else {
            normalized_large(k);
            normalized_positive(k);
        }
    }
}

proof fn normalized_positive(k: nat)
    requires
        512 <= k <= 32768,
    ensures
        rounded(k * pow2(39), 32767, 24) >= pow2(24),
{
    lemma2_to64();
    lemma2_to64_rest();
    let n = k * pow2(39);
    let whole = n / 32767;
    lemma_fundamental_div_mod(n as int, 32767);
    assert(pow2(33) <= whole < pow2(40));
    float::enough_digits(whole, 34);
    float::few_digits(whole, 40);
    let e = float::excess(whole, 24);
    let unit = pow2(e);
    lemma_pow2_pos(e);
    if e < 16 {
        lemma_pow2_strictly_increases(e, 16);
    }
    float::nearest_error(n, 32767 * unit);
    let m = float::nearest(n, 32767 * unit);
    assert(m * (32767 * unit) == 32767 * (m * unit)) by (nonlinear_arith);
}

/// The magnitude of a sample as a part of full scale, in units of 2^-39.
fn normalize_sample(k: u32) -> (units: u64)
    requires
        k <= 32768,
    ensures
        units == rounded(k as nat * pow2(39), 32767, 24),
        units % 512 == 0,
        units <= 0x100_0000_0000,
{
    proof {
        lemma2_to64();
        lemma2_to64_rest();
        normalized_is_coarse(k as nat);
    }
    float::round_ratio(k as u128 * 0x80_0000_0000, FULL_SCALE, 24) as u64
}

/// Adds a square to a sum of squares in double precision, with the sample in
/// units of 2^-39 and the sum in units of 2^-60. A sum that is large enough no
/// longer grows.
fn add_square(sum: u128, units: u64) -> (total: u128)
    requires
        sum <= 0x10_0000_0000_0000_0000_0000_0000_0000,
        units % 512 == 0,
        units <= 0x100_0000_0000,
    ensures
        total * pow2(18) == rounded(sum as nat * pow2(18) + square(units as nat), 1, 53),
        total <= 0x10_0000_0000_0000_0000_0000_0000_0000,
{
    let coarse: u128 = (units / 512) as u128;
    proof {
        lemma2_to64();
        lemma2_to64_rest();
        lemma_pow2_adds(64, 52);
        assert(coarse * coarse <= 0x8000_0000 * 0x8000_0000) by (nonlinear_arith)
            requires
                0 <= coarse <= 0x8000_0000,
        ;
        assert((512 * coarse) * (512 * coarse) == 0x4_0000 * (coarse * coarse)) by (nonlinear_arith);
    }
    let exact: u128 = sum + coarse * coarse;
    proof {
        assert(sum as nat * pow2(18) + square(units as nat) == exact as nat * pow2(18));
        float::whole_rounding_scales(exact as nat, 53, 18);
        sum_is_bounded(exact as nat);
    }
    float::round_ratio(exact, 1, 53)
}

proof fn sum_is_bounded(exact: nat)
    requires
        exact <= 0x10_0000_0000_0000_0000_0000_0000_0000 + 0x4000_0000_0000_0000,
    ensures
        rounded(exact, 1, 53) <= 0x10_0000_0000_0000_0000_0000_0000_0000,
{
    lemma2_to64();
    lemma2_to64_rest();
    lemma_pow2_adds(64, 52);
    assert(exact / 1 == exact);
    if exact < pow2(116) {
        float::rounded_bound(exact, 1, 53, 116);
    } else {
        lemma_pow2_unfold(117);
        float::bit_length_from_bounds(exact, 116);
        let unit = pow2(64);
        assert(float::excess(exact, 53) == 64);
        float::nearest_is(exact, unit, 0x10_0000_0000_0000);
        assert(1 * unit == unit);
    }
}

/// The bit pattern of the root of the mean of a sum of squares in units of 2^-60.
#[verifier::rlimit(40)]
fn root_mean_pattern(sum: u128, count: u64) -> (pattern: u32)
    requires
        0 < count,
        sum <= 0x10_0000_0000_0000_0000_0000_0000_0000,
    ensures
        pattern == single_pattern(root_mean(sum as nat * pow2(18), count as nat), 128),
{
    proof {
        lemma2_to64();
        lemma2_to64_rest();
    }
    if sum == 0 {
        proof {
            assert(0 * pow2(178) == 0) by (nonlinear_arith);
            float::zero_rounds_to_zero(count as nat, 53);
            float::zero_rounds_to_zero(1, 24);
        }
        return 0;
    }
    let (long, t) = float::lift(sum);
    let ghost up: nat = (196 - t) as nat;
    proof {
        assert(long as nat / count as nat >= 0x1000_0000_0000_0000) by {
            lemma_fundamental_div_mod(long as int, count as int);
            let whole = long as int / count as int;
            assert(whole >= 0x1000_0000_0000_0000) by (nonlinear_arith)
                requires
                    long == count * whole + long as int % count as int,
                    0 <= (long as int % count as int) < count,
                    long >= 0x1000_0000_0000_0000_0000_0000_0000_0000,
                    0 < count < 0x1_0000_0000_0000_0000,
            ;
        }
        lemma_pow2_adds(18, 178);
        lemma_pow2_adds(t as nat, up);
        assert((sum * pow2(18)) * pow2(178) == long * pow2(up)) by (nonlinear_arith)
            requires
                long == sum * pow2(t as nat),
                pow2(196) == pow2(18) * pow2(178),
                pow2(196) == pow2(t as nat) * pow2(up),
        ;
        float::rounding_scales(long as nat, count as nat, 53, up);
        float::rounded_is_not_small(long as nat, count as nat, 53);
        lemma_pow2_adds(64, 62);
        lemma_div_is_ordered_by_denominator(long as int, 1, count as int);
        float::rounded_bound(long as nat, count as nat, 53, 126);
    }
    let mean: u128 = float::round_ratio(long, count, 53);
    let (square_units, s) = float::lift(mean);
    let ghost u: nat = ((up - s) / 2) as nat;
    proof {
        // The second lift is short, since the mean is long already.
        lemma_pow2_adds(64, 3);
        if s > 67 {
            lemma_pow2_strictly_increases(67, s as nat);
        }
        assert(s <= 67) by (nonlinear_arith)
            requires
                square_units == mean * pow2(s as nat),
                square_units <= 0x4000_0000_0000_0000_0000_0000_0000_0000,
                mean >= 0x800_0000_0000_0000,
                s > 67 ==> pow2(s as nat) > 0x8_0000_0000_0000_0000,
        ;
        lemma_pow2_adds(u, u);
        lemma_pow2_adds(s as nat, u + u);
        assert(mean * pow2(up) == square_units * square(pow2(u))) by (nonlinear_arith)
            requires
                square_units == mean * pow2(s as nat),
                pow2(up) == pow2(s as nat) * pow2(u + u),
                pow2(u + u) == pow2(u) * pow2(u),
                square(pow2(u)) == pow2(u) * pow2(u),
        ;
        let root = float::root_exists(square_units as nat);
        root_of_long(square_units as nat, root);
        float::root_rounding_scales(square_units as nat, 53, u);
        float::rounded_root_bounds(square_units as nat, 53, root);
    }
    let root: u128 = float::round_root(square_units, 53);
    proof {
        assert(root as nat / 1 == root);
        float::rounding_scales(root as nat, 1, 24, u);
        lemma_pow2_adds(64, 6);
        float::rounded_bound(root as nat, 1, 24, 70);
    }
    let units: u128 = float::round_ratio(root, 1, 24);
    proof {
        float::bit_pattern_scales(units as nat, 128 - u, 24, 127, u);
        assert(128 - u == 30 + (t + s) / 2);
    }
    float::encode_single(units, 30 + (t + s) / 2)
}

proof fn root_of_long(x: nat, root: nat)
    requires
        0x1000_0000_0000_0000_0000_0000_0000_0000 <= x
            <= 0x4000_0000_0000_0000_0000_0000_0000_0000,
        square(root) <= x < square(root + 1),
    ensures
        0x3fff_ffff_ffff_ffff <= root <= 0x8000_0000_0000_0000,
{
    assert(root + 1 >= 0x4000_0000_0000_0000) by (nonlinear_arith)
        requires
            (root + 1) * (root + 1) > 0x1000_0000_0000_0000_0000_0000_0000_0000,
            root >= 0,
    ;
    assert(root <= 0x8000_0000_0000_0000) by (nonlinear_arith)
        requires
            root * root <= 0x4000_0000_0000_0000_0000_0000_0000_0000,
            root >= 0,
    ;
}

/// The byte of the stream at some place.
fn stream_byte(carry: Option<u8>, bytes: &[u8], i: usize) -> (byte: u8)
    requires
        bytes@.len() > 0,
        i < stream(carry, bytes@).len(),
    ensures
        byte == stream(carry, bytes@)[i as int],
{
    match carry {
        Some(previous) => if i == 0 {
            previous
        } else {
            bytes[i - 1]
        },
        None => bytes[i],
    }
}

/// Whether some patterns are those of some samples.
pub open spec fn patterns_of(patterns: Seq<u32>, samples: Seq<int>) -> bool {
    &&& patterns.len() == samples.len()
    &&& forall|i: int|
        0 <= i < samples.len() ==> #[trigger] patterns[i] == sample_pattern(samples[i])
}

/// Decodes a chunk of signed 16-bit samples, the low byte of each first. A byte
/// left over is carried to the next chunk. The samples go to the end of
/// `samples`; the result is the loudness of the chunk and the number of samples.
fn decode_pcm_s16le_chunk(bytes: &[u8], carry: &mut Option<u8>, samples: &mut Vec<u32>) -> (result: (
    AudioChunkMetrics,
    u64,
))
    ensures
        ({
            let bytes = stream(*old(carry), bytes@);
            let decoded = samples_in(bytes);
            &&& *final(carry) == left_over(bytes)
            &&& result.0.measures(decoded)
            &&& result.1 == decoded.len()
            &&& final(samples)@.len() == old(samples)@.len() + decoded.len()
            &&& final(samples)@.take(old(samples)@.len() as int) == old(samples)@
            &&& patterns_of(final(samples)@.skip(old(samples)@.len() as int), decoded)
        }),
{
    let first = carry.take();
    let ghost all = stream(first, bytes@);
    let ghost decoded = samples_in(all);
    let ghost start = samples@.len() as int;
    let len: usize = bytes.len();
    if len == 0 {
        let metrics = AudioChunkMetrics {
            peak: float::encode_single(0, 39),
            rms: float::encode_single(0, 39),
        };
        proof {
            assert(all.len() == 0);
            assert(decoded.len() == 0);
            assert(samples@.take(start) == samples@);
        }
        return (metrics, 0);
    }
    let whole: usize = match first {
        // The carried byte pairs up with the first one.
        Some(_) => (len - 1) / 2 + 1,
        None => len / 2,
    };
    let mut top: u64 = 0;
    let mut sum: u128 = 0;
    let mut i: usize = 0;
    proof {
        assert(whole == all.len() / 2);
        assert(decoded.take(0) == Seq::<int>::empty());
        assert(samples@.take(start) == old(samples)@);
        lemma2_to64();
        assert(0 * pow2(18) == 0);
    }
    while i < whole
        invariant
            len == bytes@.len(),
            len > 0,
            all == stream(first, bytes@),
            decoded == samples_in(all),
            whole == all.len() / 2,
            i <= whole,
            start == old(samples)@.len(),
            samples@.len() == start + i,
            samples@.take(start) == old(samples)@,
            forall|j: int|
                start <= j < start + i ==> #[trigger] samples@[j] == sample_pattern(
                    decoded[j - start],
                ),
            top == peak(decoded.take(i as int)),
            top <= 0x100_0000_0000,
            square_sum(decoded.take(i as int)) == sum as nat * pow2(18),
            sum <= 0x10_0000_0000_0000_0000_0000_0000_0000,
        decreases whole - i,
    {
        let low: u8 = stream_byte(first, bytes, i + i);
        let high: u8 = stream_byte(first, bytes, i + i + 1);
        let value: u32 = low as u32 + 256 * (high as u32);
        let negative: bool = high >= 128;
        let size: u32 = if negative {
            65536 - value
        } else {
            value
        };
        let units: u64 = normalize_sample(size);
        let pattern: u32 = float::encode_single(units as u128, 39);
        proof {
            assert(decoded[i as int] == sample_value(low, high));
            assert(magnitude(decoded[i as int]) == size);
            assert(decoded.take(i + 1).drop_last() == decoded.take(i as int));
            assert(decoded.take(i + 1).last() == decoded[i as int]);
        }
        let ghost before = samples@;
        samples.push(
            if negative {
                SIGN + pattern
            } else {
                pattern
            },
        );
        if units > top {
            top = units;
        }
        sum = add_square(sum, units);
        assert(samples@.take(start) == before.take(start));
        i = i + 1;
    }
    let rest: bool = match first {
        Some(_) => len % 2 == 0,
        None => len % 2 == 1,
    };
    if rest {
        *carry = Some(bytes[len - 1]);
    }
    proof {
        assert(decoded.take(whole as int) == decoded);
        assert(rest == (all.len() % 2 == 1));
    }
    let peak: u32 = float::encode_single(top as u128, 39);
    let rms: u32 = if whole == 0 {
        float::encode_single(0, 39)
    } else {
        root_mean_pattern(sum, whole as u64)
    };
    (AudioChunkMetrics { peak, rms }, whole as u64)
}

/// How much was recorded, and how much of it in chunks loud enough for speech.
#[derive(Debug, Clone, Copy, PartialEq, Eq, Structural)]
pub struct AudioStats {
    pub bytes: u64,
    pub speech_bytes: u64,
}

impl Default for AudioStats {
    fn default() -> (stats: Self)
        ensures
            stats == (AudioStats { bytes: 0, speech_bytes: 0 }),
            stats.wf(),
    {
        AudioStats { bytes: 0, speech_bytes: 0 }
    }
}

/// The statistics with some more samples in them, of some loudness.
pub open spec fn with_samples(stats: AudioStats, count: nat, rms: u32) -> AudioStats {
    AudioStats {
        bytes: (stats.bytes + 2 * count) as u64,
        speech_bytes: if rms >= SPEECH_RMS_THRESHOLD {
            (stats.speech_bytes + 2 * count) as u64
        } else {
            stats.speech_bytes
        },
    }
}

/// A span of time.
#[derive(Debug, Clone, Copy, PartialEq, Eq, Structural)]
pub struct Duration {
    pub secs: u64,
    pub nanos: u32,
}

impl Duration {
    /// The span in nanoseconds.
    pub open spec fn total(self) -> nat {
        self.secs as nat * 1_000_000_000 + self.nanos as nat
    }

    /// The span in nanoseconds.
    pub fn as_nanos(&self) -> (nanos: u128)
        ensures
            nanos == self.total(),
    {
        self.secs as u128 * 1_000_000_000 + self.nanos as u128
    }

    /// The whole milliseconds of the span.
    pub fn as_millis(&self) -> (millis: u128)
        ensures
            millis == self.total() / 1_000_000,
    {
        self.as_nanos() / 1_000_000
    }
}

/// The time that some bytes of sound take, in nanoseconds: the quotient of the
/// bytes and the bytes of a second in double precision, to the nearest
/// nanosecond.
pub open spec fn elapsed_nanos(bytes: nat) -> nat {
    let count = rounded(bytes, 1, 53);
    let seconds = rounded(count * pow2(100), 32_000, 53);
    float::nearest(seconds * 1_000_000_000, pow2(100))
}

/// The shortest recording that is transcribed, in nanoseconds.
pub const MIN_RECORDING_NANOS: u128 = 300_000_000;

/// The shortest speech in a recording that is transcribed, in nanoseconds.
pub const MIN_SPEECH_NANOS: u128 = 200_000_000;

/// The time that some bytes of sound take.
pub fn duration_for_bytes(bytes: u64) -> (duration: Duration)
    ensures
        duration.total() == elapsed_nanos(bytes as nat),
        duration.nanos < 1_000_000_000,
{
    proof {
        lemma2_to64();
        lemma2_to64_rest();
        assert(bytes as nat / 1 == bytes);
        float::rounded_bound(bytes as nat, 1, 53, 64);
    }
    let count: u128 = float::round_ratio(bytes as u128, 1, 53);
    if count == 0 {
        proof {
            assert(0 * pow2(100) == 0) by (nonlinear_arith);
            float::zero_rounds_to_zero(32_000, 53);
            lemma_pow2_pos(100);
            float::nearest_of_multiple(0, pow2(100));
            assert(0 * pow2(100) == 0);
        }
        return Duration { secs: 0, nanos: 0 };
    }
    let mut long: u128 = count;
    let mut shift: u32 = 0;
    proof {
        assert(count * pow2(0) == count);
    }
    while long < 0x10_0000_0000_0000_0000
        invariant
            0 < count,
            long == count * pow2(shift as nat),
            long < 0x20_0000_0000_0000_0000,
            0 < long,
            shift <= 68,
        decreases 0x20_0000_0000_0000_0000 - long,
    {
        proof {
            lemma_pow2_unfold((shift + 1) as nat);
            let p = pow2(shift as nat);
            assert(count * (2 * p) == 2 * (count * p)) by (nonlinear_arith);
            if shift == 68 {
                lemma2_to64();
                lemma2_to64_rest();
                lemma_pow2_adds(64, 4);
                assert(count * p >= p) by (nonlinear_arith)
                    requires
                        count >= 1,
                        p > 0,
                ;
            }
        }
        long = long * 2;
        shift = shift + 1;
    }
    let ghost up: nat = (100 - shift) as nat;
    proof {
        lemma2_to64();
        lemma2_to64_rest();
        lemma_pow2_adds(shift as nat, up);
        assert(count * pow2(100) == long * pow2(up)) by (nonlinear_arith)
            requires
                long == count * pow2(shift as nat),
                pow2(100) == pow2(shift as nat) * pow2(up),
        ;
        float::rounding_scales(long as nat, 32_000, 53, up);
        float::rounded_bound(long as nat, 32_000, 53, 55);
    }
    let seconds: u128 = float::round_ratio(long, 32_000, 53);
    let step: u128 = float::power_of_two(shift);
    proof {
        lemma_pow2_pos(shift as nat);
        lemma_pow2_pos(up);
        float::nearest_scales((seconds * 1_000_000_000) as nat, step as nat, pow2(up));
        assert((seconds * pow2(up)) * 1_000_000_000 == (seconds * 1_000_000_000) * pow2(up))
            by (nonlinear_arith);
        // Sound of any length takes less than the seconds that fit.
        if shift < 4 {
            lemma_pow2_strictly_increases(shift as nat, 4);
            assert(count * pow2(shift as nat) < 0x1_0000_0000_0000_0000 * 0x10) by (nonlinear_arith)
                requires
                    count <= 0x1_0000_0000_0000_0000,
                    pow2(shift as nat) < 0x10,
            ;
        }
    }
    let total: u128 = float::nearest_quotient(seconds * 1_000_000_000, step);
    proof {
        let n = (seconds * 1_000_000_000) as nat;
        lemma_div_is_ordered_by_denominator(n as int, 1, step as int);
    }
    Duration { secs: (total / 1_000_000_000) as u64, nanos: (total % 1_000_000_000) as u32 }
}

impl AudioStats {
    /// Whether no more speech was recorded than sound.
    pub open spec fn wf(self) -> bool {
        self.speech_bytes <= self.bytes
    }

    /// Counts the sound of a chunk in, and gives its loudness.
    pub fn ingest_bytes(&mut self, bytes: &[u8], carry: &mut Option<u8>) -> (metrics:
        AudioChunkMetrics)
        requires
            old(self).bytes + 2 * samples_in(stream(*old(carry), bytes@)).len() <= u64::MAX,
            old(self).speech_bytes + 2 * samples_in(stream(*old(carry), bytes@)).len() <= u64::MAX,
        ensures
            ({
                let bytes = stream(*old(carry), bytes@);
                &&& metrics.measures(samples_in(bytes))
                &&& *final(carry) == left_over(bytes)
                &&& *final(self) == with_samples(*old(self), samples_in(bytes).len(), metrics.rms)
            }),
    {
        let mut samples: Vec<u32> = Vec::new();
        let (metrics, count) = decode_pcm_s16le_chunk(bytes, carry, &mut samples);
        self.ingest_sample_count(count, metrics.rms);
        metrics
    }

    fn ingest_sample_count(&mut self, sample_count: u64, rms: u32)
        requires
            old(self).bytes + 2 * sample_count <= u64::MAX,
            old(self).speech_bytes + 2 * sample_count <= u64::MAX,
        ensures
            *final(self) == with_samples(*old(self), sample_count as nat, rms),
    {
        let sample_bytes: u64 = sample_count * BYTES_PER_SAMPLE;
        self.bytes = self.bytes + sample_bytes;
        if rms >= SPEECH_RMS_THRESHOLD {
            self.speech_bytes = self.speech_bytes + sample_bytes;
        }
    }

    /// How long the recording is.
    pub fn duration(&self) -> (duration: Duration)
        ensures
            duration.total() == elapsed_nanos(self.bytes as nat),
            duration.nanos < 1_000_000_000,
    {
        duration_for_bytes(self.bytes)
    }

    /// How long the speech in the recording is.
    pub fn speech_duration(&self) -> (duration: Duration)
        ensures
            duration.total() == elapsed_nanos(self.speech_bytes as nat),
            duration.nanos < 1_000_000_000,
    {
        duration_for_bytes(self.speech_bytes)
    }

    /// Whether the recording is long enough and holds enough speech.
    pub open spec fn worth_transcribing(self) -> bool {
        &&& elapsed_nanos(self.bytes as nat) >= MIN_RECORDING_NANOS
        &&& elapsed_nanos(self.speech_bytes as nat) >= MIN_SPEECH_NANOS
    }

    /// Whether the recording is long enough and holds enough speech.
    pub fn should_transcribe(&self) -> (answer: bool)
        ensures
            answer == self.worth_transcribing(),
    {
        self.duration().as_nanos() >= MIN_RECORDING_NANOS && self.speech_duration().as_nanos()
            >= MIN_SPEECH_NANOS
    }
}

/// Decodes a chunk to the end of the recorded samples, and counts it in.
pub fn append_recorded_s16le_chunk(
    bytes: &[u8],
    samples: &mut Vec<u32>,
    stats: &mut AudioStats,
    carry: &mut Option<u8>,
) -> (metrics: AudioChunkMetrics)
    requires
        old(stats).bytes + 2 * samples_in(stream(*old(carry), bytes@)).len() <= u64::MAX,
        old(stats).speech_bytes + 2 * samples_in(stream(*old(carry), bytes@)).len() <= u64::MAX,
    ensures
        ({
            let bytes = stream(*old(carry), bytes@);
            let decoded = samples_in(bytes);
            &&& metrics.measures(decoded)
            &&& *final(carry) == left_over(bytes)
            &&& *final(stats) == with_samples(*old(stats), decoded.len(), metrics.rms)
            &&& final(samples)@.len() == old(samples)@.len() + decoded.len()
            &&& final(samples)@.take(old(samples)@.len() as int) == old(samples)@
            &&& patterns_of(final(samples)@.skip(old(samples)@.len() as int), decoded)
        }),
{
    let (metrics, count) = decode_pcm_s16le_chunk(bytes, carry, samples);
    stats.ingest_sample_count(count, metrics.rms);
    metrics
}

/// The bytes of sound, 8,388,608 seconds of it, below which double precision tells
/// times to the nanosecond.
pub const EXACT_BYTES: u64 = 268_435_456_000;

proof fn nanos_are_exact(bytes: nat)
    requires
        bytes < EXACT_BYTES,
    ensures
        elapsed_nanos(bytes) == bytes * 31_250,
{
    lemma2_to64();
    lemma2_to64_rest();
    lemma_pow2_adds(64, 36);
    lemma_pow2_adds(23, 100);
    assert(bytes / 1 == bytes);
    if bytes > 0 {
        float::few_digits(bytes, 38);
    } else {
        assert(float::bit_length(0) == 0);
    }
    float::nearest_of_multiple(bytes, 1);
    assert(bytes * 1 == bytes);
    assert(rounded(bytes, 1, 53) == bytes);
    let n = bytes * pow2(100);
    let whole = n / 32_000;
    let e = float::excess(whole, 53);
    let unit = pow2(e);
    lemma_pow2_pos(e);
    assert(whole < pow2(123)) by {
        lemma_fundamental_div_mod(n as int, 32_000);
    }
    if whole > 0 {
        float::few_digits(whole, 123);
    } else {
        assert(float::bit_length(0) == 0);
    }
    if e < 70 {
        lemma_pow2_strictly_increases(e, 70);
    }
    lemma_pow2_adds(64, 6);
    lemma_pow2_adds(70, 30);
    float::nearest_error(n, 32_000 * unit);
    let m = float::nearest(n, 32_000 * unit);
    let seconds = m * unit;
    assert(m * (32_000 * unit) == 32_000 * seconds) by (nonlinear_arith)
        requires
            seconds == m * unit,
    ;
    // Half a unit of the seconds is less than half a nanosecond.
    let exact = bytes * 31_250;
    assert(exact * pow2(100) * 32_000 == n * 1_000_000_000) by (nonlinear_arith)
        requires
            exact == bytes * 31_250,
            n == bytes * pow2(100),
    ;
    float::nearest_is(seconds * 1_000_000_000, pow2(100), exact);
}

/// Up to more than 2,330 hours, a recording lasts exactly the time that its bytes
/// take at the sample rate.
pub proof fn recording_time_is_exact(stats: AudioStats)
    requires
        stats.bytes < EXACT_BYTES,
    ensures
        elapsed_nanos(stats.bytes as nat) * SAMPLE_RATE * BYTES_PER_SAMPLE == stats.bytes
            * 1_000_000_000,
{
    nanos_are_exact(stats.bytes as nat);
}

proof fn long_recordings_are_long(bytes: nat)
    requires
        0x10_0000_0000 <= bytes <= u64::MAX,
    ensures
        elapsed_nanos(bytes) >= 300_000_000,
{
    lemma2_to64();
    lemma2_to64_rest();
    lemma_pow2_adds(64, 36);
    assert(bytes / 1 == bytes);
    float::rounded_is_not_small(bytes, 1, 53);
    let count = rounded(bytes, 1, 53);
    let n = count * pow2(100);
    lemma_fundamental_div_mod(n as int, 32_000);
    float::rounded_is_not_small(n, 32_000, 53);
    let seconds = rounded(n, 32_000, 53);
    float::nearest_error(seconds * 1_000_000_000, pow2(100));
    let m = float::nearest(seconds * 1_000_000_000, pow2(100));
    assert(m >= 300_000_000) by (nonlinear_arith)
        requires
            2 * (m * pow2(100)) >= 2 * (seconds * 1_000_000_000) - pow2(100),
            seconds >= pow2(100),
            pow2(100) > 0,
    ;
}

/// A recording is transcribed exactly when it has the bytes of 300
/// milliseconds of sound, and the bytes of 200 milliseconds in chunks loud enough
/// for speech. So no silent recording is, and none that is too short.
pub proof fn threshold_is_sharp(stats: AudioStats)
    ensures
        stats.worth_transcribing() <==> stats.bytes >= 9_600 && stats.speech_bytes >= 6_400,
{
    if stats.bytes < 0x10_0000_0000 {
        nanos_are_exact(stats.bytes as nat);
    } else {
        long_recordings_are_long(stats.bytes as nat);
    }
    if stats.speech_bytes < 0x10_0000_0000 {
        nanos_are_exact(stats.speech_bytes as nat);
    } else {
        long_recordings_are_long(stats.speech_bytes as nat);
    }
}

/// The larger of two numbers.
pub open spec fn larger(a: nat, b: nat) -> nat {
    if a < b {
        b
    } else {
        a
    }
}

/// The peak of two stretches of sound together is the larger of their peaks.
pub proof fn peaks_join(first: Seq<int>, second: Seq<int>)
    ensures
        peak(first + second) == larger(peak(first), peak(second)),
    decreases second.len(),
{
    if second.len() == 0 {
        assert(first + second =~= first);
    } else {
        assert((first + second).drop_last() =~= first + second.drop_last());
        assert((first + second).last() == second.last());
        peaks_join(first, second.drop_last());
    }
}

/// However the sound is cut into chunks that are not empty, the samples are the
/// same, and the peak of the whole is the larger of the peaks.
pub proof fn chunking_does_not_matter(carry: Option<u8>, first: Seq<u8>, second: Seq<u8>)
    requires
        first.len() > 0,
        second.len() > 0,
    ensures
        ({
            let between = left_over(stream(carry, first));
            &&& samples_in(stream(carry, first + second)) == samples_in(stream(carry, first))
                + samples_in(stream(between, second))
            &&& left_over(stream(carry, first + second)) == left_over(stream(between, second))
            &&& peak(samples_in(stream(carry, first + second))) == larger(
                peak(samples_in(stream(carry, first))),
                peak(samples_in(stream(between, second))),
            )
        }),
{
    let all = stream(carry, first + second);
    let a = stream(carry, first);
    let b = stream(left_over(a), second);
    assert(all == a + second);
    assert forall|i: int| 0 <= i < samples_in(all).len() implies #[trigger] samples_in(all)[i] == (
    samples_in(a) + samples_in(b))[i] by {
        let k = (a.len() / 2) as int;
        if i >= k {
            assert(all[2 * i] == b[2 * (i - k)]);
            assert(all[2 * i + 1] == b[2 * (i - k) + 1]);
        }
    }
    assert(samples_in(all) =~= samples_in(a) + samples_in(b));
    assert(all.last() == b.last());
    peaks_join(samples_in(a), samples_in(b));
}

/// Silence has no loudness, so it never counts as speech.
pub proof fn silence_is_not_speech(samples: Seq<int>)
    requires
        forall|i: int| 0 <= i < samples.len() ==> #[trigger] samples[i] == 0,
    ensures
        peak(samples) == 0,
        rms(samples) == 0,
        single_pattern(rms(samples), 128) < SPEECH_RMS_THRESHOLD,
{
    silent_sums(samples);
    if samples.len() > 0 {
        assert(0 * pow2(178) == 0) by (nonlinear_arith);
        float::zero_rounds_to_zero(samples.len(), 53);
        float::zero_rounds_to_zero(1, 24);
    }
}

proof fn silent_sums(samples: Seq<int>)
    requires
        forall|i: int| 0 <= i < samples.len() ==> #[trigger] samples[i] == 0,
    ensures
        peak(samples) == 0,
        square_sum(samples) == 0,
    decreases samples.len(),
{
    if samples.len() > 0 {
        assert(0 * pow2(39) == 0) by (nonlinear_arith);
        float::zero_rounds_to_zero(32767, 24);
        float::zero_rounds_to_zero(1, 53);
        assert(normalized(0) == 0);
        assert(square(0) == 0);
        silent_sums(samples.drop_last());
    }
}

/// Counting sound in keeps the speech within the recording.
pub proof fn speech_stays_within_recording(stats: AudioStats, count: nat, rms: u32)
    requires
        stats.wf(),
        stats.bytes + 2 * count <= u64::MAX,
    ensures
        with_samples(stats, count, rms).wf(),
{
}

/// More bytes never take less time.
pub proof fn longer_takes_longer(a: nat, b: nat)
    requires
        a <= b,
    ensures
        elapsed_nanos(a) <= elapsed_nanos(b),
{
    float::rounding_is_ordered(a, b, 1, 53);
    let one = rounded(a, 1, 53);
    let other = rounded(b, 1, 53);
    assert(one * pow2(100) <= other * pow2(100)) by (nonlinear_arith)
        requires
            one <= other,
    ;
    float::rounding_is_ordered(one * pow2(100), other * pow2(100), 32_000, 53);
    lemma_pow2_pos(100);
    float::nearest_is_ordered(
        rounded(one * pow2(100), 32_000, 53) * 1_000_000_000,
        rounded(other * pow2(100), 32_000, 53) * 1_000_000_000,
        pow2(100),
    );
}

/// Speech lasts no longer than the recording that it is in.
pub proof fn speech_is_no_longer(stats: AudioStats)
    requires
        stats.wf(),
    ensures
        elapsed_nanos(stats.speech_bytes as nat) <= elapsed_nanos(stats.bytes as nat),
{
    longer_takes_longer(stats.speech_bytes as nat, stats.bytes as nat);
}

/// Counting sound in never shortens the recording or its speech, so that a
/// recording that is worth transcribing stays so. Within the hours in which times
/// are exact, it adds the time of its samples: to the recording always, and to the
/// speech where it is loud enough.
pub proof fn recordings_only_grow(stats: AudioStats, count: nat, rms: u32)
    requires
        stats.wf(),
        stats.bytes + 2 * count <= u64::MAX,
    ensures
        ({
            let after = with_samples(stats, count, rms);
            &&& elapsed_nanos(stats.bytes as nat) <= elapsed_nanos(after.bytes as nat)
            &&& elapsed_nanos(stats.speech_bytes as nat) <= elapsed_nanos(after.speech_bytes as nat)
            &&& stats.worth_transcribing() ==> after.worth_transcribing()
            &&& after.bytes < EXACT_BYTES ==> {
                &&& elapsed_nanos(after.bytes as nat) == elapsed_nanos(stats.bytes as nat) + count
                    * 62_500
                &&& elapsed_nanos(after.speech_bytes as nat) == elapsed_nanos(
                    stats.speech_bytes as nat,
                ) + (if rms >= SPEECH_RMS_THRESHOLD {
                    count * 62_500
                } else {
                    0
                })
            }
        }),
{
    let after = with_samples(stats, count, rms);
    longer_takes_longer(stats.bytes as nat, after.bytes as nat);
    longer_takes_longer(stats.speech_bytes as nat, after.speech_bytes as nat);
    if after.bytes < EXACT_BYTES {
        nanos_are_exact(stats.bytes as nat);
        nanos_are_exact(after.bytes as nat);
        nanos_are_exact(stats.speech_bytes as nat);
        nanos_are_exact(after.speech_bytes as nat);
    }
}

/// The statistics of a whole recording, chunk by chunk: how many samples each held,
/// and how loud it was.
pub open spec fn counted(chunks: Seq<(nat, u32)>) -> AudioStats
    decreases chunks.len(),
{
    if chunks.len() == 0 {
        AudioStats { bytes: 0, speech_bytes: 0 }
    } else {
        with_samples(counted(chunks.drop_last()), chunks.last().0, chunks.last().1)
    }
}

/// The samples of some chunks.
pub open spec fn sample_total(chunks: Seq<(nat, u32)>) -> nat
    decreases chunks.len(),
{
    if chunks.len() == 0 {
        0
    } else {
        sample_total(chunks.drop_last()) + chunks.last().0
    }
}

/// The samples of those chunks that are loud enough for speech.
pub open spec fn speech_total(chunks: Seq<(nat, u32)>) -> nat
    decreases chunks.len(),
{
    if chunks.len() == 0 {
        0
    } else if chunks.last().1 >= SPEECH_RMS_THRESHOLD {
        speech_total(chunks.drop_last()) + chunks.last().0
    } else {
        speech_total(chunks.drop_last())
    }
}

/// Whatever chunks a recording is made of, its bytes are those of all samples, and
/// its speech has the bytes of the loud chunks alone. So speech lasts no longer
/// than the recording, and as long as times are exact, both last the time of their
/// samples.
pub proof fn recording_adds_up(chunks: Seq<(nat, u32)>)
    requires
        2 * sample_total(chunks) <= u64::MAX,
    ensures
        ({
            let stats = counted(chunks);
            &&& stats.wf()
            &&& stats.bytes == 2 * sample_total(chunks)
            &&& stats.speech_bytes == 2 * speech_total(chunks)
            &&& elapsed_nanos(stats.speech_bytes as nat) <= elapsed_nanos(stats.bytes as nat)
            &&& stats.bytes < EXACT_BYTES ==> {
                &&& elapsed_nanos(stats.bytes as nat) == sample_total(chunks) * 62_500
                &&& elapsed_nanos(stats.speech_bytes as nat) == speech_total(chunks) * 62_500
            }
        }),
    decreases chunks.len(),
{
    let stats = counted(chunks);
    if chunks.len() > 0 {
        recording_adds_up(chunks.drop_last());
    }
    speech_is_no_longer(stats);
    if stats.bytes < EXACT_BYTES {
        nanos_are_exact(stats.bytes as nat);
        nanos_are_exact(stats.speech_bytes as nat);
    }
}

/// A span of time is its seconds and its nanoseconds together.
pub proof fn seconds_and_nanos_add_up(duration: Duration)
    ensures
        duration.total() == 1_000_000_000 * duration.secs + duration.nanos,
{
}

/// Loudness is computed as floating point is: each sample as a part of full scale
/// in single precision, the sum of the squares in double precision with each
/// addition rounded, and the mean and its root rounded to double precision and
/// then the root to single precision.
pub proof fn loudness_is_rounded_at_every_step(samples: Seq<int>, sample: int)
    ensures
        sample >= 0 ==> normalized(sample) == rounded((sample * pow2(39)) as nat, 32_767, 24),
        sample < 0 ==> normalized(sample) == normalized(-sample),
        square_sum(Seq::empty()) == 0,
        square_sum(samples.push(sample)) == rounded(
            square_sum(samples) + normalized(sample) * normalized(sample),
            1,
            53,
        ),
        rms(samples.push(sample)) == rounded(
            rounded_root(
                rounded(
                    square_sum(samples.push(sample)) * pow2(178),
                    samples.len() + 1,
                    53,
                ),
                53,
            ),
            1,
            24,
        ),
{
    assert(samples.push(sample).drop_last() =~= samples);
}

/// The time of some bytes is computed in double precision: their number, then the
/// seconds at 32000 bytes a second, then the nearest whole number of nanoseconds.
pub proof fn time_is_rounded_at_every_step(bytes: nat)
    ensures
        elapsed_nanos(bytes) == float::nearest(
            rounded(rounded(bytes, 1, 53) * pow2(100), 32_000, 53) * 1_000_000_000,
            pow2(100),
        ),
{
}

} // verus!
