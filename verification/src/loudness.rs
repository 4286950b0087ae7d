//! How near the loudness of a chunk is to the exact root of the mean square of its
//! samples.
//!
//! The loudness is computed with five kinds of rounding: each sample, each sum, the
//! mean, the root and the result. Here their errors are added up. An error is
//! counted in parts of 2^-60 of the exact value.

use vstd::arithmetic::div_mod::*;
use vstd::arithmetic::power2::*;
use vstd::prelude::*;

use crate::audio;
use crate::audio::{
    clamped_level, elapsed_nanos, left_over, magnitude, normalized, patterns_of, peak, rms,
    sample_pattern, samples_in, square_sum, stream, with_samples, AudioChunkMetrics, AudioStats,
};
use crate::float;
use crate::float::{rounded, rounded_root, single_pattern, square};

verus! {

/// The sum of the squares of some samples.
pub open spec fn energy(samples: Seq<int>) -> int {
    samples.fold_left(0, |sum: int, sample: int| sum + sample * sample)
}

/// The sum of the squares of some samples, each as it is given in single precision.
spec fn kept_energy(samples: Seq<int>) -> nat
    decreases samples.len(),
{
    if samples.len() == 0 {
        0
    } else {
        kept_energy(samples.drop_last()) + square(normalized(samples.last()))
    }
}

/// Whether `x` is `y` but for an error of some parts.
spec fn near(x: int, y: int, parts: int) -> bool {
    -(parts * y) <= 0x1000_0000_0000_0000 * (x - y) <= parts * y
}

proof fn near_chain(x: int, y: int, z: int, a: int, b: int, slack: int)
    requires
        near(x, y, a),
        near(y, z, b),
        0 <= y,
        0 <= z,
        0 <= a,
        0 <= b,
        a * b <= slack * 0x1000_0000_0000_0000,
    ensures
        near(x, z, a + b + slack),
{
    let d: int = 0x1000_0000_0000_0000;
    let ay = a * y;
    assert(d * ay <= d * ((a + slack) * z)) by (nonlinear_arith)
        requires
            d * (y - z) <= b * z,
            a * b <= slack * d,
            0 <= a,
            0 <= z,
            ay == a * y,
    {
        assert(a * (d * (y - z)) <= a * (b * z));
        assert(a * (b * z) == (a * b) * z);
        assert((a * b) * z <= (slack * d) * z);
        assert(a * (d * (y - z)) == d * (a * y) - d * (a * z));
        assert((slack * d) * z == d * (slack * z));
        assert(d * ((a + slack) * z) == d * (a * z) + d * (slack * z));
    }
    assert(ay <= (a + slack) * z);
    assert((a + slack) * z + b * z == (a + b + slack) * z) by (nonlinear_arith);
}

proof fn near_square(x: int, y: int, a: int)
    requires
        near(x, y, a),
        0 <= x,
        0 <= y,
        0 <= a <= 0x100_0000_0000,
    ensures
        near(x * x, y * y, 2 * a + 0x10_0000),
{
    let d: int = 0x1000_0000_0000_0000;
    let gap = d * (x - y);
    let bound = a * y;
    let sum = x + y;
    assert(-(bound * sum) <= gap * sum <= bound * sum) by (nonlinear_arith)
        requires
            -bound <= gap <= bound,
            0 <= sum,
    ;
    assert(gap * sum == d * (x * x - y * y)) by (nonlinear_arith)
        requires
            gap == d * (x - y),
            sum == x + y,
    ;
    assert(d * sum <= 2 * (d * y) + bound) by (nonlinear_arith)
        requires
            d * (x - y) <= bound,
            sum == x + y,
    ;
    let y2 = y * y;
    assert(d * (bound * sum) <= d * ((2 * a + 0x10_0000) * y2)) by (nonlinear_arith)
        requires
            d * sum <= 2 * (d * y) + bound,
            bound == a * y,
            0 <= y,
            0 <= a <= 0x100_0000_0000,
            d == 0x1000_0000_0000_0000,
            y2 == y * y,
    {
        assert(0 <= bound);
        assert(bound * (d * sum) <= bound * (2 * (d * y) + bound));
        assert(bound * (d * sum) == d * (bound * sum));
        assert(bound * (2 * (d * y)) == 2 * (d * (a * y2)));
        assert(bound * bound == (a * a) * y2);
        assert(a * a <= 0x10_0000 * d);
        assert(0 <= y2);
        assert((a * a) * y2 <= (0x10_0000 * d) * y2);
        assert(d * ((2 * a + 0x10_0000) * y2) == 2 * (d * (a * y2)) + (0x10_0000 * d) * y2);
    }
}

proof fn near_scaled(k: int, x: int, y: int, a: int)
    requires
        near(x, y, a),
        0 <= k,
    ensures
        near(k * x, k * y, a),
{
    let gap = 0x1000_0000_0000_0000 * (x - y);
    let bound = a * y;
    assert(-(k * bound) <= k * gap <= k * bound) by (nonlinear_arith)
        requires
            -bound <= gap <= bound,
            0 <= k,
    ;
    assert(k * bound == a * (k * y)) by (nonlinear_arith)
        requires
            bound == a * y,
    ;
    assert(k * gap == 0x1000_0000_0000_0000 * (k * x - k * y)) by (nonlinear_arith)
        requires
            gap == 0x1000_0000_0000_0000 * (x - y),
    ;
}

proof fn near_flipped(x: int, y: int, a: int)
    requires
        near(x, y, a),
        0 <= x,
        0 <= y,
        0 <= a <= 0x100_0000_0000,
    ensures
        near(y, x, a + 0x20_0000),
{
    let d: int = 0x1000_0000_0000_0000;
    let ay = a * y;
    let wide = (a + 0x20_0000) * x;
    assert((d - a) * ay <= (d - a) * wide) by (nonlinear_arith)
        requires
            -ay <= d * (x - y),
            ay == a * y,
            wide == (a + 0x20_0000) * x,
            0 <= a <= 0x100_0000_0000,
            d == 0x1000_0000_0000_0000,
            0 <= x,
            0 <= y,
    {
        assert((d - a) * y <= d * x);
        assert(a * ((d - a) * y) <= a * (d * x));
        assert((d - a) * ay == a * ((d - a) * y));
        assert(a * d <= (d - a) * (a + 0x20_0000));
        assert((a * d) * x <= ((d - a) * (a + 0x20_0000)) * x);
        assert(a * (d * x) == (a * d) * x);
        assert(((d - a) * (a + 0x20_0000)) * x == (d - a) * wide);
    }
    assert(ay <= wide) by (nonlinear_arith)
        requires
            (d - a) * ay <= (d - a) * wide,
            0 < d - a,
    ;
}

proof fn near_sum(x: int, y: int, p: int, q: int, a: int)
    requires
        near(x, y, a),
        near(p, q, a),
    ensures
        near(x + p, y + q, a),
{
    assert(a * y + a * q == a * (y + q)) by (nonlinear_arith);
}

/// More parts make a wider bound.
proof fn near_wider(x: int, y: int, a: int, b: int)
    requires
        near(x, y, a),
        a <= b,
        0 <= y,
    ensures
        near(x, y, b),
{
    assert(a * y <= b * y) by (nonlinear_arith)
        requires
            a <= b,
            0 <= y,
    ;
}

proof fn energy_step(samples: Seq<int>)
    requires
        samples.len() > 0,
    ensures
        energy(samples) == energy(samples.drop_last()) + samples.last() * samples.last(),
{
}

/// A sample in single precision is off by no more than 2^-24 of it.
proof fn normalized_error(sample: int)
    ensures
        near(32767 * normalized(sample) as int, (magnitude(sample) * pow2(39)) as int, 0x10_0000_0000),
{
    let m = magnitude(sample);
    let n = m * pow2(39);
    lemma2_to64();
    lemma2_to64_rest();
    if m == 0 {
        assert(n == 0);
        float::zero_rounds_to_zero(32767, 24);
    } else {
        lemma_fundamental_div_mod(n as int, 32767);
        assert(n / 32767 >= pow2(23));
        float::rounding_error(n, 32767, 24);
    }
}

proof fn squares_are_kept(samples: Seq<int>)
    ensures
        energy(samples) >= 0,
        near(
            1_073_676_289 * kept_energy(samples) as int,
            energy(samples) * (pow2(39) * pow2(39)),
            0x20_0010_0000,
        ),
    decreases samples.len(),
{
    if samples.len() > 0 {
        squares_are_kept(samples.drop_last());
        energy_step(samples);
        let s = samples.last();
        let u = normalized(s);
        let m = magnitude(s) as int;
        let p = pow2(39) as int;
        normalized_error(s);
        near_square(32767 * u as int, m * p, 0x10_0000_0000);
        assert((32767 * u as int) * (32767 * u as int) == 1_073_676_289 * square(u)) by (nonlinear_arith)
            requires
                square(u) == u * u,
        ;
        assert((m * p) * (m * p) == (s * s) * (p * p)) by (nonlinear_arith)
            requires
                m == s || m == -s,
        ;
        let e = energy(samples.drop_last());
        assert(e * (p * p) + (s * s) * (p * p) == (e + s * s) * (p * p)) by (nonlinear_arith);
        assert(s * s >= 0) by (nonlinear_arith);
        near_sum(
            1_073_676_289 * kept_energy(samples.drop_last()) as int,
            e * (p * p),
            1_073_676_289 * square(u) as int,
            (s * s) * (p * p),
            0x20_0010_0000,
        );
        assert(kept_energy(samples) == kept_energy(samples.drop_last()) + square(u));
        assert(energy(samples) == e + s * s);
        assert(p * p == pow2(39) * pow2(39));
        assert((e + s * s) * (p * p) == energy(samples) * (pow2(39) * pow2(39)));
    } else {
        assert(energy(samples) == 0);
        let p2 = pow2(39) * pow2(39);
        assert(0int * p2 == 0);
        assert(energy(samples) * p2 == 0);
    }
}

proof fn sums_are_near(samples: Seq<int>)
    requires
        samples.len() <= 0x4000_0000,
    ensures
        near(square_sum(samples) as int, kept_energy(samples) as int, 129 * samples.len() as int),
    decreases samples.len(),
{
    if samples.len() > 0 {
        let before = samples.drop_last();
        sums_are_near(before);
        let q = square(normalized(samples.last())) as int;
        let b = 129 * before.len() as int;
        assert(0 <= b * q) by (nonlinear_arith)
            requires
                0 <= b,
                0 <= q,
        ;
        near_sum(square_sum(before) as int, kept_energy(before) as int, q, q, b);
        let exact = (square_sum(before) + q) as nat;
        float::rounding_error(exact, 1, 53);
        lemma2_to64_rest();
        assert(near(square_sum(samples) as int, exact as int, 128));
        near_chain(
            square_sum(samples) as int,
            exact as int,
            kept_energy(before) + q,
            128,
            b,
            1,
        );
    }
}

proof fn mean_is_large(top: nat, count: nat)
    requires
        0 < count,
        pow2(107) <= top / count,
    ensures
        rounded(top, count, 53) >= pow2(106),
{
    lemma_pow2_unfold(107);
    lemma_pow2_pos(106);
    float::rounded_is_not_small(top, count, 53);
}

/// The loudness of some samples, not all of them 0, is computed as the exact one
/// but for the errors of rounding.
proof fn loud_samples_are_near(samples: Seq<int>)
    requires
        0 < samples.len() <= 0x4000_0000,
        0 < energy(samples),
    ensures
        ({
            let r = (rms(samples) * 32767) as int;
            near(
                r * r * samples.len(),
                energy(samples) * (pow2(128) * pow2(128)),
                0x80_0000_0000,
            )
        }),
{
    let n = samples.len() as int;
    let full: int = 1_073_676_289;
    let kept = kept_energy(samples) as int;
    let sum = square_sum(samples) as int;
    let lift = pow2(178) as int;
    let exact = energy(samples) * (pow2(39) * pow2(39));
    lemma2_to64();
    lemma2_to64_rest();
    squares_are_kept(samples);
    sums_are_near(samples);
    // The sum is large enough for the digits of what follows.
    assert(energy(samples) * (pow2(39) * pow2(39)) >= pow2(39) * pow2(39)) by (nonlinear_arith)
        requires
            energy(samples) >= 1,
    ;
    near_wider(sum, kept, 129 * n, 0x20_4000_0000);
    assert(near(full * kept, exact, 0x20_0010_0000));
    assert(exact > 0);
    assert(kept > 0);
    assert(sum > 0);
    let top = (sum * lift) as nat;
    assert(top / (n as nat) >= pow2(107)) by {
        lemma_pow2_adds(107, 71);
        lemma_pow2_adds(36, 35);
        lemma_pow2_pos(107);
        let bound = pow2(107) as int;
        assert(top >= bound * n) by (nonlinear_arith)
            requires
                top == sum * lift,
                lift == bound * 0x80_0000_0000_0000_0000,
                sum >= 1,
                n <= 0x4000_0000,
                bound > 0,
        ;
        lemma_div_is_ordered(bound * n, top as int, n);
        lemma_div_multiples_vanish(bound, n);
        assert(n * bound == bound * n) by (nonlinear_arith);
    }
    lemma_pow2_strictly_increases(52, 107);
    let mean = rounded(top, n as nat, 53);
    float::rounding_error(top, n as nat, 53);
    assert(near(n * mean, sum * lift, 128));
    mean_is_large(top, n as nat);
    let root = rounded_root(mean, 53);
    float::root_error(mean);
    assert(near(mean as int, square(root) as int, 512));
    near_flipped(mean as int, square(root) as int, 512);
    let r = rounded(root, 1, 24);
    float::rounding_error(root, 1, 24);
    assert(near(r as int, root as int, 0x10_0000_0000));
    near_square(r as int, root as int, 0x10_0000_0000);
    near_chain(
        (r * r) as int,
        (root * root) as int,
        mean as int,
        0x20_0010_0000,
        0x20_0200,
        0x10_0000,
    );
    near_scaled(n, (r * r) as int, mean as int, 0x20_0040_0200);
    near_chain(n * (r * r), n * mean, sum * lift, 0x20_0040_0200, 128, 0x10_0000);
    near_scaled(lift, sum, kept, 129 * n);
    assert(lift * sum == sum * lift) by (nonlinear_arith);
    near_wider(lift * sum, lift * kept, 129 * n, 0x20_4000_0000);
    near_chain(
        n * (r * r),
        sum * lift,
        lift * kept,
        0x20_0050_0280,
        0x20_4000_0000,
        0x10_0000,
    );
    near_scaled(full, n * (r * r), lift * kept, 0x40_4060_0280);
    near_scaled(lift, full * kept, exact, 0x20_0010_0000);
    assert(full * (lift * kept) == lift * (full * kept)) by (nonlinear_arith);
    near_chain(
        full * (n * (r * r)),
        lift * (full * kept),
        lift * exact,
        0x40_4060_0280,
        0x20_0010_0000,
        0x10_0000,
    );
    near_wider(
        full * (n * (r * r)),
        lift * exact,
        0x60_4080_0280,
        0x80_0000_0000,
    );
    let scaled = (rms(samples) * 32767) as int;
    assert(full * (n * (r * r)) == scaled * scaled * n) by (nonlinear_arith)
        requires
            scaled == r * 32767,
            full == 1_073_676_289,
    ;
    lemma_pow2_adds(39, 39);
    lemma_pow2_adds(78, 178);
    lemma_pow2_adds(128, 128);
    let e = energy(samples);
    assert(lift * exact == e * (pow2(128) * pow2(128))) by (nonlinear_arith)
        requires
            exact == e * pow2(78),
            pow2(78) * lift == pow2(128) * pow2(128),
    ;
}

/// The loudness of some samples that are not all 0, squared and taken as often as
/// there are samples, is their energy but for 2^-21 of it.
proof fn rms_is_near(samples: Seq<int>)
    requires
        0 < samples.len() <= 0x4000_0000,
    ensures
        energy(samples) >= 0,
        ({
            let r = (rms(samples) * 32767) as int;
            let exact = energy(samples) * (pow2(128) * pow2(128));
            -exact <= 0x20_0000 * (r * r * samples.len() - exact) <= exact
        }),
        energy(samples) == 0 ==> rms(samples) == 0,
        energy(samples) > 0 ==> rms(samples) >= pow2(24),
{
    squares_are_kept(samples);
    if energy(samples) == 0 {
        no_energy_is_silence(samples);
        audio::silence_is_not_speech(samples);
        assert(0int * (pow2(128) * pow2(128)) == 0) by (nonlinear_arith);
        assert(0int * 0 * samples.len() == 0) by (nonlinear_arith);
    } else {
        loud_samples_are_near(samples);
        let r = (rms(samples) * 32767) as int;
        let e = energy(samples);
        let n = samples.len() as int;
        let one = pow2(128) as int;
        assert(rms(samples) >= pow2(24)) by {
            lemma_pow2_adds(64, 64);
            lemma2_to64();
            lemma2_to64_rest();
            let low: int = 0x100_0000;
            if rms(samples) < low {
                let exact = e * (one * one);
                assert(r * r * n <= (low * 32767) * (low * 32767) * 0x4000_0000) by (nonlinear_arith)
                    requires
                        0 <= r <= low * 32767,
                        0 <= n <= 0x4000_0000,
                {
                    assert(r * r <= (low * 32767) * (low * 32767));
                    assert((r * r) * n <= ((low * 32767) * (low * 32767)) * 0x4000_0000);
                }
                assert(exact >= one) by (nonlinear_arith)
                    requires
                        exact == e * (one * one),
                        e >= 1,
                        one >= 1,
                ;
                assert((low * 32767) * (low * 32767) * 0x4000_0000 < 0x4000_0000_0000_0000_0000_0000_0000_0000int)
                    by (nonlinear_arith)
                    requires
                        low == 0x100_0000,
                ;
            }
        }
    }
}

proof fn no_energy_is_silence(samples: Seq<int>)
    requires
        energy(samples) == 0,
    ensures
        forall|i: int| 0 <= i < samples.len() ==> #[trigger] samples[i] == 0,
    decreases samples.len(),
{
    if samples.len() > 0 {
        let before = samples.drop_last();
        let s = samples.last();
        energy_step(samples);
        squares_are_kept(before);
        assert(s * s >= 0) by (nonlinear_arith);
        assert(s == 0) by (nonlinear_arith)
            requires
                s * s == 0,
        ;
        no_energy_is_silence(before);
        assert forall|i: int| 0 <= i < samples.len() implies #[trigger] samples[i] == 0 by {
            if i < before.len() {
                assert(samples[i] == before[i]);
            }
        }
    }
}

/// The loudness of a chunk is the root of the mean square of its samples as parts
/// of full scale. Its pattern is read as a number in units of 2^-150; squared and
/// taken as often as there are samples, that number is the energy of the samples
/// but for 2^-21 of it.
pub proof fn loudness_is_the_root_mean_square(samples: Seq<int>, metrics: AudioChunkMetrics)
    requires
        metrics.measures(samples),
        0 < samples.len() <= 0x4000_0000,
    ensures
        energy(samples) == 0 ==> metrics.rms == 0,
        energy(samples) > 0 ==> ({
            let value = (metrics.rms % 0x80_0000 + 0x80_0000) * pow2(
                (metrics.rms / 0x80_0000) as nat,
            );
            let root = value * 32767;
            let exact = energy(samples) * (pow2(150) * pow2(150));
            -exact <= 0x20_0000 * (root * root * samples.len() - exact) <= exact
        }),
{
    rms_is_near(samples);
    if energy(samples) > 0 {
        let r = rms(samples);
        lemma2_to64();
        float::bit_length_bounds(r);
        float::enough_digits(r, 25);
        float::rounded_is_exact(rounded_root(rounded(square_sum(samples) * pow2(178), samples.len(), 53), 53), 1);
        float::pattern_reads_back(r, 128);
        let value = (metrics.rms % 0x80_0000 + 0x80_0000) * pow2((metrics.rms / 0x80_0000) as nat);
        let lift = pow2(22) as int;
        assert(value == r * lift);
        lemma_pow2_adds(128, 22);
        let e = energy(samples);
        let n = samples.len() as int;
        let one = pow2(128) as int;
        let low = (r * 32767) as int;
        let root = value * 32767;
        let coarse = e * (one * one);
        let exact = e * (pow2(150) * pow2(150));
        assert(root * root * n == (low * low * n) * (lift * lift)) by (nonlinear_arith)
            requires
                root == (r * lift) * 32767,
                low == r * 32767,
        ;
        assert(exact == coarse * (lift * lift)) by (nonlinear_arith)
            requires
                coarse == e * (one * one),
                exact == e * (pow2(150) * pow2(150)),
                pow2(150) == one * lift,
        ;
        let square_n = low * low * n;
        assert(-exact <= 0x20_0000 * (root * root * n - exact) <= exact) by (nonlinear_arith)
            requires
                -coarse <= 0x20_0000 * (square_n - coarse) <= coarse,
                root * root * n == square_n * (lift * lift),
                exact == coarse * (lift * lift),
        {
            let q = lift * lift;
            let gap = 0x20_0000 * (square_n - coarse);
            assert(q >= 0);
            assert(-(coarse * q) <= gap * q <= coarse * q);
            assert(gap * q == 0x20_0000 * (square_n * q - coarse * q));
        }
    }
}

/// The patterns next to the loudness from which a chunk counts as speech.
proof fn threshold_patterns()
    ensures
        single_pattern(16_106_127 * pow2(98), 128) == 0x3c75_c28f,
        single_pattern(16_106_126 * pow2(98), 128) == 0x3c75_c28e,
{
    lemma2_to64();
    float::bit_length_from_bounds(16_106_127, 23);
    float::bit_length_from_bounds(16_106_126, 23);
    float::bit_pattern_scales(16_106_127, 30, 24, 127, 98);
    float::bit_pattern_scales(16_106_126, 30, 24, 127, 98);
    assert(16_106_127nat * 0x100_0000 / 0x100_0000 == 16_106_127);
    assert(16_106_126nat * 0x100_0000 / 0x100_0000 == 16_106_126);
    assert(single_pattern(16_106_127, 30) == 120 * 0x80_0000 + 16_106_127 - 0x80_0000);
    assert(single_pattern(16_106_126, 30) == 120 * 0x80_0000 + 16_106_126 - 0x80_0000);
}

/// A chunk counts as speech by the mean square of its samples: from 241578 on it
/// does, up to 241576 it does not. The loudness of 0.015 lies between, at a mean
/// square of some 241577.
pub proof fn loudness_decides_speech(samples: Seq<int>, metrics: AudioChunkMetrics)
    requires
        metrics.measures(samples),
        0 < samples.len() <= 0x4000_0000,
    ensures
        energy(samples) >= 241_578 * samples.len() ==> metrics.rms >= 0x3c75_c28f,
        energy(samples) <= 241_576 * samples.len() ==> metrics.rms < 0x3c75_c28f,
{
    rms_is_near(samples);
    threshold_patterns();
    let r = rms(samples) as int;
    let e = energy(samples);
    let n = samples.len() as int;
    let h = pow2(98) as int;
    let one = pow2(128) as int;
    let low = r * 32767;
    let exact = e * (one * one);
    lemma2_to64();
    lemma2_to64_rest();
    lemma_pow2_pos(98);
    lemma_pow2_adds(98, 30);
    assert(one == h * 0x4000_0000);
    let h2 = h * h;
    assert(h2 > 0) by (nonlinear_arith)
        requires
            h > 0,
            h2 == h * h,
    ;
    assert(exact == (e * h2) * 0x1000_0000_0000_0000) by (nonlinear_arith)
        requires
            exact == e * (one * one),
            one == h * 0x4000_0000,
            h2 == h * h,
    ;
    let scaled = n * h2;
    assert(scaled > 0) by (nonlinear_arith)
        requires
            scaled == n * h2,
            n > 0,
            h2 > 0,
    ;
    if e >= 241_578 * n {
        assert(e * h2 >= 241_578 * scaled) by (nonlinear_arith)
            requires
                e >= 241_578 * n,
                scaled == n * h2,
                h2 > 0,
        ;
        if r < 16_106_127 * h {
            assert(low * low * n <= 278_519_496_128_487_429_901_281int * scaled) by (nonlinear_arith)
                requires
                    low == r * 32767,
                    0 <= r <= 16_106_127 * h,
                    scaled == n * (h * h),
                    n > 0,
                    h > 0,
            {
                assert(r * r <= (16_106_127 * h) * (16_106_127 * h));
                assert((r * r) * n <= ((16_106_127 * h) * (16_106_127 * h)) * n);
            }
            assert(false);
        }
        float::patterns_are_ordered(16_106_127 * pow2(98), rms(samples), 128);
    }
    if e <= 241_576 * n && r > 0 {
        assert(e * h2 <= 241_576 * scaled) by (nonlinear_arith)
            requires
                e <= 241_576 * n,
                scaled == n * h2,
                h2 > 0,
        ;
        if r > 16_106_126 * h {
            assert(low * low * n >= 278_519_461_542_955_168_532_164int * scaled) by (nonlinear_arith)
                requires
                    low == r * 32767,
                    r >= 16_106_126 * h,
                    scaled == n * (h * h),
                    n > 0,
                    h > 0,
            {
                assert(r * r >= (16_106_126 * h) * (16_106_126 * h));
                assert((r * r) * n >= ((16_106_126 * h) * (16_106_126 * h)) * n);
            }
            assert(false);
        }
        float::patterns_are_ordered(rms(samples), 16_106_126 * pow2(98), 128);
    }
}

proof fn energy_between(samples: Seq<int>, low: int, high: int)
    requires
        0 <= low,
        forall|i: int|
            0 <= i < samples.len() ==> low <= magnitude(#[trigger] samples[i]) <= high,
    ensures
        low * low * samples.len() <= energy(samples) <= high * high * samples.len(),
    decreases samples.len(),
{
    if samples.len() > 0 {
        let before = samples.drop_last();
        assert forall|i: int| 0 <= i < before.len() implies low <= magnitude(
            #[trigger] before[i],
        ) <= high by {
            assert(before[i] == samples[i]);
        }
        energy_between(before, low, high);
        energy_step(samples);
        let s = samples[samples.len() - 1];
        let m = magnitude(s) as int;
        let k = before.len() as int;
        assert(s * s == m * m) by (nonlinear_arith)
            requires
                m == s || m == -s,
        ;
        assert(low * low <= m * m <= high * high) by (nonlinear_arith)
            requires
                0 <= low <= m <= high,
        ;
        assert(low * low * (k + 1) == low * low * k + low * low) by (nonlinear_arith);
        assert(high * high * (k + 1) == high * high * k + high * high) by (nonlinear_arith);
    } else {
        assert(low * low * 0 == 0) by (nonlinear_arith);
        assert(high * high * 0 == 0) by (nonlinear_arith);
    }
}

/// A chunk of samples that are all 0.0151 of full scale or more counts as speech,
/// and one of samples that are all below 0.0149 of it does not.
pub proof fn loud_samples_are_speech(samples: Seq<int>, metrics: AudioChunkMetrics)
    requires
        metrics.measures(samples),
        0 < samples.len() <= 0x4000_0000,
    ensures
        (forall|i: int|
            0 <= i < samples.len() ==> (#[trigger] samples[i] <= -492 || samples[i] >= 492))
            ==> metrics.rms >= 0x3c75_c28f,
        (forall|i: int| 0 <= i < samples.len() ==> -491 <= #[trigger] samples[i] <= 491)
            ==> metrics.rms < 0x3c75_c28f,
{
    loudness_decides_speech(samples, metrics);
    if forall|i: int|
        0 <= i < samples.len() ==> (#[trigger] samples[i] <= -492 || samples[i] >= 492) {
        let top = largest(samples);
        energy_between(samples, 492, top);
    }
    if forall|i: int| 0 <= i < samples.len() ==> -491 <= #[trigger] samples[i] <= 491 {
        energy_between(samples, 0, 491);
    }
}

/// The loudness of a chunk lies between the smallest and the largest magnitude of
/// its samples as parts of full scale, but for rounding: its pattern is read as a
/// number in units of 2^-150, and the squares are compared but for 2^-21 of them.
pub proof fn loudness_lies_between(
    samples: Seq<int>,
    metrics: AudioChunkMetrics,
    low: int,
    high: int,
)
    requires
        metrics.measures(samples),
        0 < samples.len() <= 0x4000_0000,
        0 < low,
        forall|i: int|
            0 <= i < samples.len() ==> (low <= #[trigger] samples[i] <= high || -high <= samples[i]
                <= -low),
    ensures
        ({
            let value = (metrics.rms % 0x80_0000 + 0x80_0000) * pow2(
                (metrics.rms / 0x80_0000) as nat,
            );
            let root = value * 32767;
            let one = pow2(150) * pow2(150);
            &&& 0x1f_ffff * (low * low * one) <= 0x20_0000 * (root * root)
            &&& 0x20_0000 * (root * root) <= 0x20_0001 * (high * high * one)
        }),
{
    energy_between(samples, low, high);
    let n = samples.len() as int;
    let e = energy(samples);
    let one = (pow2(150) * pow2(150)) as int;
    lemma_pow2_pos(150);
    assert(one > 0) by (nonlinear_arith)
        requires
            one == pow2(150) * pow2(150),
            pow2(150) > 0,
    ;
    let small = low * low;
    let large = high * high;
    assert(e > 0) by (nonlinear_arith)
        requires
            small * n <= e,
            small == low * low,
            0 < low,
            0 < n,
    ;
    loudness_is_the_root_mean_square(samples, metrics);
    let value = (metrics.rms % 0x80_0000 + 0x80_0000) * pow2((metrics.rms / 0x80_0000) as nat);
    let root = value * 32767;
    let found = root * root;
    let exact = e * one;
    assert(found * n == root * root * n);
    assert((small * one) * n <= exact <= (large * one) * n) by (nonlinear_arith)
        requires
            small * n <= e <= large * n,
            exact == e * one,
            one > 0,
    ;
    let a = small * one;
    let b = large * one;
    assert(0x1f_ffff * a <= 0x20_0000 * found) by (nonlinear_arith)
        requires
            a * n <= exact,
            -exact <= 0x20_0000 * (found * n - exact),
            0 < n,
    {
        assert((0x1f_ffff * a) * n <= (0x20_0000 * found) * n);
    }
    assert(0x20_0000 * found <= 0x20_0001 * b) by (nonlinear_arith)
        requires
            exact <= b * n,
            0x20_0000 * (found * n - exact) <= exact,
            0 < n,
    {
        assert((0x20_0000 * found) * n <= (0x20_0001 * b) * n);
    }
}

proof fn largest(samples: Seq<int>) -> (top: int)
    ensures
        0 <= top,
        forall|i: int| 0 <= i < samples.len() ==> magnitude(#[trigger] samples[i]) <= top,
    decreases samples.len(),
{
    if samples.len() == 0 {
        0
    } else {
        let before = samples.drop_last();
        let top = largest(before);
        let last = magnitude(samples.last()) as int;
        assert forall|i: int| 0 <= i < samples.len() implies magnitude(#[trigger] samples[i])
            <= top + last by {
            if i < before.len() {
                assert(samples[i] == before[i]);
            }
        }
        top + last
    }
}

/// The pattern of a sample has the sign of the sample, and is read as a number in
/// units of 2^-150 that is the sample as a part of full scale but for 2^-24 of it.
pub proof fn samples_are_parts_of_full_scale(sample: int)
    requires
        -32768 <= sample <= 32767,
    ensures
        sample == 0 ==> sample_pattern(sample) == 0,
        sample < 0 ==> 0x8000_0000 < sample_pattern(sample) <= 0xffff_ffff,
        sample > 0 ==> 0 < sample_pattern(sample) < 0x8000_0000,
        sample != 0 ==> ({
            let pattern = sample_pattern(sample) % 0x8000_0000;
            let value = (pattern % 0x80_0000 + 0x80_0000) * pow2((pattern / 0x80_0000) as nat);
            let exact = (if sample < 0 { -sample } else { sample }) * pow2(150);
            -exact <= 0x100_0000 * (value * 32767 - exact) <= exact
        }),
{
    lemma2_to64();
    lemma2_to64_rest();
    normalized_error(sample);
    let m = magnitude(sample) as int;
    let u = normalized(sample);
    audio::normalized_is_coarse(m as nat);
    if sample == 0 {
        assert(0 * pow2(39) == 0);
        float::zero_rounds_to_zero(32767, 24);
    } else {
        float::bit_length_bounds(u);
        float::enough_digits(u, 25);
        float::few_digits(u, 41);
        float::rounded_is_exact((m * pow2(39)) as nat, 32767);
        float::pattern_reads_back(u, 39);
        let p = single_pattern(u, 39);
        assert(p < 0x8000_0000);
        assert(sample_pattern(sample) % 0x8000_0000 == p);
        let value = (p % 0x80_0000 + 0x80_0000) * pow2((p / 0x80_0000) as nat);
        let lift = pow2(111) as int;
        lemma_pow2_adds(39, 111);
        let coarse = m * pow2(39);
        assert(value == u * lift);
        assert(m * pow2(150) == coarse * lift) by (nonlinear_arith)
            requires
                pow2(150) == pow2(39) * lift,
                coarse == m * pow2(39),
        ;
        let v = u * 32767;
        lemma_pow2_pos(111);
        assert(-(coarse * lift) <= 0x100_0000 * ((u * lift) * 32767 - coarse * lift) <= coarse * lift)
            by (nonlinear_arith)
            requires
                -coarse <= 0x100_0000 * (v - coarse) <= coarse,
                v == u * 32767,
                lift > 0,
        {
            assert((u * lift) * 32767 == v * lift);
            let gap = 0x100_0000 * (v - coarse);
            assert(gap * lift == 0x100_0000 * (v * lift - coarse * lift));
            assert(-(coarse * lift) <= gap * lift <= coarse * lift);
        }
    }
}

/// Two bytes make a sample, the low one first, and a sample is their number or
/// that number less 65536, whichever has 16 bits. Its pattern is the sample as a
/// part of full scale.
pub proof fn bytes_are_decoded_in_pairs(bytes: Seq<u8>, patterns: Seq<u32>, i: int)
    requires
        patterns_of(patterns, samples_in(bytes)),
        0 <= 2 * i,
        2 * i + 1 < bytes.len(),
    ensures
        patterns.len() == samples_in(bytes).len() == bytes.len() / 2,
        ({
            let sample = samples_in(bytes)[i];
            let number = bytes[2 * i] + 256 * bytes[2 * i + 1];
            &&& -32768 <= sample <= 32767
            &&& sample == number || sample == number - 65536
            &&& sample == 0 ==> patterns[i] == 0
            &&& sample < 0 <==> patterns[i] > 0x8000_0000
            &&& sample != 0 ==> ({
                let pattern = patterns[i] % 0x8000_0000;
                let value = (pattern % 0x80_0000 + 0x80_0000) * pow2((pattern / 0x80_0000) as nat);
                let exact = (if sample < 0 { -sample } else { sample }) * pow2(150);
                -exact <= 0x100_0000 * (value * 32767 - exact) <= exact
            })
        }),
{
    samples_are_parts_of_full_scale(samples_in(bytes)[i]);
}

/// A byte that was carried over stands before the bytes of the chunk, and none is
/// carried over but the last of an odd number. An empty chunk decodes nothing, and
/// nothing is carried over it.
pub proof fn carried_byte_comes_first(carry: Option<u8>, bytes: Seq<u8>)
    ensures
        bytes.len() == 0 ==> samples_in(stream(carry, bytes)).len() == 0 && left_over(
            stream(carry, bytes),
        ) is None,
        bytes.len() > 0 ==> ({
            let carried: int = if carry is Some { 1 } else { 0 };
            let all = stream(carry, bytes);
            &&& all.len() == bytes.len() + carried
            &&& forall|i: int| 0 <= i < bytes.len() ==> all[i + carried] == #[trigger] bytes[i]
            &&& carry is Some ==> all[0] == carry->0
            &&& 2 * samples_in(all).len() + (if left_over(all) is Some { 1int } else { 0 })
                == all.len()
            &&& left_over(all) is Some ==> left_over(all)->0 == bytes[bytes.len() - 1]
        }),
{
}

proof fn peak_is_largest(samples: Seq<int>)
    ensures
        forall|i: int| 0 <= i < samples.len() ==> normalized(#[trigger] samples[i]) <= peak(samples),
        samples.len() > 0 ==> exists|i: int|
            0 <= i < samples.len() && normalized(#[trigger] samples[i]) == peak(samples),
        samples.len() == 0 ==> peak(samples) == 0,
    decreases samples.len(),
{
    if samples.len() > 0 {
        let before = samples.drop_last();
        peak_is_largest(before);
        let last = samples.len() - 1;
        assert forall|i: int| 0 <= i < samples.len() implies normalized(#[trigger] samples[i])
            <= peak(samples) by {
            if i < last {
                assert(samples[i] == before[i]);
            }
        }
        if normalized(samples.last()) > peak(before) {
            assert(normalized(samples[last]) == peak(samples));
        } else if before.len() > 0 {
            let k = choose|k: int|
                0 <= k < before.len() && normalized(#[trigger] before[k]) == peak(before);
            assert(samples[k] == before[k]);
        } else {
            assert(normalized(samples[last]) == peak(samples));
        }
    }
}

/// The peak of a chunk is the pattern of one of its samples without the sign, and
/// no sample has a larger one. A chunk without samples has neither peak nor
/// loudness.
pub proof fn peak_is_the_largest_magnitude(samples: Seq<int>, metrics: AudioChunkMetrics)
    requires
        metrics.measures(samples),
        forall|i: int| 0 <= i < samples.len() ==> -32768 <= #[trigger] samples[i] <= 32767,
    ensures
        forall|i: int|
            0 <= i < samples.len() ==> sample_pattern(#[trigger] samples[i]) % 0x8000_0000
                <= metrics.peak,
        samples.len() > 0 ==> exists|i: int|
            0 <= i < samples.len() && sample_pattern(#[trigger] samples[i]) % 0x8000_0000
                == metrics.peak,
        samples.len() == 0 ==> metrics.peak == 0 && metrics.rms == 0,
{
    peak_is_largest(samples);
    assert forall|i: int| 0 <= i < samples.len() implies single_pattern(
        normalized(#[trigger] samples[i]),
        39,
    ) == sample_pattern(samples[i]) % 0x8000_0000 && sample_pattern(samples[i]) % 0x8000_0000
        <= metrics.peak by {
        let s = samples[i];
        unsigned_pattern(s);
        if normalized(s) > 0 {
            float::patterns_are_ordered(normalized(s), peak(samples), 39);
        }
    }
    if samples.len() > 0 {
        let k = choose|k: int|
            0 <= k < samples.len() && normalized(#[trigger] samples[k]) == peak(samples);
        assert(sample_pattern(samples[k]) % 0x8000_0000 == metrics.peak);
    }
}

proof fn unsigned_pattern(sample: int)
    requires
        -32768 <= sample <= 32767,
    ensures
        single_pattern(normalized(sample), 39) == sample_pattern(sample) % 0x8000_0000,
{
    samples_are_parts_of_full_scale(sample);
    if sample == 0 {
        assert(0 * pow2(39) == 0);
        float::zero_rounds_to_zero(32767, 24);
    }
}

/// All samples of a chunk count as sound, and as speech when the chunk is as loud
/// as 0.015 of full scale, else none.
pub proof fn chunks_count_whole(stats: AudioStats, count: nat, rms: u32)
    requires
        stats.bytes + 2 * count <= u64::MAX,
        stats.speech_bytes + 2 * count <= u64::MAX,
    ensures
        with_samples(stats, count, rms).bytes - stats.bytes == 2 * count,
        rms >= 0x3c75_c28f ==> with_samples(stats, count, rms).speech_bytes - stats.speech_bytes
            == 2 * count,
        rms < 0x3c75_c28f ==> with_samples(stats, count, rms).speech_bytes == stats.speech_bytes,
{
}

/// Whatever its length, a recording lasts as long as its bytes at 32 bytes to a
/// millisecond, but for half a nanosecond and 2^-51 of the time.
pub proof fn recording_time_is_near(bytes: nat)
    ensures
        ({
            let exact = bytes * 31_250;
            let gap = elapsed_nanos(bytes) - exact;
            &&& 0x8_0000_0000_0000 * (2 * gap) <= 2 * exact + 0x8_0000_0000_0000
            &&& 0x8_0000_0000_0000 * (2 * gap) >= -2 * exact - 0x8_0000_0000_0000
        }),
{
    let one = pow2(100) as int;
    let count = rounded(bytes, 1, 53);
    let top = count * pow2(100);
    let seconds = rounded(top, 32_000, 53);
    let nanos = elapsed_nanos(bytes) as int;
    lemma2_to64();
    lemma2_to64_rest();
    lemma_pow2_adds(64, 36);
    float::rounding_error(bytes, 1, 53);
    assert(near(count as int, bytes as int, 128));
    if bytes > 0 {
        assert(count > 0) by {
            assert(bytes / 1 == bytes);
            float::rounded_is_not_small(bytes, 1, 53);
        }
        assert(top >= pow2(100)) by (nonlinear_arith)
            requires
                top == count * pow2(100),
                count >= 1,
        ;
        lemma_fundamental_div_mod(top as int, 32_000);
        assert(top / 32_000 >= pow2(52));
        float::rounding_error(top, 32_000, 53);
    } else {
        assert(0 * pow2(100) == 0);
        float::zero_rounds_to_zero(32_000, 53);
    }
    assert(near(32_000 * seconds as int, top as int, 128));
    near_scaled(one, count as int, bytes as int, 128);
    assert(one * count == top) by (nonlinear_arith)
        requires
            top == count * one,
    ;
    near_chain(32_000 * seconds as int, top as int, one * bytes, 128, 128, 1);
    near_scaled(31_250, 32_000 * seconds as int, one * bytes, 257);
    let n = (seconds * 1_000_000_000) as nat;
    float::nearest_error(n, pow2(100));
    let exact = bytes * 31_250;
    assert(31_250 * (one * bytes) == one * exact) by (nonlinear_arith)
        requires
            exact == bytes * 31_250,
    ;
    let x = one * exact;
    assert(near(n as int, x, 257));
    let y = nanos * one;
    let gap = nanos - exact;
    assert(2 * (y - x) <= 2 * (n - x) + one);
    assert(2 * (y - x) >= 2 * (n - x) - one);
    assert(y - x == one * gap) by (nonlinear_arith)
        requires
            y == nanos * one,
            x == one * exact,
            gap == nanos - exact,
    ;
    let d: int = 0x8_0000_0000_0000;
    assert(one * (d * (2 * gap)) <= one * (2 * exact + d)) by (nonlinear_arith)
        requires
            2 * (one * gap) <= 2 * (n - x) + one,
            0x1000_0000_0000_0000 * (n - x) <= 257 * x,
            x == one * exact,
            d == 0x8_0000_0000_0000,
            one > 0,
            exact >= 0,
    ;
    assert(one * (d * (2 * gap)) >= one * (-2 * exact - d)) by (nonlinear_arith)
        requires
            2 * (one * gap) >= 2 * (n - x) - one,
            0x1000_0000_0000_0000 * (n - x) >= -(257 * x),
            x == one * exact,
            d == 0x8_0000_0000_0000,
            one > 0,
            exact >= 0,
    ;
    assert(d * (2 * gap) <= 2 * exact + d && d * (2 * gap) >= -2 * exact - d) by (nonlinear_arith)
        requires
            one * (d * (2 * gap)) <= one * (2 * exact + d),
            one * (d * (2 * gap)) >= one * (-2 * exact - d),
            one > 0,
    ;
}

/// A level is brought between 0.0 and 1.0 and otherwise left alone: a negative one
/// becomes 0.0, one above 1.0 becomes 1.0, and what is no number stays.
pub proof fn levels_are_clamped(level: u32)
    ensures
        level <= 0x3f80_0000 ==> clamped_level(level) == level,
        0x3f80_0000 < level <= 0x7f80_0000 ==> clamped_level(level) == 0x3f80_0000,
        0x8000_0000 < level <= 0xff80_0000 ==> clamped_level(level) == 0,
        0x7f80_0000 < level <= 0x8000_0000 || level > 0xff80_0000 ==> clamped_level(level) == level,
        clamped_level(clamped_level(level)) == clamped_level(level),
{
}

} // verus!
