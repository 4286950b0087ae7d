//! Binary floating-point arithmetic, carried out on integers.
//!
//! A value is a count of units of some power of two. An operation of IEEE 754
//! gives the exact result kept to the significant digits of the format, 24 for
//! single precision and 53 for double precision, and of two neighbours that are
//! equally near the one whose last digit is even. The exponents that occur in
//! this program stay far inside the range of the formats.

use vstd::arithmetic::div_mod::*;
use vstd::arithmetic::power2::*;
use vstd::prelude::*;

verus! {

/// The number of binary digits of `n`; none for 0.
pub open spec fn bit_length(n: nat) -> nat
    decreases n,
{
    if n == 0 {
        0
    } else {
        1 + bit_length(n / 2)
    }
}

/// The integer nearest to `n / d`, the even one of two that are equally near.
pub open spec fn nearest(n: nat, d: nat) -> nat {
    let below = n / d;
    if 2 * (n % d) > d || (2 * (n % d) == d && below % 2 == 1) {
        below + 1
    } else {
        below
    }
}

/// How many binary digits of `whole` lie beyond the first `precision` ones.
pub open spec fn excess(whole: nat, precision: nat) -> nat {
    if bit_length(whole) > precision {
        (bit_length(whole) - precision) as nat
    } else {
        0
    }
}

/// `n / d` in units, kept to `precision` significant binary digits. Units that
/// are not fine enough for that many digits round to whole units.
pub open spec fn rounded(n: nat, d: nat, precision: nat) -> nat {
    let unit = pow2(excess(n / d, precision));
    nearest(n, d * unit) * unit
}

/// The square of a number.
pub open spec fn square(n: nat) -> nat {
    n * n
}

/// How many whole units the square root of `x` holds.
pub open spec fn root_below(x: nat, unit: nat) -> nat {
    choose|m: nat| square(m * unit) <= x < #[trigger] square((m + 1) * unit)
}

/// The square root of `x`, kept to `precision` significant binary digits.
pub open spec fn rounded_root(x: nat, precision: nat) -> nat {
    let unit = pow2(excess(root_below(x, 1), precision));
    let below = root_below(x, unit);
    let twice_middle = (2 * below + 1) * unit;
    if 4 * x > square(twice_middle) || (4 * x == square(twice_middle) && below % 2 == 1) {
        (below + 1) * unit
    } else {
        below * unit
    }
}

/// The bit pattern of the floating-point number `units / 2^scale`, in a format
/// of `precision` significant digits whose exponent is stored with `bias` added.
pub open spec fn bit_pattern(units: nat, scale: int, precision: nat, bias: int) -> int {
    if units == 0 {
        0
    } else {
        let digits = bit_length(units);
        let significand = units * pow2(precision) / pow2(digits);
        (digits - 1 - scale + bias) * pow2((precision - 1) as nat) + significand - pow2(
            (precision - 1) as nat,
        )
    }
}

/// The bit pattern of a single-precision number.
pub open spec fn single_pattern(units: nat, scale: int) -> int {
    bit_pattern(units, scale, 24, 127)
}

/// A number lies between two powers of two that its digits give.
pub proof fn bit_length_bounds(n: nat)
    requires
        n > 0,
    ensures
        bit_length(n) > 0,
        pow2((bit_length(n) - 1) as nat) <= n < pow2(bit_length(n)),
    decreases n,
{
    if n == 1 {
        assert(bit_length(1) == 1 + bit_length(0));
        lemma2_to64();
    } else {
        bit_length_bounds(n / 2);
        lemma_pow2_unfold(bit_length(n));
        lemma_pow2_unfold((bit_length(n) - 1) as nat);
    }
}

/// The powers of two around a number give its digits.
pub proof fn bit_length_from_bounds(n: nat, below: nat)
    requires
        pow2(below) <= n < pow2(below + 1),
    ensures
        bit_length(n) == below + 1,
{
    lemma_pow2_pos(below);
    bit_length_bounds(n);
    let b = bit_length(n);
    if b > below + 1 {
        if b - 1 > below + 1 {
            lemma_pow2_strictly_increases(below + 1, (b - 1) as nat);
        }
    } else if b < below + 1 {
        if b < below {
            lemma_pow2_strictly_increases(b, below);
        }
    }
}

/// Two to some power.
pub fn power_of_two(exponent: u32) -> (power: u128)
    requires
        exponent < 128,
    ensures
        power == pow2(exponent as nat),
{
    let mut power: u128 = 1;
    proof {
        lemma2_to64();
    }
    for i in 0..exponent
        invariant
            exponent < 128,
            power == pow2(i as nat),
    {
        proof {
            lemma_pow2_unfold((i + 1) as nat);
            if i < 127 {
                lemma_pow2_strictly_increases(i as nat, 127);
            }
            pow2_limit();
        }
        power = power * 2;
    }
    power
}

pub proof fn pow2_limit()
    ensures
        pow2(127) == 0x8000_0000_0000_0000_0000_0000_0000_0000,
{
    lemma2_to64();
    lemma_pow2_adds(64, 63);
    lemma2_to64_rest();
}

/// The multiple of `unit` nearest to `n / d`, an even multiple of two that are
/// equally near.
fn nearest_multiple(n: u128, d: u64, unit: u128) -> (units: u128)
    requires
        0 < d,
        0 < unit,
        n < 0x8000_0000_0000_0000_0000_0000_0000_0000,
        unit == 1 || unit <= n as nat / d as nat,
    ensures
        units == nearest(n as nat, (d * unit) as nat) * unit,
{
    proof {
        lemma_fundamental_div_mod(n as int, d as int);
        assert(d * unit <= n || (unit == 1 && d * unit == d)) by (nonlinear_arith)
            requires
                unit == 1 || unit <= n as int / d as int,
                n as int == d * (n as int / d as int) + n as int % d as int,
                0 <= n as int % d as int,
                0 < d,
        ;
    }
    let grid: u128 = d as u128 * unit;
    assert(grid > 0) by (nonlinear_arith)
        requires
            grid == d * unit,
            0 < d,
            0 < unit,
    ;
    let below: u128 = n / grid;
    let rest: u128 = n % grid;
    proof {
        lemma_fundamental_div_mod(n as int, grid as int);
        assert(grid >= unit) by (nonlinear_arith)
            requires
                grid == d * unit,
                0 < d,
                0 < unit,
        ;
        assert(below * unit <= n) by (nonlinear_arith)
            requires
                n == grid * below + rest,
                grid >= unit,
        ;
        assert((below + 1) * unit == below * unit + unit) by (nonlinear_arith);
    }
    let up: bool = rest > grid - rest || (rest == grid - rest && below % 2 == 1);
    if up {
        (below + 1) * unit
    } else {
        below * unit
    }
}

proof fn doubled_unit_fits(unit: int, head: int, whole: int)
    requires
        0 < unit,
        2 <= head,
        unit * head <= whole,
    ensures
        unit * 2 <= whole,
        (unit * 2) * (head / 2) <= whole,
{
    let half = head / 2;
    assert(unit * 2 <= unit * head) by (nonlinear_arith)
        requires
            0 < unit,
            2 <= head,
    ;
    assert((unit * 2) * half <= unit * head) by (nonlinear_arith)
        requires
            0 < unit,
            2 * half <= head,
    ;
}

/// Divides and keeps `precision` significant binary digits.
pub fn round_ratio(n: u128, d: u64, precision: u32) -> (units: u128)
    requires
        0 < d,
        0 < precision < 64,
        n < 0x8000_0000_0000_0000_0000_0000_0000_0000,
    ensures
        units == rounded(n as nat, d as nat, precision as nat),
{
    let whole: u128 = n / d as u128;
    let limit: u128 = power_of_two(precision);
    let mut head: u128 = whole;
    let mut unit: u128 = 1;
    let ghost mut k: nat = 0;
    proof {
        lemma2_to64();
    }
    while head >= limit
        invariant
            0 < precision < 64,
            limit == pow2(precision as nat),
            unit == pow2(k),
            head == whole as nat / pow2(k),
            whole < 0x8000_0000_0000_0000_0000_0000_0000_0000,
            bit_length(whole as nat) == bit_length(head as nat) + k,
            unit * head <= whole,
            unit == 1 || unit <= whole,
            k > 0 ==> bit_length(head as nat) >= precision,
        decreases head,
    {
        proof {
            lemma_pow2_unfold(k + 1);
            lemma_pow2_pos(k);
            lemma_pow2_pos(precision as nat);
            lemma_div_denominator(whole as int, pow2(k) as int, 2);
            assert(bit_length(head as nat) == 1 + bit_length(head as nat / 2));
            enough_digits(head as nat, (precision + 1) as nat);
            lemma_pow2_unfold(precision as nat);
            lemma_pow2_pos((precision - 1) as nat);
            doubled_unit_fits(unit as int, head as int, whole as int);
            k = k + 1;
        }
        unit = unit * 2;
        head = head / 2;
    }
    proof {
        lemma_pow2_pos(k);
        if head > 0 {
            few_digits(head as nat, precision as nat);
        }
        assert(k == excess(whole as nat, precision as nat));
    }
    nearest_multiple(n, d, unit)
}

pub proof fn quotient_scales(n: nat, d: nat, factor: nat)
    requires
        0 < d,
        0 < factor,
    ensures
        (n * factor) / (d * factor) == n / d,
        (n * factor) % (d * factor) == (n % d) * factor,
        d * factor > 0,
{
    let q = n as int / d as int;
    let r = n as int % d as int;
    lemma_fundamental_div_mod(n as int, d as int);
    assert(d * factor > 0) by (nonlinear_arith)
        requires
            0 < d,
            0 < factor,
    ;
    assert(n * factor == q * (d * factor) + r * factor) by (nonlinear_arith)
        requires
            n == d * q + r,
    ;
    assert(0 <= r * factor < d * factor) by (nonlinear_arith)
        requires
            0 <= r < d,
            0 < factor,
    ;
    lemma_fundamental_div_mod_converse(
        (n * factor) as int,
        (d * factor) as int,
        q,
        r * factor,
    );
}

/// The nearest integer to a quotient does not depend on the units.
pub proof fn nearest_scales(n: nat, d: nat, factor: nat)
    requires
        0 < d,
        0 < factor,
    ensures
        nearest(n * factor, d * factor) == nearest(n, d),
{
    quotient_scales(n, d, factor);
    let r = n % d;
    assert((2 * (r * factor) > d * factor) == (2 * r > d)) by (nonlinear_arith)
        requires
            0 < factor,
    ;
    assert((2 * (r * factor) == d * factor) == (2 * r == d)) by (nonlinear_arith)
        requires
            0 < factor,
    ;
}

proof fn scaled_bit_length(whole: nat, n: nat, d: nat, t: nat)
    requires
        0 < d,
        whole == n / d,
        whole > 0,
    ensures
        bit_length((n * pow2(t)) / d) == bit_length(whole) + t,
{
    bit_length_bounds(whole);
    let below = (bit_length(whole) - 1) as nat;
    let scaled = n * pow2(t);
    lemma_pow2_adds(below, t);
    lemma_pow2_adds(below + 1, t);
    lemma_pow2_pos(t);
    lemma_fundamental_div_mod(n as int, d as int);
    lemma_fundamental_div_mod(scaled as int, d as int);
    let q = scaled / d;
    assert(pow2(below + t) <= q < pow2(below + t + 1)) by (nonlinear_arith)
        requires
            0 < d,
            pow2(below) <= whole < pow2(below + 1),
            n == d * whole + n % d,
            0 <= n % d < d,
            scaled == n * pow2(t),
            scaled == d * q + scaled % d,
            0 <= scaled % d < d,
            pow2(t) > 0,
            pow2(below + t) == pow2(below) * pow2(t),
            pow2(below + t + 1) == pow2(below + 1) * pow2(t),
    {
        assert(d * pow2(below) <= n);
        assert(n < d * pow2(below + 1));
        assert((d * pow2(below)) * pow2(t) <= scaled);
        assert(scaled < (d * pow2(below + 1)) * pow2(t));
        assert((d * pow2(below)) * pow2(t) == d * pow2(below + t));
        assert((d * pow2(below + 1)) * pow2(t) == d * pow2(below + t + 1));
    }
    bit_length_from_bounds(q, below + t);
}

/// Rounding does not depend on the units, as long as they are fine enough for
/// all the significant digits.
pub proof fn rounding_scales(n: nat, d: nat, precision: nat, t: nat)
    requires
        0 < d,
        0 < precision,
        pow2((precision - 1) as nat) <= n / d,
    ensures
        rounded(n * pow2(t), d, precision) == rounded(n, d, precision) * pow2(t),
{
    let whole = n / d;
    lemma_pow2_pos((precision - 1) as nat);
    scaled_bit_length(whole, n, d, t);
    enough_digits(whole, precision);
    let e = excess(whole, precision);
    lemma_pow2_adds(e, t);
    lemma_pow2_pos(e);
    lemma_pow2_pos(t);
    assert(d * pow2(e) > 0) by (nonlinear_arith)
        requires
            0 < d,
            0 < pow2(e),
    ;
    nearest_scales(n, d * pow2(e), pow2(t));
    assert(d * (pow2(e) * pow2(t)) == (d * pow2(e)) * pow2(t)) by (nonlinear_arith);
    let m = nearest(n, d * pow2(e));
    assert(m * (pow2(e) * pow2(t)) == (m * pow2(e)) * pow2(t)) by (nonlinear_arith);
}

pub proof fn enough_digits(whole: nat, precision: nat)
    requires
        0 < precision,
        pow2((precision - 1) as nat) <= whole,
    ensures
        bit_length(whole) >= precision,
{
    lemma_pow2_pos((precision - 1) as nat);
    bit_length_bounds(whole);
    if bit_length(whole) < precision {
        if bit_length(whole) < precision - 1 {
            lemma_pow2_strictly_increases(bit_length(whole), (precision - 1) as nat);
        }
    }
}

proof fn square_is_ordered(a: nat, b: nat)
    ensures
        a <= b <==> square(a) <= square(b),
        a < b <==> square(a) < square(b),
{
    assert(a <= b ==> a * a <= b * b) by (nonlinear_arith);
    assert(a < b ==> a * a < b * b) by (nonlinear_arith);
    assert(b <= a ==> b * b <= a * a) by (nonlinear_arith);
    assert(b < a ==> b * b < a * a) by (nonlinear_arith);
}

/// The whole units of a square root are the ones whose square is not too large
/// while that of one more is.
pub proof fn root_below_is(x: nat, unit: nat, m: nat)
    requires
        0 < unit,
        square(m * unit) <= x < square((m + 1) * unit),
    ensures
        root_below(x, unit) == m,
{
    let other = root_below(x, unit);
    assert(square(other * unit) <= x < square((other + 1) * unit));
    square_is_ordered(other * unit, (m + 1) * unit);
    square_is_ordered(m * unit, (other + 1) * unit);
    assert(other < m + 1) by (nonlinear_arith)
        requires
            other * unit < (m + 1) * unit,
            0 < unit,
    ;
    assert(m < other + 1) by (nonlinear_arith)
        requires
            m * unit < (other + 1) * unit,
            0 < unit,
    ;
}

proof fn coarser_root(x: nat, unit: nat, root: nat)
    requires
        0 < unit,
        square(root) <= x < square(root + 1),
    ensures
        square((root / unit) * unit) <= x < square((root / unit + 1) * unit),
        root_below(x, unit) == root / unit,
{
    let m = root / unit;
    lemma_fundamental_div_mod(root as int, unit as int);
    assert(m * unit <= root && root + 1 <= (m + 1) * unit) by (nonlinear_arith)
        requires
            root == unit * m + root % unit,
            0 <= root % unit < unit,
    ;
    square_is_ordered(m * unit, root);
    square_is_ordered(root + 1, (m + 1) * unit);
    root_below_is(x, unit, m);
}

/// The whole part of the square root.
fn whole_root(x: u128) -> (root: u64)
    requires
        x < 0x8000_0000_0000_0000_0000_0000_0000_0000,
    ensures
        square(root as nat) <= x < square((root + 1) as nat),
        root_below(x as nat, 1) == root,
{
    let mut root: u128 = 0;
    let mut step: u128 = 0x8000_0000_0000_0000;
    let ghost mut k: nat = 63;
    proof {
        lemma2_to64();
        lemma2_to64_rest();
        assert(0x1_0000_0000_0000_0000 * 0x1_0000_0000_0000_0000
            == 0x1_0000_0000_0000_0000_0000_0000_0000_0000) by (nonlinear_arith);
    }
    while step > 0
        invariant
            x < 0x8000_0000_0000_0000_0000_0000_0000_0000,
            step > 0 ==> step == pow2(k),
            step <= 0x8000_0000_0000_0000,
            square(root as nat) <= x,
            step > 0 ==> x < square((root + 2 * step) as nat),
            step == 0 ==> x < square((root + 1) as nat),
            root + 2 * step <= 0x1_0000_0000_0000_0000,
            step == 0 ==> root < 0x1_0000_0000_0000_0000,
        decreases step,
    {
        let candidate: u128 = root + step;
        proof {
            assert(candidate * candidate <= 0xffff_ffff_ffff_ffff * 0xffff_ffff_ffff_ffff)
                by (nonlinear_arith)
                requires
                    0 <= candidate <= 0xffff_ffff_ffff_ffff,
            ;
            if k > 0 {
                lemma_pow2_unfold(k);
                lemma_pow2_pos((k - 1) as nat);
                k = (k - 1) as nat;
            } else {
                lemma2_to64();
            }
        }
        if candidate * candidate <= x {
            root = candidate;
        }
        step = step / 2;
    }
    proof {
        root_below_is(x as nat, 1, root as nat);
    }
    root as u64
}

/// Takes the square root and keeps `precision` significant binary digits.
pub fn round_root(x: u128, precision: u32) -> (units: u128)
    requires
        32 <= precision < 64,
        x < 0x8000_0000_0000_0000_0000_0000_0000_0000,
    ensures
        units == rounded_root(x as nat, precision as nat),
{
    let root: u64 = whole_root(x);
    let limit: u128 = power_of_two(precision);
    let mut head: u128 = root as u128;
    let mut unit: u128 = 1;
    let ghost mut k: nat = 0;
    proof {
        lemma2_to64();
    }
    while head >= limit
        invariant
            32 <= precision < 64,
            limit == pow2(precision as nat),
            unit == pow2(k),
            head == root as nat / pow2(k),
            bit_length(root as nat) == bit_length(head as nat) + k,
            unit * head <= root,
            unit == 1 || unit <= root,
            k > 0 ==> bit_length(head as nat) >= precision,
        decreases head,
    {
        proof {
            lemma_pow2_unfold(k + 1);
            lemma_pow2_pos(k);
            lemma_pow2_pos(precision as nat);
            lemma_div_denominator(root as int, pow2(k) as int, 2);
            assert(bit_length(head as nat) == 1 + bit_length(head as nat / 2));
            enough_digits(head as nat, (precision + 1) as nat);
            lemma_pow2_unfold(precision as nat);
            lemma_pow2_pos((precision - 1) as nat);
            doubled_unit_fits(unit as int, head as int, root as int);
            k = k + 1;
        }
        unit = unit * 2;
        head = head / 2;
    }
    proof {
        lemma_pow2_pos(k);
        if head > 0 {
            few_digits(head as nat, precision as nat);
        }
        coarser_root(x as nat, unit as nat, root as nat);
        assert(unit == pow2(excess(root_below(x as nat, 1), precision as nat)));
        bit_length_of_u64(root);
        if k < 32 {
            lemma_pow2_strictly_increases(k, 32);
        }
        lemma2_to64();
        lemma2_to64_rest();
        assert(head * unit == unit * head) by (nonlinear_arith);
    }
    let low: u128 = head * unit;
    proof {
        assert(low == unit * head) by (nonlinear_arith)
            requires
                low == head * unit,
        ;
        assert(low * low <= x);
        assert(low * unit <= 0xffff_ffff_ffff_ffff * 0x1_0000_0000) by (nonlinear_arith)
            requires
                0 <= low <= 0xffff_ffff_ffff_ffff,
                0 <= unit <= 0x1_0000_0000,
        ;
        assert(unit * unit <= 0x1_0000_0000 * 0x1_0000_0000) by (nonlinear_arith)
            requires
                0 <= unit <= 0x1_0000_0000,
        ;
        middle_squared(x as int, low as int, unit as int);
        assert((head + 1) * unit == low + unit) by (nonlinear_arith)
            requires
                low == head * unit,
        ;
        assert((2 * head + 1) * unit == 2 * low + unit) by (nonlinear_arith)
            requires
                low == head * unit,
        ;
    }
    // How far the argument lies above the square of the lower candidate, and how
    // far the square of the middle does, both four times.
    let over: u128 = 4 * (x - low * low);
    let middle: u128 = 4 * (low * unit) + unit * unit;
    if over > middle || (over == middle && head % 2 == 1) {
        low + unit
    } else {
        low
    }
}

proof fn middle_squared(x: int, low: int, unit: int)
    ensures
        4 * x - (2 * low + unit) * (2 * low + unit) == 4 * (x - low * low) - (4 * (low * unit)
            + unit * unit),
        (low + unit) * (low + unit) == low * low + 2 * (low * unit) + unit * unit,
{
    assert((2 * low + unit) * (2 * low + unit) == 4 * (low * low) + 4 * (low * unit) + unit * unit)
        by (nonlinear_arith);
    assert((low + unit) * (low + unit) == low * low + 2 * (low * unit) + unit * unit)
        by (nonlinear_arith);
}

proof fn bit_length_of_u64(n: u64)
    ensures
        bit_length(n as nat) <= 64,
{
    if n > 0 {
        bit_length_bounds(n as nat);
        lemma2_to64();
        lemma2_to64_rest();
        if bit_length(n as nat) > 65 {
            lemma_pow2_strictly_increases(64, (bit_length(n as nat) - 1) as nat);
        }
    }
}

pub proof fn few_digits(whole: nat, precision: nat)
    requires
        0 < whole < pow2(precision),
    ensures
        bit_length(whole) <= precision,
{
    bit_length_bounds(whole);
    if bit_length(whole) > precision {
        if bit_length(whole) - 1 > precision {
            lemma_pow2_strictly_increases(precision, (bit_length(whole) - 1) as nat);
        }
    }
}

proof fn square_scales(n: nat, factor: nat)
    ensures
        square(n * factor) == square(n) * square(factor),
{
    assert((n * factor) * (n * factor) == (n * n) * (factor * factor)) by (nonlinear_arith);
}

proof fn scaled_root(x: nat, unit: nat, m: nat, factor: nat)
    requires
        0 < unit,
        0 < factor,
        square(m * unit) <= x < square((m + 1) * unit),
    ensures
        root_below(x * square(factor), unit * factor) == m,
        unit * factor > 0,
{
    square_scales(m * unit, factor);
    square_scales((m + 1) * unit, factor);
    assert(square(factor) > 0) by (nonlinear_arith)
        requires
            0 < factor,
            square(factor) == factor * factor,
    ;
    assert(unit * factor > 0) by (nonlinear_arith)
        requires
            0 < unit,
            0 < factor,
    ;
    assert((m * unit) * factor == m * (unit * factor)) by (nonlinear_arith);
    assert(((m + 1) * unit) * factor == (m + 1) * (unit * factor)) by (nonlinear_arith);
    let low = square(m * unit);
    let high = square((m + 1) * unit);
    assert(low * square(factor) <= x * square(factor) < high * square(factor)) by (nonlinear_arith)
        requires
            low <= x < high,
            0 < square(factor),
    ;
    root_below_is(x * square(factor), unit * factor, m);
}

/// Every number has a whole root.
pub proof fn root_exists(x: nat) -> (root: nat)
    ensures
        square(root) <= x < square(root + 1),
        root_below(x, 1) == root,
    decreases x,
{
    let root = if x == 0 {
        0
    } else {
        let below = root_exists((x - 1) as nat);
        if square(below + 1) <= x {
            square_is_ordered(below + 1, below + 2);
            below + 1
        } else {
            below
        }
    };
    assert(square(0) == 0 && square(1) == 1);
    assert(square(root) <= x < square(root + 1));
    assert(root * 1 == root && (root + 1) * 1 == root + 1);
    root_below_is(x, 1, root);
    root
}

/// Rounding a square root does not depend on the units, as long as they are fine
/// enough for all the significant digits.
pub proof fn root_rounding_scales(x: nat, precision: nat, t: nat)
    requires
        0 < precision,
        pow2((precision - 1) as nat) <= root_below(x, 1),
    ensures
        rounded_root(x * square(pow2(t)), precision) == rounded_root(x, precision) * pow2(t),
{
    let root = root_exists(x);
    let factor = pow2(t);
    lemma_pow2_pos(t);
    enough_digits(root, precision);
    let e = excess(root, precision);
    let unit = pow2(e);
    lemma_pow2_pos(e);
    lemma_pow2_adds(e, t);
    coarser_root(x, unit, root);
    let m = root / unit;
    scaled_root(x, unit, m, factor);
    // The root of the scaled argument has `t` more digits.
    let scaled = x * square(factor);
    let wide = root_exists(scaled);
    lemma_pow2_pos((precision - 1) as nat);
    bit_length_bounds(root);
    let below = (bit_length(root) - 1) as nat;
    lemma_pow2_adds(below, t);
    lemma_pow2_adds(below + 1, t);
    square_is_ordered(pow2(below), root);
    square_is_ordered(root + 1, pow2(below + 1));
    square_scales(pow2(below), factor);
    square_scales(pow2(below + 1), factor);
    let low = square(pow2(below));
    let high = square(pow2(below + 1));
    assert(square(factor) > 0) by (nonlinear_arith)
        requires
            0 < factor,
            square(factor) == factor * factor,
    ;
    assert(low * square(factor) <= scaled < high * square(factor)) by (nonlinear_arith)
        requires
            low <= x < high,
            0 < square(factor),
            scaled == x * square(factor),
    ;
    square_is_ordered(wide, pow2(below + 1 + t));
    square_is_ordered(pow2(below + t), wide + 1);
    bit_length_from_bounds(wide, below + t);
    assert(excess(wide, precision) == e + t);
    // The comparison with the middle is the same.
    let middle = (2 * m + 1) * unit;
    square_scales(middle, factor);
    assert((2 * m + 1) * (unit * factor) == middle * factor) by (nonlinear_arith)
        requires
            middle == (2 * m + 1) * unit,
    ;
    assert((4 * scaled > square(middle) * square(factor)) == (4 * x > square(middle)))
        by (nonlinear_arith)
        requires
            0 < square(factor),
            scaled == x * square(factor),
    ;
    assert((4 * scaled == square(middle) * square(factor)) == (4 * x == square(middle)))
        by (nonlinear_arith)
        requires
            0 < square(factor),
            scaled == x * square(factor),
    ;
    assert((m + 1) * (unit * factor) == ((m + 1) * unit) * factor) by (nonlinear_arith);
    assert(m * (unit * factor) == (m * unit) * factor) by (nonlinear_arith);
}

/// A bit pattern does not depend on the units that the value is counted in.
pub proof fn bit_pattern_scales(units: nat, scale: int, precision: nat, bias: int, t: nat)
    ensures
        bit_pattern(units * pow2(t), scale + t, precision, bias) == bit_pattern(
            units,
            scale,
            precision,
            bias,
        ),
{
    lemma_pow2_pos(t);
    if units > 0 {
        scaled_bit_length(units, units, 1, t);
        let digits = bit_length(units);
        lemma_pow2_adds(digits, t);
        lemma_pow2_pos(digits);
        let p = pow2(precision);
        assert((units * pow2(t)) * p == (units * p) * pow2(t)) by (nonlinear_arith);
        quotient_scales(units * p, pow2(digits), pow2(t));
        assert(units * pow2(t) > 0) by (nonlinear_arith)
            requires
                units > 0,
                pow2(t) > 0,
        ;
    }
}

/// The bit pattern of the floating-point number `units / 2^scale`.
pub fn encode(units: u128, scale: u32, precision: u32, bias: u32) -> (pattern: u64)
    requires
        units < 0x8000_0000_0000_0000_0000_0000_0000_0000,
        2 <= precision <= 53,
        bias <= 1023,
        scale < bias,
    ensures
        pattern == bit_pattern(units as nat, scale as int, precision as nat, bias as int),
{
    if units == 0 {
        return 0;
    }
    let limit: u128 = power_of_two(precision);
    let half: u128 = power_of_two(precision - 1);
    let mut head: u128 = units;
    let mut digits: u32 = precision;
    let ghost mut up: nat = 0;
    proof {
        lemma2_to64();
        lemma_pow2_unfold(precision as nat);
        lemma_pow2_pos((precision - 1) as nat);
        bit_length_bounds(units as nat);
        pow2_limit();
        few_digits(units as nat, 127);
    }
    while head >= limit
        invariant
            2 <= precision <= 53,
            0 < units,
            bit_length(units as nat) <= 127,
            limit == pow2(precision as nat),
            head > 0,
            head == units as nat / pow2(up),
            digits == precision + up,
            bit_length(units as nat) == bit_length(head as nat) + up,
            up > 0 ==> bit_length(head as nat) >= precision,
        decreases head,
    {
        proof {
            lemma_pow2_unfold(up + 1);
            lemma_pow2_pos(up);
            lemma_div_denominator(units as int, pow2(up) as int, 2);
            assert(bit_length(head as nat) == 1 + bit_length(head as nat / 2));
            enough_digits(head as nat, (precision + 1) as nat);
            assert(head >= 2) by {
                lemma_pow2_unfold(precision as nat);
                lemma_pow2_pos((precision - 1) as nat);
            }
            up = up + 1;
        }
        head = head / 2;
        digits = digits + 1;
    }
    let ghost middle = head;
    let ghost mut down: nat = 0;
    proof {
        few_digits(head as nat, precision as nat);
        lemma2_to64_rest();
        if precision < 53 {
            lemma_pow2_strictly_increases((precision - 1) as nat, 52);
        }
    }
    while head < half
        invariant
            2 <= precision <= 53,
            half == pow2((precision - 1) as nat),
            limit == pow2(precision as nat),
            limit == 2 * half,
            0 < head < limit,
            0 < units,
            head == middle * pow2(down),
            digits == precision + up - down,
            bit_length(head as nat) == bit_length(middle as nat) + down,
            bit_length(middle as nat) >= 1,
            bit_length(head as nat) <= precision,
            bit_length(units as nat) == bit_length(middle as nat) + up,
            up > 0 ==> bit_length(middle as nat) == precision,
            half <= 0x10_0000_0000_0000,
        decreases limit - head,
    {
        proof {
            few_digits(head as nat, (precision - 1) as nat);
            lemma_pow2_unfold(down + 1);
            let before = head;
            assert(middle * (2 * pow2(down)) == 2 * (middle * pow2(down))) by (nonlinear_arith);
            assert(bit_length((2 * head) as nat) == 1 + bit_length(head as nat));
            down = down + 1;
        }
        head = head * 2;
        digits = digits - 1;
    }
    proof {
        enough_digits(head as nat, precision as nat);
        lemma_pow2_pos(digits as nat);
        lemma_pow2_pos(precision as nat);
        let p = pow2(precision as nat);
        let n = units as nat;
        if up > 0 {
            lemma2_to64();
            assert(down == 0);
            lemma_pow2_adds(up, precision as nat);
            lemma_pow2_pos(up);
            quotient_scales(n, pow2(up), p);
            assert(n / pow2(up) == head);
        } else {
            assert(n / 1 == n);
            lemma2_to64();
            lemma_pow2_adds(digits as nat, down);
            assert(head == n * pow2(down));
            assert(n * p == head * pow2(digits as nat)) by (nonlinear_arith)
                requires
                    p == pow2(digits as nat) * pow2(down),
                    head == n * pow2(down),
            ;
            lemma_div_multiples_vanish(head as int, pow2(digits as nat) as int);
            assert(pow2(digits as nat) * head == head * pow2(digits as nat)) by (nonlinear_arith);
        }
        assert(head == n * p / pow2(digits as nat));
        assert(digits == bit_length(n));
        let exponent = digits - 1 - scale + bias;
        assert(0 <= exponent * half <= 1200 * 0x10_0000_0000_0000) by (nonlinear_arith)
            requires
                0 <= exponent <= 1200,
                0 <= half <= 0x10_0000_0000_0000,
        ;
    }
    let exponent: u64 = (digits - 1 + (bias - scale)) as u64;
    exponent * half as u64 + (head as u64 - half as u64)
}

/// The bit pattern of the single-precision number `units / 2^scale`.
pub fn encode_single(units: u128, scale: u32) -> (pattern: u32)
    requires
        units < 0x8000_0000_0000_0000_0000_0000_0000_0000,
        scale < 127,
    ensures
        pattern == single_pattern(units as nat, scale as int),
        pattern < 0x8000_0000,
{
    let pattern: u64 = encode(units, scale, 24, 127);
    proof {
        if units > 0 {
            let digits = bit_length(units as nat);
            pow2_limit();
            few_digits(units as nat, 127);
            lemma2_to64();
            lemma_pow2_pos(digits);
            bit_length_bounds(units as nat);
            let significand = units as nat * pow2(24) / pow2(digits);
            assert(significand < 0x100_0000) by {
                lemma_fundamental_div_mod((units as nat * pow2(24)) as int, pow2(digits) as int);
                let n = (units as nat * pow2(24)) as int;
                let d = pow2(digits) as int;
                assert(significand < 0x100_0000) by (nonlinear_arith)
                    requires
                        n == units * 0x100_0000,
                        units < d,
                        n == d * significand + n % d,
                        0 <= n % d < d,
                        0 < d,
                ;
            }
            let exponent = digits - 1 - scale + 127;
            assert(pow2(23) == 0x80_0000);
            assert(pattern == exponent * pow2(23) + significand - pow2(23));
            assert(exponent * pow2(23) <= 253 * 0x80_0000) by (nonlinear_arith)
                requires
                    exponent <= 253,
                    pow2(23) == 0x80_0000,
            ;
        }
    }
    pattern as u32
}

/// The nearest integer is at most half a step away.
pub proof fn nearest_error(n: nat, d: nat)
    requires
        0 < d,
    ensures
        -(d as int) <= 2 * (nearest(n, d) * d) - 2 * n <= d,
{
    lemma_fundamental_div_mod(n as int, d as int);
    let below = n / d;
    assert((below + 1) * d == below * d + d) by (nonlinear_arith);
    assert(below * d == d * below) by (nonlinear_arith);
}

/// A multiple that lies within half a step is the nearest one.
pub proof fn nearest_is(n: nat, d: nat, m: nat)
    requires
        0 < d,
        -(d as int) < 2 * (m * d) - 2 * n < d,
    ensures
        nearest(n, d) == m,
{
    nearest_error(n, d);
    let other = nearest(n, d);
    assert(other < m + 1) by (nonlinear_arith)
        requires
            2 * (other * d) - 2 * (m * d) < 2 * d,
            0 < d,
    ;
    assert(m < other + 1) by (nonlinear_arith)
        requires
            2 * (m * d) - 2 * (other * d) < 2 * d,
            0 < d,
    ;
}

/// A multiple is its own nearest one.
pub proof fn nearest_of_multiple(m: nat, d: nat)
    requires
        0 < d,
    ensures
        nearest(m * d, d) == m,
{
    nearest_is(m * d, d, m);
}

/// Rounding keeps below a power of two that bounds the value.
pub proof fn rounded_bound(n: nat, d: nat, precision: nat, b: nat)
    requires
        0 < d,
        0 < precision <= b,
        n / d < pow2(b),
    ensures
        rounded(n, d, precision) <= pow2(b),
{
    let whole = n / d;
    let e = excess(whole, precision);
    let unit = pow2(e);
    lemma_pow2_pos(e);
    let top = pow2(precision);
    lemma_fundamental_div_mod(n as int, d as int);
    lemma_pow2_adds(precision, e);
    if whole == 0 {
        lemma_pow2_pos(precision);
    } else {
        bit_length_bounds(whole);
        few_digits(whole, b);
        if bit_length(whole) < precision {
            lemma_pow2_strictly_increases(bit_length(whole), precision);
        }
    }
    assert(whole < top * unit);
    assert(n < d * (top * unit)) by (nonlinear_arith)
        requires
            n == d * whole + n % d,
            0 <= n % d < d,
            whole + 1 <= top * unit,
            0 < d,
    ;
    assert(d * unit > 0) by (nonlinear_arith)
        requires
            0 < d,
            0 < unit,
    ;
    nearest_error(n, d * unit);
    let m = nearest(n, d * unit);
    assert(d * (top * unit) == top * (d * unit)) by (nonlinear_arith);
    assert(m <= top) by (nonlinear_arith)
        requires
            2 * (m * (d * unit)) - 2 * n <= d * unit,
            n < top * (d * unit),
            0 < d * unit,
    ;
    assert(m * unit <= top * unit) by (nonlinear_arith)
        requires
            m <= top,
            0 < unit,
    ;
    if precision + e < b {
        lemma_pow2_strictly_increases(precision + e, b);
    }
}

/// A whole number rounds the same way in finer units, however few digits it has.
pub proof fn whole_rounding_scales(x: nat, precision: nat, t: nat)
    requires
        0 < precision,
    ensures
        rounded(x * pow2(t), 1, precision) == rounded(x, 1, precision) * pow2(t),
{
    assert(x / 1 == x);
    lemma_pow2_pos(t);
    if pow2((precision - 1) as nat) <= x {
        rounding_scales(x, 1, precision, t);
    } else {
        lemma2_to64();
        let y = x * pow2(t);
        assert(y / 1 == y);
        if x > 0 {
            few_digits(x, (precision - 1) as nat);
            scaled_bit_length(x, x, 1, t);
        } else {
            assert(0 * pow2(t) == 0) by (nonlinear_arith);
        }
        let e = excess(y, precision);
        assert(e <= t);
        lemma_pow2_adds(e, (t - e) as nat);
        lemma_pow2_pos(e);
        let m = x * pow2((t - e) as nat);
        assert(y == m * pow2(e)) by (nonlinear_arith)
            requires
                y == x * pow2(t),
                pow2(t) == pow2(e) * pow2((t - e) as nat),
                m == x * pow2((t - e) as nat),
        ;
        nearest_of_multiple(m, pow2(e));
        assert(1 * pow2(e) == pow2(e));
        nearest_of_multiple(x, 1);
        assert(x * 1 == x);
    }
}

/// The integer nearest to a quotient.
pub fn nearest_quotient(n: u128, d: u128) -> (m: u128)
    requires
        0 < d,
        n < 0x8000_0000_0000_0000_0000_0000_0000_0000,
    ensures
        m == nearest(n as nat, d as nat),
{
    let below: u128 = n / d;
    let rest: u128 = n % d;
    if rest > d - rest || (rest == d - rest && below % 2 == 1) {
        below + 1
    } else {
        below
    }
}

/// Counts a number in finer units, by a shift of an even number of binary digits
/// that makes it long.
pub fn lift(n: u128) -> (lifted: (u128, u32))
    requires
        0 < n <= 0x4000_0000_0000_0000_0000_0000_0000_0000,
    ensures
        lifted.0 == n * pow2(lifted.1 as nat),
        0x1000_0000_0000_0000_0000_0000_0000_0000 <= lifted.0
            <= 0x4000_0000_0000_0000_0000_0000_0000_0000,
        n < 0x4000_0000_0000_0000_0000_0000_0000_0000 ==> lifted.0
            < 0x4000_0000_0000_0000_0000_0000_0000_0000,
        lifted.1 % 2 == 0,
        lifted.1 <= 124,
{
    let mut long: u128 = n;
    let mut shift: u32 = 0;
    proof {
        lemma2_to64();
    }
    while long < 0x1000_0000_0000_0000_0000_0000_0000_0000
        invariant
            0 < n,
            long == n * pow2(shift as nat),
            0 < long <= 0x4000_0000_0000_0000_0000_0000_0000_0000,
            n < 0x4000_0000_0000_0000_0000_0000_0000_0000 ==> long
                < 0x4000_0000_0000_0000_0000_0000_0000_0000,
            shift % 2 == 0,
            shift <= 124,
        decreases 0x4000_0000_0000_0000_0000_0000_0000_0000 - long,
    {
        proof {
            lemma_pow2_unfold((shift + 1) as nat);
            lemma_pow2_unfold((shift + 2) as nat);
            let p = pow2(shift as nat);
            assert(n * (2 * (2 * p)) == 4 * (n * p)) by (nonlinear_arith);
            if shift == 124 {
                lemma2_to64();
                lemma2_to64_rest();
                lemma_pow2_adds(64, 60);
                assert(n * p >= p) by (nonlinear_arith)
                    requires
                        n >= 1,
                        p > 0,
                ;
            }
        }
        long = long * 4;
        shift = shift + 2;
    }
    (long, shift)
}

/// Rounding loses at most half of a value.
pub proof fn rounded_is_not_small(n: nat, d: nat, precision: nat)
    requires
        0 < d,
        0 < precision,
        0 < n / d,
    ensures
        2 * rounded(n, d, precision) >= n / d,
{
    let whole = n / d;
    let e = excess(whole, precision);
    let unit = pow2(e);
    lemma_pow2_pos(e);
    bit_length_bounds(whole);
    lemma2_to64();
    if e < bit_length(whole) - 1 {
        lemma_pow2_strictly_increases(e, (bit_length(whole) - 1) as nat);
    }
    lemma_fundamental_div_mod(n as int, d as int);
    assert(d * unit > 0) by (nonlinear_arith)
        requires
            0 < d,
            0 < unit,
    ;
    nearest_error(n, d * unit);
    let m = nearest(n, d * unit);
    let r = m * unit;
    assert(2 * r >= whole) by (nonlinear_arith)
        requires
            2 * (m * (d * unit)) >= 2 * n - d * unit,
            n >= d * whole,
            unit <= whole,
            r == m * unit,
            0 < d,
    {
        assert(m * (d * unit) == d * r);
        assert(d * unit <= d * whole);
        assert(d * (2 * r) >= d * whole);
    }
}

/// A rounded square root is near the whole root.
pub proof fn rounded_root_bounds(x: nat, precision: nat, root: nat)
    requires
        0 < precision,
        0 < root,
        square(root) <= x < square(root + 1),
    ensures
        root <= 2 * rounded_root(x, precision) <= 4 * root,
        root_below(x, 1) == root,
{
    root_below_is(x, 1, root);
    let e = excess(root, precision);
    let unit = pow2(e);
    lemma_pow2_pos(e);
    bit_length_bounds(root);
    lemma2_to64();
    if e < bit_length(root) - 1 {
        lemma_pow2_strictly_increases(e, (bit_length(root) - 1) as nat);
    }
    coarser_root(x, unit, root);
    let below = root / unit;
    lemma_fundamental_div_mod(root as int, unit as int);
    assert(below >= 1) by (nonlinear_arith)
        requires
            root == unit * below + root % unit,
            0 <= root % unit < unit,
            unit <= root,
    ;
    assert(unit <= below * unit) by (nonlinear_arith)
        requires
            below >= 1,
            unit > 0,
    ;
    assert((below + 1) * unit == below * unit + unit) by (nonlinear_arith);
    assert(below * unit == unit * below) by (nonlinear_arith);
}

/// Nothing rounds to nothing.
pub proof fn zero_rounds_to_zero(d: nat, precision: nat)
    requires
        0 < d,
    ensures
        rounded(0, d, precision) == 0,
        rounded_root(0, precision) == 0,
{
    lemma2_to64();
    assert(0int / d as int == 0) by {
        lemma_div_of0(d as int);
    }
    assert(bit_length(0) == 0);
    nearest_of_multiple(0, d);
    assert(0 * d == 0);
    assert(d * 1 == d);
    root_below_is(0, 1, 0);
}

/// A larger number has no smaller nearest multiple.
pub proof fn nearest_is_ordered(a: nat, b: nat, d: nat)
    requires
        0 < d,
        a <= b,
    ensures
        nearest(a, d) <= nearest(b, d),
{
    lemma_div_is_ordered(a as int, b as int, d as int);
    lemma_fundamental_div_mod(a as int, d as int);
    lemma_fundamental_div_mod(b as int, d as int);
    if a / d == b / d {
        assert(d * (a / d) == d * (b / d));
        assert(a % d <= b % d);
    }
}

/// Rounding keeps the order of numbers.
pub proof fn rounding_is_ordered(a: nat, b: nat, d: nat, precision: nat)
    requires
        0 < d,
        0 < precision,
        a <= b,
    ensures
        rounded(a, d, precision) <= rounded(b, d, precision),
{
    let low = a / d;
    let high = b / d;
    lemma_div_is_ordered(a as int, b as int, d as int);
    if low > 0 {
        bit_length_bounds(low);
        bit_length_bounds(high);
        if bit_length(low) > bit_length(high) {
            if bit_length(high) < (bit_length(low) - 1) as nat {
                lemma_pow2_strictly_increases(bit_length(high), (bit_length(low) - 1) as nat);
            }
        }
    } else {
        assert(bit_length(0) == 0);
    }
    let e = excess(high, precision);
    let unit = pow2(e);
    lemma_pow2_pos(e);
    assert(d * unit > 0) by (nonlinear_arith)
        requires
            0 < d,
            0 < unit,
    ;
    if excess(low, precision) == e {
        nearest_is_ordered(a, b, d * unit);
        let m = nearest(a, d * unit);
        let n = nearest(b, d * unit);
        assert(m * unit <= n * unit) by (nonlinear_arith)
            requires
                m <= n,
                0 < unit,
        ;
    } else {
        // The lower number has fewer digits, so a power of two lies between.
        let t = (precision + e - 1) as nat;
        if low > 0 {
            if bit_length(low) < t {
                lemma_pow2_strictly_increases(bit_length(low), t);
            }
        } else {
            lemma_pow2_pos(t);
        }
        rounded_bound(a, d, precision, t);
        bit_length_bounds(high);
        let top = pow2((precision - 1) as nat);
        lemma_pow2_adds((precision - 1) as nat, e);
        assert(top * unit <= high);
        lemma_fundamental_div_mod(b as int, d as int);
        assert(top * (d * unit) <= b) by (nonlinear_arith)
            requires
                top * unit <= high,
                b == d * high + b % d,
                0 <= b % d,
                0 < d,
        ;
        nearest_of_multiple(top, d * unit);
        nearest_is_ordered(top * (d * unit), b, d * unit);
        let n = nearest(b, d * unit);
        assert(top * unit <= n * unit) by (nonlinear_arith)
            requires
                top <= n,
                0 < unit,
        ;
    }
}

/// Rounding moves a number by no more than half of its last digit.
pub proof fn rounding_error(n: nat, d: nat, precision: nat)
    requires
        0 < d,
        0 < precision,
        d == 1 || pow2((precision - 1) as nat) <= n / d,
    ensures
        -(n as int) <= pow2(precision) * (d * rounded(n, d, precision) - n) <= n,
{
    let whole = n / d;
    let e = excess(whole, precision);
    let unit = pow2(e);
    let top = pow2((precision - 1) as nat);
    let m = nearest(n, d * unit);
    lemma_pow2_pos(e);
    lemma_pow2_pos((precision - 1) as nat);
    lemma2_to64();
    lemma_pow2_unfold(precision);
    lemma_fundamental_div_mod(n as int, d as int);
    assert(d * unit > 0) by (nonlinear_arith)
        requires
            0 < d,
            0 < unit,
    ;
    nearest_error(n, d * unit);
    let r = m * unit;
    assert(m * (d * unit) == d * r) by (nonlinear_arith)
        requires
            r == m * unit,
    ;
    if whole < top {
        // Whole units hold every digit.
        assert(d == 1);
        assert(whole == n);
        if whole > 0 {
            bit_length_bounds(whole);
            few_digits(whole, (precision - 1) as nat);
        } else {
            assert(bit_length(0) == 0);
        }
        assert(unit == 1);
        assert(n * 1 == n);
        nearest_of_multiple(n, 1);
        assert(pow2(precision) * 0 == 0);
    } else {
        bit_length_bounds(whole);
        enough_digits(whole, precision);
        lemma_pow2_adds((precision - 1) as nat, e);
        assert(top * unit <= whole);
        let gap = d * r - n;
        let two_top = pow2(precision);
        assert(-(n as int) <= two_top * gap <= n) by (nonlinear_arith)
            requires
                -(d * unit) <= 2 * gap <= d * unit,
                two_top == 2 * top,
                top * unit <= whole,
                n == d * whole + n % d,
                0 <= n % d,
                0 < d,
                0 < top,
        {
            assert(top * (d * unit) == d * (top * unit));
            assert(d * (top * unit) <= d * whole);
            assert(top * (2 * gap) <= top * (d * unit));
            assert(top * (2 * gap) >= -(top * (d * unit)));
        }
    }
}

/// A rounded square root, squared, is off by no more than its last digit allows.
pub proof fn root_error(x: nat)
    requires
        pow2(106) <= x,
    ensures
        ({
            let r = rounded_root(x, 53);
            &&& r > 0
            &&& -(square(r) as int) <= pow2(51) * (x - square(r)) <= square(r)
        }),
{
    let root = root_exists(x);
    root_below_is(x, 1, root);
    lemma2_to64();
    lemma2_to64_rest();
    lemma_pow2_adds(53, 53);
    let half_way = pow2(53);
    assert(root >= half_way) by {
        if root < half_way {
            assert(square((root + 1) as nat) <= half_way * half_way) by (nonlinear_arith)
                requires
                    square((root + 1) as nat) == (root + 1) * (root + 1),
                    root + 1 <= half_way,
            ;
        }
    }
    enough_digits(root, 54);
    bit_length_bounds(root);
    let e = excess(root, 53);
    let unit = pow2(e);
    lemma_pow2_pos(e);
    lemma_pow2_adds(52, e);
    let big = pow2(52);
    assert(big * unit <= root);
    coarser_root(x, unit, root);
    let below = root_below(x, unit);
    assert(below == root / unit);
    lemma_fundamental_div_mod(root as int, unit as int);
    assert(below >= big) by (nonlinear_arith)
        requires
            root == unit * below + root % unit,
            0 <= root % unit < unit,
            big * unit <= root,
            unit > 0,
    ;
    let low = below * unit;
    let high = (below + 1) * unit;
    assert(high == low + unit) by (nonlinear_arith)
        requires
            low == below * unit,
            high == (below + 1) * unit,
    ;
    assert(big * unit <= low) by (nonlinear_arith)
        requires
            below >= big,
            low == below * unit,
            unit > 0,
    ;
    let middle = (2 * below + 1) * unit;
    assert(middle == 2 * low + unit) by (nonlinear_arith)
        requires
            low == below * unit,
            middle == (2 * below + 1) * unit,
    ;
    assert(low <= root < high) by {
        assert(low == unit * below) by (nonlinear_arith)
            requires
                low == below * unit,
        ;
    }
    let r = rounded_root(x, 53);
    let half_unit = pow2(51);
    assert(big == 2 * half_unit) by {
        lemma_pow2_unfold(52);
    }
    assert(square(low) <= x) by (nonlinear_arith)
        requires
            square(low) == low * low,
            square(root) == root * root,
            square(root) <= x,
            low <= root,
    ;
    assert(x < square(high)) by (nonlinear_arith)
        requires
            square(high) == high * high,
            square((root + 1) as nat) == (root + 1) * (root + 1),
            x < square((root + 1) as nat),
            root + 1 <= high,
    ;
    if r == low {
        assert(4 * x <= square(middle));
        assert(4 * (x - square(r)) <= 4 * (r * unit) + unit * unit) by (nonlinear_arith)
            requires
                4 * x <= square(middle),
                square(middle) == middle * middle,
                middle == 2 * r + unit,
                square(r) == r * r,
        ;
    } else {
        assert(r == high);
        assert(4 * x >= square(middle));
        assert(4 * (square(r) - x) <= 4 * (r * unit)) by (nonlinear_arith)
            requires
                4 * x >= square(middle),
                square(middle) == middle * middle,
                middle == 2 * r - unit,
                square(r) == r * r,
        ;
    }
    assert(big * unit <= r);
    assert(big * (r * unit) <= square(r)) by (nonlinear_arith)
        requires
            big * unit <= r,
            square(r) == r * r,
            r >= 0,
    ;
    assert(big * (unit * unit) <= r * unit) by (nonlinear_arith)
        requires
            big * unit <= r,
            unit > 0,
    ;
    let gap = x - square(r);
    assert(-(square(r) as int) <= half_unit * gap <= square(r)) by (nonlinear_arith)
        requires
            4 * gap <= 4 * (r * unit) + unit * unit,
            4 * gap >= -(4 * (r * unit)),
            big * (r * unit) <= square(r),
            big * (unit * unit) <= r * unit,
            big == 2 * half_unit,
            half_unit >= 1,
            r * unit >= 0,
            unit * unit >= 0,
    {
        assert(half_unit * (4 * gap) <= half_unit * (4 * (r * unit) + unit * unit));
        assert(half_unit * (4 * gap) >= half_unit * (-(4 * (r * unit))));
    }
}

/// The first 24 digits of a number begin with a 1.
proof fn significand_bounds(units: nat)
    requires
        0 < units,
    ensures
        pow2(23) <= units * pow2(24) / pow2(bit_length(units)) < pow2(24),
{
    let digits = bit_length(units);
    let n = units * pow2(24);
    let d = pow2(digits);
    bit_length_bounds(units);
    lemma_pow2_pos(digits);
    lemma2_to64();
    lemma_pow2_unfold(digits);
    lemma_fundamental_div_mod(n as int, d as int);
    let q = n / d;
    let half = pow2((digits - 1) as nat);
    assert(0x80_0000 <= q < 0x100_0000) by (nonlinear_arith)
        requires
            n == units * 0x100_0000,
            n == d * q + n % d,
            0 <= n % d < d,
            d == 2 * half,
            half <= units < d,
    ;
}

/// A single-precision pattern holds the exponent above 23 digits, and the digits
/// behind the first one below it: reading them back gives the number.
pub proof fn pattern_reads_back(units: nat, scale: nat)
    requires
        0 < units,
        scale <= 150,
        scale <= bit_length(units) + 126,
        units * pow2(24) % pow2(bit_length(units)) == 0,
    ensures
        ({
            let p = single_pattern(units, scale as int);
            &&& 0 <= p
            &&& p / 0x80_0000 == bit_length(units) + 126 - scale
            &&& (p % 0x80_0000 + 0x80_0000) * pow2((p / 0x80_0000) as nat) == units * pow2(
                (150 - scale) as nat,
            )
        }),
{
    let digits = bit_length(units);
    let d = pow2(digits);
    let g = units * pow2(24) / d;
    let e = (digits + 126 - scale) as nat;
    let p = single_pattern(units, scale as int);
    bit_length_bounds(units);
    significand_bounds(units);
    lemma2_to64();
    lemma_pow2_pos(digits);
    assert(p == e * 0x80_0000 + g - 0x80_0000);
    assert(p / 0x80_0000 == e);
    assert(p % 0x80_0000 == g - 0x80_0000);
    lemma_fundamental_div_mod((units * pow2(24)) as int, d as int);
    assert(d * g == units * pow2(24));
    let high = pow2(e);
    let low = pow2((150 - scale) as nat);
    if scale <= 126 {
        let rest = pow2((126 - scale) as nat);
        lemma_pow2_adds(digits, (126 - scale) as nat);
        lemma_pow2_adds(24, (126 - scale) as nat);
        assert(g * high == units * low) by (nonlinear_arith)
            requires
                d * g == units * pow2(24),
                high == d * rest,
                low == pow2(24) * rest,
        ;
    } else {
        let rest = pow2((scale - 126) as nat);
        lemma_pow2_pos((scale - 126) as nat);
        lemma_pow2_adds(e, (scale - 126) as nat);
        lemma_pow2_adds((150 - scale) as nat, (scale - 126) as nat);
        assert((g * high) * rest == (units * low) * rest) by (nonlinear_arith)
            requires
                d * g == units * pow2(24),
                d == high * rest,
                pow2(24) == low * rest,
        ;
        assert(g * high == units * low) by (nonlinear_arith)
            requires
                (g * high) * rest == (units * low) * rest,
                rest > 0,
        ;
    }
}

/// Dividing a product of a power of two by a smaller one leaves nothing.
proof fn powers_divide(m: nat, high: nat, low: nat)
    requires
        low <= high,
    ensures
        m * pow2(high) % pow2(low) == 0,
{
    let gap = (high - low) as nat;
    lemma_pow2_adds(gap, low);
    lemma_pow2_pos(low);
    assert(m * pow2(high) == (m * pow2(gap)) * pow2(low)) by (nonlinear_arith)
        requires
            pow2(high) == pow2(gap) * pow2(low),
    ;
    lemma_mod_multiples_basic((m * pow2(gap)) as int, pow2(low) as int);
}

/// What was rounded to 24 digits has no more than 24 digits.
pub proof fn rounded_is_exact(n: nat, d: nat)
    requires
        0 < d,
    ensures
        rounded(n, d, 24) * pow2(24) % pow2(bit_length(rounded(n, d, 24))) == 0,
{
    let whole = n / d;
    let e = excess(whole, 24);
    let unit = pow2(e);
    let r = rounded(n, d, 24);
    lemma_pow2_pos(e);
    lemma2_to64();
    assert(d * unit > 0) by (nonlinear_arith)
        requires
            0 < d,
            0 < unit,
    ;
    let m = nearest(n, d * unit);
    lemma_fundamental_div_mod(n as int, d as int);
    lemma_div_denominator(n as int, d as int, unit as int);
    let below = n / (d * unit);
    assert(below == whole / unit);
    lemma_fundamental_div_mod(whole as int, unit as int);
    assert(below < pow2(24)) by {
        if whole > 0 {
            bit_length_bounds(whole);
            if e == 0 {
                if bit_length(whole) < 24 {
                    lemma_pow2_strictly_increases(bit_length(whole), 24);
                }
                assert(unit == 1);
                assert(whole / 1 == whole);
            } else {
                lemma_pow2_adds(24, e);
                assert(below < pow2(24)) by (nonlinear_arith)
                    requires
                        whole == unit * below + whole % unit,
                        0 <= whole % unit,
                        whole < pow2(24) * unit,
                        0 < unit,
                ;
            }
        }
    }
    assert(m <= pow2(24));
    if r == 0 {
        assert(0 * pow2(24) == 0);
        lemma_pow2_pos(bit_length(0));
        lemma_small_mod(0, pow2(bit_length(0)));
    } else {
        assert(m > 0) by {
            if m == 0 {
                assert(0 * unit == 0);
            }
        }
        if m == pow2(24) {
            lemma_pow2_adds(24, e);
            lemma_pow2_unfold(25 + e);
            bit_length_from_bounds(r, 24 + e);
            lemma_pow2_adds(24 + e, 24);
            powers_divide(1, 48 + e, 25 + e);
        } else {
            few_digits(m, 24);
            bit_length_bounds(m);
            let k = bit_length(m);
            lemma_pow2_adds(k, e);
            lemma_pow2_adds((k - 1) as nat, e);
            assert(pow2((k - 1) as nat) * unit <= r < pow2(k) * unit) by (nonlinear_arith)
                requires
                    pow2((k - 1) as nat) <= m < pow2(k),
                    r == m * unit,
                    0 < unit,
            ;
            bit_length_from_bounds(r, (k - 1 + e) as nat);
            lemma_pow2_adds(e, 24);
            assert(r * pow2(24) == m * pow2(e + 24)) by (nonlinear_arith)
                requires
                    r == m * unit,
                    pow2(e + 24) == unit * pow2(24),
            ;
            powers_divide(m, e + 24, k + e);
        }
    }
}

/// Larger numbers have larger bit patterns.
pub proof fn patterns_are_ordered(a: nat, b: nat, scale: int)
    requires
        0 < a <= b,
    ensures
        single_pattern(a, scale) <= single_pattern(b, scale),
{
    lemma2_to64();
    significand_bounds(a);
    significand_bounds(b);
    bit_length_bounds(a);
    bit_length_bounds(b);
    let p = bit_length(a);
    let q = bit_length(b);
    lemma_pow2_pos(p);
    if p > q && q < p - 1 {
        lemma_pow2_strictly_increases(q, (p - 1) as nat);
    }
    if p == q {
        assert(a * pow2(24) <= b * pow2(24)) by (nonlinear_arith)
            requires
                a <= b,
        ;
        lemma_div_is_ordered((a * pow2(24)) as int, (b * pow2(24)) as int, pow2(p) as int);
    }
    let g = a * pow2(24) / pow2(p);
    let h = b * pow2(24) / pow2(q);
    assert(single_pattern(a, scale) == (p - 1 - scale + 127) * 0x80_0000 + g - 0x80_0000);
    assert(single_pattern(b, scale) == (q - 1 - scale + 127) * 0x80_0000 + h - 0x80_0000);
}

/// Of two whole numbers that are equally near the even one is taken.
pub proof fn ties_go_to_even(n: nat, d: nat)
    requires
        0 < d,
    ensures
        2 * (n % d) == d ==> nearest(n, d) % 2 == 0,
        2 * (n % d) < d ==> nearest(n, d) == n / d,
        2 * (n % d) > d ==> nearest(n, d) == n / d + 1,
{
}

/// Rounding keeps as many digits as it is told: it rounds to the nearest multiple
/// of a power of two of which the number holds less than 2^precision, and at least
/// half as many unless that power is 1.
pub proof fn rounding_keeps_its_digits(n: nat, d: nat, precision: nat)
    requires
        0 < d,
        0 < precision,
    ensures
        exists|e: nat|
            rounded(n, d, precision) == nearest(n, d * #[trigger] pow2(e)) * pow2(e) && n / d
                < pow2(precision) * pow2(e) && (e > 0 ==> pow2((precision - 1) as nat) * pow2(e)
                <= n / d),
{
    let whole = n / d;
    let e = excess(whole, precision);
    let unit = pow2(e);
    lemma_pow2_pos(e);
    lemma_pow2_pos(precision);
    lemma2_to64();
    if whole > 0 {
        bit_length_bounds(whole);
        if e > 0 {
            lemma_pow2_adds(precision, e);
            lemma_pow2_adds((precision - 1) as nat, e);
        } else {
            if bit_length(whole) < precision {
                lemma_pow2_strictly_increases(bit_length(whole), precision);
            }
            assert(pow2(precision) * unit == pow2(precision)) by (nonlinear_arith)
                requires
                    unit == 1,
            ;
        }
    } else {
        assert(bit_length(0) == 0);
        assert(pow2(precision) * unit > 0) by (nonlinear_arith)
            requires
                pow2(precision) > 0,
                unit > 0,
        ;
    }
    assert(rounded(n, d, precision) == nearest(n, d * pow2(e)) * pow2(e) && n / d < pow2(precision)
        * pow2(e));
}

/// A rounded square root is the multiple of a power of two that is nearest to the
/// root, the even one of two that are equally near. The root holds less than
/// 2^precision of that power, and at least half as many unless the power is 1.
pub proof fn root_is_the_nearest(x: nat, precision: nat) -> (found: (nat, nat, nat))
    requires
        0 < precision,
    ensures
        ({
            let (root, e, m) = found;
            let unit = pow2(e);
            &&& root * root <= x < (root + 1) * (root + 1)
            &&& root < pow2(precision) * unit
            &&& e > 0 ==> pow2((precision - 1) as nat) * unit <= root
            &&& rounded_root(x, precision) == m * unit
            &&& 4 * x <= ((2 * m + 1) * unit) * ((2 * m + 1) * unit)
            &&& 4 * x == ((2 * m + 1) * unit) * ((2 * m + 1) * unit) ==> m % 2 == 0
            &&& m > 0 ==> ((2 * m - 1) * unit) * ((2 * m - 1) * unit) <= 4 * x
            &&& m > 0 && ((2 * m - 1) * unit) * ((2 * m - 1) * unit) == 4 * x ==> m % 2 == 0
        }),
{
    let root = root_exists(x);
    let e = excess(root, precision);
    let unit = pow2(e);
    lemma_pow2_pos(e);
    lemma_pow2_pos(precision);
    lemma2_to64();
    if root > 0 {
        bit_length_bounds(root);
        if e > 0 {
            lemma_pow2_adds(precision, e);
            lemma_pow2_adds((precision - 1) as nat, e);
        } else {
            if bit_length(root) < precision {
                lemma_pow2_strictly_increases(bit_length(root), precision);
            }
            assert(pow2(precision) * unit == pow2(precision)) by (nonlinear_arith)
                requires
                    unit == 1,
            ;
        }
    } else {
        assert(bit_length(0) == 0);
        assert(pow2(precision) * unit > 0) by (nonlinear_arith)
            requires
                pow2(precision) > 0,
                unit > 0,
        ;
    }
    coarser_root(x, unit, root);
    let below = root_below(x, unit);
    let middle = (2 * below + 1) * unit;
    let up = 4 * x > square(middle) || (4 * x == square(middle) && below % 2 == 1);
    let m: nat = if up {
        below + 1
    } else {
        below
    };
    let low = below * unit;
    let high = (below + 1) * unit;
    if up {
        assert((2 * m - 1) * unit == middle);
        let far = (2 * m + 1) * unit;
        assert(4 * x < far * far) by (nonlinear_arith)
            requires
                x < high * high,
                high == m * unit,
                far == (2 * m + 1) * unit,
                unit > 0,
        {
            assert(far == 2 * high + unit);
            assert(far * far >= 4 * (high * high));
        }
    } else if m > 0 {
        let far = (2 * m - 1) * unit;
        assert(far * far < 4 * x) by (nonlinear_arith)
            requires
                low * low <= x,
                low == m * unit,
                far == (2 * m - 1) * unit,
                unit > 0,
                m > 0,
        {
            assert(far == 2 * low - unit);
            assert(0 < far < 2 * low);
            assert(far * far < (2 * low) * (2 * low));
        }
    }
    (root, e, m)
}

} // verus!
