//! Q24 fixed-point arithmetic: an `i64` carries a real value scaled by
//! `SCALE = 2^24`. All helpers here are exact integer computations with
//! contracts that pin the result to a spec-level mirror.

use vstd::prelude::*;

verus! {

/// One fixed-point unit: the representation of the real number 1.0.
pub const SCALE: i64 = 0x100_0000;

/// Truncating division (toward zero) of `a` by a positive divisor `d`,
/// the rounding executable integer division uses.
pub open spec fn tdiv(a: int, d: int) -> int {
    if a >= 0 {
        a / d
    } else {
        -((-a) / d)
    }
}

/// Fixed-point product: `a * b` rescaled back to Q24, truncated toward zero.
pub open spec fn fp_mul_spec(a: int, b: int) -> int {
    tdiv(a * b, SCALE as int)
}

/// `x` clamped to `[lo, hi]`.
pub open spec fn clamp_spec(x: int, lo: int, hi: int) -> int {
    if x < lo {
        lo
    } else if x > hi {
        hi
    } else {
        x
    }
}

/// Magnitude bound of a truncating division: dividing cannot grow a value.
pub proof fn lemma_tdiv_bound(a: int, d: int, m: int)
    requires
        d >= 1,
        -m <= a <= m,
        0 <= m,
    ensures
        -m <= tdiv(a, d) <= m,
        a >= 0 ==> 0 <= tdiv(a, d),
        a <= 0 ==> tdiv(a, d) <= 0,
{
    if a >= 0 {
        vstd::arithmetic::div_mod::lemma_div_pos_is_pos(a, d);
        vstd::arithmetic::div_mod::lemma_div_nonincreasing(a, d);
    } else {
        vstd::arithmetic::div_mod::lemma_div_pos_is_pos(-a, d);
        vstd::arithmetic::div_mod::lemma_div_nonincreasing(-a, d);
    }
}

/// Multiplying by a factor of magnitude at most one cannot grow a value.
pub proof fn lemma_fp_mul_unit_bound(a: int, b: int, m: int)
    requires
        -SCALE <= a <= SCALE,
        -m <= b <= m,
        0 <= m,
    ensures
        -m <= fp_mul_spec(a, b) <= m,
        -m <= fp_mul_spec(b, a) <= m,
{
    assert(-(m * SCALE) <= a * b <= m * SCALE && b * a == a * b) by (nonlinear_arith)
        requires
            -SCALE <= a <= SCALE,
            -m <= b <= m,
            0 <= m,
    ;
    lemma_tdiv_bound(a * b, SCALE as int, m * (SCALE as int));
    let q = tdiv(a * b, SCALE as int);
    if a * b >= 0 {
        vstd::arithmetic::div_mod::lemma_div_is_ordered(a * b, m * (SCALE as int), SCALE as int);
    } else {
        vstd::arithmetic::div_mod::lemma_div_is_ordered(-(a * b), m * (SCALE as int), SCALE as int);
    }
    assert((m * (SCALE as int)) / (SCALE as int) == m) by {
        vstd::arithmetic::div_mod::lemma_div_by_multiple(m, SCALE as int);
    }
}

/// A `Seq<i64>` widened to mathematical integers.
pub open spec fn seq_int(s: Seq<i64>) -> Seq<int> {
    s.map_values(|x: i64| x as int)
}

/// `n` zeros.
pub open spec fn zeros(n: nat) -> Seq<int> {
    Seq::new(n, |i: int| 0)
}

/// Executable fixed-point multiply, exact mirror of `fp_mul_spec`. The
/// second factor must be at most one in magnitude; the first may be as large
/// as a full output sample.
pub fn fp_mul(a: i64, b: i64) -> (r: i64)
    requires
        -0x10_0000_0000 <= a <= 0x10_0000_0000,
        -SCALE <= b <= SCALE,
    ensures
        r == fp_mul_spec(a as int, b as int),
{
    let negative: bool = (a < 0) != (b < 0);
    let aa: i64 = if a < 0 {
        -a
    } else {
        a
    };
    let bb: i64 = if b < 0 {
        -b
    } else {
        b
    };
    assert(aa * bb <= 0x10_0000_0000 * 0x100_0000) by (nonlinear_arith)
        requires
            0 <= aa <= 0x10_0000_0000,
            0 <= bb <= 0x100_0000,
    ;
    let p: i64 = aa * bb;
    let q: i64 = p / SCALE;
    proof {
        if a >= 0 && b >= 0 {
            assert(p == a * b);
        } else if a < 0 && b < 0 {
            assert(aa * bb == a * b) by (nonlinear_arith)
                requires
                    aa == -a,
                    bb == -b,
            ;
        } else if a < 0 {
            assert(aa * bb == -(a * b)) by (nonlinear_arith)
                requires
                    aa == -a,
                    bb == b,
            ;
        } else {
            assert(aa * bb == -(a * b)) by (nonlinear_arith)
                requires
                    aa == a,
                    bb == -b,
            ;
        }
    }
    if negative {
        assert(a * b <= 0) by (nonlinear_arith)
            requires
                (a < 0 && b >= 0) || (a >= 0 && b < 0),
        ;
        -q
    } else {
        assert(a * b >= 0) by (nonlinear_arith)
            requires
                (a < 0 && b < 0) || (a >= 0 && b >= 0),
        ;
        q
    }
}

/// Executable clamp, exact mirror of `clamp_spec`.
pub fn clamp_fp(x: i64, lo: i64, hi: i64) -> (r: i64)
    requires
        lo <= hi,
    ensures
        r == clamp_spec(x as int, lo as int, hi as int),
{
    if x < lo {
        lo
    } else if x > hi {
        hi
    } else {
        x
    }
}

/// `2^e` as a mathematical integer.
pub open spec fn pot(e: nat) -> int
    decreases e,
{
    if e == 0 {
        1
    } else {
        2 * pot((e - 1) as nat)
    }
}

pub proof fn lemma_pot_pos(e: nat)
    ensures
        pot(e) >= 1,
    decreases e,
{
    if e > 0 {
        lemma_pot_pos((e - 1) as nat);
    }
}

pub proof fn lemma_pot_mono(a: nat, b: nat)
    requires
        a <= b,
    ensures
        pot(a) <= pot(b),
    decreases b,
{
    lemma_pot_pos(a);
    if a < b {
        lemma_pot_mono(a, (b - 1) as nat);
        lemma_pot_pos((b - 1) as nat);
    }
}

/// `2^e` as an executable value, for the small exponents used here.
pub fn pow2_i64(e: u32) -> (r: i64)
    requires
        e <= 20,
    ensures
        r == pot(e as nat),
        1 <= r <= 0x10_0000,
{
    proof {
        reveal_with_fuel(pot, 22);
        assert(pot(20) == 0x10_0000);
    }
    let mut r: i64 = 1;
    let mut i: u32 = 0;
    while i < e
        invariant
            i <= e <= 20,
            r == pot(i as nat),
            1 <= r <= 0x10_0000,
        decreases e - i,
    {
        proof {
            lemma_pot_mono(i as nat, 19);
            reveal_with_fuel(pot, 22);
            assert(pot(19) == 0x8_0000);
        }
        r = r * 2;
        i = i + 1;
    }
    r
}

/// The sine of `phase` cycles (the oscillator evaluates `sin(2*pi*phase)`),
/// as the parabolic wave `4x(1-x)` over each half cycle: exact in Q24 at the
/// zero crossings and at the peaks, within about 6 % of the ideal curve in
/// between, and odd-symmetric about the half-cycle point.
pub open spec fn sine_spec(phase: int) -> int {
    let u = phase % (SCALE as int);
    let h = (SCALE as int) / 2;
    if u < h {
        16 * u * (h - u) / (SCALE as int)
    } else {
        -(16 * (u - h) * (h - (u - h)) / (SCALE as int))
    }
}

/// Quarter-wave bound: `16 * u * (h - u)` peaks at `SCALE * SCALE` for
/// `u = h / 2`.
proof fn lemma_parabola_bound(u: int)
    requires
        0 <= u < (SCALE as int) / 2,
    ensures
        0 <= 16 * u * ((SCALE as int) / 2 - u) <= SCALE * SCALE,
        0 <= 16 * u * ((SCALE as int) / 2 - u) / (SCALE as int) <= SCALE,
{
    let h = (SCALE as int) / 2;
    assert(h == 0x80_0000);
    assert(0 <= 16 * u * (h - u) <= 0x1_0000_0000_0000) by (nonlinear_arith)
        requires
            0 <= u < h,
            h == 0x80_0000,
    ;
    assert(SCALE * SCALE == 0x1_0000_0000_0000) by (nonlinear_arith);
    vstd::arithmetic::div_mod::lemma_div_is_ordered(
        16 * u * (h - u),
        SCALE * SCALE,
        SCALE as int,
    );
    assert((SCALE * SCALE) / (SCALE as int) == SCALE) by {
        vstd::arithmetic::div_mod::lemma_div_by_multiple(SCALE as int, SCALE as int);
    }
    vstd::arithmetic::div_mod::lemma_div_pos_is_pos(16 * u * (h - u), SCALE as int);
}

/// The parabolic sine stays within one in magnitude.
pub proof fn lemma_sine_range(phase: int)
    ensures
        -SCALE <= sine_spec(phase) <= SCALE,
{
    vstd::arithmetic::div_mod::lemma_mod_bound(phase, SCALE as int);
    let u = phase % (SCALE as int);
    let h = (SCALE as int) / 2;
    if u < h {
        lemma_parabola_bound(u);
    } else {
        lemma_parabola_bound(u - h);
    }
}

/// Executable sine, exact mirror of `sine_spec`.
pub fn sine_fp(phase: i64) -> (r: i64)
    requires
        0 <= phase < 2 * SCALE,
    ensures
        r == sine_spec(phase as int),
        -SCALE <= r <= SCALE,
{
    let u: i64 = phase % SCALE;
    let h: i64 = SCALE / 2;
    if u < h {
        proof {
            lemma_parabola_bound(u as int);
        }
        (16 * u * (h - u)) / SCALE
    } else {
        let w: i64 = u - h;
        proof {
            lemma_parabola_bound(w as int);
        }
        -((16 * w * (h - w)) / SCALE)
    }
}

/// Quadratic coefficients for `2^f` over one octave: `2^f` is approximated by
/// `1 + f * (21/32 + (11/32) * f)`, which is exact at `f = 0` and `f = 1`.
pub const EXP2_C1: i64 = 0xA8_0000;

pub const EXP2_C2: i64 = 0x58_0000;

/// Coefficient for `log2(1 + t)`, approximated by `t + (11/32) * t * (1 - t)`,
/// exact at `t = 0` and `t = 1`.
pub const LOG2_C: i64 = 0x58_0000;

/// `2^(y / SCALE)` in Q24: split `y` into whole octaves and a fraction, apply
/// the quadratic to the fraction, and shift by the octaves.
pub open spec fn exp2_spec(y: int) -> int {
    let shifted = y + 8 * SCALE;
    let k = shifted / (SCALE as int);
    let f = shifted % (SCALE as int);
    let poly = SCALE + f * (EXP2_C1 + f * EXP2_C2 / (SCALE as int)) / (SCALE as int);
    if k >= 8 {
        poly * pot((k - 8) as nat)
    } else {
        poly / pot((8 - k) as nat)
    }
}

/// Executable base-2 exponential, exact mirror of `exp2_spec`.
pub fn exp2_fp(y: i64) -> (r: i64)
    requires
        -8 * SCALE <= y <= 10 * SCALE,
    ensures
        r == exp2_spec(y as int),
        1 <= r <= 2048 * SCALE,
        y <= 6 * SCALE ==> r <= 128 * SCALE,
        y >= 0 ==> r >= SCALE,
{
    let shifted: i64 = y + 8 * SCALE;
    let k: i64 = shifted / SCALE;
    let f: i64 = shifted % SCALE;
    proof {
        vstd::arithmetic::div_mod::lemma_div_pos_is_pos(shifted as int, SCALE as int);
        vstd::arithmetic::div_mod::lemma_div_is_ordered(shifted as int, 18 * SCALE, SCALE as int);
        vstd::arithmetic::div_mod::lemma_div_by_multiple(18, SCALE as int);
        assert(18 * (SCALE as int) == (18 as int) * (SCALE as int)) by (nonlinear_arith);
    }
    assert(0 <= k <= 18);
    assert(0 <= f < SCALE);
    let inner: i64 = (f * EXP2_C2) / SCALE;
    proof {
        assert(0 <= f * EXP2_C2 <= EXP2_C2 * SCALE) by (nonlinear_arith)
            requires
                0 <= f <= SCALE,
        ;
        vstd::arithmetic::div_mod::lemma_div_is_ordered(
            f * EXP2_C2,
            EXP2_C2 * (SCALE as int),
            SCALE as int,
        );
        vstd::arithmetic::div_mod::lemma_div_by_multiple(EXP2_C2 as int, SCALE as int);
        vstd::arithmetic::div_mod::lemma_div_pos_is_pos(f * EXP2_C2, SCALE as int);
    }
    assert(0 <= inner <= EXP2_C2);
    let mid: i64 = EXP2_C1 + inner;
    assert(0 <= mid <= SCALE);
    proof {
        assert(0 <= f * mid <= (SCALE - 1) * SCALE) by (nonlinear_arith)
            requires
                0 <= f <= SCALE - 1,
                0 <= mid <= SCALE,
        ;
    }
    let poly: i64 = SCALE + (f * mid) / SCALE;
    proof {
        vstd::arithmetic::div_mod::lemma_div_is_ordered(
            f * mid,
            (SCALE - 1) * (SCALE as int),
            SCALE as int,
        );
        vstd::arithmetic::div_mod::lemma_div_by_multiple(SCALE - 1 as int, SCALE as int);
        vstd::arithmetic::div_mod::lemma_div_pos_is_pos(f * mid, SCALE as int);
    }
    assert(SCALE <= poly <= 2 * SCALE - 1);
    if k >= 8 {
        let e: u32 = (k - 8) as u32;
        let p2: i64 = pow2_i64(e);
        proof {
            lemma_pot_mono(e as nat, 10);
            reveal_with_fuel(pot, 12);
            assert(pot(10) == 1024);
            lemma_pot_pos(e as nat);
            assert(poly * p2 <= 2048 * SCALE && poly * p2 >= poly) by (nonlinear_arith)
                requires
                    SCALE <= poly <= 2 * SCALE - 1,
                    1 <= p2 <= 1024,
            ;
            if y <= 6 * SCALE {
                vstd::arithmetic::div_mod::lemma_div_is_ordered(
                    shifted as int,
                    14 * SCALE,
                    SCALE as int,
                );
                vstd::arithmetic::div_mod::lemma_div_by_multiple(14, SCALE as int);
                assert(14 * (SCALE as int) == (14 as int) * (SCALE as int)) by (nonlinear_arith);
                assert(k <= 14);
                lemma_pot_mono(e as nat, 6);
                assert(pot(6) == 64);
                assert(poly * p2 <= 128 * SCALE) by (nonlinear_arith)
                    requires
                        SCALE <= poly <= 2 * SCALE - 1,
                        1 <= p2 <= 64,
                ;
            }
        }
        poly * p2
    } else {
        let e: u32 = (8 - k) as u32;
        let p2: i64 = pow2_i64(e);
        proof {
            lemma_pot_mono(e as nat, 8);
            reveal_with_fuel(pot, 12);
            assert(pot(8) == 256);
            lemma_pot_pos(e as nat);
            vstd::arithmetic::div_mod::lemma_div_is_ordered(p2 as int, poly as int, p2 as int);
            vstd::arithmetic::div_mod::lemma_div_by_self(p2 as int);
            vstd::arithmetic::div_mod::lemma_div_is_ordered(
                poly as int,
                2 * SCALE,
                p2 as int,
            );
            vstd::arithmetic::div_mod::lemma_div_is_ordered_by_denominator(2 * SCALE, 1, p2 as int);
            assert((2 * (SCALE as int)) / 1int == 2 * SCALE) by {
                vstd::arithmetic::div_mod::lemma_div_by_multiple(2 * SCALE, 1int);
                assert((2 * (SCALE as int)) * 1int == 2 * (SCALE as int)) by (nonlinear_arith);
            }
            assert(y < 0);
        }
        poly / p2
    }
}

/// `floor(log2(n))` for positive `n` (spec only).
pub open spec fn flog2(n: int) -> nat
    decreases n,
{
    if n < 2 {
        0
    } else {
        (1 + flog2(n / 2)) as nat
    }
}

/// `log2(n) * SCALE` in Q24: the floor exponent plus a corrected mantissa
/// fraction.
pub open spec fn log2_spec(n: int) -> int {
    let k = flog2(n);
    let t = n * SCALE / pot(k) - SCALE;
    k * SCALE + t + LOG2_C * (t * (SCALE - t) / (SCALE as int)) / (SCALE as int)
}

/// Executable base-2 logarithm for the harmonic-count range, exact mirror of
/// `log2_spec`.
pub fn log2_fp(n: usize) -> (r: i64)
    requires
        1 <= n <= 512,
    ensures
        r == log2_spec(n as int),
        0 <= r <= 10 * SCALE,
{
    let mut k: u32 = 0;
    let mut m: usize = n;
    proof {
        reveal_with_fuel(pot, 12);
        vstd::arithmetic::div_mod::lemma_div_by_multiple(n as int, 1int);
        assert((n as int) * 1int == n as int) by (nonlinear_arith);
    }
    while m >= 2
        invariant
            1 <= n <= 512,
            1 <= m,
            k <= 9,
            m == (n as int) / pot(k as nat),
            pot(k as nat) <= n,
            flog2(n as int) == k + flog2(m as int),
        decreases m,
    {
        proof {
            let p = pot(k as nat);
            lemma_pot_pos(k as nat);
            vstd::arithmetic::div_mod::lemma_fundamental_div_mod(n as int, p);
            vstd::arithmetic::div_mod::lemma_mod_bound(n as int, p);
            assert(n as int >= 2 * p) by (nonlinear_arith)
                requires
                    n as int == p * (m as int) + (n as int) % p,
                    (n as int) % p >= 0,
                    m >= 2,
                    p >= 1,
            ;
            assert(pot((k + 1) as nat) == 2 * p);
            if k + 1 > 9 {
                lemma_pot_mono(10, (k + 1) as nat);
                reveal_with_fuel(pot, 12);
                assert(pot(10) == 1024);
                assert(false);
            }
            vstd::arithmetic::div_mod::lemma_div_denominator(n as int, p, 2);
            assert(p * 2 == 2 * p) by (nonlinear_arith);
        }
        m = m / 2;
        k = k + 1;
    }
    proof {
        let p = pot(k as nat);
        lemma_pot_pos(k as nat);
        vstd::arithmetic::div_mod::lemma_fundamental_div_mod(n as int, p);
        vstd::arithmetic::div_mod::lemma_mod_bound(n as int, p);
        assert(p <= n && (n as int) < 2 * p) by (nonlinear_arith)
            requires
                n as int == p * (m as int) + (n as int) % p,
                0 <= (n as int) % p < p,
                m == 1,
                p >= 1,
        ;
    }
    let p2: i64 = pow2_i64(k);
    proof {
        lemma_pot_mono(k as nat, 9);
        reveal_with_fuel(pot, 12);
        assert(pot(9) == 512);
        assert((n as int) * (SCALE as int) >= (p2 as int) * (SCALE as int)
            && (n as int) * (SCALE as int) <= (2 * SCALE - 1) * (p2 as int)) by (nonlinear_arith)
            requires
                p2 as int <= n as int <= 2 * (p2 as int) - 1,
                1 <= p2 as int <= 512,
                SCALE as int == 0x100_0000,
        ;
        vstd::arithmetic::div_mod::lemma_div_is_ordered(
            (p2 as int) * (SCALE as int),
            (n as int) * (SCALE as int),
            p2 as int,
        );
        vstd::arithmetic::div_mod::lemma_div_by_multiple(SCALE as int, p2 as int);
        assert((SCALE as int) * (p2 as int) == (p2 as int) * (SCALE as int)) by (nonlinear_arith);
        vstd::arithmetic::div_mod::lemma_div_is_ordered(
            (n as int) * (SCALE as int),
            (2 * SCALE - 1) * (p2 as int),
            p2 as int,
        );
        vstd::arithmetic::div_mod::lemma_div_by_multiple(2 * SCALE - 1 as int, p2 as int);
    }
    let mant: i64 = ((n as i64) * SCALE) / p2;
    assert(SCALE <= mant <= 2 * SCALE - 1);
    let t: i64 = mant - SCALE;
    proof {
        assert(0 <= t * (SCALE - t) <= (SCALE - 1) * SCALE) by (nonlinear_arith)
            requires
                0 <= t <= SCALE - 1,
        ;
    }
    let u1: i64 = (t * (SCALE - t)) / SCALE;
    proof {
        vstd::arithmetic::div_mod::lemma_div_is_ordered(
            t * (SCALE - t),
            (SCALE - 1) * (SCALE as int),
            SCALE as int,
        );
        vstd::arithmetic::div_mod::lemma_div_by_multiple(SCALE - 1 as int, SCALE as int);
        vstd::arithmetic::div_mod::lemma_div_pos_is_pos(t * (SCALE - t), SCALE as int);
        assert(0 <= LOG2_C * u1 <= LOG2_C * SCALE) by (nonlinear_arith)
            requires
                0 <= u1 <= SCALE,
                LOG2_C == 0x58_0000,
        ;
    }
    let u2: i64 = (LOG2_C * u1) / SCALE;
    proof {
        vstd::arithmetic::div_mod::lemma_div_is_ordered(
            LOG2_C * u1,
            (LOG2_C as int) * (SCALE as int),
            SCALE as int,
        );
        vstd::arithmetic::div_mod::lemma_div_by_multiple(LOG2_C as int, SCALE as int);
        assert((LOG2_C as int) * (SCALE as int) == LOG2_C * (SCALE as int)) by (nonlinear_arith);
        vstd::arithmetic::div_mod::lemma_div_pos_is_pos(LOG2_C * u1, SCALE as int);
        if k == 9 {
            assert(pot(9) == 512);
            assert(n == 512);
            assert((n as int) * (SCALE as int) == (SCALE as int) * 512) by (nonlinear_arith)
                requires
                    n as int == 512,
            ;
            vstd::arithmetic::div_mod::lemma_div_by_multiple(SCALE as int, 512);
            assert(mant == SCALE);
        }
    }
    let r: i64 = (k as i64) * SCALE + t + u2;
    assert(0 <= r <= 10 * SCALE);
    r
}

/// The greatest `r` with `r * r <= x`, by linear recursion (spec only).
pub open spec fn sqrt_floor(x: nat) -> nat
    decreases x,
{
    if x == 0 {
        0
    } else {
        let s = sqrt_floor((x - 1) as nat);
        if (s + 1) * (s + 1) <= x {
            s + 1
        } else {
            s
        }
    }
}

pub proof fn lemma_sqrt_floor(x: nat)
    ensures
        sqrt_floor(x) * sqrt_floor(x) <= x,
        x < (sqrt_floor(x) + 1) * (sqrt_floor(x) + 1),
    decreases x,
{
    if x > 0 {
        lemma_sqrt_floor((x - 1) as nat);
        let s = sqrt_floor((x - 1) as nat);
        assert(s * s <= x - 1 && x - 1 < (s + 1) * (s + 1));
        if (s + 1) * (s + 1) <= x {
            assert(sqrt_floor(x) == s + 1);
            assert(x < (s + 2) * (s + 2)) by (nonlinear_arith)
                requires
                    x <= (s + 1) * (s + 1),
                    s >= 0,
            ;
            assert((s + 1 + 1) * (s + 1 + 1) == (s + 2) * (s + 2)) by (nonlinear_arith);
        } else {
            assert(sqrt_floor(x) == s);
        }
    } else {
        assert(sqrt_floor(x) == 0);
        assert((sqrt_floor(x) + 1) * (sqrt_floor(x) + 1) == 1) by (nonlinear_arith)
            requires
                sqrt_floor(x) == 0,
        ;
    }
}

/// The square root's characterization is unique.
pub proof fn lemma_sqrt_unique(x: nat, r: nat)
    requires
        r * r <= x,
        x < (r + 1) * (r + 1),
    ensures
        r == sqrt_floor(x),
{
    lemma_sqrt_floor(x);
    let s = sqrt_floor(x);
    assert(r == s) by (nonlinear_arith)
        requires
            r * r <= x < (r + 1) * (r + 1),
            s * s <= x < (s + 1) * (s + 1),
    ;
}

/// Executable integer square root by bisection.
pub fn isqrt(x: i64) -> (r: i64)
    requires
        0 <= x <= SCALE * SCALE,
    ensures
        r == sqrt_floor(x as nat),
        0 <= r <= SCALE,
{
    let mut lo: i64 = 0;
    let mut hi: i64 = SCALE + 1;
    proof {
        assert((SCALE + 1) * (SCALE + 1) > SCALE * SCALE) by (nonlinear_arith);
    }
    while lo + 1 < hi
        invariant
            0 <= lo < hi <= SCALE + 1,
            lo * lo <= x,
            x < hi * hi,
        decreases hi - lo,
    {
        let mid: i64 = lo + (hi - lo) / 2;
        assert(lo < mid < hi);
        assert(mid * mid <= 0x1_0000_0200_0001) by (nonlinear_arith)
            requires
                0 <= mid <= 0x100_0001,
        ;
        if mid * mid <= x {
            lo = mid;
        } else {
            hi = mid;
        }
    }
    proof {
        lemma_sqrt_unique(x as nat, lo as nat);
    }
    lo
}

} // verus!
