//! Rounding of exact sizes to the sizes that single-precision numbers have.
//!
//! A size is a natural number of steps, where one step is the smallest
//! positive single-precision number, 2^-149. Every finite number is a whole
//! number of steps, and so is every sum of two of them.
use vstd::arithmetic::div_mod::*;
use vstd::arithmetic::mul::*;
use vstd::arithmetic::power2::*;
use vstd::prelude::*;

verus! {

/// The distance between neighbouring numbers of 24 significant bits in the
/// binade of `x`.
pub open spec fn ulp(x: nat) -> nat
    decreases x,
{
    if x < 0x100_0000 {
        1
    } else {
        2 * ulp(x / 2)
    }
}

/// The size that stands for infinity: one unit past the largest finite one.
pub open spec fn infinity() -> nat {
    pow2(277)
}

/// `size`, with infinity in place of everything beyond it.
pub open spec fn capped(size: nat) -> nat {
    if size < infinity() {
        size
    } else {
        infinity()
    }
}

/// `q` units and `rest` rounded to a whole number of units, ties to even.
pub open spec fn to_units(q: nat, rest: nat, unit: nat) -> nat {
    if 2 * rest > unit || (2 * rest == unit && q % 2 == 1) {
        (q + 1) * unit
    } else {
        q * unit
    }
}

/// `x` rounded to 24 significant bits, ties to even; infinity past the range.
pub open spec fn round_size(x: nat) -> nat {
    capped(to_units(x / ulp(x), x % ulp(x), ulp(x)))
}

/// `round_size` on both sides of zero.
pub open spec fn round(x: int) -> int {
    if x < 0 {
        -(round_size((-x) as nat) as int)
    } else {
        round_size(x as nat) as int
    }
}

/// The unit of `x` is a power of two of which `x` holds 2^23 up to 2^24,
/// or one step where `x` is smaller than that.
pub proof fn lemma_ulp_exponent(x: nat) -> (j: nat)
    ensures
        ulp(x) == pow2(j),
        x < 0x100_0000 * pow2(j),
        j == 0 <==> x < 0x100_0000,
        j > 0 ==> 0x80_0000 * pow2(j) <= x,
    decreases x,
{
    lemma2_to64();
    if x < 0x100_0000 {
        0
    } else {
        let i = lemma_ulp_exponent(x / 2);
        lemma_pow2_unfold(i + 1);
        i + 1
    }
}

/// The exponent of the unit is determined by the bounds.
pub proof fn lemma_ulp_unique(x: nat, j: nat)
    requires
        x < 0x100_0000 * pow2(j),
        j > 0 ==> 0x80_0000 * pow2(j) <= x,
    ensures
        ulp(x) == pow2(j),
{
    lemma2_to64();
    let i = lemma_ulp_exponent(x);
    if i < j {
        lemma_pow2_strictly_increases(i, j);
        if i + 1 < j {
            lemma_pow2_strictly_increases(i + 1, j);
        }
        lemma_pow2_unfold(i + 1);
    } else if j < i {
        lemma_pow2_strictly_increases(j, i);
        if j + 1 < i {
            lemma_pow2_strictly_increases(j + 1, i);
        }
        lemma_pow2_unfold(j + 1);
    }
}

/// Rounding, where `x` is already split into units of its binade.
pub proof fn lemma_round_split(x: nat, q: nat, rest: nat, j: nat)
    requires
        x == q * pow2(j) + rest,
        rest < pow2(j),
        q < 0x100_0000,
        j > 0 ==> 0x80_0000 <= q,
    ensures
        round_size(x) == capped(to_units(q, rest, pow2(j))),
{
    lemma_pow2_pos(j);
    let u = pow2(j);
    assert(x < 0x100_0000 * u) by (nonlinear_arith)
        requires
            x == q * u + rest,
            rest < u,
            q < 0x100_0000,
    ;
    if j > 0 {
        assert(0x80_0000 * u <= x) by (nonlinear_arith)
            requires
                x == q * u + rest,
                0x80_0000 <= q,
        ;
    }
    lemma_ulp_unique(x, j);
    lemma_fundamental_div_mod_converse(x as int, u as int, q as int, rest as int);
}

/// What fits in 24 significant bits is left as it is.
pub proof fn lemma_round_exact(m: nat, e: nat)
    requires
        m < 0x100_0000,
        e <= 253,
    ensures
        round_size(m * pow2(e)) == m * pow2(e),
        m * pow2(e) < infinity(),
    decreases e,
{
    lemma2_to64();
    lemma_below_infinity(m, e);
    if e > 0 && m < 0x80_0000 {
        lemma_pow2_unfold(e);
        assert(m * pow2(e) == (2 * m) * pow2((e - 1) as nat)) by (nonlinear_arith)
            requires
                pow2(e) == 2 * pow2((e - 1) as nat),
        ;
        lemma_round_exact(2 * m, (e - 1) as nat);
    } else {
        lemma_pow2_pos(e);
        lemma_round_split(m * pow2(e), m, 0, e);
    }
}

proof fn lemma_below_infinity(m: nat, e: nat)
    requires
        m < 0x100_0000,
        e <= 253,
    ensures
        m * pow2(e) < infinity(),
{
    lemma2_to64();
    lemma_pow2_adds(24, e);
    if e < 253 {
        lemma_pow2_strictly_increases(24 + e, 277);
    }
    lemma_pow2_pos(e);
    assert(m * pow2(e) < 0x100_0000 * pow2(e)) by (nonlinear_arith)
        requires
            m < 0x100_0000,
            pow2(e) > 0,
    ;
}

/// Rounding keeps order.
pub proof fn lemma_round_monotone(x: nat, y: nat)
    requires
        x <= y,
    ensures
        round_size(x) <= round_size(y),
{
    let i = lemma_ulp_exponent(x);
    let j = lemma_ulp_exponent(y);
    lemma_pow2_pos(i);
    lemma_pow2_pos(j);
    let (u, v) = (pow2(i), pow2(j));
    let (p, q) = (x / u, y / v);
    lemma_fundamental_div_mod(x as int, u as int);
    lemma_fundamental_div_mod(y as int, v as int);
    if i == j {
        lemma_div_is_ordered(x as int, y as int, u as int);
        if p < q {
            lemma_mul_inequality(p as int + 1, q as int, u as int);
        }
        assert((q + 1) * u == q * u + u && (p + 1) * u == p * u + u) by (nonlinear_arith);
    } else {
        if j < i {
            assert(0x80_0000 * u <= x && y < 0x100_0000 * v);
            lemma_pow2_unfold((j + 1) as nat);
            if j + 1 < i {
                lemma_pow2_strictly_increases(j + 1, i);
            }
            assert(false);
        }
        lemma_pow2_unfold((i + 1) as nat);
        if i + 1 < j {
            lemma_pow2_strictly_increases(i + 1, j);
        }
        assert(p < 0x100_0000) by (nonlinear_arith)
            requires
                x == u * p + x % u,
                0 <= x % u,
                x < 0x100_0000 * u,
                u > 0,
        ;
        assert(q >= 0x80_0000) by (nonlinear_arith)
            requires
                y == v * q + y % v,
                y % v < v,
                y >= 0x80_0000 * v,
                v > 0,
        ;
        lemma_mul_inequality(p as int + 1, 0x100_0000, u as int);
        lemma_mul_inequality(p as int, 0x100_0000, u as int);
        lemma_mul_inequality(0x80_0000, q as int, v as int);
        lemma_mul_inequality(0x80_0000, q as int + 1, v as int);
    }
}

/// How far apart two sizes are.
pub open spec fn gap(a: nat, b: nat) -> nat {
    if a < b {
        (b - a) as nat
    } else {
        (a - b) as nat
    }
}

/// Past infinity everything is infinity.
proof fn lemma_round_past_infinity(x: nat)
    requires
        x >= infinity(),
    ensures
        round_size(x) == infinity(),
{
    lemma2_to64();
    lemma_pow2_pos(254);
    lemma_pow2_adds(23, 254);
    lemma_round_split(infinity(), 0x80_0000, 0, 254);
    lemma_round_monotone(infinity(), x);
}

/// The result is the nearest size that a single-precision number can have:
/// neither a size of at most 24 significant bits nor infinity is nearer to `x`.
pub proof fn lemma_round_nearest(x: nat, m: nat, e: nat)
    requires
        m < 0x100_0000,
        e <= 253,
    ensures
        gap(round_size(x), x) <= gap(m * pow2(e), x),
        gap(round_size(x), x) <= gap(infinity(), x),
{
    if x > infinity() {
        lemma_round_past_infinity(x);
        lemma_below_infinity(m, e);
    } else {
        lemma_round_nearest_in_range(x, m, e);
    }
}

proof fn lemma_round_nearest_in_range(x: nat, m: nat, e: nat)
    requires
        x <= infinity(),
        m < 0x100_0000,
        e <= 253,
    ensures
        gap(round_size(x), x) <= gap(m * pow2(e), x),
        gap(round_size(x), x) <= gap(infinity(), x),
{
    let j = lemma_ulp_exponent(x);
    lemma_pow2_pos(j);
    lemma_pow2_pos(e);
    let u = pow2(j);
    let q = x / u;
    lemma_fundamental_div_mod(x as int, u as int);
    assert((q + 1) * u == q * u + u) by (nonlinear_arith);
    let c = m * pow2(e);
    // No such size lies strictly between the two neighbours of `x`.
    assert(c <= q * u || c >= (q + 1) * u) by {
        if e >= j {
            lemma_pow2_adds((e - j) as nat, j);
            let k = m * pow2((e - j) as nat);
            assert(c == k * u) by (nonlinear_arith)
                requires
                    c == m * pow2(e),
                    pow2(e) == pow2((e - j) as nat) * u,
                    k == m * pow2((e - j) as nat),
            ;
            if k <= q {
                lemma_mul_inequality(k as int, q as int, u as int);
            } else {
                lemma_mul_inequality(q as int + 1, k as int, u as int);
            }
        } else {
            lemma_pow2_unfold(e + 1);
            if e + 1 < j {
                lemma_pow2_strictly_increases(e + 1, j);
            }
            assert(c <= 0x80_0000 * u) by (nonlinear_arith)
                requires
                    c == m * pow2(e),
                    m < 0x100_0000,
                    2 * pow2(e) <= u,
            ;
            assert(q >= 0x80_0000) by (nonlinear_arith)
                requires
                    x == u * q + x % u,
                    x % u < u,
                    x >= 0x80_0000 * u,
                    u > 0,
            ;
            lemma_mul_inequality(0x80_0000, q as int, u as int);
        }
    }
    assert(q * u == u * q) by (nonlinear_arith);
    // Infinity is itself a whole number of units.
    assert((q + 1) * u <= infinity() || q * u == infinity()) by {
        lemma2_to64();
        if j > 254 {
            lemma_pow2_adds(23, j);
            lemma_pow2_strictly_increases(277, 23 + j);
        } else {
            lemma_pow2_adds((277 - j) as nat, j);
            let k = pow2((277 - j) as nat);
            assert(infinity() == k * u);
            if q + 1 <= k {
                lemma_mul_inequality(q as int + 1, k as int, u as int);
            } else {
                lemma_mul_inequality(k as int, q as int, u as int);
            }
        }
    }
}

/// A number of 24 significant bits absorbs what is less than a quarter of
/// its unit, on either side.
pub proof fn lemma_round_absorbs(m: nat, e: nat, d: nat)
    requires
        0x80_0000 <= m < 0x100_0000,
        0 < e <= 253,
        4 * d < pow2(e),
    ensures
        round_size(m * pow2(e) + d) == m * pow2(e),
        d < m * pow2(e),
        round_size((m * pow2(e) - d) as nat) == m * pow2(e),
{
    lemma_pow2_pos(e);
    lemma_round_exact(m, e);
    let u = pow2(e);
    lemma_round_split(m * u + d, m, d, e);
    assert(d < m * u) by (nonlinear_arith)
        requires
            0x80_0000 <= m,
            4 * d < u,
    ;
    let x = (m * u - d) as nat;
    if d == 0 {
    } else if m > 0x80_0000 {
        assert(x == (m - 1) * u + (u - d)) by (nonlinear_arith)
            requires
                x == m * u - d,
        ;
        lemma_round_split(x, (m - 1) as nat, (u - d) as nat, e);
    } else {
        lemma_pow2_unfold(e);
        let h = pow2((e - 1) as nat);
        assert(x == 0xff_ffff * h + (h - d)) by (nonlinear_arith)
            requires
                x == m * u - d,
                m == 0x80_0000,
                u == 2 * h,
        ;
        lemma_round_split(x, 0xff_ffff, (h - d) as nat, (e - 1) as nat);
        assert(0x100_0000 * h == m * u) by (nonlinear_arith)
            requires
                m == 0x80_0000,
                u == 2 * h,
        ;
    }
}

} // verus!
