//! Sums, halves and whole parts of single-precision numbers.
use crate::rounding;
use crate::scalar;
use crate::scalar::Scalar;
use vstd::arithmetic::mul::*;
use vstd::arithmetic::power2::*;
use vstd::prelude::*;

verus! {

/// `m` doubled `d` times.
fn scaled(m: u128, d: u32) -> (r: u128)
    requires
        m < 0x100_0000,
        d <= 100,
    ensures
        r == m * pow2(d as nat),
        r < 0x1000_0000_0000_0000_0000_0000_0000_0000,
{
    let mut r: u128 = m;
    let mut i: u32 = 0;
    proof {
        lemma2_to64();
    }
    while i < d
        invariant
            i <= d <= 100,
            m < 0x100_0000,
            r == m * pow2(i as nat),
        decreases d - i,
    {
        proof {
            lemma_pow2_unfold((i + 1) as nat);
            lemma_pow2_bound((i + 1) as nat);
            let p = pow2(i as nat);
            assert(m * (2 * p) == 2 * (m * p)) by (nonlinear_arith);
            assert(2 * (m * p) <= 0x100_0000 * (2 * p)) by (nonlinear_arith)
                requires
                    m < 0x100_0000,
            ;
        }
        r = r * 2;
        i = i + 1;
    }
    proof {
        lemma_pow2_bound(d as nat);
        let p = pow2(d as nat);
        lemma_pow2_pos(d as nat);
        assert(m * p < 0x100_0000 * p) by (nonlinear_arith)
            requires
                m < 0x100_0000,
                p > 0,
        ;
    }
    r
}

proof fn lemma_pow2_bound(d: nat)
    requires
        d <= 100,
    ensures
        pow2(d) <= 0x10_0000_0000_0000_0000_0000_0000,
{
    lemma2_to64();
    lemma2_to64_rest();
    lemma_pow2_adds(50, 50);
    assert(pow2(50) == 0x4_0000_0000_0000);
    assert(0x4_0000_0000_0000 * 0x4_0000_0000_0000 == 0x10_0000_0000_0000_0000_0000_0000);
    if d < 100 {
        lemma_pow2_strictly_increases(d, 100);
    }
}

/// `r` is the sum of `a` and `b`: rounded where both are finite, negative
/// zero only where both are negative.
pub open spec fn is_sum(r: Scalar, a: Scalar, b: Scalar) -> bool {
    if a.is_nan() || b.is_nan() || (a.is_infinite() && b.is_infinite() && a.is_negative()
        != b.is_negative()) {
        r.is_nan()
    } else if a.is_infinite() {
        r == a
    } else if b.is_infinite() {
        r == b
    } else {
        &&& !r.is_nan()
        &&& r.value() == rounding::round(a.value() + b.value())
        &&& r.value() == 0 ==> r.is_negative() == (a.is_negative() && b.is_negative())
    }
}

impl Scalar {
    /// The number that rounds `n` units of 2^`s` steps.
    #[verifier::spinoff_prover]
    fn compose(negative: bool, n: u128, s: u32) -> (r: Scalar)
        requires
            s <= 300,
        ensures
            !r.is_nan(),
            r.is_negative() == negative,
            r.size() == rounding::round_size(n as nat * pow2(s as nat)),
    {
        let sign: u32 = if negative { 0x8000_0000 } else { 0 };
        let ghost x = n as nat * pow2(s as nat);
        if n == 0 {
            proof {
                lemma_pow2_pos(0);
                rounding::lemma_round_exact(0, 0);
                assert(scalar::size_of_magnitude(0) == 0);
            }
            return Scalar { bits: sign };
        }
        let mut q: u128 = n;
        let mut k: u32 = 0;
        let mut unit: u128 = 1;
        proof {
            lemma2_to64();
        }
        while q >= 0x100_0000
            invariant
                unit == pow2(k as nat),
                unit > 0,
                q * unit <= n < (q + 1) * unit,
                k > 0 ==> q >= 0x80_0000,
                k == 0 ==> q == n,
                q > 0,
                k <= 128,
            decreases q,
        {
            proof {
                lemma_pow2_unfold((k + 1) as nat);
                let h = q / 2;
                assert(0x100_0000 * unit <= n) by (nonlinear_arith)
                    requires
                        q >= 0x100_0000,
                        q * unit <= n,
                        unit > 0,
                ;
                assert(k < 128) by {
                    if k >= 128 {
                        lemma2_to64();
                        lemma_pow2_adds(64, 64);
                        if k > 128 {
                            lemma_pow2_strictly_increases(128, k as nat);
                        }
                        assert(0x1_0000_0000_0000_0000 * 0x1_0000_0000_0000_0000
                            > 0xffff_ffff_ffff_ffff_ffff_ffff_ffff_ffff);
                    }
                }
                assert(h * (2 * unit) <= n && n < (h + 1) * (2 * unit)) by (nonlinear_arith)
                    requires
                        q * unit <= n,
                        n < (q + 1) * unit,
                        2 * h <= q,
                        q + 1 <= 2 * h + 2,
                        unit > 0,
                ;
            }
            q = q / 2;
            unit = unit * 2;
            k = k + 1;
        }
        let rest: u128 = n - q * unit;
        proof {
            assert(rest < unit) by (nonlinear_arith)
                requires
                    rest == n - q * unit,
                    n < (q + 1) * unit,
            ;
            assert(unit * 2 <= u128::MAX) by {
                if k > 0 {
                    assert(0x80_0000 * unit <= n) by (nonlinear_arith)
                        requires
                            q >= 0x80_0000,
                            q * unit <= n,
                            unit > 0,
                    ;
                }
            }
        }
        let mut t: u32 = s;
        if k == 0 {
            while q < 0x80_0000 && t > 0
                invariant
                    0 < q < 0x100_0000,
                    t <= s,
                    s <= 300,
                    q as nat * pow2(t as nat) == x,
                decreases t,
            {
                proof {
                    lemma_pow2_unfold(t as nat);
                    let h = pow2((t - 1) as nat);
                    assert(q * pow2(t as nat) == (q * 2) * h) by (nonlinear_arith)
                        requires
                            pow2(t as nat) == 2 * h,
                    ;
                }
                q = q * 2;
                t = t - 1;
            }
        }
        let e: u32 = t + k;
        proof {
            lemma_pow2_adds(k as nat, t as nat);
            lemma_pow2_pos(t as nat);
            let p = pow2(t as nat);
            assert(x == q as nat * pow2(e as nat) + rest as nat * p) by {
                if k == 0 {
                    assert(rest == 0);
                    assert(rest * p == 0) by (nonlinear_arith)
                        requires
                            rest == 0,
                    ;
                    assert(e == t);
                    assert(x == q * p);
                } else {
                    assert(t == s);
                    assert(pow2(e as nat) == unit * p);
                    assert(n * p == q * (unit * p) + rest * p) by (nonlinear_arith)
                        requires
                            n == q * unit + rest,
                    ;
                }
            }
            assert(rest * p < unit * p) by (nonlinear_arith)
                requires
                    rest < unit,
                    p > 0,
            ;
            rounding::lemma_round_split(x, q as nat, (rest * p) as nat, e as nat);
            assert((2 * rest > unit) == (2 * (rest * p) > unit * p)) by (nonlinear_arith)
                requires
                    p > 0,
            ;
            assert((2 * rest == unit) == (2 * (rest * p) == unit * p)) by (nonlinear_arith)
                requires
                    p > 0,
            ;
        }
        if 2 * rest > unit || (2 * rest == unit && q % 2 == 1) {
            q = q + 1;
        }
        proof {
            assert(rounding::round_size(x) == rounding::capped(q as nat * pow2(e as nat)));
        }
        if e > 253 {
            proof {
                lemma2_to64();
                lemma_pow2_adds(23, e as nat);
                if e > 254 {
                    lemma_pow2_strictly_increases(277, 23 + e as nat);
                }
                lemma_mul_inequality(0x80_0000, q as int, pow2(e as nat) as int);
                scalar::lemma_infinite_size();
            }
            return Scalar { bits: sign + 0x7f80_0000 };
        }
        let magnitude: u32 = e * 0x80_0000 + q as u32;
        proof {
            scalar::lemma_magnitude_parts(e as nat, q as nat);
            if q < 0x100_0000 {
                rounding::lemma_round_exact(q as nat, e as nat);
            } else {
                lemma2_to64();
                lemma_pow2_adds(24, e as nat);
                if e < 253 {
                    lemma_pow2_strictly_increases(24 + e as nat, 277);
                }
            }
        }
        Scalar { bits: sign + magnitude }
    }

    /// The sum of two finite numbers, the first of which has the larger unit.
    #[verifier::spinoff_prover]
    fn aligned_sum(self, other: Scalar) -> (r: Scalar)
        requires
            self.is_finite(),
            other.is_finite(),
            scalar::unit_exponent(self.magnitude()) >= scalar::unit_exponent(other.magnitude()),
        ensures
            is_sum(r, self, other),
    {
        let e: u32 = other.exponent();
        let d: u32 = self.exponent() - e;
        let ghost m = scalar::significand(self.magnitude());
        let ghost n = scalar::significand(other.magnitude());
        proof {
            scalar::lemma_significand_range(self.magnitude());
            scalar::lemma_significand_range(other.magnitude());
            self.lemma_size_kinds();
            lemma_pow2_adds(d as nat, e as nat);
        }
        if d > 100 {
            proof {
                let u = pow2(d as nat);
                let v = pow2(e as nat);
                lemma2_to64();
                lemma_pow2_pos(e as nat);
                lemma_pow2_strictly_increases(26, d as nat);
                assert(4 * (n * v) < u * v) by (nonlinear_arith)
                    requires
                        n < 0x100_0000,
                        0x400_0000 < u,
                        v > 0,
                ;
                rounding::lemma_round_absorbs(m, (d + e) as nat, other.size());
                assert(self.size() > 0) by (nonlinear_arith)
                    requires
                        self.size() == m * (u * v),
                        m > 0,
                        u > 0,
                        v > 0,
                ;
                let x = self.value() + other.value();
                if self.is_negative() == other.is_negative() {
                    assert(x == self.size() + other.size() || x == -(self.size() + other.size()));
                } else {
                    assert(x == self.size() - other.size() || x == -(self.size() - other.size()));
                }
                assert(rounding::round(x) == self.value());
            }
            return self;
        }
        let p: u128 = scaled(self.units() as u128, d);
        let q: u128 = other.units() as u128;
        let minus: bool = self.bits >= 0x8000_0000;
        let other_minus: bool = other.bits >= 0x8000_0000;
        proof {
            let v = pow2(e as nat);
            assert(self.size() == p * v) by (nonlinear_arith)
                requires
                    self.size() == m * (pow2(d as nat) * v),
                    p == m * pow2(d as nat),
            ;
            assert((p + q) * v == p * v + q * v) by (nonlinear_arith);
            assert((p - q) * v == p * v - q * v) by (nonlinear_arith);
            assert((q - p) * v == q * v - p * v) by (nonlinear_arith);
            lemma_pow2_pos(e as nat);
            assert(p > q ==> p * v > q * v) by (nonlinear_arith)
                requires
                    v > 0,
            ;
            assert(p < q ==> p * v < q * v) by (nonlinear_arith)
                requires
                    v > 0,
            ;
        }
        if minus == other_minus {
            let r: Scalar = Scalar::compose(minus, p + q, e);
            r
        } else if p > q {
            let r: Scalar = Scalar::compose(minus, p - q, e);
            proof {
                lemma_round_nonzero((p - q) as nat * pow2(e as nat));
            }
            r
        } else if p < q {
            let r: Scalar = Scalar::compose(other_minus, q - p, e);
            proof {
                lemma_round_nonzero((q - p) as nat * pow2(e as nat));
            }
            r
        } else {
            proof {
                lemma_pow2_pos(0);
                rounding::lemma_round_exact(0, 0);
                assert(scalar::size_of_magnitude(0) == 0);
            }
            Scalar { bits: 0 }
        }
    }

    /// `self + other`.
    pub fn plus(self, other: Scalar) -> (r: Scalar)
        ensures
            is_sum(r, self, other),
    {
        let m: u32 = self.unsigned();
        let n: u32 = other.unsigned();
        let minus: bool = self.bits >= 0x8000_0000;
        let other_minus: bool = other.bits >= 0x8000_0000;
        if m > 0x7f80_0000 || n > 0x7f80_0000 || (m == 0x7f80_0000 && n == 0x7f80_0000 && minus
            != other_minus) {
            Scalar { bits: 0x7fc0_0000 }
        } else if m == 0x7f80_0000 {
            self
        } else if n == 0x7f80_0000 {
            other
        } else if self.exponent() >= other.exponent() {
            self.aligned_sum(other)
        } else {
            other.aligned_sum(self)
        }
    }

    /// `self - other`.
    pub fn minus(self, other: Scalar) -> (r: Scalar)
        ensures
            is_sum(r, self, other.negation()),
    {
        self.plus(other.negated())
    }
}

/// What is not zero does not round to zero.
proof fn lemma_round_nonzero(x: nat)
    requires
        x > 0,
    ensures
        rounding::round_size(x) > 0,
{
    lemma2_to64();
    rounding::lemma_round_exact(1, 0);
    rounding::lemma_round_monotone(1, x);
}

/// Half of `x` steps, as a whole number of steps, ties to even.
pub open spec fn half_size(x: nat) -> nat {
    if x % 2 == 1 && (x / 2) % 2 == 1 {
        x / 2 + 1
    } else {
        x / 2
    }
}

/// Half of `v` on both sides of zero.
pub open spec fn half(v: int) -> int {
    if v < 0 {
        -(half_size((-v) as nat) as int)
    } else {
        half_size(v as nat) as int
    }
}

/// The whole number at or below `v` steps.
pub open spec fn floor_of(v: int) -> int {
    v / (pow2(149) as int)
}

/// `x`, or the nearest of -2^64 and 2^64 where it lies beyond them.
pub open spec fn clamped(x: int) -> int {
    if x < -0x1_0000_0000_0000_0000 {
        -0x1_0000_0000_0000_0000
    } else if x > 0x1_0000_0000_0000_0000 {
        0x1_0000_0000_0000_0000
    } else {
        x
    }
}

/// `x`, or the end of the range of `isize` that it lies beyond.
pub open spec fn saturated(x: int) -> int {
    if x < isize::MIN {
        isize::MIN as int
    } else if x > isize::MAX {
        isize::MAX as int
    } else {
        x
    }
}

/// `s` is the number nearest to `n`.
pub open spec fn is_number(s: Scalar, n: isize) -> bool {
    &&& !s.is_nan()
    &&& s.value() == rounding::round(n * pow2(149))
    &&& s.is_negative() == (n < 0)
}

impl Scalar {
    /// `self / 2`.
    pub fn halved(self) -> (r: Scalar)
        ensures
            self.is_nan() ==> r.is_nan(),
            self.is_infinite() ==> r == self,
            self.is_finite() ==> r.is_finite() && r.value() == half(self.value()),
            r.is_negative() == self.is_negative(),
    {
        let magnitude: u32 = self.unsigned();
        let sign: u32 = self.bits - magnitude;
        if magnitude >= 0x7f80_0000 {
            self
        } else if magnitude < 0x100_0000 {
            proof {
                lemma2_to64();
                assert(scalar::significand(self.magnitude()) == self.magnitude());
                assert(self.size() == magnitude * 1);
            }
            let q: u32 = magnitude / 2;
            if magnitude % 2 == 1 && q % 2 == 1 {
                proof {
                    assert(scalar::significand((q + 1) as nat) == q + 1);
                    assert(scalar::size_of_magnitude((q + 1) as nat) == (q + 1) * 1);
                }
                Scalar { bits: sign + q + 1 }
            } else {
                proof {
                    assert(scalar::significand(q as nat) == q);
                    assert(scalar::size_of_magnitude(q as nat) == q * 1);
                }
                Scalar { bits: sign + q }
            }
        } else {
            proof {
                let e = scalar::unit_exponent(magnitude as nat);
                let m = scalar::significand(magnitude as nat);
                scalar::lemma_significand_range(magnitude as nat);
                lemma_pow2_unfold(e);
                scalar::lemma_magnitude_parts((e - 1) as nat, m);
                let h = m * pow2((e - 1) as nat);
                assert(m * pow2(e) == 2 * h) by (nonlinear_arith)
                    requires
                        pow2(e) == 2 * pow2((e - 1) as nat),
                        h == m * pow2((e - 1) as nat),
                ;
                assert((e - 1) * 0x80_0000 + m == magnitude - 0x80_0000);
                assert(scalar::size_of_magnitude((magnitude - 0x80_0000) as nat) == h);
                assert(half_size(self.size()) == h);
            }
            let r: Scalar = Scalar { bits: sign + (magnitude - 0x80_0000) };
            assert(r.magnitude() == magnitude - 0x80_0000);
            r
        }
    }

    /// The largest whole number that is not above `self`, within 2^64 of zero.
    #[verifier::spinoff_prover]
    pub(crate) fn wide_floor(self) -> (r: i128)
        requires
            !self.is_nan(),
        ensures
            r == clamped(floor_of(self.value())),
    {
        let minus: bool = self.bits >= 0x8000_0000;
        let m: u128 = self.units() as u128;
        let e: u32 = self.exponent();
        proof {
            scalar::lemma_significand_range(self.magnitude());
            lemma_pow2_pos(149);
        }
        let ghost w = pow2(149);
        if e > 212 {
            proof {
                lemma2_to64();
                lemma_pow2_adds(64, 149);
                if e > 213 {
                    lemma_pow2_strictly_increases(213, e as nat);
                }
                assert(self.size() >= 0x1_0000_0000_0000_0000 * w) by (nonlinear_arith)
                    requires
                        self.size() == m * pow2(e as nat),
                        m >= 1,
                        pow2(e as nat) >= 0x1_0000_0000_0000_0000 * w,
                ;
                lemma_floor_bounds(self.value(), 0x1_0000_0000_0000_0000);
            }
            return if minus {
                -0x1_0000_0000_0000_0000
            } else {
                0x1_0000_0000_0000_0000
            };
        }
        // The whole part, and whether there is more.
        let mut whole: u128 = 0;
        let mut more: bool = false;
        let ghost mut rest: int = 0;
        if e >= 149 {
            whole = scaled(m, e - 149);
            proof {
                lemma_pow2_adds((e - 149) as nat, 149);
                assert(self.size() == whole * w) by (nonlinear_arith)
                    requires
                        self.size() == m * pow2(e as nat),
                        pow2(e as nat) == pow2((e - 149) as nat) * w,
                        whole == m * pow2((e - 149) as nat),
                ;
                assert(more == (rest > 0));
            }
        } else if e >= 49 {
            let unit: u128 = scaled(1, 149 - e);
            proof {
                lemma_pow2_pos((149 - e) as nat);
            }
            whole = m / unit;
            more = m % unit != 0;
            proof {
                lemma_pow2_adds((149 - e) as nat, e as nat);
                let p = pow2(e as nat);
                lemma_pow2_pos(e as nat);
                vstd::arithmetic::div_mod::lemma_fundamental_div_mod(m as int, unit as int);
                let k = (m % unit) as int;
                rest = k * p;
                assert(self.size() == whole * w + rest) by (nonlinear_arith)
                    requires
                        self.size() == m * p,
                        w == unit * p,
                        m == unit * whole + k,
                        rest == k * p,
                ;
                assert(0 <= rest < w && (k > 0 ==> rest > 0) && (k == 0 ==> rest == 0))
                    by (nonlinear_arith)
                    requires
                        rest == k * p,
                        0 <= k < unit,
                        w == unit * p,
                        p > 0,
                ;
                assert(more == (rest > 0));
            }
        } else {
            more = m != 0;
            proof {
                let p = pow2(e as nat);
                lemma2_to64();
                lemma_pow2_adds((149 - e) as nat, e as nat);
                lemma_pow2_strictly_increases(24, (149 - e) as nat);
                lemma_pow2_pos(e as nat);
                assert(m * p < w) by (nonlinear_arith)
                    requires
                        m < 0x100_0000,
                        w == pow2((149 - e) as nat) * p,
                        0x100_0000 < pow2((149 - e) as nat),
                        p > 0,
                ;
                rest = m * p;
                assert(rest >= 0 && (m > 0 ==> rest > 0) && (m == 0 ==> rest == 0))
                    by (nonlinear_arith)
                    requires
                        rest == m * p,
                        p > 0,
                ;
                assert(more == (rest > 0));
            }
        }
        proof {
            assert(self.size() == whole * w + rest);
            assert(0 <= rest < w);
            assert(more == (rest > 0));
            if minus {
                if more {
                    assert(self.value() == (-(whole + 1)) * w + (w - rest)) by (nonlinear_arith)
                        requires
                            self.value() == -(whole * w + rest),
                    ;
                    vstd::arithmetic::div_mod::lemma_fundamental_div_mod_converse(
                        self.value(),
                        w as int,
                        -(whole + 1),
                        w - rest,
                    );
                } else {
                    assert(self.value() == (-(whole as int)) * w + 0) by (nonlinear_arith)
                        requires
                            self.value() == -(whole * w),
                    ;
                    vstd::arithmetic::div_mod::lemma_fundamental_div_mod_converse(
                        self.value(),
                        w as int,
                        -(whole as int),
                        0,
                    );
                }
            } else {
                vstd::arithmetic::div_mod::lemma_fundamental_div_mod_converse(
                    self.value(),
                    w as int,
                    whole as int,
                    rest,
                );
            }
        }
        let below: i128 = if minus {
            if more {
                -(whole as i128) - 1
            } else {
                -(whole as i128)
            }
        } else {
            whole as i128
        };
        if below < -0x1_0000_0000_0000_0000 {
            -0x1_0000_0000_0000_0000
        } else if below > 0x1_0000_0000_0000_0000 {
            0x1_0000_0000_0000_0000
        } else {
            below
        }
    }

    /// The largest whole number that is not above `self`, or the nearest end
    /// of the range of `isize`; zero where `self` is not a number.
    pub fn floor(self) -> (r: isize)
        ensures
            self.is_nan() ==> r == 0,
            !self.is_nan() ==> r == saturated(floor_of(self.value())),
    {
        if self.unsigned() > 0x7f80_0000 {
            return 0;
        }
        let below: i128 = self.wide_floor();
        if below < isize::MIN as i128 {
            isize::MIN
        } else if below > isize::MAX as i128 {
            isize::MAX
        } else {
            below as isize
        }
    }

    /// The number nearest to `x`.
    pub fn from_isize(x: isize) -> (r: Scalar)
        ensures
            is_number(r, x),
    {
        proof {
            lemma_pow2_pos(149);
            assert(x < 0 ==> x * pow2(149) < 0) by (nonlinear_arith)
                requires
                    pow2(149) > 0,
            ;
            assert(x >= 0 ==> x * pow2(149) >= 0) by (nonlinear_arith)
                requires
                    pow2(149) > 0,
            ;
            assert((-x) * pow2(149) == -(x * pow2(149))) by (nonlinear_arith);
        }
        if x < 0 {
            Scalar::compose(true, (-(x as i128)) as u128, 149)
        } else {
            Scalar::compose(false, x as u128, 149)
        }
    }
}

/// There is one number nearest to `n`.
pub proof fn lemma_is_number_unique(a: Scalar, b: Scalar, n: isize)
    requires
        is_number(a, n),
        is_number(b, n),
    ensures
        a == b,
{
    a.lemma_order_rank(b);
}

/// A number of at least `n` in size has its floor that far from zero.
pub proof fn lemma_floor_bounds(v: int, n: nat)
    ensures
        v >= n * pow2(149) ==> floor_of(v) >= n,
        v <= -(n * pow2(149)) ==> floor_of(v) <= -(n as int),
{
    lemma_pow2_pos(149);
    let w = pow2(149) as int;
    vstd::arithmetic::div_mod::lemma_fundamental_div_mod(v, w);
    let q = v / w;
    if v >= n * w {
        assert(q >= n) by (nonlinear_arith)
            requires
                v == w * q + v % w,
                v % w < w,
                v >= n * w,
                w > 0,
        ;
    }
    if v <= -(n * w) {
        assert(q <= -n) by (nonlinear_arith)
            requires
                v == w * q + v % w,
                v % w >= 0,
                v <= -(n * w),
                w > 0,
        ;
    }
}

/// How far the value of `s` is from `x` steps.
pub open spec fn error(s: Scalar, x: int) -> int {
    if s.value() < x {
        x - s.value()
    } else {
        s.value() - x
    }
}

/// No number is nearer to the exact sum of two finite numbers than what
/// `plus` gives.
pub proof fn law_sum_is_nearest(r: Scalar, a: Scalar, b: Scalar, c: Scalar)
    requires
        a.is_finite(),
        b.is_finite(),
        is_sum(r, a, b),
        !c.is_nan(),
    ensures
        error(r, a.value() + b.value()) <= error(c, a.value() + b.value()),
{
    let x = a.value() + b.value();
    let size = (if x < 0 { -x } else { x }) as nat;
    let m = scalar::significand(c.magnitude());
    let e = scalar::unit_exponent(c.magnitude());
    scalar::lemma_significand_range(c.magnitude());
    c.lemma_size_kinds();
    if c.is_finite() {
        rounding::lemma_round_nearest(size, m, e);
    } else {
        rounding::lemma_round_nearest(size, 0, 0);
    }
    rounding::lemma_round_nearest(size, 0, 0);
}

} // verus!
