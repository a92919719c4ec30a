//! Sums, differences, products and quotients of binary64 numbers, each the
//! exact result rounded to nearest, ties to even.
use crate::number::{
    lemma_named_powers, lemma_worth_increases, units, worth, Num, INFINITE, SIGN, STEP,
};
use crate::rounding::{
    bit_length, lemma_exact_is_nearest, lemma_nearest_exists, lemma_nearest_is_one,
    lemma_worth_of_parts, nearest_even, pack, two_to,
};
use vstd::arithmetic::div_mod::lemma_fundamental_div_mod;
use vstd::arithmetic::power2::{
    lemma2_to64, lemma_pow2_adds, lemma_pow2_pos, lemma_pow2_strictly_increases, pow2,
};
use vstd::prelude::*;

verus! {

/// The bits given to a result that is not a number.
pub const NAN: u64 = 0x7FF8_0000_0000_0000;

/// The number nearest to `n / d`, counted in units of 2^-1074.
pub open spec fn rounded(negative: bool, n: int, d: int) -> Num {
    let m = choose|m: int| nearest_even(n, d, m);
    signed(negative, m)
}

/// A magnitude under a sign.
pub open spec fn signed(negative: bool, m: int) -> Num {
    Num {
        bits: (if negative {
            SIGN + m
        } else {
            m
        }) as u64,
    }
}

impl Num {
    pub open spec fn is_infinite(self) -> bool {
        self.magnitude() == INFINITE
    }

    pub open spec fn is_zero(self) -> bool {
        self.magnitude() == 0
    }

    /// `-self`.
    pub open spec fn opposite(self) -> Num {
        signed(!self.negative(), self.magnitude())
    }

    /// `self + other`.
    #[verifier::opaque]
    pub open spec fn plus(self, other: Num) -> Num {
        let exact = self.value() + other.value();
        if self.is_nan() || other.is_nan() {
            Num { bits: NAN }
        } else if self.is_infinite() && other.is_infinite() && self.negative()
            != other.negative() {
            Num { bits: NAN }
        } else if self.is_infinite() {
            self
        } else if other.is_infinite() {
            other
        } else if exact == 0 {
            signed(self.negative() && other.negative(), 0)
        } else {
            rounded(
                exact < 0,
                if exact < 0 {
                    -exact
                } else {
                    exact
                },
                1,
            )
        }
    }

    /// `self - other`.
    pub open spec fn minus(self, other: Num) -> Num {
        self.plus(other.opposite())
    }

    /// `self * other`.
    #[verifier::opaque]
    pub open spec fn times(self, other: Num) -> Num {
        let negative = self.negative() != other.negative();
        if self.is_nan() || other.is_nan() {
            Num { bits: NAN }
        } else if self.is_infinite() || other.is_infinite() {
            if self.is_zero() || other.is_zero() {
                Num { bits: NAN }
            } else {
                signed(negative, INFINITE as int)
            }
        } else if self.is_zero() || other.is_zero() {
            signed(negative, 0)
        } else {
            rounded(
                negative,
                worth(self.magnitude()) * worth(other.magnitude()),
                pow2(1074) as int,
            )
        }
    }

    /// `self / other`.
    #[verifier::opaque]
    pub open spec fn over(self, other: Num) -> Num {
        let negative = self.negative() != other.negative();
        if self.is_nan() || other.is_nan() {
            Num { bits: NAN }
        } else if self.is_infinite() {
            if other.is_infinite() {
                Num { bits: NAN }
            } else {
                signed(negative, INFINITE as int)
            }
        } else if other.is_zero() {
            if self.is_zero() {
                Num { bits: NAN }
            } else {
                signed(negative, INFINITE as int)
            }
        } else if other.is_infinite() || self.is_zero() {
            signed(negative, 0)
        } else {
            rounded(
                negative,
                worth(self.magnitude()) * pow2(1074),
                worth(other.magnitude()),
            )
        }
    }
}

/// A magnitude found to be the nearest, under its sign.
fn sign(
    negative: bool,
    m: u64,
    Ghost(n): Ghost<int>,
    Ghost(d): Ghost<int>,
) -> (r: Num)
    requires
        d > 0,
        nearest_even(n, d, m as int),
    ensures
        r == rounded(negative, n, d),
{
    proof {
        let chosen = choose|k: int| nearest_even(n, d, k);
        lemma_nearest_is_one(n, d, m as int, chosen);
    }
    if negative {
        Num { bits: SIGN + m }
    } else {
        Num { bits: m }
    }
}

fn bare(negative: bool, m: u64) -> (r: Num)
    requires
        m <= INFINITE,
    ensures
        r == signed(negative, m as int),
{
    if negative {
        Num { bits: SIGN + m }
    } else {
        Num { bits: m }
    }
}

impl Num {
    /// The significand and the power of two that a finite number is the
    /// product of.
    fn parts(self) -> (p: (u64, u32))
        ensures
            worth(self.magnitude()) == p.0 * pow2(p.1 as nat),
            p.0 < 2 * STEP,
            p.1 <= 2046,
            p.1 > 0 ==> p.0 >= STEP,
            p.0 == 0 <==> self.magnitude() == 0,
    {
        let magnitude: u64 = self.bits % SIGN;
        let exponent: u64 = magnitude / STEP;
        let fraction: u64 = magnitude % STEP;
        proof {
            lemma_named_powers();
            assert(fraction * pow2(0) == fraction);
        }
        if exponent == 0 {
            (fraction, 0)
        } else {
            (STEP + fraction, (exponent - 1) as u32)
        }
    }

    /// `-self`.
    pub fn neg(self) -> (r: Num)
        ensures
            r == self.opposite(),
    {
        if self.bits >= SIGN {
            Num { bits: self.bits - SIGN }
        } else {
            Num { bits: self.bits + SIGN }
        }
    }

    /// `self * other`.
    pub fn mul(self, other: Num) -> (r: Num)
        ensures
            r == self.times(other),
    {
        proof {
            reveal(Num::times);
        }
        let negative: bool = (self.bits >= SIGN) != (other.bits >= SIGN);
        let x: u64 = self.bits % SIGN;
        let y: u64 = other.bits % SIGN;
        if x > INFINITE || y > INFINITE {
            return Num { bits: NAN };
        }
        if x == INFINITE || y == INFINITE {
            return if x == 0 || y == 0 {
                Num { bits: NAN }
            } else {
                bare(negative, INFINITE)
            };
        }
        if x == 0 || y == 0 {
            return bare(negative, 0);
        }
        let p: (u64, u32) = self.parts();
        let q: (u64, u32) = other.parts();
        proof {
            let (s, t) = (p.0 as int, q.0 as int);
            assert(0 < s * t < 0x8000_0000_0000_0000_0000_0000_0000) by (nonlinear_arith)
                requires
                    0 < s < 0x20_0000_0000_0000,
                    0 < t < 0x20_0000_0000_0000,
            ;
        }
        let sig: u128 = (p.0 as u128) * (q.0 as u128);
        let exp: i64 = p.1 as i64 + q.1 as i64 - 1074;
        let ghost a = (p.1 + q.1) as nat;
        let ghost n = worth(x as int) * worth(y as int);
        let ghost d = pow2(1074) as int;
        proof {
            lemma_pow2_pos(1074);
            lemma_pow2_adds(p.1 as nat, q.1 as nat);
            let (s, t, e, f) = (
                p.0 as int,
                q.0 as int,
                pow2(p.1 as nat) as int,
                pow2(q.1 as nat) as int,
            );
            assert((s * t) * (d * (e * f)) == ((s * e) * (t * f)) * d) by (nonlinear_arith);
        }
        let m: u64 = pack(sig, exp, false, Ghost(a), Ghost(1074nat), Ghost(n), Ghost(d));
        sign(negative, m, Ghost(n), Ghost(d))
    }

    /// `self / other`.
    pub fn div(self, other: Num) -> (r: Num)
        ensures
            r == self.over(other),
    {
        proof {
            reveal(Num::over);
        }
        let negative: bool = (self.bits >= SIGN) != (other.bits >= SIGN);
        let x: u64 = self.bits % SIGN;
        let y: u64 = other.bits % SIGN;
        if x > INFINITE || y > INFINITE {
            return Num { bits: NAN };
        }
        if x == INFINITE {
            return if y == INFINITE {
                Num { bits: NAN }
            } else {
                bare(negative, INFINITE)
            };
        }
        if y == 0 {
            return if x == 0 {
                Num { bits: NAN }
            } else {
                bare(negative, INFINITE)
            };
        }
        if y == INFINITE || x == 0 {
            return bare(negative, 0);
        }
        let p: (u64, u32) = self.parts();
        let q: (u64, u32) = other.parts();
        let top: (u64, u32) = filled(p.0);
        let under: (u64, u32) = filled(q.0);
        let wide: u128 = (top.0 as u128) * 0x1_0000_0000_0000_0000;
        let sig: u128 = wide / (under.0 as u128);
        let inexact: bool = wide % (under.0 as u128) != 0;
        let exp: i64 = p.1 as i64 - top.1 as i64 - q.1 as i64 + under.1 as i64 + 1010;
        let ghost a = (under.1 + p.1 + 1010) as nat;
        let ghost b = (top.1 + q.1) as nat;
        let ghost n = worth(x as int) * pow2(1074);
        let ghost d = worth(y as int);
        proof {
            lemma_worth_increases(0, y as int);
            let (w, u, k) = (wide as int, under.0 as int, sig as int);
            lemma_fundamental_div_mod(w, u);
            assert(u * k == k * u) by (nonlinear_arith);
            assert(k >= 0x40_0000_0000_0000) by (nonlinear_arith)
                requires
                    w < k * u + u,
                    w >= STEP * 0x1_0000_0000_0000_0000,
                    0 < u < 2 * STEP,
            ;
            assert(k <= w) by (nonlinear_arith)
                requires
                    k * u <= w,
                    u > 0,
                    k >= 0,
            ;
            assert((k + 1) * u == k * u + u) by (nonlinear_arith);
            lemma_quotient_stands(
                p.0 as int,
                p.1 as nat,
                top.1 as nat,
                q.0 as int,
                q.1 as nat,
                under.1 as nat,
                k,
            );
            lemma_quotient_stands(
                p.0 as int,
                p.1 as nat,
                top.1 as nat,
                q.0 as int,
                q.1 as nat,
                under.1 as nat,
                k + 1,
            );
        }
        let m: u64 = pack(sig, exp, inexact, Ghost(a), Ghost(b), Ghost(n), Ghost(d));
        sign(negative, m, Ghost(n), Ghost(d))
    }
}

/// A significand moved up until its first bit is set, and how far it moved.
fn filled(s: u64) -> (r: (u64, u32))
    requires
        0 < s < 2 * STEP,
    ensures
        STEP <= r.0 < 2 * STEP,
        r.0 == s * pow2(r.1 as nat),
        r.1 <= 52,
{
    let l: u32 = bit_length(s as u128);
    let ghost k = (53 - l) as nat;
    proof {
        lemma_named_powers();
        lemma_pow2_adds(52, 1);
        if l > 53 {
            lemma_pow2_adds(53, (l - 1 - 53) as nat);
            let p = pow2((l - 1 - 53) as nat) as int;
            lemma_pow2_pos((l - 1 - 53) as nat);
            assert((2 * STEP) * p >= 2 * STEP) by (nonlinear_arith)
                requires
                    p >= 1,
            ;
        }
        lemma_pow2_adds((l - 1) as nat, k);
        lemma_pow2_adds(l as nat, k);
        lemma_pow2_pos(k);
        let (x, p, lo, hi) = (
            s as int,
            pow2(k) as int,
            pow2((l - 1) as nat) as int,
            pow2(l as nat) as int,
        );
        assert(lo * p <= x * p < hi * p) by (nonlinear_arith)
            requires
                lo <= x < hi,
                p > 0,
        ;
    }
    let p: u128 = two_to(53 - l);
    ((s as u128 * p) as u64, 53 - l)
}

/// How a quotient of moved significands compares is how the quotient of the
/// numbers does.
proof fn lemma_quotient_stands(s: int, e: nat, i: nat, t: int, f: nat, j: nat, k: int)
    requires
        s > 0,
        t > 0,
    ensures
        ({
            let wide = (s * pow2(i)) * 0x1_0000_0000_0000_0000;
            let part = k * (t * pow2(j));
            let left = k * ((t * pow2(f)) * pow2(j + e + 1010));
            let right = ((s * pow2(e)) * pow2(1074)) * pow2(i + f);
            &&& part < wide <==> left < right
            &&& part == wide <==> left == right
            &&& part > wide <==> left > right
        }),
{
    let wide = (s * pow2(i)) * 0x1_0000_0000_0000_0000;
    let part = k * (t * pow2(j));
    let left = k * ((t * pow2(f)) * pow2(j + e + 1010));
    let right = ((s * pow2(e)) * pow2(1074)) * pow2(i + f);
    let (pe, pf, pi, pj, rest) = (
        pow2(e) as int,
        pow2(f) as int,
        pow2(i) as int,
        pow2(j) as int,
        pow2(1010) as int,
    );
    lemma_named_powers();
    lemma_pow2_adds(32, 32);
    lemma_pow2_adds(1010, 64);
    lemma_pow2_adds(i, f);
    lemma_pow2_adds(j, e);
    lemma_pow2_adds(j + e, 1010);
    lemma_pow2_pos(e);
    lemma_pow2_pos(f);
    lemma_pow2_pos(1010);
    let scale = pe * pf * rest;
    assert(scale > 0) by (nonlinear_arith)
        requires
            scale == pe * pf * rest,
            pe > 0,
            pf > 0,
            rest > 0,
    ;
    assert(k * ((t * pf) * ((pj * pe) * rest)) == (k * (t * pj)) * (pe * pf * rest))
        by (nonlinear_arith);
    let big = 0x1_0000_0000_0000_0000int;
    assert(((s * pe) * (rest * big)) * (pi * pf) == ((s * pi) * big) * (pe * pf * rest))
        by (nonlinear_arith);
    assert(part < wide <==> part * scale < wide * scale) by (nonlinear_arith)
        requires
            scale > 0,
    ;
    assert(part == wide <==> part * scale == wide * scale) by (nonlinear_arith)
        requires
            scale > 0,
    ;
}

impl Num {
    /// `self + other`.
    pub fn add(self, other: Num) -> (r: Num)
        ensures
            r == self.plus(other),
    {
        proof {
            reveal(Num::plus);
        }
        let x: u64 = self.bits % SIGN;
        let y: u64 = other.bits % SIGN;
        if x > INFINITE || y > INFINITE {
            return Num { bits: NAN };
        }
        if x == INFINITE {
            return if y == INFINITE && (self.bits >= SIGN) != (other.bits >= SIGN) {
                Num { bits: NAN }
            } else {
                self
            };
        }
        if y == INFINITE {
            return other;
        }
        let p: (u64, u32) = self.parts();
        let q: (u64, u32) = other.parts();
        if p.1 >= q.1 {
            joined(p, self.bits >= SIGN, q, other.bits >= SIGN)
        } else {
            joined(q, other.bits >= SIGN, p, self.bits >= SIGN)
        }
    }

    /// `self - other`.
    pub fn sub(self, other: Num) -> (r: Num)
        ensures
            r == self.minus(other),
    {
        self.add(other.neg())
    }
}

/// A number, from its sign, its significand and its power of two.
spec fn apart(p: (u64, u32), negative: bool) -> int {
    if negative {
        -(p.0 * pow2(p.1 as nat))
    } else {
        p.0 * pow2(p.1 as nat)
    }
}

/// The sum of two finite numbers, the first of no smaller power than the
/// second.
fn joined(p: (u64, u32), p_negative: bool, q: (u64, u32), q_negative: bool) -> (r: Num)
    requires
        q.1 <= p.1 <= 2046,
        p.0 < 2 * STEP,
        q.0 < 2 * STEP,
        p.1 > 0 ==> p.0 >= STEP,
    ensures
        ({
            let exact = apart(p, p_negative) + apart(q, q_negative);
            r == if exact == 0 {
                signed(p_negative && q_negative, 0)
            } else {
                rounded(
                    exact < 0,
                    if exact < 0 {
                        -exact
                    } else {
                        exact
                    },
                    1,
                )
            }
        }),
{
    let gap: u32 = p.1 - q.1;
    let shift: u32 = if gap <= 60 {
        gap
    } else {
        60
    };
    let exp: u32 = p.1 - shift;
    let scale: u128 = two_to(shift);
    let ghost unit = pow2(exp as nat) as int;
    let ghost w1 = p.0 * pow2(p.1 as nat);
    let ghost w2 = q.0 * pow2(q.1 as nat);
    proof {
        lemma_named_powers();
        lemma_pow2_adds(32, 28);
        lemma_pow2_adds(32, 32);
        lemma_pow2_28();
        if shift < 60 {
            lemma_pow2_strictly_increases(shift as nat, 60);
        }
        let (s, c) = (p.0 as int, scale as int);
        lemma_pow2_pos(shift as nat);
        assert(0 <= s * c < 0x20_0000_0000_0000 * 0x1000_0000_0000_0000) by (nonlinear_arith)
            requires
                0 <= s < 0x20_0000_0000_0000,
                0 < c <= 0x1000_0000_0000_0000,
        ;
        if gap > 60 {
            assert(s * c >= STEP * 0x1000_0000_0000_0000) by (nonlinear_arith)
                requires
                    s >= STEP,
                    c == 0x1000_0000_0000_0000,
            ;
        }
        lemma_pow2_adds(shift as nat, exp as nat);
        lemma_pow2_pos(exp as nat);
        assert(s * (c * unit) == (s * c) * unit) by (nonlinear_arith);
    }
    let first: u128 = (p.0 as u128) * scale;
    let cut: u32 = exp - q.1;
    let second: u128;
    let inexact: bool;
    let ghost left: int;
    if cut >= 64 {
        second = 0;
        inexact = q.0 != 0;
        proof {
            left = w2;
            lemma_pow2_adds(cut as nat, q.1 as nat);
            lemma_pow2_pos(q.1 as nat);
            lemma_pow2_pos(cut as nat);
            if cut > 64 {
                lemma_pow2_strictly_increases(64, cut as nat);
            }
            let (s, c, e) = (q.0 as int, pow2(cut as nat) as int, pow2(q.1 as nat) as int);
            assert(0 <= s * e < c * e) by (nonlinear_arith)
                requires
                    0 <= s < c,
                    e > 0,
            ;
            assert(s * e == 0 <==> s == 0) by (nonlinear_arith)
                requires
                    e > 0,
            ;
        }
    } else {
        let part: u128 = two_to(cut);
        proof {
            lemma_pow2_pos(cut as nat);
        }
        second = (q.0 as u128) / part;
        let rest: u128 = (q.0 as u128) % part;
        inexact = rest != 0;
        proof {
            lemma_pow2_adds(cut as nat, q.1 as nat);
            lemma_pow2_pos(q.1 as nat);
            lemma_fundamental_div_mod(q.0 as int, part as int);
            let (s, c, e, k, t) = (
                q.0 as int,
                part as int,
                pow2(q.1 as nat) as int,
                second as int,
                rest as int,
            );
            left = t * e;
            assert(s * e == k * (c * e) + t * e) by (nonlinear_arith)
                requires
                    s == c * k + t,
            ;
            assert(0 <= t * e < c * e) by (nonlinear_arith)
                requires
                    0 <= t < c,
                    e > 0,
            ;
            assert(t * e == 0 <==> t == 0) by (nonlinear_arith)
                requires
                    e > 0,
            ;
            assert(k <= s) by (nonlinear_arith)
                requires
                    s == c * k + t,
                    c >= 1,
                    t >= 0,
                    k >= 0,
            ;
        }
    }
    proof {
        assert(w1 == first * unit);
        assert(w2 == second * unit + left);
        assert(0 <= left < unit);
        assert(inexact <==> left > 0);
    }
    let ghost exact = apart(p, p_negative) + apart(q, q_negative);
    if p_negative == q_negative {
        let sig: u128 = first + second;
        let ghost n = w1 + w2;
        proof {
            let (f, g) = (first as int, second as int);
            assert((f + g) * unit == f * unit + g * unit) by (nonlinear_arith);
            assert((f + g + 1) * unit == f * unit + g * unit + unit) by (nonlinear_arith);
        }
        if sig == 0 {
            return bare(p_negative && q_negative, 0);
        }
        proof {
            assert(sig * unit > 0) by (nonlinear_arith)
                requires
                    sig > 0,
                    unit > 0,
            ;
        }
        let m: u64 = pack(
            sig,
            exp as i64,
            inexact,
            Ghost(exp as nat),
            Ghost(0nat),
            Ghost(n),
            Ghost(1int),
        );
        return sign(p_negative, m, Ghost(n), Ghost(1int));
    }
    if first == second && !inexact {
        return bare(false, 0);
    }
    let ghost n = if w1 >= w2 {
        w1 - w2
    } else {
        w2 - w1
    };
    if first > second {
        let sig: u128 = if inexact {
            first - second - 1
        } else {
            first - second
        };
        proof {
            let (f, g) = (first as int, second as int);
            assert((f - g) * unit == f * unit - g * unit) by (nonlinear_arith);
            assert((f - g - 1) * unit == f * unit - g * unit - unit) by (nonlinear_arith);
            assert((f - g) * unit >= unit) by (nonlinear_arith)
                requires
                    f - g >= 1,
                    unit > 0,
            ;
            assert(w1 > w2);
        }
        let m: u64 = pack(
            sig,
            exp as i64,
            inexact,
            Ghost(exp as nat),
            Ghost(0nat),
            Ghost(n),
            Ghost(1int),
        );
        return sign(p_negative, m, Ghost(n), Ghost(1int));
    }
    let sig: u128 = second - first;
    proof {
        let (f, g) = (first as int, second as int);
        assert((g - f) * unit == g * unit - f * unit) by (nonlinear_arith);
        assert((g - f) * unit >= unit) by (nonlinear_arith)
            requires
                g - f >= 1,
                unit > 0,
        ;
    }
    let m: u64 = pack(
        sig,
        exp as i64,
        false,
        Ghost(exp as nat),
        Ghost(0nat),
        Ghost(n),
        Ghost(1int),
    );
    sign(q_negative, m, Ghost(n), Ghost(1int))
}

/// The number nearest to the integer `n`, which for all up to 2^53 is `n`.
pub open spec fn count_of(n: int) -> Num {
    rounded(false, units(n), 1)
}

impl Num {
    /// The lesser of two, or the one that is a number.
    pub open spec fn lesser(self, other: Num) -> Num {
        if self.is_nan() || (!other.is_nan() && other.value() < self.value()) {
            other
        } else {
            self
        }
    }

    /// The greater of two, or the one that is a number.
    pub open spec fn greater(self, other: Num) -> Num {
        if self.is_nan() || (!other.is_nan() && other.value() > self.value()) {
            other
        } else {
            self
        }
    }

    /// The nearest integer as a number, away from zero where two are equally
    /// near, under the sign that was there.
    pub open spec fn to_integer(self) -> Num {
        if self.is_nan() || self.is_infinite() {
            self
        } else {
            rounded(self.negative(), units(self.nearest_up()), 1)
        }
    }

    /// An integer as a number.
    pub fn count(n: u64) -> (r: Num)
        ensures
            r == count_of(n as int),
    {
        let m: u64 = integer_magnitude(n);
        sign(false, m, Ghost(units(n as int)), Ghost(1int))
    }

    /// The lesser of two.
    pub fn min(self, other: Num) -> (r: Num)
        ensures
            r == self.lesser(other),
    {
        if self.bits % SIGN > INFINITE {
            other
        } else if other.bits % SIGN > INFINITE || self.le(other) {
            self
        } else {
            other
        }
    }

    /// The greater of two.
    pub fn max(self, other: Num) -> (r: Num)
        ensures
            r == self.greater(other),
    {
        if self.bits % SIGN > INFINITE {
            other
        } else if other.bits % SIGN > INFINITE || other.le(self) {
            self
        } else {
            other
        }
    }

    /// The nearest integer, away from zero where two are equally near.
    pub fn round(self) -> (r: Num)
        ensures
            r == self.to_integer(),
    {
        if self.bits % SIGN >= INFINITE {
            return self;
        }
        match self.nearest_count() {
            Some(n) => {
                let m: u64 = integer_magnitude(n);
                sign(self.bits >= SIGN, m, Ghost(units(n as int)), Ghost(1int))
            },
            None => {
                let m: u64 = self.bits % SIGN;
                proof {
                    lemma_exact_is_nearest(worth(m as int) * 1, 1, m as int);
                }
                sign(self.bits >= SIGN, m, Ghost(units(self.nearest_up())), Ghost(1int))
            },
        }
    }
}

/// The magnitude nearest to an integer.
fn integer_magnitude(n: u64) -> (m: u64)
    ensures
        nearest_even(units(n as int), 1, m as int),
{
    if n == 0 {
        proof {
            lemma_exact_is_nearest(0, 1, 0);
        }
        return 0;
    }
    let ghost u = pow2(1074) as int;
    proof {
        lemma_named_powers();
        assert(n * (1 * u) == (n * u) * 1) by (nonlinear_arith);
    }
    pack(
        n as u128,
        1074,
        false,
        Ghost(1074nat),
        Ghost(0nat),
        Ghost(units(n as int)),
        Ghost(1int),
    )
}

/// A rounded number has its sign, is a number, and is nothing only where what
/// was rounded is nearer to nothing than to the smallest number.
pub proof fn lemma_rounded(negative: bool, n: int, d: int)
    requires
        d > 0,
    ensures
        rounded(negative, n, d).negative() == negative,
        !rounded(negative, n, d).is_nan(),
        nearest_even(n, d, rounded(negative, n, d).magnitude()),
        2 * n > d ==> !rounded(negative, n, d).is_zero(),
{
    lemma_nearest_exists(n, d);
    let m = choose|m: int| nearest_even(n, d, m);
    lemma_nearest_bounds(n, d, m);
    lemma_signed(negative, m);
}

proof fn lemma_nearest_bounds(n: int, d: int, m: int)
    requires
        d > 0,
        nearest_even(n, d, m),
    ensures
        0 <= m <= INFINITE,
        2 * n > d ==> m != 0,
{
    if m == 0 {
        assert(worth(0) + worth(1) == 1);
        assert(1 * d == d);
    }
}

/// A magnitude under a sign is that magnitude, under that sign.
pub proof fn lemma_signed(negative: bool, m: int)
    requires
        0 <= m < SIGN,
    ensures
        signed(negative, m).negative() == negative,
        signed(negative, m).magnitude() == m,
{
    if negative {
        assert((SIGN + m) % (SIGN as int) == m);
    }
}

/// A number nearest to what a magnitude is worth has that magnitude.
pub proof fn lemma_rounded_exact(negative: bool, m: int)
    requires
        0 <= m <= INFINITE,
    ensures
        rounded(negative, worth(m), 1) == signed(negative, m),
{
    lemma_exact_is_nearest(worth(m), 1, m);
    let k = choose|k: int| nearest_even(worth(m), 1, k);
    lemma_nearest_is_one(worth(m), 1, m, k);
}

/// A sum is the same from either side.
pub proof fn law_plus_commutes(a: Num, b: Num)
    ensures
        a.plus(b) == b.plus(a),
{
    reveal(Num::plus);
    if a.is_infinite() && b.is_infinite() {
        assert(a.negative() == b.negative() ==> a.bits == b.bits);
    }
}

/// A product is the same from either side.
pub proof fn law_times_commutes(a: Num, b: Num)
    ensures
        a.times(b) == b.times(a),
{
    reveal(Num::times);
    let (v, w) = (worth(a.magnitude()), worth(b.magnitude()));
    assert(v * w == w * v) by (nonlinear_arith);
}

/// An integer of up to 2^53 is a number exactly.
pub proof fn law_count_is_exact(n: int)
    requires
        0 <= n <= 2 * STEP,
    ensures
        count_of(n).is_int(n),
{
    lemma_counted(n);
    if n > 0 {
        lemma_rounded(false, units(n), 1);
        let m = choose|m: int| 0 <= m < INFINITE && worth(m) == units(n);
        lemma_rounded_exact(false, m);
    } else {
        assert(worth(0) == 0);
        assert(units(0) == 0) by (nonlinear_arith);
        lemma_rounded_exact(false, 0);
    }
}

/// A positive integer of up to 2^53 is what some finite magnitude is worth.
pub proof fn lemma_counted(n: int)
    requires
        0 <= n <= 2 * STEP,
    ensures
        n > 0 ==> exists|m: int| 0 <= m < INFINITE && worth(m) == units(n),
{
    if n > 0 {
        lemma_named_powers();
        assert(n * 1 == n);
        lemma_filled_to(n, 0);
    }
}

/// The same, of an integer moved up by `k` places.
proof fn lemma_filled_to(n: int, k: nat)
    requires
        0 < n,
        k <= 52,
        n * pow2(k) <= 2 * STEP,
    ensures
        exists|m: int| 0 <= m < INFINITE && worth(m) == units(n),
    decreases 52 - k,
{
    let s = n * pow2(k);
    lemma_named_powers();
    lemma_pow2_pos(k);
    assert(s > 0) by (nonlinear_arith)
        requires
            n > 0,
            pow2(k) > 0,
            s == n * pow2(k),
    ;
    let t = (1074 - k) as nat;
    if s >= STEP {
        lemma_worth_of_parts(t as int, s);
        lemma_pow2_adds(k, t);
        let (x, y) = (pow2(k) as int, pow2(t) as int);
        assert((n * x) * y == n * (x * y)) by (nonlinear_arith);
        let m = t * STEP + s;
        assert(worth(m) == units(n));
        assert(0 <= m < INFINITE);
    } else {
        lemma_pow2_adds(k, 1);
        let x = pow2(k) as int;
        assert(n * (x * 2) == 2 * (n * x)) by (nonlinear_arith);
        if k == 52 {
            assert(s >= STEP) by (nonlinear_arith)
                requires
                    n >= 1,
                    s == n * x,
                    x == STEP,
            ;
        }
        lemma_filled_to(n, k + 1);
    }
}

proof fn lemma_pow2_28()
    ensures
        pow2(28) == 0x1000_0000,
{
    lemma2_to64();
}

} // verus!
