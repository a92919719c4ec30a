//! Numbers as the frames carry them: IEEE 754 binary64, held as their bits.
//!
//! What a number is worth is stated as an integer: its value counted in units
//! of 2^-1074, the smallest step a binary64 can take. Here are the order of
//! numbers, whether one is whole, and the integer one is nearest to, all read
//! off the bits; the arithmetic is in [`crate::arithmetic`].
use vstd::arithmetic::power2::{
    lemma2_to64, lemma2_to64_rest, lemma_pow2_adds, lemma_pow2_pos, lemma_pow2_strictly_increases, pow2,
};
use vstd::arithmetic::div_mod::{lemma_fundamental_div_mod, lemma_fundamental_div_mod_converse};
use vstd::bits::{lemma_u64_pow2_no_overflow, lemma_u64_shl_is_mul};
use vstd::prelude::*;

verus! {

/// The bit that makes a number negative; what is under it is the magnitude.
pub const SIGN: u64 = 0x8000_0000_0000_0000;

/// The magnitude of an infinity. Whatever lies past it is not a number.
pub const INFINITE: u64 = 0x7FF0_0000_0000_0000;

/// One step of the exponent, and the bit a normal number leaves unwritten.
pub const STEP: u64 = 0x10_0000_0000_0000;

/// A binary64 number.
#[derive(Clone, Copy, Debug, PartialEq, Eq, Structural)]
pub struct Num {
    pub bits: u64,
}

/// Zero, the positive one.
#[verifier::allow_in_spec]
pub fn zero() -> Num
    returns
        (Num { bits: 0 }),
{
    Num { bits: 0 }
}

/// The integer `n`, in units of 2^-1074.
pub open spec fn units(n: int) -> int {
    n * pow2(1074)
}

/// What a magnitude is worth, in units of 2^-1074. An infinity is worth more
/// than any finite number.
pub open spec fn worth(magnitude: int) -> int {
    let exponent = magnitude / (STEP as int);
    let fraction = magnitude % (STEP as int);
    if exponent == 0 {
        fraction
    } else {
        (STEP + fraction) * pow2((exponent - 1) as nat)
    }
}

/// An integer brought into the range of an `i64`.
pub open spec fn clamped(n: int) -> int {
    if n < i64::MIN {
        i64::MIN as int
    } else if n > i64::MAX {
        i64::MAX as int
    } else {
        n
    }
}

impl Num {
    pub open spec fn magnitude(self) -> int {
        (self.bits as int) % (SIGN as int)
    }

    pub open spec fn negative(self) -> bool {
        self.bits >= SIGN
    }

    pub open spec fn is_nan(self) -> bool {
        self.magnitude() > INFINITE
    }

    /// The value, in units of 2^-1074.
    pub open spec fn value(self) -> int {
        if self.negative() {
            -worth(self.magnitude())
        } else {
            worth(self.magnitude())
        }
    }

    /// `self <= other`, which nothing is of what is not a number.
    pub open spec fn at_most(self, other: Num) -> bool {
        &&& !self.is_nan()
        &&& !other.is_nan()
        &&& self.value() <= other.value()
    }

    /// Whether the value is the integer `n`.
    pub open spec fn is_int(self, n: int) -> bool {
        &&& !self.is_nan()
        &&& self.value() == units(n)
    }

    /// The integer nearest the magnitude, the greater where two are equally
    /// near.
    pub open spec fn nearest_up(self) -> int {
        (2 * worth(self.magnitude()) + units(1)) / (2 * units(1))
    }

    /// The integer nearest the value, the one further from zero where two are
    /// equally near.
    pub open spec fn nearest(self) -> int {
        if self.negative() {
            -self.nearest_up()
        } else {
            self.nearest_up()
        }
    }
}

pub proof fn lemma_named_powers()
    ensures
        pow2(0) == 1,
        pow2(1) == 2,
        pow2(31) == 0x8000_0000,
        pow2(32) == 0x1_0000_0000,
        pow2(52) == STEP,
        pow2(63) == SIGN,
{
    lemma2_to64();
    lemma2_to64_rest();
}

/// A greater magnitude is worth more.
pub proof fn lemma_worth_increases(p: int, q: int)
    requires
        0 <= p < q < SIGN,
    ensures
        0 <= worth(p) < worth(q),
{
    let ep = p / (STEP as int);
    let eq = q / (STEP as int);
    let fp = p % (STEP as int);
    let fq = q % (STEP as int);
    assert(ep <= eq);
    if ep == eq {
        assert(fp < fq);
        if ep > 0 {
            lemma_pow2_pos((ep - 1) as nat);
            assert((STEP + fp) * pow2((ep - 1) as nat) < (STEP + fq) * pow2((ep - 1) as nat))
                by (nonlinear_arith)
                requires
                    fp < fq,
                    pow2((ep - 1) as nat) > 0,
            ;
            assert(0 <= (STEP + fp) * pow2((ep - 1) as nat)) by (nonlinear_arith)
                requires
                    0 <= fp,
                    pow2((ep - 1) as nat) > 0,
            ;
        }
    } else {
        // Everything under an exponent is worth less than twice its smallest.
        let k = (eq - 1) as nat;
        lemma_pow2_pos(k);
        assert(STEP * pow2(k) <= (STEP + fq) * pow2(k)) by (nonlinear_arith)
            requires
                0 <= fq,
                pow2(k) > 0,
        ;
        if ep == 0 {
            assert(STEP <= STEP * pow2(k)) by (nonlinear_arith)
                requires
                    pow2(k) >= 1,
            ;
        } else {
            let j = (ep - 1) as nat;
            lemma_pow2_pos(j);
            lemma_pow2_adds(1, j);
            lemma_named_powers();
            if j + 1 < k {
                lemma_pow2_strictly_increases(j + 1, k);
            }
            assert((STEP + fp) * pow2(j) < STEP * pow2(k)) by (nonlinear_arith)
                requires
                    0 <= fp < STEP,
                    pow2(j) > 0,
                    2 * pow2(j) <= pow2(k),
            ;
            assert(0 <= (STEP + fp) * pow2(j)) by (nonlinear_arith)
                requires
                    0 <= fp,
                    pow2(j) > 0,
            ;
        }
    }
}

/// A magnitude whose exponent reaches 1023 is worth its significand, moved by
/// the exponent it has over or under that of an integer.
proof fn lemma_worth_of_significand(magnitude: int, k: int)
    requires
        0 <= magnitude < SIGN,
        magnitude / (STEP as int) == 1023 + k,
        0 <= k,
    ensures
        k <= 52 ==> worth(magnitude) * pow2((52 - k) as nat) == (STEP + magnitude % (STEP as int))
            * pow2(1074),
        k >= 52 ==> worth(magnitude) == (STEP + magnitude % (STEP as int)) * pow2((k - 52) as nat)
            * pow2(1074),
{
    let s = STEP + magnitude % (STEP as int);
    let a = pow2((1022 + k) as nat);
    if k <= 52 {
        let b = pow2((52 - k) as nat);
        lemma_pow2_adds((1022 + k) as nat, (52 - k) as nat);
        assert((s * a) * b == s * (a * b)) by (nonlinear_arith);
    }
    if k >= 52 {
        let b = pow2((k - 52) as nat);
        lemma_pow2_adds((k - 52) as nat, 1074);
        assert((s * b) * pow2(1074) == s * (b * pow2(1074))) by (nonlinear_arith);
    }
}

/// `1 << shift` is that power of two.
proof fn lemma_one_shifted(shift: u64)
    requires
        shift < 64,
    ensures
        (1u64 << shift) == pow2(shift as nat),
{
    lemma_u64_pow2_no_overflow(shift as nat);
    lemma_u64_shl_is_mul(1, shift);
}

/// Any magnitude with an exponent of `1023 + k` is worth at least 2^k.
proof fn lemma_worth_reaches(magnitude: int, k: int)
    requires
        0 <= magnitude < SIGN,
        magnitude / (STEP as int) >= 1023 + k,
        0 <= k <= 63,
    ensures
        worth(magnitude) >= pow2(k as nat) * pow2(1074),
{
    let least = (1023 + k) * STEP;
    if least < magnitude {
        lemma_worth_increases(least, magnitude);
    }
    assert(least / (STEP as int) == 1023 + k);
    assert(least % (STEP as int) == 0);
    lemma_worth_of_significand(least, k);
    lemma_pow2_pos(1074);
    lemma_named_powers();
    if k <= 52 {
        lemma_pow2_pos((52 - k) as nat);
        lemma_pow2_adds(k as nat, (52 - k) as nat);
        let (w, a, b, u) = (worth(least), pow2(k as nat), pow2((52 - k) as nat), pow2(1074));
        assert(w == a * u) by (nonlinear_arith)
            requires
                w * b == (a * b) * u,
                b > 0,
        ;
    } else {
        lemma_pow2_adds(52, (k - 52) as nat);
    }
}

pub proof fn lemma_worth_of_one()
    ensures
        worth(1023 * STEP) == pow2(1074),
{
    assert(1023 * STEP / (STEP as int) == 1023);
    assert(((1023 * STEP) as int) % (STEP as int) == 0);
    lemma_named_powers();
    lemma_pow2_adds(52, 1022);
}

/// A quotient, from the multiples on either side.
pub proof fn lemma_quotient(x: int, d: int, q: int)
    requires
        d > 0,
        q * d <= x < (q + 1) * d,
    ensures
        x / d == q,
{
    assert((q + 1) * d == q * d + d) by (nonlinear_arith);
    lemma_fundamental_div_mod_converse(x, d, q, x - q * d);
}

/// Any magnitude with an exponent under 1022 is worth less than a half.
proof fn lemma_worth_under_half(magnitude: int)
    requires
        0 <= magnitude < 1022 * STEP,
    ensures
        0 <= 2 * worth(magnitude) < units(1),
{
    let half = 1022 * STEP;
    lemma_worth_increases(magnitude, half);
    assert(half / (STEP as int) == 1022);
    assert(half % (STEP as int) == 0);
    lemma_named_powers();
    lemma_pow2_adds(52, 1021);
    lemma_pow2_adds(1, 1073);
}

impl Num {
    fn magnitude_bits(self) -> (magnitude: u64)
        ensures
            magnitude == self.magnitude(),
    {
        self.bits % SIGN
    }

    /// A signed integer that orders numbers as their values do.
    fn rank(self) -> (rank: i64)
        ensures
            rank == if self.negative() {
                -self.magnitude()
            } else {
                self.magnitude()
            },
    {
        let magnitude: u64 = self.magnitude_bits();
        if self.bits >= SIGN {
            -(magnitude as i64)
        } else {
            magnitude as i64
        }
    }

    /// Whether this number is at most `other`, as `<=` has it: never, where
    /// either is not a number.
    pub fn le(self, other: Num) -> (yes: bool)
        ensures
            yes == self.at_most(other),
    {
        let ranks: (i64, i64) = (self.rank(), other.rank());
        proof {
            lemma_rank_orders(self, other);
        }
        self.magnitude_bits() <= INFINITE && other.magnitude_bits() <= INFINITE && ranks.0
            <= ranks.1
    }

    /// The integer this number is, where it is one and lies between `low` and
    /// `high`.
    pub fn whole(self, low: u32, high: u32) -> (n: Option<u32>)
        ensures
            match n {
                Some(n) => low <= n <= high && self.is_int(n as int),
                None => forall|m: int| low <= m <= high ==> !self.is_int(m),
            },
    {
        let magnitude: u64 = self.magnitude_bits();
        proof {
            lemma_pow2_pos(1074);
        }
        if magnitude > INFINITE {
            return None;
        }
        if magnitude == 0 {
            assert forall|m: int| self.is_int(m) implies m == 0 by {
                assert(m == 0) by (nonlinear_arith)
                    requires
                        m * pow2(1074) == 0,
                        pow2(1074) > 0,
                ;
            }
            assert(self.is_int(0));
            return if low == 0 {
                Some(0)
            } else {
                None
            };
        }
        proof {
            lemma_worth_increases(0, magnitude as int);
        }
        if self.bits >= SIGN {
            assert forall|m: int| low <= m <= high implies !self.is_int(m) by {
                assert(m * pow2(1074) >= 0) by (nonlinear_arith)
                    requires
                        m >= 0,
                        pow2(1074) > 0,
                ;
            }
            return None;
        }
        let exponent: u64 = magnitude / STEP;
        if exponent < 1023 {
            proof {
                lemma_worth_increases(magnitude as int, 1023 * STEP);
                lemma_worth_of_one();
                assert forall|m: int| low <= m <= high implies !self.is_int(m) by {
                    if self.is_int(m) {
                        assert(0 < m < 1) by (nonlinear_arith)
                            requires
                                0 < m * pow2(1074),
                                m * pow2(1074) < pow2(1074),
                                pow2(1074) > 0,
                        ;
                    }
                }
            }
            return None;
        }
        if exponent >= 1023 + 32 {
            proof {
                lemma_worth_reaches(magnitude as int, 32);
                lemma_named_powers();
                assert forall|m: int| low <= m <= high implies !self.is_int(m) by {
                    assert(m * pow2(1074) < 0x1_0000_0000 * pow2(1074)) by (nonlinear_arith)
                        requires
                            m < 0x1_0000_0000,
                            pow2(1074) > 0,
                    ;
                }
            }
            return None;
        }
        let shift: u64 = 52 - (exponent - 1023);
        let part: u64 = 1u64 << shift;
        let significand: u64 = STEP + magnitude % STEP;
        let ghost v = self.value();
        let ghost u = pow2(1074) as int;
        proof {
            lemma_one_shifted(shift);
            lemma_worth_of_significand(magnitude as int, exponent - 1023);
            lemma_pow2_pos(shift as nat);
            assert(v * part == significand * u);
            assert forall|m: int| #[trigger] self.is_int(m) <==> m * part == significand by {
                assert(v == m * u <==> m * part == significand) by (nonlinear_arith)
                    requires
                        v * part == significand * u,
                        part > 0,
                        u > 0,
                ;
            }
            lemma_fundamental_div_mod(significand as int, part as int);
            lemma_pow2_adds((exponent - 1023) as nat, shift as nat);
            lemma_named_powers();
            let k = (exponent - 1023) as nat;
            if k < 31 {
                lemma_pow2_strictly_increases(k, 31);
            }
            assert(significand / part < 0x1_0000_0000) by (nonlinear_arith)
                requires
                    significand < 2 * (pow2(k) * part),
                    pow2(k) <= 0x8000_0000,
                    part > 0,
            ;
        }
        let n: u64 = significand / part;
        if significand % part != 0 {
            assert forall|m: int| !self.is_int(m) by {
                if m * part == significand {
                    lemma_fundamental_div_mod_converse(significand as int, part as int, m, 0);
                }
            }
            return None;
        }
        assert(n * part == significand) by (nonlinear_arith)
            requires
                significand == part * n + significand % part,
                significand % part == 0,
        ;
        assert(self.is_int(n as int));
        assert forall|m: int| self.is_int(m) implies m == n by {
            assert(m == n) by (nonlinear_arith)
                requires
                    m * part == n * part,
                    part > 0,
            ;
        }
        if low as u64 <= n && n <= high as u64 {
            Some(n as u32)
        } else {
            None
        }
    }

    /// The integer nearest the magnitude, where it is under 2^63.
    pub fn nearest_count(self) -> (n: Option<u64>)
        requires
            !self.is_nan(),
        ensures
            n is Some <==> self.magnitude() < 1086 * STEP,
            match n {
                Some(n) => n < SIGN && n == self.nearest_up(),
                None => self.nearest_up() >= SIGN && worth(self.magnitude()) == units(
                    self.nearest_up(),
                ),
            },
    {
        let magnitude: u64 = self.magnitude_bits();
        let ghost w = worth(magnitude as int);
        let ghost u = pow2(1074) as int;
        let ghost up = (2 * w + u) / (2 * u);
        let exponent: u64 = magnitude / STEP;
        proof {
            lemma_pow2_pos(1074);
            assert(units(1) == u);
        }
        let n: u64;
        if exponent < 1022 {
            proof {
                lemma_worth_under_half(magnitude as int);
                lemma_quotient(2 * w + u, 2 * u, 0);
            }
            n = 0;
        } else if exponent == 1022 {
            proof {
                lemma_worth_increases(magnitude as int, 1023 * STEP);
                lemma_worth_of_one();
                lemma_half_reached(magnitude as int);
                lemma_quotient(2 * w + u, 2 * u, 1);
            }
            n = 1;
        } else if exponent < 1023 + 52 {
            let shift: u64 = 52 - (exponent - 1023);
            let half: u64 = 1u64 << (shift - 1);
            let significand: u64 = STEP + magnitude % STEP;
            proof {
                lemma_one_shifted((shift - 1) as u64);
                lemma_pow2_pos((shift - 1) as nat);
                lemma_named_powers();
                if shift - 1 < 52 {
                    lemma_pow2_strictly_increases((shift - 1) as nat, 52);
                }
                lemma_pow2_adds(1, (shift - 1) as nat);
                lemma_worth_of_significand(magnitude as int, exponent - 1023);
            }
            let part: u64 = 2 * half;
            n = (significand + half) / part;
            proof {
                lemma_fundamental_div_mod(significand + half, part as int);
                assert(n * part <= significand + half < (n + 1) * part) by (nonlinear_arith)
                    requires
                        significand + half == part * n + (significand + half) % (part as int),
                        0 <= (significand + half) % (part as int) < part,
                ;
                lemma_rounds_up(w, u, significand as int, half as int, n as int);
                lemma_quotient(2 * w + u, 2 * u, n as int);
            }
        } else if exponent < 1023 + 63 {
            let shift: u64 = (exponent - 1023) - 52;
            let significand: u64 = STEP + magnitude % STEP;
            let scale: u64 = 1u64 << shift;
            proof {
                lemma_one_shifted(shift);
                lemma_pow2_pos(shift as nat);
                lemma_named_powers();
                if shift < 10 {
                    lemma_pow2_strictly_increases(shift as nat, 10);
                }
                lemma2_to64();
                lemma_worth_of_significand(magnitude as int, exponent - 1023);
                assert(significand * scale < 0x8000_0000_0000_0000) by (nonlinear_arith)
                    requires
                        significand < 0x20_0000_0000_0000,
                        0 < scale <= 1024,
                ;
            }
            n = significand * scale;
            proof {
                assert(n * (2 * u) <= 2 * (n * u) + u < (n + 1) * (2 * u)) by (nonlinear_arith)
                    requires
                        u > 0,
                ;
                lemma_quotient(2 * w + u, 2 * u, n as int);
            }
        } else {
            proof {
                let k = exponent - 1023;
                let s = STEP + magnitude % STEP;
                let c = pow2((k - 52) as nat) as int;
                lemma_worth_of_significand(magnitude as int, k);
                lemma_pow2_pos((k - 52) as nat);
                assert((s * c) * (2 * u) <= 2 * ((s * c) * u) + u < (s * c + 1) * (2 * u))
                    by (nonlinear_arith)
                    requires
                        u > 0,
                ;
                lemma_quotient(2 * w + u, 2 * u, s * c);
                lemma_worth_reaches(magnitude as int, 63);
                lemma_named_powers();
                assert(up >= SIGN) by (nonlinear_arith)
                    requires
                        up * u >= SIGN * u,
                        u > 0,
                ;
            }
            return None;
        }
        Some(n)
    }

    /// The pixel this number falls on: rounded to the nearest integer, away
    /// from zero where two are equally near, and held to the range of an
    /// `i64`. What is not a number falls on 0.
    pub fn pixel(self) -> (n: i64)
        ensures
            self.is_nan() ==> n == 0,
            !self.is_nan() ==> n == clamped(self.nearest()),
    {
        if self.magnitude_bits() > INFINITE {
            return 0;
        }
        match self.nearest_count() {
            Some(n) => {
                if self.bits >= SIGN {
                    -(n as i64)
                } else {
                    n as i64
                }
            },
            None => {
                if self.bits >= SIGN {
                    i64::MIN
                } else {
                    i64::MAX
                }
            },
        }
    }
}

/// Any magnitude with an exponent of at least 1022 is worth at least a half.
proof fn lemma_half_reached(magnitude: int)
    requires
        1022 * STEP <= magnitude < SIGN,
    ensures
        2 * worth(magnitude) >= units(1),
{
    let half = 1022 * STEP;
    if half < magnitude {
        lemma_worth_increases(half, magnitude);
    }
    assert(half / (STEP as int) == 1022);
    assert(half % (STEP as int) == 0);
    lemma_named_powers();
    lemma_pow2_adds(52, 1021);
    lemma_pow2_adds(1, 1073);
}

/// Rounding `w / u` to the nearest is rounding `significand / (2 * half)`,
/// where the two are equal.
proof fn lemma_rounds_up(w: int, u: int, significand: int, half: int, n: int)
    requires
        u > 0,
        half > 0,
        w * (2 * half) == significand * u,
        n * (2 * half) <= significand + half < (n + 1) * (2 * half),
    ensures
        n * (2 * u) <= 2 * w + u < (n + 1) * (2 * u),
{
    let x = 2 * w + u;
    assert(x * half == u * (significand + half)) by (nonlinear_arith)
        requires
            x == 2 * w + u,
            w * (2 * half) == significand * u,
    ;
    assert(n * (2 * u) <= x) by (nonlinear_arith)
        requires
            x * half == u * (significand + half),
            n * (2 * half) <= significand + half,
            half > 0,
            u > 0,
    ;
    assert(x < (n + 1) * (2 * u)) by (nonlinear_arith)
        requires
            x * half == u * (significand + half),
            significand + half < (n + 1) * (2 * half),
            half > 0,
            u > 0,
    ;
}

proof fn lemma_rank_orders(a: Num, b: Num)
    ensures
        ({
            let ra = if a.negative() {
                -a.magnitude()
            } else {
                a.magnitude()
            };
            let rb = if b.negative() {
                -b.magnitude()
            } else {
                b.magnitude()
            };
            &&& ra <= rb <==> a.value() <= b.value()
            &&& ra == rb <==> a.value() == b.value()
        }),
{
    let (ma, mb) = (a.magnitude(), b.magnitude());
    if ma < mb {
        lemma_worth_increases(ma, mb);
    }
    if mb < ma {
        lemma_worth_increases(mb, ma);
    }
    if 0 < ma {
        lemma_worth_increases(0, ma);
    }
    if 0 < mb {
        lemma_worth_increases(0, mb);
    }
}

} // verus!
