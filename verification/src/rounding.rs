//! Rounding an exact result to the nearest binary64.
use crate::number::{lemma_named_powers, lemma_worth_increases, worth, INFINITE, SIGN, STEP};
use vstd::arithmetic::div_mod::lemma_fundamental_div_mod;
use vstd::arithmetic::power2::{
    lemma_pow2_adds, lemma_pow2_pos, lemma_pow2_strictly_increases, lemma_pow2_unfold, pow2,
};
use vstd::prelude::*;

verus! {

/// Whether the magnitude `m` is the one nearest to `n / d`, counted in units
/// of 2^-1074: `n / d` lies between the midpoints to either neighbour, and on
/// one only where `m` is the even one of the two. An infinity stands in the
/// row as the magnitude after the greatest finite one, and takes whatever lies
/// past it.
pub open spec fn nearest_even(n: int, d: int, m: int) -> bool {
    &&& 0 <= m <= INFINITE
    &&& 0 < m ==> ({
        let midpoint = (worth(m - 1) + worth(m)) * d;
        midpoint < 2 * n || (midpoint == 2 * n && m % 2 == 0)
    })
    &&& m < INFINITE ==> ({
        let midpoint = (worth(m) + worth(m + 1)) * d;
        2 * n < midpoint || (2 * n == midpoint && m % 2 == 0)
    })
}

/// No two magnitudes are both the nearest.
pub proof fn lemma_nearest_is_one(n: int, d: int, p: int, q: int)
    requires
        d > 0,
        nearest_even(n, d, p),
        nearest_even(n, d, q),
    ensures
        p == q,
{
    lemma_nearest_not_below(n, d, p, q);
    lemma_nearest_not_below(n, d, q, p);
}

/// Some magnitude is the nearest.
pub proof fn lemma_nearest_exists(n: int, d: int)
    requires
        d > 0,
    ensures
        exists|m: int| nearest_even(n, d, m),
{
    lemma_nearest_from(n, d, 0);
}

/// Some magnitude is the nearest, where none under `m` is.
proof fn lemma_nearest_from(n: int, d: int, m: int)
    requires
        d > 0,
        0 <= m <= INFINITE,
        0 < m ==> ({
            let midpoint = (worth(m - 1) + worth(m)) * d;
            midpoint < 2 * n || (midpoint == 2 * n && m % 2 == 0)
        }),
    ensures
        exists|k: int| nearest_even(n, d, k),
    decreases INFINITE - m,
{
    if m == INFINITE || 2 * n < (worth(m) + worth(m + 1)) * d || (2 * n == (worth(m) + worth(
        m + 1,
    )) * d && m % 2 == 0) {
        assert(nearest_even(n, d, m));
    } else {
        lemma_nearest_from(n, d, m + 1);
    }
}

proof fn lemma_nearest_not_below(n: int, d: int, p: int, q: int)
    requires
        d > 0,
        nearest_even(n, d, p),
        nearest_even(n, d, q),
    ensures
        q <= p,
{
    let over = worth(p) + worth(p + 1);
    let under = worth(q - 1) + worth(q);
    if p + 1 < q {
        lemma_worth_increases(p, q - 1);
        lemma_worth_increases(p + 1, q);
        assert(over * d < under * d) by (nonlinear_arith)
            requires
                over < under,
                d > 0,
        ;
    }
}

/// `m * 2^t`, where `m` has the bits of a significand, is worth the magnitude
/// that holds them.
pub proof fn lemma_worth_of_parts(t: int, m: int)
    requires
        0 <= t,
        0 <= m <= 2 * STEP,
        t > 0 ==> STEP <= m,
        t <= 2045,
    ensures
        worth(t * STEP + m) == m * pow2(t as nat),
        0 <= t * STEP + m < SIGN,
        (t * STEP + m) % 2 == m % 2,
{
    lemma_named_powers();
    let all = t * STEP + m;
    if m < STEP {
        assert(t == 0);
        assert(all / (STEP as int) == 0);
        assert(m * pow2(0) == m);
    } else if m < 2 * STEP {
        assert(all / (STEP as int) == t + 1);
        assert(all % (STEP as int) == m - STEP);
    } else {
        assert(all / (STEP as int) == t + 2);
        assert(all % (STEP as int) == 0);
        lemma_pow2_unfold((t + 1) as nat);
        let p = pow2(t as nat);
        assert(STEP * (2 * p) == (2 * STEP) * p) by (nonlinear_arith);
    }
}

/// A value that some magnitude has exactly is nearest to that one.
pub proof fn lemma_exact_is_nearest(n: int, d: int, m: int)
    requires
        d > 0,
        0 <= m <= INFINITE,
        n == worth(m) * d,
    ensures
        nearest_even(n, d, m),
{
    let w = worth(m);
    if 0 < m {
        lemma_worth_increases(m - 1, m);
        let v = worth(m - 1);
        assert((v + w) * d < 2 * (w * d)) by (nonlinear_arith)
            requires
                v < w,
                d > 0,
        ;
    }
    if m < INFINITE {
        lemma_worth_increases(m, m + 1);
        let v = worth(m + 1);
        assert((w + v) * d > 2 * (w * d)) by (nonlinear_arith)
            requires
                v > w,
                d > 0,
        ;
    }
}

/// A value as great as an infinity is nearest to it.
proof fn lemma_infinite_is_nearest(n: int, d: int)
    requires
        d > 0,
        n >= worth(INFINITE as int) * d,
    ensures
        nearest_even(n, d, INFINITE as int),
{
    lemma_exact_is_nearest(worth(INFINITE as int) * d, d, INFINITE as int);
}

/// How `n / d` lies to the numbers around it, where it is found between
/// `q * 2^t` and `(q + 1) * 2^t`.
#[derive(Clone, Copy, PartialEq, Eq, Structural)]
enum Side {
    /// Nearer the lower.
    Under,
    /// Halfway.
    Between,
    /// Nearer the upper.
    Over,
}

spec fn lies(n: int, d: int, t: nat, q: int, side: Side) -> bool {
    let unit = d * pow2(t);
    &&& q * unit <= n < (q + 1) * unit
    &&& match side {
        Side::Under => 2 * n < (2 * q + 1) * unit,
        Side::Between => 2 * n == (2 * q + 1) * unit,
        Side::Over => 2 * n > (2 * q + 1) * unit,
    }
}

proof fn lemma_choice_is_nearest(n: int, d: int, t: nat, q: int, side: Side, up: bool)
    requires
        d > 0,
        t <= 2045,
        0 <= q < 2 * STEP,
        t > 0 ==> STEP <= q,
        lies(n, d, t, q, side),
        up == (side == Side::Over || (side == Side::Between && q % 2 == 1)),
    ensures
        ({
            let m = t * STEP + q + if up {
                1int
            } else {
                0int
            };
            nearest_even(
                n,
                d,
                if m > INFINITE {
                    INFINITE as int
                } else {
                    m
                },
            )
        }),
{
    let unit = d * pow2(t);
    let low = t * STEP + q;
    lemma_worth_of_parts(t as int, q);
    lemma_worth_of_parts(t as int, q + 1);
    lemma_pow2_pos(t);
    assert(low + 1 == t * STEP + (q + 1));
    let p = pow2(t) as int;
    assert((q * p + (q + 1) * p) * d == (2 * q + 1) * (d * p)) by (nonlinear_arith);
    assert((q * p) * d == q * (d * p)) by (nonlinear_arith);
    assert(((q + 1) * p) * d == (q + 1) * (d * p)) by (nonlinear_arith);
    if low >= INFINITE {
        if low > INFINITE {
            lemma_worth_increases(INFINITE as int, low);
        }
        let w = worth(INFINITE as int);
        assert(w * d <= (q * p) * d) by (nonlinear_arith)
            requires
                w <= q * p,
                d > 0,
        ;
        lemma_infinite_is_nearest(n, d);
    } else if up {
        let m = low + 1;
        if m < INFINITE {
            lemma_worth_increases(m, m + 1);
            let (w, v) = (worth(m), worth(m + 1));
            assert((w + v) * d > 2 * (w * d)) by (nonlinear_arith)
                requires
                    v > w,
                    d > 0,
            ;
        }
    } else {
        if 0 < low {
            lemma_worth_increases(low - 1, low);
            let (w, v) = (worth(low), worth(low - 1));
            assert((v + w) * d < 2 * (w * d)) by (nonlinear_arith)
                requires
                    v < w,
                    d > 0,
            ;
        }
    }
}

/// Whether `n / d` is `sig * 2^(a - b)`, or lies past it by less than one
/// step of `sig`.
pub open spec fn stands_for(sig: int, inexact: bool, a: nat, b: nat, n: int, d: int) -> bool {
    let below = sig * (d * pow2(a));
    let above = (sig + 1) * (d * pow2(a));
    if inexact {
        below < n * pow2(b) < above
    } else {
        below == n * pow2(b)
    }
}

/// The same, under powers that differ by as much.
proof fn lemma_stands_shifted(
    sig: int,
    inexact: bool,
    a: nat,
    b: nat,
    s: nat,
    t: nat,
    n: int,
    d: int,
)
    requires
        stands_for(sig, inexact, a, b, n, d),
        t - s == a - b,
        d > 0,
    ensures
        stands_for(sig, inexact, t, s, n, d),
{
    let (pa, pb, ps, pt) = (
        pow2(a) as int,
        pow2(b) as int,
        pow2(s) as int,
        pow2(t) as int,
    );
    lemma_pow2_pos(a);
    lemma_pow2_pos(b);
    lemma_pow2_pos(s);
    lemma_pow2_pos(t);
    lemma_pow2_adds(a, s);
    lemma_pow2_adds(t, b);
    assert(pa * ps == pt * pb);
    lemma_product_shifted(sig, d, n, pa, pb, ps, pt);
    lemma_product_shifted(sig + 1, d, n, pa, pb, ps, pt);
}

proof fn lemma_product_shifted(k: int, d: int, n: int, pa: int, pb: int, ps: int, pt: int)
    requires
        pa > 0,
        pb > 0,
        ps > 0,
        pt > 0,
        pa * ps == pt * pb,
    ensures
        k * (d * pa) < n * pb <==> k * (d * pt) < n * ps,
        k * (d * pa) == n * pb <==> k * (d * pt) == n * ps,
        k * (d * pa) > n * pb <==> k * (d * pt) > n * ps,
{
    let (x, y) = (k * (d * pa), n * pb);
    let (v, w) = (k * (d * pt), n * ps);
    assert(x * ps == v * pb) by (nonlinear_arith)
        requires
            x == k * (d * pa),
            v == k * (d * pt),
            pa * ps == pt * pb,
    ;
    assert(y * ps == w * pb) by (nonlinear_arith)
        requires
            y == n * pb,
            w == n * ps,
    ;
    assert(x < y <==> x * ps < y * ps) by (nonlinear_arith)
        requires
            ps > 0,
    ;
    assert(x == y <==> x * ps == y * ps) by (nonlinear_arith)
        requires
            ps > 0,
    ;
    assert(v < w <==> v * pb < w * pb) by (nonlinear_arith)
        requires
            pb > 0,
    ;
    assert(v == w <==> v * pb == w * pb) by (nonlinear_arith)
        requires
            pb > 0,
    ;
}

/// What is cut off on the right says on which side of halfway a value lies.
proof fn lemma_cut(
    n: int,
    d: int,
    t: nat,
    s: nat,
    sig: int,
    inexact: bool,
    q: int,
    r: int,
    half: int,
    side: Side,
)
    requires
        d > 0,
        stands_for(sig, inexact, t, s, n, d),
        pow2(s) == 2 * half,
        half > 0,
        sig == q * (2 * half) + r,
        0 <= r < 2 * half,
        side == if r < half {
            Side::Under
        } else if r == half && !inexact {
            Side::Between
        } else {
            Side::Over
        },
    ensures
        lies(n, d, t, q, side),
{
    let unit = d * pow2(t);
    lemma_pow2_pos(t);
    assert(unit > 0) by (nonlinear_arith)
        requires
            d > 0,
            pow2(t) > 0,
            unit == d * pow2(t),
    ;
    let p = 2 * half;
    assert((sig + 1) * unit == sig * unit + unit) by (nonlinear_arith);
    assert(q * unit <= n) by (nonlinear_arith)
        requires
            sig * unit <= n * p,
            sig == q * p + r,
            0 <= r,
            p > 0,
            unit > 0,
    ;
    assert(n < (q + 1) * unit) by (nonlinear_arith)
        requires
            n * p < (sig + 1) * unit,
            sig == q * p + r,
            r < p,
            p > 0,
            unit > 0,
    ;
    if r < half {
        assert(2 * n < (2 * q + 1) * unit) by (nonlinear_arith)
            requires
                n * p < (sig + 1) * unit,
                sig == q * p + r,
                r + 1 <= half,
                p == 2 * half,
                half > 0,
                unit > 0,
        ;
    } else if r == half && !inexact {
        assert(2 * n == (2 * q + 1) * unit) by (nonlinear_arith)
            requires
                n * p == sig * unit,
                sig == q * p + half,
                p == 2 * half,
                half > 0,
        ;
    } else if r == half {
        assert(2 * n > (2 * q + 1) * unit) by (nonlinear_arith)
            requires
                n * p > sig * unit,
                sig == q * p + half,
                p == 2 * half,
                half > 0,
                unit > 0,
        ;
    } else {
        assert(2 * n > (2 * q + 1) * unit) by (nonlinear_arith)
            requires
                n * p >= sig * unit,
                sig == q * p + r,
                r >= half + 1,
                p == 2 * half,
                half > 0,
                unit > 0,
        ;
    }
}

/// 2^k.
pub(crate) fn two_to(k: u32) -> (p: u128)
    requires
        k < 128,
    ensures
        p == pow2(k as nat),
{
    let mut p: u128 = 1;
    let mut i: u32 = 0;
    proof {
        lemma_named_powers();
    }
    while i < k
        invariant
            i <= k < 128,
            p == pow2(i as nat),
        decreases k - i,
    {
        proof {
            lemma_pow2_unfold((i + 1) as nat);
            lemma_pow2_under_limit((i + 1) as nat);
        }
        p = p * 2;
        i = i + 1;
    }
    p
}

proof fn lemma_pow2_under_limit(k: nat)
    requires
        k < 128,
    ensures
        pow2(k) <= 0x8000_0000_0000_0000_0000_0000_0000_0000,
{
    lemma_named_powers();
    lemma_pow2_adds(63, 63);
    lemma_pow2_adds(126, 1);
    if k < 127 {
        lemma_pow2_strictly_increases(k, 127);
    }
}

/// How many bits `x` is written with.
pub(crate) fn bit_length(x: u128) -> (l: u32)
    requires
        x > 0,
    ensures
        1 <= l <= 128,
        pow2((l - 1) as nat) <= x < pow2(l as nat),
{
    let mut rest: u128 = x;
    let mut l: u32 = 0;
    proof {
        lemma_named_powers();
    }
    while rest > 1
        invariant
            0 < rest,
            l <= 127,
            rest * pow2(l as nat) <= x < (rest + 1) * pow2(l as nat),
        decreases rest,
    {
        proof {
            let (k, p) = (rest as int, pow2(l as nat) as int);
            lemma_pow2_unfold((l + 1) as nat);
            assert((k / 2) * (2 * p) <= k * p) by (nonlinear_arith)
                requires
                    p >= 0,
                    k >= 0,
            ;
            assert((k + 1) * p <= (k / 2 + 1) * (2 * p)) by (nonlinear_arith)
                requires
                    p >= 0,
                    k >= 0,
            ;
            if l == 127 {
                lemma_named_powers();
                lemma_pow2_adds(63, 63);
                lemma_pow2_adds(126, 1);
                assert(2 * p <= k * p) by (nonlinear_arith)
                    requires
                        k >= 2,
                        p >= 0,
                ;
            }
        }
        rest = rest / 2;
        l = l + 1;
    }
    proof {
        lemma_pow2_unfold((l + 1) as nat);
        assert(rest == 1);
        assert(1 * pow2(l as nat) == pow2(l as nat));
    }
    l + 1
}

/// The magnitude nearest to `sig * 2^exp`, or, where that is `inexact`, to
/// what lies past it by less than one step of `sig`.
pub(crate) fn pack(
    sig: u128,
    exp: i64,
    inexact: bool,
    Ghost(a): Ghost<nat>,
    Ghost(b): Ghost<nat>,
    Ghost(n): Ghost<int>,
    Ghost(d): Ghost<int>,
) -> (m: u64)
    requires
        0 < sig < 0x8000_0000_0000_0000_0000_0000_0000_0000,
        inexact ==> sig >= 0x40_0000_0000_0000,
        -100_000 <= exp <= 100_000,
        a - b == exp,
        d > 0,
        stands_for(sig as int, inexact, a, b, n, d),
    ensures
        nearest_even(n, d, m as int),
{
    let l: u32 = bit_length(sig);
    proof {
        lemma_named_powers();
        lemma_pow2_adds(63, 63);
        lemma_pow2_adds(126, 1);
        lemma_pow2_adds(52, 1);
        lemma_pow2_adds(52, 2);
        lemma_pow2_unfold(2);
        if l > 127 {
            lemma_longer(127, (l - 1) as nat);
        }
        if inexact && l <= 54 {
            lemma_longer(l as nat, 54);
        }
    }
    let t: i64 = if exp + (l as i64) > 53 {
        exp + (l as i64) - 53
    } else {
        0
    };
    if t > 2045 {
        proof {
            lemma_stands_reaches(sig as int, inexact, a, b, n, d, (l - 1) as nat, 2098);
            assert(INFINITE as int / (STEP as int) == 2047);
            assert(INFINITE as int % (STEP as int) == 0);
            lemma_pow2_adds(52, 2046);
            lemma_infinite_is_nearest(n, d);
        }
        return INFINITE;
    }
    if t <= exp {
        let k: u32 = (exp - t) as u32;
        proof {
            if t > 0 {
                lemma_pow2_adds((l - 1) as nat, k as nat);
            }
            lemma_pow2_adds(l as nat, k as nat);
            lemma_longer((l + k) as nat, 53);
            lemma_pow2_pos(k as nat);
            let (p, lo, hi) = (
                pow2(k as nat) as int,
                pow2((l - 1) as nat) as int,
                pow2(l as nat) as int,
            );
            assert(lo * p <= sig * p < hi * p) by (nonlinear_arith)
                requires
                    lo <= sig < hi,
                    p > 0,
            ;
        }
        let m: u64 = (sig * two_to(k)) as u64;
        proof {
            lemma_worth_of_parts(t as int, m as int);
            lemma_stands_shifted(sig as int, inexact, a, b, 0, (k + t) as nat, n, d);
            lemma_pow2_adds(k as nat, t as nat);
            let (x, y, z) = (sig as int, pow2(k as nat) as int, pow2(t as nat) as int);
            assert(x * (d * (y * z)) == ((x * y) * z) * d) by (nonlinear_arith);
            lemma_exact_is_nearest(n, d, t * STEP + m);
        }
        return (t as u64) * STEP + m;
    }
    let s: i64 = t - exp;
    let ghost tn = t as nat;
    let ghost sn = s as nat;
    proof {
        lemma_stands_shifted(sig as int, inexact, a, b, sn, tn, n, d);
        lemma_stands_positive(sig as int, inexact, tn, sn, n, d);
    }
    if s >= 128 {
        proof {
            lemma_vanishes(sig as int, inexact, sn, n, d);
            lemma_choice_is_nearest(n, d, 0, 0, Side::Under, false);
        }
        return 0;
    }
    let part: u128 = two_to(s as u32);
    proof {
        lemma_pow2_unfold(sn);
        lemma_pow2_pos((s - 1) as nat);
    }
    let half: u128 = part / 2;
    let q: u128 = sig / part;
    let r: u128 = sig % part;
    let side: Side = if r < half {
        Side::Under
    } else if r == half && !inexact {
        Side::Between
    } else {
        Side::Over
    };
    let up: bool = match side {
        Side::Under => false,
        Side::Between => q % 2 == 1,
        Side::Over => true,
    };
    proof {
        lemma_fundamental_div_mod(sig as int, part as int);
        let (x, p, y) = (sig as int, part as int, q as int);
        assert(y * p == p * y) by (nonlinear_arith);
        lemma_cut(n, d, tn, sn, x, inexact, y, r as int, half as int, side);
        if t > 0 {
            lemma_pow2_adds(52, sn);
        }
        lemma_pow2_adds(53, sn);
        lemma_longer(l as nat, (53 + s) as nat);
        assert(y < 2 * STEP) by (nonlinear_arith)
            requires
                p * y <= x,
                x < 2 * STEP * p,
                p > 0,
        ;
        if t > 0 {
            assert(STEP <= y) by (nonlinear_arith)
                requires
                    x < p * y + p,
                    STEP * p <= x,
                    p > 0,
            ;
        }
        lemma_choice_is_nearest(n, d, tn, y, side, up);
    }
    let m: u64 = (t as u64) * STEP + q as u64 + if up {
        1
    } else {
        0
    };
    if m > INFINITE {
        INFINITE
    } else {
        m
    }
}

proof fn lemma_longer(k: nat, l: nat)
    requires
        k <= l,
    ensures
        pow2(k) <= pow2(l),
{
    if k < l {
        lemma_pow2_strictly_increases(k, l);
    }
}

proof fn lemma_stands_positive(sig: int, inexact: bool, a: nat, b: nat, n: int, d: int)
    requires
        sig >= 0,
        d > 0,
        stands_for(sig, inexact, a, b, n, d),
    ensures
        n >= 0,
{
    let (pa, pb) = (pow2(a) as int, pow2(b) as int);
    lemma_pow2_pos(a);
    lemma_pow2_pos(b);
    assert(n >= 0) by (nonlinear_arith)
        requires
            sig * (d * pa) <= n * pb,
            sig >= 0,
            d > 0,
            pa > 0,
            pb > 0,
    ;
}

/// A value of `l + 1` bits at 2^(a - b) is at least 2^k, where those are as
/// many.
proof fn lemma_stands_reaches(
    sig: int,
    inexact: bool,
    a: nat,
    b: nat,
    n: int,
    d: int,
    l: nat,
    k: nat,
)
    requires
        d > 0,
        sig >= pow2(l),
        l + a >= k + b,
        stands_for(sig, inexact, a, b, n, d),
    ensures
        n >= pow2(k) * d,
{
    let (pa, pb, pl, pk) = (
        pow2(a) as int,
        pow2(b) as int,
        pow2(l) as int,
        pow2(k) as int,
    );
    lemma_pow2_pos(a);
    lemma_pow2_pos(b);
    lemma_pow2_adds(l, a);
    lemma_pow2_adds(k, b);
    lemma_longer(k + b, l + a);
    assert(sig * (d * pa) >= (pl * pa) * d) by (nonlinear_arith)
        requires
            sig >= pl,
            d > 0,
            pa > 0,
    ;
    assert(n >= pk * d) by (nonlinear_arith)
        requires
            n * pb >= (pl * pa) * d,
            pl * pa >= pk * pb,
            d > 0,
            pb > 0,
    ;
}

/// What is cut off whole is nearer to zero.
proof fn lemma_vanishes(sig: int, inexact: bool, s: nat, n: int, d: int)
    requires
        d > 0,
        0 < sig < 0x8000_0000_0000_0000_0000_0000_0000_0000,
        s >= 128,
        stands_for(sig, inexact, 0, s, n, d),
        n >= 0,
    ensures
        lies(n, d, 0, 0, Side::Under),
{
    lemma_named_powers();
    lemma_pow2_adds(63, 63);
    lemma_pow2_adds(126, 1);
    lemma_pow2_adds(127, 1);
    lemma_longer(128, s);
    let p = pow2(s) as int;
    assert((sig + 1) * (d * 1) == sig * d + d) by (nonlinear_arith);
    assert(sig * (d * 1) == sig * d) by (nonlinear_arith);
    if 2 * n >= d {
        assert(2 * (n * p) >= d * p) by (nonlinear_arith)
            requires
                2 * n >= d,
                p > 0,
        ;
        assert(d * p >= 2 * (sig * d + d)) by (nonlinear_arith)
            requires
                p >= 2 * (sig + 1),
                d > 0,
        ;
    }
}

} // verus!
