//! Where the arithmetic loses nothing: on whole numbers of up to 2^53, sums
//! and products are exact, and a quotient is the number nearest to the true
//! one.
use crate::arithmetic::{
    count_of, law_count_is_exact, lemma_counted, lemma_rounded, lemma_rounded_exact, lemma_signed,
    rounded, signed,
};
use crate::boxes::{covered, intersection, overlap, shared, FaceBox};
use crate::face::{total, Face};
use crate::number::{
    lemma_named_powers, lemma_quotient, lemma_worth_increases, units, worth, zero, Num, INFINITE,
    STEP,
};
use crate::rounding::{
    lemma_exact_is_nearest, lemma_nearest_exists, lemma_nearest_is_one, nearest_even,
};
use vstd::arithmetic::power2::{lemma_pow2_adds, lemma_pow2_pos, lemma_pow2_strictly_increases, pow2};
use vstd::math::{max, min};
use vstd::prelude::*;

verus! {

/// An integer that is a number exactly, as is every one nearer to zero.
pub open spec fn small(n: int) -> bool {
    -2 * STEP <= n <= 2 * STEP
}

/// Units add up as the integers do.
pub proof fn lemma_units(m: int, n: int)
    ensures
        units(m) + units(n) == units(m + n),
        units(-m) == -units(m),
        units(0) == 0,
        m > 0 <==> units(m) > 0,
        m < n <==> units(m) < units(n),
        units(m) * units(n) == units(m * n) * pow2(1074),
{
    lemma_pow2_pos(1074);
    let u = pow2(1074) as int;
    assert(m * u + n * u == (m + n) * u) by (nonlinear_arith);
    assert((-m) * u == -(m * u)) by (nonlinear_arith);
    assert(0 * u == 0);
    assert(m > 0 <==> m * u > 0) by (nonlinear_arith)
        requires
            u > 0,
    ;
    assert(m < n <==> m * u < n * u) by (nonlinear_arith)
        requires
            u > 0,
    ;
    assert((m * u) * (n * u) == ((m * n) * u) * u) by (nonlinear_arith);
}

/// A small integer is a finite number, and its sign is the integer's but at
/// zero.
pub proof fn lemma_small(a: Num, n: int)
    requires
        a.is_int(n),
        small(n),
    ensures
        a.magnitude() < INFINITE,
        n != 0 ==> a.negative() == (n < 0),
        worth(a.magnitude()) == units(if n < 0 {
            -n
        } else {
            n
        }),
        n == 0 <==> a.is_zero(),
{
    let m = a.magnitude();
    lemma_units(n, 0);
    lemma_units(0, n);
    assert(worth(0) == 0);
    if m > 0 {
        lemma_worth_increases(0, m);
    }
    if m == INFINITE {
        lemma_named_powers();
        assert(INFINITE as int / (STEP as int) == 2047);
        assert((INFINITE as int) % (STEP as int) == 0);
        lemma_pow2_adds(52, 2046);
        lemma_pow2_adds(53, 1074);
        lemma_pow2_adds(1, 52);
        lemma_pow2_strictly_increases(1127, 2098);
        lemma_units(2 * STEP, n);
        lemma_units(2 * STEP, -n);
        assert(units(2 * STEP) == pow2(1127));
    }
}

/// A small integer under a sign that may be either at zero.
pub proof fn lemma_exactly(negative: bool, n: int)
    requires
        small(n),
        n != 0 ==> negative == (n < 0),
    ensures
        rounded(
            negative,
            units(if n < 0 {
                -n
            } else {
                n
            }),
            1,
        ).is_int(n),
        signed(negative, 0).is_int(0),
{
    let size = if n < 0 {
        -n
    } else {
        n
    };
    lemma_units(size, n);
    lemma_counted(size);
    assert(worth(0) == 0);
    let m = if size == 0 {
        0
    } else {
        choose|m: int| 0 <= m < INFINITE && worth(m) == units(size)
    };
    lemma_rounded_exact(negative, m);
    lemma_signed(negative, m);
    lemma_signed(negative, 0);
}

/// A sum of small integers is their sum.
pub proof fn law_sums_are_exact(a: Num, b: Num, m: int, n: int)
    requires
        a.is_int(m),
        b.is_int(n),
        small(m),
        small(n),
        small(m + n),
    ensures
        a.plus(b).is_int(m + n),
{
    reveal(Num::plus);
    lemma_small(a, m);
    lemma_small(b, n);
    lemma_units(m, n);
    lemma_units(m + n, 0);
    lemma_exactly(m + n < 0, m + n);
    lemma_exactly(a.negative() && b.negative(), 0);
    lemma_units(0, m + n);
}

/// So is their difference.
pub proof fn law_differences_are_exact(a: Num, b: Num, m: int, n: int)
    requires
        a.is_int(m),
        b.is_int(n),
        small(m),
        small(n),
        small(m - n),
    ensures
        a.minus(b).is_int(m - n),
{
    lemma_small(b, n);
    lemma_signed(!b.negative(), b.magnitude());
    lemma_units(n, 0);
    law_sums_are_exact(a, b.opposite(), m, -n);
}

/// A product of small integers is their product.
pub proof fn law_products_are_exact(a: Num, b: Num, m: int, n: int)
    requires
        a.is_int(m),
        b.is_int(n),
        small(m),
        small(n),
        small(m * n),
    ensures
        a.times(b).is_int(m * n),
{
    reveal(Num::times);
    lemma_small(a, m);
    lemma_small(b, n);
    let negative = a.negative() != b.negative();
    if m == 0 || n == 0 {
        assert(m * n == 0) by (nonlinear_arith)
            requires
                m == 0 || n == 0,
        ;
        lemma_exactly(negative, 0);
    } else {
        let p = if m < 0 {
            -m
        } else {
            m
        };
        let q = if n < 0 {
            -n
        } else {
            n
        };
        assert(m * n == if (m < 0) != (n < 0) {
            -(p * q)
        } else {
            p * q
        }) by (nonlinear_arith)
            requires
                p == if m < 0 {
                    -m
                } else {
                    m
                },
                q == if n < 0 {
                    -n
                } else {
                    n
                },
        ;
        assert(p * q > 0) by (nonlinear_arith)
            requires
                p > 0,
                q > 0,
        ;
        lemma_units(p, q);
        lemma_exactly(negative, m * n);
        let u = pow2(1074) as int;
        lemma_same_ratio(negative, units(p * q), 1, u, units(p) * units(q), u);
    }
}

/// What is nearest to a ratio is nearest to it in other terms.
pub proof fn lemma_nearest_in_other_terms(n: int, d: int, k: int, m: int)
    requires
        k > 0,
    ensures
        nearest_even(n * k, d * k, m) == nearest_even(n, d, m),
{
    lemma_terms(worth(m - 1) + worth(m), n, d, k);
    lemma_terms(worth(m) + worth(m + 1), n, d, k);
}

proof fn lemma_terms(w: int, n: int, d: int, k: int)
    requires
        k > 0,
    ensures
        w * (d * k) < 2 * (n * k) <==> w * d < 2 * n,
        2 * (n * k) < w * (d * k) <==> 2 * n < w * d,
{
    let x = w * d;
    assert(w * (d * k) == x * k) by (nonlinear_arith)
        requires
            x == w * d,
    ;
    assert(2 * (n * k) == (2 * n) * k) by (nonlinear_arith);
    let y = 2 * n;
    assert(x * k < y * k <==> x < y) by (nonlinear_arith)
        requires
            k > 0,
    ;
    assert(y * k < x * k <==> y < x) by (nonlinear_arith)
        requires
            k > 0,
    ;
}

/// A ratio is rounded to the same number in other terms.
proof fn lemma_same_ratio(negative: bool, n: int, d: int, k: int, nk: int, dk: int)
    requires
        k > 0,
        d > 0,
        nk == n * k,
        dk == d * k,
    ensures
        rounded(negative, nk, dk) == rounded(negative, n, d),
{
    assert(d * k > 0) by (nonlinear_arith)
        requires
            k > 0,
            d > 0,
    ;
    lemma_nearest_exists(nk, dk);
    lemma_nearest_exists(n, d);
    let one = choose|m: int| nearest_even(nk, dk, m);
    let two = choose|m: int| nearest_even(n, d, m);
    assert(one == two) by {
        lemma_nearest_in_other_terms(n, d, k, one);
        lemma_nearest_is_one(n, d, one, two);
    }
}

/// A quotient of small integers is the number nearest to the true one.
pub proof fn law_quotients_are_nearest(a: Num, b: Num, m: int, n: int)
    requires
        a.is_int(m),
        b.is_int(n),
        small(m),
        small(n),
        0 <= m,
        0 < n,
    ensures
        nearest_even(units(m), n, a.over(b).magnitude()),
        m > 0 ==> !a.over(b).negative(),
        !a.over(b).is_nan(),
{
    reveal(Num::over);
    lemma_small(a, m);
    lemma_small(b, n);
    lemma_units(m, n);
    lemma_units(n, 0);
    lemma_pow2_pos(1074);
    let negative = a.negative() != b.negative();
    if m == 0 {
        lemma_signed(negative, 0);
        assert(0 == worth(0) * n);
        lemma_exact_is_nearest(0, n, 0);
    } else {
        lemma_rounded(negative, units(m) * pow2(1074), units(n));
        lemma_nearest_in_other_terms(units(m), n, pow2(1074) as int, a.over(b).magnitude());
    }
}

/// A quotient that is an integer is that one.
pub proof fn law_whole_quotients_are_exact(a: Num, b: Num, q: int, n: int)
    requires
        a.is_int(q * n),
        b.is_int(n),
        small(q * n),
        small(n),
        small(q),
        0 <= q,
        0 < n,
    ensures
        a.over(b).is_int(q),
{
    assert(q * n >= 0) by (nonlinear_arith)
        requires
            q >= 0,
            n > 0,
    ;
    assert(q > 0 ==> q * n > 0) by (nonlinear_arith)
        requires
            n > 0,
    ;
    law_quotients_are_nearest(a, b, q * n, n);
    lemma_counted(q);
    lemma_units(q, 0);
    assert(worth(0) == 0);
    let m = if q == 0 {
        0
    } else {
        choose|m: int| 0 <= m < INFINITE && worth(m) == units(q)
    };
    let u = pow2(1074) as int;
    assert((q * n) * u == (q * u) * n) by (nonlinear_arith);
    lemma_exact_is_nearest(units(q * n), n, m);
    lemma_nearest_is_one(units(q * n), n, m, a.over(b).magnitude());
    if q == 0 {
        assert(0 * n == 0);
    }
}

/// Rounding an integer changes nothing.
proof fn lemma_integer_stays(a: Num, n: int)
    requires
        a.is_int(n),
        small(n),
        0 <= n,
    ensures
        a.to_integer().is_int(n),
{
    lemma_small(a, n);
    lemma_units(1, 0);
    let u = units(1);
    assert(units(1) == pow2(1074));
    assert(units(n) == n * u);
    assert(n * (2 * u) <= 2 * (n * u) + u && 2 * (n * u) + u < (n + 1) * (2 * u)) by (
        nonlinear_arith)
        requires
            u > 0,
    ;
    lemma_quotient(2 * units(n) + u, 2 * u, n);
    assert(a.nearest_up() == n);
    lemma_exactly(a.negative(), n);
}

/// What so many integers come to.
pub open spec fn sum_of(counts: Seq<int>) -> int
    decreases counts.len(),
{
    if counts.len() == 0 {
        0
    } else {
        sum_of(counts.drop_last()) + counts.last()
    }
}

/// Whether each number is the integer of its place, none of them negative.
pub open spec fn are_ints(numbers: Seq<Num>, counts: Seq<int>) -> bool {
    &&& numbers.len() == counts.len()
    &&& forall|i: int|
        0 <= i < numbers.len() ==> (#[trigger] numbers[i]).is_int(counts[i]) && counts[i] >= 0
}

proof fn lemma_sum_is_no_less(counts: Seq<int>)
    requires
        forall|i: int| 0 <= i < counts.len() ==> #[trigger] counts[i] >= 0,
    ensures
        sum_of(counts) >= 0,
    decreases counts.len(),
{
    if counts.len() > 0 {
        lemma_sum_is_no_less(counts.drop_last());
    }
}

/// Integers are summed exactly, so long as the sum is a number exactly.
pub proof fn law_totals_are_exact(numbers: Seq<Num>, counts: Seq<int>)
    requires
        are_ints(numbers, counts),
        small(sum_of(counts)),
    ensures
        total(numbers).is_int(sum_of(counts)),
        sum_of(counts) >= 0,
    decreases numbers.len(),
{
    if numbers.len() == 0 {
        lemma_signed(true, 0);
        lemma_units(0, 0);
        assert(worth(0) == 0);
    } else {
        let (before, last) = (counts.drop_last(), counts.last());
        assert forall|i: int| 0 <= i < before.len() implies #[trigger] before[i] >= 0 by {
            assert(numbers[i].is_int(counts[i]) && counts[i] >= 0);
        }
        assert(numbers.last().is_int(last) && last >= 0);
        lemma_sum_is_no_less(before);
        law_totals_are_exact(numbers.drop_last(), before);
        law_sums_are_exact(total(numbers.drop_last()), numbers.last(), sum_of(before), last);
    }
}

/// Where a face is past each threshold or short of it with no doubt, its age
/// is how many it is past.
pub proof fn law_certain_thresholds_are_counted(passed: Seq<Num>, past: Seq<int>)
    requires
        are_ints(passed, past),
        forall|i: int| 0 <= i < past.len() ==> 0 <= #[trigger] past[i] <= 1,
        past.len() <= 2 * STEP,
    ensures
        total(passed).is_int(sum_of(past)),
        0 <= sum_of(past) <= past.len(),
{
    lemma_ones(past);
    law_totals_are_exact(passed, past);
}

proof fn lemma_ones(past: Seq<int>)
    requires
        forall|i: int| 0 <= i < past.len() ==> 0 <= #[trigger] past[i] <= 1,
    ensures
        0 <= sum_of(past) <= past.len(),
    decreases past.len(),
{
    if past.len() > 0 {
        lemma_ones(past.drop_last());
    }
}

/// A face whose scores are whole years has as its mean the number nearest to
/// the true mean.
pub proof fn law_mean_is_nearest_the_true_mean(face: Face, years: Seq<int>)
    requires
        are_ints(face.scores, years),
        0 < years.len(),
        small(years.len() as int),
        small(sum_of(years)),
    ensures
        nearest_even(units(sum_of(years)), years.len() as int, face.mean().magnitude()),
        sum_of(years) > 0 ==> !face.mean().negative(),
        !face.mean().is_nan(),
{
    law_totals_are_exact(face.scores, years);
    law_count_is_exact(years.len() as int);
    law_quotients_are_nearest(
        total(face.scores),
        count_of(years.len() as int),
        sum_of(years),
        years.len() as int,
    );
}

/// A face that scores the same whole number of years every time is reported at
/// that age.
pub proof fn law_steady_age_is_reported(face: Face, year: int)
    requires
        face.wf(),
        face.scores.len() > 0,
        forall|i: int| 0 <= i < face.scores.len() ==> (#[trigger] face.scores[i]).is_int(year),
        0 <= year,
        30 * year <= 2 * STEP,
    ensures
        face.reported().is_int(year),
{
    let held = face.scores.len() as int;
    let years = Seq::new(face.scores.len(), |i: int| year);
    lemma_sum_of_same(years, year);
    assert(0 <= year * held <= 30 * year) by (nonlinear_arith)
        requires
            0 <= year,
            0 <= held <= 30,
    ;
    law_totals_are_exact(face.scores, years);
    law_count_is_exact(held);
    law_whole_quotients_are_exact(total(face.scores), count_of(held), year, held);
    law_count_is_exact(10);
    let mean = face.mean();
    law_products_are_exact(mean, count_of(10), year, 10);
    lemma_integer_stays(mean.times(count_of(10)), year * 10);
    law_whole_quotients_are_exact(
        mean.times(count_of(10)).to_integer(),
        count_of(10),
        year,
        10,
    );
}

proof fn lemma_sum_of_same(counts: Seq<int>, n: int)
    requires
        forall|i: int| 0 <= i < counts.len() ==> #[trigger] counts[i] == n,
    ensures
        sum_of(counts) == n * counts.len(),
    decreases counts.len(),
{
    if counts.len() > 0 {
        lemma_sum_of_same(counts.drop_last(), n);
        let l = counts.len() as int;
        assert(n * (l - 1) + n == n * l) by (nonlinear_arith);
    }
}

/// A box of whole pixels: where it is, and how wide and high.
pub struct Pixels {
    pub x: int,
    pub y: int,
    pub w: int,
    pub h: int,
}

impl Pixels {
    /// A box of some width and height, no further out than 2^26 pixels.
    pub open spec fn wf(self) -> bool {
        &&& -0x400_0000 <= self.x <= 0x400_0000
        &&& -0x400_0000 <= self.y <= 0x400_0000
        &&& 0 < self.w <= 0x400_0000
        &&& 0 < self.h <= 0x400_0000
    }

    /// Whether a box is these pixels.
    pub open spec fn are(self, b: FaceBox) -> bool {
        &&& b.0.is_int(self.x)
        &&& b.1.is_int(self.y)
        &&& b.2.is_int(self.w)
        &&& b.3.is_int(self.h)
    }

    /// How many pixels two boxes have in common.
    pub open spec fn common(self, other: Pixels) -> int {
        in_both(self.x, self.w, other.x, other.w) * in_both(self.y, self.h, other.y, other.h)
    }

    /// How many pixels are in either.
    pub open spec fn either(self, other: Pixels) -> int {
        self.w * self.h + other.w * other.h - self.common(other)
    }
}

/// How long two spans, each from a point and so long, run together.
pub open spec fn in_both(a: int, al: int, b: int, bl: int) -> int {
    let from = if a < b {
        b
    } else {
        a
    };
    let to = if a + al < b + bl {
        a + al
    } else {
        b + bl
    };
    if from < to {
        to - from
    } else {
        0
    }
}

proof fn lemma_span_in_both(a: Num, al: Num, b: Num, bl: Num, i: int, il: int, j: int, jl: int)
    requires
        a.is_int(i),
        al.is_int(il),
        b.is_int(j),
        bl.is_int(jl),
        -0x400_0000 <= i <= 0x400_0000,
        -0x400_0000 <= j <= 0x400_0000,
        0 < il <= 0x400_0000,
        0 < jl <= 0x400_0000,
    ensures
        shared(a, a.plus(al), b, b.plus(bl)).is_int(in_both(i, il, j, jl)),
        0 <= in_both(i, il, j, jl) <= il,
        in_both(i, il, j, jl) <= jl,
{
    law_sums_are_exact(a, al, i, il);
    law_sums_are_exact(b, bl, j, jl);
    let to = a.plus(al).lesser(b.plus(bl));
    let from = a.greater(b);
    lemma_units(i + il, j + jl);
    lemma_units(j + jl, i + il);
    lemma_units(i, j);
    lemma_units(j, i);
    let end = if i + il < j + jl {
        i + il
    } else {
        j + jl
    };
    let start = if i < j {
        j
    } else {
        i
    };
    assert(to.is_int(end));
    assert(from.is_int(start));
    law_differences_are_exact(to, from, end, start);
    lemma_units(end - start, 0);
    assert(worth(0) == 0);
    assert(zero().is_int(0));
}

/// The overlap of two boxes of whole pixels is the number nearest to the
/// pixels in both over the pixels in either.
pub proof fn law_overlap_is_common_over_either(a: FaceBox, b: FaceBox, p: Pixels, q: Pixels)
    requires
        p.wf(),
        q.wf(),
        p.are(a),
        q.are(b),
    ensures
        0 <= p.common(q) <= p.either(q),
        0 < p.either(q),
        nearest_even(units(p.common(q)), p.either(q), overlap(a, b).magnitude()),
        p.common(q) > 0 ==> !overlap(a, b).negative(),
        !overlap(a, b).is_nan(),
{
    reveal(overlap);
    lemma_span_in_both(a.0, a.2, b.0, b.2, p.x, p.w, q.x, q.w);
    lemma_span_in_both(a.1, a.3, b.1, b.3, p.y, p.h, q.y, q.h);
    let (iw, ih) = (in_both(p.x, p.w, q.x, q.w), in_both(p.y, p.h, q.y, q.h));
    lemma_area(iw, ih, p.w, p.h);
    lemma_area(iw, ih, q.w, q.h);
    lemma_area(p.w, p.h, 0x400_0000, 0x400_0000);
    lemma_area(q.w, q.h, 0x400_0000, 0x400_0000);
    law_products_are_exact(
        shared(a.0, a.0.plus(a.2), b.0, b.0.plus(b.2)),
        shared(a.1, a.1.plus(a.3), b.1, b.1.plus(b.3)),
        iw,
        ih,
    );
    law_products_are_exact(a.2, a.3, p.w, p.h);
    law_products_are_exact(b.2, b.3, q.w, q.h);
    law_sums_are_exact(a.2.times(a.3), b.2.times(b.3), p.w * p.h, q.w * q.h);
    law_differences_are_exact(
        a.2.times(a.3).plus(b.2.times(b.3)),
        intersection(a, b),
        p.w * p.h + q.w * q.h,
        p.common(q),
    );
    assert(p.w * p.h > 0 && q.w * q.h > 0) by (nonlinear_arith)
        requires
            p.w > 0,
            p.h > 0,
            q.w > 0,
            q.h > 0,
    ;
    assert(worth(0) == 0);
    lemma_units(p.w, 0);
    lemma_units(p.h, 0);
    lemma_units(q.w, 0);
    lemma_units(q.h, 0);
    lemma_units(p.either(q), 0);
    law_quotients_are_nearest(intersection(a, b), covered(a, b), p.common(q), p.either(q));
}

/// The overlap of two boxes of whole pixels, told from their corners alone: the
/// number nearest to what they have in common over what they cover together.
pub proof fn law_overlap_is_intersection_over_union(a: FaceBox, b: FaceBox, p: Pixels, q: Pixels)
    requires
        a.0.is_int(p.x) && a.1.is_int(p.y) && a.2.is_int(p.w) && a.3.is_int(p.h),
        b.0.is_int(q.x) && b.1.is_int(q.y) && b.2.is_int(q.w) && b.3.is_int(q.h),
        -0x400_0000 <= p.x <= 0x400_0000 && -0x400_0000 <= p.y <= 0x400_0000,
        -0x400_0000 <= q.x <= 0x400_0000 && -0x400_0000 <= q.y <= 0x400_0000,
        0 < p.w <= 0x400_0000 && 0 < p.h <= 0x400_0000,
        0 < q.w <= 0x400_0000 && 0 < q.h <= 0x400_0000,
    ensures
        ({
            let wide = min(p.x + p.w, q.x + q.w) - max(p.x, q.x);
            let high = min(p.y + p.h, q.y + q.h) - max(p.y, q.y);
            let common = max(wide, 0) * max(high, 0);
            &&& !overlap(a, b).is_nan()
            &&& common > 0 ==> !overlap(a, b).negative()
            &&& nearest_even(
                units(common),
                p.w * p.h + q.w * q.h - common,
                overlap(a, b).magnitude(),
            )
        }),
{
    law_overlap_is_common_over_either(a, b, p, q);
}

proof fn lemma_area(w: int, h: int, wide: int, high: int)
    requires
        0 <= w <= wide,
        0 <= h <= high,
    ensures
        0 <= w * h <= wide * high,
{
    assert(0 <= w * h <= wide * high) by (nonlinear_arith)
        requires
            0 <= w <= wide,
            0 <= h <= high,
    ;
}

/// A box of whole pixels overlaps itself entirely.
pub proof fn law_box_overlaps_itself(a: FaceBox, p: Pixels)
    requires
        p.wf(),
        p.are(a),
    ensures
        overlap(a, a).is_int(1),
{
    law_overlap_is_common_over_either(a, a, p, p);
    let n = p.either(p);
    assert(p.common(p) == p.w * p.h);
    lemma_counted(1);
    let m = choose|m: int| 0 <= m < INFINITE && worth(m) == units(1);
    let u = pow2(1074) as int;
    assert(n * u == (1 * u) * n) by (nonlinear_arith);
    lemma_exact_is_nearest(units(n), n, m);
    lemma_nearest_is_one(units(n), n, m, overlap(a, a).magnitude());
}

} // verus!
