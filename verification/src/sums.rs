//! How far a sum, a mean or an age to one decimal can be from the exact one.
use crate::arithmetic::{
    count_of, law_count_is_exact, lemma_counted, lemma_rounded, lemma_signed,
};
use crate::exact::{
    law_certain_thresholds_are_counted, law_quotients_are_nearest, lemma_exactly,
    lemma_nearest_in_other_terms, lemma_small, lemma_units, small, sum_of,
};
use crate::face::{pixel_of, total, Face};
use crate::head::is_age;
use crate::number::{
    lemma_named_powers, lemma_worth_increases, units, worth, Num, INFINITE, STEP,
};
use crate::rounding::{
    lemma_exact_is_nearest, lemma_nearest_is_one, lemma_worth_of_parts, nearest_even,
};
use vstd::arithmetic::div_mod::{lemma_fundamental_div_mod, lemma_mod_bound};
use vstd::arithmetic::power2::{
    lemma2_to64, lemma_pow2_adds, lemma_pow2_pos, lemma_pow2_strictly_increases, lemma_pow2_unfold, pow2,
};
use vstd::prelude::*;

verus! {

/// Whether a number lies between zero and an integer.
pub open spec fn between(a: Num, most: int) -> bool {
    !a.is_nan() && 0 <= a.value() <= units(most)
}

/// Whether every one of them does.
pub open spec fn all_between(numbers: Seq<Num>, most: int) -> bool {
    forall|i: int| 0 <= i < numbers.len() ==> between(#[trigger] numbers[i], most)
}

/// What numbers come to exactly, in units of 2^-1074.
pub open spec fn exact_sum(numbers: Seq<Num>) -> int
    decreases numbers.len(),
{
    if numbers.len() == 0 {
        0
    } else {
        exact_sum(numbers.drop_last()) + numbers.last().value()
    }
}

/// How far apart two integers are.
pub open spec fn distance(a: int, b: int) -> int {
    if a < b {
        b - a
    } else {
        a - b
    }
}

/// What is nearest to a greater ratio is no less.
proof fn lemma_nearest_keeps_order(n: int, d: int, m: int, p: int, e: int, k: int)
    requires
        d > 0,
        e > 0,
        nearest_even(n, d, m),
        nearest_even(p, e, k),
        n * e <= p * d,
    ensures
        m <= k,
{
    if m > k {
        let low = worth(m - 1) + worth(m);
        let high = worth(k) + worth(k + 1);
        if k + 1 < m {
            lemma_worth_increases(k, m - 1);
            lemma_worth_increases(k + 1, m);
        }
        assert(high <= low);
        assert(low * d <= 2 * n);
        assert(2 * p <= high * e);
        assert((low * d) * e <= (2 * n) * e) by (nonlinear_arith)
            requires
                low * d <= 2 * n,
                e > 0,
        ;
        assert((2 * p) * d <= (high * e) * d) by (nonlinear_arith)
            requires
                2 * p <= high * e,
                d > 0,
        ;
        assert((2 * n) * e == 2 * (n * e)) by (nonlinear_arith);
        assert((2 * p) * d == 2 * (p * d)) by (nonlinear_arith);
        assert(d * e > 0) by (nonlinear_arith)
            requires
                d > 0,
                e > 0,
        ;
        assert((low * d) * e == low * (d * e)) by (nonlinear_arith);
        assert((high * e) * d == high * (d * e)) by (nonlinear_arith);
        assert(low <= high) by (nonlinear_arith)
            requires
                low * (d * e) <= high * (d * e),
                d * e > 0,
        ;
        assert(low * d == 2 * n) by (nonlinear_arith)
            requires
                low * d <= 2 * n,
                (2 * n) * e <= (low * d) * e,
                e > 0,
        ;
        assert(high * e == 2 * p) by (nonlinear_arith)
            requires
                2 * p <= high * e,
                (high * e) * d <= (2 * p) * d,
                d > 0,
        ;
    }
}

/// What is nearest to a ratio no greater than an integer is no greater.
proof fn lemma_nearest_under(n: int, d: int, m: int, most: int)
    requires
        d > 0,
        nearest_even(n, d, m),
        n <= units(most) * d,
        0 <= most,
        small(most),
    ensures
        0 <= worth(m) <= units(most),
        m < INFINITE,
{
    lemma_counted(most);
    lemma_units(most, 0);
    assert(worth(0) == 0);
    let k = if most == 0 {
        0
    } else {
        choose|k: int| 0 <= k < INFINITE && worth(k) == units(most)
    };
    assert(worth(k) * 1 == units(most));
    lemma_exact_is_nearest(units(most), 1, k);
    assert(n * 1 == n);
    lemma_nearest_keeps_order(n, d, m, units(most), 1, k);
    if m < k {
        lemma_worth_increases(m, k);
    }
    if m > 0 {
        lemma_worth_increases(0, m);
    }
}

/// A number between zero and a small integer is finite, and its value is what
/// its magnitude is worth.
proof fn lemma_between(a: Num, most: int)
    requires
        between(a, most),
        small(most),
    ensures
        a.magnitude() < INFINITE,
        a.value() == worth(a.magnitude()),
        a.value() > 0 ==> !a.negative(),
        a.value() == 0 <==> a.is_zero(),
{
    let m = a.magnitude();
    assert(worth(0) == 0);
    if m > 0 {
        lemma_worth_increases(0, m);
    }
    lemma_units(most, 0);
    lemma_units(0, most);
    law_count_is_exact(most);
    lemma_small(count_of(most), most);
    let k = count_of(most).magnitude();
    if m >= INFINITE {
        lemma_worth_increases(k, m);
    }
}

/// A sum of numbers that are not negative is the number nearest to theirs.
proof fn lemma_sum_is_nearest(a: Num, b: Num, m: int, n: int)
    requires
        between(a, m),
        between(b, n),
        small(m),
        small(n),
        small(m + n),
        0 <= m,
        0 <= n,
    ensures
        nearest_even(a.value() + b.value(), 1, a.plus(b).magnitude()),
        a.plus(b).value() == worth(a.plus(b).magnitude()),
        between(a.plus(b), m + n),
{
    reveal(Num::plus);
    lemma_between(a, m);
    lemma_between(b, n);
    let exact = a.value() + b.value();
    let c = a.plus(b);
    assert(worth(0) == 0);
    if exact == 0 {
        lemma_signed(a.negative() && b.negative(), 0);
        lemma_exact_is_nearest(0, 1, 0);
    } else {
        lemma_rounded(false, exact, 1);
    }
    lemma_units(m, n);
    lemma_nearest_under(exact, 1, c.magnitude(), m + n);
}

/// A sum of numbers between zero and an integer lies between zero and as many
/// times that integer.
pub proof fn law_total_is_between(numbers: Seq<Num>, most: int)
    requires
        all_between(numbers, most),
        0 <= most,
        small(most),
        small(most * numbers.len()),
    ensures
        between(total(numbers), most * numbers.len()),
    decreases numbers.len(),
{
    let len = numbers.len() as int;
    if len == 0 {
        lemma_signed(true, 0);
        lemma_units(0, 0);
        assert(worth(0) == 0);
        assert(most * 0 == 0);
    } else {
        let front = numbers.drop_last();
        lemma_one_fewer(most, len);
        assert forall|i: int| 0 <= i < front.len() implies between(#[trigger] front[i], most) by {
            assert(front[i] == numbers[i]);
        }
        law_total_is_between(front, most);
        assert(between(numbers[len - 1], most));
        lemma_sum_is_nearest(total(front), numbers.last(), most * (len - 1), most);
    }
}

proof fn lemma_one_fewer(most: int, len: int)
    requires
        0 <= most,
        0 < len,
    ensures
        most * (len - 1) + most == most * len,
        0 <= most * (len - 1) <= most * len,
{
    assert(most * (len - 1) + most == most * len && 0 <= most * (len - 1)) by (nonlinear_arith)
        requires
            0 <= most,
            0 < len,
    ;
}

/// Raising a number never lowers the sum.
pub proof fn law_total_keeps_order(a: Seq<Num>, b: Seq<Num>, most: int)
    requires
        a.len() == b.len(),
        all_between(a, most),
        all_between(b, most),
        forall|i: int| 0 <= i < a.len() ==> (#[trigger] a[i]).value() <= b[i].value(),
        0 <= most,
        small(most),
        small(most * a.len()),
    ensures
        total(a).value() <= total(b).value(),
    decreases a.len(),
{
    let len = a.len() as int;
    if len > 0 {
        let (x, y) = (a.drop_last(), b.drop_last());
        lemma_one_fewer(most, len);
        assert forall|i: int| 0 <= i < len - 1 implies between(#[trigger] x[i], most) && between(
            y[i],
            most,
        ) && x[i].value() <= y[i].value() by {
            assert(x[i] == a[i] && y[i] == b[i]);
            assert(between(b[i], most));
        }
        assert forall|i: int| 0 <= i < len - 1 implies between(#[trigger] y[i], most) by {
            assert(y[i] == b[i]);
        }
        law_total_keeps_order(x, y, most);
        law_total_is_between(x, most);
        law_total_is_between(y, most);
        assert(between(a[len - 1], most) && between(b[len - 1], most));
        assert(a[len - 1].value() <= b[len - 1].value());
        lemma_sum_is_nearest(total(x), a.last(), most * (len - 1), most);
        lemma_sum_is_nearest(total(y), b.last(), most * (len - 1), most);
        let (m, k) = (total(a).magnitude(), total(b).magnitude());
        lemma_nearest_keeps_order(
            total(x).value() + a.last().value(),
            1,
            m,
            total(y).value() + b.last().value(),
            1,
            k,
        );
        if m < k {
            lemma_worth_increases(m, k);
        }
    }
}

/// The step from a magnitude to the next.
proof fn lemma_step(m: int, e: int)
    requires
        0 <= m,
        m / (STEP as int) <= e <= 2046,
        1 <= e,
    ensures
        worth(m + 1) - worth(m) <= pow2((e - 1) as nat),
{
    lemma_named_powers();
    let x = m / (STEP as int);
    let t = if x == 0 {
        0
    } else {
        x - 1
    };
    let s = m - t * STEP;
    lemma_worth_of_parts(t, s);
    lemma_worth_of_parts(t, s + 1);
    let p = pow2(t as nat) as int;
    assert((s + 1) * p == s * p + p) by (nonlinear_arith);
    if t < e - 1 {
        lemma_pow2_strictly_increases(t as nat, (e - 1) as nat);
    }
}

/// A magnitude worth no more than 2^c.
proof fn lemma_magnitude_under(m: int, c: nat)
    requires
        0 <= m <= INFINITE,
        worth(m) <= pow2(1074 + c),
        c <= 52,
    ensures
        m <= (1023 + c) * STEP,
{
    let top = (1023 + c) * STEP;
    lemma_named_powers();
    assert(top / (STEP as int) == 1023 + c);
    assert(top % (STEP as int) == 0);
    lemma_pow2_adds(52, (1022 + c) as nat);
    if m > top {
        lemma_worth_increases(top, m);
    }
}

/// What is nearest to a ratio, where it is no more than 2^c, is off by no more
/// than 2^(c - 53).
proof fn lemma_error(n: int, d: int, m: int, c: nat)
    requires
        0 <= n,
        0 < d,
        nearest_even(n, d, m),
        worth(m) <= pow2(1074 + c),
        c <= 52,
    ensures
        distance(worth(m) * d, n) <= pow2(1021 + c) * d,
{
    lemma_magnitude_under(m, c);
    lemma_pow2_unfold((1022 + c) as nat);
    let e = 1023 + c;
    let h = pow2(1021 + c) as int;
    let w = worth(m);
    assert(worth(0) == 0);
    assert(m / (STEP as int) <= e);
    lemma_step(m, e as int);
    let v = worth(m + 1);
    assert((w + v) * d <= 2 * (w * d) + 2 * (h * d)) by (nonlinear_arith)
        requires
            v - w <= 2 * h,
            d > 0,
    ;
    if m > 0 {
        assert((m - 1) / (STEP as int) <= e);
        lemma_step(m - 1, e as int);
        let u = worth(m - 1);
        assert((u + w) * d >= 2 * (w * d) - 2 * (h * d)) by (nonlinear_arith)
            requires
                w - u <= 2 * h,
                d > 0,
        ;
    } else {
        assert(0 * d == 0);
        assert(h * d >= 0) by (nonlinear_arith)
            requires
                h >= 0,
                d > 0,
        ;
    }
}

/// A sum of `n` numbers that are not negative is no further than `n` times
/// 2^(c - 53) from the exact one, where it is no more than 2^c.
pub proof fn law_total_is_near_the_sum(numbers: Seq<Num>, most: int, c: nat)
    requires
        all_between(numbers, most),
        0 <= most,
        c <= 52,
        most <= pow2(c),
        most * numbers.len() <= pow2(c),
    ensures
        distance(total(numbers).value(), exact_sum(numbers)) <= numbers.len() * pow2(1021 + c),
    decreases numbers.len(),
{
    let len = numbers.len() as int;
    let h = pow2(1021 + c) as int;
    lemma_power_is_small(c);
    if len == 0 {
        lemma_signed(true, 0);
        assert(worth(0) == 0);
        assert(0 * h == 0);
    } else {
        let front = numbers.drop_last();
        lemma_one_fewer(most, len);
        assert forall|i: int| 0 <= i < front.len() implies between(#[trigger] front[i], most) by {
            assert(front[i] == numbers[i]);
        }
        law_total_is_near_the_sum(front, most, c);
        law_total_is_between(front, most);
        assert(between(numbers[len - 1], most));
        lemma_sum_is_nearest(total(front), numbers.last(), most * (len - 1), most);
        lemma_units_under(most * len, c);
        let exact = total(front).value() + numbers.last().value();
        lemma_error(exact, 1, total(numbers).magnitude(), c);
        assert((len - 1) * h + h == len * h) by (nonlinear_arith);
    }
}

proof fn lemma_power_is_small(c: nat)
    requires
        c <= 52,
    ensures
        0 < pow2(c) <= STEP,
{
    lemma_named_powers();
    lemma_pow2_pos(c);
    if c < 52 {
        lemma_pow2_strictly_increases(c, 52);
    }
}

proof fn lemma_units_under(n: int, c: nat)
    requires
        n <= pow2(c),
    ensures
        units(n) <= pow2(1074 + c),
{
    lemma_pow2_adds(1074, c);
    let u = pow2(1074) as int;
    let p = pow2(c) as int;
    assert(n * u <= u * p) by (nonlinear_arith)
        requires
            n <= p,
            u >= 0,
    ;
}

/// Two numbers no further apart than a billionth.
pub open spec fn within_a_billionth(a: int, b: int) -> bool {
    1_000_000_000 * distance(a, b) <= units(1)
}

proof fn lemma_billionth(a: int, b: int)
    requires
        distance(a, b) <= 2048 * pow2(1031),
    ensures
        within_a_billionth(a, b),
{
    lemma_named_powers();
    lemma_pow2_adds(1031, 11);
    lemma_pow2_adds(1042, 32);
    lemma2_to64();
    assert(units(1) == pow2(1074));
    let p = pow2(1042) as int;
    assert(pow2(1031) * 2048 == p);
    assert(p * 0x1_0000_0000 == pow2(1074));
}

/// What thresholds are passed by in a row, and in another after it, comes to
/// the age of both.
pub proof fn law_ages_of_parts_add_up(a: Seq<Num>, b: Seq<Num>)
    requires
        all_between(a, 1),
        all_between(b, 1),
        a.len() + b.len() <= 1000,
    ensures
        within_a_billionth(total(a + b).value(), total(a).plus(total(b)).value()),
{
    let both = a + b;
    let h = pow2(1031) as int;
    let (x, y) = (a.len() as int, b.len() as int);
    lemma2_to64();
    assert(pow2(10) == 1024);
    assert forall|i: int| 0 <= i < both.len() implies between(#[trigger] both[i], 1) by {
        if i < x {
            assert(both[i] == a[i]);
        } else {
            assert(both[i] == b[i - x]);
        }
    }
    law_total_is_near_the_sum(a, 1, 10);
    law_total_is_near_the_sum(b, 1, 10);
    law_total_is_near_the_sum(both, 1, 10);
    lemma_exact_sum_of_both(a, b);
    law_total_is_between(a, 1);
    law_total_is_between(b, 1);
    lemma_sum_is_nearest(total(a), total(b), x, y);
    lemma_units_under(x + y, 10);
    let sum = total(a).plus(total(b));
    lemma_error(total(a).value() + total(b).value(), 1, sum.magnitude(), 10);
    lemma_pow2_pos(1031);
    assert((x + y) * h + x * h + y * h + h <= 2048 * h) by (nonlinear_arith)
        requires
            x + y <= 1000,
            h > 0,
    ;
    lemma_billionth(total(both).value(), sum.value());
}

proof fn lemma_exact_sum_of_both(a: Seq<Num>, b: Seq<Num>)
    ensures
        exact_sum(a + b) == exact_sum(a) + exact_sum(b),
    decreases b.len(),
{
    if b.len() == 0 {
        assert(a + b =~= a);
    } else {
        lemma_exact_sum_of_both(a, b.drop_last());
        assert((a + b).drop_last() =~= a + b.drop_last());
    }
}

/// The order of the thresholds does not matter to the age.
pub proof fn law_age_in_any_order(a: Seq<Num>, b: Seq<Num>)
    requires
        all_between(a, 1),
        a.to_multiset() == b.to_multiset(),
        a.len() <= 1000,
    ensures
        within_a_billionth(total(a).value(), total(b).value()),
{
    broadcast use vstd::seq_lib::group_to_multiset_ensures;
    let h = pow2(1031) as int;
    let len = a.len() as int;
    assert(a.to_multiset().len() == len && b.to_multiset().len() == b.len());
    assert forall|i: int| 0 <= i < b.len() implies between(#[trigger] b[i], 1) by {
        assert(b.contains(b[i]));
        assert(b.to_multiset().count(b[i]) > 0);
        assert(a.contains(b[i]));
    }
    lemma2_to64();
    assert(pow2(10) == 1024);
    law_total_is_near_the_sum(a, 1, 10);
    law_total_is_near_the_sum(b, 1, 10);
    lemma_exact_sum_in_any_order(a, b);
    lemma_pow2_pos(1031);
    assert(len * h + len * h <= 2048 * h) by (nonlinear_arith)
        requires
            len <= 1000,
            h > 0,
    ;
    lemma_billionth(total(a).value(), total(b).value());
}

proof fn lemma_exact_sum_without(a: Seq<Num>, i: int)
    requires
        0 <= i < a.len(),
    ensures
        exact_sum(a) == exact_sum(a.remove(i)) + a[i].value(),
    decreases a.len(),
{
    if i == a.len() - 1 {
        assert(a.remove(i) =~= a.drop_last());
    } else {
        lemma_exact_sum_without(a.drop_last(), i);
        assert(a.remove(i).drop_last() =~= a.drop_last().remove(i));
        assert(a.remove(i).last() == a.last());
    }
}

proof fn lemma_exact_sum_in_any_order(a: Seq<Num>, b: Seq<Num>)
    requires
        a.to_multiset() == b.to_multiset(),
    ensures
        exact_sum(a) == exact_sum(b),
    decreases a.len(),
{
    broadcast use vstd::seq_lib::group_to_multiset_ensures;
    assert(a.to_multiset().len() == a.len() && b.to_multiset().len() == b.len());
    if a.len() > 0 {
        let last = a.len() - 1;
        assert(a.contains(a[last]));
        assert(a.to_multiset().count(a[last]) > 0);
        assert(b.contains(a[last]));
        let i = choose|i: int| 0 <= i < b.len() && b[i] == a[last];
        assert(a.remove(last).to_multiset() == b.remove(i).to_multiset());
        lemma_exact_sum_in_any_order(a.remove(last), b.remove(i));
        lemma_exact_sum_without(a, last);
        lemma_exact_sum_without(b, i);
    }
}

/// What numbers come to exactly is each of them added to the rest, once.
pub proof fn law_exact_sum_adds_up(numbers: Seq<Num>)
    ensures
        exact_sum(numbers) == numbers.fold_left(0int, |sum: int, a: Num| sum + a.value()),
    decreases numbers.len(),
{
    reveal_with_fuel(Seq::fold_left, 2);
    if numbers.len() > 0 {
        law_exact_sum_adds_up(numbers.drop_last());
    }
}

/// Where `past` is a function into what lies between nothing and one, the age
/// of a row of logits is no further than a billionth from what that function
/// makes of each of them, added up.
pub proof fn law_age_is_the_sum_over_the_logits<P: Fn(u32) -> Num>(
    logits: Seq<u32>,
    past: P,
    p: spec_fn(u32) -> Num,
    age: Num,
)
    requires
        is_age(logits, past, age),
        logits.len() <= 1000,
        forall|j: int, n: Num|
            0 <= j < logits.len() && #[trigger] call_ensures(past, (logits[j],), n) ==> n == p(
                logits[j],
            ),
        forall|j: int|
            0 <= j < logits.len() ==> !p(#[trigger] logits[j]).is_nan() && 0 <= p(
                logits[j],
            ).value() <= units(1),
    ensures
        ({
            let sum = logits.fold_left(0int, |sum: int, bits: u32| sum + p(bits).value());
            &&& 1_000_000_000 * (age.value() - sum) <= units(1)
            &&& 1_000_000_000 * (sum - age.value()) <= units(1)
        }),
{
    let passed = lemma_passed(logits, past, p, age);
    let h = pow2(1031) as int;
    let len = logits.len() as int;
    lemma2_to64();
    assert(pow2(10) == 1024);
    assert forall|j: int| 0 <= j < passed.len() implies between(#[trigger] passed[j], 1) by {
        assert(passed[j] == p(logits[j]));
    }
    law_total_is_near_the_sum(passed, 1, 10);
    lemma_sum_of_passed(logits, p, passed);
    lemma_pow2_pos(1031);
    assert(len * h <= 2048 * h) by (nonlinear_arith)
        requires
            len <= 1000,
            h > 0,
    ;
    lemma_billionth(total(passed).value(), exact_sum(passed));
}

/// Where that function leaves no doubt of any threshold, the age is exactly as
/// many years as there are logits past theirs.
pub proof fn law_certain_logits_are_counted<P: Fn(u32) -> Num>(
    logits: Seq<u32>,
    past: P,
    p: spec_fn(u32) -> Num,
    age: Num,
)
    requires
        is_age(logits, past, age),
        logits.len() <= 2 * STEP,
        forall|j: int, n: Num|
            0 <= j < logits.len() && #[trigger] call_ensures(past, (logits[j],), n) ==> n == p(
                logits[j],
            ),
        forall|j: int|
            0 <= j < logits.len() ==> p(#[trigger] logits[j]).is_int(0) || p(logits[j]).is_int(1),
    ensures
        age.is_int(logits.filter(|bits: u32| p(bits).is_int(1)).len() as int),
{
    let passed = lemma_passed(logits, past, p, age);
    let ones = Seq::new(
        logits.len(),
        |j: int|
            if p(logits[j]).is_int(1) {
                1int
            } else {
                0
            },
    );
    assert forall|j: int| 0 <= j < passed.len() implies (#[trigger] passed[j]).is_int(ones[j])
        && ones[j] >= 0 by {
        assert(passed[j] == p(logits[j]));
    }
    law_certain_thresholds_are_counted(passed, ones);
    lemma_ones_are_counted(logits, p, ones);
}

proof fn lemma_ones_are_counted(logits: Seq<u32>, p: spec_fn(u32) -> Num, ones: Seq<int>)
    requires
        ones.len() == logits.len(),
        forall|j: int|
            0 <= j < logits.len() ==> (#[trigger] ones[j]) == if p(logits[j]).is_int(1) {
                1int
            } else {
                0
            },
    ensures
        sum_of(ones) == logits.filter(|bits: u32| p(bits).is_int(1)).len(),
    decreases logits.len(),
{
    reveal(Seq::filter);
    if logits.len() > 0 {
        let last = logits.len() - 1;
        assert(ones[last] == ones.last() && logits[last] == logits.last());
        assert forall|j: int| 0 <= j < last implies (#[trigger] ones.drop_last()[j]) == if p(
            logits.drop_last()[j],
        ).is_int(1) {
            1int
        } else {
            0
        } by {
            assert(ones[j] == ones.drop_last()[j]);
        }
        lemma_ones_are_counted(logits.drop_last(), p, ones.drop_last());
    }
}

/// What the thresholds of an age were passed by.
proof fn lemma_passed<P: Fn(u32) -> Num>(
    logits: Seq<u32>,
    past: P,
    p: spec_fn(u32) -> Num,
    age: Num,
) -> (passed: Seq<Num>)
    requires
        is_age(logits, past, age),
        forall|j: int, n: Num|
            0 <= j < logits.len() && #[trigger] call_ensures(past, (logits[j],), n) ==> n == p(
                logits[j],
            ),
    ensures
        passed.len() == logits.len(),
        forall|j: int| 0 <= j < passed.len() ==> (#[trigger] passed[j]) == p(logits[j]),
        age == total(passed),
{
    let passed = choose|passed: Seq<Num>| {
        &&& passed.len() == logits.len()
        &&& forall|j: int|
            0 <= j < logits.len() ==> call_ensures(past, (logits[j],), #[trigger] passed[j])
        &&& age == #[trigger] total(passed)
    };
    assert forall|j: int| 0 <= j < passed.len() implies (#[trigger] passed[j]) == p(logits[j]) by {
        assert(call_ensures(past, (logits[j],), passed[j]));
    }
    passed
}

proof fn lemma_sum_of_passed(logits: Seq<u32>, p: spec_fn(u32) -> Num, passed: Seq<Num>)
    requires
        passed.len() == logits.len(),
        forall|j: int| 0 <= j < passed.len() ==> (#[trigger] passed[j]) == p(logits[j]),
    ensures
        exact_sum(passed) == logits.fold_left(0int, |sum: int, bits: u32| sum + p(bits).value()),
    decreases logits.len(),
{
    reveal_with_fuel(Seq::fold_left, 2);
    if logits.len() > 0 {
        let last = logits.len() - 1;
        assert(passed[last] == p(logits[last]));
        assert forall|j: int| 0 <= j < last implies (#[trigger] passed.drop_last()[j]) == p(
            logits.drop_last()[j],
        ) by {
            assert(passed[j] == passed.drop_last()[j]);
        }
        lemma_sum_of_passed(logits.drop_last(), p, passed.drop_last());
    }
}

/// An age is no less than nothing and no more than there are thresholds, where
/// each is passed by between nothing and one.
pub proof fn law_age_is_between<P: Fn(u32) -> Num>(logits: Seq<u32>, past: P, age: Num)
    requires
        is_age(logits, past, age),
        forall|j: int, n: Num|
            0 <= j < logits.len() && #[trigger] call_ensures(past, (logits[j],), n) ==> between(
                n,
                1,
            ),
        logits.len() <= 2 * STEP,
    ensures
        between(age, logits.len() as int),
{
    let passed = choose|passed: Seq<Num>| {
        &&& passed.len() == logits.len()
        &&& forall|j: int|
            0 <= j < logits.len() ==> call_ensures(past, (logits[j],), #[trigger] passed[j])
        &&& age == #[trigger] total(passed)
    };
    assert forall|j: int| 0 <= j < passed.len() implies between(#[trigger] passed[j], 1) by {
        assert(call_ensures(past, (logits[j],), passed[j]));
    }
    law_total_is_between(passed, 1);
}

/// Raising a logit never lowers the age, where it never lowers what its
/// threshold is passed by.
pub proof fn law_raised_logits_never_lower_the_age<P: Fn(u32) -> Num>(
    low: Seq<u32>,
    high: Seq<u32>,
    past: P,
    one: Num,
    two: Num,
)
    requires
        is_age(low, past, one),
        is_age(high, past, two),
        low.len() == high.len(),
        low.len() <= 2 * STEP,
        forall|j: int, n: Num|
            0 <= j < low.len() && #[trigger] call_ensures(past, (low[j],), n) ==> between(n, 1),
        forall|j: int, n: Num|
            0 <= j < high.len() && #[trigger] call_ensures(past, (high[j],), n) ==> between(n, 1),
        forall|j: int, n: Num, m: Num|
            0 <= j < low.len() && #[trigger] call_ensures(past, (low[j],), n)
                && #[trigger] call_ensures(past, (high[j],), m) ==> n.value() <= m.value(),
    ensures
        one.value() <= two.value(),
{
    let a = choose|passed: Seq<Num>| {
        &&& passed.len() == low.len()
        &&& forall|j: int|
            0 <= j < low.len() ==> call_ensures(past, (low[j],), #[trigger] passed[j])
        &&& one == #[trigger] total(passed)
    };
    let b = choose|passed: Seq<Num>| {
        &&& passed.len() == high.len()
        &&& forall|j: int|
            0 <= j < high.len() ==> call_ensures(past, (high[j],), #[trigger] passed[j])
        &&& two == #[trigger] total(passed)
    };
    assert forall|j: int| 0 <= j < a.len() implies between(#[trigger] a[j], 1) by {
        assert(call_ensures(past, (low[j],), a[j]));
    }
    assert forall|j: int| 0 <= j < b.len() implies between(#[trigger] b[j], 1) by {
        assert(call_ensures(past, (high[j],), b[j]));
    }
    assert forall|j: int| 0 <= j < a.len() implies (#[trigger] a[j]).value() <= b[j].value() by {
        assert(call_ensures(past, (low[j],), a[j]));
        assert(call_ensures(past, (high[j],), b[j]));
    }
    law_total_keeps_order(a, b, 1);
}

/// A quotient by an integer is the number nearest to the true one.
proof fn lemma_shared_out(a: Num, b: Num, most: int, n: int)
    requires
        between(a, most * n),
        b.is_int(n),
        0 <= most,
        0 < n,
        small(most),
        small(n),
        small(most * n),
    ensures
        nearest_even(a.value(), n, a.over(b).magnitude()),
        a.over(b).value() == worth(a.over(b).magnitude()),
        between(a.over(b), most),
{
    reveal(Num::over);
    lemma_between(a, most * n);
    lemma_small(b, n);
    lemma_pow2_pos(1074);
    assert(worth(0) == 0);
    let c = a.over(b);
    let u = pow2(1074) as int;
    if a.is_zero() {
        lemma_signed(a.negative() != b.negative(), 0);
        assert(0 == worth(0) * n);
        lemma_exact_is_nearest(0, n, 0);
    } else {
        assert(n * u > 0) by (nonlinear_arith)
            requires
                n > 0,
                u > 0,
        ;
        lemma_rounded(false, a.value() * u, units(n));
        lemma_nearest_in_other_terms(a.value(), n, u, c.magnitude());
    }
    assert((most * n) * u == (most * u) * n) by (nonlinear_arith);
    lemma_nearest_under(a.value(), n, c.magnitude(), most);
}

/// A product with an integer is the number nearest to the true one.
proof fn lemma_so_many_times(a: Num, b: Num, most: int, n: int)
    requires
        between(a, most),
        b.is_int(n),
        0 <= most,
        0 < n,
        small(most),
        small(n),
        small(most * n),
    ensures
        nearest_even(a.value() * n, 1, a.times(b).magnitude()),
        a.times(b).value() == worth(a.times(b).magnitude()),
        between(a.times(b), most * n),
{
    reveal(Num::times);
    lemma_between(a, most);
    lemma_small(b, n);
    lemma_pow2_pos(1074);
    assert(worth(0) == 0);
    let c = a.times(b);
    let u = pow2(1074) as int;
    let v = a.value();
    if a.is_zero() {
        lemma_signed(a.negative() != b.negative(), 0);
        assert(v * n == 0) by (nonlinear_arith)
            requires
                v == 0,
        ;
        lemma_exact_is_nearest(0, 1, 0);
    } else {
        assert(v * (n * u) == (v * n) * u) by (nonlinear_arith);
        assert(1 * u == u);
        lemma_rounded(false, v * units(n), u);
        lemma_nearest_in_other_terms(v * n, 1, u, c.magnitude());
    }
    assert((most * n) * u == (most * u) * n) by (nonlinear_arith);
    assert(v * n <= units(most) * n) by (nonlinear_arith)
        requires
            v <= units(most),
            n > 0,
    ;
    assert(most * n >= 0) by (nonlinear_arith)
        requires
            most >= 0,
            n > 0,
    ;
    lemma_nearest_under(v * n, 1, c.magnitude(), most * n);
}

/// The mean of ages between nothing and a hundred lies there too, and is no
/// further than 2^-40 from their true mean.
pub proof fn law_mean_is_near_the_true_mean(face: Face)
    requires
        face.wf(),
        face.scores.len() > 0,
        all_between(face.scores, 100),
    ensures
        between(face.mean(), 100),
        distance(face.mean().value() * face.scores.len(), exact_sum(face.scores))
            <= face.scores.len() * pow2(1034),
{
    let held = face.scores.len() as int;
    let sum = total(face.scores);
    lemma2_to64();
    law_total_is_between(face.scores, 100);
    law_total_is_near_the_sum(face.scores, 100, 12);
    law_count_is_exact(held);
    lemma_shared_out(sum, count_of(held), 100, held);
    lemma_units_under(100, 7);
    lemma_error(sum.value(), held, face.mean().magnitude(), 7);
    lemma_pow2_strictly_increases(1028, 1033);
    lemma_pow2_unfold(1034);
    let (p, q) = (pow2(1028) as int, pow2(1033) as int);
    assert(p * held + held * q <= held * (2 * q)) by (nonlinear_arith)
        requires
            p <= q,
            held > 0,
    ;
}

/// The age a face reports is a whole number of tenths, as near as a number is
/// to it, and the one nearest to the mean: no further from it than half a
/// tenth, but for 2^-44.
pub proof fn law_age_is_to_one_decimal(face: Face) -> (tenths: int)
    requires
        face.wf(),
        face.scores.len() > 0,
        all_between(face.scores, 100),
    ensures
        0 <= tenths <= 1000,
        nearest_even(units(tenths), 10, face.reported().magnitude()),
        between(face.reported(), 100),
        2 * distance(units(tenths), 10 * face.mean().value()) <= units(1) + pow2(1032),
        20 * distance(face.reported().value(), face.mean().value()) <= units(1) + pow2(1034),
{
    let mean = face.mean();
    let ten = count_of(10);
    lemma2_to64();
    law_mean_is_near_the_true_mean(face);
    law_count_is_exact(10);
    lemma_so_many_times(mean, ten, 100, 10);
    let scaled = mean.times(ten);
    lemma_units_under(1000, 10);
    lemma_between(mean, 100);
    lemma_error(mean.value() * 10, 1, scaled.magnitude(), 10);
    lemma_between(scaled, 1000);
    let tenths = lemma_to_integer(scaled, 1000);
    let whole = scaled.to_integer();
    law_quotients_are_nearest(whole, ten, tenths, 10);
    let age = face.reported();
    lemma_units(tenths, 1000);
    lemma_units(1000, tenths);
    assert(units(1000) == units(100) * 10) by {
        assert(units(1000) == 1000 * pow2(1074) && units(100) == 100 * pow2(1074));
    }
    lemma_nearest_under(units(tenths), 10, age.magnitude(), 100);
    lemma_units_under(100, 7);
    lemma_error(units(tenths), 10, age.magnitude(), 7);
    assert(worth(0) == 0);
    assert(age.value() == worth(age.magnitude())) by {
        if tenths == 0 {
            assert(worth(0) * 10 == 0);
            lemma_units(0, 0);
            lemma_exact_is_nearest(0, 10, 0);
            lemma_nearest_is_one(0, 10, 0, age.magnitude());
        }
    }
    lemma_pow2_adds(1028, 3);
    lemma_pow2_adds(1031, 1);
    lemma_pow2_adds(1031, 3);
    tenths
}

/// The integer a number that is not negative is rounded to is no further from
/// it than a half.
proof fn lemma_to_integer(a: Num, most: int) -> (n: int)
    requires
        between(a, most),
        0 <= most,
        small(most),
    ensures
        a.to_integer().is_int(n),
        0 <= n <= most,
        n == a.nearest_up(),
        2 * distance(units(n), a.value()) <= units(1),
{
    lemma_between(a, most);
    let u = pow2(1074) as int;
    lemma_pow2_pos(1074);
    assert(units(1) == u);
    let w = a.value();
    let n = a.nearest_up();
    let x = 2 * w + u;
    lemma_fundamental_div_mod(x, 2 * u);
    lemma_mod_bound(x, 2 * u);
    let r = x % (2 * u);
    assert(x == (2 * u) * n + r);
    assert((2 * u) * n == 2 * (n * u)) by (nonlinear_arith);
    assert(n >= 0) by (nonlinear_arith)
        requires
            x == (2 * u) * n + r,
            x > 0,
            r < 2 * u,
            u > 0,
    ;
    assert(n <= most) by (nonlinear_arith)
        requires
            2 * w + u == 2 * (n * u) + r,
            w <= most * u,
            0 <= r,
            u > 0,
    ;
    if n > 0 {
        assert(w > 0) by (nonlinear_arith)
            requires
                2 * w + u == 2 * (n * u) + r,
                n >= 1,
                0 <= r,
                u > 0,
        ;
    }
    lemma_exactly(a.negative(), n);
    n
}

/// The pixel a coordinate falls on is the integer nearest to it, the one
/// further from zero where two are equally near, the last there is past them
/// all, and 0 where it is no number.
pub proof fn law_pixel_is_the_nearest_integer(a: Num)
    ensures
        a.is_nan() ==> pixel_of(a) == 0,
        !a.is_nan() && units(i64::MIN as int) <= a.value() <= units(i64::MAX as int) ==> {
            let off = units(pixel_of(a)) - a.value();
            &&& -units(1) <= 2 * off <= units(1)
            &&& 2 * off == units(1) ==> a.value() > 0
            &&& 2 * off == -units(1) ==> a.value() < 0
        },
        !a.is_nan() && a.value() > units(i64::MAX as int) ==> pixel_of(a) == i64::MAX,
        !a.is_nan() && a.value() < units(i64::MIN as int) ==> pixel_of(a) == i64::MIN,
{
    if !a.is_nan() {
        let u = pow2(1074) as int;
        lemma_pow2_pos(1074);
        assert(units(1) == u);
        assert(worth(0) == 0);
        let m = a.magnitude();
        if m > 0 {
            lemma_worth_increases(0, m);
        }
        let w = worth(m);
        let n = a.nearest_up();
        let x = 2 * w + u;
        lemma_fundamental_div_mod(x, 2 * u);
        lemma_mod_bound(x, 2 * u);
        let r = x % (2 * u);
        assert((2 * u) * n == 2 * (n * u)) by (nonlinear_arith);
        assert(2 * w + u == 2 * (n * u) + r);
        assert(r == 0 ==> w > 0) by (nonlinear_arith)
            requires
                2 * w + u == 2 * (n * u) + r,
                0 <= w,
                0 < u,
        ;
        assert(units(n) == n * u);
        assert(units(-n) == -units(n)) by {
            lemma_units(n, 0);
        }
        lemma_limit(w, n, u, r, i64::MAX as int);
        lemma_limit(w, n, u, r, -(i64::MIN as int));
        lemma_units(-(i64::MIN as int), 0);
        if n == 0 {
            assert(0 * u == 0);
        }
    }
}

/// An integer at most half off does not pass a limit that what it is nearest
/// to does not pass, and reaches one that it does.
proof fn lemma_limit(w: int, n: int, u: int, r: int, limit: int)
    requires
        0 <= w,
        0 < u,
        0 <= r < 2 * u,
        2 * w + u == 2 * (n * u) + r,
        0 <= limit,
    ensures
        0 <= n,
        w <= limit * u ==> n <= limit,
        w > limit * u ==> n >= limit,
{
    assert(0 <= n) by (nonlinear_arith)
        requires
            0 <= w,
            0 < u,
            r < 2 * u,
            2 * w + u == 2 * (n * u) + r,
    ;
    assert(w <= limit * u ==> n <= limit) by (nonlinear_arith)
        requires
            0 < u,
            0 <= r,
            2 * w + u == 2 * (n * u) + r,
    ;
    assert(w > limit * u ==> n >= limit) by (nonlinear_arith)
        requires
            0 < u,
            r < 2 * u,
            2 * w + u == 2 * (n * u) + r,
    ;
}

/// A confidence is written to four places: as a whole number of ten
/// thousandths, as near as a number is to it, no further from it than half of
/// one, but for 2^-38 of one.
pub proof fn law_confidence_is_to_four_places(face: Face) -> (n: int)
    requires
        !face.conf.is_nan(),
        0 <= face.conf.value() <= units(1),
    ensures
        0 <= n <= 10_000,
        nearest_even(units(n), 10_000, face.told().conf.magnitude()),
        n > 0 ==> !face.told().conf.negative(),
        2 * (units(n) - 10_000 * face.conf.value()) <= units(1) + pow2(1036),
        2 * (10_000 * face.conf.value() - units(n)) <= units(1) + pow2(1036),
{
    let conf = face.conf;
    let many = count_of(10_000);
    lemma2_to64();
    law_count_is_exact(10_000);
    lemma_so_many_times(conf, many, 1, 10_000);
    let scaled = conf.times(many);
    lemma_units_under(10_000, 14);
    lemma_between(conf, 1);
    lemma_error(conf.value() * 10_000, 1, scaled.magnitude(), 14);
    lemma_between(scaled, 10_000);
    let n = lemma_to_integer(scaled, 10_000);
    law_quotients_are_nearest(scaled.to_integer(), many, n, 10_000);
    lemma_pow2_adds(1035, 1);
    n
}

/// A row is its face's: of the class of a face, on the pixels its box falls on,
/// and with the age it reports.
pub proof fn law_row_is_the_faces(face: Face)
    ensures
        face.told().class == "face"@,
        face.told().x == pixel_of(face.b.0),
        face.told().y == pixel_of(face.b.1),
        face.told().w == pixel_of(face.b.2),
        face.told().h == pixel_of(face.b.3),
        face.told().age == face.reported(),
{
}

/// The age a row reports is no further than half a tenth, but for 2^-38, from
/// the true mean of the face's scores.
pub proof fn law_reported_age_is_near_the_true_mean(face: Face)
    requires
        face.scores.len() <= 30,
        face.scores.len() > 0,
        forall|i: int|
            0 <= i < face.scores.len() ==> !(#[trigger] face.scores[i]).is_nan() && 0
                <= face.scores[i].value() <= units(100),
    ensures
        ({
            let sum = face.scores.fold_left(0int, |sum: int, a: Num| sum + a.value());
            let held = face.scores.len() as int;
            let age = face.told().age.value();
            &&& 20 * (age * held - sum) <= held * (units(1) + pow2(1040))
            &&& 20 * (sum - age * held) <= held * (units(1) + pow2(1040))
        }),
{
    let held = face.scores.len() as int;
    law_exact_sum_adds_up(face.scores);
    assert forall|i: int| 0 <= i < face.scores.len() implies between(
        #[trigger] face.scores[i],
        100,
    ) by {}
    law_mean_is_near_the_true_mean(face);
    let _ = law_age_is_to_one_decimal(face);
    let sum = exact_sum(face.scores);
    let (age, mean) = (face.reported().value(), face.mean().value());
    let (u, p, q) = (units(1), pow2(1034) as int, pow2(1040) as int);
    lemma2_to64();
    lemma_pow2_adds(1034, 6);
    lemma_pow2_pos(1034);
    assert(q == 64 * p);
    assert(20 * (age * held - mean * held) <= held * (u + p) && 20 * (mean * held - age * held)
        <= held * (u + p)) by (nonlinear_arith)
        requires
            20 * (age - mean) <= u + p,
            20 * (mean - age) <= u + p,
            held > 0,
    ;
    assert(held * (u + p) + 20 * (held * p) <= held * (u + q)) by (nonlinear_arith)
        requires
            held > 0,
            p > 0,
            q == 64 * p,
    ;
}

} // verus!
