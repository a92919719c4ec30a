//! The box math the tracker follows faces with.
use crate::arithmetic::{law_plus_commutes, lemma_rounded, lemma_signed, NAN};
use crate::number::{lemma_worth_increases, worth, zero, Num};
use vstd::arithmetic::power2::{lemma_pow2_pos, pow2};
use vstd::prelude::*;

verus! {

/// One box on the frame: x, y, width and height in pixels.
pub type FaceBox = (Num, Num, Num, Num);

/// How long two spans, each from a first point to a second, run together.
pub open spec fn shared(a0: Num, a1: Num, b0: Num, b1: Num) -> Num {
    a1.lesser(b1).minus(a0.greater(b0)).greater(zero())
}

/// A box no wider or no higher than nothing.
pub open spec fn degenerate(b: FaceBox) -> bool {
    b.2.at_most(zero()) || b.3.at_most(zero())
}

/// The area two boxes have in common.
pub open spec fn intersection(a: FaceBox, b: FaceBox) -> Num {
    shared(a.0, a.0.plus(a.2), b.0, b.0.plus(b.2)).times(
        shared(a.1, a.1.plus(a.3), b.1, b.1.plus(b.3)),
    )
}

/// The area two boxes cover together.
pub open spec fn covered(a: FaceBox, b: FaceBox) -> Num {
    a.2.times(a.3).plus(b.2.times(b.3)).minus(intersection(a, b))
}

/// How much two boxes overlap, over how much they cover together.
#[verifier::opaque]
pub open spec fn overlap(a: FaceBox, b: FaceBox) -> Num {
    if degenerate(a) || degenerate(b) || covered(a, b).at_most(zero()) {
        zero()
    } else {
        intersection(a, b).over(covered(a, b))
    }
}

fn shared_span(a0: Num, a1: Num, b0: Num, b1: Num) -> (s: Num)
    ensures
        s == shared(a0, a1, b0, b1),
{
    a1.min(b1).sub(a0.max(b0)).max(zero())
}

/// How much two boxes - each `x, y, w, h` - overlap, over how much they cover
/// together. 0 when either is degenerate or they do not touch.
pub fn iou(a: FaceBox, b: FaceBox) -> (r: Num)
    ensures
        r == overlap(a, b),
{
    proof {
        reveal(overlap);
    }
    if a.2.le(zero()) || a.3.le(zero()) || b.2.le(zero()) || b.3.le(zero()) {
        return zero();
    }
    let iw: Num = shared_span(a.0, a.0.add(a.2), b.0, b.0.add(b.2));
    let ih: Num = shared_span(a.1, a.1.add(a.3), b.1, b.1.add(b.3));
    let inter: Num = iw.mul(ih);
    let union: Num = a.2.mul(a.3).add(b.2.mul(b.3)).sub(inter);
    if union.le(zero()) {
        zero()
    } else {
        inter.div(union)
    }
}

/// The far edge of a span that has a length is not a negative zero.
proof fn lemma_edge(start: Num, length: Num)
    requires
        !length.at_most(zero()),
    ensures
        start.plus(length).is_zero() ==> !start.plus(length).negative(),
        start.plus(length).is_nan() ==> start.plus(length).bits == NAN,
{
    reveal(Num::plus);
    let exact = start.value() + length.value();
    lemma_sign(length);
    if exact != 0 {
        let n = if exact < 0 {
            -exact
        } else {
            exact
        };
        lemma_rounded(exact < 0, n, 1);
    }
}

/// A number is negative by value only where it has the sign, and nothing only
/// where its magnitude is.
proof fn lemma_sign(a: Num)
    ensures
        a.value() == 0 <==> a.is_zero(),
        a.value() < 0 <==> a.negative() && !a.is_zero(),
{
    assert(worth(0) == 0);
    if a.magnitude() > 0 {
        lemma_worth_increases(0, a.magnitude());
    }
}

/// Two numbers of one value are one, but for the sign of a zero.
proof fn lemma_one_value(a: Num, b: Num)
    requires
        a.value() == b.value(),
    ensures
        a == b || (a.is_zero() && b.is_zero()),
{
    lemma_sign(a);
    lemma_sign(b);
    let (x, y) = (a.magnitude(), b.magnitude());
    if x < y {
        lemma_worth_increases(x, y);
    }
    if y < x {
        lemma_worth_increases(y, x);
    }
}

/// What is taken away may be a zero of either sign.
proof fn lemma_minus_zero(l: Num, g: Num, h: Num)
    requires
        l.is_zero() ==> !l.negative(),
        g == h || (g.is_zero() && h.is_zero()) || (g.is_nan() && h.is_nan()),
    ensures
        l.minus(g) == l.minus(h),
{
    reveal(Num::plus);
    lemma_sign(l);
    lemma_sign(g);
    lemma_sign(h);
    lemma_sign(g.opposite());
    lemma_sign(h.opposite());
}

proof fn lemma_shared_commutes(a0: Num, aw: Num, b0: Num, bw: Num)
    requires
        !aw.at_most(zero()),
        !bw.at_most(zero()),
    ensures
        shared(a0, a0.plus(aw), b0, b0.plus(bw)) == shared(b0, b0.plus(bw), a0, a0.plus(aw)),
{
    let (a1, b1) = (a0.plus(aw), b0.plus(bw));
    lemma_edge(a0, aw);
    lemma_edge(b0, bw);
    if a1.value() == b1.value() {
        lemma_one_value(a1, b1);
    }
    assert(a1.lesser(b1) == b1.lesser(a1));
    if a0.value() == b0.value() {
        lemma_one_value(a0, b0);
    }
    lemma_minus_zero(a1.lesser(b1), a0.greater(b0), b0.greater(a0));
}

/// How much two boxes overlap is the same whichever is named first.
pub proof fn law_overlap_is_mutual(a: FaceBox, b: FaceBox)
    ensures
        overlap(a, b) == overlap(b, a),
{
    reveal(overlap);
    if !degenerate(a) && !degenerate(b) {
        lemma_shared_commutes(a.0, a.2, b.0, b.2);
        lemma_shared_commutes(a.1, a.3, b.1, b.3);
        law_plus_commutes(a.2.times(a.3), b.2.times(b.3));
    }
}

/// A degenerate box overlaps nothing.
pub proof fn law_degenerate_is_nothing(a: FaceBox, b: FaceBox)
    requires
        degenerate(a) || degenerate(b),
    ensures
        overlap(a, b) == zero(),
{
    reveal(overlap);
}

/// Where a box is not wider, or not higher, than nothing, the overlap is zero.
pub proof fn law_no_area_is_no_overlap(a: FaceBox, b: FaceBox)
    requires
        ({
            ||| !a.2.is_nan() && a.2.value() <= 0
            ||| !a.3.is_nan() && a.3.value() <= 0
            ||| !b.2.is_nan() && b.2.value() <= 0
            ||| !b.3.is_nan() && b.3.value() <= 0
        }),
    ensures
        overlap(a, b).bits == 0,
{
    reveal(overlap);
    assert(worth(0) == 0);
    assert(zero().value() == 0);
}

/// Two spans, the first of which ends no later than the second starts, share
/// nothing.
proof fn lemma_shared_nothing(a0: Num, a1: Num, b0: Num, b1: Num)
    requires
        a1.at_most(b0) || b1.at_most(a0),
    ensures
        shared(a0, a1, b0, b1).is_zero(),
{
    reveal(Num::plus);
    let l = a1.lesser(b1);
    let g = a0.greater(b0);
    let d = l.minus(g);
    lemma_sign(zero());
    lemma_sign(d);
    lemma_sign(g.opposite());
    assert(!l.is_nan());
    assert(!g.is_nan());
    assert(l.value() <= g.value());
    assert(g.opposite().value() == -g.value());
    if !d.is_nan() && l.value() + g.opposite().value() != 0 {
        lemma_rounded(true, -(l.value() - g.value()), 1);
    }
    if l.is_infinite() || g.is_infinite() {
        lemma_infinite_extreme(l, g);
    }
}

/// Nothing is worth more than an infinity.
proof fn lemma_infinite_extreme(l: Num, g: Num)
    requires
        !l.is_nan(),
        !g.is_nan(),
        l.value() <= g.value(),
    ensures
        l.is_infinite() && !l.negative() ==> g == l,
        g.is_infinite() && g.negative() ==> l == g,
{
    lemma_sign(l);
    lemma_sign(g);
    let (x, y) = (l.magnitude(), g.magnitude());
    if x < y {
        lemma_worth_increases(x, y);
    }
    if y < x {
        lemma_worth_increases(y, x);
    }
}

/// Boxes that do not touch do not overlap: where one ends, along either axis,
/// no later than the other starts, the overlap is nothing. (Of boxes whose
/// span in common along the other axis is past every number it is not one.)
pub proof fn law_apart_is_nothing(a: FaceBox, b: FaceBox)
    requires
        !a.2.is_nan() && !a.3.is_nan() && !b.2.is_nan() && !b.3.is_nan(),
        ({
            let (ax, ay) = (a.0.plus(a.2), a.1.plus(a.3));
            let (bx, by) = (b.0.plus(b.2), b.1.plus(b.3));
            ||| (ax.at_most(b.0) || bx.at_most(a.0)) && !shared(a.1, ay, b.1, by).is_infinite()
            ||| (ay.at_most(b.1) || by.at_most(a.1)) && !shared(a.0, ax, b.0, bx).is_infinite()
        }),
    ensures
        overlap(a, b).is_zero(),
{
    reveal(overlap);
    let (ax, ay) = (a.0.plus(a.2), a.1.plus(a.3));
    let (bx, by) = (b.0.plus(b.2), b.1.plus(b.3));
    let (w, h) = (shared(a.0, ax, b.0, bx), shared(a.1, ay, b.1, by));
    if ax.at_most(b.0) || bx.at_most(a.0) {
        lemma_shared_nothing(a.0, ax, b.0, bx);
    }
    if ay.at_most(b.1) || by.at_most(a.1) {
        lemma_shared_nothing(a.1, ay, b.1, by);
    }
    let inter = intersection(a, b);
    lemma_shared_is_number(a.0, ax, b.0, bx);
    lemma_shared_is_number(a.1, ay, b.1, by);
    lemma_nothing_times(w, h);
    assert(inter.is_zero());
    if !degenerate(a) && !degenerate(b) {
        lemma_area(a.2, a.3);
        lemma_area(b.2, b.3);
        let (s, t) = (a.2.times(a.3), b.2.times(b.3));
        lemma_sum_of_areas(s, t);
        lemma_signed(!inter.negative(), inter.magnitude());
        lemma_nothing_taken(s.plus(t), inter.opposite());
        if !covered(a, b).at_most(zero()) {
            lemma_nothing_over(inter, covered(a, b));
        }
    }
}

proof fn lemma_shared_is_number(a0: Num, a1: Num, b0: Num, b1: Num)
    ensures
        !shared(a0, a1, b0, b1).is_nan(),
{
}

proof fn lemma_nothing_times(w: Num, h: Num)
    requires
        (w.is_zero() && !h.is_infinite() && !h.is_nan()) || (h.is_zero() && !w.is_infinite()
            && !w.is_nan()),
    ensures
        w.times(h).is_zero(),
{
    reveal(Num::times);
    lemma_signed(w.negative() != h.negative(), 0);
}

proof fn lemma_sum_of_areas(s: Num, t: Num)
    requires
        !s.is_nan() && !s.negative(),
        !t.is_nan() && !t.negative(),
    ensures
        !s.plus(t).is_nan(),
{
    reveal(Num::plus);
    lemma_sign(s);
    lemma_sign(t);
    lemma_signed(false, 0);
    lemma_rounded(false, s.value() + t.value(), 1);
}

proof fn lemma_nothing_taken(s: Num, z: Num)
    requires
        !s.is_nan(),
        z.is_zero(),
    ensures
        !s.plus(z).is_nan(),
{
    reveal(Num::plus);
    lemma_sign(z);
    lemma_signed(s.negative() && z.negative(), 0);
    lemma_rounded(s.value() < 0, s.value(), 1);
    lemma_rounded(s.value() < 0, -s.value(), 1);
}

proof fn lemma_nothing_over(z: Num, whole: Num)
    requires
        z.is_zero(),
        !whole.is_nan(),
        !whole.at_most(zero()),
    ensures
        z.over(whole).is_zero(),
{
    reveal(Num::over);
    lemma_sign(whole);
    lemma_sign(zero());
    lemma_signed(z.negative() != whole.negative(), 0);
}

/// The area of a box that has one is a number, and not a negative one.
proof fn lemma_area(w: Num, h: Num)
    requires
        !w.is_nan(),
        !h.is_nan(),
        !w.at_most(zero()),
        !h.at_most(zero()),
    ensures
        !w.times(h).is_nan(),
        !w.times(h).negative(),
{
    reveal(Num::times);
    lemma_sign(w);
    lemma_sign(h);
    lemma_sign(zero());
    lemma_pow2_pos(1074);
    lemma_rounded(false, worth(w.magnitude()) * worth(h.magnitude()), pow2(1074) as int);
}

} // verus!
