//! The rows riding a frame, read as the boxes to score.
use crate::arithmetic::{count_of, law_count_is_exact};
use crate::boxes::FaceBox;
use crate::exact::{lemma_exactly, lemma_small, lemma_units};
use crate::face::{pixel_of, to_places, Det, Face, Told, FACE};
use crate::number::{lemma_worth_increases, units, worth, zero, Num, INFINITE, STEP};
use vstd::arithmetic::div_mod::{lemma_fundamental_div_mod, lemma_mod_bound};
use vstd::arithmetic::power2::{lemma_pow2_pos, pow2};
use vstd::prelude::*;

verus! {

/// What a row this module writes holds, as it is published.
pub const ROWS_SCHEMA: &'static str = r#"{"type":"object","properties":{"class":{"type":"string"},"conf":{"type":"number"},"x":{"type":"integer"},"y":{"type":"integer"},"w":{"type":"integer"},"h":{"type":"integer"},"age":{"type":"number"}},"required":["class","conf","x","y","w","h","age"],"additionalProperties":false}"#;

/// One row this module reads, as far as it reads it.
#[derive(Debug)]
pub struct InRow {
    pub class: Option<String>,
    pub conf: Num,
    pub x: Num,
    pub y: Num,
    pub w: Num,
    pub h: Num,
}

/// The box a row is, if it is a face's: what did not read as four coordinates
/// is not a box, what is not a face is not this module's, and a box without a
/// width or a height is none.
pub open spec fn face_read(row: Option<InRow>) -> Option<Det> {
    match row {
        Some(row) => if row.class is Some && row.class->0@ == FACE@ && !row.w.at_most(zero())
            && !row.h.at_most(zero()) {
            Some(Det { conf: row.conf, b: (row.x, row.y, row.w, row.h) })
        } else {
            None
        },
        None => None,
    }
}

/// The boxes of rows, in order.
pub open spec fn faces_read(rows: Seq<Option<InRow>>) -> Seq<Det>
    decreases rows.len(),
{
    if rows.len() == 0 {
        seq![]
    } else {
        let before = faces_read(rows.drop_last());
        match face_read(rows.last()) {
            Some(det) => before.push(det),
            None => before,
        }
    }
}

fn read_row(row: &Option<InRow>) -> (det: Option<Det>)
    ensures
        det == face_read(*row),
{
    let row: &InRow = match row {
        Some(row) => row,
        None => {
            return None;
        },
    };
    let is_face: bool = match &row.class {
        Some(class) => *class == FACE.to_owned(),
        None => false,
    };
    if !is_face || row.w.le(zero()) || row.h.le(zero()) {
        return None;
    }
    Some(Det { conf: row.conf, b: (row.x, row.y, row.w, row.h) })
}

/// The rows of a frame as the boxes to score. A row that did not read as an
/// object with four coordinates is handed over as none.
pub fn read_rows(rows: &[Option<InRow>]) -> (dets: Vec<Det>)
    ensures
        dets@ == faces_read(rows@),
{
    let mut dets: Vec<Det> = Vec::new();
    let mut i: usize = 0;
    assert(rows@.take(0) =~= seq![]);
    while i < rows.len()
        invariant
            i <= rows@.len(),
            dets@ == faces_read(rows@.take(i as int)),
        decreases rows@.len() - i,
    {
        proof {
            assert(rows@.take(i + 1).drop_last() =~= rows@.take(i as int));
            assert(rows@.take(i + 1).last() == rows@[i as int]);
        }
        match read_row(&rows[i]) {
            Some(det) => {
                dets.push(det);
            },
            None => {},
        }
        i = i + 1;
    }
    assert(rows@.take(i as int) =~= rows@);
    dets
}

/// Those of the boxes that were found to land on the picture, in order.
pub open spec fn landed(dets: Seq<Det>, lands: Seq<bool>) -> Seq<Det>
    decreases dets.len(),
{
    if dets.len() == 0 {
        seq![]
    } else {
        let n = dets.len() - 1;
        let before = landed(dets.drop_last(), lands);
        if lands[n] {
            before.push(dets[n])
        } else {
            before
        }
    }
}

/// Whether `lands` finds of each box whether it lands on the picture as
/// `found` has it.
pub open spec fn found_landed<K: Fn(FaceBox) -> bool>(
    dets: Seq<Det>,
    lands: K,
    found: Seq<bool>,
) -> bool {
    &&& found.len() == dets.len()
    &&& forall|i: int|
        0 <= i < dets.len() ==> call_ensures(lands, (dets[i].b,), #[trigger] found[i])
}

/// A box with nothing of it on the picture cannot be cropped, so it never
/// becomes a face to follow.
pub fn on_picture<K: Fn(FaceBox) -> bool>(dets: &[Det], lands: K) -> (kept: Vec<Det>)
    requires
        forall|i: int|
            0 <= i < dets@.len() ==> call_requires(lands, ((#[trigger] dets@[i]).b,)),
    ensures
        exists|found: Seq<bool>|
            found_landed(dets@, lands, found) && kept@ == #[trigger] landed(dets@, found),
{
    let mut kept: Vec<Det> = Vec::new();
    let ghost mut found: Seq<bool> = seq![];
    let mut i: usize = 0;
    assert(dets@.take(0) =~= seq![]);
    while i < dets.len()
        invariant
            i <= dets@.len(),
            forall|k: int|
                0 <= k < dets@.len() ==> call_requires(lands, ((#[trigger] dets@[k]).b,)),
            found.len() == i,
            forall|j: int|
                0 <= j < i ==> call_ensures(lands, (dets@[j].b,), #[trigger] found[j]),
            kept@ == landed(dets@.take(i as int), found),
        decreases dets@.len() - i,
    {
        let det: Det = dets[i];
        let lands_there: bool = lands(det.b);
        let ghost before = found;
        proof {
            found = found.push(lands_there);
            assert(dets@.take(i + 1).drop_last() =~= dets@.take(i as int));
            lemma_landed_by_prefix(dets@.take(i as int), before, found);
        }
        if lands_there {
            kept.push(det);
        }
        i = i + 1;
    }
    assert(dets@.take(i as int) =~= dets@);
    assert(found_landed(dets@, lands, found));
    kept
}

proof fn lemma_landed_by_prefix(dets: Seq<Det>, one: Seq<bool>, two: Seq<bool>)
    requires
        forall|i: int| 0 <= i < dets.len() ==> one[i] == two[i],
    ensures
        landed(dets, one) == landed(dets, two),
    decreases dets.len(),
{
    if dets.len() > 0 {
        lemma_landed_by_prefix(dets.drop_last(), one, two);
    }
}

/// Every row that is a face's is read, and no other: `order` has their places,
/// from the first to the last, and each box is its own row's. A row is a face's
/// where it says so and has a width and a height that are not nothing or less.
pub proof fn law_every_face_row_is_read(rows: Seq<Option<InRow>>) -> (order: Seq<int>)
    ensures
        order.len() == faces_read(rows).len(),
        forall|j: int|
            0 <= j < order.len() ==> 0 <= (#[trigger] order[j]) < rows.len() && rows[order[j]]
                is Some && faces_read(rows)[j] == (Det {
                conf: rows[order[j]]->0.conf,
                b: (
                    rows[order[j]]->0.x,
                    rows[order[j]]->0.y,
                    rows[order[j]]->0.w,
                    rows[order[j]]->0.h,
                ),
            }),
        forall|i: int, j: int|
            0 <= i < j < order.len() ==> (#[trigger] order[i]) < (#[trigger] order[j]),
        forall|i: int|
            0 <= i < rows.len() ==> (order.contains(i) <==> (#[trigger] rows[i]) is Some
                && rows[i]->0.class is Some && rows[i]->0.class->0@ == "face"@ && (
            rows[i]->0.w.is_nan() || rows[i]->0.w.value() > 0) && (rows[i]->0.h.is_nan()
                || rows[i]->0.h.value() > 0)),
    decreases rows.len(),
{
    assert(worth(0) == 0);
    if rows.len() == 0 {
        seq![]
    } else {
        let last = rows.len() - 1;
        let front = rows.drop_last();
        let before = law_every_face_row_is_read(front);
        assert forall|i: int| 0 <= i < last implies front[i] == rows[i] by {}
        let order = if face_read(rows[last]) is Some {
            before.push(last)
        } else {
            before
        };
        assert forall|j: int| 0 <= j < order.len() implies 0 <= (#[trigger] order[j]) < rows.len()
            && rows[order[j]] is Some && faces_read(rows)[j] == (Det {
            conf: rows[order[j]]->0.conf,
            b: (
                rows[order[j]]->0.x,
                rows[order[j]]->0.y,
                rows[order[j]]->0.w,
                rows[order[j]]->0.h,
            ),
        }) by {
            if j < before.len() {
                assert(order[j] == before[j]);
                assert(front[before[j]] == rows[order[j]]);
            }
        }
        assert forall|i: int| 0 <= i < rows.len() implies (order.contains(i) <==> (
        #[trigger] rows[i]) is Some && rows[i]->0.class is Some && rows[i]->0.class->0@ == "face"@
            && (rows[i]->0.w.is_nan() || rows[i]->0.w.value() > 0) && (rows[i]->0.h.is_nan()
            || rows[i]->0.h.value() > 0)) by {
            if i < last {
                assert(front[i] == rows[i]);
                if before.contains(i) {
                    let j = choose|j: int| 0 <= j < before.len() && before[j] == i;
                    assert(order[j] == i);
                }
                if order.contains(i) {
                    let j = choose|j: int| 0 <= j < order.len() && order[j] == i;
                    assert(before[j] == i);
                }
            } else {
                if face_read(rows[last]) is Some {
                    assert(order[before.len() as int] == i);
                }
                if order.contains(i) && face_read(rows[last]) is None {
                    let j = choose|j: int| 0 <= j < before.len() && before[j] == i;
                    assert(0 <= before[j] < front.len());
                }
            }
        }
        order
    }
}

/// Every box found to land on the picture is followed, and no other: `order`
/// has their places, from the first to the last.
pub proof fn law_every_landed_box_is_followed(dets: Seq<Det>, found: Seq<bool>) -> (order: Seq<int>)
    requires
        found.len() == dets.len(),
    ensures
        order.len() == landed(dets, found).len(),
        forall|j: int|
            0 <= j < order.len() ==> 0 <= (#[trigger] order[j]) < dets.len() && landed(
                dets,
                found,
            )[j] == dets[order[j]],
        forall|i: int, j: int|
            0 <= i < j < order.len() ==> (#[trigger] order[i]) < (#[trigger] order[j]),
        forall|i: int| 0 <= i < dets.len() ==> (order.contains(i) <==> #[trigger] found[i]),
    decreases dets.len(),
{
    if dets.len() == 0 {
        seq![]
    } else {
        let last = dets.len() - 1;
        let (front, flags) = (dets.drop_last(), found.drop_last());
        let before = law_every_landed_box_is_followed(front, flags);
        assert forall|i: int| 0 <= i < last implies flags[i] == found[i] by {}
        lemma_landed_by_prefix(front, flags, found);
        let order = if found[last] {
            before.push(last)
        } else {
            before
        };
        assert forall|j: int| 0 <= j < order.len() implies 0 <= (#[trigger] order[j]) < dets.len()
            && landed(dets, found)[j] == dets[order[j]] by {
            if j < before.len() {
                assert(order[j] == before[j]);
                assert(front[before[j]] == dets[order[j]]);
            }
        }
        assert forall|i: int| 0 <= i < dets.len() implies (order.contains(i)
            <==> #[trigger] found[i]) by {
            if i < last {
                assert(flags[i] == found[i]);
                if before.contains(i) {
                    let j = choose|j: int| 0 <= j < before.len() && before[j] == i;
                    assert(order[j] == i);
                }
                if order.contains(i) {
                    let j = choose|j: int| 0 <= j < order.len() && order[j] == i;
                    assert(before[j] == i);
                }
            } else {
                if found[last] {
                    assert(order[before.len() as int] == i);
                }
                if order.contains(i) && !found[last] {
                    let j = choose|j: int| 0 <= j < before.len() && before[j] == i;
                    assert(0 <= before[j] < front.len());
                }
            }
        }
        order
    }
}

/// Whether a row that was read says what was written: its class and its
/// confidence, and its box as the integers they were written as.
pub open spec fn says(row: InRow, told: Told) -> bool {
    &&& row.class is Some && row.class->0@ == told.class
    &&& row.conf == told.conf
    &&& row.x.is_int(told.x)
    &&& row.y.is_int(told.y)
    &&& row.w.is_int(told.w)
    &&& row.h.is_int(told.h)
}

/// A coordinate of no more than 2^53 pixels.
pub open spec fn on_a_grid(a: Num) -> bool {
    !a.is_nan() && -units(2 * STEP) <= a.value() <= units(2 * STEP)
}

/// What is written of a face reads back as the same face: its confidence to
/// four places, and its box on the pixels it was rounded to, if it is no less
/// than half a pixel wide and high.
pub proof fn law_written_row_reads_back(face: Face, row: InRow)
    requires
        says(row, face.told()),
        on_a_grid(face.b.0),
        on_a_grid(face.b.1),
        on_a_grid(face.b.2),
        on_a_grid(face.b.3),
        2 * face.b.2.value() >= units(1),
        2 * face.b.3.value() >= units(1),
    ensures
        faces_read(seq![Some(row)]) == seq![
            Det { conf: row.conf, b: (row.x, row.y, row.w, row.h) },
        ],
        row.conf == to_places(face.conf, 10_000),
        row.x.value() == face.b.0.to_integer().value(),
        row.y.value() == face.b.1.to_integer().value(),
        row.w.value() == face.b.2.to_integer().value(),
        row.h.value() == face.b.3.to_integer().value(),
{
    lemma_pixel_is_the_integer(face.b.0);
    lemma_pixel_is_the_integer(face.b.1);
    lemma_pixel_is_the_integer(face.b.2);
    lemma_pixel_is_the_integer(face.b.3);
    lemma_one_pixel_is_something(row.w, pixel_of(face.b.2));
    lemma_one_pixel_is_something(row.h, pixel_of(face.b.3));
    lemma_one_read(row, Det { conf: row.conf, b: (row.x, row.y, row.w, row.h) });
}

proof fn lemma_one_pixel_is_something(a: Num, n: int)
    requires
        a.is_int(n),
        n >= 1,
    ensures
        !a.at_most(zero()),
{
    lemma_units(n, 0);
    assert(worth(0) == 0);
}

proof fn lemma_one_read(row: InRow, det: Det)
    requires
        face_read(Some(row)) == Some(det),
    ensures
        faces_read(seq![Some(row)]) == seq![det],
{
    let rows = seq![Some(row)];
    let none: Seq<Option<InRow>> = seq![];
    assert(rows.drop_last() =~= none);
    assert(faces_read(none) =~= seq![]);
    assert(faces_read(rows) =~= seq![det]);
}

/// The pixel a coordinate falls on is the integer it is rounded to.
proof fn lemma_pixel_is_the_integer(a: Num)
    requires
        on_a_grid(a),
    ensures
        a.to_integer().is_int(pixel_of(a)),
        2 * a.value() >= units(1) ==> pixel_of(a) >= 1,
{
    let most = 2 * STEP;
    let m = a.magnitude();
    let w = worth(m);
    let u = pow2(1074) as int;
    lemma_pow2_pos(1074);
    assert(units(1) == u);
    assert(worth(0) == 0);
    if m > 0 {
        lemma_worth_increases(0, m);
    }
    law_count_is_exact(most as int);
    lemma_small(count_of(most as int), most as int);
    if m >= INFINITE {
        lemma_worth_increases(count_of(most as int).magnitude(), m);
    }
    let n = a.nearest_up();
    let x = 2 * w + u;
    lemma_fundamental_div_mod(x, 2 * u);
    lemma_mod_bound(x, 2 * u);
    let r = x % (2 * u);
    assert((2 * u) * n == 2 * (n * u)) by (nonlinear_arith);
    assert(n >= 0 && n <= most) by (nonlinear_arith)
        requires
            2 * w + u == 2 * (n * u) + r,
            0 <= w <= most * u,
            0 <= r < 2 * u,
            u > 0,
    ;
    assert(2 * w >= u ==> n >= 1) by (nonlinear_arith)
        requires
            2 * w + u == 2 * (n * u) + r,
            r < 2 * u,
            u > 0,
    ;
    let signed_n = if a.negative() {
        -n
    } else {
        n
    };
    lemma_exactly(a.negative(), signed_n);
}

} // verus!
