//! A frame's boxes against the faces already being followed: the surest
//! overlap first, one box to one face.
use crate::boxes::{iou, overlap, FaceBox};
use crate::face::{Det, Face, Track};
use crate::number::{lemma_named_powers, lemma_worth_increases, worth, Num, INFINITE, STEP};
use crate::rounding::nearest_even;
use vstd::arithmetic::power2::{lemma_pow2_adds, lemma_pow2_pos, lemma_pow2_unfold, pow2};
use vstd::prelude::*;

verus! {

/// How much two boxes have to overlap to be the same face a frame later: 0.3.
#[verifier::allow_in_spec]
pub fn match_iou() -> Num
    returns
        (Num { bits: 0x3FD3_3333_3333_3333 }),
{
    Num { bits: 0x3FD3_3333_3333_3333 }
}

/// Where the detector put its boxes.
pub open spec fn det_boxes(dets: Seq<Det>) -> Seq<FaceBox> {
    dets.map_values(|det: Det| det.b)
}

/// Where the faces were last seen.
pub open spec fn face_boxes(faces: Seq<Face>) -> Seq<FaceBox> {
    faces.map_values(|face: Face| face.b)
}

/// What the tracks hold.
pub open spec fn faces_of(tracks: Seq<Track>) -> Seq<Face> {
    tracks.map_values(|track: Track| track@)
}

/// Whether box `d` overlaps face `t` enough to be it.
pub open spec fn candidate(boxes: Seq<FaceBox>, faces: Seq<FaceBox>, d: int, t: int) -> bool {
    &&& 0 <= d < boxes.len()
    &&& 0 <= t < faces.len()
    &&& match_iou().at_most(overlap(boxes[d], faces[t]))
}

/// Whether box `e` is a surer match for face `u` than box `d` is for face `t`:
/// by the greater overlap, and of two equal ones by the order the boxes and
/// then the faces are in.
pub open spec fn surer(
    boxes: Seq<FaceBox>,
    faces: Seq<FaceBox>,
    e: int,
    u: int,
    d: int,
    t: int,
) -> bool {
    let v = overlap(boxes[e], faces[u]).value();
    let w = overlap(boxes[d], faces[t]).value();
    v > w || (v == w && (e < d || (e == d && u < t)))
}

/// Whether box `d` was given face `t`.
pub open spec fn given(of_det: Seq<Option<usize>>, d: int, t: int) -> bool {
    0 <= d < of_det.len() && of_det[d] is Some && of_det[d]->0 == t
}

/// Whether a surer match than box `d` and face `t` took one of the two.
pub open spec fn bettered(
    boxes: Seq<FaceBox>,
    faces: Seq<FaceBox>,
    of_det: Seq<Option<usize>>,
    d: int,
    t: int,
) -> bool {
    exists|e: int, u: int| #[trigger]
        given(of_det, e, u) && (e == d || u == t) && surer(boxes, faces, e, u, d, t)
}

/// The matching: one slot for each box, naming the face it is or none; no
/// face twice, nothing paired that does not overlap enough, and no two left
/// unpaired but where a surer match took one of them.
pub open spec fn matching(
    boxes: Seq<FaceBox>,
    faces: Seq<FaceBox>,
    of_det: Seq<Option<usize>>,
) -> bool {
    &&& of_det.len() == boxes.len()
    &&& forall|d: int, t: int| #[trigger] given(of_det, d, t) ==> candidate(boxes, faces, d, t)
    &&& forall|d: int, e: int, t: int|
        #[trigger] given(of_det, d, t) && #[trigger] given(of_det, e, t) ==> d == e
    &&& forall|d: int, t: int| #[trigger]
        candidate(boxes, faces, d, t) ==> given(of_det, d, t) || bettered(
            boxes,
            faces,
            of_det,
            d,
            t,
        )
}

proof fn lemma_given_alike(
    boxes: Seq<FaceBox>,
    faces: Seq<FaceBox>,
    one: Seq<Option<usize>>,
    two: Seq<Option<usize>>,
    d: int,
    t: int,
)
    requires
        matching(boxes, faces, one),
        matching(boxes, faces, two),
        candidate(boxes, faces, d, t),
    ensures
        given(one, d, t) == given(two, d, t),
    decreases worth(INFINITE as int) - overlap(boxes[d], faces[t]).value(), d, t,
{
    lemma_at_most_infinite(overlap(boxes[d], faces[t]));
    if given(one, d, t) && !given(two, d, t) {
        let (e, u) = choose|e: int, u: int| #[trigger]
            given(two, e, u) && (e == d || u == t) && surer(boxes, faces, e, u, d, t);
        lemma_at_most_infinite(overlap(boxes[e], faces[u]));
        lemma_given_alike(boxes, faces, one, two, e, u);
    }
    if given(two, d, t) && !given(one, d, t) {
        let (e, u) = choose|e: int, u: int| #[trigger]
            given(one, e, u) && (e == d || u == t) && surer(boxes, faces, e, u, d, t);
        lemma_at_most_infinite(overlap(boxes[e], faces[u]));
        lemma_given_alike(boxes, faces, one, two, e, u);
    }
}

proof fn lemma_at_most_infinite(a: Num)
    requires
        !a.is_nan(),
    ensures
        a.value() <= worth(INFINITE as int),
{
    let m = a.magnitude();
    if m < INFINITE {
        lemma_worth_increases(m, INFINITE as int);
    }
    if m > 0 {
        lemma_worth_increases(0, m);
    }
    assert(worth(0) == 0);
}

/// A frame's answer never depends on how it was arrived at: there is one
/// matching and no more.
pub proof fn law_matching_is_one(
    boxes: Seq<FaceBox>,
    faces: Seq<FaceBox>,
    one: Seq<Option<usize>>,
    two: Seq<Option<usize>>,
)
    requires
        matching(boxes, faces, one),
        matching(boxes, faces, two),
    ensures
        one == two,
{
    assert forall|d: int| 0 <= d < one.len() implies one[d] == two[d] by {
        if one[d] is Some {
            let t = one[d]->0 as int;
            assert(given(one, d, t));
            lemma_given_alike(boxes, faces, one, two, d, t);
        }
        if two[d] is Some {
            let t = two[d]->0 as int;
            assert(given(two, d, t));
            lemma_given_alike(boxes, faces, one, two, d, t);
        }
    }
    assert(one =~= two);
}

/// A box and a face that overlap enough, each more than it does any other, are
/// matched.
pub proof fn law_closest_are_matched(
    boxes: Seq<FaceBox>,
    faces: Seq<FaceBox>,
    of_det: Seq<Option<usize>>,
    d: int,
    t: int,
)
    requires
        matching(boxes, faces, of_det),
        candidate(boxes, faces, d, t),
        forall|e: int| #[trigger]
            candidate(boxes, faces, e, t) && e != d ==> surer(boxes, faces, d, t, e, t),
        forall|u: int| #[trigger]
            candidate(boxes, faces, d, u) && u != t ==> surer(boxes, faces, d, t, d, u),
    ensures
        given(of_det, d, t),
{
    if !given(of_det, d, t) {
        let (e, u) = choose|e: int, u: int| #[trigger]
            given(of_det, e, u) && (e == d || u == t) && surer(boxes, faces, e, u, d, t);
        assert(candidate(boxes, faces, e, u));
    }
}

/// A box that overlaps no face enough is none of them.
pub proof fn law_stranger_is_unmatched(
    boxes: Seq<FaceBox>,
    faces: Seq<FaceBox>,
    of_det: Seq<Option<usize>>,
    d: int,
)
    requires
        matching(boxes, faces, of_det),
        0 <= d < boxes.len(),
        forall|t: int| !#[trigger] candidate(boxes, faces, d, t),
    ensures
        of_det[d] is None,
{
    if of_det[d] is Some {
        assert(given(of_det, d, of_det[d]->0 as int));
    }
}

/// A box that overlaps a face by 0.3 or more, and by more than it overlaps any
/// other face and any other box overlaps that face, is that face.
pub proof fn law_greatest_overlap_is_matched(
    dets: Seq<Det>,
    faces: Seq<Face>,
    of_det: Seq<Option<usize>>,
    d: int,
    t: int,
)
    requires
        matching(det_boxes(dets), face_boxes(faces), of_det),
        0 <= d < dets.len(),
        0 <= t < faces.len(),
        (Num { bits: 0x3FD3_3333_3333_3333 }).at_most(overlap(dets[d].b, faces[t].b)),
        forall|u: int|
            0 <= u < faces.len() && u != t ==> overlap(dets[d].b, (#[trigger] faces[u]).b).is_nan()
                || overlap(dets[d].b, faces[u].b).value() < overlap(
                dets[d].b,
                faces[t].b,
            ).value(),
        forall|e: int|
            0 <= e < dets.len() && e != d ==> overlap((#[trigger] dets[e]).b, faces[t].b).is_nan()
                || overlap(dets[e].b, faces[t].b).value() < overlap(
                dets[d].b,
                faces[t].b,
            ).value(),
    ensures
        of_det[d] is Some,
        of_det[d]->0 == t,
{
    let (boxes, places) = (det_boxes(dets), face_boxes(faces));
    assert(boxes[d] == dets[d].b && places[t] == faces[t].b);
    assert(candidate(boxes, places, d, t));
    if !given(of_det, d, t) {
        let (e, u) = choose|e: int, u: int| #[trigger]
            given(of_det, e, u) && (e == d || u == t) && surer(boxes, places, e, u, d, t);
        assert(candidate(boxes, places, e, u));
        assert(boxes[e] == dets[e].b && places[u] == faces[u].b);
    }
}

/// Where a box overlaps a face by 0.3 or more and is not that face, one of the
/// two was matched elsewhere by an overlap at least as great, and where it is
/// as great, by an earlier box, or by the same box and an earlier face.
pub proof fn law_unmatched_gave_way(
    dets: Seq<Det>,
    faces: Seq<Face>,
    of_det: Seq<Option<usize>>,
    d: int,
    t: int,
) -> (pair: (int, int))
    requires
        matching(det_boxes(dets), face_boxes(faces), of_det),
        0 <= d < dets.len(),
        0 <= t < faces.len(),
        (Num { bits: 0x3FD3_3333_3333_3333 }).at_most(overlap(dets[d].b, faces[t].b)),
        of_det[d] is None || of_det[d]->0 != t,
    ensures
        0 <= pair.0 < dets.len(),
        0 <= pair.1 < faces.len(),
        of_det[pair.0] is Some && of_det[pair.0]->0 == pair.1,
        pair.0 == d || pair.1 == t,
        ({
            let (won, lost) = (
                overlap(dets[pair.0].b, faces[pair.1].b).value(),
                overlap(dets[d].b, faces[t].b).value(),
            );
            won > lost || (won == lost && (pair.0 < d || (pair.0 == d && pair.1 < t)))
        }),
{
    let (boxes, places) = (det_boxes(dets), face_boxes(faces));
    assert(boxes[d] == dets[d].b && places[t] == faces[t].b);
    assert(candidate(boxes, places, d, t));
    assert(!given(of_det, d, t));
    let (e, u) = choose|e: int, u: int| #[trigger]
        given(of_det, e, u) && (e == d || u == t) && surer(boxes, places, e, u, d, t);
    assert(candidate(boxes, places, e, u));
    assert(boxes[e] == dets[e].b && places[u] == faces[u].b);
    (e, u)
}

/// There is a slot for each box; a box is a face only where it overlaps it by
/// 0.3 or more, and no two boxes are the same face.
pub proof fn law_matched_overlap_enough(
    dets: Seq<Det>,
    faces: Seq<Face>,
    of_det: Seq<Option<usize>>,
)
    requires
        matching(det_boxes(dets), face_boxes(faces), of_det),
    ensures
        of_det.len() == dets.len(),
        forall|d: int|
            0 <= d < dets.len() && (#[trigger] of_det[d]) is Some ==> of_det[d]->0 < faces.len()
                && (Num { bits: 0x3FD3_3333_3333_3333 }).at_most(
                overlap(dets[d].b, faces[of_det[d]->0 as int].b),
            ),
        forall|d: int, e: int|
            0 <= d < e < dets.len() && (#[trigger] of_det[d]) is Some && (#[trigger] of_det[e])
                is Some ==> of_det[d]->0 != of_det[e]->0,
{
    let (boxes, places) = (det_boxes(dets), face_boxes(faces));
    assert forall|d: int| 0 <= d < dets.len() && (#[trigger] of_det[d]) is Some implies of_det[d]->0
        < faces.len() && (Num { bits: 0x3FD3_3333_3333_3333 }).at_most(
        overlap(dets[d].b, faces[of_det[d]->0 as int].b),
    ) by {
        let t = of_det[d]->0 as int;
        assert(given(of_det, d, t));
        assert(candidate(boxes, places, d, t));
        assert(boxes[d] == dets[d].b && places[t] == faces[t].b);
    }
    assert forall|d: int, e: int|
        0 <= d < e < dets.len() && (#[trigger] of_det[d]) is Some && (#[trigger] of_det[e])
            is Some implies of_det[d]->0 != of_det[e]->0 by {
        let t = of_det[d]->0 as int;
        assert(given(of_det, d, t));
        if of_det[e]->0 == t {
            assert(given(of_det, e, t));
        }
    }
}

/// What two boxes have to overlap by is 0.3: no number is nearer to three
/// tenths.
pub proof fn law_threshold_is_three_tenths()
    ensures
        nearest_even(3 * pow2(1074) as int, 10, match_iou().magnitude()),
        !match_iou().negative(),
{
    let m = 0x3FD3_3333_3333_3333int;
    let (f, p) = (0x3_3333_3333_3333int, pow2(1020) as int);
    lemma_named_powers();
    lemma_pow2_adds(1020, 54);
    lemma_pow2_adds(52, 2);
    lemma_pow2_unfold(2);
    assert(pow2(1074) == p * 0x40_0000_0000_0000);
    assert(match_iou().magnitude() == m);
    assert(m / (STEP as int) == 1021 && m % (STEP as int) == f);
    assert((m - 1) / (STEP as int) == 1021 && (m - 1) % (STEP as int) == f - 1);
    assert((m + 1) / (STEP as int) == 1021 && (m + 1) % (STEP as int) == f + 1);
    lemma_pow2_pos(1020);
    assert(worth(m) == 0x13_3333_3333_3333int * p);
    assert(worth(m - 1) == 0x13_3333_3333_3332int * p);
    assert(worth(m + 1) == 0x13_3333_3333_3334int * p);
}

/// A box and a face that overlap enough, and by how much.
#[derive(Clone, Copy)]
struct Pair {
    ratio: Num,
    d: usize,
    t: usize,
}

/// Whether `pairs` holds candidates alone, the surest first.
spec fn ranked(boxes: Seq<FaceBox>, faces: Seq<FaceBox>, pairs: Seq<Pair>) -> bool {
    &&& forall|i: int|
        0 <= i < pairs.len() ==> candidate(
            boxes,
            faces,
            (#[trigger] pairs[i]).d as int,
            pairs[i].t as int,
        ) && pairs[i].ratio == overlap(boxes[pairs[i].d as int], faces[pairs[i].t as int])
    &&& forall|i: int, j: int|
        0 <= i < j < pairs.len() ==> surer(
            boxes,
            faces,
            (#[trigger] pairs[i]).d as int,
            pairs[i].t as int,
            (#[trigger] pairs[j]).d as int,
            pairs[j].t as int,
        )
}

spec fn holds(pairs: Seq<Pair>, d: int, t: int) -> bool {
    exists|i: int| 0 <= i < pairs.len() && (#[trigger] pairs[i]).d == d && pairs[i].t == t
}

/// Whether box `d` and face `t` come before box `e` and face `u`.
spec fn earlier(d: int, t: int, e: int, u: int) -> bool {
    d < e || (d == e && t < u)
}

/// One more candidate, later than any there, put where it ranks.
fn place(
    pairs: &mut Vec<Pair>,
    pair: Pair,
    Ghost(boxes): Ghost<Seq<FaceBox>>,
    Ghost(faces): Ghost<Seq<FaceBox>>,
)
    requires
        ranked(boxes, faces, old(pairs)@),
        candidate(boxes, faces, pair.d as int, pair.t as int),
        pair.ratio == overlap(boxes[pair.d as int], faces[pair.t as int]),
        forall|i: int|
            0 <= i < old(pairs)@.len() ==> earlier(
                (#[trigger] old(pairs)@[i]).d as int,
                old(pairs)@[i].t as int,
                pair.d as int,
                pair.t as int,
            ),
    ensures
        ranked(boxes, faces, final(pairs)@),
        exists|at: int|
            0 <= at <= old(pairs)@.len() && final(pairs)@ == #[trigger] old(pairs)@.insert(
                at,
                pair,
            ),
{
    let ghost before = pairs@;
    let mut at: usize = pairs.len();
    while at > 0 && !pair.ratio.le(pairs[at - 1].ratio)
        invariant
            at <= pairs.len(),
            pairs@ == before,
            ranked(boxes, faces, before),
            candidate(boxes, faces, pair.d as int, pair.t as int),
            pair.ratio == overlap(boxes[pair.d as int], faces[pair.t as int]),
            forall|i: int|
                at <= i < before.len() ==> (#[trigger] before[i]).ratio.value()
                    < pair.ratio.value(),
        decreases at,
    {
        at = at - 1;
    }
    pairs.insert(at, pair);
    proof {
        let after = pairs@;
        assert(after == before.insert(at as int, pair));
        assert forall|i: int| 0 <= i < at implies (#[trigger] before[i]).ratio.value()
            >= pair.ratio.value() by {
            if i < at - 1 {
                let last = before[at - 1];
                assert(surer(
                    boxes,
                    faces,
                    before[i].d as int,
                    before[i].t as int,
                    last.d as int,
                    last.t as int,
                ));
            }
        }
        assert forall|i: int, j: int| 0 <= i < j < after.len() implies surer(
            boxes,
            faces,
            (#[trigger] after[i]).d as int,
            after[i].t as int,
            (#[trigger] after[j]).d as int,
            after[j].t as int,
        ) by {
            if i < at && j == at {
                assert(after[i] == before[i]);
            } else if i == at {
                assert(after[j] == before[j - 1]);
            } else {
                let p = if i < at {
                    before[i]
                } else {
                    before[i - 1]
                };
                let q = if j < at {
                    before[j]
                } else {
                    before[j - 1]
                };
                assert(after[i] == p && after[j] == q);
            }
        }
        assert forall|i: int| 0 <= i < after.len() implies candidate(
            boxes,
            faces,
            (#[trigger] after[i]).d as int,
            after[i].t as int,
        ) && after[i].ratio == overlap(boxes[after[i].d as int], faces[after[i].t as int]) by {
            if i < at {
                assert(after[i] == before[i]);
            } else if i > at {
                assert(after[i] == before[i - 1]);
            }
        }
    }
}

/// Every box and face that overlap enough, the surest first.
fn candidates(tracks: &[Track], dets: &[Det]) -> (pairs: Vec<Pair>)
    ensures
        ({
            let (boxes, faces) = (det_boxes(dets@), face_boxes(faces_of(tracks@)));
            &&& ranked(boxes, faces, pairs@)
            &&& forall|d: int, t: int| #[trigger]
                candidate(boxes, faces, d, t) ==> holds(pairs@, d, t)
        }),
{
    let ghost boxes = det_boxes(dets@);
    let ghost faces = face_boxes(faces_of(tracks@));
    let mut pairs: Vec<Pair> = Vec::new();
    let mut d: usize = 0;
    while d < dets.len()
        invariant
            d <= dets.len(),
            boxes == det_boxes(dets@),
            faces == face_boxes(faces_of(tracks@)),
            ranked(boxes, faces, pairs@),
            forall|i: int| 0 <= i < pairs@.len() ==> (#[trigger] pairs@[i]).d < d,
            forall|e: int, u: int| #[trigger]
                candidate(boxes, faces, e, u) && e < d ==> holds(pairs@, e, u),
        decreases dets.len() - d,
    {
        let mut t: usize = 0;
        while t < tracks.len()
            invariant
                d < dets.len(),
                t <= tracks.len(),
                boxes == det_boxes(dets@),
                faces == face_boxes(faces_of(tracks@)),
                ranked(boxes, faces, pairs@),
                forall|i: int|
                    0 <= i < pairs@.len() ==> earlier(
                        (#[trigger] pairs@[i]).d as int,
                        pairs@[i].t as int,
                        d as int,
                        t as int,
                    ),
                forall|e: int, u: int| #[trigger]
                    candidate(boxes, faces, e, u) && earlier(e, u, d as int, t as int) ==> holds(
                        pairs@,
                        e,
                        u,
                    ),
            decreases tracks.len() - t,
        {
            let ratio: Num = iou(dets[d].b, tracks[t].b);
            let ghost before = pairs@;
            assert(boxes[d as int] == dets@[d as int].b);
            assert(faces[t as int] == tracks@[t as int].b);
            if match_iou().le(ratio) {
                let pair: Pair = Pair { ratio, d, t };
                place(&mut pairs, pair, Ghost(boxes), Ghost(faces));
                proof {
                    let at = choose|at: int|
                        0 <= at <= before.len() && pairs@ == #[trigger] before.insert(at, pair);
                    assert(pairs@[at] == pair);
                    lemma_inserted(before, at, pair);
                }
            }
            t = t + 1;
        }
        d = d + 1;
    }
    pairs
}

proof fn lemma_inserted(before: Seq<Pair>, at: int, pair: Pair)
    requires
        0 <= at <= before.len(),
    ensures
        holds(before.insert(at, pair), pair.d as int, pair.t as int),
        forall|e: int, u: int| #[trigger]
            holds(before, e, u) ==> holds(before.insert(at, pair), e, u),
        forall|i: int|
            0 <= i < before.insert(at, pair).len() ==> (#[trigger] before.insert(at, pair)[i]
                == pair || exists|j: int|
                0 <= j < before.len() && before[j] == before.insert(at, pair)[i]),
{
    let after = before.insert(at, pair);
    assert(after[at] == pair);
    assert forall|e: int, u: int| #[trigger] holds(before, e, u) implies holds(after, e, u) by {
        let i = choose|i: int|
            0 <= i < before.len() && (#[trigger] before[i]).d == e && before[i].t == u;
        if i < at {
            assert(after[i] == before[i]);
        } else {
            assert(after[i + 1] == before[i]);
        }
    }
    assert forall|i: int| 0 <= i < after.len() implies (#[trigger] after[i] == pair || exists|
        j: int,
    |
        0 <= j < before.len() && before[j] == after[i]) by {
        if i < at {
            assert(before[i] == after[i]);
        } else if i > at {
            assert(before[i - 1] == after[i]);
        }
    }
}

/// Whether a pair, or a surer one that shares its box or its face, was given.
spec fn dealt(
    boxes: Seq<FaceBox>,
    faces: Seq<FaceBox>,
    of_det: Seq<Option<usize>>,
    pair: Pair,
) -> bool {
    given(of_det, pair.d as int, pair.t as int) || bettered(
        boxes,
        faces,
        of_det,
        pair.d as int,
        pair.t as int,
    )
}

/// This frame's boxes against the faces already being followed: the surest
/// overlap first, one box to one face, and nothing paired under `match_iou`.
/// The answer is one slot per box, naming the face it is, or none for a box
/// that is a face not seen before.
pub fn match_boxes(tracks: &[Track], dets: &[Det]) -> (of_det: Vec<Option<usize>>)
    ensures
        matching(det_boxes(dets@), face_boxes(faces_of(tracks@)), of_det@),
{
    let ghost boxes = det_boxes(dets@);
    let ghost faces = face_boxes(faces_of(tracks@));
    let pairs: Vec<Pair> = candidates(tracks, dets);
    let mut of_det: Vec<Option<usize>> = Vec::new();
    let mut d: usize = 0;
    while d < dets.len()
        invariant
            d <= dets.len(),
            of_det@.len() == d,
            forall|e: int| 0 <= e < d ==> (#[trigger] of_det@[e]) is None,
        decreases dets.len() - d,
    {
        of_det.push(None);
        d = d + 1;
    }
    let mut taken: Vec<bool> = Vec::new();
    let mut t: usize = 0;
    while t < tracks.len()
        invariant
            t <= tracks.len(),
            taken@.len() == t,
            forall|u: int| 0 <= u < t ==> !(#[trigger] taken@[u]),
        decreases tracks.len() - t,
    {
        taken.push(false);
        t = t + 1;
    }
    let mut i: usize = 0;
    while i < pairs.len()
        invariant
            i <= pairs.len(),
            boxes == det_boxes(dets@),
            faces == face_boxes(faces_of(tracks@)),
            of_det@.len() == boxes.len(),
            taken@.len() == faces.len(),
            ranked(boxes, faces, pairs@),
            // What was given is a pair already gone through.
            forall|e: int, u: int| #[trigger]
                given(of_det@, e, u) ==> 0 <= u < faces.len() && taken@[u] && exists|j: int|
                    0 <= j < i && (#[trigger] pairs@[j]).d == e && pairs@[j].t == u,
            forall|u: int|
                0 <= u < faces.len() && #[trigger] taken@[u] ==> exists|e: int| #[trigger]
                    given(of_det@, e, u),
            forall|e: int, f: int, u: int|
                #[trigger] given(of_det@, e, u) && #[trigger] given(of_det@, f, u) ==> e == f,
            forall|j: int| 0 <= j < i ==> dealt(boxes, faces, of_det@, #[trigger] pairs@[j]),
        decreases pairs.len() - i,
    {
        let pair: Pair = pairs[i];
        let ghost before = of_det@;
        let ghost held = taken@;
        assert(candidate(boxes, faces, pair.d as int, pair.t as int));
        if of_det[pair.d].is_none() && !taken[pair.t] {
            of_det.set(pair.d, Some(pair.t));
            taken.set(pair.t, true);
            proof {
                let (x, y) = (pair.d as int, pair.t as int);
                assert(given(of_det@, x, y));
                assert forall|e: int, u: int| given(before, e, u) implies #[trigger] given(
                    of_det@,
                    e,
                    u,
                ) by {
                    assert(e != x);
                }
                assert forall|e: int, u: int| #[trigger] given(of_det@, e, u) implies (e == x && u
                    == y) || given(before, e, u) by {}
                assert forall|j: int| 0 <= j < i + 1 implies dealt(
                    boxes,
                    faces,
                    of_det@,
                    #[trigger] pairs@[j],
                ) by {
                    if j < i {
                        assert(dealt(boxes, faces, before, pairs@[j]));
                        lemma_still_bettered(
                            boxes,
                            faces,
                            before,
                            of_det@,
                            pairs@[j].d as int,
                            pairs@[j].t as int,
                        );
                        if given(before, pairs@[j].d as int, pairs@[j].t as int) {
                            assert(given(of_det@, pairs@[j].d as int, pairs@[j].t as int));
                        }
                    }
                }
                assert forall|u: int|
                    0 <= u < faces.len() && #[trigger] taken@[u] implies exists|e: int| #[trigger]
                    given(of_det@, e, u) by {
                    if u != y {
                        assert(held[u]);
                        let e = choose|e: int| #[trigger] given(before, e, u);
                        assert(given(of_det@, e, u));
                    }
                }
                assert forall|e: int, u: int| #[trigger] given(of_det@, e, u) implies 0 <= u
                    < faces.len() && taken@[u] && exists|j: int|
                    0 <= j < i + 1 && (#[trigger] pairs@[j]).d == e && pairs@[j].t == u by {
                    if e == x && u == y {
                        assert(pairs@[i as int].d == e);
                    } else {
                        assert(given(before, e, u));
                        let j = choose|j: int|
                            0 <= j < i && (#[trigger] pairs@[j]).d == e && pairs@[j].t == u;
                        assert(pairs@[j].d == e);
                    }
                }
            }
        } else {
            proof {
                let (x, y) = (pair.d as int, pair.t as int);
                let (e, u) = if of_det@[x] is Some {
                    (x, of_det@[x]->0 as int)
                } else {
                    (choose|e: int| #[trigger] given(of_det@, e, y), y)
                };
                assert(given(of_det@, e, u));
                let j = choose|j: int|
                    0 <= j < i && (#[trigger] pairs@[j]).d == e && pairs@[j].t == u;
                assert(pairs@[i as int] == pair);
                assert(surer(boxes, faces, e, u, x, y));
                assert(bettered(boxes, faces, of_det@, x, y));
                assert forall|e: int, u: int| #[trigger] given(of_det@, e, u) implies 0 <= u
                    < faces.len() && taken@[u] && exists|j: int|
                    0 <= j < i + 1 && (#[trigger] pairs@[j]).d == e && pairs@[j].t == u by {
                    let j = choose|j: int|
                        0 <= j < i && (#[trigger] pairs@[j]).d == e && pairs@[j].t == u;
                    assert(pairs@[j].d == e);
                }
            }
        }
        i = i + 1;
    }
    proof {
        assert forall|d: int, t: int| #[trigger] candidate(boxes, faces, d, t) implies given(
            of_det@,
            d,
            t,
        ) || bettered(boxes, faces, of_det@, d, t) by {
            assert(holds(pairs@, d, t));
            let j = choose|j: int|
                0 <= j < pairs@.len() && (#[trigger] pairs@[j]).d == d && pairs@[j].t == t;
            assert(dealt(boxes, faces, of_det@, pairs@[j]));
        }
        assert forall|d: int, t: int| #[trigger] given(of_det@, d, t) implies candidate(
            boxes,
            faces,
            d,
            t,
        ) by {
            let j = choose|j: int|
                0 <= j < i && (#[trigger] pairs@[j]).d == d && pairs@[j].t == t;
            assert(candidate(boxes, faces, pairs@[j].d as int, pairs@[j].t as int));
        }
    }
    of_det
}

proof fn lemma_still_bettered(
    boxes: Seq<FaceBox>,
    faces: Seq<FaceBox>,
    before: Seq<Option<usize>>,
    after: Seq<Option<usize>>,
    d: int,
    t: int,
)
    requires
        forall|e: int, u: int| given(before, e, u) ==> #[trigger] given(after, e, u),
    ensures
        bettered(boxes, faces, before, d, t) ==> bettered(boxes, faces, after, d, t),
{
    if bettered(boxes, faces, before, d, t) {
        let (e, u) = choose|e: int, u: int| #[trigger]
            given(before, e, u) && (e == d || u == t) && surer(boxes, faces, e, u, d, t);
        assert(given(after, e, u));
    }
}

} // verus!
