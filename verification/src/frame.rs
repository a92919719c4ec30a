//! What one frame does, told from what goes into it and what comes out.
use crate::boxes::{overlap, FaceBox};
use crate::face::{new_face, Det, Face, Told};
use crate::matching::{
    law_greatest_overlap_is_matched, law_matched_overlap_enough, law_unmatched_gave_way,
};
use crate::number::Num;
use crate::params::Params;
use crate::text::decimal;
use crate::tracker::{
    advanced, answered, lemma_joined, lemma_newcomers, lemma_place, outcome, sighted, Sighting,
};
use vstd::prelude::*;

verus! {

/// The account of a frame that went through.
pub struct Account {
    /// Which of the faces carried over each box is, if it is one.
    pub of_det: Seq<Option<usize>>,
    /// The boxes that were handed over to be scored, by their place among the
    /// frame's boxes.
    pub order: Seq<int>,
    /// The ages that came back for them.
    pub ages: Seq<Num>,
    /// Where each box's face is after the frame.
    pub place: Seq<int>,
    /// Which face each of those after the frame was: one carried over, by its
    /// place among them, or, past those, the one new at a box.
    pub from: Seq<int>,
}

/// What becomes of a frame that goes through. Its boxes are the faces they
/// overlap the most, or new ones. Every box whose face has no score yet, or
/// none for `every` frames, is handed over to be scored, in the order of the
/// boxes, and each age that comes back goes to the face of the box it was asked
/// for. A face that is found is after the frame at its box; one that is not is
/// where it was, if it has been missing for no more than `hold` frames, and is
/// else gone. The faces stay in their order, the new ones last, and each is
/// written as its row.
pub proof fn law_what_a_frame_does<S: FnOnce(&[FaceBox]) -> Result<Vec<Num>, String>>(
    faces: Seq<Face>,
    dets: Seq<Det>,
    params: Params,
    score: S,
    left: Seq<Face>,
    rows: Seq<Told>,
) -> (account: Account)
    requires
        advanced(faces, dets, params, score, (left, Ok(rows))),
        forall|t: int| 0 <= t < faces.len() ==> (#[trigger] faces[t]).scores.len() <= 30,
    ensures
        ({
            let carried: Seq<Face> = if params.hold == 0 {
                seq![]
            } else {
                faces
            };
            let of_det = account.of_det;
            let least = Num { bits: 0x3FD3_3333_3333_3333 };
            // The boxes are matched by overlap.
            &&& of_det == sighted(faces, dets, params).of_det
            &&& of_det.len() == dets.len()
            &&& forall|d: int|
                0 <= d < dets.len() && (#[trigger] of_det[d]) is Some ==> of_det[d]->0
                    < carried.len() && least.at_most(
                    overlap(dets[d].b, carried[of_det[d]->0 as int].b),
                )
            &&& forall|d: int, e: int|
                0 <= d < e < dets.len() && (#[trigger] of_det[d]) is Some && (#[trigger] of_det[e])
                    is Some ==> of_det[d]->0 != of_det[e]->0
            // Those due are handed over, and no others.
            &&& account.order.len() == account.ages.len()
            &&& account.order.len() > 0 ==> exists|boxes: &[FaceBox], ages: Vec<Num>| #[trigger]
                call_ensures(score, (boxes,), Ok(ages)) && ages@ == account.ages && boxes@.len()
                    == account.order.len() && forall|j: int|
                    0 <= j < account.order.len() ==> boxes@[j] == dets[#[trigger] account.order[j]].b
            &&& forall|j: int|
                0 <= j < account.order.len() ==> 0 <= (#[trigger] account.order[j]) < dets.len()
            &&& forall|i: int, j: int|
                0 <= i < j < account.order.len() ==> (#[trigger] account.order[i]) < (
                #[trigger] account.order[j])
            // What becomes of the face of each box.
            &&& account.place.len() == dets.len()
            &&& forall|d: int|
                #![trigger account.place[d]]
                0 <= d < dets.len() ==> {
                    let was = if of_det[d] is Some {
                        carried[of_det[d]->0 as int]
                    } else {
                        Face { b: dets[d].b, conf: dets[d].conf, scores: seq![], since: 0, missed: 0 }
                    };
                    let is = left[account.place[d]];
                    &&& 0 <= account.place[d] < left.len()
                    &&& account.from[account.place[d]] == if of_det[d] is Some {
                        of_det[d]->0 as int
                    } else {
                        carried.len() + d
                    }
                    &&& is.b == dets[d].b
                    &&& is.conf == dets[d].conf
                    &&& is.missed == 0
                    &&& account.order.contains(d) <==> was.scores.len() == 0 || was.since
                        >= params.every
                    &&& forall|j: int|
                        0 <= j < account.order.len() && (#[trigger] account.order[j]) == d
                            ==> is.scores == (if was.scores.len() < 30 {
                            was.scores
                        } else {
                            was.scores.skip(was.scores.len() - 29)
                        }).push(account.ages[j]) && is.since == 1
                    &&& !account.order.contains(d) ==> is.scores == was.scores && (is.since
                        == was.since + 1 || (was.since >= u32::MAX && is.since == u32::MAX))
                }
            // What becomes of the faces that no box is.
            &&& account.from.len() == left.len()
            &&& forall|i: int|
                0 <= i < left.len() ==> 0 <= (#[trigger] account.from[i]) < carried.len()
                    + dets.len()
            &&& forall|i: int, j: int|
                0 <= i < j < left.len() ==> (#[trigger] account.from[i]) < (
                #[trigger] account.from[j])
            &&& forall|i: int|
                0 <= i < left.len() && (#[trigger] account.from[i]) >= carried.len()
                    ==> of_det[account.from[i] - carried.len()] is None
            &&& forall|t: int|
                #![trigger carried[t]]
                0 <= t < carried.len() && (forall|d: int|
                    0 <= d < dets.len() && (#[trigger] of_det[d]) is Some ==> of_det[d]->0 != t)
                    ==> {
                    &&& account.from.contains(t) <==> carried[t].missed + 1 <= params.hold
                    &&& forall|i: int|
                        0 <= i < left.len() && (#[trigger] account.from[i]) == t ==> {
                            &&& left[i].b == carried[t].b
                            &&& left[i].conf == carried[t].conf
                            &&& left[i].scores == carried[t].scores
                            &&& left[i].missed == carried[t].missed + 1
                            &&& left[i].since == carried[t].since + 1 || (carried[t].since
                                >= u32::MAX && left[i].since == u32::MAX)
                        }
                }
            // Every face is written as its row.
            &&& rows.len() == left.len()
            &&& forall|i: int| 0 <= i < left.len() ==> (#[trigger] rows[i]) == left[i].told()
        }),
{
    let s = sighted(faces, dets, params);
    let wanted = s.wanted(params.every);
    let r: (Seq<Face>, Result<Seq<Told>, Seq<char>>) = (left, Ok(rows));
    let ages = if wanted.len() == 0 {
        seq![]
    } else {
        let (boxes, answer) = choose|boxes: &[FaceBox], answer: Result<Vec<Num>, String>|
            boxes@ == wanted && #[trigger] call_ensures(score, (boxes,), answer) && r == outcome(
                s,
                params,
                answered(answer),
            );
        answered(answer)->Ok_0
    };
    assert(r == outcome(s, params, Ok(ages)));
    let n = dets.len() as int;
    let order = due_list(s, params.every, n);
    let stay = staying(s, params.hold, s.all().len() as int);
    lemma_due_list(s, params.every, n);
    lemma_staying(s, params, ages, s.all().len() as int);
    let after = s.after(params.every, ages);
    assert(after.take(s.all().len() as int) =~= after);
    law_matched_overlap_enough(dets, s.faces, s.of_det);
    let from = Seq::new(stay.len(), |i: int| identity(s, stay[i]));
    let place = Seq::new(dets.len(), |d: int| stay.index_of(s.place(d)));
    let account = Account { of_det: s.of_det, order, ages, place, from };
    assert(left == s.kept(params, ages));
    if order.len() > 0 {
        let (boxes, answer) = choose|boxes: &[FaceBox], answer: Result<Vec<Num>, String>|
            boxes@ == wanted && #[trigger] call_ensures(score, (boxes,), answer) && r == outcome(
                s,
                params,
                answered(answer),
            );
        let came = answer->Ok_0;
        assert(answer == Ok::<Vec<Num>, String>(came));
        assert(call_ensures(score, (boxes,), Ok(came)));
    }
    assert forall|i: int, j: int| 0 <= i < j < left.len() implies (#[trigger] from[i]) < (
    #[trigger] from[j]) by {
        lemma_identity(s, stay[i]);
        lemma_identity(s, stay[j]);
        lemma_identity_order(s, stay[i], stay[j]);
    }
    assert forall|i: int| 0 <= i < left.len() implies 0 <= (#[trigger] from[i]) < s.faces.len()
        + dets.len() && (from[i] >= s.faces.len() ==> s.of_det[from[i] - s.faces.len()] is None) by {
        lemma_identity(s, stay[i]);
    }
    assert forall|d: int|
        #![trigger account.place[d]]
        0 <= d < dets.len() implies {
        let was = if s.of_det[d] is Some {
            s.faces[s.of_det[d]->0 as int]
        } else {
            Face { b: dets[d].b, conf: dets[d].conf, scores: seq![], since: 0, missed: 0 }
        };
        let is = left[account.place[d]];
        &&& 0 <= account.place[d] < left.len()
        &&& from[account.place[d]] == if s.of_det[d] is Some {
            s.of_det[d]->0 as int
        } else {
            s.faces.len() + d
        }
        &&& is.b == dets[d].b
        &&& is.conf == dets[d].conf
        &&& is.missed == 0
        &&& order.contains(d) <==> was.scores.len() == 0 || was.since >= params.every
        &&& forall|j: int|
            0 <= j < order.len() && (#[trigger] order[j]) == d ==> is.scores == (if was.scores.len()
                < 30 {
                was.scores
            } else {
                was.scores.skip(was.scores.len() - 29)
            }).push(ages[j]) && is.since == 1
        &&& !order.contains(d) ==> is.scores == was.scores && (is.since == was.since + 1 || (
        was.since >= u32::MAX && is.since == u32::MAX))
    } by {
        lemma_box(s, params, ages, d);
    }
    assert forall|t: int|
        #![trigger s.faces[t]]
        0 <= t < s.faces.len() && (forall|d: int|
            0 <= d < dets.len() && (#[trigger] s.of_det[d]) is Some ==> s.of_det[d]->0
                != t) implies {
        &&& from.contains(t) <==> s.faces[t].missed + 1 <= params.hold
        &&& forall|i: int|
            0 <= i < left.len() && (#[trigger] from[i]) == t ==> {
                &&& left[i].b == s.faces[t].b
                &&& left[i].conf == s.faces[t].conf
                &&& left[i].scores == s.faces[t].scores
                &&& left[i].missed == s.faces[t].missed + 1
                &&& left[i].since == s.faces[t].since + 1 || (s.faces[t].since >= u32::MAX
                    && left[i].since == u32::MAX)
            }
    } by {
        lemma_unfound(s, params, ages, t);
    }
    account
}

/// What becomes of a frame that goes wrong. The boxes handed over were answered
/// with an error, which is what is said, or with another number of ages than
/// there were boxes. Every face is as it was before, and after them comes a new
/// one for each box that is none of those carried over, in the order of the
/// boxes.
pub proof fn law_what_a_failed_frame_does<S: FnOnce(&[FaceBox]) -> Result<Vec<Num>, String>>(
    faces: Seq<Face>,
    dets: Seq<Det>,
    params: Params,
    score: S,
    left: Seq<Face>,
    why: Seq<char>,
) -> (order: Seq<int>)
    requires
        advanced(faces, dets, params, score, (left, Err(why))),
    ensures
        exists|boxes: &[FaceBox], answer: Result<Vec<Num>, String>| #[trigger]
            call_ensures(score, (boxes,), answer) && boxes@.len() > 0 && match answer {
                Err(e) => why == e@,
                Ok(ages) => ages@.len() != boxes@.len() && why == "ages: "@ + decimal(boxes@.len())
                    + " crops went to the graph and "@ + decimal(ages@.len())
                    + " ages came back"@,
            },
        left.len() == faces.len() + order.len(),
        forall|t: int| 0 <= t < faces.len() ==> left[t] == #[trigger] faces[t],
        forall|i: int|
            0 <= i < order.len() ==> 0 <= (#[trigger] order[i]) < dets.len() && left[faces.len()
                + i] == (Face {
                b: dets[order[i]].b,
                conf: dets[order[i]].conf,
                scores: seq![],
                since: 0,
                missed: 0,
            }),
        forall|i: int, j: int|
            0 <= i < j < order.len() ==> (#[trigger] order[i]) < (#[trigger] order[j]),
        forall|d: int|
            0 <= d < dets.len() ==> (order.contains(d) <==> (#[trigger] sighted(
                faces,
                dets,
                params,
            ).of_det[d]) is None),
{
    let s = sighted(faces, dets, params);
    let wanted = s.wanted(params.every);
    let r: (Seq<Face>, Result<Seq<Told>, Seq<char>>) = (left, Err(why));
    let (boxes, answer) = choose|boxes: &[FaceBox], answer: Result<Vec<Num>, String>|
        boxes@ == wanted && #[trigger] call_ensures(score, (boxes,), answer) && r == outcome(
            s,
            params,
            answered(answer),
        );
    assert(call_ensures(score, (boxes,), answer));
    let n = dets.len() as int;
    let order = new_list(s, n);
    lemma_new_list(s, n);
    lemma_joined(s, n);
    assert(left == s.untouched());
    assert forall|t: int| 0 <= t < faces.len() implies left[t] == #[trigger] faces[t] by {
        if params.hold != 0 {
            assert(s.all()[t] == s.faces[t]);
        }
    }
    assert forall|i: int| 0 <= i < order.len() implies 0 <= (#[trigger] order[i]) < dets.len()
        && left[faces.len() + i] == (Face {
        b: dets[order[i]].b,
        conf: dets[order[i]].conf,
        scores: seq![],
        since: 0,
        missed: 0,
    }) by {
        assert(s.all()[s.faces.len() + i] == new_face(s.dets[order[i]]));
        assert(left[s.aside.len() + (s.faces.len() + i)] == s.all()[s.faces.len() + i]);
    }
    order
}

/// Those of the first `n` boxes that are none of the faces carried over, by
/// their places.
spec fn new_list(s: Sighting, n: int) -> Seq<int>
    decreases n,
{
    if n <= 0 {
        seq![]
    } else if s.of_det[n - 1] is None {
        new_list(s, n - 1).push(n - 1)
    } else {
        new_list(s, n - 1)
    }
}

proof fn lemma_new_list(s: Sighting, n: int)
    requires
        0 <= n,
    ensures
        ({
            let order = new_list(s, n);
            &&& s.joined(n).len() == s.faces.len() + order.len()
            &&& forall|i: int|
                0 <= i < order.len() ==> 0 <= (#[trigger] order[i]) < n && s.of_det[order[i]]
                    is None && s.joined(n)[s.faces.len() + i] == new_face(s.dets[order[i]])
            &&& forall|i: int, j: int|
                0 <= i < j < order.len() ==> (#[trigger] order[i]) < (#[trigger] order[j])
            &&& forall|d: int| 0 <= d < n && (#[trigger] s.of_det[d]) is None ==> order.contains(d)
        }),
    decreases n,
{
    if n > 0 {
        lemma_new_list(s, n - 1);
        let (before, order) = (new_list(s, n - 1), new_list(s, n));
        assert forall|d: int| 0 <= d < n && (#[trigger] s.of_det[d])
            is None implies order.contains(d) by {
            if d < n - 1 {
                let j = choose|j: int| 0 <= j < before.len() && before[j] == d;
                assert(order[j] == d);
            } else {
                assert(order[before.len() as int] == d);
            }
        }
    }
}

/// On a frame that goes through, a box that overlaps a face carried over by 0.3
/// or more, and by more than it does any other and any other box does that
/// face, is that face; one that overlaps a face by as much and is not it gave
/// way to a match at least as sure.
pub proof fn law_boxes_of_a_frame_are_matched<
    S: FnOnce(&[FaceBox]) -> Result<Vec<Num>, String>,
>(
    faces: Seq<Face>,
    dets: Seq<Det>,
    params: Params,
    score: S,
    r: (Seq<Face>, Result<Seq<Told>, Seq<char>>),
    d: int,
    t: int,
)
    requires
        advanced(faces, dets, params, score, r),
        params.hold >= 1,
        0 <= d < dets.len(),
        0 <= t < faces.len(),
        (Num { bits: 0x3FD3_3333_3333_3333 }).at_most(overlap(dets[d].b, faces[t].b)),
    ensures
        ({
            let of_det = sighted(faces, dets, params).of_det;
            let this = overlap(dets[d].b, faces[t].b).value();
            &&& (forall|u: int|
                0 <= u < faces.len() && u != t ==> overlap(
                    dets[d].b,
                    (#[trigger] faces[u]).b,
                ).is_nan() || overlap(dets[d].b, faces[u].b).value() < this) && (forall|e: int|
                0 <= e < dets.len() && e != d ==> overlap(
                    (#[trigger] dets[e]).b,
                    faces[t].b,
                ).is_nan() || overlap(dets[e].b, faces[t].b).value() < this) ==> of_det[d] is Some
                && of_det[d]->0 == t
            &&& of_det[d] is None || of_det[d]->0 != t ==> exists|e: int, u: int|
                0 <= e < dets.len() && 0 <= u < faces.len() && (e == d || u == t) && of_det[e]
                    is Some && of_det[e]->0 == u && #[trigger] overlap(
                    dets[e].b,
                    faces[u].b,
                ).value() >= this
        }),
{
    let s = sighted(faces, dets, params);
    let this = overlap(dets[d].b, faces[t].b).value();
    if (forall|u: int|
        0 <= u < faces.len() && u != t ==> overlap(dets[d].b, (#[trigger] faces[u]).b).is_nan()
            || overlap(dets[d].b, faces[u].b).value() < this) && (forall|e: int|
        0 <= e < dets.len() && e != d ==> overlap((#[trigger] dets[e]).b, faces[t].b).is_nan()
            || overlap(dets[e].b, faces[t].b).value() < this) {
        law_greatest_overlap_is_matched(dets, faces, s.of_det, d, t);
    }
    if s.of_det[d] is None || s.of_det[d]->0 != t {
        let (e, u) = law_unmatched_gave_way(dets, faces, s.of_det, d, t);
        assert(overlap(dets[e].b, faces[u].b).value() >= this);
    }
}

/// Those of the first `n` boxes whose faces are due, by their places.
spec fn due_list(s: Sighting, every: u32, n: int) -> Seq<int>
    decreases n,
{
    if n <= 0 {
        seq![]
    } else if s.due(every, n - 1) {
        due_list(s, every, n - 1).push(n - 1)
    } else {
        due_list(s, every, n - 1)
    }
}

proof fn lemma_due_list(s: Sighting, every: u32, n: int)
    requires
        0 <= n,
    ensures
        ({
            let order = due_list(s, every, n);
            let boxes = s.due_among(every, n);
            &&& order.len() == boxes.len() == s.due_before(every, n)
            &&& forall|j: int|
                0 <= j < order.len() ==> 0 <= (#[trigger] order[j]) < n && boxes[j]
                    == s.dets[order[j]].b && s.due(every, order[j]) && s.due_before(
                    every,
                    order[j],
                ) == j
            &&& forall|i: int, j: int|
                0 <= i < j < order.len() ==> (#[trigger] order[i]) < (#[trigger] order[j])
            &&& forall|d: int| 0 <= d < n && #[trigger] s.due(every, d) ==> order.contains(d)
        }),
    decreases n,
{
    if n > 0 {
        lemma_due_list(s, every, n - 1);
        let (before, order) = (due_list(s, every, n - 1), due_list(s, every, n));
        assert forall|d: int| 0 <= d < n && #[trigger] s.due(every, d) implies order.contains(
            d,
        ) by {
            if d < n - 1 {
                let j = choose|j: int| 0 <= j < before.len() && before[j] == d;
                assert(order[j] == d);
            } else {
                assert(order[before.len() as int] == d);
            }
        }
    }
}

/// Those of the first `n` faces that stay, by their places.
spec fn staying(s: Sighting, hold: u32, n: int) -> Seq<int>
    decreases n,
{
    if n <= 0 {
        seq![]
    } else if s.stays(hold, n - 1) {
        staying(s, hold, n - 1).push(n - 1)
    } else {
        staying(s, hold, n - 1)
    }
}

proof fn lemma_staying(s: Sighting, params: Params, ages: Seq<Num>, n: int)
    requires
        0 <= n <= s.all().len(),
    ensures
        ({
            let stay = staying(s, params.hold, n);
            let kept = s.after(params.every, ages).take(n).filter(
                |face: Face| face.missed <= params.hold,
            );
            &&& stay.len() == kept.len()
            &&& forall|i: int|
                0 <= i < stay.len() ==> 0 <= (#[trigger] stay[i]) < n && s.stays(
                    params.hold,
                    stay[i],
                ) && kept[i] == s.followed(params.every, ages, stay[i])
            &&& forall|i: int, j: int|
                0 <= i < j < stay.len() ==> (#[trigger] stay[i]) < (#[trigger] stay[j])
            &&& forall|k: int| 0 <= k < n && #[trigger] s.stays(params.hold, k) ==> stay.contains(k)
        }),
    decreases n,
{
    let hold = params.hold;
    let keep = |face: Face| face.missed <= hold;
    let after = s.after(params.every, ages);
    reveal(Seq::filter);
    if n > 0 {
        lemma_staying(s, params, ages, n - 1);
        let (before, stay) = (staying(s, hold, n - 1), staying(s, hold, n));
        assert(after.take(n).drop_last() =~= after.take(n - 1));
        assert(after[n - 1] == s.followed(params.every, ages, n - 1));
        assert(keep(after[n - 1]) == s.stays(hold, n - 1));
        assert forall|k: int| 0 <= k < n && #[trigger] s.stays(hold, k) implies stay.contains(
            k,
        ) by {
            if k < n - 1 {
                let j = choose|j: int| 0 <= j < before.len() && before[j] == k;
                assert(stay[j] == k);
            } else {
                assert(stay[before.len() as int] == k);
            }
        }
    }
}

/// Which face `k` was: one carried over, or the one new at a box.
spec fn identity(s: Sighting, k: int) -> int {
    if k < s.faces.len() {
        k
    } else {
        s.faces.len() + s.box_of(k)
    }
}

/// A face past those carried over is new at its box.
proof fn lemma_identity(s: Sighting, k: int)
    requires
        s.wf(),
        0 <= k < s.all().len(),
    ensures
        0 <= identity(s, k) < s.faces.len() + s.dets.len(),
        identity(s, k) < s.faces.len() <==> k < s.faces.len(),
        k < s.faces.len() ==> s.all()[k] == s.faces[k],
        k >= s.faces.len() ==> s.of_det[s.box_of(k)] is None && s.place(s.box_of(k)) == k && 0
            <= s.box_of(k) < s.dets.len(),
{
    lemma_newcomer(s, s.dets.len() as int, k);
    lemma_joined(s, s.dets.len() as int);
    if k >= s.faces.len() {
        let d = s.box_of(k);
        assert(0 <= d < s.dets.len() && s.place(d) == k);
        lemma_place(s, d);
    }
}

proof fn lemma_newcomer(s: Sighting, n: int, k: int)
    requires
        0 <= n,
        s.faces.len() <= k < s.joined(n).len() || 0 <= k < s.faces.len(),
    ensures
        k >= s.faces.len() ==> exists|d: int| 0 <= d < n && #[trigger] s.place(d) == k,
    decreases n,
{
    if n > 0 && k >= s.faces.len() {
        if k < s.joined(n - 1).len() {
            lemma_newcomer(s, n - 1, k);
            let d = choose|d: int| 0 <= d < n - 1 && #[trigger] s.place(d) == k;
            assert(0 <= d < n && s.place(d) == k);
        } else {
            lemma_joined(s, n - 1);
            assert(s.place(n - 1) == k);
        }
    }
}

proof fn lemma_identity_order(s: Sighting, k: int, l: int)
    requires
        s.wf(),
        0 <= k < l < s.all().len(),
    ensures
        identity(s, k) < identity(s, l),
{
    lemma_identity(s, k);
    lemma_identity(s, l);
    if k >= s.faces.len() {
        let (d, e) = (s.box_of(k), s.box_of(l));
        if e <= d {
            lemma_newcomers(s, e, d);
        }
    }
}

proof fn lemma_box(s: Sighting, params: Params, ages: Seq<Num>, d: int)
    requires
        s.wf(),
        0 <= d < s.dets.len(),
        ages.len() == s.wanted(params.every).len(),
        forall|t: int| 0 <= t < s.faces.len() ==> (#[trigger] s.faces[t]).scores.len() <= 30,
    ensures
        ({
            let dets = s.dets;
            let left = s.kept(params, ages);
            let order = due_list(s, params.every, dets.len() as int);
            let stay = staying(s, params.hold, s.all().len() as int);
            let at = stay.index_of(s.place(d));
            let was = if s.of_det[d] is Some {
                s.faces[s.of_det[d]->0 as int]
            } else {
                Face { b: dets[d].b, conf: dets[d].conf, scores: seq![], since: 0, missed: 0 }
            };
            let is = left[at];
            &&& 0 <= at < left.len()
            &&& left.len() == stay.len()
            &&& identity(s, stay[at]) == if s.of_det[d] is Some {
                s.of_det[d]->0 as int
            } else {
                s.faces.len() + d
            }
            &&& is.b == dets[d].b
            &&& is.conf == dets[d].conf
            &&& is.missed == 0
            &&& order.contains(d) <==> was.scores.len() == 0 || was.since >= params.every
            &&& forall|j: int|
                0 <= j < order.len() && (#[trigger] order[j]) == d ==> is.scores == (
                if was.scores.len() < 30 {
                    was.scores
                } else {
                    was.scores.skip(was.scores.len() - 29)
                }).push(ages[j]) && is.since == 1
            &&& !order.contains(d) ==> is.scores == was.scores && (is.since == was.since + 1 || (
            was.since >= u32::MAX && is.since == u32::MAX))
        }),
{
    let dets = s.dets;
    let n = dets.len() as int;
    let all = s.all().len() as int;
    let k = s.place(d);
    lemma_place(s, d);
    lemma_due_list(s, params.every, n);
    lemma_staying(s, params, ages, all);
    let after = s.after(params.every, ages);
    assert(after.take(all) =~= after);
    let order = due_list(s, params.every, n);
    let stay = staying(s, params.hold, all);
    assert(s.seen(k));
    assert(s.stays(params.hold, k));
    assert(stay.contains(k));
    let at = stay.index_of(k);
    assert(stay[at] == k);
    assert(s.box_of(k) == d);
    lemma_identity(s, k);
    let was = s.all()[k];
    let is = s.kept(params, ages)[at];
    assert(is == s.followed(params.every, ages, k));
    assert(s.due(params.every, d) == was.is_due(params.every));
    if order.contains(d) {
        let j = choose|j: int| 0 <= j < order.len() && order[j] == d;
        assert(s.due(params.every, order[j]));
    }
    assert forall|j: int| 0 <= j < order.len() && (#[trigger] order[j]) == d implies is.scores == (
    if was.scores.len() < 30 {
        was.scores
    } else {
        was.scores.skip(was.scores.len() - 29)
    }).push(ages[j]) && is.since == 1 by {
        assert(s.due_before(params.every, d) == j);
    }
}

proof fn lemma_unfound(s: Sighting, params: Params, ages: Seq<Num>, t: int)
    requires
        s.wf(),
        0 <= t < s.faces.len(),
        forall|d: int|
            0 <= d < s.dets.len() && (#[trigger] s.of_det[d]) is Some ==> s.of_det[d]->0 != t,
    ensures
        ({
            let left = s.kept(params, ages);
            let stay = staying(s, params.hold, s.all().len() as int);
            let from = Seq::new(stay.len(), |i: int| identity(s, stay[i]));
            &&& left.len() == stay.len()
            &&& from.contains(t) <==> s.faces[t].missed + 1 <= params.hold
            &&& forall|i: int|
                0 <= i < left.len() && (#[trigger] from[i]) == t ==> {
                    &&& left[i].b == s.faces[t].b
                    &&& left[i].conf == s.faces[t].conf
                    &&& left[i].scores == s.faces[t].scores
                    &&& left[i].missed == s.faces[t].missed + 1
                    &&& left[i].since == s.faces[t].since + 1 || (s.faces[t].since >= u32::MAX
                        && left[i].since == u32::MAX)
                }
        }),
{
    let all = s.all().len() as int;
    lemma_joined(s, s.dets.len() as int);
    lemma_newcomers(s, 0, s.dets.len() as int);
    lemma_staying(s, params, ages, all);
    let after = s.after(params.every, ages);
    assert(after.take(all) =~= after);
    let left = s.kept(params, ages);
    let stay = staying(s, params.hold, all);
    let from = Seq::new(stay.len(), |i: int| identity(s, stay[i]));
    lemma_identity(s, t);
    assert(!s.seen(t)) by {
        if s.seen(t) {
            let d = s.box_of(t);
            assert(0 <= d < s.dets.len() && s.place(d) == t);
            lemma_place(s, d);
            assert(s.of_det[d] is Some);
        }
    }
    if s.faces[t].missed + 1 <= params.hold {
        assert(s.stays(params.hold, t));
        let i = choose|i: int| 0 <= i < stay.len() && stay[i] == t;
        assert(from[i] == t);
    }
    assert forall|i: int| 0 <= i < left.len() && (#[trigger] from[i]) == t implies stay[i] == t by {
        lemma_identity(s, stay[i]);
    }
    if from.contains(t) {
        let i = choose|i: int| 0 <= i < from.len() && from[i] == t;
        assert(stay[i] == t);
        assert(s.stays(params.hold, stay[i]));
    }
}

} // verus!
