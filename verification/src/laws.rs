//! What holds of a face from frame to frame.
use crate::boxes::FaceBox;
use crate::face::{new_face, remembered, Det, Face};
use crate::number::Num;
use crate::params::Params;
use crate::tracker::{
    lemma_filtered_is_there, lemma_joined, lemma_newcomers, lemma_place, lemma_sighting, outcome,
    sighted, told, Sighting,
};
use crate::matching::{det_boxes, face_boxes, matching};
use crate::text::decimal;
use vstd::arithmetic::div_mod::{lemma_fundamental_div_mod, lemma_fundamental_div_mod_converse};
use vstd::prelude::*;

verus! {

/// A face given one score after another.
pub open spec fn with_scores(face: Face, ages: Seq<Num>) -> Face
    decreases ages.len(),
{
    if ages.len() == 0 {
        face
    } else {
        with_scores(face, ages.drop_last()).with_score(ages.last())
    }
}

/// A face's age is the mean of its last thirty scores: however many it was
/// given, those and no others are what it holds.
pub proof fn law_face_remembers_its_last_scores(face: Face, ages: Seq<Num>)
    requires
        face.wf(),
    ensures
        with_scores(face, ages).scores == remembered(face.scores + ages),
        with_scores(face, ages).wf(),
    decreases ages.len(),
{
    if ages.len() == 0 {
        assert(face.scores + ages =~= face.scores);
    } else {
        law_face_remembers_its_last_scores(face, ages.drop_last());
        let before = face.scores + ages.drop_last();
        let after = face.scores + ages;
        assert(after =~= before.push(ages.last()));
        assert(with_scores(face, ages).scores =~= remembered(after));
    }
}

/// However many scores a face is given, what it holds is the last thirty of
/// them and of those it held, in the order they came, or all where there are
/// no more.
pub proof fn law_last_thirty_scores_are_held(face: Face, ages: Seq<Num>)
    requires
        face.scores.len() <= 30,
    ensures
        ({
            let all = face.scores + ages;
            let held = with_scores(face, ages).scores;
            &&& all.len() <= 30 ==> held == all
            &&& all.len() > 30 ==> held == all.skip(all.len() - 30)
        }),
{
    law_face_remembers_its_last_scores(face, ages);
}

/// A score more is the last one a face holds; no frame has gone by since, and
/// nothing else about it changes.
pub proof fn law_a_score_is_held_last(face: Face, age: Num)
    ensures
        ({
            let scored = face.with_score(age);
            &&& scored.scores.last() == age
            &&& scored.scores.len() == if face.scores.len() == 30 {
                30
            } else {
                face.scores.len() + 1
            }
            &&& scored.scores.drop_last() == if face.scores.len() == 30 {
                face.scores.skip(1)
            } else {
                face.scores
            }
            &&& scored.since == 0
            &&& scored.b == face.b && scored.conf == face.conf && scored.missed == face.missed
        }),
{
    assert(face.with_score(age).scores.drop_last() =~= if face.scores.len() == 30 {
        face.scores.skip(1)
    } else {
        face.scores
    });
}

/// A face found on one frame after another, from the frame it was new on.
pub open spec fn steady(dets: Seq<Det>, ages: Seq<Num>, every: u32, n: int) -> Face
    decreases n,
{
    if n <= 0 {
        new_face(dets[0])
    } else {
        steady(dets, ages, every, n - 1).found(dets[n - 1], every, ages[n - 1])
    }
}

/// How many of the first `n` frames score it.
pub open spec fn times_scored(dets: Seq<Det>, ages: Seq<Num>, every: u32, n: int) -> int
    decreases n,
{
    if n <= 0 {
        0
    } else if steady(dets, ages, every, n - 1).is_due(every) {
        times_scored(dets, ages, every, n - 1) + 1
    } else {
        times_scored(dets, ages, every, n - 1)
    }
}

proof fn lemma_steady(dets: Seq<Det>, ages: Seq<Num>, every: u32, n: int)
    requires
        every >= 1,
        n >= 1,
    ensures
        steady(dets, ages, every, n).since == (n - 1) % (every as int) + 1,
        steady(dets, ages, every, n).scores.len() >= 1,
    decreases n,
{
    let e = every as int;
    if n == 1 {
        assert(steady(dets, ages, every, 0) == new_face(dets[0]));
        assert(0int % e == 0);
    } else {
        lemma_steady(dets, ages, every, n - 1);
        lemma_next_remainder(n - 2, e);
    }
}

/// A remainder goes up by one until it would be the divisor.
pub proof fn lemma_next_remainder(n: int, e: int)
    requires
        e >= 1,
        n >= 0,
    ensures
        (n + 1) % e == if n % e + 1 == e {
            0
        } else {
            n % e + 1
        },
        0 <= n % e < e,
{
    lemma_fundamental_div_mod(n, e);
    let q = n / e;
    if n % e + 1 == e {
        assert(e * q + e == (q + 1) * e) by (nonlinear_arith);
        lemma_fundamental_div_mod_converse(n + 1, e, q + 1, 0);
    } else {
        assert(e * q == q * e) by (nonlinear_arith);
        lemma_fundamental_div_mod_converse(n + 1, e, q, n % e + 1);
    }
}

/// `every` is how many frames apart a face is scored: one that is found on
/// every frame is due on the first and on each `every` frames after it, and on
/// no other.
pub proof fn law_scored_every_so_many_frames(
    dets: Seq<Det>,
    ages: Seq<Num>,
    every: u32,
    n: int,
)
    requires
        every >= 1,
        n >= 0,
    ensures
        steady(dets, ages, every, n).is_due(every) <==> n % (every as int) == 0,
{
    let e = every as int;
    if n == 0 {
        assert(0int % e == 0);
    } else {
        lemma_steady(dets, ages, every, n);
        lemma_next_remainder(n - 1, e);
    }
}

/// The work is one inference for each face and `every` frames: of `n` frames
/// that find a face, one in `every` scores it, the first among them.
pub proof fn law_one_score_in_every(dets: Seq<Det>, ages: Seq<Num>, every: u32, n: int)
    requires
        every >= 1,
        n >= 0,
    ensures
        times_scored(dets, ages, every, n) == (n + every - 1) / (every as int),
    decreases n,
{
    let e = every as int;
    if n == 0 {
        lemma_one_in_every(0, e);
    } else {
        law_one_score_in_every(dets, ages, every, n - 1);
        law_scored_every_so_many_frames(dets, ages, every, n - 1);
        lemma_one_in_every(n, e);
    }
}

/// `n / e` rounded up goes up by one as `n - 1` reaches a multiple of `e`.
pub proof fn lemma_one_in_every(n: int, e: int)
    requires
        e >= 1,
        n >= 0,
    ensures
        n == 0 ==> (n + e - 1) / e == 0,
        n > 0 ==> (n + e - 1) / e == (n - 1 + e - 1) / e + if (n - 1) % e == 0 {
            1int
        } else {
            0
        },
{
    if n == 0 {
        lemma_fundamental_div_mod_converse(e - 1, e, 0, e - 1);
    } else {
        let q = (n - 1) / e;
        let r = (n - 1) % e;
        lemma_fundamental_div_mod(n - 1, e);
        assert(e * q == q * e) by (nonlinear_arith);
        assert((q + 1) * e == q * e + e) by (nonlinear_arith);
        lemma_fundamental_div_mod_converse(n + e - 1, e, q + 1, r);
        if r == 0 {
            lemma_fundamental_div_mod_converse(
                n - 1 + e - 1,
                e,
                q,
                e - 1,
            );
        } else {
            lemma_fundamental_div_mod_converse(
                n - 1 + e - 1,
                e,
                q + 1,
                r - 1,
            );
        }
    }
}

/// A face not found on so many frames in a row.
pub open spec fn lost_for(face: Face, frames: int) -> Face
    decreases frames,
{
    if frames <= 0 {
        face
    } else {
        lost_for(face, frames - 1).lost()
    }
}

/// A face the detector lost is held: for as many frames as it is not found it
/// keeps its box, its confidence and its scores, and is written as the same
/// row.
pub proof fn law_lost_face_stays_as_it_was(face: Face, frames: int)
    requires
        frames >= 0,
    ensures
        ({
            let held = lost_for(face, frames);
            &&& held.b == face.b
            &&& held.conf == face.conf
            &&& held.scores == face.scores
            &&& held.told() == face.told()
            &&& held.missed == face.missed + frames
        }),
    decreases frames,
{
    if frames > 0 {
        law_lost_face_stays_as_it_was(face, frames - 1);
    }
}

/// A face found again keeps what it has scored: a score more where it was due,
/// and no fewer than before but for the oldest of thirty.
pub proof fn law_found_face_keeps_its_scores(face: Face, det: Det, every: u32, age: Num)
    requires
        face.wf(),
    ensures
        ({
            let found = face.found(det, every, age);
            &&& found.b == det.b
            &&& found.conf == det.conf
            &&& found.missed == 0
            &&& found.wf()
            &&& found.scores == if face.is_due(every) {
                remembered(face.scores.push(age))
            } else {
                face.scores
            }
        }),
{
    assert(face.with_score(age).scores =~= remembered(face.scores.push(age)));
}

/// No two boxes of a frame are the same face.
pub proof fn law_one_box_one_face(s: Sighting, d: int, e: int)
    requires
        s.wf(),
        0 <= d < s.dets.len(),
        0 <= e < s.dets.len(),
        s.place(d) == s.place(e),
    ensures
        d == e,
{
    lemma_place(s, d);
}

/// What a face becomes is kept if it was found, and if it was not, where it
/// has been missing for no more than `hold` frames.
pub proof fn law_kept_while_held(s: Sighting, params: Params, ages: Seq<Num>, k: int)
    requires
        s.wf(),
        0 <= k < s.all().len(),
    ensures
        s.seen(k) ==> s.kept(params, ages).contains(s.followed(params.every, ages, k)),
        !s.seen(k) && s.all()[k].missed + 1 <= params.hold ==> s.kept(params, ages).contains(
            s.all()[k].lost(),
        ),
        forall|face: Face| #[trigger]
            s.kept(params, ages).contains(face) ==> face.missed <= params.hold,
{
    let keep = |face: Face| face.missed <= params.hold;
    let all = s.after(params.every, ages);
    broadcast use vstd::seq_lib::group_filter_ensures;
    let face = s.followed(params.every, ages, k);
    assert(all[k] == face);
    if s.seen(k) || s.all()[k].missed + 1 <= params.hold {
        assert(keep(all[k]));
    }
    assert forall|face: Face| #[trigger] s.kept(params, ages).contains(face) implies face.missed
        <= params.hold by {
        let i = choose|i: int| 0 <= i < all.filter(keep).len() && all.filter(keep)[i] == face;
        assert(keep(all.filter(keep)[i]));
    }
}

/// Every box a frame was handed comes back: among the faces kept, and so
/// among the rows, is one at that box, with that confidence.
pub proof fn law_every_box_has_its_row(s: Sighting, params: Params, ages: Seq<Num>, d: int)
    requires
        s.wf(),
        0 <= d < s.dets.len(),
    ensures
        exists|i: int|
            0 <= i < s.kept(params, ages).len() && {
                let face = #[trigger] s.kept(params, ages)[i];
                &&& face.b == s.dets[d].b
                &&& face.conf == s.dets[d].conf
                &&& told(s.kept(params, ages))[i] == face.told()
            },
{
    lemma_place(s, d);
    let k = s.place(d);
    law_kept_while_held(s, params, ages, k);
    assert(s.seen(k));
    let face = s.followed(params.every, ages, k);
    let kept = s.kept(params, ages);
    let i = choose|i: int| 0 <= i < kept.len() && kept[i] == face;
    assert(s.place(s.box_of(k)) == k);
    assert(told(kept)[i] == kept[i].told());
}

/// A face not seen before is always scored, so that every face a frame writes
/// has at least one score to its age, if the faces it began with did.
pub proof fn law_every_face_has_a_score(s: Sighting, params: Params, ages: Seq<Num>, i: int)
    requires
        s.wf(),
        forall|k: int| 0 <= k < s.faces.len() ==> (#[trigger] s.faces[k]).scores.len() > 0,
        0 <= i < s.kept(params, ages).len(),
    ensures
        s.kept(params, ages)[i].scores.len() > 0,
{
    let keep = |face: Face| face.missed <= params.hold;
    let all = s.after(params.every, ages);
    broadcast use vstd::seq_lib::group_filter_ensures;
    let face = s.kept(params, ages)[i];
    assert(all.filter(keep).contains(face));
    assert(all.contains(face)) by {
        lemma_filtered_is_there(all, keep, i);
    }
    let k = choose|k: int| 0 <= k < all.len() && all[k] == face;
    lemma_stranger_is_seen(s, k);
    if s.seen(k) {
        let d = s.box_of(k);
        assert(s.place(d) == k);
        lemma_place(s, d);
    }
}

/// A face past those a frame began with is one of its boxes.
pub proof fn lemma_stranger_is_seen(s: Sighting, k: int)
    requires
        s.wf(),
        0 <= k < s.all().len(),
    ensures
        k >= s.faces.len() ==> s.seen(k),
        k < s.faces.len() ==> s.all()[k] == s.faces[k],
{
    lemma_stranger_among(s, s.dets.len() as int, k);
}

proof fn lemma_stranger_among(s: Sighting, n: int, k: int)
    requires
        0 <= n,
        0 <= k < s.joined(n).len(),
    ensures
        k >= s.faces.len() ==> s.seen_by(n, k),
        k < s.faces.len() ==> s.joined(n)[k] == s.faces[k],
    decreases n,
{
    if n > 0 {
        if k < s.joined(n - 1).len() {
            lemma_stranger_among(s, n - 1, k);
            if k >= s.faces.len() {
                let d = choose|d: int| 0 <= d < n - 1 && #[trigger] s.place(d) == k;
                assert(0 <= d < n && s.place(d) == k);
            }
        } else {
            lemma_joined(s, n - 1);
            lemma_newcomers(s, 0, n - 1);
            assert(s.place(n - 1) == k);
        }
    }
}

/// A frame with no boxes asks for no score, and leaves of the faces those
/// still held, each where it was.
pub proof fn law_frame_without_boxes(faces: Seq<Face>, params: Params)
    ensures
        ({
            let s = sighted(faces, seq![], params);
            let left = faces.map_values(|face: Face| face.lost()).filter(
                |face: Face| face.missed <= params.hold,
            );
            &&& s.wanted(params.every) == Seq::<FaceBox>::empty()
            &&& outcome(s, params, Ok(seq![])) == (left, Ok::<_, Seq<char>>(told(left)))
        }),
{
    let s = sighted(faces, seq![], params);
    let lost = faces.map_values(|face: Face| face.lost());
    assert forall|k: int| 0 <= k < faces.len() implies !s.seen(k) by {}
    if params.hold == 0 {
        lemma_none_kept(lost, params.hold);
        lemma_none_kept(s.after(params.every, seq![]), params.hold);
    } else {
        assert(s.after(params.every, seq![]) =~= lost);
    }
}

/// Where every face has been missing for too long, none is kept.
proof fn lemma_none_kept(faces: Seq<Face>, hold: u32)
    requires
        forall|k: int| 0 <= k < faces.len() ==> (#[trigger] faces[k]).missed > hold,
    ensures
        faces.filter(|face: Face| face.missed <= hold) == Seq::<Face>::empty(),
    decreases faces.len(),
{
    reveal(Seq::filter);
    if faces.len() > 0 {
        lemma_none_kept(faces.drop_last(), hold);
    }
}

/// Where none has, all are.
proof fn lemma_all_kept(faces: Seq<Face>, hold: u32)
    requires
        forall|k: int| 0 <= k < faces.len() ==> (#[trigger] faces[k]).missed <= hold,
    ensures
        faces.filter(|face: Face| face.missed <= hold) == faces,
    decreases faces.len(),
{
    reveal(Seq::filter);
    if faces.len() > 0 {
        lemma_all_kept(faces.drop_last(), hold);
        assert(faces =~= faces.drop_last().push(faces.last()));
    }
}

/// The faces left after so many frames with no boxes.
pub open spec fn quiet(faces: Seq<Face>, params: Params, frames: int) -> Seq<Face>
    decreases frames,
{
    if frames <= 0 {
        faces
    } else {
        outcome(
            sighted(quiet(faces, params, frames - 1), seq![], params),
            params,
            Ok(seq![]),
        ).0
    }
}

/// A face that is lost is held for `hold` frames and then dropped: after so
/// many frames with no boxes, the faces left are those that have been missing
/// for no more than `hold`, in the order they were in and otherwise as they
/// were.
pub proof fn law_held_and_then_dropped(faces: Seq<Face>, params: Params, frames: int)
    requires
        frames >= 1,
    ensures
        quiet(faces, params, frames) == faces.map_values(
            |face: Face| lost_for(face, frames),
        ).filter(|face: Face| face.missed <= params.hold),
    decreases frames,
{
    let keep = |face: Face| face.missed <= params.hold;
    let before = quiet(faces, params, frames - 1);
    law_frame_without_boxes(before, params);
    let lost = faces.map_values(|face: Face| lost_for(face, frames));
    if frames == 1 {
        assert(faces.map_values(|face: Face| face.lost()) =~= lost) by {
            reveal_with_fuel(lost_for, 2);
        }
    } else {
        law_held_and_then_dropped(faces, params, frames - 1);
        let earlier = faces.map_values(|face: Face| lost_for(face, frames - 1));
        lemma_dropped_once(earlier, params.hold);
        assert(earlier.map_values(|face: Face| face.lost()) =~= lost);
    }
}

/// What was dropped a frame ago would be dropped now.
proof fn lemma_dropped_once(faces: Seq<Face>, hold: u32)
    ensures
        ({
            let keep = |face: Face| face.missed <= hold;
            let lose = |face: Face| face.lost();
            faces.filter(keep).map_values(lose).filter(keep) == faces.map_values(lose).filter(keep)
        }),
    decreases faces.len(),
{
    let keep = |face: Face| face.missed <= hold;
    let lose = |face: Face| face.lost();
    reveal(Seq::filter);
    if faces.len() == 0 {
        assert(faces.filter(keep).map_values(lose) =~= faces.map_values(lose));
    } else {
        let (before, last) = (faces.drop_last(), faces.last());
        lemma_dropped_once(before, hold);
        assert(faces.map_values(lose).drop_last() =~= before.map_values(lose));
        let kept = before.filter(keep);
        if keep(last) {
            assert(faces.filter(keep).map_values(lose).drop_last() =~= kept.map_values(lose));
        }
    }
}

/// A frame that goes wrong, because its boxes could not be scored or not every
/// one of them was, leaves every face that was followed before it as it was,
/// whatever `hold` is, and after them the faces new on it, in the order of
/// their boxes.
pub proof fn law_failed_frame_leaves_the_faces(
    faces: Seq<Face>,
    dets: Seq<Det>,
    params: Params,
    answer: Result<Seq<Num>, Seq<char>>,
)
    requires
        answer is Ok ==> answer->Ok_0.len() != sighted(faces, dets, params).wanted(
            params.every,
        ).len(),
    ensures
        ({
            let s = sighted(faces, dets, params);
            let (left, rows) = outcome(s, params, answer);
            &&& rows is Err
            &&& answer is Err ==> rows->Err_0 == answer->Err_0
            &&& answer is Ok ==> rows->Err_0 == "ages: "@ + decimal(
                s.wanted(params.every).len(),
            ) + " crops went to the graph and "@ + decimal(answer->Ok_0.len())
                + " ages came back"@
            &&& left.len() == faces.len() + s.newcomers(dets.len() as int)
            &&& left.take(faces.len() as int) == faces
            &&& forall|d: int|
                #![trigger s.of_det[d]]
                0 <= d < dets.len() && s.of_det[d] is None ==> s.newcomers(d) < s.newcomers(
                    dets.len() as int,
                ) && left[faces.len() + s.newcomers(d)] == new_face(dets[d])
        }),
{
    let s = sighted(faces, dets, params);
    let n = dets.len() as int;
    let left = s.untouched();
    lemma_joined(s, n);
    lemma_newcomers(s, 0, n);
    assert(s.aside.len() + s.faces.len() == faces.len());
    assert(left.take(faces.len() as int) =~= faces);
    assert forall|d: int|
        #![trigger s.of_det[d]]
        0 <= d < dets.len() && s.of_det[d] is None implies s.newcomers(d) < s.newcomers(n)
        && left[faces.len() + s.newcomers(d)] == new_face(dets[d]) by {
        lemma_joined(s, d);
        lemma_newcomers(s, 0, d);
        lemma_newcomers(s, d + 1, n);
        let k = s.faces.len() + s.newcomers(d);
        assert(s.joined(d + 1)[k] == s.joined(n)[k]);
        assert(left[s.aside.len() + k] == s.all()[k]);
    }
}

/// With `hold` 0 nothing is carried: whatever faces were followed before, a
/// frame's boxes are all new ones. Each is scored, has that score alone, and is
/// written as its row, and no other face is.
pub proof fn law_hold_zero_carries_nothing(
    faces: Seq<Face>,
    dets: Seq<Det>,
    every: u32,
    ages: Seq<Num>,
)
    ensures
        ({
            let params = Params { hold: 0, every };
            let s = sighted(faces, dets, params);
            let fresh = Seq::new(
                dets.len(),
                |d: int| new_face(dets[d]).with_score(ages[d]).a_frame_on(),
            );
            &&& s.wf()
            &&& s.wanted(every) == det_boxes(dets)
            &&& ages.len() == dets.len() ==> outcome(s, params, Ok(ages)) == (
                fresh,
                Ok::<_, Seq<char>>(told(fresh)),
            )
        }),
{
    let params = Params { hold: 0, every };
    let s = sighted(faces, dets, params);
    let none: Seq<Option<usize>> = Seq::new(dets.len(), |d: int| None::<usize>);
    assert(matching(det_boxes(dets), face_boxes(seq![]), none));
    lemma_sighting(seq![], dets, none);
    let n = dets.len() as int;
    lemma_all_new(s, every, n);
    assert(s.wanted(every) =~= det_boxes(dets));
    let fresh = Seq::new(
        dets.len(),
        |d: int| new_face(dets[d]).with_score(ages[d]).a_frame_on(),
    );
    assert forall|k: int| 0 <= k < n implies #[trigger] s.after(every, ages)[k] == fresh[k] by {
        lemma_all_new(s, every, k);
        lemma_place(s, k);
        assert(s.place(k) == k);
        assert(s.seen(k));
        assert(s.box_of(k) == k);
    }
    assert(s.after(every, ages) =~= fresh);
    lemma_all_kept(fresh, 0);
}

/// Where no box is a face seen before, the faces are the boxes in order, and
/// all of them are due.
proof fn lemma_all_new(s: Sighting, every: u32, n: int)
    requires
        s.faces.len() == 0,
        s.of_det.len() == s.dets.len(),
        forall|d: int| 0 <= d < s.dets.len() ==> (#[trigger] s.of_det[d]) is None,
        0 <= n <= s.dets.len(),
    ensures
        s.newcomers(n) == n,
        s.joined(n) == Seq::new(n as nat, |d: int| new_face(s.dets[d])),
        s.due_before(every, n) == n,
        s.due_among(every, n) == Seq::new(n as nat, |d: int| s.dets[d].b),
    decreases n,
{
    if n > 0 {
        lemma_all_new(s, every, n - 1);
        lemma_joined(s, s.dets.len() as int);
        assert(s.of_det[n - 1] is None);
        assert(s.place(n - 1) == n - 1);
        assert(s.joined(n)[n - 1] == s.all()[n - 1]);
        assert(s.joined(n) =~= Seq::new(n as nat, |d: int| new_face(s.dets[d])));
        assert(s.due(every, n - 1));
        assert(s.due_among(every, n) =~= Seq::new(n as nat, |d: int| s.dets[d].b));
    } else {
        assert(s.joined(0) =~= Seq::new(0, |d: int| new_face(s.dets[d])));
        assert(s.due_among(every, 0) =~= Seq::new(0, |d: int| s.dets[d].b));
    }
}

} // verus!
