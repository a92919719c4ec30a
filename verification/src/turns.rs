//! What holds over frames in turn: of the rows they give, and of the boxes
//! they ask a score for.
use crate::boxes::{overlap, FaceBox};
use crate::exact::{law_box_overlaps_itself, Pixels};
use crate::face::{new_face, Det, Face, Told};
use crate::laws::{
    law_frame_without_boxes, law_held_and_then_dropped, law_lost_face_stays_as_it_was,
    lemma_next_remainder, lemma_one_in_every, lemma_stranger_is_seen, lost_for, quiet,
};
use crate::matching::{
    candidate, det_boxes, face_boxes, given, law_closest_are_matched, match_iou,
};
use crate::number::{lemma_worth_increases, lemma_worth_of_one, units, Num, STEP};
use crate::params::Params;
use crate::tracker::{
    advanced, answered, lemma_joined, lemma_newcomers, lemma_place, outcome, sighted, told, Sighting,
};
use vstd::arithmetic::power2::pow2;
use vstd::prelude::*;

verus! {

/// Frames run one after another under the same params: what was followed
/// before each and after the last, the boxes of each, what each is scored by,
/// and the rows each gave.
pub struct Turns<S> {
    pub faces: Seq<Seq<Face>>,
    pub dets: Seq<Seq<Det>>,
    pub scores: Seq<S>,
    pub rows: Seq<Result<Seq<Told>, Seq<char>>>,
}

impl<S: FnOnce(&[FaceBox]) -> Result<Vec<Num>, String>> Turns<S> {
    /// Each frame is one that was advanced by.
    pub open spec fn ran(self, params: Params) -> bool {
        &&& self.faces.len() == self.dets.len() + 1
        &&& self.scores.len() == self.dets.len()
        &&& self.rows.len() == self.dets.len()
        &&& forall|i: int|
            0 <= i < self.dets.len() ==> advanced(
                self.faces[i],
                #[trigger] self.dets[i],
                params,
                self.scores[i],
                (self.faces[i + 1], self.rows[i]),
            )
    }

    /// The boxes of frame `i` matched to the faces before it.
    pub open spec fn sight(self, params: Params, i: int) -> Sighting {
        sighted(self.faces[i], self.dets[i], params)
    }

    /// The boxes frame `i` asks a score for.
    pub open spec fn wanted(self, params: Params, i: int) -> Seq<FaceBox> {
        self.sight(params, i).wanted(params.every)
    }

    /// Whether `at` has where one face is, on each of the first `n` frames and
    /// after them: among the faces that frame follows, old and new. All of
    /// those frames went through, and the face was found on each of them, or on
    /// none.
    pub open spec fn follows(self, params: Params, at: Seq<int>, n: int, found: bool) -> bool {
        &&& at.len() == n + 1
        &&& 0 <= n <= self.dets.len()
        &&& 0 <= at[0] < self.sight(params, 0).all().len()
        &&& forall|i: int|
            0 <= i < n ==> (#[trigger] self.sight(params, i)).seen(at[i]) == found && self.rows[i]
                is Ok && at[i + 1] == self.sight(params, i).moves_to(params.hold, at[i])
    }

    /// On how many of the first `n` frames the face that is where `at` has it
    /// is due a score.
    pub open spec fn due(self, params: Params, at: Seq<int>, n: int) -> int
        decreases n,
    {
        if n <= 0 {
            0
        } else {
            let s = self.sight(params, n - 1);
            self.due(params, at, n - 1) + if s.due(params.every, s.box_of(at[n - 1])) {
                1int
            } else {
                0
            }
        }
    }

    /// How many boxes the first `n` frames ask a score for.
    pub open spec fn asked(self, params: Params, n: int) -> int
        decreases n,
    {
        if n <= 0 {
            0
        } else {
            self.asked(params, n - 1) + self.wanted(params, n - 1).len()
        }
    }
}

/// A face the detector lost is written again as it was: on the `n`th of frames
/// that find nothing, the rows are those of the faces that have then been
/// missing for no more than `hold` frames, each unchanged and in the order they
/// were in. So one that was found before is written on the first `hold` of them
/// and on no later one. None of those frames asks for a score.
pub proof fn law_lost_face_is_written_again<
    S: FnOnce(&[FaceBox]) -> Result<Vec<Num>, String>,
>(turns: Turns<S>, params: Params, n: int)
    requires
        turns.ran(params),
        forall|i: int| 0 <= i < turns.dets.len() ==> (#[trigger] turns.dets[i]).len() == 0,
        1 <= n <= turns.dets.len(),
    ensures
        ({
            let before = turns.faces[0];
            let held = before.filter(|face: Face| face.missed + n <= params.hold);
            &&& turns.wanted(params, n - 1).len() == 0
            &&& turns.rows[n - 1] == Ok::<_, Seq<char>>(told(held))
            &&& n <= params.hold ==> forall|k: int|
                0 <= k < before.len() && (#[trigger] before[k]).missed == 0 ==> told(
                    held,
                ).contains(before[k].told())
            &&& n > params.hold ==> told(held).len() == 0
        }),
{
    let before = turns.faces[0];
    let stays = |face: Face| face.missed + n <= params.hold;
    let held = before.filter(stays);
    lemma_quiet_turns(turns, params, n);
    law_held_and_then_dropped(before, params, n);
    lemma_lost_rows(before, params.hold, n);
    broadcast use vstd::seq_lib::group_filter_ensures;
    if n <= params.hold {
        assert forall|k: int| 0 <= k < before.len() && (#[trigger] before[k]).missed
            == 0 implies told(held).contains(before[k].told()) by {
            assert(stays(before[k]));
            assert(held.contains(before[k]));
            let i = choose|i: int| 0 <= i < held.len() && held[i] == before[k];
            assert(told(held)[i] == before[k].told());
        }
    } else if held.len() > 0 {
        assert(stays(held[0]));
    }
}

/// Frames that find nothing leave the faces that are held, and their rows.
proof fn lemma_quiet_turns<S: FnOnce(&[FaceBox]) -> Result<Vec<Num>, String>>(
    turns: Turns<S>,
    params: Params,
    n: int,
)
    requires
        turns.ran(params),
        forall|i: int| 0 <= i < turns.dets.len() ==> (#[trigger] turns.dets[i]).len() == 0,
        1 <= n <= turns.dets.len(),
    ensures
        turns.faces[n] == quiet(turns.faces[0], params, n),
        turns.wanted(params, n - 1).len() == 0,
        turns.rows[n - 1] == Ok::<_, Seq<char>>(told(quiet(turns.faces[0], params, n))),
    decreases n,
{
    if n > 1 {
        lemma_quiet_turns(turns, params, n - 1);
    }
    let none: Seq<Det> = seq![];
    assert(turns.dets[n - 1] =~= none);
    let faces = turns.faces[n - 1];
    assert(faces == quiet(turns.faces[0], params, n - 1));
    law_frame_without_boxes(faces, params);
    assert(advanced(faces, none, params, turns.scores[n - 1], (turns.faces[n], turns.rows[n - 1])));
    let s = sighted(faces, none, params);
    assert(s.wanted(params.every).len() == 0);
    assert((turns.faces[n], turns.rows[n - 1]) == outcome(s, params, Ok(seq![])));
}

/// The faces held are written as they were.
proof fn lemma_lost_rows(faces: Seq<Face>, hold: u32, n: int)
    requires
        n >= 0,
    ensures
        ({
            let kept = faces.map_values(|face: Face| lost_for(face, n)).filter(
                |face: Face| face.missed <= hold,
            );
            told(kept) == told(faces.filter(|face: Face| face.missed + n <= hold))
        }),
    decreases faces.len(),
{
    let lose = |face: Face| lost_for(face, n);
    let keep = |face: Face| face.missed <= hold;
    let stays = |face: Face| face.missed + n <= hold;
    reveal(Seq::filter);
    if faces.len() > 0 {
        let (front, last) = (faces.drop_last(), faces.last());
        lemma_lost_rows(front, hold, n);
        law_lost_face_stays_as_it_was(last, n);
        assert(faces.map_values(lose).drop_last() =~= front.map_values(lose));
        let (kept, held) = (front.map_values(lose).filter(keep), front.filter(stays));
        if stays(last) {
            assert(told(kept.push(lose(last))) =~= told(kept).push(last.told()));
            assert(told(held.push(last)) =~= told(held).push(last.told()));
        }
    } else {
        assert(faces.map_values(lose) =~= faces);
        assert(told(faces.map_values(lose).filter(keep)) =~= told(faces.filter(stays)));
    }
}

/// A frame that went through was scored with some ages, as many as it asked
/// for.
proof fn lemma_turn<S: FnOnce(&[FaceBox]) -> Result<Vec<Num>, String>>(
    turns: Turns<S>,
    params: Params,
    i: int,
) -> (ages: Seq<Num>)
    requires
        turns.ran(params),
        0 <= i < turns.dets.len(),
        turns.rows[i] is Ok,
    ensures
        turns.sight(params, i).wf(),
        turns.faces[i + 1] == turns.sight(params, i).kept(params, ages),
        turns.rows[i] == Ok::<_, Seq<char>>(told(turns.faces[i + 1])),
{
    let s = turns.sight(params, i);
    let wanted = s.wanted(params.every);
    let r = (turns.faces[i + 1], turns.rows[i]);
    assert(advanced(turns.faces[i], turns.dets[i], params, turns.scores[i], r));
    let ages = if wanted.len() == 0 {
        seq![]
    } else {
        let (boxes, answer) = choose|boxes: &[FaceBox], answer: Result<Vec<Num>, String>|
            boxes@ == wanted && #[trigger] call_ensures(turns.scores[i], (boxes,), answer) && r
                == outcome(s, params, answered(answer));
        answered(answer)->Ok_0
    };
    assert(r == outcome(s, params, Ok(ages)));
    ages
}

/// The one box of a frame is the one face being followed where it overlaps it
/// enough, and a new one where there is none.
proof fn lemma_one_box(s: Sighting, params: Params, ages: Seq<Num>)
    requires
        s.wf(),
        s.dets.len() == 1,
        s.faces.len() <= 1,
        s.faces.len() == 1 ==> candidate(det_boxes(s.dets), face_boxes(s.faces), 0, 0),
    ensures
        ({
            let face = if s.faces.len() == 0 {
                new_face(s.dets[0])
            } else {
                s.faces[0]
            };
            &&& s.wanted(params.every).len() == if face.is_due(params.every) {
                1int
            } else {
                0
            }
            &&& s.kept(params, ages) == seq![face.found(s.dets[0], params.every, ages[0])]
        }),
{
    let face = if s.faces.len() == 0 {
        new_face(s.dets[0])
    } else {
        s.faces[0]
    };
    let (boxes, faces) = (det_boxes(s.dets), face_boxes(s.faces));
    if s.faces.len() == 1 {
        law_closest_are_matched(boxes, faces, s.of_det, 0, 0);
    } else if s.of_det[0] is Some {
        assert(given(s.of_det, 0, s.of_det[0]->0 as int));
    }
    reveal_with_fuel(Sighting::newcomers, 2);
    reveal_with_fuel(Sighting::joined, 2);
    reveal_with_fuel(Sighting::due_among, 2);
    reveal_with_fuel(Sighting::due_before, 2);
    assert(s.all() =~= seq![face]);
    assert(s.place(0) == 0);
    lemma_place(s, 0);
    assert(s.seen(0));
    assert(s.box_of(0) == 0);
    assert(s.due(params.every, 0) == face.is_due(params.every));
    let found = face.found(s.dets[0], params.every, ages[0]);
    assert(s.after(params.every, ages) =~= seq![found]);
    reveal_with_fuel(Seq::filter, 2);
    assert(seq![found].drop_last() =~= seq![]);
    assert(s.kept(params, ages) =~= seq![found]);
}

/// One box on every frame, each enough over the one before it to be the same
/// face, from a frame on which nothing is followed.
pub open spec fn one_steady_box<S>(turns: Turns<S>) -> bool {
    &&& turns.faces[0].len() == 0
    &&& forall|i: int| 0 <= i < turns.dets.len() ==> (#[trigger] turns.dets[i]).len() == 1
    &&& forall|i: int|
        0 < i < turns.dets.len() ==> match_iou().at_most(
            overlap((#[trigger] turns.dets[i])[0].b, turns.dets[i - 1][0].b),
        )
}

proof fn lemma_steady_turns<S: FnOnce(&[FaceBox]) -> Result<Vec<Num>, String>>(
    turns: Turns<S>,
    params: Params,
    n: int,
)
    requires
        turns.ran(params),
        one_steady_box(turns),
        forall|i: int| 0 <= i < turns.rows.len() ==> (#[trigger] turns.rows[i]) is Ok,
        params.hold >= 1,
        params.every >= 1,
        0 <= n < turns.dets.len(),
    ensures
        turns.wanted(params, n).len() == if n % (params.every as int) == 0 {
            1int
        } else {
            0
        },
        turns.faces[n + 1].len() == 1,
        turns.faces[n + 1][0].b == turns.dets[n][0].b,
        turns.faces[n + 1][0].scores.len() >= 1,
        turns.faces[n + 1][0].since == n % (params.every as int) + 1,
    decreases n,
{
    let e = params.every as int;
    let s = sighted(turns.faces[n], turns.dets[n], params);
    assert(turns.dets[n].len() == 1);
    if n > 0 {
        lemma_steady_turns(turns, params, n - 1);
        lemma_next_remainder(n - 1, e);
        assert(match_iou().at_most(overlap(turns.dets[n][0].b, turns.dets[n - 1][0].b)));
        assert(candidate(det_boxes(s.dets), face_boxes(s.faces), 0, 0));
    } else {
        assert(0int % e == 0);
    }
    assert(turns.rows[n] is Ok);
    let ages = lemma_turn(turns, params, n);
    lemma_one_box(s, params, ages);
}

/// The work is one inference per face per `every` frames: of frames with one
/// steady box, the first asks for its score and each `every` frames after it,
/// no other does, and so the first `n` of them ask for one score in `every`.
pub proof fn law_one_score_asked_in_every<
    S: FnOnce(&[FaceBox]) -> Result<Vec<Num>, String>,
>(turns: Turns<S>, params: Params, n: int)
    requires
        turns.ran(params),
        one_steady_box(turns),
        forall|i: int| 0 <= i < turns.rows.len() ==> (#[trigger] turns.rows[i]) is Ok,
        params.hold >= 1,
        params.every >= 1,
        0 <= n <= turns.dets.len(),
    ensures
        forall|i: int|
            0 <= i < n ==> (#[trigger] turns.wanted(params, i)).len() == if i % (
            params.every as int) == 0 {
                1int
            } else {
                0
            },
        turns.asked(params, n) == (n + params.every - 1) / (params.every as int),
    decreases n,
{
    let e = params.every as int;
    if n == 0 {
        lemma_one_in_every(0, e);
    } else {
        law_one_score_asked_in_every(turns, params, n - 1);
        lemma_steady_turns(turns, params, n - 1);
        lemma_one_in_every(n, e);
    }
}

/// Of the first `n` faces after a frame, those that stay are the ones kept, in
/// order.
proof fn lemma_kept_among(s: Sighting, params: Params, ages: Seq<Num>, n: int)
    requires
        0 <= n <= s.all().len(),
    ensures
        ({
            let kept = s.after(params.every, ages).take(n).filter(
                |face: Face| face.missed <= params.hold,
            );
            &&& kept.len() == s.moves_to(params.hold, n)
            &&& forall|k: int|
                0 <= k < n && #[trigger] s.stays(params.hold, k) ==> 0 <= s.moves_to(
                    params.hold,
                    k,
                ) < kept.len() && kept[s.moves_to(params.hold, k)] == s.followed(
                    params.every,
                    ages,
                    k,
                )
            &&& forall|j: int|
                0 <= j < kept.len() ==> #[trigger] came_from(s, params.hold, n, j)
        }),
    decreases n,
{
    let hold = params.hold;
    let keep = |face: Face| face.missed <= hold;
    let after = s.after(params.every, ages);
    reveal(Seq::filter);
    if n > 0 {
        lemma_kept_among(s, params, ages, n - 1);
        let (front, face) = (after.take(n - 1).filter(keep), after[n - 1]);
        let kept = after.take(n).filter(keep);
        assert(after.take(n).drop_last() =~= after.take(n - 1));
        assert(face == s.followed(params.every, ages, n - 1));
        assert(keep(face) == s.stays(hold, n - 1));
        assert forall|j: int| 0 <= j < kept.len() implies #[trigger] came_from(
            s,
            hold,
            n,
            j,
        ) by {
            if j < front.len() {
                assert(came_from(s, hold, n - 1, j));
                let k = choose|k: int|
                    0 <= k < n - 1 && #[trigger] s.stays(hold, k) && s.moves_to(hold, k) == j;
                assert(0 <= k < n && s.stays(hold, k));
            } else {
                assert(s.stays(hold, n - 1) && s.moves_to(hold, n - 1) == j);
            }
        }
    }
}

/// Whether one of the first `n` faces stays and is then at `j`.
pub open spec fn came_from(s: Sighting, hold: u32, n: int, j: int) -> bool {
    exists|k: int| 0 <= k < n && #[trigger] s.stays(hold, k) && s.moves_to(hold, k) == j
}

/// A face that stays is kept where it moves to, and what is kept stayed.
proof fn lemma_kept(s: Sighting, params: Params, ages: Seq<Num>, k: int)
    requires
        0 <= k < s.all().len(),
    ensures
        s.stays(params.hold, k) ==> 0 <= s.moves_to(params.hold, k) < s.kept(params, ages).len()
            && s.kept(params, ages)[s.moves_to(params.hold, k)] == s.followed(
            params.every,
            ages,
            k,
        ),
        forall|j: int|
            0 <= j < s.kept(params, ages).len() ==> #[trigger] came_from(
                s,
                params.hold,
                s.all().len() as int,
                j,
            ),
{
    let n = s.all().len() as int;
    lemma_kept_among(s, params, ages, n);
    let after = s.after(params.every, ages);
    assert(after.take(n) =~= after);
    if s.stays(params.hold, k) {
        assert(s.moves_to(params.hold, k) >= 0);
    }
}

/// What a face found on every frame so far, and new on the first of them, has
/// scored.
proof fn lemma_found_so_far<S: FnOnce(&[FaceBox]) -> Result<Vec<Num>, String>>(
    turns: Turns<S>,
    params: Params,
    at: Seq<int>,
    n: int,
    i: int,
)
    requires
        turns.ran(params),
        turns.follows(params, at, n, true),
        at[0] >= turns.faces[0].len(),
        params.hold >= 1,
        params.every >= 1,
        0 <= i < n,
    ensures
        ({
            let s = turns.sight(params, i);
            let face = s.all()[at[i]];
            &&& s.wf()
            &&& 0 <= at[i] < s.all().len()
            &&& s.due(params.every, s.box_of(at[i])) == face.is_due(params.every)
            &&& face.is_due(params.every) <==> i % (params.every as int) == 0
            &&& i == 0 ==> face.scores.len() == 0
            &&& i > 0 ==> face.scores.len() > 0 && face.since == (i - 1) % (params.every as int)
                + 1
        }),
    decreases i,
{
    let e = params.every as int;
    let s = turns.sight(params, i);
    assert(s.seen(at[i]) && turns.rows[i] is Ok);
    let _ = lemma_turn(turns, params, i);
    if i == 0 {
        lemma_stranger_is_seen(s, at[0]);
        let d = s.box_of(at[0]);
        assert(s.place(d) == at[0]);
        lemma_place(s, d);
        assert(0int % e == 0);
    } else {
        lemma_found_so_far(turns, params, at, n, i - 1);
        let before = turns.sight(params, i - 1);
        assert(before.seen(at[i - 1]) && turns.rows[i - 1] is Ok);
        let ages = lemma_turn(turns, params, i - 1);
        lemma_kept(before, params, ages, at[i - 1]);
        assert(before.stays(params.hold, at[i - 1]));
        lemma_joined(s, s.dets.len() as int);
        lemma_newcomers(s, 0, s.dets.len() as int);
        assert(s.all()[at[i]] == s.faces[at[i]]);
        assert(s.faces[at[i]] == before.followed(params.every, ages, at[i - 1]));
        if i > 1 {
            lemma_next_remainder(i - 2, e);
        } else {
            assert(0int % e == 0);
        }
        lemma_next_remainder(i - 1, e);
    }
    let d = s.box_of(at[i]);
    assert(s.place(d) == at[i]);
}

/// `every` is how many frames apart each face is scored, whatever else is
/// found: one that is new on a frame and found on every one after it is due on
/// the first, on each `every` frames after it and on no other, and so on one in
/// `every` of them.
pub proof fn law_each_face_is_scored_once_in_every<
    S: FnOnce(&[FaceBox]) -> Result<Vec<Num>, String>,
>(turns: Turns<S>, params: Params, at: Seq<int>, n: int)
    requires
        turns.ran(params),
        turns.follows(params, at, n, true),
        at[0] >= turns.faces[0].len(),
        params.hold >= 1,
        params.every >= 1,
    ensures
        forall|i: int|
            0 <= i < n ==> {
                let s = #[trigger] turns.sight(params, i);
                s.due(params.every, s.box_of(at[i])) <==> i % (params.every as int) == 0
            },
        turns.due(params, at, n) == (n + params.every - 1) / (params.every as int),
{
    assert forall|i: int| 0 <= i < n implies {
        let s = #[trigger] turns.sight(params, i);
        s.due(params.every, s.box_of(at[i])) <==> i % (params.every as int) == 0
    } by {
        lemma_found_so_far(turns, params, at, n, i);
    }
    lemma_times_due(turns, params, at, n, n);
}

proof fn lemma_times_due<S: FnOnce(&[FaceBox]) -> Result<Vec<Num>, String>>(
    turns: Turns<S>,
    params: Params,
    at: Seq<int>,
    n: int,
    m: int,
)
    requires
        turns.ran(params),
        turns.follows(params, at, n, true),
        at[0] >= turns.faces[0].len(),
        params.hold >= 1,
        params.every >= 1,
        0 <= m <= n,
    ensures
        turns.due(params, at, m) == (m + params.every - 1) / (params.every as int),
    decreases m,
{
    lemma_one_in_every(m, params.every as int);
    if m > 0 {
        lemma_times_due(turns, params, at, n, m - 1);
        lemma_found_so_far(turns, params, at, n, m - 1);
    }
}

/// A face that is lost is written again as it was, whatever else is found: for
/// as many frames in a row as it is not found, up to `hold`, each has its row,
/// unchanged.
pub proof fn law_lost_face_is_written_among_others<
    S: FnOnce(&[FaceBox]) -> Result<Vec<Num>, String>,
>(turns: Turns<S>, params: Params, at: Seq<int>, n: int)
    requires
        turns.ran(params),
        turns.follows(params, at, n, false),
        at[0] < turns.faces[0].len(),
        turns.faces[0][at[0]].missed == 0,
        1 <= n <= params.hold,
    ensures
        0 <= at[n] < turns.faces[n].len(),
        turns.faces[n][at[n]] == lost_for(turns.faces[0][at[0]], n),
        turns.rows[n - 1] is Ok,
        turns.rows[n - 1]->Ok_0.len() == turns.faces[n].len(),
        turns.rows[n - 1]->Ok_0[at[n]] == turns.faces[0][at[0]].told(),
{
    lemma_lost_so_far(turns, params, at, n, n);
    law_lost_face_stays_as_it_was(turns.faces[0][at[0]], n);
    let i = n - 1;
    let s = turns.sight(params, i);
    assert(!s.seen(at[i]) && turns.rows[i] is Ok);
    let _ = lemma_turn(turns, params, i);
}

proof fn lemma_lost_so_far<S: FnOnce(&[FaceBox]) -> Result<Vec<Num>, String>>(
    turns: Turns<S>,
    params: Params,
    at: Seq<int>,
    n: int,
    m: int,
)
    requires
        turns.ran(params),
        turns.follows(params, at, n, false),
        at[0] < turns.faces[0].len(),
        turns.faces[0][at[0]].missed == 0,
        params.hold >= 1,
        0 <= m <= n,
        m <= params.hold,
    ensures
        0 <= at[m] < turns.faces[m].len(),
        turns.faces[m][at[m]] == lost_for(turns.faces[0][at[0]], m),
    decreases m,
{
    if m > 0 {
        lemma_lost_so_far(turns, params, at, n, m - 1);
        let s = turns.sight(params, m - 1);
        let k = at[m - 1];
        assert(!s.seen(k) && turns.rows[m - 1] is Ok);
        let ages = lemma_turn(turns, params, m - 1);
        lemma_joined(s, s.dets.len() as int);
        lemma_newcomers(s, 0, s.dets.len() as int);
        assert(s.all()[k] == s.faces[k]);
        law_lost_face_stays_as_it_was(turns.faces[0][at[0]], m - 1);
        assert(s.stays(params.hold, k));
        lemma_kept(s, params, ages, k);
    }
}

/// And then it is dropped: on the frame past `hold` that does not find it, and
/// so from there on, every row is another face's.
pub proof fn law_lost_face_is_dropped_among_others<
    S: FnOnce(&[FaceBox]) -> Result<Vec<Num>, String>,
>(turns: Turns<S>, params: Params, at: Seq<int>)
    requires
        turns.ran(params),
        turns.follows(params, at, params.hold + 1, false),
        at[0] < turns.faces[0].len(),
        turns.faces[0][at[0]].missed == 0,
        params.hold >= 1,
    ensures
        ({
            let n = params.hold as int;
            let s = turns.sight(params, n);
            &&& !s.stays(params.hold, at[n])
            &&& turns.rows[n] is Ok
            &&& turns.rows[n]->Ok_0.len() == turns.faces[n + 1].len()
            &&& forall|j: int|
                0 <= j < turns.faces[n + 1].len() ==> #[trigger] came_from_another(
                    s,
                    params.hold,
                    at[n],
                    j,
                )
        }),
{
    let n = params.hold as int;
    let s = turns.sight(params, n);
    lemma_lost_so_far(turns, params, at, n + 1, n);
    let k = at[n];
    assert(!s.seen(k) && turns.rows[n] is Ok);
    let ages = lemma_turn(turns, params, n);
    lemma_joined(s, s.dets.len() as int);
    lemma_newcomers(s, 0, s.dets.len() as int);
    assert(s.all()[k] == s.faces[k]);
    law_lost_face_stays_as_it_was(turns.faces[0][at[0]], n);
    lemma_kept(s, params, ages, k);
    assert forall|j: int| 0 <= j < turns.faces[n + 1].len() implies #[trigger] came_from_another(
        s,
        params.hold,
        k,
        j,
    ) by {
        assert(came_from(s, params.hold, s.all().len() as int, j));
        let l = choose|l: int|
            0 <= l < s.all().len() && #[trigger] s.stays(params.hold, l) && s.moves_to(
                params.hold,
                l,
            ) == j;
        assert(l != k && s.stays(params.hold, l));
    }
}

/// Whether the face that is at `j` after a frame was another than `k`.
pub open spec fn came_from_another(s: Sighting, hold: u32, k: int, j: int) -> bool {
    exists|l: int|
        0 <= l < s.all().len() && l != k && #[trigger] s.stays(hold, l) && s.moves_to(hold, l) == j
}

/// Whether a box of the frame is the face carried over that is at `k`.
pub open spec fn is_found(s: Sighting, k: int) -> bool {
    exists|d: int| 0 <= d < s.dets.len() && (#[trigger] s.of_det[d]) is Some && s.of_det[d]->0 == k
}

proof fn lemma_is_found(s: Sighting, k: int)
    requires
        s.wf(),
        0 <= k < s.faces.len(),
    ensures
        s.seen(k) == is_found(s, k),
{
    if s.seen(k) {
        let d = choose|d: int| 0 <= d < s.dets.len() && #[trigger] s.place(d) == k;
        lemma_place(s, d);
        assert(s.of_det[d] is Some);
    }
    if is_found(s, k) {
        let d = choose|d: int|
            0 <= d < s.dets.len() && (#[trigger] s.of_det[d]) is Some && s.of_det[d]->0 == k;
        assert(s.place(d) == k);
    }
}

/// Whether `at` has where one face is before each of the first `n` frames and
/// after them, among those being followed. Every one of those frames went
/// through, and the face was on each of them found, or had not been missing for
/// too long.
pub open spec fn goes_on<S: FnOnce(&[FaceBox]) -> Result<Vec<Num>, String>>(
    turns: Turns<S>,
    params: Params,
    at: Seq<int>,
    n: int,
) -> bool {
    &&& at.len() == n + 1
    &&& 0 <= n <= turns.dets.len()
    &&& 0 <= at[0] < turns.faces[0].len()
    &&& forall|i: int|
        0 <= i < n ==> {
            let s = #[trigger] turns.sight(params, i);
            &&& turns.rows[i] is Ok
            &&& is_found(s, at[i]) || turns.faces[i][at[i]].missed + 1 <= params.hold
            &&& at[i + 1] == s.moves_to(params.hold, at[i])
        }
}

/// One frame of a face that goes on.
proof fn lemma_goes_on<S: FnOnce(&[FaceBox]) -> Result<Vec<Num>, String>>(
    turns: Turns<S>,
    params: Params,
    i: int,
    k: int,
    l: int,
)
    requires
        turns.ran(params),
        params.hold >= 1,
        0 <= i < turns.dets.len(),
        turns.rows[i] is Ok,
        0 <= k < turns.faces[i].len(),
        is_found(turns.sight(params, i), k) || turns.faces[i][k].missed + 1 <= params.hold,
        l == turns.sight(params, i).moves_to(params.hold, k),
    ensures
        0 <= l < turns.faces[i + 1].len(),
        ({
            let (was, is) = (turns.faces[i][k], turns.faces[i + 1][l]);
            let found = is_found(turns.sight(params, i), k);
            let due = was.scores.len() == 0 || was.since >= params.every;
            &&& found && due ==> is.since == 1 && exists|age: Num| #[trigger]
                was.with_score(age).scores == is.scores
            &&& !(found && due) ==> is.scores == was.scores && is.since == if was.since
                >= u32::MAX {
                u32::MAX as nat
            } else {
                was.since + 1
            }
        }),
{
    let s = turns.sight(params, i);
    let ages = lemma_turn(turns, params, i);
    lemma_is_found(s, k);
    lemma_joined(s, s.dets.len() as int);
    lemma_newcomers(s, 0, s.dets.len() as int);
    assert(s.all()[k] == s.faces[k]);
    assert(s.stays(params.hold, k));
    lemma_kept(s, params, ages, k);
    let (was, is) = (turns.faces[i][k], turns.faces[i + 1][l]);
    assert(is == s.followed(params.every, ages, k));
    if s.seen(k) {
        let age = ages[s.due_before(params.every, s.box_of(k))];
        if was.is_due(params.every) {
            assert(was.with_score(age).scores == is.scores);
        }
    }
}

/// A face is scored on the first frame that finds it once `every` frames have
/// gone by since its last score, and on none before it, however many of those
/// in between lost it: from a frame that scored it on, each that follows it and
/// does not score it, found or lost, adds one to the frames gone by, and leaves
/// its scores alone.
pub proof fn law_scored_once_so_many_frames_have_gone_by<
    S: FnOnce(&[FaceBox]) -> Result<Vec<Num>, String>,
>(turns: Turns<S>, params: Params, at: Seq<int>, n: int)
    requires
        turns.ran(params),
        params.hold >= 1,
        n >= 0,
        n + 1 < u32::MAX,
        goes_on(turns, params, at, n + 1),
        turns.faces[0][at[0]].scores.len() > 0,
        turns.faces[0][at[0]].scores.len() <= 30,
        turns.faces[0][at[0]].since == 1,
        forall|i: int|
            0 <= i < n && is_found(#[trigger] turns.sight(params, i), at[i]) ==> i + 1
                < params.every,
    ensures
        0 <= at[n] < turns.faces[n].len(),
        turns.faces[n][at[n]].since == n + 1,
        turns.faces[n][at[n]].scores == turns.faces[0][at[0]].scores,
        0 <= at[n + 1] < turns.faces[n + 1].len(),
        ({
            let scores = turns.faces[0][at[0]].scores;
            let is = turns.faces[n + 1][at[n + 1]];
            if is_found(turns.sight(params, n), at[n]) && n + 1 >= params.every {
                &&& is.since == 1
                &&& is.scores.len() == if scores.len() < 30 {
                    scores.len() + 1
                } else {
                    30
                }
                &&& is.scores.drop_last() == if scores.len() < 30 {
                    scores
                } else {
                    scores.skip(1)
                }
            } else {
                &&& is.since == n + 2
                &&& is.scores == scores
            }
        }),
{
    lemma_gone_by(turns, params, at, n + 1, n);
    let s = turns.sight(params, n);
    assert(turns.rows[n] is Ok && at[n + 1] == s.moves_to(params.hold, at[n]));
    lemma_goes_on(turns, params, n, at[n], at[n + 1]);
    let scores = turns.faces[0][at[0]].scores;
    let (was, is) = (turns.faces[n][at[n]], turns.faces[n + 1][at[n + 1]]);
    if is_found(s, at[n]) && n + 1 >= params.every {
        let age = choose|age: Num| #[trigger] was.with_score(age).scores == is.scores;
        assert(is.scores.drop_last() =~= if scores.len() < 30 {
            scores
        } else {
            scores.skip(1)
        });
    }
}

proof fn lemma_gone_by<S: FnOnce(&[FaceBox]) -> Result<Vec<Num>, String>>(
    turns: Turns<S>,
    params: Params,
    at: Seq<int>,
    n: int,
    m: int,
)
    requires
        turns.ran(params),
        params.hold >= 1,
        0 <= m < n,
        n < u32::MAX,
        goes_on(turns, params, at, n),
        turns.faces[0][at[0]].scores.len() > 0,
        turns.faces[0][at[0]].since == 1,
        forall|i: int|
            0 <= i < m && is_found(#[trigger] turns.sight(params, i), at[i]) ==> i + 1
                < params.every,
    ensures
        0 <= at[m] < turns.faces[m].len(),
        turns.faces[m][at[m]].since == m + 1,
        turns.faces[m][at[m]].scores == turns.faces[0][at[0]].scores,
    decreases m,
{
    if m > 0 {
        let i = m - 1;
        lemma_gone_by(turns, params, at, n, i);
        let s = turns.sight(params, i);
        assert(turns.rows[i] is Ok && at[i + 1] == s.moves_to(params.hold, at[i]));
        lemma_goes_on(turns, params, i, at[i], at[i + 1]);
    }
}

/// A box of whole pixels that does not move is enough over itself to be the
/// same face.
pub proof fn law_still_box_is_the_same_face(b: FaceBox, p: Pixels)
    requires
        p.wf(),
        p.are(b),
    ensures
        match_iou().at_most(overlap(b, b)),
{
    law_box_overlaps_itself(b, p);
    lemma_worth_of_one();
    lemma_worth_increases(match_iou().magnitude(), 1023 * STEP);
    assert(units(1) == pow2(1074));
}

} // verus!
