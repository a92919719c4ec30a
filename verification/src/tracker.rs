//! One frame at a time: the boxes matched to the faces being followed, the
//! ones due a score scored, and a row for every face still on the picture.
use crate::boxes::FaceBox;
use crate::face::{new_face, Det, Face, Row, Told, Track};
use crate::matching::{
    candidate, det_boxes, face_boxes, faces_of, given, law_matching_is_one, match_boxes, matching,
};
use crate::number::Num;
use crate::params::Params;
use crate::text::{decimal, decimal_text};
use vstd::prelude::*;
use vstd::string::StringExecFns;

verus! {

impl Face {
    /// The face a frame later, as far as its last score goes.
    pub open spec fn a_frame_on(self) -> Face {
        Face {
            since: if self.since >= u32::MAX {
                u32::MAX as nat
            } else {
                self.since + 1
            },
            ..self
        }
    }

    /// The face at the box this frame put it at.
    pub open spec fn moved(self, det: Det) -> Face {
        Face { b: det.b, conf: det.conf, missed: 0, ..self }
    }

    /// The face after a frame that found it, scored `age` if it was due.
    pub open spec fn found(self, det: Det, every: u32, age: Num) -> Face {
        if self.is_due(every) {
            self.with_score(age).moved(det).a_frame_on()
        } else {
            self.moved(det).a_frame_on()
        }
    }

    /// The face after a frame that did not find it.
    pub open spec fn lost(self) -> Face {
        Face { missed: self.missed + 1, ..self.a_frame_on() }
    }
}

/// A frame's boxes, the faces they are matched to, those being followed that
/// they are not, and which box is which face.
pub struct Sighting {
    pub faces: Seq<Face>,
    pub aside: Seq<Face>,
    pub dets: Seq<Det>,
    pub of_det: Seq<Option<usize>>,
}

/// The frame's boxes matched to the faces.
pub open spec fn sighting(faces: Seq<Face>, dets: Seq<Det>) -> Sighting {
    Sighting {
        faces,
        aside: seq![],
        dets,
        of_det: choose|of_det: Seq<Option<usize>>|
            matching(det_boxes(dets), face_boxes(faces), of_det),
    }
}

/// The faces a frame's boxes are matched to. With `hold` 0 there are none: no
/// face is carried from one frame to the next, so that one in the same place
/// is not taken for the same person. Those being followed are put aside.
pub open spec fn carried(faces: Seq<Face>, params: Params) -> Seq<Face> {
    if params.hold == 0 {
        seq![]
    } else {
        faces
    }
}

/// The frame's boxes matched to the faces carried over to it.
pub open spec fn sighted(faces: Seq<Face>, dets: Seq<Det>, params: Params) -> Sighting {
    Sighting {
        aside: if params.hold == 0 {
            faces
        } else {
            seq![]
        },
        ..sighting(carried(faces, params), dets)
    }
}

impl Sighting {
    pub open spec fn wf(self) -> bool {
        matching(det_boxes(self.dets), face_boxes(self.faces), self.of_det)
    }

    /// How many of the first `n` boxes are faces not seen before.
    pub open spec fn newcomers(self, n: int) -> int
        decreases n,
    {
        if n <= 0 {
            0
        } else if self.of_det[n - 1] is None {
            self.newcomers(n - 1) + 1
        } else {
            self.newcomers(n - 1)
        }
    }

    /// The faces being followed with those of the first `n` boxes that are
    /// new, in the order the boxes came.
    pub open spec fn joined(self, n: int) -> Seq<Face>
        decreases n,
    {
        if n <= 0 {
            self.faces
        } else if self.of_det[n - 1] is None {
            self.joined(n - 1).push(new_face(self.dets[n - 1]))
        } else {
            self.joined(n - 1)
        }
    }

    /// The faces matched with those new on this frame.
    pub open spec fn all(self) -> Seq<Face> {
        self.joined(self.dets.len() as int)
    }

    /// The faces as a frame that goes wrong leaves them: all that were followed
    /// before it as they were, and after them those new on it.
    pub open spec fn untouched(self) -> Seq<Face> {
        self.aside + self.all()
    }

    /// Where among the faces matched and new the face of box `d` is.
    pub open spec fn place(self, d: int) -> int {
        match self.of_det[d] {
            Some(t) => t as int,
            None => self.faces.len() + self.newcomers(d),
        }
    }

    /// Whether one of the first `n` boxes is face `k`.
    pub open spec fn seen_by(self, n: int, k: int) -> bool {
        exists|d: int| 0 <= d < n && #[trigger] self.place(d) == k
    }

    /// Whether one of the boxes is face `k`.
    pub open spec fn seen(self, k: int) -> bool {
        self.seen_by(self.dets.len() as int, k)
    }

    /// The box that is face `k`.
    pub open spec fn box_of(self, k: int) -> int {
        choose|d: int| 0 <= d < self.dets.len() && #[trigger] self.place(d) == k
    }

    /// Whether the face of box `d` is due a score.
    pub open spec fn due(self, every: u32, d: int) -> bool {
        self.all()[self.place(d)].is_due(every)
    }

    /// How many of the first `n` boxes are faces due a score.
    pub open spec fn due_before(self, every: u32, n: int) -> int
        decreases n,
    {
        if n <= 0 {
            0
        } else if self.due(every, n - 1) {
            self.due_before(every, n - 1) + 1
        } else {
            self.due_before(every, n - 1)
        }
    }

    /// Those of the first `n` boxes whose faces are due a score, in order.
    pub open spec fn due_among(self, every: u32, n: int) -> Seq<FaceBox>
        decreases n,
    {
        if n <= 0 {
            seq![]
        } else if self.due(every, n - 1) {
            self.due_among(every, n - 1).push(self.dets[n - 1].b)
        } else {
            self.due_among(every, n - 1)
        }
    }

    /// The boxes to score, in the order their ages are to come back.
    pub open spec fn wanted(self, every: u32) -> Seq<FaceBox> {
        self.due_among(every, self.dets.len() as int)
    }

    /// Face `k` after the frame.
    pub open spec fn followed(self, every: u32, ages: Seq<Num>, k: int) -> Face {
        if self.seen(k) {
            let d = self.box_of(k);
            self.all()[k].found(self.dets[d], every, ages[self.due_before(every, d)])
        } else {
            self.all()[k].lost()
        }
    }

    /// The faces after the frame, those lost for too long among them.
    pub open spec fn after(self, every: u32, ages: Seq<Num>) -> Seq<Face> {
        Seq::new(self.all().len(), |k: int| self.followed(every, ages, k))
    }

    /// Whether face `k` is still followed after the frame.
    pub open spec fn stays(self, hold: u32, k: int) -> bool {
        self.seen(k) || self.all()[k].missed + 1 <= hold
    }

    /// Where among the faces still followed face `k` is then: as many of those
    /// before it as stay.
    pub open spec fn moves_to(self, hold: u32, k: int) -> int
        decreases k,
    {
        if k <= 0 {
            0
        } else if self.stays(hold, k - 1) {
            self.moves_to(hold, k - 1) + 1
        } else {
            self.moves_to(hold, k - 1)
        }
    }

    /// The faces still being followed: past `hold` frames unmatched a face is
    /// gone.
    pub open spec fn kept(self, params: Params, ages: Seq<Num>) -> Seq<Face> {
        self.after(params.every, ages).filter(|face: Face| face.missed <= params.hold)
    }
}

/// The rows faces are written as.
pub open spec fn told(faces: Seq<Face>) -> Seq<Told> {
    faces.map_values(|face: Face| face.told())
}

/// What rows say.
pub open spec fn said(rows: Seq<Row>) -> Seq<Told> {
    rows.map_values(|row: Row| row@)
}

/// What is said where not every crop came back as an age.
pub open spec fn miscounted(asked: int, came: int) -> Seq<char> {
    "ages: "@ + decimal(asked as nat) + " crops went to the graph and "@ + decimal(came as nat)
        + " ages came back"@
}

/// What becomes of a frame, by what came back for the boxes to score: the
/// faces followed from there on, and the rows or what went wrong. A frame
/// that went wrong leaves the faces as they were, and the new ones after them.
pub open spec fn outcome(
    sight: Sighting,
    params: Params,
    answer: Result<Seq<Num>, Seq<char>>,
) -> (Seq<Face>, Result<Seq<Told>, Seq<char>>) {
    let asked = sight.wanted(params.every).len() as int;
    match answer {
        Err(why) => (sight.untouched(), Err(why)),
        Ok(ages) => if ages.len() != asked {
            (sight.untouched(), Err(miscounted(asked, ages.len() as int)))
        } else {
            (sight.kept(params, ages), Ok(told(sight.kept(params, ages))))
        },
    }
}

/// The views of what came back.
pub open spec fn answered(answer: Result<Vec<Num>, String>) -> Result<Seq<Num>, Seq<char>> {
    match answer {
        Ok(ages) => Ok(ages@),
        Err(why) => Err(why@),
    }
}

/// The views of what a frame gives.
pub open spec fn given_back(
    tracks: Seq<Track>,
    rows: Result<Vec<Row>, String>,
) -> (Seq<Face>, Result<Seq<Told>, Seq<char>>) {
    (
        faces_of(tracks),
        match rows {
            Ok(rows) => Ok(said(rows@)),
            Err(why) => Err(why@),
        },
    )
}

/// A matching found is the one the frame is seen under.
pub proof fn lemma_sighting(faces: Seq<Face>, dets: Seq<Det>, of_det: Seq<Option<usize>>)
    requires
        matching(det_boxes(dets), face_boxes(faces), of_det),
    ensures
        sighting(faces, dets).of_det == of_det,
        sighting(faces, dets).wf(),
{
    law_matching_is_one(
        det_boxes(dets),
        face_boxes(faces),
        of_det,
        sighting(faces, dets).of_det,
    );
}

pub proof fn lemma_newcomers(s: Sighting, m: int, n: int)
    requires
        0 <= m <= n,
    ensures
        0 <= s.newcomers(m) <= s.newcomers(n) <= n,
        s.newcomers(n) - s.newcomers(m) <= n - m,
    decreases n,
{
    if m < n {
        lemma_newcomers(s, m, n - 1);
    } else if n > 0 {
        lemma_newcomers(s, m - 1, n - 1);
    }
}

pub proof fn lemma_joined(s: Sighting, n: int)
    requires
        0 <= n,
    ensures
        s.joined(n).len() == s.faces.len() + s.newcomers(n),
        forall|k: int| 0 <= k < s.faces.len() ==> s.joined(n)[k] == #[trigger] s.faces[k],
        forall|m: int, k: int|
            0 <= m <= n && 0 <= k < s.joined(m).len() ==> (#[trigger] s.joined(m)[k])
                == s.joined(n)[k] && k < s.joined(n).len(),
    decreases n,
{
    if n > 0 {
        lemma_joined(s, n - 1);
        lemma_newcomers(s, 0, n - 1);
        assert forall|m: int, k: int|
            0 <= m <= n && 0 <= k < s.joined(m).len() implies (#[trigger] s.joined(m)[k])
            == s.joined(n)[k] && k < s.joined(n).len() by {
            if m < n {
                assert(s.joined(m)[k] == s.joined(n - 1)[k]);
            }
        }
    }
}

/// Every box has its own face, and a new one has the box's own confidence and
/// place.
pub proof fn lemma_place(s: Sighting, d: int)
    requires
        s.wf(),
        0 <= d < s.dets.len(),
    ensures
        0 <= s.place(d) < s.all().len(),
        s.of_det[d] is Some ==> s.place(d) < s.faces.len() && s.all()[s.place(d)]
            == s.faces[s.place(d)],
        s.of_det[d] is None ==> s.place(d) >= s.faces.len() && s.all()[s.place(d)] == new_face(
            s.dets[d],
        ),
        forall|e: int|
            0 <= e < s.dets.len() && e != d ==> #[trigger] s.place(e) != s.place(d),
{
    let n = s.dets.len() as int;
    lemma_joined(s, n);
    lemma_joined(s, d);
    lemma_joined(s, d + 1);
    lemma_newcomers(s, 0, d);
    lemma_newcomers(s, d + 1, n);
    if s.of_det[d] is Some {
        let t = s.of_det[d]->0 as int;
        assert(given(s.of_det, d, t));
        assert(candidate(det_boxes(s.dets), face_boxes(s.faces), d, t));
        assert(s.all()[t] == s.faces[t]);
    } else {
        assert(s.joined(d + 1)[s.place(d)] == s.all()[s.place(d)]);
    }
    assert forall|e: int| 0 <= e < s.dets.len() && e != d implies #[trigger] s.place(e)
        != s.place(d) by {
        lemma_newcomers(s, 0, e);
        if s.of_det[e] is Some {
            let u = s.of_det[e]->0 as int;
            assert(given(s.of_det, e, u));
            assert(candidate(det_boxes(s.dets), face_boxes(s.faces), e, u));
        } else if s.of_det[d] is None {
            if e < d {
                lemma_newcomers(s, e + 1, d);
            } else {
                lemma_newcomers(s, d + 1, e);
            }
        }
    }
}

proof fn lemma_due(s: Sighting, every: u32, n: int)
    requires
        0 <= n,
    ensures
        s.due_among(every, n).len() == s.due_before(every, n),
        0 <= s.due_before(every, n) <= n,
    decreases n,
{
    if n > 0 {
        lemma_due(s, every, n - 1);
    }
}

proof fn lemma_due_grows(s: Sighting, every: u32, m: int, n: int)
    requires
        0 <= m <= n,
    ensures
        s.due_before(every, m) <= s.due_before(every, n),
    decreases n - m,
{
    if m < n {
        lemma_due_grows(s, every, m, n - 1);
    }
}

/// A frame under way: its boxes matched, and not yet scored.
pub struct Frame<'a> {
    tracks: Vec<Track>,
    /// The faces that are not carried over to this frame.
    aside: Vec<Track>,
    dets: &'a [Det],
    /// Where the face of each box is.
    places: Vec<usize>,
    /// Whether it is due a score.
    due: Vec<bool>,
    /// The boxes of those that are.
    boxes: Vec<FaceBox>,
    params: Params,
    faces: Ghost<Seq<Face>>,
}

impl<'a> Frame<'a> {
    /// The boxes and the faces the frame began with.
    pub closed spec fn sight(self) -> Sighting {
        sighted(self.faces@, self.dets@, self.params)
    }

    pub closed spec fn params(self) -> Params {
        self.params
    }

    pub closed spec fn wf(self) -> bool {
        let s = self.sight();
        let n = s.dets.len() as int;
        &&& s.wf()
        &&& faces_of(self.tracks@) == s.all()
        &&& faces_of(self.aside@) == s.aside
        &&& self.places@.len() == n
        &&& self.due@.len() == n
        &&& forall|d: int| 0 <= d < n ==> (#[trigger] self.places@[d]) == s.place(d)
        &&& forall|d: int|
            0 <= d < n ==> (#[trigger] self.due@[d]) == s.due(self.params.every, d)
        &&& self.boxes@ == s.wanted(self.params.every)
        &&& forall|k: int| 0 <= k < self.tracks@.len() ==> (#[trigger] self.tracks@[k]).missed
            < u32::MAX
        &&& forall|k: int| 0 <= k < self.aside@.len() ==> (#[trigger] self.aside@[k]).missed
            < u32::MAX
    }

    /// This frame's boxes, onto the faces they belong to. A box that matched
    /// nothing is a new face, appended in the order the rows arrived; with
    /// `hold` 0 every one is, and the faces of the frame before are put aside.
    pub fn begin(tracks: Vec<Track>, dets: &'a [Det], params: Params) -> (frame: Frame<'a>)
        requires
            forall|k: int| 0 <= k < tracks@.len() ==> (#[trigger] tracks@[k]).missed < u32::MAX,
        ensures
            frame.wf(),
            frame.sight() == sighted(faces_of(tracks@), dets@, params),
            frame.sight().wf(),
            frame.params() == params,
    {
        let ghost followed = faces_of(tracks@);
        let mut tracks: Vec<Track> = tracks;
        let mut aside: Vec<Track> = Vec::new();
        if params.hold == 0 {
            std::mem::swap(&mut tracks, &mut aside);
        }
        let ghost faces = faces_of(tracks@);
        let ghost s = sighted(followed, dets@, params);
        assert(faces =~= carried(followed, params));
        assert(faces_of(aside@) =~= s.aside);
        let of_det: Vec<Option<usize>> = match_boxes(tracks.as_slice(), dets);
        proof {
            lemma_sighting(faces, dets@, of_det@);
        }
        let mut places: Vec<usize> = Vec::new();
        let mut d: usize = 0;
        while d < dets.len()
            invariant
                d <= dets.len(),
                s.faces == faces,
                s.dets == dets@,
                s.of_det == of_det@,
                s.wf(),
                faces_of(tracks@) == s.joined(d as int),
                places@.len() == d,
                forall|e: int| 0 <= e < d ==> (#[trigger] places@[e]) == s.place(e),
                forall|k: int| 0 <= k < tracks@.len() ==> (#[trigger] tracks@[k]).missed
                    < u32::MAX,
            decreases dets.len() - d,
        {
            proof {
                lemma_joined(s, d as int);
                assert(tracks@.len() == faces_of(tracks@).len());
            }
            match of_det[d] {
                Some(t) => {
                    places.push(t);
                },
                None => {
                    places.push(tracks.len());
                    let ghost before = tracks@;
                    tracks.push(Track::new(dets[d]));
                    assert(faces_of(tracks@) =~= faces_of(before).push(new_face(dets@[d as int])));
                },
            }
            d = d + 1;
        }
        let mut due: Vec<bool> = Vec::new();
        let mut boxes: Vec<FaceBox> = Vec::new();
        let mut d: usize = 0;
        while d < dets.len()
            invariant
                d <= dets.len(),
                s.dets == dets@,
                s.wf(),
                faces_of(tracks@) == s.all(),
                places@.len() == dets@.len(),
                forall|e: int| 0 <= e < places@.len() ==> (#[trigger] places@[e]) == s.place(e),
                due@.len() == d,
                forall|e: int| 0 <= e < d ==> (#[trigger] due@[e]) == s.due(params.every, e),
                boxes@ == s.due_among(params.every, d as int),
            decreases dets.len() - d,
        {
            proof {
                lemma_place(s, d as int);
                assert(tracks@.len() == faces_of(tracks@).len());
                assert(places@[d as int] == s.place(d as int));
                assert(faces_of(tracks@)[s.place(d as int)] == tracks@[s.place(d as int)]@);
            }
            let is_due: bool = tracks[places[d]].due(params.every);
            due.push(is_due);
            if is_due {
                boxes.push(dets[d].b);
            }
            d = d + 1;
        }
        Frame { tracks, aside, dets, places, due, boxes, params, faces: Ghost(followed) }
    }

    /// The boxes to score, in the order their ages are to come back.
    pub fn boxes(&self) -> (boxes: &[FaceBox])
        requires
            self.wf(),
        ensures
            boxes@ == self.sight().wanted(self.params().every),
    {
        self.boxes.as_slice()
    }
}

impl Sighting {
    /// Face `k` once the first `n` boxes have been seen to.
    spec fn touched(self, every: u32, ages: Seq<Num>, n: int, k: int) -> Face {
        if self.seen_by(n, k) {
            let d = self.box_of(k);
            if self.due(every, d) {
                self.all()[k].with_score(ages[self.due_before(every, d)]).moved(self.dets[d])
            } else {
                self.all()[k].moved(self.dets[d])
            }
        } else {
            self.all()[k]
        }
    }
}

/// The box at face `place(d)` is `d`.
proof fn lemma_box_of(s: Sighting, d: int)
    requires
        s.wf(),
        0 <= d < s.dets.len(),
    ensures
        s.seen(s.place(d)),
        s.box_of(s.place(d)) == d,
{
    lemma_place(s, d);
}

/// Seeing to one more box touches its face and no other.
proof fn lemma_touched(s: Sighting, every: u32, ages: Seq<Num>, n: int)
    requires
        s.wf(),
        0 <= n < s.dets.len(),
    ensures
        s.touched(every, ages, n, s.place(n)) == s.all()[s.place(n)],
        s.touched(every, ages, n + 1, s.place(n)) == if s.due(every, n) {
            s.all()[s.place(n)].with_score(ages[s.due_before(every, n)]).moved(s.dets[n])
        } else {
            s.all()[s.place(n)].moved(s.dets[n])
        },
        forall|k: int|
            k != s.place(n) ==> #[trigger] s.touched(every, ages, n + 1, k) == s.touched(
                every,
                ages,
                n,
                k,
            ),
        s.seen_by(n + 1, s.place(n)),
        forall|k: int|
            k != s.place(n) ==> #[trigger] s.seen_by(n + 1, k) == s.seen_by(n, k),
{
    lemma_box_of(s, n);
    lemma_place(s, n);
    let at = s.place(n);
    assert(!s.seen_by(n, at));
    assert(s.seen_by(n + 1, at));
    assert forall|k: int| k != at implies #[trigger] s.seen_by(n + 1, k) == s.seen_by(n, k) by {
        if s.seen_by(n, k) {
            let d = choose|d: int| 0 <= d < n && #[trigger] s.place(d) == k;
            assert(0 <= d < n + 1 && s.place(d) == k);
        }
    }
    assert forall|k: int| k != at implies #[trigger] s.touched(every, ages, n + 1, k)
        == s.touched(every, ages, n, k) by {
        assert(s.seen_by(n + 1, k) == s.seen_by(n, k));
    }
}

/// Every box seen to: the ages that came back onto the faces that were due,
/// and every face found this frame at the box this frame put it at.
fn see_to(
    tracks: &mut Vec<Track>,
    dets: &[Det],
    places: &Vec<usize>,
    due: &Vec<bool>,
    ages: &Vec<Num>,
    every: u32,
    Ghost(s): Ghost<Sighting>,
) -> (matched: Vec<bool>)
    requires
        s.wf(),
        s.dets == dets@,
        faces_of(old(tracks)@) == s.all(),
        places@.len() == dets@.len(),
        due@.len() == dets@.len(),
        forall|d: int| 0 <= d < places@.len() ==> (#[trigger] places@[d]) == s.place(d),
        forall|d: int| 0 <= d < due@.len() ==> (#[trigger] due@[d]) == s.due(every, d),
        ages@.len() == s.due_before(every, dets@.len() as int),
        forall|k: int| 0 <= k < old(tracks)@.len() ==> (#[trigger] old(tracks)@[k]).missed
            < u32::MAX,
    ensures
        final(tracks)@.len() == s.all().len(),
        forall|k: int|
            0 <= k < s.all().len() ==> (#[trigger] final(tracks)@[k])@ == s.touched(
                every,
                ages@,
                dets@.len() as int,
                k,
            ),
        forall|k: int| 0 <= k < final(tracks)@.len() ==> (#[trigger] final(tracks)@[k]).missed
            < u32::MAX,
        matched@.len() == s.all().len(),
        forall|k: int| 0 <= k < s.all().len() ==> (#[trigger] matched@[k]) == s.seen(k),
{
    let mut matched: Vec<bool> = Vec::new();
    let mut k: usize = 0;
    while k < tracks.len()
        invariant
            k <= tracks@.len(),
            matched@.len() == k,
            forall|j: int| 0 <= j < k ==> !(#[trigger] matched@[j]),
        decreases tracks@.len() - k,
    {
        matched.push(false);
        k = k + 1;
    }
    let mut d: usize = 0;
    let mut scored: usize = 0;
    proof {
        assert(tracks@.len() == faces_of(tracks@).len());
        assert forall|k: int| 0 <= k < s.all().len() implies (#[trigger] tracks@[k])@
            == s.touched(every, ages@, 0, k) by {
            assert(faces_of(tracks@)[k] == tracks@[k]@);
            assert(!s.seen_by(0, k));
        }
        assert forall|k: int| 0 <= k < s.all().len() implies (#[trigger] matched@[k])
            == s.seen_by(0, k) by {
            assert(!s.seen_by(0, k));
        }
    }
    while d < dets.len()
        invariant
            d <= dets.len(),
            s.wf(),
            s.dets == dets@,
            places@.len() == dets@.len(),
            due@.len() == dets@.len(),
            forall|d: int| 0 <= d < places@.len() ==> (#[trigger] places@[d]) == s.place(d),
            forall|d: int| 0 <= d < due@.len() ==> (#[trigger] due@[d]) == s.due(every, d),
            ages@.len() == s.due_before(every, dets@.len() as int),
            scored == s.due_before(every, d as int),
            tracks@.len() == s.all().len(),
            matched@.len() == s.all().len(),
            forall|k: int|
                0 <= k < s.all().len() ==> (#[trigger] tracks@[k])@ == s.touched(
                    every,
                    ages@,
                    d as int,
                    k,
                ),
            forall|k: int| 0 <= k < tracks@.len() ==> (#[trigger] tracks@[k]).missed < u32::MAX,
            forall|k: int|
                0 <= k < s.all().len() ==> (#[trigger] matched@[k]) == s.seen_by(d as int, k),
        decreases dets.len() - d,
    {
        let at: usize = places[d];
        proof {
            lemma_place(s, d as int);
            lemma_touched(s, every, ages@, d as int);
            lemma_due(s, every, d as int);
            lemma_due_grows(s, every, d + 1, dets@.len() as int);
            assert(at == s.place(d as int));
        }
        let ghost before = tracks@;
        let ghost flags = matched@;
        matched.set(at, true);
        let track: &mut Track = &mut tracks[at];
        if due[d] {
            track.scored(ages[scored]);
            scored = scored + 1;
        }
        track.b = dets[d].b;
        track.conf = dets[d].conf;
        track.missed = 0;
        proof {
            assert forall|k: int| 0 <= k < s.all().len() implies (#[trigger] tracks@[k])@
                == s.touched(every, ages@, d + 1, k) by {
                if k != at {
                    assert(tracks@[k] == before[k]);
                }
            }
            assert forall|k: int| 0 <= k < s.all().len() implies (#[trigger] matched@[k])
                == s.seen_by(d + 1, k) by {
                if k != at {
                    assert(matched@[k] == flags[k]);
                    assert(s.seen_by(d + 1, k) == s.seen_by(d as int, k));
                }
            }
        }
        d = d + 1;
    }
    matched
}

/// A frame gone by for every face: the ones the detector lost missed once
/// more.
fn pass(tracks: &mut Vec<Track>, matched: &Vec<bool>)
    requires
        matched@.len() == old(tracks)@.len(),
        forall|k: int| 0 <= k < old(tracks)@.len() ==> (#[trigger] old(tracks)@[k]).missed
            < u32::MAX,
    ensures
        final(tracks)@.len() == old(tracks)@.len(),
        forall|k: int|
            0 <= k < final(tracks)@.len() ==> (#[trigger] final(tracks)@[k])@ == if matched@[k] {
                old(tracks)@[k]@.a_frame_on()
            } else {
                old(tracks)@[k]@.lost()
            },
{
    let mut k: usize = 0;
    while k < tracks.len()
        invariant
            k <= tracks@.len(),
            tracks@.len() == old(tracks)@.len(),
            matched@.len() == old(tracks)@.len(),
            forall|j: int| 0 <= j < old(tracks)@.len() ==> (#[trigger] old(tracks)@[j]).missed
                < u32::MAX,
            forall|j: int| k <= j < tracks@.len() ==> #[trigger] tracks@[j] == old(tracks)@[j],
            forall|j: int|
                0 <= j < k ==> (#[trigger] tracks@[j])@ == if matched@[j] {
                    old(tracks)@[j]@.a_frame_on()
                } else {
                    old(tracks)@[j]@.lost()
                },
        decreases tracks@.len() - k,
    {
        let ghost before = tracks@;
        assert(before[k as int] == old(tracks)@[k as int]);
        let track: &mut Track = &mut tracks[k];
        if !matched[k] {
            track.missed = track.missed + 1;
        }
        track.since = track.since.saturating_add(1);
        proof {
            assert forall|j: int| k < j < tracks@.len() implies #[trigger] tracks@[j] == old(
                tracks,
            )@[j] by {
                assert(tracks@[j] == before[j]);
            }
            assert forall|j: int| 0 <= j < k implies (#[trigger] tracks@[j])@ == if matched@[j] {
                old(tracks)@[j]@.a_frame_on()
            } else {
                old(tracks)@[j]@.lost()
            } by {
                assert(tracks@[j] == before[j]);
            }
        }
        k = k + 1;
    }
}

/// Past `hold` frames unmatched a face is gone. With `hold` 0 a face the
/// detector did not find this frame is gone at once.
fn retain(tracks: &mut Vec<Track>, hold: u32)
    ensures
        faces_of(final(tracks)@) == faces_of(old(tracks)@).filter(
            |face: Face| face.missed <= hold,
        ),
{
    let ghost faces = faces_of(tracks@);
    let ghost keep = |face: Face| face.missed <= hold;
    let ghost mut gone: int = 0;
    let mut i: usize = 0;
    proof {
        assert(faces.take(0).filter(keep) =~= seq![]) by {
            reveal(Seq::filter);
        }
        assert(faces_of(tracks@) =~= faces.take(0).filter(keep) + faces.skip(0));
    }
    while i < tracks.len()
        invariant
            i <= tracks@.len(),
            keep == (|face: Face| face.missed <= hold),
            0 <= gone,
            i + gone <= faces.len(),
            tracks@.len() == faces.len() - gone,
            faces.take(i + gone).filter(keep).len() == i,
            faces_of(tracks@) == faces.take(i + gone).filter(keep) + faces.skip(i + gone),
        decreases tracks@.len() - i,
    {
        let ghost j = i + gone;
        let ghost front = faces.take(j).filter(keep);
        let ghost before = tracks@;
        proof {
            assert(faces_of(before)[i as int] == before[i as int]@);
            assert(faces_of(before)[i as int] == faces.skip(j)[0]);
            assert(faces.take(j + 1).drop_last() =~= faces.take(j));
            assert(faces.take(j + 1).last() == faces[j]);
            reveal(Seq::filter);
        }
        if tracks[i].missed > hold {
            let _ = tracks.remove(i);
            proof {
                assert(faces_of(tracks@) =~= faces_of(before).remove(i as int));
                assert(faces_of(tracks@) =~= front + faces.skip(j + 1));
                gone = gone + 1;
            }
        } else {
            assert(faces_of(tracks@) =~= front.push(faces[j]) + faces.skip(j + 1));
            i = i + 1;
        }
    }
    proof {
        assert(faces.take(i + gone) =~= faces);
        assert(faces_of(tracks@) =~= faces.filter(keep));
    }
}

/// Every face still on the picture, as a row.
fn rows_of(tracks: &Vec<Track>) -> (rows: Vec<Row>)
    ensures
        said(rows@) == told(faces_of(tracks@)),
{
    let mut rows: Vec<Row> = Vec::new();
    let mut i: usize = 0;
    while i < tracks.len()
        invariant
            i <= tracks@.len(),
            rows@.len() == i,
            forall|j: int| 0 <= j < i ==> (#[trigger] rows@[j])@ == tracks@[j]@.told(),
        decreases tracks@.len() - i,
    {
        rows.push(tracks[i].row());
        i = i + 1;
    }
    assert(said(rows@) =~= told(faces_of(tracks@)));
    rows
}

fn miscounted_text(asked: usize, came: usize) -> (message: String)
    ensures
        message@ == miscounted(asked as int, came as int),
{
    let mut message: String = "ages: ".to_owned();
    message.append(decimal_text(asked as u64).as_str());
    message.append(" crops went to the graph and ");
    message.append(decimal_text(came as u64).as_str());
    message.append(" ages came back");
    message
}

/// The faces of a frame that went wrong.
fn left_alone(aside: Vec<Track>, tracks: Vec<Track>) -> (left: Vec<Track>)
    requires
        forall|k: int| 0 <= k < aside@.len() ==> (#[trigger] aside@[k]).missed < u32::MAX,
        forall|k: int| 0 <= k < tracks@.len() ==> (#[trigger] tracks@[k]).missed < u32::MAX,
    ensures
        faces_of(left@) == faces_of(aside@) + faces_of(tracks@),
        forall|k: int| 0 <= k < left@.len() ==> (#[trigger] left@[k]).missed < u32::MAX,
{
    let mut left: Vec<Track> = aside;
    let mut tracks: Vec<Track> = tracks;
    let ghost (first, after_it) = (left@, tracks@);
    left.append(&mut tracks);
    assert(left@ == first + after_it);
    assert(faces_of(left@) =~= faces_of(first) + faces_of(after_it));
    assert forall|k: int| 0 <= k < left@.len() implies (#[trigger] left@[k]).missed < u32::MAX by {
        if k < first.len() {
            assert(left@[k] == first[k]);
        } else {
            assert(left@[k] == after_it[k - first.len()]);
        }
    }
    left
}

impl<'a> Frame<'a> {
    /// The rest of the frame, by what came back for the boxes to score: the
    /// faces followed from here on, and a row for each of them, or what went
    /// wrong.
    pub fn finish(self, answer: Result<Vec<Num>, String>) -> (r: (
        Vec<Track>,
        Result<Vec<Row>, String>,
    ))
        requires
            self.wf(),
        ensures
            given_back(r.0@, r.1) == outcome(self.sight(), self.params(), answered(answer)),
            r.1 is Ok ==> forall|k: int| 0 <= k < r.0@.len() ==> (#[trigger] r.0@[k]).missed
                <= self.params().hold,
            r.1 is Err ==> forall|k: int| 0 <= k < r.0@.len() ==> (#[trigger] r.0@[k]).missed
                < u32::MAX,
    {
        let ghost s = self.sight();
        let params: Params = self.params;
        let mut tracks: Vec<Track> = self.tracks;
        let ages: Vec<Num> = match answer {
            Err(why) => {
                return (left_alone(self.aside, tracks), Err(why));
            },
            Ok(ages) => ages,
        };
        proof {
            lemma_due(s, params.every, s.dets.len() as int);
        }
        if ages.len() != self.boxes.len() {
            let message: String = miscounted_text(self.boxes.len(), ages.len());
            return (left_alone(self.aside, tracks), Err(message));
        }
        let matched: Vec<bool> = see_to(
            &mut tracks,
            self.dets,
            &self.places,
            &self.due,
            &ages,
            params.every,
            Ghost(s),
        );
        pass(&mut tracks, &matched);
        proof {
            let n = s.dets.len() as int;
            assert forall|k: int| 0 <= k < s.all().len() implies (#[trigger] tracks@[k])@
                == s.followed(params.every, ages@, k) by {
                if s.seen(k) {
                    let d = s.box_of(k);
                    assert(s.place(d) == k);
                    assert(s.due(params.every, d) == s.all()[k].is_due(params.every));
                }
            }
            assert(faces_of(tracks@) =~= s.after(params.every, ages@));
        }
        retain(&mut tracks, params.hold);
        let rows: Vec<Row> = rows_of(&tracks);
        proof {
            let keep = |face: Face| face.missed <= params.hold;
            let all = s.after(params.every, ages@);
            assert forall|k: int| 0 <= k < tracks@.len() implies (#[trigger] tracks@[k]).missed
                <= params.hold by {
                let kept = all.filter(keep);
                assert(faces_of(tracks@)[k] == tracks@[k]@);
                broadcast use vstd::seq_lib::group_filter_ensures;
                assert(keep(kept[k]));
            }
        }
        (tracks, Ok(rows))
    }
}

/// Whether `r` is what becomes of a frame: its boxes are matched, and it is
/// what comes of whatever `score` answers for the boxes to score, or, where
/// there are none, of no answer.
pub open spec fn advanced<S: FnOnce(&[FaceBox]) -> Result<Vec<Num>, String>>(
    faces: Seq<Face>,
    dets: Seq<Det>,
    params: Params,
    score: S,
    r: (Seq<Face>, Result<Seq<Told>, Seq<char>>),
) -> bool {
    let sight = sighted(faces, dets, params);
    let wanted = sight.wanted(params.every);
    sight.wf() && if wanted.len() == 0 {
        r == outcome(sight, params, Ok(seq![]))
    } else {
        exists|boxes: &[FaceBox], answer: Result<Vec<Num>, String>|
            boxes@ == wanted && #[trigger] call_ensures(score, (boxes,), answer) && r == outcome(
                sight,
                params,
                answered(answer),
            )
    }
}

/// A face that a filter leaves is one of those it was given.
pub proof fn lemma_filtered_is_there(all: Seq<Face>, keep: spec_fn(Face) -> bool, i: int)
    requires
        0 <= i < all.filter(keep).len(),
    ensures
        all.contains(all.filter(keep)[i]),
    decreases all.len(),
{
    reveal(Seq::filter);
    if all.len() > 0 {
        let front = all.drop_last();
        if i < front.filter(keep).len() {
            lemma_filtered_is_there(front, keep, i);
            let k = choose|k: int| 0 <= k < front.len() && front[k] == front.filter(keep)[i];
            assert(all[k] == front.filter(keep)[i]);
        } else {
            assert(all[all.len() - 1] == all.filter(keep)[i]);
        }
    }
}

proof fn lemma_joined_wf(s: Sighting, n: int)
    requires
        0 <= n,
        forall|k: int| 0 <= k < s.faces.len() ==> (#[trigger] s.faces[k]).wf(),
    ensures
        forall|k: int| 0 <= k < s.joined(n).len() ==> (#[trigger] s.joined(n)[k]).wf(),
    decreases n,
{
    if n > 0 {
        lemma_joined_wf(s, n - 1);
        assert forall|k: int| 0 <= k < s.joined(n).len() implies (#[trigger] s.joined(n)[k]).wf()
            by {
            if k < s.joined(n - 1).len() {
                assert(s.joined(n - 1)[k].wf());
            }
        }
    }
}

/// However a frame goes, no face comes to hold more scores than it remembers.
pub proof fn law_no_face_holds_too_many_scores(
    s: Sighting,
    params: Params,
    answer: Result<Seq<Num>, Seq<char>>,
    i: int,
)
    requires
        forall|k: int| 0 <= k < s.faces.len() ==> (#[trigger] s.faces[k]).wf(),
        forall|k: int| 0 <= k < s.aside.len() ==> (#[trigger] s.aside[k]).wf(),
        0 <= i < outcome(s, params, answer).0.len(),
    ensures
        outcome(s, params, answer).0[i].wf(),
{
    lemma_joined_wf(s, s.dets.len() as int);
    let after = outcome(s, params, answer).0;
    if answer is Ok && answer->Ok_0.len() == s.wanted(params.every).len() {
        let ages = answer->Ok_0;
        let all = s.after(params.every, ages);
        let keep = |face: Face| face.missed <= params.hold;
        lemma_filtered_is_there(all, keep, i);
        let k = choose|k: int| 0 <= k < all.len() && all[k] == after[i];
        assert(s.all()[k].wf());
        assert(all[k] == s.followed(params.every, ages, k));
    } else if i < s.aside.len() {
        assert(after[i] == s.aside[i]);
    } else {
        assert(after[i] == s.all()[i - s.aside.len()]);
    }
}

/// One frame: the boxes matched to the faces being followed, the ones due a
/// score scored, and a row for every face still on the picture. With `hold` 0
/// no face is followed from the frame before: every box is a new one. A frame
/// that goes wrong leaves the faces as they were, and the new ones after them.
///
/// `score` is handed the boxes to run, in the order they are to come back, and
/// is the only part of this that needs the graph - which is what lets the
/// following, the cadence and the carry-forward be used without one. It is
/// not called at all when nothing is due.
pub fn advance<S: FnOnce(&[FaceBox]) -> Result<Vec<Num>, String>>(
    tracks: &mut Vec<Track>,
    dets: &[Det],
    params: Params,
    score: S,
) -> (rows: Result<Vec<Row>, String>)
    requires
        forall|k: int| 0 <= k < old(tracks)@.len() ==> (#[trigger] old(tracks)@[k]).missed
            < u32::MAX,
        ({
            let wanted = sighted(faces_of(old(tracks)@), dets@, params).wanted(params.every);
            wanted.len() > 0 ==> forall|boxes: &[FaceBox]|
                boxes@ == wanted ==> #[trigger] call_requires(score, (boxes,))
        }),
    ensures
        advanced(faces_of(old(tracks)@), dets@, params, score, given_back(final(tracks)@, rows)),
        (forall|k: int| 0 <= k < old(tracks)@.len() ==> (#[trigger] old(tracks)@[k])@.wf())
            ==> forall|k: int|
            0 <= k < final(tracks)@.len() ==> (#[trigger] final(tracks)@[k])@.wf(),
        rows is Ok ==> forall|k: int|
            0 <= k < final(tracks)@.len() ==> (#[trigger] final(tracks)@[k]).missed
                <= params.hold,
        rows is Err ==> forall|k: int|
            0 <= k < final(tracks)@.len() ==> (#[trigger] final(tracks)@[k]).missed < u32::MAX,
{
    let mut held: Vec<Track> = Vec::new();
    std::mem::swap(tracks, &mut held);
    let frame: Frame = Frame::begin(held, dets, params);
    let answer: Result<Vec<Num>, String> = if frame.boxes().len() == 0 {
        Ok(Vec::new())
    } else {
        score(frame.boxes())
    };
    proof {
        if frame.sight().wanted(params.every).len() == 0 {
            assert(answered(answer) == Ok::<Seq<Num>, Seq<char>>(seq![]));
        }
    }
    let ghost sight = frame.sight();
    let ghost came = answered(answer);
    let (left, rows) = frame.finish(answer);
    proof {
        let faces = faces_of(old(tracks)@);
        if forall|k: int| 0 <= k < old(tracks)@.len() ==> (#[trigger] old(tracks)@[k])@.wf() {
            assert forall|k: int| 0 <= k < faces.len() implies (#[trigger] faces[k]).wf() by {
                assert(old(tracks)@[k]@.wf());
            }
            assert forall|k: int| 0 <= k < left@.len() implies (#[trigger] left@[k])@.wf() by {
                assert(faces_of(left@)[k] == left@[k]@);
                law_no_face_holds_too_many_scores(sight, params, came, k);
            }
        }
    }
    *tracks = left;
    rows
}

/// What a frame gives is looked at whole: every track as what it holds, every
/// row as what it says, every age that came back, and what went wrong.
pub proof fn law_what_is_given_back_is_all_of_it(
    tracks: Seq<Track>,
    rows: Result<Vec<Row>, String>,
    answer: Result<Vec<Num>, String>,
)
    ensures
        given_back(tracks, rows).0.len() == tracks.len(),
        forall|k: int|
            0 <= k < tracks.len() ==> given_back(tracks, rows).0[k] == (#[trigger] tracks[k])@,
        match rows {
            Ok(rows) => {
                let says = given_back(tracks, Ok(rows)).1;
                &&& says is Ok && says->Ok_0.len() == rows@.len()
                &&& forall|i: int|
                    0 <= i < rows@.len() ==> says->Ok_0[i] == (#[trigger] rows@[i])@
            },
            Err(why) => given_back(tracks, Err(why)).1 == Err::<Seq<Told>, _>(why@),
        },
        match answer {
            Ok(ages) => answered(Ok(ages)) == Ok::<_, Seq<char>>(ages@),
            Err(why) => answered(Err(why)) == Err::<Seq<Num>, _>(why@),
        },
{
}

} // verus!
