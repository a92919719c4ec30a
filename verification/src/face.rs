//! One face followed across frames: where it was last seen, and what it has
//! scored.
use crate::arithmetic::count_of;
use crate::boxes::FaceBox;
use crate::number::{clamped, Num, SIGN};
use std::collections::VecDeque;
use vstd::prelude::*;

verus! {

/// The class every row carries. The boxes read are faces and the rows written
/// are the same faces.
pub const FACE: &'static str = "face";

/// How many of a face's own scores its age is the mean of.
pub const MEMORY: usize = 30;

/// One face the detector reported on this frame.
#[derive(Clone, Copy, Debug, PartialEq, Eq)]
pub struct Det {
    pub conf: Num,
    pub b: FaceBox,
}

/// One face followed across frames.
#[derive(Debug)]
pub struct Track {
    /// Where it was last seen.
    pub b: FaceBox,
    /// How sure the detector was of it.
    pub conf: Num,
    /// Its last `MEMORY` scores, oldest first.
    pub scores: VecDeque<Num>,
    /// Frames since it was last scored.
    pub since: u32,
    /// Consecutive frames the detector has not found it.
    pub missed: u32,
}

/// What a track holds.
#[verifier::ext_equal]
pub struct Face {
    pub b: FaceBox,
    pub conf: Num,
    pub scores: Seq<Num>,
    pub since: nat,
    pub missed: nat,
}

impl View for Track {
    type V = Face;

    open spec fn view(&self) -> Face {
        Face {
            b: self.b,
            conf: self.conf,
            scores: self.scores@,
            since: self.since as nat,
            missed: self.missed as nat,
        }
    }
}

/// One row of a frame: the box a face is at, with its age.
#[derive(Debug)]
pub struct Row {
    pub class: String,
    pub conf: Num,
    pub x: i64,
    pub y: i64,
    pub w: i64,
    pub h: i64,
    pub age: Num,
}

/// What a row says.
#[verifier::ext_equal]
pub struct Told {
    pub class: Seq<char>,
    pub conf: Num,
    pub x: int,
    pub y: int,
    pub w: int,
    pub h: int,
    pub age: Num,
}

impl View for Row {
    type V = Told;

    open spec fn view(&self) -> Told {
        Told {
            class: self.class@,
            conf: self.conf,
            x: self.x as int,
            y: self.y as int,
            w: self.w as int,
            h: self.h as int,
            age: self.age,
        }
    }
}

/// The sum of numbers, taken in order; of none, a negative zero.
pub open spec fn total(numbers: Seq<Num>) -> Num
    decreases numbers.len(),
{
    if numbers.len() == 0 {
        Num { bits: SIGN }
    } else {
        total(numbers.drop_last()).plus(numbers.last())
    }
}

/// A number to so many places, `places` being that power of ten.
pub open spec fn to_places(a: Num, places: int) -> Num {
    a.times(count_of(places)).to_integer().over(count_of(places))
}

/// The pixel a number falls on.
pub open spec fn pixel_of(a: Num) -> int {
    if a.is_nan() {
        0
    } else {
        clamped(a.nearest())
    }
}

/// The last `MEMORY` of what a face has scored.
pub open spec fn remembered(scores: Seq<Num>) -> Seq<Num> {
    if scores.len() <= MEMORY {
        scores
    } else {
        scores.skip(scores.len() - MEMORY)
    }
}

/// A face not seen before.
pub open spec fn new_face(det: Det) -> Face {
    Face { b: det.b, conf: det.conf, scores: seq![], since: 0, missed: 0 }
}

impl Face {
    /// No more scores than are remembered.
    pub open spec fn wf(self) -> bool {
        self.scores.len() <= MEMORY
    }

    /// The face with one more score.
    pub open spec fn with_score(self, age: Num) -> Face {
        Face {
            scores: if self.scores.len() == MEMORY {
                self.scores.skip(1).push(age)
            } else {
                self.scores.push(age)
            },
            since: 0,
            ..self
        }
    }

    /// Whether the face is due a score.
    pub open spec fn is_due(self, every: u32) -> bool {
        self.scores.len() == 0 || self.since >= every
    }

    /// The mean of what the face has scored.
    pub open spec fn mean(self) -> Num {
        total(self.scores).over(
            count_of(
                if self.scores.len() == 0 {
                    1
                } else {
                    self.scores.len() as int
                },
            ),
        )
    }

    /// The age the face reports.
    pub open spec fn reported(self) -> Num {
        to_places(self.mean(), 10)
    }

    /// The row the face is written as.
    pub open spec fn told(self) -> Told {
        Told {
            class: FACE@,
            conf: to_places(self.conf, 10_000),
            x: pixel_of(self.b.0),
            y: pixel_of(self.b.1),
            w: pixel_of(self.b.2),
            h: pixel_of(self.b.3),
            age: self.reported(),
        }
    }
}

fn rounded_to(a: Num, places: u64) -> (r: Num)
    ensures
        r == to_places(a, places as int),
{
    a.mul(Num::count(places)).round().div(Num::count(places))
}

impl Track {
    pub fn new(det: Det) -> (track: Track)
        ensures
            track@ == new_face(det),
    {
        Track {
            b: det.b,
            conf: det.conf,
            scores: VecDeque::with_capacity(MEMORY),
            since: 0,
            missed: 0,
        }
    }

    /// One more score, the oldest dropped once there are `MEMORY` of them.
    pub fn scored(&mut self, age: Num)
        ensures
            final(self)@ == old(self)@.with_score(age),
    {
        if self.scores.len() == MEMORY {
            let _ = self.scores.pop_front();
            assert(self.scores@ =~= old(self)@.scores.skip(1));
        }
        self.scores.push_back(age);
        self.since = 0;
    }

    /// The age this face reports: the mean of what it has scored, to one
    /// decimal, since neither the model nor the mean of a handful of its
    /// answers says anything finer.
    pub fn age(&self) -> (age: Num)
        ensures
            age == self@.reported(),
    {
        let mut sum: Num = Num { bits: SIGN };
        let mut i: usize = 0;
        assert(self.scores@.take(0) =~= seq![]);
        while i < self.scores.len()
            invariant
                i <= self.scores@.len(),
                sum == total(self.scores@.take(i as int)),
            decreases self.scores@.len() - i,
        {
            sum = sum.add(self.scores[i]);
            assert(self.scores@.take(i + 1).drop_last() =~= self.scores@.take(i as int));
            i = i + 1;
        }
        assert(self.scores@.take(i as int) =~= self.scores@);
        let held: u64 = if self.scores.len() == 0 {
            1
        } else {
            self.scores.len() as u64
        };
        rounded_to(sum.div(Num::count(held)), 10)
    }

    /// Whether this face is due a score: always the first time, and then
    /// whenever `every` frames have gone by since the last one.
    pub fn due(&self, every: u32) -> (yes: bool)
        ensures
            yes == self@.is_due(every),
    {
        self.scores.len() == 0 || self.since >= every
    }

    /// The row this face is written as. The confidence is to four places: the
    /// detector's own precision is nowhere near the sixteen digits a number of
    /// half the width prints.
    pub fn row(&self) -> (row: Row)
        ensures
            row@ == self@.told(),
    {
        Row {
            class: FACE.to_owned(),
            conf: rounded_to(self.conf, 10_000),
            x: self.b.0.pixel(),
            y: self.b.1.pixel(),
            w: self.b.2.pixel(),
            h: self.b.3.pixel(),
            age: self.age(),
        }
    }
}

/// A track is looked at as what it holds, and a row as what it says, with
/// nothing left out.
pub proof fn law_nothing_is_left_out(track: Track, row: Row)
    ensures
        track@.b == track.b && track@.conf == track.conf && track@.scores == track.scores@,
        track@.since == track.since && track@.missed == track.missed,
        row@.class == row.class@ && row@.conf == row.conf && row@.age == row.age,
        row@.x == row.x && row@.y == row.y && row@.w == row.w && row@.h == row.h,
{
}

} // verus!
