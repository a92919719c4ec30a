//! One stream: what it is, what it is opened with, and what is kept of it from
//! frame to frame.
use crate::boxes::FaceBox;
use crate::face::{Det, Row, Track};
use crate::graph::{Input, Session};
use crate::matching::faces_of;
use crate::number::Num;
use crate::params::{comes_to, parse_params, readable, Given, Params, PARAMS_SCHEMA};
use crate::rows::{faces_read, found_landed, landed, on_picture, read_rows, InRow, ROWS_SCHEMA};
use crate::tracker::{advance, advanced, given_back, sighted};
use vstd::prelude::*;
use vstd::string::StringExecFns;

verus! {

/// The pixel format a frame arrives in.
pub const PIXELS: &'static str = "rgba";

/// What a host is told of the module.
#[derive(Debug)]
pub struct Description {
    pub name: &'static str,
    pub version: &'static str,
    pub params_schema: &'static str,
    pub rows_schema: &'static str,
    pub pixel_formats: Vec<&'static str>,
    /// Of sound, which the module does not read.
    pub sample_formats: Vec<&'static str>,
    pub sample_rates: Vec<u32>,
    pub channel_counts: Vec<u32>,
    /// Of text, which its rows do not hold.
    pub rows_language: Vec<&'static str>,
    pub window: u32,
    pub stride: u32,
    /// Whether a call depends on what it was handed alone.
    pub pure: bool,
    pub one_to_one: bool,
    pub reads_rows: bool,
    pub forwards_rows: bool,
    pub inputs: u32,
}

/// What a host is told of the module.
pub fn describe() -> (told: Description)
    ensures
        told.name@ == "ages"@,
        told.version@ == "0.1.0"@,
        told.params_schema@ == PARAMS_SCHEMA@,
        told.rows_schema@ == ROWS_SCHEMA@,
        told.pixel_formats@ == seq![PIXELS],
        told.pixel_formats@[0]@ == PIXELS@,
        told.sample_formats@.len() == 0,
        told.sample_rates@.len() == 0,
        told.channel_counts@.len() == 0,
        told.rows_language@.len() == 0,
        told.window == 1,
        told.stride == 1,
        !told.pure,
        told.one_to_one,
        told.reads_rows,
        !told.forwards_rows,
        told.inputs == 1,
{
    let mut pixel_formats: Vec<&'static str> = Vec::new();
    pixel_formats.push(PIXELS);
    Description {
        name: "ages",
        version: "0.1.0",
        params_schema: PARAMS_SCHEMA,
        rows_schema: ROWS_SCHEMA,
        pixel_formats,
        sample_formats: Vec::new(),
        sample_rates: Vec::new(),
        channel_counts: Vec::new(),
        rows_language: Vec::new(),
        window: 1,
        stride: 1,
        // A call does NOT depend only on what it was handed: a face is
        // followed from the frame before, and its age is the mean of what it
        // has scored since. Declaring this pure lets the host share the stream
        // out among parallel instances, and then each instance sees every
        // second or fourth frame - on which two people standing in the same
        // place ARE one face by overlap, and their ages are averaged together.
        // False is what makes the host host this serially, which is the only
        // way a tracker is right.
        pure: false,
        one_to_one: true,
        // The boxes to score arrive as the rows riding each frame.
        reads_rows: true,
        // And what leaves is this module's own: the same faces, aged.
        forwards_rows: false,
        inputs: 1,
    }
}

/// What a stream carries.
#[derive(Debug)]
pub enum Format {
    Audio,
    Video { pix_fmt: String, width: u32, height: u32 },
}

/// What a stream was opened with, plus what the run has learned since.
#[derive(Debug)]
pub struct Stream {
    pub width: usize,
    pub height: usize,
    pub params: Params,
    /// What the run has learned about the graph.
    pub session: Session,
    /// The faces being followed.
    pub tracks: Vec<Track>,
}

impl Stream {
    /// The params are as published, no face has more scores than are
    /// remembered, and none is held longer than one can be.
    pub open spec fn wf(self) -> bool {
        &&& self.params.wf()
        &&& forall|k: int|
            0 <= k < self.tracks@.len() ==> (#[trigger] self.tracks@[k])@.wf()
                && self.tracks@[k].missed < u32::MAX
    }

    /// A stream as it is opened: frames of pixels this module reads, and
    /// params that come to something. Nothing has been learned, and no face is
    /// followed.
    pub fn open<R: FnOnce(&str) -> Result<Given, String>, S: FnOnce(Num) -> String>(
        format: Format,
        params: &str,
        read: R,
        show: S,
    ) -> (r: Result<Stream, String>)
        requires
            readable(params@, read, show),
        ensures
            match format {
                Format::Audio => r is Err && r->Err_0@
                    == "ages reads frames, and this stream is audio"@,
                Format::Video { pix_fmt, width, height } => if pix_fmt@ != PIXELS@ {
                    r is Err && r->Err_0@ == "ages does not accept pixel format "@ + pix_fmt@
                } else {
                    match r {
                        Ok(stream) => {
                            &&& comes_to(params@, read, show, Ok(stream.params))
                            &&& stream.width == width
                            &&& stream.height == height
                            &&& stream.session == (Session { input: Input::Name, batched: true })
                            &&& stream.tracks@.len() == 0
                            &&& stream.wf()
                        },
                        Err(why) => comes_to(params@, read, show, Err(why@)),
                    }
                },
            },
    {
        let (pix_fmt, width, height): (String, u32, u32) = match format {
            Format::Audio => {
                return Err("ages reads frames, and this stream is audio".to_owned());
            },
            Format::Video { pix_fmt, width, height } => (pix_fmt, width, height),
        };
        if pix_fmt != PIXELS.to_owned() {
            let mut message: String = "ages does not accept pixel format ".to_owned();
            message.append(pix_fmt.as_str());
            return Err(message);
        }
        let parsed: Result<Params, String> = parse_params(params, read, show);
        match parsed {
            Ok(params) => Ok(
                Stream {
                    width: width as usize,
                    height: height as usize,
                    params,
                    session: Session::new(),
                    tracks: Vec::new(),
                },
            ),
            Err(why) => Err(why),
        }
    }

    /// The params changed while the stream runs: the faces being followed, and
    /// what was learned of the graph, stay. Params that come to nothing change
    /// nothing.
    pub fn set_params<R: FnOnce(&str) -> Result<Given, String>, S: FnOnce(Num) -> String>(
        &mut self,
        params: &str,
        read: R,
        show: S,
    ) -> (r: Result<(), String>)
        requires
            readable(params@, read, show),
        ensures
            match r {
                Ok(_) => {
                    &&& comes_to(params@, read, show, Ok(final(self).params))
                    &&& *final(self) == (Stream { params: final(self).params, ..*old(self) })
                    &&& old(self).wf() ==> final(self).wf()
                },
                Err(why) => comes_to(params@, read, show, Err(why@)) && *final(self) == *old(
                    self,
                ),
            },
    {
        match parse_params(params, read, show) {
            Ok(parsed) => {
                self.params = parsed;
                Ok(())
            },
            Err(why) => Err(why),
        }
    }

    /// One frame's rows in, its rows out: those that are faces read as boxes,
    /// the boxes that land on the picture followed. A row that did not read as
    /// an object with four coordinates is handed over as none. `lands` says
    /// whether anything of a box is on the picture, and `score` is handed the
    /// boxes to score; it is called only where there are any.
    pub fn run<
        K: Fn(FaceBox) -> bool,
        S: FnOnce(&[FaceBox]) -> Result<Vec<Num>, String>,
    >(&mut self, rows: &[Option<InRow>], lands: K, score: S) -> (r: Result<Vec<Row>, String>)
        requires
            old(self).wf(),
            forall|i: int|
                0 <= i < faces_read(rows@).len() ==> call_requires(
                    lands,
                    ((#[trigger] faces_read(rows@)[i]).b,),
                ),
            forall|found: Seq<bool>, boxes: &[FaceBox]|
                found_landed(faces_read(rows@), lands, found) && boxes@.len() > 0 && boxes@
                    == sighted(
                    faces_of(old(self).tracks@),
                    #[trigger] landed(faces_read(rows@), found),
                    old(self).params,
                ).wanted(old(self).params.every) ==> #[trigger] call_requires(score, (boxes,)),
        ensures
            final(self).wf(),
            *final(self) == (Stream { tracks: final(self).tracks, ..*old(self) }),
            exists|found: Seq<bool>|
                found_landed(faces_read(rows@), lands, found) && advanced(
                    faces_of(old(self).tracks@),
                    #[trigger] landed(faces_read(rows@), found),
                    old(self).params,
                    score,
                    given_back(final(self).tracks@, r),
                ),
    {
        let read: Vec<Det> = read_rows(rows);
        let dets: Vec<Det> = on_picture(read.as_slice(), lands);
        advance(&mut self.tracks, dets.as_slice(), self.params, score)
    }
}

} // verus!
