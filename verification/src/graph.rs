//! The calls to the graph: how a frame's crops are put to it, what a refusal
//! leads to, and how one is spelled.
use crate::head::{blocks_of, decode, decoded, read_out, Block, Tensor, SIDE, THRESHOLDS};
use crate::text::{decimal, decimal_text, lists_of};
use vstd::prelude::*;
use vstd::string::StringExecFns;

verus! {

/// The name the host binds the graph to. `-nn ages=<path>`.
pub const MODEL: &'static str = "ages";

/// What loading it is called where it fails.
pub const LOADING: &'static str = "load-by-name(\"ages\")";

/// What the export calls its input tensor.
pub const INPUT_NAME: &'static str = "face";

/// The host accepts a position where it accepts a name, which is what an
/// export that named its input something else is reached by.
pub const INPUT_INDEX: &'static str = "0";

/// The bytes of one crop: fp32, three planes of the square.
pub const CROP_BYTES: usize = 602_112;

/// What kind of error a call was answered with.
#[derive(Clone, Copy, Debug, PartialEq, Eq, Structural)]
pub enum ErrorCode {
    InvalidArgument,
    InvalidEncoding,
    Timeout,
    RuntimeError,
    UnsupportedOperation,
    TooLarge,
    NotFound,
    Security,
    Unknown,
}

/// An error a call was answered with.
#[derive(Debug)]
pub struct NnError {
    pub code: ErrorCode,
    pub data: String,
}

/// The interface's own spelling of an error code.
pub open spec fn spelling(code: ErrorCode) -> Seq<char> {
    match code {
        ErrorCode::InvalidArgument => "invalid-argument"@,
        ErrorCode::InvalidEncoding => "invalid-encoding"@,
        ErrorCode::Timeout => "timeout"@,
        ErrorCode::RuntimeError => "runtime-error"@,
        ErrorCode::UnsupportedOperation => "unsupported-operation"@,
        ErrorCode::TooLarge => "too-large"@,
        ErrorCode::NotFound => "not-found"@,
        ErrorCode::Security => "security"@,
        ErrorCode::Unknown => "unknown"@,
    }
}

/// What is said of a call that failed.
pub open spec fn failure(what: Seq<char>, code: ErrorCode, data: Seq<char>) -> Seq<char> {
    "ages: "@ + what + ": "@ + spelling(code) + " ("@ + data + ")"@
}

/// What is said of a call that failed, in the interface's own spelling of an
/// error code, so that a message says what actually went wrong.
pub fn failed(what: &str, error: &NnError) -> (message: String)
    ensures
        message@ == failure(what@, error.code, error.data@),
{
    let code: &'static str = match error.code {
        ErrorCode::InvalidArgument => "invalid-argument",
        ErrorCode::InvalidEncoding => "invalid-encoding",
        ErrorCode::Timeout => "timeout",
        ErrorCode::RuntimeError => "runtime-error",
        ErrorCode::UnsupportedOperation => "unsupported-operation",
        ErrorCode::TooLarge => "too-large",
        ErrorCode::NotFound => "not-found",
        ErrorCode::Security => "security",
        ErrorCode::Unknown => "unknown",
    };
    let mut message: String = "ages: ".to_owned();
    message.append(what);
    message.append(": ");
    message.append(code);
    message.append(" (");
    message.append(error.data.as_str());
    message.append(")");
    message
}

/// How the graph's input is named to the host.
#[derive(Clone, Copy, Debug, PartialEq, Eq, Structural)]
pub enum Input {
    /// By the name this export gives it.
    Name,
    /// By its position.
    Position,
}

impl Input {
    /// What the host is told.
    pub fn text(self) -> (name: &'static str)
        ensures
            name@ == match self {
                Input::Name => INPUT_NAME@,
                Input::Position => INPUT_INDEX@,
            },
    {
        match self {
            Input::Name => INPUT_NAME,
            Input::Position => INPUT_INDEX,
        }
    }
}

/// What the run has learned about the graph.
#[derive(Clone, Copy, Debug, PartialEq, Eq, Structural)]
pub struct Session {
    /// What the graph calls its input, settled by the first call that works.
    pub input: Input,
    /// Whether a frame's crops still go through as one batched tensor. The
    /// model's batch dimension is dynamic; a host that will not carry one
    /// turns this off for the rest of the run.
    pub batched: bool,
}

impl Session {
    /// Before any call.
    pub fn new() -> (session: Session)
        ensures
            session == (Session { input: Input::Name, batched: true }),
    {
        Session { input: Input::Name, batched: true }
    }
}

/// The dimensions of a tensor of so many crops.
pub fn crop_dimensions(crops: usize) -> (dimensions: Vec<u32>)
    ensures
        dimensions@ == seq![crops as u32, 3, SIDE as u32, SIDE as u32],
{
    let mut dimensions: Vec<u32> = Vec::new();
    dimensions.push(#[verifier::truncate] (crops as u32));
    dimensions.push(3);
    dimensions.push(SIDE as u32);
    dimensions.push(SIDE as u32);
    assert(dimensions@ =~= seq![crops as u32, 3, SIDE as u32, SIDE as u32]);
    dimensions
}

/// How far a frame's crops have come.
#[derive(Debug)]
pub enum Phase {
    /// All of them in one call.
    Whole,
    /// One crop to a call, this one next.
    Each(usize),
    /// All scored.
    Done,
    /// One that could not be.
    Failed(String),
}

/// One call to the graph: so many crops, out of these bytes of the batch.
#[derive(Clone, Copy, Debug, PartialEq, Eq, Structural)]
pub struct Call {
    pub input: Input,
    pub crops: usize,
    pub start: usize,
    pub end: usize,
}

/// A frame's crops on their way through the graph.
#[derive(Debug)]
pub struct Scoring {
    pub session: Session,
    /// How many crops there are.
    pub crops: usize,
    /// How many bytes they are as one batch.
    pub bytes: usize,
    pub phase: Phase,
    /// Whether the call at hand was refused under the input's name, and is to
    /// be made again by its position.
    pub retrying: bool,
    /// The logits of the crops scored so far.
    pub rows: Vec<Vec<u32>>,
    /// What there is to say of a batch that was refused.
    pub notice: Option<String>,
}

/// The stages of a scoring.
pub enum Stage {
    Whole,
    Each(int),
    Done,
    Failed(Seq<char>),
}

/// What a scoring holds.
#[verifier::ext_equal]
pub struct Progress {
    pub session: Session,
    pub crops: int,
    pub bytes: int,
    pub stage: Stage,
    pub retrying: bool,
    pub rows: Seq<Seq<u32>>,
    pub notice: Option<Seq<char>>,
}

impl View for Scoring {
    type V = Progress;

    open spec fn view(&self) -> Progress {
        Progress {
            session: self.session,
            crops: self.crops as int,
            bytes: self.bytes as int,
            stage: match self.phase {
                Phase::Whole => Stage::Whole,
                Phase::Each(k) => Stage::Each(k as int),
                Phase::Done => Stage::Done,
                Phase::Failed(why) => Stage::Failed(why@),
            },
            retrying: self.retrying,
            rows: lists_of(self.rows@),
            notice: match self.notice {
                Some(notice) => Some(notice@),
                None => None,
            },
        }
    }
}

/// What is said of a batch that was refused.
pub open spec fn batch_refused(crops: int, why: Seq<char>) -> Seq<char> {
    "ages: a batch of "@ + decimal(crops as nat) + " crops was refused ("@ + why
        + "); one crop per call for the rest of this run"@
}

/// How many calls of one crop each so many bytes take.
pub open spec fn chunks(bytes: int) -> int {
    (bytes + CROP_BYTES - 1) / (CROP_BYTES as int)
}

/// Where in the batch chunk `k` begins.
pub open spec fn chunk_start(k: int) -> int {
    k * CROP_BYTES
}

/// Where in a batch of so many bytes chunk `k` ends.
pub open spec fn chunk_end(k: int, bytes: int) -> int {
    if chunk_start(k + 1) <= bytes {
        chunk_start(k + 1)
    } else {
        bytes
    }
}

/// The call for chunk `k` and those after it.
pub open spec fn from_chunk(k: int, bytes: int) -> Stage {
    if k < chunks(bytes) {
        Stage::Each(k)
    } else {
        Stage::Done
    }
}

/// A frame's crops before any call: as one tensor, where there are more than
/// one and the host has not refused that.
pub open spec fn started(session: Session, crops: int, bytes: int) -> Progress {
    Progress {
        session,
        crops,
        bytes,
        stage: if crops > 1 && session.batched {
            Stage::Whole
        } else {
            from_chunk(0, bytes)
        },
        retrying: false,
        rows: seq![],
        notice: None,
    }
}

/// What a call was answered with.
pub type Outcome = Result<Seq<Block>, (ErrorCode, Seq<char>)>;

/// The view of what a call was answered with.
pub open spec fn outcome_of(outcome: Result<Vec<Tensor>, NnError>) -> Outcome {
    match outcome {
        Ok(tensors) => Ok(blocks_of(tensors@)),
        Err(error) => Err((error.code, error.data@)),
    }
}

impl Progress {
    pub open spec fn calling(self) -> bool {
        self.stage is Whole || self.stage is Each
    }

    /// How many crops the next call is of.
    pub open spec fn asked(self) -> int {
        if self.stage is Whole {
            self.crops
        } else {
            1
        }
    }

    /// How the next call names the graph's input.
    pub open spec fn input(self) -> Input {
        if self.retrying {
            Input::Position
        } else {
            self.session.input
        }
    }

    /// After a call was answered.
    ///
    /// One refused under the name this export gives its input is made again by
    /// position. Where that works, so is every call after it; where it is
    /// refused as well, the name stays and the call has failed. A batch that
    /// fails, or that comes back as something else than its ages, goes through
    /// again one crop to a call, as do all from there on. A single crop for
    /// which that happens is one the frame cannot do without.
    pub open spec fn answered(self, outcome: Outcome) -> Progress {
        if outcome is Err && self.input() is Name {
            Progress { retrying: true, ..self }
        } else {
            let session = Session {
                input: if outcome is Ok {
                    self.input()
                } else {
                    self.session.input
                },
                ..self.session
            };
            let settled = Progress { session, retrying: false, ..self };
            let read = match outcome {
                Ok(returned) => decoded(returned, self.asked()),
                Err(error) => Err(failure("compute"@, error.0, error.1)),
            };
            match self.stage {
                Stage::Whole => match read {
                    Ok(rows) => Progress { stage: Stage::Done, rows, ..settled },
                    Err(why) => Progress {
                        session: Session { batched: false, ..session },
                        stage: from_chunk(0, self.bytes),
                        notice: Some(batch_refused(self.crops, why)),
                        ..settled
                    },
                },
                Stage::Each(k) => match read {
                    Ok(rows) => Progress {
                        stage: from_chunk(k + 1, self.bytes),
                        rows: self.rows.push(rows[0]),
                        ..settled
                    },
                    Err(why) => Progress { stage: Stage::Failed(why), ..settled },
                },
                _ => self,
            }
        }
    }
}

fn chunk_count(bytes: usize) -> (n: usize)
    ensures
        n == chunks(bytes as int),
{
    if bytes % CROP_BYTES == 0 {
        bytes / CROP_BYTES
    } else {
        bytes / CROP_BYTES + 1
    }
}

fn phase_from(k: usize, bytes: usize) -> (phase: Phase)
    ensures
        from_chunk(k as int, bytes as int) == match phase {
            Phase::Each(j) => Stage::Each(j as int),
            Phase::Done => Stage::Done,
            Phase::Whole => Stage::Whole,
            Phase::Failed(why) => Stage::Failed(why@),
        },
{
    if k < chunk_count(bytes) {
        Phase::Each(k)
    } else {
        Phase::Done
    }
}

impl Scoring {
    /// A scoring under way: the chunk it is at is one of the batch's.
    pub open spec fn wf(self) -> bool {
        self.phase matches Phase::Each(k) ==> k < chunks(self.bytes as int)
    }

    /// So many crops, so many bytes as one batch.
    pub fn begin(session: Session, crops: usize, bytes: usize) -> (scoring: Scoring)
        ensures
            scoring@ == started(session, crops as int, bytes as int),
            scoring.wf(),
    {
        let phase: Phase = if crops > 1 && session.batched {
            Phase::Whole
        } else {
            phase_from(0, bytes)
        };
        let rows: Vec<Vec<u32>> = Vec::new();
        assert(lists_of(rows@) =~= seq![]);
        Scoring { session, crops, bytes, phase, retrying: false, rows, notice: None }
    }

    /// The call to make next, where there is one.
    pub fn next(&self) -> (call: Option<Call>)
        requires
            self.wf(),
        ensures
            call == match self.phase {
                Phase::Whole => Some(
                    Call {
                        input: self@.input(),
                        crops: self.crops,
                        start: 0,
                        end: self.bytes,
                    },
                ),
                Phase::Each(k) => Some(
                    Call {
                        input: self@.input(),
                        crops: 1,
                        start: chunk_start(k as int) as usize,
                        end: chunk_end(k as int, self.bytes as int) as usize,
                    },
                ),
                _ => None,
            },
            call is Some ==> call->0.start <= call->0.end <= self.bytes,
            call is Some <==> self@.calling(),
    {
        let input: Input = if self.retrying {
            Input::Position
        } else {
            self.session.input
        };
        match &self.phase {
            Phase::Whole => Some(
                Call { input, crops: self.crops, start: 0, end: self.bytes },
            ),
            Phase::Each(k) => {
                let start: usize = *k * CROP_BYTES;
                let end: usize = if self.bytes - start >= CROP_BYTES {
                    start + CROP_BYTES
                } else {
                    self.bytes
                };
                Some(Call { input, crops: 1, start, end })
            },
            _ => None,
        }
    }

    /// What the call that was made is answered with.
    pub fn answer(&mut self, outcome: Result<Vec<Tensor>, NnError>)
        requires
            old(self).wf(),
            old(self)@.calling(),
        ensures
            final(self)@ == old(self)@.answered(outcome_of(outcome)),
            final(self).wf(),
    {
        let crops: usize = match &self.phase {
            Phase::Whole => self.crops,
            _ => 1,
        };
        let read: Result<Vec<Vec<u32>>, String> = match outcome {
            Ok(tensors) => {
                if self.retrying {
                    self.session.input = Input::Position;
                }
                decode(tensors.as_slice(), crops)
            },
            Err(error) => {
                if !self.retrying && self.session.input == Input::Name {
                    self.retrying = true;
                    return;
                }
                Err(failed("compute", &error))
            },
        };
        self.retrying = false;
        let ghost held = self.rows@;
        match &self.phase {
            Phase::Whole => match read {
                Ok(rows) => {
                    self.rows = rows;
                    self.phase = Phase::Done;
                },
                Err(why) => {
                    let mut notice: String = "ages: a batch of ".to_owned();
                    notice.append(decimal_text(self.crops as u64).as_str());
                    notice.append(" crops was refused (");
                    notice.append(why.as_str());
                    notice.append("); one crop per call for the rest of this run");
                    self.session.batched = false;
                    self.notice = Some(notice);
                    self.phase = phase_from(0, self.bytes);
                },
            },
            Phase::Each(k) => {
                let k: usize = *k;
                match read {
                    Ok(mut rows) => {
                        let ghost all = lists_of(rows@);
                        assert(rows@.len() == all.len());
                        let row: Vec<u32> = rows.swap_remove(0);
                        self.rows.push(row);
                        assert(lists_of(self.rows@) =~= lists_of(held).push(all[0]));
                        self.phase = phase_from(k + 1, self.bytes);
                    },
                    Err(why) => {
                        self.phase = Phase::Failed(why);
                    },
                }
            },
            _ => {},
        }
    }

    /// The logits of every crop, or what went wrong.
    pub fn finish(self) -> (r: Result<Vec<Vec<u32>>, String>)
        requires
            !self@.calling(),
        ensures
            read_out(r) == match self@.stage {
                Stage::Failed(why) => Err(why),
                _ => Ok(self@.rows),
            },
    {
        match self.phase {
            Phase::Failed(why) => Err(why),
            _ => Ok(self.rows),
        }
    }
}

impl Progress {
    /// What holds of a scoring on its way: each crop done has left its logits,
    /// one for each threshold, and no chunk is asked for that is not there.
    pub open spec fn sound(self) -> bool {
        &&& self.crops >= 0
        &&& self.bytes >= 0
        &&& forall|i: int|
            0 <= i < self.rows.len() ==> (#[trigger] self.rows[i]).len() == THRESHOLDS
        &&& self.retrying ==> self.session.input is Name && self.calling()
        &&& match self.stage {
            Stage::Whole => self.rows.len() == 0 && self.session.batched,
            Stage::Each(k) => 0 <= k < chunks(self.bytes) && self.rows.len() == k,
            Stage::Done => self.rows.len() == chunks(self.bytes) || self.rows.len()
                == self.crops,
            Stage::Failed(_) => true,
        }
    }

    /// How many more calls there can be. Each can be refused under the input's
    /// name and made again, but of single crops only one: after it the name is
    /// not used, or the frame has failed.
    pub open spec fn calls_left(self) -> int {
        let again: int = if self.input() is Name {
            1
        } else {
            0
        };
        let named: int = if self.session.input is Name {
            1
        } else {
            0
        };
        match self.stage {
            Stage::Whole => again + 1 + chunks(self.bytes) + named,
            Stage::Each(k) => again + chunks(self.bytes) - k,
            _ => 0,
        }
    }
}

/// A scoring starts sound, and stays so whatever the calls are answered with:
/// when it is done there is a row of logits for each crop of the batch, or for
/// each chunk it was put to the graph in.
pub proof fn law_scoring_stays_sound(progress: Progress, outcome: Outcome)
    requires
        progress.sound(),
        progress.calling(),
    ensures
        progress.answered(outcome).sound(),
{
    assert(chunks(progress.bytes) >= 0);
}

/// A frame's crops start sound.
pub proof fn law_scoring_starts_sound(session: Session, crops: int, bytes: int)
    requires
        crops >= 0,
        bytes >= 0,
    ensures
        started(session, crops, bytes).sound(),
{
    assert(chunks(bytes) >= 0);
}

/// A batch of whole crops that was scored has a row of logits for each crop,
/// however it went through.
pub proof fn law_every_crop_has_its_logits(progress: Progress)
    requires
        progress.sound(),
        progress.stage is Done,
        progress.bytes == progress.crops * CROP_BYTES,
    ensures
        progress.rows.len() == progress.crops,
{
}

/// The calls of a frame and what each was answered with, from the first on.
pub struct Walk {
    pub steps: Seq<Progress>,
    pub outcomes: Seq<Outcome>,
}

impl Walk {
    /// Each step is what the answer made of the one before it.
    pub open spec fn wf(self, session: Session, crops: int, bytes: int) -> bool {
        &&& self.steps.len() == self.outcomes.len() + 1
        &&& self.steps[0] == started(session, crops, bytes)
        &&& forall|j: int|
            0 <= j < self.outcomes.len() ==> self.steps[j].calling() && self.steps[j + 1]
                == self.steps[j].answered(#[trigger] self.outcomes[j])
    }

    /// Whether, of the first `n` calls, one was of chunk `k` and was answered
    /// with what decodes to `row`.
    pub open spec fn answered_chunk(self, n: int, k: int, row: Seq<u32>) -> bool {
        exists|j: int|
            0 <= j < n && (#[trigger] self.steps[j]).stage == Stage::Each(k) && self.outcomes[j]
                is Ok && decoded(self.outcomes[j]->Ok_0, 1) == Ok::<_, Seq<char>>(seq![row])
    }

    /// Whether, of the first `n` calls, one was of the whole batch and was
    /// answered with what decodes to `rows`.
    pub open spec fn answered_whole(self, n: int, rows: Seq<Seq<u32>>) -> bool {
        exists|j: int|
            0 <= j < n && (#[trigger] self.steps[j]).stage is Whole && self.outcomes[j] is Ok
                && decoded(self.outcomes[j]->Ok_0, self.steps[j].crops) == Ok::<_, Seq<char>>(rows)
    }
}

/// Every row of logits is its own crop's: where a frame's crops were scored,
/// the rows are what the call of the whole batch was answered with, or there is
/// one for each chunk, and it is what the call of that chunk was answered with.
pub proof fn law_each_row_is_of_its_chunk(walk: Walk, session: Session, crops: int, bytes: int)
    requires
        crops >= 0,
        bytes >= 0,
        walk.wf(session, crops, bytes),
        walk.steps.last().stage is Done,
    ensures
        ({
            let rows = walk.steps.last().rows;
            let n = walk.outcomes.len() as int;
            walk.answered_whole(n, rows) || (rows.len() == chunks(bytes) && forall|k: int|
                0 <= k < rows.len() ==> walk.answered_chunk(n, k, #[trigger] rows[k]))
        }),
{
    lemma_walked(walk, session, crops, bytes, walk.outcomes.len() as int);
}

proof fn lemma_walked(walk: Walk, session: Session, crops: int, bytes: int, n: int)
    requires
        crops >= 0,
        bytes >= 0,
        walk.wf(session, crops, bytes),
        0 <= n < walk.steps.len(),
    ensures
        walk.steps[n].sound(),
        walk.steps[n].crops == crops,
        walk.steps[n].bytes == bytes,
        ({
            let step = walk.steps[n];
            ||| walk.answered_whole(n, step.rows)
            ||| (step.stage is Done ==> step.rows.len() == chunks(bytes)) && forall|k: int|
                0 <= k < step.rows.len() ==> walk.answered_chunk(n, k, #[trigger] step.rows[k])
        }),
        walk.steps[n].calling() ==> forall|k: int|
            0 <= k < walk.steps[n].rows.len() ==> walk.answered_chunk(
                n,
                k,
                #[trigger] walk.steps[n].rows[k],
            ),
    decreases n,
{
    if n == 0 {
        law_scoring_starts_sound(session, crops, bytes);
        assert(chunks(0) == 0);
        assert(chunks(bytes) >= 0);
    } else {
        lemma_walked(walk, session, crops, bytes, n - 1);
        let (before, outcome, after) = (walk.steps[n - 1], walk.outcomes[n - 1], walk.steps[n]);
        assert(before.calling() && after == before.answered(outcome));
        law_scoring_stays_sound(before, outcome);
        let whole = before.stage is Whole && after.stage is Done && outcome is Ok && decoded(
            outcome->Ok_0,
            crops,
        ) == Ok::<_, Seq<char>>(after.rows);
        if whole {
            assert(walk.answered_whole(n, after.rows)) by {
                assert(walk.steps[n - 1].stage is Whole);
            }
        }
        let came = !(before.stage is Whole && outcome is Ok && after.stage is Done);
        if came {
            assert forall|k: int| 0 <= k < after.rows.len() implies walk.answered_chunk(
                n,
                k,
                #[trigger] after.rows[k],
            ) by {
                if k < before.rows.len() {
                    assert(after.rows[k] == before.rows[k]);
                    let j = choose|j: int|
                        0 <= j < n - 1 && (#[trigger] walk.steps[j]).stage == Stage::Each(k)
                            && walk.outcomes[j] is Ok && decoded(walk.outcomes[j]->Ok_0, 1)
                            == Ok::<_, Seq<char>>(seq![before.rows[k]]);
                    assert(0 <= j < n && walk.steps[j].stage == Stage::Each(k));
                } else {
                    assert(before.stage == Stage::Each(k));
                    let rows = decoded(outcome->Ok_0, 1)->Ok_0;
                    assert(rows =~= seq![after.rows[k]]);
                    assert(walk.steps[n - 1].stage == Stage::Each(k));
                }
            }
        }
    }
}

/// The calls come to an end: each leaves fewer to make.
pub proof fn law_calls_come_to_an_end(progress: Progress, outcome: Outcome)
    requires
        progress.sound(),
        progress.calling(),
    ensures
        0 <= progress.answered(outcome).calls_left() < progress.calls_left(),
{
    assert(chunks(progress.bytes) >= 0);
}

/// What is learned of the graph is kept for the rest of the run: an input once
/// settled to be named by its position is never again named otherwise, and a
/// host that refused a batch is not sent another.
pub proof fn law_what_is_learned_is_kept(progress: Progress, outcome: Outcome)
    ensures
        ({
            let after = progress.answered(outcome);
            &&& progress.session.input is Position ==> after.session.input is Position
            &&& !progress.session.batched ==> !after.session.batched
            &&& !(progress.stage is Whole) ==> !(after.stage is Whole)
        }),
{
}

/// A host that refused a batch is asked one crop at a time from there on.
pub proof fn law_one_at_a_time_once_refused(session: Session, crops: int, bytes: int)
    requires
        !session.batched,
    ensures
        !(started(session, crops, bytes).stage is Whole),
{
}

/// A call refused under the input's name is made again by position, of the
/// same crops, and nothing is learned of that yet.
pub proof fn law_refused_name_is_tried_by_position(progress: Progress, outcome: Outcome)
    requires
        progress.input() is Name,
        outcome is Err,
    ensures
        progress.answered(outcome) == (Progress { retrying: true, ..progress }),
        progress.answered(outcome).input() is Position,
        progress.answered(outcome).asked() == progress.asked(),
{
}

/// What the graph calls its input is settled by a call that works: it is what
/// that call named, and a call that was refused leaves it as it was.
pub proof fn law_input_is_settled_by_what_works(progress: Progress, outcome: Outcome)
    requires
        progress.calling(),
    ensures
        outcome is Ok ==> progress.answered(outcome).session.input == progress.input(),
        outcome is Err ==> progress.answered(outcome).session.input == progress.session.input,
{
}

/// A call refused both under the input's name and by its position has failed
/// with what it was last refused with, and the name stays.
pub proof fn law_refused_either_way_has_failed(
    progress: Progress,
    first: (ErrorCode, Seq<char>),
    second: (ErrorCode, Seq<char>),
)
    requires
        progress.calling(),
        progress.input() is Name,
    ensures
        ({
            let after = progress.answered(Err(first)).answered(Err(second));
            let why = failure("compute"@, second.0, second.1);
            &&& after.session.input is Name
            &&& !after.retrying
            &&& progress.stage is Each ==> after.stage == Stage::Failed(why)
            &&& progress.stage is Whole ==> after.stage == from_chunk(0, progress.bytes)
                && !after.session.batched && after.notice == Some(
                batch_refused(progress.crops, why),
            )
        }),
{
}

/// The chunks are the batch: the first begins it, each begins where the one
/// before it ends, and the last ends it.
pub proof fn law_chunks_are_the_batch(k: int, bytes: int)
    requires
        0 <= k < chunks(bytes),
    ensures
        chunk_start(0) == 0,
        0 <= chunk_start(k) < chunk_end(k, bytes) <= bytes,
        chunk_end(k, bytes) - chunk_start(k) <= CROP_BYTES,
        k + 1 < chunks(bytes) ==> chunk_end(k, bytes) == chunk_start(k + 1),
        k + 1 == chunks(bytes) ==> chunk_end(k, bytes) == bytes,
{
}

/// What a call that failed is told as names it, what it failed with and what
/// came with that.
pub proof fn law_failure_says_what_and_why(what: Seq<char>, code: ErrorCode, data: Seq<char>)
    ensures
        failure(what, code, data) == "ages: "@ + what + ": "@ + spelling(code) + " ("@ + data
            + ")"@,
{
}

/// A frame's crops start as one batch where there are more than one and none
/// was refused, and else one by one from the first.
pub proof fn law_how_a_scoring_starts(session: Session, crops: int, bytes: int)
    requires
        bytes >= 0,
    ensures
        ({
            let start = started(session, crops, bytes);
            &&& start.session == session
            &&& start.crops == crops
            &&& start.bytes == bytes
            &&& !start.retrying
            &&& start.rows.len() == 0
            &&& start.notice is None
            &&& crops > 1 && session.batched ==> start.stage is Whole
            &&& !(crops > 1 && session.batched) && bytes > 0 ==> start.stage == Stage::Each(0)
            &&& !(crops > 1 && session.batched) && bytes == 0 ==> start.stage is Done
        }),
{
    assert(chunks(0) == 0);
}

/// Chunk `k` of a batch is its bytes from 602112 times `k` on, 602112 of them
/// or as many as are left, and a batch of so many crops is as many chunks.
pub proof fn law_chunk_is_one_crops_bytes(k: int, bytes: int, crops: int)
    requires
        0 <= k,
        0 <= crops,
    ensures
        chunk_start(k) == 602_112 * k,
        602_112 * (k + 1) <= bytes ==> chunk_end(k, bytes) == 602_112 * (k + 1),
        602_112 * (k + 1) > bytes ==> chunk_end(k, bytes) == bytes,
        chunks(602_112 * crops) == crops,
        602_112 == 3 * 224 * 224 * 4,
        SIDE == 224,
{
}

/// What each answer to a call does, by what was asked for and what came.
pub proof fn law_what_an_answer_does(progress: Progress, outcome: Outcome)
    requires
        progress.calling(),
        progress.stage is Each ==> 0 <= progress.stage->Each_0,
        progress.bytes >= 0,
    ensures
        ({
            let after = progress.answered(outcome);
            let named = progress.session.input is Name && !progress.retrying;
            let asked = if progress.stage is Whole {
                progress.crops
            } else {
                1
            };
            let why = if outcome is Ok {
                decoded(outcome->Ok_0, asked)->Err_0
            } else {
                failure("compute"@, outcome->Err_0.0, outcome->Err_0.1)
            };
            let good = outcome is Ok && decoded(outcome->Ok_0, asked) is Ok;
            let rows = decoded(outcome->Ok_0, asked)->Ok_0;
            &&& after.crops == progress.crops
            &&& after.bytes == progress.bytes
            // Refused under the input's name: once more, by position.
            &&& outcome is Err && named ==> after == (Progress { retrying: true, ..progress })
            &&& !(outcome is Err && named) ==> {
                &&& !after.retrying
                &&& after.session.input is Position <==> progress.session.input is Position || (
                outcome is Ok && progress.retrying)
                // A batch, all at once or not at all.
                &&& progress.stage is Whole && good ==> after.stage is Done && after.rows == rows
                    && after.session.batched == progress.session.batched && after.notice
                    == progress.notice
                &&& progress.stage is Whole && !good ==> {
                    &&& after.rows == progress.rows
                    &&& !after.session.batched
                    &&& after.notice == Some(
                        "ages: a batch of "@ + decimal(progress.crops as nat)
                            + " crops was refused ("@ + why
                            + "); one crop per call for the rest of this run"@,
                    )
                    &&& progress.bytes > 0 ==> after.stage == Stage::Each(0)
                    &&& progress.bytes == 0 ==> after.stage is Done
                }
                // One crop, and then the next.
                &&& progress.stage is Each ==> {
                    let k = progress.stage->Each_0;
                    &&& after.session.batched == progress.session.batched
                    &&& after.notice == progress.notice
                    &&& good ==> after.rows == progress.rows.push(rows[0])
                    &&& good && 602_112 * (k + 1) < progress.bytes ==> after.stage == Stage::Each(
                        k + 1,
                    )
                    &&& good && 602_112 * (k + 1) >= progress.bytes ==> after.stage is Done
                    &&& !good ==> after.rows == progress.rows && after.stage == Stage::Failed(why)
                }
            }
        }),
{
    assert(chunks(0) == 0);
}

/// A scoring is looked at as what it holds, and an answer as what came, with
/// nothing left out.
pub proof fn law_scoring_is_looked_at_whole(
    scoring: Scoring,
    outcome: Result<Vec<Tensor>, NnError>,
)
    ensures
        scoring@.session == scoring.session && scoring@.crops == scoring.crops,
        scoring@.bytes == scoring.bytes && scoring@.retrying == scoring.retrying,
        scoring@.rows.len() == scoring.rows@.len(),
        forall|i: int|
            0 <= i < scoring.rows@.len() ==> scoring@.rows[i] == (#[trigger] scoring.rows@[i])@,
        scoring@.notice is Some <==> scoring.notice is Some,
        scoring.notice is Some ==> scoring@.notice->0 == scoring.notice->0@,
        scoring@.stage == match scoring.phase {
            Phase::Whole => Stage::Whole,
            Phase::Each(k) => Stage::Each(k as int),
            Phase::Done => Stage::Done,
            Phase::Failed(why) => Stage::Failed(why@),
        },
        match outcome {
            Ok(tensors) => outcome_of(Ok(tensors)) == Ok::<_, (ErrorCode, Seq<char>)>(
                blocks_of(tensors@),
            ),
            Err(error) => outcome_of(Err(error)) == Err::<Seq<Block>, _>((error.code, error.data@)),
        },
{
}

} // verus!
