//! The params: how long a face is held that is not found, and how far apart
//! one is scored.
use crate::arithmetic::{count_of, law_count_is_exact};
use crate::number::Num;
use crate::text::{is_space, law_trimmed_is_what_is_between, trim, trimmed};
use vstd::arithmetic::power2::{lemma_pow2_pos, pow2};
use vstd::prelude::*;
use vstd::string::StringExecFns;

verus! {

/// What the params may be, as it is published.
pub const PARAMS_SCHEMA: &'static str = r#"{"type":"object","properties":{"hold":{"type":"integer","minimum":0,"maximum":600,"default":5},"every":{"type":"integer","minimum":1,"maximum":600,"default":1}},"additionalProperties":false}"#;

/// The most either param may be.
pub const MOST: u32 = 600;

/// The params settled.
#[derive(Clone, Copy, Debug, PartialEq, Eq, Structural)]
pub struct Params {
    /// How many frames a face is held that is not found.
    pub hold: u32,
    /// How many frames apart a face is scored.
    pub every: u32,
}

impl Params {
    /// Within what is published.
    pub open spec fn wf(self) -> bool {
        self.hold <= MOST && 1 <= self.every <= MOST
    }
}

impl Default for Params {
    fn default() -> (params: Params)
        ensures
            params == (Params { hold: 5, every: 1 }),
    {
        Params { hold: 5, every: 1 }
    }
}

/// The params as they arrive: whole numbers, but read as numbers, since the
/// declaration spells them `number` and a host may hand `5` over as `5.0`.
#[derive(Clone, Copy, Debug)]
pub struct Given {
    pub hold: Num,
    pub every: Num,
}

/// What `hold` is where it is not given.
pub fn default_hold() -> (n: Num)
    ensures
        n == count_of(5),
        n.is_int(5),
{
    proof {
        law_count_is_exact(5);
    }
    Num::count(5)
}

/// What `every` is where it is not given.
pub fn default_every() -> (n: Num)
    ensures
        n == count_of(1),
        n.is_int(1),
{
    proof {
        law_count_is_exact(1);
    }
    Num::count(1)
}

/// One of the params.
#[derive(Clone, Copy, Debug, PartialEq, Eq, Structural)]
pub enum Param {
    Hold,
    Every,
}

/// A param that is not a whole number in its range.
#[derive(Clone, Copy, Debug)]
pub struct Refusal {
    pub param: Param,
    pub value: Num,
}

/// The integer a number is, where it is one between `low` and `high`.
pub open spec fn whole_between(n: Num, low: int, high: int) -> Option<int> {
    if exists|m: int| low <= m <= high && #[trigger] n.is_int(m) {
        Some(choose|m: int| low <= m <= high && #[trigger] n.is_int(m))
    } else {
        None
    }
}

/// The params a host gave, or the first that is not one.
pub open spec fn settled(given: Given) -> Result<Params, Refusal> {
    match whole_between(given.hold, 0, MOST as int) {
        None => Err(Refusal { param: Param::Hold, value: given.hold }),
        Some(hold) => match whole_between(given.every, 1, MOST as int) {
            None => Err(Refusal { param: Param::Every, value: given.every }),
            Some(every) => Ok(Params { hold: hold as u32, every: every as u32 }),
        },
    }
}

/// A number is no two integers.
proof fn lemma_one_integer(n: Num, a: int, b: int)
    requires
        n.is_int(a),
        n.is_int(b),
    ensures
        a == b,
{
    lemma_pow2_pos(1074);
    assert(a == b) by (nonlinear_arith)
        requires
            a * pow2(1074) == b * pow2(1074),
            pow2(1074) > 0,
    ;
}

fn whole(n: Num, low: u32, high: u32) -> (r: Option<u32>)
    ensures
        r == match whole_between(n, low as int, high as int) {
            Some(m) => Some(m as u32),
            None => None,
        },
        r is Some ==> low <= r->0 <= high && n.is_int(r->0 as int),
{
    let r: Option<u32> = n.whole(low, high);
    proof {
        if r is Some {
            assert(n.is_int(r->0 as int));
            let m = choose|m: int| low <= m <= high && #[trigger] n.is_int(m);
            lemma_one_integer(n, r->0 as int, m);
        }
    }
    r
}

/// The params a host gave: whole numbers, `hold` from 0 and `every` from 1,
/// neither past 600.
pub fn settle(given: Given) -> (r: Result<Params, Refusal>)
    ensures
        r == settled(given),
        r is Ok ==> r->Ok_0.wf() && given.hold.is_int(r->Ok_0.hold as int) && given.every.is_int(
            r->Ok_0.every as int,
        ),
{
    let hold: u32 = match whole(given.hold, 0, MOST) {
        Some(hold) => hold,
        None => {
            return Err(Refusal { param: Param::Hold, value: given.hold });
        },
    };
    let every: u32 = match whole(given.every, 1, MOST) {
        Some(every) => every,
        None => {
            return Err(Refusal { param: Param::Every, value: given.every });
        },
    };
    Ok(Params { hold, every })
}

/// What is said of a param that is not a whole number in its range, the value
/// being printed as `shown`.
pub open spec fn refused(param: Param, shown: Seq<char>) -> Seq<char> {
    match param {
        Param::Hold => "ages needs hold a whole number between 0 and 600, got "@ + shown,
        Param::Every => "ages needs every a whole number between 1 and 600, got "@ + shown,
    }
}

/// What is said of params that cannot be read.
pub open spec fn unreadable(why: Seq<char>) -> Seq<char> {
    "ages cannot read its params: "@ + why
}

/// Whether `r` is what the params of a run come to: the defaults where there
/// are none to read, and else what `read` makes of the text without the white
/// space around it, with a param out of its range refused by name.
pub open spec fn comes_to<
    R: FnOnce(&str) -> Result<Given, String>,
    S: FnOnce(Num) -> String,
>(params: Seq<char>, read: R, show: S, r: Result<Params, Seq<char>>) -> bool {
    if trimmed(params).len() == 0 {
        r == Ok::<Params, Seq<char>>(Params { hold: 5, every: 1 })
    } else {
        exists|text: &str, given: Result<Given, String>|
            text@ == trimmed(params) && #[trigger] call_ensures(read, (text,), given)
                && given_comes_to(given, show, r)
    }
}

/// Whether `r` is what comes of what was read. A value refused is shown as
/// `show` prints it.
pub open spec fn given_comes_to<S: FnOnce(Num) -> String>(
    given: Result<Given, String>,
    show: S,
    r: Result<Params, Seq<char>>,
) -> bool {
    match given {
        Err(why) => r == Err::<Params, _>(unreadable(why@)),
        Ok(given) => match settled(given) {
            Ok(params) => r == Ok::<_, Seq<char>>(params),
            Err(refusal) => exists|shown: String|
                #![trigger call_ensures(show, (refusal.value,), shown)]
                call_ensures(show, (refusal.value,), shown) && r == Err::<Params, _>(
                    refused(refusal.param, shown@),
                ),
        },
    }
}

/// The view of what params come to.
pub open spec fn spelled(r: Result<Params, String>) -> Result<Params, Seq<char>> {
    match r {
        Ok(params) => Ok(params),
        Err(why) => Err(why@),
    }
}

/// Whether `read` can be handed the text, where there is any, and `show` the
/// value refused in what `read` made of it, where one is.
pub open spec fn readable<
    R: FnOnce(&str) -> Result<Given, String>,
    S: FnOnce(Num) -> String,
>(params: Seq<char>, read: R, show: S) -> bool {
    trimmed(params).len() > 0 ==> {
        &&& forall|text: &str|
            text@ == trimmed(params) ==> #[trigger] call_requires(read, (text,))
        &&& forall|text: &str, given: Result<Given, String>|
            text@ == trimmed(params) && #[trigger] call_ensures(read, (text,), given)
                && given is Ok && settled(given->Ok_0) is Err ==> call_requires(
                show,
                (settled(given->Ok_0)->Err_0.value,),
            )
    }
}

/// What the params of a run come to. `read` is handed the text and `show` a
/// value that is refused, each only where there is one.
pub fn parse_params<R: FnOnce(&str) -> Result<Given, String>, S: FnOnce(Num) -> String>(
    params: &str,
    read: R,
    show: S,
) -> (r: Result<Params, String>)
    requires
        readable(params@, read, show),
    ensures
        comes_to(params@, read, show, spelled(r)),
        r is Ok ==> r->Ok_0.wf(),
{
    let text: &str = trim(params);
    if text.is_empty() {
        return Ok(Params::default());
    }
    let given: Given = match read(text) {
        Ok(given) => given,
        Err(why) => {
            let mut message: String = "ages cannot read its params: ".to_owned();
            message.append(why.as_str());
            return Err(message);
        },
    };
    match settle(given) {
        Ok(params) => Ok(params),
        Err(refusal) => {
            let shown: String = show(refusal.value);
            let mut message: String = match refusal.param {
                Param::Hold => {
                    "ages needs hold a whole number between 0 and 600, got ".to_owned()
                },
                Param::Every => {
                    "ages needs every a whole number between 1 and 600, got ".to_owned()
                },
            };
            message.append(shown.as_str());
            Err(message)
        },
    }
}

/// Whole numbers in the published ranges are what they come to, the defaults
/// among them.
pub proof fn law_whole_numbers_settle(hold: u32, every: u32)
    requires
        hold <= MOST,
        1 <= every <= MOST,
    ensures
        settled(Given { hold: count_of(hold as int), every: count_of(every as int) }) == Ok::<
            Params,
            Refusal,
        >(Params { hold, every }),
{
    let (h, e) = (count_of(hold as int), count_of(every as int));
    law_count_is_exact(hold as int);
    law_count_is_exact(every as int);
    assert(h.is_int(hold as int) && e.is_int(every as int));
    let m = choose|m: int| 0 <= m <= MOST && #[trigger] h.is_int(m);
    lemma_one_integer(h, hold as int, m);
    let m = choose|m: int| 1 <= m <= MOST && #[trigger] e.is_int(m);
    lemma_one_integer(e, every as int, m);
}

/// Whole numbers, `hold` from 0 and `every` from 1, neither past 600, are what
/// the params come to, however they are held as numbers.
pub proof fn law_settled_is_what_was_given(given: Given, hold: int, every: int)
    requires
        given.hold.is_int(hold),
        given.every.is_int(every),
        0 <= hold <= 600,
        1 <= every <= 600,
    ensures
        settled(given) == Ok::<_, Refusal>(Params { hold: hold as u32, every: every as u32 }),
{
    assert(given.hold.is_int(hold) && given.every.is_int(every));
    let m = choose|m: int| 0 <= m <= 600 && #[trigger] given.hold.is_int(m);
    lemma_one_integer(given.hold, hold, m);
    let m = choose|m: int| 1 <= m <= 600 && #[trigger] given.every.is_int(m);
    lemma_one_integer(given.every, every, m);
}

/// And anything else is refused: `hold` first where it is at fault, and
/// `every` where it alone is.
pub proof fn law_refused_is_no_whole_number_in_range(given: Given)
    ensures
        (forall|m: int| 0 <= m <= 600 ==> !#[trigger] given.hold.is_int(m)) ==> settled(given)
            == Err::<Params, _>(Refusal { param: Param::Hold, value: given.hold }),
        (exists|m: int| 0 <= m <= 600 && #[trigger] given.hold.is_int(m)) && (forall|m: int|
            1 <= m <= 600 ==> !#[trigger] given.every.is_int(m)) ==> settled(given) == Err::<
            Params,
            _,
        >(Refusal { param: Param::Every, value: given.every }),
{
}

/// Where there is nothing but white space, the params of a run are a `hold` of
/// 5 and an `every` of 1.
pub proof fn law_blank_params_are_the_defaults<
    R: FnOnce(&str) -> Result<Given, String>,
    S: FnOnce(Num) -> String,
>(params: Seq<char>, read: R, show: S, r: Result<Params, Seq<char>>)
    requires
        comes_to(params, read, show, r),
        forall|i: int| 0 <= i < params.len() ==> is_space(#[trigger] params[i]),
    ensures
        r == Ok::<_, Seq<char>>(Params { hold: 5, every: 1 }),
{
    let ends = law_trimmed_is_what_is_between(params);
    if ends.0 < ends.1 {
        assert(is_space(params[ends.0]));
    }
}

/// Where there is more, they are what was read of it: refused with what the
/// reader says, or by name with what was given, or else as they were given.
pub proof fn law_params_are_what_was_read<
    R: FnOnce(&str) -> Result<Given, String>,
    S: FnOnce(Num) -> String,
>(params: Seq<char>, read: R, show: S, r: Result<Params, Seq<char>>) -> (given: Result<
    Given,
    String,
>)
    requires
        comes_to(params, read, show, r),
        exists|i: int| 0 <= i < params.len() && !is_space(#[trigger] params[i]),
    ensures
        exists|text: &str|
            text@ == trimmed(params) && #[trigger] call_ensures(read, (text,), given),
        match given {
            Err(why) => r == Err::<Params, _>("ages cannot read its params: "@ + why@),
            Ok(given) => {
                &&& r is Ok ==> given.hold.is_int(r->Ok_0.hold as int) && given.every.is_int(
                    r->Ok_0.every as int,
                ) && r->Ok_0.hold <= 600 && 1 <= r->Ok_0.every <= 600
                &&& r is Err && (forall|m: int| 0 <= m <= 600 ==> !#[trigger] given.hold.is_int(m))
                    ==> exists|shown: String| #[trigger]
                    call_ensures(show, (given.hold,), shown) && r->Err_0
                        == "ages needs hold a whole number between 0 and 600, got "@ + shown@
                &&& r is Err && (exists|m: int| 0 <= m <= 600 && #[trigger] given.hold.is_int(m))
                    ==> (forall|m: int| 1 <= m <= 600 ==> !#[trigger] given.every.is_int(m))
                    && exists|shown: String| #[trigger]
                    call_ensures(show, (given.every,), shown) && r->Err_0
                        == "ages needs every a whole number between 1 and 600, got "@ + shown@
            },
        },
{
    let ends = law_trimmed_is_what_is_between(params);
    assert(trimmed(params).len() > 0) by {
        let i = choose|i: int| 0 <= i < params.len() && !is_space(#[trigger] params[i]);
        assert(ends.0 <= i < ends.1);
    }
    let (text, given) = choose|text: &str, given: Result<Given, String>|
        text@ == trimmed(params) && #[trigger] call_ensures(read, (text,), given)
            && given_comes_to(given, show, r);
    if given is Ok {
        let given = given->Ok_0;
        law_refused_is_no_whole_number_in_range(given);
        match settled(given) {
            Ok(params) => {
                let h = choose|m: int| 0 <= m <= 600 && #[trigger] given.hold.is_int(m);
                let e = choose|m: int| 1 <= m <= 600 && #[trigger] given.every.is_int(m);
                law_settled_is_what_was_given(given, h, e);
            },
            Err(refusal) => {
                let shown = choose|shown: String|
                    #![trigger call_ensures(show, (refusal.value,), shown)]
                    call_ensures(show, (refusal.value,), shown) && r == Err::<Params, _>(
                        refused(refusal.param, shown@),
                    );
                assert(call_ensures(show, (refusal.value,), shown));
                if exists|m: int| 0 <= m <= 600 && #[trigger] given.hold.is_int(m) {
                    let h = choose|m: int| 0 <= m <= 600 && #[trigger] given.hold.is_int(m);
                    if exists|m: int| 1 <= m <= 600 && #[trigger] given.every.is_int(m) {
                        let e = choose|m: int| 1 <= m <= 600 && #[trigger] given.every.is_int(m);
                        law_settled_is_what_was_given(given, h, e);
                    }
                }
            },
        }
    }
    given
}

/// What params come to is looked at whole.
pub proof fn law_spelled_is_what_it_is(r: Result<Params, String>)
    ensures
        match r {
            Ok(params) => spelled(Ok(params)) == Ok::<_, Seq<char>>(params),
            Err(why) => spelled(Err(why)) == Err::<Params, _>(why@),
        },
{
}

} // verus!
