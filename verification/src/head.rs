//! What comes back from the graph: which tensor holds the ages, the logits in
//! it, and the age they decode to.
use crate::face::total;
use crate::number::{Num, SIGN};
use crate::text::{bracketed_lists, bracketed_lists_text, decimal, decimal_text, lists_of};
use vstd::prelude::*;
use vstd::string::StringExecFns;

verus! {

/// The square the age model takes its crops at.
pub const SIDE: usize = 224;

/// The CORAL head's width: a hundred ordinal thresholds, which is what tells
/// its logits from the two-wide gender head beside it.
pub const THRESHOLDS: usize = 100;

/// One tensor a call returned.
#[derive(Debug)]
pub struct Tensor {
    pub dimensions: Vec<u32>,
    pub data: Vec<u8>,
}

/// What a tensor holds.
#[verifier::ext_equal]
pub struct Block {
    pub dimensions: Seq<u32>,
    pub data: Seq<u8>,
}

impl View for Tensor {
    type V = Block;

    open spec fn view(&self) -> Block {
        Block { dimensions: self.dimensions@, data: self.data@ }
    }
}

/// What tensors hold.
pub open spec fn blocks_of(tensors: Seq<Tensor>) -> Seq<Block> {
    tensors.map_values(|tensor: Tensor| tensor@)
}

/// The shapes of tensors.
pub open spec fn shapes_of(blocks: Seq<Block>) -> Seq<Seq<u32>> {
    blocks.map_values(|block: Block| block.dimensions)
}

/// The shape of an age head: a batch of rows, each a threshold wide.
pub open spec fn is_age_shape(dimensions: Seq<u32>) -> bool {
    dimensions.len() == 2 && dimensions[1] == THRESHOLDS
}

/// Whether the tensor at `at` is the first in the shape of an age head.
pub open spec fn is_age_head(shapes: Seq<Seq<u32>>, at: int) -> bool {
    &&& 0 <= at < shapes.len()
    &&& is_age_shape(shapes[at])
    &&& forall|i: int| 0 <= i < at ==> !is_age_shape(#[trigger] shapes[i])
}

/// What is said of shapes none of which is an age head's.
pub open spec fn no_age_head(shapes: Seq<Seq<u32>>) -> Seq<char> {
    "ages: the graph returned "@ + bracketed_lists(shapes)
        + ", and this module wants the CORAL head's [batch, 100] age logits"@
}

/// Which returned tensor is the age head, by shape: the CORAL thresholds are
/// a hundred wide and the gender head beside them is two, so the name is never
/// read and either order resolves. The first of that shape, where there are
/// more.
pub fn age_output(shapes: &[Vec<u32>]) -> (at: Result<usize, String>)
    ensures
        match at {
            Ok(at) => is_age_head(lists_of(shapes@), at as int),
            Err(message) => {
                &&& forall|i: int|
                    0 <= i < shapes@.len() ==> !is_age_shape((#[trigger] shapes@[i])@)
                &&& message@ == no_age_head(lists_of(shapes@))
            },
        },
{
    let mut i: usize = 0;
    while i < shapes.len()
        invariant
            i <= shapes.len(),
            forall|j: int| 0 <= j < i ==> !is_age_shape((#[trigger] shapes@[j])@),
        decreases shapes.len() - i,
    {
        let dimensions: &Vec<u32> = &shapes[i];
        if dimensions.len() == 2 && dimensions[1] as usize == THRESHOLDS {
            return Ok(i);
        }
        i = i + 1;
    }
    let mut message: String = "ages: the graph returned ".to_owned();
    message.append(bracketed_lists_text(shapes).as_str());
    message.append(", and this module wants the CORAL head's [batch, 100] age logits");
    Err(message)
}

/// A word out of the four little-endian bytes it is written as.
pub open spec fn word(a: u8, b: u8, c: u8, d: u8) -> u32 {
    (a + 0x100 * b + 0x1_0000 * c + 0x100_0000 * d) as u32
}

/// The words that bytes hold, but for a part of one at the end.
pub open spec fn words(data: Seq<u8>) -> Seq<u32> {
    Seq::new(
        data.len() / 4,
        |i: int| word(data[4 * i], data[4 * i + 1], data[4 * i + 2], data[4 * i + 3]),
    )
}

/// A tensor's floats, out of the little-endian bytes it arrived as: the bits
/// of each. A trailing part-word is not a float and is not read.
pub fn le_f32s(data: &[u8]) -> (floats: Vec<u32>)
    ensures
        floats@ == words(data@),
{
    let mut floats: Vec<u32> = Vec::new();
    let len: usize = data.len();
    let n: usize = len / 4;
    let mut i: usize = 0;
    while i < n
        invariant
            i <= n,
            len == data@.len(),
            n == len / 4,
            floats@.len() == i,
            forall|j: int| 0 <= j < i ==> (#[trigger] floats@[j]) == words(data@)[j],
        decreases n - i,
    {
        let (a, b): (u32, u32) = (data[4 * i] as u32, data[4 * i + 1] as u32);
        let (c, d): (u32, u32) = (data[4 * i + 2] as u32, data[4 * i + 3] as u32);
        floats.push(a + 0x100 * b + 0x1_0000 * c + 0x100_0000 * d);
        i = i + 1;
    }
    assert(floats@ =~= words(data@));
    floats
}

/// The age in years the CORAL head's logits decode to, by what each of its
/// thresholds is passed by: how many of them the face is past, counted softly.
pub fn coral_age(passed: &[Num]) -> (age: Num)
    ensures
        age == total(passed@),
{
    let mut sum: Num = Num { bits: SIGN };
    let mut i: usize = 0;
    assert(passed@.take(0) =~= seq![]);
    while i < passed.len()
        invariant
            i <= passed@.len(),
            sum == total(passed@.take(i as int)),
        decreases passed@.len() - i,
    {
        sum = sum.add(passed[i]);
        assert(passed@.take(i + 1).drop_last() =~= passed@.take(i as int));
        i = i + 1;
    }
    assert(passed@.take(i as int) =~= passed@);
    sum
}

/// Whether `age` is what a row of logits decodes to: the sum of what `past`
/// makes of each.
pub open spec fn is_age<P: Fn(u32) -> Num>(logits: Seq<u32>, past: P, age: Num) -> bool {
    exists|passed: Seq<Num>| {
        &&& passed.len() == logits.len()
        &&& forall|j: int|
            0 <= j < logits.len() ==> call_ensures(past, (logits[j],), #[trigger] passed[j])
        &&& age == #[trigger] total(passed)
    }
}

/// The ages rows of logits decode to. `past` says how far past its threshold a
/// logit, handed over as its bits, puts a face: the logistic function of it.
pub fn ages_of<P: Fn(u32) -> Num>(rows: &[Vec<u32>], past: P) -> (ages: Vec<Num>)
    requires
        forall|bits: u32| #[trigger] call_requires(past, (bits,)),
    ensures
        ages@.len() == rows@.len(),
        forall|i: int|
            0 <= i < rows@.len() ==> is_age(rows@[i]@, past, #[trigger] ages@[i]),
{
    let mut ages: Vec<Num> = Vec::new();
    let mut i: usize = 0;
    while i < rows.len()
        invariant
            i <= rows@.len(),
            forall|bits: u32| #[trigger] call_requires(past, (bits,)),
            ages@.len() == i,
            forall|k: int| 0 <= k < i ==> is_age(rows@[k]@, past, #[trigger] ages@[k]),
        decreases rows@.len() - i,
    {
        let logits: &Vec<u32> = &rows[i];
        let mut passed: Vec<Num> = Vec::new();
        let mut j: usize = 0;
        while j < logits.len()
            invariant
                j <= logits@.len(),
                forall|bits: u32| #[trigger] call_requires(past, (bits,)),
                passed@.len() == j,
                forall|k: int|
                    0 <= k < j ==> call_ensures(past, (logits@[k],), #[trigger] passed@[k]),
            decreases logits@.len() - j,
        {
            passed.push(past(logits[j]));
            j = j + 1;
        }
        let age: Num = coral_age(passed.as_slice());
        assert(is_age(logits@, past, age)) by {
            assert(age == total(passed@));
        }
        ages.push(age);
        i = i + 1;
    }
    ages
}

/// What is said where not every crop came back as a row of logits.
pub open spec fn logits_missing(crops: int, came: int) -> Seq<char> {
    "ages: "@ + decimal(crops as nat) + " crops went to the graph and "@ + decimal(came as nat)
        + " age logits came back"@
}

/// The rows of a head, a threshold's width each.
pub open spec fn rows_of_logits(logits: Seq<u32>, crops: int) -> Seq<Seq<u32>> {
    Seq::new(
        crops as nat,
        |i: int| logits.subrange(i * THRESHOLDS, (i + 1) * THRESHOLDS),
    )
}

/// What a call that scored so many crops returned: a row of logits for each,
/// out of the first tensor in the shape of an age head, or what is wrong.
pub open spec fn decoded(returned: Seq<Block>, crops: int) -> Result<Seq<Seq<u32>>, Seq<char>> {
    let shapes = shapes_of(returned);
    if exists|at: int| is_age_head(shapes, at) {
        let at = choose|at: int| is_age_head(shapes, at);
        let logits = words(returned[at].data);
        if logits.len() != crops * THRESHOLDS {
            Err(logits_missing(crops, logits.len() as int))
        } else {
            Ok(rows_of_logits(logits, crops))
        }
    } else {
        Err(no_age_head(shapes))
    }
}

/// The views of rows of logits.
pub open spec fn read_out(r: Result<Vec<Vec<u32>>, String>) -> Result<Seq<Seq<u32>>, Seq<char>> {
    match r {
        Ok(rows) => Ok(lists_of(rows@)),
        Err(why) => Err(why@),
    }
}

/// The logits out of what one call returned: the CORAL head picked out by
/// shape, and the row of it for each crop.
pub fn decode(returned: &[Tensor], crops: usize) -> (r: Result<Vec<Vec<u32>>, String>)
    ensures
        read_out(r) == decoded(blocks_of(returned@), crops as int),
{
    let ghost blocks = blocks_of(returned@);
    let mut shapes: Vec<Vec<u32>> = Vec::new();
    let mut i: usize = 0;
    while i < returned.len()
        invariant
            i <= returned@.len(),
            shapes@.len() == i,
            forall|j: int| 0 <= j < i ==> (#[trigger] shapes@[j])@ == returned@[j].dimensions@,
        decreases returned@.len() - i,
    {
        let dimensions: Vec<u32> = returned[i].dimensions.clone();
        assert(dimensions@ =~= returned@[i as int].dimensions@);
        shapes.push(dimensions);
        i = i + 1;
    }
    assert(lists_of(shapes@) =~= shapes_of(blocks));
    let at: usize = match age_output(shapes.as_slice()) {
        Ok(at) => at,
        Err(why) => {
            assert forall|k: int| !is_age_head(shapes_of(blocks), k) by {
                if is_age_head(shapes_of(blocks), k) {
                    assert(shapes_of(blocks)[k] == shapes@[k]@);
                }
            }
            return Err(why);
        },
    };
    proof {
        let chosen = choose|k: int| is_age_head(shapes_of(blocks), k);
        assert(chosen == at);
        assert(blocks[at as int].data == returned@[at as int].data@);
    }
    let logits: Vec<u32> = le_f32s(returned[at].data.as_slice());
    let came: usize = logits.len();
    if came as u128 != crops as u128 * THRESHOLDS as u128 {
        let mut message: String = "ages: ".to_owned();
        message.append(decimal_text(crops as u64).as_str());
        message.append(" crops went to the graph and ");
        message.append(decimal_text(came as u64).as_str());
        message.append(" age logits came back");
        return Err(message);
    }
    let mut rows: Vec<Vec<u32>> = Vec::new();
    let mut k: usize = 0;
    while k < crops
        invariant
            k <= crops,
            came == logits@.len() == crops * THRESHOLDS,
            rows@.len() == k,
            forall|j: int|
                0 <= j < k ==> (#[trigger] rows@[j])@ == logits@.subrange(
                    j * THRESHOLDS,
                    (j + 1) * THRESHOLDS,
                ),
        decreases crops - k,
    {
        let mut row: Vec<u32> = Vec::new();
        let mut c: usize = 0;
        while c < THRESHOLDS
            invariant
                c <= THRESHOLDS,
                k < crops,
                came == logits@.len() == crops * THRESHOLDS,
                row@ == logits@.subrange(k * THRESHOLDS, k * THRESHOLDS + c),
            decreases THRESHOLDS - c,
        {
            row.push(logits[k * THRESHOLDS + c]);
            assert(row@ =~= logits@.subrange(k * THRESHOLDS, k * THRESHOLDS + c + 1));
            c = c + 1;
        }
        rows.push(row);
        k = k + 1;
    }
    assert(lists_of(rows@) =~= rows_of_logits(logits@, crops as int));
    Ok(rows)
}

/// The little-endian bytes of words.
pub open spec fn le_bytes(floats: Seq<u32>) -> Seq<u8> {
    Seq::new(
        4 * floats.len(),
        |i: int|
            {
                let w = floats[i / 4] as int;
                (if i % 4 == 0 {
                    w % 0x100
                } else if i % 4 == 1 {
                    w / 0x100 % 0x100
                } else if i % 4 == 2 {
                    w / 0x1_0000 % 0x100
                } else {
                    w / 0x100_0000
                }) as u8
            },
    )
}

/// A tensor's floats come back out of its bytes, whatever part of a word
/// trails them.
pub proof fn law_floats_come_back(floats: Seq<u32>, trailing: Seq<u8>)
    requires
        trailing.len() < 4,
    ensures
        words(le_bytes(floats) + trailing) == floats,
{
    let data = le_bytes(floats) + trailing;
    assert(data.len() / 4 == floats.len());
    assert forall|i: int| 0 <= i < floats.len() implies words(data)[i] == floats[i] by {
        let w = floats[i] as int;
        assert(data[4 * i] == (w % 0x100) as u8);
        assert(data[4 * i + 1] == (w / 0x100 % 0x100) as u8);
        assert(data[4 * i + 2] == (w / 0x1_0000 % 0x100) as u8);
        assert(data[4 * i + 3] == (w / 0x100_0000) as u8);
    }
    assert(words(data) =~= floats);
}

/// The age head is told from whatever is beside it in any order: where one
/// tensor and no other has its shape, that one is it.
pub proof fn law_age_head_in_any_order(shapes: Seq<Seq<u32>>, at: int, k: int)
    requires
        0 <= at < shapes.len(),
        is_age_shape(shapes[at]),
        forall|i: int|
            0 <= i < shapes.len() && i != at ==> !is_age_shape(#[trigger] shapes[i]),
    ensures
        is_age_head(shapes, k) <==> k == at,
{
}

/// What a call returned is read from the first tensor that is a hundred wide:
/// the logit of crop `i` and threshold `j` is the little-endian word that is
/// there in its bytes, row by row. It is refused where there is no such tensor,
/// and where its words are not a hundred for each crop.
pub proof fn law_logits_are_the_age_heads(returned: Seq<Block>, crops: int) -> (at: int)
    requires
        crops >= 0,
    ensures
        0 <= at <= returned.len(),
        forall|i: int|
            0 <= i < at ==> !((#[trigger] returned[i]).dimensions.len() == 2
                && returned[i].dimensions[1] == 100),
        at == returned.len() ==> decoded(returned, crops) == Err::<Seq<Seq<u32>>, _>(
            "ages: the graph returned "@ + bracketed_lists(
                returned.map_values(|block: Block| block.dimensions),
            ) + ", and this module wants the CORAL head's [batch, 100] age logits"@,
        ),
        at < returned.len() ==> returned[at].dimensions.len() == 2 && returned[at].dimensions[1]
            == 100,
        at < returned.len() && returned[at].data.len() / 4 != 100 * crops ==> decoded(
            returned,
            crops,
        ) == Err::<Seq<Seq<u32>>, _>(
            "ages: "@ + decimal(crops as nat) + " crops went to the graph and "@ + decimal(
                returned[at].data.len() / 4,
            ) + " age logits came back"@,
        ),
        at < returned.len() && returned[at].data.len() / 4 == 100 * crops ==> {
            let data = returned[at].data;
            let rows = decoded(returned, crops)->Ok_0;
            &&& decoded(returned, crops) is Ok
            &&& rows.len() == crops
            &&& forall|i: int| 0 <= i < crops ==> (#[trigger] rows[i]).len() == 100
            &&& forall|i: int, j: int|
                0 <= i < crops && 0 <= j < 100 ==> {
                    let from = 4 * (100 * i + j);
                    #[trigger] rows[i][j] == data[from] + 256 * data[from + 1] + 65_536 * data[from
                        + 2] + 16_777_216 * data[from + 3]
                }
        },
{
    let shapes = shapes_of(returned);
    let at = lemma_first_age_shape(returned, returned.len() as int);
    if at < returned.len() {
        assert(is_age_head(shapes, at)) by {
            assert forall|i: int| 0 <= i < at implies !is_age_shape(#[trigger] shapes[i]) by {
                assert(shapes[i] == returned[i].dimensions);
            }
        }
        let chosen = choose|k: int| is_age_head(shapes, k);
        assert(chosen == at) by {
            if chosen < at {
                assert(is_age_shape(shapes[chosen]));
            }
            if at < chosen {
                assert(!is_age_shape(shapes[at]));
            }
        }
        let data = returned[at].data;
        if data.len() / 4 == 100 * crops {
            let rows = decoded(returned, crops)->Ok_0;
            let logits = words(data);
            assert forall|i: int| 0 <= i < crops implies (#[trigger] rows[i]).len() == 100 by {
                assert(rows[i] == logits.subrange(i * THRESHOLDS, (i + 1) * THRESHOLDS));
            }
            assert forall|i: int, j: int| 0 <= i < crops && 0 <= j < 100 implies {
                let from = 4 * (100 * i + j);
                #[trigger] rows[i][j] == data[from] + 256 * data[from + 1] + 65_536 * data[from + 2]
                    + 16_777_216 * data[from + 3]
            } by {
                assert(rows[i] == logits.subrange(i * THRESHOLDS, (i + 1) * THRESHOLDS));
                assert(rows[i][j] == logits[100 * i + j]);
            }
        }
    } else {
        assert forall|k: int| !is_age_head(shapes, k) by {
            if is_age_head(shapes, k) {
                assert(shapes[k] == returned[k].dimensions);
            }
        }
        assert(shapes =~= returned.map_values(|block: Block| block.dimensions));
    }
    at
}

/// The first of so many tensors that is a hundred wide, or past them all.
proof fn lemma_first_age_shape(returned: Seq<Block>, n: int) -> (at: int)
    requires
        0 <= n <= returned.len(),
    ensures
        0 <= at <= n,
        forall|i: int| 0 <= i < at ==> !is_age_shape((#[trigger] returned[i]).dimensions),
        at < n ==> is_age_shape(returned[at].dimensions),
    decreases n,
{
    if n == 0 {
        0
    } else {
        let at = lemma_first_age_shape(returned, n - 1);
        if at < n - 1 || is_age_shape(returned[n - 1].dimensions) {
            at
        } else {
            n
        }
    }
}

/// The age head is the first tensor that is a row of a hundred for each of a
/// batch.
pub proof fn law_age_head_is_the_first_a_hundred_wide(shapes: Seq<Seq<u32>>, at: int)
    ensures
        is_age_head(shapes, at) <==> 0 <= at < shapes.len() && shapes[at].len() == 2
            && shapes[at][1] == 100 && forall|i: int|
            0 <= i < at ==> !((#[trigger] shapes[i]).len() == 2 && shapes[i][1] == 100),
        no_age_head(shapes) == "ages: the graph returned "@ + bracketed_lists(shapes)
            + ", and this module wants the CORAL head's [batch, 100] age logits"@,
{
    if is_age_head(shapes, at) {
        assert forall|i: int| 0 <= i < at implies !((#[trigger] shapes[i]).len() == 2
            && shapes[i][1] == 100) by {
            assert(!is_age_shape(shapes[i]));
        }
    }
}

/// A tensor's bytes are as many words as there are fours of them, each the
/// little-endian one of its own four.
pub proof fn law_word_is_its_own_four_bytes(data: Seq<u8>, i: int)
    requires
        0 <= i,
        4 * i + 3 < data.len(),
    ensures
        words(data).len() == data.len() / 4,
        words(data)[i] == data[4 * i] + 256 * data[4 * i + 1] + 65_536 * data[4 * i + 2]
            + 16_777_216 * data[4 * i + 3],
{
}

/// What a call returned, and the logits read from it, are looked at whole.
pub proof fn law_what_is_read_is_all_of_it(
    tensors: Seq<Tensor>,
    rows: Result<Vec<Vec<u32>>, String>,
)
    ensures
        blocks_of(tensors).len() == tensors.len(),
        forall|i: int|
            0 <= i < tensors.len() ==> blocks_of(tensors)[i].dimensions == (
            #[trigger] tensors[i]).dimensions@ && blocks_of(tensors)[i].data == tensors[i].data@,
        match rows {
            Ok(rows) => {
                let out = read_out(Ok(rows));
                &&& out is Ok && out->Ok_0.len() == rows@.len()
                &&& forall|i: int| 0 <= i < rows@.len() ==> out->Ok_0[i] == (#[trigger] rows@[i])@
            },
            Err(why) => read_out(Err(why)) == Err::<Seq<Seq<u32>>, _>(why@),
        },
{
}

} // verus!
