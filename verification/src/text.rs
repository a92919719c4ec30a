//! Numbers and lists spelled out, for the messages that carry them, and texts
//! without the white space around them.
use vstd::prelude::*;
use vstd::string::{StrSliceExecFns, StringExecFns};

verus! {

/// A decimal digit.
pub open spec fn digit(d: int) -> char {
    (48 + d) as char
}

/// `n` in decimal.
pub open spec fn decimal(n: nat) -> Seq<char>
    decreases n,
{
    if n < 10 {
        seq![digit(n as int)]
    } else {
        decimal(n / 10).push(digit((n % 10) as int))
    }
}

/// Texts one after the other, a comma and a space between any two.
pub open spec fn listed(items: Seq<Seq<char>>) -> Seq<char>
    decreases items.len(),
{
    if items.len() == 0 {
        seq![]
    } else if items.len() == 1 {
        items[0]
    } else {
        listed(items.drop_last()) + ", "@ + items.last()
    }
}

/// A list of numbers in brackets.
pub open spec fn bracketed(numbers: Seq<u32>) -> Seq<char> {
    "["@ + listed(numbers.map_values(|n: u32| decimal(n as nat))) + "]"@
}

/// A list of lists of numbers in brackets.
pub open spec fn bracketed_lists(lists: Seq<Seq<u32>>) -> Seq<char> {
    "["@ + listed(lists.map_values(|l: Seq<u32>| bracketed(l))) + "]"@
}

/// What lists hold.
pub open spec fn lists_of(lists: Seq<Vec<u32>>) -> Seq<Seq<u32>> {
    lists.map_values(|l: Vec<u32>| l@)
}

fn digit_text(d: u64) -> (s: &'static str)
    requires
        d < 10,
    ensures
        s@ == seq![digit(d as int)],
{
    proof {
        reveal_strlit("0");
        reveal_strlit("1");
        reveal_strlit("2");
        reveal_strlit("3");
        reveal_strlit("4");
        reveal_strlit("5");
        reveal_strlit("6");
        reveal_strlit("7");
        reveal_strlit("8");
        reveal_strlit("9");
    }
    let s: &'static str = match d {
        0 => "0",
        1 => "1",
        2 => "2",
        3 => "3",
        4 => "4",
        5 => "5",
        6 => "6",
        7 => "7",
        8 => "8",
        _ => "9",
    };
    assert(s@ =~= seq![digit(d as int)]);
    s
}

/// `n` in decimal.
pub fn decimal_text(n: u64) -> (s: String)
    ensures
        s@ == decimal(n as nat),
    decreases n,
{
    if n < 10 {
        digit_text(n).to_owned()
    } else {
        let mut s: String = decimal_text(n / 10);
        let ghost before = s@;
        s.append(digit_text(n % 10));
        assert(s@ =~= before.push(digit((n % 10) as int)));
        s
    }
}

/// Texts one after the other, a comma and a space between any two.
fn listed_text(items: &Vec<String>) -> (s: String)
    ensures
        s@ == listed(items@.map_values(|t: String| t@)),
{
    let ghost texts = items@.map_values(|t: String| t@);
    let mut s: String = String::new();
    let mut i: usize = 0;
    assert(texts.take(0) =~= seq![]);
    while i < items.len()
        invariant
            i <= items.len(),
            texts == items@.map_values(|t: String| t@),
            s@ == listed(texts.take(i as int)),
        decreases items.len() - i,
    {
        if i > 0 {
            s.append(", ");
        }
        s.append(items[i].as_str());
        proof {
            let next = texts.take(i + 1);
            assert(next.drop_last() =~= texts.take(i as int));
            assert(next.last() == items[i as int]@);
            if i == 0 {
                assert(next[0] == items[0]@);
                assert(s@ =~= next[0]);
            }
        }
        i = i + 1;
    }
    assert(texts.take(items.len() as int) =~= texts);
    s
}

/// A list of numbers in brackets.
fn bracketed_text(numbers: &Vec<u32>) -> (s: String)
    ensures
        s@ == bracketed(numbers@),
{
    let mut items: Vec<String> = Vec::new();
    let mut i: usize = 0;
    while i < numbers.len()
        invariant
            i <= numbers.len(),
            items.len() == i,
            forall|j: int| 0 <= j < i ==> (#[trigger] items[j])@ == decimal(numbers[j] as nat),
        decreases numbers.len() - i,
    {
        items.push(decimal_text(numbers[i] as u64));
        i = i + 1;
    }
    let mut s: String = "[".to_owned();
    s.append(listed_text(&items).as_str());
    s.append("]");
    assert(items@.map_values(|t: String| t@) =~= numbers@.map_values(
        |n: u32| decimal(n as nat),
    ));
    s
}

/// A list of lists of numbers in brackets.
pub fn bracketed_lists_text(lists: &[Vec<u32>]) -> (s: String)
    ensures
        s@ == bracketed_lists(lists_of(lists@)),
{
    let mut items: Vec<String> = Vec::new();
    let mut i: usize = 0;
    while i < lists.len()
        invariant
            i <= lists.len(),
            items.len() == i,
            forall|j: int| 0 <= j < i ==> (#[trigger] items[j])@ == bracketed(lists[j]@),
        decreases lists.len() - i,
    {
        items.push(bracketed_text(&lists[i]));
        i = i + 1;
    }
    let mut s: String = "[".to_owned();
    s.append(listed_text(&items).as_str());
    s.append("]");
    assert(items@.map_values(|t: String| t@) =~= lists_of(lists@).map_values(
        |l: Seq<u32>| bracketed(l),
    ));
    s
}

/// Unicode's white space.
pub open spec fn is_space(c: char) -> bool {
    ||| '\u{9}' <= c <= '\u{d}'
    ||| c == '\u{20}'
    ||| c == '\u{85}'
    ||| c == '\u{a0}'
    ||| c == '\u{1680}'
    ||| '\u{2000}' <= c <= '\u{200a}'
    ||| c == '\u{2028}'
    ||| c == '\u{2029}'
    ||| c == '\u{202f}'
    ||| c == '\u{205f}'
    ||| c == '\u{3000}'
}

/// A text from its first character that is not white space.
pub open spec fn without_leading(s: Seq<char>) -> Seq<char>
    decreases s.len(),
{
    if s.len() > 0 && is_space(s[0]) {
        without_leading(s.skip(1))
    } else {
        s
    }
}

/// A text up to its last character that is not white space.
pub open spec fn without_trailing(s: Seq<char>) -> Seq<char>
    decreases s.len(),
{
    if s.len() > 0 && is_space(s.last()) {
        without_trailing(s.drop_last())
    } else {
        s
    }
}

/// A text without the white space around it.
pub open spec fn trimmed(s: Seq<char>) -> Seq<char> {
    without_trailing(without_leading(s))
}

fn space(c: char) -> (yes: bool)
    ensures
        yes == is_space(c),
{
    ('\u{9}' <= c && c <= '\u{d}') || c == '\u{20}' || c == '\u{85}' || c == '\u{a0}' || c
        == '\u{1680}' || ('\u{2000}' <= c && c <= '\u{200a}') || c == '\u{2028}' || c
        == '\u{2029}' || c == '\u{202f}' || c == '\u{205f}' || c == '\u{3000}'
}

/// A text without the white space around it.
pub fn trim(s: &str) -> (t: &str)
    ensures
        t@ == trimmed(s@),
{
    let n: usize = s.unicode_len();
    let mut i: usize = 0;
    assert(s@.skip(0) =~= s@);
    while i < n && space(s.get_char(i))
        invariant
            i <= n == s@.len(),
            without_leading(s@.skip(i as int)) == without_leading(s@),
        decreases n - i,
    {
        assert(s@.skip(i as int).skip(1) =~= s@.skip(i + 1));
        i = i + 1;
    }
    let mut j: usize = n;
    assert(s@.subrange(i as int, n as int) =~= s@.skip(i as int));
    while i < j && space(s.get_char(j - 1))
        invariant
            i <= j <= n == s@.len(),
            without_trailing(s@.subrange(i as int, j as int)) == trimmed(s@),
        decreases j,
    {
        assert(s@.subrange(i as int, j as int).drop_last() =~= s@.subrange(i as int, j - 1));
        j = j - 1;
    }
    s.substring_char(i, j)
}

/// Whether a text, but for white space, opens as a list does. What is written
/// as a list of its fields is no object.
pub fn opens_array(text: &str) -> (yes: bool)
    ensures
        yes == (trimmed(text@).len() > 0 && trimmed(text@)[0] == '['),
{
    let text: &str = trim(text);
    text.unicode_len() > 0 && text.get_char(0) == '['
}

/// A number in decimal reads back as itself, in digits alone and with no zero
/// before them.
pub proof fn law_decimal_reads_back(n: nat)
    ensures
        decimal(n).len() > 0,
        forall|i: int|
            0 <= i < decimal(n).len() ==> 48 <= (#[trigger] decimal(n)[i]) as int <= 57,
        decimal(n)[0] == '0' ==> n == 0 && decimal(n).len() == 1,
        decimal(n).fold_left(0int, |value: int, c: char| 10 * value + (c as int - 48)) == n,
    decreases n,
{
    reveal_with_fuel(Seq::fold_left, 2);
    let value = |value: int, c: char| 10 * value + (c as int - 48);
    let d = (n % 10) as int;
    assert(digit(d) as int == 48 + d);
    if n < 10 {
        assert(decimal(n).drop_last() =~= seq![]);
    } else {
        law_decimal_reads_back(n / 10);
        let front = decimal(n / 10);
        assert(decimal(n) == front.push(digit(d)));
        assert(decimal(n).drop_last() =~= front);
        assert(decimal(n)[0] == front[0]);
        assert forall|i: int| 0 <= i < decimal(n).len() implies 48 <= (
        #[trigger] decimal(n)[i]) as int <= 57 by {
            if i < front.len() {
                assert(decimal(n)[i] == front[i]);
            }
        }
    }
}

/// A list is spelled in brackets, and one with a number more as before, up to
/// the closing one, with that number after a comma.
pub proof fn law_list_is_spelled(numbers: Seq<u32>, n: u32)
    ensures
        bracketed(seq![]) == "["@ + "]"@,
        bracketed(seq![n]) == "["@ + decimal(n as nat) + "]"@,
        numbers.len() > 0 ==> bracketed(numbers.push(n)) == bracketed(numbers).drop_last() + ", "@
            + decimal(n as nat) + "]"@,
{
    reveal_strlit("]");
    let spell = |n: u32| decimal(n as nat);
    let none: Seq<u32> = seq![];
    assert(none.map_values(spell) =~= seq![]);
    assert(bracketed(none) =~= "["@ + "]"@);
    assert(seq![n].map_values(spell) =~= seq![decimal(n as nat)]);
    if numbers.len() > 0 {
        let texts = numbers.map_values(spell);
        let more = numbers.push(n).map_values(spell);
        assert(more =~= texts.push(decimal(n as nat)));
        assert(more.drop_last() =~= texts);
        assert(bracketed(numbers).drop_last() =~= "["@ + listed(texts));
        assert(bracketed(numbers.push(n)) =~= bracketed(numbers).drop_last() + ", "@ + decimal(
            n as nat,
        ) + "]"@);
    }
}

/// So is a list of lists.
pub proof fn law_list_of_lists_is_spelled(lists: Seq<Seq<u32>>, l: Seq<u32>)
    ensures
        bracketed_lists(seq![]) == "["@ + "]"@,
        bracketed_lists(seq![l]) == "["@ + bracketed(l) + "]"@,
        lists.len() > 0 ==> bracketed_lists(lists.push(l)) == bracketed_lists(lists).drop_last()
            + ", "@ + bracketed(l) + "]"@,
{
    reveal_strlit("]");
    let spell = |l: Seq<u32>| bracketed(l);
    let none: Seq<Seq<u32>> = seq![];
    assert(none.map_values(spell) =~= seq![]);
    assert(bracketed_lists(none) =~= "["@ + "]"@);
    assert(seq![l].map_values(spell) =~= seq![bracketed(l)]);
    if lists.len() > 0 {
        let texts = lists.map_values(spell);
        let more = lists.push(l).map_values(spell);
        assert(more =~= texts.push(bracketed(l)));
        assert(more.drop_last() =~= texts);
        assert(bracketed_lists(lists).drop_last() =~= "["@ + listed(texts));
        assert(bracketed_lists(lists.push(l)) =~= bracketed_lists(lists).drop_last() + ", "@
            + bracketed(l) + "]"@);
    }
}

/// What is white space is what Unicode has as such.
pub proof fn law_white_space_is_unicodes(c: char)
    ensures
        is_space(c) <==> {
            let n = c as int;
            9 <= n <= 13 || n == 32 || n == 133 || n == 160 || n == 5760 || 8192 <= n <= 8202 || n
                == 8232 || n == 8233 || n == 8239 || n == 8287 || n == 12288
        },
{
}

/// A text without the white space around it is the part of it between two
/// places, with nothing but white space before the first and from the second
/// on, and none at either end of it.
pub proof fn law_trimmed_is_what_is_between(s: Seq<char>) -> (ends: (int, int))
    ensures
        0 <= ends.0 <= ends.1 <= s.len(),
        trimmed(s) == s.subrange(ends.0, ends.1),
        forall|k: int| 0 <= k < ends.0 ==> is_space(#[trigger] s[k]),
        forall|k: int| ends.1 <= k < s.len() ==> is_space(#[trigger] s[k]),
        ends.0 < ends.1 ==> !is_space(s[ends.0]) && !is_space(s[ends.1 - 1]),
{
    let i = lemma_leading(s);
    let rest = without_leading(s);
    let j = lemma_trailing(rest);
    assert(rest =~= s.subrange(i, s.len() as int));
    assert(trimmed(s) =~= s.subrange(i, i + j));
    assert forall|k: int| i + j <= k < s.len() implies is_space(#[trigger] s[k]) by {
        assert(rest[k - i] == s[k]);
    }
    if j > 0 {
        assert(rest[j - 1] == s[i + j - 1]);
        assert(rest[0] == s[i]);
    }
    (i, i + j)
}

proof fn lemma_leading(s: Seq<char>) -> (i: int)
    ensures
        0 <= i <= s.len(),
        without_leading(s) == s.skip(i),
        forall|k: int| 0 <= k < i ==> is_space(#[trigger] s[k]),
        i < s.len() ==> !is_space(s[i]),
    decreases s.len(),
{
    if s.len() > 0 && is_space(s[0]) {
        let i = lemma_leading(s.skip(1));
        assert(s.skip(1).skip(i) =~= s.skip(i + 1));
        assert forall|k: int| 0 <= k < i + 1 implies is_space(#[trigger] s[k]) by {
            if k > 0 {
                assert(s.skip(1)[k - 1] == s[k]);
            }
        }
        i + 1
    } else {
        assert(s.skip(0) =~= s);
        0
    }
}

proof fn lemma_trailing(s: Seq<char>) -> (j: int)
    ensures
        0 <= j <= s.len(),
        without_trailing(s) == s.take(j),
        forall|k: int| j <= k < s.len() ==> is_space(#[trigger] s[k]),
        j > 0 ==> !is_space(s[j - 1]),
    decreases s.len(),
{
    if s.len() > 0 && is_space(s.last()) {
        let j = lemma_trailing(s.drop_last());
        assert(s.drop_last().take(j) =~= s.take(j));
        assert forall|k: int| j <= k < s.len() implies is_space(#[trigger] s[k]) by {
            if k < s.len() - 1 {
                assert(s.drop_last()[k] == s[k]);
            }
        }
        j
    } else {
        assert(s.take(s.len() as int) =~= s);
        s.len() as int
    }
}

} // verus!
