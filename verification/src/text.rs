//! Searching, trimming and parsing text.

use vstd::prelude::*;

verus! {

/// Whether `pattern` stands in `text` at the given position.
pub open spec fn occurs_at(text: Seq<char>, pattern: Seq<char>, at: int) -> bool {
    0 <= at && at + pattern.len() <= text.len() && text.subrange(at, at + pattern.len()) == pattern
}

pub open spec fn contained(text: Seq<char>, pattern: Seq<char>) -> bool {
    exists|at: int| occurs_at(text, pattern, at)
}

/// The characters with the Unicode property `White_Space`.
pub open spec fn whitespace(c: char) -> bool {
    let code = c as u32;
    ||| 0x9 <= code <= 0xd
    ||| code == 0x20
    ||| code == 0x85
    ||| code == 0xa0
    ||| code == 0x1680
    ||| 0x2000 <= code <= 0x200a
    ||| code == 0x2028
    ||| code == 0x2029
    ||| code == 0x202f
    ||| code == 0x205f
    ||| code == 0x3000
}

/// The number of leading characters of `text` that are whitespace.
pub open spec fn leading(text: Seq<char>) -> int
    decreases text.len(),
{
    if text.len() > 0 && whitespace(text.first()) {
        1 + leading(text.drop_first())
    } else {
        0
    }
}

/// The number of characters of `text` up to its last one that is not whitespace.
pub open spec fn trailing_end(text: Seq<char>) -> int
    decreases text.len(),
{
    if text.len() > 0 && whitespace(text.last()) {
        trailing_end(text.drop_last())
    } else {
        text.len() as int
    }
}

/// The text without the whitespace around it.
pub open spec fn trimmed(text: Seq<char>) -> Seq<char> {
    let rest = text.skip(leading(text));
    rest.take(trailing_end(rest))
}

/// The position of the first `separator`, or the length of the text if there is none.
pub open spec fn first_position(text: Seq<char>, separator: char) -> int
    decreases text.len(),
{
    if text.len() == 0 || text.first() == separator {
        0
    } else {
        1 + first_position(text.drop_first(), separator)
    }
}

pub open spec fn digit(c: char) -> bool {
    '0' <= c <= '9'
}

pub open spec fn all_digits(text: Seq<char>) -> bool {
    forall|i: int| 0 <= i < text.len() ==> digit(#[trigger] text[i])
}

/// The number that decimal digits denote.
pub open spec fn decimal_value(digits: Seq<char>) -> int
    decreases digits.len(),
{
    if digits.len() == 0 {
        0
    } else {
        decimal_value(digits.drop_last()) * 10 + (digits.last() as int - '0' as int)
    }
}

/// The digits of a number that may carry a plus sign.
pub open spec fn unsigned(text: Seq<char>) -> Seq<char> {
    if text.len() > 0 && text.first() == '+' {
        text.drop_first()
    } else {
        text
    }
}

/// The unsigned 64-bit number that a text denotes.
pub open spec fn number(text: Seq<char>) -> Option<u64> {
    let digits = unsigned(text);
    if digits.len() > 0 && all_digits(digits) && decimal_value(digits) <= u64::MAX {
        Some(decimal_value(digits) as u64)
    } else {
        None
    }
}

pub(crate) fn chars(text: &str) -> (list: Vec<char>)
    ensures
        list@ == text@,
{
    let mut list: Vec<char> = Vec::new();
    for c in iter: text.chars()
        invariant
            iter.seq() == text@,
            list@ == text@.take(iter.index()),
    {
        list.push(c);
    }
    assert(text@.take(text@.len() as int) =~= text@);
    list
}

fn occurs(text: &Vec<char>, pattern: &Vec<char>, at: usize) -> (found: bool)
    requires
        at + pattern.len() <= text.len(),
    ensures
        found == occurs_at(text@, pattern@, at as int),
{
    let mut i: usize = 0;
    while i < pattern.len()
        invariant
            at + pattern.len() <= text.len(),
            i <= pattern.len(),
            forall|j: int| 0 <= j < i ==> text[at + j] == #[trigger] pattern[j],
        decreases pattern.len() - i,
    {
        if text[at + i] != pattern[i] {
            assert(text@.subrange(at as int, at + pattern@.len())[i as int] != pattern@[i as int]);
            return false;
        }
        i += 1;
    }
    assert(text@.subrange(at as int, at + pattern@.len()) =~= pattern@);
    true
}

/// Whether `pattern` is a part of `text`.
pub fn contains(text: &str, pattern: &str) -> (found: bool)
    ensures
        found == contained(text@, pattern@),
{
    let haystack = chars(text);
    let needle = chars(pattern);
    if needle.len() > haystack.len() {
        return false;
    }
    let last: usize = haystack.len() - needle.len();
    let mut at: usize = 0;
    while at <= last
        invariant
            haystack@ == text@,
            needle@ == pattern@,
            needle.len() <= haystack.len(),
            last == haystack.len() - needle.len(),
            at <= last + 1,
            forall|i: int| 0 <= i < at ==> !occurs_at(text@, pattern@, i),
        decreases last + 1 - at,
    {
        if occurs(&haystack, &needle, at) {
            return true;
        }
        if at == last {
            assert forall|i: int| !occurs_at(text@, pattern@, i) by {}
            return false;
        }
        at += 1;
    }
    false
}

/// Whether `text` begins with `prefix`.
pub fn starts_with(text: &str, prefix: &str) -> (found: bool)
    ensures
        found == occurs_at(text@, prefix@, 0),
{
    let list = chars(text);
    let start = chars(prefix);
    start.len() <= list.len() && occurs(&list, &start, 0)
}

/// Whether two texts are the same.
pub fn equal(left: &str, right: &str) -> (same: bool)
    ensures
        same == (left@ == right@),
{
    let list = chars(left);
    let other = chars(right);
    let same = list.len() == other.len() && occurs(&list, &other, 0);
    proof {
        if left@.len() == right@.len() {
            assert(left@.subrange(0, right@.len() as int) =~= left@);
        }
    }
    same
}

fn is_whitespace(c: char) -> (found: bool)
    ensures
        found == whitespace(c),
{
    let code: u32 = c as u32;
    (0x9 <= code && code <= 0xd) || code == 0x20 || code == 0x85 || code == 0xa0 || code == 0x1680
        || (0x2000 <= code && code <= 0x200a) || code == 0x2028 || code == 0x2029 || code == 0x202f
        || code == 0x205f || code == 0x3000
}

pub(crate) proof fn lemma_leading(text: Seq<char>, count: int)
    requires
        0 <= count <= text.len(),
        forall|i: int| 0 <= i < count ==> whitespace(#[trigger] text[i]),
        count == text.len() || !whitespace(text[count]),
    ensures
        leading(text) == count,
    decreases text.len(),
{
    if count > 0 {
        let rest = text.drop_first();
        assert(whitespace(text[0]));
        assert forall|i: int| 0 <= i < count - 1 implies whitespace(#[trigger] rest[i]) by {
            assert(rest[i] == text[i + 1]);
        }
        if count < text.len() {
            assert(rest[count - 1] == text[count]);
        }
        lemma_leading(rest, count - 1);
    }
}

pub(crate) proof fn lemma_trailing_end(text: Seq<char>, end: int)
    requires
        0 <= end <= text.len(),
        forall|i: int| end <= i < text.len() ==> whitespace(#[trigger] text[i]),
        end == 0 || !whitespace(text[end - 1]),
    ensures
        trailing_end(text) == end,
    decreases text.len(),
{
    if end < text.len() {
        assert(whitespace(text[text.len() - 1]));
        lemma_trailing_end(text.drop_last(), end);
    } else if text.len() > 0 {
        assert(text.last() == text[end - 1]);
    }
}

/// The text without the whitespace around it.
pub fn trim(text: &str) -> (rest: &str)
    ensures
        rest@ == trimmed(text@),
{
    let list = chars(text);
    let mut from: usize = 0;
    while from < list.len() && is_whitespace(list[from])
        invariant
            from <= list.len(),
            forall|i: int| 0 <= i < from ==> whitespace(#[trigger] list[i]),
        decreases list.len() - from,
    {
        from += 1;
    }
    let mut to: usize = list.len();
    while to > from && is_whitespace(list[to - 1])
        invariant
            from <= to <= list.len(),
            forall|i: int| to <= i < list.len() ==> whitespace(#[trigger] list[i]),
        decreases to,
    {
        to -= 1;
    }
    proof {
        lemma_leading(text@, from as int);
        let rest = text@.skip(from as int);
        assert forall|i: int| to - from <= i < rest.len() implies whitespace(#[trigger] rest[i]) by {
            assert(rest[i] == list[i + from]);
        }
        if to > from {
            assert(rest[to - from - 1] == list[to - 1]);
        }
        lemma_trailing_end(rest, to - from);
        assert(rest.take(to - from) =~= text@.subrange(from as int, to as int));
    }
    text.substring_char(from, to)
}

pub(crate) proof fn lemma_first_position(text: Seq<char>, separator: char, at: int)
    requires
        0 <= at <= text.len(),
        forall|i: int| 0 <= i < at ==> #[trigger] text[i] != separator,
        at == text.len() || text[at] == separator,
    ensures
        first_position(text, separator) == at,
    decreases text.len(),
{
    if at > 0 {
        let rest = text.drop_first();
        assert(text[0] != separator);
        assert forall|i: int| 0 <= i < at - 1 implies #[trigger] rest[i] != separator by {
            assert(rest[i] == text[i + 1]);
        }
        if at < text.len() {
            assert(rest[at - 1] == text[at]);
        }
        lemma_first_position(rest, separator, at - 1);
    }
}

/// The position of the first `separator`, if there is one.
pub fn find(text: &str, separator: char) -> (position: Option<usize>)
    ensures
        match position {
            Some(at) => at < text@.len() && at == first_position(text@, separator),
            None => first_position(text@, separator) == text@.len(),
        },
{
    let list = chars(text);
    let mut at: usize = 0;
    while at < list.len() && list[at] != separator
        invariant
            at <= list.len(),
            forall|i: int| 0 <= i < at ==> #[trigger] list[i] != separator,
        decreases list.len() - at,
    {
        at += 1;
    }
    proof {
        lemma_first_position(text@, separator, at as int);
    }
    if at < list.len() {
        Some(at)
    } else {
        None
    }
}

pub(crate) proof fn lemma_decimal_value(digits: Seq<char>, count: int)
    requires
        0 <= count <= digits.len(),
        all_digits(digits),
    ensures
        0 <= decimal_value(digits.take(count)) <= decimal_value(digits),
    decreases digits.len(),
{
    if count < digits.len() {
        assert(digit(digits[digits.len() - 1]));
        let front = digits.drop_last();
        assert forall|i: int| 0 <= i < front.len() implies digit(#[trigger] front[i]) by {
            assert(digit(digits[i]));
        }
        lemma_decimal_value(front, count);
        lemma_decimal_value(front, front.len() as int);
        assert(front.take(front.len() as int) =~= front);
        assert(front.take(count) =~= digits.take(count));
    } else {
        assert(digits.take(count) =~= digits);
        if digits.len() > 0 {
            assert(digit(digits[digits.len() - 1]));
            let front = digits.drop_last();
            assert forall|i: int| 0 <= i < front.len() implies digit(#[trigger] front[i]) by {
                assert(digit(digits[i]));
            }
            lemma_decimal_value(front, front.len() as int);
            assert(front.take(front.len() as int) =~= front);
        }
    }
}

/// The unsigned 64-bit number that a text denotes, if it denotes one.
pub fn parse_u64(text: &str) -> (value: Option<u64>)
    ensures
        value == number(text@),
{
    let list = chars(text);
    let start: usize = if list.len() > 0 && list[0] == '+' {
        1
    } else {
        0
    };
    let ghost digits = unsigned(text@);
    assert(digits =~= text@.skip(start as int));
    if start == list.len() {
        return None;
    }
    let mut value: u64 = 0;
    let mut i: usize = start;
    while i < list.len()
        invariant
            start <= i <= list.len(),
            digits == list@.skip(start as int),
            digits == unsigned(text@),
            all_digits(digits.take(i - start)),
            value == decimal_value(digits.take(i - start)),
        decreases list.len() - i,
    {
        let c: char = list[i];
        let ghost index = i - start;
        assert(digits[index] == c);
        if c < '0' || c > '9' {
            assert(!digit(digits[index]));
            return None;
        }
        let amount: u64 = (c as u32 - '0' as u32) as u64;
        let ghost next = digits.take(index + 1);
        proof {
            assert(next.drop_last() =~= digits.take(index));
            assert(next.last() == c);
            assert(decimal_value(next) == value * 10 + amount);
            if all_digits(digits) {
                lemma_decimal_value(digits, index + 1);
            }
        }
        match value.checked_mul(10) {
            Some(shifted) => match shifted.checked_add(amount) {
                Some(sum) => {
                    value = sum;
                },
                None => {
                    return None;
                },
            },
            None => {
                return None;
            },
        }
        assert forall|j: int| 0 <= j < next.len() implies digit(#[trigger] next[j]) by {
            if j < index {
                assert(next[j] == digits.take(index)[j]);
            }
        }
        i += 1;
    }
    assert(digits.take(digits.len() as int) =~= digits);
    Some(value)
}

/// The character of a digit below sixteen.
pub open spec fn digit_char(value: int) -> char {
    if value < 10 {
        ('0' as int + value) as char
    } else {
        ('a' as int + value - 10) as char
    }
}

/// A number in decimal.
pub open spec fn decimal(value: int) -> Seq<char>
    decreases value,
{
    if value < 10 {
        seq![digit_char(value)]
    } else {
        decimal(value / 10).push(digit_char(value % 10))
    }
}

/// The last `count` hexadecimal digits of a number.
pub open spec fn hexadecimal(value: int, count: nat) -> Seq<char>
    decreases count,
{
    if count == 0 {
        Seq::empty()
    } else {
        hexadecimal(value / 16, (count - 1) as nat).push(digit_char(value % 16))
    }
}

fn digit_text(value: u32) -> (text: &'static str)
    requires
        value < 16,
    ensures
        text@ == seq![digit_char(value as int)],
{
    proof {
        reveal_strlit("0");
        reveal_strlit("1");
        reveal_strlit("2");
        reveal_strlit("3");
        reveal_strlit("4");
        reveal_strlit("5");
        reveal_strlit("6");
        reveal_strlit("7");
        reveal_strlit("8");
        reveal_strlit("9");
        reveal_strlit("a");
        reveal_strlit("b");
        reveal_strlit("c");
        reveal_strlit("d");
        reveal_strlit("e");
        reveal_strlit("f");
    }
    match value {
        0 => "0",
        1 => "1",
        2 => "2",
        3 => "3",
        4 => "4",
        5 => "5",
        6 => "6",
        7 => "7",
        8 => "8",
        9 => "9",
        10 => "a",
        11 => "b",
        12 => "c",
        13 => "d",
        14 => "e",
        _ => "f",
    }
}

/// Writes a number in decimal.
pub fn to_decimal(value: u32) -> (text: String)
    ensures
        text@ == decimal(value as int),
    decreases value,
{
    if value < 10 {
        digit_text(value).to_owned()
    } else {
        let mut text = to_decimal(value / 10);
        text.append(digit_text(value % 10));
        text
    }
}

/// Writes the last `count` hexadecimal digits of a number.
pub fn to_hexadecimal(value: u32, count: usize) -> (text: String)
    ensures
        text@ == hexadecimal(value as int, count as nat),
    decreases count,
{
    if count == 0 {
        String::new()
    } else {
        let mut text = to_hexadecimal(value / 16, count - 1);
        text.append(digit_text(value % 16));
        text
    }
}

} // verus!
