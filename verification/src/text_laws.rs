//! What searching, trimming and parsing text promise.

use vstd::prelude::*;
use vstd::arithmetic::div_mod::lemma_div_denominator;
use vstd::arithmetic::power::{lemma_pow0, lemma_pow_positive, pow};

use crate::text;

verus! {

/// Trimming takes away the whitespace on both sides and nothing else.
pub proof fn law_trimming_leaves_the_core(before: Seq<char>, core: Seq<char>, after: Seq<char>)
    requires
        forall|i: int| 0 <= i < before.len() ==> text::whitespace(#[trigger] before[i]),
        forall|i: int| 0 <= i < after.len() ==> text::whitespace(#[trigger] after[i]),
        core.len() > 0 ==> !text::whitespace(core[0]) && !text::whitespace(core[core.len() - 1]),
    ensures
        text::trimmed(before + core + after) == core,
{
    let all = before + core + after;
    if core.len() > 0 {
        assert forall|i: int| 0 <= i < before.len() implies text::whitespace(#[trigger] all[i]) by {
            assert(all[i] == before[i]);
        }
        assert(all[before.len() as int] == core[0]);
        text::lemma_leading(all, before.len() as int);
        let rest = all.skip(before.len() as int);
        assert(rest =~= core + after);
        assert forall|i: int| core.len() <= i < rest.len() implies text::whitespace(
            #[trigger] rest[i],
        ) by {
            assert(rest[i] == after[i - core.len()]);
        }
        assert(rest[core.len() - 1] == core[core.len() - 1]);
        text::lemma_trailing_end(rest, core.len() as int);
        assert(rest.take(core.len() as int) =~= core);
    } else {
        assert forall|i: int| 0 <= i < all.len() implies text::whitespace(#[trigger] all[i]) by {
            if i < before.len() {
                assert(all[i] == before[i]);
            } else {
                assert(all[i] == after[i - before.len()]);
            }
        }
        text::lemma_leading(all, all.len() as int);
        let rest = all.skip(all.len() as int);
        assert(rest =~= Seq::<char>::empty());
        text::lemma_trailing_end(rest, 0);
        assert(rest.take(0) =~= core);
    }
}

/// Spaces, tabs and the ends of lines are whitespace, and so are the spaces and the ends of lines beyond
/// ASCII; what stands for itself in ASCII is not.
pub proof fn law_whitespace_is_invisible(c: char)
    ensures
        text::whitespace(' ') && text::whitespace('\t') && text::whitespace('\n')
            && text::whitespace('\r'),
        '!' <= c <= '~' ==> !text::whitespace(c),
        c > '~' ==> (text::whitespace(c) <==> c == '\u{85}' || c == '\u{a0}' || c == '\u{1680}'
            || '\u{2000}' <= c <= '\u{200a}' || c == '\u{2028}' || c == '\u{2029}' || c == '\u{202f}'
            || c == '\u{205f}' || c == '\u{3000}'),
        c < ' ' ==> (text::whitespace(c) <==> '\t' <= c <= '\r'),
{
}

/// A text occurs in another one exactly if that one is made of something, the text, and something
/// else.
pub proof fn law_occurrences_split_a_text(whole: Seq<char>, part: Seq<char>, before: Seq<char>, after: Seq<char>)
    ensures
        whole == before + part + after ==> text::contained(whole, part) && text::occurs_at(
            whole,
            part,
            before.len() as int,
        ),
        text::contained(whole, part) ==> exists|at: int|
            0 <= at && at + part.len() <= whole.len() && #[trigger] whole.take(at) + part + whole.skip(
                at + part.len(),
            ) == whole,
{
    if whole == before + part + after {
        let at = before.len() as int;
        assert(whole.subrange(at, at + part.len()) =~= part);
        assert(text::occurs_at(whole, part, at));
    }
    if text::contained(whole, part) {
        let at = choose|at: int| text::occurs_at(whole, part, at);
        assert forall|i: int| 0 <= i < part.len() implies #[trigger] part[i] == whole[at + i] by {
            assert(whole.subrange(at, at + part.len())[i] == whole[at + i]);
        }
        assert(whole.take(at) + part + whole.skip(at + part.len()) =~= whole);
    }
}

/// The first separator is the one that none comes before.
pub proof fn law_the_first_separator_is_found(before: Seq<char>, after: Seq<char>, separator: char)
    requires
        forall|i: int| 0 <= i < before.len() ==> #[trigger] before[i] != separator,
    ensures
        text::first_position(before + seq![separator] + after, separator) == before.len(),
        text::first_position(before, separator) == before.len(),
{
    let all = before + seq![separator] + after;
    assert forall|i: int| 0 <= i < before.len() implies #[trigger] all[i] != separator by {
        assert(all[i] == before[i]);
    }
    assert(all[before.len() as int] == separator);
    text::lemma_first_position(all, separator, before.len() as int);
    text::lemma_first_position(before, separator, before.len() as int);
}

/// The digits of a number in decimal, from the last one on, are those of the number; the first one is
/// not zero unless it is alone.
pub proof fn law_decimal_digits(value: int, at: int)
    requires
        0 <= value,
        0 <= at < text::decimal(value).len(),
    ensures
        ({
            let digits = text::decimal(value);
            &&& digits[digits.len() - 1 - at] == "0123456789"@[(value / pow(10, at as nat)) % 10]
            &&& digits.len() > 1 ==> digits[0] != '0'
            &&& value < pow(10, digits.len())
        }),
    decreases value,
{
    reveal_strlit("0123456789");
    lemma_pow0(10);
    let digits = text::decimal(value);
    if value < 10 {
        assert(at == 0);
        assert(pow(10, 1) == 10) by {
            vstd::arithmetic::power::lemma_pow1(10);
        }
        assert(value / 1 == value);
    } else {
        let rest = value / 10;
        lemma_decimal_starts(rest);
        assert(digits == text::decimal(rest).push(text::digit_char(value % 10)));
        assert(text::decimal(rest).len() > 0);
        if at == 0 {
            assert(value / 1 == value);
            law_decimal_digits(rest, 0);
        } else {
            law_decimal_digits(rest, at - 1);
            lemma_pow_positive(10, (at - 1) as nat);
            lemma_div_denominator(value, 10, pow(10, (at - 1) as nat));
            vstd::arithmetic::power::lemma_pow_adds(10, 1, (at - 1) as nat);
            vstd::arithmetic::power::lemma_pow1(10);
            assert(digits[digits.len() - 1 - at] == text::decimal(rest)[text::decimal(rest).len() - 1
                - (at - 1)]);
        }
        let length = text::decimal(rest).len();
        vstd::arithmetic::power::lemma_pow_adds(10, 1, length);
        vstd::arithmetic::power::lemma_pow1(10);
        assert(digits[0] == text::decimal(rest)[0]);
    }
}

/// The first digit of a positive number is not zero.
proof fn lemma_decimal_starts(value: int)
    requires
        0 < value,
    ensures
        text::decimal(value).len() > 0,
        text::decimal(value)[0] != '0',
    decreases value,
{
    if value >= 10 {
        lemma_decimal_starts(value / 10);
    }
}

/// A number in decimal is read as that number, with a plus sign or without one.
pub proof fn law_numbers_are_read_as_they_are_written(value: u64)
    ensures
        text::number(text::decimal(value as int)) == Some(value),
        text::number(seq!['+'] + text::decimal(value as int)) == Some(value),
{
    let digits = text::decimal(value as int);
    lemma_decimal(value as int);
    assert(text::digit(digits[0]));
    assert(text::unsigned(digits) == digits);
    assert((seq!['+'] + digits).drop_first() =~= digits);
}

proof fn lemma_decimal(value: int)
    requires
        0 <= value,
    ensures
        text::decimal(value).len() > 0,
        text::all_digits(text::decimal(value)),
        text::decimal_value(text::decimal(value)) == value,
    decreases value,
{
    let digits = text::decimal(value);
    if value < 10 {
        assert(digits.drop_last() =~= Seq::<char>::empty());
        assert(text::decimal_value(digits.drop_last()) == 0);
    } else {
        let rest = text::decimal(value / 10);
        lemma_decimal(value / 10);
        assert(digits.drop_last() =~= rest);
        assert forall|i: int| 0 <= i < digits.len() implies text::digit(#[trigger] digits[i]) by {
            if i < rest.len() {
                assert(digits[i] == rest[i]);
            }
        }
    }
}

/// Only digits denote a number, with a plus sign before them or without one; another digit makes it ten
/// times as large and adds itself.
pub proof fn law_numbers_are_made_of_digits(digits: Seq<char>, last: char)
    requires
        digits.len() > 0,
        text::number(digits) is Some,
    ensures
        forall|i: int| 0 < i < digits.len() ==> '0' <= #[trigger] digits[i] <= '9',
        digits[0] == '+' || '0' <= digits[0] <= '9',
        !('0' <= last <= '9') ==> text::number(digits.push(last)) is None,
        '0' <= last <= '9' && 10 * (text::number(digits)->0) + (last as int - '0' as int) <= u64::MAX
            ==> (text::number(digits.push(last)) matches Some(value) && value == 10 * (text::number(
            digits,
        )->0) + (last as int - '0' as int)),
        '0' <= last <= '9' && 10 * (text::number(digits)->0) + (last as int - '0' as int) > u64::MAX
            ==> text::number(digits.push(last)) is None,
{
    let plain = text::unsigned(digits);
    let longer = text::unsigned(digits.push(last));
    assert(longer =~= plain.push(last));
    assert(longer.drop_last() =~= plain);
    assert(longer.last() == last);
    text::lemma_decimal_value(plain, 0);
    assert(plain.take(0) =~= Seq::<char>::empty());
    assert forall|i: int| 0 < i < digits.len() implies '0' <= #[trigger] digits[i] <= '9' by {
        if digits[0] == '+' {
            assert(text::digit(plain[i - 1]));
        } else {
            assert(text::digit(plain[i]));
        }
    }
    if digits[0] != '+' {
        assert(text::digit(plain[0]));
    }
    if '0' <= last <= '9' {
        assert forall|i: int| 0 <= i < longer.len() implies text::digit(#[trigger] longer[i]) by {
            if i < plain.len() {
                assert(longer[i] == plain[i]);
            }
        }
    } else {
        assert(longer[plain.len() as int] == last);
    }
}

/// The hexadecimal digits of a number, from the last one on, are those of the number.
pub proof fn law_hexadecimal_digits(value: int, count: nat, at: int)
    requires
        0 <= value,
        0 <= at < count,
    ensures
        text::hexadecimal(value, count).len() == count,
        text::hexadecimal(value, count)[count - 1 - at] == "0123456789abcdef"@[(value / pow(
            16,
            at as nat,
        )) % 16],
    decreases count,
{
    reveal_strlit("0123456789abcdef");
    lemma_pow0(16);
    let rest = value / 16;
    let front = text::hexadecimal(rest, (count - 1) as nat);
    if count == 1 {
        assert(front =~= Seq::<char>::empty());
        assert(value / 1 == value);
    } else if at == 0 {
        law_hexadecimal_digits(rest, (count - 1) as nat, 0);
        assert(value / 1 == value);
    } else {
        law_hexadecimal_digits(rest, (count - 1) as nat, at - 1);
        lemma_pow_positive(16, (at - 1) as nat);
        lemma_div_denominator(value, 16, pow(16, (at - 1) as nat));
        vstd::arithmetic::power::lemma_pow_adds(16, 1, (at - 1) as nat);
        vstd::arithmetic::power::lemma_pow1(16);
        assert(text::hexadecimal(value, count)[count - 1 - at] == front[count - 2 - (at - 1)]);
    }
}

} // verus!
