//! Characters, letters and numbers.

use vstd::prelude::*;

use crate::order::{self, Placement};
use crate::text;
use crate::words;

verus! {

/// Capitals of ASCII become small and small letters capital; every other character of
/// ASCII stays.
pub proof fn letters_have_two_cases(character: char)
    ensures
        'A' <= character && character <= 'Z' ==> text::ascii_lower(character) as u32
            == character as u32 + 32 && text::lowercase_of(character) == seq![
            (character as u32 + 32) as char,
        ] && text::ascii_upper(text::ascii_lower(character)) == character,
        'a' <= character && character <= 'z' ==> text::ascii_upper(character) as u32
            == character as u32 - 32 && text::uppercase_of(character) == seq![
            (character as u32 - 32) as char,
        ] && text::ascii_lower(text::ascii_upper(character)) == character,
        !('A' <= character && character <= 'Z') ==> text::ascii_lower(character) == character,
        !('a' <= character && character <= 'z') ==> text::ascii_upper(character) == character,
        (character as u32) < 128 && !('A' <= character && character <= 'Z')
            ==> text::lowercase_of(character) == seq![character],
        (character as u32) < 128 && !('a' <= character && character <= 'z')
            ==> text::uppercase_of(character) == seq![character],
{
}

/// In ASCII the letters and digits count as such, and the capitals as capitals.
pub proof fn letters_and_digits_count(character: char)
    requires
        (character as u32) < 128,
    ensures
        text::is_letter_or_number(character) <==> (('a' <= character && character <= 'z') || ('A'
            <= character && character <= 'Z') || ('0' <= character && character <= '9')),
        text::is_capital(character) <==> ('A' <= character && character <= 'Z'),
        text::is_control_code(character) <==> ((character as u32) < 32 || character as u32 == 127),
        text::is_blank(character) <==> (character == ' ' || character == '\t' || character == '\n'
            || character == '\r' || character as u32 == 11 || character as u32 == 12),
{
}

/// A text of ASCII is written small letter by letter.
pub proof fn a_text_is_written_small(text: Seq<char>, place: int)
    requires
        forall|i: int| 0 <= i < text.len() ==> ((#[trigger] text[i]) as u32) < 128,
        0 <= place < text.len(),
    ensures
        text::lowercase_text(text).len() == text.len(),
        'A' <= text[place] && text[place] <= 'Z' ==> text::lowercase_text(text)[place] as u32
            == text[place] as u32 + 32,
        !('A' <= text[place] && text[place] <= 'Z') ==> text::lowercase_text(text)[place]
            == text[place],
{
    assert(text::is_ascii_text(text));
}

/// Two texts are the same but for case where each character is the same, or a letter of
/// ASCII in the other case.
pub proof fn the_same_but_for_case(left: Seq<char>, right: Seq<char>)
    ensures
        text::same_ignoring_case(left, right) <==> (left.len() == right.len() && forall|i: int|
            0 <= i < left.len() ==> (#[trigger] left[i] == right[i] || ('A' <= left[i] && left[i]
                <= 'Z' && right[i] as u32 == left[i] as u32 + 32) || ('A' <= right[i] && right[i]
                <= 'Z' && left[i] as u32 == right[i] as u32 + 32))),
{
    if text::same_ignoring_case(left, right) {
        assert forall|i: int| 0 <= i < left.len() implies (#[trigger] left[i] == right[i] || ('A'
            <= left[i] && left[i] <= 'Z' && right[i] as u32 == left[i] as u32 + 32) || ('A'
            <= right[i] && right[i] <= 'Z' && left[i] as u32 == right[i] as u32 + 32)) by {
            assert(text::ascii_lower(left[i]) == text::ascii_lower(right[i]));
        }
    }
}

/// A number is written in its digits, the last one last, without zeros in front.
pub proof fn a_number_is_written_in_digits(number: nat, digit: nat)
    requires
        digit < 10,
    ensures
        text::decimal(digit).len() == 1,
        text::decimal(digit)[0] as u32 == '0' as u32 + digit,
        number > 0 ==> text::decimal(number * 10 + digit) == text::decimal(number)
            + text::decimal(digit),
        number > 0 ==> text::decimal(number)[0] != '0',
{
    if number > 0 {
        assert((number * 10 + digit) / 10 == number);
        assert((number * 10 + digit) % 10 == digit);
        assert(text::decimal(number * 10 + digit) =~= text::decimal(number) + text::decimal(digit));
        lemma_no_zero_in_front(number);
    }
}

proof fn lemma_no_zero_in_front(number: nat)
    requires
        number > 0,
    ensures
        text::decimal(number).len() > 0,
        text::decimal(number)[0] != '0',
    decreases number,
{
    if number >= 10 {
        lemma_no_zero_in_front(number / 10);
        assert(text::decimal(number)[0] == text::decimal(number / 10)[0]);
    }
}

/// A number is filled up with zeros in front to a width, and not cut off beyond it.
pub proof fn a_number_is_filled_up_with_zeros(number: nat, width: nat)
    ensures
        text::padded(number, width).len() >= width,
        text::decimal(number).len() >= width ==> text::padded(number, width) == text::decimal(
            number,
        ),
        text::decimal(number).len() < width ==> ({
            let shown = text::padded(number, width);
            let zeros = width - text::decimal(number).len();
            &&& shown.len() == width
            &&& shown.skip(zeros) == text::decimal(number)
            &&& forall|i: int| 0 <= i < zeros ==> #[trigger] shown[i] == '0'
        }),
{
    if text::decimal(number).len() < width {
        let shown = text::padded(number, width);
        let zeros = width - text::decimal(number).len();
        assert(shown.skip(zeros) =~= text::decimal(number));
    }
}

/// An integer is read with or without a sign, where it lies between the bounds; a
/// natural number is never negative.
pub proof fn integers_are_read_with_their_sign(number: nat, least: int, greatest: int)
    ensures
        ({
            let digits = text::decimal(number);
            &&& text::integer_value(digits, least, greatest) == if least <= number <= greatest {
                Some(number as int)
            } else {
                None
            }
            &&& text::integer_value(seq!['+'] + digits, least, greatest) == if least <= number
                <= greatest {
                Some(number as int)
            } else {
                None
            }
            &&& text::integer_value(seq!['-'] + digits, least, greatest) == if least <= -number
                <= greatest {
                Some(-(number as int))
            } else {
                None
            }
            &&& text::natural_value(digits, greatest) == if number <= greatest {
                Some(number as int)
            } else {
                None
            }
            &&& text::natural_value(seq!['-'] + digits, greatest) is None
        }),
        text::integer_value(Seq::empty(), least, greatest) is None,
{
    let digits = text::decimal(number);
    text::reading_undoes_writing(number);
    text::a_value_is_made_of_digits(digits);
    assert(digits.len() > 0);
    assert((seq!['+'] + digits).skip(1) =~= digits);
    assert((seq!['-'] + digits).skip(1) =~= digits);
    assert((seq!['+'] + digits)[0] == '+');
    assert((seq!['-'] + digits)[0] == '-');
    assert(text::is_digit(digits[0]));
}

/// A text stands in another where that is the text with something before and after it.
pub proof fn a_part_stands_in_the_whole(front: Seq<char>, part: Seq<char>, back: Seq<char>)
    ensures
        words::occurs_in(part, front + part + back),
{
    let whole = front + part + back;
    assert(part =~= whole.subrange(front.len() as int, front.len() as int + part.len()));
    assert(words::stands_at(part, whole, front.len() as int));
}

/// What stands in a text is a part of it.
pub proof fn what_stands_in_a_text_is_a_part(part: Seq<char>, whole: Seq<char>)
    requires
        words::occurs_in(part, whole),
    ensures
        exists|front: Seq<char>, back: Seq<char>| #[trigger] (front + part + back) == whole,
{
    let at = choose|at: int| #[trigger] words::stands_at(part, whole, at);
    assert(whole.take(at) + part + whole.skip(at + part.len()) =~= whole);
}

/// Texts are ordered as in a dictionary: a text stands before all that go on from it, and
/// where two differ, their first different characters decide; none stands before itself.
pub proof fn texts_are_ordered_as_in_a_dictionary(
    start: Seq<char>,
    left: char,
    right: char,
    left_rest: Seq<char>,
    right_rest: Seq<char>,
)
    requires
        left < right,
    ensures
        order::text_before(start + seq![left] + left_rest, start + seq![right] + right_rest),
        !order::text_before(start + seq![right] + right_rest, start + seq![left] + left_rest),
        order::text_before(start, start + seq![left] + left_rest),
        !order::text_before(start + seq![left] + left_rest, start),
        !order::text_before(start, start),
        order::text_placement(start + seq![left] + left_rest, start + seq![right] + right_rest)
            == Placement::Before,
        order::text_placement(start + seq![right] + right_rest, start + seq![left] + left_rest)
            == Placement::After,
        order::text_placement(start, start) == Placement::Same,
    decreases start.len(),
{
    let lower = start + seq![left] + left_rest;
    let upper = start + seq![right] + right_rest;
    assert(lower[start.len() as int] == left);
    assert(upper[start.len() as int] == right);
    if start.len() > 0 {
        let rest = start.drop_first();
        texts_are_ordered_as_in_a_dictionary(rest, left, right, left_rest, right_rest);
        assert(lower.drop_first() =~= rest + seq![left] + left_rest);
        assert(upper.drop_first() =~= rest + seq![right] + right_rest);
        assert(lower[0] == start[0] && upper[0] == start[0]);
    }
}

} // verus!
