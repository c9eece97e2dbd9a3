//! Text as a sequence of characters: the small operations that the rest of the
//! library is built from.

use vstd::prelude::*;

verus! {

// ---------------------------------------------------------------------------
// What is believed of the standard library
// ---------------------------------------------------------------------------

/// `String::push` appends one character to the end of the string.
pub assume_specification[ std::string::String::push ](buffer: &mut std::string::String, ch: char)
    ensures
        final(buffer)@ == old(buffer)@.push(ch),
;

/// `==` on `str`: two strings are equal when they hold the same characters.
#[verifier::external_body]
pub(crate) fn same_text(left: &str, right: &str) -> (same: bool)
    ensures
        same == (left@ == right@),
{
    left == right
}

/// The characters of ASCII.
pub open spec fn is_ascii(character: char) -> bool {
    character as u32 <= 0x7f
}

pub open spec fn is_small_ascii(character: char) -> bool {
    'a' <= character && character <= 'z'
}

pub open spec fn is_large_ascii(character: char) -> bool {
    'A' <= character && character <= 'Z'
}

pub open spec fn is_digit(character: char) -> bool {
    '0' <= character && character <= '9'
}

/// An ASCII capital as a small letter; every other character as it is.
pub open spec fn ascii_lower(character: char) -> char {
    if is_large_ascii(character) {
        (character as u32 + 32) as char
    } else {
        character
    }
}

/// A small ASCII letter as a capital; every other character as it is.
pub open spec fn ascii_upper(character: char) -> char {
    if is_small_ascii(character) {
        (character as u32 - 32) as char
    } else {
        character
    }
}

/// Whether a character beyond ASCII is a letter or a number, by the Unicode
/// tables of the standard library.
pub uninterp spec fn is_other_letter_or_number(character: char) -> bool;

/// Letters and numbers.
pub open spec fn is_letter_or_number(character: char) -> bool {
    if is_ascii(character) {
        is_small_ascii(character) || is_large_ascii(character) || is_digit(character)
    } else {
        is_other_letter_or_number(character)
    }
}

/// `char::is_alphanumeric`, a fixed table lookup on the character alone: of ASCII,
/// the letters and digits.
#[verifier::external_body]
pub(crate) fn char_is_alphanumeric(character: char) -> (known: bool)
    ensures
        known == is_letter_or_number(character),
        !is_ascii(character) ==> known == is_other_letter_or_number(character),
{
    character.is_alphanumeric()
}

/// Whether a character beyond ASCII has the Unicode property `Uppercase`.
pub uninterp spec fn is_other_capital(character: char) -> bool;

/// Capital letters.
pub open spec fn is_capital(character: char) -> bool {
    if is_ascii(character) {
        is_large_ascii(character)
    } else {
        is_other_capital(character)
    }
}

/// `char::is_uppercase`, a fixed table lookup on the character alone: of ASCII,
/// the capital letters.
#[verifier::external_body]
pub(crate) fn char_is_uppercase(character: char) -> (known: bool)
    ensures
        known == is_capital(character),
        !is_ascii(character) ==> known == is_other_capital(character),
{
    character.is_uppercase()
}

/// The lowercase mapping of one character beyond ASCII, which may be several
/// characters.
pub uninterp spec fn other_lowercase(character: char) -> Seq<char>;

/// The lowercase mapping of one character.
pub open spec fn lowercase_of(character: char) -> Seq<char> {
    if is_ascii(character) {
        seq![ascii_lower(character)]
    } else {
        other_lowercase(character)
    }
}

/// `char::to_lowercase` collected into a vector: the mapping of the character
/// alone, at least one character long. Of ASCII, the capitals become small and
/// the others stay; beyond it, no mapping holds a slash or a hyphen.
#[verifier::external_body]
pub(crate) fn char_to_lowercase(character: char) -> (mapped: Vec<char>)
    ensures
        mapped@ == lowercase_of(character),
        !is_ascii(character) ==> mapped@ == other_lowercase(character),
        !is_ascii(character) ==> !mapped@.contains('/') && !mapped@.contains('-'),
        mapped@.len() >= 1,
{
    character.to_lowercase().collect()
}

/// The uppercase mapping of one character beyond ASCII, which may be several
/// characters.
pub uninterp spec fn other_uppercase(character: char) -> Seq<char>;

/// The uppercase mapping of one character.
pub open spec fn uppercase_of(character: char) -> Seq<char> {
    if is_ascii(character) {
        seq![ascii_upper(character)]
    } else {
        other_uppercase(character)
    }
}

/// `char::to_uppercase` collected into a vector: the mapping of the character
/// alone, at least one character long. Of ASCII, the small letters become
/// capitals and the others stay.
#[verifier::external_body]
pub(crate) fn char_to_uppercase(character: char) -> (mapped: Vec<char>)
    ensures
        mapped@ == uppercase_of(character),
        !is_ascii(character) ==> mapped@ == other_uppercase(character),
        mapped@.len() >= 1,
{
    character.to_uppercase().collect()
}

/// A text of ASCII characters.
pub open spec fn is_ascii_text(text: Seq<char>) -> bool {
    forall|i: int| 0 <= i < text.len() ==> is_ascii(#[trigger] text[i])
}

/// The lowercase form of a text with characters beyond ASCII.
pub uninterp spec fn other_lowercase_text(text: Seq<char>) -> Seq<char>;

/// The lowercase form of a whole text.
pub open spec fn lowercase_text(text: Seq<char>) -> Seq<char> {
    if is_ascii_text(text) {
        text.map_values(|character: char| ascii_lower(character))
    } else {
        other_lowercase_text(text)
    }
}

/// `str::to_lowercase`: the lowercase form depends on the text alone. In a text of
/// ASCII characters the capitals become small and the others stay.
#[verifier::external_body]
pub(crate) fn to_lowercase(text: &str) -> (lower: String)
    ensures
        lower@ == lowercase_text(text@),
        !is_ascii_text(text@) ==> lower@ == other_lowercase_text(text@),
{
    text.to_lowercase()
}

/// The characters with the Unicode property `White_Space`.
pub open spec fn is_blank(character: char) -> bool {
    ||| 0x09 <= character as u32 <= 0x0d
    ||| character as u32 == 0x20
    ||| character as u32 == 0x85
    ||| character as u32 == 0xa0
    ||| character as u32 == 0x1680
    ||| 0x2000 <= character as u32 <= 0x200a
    ||| character as u32 == 0x2028
    ||| character as u32 == 0x2029
    ||| character as u32 == 0x202f
    ||| character as u32 == 0x205f
    ||| character as u32 == 0x3000
}

/// `char::is_whitespace` tells the characters with the `White_Space` property,
/// as the property list of the Unicode database enumerates them.
#[verifier::external_body]
pub(crate) fn char_is_whitespace(character: char) -> (blank: bool)
    ensures
        blank == is_blank(character),
{
    character.is_whitespace()
}

/// The control codes: the characters of the general category `Cc`.
pub open spec fn is_control_code(character: char) -> bool {
    character as u32 <= 0x1f || 0x7f <= character as u32 <= 0x9f
}

/// `char::is_control` tells the characters of the general category `Cc`.
#[verifier::external_body]
pub(crate) fn char_is_control(character: char) -> (control: bool)
    ensures
        control == is_control_code(character),
{
    character.is_control()
}

// ---------------------------------------------------------------------------
// Characters and strings
// ---------------------------------------------------------------------------

/// The characters of a string, in order.
pub fn to_chars(text: &str) -> (chars: Vec<char>)
    ensures
        chars@ == text@,
{
    let mut chars: Vec<char> = Vec::new();
    for character in it: text.chars()
        invariant
            it.seq() == text@,
            chars@ == text@.take(it.index() as int),
    {
        chars.push(character);
        assert(chars@ =~= text@.take(it.index() as int + 1));
    }
    assert(text@.take(text@.len() as int) =~= text@);
    chars
}

/// The string that holds `chars[from..to]`.
pub fn from_char_range(chars: &Vec<char>, from: usize, to: usize) -> (text: String)
    requires
        from <= to <= chars@.len(),
    ensures
        text@ == chars@.subrange(from as int, to as int),
{
    let mut text = String::new();
    let mut i: usize = from;
    assert(text@ =~= chars@.subrange(from as int, from as int));
    while i < to
        invariant
            from <= i <= to <= chars@.len(),
            text@ == chars@.subrange(from as int, i as int),
        decreases to - i,
    {
        text.push(chars[i]);
        assert(text@ =~= chars@.subrange(from as int, i as int + 1));
        i = i + 1;
    }
    text
}

/// The string that holds exactly `chars`.
pub fn from_chars(chars: &Vec<char>) -> (text: String)
    ensures
        text@ == chars@,
{
    let text = from_char_range(chars, 0, chars.len());
    assert(chars@.subrange(0, chars@.len() as int) =~= chars@);
    text
}

/// `left` followed by `right`.
pub fn join2(left: &str, right: &str) -> (text: String)
    ensures
        text@ == left@ + right@,
{
    let mut text = left.to_owned();
    text.append(right);
    text
}

/// The three texts one after the other.
pub fn join3(first: &str, second: &str, third: &str) -> (text: String)
    ensures
        text@ == first@ + second@ + third@,
{
    let mut text = join2(first, second);
    text.append(third);
    text
}

/// The first position at or after `from` that holds `wanted`, or the length.
pub open spec fn position_from(text: Seq<char>, wanted: char, from: int) -> int
    decreases text.len() - from,
{
    if from < 0 || from >= text.len() {
        text.len() as int
    } else if text[from] == wanted {
        from
    } else {
        position_from(text, wanted, from + 1)
    }
}

pub proof fn lemma_position_from(text: Seq<char>, wanted: char, from: int)
    requires
        0 <= from <= text.len(),
    ensures
        from <= position_from(text, wanted, from) <= text.len(),
        position_from(text, wanted, from) < text.len() ==> text[position_from(
            text,
            wanted,
            from,
        )] == wanted,
        forall|i: int|
            from <= i < position_from(text, wanted, from) ==> #[trigger] text[i] != wanted,
    decreases text.len() - from,
{
    if from < text.len() && text[from] != wanted {
        lemma_position_from(text, wanted, from + 1);
    }
}

pub fn find_char(chars: &Vec<char>, wanted: char, from: usize) -> (position: usize)
    requires
        from <= chars@.len(),
    ensures
        position as int == position_from(chars@, wanted, from as int),
        from <= position <= chars@.len(),
{
    let mut i: usize = from;
    while i < chars.len() && chars[i] != wanted
        invariant
            from <= i <= chars@.len(),
            position_from(chars@, wanted, from as int) == position_from(chars@, wanted, i as int),
        decreases chars@.len() - i,
    {
        i = i + 1;
    }
    i
}

/// `text` occurs in `pieces`.
pub open spec fn holds_text(pieces: Seq<String>, text: Seq<char>) -> bool {
    exists|i: int| 0 <= i < pieces.len() && #[trigger] pieces[i]@ == text
}

pub fn contains_text(pieces: &Vec<String>, text: &str) -> (found: bool)
    ensures
        found == holds_text(pieces@, text@),
{
    let mut i: usize = 0;
    while i < pieces.len()
        invariant
            i <= pieces@.len(),
            forall|j: int| 0 <= j < i ==> #[trigger] pieces@[j]@ != text@,
        decreases pieces@.len() - i,
    {
        if same_text(pieces[i].as_str(), text) {
            return true;
        }
        i = i + 1;
    }
    false
}

/// The characters of a string that may be missing.
pub open spec fn shown(text: Option<String>) -> Option<Seq<char>> {
    match text {
        Some(held) => Some(held@),
        None => None,
    }
}

/// The characters that a vector of strings stands for.
pub open spec fn texts(pieces: Seq<String>) -> Seq<Seq<char>> {
    pieces.map_values(|piece: String| piece@)
}

/// The same texts again.
pub fn copy_texts(pieces: &Vec<String>) -> (copied: Vec<String>)
    ensures
        texts(copied@) == texts(pieces@),
{
    let mut copied: Vec<String> = Vec::new();
    let mut i: usize = 0;
    while i < pieces.len()
        invariant
            i <= pieces@.len(),
            copied@.len() == i,
            forall|j: int| 0 <= j < i ==> (#[trigger] copied@[j])@ == pieces@[j]@,
        decreases pieces@.len() - i,
    {
        copied.push(pieces[i].clone());
        i = i + 1;
    }
    assert(texts(copied@) =~= texts(pieces@));
    copied
}

pub fn to_ascii_lower(character: char) -> (lower: char)
    ensures
        lower == ascii_lower(character),
{
    if 'A' <= character && character <= 'Z' {
        (character as u8 + 32) as char
    } else {
        character
    }
}

/// Two texts that differ at most in the case of ASCII letters.
pub open spec fn same_ignoring_case(left: Seq<char>, right: Seq<char>) -> bool {
    left.len() == right.len() && forall|i: int|
        0 <= i < left.len() ==> ascii_lower(#[trigger] left[i]) == ascii_lower(right[i])
}

pub fn matches_ignoring_case(left: &str, right: &str) -> (same: bool)
    ensures
        same == same_ignoring_case(left@, right@),
{
    let left_chars = to_chars(left);
    let right_chars = to_chars(right);
    if left_chars.len() != right_chars.len() {
        return false;
    }
    let mut i: usize = 0;
    while i < left_chars.len()
        invariant
            left_chars@ == left@,
            right_chars@ == right@,
            left@.len() == right@.len(),
            i <= left@.len(),
            forall|j: int|
                0 <= j < i ==> ascii_lower(#[trigger] left@[j]) == ascii_lower(right@[j]),
        decreases left@.len() - i,
    {
        if to_ascii_lower(left_chars[i]) != to_ascii_lower(right_chars[i]) {
            assert(ascii_lower(left@[i as int]) != ascii_lower(right@[i as int]));
            return false;
        }
        i = i + 1;
    }
    true
}

// ---------------------------------------------------------------------------
// Numbers
// ---------------------------------------------------------------------------

/// The character of a decimal digit.
pub open spec fn digit_char(digit: nat) -> char {
    (('0' as u32) + digit) as char
}

/// A number in decimal, without leading zeros.
pub open spec fn decimal(number: nat) -> Seq<char>
    decreases number,
{
    if number < 10 {
        seq![digit_char(number)]
    } else {
        decimal(number / 10).push(digit_char(number % 10))
    }
}

/// `count` zeros.
pub open spec fn zeros(count: nat) -> Seq<char> {
    Seq::new(count, |i: int| '0')
}

/// A number in decimal, filled up with zeros in front to at least `width` digits.
pub open spec fn padded(number: nat, width: nat) -> Seq<char> {
    let digits = decimal(number);
    if digits.len() < width {
        zeros((width - digits.len()) as nat) + digits
    } else {
        digits
    }
}

fn digit_to_char(digit: u64) -> (character: char)
    requires
        digit < 10,
    ensures
        character == digit_char(digit as nat),
{
    (48u8 + digit as u8) as char
}

/// The decimal digits of a number.
pub fn decimal_chars(number: u64) -> (digits: Vec<char>)
    ensures
        digits@ == decimal(number as nat),
        1 <= digits@.len() <= 20,
    decreases number,
{
    proof {
        lemma_decimal_len(number as nat);
    }
    if number < 10 {
        let mut digits: Vec<char> = Vec::new();
        digits.push(digit_to_char(number));
        assert(digits@ =~= seq![digit_char(number as nat)]);
        digits
    } else {
        let mut digits = decimal_chars(number / 10);
        digits.push(digit_to_char(number % 10));
        digits
    }
}

pub open spec fn power_of_ten(exponent: nat) -> nat
    decreases exponent,
{
    if exponent == 0 {
        1
    } else {
        10 * power_of_ten((exponent - 1) as nat)
    }
}

proof fn lemma_decimal_len(number: nat)
    requires
        number <= u64::MAX,
    ensures
        1 <= decimal(number).len() <= 20,
{
    assert(power_of_ten(20) == 100000000000000000000) by {
        reveal_with_fuel(power_of_ten, 21);
    }
    lemma_decimal_width(number, 20);
}

/// A number below `10^width` has at most `width` digits.
pub proof fn lemma_decimal_width(number: nat, width: nat)
    requires
        number < power_of_ten(width),
        width >= 1,
    ensures
        1 <= decimal(number).len() <= width,
    decreases width,
{
    if number >= 10 {
        if width == 1 {
            assert(power_of_ten(1) == 10) by {
                reveal_with_fuel(power_of_ten, 2);
            }
        } else {
            lemma_decimal_width(number / 10, (width - 1) as nat);
        }
    }
}

/// `number` in decimal.
pub fn decimal_text(number: u64) -> (text: String)
    ensures
        text@ == decimal(number as nat),
{
    let digits = decimal_chars(number);
    from_chars(&digits)
}

/// `number` in decimal with at least `width` digits.
pub fn padded_text(number: u64, width: usize) -> (text: String)
    ensures
        text@ == padded(number as nat, width as nat),
{
    let digits = decimal_chars(number);
    let mut text = String::new();
    if digits.len() < width {
        let missing: usize = width - digits.len();
        let mut i: usize = 0;
        while i < missing
            invariant
                i <= missing,
                text@ =~= zeros(i as nat),
            decreases missing - i,
        {
            text.push('0');
            i = i + 1;
        }
    }
    let shown = from_chars(&digits);
    text.append(shown.as_str());
    assert(digits@.len() >= width ==> text@ =~= digits@);
    text
}

/// The value of a run of decimal digits; nothing when it is empty or holds
/// another character.
pub open spec fn digits_value(digits: Seq<char>) -> Option<nat>
    decreases digits.len(),
{
    if digits.len() == 0 {
        None
    } else if !is_digit(digits.last()) {
        None
    } else if digits.len() == 1 {
        Some((digits.last() as u32 - '0' as u32) as nat)
    } else {
        match digits_value(digits.drop_last()) {
            Some(value) => Some(value * 10 + (digits.last() as u32 - '0' as u32) as nat),
            None => None,
        }
    }
}

/// A decimal integer with an optional sign, where it lies between the bounds.
pub open spec fn integer_value(text: Seq<char>, least: int, greatest: int) -> Option<int> {
    let signed = text.len() > 0 && (text[0] == '+' || text[0] == '-');
    let digits = if signed {
        text.skip(1)
    } else {
        text
    };
    match digits_value(digits) {
        Some(value) => {
            let number = if signed && text[0] == '-' {
                -(value as int)
            } else {
                value as int
            };
            if least <= number <= greatest {
                Some(number)
            } else {
                None
            }
        },
        None => None,
    }
}

/// An unsigned decimal integer with an optional plus sign, where it fits.
pub open spec fn natural_value(text: Seq<char>, greatest: int) -> Option<int> {
    if text.len() > 0 && text[0] == '-' {
        None
    } else {
        integer_value(text, 0, greatest)
    }
}

proof fn lemma_digits_prefix(digits: Seq<char>, shorter: int)
    requires
        1 <= shorter <= digits.len(),
        digits_value(digits) is Some,
    ensures
        digits_value(digits.take(shorter)) is Some,
        digits_value(digits.take(shorter))->0 <= digits_value(digits)->0,
    decreases digits.len(),
{
    if shorter == digits.len() {
        assert(digits.take(shorter) =~= digits);
    } else {
        lemma_digits_prefix(digits.drop_last(), shorter);
        assert(digits.drop_last().take(shorter) =~= digits.take(shorter));
    }
}

proof fn lemma_digits_bad_char(digits: Seq<char>, position: int)
    requires
        0 <= position < digits.len(),
        !is_digit(digits[position]),
    ensures
        digits_value(digits) is None,
    decreases digits.len(),
{
    if position < digits.len() - 1 {
        lemma_digits_bad_char(digits.drop_last(), position);
    }
}

/// The value of `chars[from..]` where it is a run of digits worth at most `limit`.
fn digits_at_most(chars: &Vec<char>, from: usize, limit: u64) -> (result: Option<u64>)
    requires
        from <= chars@.len(),
    ensures
        match result {
            Some(value) => digits_value(chars@.skip(from as int)) == Some(value as nat) && value
                <= limit,
            None => digits_value(chars@.skip(from as int)) is None || digits_value(
                chars@.skip(from as int),
            )->0 > limit,
        },
{
    let ghost digits = chars@.skip(from as int);
    if from == chars.len() {
        return None;
    }
    let mut value: u64 = 0;
    let mut i: usize = from;
    while i < chars.len()
        invariant
            from <= i <= chars@.len(),
            digits == chars@.skip(from as int),
            value <= limit,
            i == from ==> value == 0,
            i > from ==> digits_value(digits.take(i - from)) == Some(value as nat),
        decreases chars@.len() - i,
    {
        let character = chars[i];
        proof {
            assert(digits[i - from] == character);
            assert(digits.take(i - from + 1).drop_last() =~= digits.take(i - from));
            assert(digits.take(i - from + 1).last() == character);
        }
        if character < '0' || character > '9' {
            proof {
                lemma_digits_bad_char(digits, i - from);
            }
            return None;
        }
        let digit: u64 = (character as u32 - 48) as u64;
        proof {
            if digits_value(digits) is Some {
                lemma_digits_prefix(digits, i - from + 1);
            }
        }
        if value > (u64::MAX - digit) / 10 {
            return None;
        }
        let next: u64 = value * 10 + digit;
        if next > limit {
            return None;
        }
        value = next;
        i = i + 1;
    }
    assert(digits.take(digits.len() as int) =~= digits);
    Some(value)
}

/// A signed 64-bit integer in decimal, with an optional sign.
pub fn parse_i64(text: &str) -> (result: Option<i64>)
    ensures
        match result {
            Some(value) => integer_value(text@, i64::MIN as int, i64::MAX as int) == Some(
                value as int,
            ),
            None => integer_value(text@, i64::MIN as int, i64::MAX as int) is None,
        },
{
    let chars = to_chars(text);
    if chars.len() > 0 && (chars[0] == '+' || chars[0] == '-') {
        if chars[0] == '-' {
            match digits_at_most(&chars, 1, 9223372036854775808) {
                Some(value) => {
                    if value == 9223372036854775808 {
                        Some(i64::MIN)
                    } else {
                        Some(-(value as i64))
                    }
                },
                None => None,
            }
        } else {
            match digits_at_most(&chars, 1, 9223372036854775807) {
                Some(value) => Some(value as i64),
                None => None,
            }
        }
    } else {
        assert(chars@.skip(0) =~= chars@);
        match digits_at_most(&chars, 0, 9223372036854775807) {
            Some(value) => Some(value as i64),
            None => None,
        }
    }
}

/// An unsigned 64-bit integer in decimal, with an optional plus sign.
pub fn parse_u64(text: &str) -> (result: Option<u64>)
    ensures
        match result {
            Some(value) => natural_value(text@, u64::MAX as int) == Some(value as int),
            None => natural_value(text@, u64::MAX as int) is None,
        },
{
    let chars = to_chars(text);
    if chars.len() > 0 && chars[0] == '+' {
        digits_at_most(&chars, 1, u64::MAX)
    } else {
        assert(chars@.skip(0) =~= chars@);
        proof {
            if chars@.len() > 0 && chars@[0] == '-' {
                lemma_digits_bad_char(chars@, 0);
            }
        }
        digits_at_most(&chars, 0, u64::MAX)
    }
}

// ---------------------------------------------------------------------------
// Laws of numbers as text
// ---------------------------------------------------------------------------

/// Reading a number gives back what was written.
pub proof fn reading_undoes_writing(number: nat)
    ensures
        digits_value(decimal(number)) == Some(number),
        decimal(number).len() >= 1,
    decreases number,
{
    let digits = decimal(number);
    if number >= 10 {
        reading_undoes_writing(number / 10);
        assert(digits.drop_last() =~= decimal(number / 10));
        assert(digits.len() >= 2);
    }
}

/// Zeros in front do not change what is read.
pub proof fn zeros_in_front_say_nothing(digits: Seq<char>, count: nat)
    requires
        digits_value(digits) is Some,
    ensures
        digits_value(zeros(count) + digits) == digits_value(digits),
    decreases digits.len(), count,
{
    let filled = zeros(count) + digits;
    if count == 0 {
        assert(filled =~= digits);
    } else if digits.len() == 1 {
        assert(filled.drop_last() =~= zeros(count));
        lemma_zeros_value(count);
    } else {
        zeros_in_front_say_nothing(digits.drop_last(), count);
        assert(filled.drop_last() =~= zeros(count) + digits.drop_last());
    }
}

proof fn lemma_zeros_value(count: nat)
    requires
        count > 0,
    ensures
        digits_value(zeros(count)) == Some(0nat),
    decreases count,
{
    if count > 1 {
        lemma_zeros_value((count - 1) as nat);
        assert(zeros(count).drop_last() =~= zeros((count - 1) as nat));
    }
}

/// Reading a number that was filled up with zeros gives back what was written.
pub proof fn reading_undoes_padding(number: nat, width: nat)
    ensures
        digits_value(padded(number, width)) == Some(number),
        padded(number, width).len() >= 1,
{
    reading_undoes_writing(number);
    let digits = decimal(number);
    if digits.len() < width {
        zeros_in_front_say_nothing(digits, (width - digits.len()) as nat);
    }
}

/// A run of digits that has a value holds nothing but digits.
pub proof fn a_value_is_made_of_digits(digits: Seq<char>)
    requires
        digits_value(digits) is Some,
    ensures
        forall|i: int| 0 <= i < digits.len() ==> is_digit(#[trigger] digits[i]),
{
    assert forall|i: int| 0 <= i < digits.len() implies is_digit(#[trigger] digits[i]) by {
        if !is_digit(digits[i]) {
            lemma_digits_bad_char(digits, i);
        }
    }
}

} // verus!
