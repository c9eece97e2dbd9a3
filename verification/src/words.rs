//! Words, lines and the trimming of text.

use vstd::prelude::*;

use crate::text::{self, char_is_whitespace, find_char, from_char_range, to_chars};

verus! {

/// Every character is white space.
pub open spec fn all_blank(text: Seq<char>) -> bool {
    forall|i: int| 0 <= i < text.len() ==> text::is_blank(#[trigger] text[i])
}

/// Whether a line holds nothing but white space.
pub fn is_blank_line(text: &str) -> (blank: bool)
    ensures
        blank == all_blank(text@),
{
    let chars = to_chars(text);
    let mut i: usize = 0;
    while i < chars.len()
        invariant
            chars@ == text@,
            i <= chars@.len(),
            forall|j: int| 0 <= j < i ==> text::is_blank(#[trigger] text@[j]),
        decreases chars@.len() - i,
    {
        if !char_is_whitespace(chars[i]) {
            assert(!text::is_blank(text@[i as int]));
            return false;
        }
        i = i + 1;
    }
    true
}

/// The words of a text with one space between them: white space at both ends is
/// dropped and every other run of it becomes one space.
pub open spec fn single_spaced(text: Seq<char>) -> Seq<char>
    decreases text.len(),
{
    if text.len() == 0 {
        Seq::empty()
    } else {
        let before = single_spaced(text.drop_last());
        if text::is_blank(text.last()) {
            before
        } else if before.len() > 0 && text::is_blank(text[text.len() - 2]) {
            before.push(' ').push(text.last())
        } else {
            before.push(text.last())
        }
    }
}

/// The words of `text`, joined by single spaces.
pub fn single_space(text: &str) -> (words: String)
    ensures
        words@ == single_spaced(text@),
{
    let chars = to_chars(text);
    let mut words = String::new();
    let mut empty = true;
    let mut i: usize = 0;
    while i < chars.len()
        invariant
            chars@ == text@,
            i <= chars@.len(),
            words@ == single_spaced(text@.take(i as int)),
            empty == (words@.len() == 0),
        decreases chars@.len() - i,
    {
        let ghost seen = text@.take(i as int + 1);
        assert(seen.drop_last() =~= text@.take(i as int));
        if !char_is_whitespace(chars[i]) {
            if !empty && char_is_whitespace(chars[i - 1]) {
                words.push(' ');
            }
            words.push(chars[i]);
            empty = false;
        }
        i = i + 1;
    }
    assert(text@.take(text@.len() as int) =~= text@);
    words
}

/// A line that ended in a line feed, without a carriage return before it.
pub open spec fn without_return(line: Seq<char>) -> Seq<char> {
    if line.len() > 0 && line.last() == '\r' {
        line.drop_last()
    } else {
        line
    }
}

/// The lines of `text[from..]`. A line ends at a line feed, with or without a
/// carriage return before it; what follows the last line feed is a line when it
/// is not empty.
pub open spec fn lines_from(text: Seq<char>, from: int) -> Seq<Seq<char>>
    decreases text.len() - from,
{
    if from < 0 || from >= text.len() {
        Seq::empty()
    } else {
        let end = text::position_from(text, '\n', from);
        if end < from || end >= text.len() {
            seq![text.subrange(from, text.len() as int)]
        } else {
            seq![without_return(text.subrange(from, end))] + lines_from(text, end + 1)
        }
    }
}

/// The lines of a text.
pub open spec fn lines_of(text: Seq<char>) -> Seq<Seq<char>> {
    lines_from(text, 0)
}

/// The lines of `text`.
pub fn lines(text: &str) -> (lines: Vec<String>)
    ensures
        text::texts(lines@) == lines_of(text@),
{
    let chars = to_chars(text);
    let mut lines: Vec<String> = Vec::new();
    let mut from: usize = 0;
    assert(text::texts(lines@) =~= Seq::empty());
    assert(Seq::<Seq<char>>::empty() + lines_of(text@) =~= lines_of(text@));
    while from < chars.len()
        invariant
            chars@ == text@,
            from <= chars@.len(),
            text::texts(lines@) + lines_from(text@, from as int) == lines_of(text@),
        decreases chars@.len() - from,
    {
        let ghost before = text::texts(lines@);
        let end: usize = find_char(&chars, '\n', from);
        if end == chars.len() {
            lines.push(from_char_range(&chars, from, end));
            from = end;
        } else {
            let mut stop: usize = end;
            if stop > from && chars[stop - 1] == '\r' {
                stop = stop - 1;
            }
            lines.push(from_char_range(&chars, from, stop));
            assert(without_return(text@.subrange(from as int, end as int)) =~= text@.subrange(
                from as int,
                stop as int,
            ));
            from = end + 1;
        }
        assert(text::texts(lines@) =~= before.push(lines@.last()@));
        assert(text::texts(lines@) + lines_from(text@, from as int) =~= lines_of(text@));
    }
    assert(text::texts(lines@) + Seq::<Seq<char>>::empty() =~= text::texts(lines@));
    lines
}

/// A text without the characters of `unwanted` at its end.
pub open spec fn trimmed_end(text: Seq<char>, unwanted: Seq<char>) -> Seq<char>
    decreases text.len(),
{
    if text.len() > 0 && unwanted.contains(text.last()) {
        trimmed_end(text.drop_last(), unwanted)
    } else {
        text
    }
}

/// A text without the characters of `unwanted` at its start.
pub open spec fn trimmed_start(text: Seq<char>, unwanted: Seq<char>) -> Seq<char>
    decreases text.len(),
{
    if text.len() > 0 && unwanted.contains(text.first()) {
        trimmed_start(text.drop_first(), unwanted)
    } else {
        text
    }
}

fn char_is_among(character: char, unwanted: &Vec<char>) -> (found: bool)
    ensures
        found == unwanted@.contains(character),
{
    let mut i: usize = 0;
    while i < unwanted.len()
        invariant
            i <= unwanted@.len(),
            forall|j: int| 0 <= j < i ==> unwanted@[j] != character,
        decreases unwanted@.len() - i,
    {
        if unwanted[i] == character {
            return true;
        }
        i = i + 1;
    }
    false
}

/// `chars` without the characters of `unwanted` at its end.
pub fn trim_end(chars: &Vec<char>, unwanted: &Vec<char>) -> (text: Vec<char>)
    ensures
        text@ == trimmed_end(chars@, unwanted@),
{
    let mut text = chars.clone();
    assert(text@ =~= chars@);
    while text.len() > 0 && char_is_among(text[text.len() - 1], unwanted)
        invariant
            trimmed_end(text@, unwanted@) == trimmed_end(chars@, unwanted@),
        decreases text@.len(),
    {
        let ghost longer = text@;
        text.pop();
        assert(text@ =~= longer.drop_last());
    }
    text
}

/// `chars` without the characters of `unwanted` at either end.
pub fn trim_both(chars: &Vec<char>, unwanted: &Vec<char>) -> (text: Vec<char>)
    ensures
        text@ == trimmed_end(trimmed_start(chars@, unwanted@), unwanted@),
{
    let mut start: usize = 0;
    assert(chars@.skip(0) =~= chars@);
    while start < chars.len() && char_is_among(chars[start], unwanted)
        invariant
            start <= chars@.len(),
            trimmed_start(chars@.skip(start as int), unwanted@) == trimmed_start(
                chars@,
                unwanted@,
            ),
        decreases chars@.len() - start,
    {
        assert(chars@.skip(start as int).first() == chars@[start as int]);
        assert(chars@.skip(start as int).drop_first() =~= chars@.skip(start as int + 1));
        start = start + 1;
    }
    assert(start < chars@.len() ==> chars@.skip(start as int).first() == chars@[start as int]);
    let mut rest: Vec<char> = Vec::new();
    let mut i: usize = start;
    while i < chars.len()
        invariant
            start <= i <= chars@.len(),
            rest@ =~= chars@.subrange(start as int, i as int),
        decreases chars@.len() - i,
    {
        rest.push(chars[i]);
        i = i + 1;
    }
    assert(rest@ =~= chars@.skip(start as int));
    trim_end(&rest, unwanted)
}

pub proof fn lemma_trimmed_end(text: Seq<char>, unwanted: Seq<char>)
    ensures
        trimmed_end(text, unwanted).len() <= text.len(),
        trimmed_end(text, unwanted) == text.take(trimmed_end(text, unwanted).len() as int),
        trimmed_end(text, unwanted).len() > 0 ==> !unwanted.contains(
            trimmed_end(text, unwanted).last(),
        ),
    decreases text.len(),
{
    if text.len() > 0 && unwanted.contains(text.last()) {
        lemma_trimmed_end(text.drop_last(), unwanted);
        let kept = trimmed_end(text, unwanted);
        assert(text.drop_last().take(kept.len() as int) =~= text.take(kept.len() as int));
    } else {
        assert(text.take(text.len() as int) =~= text);
    }
}

pub proof fn lemma_trimmed_start(text: Seq<char>, unwanted: Seq<char>)
    ensures
        trimmed_start(text, unwanted).len() <= text.len(),
        trimmed_start(text, unwanted) == text.skip(
            text.len() - trimmed_start(text, unwanted).len(),
        ),
        trimmed_start(text, unwanted).len() > 0 ==> !unwanted.contains(
            trimmed_start(text, unwanted).first(),
        ),
    decreases text.len(),
{
    if text.len() > 0 && unwanted.contains(text.first()) {
        lemma_trimmed_start(text.drop_first(), unwanted);
        let kept = trimmed_start(text, unwanted);
        assert(text.drop_first().skip(text.len() - 1 - kept.len()) =~= text.skip(
            text.len() - kept.len(),
        ));
    } else {
        assert(text.skip(0) =~= text);
    }
}

/// Nothing in single-spaced text is white space but the spaces between words:
/// none of them stands at an end and no two of them stand together.
pub proof fn single_spaced_text_has_no_loose_space(text: Seq<char>)
    ensures
        ({
            let words = single_spaced(text);
            &&& words.len() > 0 ==> !text::is_blank(words.first()) && !text::is_blank(words.last())
            &&& forall|i: int|
                0 <= i < words.len() && text::is_blank(#[trigger] words[i]) ==> words[i] == ' '
            &&& forall|i: int|
                0 <= i < words.len() - 1 && text::is_blank(#[trigger] words[i]) ==> !text::is_blank(
                    words[i + 1],
                )
        }),
    decreases text.len(),
{
    if text.len() > 0 {
        single_spaced_text_has_no_loose_space(text.drop_last());
    }
}

/// Every blank of a text is a space, and a character that is no blank stands
/// before it.
pub open spec fn is_neat(text: Seq<char>) -> bool {
    forall|i: int|
        0 <= i < text.len() && text::is_blank(#[trigger] text[i]) ==> text[i] == ' ' && i > 0
            && !text::is_blank(text[i - 1])
}

/// Single spacing leaves a text as it is whose words stand one space apart; a
/// space at its end is dropped.
pub proof fn neat_text_is_single_spaced(text: Seq<char>)
    requires
        is_neat(text),
    ensures
        single_spaced(text) == if text.len() > 0 && text::is_blank(text.last()) {
            text.drop_last()
        } else {
            text
        },
    decreases text.len(),
{
    if text.len() > 0 {
        let rest = text.drop_last();
        assert(is_neat(rest)) by {
            assert forall|i: int| 0 <= i < rest.len() && text::is_blank(#[trigger] rest[i]) implies rest[i]
                == ' ' && i > 0 && !text::is_blank(rest[i - 1]) by {
                assert(rest[i] == text[i]);
            }
        }
        neat_text_is_single_spaced(rest);
        assert(text.last() == text[text.len() - 1]);
        if rest.len() > 0 {
            assert(rest.last() == text[text.len() - 2]);
        }
        assert(single_spaced(text) =~= if text::is_blank(text.last()) {
            text.drop_last()
        } else {
            text
        });
    }
}

/// A text without the blanks at its start.
pub open spec fn without_leading_blanks(text: Seq<char>) -> Seq<char>
    decreases text.len(),
{
    if text.len() > 0 && text::is_blank(text.first()) {
        without_leading_blanks(text.drop_first())
    } else {
        text
    }
}

/// A text without the blanks at its end.
pub open spec fn without_trailing_blanks(text: Seq<char>) -> Seq<char>
    decreases text.len(),
{
    if text.len() > 0 && text::is_blank(text.last()) {
        without_trailing_blanks(text.drop_last())
    } else {
        text
    }
}

/// A text without the blanks around it.
pub fn trim_blanks(text: &str) -> (trimmed: String)
    ensures
        trimmed@ == without_trailing_blanks(without_leading_blanks(text@)),
{
    let chars = to_chars(text);
    let mut from: usize = 0;
    assert(text@.skip(0) =~= text@);
    while from < chars.len() && char_is_whitespace(chars[from])
        invariant
            chars@ == text@,
            from <= chars@.len(),
            without_leading_blanks(text@) == without_leading_blanks(text@.skip(from as int)),
        decreases chars@.len() - from,
    {
        assert(text@.skip(from as int).drop_first() =~= text@.skip(from as int + 1));
        from = from + 1;
    }
    let ghost rest = text@.skip(from as int);
    assert(without_leading_blanks(text@) == rest);
    let mut to: usize = chars.len();
    assert(rest.take(to - from) =~= rest);
    while to > from && char_is_whitespace(chars[to - 1])
        invariant
            chars@ == text@,
            from <= to <= chars@.len(),
            rest == text@.skip(from as int),
            without_trailing_blanks(rest) == without_trailing_blanks(rest.take(to - from)),
        decreases to,
    {
        assert(rest.take(to - from).drop_last() =~= rest.take(to - from - 1));
        to = to - 1;
    }
    assert(text@.subrange(from as int, to as int) =~= rest.take(to - from));
    from_char_range(&chars, from, to)
}

/// One text stands somewhere in another.
pub open spec fn occurs_in(part: Seq<char>, whole: Seq<char>) -> bool {
    exists|at: int| #[trigger] stands_at(part, whole, at)
}

/// One text stands in another from a position on.
pub open spec fn stands_at(part: Seq<char>, whole: Seq<char>, at: int) -> bool {
    0 <= at && at + part.len() <= whole.len() && part == whole.subrange(at, at + part.len())
}

/// Whether one text stands somewhere in another.
pub fn is_part(part: &str, whole: &str) -> (found: bool)
    ensures
        found == occurs_in(part@, whole@),
{
    let part_chars = to_chars(part);
    let whole_chars = to_chars(whole);
    let count = whole_chars.len();
    if part_chars.len() > count {
        return false;
    }
    let mut at: usize = 0;
    while at <= count - part_chars.len()
        invariant
            part_chars@ == part@,
            whole_chars@ == whole@,
            whole@.len() == count,
            part@.len() <= whole@.len(),
            at <= whole@.len() - part@.len() + 1,
            forall|k: int| 0 <= k < at ==> !#[trigger] stands_at(part@, whole@, k),
        decreases whole@.len() - part@.len() + 1 - at,
    {
        let mut i: usize = 0;
        while i < part_chars.len() && whole_chars[at + i] == part_chars[i]
            invariant
                part_chars@ == part@,
                whole_chars@ == whole@,
                whole@.len() == count,
                i <= part@.len(),
                at + part@.len() <= whole@.len(),
                forall|k: int| 0 <= k < i ==> whole@[at + k] == #[trigger] part@[k],
            decreases part@.len() - i,
        {
            i = i + 1;
        }
        if i == part_chars.len() {
            assert(part@ =~= whole@.subrange(at as int, at + part@.len()));
            assert(stands_at(part@, whole@, at as int));
            return true;
        }
        assert(!stands_at(part@, whole@, at as int)) by {
            assert(whole@.subrange(at as int, at + part@.len())[i as int] == whole@[at + i]);
        }
        at = at + 1;
    }
    false
}

} // verus!
