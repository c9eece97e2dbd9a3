//! Lines and words of texts.

use vstd::prelude::*;

use crate::text;
use crate::words;

verus! {

/// A line as it stood before a line feed, without a carriage return at its end.
pub open spec fn line_before_feed(line: Seq<char>) -> Seq<char> {
    if line.len() > 0 && line[line.len() - 1] == '\r' {
        line.take(line.len() - 1)
    } else {
        line
    }
}

proof fn lemma_lines_from(text: Seq<char>, from: int)
    requires
        0 <= from <= text.len(),
    ensures
        words::lines_from(text, from) == words::lines_of(text.skip(from)),
    decreases text.len() - from,
{
    let tail = text.skip(from);
    if from < text.len() {
        text::lemma_position_from(text, '\n', from);
        text::lemma_position_from(tail, '\n', 0);
        let end = text::position_from(text, '\n', from);
        let short_end = text::position_from(tail, '\n', 0);
        assert(forall|i: int| 0 <= i < tail.len() ==> tail[i] == text[from + i]);
        assert(short_end == end - from) by {
            if short_end < end - from {
                assert(tail[short_end] == text[from + short_end]);
            }
            if end - from < short_end {
                assert(tail[end - from] == text[end]);
            }
        }
        if end < text.len() {
            assert(tail.subrange(0, short_end) =~= text.subrange(from, end));
            lemma_lines_from(text, end + 1);
            lemma_lines_from(tail, short_end + 1);
            assert(tail.skip(short_end + 1) =~= text.skip(end + 1));
        } else {
            assert(tail.subrange(0, tail.len() as int) =~= text.subrange(from, text.len() as int));
        }
    } else {
        assert(words::lines_from(text, from) =~= Seq::empty());
        assert(words::lines_of(tail) =~= Seq::empty());
    }
}

/// A text is read line by line: what stands before the first line feed is the first
/// line, without a carriage return at its end, and the lines of what follows are the
/// others. What ends without a line feed is a line as it stands, and nothing is none.
pub proof fn lines_end_at_line_feeds(line: Seq<char>, rest: Seq<char>)
    requires
        !line.contains('\n'),
    ensures
        words::lines_of(line + seq!['\n'] + rest) == seq![line_before_feed(line)] + words::lines_of(
            rest,
        ),
        line.len() > 0 ==> words::lines_of(line) == seq![line],
        words::lines_of(Seq::empty()).len() == 0,
{
    let whole = line + seq!['\n'] + rest;
    text::lemma_position_from(whole, '\n', 0);
    let end = text::position_from(whole, '\n', 0);
    assert(whole[line.len() as int] == '\n');
    assert(end == line.len()) by {
        if end < line.len() {
            assert(whole[end] == line[end]);
            assert(line.contains(line[end]));
        }
    }
    assert(whole.subrange(0, end) =~= line);
    assert(words::without_return(line) =~= line_before_feed(line));
    lemma_lines_from(whole, end + 1);
    assert(whole.skip(end + 1) =~= rest);
    if line.len() > 0 {
        text::lemma_position_from(line, '\n', 0);
        let none = text::position_from(line, '\n', 0);
        if none < line.len() {
            assert(line.contains(line[none]));
        }
        assert(line.subrange(0, line.len() as int) =~= line);
    }
}

/// No line holds a line feed.
pub proof fn lines_hold_no_line_feed(text: Seq<char>)
    ensures
        forall|k: int|
            0 <= k < words::lines_of(text).len() ==> !(#[trigger] words::lines_of(
                text,
            )[k]).contains('\n'),
    decreases text.len(),
{
    if text.len() > 0 {
        text::lemma_position_from(text, '\n', 0);
        let end = text::position_from(text, '\n', 0);
        let line = text.take(end);
        assert(!line.contains('\n')) by {
            if line.contains('\n') {
                let i = choose|i: int| 0 <= i < line.len() && line[i] == '\n';
                assert(text[i] == '\n');
            }
        }
        if end < text.len() {
            let rest = text.skip(end + 1);
            assert(text =~= line + seq!['\n'] + rest);
            lines_end_at_line_feeds(line, rest);
            lines_hold_no_line_feed(rest);
            let all = words::lines_of(text);
            let others = words::lines_of(rest);
            assert forall|k: int| 0 <= k < all.len() implies !(#[trigger] all[k]).contains(
                '\n',
            ) by {
                if k > 0 {
                    assert(all[k] == others[k - 1]);
                } else {
                    let first = line_before_feed(line);
                    if first.contains('\n') {
                        let i = choose|i: int| 0 <= i < first.len() && first[i] == '\n';
                        assert(line[i] == '\n');
                        assert(line.contains(line[i]));
                    }
                }
            }
        } else {
            assert(line =~= text);
            lines_end_at_line_feeds(line, Seq::empty());
        }
    } else {
        lines_end_at_line_feeds(Seq::empty(), Seq::empty());
        assert(text =~= Seq::empty());
    }
}

/// The characters of a text that are no blanks, in order.
pub open spec fn inked(text: Seq<char>) -> Seq<char>
    decreases text.len(),
{
    if text.len() == 0 {
        Seq::empty()
    } else if text::is_blank(text.last()) {
        inked(text.drop_last())
    } else {
        inked(text.drop_last()).push(text.last())
    }
}

/// Tidying the spacing of a text loses no character of it but blanks.
pub proof fn tidying_keeps_the_words(text: Seq<char>)
    ensures
        inked(words::single_spaced(text)) == inked(text),
    decreases text.len(),
{
    if text.len() > 0 {
        let rest = text.drop_last();
        tidying_keeps_the_words(rest);
        let before = words::single_spaced(rest);
        let last = text.last();
        if !text::is_blank(last) {
            if before.len() > 0 && text::is_blank(text[text.len() - 2]) {
                let spaced = before.push(' ');
                assert(spaced.drop_last() =~= before);
                assert(text::is_blank(' '));
                assert(spaced.last() == ' ');
                assert(inked(spaced) == inked(before));
                let whole = spaced.push(last);
                assert(whole.drop_last() =~= spaced);
                assert(whole.last() == last);
                assert(inked(whole) == inked(spaced).push(last));
            } else {
                let whole = before.push(last);
                assert(whole.drop_last() =~= before);
                assert(whole.last() == last);
                assert(inked(whole) == inked(before).push(last));
            }
        }
    }
}

/// Words that blanks part stay parted, by one space: a character after a blank has a
/// space in front where something stands before it, and one after another character
/// has none.
pub proof fn a_blank_parts_words(text: Seq<char>, next: char)
    requires
        !text::is_blank(next),
    ensures
        ({
            let before = words::single_spaced(text);
            let after = words::single_spaced(text.push(next));
            &&& before.len() > 0 && text::is_blank(text.last()) ==> after == before + seq![' ', next]
            &&& text.len() > 0 && !text::is_blank(text.last()) ==> after == before.push(next)
            &&& before.len() == 0 ==> after == seq![next]
        }),
        words::single_spaced(text.push(' ')) == words::single_spaced(text),
{
    let all = text.push(next);
    assert(all.drop_last() =~= text);
    let before = words::single_spaced(text);
    if text.len() > 0 {
        assert(all[all.len() - 2] == text.last());
    }
    assert(before.push(' ').push(next) =~= before + seq![' ', next]);
    if before.len() == 0 {
        assert(before.push(next) =~= seq![next]);
    }
    assert(text::is_blank(' '));
    assert(text.push(' ').drop_last() =~= text);
}

} // verus!
