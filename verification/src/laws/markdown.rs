//! What is written in a Markdown document.

use vstd::prelude::*;

use crate::calendar::{self, CalendarDate};
use crate::copier::AttachmentView;
use crate::laws::words::{line_before_feed, lines_end_at_line_feeds, lines_hold_no_line_feed};
use crate::markdown;
use crate::message::{AuthorRecord, MessageView, QuoteView, ReactionView};
use crate::words;

verus! {

// ---------------------------------------------------------------------------
// Characters
// ---------------------------------------------------------------------------

/// A character that Markdown or HTML would read is written so that it stands for
/// itself, and every other as it is.
pub proof fn every_mark_is_escaped(character: char)
    ensures
        character == '\\' || character == '*' || character == '_' || character == '['
            || character == ']' || character == '`' || character == '#' || character == '+'
            || character == '-' || character == '!' || character == '|' || character == '{'
            || character == '}' ==> markdown::escaped(seq![character]) == seq!['\\', character],
        character == '&' ==> markdown::escaped(seq![character]) == seq!['&', 'a', 'm', 'p', ';'],
        character == '<' ==> markdown::escaped(seq![character]) == seq!['&', 'l', 't', ';'],
        character == '>' ==> markdown::escaped(seq![character]) == seq!['&', 'g', 't', ';'],
        character != '\\' && character != '*' && character != '_' && character != '[' && character
            != ']' && character != '`' && character != '#' && character != '+' && character != '-'
            && character != '!' && character != '|' && character != '{' && character != '}'
            && character != '&' && character != '<' && character != '>' ==> markdown::escaped(
            seq![character],
        ) == seq![character],
        markdown::escaped(Seq::empty()).len() == 0,
{
    let one = seq![character];
    assert(one.drop_last() =~= Seq::<char>::empty());
    assert(markdown::escaped(one.drop_last()) =~= Seq::<char>::empty());
    assert(markdown::escaped(one) =~= markdown::escaped_char(character));
}

proof fn lemma_no_feed(line: Seq<char>)
    requires
        !line.contains('\n'),
    ensures
        !markdown::escaped(line).contains('\n'),
    decreases line.len(),
{
    if line.len() > 0 {
        let rest = line.drop_last();
        assert(line.contains(line[line.len() - 1]));
        assert(!rest.contains('\n')) by {
            if rest.contains('\n') {
                let i = choose|i: int| 0 <= i < rest.len() && rest[i] == '\n';
                assert(line[i] == '\n');
            }
        }
        lemma_no_feed(rest);
        let before = markdown::escaped(rest);
        let piece = markdown::escaped_char(line.last());
        let all = markdown::escaped(line);
        assert forall|i: int| 0 <= i < all.len() implies #[trigger] all[i] != '\n' by {
            if i < before.len() {
                assert(all[i] == before[i]);
                assert(before.contains(before[i]));
            } else {
                assert(all[i] == piece[i - before.len()]);
            }
        }
    }
}

// ---------------------------------------------------------------------------
// Lines
// ---------------------------------------------------------------------------

proof fn lemma_each_line_front(
    first: Seq<char>,
    rest: Seq<Seq<char>>,
    prefix: Seq<char>,
    suffix: Seq<char>,
)
    ensures
        markdown::each_line(seq![first] + rest, prefix, suffix) == prefix + markdown::escaped(first)
            + suffix + markdown::each_line(rest, prefix, suffix),
    decreases rest.len(),
{
    let all = seq![first] + rest;
    let piece = prefix + markdown::escaped(first) + suffix;
    if rest.len() == 0 {
        assert(all.drop_last() =~= Seq::<Seq<char>>::empty());
        assert(markdown::each_line(all.drop_last(), prefix, suffix) =~= Seq::<char>::empty());
        assert(markdown::each_line(all, prefix, suffix) =~= piece);
        assert(piece + markdown::each_line(rest, prefix, suffix) =~= piece);
    } else {
        lemma_each_line_front(first, rest.drop_last(), prefix, suffix);
        assert(all.drop_last() =~= seq![first] + rest.drop_last());
        assert(all.last() == rest.last());
        assert(markdown::each_line(all, prefix, suffix) =~= piece + markdown::each_line(
            rest,
            prefix,
            suffix,
        ));
    }
}

/// Every line of a text is written, escaped and with two spaces at its end, one
/// after the other: the first line, then what is written of the rest.
pub proof fn every_line_of_a_text_is_written(line: Seq<char>, rest: Seq<char>, kind: Seq<char>)
    requires
        !line.contains('\n'),
    ensures
        markdown::body_text(Some(line + seq!['\n'] + rest), kind) == markdown::escaped(
            line_before_feed(line),
        ) + seq![' ', ' ', '\n'] + markdown::body_text(Some(rest), kind),
        line.len() > 0 ==> markdown::body_text(Some(line), kind) == markdown::escaped(line)
            + seq![' ', ' ', '\n'],
        markdown::body_text(Some(Seq::empty()), kind).len() == 0,
{
    reveal_strlit("  \n");
    let suffix = "  \n"@;
    assert(suffix =~= seq![' ', ' ', '\n']);
    let none = Seq::<char>::empty();
    lines_end_at_line_feeds(line, rest);
    lemma_each_line_front(line_before_feed(line), words::lines_of(rest), none, suffix);
    assert(none + markdown::escaped(line_before_feed(line)) =~= markdown::escaped(
        line_before_feed(line),
    ));
    if line.len() > 0 {
        lemma_each_line_front(line, Seq::empty(), none, suffix);
        assert(seq![line] + Seq::<Seq<char>>::empty() =~= seq![line]);
        assert(markdown::body_text(Some(line), kind) =~= markdown::escaped(line) + suffix);
    }
}

/// A message without words is told by its kind, in italics.
pub proof fn a_message_without_words_is_told_by_its_kind(kind: Seq<char>)
    ensures
        markdown::body_text(None, kind) == seq!['_'] + markdown::escaped(kind) + seq![
            '_',
            '\n',
            '\n',
        ],
{
    reveal_strlit("_");
    reveal_strlit("_\n\n");
    assert(markdown::body_text(None, kind) =~= seq!['_'] + markdown::escaped(kind) + seq![
        '_',
        '\n',
        '\n',
    ]);
}

/// How many line feeds a text holds.
pub open spec fn feeds(text: Seq<char>) -> nat
    decreases text.len(),
{
    if text.len() == 0 {
        0
    } else if text.last() == '\n' {
        feeds(text.drop_last()) + 1
    } else {
        feeds(text.drop_last())
    }
}

proof fn lemma_feeds_of_parts(front: Seq<char>, back: Seq<char>)
    ensures
        feeds(front + back) == feeds(front) + feeds(back),
    decreases back.len(),
{
    if back.len() == 0 {
        assert(front + back =~= front);
    } else {
        lemma_feeds_of_parts(front, back.drop_last());
        assert((front + back).drop_last() =~= front + back.drop_last());
    }
}

proof fn lemma_no_feeds(text: Seq<char>)
    requires
        !text.contains('\n'),
    ensures
        feeds(text) == 0,
    decreases text.len(),
{
    if text.len() > 0 {
        assert(text.contains(text[text.len() - 1]));
        assert(!text.drop_last().contains('\n')) by {
            if text.drop_last().contains('\n') {
                let i = choose|i: int| 0 <= i < text.len() - 1 && text.drop_last()[i] == '\n';
                assert(text[i] == '\n');
            }
        }
        lemma_no_feeds(text.drop_last());
    }
}

proof fn lemma_lines_written(lines: Seq<Seq<char>>)
    requires
        forall|k: int| 0 <= k < lines.len() ==> !(#[trigger] lines[k]).contains('\n'),
    ensures
        feeds(markdown::each_line(lines, Seq::empty(), "  \n"@)) == lines.len(),
    decreases lines.len(),
{
    reveal_strlit("  \n");
    if lines.len() > 0 {
        let rest = lines.drop_last();
        assert forall|k: int| 0 <= k < rest.len() implies !(#[trigger] rest[k]).contains('\n') by {
            assert(rest[k] == lines[k]);
        }
        lemma_lines_written(rest);
        assert(!lines[lines.len() - 1].contains('\n'));
        lemma_no_feed(lines.last());
        lemma_no_feeds(markdown::escaped(lines.last()));
        let none = Seq::<char>::empty();
        let shown = none + markdown::escaped(lines.last());
        assert(shown =~= markdown::escaped(lines.last()));
        let suffix = "  \n"@;
        let spaces = suffix.drop_last();
        assert(!spaces.contains('\n'));
        lemma_no_feeds(spaces);
        assert(feeds(suffix) == 1);
        lemma_feeds_of_parts(shown, suffix);
        lemma_feeds_of_parts(markdown::each_line(rest, none, suffix), shown + suffix);
    }
}

/// As many lines are written as the text has.
pub proof fn no_line_is_lost(held: Seq<char>, kind: Seq<char>)
    ensures
        feeds(markdown::body_text(Some(held), kind)) == words::lines_of(held).len(),
{
    lines_hold_no_line_feed(held);
    lemma_lines_written(words::lines_of(held));
}

proof fn lemma_lines_apart(left: Seq<Seq<char>>, right: Seq<Seq<char>>)
    requires
        forall|k: int| 0 <= k < left.len() ==> !(#[trigger] left[k]).contains('\n'),
        forall|k: int| 0 <= k < right.len() ==> !(#[trigger] right[k]).contains('\n'),
        markdown::each_line(left, Seq::empty(), "  \n"@) == markdown::each_line(
            right,
            Seq::empty(),
            "  \n"@,
        ),
    ensures
        left == right,
    decreases left.len(),
{
    lemma_lines_written(left);
    lemma_lines_written(right);
    assert(left.len() == right.len());
    if left.len() == 0 {
        assert(left =~= right);
    } else {
        reveal_strlit("  \n");
        let suffix = "  \n"@;
        let none = Seq::<char>::empty();
        let left_rest = left.drop_first();
        let right_rest = right.drop_first();
        assert(left =~= seq![left[0]] + left_rest);
        assert(right =~= seq![right[0]] + right_rest);
        lemma_each_line_front(left[0], left_rest, none, suffix);
        lemma_each_line_front(right[0], right_rest, none, suffix);
        let a = markdown::escaped(left[0]);
        let b = markdown::escaped(right[0]);
        assert(none + a =~= a);
        assert(none + b =~= b);
        lemma_no_feed(left[0]);
        lemma_no_feed(right[0]);
        let whole = markdown::each_line(left, none, suffix);
        let left_tail = markdown::each_line(left_rest, none, suffix);
        let right_tail = markdown::each_line(right_rest, none, suffix);
        assert(whole == a + suffix + left_tail);
        assert(whole == b + suffix + right_tail);
        assert(a.len() == b.len()) by {
            if a.len() < b.len() {
                assert(whole[a.len() as int + 2] == '\n');
                if a.len() + 2 < b.len() {
                    assert(b[a.len() as int + 2] == '\n');
                    assert(b.contains(b[a.len() as int + 2]));
                } else {
                    assert((b + suffix)[a.len() as int + 2] == suffix[a.len() + 2 - b.len()]);
                }
            }
            if b.len() < a.len() {
                assert(whole[b.len() as int + 2] == '\n');
                if b.len() + 2 < a.len() {
                    assert(a[b.len() as int + 2] == '\n');
                    assert(a.contains(a[b.len() as int + 2]));
                } else {
                    assert((a + suffix)[b.len() as int + 2] == suffix[b.len() + 2 - a.len()]);
                }
            }
        }
        assert(a =~= whole.take(a.len() as int));
        assert(b =~= whole.take(b.len() as int));
        markdown::escaping_keeps_texts_apart(left[0], right[0]);
        assert(left_tail =~= whole.skip(a.len() as int + 3));
        assert(right_tail =~= whole.skip(b.len() as int + 3));
        assert forall|k: int| 0 <= k < left_rest.len() implies !(#[trigger] left_rest[k]).contains(
            '\n',
        ) by {
            assert(left_rest[k] == left[k + 1]);
        }
        assert forall|k: int| 0 <= k < right_rest.len() implies !(
        #[trigger] right_rest[k]).contains('\n') by {
            assert(right_rest[k] == right[k + 1]);
        }
        lemma_lines_apart(left_rest, right_rest);
    }
}

/// Texts with different lines are written differently.
pub proof fn different_lines_are_written_differently(
    left: Seq<char>,
    right: Seq<char>,
    kind: Seq<char>,
)
    requires
        markdown::body_text(Some(left), kind) == markdown::body_text(Some(right), kind),
    ensures
        words::lines_of(left) == words::lines_of(right),
{
    lines_hold_no_line_feed(left);
    lines_hold_no_line_feed(right);
    lemma_lines_apart(words::lines_of(left), words::lines_of(right));
}

/// Lines between a prefix and a line feed, from the first on.
pub open spec fn prefixed(lines: Seq<Seq<char>>, prefix: Seq<char>) -> Seq<char>
    decreases lines.len(),
{
    if lines.len() == 0 {
        Seq::empty()
    } else {
        prefix + markdown::escaped(lines[0]) + seq!['\n'] + prefixed(lines.drop_first(), prefix)
    }
}

proof fn lemma_prefixed(lines: Seq<Seq<char>>, prefix: Seq<char>)
    ensures
        markdown::each_line(lines, prefix, "\n"@) == prefixed(lines, prefix),
    decreases lines.len(),
{
    reveal_strlit("\n");
    assert("\n"@ =~= seq!['\n']);
    if lines.len() > 0 {
        assert(lines =~= seq![lines[0]] + lines.drop_first());
        lemma_each_line_front(lines[0], lines.drop_first(), prefix, "\n"@);
        lemma_prefixed(lines.drop_first(), prefix);
    }
}

/// A quote names whom it quotes and gives every line of the words, each marked as
/// quoted.
pub proof fn a_quote_is_written_line_by_line(quote: QuoteView)
    ensures
        markdown::quote_text(None).len() == 0,
        markdown::quote_text(Some(quote)) == "> **Quoted from "@ + markdown::escaped(quote.author)
            + "**\n"@ + prefixed(words::lines_of(quote.text), seq!['>', ' ']) + seq!['\n'],
{
    reveal_strlit("> ");
    reveal_strlit("\n");
    assert("> "@ =~= seq!['>', ' ']);
    assert("\n"@ =~= seq!['\n']);
    lemma_prefixed(words::lines_of(quote.text), seq!['>', ' ']);
}

// ---------------------------------------------------------------------------
// Attachments and reactions
// ---------------------------------------------------------------------------

/// An attachment is shown by its caption, or else by its name. Where it was copied,
/// a link leads to the copy; else it says whether the file is in the archive.
pub proof fn an_attachment_is_linked_or_explained(attachment: AttachmentView)
    ensures
        ({
            let label = if attachment.caption is Some {
                markdown::escaped(attachment.caption->0)
            } else {
                markdown::escaped(attachment.file_name)
            };
            let shown = markdown::attachment_text(attachment);
            &&& attachment.exported_path matches Some(path) ==> shown == "\n📎 ["@ + label + "]("@
                + markdown::link_text(vstd::utf8::encode_utf8(path)) + ")\n"@
            &&& attachment.exported_path is None && attachment.source_available ==> shown
                == "\n📎 "@ + label + " _(available in source; not copied)_\n"@
            &&& attachment.exported_path is None && !attachment.source_available ==> shown
                == "\n📎 "@ + label + " _(not available in source)_\n"@
        }),
{
}

/// Attachments are written one after the other, each once.
pub proof fn attachments_are_written_in_order(
    attachments: Seq<AttachmentView>,
    further: AttachmentView,
)
    ensures
        markdown::attachments_text(Seq::empty()).len() == 0,
        markdown::attachments_text(attachments.push(further)) == markdown::attachments_text(
            attachments,
        ) + markdown::attachment_text(further),
{
    assert(attachments.push(further).drop_last() =~= attachments);
}

/// Texts are joined in order, with the separator between any two and nowhere else.
pub proof fn texts_are_joined_in_order(
    parts: Seq<Seq<char>>,
    further: Seq<char>,
    separator: Seq<char>,
)
    ensures
        markdown::joined_by(Seq::empty(), separator).len() == 0,
        parts.len() == 0 ==> markdown::joined_by(parts.push(further), separator) == further,
        parts.len() > 0 ==> markdown::joined_by(parts.push(further), separator)
            == markdown::joined_by(parts, separator) + separator + further,
{
    assert(parts.push(further).drop_last() =~= parts);
}

/// Reactions are written on one line, each with its emoji and who reacted, in order;
/// where there are none, nothing is written.
pub proof fn reactions_are_written_with_their_authors(
    reactions: Seq<ReactionView>,
    place: int,
)
    ensures
        reactions.len() == 0 ==> markdown::reactions_text(reactions).len() == 0,
        reactions.len() > 0 ==> markdown::reactions_text(reactions) == "\n_Reactions: "@
            + markdown::joined_by(markdown::reaction_parts(reactions), " · "@) + "_\n"@,
        markdown::reaction_parts(reactions).len() == reactions.len(),
        0 <= place < reactions.len() ==> markdown::reaction_parts(reactions)[place]
            == markdown::escaped(reactions[place].emoji) + seq![' '] + markdown::escaped(
            reactions[place].author,
        ),
{
    reveal_strlit(" ");
    assert(" "@ =~= seq![' ']);
}

// ---------------------------------------------------------------------------
// Messages and heads
// ---------------------------------------------------------------------------

/// A message is written with its time and its author, then what it quotes, its own
/// words, its attachments and the reactions to it, and a line below.
pub proof fn a_message_is_written_whole(message: MessageView)
    ensures
        markdown::markdown_message_text(message) == "### "@ + markdown::escaped(message.timestamp)
            + " · "@ + markdown::escaped(message.author.name) + "\n\n"@ + markdown::quote_text(
            message.quote,
        ) + markdown::body_text(message.text, message.message_type) + markdown::attachments_text(
            message.attachments,
        ) + markdown::reactions_text(message.reactions) + "\n---\n\n"@,
{
}

/// The head of a document names the chat, when it was exported, the dates from the
/// first to the last, whether media are in it, and who wrote.
pub proof fn a_head_names_chat_dates_media_and_people(
    exported_at: Seq<char>,
    name: Seq<char>,
    start_date: Option<CalendarDate>,
    end_date: Option<CalendarDate>,
    include_media: bool,
    authors: Seq<AuthorRecord>,
    place: int,
)
    ensures
        ({
            let first = if start_date is Some {
                calendar::date_text(start_date->0)
            } else {
                "earliest"@
            };
            let last = if end_date is Some {
                calendar::date_text(end_date->0)
            } else {
                "latest"@
            };
            let media = if include_media {
                "included"@
            } else {
                "not included"@
            };
            markdown::markdown_header_text(
                exported_at,
                name,
                start_date,
                end_date,
                include_media,
                authors,
            ) == "# "@ + markdown::escaped(name) + "\n\n- Exported: `"@ + markdown::escaped(
                exported_at,
            ) + "`\n- Dates: `"@ + first + "` to `"@ + last + "` (local)\n- Media: "@ + media
                + "\n- Participants: "@ + markdown::joined_by(
                markdown::participant_names(authors),
                ", "@,
            ) + "\n\n---\n\n"@
        }),
        markdown::participant_names(authors).len() == authors.len(),
        0 <= place < authors.len() ==> markdown::participant_names(authors)[place]
            == markdown::escaped(authors[place].name@),
{
}

// ---------------------------------------------------------------------------
// Links
// ---------------------------------------------------------------------------

/// The value of a large hexadecimal digit.
pub open spec fn digit_of(character: char) -> int {
    if '0' <= character && character <= '9' {
        character as u32 - '0' as u32
    } else {
        character as u32 - 'A' as u32 + 10
    }
}

/// The bytes that a link stands for: a percent sign and two digits for a byte, and
/// every other character for itself.
pub open spec fn link_read(link: Seq<char>) -> Seq<u8>
    decreases link.len(),
{
    if link.len() == 0 {
        Seq::empty()
    } else if link[0] == '%' && link.len() >= 3 {
        seq![(digit_of(link[1]) * 16 + digit_of(link[2])) as u8] + link_read(link.skip(3))
    } else {
        seq![link[0] as u8] + link_read(link.skip(1))
    }
}

proof fn lemma_link_front(first: u8, rest: Seq<u8>)
    ensures
        markdown::link_text(seq![first] + rest) == markdown::link_piece(first)
            + markdown::link_text(rest),
    decreases rest.len(),
{
    let all = seq![first] + rest;
    if rest.len() == 0 {
        assert(all.drop_last() =~= Seq::<u8>::empty());
        assert(markdown::link_text(all.drop_last()) =~= Seq::<char>::empty());
        assert(markdown::link_text(all) =~= markdown::link_piece(first) + markdown::link_text(
            rest,
        ));
    } else {
        lemma_link_front(first, rest.drop_last());
        assert(all.drop_last() =~= seq![first] + rest.drop_last());
        assert(markdown::link_text(all) =~= markdown::link_piece(first) + markdown::link_text(
            rest,
        ));
    }
}

/// Reading a link gives back the bytes of the path that it was made from.
pub proof fn reading_a_link_undoes_writing(bytes: Seq<u8>)
    ensures
        link_read(markdown::link_text(bytes)) == bytes,
    decreases bytes.len(),
{
    if bytes.len() == 0 {
        assert(markdown::link_text(bytes) =~= Seq::<char>::empty());
        assert(link_read(markdown::link_text(bytes)) =~= bytes);
    } else {
        let first = bytes[0];
        let rest = bytes.drop_first();
        assert(bytes =~= seq![first] + rest);
        reading_a_link_undoes_writing(rest);
        lemma_link_front(first, rest);
        let piece = markdown::link_piece(first);
        let tail = markdown::link_text(rest);
        let link = markdown::link_text(bytes);
        assert(link == piece + tail);
        if piece.len() == 3 {
            assert(link[0] == '%' && link[1] == piece[1] && link[2] == piece[2]);
            assert(link.skip(3) =~= tail);
            assert(digit_of(piece[1]) == first as int / 16);
            assert(digit_of(piece[2]) == first as int % 16);
            assert(first as int / 16 * 16 + first as int % 16 == first as int);
        } else {
            assert(link[0] == first as char);
            assert(link[0] != '%');
            assert(link.skip(1) =~= tail);
        }
        assert(link_read(link) =~= bytes);
    }
}

/// Letters, digits, slashes and the marks `-`, `_`, `.` and `~` stand for themselves
/// in a link; every other byte is written with a percent sign.
pub proof fn plain_bytes_stand_for_themselves(byte: u8)
    ensures
        ({
            let character = byte as char;
            let plain = ('a' <= character && character <= 'z') || ('A' <= character && character
                <= 'Z') || ('0' <= character && character <= '9') || character == '-' || character
                == '_' || character == '.' || character == '/' || character == '~';
            &&& plain ==> markdown::link_text(seq![byte]) == seq![character]
            &&& !plain ==> markdown::link_text(seq![byte]).len() == 3 && markdown::link_text(
                seq![byte],
            )[0] == '%'
        }),
{
    assert(seq![byte].drop_last() =~= Seq::<u8>::empty());
    assert(markdown::link_text(seq![byte].drop_last()) =~= Seq::<char>::empty());
    assert(markdown::link_text(seq![byte]) =~= markdown::link_piece(byte));
}

} // verus!
