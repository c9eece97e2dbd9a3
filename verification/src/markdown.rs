//! Markdown documents.

use vstd::prelude::*;
use vstd::string::*;

use crate::calendar::{self, CalendarDate};
use crate::copier::{AttachmentRecord, AttachmentView};
use crate::message::{AuthorRecord, MessageRecord, MessageView, QuoteView, ReactionRecord};
use crate::message::ReactionView;
use crate::text::{self, join2, join3, to_chars};
use crate::words::{self, lines};

verus! {

// ---------------------------------------------------------------------------
// Escaping
// ---------------------------------------------------------------------------

/// The characters that Markdown gives a meaning; a backslash takes it away.
pub open spec fn is_markup(character: char) -> bool {
    character == '\\' || character == '*' || character == '_' || character == '[' || character
        == ']' || character == '`' || character == '#' || character == '+' || character == '-'
        || character == '!' || character == '|' || character == '{' || character == '}'
}

/// A character as it is written so that it stands for itself.
pub open spec fn escaped_char(character: char) -> Seq<char> {
    if character == '&' {
        seq!['&', 'a', 'm', 'p', ';']
    } else if character == '<' {
        seq!['&', 'l', 't', ';']
    } else if character == '>' {
        seq!['&', 'g', 't', ';']
    } else if is_markup(character) {
        seq!['\\', character]
    } else {
        seq![character]
    }
}

/// A text as it is written so that every character stands for itself.
pub open spec fn escaped(text: Seq<char>) -> Seq<char>
    decreases text.len(),
{
    if text.len() == 0 {
        Seq::empty()
    } else {
        escaped(text.drop_last()) + escaped_char(text.last())
    }
}

fn char_is_markup(character: char) -> (markup: bool)
    ensures
        markup == is_markup(character),
{
    character == '\\' || character == '*' || character == '_' || character == '[' || character
        == ']' || character == '`' || character == '#' || character == '+' || character == '-'
        || character == '!' || character == '|' || character == '{' || character == '}'
}

/// A text as it is written so that every character stands for itself.
pub fn escape_markdown(value: &str) -> (written: String)
    ensures
        written@ == escaped(value@),
{
    let chars = to_chars(value);
    let mut written = String::new();
    let mut i: usize = 0;
    assert(chars@.take(0).len() == 0);
    proof {
        reveal_strlit("&amp;");
        reveal_strlit("&lt;");
        reveal_strlit("&gt;");
    }
    while i < chars.len()
        invariant
            i <= chars@.len(),
            written@ == escaped(chars@.take(i as int)),
            "&amp;"@ =~= escaped_char('&'),
            "&lt;"@ =~= escaped_char('<'),
            "&gt;"@ =~= escaped_char('>'),
        decreases chars@.len() - i,
    {
        let character = chars[i];
        let ghost before = written@;
        if character == '&' {
            written.append("&amp;");
        } else if character == '<' {
            written.append("&lt;");
        } else if character == '>' {
            written.append("&gt;");
        } else if char_is_markup(character) {
            written.push('\\');
            written.push(character);
        } else {
            written.push(character);
        }
        assert(written@ =~= before + escaped_char(character));
        assert(chars@.take(i as int + 1).drop_last() =~= chars@.take(i as int));
        i = i + 1;
    }
    assert(chars@.take(i as int) =~= chars@);
    written
}

/// A text is written part by part: what is written for two texts one after the
/// other is what is written for each.
pub proof fn escaping_works_part_by_part(front: Seq<char>, back: Seq<char>)
    ensures
        escaped(front + back) == escaped(front) + escaped(back),
    decreases back.len(),
{
    if back.len() == 0 {
        assert(front + back =~= front);
        assert(escaped(front) + escaped(back) =~= escaped(front));
    } else {
        escaping_works_part_by_part(front, back.drop_last());
        assert((front + back).drop_last() =~= front + back.drop_last());
        assert(escaped(front + back) =~= escaped(front) + escaped(back));
    }
}

proof fn lemma_escaped_first(text: Seq<char>)
    requires
        text.len() > 0,
    ensures
        escaped(text) == escaped_char(text.first()) + escaped(text.drop_first()),
{
    let front = seq![text.first()];
    assert(text =~= front + text.drop_first());
    escaping_works_part_by_part(front, text.drop_first());
    assert(front.drop_last() =~= Seq::<char>::empty());
    assert(escaped(front.drop_last()) == Seq::<char>::empty());
    assert(front.last() == text.first());
    assert(escaped(front) =~= escaped_char(text.first()));
}

/// Different texts stay different when they are written.
pub proof fn escaping_keeps_texts_apart(left: Seq<char>, right: Seq<char>)
    requires
        escaped(left) == escaped(right),
    ensures
        left == right,
    decreases left.len(),
{
    if left.len() == 0 {
        if right.len() > 0 {
            lemma_escaped_first(right);
            assert(escaped(right).len() > 0);
        }
    } else if right.len() == 0 {
        lemma_escaped_first(left);
        assert(escaped(left).len() > 0);
    } else {
        lemma_escaped_first(left);
        lemma_escaped_first(right);
        let a = left.first();
        let b = right.first();
        let pa = escaped_char(a);
        let pb = escaped_char(b);
        let whole = escaped(left);
        assert(whole[0] == pa[0] && whole[0] == pb[0]);
        if pa.len() >= 2 && pb.len() >= 2 {
            assert(whole[1] == pa[1] && whole[1] == pb[1]);
        }
        assert(a == b);
        assert(escaped(left.drop_first()) =~= whole.skip(pa.len() as int));
        assert(escaped(right.drop_first()) =~= whole.skip(pb.len() as int));
        escaping_keeps_texts_apart(left.drop_first(), right.drop_first());
        assert(left =~= seq![a] + left.drop_first());
        assert(right =~= seq![b] + right.drop_first());
    }
}

/// A written text holds no angle bracket, so no HTML can come from it.
pub proof fn a_written_text_holds_no_html(text: Seq<char>)
    ensures
        !escaped(text).contains('<'),
        !escaped(text).contains('>'),
    decreases text.len(),
{
    if text.len() > 0 {
        a_written_text_holds_no_html(text.drop_last());
        let front = escaped(text.drop_last());
        let piece = escaped_char(text.last());
        assert forall|i: int| 0 <= i < escaped(text).len() implies #[trigger] escaped(text)[i]
            != '<' && escaped(text)[i] != '>' by {
            if i < front.len() {
                assert(escaped(text)[i] == front[i]);
                assert(front.contains(front[i]));
            } else {
                assert(escaped(text)[i] == piece[i - front.len()]);
            }
        }
    }
}

// ---------------------------------------------------------------------------
// Links
// ---------------------------------------------------------------------------

/// The bytes that stand for themselves in a link.
pub open spec fn is_link_byte(byte: u8) -> bool {
    ||| 48 <= byte <= 57
    ||| 65 <= byte <= 90
    ||| 97 <= byte <= 122
    ||| byte == 45
    ||| byte == 95
    ||| byte == 46
    ||| byte == 47
    ||| byte == 126
}

/// The large hexadecimal digit of a value below sixteen.
pub open spec fn large_hex_char(digit: int) -> char {
    if digit < 10 {
        ('0' as u32 + digit) as char
    } else {
        ('A' as u32 + digit - 10) as char
    }
}

/// A byte as it is written in a link.
pub open spec fn link_piece(byte: u8) -> Seq<char> {
    if is_link_byte(byte) {
        seq![byte as char]
    } else {
        seq!['%', large_hex_char(byte as int / 16), large_hex_char(byte as int % 16)]
    }
}

/// Bytes as they are written in a link.
pub open spec fn link_text(bytes: Seq<u8>) -> Seq<char>
    decreases bytes.len(),
{
    if bytes.len() == 0 {
        Seq::empty()
    } else {
        link_text(bytes.drop_last()) + link_piece(bytes.last())
    }
}

fn large_hex_digit(digit: u8) -> (character: char)
    requires
        digit < 16,
    ensures
        character == large_hex_char(digit as int),
{
    if digit < 10 {
        (48 + digit) as char
    } else {
        (65 + (digit - 10)) as char
    }
}

/// A path as it is written in a link.
pub fn percent_encode_path(value: &str) -> (link: String)
    ensures
        link@ == link_text(value.spec_bytes()),
{
    let bytes = value.as_bytes();
    let mut link = String::new();
    let mut i: usize = 0;
    assert(bytes@.take(0).len() == 0);
    while i < bytes.len()
        invariant
            i <= bytes@.len(),
            link@ == link_text(bytes@.take(i as int)),
        decreases bytes@.len() - i,
    {
        let byte: u8 = bytes[i];
        let ghost before = link@;
        if (48 <= byte && byte <= 57) || (65 <= byte && byte <= 90) || (97 <= byte && byte <= 122)
            || byte == 45 || byte == 95 || byte == 46 || byte == 47 || byte == 126 {
            link.push(byte as char);
        } else {
            link.push('%');
            link.push(large_hex_digit(byte / 16));
            link.push(large_hex_digit(byte % 16));
        }
        assert(link@ =~= before + link_piece(byte));
        assert(bytes@.take(i as int + 1).drop_last() =~= bytes@.take(i as int));
        i = i + 1;
    }
    assert(bytes@.take(i as int) =~= bytes@);
    link
}

/// A character that may stand in a link.
pub open spec fn is_link_char(character: char) -> bool {
    character == '%' || (character as u32 <= 255 && is_link_byte(character as u8))
}

/// A link holds nothing that could end it: no space, no bracket.
pub proof fn a_link_holds_plain_characters(bytes: Seq<u8>)
    ensures
        forall|i: int| 0 <= i < link_text(bytes).len() ==> is_link_char(#[trigger] link_text(bytes)[i]),
    decreases bytes.len(),
{
    if bytes.len() > 0 {
        a_link_holds_plain_characters(bytes.drop_last());
        let front = link_text(bytes.drop_last());
        let piece = link_piece(bytes.last());
        assert forall|i: int| 0 <= i < link_text(bytes).len() implies is_link_char(
            #[trigger] link_text(bytes)[i],
        ) by {
            if i < front.len() {
                assert(link_text(bytes)[i] == front[i]);
            } else {
                assert(link_text(bytes)[i] == piece[i - front.len()]);
            }
        }
    }
}

// ---------------------------------------------------------------------------
// The head of a document
// ---------------------------------------------------------------------------

/// Texts with a separator between them.
pub open spec fn joined_by(parts: Seq<Seq<char>>, separator: Seq<char>) -> Seq<char>
    decreases parts.len(),
{
    if parts.len() == 0 {
        Seq::empty()
    } else if parts.len() == 1 {
        parts[0]
    } else {
        joined_by(parts.drop_last(), separator) + separator + parts.last()
    }
}

fn join_parts(parts: &Vec<String>, separator: &str) -> (joined: String)
    ensures
        joined@ == joined_by(text::texts(parts@), separator@),
{
    let ghost all = text::texts(parts@);
    let mut joined = String::new();
    let mut i: usize = 0;
    assert(joined@ =~= joined_by(all.take(0), separator@));
    while i < parts.len()
        invariant
            i <= parts@.len(),
            all == text::texts(parts@),
            joined@ == joined_by(all.take(i as int), separator@),
        decreases parts@.len() - i,
    {
        let ghost before = joined@;
        assert(all.take(i as int + 1).drop_last() =~= all.take(i as int));
        assert(all.take(i as int + 1).last() == parts@[i as int]@);
        if i > 0 {
            joined.append(separator);
        }
        joined.append(parts[i].as_str());
        if i == 0 {
            assert(joined@ =~= parts@[0]@);
        }
        i = i + 1;
    }
    assert(all.take(i as int) =~= all);
    joined
}

/// The names of the participants, as they are written.
pub open spec fn participant_names(authors: Seq<AuthorRecord>) -> Seq<Seq<char>> {
    authors.map_values(|author: AuthorRecord| escaped(author.name@))
}

/// An end of a date range, as it is shown.
pub open spec fn range_end_text(date: Option<CalendarDate>, otherwise: Seq<char>) -> Seq<char> {
    match date {
        Some(day) => calendar::date_text(day),
        None => otherwise,
    }
}

/// The head of a document.
pub open spec fn markdown_header_text(
    exported_at: Seq<char>,
    name: Seq<char>,
    start_date: Option<CalendarDate>,
    end_date: Option<CalendarDate>,
    include_media: bool,
    authors: Seq<AuthorRecord>,
) -> Seq<char> {
    "# "@ + escaped(name) + "\n\n- Exported: `"@ + escaped(exported_at) + "`\n- Dates: `"@
        + range_end_text(start_date, "earliest"@) + "` to `"@ + range_end_text(
        end_date,
        "latest"@,
    ) + "` (local)\n- Media: "@ + if include_media {
        "included"@
    } else {
        "not included"@
    } + "\n- Participants: "@ + joined_by(participant_names(authors), ", "@) + "\n\n---\n\n"@
}

fn show_range_end(date: Option<CalendarDate>, otherwise: &str) -> (shown: String)
    ensures
        shown@ == range_end_text(date, otherwise@),
{
    match date {
        Some(day) => day.to_text(),
        None => otherwise.to_owned(),
    }
}

/// The head of a document.
pub fn markdown_header(
    exported_at: &str,
    name: &str,
    start_date: Option<CalendarDate>,
    end_date: Option<CalendarDate>,
    include_media: bool,
    authors: &Vec<AuthorRecord>,
) -> (header: String)
    ensures
        header@ == markdown_header_text(
            exported_at@,
            name@,
            start_date,
            end_date,
            include_media,
            authors@,
        ),
{
    let mut names: Vec<String> = Vec::new();
    let mut i: usize = 0;
    while i < authors.len()
        invariant
            i <= authors@.len(),
            names@.len() == i,
            forall|j: int|
                0 <= j < i ==> (#[trigger] names@[j])@ == escaped(authors@[j].name@),
        decreases authors@.len() - i,
    {
        names.push(escape_markdown(authors[i].name.as_str()));
        i = i + 1;
    }
    assert(text::texts(names@) =~= participant_names(authors@));
    let mut header = join2("# ", escape_markdown(name).as_str());
    header.append("\n\n- Exported: `");
    header.append(escape_markdown(exported_at).as_str());
    header.append("`\n- Dates: `");
    header.append(show_range_end(start_date, "earliest").as_str());
    header.append("` to `");
    header.append(show_range_end(end_date, "latest").as_str());
    header.append("` (local)\n- Media: ");
    if include_media {
        header.append("included");
    } else {
        header.append("not included");
    }
    header.append("\n- Participants: ");
    header.append(join_parts(&names, ", ").as_str());
    header.append("\n\n---\n\n");
    header
}

// ---------------------------------------------------------------------------
// Messages
// ---------------------------------------------------------------------------

/// Each line between a prefix and a suffix.
pub open spec fn each_line(lines: Seq<Seq<char>>, prefix: Seq<char>, suffix: Seq<char>) -> Seq<char>
    decreases lines.len(),
{
    if lines.len() == 0 {
        Seq::empty()
    } else {
        each_line(lines.drop_last(), prefix, suffix) + (prefix + escaped(lines.last()) + suffix)
    }
}

fn write_lines(value: &str, prefix: &str, suffix: &str) -> (written: String)
    ensures
        written@ == each_line(words::lines_of(value@), prefix@, suffix@),
{
    let parts = lines(value);
    let ghost all = text::texts(parts@);
    let mut written = String::new();
    let mut i: usize = 0;
    assert(written@ =~= each_line(all.take(0), prefix@, suffix@));
    while i < parts.len()
        invariant
            i <= parts@.len(),
            all == text::texts(parts@),
            written@ == each_line(all.take(i as int), prefix@, suffix@),
        decreases parts@.len() - i,
    {
        assert(all.take(i as int + 1).drop_last() =~= all.take(i as int));
        assert(all.take(i as int + 1).last() == parts@[i as int]@);
        let line = join3(prefix, escape_markdown(parts[i].as_str()).as_str(), suffix);
        written.append(line.as_str());
        i = i + 1;
    }
    assert(all.take(i as int) =~= all);
    written
}

/// The message that a message answers to.
pub open spec fn quote_text(quote: Option<QuoteView>) -> Seq<char> {
    match quote {
        Some(held) => "> **Quoted from "@ + escaped(held.author) + "**\n"@ + each_line(
            words::lines_of(held.text),
            "> "@,
            "\n"@,
        ) + "\n"@,
        None => Seq::empty(),
    }
}

/// The text of a message, or else its kind.
pub open spec fn body_text(body: Option<Seq<char>>, kind: Seq<char>) -> Seq<char> {
    match body {
        Some(held) => each_line(words::lines_of(held), Seq::empty(), "  \n"@),
        None => "_"@ + escaped(kind) + "_\n\n"@,
    }
}

/// The line of an attachment: a link to its copy, or why there is none.
pub open spec fn attachment_text(attachment: AttachmentView) -> Seq<char> {
    let label = match attachment.caption {
        Some(caption) => caption,
        None => attachment.file_name,
    };
    match attachment.exported_path {
        Some(path) => "\n📎 ["@ + escaped(label) + "]("@ + link_text(
            vstd::utf8::encode_utf8(path),
        ) + ")\n"@,
        None => if attachment.source_available {
            "\n📎 "@ + escaped(label) + " _(available in source; not copied)_\n"@
        } else {
            "\n📎 "@ + escaped(label) + " _(not available in source)_\n"@
        },
    }
}

pub open spec fn attachments_text(attachments: Seq<AttachmentView>) -> Seq<char>
    decreases attachments.len(),
{
    if attachments.len() == 0 {
        Seq::empty()
    } else {
        attachments_text(attachments.drop_last()) + attachment_text(attachments.last())
    }
}

pub open spec fn reaction_parts(reactions: Seq<ReactionView>) -> Seq<Seq<char>> {
    reactions.map_values(
        |reaction: ReactionView| escaped(reaction.emoji) + " "@ + escaped(reaction.author),
    )
}

/// The line of the reactions, where there are any.
pub open spec fn reactions_text(reactions: Seq<ReactionView>) -> Seq<char> {
    if reactions.len() == 0 {
        Seq::empty()
    } else {
        "\n_Reactions: "@ + joined_by(reaction_parts(reactions), " · "@) + "_\n"@
    }
}

/// A message of a document.
pub open spec fn markdown_message_text(message: MessageView) -> Seq<char> {
    "### "@ + escaped(message.timestamp) + " · "@ + escaped(message.author.name) + "\n\n"@
        + quote_text(message.quote) + body_text(message.text, message.message_type)
        + attachments_text(message.attachments) + reactions_text(message.reactions) + "\n---\n\n"@
}

fn write_attachment(attachment: &AttachmentRecord) -> (written: String)
    ensures
        written@ == attachment_text(attachment@),
{
    let label = match &attachment.caption {
        Some(caption) => escape_markdown(caption.as_str()),
        None => escape_markdown(attachment.file_name.as_str()),
    };
    match &attachment.exported_path {
        Some(path) => {
            let mut written = join3("\n📎 [", label.as_str(), "](");
            written.append(percent_encode_path(path.as_str()).as_str());
            written.append(")\n");
            written
        },
        None => if attachment.source_available {
            join3("\n📎 ", label.as_str(), " _(available in source; not copied)_\n")
        } else {
            join3("\n📎 ", label.as_str(), " _(not available in source)_\n")
        },
    }
}

fn write_attachments(attachments: &Vec<AttachmentRecord>) -> (written: String)
    ensures
        written@ == attachments_text(
            attachments@.map_values(|attachment: AttachmentRecord| attachment@),
        ),
{
    let ghost all = attachments@.map_values(|attachment: AttachmentRecord| attachment@);
    let mut written = String::new();
    let mut i: usize = 0;
    assert(written@ =~= attachments_text(all.take(0)));
    while i < attachments.len()
        invariant
            i <= attachments@.len(),
            all == attachments@.map_values(|attachment: AttachmentRecord| attachment@),
            written@ == attachments_text(all.take(i as int)),
        decreases attachments@.len() - i,
    {
        assert(all.take(i as int + 1).drop_last() =~= all.take(i as int));
        assert(all.take(i as int + 1).last() == attachments@[i as int]@);
        written.append(write_attachment(&attachments[i]).as_str());
        i = i + 1;
    }
    assert(all.take(i as int) =~= all);
    written
}

fn write_reactions(reactions: &Vec<ReactionRecord>) -> (written: String)
    ensures
        written@ == reactions_text(reactions@.map_values(|reaction: ReactionRecord| reaction@)),
{
    let ghost all = reactions@.map_values(|reaction: ReactionRecord| reaction@);
    if reactions.len() == 0 {
        let empty = String::new();
        assert(empty@ =~= reactions_text(all));
        return empty;
    }
    let mut parts: Vec<String> = Vec::new();
    let mut i: usize = 0;
    while i < reactions.len()
        invariant
            i <= reactions@.len(),
            parts@.len() == i,
            all == reactions@.map_values(|reaction: ReactionRecord| reaction@),
            forall|j: int| 0 <= j < i ==> (#[trigger] parts@[j])@ == reaction_parts(all)[j],
        decreases reactions@.len() - i,
    {
        assert(all[i as int] == reactions@[i as int]@);
        parts.push(
            join3(
                escape_markdown(reactions[i].emoji.as_str()).as_str(),
                " ",
                escape_markdown(reactions[i].author.as_str()).as_str(),
            ),
        );
        i = i + 1;
    }
    assert(text::texts(parts@) =~= reaction_parts(all));
    join3("\n_Reactions: ", join_parts(&parts, " · ").as_str(), "_\n")
}

/// A message of a document.
pub fn markdown_message(message: &MessageRecord) -> (written: String)
    ensures
        written@ == markdown_message_text(message@),
{
    let mut written = join2("### ", escape_markdown(message.timestamp.as_str()).as_str());
    written.append(" · ");
    written.append(escape_markdown(message.author.name.as_str()).as_str());
    written.append("\n\n");
    let quote = match &message.quote {
        Some(held) => {
            let mut shown = join3(
                "> **Quoted from ",
                escape_markdown(held.author.as_str()).as_str(),
                "**\n",
            );
            shown.append(write_lines(held.text.as_str(), "> ", "\n").as_str());
            shown.append("\n");
            shown
        },
        None => {
            let empty = String::new();
            assert(empty@ =~= Seq::<char>::empty());
            empty
        },
    };
    written.append(quote.as_str());
    let body = match &message.text {
        Some(held) => {
            proof {
                reveal_strlit("");
                assert(""@ =~= Seq::<char>::empty());
            }
            write_lines(held.as_str(), "", "  \n")
        },
        None => join3("_", escape_markdown(message.message_type.as_str()).as_str(), "_\n\n"),
    };
    written.append(body.as_str());
    written.append(write_attachments(&message.attachments).as_str());
    written.append(write_reactions(&message.reactions).as_str());
    written.append("\n---\n\n");
    written
}

} // verus!
