//! Names of files.

use vstd::prelude::*;

use crate::calendar::{self, CalendarDate};
use crate::laws::path::{a_name_is_put_into_its_folder, a_name_is_stem_and_extension, another_extension_keeps_the_stem};
use crate::names::{self, ExportFormat};
use crate::path;
use crate::text;

verus! {

// ---------------------------------------------------------------------------
// Slugs
// ---------------------------------------------------------------------------

/// One more letter or number of a name is written small at the end of its slug, with a
/// hyphen before it where others stand between it and what was written; any other
/// character writes nothing.
pub proof fn a_slug_grows_by_letters(name: Seq<char>, next: char, limit: nat)
    requires
        names::slug_run(name, limit).written.len() < limit,
    ensures
        ({
            let before = names::slug_run(name, limit).written;
            let after = names::slug_run(name.push(next), limit).written;
            &&& !text::is_letter_or_number(next) ==> after == before
            &&& text::is_letter_or_number(next) && (name.len() == 0 || text::is_letter_or_number(
                name.last(),
            ) || before.len() == 0) ==> after == before + text::lowercase_of(next)
            &&& text::is_letter_or_number(next) && name.len() > 0 && !text::is_letter_or_number(
                name.last(),
            ) && before.len() > 0 ==> after == before + seq!['-'] + text::lowercase_of(next)
        }),
        names::slug_run(Seq::empty(), limit).written.len() == 0,
{
    let all = name.push(next);
    assert(all.drop_last() =~= name);
    assert(all.last() == next);
    let before = names::slug_run(name, limit).written;
    assert(before.push('-') + text::lowercase_of(next) =~= before + seq!['-']
        + text::lowercase_of(next));
}

/// A slug that is long enough does not grow.
pub proof fn a_full_slug_does_not_grow(name: Seq<char>, next: char, limit: nat)
    requires
        names::slug_run(name, limit).written.len() >= limit,
    ensures
        names::slug_run(name.push(next), limit).written == names::slug_run(name, limit).written,
{
    assert(name.push(next).drop_last() =~= name);
}

/// A name of small letters and digits.
pub open spec fn is_small_word(name: Seq<char>) -> bool {
    forall|i: int|
        0 <= i < name.len() ==> (('a' <= #[trigger] name[i] && name[i] <= 'z') || ('0' <= name[i]
            && name[i] <= '9'))
}

proof fn lemma_small_word(name: Seq<char>, limit: nat)
    requires
        is_small_word(name),
    ensures
        names::slug_run(name, limit).written == if name.len() <= limit {
            name
        } else {
            name.take(limit as int)
        },
        !names::slug_run(name, limit).hyphen_due,
    decreases name.len(),
{
    if name.len() == 0 {
        assert(names::slug_run(name, limit).written =~= name);
    } else {
        let rest = name.drop_last();
        assert forall|i: int| 0 <= i < rest.len() implies (('a' <= #[trigger] rest[i] && rest[i]
            <= 'z') || ('0' <= rest[i] && rest[i] <= '9')) by {
            assert(rest[i] == name[i]);
        }
        lemma_small_word(rest, limit);
        let last = name[name.len() - 1];
        assert(text::is_letter_or_number(last));
        assert(text::lowercase_of(last) =~= seq![last]);
        if rest.len() < limit {
            assert(names::slug_run(name, limit).written =~= name);
        } else {
            assert(names::slug_run(name, limit).written =~= name.take(limit as int));
        }
    }
}

/// A word of small letters and digits is its own slug, cut off after forty characters
/// in the name of one of several files and after sixty in a suggested name.
pub proof fn a_small_word_is_its_own_slug(name: Seq<char>)
    requires
        is_small_word(name),
        name.len() > 0,
    ensures
        names::chat_slug(name) == if name.len() <= 40 {
            name
        } else {
            name.take(40)
        },
        names::suggested_slug(name) == if name.len() <= 60 {
            name
        } else {
            name.take(60)
        },
{
    lemma_small_word(name, 40);
    lemma_small_word(name, 60);
    let short = names::slug_run(name, 40).written;
    let long = names::slug_run(name, 60).written;
    assert(short.last() == name[short.len() - 1]);
    assert(long.last() == name[long.len() - 1]);
    assert(seq!['-'].contains(short.last()) ==> short.last() == '-');
    assert(seq!['-'].contains(long.last()) ==> long.last() == '-');
}

/// A name without letters and numbers has a word in the place of its slug.
pub proof fn a_name_without_letters_has_a_word(name: Seq<char>)
    requires
        forall|i: int| 0 <= i < name.len() ==> !text::is_letter_or_number(#[trigger] name[i]),
    ensures
        names::chat_slug(name) == "conversation"@,
        names::suggested_slug(name) == "chat"@,
{
    lemma_nothing_written(name, 40);
    lemma_nothing_written(name, 60);
}

proof fn lemma_nothing_written(name: Seq<char>, limit: nat)
    requires
        forall|i: int| 0 <= i < name.len() ==> !text::is_letter_or_number(#[trigger] name[i]),
    ensures
        names::slug_run(name, limit).written.len() == 0,
    decreases name.len(),
{
    if name.len() > 0 {
        let rest = name.drop_last();
        assert forall|i: int| 0 <= i < rest.len() implies !text::is_letter_or_number(
            #[trigger] rest[i],
        ) by {
            assert(rest[i] == name[i]);
        }
        lemma_nothing_written(rest, limit);
        assert(!text::is_letter_or_number(name[name.len() - 1]));
    }
}

// ---------------------------------------------------------------------------
// Suggested names
// ---------------------------------------------------------------------------

/// A single file of its own is named by its chat and date, several by the date alone,
/// and a combined file by the number of chats and the date; each ends with the
/// extension of its format.
pub proof fn a_suggested_name_tells_chat_and_date(
    name: Seq<char>,
    count: nat,
    single: Option<Seq<char>>,
    date: CalendarDate,
)
    ensures
        ExportFormat::Markdown.extension_text() == seq!['m', 'd'],
        ExportFormat::Json.extension_text() == seq!['j', 's', 'o', 'n'],
        names::default_filename(1, Some(name), date, true, ExportFormat::Markdown)
            == names::suggested_slug(name) + seq!['-'] + calendar::date_text(date) + seq![
            '.',
            'm',
            'd',
        ],
        names::default_filename(1, Some(name), date, true, ExportFormat::Json)
            == names::suggested_slug(name) + seq!['-'] + calendar::date_text(date) + seq![
            '.',
            'j',
            's',
            'o',
            'n',
        ],
        count != 1 ==> names::default_filename(count, single, date, true, ExportFormat::Markdown)
            == calendar::date_text(date) + seq!['.', 'm', 'd'],
        count != 1 ==> names::default_filename(count, single, date, true, ExportFormat::Json)
            == calendar::date_text(date) + seq!['.', 'j', 's', 'o', 'n'],
        names::default_filename(count, single, date, false, ExportFormat::Markdown)
            == text::decimal(count) + "-conversations-"@ + calendar::date_text(date) + seq![
            '.',
            'm',
            'd',
        ],
        names::default_filename(count, single, date, false, ExportFormat::Json) == text::decimal(
            count,
        ) + "-conversations-"@ + calendar::date_text(date) + seq!['.', 'j', 's', 'o', 'n'],
{
    reveal_strlit("md");
    reveal_strlit("json");
    reveal_strlit("-");
    reveal_strlit(".");
    assert("md"@ =~= seq!['m', 'd']);
    assert("json"@ =~= seq!['j', 's', 'o', 'n']);
    assert("-"@ =~= seq!['-']);
    let day = calendar::date_text(date);
    let slug = names::suggested_slug(name);
    let counted = text::decimal(count) + "-conversations-"@ + day;
    let named = slug + seq!['-'] + day;
    assert(named + "."@ + "md"@ =~= named + seq!['.', 'm', 'd']);
    assert(named + "."@ + "json"@ =~= named + seq!['.', 'j', 's', 'o', 'n']);
    assert(day + "."@ + "md"@ =~= day + seq!['.', 'm', 'd']);
    assert(day + "."@ + "json"@ =~= day + seq!['.', 'j', 's', 'o', 'n']);
    assert(counted + "."@ + "md"@ =~= counted + seq!['.', 'm', 'd']);
    assert(counted + "."@ + "json"@ =~= counted + seq!['.', 'j', 's', 'o', 'n']);
}

// ---------------------------------------------------------------------------
// Extensions and media folders
// ---------------------------------------------------------------------------

/// A name of a stem and an extension.
pub open spec fn is_stem_and_extension(stem: Seq<char>, extension: Seq<char>) -> bool {
    &&& stem.len() > 0
    &&& !stem.contains('/')
    &&& stem != seq!['.']
    &&& !extension.contains('.')
    &&& !extension.contains('/')
}

proof fn lemma_named_file(base: Seq<char>, stem: Seq<char>, extension: Seq<char>)
    requires
        is_stem_and_extension(stem, extension),
    ensures
        ({
            let file = path::joined(base, stem + seq!['.'] + extension);
            &&& path::file_name(file) == Some(stem + seq!['.'] + extension)
            &&& path::file_stem(file) == Some(stem)
            &&& path::extension(file) == Some(extension)
        }),
{
    let name = stem + seq!['.'] + extension;
    assert(name[stem.len() as int] == '.');
    assert(!name.contains('/')) by {
        if name.contains('/') {
            let i = choose|i: int| 0 <= i < name.len() && name[i] == '/';
            if i < stem.len() {
                assert(stem[i] == '/');
            } else if i > stem.len() {
                assert(extension[i - stem.len() - 1] == '/');
            }
        }
    }
    assert(name.len() >= 2);
    assert(name != seq!['.', '.']) by {
        if name =~= seq!['.', '.'] {
            assert(stem.len() == 1);
            assert(stem[0] == name[0]);
            assert(stem =~= seq!['.']);
        }
    }
    a_name_is_put_into_its_folder(base, name);
    a_name_is_stem_and_extension(stem, extension);
}

/// A file has the extension of a format in any case of its letters, and keeps its name
/// then; else the extension of the format takes the place of its own.
pub proof fn a_file_gets_the_extension_of_its_format(
    base: Seq<char>,
    stem: Seq<char>,
    extension: Seq<char>,
    format: ExportFormat,
)
    requires
        is_stem_and_extension(stem, extension),
    ensures
        ({
            let file = path::joined(base, stem + seq!['.'] + extension);
            &&& names::has_extension(file, format) <==> text::same_ignoring_case(
                extension,
                format.extension_text(),
            )
            &&& text::same_ignoring_case(extension, format.extension_text())
                ==> names::normalized_path(file, format) == file
            &&& !text::same_ignoring_case(extension, format.extension_text())
                ==> names::normalized_path(file, format) == path::joined(
                base,
                stem + seq!['.'] + format.extension_text(),
            )
        }),
{
    lemma_named_file(base, stem, extension);
    let wanted = format.extension_text();
    reveal_strlit("md");
    reveal_strlit("json");
    assert(!wanted.contains('.') && !wanted.contains('/') && wanted.len() > 0);
    another_extension_keeps_the_stem(base, stem, extension, wanted);
}

/// The media folder of a document is named by its stem.
pub proof fn a_media_folder_is_named_by_its_document(
    base: Seq<char>,
    stem: Seq<char>,
    extension: Seq<char>,
)
    requires
        is_stem_and_extension(stem, extension),
    ensures
        names::media_folder_name(path::joined(base, stem + seq!['.'] + extension)) == Some(
            stem + seq!['-', 'm', 'e', 'd', 'i', 'a'],
        ),
{
    lemma_named_file(base, stem, extension);
    reveal_strlit("-media");
    assert("-media"@ =~= seq!['-', 'm', 'e', 'd', 'i', 'a']);
}

// ---------------------------------------------------------------------------
// Names that differ
// ---------------------------------------------------------------------------

/// A name is told apart by a number, from two on.
pub proof fn a_name_is_told_apart_by_a_number(base: Seq<char>, attempt: nat)
    ensures
        names::candidate(base, 0) == base,
        names::candidate(base, attempt + 1) == base + seq!['-'] + text::decimal(attempt + 2),
{
    reveal_strlit("-");
    assert("-"@ =~= seq!['-']);
}

/// A name is the first of the candidates for a base name that no other has.
pub open spec fn is_first_free(
    base: Seq<char>,
    used: Seq<Seq<char>>,
    name: Seq<char>,
    attempt: nat,
) -> bool {
    &&& name == names::candidate(base, attempt)
    &&& !used.contains(name)
    &&& forall|earlier: nat|
        earlier < attempt ==> used.contains(#[trigger] names::candidate(base, earlier))
}

proof fn lemma_first_free(base: Seq<char>, used: Seq<Seq<char>>, attempt: nat)
    ensures
        exists|k: nat|
            k >= attempt && names::free_candidate(base, used, attempt)
                == #[trigger] names::candidate(base, k) && forall|earlier: nat|
                attempt <= earlier < k ==> used.contains(
                    #[trigger] names::candidate(base, earlier),
                ),
    decreases used.len() - attempt,
{
    if attempt >= used.len() || !used.contains(names::candidate(base, attempt)) {
        let k = attempt;
        assert(names::free_candidate(base, used, attempt) == names::candidate(base, k));
    } else {
        lemma_first_free(base, used, attempt + 1);
        let k = choose|k: nat|
            k >= attempt + 1 && names::free_candidate(base, used, attempt + 1)
                == #[trigger] names::candidate(base, k) && forall|earlier: nat|
                attempt + 1 <= earlier < k ==> used.contains(
                    #[trigger] names::candidate(base, earlier),
                );
        assert forall|earlier: nat| attempt <= earlier < k implies used.contains(
            #[trigger] names::candidate(base, earlier),
        ) by {
            if earlier > attempt {
                assert(attempt + 1 <= earlier);
            }
        }
        assert(names::free_candidate(base, used, attempt) == names::candidate(base, k));
    }
}

/// Each file keeps its base name where no file before it has it; else it gets the
/// first number that makes it differ.
pub proof fn a_name_stays_where_it_is_free(bases: Seq<Seq<char>>, further: Seq<char>)
    ensures
        ({
            let before = names::unique_names(bases);
            let after = names::unique_names(bases.push(further));
            &&& after.len() == before.len() + 1
            &&& forall|i: int| 0 <= i < before.len() ==> #[trigger] after[i] == before[i]
            &&& !before.contains(further) ==> after.last() == further
            &&& exists|attempt: nat| #[trigger]
                is_first_free(further, before, after.last(), attempt)
        }),
        names::unique_names(Seq::empty()).len() == 0,
{
    let before = names::unique_names(bases);
    let after = names::unique_names(bases.push(further));
    assert(bases.push(further).drop_last() =~= bases);
    assert(bases.push(further).last() == further);
    assert(after == before.push(names::free_candidate(further, before, 0)));
    names::a_free_name_is_found(further, before);
    lemma_first_free(further, before, 0);
    let k = choose|k: nat|
        k >= 0 && names::free_candidate(further, before, 0) == #[trigger] names::candidate(
            further,
            k,
        ) && forall|earlier: nat|
            0 <= earlier < k ==> before.contains(#[trigger] names::candidate(further, earlier));
    assert(is_first_free(further, before, after.last(), k));
    if !before.contains(further) {
        if k > 0 {
            assert(before.contains(names::candidate(further, 0)));
        }
    }
}

/// A single chat whose name is not known is called "chat".
pub proof fn a_chat_without_a_name_is_called_chat(date: CalendarDate, format: ExportFormat)
    ensures
        names::default_filename(1, None, date, true, format) == "chat-"@ + calendar::date_text(date)
            + "."@ + format.extension_text(),
{
    reveal_strlit("chat");
    reveal_strlit("chat-");
    reveal_strlit("-");
    a_small_word_is_its_own_slug("chat"@);
    assert("chat"@ + "-"@ =~= "chat-"@);
}

} // verus!
