//! The names of exported files and folders.

use vstd::prelude::*;

use crate::calendar::{self, CalendarDate};
use crate::error::AppError;
use crate::path::{self, find_extension, find_file_name, find_stem, join_path, replace_extension};
use crate::path::replace_name;
use crate::text::{self, char_is_alphanumeric, char_to_lowercase, contains_text, decimal_text};
use crate::text::{from_chars, join2, join3, matches_ignoring_case, to_chars};
use crate::words::{self, trim_end};

verus! {

#[derive(Debug, Clone, Copy, PartialEq, Eq, Structural)]
pub enum ExportFormat {
    Markdown,
    Json,
}

impl ExportFormat {
    pub open spec fn extension_text(self) -> Seq<char> {
        match self {
            ExportFormat::Markdown => "md"@,
            ExportFormat::Json => "json"@,
        }
    }

    /// The extension of exported files.
    pub fn extension(self) -> (shown: &'static str)
        ensures
            shown@ == self.extension_text(),
    {
        match self {
            ExportFormat::Markdown => "md",
            ExportFormat::Json => "json",
        }
    }
}

// ---------------------------------------------------------------------------
// Slugs
// ---------------------------------------------------------------------------

/// A name on its way to a slug: what was written of it, and whether a hyphen is
/// due before the next word.
pub struct SlugView {
    pub written: Seq<char>,
    pub hyphen_due: bool,
}

/// One more character of a name: letters and numbers are written small, with a
/// hyphen in front where others were passed over.
pub open spec fn slug_step(slug: SlugView, character: char) -> SlugView {
    if text::is_letter_or_number(character) {
        SlugView {
            written: (if slug.hyphen_due && slug.written.len() > 0 {
                slug.written.push('-')
            } else {
                slug.written
            }) + text::lowercase_of(character),
            hyphen_due: false,
        }
    } else {
        SlugView { written: slug.written, hyphen_due: true }
    }
}

/// The slug of a name; nothing is added once it has `limit` characters.
pub open spec fn slug_run(name: Seq<char>, limit: nat) -> SlugView
    decreases name.len(),
{
    if name.len() == 0 {
        SlugView { written: Seq::empty(), hyphen_due: false }
    } else {
        let before = slug_run(name.drop_last(), limit);
        if before.written.len() >= limit {
            before
        } else {
            slug_step(before, name.last())
        }
    }
}

/// The slug of a name, or a word in its place where nothing is left of the name.
pub open spec fn slug_text(name: Seq<char>, limit: nat, otherwise: Seq<char>) -> Seq<char> {
    let written = slug_run(name, limit).written;
    if written.len() == 0 {
        otherwise
    } else {
        words::trimmed_end(written, seq!['-'])
    }
}

/// Hyphens stand between words: none at an end, and no two together.
pub open spec fn hyphens_stand_between(shown: Seq<char>) -> bool {
    &&& shown.len() > 0
    &&& shown.first() != '-'
    &&& shown.last() != '-'
    &&& forall|i: int|
        0 <= i < shown.len() - 1 && #[trigger] shown[i] == '-' ==> shown[i + 1] != '-'
}

/// A slug of ASCII characters: words of small letters and digits with hyphens
/// between them. It is longer than `limit` only by a last word of one character.
pub open spec fn is_ascii_slug(shown: Seq<char>, limit: nat) -> bool {
    &&& hyphens_stand_between(shown)
    &&& forall|i: int|
        0 <= i < shown.len() ==> #[trigger] shown[i] == '-' || text::is_small_ascii(shown[i])
            || text::is_digit(shown[i])
    &&& shown.len() <= limit || (shown.len() == limit + 1 && limit > 0 && shown[limit - 1] == '-')
}

proof fn lemma_slug_is_full(name: Seq<char>, shorter: int, limit: nat)
    requires
        0 <= shorter <= name.len(),
        slug_run(name.take(shorter), limit).written.len() >= limit,
    ensures
        slug_run(name, limit) == slug_run(name.take(shorter), limit),
    decreases name.len(),
{
    if shorter == name.len() {
        assert(name.take(shorter) =~= name);
    } else {
        assert(name.drop_last().take(shorter) =~= name.take(shorter));
        lemma_slug_is_full(name.drop_last(), shorter, limit);
    }
}

/// A word after others, with or without a hyphen in front, leaves the hyphens
/// between words.
proof fn lemma_one_more_word(words: Seq<char>, start: Seq<char>, word: Seq<char>)
    requires
        words.len() > 0 ==> hyphens_stand_between(words),
        start == words || (words.len() > 0 && start == words.push('-')),
        word.len() > 0,
        !word.contains('-'),
    ensures
        hyphens_stand_between(start + word),
{
    let all = start + word;
    assert forall|i: int| 0 <= i < word.len() implies #[trigger] word[i] != '-' by {
        assert(word.contains(word[i]));
    }
    assert(all.last() == word[word.len() - 1]);
    assert(all.first() == if start.len() > 0 {
        words[0]
    } else {
        word[0]
    });
    assert forall|i: int| 0 <= i < all.len() - 1 && #[trigger] all[i] == '-' implies all[i + 1]
        != '-' by {
        if i + 1 < words.len() {
            assert(words[i] == '-');
            assert(words[i + 1] != '-');
        } else if i + 1 >= start.len() {
            assert(all[i + 1] == word[i + 1 - start.len()]);
        } else {
            assert(i + 1 == words.len());
            assert(words.last() == words[i]);
        }
    }
}

fn slug(name: &str, limit: usize, otherwise: &str) -> (shown: String)
    ensures
        shown@ == slug_text(name@, limit as nat, otherwise@),
        !otherwise@.contains('/') ==> !shown@.contains('/'),
        hyphens_stand_between(otherwise@) ==> hyphens_stand_between(shown@),
{
    let chars = to_chars(name);
    let mut written: Vec<char> = Vec::new();
    let mut hyphen_due = false;
    let mut i: usize = 0;
    assert(chars@.take(0).len() == 0);
    assert(written@ =~= Seq::<char>::empty());
    while i < chars.len() && written.len() < limit
        invariant
            i <= chars@.len(),
            slug_run(chars@.take(i as int), limit as nat) == (SlugView {
                written: written@,
                hyphen_due,
            }),
            !written@.contains('/'),
            written@.len() > 0 ==> hyphens_stand_between(written@),
        decreases chars@.len() - i,
    {
        let character = chars[i];
        assert(chars@.take(i as int + 1).drop_last() =~= chars@.take(i as int));
        if char_is_alphanumeric(character) {
            let ghost words = written@;
            if hyphen_due && written.len() > 0 {
                written.push('-');
            }
            let ghost before = written@;
            let small = char_to_lowercase(character);
            assert(!small@.contains('/') && !small@.contains('-')) by {
                if text::is_ascii(character) {
                    assert(text::ascii_lower(character) != '/');
                    assert(text::ascii_lower(character) != '-');
                }
            }
            let mut j: usize = 0;
            assert(written@ =~= before + small@.take(0));
            while j < small.len()
                invariant
                    j <= small@.len(),
                    written@ == before + small@.take(j as int),
                    !before.contains('/'),
                    !small@.contains('/'),
                    !written@.contains('/'),
                decreases small@.len() - j,
            {
                assert(small@.contains(small@[j as int]));
                written.push(small[j]);
                assert(written@ =~= before + small@.take(j as int + 1));
                j = j + 1;
            }
            assert(small@.take(j as int) =~= small@);
            proof {
                lemma_one_more_word(words, before, small@);
            }
            hyphen_due = false;
        } else {
            hyphen_due = true;
        }
        i = i + 1;
    }
    proof {
        if i < chars@.len() {
            lemma_slug_is_full(chars@, i as int, limit as nat);
        } else {
            assert(chars@.take(i as int) =~= chars@);
        }
    }
    if written.len() == 0 {
        otherwise.to_owned()
    } else {
        let mut unwanted: Vec<char> = Vec::new();
        unwanted.push('-');
        assert(unwanted@ =~= seq!['-']);
        let kept = trim_end(&written, &unwanted);
        proof {
            words::lemma_trimmed_end(written@, seq!['-']);
            assert(kept@ == written@) by {
                if seq!['-'].contains(written@.last()) {
                    let k = choose|k: int| 0 <= k < 1 && seq!['-'][k] == written@.last();
                }
            }
            assert forall|k: int| 0 <= k < kept@.len() implies #[trigger] kept@[k] != '/' by {
                assert(kept@[k] == written@[k]);
                assert(written@.contains(written@[k]));
            }
        }
        from_chars(&kept)
    }
}

/// The slug of a chat's name in the name of one of several files.
pub open spec fn chat_slug(name: Seq<char>) -> Seq<char> {
    slug_text(name, 40, "conversation"@)
}

/// The slug of a chat's name in the name of one of several files.
pub fn slugify(name: &str) -> (shown: String)
    ensures
        shown@ == chat_slug(name@),
        !shown@.contains('/'),
        hyphens_stand_between(shown@),
{
    proof {
        reveal_strlit("conversation");
    }
    slug(name, 40, "conversation")
}

/// The slug of a chat's name in a suggested file name.
pub open spec fn suggested_slug(name: Seq<char>) -> Seq<char> {
    slug_text(name, 60, "chat"@)
}

/// The slug of a chat's name in a suggested file name.
pub fn filename_slug(name: &str) -> (shown: String)
    ensures
        shown@ == suggested_slug(name@),
        !shown@.contains('/'),
        hyphens_stand_between(shown@),
{
    proof {
        reveal_strlit("chat");
    }
    slug(name, 60, "chat")
}

/// Something is left of a name in its slug.
pub open spec fn has_letter_or_number(name: Seq<char>) -> bool {
    exists|i: int| 0 <= i < name.len() && text::is_letter_or_number(#[trigger] name[i])
}

proof fn lemma_ascii_slug_run(name: Seq<char>, limit: nat)
    requires
        text::is_ascii_text(name),
        limit > 0,
    ensures
        ({
            let written = slug_run(name, limit).written;
            &&& written.len() > 0 ==> is_ascii_slug(written, limit)
            &&& (written.len() > 0) == has_letter_or_number(name)
        }),
    decreases name.len(),
{
    if name.len() > 0 {
        let rest = name.drop_last();
        assert forall|i: int| 0 <= i < rest.len() implies text::is_ascii(#[trigger] rest[i]) by {
            assert(rest[i] == name[i]);
        }
        lemma_ascii_slug_run(rest, limit);
        let before = slug_run(rest, limit);
        let after = slug_run(name, limit);
        let last = name.last();
        assert(text::is_ascii(name[name.len() - 1]));
        if has_letter_or_number(rest) {
            let k = choose|k: int| 0 <= k < rest.len() && text::is_letter_or_number(rest[k]);
            assert(text::is_letter_or_number(name[k]));
        } else if has_letter_or_number(name) {
            let k = choose|k: int| 0 <= k < name.len() && text::is_letter_or_number(name[k]);
            if k < rest.len() {
                assert(text::is_letter_or_number(rest[k]));
            }
        }
        if before.written.len() < limit && text::is_letter_or_number(last) {
            assert(text::is_letter_or_number(name[name.len() - 1]));
            let small = seq![text::ascii_lower(last)];
            let start = if before.hyphen_due && before.written.len() > 0 {
                before.written.push('-')
            } else {
                before.written
            };
            assert(after.written == start + small);
            assert(small[0] != '-');
            lemma_one_more_word(before.written, start, small);
            assert forall|i: int| 0 <= i < after.written.len() implies #[trigger] after.written[i]
                == '-' || text::is_small_ascii(after.written[i]) || text::is_digit(
                after.written[i],
            ) by {
                if i < before.written.len() {
                    assert(after.written[i] == before.written[i]);
                } else if i >= start.len() {
                    assert(after.written[i] == small[0]);
                }
            }
        }
    }
}

proof fn lemma_slug_of_slug(shown: Seq<char>, limit: nat, shorter: int)
    requires
        is_ascii_slug(shown, limit),
        0 <= shorter <= shown.len(),
    ensures
        slug_run(shown.take(shorter), limit) == (SlugView {
            written: if shorter > 0 && shown[shorter - 1] == '-' {
                shown.take(shorter - 1)
            } else {
                shown.take(shorter)
            },
            hyphen_due: shorter > 0 && shown[shorter - 1] == '-',
        }),
    decreases shorter,
{
    if shorter == 0 {
        assert(shown.take(0) =~= Seq::<char>::empty());
    } else {
        let k = shorter - 1;
        lemma_slug_of_slug(shown, limit, k);
        assert(shown.take(shorter).drop_last() =~= shown.take(k));
        assert(shown.take(shorter).last() == shown[k]);
        let before = slug_run(shown.take(k), limit);
        assert(before.written.len() < limit);
        if shown[k] == '-' {
            assert(k > 0);
            assert(shown[k - 1] != '-');
        } else {
            assert(text::ascii_lower(shown[k]) == shown[k]);
            if k > 0 && shown[k - 1] == '-' {
                assert(k - 1 > 0);
                assert(before.written.push('-') + seq![shown[k]] =~= shown.take(shorter));
            } else {
                assert(before.written + seq![shown[k]] =~= shown.take(shorter));
            }
        }
    }
}

proof fn lemma_slug_ends_with_a_word(written: Seq<char>)
    requires
        hyphens_stand_between(written),
    ensures
        words::trimmed_end(written, seq!['-']) == written,
{
    if seq!['-'].contains(written.last()) {
        let k = choose|k: int| 0 <= k < 1 && seq!['-'][k] == written.last();
    }
}

proof fn lemma_slug_text(name: Seq<char>, limit: nat, otherwise: Seq<char>)
    requires
        text::is_ascii_text(name),
        limit > 0,
        is_ascii_slug(otherwise, limit),
    ensures
        is_ascii_slug(slug_text(name, limit, otherwise), limit),
        !has_letter_or_number(name) ==> slug_text(name, limit, otherwise) == otherwise,
        slug_text(slug_text(name, limit, otherwise), limit, otherwise) == slug_text(
            name,
            limit,
            otherwise,
        ),
{
    lemma_ascii_slug_run(name, limit);
    let written = slug_run(name, limit).written;
    if written.len() > 0 {
        lemma_slug_ends_with_a_word(written);
    }
    let shown = slug_text(name, limit, otherwise);
    lemma_slug_of_slug(shown, limit, shown.len() as int);
    assert(shown.take(shown.len() as int) =~= shown);
    lemma_slug_ends_with_a_word(shown);
}

proof fn lemma_slug_ignores_case(left: Seq<char>, right: Seq<char>, limit: nat)
    requires
        text::same_ignoring_case(left, right),
    ensures
        slug_run(left, limit) == slug_run(right, limit),
    decreases left.len(),
{
    if left.len() > 0 {
        assert(text::same_ignoring_case(left.drop_last(), right.drop_last())) by {
            assert forall|i: int| 0 <= i < left.drop_last().len() implies text::ascii_lower(
                #[trigger] left.drop_last()[i],
            ) == text::ascii_lower(right.drop_last()[i]) by {
                assert(text::ascii_lower(left[i]) == text::ascii_lower(right[i]));
            }
        }
        lemma_slug_ignores_case(left.drop_last(), right.drop_last(), limit);
        let a = left[left.len() - 1];
        let b = right[right.len() - 1];
        assert(text::ascii_lower(a) == text::ascii_lower(b));
        assert(text::is_letter_or_number(a) == text::is_letter_or_number(b));
        assert(text::lowercase_of(a) =~= text::lowercase_of(b));
    }
}

/// The slug of a name in ASCII is made of words of small letters and digits, with
/// single hyphens between them. It is longer than its limit by at most one
/// character, and is its own slug. A name without a letter or a digit has the word
/// in its place.
pub proof fn an_ascii_name_has_a_plain_slug(name: Seq<char>)
    requires
        text::is_ascii_text(name),
    ensures
        is_ascii_slug(chat_slug(name), 40),
        chat_slug(name).len() <= 41,
        !has_letter_or_number(name) ==> chat_slug(name) == "conversation"@,
        chat_slug(chat_slug(name)) == chat_slug(name),
        is_ascii_slug(suggested_slug(name), 60),
        suggested_slug(name).len() <= 61,
        !has_letter_or_number(name) ==> suggested_slug(name) == "chat"@,
        suggested_slug(suggested_slug(name)) == suggested_slug(name),
{
    reveal_strlit("conversation");
    reveal_strlit("chat");
    lemma_slug_text(name, 40, "conversation"@);
    lemma_slug_text(name, 60, "chat"@);
}

/// Names that differ at most in the case of ASCII letters have the same slugs.
pub proof fn slugs_ignore_case(left: Seq<char>, right: Seq<char>)
    requires
        text::same_ignoring_case(left, right),
    ensures
        chat_slug(left) == chat_slug(right),
        suggested_slug(left) == suggested_slug(right),
{
    lemma_slug_ignores_case(left, right, 40);
    lemma_slug_ignores_case(left, right, 60);
}

// ---------------------------------------------------------------------------
// Suggested names
// ---------------------------------------------------------------------------

/// The name suggested for an export: the chat and the date of its last message
/// for one chat, the date alone for several files, the number of chats and the
/// date for a combined file.
pub open spec fn default_filename(
    selected_count: nat,
    single_name: Option<Seq<char>>,
    last_date: CalendarDate,
    separate: bool,
    format: ExportFormat,
) -> Seq<char> {
    let date = calendar::date_text(last_date);
    let stem = if separate && selected_count == 1 {
        suggested_slug(
            match single_name {
                Some(name) => name,
                None => "chat"@,
            },
        ) + "-"@ + date
    } else if separate {
        date
    } else {
        text::decimal(selected_count) + "-conversations-"@ + date
    };
    stem + "."@ + format.extension_text()
}

/// The name suggested for an export.
pub fn format_default_filename(
    selected_count: usize,
    single_name: Option<&str>,
    last_date: CalendarDate,
    separate: bool,
    format: ExportFormat,
) -> (name: String)
    ensures
        name@ == default_filename(
            selected_count as nat,
            match single_name {
                Some(held) => Some(held@),
                None => None,
            },
            last_date,
            separate,
            format,
        ),
{
    let date = last_date.to_text();
    let stem = if separate && selected_count == 1 {
        let held = match single_name {
            Some(held) => held,
            None => "chat",
        };
        join3(filename_slug(held).as_str(), "-", date.as_str())
    } else if separate {
        date
    } else {
        join3(decimal_text(selected_count as u64).as_str(), "-conversations-", date.as_str())
    };
    join3(stem.as_str(), ".", format.extension())
}

/// The extension of a path is that of a format, in any case.
pub open spec fn has_extension(path: Seq<char>, format: ExportFormat) -> bool {
    path::extension(path) is Some && text::same_ignoring_case(
        path::extension(path)->0,
        format.extension_text(),
    )
}

fn extension_matches(path: &str, format: ExportFormat) -> (matching: bool)
    ensures
        matching == has_extension(path@, format),
{
    match find_extension(path) {
        Some(found) => matches_ignoring_case(found.as_str(), format.extension()),
        None => false,
    }
}

/// The extension of an export file must be that of its format.
pub fn validate_output_extension(path: &str, format: ExportFormat) -> (result: Result<(), AppError>)
    ensures
        match result {
            Ok(()) => has_extension(path@, format),
            Err(error) => !has_extension(path@, format) && error is OutputExtensionMismatch,
        },
{
    if extension_matches(path, format) {
        Ok(())
    } else {
        Err(AppError::OutputExtensionMismatch)
    }
}

/// A chosen path with the extension of the format.
pub open spec fn normalized_path(path: Seq<char>, format: ExportFormat) -> Seq<char> {
    if has_extension(path, format) {
        path
    } else {
        path::with_extension(path, format.extension_text())
    }
}

/// A chosen path with the extension of the format.
pub fn normalized_output_path(path: &str, format: ExportFormat) -> (normalized: String)
    ensures
        normalized@ == normalized_path(path@, format),
{
    if extension_matches(path, format) {
        path.to_owned()
    } else {
        replace_extension(path, format.extension())
    }
}

// ---------------------------------------------------------------------------
// Folders beside a document
// ---------------------------------------------------------------------------

/// The name of the media folder of a document.
pub open spec fn media_folder_name(output: Seq<char>) -> Option<Seq<char>> {
    match path::file_stem(output) {
        Some(stem) => if stem.len() > 0 {
            Some(stem + "-media"@)
        } else {
            None
        },
        None => None,
    }
}

/// The name of the media folder of a document.
pub fn media_directory_name(output: &str) -> (result: Result<String, AppError>)
    ensures
        match result {
            Ok(name) => media_folder_name(output@) == Some(name@),
            Err(error) => media_folder_name(output@) is None && error is InvalidOutputFile,
        },
{
    match find_stem(output) {
        Some(stem) => if stem.as_str().is_empty() {
            Err(AppError::InvalidOutputFile)
        } else {
            Ok(join2(stem.as_str(), "-media"))
        },
        None => Err(AppError::InvalidOutputFile),
    }
}

/// The media folder of a document, which stands beside it.
pub fn media_directory_for_output(output: &str) -> (result: Result<String, AppError>)
    ensures
        match result {
            Ok(folder) => media_folder_name(output@) is Some && folder@ == path::with_name(
                output@,
                media_folder_name(output@)->0,
            ),
            Err(error) => media_folder_name(output@) is None && error is InvalidOutputFile,
        },
{
    match media_directory_name(output) {
        Ok(name) => Ok(replace_name(output, name.as_str())),
        Err(error) => Err(error),
    }
}

/// Where a file or folder stands while the export is put together.
pub fn staged_path_for(staging_directory: &str, final_path: &str) -> (result: Result<
    String,
    AppError,
>)
    ensures
        match result {
            Ok(staged) => path::file_name(final_path@) is Some && staged@ == path::joined(
                staging_directory@,
                path::file_name(final_path@)->0,
            ),
            Err(error) => path::file_name(final_path@) is None && error is InvalidOutputFile,
        },
{
    match find_file_name(final_path) {
        Some(name) => Ok(join_path(staging_directory, name.as_str())),
        None => Err(AppError::InvalidOutputFile),
    }
}

// ---------------------------------------------------------------------------
// Names that differ
// ---------------------------------------------------------------------------

/// A base name, and then the base name with a number from two on.
pub open spec fn candidate(base: Seq<char>, attempt: nat) -> Seq<char> {
    if attempt == 0 {
        base
    } else {
        base + "-"@ + text::decimal(attempt + 1)
    }
}

/// The first candidate that is not used, from an attempt on.
pub open spec fn free_candidate(base: Seq<char>, used: Seq<Seq<char>>, attempt: nat) -> Seq<char>
    decreases used.len() - attempt,
{
    if attempt >= used.len() || !used.contains(candidate(base, attempt)) {
        candidate(base, attempt)
    } else {
        free_candidate(base, used, attempt + 1)
    }
}

/// Each base name, or the first candidate for it that no earlier one took.
pub open spec fn unique_names(bases: Seq<Seq<char>>) -> Seq<Seq<char>>
    decreases bases.len(),
{
    if bases.len() == 0 {
        Seq::empty()
    } else {
        let used = unique_names(bases.drop_last());
        used.push(free_candidate(bases.last(), used, 0))
    }
}

fn make_candidate(base: &str, attempt: usize) -> (shown: String)
    requires
        attempt < u64::MAX,
    ensures
        shown@ == candidate(base@, attempt as nat),
{
    if attempt == 0 {
        base.to_owned()
    } else {
        join3(base, "-", decimal_text(attempt as u64 + 1).as_str())
    }
}

pub proof fn lemma_holds_text(pieces: Seq<String>, wanted: Seq<char>)
    ensures
        text::holds_text(pieces, wanted) == text::texts(pieces).contains(wanted),
{
    let all = text::texts(pieces);
    if text::holds_text(pieces, wanted) {
        let k = choose|k: int| 0 <= k < pieces.len() && #[trigger] pieces[k]@ == wanted;
        assert(all[k] == wanted);
    }
    if all.contains(wanted) {
        let k = choose|k: int| 0 <= k < all.len() && all[k] == wanted;
        assert(pieces[k]@ == wanted);
    }
}

/// Each base name, or the first candidate for it that no earlier one took.
pub fn make_unique(bases: &Vec<String>) -> (names: Vec<String>)
    ensures
        text::texts(names@) == unique_names(text::texts(bases@)),
{
    let ghost all = text::texts(bases@);
    let mut names: Vec<String> = Vec::new();
    let mut i: usize = 0;
    assert(text::texts(names@) =~= unique_names(all.take(0)));
    while i < bases.len()
        invariant
            i <= bases@.len(),
            all == text::texts(bases@),
            names@.len() == i,
            text::texts(names@) == unique_names(all.take(i as int)),
        decreases bases@.len() - i,
    {
        let ghost used = text::texts(names@);
        let ghost base = bases@[i as int]@;
        assert(all.take(i as int + 1).drop_last() =~= all.take(i as int));
        assert(all.take(i as int + 1).last() == base);
        let mut attempt: usize = 0;
        let mut name = make_candidate(bases[i].as_str(), attempt);
        while attempt < names.len() && contains_text(&names, name.as_str())
            invariant
                i < bases@.len(),
                i < usize::MAX,
                names@.len() == i,
                used == text::texts(names@),
                base == bases@[i as int]@,
                attempt <= used.len(),
                name@ == candidate(base, attempt as nat),
                free_candidate(base, used, 0) == free_candidate(base, used, attempt as nat),
            decreases used.len() - attempt,
        {
            proof {
                lemma_holds_text(names@, name@);
            }
            attempt = attempt + 1;
            name = make_candidate(bases[i].as_str(), attempt);
        }
        proof {
            lemma_holds_text(names@, name@);
        }
        names.push(name);
        assert(text::texts(names@) =~= used.push(names@.last()@));
        i = i + 1;
    }
    assert(all.take(i as int) =~= all);
    names
}

/// Two candidates for a base name differ.
pub proof fn candidates_differ(base: Seq<char>, first: nat, second: nat)
    requires
        first != second,
    ensures
        candidate(base, first) != candidate(base, second),
{
    reveal_strlit("-");
    let a = candidate(base, first);
    let b = candidate(base, second);
    text::reading_undoes_writing(first + 1);
    text::reading_undoes_writing(second + 1);
    if a == b {
        if first == 0 || second == 0 {
            assert(a.len() != b.len());
        } else {
            let start = base.len() as int + 1;
            assert(a.skip(start) =~= text::decimal(first + 1));
            assert(b.skip(start) =~= text::decimal(second + 1));
        }
    }
}

proof fn lemma_free_candidate(base: Seq<char>, used: Seq<Seq<char>>, attempt: nat)
    requires
        attempt <= used.len(),
        forall|k: nat| k < attempt ==> used.contains(#[trigger] candidate(base, k)),
    ensures
        !used.contains(free_candidate(base, used, attempt)),
    decreases used.len() - attempt,
{
    if used.contains(candidate(base, attempt)) {
        if attempt < used.len() {
            lemma_free_candidate(base, used, attempt + 1);
        } else {
            let taken = Seq::new(attempt + 1, |k: int| candidate(base, k as nat));
            assert forall|i: int, j: int| 0 <= i < taken.len() && 0 <= j < taken.len() && i
                != j implies taken[i] != taken[j] by {
                candidates_differ(base, i as nat, j as nat);
            }
            assert(taken.no_duplicates());
            taken.unique_seq_to_set();
            used.lemma_cardinality_of_set();
            assert(taken.to_set().subset_of(used.to_set())) by {
                assert forall|name: Seq<char>| taken.to_set().contains(name) implies used.to_set().contains(
                    name,
                ) by {
                    let k = choose|k: int| 0 <= k < taken.len() && taken[k] == name;
                    assert(used.contains(candidate(base, k as nat)));
                }
            }
            vstd::set_lib::lemma_len_subset(taken.to_set(), used.to_set());
        }
    }
}

/// There is always a candidate that is not used, and the one that is found is
/// such a candidate.
pub proof fn a_free_name_is_found(base: Seq<char>, used: Seq<Seq<char>>)
    ensures
        !used.contains(free_candidate(base, used, 0)),
{
    lemma_free_candidate(base, used, 0);
}

/// No name is given twice.
pub proof fn unique_names_differ(bases: Seq<Seq<char>>)
    ensures
        unique_names(bases).no_duplicates(),
        unique_names(bases).len() == bases.len(),
    decreases bases.len(),
{
    if bases.len() > 0 {
        unique_names_differ(bases.drop_last());
        let used = unique_names(bases.drop_last());
        a_free_name_is_found(bases.last(), used);
        let name = free_candidate(bases.last(), used, 0);
        assert forall|i: int, j: int|
            0 <= i < used.push(name).len() && 0 <= j < used.push(name).len() && i
                != j implies used.push(name)[i] != used.push(name)[j] by {
            if i < used.len() && j < used.len() {
                assert(used[i] != used[j]);
            } else if i < used.len() {
                assert(used.contains(used[i]));
            } else {
                assert(used.contains(used[j]));
            }
        }
    }
}

} // verus!
