//! Attachments: how their files are named in the archive and in the export.

use vstd::prelude::*;

use base64::Engine;
use sha2::Digest;

use crate::json::{Json, JsonView};
use crate::parser;
use crate::path::{self, find_file_name, join_path};
use crate::text::{self, from_chars, to_chars};
use crate::words::{self, trim_both};

verus! {

// ---------------------------------------------------------------------------
// Bytes as text
// ---------------------------------------------------------------------------

/// The bytes that a text stands for in base64.
pub uninterp spec fn base64_read(text: Seq<char>) -> Option<Seq<u8>>;

/// `decode` of base64's `STANDARD` engine: whether the text is accepted, and the
/// bytes that it stands for, depend on the text alone.
#[verifier::external_body]
fn decode_base64(text: &str) -> (bytes: Option<Vec<u8>>)
    ensures
        match bytes {
            Some(held) => base64_read(text@) == Some(held@),
            None => base64_read(text@) is None,
        },
{
    base64::engine::general_purpose::STANDARD.decode(text).ok()
}

/// The value of a hexadecimal digit.
pub open spec fn hex_digit(character: char) -> Option<u8> {
    if '0' <= character && character <= '9' {
        Some((character as u32 - '0' as u32) as u8)
    } else if 'a' <= character && character <= 'f' {
        Some((character as u32 - 'a' as u32 + 10) as u8)
    } else if 'A' <= character && character <= 'F' {
        Some((character as u32 - 'A' as u32 + 10) as u8)
    } else {
        None
    }
}

/// The value of two characters: two hexadecimal digits, or one after a plus.
pub open spec fn hex_pair(first: char, second: char) -> Option<u8> {
    if first == '+' {
        hex_digit(second)
    } else if hex_digit(first) is Some && hex_digit(second) is Some {
        Some((hex_digit(first)->0 * 16 + hex_digit(second)->0) as u8)
    } else {
        None
    }
}

/// The bytes that a text stands for, two characters for each.
pub open spec fn hex_read(text: Seq<char>) -> Option<Seq<u8>>
    decreases text.len(),
{
    if text.len() == 0 {
        Some(Seq::empty())
    } else if text.len() == 1 {
        None
    } else {
        match (hex_read(text.take(text.len() - 2)), hex_pair(text[text.len() - 2], text.last())) {
            (Some(bytes), Some(byte)) => Some(bytes.push(byte)),
            _ => None,
        }
    }
}

fn hex_digit_value(character: char) -> (value: Option<u8>)
    ensures
        value == hex_digit(character),
        value matches Some(digit) ==> digit < 16,
{
    if '0' <= character && character <= '9' {
        Some((character as u32 - 48) as u8)
    } else if 'a' <= character && character <= 'f' {
        Some((character as u32 - 97 + 10) as u8)
    } else if 'A' <= character && character <= 'F' {
        Some((character as u32 - 65 + 10) as u8)
    } else {
        None
    }
}

proof fn lemma_bad_hex(text: Seq<char>, pairs: int)
    requires
        0 <= pairs,
        2 * pairs + 1 < text.len(),
        hex_pair(text[2 * pairs], text[2 * pairs + 1]) is None,
    ensures
        hex_read(text) is None,
    decreases text.len(),
{
    if text.len() % 2 == 1 {
        lemma_odd_hex(text);
    } else if 2 * pairs + 2 < text.len() {
        lemma_bad_hex(text.take(text.len() - 2), pairs);
    }
}

proof fn lemma_odd_hex(text: Seq<char>)
    requires
        text.len() % 2 == 1,
    ensures
        hex_read(text) is None,
    decreases text.len(),
{
    if text.len() > 1 {
        lemma_odd_hex(text.take(text.len() - 2));
    }
}

/// The bytes that a text stands for, two hexadecimal digits for each.
pub fn decode_hex(text: &str) -> (bytes: Option<Vec<u8>>)
    ensures
        match bytes {
            Some(held) => hex_read(text@) == Some(held@),
            None => hex_read(text@) is None,
        },
{
    let chars = to_chars(text);
    if chars.len() % 2 != 0 {
        proof {
            lemma_odd_hex(text@);
        }
        return None;
    }
    let mut bytes: Vec<u8> = Vec::new();
    let mut i: usize = 0;
    assert(text@.take(0).len() == 0);
    while i < chars.len()
        invariant
            chars@ == text@,
            chars@.len() % 2 == 0,
            i % 2 == 0,
            i <= chars@.len(),
            hex_read(text@.take(i as int)) == Some(bytes@),
        decreases chars@.len() - i,
    {
        let first = chars[i];
        let second = chars[i + 1];
        let byte = if first == '+' {
            hex_digit_value(second)
        } else {
            match (hex_digit_value(first), hex_digit_value(second)) {
                (Some(high), Some(low)) => Some(high * 16 + low),
                _ => None,
            }
        };
        assert(byte == hex_pair(first, second));
        let ghost shorter = text@.take(i as int + 2);
        assert(shorter.take(shorter.len() - 2) =~= text@.take(i as int));
        match byte {
            Some(value) => {
                bytes.push(value);
            },
            None => {
                proof {
                    lemma_bad_hex(text@, i as int / 2);
                }
                return None;
            },
        }
        i = i + 2;
    }
    assert(text@.take(i as int) =~= text@);
    Some(bytes)
}

/// The bytes that a value stands for: base64, or else hexadecimal.
pub open spec fn bytes_read(value: JsonView) -> Option<Seq<u8>> {
    match value {
        JsonView::Text(held) => match base64_read(held) {
            Some(bytes) => Some(bytes),
            None => hex_read(held),
        },
        _ => None,
    }
}

/// The bytes that a value stands for.
pub fn decode_signal_bytes(value: &Json) -> (bytes: Option<Vec<u8>>)
    ensures
        match bytes {
            Some(held) => bytes_read(value@) == Some(held@),
            None => bytes_read(value@) is None,
        },
{
    match value {
        Json::Text(held) => match decode_base64(held.as_str()) {
            Some(bytes) => Some(bytes),
            None => decode_hex(held.as_str()),
        },
        _ => None,
    }
}

/// The SHA-256 digest of some bytes.
pub uninterp spec fn sha256(bytes: Seq<u8>) -> Seq<u8>;

/// `Sha256::digest` of sha2: 32 bytes that depend on the input alone.
#[verifier::external_body]
fn digest_sha256(bytes: &Vec<u8>) -> (digest: Vec<u8>)
    ensures
        digest@ == sha256(bytes@),
        digest@.len() == 32,
{
    sha2::Sha256::digest(bytes).to_vec()
}

/// The small hexadecimal digit of a value below sixteen.
pub open spec fn hex_char(digit: int) -> char {
    if digit < 10 {
        ('0' as u32 + digit) as char
    } else {
        ('a' as u32 + digit - 10) as char
    }
}

/// Bytes in hexadecimal, two small digits for each.
pub open spec fn hex_text(bytes: Seq<u8>) -> Seq<char>
    decreases bytes.len(),
{
    if bytes.len() == 0 {
        Seq::empty()
    } else {
        hex_text(bytes.drop_last()) + seq![
            hex_char(bytes.last() as int / 16),
            hex_char(bytes.last() as int % 16),
        ]
    }
}

fn hex_digit_char(digit: u8) -> (character: char)
    requires
        digit < 16,
    ensures
        character == hex_char(digit as int),
{
    if digit < 10 {
        (48 + digit) as char
    } else {
        (97 + (digit - 10)) as char
    }
}

/// Bytes in hexadecimal.
pub fn encode_hex(bytes: &Vec<u8>) -> (text: String)
    ensures
        text@ == hex_text(bytes@),
{
    let mut shown = String::new();
    let mut i: usize = 0;
    assert(bytes@.take(0).len() == 0);
    while i < bytes.len()
        invariant
            i <= bytes@.len(),
            shown@ == hex_text(bytes@.take(i as int)),
        decreases bytes@.len() - i,
    {
        let ghost before = shown@;
        shown.push(hex_digit_char(bytes[i] / 16));
        shown.push(hex_digit_char(bytes[i] % 16));
        assert(bytes@.take(i as int + 1).drop_last() =~= bytes@.take(i as int));
        assert(shown@ =~= before + seq![
            hex_char(bytes@[i as int] as int / 16),
            hex_char(bytes@[i as int] as int % 16),
        ]);
        i = i + 1;
    }
    assert(bytes@.take(i as int) =~= bytes@);
    shown
}

/// Reading hexadecimal text gives back the bytes that were written.
pub proof fn reading_hex_undoes_writing(bytes: Seq<u8>)
    ensures
        hex_read(hex_text(bytes)) == Some(bytes),
        hex_text(bytes).len() == 2 * bytes.len(),
    decreases bytes.len(),
{
    if bytes.len() > 0 {
        reading_hex_undoes_writing(bytes.drop_last());
        let shown = hex_text(bytes);
        assert(shown.take(shown.len() - 2) =~= hex_text(bytes.drop_last()));
        assert(bytes.drop_last().push(bytes.last()) =~= bytes);
    } else {
        assert(bytes =~= Seq::<u8>::empty());
    }
}

// ---------------------------------------------------------------------------
// Files of the archive
// ---------------------------------------------------------------------------

/// The bytes in a member of an object.
pub open spec fn bytes_member(object: JsonView, key: Seq<char>) -> Option<Seq<u8>> {
    match object.member(key) {
        Some(value) => bytes_read(value),
        None => None,
    }
}

/// The hash of an attachment, which stands in one of two places.
pub open spec fn plaintext_hash(locator: JsonView) -> Option<Seq<u8>> {
    match bytes_member(locator, "plaintextHash"@) {
        Some(hash) => Some(hash),
        None => match locator.object_member("integrityCheck"@) {
            Some(check) => bytes_member(check, "plaintextHash"@),
            None => None,
        },
    }
}

/// The name of the file that holds an attachment, without its extension: the
/// digest of its hash and its key.
pub open spec fn media_name_text(pointer: JsonView) -> Option<Seq<char>> {
    match pointer.object_member("locatorInfo"@) {
        Some(locator) => match (bytes_member(locator, "localKey"@), plaintext_hash(locator)) {
            (Some(key), Some(hash)) => Some(hex_text(sha256(hash + key))),
            _ => None,
        },
        None => None,
    }
}

fn member_bytes(object: &Json, key: &str) -> (bytes: Option<Vec<u8>>)
    ensures
        match bytes {
            Some(held) => bytes_member(object@, key@) == Some(held@),
            None => bytes_member(object@, key@) is None,
        },
{
    match object.member(key) {
        Some(value) => decode_signal_bytes(value),
        None => None,
    }
}

fn concatenated(first: Vec<u8>, second: &Vec<u8>) -> (bytes: Vec<u8>)
    ensures
        bytes@ == first@ + second@,
{
    let mut bytes = first;
    let ghost start = bytes@;
    let mut i: usize = 0;
    while i < second.len()
        invariant
            i <= second@.len(),
            bytes@ =~= start + second@.take(i as int),
        decreases second@.len() - i,
    {
        bytes.push(second[i]);
        i = i + 1;
    }
    assert(second@.take(i as int) =~= second@);
    bytes
}

/// The name of the file that holds an attachment, without its extension.
pub fn media_name(pointer: &Json) -> (name: Option<String>)
    ensures
        text::shown(name) == media_name_text(pointer@),
        name matches Some(held) ==> held@.len() == 64,
{
    let locator = match pointer.object_member("locatorInfo") {
        Some(locator) => locator,
        None => {
            return None;
        },
    };
    let key = match member_bytes(locator, "localKey") {
        Some(key) => key,
        None => {
            return None;
        },
    };
    let hash = match member_bytes(locator, "plaintextHash") {
        Some(hash) => hash,
        None => match locator.object_member("integrityCheck") {
            Some(check) => match member_bytes(check, "plaintextHash") {
                Some(hash) => hash,
                None => {
                    return None;
                },
            },
            None => {
                return None;
            },
        },
    };
    let digest = digest_sha256(&concatenated(hash, &key));
    proof {
        reading_hex_undoes_writing(digest@);
    }
    Some(encode_hex(&digest))
}

/// An entry of a media folder holds an attachment: it has the attachment's name,
/// with or without an extension.
pub open spec fn is_media_file(entry: Seq<char>, name: Seq<char>) -> bool {
    entry == name || name.push('.').is_prefix_of(entry)
}

/// Whether an entry of a media folder holds an attachment.
pub fn is_media_entry(entry: &str, name: &str) -> (found: bool)
    ensures
        found == is_media_file(entry@, name@),
{
    let entry_chars = to_chars(entry);
    let name_chars = to_chars(name);
    if entry_chars.len() < name_chars.len() {
        return false;
    }
    let mut i: usize = 0;
    while i < name_chars.len()
        invariant
            entry_chars@ == entry@,
            name_chars@ == name@,
            i <= name@.len() <= entry@.len(),
            forall|j: int| 0 <= j < i ==> entry@[j] == name@[j],
        decreases name@.len() - i,
    {
        if entry_chars[i] != name_chars[i] {
            assert(name@.push('.')[i as int] == name@[i as int]);
            return false;
        }
        i = i + 1;
    }
    if entry_chars.len() == name_chars.len() {
        assert(entry@ =~= name@);
        true
    } else {
        let found = entry_chars[name_chars.len()] == '.';
        let ghost prefix = name@.push('.');
        assert(found ==> prefix =~= entry@.subrange(0, prefix.len() as int));
        assert(prefix[name@.len() as int] == '.');
        assert(entry@.subrange(0, prefix.len() as int)[name@.len() as int]
            == entry@[name@.len() as int]);
        found
    }
}

/// Where the file of an attachment is looked for.
pub struct MediaPlace {
    pub files_root: String,
    pub folder: String,
    pub name: String,
}

/// An entry of a media folder: its name, and whether it is a file, a link not
/// counting as one.
pub struct MediaEntry {
    pub name: String,
    pub is_file: bool,
}

/// The first of some entries that is a file and holds an attachment.
pub open spec fn first_media_file(entries: Seq<MediaEntry>, name: Seq<char>) -> Option<Seq<char>>
    decreases entries.len(),
{
    if entries.len() == 0 {
        None
    } else if entries[0].is_file && is_media_file(entries[0].name@, name) {
        Some(entries[0].name@)
    } else {
        first_media_file(entries.drop_first(), name)
    }
}

/// The file of an attachment, among the entries of the folder in which it is looked
/// for. A folder that a link leads to is not looked into.
pub fn pick_media_file(place: &MediaPlace, behind_link: bool, entries: &Vec<MediaEntry>) -> (file:
    Option<String>)
    ensures
        text::shown(file) == match first_media_file(entries@, place.name@) {
            Some(entry) => if behind_link {
                None
            } else {
                Some(path::joined(place.folder@, entry))
            },
            None => None,
        },
{
    if behind_link {
        return None;
    }
    let mut i: usize = 0;
    assert(entries@.skip(0) =~= entries@);
    while i < entries.len()
        invariant
            i <= entries@.len(),
            !behind_link,
            first_media_file(entries@, place.name@) == first_media_file(
                entries@.skip(i as int),
                place.name@,
            ),
        decreases entries@.len() - i,
    {
        let ghost rest = entries@.skip(i as int);
        assert(rest[0] == entries@[i as int]);
        assert(rest.drop_first() =~= entries@.skip(i as int + 1));
        if entries[i].is_file && is_media_entry(entries[i].name.as_str(), place.name.as_str()) {
            return Some(join_path(place.folder.as_str(), entries[i].name.as_str()));
        }
        i = i + 1;
    }
    None
}

// ---------------------------------------------------------------------------
// File names
// ---------------------------------------------------------------------------

/// The characters that file systems reserve.
pub open spec fn is_reserved(character: char) -> bool {
    character == '/' || character == '\\' || character == ':' || character == '*' || character
        == '?' || character == '"' || character == '<' || character == '>' || character == '|'
}

/// A character that may stand in a file name.
pub open spec fn is_file_char(character: char) -> bool {
    !text::is_control_code(character) && !is_reserved(character)
}

/// The characters of a text that may stand in a file name.
pub open spec fn file_chars(text: Seq<char>) -> Seq<char>
    decreases text.len(),
{
    if text.len() == 0 {
        Seq::empty()
    } else if is_file_char(text.last()) {
        file_chars(text.drop_last()).push(text.last())
    } else {
        file_chars(text.drop_last())
    }
}

pub open spec fn longest_name() -> int {
    120
}

/// A text cut off after `longest_name()` characters.
pub open spec fn cut(text: Seq<char>) -> Seq<char> {
    if text.len() <= longest_name() {
        text
    } else {
        text.take(longest_name())
    }
}

/// The spaces and dots that a file name neither starts nor ends with.
pub open spec fn loose_chars() -> Seq<char> {
    seq![' ', '.']
}

/// The last part of a path made fit to be a file name.
pub open spec fn safe_name(value: Seq<char>) -> Seq<char> {
    let name = match path::file_name(value) {
        Some(name) => name,
        None => "attachment"@,
    };
    let kept = cut(file_chars(name));
    parser::or_else(
        words::trimmed_end(words::trimmed_start(kept, loose_chars()), loose_chars()),
        "attachment"@,
    )
}

fn char_is_reserved(character: char) -> (reserved: bool)
    ensures
        reserved == is_reserved(character),
{
    character == '/' || character == '\\' || character == ':' || character == '*' || character
        == '?' || character == '"' || character == '<' || character == '>' || character == '|'
}

proof fn lemma_file_chars_grow(text: Seq<char>, shorter: int)
    requires
        0 <= shorter <= text.len(),
    ensures
        file_chars(text.take(shorter)).len() <= file_chars(text).len(),
        file_chars(text.take(shorter)) == file_chars(text).take(
            file_chars(text.take(shorter)).len() as int,
        ),
    decreases text.len(),
{
    if shorter == text.len() {
        assert(text.take(shorter) =~= text);
        assert(file_chars(text).take(file_chars(text).len() as int) =~= file_chars(text));
    } else {
        lemma_file_chars_grow(text.drop_last(), shorter);
        assert(text.drop_last().take(shorter) =~= text.take(shorter));
        let kept = file_chars(text.take(shorter)).len() as int;
        assert(file_chars(text).take(kept) =~= file_chars(text.drop_last()).take(kept));
    }
}

/// The last part of a path made fit to be a file name.
pub fn sanitize_file_name(value: &str) -> (name: String)
    ensures
        name@ == safe_name(value@),
{
    let file_name = match find_file_name(value) {
        Some(name) => name,
        None => "attachment".to_owned(),
    };
    let chars = to_chars(file_name.as_str());
    let mut kept: Vec<char> = Vec::new();
    let mut i: usize = 0;
    assert(chars@.take(0).len() == 0);
    while i < chars.len() && kept.len() < 120
        invariant
            i <= chars@.len(),
            kept@ == file_chars(chars@.take(i as int)),
            kept@.len() <= 120,
        decreases chars@.len() - i,
    {
        let character = chars[i];
        assert(chars@.take(i as int + 1).drop_last() =~= chars@.take(i as int));
        if !text::char_is_control(character) && !char_is_reserved(character) {
            kept.push(character);
        }
        i = i + 1;
    }
    proof {
        lemma_file_chars_grow(chars@, i as int);
        if i == chars@.len() {
            assert(chars@.take(i as int) =~= chars@);
        }
        assert(kept@ =~= cut(file_chars(chars@)));
    }
    let mut loose: Vec<char> = Vec::new();
    loose.push(' ');
    loose.push('.');
    assert(loose@ =~= loose_chars());
    let trimmed = trim_both(&kept, &loose);
    if trimmed.len() == 0 {
        "attachment".to_owned()
    } else {
        from_chars(&trimmed)
    }
}

/// A name that stands for one entry of a folder and has nothing odd in it.
pub open spec fn is_plain_name(name: Seq<char>) -> bool {
    &&& 0 < name.len() <= longest_name()
    &&& forall|i: int| 0 <= i < name.len() ==> is_file_char(#[trigger] name[i])
    &&& !loose_chars().contains(name.first())
    &&& !loose_chars().contains(name.last())
}

proof fn lemma_file_chars(text: Seq<char>)
    ensures
        forall|i: int|
            0 <= i < file_chars(text).len() ==> is_file_char(#[trigger] file_chars(text)[i]),
    decreases text.len(),
{
    if text.len() > 0 {
        let rest = file_chars(text.drop_last());
        lemma_file_chars(text.drop_last());
        assert forall|i: int| 0 <= i < file_chars(text).len() implies is_file_char(
            #[trigger] file_chars(text)[i],
        ) by {
            if i < rest.len() {
                assert(file_chars(text)[i] == rest[i]);
            }
        }
    }
}

/// Whatever an attachment is called in the archive, the name of its file is a
/// plain name.
pub proof fn a_safe_name_is_plain(value: Seq<char>)
    ensures
        is_plain_name(safe_name(value)),
{
    let name = match path::file_name(value) {
        Some(name) => name,
        None => "attachment"@,
    };
    let kept = cut(file_chars(name));
    lemma_file_chars(name);
    let started = words::trimmed_start(kept, loose_chars());
    let trimmed = words::trimmed_end(started, loose_chars());
    words::lemma_trimmed_start(kept, loose_chars());
    words::lemma_trimmed_end(started, loose_chars());
    if trimmed.len() == 0 {
        reveal_strlit("attachment");
        assert("attachment"@[0] == 'a');
        assert("attachment"@[9] == 't');
    } else {
        assert forall|i: int| 0 <= i < trimmed.len() implies is_file_char(
            #[trigger] trimmed[i],
        ) by {
            let shift = kept.len() - started.len();
            assert(trimmed[i] == started[i]);
            assert(started[i] == kept[i + shift]);
            assert(kept[i + shift] == file_chars(name)[i + shift]);
        }
        assert(trimmed.first() == started.first());
    }
}

/// A plain name is one component of a path, and neither `.` nor `..`.
pub proof fn a_plain_name_names_an_entry(name: Seq<char>)
    requires
        is_plain_name(name),
    ensures
        !name.contains('/'),
        path::is_name(name),
{
    assert forall|i: int| 0 <= i < name.len() implies #[trigger] name[i] != '/' by {
        assert(is_file_char(name[i]));
    }
    assert(loose_chars()[1] == '.');
    assert(loose_chars().contains('.'));
    assert(name[0] != '.');
    assert(path::dot_dot()[0] == '.');
    assert(path::dot()[0] == '.');
}

proof fn lemma_all_file_chars(text: Seq<char>)
    requires
        forall|i: int| 0 <= i < text.len() ==> is_file_char(#[trigger] text[i]),
    ensures
        file_chars(text) == text,
    decreases text.len(),
{
    if text.len() == 0 {
        assert(file_chars(text) =~= text);
    } else {
        let rest = text.drop_last();
        assert forall|i: int| 0 <= i < rest.len() implies is_file_char(#[trigger] rest[i]) by {
            assert(rest[i] == text[i]);
        }
        lemma_all_file_chars(rest);
        assert(is_file_char(text[text.len() - 1]));
        assert(rest.push(text.last()) =~= text);
    }
}

/// A plain name stays as it is.
pub proof fn a_plain_name_stays(name: Seq<char>)
    requires
        is_plain_name(name),
    ensures
        safe_name(name) == name,
{
    a_plain_name_names_an_entry(name);
    path::lemma_plain_name(name);
    lemma_all_file_chars(name);
}

/// Making a name safe twice gives what once gives.
pub proof fn a_safe_name_stays(value: Seq<char>)
    ensures
        safe_name(safe_name(value)) == safe_name(value),
{
    a_safe_name_is_plain(value);
    a_plain_name_stays(safe_name(value));
}

} // verus!
