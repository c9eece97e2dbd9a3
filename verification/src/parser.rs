//! The records of an archive: where it lies, and what each object in it says.

use vstd::prelude::*;

use crate::error::AppError;
use crate::json::{Json, JsonView};
use crate::model::{Recipient, RecipientView};
use crate::path::{self, find_extension, find_parent, join_path};
use crate::text::{self, join2, join3, matches_ignoring_case, parse_i64, parse_u64};
use crate::words::{self, single_space};

verus! {

// ---------------------------------------------------------------------------
// Finding the archive
// ---------------------------------------------------------------------------

/// What the chosen source turned out to be.
#[derive(Debug, Clone, Copy, PartialEq, Eq, Structural)]
pub enum SourceKind {
    /// A folder, with or without a file `main.jsonl` in it.
    Folder { has_main_jsonl: bool },
    File,
    Missing,
}

/// A file whose name ends in `.jsonl`, in any case.
pub open spec fn is_jsonl_file(source: Seq<char>) -> bool {
    path::extension(source) is Some && text::same_ignoring_case(
        path::extension(source)->0,
        "jsonl"@,
    )
}

/// The archive file and the folder it belongs to, where there are such.
pub open spec fn located(source: Seq<char>, kind: SourceKind) -> Option<(Seq<char>, Seq<char>)> {
    match kind {
        SourceKind::Folder { has_main_jsonl: true } => Some(
            (path::joined(source, "main.jsonl"@), source),
        ),
        SourceKind::File => if is_jsonl_file(source) {
            Some(
                (
                    source,
                    match path::parent(source) {
                        Some(folder) => folder,
                        None => "."@,
                    },
                ),
            )
        } else {
            None
        },
        _ => None,
    }
}

/// The error where there is no archive file.
pub open spec fn is_locate_error(kind: SourceKind, error: AppError) -> bool {
    match kind {
        SourceKind::Folder { .. } => error is MainJsonlMissing,
        SourceKind::File => error is WrongSourceType,
        SourceKind::Missing => error is SourceNotFound,
    }
}

/// The archive file and the folder it belongs to.
pub fn locate_main_jsonl(source: &str, kind: SourceKind) -> (result: Result<
    (String, String),
    AppError,
>)
    ensures
        match result {
            Ok((file, root)) => located(source@, kind) == Some((file@, root@)),
            Err(error) => located(source@, kind) is None && is_locate_error(kind, error),
        },
{
    match kind {
        SourceKind::Folder { has_main_jsonl } => if has_main_jsonl {
            Ok((join_path(source, "main.jsonl"), source.to_owned()))
        } else {
            Err(AppError::MainJsonlMissing)
        },
        SourceKind::File => {
            let is_jsonl = match find_extension(source) {
                Some(found) => matches_ignoring_case(found.as_str(), "jsonl"),
                None => false,
            };
            if is_jsonl {
                let root = match find_parent(source) {
                    Some(folder) => folder,
                    None => ".".to_owned(),
                };
                Ok((source.to_owned(), root))
            } else {
                Err(AppError::WrongSourceType)
            }
        },
        SourceKind::Missing => Err(AppError::SourceNotFound),
    }
}

/// Whether the folder of an archive is chosen or the main file in it, the archive is
/// the same file in the same folder.
pub proof fn the_folder_and_its_file_give_the_same(folder: Seq<char>)
    ensures
        ({
            let chosen = located(folder, SourceKind::Folder { has_main_jsonl: true });
            let file = path::joined(folder, "main.jsonl"@);
            let other = located(file, SourceKind::File);
            &&& chosen == Some((file, folder))
            &&& other matches Some((same_file, root)) && same_file == file && path::same_place(
                root,
                folder,
            )
            &&& path::spans(folder).len() > 0 && path::spans(folder).last().1 == folder.len()
                ==> other == chosen
        }),
{
    reveal_strlit("main.jsonl");
    reveal_strlit("jsonl");
    let name = "main.jsonl"@;
    assert(!name.contains('/'));
    path::a_joined_name_stays_inside_its_folder(folder, name);
    path::the_folder_of_a_joined_name(folder, name);
    path::lemma_last_dot(name);
    assert(name[4] == '.');
    assert(path::last_dot(name) == 4);
    assert(name.skip(5) =~= "jsonl"@);
}

// ---------------------------------------------------------------------------
// Scalars
// ---------------------------------------------------------------------------

/// The id that a value stands for: text that is not empty, a number or a truth
/// value as text.
pub open spec fn id_of(value: JsonView) -> Option<Seq<char>> {
    match value {
        JsonView::Text(held) => if held.len() > 0 {
            Some(held)
        } else {
            None
        },
        JsonView::Number(number) => Some(number.text),
        JsonView::Bool(true) => Some("true"@),
        JsonView::Bool(false) => Some("false"@),
        _ => None,
    }
}

/// The id in a member of an object.
pub open spec fn id_member(object: JsonView, key: Seq<char>) -> Option<Seq<char>> {
    match object.member(key) {
        Some(value) => id_of(value),
        None => None,
    }
}

/// The id that a value stands for.
pub fn normalize_id(value: &Json) -> (id: Option<String>)
    ensures
        text::shown(id) == id_of(value@),
{
    match value {
        Json::Text(held) => if held.as_str().is_empty() {
            None
        } else {
            Some(held.clone())
        },
        Json::Number(number) => Some(number.text.clone()),
        Json::Bool(flag) => if *flag {
            Some("true".to_owned())
        } else {
            Some("false".to_owned())
        },
        _ => None,
    }
}

/// The id in a member of an object.
pub fn member_id(object: &Json, key: &str) -> (id: Option<String>)
    ensures
        text::shown(id) == id_member(object@, key@),
{
    match object.member(key) {
        Some(value) => normalize_id(value),
        None => None,
    }
}

/// The signed integer that a value stands for, as a number or as text.
pub open spec fn signed_of(value: JsonView) -> Option<int> {
    match value {
        JsonView::Text(held) => text::integer_value(held, i64::MIN as int, i64::MAX as int),
        JsonView::Number(number) => match number.signed {
            Some(held) => Some(held as int),
            None => None,
        },
        _ => None,
    }
}

/// The signed integer that a value stands for.
pub fn value_as_i64(value: &Json) -> (number: Option<i64>)
    ensures
        match number {
            Some(held) => signed_of(value@) == Some(held as int),
            None => signed_of(value@) is None,
        },
{
    match value {
        Json::Text(held) => parse_i64(held.as_str()),
        Json::Number(number) => number.signed,
        _ => None,
    }
}

/// The natural number that a value stands for, as a number or as text.
pub open spec fn unsigned_of(value: JsonView) -> Option<int> {
    match value {
        JsonView::Text(held) => text::natural_value(held, u64::MAX as int),
        JsonView::Number(number) => match number.unsigned {
            Some(held) => Some(held as int),
            None => None,
        },
        _ => None,
    }
}

/// The natural number that a value stands for.
pub fn value_as_u64(value: &Json) -> (number: Option<u64>)
    ensures
        match number {
            Some(held) => unsigned_of(value@) == Some(held as int),
            None => unsigned_of(value@) is None,
        },
{
    match value {
        Json::Text(held) => parse_u64(held.as_str()),
        Json::Number(number) => number.unsigned,
        _ => None,
    }
}

/// When a message was sent; zero where it does not say.
pub open spec fn sent_at(chat_item: JsonView) -> Option<int> {
    match chat_item.member("dateSent"@) {
        Some(value) => signed_of(value),
        None => Some(0),
    }
}

/// When a message was sent, in milliseconds; zero where it does not say.
pub fn chat_item_timestamp_ms(chat_item: &Json) -> (timestamp_ms: Option<i64>)
    ensures
        match timestamp_ms {
            Some(milliseconds) => sent_at(chat_item@) == Some(milliseconds as int),
            None => sent_at(chat_item@) is None,
        },
{
    match chat_item.member("dateSent") {
        Some(value) => value_as_i64(value),
        None => Some(0),
    }
}

/// A message that only reports a change of the chat itself.
pub open spec fn is_update(chat_item: JsonView) -> bool {
    chat_item.object_member("updateMessage"@) is Some || chat_item.object_member(
        "simpleUpdate"@,
    ) is Some
}

/// Whether a message only reports a change of the chat itself.
pub fn is_technical_update(chat_item: &Json) -> (update: bool)
    ensures
        update == is_update(chat_item@),
{
    chat_item.object_member("updateMessage").is_some() || chat_item.object_member(
        "simpleUpdate",
    ).is_some()
}

// ---------------------------------------------------------------------------
// Names
// ---------------------------------------------------------------------------

/// The text of a member with its spacing tidied; empty where there is none.
pub open spec fn clean_member(object: JsonView, key: Seq<char>) -> Seq<char> {
    match object.member(key) {
        Some(JsonView::Text(held)) => words::single_spaced(held),
        Some(JsonView::Number(number)) => number.text,
        _ => Seq::empty(),
    }
}

/// Given and family name, as far as they are there.
pub open spec fn full_name(given: Seq<char>, family: Seq<char>) -> Seq<char> {
    if given.len() == 0 {
        family
    } else if family.len() == 0 {
        given
    } else {
        given + " "@ + family
    }
}

/// The name in two members of an object.
pub open spec fn name_in(object: JsonView, given: Seq<char>, family: Seq<char>) -> Seq<char> {
    full_name(clean_member(object, given), clean_member(object, family))
}

/// `preferred`, unless it is empty.
pub open spec fn or_else(preferred: Seq<char>, otherwise: Seq<char>) -> Seq<char> {
    if preferred.len() > 0 {
        preferred
    } else {
        otherwise
    }
}

/// The name of a contact: the nickname given to it, its name in the address book,
/// its name in its profile, its nickname in the address book, its user name, its
/// number; the first that is not empty.
pub open spec fn contact_name_text(contact: JsonView) -> Seq<char> {
    let nickname = match contact.object_member("nickname"@) {
        Some(held) => name_in(held, "given"@, "family"@),
        None => Seq::empty(),
    };
    or_else(
        nickname,
        or_else(
            name_in(contact, "systemGivenName"@, "systemFamilyName"@),
            or_else(
                name_in(contact, "profileGivenName"@, "profileFamilyName"@),
                or_else(
                    clean_member(contact, "systemNickname"@),
                    or_else(
                        clean_member(contact, "username"@),
                        clean_member(contact, "e164"@),
                    ),
                ),
            ),
        ),
    )
}

/// The text of a member with its spacing tidied; empty where there is none.
pub fn clean_text(object: &Json, key: &str) -> (cleaned: String)
    ensures
        cleaned@ == clean_member(object@, key@),
{
    match object.member(key) {
        Some(Json::Text(held)) => single_space(held.as_str()),
        Some(Json::Number(number)) => number.text.clone(),
        _ => String::new(),
    }
}

/// The name in two members of an object.
pub fn joined_name(object: &Json, given: &str, family: &str) -> (name: String)
    ensures
        name@ == name_in(object@, given@, family@),
{
    let first = clean_text(object, given);
    let last = clean_text(object, family);
    if first.as_str().is_empty() {
        last
    } else if last.as_str().is_empty() {
        first
    } else {
        join3(first.as_str(), " ", last.as_str())
    }
}

/// The name of a contact; empty where it has none.
pub fn contact_name(contact: &Json) -> (name: String)
    ensures
        name@ == contact_name_text(contact@),
{
    if let Some(nickname) = contact.object_member("nickname") {
        let name = joined_name(nickname, "given", "family");
        if !name.as_str().is_empty() {
            return name;
        }
    }
    let system = joined_name(contact, "systemGivenName", "systemFamilyName");
    if !system.as_str().is_empty() {
        return system;
    }
    let profile = joined_name(contact, "profileGivenName", "profileFamilyName");
    if !profile.as_str().is_empty() {
        return profile;
    }
    let nickname = clean_text(contact, "systemNickname");
    if !nickname.as_str().is_empty() {
        return nickname;
    }
    let username = clean_text(contact, "username");
    if !username.as_str().is_empty() {
        return username;
    }
    clean_text(contact, "e164")
}

/// The title of a group; empty where it has none.
pub open spec fn group_title(group: JsonView) -> Seq<char> {
    match group.object_member("snapshot"@) {
        Some(snapshot) => match snapshot.object_member("title"@) {
            Some(title) => clean_member(title, "title"@),
            None => Seq::empty(),
        },
        None => Seq::empty(),
    }
}

/// The name of a story list; empty where it has none.
pub open spec fn story_list_name(list: JsonView) -> Seq<char> {
    match list.object_member("distributionList"@) {
        Some(details) => clean_member(details, "name"@),
        None => Seq::empty(),
    }
}

/// The recipient that a record of the archive describes.
pub open spec fn recipient_described(
    id: Seq<char>,
    record: JsonView,
    account_name: Seq<char>,
) -> RecipientView {
    let details = match record.object_member("destination"@) {
        Some(destination) => destination,
        None => record,
    };
    if details.object_member("contact"@) is Some {
        let contact = details.object_member("contact"@)->0;
        RecipientView {
            id,
            name: or_else(contact_name_text(contact), "Unknown contact "@ + id),
            kind: "contact"@,
        }
    } else if details.object_member("group"@) is Some {
        let group = details.object_member("group"@)->0;
        RecipientView {
            id,
            name: or_else(group_title(group), "Unnamed group "@ + id),
            kind: "group"@,
        }
    } else if details.has("self"@) {
        RecipientView { id, name: account_name, kind: "self"@ }
    } else if details.has("releaseNotes"@) {
        RecipientView { id, name: "Signal"@, kind: "release notes"@ }
    } else if details.object_member("distributionList"@) is Some {
        let list = details.object_member("distributionList"@)->0;
        RecipientView {
            id,
            name: or_else(story_list_name(list), "Story list "@ + id),
            kind: "story list"@,
        }
    } else {
        RecipientView { id, name: "Unknown recipient "@ + id, kind: "unknown"@ }
    }
}

fn named_or(name: String, fallback: &str, id: &str) -> (chosen: String)
    ensures
        chosen@ == or_else(name@, fallback@ + id@),
{
    if name.as_str().is_empty() {
        join2(fallback, id)
    } else {
        name
    }
}

/// The recipient that a record of the archive describes.
pub fn recipient_from_raw(recipient_id: &str, raw: &Json, account_name: &str) -> (recipient:
    Recipient)
    ensures
        recipient@ == recipient_described(recipient_id@, raw@, account_name@),
{
    let details = match raw.object_member("destination") {
        Some(destination) => destination,
        None => raw,
    };
    if let Some(contact) = details.object_member("contact") {
        return Recipient {
            id: recipient_id.to_owned(),
            name: named_or(contact_name(contact), "Unknown contact ", recipient_id),
            kind: "contact".to_owned(),
        };
    }
    if let Some(group) = details.object_member("group") {
        let title = match group.object_member("snapshot") {
            Some(snapshot) => match snapshot.object_member("title") {
                Some(title) => clean_text(title, "title"),
                None => String::new(),
            },
            None => String::new(),
        };
        return Recipient {
            id: recipient_id.to_owned(),
            name: named_or(title, "Unnamed group ", recipient_id),
            kind: "group".to_owned(),
        };
    }
    if details.has("self") {
        return Recipient {
            id: recipient_id.to_owned(),
            name: account_name.to_owned(),
            kind: "self".to_owned(),
        };
    }
    if details.has("releaseNotes") {
        return Recipient {
            id: recipient_id.to_owned(),
            name: "Signal".to_owned(),
            kind: "release notes".to_owned(),
        };
    }
    if let Some(list) = details.object_member("distributionList") {
        let name = match list.object_member("distributionList") {
            Some(held) => clean_text(held, "name"),
            None => String::new(),
        };
        return Recipient {
            id: recipient_id.to_owned(),
            name: named_or(name, "Story list ", recipient_id),
            kind: "story list".to_owned(),
        };
    }
    Recipient {
        id: recipient_id.to_owned(),
        name: join2("Unknown recipient ", recipient_id),
        kind: "unknown".to_owned(),
    }
}

} // verus!
