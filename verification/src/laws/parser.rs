//! Who the people and the chats of an archive are.

use vstd::prelude::*;

use crate::error::AppError;
use crate::json::{JsonView, NumberView};
use crate::parser;
use crate::text;
use crate::words;

verus! {

// ---------------------------------------------------------------------------
// Ids and numbers
// ---------------------------------------------------------------------------

/// An id is the same whether it is written as text or as a number; an empty text is
/// none, nor is a list, an object or nothing at all.
pub proof fn an_id_is_text_or_number(held: Seq<char>, number: NumberView)
    ensures
        held.len() > 0 ==> parser::id_of(JsonView::Text(held)) == Some(held),
        parser::id_of(JsonView::Text(Seq::empty())) is None,
        parser::id_of(JsonView::Number(number)) == Some(number.text),
        held == number.text && held.len() > 0 ==> parser::id_of(JsonView::Text(held))
            == parser::id_of(JsonView::Number(number)),
        parser::id_of(JsonView::Null) is None,
        parser::id_of(JsonView::Array(Seq::empty())) is None,
        parser::id_of(JsonView::Object(Seq::empty())) is None,
        parser::id_of(JsonView::Bool(true)) == Some("true"@),
        parser::id_of(JsonView::Bool(false)) == Some("false"@),
{
}

/// An id under a key is that of the member with the key.
pub proof fn an_id_is_found_under_its_key(object: JsonView, key: Seq<char>)
    ensures
        object.member(key) is None ==> parser::id_member(object, key) is None,
        object.member(key) matches Some(held) ==> parser::id_member(object, key) == parser::id_of(
            held,
        ),
{
}

/// The time of a message is the number under `dateSent`, as a number or as text in
/// decimal, with or without a sign; a message that does not say was sent at zero.
pub proof fn a_message_says_when_it_was_sent(message: JsonView, sent: nat)
    requires
        sent <= i64::MAX,
    ensures
        message.member("dateSent"@) is None ==> parser::sent_at(message) == Some(0int),
        message.member("dateSent"@) matches Some(JsonView::Number(number)) ==> parser::sent_at(
            message,
        ) == match number.signed {
            Some(held) => Some(held as int),
            None => None,
        },
        message.member("dateSent"@) == Some(JsonView::Text(text::decimal(sent)))
            ==> parser::sent_at(message) == Some(sent as int),
        message.member("dateSent"@) == Some(JsonView::Text(seq!['-'] + text::decimal(sent)))
            ==> parser::sent_at(message) == Some(-(sent as int)),
        message.member("dateSent"@) == Some(JsonView::Text(seq!['+'] + text::decimal(sent)))
            ==> parser::sent_at(message) == Some(sent as int),
        message.member("dateSent"@) == Some(JsonView::Null) ==> parser::sent_at(message) is None,
        message.member("dateSent"@) == Some(JsonView::Text(Seq::empty())) ==> parser::sent_at(
            message,
        ) is None,
{
    lemma_integers(sent);
}

proof fn lemma_integers(number: nat)
    ensures
        number <= i64::MAX ==> text::integer_value(
            text::decimal(number),
            i64::MIN as int,
            i64::MAX as int,
        ) == Some(number as int),
        number <= i64::MAX ==> text::integer_value(
            seq!['-'] + text::decimal(number),
            i64::MIN as int,
            i64::MAX as int,
        ) == Some(-(number as int)),
        number <= i64::MAX ==> text::integer_value(
            seq!['+'] + text::decimal(number),
            i64::MIN as int,
            i64::MAX as int,
        ) == Some(number as int),
        number <= u64::MAX ==> text::natural_value(text::decimal(number), u64::MAX as int) == Some(
            number as int,
        ),
        text::natural_value(seq!['-'] + text::decimal(number), u64::MAX as int) is None,
        number > i64::MAX ==> text::integer_value(
            text::decimal(number),
            i64::MIN as int,
            i64::MAX as int,
        ) is None,
        number > u64::MAX ==> text::natural_value(text::decimal(number), u64::MAX as int) is None,
{
    let digits = text::decimal(number);
    text::reading_undoes_writing(number);
    text::a_value_is_made_of_digits(digits);
    assert(text::is_digit(digits[0]));
    assert((seq!['-'] + digits).skip(1) =~= digits);
    assert((seq!['+'] + digits).skip(1) =~= digits);
}

/// A number is read from text as it is from a number, where it fits.
pub proof fn numbers_are_read_from_text(number: nat)
    ensures
        number <= u64::MAX ==> parser::unsigned_of(JsonView::Text(text::decimal(number))) == Some(
            number as int,
        ),
        number > u64::MAX ==> parser::unsigned_of(JsonView::Text(text::decimal(number))) is None,
        parser::unsigned_of(JsonView::Text(seq!['-'] + text::decimal(number))) is None,
        number <= i64::MAX ==> parser::signed_of(JsonView::Text(text::decimal(number))) == Some(
            number as int,
        ) && parser::signed_of(JsonView::Text(seq!['-'] + text::decimal(number))) == Some(
            -(number as int),
        ),
        number > i64::MAX ==> parser::signed_of(JsonView::Text(text::decimal(number))) is None,
        parser::unsigned_of(JsonView::Null) is None,
        parser::signed_of(JsonView::Null) is None,
{
    lemma_integers(number);
}

/// A message reports a change of the chat where it holds an update, and only then.
pub proof fn updates_report_changes(message: JsonView)
    ensures
        message.object_member("updateMessage"@) is Some ==> parser::is_update(message),
        message.object_member("simpleUpdate"@) is Some ==> parser::is_update(message),
        message.object_member("updateMessage"@) is None && message.object_member("simpleUpdate"@)
            is None ==> !parser::is_update(message),
{
}

// ---------------------------------------------------------------------------
// Names
// ---------------------------------------------------------------------------

/// Text in a record is taken with its spacing tidied, and as it is where it is tidy;
/// a number is taken as it is written, and anything else stands for nothing.
pub proof fn text_in_a_record_is_tidied(object: JsonView, key: Seq<char>)
    ensures
        match object.member(key) {
            Some(JsonView::Text(held)) => {
                &&& parser::clean_member(object, key) == words::single_spaced(held)
                &&& words::is_neat(held) && (held.len() > 0 ==> !text::is_blank(held.last()))
                    ==> parser::clean_member(object, key) == held
            },
            Some(JsonView::Number(number)) => parser::clean_member(object, key) == number.text,
            _ => parser::clean_member(object, key).len() == 0,
        },
{
    if let Some(JsonView::Text(held)) = object.member(key) {
        if words::is_neat(held) {
            words::neat_text_is_single_spaced(held);
        }
    }
}

/// What two members give together as a name: the given name, a space and the family
/// name, or the one of them that there is.
pub open spec fn gives_name(
    object: JsonView,
    given_key: Seq<char>,
    family_key: Seq<char>,
    name: Seq<char>,
) -> bool {
    let given = parser::clean_member(object, given_key);
    let family = parser::clean_member(object, family_key);
    &&& given.len() > 0 && family.len() > 0 ==> name == given + seq![' '] + family
    &&& given.len() > 0 && family.len() == 0 ==> name == given
    &&& given.len() == 0 ==> name == family
}

/// Given and family name stand in this order with a space between; one alone stands
/// alone.
pub proof fn a_name_is_given_and_family(object: JsonView, given: Seq<char>, family: Seq<char>)
    ensures
        gives_name(object, given, family, parser::name_in(object, given, family)),
{
    reveal_strlit(" ");
    assert(" "@ =~= seq![' ']);
}

/// Two members hold something that is no blank.
pub open spec fn has_name(object: JsonView, given: Seq<char>, family: Seq<char>) -> bool {
    parser::clean_member(object, given).len() > 0 || parser::clean_member(object, family).len() > 0
}

/// The nickname that the user gave to a contact.
pub open spec fn has_nickname(contact: JsonView) -> bool {
    contact.object_member("nickname"@) matches Some(held) && has_name(held, "given"@, "family"@)
}

/// A contact with a nickname is called by it, whatever else it is called.
pub proof fn a_nickname_comes_first(contact: JsonView)
    requires
        has_nickname(contact),
    ensures
        gives_name(
            contact.object_member("nickname"@)->0,
            "given"@,
            "family"@,
            parser::contact_name_text(contact),
        ),
        parser::contact_name_text(contact).len() > 0,
{
    reveal_strlit(" ");
    assert(" "@ =~= seq![' ']);
}

/// A contact without a nickname is called by its name in the address book, whatever
/// it calls itself.
pub proof fn the_address_book_comes_next(contact: JsonView)
    requires
        !has_nickname(contact),
        has_name(contact, "systemGivenName"@, "systemFamilyName"@),
    ensures
        gives_name(
            contact,
            "systemGivenName"@,
            "systemFamilyName"@,
            parser::contact_name_text(contact),
        ),
        parser::contact_name_text(contact).len() > 0,
{
    reveal_strlit(" ");
    assert(" "@ =~= seq![' ']);
}

/// A contact that is in no address book is called by its profile.
pub proof fn the_profile_comes_after_the_address_book(contact: JsonView)
    requires
        !has_nickname(contact),
        !has_name(contact, "systemGivenName"@, "systemFamilyName"@),
        has_name(contact, "profileGivenName"@, "profileFamilyName"@),
    ensures
        gives_name(
            contact,
            "profileGivenName"@,
            "profileFamilyName"@,
            parser::contact_name_text(contact),
        ),
        parser::contact_name_text(contact).len() > 0,
{
    reveal_strlit(" ");
    assert(" "@ =~= seq![' ']);
}

/// A contact without a name is called by its nickname in the address book, else by
/// its user name, else by its number; without any of these it has no name.
pub proof fn other_names_come_last(contact: JsonView)
    requires
        !has_nickname(contact),
        !has_name(contact, "systemGivenName"@, "systemFamilyName"@),
        !has_name(contact, "profileGivenName"@, "profileFamilyName"@),
    ensures
        ({
            let name = parser::contact_name_text(contact);
            let nickname = parser::clean_member(contact, "systemNickname"@);
            let user = parser::clean_member(contact, "username"@);
            let number = parser::clean_member(contact, "e164"@);
            &&& nickname.len() > 0 ==> name == nickname
            &&& nickname.len() == 0 && user.len() > 0 ==> name == user
            &&& nickname.len() == 0 && user.len() == 0 ==> name == number
        }),
{
}

// ---------------------------------------------------------------------------
// Recipients
// ---------------------------------------------------------------------------

/// What a record says of a recipient stands in the record itself or under its
/// destination.
pub open spec fn told_of(record: JsonView, details: JsonView) -> bool {
    match record.object_member("destination"@) {
        Some(destination) => details == destination,
        None => details == record,
    }
}

/// A record of a person gives a contact with the person's name, or a name made of
/// its id where it has none.
pub proof fn a_person_is_a_contact(
    id: Seq<char>,
    record: JsonView,
    details: JsonView,
    account_name: Seq<char>,
)
    requires
        told_of(record, details),
        details.object_member("contact"@) is Some,
    ensures
        ({
            let described = parser::recipient_described(id, record, account_name);
            let name = parser::contact_name_text(details.object_member("contact"@)->0);
            &&& described.id == id
            &&& described.kind == "contact"@
            &&& name.len() > 0 ==> described.name == name
            &&& name.len() == 0 ==> described.name == "Unknown contact "@ + id
        }),
{
}

/// A record of a group gives a group with its title, or a name made of its id where
/// it has none.
pub proof fn a_group_has_its_title(
    id: Seq<char>,
    record: JsonView,
    details: JsonView,
    account_name: Seq<char>,
)
    requires
        told_of(record, details),
        details.object_member("contact"@) is None,
        details.object_member("group"@) is Some,
    ensures
        ({
            let described = parser::recipient_described(id, record, account_name);
            let group = details.object_member("group"@)->0;
            &&& described.id == id
            &&& described.kind == "group"@
            &&& match group.object_member("snapshot"@) {
                Some(snapshot) => match snapshot.object_member("title"@) {
                    Some(title) => if parser::clean_member(title, "title"@).len() > 0 {
                        described.name == parser::clean_member(title, "title"@)
                    } else {
                        described.name == "Unnamed group "@ + id
                    },
                    None => described.name == "Unnamed group "@ + id,
                },
                None => described.name == "Unnamed group "@ + id,
            }
        }),
{
}

/// The account itself has the name of the account; Signal's own chat, story lists
/// and what is none of these have names of their own.
pub proof fn other_recipients_have_names(
    id: Seq<char>,
    record: JsonView,
    details: JsonView,
    account_name: Seq<char>,
)
    requires
        told_of(record, details),
        details.object_member("contact"@) is None,
        details.object_member("group"@) is None,
    ensures
        ({
            let described = parser::recipient_described(id, record, account_name);
            &&& described.id == id
            &&& details.has("self"@) ==> described.name == account_name && described.kind
                == "self"@
            &&& !details.has("self"@) && details.has("releaseNotes"@) ==> described.name
                == "Signal"@ && described.kind == "release notes"@
            &&& !details.has("self"@) && !details.has("releaseNotes"@) ==> match details.object_member(
                "distributionList"@,
            ) {
                Some(list) => described.kind == "story list"@ && match list.object_member(
                    "distributionList"@,
                ) {
                    Some(inner) => if parser::clean_member(inner, "name"@).len() > 0 {
                        described.name == parser::clean_member(inner, "name"@)
                    } else {
                        described.name == "Story list "@ + id
                    },
                    None => described.name == "Story list "@ + id,
                },
                None => described.kind == "unknown"@ && described.name == "Unknown recipient "@
                    + id,
            }
        }),
{
}

// ---------------------------------------------------------------------------
// Where the archive is
// ---------------------------------------------------------------------------

/// A folder is an archive where it holds `main.jsonl`; a file is one where its name
/// ends in `.jsonl`; nothing else is.
pub proof fn an_archive_is_a_folder_or_a_file(source: Seq<char>)
    ensures
        parser::located(source, parser::SourceKind::Folder { has_main_jsonl: true }) == Some(
            (crate::path::joined(source, "main.jsonl"@), source),
        ),
        parser::located(source, parser::SourceKind::Folder { has_main_jsonl: false }) is None,
        parser::located(source, parser::SourceKind::Missing) is None,
        parser::located(source, parser::SourceKind::File) is Some == (crate::path::extension(source)
            is Some && text::same_ignoring_case(
            crate::path::extension(source)->0,
            seq!['j', 's', 'o', 'n', 'l'],
        )),
        parser::located(source, parser::SourceKind::File) matches Some((file, root)) ==> file
            == source && match crate::path::parent(source) {
            Some(folder) => root == folder,
            None => root == seq!['.'],
        },
{
    reveal_strlit("jsonl");
    reveal_strlit(".");
    assert("jsonl"@ =~= seq!['j', 's', 'o', 'n', 'l']);
    assert("."@ =~= seq!['.']);
}

/// Where there is no archive, what is wrong is told by what is there.
pub proof fn a_missing_archive_is_told(error: AppError, has_main_jsonl: bool)
    ensures
        parser::is_locate_error(parser::SourceKind::Folder { has_main_jsonl }, error) <==> error
            == AppError::MainJsonlMissing,
        parser::is_locate_error(parser::SourceKind::File, error) <==> error
            == AppError::WrongSourceType,
        parser::is_locate_error(parser::SourceKind::Missing, error) <==> error
            == AppError::SourceNotFound,
{
}

} // verus!
