//! What a message holds: its attachments, its kind and text, and the data that an
//! export passes on.

use vstd::prelude::*;

use crate::json::{JsonView, MemberView};
use crate::laws::json::a_further_member_hides_none;
use crate::message;
use crate::payload;
use crate::text;
use crate::words;

verus! {

// ---------------------------------------------------------------------------
// Attachments
// ---------------------------------------------------------------------------

/// An object describes a file: it says where the file is, and its type, its name,
/// its caption or its size.
pub open spec fn describes_a_file(value: JsonView) -> bool {
    &&& value.has("locatorInfo"@)
    &&& {
        ||| value.has("contentType"@)
        ||| value.has("fileName"@)
        ||| value.has("caption"@)
        ||| value.has("width"@)
        ||| value.has("height"@)
    }
}

/// An object that describes a file is its only pointer: where it says where the
/// file is, any one of the other members is enough.
pub proof fn a_described_file_is_found(value: JsonView)
    requires
        value.has("locatorInfo"@),
        value.has("contentType"@) || value.has("fileName"@) || value.has("caption"@) || value.has(
            "width"@,
        ) || value.has("height"@),
    ensures
        payload::file_pointers(value) == seq![value],
{
}

/// An object that says nothing of a file but where it is, or does not say even
/// that, is no pointer.
pub proof fn nothing_else_is_a_file(value: JsonView)
    requires
        !describes_a_file(value),
    ensures
        !payload::file_pointers(value).contains(value),
{
    every_pointer_describes_a_file(value);
    let all = payload::file_pointers(value);
    if all.contains(value) {
        let k = choose|k: int| 0 <= k < all.len() && all[k] == value;
        assert(describes_a_file(all[k]));
    }
}

/// Whatever is found in a value describes a file.
pub proof fn every_pointer_describes_a_file(value: JsonView)
    ensures
        forall|k: int|
            0 <= k < payload::file_pointers(value).len() ==> describes_a_file(
                #[trigger] payload::file_pointers(value)[k],
            ),
    decreases value,
{
    if describes_a_file(value) {
        assert(payload::file_pointers(value) == seq![value]);
    } else {
        match value {
            JsonView::Object(members) => {
                lemma_members_describe(members);
                assert(payload::file_pointers(value) == payload::member_pointers(members));
            },
            _ => {
                assert(payload::file_pointers(value) == Seq::<JsonView>::empty());
            },
        }
    }
}

proof fn lemma_members_describe(members: Seq<MemberView>)
    ensures
        forall|k: int|
            0 <= k < payload::member_pointers(members).len() ==> describes_a_file(
                #[trigger] payload::member_pointers(members)[k],
            ),
    decreases members,
{
    if members.len() > 0 {
        lemma_members_describe(members.drop_last());
        assert(decreases_to!(members => members.last()));
        assert(decreases_to!(members.last() => members.last().value));
        let before = payload::member_pointers(members.drop_last());
        let last = match members.last().value {
            JsonView::Object(_) => payload::file_pointers(members.last().value),
            JsonView::Array(items) => payload::item_pointers(items),
            _ => Seq::empty(),
        };
        match members.last().value {
            JsonView::Object(_) => every_pointer_describes_a_file(members.last().value),
            JsonView::Array(items) => lemma_items_describe(items),
            _ => {},
        }
        let all = payload::member_pointers(members);
        assert(all == before + last);
        assert forall|k: int| 0 <= k < all.len() implies describes_a_file(#[trigger] all[k]) by {
            if k < before.len() {
                assert(all[k] == before[k]);
            } else {
                assert(all[k] == last[k - before.len()]);
            }
        }
    }
}

proof fn lemma_items_describe(items: Seq<JsonView>)
    ensures
        forall|k: int|
            0 <= k < payload::item_pointers(items).len() ==> describes_a_file(
                #[trigger] payload::item_pointers(items)[k],
            ),
    decreases items,
{
    if items.len() > 0 {
        lemma_items_describe(items.drop_last());
        let before = payload::item_pointers(items.drop_last());
        let last = match items.last() {
            JsonView::Object(_) => payload::file_pointers(items.last()),
            _ => Seq::empty(),
        };
        if items.last() is Object {
            every_pointer_describes_a_file(items.last());
        }
        let all = payload::item_pointers(items);
        assert(all == before + last);
        assert forall|k: int| 0 <= k < all.len() implies describes_a_file(#[trigger] all[k]) by {
            if k < before.len() {
                assert(all[k] == before[k]);
            } else {
                assert(all[k] == last[k - before.len()]);
            }
        }
    }
}

/// The files described in the objects of a list, one object after the other.
pub open spec fn files_in(items: Seq<JsonView>) -> Seq<JsonView>
    decreases items.len(),
{
    if items.len() == 0 {
        Seq::empty()
    } else if items.last() is Object {
        files_in(items.drop_last()) + payload::file_pointers(items.last())
    } else {
        files_in(items.drop_last())
    }
}

proof fn lemma_items(items: Seq<JsonView>)
    ensures
        payload::item_pointers(items) == files_in(items),
    decreases items.len(),
{
    if items.len() > 0 {
        lemma_items(items.drop_last());
        assert(payload::item_pointers(items) =~= files_in(items));
    }
}

/// No file is lost and none is found twice: one more member of an object that is
/// no pointer adds the files that are described in it, after those of the members
/// before it, whether it is an object or a list of objects.
pub proof fn a_member_adds_its_files(members: Seq<MemberView>, further: MemberView)
    requires
        !describes_a_file(JsonView::Object(members.push(further))),
    ensures
        payload::file_pointers(JsonView::Object(members.push(further))) == payload::file_pointers(
            JsonView::Object(members),
        ) + match further.value {
            JsonView::Object(_) => payload::file_pointers(further.value),
            JsonView::Array(items) => files_in(items),
            _ => Seq::empty(),
        },
        payload::file_pointers(JsonView::Object(Seq::empty())) == Seq::<JsonView>::empty(),
{
    let all = members.push(further);
    a_further_member_hides_none(members, further, "locatorInfo"@);
    a_further_member_hides_none(members, further, "contentType"@);
    a_further_member_hides_none(members, further, "fileName"@);
    a_further_member_hides_none(members, further, "caption"@);
    a_further_member_hides_none(members, further, "width"@);
    a_further_member_hides_none(members, further, "height"@);
    assert(all.drop_last() =~= members);
    assert(all.last() == further);
    if let JsonView::Array(items) = further.value {
        lemma_items(items);
    }
}

/// The attachments of a message are the files that are described in its payload;
/// a message without a payload has none.
pub proof fn a_message_has_the_files_of_its_payload(message: JsonView)
    ensures
        match payload::payload_of(message) {
            Some(held) => message::pointers_of(message) == payload::file_pointers(held),
            None => message::pointers_of(message).len() == 0,
        },
        message.object_member("standardMessage"@) matches Some(held) ==> message::pointers_of(
            message,
        ) == payload::file_pointers(held),
{
    assert(payload::item_keys()[0] == "standardMessage"@);
}

// ---------------------------------------------------------------------------
// Kind and text
// ---------------------------------------------------------------------------

/// A message holds nothing under the keys that are tried before some key.
pub open spec fn none_before(message: JsonView, place: int) -> bool {
    &&& place > 0 ==> message.object_member("standardMessage"@) is None
    &&& place > 1 ==> message.object_member("contactMessage"@) is None
    &&& place > 2 ==> message.object_member("stickerMessage"@) is None
    &&& place > 3 ==> message.object_member("remoteDeletedMessage"@) is None
    &&& place > 4 ==> message.object_member("updateMessage"@) is None
    &&& place > 5 ==> message.object_member("paymentNotification"@) is None
    &&& place > 6 ==> message.object_member("giftBadge"@) is None
    &&& place > 7 ==> message.object_member("viewOnceMessage"@) is None
    &&& place > 8 ==> message.object_member("directStoryReplyMessage"@) is None
    &&& place > 9 ==> message.object_member("poll"@) is None
}

/// The text that a record of a message tells, where no file holds a longer one.
pub open spec fn told_text(message: JsonView) -> Option<Seq<char>> {
    payload::text_of(payload::kind_of(message), payload::payload_of(message))
}

/// A written message is told by its own words, and is a standard message; where it
/// has no words, nothing is told in their place.
pub proof fn a_written_message_tells_its_words(message: JsonView)
    requires
        message.object_member("standardMessage"@) is Some,
    ensures
        payload::payload_of(message) == message.object_member("standardMessage"@),
        payload::kind_of(message) == "Standard message"@,
        ({
            let held = message.object_member("standardMessage"@)->0;
            match held.object_member("text"@) {
                Some(words) => told_text(message) == words.text_member("body"@),
                None => told_text(message) is None,
            }
        }),
{
    assert(payload::item_keys()[0] == "standardMessage"@);
    payload::a_message_is_told_by_its_payload(message);
}

proof fn lemma_payload_at(message: JsonView, keys: Seq<Seq<char>>, place: int)
    requires
        0 <= place < keys.len(),
        message.object_member(keys[place]) is Some,
        forall|i: int| 0 <= i < place ==> message.object_member(#[trigger] keys[i]) is None,
    ensures
        payload::payload_among(message, keys) == Some(
            (keys[place], message.object_member(keys[place])->0),
        ),
    decreases keys.len(),
{
    if place > 0 {
        assert(message.object_member(keys[0]) is None);
        let rest = keys.drop_first();
        assert forall|i: int| 0 <= i < place - 1 implies message.object_member(
            #[trigger] rest[i],
        ) is None by {
            assert(rest[i] == keys[i + 1]);
        }
        lemma_payload_at(message, rest, place - 1);
    }
}

proof fn lemma_payload_none(message: JsonView, keys: Seq<Seq<char>>)
    requires
        forall|i: int| 0 <= i < keys.len() ==> message.object_member(#[trigger] keys[i]) is None,
    ensures
        payload::payload_among(message, keys) is None,
    decreases keys.len(),
{
    if keys.len() > 0 {
        let rest = keys.drop_first();
        assert forall|i: int| 0 <= i < rest.len() implies message.object_member(
            #[trigger] rest[i],
        ) is None by {
            assert(rest[i] == keys[i + 1]);
        }
        assert(message.object_member(keys[0]) is None);
        lemma_payload_none(message, rest);
    }
}

proof fn lemma_keys_differ()
    ensures
        "contactMessage"@ != "standardMessage"@,
        "stickerMessage"@ != "standardMessage"@,
        "stickerMessage"@ != "contactMessage"@,
        "remoteDeletedMessage"@.len() == 20,
        "updateMessage"@.len() == 13,
        "paymentNotification"@.len() == 19,
        "giftBadge"@.len() == 9,
        "viewOnceMessage"@ != "standardMessage"@,
        "directStoryReplyMessage"@.len() == 23,
        "poll"@.len() == 4,
        "standardMessage"@.len() == 15,
        "contactMessage"@.len() == 14,
        "stickerMessage"@.len() == 14,
        "viewOnceMessage"@.len() == 15,
{
    reveal_strlit("standardMessage");
    reveal_strlit("contactMessage");
    reveal_strlit("stickerMessage");
    reveal_strlit("remoteDeletedMessage");
    reveal_strlit("updateMessage");
    reveal_strlit("paymentNotification");
    reveal_strlit("giftBadge");
    reveal_strlit("viewOnceMessage");
    reveal_strlit("directStoryReplyMessage");
    reveal_strlit("poll");
    assert("contactMessage"@[0] != "stickerMessage"@[0]);
    assert("standardMessage"@[0] != "viewOnceMessage"@[0]);
    assert("standardMessage"@.len() != "stickerMessage"@.len());
}

/// Every message is told by what it holds: each kind of message has its own name,
/// and those without words of their own have a note in brackets. Of several
/// payloads the first in this order counts.
pub proof fn every_kind_of_message_is_told(message: JsonView)
    ensures
        none_before(message, 1) && message.object_member("contactMessage"@) is Some
            ==> payload::kind_of(message) == "Contact message"@ && told_text(message) == Some(
            "[Shared contact]"@,
        ) && payload::payload_of(message) == message.object_member("contactMessage"@),
        none_before(message, 2) && message.object_member("stickerMessage"@) is Some
            ==> payload::kind_of(message) == "Sticker message"@ && payload::payload_of(message)
            == message.object_member("stickerMessage"@),
        none_before(message, 3) && message.object_member("remoteDeletedMessage"@) is Some
            ==> payload::kind_of(message) == "Remote deleted message"@ && told_text(message)
            == Some("[Message deleted]"@) && payload::payload_of(message)
            == message.object_member("remoteDeletedMessage"@),
        none_before(message, 4) && message.object_member("updateMessage"@) is Some
            ==> payload::kind_of(message) == "Update message"@ && payload::payload_of(message)
            == message.object_member("updateMessage"@),
        none_before(message, 5) && message.object_member("paymentNotification"@) is Some
            ==> payload::kind_of(message) == "Payment notification"@ && told_text(message) == Some(
            "[Payment notification]"@,
        ) && payload::payload_of(message) == message.object_member("paymentNotification"@),
        none_before(message, 6) && message.object_member("giftBadge"@) is Some
            ==> payload::kind_of(message) == "Gift badge"@ && told_text(message) == Some(
            "[Gift badge]"@,
        ) && payload::payload_of(message) == message.object_member("giftBadge"@),
        none_before(message, 7) && message.object_member("viewOnceMessage"@) is Some
            ==> payload::kind_of(message) == "View once message"@ && told_text(message) == Some(
            "[View-once message]"@,
        ) && payload::payload_of(message) == message.object_member("viewOnceMessage"@),
        none_before(message, 8) && message.object_member("directStoryReplyMessage"@) is Some
            ==> payload::kind_of(message) == "Direct story reply message"@ && payload::payload_of(
            message,
        ) == message.object_member("directStoryReplyMessage"@),
        none_before(message, 9) && message.object_member("poll"@) is Some ==> payload::kind_of(
            message,
        ) == "Poll"@ && told_text(message) == Some("[Poll]"@) && payload::payload_of(message)
            == message.object_member("poll"@),
        none_before(message, 10) ==> payload::kind_of(message) == "Unknown message"@ && told_text(
            message,
        ) is None && payload::payload_of(message) is None,
{
    let keys = payload::item_keys();
    payload::a_message_is_told_by_its_payload(message);
    lemma_keys_differ();
    if none_before(message, 1) && message.object_member("contactMessage"@) is Some {
        lemma_payload_at(message, keys, 1);
    }
    if none_before(message, 2) && message.object_member("stickerMessage"@) is Some {
        lemma_payload_at(message, keys, 2);
    }
    if none_before(message, 3) && message.object_member("remoteDeletedMessage"@) is Some {
        lemma_payload_at(message, keys, 3);
    }
    if none_before(message, 4) && message.object_member("updateMessage"@) is Some {
        lemma_payload_at(message, keys, 4);
    }
    if none_before(message, 5) && message.object_member("paymentNotification"@) is Some {
        lemma_payload_at(message, keys, 5);
    }
    if none_before(message, 6) && message.object_member("giftBadge"@) is Some {
        lemma_payload_at(message, keys, 6);
    }
    if none_before(message, 7) && message.object_member("viewOnceMessage"@) is Some {
        lemma_payload_at(message, keys, 7);
    }
    if none_before(message, 8) && message.object_member("directStoryReplyMessage"@) is Some {
        lemma_payload_at(message, keys, 8);
    }
    if none_before(message, 9) && message.object_member("poll"@) is Some {
        lemma_payload_at(message, keys, 9);
    }
    if none_before(message, 10) {
        lemma_payload_none(message, keys);
    }
}

/// A sticker, an update and a reply to a story are told by what they hold: the
/// emoji of the sticker, the update in words, the emoji or the words of the reply.
pub proof fn stickers_updates_and_replies_tell_what_they_hold(message: JsonView)
    ensures
        none_before(message, 2) ==> (message.object_member("stickerMessage"@) matches Some(held)
            ==> match held.object_member("sticker"@) {
            Some(sticker) => match sticker.text_member("emoji"@) {
                Some(emoji) => told_text(message) == Some("[Sticker "@ + emoji + "]"@),
                None => told_text(message) == Some("[Sticker "@ + "sticker"@ + "]"@),
            },
            None => told_text(message) == Some("[Sticker "@ + "sticker"@ + "]"@),
        }),
        none_before(message, 4) ==> (message.object_member("updateMessage"@) matches Some(held)
            ==> match held.object_member("simpleUpdate"@) {
            Some(update) => match update.text_member("type"@) {
                Some(kind) => told_text(message) == Some(
                    "["@ + payload::humanized(kind) + "]"@,
                ),
                None => told_text(message) == Some("["@ + "Chat update"@ + "]"@),
            },
            None => told_text(message) == Some("["@ + "Chat update"@ + "]"@),
        }),
        none_before(message, 8) ==> (message.object_member("directStoryReplyMessage"@) matches Some(
            held,
        ) ==> match held.text_member("emoji"@) {
            Some(emoji) => told_text(message) == Some("Story reply: "@ + emoji),
            None => match held.object_member("textReply"@) {
                Some(reply) => match reply.object_member("text"@) {
                    Some(words) => told_text(message) == words.text_member("body"@),
                    None => told_text(message) is None,
                },
                None => told_text(message) is None,
            },
        }),
{
    let keys = payload::item_keys();
    payload::a_message_is_told_by_its_payload(message);
    lemma_keys_differ();
    if none_before(message, 2) && message.object_member("stickerMessage"@) is Some {
        lemma_payload_at(message, keys, 2);
    }
    if none_before(message, 4) && message.object_member("updateMessage"@) is Some {
        lemma_payload_at(message, keys, 4);
    }
    if none_before(message, 8) && message.object_member("directStoryReplyMessage"@) is Some {
        lemma_payload_at(message, keys, 8);
    }
}

// ---------------------------------------------------------------------------
// The data that an export passes on
// ---------------------------------------------------------------------------

/// A key occurs in a value, at any depth.
pub open spec fn key_occurs(value: JsonView, key: Seq<char>) -> bool
    decreases value,
{
    match value {
        JsonView::Object(members) => key_occurs_in_members(members, key),
        JsonView::Array(items) => key_occurs_in_items(items, key),
        _ => false,
    }
}

pub open spec fn key_occurs_in_members(members: Seq<MemberView>, key: Seq<char>) -> bool
    decreases members,
{
    if members.len() == 0 {
        false
    } else {
        proof {
            assert(decreases_to!(members => members.last()));
            assert(decreases_to!(members.last() => members.last().value));
        }
        members.last().key == key || key_occurs(members.last().value, key)
            || key_occurs_in_members(members.drop_last(), key)
    }
}

pub open spec fn key_occurs_in_items(items: Seq<JsonView>, key: Seq<char>) -> bool
    decreases items,
{
    if items.len() == 0 {
        false
    } else {
        key_occurs(items.last(), key) || key_occurs_in_items(items.drop_last(), key)
    }
}

/// One of the keys that tell how to find and open a file in the archive.
pub open spec fn opens_the_archive(key: Seq<char>) -> bool {
    key == "locatorInfo"@ || key == "incrementalMac"@ || key == "incrementalMacChunkSize"@
}

proof fn lemma_sanitized(value: JsonView, key: Seq<char>)
    ensures
        opens_the_archive(key) ==> !key_occurs(payload::sanitized(value), key),
        (forall|secret: Seq<char>| #[trigger]
            opens_the_archive(secret) ==> !key_occurs(value, secret)) ==> payload::sanitized(value)
            == value,
    decreases value,
{
    match value {
        JsonView::Object(members) => lemma_sanitized_members(members, key),
        JsonView::Array(items) => lemma_sanitized_items(items, key),
        _ => {},
    }
    if forall|secret: Seq<char>| #[trigger]
        opens_the_archive(secret) ==> !key_occurs(value, secret) {
        match value {
            JsonView::Object(members) => {
                assert forall|secret: Seq<char>| #[trigger] opens_the_archive(secret) implies
                    !key_occurs_in_members(members, secret) by {
                    assert(!key_occurs(value, secret));
                }
            },
            JsonView::Array(items) => {
                assert forall|secret: Seq<char>| #[trigger] opens_the_archive(secret) implies
                    !key_occurs_in_items(items, secret) by {
                    assert(!key_occurs(value, secret));
                }
            },
            _ => {},
        }
    }
}

proof fn lemma_sanitized_members(members: Seq<MemberView>, key: Seq<char>)
    ensures
        opens_the_archive(key) ==> !key_occurs_in_members(
            payload::sanitized_members(members),
            key,
        ),
        (forall|secret: Seq<char>| #[trigger]
            opens_the_archive(secret) ==> !key_occurs_in_members(members, secret))
            ==> payload::sanitized_members(members) == members,
    decreases members,
{
    let clean = payload::sanitized_members(members);
    if members.len() > 0 {
        let rest = members.drop_last();
        assert(decreases_to!(members => members.last()));
        assert(decreases_to!(members.last() => members.last().value));
        lemma_sanitized_members(rest, key);
        lemma_sanitized(members.last().value, key);
        if clean.len() > payload::sanitized_members(rest).len() {
            assert(clean.drop_last() =~= payload::sanitized_members(rest));
        }
        if forall|secret: Seq<char>| #[trigger]
            opens_the_archive(secret) ==> !key_occurs_in_members(members, secret) {
            assert forall|secret: Seq<char>| #[trigger] opens_the_archive(secret) implies
                !key_occurs_in_members(rest, secret) && !key_occurs(members.last().value, secret)
                && members.last().key != secret by {
                assert(!key_occurs_in_members(members, secret));
            }
            assert(!opens_the_archive(members.last().key));
            assert(clean =~= members);
        }
    } else {
        assert(clean =~= members);
    }
}

proof fn lemma_sanitized_items(items: Seq<JsonView>, key: Seq<char>)
    ensures
        opens_the_archive(key) ==> !key_occurs_in_items(payload::sanitized_items(items), key),
        (forall|secret: Seq<char>| #[trigger]
            opens_the_archive(secret) ==> !key_occurs_in_items(items, secret))
            ==> payload::sanitized_items(items) == items,
    decreases items,
{
    let clean = payload::sanitized_items(items);
    if items.len() > 0 {
        let rest = items.drop_last();
        lemma_sanitized_items(rest, key);
        lemma_sanitized(items.last(), key);
        assert(clean.drop_last() =~= payload::sanitized_items(rest));
        if forall|secret: Seq<char>| #[trigger]
            opens_the_archive(secret) ==> !key_occurs_in_items(items, secret) {
            assert forall|secret: Seq<char>| #[trigger] opens_the_archive(secret) implies
                !key_occurs_in_items(rest, secret) && !key_occurs(items.last(), secret) by {
                assert(!key_occurs_in_items(items, secret));
            }
            assert(clean =~= items);
        }
    } else {
        assert(clean =~= items);
    }
}

/// Nothing that opens the archive leaves it, at any depth; and where there is
/// nothing of the kind, the data stay as they are.
pub proof fn what_opens_the_archive_stays_in_it(value: JsonView)
    ensures
        !key_occurs(payload::sanitized(value), "locatorInfo"@),
        !key_occurs(payload::sanitized(value), "incrementalMac"@),
        !key_occurs(payload::sanitized(value), "incrementalMacChunkSize"@),
        !key_occurs(value, "locatorInfo"@) && !key_occurs(value, "incrementalMac"@)
            && !key_occurs(value, "incrementalMacChunkSize"@) ==> payload::sanitized(value)
            == value,
{
    lemma_sanitized(value, "locatorInfo"@);
    lemma_sanitized(value, "incrementalMac"@);
    lemma_sanitized(value, "incrementalMacChunkSize"@);
}

proof fn lemma_kept_members(members: Seq<MemberView>, key: Seq<char>)
    requires
        !opens_the_archive(key),
    ensures
        JsonView::Object(payload::sanitized_members(members)).member(key) == match JsonView::Object(
            members,
        ).member(key) {
            Some(held) => Some(payload::sanitized(held)),
            None => None,
        },
    decreases members.len(),
{
    if members.len() > 0 {
        let rest = members.drop_last();
        let last = members.last();
        lemma_kept_members(rest, key);
        assert(members =~= rest.push(last));
        a_further_member_hides_none(rest, last, key);
        a_further_member_hides_none(
            payload::sanitized_members(rest),
            MemberView { key: last.key, value: payload::sanitized(last.value) },
            key,
        );
    }
}

/// What does not open the archive is passed on: every other member of an object is
/// still there, every item of a list, and what is neither stays as it is.
pub proof fn everything_else_is_passed_on(value: JsonView, key: Seq<char>)
    requires
        key != "locatorInfo"@,
        key != "incrementalMac"@,
        key != "incrementalMacChunkSize"@,
    ensures
        value is Object ==> payload::sanitized(value).member(key) == match value.member(key) {
            Some(held) => Some(payload::sanitized(held)),
            None => None,
        },
        value matches JsonView::Array(items) ==> (payload::sanitized(value) matches JsonView::Array(
            passed,
        ) && passed.len() == items.len() && forall|i: int|
            0 <= i < items.len() ==> #[trigger] passed[i] == payload::sanitized(items[i])),
        !(value is Object) && !(value is Array) ==> payload::sanitized(value) == value,
{
    match value {
        JsonView::Object(members) => lemma_kept_members(members, key),
        JsonView::Array(items) => lemma_kept_items(items),
        _ => {},
    }
}

proof fn lemma_kept_items(items: Seq<JsonView>)
    ensures
        payload::sanitized_items(items).len() == items.len(),
        forall|i: int|
            0 <= i < items.len() ==> #[trigger] payload::sanitized_items(items)[i]
                == payload::sanitized(items[i]),
    decreases items.len(),
{
    if items.len() > 0 {
        lemma_kept_items(items.drop_last());
        let rest = payload::sanitized_items(items.drop_last());
        assert forall|i: int| 0 <= i < items.len() implies #[trigger] payload::sanitized_items(
            items,
        )[i] == payload::sanitized(items[i]) by {
            if i < items.len() - 1 {
                assert(payload::sanitized_items(items)[i] == rest[i]);
                assert(items.drop_last()[i] == items[i]);
            }
        }
    }
}

proof fn lemma_passed_members(members: Seq<MemberView>, key: Seq<char>)
    ensures
        JsonView::Object(payload::passed_members(members)).member(key) == if key == "chatId"@ || key
            == "authorId"@ || key == "dateSent"@ {
            None
        } else {
            match JsonView::Object(members).member(key) {
                Some(held) => Some(payload::sanitized(held)),
                None => None,
            }
        },
    decreases members.len(),
{
    if members.len() > 0 {
        let rest = members.drop_last();
        let last = members.last();
        lemma_passed_members(rest, key);
        assert(members =~= rest.push(last));
        a_further_member_hides_none(rest, last, key);
        a_further_member_hides_none(
            payload::passed_members(rest),
            MemberView { key: last.key, value: payload::sanitized(last.value) },
            key,
        );
    }
}

/// The data of a message are passed on, but for the chat, the author and the time,
/// which its record tells in words of its own.
pub proof fn a_message_passes_on_its_data(message: JsonView, key: Seq<char>)
    ensures
        payload::passed_data(message) is Object,
        payload::passed_data(message).member("chatId"@) is None,
        payload::passed_data(message).member("authorId"@) is None,
        payload::passed_data(message).member("dateSent"@) is None,
        message is Object && key != "chatId"@ && key != "authorId"@ && key != "dateSent"@
            ==> payload::passed_data(message).member(key) == match message.member(key) {
            Some(held) => Some(payload::sanitized(held)),
            None => None,
        },
{
    if let JsonView::Object(members) = message {
        lemma_passed_members(members, "chatId"@);
        lemma_passed_members(members, "authorId"@);
        lemma_passed_members(members, "dateSent"@);
        lemma_passed_members(members, key);
    }
}

// ---------------------------------------------------------------------------
// Keys in words
// ---------------------------------------------------------------------------

/// A key made of ASCII letters.
pub open spec fn is_lettered(key: Seq<char>) -> bool {
    forall|i: int|
        0 <= i < key.len() ==> ('a' <= #[trigger] key[i] && key[i] <= 'z') || ('A' <= key[i]
            && key[i] <= 'Z')
}

proof fn lemma_lettered(key: Seq<char>)
    requires
        key.len() > 0,
        is_lettered(key),
    ensures
        payload::humanized(key) == payload::loose_words(key),
{
    assert forall|i: int| 0 <= i < key.len() implies text::is_small_ascii(#[trigger] key[i])
        || text::is_large_ascii(key[i]) by {}
    payload::lemma_words_of_letters(key);
    words::neat_text_is_single_spaced(payload::loose_words(key));
}

/// A key is read word by word: it starts with a large letter, a small letter goes
/// on with the word, and a capital starts the next word, small and after a space.
pub proof fn capitals_start_words(key: Seq<char>, letter: char)
    requires
        is_lettered(key.push(letter)),
    ensures
        key.len() == 0 && 'a' <= letter && letter <= 'z' ==> payload::humanized(key.push(letter))
            == seq![(letter as u32 - 32) as char],
        key.len() == 0 && 'A' <= letter && letter <= 'Z' ==> payload::humanized(key.push(letter))
            == seq![letter],
        key.len() > 0 && 'a' <= letter && letter <= 'z' ==> payload::humanized(key.push(letter))
            == payload::humanized(key).push(letter),
        key.len() > 0 && 'A' <= letter && letter <= 'Z' ==> payload::humanized(key.push(letter))
            == payload::humanized(key) + seq![' ', (letter as u32 + 32) as char],
{
    let all = key.push(letter);
    assert(all[key.len() as int] == letter);
    lemma_lettered(all);
    assert(all.drop_last() =~= key);
    if key.len() > 0 {
        assert forall|i: int| 0 <= i < key.len() implies ('a' <= #[trigger] key[i] && key[i]
            <= 'z') || ('A' <= key[i] && key[i] <= 'Z') by {
            assert(all[i] == key[i]);
        }
        lemma_lettered(key);
        if 'a' <= letter && letter <= 'z' {
            assert(payload::loose_words(key) + seq![letter] =~= payload::loose_words(key).push(
                letter,
            ));
        }
    } else {
        assert(payload::loose_words(key) =~= Seq::<char>::empty());
        assert(payload::loose_words(all) =~= payload::word_piece(letter, 0));
    }
}

/// Two characters of keys mean the same: they are equal, or both part words.
pub open spec fn means_the_same(left: char, right: char) -> bool {
    ||| left == right
    ||| (left == '_' || left == '-' || left == ' ') && (right == '_' || right == '-' || right
        == ' ')
}

/// Underscores and hyphens part words as spaces do.
pub proof fn marks_part_words_as_spaces_do(left: Seq<char>, right: Seq<char>)
    requires
        left.len() == right.len(),
        forall|i: int| 0 <= i < left.len() ==> means_the_same(#[trigger] left[i], right[i]),
    ensures
        payload::humanized(left) == payload::humanized(right),
{
    lemma_marks(left, right);
}

proof fn lemma_marks(left: Seq<char>, right: Seq<char>)
    requires
        left.len() == right.len(),
        forall|i: int| 0 <= i < left.len() ==> means_the_same(#[trigger] left[i], right[i]),
    ensures
        payload::loose_words(left) == payload::loose_words(right),
    decreases left.len(),
{
    if left.len() > 0 {
        let last = left.len() - 1;
        assert forall|i: int| 0 <= i < left.drop_last().len() implies means_the_same(
            #[trigger] left.drop_last()[i],
            right.drop_last()[i],
        ) by {
            assert(means_the_same(left[i], right[i]));
        }
        lemma_marks(left.drop_last(), right.drop_last());
        assert(means_the_same(left[last], right[last]));
        assert(payload::word_piece(left.last(), last) =~= payload::word_piece(right.last(), last));
    }
}

} // verus!
