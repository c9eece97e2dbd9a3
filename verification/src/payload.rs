//! What a message holds: its kind, its text, its attachments, and the data that
//! an export passes on.

use vstd::prelude::*;

use crate::json::{self, Json, JsonView, Member, MemberView};
use crate::text::{self, char_is_uppercase, char_to_uppercase, from_chars, join2, join3};
use crate::text::{same_text, to_ascii_lower, to_chars};
use crate::words::{self, single_space};

verus! {

// ---------------------------------------------------------------------------
// Names of kinds
// ---------------------------------------------------------------------------

/// What a character of a key becomes: a capital starts a new word, and so do the
/// marks between words; the first letter of all is large, the others are small.
pub open spec fn word_piece(character: char, position: int) -> Seq<char> {
    if character == '_' || character == '-' {
        seq![' ']
    } else if text::is_capital(character) && position > 0 {
        seq![' ', text::ascii_lower(character)]
    } else if position == 0 {
        text::uppercase_of(character)
    } else {
        seq![text::ascii_lower(character)]
    }
}

/// The words of a key, loosely spaced.
pub open spec fn loose_words(key: Seq<char>) -> Seq<char>
    decreases key.len(),
{
    if key.len() == 0 {
        Seq::empty()
    } else {
        loose_words(key.drop_last()) + word_piece(key.last(), key.len() - 1)
    }
}

/// A key as words: `standardMessage` as `Standard message`.
pub open spec fn humanized(key: Seq<char>) -> Seq<char> {
    words::single_spaced(loose_words(key))
}

fn push_all(buffer: &mut String, more: &Vec<char>)
    ensures
        final(buffer)@ == old(buffer)@ + more@,
{
    let addition = from_chars(more);
    buffer.append(addition.as_str());
}

/// A key as words.
pub fn humanize_key(key: &str) -> (shown: String)
    ensures
        shown@ == humanized(key@),
{
    let chars = to_chars(key);
    let mut output = String::new();
    let mut i: usize = 0;
    assert(chars@.take(0).len() == 0);
    while i < chars.len()
        invariant
            i <= chars@.len(),
            output@ == loose_words(chars@.take(i as int)),
        decreases chars@.len() - i,
    {
        let character = chars[i];
        let ghost before = output@;
        assert(chars@.take(i as int + 1).drop_last() =~= chars@.take(i as int));
        if character == '_' || character == '-' {
            output.push(' ');
        } else if char_is_uppercase(character) && i > 0 {
            output.push(' ');
            output.push(to_ascii_lower(character));
        } else if i == 0 {
            let large = char_to_uppercase(character);
            push_all(&mut output, &large);
        } else {
            output.push(to_ascii_lower(character));
        }
        assert(output@ =~= before + word_piece(character, i as int));
        i = i + 1;
    }
    assert(chars@.take(i as int) =~= chars@);
    single_space(output.as_str())
}

// ---------------------------------------------------------------------------
// Payload and text
// ---------------------------------------------------------------------------

/// The keys under which a message can hold its payload, in the order in which
/// they are tried.
pub open spec fn item_keys() -> Seq<Seq<char>> {
    seq![
        "standardMessage"@,
        "contactMessage"@,
        "stickerMessage"@,
        "remoteDeletedMessage"@,
        "updateMessage"@,
        "paymentNotification"@,
        "giftBadge"@,
        "viewOnceMessage"@,
        "directStoryReplyMessage"@,
        "poll"@,
    ]
}

/// The first of some keys that holds an object, and that object.
pub open spec fn payload_among(message: JsonView, keys: Seq<Seq<char>>) -> Option<
    (Seq<char>, JsonView),
>
    decreases keys.len(),
{
    if keys.len() == 0 {
        None
    } else {
        match message.object_member(keys[0]) {
            Some(payload) => Some((keys[0], payload)),
            None => payload_among(message, keys.drop_first()),
        }
    }
}

/// The kind of message that a key stands for, in words.
pub open spec fn kind_name(key: Seq<char>) -> Seq<char> {
    if key == "standardMessage"@ {
        "Standard message"@
    } else if key == "contactMessage"@ {
        "Contact message"@
    } else if key == "stickerMessage"@ {
        "Sticker message"@
    } else if key == "remoteDeletedMessage"@ {
        "Remote deleted message"@
    } else if key == "updateMessage"@ {
        "Update message"@
    } else if key == "paymentNotification"@ {
        "Payment notification"@
    } else if key == "giftBadge"@ {
        "Gift badge"@
    } else if key == "viewOnceMessage"@ {
        "View once message"@
    } else if key == "directStoryReplyMessage"@ {
        "Direct story reply message"@
    } else {
        "Poll"@
    }
}

/// The words of a key of small and large ASCII letters stand one space apart.
pub proof fn lemma_words_of_letters(key: Seq<char>)
    requires
        forall|i: int|
            0 <= i < key.len() ==> text::is_small_ascii(#[trigger] key[i]) || text::is_large_ascii(
                key[i],
            ),
    ensures
        words::is_neat(loose_words(key)),
        key.len() > 0 ==> loose_words(key).len() > 0 && !text::is_blank(loose_words(key).last()),
    decreases key.len(),
{
    if key.len() > 0 {
        assert forall|i: int| 0 <= i < key.drop_last().len() implies text::is_small_ascii(
            #[trigger] key.drop_last()[i],
        ) || text::is_large_ascii(key.drop_last()[i]) by {
            assert(key.drop_last()[i] == key[i]);
        }
        lemma_words_of_letters(key.drop_last());
        assert(key.last() == key[key.len() - 1]);
        let before = loose_words(key.drop_last());
        let piece = word_piece(key.last(), key.len() - 1);
        let all = loose_words(key);
        assert forall|i: int| 0 <= i < all.len() && text::is_blank(#[trigger] all[i]) implies all[i]
            == ' ' && i > 0 && !text::is_blank(all[i - 1]) by {
            if i < before.len() {
                assert(all[i] == before[i]);
                assert(all[i - 1] == before[i - 1]);
            } else {
                assert(all[i] == piece[i - before.len()]);
                assert(all[i - 1] == before.last());
            }
        }
    }
}

/// The words of a key of letters, where they are known.
proof fn lemma_humanized(key: Seq<char>, shown: Seq<char>)
    requires
        key.len() > 0,
        forall|i: int|
            0 <= i < key.len() ==> text::is_small_ascii(#[trigger] key[i]) || text::is_large_ascii(
                key[i],
            ),
        loose_words(key) == shown,
    ensures
        humanized(key) == shown,
{
    lemma_words_of_letters(key);
    words::neat_text_is_single_spaced(loose_words(key));
}

/// The keys of messages in words.
proof fn lemma_words_of_kinds()
    ensures
        forall|i: int|
            0 <= i < item_keys().len() ==> humanized(#[trigger] item_keys()[i]) == kind_name(
                item_keys()[i],
            ),
{
    reveal_strlit("standardMessage");
    reveal_strlit("Standard message");
    reveal_strlit("contactMessage");
    reveal_strlit("Contact message");
    reveal_strlit("stickerMessage");
    reveal_strlit("Sticker message");
    reveal_strlit("remoteDeletedMessage");
    reveal_strlit("Remote deleted message");
    reveal_strlit("updateMessage");
    reveal_strlit("Update message");
    reveal_strlit("paymentNotification");
    reveal_strlit("Payment notification");
    reveal_strlit("giftBadge");
    reveal_strlit("Gift badge");
    reveal_strlit("viewOnceMessage");
    reveal_strlit("View once message");
    reveal_strlit("directStoryReplyMessage");
    reveal_strlit("Direct story reply message");
    reveal_strlit("poll");
    reveal_strlit("Poll");
    assert(humanized("standardMessage"@) == "Standard message"@) by {
        reveal_with_fuel(loose_words, 17);
        assert(loose_words("standardMessage"@) =~= "Standard message"@);
        lemma_humanized("standardMessage"@, "Standard message"@);
    }
    assert(humanized("contactMessage"@) == "Contact message"@) by {
        reveal_with_fuel(loose_words, 16);
        assert(loose_words("contactMessage"@) =~= "Contact message"@);
        lemma_humanized("contactMessage"@, "Contact message"@);
    }
    assert(humanized("stickerMessage"@) == "Sticker message"@) by {
        reveal_with_fuel(loose_words, 16);
        assert(loose_words("stickerMessage"@) =~= "Sticker message"@);
        lemma_humanized("stickerMessage"@, "Sticker message"@);
    }
    assert(humanized("remoteDeletedMessage"@) == "Remote deleted message"@) by {
        reveal_with_fuel(loose_words, 22);
        assert(loose_words("remoteDeletedMessage"@) =~= "Remote deleted message"@);
        lemma_humanized("remoteDeletedMessage"@, "Remote deleted message"@);
    }
    assert(humanized("updateMessage"@) == "Update message"@) by {
        reveal_with_fuel(loose_words, 15);
        assert(loose_words("updateMessage"@) =~= "Update message"@);
        lemma_humanized("updateMessage"@, "Update message"@);
    }
    assert(humanized("paymentNotification"@) == "Payment notification"@) by {
        reveal_with_fuel(loose_words, 21);
        assert(loose_words("paymentNotification"@) =~= "Payment notification"@);
        lemma_humanized("paymentNotification"@, "Payment notification"@);
    }
    assert(humanized("giftBadge"@) == "Gift badge"@) by {
        reveal_with_fuel(loose_words, 11);
        assert(loose_words("giftBadge"@) =~= "Gift badge"@);
        lemma_humanized("giftBadge"@, "Gift badge"@);
    }
    assert(humanized("viewOnceMessage"@) == "View once message"@) by {
        reveal_with_fuel(loose_words, 17);
        assert(loose_words("viewOnceMessage"@) =~= "View once message"@);
        lemma_humanized("viewOnceMessage"@, "View once message"@);
    }
    assert(humanized("directStoryReplyMessage"@) == "Direct story reply message"@) by {
        reveal_with_fuel(loose_words, 25);
        assert(loose_words("directStoryReplyMessage"@) =~= "Direct story reply message"@);
        lemma_humanized("directStoryReplyMessage"@, "Direct story reply message"@);
    }
    assert(humanized("poll"@) == "Poll"@) by {
        reveal_with_fuel(loose_words, 6);
        assert(loose_words("poll"@) =~= "Poll"@);
        lemma_humanized("poll"@, "Poll"@);
    }
}

/// The payload of a message.
pub open spec fn payload_of(message: JsonView) -> Option<JsonView> {
    match payload_among(message, item_keys()) {
        Some((_, payload)) => Some(payload),
        None => None,
    }
}

/// The kind of a message, in words.
pub open spec fn kind_of(message: JsonView) -> Seq<char> {
    match payload_among(message, item_keys()) {
        Some((key, _)) => kind_name(key),
        None => "Unknown message"@,
    }
}

/// The kind of a message in words, and its payload.
pub fn message_payload(message: &Json) -> (found: (String, Option<&Json>))
    ensures
        found.0@ == kind_of(message@),
        json::seen(found.1) == payload_of(message@),
{
    let keys = [
        "standardMessage",
        "contactMessage",
        "stickerMessage",
        "remoteDeletedMessage",
        "updateMessage",
        "paymentNotification",
        "giftBadge",
        "viewOnceMessage",
        "directStoryReplyMessage",
        "poll",
    ];
    let ghost all = item_keys();
    proof {
        lemma_words_of_kinds();
    }
    assert(all =~= keys@.map_values(|key: &str| key@));
    let mut i: usize = 0;
    assert(all.skip(0) =~= all);
    while i < 10
        invariant
            i <= 10,
            keys@.len() == 10,
            all == item_keys(),
            all.len() == 10,
            all == keys@.map_values(|key: &str| key@),
            forall|k: int| 0 <= k < all.len() ==> humanized(#[trigger] all[k]) == kind_name(all[k]),
            payload_among(message@, all) == payload_among(message@, all.skip(i as int)),
        decreases 10 - i,
    {
        assert(all.skip(i as int)[0] == keys@[i as int]@);
        assert(humanized(all[i as int]) == kind_name(all[i as int]));
        if let Some(payload) = message.object_member(keys[i]) {
            return (humanize_key(keys[i]), Some(payload));
        }
        assert(all.skip(i as int).drop_first() =~= all.skip(i as int + 1));
        i = i + 1;
    }
    ("Unknown message".to_owned(), None)
}

/// The body of a text object under a key.
pub open spec fn body_of(object: JsonView, key: Seq<char>) -> Option<Seq<char>> {
    match object.object_member(key) {
        Some(held) => held.text_member("body"@),
        None => None,
    }
}

/// The text of a reply to a story.
pub open spec fn story_reply(payload: JsonView) -> Option<Seq<char>> {
    match payload.text_member("emoji"@) {
        Some(emoji) => Some("Story reply: "@ + emoji),
        None => match payload.object_member("textReply"@) {
            Some(reply) => body_of(reply, "text"@),
            None => None,
        },
    }
}

/// The emoji of a sticker.
pub open spec fn sticker_emoji(payload: JsonView) -> Seq<char> {
    match payload.object_member("sticker"@) {
        Some(sticker) => match sticker.text_member("emoji"@) {
            Some(emoji) => emoji,
            None => "sticker"@,
        },
        None => "sticker"@,
    }
}

/// What an update reports, in words.
pub open spec fn update_words(payload: JsonView) -> Seq<char> {
    match payload.object_member("simpleUpdate"@) {
        Some(update) => match update.text_member("type"@) {
            Some(kind) => humanized(kind),
            None => "Chat update"@,
        },
        None => "Chat update"@,
    }
}

/// The text that stands for a message of a kind.
pub open spec fn text_of(kind: Seq<char>, payload: Option<JsonView>) -> Option<Seq<char>> {
    match payload {
        None => None,
        Some(held) => if kind == "Standard message"@ {
            body_of(held, "text"@)
        } else if kind == "Direct story reply message"@ {
            story_reply(held)
        } else if kind == "Sticker message"@ {
            Some("[Sticker "@ + sticker_emoji(held) + "]"@)
        } else if kind == "Remote deleted message"@ {
            Some("[Message deleted]"@)
        } else if kind == "View once message"@ {
            Some("[View-once message]"@)
        } else if kind == "Update message"@ {
            Some("["@ + update_words(held) + "]"@)
        } else if kind == "Contact message"@ {
            Some("[Shared contact]"@)
        } else {
            Some("["@ + kind + "]"@)
        },
    }
}

/// The text of a message, by the key that holds its payload.
pub open spec fn text_held(key: Seq<char>, payload: JsonView) -> Option<Seq<char>> {
    if key == "standardMessage"@ {
        body_of(payload, "text"@)
    } else if key == "contactMessage"@ {
        Some("[Shared contact]"@)
    } else if key == "stickerMessage"@ {
        Some("[Sticker "@ + sticker_emoji(payload) + "]"@)
    } else if key == "remoteDeletedMessage"@ {
        Some("[Message deleted]"@)
    } else if key == "updateMessage"@ {
        Some("["@ + update_words(payload) + "]"@)
    } else if key == "paymentNotification"@ {
        Some("[Payment notification]"@)
    } else if key == "giftBadge"@ {
        Some("[Gift badge]"@)
    } else if key == "viewOnceMessage"@ {
        Some("[View-once message]"@)
    } else if key == "directStoryReplyMessage"@ {
        story_reply(payload)
    } else {
        Some("[Poll]"@)
    }
}

proof fn lemma_payload_key(message: JsonView, keys: Seq<Seq<char>>)
    ensures
        payload_among(message, keys) matches Some((key, payload)) ==> keys.contains(key)
            && message.object_member(key) == Some(payload),
    decreases keys.len(),
{
    if keys.len() > 0 {
        lemma_payload_key(message, keys.drop_first());
        assert(keys.contains(keys[0]));
        if let Some((key, _)) = payload_among(message, keys.drop_first()) {
            if keys.drop_first().contains(key) {
                let k = choose|k: int| 0 <= k < keys.drop_first().len() && keys.drop_first()[k] == key;
                assert(keys[k + 1] == key);
            }
        }
    }
}

/// A message is told by the payload that it holds: the kind in words that is given
/// to a message is one that its text is known for.
pub proof fn a_message_is_told_by_its_payload(message: JsonView)
    ensures
        match payload_among(message, item_keys()) {
            Some((key, payload)) => text_of(kind_of(message), payload_of(message)) == text_held(
                key,
                payload,
            ) && message.object_member(key) == Some(payload),
            None => text_of(kind_of(message), payload_of(message)) is None,
        },
{
    lemma_payload_key(message, item_keys());
    reveal_strlit("standardMessage");
    reveal_strlit("Standard message");
    reveal_strlit("contactMessage");
    reveal_strlit("Contact message");
    reveal_strlit("stickerMessage");
    reveal_strlit("Sticker message");
    reveal_strlit("remoteDeletedMessage");
    reveal_strlit("Remote deleted message");
    reveal_strlit("updateMessage");
    reveal_strlit("Update message");
    reveal_strlit("paymentNotification");
    reveal_strlit("Payment notification");
    reveal_strlit("giftBadge");
    reveal_strlit("Gift badge");
    reveal_strlit("viewOnceMessage");
    reveal_strlit("View once message");
    reveal_strlit("directStoryReplyMessage");
    reveal_strlit("Direct story reply message");
    reveal_strlit("poll");
    reveal_strlit("Poll");
    reveal_strlit("[");
    reveal_strlit("]");
    reveal_strlit("[Payment notification]");
    reveal_strlit("[Gift badge]");
    reveal_strlit("[Poll]");
    assert("["@ + "Payment notification"@ + "]"@ =~= "[Payment notification]"@);
    assert("["@ + "Gift badge"@ + "]"@ =~= "[Gift badge]"@);
    assert("["@ + "Poll"@ + "]"@ =~= "[Poll]"@);
    assert("standardMessage"@.len() == 15 && "Standard message"@.len() == 16);
    assert("contactMessage"@.len() == 14 && "Contact message"@.len() == 15);
    assert("stickerMessage"@.len() == 14 && "Sticker message"@.len() == 15);
    assert("remoteDeletedMessage"@.len() == 20 && "Remote deleted message"@.len() == 22);
    assert("updateMessage"@.len() == 13 && "Update message"@.len() == 14);
    assert("paymentNotification"@.len() == 19 && "Payment notification"@.len() == 20);
    assert("giftBadge"@.len() == 9 && "Gift badge"@.len() == 10);
    assert("viewOnceMessage"@.len() == 15 && "View once message"@.len() == 17);
    assert("directStoryReplyMessage"@.len() == 23 && "Direct story reply message"@.len() == 26);
    assert("poll"@.len() == 4 && "Poll"@.len() == 4);
    assert("Contact message"@[0] != "Sticker message"@[0]);
    assert("contactMessage"@[0] != "stickerMessage"@[0]);
    assert("standardMessage"@[0] != "viewOnceMessage"@[0]);
}

fn find_body(object: &Json, key: &str) -> (body: Option<String>)
    ensures
        text::shown(body) == body_of(object@, key@),
{
    match object.object_member(key) {
        Some(held) => match held.text_member("body") {
            Some(body) => Some(body.to_owned()),
            None => None,
        },
        None => None,
    }
}

/// The text that stands for a message of a kind.
pub fn message_text(message_type: &str, payload: Option<&Json>) -> (shown: Option<String>)
    ensures
        text::shown(shown) == text_of(message_type@, json::seen(payload)),
{
    let held = match payload {
        Some(held) => held,
        None => {
            return None;
        },
    };
    if same_text(message_type, "Standard message") {
        return find_body(held, "text");
    }
    if same_text(message_type, "Direct story reply message") {
        if let Some(emoji) = held.text_member("emoji") {
            return Some(join2("Story reply: ", emoji));
        }
        return match held.object_member("textReply") {
            Some(reply) => find_body(reply, "text"),
            None => None,
        };
    }
    if same_text(message_type, "Sticker message") {
        let emoji = match held.object_member("sticker") {
            Some(sticker) => match sticker.text_member("emoji") {
                Some(emoji) => emoji,
                None => "sticker",
            },
            None => "sticker",
        };
        return Some(join3("[Sticker ", emoji, "]"));
    }
    if same_text(message_type, "Remote deleted message") {
        return Some("[Message deleted]".to_owned());
    }
    if same_text(message_type, "View once message") {
        return Some("[View-once message]".to_owned());
    }
    if same_text(message_type, "Update message") {
        let update = match held.object_member("simpleUpdate") {
            Some(update) => match update.text_member("type") {
                Some(kind) => humanize_key(kind),
                None => "Chat update".to_owned(),
            },
            None => "Chat update".to_owned(),
        };
        return Some(join3("[", update.as_str(), "]"));
    }
    if same_text(message_type, "Contact message") {
        return Some("[Shared contact]".to_owned());
    }
    Some(join3("[", message_type, "]"))
}

// ---------------------------------------------------------------------------
// Attachments
// ---------------------------------------------------------------------------

/// An object that points to a file of the archive.
pub open spec fn is_pointer(value: JsonView) -> bool {
    value.has("locatorInfo"@) && (value.has("contentType"@) || value.has("fileName"@) || value.has(
        "caption"@,
    ) || value.has("width"@) || value.has("height"@))
}

/// The pointers in an object, depth first; a pointer holds no others.
pub open spec fn file_pointers(value: JsonView) -> Seq<JsonView>
    decreases value,
{
    if is_pointer(value) {
        seq![value]
    } else {
        match value {
            JsonView::Object(members) => member_pointers(members),
            _ => Seq::empty(),
        }
    }
}

/// The pointers in the members of an object: in those that are objects, and in
/// the objects of those that are arrays.
pub open spec fn member_pointers(members: Seq<MemberView>) -> Seq<JsonView>
    decreases members,
{
    if members.len() == 0 {
        Seq::empty()
    } else {
        proof {
            assert(decreases_to!(members => members.last()));
            assert(decreases_to!(members.last() => members.last().value));
        }
        member_pointers(members.drop_last()) + match members.last().value {
            JsonView::Object(_) => file_pointers(members.last().value),
            JsonView::Array(items) => item_pointers(items),
            _ => Seq::empty(),
        }
    }
}

/// The pointers in the objects of an array.
pub open spec fn item_pointers(items: Seq<JsonView>) -> Seq<JsonView>
    decreases items,
{
    if items.len() == 0 {
        Seq::empty()
    } else {
        item_pointers(items.drop_last()) + match items.last() {
            JsonView::Object(_) => file_pointers(items.last()),
            _ => Seq::empty(),
        }
    }
}

/// What some references show.
pub open spec fn seen_all(values: Seq<&Json>) -> Seq<JsonView> {
    values.map_values(|value: &Json| value@)
}

fn append_all<'a>(out: &mut Vec<&'a Json>, more: Vec<&'a Json>)
    ensures
        seen_all(final(out)@) == seen_all(old(out)@) + seen_all(more@),
{
    let ghost start = out@;
    let ghost held = more@;
    for value in it: more
        invariant
            it.seq() == held,
            out@ =~= start + held.take(it.index() as int),
    {
        out.push(value);
    }
    assert(held.take(held.len() as int) =~= held);
    assert(seen_all(out@) =~= seen_all(start) + seen_all(held));
}

fn points_to_file(value: &Json) -> (pointer: bool)
    ensures
        pointer == is_pointer(value@),
{
    value.has("locatorInfo") && (value.has("contentType") || value.has("fileName") || value.has(
        "caption",
    ) || value.has("width") || value.has("height"))
}

/// The pointers in an object, depth first.
#[verifier::loop_isolation(false)]
pub fn collect_file_pointers<'a>(value: &'a Json) -> (found: Vec<&'a Json>)
    ensures
        seen_all(found@) == file_pointers(value@),
    decreases value,
{
    let mut found: Vec<&'a Json> = Vec::new();
    if points_to_file(value) {
        found.push(value);
        assert(seen_all(found@) =~= seq![value@]);
        return found;
    }
    if let Json::Object(members) = value {
        let ghost all = value@->Object_0;
        let mut i: usize = 0;
        assert(seen_all(found@) =~= member_pointers(all.take(0)));
        while i < members.len()
            invariant
                i <= members@.len(),
                seen_all(found@) == member_pointers(all.take(i as int)),
            decreases members@.len() - i,
        {
            assert(decreases_to!(value => members@));
            assert(decreases_to!(members@ => members@[i as int]));
            assert(decreases_to!(members@[i as int] => members@[i as int].value));
            assert(all[i as int] == members@[i as int]@);
            assert(all.take(i as int + 1).drop_last() =~= all.take(i as int));
            assert(all.take(i as int + 1).last() == all[i as int]);
            match &members[i].value {
                Json::Object(_) => {
                    let more = collect_file_pointers(&members[i].value);
                    append_all(&mut found, more);
                },
                Json::Array(items) => {
                    let ghost before = seen_all(found@);
                    let ghost held = members@[i as int].value@->Array_0;
                    let mut j: usize = 0;
                    assert(before + item_pointers(held.take(0)) =~= before);
                    while j < items.len()
                        invariant
                            j <= items@.len(),
                            seen_all(found@) == before + item_pointers(held.take(j as int)),
                        decreases items@.len() - j,
                    {
                        assert(decreases_to!(members@[i as int].value => items@));
                        assert(decreases_to!(items@ => items@[j as int]));
                        assert(held[j as int] == items@[j as int]@);
                        assert(held.take(j as int + 1).drop_last() =~= held.take(j as int));
                        assert(held.take(j as int + 1).last() == held[j as int]);
                        let ghost sofar = seen_all(found@);
                        if items[j].is_object() {
                            let more = collect_file_pointers(&items[j]);
                            append_all(&mut found, more);
                        }
                        assert(seen_all(found@) =~= before + item_pointers(
                            held.take(j as int + 1),
                        ));
                        j = j + 1;
                    }
                    assert(held.take(j as int) =~= held);
                },
                _ => {},
            }
            assert(seen_all(found@) =~= member_pointers(all.take(i as int + 1)));
            i = i + 1;
        }
        assert(all.take(i as int) =~= all);
    } else {
        assert(seen_all(found@) =~= Seq::<JsonView>::empty());
    }
    found
}

// ---------------------------------------------------------------------------
// Data passed on
// ---------------------------------------------------------------------------

/// The keys that tell how to find and read a file: they stay in the archive.
pub open spec fn is_secret_key(key: Seq<char>) -> bool {
    key == "locatorInfo"@ || key == "incrementalMac"@ || key == "incrementalMacChunkSize"@
}

/// The keys of a message that a record states in its own words.
pub open spec fn is_routing_key(key: Seq<char>) -> bool {
    key == "chatId"@ || key == "authorId"@ || key == "dateSent"@
}

/// A value without the members that stay in the archive, at any depth.
pub open spec fn sanitized(value: JsonView) -> JsonView
    decreases value,
{
    match value {
        JsonView::Object(members) => JsonView::Object(sanitized_members(members)),
        JsonView::Array(items) => JsonView::Array(sanitized_items(items)),
        _ => value,
    }
}

pub open spec fn sanitized_members(members: Seq<MemberView>) -> Seq<MemberView>
    decreases members,
{
    if members.len() == 0 {
        Seq::empty()
    } else {
        proof {
            assert(decreases_to!(members => members.last()));
            assert(decreases_to!(members.last() => members.last().value));
        }
        let last = members.last();
        if is_secret_key(last.key) {
            sanitized_members(members.drop_last())
        } else {
            sanitized_members(members.drop_last()).push(
                MemberView { key: last.key, value: sanitized(last.value) },
            )
        }
    }
}

pub open spec fn sanitized_items(items: Seq<JsonView>) -> Seq<JsonView>
    decreases items,
{
    if items.len() == 0 {
        Seq::empty()
    } else {
        sanitized_items(items.drop_last()).push(sanitized(items.last()))
    }
}

/// The members of a message that an export passes on.
pub open spec fn passed_members(members: Seq<MemberView>) -> Seq<MemberView>
    decreases members.len(),
{
    if members.len() == 0 {
        Seq::empty()
    } else {
        let last = members.last();
        if is_routing_key(last.key) {
            passed_members(members.drop_last())
        } else {
            passed_members(members.drop_last()).push(
                MemberView { key: last.key, value: sanitized(last.value) },
            )
        }
    }
}

/// The data of a message that an export passes on.
pub open spec fn passed_data(message: JsonView) -> JsonView {
    match message {
        JsonView::Object(members) => JsonView::Object(passed_members(members)),
        _ => JsonView::Object(Seq::empty()),
    }
}

fn key_is_secret(key: &str) -> (secret: bool)
    ensures
        secret == is_secret_key(key@),
{
    same_text(key, "locatorInfo") || same_text(key, "incrementalMac") || same_text(
        key,
        "incrementalMacChunkSize",
    )
}

fn key_is_routing(key: &str) -> (routing: bool)
    ensures
        routing == is_routing_key(key@),
{
    same_text(key, "chatId") || same_text(key, "authorId") || same_text(key, "dateSent")
}

/// What some members show.
pub open spec fn seen_members(members: Seq<Member>) -> Seq<MemberView> {
    members.map_values(|member: Member| member@)
}

/// A value without the members that stay in the archive, at any depth.
#[verifier::loop_isolation(false)]
pub fn sanitize(value: &Json) -> (clean: Json)
    ensures
        clean@ == sanitized(value@),
    decreases value,
{
    match value {
        Json::Object(members) => {
            let ghost all = value@->Object_0;
            let mut kept: Vec<Member> = Vec::new();
            let mut i: usize = 0;
            assert(seen_members(kept@) =~= sanitized_members(all.take(0)));
            while i < members.len()
                invariant
                    i <= members@.len(),
                    seen_members(kept@) == sanitized_members(all.take(i as int)),
                decreases members@.len() - i,
            {
                assert(decreases_to!(value => members@));
                assert(decreases_to!(members@ => members@[i as int]));
                assert(decreases_to!(members@[i as int] => members@[i as int].value));
                assert(all[i as int] == members@[i as int]@);
                assert(all.take(i as int + 1).drop_last() =~= all.take(i as int));
                assert(all.take(i as int + 1).last() == all[i as int]);
                let ghost before = kept@;
                if !key_is_secret(members[i].key.as_str()) {
                    kept.push(
                        Member { key: members[i].key.clone(), value: sanitize(&members[i].value) },
                    );
                    assert(seen_members(kept@) =~= seen_members(before).push(kept@.last()@));
                }
                i = i + 1;
            }
            assert(all.take(i as int) =~= all);
            let clean = Json::Object(kept);
            assert(clean@->Object_0 =~= seen_members(kept@));
            clean
        },
        Json::Array(items) => {
            let ghost all = value@->Array_0;
            let mut kept: Vec<Json> = Vec::new();
            let mut i: usize = 0;
            assert(kept@.map_values(|item: Json| item@) =~= sanitized_items(all.take(0)));
            while i < items.len()
                invariant
                    i <= items@.len(),
                    kept@.map_values(|item: Json| item@) == sanitized_items(all.take(i as int)),
                decreases items@.len() - i,
            {
                assert(decreases_to!(value => items@));
                assert(decreases_to!(items@ => items@[i as int]));
                assert(all[i as int] == items@[i as int]@);
                assert(all.take(i as int + 1).drop_last() =~= all.take(i as int));
                assert(all.take(i as int + 1).last() == all[i as int]);
                let ghost before = kept@;
                kept.push(sanitize(&items[i]));
                assert(kept@.map_values(|item: Json| item@) =~= before.map_values(
                    |item: Json| item@,
                ).push(kept@.last()@));
                i = i + 1;
            }
            assert(all.take(i as int) =~= all);
            let clean = Json::Array(kept);
            assert(clean@->Array_0 =~= kept@.map_values(|item: Json| item@));
            clean
        },
        _ => value.duplicate(),
    }
}

/// The data of a message that an export passes on.
pub fn sanitized_signal_data(message: &Json) -> (data: Json)
    ensures
        data@ == passed_data(message@),
{
    let mut kept: Vec<Member> = Vec::new();
    if let Json::Object(members) = message {
        let ghost all = message@->Object_0;
        let mut i: usize = 0;
        assert(seen_members(kept@) =~= passed_members(all.take(0)));
        while i < members.len()
            invariant
                i <= members@.len(),
                all == message@->Object_0,
                all.len() == members@.len(),
                forall|j: int| 0 <= j < members@.len() ==> all[j] == (#[trigger] members@[j])@,
                seen_members(kept@) == passed_members(all.take(i as int)),
            decreases members@.len() - i,
        {
            assert(all[i as int] == members@[i as int]@);
            assert(all.take(i as int + 1).drop_last() =~= all.take(i as int));
            assert(all.take(i as int + 1).last() == all[i as int]);
            let ghost before = kept@;
            if !key_is_routing(members[i].key.as_str()) {
                kept.push(
                    Member { key: members[i].key.clone(), value: sanitize(&members[i].value) },
                );
                assert(seen_members(kept@) =~= seen_members(before).push(kept@.last()@));
            }
            i = i + 1;
        }
        assert(all.take(i as int) =~= all);
        assert(message@ == JsonView::Object(all));
    } else {
        assert(seen_members(kept@) =~= Seq::<MemberView>::empty());
    }
    let data = Json::Object(kept);
    assert(data@->Object_0 =~= seen_members(kept@));
    data
}

/// No key that stays in the archive occurs in a value, at any depth.
pub open spec fn holds_no_secret(value: JsonView) -> bool
    decreases value,
{
    match value {
        JsonView::Object(members) => members_hold_no_secret(members),
        JsonView::Array(items) => items_hold_no_secret(items),
        _ => true,
    }
}

pub open spec fn members_hold_no_secret(members: Seq<MemberView>) -> bool
    decreases members,
{
    if members.len() == 0 {
        true
    } else {
        proof {
            assert(decreases_to!(members => members.last()));
            assert(decreases_to!(members.last() => members.last().value));
        }
        !is_secret_key(members.last().key) && holds_no_secret(members.last().value)
            && members_hold_no_secret(members.drop_last())
    }
}

pub open spec fn items_hold_no_secret(items: Seq<JsonView>) -> bool
    decreases items,
{
    if items.len() == 0 {
        true
    } else {
        holds_no_secret(items.last()) && items_hold_no_secret(items.drop_last())
    }
}

/// What is passed on of a value holds no key that stays in the archive.
pub proof fn sanitized_values_hold_no_secret(value: JsonView)
    ensures
        holds_no_secret(sanitized(value)),
    decreases value,
{
    match value {
        JsonView::Object(members) => {
            sanitized_members_hold_no_secret(members);
        },
        JsonView::Array(items) => {
            sanitized_items_hold_no_secret(items);
        },
        _ => {},
    }
}

/// What is passed on of the members of an object holds no key that stays in the
/// archive.
pub proof fn sanitized_members_hold_no_secret(members: Seq<MemberView>)
    ensures
        members_hold_no_secret(sanitized_members(members)),
    decreases members,
{
    if members.len() > 0 {
        assert(decreases_to!(members => members.last()));
        assert(decreases_to!(members.last() => members.last().value));
        sanitized_members_hold_no_secret(members.drop_last());
        sanitized_values_hold_no_secret(members.last().value);
        let rest = sanitized_members(members.drop_last());
        let last = MemberView {
            key: members.last().key,
            value: sanitized(members.last().value),
        };
        assert(rest.push(last).drop_last() =~= rest);
    }
}

/// What is passed on of the items of an array holds no key that stays in the
/// archive.
pub proof fn sanitized_items_hold_no_secret(items: Seq<JsonView>)
    ensures
        items_hold_no_secret(sanitized_items(items)),
    decreases items,
{
    if items.len() > 0 {
        sanitized_items_hold_no_secret(items.drop_last());
        sanitized_values_hold_no_secret(items.last());
        let rest = sanitized_items(items.drop_last());
        assert(rest.push(sanitized(items.last())).drop_last() =~= rest);
    }
}

/// The data that an export passes on of a message says neither its chat nor its
/// author nor its time, and no member of it holds a key that stays in the archive.
pub proof fn passed_data_holds_no_secret(message: JsonView)
    ensures
        passed_data(message) is Object,
        forall|i: int|
            0 <= i < passed_data(message)->Object_0.len() ==> {
                let member = #[trigger] passed_data(message)->Object_0[i];
                !is_routing_key(member.key) && holds_no_secret(member.value)
            },
    decreases message,
{
    match message {
        JsonView::Object(members) => {
            lemma_passed_members(members);
        },
        _ => {},
    }
}

proof fn lemma_passed_members(members: Seq<MemberView>)
    ensures
        forall|i: int|
            0 <= i < passed_members(members).len() ==> {
                let member = #[trigger] passed_members(members)[i];
                !is_routing_key(member.key) && holds_no_secret(member.value)
            },
    decreases members.len(),
{
    if members.len() > 0 {
        let rest = passed_members(members.drop_last());
        lemma_passed_members(members.drop_last());
        sanitized_values_hold_no_secret(members.last().value);
        assert forall|i: int| 0 <= i < passed_members(members).len() implies {
            let member = #[trigger] passed_members(members)[i];
            !is_routing_key(member.key) && holds_no_secret(member.value)
        } by {
            if i < rest.len() {
                assert(passed_members(members)[i] == rest[i]);
            }
        }
    }
}

} // verus!
