//! Archives that hold the same lines in another order.

use vstd::prelude::*;

use crate::archive;
use crate::error::AppError;
use crate::json::JsonView;
use crate::model::ArchiveIndex;
use crate::parser;

verus! {

// ---------------------------------------------------------------------------
// Counting
// ---------------------------------------------------------------------------

/// How many of some items have a property.
pub open spec fn how_many(items: Seq<JsonView>, holds: spec_fn(JsonView) -> bool) -> nat
    decreases items.len(),
{
    if items.len() == 0 {
        0
    } else if holds(items.last()) {
        how_many(items.drop_last(), holds) + 1
    } else {
        how_many(items.drop_last(), holds)
    }
}

/// Two sequences hold the same in another order.
pub open spec fn is_reordered<A>(left: Seq<A>, right: Seq<A>) -> bool {
    left.to_multiset() == right.to_multiset()
}

/// What stands last in one of two such sequences can be taken out of both.
proof fn lemma_take_out<A>(left: Seq<A>, right: Seq<A>) -> (place: int)
    requires
        is_reordered(left, right),
        left.len() > 0,
    ensures
        0 <= place < right.len(),
        right[place] == left.last(),
        is_reordered(left.drop_last(), right.remove(place)),
{
    broadcast use vstd::seq_lib::group_to_multiset_ensures;

    let last = left.last();
    assert(left[left.len() - 1] == last);
    assert(left.contains(last));
    assert(left.to_multiset().count(last) > 0);
    assert(right.contains(last));
    let place = choose|place: int| 0 <= place < right.len() && right[place] == last;
    assert(left.remove(left.len() - 1) =~= left.drop_last());
    assert(left.remove(left.len() - 1).to_multiset() == left.to_multiset().remove(last));
    assert(right.remove(place).to_multiset() == right.to_multiset().remove(last));
    place
}

proof fn lemma_same_members<A>(left: Seq<A>, right: Seq<A>)
    requires
        is_reordered(left, right),
    ensures
        left.len() == right.len(),
        forall|x: A| #[trigger] left.contains(x) == right.contains(x),
{
    broadcast use vstd::seq_lib::group_to_multiset_ensures;

    assert(left.len() == left.to_multiset().len());
    assert(right.len() == right.to_multiset().len());
    assert forall|x: A| #[trigger] left.contains(x) == right.contains(x) by {
        assert(left.contains(x) <==> left.to_multiset().count(x) > 0);
        assert(right.contains(x) <==> right.to_multiset().count(x) > 0);
    }
}

proof fn lemma_count_without(items: Seq<JsonView>, place: int, holds: spec_fn(JsonView) -> bool)
    requires
        0 <= place < items.len(),
    ensures
        how_many(items, holds) == how_many(items.remove(place), holds) + if holds(items[place]) {
            1nat
        } else {
            0nat
        },
    decreases items.len(),
{
    if place == items.len() - 1 {
        assert(items.remove(place) =~= items.drop_last());
    } else {
        lemma_count_without(items.drop_last(), place, holds);
        assert(items.remove(place).drop_last() =~= items.drop_last().remove(place));
        assert(items.remove(place).last() == items.last());
    }
}

proof fn lemma_same_count(
    left: Seq<JsonView>,
    right: Seq<JsonView>,
    holds: spec_fn(JsonView) -> bool,
)
    requires
        is_reordered(left, right),
    ensures
        how_many(left, holds) == how_many(right, holds),
    decreases left.len(),
{
    lemma_same_members(left, right);
    if left.len() > 0 {
        let place = lemma_take_out(left, right);
        lemma_same_count(left.drop_last(), right.remove(place), holds);
        lemma_count_without(right, place, holds);
    }
}

/// An item with the property is counted.
proof fn lemma_counted(items: Seq<JsonView>, place: int, holds: spec_fn(JsonView) -> bool)
    requires
        0 <= place < items.len(),
        holds(items[place]),
    ensures
        how_many(items, holds) > 0,
    decreases items.len(),
{
    if place < items.len() - 1 {
        lemma_counted(items.drop_last(), place, holds);
    }
}

// ---------------------------------------------------------------------------
// Records
// ---------------------------------------------------------------------------

pub open spec fn has_account(item: JsonView) -> bool {
    item.object_member("account"@) is Some
}

pub open spec fn has_record(item: JsonView, key: Seq<char>, id: Seq<char>) -> bool {
    archive::record_id(item, key) == Some(id)
}

/// How many account records there are.
pub open spec fn account_count(items: Seq<JsonView>) -> nat {
    how_many(items, |item: JsonView| has_account(item))
}

/// How many records under a key have an id.
pub open spec fn record_count(items: Seq<JsonView>, key: Seq<char>, id: Seq<char>) -> nat {
    how_many(items, |item: JsonView| has_record(item, key, id))
}

/// An archive says everything once: it has at most one account record, and at most
/// one record for each recipient and for each chat.
pub open spec fn is_unambiguous(items: Seq<JsonView>) -> bool {
    &&& account_count(items) <= 1
    &&& forall|id: Seq<char>| #[trigger] record_count(items, "recipient"@, id) <= 1
    &&& forall|id: Seq<char>| #[trigger] record_count(items, "chat"@, id) <= 1
}

proof fn lemma_only_account(items: Seq<JsonView>)
    requires
        account_count(items) <= 1,
    ensures
        forall|k: int|
            0 <= k < items.len() && has_account(#[trigger] items[k]) ==> archive::account_of(items)
                == archive::account_described(items[k].object_member("account"@)->0),
        (forall|k: int| 0 <= k < items.len() ==> !has_account(#[trigger] items[k]))
            ==> archive::account_of(items) == "You"@,
    decreases items.len(),
{
    let holds = |item: JsonView| has_account(item);
    if items.len() > 0 {
        let rest = items.drop_last();
        lemma_only_account(rest);
        assert forall|k: int| 0 <= k < items.len() && has_account(#[trigger] items[k]) implies
            archive::account_of(items) == archive::account_described(
            items[k].object_member("account"@)->0,
        ) by {
            if k < items.len() - 1 {
                assert(rest[k] == items[k]);
                lemma_counted(rest, k, holds);
                assert(!has_account(items.last()));
            }
        }
        if forall|k: int| 0 <= k < items.len() ==> !has_account(#[trigger] items[k]) {
            assert(!has_account(items[items.len() - 1]));
            assert forall|k: int| 0 <= k < rest.len() implies !has_account(#[trigger] rest[k]) by {
                assert(rest[k] == items[k]);
            }
        }
    }
}

proof fn lemma_only_record(items: Seq<JsonView>, key: Seq<char>, id: Seq<char>)
    requires
        record_count(items, key, id) <= 1,
    ensures
        forall|k: int|
            0 <= k < items.len() && has_record(#[trigger] items[k], key, id)
                ==> archive::last_record(items, key, id) == items[k].object_member(key),
        (forall|k: int| 0 <= k < items.len() ==> !has_record(#[trigger] items[k], key, id))
            ==> archive::last_record(items, key, id) is None,
    decreases items.len(),
{
    let holds = |item: JsonView| has_record(item, key, id);
    if items.len() > 0 {
        let rest = items.drop_last();
        lemma_only_record(rest, key, id);
        assert forall|k: int|
            0 <= k < items.len() && has_record(#[trigger] items[k], key, id) implies
            archive::last_record(items, key, id) == items[k].object_member(key) by {
            if k < items.len() - 1 {
                assert(rest[k] == items[k]);
                lemma_counted(rest, k, holds);
                assert(!has_record(items.last(), key, id));
            }
        }
        if forall|k: int| 0 <= k < items.len() ==> !has_record(#[trigger] items[k], key, id) {
            assert(!has_record(items[items.len() - 1], key, id));
            assert forall|k: int| 0 <= k < rest.len() implies !has_record(
                #[trigger] rest[k],
                key,
                id,
            ) by {
                assert(rest[k] == items[k]);
            }
        }
    }
}

proof fn lemma_same_account(left: Seq<JsonView>, right: Seq<JsonView>)
    requires
        is_reordered(left, right),
        account_count(left) <= 1,
    ensures
        archive::account_of(left) == archive::account_of(right),
{
    let holds = |item: JsonView| has_account(item);
    lemma_same_members(left, right);
    lemma_same_count(left, right, holds);
    lemma_only_account(left);
    lemma_only_account(right);
    if exists|k: int| 0 <= k < left.len() && has_account(#[trigger] left[k]) {
        let k = choose|k: int| 0 <= k < left.len() && has_account(#[trigger] left[k]);
        assert(left.contains(left[k]));
        let j = choose|j: int| 0 <= j < right.len() && right[j] == left[k];
        assert(has_account(right[j]));
    } else {
        assert forall|j: int| 0 <= j < right.len() implies !has_account(#[trigger] right[j]) by {
            assert(left.contains(right[j]));
            let k = choose|k: int| 0 <= k < left.len() && left[k] == right[j];
            assert(!has_account(left[k]));
        }
    }
}

proof fn lemma_same_record(
    left: Seq<JsonView>,
    right: Seq<JsonView>,
    key: Seq<char>,
    id: Seq<char>,
)
    requires
        is_reordered(left, right),
        record_count(left, key, id) <= 1,
    ensures
        archive::last_record(left, key, id) == archive::last_record(right, key, id),
{
    let holds = |item: JsonView| has_record(item, key, id);
    lemma_same_members(left, right);
    lemma_same_count(left, right, holds);
    lemma_only_record(left, key, id);
    lemma_only_record(right, key, id);
    if exists|k: int| 0 <= k < left.len() && has_record(#[trigger] left[k], key, id) {
        let k = choose|k: int| 0 <= k < left.len() && has_record(#[trigger] left[k], key, id);
        assert(left.contains(left[k]));
        let j = choose|j: int| 0 <= j < right.len() && right[j] == left[k];
        assert(has_record(right[j], key, id));
    } else {
        assert forall|j: int| 0 <= j < right.len() implies !has_record(
            #[trigger] right[j],
            key,
            id,
        ) by {
            assert(left.contains(right[j]));
            let k = choose|k: int| 0 <= k < left.len() && left[k] == right[j];
            assert(!has_record(left[k], key, id));
        }
    }
}

// ---------------------------------------------------------------------------
// Messages
// ---------------------------------------------------------------------------

proof fn lemma_message_count(items: Seq<JsonView>, id: Seq<char>)
    ensures
        archive::messages_of(items, id).len() == how_many(
            items,
            |item: JsonView| archive::chat_of(item) == Some(id),
        ),
    decreases items.len(),
{
    if items.len() > 0 {
        lemma_message_count(items.drop_last(), id);
    }
}

spec fn is_message_at(items: Seq<JsonView>, place: int, id: Seq<char>, message: JsonView) -> bool {
    0 <= place < items.len() && archive::chat_of(items[place]) == Some(id)
        && items[place].object_member("chatItem"@)->0 == message
}

proof fn lemma_message_members(items: Seq<JsonView>, id: Seq<char>, message: JsonView)
    ensures
        archive::messages_of(items, id).contains(message) == exists|place: int| #[trigger]
            is_message_at(items, place, id, message),
    decreases items.len(),
{
    let all = archive::messages_of(items, id);
    if items.len() > 0 {
        let rest = items.drop_last();
        let before = archive::messages_of(rest, id);
        lemma_message_members(rest, id, message);
        if all.contains(message) {
            let k = choose|k: int| 0 <= k < all.len() && all[k] == message;
            if k < before.len() {
                assert(before[k] == message);
                assert(before.contains(message));
                let place = choose|place: int| #[trigger] is_message_at(rest, place, id, message);
                assert(is_message_at(items, place, id, message));
            } else {
                assert(is_message_at(items, items.len() - 1, id, message));
            }
        }
        if exists|place: int| #[trigger] is_message_at(items, place, id, message) {
            let place = choose|place: int| #[trigger] is_message_at(items, place, id, message);
            if place < items.len() - 1 {
                assert(is_message_at(rest, place, id, message));
                let k = choose|k: int| 0 <= k < before.len() && before[k] == message;
                assert(all[k] == message);
            } else {
                assert(all[all.len() - 1] == message);
            }
        }
    }
}

/// A chat has as many messages, and the same ones, wherever they stand.
proof fn lemma_same_messages(left: Seq<JsonView>, right: Seq<JsonView>, id: Seq<char>)
    requires
        is_reordered(left, right),
    ensures
        archive::messages_of(left, id).len() == archive::messages_of(right, id).len(),
        forall|message: JsonView| #[trigger]
            archive::messages_of(left, id).contains(message) == archive::messages_of(
                right,
                id,
            ).contains(message),
{
    lemma_same_members(left, right);
    lemma_same_count(left, right, |item: JsonView| archive::chat_of(item) == Some(id));
    lemma_message_count(left, id);
    lemma_message_count(right, id);
    assert forall|message: JsonView| #[trigger]
        archive::messages_of(left, id).contains(message) == archive::messages_of(
            right,
            id,
        ).contains(message) by {
        lemma_message_members(left, id, message);
        lemma_message_members(right, id, message);
        if exists|place: int| #[trigger] is_message_at(left, place, id, message) {
            let place = choose|place: int| #[trigger] is_message_at(left, place, id, message);
            assert(left.contains(left[place]));
            let other = choose|j: int| 0 <= j < right.len() && right[j] == left[place];
            assert(is_message_at(right, other, id, message));
        }
        if exists|place: int| #[trigger] is_message_at(right, place, id, message) {
            let place = choose|place: int| #[trigger] is_message_at(right, place, id, message);
            assert(left.contains(right[place]));
            let other = choose|j: int| 0 <= j < left.len() && left[j] == right[place];
            assert(is_message_at(left, other, id, message));
        }
    }
}

spec fn writes(message: JsonView, author: Seq<char>) -> bool {
    parser::id_member(message, "authorId"@) == Some(author)
}

proof fn lemma_authors(messages: Seq<JsonView>, author: Seq<char>)
    ensures
        archive::authors_of(messages).contains(author) == exists|k: int|
            0 <= k < messages.len() && writes(#[trigger] messages[k], author),
    decreases messages.len(),
{
    if messages.len() > 0 {
        let rest = messages.drop_last();
        lemma_authors(rest, author);
        if exists|k: int| 0 <= k < rest.len() && writes(#[trigger] rest[k], author) {
            let k = choose|k: int| 0 <= k < rest.len() && writes(#[trigger] rest[k], author);
            assert(writes(messages[k], author));
        }
        if exists|k: int| 0 <= k < messages.len() && writes(#[trigger] messages[k], author) {
            let k = choose|k: int|
                0 <= k < messages.len() && writes(#[trigger] messages[k], author);
            if k < rest.len() {
                assert(writes(rest[k], author));
            }
        }
        if writes(messages.last(), author) {
            assert(writes(messages[messages.len() - 1], author));
        }
    }
}

/// What messages have in common does not depend on their order.
proof fn lemma_same_stats(left: Seq<JsonView>, right: Seq<JsonView>)
    requires
        left.len() == right.len(),
        forall|message: JsonView| #[trigger] left.contains(message) == right.contains(message),
    ensures
        archive::earliest(left) == archive::earliest(right),
        archive::latest(left) == archive::latest(right),
        archive::authors_of(left) == archive::authors_of(right),
        left.len() == 1 ==> left[0] == right[0],
{
    archive::timestamps_lie_between_first_and_last(left);
    archive::timestamps_lie_between_first_and_last(right);
    assert forall|k: int| 0 <= k < left.len() implies exists|j: int|
        0 <= j < right.len() && #[trigger] right[j] == #[trigger] left[k] by {
        assert(left.contains(left[k]));
        assert(right.contains(left[k]));
    }
    assert forall|k: int| 0 <= k < right.len() implies exists|j: int|
        0 <= j < left.len() && #[trigger] left[j] == #[trigger] right[k] by {
        assert(right.contains(right[k]));
        assert(left.contains(right[k]));
    }
    assert(archive::authors_of(left) =~= archive::authors_of(right)) by {
        assert forall|author: Seq<char>| #[trigger]
            archive::authors_of(left).contains(author) == archive::authors_of(right).contains(
                author,
            ) by {
            lemma_authors(left, author);
            lemma_authors(right, author);
        }
    }
}

// ---------------------------------------------------------------------------
// Lines
// ---------------------------------------------------------------------------

/// The lines that are not blank, in order.
pub open spec fn written_lines(lines: Seq<Seq<char>>) -> Seq<Seq<char>>
    decreases lines.len(),
{
    if lines.len() == 0 {
        Seq::empty()
    } else if archive::line_view(lines.last()) is Blank {
        written_lines(lines.drop_last())
    } else {
        written_lines(lines.drop_last()).push(lines.last())
    }
}

proof fn lemma_written_items(lines: Seq<Seq<char>>)
    ensures
        archive::items_of(written_lines(lines)) == archive::items_of(lines),
    decreases lines.len(),
{
    if lines.len() > 0 {
        lemma_written_items(lines.drop_last());
        let before = written_lines(lines.drop_last());
        if !(archive::line_view(lines.last()) is Blank) {
            assert(before.push(lines.last()).drop_last() =~= before);
        }
    }
}

proof fn lemma_written_members(lines: Seq<Seq<char>>, line: Seq<char>)
    ensures
        written_lines(lines).contains(line) == (lines.contains(line) && !(archive::line_view(
            line,
        ) is Blank)),
    decreases lines.len(),
{
    let all = written_lines(lines);
    if lines.len() > 0 {
        let rest = lines.drop_last();
        let before = written_lines(rest);
        lemma_written_members(rest, line);
        if all.contains(line) {
            let k = choose|k: int| 0 <= k < all.len() && all[k] == line;
            if k < before.len() {
                assert(before[k] == line);
                assert(before.contains(line));
                let j = choose|j: int| 0 <= j < rest.len() && rest[j] == line;
                assert(lines[j] == line);
            } else {
                assert(lines[lines.len() - 1] == line);
            }
        }
        if lines.contains(line) && !(archive::line_view(line) is Blank) {
            let k = choose|k: int| 0 <= k < lines.len() && lines[k] == line;
            if k < rest.len() {
                assert(rest[k] == line);
                assert(before.contains(line));
                let j = choose|j: int| 0 <= j < before.len() && before[j] == line;
                assert(all[j] == line);
            } else {
                assert(all[all.len() - 1] == line);
            }
        }
    }
}

proof fn lemma_items_without(lines: Seq<Seq<char>>, place: int)
    requires
        0 <= place < lines.len(),
    ensures
        ({
            let others = archive::items_of(lines.remove(place)).to_multiset();
            archive::items_of(lines).to_multiset() == match archive::line_view(lines[place]) {
                archive::LineView::Item(item) => others.insert(item),
                _ => others,
            }
        }),
    decreases lines.len(),
{
    broadcast use vstd::seq_lib::group_to_multiset_ensures;

    if place == lines.len() - 1 {
        assert(lines.remove(place) =~= lines.drop_last());
    } else {
        let shorter = lines.drop_last();
        lemma_items_without(shorter, place);
        let others = archive::items_of(shorter.remove(place));
        assert(lines.remove(place).drop_last() =~= shorter.remove(place));
        assert(lines.remove(place).last() == lines.last());
        if let archive::LineView::Item(last) = archive::line_view(lines.last()) {
            assert(archive::items_of(lines) == archive::items_of(shorter).push(last));
            assert(archive::items_of(lines.remove(place)) == others.push(last));
            if let archive::LineView::Item(item) = archive::line_view(lines[place]) {
                assert(others.to_multiset().insert(item).insert(last)
                    =~= others.to_multiset().insert(last).insert(item));
            }
        }
    }
}

/// Lines in another order hold their items in another order.
proof fn lemma_same_items(left: Seq<Seq<char>>, right: Seq<Seq<char>>)
    requires
        is_reordered(left, right),
    ensures
        is_reordered(archive::items_of(left), archive::items_of(right)),
    decreases left.len(),
{
    lemma_same_members(left, right);
    if left.len() > 0 {
        let place = lemma_take_out(left, right);
        lemma_same_items(left.drop_last(), right.remove(place));
        lemma_items_without(right, place);
        lemma_items_without(left, left.len() - 1);
        assert(left.remove(left.len() - 1) =~= left.drop_last());
    }
}

/// Where a line cannot be indexed, one is the first that cannot.
proof fn lemma_first_fault(lines: Seq<Seq<char>>, place: int)
    requires
        0 <= place < lines.len(),
        !archive::line_is_sound(lines[place]),
    ensures
        exists|k: int| #[trigger] archive::is_first_fault(lines, k),
    decreases place,
{
    if exists|j: int| 0 <= j < place && !archive::line_is_sound(#[trigger] lines[j]) {
        let j = choose|j: int| 0 <= j < place && !archive::line_is_sound(#[trigger] lines[j]);
        lemma_first_fault(lines, j);
    } else {
        assert(archive::is_first_fault(lines, place));
    }
}

// ---------------------------------------------------------------------------
// Laws
// ---------------------------------------------------------------------------

/// The order of the items of an archive says nothing, where it says everything
/// once: the account, every recipient and every chat are the same, so that the
/// recipient that is the account has its name even where the account comes later.
pub proof fn the_order_of_the_items_says_nothing(
    left: Seq<JsonView>,
    right: Seq<JsonView>,
    id: Seq<char>,
)
    requires
        is_reordered(left, right),
        is_unambiguous(left),
    ensures
        archive::account_of(left) == archive::account_of(right),
        archive::recipient_of(left, id) == archive::recipient_of(right, id),
        archive::conversation_of(left, id) == archive::conversation_of(right, id),
{
    lemma_same_account(left, right);
    assert(record_count(left, "recipient"@, id) <= 1);
    lemma_same_record(left, right, "recipient"@, id);
    assert(record_count(left, "chat"@, id) <= 1);
    lemma_same_record(left, right, "chat"@, id);
    let partner = archive::chat_recipient_id(left, id);
    assert(record_count(left, "recipient"@, partner) <= 1);
    lemma_same_record(left, right, "recipient"@, partner);
    lemma_same_messages(left, right, id);
    lemma_same_stats(archive::messages_of(left, id), archive::messages_of(right, id));
}

/// The order of the lines of an archive says nothing, where it says everything
/// once, nor do blank lines: where one order gives an index, the other gives one
/// that says the same.
pub proof fn the_order_of_the_lines_says_nothing(
    left: Seq<Seq<char>>,
    right: Seq<Seq<char>>,
    file: Seq<char>,
    root: Seq<char>,
    index: ArchiveIndex,
    result: Result<ArchiveIndex, AppError>,
)
    requires
        is_reordered(written_lines(left), written_lines(right)),
        is_unambiguous(archive::items_of(left)),
        archive::is_archive_result(left, file, root, Ok(index)),
        archive::is_archive_result(right, file, root, result),
    ensures
        result matches Ok(other) && other.account_name@ == index.account_name@ && (forall|
            id: Seq<char>,
        | #[trigger] other.recipient(id) == index.recipient(id)) && (forall|id: Seq<char>|
            #[trigger] other.conversation(id) == index.conversation(id)),
{
    let items = archive::items_of(left);
    let others = archive::items_of(right);
    lemma_same_members(written_lines(left), written_lines(right));
    lemma_same_items(written_lines(left), written_lines(right));
    lemma_written_items(left);
    lemma_written_items(right);
    assert forall|j: int| 0 <= j < left.len() implies archive::line_is_sound(
        #[trigger] left[j],
    ) by {
        if !archive::line_is_sound(left[j]) {
            lemma_first_fault(left, j);
        }
    }
    assert forall|j: int| 0 <= j < right.len() implies archive::line_is_sound(
        #[trigger] right[j],
    ) by {
        if !(archive::line_view(right[j]) is Blank) {
            lemma_written_members(right, right[j]);
            lemma_written_members(left, right[j]);
            assert(right.contains(right[j]));
            assert(written_lines(left).contains(right[j]));
            let k = choose|k: int| 0 <= k < left.len() && left[k] == right[j];
            assert(archive::line_is_sound(left[k]));
        }
    }
    lemma_same_members(items, others);
    assert(archive::header_seen(others)) by {
        let k = choose|k: int| 0 <= k < items.len() && archive::is_header(#[trigger] items[k]);
        assert(items.contains(items[k]));
        let j = choose|j: int| 0 <= j < others.len() && others[j] == items[k];
        assert(archive::is_header(others[j]));
    }
    let known = choose|id: Seq<char>| #[trigger] archive::is_chat(items, id);
    the_order_of_the_items_says_nothing(items, others, known);
    assert(archive::conversation_of(items, known) is Some);
    assert(archive::is_chat(others, known));
    let other = result->Ok_0;
    assert forall|id: Seq<char>| #[trigger] other.recipient(id) == index.recipient(id) by {
        the_order_of_the_items_says_nothing(items, others, id);
    }
    assert forall|id: Seq<char>| #[trigger] other.conversation(id) == index.conversation(id) by {
        the_order_of_the_items_says_nothing(items, others, id);
    }
}

} // verus!
