//! The index of an archive, gathered line by line.

use vstd::prelude::*;

use crate::calendar::{self, timestamp_to_local};
use crate::error::AppError;
use crate::json::{self, parse_json, Json, JsonView};
use crate::model::{self, find_recipient, ArchiveIndex, Conversation, Recipient};
use crate::model::{ConversationView, RecipientView};
use crate::parser::{self, chat_item_timestamp_ms, is_technical_update, joined_name};
use crate::parser::{locate_main_jsonl, member_id, recipient_from_raw, SourceKind};
use crate::text::{self, contains_text, join2, same_text};
use crate::words::{self, is_blank_line};

verus! {

// ---------------------------------------------------------------------------
// Lines
// ---------------------------------------------------------------------------

/// What a line of an archive holds.
pub enum LineView {
    Blank,
    Item(JsonView),
    NotJson,
    NotObject,
}

pub open spec fn line_view(line: Seq<char>) -> LineView {
    if words::all_blank(line) {
        LineView::Blank
    } else {
        match json::json_read(line) {
            None => LineView::NotJson,
            Some(JsonView::Object(members)) => LineView::Item(JsonView::Object(members)),
            Some(_) => LineView::NotObject,
        }
    }
}

/// The object on a line; nothing for a blank line.
pub fn read_line(line_number: u64, line: &str) -> (result: Result<Option<Json>, AppError>)
    ensures
        match result {
            Ok(None) => line_view(line@) is Blank,
            Ok(Some(item)) => line_view(line@) == LineView::Item(item@),
            Err(AppError::InvalidJson { line: number, .. }) => line_view(line@) is NotJson
                && number == line_number,
            Err(AppError::NonObjectLine { line: number }) => line_view(line@) is NotObject
                && number == line_number,
            Err(_) => false,
        },
{
    if is_blank_line(line) {
        return Ok(None);
    }
    match parse_json(line) {
        Ok(item) => if item.is_object() {
            Ok(Some(item))
        } else {
            Err(AppError::NonObjectLine { line: line_number })
        },
        Err(source) => Err(AppError::InvalidJson { line: line_number, source }),
    }
}

/// What is wrong with a message.
pub enum ItemFault {
    NoChatId,
    BadDate,
}

/// The first thing that is wrong with an item, if anything is.
pub open spec fn item_fault(item: JsonView) -> Option<ItemFault> {
    match item.object_member("chatItem"@) {
        None => None,
        Some(message) => if parser::id_member(message, "chatId"@) is None {
            Some(ItemFault::NoChatId)
        } else {
            match parser::sent_at(message) {
                Some(sent) => if calendar::has_local_time(sent) {
                    None
                } else {
                    Some(ItemFault::BadDate)
                },
                None => Some(ItemFault::BadDate),
            }
        },
    }
}

/// A line that can be indexed.
pub open spec fn line_is_sound(line: Seq<char>) -> bool {
    match line_view(line) {
        LineView::Blank => true,
        LineView::Item(item) => item_fault(item) is None,
        _ => false,
    }
}

/// The error that a line gives, with the line's number.
pub open spec fn is_line_error(line: Seq<char>, number: int, error: AppError) -> bool {
    match line_view(line) {
        LineView::Blank => false,
        LineView::NotJson => error matches AppError::InvalidJson { line: told, .. } && told
            == number,
        LineView::NotObject => error matches AppError::NonObjectLine { line: told } && told
            == number,
        LineView::Item(item) => match item_fault(item) {
            None => false,
            Some(ItemFault::NoChatId) => error matches AppError::MissingChatId { line: told }
                && told == number,
            Some(ItemFault::BadDate) => error matches AppError::InvalidDateSent { line: told }
                && told == number,
        },
    }
}

/// The items of an archive, in order.
pub open spec fn items_of(lines: Seq<Seq<char>>) -> Seq<JsonView>
    decreases lines.len(),
{
    if lines.len() == 0 {
        Seq::empty()
    } else {
        match line_view(lines.last()) {
            LineView::Item(item) => items_of(lines.drop_last()).push(item),
            _ => items_of(lines.drop_last()),
        }
    }
}

/// The number of the last line that is not blank, counted from one; zero where
/// all are.
pub open spec fn last_item_line(lines: Seq<Seq<char>>) -> int
    decreases lines.len(),
{
    if lines.len() == 0 {
        0
    } else if line_view(lines.last()) is Blank {
        last_item_line(lines.drop_last())
    } else {
        lines.len() as int
    }
}

// ---------------------------------------------------------------------------
// What the items of an archive say
// ---------------------------------------------------------------------------

/// The item that starts an archive.
pub open spec fn is_header(item: JsonView) -> bool {
    item.has("version"@) && item.has("backupTimeMs"@)
}

pub open spec fn header_seen(items: Seq<JsonView>) -> bool {
    exists|i: int| 0 <= i < items.len() && is_header(#[trigger] items[i])
}

/// The name in an account record.
pub open spec fn account_described(account: JsonView) -> Seq<char> {
    parser::or_else(parser::name_in(account, "givenName"@, "familyName"@), "You"@)
}

/// The name of the account, by the last record that describes it.
pub open spec fn account_of(items: Seq<JsonView>) -> Seq<char>
    decreases items.len(),
{
    if items.len() == 0 {
        "You"@
    } else {
        match items.last().object_member("account"@) {
            Some(account) => account_described(account),
            None => account_of(items.drop_last()),
        }
    }
}

/// The id of the record that an item holds under a key.
pub open spec fn record_id(item: JsonView, key: Seq<char>) -> Option<Seq<char>> {
    match item.object_member(key) {
        Some(record) => parser::id_member(record, "id"@),
        None => None,
    }
}

/// The last record under a key that has an id.
pub open spec fn last_record(items: Seq<JsonView>, key: Seq<char>, id: Seq<char>) -> Option<
    JsonView,
>
    decreases items.len(),
{
    if items.len() == 0 {
        None
    } else if record_id(items.last(), key) == Some(id) {
        items.last().object_member(key)
    } else {
        last_record(items.drop_last(), key, id)
    }
}

/// The chat that an item belongs to, where it is a message.
pub open spec fn chat_of(item: JsonView) -> Option<Seq<char>> {
    match item.object_member("chatItem"@) {
        Some(message) => parser::id_member(message, "chatId"@),
        None => None,
    }
}

/// The messages of a chat, in order.
pub open spec fn messages_of(items: Seq<JsonView>, id: Seq<char>) -> Seq<JsonView>
    decreases items.len(),
{
    if items.len() == 0 {
        Seq::empty()
    } else if chat_of(items.last()) == Some(id) {
        messages_of(items.drop_last(), id).push(items.last().object_member("chatItem"@)->0)
    } else {
        messages_of(items.drop_last(), id)
    }
}

/// When a message was sent; zero where it does not say.
pub open spec fn sent_ms(message: JsonView) -> i64 {
    parser::sent_at(message)->0 as i64
}

/// The least timestamp of the messages that have one.
pub open spec fn earliest(messages: Seq<JsonView>) -> Option<i64>
    decreases messages.len(),
{
    if messages.len() == 0 {
        None
    } else {
        let before = earliest(messages.drop_last());
        let sent = sent_ms(messages.last());
        if sent == 0 || (before is Some && before->0 <= sent) {
            before
        } else {
            Some(sent)
        }
    }
}

/// The greatest timestamp of the messages that have one.
pub open spec fn latest(messages: Seq<JsonView>) -> Option<i64>
    decreases messages.len(),
{
    if messages.len() == 0 {
        None
    } else {
        let before = latest(messages.drop_last());
        let sent = sent_ms(messages.last());
        if sent == 0 || (before is Some && before->0 >= sent) {
            before
        } else {
            Some(sent)
        }
    }
}

/// Who wrote the messages.
pub open spec fn authors_of(messages: Seq<JsonView>) -> Set<Seq<char>>
    decreases messages.len(),
{
    if messages.len() == 0 {
        Set::empty()
    } else {
        match parser::id_member(messages.last(), "authorId"@) {
            Some(author) => authors_of(messages.drop_last()).insert(author),
            None => authors_of(messages.drop_last()),
        }
    }
}

/// How many of the messages only report a change of the chat itself.
pub open spec fn update_count(messages: Seq<JsonView>) -> int
    decreases messages.len(),
{
    if messages.len() == 0 {
        0
    } else if parser::is_update(messages.last()) {
        update_count(messages.drop_last()) + 1
    } else {
        update_count(messages.drop_last())
    }
}

/// The recipient with an id.
pub open spec fn recipient_of(items: Seq<JsonView>, id: Seq<char>) -> Option<RecipientView> {
    match last_record(items, "recipient"@, id) {
        Some(record) => Some(parser::recipient_described(id, record, account_of(items))),
        None => None,
    }
}

/// The recipient that a chat is with; empty where the archive does not say.
pub open spec fn chat_recipient_id(items: Seq<JsonView>, id: Seq<char>) -> Seq<char> {
    match last_record(items, "chat"@, id) {
        Some(chat) => match parser::id_member(chat, "recipientId"@) {
            Some(recipient_id) => recipient_id,
            None => Seq::empty(),
        },
        None => Seq::empty(),
    }
}

/// An id belongs to a chat where a record or a message of the archive says so.
pub open spec fn is_chat(items: Seq<JsonView>, id: Seq<char>) -> bool {
    last_record(items, "chat"@, id) is Some || messages_of(items, id).len() > 0
}

/// The chat with an id, and what its messages have in common.
pub open spec fn conversation_described(items: Seq<JsonView>, id: Seq<char>) -> ConversationView {
    let recipient_id = chat_recipient_id(items, id);
    let recipient = recipient_of(items, recipient_id);
    let messages = messages_of(items, id);
    ConversationView {
        id,
        recipient_id,
        name: match recipient {
            Some(known) => known.name,
            None => "Unknown chat "@ + id,
        },
        kind: match recipient {
            Some(known) => known.kind,
            None => "unknown"@,
        },
        message_count: messages.len() as u64,
        is_technical_update_only: messages.len() == 1 && parser::is_update(messages[0]),
        first_timestamp_ms: earliest(messages),
        last_timestamp_ms: latest(messages),
        author_ids: authors_of(messages),
    }
}

/// The chat with an id, where there is one.
pub open spec fn conversation_of(items: Seq<JsonView>, id: Seq<char>) -> Option<ConversationView> {
    if is_chat(items, id) {
        Some(conversation_described(items, id))
    } else {
        None
    }
}

/// The index says of every recipient and of every chat what the items say.
pub open spec fn describes_items(index: ArchiveIndex, items: Seq<JsonView>) -> bool {
    &&& index.is_well_formed()
    &&& index.account_name@ == account_of(items)
    &&& forall|id: Seq<char>| #[trigger] index.recipient(id) == recipient_of(items, id)
    &&& forall|id: Seq<char>| #[trigger] index.conversation(id) == conversation_of(items, id)
}

// ---------------------------------------------------------------------------
// The builder
// ---------------------------------------------------------------------------

/// The last record with an id.
struct Record {
    id: String,
    raw: Json,
}

/// What the messages of a chat have in common.
struct ChatStats {
    id: String,
    count: u64,
    update_count: u64,
    first_ms: Option<i64>,
    last_ms: Option<i64>,
    authors: Vec<String>,
}

/// An index that is being gathered.
pub struct ArchiveBuilder {
    recipients: Vec<Record>,
    chats: Vec<Record>,
    stats: Vec<ChatStats>,
    account_name: String,
    saw_header: bool,
    total_lines: u64,
    lines_read: u64,
    items: Ghost<Seq<JsonView>>,
}

spec fn record_ids(records: Seq<Record>) -> Seq<Seq<char>> {
    records.map_values(|record: Record| record.id@)
}

spec fn stats_ids(stats: Seq<ChatStats>) -> Seq<Seq<char>> {
    stats.map_values(|chat: ChatStats| chat.id@)
}

/// The records are the last ones under a key, one for each id.
spec fn records_match(records: Seq<Record>, items: Seq<JsonView>, key: Seq<char>) -> bool {
    &&& record_ids(records).no_duplicates()
    &&& forall|i: int|
        0 <= i < records.len() ==> last_record(items, key, (#[trigger] records[i]).id@) == Some(
            records[i].raw@,
        )
    &&& forall|id: Seq<char>|
        (#[trigger] last_record(items, key, id)) is Some ==> record_ids(records).contains(id)
}

impl ChatStats {
    spec fn describes(&self, messages: Seq<JsonView>) -> bool {
        &&& messages.len() > 0
        &&& self.count == messages.len()
        &&& self.update_count == update_count(messages)
        &&& self.first_ms == earliest(messages)
        &&& self.last_ms == latest(messages)
        &&& text::texts(self.authors@).no_duplicates()
        &&& text::texts(self.authors@).to_set() == authors_of(messages)
    }
}

/// There is one summary for each chat with messages.
spec fn stats_match(stats: Seq<ChatStats>, items: Seq<JsonView>) -> bool {
    &&& stats_ids(stats).no_duplicates()
    &&& forall|i: int|
        0 <= i < stats.len() ==> (#[trigger] stats[i]).describes(
            messages_of(items, stats[i].id@),
        )
    &&& forall|id: Seq<char>|
        (#[trigger] messages_of(items, id)).len() > 0 ==> stats_ids(stats).contains(id)
}

impl ArchiveBuilder {
    /// The items that were added.
    pub closed spec fn items(&self) -> Seq<JsonView> {
        self.items@
    }

    /// How many lines were added, blank ones too.
    pub closed spec fn lines_read(&self) -> int {
        self.lines_read as int
    }

    /// The number of the last line that was not blank.
    pub closed spec fn total_lines(&self) -> int {
        self.total_lines as int
    }

    /// The parts of the builder say what the items say.
    pub closed spec fn is_well_formed(&self) -> bool {
        &&& records_match(self.recipients@, self.items@, "recipient"@)
        &&& records_match(self.chats@, self.items@, "chat"@)
        &&& stats_match(self.stats@, self.items@)
        &&& self.account_name@ == account_of(self.items@)
        &&& self.saw_header == header_seen(self.items@)
        &&& self.items@.len() <= self.lines_read
        &&& self.total_lines <= self.lines_read
    }
}

proof fn lemma_update_count(messages: Seq<JsonView>)
    ensures
        0 <= update_count(messages) <= messages.len(),
    decreases messages.len(),
{
    if messages.len() > 0 {
        lemma_update_count(messages.drop_last());
    }
}

proof fn lemma_messages_of(items: Seq<JsonView>, id: Seq<char>)
    ensures
        messages_of(items, id).len() <= items.len(),
    decreases items.len(),
{
    if items.len() > 0 {
        lemma_messages_of(items.drop_last(), id);
    }
}

fn find_record(records: &Vec<Record>, id: &str) -> (found: Option<usize>)
    ensures
        match found {
            Some(i) => i < records@.len() && records@[i as int].id@ == id@,
            None => !record_ids(records@).contains(id@),
        },
{
    let mut i: usize = 0;
    while i < records.len()
        invariant
            i <= records@.len(),
            forall|j: int| 0 <= j < i ==> (#[trigger] records@[j]).id@ != id@,
        decreases records@.len() - i,
    {
        if same_text(records[i].id.as_str(), id) {
            return Some(i);
        }
        i = i + 1;
    }
    assert forall|j: int| 0 <= j < record_ids(records@).len() implies #[trigger] record_ids(
        records@,
    )[j] != id@ by {
        assert(records@[j].id@ != id@);
    }
    None
}

fn find_stats(stats: &Vec<ChatStats>, id: &str) -> (found: Option<usize>)
    ensures
        match found {
            Some(i) => i < stats@.len() && stats@[i as int].id@ == id@,
            None => !stats_ids(stats@).contains(id@),
        },
{
    let mut i: usize = 0;
    while i < stats.len()
        invariant
            i <= stats@.len(),
            forall|j: int| 0 <= j < i ==> (#[trigger] stats@[j]).id@ != id@,
        decreases stats@.len() - i,
    {
        if same_text(stats[i].id.as_str(), id) {
            return Some(i);
        }
        i = i + 1;
    }
    assert forall|j: int| 0 <= j < stats_ids(stats@).len() implies #[trigger] stats_ids(
        stats@,
    )[j] != id@ by {
        assert(stats@[j].id@ != id@);
    }
    None
}

/// Puts the record that an item holds under a key in the place of an earlier one
/// with its id.
fn add_record(records: &mut Vec<Record>, item: &Json, key: &str, Ghost(items): Ghost<Seq<JsonView>>)
    requires
        records_match(old(records)@, items, key@),
    ensures
        records_match(final(records)@, items.push(item@), key@),
{
    let ghost more = items.push(item@);
    let ghost before = records@;
    assert(more.drop_last() =~= items);
    let record = match item.object_member(key) {
        Some(record) => record,
        None => {
            assert(forall|id: Seq<char>| #[trigger]
                last_record(more, key@, id) == last_record(items, key@, id));
            return ;
        },
    };
    let id = match member_id(record, "id") {
        Some(id) => id,
        None => {
            assert(forall|id: Seq<char>| #[trigger]
                last_record(more, key@, id) == last_record(items, key@, id));
            return ;
        },
    };
    let ghost id_text = id@;
    assert(last_record(more, key@, id_text) == Some(record@));
    assert(forall|other: Seq<char>|
        other != id_text ==> #[trigger] last_record(more, key@, other) == last_record(
            items,
            key@,
            other,
        ));
    match find_record(records, id.as_str()) {
        Some(i) => {
            records.set(i, Record { id, raw: record.duplicate() });
            assert(record_ids(records@) =~= record_ids(before));
            assert forall|j: int| 0 <= j < records@.len() implies last_record(
                more,
                key@,
                (#[trigger] records@[j]).id@,
            ) == Some(records@[j].raw@) by {
                if j != i {
                    assert(record_ids(before)[j] != record_ids(before)[i as int]);
                    assert(before[j] == records@[j]);
                }
            }
        },
        None => {
            records.push(Record { id, raw: record.duplicate() });
            assert(record_ids(records@) =~= record_ids(before).push(id_text));
            assert forall|j: int| 0 <= j < records@.len() implies last_record(
                more,
                key@,
                (#[trigger] records@[j]).id@,
            ) == Some(records@[j].raw@) by {
                if j < before.len() {
                    assert(before[j] == records@[j]);
                    assert(record_ids(before)[j] != id_text);
                }
            }
            assert forall|other: Seq<char>| (#[trigger] last_record(more, key@, other)) is Some
                implies record_ids(records@).contains(other) by {
                if other == id_text {
                    assert(record_ids(records@)[before.len() as int] == id_text);
                } else {
                    assert(record_ids(before).contains(other));
                    let k = choose|k: int|
                        0 <= k < record_ids(before).len() && record_ids(before)[k] == other;
                    assert(record_ids(records@)[k] == other);
                }
            }
        },
    }
}

impl ChatStats {
    fn start(id: String) -> (stats: ChatStats)
        ensures
            stats.id == id,
            stats.count == 0,
            stats.update_count == 0,
            stats.first_ms is None,
            stats.last_ms is None,
            stats.authors@.len() == 0,
    {
        ChatStats {
            id,
            count: 0,
            update_count: 0,
            first_ms: None,
            last_ms: None,
            authors: Vec::new(),
        }
    }

    /// One more message.
    fn count_message(
        &mut self,
        message: &Json,
        timestamp_ms: i64,
        Ghost(messages): Ghost<Seq<JsonView>>,
    )
        requires
            old(self).count == messages.len(),
            old(self).count < u64::MAX,
            old(self).update_count == update_count(messages),
            old(self).first_ms == earliest(messages),
            old(self).last_ms == latest(messages),
            text::texts(old(self).authors@).no_duplicates(),
            text::texts(old(self).authors@).to_set() == authors_of(messages),
            parser::sent_at(message@) == Some(timestamp_ms as int),
        ensures
            final(self).id == old(self).id,
            final(self).describes(messages.push(message@)),
    {
        let ghost more = messages.push(message@);
        assert(more.drop_last() =~= messages);
        proof {
            lemma_update_count(messages);
        }
        self.count = self.count + 1;
        if is_technical_update(message) {
            self.update_count = self.update_count + 1;
        }
        if timestamp_ms != 0 {
            self.first_ms = match self.first_ms {
                Some(known) => if known <= timestamp_ms {
                    Some(known)
                } else {
                    Some(timestamp_ms)
                },
                None => Some(timestamp_ms),
            };
            self.last_ms = match self.last_ms {
                Some(known) => if known >= timestamp_ms {
                    Some(known)
                } else {
                    Some(timestamp_ms)
                },
                None => Some(timestamp_ms),
            };
        }
        if let Some(author) = member_id(message, "authorId") {
            let ghost before = text::texts(self.authors@);
            if contains_text(&self.authors, author.as_str()) {
                assert(before.contains(author@)) by {
                    let k = choose|k: int|
                        0 <= k < self.authors@.len() && #[trigger] self.authors@[k]@ == author@;
                    assert(before[k] == author@);
                }
                assert(before.to_set().insert(author@) =~= before.to_set());
            } else {
                assert(!before.contains(author@)) by {
                    assert forall|k: int| 0 <= k < before.len() implies #[trigger] before[k]
                        != author@ by {
                        assert(before[k] == self.authors@[k]@);
                    }
                }
                let ghost name = author@;
                self.authors.push(author);
                let ghost after = text::texts(self.authors@);
                assert(after =~= before.push(name));
                proof {
                    lemma_pushed_set(before, name);
                }
            }
        }
    }
}

proof fn lemma_pushed_set(before: Seq<Seq<char>>, name: Seq<char>)
    ensures
        before.push(name).to_set() == before.to_set().insert(name),
        before.no_duplicates() && !before.contains(name) ==> before.push(name).no_duplicates(),
{
    let after = before.push(name);
    assert forall|other: Seq<char>| after.contains(other) implies before.contains(other) || other
        == name by {}
    assert forall|other: Seq<char>| before.contains(other) || other == name implies after.contains(
        other,
    ) by {
        if before.contains(other) {
            let k = choose|k: int| 0 <= k < before.len() && before[k] == other;
            assert(after[k] == other);
        } else {
            assert(after[before.len() as int] == name);
        }
    }
    assert(after.to_set() =~= before.to_set().insert(name));
}

/// Counts the message of an item in the summary of its chat.
fn add_message(
    stats: &mut Vec<ChatStats>,
    item: &Json,
    message: &Json,
    id: String,
    timestamp_ms: i64,
    Ghost(items): Ghost<Seq<JsonView>>,
)
    requires
        stats_match(old(stats)@, items),
        items.len() < u64::MAX,
        item@.object_member("chatItem"@) == Some(message@),
        parser::id_member(message@, "chatId"@) == Some(id@),
        parser::sent_at(message@) == Some(timestamp_ms as int),
    ensures
        stats_match(final(stats)@, items.push(item@)),
{
    let ghost more = items.push(item@);
    let ghost before = stats@;
    let ghost id_text = id@;
    let ghost messages = messages_of(items, id_text);
    assert(more.drop_last() =~= items);
    assert(messages_of(more, id_text) == messages.push(message@));
    assert(forall|other: Seq<char>|
        other != id_text ==> #[trigger] messages_of(more, other) == messages_of(items, other));
    proof {
        lemma_messages_of(items, id_text);
    }
    match find_stats(stats, id.as_str()) {
        Some(i) => {
            stats[i].count_message(message, timestamp_ms, Ghost(messages));
            assert(stats_ids(stats@) =~= stats_ids(before));
            assert forall|j: int| 0 <= j < stats@.len() implies (#[trigger] stats@[j]).describes(
                messages_of(more, stats@[j].id@),
            ) by {
                if j != i {
                    assert(stats_ids(before)[j] != stats_ids(before)[i as int]);
                    assert(before[j] == stats@[j]);
                }
            }
        },
        None => {
            let mut chat = ChatStats::start(id);
            assert(messages.len() == 0);
            assert(text::texts(chat.authors@).to_set() =~= authors_of(messages));
            chat.count_message(message, timestamp_ms, Ghost(messages));
            stats.push(chat);
            assert(stats_ids(stats@) =~= stats_ids(before).push(id_text));
            assert forall|j: int| 0 <= j < stats@.len() implies (#[trigger] stats@[j]).describes(
                messages_of(more, stats@[j].id@),
            ) by {
                if j < before.len() {
                    assert(before[j] == stats@[j]);
                    assert(stats_ids(before)[j] != id_text);
                }
            }
            assert forall|other: Seq<char>| (#[trigger] messages_of(more, other)).len() > 0
                implies stats_ids(stats@).contains(other) by {
                if other == id_text {
                    assert(stats_ids(stats@)[before.len() as int] == id_text);
                } else {
                    assert(stats_ids(before).contains(other));
                    let k = choose|k: int|
                        0 <= k < stats_ids(before).len() && stats_ids(before)[k] == other;
                    assert(stats_ids(stats@)[k] == other);
                }
            }
        },
    }
}

impl ArchiveBuilder {
    /// A builder that has seen nothing.
    pub fn new() -> (builder: ArchiveBuilder)
        ensures
            builder.is_well_formed(),
            builder.items() == Seq::<JsonView>::empty(),
            builder.lines_read() == 0,
            builder.total_lines() == 0,
    {
        ArchiveBuilder {
            recipients: Vec::new(),
            chats: Vec::new(),
            stats: Vec::new(),
            account_name: "You".to_owned(),
            saw_header: false,
            total_lines: 0,
            lines_read: 0,
            items: Ghost(Seq::empty()),
        }
    }

    /// Adds the item of the next line.
    pub fn add_item(&mut self, item: &Json) -> (result: Result<(), AppError>)
        requires
            old(self).is_well_formed(),
            old(self).lines_read() < u64::MAX,
        ensures
            final(self).is_well_formed(),
            final(self).lines_read() == old(self).lines_read() + 1,
            final(self).total_lines() == final(self).lines_read(),
            match result {
                Ok(()) => item_fault(item@) is None && final(self).items() == old(
                    self,
                ).items().push(item@),
                Err(AppError::MissingChatId { line }) => item_fault(item@) == Some(
                    ItemFault::NoChatId,
                ) && line == final(self).lines_read() && final(self).items() == old(self).items(),
                Err(AppError::InvalidDateSent { line }) => item_fault(item@) == Some(
                    ItemFault::BadDate,
                ) && line == final(self).lines_read() && final(self).items() == old(self).items(),
                Err(_) => false,
            },
    {
        self.lines_read = self.lines_read + 1;
        self.total_lines = self.lines_read;
        let line = self.lines_read;
        let ghost items = self.items@;
        let ghost more = items.push(item@);
        assert(more.drop_last() =~= items);
        match item.object_member("chatItem") {
            Some(message) => {
                let id = match member_id(message, "chatId") {
                    Some(id) => id,
                    None => {
                        return Err(AppError::MissingChatId { line });
                    },
                };
                let timestamp_ms: i64 = match chat_item_timestamp_ms(message) {
                    Some(timestamp_ms) => timestamp_ms,
                    None => {
                        return Err(AppError::InvalidDateSent { line });
                    },
                };
                if timestamp_to_local(timestamp_ms).is_err() {
                    return Err(AppError::InvalidDateSent { line });
                }
                add_message(&mut self.stats, item, message, id, timestamp_ms, Ghost(items));
            },
            None => {
                assert(forall|id: Seq<char>| #[trigger]
                    messages_of(more, id) == messages_of(items, id));
            },
        }
        if item.has("version") && item.has("backupTimeMs") {
            self.saw_header = true;
            assert(is_header(more[items.len() as int]));
        } else {
            assert(!is_header(item@));
        }
        proof {
            lemma_header_seen(items, item@);
        }
        if let Some(account) = item.object_member("account") {
            let name = joined_name(account, "givenName", "familyName");
            self.account_name = if name.as_str().is_empty() {
                "You".to_owned()
            } else {
                name
            };
        }
        add_record(&mut self.recipients, item, "recipient", Ghost(items));
        add_record(&mut self.chats, item, "chat", Ghost(items));
        self.items = Ghost(more);
        Ok(())
    }

    /// Adds the next line.
    pub fn add_line(&mut self, line: &str) -> (result: Result<(), AppError>)
        requires
            old(self).is_well_formed(),
            old(self).lines_read() < u64::MAX,
        ensures
            final(self).is_well_formed(),
            final(self).lines_read() == old(self).lines_read() + 1,
            match result {
                Ok(()) => {
                    &&& line_is_sound(line@)
                    &&& match line_view(line@) {
                        LineView::Item(item) => final(self).items() == old(self).items().push(item)
                            && final(self).total_lines() == final(self).lines_read(),
                        _ => final(self).items() == old(self).items() && final(self).total_lines()
                            == old(self).total_lines(),
                    }
                },
                Err(error) => !line_is_sound(line@) && is_line_error(
                    line@,
                    final(self).lines_read(),
                    error,
                ) && final(self).items() == old(self).items(),
            },
    {
        match read_line(self.lines_read + 1, line) {
            Ok(Some(item)) => self.add_item(&item),
            Ok(None) => {
                self.lines_read = self.lines_read + 1;
                Ok(())
            },
            Err(error) => {
                self.lines_read = self.lines_read + 1;
                Err(error)
            },
        }
    }
}

proof fn lemma_header_seen(items: Seq<JsonView>, item: JsonView)
    ensures
        header_seen(items.push(item)) == (header_seen(items) || is_header(item)),
{
    let more = items.push(item);
    if header_seen(items) {
        let k = choose|k: int| 0 <= k < items.len() && is_header(#[trigger] items[k]);
        assert(is_header(more[k]));
    }
    if is_header(item) {
        assert(is_header(more[items.len() as int]));
    }
    if header_seen(more) {
        let k = choose|k: int| 0 <= k < more.len() && is_header(#[trigger] more[k]);
        if k < items.len() {
            assert(is_header(items[k]));
        }
    }
}

// ---------------------------------------------------------------------------
// The finished index
// ---------------------------------------------------------------------------

spec fn recipient_ids(recipients: Seq<Recipient>) -> Seq<Seq<char>> {
    recipients.map_values(|recipient: Recipient| recipient.id@)
}

spec fn conversation_ids(conversations: Seq<Conversation>) -> Seq<Seq<char>> {
    conversations.map_values(|conversation: Conversation| conversation.id@)
}

/// The recipients say of every id what the items say.
spec fn recipients_match(recipients: Seq<Recipient>, items: Seq<JsonView>) -> bool {
    &&& recipient_ids(recipients).no_duplicates()
    &&& forall|id: Seq<char>| #[trigger]
        model::recipient_with(recipients, id) == recipient_of(items, id)
}

fn describe_recipients(
    records: &Vec<Record>,
    account_name: &str,
    Ghost(items): Ghost<Seq<JsonView>>,
) -> (recipients: Vec<Recipient>)
    requires
        records_match(records@, items, "recipient"@),
        account_name@ == account_of(items),
    ensures
        recipients_match(recipients@, items),
{
    let mut recipients: Vec<Recipient> = Vec::new();
    let mut i: usize = 0;
    while i < records.len()
        invariant
            i <= records@.len(),
            recipients@.len() == i,
            account_name@ == account_of(items),
            forall|j: int|
                0 <= j < i ==> (#[trigger] recipients@[j])@ == parser::recipient_described(
                    records@[j].id@,
                    records@[j].raw@,
                    account_of(items),
                ),
        decreases records@.len() - i,
    {
        recipients.push(recipient_from_raw(records[i].id.as_str(), &records[i].raw, account_name));
        i = i + 1;
    }
    assert forall|j: int| 0 <= j < recipients@.len() implies (#[trigger] recipients@[j])@.id
        == records@[j].id@ by {}
    assert(recipient_ids(recipients@) =~= record_ids(records@));
    assert forall|id: Seq<char>| #[trigger]
        model::recipient_with(recipients@, id) == recipient_of(items, id) by {
        model::lemma_recipient_with(recipients@, id);
        if last_record(items, "recipient"@, id) is Some {
            let k = choose|k: int|
                0 <= k < record_ids(records@).len() && record_ids(records@)[k] == id;
            assert(records@[k].id@ == id);
            assert(recipients@[k].id@ == id);
        } else if model::recipient_with(recipients@, id) is Some {
            let k = choose|k: int|
                0 <= k < recipient_ids(recipients@).len() && recipient_ids(recipients@)[k] == id;
            assert(records@[k].id@ == id);
        }
    }
    recipients
}

proof fn lemma_single_update(messages: Seq<JsonView>)
    ensures
        (messages.len() == 1 && update_count(messages) == 1) == (messages.len() == 1
            && parser::is_update(messages[0])),
{
    if messages.len() == 1 {
        assert(messages.drop_last().len() == 0);
        assert(update_count(messages.drop_last()) == 0);
    }
}

fn describe_conversation(
    id: &str,
    chat: Option<&Json>,
    stats: Option<&ChatStats>,
    recipients: &Vec<Recipient>,
    Ghost(items): Ghost<Seq<JsonView>>,
) -> (conversation: Conversation)
    requires
        json::seen(chat) == last_record(items, "chat"@, id@),
        match stats {
            Some(held) => held.describes(messages_of(items, id@)),
            None => messages_of(items, id@).len() == 0,
        },
        recipients_match(recipients@, items),
    ensures
        conversation@ == conversation_described(items, id@),
        conversation.is_well_formed(),
{
    let ghost messages = messages_of(items, id@);
    let recipient_id = match chat {
        Some(record) => match member_id(record, "recipientId") {
            Some(recipient_id) => recipient_id,
            None => String::new(),
        },
        None => String::new(),
    };
    assert(recipient_id@ =~= chat_recipient_id(items, id@));
    let (name, kind) = match find_recipient(recipients, recipient_id.as_str()) {
        Some(recipient) => (recipient.name.clone(), recipient.kind.clone()),
        None => (join2("Unknown chat ", id), "unknown".to_owned()),
    };
    proof {
        lemma_single_update(messages);
    }
    let conversation = match stats {
        Some(held) => Conversation {
            id: id.to_owned(),
            recipient_id,
            name,
            kind,
            message_count: held.count,
            is_technical_update_only: held.count == 1 && held.update_count == 1,
            first_timestamp_ms: held.first_ms,
            last_timestamp_ms: held.last_ms,
            author_ids: text::copy_texts(&held.authors),
        },
        None => Conversation {
            id: id.to_owned(),
            recipient_id,
            name,
            kind,
            message_count: 0,
            is_technical_update_only: false,
            first_timestamp_ms: None,
            last_timestamp_ms: None,
            author_ids: Vec::new(),
        },
    };
    assert(conversation@.author_ids =~= authors_of(messages));
    assert(conversation@ =~= conversation_described(items, id@));
    conversation
}

/// Each chat says what the items say, and is listed once.
spec fn conversations_describe(
    conversations: Seq<Conversation>,
    items: Seq<JsonView>,
) -> bool {
    &&& conversation_ids(conversations).no_duplicates()
    &&& forall|i: int|
        0 <= i < conversations.len() ==> {
            &&& (#[trigger] conversations[i])@ == conversation_described(
                items,
                conversations[i].id@,
            )
            &&& conversations[i].is_well_formed()
            &&& is_chat(items, conversations[i].id@)
        }
}

proof fn lemma_pushed_conversation(
    before: Seq<Conversation>,
    conversation: Conversation,
    items: Seq<JsonView>,
)
    requires
        conversations_describe(before, items),
        !conversation_ids(before).contains(conversation.id@),
        conversation@ == conversation_described(items, conversation.id@),
        conversation.is_well_formed(),
        is_chat(items, conversation.id@),
    ensures
        conversations_describe(before.push(conversation), items),
        conversation_ids(before.push(conversation)) == conversation_ids(before).push(
            conversation.id@,
        ),
{
    let after = before.push(conversation);
    assert(conversation_ids(after) =~= conversation_ids(before).push(conversation.id@));
    assert forall|i: int| 0 <= i < after.len() implies {
        &&& (#[trigger] after[i])@ == conversation_described(items, after[i].id@)
        &&& after[i].is_well_formed()
        &&& is_chat(items, after[i].id@)
    } by {
        if i < before.len() {
            assert(after[i] == before[i]);
        }
    }
}

fn describe_conversations(
    chats: &Vec<Record>,
    stats: &Vec<ChatStats>,
    recipients: &Vec<Recipient>,
    Ghost(items): Ghost<Seq<JsonView>>,
) -> (conversations: Vec<Conversation>)
    requires
        records_match(chats@, items, "chat"@),
        stats_match(stats@, items),
        recipients_match(recipients@, items),
    ensures
        conversations_describe(conversations@, items),
        forall|id: Seq<char>| #[trigger]
            is_chat(items, id) ==> conversation_ids(conversations@).contains(id),
{
    let mut conversations: Vec<Conversation> = Vec::new();
    let mut i: usize = 0;
    while i < chats.len()
        invariant
            i <= chats@.len(),
            records_match(chats@, items, "chat"@),
            stats_match(stats@, items),
            recipients_match(recipients@, items),
            conversations_describe(conversations@, items),
            conversation_ids(conversations@) == record_ids(chats@).take(i as int),
        decreases chats@.len() - i,
    {
        let ghost before = conversations@;
        let ghost id = chats@[i as int].id@;
        let held = match find_stats(stats, chats[i].id.as_str()) {
            Some(j) => Some(&stats[j]),
            None => None,
        };
        let conversation = describe_conversation(
            chats[i].id.as_str(),
            Some(&chats[i].raw),
            held,
            recipients,
            Ghost(items),
        );
        proof {
            assert(conversation.id@ == conversation@.id);
            assert(record_ids(chats@)[i as int] == id);
            assert(!conversation_ids(before).contains(id)) by {
                assert forall|k: int| 0 <= k < i implies #[trigger] conversation_ids(before)[k]
                    != id by {
                    assert(conversation_ids(before)[k] == record_ids(chats@)[k]);
                }
            }
            lemma_pushed_conversation(before, conversation, items);
        }
        conversations.push(conversation);
        assert(record_ids(chats@).take(i as int + 1) =~= record_ids(chats@).take(i as int).push(
            id,
        ));
        i = i + 1;
    }
    assert(record_ids(chats@).take(i as int) =~= record_ids(chats@));
    let mut j: usize = 0;
    while j < stats.len()
        invariant
            j <= stats@.len(),
            records_match(chats@, items, "chat"@),
            stats_match(stats@, items),
            recipients_match(recipients@, items),
            conversations_describe(conversations@, items),
            forall|k: int|
                0 <= k < conversation_ids(conversations@).len() ==> record_ids(chats@).contains(
                    #[trigger] conversation_ids(conversations@)[k],
                ) || stats_ids(stats@).take(j as int).contains(
                    conversation_ids(conversations@)[k],
                ),
            forall|id: Seq<char>|
                record_ids(chats@).contains(id) ==> #[trigger] conversation_ids(
                    conversations@,
                ).contains(id),
            forall|id: Seq<char>|
                stats_ids(stats@).take(j as int).contains(id) ==> #[trigger] conversation_ids(
                    conversations@,
                ).contains(id),
        decreases stats@.len() - j,
    {
        let ghost before = conversations@;
        let ghost id = stats@[j as int].id@;
        let ghost seen = stats_ids(stats@).take(j as int);
        let ghost next = stats_ids(stats@).take(j as int + 1);
        assert(stats_ids(stats@)[j as int] == id);
        assert(next =~= seen.push(id));
        assert(next[j as int] == id);
        assert(forall|k: int| 0 <= k < j ==> #[trigger] next[k] == seen[k]);
        if find_record(chats, stats[j].id.as_str()).is_none() {
            let conversation = describe_conversation(
                stats[j].id.as_str(),
                None,
                Some(&stats[j]),
                recipients,
                Ghost(items),
            );
            proof {
                assert(conversation.id@ == conversation@.id);
                assert(!conversation_ids(before).contains(id)) by {
                    assert forall|k: int| 0 <= k < before.len() implies #[trigger]
                        conversation_ids(before)[k] != id by {
                        if seen.contains(conversation_ids(before)[k]) {
                            let m = choose|m: int|
                                0 <= m < seen.len() && seen[m] == conversation_ids(before)[k];
                            assert(stats_ids(stats@)[m] == seen[m]);
                        }
                    }
                }
                lemma_pushed_conversation(before, conversation, items);
            }
            conversations.push(conversation);
            let ghost after = conversation_ids(conversations@);
            proof {
                assert(after[before.len() as int] == id);
                assert forall|other: Seq<char>| conversation_ids(before).contains(
                    other,
                ) implies #[trigger] after.contains(other) by {
                    let k = choose|k: int|
                        0 <= k < before.len() && conversation_ids(before)[k] == other;
                    assert(after[k] == other);
                }
                assert forall|k: int| 0 <= k < after.len() implies record_ids(chats@).contains(
                    #[trigger] after[k],
                ) || next.contains(after[k]) by {
                    if k < before.len() {
                        assert(after[k] == conversation_ids(before)[k]);
                        if seen.contains(after[k]) {
                            let m = choose|m: int| 0 <= m < seen.len() && seen[m] == after[k];
                            assert(next[m] == after[k]);
                        }
                    } else {
                        assert(next.contains(id));
                    }
                }
                assert forall|other: Seq<char>| next.contains(other) implies #[trigger]
                    after.contains(other) by {
                    let m = choose|m: int| 0 <= m < next.len() && next[m] == other;
                    if m < j {
                        assert(seen[m] == other);
                        assert(seen.contains(other));
                        assert(conversation_ids(before).contains(other));
                    }
                }
            }
        } else {
            proof {
                let ids = conversation_ids(before);
                assert(record_ids(chats@).contains(id)) by {
                    let m = choose|m: int| 0 <= m < chats@.len() && #[trigger] chats@[m].id@ == id;
                    assert(record_ids(chats@)[m] == id);
                }
                assert forall|k: int| 0 <= k < ids.len() implies record_ids(chats@).contains(
                    #[trigger] ids[k],
                ) || next.contains(ids[k]) by {
                    if seen.contains(ids[k]) {
                        let m = choose|m: int| 0 <= m < seen.len() && seen[m] == ids[k];
                        assert(next[m] == ids[k]);
                    }
                }
                assert forall|other: Seq<char>| next.contains(other) implies #[trigger]
                    ids.contains(other) by {
                    let m = choose|m: int| 0 <= m < next.len() && next[m] == other;
                    if m < j {
                        assert(seen[m] == other);
                        assert(seen.contains(other));
                    }
                }
            }
        }
        j = j + 1;
    }
    assert(stats_ids(stats@).take(j as int) =~= stats_ids(stats@));
    conversations
}

impl ArchiveBuilder {
    /// The index of everything that was added.
    pub fn finish(self, source_file: String, export_root: String) -> (result: Result<
        ArchiveIndex,
        AppError,
    >)
        requires
            self.is_well_formed(),
        ensures
            match result {
                Ok(index) => {
                    &&& header_seen(self.items())
                    &&& exists|id: Seq<char>| #[trigger] is_chat(self.items(), id)
                    &&& describes_items(index, self.items())
                    &&& index.source_file@ == source_file@
                    &&& index.export_root@ == export_root@
                    &&& index.total_lines == self.total_lines()
                },
                Err(error) => if header_seen(self.items()) {
                    error is NoConversations && forall|id: Seq<char>| !#[trigger]
                        is_chat(self.items(), id)
                } else {
                    error is MissingHeader
                },
            },
    {
        let ghost items = self.items@;
        if !self.saw_header {
            return Err(AppError::MissingHeader);
        }
        let recipients = describe_recipients(
            &self.recipients,
            self.account_name.as_str(),
            Ghost(items),
        );
        let conversations = describe_conversations(
            &self.chats,
            &self.stats,
            &recipients,
            Ghost(items),
        );
        if conversations.len() == 0 {
            return Err(AppError::NoConversations);
        }
        proof {
            assert(is_chat(items, conversations@[0].id@));
            assert forall|id: Seq<char>| #[trigger]
                model::conversation_with(conversations@, id) == conversation_of(items, id) by {
                model::lemma_conversation_with(conversations@, id);
                let ids = conversation_ids(conversations@);
                if is_chat(items, id) {
                    let k = choose|k: int| 0 <= k < ids.len() && ids[k] == id;
                    assert(conversations@[k].id@ == id);
                } else if model::conversation_with(conversations@, id) is Some {
                    let k = choose|k: int| 0 <= k < ids.len() && ids[k] == id;
                    assert(conversations@[k].id@ == id);
                }
            }
        }
        let index = ArchiveIndex {
            source_file,
            export_root,
            account_name: self.account_name,
            recipients,
            conversations,
            total_lines: self.total_lines,
        };
        assert(forall|id: Seq<char>| #[trigger]
            index.recipient(id) == model::recipient_with(index.recipients@, id));
        Ok(index)
    }
}

/// The first line that cannot be indexed.
pub open spec fn is_first_fault(lines: Seq<Seq<char>>, k: int) -> bool {
    &&& 0 <= k < lines.len()
    &&& !line_is_sound(lines[k])
    &&& forall|j: int| 0 <= j < k ==> line_is_sound(#[trigger] lines[j])
}

/// What the lines of an archive give: the error of the first line that cannot be
/// indexed; where there is none, an index that says what the lines say, or the
/// error that something is missing in them.
pub open spec fn is_archive_result(
    lines: Seq<Seq<char>>,
    file: Seq<char>,
    root: Seq<char>,
    result: Result<ArchiveIndex, AppError>,
) -> bool {
    &&& forall|k: int| #[trigger]
        is_first_fault(lines, k) ==> result is Err && is_line_error(
            lines[k],
            k + 1,
            result->Err_0,
        )
    &&& (forall|j: int| 0 <= j < lines.len() ==> line_is_sound(#[trigger] lines[j])) ==> {
        let items = items_of(lines);
        match result {
            Ok(index) => {
                &&& header_seen(items)
                &&& exists|id: Seq<char>| #[trigger] is_chat(items, id)
                &&& describes_items(index, items)
                &&& index.source_file@ == file
                &&& index.export_root@ == root
                &&& index.total_lines == last_item_line(lines)
            },
            Err(error) => if header_seen(items) {
                error is NoConversations && forall|id: Seq<char>| !#[trigger] is_chat(items, id)
            } else {
                error is MissingHeader
            },
        }
    }
}

/// The index of an archive, from the lines of its main file.
pub fn build_archive_index(source: &str, kind: SourceKind, lines: &Vec<String>) -> (result: Result<
    ArchiveIndex,
    AppError,
>)
    ensures
        match parser::located(source@, kind) {
            None => result is Err && parser::is_locate_error(kind, result->Err_0),
            Some((file, root)) => is_archive_result(text::texts(lines@), file, root, result),
        },
{
    let (source_file, export_root) = match locate_main_jsonl(source, kind) {
        Ok(found) => found,
        Err(error) => {
            return Err(error);
        },
    };
    let ghost all = text::texts(lines@);
    let mut builder = ArchiveBuilder::new();
    let mut i: usize = 0;
    assert(all.take(0) =~= Seq::<Seq<char>>::empty());
    while i < lines.len()
        invariant
            i <= lines@.len(),
            all == text::texts(lines@),
            parser::located(source@, kind) == Some((source_file@, export_root@)),
            builder.is_well_formed(),
            builder.lines_read() == i,
            builder.items() == items_of(all.take(i as int)),
            builder.total_lines() == last_item_line(all.take(i as int)),
            forall|j: int| 0 <= j < i ==> line_is_sound(#[trigger] all[j]),
        decreases lines@.len() - i,
    {
        assert(all.take(i as int + 1).drop_last() =~= all.take(i as int));
        assert(all[i as int] == lines@[i as int]@);
        if let Err(error) = builder.add_line(lines[i].as_str()) {
            assert forall|k: int| #[trigger] is_first_fault(all, k) implies k == i by {
                if k < i {
                    assert(line_is_sound(all[k]));
                }
                if k > i {
                    assert(line_is_sound(all[i as int]));
                }
            }
            return Err(error);
        }
        i = i + 1;
    }
    assert(all.take(i as int) =~= all);
    builder.finish(source_file, export_root)
}

// ---------------------------------------------------------------------------
// Laws
// ---------------------------------------------------------------------------

/// The first and the last timestamp of a chat are timestamps of its messages,
/// and every message with a timestamp lies between them.
pub proof fn timestamps_lie_between_first_and_last(messages: Seq<JsonView>)
    ensures
        forall|i: int|
            0 <= i < messages.len() && sent_ms(#[trigger] messages[i]) != 0 ==> earliest(
                messages,
            ) is Some && latest(messages) is Some && earliest(messages)->0 <= sent_ms(messages[i])
                <= latest(messages)->0,
        earliest(messages) matches Some(first) ==> first != 0 && exists|i: int|
            0 <= i < messages.len() && sent_ms(#[trigger] messages[i]) == first,
        latest(messages) matches Some(last) ==> last != 0 && exists|i: int|
            0 <= i < messages.len() && sent_ms(#[trigger] messages[i]) == last,
    decreases messages.len(),
{
    if messages.len() > 0 {
        let rest = messages.drop_last();
        timestamps_lie_between_first_and_last(rest);
        let top = messages.len() - 1;
        assert forall|i: int|
            0 <= i < messages.len() && sent_ms(#[trigger] messages[i]) != 0 implies earliest(
            messages,
        ) is Some && latest(messages) is Some && earliest(messages)->0 <= sent_ms(messages[i])
            <= latest(messages)->0 by {
            if i < top {
                assert(rest[i] == messages[i]);
            }
        }
        assert(messages[top] == messages.last());
        if earliest(messages) is Some && earliest(messages) == earliest(rest) {
            let k = choose|k: int|
                0 <= k < rest.len() && sent_ms(#[trigger] rest[k]) == earliest(rest)->0;
            assert(messages[k] == rest[k]);
        }
        if latest(messages) is Some && latest(messages) == latest(rest) {
            let k = choose|k: int|
                0 <= k < rest.len() && sent_ms(#[trigger] rest[k]) == latest(rest)->0;
            assert(messages[k] == rest[k]);
        }
    }
}

/// A blank line says nothing, wherever it stands.
pub proof fn a_blank_line_says_nothing(
    before: Seq<Seq<char>>,
    blank: Seq<char>,
    after: Seq<Seq<char>>,
)
    requires
        words::all_blank(blank),
    ensures
        items_of(before.push(blank) + after) == items_of(before + after),
        line_is_sound(blank),
    decreases after.len(),
{
    if after.len() == 0 {
        assert(before.push(blank) + after =~= before.push(blank));
        assert(before + after =~= before);
        assert(before.push(blank).drop_last() =~= before);
    } else {
        a_blank_line_says_nothing(before, blank, after.drop_last());
        let with = before.push(blank) + after;
        let without = before + after;
        assert(with.drop_last() =~= before.push(blank) + after.drop_last());
        assert(without.drop_last() =~= before + after.drop_last());
        assert(with.last() == without.last());
    }
}

/// How many of the items are messages of a chat.
pub open spec fn message_total(items: Seq<JsonView>) -> nat
    decreases items.len(),
{
    if items.len() == 0 {
        0
    } else if chat_of(items.last()) is Some {
        message_total(items.drop_last()) + 1
    } else {
        message_total(items.drop_last())
    }
}

/// How many messages some chats have in all.
pub open spec fn messages_in_chats(items: Seq<JsonView>, ids: Seq<Seq<char>>) -> nat
    decreases ids.len(),
{
    if ids.len() == 0 {
        0
    } else {
        messages_in_chats(items, ids.drop_last()) + messages_of(items, ids.last()).len()
    }
}

proof fn lemma_one_more_item(items: Seq<JsonView>, ids: Seq<Seq<char>>)
    requires
        items.len() > 0,
        ids.no_duplicates(),
    ensures
        messages_in_chats(items, ids) == messages_in_chats(items.drop_last(), ids) + if chat_of(
            items.last(),
        ) is Some && ids.contains(chat_of(items.last())->0) {
            1nat
        } else {
            0nat
        },
    decreases ids.len(),
{
    if ids.len() > 0 {
        let rest = ids.drop_last();
        lemma_one_more_item(items, rest);
        if chat_of(items.last()) is Some {
            let id = chat_of(items.last())->0;
            if rest.contains(id) {
                let k = choose|k: int| 0 <= k < rest.len() && rest[k] == id;
                assert(ids[k] == id);
                assert(ids[ids.len() - 1] != id);
            } else if ids.contains(id) {
                let k = choose|k: int| 0 <= k < ids.len() && ids[k] == id;
                if k < rest.len() {
                    assert(rest[k] == id);
                }
            } else {
                assert(ids[ids.len() - 1] != id);
            }
        }
    }
}

/// Every message is counted in one chat: where each chat is listed once, the
/// message counts add up to the number of messages.
pub proof fn message_counts_add_up(items: Seq<JsonView>, ids: Seq<Seq<char>>)
    requires
        ids.no_duplicates(),
        forall|id: Seq<char>| #[trigger] is_chat(items, id) ==> ids.contains(id),
    ensures
        messages_in_chats(items, ids) == message_total(items),
    decreases items.len(),
{
    if items.len() == 0 {
        lemma_no_messages(items, ids);
    } else {
        let rest = items.drop_last();
        assert forall|id: Seq<char>| #[trigger] is_chat(rest, id) implies ids.contains(id) by {
            assert(is_chat(items, id));
        }
        message_counts_add_up(rest, ids);
        lemma_one_more_item(items, ids);
        if chat_of(items.last()) is Some {
            assert(is_chat(items, chat_of(items.last())->0));
        }
    }
}

proof fn lemma_no_messages(items: Seq<JsonView>, ids: Seq<Seq<char>>)
    requires
        items.len() == 0,
    ensures
        messages_in_chats(items, ids) == 0,
    decreases ids.len(),
{
    if ids.len() > 0 {
        lemma_no_messages(items, ids.drop_last());
    }
}

} // verus!
