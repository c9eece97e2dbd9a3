//! Messages as an export tells them.

use vstd::prelude::*;

use crate::archive;
use crate::calendar::{self, timestamp_to_local, LocalTime};
use crate::copier::{self, AttachmentRecord, AttachmentView, CopierView, CopyOrder, MediaCopier};
use crate::copier::OrderView;
use crate::error::AppError;
use crate::json::{self, Json, JsonView};
use crate::media::MediaPlace;
use crate::model::{ArchiveIndex, Conversation};
use crate::order::{self, place_texts, Placement};
use crate::parser::{self, chat_item_timestamp_ms, member_id};
use crate::payload::{self, collect_file_pointers, message_payload, message_text};
use crate::payload::sanitized_signal_data;
use crate::text::{self, to_lowercase};

verus! {

#[derive(Debug)]
pub struct AuthorRecord {
    pub id: String,
    pub name: String,
}

#[derive(Debug)]
pub struct QuoteRecord {
    pub author: String,
    pub text: String,
}

#[derive(Debug)]
pub struct ReactionRecord {
    pub emoji: String,
    pub author: String,
}

/// A message as an export tells it.
#[derive(Debug)]
pub struct MessageRecord {
    pub conversation_id: String,
    pub conversation_name: String,
    pub timestamp: String,
    pub timestamp_ms: i64,
    pub author: AuthorRecord,
    pub direction: String,
    pub message_type: String,
    pub text: Option<String>,
    pub quote: Option<QuoteRecord>,
    pub reactions: Vec<ReactionRecord>,
    pub attachments: Vec<AttachmentRecord>,
    pub signal_data: Json,
}

#[verifier::ext_equal]
pub struct AuthorView {
    pub id: Seq<char>,
    pub name: Seq<char>,
}

#[verifier::ext_equal]
pub struct QuoteView {
    pub author: Seq<char>,
    pub text: Seq<char>,
}

#[verifier::ext_equal]
pub struct ReactionView {
    pub emoji: Seq<char>,
    pub author: Seq<char>,
}

#[verifier::ext_equal]
pub struct MessageView {
    pub conversation_id: Seq<char>,
    pub conversation_name: Seq<char>,
    pub timestamp: Seq<char>,
    pub timestamp_ms: i64,
    pub author: AuthorView,
    pub direction: Seq<char>,
    pub message_type: Seq<char>,
    pub text: Option<Seq<char>>,
    pub quote: Option<QuoteView>,
    pub reactions: Seq<ReactionView>,
    pub attachments: Seq<AttachmentView>,
    pub signal_data: JsonView,
}

impl AuthorRecord {
    pub open spec fn view(&self) -> AuthorView {
        AuthorView { id: self.id@, name: self.name@ }
    }
}

impl QuoteRecord {
    pub open spec fn view(&self) -> QuoteView {
        QuoteView { author: self.author@, text: self.text@ }
    }
}

impl ReactionRecord {
    pub open spec fn view(&self) -> ReactionView {
        ReactionView { emoji: self.emoji@, author: self.author@ }
    }
}

impl MessageRecord {
    pub open spec fn view(&self) -> MessageView {
        MessageView {
            conversation_id: self.conversation_id@,
            conversation_name: self.conversation_name@,
            timestamp: self.timestamp@,
            timestamp_ms: self.timestamp_ms,
            author: self.author@,
            direction: self.direction@,
            message_type: self.message_type@,
            text: text::shown(self.text),
            quote: shown_quote(self.quote),
            reactions: self.reactions@.map_values(|reaction: ReactionRecord| reaction@),
            attachments: self.attachments@.map_values(
                |attachment: AttachmentRecord| attachment@,
            ),
            signal_data: self.signal_data@,
        }
    }
}

pub open spec fn shown_quote(quote: Option<QuoteRecord>) -> Option<QuoteView> {
    match quote {
        Some(held) => Some(held@),
        None => None,
    }
}

// ---------------------------------------------------------------------------
// Author, direction, quote, reactions
// ---------------------------------------------------------------------------

/// The id in a member of an object; empty where there is none.
pub open spec fn id_or_empty(object: JsonView, key: Seq<char>) -> Seq<char> {
    match parser::id_member(object, key) {
        Some(id) => id,
        None => Seq::empty(),
    }
}

fn find_id_or_empty(object: &Json, key: &str) -> (id: String)
    ensures
        id@ == id_or_empty(object@, key@),
{
    match member_id(object, key) {
        Some(id) => id,
        None => {
            let empty = String::new();
            assert(empty@ =~= Seq::<char>::empty());
            empty
        },
    }
}

/// Which way a message went.
pub open spec fn direction_of(message: JsonView) -> Seq<char> {
    if message.has("incoming"@) {
        "incoming"@
    } else if message.has("outgoing"@) {
        "outgoing"@
    } else {
        "directionless"@
    }
}

/// The message that a message answers to.
pub open spec fn quote_of(index: ArchiveIndex, payload: Option<JsonView>) -> Option<QuoteView> {
    match payload {
        None => None,
        Some(held) => match held.object_member("quote"@) {
            None => None,
            Some(quote) => match payload::body_of(quote, "text"@) {
                None => None,
                Some(body) => Some(
                    QuoteView {
                        author: index.author_name_text(id_or_empty(quote, "authorId"@)),
                        text: body,
                    },
                ),
            },
        },
    }
}

fn find_quote(index: &ArchiveIndex, payload: Option<&Json>) -> (quote: Option<QuoteRecord>)
    ensures
        shown_quote(quote) == quote_of(*index, json::seen(payload)),
{
    let held = match payload {
        Some(held) => held,
        None => {
            return None;
        },
    };
    let quote = match held.object_member("quote") {
        Some(quote) => quote,
        None => {
            return None;
        },
    };
    match quote.object_member("text") {
        Some(quoted) => match quoted.text_member("body") {
            Some(body) => {
                let author_id = find_id_or_empty(quote, "authorId");
                Some(
                    QuoteRecord {
                        author: index.author_name(author_id.as_str()),
                        text: body.to_owned(),
                    },
                )
            },
            None => None,
        },
        None => None,
    }
}

/// The reactions in a list; what has no emoji is none.
pub open spec fn reactions_in(index: ArchiveIndex, items: Seq<JsonView>) -> Seq<ReactionView>
    decreases items.len(),
{
    if items.len() == 0 {
        Seq::empty()
    } else {
        match items.last().text_member("emoji"@) {
            Some(emoji) => reactions_in(index, items.drop_last()).push(
                ReactionView {
                    emoji,
                    author: index.author_name_text(id_or_empty(items.last(), "authorId"@)),
                },
            ),
            None => reactions_in(index, items.drop_last()),
        }
    }
}

/// The reactions to a message.
pub open spec fn reactions_of(index: ArchiveIndex, payload: Option<JsonView>) -> Seq<ReactionView> {
    match payload {
        None => Seq::empty(),
        Some(held) => match held.member("reactions"@) {
            Some(JsonView::Array(items)) => reactions_in(index, items),
            _ => Seq::empty(),
        },
    }
}

pub open spec fn shown_reactions(reactions: Seq<ReactionRecord>) -> Seq<ReactionView> {
    reactions.map_values(|reaction: ReactionRecord| reaction@)
}

fn find_reactions(index: &ArchiveIndex, payload: Option<&Json>) -> (reactions: Vec<ReactionRecord>)
    ensures
        shown_reactions(reactions@) == reactions_of(*index, json::seen(payload)),
{
    let mut reactions: Vec<ReactionRecord> = Vec::new();
    assert(shown_reactions(reactions@) =~= Seq::<ReactionView>::empty());
    let held = match payload {
        Some(held) => held,
        None => {
            return reactions;
        },
    };
    if let Some(Json::Array(items)) = held.member("reactions") {
        let ghost all = held@.member("reactions"@)->0->Array_0;
        let mut i: usize = 0;
        assert(all.len() == items@.len());
        assert(forall|j: int| 0 <= j < items@.len() ==> all[j] == (#[trigger] items@[j])@);
        assert(shown_reactions(reactions@) =~= reactions_in(*index, all.take(0)));
        while i < items.len()
            invariant
                i <= items@.len(),
                all.len() == items@.len(),
                forall|j: int| 0 <= j < items@.len() ==> all[j] == (#[trigger] items@[j])@,
                shown_reactions(reactions@) == reactions_in(*index, all.take(i as int)),
            decreases items@.len() - i,
        {
            assert(all[i as int] == items@[i as int]@);
            assert(all.take(i as int + 1).drop_last() =~= all.take(i as int));
            assert(all.take(i as int + 1).last() == all[i as int]);
            let ghost before = reactions@;
            if let Some(emoji) = items[i].text_member("emoji") {
                let author_id = find_id_or_empty(&items[i], "authorId");
                reactions.push(
                    ReactionRecord {
                        emoji: emoji.to_owned(),
                        author: index.author_name(author_id.as_str()),
                    },
                );
                assert(shown_reactions(reactions@) =~= shown_reactions(before).push(
                    reactions@.last()@,
                ));
            }
            i = i + 1;
        }
        assert(all.take(i as int) =~= all);
    }
    reactions
}

// ---------------------------------------------------------------------------
// Participants
// ---------------------------------------------------------------------------

/// The order of participants: by name, small and large letters alike, then by id.
pub open spec fn author_before(left: AuthorView, right: AuthorView) -> bool {
    let left_name = text::lowercase_text(left.name);
    let right_name = text::lowercase_text(right.name);
    order::text_before(left_name, right_name) || (left_name == right_name && order::text_before(
        left.id,
        right.id,
    ))
}

/// Those who wrote in a chat: each of its authors once, by name, in order.
pub open spec fn is_participant_list(
    authors: Seq<AuthorRecord>,
    index: ArchiveIndex,
    ids: Set<Seq<char>>,
) -> bool {
    &&& forall|i: int|
        0 <= i < authors.len() ==> ids.contains((#[trigger] authors[i]).id@) && authors[i].name@
            == index.author_name_text(authors[i].id@)
    &&& forall|id: Seq<char>| #[trigger]
        ids.contains(id) ==> exists|i: int|
            0 <= i < authors.len() && (#[trigger] authors[i]).id@ == id
    &&& forall|i: int, j: int|
        0 <= i < j < authors.len() ==> author_before(
            (#[trigger] authors[i])@,
            (#[trigger] authors[j])@,
        )
}

/// What a list of authors shows.
pub open spec fn shown_authors(authors: Seq<AuthorRecord>) -> Seq<AuthorView> {
    authors.map_values(|author: AuthorRecord| author@)
}

proof fn lemma_author_order(first: AuthorView, second: AuthorView, third: AuthorView)
    ensures
        author_before(first, second) && author_before(second, third) ==> author_before(
            first,
            third,
        ),
        first.id != second.id ==> author_before(first, second) || author_before(second, first),
        !(author_before(first, second) && author_before(second, first)),
        !author_before(first, first),
{
    let a = text::lowercase_text(first.name);
    let b = text::lowercase_text(second.name);
    let c = text::lowercase_text(third.name);
    order::text_order_is_total(a, b);
    order::text_order_is_total(b, c);
    order::text_order_is_total(a, c);
    order::text_order_is_total(a, a);
    order::text_order_is_total(first.id, second.id);
    order::text_order_is_total(first.id, first.id);
    if order::text_before(a, b) && order::text_before(b, c) {
        order::text_order_is_transitive(a, b, c);
    }
    if order::text_before(first.id, second.id) && order::text_before(second.id, third.id) {
        order::text_order_is_transitive(first.id, second.id, third.id);
    }
}

proof fn lemma_same_order(left: Seq<AuthorView>, right: Seq<AuthorView>)
    requires
        forall|i: int, j: int|
            0 <= i < j < left.len() ==> author_before(#[trigger] left[i], #[trigger] left[j]),
        forall|i: int, j: int|
            0 <= i < j < right.len() ==> author_before(#[trigger] right[i], #[trigger] right[j]),
        forall|author: AuthorView| #[trigger] left.contains(author) == right.contains(author),
    ensures
        left == right,
    decreases left.len(),
{
    if left.len() == 0 {
        if right.len() > 0 {
            assert(right.contains(right[0]));
            assert(left.contains(right[0]));
        }
        assert(left =~= right);
    } else {
        assert(left.contains(left.last()));
        assert(right.contains(left.last()));
        assert(right.contains(right.last()));
        assert(left.contains(right.last()));
        let i = choose|i: int| 0 <= i < left.len() && left[i] == right.last();
        let j = choose|j: int| 0 <= j < right.len() && right[j] == left.last();
        if i < left.len() - 1 && j < right.len() - 1 {
            assert(author_before(left[i], left[left.len() - 1]));
            assert(author_before(right[j], right[right.len() - 1]));
            lemma_author_order(left.last(), right.last(), left.last());
        }
        assert(left.last() == right.last());
        let shorter = left.drop_last();
        let other = right.drop_last();
        assert forall|author: AuthorView| #[trigger] shorter.contains(author) == other.contains(
            author,
        ) by {
            lemma_author_order(left.last(), left.last(), left.last());
            if shorter.contains(author) {
                let k = choose|k: int| 0 <= k < shorter.len() && shorter[k] == author;
                assert(left[k] == author);
                assert(author_before(left[k], left[left.len() - 1]));
                assert(left.contains(author));
                assert(right.contains(author));
                let n = choose|n: int| 0 <= n < right.len() && right[n] == author;
                assert(other[n] == author);
            }
            if other.contains(author) {
                let k = choose|k: int| 0 <= k < other.len() && other[k] == author;
                assert(right[k] == author);
                assert(author_before(right[k], right[right.len() - 1]));
                assert(right.contains(author));
                assert(left.contains(author));
                let n = choose|n: int| 0 <= n < left.len() && left[n] == author;
                assert(shorter[n] == author);
            }
        }
        lemma_same_order(shorter, other);
        assert(left =~= shorter.push(left.last()));
        assert(right =~= other.push(right.last()));
    }
}

/// There is one list of the participants of a chat: whatever order its authors
/// were found in, they are listed alike.
pub proof fn participants_are_listed_alike(
    left: Seq<AuthorRecord>,
    right: Seq<AuthorRecord>,
    index: ArchiveIndex,
    ids: Set<Seq<char>>,
)
    requires
        is_participant_list(left, index, ids),
        is_participant_list(right, index, ids),
    ensures
        shown_authors(left) == shown_authors(right),
{
    assert forall|author: AuthorView| #[trigger] shown_authors(left).contains(author)
        == shown_authors(right).contains(author) by {
        if shown_authors(left).contains(author) {
            lemma_listed(left, right, index, ids, author);
        }
        if shown_authors(right).contains(author) {
            lemma_listed(right, left, index, ids, author);
        }
    }
    lemma_same_order(shown_authors(left), shown_authors(right));
}

proof fn lemma_listed(
    left: Seq<AuthorRecord>,
    right: Seq<AuthorRecord>,
    index: ArchiveIndex,
    ids: Set<Seq<char>>,
    author: AuthorView,
)
    requires
        is_participant_list(left, index, ids),
        is_participant_list(right, index, ids),
        shown_authors(left).contains(author),
    ensures
        shown_authors(right).contains(author),
{
    let k = choose|k: int| 0 <= k < left.len() && shown_authors(left)[k] == author;
    assert(left[k]@ == author);
    assert(ids.contains(left[k].id@));
    let n = choose|n: int| 0 <= n < right.len() && (#[trigger] right[n]).id@ == author.id;
    assert(shown_authors(right)[n] == right[n]@);
    assert(right[n]@ == author);
}

fn author_comes_before(left: &AuthorRecord, right: &AuthorRecord) -> (before: bool)
    ensures
        before == author_before(left@, right@),
{
    let left_name = to_lowercase(left.name.as_str());
    let right_name = to_lowercase(right.name.as_str());
    match place_texts(left_name.as_str(), right_name.as_str()) {
        Placement::Before => true,
        Placement::After => {
            proof {
                order::text_order_is_total(left_name@, right_name@);
            }
            false
        },
        Placement::Same => match place_texts(left.id.as_str(), right.id.as_str()) {
            Placement::Before => true,
            _ => false,
        },
    }
}

/// Puts an author in its place among others.
fn insert_author(authors: &mut Vec<AuthorRecord>, author: AuthorRecord)
    requires
        forall|i: int, j: int|
            0 <= i < j < old(authors)@.len() ==> author_before(
                (#[trigger] old(authors)@[i])@,
                (#[trigger] old(authors)@[j])@,
            ),
        forall|i: int| 0 <= i < old(authors)@.len() ==> (#[trigger] old(authors)@[i]).id@ != author.id@,
    ensures
        forall|i: int, j: int|
            0 <= i < j < final(authors)@.len() ==> author_before(
                (#[trigger] final(authors)@[i])@,
                (#[trigger] final(authors)@[j])@,
            ),
        exists|k: int|
            0 <= k <= old(authors)@.len() && final(authors)@ == #[trigger] old(authors)@.insert(
                k,
                author,
            ),
{
    let ghost before = authors@;
    let mut k: usize = 0;
    while k < authors.len() && author_comes_before(&authors[k], &author)
        invariant
            k <= authors@.len(),
            authors@ == before,
            forall|i: int| 0 <= i < k ==> author_before((#[trigger] before[i])@, author@),
        decreases authors@.len() - k,
    {
        k = k + 1;
    }
    proof {
        if k < before.len() {
            lemma_author_order(before[k as int]@, author@, author@);
            lemma_author_order(author@, before[k as int]@, author@);
            assert forall|i: int| k <= i < before.len() implies author_before(
                author@,
                (#[trigger] before[i])@,
            ) by {
                lemma_author_order(author@, before[k as int]@, before[i]@);
            }
        }
    }
    authors.insert(k, author);
    let ghost after = authors@;
    assert(after == before.insert(k as int, author));
    assert forall|i: int, j: int| 0 <= i < j < after.len() implies author_before(
        (#[trigger] after[i])@,
        (#[trigger] after[j])@,
    ) by {
        let left = if i < k {
            before[i]
        } else if i == k {
            author
        } else {
            before[i - 1]
        };
        let right = if j < k {
            before[j]
        } else if j == k {
            author
        } else {
            before[j - 1]
        };
        assert(after[i] == left);
        assert(after[j] == right);
    }
}

/// Those who wrote in a chat, by name.
pub fn participants(index: &ArchiveIndex, conversation: &Conversation) -> (authors: Vec<
    AuthorRecord,
>)
    requires
        conversation.is_well_formed(),
    ensures
        is_participant_list(authors@, *index, conversation@.author_ids),
{
    let ghost ids = text::texts(conversation.author_ids@);
    let mut authors: Vec<AuthorRecord> = Vec::new();
    let mut i: usize = 0;
    while i < conversation.author_ids.len()
        invariant
            i <= conversation.author_ids@.len(),
            ids == text::texts(conversation.author_ids@),
            ids.no_duplicates(),
            forall|j: int|
                0 <= j < authors@.len() ==> ids.take(i as int).contains(
                    (#[trigger] authors@[j]).id@,
                ) && authors@[j].name@ == index.author_name_text(authors@[j].id@),
            forall|k: int|
                0 <= k < i ==> exists|j: int|
                    0 <= j < authors@.len() && (#[trigger] authors@[j]).id@ == #[trigger] ids[k],
            forall|a: int, b: int|
                0 <= a < b < authors@.len() ==> author_before(
                    (#[trigger] authors@[a])@,
                    (#[trigger] authors@[b])@,
                ),
        decreases conversation.author_ids@.len() - i,
    {
        let id = conversation.author_ids[i].clone();
        assert(id@ == ids[i as int]);
        let author = AuthorRecord { name: index.author_name(id.as_str()), id };
        let ghost before = authors@;
        let ghost shorter = ids.take(i as int);
        let ghost longer = ids.take(i as int + 1);
        assert forall|j: int| 0 <= j < before.len() implies (#[trigger] before[j]).id@
            != author.id@ by {
            let m = choose|m: int| 0 <= m < shorter.len() && shorter[m] == before[j].id@;
            assert(ids[m] == before[j].id@);
        }
        let ghost added = author;
        insert_author(&mut authors, author);
        proof {
            let k = choose|k: int|
                0 <= k <= before.len() && authors@ == #[trigger] before.insert(k, added);
            assert forall|j: int| 0 <= j < authors@.len() implies longer.contains(
                (#[trigger] authors@[j]).id@,
            ) && authors@[j].name@ == index.author_name_text(authors@[j].id@) by {
                if j == k {
                    assert(longer[i as int] == added.id@);
                } else {
                    let old_j = if j < k {
                        j
                    } else {
                        j - 1
                    };
                    assert(authors@[j] == before[old_j]);
                    let m = choose|m: int|
                        0 <= m < shorter.len() && shorter[m] == before[old_j].id@;
                    assert(longer[m] == before[old_j].id@);
                }
            }
            assert forall|m: int| 0 <= m < i + 1 implies exists|j: int|
                0 <= j < authors@.len() && (#[trigger] authors@[j]).id@ == #[trigger] ids[m] by {
                if m == i {
                    assert(authors@[k].id@ == ids[m]);
                } else {
                    let j = choose|j: int|
                        0 <= j < before.len() && (#[trigger] before[j]).id@ == ids[m];
                    if j < k {
                        assert(authors@[j] == before[j]);
                    } else {
                        assert(authors@[j + 1] == before[j]);
                    }
                }
            }
        }
        i = i + 1;
    }
    assert(ids.take(i as int) =~= ids);
    assert forall|id: Seq<char>| #[trigger] conversation@.author_ids.contains(id) implies exists|
        j: int,
    |
        0 <= j < authors@.len() && (#[trigger] authors@[j]).id@ == id by {
        let m = choose|m: int| 0 <= m < ids.len() && ids[m] == id;
        assert(ids[m] == id);
    }
    authors
}

// ---------------------------------------------------------------------------
// Attachments
// ---------------------------------------------------------------------------

/// The pointers to files in a message.
pub open spec fn pointers_of(message: JsonView) -> Seq<JsonView> {
    match payload::payload_of(message) {
        Some(held) => payload::file_pointers(held),
        None => Seq::empty(),
    }
}

/// The pointer to the file that holds the text of a message that is too long to
/// stand in the message itself.
pub open spec fn long_text_pointer(message: JsonView) -> Option<JsonView> {
    match payload::payload_of(message) {
        Some(held) => held.object_member("longText"@),
        None => None,
    }
}

/// How many bytes of the file of a long text are read.
pub const LONG_TEXT_LIMIT: u64 = 16_777_216;

/// The files that a message asks for: that of its long text, and one for each of
/// its attachments.
pub struct MediaNeeds {
    pub long_text: Option<MediaPlace>,
    pub attachments: Vec<Option<MediaPlace>>,
}

/// The files that a message asks for.
pub fn media_needs(message: &Json, copier: &MediaCopier) -> (needs: MediaNeeds)
    ensures
        match long_text_pointer(message@) {
            Some(pointer) => copier::is_place(copier@.source_root, pointer, needs.long_text),
            None => needs.long_text is None,
        },
        needs.attachments@.len() == pointers_of(message@).len(),
        forall|i: int|
            0 <= i < needs.attachments@.len() ==> copier::is_place(
                copier@.source_root,
                pointers_of(message@)[i],
                #[trigger] needs.attachments@[i],
            ),
{
    let (_, payload) = message_payload(message);
    let mut attachments: Vec<Option<MediaPlace>> = Vec::new();
    let held = match payload {
        Some(held) => held,
        None => {
            return MediaNeeds { long_text: None, attachments };
        },
    };
    let long_text = match held.object_member("longText") {
        Some(pointer) => copier.resolve(pointer),
        None => None,
    };
    let pointers = collect_file_pointers(held);
    let mut i: usize = 0;
    while i < pointers.len()
        invariant
            i <= pointers@.len(),
            attachments@.len() == i,
            forall|j: int|
                0 <= j < i ==> copier::is_place(
                    copier@.source_root,
                    payload::seen_all(pointers@)[j],
                    #[trigger] attachments@[j],
                ),
        decreases pointers@.len() - i,
    {
        assert(payload::seen_all(pointers@)[i as int] == pointers@[i as int]@);
        attachments.push(copier.resolve(pointers[i]));
        i = i + 1;
    }
    MediaNeeds { long_text, attachments }
}

/// What was found of the files that a message asks for: the bytes of its long
/// text, and the path of the file of each attachment.
pub struct FoundMedia {
    pub long_text: Option<Vec<u8>>,
    pub sources: Vec<Option<String>>,
}

pub open spec fn shown_sources(sources: Seq<Option<String>>) -> Seq<Option<Seq<char>>> {
    sources.map_values(|source: Option<String>| text::shown(source))
}

/// The attachments of a message, one after the other: the copier afterwards, what
/// the export says of them, and what there is to do.
pub open spec fn attach_all(
    copier: CopierView,
    pointers: Seq<JsonView>,
    sources: Seq<Option<Seq<char>>>,
) -> (CopierView, Seq<AttachmentView>, Seq<OrderView>)
    decreases pointers.len(),
{
    if pointers.len() == 0 {
        (copier, Seq::empty(), Seq::empty())
    } else {
        let (before, attachments, orders) = attach_all(
            copier,
            pointers.drop_last(),
            sources.drop_last(),
        );
        let pointer = pointers.last();
        let source = sources.last();
        (
            before.with_attachment(pointer, source),
            attachments.push(before.attachment(pointer, source)),
            match before.attachment_order(pointer, source) {
                Some(order) => orders.push(order),
                None => orders,
            },
        )
    }
}

pub open spec fn shown_attachments(attachments: Seq<AttachmentRecord>) -> Seq<AttachmentView> {
    attachments.map_values(|attachment: AttachmentRecord| attachment@)
}

pub open spec fn shown_orders(orders: Seq<CopyOrder>) -> Seq<OrderView> {
    orders.map_values(|order: CopyOrder| order@)
}

pub proof fn lemma_attachment_count(
    copier: CopierView,
    pointers: Seq<JsonView>,
    sources: Seq<Option<Seq<char>>>,
)
    ensures
        attach_all(copier, pointers, sources).0.attachment_count == copier.attachment_count
            + pointers.len(),
        attach_all(copier, pointers, sources).1.len() == pointers.len(),
    decreases pointers.len(),
{
    if pointers.len() > 0 {
        lemma_attachment_count(copier, pointers.drop_last(), sources.drop_last());
    }
}

/// A file that was copied for one message stays where it is through the messages
/// that follow.
pub proof fn later_messages_keep_the_copies(
    copier: CopierView,
    pointers: Seq<JsonView>,
    sources: Seq<Option<Seq<char>>>,
    source: Seq<char>,
)
    requires
        copier::path_of_copy(copier.copied, source) is Some,
    ensures
        copier::path_of_copy(attach_all(copier, pointers, sources).0.copied, source)
            == copier::path_of_copy(copier.copied, source),
    decreases pointers.len(),
{
    if pointers.len() > 0 {
        later_messages_keep_the_copies(
            copier,
            pointers.drop_last(),
            sources.drop_last(),
            source,
        );
        copier::a_copy_stays_where_it_is(
            attach_all(copier, pointers.drop_last(), sources.drop_last()).0,
            source,
            pointers.last(),
            sources.last(),
        );
    }
}

fn attachment_records(
    copier: &mut MediaCopier,
    pointers: &Vec<&Json>,
    sources: &Vec<Option<String>>,
) -> (done: (Vec<AttachmentRecord>, Vec<CopyOrder>))
    requires
        old(copier).is_well_formed(),
        old(copier).attachment_count + pointers@.len() <= u64::MAX,
        sources@.len() == pointers@.len(),
    ensures
        final(copier).is_well_formed(),
        (final(copier)@, shown_attachments(done.0@), shown_orders(done.1@)) == attach_all(
            old(copier)@,
            payload::seen_all(pointers@),
            shown_sources(sources@),
        ),
{
    let ghost start = copier@;
    let ghost all = payload::seen_all(pointers@);
    let ghost found = shown_sources(sources@);
    let mut attachments: Vec<AttachmentRecord> = Vec::new();
    let mut orders: Vec<CopyOrder> = Vec::new();
    let mut i: usize = 0;
    assert(shown_attachments(attachments@) =~= Seq::<AttachmentView>::empty());
    assert(shown_orders(orders@) =~= Seq::<OrderView>::empty());
    assert(all.take(0).len() == 0);
    while i < pointers.len()
        invariant
            i <= pointers@.len(),
            all == payload::seen_all(pointers@),
            found == shown_sources(sources@),
            sources@.len() == pointers@.len(),
            start.attachment_count + pointers@.len() <= u64::MAX,
            copier.is_well_formed(),
            (copier@, shown_attachments(attachments@), shown_orders(orders@)) == attach_all(
                start,
                all.take(i as int),
                found.take(i as int),
            ),
        decreases pointers@.len() - i,
    {
        let ghost before = copier@;
        proof {
            lemma_attachment_count(start, all.take(i as int), found.take(i as int));
            assert(all.take(i as int + 1).drop_last() =~= all.take(i as int));
            assert(found.take(i as int + 1).drop_last() =~= found.take(i as int));
            assert(all[i as int] == pointers@[i as int]@);
            assert(found[i as int] == text::shown(sources@[i as int]));
        }
        let source = match &sources[i] {
            Some(held) => Some(held.as_str()),
            None => None,
        };
        let ghost sofar = shown_attachments(attachments@);
        let ghost ordered = shown_orders(orders@);
        let (attachment, order) = copier.attachment_record(pointers[i], source);
        attachments.push(attachment);
        assert(shown_attachments(attachments@) =~= sofar.push(attachments@.last()@));
        if let Some(wanted) = order {
            orders.push(wanted);
            assert(shown_orders(orders@) =~= ordered.push(orders@.last()@));
        }
        i = i + 1;
    }
    assert(all.take(i as int) =~= all);
    assert(found.take(i as int) =~= found);
    (attachments, orders)
}

// ---------------------------------------------------------------------------
// The record of a message
// ---------------------------------------------------------------------------

/// The text in some bytes; nothing where they are not UTF-8.
pub open spec fn text_in(bytes: Option<Seq<u8>>) -> Option<Seq<char>> {
    match bytes {
        Some(held) => if vstd::utf8::valid_utf8(held) {
            Some(vstd::utf8::decode_utf8(held))
        } else {
            None
        },
        None => None,
    }
}

pub open spec fn shown_bytes(bytes: Option<Vec<u8>>) -> Option<Seq<u8>> {
    match bytes {
        Some(held) => Some(held@),
        None => None,
    }
}

/// `String::from_utf8`: the characters that the bytes encode, where the bytes are
/// valid UTF-8.
#[verifier::external_body]
fn decode_text(bytes: Vec<u8>) -> (decoded: Option<String>)
    ensures
        text::shown(decoded) == text_in(Some(bytes@)),
{
    String::from_utf8(bytes).ok()
}

/// The text of a message: that in its file, unless it is missing or empty.
pub open spec fn full_text(short: Option<Seq<char>>, long: Option<Seq<char>>) -> Option<Seq<char>> {
    match long {
        Some(held) => if held.len() > 0 {
            long
        } else {
            short
        },
        None => short,
    }
}

/// A message as an export tells it, given what a clock showed when it was sent
/// and what was found of its files.
pub open spec fn message_told(
    message: JsonView,
    conversation: Conversation,
    index: ArchiveIndex,
    copier: CopierView,
    timestamp_ms: i64,
    time: LocalTime,
    long_text: Option<Seq<u8>>,
    sources: Seq<Option<Seq<char>>>,
) -> MessageView {
    let payload = payload::payload_of(message);
    let kind = payload::kind_of(message);
    let author_id = id_or_empty(message, "authorId"@);
    MessageView {
        conversation_id: conversation.id@,
        conversation_name: conversation.name@,
        timestamp: calendar::time_text(time),
        timestamp_ms,
        author: AuthorView { id: author_id, name: index.author_name_text(author_id) },
        direction: direction_of(message),
        message_type: kind,
        text: if long_text_pointer(message) is Some {
            full_text(payload::text_of(kind, payload), text_in(long_text))
        } else {
            payload::text_of(kind, payload)
        },
        quote: quote_of(index, payload),
        reactions: reactions_of(index, payload),
        attachments: attach_all(copier, pointers_of(message), sources).1,
        signal_data: payload::passed_data(message),
    }
}

fn find_direction(message: &Json) -> (direction: String)
    ensures
        direction@ == direction_of(message@),
{
    if message.has("incoming") {
        "incoming".to_owned()
    } else if message.has("outgoing") {
        "outgoing".to_owned()
    } else {
        "directionless".to_owned()
    }
}

fn find_full_text(
    message_type: &str,
    payload: Option<&Json>,
    long_text: Option<Vec<u8>>,
) -> (shown: Option<String>)
    ensures
        ({
            let held = json::seen(payload);
            let short = payload::text_of(message_type@, held);
            text::shown(shown) == if held is Some && held->0.object_member("longText"@) is Some {
                full_text(short, text_in(shown_bytes(long_text)))
            } else {
                short
            }
        }),
{
    let short = message_text(message_type, payload);
    let has_long = match payload {
        Some(held) => held.object_member("longText").is_some(),
        None => false,
    };
    if has_long {
        if let Some(bytes) = long_text {
            if let Some(long) = decode_text(bytes) {
                if !long.as_str().is_empty() {
                    return Some(long);
                }
            }
        }
    }
    short
}

/// The message as the export tells it, given what a clock showed when it was sent
/// and what was found of its files; and the copies that there are to make.
pub fn message_record(
    message: &Json,
    conversation: &Conversation,
    index: &ArchiveIndex,
    copier: &mut MediaCopier,
    timestamp_ms: i64,
    time: LocalTime,
    found: FoundMedia,
) -> (done: (MessageRecord, Vec<CopyOrder>))
    requires
        old(copier).is_well_formed(),
        old(copier).attachment_count + pointers_of(message@).len() <= u64::MAX,
        found.sources@.len() == pointers_of(message@).len(),
        time.is_valid(),
    ensures
        final(copier).is_well_formed(),
        final(copier)@ == attach_all(
            old(copier)@,
            pointers_of(message@),
            shown_sources(found.sources@),
        ).0,
        done.0@ == message_told(
            message@,
            *conversation,
            *index,
            old(copier)@,
            timestamp_ms,
            time,
            shown_bytes(found.long_text),
            shown_sources(found.sources@),
        ),
        shown_orders(done.1@) == attach_all(
            old(copier)@,
            pointers_of(message@),
            shown_sources(found.sources@),
        ).2,
{
    let author_id = find_id_or_empty(message, "authorId");
    let author = AuthorRecord { name: index.author_name(author_id.as_str()), id: author_id };
    let (message_type, payload) = message_payload(message);
    let text = find_full_text(message_type.as_str(), payload, found.long_text);
    let quote = find_quote(index, payload);
    let reactions = find_reactions(index, payload);
    let pointers = match payload {
        Some(held) => collect_file_pointers(held),
        None => {
            let none: Vec<&Json> = Vec::new();
            assert(payload::seen_all(none@) =~= Seq::<JsonView>::empty());
            none
        },
    };
    assert(payload::seen_all(pointers@) == pointers_of(message@));
    assert(payload::seen_all(pointers@).len() == pointers@.len());
    let (attachments, orders) = attachment_records(copier, &pointers, &found.sources);
    let record = MessageRecord {
        conversation_id: conversation.id.clone(),
        conversation_name: conversation.name.clone(),
        timestamp: time.to_text(),
        timestamp_ms,
        author,
        direction: find_direction(message),
        message_type,
        text,
        quote,
        reactions,
        attachments,
        signal_data: sanitized_signal_data(message),
    };
    (record, orders)
}

/// The message as the export tells it, and the copies that there are to make.
/// The time of the message is that of the machine's time zone.
pub fn normalize_message(
    message: &Json,
    conversation: &Conversation,
    index: &ArchiveIndex,
    copier: &mut MediaCopier,
    found: FoundMedia,
) -> (result: Result<(MessageRecord, Vec<CopyOrder>), AppError>)
    requires
        old(copier).is_well_formed(),
        old(copier).attachment_count + pointers_of(message@).len() <= u64::MAX,
        found.sources@.len() == pointers_of(message@).len(),
    ensures
        final(copier).is_well_formed(),
        match result {
            Ok((record, orders)) => {
                &&& parser::sent_at(message@) is Some
                &&& calendar::has_local_time(parser::sent_at(message@)->0)
                &&& final(copier)@ == attach_all(
                    old(copier)@,
                    pointers_of(message@),
                    shown_sources(found.sources@),
                ).0
                &&& shown_orders(orders@) == attach_all(
                    old(copier)@,
                    pointers_of(message@),
                    shown_sources(found.sources@),
                ).2
                &&& exists|time: LocalTime| #[trigger]
                    time.shows(parser::sent_at(message@)->0) && record@ == message_told(
                        message@,
                        *conversation,
                        *index,
                        old(copier)@,
                        archive::sent_ms(message@),
                        time,
                        shown_bytes(found.long_text),
                        shown_sources(found.sources@),
                    )
            },
            Err(error) => {
                &&& error is InvalidTimestamp
                &&& final(copier)@ == old(copier)@
                &&& parser::sent_at(message@) is None || !calendar::has_local_time(
                    parser::sent_at(message@)->0,
                )
            },
        },
{
    let timestamp_ms: i64 = match chat_item_timestamp_ms(message) {
        Some(timestamp_ms) => timestamp_ms,
        None => {
            return Err(AppError::InvalidTimestamp);
        },
    };
    match timestamp_to_local(timestamp_ms) {
        Ok(time) => {
            assert(time.shows(parser::sent_at(message@)->0));
            Ok(message_record(message, conversation, index, copier, timestamp_ms, time, found))
        },
        Err(error) => Err(error),
    }
}

} // verus!
