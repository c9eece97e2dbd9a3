//! Archives, the people in them, and messages as an export tells them.

use signal_filter::archive::ArchiveBuilder;
use signal_filter::assembly::message_piece;
use signal_filter::calendar::{CalendarDate, LocalTime};
use signal_filter::copier::MediaCopier;
use signal_filter::json::{parse_json, Json};
use signal_filter::markdown::{
    escape_markdown, markdown_header, markdown_message, percent_encode_path,
};
use signal_filter::media::{pick_media_file, sanitize_file_name, MediaEntry, MediaPlace};
use signal_filter::message::{
    media_needs, message_record, normalize_message, participants, AuthorRecord, FoundMedia,
    MessageRecord, LONG_TEXT_LIMIT,
};
use signal_filter::model::Recipient;
use signal_filter::parser::{
    chat_item_timestamp_ms, contact_name, is_technical_update, locate_main_jsonl, normalize_id,
    recipient_from_raw, value_as_i64, value_as_u64, SourceKind,
};
use signal_filter::payload::{
    collect_file_pointers, humanize_key, message_payload, message_text, sanitized_signal_data,
};
use signal_filter::{build_archive_index, AppError, ArchiveIndex, Conversation, ExportFormat};

fn json(text: &str) -> Json {
    parse_json(text).expect("test JSON should be valid")
}

fn archive(lines: &[&str]) -> Result<ArchiveIndex, AppError> {
    let lines = lines.iter().map(|line| (*line).to_owned()).collect::<Vec<_>>();
    build_archive_index("/x", SourceKind::Folder { has_main_jsonl: true }, &lines)
}

const HEADER: &str = r#"{"version":"1","backupTimeMs":"1"}"#;

#[test]
fn the_archive_file_is_found() {
    let folder = SourceKind::Folder { has_main_jsonl: true };
    assert_eq!(
        locate_main_jsonl("/x/y", folder).expect("found"),
        (String::from("/x/y/main.jsonl"), String::from("/x/y"))
    );
    assert_eq!(
        locate_main_jsonl("/x/other.JSONL", SourceKind::File).expect("found"),
        (String::from("/x/other.JSONL"), String::from("/x"))
    );
    assert_eq!(
        locate_main_jsonl("main.jsonl", SourceKind::File).expect("found"),
        (String::from("main.jsonl"), String::new())
    );
    assert!(matches!(
        locate_main_jsonl("/x", SourceKind::Folder { has_main_jsonl: false }),
        Err(AppError::MainJsonlMissing)
    ));
    assert!(matches!(
        locate_main_jsonl("/x/a.json", SourceKind::File),
        Err(AppError::WrongSourceType)
    ));
    assert!(matches!(
        locate_main_jsonl("/x", SourceKind::Missing),
        Err(AppError::SourceNotFound)
    ));
}

#[test]
fn every_fault_of_an_archive_is_told_with_its_line() {
    assert!(matches!(
        archive(&[HEADER, "", "{x}"]),
        Err(AppError::InvalidJson { line: 3, .. })
    ));
    assert!(matches!(archive(&[HEADER, "[1]"]), Err(AppError::NonObjectLine { line: 2 })));
    assert!(matches!(
        archive(&[HEADER, r#"{"chatItem":{"chatId":""}}"#]),
        Err(AppError::MissingChatId { line: 2 })
    ));
    assert!(matches!(
        archive(&[r#"{"chatItem":{"chatId":1,"dateSent":"soon"}}"#, "{x}"]),
        Err(AppError::InvalidDateSent { line: 1 })
    ));
    assert!(matches!(
        archive(&[r#"{"chatItem":{"chatId":1,"dateSent":9223372036854775807}}"#]),
        Err(AppError::InvalidDateSent { line: 1 })
    ));
    assert!(matches!(
        archive(&[r#"{"chat":{"id":"1"}}"#]),
        Err(AppError::MissingHeader)
    ));
    assert!(matches!(archive(&[HEADER]), Err(AppError::NoConversations)));
    assert!(matches!(archive(&[]), Err(AppError::MissingHeader)));
}

#[test]
fn the_last_record_counts_and_blank_lines_do_not() {
    let index = archive(&[
        HEADER,
        "  ",
        r#"{"account":{"givenName":" "}}"#,
        r#"{"recipient":{"id":1,"self":{}}}"#,
        r#"{"recipient":{"id":2,"contact":{"username":"first"}}}"#,
        r#"{"recipient":{"id":"2","contact":{"username":"  second   name "}}}"#,
        r#"{"chat":{"id":7,"recipientId":1}}"#,
        r#"{"chat":{"id":7,"recipientId":2}}"#,
        r#"{"chat":{"id":8,"recipientId":99}}"#,
        r#"{"chatItem":{"chatId":"7","authorId":2,"dateSent":"2000"}}"#,
        r#"{"chatItem":{"chatId":"7","authorId":2,"dateSent":0}}"#,
        r#"{"chatItem":{"chatId":"7","authorId":1,"dateSent":1000}}"#,
        r#"{"chatItem":{"chatId":"9"}}"#,
        "",
    ])
    .expect("a sound archive");
    assert_eq!(index.account_name, "You");
    assert_eq!(index.source_file, "/x/main.jsonl");
    assert_eq!(index.export_root, "/x");
    assert_eq!(index.total_lines, 13);
    assert_eq!(index.author_name("1"), "You");
    assert_eq!(index.author_name("2"), "second name");
    assert_eq!(index.author_name("3"), "Unknown recipient 3");
    let chat = index.find_conversation("7").expect("indexed");
    assert_eq!((chat.name.as_str(), chat.kind.as_str()), ("second name", "contact"));
    assert_eq!(chat.message_count, 3);
    assert_eq!((chat.first_timestamp_ms, chat.last_timestamp_ms), (Some(1000), Some(2000)));
    let mut authors = chat.author_ids.clone();
    authors.sort();
    assert_eq!(authors, vec!["1", "2"]);
    let unknown = index.find_conversation("8").expect("indexed");
    assert_eq!((unknown.name.as_str(), unknown.kind.as_str()), ("Unknown chat 8", "unknown"));
    assert_eq!(unknown.recipient_id, "99");
    let bare = index.find_conversation("9").expect("indexed");
    assert_eq!((bare.message_count, bare.recipient_id.as_str()), (1, ""));
    assert!(bare.first_local_datetime().expect("no time").is_none());
    assert!(chat.last_local_datetime().expect("a time").is_some());
    let total: u64 = index.conversations.iter().map(|chat| chat.message_count).sum();
    assert_eq!(total, 4);
}

#[test]
fn lines_can_be_added_one_by_one() {
    let mut builder = ArchiveBuilder::new();
    builder.add_line(HEADER).expect("sound");
    builder.add_line(" ").expect("sound");
    builder.add_line(r#"{"chat":{"id":"5"}}"#).expect("sound");
    assert!(matches!(builder.add_line("7"), Err(AppError::NonObjectLine { line: 4 })));
    let index = builder.finish(String::from("f"), String::from("r")).expect("sound");
    assert_eq!(index.conversations.len(), 1);
    assert_eq!(index.total_lines, 3);
}

#[test]
fn ids_and_numbers_are_read_from_text_and_numbers() {
    assert_eq!(normalize_id(&json("\"a\"")).as_deref(), Some("a"));
    assert_eq!(normalize_id(&json("\"\"")), None);
    assert_eq!(normalize_id(&json("17")).as_deref(), Some("17"));
    assert_eq!(normalize_id(&json("1.5")).as_deref(), Some("1.5"));
    assert_eq!(normalize_id(&json("true")).as_deref(), Some("true"));
    assert_eq!(normalize_id(&json("false")).as_deref(), Some("false"));
    assert_eq!(normalize_id(&json("null")), None);
    assert_eq!(normalize_id(&json("[]")), None);
    assert_eq!(value_as_i64(&json("\"-5\"")), Some(-5));
    assert_eq!(value_as_i64(&json("-5")), Some(-5));
    assert_eq!(value_as_i64(&json("1.0")), None);
    assert_eq!(value_as_i64(&json("18446744073709551615")), None);
    assert_eq!(value_as_u64(&json("18446744073709551615")), Some(18446744073709551615));
    assert_eq!(value_as_u64(&json("\"7\"")), Some(7));
    assert_eq!(value_as_u64(&json("-1")), None);
    assert_eq!(value_as_u64(&json("{}")), None);
    assert_eq!(chat_item_timestamp_ms(&json("{}")), Some(0));
    assert_eq!(chat_item_timestamp_ms(&json(r#"{"dateSent":null}"#)), None);
    assert!(is_technical_update(&json(r#"{"updateMessage":{}}"#)));
    assert!(is_technical_update(&json(r#"{"simpleUpdate":{}}"#)));
    assert!(!is_technical_update(&json(r#"{"updateMessage":1}"#)));
}

#[test]
fn contacts_are_called_by_the_first_name_that_they_have() {
    let cases = [
        (r#"{"nickname":{"given":"N","family":"M"},"systemGivenName":"S"}"#, "N M"),
        (r#"{"nickname":{"given":" "},"systemGivenName":"S","systemFamilyName":"T"}"#, "S T"),
        (r#"{"systemGivenName":"","profileFamilyName":"P"}"#, "P"),
        (r#"{"systemNickname":"Nick","username":"U"}"#, "Nick"),
        (r#"{"username":"U","e164":491}"#, "U"),
        (r#"{"e164":491}"#, "491"),
        (r#"{}"#, ""),
    ];
    for (contact, name) in cases {
        assert_eq!(contact_name(&json(contact)), name, "{contact}");
    }
}

#[test]
fn recipients_are_told_by_what_they_are() {
    let cases = [
        (r#"{"contact":{"e164":"+1"}}"#, "+1", "contact"),
        (r#"{"destination":{"contact":{}}}"#, "Unknown contact 4", "contact"),
        (r#"{"group":{"snapshot":{"title":{"title":"G  1"}}}}"#, "G 1", "group"),
        (r#"{"group":{}}"#, "Unnamed group 4", "group"),
        (r#"{"self":null}"#, "Me", "self"),
        (r#"{"releaseNotes":{}}"#, "Signal", "release notes"),
        (r#"{"distributionList":{"distributionList":{"name":"L"}}}"#, "L", "story list"),
        (r#"{"distributionList":{}}"#, "Story list 4", "story list"),
        (r#"{}"#, "Unknown recipient 4", "unknown"),
    ];
    for (raw, name, kind) in cases {
        let recipient = recipient_from_raw("4", &json(raw), "Me");
        assert_eq!(
            recipient,
            Recipient { id: String::from("4"), name: name.to_owned(), kind: kind.to_owned() },
            "{raw}"
        );
    }
}

#[test]
fn keys_become_words() {
    assert_eq!(humanize_key("standardMessage"), "Standard message");
    assert_eq!(humanize_key("directStoryReplyMessage"), "Direct story reply message");
    assert_eq!(humanize_key("IDENTITY_UPDATE"), "I d e n t i t y u p d a t e");
    assert_eq!(humanize_key("_-a--b_"), "a b");
    assert_eq!(humanize_key("\u{df}x"), "SSx");
    assert_eq!(humanize_key(""), "");
}

#[test]
fn every_kind_of_message_has_its_text() {
    let cases = [
        (r#"{"standardMessage":{"text":{"body":"hi"}}}"#, "Standard message", Some("hi")),
        (r#"{"standardMessage":{}}"#, "Standard message", None),
        (r#"{"contactMessage":{}}"#, "Contact message", Some("[Shared contact]")),
        (
            r#"{"stickerMessage":{"sticker":{"emoji":"X"}}}"#,
            "Sticker message",
            Some("[Sticker X]"),
        ),
        (r#"{"stickerMessage":{}}"#, "Sticker message", Some("[Sticker sticker]")),
        (r#"{"remoteDeletedMessage":{}}"#, "Remote deleted message", Some("[Message deleted]")),
        (
            r#"{"updateMessage":{"simpleUpdate":{"type":"joinedSignal"}}}"#,
            "Update message",
            Some("[Joined signal]"),
        ),
        (r#"{"updateMessage":{}}"#, "Update message", Some("[Chat update]")),
        (r#"{"paymentNotification":{}}"#, "Payment notification", Some("[Payment notification]")),
        (r#"{"giftBadge":{}}"#, "Gift badge", Some("[Gift badge]")),
        (r#"{"viewOnceMessage":{}}"#, "View once message", Some("[View-once message]")),
        (
            r#"{"directStoryReplyMessage":{"emoji":"!"}}"#,
            "Direct story reply message",
            Some("Story reply: !"),
        ),
        (
            r#"{"directStoryReplyMessage":{"textReply":{"text":{"body":"yes"}}}}"#,
            "Direct story reply message",
            Some("yes"),
        ),
        (r#"{"poll":{}}"#, "Poll", Some("[Poll]")),
        (r#"{"standardMessage":1}"#, "Unknown message", None),
    ];
    for (text, kind, shown) in cases {
        let message = json(text);
        let (found, payload) = message_payload(&message);
        assert_eq!(found, kind, "{text}");
        assert_eq!(message_text(&found, payload).as_deref(), shown, "{text}");
    }
}

#[test]
fn pointers_are_collected_depth_first_and_not_inside_each_other() {
    let payload = json(
        r#"{
            "a": {"locatorInfo": {}, "fileName": "1", "inner": {"locatorInfo": {}, "width": 2}},
            "b": [{"pointer": {"locatorInfo": {}, "caption": "2"}}, 7, {"locatorInfo": {}}],
            "c": {"d": {"locatorInfo": null, "height": 1}}
        }"#,
    );
    let found = collect_file_pointers(&payload);
    assert_eq!(found.len(), 3);
    assert_eq!(found[0].text_member("fileName"), Some("1"));
    assert_eq!(found[1].text_member("caption"), Some("2"));
    assert!(found[2].has("height"));
}

#[test]
fn what_is_passed_on_holds_no_key_of_a_file() {
    let data = sanitized_signal_data(&json(
        r#"{"chatId":"1","authorId":"2","dateSent":"3","incoming":{},"standardMessage":{
            "attachments":[{"pointer":{"locatorInfo":{"localKey":"k"},"incrementalMac":"m",
            "incrementalMacChunkSize":1,"fileName":"f","chatId":"kept"}}]}}"#,
    ));
    let shown = format!("{data:?}");
    for key in ["locatorInfo", "localKey", "incrementalMac", "incrementalMacChunkSize", "dateSent"]
    {
        assert!(!shown.contains(&format!("\"{key}\"")), "{key}");
    }
    assert!(!data.has("chatId"));
    assert!(!data.has("authorId"));
    assert!(data.has("incoming"));
    assert!(shown.contains("kept"));
}

fn index_with(recipients: Vec<(&str, &str)>) -> ArchiveIndex {
    ArchiveIndex {
        source_file: String::from("/x/main.jsonl"),
        export_root: String::from("/x"),
        account_name: String::from("You"),
        recipients: recipients
            .into_iter()
            .map(|(id, name)| Recipient {
                id: id.to_owned(),
                name: name.to_owned(),
                kind: String::from("contact"),
            })
            .collect(),
        conversations: Vec::new(),
        total_lines: 0,
    }
}

fn chat(author_ids: Vec<&str>) -> Conversation {
    Conversation {
        id: String::from("7"),
        recipient_id: String::from("1"),
        name: String::from("Chat"),
        kind: String::from("contact"),
        message_count: 1,
        is_technical_update_only: false,
        first_timestamp_ms: None,
        last_timestamp_ms: None,
        author_ids: author_ids.into_iter().map(str::to_owned).collect(),
    }
}

#[test]
fn participants_stand_by_name_and_then_by_id() {
    let index = index_with(vec![("1", "zoe"), ("2", "Adam"), ("3", "adam"), ("4", "Bo")]);
    let authors = participants(&index, &chat(vec!["3", "1", "4", "2", "9"]));
    let shown =
        authors.iter().map(|author| (author.id.as_str(), author.name.as_str())).collect::<Vec<_>>();
    assert_eq!(
        shown,
        vec![("2", "Adam"), ("3", "adam"), ("4", "Bo"), ("9", "Unknown recipient 9"), ("1", "zoe")]
    );
}

fn noon() -> LocalTime {
    LocalTime {
        date: CalendarDate { year: 2024, month: 1, day: 2 },
        hour: 12,
        minute: 0,
        second: 0,
        offset_seconds: 0,
    }
}

fn copier(include_media: bool) -> MediaCopier {
    MediaCopier::new_with_directory(
        String::from("/x"),
        String::from("/s"),
        include_media,
        "chat-media",
    )
}

fn told(
    message: &Json,
    copier: &mut MediaCopier,
    long_text: Option<Vec<u8>>,
    sources: Vec<Option<String>>,
) -> MessageRecord {
    let index = index_with(vec![("1", "Ann"), ("2", "Bob")]);
    let found = FoundMedia { long_text, sources };
    message_record(message, &chat(vec![]), &index, copier, 5, noon(), found).0
}

#[test]
fn a_message_is_told_with_quote_reactions_and_direction() {
    let message = json(
        r#"{"authorId":1,"outgoing":{},"standardMessage":{"text":{"body":"short"},
            "quote":{"authorId":"2","text":{"body":"old\nwords"}},
            "reactions":[{"emoji":"+","authorId":2},{"authorId":1},{"emoji":"-"},3]}}"#,
    );
    let record = told(&message, &mut copier(false), None, Vec::new());
    assert_eq!(record.conversation_id, "7");
    assert_eq!(record.conversation_name, "Chat");
    assert_eq!(record.timestamp, "2024-01-02T12:00:00Z");
    assert_eq!(record.timestamp_ms, 5);
    assert_eq!((record.author.id.as_str(), record.author.name.as_str()), ("1", "Ann"));
    assert_eq!(record.direction, "outgoing");
    assert_eq!(record.text.as_deref(), Some("short"));
    let quote = record.quote.as_ref().expect("a quote");
    assert_eq!((quote.author.as_str(), quote.text.as_str()), ("Bob", "old\nwords"));
    let reactions = record
        .reactions
        .iter()
        .map(|reaction| (reaction.emoji.as_str(), reaction.author.as_str()))
        .collect::<Vec<_>>();
    assert_eq!(reactions, vec![("+", "Bob"), ("-", "Unknown recipient ")]);
    assert_eq!(
        markdown_message(&record),
        "### 2024\\-01\\-02T12:00:00Z · Ann\n\n> **Quoted from Bob**\n> old\n> words\n\nshort  \n\
         \n_Reactions: \\+ Bob · \\- Unknown recipient _\n\n---\n\n"
    );
}

#[test]
fn a_long_text_takes_the_place_of_a_short_one() {
    let message = json(
        r#"{"standardMessage":{"text":{"body":"short"},"longText":{"locatorInfo":{}}}}"#,
    );
    let text = |bytes: Option<Vec<u8>>| told(&message, &mut copier(false), bytes, Vec::new()).text;
    assert_eq!(text(Some(b"long \xe2\x82\xac".to_vec())).as_deref(), Some("long \u{20ac}"));
    assert_eq!(text(Some(Vec::new())).as_deref(), Some("short"));
    assert_eq!(text(Some(vec![0xff])).as_deref(), Some("short"));
    assert_eq!(text(None).as_deref(), Some("short"));
    let plain = json(r#"{"standardMessage":{"text":{"body":"short"}}}"#);
    let record = told(&plain, &mut copier(false), Some(b"stray".to_vec()), Vec::new());
    assert_eq!(record.text.as_deref(), Some("short"));
}

#[test]
fn attachments_are_counted_named_and_copied_once() {
    let message = json(
        r#"{"standardMessage":{"attachments":[
            {"pointer":{"locatorInfo":{},"fileName":"a?.png","contentType":"image/png","width":"3"}},
            {"pointer":{"locatorInfo":{},"caption":"C"}},
            {"pointer":{"locatorInfo":{},"height":4}},
            {"pointer":{"locatorInfo":{},"fileName":"again.png"}}]}}"#,
    );
    let sources = vec![
        Some(String::from("/x/files/ab/ab1.png")),
        None,
        Some(String::from("/x/files/cd/cd2.jpeg")),
        Some(String::from("/x/files/ab/ab1.png")),
    ];
    let mut media = copier(true);
    let index = index_with(vec![]);
    let needs = media_needs(&message, &media);
    assert_eq!(needs.attachments.len(), 4);
    assert!(needs.long_text.is_none());
    let found = FoundMedia { long_text: None, sources: sources.clone() };
    let (record, orders) =
        message_record(&message, &chat(vec![]), &index, &mut media, 5, noon(), found);
    let names = record
        .attachments
        .iter()
        .map(|attachment| (attachment.file_name.as_str(), attachment.exported_path.as_deref()))
        .collect::<Vec<_>>();
    assert_eq!(
        names,
        vec![
            ("a.png", Some("chat-media/0001-a.png")),
            ("attachment-0002", None),
            ("attachment-0003.jpeg", Some("chat-media/0002-attachment-0003.jpeg")),
            ("again.png", Some("chat-media/0001-a.png")),
        ]
    );
    assert_eq!(record.attachments[0].width, Some(3));
    assert_eq!(record.attachments[0].content_type.as_deref(), Some("image/png"));
    assert_eq!(record.attachments[2].height, Some(4));
    assert!(!record.attachments[1].source_available);
    assert_eq!((media.copied_count, media.missing_count, media.attachment_count), (2, 1, 4));
    let copied = orders
        .iter()
        .map(|order| (order.source.as_str(), order.destination.as_str()))
        .collect::<Vec<_>>();
    assert_eq!(
        copied,
        vec![
            ("/x/files/ab/ab1.png", "/s/chat-media/0001-a.png"),
            ("/x/files/cd/cd2.jpeg", "/s/chat-media/0002-attachment-0003.jpeg"),
        ]
    );
    assert_eq!((orders[0].root.as_str(), orders[0].folder.as_str()), ("/s", "chat-media"));
    assert!(markdown_message(&record).contains(
        "_Standard message_\n\n\n📎 [a.png](chat-media/0001-a.png)\n\
         \n📎 C _(not available in source)_\n"
    ));

    let record = told(&message, &mut copier(false), None, sources);
    assert!(record.attachments.iter().all(|attachment| attachment.exported_path.is_none()));
    assert!(markdown_message(&record)
        .contains("\n📎 a.png _(available in source; not copied)_\n"));
}

#[test]
fn the_first_file_with_the_name_of_the_attachment_is_taken() {
    let place = MediaPlace {
        files_root: String::from("/x/files"),
        folder: String::from("/x/files/ab"),
        name: String::from("abc"),
    };
    let entry = |name: &str, is_file| MediaEntry { name: name.to_owned(), is_file };
    let entries = vec![
        entry("abcd", true),
        entry("abc.png", false),
        entry("abc.jpg", true),
        entry("abc", true),
    ];
    assert_eq!(pick_media_file(&place, false, &entries).as_deref(), Some("/x/files/ab/abc.jpg"));
    assert_eq!(pick_media_file(&place, true, &entries), None);
    assert_eq!(pick_media_file(&place, false, &vec![entry("abcd", true)]), None);
    assert_eq!(pick_media_file(&place, false, &Vec::new()), None);
    assert_eq!(LONG_TEXT_LIMIT, 16 * 1024 * 1024);
}

#[test]
fn a_message_without_a_valid_time_is_refused() {
    let index = index_with(vec![]);
    for text in [r#"{"dateSent":"x"}"#, r#"{"dateSent":9223372036854775807}"#] {
        let found = FoundMedia { long_text: None, sources: Vec::new() };
        let result =
            normalize_message(&json(text), &chat(vec![]), &index, &mut copier(false), found);
        assert!(matches!(result, Err(AppError::InvalidTimestamp)));
    }
    let found = FoundMedia { long_text: None, sources: Vec::new() };
    let (record, _) =
        normalize_message(&json("{}"), &chat(vec![]), &index, &mut copier(false), found)
            .expect("zero is a time");
    assert_eq!(record.timestamp_ms, 0);
    assert_eq!(record.direction, "directionless");
}

#[test]
fn markdown_keeps_characters_as_they_are() {
    assert_eq!(escape_markdown("a & <b> *c*"), "a &amp; &lt;b&gt; \\*c\\*");
    assert_eq!(escape_markdown("\\_[]`#+-!|{}"), "\\\\\\_\\[\\]\\`\\#\\+\\-\\!\\|\\{\\}");
    assert_eq!(escape_markdown("\u{e9}.("), "\u{e9}.(");
    assert_ne!(escape_markdown("&lt;"), escape_markdown("<"));
    assert_eq!(percent_encode_path("a/b-c_d.e~f"), "a/b-c_d.e~f");
    assert_eq!(percent_encode_path("x (1)\u{e9}%.jpg"), "x%20%281%29%C3%A9%25.jpg");
}

#[test]
fn the_head_of_a_markdown_document_tells_its_chat() {
    let authors = vec![
        AuthorRecord { id: String::from("1"), name: String::from("A_b") },
        AuthorRecord { id: String::from("2"), name: String::from("C") },
    ];
    assert_eq!(
        markdown_header(
            "2024-01-02T12:00:00Z",
            "Chat #1",
            None,
            Some(CalendarDate { year: 2024, month: 1, day: 2 }),
            true,
            &authors,
        ),
        "# Chat \\#1\n\n- Exported: `2024\\-01\\-02T12:00:00Z`\n\
         - Dates: `earliest` to `2024-01-02` (local)\n- Media: included\n\
         - Participants: A\\_b, C\n\n---\n\n"
    );
    assert_eq!(
        markdown_header("t", "x", None, None, false, &Vec::new()),
        "# x\n\n- Exported: `t`\n- Dates: `earliest` to `latest` (local)\n\
         - Media: not included\n- Participants: \n\n---\n\n"
    );
}

#[test]
fn a_known_file_is_not_copied_again() {
    let mut media = copier(true);
    media.attachment_count = 2;
    let (first, order) = media.copy_once("/x/files/ab/1", "a?.png");
    assert_eq!(first, "chat-media/0001-a.png");
    assert_eq!(order.expect("an order").destination, "/s/chat-media/0001-a.png");
    let (again, order) = media.copy_once("/x/files/ab/1", "other.png");
    assert_eq!((again, order.is_none(), media.copied_count), (first.clone(), true, 1));
    let (second, order) = media.copy_once("/x/files/cd/2", "a?.png");
    assert_eq!(second, "chat-media/0002-a.png");
    assert!(order.is_some() && second != first);
    assert_eq!((media.copied_count, media.copied.len()), (2, 2));
}

#[test]
fn pieces_follow_the_format() {
    let record = told(&json(r#"{"authorId":1}"#), &mut copier(false), None, Vec::new());
    let piece = |format, first| message_piece(format, first, &record, "{}");
    assert_eq!(piece(ExportFormat::Json, true), "    {}");
    assert_eq!(piece(ExportFormat::Json, false), ",\n    {}");
    assert_eq!(piece(ExportFormat::Markdown, true), markdown_message(&record));
    assert_eq!(piece(ExportFormat::Markdown, false), markdown_message(&record));
}

#[test]
fn the_folder_and_its_file_name_the_same_archive() {
    let kind = SourceKind::Folder { has_main_jsonl: true };
    let folder = locate_main_jsonl("/x/y", kind).expect("found");
    let file = locate_main_jsonl("/x/y/main.jsonl", SourceKind::File).expect("found");
    assert_eq!(folder, file);
}

#[test]
fn texts_are_escaped_part_by_part_and_names_stay_safe() {
    let (front, back) = ("a*<", "&_b");
    assert_eq!(
        escape_markdown(&format!("{front}{back}")),
        format!("{}{}", escape_markdown(front), escape_markdown(back))
    );
    for name in [" ..a/b?.png. ", "..", "plain.txt"] {
        let safe = sanitize_file_name(name);
        assert_eq!(sanitize_file_name(&safe), safe);
    }
}
