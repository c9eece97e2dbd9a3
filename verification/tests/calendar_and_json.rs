//! Dates, times and JSON, held against the crates that the library builds on.

use chrono::{Datelike, FixedOffset, Local, NaiveDate, SecondsFormat, TimeZone, Timelike};

use signal_filter::calendar::{
    date_is_in_range, date_shown, parsed_date, range_is_reversed, timestamp_date,
    timestamp_is_in_range, timestamp_to_local, CalendarDate, LocalTime,
};
use signal_filter::documents::{
    combined_before, combined_end, combined_start, json_footer, json_header, json_message,
};
use signal_filter::json::{parse_json, pretty_object, pretty_rows, quote, Entry, Field, Json};
use signal_filter::media::{decode_hex, decode_signal_bytes, encode_hex, is_media_entry, media_name};
use signal_filter::message::AuthorRecord;
use signal_filter::{AppError, Conversation, ExportFormat};

const STAMPS: [i64; 10] = [
    0,
    1,
    -1,
    999,
    -999,
    1_704_067_200_000,
    1_709_251_199_999,
    -62_135_596_800_000,
    253_402_300_799_000,
    8_210_266_876_799_999,
];

fn day(year: i32, month: u32, day: u32) -> CalendarDate {
    CalendarDate { year, month, day }
}

#[test]
fn local_times_are_those_of_chrono() {
    for stamp in STAMPS {
        let expected = Local.timestamp_millis_opt(stamp).single().expect("the time exists");
        let time = timestamp_to_local(stamp).expect("the time exists");
        assert_eq!(time.date, day(expected.year(), expected.month(), expected.day()), "{stamp}");
        assert_eq!(
            (time.hour, time.minute, time.second),
            (expected.hour(), expected.minute(), expected.second()),
            "{stamp}"
        );
        assert_eq!(time.to_text(), expected.to_rfc3339_opts(SecondsFormat::Secs, true), "{stamp}");
        assert_eq!(time.zone_to_text(), expected.offset().to_string(), "{stamp}");
        assert_eq!(time.to_stamp(), expected.format("%Y%m%d-%H%M%S").to_string(), "{stamp}");
        assert_eq!(timestamp_date(stamp), Some(time.date), "{stamp}");
    }
}

#[test]
fn timestamp_conversion_rejects_out_of_range_values() {
    assert!(timestamp_date(i64::MAX).is_none());
}

#[test]
fn times_exist_from_the_first_to_the_last_of_chrono() {
    for stamp in [-8_334_601_228_800_000, 8_210_266_876_799_999] {
        assert!(Local.timestamp_millis_opt(stamp).single().is_some());
        assert!(timestamp_to_local(stamp).is_ok());
    }
    for stamp in [-8_334_601_228_800_001, 8_210_266_876_800_000, i64::MIN] {
        assert!(Local.timestamp_millis_opt(stamp).single().is_none());
        assert!(matches!(timestamp_to_local(stamp), Err(AppError::InvalidTimestamp)));
    }
}

#[test]
fn dates_and_offsets_are_written_as_by_chrono() {
    for (year, month, number) in
        [(2024, 2, 29), (1, 1, 1), (0, 12, 31), (-1, 3, 4), (9999, 12, 31), (10000, 1, 1), (-12345, 6, 7)]
    {
        let expected = NaiveDate::from_ymd_opt(year, month, number).expect("the date exists");
        assert_eq!(day(year, month, number).to_text(), expected.to_string());
        assert_eq!(day(year, month, number).to_text(), expected.format("%Y-%m-%d").to_string());
    }
    for offset_seconds in [0, 3600, -3600, 19800, -34200, 45, -45, 86399, -86399, 7230] {
        let zone = FixedOffset::east_opt(offset_seconds).expect("the offset exists");
        let expected = zone.with_ymd_and_hms(2024, 1, 2, 3, 4, 5).single().expect("the time exists");
        let time = LocalTime {
            date: day(2024, 1, 2),
            hour: 3,
            minute: 4,
            second: 5,
            offset_seconds,
        };
        assert_eq!(
            time.to_text(),
            expected.to_rfc3339_opts(SecondsFormat::Secs, true),
            "{offset_seconds}"
        );
        assert_eq!(time.zone_to_text(), zone.to_string(), "{offset_seconds}");
    }
}

#[test]
fn typed_dates_are_read_without_the_blanks_around_them() {
    assert_eq!(parsed_date(" 2024-02-29\t"), Some(day(2024, 2, 29)));
    assert_eq!(parsed_date("2023-02-29"), None);
    assert_eq!(parsed_date("29.02.2024"), None);
    assert_eq!(parsed_date(""), None);
}

#[test]
fn a_range_holds_its_ends_and_what_lies_between() {
    let start = Some(day(2024, 1, 31));
    let end = Some(day(2024, 2, 2));
    for (date, inside) in [
        (day(2024, 1, 30), false),
        (day(2024, 1, 31), true),
        (day(2024, 2, 1), true),
        (day(2024, 2, 2), true),
        (day(2024, 2, 3), false),
        (day(2023, 2, 1), false),
        (day(2025, 2, 1), false),
    ] {
        assert_eq!(date_is_in_range(date, start, end), inside, "{date:?}");
    }
    assert!(date_is_in_range(day(1, 1, 1), None, end));
    assert!(date_is_in_range(day(9999, 1, 1), start, None));
    assert!(range_is_reversed(end, start));
    assert!(!range_is_reversed(start, start));
    assert!(!range_is_reversed(None, start));
    assert!(!date_is_in_range(day(2024, 2, 1), end, start));
}

#[test]
fn messages_without_a_time_lie_in_every_range() {
    let start = Some(day(2024, 1, 1));
    assert!(timestamp_is_in_range(0, start, start).expect("zero is no time"));
    let noon = Local
        .with_ymd_and_hms(2024, 1, 1, 12, 0, 0)
        .single()
        .expect("the time exists")
        .timestamp_millis();
    assert!(timestamp_is_in_range(noon, start, start).expect("the time exists"));
    assert!(!timestamp_is_in_range(noon + 86_400_000, start, start).expect("the time exists"));
    assert!(matches!(
        timestamp_is_in_range(i64::MAX, None, None),
        Err(AppError::InvalidTimestamp)
    ));
}

#[test]
fn json_is_read_with_all_that_it_holds() {
    let json = parse_json(
        r#"{"b": [1, -2, 3.5, 18446744073709551615], "a": {"x": "y\n", "n": null}, "t": true}"#,
    )
    .expect("valid JSON");
    assert!(json.is_object());
    let inner = json.object_member("a").expect("an object");
    assert_eq!(inner.text_member("x"), Some("y\n"));
    assert!(inner.has("n"));
    assert!(!inner.has("m"));
    assert!(json.object_member("b").is_none());
    assert!(json.text_member("t").is_none());
    match json.member("b") {
        Some(Json::Array(items)) => {
            let numbers = items
                .iter()
                .map(|item| match item {
                    Json::Number(number) => (number.text.clone(), number.signed, number.unsigned),
                    _ => panic!("a number"),
                })
                .collect::<Vec<_>>();
            assert_eq!(
                numbers,
                vec![
                    (String::from("1"), Some(1), Some(1)),
                    (String::from("-2"), Some(-2), None),
                    (String::from("3.5"), None, None),
                    (String::from("18446744073709551615"), None, Some(18446744073709551615)),
                ]
            );
        }
        _ => panic!("an array"),
    }
    let copied = json.duplicate();
    assert_eq!(format!("{copied:?}"), format!("{json:?}"));
    assert!(parse_json("{").is_err());
    assert!(parse_json("{} x").is_err());
}

fn entry(key: &str, field: Field) -> Entry {
    Entry { key: key.to_owned(), field }
}

#[test]
fn json_is_written_as_by_serde() {
    assert_eq!(quote("a \"b\"\n").expect("text"), "\"a \\\"b\\\"\\n\"");
    assert_eq!(
        pretty_object(vec![
            entry("a", Field::Text(String::from("x"))),
            entry("b", Field::Count(18446744073709551615)),
            entry("c", Field::Missing),
        ])
        .expect("an object"),
        "{\n  \"a\": \"x\",\n  \"b\": 18446744073709551615,\n  \"c\": null\n}"
    );
    assert_eq!(pretty_rows(Vec::new()).expect("an array"), "[]");
    assert_eq!(
        pretty_rows(vec![vec![entry("id", Field::Text(String::from("1")))]]).expect("an array"),
        "[\n  {\n    \"id\": \"1\"\n  }\n]"
    );
}

#[test]
fn the_frame_of_a_json_document_is_valid_json() {
    let conversation = Conversation {
        id: String::from("7"),
        recipient_id: String::from("9"),
        name: String::from("A \"B\""),
        kind: String::from("group"),
        message_count: 0,
        is_technical_update_only: false,
        first_timestamp_ms: None,
        last_timestamp_ms: None,
        author_ids: Vec::new(),
    };
    let authors = vec![AuthorRecord { id: String::from("1"), name: String::from("N") }];
    let mut text = json_header(
        "2024-01-01T00:00:00Z",
        "+00:00",
        &conversation,
        Some(day(2024, 1, 1)),
        None,
        true,
        &authors,
    )
    .expect("a header");
    text.push_str(&json_message(true, "{}"));
    text.push_str(&json_message(false, "{\"n\": 1}"));
    text.push_str(&json_footer(2, 3, 4).expect("a footer"));
    let value: serde_json::Value = serde_json::from_str(&text).expect("valid JSON");
    assert_eq!(value["exported_at"], "2024-01-01T00:00:00Z");
    assert_eq!(value["source_format"], "Signal Desktop plaintext export");
    assert_eq!(value["conversation"]["name"], "A \"B\"");
    assert_eq!(value["conversation"]["type"], "group");
    assert_eq!(value["date_range"]["start"], "2024-01-01");
    assert!(value["date_range"]["end"].is_null());
    assert_eq!(value["date_range"]["timezone"], "+00:00");
    assert_eq!(value["participants"][0]["name"], "N");
    assert_eq!(value["messages"][1]["n"], 1);
    assert_eq!(value["summary"]["messages_exported"], 2);
    assert_eq!(value["summary"]["media_files_copied"], 3);
    assert_eq!(value["summary"]["media_files_missing"], 4);
    assert!(text.starts_with("{\n  \"schema_version\": 1,\n  \"exported_at\": \"2024"));
    assert!(text.ends_with("\n}\n}\n"));

    let mut combined = combined_start(ExportFormat::Json, "now").expect("a start");
    for position in 0..2 {
        combined.push_str(combined_before(ExportFormat::Json, position));
        combined.push_str(&text);
    }
    assert_eq!(combined_before(ExportFormat::Markdown, 0), "");
    assert_eq!(combined_before(ExportFormat::Markdown, 1), "\n---\n\n");
    assert_eq!(combined_before(ExportFormat::Json, 7), ",\n");
    combined.push_str(combined_end(ExportFormat::Json));
    let value: serde_json::Value = serde_json::from_str(&combined).expect("valid JSON");
    assert_eq!(value["conversation_exports"][1]["conversation"]["id"], "7");
}

#[test]
fn bytes_are_read_from_base64_or_hexadecimal() {
    let read = |text: &str| decode_signal_bytes(&Json::Text(text.to_owned()));
    assert_eq!(read("AQID"), Some(vec![1, 2, 3]));
    assert_eq!(read("0a1"), None);
    assert_eq!(read("0A-ff"), None);
    assert_eq!(read("00ff10"), None.or(decode_hex("00ff10")));
    assert_eq!(decode_signal_bytes(&Json::Null), None);
    assert_eq!(decode_hex("00fFa9"), Some(vec![0, 255, 169]));
    assert_eq!(decode_hex("+f"), Some(vec![15]));
    assert_eq!(decode_hex("-f"), None);
    assert_eq!(decode_hex("f+"), None);
    assert_eq!(decode_hex("\u{e9}"), None);
    assert_eq!(decode_hex(""), Some(Vec::new()));
    assert_eq!(encode_hex(&vec![0, 255, 169]), "00ffa9");
}

#[test]
fn attachments_are_found_by_the_digest_of_hash_and_key() {
    let pointer = parse_json(
        r#"{"locatorInfo": {"localKey": "Yw==", "integrityCheck": {"plaintextHash": "YWI="}}}"#,
    )
    .expect("valid JSON");
    let name = "ba7816bf8f01cfea414140de5dae2223b00361a396177a9cb410ff61f20015ad";
    assert_eq!(media_name(&pointer).as_deref(), Some(name));
    let direct = parse_json(r#"{"locatorInfo": {"localKey": "Yw==", "plaintextHash": "YWI="}}"#)
        .expect("valid JSON");
    assert_eq!(media_name(&direct).as_deref(), Some(name));
    for text in [r#"{}"#, r#"{"locatorInfo": {"localKey": "Yw=="}}"#, r#"{"locatorInfo": {"plaintextHash": "YWI="}}"#] {
        assert_eq!(media_name(&parse_json(text).expect("valid JSON")), None);
    }
    assert!(is_media_entry("ab", "ab"));
    assert!(is_media_entry("ab.jpeg", "ab"));
    assert!(!is_media_entry("abc", "ab"));
    assert!(!is_media_entry("a", "ab"));
    assert!(!is_media_entry("xb.jpeg", "ab"));
}

#[test]
fn an_entry_is_read_as_it_stands() {
    let day = CalendarDate { year: 2024, month: 1, day: 2 };
    assert_eq!(date_shown("2024-01-02"), Some(day));
    assert_eq!(date_shown("2024-01-02 "), None);
    assert_eq!(parsed_date("2024-01-02 "), Some(day));
    assert_eq!(date_shown("2024-01"), None);
}
