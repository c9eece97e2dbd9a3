//! What the library relies on, of the standard library and of chrono.

use chrono::{Datelike, NaiveDate};

use signal_filter::calendar::{parsed_date, CalendarDate};
use signal_filter::names::{filename_slug, format_default_filename, slugify};
use signal_filter::payload::humanize_key;
use signal_filter::plan::{explicit_output_files, ConversationExportMode};
use signal_filter::wizard::{conversation_matches_filter, ConversationChoice};
use signal_filter::{ArchiveIndex, Conversation, ExportFormat};

#[test]
fn ascii_characters_have_their_plain_mappings() {
    for character in (0_u8..=127).map(char::from) {
        assert_eq!(character.is_alphanumeric(), character.is_ascii_alphanumeric());
        assert_eq!(character.is_uppercase(), character.is_ascii_uppercase());
        assert_eq!(
            character.to_lowercase().collect::<String>(),
            character.to_ascii_lowercase().to_string()
        );
        assert_eq!(
            character.to_uppercase().collect::<String>(),
            character.to_ascii_uppercase().to_string()
        );
        assert_eq!(character.is_whitespace(), matches!(character, '\t'..='\r' | ' '));
    }
    let all = (0_u8..=127).map(char::from).collect::<String>();
    assert_eq!(all.to_lowercase(), all.to_ascii_lowercase());
}

#[test]
fn only_slashes_and_hyphens_become_slashes_and_hyphens() {
    for character in (0_u32..=0x10ffff).filter_map(char::from_u32) {
        let small = character.to_lowercase().collect::<Vec<_>>();
        assert!(!small.is_empty());
        assert_eq!(small.contains(&'/'), character == '/');
        assert_eq!(small.contains(&'-'), character == '-');
        assert!(character.to_uppercase().next().is_some());
    }
}

#[test]
fn characters_of_every_script_go_into_slugs() {
    assert_eq!(slugify("\u{c4}rger/\u{d6}l"), "\u{e4}rger-\u{f6}l");
    assert_eq!(slugify("\u{130}stanbul"), "i\u{307}stanbul");
    assert_eq!(filename_slug("\u{212a}elvin & Co"), "kelvin-co");
    assert_eq!(slugify("//..//"), "conversation");
    assert_eq!(humanize_key("a\u{c4}b"), "A \u{c4}b");
}

#[test]
fn dates_are_read_back_as_they_were_written() {
    for (year, month, day) in [
        (0, 1, 1),
        (1, 12, 31),
        (999, 2, 28),
        (2024, 2, 29),
        (9999, 12, 31),
        (10_000, 1, 1),
        (262_142, 12, 31),
        (-1, 6, 15),
        (-262_143, 1, 1),
    ] {
        let date = CalendarDate { year, month, day };
        let shown = date.to_text();
        assert_eq!(parsed_date(&shown), Some(date), "{shown}");
        assert_eq!(parsed_date(&format!(" \t{shown}\n")), Some(date), "{shown}");
        let other = NaiveDate::from_ymd_opt(year, month, day).expect("the date exists");
        assert_eq!(other.to_string(), shown);
        assert_eq!((other.year(), other.month(), other.day()), (year, month, day));
    }
    for typed in ["2024-02-30", "2023-02-29", "24", "", "2024-1", "2024-01-01x", "01/02/2024"] {
        assert_eq!(parsed_date(typed), None, "{typed}");
    }
}

fn chat(id: &str, name: &str, last: Option<i64>) -> Conversation {
    Conversation {
        id: id.to_owned(),
        recipient_id: String::new(),
        name: name.to_owned(),
        kind: String::from("contact"),
        message_count: 1,
        is_technical_update_only: false,
        first_timestamp_ms: last,
        last_timestamp_ms: last,
        author_ids: Vec::new(),
    }
}

#[test]
fn chats_of_the_same_name_get_files_of_their_own() {
    let index = ArchiveIndex {
        source_file: String::new(),
        export_root: String::new(),
        account_name: String::new(),
        recipients: Vec::new(),
        conversations: vec![
            chat("1", "A/B", None),
            chat("2", "a b", None),
            chat("3", "A-B-2", None),
            chat("4", "/", None),
        ],
        total_lines: 0,
    };
    let ids = ["1", "2", "3", "4"].map(str::to_owned).to_vec();
    let mode = ConversationExportMode::Separate;
    let named =
        explicit_output_files(&index, "/d/x.md", ExportFormat::Markdown, mode, &ids).expect("named");
    assert_eq!(named, ["/d/x-a-b.md", "/d/x-a-b-2.md", "/d/x-a-b-2-2.md", "/d/x-conversation.md"]);

    let date = CalendarDate { year: 2024, month: 5, day: 6 };
    let suggested = format_default_filename(4, None, date, true, ExportFormat::Json);
    assert_eq!(suggested, "2024-05-06.json");
    let output = format!("/d/{suggested}");
    let dated =
        explicit_output_files(&index, &output, ExportFormat::Json, mode, &ids).expect("named");
    assert_eq!(
        dated,
        [
            "/d/a-b-2024-05-06.json",
            "/d/a-b-2024-05-06-2.json",
            "/d/a-b-2-2024-05-06.json",
            "/d/conversation-2024-05-06.json"
        ]
    );
}

#[test]
fn filters_look_at_small_letters() {
    let choice = ConversationChoice {
        id: String::new(),
        name: String::from("STRASSE \u{c4}\u{3a3}"),
        message_count: 1,
        selected: false,
        first_timestamp_ms: None,
        last_timestamp_ms: None,
    };
    assert!(conversation_matches_filter(&choice, "strasse"));
    assert!(conversation_matches_filter(&choice, "\u{e4}\u{3c2}"));
    assert!(!conversation_matches_filter(&choice, "Strasse"));
    assert!(conversation_matches_filter(&choice, ""));
}

#[test]
fn slugs_are_words_with_single_hyphens() {
    let long = "ab ".repeat(40);
    for name in ["--A  b__C--", "x", "  ", "9/9", "Conversation!", long.as_str()] {
        let shown = slugify(name);
        assert!(!shown.is_empty() && !shown.starts_with('-') && !shown.ends_with('-'));
        assert!(!shown.contains("--"));
        assert!(shown.len() <= 41);
        assert_eq!(slugify(&shown), shown);
        assert_eq!(slugify(&name.to_ascii_uppercase()), shown);
        let suggested = filename_slug(name);
        assert!(suggested.len() <= 61);
        assert_eq!(filename_slug(&suggested), suggested);
        assert_eq!(filename_slug(&name.to_ascii_uppercase()), suggested);
    }
    assert_eq!(slugify("--A  b__C--"), "a-b-c");
    assert_eq!(slugify(" -- "), "conversation");
    assert_eq!(filename_slug(" -- "), "chat");
    let edge = format!("{} x", "a".repeat(39));
    assert_eq!(slugify(&edge).len(), 41);
    assert_eq!(slugify(&slugify(&edge)), slugify(&edge));
}
