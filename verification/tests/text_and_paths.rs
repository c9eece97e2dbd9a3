//! Text, numbers, paths and names, held against the standard library.

use std::path::Path;

use signal_filter::calendar::{CalendarDate, LocalTime};
use signal_filter::install::subfolders;
use signal_filter::media::sanitize_file_name;
use signal_filter::names::{
    filename_slug, format_default_filename, make_unique, media_directory_for_output,
    media_directory_name, normalized_output_path, slugify, staged_path_for,
    validate_output_extension,
};
use signal_filter::order::{place_texts, Placement};
use signal_filter::path::{
    component_texts, find_extension, find_file_name, find_parent, find_stem, is_same_place,
    is_within, join_path, replace_extension, replace_name,
};
use signal_filter::plan::{
    ensure_output_does_not_touch_source, is_last_attempt, staging_name, unique_export_name,
};
use signal_filter::text::{
    decimal_text, matches_ignoring_case, padded_text, parse_i64, parse_u64, to_ascii_lower,
};
use signal_filter::words::{is_blank_line, is_part, lines, single_space, trim_blanks};
use signal_filter::{AppError, ExportFormat};

const PATHS: [&str; 34] = [
    "", "/", "//", ".", "..", "./", "../", "a", "a/", "/a", "//a", "a/b", "a//b", "a/./b",
    "a/../b", "./a", "/./a", "a/.", "a/..", "/..", "a.txt", ".txt", "a.", "..a", "...", "a.b.c",
    "dir/a.txt", "dir/.hidden", "/dir/a.tar.gz", "x/.", "x/./", "./.", "/.", "a b/c d.e f",
];

const TEXTS: [&str; 14] = [
    "", " ", "a", " a", "a ", " a  b ", "a\tb\nc", "\u{a0}a\u{3000}", "one two", "x\r\ny", "\r\n",
    "a\n\nb\n", "\u{85}z\u{2028}", "long  run   of words\n",
];

fn text_of(path: &Path) -> String {
    path.to_str().expect("test paths are text").to_owned()
}

#[test]
fn parts_of_paths_are_those_of_the_standard_library() {
    for shown in PATHS {
        let path = Path::new(shown);
        assert_eq!(
            find_file_name(shown),
            path.file_name().map(|part| part.to_string_lossy().into_owned()),
            "file name of {shown:?}"
        );
        assert_eq!(
            find_stem(shown),
            path.file_stem().map(|part| part.to_string_lossy().into_owned()),
            "stem of {shown:?}"
        );
        assert_eq!(
            find_extension(shown),
            path.extension().map(|part| part.to_string_lossy().into_owned()),
            "extension of {shown:?}"
        );
        assert_eq!(find_parent(shown), path.parent().map(text_of), "parent of {shown:?}");
    }
}

#[test]
fn changed_paths_are_those_of_the_standard_library() {
    for shown in PATHS {
        let path = Path::new(shown);
        assert_eq!(replace_extension(shown, "md"), text_of(&path.with_extension("md")), "{shown:?}");
        assert_eq!(replace_name(shown, "new"), text_of(&path.with_file_name("new")), "{shown:?}");
        for other in PATHS {
            assert_eq!(
                join_path(shown, other),
                text_of(&path.join(other)),
                "{shown:?} and {other:?}"
            );
            assert_eq!(
                is_same_place(shown, other),
                path == Path::new(other),
                "{shown:?} and {other:?}"
            );
            assert_eq!(
                is_within(shown, other),
                path.starts_with(other),
                "{shown:?} and {other:?}"
            );
        }
    }
}

#[test]
fn components_leave_out_the_root() {
    assert_eq!(component_texts("/a//b/./c"), vec!["a", "b", "c"]);
    assert_eq!(component_texts("./a/.."), vec![".", "a", ".."]);
    assert!(component_texts("/").is_empty());
}

#[test]
fn words_and_lines_are_those_of_the_standard_library() {
    for text in TEXTS {
        assert_eq!(
            single_space(text),
            text.split_whitespace().collect::<Vec<_>>().join(" "),
            "{text:?}"
        );
        assert_eq!(lines(text), text.lines().collect::<Vec<_>>(), "{text:?}");
        assert_eq!(trim_blanks(text), text.trim(), "{text:?}");
        assert_eq!(is_blank_line(text), text.trim().is_empty(), "{text:?}");
        for part in TEXTS {
            assert_eq!(is_part(part, text), text.contains(part), "{part:?} in {text:?}");
        }
    }
}

#[test]
fn texts_stand_in_the_order_of_the_standard_library() {
    for left in TEXTS {
        for right in TEXTS {
            let expected = if left < right {
                Placement::Before
            } else if left == right {
                Placement::Same
            } else {
                Placement::After
            };
            assert_eq!(place_texts(left, right), expected, "{left:?} and {right:?}");
        }
    }
}

#[test]
fn numbers_are_read_as_by_the_standard_library() {
    for text in [
        "", "+", "-", "0", "-0", "+7", "007", "12a", " 1", "1 ", "1.0", "9223372036854775807",
        "9223372036854775808", "-9223372036854775808", "-9223372036854775809",
        "18446744073709551615", "18446744073709551616", "99999999999999999999999999", "--1", "+-1",
        "\u{661}",
    ] {
        assert_eq!(parse_i64(text), text.parse::<i64>().ok(), "{text:?}");
        assert_eq!(parse_u64(text), text.parse::<u64>().ok(), "{text:?}");
    }
}

#[test]
fn numbers_are_written_as_by_the_standard_library() {
    for number in [0, 1, 9, 10, 99, 100, 12345, 18446744073709551615] {
        assert_eq!(decimal_text(number), number.to_string());
        assert_eq!(padded_text(number, 4), format!("{number:04}"));
        assert_eq!(parse_u64(&decimal_text(number)), Some(number));
        assert_eq!(parse_u64(&padded_text(number, 4)), Some(number));
    }
}

#[test]
fn letters_are_told_apart_by_case_or_not() {
    assert!(matches_ignoring_case("JsonL", "jsonl"));
    assert!(!matches_ignoring_case("json", "jsonl"));
    assert!(!matches_ignoring_case("\u{c4}", "\u{e4}"));
    for character in ['A', 'Z', 'a', '@', '[', '\u{c4}', '0'] {
        assert_eq!(to_ascii_lower(character), character.to_ascii_lowercase());
    }
}

#[test]
fn names_of_attachments_are_made_plain() {
    assert_eq!(sanitize_file_name("../../holiday (1).jpg"), "holiday (1).jpg");
    assert_eq!(sanitize_file_name("..\\..\\a:b*c?.png"), "abc.png");
    assert_eq!(sanitize_file_name(" . \u{7}report\u{9f}. "), "report");
    assert_eq!(sanitize_file_name("..."), "attachment");
    assert_eq!(sanitize_file_name(".."), "attachment");
    assert_eq!(sanitize_file_name(""), "attachment");
    assert_eq!(sanitize_file_name("<>|\""), "attachment");
    assert_eq!(sanitize_file_name(&"x".repeat(300)), "x".repeat(120));
}

#[test]
fn slugs_keep_letters_and_numbers() {
    assert_eq!(slugify("Project  Group!"), "project-group");
    assert_eq!(slugify("--"), "conversation");
    assert_eq!(slugify("\u{c4}rger & Co. 2"), "\u{e4}rger-co-2");
    assert_eq!(slugify(&"word ".repeat(20)), "word-word-word-word-word-word-word-word-w");
    assert_eq!(slugify(&"a".repeat(80)), "a".repeat(40));
    assert_eq!(slugify("\u{130}x"), "i\u{307}x");
    assert_eq!(filename_slug("?"), "chat");
    assert_eq!(filename_slug(&"a".repeat(80)), "a".repeat(60));
}

#[test]
fn default_filename_uses_conversation_name_and_last_message_date() {
    let date = CalendarDate { year: 2026, month: 8, day: 20 };
    assert_eq!(
        format_default_filename(
            1,
            Some("Example Conversation"),
            date,
            true,
            ExportFormat::Markdown,
        ),
        "example-conversation-2026-08-20.md"
    );
    assert_eq!(
        format_default_filename(4, None, date, false, ExportFormat::Json),
        "4-conversations-2026-08-20.json"
    );
}

#[test]
fn several_files_are_named_by_the_date_alone() {
    let date = CalendarDate { year: 2026, month: 8, day: 20 };
    assert_eq!(
        format_default_filename(3, None, date, true, ExportFormat::Json),
        "2026-08-20.json"
    );
    assert_eq!(
        format_default_filename(1, None, date, true, ExportFormat::Json),
        "chat-2026-08-20.json"
    );
}

#[test]
fn save_dialog_filename_is_normalized_to_the_selected_format() {
    assert_eq!(
        normalized_output_path("conversation", ExportFormat::Markdown),
        "conversation.md"
    );
    assert_eq!(
        normalized_output_path("conversation.txt", ExportFormat::Json),
        "conversation.json"
    );
    assert_eq!(
        normalized_output_path("conversation.JSON", ExportFormat::Json),
        "conversation.JSON"
    );
}

#[test]
fn extensions_must_match_the_format() {
    assert!(validate_output_extension("/x/a.MD", ExportFormat::Markdown).is_ok());
    assert!(matches!(
        validate_output_extension("/x/a.md", ExportFormat::Json),
        Err(AppError::OutputExtensionMismatch)
    ));
    assert!(matches!(
        validate_output_extension("/x/a", ExportFormat::Json),
        Err(AppError::OutputExtensionMismatch)
    ));
    assert_eq!(ExportFormat::Markdown.extension(), "md");
    assert_eq!(ExportFormat::Json.extension(), "json");
}

#[test]
fn folders_stand_beside_their_document() {
    assert_eq!(media_directory_name("/x/chat.json").expect("has a stem"), "chat-media");
    assert_eq!(media_directory_for_output("/x/chat.json").expect("has a stem"), "/x/chat-media");
    assert!(matches!(media_directory_name("/"), Err(AppError::InvalidOutputFile)));
    assert_eq!(staged_path_for("/s", "/x/chat.json").expect("has a name"), "/s/chat.json");
    assert!(matches!(staged_path_for("/s", "/x/.."), Err(AppError::InvalidOutputFile)));
}

#[test]
fn names_that_are_taken_get_a_number() {
    let bases = ["a", "a", "a-2", "a", "b"].map(String::from).to_vec();
    assert_eq!(make_unique(&bases), vec!["a", "a-2", "a-2-2", "a-3", "b"]);
}

#[test]
fn folders_are_listed_from_the_outside_in() {
    assert_eq!(
        subfolders("/s", "chat-media/conversation-0001").expect("plain"),
        vec!["/s/chat-media", "/s/chat-media/conversation-0001"]
    );
    assert!(subfolders("/s", "").expect("plain").is_empty());
    for path in ["/abs", "a/../b", "./a", ".."] {
        assert!(matches!(subfolders("/s", path), Err(AppError::InvalidOutputFile)), "{path}");
    }
}

#[test]
fn files_of_the_archive_are_protected() {
    let check = |folder: &str, output: &str| {
        ensure_output_does_not_touch_source(folder, output, "/e/other.jsonl", "/e")
    };
    assert!(check("/out", "/out/a.json").is_ok());
    assert!(check("/e", "/e/a.json").is_ok());
    for (folder, output) in [
        ("/e", "/e/other.jsonl"),
        ("/e", "/e/main.jsonl"),
        ("/e", "/e/metadata.json"),
        ("/e", "/e/files"),
        ("/e/files", "/e/files/a.json"),
        ("/e/files/ab", "/e/files/ab/a.json"),
    ] {
        assert!(
            matches!(check(folder, output), Err(AppError::ProtectedSourceDestination)),
            "{output}"
        );
    }
    assert!(matches!(check("/e", "/e/.."), Err(AppError::InvalidOutputFile)));
}

#[test]
fn folders_of_exports_are_named_by_chat_and_time() {
    let time = LocalTime {
        date: CalendarDate { year: 2024, month: 2, day: 29 },
        hour: 7,
        minute: 5,
        second: 9,
        offset_seconds: 3600,
    };
    let base = "signal-chat-alex-example-20240229-070509";
    assert_eq!(unique_export_name("Alex Example", &time, 0, 17), base);
    assert_eq!(unique_export_name("Alex Example", &time, 1, 17), format!("{base}-2"));
    assert_eq!(unique_export_name("Alex Example", &time, 9998, 17), format!("{base}-9999"));
    assert_eq!(unique_export_name("Alex Example", &time, 9999, 17), format!("{base}-17"));
    assert!(!is_last_attempt(9998));
    assert!(is_last_attempt(9999));
    assert_eq!(staging_name(17, "123456789012345678901", 3), ".signal-filter-17-123456789012345678901-3");
}
