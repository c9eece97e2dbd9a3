//! The wizard, and putting an export in place.

use std::collections::BTreeMap;

use signal_filter::calendar::{timestamp_date, CalendarDate};
use signal_filter::install::{
    check_subfolder, install_artifacts_for, preflight_destinations, removal_for, validate_existing_artifact,
    ArtifactKind, Found, FoundPair, InstallArtifact, Removal,
};
use signal_filter::order::Placement;
use signal_filter::run::{ExportRun, RunReply, RunStep};
use signal_filter::staging::StagedExport;
use signal_filter::transaction::{Installation, InstallStep, Reply};
use signal_filter::wizard::{
    advance_or_export, after_failure, choose_export_destination, conversation_is_selectable,
    date_label, export_details, export_request, export_uses_directory_chooser,
    filename_extension, navigation, place_by_date, place_by_messages, place_by_name,
    populate_conversations, select_filtered, selected_format, selected_ids, selection_dates,
    selection_label, selection_status_is_visible, step_mark, suggested_filename,
    toggle_conversation, validate_date_range, visible_choices, AfterFailure, ConversationChoice,
    DateProblem, Destination, NextAction, StepMark, WizardSteps, STEP_NAMES, STEP_TITLES,
};
use signal_filter::{
    AppError, ArchiveIndex, Conversation, ConversationExportMode, ExportFormat, MultiExportResult,
};

#[test]
fn final_step_and_destination_chooser_match_export_shape() {
    assert_eq!(STEP_NAMES.len(), 4);
    assert_eq!(STEP_TITLES[1], "Select export directory");
    assert_eq!(STEP_TITLES.last(), Some(&"Export options"));
    assert!(!selection_status_is_visible(0));
    assert!(!selection_status_is_visible(1));
    assert!(selection_status_is_visible(2));
    assert!(selection_status_is_visible(3));
    assert!(!export_uses_directory_chooser(false, 2));
    assert!(!export_uses_directory_chooser(true, 1));
    assert!(export_uses_directory_chooser(true, 2));
}

#[test]
fn steps_are_unlocked_one_after_the_other() {
    let mut steps = WizardSteps::start();
    steps.press_step(2);
    assert_eq!(steps.current, 0);
    steps.unlock_and_show(2);
    steps.press_back();
    steps.press_back();
    steps.press_back();
    assert_eq!((steps.current, steps.max_unlocked), (0, 2));
    steps.press_step(2);
    assert_eq!(steps.current, 2);
    steps.unlock_and_show(1);
    assert_eq!((steps.current, steps.max_unlocked), (1, 2));
    steps.show(2);
    assert_eq!(step_mark(steps, 1), StepMark::Done);
    assert_eq!(step_mark(steps, 2), StepMark::Current);
    assert_eq!(step_mark(steps, 3), StepMark::Ahead);
}

#[test]
fn buttons_follow_what_is_loaded_and_selected() {
    let at = |current: usize| WizardSteps { current, max_unlocked: 3 };
    let first = navigation(at(0), false, false, false);
    assert!(first.next_enabled && !first.back_enabled && !first.is_last);
    assert!(!navigation(at(1), false, true, false).next_enabled);
    assert!(navigation(at(1), true, false, false).next_enabled);
    assert!(!navigation(at(2), true, false, false).next_enabled);
    assert!(navigation(at(2), true, true, false).selection_visible);
    let last = navigation(at(3), true, true, false);
    assert!(last.is_last && last.next_enabled && last.back_enabled);
    let busy = navigation(at(3), true, true, true);
    assert!(!busy.next_enabled && !busy.back_enabled);

    let show = |step, take_dates_of_selection| NextAction::ShowStep { step, take_dates_of_selection };
    assert_eq!(advance_or_export(0, false, false, false), show(1, false));
    assert_eq!(advance_or_export(1, true, false, false), show(2, false));
    assert_eq!(advance_or_export(1, false, true, true), NextAction::Stay);
    assert_eq!(advance_or_export(2, true, true, false), show(3, true));
    assert_eq!(advance_or_export(2, true, false, true), NextAction::Stay);
    assert_eq!(advance_or_export(3, true, true, true), NextAction::Export);
    assert_eq!(advance_or_export(3, true, true, false), NextAction::Stay);
}

fn chat(id: &str, name: &str, messages: u64, update_only: bool, last: Option<i64>) -> Conversation {
    Conversation {
        id: id.to_owned(),
        recipient_id: String::new(),
        name: name.to_owned(),
        kind: String::from("contact"),
        message_count: messages,
        is_technical_update_only: update_only,
        first_timestamp_ms: last.map(|stamp| stamp - 86_400_000),
        last_timestamp_ms: last,
        author_ids: Vec::new(),
    }
}

const MAY_10: i64 = 1_715_342_400_000;

fn choices() -> Vec<ConversationChoice> {
    let index = ArchiveIndex {
        source_file: String::new(),
        export_root: String::new(),
        account_name: String::new(),
        recipients: Vec::new(),
        conversations: vec![
            chat("1", "Anna", 3, false, Some(MAY_10)),
            chat("2", "empty", 0, false, None),
            chat("3", "update", 1, true, Some(MAY_10)),
            chat("4", "Hanna Berg", 5, false, Some(MAY_10 + 172_800_000)),
            chat("5", "Carl", 3, false, None),
        ],
        total_lines: 0,
    };
    assert!(!conversation_is_selectable(&index.conversations[1]));
    populate_conversations(&index)
}

#[test]
fn chats_are_offered_filtered_and_selected() {
    let mut choices = choices();
    let ids = choices.iter().map(|choice| choice.id.as_str()).collect::<Vec<_>>();
    assert_eq!(ids, vec!["1", "4", "5"]);
    assert!(selected_ids(&choices).is_empty());
    assert_eq!(visible_choices(&choices, "AnNa"), vec![0, 1]);
    assert_eq!(visible_choices(&choices, ""), vec![0, 1, 2]);
    select_filtered(&mut choices, "ANNA", true);
    assert_eq!(selected_ids(&choices), vec!["1", "4"]);
    select_filtered(&mut choices, "berg", false);
    assert_eq!(selected_ids(&choices), vec!["1"]);
    select_filtered(&mut choices, "", true);
    assert_eq!(selected_ids(&choices).len(), 3);
    assert_eq!(selection_label(0), "0 chats selected");
    assert_eq!(selection_label(1), "1 chat selected");
    assert_eq!(selection_label(12), "12 chats selected");
}

#[test]
fn chats_stand_by_name_messages_or_date() {
    let choices = choices();
    let (anna, hanna, carl) = (&choices[0], &choices[1], &choices[2]);
    assert_eq!(place_by_name(anna, hanna), Placement::Before);
    assert_eq!(place_by_name(hanna, carl), Placement::After);
    assert_eq!(place_by_messages(anna, hanna), Placement::Before);
    assert_eq!(place_by_messages(carl, anna), Placement::After);
    assert_eq!(place_by_messages(anna, anna), Placement::Same);
    assert_eq!(place_by_date(carl, anna), Placement::Before);
    assert_eq!(place_by_date(hanna, anna), Placement::After);
    assert_eq!(place_by_date(anna, hanna), Placement::Before);
}

#[test]
fn dates_and_names_follow_the_selection() {
    let mut choices = choices();
    let today = CalendarDate { year: 2030, month: 1, day: 2 };
    assert_eq!(suggested_filename(&choices, today, true, ExportFormat::Json), None);
    assert_eq!(selection_dates(&choices), (None, None));

    choices[0].selected = true;
    let date = timestamp_date(MAY_10).expect("the date exists").to_text();
    assert_eq!(
        suggested_filename(&choices, today, true, ExportFormat::Json),
        Some(format!("anna-{date}.json"))
    );
    choices[1].selected = true;
    let last = MAY_10 + 172_800_000;
    assert_eq!(
        selection_dates(&choices),
        (timestamp_date(MAY_10 - 86_400_000), timestamp_date(last))
    );
    let date = timestamp_date(last).expect("the date exists").to_text();
    assert_eq!(
        suggested_filename(&choices, today, false, ExportFormat::Markdown),
        Some(format!("2-conversations-{date}.md"))
    );
    choices[0].selected = false;
    choices[1].selected = false;
    choices[2].selected = true;
    assert_eq!(
        suggested_filename(&choices, today, true, ExportFormat::Markdown),
        Some(String::from("carl-2030-01-02.md"))
    );
}

#[test]
fn the_list_shows_dates_and_toggles_chats() {
    let mut choices = choices();
    let date = timestamp_date(MAY_10).expect("the date exists").to_text();
    assert_eq!(date_label(&choices[0]), date);
    assert_eq!(date_label(&choices[2]), "—");

    assert!(toggle_conversation(&mut choices, 1));
    assert_eq!(selected_ids(&choices), vec![choices[1].id.clone()]);
    assert!(toggle_conversation(&mut choices, 1));
    assert!(selected_ids(&choices).is_empty());
    assert!(!toggle_conversation(&mut choices, 3));
}

#[test]
fn the_destination_depends_on_the_selection() {
    let mut choices = choices();
    let json = ExportFormat::Json;
    let ask = |choices: &Vec<ConversationChoice>, busy: bool, separate: bool, name: Option<&str>| {
        choose_export_destination(busy, choices, separate, name.map(String::from), json)
    };
    assert!(matches!(ask(&choices, false, true, Some("a.json")), Destination::Nothing));
    choices[0].selected = true;
    assert!(matches!(
        ask(&choices, false, true, Some("a.json")),
        Destination::File { filename } if filename == "a.json"
    ));
    assert!(matches!(ask(&choices, true, true, Some("a.json")), Destination::Nothing));
    choices[2].selected = true;
    assert!(matches!(
        ask(&choices, false, true, None),
        Destination::Folder { filename } if filename == "chat-export.json"
    ));
    assert!(matches!(
        ask(&choices, false, false, None),
        Destination::File { filename } if filename == "chat-export.json"
    ));
}

#[test]
fn a_request_holds_what_was_chosen() {
    let mut choices = choices();
    choices[2].selected = true;
    choices[0].selected = true;
    let first = CalendarDate { year: 2024, month: 1, day: 2 };
    let last = CalendarDate { year: 2024, month: 3, day: 4 };
    let request = export_request(
        &choices,
        first,
        last,
        true,
        ExportFormat::Json,
        true,
        String::from("/out/a.json"),
    );
    assert_eq!(request.conversation_ids, vec![choices[0].id.clone(), choices[2].id.clone()]);
    assert_eq!((request.start_date, request.end_date), (Some(first), Some(last)));
    assert!(request.include_media);
    assert_eq!(request.format, ExportFormat::Json);
    assert_eq!(request.mode, ConversationExportMode::Separate);
    assert_eq!(request.output_file, "/out/a.json");
}

#[test]
fn typed_ranges_are_checked() {
    let start = CalendarDate { year: 2024, month: 1, day: 2 };
    assert_eq!(validate_date_range("2024-01-02", " 2024-01-02 "), Ok((start, start)));
    assert_eq!(validate_date_range("x", "y"), Err(DateProblem::StartUnreadable));
    assert_eq!(validate_date_range("2024-01-02", ""), Err(DateProblem::EndUnreadable));
    assert_eq!(validate_date_range("2024-01-02", "2024-01-01"), Err(DateProblem::Reversed));
    assert_eq!(DateProblem::StartUnreadable.message(), "Use YYYY-MM-DD for the start date.");
    assert_eq!(DateProblem::EndUnreadable.message(), "Use YYYY-MM-DD for the end date.");
    assert_eq!(DateProblem::Reversed.message(), "The start date is after the end date.");
}

#[test]
fn the_user_is_told_what_came_of_it() {
    let result = MultiExportResult {
        output_files: vec![String::from("a"), String::from("b")],
        messages_exported: 30,
        media_copied: 4,
        media_missing: 1,
    };
    assert_eq!(
        export_details(&result),
        "Files: 2. Messages: 30. Media: 4 copied, 1 unavailable."
    );
    assert_eq!(after_failure(&AppError::OutputExists, false), AfterFailure::AskToReplace);
    assert_eq!(after_failure(&AppError::OutputExists, true), AfterFailure::ShowError);
    assert_eq!(after_failure(&AppError::UnsafeDestination, false), AfterFailure::ShowError);
    assert_eq!(selected_format(true), ExportFormat::Json);
    assert_eq!(selected_format(false), ExportFormat::Markdown);
    assert_eq!(filename_extension(ExportFormat::Json), "json");
}

#[test]
fn every_error_has_its_sentence() {
    let io = || std::io::Error::other("x");
    let bad = serde_json::from_str::<serde_json::Value>("{").expect_err("not JSON");
    let worse = serde_json::from_str::<serde_json::Value>("[").expect_err("not JSON");
    let cases = vec![
        (AppError::SourceNotFound, "The Signal export is missing or unreadable."),
        (AppError::MainJsonlMissing, "The folder has no top-level main.jsonl."),
        (AppError::WrongSourceType, "Select main.jsonl or its export folder."),
        (AppError::OpenSource(io()), "Could not open the Signal export."),
        (
            AppError::ReadSource { line: 12, source: io() },
            "Could not read line 12 of the Signal export.",
        ),
        (
            AppError::InvalidJson { line: 3, source: bad },
            "main.jsonl contains invalid JSON on line 3.",
        ),
        (AppError::NonObjectLine { line: 4 }, "main.jsonl line 4 is not a JSON object."),
        (
            AppError::MissingHeader,
            "This is not a Signal Desktop plaintext export (header missing).",
        ),
        (AppError::NoConversations, "No chats were found in this Signal export."),
        (AppError::NoConversationsSelected, "Select at least one chat."),
        (AppError::MissingChatId { line: 5 }, "A chatItem on line 5 has no chatId."),
        (
            AppError::InvalidDateSent { line: 6 },
            "A chatItem on line 6 has an invalid dateSent value.",
        ),
        (AppError::InvalidTimestamp, "A message contains an invalid dateSent timestamp."),
        (AppError::UnknownConversation, "The selected chat no longer exists."),
        (AppError::ReversedDateRange, "The start date is after the end date."),
        (AppError::InvalidDestination, "The destination is missing or not a folder."),
        (AppError::InvalidOutputFile, "Choose a filename in an existing folder."),
        (AppError::OutputExtensionMismatch, "The filename extension does not match the format."),
        (
            AppError::ProtectedSourceDestination,
            "The destination would overwrite the Signal export.",
        ),
        (
            AppError::UnsafeDestination,
            "The destination is a symbolic link or incompatible file.",
        ),
        (AppError::OutputExists, "The output or media folder already exists."),
        (AppError::CreateExport(io()), "Could not create the export folder."),
        (AppError::WriteExport(io()), "Could not write the chat export."),
        (AppError::SerializeExport(worse), "Could not serialize the chat export."),
        (AppError::CopyMedia(io()), "Could not copy export media."),
        (AppError::FinishExport(io()), "Could not finish the export."),
    ];
    for (error, sentence) in cases {
        assert_eq!(error.message(), sentence);
    }
}

// ---------------------------------------------------------------------------
// Putting in place
// ---------------------------------------------------------------------------

#[test]
fn only_like_replaces_like() {
    let check = validate_existing_artifact;
    assert!(!check(Found::Missing, ArtifactKind::File).expect("nothing there"));
    assert!(check(Found::File, ArtifactKind::File).expect("a file"));
    assert!(check(Found::Folder, ArtifactKind::Directory).expect("a folder"));
    for (found, kind) in [
        (Found::File, ArtifactKind::Directory),
        (Found::Folder, ArtifactKind::File),
        (Found::Link, ArtifactKind::File),
        (Found::Link, ArtifactKind::Directory),
        (Found::Other, ArtifactKind::File),
    ] {
        assert!(matches!(check(found, kind), Err(AppError::UnsafeDestination)));
    }
    assert!(matches!(
        check(Found::Unreadable(std::io::Error::other("x")), ArtifactKind::File),
        Err(AppError::FinishExport(_))
    ));
    assert!(matches!(removal_for(Found::Missing), Removal::Nothing));
    assert!(matches!(removal_for(Found::Folder), Removal::Folder));
    assert!(matches!(removal_for(Found::Link), Removal::File));
    assert!(matches!(removal_for(Found::File), Removal::File));
}

#[test]
fn only_a_folder_may_stand_where_a_folder_is_made() {
    let taken = || std::io::Error::other("taken");
    assert!(check_subfolder(Found::Folder, taken()).is_ok());
    for found in [Found::File, Found::Link, Found::Other] {
        assert!(matches!(check_subfolder(found, taken()), Err(AppError::UnsafeDestination)));
    }
    match check_subfolder(Found::Missing, taken()) {
        Err(AppError::CreateExport(cause)) => assert_eq!(cause.to_string(), "taken"),
        other => panic!("{other:?}"),
    }
    match check_subfolder(Found::Unreadable(std::io::Error::other("lost")), taken()) {
        Err(AppError::CreateExport(cause)) => assert_eq!(cause.to_string(), "lost"),
        other => panic!("{other:?}"),
    }
}

fn pair(output: Found, media: Found) -> FoundPair {
    FoundPair { output, media }
}

#[test]
fn destinations_are_checked_before_anything_is_done() {
    let new = || pair(Found::Missing, Found::Missing);
    assert_eq!(
        preflight_destinations(vec![new(), new()], true, false).expect("free"),
        vec![false, false]
    );
    assert!(matches!(
        preflight_destinations(vec![new(), pair(Found::File, Found::Missing)], false, false),
        Err(AppError::OutputExists)
    ));
    assert!(matches!(
        preflight_destinations(vec![pair(Found::Missing, Found::Folder)], true, false),
        Err(AppError::OutputExists)
    ));
    assert_eq!(
        preflight_destinations(vec![pair(Found::Missing, Found::Folder)], false, false)
            .expect("media are not exported"),
        vec![false]
    );
    assert_eq!(
        preflight_destinations(vec![pair(Found::File, Found::Folder), new()], true, true)
            .expect("replaced"),
        vec![true, false]
    );
    assert!(matches!(
        preflight_destinations(vec![pair(Found::File, Found::Link)], false, true),
        Err(AppError::UnsafeDestination)
    ));
    assert_eq!(
        preflight_destinations(vec![pair(Found::Missing, Found::Link)], false, true)
            .expect("media are left alone"),
        vec![false]
    );
}

#[test]
fn artifacts_follow_their_documents() {
    let outputs = vec![String::from("/d/a.md"), String::from("/d/b.md")];
    let media = vec![String::from("/d/a-media"), String::from("/d/b-media")];
    let artifacts = install_artifacts_for(
        "/s",
        &outputs,
        &media,
        &vec![true, false],
        &vec![false, false],
        false,
        true,
    )
    .expect("all have names");
    let shown = artifacts
        .iter()
        .map(|artifact| (artifact.staged.as_deref(), artifact.destination.as_str(), artifact.kind))
        .collect::<Vec<_>>();
    assert_eq!(
        shown,
        vec![
            (Some("/s/a.md"), "/d/a.md", ArtifactKind::File),
            (None, "/d/a-media", ArtifactKind::Directory),
            (Some("/s/b.md"), "/d/b.md", ArtifactKind::File),
        ]
    );
}

fn artifact(staged: Option<&str>, destination: &str, kind: ArtifactKind) -> InstallArtifact {
    InstallArtifact {
        staged: staged.map(str::to_owned),
        destination: destination.to_owned(),
        kind,
    }
}

/// Runs an installation on paths that hold numbers; the move with the number
/// `fail_at` fails, and with `fail_undo` so does every later one.
fn run_installation(
    files: &mut BTreeMap<String, u32>,
    fail_at: usize,
    fail_undo: bool,
) -> (usize, Result<(), AppError>) {
    let artifacts = vec![
        artifact(Some("/s/a.md"), "/d/a.md", ArtifactKind::File),
        artifact(None, "/d/a-media", ArtifactKind::File),
        artifact(Some("/s/b.md"), "/d/b.md", ArtifactKind::File),
    ];
    let mut installation = Installation::start("/s", artifacts);
    let mut moves = 0;
    loop {
        let reply = match installation.step() {
            InstallStep::Inspect { path } => Reply::Entry(if files.contains_key(&path) {
                Found::File
            } else {
                Found::Missing
            }),
            InstallStep::MakeFolder { .. } => Reply::Done,
            InstallStep::Move { from, to } => {
                moves += 1;
                if moves == fail_at || (fail_undo && moves > fail_at) {
                    Reply::Failed(std::io::Error::other(format!("move {moves}")))
                } else {
                    let moved = files.remove(&from).expect("only what is there is moved");
                    assert!(files.insert(to, moved).is_none(), "nothing is overwritten");
                    Reply::Done
                }
            }
            InstallStep::Remove { path } => {
                files.remove(&path).expect("only what is there is removed");
                Reply::Done
            }
            InstallStep::Finish => break,
        };
        installation.advance(reply);
    }
    (moves, installation.outcome())
}

fn start_files() -> BTreeMap<String, u32> {
    [("/s/a.md", 1), ("/s/b.md", 2), ("/d/a.md", 10), ("/d/a-media", 20), ("/d/other", 30)]
        .into_iter()
        .map(|(path, number)| (path.to_owned(), number))
        .collect()
}

#[test]
fn an_installation_puts_everything_in_place() {
    let mut files = start_files();
    let (moves, outcome) = run_installation(&mut files, 0, false);
    outcome.expect("nothing fails");
    assert_eq!(moves, 4);
    assert_eq!(files.get("/d/a.md"), Some(&1));
    assert_eq!(files.get("/d/b.md"), Some(&2));
    assert_eq!(files.get("/d/a-media"), None);
    assert_eq!(files.get("/d/other"), Some(&30));
}

#[test]
fn an_installation_that_fails_anywhere_is_undone() {
    for fail_at in 1..=4 {
        let mut files = start_files();
        let (_, outcome) = run_installation(&mut files, fail_at, false);
        match outcome {
            Err(AppError::FinishExport(error)) => {
                assert_eq!(error.to_string(), format!("move {fail_at}"));
            }
            other => panic!("{other:?}"),
        }
        for (path, number) in start_files() {
            if path.starts_with("/d/") {
                assert_eq!(files.get(&path), Some(&number), "{path} after move {fail_at}");
            }
        }
        assert_eq!(files.get("/d/b.md"), None);
        assert!(files.keys().all(|path| !path.starts_with("/s/backups")));
    }
}

#[test]
fn both_errors_are_told_where_undoing_fails_too() {
    let mut files = start_files();
    let (_, outcome) = run_installation(&mut files, 3, true);
    match outcome {
        Err(AppError::FinishExport(error)) => assert_eq!(
            error.to_string(),
            "export failed (move 3); restoring the previous export also failed (move 4)"
        ),
        other => panic!("{other:?}"),
    }
}

#[test]
fn a_link_in_the_way_is_refused_before_anything_moves() {
    let artifacts = vec![artifact(Some("/s/a.md"), "/d/a.md", ArtifactKind::File)];
    let mut installation = Installation::start("/s", artifacts);
    installation.advance(Reply::Entry(Found::Link));
    assert!(matches!(installation.step(), InstallStep::Finish));
    assert!(matches!(installation.outcome(), Err(AppError::UnsafeDestination)));
}

#[test]
fn an_export_cleans_up_however_it_ends() {
    let totals = StagedExport { messages_exported: 3, media_copied: 2, media_missing: 1 };
    for outcome in 0..3 {
        let mut run = ExportRun::start(String::from("/d"), 1, String::from("9"), false, false);
        let mut left = false;
        let mut cleaned = 0;
        loop {
            let reply = match run.step() {
                RunStep::Look => RunReply::Found(vec![pair(Found::Missing, Found::Missing)]),
                RunStep::MakeFolder { path } => {
                    if path.ends_with("-0") {
                        RunReply::Taken
                    } else {
                        assert_eq!(path, "/d/.signal-filter-1-9-1");
                        left = true;
                        RunReply::Made
                    }
                }
                RunStep::Write { .. } => {
                    if outcome == 0 {
                        RunReply::Refused(AppError::InvalidTimestamp)
                    } else {
                        RunReply::Written(totals)
                    }
                }
                RunStep::Install { folder } => {
                    assert_eq!(folder, "/d/.signal-filter-1-9-1");
                    if outcome == 1 {
                        RunReply::Refused(AppError::UnsafeDestination)
                    } else {
                        RunReply::Placed
                    }
                }
                RunStep::Rename { .. } => panic!("nothing is renamed"),
                RunStep::Clean { .. } => {
                    cleaned += 1;
                    left = false;
                    RunReply::Cleaned
                }
                RunStep::Finish => break,
            };
            run.advance(reply);
        }
        assert!(!left);
        assert_eq!(cleaned, 1);
        match (outcome, run.outcome()) {
            (0, Err(AppError::InvalidTimestamp)) => {}
            (1, Err(AppError::UnsafeDestination)) => {}
            (2, Ok(held)) => assert_eq!(held, totals),
            (_, other) => panic!("{other:?}"),
        }
    }
}

#[test]
fn an_export_into_a_new_folder_is_renamed_or_cleaned_up() {
    let totals = StagedExport { messages_exported: 1, media_copied: 0, media_missing: 0 };
    for fails in [false, true] {
        let mut run =
            ExportRun::start_single(String::from("/d"), 1, String::from("9"), false, "chat");
        let mut cleaned = 0;
        loop {
            let reply = match run.step() {
                RunStep::MakeFolder { .. } => RunReply::Made,
                RunStep::Write { .. } => RunReply::Written(totals),
                RunStep::Rename { from, to } => {
                    assert_eq!((from.as_str(), to.as_str()), ("/d/.signal-filter-1-9-0", "/d/chat"));
                    if fails {
                        RunReply::Failed(std::io::Error::other("x"))
                    } else {
                        RunReply::Placed
                    }
                }
                RunStep::Clean { .. } => {
                    cleaned += 1;
                    RunReply::Cleaned
                }
                RunStep::Finish => break,
                other => panic!("{other:?}"),
            };
            run.advance(reply);
        }
        assert_eq!(cleaned, usize::from(fails));
        match run.outcome() {
            Ok(held) => assert!(!fails && held == totals),
            Err(error) => assert!(fails && matches!(error, AppError::FinishExport(_))),
        }
    }
}
