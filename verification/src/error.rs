//! What can go wrong, and how the user is told.

use vstd::prelude::*;

use crate::text::{self, decimal_text, join3};

verus! {

/// An error of the operating system, carried along as it came.
#[verifier::external_type_specification]
#[verifier::external_body]
pub struct ExIoError(std::io::Error);

/// An error of the JSON reader or writer, carried along as it came.
#[verifier::external_type_specification]
#[verifier::external_body]
pub struct ExJsonError(serde_json::Error);

#[derive(Debug)]
#[allow(inconsistent_fields)]
pub enum AppError {
    SourceNotFound,
    MainJsonlMissing,
    WrongSourceType,
    OpenSource(std::io::Error),
    ReadSource { line: u64, source: std::io::Error },
    InvalidJson { line: u64, source: serde_json::Error },
    NonObjectLine { line: u64 },
    MissingHeader,
    NoConversations,
    NoConversationsSelected,
    MissingChatId { line: u64 },
    InvalidDateSent { line: u64 },
    InvalidTimestamp,
    UnknownConversation,
    ReversedDateRange,
    InvalidDestination,
    InvalidOutputFile,
    OutputExtensionMismatch,
    ProtectedSourceDestination,
    UnsafeDestination,
    OutputExists,
    CreateExport(std::io::Error),
    WriteExport(std::io::Error),
    SerializeExport(serde_json::Error),
    CopyMedia(std::io::Error),
    FinishExport(std::io::Error),
}

/// The sentence that tells the user about an error.
pub open spec fn error_text(error: AppError) -> Seq<char> {
    match error {
        AppError::SourceNotFound => "The Signal export is missing or unreadable."@,
        AppError::MainJsonlMissing => "The folder has no top-level main.jsonl."@,
        AppError::WrongSourceType => "Select main.jsonl or its export folder."@,
        AppError::OpenSource(_) => "Could not open the Signal export."@,
        AppError::ReadSource { line, .. } => "Could not read line "@ + text::decimal(line as nat)
            + " of the Signal export."@,
        AppError::InvalidJson { line, .. } => "main.jsonl contains invalid JSON on line "@
            + text::decimal(line as nat) + "."@,
        AppError::NonObjectLine { line } => "main.jsonl line "@ + text::decimal(line as nat)
            + " is not a JSON object."@,
        AppError::MissingHeader =>
            "This is not a Signal Desktop plaintext export (header missing)."@,
        AppError::NoConversations => "No chats were found in this Signal export."@,
        AppError::NoConversationsSelected => "Select at least one chat."@,
        AppError::MissingChatId { line } => "A chatItem on line "@ + text::decimal(line as nat)
            + " has no chatId."@,
        AppError::InvalidDateSent { line } => "A chatItem on line "@ + text::decimal(line as nat)
            + " has an invalid dateSent value."@,
        AppError::InvalidTimestamp => "A message contains an invalid dateSent timestamp."@,
        AppError::UnknownConversation => "The selected chat no longer exists."@,
        AppError::ReversedDateRange => "The start date is after the end date."@,
        AppError::InvalidDestination => "The destination is missing or not a folder."@,
        AppError::InvalidOutputFile => "Choose a filename in an existing folder."@,
        AppError::OutputExtensionMismatch => "The filename extension does not match the format."@,
        AppError::ProtectedSourceDestination =>
            "The destination would overwrite the Signal export."@,
        AppError::UnsafeDestination =>
            "The destination is a symbolic link or incompatible file."@,
        AppError::OutputExists => "The output or media folder already exists."@,
        AppError::CreateExport(_) => "Could not create the export folder."@,
        AppError::WriteExport(_) => "Could not write the chat export."@,
        AppError::SerializeExport(_) => "Could not serialize the chat export."@,
        AppError::CopyMedia(_) => "Could not copy export media."@,
        AppError::FinishExport(_) => "Could not finish the export."@,
    }
}

impl AppError {
    /// The sentence that tells the user about the error.
    pub fn message(&self) -> (sentence: String)
        ensures
            sentence@ == error_text(*self),
    {
        match self {
            AppError::SourceNotFound => "The Signal export is missing or unreadable.".to_owned(),
            AppError::MainJsonlMissing => "The folder has no top-level main.jsonl.".to_owned(),
            AppError::WrongSourceType => "Select main.jsonl or its export folder.".to_owned(),
            AppError::OpenSource(_) => "Could not open the Signal export.".to_owned(),
            AppError::ReadSource { line, .. } => join3(
                "Could not read line ",
                decimal_text(*line).as_str(),
                " of the Signal export.",
            ),
            AppError::InvalidJson { line, .. } => join3(
                "main.jsonl contains invalid JSON on line ",
                decimal_text(*line).as_str(),
                ".",
            ),
            AppError::NonObjectLine { line } => join3(
                "main.jsonl line ",
                decimal_text(*line).as_str(),
                " is not a JSON object.",
            ),
            AppError::MissingHeader =>
                "This is not a Signal Desktop plaintext export (header missing).".to_owned(),
            AppError::NoConversations =>
                "No chats were found in this Signal export.".to_owned(),
            AppError::NoConversationsSelected => "Select at least one chat.".to_owned(),
            AppError::MissingChatId { line } => join3(
                "A chatItem on line ",
                decimal_text(*line).as_str(),
                " has no chatId.",
            ),
            AppError::InvalidDateSent { line } => join3(
                "A chatItem on line ",
                decimal_text(*line).as_str(),
                " has an invalid dateSent value.",
            ),
            AppError::InvalidTimestamp =>
                "A message contains an invalid dateSent timestamp.".to_owned(),
            AppError::UnknownConversation => "The selected chat no longer exists.".to_owned(),
            AppError::ReversedDateRange => "The start date is after the end date.".to_owned(),
            AppError::InvalidDestination =>
                "The destination is missing or not a folder.".to_owned(),
            AppError::InvalidOutputFile => "Choose a filename in an existing folder.".to_owned(),
            AppError::OutputExtensionMismatch =>
                "The filename extension does not match the format.".to_owned(),
            AppError::ProtectedSourceDestination =>
                "The destination would overwrite the Signal export.".to_owned(),
            AppError::UnsafeDestination =>
                "The destination is a symbolic link or incompatible file.".to_owned(),
            AppError::OutputExists => "The output or media folder already exists.".to_owned(),
            AppError::CreateExport(_) => "Could not create the export folder.".to_owned(),
            AppError::WriteExport(_) => "Could not write the chat export.".to_owned(),
            AppError::SerializeExport(_) => "Could not serialize the chat export.".to_owned(),
            AppError::CopyMedia(_) => "Could not copy export media.".to_owned(),
            AppError::FinishExport(_) => "Could not finish the export.".to_owned(),
        }
    }
}

} // verus!
