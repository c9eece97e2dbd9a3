//! Core library of an offline extractor for the plaintext chat archives of Signal
//! Desktop.
//!
//! The library decides and computes: it indexes an archive line by line
//! ([`archive`]), plans an export ([`plan`]), puts its documents together message
//! by message ([`staging`], [`message`], [`markdown`], [`documents`], [`assembly`]),
//! and moves them into place so that a failure leaves everything as it was
//! ([`transaction`], [`run`]). It touches no file itself: where a file is to be
//! looked at, copied or moved, it says so and is told what came of it.

pub mod archive;
pub mod assembly;
pub mod calendar;
pub mod copier;
pub mod documents;
pub mod error;
pub mod install;
pub mod json;
pub mod laws;
pub mod markdown;
pub mod media;
pub mod message;
pub mod model;
pub mod names;
pub mod order;
pub mod parser;
pub mod path;
pub mod payload;
pub mod permutation;
pub mod plan;
pub mod run;
pub mod staging;
pub mod text;
pub mod transaction;
pub mod wizard;
pub mod words;

pub use archive::build_archive_index;
pub use error::AppError;
pub use model::{ArchiveIndex, Conversation, Recipient};
pub use names::ExportFormat;
pub use plan::{
    ConversationExportMode, ExportRequest, ExportResult, MultiExportRequest, MultiExportResult,
};
