//! What the functions of the library are for, said of their inputs and results.

pub mod archive;
pub mod calendar;
pub mod copier;
pub mod documents;
pub mod install;
pub mod json;
pub mod markdown;
pub mod media;
pub mod message;
pub mod names;
pub mod parser;
pub mod path;
pub mod payload;
pub mod plan;
pub mod run;
pub mod staging;
pub mod text;
pub mod wizard;
pub mod words;
