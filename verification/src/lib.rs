//! Garbelour: how much attention each hunk of a diff deserves.
//!
//! Every hunk gets one of three levels: `review` (read it carefully), `skim`
//! (have a glance) or `skip` (collapse it). Rules handle what is mechanical
//! (lockfiles, generated code, comments, the order of imports) and what bears
//! load (the public interface, control flow, arithmetic, removed error
//! handling); a model may be asked about the rest.
//!
//! The library reads no files and sends no requests: its caller hands it texts
//! and sends what it builds.
pub mod ast;
pub mod classifiers;
pub mod classify;
pub mod cli;
pub mod config;
pub mod consolidate;
pub mod diff;
pub mod github;
pub mod json;
pub mod lang;
pub mod llm;
pub mod merge;
pub mod order;
pub mod path;
pub mod render;
pub mod run;
pub mod text;
pub mod wire;

pub use classify::{
    Category, Classification, Classified, Classifier, FocusLines, Level, Pipeline, PipelineConfig,
    Side, Source, Unclassified,
};
pub use diff::{Diff, FileDiff, FileStatus, Hunk, HunkId, LineRange};
pub use lang::Language;
