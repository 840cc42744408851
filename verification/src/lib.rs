//! Core logic of the Operator workspace app: the text buffer behind the file
//! viewer, the diff model and its flattening into display rows, syntax span
//! bookkeeping, the command palette's parsing, and process metrics.

pub mod text;
pub mod syntax;
pub mod diff;
pub mod flat;
pub mod panels;
pub mod file_viewer;
pub mod command_center;
pub mod github;
pub mod metrics;
pub mod rendered;
pub mod diff_build;
pub mod references;
pub mod editor;
pub mod prompts;
pub mod review;
pub mod markdown;
pub mod styles;
pub mod tree;
