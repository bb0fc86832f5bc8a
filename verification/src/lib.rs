//! Alias registry and placeholder rewriting for documents that refer to
//! files kept outside the document tree.
//!
//! A `FileCache` holds which alias stands for which outside file. Its
//! `copy_files` steps say how the mirror directory inside the document
//! tree is brought up to date, and `rewrite` replaces each placeholder
//! `{{#find alias}}` in a text by a link to, or an image of, the mirrored
//! file.

pub mod cache;
pub mod config;
pub mod document;
pub mod file_type;
pub mod rewrite_laws;
pub mod path;
pub mod rewrite;
pub mod sync;
pub mod sync_laws;
pub mod text;

pub use cache::{AliasEntry, FileCache};
pub use config::AliasRecord;
pub use document::{DocumentUnit, FileSearch};
pub use file_type::{FileSearchProcessorError, FileType};
pub use rewrite::{replacement_for, rewrite, Rewriter};
pub use sync::{SyncOutcome, SyncStep};
