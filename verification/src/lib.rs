//! Typed interface to the `nb` note-taking command line: its documents, its plans and its
//! rules.

pub mod argv;
pub mod bytes;
pub mod client;
pub mod diagnostics;
pub mod error;
pub mod error_laws;
pub mod fingerprint;
pub mod gate;
pub mod git;
pub mod git_env;
pub mod git_laws;
pub mod git_signing;
pub mod line_laws;
pub mod lines;
pub mod nb_program;
pub mod output;
pub mod parser;
pub mod path_laws;
pub mod paths;
pub mod program_laws;
pub mod substring_laws;
pub mod testing;
pub mod text;
pub mod text_laws;
pub mod tokenizer;
pub mod transaction;
pub mod types;

pub use argv::{SearchMode, TaskStatus};
pub use client::{Config, NbClient};
pub use error::{IoError, IoErrorKind, NbError, ParseErrorKind};
pub use fingerprint::{fingerprint as compute_fingerprint, Fingerprint};
pub use git::{derive_git_notebook_name, git_rev_parse};
pub use git_env::leaked_git_names;
pub use parser::dispatch::SUPPORTED_DOCUMENT_EXTENSIONS;
pub use parser::document::{DocumentKind, NoteDocument, ParseContext, TodoState};
pub use parser::parse;
pub use transaction::plan::Transaction;
pub use types::{
    BodyFragment, BoundaryAt, CommitOutcome, LineAnchor, LineEdit, LineEol, LinePosition, LineRef,
    NoteLine, NoteLineHit, NoteTarget, Occurrence, OpOutcome, SearchNoteLines, ShowNote,
    ShowNoteLines,
};
