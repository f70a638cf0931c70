//! Marker-driven rewriting of source text.
//!
//! A source file may hold *directives*: regions delimited by the markers
//! `{~`, `~|~` and `~}`, each normally written at the end of a line comment.
//! The [`scanner`] splits a file into literal text and directives, the
//! [`resolver`] decides which bytes of the file survive under a [`Mode`],
//! and [`laws`] states what holds of the two together.
//!
//! Beside the engine the crate carries the small tools that surround it:
//! the settings by which files are selected, a line-oriented
//! [`source_file::SourceFile`] with its backup policy, byte searches, and the
//! parsing of the caller's location out of a stack trace.

pub mod app_error;
pub mod batch;
pub mod bytes;
pub mod laws;
pub mod model;
pub mod resolver;
pub mod scanner;
pub mod scanr;
pub mod selector;
pub mod source_file;
pub mod source_location;
pub mod text;

pub use app_error::AppError;
pub use model::{ByteRange, Directive, DirectiveKind, ErrorKind, Marker, Mode, Piece, Span, SpanTag, StructuralError};
pub use batch::{rewrite_batch, rewrite_file, to_write, Outcome};
pub use resolver::{render, resolve, rewrite};
pub use scanner::scan;
pub use scanr::Scanr;
pub use selector::{ConfigurationError, Pattern, Selection};
pub use source_file::{FlushPlan, SourceFile};
pub use source_location::{
    caller, caller_n_str, locate_caller, try_parse_positive_int, validate_source_info,
    SourceLocationInfo,
};
