//! Aggregation, classification and text windowing for missing-documentation
//! diagnostics.
//!
//! A stream of lint diagnostics is filtered, correlated with the source spans
//! it applies to, and collected into a per-file report.  Each finding's message
//! can be classified by the kind of item it refers to, and each source excerpt
//! can be cut into a prefix, a highlighted middle and a suffix without ever
//! splitting a multi-byte character.

pub mod args;
pub mod boundary;
pub mod config;
pub mod filter;
pub mod number;
pub mod render;
pub mod report;
pub mod text;
pub mod trim;
pub mod utf8;
pub mod visit;
pub mod window;

pub use args::ClassifyKind;
pub use boundary::{ceil_char_boundary, floor_char_boundary};
pub use config::{Color, ColorError, Config, Kinds, Style, Theme};
pub use filter::Filters;
pub use render::{
    count_digits, layout, pad_locations, shorten, Classification, Classify, Line, Options, Shown,
};
pub use report::{FileGroup, Missing, ReportIndex, Spanned};
pub use visit::{Filename, Message, MissingDocs, Span, Text, VisitError};
pub use window::{partition, window, HighlightFragment, Window, WindowError};
