//! A streaming-style JSON re-formatter: it reads a byte sequence holding a
//! JSON document and emits a pretty-printed, indentation-normalized byte
//! sequence, preserving the literal bytes of strings and numbers exactly.
//!
//! Two algorithms are offered: a grammar-driven pretty-printer with an
//! explicit frame stack ([`format_json`]), and a faster single-pass scanner
//! that reacts only to local character classes ([`format_json_fast`]).
//! Both must render well-formed input identically.  Each is specified
//! against a deterministic step machine whose transitions follow the JSON
//! grammar positions, and the laws module proves, among others, that the
//! two agree on single tokens and on flat arrays of scalar tokens.

pub mod fmt;
pub mod indent;
pub mod laws;
pub mod model;
pub mod scan;

pub use fmt::format_json;
pub use fmt::format_json_fast;
pub use indent::Indent;
pub use model::JsonError;
pub use model::State;
