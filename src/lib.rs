//! Scanning of annotated source snippets: marker comments are stripped from
//! the code, and each marker becomes a query at a byte offset in the clean text.
pub mod text;
pub mod pattern;
pub mod scan;
pub mod query_parser;
pub mod laws;
pub mod result;
pub mod assemble;
pub use pattern::QueryKind;
pub use query_parser::{find_queries, ParseResult};
pub use scan::DirectiveError;
