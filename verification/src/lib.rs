//! Structured extraction from raw email messages: a header/body boundary
//! splitter and a header-field parser that reconstructs folded header lines,
//! with a narrow interface to an external MIME decoder.
pub mod header_map;
pub mod message;
pub mod mime;
pub mod parser;
pub mod splitter;
pub mod text;
