//! Reading coordinate records from text lines and writing them back in a fixed-width layout.

pub mod text;
pub mod record;
pub mod parser;
pub mod formatter;
pub mod laws;
