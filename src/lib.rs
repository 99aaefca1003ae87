//! Building blocks of a multilingual corpus generator: documents and their
//! language identification, grouping by language, and a per-language writer
//! that keeps text files and metadata files aligned line for line.
pub mod document;
pub mod writer;
pub mod router;
pub mod pipeline;
