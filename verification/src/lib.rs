//! Verified core of a desktop file converter: the text, CSV, path, format and
//! document-extraction logic, with the file system, rendering and the
//! outside parsers kept behind small trusted wrappers.

pub mod chars;
pub mod wrap;
pub mod text_engine;
pub mod office_engine;
pub mod conversion_engine;
pub mod commands;
pub mod pdf_engine;
pub mod pdf_merge;

