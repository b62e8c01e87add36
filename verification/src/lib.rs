//! Conversion of DRM-free EPUB books into archives of Markdown chapters,
//! and the library logic of the Markdown book reader.
use vstd::prelude::*;

pub mod text;
pub mod paths;
pub mod regex_calls;
pub mod naming;
pub mod markdown;
pub mod model;
pub mod textmap;
pub mod segments;
pub mod links;
pub mod toc;
pub mod fences;
pub mod flat_toc;
pub mod cleanup;
pub mod chapters;
pub mod assets;
pub mod book;
pub mod xml;
pub mod render;
pub mod content;
pub mod navigation;
pub mod package;
pub mod link_targets;
pub mod conversion;
pub mod archive;
pub mod reader_text;
pub mod library;
pub mod progress;
pub mod book_payload;

verus! {

/// Why a conversion failed.
#[derive(Debug)]
pub enum ConversionError {
    InvalidEpub(String),
    MalformedEpub(String),
    ProtectedEpub(String),
    FileSystem(String),
    Conversion(String),
}

} // verus!
