//! The text document structures of the Language Server Protocol that the
//! notebook messages embed.
use vstd::prelude::*;

verus! {

/// A URI, held as its text.
pub type Uri = String;

#[derive(Debug, Clone, PartialEq, Eq)]
pub struct TextDocumentIdentifier {
    pub uri: Uri,
}

#[derive(Debug, Clone, PartialEq, Eq)]
pub struct VersionedTextDocumentIdentifier {
    pub uri: Uri,
    pub version: i32,
}

#[derive(Debug, Clone, PartialEq, Eq)]
pub struct TextDocumentItem {
    pub uri: Uri,
    pub language_id: String,
    pub version: i32,
    pub text: String,
}

#[derive(Debug, Clone, Copy, PartialEq, Eq, Structural)]
pub struct Position {
    pub line: u32,
    pub character: u32,
}

#[derive(Debug, Clone, Copy, PartialEq, Eq, Structural)]
pub struct Range {
    pub start: Position,
    pub end: Position,
}

#[derive(Debug, Clone, PartialEq, Eq)]
pub struct TextDocumentContentChangeEvent {
    pub range: Option<Range>,
    pub range_length: Option<u32>,
    pub text: String,
}

#[derive(Debug, Clone, PartialEq, Eq)]
pub struct ServerInfo {
    pub name: String,
    pub version: Option<String>,
}

} // verus!
