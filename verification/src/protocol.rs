//! Language Server Protocol 3.17 notebook document synchronization messages,
//! and the rule by which a server's notebook sync options select notebooks.
//!
//! The structures follow the protocol's shapes field by field. A URI is held
//! as its text (`Uri`); free-form JSON (notebook metadata, glob patterns,
//! server capabilities) is held as `serde_json` values and carried through
//! untouched.
use vstd::prelude::*;

use crate::file_names::str_eq;
use crate::text_document::{
    ServerInfo, TextDocumentContentChangeEvent, TextDocumentIdentifier, TextDocumentItem, Uri,
    VersionedTextDocumentIdentifier,
};

verus! {

/// A JSON value, carried through as it came.
#[verifier::external_type_specification]
#[verifier::external_body]
pub struct ExJsonValue(serde_json::Value);

/// A JSON object, carried through as it came.
#[verifier::external_type_specification]
#[verifier::external_body]
#[verifier::reject_recursive_types(K)]
#[verifier::reject_recursive_types(V)]
pub struct ExJsonMap<K, V>(serde_json::Map<K, V>);

/// What the client advertises about notebook documents in `initialize`.
#[derive(Debug, Clone, PartialEq, Eq, Structural)]
pub struct NotebookDocumentClientCapabilities {
    pub synchronization: NotebookDocumentSyncClientCapabilities,
}

#[derive(Debug, Clone, PartialEq, Eq, Structural)]
pub struct NotebookDocumentSyncClientCapabilities {
    pub dynamic_registration: Option<bool>,
    pub execution_summary_support: Option<bool>,
}

impl Default for NotebookDocumentClientCapabilities {
    /// The client supports static registration only, and reports
    /// execution summaries.
    fn default() -> (caps: Self)
        ensures
            caps.synchronization.dynamic_registration == Some(false),
            caps.synchronization.execution_summary_support == Some(true),
    {
        NotebookDocumentClientCapabilities {
            synchronization: NotebookDocumentSyncClientCapabilities {
                dynamic_registration: Some(false),
                execution_summary_support: Some(true),
            },
        }
    }
}

/// The notebook sync options a server announces. `id` is present when the
/// server answered with registration options; it plays no part in matching.
#[derive(Debug, Clone, PartialEq)]
pub struct NotebookDocumentSyncOptions {
    pub notebook_selector: Vec<NotebookDocumentSyncSelector>,
    pub save: Option<bool>,
    pub id: Option<String>,
}

#[derive(Debug, Clone, PartialEq)]
pub struct NotebookDocumentSyncSelector {
    pub notebook: Option<NotebookSelector>,
    pub cells: Option<Vec<NotebookCellLanguage>>,
}

#[derive(Debug, Clone, PartialEq)]
pub enum NotebookSelector {
    Type(String),
    Filter(NotebookDocumentFilter),
}

#[derive(Debug, Clone, PartialEq)]
pub struct NotebookDocumentFilter {
    pub notebook_type: Option<String>,
    pub scheme: Option<String>,
    pub pattern: Option<serde_json::Value>,
}

#[derive(Debug, Clone, PartialEq, Eq)]
pub struct NotebookCellLanguage {
    pub language: String,
}

/// `*` stands for every notebook type and every cell language.
pub open spec fn is_wildcard(pattern: Seq<char>) -> bool {
    pattern == seq!['*']
}

/// A notebook type or language pattern accepts a value when it is the
/// wildcard or the value itself.
pub open spec fn pattern_accepts(pattern: Seq<char>, value: Seq<char>) -> bool {
    is_wildcard(pattern) || pattern == value
}

/// The notebook part of a selector: absent, or a filter without a notebook
/// type, accepts every notebook.
pub open spec fn notebook_part_accepts(notebook: Option<NotebookSelector>, notebook_type: Seq<char>) -> bool {
    match notebook {
        None => true,
        Some(NotebookSelector::Type(kind)) => pattern_accepts(kind@, notebook_type),
        Some(NotebookSelector::Filter(filter)) => match filter.notebook_type {
            None => true,
            Some(kind) => pattern_accepts(kind@, notebook_type),
        },
    }
}

/// `language` is one of `languages`.
pub open spec fn language_listed(languages: Seq<String>, language: Seq<char>) -> bool {
    exists|j: int| 0 <= j < languages.len() && #[trigger] languages[j]@ == language
}

pub open spec fn cell_language_accepts(cell: NotebookCellLanguage, languages: Seq<String>) -> bool {
    is_wildcard(cell.language@) || language_listed(languages, cell.language@)
}

/// The cells part of a selector: absent, it accepts every notebook; present,
/// one of its entries must accept one of the notebook's cell languages.
pub open spec fn cells_part_accepts(cells: Option<Vec<NotebookCellLanguage>>, languages: Seq<String>) -> bool {
    cells is None || exists|i: int|
        0 <= i < cells->0@.len() && #[trigger] cell_language_accepts(cells->0@[i], languages)
}

pub open spec fn selector_accepts(
    selector: NotebookDocumentSyncSelector,
    notebook_type: Seq<char>,
    languages: Seq<String>,
) -> bool {
    notebook_part_accepts(selector.notebook, notebook_type) && cells_part_accepts(selector.cells, languages)
}

fn is_wildcard_exec(pattern: &String) -> (wildcard: bool)
    ensures
        wildcard == is_wildcard(pattern@),
{
    let wildcard = str_eq(pattern.as_str(), "*");
    proof {
        reveal_strlit("*");
        assert("*"@ =~= seq!['*']);
    }
    wildcard
}

fn pattern_accepts_exec(pattern: &String, value: &str) -> (accepted: bool)
    ensures
        accepted == pattern_accepts(pattern@, value@),
{
    is_wildcard_exec(pattern) || str_eq(pattern.as_str(), value)
}

fn notebook_part_accepts_exec(notebook: &Option<NotebookSelector>, notebook_type: &str) -> (accepted: bool)
    ensures
        accepted == notebook_part_accepts(*notebook, notebook_type@),
{
    match notebook {
        Some(NotebookSelector::Type(kind)) => pattern_accepts_exec(kind, notebook_type),
        Some(NotebookSelector::Filter(filter)) => match &filter.notebook_type {
            Some(kind) => pattern_accepts_exec(kind, notebook_type),
            None => true,
        },
        None => true,
    }
}

fn language_listed_exec(languages: &[String], language: &String) -> (listed: bool)
    ensures
        listed == language_listed(languages@, language@),
{
    let mut j: usize = 0;
    while j < languages.len()
        invariant
            j <= languages@.len(),
            forall|k: int| 0 <= k < j ==> languages@[k]@ != language@,
        decreases languages@.len() - j,
    {
        if str_eq(languages[j].as_str(), language.as_str()) {
            return true;
        }
        j = j + 1;
    }
    false
}

fn cells_part_accepts_exec(cells: &Option<Vec<NotebookCellLanguage>>, languages: &[String]) -> (accepted: bool)
    ensures
        accepted == cells_part_accepts(*cells, languages@),
{
    match cells {
        None => true,
        Some(list) => {
            let mut i: usize = 0;
            while i < list.len()
                invariant
                    *cells == Some(*list),
                    i <= list@.len(),
                    forall|k: int| 0 <= k < i ==> !cell_language_accepts(#[trigger] list@[k], languages@),
                decreases list@.len() - i,
            {
                if is_wildcard_exec(&list[i].language) || language_listed_exec(languages, &list[i].language) {
                    assert(cells->0@[i as int] == list@[i as int]);
                    assert(cell_language_accepts(cells->0@[i as int], languages@));
                    return true;
                }
                i = i + 1;
            }
            false
        },
    }
}

impl NotebookDocumentSyncOptions {
    /// Some selector of these options accepts a notebook of this type whose
    /// cells have these languages.
    pub open spec fn spec_supports(&self, notebook_type: Seq<char>, cell_languages: Seq<String>) -> bool {
        exists|i: int|
            0 <= i < self.notebook_selector@.len()
                && #[trigger] selector_accepts(self.notebook_selector@[i], notebook_type, cell_languages)
    }

    /// Whether a server with these options wants a notebook of
    /// `notebook_type` whose cells are written in `cell_languages`.
    pub fn supports(&self, notebook_type: &str, cell_languages: &[String]) -> (supported: bool)
        ensures
            supported == self.spec_supports(notebook_type@, cell_languages@),
    {
        let mut i: usize = 0;
        while i < self.notebook_selector.len()
            invariant
                i <= self.notebook_selector@.len(),
                forall|k: int|
                    0 <= k < i ==> !selector_accepts(
                        #[trigger] self.notebook_selector@[k],
                        notebook_type@,
                        cell_languages@,
                    ),
            decreases self.notebook_selector@.len() - i,
        {
            let selector = &self.notebook_selector[i];
            let notebook_matches = notebook_part_accepts_exec(&selector.notebook, notebook_type);
            let cells_match = cells_part_accepts_exec(&selector.cells, cell_languages);
            if notebook_matches && cells_match {
                assert(selector_accepts(self.notebook_selector@[i as int], notebook_type@, cell_languages@));
                return true;
            }
            i = i + 1;
        }
        false
    }
}

/// Adding cell languages never turns a notebook that a server supports into
/// one it does not support.
pub proof fn lemma_supports_more_languages(
    options: NotebookDocumentSyncOptions,
    notebook_type: Seq<char>,
    languages: Seq<String>,
    more: Seq<String>,
)
    requires
        forall|j: int| 0 <= j < languages.len() ==> language_listed(more, #[trigger] languages[j]@),
    ensures
        options.spec_supports(notebook_type, languages) ==> options.spec_supports(notebook_type, more),
{
    if options.spec_supports(notebook_type, languages) {
        let i = choose|i: int|
            0 <= i < options.notebook_selector@.len()
                && #[trigger] selector_accepts(options.notebook_selector@[i], notebook_type, languages);
        let selector = options.notebook_selector@[i];
        if let Some(list) = selector.cells {
            let k = choose|k: int| 0 <= k < list@.len() && #[trigger] cell_language_accepts(list@[k], languages);
            if !is_wildcard(list@[k].language@) {
                let j = choose|j: int| 0 <= j < languages.len() && #[trigger] languages[j]@ == list@[k].language@;
                assert(language_listed(more, languages[j]@));
            }
            assert(cell_language_accepts(list@[k], more));
        }
        assert(selector_accepts(selector, notebook_type, more));
    }
}

/// Whether a server supports a notebook depends on its selectors alone:
/// `save` and the registration `id` play no part.
pub proof fn lemma_supports_ignores_save_and_id(
    options: NotebookDocumentSyncOptions,
    other: NotebookDocumentSyncOptions,
    notebook_type: Seq<char>,
    languages: Seq<String>,
)
    requires
        options.notebook_selector@ == other.notebook_selector@,
    ensures
        options.spec_supports(notebook_type, languages) == other.spec_supports(notebook_type, languages),
{
}

/// A selector that names neither a notebook nor cell languages makes the
/// server support every notebook.
pub proof fn lemma_open_selector_supports_everything(
    options: NotebookDocumentSyncOptions,
    i: int,
    notebook_type: Seq<char>,
    languages: Seq<String>,
)
    requires
        0 <= i < options.notebook_selector@.len(),
        options.notebook_selector@[i].notebook is None,
        options.notebook_selector@[i].cells is None,
    ensures
        options.spec_supports(notebook_type, languages),
{
    assert(selector_accepts(options.notebook_selector@[i], notebook_type, languages));
}

/// The kind of a notebook cell: `1` is markup, `2` is code.
#[derive(Debug, Clone, Copy, PartialEq, Eq, Structural)]
pub struct NotebookCellKind(pub u8);

impl NotebookCellKind {
    /// A markup cell.
    pub fn markup() -> (kind: NotebookCellKind)
        ensures
            kind.0 == 1,
    {
        NotebookCellKind(1)
    }

    /// A code cell.
    pub fn code() -> (kind: NotebookCellKind)
        ensures
            kind.0 == 2,
    {
        NotebookCellKind(2)
    }
}

#[derive(Debug, Clone, PartialEq)]
pub struct ExecutionSummary {
    pub execution_order: u32,
    pub success: Option<bool>,
}

#[derive(Debug, Clone, PartialEq)]
pub struct NotebookCell {
    pub kind: NotebookCellKind,
    pub document: Uri,
    pub metadata: Option<serde_json::Map<String, serde_json::Value>>,
    pub execution_summary: Option<ExecutionSummary>,
}

#[derive(Debug, Clone, PartialEq)]
pub struct NotebookDocument {
    pub uri: Uri,
    pub notebook_type: String,
    pub version: i32,
    pub metadata: Option<serde_json::Map<String, serde_json::Value>>,
    pub cells: Vec<NotebookCell>,
}

#[derive(Debug, Clone, PartialEq, Eq)]
pub struct NotebookDocumentIdentifier {
    pub uri: Uri,
}

#[derive(Debug, Clone, PartialEq, Eq)]
pub struct VersionedNotebookDocumentIdentifier {
    pub uri: Uri,
    pub version: i32,
}

#[derive(Debug, Clone, PartialEq)]
pub struct DidOpenNotebookDocumentParams {
    pub notebook_document: NotebookDocument,
    pub cell_text_documents: Vec<TextDocumentItem>,
}

#[derive(Debug, Clone, PartialEq)]
pub struct DidChangeNotebookDocumentParams {
    pub notebook_document: VersionedNotebookDocumentIdentifier,
    pub change: NotebookDocumentChangeEvent,
}

#[derive(Debug, Clone, PartialEq)]
pub struct NotebookDocumentChangeEvent {
    pub metadata: Option<serde_json::Map<String, serde_json::Value>>,
    pub cells: Option<NotebookDocumentCellChanges>,
}

impl Default for NotebookDocumentChangeEvent {
    /// A change that touches nothing.
    fn default() -> (event: Self)
        ensures
            event.metadata is None,
            event.cells is None,
    {
        NotebookDocumentChangeEvent { metadata: None, cells: None }
    }
}

#[derive(Debug, Clone, PartialEq)]
pub struct NotebookDocumentCellChanges {
    pub structure: Option<NotebookDocumentCellChangeStructure>,
    pub data: Option<Vec<NotebookCell>>,
    pub text_content: Option<Vec<NotebookDocumentCellContentChanges>>,
}

impl Default for NotebookDocumentCellChanges {
    /// Cell changes that touch nothing.
    fn default() -> (changes: Self)
        ensures
            changes.structure is None,
            changes.data is None,
            changes.text_content is None,
    {
        NotebookDocumentCellChanges { structure: None, data: None, text_content: None }
    }
}

#[derive(Debug, Clone, PartialEq)]
pub struct NotebookDocumentCellChangeStructure {
    pub array: NotebookCellArrayChange,
    pub did_open: Option<Vec<TextDocumentItem>>,
    pub did_close: Option<Vec<TextDocumentIdentifier>>,
}

#[derive(Debug, Clone, PartialEq)]
pub struct NotebookCellArrayChange {
    pub start: u32,
    pub delete_count: u32,
    pub cells: Option<Vec<NotebookCell>>,
}

#[derive(Debug, Clone, PartialEq)]
pub struct NotebookDocumentCellContentChanges {
    pub document: VersionedTextDocumentIdentifier,
    pub changes: Vec<TextDocumentContentChangeEvent>,
}

#[derive(Debug, Clone, PartialEq, Eq)]
pub struct DidSaveNotebookDocumentParams {
    pub notebook_document: NotebookDocumentIdentifier,
}

#[derive(Debug, Clone, PartialEq, Eq)]
pub struct DidCloseNotebookDocumentParams {
    pub notebook_document: NotebookDocumentIdentifier,
    pub cell_text_documents: Vec<TextDocumentIdentifier>,
}

/// The `notebookDocument/didOpen` notification.
pub struct DidOpenNotebookDocument;

impl DidOpenNotebookDocument {
    pub const METHOD: &'static str = "notebookDocument/didOpen";
}

/// The `notebookDocument/didChange` notification.
pub struct DidChangeNotebookDocument;

impl DidChangeNotebookDocument {
    pub const METHOD: &'static str = "notebookDocument/didChange";
}

/// The `notebookDocument/didSave` notification.
pub struct DidSaveNotebookDocument;

impl DidSaveNotebookDocument {
    pub const METHOD: &'static str = "notebookDocument/didSave";
}

/// The `notebookDocument/didClose` notification.
pub struct DidCloseNotebookDocument;

impl DidCloseNotebookDocument {
    pub const METHOD: &'static str = "notebookDocument/didClose";
}

/// The answer to `initialize`, with the server's capabilities kept as JSON
/// so that notebook sync options can be read from it.
#[derive(Debug)]
pub struct InitializeResult {
    pub capabilities: serde_json::Value,
    pub server_info: Option<ServerInfo>,
}

/// The `initialize` request, whose parameters travel as JSON.
pub struct Initialize;

impl Initialize {
    pub const METHOD: &'static str = "initialize";
}

} // verus!
