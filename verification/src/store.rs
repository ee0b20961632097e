//! The registry of open notebooks of a language server store.
//!
//! Registering a notebook gives each of its cells a document of its own,
//! named after the notebook and the cell, and records which notebook each
//! cell buffer belongs to. A registration is a generation: the handle it
//! returns closes that generation only, so that a handle released after the
//! same notebook was registered again leaves the newer registration alone.
//!
//! The store decides; its host performs. Which language servers run, and
//! which of them keep snapshots of which buffers, is handed in; the
//! notifications to send and the buffers to forget are handed back.
use std::collections::HashMap;
use vstd::prelude::*;

use crate::file_names::{
    cell_file_name, push_char, push_str_chars, safe_cell_file_name, str_eq, trim_leading_dots, trim_start_dots,
};
use crate::protocol::{
    DidCloseNotebookDocumentParams, DidSaveNotebookDocumentParams, NotebookCellKind,
    NotebookDocumentIdentifier, NotebookDocumentSyncOptions,
};
use crate::text_document::{TextDocumentIdentifier, Uri};

verus! {

broadcast use vstd::std_specs::hash::group_hash_axioms;

/// The id of an open buffer.
pub type BufferId = u64;

/// The id of a language server.
pub type LanguageServerId = u64;

/// A cell taking part in a notebook document.
#[derive(Clone)]
pub struct NotebookCellDescriptor {
    pub id: String,
    pub kind: NotebookCellKind,
    pub language_id: String,
    pub file_extension: String,
    pub buffer: BufferId,
}

impl NotebookCellDescriptor {
    /// A code cell.
    pub fn code(id: String, language_id: String, file_extension: String, buffer: BufferId) -> (descriptor: Self)
        ensures
            descriptor.id == id,
            descriptor.kind.0 == 2,
            descriptor.language_id == language_id,
            descriptor.file_extension == file_extension,
            descriptor.buffer == buffer,
    {
        NotebookCellDescriptor { id, kind: NotebookCellKind::code(), language_id, file_extension, buffer }
    }
}

/// The name a notebook goes by when its path has no file stem.
pub open spec fn default_notebook_name() -> Seq<char> {
    seq!['n', 'o', 't', 'e', 'b', 'o', 'o', 'k']
}

/// The file stem of the notebook, or `notebook` when it has none.
pub open spec fn notebook_name(notebook_file_stem: Option<&str>) -> Seq<char> {
    match notebook_file_stem {
        Some(stem) => stem@,
        None => default_notebook_name(),
    }
}

/// The name of the file that stands for `cell`: the extension is taken
/// without the dots it starts with.
pub open spec fn cell_document_file_name(notebook_file_stem: Option<&str>, cell: NotebookCellDescriptor) -> Seq<char> {
    cell_file_name(notebook_name(notebook_file_stem), cell.id@, trim_leading_dots(cell.file_extension@))
}

/// The file names of the documents of the cells of a notebook, in the order
/// of the cells. Registration places them beside the notebook (see
/// `cell_document_path`).
pub fn notebook_cell_file_names(notebook_file_stem: Option<&str>, cells: &[NotebookCellDescriptor]) -> (names: Vec<String>)
    ensures
        names@.len() == cells@.len(),
        forall|i: int| 0 <= i < cells@.len() ==> #[trigger] names@[i]@ == cell_document_file_name(notebook_file_stem, cells@[i]),
{
    let name: &str = match notebook_file_stem {
        Some(stem) => stem,
        None => "notebook",
    };
    proof {
        reveal_strlit("notebook");
        assert("notebook"@ =~= default_notebook_name());
    }
    let mut names: Vec<String> = Vec::new();
    let mut i: usize = 0;
    while i < cells.len()
        invariant
            i <= cells@.len(),
            name@ == notebook_name(notebook_file_stem),
            names@.len() == i,
            forall|k: int| 0 <= k < i ==> #[trigger] names@[k]@ == cell_document_file_name(notebook_file_stem, cells@[k]),
        decreases cells@.len() - i,
    {
        let cell = &cells[i];
        let extension = trim_start_dots(cell.file_extension.as_str());
        names.push(safe_cell_file_name(name, cell.id.as_str(), extension));
        i = i + 1;
    }
    names
}

/// A cell of a registered notebook, as registration saw it.
pub struct CellModel {
    pub kind: NotebookCellKind,
    pub language_id: Seq<char>,
    pub uri: Seq<char>,
    pub buffer: BufferId,
}

/// A registered notebook, as registration saw it, with the language servers
/// that it has been opened in since.
pub struct NotebookModel {
    pub registration_id: u64,
    pub uri: Seq<char>,
    pub notebook_type: Seq<char>,
    pub version: i32,
    pub cells: Seq<CellModel>,
    pub opened_in_servers: Set<LanguageServerId>,
}

#[derive(Clone)]
pub struct RegisteredNotebookCell {
    pub kind: NotebookCellKind,
    pub language_id: String,
    pub uri: Uri,
    pub buffer: BufferId,
}

impl View for RegisteredNotebookCell {
    type V = CellModel;

    open spec fn view(&self) -> CellModel {
        CellModel { kind: self.kind, language_id: self.language_id@, uri: self.uri@, buffer: self.buffer }
    }
}

/// A notebook registered with the store. `opened_in_servers` holds each
/// server at most once.
#[derive(Clone)]
pub struct RegisteredNotebook {
    pub registration_id: u64,
    pub uri: Uri,
    pub notebook_type: String,
    pub version: i32,
    pub cells: Vec<RegisteredNotebookCell>,
    pub opened_in_servers: Vec<LanguageServerId>,
}

impl View for RegisteredNotebook {
    type V = NotebookModel;

    open spec fn view(&self) -> NotebookModel {
        NotebookModel {
            registration_id: self.registration_id,
            uri: self.uri@,
            notebook_type: self.notebook_type@,
            version: self.version,
            cells: self.cells@.map_values(|cell: RegisteredNotebookCell| cell@),
            opened_in_servers: self.opened_in_servers@.to_set(),
        }
    }
}

impl RegisteredNotebook {
    pub open spec fn wf(&self) -> bool {
        self.opened_in_servers@.no_duplicates()
    }

    /// The languages of the cells, in the order of the cells.
    pub fn cell_languages(&self) -> (languages: Vec<String>)
        ensures
            languages@.len() == self.cells@.len(),
            forall|i: int| 0 <= i < self.cells@.len() ==> #[trigger] languages@[i] == self.cells@[i].language_id,
    {
        let mut languages: Vec<String> = Vec::new();
        let mut i: usize = 0;
        while i < self.cells.len()
            invariant
                i <= self.cells@.len(),
                languages@.len() == i,
                forall|k: int| 0 <= k < i ==> #[trigger] languages@[k] == self.cells@[k].language_id,
            decreases self.cells@.len() - i,
        {
            languages.push(self.cells[i].language_id.clone());
            i = i + 1;
        }
        languages
    }
}


/// Keeps a notebook and its cell documents registered until it is handed
/// back to `LspStore::close_notebook_document`.
#[derive(Clone)]
pub struct OpenNotebookDocumentHandle {
    registration_id: u64,
    notebook_uri: Uri,
    cells: Vec<BufferId>,
}

/// What a handle holds: the generation it closes, the notebook, and the
/// buffers of the notebook's cells.
pub struct HandleModel {
    pub registration_id: u64,
    pub notebook_uri: Seq<char>,
    pub cells: Seq<BufferId>,
}

impl View for OpenNotebookDocumentHandle {
    type V = HandleModel;

    closed spec fn view(&self) -> HandleModel {
        HandleModel { registration_id: self.registration_id, notebook_uri: self.notebook_uri@, cells: self.cells@ }
    }
}

impl OpenNotebookDocumentHandle {
    /// The registration that this handle keeps alive.
    pub fn registration_id(&self) -> (id: u64)
        ensures
            id == self@.registration_id,
    {
        self.registration_id
    }

    /// The notebook that this handle keeps registered.
    pub fn notebook_uri(&self) -> (uri: &Uri)
        ensures
            uri@ == self@.notebook_uri,
    {
        &self.notebook_uri
    }

    /// The buffers of the notebook's cells, in the order of the cells.
    pub fn cells(&self) -> (cells: &Vec<BufferId>)
        ensures
            cells@ == self@.cells,
    {
        &self.cells
    }
}

/// A language server that is running, with the notebook sync options it
/// announced, if any.
#[derive(Clone)]
pub struct RunningLanguageServer {
    pub id: LanguageServerId,
    pub notebook_document_sync: Option<NotebookDocumentSyncOptions>,
}

/// Some entry of `servers` has this id.
pub open spec fn is_running(servers: Seq<RunningLanguageServer>, id: LanguageServerId) -> bool {
    exists|k: int| 0 <= k < servers.len() && #[trigger] servers[k].id == id
}

/// `k` is the first entry of `servers` with this id.
pub open spec fn is_first_with_id(servers: Seq<RunningLanguageServer>, id: LanguageServerId, k: int) -> bool {
    &&& 0 <= k < servers.len()
    &&& servers[k].id == id
    &&& forall|j: int| 0 <= j < k ==> #[trigger] servers[j].id != id
}

/// The server announced that it wants to hear of notebooks being saved.
pub open spec fn wants_save(server: RunningLanguageServer) -> bool {
    match server.notebook_document_sync {
        Some(options) => options.save == Some(true),
        None => false,
    }
}

/// The running server with this id (the first entry of `servers` with it)
/// wants to hear of notebooks being saved.
pub open spec fn save_requested(servers: Seq<RunningLanguageServer>, id: LanguageServerId) -> bool {
    exists|k: int| #[trigger] is_first_with_id(servers, id, k) && wants_save(servers[k])
}

/// What the store holds: whether it is local (a remote store keeps no
/// notebooks), the last registration id handed out, the registered
/// notebooks by URI, the notebook of each cell buffer, and the registration
/// count of each cell buffer.
pub struct StoreModel {
    pub is_local: bool,
    pub next_registration_id: u64,
    pub documents: Map<Seq<char>, NotebookModel>,
    pub notebook_cells: Map<BufferId, Seq<char>>,
    pub registered_buffers: Map<BufferId, usize>,
}

impl StoreModel {
    /// Every registered notebook is filed under its own URI and belongs to a
    /// generation that has been handed out.
    pub open spec fn valid(self) -> bool {
        forall|uri: Seq<char>|
            #[trigger] self.documents.contains_key(uri) ==> {
                &&& self.documents[uri].uri == uri
                &&& self.documents[uri].registration_id <= self.next_registration_id
            }
    }
}

/// The notebook state of a language server store.
pub struct LspStore {
    is_local: bool,
    next_notebook_registration_id: u64,
    notebook_documents: Vec<RegisteredNotebook>,
    notebook_cells: HashMap<BufferId, Uri>,
    registered_buffers: HashMap<BufferId, usize>,
}

spec fn uris_unique(docs: Seq<RegisteredNotebook>) -> bool {
    forall|i: int, j: int|
        0 <= i < docs.len() && 0 <= j < docs.len() && i != j ==> #[trigger] docs[i].uri@ != #[trigger] docs[j].uri@
}

spec fn has_uri(docs: Seq<RegisteredNotebook>, uri: Seq<char>) -> bool {
    exists|i: int| 0 <= i < docs.len() && #[trigger] docs[i].uri@ == uri
}

spec fn documents_model(docs: Seq<RegisteredNotebook>) -> Map<Seq<char>, NotebookModel> {
    Map::new(
        |uri: Seq<char>| has_uri(docs, uri),
        |uri: Seq<char>| docs[choose|i: int| 0 <= i < docs.len() && #[trigger] docs[i].uri@ == uri]@,
    )
}

spec fn uri_values(m: Map<BufferId, Uri>) -> Map<BufferId, Seq<char>> {
    m.map_values(|uri: Uri| uri@)
}

proof fn lemma_documents_index(docs: Seq<RegisteredNotebook>, i: int)
    requires
        uris_unique(docs),
        0 <= i < docs.len(),
    ensures
        documents_model(docs).contains_key(docs[i].uri@),
        documents_model(docs)[docs[i].uri@] == docs[i]@,
{
    let uri = docs[i].uri@;
    assert(has_uri(docs, uri));
    let k = choose|k: int| 0 <= k < docs.len() && #[trigger] docs[k].uri@ == uri;
    assert(k == i);
}

proof fn lemma_documents_push(docs: Seq<RegisteredNotebook>, notebook: RegisteredNotebook)
    requires
        uris_unique(docs),
        !has_uri(docs, notebook.uri@),
    ensures
        uris_unique(docs.push(notebook)),
        documents_model(docs.push(notebook)) == documents_model(docs).insert(notebook.uri@, notebook@),
{
    let pushed = docs.push(notebook);
    assert forall|i: int, j: int|
        0 <= i < pushed.len() && 0 <= j < pushed.len() && i != j implies #[trigger] pushed[i].uri@ != #[trigger] pushed[j].uri@ by {
        if i < docs.len() && j < docs.len() {
            assert(pushed[i] == docs[i] && pushed[j] == docs[j]);
        } else if i < docs.len() {
            assert(pushed[i] == docs[i]);
        } else if j < docs.len() {
            assert(pushed[j] == docs[j]);
        }
    }
    let m = documents_model(docs).insert(notebook.uri@, notebook@);
    assert forall|uri: Seq<char>| #[trigger] documents_model(pushed).contains_key(uri) == m.contains_key(uri) by {
        if has_uri(pushed, uri) {
            let i = choose|i: int| 0 <= i < pushed.len() && #[trigger] pushed[i].uri@ == uri;
            if i < docs.len() {
                assert(docs[i] == pushed[i]);
            }
        }
        if has_uri(docs, uri) {
            let i = choose|i: int| 0 <= i < docs.len() && #[trigger] docs[i].uri@ == uri;
            assert(docs[i] == pushed[i]);
        }
        if uri == notebook.uri@ {
            assert(pushed[docs.len() as int] == notebook);
        }
    }
    assert forall|uri: Seq<char>| #[trigger] documents_model(pushed).contains_key(uri) implies documents_model(pushed)[uri] == m[uri] by {
        let i = choose|i: int| 0 <= i < pushed.len() && #[trigger] pushed[i].uri@ == uri;
        lemma_documents_index(pushed, i);
        if i < docs.len() {
            assert(docs[i] == pushed[i]);
            lemma_documents_index(docs, i);
        }
    }
    assert(documents_model(pushed) =~= m);
}

proof fn lemma_documents_update(docs: Seq<RegisteredNotebook>, i: int, notebook: RegisteredNotebook)
    requires
        uris_unique(docs),
        0 <= i < docs.len(),
        docs[i].uri@ == notebook.uri@,
    ensures
        uris_unique(docs.update(i, notebook)),
        documents_model(docs.update(i, notebook)) == documents_model(docs).insert(notebook.uri@, notebook@),
{
    let updated = docs.update(i, notebook);
    assert forall|a: int, b: int|
        0 <= a < updated.len() && 0 <= b < updated.len() && a != b implies #[trigger] updated[a].uri@ != #[trigger] updated[b].uri@ by {
        assert(updated[a].uri@ == docs[a].uri@);
        assert(updated[b].uri@ == docs[b].uri@);
    }
    let m = documents_model(docs).insert(notebook.uri@, notebook@);
    assert forall|uri: Seq<char>| #[trigger] documents_model(updated).contains_key(uri) == m.contains_key(uri) by {
        if has_uri(updated, uri) {
            let k = choose|k: int| 0 <= k < updated.len() && #[trigger] updated[k].uri@ == uri;
            assert(docs[k].uri@ == updated[k].uri@);
        }
        if has_uri(docs, uri) {
            let k = choose|k: int| 0 <= k < docs.len() && #[trigger] docs[k].uri@ == uri;
            assert(docs[k].uri@ == updated[k].uri@);
        }
        if uri == notebook.uri@ {
            assert(updated[i] == notebook);
        }
    }
    assert forall|uri: Seq<char>| #[trigger] documents_model(updated).contains_key(uri) implies documents_model(updated)[uri] == m[uri] by {
        let k = choose|k: int| 0 <= k < updated.len() && #[trigger] updated[k].uri@ == uri;
        lemma_documents_index(updated, k);
        if k != i {
            assert(docs[k] == updated[k]);
            lemma_documents_index(docs, k);
        }
    }
    assert(documents_model(updated) =~= m);
}

proof fn lemma_documents_remove(docs: Seq<RegisteredNotebook>, i: int)
    requires
        uris_unique(docs),
        0 <= i < docs.len(),
    ensures
        uris_unique(docs.remove(i)),
        documents_model(docs.remove(i)) == documents_model(docs).remove(docs[i].uri@),
{
    let removed = docs.remove(i);
    let gone = docs[i].uri@;
    assert forall|a: int| 0 <= a < removed.len() implies #[trigger] removed[a] == docs[if a < i { a } else { a + 1 }] by {}
    assert forall|a: int, b: int|
        0 <= a < removed.len() && 0 <= b < removed.len() && a != b implies #[trigger] removed[a].uri@ != #[trigger] removed[b].uri@ by {
        assert(removed[a] == docs[if a < i { a } else { a + 1 }]);
        assert(removed[b] == docs[if b < i { b } else { b + 1 }]);
    }
    let m = documents_model(docs).remove(gone);
    assert forall|uri: Seq<char>| #[trigger] documents_model(removed).contains_key(uri) == m.contains_key(uri) by {
        if has_uri(removed, uri) {
            let k = choose|k: int| 0 <= k < removed.len() && #[trigger] removed[k].uri@ == uri;
            let d = if k < i { k } else { k + 1 };
            assert(removed[k] == docs[d]);
            assert(docs[d].uri@ == uri);
            assert(d != i);
        }
        if has_uri(docs, uri) && uri != gone {
            let k = choose|k: int| 0 <= k < docs.len() && #[trigger] docs[k].uri@ == uri;
            let r = if k < i { k } else { k - 1 };
            assert(k != i);
            assert(removed[r] == docs[k]);
        }
    }
    assert forall|uri: Seq<char>| #[trigger] documents_model(removed).contains_key(uri) implies documents_model(removed)[uri] == m[uri] by {
        let k = choose|k: int| 0 <= k < removed.len() && #[trigger] removed[k].uri@ == uri;
        let d = if k < i { k } else { k + 1 };
        assert(removed[k] == docs[d]);
        lemma_documents_index(removed, k);
        lemma_documents_index(docs, d);
    }
    assert(documents_model(removed) =~= m);
}

impl View for LspStore {
    type V = StoreModel;

    closed spec fn view(&self) -> StoreModel {
        StoreModel {
            is_local: self.is_local,
            next_registration_id: self.next_notebook_registration_id,
            documents: documents_model(self.notebook_documents@),
            notebook_cells: uri_values(self.notebook_cells@),
            registered_buffers: self.registered_buffers@,
        }
    }
}

impl LspStore {
    /// The registered notebooks are filed under distinct URIs, open in each
    /// server at most once, and of generations already handed out; a remote
    /// store holds none.
    pub closed spec fn wf(&self) -> bool {
        &&& uris_unique(self.notebook_documents@)
        &&& forall|i: int|
            0 <= i < self.notebook_documents@.len() ==> {
                &&& (#[trigger] self.notebook_documents@[i]).wf()
                &&& self.notebook_documents@[i].registration_id <= self.next_notebook_registration_id
            }
        &&& !self.is_local ==> self.notebook_documents@.len() == 0
    }

    /// A well-formed store's model is valid: every notebook is filed under
    /// its own URI and belongs to a generation already handed out. This is
    /// what the laws below take of a real store.
    pub proof fn lemma_wf_valid(&self)
        requires
            self.wf(),
        ensures
            self@.valid(),
            !self@.is_local ==> self@.documents == Map::<Seq<char>, NotebookModel>::empty(),
    {
        assert forall|uri: Seq<char>| #[trigger] self@.documents.contains_key(uri) implies {
            &&& self@.documents[uri].uri == uri
            &&& self@.documents[uri].registration_id <= self@.next_registration_id
        } by {
            let docs = self.notebook_documents@;
            let i = choose|i: int| 0 <= i < docs.len() && #[trigger] docs[i].uri@ == uri;
            lemma_documents_index(docs, i);
        }
        if !self.is_local {
            assert(self@.documents =~= Map::<Seq<char>, NotebookModel>::empty());
        }
    }

    /// An empty store; a remote store (`is_local` false) never holds
    /// notebooks.
    pub fn new(is_local: bool) -> (store: Self)
        ensures
            store.wf(),
            store@ == (StoreModel {
                is_local,
                next_registration_id: 0,
                documents: Map::empty(),
                notebook_cells: Map::empty(),
                registered_buffers: Map::empty(),
            }),
    {
        let store = LspStore {
            is_local,
            next_notebook_registration_id: 0,
            notebook_documents: Vec::new(),
            notebook_cells: HashMap::new(),
            registered_buffers: HashMap::new(),
        };
        assert(store@.documents =~= Map::<Seq<char>, NotebookModel>::empty());
        assert(store@.notebook_cells =~= Map::<BufferId, Seq<char>>::empty());
        store
    }

    /// The index of the notebook filed under `uri`.
    fn find_document(&self, uri: &str) -> (index: Option<usize>)
        requires
            self.wf(),
        ensures
            match index {
                Some(i) => i < self.notebook_documents@.len() && self.notebook_documents@[i as int].uri@ == uri@,
                None => !has_uri(self.notebook_documents@, uri@),
            },
    {
        let mut i: usize = 0;
        while i < self.notebook_documents.len()
            invariant
                i <= self.notebook_documents@.len(),
                forall|k: int| 0 <= k < i ==> #[trigger] self.notebook_documents@[k].uri@ != uri@,
            decreases self.notebook_documents@.len() - i,
        {
            if str_eq(self.notebook_documents[i].uri.as_str(), uri) {
                return Some(i);
            }
            i = i + 1;
        }
        None
    }
}


/// The buffers of the cells.
pub open spec fn cell_buffers(cells: Seq<NotebookCellDescriptor>) -> Set<BufferId> {
    Set::new(|buffer: BufferId| exists|i: int| 0 <= i < cells.len() && #[trigger] cells[i].buffer == buffer)
}

pub open spec fn registered_cell_model(cell: NotebookCellDescriptor, uri: Option<Uri>) -> CellModel {
    CellModel { kind: cell.kind, language_id: cell.language_id@, uri: uri->0@, buffer: cell.buffer }
}

/// A notebook as registration files it: version 0, its cells in order,
/// each with its document's URI, and open in no server yet.
pub open spec fn registration_model(
    registration_id: u64,
    uri: Seq<char>,
    notebook_type: Seq<char>,
    cells: Seq<NotebookCellDescriptor>,
    cell_uris: Seq<Option<Uri>>,
) -> NotebookModel {
    NotebookModel {
        registration_id,
        uri,
        notebook_type,
        version: 0,
        cells: Seq::new(cells.len(), |i: int| registered_cell_model(cells[i], cell_uris[i])),
        opened_in_servers: Set::empty(),
    }
}

/// The store after handing out the next registration id and nothing else.
pub open spec fn advance_registration_id(s: StoreModel) -> StoreModel {
    StoreModel {
        is_local: s.is_local,
        next_registration_id: (s.next_registration_id + 1) as u64,
        documents: s.documents,
        notebook_cells: s.notebook_cells,
        registered_buffers: s.registered_buffers,
    }
}

/// The store after registering a notebook under `uri` as the next
/// generation: the notebook replaces any earlier registration under that
/// URI, each cell buffer belongs to it, and each cell buffer is registered
/// once.
pub open spec fn register_model(
    s: StoreModel,
    uri: Seq<char>,
    notebook_type: Seq<char>,
    cells: Seq<NotebookCellDescriptor>,
    cell_uris: Seq<Option<Uri>>,
) -> StoreModel {
    let id = (s.next_registration_id + 1) as u64;
    StoreModel {
        is_local: s.is_local,
        next_registration_id: id,
        documents: s.documents.insert(uri, registration_model(id, uri, notebook_type, cells, cell_uris)),
        notebook_cells: s.notebook_cells.union_prefer_right(
            Map::new(|buffer: BufferId| cell_buffers(cells).contains(buffer), |buffer: BufferId| uri),
        ),
        registered_buffers: s.registered_buffers.union_prefer_right(
            Map::new(|buffer: BufferId| cell_buffers(cells).contains(buffer), |buffer: BufferId| 1usize),
        ),
    }
}

/// The handle of that registration.
pub open spec fn registration_handle(s: StoreModel, uri: Seq<char>, cells: Seq<NotebookCellDescriptor>) -> HandleModel {
    HandleModel {
        registration_id: (s.next_registration_id + 1) as u64,
        notebook_uri: uri,
        cells: cells.map_values(|cell: NotebookCellDescriptor| cell.buffer),
    }
}

/// The path, within the worktree, of the document of `cell`: its file name
/// in the notebook's directory `notebook_dir` (empty for the worktree's
/// root).
pub open spec fn cell_document_path(
    notebook_dir: Seq<char>,
    notebook_file_stem: Option<&str>,
    cell: NotebookCellDescriptor,
) -> Seq<char> {
    if notebook_dir.len() == 0 {
        cell_document_file_name(notebook_file_stem, cell)
    } else {
        notebook_dir + seq!['/'] + cell_document_file_name(notebook_file_stem, cell)
    }
}

/// `resolve` may give `uri` for a path with these characters.
pub open spec fn resolves_to<F: Fn(String) -> Option<Uri>>(resolve: F, path: Seq<char>, uri: Option<Uri>) -> bool {
    exists|given: String| given@ == path && #[trigger] call_ensures(resolve, (given,), uri)
}

/// A registration took `before` to `after` and made `handle`: each cell's
/// document has the URI `cell_uris` gives, which `resolve` gave for the
/// cell's path, and the store is `register_model` of them.
pub open spec fn registered_as<F: Fn(String) -> Option<Uri>>(
    before: StoreModel,
    after: StoreModel,
    handle: HandleModel,
    uri: Seq<char>,
    notebook_type: Seq<char>,
    cells: Seq<NotebookCellDescriptor>,
    cell_uris: Seq<Option<Uri>>,
    notebook_dir: Seq<char>,
    notebook_file_stem: Option<&str>,
    resolve: F,
) -> bool {
    &&& cell_uris.len() == cells.len()
    &&& forall|i: int|
        0 <= i < cells.len() ==> #[trigger] cell_uris[i] is Some && resolves_to(
            resolve,
            cell_document_path(notebook_dir, notebook_file_stem, cells[i]),
            cell_uris[i],
        )
    &&& after == register_model(before, uri, notebook_type, cells, cell_uris)
    &&& handle == registration_handle(before, uri, cells)
}

/// The path within the worktree of the document of `cell`, for a notebook
/// named `name` (its file stem, or the default).
fn cell_document_path_exec(
    notebook_dir: &str,
    name: &str,
    notebook_file_stem: Option<&str>,
    cell: &NotebookCellDescriptor,
) -> (path: String)
    requires
        name@ == notebook_name(notebook_file_stem),
    ensures
        path@ == cell_document_path(notebook_dir@, notebook_file_stem, *cell),
{
    let extension = trim_start_dots(cell.file_extension.as_str());
    let file_name = safe_cell_file_name(name, cell.id.as_str(), extension);
    if notebook_dir.unicode_len() == 0 {
        file_name
    } else {
        let mut path = String::new();
        push_str_chars(&mut path, notebook_dir);
        push_char(&mut path, '/');
        push_str_chars(&mut path, file_name.as_str());
        assert(path@ =~= cell_document_path(notebook_dir@, notebook_file_stem, *cell));
        path
    }
}

impl LspStore {
    /// Files `notebook` under its URI, replacing any notebook filed there.
    fn insert_document(&mut self, notebook: RegisteredNotebook)
        requires
            old(self).wf(),
            notebook.wf(),
            notebook.registration_id <= old(self).next_notebook_registration_id,
            old(self).is_local,
        ensures
            final(self).wf(),
            final(self).is_local == old(self).is_local,
            final(self).next_notebook_registration_id == old(self).next_notebook_registration_id,
            final(self).notebook_cells == old(self).notebook_cells,
            final(self).registered_buffers == old(self).registered_buffers,
            documents_model(final(self).notebook_documents@) == documents_model(old(self).notebook_documents@).insert(
                notebook.uri@,
                notebook@,
            ),
    {
        let ghost docs = self.notebook_documents@;
        match self.find_document(notebook.uri.as_str()) {
            Some(i) => {
                proof {
                    lemma_documents_update(docs, i as int, notebook);
                }
                self.notebook_documents.set(i, notebook);
            },
            None => {
                proof {
                    lemma_documents_push(docs, notebook);
                }
                self.notebook_documents.push(notebook);
            },
        }
        assert forall|i: int| 0 <= i < self.notebook_documents@.len() implies {
            &&& (#[trigger] self.notebook_documents@[i]).wf()
            &&& self.notebook_documents@[i].registration_id <= self.next_notebook_registration_id
        } by {
            if i < docs.len() && self.notebook_documents@[i] != notebook {
                assert(self.notebook_documents@[i] == docs[i]);
            }
        }
    }

    /// Registers a notebook and the documents of its cells, as the next
    /// generation.
    ///
    /// The host hands in the notebook's URI (`None` when the notebook's
    /// worktree is gone or its path makes no URI), the notebook's directory
    /// within the worktree (empty for the root) and its file stem, and
    /// `resolve_cell_path`, which gives the buffer of a cell the file at a
    /// path within the worktree and returns that file's URI (`None` when it
    /// can make none). Each cell's path is `cell_document_path`; the cells
    /// are resolved in order, and the first that makes no URI ends the
    /// registration. A remote store registers nothing. Once the notebook's
    /// URI is known the registration id is spent, even if nothing is
    /// registered.
    pub fn register_notebook_document(
        &mut self,
        notebook_uri: Option<Uri>,
        notebook_dir: &str,
        notebook_file_stem: Option<&str>,
        notebook_type: String,
        cells: Vec<NotebookCellDescriptor>,
        resolve_cell_path: impl Fn(String) -> Option<Uri>,
    ) -> (handle: Option<OpenNotebookDocumentHandle>)
        requires
            old(self).wf(),
            forall|path: String| call_requires(resolve_cell_path, (path,)),
            old(self)@.is_local && notebook_uri is Some ==> old(self)@.next_registration_id < u64::MAX,
        ensures
            final(self).wf(),
            !old(self)@.is_local || notebook_uri is None ==> handle is None && final(self)@ == old(self)@,
            old(self)@.is_local && notebook_uri is Some && handle is None ==> {
                &&& final(self)@ == advance_registration_id(old(self)@)
                &&& exists|i: int|
                    0 <= i < cells@.len() && #[trigger] resolves_to(
                        resolve_cell_path,
                        cell_document_path(notebook_dir@, notebook_file_stem, cells@[i]),
                        None,
                    )
            },
            old(self)@.is_local && notebook_uri is Some && handle is Some ==> exists|cell_uris: Seq<Option<Uri>>|
                #[trigger] registered_as(
                    old(self)@,
                    final(self)@,
                    handle->0@,
                    notebook_uri->0@,
                    notebook_type@,
                    cells@,
                    cell_uris,
                    notebook_dir@,
                    notebook_file_stem,
                    resolve_cell_path,
                ),
    {
        let ghost start = self@;
        let ghost type_view = notebook_type@;
        if !self.is_local {
            return None;
        }
        let ghost given = notebook_uri;
        let uri = match notebook_uri {
            Some(uri) => uri,
            None => return None,
        };
        self.next_notebook_registration_id = self.next_notebook_registration_id + 1;
        let registration_id = self.next_notebook_registration_id;
        assert forall|i: int| 0 <= i < self.notebook_documents@.len() implies {
            &&& (#[trigger] self.notebook_documents@[i]).wf()
            &&& self.notebook_documents@[i].registration_id <= self.next_notebook_registration_id
        } by {}
        assert(self@ == advance_registration_id(start));

        let name: &str = match notebook_file_stem {
            Some(stem) => stem,
            None => "notebook",
        };
        proof {
            reveal_strlit("notebook");
            assert("notebook"@ =~= default_notebook_name());
        }
        let mut registered_cells: Vec<RegisteredNotebookCell> = Vec::new();
        let mut buffers: Vec<BufferId> = Vec::new();
        let ghost mut cell_uris: Seq<Option<Uri>> = Seq::empty();
        let mut i: usize = 0;
        while i < cells.len()
            invariant
                self.wf(),
                self@ == advance_registration_id(start),
                start == old(self)@,
                given == notebook_uri,
                given == Some(uri),
                self.is_local,
                forall|path: String| call_requires(resolve_cell_path, (path,)),
                name@ == notebook_name(notebook_file_stem),
                i <= cells@.len(),
                cell_uris.len() == i,
                registered_cells@.len() == i,
                buffers@.len() == i,
                forall|k: int|
                    0 <= k < i ==> #[trigger] cell_uris[k] is Some && resolves_to(
                        resolve_cell_path,
                        cell_document_path(notebook_dir@, notebook_file_stem, cells@[k]),
                        cell_uris[k],
                    ),
                forall|k: int|
                    0 <= k < i ==> #[trigger] registered_cells@[k]@ == registered_cell_model(cells@[k], cell_uris[k]),
                forall|k: int| 0 <= k < i ==> #[trigger] buffers@[k] == cells@[k].buffer,
            decreases cells@.len() - i,
        {
            let cell = &cells[i];
            let path = cell_document_path_exec(notebook_dir, name, notebook_file_stem, cell);
            let ghost path_given = path;
            let resolved = resolve_cell_path(path);
            assert(resolves_to(
                resolve_cell_path,
                cell_document_path(notebook_dir@, notebook_file_stem, cells@[i as int]),
                resolved,
            )) by {
                assert(call_ensures(resolve_cell_path, (path_given,), resolved));
            }
            match resolved {
                Some(cell_uri) => {
                    proof {
                        cell_uris = cell_uris.push(Some(cell_uri));
                    }
                    registered_cells.push(
                        RegisteredNotebookCell {
                            kind: cell.kind,
                            language_id: cell.language_id.clone(),
                            uri: cell_uri,
                            buffer: cell.buffer,
                        },
                    );
                    buffers.push(cell.buffer);
                },
                None => {
                    return None;
                },
            }
            i = i + 1;
        }

        let ghost docs_before = self.notebook_documents@;
        let ghost cells_before = self.notebook_cells@;
        let ghost registered_before = self.registered_buffers@;
        let mut j: usize = 0;
        while j < cells.len()
            invariant
                self.wf(),
                self.is_local,
                self.next_notebook_registration_id == registration_id,
                self.notebook_documents@ == docs_before,
                j <= cells@.len(),
                uri_values(self.notebook_cells@) == uri_values(cells_before).union_prefer_right(
                    Map::new(
                        |buffer: BufferId| cell_buffers(cells@.take(j as int)).contains(buffer),
                        |buffer: BufferId| uri@,
                    ),
                ),
                self.registered_buffers@ == registered_before.union_prefer_right(
                    Map::new(
                        |buffer: BufferId| cell_buffers(cells@.take(j as int)).contains(buffer),
                        |buffer: BufferId| 1usize,
                    ),
                ),
            decreases cells@.len() - j,
        {
            let buffer = cells[j].buffer;
            let ghost cells_map = self.notebook_cells@;
            let ghost reg_map = self.registered_buffers@;
            let cell_uri = uri.clone();
            self.notebook_cells.insert(buffer, cell_uri);
            self.registered_buffers.insert(buffer, 1);
            proof {
                assert(uri_values(self.notebook_cells@) =~= uri_values(cells_map).insert(buffer, uri@));
                let before = cell_buffers(cells@.take(j as int));
                let after = cell_buffers(cells@.take(j + 1));
                assert forall|b: BufferId| after.contains(b) == (before.contains(b) || b == buffer) by {
                    if after.contains(b) {
                        let k = choose|k: int| 0 <= k < cells@.take(j + 1).len() && #[trigger] cells@.take(j + 1)[k].buffer == b;
                        if k < j {
                            assert(cells@.take(j as int)[k] == cells@.take(j + 1)[k]);
                        }
                    }
                    if before.contains(b) {
                        let k = choose|k: int| 0 <= k < cells@.take(j as int).len() && #[trigger] cells@.take(j as int)[k].buffer == b;
                        assert(cells@.take(j as int)[k] == cells@.take(j + 1)[k]);
                    }
                    if b == buffer {
                        assert(cells@.take(j + 1)[j as int].buffer == b);
                    }
                }
                assert(uri_values(self.notebook_cells@) =~= uri_values(cells_before).union_prefer_right(
                    Map::new(|b: BufferId| after.contains(b), |b: BufferId| uri@),
                ));
                assert(self.registered_buffers@ =~= registered_before.union_prefer_right(
                    Map::new(|b: BufferId| after.contains(b), |b: BufferId| 1usize),
                ));
            }
            j = j + 1;
        }
        assert(cells@.take(cells@.len() as int) =~= cells@);

        let registered = RegisteredNotebook {
            registration_id,
            uri: uri.clone(),
            notebook_type,
            version: 0,
            cells: registered_cells,
            opened_in_servers: Vec::new(),
        };
        assert(registered@.cells =~= registration_model(registration_id, uri@, type_view, cells@, cell_uris).cells);
        assert(registered@.opened_in_servers =~= Set::<LanguageServerId>::empty());
        self.insert_document(registered);
        let handle = OpenNotebookDocumentHandle { registration_id, notebook_uri: uri, cells: buffers };
        assert(handle@.cells =~= cells@.map_values(|cell: NotebookCellDescriptor| cell.buffer));
        assert(self@.notebook_cells =~= register_model(start, uri@, type_view, cells@, cell_uris).notebook_cells);
        assert(self@.registered_buffers =~= register_model(start, uri@, type_view, cells@, cell_uris).registered_buffers);
        let result = Some(handle);
        assert(registered_as(
            old(self)@,
            self@,
            result->0@,
            notebook_uri->0@,
            notebook_type@,
            cells@,
            cell_uris,
            notebook_dir@,
            notebook_file_stem,
            resolve_cell_path,
        ));
        result
    }
}


/// The servers that hear of a save of the notebook filed under `uri`: those
/// it was opened in that run and want to hear of saves. A remote store, or a
/// notebook that is not registered, has none.
pub open spec fn save_recipients(s: StoreModel, uri: Seq<char>, servers: Seq<RunningLanguageServer>) -> Set<LanguageServerId> {
    if s.is_local && s.documents.contains_key(uri) {
        s.documents[uri].opened_in_servers.filter(|id: LanguageServerId| save_requested(servers, id))
    } else {
        Set::empty()
    }
}

/// Closing with handle `h` takes effect: the store is local and the
/// notebook filed under the handle's URI is of the handle's generation.
pub open spec fn close_applies(s: StoreModel, h: HandleModel) -> bool {
    &&& s.is_local
    &&& s.documents.contains_key(h.notebook_uri)
    &&& s.documents[h.notebook_uri].registration_id == h.registration_id
}

/// The store after closing with handle `h`: the notebook is no longer
/// registered and the handle's cell buffers belong to no notebook and are
/// no longer registered. A close that does not take effect changes nothing.
pub open spec fn close_model(s: StoreModel, h: HandleModel) -> StoreModel {
    if close_applies(s, h) {
        StoreModel {
            is_local: s.is_local,
            next_registration_id: s.next_registration_id,
            documents: s.documents.remove(h.notebook_uri),
            notebook_cells: s.notebook_cells.remove_keys(h.cells.to_set()),
            registered_buffers: s.registered_buffers.remove_keys(h.cells.to_set()),
        }
    } else {
        s
    }
}

/// The servers that hear of the close: those the notebook was opened in
/// that run.
pub open spec fn close_recipients(s: StoreModel, h: HandleModel, servers: Seq<RunningLanguageServer>) -> Set<LanguageServerId> {
    if close_applies(s, h) {
        s.documents[h.notebook_uri].opened_in_servers.filter(|id: LanguageServerId| is_running(servers, id))
    } else {
        Set::empty()
    }
}

/// `params` close `notebook` together with the documents of all its cells,
/// in the order of the cells.
pub open spec fn closes_notebook(notebook: NotebookModel, params: DidCloseNotebookDocumentParams) -> bool {
    &&& params.notebook_document.uri@ == notebook.uri
    &&& params.cell_text_documents@.len() == notebook.cells.len()
    &&& forall|i: int|
        0 <= i < notebook.cells.len() ==> #[trigger] params.cell_text_documents@[i].uri@ == notebook.cells[i].uri
}

/// Server `server` must forget the cell document `uri` of `notebook`:
/// `uri` is a cell of the notebook whose buffer the server keeps a snapshot
/// of (a pair of `snapshots`), and the server runs but never had the
/// notebook opened.
pub open spec fn must_forget(
    notebook: NotebookModel,
    servers: Seq<RunningLanguageServer>,
    snapshots: Seq<(BufferId, LanguageServerId)>,
    server: LanguageServerId,
    uri: Seq<char>,
) -> bool {
    &&& exists|i: int|
        0 <= i < notebook.cells.len() && #[trigger] notebook.cells[i].uri == uri
            && snapshots.contains((notebook.cells[i].buffer, server))
    &&& is_running(servers, server)
    &&& !notebook.opened_in_servers.contains(server)
}

/// A close with handle `h` that takes effect makes `server` forget `uri`.
pub open spec fn unregistration_due(
    s: StoreModel,
    h: HandleModel,
    servers: Seq<RunningLanguageServer>,
    snapshots: Seq<(BufferId, LanguageServerId)>,
    server: LanguageServerId,
    uri: Seq<char>,
) -> bool {
    close_applies(s, h) && must_forget(s.documents[h.notebook_uri], servers, snapshots, server, uri)
}

/// What the host must do after a close: notify servers, make servers
/// forget cell documents, and forget the buffers in its own tables.
pub struct NotebookCloseActions {
    pub notifications: Vec<(LanguageServerId, DidCloseNotebookDocumentParams)>,
    pub unregistrations: Vec<(LanguageServerId, Uri)>,
    pub released_buffers: Vec<BufferId>,
}

/// The first running server with this id.
fn find_server(servers: &[RunningLanguageServer], id: LanguageServerId) -> (found: Option<usize>)
    ensures
        match found {
            Some(k) => is_first_with_id(servers@, id, k as int),
            None => !is_running(servers@, id),
        },
{
    let mut k: usize = 0;
    while k < servers.len()
        invariant
            k <= servers@.len(),
            forall|j: int| 0 <= j < k ==> #[trigger] servers@[j].id != id,
        decreases servers@.len() - k,
    {
        if servers[k].id == id {
            return Some(k);
        }
        k = k + 1;
    }
    None
}

fn wants_save_exec(server: &RunningLanguageServer) -> (wanted: bool)
    ensures
        wanted == wants_save(*server),
{
    match &server.notebook_document_sync {
        Some(options) => match options.save {
            Some(save) => save,
            None => false,
        },
        None => false,
    }
}

fn contains_id(ids: &Vec<LanguageServerId>, id: LanguageServerId) -> (found: bool)
    ensures
        found == ids@.contains(id),
{
    let mut k: usize = 0;
    while k < ids.len()
        invariant
            k <= ids@.len(),
            forall|j: int| 0 <= j < k ==> #[trigger] ids@[j] != id,
        decreases ids@.len() - k,
    {
        if ids[k] == id {
            return true;
        }
        k = k + 1;
    }
    false
}

/// The identifiers of the documents of the cells, in the order of the cells.
fn cell_text_documents(notebook: &RegisteredNotebook) -> (documents: Vec<TextDocumentIdentifier>)
    ensures
        documents@.len() == notebook.cells@.len(),
        forall|i: int| 0 <= i < notebook.cells@.len() ==> #[trigger] documents@[i].uri@ == notebook.cells@[i].uri@,
{
    let mut documents: Vec<TextDocumentIdentifier> = Vec::new();
    let mut i: usize = 0;
    while i < notebook.cells.len()
        invariant
            i <= notebook.cells@.len(),
            documents@.len() == i,
            forall|k: int| 0 <= k < i ==> #[trigger] documents@[k].uri@ == notebook.cells@[k].uri@,
        decreases notebook.cells@.len() - i,
    {
        documents.push(TextDocumentIdentifier { uri: notebook.cells[i].uri.clone() });
        i = i + 1;
    }
    documents
}

/// The server is picked for a notification: it runs and, for a save, wants
/// to hear of saves.
pub open spec fn picked(servers: Seq<RunningLanguageServer>, id: LanguageServerId, for_save: bool) -> bool {
    if for_save {
        save_requested(servers, id)
    } else {
        is_running(servers, id)
    }
}

/// The servers of `opened` that are picked, each once, in the order of
/// `opened`.
fn picked_servers(opened: &Vec<LanguageServerId>, servers: &[RunningLanguageServer], for_save: bool) -> (ids: Vec<LanguageServerId>)
    requires
        opened@.no_duplicates(),
    ensures
        ids@.no_duplicates(),
        forall|k: int| 0 <= k < ids@.len() ==> opened@.contains(#[trigger] ids@[k]) && picked(servers@, ids@[k], for_save),
        forall|id: LanguageServerId| opened@.contains(id) && picked(servers@, id, for_save) ==> #[trigger] ids@.contains(id),
{
    let mut ids: Vec<LanguageServerId> = Vec::new();
    let mut i: usize = 0;
    while i < opened.len()
        invariant
            i <= opened@.len(),
            opened@.no_duplicates(),
            ids@.no_duplicates(),
            forall|k: int|
                0 <= k < ids@.len() ==> opened@.take(i as int).contains(#[trigger] ids@[k]) && picked(servers@, ids@[k], for_save),
            forall|m: int| 0 <= m < i && picked(servers@, #[trigger] opened@[m], for_save) ==> ids@.contains(opened@[m]),
        decreases opened@.len() - i,
    {
        let id = opened[i];
        let chosen = match find_server(servers, id) {
            Some(k) => {
                if for_save {
                    let wanted = wants_save_exec(&servers[k]);
                    proof {
                        if !wanted {
                            assert forall|k2: int| #[trigger] is_first_with_id(servers@, id, k2) implies !wants_save(servers@[k2]) by {
                                assert(k2 == k as int);
                            }
                        }
                    }
                    wanted
                } else {
                    true
                }
            },
            None => {
                proof {
                    assert forall|k2: int| !#[trigger] is_first_with_id(servers@, id, k2) by {}
                }
                false
            },
        };
        assert(chosen == picked(servers@, id, for_save));
        let ghost before = ids@;
        assert(!opened@.take(i as int).contains(id)) by {
            if opened@.take(i as int).contains(id) {
                let m = choose|m: int| 0 <= m < i && opened@.take(i as int)[m] == id;
                assert(opened@[m] == opened@[i as int]);
            }
        }
        if chosen {
            ids.push(id);
            assert forall|a: int, b: int| 0 <= a < ids@.len() && 0 <= b < ids@.len() && a != b implies ids@[a] != ids@[b] by {
                if a < before.len() && b < before.len() {
                } else if a < before.len() {
                    assert(opened@.take(i as int).contains(before[a]));
                } else {
                    assert(opened@.take(i as int).contains(before[b]));
                }
            }
        }
        assert forall|k: int| 0 <= k < ids@.len() implies opened@.take(i + 1).contains(#[trigger] ids@[k]) && picked(servers@, ids@[k], for_save) by {
            if k < before.len() {
                let m = choose|m: int| 0 <= m < i && opened@.take(i as int)[m] == before[k];
                assert(opened@.take(i + 1)[m] == before[k]);
            } else {
                assert(opened@.take(i + 1)[i as int] == id);
            }
        }
        assert forall|m: int| 0 <= m < i + 1 && picked(servers@, #[trigger] opened@[m], for_save) implies ids@.contains(opened@[m]) by {
            if m < i {
                let k = choose|k: int| 0 <= k < before.len() && before[k] == opened@[m];
                assert(ids@[k] == opened@[m]);
            } else {
                assert(ids@[before.len() as int] == id);
            }
        }
        i = i + 1;
    }
    assert forall|k: int| 0 <= k < ids@.len() implies opened@.contains(#[trigger] ids@[k]) by {
        let m = choose|m: int| 0 <= m < opened@.take(i as int).len() && opened@.take(i as int)[m] == ids@[k];
        assert(opened@[m] == ids@[k]);
    }
    ids
}

impl LspStore {
    /// The notifications that saving the notebook of `handle` sends: one to
    /// each server the notebook was opened in that runs and announced that
    /// it wants to hear of saves, naming the notebook. A remote store, or a
    /// notebook that is not registered, sends none.
    pub fn save_notebook_document(&self, handle: &OpenNotebookDocumentHandle, servers: &[RunningLanguageServer]) -> (notifications: Vec<(LanguageServerId, DidSaveNotebookDocumentParams)>)
        requires
            self.wf(),
        ensures
            forall|k: int|
                0 <= k < notifications@.len() ==> {
                    &&& save_recipients(self@, handle@.notebook_uri, servers@).contains(#[trigger] notifications@[k].0)
                    &&& notifications@[k].1.notebook_document.uri@ == handle@.notebook_uri
                },
            forall|id: LanguageServerId|
                #[trigger] save_recipients(self@, handle@.notebook_uri, servers@).contains(id) ==> exists|k: int|
                    0 <= k < notifications@.len() && #[trigger] notifications@[k].0 == id,
            forall|j: int, k: int|
                0 <= j < k < notifications@.len() ==> #[trigger] notifications@[j].0 != #[trigger] notifications@[k].0,
    {
        let mut notifications: Vec<(LanguageServerId, DidSaveNotebookDocumentParams)> = Vec::new();
        if !self.is_local {
            return notifications;
        }
        let index = match self.find_document(handle.notebook_uri.as_str()) {
            Some(i) => i,
            None => {
                assert(!self@.documents.contains_key(handle@.notebook_uri));
                return notifications;
            },
        };
        proof {
            lemma_documents_index(self.notebook_documents@, index as int);
        }
        let notebook = &self.notebook_documents[index];
        assert(self.notebook_documents@[index as int].wf());
        let ids = picked_servers(&notebook.opened_in_servers, servers, true);
        let ghost recipients = save_recipients(self@, handle@.notebook_uri, servers@);
        assert forall|id: LanguageServerId| recipients.contains(id) == (ids@.contains(id)) by {
            if ids@.contains(id) {
                let k = choose|k: int| 0 <= k < ids@.len() && ids@[k] == id;
                assert(notebook.opened_in_servers@.contains(ids@[k]));
            }
        }
        let mut i: usize = 0;
        while i < ids.len()
            invariant
                i <= ids@.len(),
                notifications@.len() == i,
                forall|k: int|
                    0 <= k < i ==> #[trigger] notifications@[k].0 == ids@[k]
                        && notifications@[k].1.notebook_document.uri@ == handle@.notebook_uri,
            decreases ids@.len() - i,
        {
            notifications.push(
                (ids[i], DidSaveNotebookDocumentParams {
                    notebook_document: NotebookDocumentIdentifier { uri: handle.notebook_uri.clone() },
                }),
            );
            i = i + 1;
        }
        assert forall|k: int| 0 <= k < notifications@.len() implies recipients.contains(#[trigger] notifications@[k].0) by {
            assert(ids@.contains(ids@[k]));
        }
        assert forall|id: LanguageServerId| #[trigger] recipients.contains(id) implies exists|k: int|
            0 <= k < notifications@.len() && #[trigger] notifications@[k].0 == id by {
            let k = choose|k: int| 0 <= k < ids@.len() && ids@[k] == id;
            assert(notifications@[k].0 == id);
        }
        notifications
    }
}


/// The cell at index `i` of `notebook` makes `server` forget its document:
/// the server keeps a snapshot of the cell's buffer (a pair of
/// `snapshots`), runs, and never had the notebook opened.
pub open spec fn cell_forgotten_by(
    notebook: NotebookModel,
    servers: Seq<RunningLanguageServer>,
    snapshots: Seq<(BufferId, LanguageServerId)>,
    i: int,
    server: LanguageServerId,
) -> bool {
    &&& 0 <= i < notebook.cells.len()
    &&& snapshots.contains((notebook.cells[i].buffer, server))
    &&& is_running(servers, server)
    &&& !notebook.opened_in_servers.contains(server)
}

/// `forgotten` asks, cell by cell, each server that must forget a cell's
/// document to forget it, once for each such cell and server; entry `k`
/// stands for cell `cell_of[k]`. Two cells with the same document give two
/// entries.
pub open spec fn forgets_cell_by_cell(
    notebook: NotebookModel,
    servers: Seq<RunningLanguageServer>,
    snapshots: Seq<(BufferId, LanguageServerId)>,
    forgotten: Seq<(LanguageServerId, Uri)>,
    cell_of: Seq<int>,
) -> bool {
    &&& cell_of.len() == forgotten.len()
    &&& forall|k: int|
        0 <= k < forgotten.len() ==> cell_forgotten_by(notebook, servers, snapshots, #[trigger] cell_of[k], forgotten[k].0)
            && forgotten[k].1@ == notebook.cells[cell_of[k]].uri
    &&& forall|j: int, k: int|
        0 <= j < k < forgotten.len() ==> !(#[trigger] cell_of[j] == #[trigger] cell_of[k] && forgotten[j].0
            == forgotten[k].0)
    &&& forall|i: int, server: LanguageServerId|
        #[trigger] cell_forgotten_by(notebook, servers, snapshots, i, server) ==> exists|k: int|
            0 <= k < forgotten.len() && #[trigger] cell_of[k] == i && forgotten[k].0 == server
}

/// Whether an entry of `pairs` from index `start` on names `server`.
fn holds_server_from(pairs: &Vec<(LanguageServerId, Uri)>, start: usize, server: LanguageServerId) -> (found: bool)
    requires
        start <= pairs@.len(),
    ensures
        found == exists|k: int| start <= k < pairs@.len() && #[trigger] pairs@[k].0 == server,
{
    let mut k: usize = start;
    while k < pairs.len()
        invariant
            start <= k <= pairs@.len(),
            forall|j: int| start <= j < k ==> #[trigger] pairs@[j].0 != server,
        decreases pairs@.len() - k,
    {
        if pairs[k].0 == server {
            return true;
        }
        k = k + 1;
    }
    false
}

/// The cell documents that servers must forget when `notebook` closes, as
/// pairs of server and document, cell by cell.
fn forgotten_cell_documents(
    notebook: &RegisteredNotebook,
    servers: &[RunningLanguageServer],
    snapshots: &[(BufferId, LanguageServerId)],
) -> (forgotten: Vec<(LanguageServerId, Uri)>)
    ensures
        forall|k: int|
            0 <= k < forgotten@.len() ==> must_forget(
                notebook@,
                servers@,
                snapshots@,
                #[trigger] forgotten@[k].0,
                forgotten@[k].1@,
            ),
        forall|server: LanguageServerId, uri: Seq<char>|
            #[trigger] must_forget(notebook@, servers@, snapshots@, server, uri) ==> exists|k: int|
                0 <= k < forgotten@.len() && #[trigger] forgotten@[k].0 == server && forgotten@[k].1@ == uri,
        exists|cell_of: Seq<int>| #[trigger] forgets_cell_by_cell(notebook@, servers@, snapshots@, forgotten@, cell_of),
{
    let mut forgotten: Vec<(LanguageServerId, Uri)> = Vec::new();
    let ghost mut cell_of: Seq<int> = Seq::empty();
    let mut c: usize = 0;
    while c < notebook.cells.len()
        invariant
            c <= notebook.cells@.len(),
            cell_of.len() == forgotten@.len(),
            forall|k: int|
                0 <= k < forgotten@.len() ==> 0 <= #[trigger] cell_of[k] < c && cell_forgotten_by(
                    notebook@,
                    servers@,
                    snapshots@,
                    cell_of[k],
                    forgotten@[k].0,
                ) && forgotten@[k].1@ == notebook@.cells[cell_of[k]].uri,
            forall|j: int, k: int|
                0 <= j < k < forgotten@.len() ==> !(#[trigger] cell_of[j] == #[trigger] cell_of[k] && forgotten@[j].0
                    == forgotten@[k].0),
            forall|ci: int, sj: int|
                0 <= ci < c && 0 <= sj < snapshots@.len() && #[trigger] snapshots@[sj].0 == #[trigger] notebook.cells@[ci].buffer
                    && is_running(servers@, snapshots@[sj].1) && !notebook.opened_in_servers@.contains(snapshots@[sj].1)
                    ==> exists|k: int| 0 <= k < forgotten@.len() && cell_of[k] == ci && forgotten@[k].0 == snapshots@[sj].1,
        decreases notebook.cells@.len() - c,
    {
        let start = forgotten.len();
        let mut j: usize = 0;
        while j < snapshots.len()
            invariant
                c < notebook.cells@.len(),
                j <= snapshots@.len(),
                start <= forgotten@.len(),
                cell_of.len() == forgotten@.len(),
                forall|k: int|
                    0 <= k < forgotten@.len() ==> 0 <= #[trigger] cell_of[k] <= c && cell_forgotten_by(
                        notebook@,
                        servers@,
                        snapshots@,
                        cell_of[k],
                        forgotten@[k].0,
                    ) && forgotten@[k].1@ == notebook@.cells[cell_of[k]].uri,
                forall|k: int| 0 <= k < start ==> #[trigger] cell_of[k] < c,
                forall|k: int| start <= k < forgotten@.len() ==> #[trigger] cell_of[k] == c,
                forall|j2: int, k: int|
                    0 <= j2 < k < forgotten@.len() ==> !(#[trigger] cell_of[j2] == #[trigger] cell_of[k]
                        && forgotten@[j2].0 == forgotten@[k].0),
                forall|ci: int, sj: int|
                    ((0 <= ci < c && 0 <= sj < snapshots@.len()) || (ci == c && 0 <= sj < j))
                        && #[trigger] snapshots@[sj].0 == #[trigger] notebook.cells@[ci].buffer
                        && is_running(servers@, snapshots@[sj].1) && !notebook.opened_in_servers@.contains(snapshots@[sj].1)
                        ==> exists|k: int| 0 <= k < forgotten@.len() && cell_of[k] == ci && forgotten@[k].0 == snapshots@[sj].1,
            decreases snapshots@.len() - j,
        {
            let (buffer, server) = snapshots[j];
            let cell = &notebook.cells[c];
            let ghost before = forgotten@;
            let ghost cells_before = cell_of;
            let running = find_server(servers, server).is_some();
            let opened = contains_id(&notebook.opened_in_servers, server);
            let due = buffer == cell.buffer && running && !opened;
            proof {
                assert(snapshots@[j as int] == (buffer, server));
                assert(notebook@.cells[c as int] == cell@);
                assert(notebook@.opened_in_servers.contains(server) == notebook.opened_in_servers@.contains(server));
                if running {
                    assert(is_running(servers@, server));
                }
            }
            if due && !holds_server_from(&forgotten, start, server) {
                forgotten.push((server, cell.uri.clone()));
                proof {
                    cell_of = cell_of.push(c as int);
                    assert(snapshots@.contains((notebook@.cells[c as int].buffer, server)));
                    assert(cell_forgotten_by(notebook@, servers@, snapshots@, c as int, server));
                    assert forall|a: int, b: int| 0 <= a < b < forgotten@.len() implies !(#[trigger] cell_of[a]
                        == #[trigger] cell_of[b] && forgotten@[a].0 == forgotten@[b].0) by {
                        if b < before.len() {
                            assert(forgotten@[a] == before[a] && forgotten@[b] == before[b]);
                            assert(cell_of[a] == cells_before[a] && cell_of[b] == cells_before[b]);
                        } else {
                            assert(forgotten@[a] == before[a]);
                            assert(cell_of[a] == cells_before[a]);
                            if a >= start as int {
                                assert(before[a].0 != server);
                            }
                        }
                    }
                }
            }
            proof {
                assert forall|k: int| 0 <= k < before.len() implies #[trigger] forgotten@[k] == before[k] && cell_of[k]
                    == cells_before[k] by {}
                assert forall|ci: int, sj: int|
                    ((0 <= ci < c && 0 <= sj < snapshots@.len()) || (ci == c && 0 <= sj < j + 1))
                        && #[trigger] snapshots@[sj].0 == #[trigger] notebook.cells@[ci].buffer
                        && is_running(servers@, snapshots@[sj].1) && !notebook.opened_in_servers@.contains(snapshots@[sj].1)
                    implies exists|k: int| 0 <= k < forgotten@.len() && cell_of[k] == ci && forgotten@[k].0 == snapshots@[sj].1 by {
                    if ci == c && sj == j {
                        if forgotten@.len() > before.len() {
                            assert(cell_of[before.len() as int] == ci);
                            assert(forgotten@[before.len() as int].0 == snapshots@[sj].1);
                        } else {
                            let k = choose|k: int| start <= k < before.len() && #[trigger] before[k].0 == server;
                            assert(forgotten@[k] == before[k]);
                            assert(cell_of[k] == cells_before[k]);
                        }
                    } else {
                        let k = choose|k: int| 0 <= k < before.len() && cells_before[k] == ci && before[k].0 == snapshots@[sj].1;
                        assert(forgotten@[k] == before[k]);
                        assert(cell_of[k] == cells_before[k]);
                    }
                }
            }
            j = j + 1;
        }
        c = c + 1;
    }
    assert forall|i: int, server: LanguageServerId|
        #[trigger] cell_forgotten_by(notebook@, servers@, snapshots@, i, server) implies exists|k: int|
            0 <= k < forgotten@.len() && #[trigger] cell_of[k] == i && forgotten@[k].0 == server by {
        let sj = choose|sj: int| 0 <= sj < snapshots@.len() && snapshots@[sj] == (notebook@.cells[i].buffer, server);
        assert(notebook@.cells[i] == notebook.cells@[i]@);
        assert(snapshots@[sj].0 == notebook.cells@[i].buffer);
        assert(notebook@.opened_in_servers.contains(server) == notebook.opened_in_servers@.contains(server));
    }
    assert(forgets_cell_by_cell(notebook@, servers@, snapshots@, forgotten@, cell_of));
    assert forall|k: int| 0 <= k < forgotten@.len() implies must_forget(
        notebook@,
        servers@,
        snapshots@,
        #[trigger] forgotten@[k].0,
        forgotten@[k].1@,
    ) by {
        let i = cell_of[k];
        assert(cell_forgotten_by(notebook@, servers@, snapshots@, i, forgotten@[k].0));
        assert(notebook@.cells[i].uri == forgotten@[k].1@);
    }
    assert forall|server: LanguageServerId, uri: Seq<char>|
        #[trigger] must_forget(notebook@, servers@, snapshots@, server, uri) implies exists|k: int|
            0 <= k < forgotten@.len() && #[trigger] forgotten@[k].0 == server && forgotten@[k].1@ == uri by {
        let i = choose|i: int|
            0 <= i < notebook@.cells.len() && #[trigger] notebook@.cells[i].uri == uri
                && snapshots@.contains((notebook@.cells[i].buffer, server));
        assert(cell_forgotten_by(notebook@, servers@, snapshots@, i, server));
        let k = choose|k: int| 0 <= k < forgotten@.len() && #[trigger] cell_of[k] == i && forgotten@[k].0 == server;
        assert(forgotten@[k].1@ == uri);
    }
    forgotten
}

/// The handle's notebook, with `server` among the servers it is open in.
pub open spec fn with_opened_server(notebook: NotebookModel, server: LanguageServerId) -> NotebookModel {
    NotebookModel {
        registration_id: notebook.registration_id,
        uri: notebook.uri,
        notebook_type: notebook.notebook_type,
        version: notebook.version,
        cells: notebook.cells,
        opened_in_servers: notebook.opened_in_servers.insert(server),
    }
}

impl LspStore {
    /// Closes the notebook of `handle`, which its holder lets go of.
    ///
    /// The close takes effect only for the generation the handle was made
    /// for: once the notebook has been registered again, or closed, the
    /// handle changes nothing. Otherwise the notebook is no longer
    /// registered, its cell buffers belong to no notebook and are no longer
    /// registered, each server the notebook was opened in that runs is told
    /// of the close of the notebook and of all its cell documents, each
    /// server that runs, keeps a snapshot of a cell's buffer and never had
    /// the notebook opened forgets that cell's document, and the handle's
    /// buffers are handed back for the host to forget.
    pub fn close_notebook_document(
        &mut self,
        handle: OpenNotebookDocumentHandle,
        servers: &[RunningLanguageServer],
        snapshots: &[(BufferId, LanguageServerId)],
    ) -> (actions: NotebookCloseActions)
        requires
            old(self).wf(),
        ensures
            final(self).wf(),
            final(self)@ == close_model(old(self)@, handle@),
            forall|k: int|
                0 <= k < actions.notifications@.len() ==> {
                    &&& close_recipients(old(self)@, handle@, servers@).contains(#[trigger] actions.notifications@[k].0)
                    &&& closes_notebook(old(self)@.documents[handle@.notebook_uri], actions.notifications@[k].1)
                    &&& actions.notifications@[k].1.notebook_document.uri@ == handle@.notebook_uri
                },
            forall|id: LanguageServerId|
                #[trigger] close_recipients(old(self)@, handle@, servers@).contains(id) ==> exists|k: int|
                    0 <= k < actions.notifications@.len() && #[trigger] actions.notifications@[k].0 == id,
            forall|j: int, k: int|
                0 <= j < k < actions.notifications@.len() ==> #[trigger] actions.notifications@[j].0
                    != #[trigger] actions.notifications@[k].0,
            forall|k: int|
                0 <= k < actions.unregistrations@.len() ==> unregistration_due(
                    old(self)@,
                    handle@,
                    servers@,
                    snapshots@,
                    #[trigger] actions.unregistrations@[k].0,
                    actions.unregistrations@[k].1@,
                ),
            forall|server: LanguageServerId, uri: Seq<char>|
                #[trigger] unregistration_due(old(self)@, handle@, servers@, snapshots@, server, uri) ==> exists|k: int|
                    0 <= k < actions.unregistrations@.len() && #[trigger] actions.unregistrations@[k].0 == server
                        && actions.unregistrations@[k].1@ == uri,
            close_applies(old(self)@, handle@) ==> exists|cell_of: Seq<int>|
                #[trigger] forgets_cell_by_cell(
                    old(self)@.documents[handle@.notebook_uri],
                    servers@,
                    snapshots@,
                    actions.unregistrations@,
                    cell_of,
                ),
            actions.released_buffers@ == (if close_applies(old(self)@, handle@) {
                handle@.cells
            } else {
                Seq::<BufferId>::empty()
            }),
    {
        let ghost start = self@;
        let mut actions = NotebookCloseActions {
            notifications: Vec::new(),
            unregistrations: Vec::new(),
            released_buffers: Vec::new(),
        };
        if !self.is_local {
            return actions;
        }
        let index = match self.find_document(handle.notebook_uri.as_str()) {
            Some(i) => i,
            None => {
                assert(!start.documents.contains_key(handle@.notebook_uri));
                return actions;
            },
        };
        let ghost docs = self.notebook_documents@;
        proof {
            lemma_documents_index(docs, index as int);
            lemma_documents_remove(docs, index as int);
        }
        if self.notebook_documents[index].registration_id != handle.registration_id {
            return actions;
        }
        let notebook = self.notebook_documents.remove(index);
        assert(notebook.wf());
        assert(notebook@ == start.documents[handle@.notebook_uri]);
        assert forall|i: int| 0 <= i < self.notebook_documents@.len() implies {
            &&& (#[trigger] self.notebook_documents@[i]).wf()
            &&& self.notebook_documents@[i].registration_id <= self.next_notebook_registration_id
        } by {
            assert(self.notebook_documents@[i] == docs[if i < index { i } else { i + 1 }]);
        }

        let ids = picked_servers(&notebook.opened_in_servers, servers, false);
        let ghost recipients = close_recipients(start, handle@, servers@);
        assert forall|id: LanguageServerId| recipients.contains(id) == (ids@.contains(id)) by {
            if ids@.contains(id) {
                let k = choose|k: int| 0 <= k < ids@.len() && ids@[k] == id;
                assert(notebook.opened_in_servers@.contains(ids@[k]));
            }
        }
        let mut i: usize = 0;
        while i < ids.len()
            invariant
                i <= ids@.len(),
                notebook.uri@ == handle@.notebook_uri,
                actions.notifications@.len() == i,
                forall|k: int|
                    0 <= k < i ==> #[trigger] actions.notifications@[k].0 == ids@[k] && closes_notebook(
                        notebook@,
                        actions.notifications@[k].1,
                    ) && actions.notifications@[k].1.notebook_document.uri@ == handle@.notebook_uri,
            decreases ids@.len() - i,
        {
            let documents = cell_text_documents(&notebook);
            let params = DidCloseNotebookDocumentParams {
                notebook_document: NotebookDocumentIdentifier { uri: notebook.uri.clone() },
                cell_text_documents: documents,
            };
            assert(closes_notebook(notebook@, params));
            actions.notifications.push((ids[i], params));
            i = i + 1;
        }
        assert forall|k: int| 0 <= k < actions.notifications@.len() implies recipients.contains(
            #[trigger] actions.notifications@[k].0,
        ) by {
            assert(ids@.contains(ids@[k]));
        }
        assert forall|id: LanguageServerId| #[trigger] recipients.contains(id) implies exists|k: int|
            0 <= k < actions.notifications@.len() && #[trigger] actions.notifications@[k].0 == id by {
            let k = choose|k: int| 0 <= k < ids@.len() && ids@[k] == id;
            assert(actions.notifications@[k].0 == id);
        }

        actions.unregistrations = forgotten_cell_documents(&notebook, servers, snapshots);

        let ghost cells_before = self.notebook_cells@;
        let ghost registered_before = self.registered_buffers@;
        let ghost docs_after = self.notebook_documents@;
        let mut b: usize = 0;
        assert(handle.cells@.take(0).to_set() =~= Set::<BufferId>::empty());
        assert(uri_values(cells_before).remove_keys(Set::empty()) =~= uri_values(cells_before));
        assert(registered_before.remove_keys(Set::empty()) =~= registered_before);
        while b < handle.cells.len()
            invariant
                self.wf(),
                self.is_local,
                self.next_notebook_registration_id == start.next_registration_id,
                self.notebook_documents@ == docs_after,
                b <= handle.cells@.len(),
                uri_values(self.notebook_cells@) == uri_values(cells_before).remove_keys(handle.cells@.take(b as int).to_set()),
                self.registered_buffers@ == registered_before.remove_keys(handle.cells@.take(b as int).to_set()),
            decreases handle.cells@.len() - b,
        {
            let buffer = handle.cells[b];
            let ghost cells_map = self.notebook_cells@;
            self.notebook_cells.remove(&buffer);
            self.registered_buffers.remove(&buffer);
            proof {
                handle.cells@.lemma_take_succ_push(b as int);
                handle.cells@.take(b as int).lemma_push_to_set_commute(buffer);
                assert(handle.cells@.take(b + 1).to_set() =~= handle.cells@.take(b as int).to_set().insert(buffer));
                assert(uri_values(self.notebook_cells@) =~= uri_values(cells_map).remove(buffer));
                assert(uri_values(self.notebook_cells@) =~= uri_values(cells_before).remove_keys(
                    handle.cells@.take(b + 1).to_set(),
                ));
                assert(self.registered_buffers@ =~= registered_before.remove_keys(handle.cells@.take(b + 1).to_set()));
            }
            b = b + 1;
        }
        assert(handle.cells@.take(handle.cells@.len() as int) =~= handle.cells@);
        assert(self@.documents =~= start.documents.remove(handle@.notebook_uri));
        let ghost notes = actions.notifications@;
        let ghost forgotten = actions.unregistrations@;
        actions.released_buffers = handle.cells;
        assert(actions.notifications@ == notes);
        assert(actions.unregistrations@ == forgotten);
        actions
    }

    /// Records that the notebook filed under `notebook_uri` has been opened
    /// in `server`. Returns whether such a notebook is registered; if not,
    /// nothing changes.
    pub fn mark_notebook_opened_in_server(&mut self, notebook_uri: &str, server: LanguageServerId) -> (registered: bool)
        requires
            old(self).wf(),
        ensures
            final(self).wf(),
            registered == old(self)@.documents.contains_key(notebook_uri@),
            registered ==> final(self)@ == (StoreModel {
                is_local: old(self)@.is_local,
                next_registration_id: old(self)@.next_registration_id,
                documents: old(self)@.documents.insert(
                    notebook_uri@,
                    with_opened_server(old(self)@.documents[notebook_uri@], server),
                ),
                notebook_cells: old(self)@.notebook_cells,
                registered_buffers: old(self)@.registered_buffers,
            }),
            !registered ==> final(self)@ == old(self)@,
    {
        let ghost docs = self.notebook_documents@;
        let index = match self.find_document(notebook_uri) {
            Some(i) => i,
            None => {
                assert(!self@.documents.contains_key(notebook_uri@));
                return false;
            },
        };
        proof {
            lemma_documents_index(docs, index as int);
        }
        let mut notebook = self.notebook_documents.remove(index);
        assert(notebook == docs[index as int]);
        assert(notebook.wf());
        if !contains_id(&notebook.opened_in_servers, server) {
            let ghost before = notebook.opened_in_servers@;
            notebook.opened_in_servers.push(server);
            assert(notebook.opened_in_servers@.no_duplicates()) by {
                assert forall|a: int, b: int|
                    0 <= a < notebook.opened_in_servers@.len() && 0 <= b < notebook.opened_in_servers@.len() && a != b
                    implies notebook.opened_in_servers@[a] != notebook.opened_in_servers@[b] by {
                    if a < before.len() && b < before.len() {
                    } else if a < before.len() {
                        assert(before.contains(before[a]));
                    } else {
                        assert(before.contains(before[b]));
                    }
                }
            }
            proof { before.lemma_push_to_set_commute(server); }
        } else {
            assert(notebook.opened_in_servers@.to_set() =~= notebook.opened_in_servers@.to_set().insert(server));
        }
        assert(notebook@ == with_opened_server(docs[index as int]@, server));
        self.notebook_documents.insert(index, notebook);
        assert(self.notebook_documents@ =~= docs.update(index as int, notebook));
        proof {
            lemma_documents_update(docs, index as int, notebook);
        }
        assert forall|i: int| 0 <= i < self.notebook_documents@.len() implies {
            &&& (#[trigger] self.notebook_documents@[i]).wf()
            &&& self.notebook_documents@[i].registration_id <= self.next_notebook_registration_id
        } by {
            if i != index {
                assert(self.notebook_documents@[i] == docs[i]);
            }
        }
        true
    }

    /// The notebook filed under `notebook_uri`, if one is registered.
    pub fn notebook_document(&self, notebook_uri: &str) -> (notebook: Option<&RegisteredNotebook>)
        requires
            self.wf(),
        ensures
            notebook is Some == self@.documents.contains_key(notebook_uri@),
            notebook matches Some(n) ==> n@ == self@.documents[notebook_uri@] && n.wf(),
    {
        match self.find_document(notebook_uri) {
            Some(i) => {
                proof {
                    lemma_documents_index(self.notebook_documents@, i as int);
                }
                Some(&self.notebook_documents[i])
            },
            None => None,
        }
    }

    /// The URI of the notebook that `buffer` is a cell of, if any.
    pub fn notebook_for_buffer(&self, buffer: BufferId) -> (uri: Option<&Uri>)
        ensures
            uri is Some == self@.notebook_cells.contains_key(buffer),
            uri matches Some(u) ==> u@ == self@.notebook_cells[buffer],
    {
        self.notebook_cells.get(&buffer)
    }

    /// How many times `buffer` is registered as a cell, if it is.
    pub fn registered_buffer_count(&self, buffer: BufferId) -> (count: Option<usize>)
        ensures
            count == (if self@.registered_buffers.contains_key(buffer) {
                Some(self@.registered_buffers[buffer])
            } else {
                None
            }),
    {
        match self.registered_buffers.get(&buffer) {
            Some(count) => Some(*count),
            None => None,
        }
    }
}


/// Registration hands out a generation newer than that of every notebook
/// already registered, and keeps the store valid.
pub proof fn lemma_registration_is_fresh(
    s: StoreModel,
    uri: Seq<char>,
    notebook_type: Seq<char>,
    cells: Seq<NotebookCellDescriptor>,
    cell_uris: Seq<Option<Uri>>,
)
    requires
        s.valid(),
        s.next_registration_id < u64::MAX,
    ensures
        register_model(s, uri, notebook_type, cells, cell_uris).valid(),
        register_model(s, uri, notebook_type, cells, cell_uris).documents[uri].registration_id
            == registration_handle(s, uri, cells).registration_id,
        forall|other: Seq<char>|
            #[trigger] s.documents.contains_key(other) ==> s.documents[other].registration_id
                < register_model(s, uri, notebook_type, cells, cell_uris).documents[uri].registration_id,
{
}

/// The handle's buffers are the buffers of the registered cells.
proof fn lemma_handle_cells(s: StoreModel, uri: Seq<char>, cells: Seq<NotebookCellDescriptor>)
    ensures
        registration_handle(s, uri, cells).cells.to_set() == cell_buffers(cells),
{
    let buffers = cells.map_values(|cell: NotebookCellDescriptor| cell.buffer);
    assert forall|b: BufferId| buffers.to_set().contains(b) == cell_buffers(cells).contains(b) by {
        if buffers.contains(b) {
            let k = choose|k: int| 0 <= k < buffers.len() && buffers[k] == b;
            assert(cells[k].buffer == b);
        }
        if cell_buffers(cells).contains(b) {
            let k = choose|k: int| 0 <= k < cells.len() && #[trigger] cells[k].buffer == b;
            assert(buffers[k] == b);
        }
    }
    assert(buffers.to_set() =~= cell_buffers(cells));
}

/// Closing with the handle of a registration before the notebook is
/// registered again undoes the registration: the notebook's URI and the
/// cells' buffers are no longer registered, and every other notebook and
/// buffer is as it was before; only the spent registration id remains.
pub proof fn lemma_close_undoes_registration(
    s: StoreModel,
    uri: Seq<char>,
    notebook_type: Seq<char>,
    cells: Seq<NotebookCellDescriptor>,
    cell_uris: Seq<Option<Uri>>,
)
    requires
        s.valid(),
        s.is_local,
        s.next_registration_id < u64::MAX,
    ensures
        close_applies(
            register_model(s, uri, notebook_type, cells, cell_uris),
            registration_handle(s, uri, cells),
        ),
        close_model(register_model(s, uri, notebook_type, cells, cell_uris), registration_handle(s, uri, cells))
            == (StoreModel {
            is_local: s.is_local,
            next_registration_id: (s.next_registration_id + 1) as u64,
            documents: s.documents.remove(uri),
            notebook_cells: s.notebook_cells.remove_keys(cell_buffers(cells)),
            registered_buffers: s.registered_buffers.remove_keys(cell_buffers(cells)),
        }),
{
    let t = register_model(s, uri, notebook_type, cells, cell_uris);
    let h = registration_handle(s, uri, cells);
    lemma_handle_cells(s, uri, cells);
    let closed = close_model(t, h);
    assert(closed.documents =~= s.documents.remove(uri));
    assert(closed.notebook_cells =~= s.notebook_cells.remove_keys(cell_buffers(cells)));
    assert(closed.registered_buffers =~= s.registered_buffers.remove_keys(cell_buffers(cells)));
}

/// Once a notebook has been registered again under the same URI, the handle
/// of the earlier registration closes nothing and notifies nobody: the
/// newer registration stays.
pub proof fn lemma_stale_close_keeps_newer_registration(
    s: StoreModel,
    uri: Seq<char>,
    first_type: Seq<char>,
    first_cells: Seq<NotebookCellDescriptor>,
    first_uris: Seq<Option<Uri>>,
    second_type: Seq<char>,
    second_cells: Seq<NotebookCellDescriptor>,
    second_uris: Seq<Option<Uri>>,
    servers: Seq<RunningLanguageServer>,
)
    requires
        s.valid(),
        s.next_registration_id + 1 < u64::MAX,
    ensures
        ({
            let first = register_model(s, uri, first_type, first_cells, first_uris);
            let second = register_model(first, uri, second_type, second_cells, second_uris);
            let stale = registration_handle(s, uri, first_cells);
            &&& !close_applies(second, stale)
            &&& close_model(second, stale) == second
            &&& close_recipients(second, stale, servers) == Set::<LanguageServerId>::empty()
        }),
{
}

/// A handle closes at most once: closing with it again changes nothing and
/// notifies nobody.
pub proof fn lemma_close_is_final(s: StoreModel, h: HandleModel, servers: Seq<RunningLanguageServer>)
    ensures
        !close_applies(close_model(s, h), h),
        close_model(close_model(s, h), h) == close_model(s, h),
        close_recipients(close_model(s, h), h, servers) == Set::<LanguageServerId>::empty(),
{
}

/// Saving sends nothing for a notebook that a close has taken away.
pub proof fn lemma_no_save_after_close(s: StoreModel, h: HandleModel, servers: Seq<RunningLanguageServer>)
    requires
        close_applies(s, h),
    ensures
        save_recipients(close_model(s, h), h.notebook_uri, servers) == Set::<LanguageServerId>::empty(),
{
}


/// Registering a notebook whose URI and cell buffers the store does not yet
/// know, then closing with the handle before the URI is registered again,
/// leaves the notebooks, the cell buffers' notebooks and the registered
/// buffers as they were before the registration.
pub proof fn lemma_register_close_round_trip(
    s: StoreModel,
    uri: Seq<char>,
    notebook_type: Seq<char>,
    cells: Seq<NotebookCellDescriptor>,
    cell_uris: Seq<Option<Uri>>,
)
    requires
        s.valid(),
        s.is_local,
        s.next_registration_id < u64::MAX,
        !s.documents.contains_key(uri),
        forall|b: BufferId|
            #[trigger] cell_buffers(cells).contains(b) ==> !s.notebook_cells.contains_key(b)
                && !s.registered_buffers.contains_key(b),
    ensures
        close_applies(
            register_model(s, uri, notebook_type, cells, cell_uris),
            registration_handle(s, uri, cells),
        ),
        close_model(register_model(s, uri, notebook_type, cells, cell_uris), registration_handle(s, uri, cells)).documents
            == s.documents,
        close_model(register_model(s, uri, notebook_type, cells, cell_uris), registration_handle(s, uri, cells)).notebook_cells
            == s.notebook_cells,
        close_model(
            register_model(s, uri, notebook_type, cells, cell_uris),
            registration_handle(s, uri, cells),
        ).registered_buffers == s.registered_buffers,
{
    lemma_close_undoes_registration(s, uri, notebook_type, cells, cell_uris);
    assert(s.documents.remove(uri) =~= s.documents);
    assert(s.notebook_cells.remove_keys(cell_buffers(cells)) =~= s.notebook_cells);
    assert(s.registered_buffers.remove_keys(cell_buffers(cells)) =~= s.registered_buffers);
}

/// Registering a notebook again under a URI makes every handle for that URI
/// from an earlier generation stale: the new registration is newer, and
/// closing with such a handle changes nothing and notifies nobody.
pub proof fn lemma_reregistration_makes_earlier_handles_stale(
    s: StoreModel,
    uri: Seq<char>,
    notebook_type: Seq<char>,
    cells: Seq<NotebookCellDescriptor>,
    cell_uris: Seq<Option<Uri>>,
    earlier: HandleModel,
    servers: Seq<RunningLanguageServer>,
)
    requires
        s.valid(),
        s.next_registration_id < u64::MAX,
        earlier.notebook_uri == uri,
        earlier.registration_id <= s.next_registration_id,
    ensures
        register_model(s, uri, notebook_type, cells, cell_uris).documents[uri].registration_id > earlier.registration_id,
        !close_applies(register_model(s, uri, notebook_type, cells, cell_uris), earlier),
        close_model(register_model(s, uri, notebook_type, cells, cell_uris), earlier) == register_model(
            s,
            uri,
            notebook_type,
            cells,
            cell_uris,
        ),
        close_recipients(register_model(s, uri, notebook_type, cells, cell_uris), earlier, servers) == Set::<
            LanguageServerId,
        >::empty(),
{
}

/// No step of the store lowers the registration counter, and a
/// registration hands out a generation above it; so a generation handed
/// out later is newer than every one handed out before.
pub proof fn lemma_generations_are_never_reused(
    s: StoreModel,
    uri: Seq<char>,
    notebook_type: Seq<char>,
    cells: Seq<NotebookCellDescriptor>,
    cell_uris: Seq<Option<Uri>>,
    h: HandleModel,
    server: LanguageServerId,
    earlier: u64,
)
    requires
        s.next_registration_id < u64::MAX,
        earlier <= s.next_registration_id,
    ensures
        register_model(s, uri, notebook_type, cells, cell_uris).next_registration_id == s.next_registration_id + 1,
        advance_registration_id(s).next_registration_id == s.next_registration_id + 1,
        close_model(s, h).next_registration_id == s.next_registration_id,
        registration_handle(s, uri, cells).registration_id == register_model(
            s,
            uri,
            notebook_type,
            cells,
            cell_uris,
        ).next_registration_id,
        registration_handle(s, uri, cells).registration_id > earlier,
{
}

/// The documents of a registration's cells are the URIs the host made for
/// them, in the order of the cells, whatever the generation and the
/// buffers; and the file name of a cell's document depends on the
/// notebook's name and the cell's id and extension alone.
pub proof fn lemma_cell_documents_are_stable(
    s: StoreModel,
    uri: Seq<char>,
    notebook_type: Seq<char>,
    cells: Seq<NotebookCellDescriptor>,
    cell_uris: Seq<Option<Uri>>,
    notebook_file_stem: Option<&str>,
    cell: NotebookCellDescriptor,
    other: NotebookCellDescriptor,
)
    requires
        cells.len() == cell_uris.len(),
        cell.id@ == other.id@,
        cell.file_extension@ == other.file_extension@,
    ensures
        register_model(s, uri, notebook_type, cells, cell_uris).documents[uri].cells.len() == cells.len(),
        forall|i: int|
            0 <= i < cells.len() ==> #[trigger] register_model(s, uri, notebook_type, cells, cell_uris).documents[uri].cells[i].uri
                == cell_uris[i]->0@,
        cell_document_file_name(notebook_file_stem, cell) == cell_document_file_name(notebook_file_stem, other),
{
}


/// `resolve` gives equal URIs for paths with equal characters.
pub open spec fn resolves_alike<F: Fn(String) -> Option<Uri>>(resolve: F) -> bool {
    forall|p1: String, p2: String, r1: Option<Uri>, r2: Option<Uri>|
        p1@ == p2@ && #[trigger] call_ensures(resolve, (p1,), r1) && #[trigger] call_ensures(resolve, (p2,), r2) ==> r1
            == r2
}

/// Stable, notebook-derived cell URIs: when the host resolves equal paths
/// to equal URIs, two registrations of notebooks in the same directory with
/// the same file stem give cells with equal ids and extensions equal
/// document URIs, position by position, whatever their buffers, languages,
/// notebook URIs and generations.
pub proof fn lemma_cell_uris_are_stable<F: Fn(String) -> Option<Uri>>(
    resolve: F,
    notebook_dir: Seq<char>,
    notebook_file_stem: Option<&str>,
    before1: StoreModel,
    after1: StoreModel,
    handle1: HandleModel,
    uri1: Seq<char>,
    type1: Seq<char>,
    cells1: Seq<NotebookCellDescriptor>,
    cell_uris1: Seq<Option<Uri>>,
    before2: StoreModel,
    after2: StoreModel,
    handle2: HandleModel,
    uri2: Seq<char>,
    type2: Seq<char>,
    cells2: Seq<NotebookCellDescriptor>,
    cell_uris2: Seq<Option<Uri>>,
)
    requires
        resolves_alike(resolve),
        registered_as(before1, after1, handle1, uri1, type1, cells1, cell_uris1, notebook_dir, notebook_file_stem, resolve),
        registered_as(before2, after2, handle2, uri2, type2, cells2, cell_uris2, notebook_dir, notebook_file_stem, resolve),
        cells1.len() == cells2.len(),
        forall|i: int|
            0 <= i < cells1.len() ==> #[trigger] cells1[i].id@ == cells2[i].id@ && cells1[i].file_extension@
                == cells2[i].file_extension@,
    ensures
        after1.documents[uri1].cells.len() == after2.documents[uri2].cells.len(),
        forall|i: int|
            0 <= i < cells1.len() ==> #[trigger] after1.documents[uri1].cells[i].uri == after2.documents[uri2].cells[i].uri,
{
    assert forall|i: int| 0 <= i < cells1.len() implies #[trigger] after1.documents[uri1].cells[i].uri
        == after2.documents[uri2].cells[i].uri by {
        assert(cells1[i].id@ == cells2[i].id@);
        let path = cell_document_path(notebook_dir, notebook_file_stem, cells1[i]);
        assert(cell_document_path(notebook_dir, notebook_file_stem, cells2[i]) == path);
        assert(cell_uris1[i] is Some);
        assert(cell_uris2[i] is Some);
        let p1 = choose|given: String| given@ == path && #[trigger] call_ensures(resolve, (given,), cell_uris1[i]);
        let p2 = choose|given: String| given@ == path && #[trigger] call_ensures(resolve, (given,), cell_uris2[i]);
        assert(cell_uris1[i] == cell_uris2[i]);
    }
}


/// A step of the store, as the store's functions take it.
pub enum StoreStep {
    /// A registration that made a URI for every cell.
    Register {
        uri: Seq<char>,
        notebook_type: Seq<char>,
        cells: Seq<NotebookCellDescriptor>,
        cell_uris: Seq<Option<Uri>>,
    },
    /// A registration that knew the notebook's URI but ended at a cell.
    SpendId,
    /// A close with a handle.
    Close { handle: HandleModel },
    /// A server opened a notebook.
    MarkOpened { uri: Seq<char>, server: LanguageServerId },
}

/// The store after a step.
pub open spec fn step_model(s: StoreModel, step: StoreStep) -> StoreModel {
    match step {
        StoreStep::Register { uri, notebook_type, cells, cell_uris } => register_model(
            s,
            uri,
            notebook_type,
            cells,
            cell_uris,
        ),
        StoreStep::SpendId => advance_registration_id(s),
        StoreStep::Close { handle } => close_model(s, handle),
        StoreStep::MarkOpened { uri, server } => if s.documents.contains_key(uri) {
            StoreModel {
                is_local: s.is_local,
                next_registration_id: s.next_registration_id,
                documents: s.documents.insert(uri, with_opened_server(s.documents[uri], server)),
                notebook_cells: s.notebook_cells,
                registered_buffers: s.registered_buffers,
            }
        } else {
            s
        },
    }
}

/// The store after the steps, in order.
pub open spec fn run_steps(s: StoreModel, steps: Seq<StoreStep>) -> StoreModel
    decreases steps.len(),
{
    if steps.len() == 0 {
        s
    } else {
        step_model(run_steps(s, steps.drop_last()), steps.last())
    }
}

/// Each step that hands out an id finds the counter below `u64::MAX`, as
/// registration requires.
pub open spec fn steps_allowed(s: StoreModel, steps: Seq<StoreStep>) -> bool
    decreases steps.len(),
{
    if steps.len() == 0 {
        true
    } else {
        &&& steps_allowed(s, steps.drop_last())
        &&& (steps.last() is Register || steps.last() is SpendId) ==> run_steps(s, steps.drop_last()).next_registration_id
            < u64::MAX
    }
}

/// No sequence of steps lowers the registration counter.
pub proof fn lemma_counter_never_decreases(s: StoreModel, steps: Seq<StoreStep>)
    requires
        steps_allowed(s, steps),
    ensures
        run_steps(s, steps).next_registration_id >= s.next_registration_id,
    decreases steps.len(),
{
    if steps.len() > 0 {
        lemma_counter_never_decreases(s, steps.drop_last());
    }
}

/// A generation is never reused: a registration made after another, with
/// any steps in between, hands out a newer generation.
pub proof fn lemma_later_registrations_are_newer(
    s: StoreModel,
    uri1: Seq<char>,
    type1: Seq<char>,
    cells1: Seq<NotebookCellDescriptor>,
    cell_uris1: Seq<Option<Uri>>,
    between: Seq<StoreStep>,
    uri2: Seq<char>,
    cells2: Seq<NotebookCellDescriptor>,
)
    requires
        s.next_registration_id < u64::MAX,
        steps_allowed(register_model(s, uri1, type1, cells1, cell_uris1), between),
        run_steps(register_model(s, uri1, type1, cells1, cell_uris1), between).next_registration_id < u64::MAX,
    ensures
        registration_handle(run_steps(register_model(s, uri1, type1, cells1, cell_uris1), between), uri2, cells2).registration_id
            > registration_handle(s, uri1, cells1).registration_id,
{
    lemma_counter_never_decreases(register_model(s, uri1, type1, cells1, cell_uris1), between);
}


/// Saving reaches exactly the servers it should: a server is a recipient
/// when, and only when, the store is local, the notebook is registered and
/// was opened in the server, and the first running server with that id
/// announced notebook sync options with `save` set to `true`.
pub proof fn lemma_save_recipients_are_the_willing_servers(
    s: StoreModel,
    uri: Seq<char>,
    servers: Seq<RunningLanguageServer>,
    id: LanguageServerId,
)
    ensures
        save_recipients(s, uri, servers).contains(id) <==> {
            &&& s.is_local
            &&& s.documents.contains_key(uri)
            &&& s.documents[uri].opened_in_servers.contains(id)
            &&& exists|k: int|
                0 <= k < servers.len() && #[trigger] servers[k].id == id && (forall|j: int|
                    0 <= j < k ==> servers[j].id != id) && servers[k].notebook_document_sync is Some
                    && servers[k].notebook_document_sync->0.save == Some(true)
        },
{
    if s.is_local && s.documents.contains_key(uri) && s.documents[uri].opened_in_servers.contains(id) {
        if save_recipients(s, uri, servers).contains(id) {
            let k = choose|k: int| #[trigger] is_first_with_id(servers, id, k) && wants_save(servers[k]);
            assert(servers[k].id == id);
        }
        if exists|k: int|
            0 <= k < servers.len() && #[trigger] servers[k].id == id && (forall|j: int|
                0 <= j < k ==> servers[j].id != id) && servers[k].notebook_document_sync is Some
                && servers[k].notebook_document_sync->0.save == Some(true) {
            let k = choose|k: int|
                0 <= k < servers.len() && #[trigger] servers[k].id == id && (forall|j: int|
                    0 <= j < k ==> servers[j].id != id) && servers[k].notebook_document_sync is Some
                    && servers[k].notebook_document_sync->0.save == Some(true);
            assert(is_first_with_id(servers, id, k));
            assert(wants_save(servers[k]));
        }
    }
}

/// A close that takes effect reaches exactly the servers it should: the
/// running servers the notebook was opened in.
pub proof fn lemma_close_recipients_are_the_running_opened_servers(
    s: StoreModel,
    h: HandleModel,
    servers: Seq<RunningLanguageServer>,
    id: LanguageServerId,
)
    ensures
        close_recipients(s, h, servers).contains(id) <==> {
            &&& s.is_local
            &&& s.documents.contains_key(h.notebook_uri)
            &&& s.documents[h.notebook_uri].registration_id == h.registration_id
            &&& s.documents[h.notebook_uri].opened_in_servers.contains(id)
            &&& exists|k: int| 0 <= k < servers.len() && #[trigger] servers[k].id == id
        },
{
}

/// Registration files the notebook as it was given: the next generation,
/// version 0, the given type, open in no server, and, cell by cell, each
/// cell's kind, language, buffer and the URI made for it; each cell's buffer
/// belongs to the notebook and is registered once; the handle holds the
/// generation, the notebook's URI and the cells' buffers in order.
pub proof fn lemma_registration_keeps_each_cell(
    s: StoreModel,
    uri: Seq<char>,
    notebook_type: Seq<char>,
    cells: Seq<NotebookCellDescriptor>,
    cell_uris: Seq<Option<Uri>>,
)
    requires
        cell_uris.len() == cells.len(),
        s.next_registration_id < u64::MAX,
    ensures
        ({
            let after = register_model(s, uri, notebook_type, cells, cell_uris);
            let notebook = after.documents[uri];
            let handle = registration_handle(s, uri, cells);
            &&& after.documents.contains_key(uri)
            &&& notebook.registration_id == s.next_registration_id + 1
            &&& notebook.uri == uri
            &&& notebook.notebook_type == notebook_type
            &&& notebook.version == 0
            &&& notebook.opened_in_servers == Set::<LanguageServerId>::empty()
            &&& notebook.cells.len() == cells.len()
            &&& forall|i: int|
                0 <= i < cells.len() ==> {
                    &&& (#[trigger] notebook.cells[i]).buffer == cells[i].buffer
                    &&& notebook.cells[i].kind == cells[i].kind
                    &&& notebook.cells[i].language_id == cells[i].language_id@
                    &&& notebook.cells[i].uri == cell_uris[i]->0@
                    &&& after.notebook_cells.contains_key(cells[i].buffer)
                    &&& after.notebook_cells[cells[i].buffer] == uri
                    &&& after.registered_buffers.contains_key(cells[i].buffer)
                    &&& after.registered_buffers[cells[i].buffer] == 1
                    &&& handle.cells[i] == cells[i].buffer
                }
            &&& handle.registration_id == s.next_registration_id + 1
            &&& handle.notebook_uri == uri
            &&& handle.cells.len() == cells.len()
        }),
{
    let after = register_model(s, uri, notebook_type, cells, cell_uris);
    assert forall|i: int| 0 <= i < cells.len() implies #[trigger] cell_buffers(cells).contains(cells[i].buffer) by {}
}

} // verus!
