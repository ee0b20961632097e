use lsp_notebook::protocol::{NotebookCellKind, NotebookDocumentSyncOptions};
use lsp_notebook::store::{
    LspStore, NotebookCellDescriptor, OpenNotebookDocumentHandle, RunningLanguageServer,
};

const NOTEBOOK: &str = "file:///workspace/example.ipynb";
const CELL_ONE: &str = "file:///workspace/.example.cell-1.py";
const CELL_TWO: &str = "file:///workspace/.example.cell-2.md";

fn cells() -> Vec<NotebookCellDescriptor> {
    vec![
        NotebookCellDescriptor::code("1".into(), "python".into(), "py".into(), 100),
        NotebookCellDescriptor {
            id: "2".into(),
            kind: NotebookCellKind::markup(),
            language_id: "markdown".into(),
            file_extension: "md".into(),
            buffer: 101,
        },
    ]
}

fn resolve(path: String) -> Option<String> {
    Some(format!("file:///workspace/{path}"))
}

fn register(store: &mut LspStore) -> OpenNotebookDocumentHandle {
    store
        .register_notebook_document(
            Some(NOTEBOOK.into()),
            "",
            Some("example"),
            "jupyter-notebook".into(),
            cells(),
            resolve,
        )
        .expect("registration succeeds")
}

fn server(id: u64, save: Option<bool>) -> RunningLanguageServer {
    RunningLanguageServer {
        id,
        notebook_document_sync: Some(NotebookDocumentSyncOptions {
            notebook_selector: vec![],
            save,
            id: None,
        }),
    }
}

#[test]
fn registration_files_notebook_and_cells() {
    let mut store = LspStore::new(true);
    let handle = register(&mut store);
    assert_eq!(handle.registration_id(), 1);
    assert_eq!(handle.notebook_uri(), NOTEBOOK);
    assert_eq!(handle.cells(), &vec![100, 101]);

    let notebook = store.notebook_document(NOTEBOOK).expect("registered");
    assert_eq!(notebook.registration_id, 1);
    assert_eq!(notebook.notebook_type, "jupyter-notebook");
    assert_eq!(notebook.version, 0);
    assert!(notebook.opened_in_servers.is_empty());
    assert_eq!(notebook.cells.len(), 2);
    assert_eq!(notebook.cells[0].uri, CELL_ONE);
    assert_eq!(notebook.cells[0].kind, NotebookCellKind(2));
    assert_eq!(notebook.cells[1].uri, CELL_TWO);
    assert_eq!(notebook.cells[1].kind, NotebookCellKind(1));
    assert_eq!(notebook.cell_languages(), vec!["python".to_string(), "markdown".to_string()]);

    assert_eq!(store.notebook_for_buffer(100).map(|uri| uri.as_str()), Some(NOTEBOOK));
    assert_eq!(store.notebook_for_buffer(101).map(|uri| uri.as_str()), Some(NOTEBOOK));
    assert_eq!(store.notebook_for_buffer(102), None);
    assert_eq!(store.registered_buffer_count(100), Some(1));
    assert_eq!(store.registered_buffer_count(101), Some(1));
}

#[test]
fn registration_ids_increase() {
    let mut store = LspStore::new(true);
    let first = register(&mut store);
    let second = register(&mut store);
    assert_eq!(first.registration_id(), 1);
    assert_eq!(second.registration_id(), 2);
    assert_eq!(store.notebook_document(NOTEBOOK).unwrap().registration_id, 2);
}

#[test]
fn remote_store_registers_nothing() {
    let mut store = LspStore::new(false);
    assert!(store
        .register_notebook_document(Some(NOTEBOOK.into()), "", Some("example"), "jupyter-notebook".into(), cells(), resolve)
        .is_none());
    assert!(store.notebook_document(NOTEBOOK).is_none());
    assert!(!store.mark_notebook_opened_in_server(NOTEBOOK, 1));
}

#[test]
fn missing_notebook_uri_spends_no_id() {
    let mut store = LspStore::new(true);
    assert!(store
        .register_notebook_document(None, "", Some("example"), "jupyter-notebook".into(), cells(), resolve)
        .is_none());
    assert_eq!(register(&mut store).registration_id(), 1);
}

#[test]
fn missing_cell_uri_spends_the_id_and_registers_nothing() {
    let mut store = LspStore::new(true);
    assert!(store
        .register_notebook_document(
            Some(NOTEBOOK.into()),
            "",
            Some("example"),
            "jupyter-notebook".into(),
            cells(),
            |path: String| if path.ends_with(".md") { None } else { resolve(path) },
        )
        .is_none());
    assert!(store.notebook_document(NOTEBOOK).is_none());
    assert_eq!(store.notebook_for_buffer(100), None);
    assert_eq!(register(&mut store).registration_id(), 2);
}

#[test]
fn save_notifies_servers_that_opened_and_want_saves() {
    let mut store = LspStore::new(true);
    let handle = register(&mut store);
    assert!(store.mark_notebook_opened_in_server(NOTEBOOK, 1));
    assert!(store.mark_notebook_opened_in_server(NOTEBOOK, 2));
    assert!(store.mark_notebook_opened_in_server(NOTEBOOK, 3));
    assert!(store.mark_notebook_opened_in_server(NOTEBOOK, 1));
    assert_eq!(store.notebook_document(NOTEBOOK).unwrap().opened_in_servers, vec![1, 2, 3]);

    let servers = vec![
        server(1, Some(true)),
        server(2, Some(false)),
        server(3, None),
        server(4, Some(true)),
        RunningLanguageServer { id: 5, notebook_document_sync: None },
    ];
    let notifications = store.save_notebook_document(&handle, &servers);
    assert_eq!(notifications.len(), 1);
    assert_eq!(notifications[0].0, 1);
    assert_eq!(notifications[0].1.notebook_document.uri, NOTEBOOK);

    assert!(store.save_notebook_document(&handle, &[]).is_empty());
}

#[test]
fn close_notifies_unregisters_and_forgets() {
    let mut store = LspStore::new(true);
    let handle = register(&mut store);
    store.mark_notebook_opened_in_server(NOTEBOOK, 1);
    store.mark_notebook_opened_in_server(NOTEBOOK, 2);
    let servers = vec![server(1, None), server(3, None), server(4, None)];
    let snapshots = vec![(100, 1), (100, 3), (101, 3), (101, 5), (999, 4)];

    let actions = store.close_notebook_document(handle, &servers, &snapshots);

    assert_eq!(actions.notifications.len(), 1);
    let (id, params) = &actions.notifications[0];
    assert_eq!(*id, 1);
    assert_eq!(params.notebook_document.uri, NOTEBOOK);
    let cells: Vec<&str> = params.cell_text_documents.iter().map(|doc| doc.uri.as_str()).collect();
    assert_eq!(cells, vec![CELL_ONE, CELL_TWO]);

    let mut forgotten: Vec<(u64, String)> = actions.unregistrations.clone();
    forgotten.sort();
    assert_eq!(forgotten, vec![(3, CELL_ONE.to_string()), (3, CELL_TWO.to_string())]);
    assert_eq!(actions.released_buffers, vec![100, 101]);

    assert!(store.notebook_document(NOTEBOOK).is_none());
    assert_eq!(store.notebook_for_buffer(100), None);
    assert_eq!(store.registered_buffer_count(101), None);
}

#[test]
fn stale_handle_leaves_newer_registration() {
    let mut store = LspStore::new(true);
    store.register_notebook_document(
        Some("file:///other.ipynb".into()),
        "",
        Some("other"),
        "jupyter-notebook".into(),
        vec![NotebookCellDescriptor::code("x".into(), "python".into(), "py".into(), 7)],
        resolve,
    );
    let stale = register(&mut store);
    let current = register(&mut store);
    store.mark_notebook_opened_in_server(NOTEBOOK, 1);
    let servers = vec![server(1, Some(true))];

    let actions = store.close_notebook_document(stale.clone(), &servers, &[(100, 1)]);
    assert!(actions.notifications.is_empty());
    assert!(actions.unregistrations.is_empty());
    assert!(actions.released_buffers.is_empty());
    assert_eq!(store.notebook_document(NOTEBOOK).unwrap().registration_id, current.registration_id());
    assert_eq!(store.notebook_for_buffer(100).map(|uri| uri.as_str()), Some(NOTEBOOK));

    // Saving goes by the notebook, whichever generation the handle is of.
    assert_eq!(store.save_notebook_document(&stale, &servers).len(), 1);

    let actions = store.close_notebook_document(current.clone(), &servers, &[]);
    assert_eq!(actions.notifications.len(), 1);
    assert!(store.notebook_document(NOTEBOOK).is_none());
    assert!(store.notebook_document("file:///other.ipynb").is_some());
    assert_eq!(store.notebook_for_buffer(7).map(|uri| uri.as_str()), Some("file:///other.ipynb"));

    let again = store.close_notebook_document(current, &servers, &[]);
    assert!(again.notifications.is_empty());
    assert!(again.released_buffers.is_empty());
    assert!(store.save_notebook_document(&stale, &servers).is_empty());
}

#[test]
fn remote_store_closes_and_saves_nothing() {
    let mut local = LspStore::new(true);
    let handle = register(&mut local);
    let mut remote = LspStore::new(false);
    assert!(remote.save_notebook_document(&handle, &[server(1, Some(true))]).is_empty());
    let actions = remote.close_notebook_document(handle, &[server(1, None)], &[]);
    assert!(actions.notifications.is_empty());
    assert!(actions.released_buffers.is_empty());
}

#[test]
fn close_asks_servers_to_forget_cell_by_cell() {
    let mut store = LspStore::new(true);
    let handle = store
        .register_notebook_document(
            Some(NOTEBOOK.into()),
            "",
            Some("example"),
            "jupyter-notebook".into(),
            cells(),
            |_path: String| Some(CELL_ONE.to_string()),
        )
        .unwrap();
    let servers = vec![server(3, None)];
    let snapshots = vec![(100, 3), (101, 3), (100, 3)];
    let actions = store.close_notebook_document(handle, &servers, &snapshots);
    assert_eq!(
        actions.unregistrations,
        vec![(3, CELL_ONE.to_string()), (3, CELL_ONE.to_string())]
    );
    assert!(actions.notifications.is_empty());
}

#[test]
fn close_notices_name_the_handle_notebook() {
    let mut store = LspStore::new(true);
    let handle = register(&mut store);
    store.mark_notebook_opened_in_server(NOTEBOOK, 9);
    let actions = store.close_notebook_document(handle, &[server(9, None)], &[]);
    assert_eq!(actions.notifications.len(), 1);
    assert_eq!(actions.notifications[0].1.notebook_document.uri, NOTEBOOK);
}

#[test]
fn cells_are_resolved_at_paths_in_the_notebook_directory() {
    let mut store = LspStore::new(true);
    let seen = std::cell::RefCell::new(Vec::new());
    let handle = store
        .register_notebook_document(
            Some("file:///workspace/docs/My Notebook.ipynb".into()),
            "docs/nested",
            None,
            "jupyter-notebook".into(),
            vec![
                NotebookCellDescriptor::code("a/1".into(), "python".into(), "..py".into(), 1),
                NotebookCellDescriptor::code("b".into(), "r".into(), "r".into(), 2),
            ],
            |path: String| {
                seen.borrow_mut().push(path.clone());
                resolve(path)
            },
        )
        .unwrap();
    assert_eq!(
        seen.into_inner(),
        vec![
            "docs/nested/.notebook.cell-a-1.py".to_string(),
            "docs/nested/.notebook.cell-b.r".to_string(),
        ]
    );
    let notebook = store.notebook_document(handle.notebook_uri()).unwrap();
    assert_eq!(notebook.cells[0].uri, "file:///workspace/docs/nested/.notebook.cell-a-1.py");
    assert_eq!(notebook.cells[1].uri, "file:///workspace/docs/nested/.notebook.cell-b.r");
}

#[test]
fn registration_stops_at_the_first_cell_without_a_uri() {
    let mut store = LspStore::new(true);
    let calls = std::cell::Cell::new(0);
    let result = store.register_notebook_document(
        Some(NOTEBOOK.into()),
        "",
        Some("example"),
        "jupyter-notebook".into(),
        cells(),
        |_path: String| {
            calls.set(calls.get() + 1);
            None
        },
    );
    assert!(result.is_none());
    assert_eq!(calls.get(), 1);
}
