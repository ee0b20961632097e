use lsp_notebook::protocol::{
    DidCloseNotebookDocument, DidOpenNotebookDocument, DidSaveNotebookDocument,
    DidChangeNotebookDocument, Initialize, NotebookCellKind, NotebookCellLanguage,
    NotebookDocumentCellChanges, NotebookDocumentChangeEvent, NotebookDocumentClientCapabilities,
    NotebookDocumentFilter, NotebookDocumentSyncOptions, NotebookDocumentSyncSelector,
    NotebookSelector,
};

fn options(selectors: Vec<NotebookDocumentSyncSelector>) -> NotebookDocumentSyncOptions {
    NotebookDocumentSyncOptions {
        notebook_selector: selectors,
        save: Some(true),
        id: None,
    }
}

fn languages(names: &[&str]) -> Vec<String> {
    names.iter().map(|name| name.to_string()).collect()
}

#[test]
fn parses_and_matches_server_notebook_selectors() {
    let options = NotebookDocumentSyncOptions {
        notebook_selector: vec![NotebookDocumentSyncSelector {
            notebook: Some(NotebookSelector::Filter(NotebookDocumentFilter {
                notebook_type: Some("jupyter-notebook".into()),
                scheme: None,
                pattern: None,
            })),
            cells: Some(vec![NotebookCellLanguage {
                language: "python".into(),
            }]),
        }],
        save: Some(true),
        id: None,
    };

    assert!(options.supports("jupyter-notebook", &["python".into()]));
    assert!(!options.supports("jupyter-notebook", &["rust".into()]));
    assert!(!options.supports("quarto", &["python".into()]));
}

#[test]
fn default_client_capabilities_advertise_static_sync_with_summaries() {
    let caps = NotebookDocumentClientCapabilities::default();
    assert_eq!(caps.synchronization.dynamic_registration, Some(false));
    assert_eq!(caps.synchronization.execution_summary_support, Some(true));
}

#[test]
fn notebook_type_selector_matches_exactly_or_by_wildcard() {
    let exact = options(vec![NotebookDocumentSyncSelector {
        notebook: Some(NotebookSelector::Type("jupyter-notebook".into())),
        cells: None,
    }]);
    assert!(exact.supports("jupyter-notebook", &[]));
    assert!(!exact.supports("jupyter", &[]));
    assert!(!exact.supports("jupyter-notebook-x", &[]));

    let any = options(vec![NotebookDocumentSyncSelector {
        notebook: Some(NotebookSelector::Type("*".into())),
        cells: None,
    }]);
    assert!(any.supports("quarto", &[]));
    assert!(any.supports("", &languages(&["python"])));
}

#[test]
fn filter_without_notebook_type_matches_every_notebook() {
    let filter = options(vec![NotebookDocumentSyncSelector {
        notebook: Some(NotebookSelector::Filter(NotebookDocumentFilter {
            notebook_type: None,
            scheme: Some("file".into()),
            pattern: Some(serde_json::Value::String("**/*.ipynb".into())),
        })),
        cells: None,
    }]);
    assert!(filter.supports("anything", &[]));

    let wildcard_filter = options(vec![NotebookDocumentSyncSelector {
        notebook: Some(NotebookSelector::Filter(NotebookDocumentFilter {
            notebook_type: Some("*".into()),
            scheme: None,
            pattern: None,
        })),
        cells: None,
    }]);
    assert!(wildcard_filter.supports("quarto", &[]));
}

#[test]
fn cell_languages_need_one_match_or_wildcard() {
    let python_or_r = options(vec![NotebookDocumentSyncSelector {
        notebook: None,
        cells: Some(vec![
            NotebookCellLanguage { language: "python".into() },
            NotebookCellLanguage { language: "r".into() },
        ]),
    }]);
    assert!(python_or_r.supports("jupyter-notebook", &languages(&["markdown", "r"])));
    assert!(!python_or_r.supports("jupyter-notebook", &languages(&["markdown"])));
    assert!(!python_or_r.supports("jupyter-notebook", &[]));

    let any_language = options(vec![NotebookDocumentSyncSelector {
        notebook: None,
        cells: Some(vec![NotebookCellLanguage { language: "*".into() }]),
    }]);
    assert!(any_language.supports("jupyter-notebook", &[]));

    let no_language = options(vec![NotebookDocumentSyncSelector {
        notebook: None,
        cells: Some(vec![]),
    }]);
    assert!(!no_language.supports("jupyter-notebook", &languages(&["python"])));
}

#[test]
fn some_selector_must_accept_both_parts() {
    let split = options(vec![
        NotebookDocumentSyncSelector {
            notebook: Some(NotebookSelector::Type("quarto".into())),
            cells: Some(vec![NotebookCellLanguage { language: "rust".into() }]),
        },
        NotebookDocumentSyncSelector {
            notebook: Some(NotebookSelector::Type("jupyter-notebook".into())),
            cells: Some(vec![NotebookCellLanguage { language: "python".into() }]),
        },
    ]);
    assert!(split.supports("quarto", &languages(&["rust"])));
    assert!(split.supports("jupyter-notebook", &languages(&["python"])));
    assert!(!split.supports("quarto", &languages(&["python"])));
    assert!(!split.supports("jupyter-notebook", &languages(&["rust"])));

    assert!(!options(vec![]).supports("jupyter-notebook", &languages(&["python"])));
}

#[test]
fn adding_languages_keeps_support() {
    let python = options(vec![NotebookDocumentSyncSelector {
        notebook: None,
        cells: Some(vec![NotebookCellLanguage { language: "python".into() }]),
    }]);
    assert!(python.supports("jupyter-notebook", &languages(&["python"])));
    assert!(python.supports("jupyter-notebook", &languages(&["markdown", "python", "sql"])));
}

#[test]
fn cell_kinds_and_methods() {
    assert_eq!(NotebookCellKind::markup(), NotebookCellKind(1));
    assert_eq!(NotebookCellKind::code(), NotebookCellKind(2));
    assert_eq!(DidOpenNotebookDocument::METHOD, "notebookDocument/didOpen");
    assert_eq!(DidChangeNotebookDocument::METHOD, "notebookDocument/didChange");
    assert_eq!(DidSaveNotebookDocument::METHOD, "notebookDocument/didSave");
    assert_eq!(DidCloseNotebookDocument::METHOD, "notebookDocument/didClose");
    assert_eq!(Initialize::METHOD, "initialize");
}

#[test]
fn default_changes_touch_nothing() {
    let event = NotebookDocumentChangeEvent::default();
    assert!(event.metadata.is_none());
    assert!(event.cells.is_none());
    let changes = NotebookDocumentCellChanges::default();
    assert!(changes.structure.is_none());
    assert!(changes.data.is_none());
    assert!(changes.text_content.is_none());
}
