use lsp_notebook::file_names::{safe_cell_file_name, trim_start_dots};
use lsp_notebook::protocol::NotebookCellKind;
use lsp_notebook::store::{notebook_cell_file_names, NotebookCellDescriptor};

#[test]
fn cell_file_name_shape() {
    assert_eq!(safe_cell_file_name("example", "1", "py"), ".example.cell-1.py");
}

#[test]
fn cell_file_name_replaces_unsafe_characters() {
    assert_eq!(
        safe_cell_file_name("my notebook.v2", "cell/../x", "py"),
        ".my-notebook-v2.cell-cell----x.py"
    );
    assert_eq!(safe_cell_file_name("Ünïcode_ok-1", "a:b", "r"), ".-n-code_ok-1.cell-a-b.r");
    assert_eq!(safe_cell_file_name("", "", ""), "..cell-.");
}

#[test]
fn cell_file_name_keeps_the_extension() {
    assert_eq!(safe_cell_file_name("n", "c", "tar.gz"), ".n.cell-c.tar.gz");
}

#[test]
fn leading_dots_are_trimmed() {
    assert_eq!(trim_start_dots("...py"), "py");
    assert_eq!(trim_start_dots("py"), "py");
    assert_eq!(trim_start_dots("a.b"), "a.b");
    assert_eq!(trim_start_dots("..."), "");
    assert_eq!(trim_start_dots(""), "");
}

#[test]
fn notebook_cell_file_names_default_and_trim() {
    let cells = vec![
        NotebookCellDescriptor::code("1".into(), "python".into(), ".py".into(), 10),
        NotebookCellDescriptor::code("two words".into(), "r".into(), "r".into(), 11),
    ];
    assert_eq!(
        notebook_cell_file_names(Some("analysis"), &cells),
        vec![".analysis.cell-1.py".to_string(), ".analysis.cell-two-words.r".to_string()]
    );
    assert_eq!(
        notebook_cell_file_names(None, &cells),
        vec![".notebook.cell-1.py".to_string(), ".notebook.cell-two-words.r".to_string()]
    );
    assert!(notebook_cell_file_names(Some("x"), &[]).is_empty());
}

#[test]
fn code_descriptor_fields() {
    let cell = NotebookCellDescriptor::code("id".into(), "python".into(), "py".into(), 7);
    assert_eq!(cell.id, "id");
    assert_eq!(cell.kind, NotebookCellKind(2));
    assert_eq!(cell.language_id, "python");
    assert_eq!(cell.file_extension, "py");
    assert_eq!(cell.buffer, 7);
}

#[test]
fn names_collide_exactly_when_parts_sanitize_alike() {
    assert_eq!(safe_cell_file_name("a b", "x.y", "py"), safe_cell_file_name("a-b", "x/y", "py"));
    assert_ne!(safe_cell_file_name("a_b", "1", "py"), safe_cell_file_name("a-b", "1", "py"));
    assert_ne!(safe_cell_file_name("ab", "1", "py"), safe_cell_file_name("a", "b1", "py"));
    assert_ne!(safe_cell_file_name("a", "1", "py"), safe_cell_file_name("a", "1", "pyi"));
}
