# lsp_notebook

Notebook document synchronization for language servers (LSP 3.17), verified
with Verus.

- `src/protocol.rs`: the notebook messages, and the rule by which a server's
  notebook sync options select a notebook (`supports`).
- `src/text_document.rs`: the text document structures the messages embed;
  a URI is held as its text.
- `src/file_names.rs`: the hidden file names that stand for notebook cells.
- `src/store.rs`: the registry of open notebooks. It registers notebooks as
  generations, and decides which servers hear of a save or a close and which
  cell documents servers must forget; the host performs the I/O.
- `app/`: the serde forms of the messages, the `lsp-types` notification and
  request markers, and the `initialize` parameters with notebook support.
