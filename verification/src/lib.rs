//! Notebook document synchronization for language servers: the protocol's
//! notebook messages, the rule by which a server's options select a
//! notebook, and the registry that gives notebook cells their documents and
//! decides which servers hear of a notebook being saved or closed.
pub mod protocol;
pub mod text_document;
pub mod file_names;
pub mod store;
