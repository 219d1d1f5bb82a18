//! Notes storage and lifecycle engine.
//!
//! Each note's metadata (title, preview, ordering, pin/trash state,
//! timestamps) lives in a relational store while the note's content lives in
//! a file the engine either owns (a draft) or the user chose (a saved file).
//! This crate holds the verified core: the metadata store and its invariants,
//! the draft/saved dual-storage model, the trash/expiry state machine,
//! pin/ordering management, title/preview derivation, and the decisions of
//! the scoped-file-access layer.

pub mod clock;
pub mod derive;
pub mod error;
pub mod expiry;
pub mod idgen;
pub mod laws;
pub mod lifecycle;
pub mod list;
pub mod ordering;
pub mod scoped;
pub mod settings;
pub mod store;
pub mod trash;
pub mod types;
