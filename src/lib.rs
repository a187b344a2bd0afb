//! Storage core of a note vault: date-partitioned asset directories,
//! markdown asset references, and the reconciliation of assets on disk
//! against the references of a note.
pub mod assets;
pub mod markdown;
pub mod path;
pub mod reconcile;
pub mod requests;
pub mod storage;
pub mod text;
