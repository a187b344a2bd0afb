//! The values that the operations on a vault take and give back.
use vstd::prelude::*;
use crate::storage::Settings;

verus! {

/// Save a note's text, then clean up its assets where the settings ask so.
#[derive(Debug, Clone)]
pub struct SaveNoteRequest {
    pub settings: Settings,
    pub note_path: String,
    pub markdown: String,
}

/// Save an image, given as base64, beside a note.
#[derive(Debug, Clone)]
pub struct SaveImageRequest {
    pub settings: Settings,
    pub note_path: String,
    pub base64: String,
    pub extension: String,
}

/// Save an attachment, given as base64, beside a note.
#[derive(Debug, Clone)]
pub struct SaveAttachmentRequest {
    pub settings: Settings,
    pub note_path: String,
    pub base64: String,
    pub original_name: String,
}

/// Delete the assets of a note that its text no longer references.
#[derive(Debug, Clone)]
pub struct CleanupRequest {
    pub settings: Settings,
    pub note_path: String,
    pub markdown: String,
}

/// Open a file of the vault with the system's default application.
#[derive(Debug, Clone)]
pub struct OpenFileRequest {
    pub settings: Settings,
    pub relative_path: String,
}

/// Where a saved image went, relative to the vault.
#[derive(Debug, Clone)]
pub struct SaveImageResponse {
    pub relative_path: String,
}

/// Where a saved attachment went, relative to the vault, and the name to
/// show for it.
#[derive(Debug, Clone)]
pub struct SaveAttachmentResponse {
    pub relative_path: String,
    pub display_name: String,
}

} // verus!
