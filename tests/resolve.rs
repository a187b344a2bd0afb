use vault_store::storage::{resolve_note_context, Settings, StorageError};

fn settings() -> Settings {
    Settings {
        vault_path: "/vault".to_string(),
        notes_folder: "notes".to_string(),
        assets_folder: "assets".to_string(),
        naming_strategy: "date".to_string(),
        auto_cleanup_assets: false,
    }
}

fn invalid(name: &str) -> StorageError {
    StorageError::InvalidNotePath(name.to_string())
}

#[test]
fn dated_note_resolves_to_year_and_date() {
    let ctx = resolve_note_context(&settings(), "notes/2024-01-05-trip.md").unwrap();
    assert_eq!(ctx.assets_dir_relative, "assets/2024/2024-01-05");
    assert_eq!(ctx.assets_dir, "/vault/assets/2024/2024-01-05");
}

#[test]
fn dated_note_without_title_resolves() {
    let ctx = resolve_note_context(&settings(), "2024-03-02").unwrap();
    assert_eq!(ctx.assets_dir_relative, "assets/2024/2024-03-02");
    let ctx = resolve_note_context(&settings(), "a/b/1999-12-31-x-y-z.md").unwrap();
    assert_eq!(ctx.assets_dir_relative, "assets/1999/1999-12-31");
}

#[test]
fn undated_note_is_refused_with_its_name() {
    assert_eq!(resolve_note_context(&settings(), "notes/draft-idea-notes.md").unwrap_err(), invalid("draft-idea-notes.md"));
    assert_eq!(resolve_note_context(&settings(), "notes/2024-01-xx.md").unwrap_err(), invalid("2024-01-xx.md"));
}

#[test]
fn note_with_fewer_than_three_pieces_is_refused() {
    assert_eq!(resolve_note_context(&settings(), "notes/2024-01.md").unwrap_err(), invalid("2024-01.md"));
    assert_eq!(resolve_note_context(&settings(), "readme.md").unwrap_err(), invalid("readme.md"));
}

#[test]
fn date_followed_by_extension_is_refused() {
    assert_eq!(resolve_note_context(&settings(), "2024-01-05.md").unwrap_err(), invalid("2024-01-05.md"));
}

#[test]
fn too_short_date_is_refused() {
    assert_eq!(resolve_note_context(&settings(), "1--").unwrap_err(), invalid("1--"));
    let ctx = resolve_note_context(&settings(), "1-2-3").unwrap();
    assert_eq!(ctx.assets_dir_relative, "assets/1-2-/1-2-3");
}

#[test]
fn path_without_file_name_is_refused_whole() {
    assert_eq!(resolve_note_context(&settings(), "").unwrap_err(), invalid(""));
    assert_eq!(resolve_note_context(&settings(), "/").unwrap_err(), invalid("/"));
    assert_eq!(resolve_note_context(&settings(), "notes/..").unwrap_err(), invalid("notes/.."));
}
