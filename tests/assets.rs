use vault_store::assets::{
    asset_name_with_token, asset_relative_path, attachment_extension, decode_payload, plan_asset_save,
    plan_new_asset, unique_asset_name,
};
use vault_store::storage::{resolve_note_context, Settings, StorageError};

fn settings() -> Settings {
    Settings {
        vault_path: "/vault".to_string(),
        notes_folder: "notes".to_string(),
        assets_folder: "assets".to_string(),
        naming_strategy: "date".to_string(),
        auto_cleanup_assets: false,
    }
}

const PNG_BASE64: &str = "iVBORw0KGgoAAAANSUhEUgAAAAEAAAABCAYAAAAfFcSJAAAADUlEQVR42mNkYPhfDwAChwGA60e6kgAAAABJRU5ErkJggg==";

fn is_token(t: &str) -> bool {
    t.len() == 36
        && t.char_indices().all(|(i, c)| {
            if [8, 13, 18, 23].contains(&i) {
                c == '-'
            } else {
                c.is_ascii_digit() || ('a'..='f').contains(&c)
            }
        })
}

#[test]
fn save_image_places_file_under_dated_directory() {
    let ctx = resolve_note_context(&settings(), "2024-03-02-log.md").unwrap();
    assert_eq!(ctx.assets_dir, "/vault/assets/2024/2024-03-02");
    let name = unique_asset_name("img", "png");
    assert!(name.starts_with("img_") && name.ends_with(".png"));
    assert!(is_token(&name[4..name.len() - 4]));
    let bytes = decode_payload(PNG_BASE64).unwrap();
    assert_eq!(&bytes[..8], &[0x89, b'P', b'N', b'G', 0x0d, 0x0a, 0x1a, 0x0a]);
    let rel = asset_relative_path(&ctx, &name);
    assert_eq!(rel, format!("assets/2024/2024-03-02/{name}"));
}

#[test]
fn unique_names_differ() {
    assert_ne!(unique_asset_name("file", "pdf"), unique_asset_name("file", "pdf"));
}

#[test]
fn leading_dots_of_extension_are_dropped() {
    assert_eq!(asset_name_with_token("img", "t", "..png"), "img_t.png");
    assert_eq!(asset_name_with_token("file", "t", ""), "file_t.");
    let name = unique_asset_name("img", ".jpg");
    assert!(name.ends_with(".jpg") && !name.ends_with("..jpg"));
}

#[test]
fn attachment_extension_follows_last_dot() {
    assert_eq!(attachment_extension("report.final.pdf"), "pdf");
    assert_eq!(attachment_extension("dir/a.tar.gz"), "gz");
    assert_eq!(attachment_extension("name."), "");
}

#[test]
fn attachment_without_extension_falls_back() {
    assert_eq!(attachment_extension("README"), "bin");
    assert_eq!(attachment_extension(".bashrc"), "bin");
    assert_eq!(attachment_extension(""), "bin");
    assert_eq!(attachment_extension(".."), "bin");
}

#[test]
fn decode_reads_base64() {
    assert_eq!(decode_payload("aGk=").unwrap(), b"hi".to_vec());
    assert_eq!(decode_payload("").unwrap(), Vec::<u8>::new());
}

#[test]
fn malformed_payload_is_a_decode_error() {
    assert!(matches!(decode_payload("not base64!"), Err(StorageError::Decode(_))));
    assert!(matches!(decode_payload("aGk"), Err(StorageError::Decode(_))));
}

#[test]
fn asset_plan_with_token() {
    let plan = plan_asset_save(&settings(), "notes/2024-03-02-log.md", "img", "png", "tok").unwrap();
    assert_eq!(plan.assets_dir, "/vault/assets/2024/2024-03-02");
    assert_eq!(plan.file_name, "img_tok.png");
    assert_eq!(plan.file_path, "/vault/assets/2024/2024-03-02/img_tok.png");
    assert_eq!(plan.relative_path, "assets/2024/2024-03-02/img_tok.png");
}

#[test]
fn new_asset_plan_uses_fresh_token() {
    let plan = plan_new_asset(&settings(), "2024-03-02-log.md", "img", "png").unwrap();
    let name = &plan.file_name;
    assert!(name.starts_with("img_") && name.ends_with(".png"));
    assert!(is_token(&name[4..name.len() - 4]));
    assert_eq!(plan.relative_path, format!("assets/2024/2024-03-02/{name}"));
    assert!(!plan.relative_path.contains('\\'));
}

#[test]
fn asset_plan_for_undated_note_is_refused() {
    let err = plan_asset_save(&settings(), "notes/ideas.md", "file", "pdf", "t").unwrap_err();
    assert_eq!(err, StorageError::InvalidNotePath("ideas.md".to_string()));
}
