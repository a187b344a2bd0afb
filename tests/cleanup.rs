use std::collections::HashSet;
use vault_store::reconcile::{files_to_delete, normalized_reference_set, plan_cleanup};
use vault_store::storage::{resolve_note_context, Settings, StorageError};

fn settings() -> Settings {
    Settings {
        vault_path: "/vault".to_string(),
        notes_folder: "notes".to_string(),
        assets_folder: "assets".to_string(),
        naming_strategy: "date".to_string(),
        auto_cleanup_assets: true,
    }
}

fn names(items: &[&str]) -> Vec<String> {
    items.iter().map(|s| s.to_string()).collect()
}

#[test]
fn cleanup_keeps_only_referenced_asset() {
    let files = names(&["img_a.png", "img_b.png", "file_c.pdf"]);
    let md = "A trip. ![a](assets/2024/2024-01-05/img_a.png)";
    let plan = plan_cleanup(&settings(), "notes/2024-01-05-trip.md", md, &files).unwrap();
    assert_eq!(plan, names(&["img_b.png", "file_c.pdf"]));
    let left: Vec<String> = files.into_iter().filter(|f| !plan.contains(f)).collect();
    assert_eq!(left, names(&["img_a.png"]));
}

#[test]
fn second_cleanup_deletes_nothing() {
    let files = names(&["x.png", "y.png", "z.pdf"]);
    let md = "[x](assets/2024/2024-02-01/x.png) [z](assets//2024/2024-02-01/z.pdf)";
    let first = plan_cleanup(&settings(), "2024-02-01-a.md", md, &files).unwrap();
    assert_eq!(first, names(&["y.png"]));
    let left: Vec<String> = files.into_iter().filter(|f| !first.contains(f)).collect();
    let second = plan_cleanup(&settings(), "2024-02-01-a.md", md, &left).unwrap();
    assert!(second.is_empty());
}

#[test]
fn absolute_reference_inside_vault_is_kept() {
    let md = "![p](/vault/assets/2024/2024-01-05/p.png) ![q](/elsewhere/assets/2024/2024-01-05/q.png)";
    let keep: HashSet<String> = normalized_reference_set(&settings(), md).into_iter().collect();
    assert!(keep.contains("assets/2024/2024-01-05/p.png"));
    assert!(keep.contains("/elsewhere/assets/2024/2024-01-05/q.png"));
    let ctx = resolve_note_context(&settings(), "2024-01-05-n.md").unwrap();
    let plan = files_to_delete(&ctx, &keep.into_iter().collect(), &names(&["p.png", "q.png"]));
    assert_eq!(plan, names(&["q.png"]));
}

#[test]
fn reference_keys_are_normalized_and_unique() {
    let md = "[a](a//b.png) [b](a/./b.png) [c](<a/b.png>)";
    assert_eq!(normalized_reference_set(&settings(), md), names(&["a/b.png"]));
}

#[test]
fn cleanup_of_undated_note_is_refused() {
    let err = plan_cleanup(&settings(), "notes/ideas.md", "", &names(&["a.png"])).unwrap_err();
    assert_eq!(err, StorageError::InvalidNotePath("ideas.md".to_string()));
}

#[test]
fn cleanup_with_empty_markdown_deletes_all() {
    let files = names(&["a.png", "b.png"]);
    let plan = plan_cleanup(&settings(), "2024-01-05-n.md", "", &files).unwrap();
    assert_eq!(plan, files);
}

#[test]
fn reference_opening_with_current_dir_matches() {
    let files = names(&["z.pdf"]);
    let md = "[z](./assets/2024/2024-02-01/z.pdf)";
    let plan = plan_cleanup(&settings(), "2024-02-01-a.md", md, &files).unwrap();
    assert!(plan.is_empty());
}

#[test]
fn empty_vault_root_strips_nothing() {
    let mut s = settings();
    s.vault_path = String::new();
    let keep = normalized_reference_set(&s, "[a](/x/y.png)");
    assert_eq!(keep, names(&["/x/y.png"]));
}
