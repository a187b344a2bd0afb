use vault_store::path::{join_path, normalize_relative_path};
use vault_store::storage::{vault_absolute_path, Settings};

fn settings(vault: &str) -> Settings {
    Settings {
        vault_path: vault.to_string(),
        notes_folder: "notes".to_string(),
        assets_folder: "assets".to_string(),
        naming_strategy: "date".to_string(),
        auto_cleanup_assets: true,
    }
}

#[test]
fn normalize_drops_repeated_separators_and_dots() {
    assert_eq!(normalize_relative_path("a//b/./c/"), "a/b/c");
    assert_eq!(normalize_relative_path("assets/2024/2024-01-05/img.png"), "assets/2024/2024-01-05/img.png");
}

#[test]
fn same_logical_path_normalizes_alike() {
    for p in ["a/b", "./a/b", "a/./b", "a//b/", "./a//./b/."] {
        assert_eq!(normalize_relative_path(p), "a/b", "path {p}");
    }
}

#[test]
fn absolute_path_keeps_one_leading_separator() {
    assert_eq!(normalize_relative_path("/a/b"), "/a/b");
    assert_eq!(normalize_relative_path("//a/./b/"), "/a/b");
    assert_eq!(normalize_relative_path("/"), "/");
    assert_eq!(normalize_relative_path("../a"), "../a");
}

#[test]
fn normalize_of_empty_path_is_empty() {
    assert_eq!(normalize_relative_path(""), "");
    assert_eq!(normalize_relative_path("."), "");
    assert_eq!(normalize_relative_path("./"), "");
}

#[test]
fn normalize_twice_is_normalize_once() {
    for p in ["a//b/./c/", "./x/y", "/v/./a", ".", "", "a/../b", "//a"] {
        let once = normalize_relative_path(p);
        assert_eq!(normalize_relative_path(&once), once, "path {p}");
    }
}

#[test]
fn join_follows_path_join() {
    assert_eq!(join_path("a", "b"), "a/b");
    assert_eq!(join_path("a/", "b"), "a/b");
    assert_eq!(join_path("", "b"), "b");
    assert_eq!(join_path("a", "/b"), "/b");
    assert_eq!(join_path("a", ""), "a/");
}

#[test]
fn vault_absolute_path_joins_under_root() {
    let s = settings("/home/me/vault");
    assert_eq!(vault_absolute_path(&s, "notes/2024-01-05-trip.md"), "/home/me/vault/notes/2024-01-05-trip.md");
    assert_eq!(vault_absolute_path(&s, "/tmp/x.pdf"), "/tmp/x.pdf");
}
