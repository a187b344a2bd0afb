use std::collections::HashSet;
use vault_store::markdown::{extract_asset_paths, is_white_space_char, normalize_link_target};

fn set(items: &[&str]) -> HashSet<String> {
    items.iter().map(|s| s.to_string()).collect()
}

fn extracted(md: &str) -> HashSet<String> {
    let v = extract_asset_paths(md);
    let s: HashSet<String> = v.iter().cloned().collect();
    assert_eq!(s.len(), v.len(), "duplicates in {v:?}");
    s
}

#[test]
fn images_and_links_without_remote_targets() {
    let md = "![a](img/x.png) and [b](https://example.com) and [c](<docs/y.pdf>)";
    assert_eq!(extracted(md), set(&["img/x.png", "docs/y.pdf"]));
}

#[test]
fn remote_targets_are_never_returned() {
    let md = "[a](http://x.org) [b](https://y.org/p) [c](mailto:me@z.org) ![d]( https://i.org/p.png )";
    assert!(extracted(md).is_empty());
    let md = "[a](http://x.org) [b](local.txt)";
    for r in extracted(md) {
        assert!(!r.starts_with("http://") && !r.starts_with("https://") && !r.starts_with("mailto:"));
    }
}

#[test]
fn first_closing_parenthesis_ends_target() {
    assert_eq!(extracted("[a](x(1).png)"), set(&["x(1"]));
}

#[test]
fn image_with_empty_alt_is_found() {
    assert_eq!(extracted("![](pic.png)"), set(&["pic.png"]));
}

#[test]
fn link_with_empty_label_is_not_found() {
    assert!(extracted("[](file.pdf)").is_empty());
}

#[test]
fn same_target_is_returned_once() {
    assert_eq!(extracted("![a](p.png) [b](p.png) [c]( p.png )"), set(&["p.png"]));
}

#[test]
fn backslashes_become_forward_slashes() {
    assert_eq!(extracted(r"[a](dir\sub\f.txt)"), set(&["dir/sub/f.txt"]));
}

#[test]
fn empty_target_and_plain_text_give_nothing() {
    assert!(extracted("").is_empty());
    assert!(extracted("[a]() and (x) and [b] (y)").is_empty());
}

#[test]
fn link_target_is_trimmed_and_unwrapped() {
    assert_eq!(normalize_link_target("  <a b.png>\t"), Some("a b.png".to_string()));
    assert_eq!(normalize_link_target("<a"), Some("<a".to_string()));
    assert_eq!(normalize_link_target("https://x"), None);
    assert_eq!(normalize_link_target(" mailto:x"), None);
    assert_eq!(normalize_link_target("\u{3000}x\u{a0}"), Some("x".to_string()));
}

#[test]
fn white_space_matches_std() {
    for u in 0u32..0x3100 {
        if let Some(c) = char::from_u32(u) {
            assert_eq!(is_white_space_char(c), c.is_whitespace(), "char {u:#x}");
        }
    }
}
