use xpak::metadata::FileInfo;
use xpak::pak::record_path_of;
use xpak::text::{base_name_of, normalize_separators, normalized_char_of, path_leaves_root};

#[test]
fn backslashes_become_forward_slashes() {
    assert_eq!(normalize_separators("a\\b\\c.txt"), "a/b/c.txt");
    assert_eq!(normalize_separators("a/b\\c"), "a/b/c");
    assert_eq!(normalize_separators(""), "");
    assert_eq!(normalize_separators("päth\\ü"), "päth/ü");
    assert_eq!(normalized_char_of('\\'), '/');
    assert_eq!(normalized_char_of('x'), 'x');
}

#[test]
fn base_name_is_what_follows_the_last_slash() {
    assert_eq!(base_name_of("a/b/c.txt"), "c.txt");
    assert_eq!(base_name_of("c.txt"), "c.txt");
    assert_eq!(base_name_of("a/"), "");
    assert_eq!(base_name_of(""), "");
    assert_eq!(base_name_of("/x"), "x");
}

#[test]
fn file_info_new_normalizes_the_path() {
    let info = FileInfo::new("dir\\sub\\file.bin", 42);
    assert_eq!(info.path, "dir/sub/file.bin");
    assert_eq!(info.size, 42);
    assert_eq!(FileInfo::new("plain", 0), FileInfo { path: "plain".to_string(), size: 0 });
}

#[test]
fn record_path_is_flat_on_demand() {
    assert_eq!(record_path_of("a\\b\\c.txt", false), "a/b/c.txt");
    assert_eq!(record_path_of("a\\b\\c.txt", true), "c.txt");
    assert_eq!(record_path_of("a/b/c.txt", true), "c.txt");
    assert_eq!(record_path_of("c.txt", true), "c.txt");
}

#[test]
fn paths_that_leave_the_root_are_told() {
    assert!(path_leaves_root("/etc/passwd"));
    assert!(path_leaves_root("\\windows"));
    assert!(path_leaves_root(".."));
    assert!(path_leaves_root("../x"));
    assert!(path_leaves_root("a/../../x"));
    assert!(path_leaves_root("a\\..\\x"));
    assert!(path_leaves_root("a/.."));
    assert!(!path_leaves_root(""));
    assert!(!path_leaves_root("a/b.txt"));
    assert!(!path_leaves_root("a/..b/c"));
    assert!(!path_leaves_root("a/b../c"));
    assert!(!path_leaves_root("a/.../c"));
    assert!(!path_leaves_root("..."));
    assert!(!path_leaves_root("./a"));
}
