use passmumbler::pass::{entries_from_paths, entry_of_path, list_entries, store_glob, text_less};

#[test]
fn entry_of_path_strips_root_and_ending() {
    let root = "/home/u/.password-store/";
    assert_eq!(
        entry_of_path(root, "/home/u/.password-store/web/a.com.gpg"),
        Some("web/a.com".to_string())
    );
    assert_eq!(entry_of_path(root, "/home/u/.password-store/.gpg"), None);
    assert_eq!(entry_of_path(root, "/home/u/.password-store/x.txt"), None);
    assert_eq!(entry_of_path(root, "/elsewhere/x.gpg"), None);
    assert_eq!(entry_of_path(root, "/home/u/.password-store/x.gp"), None);
}

#[test]
fn entries_are_sorted_and_unique() {
    let root = "/r/";
    let paths = vec![
        Some("/r/b.gpg".to_string()),
        Some("/r/a/x.gpg".to_string()),
        None,
        Some("/r/b.gpg".to_string()),
        Some("/other/c.gpg".to_string()),
        Some("/r/A.gpg".to_string()),
        Some("/r/a.gpg".to_string()),
        Some("/r/d.txt".to_string()),
    ];
    let r = entries_from_paths(root, paths);
    assert_eq!(r, vec!["A".to_string(), "a".to_string(), "a/x".to_string(), "b".to_string()]);
}

#[test]
fn text_order_is_byte_order() {
    assert!(text_less("a", "b"));
    assert!(text_less("a", "ab"));
    assert!(!text_less("ab", "a"));
    assert!(!text_less("a", "a"));
    assert!(text_less("Z", "a"));
    assert!(text_less("z", "\u{e9}"));
    assert!(text_less("", "a"));
}

#[test]
fn listed_entries_are_sorted_and_named() {
    let entries = list_entries();
    for pair in entries.windows(2) {
        assert!(pair[0] < pair[1]);
    }
    for e in &entries {
        assert!(!e.is_empty());
        assert!(!e.ends_with(".gpg"));
    }
}

#[test]
fn entry_may_not_start_with_a_slash() {
    assert_eq!(entry_of_path("/r/", "/r//x.gpg"), None);
    assert_eq!(entry_of_path("/r/", "/r/x/y.gpg"), Some("x/y".to_string()));
}

#[test]
fn store_glob_builds_root_and_pattern() {
    let (root, pattern) = store_glob("/home/u");
    assert_eq!(root, "/home/u/.password-store/");
    assert_eq!(pattern, "/home/u/.password-store/**/*.gpg");
    let (root, pattern) = store_glob("/");
    assert_eq!(root, "/.password-store/");
    assert_eq!(pattern, "/.password-store/**/*.gpg");
}
