use temprix::path::{
    components, extension, file_name, join, parent, path_eq, starts_with, stem, strip_prefix,
};

#[test]
fn components_drop_empty_and_dot_pieces() {
    assert_eq!(components("/a//b/./c/"), vec!["/", "a", "b", "c"]);
    assert_eq!(components("./x"), vec![".", "x"]);
    assert_eq!(components("."), vec!["."]);
    assert_eq!(components(""), Vec::<String>::new());
    assert_eq!(components("a/../b"), vec!["a", "..", "b"]);
    assert_eq!(components("/"), vec!["/"]);
}

#[test]
fn join_follows_path_rules() {
    assert_eq!(join("a", "b"), "a/b");
    assert_eq!(join("a/", "b"), "a/b");
    assert_eq!(join("", "b"), "b");
    assert_eq!(join("a", "/b"), "/b");
    assert_eq!(join("a", ""), "a/");
}

#[test]
fn parent_steps_up_one_component() {
    assert_eq!(parent("/a/b"), Some("/a".to_string()));
    assert_eq!(parent("/a"), Some("/".to_string()));
    assert_eq!(parent("/"), None);
    assert_eq!(parent("a"), Some("".to_string()));
    assert_eq!(parent(""), None);
    assert_eq!(parent("./a"), Some(".".to_string()));
}

#[test]
fn file_names_stems_and_extensions() {
    assert_eq!(file_name("a/b.txt"), Some("b.txt".to_string()));
    assert_eq!(file_name("a/.."), None);
    assert_eq!(file_name("/"), None);
    assert_eq!(extension(".env"), None);
    assert_eq!(extension("a.tar.gz"), Some("gz".to_string()));
    assert_eq!(extension("a."), Some("".to_string()));
    assert_eq!(extension("noext"), None);
    assert_eq!(stem("a.tar.gz"), "a.tar");
    assert_eq!(stem(".env"), ".env");
    assert_eq!(stem("App.tsx"), "App");
}

#[test]
fn prefixes_compare_whole_components() {
    assert!(starts_with("/a/b/c", "/a"));
    assert!(!starts_with("/ab", "/a"));
    assert!(starts_with("/a/b", "/a/b/"));
    assert_eq!(strip_prefix("/a/b/c", "/a"), Some("b/c".to_string()));
    assert_eq!(strip_prefix("/a/b", "/a/b"), Some("".to_string()));
    assert_eq!(strip_prefix("/a", "/b"), None);
    assert!(path_eq("/a//b/", "/a/b"));
    assert!(!path_eq("/a/b", "a/b"));
}

#[test]
fn parent_keeps_the_spelling_of_the_path() {
    assert_eq!(parent("/w//myapp/x"), Some("/w//myapp".to_string()));
    assert_eq!(parent("/a//b"), Some("/a".to_string()));
    assert_eq!(parent("a/./b/"), Some("a".to_string()));
    assert_eq!(parent("a/b/."), Some("a".to_string()));
    assert_eq!(parent("//a"), Some("/".to_string()));
    assert_eq!(parent("."), Some("".to_string()));
    assert_eq!(parent("./"), Some("".to_string()));
    assert_eq!(parent(".."), Some("".to_string()));
    assert_eq!(parent("a/.."), Some("a".to_string()));
    assert_eq!(parent("//"), None);
}

#[test]
fn strip_prefix_keeps_the_spelling_of_the_rest() {
    assert_eq!(strip_prefix("/a//b//c/", "/a"), Some("b//c".to_string()));
    assert_eq!(strip_prefix("/a/./b/c", "/a/"), Some("b/c".to_string()));
    assert_eq!(strip_prefix("/a/b", "/"), Some("a/b".to_string()));
    assert_eq!(strip_prefix("./x/y/", ""), Some("./x/y".to_string()));
    assert_eq!(strip_prefix("./x", "."), Some("x".to_string()));
    assert_eq!(strip_prefix("a/b/", "a/b"), Some("".to_string()));
    assert_eq!(strip_prefix("/a/b", "a"), None);
}
