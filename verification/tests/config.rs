use temprix::config::{
    add_root, config_path, default_history_path, discover_config, discover_roots,
    history_dir_for_project, log_path, needs_child_scan, remove_root, simple_hash, temprix_dir,
    ChildEntry, Config, HomeEntry,
};

fn cfg(roots: &[&str]) -> Config {
    Config {
        roots: roots.iter().map(|r| r.to_string()).collect(),
        discovered_projects: 3,
        history_path: "/h".to_string(),
    }
}

#[test]
fn tool_files_live_under_home() {
    assert_eq!(temprix_dir("/Users/raj"), "/Users/raj/.temprix");
    assert_eq!(config_path("/Users/raj"), "/Users/raj/.temprix/config.json");
    assert_eq!(log_path("/Users/raj"), "/Users/raj/.temprix/logs/daemon.log");
    assert_eq!(default_history_path("/Users/raj/"), "/Users/raj/.temprix/history");
}

#[test]
fn hash_is_sixteen_bit_djb2() {
    assert_eq!(simple_hash(""), 0x1505);
    assert_eq!(simple_hash("/Users/raj/Codebase/myapp"), 0x940d);
    assert_ne!(simple_hash("a"), simple_hash("b"));
    // the hash runs over UTF-8 bytes
    assert_eq!(simple_hash("/Users/zoë/código"), 0x5c37);
}

#[test]
fn project_history_dir_uses_last_two_components() {
    assert_eq!(
        history_dir_for_project("/h", "/Users/raj/Codebase/myapp"),
        "/h/Codebase__myapp-940d"
    );
    assert_eq!(history_dir_for_project("/h", "relative"), "/h/relative-e561");
    assert_eq!(history_dir_for_project("/h", ""), "/h/unknown-1505");
    // the root "/" is not part of the name; a leading "." is
    assert_eq!(history_dir_for_project("/h", "/myapp"), "/h/myapp-ee9b");
    assert_eq!(history_dir_for_project("/h", "/a"), "/h/a-70b5");
    assert_eq!(history_dir_for_project("/h", "/"), "/h/unknown-b5d4");
    assert_eq!(history_dir_for_project("/h/", "./proj"), "/h/.__proj-2f7d");
}

#[test]
fn add_and_remove_roots() {
    let mut c = cfg(&["/a", "/b"]);
    assert_eq!(add_root(&mut c, "/c"), Ok(()));
    assert_eq!(c.roots, vec!["/a", "/b", "/c"]);
    assert_eq!(add_root(&mut c, "/a/"), Err("Already tracking: /a/".to_string()));
    assert_eq!(c.roots, vec!["/a", "/b", "/c"]);
    assert_eq!(remove_root(&mut c, "/c"), Ok(()));
    assert_eq!(c.roots, vec!["/a", "/b"]);
    assert_eq!(remove_root(&mut c, "/zzz"), Err("Not tracking: /zzz".to_string()));
    assert_eq!(c.roots, vec!["/a", "/b"]);
    assert_eq!(c.discovered_projects, 3);
    assert_eq!(c.history_path, "/h");
}

#[test]
fn remove_takes_out_every_copy() {
    let mut c = cfg(&["/a", "/b", "/a/"]);
    assert_eq!(remove_root(&mut c, "/a"), Ok(()));
    assert_eq!(c.roots, vec!["/b"]);
}

fn child(name: &str, is_dir: bool, has_marker: bool) -> ChildEntry {
    ChildEntry { name: Some(name.to_string()), is_dir, has_marker }
}

fn entry(name: &str, is_dir: bool, has_marker: bool, children: Vec<ChildEntry>) -> HomeEntry {
    HomeEntry {
        name: name.to_string(),
        path: format!("/home/{}", name),
        is_dir,
        has_marker,
        children,
    }
}

#[test]
fn discovery_finds_projects_and_project_hubs() {
    let entries = vec![
        entry("myapp", true, true, vec![]),
        entry("Codebase", true, false, vec![
            child("a", true, true),
            child("b", true, true),
            child("c", true, true),
        ]),
        entry("Library", true, true, vec![]),
        entry("notes.txt", false, false, vec![]),
        entry("Downloads", true, false, vec![child("x", true, true), child(".y", true, true)]),
        entry("Work", true, false, vec![
            ChildEntry { name: None, is_dir: true, has_marker: true },
            child("f", false, true),
            child("g", true, false),
        ]),
    ];
    let (roots, count) = discover_roots(&entries);
    assert_eq!(roots, vec!["/home/myapp", "/home/Codebase"]);
    assert_eq!(count, 3);
    let c = discover_config("/home", &entries);
    assert_eq!(c.roots, roots);
    assert_eq!(c.discovered_projects, 3);
    assert_eq!(c.history_path, "/home/.temprix/history");
}

#[test]
fn child_scan_only_for_unmarked_directories() {
    assert!(needs_child_scan("Codebase", true, false));
    assert!(!needs_child_scan("Codebase", true, true));
    assert!(!needs_child_scan("Codebase", false, false));
    assert!(!needs_child_scan(".cargo", true, false));
}
