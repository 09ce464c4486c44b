use temprix::resolve::Resolver;

fn markers_for(chain: &[String], marked_dirs: &[&str]) -> Vec<bool> {
    chain.iter().map(|d| marked_dirs.contains(&d.as_str())).collect()
}

#[test]
fn finds_project_root_by_git_marker() {
    let file = "/tmp/t/myapp/src/components/App.tsx";
    let chain = Resolver::chain(file, "/tmp/t");
    assert_eq!(chain, vec!["/tmp/t/myapp/src/components", "/tmp/t/myapp/src", "/tmp/t/myapp", "/tmp/t"]);
    let mut r = Resolver::new();
    let root = r.resolve(file, "/tmp/t", &markers_for(&chain, &["/tmp/t/myapp"]));
    assert_eq!(root, "/tmp/t/myapp");
}

#[test]
fn remembers_resolved_root() {
    let mut r = Resolver::new();
    let f1 = "/tmp/t/myapp/src/a.js";
    let chain = Resolver::chain(f1, "/tmp/t");
    assert_eq!(r.resolve(f1, "/tmp/t", &markers_for(&chain, &["/tmp/t/myapp"])), "/tmp/t/myapp");
    assert_eq!(r.lookup("/tmp/t/myapp/src/b.js"), Some("/tmp/t/myapp".to_string()));
    // a second file in the same folder is answered from memory, whatever the markers say now
    let f2 = "/tmp/t/myapp/src/b.js";
    let chain2 = Resolver::chain(f2, "/tmp/t");
    assert_eq!(r.resolve(f2, "/tmp/t", &vec![false; chain2.len()]), "/tmp/t/myapp");
    // folders above the root were not walked through
    assert_eq!(r.lookup("/tmp/t/x.txt"), None);
}

#[test]
fn falls_back_to_watched_root() {
    let mut r = Resolver::new();
    let file = "/tmp/t/random/file.txt";
    let chain = Resolver::chain(file, "/tmp/t");
    assert_eq!(chain, vec!["/tmp/t/random", "/tmp/t"]);
    assert_eq!(r.resolve(file, "/tmp/t", &vec![false, false]), "/tmp/t");
    assert_eq!(r.lookup("/tmp/t/random/other"), Some("/tmp/t".to_string()));
    assert_eq!(r.lookup("/tmp/t/other"), Some("/tmp/t".to_string()));
}

#[test]
fn nested_projects_resolve_to_the_nearest() {
    let mut r = Resolver::new();
    let file = "/tmp/t/mono/packages/core/src/index.ts";
    let chain = Resolver::chain(file, "/tmp/t");
    let marked = markers_for(&chain, &["/tmp/t/mono", "/tmp/t/mono/packages/core"]);
    assert_eq!(r.resolve(file, "/tmp/t", &marked), "/tmp/t/mono/packages/core");
}

#[test]
fn files_outside_the_watched_root() {
    let mut r = Resolver::new();
    assert!(Resolver::chain("/elsewhere/f.txt", "/tmp/t").is_empty());
    assert_eq!(r.resolve("/elsewhere/f.txt", "/tmp/t", &vec![]), "/tmp/t");
    assert_eq!(r.lookup("/elsewhere/g.txt"), None);
    assert_eq!(r.resolve("/", "/tmp/t", &vec![]), "/tmp/t");
}

#[test]
fn walked_folders_keep_the_spelling_of_the_file_path() {
    let mut r = Resolver::new();
    let file = "/tmp/t//myapp/src/a.js";
    let chain = Resolver::chain(file, "/tmp/t");
    assert_eq!(chain, vec!["/tmp/t//myapp/src", "/tmp/t//myapp", "/tmp/t"]);
    let root = r.resolve(file, "/tmp/t", &markers_for(&chain, &["/tmp/t//myapp"]));
    assert_eq!(root, "/tmp/t//myapp");
    // the same folder, spelled another way, is found in memory
    assert_eq!(r.lookup("/tmp/t/myapp/./src/b.js"), Some("/tmp/t//myapp".to_string()));
}
