use temprix::exclude::is_excluded;

#[test]
fn excludes_git_directory() {
    assert!(is_excluded(".git/config"));
    assert!(is_excluded("src/.git/objects/abc"));
}

#[test]
fn excludes_node_modules() {
    assert!(is_excluded("node_modules/express/index.js"));
    assert!(is_excluded("packages/core/node_modules/lodash/fp.js"));
}

#[test]
fn excludes_history_dir() {
    assert!(is_excluded(".history/src/app_20260322.js"));
}

#[test]
fn excludes_known_files() {
    assert!(is_excluded(".DS_Store"));
    assert!(is_excluded("package-lock.json"));
    assert!(is_excluded("yarn.lock"));
}

#[test]
fn excludes_binary_extensions() {
    assert!(is_excluded("main.o"));
    assert!(is_excluded("lib.dylib"));
    assert!(is_excluded("module.pyc"));
    assert!(is_excluded("App.class"));
}

#[test]
fn allows_source_files() {
    assert!(!is_excluded("src/app.js"));
    assert!(!is_excluded("main.rs"));
    assert!(!is_excluded("utils/helper.py"));
    assert!(!is_excluded("deep/nested/file.tsx"));
}

#[test]
fn allows_config_files() {
    assert!(!is_excluded("package.json"));
    assert!(!is_excluded("tsconfig.json"));
    assert!(!is_excluded(".env"));
    assert!(!is_excluded("Cargo.toml"));
}

#[test]
fn excludes_build_dirs() {
    assert!(is_excluded("dist/bundle.js"));
    assert!(is_excluded("build/output.css"));
    assert!(is_excluded("target/debug/binary"));
    assert!(is_excluded("__pycache__/mod.cpython.pyc"));
}

#[test]
fn excluded_by_component_anywhere() {
    assert!(is_excluded("a/b/target"));
    assert!(is_excluded("/abs/venv/lib/x.py"));
    assert!(!is_excluded("targets/x.rs"));
    assert!(!is_excluded("gittish/.gitignore"));
}

#[test]
fn extension_rules_follow_file_names() {
    // a leading dot alone is no extension
    assert!(!is_excluded(".o"));
    assert!(is_excluded("x.tar.so"));
    assert!(!is_excluded("so"));
    assert!(is_excluded("dir.o/"));
    assert!(is_excluded("dir.o/file.exe"));
    assert!(!is_excluded(""));
    assert!(!is_excluded("src/.."));
}
