//! Which changed paths are not worth versioning: dependency folders, build
//! output, version-control internals, editor settings, lock files, OS files
//! and compiled binaries.

use vstd::prelude::*;

use crate::path::{components, components_of, extension, extension_of, file_name, file_name_of, texts};
use crate::text::str_eq;

verus! {

/// Directories whose whole contents are skipped.
pub open spec fn excluded_dir_name(s: Seq<char>) -> bool {
    s == ".history"@
        || s == ".git"@
        || s == "node_modules"@
        || s == ".vscode"@
        || s == ".idea"@
        || s == "typings"@
        || s == "out"@
        || s == ".next"@
        || s == ".nuxt"@
        || s == "dist"@
        || s == "build"@
        || s == ".turbo"@
        || s == ".svn"@
        || s == ".hg"@
        || s == "venv"@
        || s == ".venv"@
        || s == "__pycache__"@
        || s == "target"@
        || s == ".gradle"@
        || s == ".cache"@
        || s == ".parcel-cache"@
        || s == "coverage"@
        || s == ".nyc_output"@
        || s == ".pytest_cache"@
}

/// File names that are skipped wherever they stand.
pub open spec fn excluded_file_name(s: Seq<char>) -> bool {
    s == ".DS_Store"@
        || s == "package-lock.json"@
        || s == "yarn.lock"@
        || s == "pnpm-lock.yaml"@
        || s == "Thumbs.db"@
        || s == "desktop.ini"@
}

/// Extensions (without the dot) of files that are skipped.
pub open spec fn excluded_extension(s: Seq<char>) -> bool {
    s == "pyc"@
        || s == "pyo"@
        || s == "o"@
        || s == "a"@
        || s == "dylib"@
        || s == "so"@
        || s == "class"@
        || s == "jar"@
        || s == "war"@
        || s == "dll"@
        || s == "exe"@
        || s == "obj"@
}

/// A path is excluded when one of its components is an excluded directory,
/// or its file name is an excluded file name or has an excluded extension.
pub open spec fn excluded(p: Seq<char>) -> bool {
    ||| exists|i: int| 0 <= i < components_of(p).len() && excluded_dir_name(#[trigger] components_of(p)[i])
    ||| match file_name_of(p) {
        Some(name) => excluded_file_name(name) || match extension_of(name) {
            Some(e) => excluded_extension(e),
            None => false,
        },
        None => false,
    }
}

/// A path that passes through a dependency, build, version-control,
/// editor or cache folder is excluded, at any depth: one of its components
/// is `.history`, `.git`, `node_modules`, `.vscode`, `.idea`, `typings`,
/// `out`, `.next`, `.nuxt`, `dist`, `build`, `.turbo`, `.svn`, `.hg`,
/// `venv`, `.venv`, `__pycache__`, `target`, `.gradle`, `.cache`,
/// `.parcel-cache`, `coverage`, `.nyc_output` or `.pytest_cache`.
pub proof fn lemma_excluded_folder_anywhere(p: Seq<char>, i: int, d: Seq<char>)
    requires
        0 <= i < components_of(p).len(),
        components_of(p)[i] == d,
        d == ".history"@
            || d == ".git"@
            || d == "node_modules"@
            || d == ".vscode"@
            || d == ".idea"@
            || d == "typings"@
            || d == "out"@
            || d == ".next"@
            || d == ".nuxt"@
            || d == "dist"@
            || d == "build"@
            || d == ".turbo"@
            || d == ".svn"@
            || d == ".hg"@
            || d == "venv"@
            || d == ".venv"@
            || d == "__pycache__"@
            || d == "target"@
            || d == ".gradle"@
            || d == ".cache"@
            || d == ".parcel-cache"@
            || d == "coverage"@
            || d == ".nyc_output"@
            || d == ".pytest_cache"@,
    ensures
        excluded(p),
{
    assert(excluded_dir_name(components_of(p)[i]));
}

/// A file whose extension is that of a compiled binary or library (`pyc`,
/// `pyo`, `o`, `a`, `dylib`, `so`, `class`, `jar`, `war`, `dll`, `exe`,
/// `obj`) is excluded in any folder.
pub proof fn lemma_excluded_extension_anywhere(p: Seq<char>, n: Seq<char>, e: Seq<char>)
    requires
        file_name_of(p) == Some(n),
        extension_of(n) == Some(e),
        e == "pyc"@
            || e == "pyo"@
            || e == "o"@
            || e == "a"@
            || e == "dylib"@
            || e == "so"@
            || e == "class"@
            || e == "jar"@
            || e == "war"@
            || e == "dll"@
            || e == "exe"@
            || e == "obj"@,
    ensures
        excluded(p),
{
}

/// An excluded file name is excluded wherever it lies: a path whose last
/// component is `.DS_Store`, `package-lock.json`, `yarn.lock`,
/// `pnpm-lock.yaml`, `Thumbs.db` or `desktop.ini` is excluded, in any folder.
pub proof fn lemma_excluded_file_name_anywhere(p: Seq<char>, n: Seq<char>)
    requires
        file_name_of(p) == Some(n),
        n == ".DS_Store"@ || n == "package-lock.json"@ || n == "yarn.lock"@ || n == "pnpm-lock.yaml"@
            || n == "Thumbs.db"@ || n == "desktop.ini"@,
    ensures
        excluded(p),
{
}

/// A path whose file name is an excluded file name is excluded, whatever
/// folders lie before it.
pub proof fn lemma_excluded_by_file_name(p: Seq<char>, n: Seq<char>)
    requires
        file_name_of(p) == Some(n),
        excluded_file_name(n),
    ensures
        excluded(p),
{
}

/// Whether a component names an excluded directory.
pub fn is_excluded_dir_name(s: &str) -> (r: bool)
    ensures
        r == excluded_dir_name(s@),
{
    str_eq(s, ".history")
        || str_eq(s, ".git")
        || str_eq(s, "node_modules")
        || str_eq(s, ".vscode")
        || str_eq(s, ".idea")
        || str_eq(s, "typings")
        || str_eq(s, "out")
        || str_eq(s, ".next")
        || str_eq(s, ".nuxt")
        || str_eq(s, "dist")
        || str_eq(s, "build")
        || str_eq(s, ".turbo")
        || str_eq(s, ".svn")
        || str_eq(s, ".hg")
        || str_eq(s, "venv")
        || str_eq(s, ".venv")
        || str_eq(s, "__pycache__")
        || str_eq(s, "target")
        || str_eq(s, ".gradle")
        || str_eq(s, ".cache")
        || str_eq(s, ".parcel-cache")
        || str_eq(s, "coverage")
        || str_eq(s, ".nyc_output")
        || str_eq(s, ".pytest_cache")
}

/// Whether a file name is excluded.
pub fn is_excluded_file_name(s: &str) -> (r: bool)
    ensures
        r == excluded_file_name(s@),
{
    str_eq(s, ".DS_Store")
        || str_eq(s, "package-lock.json")
        || str_eq(s, "yarn.lock")
        || str_eq(s, "pnpm-lock.yaml")
        || str_eq(s, "Thumbs.db")
        || str_eq(s, "desktop.ini")
}

/// Whether an extension is excluded.
pub fn is_excluded_extension(s: &str) -> (r: bool)
    ensures
        r == excluded_extension(s@),
{
    str_eq(s, "pyc")
        || str_eq(s, "pyo")
        || str_eq(s, "o")
        || str_eq(s, "a")
        || str_eq(s, "dylib")
        || str_eq(s, "so")
        || str_eq(s, "class")
        || str_eq(s, "jar")
        || str_eq(s, "war")
        || str_eq(s, "dll")
        || str_eq(s, "exe")
        || str_eq(s, "obj")
}

/// Whether a path, relative to a watched root, is left out of versioning.
pub fn is_excluded(rel_path: &str) -> (r: bool)
    ensures
        r == excluded(rel_path@),
{
    let cs = components(rel_path);
    let mut i: usize = 0;
    while i < cs.len()
        invariant
            texts(cs@) == components_of(rel_path@),
            i <= cs@.len(),
            forall|j: int| 0 <= j < i ==> !excluded_dir_name(#[trigger] components_of(rel_path@)[j]),
        decreases cs@.len() - i,
    {
        if is_excluded_dir_name(cs[i].as_str()) {
            proof {
                assert(components_of(rel_path@)[i as int] == cs@[i as int]@);
            }
            return true;
        }
        proof {
            assert(components_of(rel_path@)[i as int] == cs@[i as int]@);
        }
        i = i + 1;
    }
    match file_name(rel_path) {
        Some(name) => {
            if is_excluded_file_name(name.as_str()) {
                return true;
            }
            match extension(name.as_str()) {
                Some(e) => is_excluded_extension(e.as_str()),
                None => false,
            }
        },
        None => false,
    }
}

} // verus!
