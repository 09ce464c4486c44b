//! The file and folder names whose presence makes a directory a project root.

use vstd::prelude::*;

use crate::path::{join, join_of, texts};

verus! {

/// The names that mark a project root, in the order they are looked for.
pub open spec fn marker_names() -> Seq<Seq<char>> {
    seq![
        ".git"@,
        "package.json"@,
        "Cargo.toml"@,
        "go.mod"@,
        "pyproject.toml"@,
        "pom.xml"@,
        "build.gradle"@,
        "pubspec.yaml"@,
        "Gemfile"@,
        "mix.exs"@,
        "CMakeLists.txt"@,
        "Makefile"@,
        ".xcodeproj"@,
        "dune-project"@,
    ]
}

/// The paths whose existence would make `dir` a project root, one per
/// marker name, in order.
pub fn marker_paths(dir: &str) -> (r: Vec<String>)
    ensures
        texts(r@) == marker_names().map_values(|m: Seq<char>| join_of(dir@, m)),
{
    let names: Vec<&str> = vec![
        ".git",
        "package.json",
        "Cargo.toml",
        "go.mod",
        "pyproject.toml",
        "pom.xml",
        "build.gradle",
        "pubspec.yaml",
        "Gemfile",
        "mix.exs",
        "CMakeLists.txt",
        "Makefile",
        ".xcodeproj",
        "dune-project",
    ];
    proof {
        assert(names@.map_values(|m: &str| m@) =~= marker_names());
    }
    let mut r: Vec<String> = Vec::new();
    let mut i: usize = 0;
    while i < names.len()
        invariant
            i <= names@.len(),
            names@.map_values(|m: &str| m@) == marker_names(),
            texts(r@) == marker_names().take(i as int).map_values(|m: Seq<char>| join_of(dir@, m)),
        decreases names@.len() - i,
    {
        let ghost before = r@;
        let p = join(dir, names[i]);
        r.push(p);
        proof {
            assert(names@.map_values(|m: &str| m@)[i as int] == names@[i as int]@);
            assert(texts(r@) =~= texts(before).push(p@));
            assert(marker_names().take(i + 1).map_values(|m: Seq<char>| join_of(dir@, m))
                =~= marker_names().take(i as int).map_values(|m: Seq<char>| join_of(dir@, m)).push(join_of(dir@, marker_names()[i as int])));
        }
        i = i + 1;
    }
    proof {
        assert(marker_names().take(names@.len() as int) =~= marker_names());
    }
    r
}


/// A directory is a project root exactly when it holds one of these: the
/// marker names are `.git`, `package.json`, `Cargo.toml`, `go.mod`,
/// `pyproject.toml`, `pom.xml`, `build.gradle`, `pubspec.yaml`, `Gemfile`,
/// `mix.exs`, `CMakeLists.txt`, `Makefile`, `.xcodeproj` and `dune-project`,
/// and no other name.
pub proof fn lemma_marker_names(name: Seq<char>)
    ensures
        marker_names().len() == 14,
        marker_names().contains(name) <==> (name == ".git"@
            || name == "package.json"@
            || name == "Cargo.toml"@
            || name == "go.mod"@
            || name == "pyproject.toml"@
            || name == "pom.xml"@
            || name == "build.gradle"@
            || name == "pubspec.yaml"@
            || name == "Gemfile"@
            || name == "mix.exs"@
            || name == "CMakeLists.txt"@
            || name == "Makefile"@
            || name == ".xcodeproj"@
            || name == "dune-project"@),
{
    let m = marker_names();
    assert(m[0] == ".git"@);
    assert(m[1] == "package.json"@);
    assert(m[2] == "Cargo.toml"@);
    assert(m[3] == "go.mod"@);
    assert(m[4] == "pyproject.toml"@);
    assert(m[5] == "pom.xml"@);
    assert(m[6] == "build.gradle"@);
    assert(m[7] == "pubspec.yaml"@);
    assert(m[8] == "Gemfile"@);
    assert(m[9] == "mix.exs"@);
    assert(m[10] == "CMakeLists.txt"@);
    assert(m[11] == "Makefile"@);
    assert(m[12] == ".xcodeproj"@);
    assert(m[13] == "dune-project"@);
    if m.contains(name) {
        let i = choose|i: int| 0 <= i < m.len() && m[i] == name;
        assert(0 <= i < 14);
    }
    if name == ".git"@ {
        assert(m[0] == name);
    }
    if name == "package.json"@ {
        assert(m[1] == name);
    }
    if name == "Cargo.toml"@ {
        assert(m[2] == name);
    }
    if name == "go.mod"@ {
        assert(m[3] == name);
    }
    if name == "pyproject.toml"@ {
        assert(m[4] == name);
    }
    if name == "pom.xml"@ {
        assert(m[5] == name);
    }
    if name == "build.gradle"@ {
        assert(m[6] == name);
    }
    if name == "pubspec.yaml"@ {
        assert(m[7] == name);
    }
    if name == "Gemfile"@ {
        assert(m[8] == name);
    }
    if name == "mix.exs"@ {
        assert(m[9] == name);
    }
    if name == "CMakeLists.txt"@ {
        assert(m[10] == name);
    }
    if name == "Makefile"@ {
        assert(m[11] == name);
    }
    if name == ".xcodeproj"@ {
        assert(m[12] == name);
    }
    if name == "dune-project"@ {
        assert(m[13] == name);
    }
}

/// The paths looked at for a directory are the directory joined with each
/// marker name; among them is its `package.json`.
pub proof fn lemma_marker_paths_cover(dir: Seq<char>, name: Seq<char>)
    requires
        marker_names().contains(name),
    ensures
        marker_names().map_values(|m: Seq<char>| join_of(dir, m)).contains(join_of(dir, name)),
        marker_names().map_values(|m: Seq<char>| join_of(dir, m)).contains(join_of(dir, "package.json"@)),
{
    let m = marker_names();
    let ps = m.map_values(|x: Seq<char>| join_of(dir, x));
    let i = choose|i: int| 0 <= i < m.len() && m[i] == name;
    assert(ps[i] == join_of(dir, name));
    lemma_marker_names(name);
    assert(ps[1] == join_of(dir, "package.json"@));
}

} // verus!
