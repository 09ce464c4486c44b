//! Where the tool keeps its files, the name of each project's history
//! folder, the watched roots of the configuration, and the discovery of
//! project roots among the entries of the home directory.

use vstd::prelude::*;

use crate::fmt::{lemma_lower_hex_no_slash, lower_hex, to_lower_hex};
use crate::path::{
    components, components_of, is_root_component, join, join_of, lemma_components_well_formed,
    no_slash, path_eq, same_path, texts,
};
use crate::text::str_eq;

verus! {

/// The configuration: the watched roots, how many projects discovery found,
/// and where version history is stored.
pub struct Config {
    pub roots: Vec<String>,
    pub discovered_projects: usize,
    pub history_path: String,
}

/// `~/.temprix`, given the home directory.
pub open spec fn tool_dir_of(home: Seq<char>) -> Seq<char> {
    join_of(home, ".temprix"@)
}

/// The tool's own directory under the home directory.
pub fn temprix_dir(home: &str) -> (r: String)
    ensures
        r@ == tool_dir_of(home@),
{
    join(home, ".temprix")
}

/// The configuration file.
pub fn config_path(home: &str) -> (r: String)
    ensures
        r@ == join_of(tool_dir_of(home@), "config.json"@),
{
    let dir = temprix_dir(home);
    join(dir.as_str(), "config.json")
}

/// The daemon's log file.
pub fn log_path(home: &str) -> (r: String)
    ensures
        r@ == join_of(join_of(tool_dir_of(home@), "logs"@), "daemon.log"@),
{
    let dir = temprix_dir(home);
    let logs = join(dir.as_str(), "logs");
    join(logs.as_str(), "daemon.log")
}

/// Where version history goes unless the configuration says otherwise.
pub fn default_history_path(home: &str) -> (r: String)
    ensures
        r@ == join_of(tool_dir_of(home@), "history"@),
{
    let dir = temprix_dir(home);
    join(dir.as_str(), "history")
}

/// The 32-bit "times 33 plus byte" hash of a byte string, seeded with 5381.
pub open spec fn djb2(bytes: Seq<u8>) -> int
    decreases bytes.len(),
{
    if bytes.len() == 0 {
        5381
    } else {
        (djb2(bytes.drop_last()) * 33 + bytes.last()) % 0x1_0000_0000
    }
}

/// The 16-bit hash of a path's UTF-8 text that tells projects apart.
pub open spec fn path_hash(s: Seq<char>) -> int {
    djb2(vstd::utf8::encode_utf8(s)) % 0x10000
}

proof fn lemma_djb2_range(bytes: Seq<u8>)
    ensures
        0 <= djb2(bytes) < 0x1_0000_0000,
    decreases bytes.len(),
{
    if bytes.len() > 0 {
        lemma_djb2_range(bytes.drop_last());
    }
}

/// The 16-bit hash of a path's text: the low 16 bits of the 32-bit
/// "times 33 plus byte" hash of its UTF-8 bytes.
pub fn simple_hash(s: &str) -> (r: u32)
    ensures
        r == path_hash(s@),
        r < 0x10000,
{
    let bytes = s.as_bytes();
    let mut h: u32 = 5381;
    let mut i: usize = 0;
    proof {
        assert(bytes@.take(0) =~= Seq::<u8>::empty());
    }
    while i < bytes.len()
        invariant
            i <= bytes@.len(),
            h == djb2(bytes@.take(i as int)),
        decreases bytes@.len() - i,
    {
        let b = bytes[i];
        let ghost prev = h;
        let m = h.wrapping_mul(33);
        h = m.wrapping_add(b as u32);
        proof {
            assert(bytes@.take(i + 1).drop_last() =~= bytes@.take(i as int));
            assert(m == (prev as int * 33) % 0x1_0000_0000);
            assert(h == (prev as int * 33 + b as int) % 0x1_0000_0000) by (nonlinear_arith)
                requires
                    m == (prev as int * 33) % 0x1_0000_0000,
                    h == if m + b > u32::MAX { m + b - 0x1_0000_0000 } else { m + b },
                    b < 256,
            ;
        }
        i = i + 1;
    }
    proof {
        assert(bytes@.take(bytes@.len() as int) =~= bytes@);
    }
    assert(h & 0xFFFF == h % 0x10000) by (bit_vector);
    h & 0xFFFF
}

/// The components of a path without a leading root "/".
pub open spec fn named_components(root: Seq<char>) -> Seq<Seq<char>> {
    let c = components_of(root);
    if c.len() > 0 && c[0] == seq!['/'] {
        c.drop_first()
    } else {
        c
    }
}

/// The readable part of a project's history folder name: the last two of
/// its named components joined by "__", its only named component, or
/// "unknown". The root "/" never counts, so the name is never a path of its
/// own; a leading "." counts like any other component.
pub open spec fn project_label(root: Seq<char>) -> Seq<char> {
    let c = named_components(root);
    if c.len() >= 2 {
        c[c.len() - 2] + "__"@ + c.last()
    } else if c.len() == 1 {
        c[0]
    } else {
        "unknown"@
    }
}

/// The name of a project's history folder: its label, '-', and the hash of
/// its full path in hexadecimal.
pub open spec fn project_dir_name(root: Seq<char>) -> Seq<char> {
    project_label(root) + "-"@ + lower_hex(path_hash(root) as nat)
}

/// The folder that holds the versions of one project.
pub open spec fn project_history_dir(history: Seq<char>, root: Seq<char>) -> Seq<char> {
    join_of(history, project_dir_name(root))
}

/// The history storage directory for a project, e.g. `/Users/raj/Codebase/myapp`
/// gets `<history>/Codebase__myapp-<hash>`.
pub fn history_dir_for_project(history_path: &str, project_root: &str) -> (r: String)
    ensures
        r@ == project_history_dir(history_path@, project_root@),
{
    let cs = components(project_root);
    let n = cs.len();
    let start: usize = if n > 0 && is_root_component(&cs[0]) {
        1
    } else {
        0
    };
    let ghost named = named_components(project_root@);
    proof {
        assert(named =~= texts(cs@).skip(start as int));
    }
    let k = n - start;
    let mut name = if k >= 2 {
        let mut s = String::from_str(cs[n - 2].as_str());
        s.append("__");
        s.append(cs[n - 1].as_str());
        proof {
            assert(named[named.len() - 2] == cs@[n - 2]@);
            assert(named.last() == cs@[n - 1]@);
        }
        s
    } else if k == 1 {
        proof {
            assert(named[0] == cs@[start as int]@);
        }
        String::from_str(cs[start].as_str())
    } else {
        String::from_str("unknown")
    };
    proof {
        assert(name@ == project_label(project_root@));
    }
    let hash = simple_hash(project_root);
    let hex = to_lower_hex(hash);
    name.append("-");
    name.append(hex.as_str());
    join(history_path, name.as_str())
}

/// A project's history folder is a direct child of the history path: its
/// name is not empty and holds no '/', so it is appended to the history path
/// and never replaces it.
pub proof fn lemma_history_dir_inside(history: Seq<char>, root: Seq<char>)
    ensures
        project_dir_name(root).len() > 0,
        no_slash(project_dir_name(root)),
        project_history_dir(history, root) == if history.len() > 0 && history.last() != '/' {
            history + seq!['/'] + project_dir_name(root)
        } else {
            history + project_dir_name(root)
        },
{
    reveal_strlit("__");
    reveal_strlit("-");
    reveal_strlit("unknown");
    lemma_components_well_formed(root);
    let c = components_of(root);
    let named = named_components(root);
    assert forall|i: int| 0 <= i < named.len() implies #[trigger] named[i].len() > 0 && no_slash(named[i]) by {
        if c.len() > 0 && c[0] == seq!['/'] {
            assert(named[i] == c[i + 1]);
        } else {
            assert(named[i] == c[i]);
        }
    }
    let label = project_label(root);
    let hex = lower_hex(path_hash(root) as nat);
    lemma_lower_hex_no_slash(path_hash(root) as nat);
    let name = project_dir_name(root);
    assert(no_slash(label)) by {
        if named.len() >= 2 {
            let a = named[named.len() - 2];
            let b = named.last();
            assert(label == a + "__"@ + b);
            assert forall|i: int| 0 <= i < label.len() implies #[trigger] label[i] != '/' by {
                if i < a.len() {
                    assert(label[i] == a[i]);
                } else if i < a.len() + 2 {
                } else {
                    assert(label[i] == b[i - a.len() - 2]);
                }
            }
        }
    }
    assert(label.len() > 0);
    assert forall|i: int| 0 <= i < name.len() implies #[trigger] name[i] != '/' by {
        if i < label.len() {
            assert(name[i] == label[i]);
        } else if i == label.len() {
        } else {
            assert(name[i] == hex[i - label.len() - 1]);
        }
    }
    assert(name[0] == label[0]);
}

/// Whether one of the roots is the same path as `p`.
pub open spec fn is_watched(roots: Seq<Seq<char>>, p: Seq<char>) -> bool {
    exists|i: int| 0 <= i < roots.len() && same_path(#[trigger] roots[i], p)
}

/// The roots that are not the same path as `p`, in order.
pub open spec fn without_path(roots: Seq<Seq<char>>, p: Seq<char>) -> Seq<Seq<char>>
    decreases roots.len(),
{
    if roots.len() == 0 {
        roots
    } else {
        let init = without_path(roots.drop_last(), p);
        if same_path(roots.last(), p) {
            init
        } else {
            init.push(roots.last())
        }
    }
}

/// Adds a root (already made absolute) to the configuration, unless the
/// same path is already tracked.
pub fn add_root(cfg: &mut Config, abs: &str) -> (r: Result<(), String>)
    ensures
        final(cfg).discovered_projects == old(cfg).discovered_projects,
        final(cfg).history_path@ == old(cfg).history_path@,
        r is Ok <==> !is_watched(texts(old(cfg).roots@), abs@),
        r is Ok ==> texts(final(cfg).roots@) == texts(old(cfg).roots@).push(abs@),
        r matches Err(e) ==> texts(final(cfg).roots@) == texts(old(cfg).roots@)
            && e@ == "Already tracking: "@ + abs@,
{
    let mut i: usize = 0;
    while i < cfg.roots.len()
        invariant
            i <= cfg.roots@.len(),
            forall|j: int| 0 <= j < i ==> !same_path(#[trigger] texts(cfg.roots@)[j], abs@),
        decreases cfg.roots@.len() - i,
    {
        if path_eq(cfg.roots[i].as_str(), abs) {
            let mut e = String::from_str("Already tracking: ");
            e.append(abs);
            proof {
                assert(same_path(texts(cfg.roots@)[i as int], abs@));
            }
            return Err(e);
        }
        i = i + 1;
    }
    let ghost before = cfg.roots@;
    cfg.roots.push(String::from_str(abs));
    proof {
        assert(texts(cfg.roots@) =~= texts(before).push(abs@));
    }
    Ok(())
}

proof fn lemma_without_path_len(roots: Seq<Seq<char>>, p: Seq<char>)
    ensures
        without_path(roots, p).len() <= roots.len(),
        without_path(roots, p).len() == roots.len() <==> !is_watched(roots, p),
    decreases roots.len(),
{
    if roots.len() > 0 {
        let init = roots.drop_last();
        lemma_without_path_len(init, p);
        if is_watched(init, p) {
            let i = choose|i: int| 0 <= i < init.len() && same_path(#[trigger] init[i], p);
            assert(roots[i] == init[i]);
        }
        if !is_watched(init, p) && !same_path(roots.last(), p) {
            assert forall|i: int| 0 <= i < roots.len() implies !same_path(#[trigger] roots[i], p) by {
                if i < init.len() {
                    assert(roots[i] == init[i]);
                }
            }
        }
    }
}

/// Removes every root that is the same path as `abs`.
pub fn remove_root(cfg: &mut Config, abs: &str) -> (r: Result<(), String>)
    ensures
        final(cfg).discovered_projects == old(cfg).discovered_projects,
        final(cfg).history_path@ == old(cfg).history_path@,
        texts(final(cfg).roots@) == without_path(texts(old(cfg).roots@), abs@),
        r is Ok <==> is_watched(texts(old(cfg).roots@), abs@),
        r matches Err(e) ==> e@ == "Not tracking: "@ + abs@,
{
    let ghost old_roots = texts(cfg.roots@);
    let before = cfg.roots.len();
    let mut kept: Vec<String> = Vec::new();
    let mut i: usize = 0;
    while i < cfg.roots.len()
        invariant
            i <= cfg.roots@.len(),
            old_roots == texts(cfg.roots@),
            texts(kept@) == without_path(old_roots.take(i as int), abs@),
        decreases cfg.roots@.len() - i,
    {
        proof {
            assert(old_roots.take(i + 1).drop_last() =~= old_roots.take(i as int));
        }
        if !path_eq(cfg.roots[i].as_str(), abs) {
            let ghost k = kept@;
            kept.push(String::from_str(cfg.roots[i].as_str()));
            proof {
                assert(texts(kept@) =~= texts(k).push(old_roots[i as int]));
            }
        }
        i = i + 1;
    }
    proof {
        assert(old_roots.take(i as int) =~= old_roots);
        lemma_without_path_len(old_roots, abs@);
    }
    cfg.roots = kept;
    if cfg.roots.len() == before {
        let mut e = String::from_str("Not tracking: ");
        e.append(abs);
        return Err(e);
    }
    Ok(())
}

/// Adding a root that is not tracked and then removing it gives back the
/// roots there were before.
pub proof fn lemma_add_then_remove(roots: Seq<Seq<char>>, p: Seq<char>)
    requires
        !is_watched(roots, p),
    ensures
        without_path(roots.push(p), p) == roots,
{
    assert(roots.push(p).drop_last() =~= roots);
    lemma_without_untracked(roots, p);
}

/// Removing a path that is not tracked changes nothing.
pub proof fn lemma_without_untracked(roots: Seq<Seq<char>>, p: Seq<char>)
    requires
        !is_watched(roots, p),
    ensures
        without_path(roots, p) == roots,
    decreases roots.len(),
{
    if roots.len() > 0 {
        let init = roots.drop_last();
        assert forall|i: int| 0 <= i < init.len() implies !same_path(#[trigger] init[i], p) by {
            assert(init[i] == roots[i]);
        }
        lemma_without_untracked(init, p);
        assert(!same_path(roots[roots.len() - 1], p));
        assert(init.push(roots.last()) =~= roots);
    }
}

/// After a removal the path is no longer tracked.
pub proof fn lemma_removed_not_tracked(roots: Seq<Seq<char>>, p: Seq<char>)
    ensures
        !is_watched(without_path(roots, p), p),
    decreases roots.len(),
{
    if roots.len() > 0 {
        lemma_removed_not_tracked(roots.drop_last(), p);
        let init = without_path(roots.drop_last(), p);
        if !same_path(roots.last(), p) {
            assert forall|i: int| 0 <= i < init.push(roots.last()).len()
                implies !same_path(#[trigger] init.push(roots.last())[i], p) by {
                if i < init.len() {
                    assert(init.push(roots.last())[i] == init[i]);
                }
            }
        }
    }
}


/// Names in the home directory that are never searched for projects.
pub open spec fn skipped_home_name(s: Seq<char>) -> bool {
    s == "node_modules"@
        || s == ".git"@
        || s == ".hg"@
        || s == ".svn"@
        || s == "Library"@
        || s == "Applications"@
        || s == ".Trash"@
        || s == ".cache"@
        || s == ".npm"@
        || s == ".nvm"@
        || s == ".local"@
        || s == ".config"@
        || s == ".docker"@
        || s == ".cargo"@
        || s == "Pictures"@
        || s == "Movies"@
        || s == "Music"@
        || s == "Public"@
        || s == "Sites"@
        || s == ".zsh_sessions"@
        || s == ".ssh"@
        || s == ".gnupg"@
        || s == ".cups"@
}

/// Whether a name in the home directory is never searched for projects.
pub fn is_skipped_home_name(s: &str) -> (r: bool)
    ensures
        r == skipped_home_name(s@),
{
    str_eq(s, "node_modules")
        || str_eq(s, ".git")
        || str_eq(s, ".hg")
        || str_eq(s, ".svn")
        || str_eq(s, "Library")
        || str_eq(s, "Applications")
        || str_eq(s, ".Trash")
        || str_eq(s, ".cache")
        || str_eq(s, ".npm")
        || str_eq(s, ".nvm")
        || str_eq(s, ".local")
        || str_eq(s, ".config")
        || str_eq(s, ".docker")
        || str_eq(s, ".cargo")
        || str_eq(s, "Pictures")
        || str_eq(s, "Movies")
        || str_eq(s, "Music")
        || str_eq(s, "Public")
        || str_eq(s, "Sites")
        || str_eq(s, ".zsh_sessions")
        || str_eq(s, ".ssh")
        || str_eq(s, ".gnupg")
        || str_eq(s, ".cups")
}

/// One entry inside a folder of the home directory: its name (none when
/// the name is not valid text), whether it is a directory, and whether it
/// holds a project marker.
pub struct ChildEntry {
    pub name: Option<String>,
    pub is_dir: bool,
    pub has_marker: bool,
}

/// One entry of the home directory: its name, its full path, whether it is
/// a directory, whether it holds a project marker, and its own entries
/// (read only when `needs_child_scan` says so; empty otherwise).
pub struct HomeEntry {
    pub name: String,
    pub path: String,
    pub is_dir: bool,
    pub has_marker: bool,
    pub children: Vec<ChildEntry>,
}

/// A child that is a project: a directory with a marker whose name does not
/// start with '.'.
pub open spec fn project_child(c: ChildEntry) -> bool {
    match c.name {
        Some(n) => !(n@.len() > 0 && n@[0] == '.') && c.is_dir && c.has_marker,
        None => false,
    }
}

/// How many children are projects.
pub open spec fn project_children(cs: Seq<ChildEntry>) -> nat
    decreases cs.len(),
{
    if cs.len() == 0 {
        0
    } else {
        project_children(cs.drop_last()) + if project_child(cs.last()) {
            1nat
        } else {
            0nat
        }
    }
}

/// How many projects an entry of the home directory brings: one when it is
/// a project itself, two when at least two of its children are, none when
/// its name is skipped, it is not a directory, or it holds fewer than two.
pub open spec fn entry_projects(e: HomeEntry) -> nat {
    if skipped_home_name(e.name@) || !e.is_dir {
        0
    } else if e.has_marker {
        1
    } else if project_children(e.children@) >= 2 {
        2
    } else {
        0
    }
}

/// The entries that become watched roots, in order.
pub open spec fn discovered_roots(es: Seq<HomeEntry>) -> Seq<Seq<char>>
    decreases es.len(),
{
    if es.len() == 0 {
        Seq::empty()
    } else {
        let init = discovered_roots(es.drop_last());
        if entry_projects(es.last()) > 0 {
            init.push(es.last().path@)
        } else {
            init
        }
    }
}

/// The number of projects the entries bring.
pub open spec fn discovered_count(es: Seq<HomeEntry>) -> nat
    decreases es.len(),
{
    if es.len() == 0 {
        0
    } else {
        discovered_count(es.drop_last()) + entry_projects(es.last())
    }
}

proof fn lemma_discovered_count_bound(es: Seq<HomeEntry>)
    ensures
        discovered_count(es) <= 2 * es.len(),
    decreases es.len(),
{
    if es.len() > 0 {
        lemma_discovered_count_bound(es.drop_last());
    }
}

/// An entry that is a project itself: a directory, not skipped, with a
/// marker.
pub open spec fn marked_entry(e: HomeEntry) -> bool {
    !skipped_home_name(e.name@) && e.is_dir && e.has_marker
}

/// An entry that holds projects without being one: a directory, not
/// skipped, with no marker, and at least two children that are projects.
pub open spec fn hub_entry(e: HomeEntry) -> bool {
    !skipped_home_name(e.name@) && e.is_dir && !e.has_marker && project_children(e.children@) >= 2
}

/// How many entries satisfy `p`.
pub open spec fn count_entries(es: Seq<HomeEntry>, p: spec_fn(HomeEntry) -> bool) -> nat
    decreases es.len(),
{
    if es.len() == 0 {
        0
    } else {
        count_entries(es.drop_last(), p) + if p(es.last()) {
            1nat
        } else {
            0nat
        }
    }
}

/// The number of projects found counts one for each entry that is a
/// project and two for each entry that holds two or more, however many it
/// holds.
pub proof fn lemma_discovered_count(es: Seq<HomeEntry>)
    ensures
        discovered_count(es) == count_entries(es, |e: HomeEntry| marked_entry(e)) + 2 * count_entries(
            es,
            |e: HomeEntry| hub_entry(e),
        ),
    decreases es.len(),
{
    if es.len() > 0 {
        lemma_discovered_count(es.drop_last());
    }
}

/// Whether an entry is a project or holds two or more, and has path `p`.
pub open spec fn brings_root(e: HomeEntry, p: Seq<char>) -> bool {
    (marked_entry(e) || hub_entry(e)) && e.path@ == p
}

/// Whether each of `roots` is the path of an entry that is a project or
/// holds two or more.
pub open spec fn each_root_brought(es: Seq<HomeEntry>, roots: Seq<Seq<char>>) -> bool {
    forall|j: int| 0 <= j < roots.len() ==> #[trigger] root_brought(es, roots[j])
}

/// Whether `p` is the path of an entry that is a project or holds two or
/// more.
pub open spec fn root_brought(es: Seq<HomeEntry>, p: Seq<char>) -> bool {
    exists|i: int| 0 <= i < es.len() && #[trigger] brings_root(es[i], p)
}

/// The roots found are the paths of the entries that are projects or hold
/// two or more, in the order of the entries: each root is the path of such
/// an entry, and the path of each such entry is a root. When no two entries
/// share a path, no root is found twice.
pub proof fn lemma_discovered_roots(es: Seq<HomeEntry>)
    ensures
        ({
            let roots = discovered_roots(es);
            &&& each_root_brought(es, roots)
            &&& forall|i: int| 0 <= i < es.len() && (marked_entry(#[trigger] es[i]) || hub_entry(es[i])) ==> roots.contains(
                es[i].path@,
            )
            &&& (forall|a: int, b: int| 0 <= a < b < es.len() ==> #[trigger] es[a].path@ != #[trigger] es[b].path@) ==> (
            forall|a: int, b: int| 0 <= a < b < roots.len() ==> #[trigger] roots[a] != #[trigger] roots[b])
        }),
    decreases es.len(),
{
    if es.len() > 0 {
        let init = es.drop_last();
        lemma_discovered_roots(init);
        let ri = discovered_roots(init);
        let roots = discovered_roots(es);
        let e = es.last();
        assert(entry_projects(e) > 0 <==> (marked_entry(e) || hub_entry(e)));
        assert forall|j: int| 0 <= j < roots.len() implies #[trigger] root_brought(es, roots[j]) by {
            if j < ri.len() {
                assert(roots[j] == ri[j]);
                assert(root_brought(init, ri[j]));
                let i = choose|i: int| 0 <= i < init.len() && #[trigger] brings_root(init[i], ri[j]);
                assert(es[i] == init[i]);
                assert(brings_root(es[i], roots[j]));
                assert(root_brought(es, roots[j]));
            } else {
                let i = es.len() - 1;
                assert(roots[j] == e.path@);
                assert(es[i] == e);
                assert(brings_root(es[i], roots[j]));
                assert(root_brought(es, roots[j]));
            }
        }
        assert(each_root_brought(es, roots));
        assert forall|i: int| 0 <= i < es.len() && (marked_entry(#[trigger] es[i]) || hub_entry(es[i])) implies roots.contains(
            es[i].path@,
        ) by {
            if i < init.len() {
                assert(es[i] == init[i]);
                assert(ri.contains(init[i].path@));
                let j = choose|j: int| 0 <= j < ri.len() && ri[j] == init[i].path@;
                assert(roots[j] == ri[j]);
            } else {
                assert(roots[roots.len() - 1] == e.path@);
            }
        }
        if forall|a: int, b: int| 0 <= a < b < es.len() ==> #[trigger] es[a].path@ != #[trigger] es[b].path@ {
            assert forall|a: int, b: int| 0 <= a < b < init.len() implies #[trigger] init[a].path@ != #[trigger] init[b].path@ by {
                assert(init[a] == es[a]);
                assert(init[b] == es[b]);
            }
            assert forall|a: int, b: int| 0 <= a < b < roots.len() implies #[trigger] roots[a] != #[trigger] roots[b] by {
                if b < ri.len() {
                    assert(roots[a] == ri[a]);
                    assert(roots[b] == ri[b]);
                } else {
                    assert(roots[a] == ri[a]);
                    assert(roots[b] == e.path@);
                    assert(root_brought(init, ri[a]));
                    let i = choose|i: int| 0 <= i < init.len() && #[trigger] brings_root(init[i], ri[a]);
                    assert(es[i] == init[i]);
                    assert(es[es.len() - 1] == e);
                    assert(es[i].path@ != es[es.len() - 1].path@);
                }
            }
        }
    } else {
        assert(discovered_roots(es).len() == 0);
    }
}

/// A child counts toward a hub only when it is a directory that holds a
/// project marker and has a valid name that does not start with '.'.
pub proof fn lemma_project_child_is_marked_dir(c: ChildEntry)
    ensures
        project_child(c) ==> c.is_dir && c.has_marker && c.name is Some && !(c.name->0@.len() > 0
            && c.name->0@[0] == '.'),
{
}

proof fn lemma_no_project_children(cs: Seq<ChildEntry>)
    requires
        forall|i: int| 0 <= i < cs.len() ==> !(#[trigger] cs[i]).has_marker,
    ensures
        project_children(cs) == 0,
    decreases cs.len(),
{
    if cs.len() > 0 {
        let init = cs.drop_last();
        assert forall|i: int| 0 <= i < init.len() implies !(#[trigger] init[i]).has_marker by {
            assert(init[i] == cs[i]);
        }
        lemma_no_project_children(init);
        assert(!cs[cs.len() - 1].has_marker);
    }
}

/// A home entry with no marker of its own whose children hold no marker is
/// not a root and brings no project, whatever its children are.
pub proof fn lemma_unmarked_entry_brings_nothing(e: HomeEntry)
    requires
        !e.has_marker,
        forall|i: int| 0 <= i < e.children@.len() ==> !(#[trigger] e.children@[i]).has_marker,
    ensures
        entry_projects(e) == 0,
        discovered_roots(seq![e]).len() == 0,
        discovered_count(seq![e]) == 0,
{
    lemma_no_project_children(e.children@);
    let es = seq![e];
    assert(es.drop_last() =~= Seq::<HomeEntry>::empty());
    assert(es.last() == e);
    assert(discovered_roots(es.drop_last()).len() == 0);
    assert(discovered_count(es.drop_last()) == 0);
}

/// Whether the children of a home entry decide its fate: it is a directory
/// that is not skipped and holds no marker itself.
pub fn needs_child_scan(name: &str, is_dir: bool, has_marker: bool) -> (r: bool)
    ensures
        r == (!skipped_home_name(name@) && is_dir && !has_marker),
{
    !is_skipped_home_name(name) && is_dir && !has_marker
}

/// How many children are projects, counting no further than two.
fn count_project_children(cs: &Vec<ChildEntry>) -> (r: usize)
    ensures
        r as nat == if project_children(cs@) >= 2 {
            2
        } else {
            project_children(cs@)
        },
{
    let mut count: usize = 0;
    let mut i: usize = 0;
    proof {
        assert(cs@.take(0) =~= Seq::<ChildEntry>::empty());
    }
    while i < cs.len()
        invariant
            i <= cs@.len(),
            count as nat == project_children(cs@.take(i as int)),
            count < 2,
        decreases cs@.len() - i,
    {
        let c = &cs[i];
        proof {
            assert(cs@.take(i + 1).drop_last() =~= cs@.take(i as int));
            assert(cs@.take(i + 1).last() == cs@[i as int]);
        }
        let counts = match &c.name {
            Some(n) => {
                let dot = n.as_str().unicode_len() > 0 && n.as_str().get_char(0) == '.';
                !dot && c.is_dir && c.has_marker
            },
            None => false,
        };
        if counts {
            count = count + 1;
            if count >= 2 {
                proof {
                    lemma_project_children_grows(cs@, i + 1);
                }
                return count;
            }
        }
        i = i + 1;
    }
    proof {
        assert(cs@.take(cs@.len() as int) =~= cs@);
    }
    count
}

proof fn lemma_project_children_grows(cs: Seq<ChildEntry>, k: int)
    requires
        0 <= k <= cs.len(),
    ensures
        project_children(cs.take(k)) <= project_children(cs),
    decreases cs.len(),
{
    if k < cs.len() {
        assert(cs.drop_last().take(k) =~= cs.take(k));
        lemma_project_children_grows(cs.drop_last(), k);
    } else {
        assert(cs.take(k) =~= cs);
    }
}

/// The projects found among the entries of the home directory: the roots to
/// watch and the number of projects they hold.
pub fn discover_roots(entries: &Vec<HomeEntry>) -> (r: (Vec<String>, usize))
    requires
        entries@.len() * 2 <= usize::MAX,
    ensures
        texts(r.0@) == discovered_roots(entries@),
        r.1 as nat == discovered_count(entries@),
{
    let mut roots: Vec<String> = Vec::new();
    let mut total: usize = 0;
    let mut i: usize = 0;
    proof {
        assert(entries@.take(0) =~= Seq::<HomeEntry>::empty());
    }
    while i < entries.len()
        invariant
            i <= entries@.len(),
            entries@.len() * 2 <= usize::MAX,
            texts(roots@) == discovered_roots(entries@.take(i as int)),
            total as nat == discovered_count(entries@.take(i as int)),
        decreases entries@.len() - i,
    {
        let e = &entries[i];
        proof {
            assert(entries@.take(i + 1).drop_last() =~= entries@.take(i as int));
            assert(entries@.take(i + 1).last() == entries@[i as int]);
            lemma_discovered_count_bound(entries@.take(i as int));
        }
        let ghost before = roots@;
        if !is_skipped_home_name(e.name.as_str()) && e.is_dir {
            if e.has_marker {
                roots.push(String::from_str(e.path.as_str()));
                total = total + 1;
                proof {
                    assert(texts(roots@) =~= texts(before).push(e.path@));
                }
            } else {
                let count = count_project_children(&e.children);
                if count >= 2 {
                    roots.push(String::from_str(e.path.as_str()));
                    total = total + count;
                    proof {
                        assert(texts(roots@) =~= texts(before).push(e.path@));
                    }
                }
            }
        }
        i = i + 1;
    }
    proof {
        assert(entries@.take(entries@.len() as int) =~= entries@);
    }
    (roots, total)
}

/// The configuration that discovery produces: the roots found, the number
/// of projects, and the default history folder.
pub fn discover_config(home: &str, entries: &Vec<HomeEntry>) -> (r: Config)
    requires
        entries@.len() * 2 <= usize::MAX,
    ensures
        texts(r.roots@) == discovered_roots(entries@),
        r.discovered_projects as nat == discovered_count(entries@),
        r.history_path@ == join_of(tool_dir_of(home@), "history"@),
{
    let (roots, count) = discover_roots(entries);
    Config { roots, discovered_projects: count, history_path: default_history_path(home) }
}

} // verus!
