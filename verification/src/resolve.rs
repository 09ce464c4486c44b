//! Project root resolution under a watched root, with a cache: every
//! directory passed on the way up is remembered with the root it resolved
//! to, so the next file in any of them is answered without walking again.
//! The cache is a list searched from its newest entry, one comparison of
//! components per remembered directory, not a hash table: its cost grows
//! with the number of directories remembered.

use vstd::prelude::*;

use crate::path::{
    ancestors, components, components_of, first_marked, first_true, floor_index, floor_of, is_prefix,
    lemma_components_well_formed, lemma_first_true, lemma_parent_components, lemma_up_from, parent,
    parent_of, path_eq, same_path, starts_with_of, texts, texts_prefix, up_from, walk_up,
};

verus! {

/// A remembered directory and the project root it resolved to.
pub struct CacheEntry {
    pub dir: String,
    pub root: String,
}

/// The cache as a map from a directory's components to its root; a later
/// entry for a directory overrides an earlier one.
pub open spec fn cache_map(s: Seq<CacheEntry>) -> Map<Seq<Seq<char>>, Seq<char>>
    decreases s.len(),
{
    if s.len() == 0 {
        Map::empty()
    } else {
        cache_map(s.drop_last()).insert(components_of(s.last().dir@), s.last().root@)
    }
}

/// The components of each directory.
pub open spec fn keys_of(dirs: Seq<Seq<char>>) -> Seq<Seq<Seq<char>>> {
    dirs.map_values(|d: Seq<char>| components_of(d))
}

/// Index of the last entry for a directory with components `d`, or -1.
pub open spec fn last_entry(s: Seq<CacheEntry>, d: Seq<Seq<char>>) -> int
    decreases s.len(),
{
    if s.len() == 0 {
        -1
    } else if components_of(s.last().dir@) == d {
        s.len() - 1
    } else {
        last_entry(s.drop_last(), d)
    }
}

proof fn lemma_last_entry(s: Seq<CacheEntry>, d: Seq<Seq<char>>)
    ensures
        -1 <= last_entry(s, d) < s.len(),
        last_entry(s, d) >= 0 ==> components_of(s[last_entry(s, d)].dir@) == d,
        forall|j: int| last_entry(s, d) < j < s.len() ==> components_of(#[trigger] s[j].dir@) != d,
        cache_map(s).contains_key(d) <==> last_entry(s, d) >= 0,
        last_entry(s, d) >= 0 ==> cache_map(s)[d] == s[last_entry(s, d)].root@,
    decreases s.len(),
{
    if s.len() > 0 {
        lemma_last_entry(s.drop_last(), d);
        assert forall|j: int| last_entry(s, d) < j < s.len() implies components_of(#[trigger] s[j].dir@) != d by {
            if j < s.len() - 1 {
                assert(s[j] == s.drop_last()[j]);
            }
        }
    }
}

proof fn lemma_set_last_entry(s: Seq<CacheEntry>, i: int, e: CacheEntry)
    requires
        0 <= i < s.len(),
        i == last_entry(s, components_of(e.dir@)),
    ensures
        cache_map(s.update(i, e)) == cache_map(s).insert(components_of(e.dir@), e.root@),
    decreases s.len(),
{
    let t = s.update(i, e);
    let k = components_of(e.dir@);
    lemma_last_entry(s, k);
    if i == s.len() - 1 {
        assert(components_of(s.last().dir@) == k);
        assert(t.drop_last() =~= s.drop_last());
        assert(t.last() == e);
        assert(cache_map(t) =~= cache_map(s).insert(k, e.root@));
    } else {
        assert(t.drop_last() =~= s.drop_last().update(i, e));
        assert(t.last() == s.last());
        assert(components_of(s.last().dir@) != k);
        lemma_set_last_entry(s.drop_last(), i, e);
        assert(cache_map(t) =~= cache_map(s).insert(k, e.root@));
    }
}

/// `m` with each of `keys` set to `v`.
pub open spec fn fill(m: Map<Seq<Seq<char>>, Seq<char>>, keys: Seq<Seq<Seq<char>>>, v: Seq<char>) -> Map<
    Seq<Seq<char>>,
    Seq<char>,
>
    decreases keys.len(),
{
    if keys.len() == 0 {
        m
    } else {
        fill(m, keys.drop_last(), v).insert(keys.last(), v)
    }
}

/// Each of the keys is set to the value.
pub proof fn lemma_fill(m: Map<Seq<Seq<char>>, Seq<char>>, keys: Seq<Seq<Seq<char>>>, v: Seq<char>, i: int)
    requires
        0 <= i < keys.len(),
    ensures
        fill(m, keys, v).contains_key(keys[i]),
        fill(m, keys, v)[keys[i]] == v,
    decreases keys.len(),
{
    if i < keys.len() - 1 {
        lemma_fill(m, keys.drop_last(), v, i);
        assert(keys.drop_last()[i] == keys[i]);
    }
}

/// Filling sets exactly the given keys: the other keys keep their values
/// and no key is added but the given ones.
pub proof fn lemma_fill_dom(m: Map<Seq<Seq<char>>, Seq<char>>, keys: Seq<Seq<Seq<char>>>, v: Seq<char>)
    ensures
        fill(m, keys, v).dom() == m.dom() + keys.to_set(),
        forall|k: Seq<Seq<char>>| !keys.contains(k) && m.contains_key(k) ==> #[trigger] fill(m, keys, v)[k] == m[k],
    decreases keys.len(),
{
    if keys.len() > 0 {
        let init = keys.drop_last();
        lemma_fill_dom(m, init, v);
        assert(keys.to_set() =~= init.to_set().insert(keys.last())) by {
            assert(keys =~= init.push(keys.last()));
            Seq::lemma_to_set_insert_commutes(init, keys.last());
        }
        assert(fill(m, keys, v).dom() =~= m.dom() + keys.to_set());
        assert forall|k: Seq<Seq<char>>| !keys.contains(k) && m.contains_key(k) implies #[trigger] fill(m, keys, v)[k] == m[k] by {
            if init.contains(k) {
                let j = choose|j: int| 0 <= j < init.len() && init[j] == k;
                assert(keys[j] == k);
            }
            assert(k != keys[keys.len() - 1]);
        }
    } else {
        assert(keys.to_set() =~= Set::<Seq<Seq<char>>>::empty());
        assert(fill(m, keys, v).dom() =~= m.dom() + keys.to_set());
    }
}

/// The directories the walk visits for a file under a watched root,
/// nearest first: the file's folder and each folder above it, one parent
/// at a time, as long as they lie inside the watched root.
pub open spec fn resolve_chain(file: Seq<char>, boundary: Seq<char>) -> Seq<Seq<char>> {
    let c = components_of(file);
    let b = components_of(boundary);
    let n = c.len() as int;
    if n > 0 && c.last() != seq!['/'] && is_prefix(b, c.take(n - 1)) {
        let low = if b.len() > floor_of(c) {
            b.len() as int
        } else {
            floor_of(c)
        };
        walk_up(parent_of(file)->0, n - low)
    } else {
        Seq::empty()
    }
}

/// The root a resolver remembering `m` answers for `file` under the watched
/// root `boundary`, and what it remembers afterwards. `marked[i]` says
/// whether the `i`-th directory of `resolve_chain` holds a marker. A file
/// with no folder is answered with `boundary`; a remembered folder from
/// memory; otherwise the first marked directory of the walk, else
/// `boundary`, and every directory walked up to it is remembered with it.
pub open spec fn resolve_outcome(
    m: Map<Seq<Seq<char>>, Seq<char>>,
    file: Seq<char>,
    boundary: Seq<char>,
    marked: Seq<bool>,
) -> (Seq<char>, Map<Seq<Seq<char>>, Seq<char>>) {
    let chain = resolve_chain(file, boundary);
    let k = first_true(marked);
    match parent_of(file) {
        None => (boundary, m),
        Some(dir) => if m.contains_key(components_of(dir)) {
            (m[components_of(dir)], m)
        } else if k < chain.len() {
            (chain[k], fill(m, keys_of(chain.take(k + 1)), chain[k]))
        } else {
            (boundary, fill(m, keys_of(chain), boundary))
        },
    }
}

/// Finds project roots, remembering every directory it has walked through.
/// A directory is remembered by its components, so two spellings of it
/// ("/a/b" and "/a//b/") share one entry; looking one up compares it with
/// each remembered directory in turn.
pub struct Resolver {
    cache: Vec<CacheEntry>,
}

impl View for Resolver {
    type V = Map<Seq<Seq<char>>, Seq<char>>;

    /// The components of each remembered directory, and its project root.
    closed spec fn view(&self) -> Map<Seq<Seq<char>>, Seq<char>> {
        cache_map(self.cache@)
    }
}

impl Resolver {
    /// A resolver that remembers nothing yet.
    pub fn new() -> (r: Self)
        ensures
            r@ == Map::<Seq<Seq<char>>, Seq<char>>::empty(),
    {
        Resolver { cache: Vec::new() }
    }

    /// The remembered root of a directory; looked up by the directory's
    /// components, so every spelling of it finds the same entry. The entries
    /// are few, one per directory walked through, and are searched in turn.
    fn cached(&self, dir: &String) -> (r: Option<String>)
        ensures
            r is Some <==> self@.contains_key(components_of(dir@)),
            r matches Some(root) ==> root@ == self@[components_of(dir@)],
    {
        let ghost d = components_of(dir@);
        proof {
            lemma_last_entry(self.cache@, d);
        }
        let mut i: usize = self.cache.len();
        while i > 0
            invariant
                i <= self.cache@.len(),
                d == components_of(dir@),
                forall|j: int| i <= j < self.cache@.len() ==> components_of(#[trigger] self.cache@[j].dir@) != d,
            decreases i,
        {
            if path_eq(self.cache[i - 1].dir.as_str(), dir.as_str()) {
                proof {
                    lemma_last_entry(self.cache@, d);
                }
                return Some(String::from_str(self.cache[i - 1].root.as_str()));
            }
            i = i - 1;
        }
        proof {
            lemma_last_entry(self.cache@, d);
        }
        None
    }

    /// Remembers `root` for `dir`.
    fn remember(&mut self, dir: &String, root: &String)
        ensures
            final(self)@ == old(self)@.insert(components_of(dir@), root@),
    {
        let ghost d = components_of(dir@);
        proof {
            lemma_last_entry(self.cache@, d);
        }
        let e = CacheEntry { dir: String::from_str(dir.as_str()), root: String::from_str(root.as_str()) };
        let mut i: usize = self.cache.len();
        while i > 0
            invariant
                i <= self.cache@.len(),
                self.cache@ == old(self).cache@,
                d == components_of(dir@),
                e.dir@ == dir@,
                e.root@ == root@,
                forall|j: int| i <= j < self.cache@.len() ==> components_of(#[trigger] self.cache@[j].dir@) != d,
            decreases i,
        {
            if path_eq(self.cache[i - 1].dir.as_str(), dir.as_str()) {
                proof {
                    lemma_last_entry(self.cache@, d);
                    lemma_set_last_entry(self.cache@, i - 1, e);
                }
                self.cache.set(i - 1, e);
                return;
            }
            i = i - 1;
        }
        let ghost before = self.cache@;
        self.cache.push(e);
        proof {
            assert(self.cache@.drop_last() =~= before);
            assert(self.cache@.last() == e);
        }
    }

    /// Remembers `root` for each of `dirs[..count]`.
    fn remember_all(&mut self, dirs: &Vec<String>, count: usize, root: &String)
        requires
            count <= dirs@.len(),
        ensures
            final(self)@ == fill(old(self)@, keys_of(texts(dirs@).take(count as int)), root@),
    {
        let mut i: usize = 0;
        proof {
            assert(keys_of(texts(dirs@).take(0)) =~= Seq::<Seq<Seq<char>>>::empty());
        }
        while i < count
            invariant
                count <= dirs@.len(),
                i <= count,
                self@ == fill(old(self)@, keys_of(texts(dirs@).take(i as int)), root@),
            decreases count - i,
        {
            self.remember(&dirs[i], root);
            proof {
                assert(keys_of(texts(dirs@).take(i + 1)).drop_last() =~= keys_of(texts(dirs@).take(i as int)));
                assert(keys_of(texts(dirs@).take(i + 1)).last() == components_of(dirs@[i as int]@));
            }
            i = i + 1;
        }
    }

    /// The remembered project root of a file's folder, if its folder has
    /// been walked through before.
    pub fn lookup(&self, file_path: &str) -> (r: Option<String>)
        ensures
            r is Some <==> (parent_of(file_path@) is Some && self@.contains_key(
                components_of(parent_of(file_path@)->0),
            )),
            r matches Some(root) ==> root@ == self@[components_of(parent_of(file_path@)->0)],
    {
        match parent(file_path) {
            Some(dir) => self.cached(&dir),
            None => None,
        }
    }

    /// Resolves the project root of a file inside the watched root
    /// `boundary`: the nearest folder, walking up from the file's folder
    /// without leaving `boundary`, that holds a project marker, else
    /// `boundary` itself. `marked[i]` says whether the `i`-th directory of
    /// `resolve_chain` holds a marker. A folder remembered from an earlier
    /// walk is answered from memory; otherwise every folder walked through is
    /// remembered with the answer.
    pub fn resolve(&mut self, file_path: &str, boundary: &str, marked: &Vec<bool>) -> (r: String)
        requires
            marked@.len() == resolve_chain(file_path@, boundary@).len(),
        ensures
            (r@, final(self)@) == resolve_outcome(old(self)@, file_path@, boundary@, marked@),
    {
        let dir = match parent(file_path) {
            Some(d) => d,
            None => return String::from_str(boundary),
        };
        if let Some(root) = self.cached(&dir) {
            return root;
        }
        let chain = Self::chain(file_path, boundary);
        let k = first_marked(marked);
        proof {
            lemma_first_true(marked@);
        }
        if k < chain.len() {
            let root = String::from_str(chain[k].as_str());
            self.remember_all(&chain, k + 1, &root);
            proof {
                assert(texts(chain@)[k as int] == chain@[k as int]@);
            }
            root
        } else {
            let root = String::from_str(boundary);
            self.remember_all(&chain, chain.len(), &root);
            proof {
                assert(texts(chain@).take(chain@.len() as int) =~= texts(chain@));
            }
            root
        }
    }

    /// The directories the walk visits for a file under a watched root,
    /// nearest first.
    pub fn chain(file_path: &str, boundary: &str) -> (r: Vec<String>)
        ensures
            texts(r@) == resolve_chain(file_path@, boundary@),
    {
        let cs = components(file_path);
        let cb = components(boundary);
        let dir = match parent(file_path) {
            Some(d) => d,
            None => return Vec::new(),
        };
        let n = cs.len();
        let cd = components(dir.as_str());
        proof {
            lemma_parent_components(file_path@);
            let c = components_of(file_path@);
            assert(c.take(n - 1) =~= c.drop_last());
        }
        if !texts_prefix(&cb, &cd) {
            return Vec::new();
        }
        let fl = floor_index(&cs);
        let low = if cb.len() > fl {
            cb.len()
        } else {
            fl
        };
        proof {
            let c = components_of(file_path@);
            lemma_components_well_formed(file_path@);
            if fl == 1 {
                assert(c[0] == seq!['/']);
                assert(n >= 2) by {
                    if n == 1 {
                        assert(c.last() == c[0]);
                    }
                }
                assert(c.drop_last()[0] == c[0]);
            }
            assert(floor_of(c.drop_last()) <= floor_of(c));
        }
        ancestors(dir.as_str(), n - low)
    }
}

/// The file's folder is the first directory walked.
proof fn lemma_chain_start(file: Seq<char>, boundary: Seq<char>)
    requires
        resolve_chain(file, boundary).len() > 0,
    ensures
        parent_of(file) == Some(resolve_chain(file, boundary)[0]),
{
    assert(up_from(parent_of(file)->0, 0) == parent_of(file)->0);
}

/// A file resolved under a watched root is answered from memory the next
/// time: its folder is remembered with the root just returned, unless the
/// folder lies outside the watched root and nothing was walked.
pub proof fn lemma_resolved_is_remembered(
    m: Map<Seq<Seq<char>>, Seq<char>>,
    file: Seq<char>,
    boundary: Seq<char>,
    marked: Seq<bool>,
)
    requires
        parent_of(file) is Some,
        marked.len() == resolve_chain(file, boundary).len(),
        resolve_chain(file, boundary).len() > 0 || m.contains_key(components_of(parent_of(file)->0)),
    ensures
        ({
            let (r, after) = resolve_outcome(m, file, boundary, marked);
            let dir = components_of(parent_of(file)->0);
            after.contains_key(dir) && after[dir] == r
        }),
{
    let chain = resolve_chain(file, boundary);
    let k = first_true(marked);
    lemma_first_true(marked);
    let dir = components_of(parent_of(file)->0);
    if !m.contains_key(dir) {
        lemma_chain_start(file, boundary);
        if k < chain.len() {
            lemma_fill(m, keys_of(chain.take(k + 1)), chain[k], 0);
        } else {
            lemma_fill(m, keys_of(chain), boundary, 0);
        }
    }
}

/// Two files in the same folder, however its path is spelled, get the same
/// root: resolving the second right after the first answers from memory
/// what the first was answered, and remembers nothing new.
pub proof fn lemma_same_folder_same_root(
    m: Map<Seq<Seq<char>>, Seq<char>>,
    file: Seq<char>,
    other: Seq<char>,
    boundary: Seq<char>,
    marked: Seq<bool>,
    other_marked: Seq<bool>,
)
    requires
        parent_of(file) is Some,
        parent_of(other) is Some,
        same_path(parent_of(other)->0, parent_of(file)->0),
        marked.len() == resolve_chain(file, boundary).len(),
        other_marked.len() == resolve_chain(other, boundary).len(),
    ensures
        ({
            let (r, after) = resolve_outcome(m, file, boundary, marked);
            let (r2, after2) = resolve_outcome(after, other, boundary, other_marked);
            r2 == r && after2 == after
        }),
{
    let chain = resolve_chain(file, boundary);
    let dir = components_of(parent_of(file)->0);
    let (r, after) = resolve_outcome(m, file, boundary, marked);
    if chain.len() > 0 || m.contains_key(dir) {
        lemma_resolved_is_remembered(m, file, boundary, marked);
    } else {
        assert(keys_of(chain) =~= Seq::<Seq<Seq<char>>>::empty());
        assert(after == m);
        let c = components_of(file);
        let c2 = components_of(other);
        lemma_parent_components(file);
        lemma_parent_components(other);
        assert(c.take(c.len() - 1) =~= c.drop_last());
        assert(c2.take(c2.len() - 1) =~= c2.drop_last());
        assert(resolve_chain(other, boundary).len() == 0);
        assert(keys_of(resolve_chain(other, boundary)) =~= Seq::<Seq<Seq<char>>>::empty());
    }
}

/// The directories between the watched root and a folder: those whose
/// components begin the folder's and begin with the watched root's.
pub open spec fn in_scope(a: Seq<Seq<char>>, dir: Seq<Seq<char>>, root: Seq<Seq<char>>) -> bool {
    is_prefix(a, dir) && is_prefix(root, a)
}

/// Resolving a file whose folder is not remembered yet gives the nearest
/// marked directory between the watched root and the folder, the folder
/// included: it is marked, and no longer one in between is; with none
/// marked in between, it gives the watched root itself. `marker` says which
/// directories hold a marker, and `marked` is read from it.
pub proof fn lemma_resolve_finds_nearest_marked(
    m: Map<Seq<Seq<char>>, Seq<char>>,
    file: Seq<char>,
    boundary: Seq<char>,
    marked: Seq<bool>,
    marker: spec_fn(Seq<Seq<char>>) -> bool,
)
    requires
        parent_of(file) is Some,
        !m.contains_key(components_of(parent_of(file)->0)),
        marked.len() == resolve_chain(file, boundary).len(),
        forall|i: int| 0 <= i < marked.len() ==> marked[i] == marker(components_of(#[trigger] resolve_chain(file, boundary)[i])),
    ensures
        ({
            let d = components_of(parent_of(file)->0);
            let b = components_of(boundary);
            let r = resolve_outcome(m, file, boundary, marked).0;
            if exists|a: Seq<Seq<char>>| in_scope(a, d, b) && #[trigger] marker(a) {
                &&& in_scope(components_of(r), d, b)
                &&& marker(components_of(r))
                &&& forall|a: Seq<Seq<char>>| in_scope(a, d, b) && #[trigger] marker(a) ==> a.len() <= components_of(r).len()
            } else {
                r == boundary
            }
        }),
{
    let c = components_of(file);
    let b = components_of(boundary);
    let n = c.len() as int;
    let chain = resolve_chain(file, boundary);
    let k = first_true(marked);
    lemma_first_true(marked);
    lemma_chain_shape(file, boundary);
    lemma_parent_components(file);
    lemma_components_well_formed(file);
    let d = components_of(parent_of(file)->0);
    assert(d =~= c.take(n - 1));
    let r = resolve_outcome(m, file, boundary, marked).0;
    let low = if b.len() > floor_of(c) {
        b.len() as int
    } else {
        floor_of(c)
    };
    // A marked directory in between lies in the walk, unless it is the
    // empty path above the root.
    assert forall|a: Seq<Seq<char>>|
        in_scope(a, d, b) && #[trigger] marker(a) && chain.len() > 0 && a.len() >= low implies marked[n - 1
        - a.len()] by {
        let i = n - 1 - a.len();
        assert(components_of(chain[i]) == c.take(a.len() as int));
        assert(a =~= c.take(a.len() as int));
    }
    assert forall|a: Seq<Seq<char>>| in_scope(a, d, b) implies chain.len() > 0 by {
        assert(b =~= a.take(b.len() as int));
        assert(b =~= d.take(b.len() as int));
        assert(c.take(n - 1) =~= d);
    }
    if k < chain.len() {
        let l = n - 1 - k;
        assert(components_of(r) == c.take(l));
        assert(marked[k] == marker(components_of(chain[k])));
        assert(is_prefix(components_of(r), d)) by {
            assert(d.take(l) =~= c.take(l));
        }
        assert(is_prefix(b, components_of(r))) by {
            assert(c.take(l).take(b.len() as int) =~= c.take(n - 1).take(b.len() as int));
        }
        assert forall|a: Seq<Seq<char>>| in_scope(a, d, b) && #[trigger] marker(a) implies a.len() <= components_of(r).len() by {
            if a.len() > l {
                let i = n - 1 - a.len();
                assert(0 <= i < k);
                assert(components_of(chain[i]) == c.take(a.len() as int));
                assert(a =~= c.take(a.len() as int));
                assert(!marked[i]);
            }
        }
    } else {
        assert(r == boundary);
        if exists|a: Seq<Seq<char>>| in_scope(a, d, b) && #[trigger] marker(a) {
            let a = choose|a: Seq<Seq<char>>| in_scope(a, d, b) && #[trigger] marker(a);
            assert(chain.len() > 0);
            assert(a.len() < low) by {
                if a.len() >= low {
                    assert(!marked[n - 1 - a.len()]);
                }
            }
            assert(a.len() == 0);
            assert(b.len() == 0);
            assert(a =~= b);
            assert(is_prefix(b, b));
            assert forall|a2: Seq<Seq<char>>| in_scope(a2, d, b) && #[trigger] marker(a2) implies a2.len() <= components_of(r).len() by {
                if a2.len() >= low {
                    assert(!marked[n - 1 - a2.len()]);
                }
            }
        }
    }
}

/// Resolving a file whose folder is not remembered yet remembers the answer
/// for every directory walked through: each directory between the answer
/// and the folder, inside the watched root and not above the top, is
/// remembered with the answer; every directory remembered before stays
/// remembered, those not walked through keep their answers, and nothing
/// else is added.
#[verifier::spinoff_prover]
#[verifier::rlimit(60)]
pub proof fn lemma_resolve_remembers_walk(
    m: Map<Seq<Seq<char>>, Seq<char>>,
    file: Seq<char>,
    boundary: Seq<char>,
    marked: Seq<bool>,
)
    requires
        parent_of(file) is Some,
        !m.contains_key(components_of(parent_of(file)->0)),
        marked.len() == resolve_chain(file, boundary).len(),
    ensures
        ({
            let d = components_of(parent_of(file)->0);
            let b = components_of(boundary);
            let (r, after) = resolve_outcome(m, file, boundary, marked);
            let walked = |a: Seq<Seq<char>>|
                in_scope(a, d, b) && is_prefix(components_of(r), a) && a.len() >= floor_of(d);
            &&& forall|a: Seq<Seq<char>>| #[trigger] walked(a) ==> after.contains_key(a) && after[a] == r
            &&& forall|a: Seq<Seq<char>>| #[trigger] m.contains_key(a) ==> after.contains_key(a)
            &&& forall|a: Seq<Seq<char>>| #[trigger] after.contains_key(a) && !m.contains_key(a) ==> walked(a)
            &&& forall|a: Seq<Seq<char>>| #[trigger] m.contains_key(a) && !walked(a) ==> after[a] == m[a]
        }),
{
    let c = components_of(file);
    let b = components_of(boundary);
    let n = c.len() as int;
    let chain = resolve_chain(file, boundary);
    let k = first_true(marked);
    lemma_first_true(marked);
    lemma_chain_shape(file, boundary);
    lemma_parent_components(file);
    lemma_components_well_formed(file);
    let d = components_of(parent_of(file)->0);
    assert(d =~= c.take(n - 1));
    let (r, after) = resolve_outcome(m, file, boundary, marked);
    let low = if b.len() > floor_of(c) {
        b.len() as int
    } else {
        floor_of(c)
    };
    let walked = |a: Seq<Seq<char>>| in_scope(a, d, b) && is_prefix(components_of(r), a) && a.len() >= floor_of(d);
    if n >= 2 {
        assert(d[0] == c[0]);
    } else if floor_of(c) == 1 {
        assert(c.last() == c[0]);
    }
    assert(floor_of(d) == floor_of(c));
    let count = if k < chain.len() {
        k + 1
    } else {
        chain.len() as int
    };
    let keys = keys_of(chain.take(count));
    let v = if k < chain.len() {
        chain[k]
    } else {
        boundary
    };
    if k >= chain.len() {
        assert(chain.take(chain.len() as int) =~= chain);
    }
    assert(after == fill(m, keys, v));
    assert(r == v);
    lemma_fill_dom(m, keys, v);
    // The walked keys are the directories between the answer and the folder.
    assert forall|j: int| 0 <= j < keys.len() implies #[trigger] keys[j] == c.take(n - 1 - j) && walked(keys[j]) by {
        assert(keys[j] == components_of(chain[j]));
        let a = keys[j];
        assert(is_prefix(a, d)) by {
            assert(d.take(n - 1 - j) =~= c.take(n - 1 - j));
        }
        assert(is_prefix(b, a)) by {
            assert(c.take(n - 1 - j).take(b.len() as int) =~= c.take(n - 1).take(b.len() as int));
        }
        if k < chain.len() {
            assert(components_of(r) == c.take(n - 1 - k));
            assert(c.take(n - 1 - j).take(n - 1 - k) =~= c.take(n - 1 - k));
        } else {
            assert(c.take(n - 1 - j).take(b.len() as int) =~= c.take(n - 1).take(b.len() as int));
        }
    }
    assert forall|a: Seq<Seq<char>>| #[trigger] walked(a) implies after.contains_key(a) && after[a] == r by {
        assert(b =~= d.take(b.len() as int)) by {
            assert(b =~= a.take(b.len() as int));
        }
        assert(chain.len() > 0) by {
            assert(c.take(n - 1) =~= d);
        }
        assert(a =~= c.take(a.len() as int)) by {
            assert(d.take(a.len() as int) =~= c.take(a.len() as int));
        }
        let j = n - 1 - a.len();
        if k < chain.len() {
            assert(components_of(r) == c.take(n - 1 - k));
            assert(a.len() >= n - 1 - k);
        } else {
            assert(a.len() >= low);
        }
        assert(0 <= j < keys.len());
        assert(keys[j] == c.take(n - 1 - j));
        lemma_fill(m, keys, v, j);
    }
    assert forall|a: Seq<Seq<char>>| #[trigger] after.contains_key(a) && !m.contains_key(a) implies walked(a) by {
        assert(keys.to_set().contains(a));
        let j = choose|j: int| 0 <= j < keys.len() && keys[j] == a;
        assert(walked(keys[j]));
    }
    assert forall|a: Seq<Seq<char>>| #[trigger] m.contains_key(a) && !walked(a) implies after[a] == m[a] by {
        if keys.contains(a) {
            let j = choose|j: int| 0 <= j < keys.len() && keys[j] == a;
            assert(walked(keys[j]));
        }
    }
}

/// The facts about the walk that the laws below share: each walked
/// directory has the file's components up to some point, and the walk ends
/// at the watched root or at the top.
proof fn lemma_chain_shape(file: Seq<char>, boundary: Seq<char>)
    ensures
        ({
            let c = components_of(file);
            let b = components_of(boundary);
            let n = c.len() as int;
            let chain = resolve_chain(file, boundary);
            let low = if b.len() > floor_of(c) {
                b.len() as int
            } else {
                floor_of(c)
            };
            &&& chain.len() > 0 ==> chain.len() == n - low && is_prefix(b, c.take(n - 1))
            &&& forall|j: int| 0 <= j < chain.len() ==> components_of(#[trigger] chain[j]) == c.take(n - 1 - j)
            &&& forall|j: int| 0 <= j < chain.len() - 1 ==> parent_of(#[trigger] chain[j]) == Some(chain[j + 1])
            &&& chain.len() > 0 && low == floor_of(c) ==> parent_of(chain.last()) is None
            &&& chain.len() > 0 && low > floor_of(c) ==> parent_of(chain.last()) is Some
                && components_of(parent_of(chain.last())->0) == c.take(low - 1)
        }),
{
    let c = components_of(file);
    let b = components_of(boundary);
    let n = c.len() as int;
    let chain = resolve_chain(file, boundary);
    lemma_components_well_formed(file);
    if n > 0 && c.last() != seq!['/'] && is_prefix(b, c.take(n - 1)) {
        let low = if b.len() > floor_of(c) {
            b.len() as int
        } else {
            floor_of(c)
        };
        let dir = parent_of(file)->0;
        lemma_parent_components(file);
        let cd = components_of(dir);
        assert(cd =~= c.take(n - 1));
        if floor_of(c) == 1 {
            assert(n >= 2) by {
                if n == 1 {
                    assert(c.last() == c[0]);
                }
            }
            assert(cd[0] == c[0]);
        }
        assert(floor_of(cd) == floor_of(c));
        assert forall|j: int| 0 <= j < chain.len() implies components_of(#[trigger] chain[j]) == c.take(n - 1 - j) by {
            lemma_up_from(dir, j as nat);
            assert(cd.take(n - 1 - j) =~= c.take(n - 1 - j));
        }
        assert forall|j: int| 0 <= j < chain.len() - 1 implies parent_of(#[trigger] chain[j]) == Some(chain[j + 1]) by {
            lemma_up_from(dir, j as nat);
        }
        let last = n - low - 1;
        lemma_up_from(dir, last as nat);
        assert(chain.last() == up_from(dir, last as nat));
        if low > floor_of(c) {
            lemma_parent_components(chain.last());
            assert(c.take(low).drop_last() =~= c.take(low - 1));
        }
    }
}

/// The walk goes up one parent at a time from the file's folder, stays
/// inside the watched root, and stops where the next parent is missing or
/// lies outside it; when the file's folder is outside the watched root,
/// nothing is walked.
pub proof fn lemma_chain_walks_parents(file: Seq<char>, boundary: Seq<char>)
    ensures
        ({
            let chain = resolve_chain(file, boundary);
            &&& chain.len() > 0 ==> parent_of(file) == Some(chain[0])
            &&& forall|j: int| 0 <= j < chain.len() - 1 ==> parent_of(#[trigger] chain[j]) == Some(chain[j + 1])
            &&& forall|j: int| 0 <= j < chain.len() ==> starts_with_of(#[trigger] chain[j], boundary)
            &&& chain.len() > 0 ==> match parent_of(chain.last()) {
                Some(up) => !starts_with_of(up, boundary),
                None => true,
            }
            &&& chain.len() == 0 ==> match parent_of(file) {
                Some(dir) => !starts_with_of(dir, boundary),
                None => true,
            }
        }),
{
    let c = components_of(file);
    let b = components_of(boundary);
    let n = c.len() as int;
    let chain = resolve_chain(file, boundary);
    lemma_chain_shape(file, boundary);
    if chain.len() > 0 {
        lemma_chain_start(file, boundary);
        assert forall|j: int| 0 <= j < chain.len() implies starts_with_of(#[trigger] chain[j], boundary) by {
            assert(components_of(chain[j]) == c.take(n - 1 - j));
            assert(c.take(n - 1 - j).take(b.len() as int) =~= c.take(n - 1).take(b.len() as int));
        }
    } else if parent_of(file) is Some {
        lemma_parent_components(file);
        assert(c.take(n - 1) =~= c.drop_last());
        lemma_components_well_formed(file);
        if is_prefix(b, c.take(n - 1)) {
            if floor_of(c) == 1 {
                assert(n >= 2) by {
                    if n == 1 {
                        assert(c.last() == c[0]);
                    }
                }
            }
            assert(false);
        }
    }
}

/// Every walked directory holds the file's folder, and each lies one
/// component further up than the one before: the walk meets the folder's
/// ancestors inside the watched root nearest first, so the first marked
/// one is the nearest marked ancestor.
pub proof fn lemma_chain_ancestors(file: Seq<char>, boundary: Seq<char>)
    ensures
        ({
            let chain = resolve_chain(file, boundary);
            forall|j: int| 0 <= j < chain.len() ==> starts_with_of(parent_of(file)->0, #[trigger] chain[j])
                && components_of(chain[j]).len() + j == components_of(parent_of(file)->0).len()
        }),
{
    let c = components_of(file);
    let n = c.len() as int;
    let chain = resolve_chain(file, boundary);
    lemma_chain_shape(file, boundary);
    if chain.len() > 0 {
        lemma_chain_start(file, boundary);
        lemma_parent_components(file);
        assert forall|j: int| 0 <= j < chain.len() implies starts_with_of(parent_of(file)->0, #[trigger] chain[j])
            && components_of(chain[j]).len() + j == components_of(parent_of(file)->0).len() by {
            assert(components_of(chain[j]) == c.take(n - 1 - j));
            assert(c.drop_last().take(n - 1 - j) =~= c.take(n - 1 - j));
        }
    }
}

} // verus!
