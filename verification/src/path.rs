//! Paths as text, read the way a Unix path is read: split at '/', empty
//! pieces and "." pieces dropped, a leading '/' kept as the root component
//! and a leading "." kept as the current-directory component. Paths are
//! compared by their components; a parent or the rest after a prefix is cut
//! from the text itself, so it keeps the spelling it had ("/a//b/c" has the
//! parent "/a//b").

use vstd::prelude::*;

verus! {

/// The characters of each string of a sequence.
pub open spec fn texts(v: Seq<String>) -> Seq<Seq<char>> {
    v.map_values(|x: String| x@)
}

/// The text cut at every '/': `n` separators give `n + 1` pieces.
pub open spec fn segments(s: Seq<char>) -> Seq<Seq<char>>
    decreases s.len(),
{
    if s.len() == 0 {
        seq![Seq::empty()]
    } else {
        let init = segments(s.drop_last());
        if s.last() == '/' {
            init.push(Seq::empty())
        } else {
            init.update(init.len() - 1, init.last().push(s.last()))
        }
    }
}

/// A piece that names something: neither empty nor ".".
pub open spec fn named_piece(seg: Seq<char>) -> bool {
    seg.len() > 0 && seg != seq!['.']
}

/// The pieces that name something, in order.
pub open spec fn named_pieces(segs: Seq<Seq<char>>) -> Seq<Seq<char>>
    decreases segs.len(),
{
    if segs.len() == 0 {
        Seq::empty()
    } else {
        let init = named_pieces(segs.drop_last());
        if named_piece(segs.last()) {
            init.push(segs.last())
        } else {
            init
        }
    }
}

/// The component in front of the named pieces: "/" for an absolute path,
/// "." for a path that starts with the current directory.
pub open spec fn leading(s: Seq<char>) -> Seq<Seq<char>> {
    if s.len() > 0 && s[0] == '/' {
        seq![seq!['/']]
    } else if s.len() > 0 && s[0] == '.' && (s.len() == 1 || s[1] == '/') {
        seq![seq!['.']]
    } else {
        Seq::empty()
    }
}

/// The components of a path.
pub open spec fn components_of(s: Seq<char>) -> Seq<Seq<char>> {
    leading(s) + named_pieces(segments(s))
}

/// A component that names an entry (not the root, ".", or "..").
pub open spec fn is_normal(c: Seq<char>) -> bool {
    c != seq!['/'] && c != seq!['.'] && c != seq!['.', '.']
}

/// Whether the text ends with a "." piece: a '.' at the start or after a '/'.
pub open spec fn ends_with_dot_piece(s: Seq<char>) -> bool {
    s.len() > 0 && s.last() == '.' && (s.len() == 1 || s[s.len() - 2] == '/')
}

/// Whether the text starts with a "." piece: a '.' at the end or before a '/'.
pub open spec fn starts_with_dot_piece(s: Seq<char>) -> bool {
    s.len() > 0 && s[0] == '.' && (s.len() == 1 || s[1] == '/')
}

/// The text without its trailing '/' characters and "." pieces, never
/// shorter than `floor` characters.
pub open spec fn trim_end(s: Seq<char>, floor: int) -> Seq<char>
    decreases s.len(),
{
    if s.len() > 0 && s.len() > floor && (s.last() == '/' || ends_with_dot_piece(s)) {
        trim_end(s.drop_last(), floor)
    } else {
        s
    }
}

/// The text without the characters of its last piece.
pub open spec fn drop_last_piece(s: Seq<char>) -> Seq<char>
    decreases s.len(),
{
    if s.len() > 0 && s.last() != '/' {
        drop_last_piece(s.drop_last())
    } else {
        s
    }
}

/// The text without its leading '/' characters and "." pieces.
pub open spec fn trim_start(s: Seq<char>) -> Seq<char>
    decreases s.len(),
{
    if s.len() > 0 && (s[0] == '/' || starts_with_dot_piece(s)) {
        trim_start(s.drop_first())
    } else {
        s
    }
}

/// The text without the characters of its first piece.
pub open spec fn drop_first_piece(s: Seq<char>) -> Seq<char>
    decreases s.len(),
{
    if s.len() > 0 && s[0] != '/' {
        drop_first_piece(s.drop_first())
    } else {
        s
    }
}

/// The text after its first `k` named pieces.
pub open spec fn skip_pieces(s: Seq<char>, k: nat) -> Seq<char>
    decreases k,
{
    if k == 0 {
        s
    } else {
        drop_first_piece(trim_start(skip_pieces(s, (k - 1) as nat)))
    }
}

/// The path without its last component, cut from the text itself: the last
/// component goes, with the separators and "." pieces after it and before
/// it, but never the root or a leading "."; none for the root alone or an
/// empty path.
pub open spec fn parent_of(s: Seq<char>) -> Option<Seq<char>> {
    let c = components_of(s);
    let f = leading(s).len() as int;
    if c.len() > 0 && c.last() != seq!['/'] {
        let t = trim_end(s, f);
        if t.len() > f {
            Some(trim_end(drop_last_piece(t), f))
        } else {
            Some(Seq::empty())
        }
    } else {
        None
    }
}

/// The last component, when it names an entry.
pub open spec fn file_name_of(s: Seq<char>) -> Option<Seq<char>> {
    let c = components_of(s);
    if c.len() > 0 && is_normal(c.last()) {
        Some(c.last())
    } else {
        None
    }
}

/// Index of the last '.' in a name, or -1.
pub open spec fn last_dot(name: Seq<char>) -> int
    decreases name.len(),
{
    if name.len() == 0 {
        -1
    } else if name.last() == '.' {
        name.len() - 1
    } else {
        last_dot(name.drop_last())
    }
}

/// What follows the last '.' of a name, unless that '.' is its first character.
pub open spec fn extension_of(name: Seq<char>) -> Option<Seq<char>> {
    let k = last_dot(name);
    if k > 0 {
        Some(name.subrange(k + 1, name.len() as int))
    } else {
        None
    }
}

/// A name without its extension.
pub open spec fn stem_of(name: Seq<char>) -> Seq<char> {
    let k = last_dot(name);
    if k > 0 {
        name.take(k)
    } else {
        name
    }
}

/// `p` appended to `base`: an absolute `p` replaces `base`, otherwise one '/'
/// goes between them unless `base` is empty or already ends with one.
pub open spec fn join_of(base: Seq<char>, p: Seq<char>) -> Seq<char> {
    if p.len() > 0 && p[0] == '/' {
        p
    } else if base.len() > 0 && base.last() != '/' {
        base + seq!['/'] + p
    } else {
        base + p
    }
}

/// Whether `a` is a prefix of `b`.
pub open spec fn is_prefix<A>(a: Seq<A>, b: Seq<A>) -> bool {
    a.len() <= b.len() && b.take(a.len() as int) == a
}

/// Whether the components of `base` begin the components of `s`.
pub open spec fn starts_with_of(s: Seq<char>, base: Seq<char>) -> bool {
    is_prefix(components_of(base), components_of(s))
}

/// The rest of `s` after the components of `base`, cut from the text of
/// `s`: when `base` has no components, `s` without its trailing separators
/// and "." pieces; otherwise what follows the matched components, without
/// separators and "." pieces at either end.
pub open spec fn strip_prefix_of(s: Seq<char>, base: Seq<char>) -> Option<Seq<char>> {
    if starts_with_of(s, base) {
        let kb = components_of(base).len();
        let l = leading(s).len();
        if kb == 0 {
            Some(trim_end(s, l as int))
        } else {
            Some(trim_end(trim_start(skip_pieces(s.skip(l as int), (kb - l) as nat)), 0))
        }
    } else {
        None
    }
}

/// Whether two paths have the same components.
pub open spec fn same_path(a: Seq<char>, b: Seq<char>) -> bool {
    components_of(a) == components_of(b)
}

/// Every text has at least one piece.
pub proof fn lemma_segments_nonempty(s: Seq<char>)
    ensures
        segments(s).len() >= 1,
    decreases s.len(),
{
    if s.len() > 0 {
        lemma_segments_nonempty(s.drop_last());
    }
}

/// A piece of text from `start` to `end` as a new string.
fn piece(s: &str, start: usize, end: usize) -> (r: String)
    requires
        start <= end <= s@.len(),
    ensures
        r@ == s@.subrange(start as int, end as int),
{
    String::from_str(s.substring_char(start, end))
}

/// The components of a path.
pub fn components(s: &str) -> (r: Vec<String>)
    ensures
        texts(r@) == components_of(s@),
{
    let n = s.unicode_len();
    let mut r: Vec<String> = Vec::new();
    if n > 0 && s.get_char(0) == '/' {
        let p = piece(s, 0, 1);
        proof {
            assert(p@ =~= seq!['/']);
        }
        r.push(p);
    } else if n > 0 && s.get_char(0) == '.' && (n == 1 || s.get_char(1) == '/') {
        let p = piece(s, 0, 1);
        proof {
            assert(p@ =~= seq!['.']);
        }
        r.push(p);
    }
    assert(texts(r@) =~= leading(s@));
    let mut start: usize = 0;
    let mut i: usize = 0;
    proof {
        assert(s@.take(0) =~= Seq::<char>::empty());
    }
    while i < n
        invariant
            n == s@.len(),
            start <= i <= n,
            segments(s@.take(i as int)).len() >= 1,
            segments(s@.take(i as int)).last() == s@.subrange(start as int, i as int),
            texts(r@) == leading(s@) + named_pieces(segments(s@.take(i as int)).drop_last()),
        decreases n - i,
    {
        let c = s.get_char(i);
        let ghost segs = segments(s@.take(i as int));
        proof {
            assert(s@.take(i + 1).drop_last() =~= s@.take(i as int));
            lemma_segments_nonempty(s@.take(i + 1));
        }
        if c == '/' {
            let len = i - start;
            if len > 0 && !(len == 1 && s.get_char(start) == '.') {
                let p = piece(s, start, i);
                let ghost before = r@;
                r.push(p);
                proof {
                    assert(texts(r@) =~= texts(before).push(p@));
                }
                proof {
                    assert(segs.last().len() == len);
                    if len == 1 {
                        assert(segs.last()[0] != '.');
                    }
                    assert(named_piece(segs.last()));
                }
            } else {
                proof {
                    assert(!named_piece(segs.last())) by {
                        if len == 1 {
                            assert(segs.last() =~= seq!['.']);
                        }
                    }
                }
            }
            proof {
                assert(segments(s@.take(i + 1)) == segs.push(Seq::empty()));
                assert(segments(s@.take(i + 1)).drop_last() =~= segs);
                assert(named_pieces(segs) == if named_piece(segs.last()) {
                    named_pieces(segs.drop_last()).push(segs.last())
                } else {
                    named_pieces(segs.drop_last())
                });
                assert(texts(r@) =~= leading(s@) + named_pieces(segs));
                assert(s@.subrange(i + 1, i + 1) =~= Seq::<char>::empty());
            }
            start = i + 1;
        } else {
            proof {
                let next = segs.update(segs.len() - 1, segs.last().push(c));
                assert(segments(s@.take(i + 1)) == next);
                assert(next.drop_last() =~= segs.drop_last());
                assert(s@.subrange(start as int, i + 1) =~= s@.subrange(start as int, i as int).push(c));
            }
        }
        i = i + 1;
    }
    proof {
        assert(s@.take(n as int) =~= s@);
    }
    let ghost segs = segments(s@);
    let len = n - start;
    if len > 0 && !(len == 1 && s.get_char(start) == '.') {
        let p = piece(s, start, n);
        let ghost before = r@;
        r.push(p);
        proof {
            assert(texts(r@) =~= texts(before).push(p@));
        }
        proof {
            assert(segs.last().len() == len);
            if len == 1 {
                assert(segs.last()[0] != '.');
            }
            assert(named_piece(segs.last()));
            assert(named_pieces(segs) == named_pieces(segs.drop_last()).push(segs.last()));
            assert(texts(r@) =~= leading(s@) + named_pieces(segs));
        }
    } else {
        proof {
            assert(!named_piece(segs.last())) by {
                if len == 1 {
                    assert(segs.last() =~= seq!['.']);
                }
            }
            assert(named_pieces(segs) == named_pieces(segs.drop_last()));
            assert(texts(r@) =~= leading(s@) + named_pieces(segs));
        }
    }
    r
}


/// `p` appended to `base` as a path.
pub fn join(base: &str, p: &str) -> (r: String)
    ensures
        r@ == join_of(base@, p@),
{
    let pn = p.unicode_len();
    if pn > 0 && p.get_char(0) == '/' {
        return String::from_str(p);
    }
    let bn = base.unicode_len();
    let mut out = String::from_str(base);
    if bn > 0 && base.get_char(bn - 1) != '/' {
        out.append("/");
        proof {
            reveal_strlit("/");
        }
    }
    out.append(p);
    out
}

/// Whether a component is the root component.
pub fn is_root_component(c: &String) -> (r: bool)
    ensures
        r == (c@ == seq!['/']),
{
    let n = c.as_str().unicode_len();
    if n == 1 {
        let ch = c.as_str().get_char(0);
        proof {
            assert(c@ =~= seq![ch]);
        }
        ch == '/'
    } else {
        false
    }
}

/// Whether the strings of `a` begin the strings of `b`.
pub fn texts_prefix(a: &Vec<String>, b: &Vec<String>) -> (r: bool)
    ensures
        r == is_prefix(texts(a@), texts(b@)),
{
    if a.len() > b.len() {
        return false;
    }
    let mut i: usize = 0;
    while i < a.len()
        invariant
            a@.len() <= b@.len(),
            i <= a@.len(),
            forall|j: int| 0 <= j < i ==> a@[j]@ == b@[j]@,
        decreases a@.len() - i,
    {
        if a[i] != b[i] {
            proof {
                assert(texts(b@).take(a@.len() as int)[i as int] != texts(a@)[i as int]);
            }
            return false;
        }
        i = i + 1;
    }
    assert(texts(b@).take(a@.len() as int) =~= texts(a@));
    true
}

/// Whether a component names an entry.
fn is_normal_component(c: &String) -> (r: bool)
    ensures
        r == is_normal(c@),
{
    let n = c.as_str().unicode_len();
    if n == 1 {
        let ch = c.as_str().get_char(0);
        proof {
            assert(c@ =~= seq![ch]);
        }
        ch != '/' && ch != '.'
    } else if n == 2 {
        let c0 = c.as_str().get_char(0);
        let c1 = c.as_str().get_char(1);
        let both_dots = c0 == '.' && c1 == '.';
        proof {
            assert(c@ =~= seq![c0, c1]);
        }
        !both_dots
    } else {
        true
    }
}

/// The last component, when it names an entry.
pub fn file_name(s: &str) -> (r: Option<String>)
    ensures
        r matches Some(f) ==> file_name_of(s@) == Some(f@),
        r is None ==> file_name_of(s@) is None,
{
    let cs = components(s);
    let n = cs.len();
    if n > 0 && is_normal_component(&cs[n - 1]) {
        Some(String::from_str(cs[n - 1].as_str()))
    } else {
        None
    }
}

/// Index of the last '.' of a name.
fn last_dot_index(name: &str) -> (r: Option<usize>)
    ensures
        r matches Some(k) ==> last_dot(name@) == k as int && k < name@.len(),
        r is None ==> last_dot(name@) == -1,
{
    let n = name.unicode_len();
    let mut found: Option<usize> = None;
    let mut i: usize = 0;
    proof {
        assert(name@.take(0) =~= Seq::<char>::empty());
    }
    while i < n
        invariant
            n == name@.len(),
            i <= n,
            found matches Some(k) ==> last_dot(name@.take(i as int)) == k as int && k < i,
            found is None ==> last_dot(name@.take(i as int)) == -1,
        decreases n - i,
    {
        proof {
            assert(name@.take(i + 1).drop_last() =~= name@.take(i as int));
        }
        if name.get_char(i) == '.' {
            found = Some(i);
        }
        i = i + 1;
    }
    proof {
        assert(name@.take(n as int) =~= name@);
    }
    found
}

/// What follows the last '.' of a name, unless that '.' starts the name.
pub fn extension(name: &str) -> (r: Option<String>)
    ensures
        r matches Some(e) ==> extension_of(name@) == Some(e@),
        r is None ==> extension_of(name@) is None,
{
    match last_dot_index(name) {
        Some(k) => {
            if k > 0 {
                let n = name.unicode_len();
                Some(piece(name, k + 1, n))
            } else {
                None
            }
        },
        None => None,
    }
}

/// A name without its extension.
pub fn stem(name: &str) -> (r: String)
    ensures
        r@ == stem_of(name@),
{
    match last_dot_index(name) {
        Some(k) => {
            if k > 0 {
                piece(name, 0, k)
            } else {
                String::from_str(name)
            }
        },
        None => String::from_str(name),
    }
}

/// Whether the components of `base` begin the components of `s`.
pub fn starts_with(s: &str, base: &str) -> (r: bool)
    ensures
        r == starts_with_of(s@, base@),
{
    let cs = components(s);
    let cb = components(base);
    texts_prefix(&cb, &cs)
}

/// Whether two paths have the same components.
pub fn path_eq(a: &str, b: &str) -> (r: bool)
    ensures
        r == same_path(a@, b@),
{
    let ca = components(a);
    let cb = components(b);
    if ca.len() != cb.len() {
        proof {
            assert(texts(ca@).len() != texts(cb@).len());
        }
        return false;
    }
    let r = texts_prefix(&ca, &cb);
    proof {
        assert(texts(cb@).take(texts(ca@).len() as int) =~= texts(cb@));
    }
    r
}


/// How far up `parent` can go: one component for an absolute path (the root
/// itself), none otherwise.
pub open spec fn floor_of(c: Seq<Seq<char>>) -> int {
    if c.len() > 0 && c[0] == seq!['/'] {
        1
    } else {
        0
    }
}

/// Index of the first `true`, or the length when there is none.
pub open spec fn first_true(m: Seq<bool>) -> int
    decreases m.len(),
{
    if m.len() == 0 {
        0
    } else if m[0] {
        0
    } else {
        1 + first_true(m.drop_first())
    }
}

/// The first `true` is `true`, and nothing before it is.
pub proof fn lemma_first_true(m: Seq<bool>)
    ensures
        0 <= first_true(m) <= m.len(),
        first_true(m) < m.len() ==> m[first_true(m)],
        forall|i: int| 0 <= i < first_true(m) ==> !#[trigger] m[i],
    decreases m.len(),
{
    if m.len() > 0 && !m[0] {
        lemma_first_true(m.drop_first());
        assert forall|i: int| 0 <= i < first_true(m) implies !#[trigger] m[i] by {
            if i > 0 {
                assert(m[i] == m.drop_first()[i - 1]);
            }
        }
    }
}

/// Whether the first component is the root.
pub fn floor_index(cs: &Vec<String>) -> (r: usize)
    ensures
        r == floor_of(texts(cs@)),
{
    if cs.len() > 0 && is_root_component(&cs[0]) {
        1
    } else {
        0
    }
}

/// Index of the first `true`, or the length when there is none.
pub fn first_marked(m: &Vec<bool>) -> (r: usize)
    ensures
        r == first_true(m@),
{
    let mut i: usize = 0;
    proof {
        assert(m@.skip(0) =~= m@);
    }
    while i < m.len() && !m[i]
        invariant
            i <= m@.len(),
            first_true(m@) == i + first_true(m@.skip(i as int)),
        decreases m@.len() - i,
    {
        proof {
            assert(m@.skip(i as int).drop_first() =~= m@.skip(i + 1));
        }
        i = i + 1;
    }
    i
}


/// A piece without '/'.
pub open spec fn no_slash(p: Seq<char>) -> bool {
    forall|i: int| 0 <= i < p.len() ==> #[trigger] p[i] != '/'
}

/// Components as `components_of` gives them: the root "/" or a piece
/// without '/' first, then pieces that name something and hold no '/'.
pub open spec fn well_formed(cs: Seq<Seq<char>>) -> bool {
    &&& cs.len() > 0 ==> (cs[0] == seq!['/'] || (cs[0].len() > 0 && no_slash(cs[0])))
    &&& forall|i: int| 1 <= i < cs.len() ==> named_piece(#[trigger] cs[i]) && no_slash(cs[i])
}

proof fn lemma_segments_no_slash(s: Seq<char>)
    ensures
        forall|i: int| 0 <= i < segments(s).len() ==> no_slash(#[trigger] segments(s)[i]),
    decreases s.len(),
{
    if s.len() > 0 {
        lemma_segments_no_slash(s.drop_last());
        lemma_segments_nonempty(s.drop_last());
        let init = segments(s.drop_last());
        if s.last() != '/' {
            let last = init.last().push(s.last());
            assert(no_slash(init[init.len() - 1]));
            assert(no_slash(last)) by {
                assert forall|i: int| 0 <= i < last.len() implies #[trigger] last[i] != '/' by {
                    if i < init.last().len() {
                        assert(last[i] == init.last()[i]);
                    }
                }
            }
            assert forall|i: int| 0 <= i < segments(s).len() implies no_slash(#[trigger] segments(s)[i]) by {
                if i < init.len() - 1 {
                    assert(segments(s)[i] == init[i]);
                }
            }
        } else {
            assert forall|i: int| 0 <= i < segments(s).len() implies no_slash(#[trigger] segments(s)[i]) by {
                if i < init.len() {
                    assert(segments(s)[i] == init[i]);
                } else {
                    assert(segments(s)[i] =~= Seq::<char>::empty());
                }
            }
        }
    }
}

proof fn lemma_named_pieces_from(segs: Seq<Seq<char>>)
    requires
        forall|i: int| 0 <= i < segs.len() ==> no_slash(#[trigger] segs[i]),
    ensures
        forall|i: int| 0 <= i < named_pieces(segs).len() ==> named_piece(#[trigger] named_pieces(segs)[i])
            && no_slash(named_pieces(segs)[i]),
    decreases segs.len(),
{
    if segs.len() > 0 {
        let init = segs.drop_last();
        assert forall|i: int| 0 <= i < init.len() implies no_slash(#[trigger] init[i]) by {
            assert(init[i] == segs[i]);
        }
        lemma_named_pieces_from(init);
        assert(no_slash(segs[segs.len() - 1]));
        let np = named_pieces(segs);
        let ni = named_pieces(init);
        assert forall|i: int| 0 <= i < np.len() implies named_piece(#[trigger] np[i]) && no_slash(np[i]) by {
            if i < ni.len() {
                assert(np[i] == ni[i]);
            }
        }
    }
}

/// The components of any path are well formed.
pub proof fn lemma_components_well_formed(s: Seq<char>)
    ensures
        well_formed(components_of(s)),
{
    lemma_segments_no_slash(s);
    lemma_named_pieces_from(segments(s));
    let c = components_of(s);
    let l = leading(s);
    let np = named_pieces(segments(s));
    assert forall|i: int| 1 <= i < c.len() implies named_piece(#[trigger] c[i]) && no_slash(c[i]) by {
        if l.len() == 0 {
            assert(c[i] == np[i]);
        } else {
            assert(c[i] == np[i - 1]);
        }
    }
    if c.len() > 0 && l.len() == 0 {
        assert(c[0] == np[0]);
    }
    if l.len() > 0 && l[0] == seq!['.'] {
        assert(c[0] == seq!['.']);
        assert(no_slash(seq!['.']));
    }
}


/// Cutting a text short keeps its leading component, unless the cut leaves
/// only a '.' that began a longer name.
proof fn lemma_leading_take(s: Seq<char>, m: int)
    requires
        1 <= m <= s.len(),
        m >= 2 || !(s[0] == '.' && s.len() >= 2 && s[1] != '/'),
    ensures
        leading(s.take(m)) == leading(s),
{
    let t = s.take(m);
    assert(t[0] == s[0]);
    if m >= 2 {
        assert(t[1] == s[1]);
    }
}

/// Trimming separators and "." pieces off the end keeps the components and
/// the leading component, and cuts no further than the leading component.
proof fn lemma_trim_end(s: Seq<char>)
    ensures
        ({
            let t = trim_end(s, leading(s).len() as int);
            &&& leading(s).len() <= t.len() <= s.len()
            &&& t == s.take(t.len() as int)
            &&& leading(t) == leading(s)
            &&& components_of(t) == components_of(s)
            &&& t.len() > leading(s).len() ==> !(t.last() == '/' || ends_with_dot_piece(t))
        }),
    decreases s.len(),
{
    let f = leading(s).len() as int;
    if s.len() > f && (s.last() == '/' || ends_with_dot_piece(s)) {
        let u = s.drop_last();
        if u.len() >= 1 {
            lemma_leading_take(s, u.len() as int);
            assert(s.take(u.len() as int) =~= u);
        }
        assert(leading(u) == leading(s));
        lemma_segments_nonempty(u);
        let su = segments(u);
        let ss = segments(s);
        if s.last() == '/' {
            assert(ss == su.push(Seq::empty()));
            assert(ss.drop_last() =~= su);
        } else {
            if u.len() > 0 {
                assert(u.last() == '/');
                assert(su == segments(u.drop_last()).push(Seq::empty()));
            }
            assert(su.last() =~= Seq::<char>::empty());
            assert(ss == su.update(su.len() - 1, su.last().push('.')));
            assert(ss.drop_last() =~= su.drop_last());
            assert(ss.last() =~= seq!['.']);
        }
        lemma_trim_end(u);
        let t = trim_end(s, f);
        assert(t == trim_end(u, f));
        assert(s.take(t.len() as int) =~= u.take(t.len() as int));
    } else {
        assert(s.take(s.len() as int) =~= s);
    }
}

/// Dropping the last piece leaves text that is empty or ends with '/', and
/// cuts the pieces of the text at the same place.
proof fn lemma_drop_last_piece(t: Seq<char>)
    ensures
        ({
            let w = drop_last_piece(t);
            &&& w.len() <= t.len()
            &&& w == t.take(w.len() as int)
            &&& w.len() == 0 || w.last() == '/'
            &&& forall|i: int| w.len() <= i < t.len() ==> #[trigger] t[i] != '/'
            &&& segments(w).len() >= 1
            &&& segments(w).last() == Seq::<char>::empty()
            &&& segments(t) == segments(w).drop_last().push(t.subrange(w.len() as int, t.len() as int))
        }),
    decreases t.len(),
{
    let w = drop_last_piece(t);
    lemma_segments_nonempty(w);
    if t.len() > 0 && t.last() != '/' {
        let u = t.drop_last();
        lemma_drop_last_piece(u);
        assert(w == drop_last_piece(u));
        assert(t.take(w.len() as int) =~= u.take(w.len() as int));
        assert forall|i: int| w.len() <= i < t.len() implies #[trigger] t[i] != '/' by {
            if i < u.len() {
                assert(t[i] == u[i]);
            }
        }
        lemma_segments_nonempty(u);
        let su = segments(u);
        assert(segments(t) == su.update(su.len() - 1, su.last().push(t.last())));
        assert(u.subrange(w.len() as int, u.len() as int).push(t.last()) =~= t.subrange(
            w.len() as int,
            t.len() as int,
        ));
        assert(segments(t) =~= segments(w).drop_last().push(t.subrange(w.len() as int, t.len() as int)));
    } else {
        assert(t.take(t.len() as int) =~= t);
        if t.len() > 0 {
            assert(segments(t) == segments(t.drop_last()).push(Seq::empty()));
        }
        assert(segments(w).last() =~= Seq::<char>::empty());
        assert(t.subrange(t.len() as int, t.len() as int) =~= Seq::<char>::empty());
        assert(segments(t) =~= segments(w).drop_last().push(Seq::empty()));
    }
}

proof fn lemma_named_pieces_none(x: Seq<Seq<char>>)
    requires
        forall|i: int| 0 <= i < x.len() ==> !named_piece(#[trigger] x[i]),
    ensures
        named_pieces(x) == Seq::<Seq<char>>::empty(),
    decreases x.len(),
{
    if x.len() > 0 {
        let y = x.drop_last();
        assert forall|i: int| 0 <= i < y.len() implies !named_piece(#[trigger] y[i]) by {
            assert(y[i] == x[i]);
        }
        lemma_named_pieces_none(y);
        assert(!named_piece(x[x.len() - 1]));
    }
}

/// The parent of a path has its components but the last.
pub proof fn lemma_parent_components(s: Seq<char>)
    requires
        parent_of(s) is Some,
    ensures
        components_of(parent_of(s)->0) == components_of(s).drop_last(),
{
    let f = leading(s).len() as int;
    lemma_trim_end(s);
    let t = trim_end(s, f);
    if t.len() > f {
        assert(!(t.last() == '/' || ends_with_dot_piece(t)));
        lemma_drop_last_piece(t);
        let w = drop_last_piece(t);
        let p = t.subrange(w.len() as int, t.len() as int);
        assert(w.len() < t.len());
        assert(named_piece(p)) by {
            if p == seq!['.'] {
                assert(p.len() == 1);
                assert(t.last() == p[0]);
                if w.len() > 0 {
                    assert(t[t.len() - 2] == w.last());
                }
            }
        }
        let sw = segments(w);
        assert(sw =~= sw.drop_last().push(Seq::<char>::empty()));
        assert(named_pieces(sw) == named_pieces(sw.drop_last()));
        let st = segments(t);
        assert(st.drop_last() =~= sw.drop_last());
        assert(named_pieces(st) == named_pieces(sw.drop_last()).push(p));
        if w.len() >= 2 {
            lemma_leading_take(t, w.len() as int);
        } else if w.len() == 1 {
            assert(t[0] == w[0]);
            lemma_leading_take(t, 1);
        } else {
            assert(t[0] != '/');
            if t.len() >= 2 {
                assert(t[1] != '/');
            }
            assert(leading(t) =~= Seq::<Seq<char>>::empty());
            assert(leading(w) =~= Seq::<Seq<char>>::empty());
        }
        assert(leading(w) == leading(t));
        assert(components_of(w) =~= components_of(t).drop_last());
        lemma_trim_end(w);
    } else {
        if f == 0 {
            assert(t.len() == 0);
            assert(segments(t) == seq![Seq::<char>::empty()]);
            lemma_named_pieces_none(segments(t));
            assert(components_of(t).len() == 0);
        } else {
            assert(t.len() == 1);
            assert(t =~= seq![t[0]]);
            assert(t.drop_last() =~= Seq::<char>::empty());
            assert(segments(t.drop_last()) == seq![Seq::<char>::empty()]);
            if t[0] == '/' {
                assert(segments(t) =~= seq![Seq::<char>::empty(), Seq::<char>::empty()]);
                lemma_named_pieces_none(segments(t));
                assert(components_of(t) =~= seq![seq!['/']]);
            } else {
                assert(t[0] == '.');
                assert(segments(t) =~= seq![seq!['.']]);
                lemma_named_pieces_none(segments(t));
                assert(components_of(t) =~= seq![seq!['.']]);
            }
            let e = Seq::<char>::empty();
            assert(segments(e) == seq![e]);
            lemma_named_pieces_none(segments(e));
            assert(components_of(e) =~= components_of(s).drop_last());
        }
    }
}

/// The path `j` parents above `s` (empty once there is no parent left).
pub open spec fn up_from(s: Seq<char>, j: nat) -> Seq<char>
    decreases j,
{
    if j == 0 {
        s
    } else {
        match parent_of(up_from(s, (j - 1) as nat)) {
            Some(p) => p,
            None => Seq::empty(),
        }
    }
}

/// `s` and the paths above it, one parent at a time: `count` of them.
pub open spec fn walk_up(s: Seq<char>, count: int) -> Seq<Seq<char>> {
    Seq::new(count as nat, |j: int| up_from(s, j as nat))
}

/// Going up `j` parents from `s` drops its last `j` components, as far as
/// the root; each path on the way has the next one as its parent, and the
/// topmost one has none.
pub proof fn lemma_up_from(s: Seq<char>, j: nat)
    requires
        j <= components_of(s).len() - floor_of(components_of(s)),
    ensures
        components_of(up_from(s, j)) == components_of(s).take(components_of(s).len() - j),
        j < components_of(s).len() - floor_of(components_of(s)) ==> parent_of(up_from(s, j)) == Some(
            up_from(s, j + 1),
        ),
        j == components_of(s).len() - floor_of(components_of(s)) ==> parent_of(up_from(s, j)) is None,
    decreases j,
{
    let c = components_of(s);
    let n = c.len() as int;
    lemma_components_well_formed(s);
    if j == 0 {
        assert(c.take(n) =~= c);
    } else {
        lemma_up_from(s, (j - 1) as nat);
        lemma_parent_components(up_from(s, (j - 1) as nat));
        assert(c.take(n - j + 1).drop_last() =~= c.take(n - j));
    }
    let m = n - j;
    let cm = c.take(m);
    assert(components_of(up_from(s, j)) == cm);
    if m > floor_of(c) {
        assert(cm.last() == c[m - 1]);
        if m - 1 >= 1 {
            assert(no_slash(c[m - 1]));
            if c[m - 1] == seq!['/'] {
                assert(c[m - 1][0] == '/');
            }
        }
        assert(cm.last() != seq!['/']);
        assert(up_from(s, j + 1) == parent_of(up_from(s, j))->0);
    } else if floor_of(c) == 1 {
        assert(cm =~= seq![seq!['/']]);
    }
}

/// Each path of a walk up has the components of the first one up to some
/// point, one fewer each step, and the next path as its parent; a walk to
/// the top ends at a path with no parent.
pub proof fn lemma_walk_up(s: Seq<char>, count: int)
    requires
        0 <= count <= components_of(s).len() - floor_of(components_of(s)) + 1,
    ensures
        forall|j: int| 0 <= j < count ==> components_of(#[trigger] walk_up(s, count)[j]) == components_of(s).take(
            components_of(s).len() - j,
        ),
        forall|j: int| 0 <= j < count - 1 ==> parent_of(#[trigger] walk_up(s, count)[j]) == Some(walk_up(s, count)[j + 1]),
        count == components_of(s).len() - floor_of(components_of(s)) + 1 ==> parent_of(walk_up(s, count)[count - 1]) is None,
{
    let w = walk_up(s, count);
    assert forall|j: int| 0 <= j < count implies components_of(#[trigger] w[j]) == components_of(s).take(
        components_of(s).len() - j,
    ) by {
        lemma_up_from(s, j as nat);
    }
    assert forall|j: int| 0 <= j < count - 1 implies parent_of(#[trigger] w[j]) == Some(w[j + 1]) by {
        lemma_up_from(s, j as nat);
    }
    if count == components_of(s).len() - floor_of(components_of(s)) + 1 {
        lemma_up_from(s, (count - 1) as nat);
    }
}

/// The number of characters of the leading component.
fn leading_len(s: &str) -> (r: usize)
    ensures
        r == leading(s@).len(),
        r <= 1,
{
    let n = s.unicode_len();
    if n > 0 && s.get_char(0) == '/' {
        1
    } else if n > 0 && s.get_char(0) == '.' && (n == 1 || s.get_char(1) == '/') {
        1
    } else {
        0
    }
}

/// Where `s[lo..hi]` ends once its trailing separators and "." pieces are
/// trimmed, keeping at least `floor` characters.
fn trim_end_at(s: &str, lo: usize, hi: usize, floor: usize) -> (r: usize)
    requires
        lo <= hi <= s@.len(),
    ensures
        lo <= r <= hi,
        s@.subrange(lo as int, r as int) == trim_end(s@.subrange(lo as int, hi as int), floor as int),
{
    let mut i: usize = hi;
    while i - lo > floor && (s.get_char(i - 1) == '/' || (s.get_char(i - 1) == '.' && (i - 1 == lo
        || s.get_char(i - 2) == '/')))
        invariant
            lo <= i <= hi <= s@.len(),
            trim_end(s@.subrange(lo as int, i as int), floor as int) == trim_end(
                s@.subrange(lo as int, hi as int),
                floor as int,
            ),
        decreases i,
    {
        proof {
            let u = s@.subrange(lo as int, i as int);
            assert(u.drop_last() =~= s@.subrange(lo as int, i - 1));
            assert(u.last() == s@[i - 1]);
            if u.len() >= 2 {
                assert(u[u.len() - 2] == s@[i - 2]);
            }
        }
        i = i - 1;
    }
    proof {
        let u = s@.subrange(lo as int, i as int);
        if u.len() > 0 {
            assert(u.last() == s@[i - 1]);
            if u.len() >= 2 {
                assert(u[u.len() - 2] == s@[i - 2]);
            }
        }
    }
    i
}

/// Where `s[lo..hi]` ends once the characters of its last piece are dropped.
fn drop_last_piece_at(s: &str, lo: usize, hi: usize) -> (r: usize)
    requires
        lo <= hi <= s@.len(),
    ensures
        lo <= r <= hi,
        s@.subrange(lo as int, r as int) == drop_last_piece(s@.subrange(lo as int, hi as int)),
{
    let mut i: usize = hi;
    while i > lo && s.get_char(i - 1) != '/'
        invariant
            lo <= i <= hi <= s@.len(),
            drop_last_piece(s@.subrange(lo as int, i as int)) == drop_last_piece(
                s@.subrange(lo as int, hi as int),
            ),
        decreases i,
    {
        proof {
            let u = s@.subrange(lo as int, i as int);
            assert(u.drop_last() =~= s@.subrange(lo as int, i - 1));
            assert(u.last() == s@[i - 1]);
        }
        i = i - 1;
    }
    proof {
        let u = s@.subrange(lo as int, i as int);
        if u.len() > 0 {
            assert(u.last() == s@[i - 1]);
        }
    }
    i
}

/// Where `s[lo..hi]` begins once its leading separators and "." pieces are
/// trimmed.
fn trim_start_at(s: &str, lo: usize, hi: usize) -> (r: usize)
    requires
        lo <= hi <= s@.len(),
    ensures
        lo <= r <= hi,
        s@.subrange(r as int, hi as int) == trim_start(s@.subrange(lo as int, hi as int)),
{
    let mut i: usize = lo;
    while i < hi && (s.get_char(i) == '/' || (s.get_char(i) == '.' && (i + 1 == hi || s.get_char(i + 1)
        == '/')))
        invariant
            lo <= i <= hi <= s@.len(),
            trim_start(s@.subrange(i as int, hi as int)) == trim_start(s@.subrange(lo as int, hi as int)),
        decreases hi - i,
    {
        proof {
            let u = s@.subrange(i as int, hi as int);
            assert(u.drop_first() =~= s@.subrange(i + 1, hi as int));
            assert(u[0] == s@[i as int]);
            if u.len() >= 2 {
                assert(u[1] == s@[i + 1]);
            }
        }
        i = i + 1;
    }
    proof {
        let u = s@.subrange(i as int, hi as int);
        if u.len() > 0 {
            assert(u[0] == s@[i as int]);
            if u.len() >= 2 {
                assert(u[1] == s@[i + 1]);
            }
        }
    }
    i
}

/// Where `s[lo..hi]` begins once the characters of its first piece are
/// dropped.
fn drop_first_piece_at(s: &str, lo: usize, hi: usize) -> (r: usize)
    requires
        lo <= hi <= s@.len(),
    ensures
        lo <= r <= hi,
        s@.subrange(r as int, hi as int) == drop_first_piece(s@.subrange(lo as int, hi as int)),
{
    let mut i: usize = lo;
    while i < hi && s.get_char(i) != '/'
        invariant
            lo <= i <= hi <= s@.len(),
            drop_first_piece(s@.subrange(i as int, hi as int)) == drop_first_piece(
                s@.subrange(lo as int, hi as int),
            ),
        decreases hi - i,
    {
        proof {
            let u = s@.subrange(i as int, hi as int);
            assert(u.drop_first() =~= s@.subrange(i + 1, hi as int));
            assert(u[0] == s@[i as int]);
        }
        i = i + 1;
    }
    proof {
        let u = s@.subrange(i as int, hi as int);
        if u.len() > 0 {
            assert(u[0] == s@[i as int]);
        }
    }
    i
}

/// The path without its last component, cut from its text.
pub fn parent(s: &str) -> (r: Option<String>)
    ensures
        r matches Some(p) ==> parent_of(s@) == Some(p@),
        r is None ==> parent_of(s@) is None,
{
    let cs = components(s);
    let n = cs.len();
    if n == 0 || is_root_component(&cs[n - 1]) {
        proof {
            if n > 0 {
                assert(texts(cs@).last() == cs@[n - 1]@);
            }
        }
        return None;
    }
    proof {
        assert(texts(cs@).last() == cs@[n - 1]@);
    }
    let len = s.unicode_len();
    let f = leading_len(s);
    proof {
        assert(s@.subrange(0, len as int) =~= s@);
    }
    let t = trim_end_at(s, 0, len, f);
    if t > f {
        let w = drop_last_piece_at(s, 0, t);
        let e = trim_end_at(s, 0, w, f);
        Some(piece(s, 0, e))
    } else {
        Some(String::new())
    }
}

/// The rest of `s` after the components of `base`, cut from the text of `s`.
pub fn strip_prefix(s: &str, base: &str) -> (r: Option<String>)
    ensures
        r matches Some(x) ==> strip_prefix_of(s@, base@) == Some(x@),
        r is None ==> strip_prefix_of(s@, base@) is None,
{
    let cs = components(s);
    let cb = components(base);
    if !texts_prefix(&cb, &cs) {
        return None;
    }
    let n = s.unicode_len();
    let l = leading_len(s);
    let kb = cb.len();
    if kb == 0 {
        proof {
            assert(s@.subrange(0, n as int) =~= s@);
        }
        let e = trim_end_at(s, 0, n, l);
        return Some(piece(s, 0, e));
    }
    let mut pos: usize = l;
    let mut j: usize = 0;
    proof {
        assert(s@.subrange(l as int, n as int) =~= s@.skip(l as int));
    }
    while j < kb - l
        invariant
            l <= 1,
            1 <= kb,
            l <= pos <= n == s@.len(),
            j <= kb - l,
            s@.subrange(pos as int, n as int) == skip_pieces(s@.skip(l as int), j as nat),
        decreases kb - l - j,
    {
        let a = trim_start_at(s, pos, n);
        pos = drop_first_piece_at(s, a, n);
        j = j + 1;
    }
    let a = trim_start_at(s, pos, n);
    let e = trim_end_at(s, a, n, 0);
    Some(piece(s, a, e))
}

/// `s` and the paths above it, one parent at a time: `count` of them.
pub fn ancestors(s: &str, count: usize) -> (r: Vec<String>)
    requires
        count <= components_of(s@).len() - floor_of(components_of(s@)) + 1,
    ensures
        texts(r@) == walk_up(s@, count as int),
{
    let mut r: Vec<String> = Vec::new();
    let mut cur = String::from_str(s);
    let mut j: usize = 0;
    proof {
        assert(texts(r@) =~= walk_up(s@, 0));
    }
    while j < count
        invariant
            j <= count <= components_of(s@).len() - floor_of(components_of(s@)) + 1,
            j < count ==> cur@ == up_from(s@, j as nat),
            texts(r@) == walk_up(s@, j as int),
        decreases count - j,
    {
        let ghost before = r@;
        let item = String::from_str(cur.as_str());
        r.push(item);
        proof {
            assert(item@ == up_from(s@, j as nat));
            assert(texts(r@) =~= texts(before).push(item@));
            assert(walk_up(s@, j + 1) =~= walk_up(s@, j as int).push(up_from(s@, j as nat)));
        }
        if j + 1 < count {
            proof {
                lemma_up_from(s@, j as nat);
            }
            match parent(cur.as_str()) {
                Some(p) => {
                    cur = p;
                },
                None => {},
            }
        }
        j = j + 1;
    }
    r
}

} // verus!
