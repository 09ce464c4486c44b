//! Where the versions of a file are stored, how a version file is named,
//! how a folder listing is read back into versions (newest first), and
//! which project a file belongs to.

use vstd::prelude::*;

use crate::config::{history_dir_for_project, project_history_dir};
use crate::path::{
    ancestors, components, components_of, extension, extension_of, file_name, file_name_of,
    first_marked, first_true, floor_index, floor_of, is_prefix, join, join_of, lemma_components_well_formed, no_slash,
    lemma_first_true, lemma_parent_components, lemma_walk_up, parent, parent_of, stem, stem_of,
    starts_with_of, strip_prefix, strip_prefix_of, texts, walk_up,
};
use crate::text::{lemma_lex_asymmetric, lemma_lex_total, lemma_lex_transitive, lex_less, lex_lt};

verus! {

/// The stem of a path's file name, or empty when it has none.
pub open spec fn file_stem_text(p: Seq<char>) -> Seq<char> {
    match file_name_of(p) {
        Some(n) => stem_of(n),
        None => Seq::empty(),
    }
}

/// "." and the extension of a path's file name, or empty when it has none.
pub open spec fn ext_suffix(p: Seq<char>) -> Seq<char> {
    match file_name_of(p) {
        Some(n) => match extension_of(n) {
            Some(e) => "."@ + e,
            None => Seq::empty(),
        },
        None => Seq::empty(),
    }
}

/// The folder of a relative path, or empty when it has none.
pub open spec fn rel_dir_of(rel: Seq<char>) -> Seq<char> {
    match parent_of(rel) {
        Some(d) => d,
        None => Seq::empty(),
    }
}

/// The folder that holds the versions of `file`, which lies in the project
/// at `root`: the project's history folder, then the file's folder relative
/// to the project. None when `file` is not inside `root`.
pub open spec fn versions_dir_of(file: Seq<char>, root: Seq<char>, history: Seq<char>) -> Option<
    Seq<char>,
> {
    match strip_prefix_of(file, root) {
        Some(rel) => Some(join_of(project_history_dir(history, root), rel_dir_of(rel))),
        None => None,
    }
}

/// The versions folder of a file mirrors the file's whole folder relative to
/// its project: the project's history folder joined with that relative
/// folder, or with nothing when the file lies at the project's top.
pub proof fn lemma_versions_dir_mirrors_folder(f: Seq<char>, r: Seq<char>, h: Seq<char>, rel: Seq<char>)
    requires
        strip_prefix_of(f, r) == Some(rel),
    ensures
        versions_dir_of(f, r, h) == Some(
            join_of(
                project_history_dir(h, r),
                match parent_of(rel) {
                    Some(d) => d,
                    None => Seq::empty(),
                },
            ),
        ),
{
}

/// Two files of one project whose relative folders are different texts,
/// neither starting with '/', never share a versions folder.
pub proof fn lemma_versions_dirs_apart(
    f1: Seq<char>,
    f2: Seq<char>,
    r: Seq<char>,
    h: Seq<char>,
    rel1: Seq<char>,
    rel2: Seq<char>,
)
    requires
        strip_prefix_of(f1, r) == Some(rel1),
        strip_prefix_of(f2, r) == Some(rel2),
        parent_of(rel1) is Some,
        parent_of(rel2) is Some,
        parent_of(rel1)->0 != parent_of(rel2)->0,
        !(parent_of(rel1)->0.len() > 0 && parent_of(rel1)->0[0] == '/'),
        !(parent_of(rel2)->0.len() > 0 && parent_of(rel2)->0[0] == '/'),
    ensures
        versions_dir_of(f1, r, h) != versions_dir_of(f2, r, h),
{
    let b = project_history_dir(h, r);
    let d1 = parent_of(rel1)->0;
    let d2 = parent_of(rel2)->0;
    if b.len() > 0 && b.last() != '/' {
        let x1 = b + seq!['/'] + d1;
        let x2 = b + seq!['/'] + d2;
        assert(x1.skip(b.len() as int + 1) =~= d1);
        assert(x2.skip(b.len() as int + 1) =~= d2);
    } else {
        assert((b + d1).skip(b.len() as int) =~= d1);
        assert((b + d2).skip(b.len() as int) =~= d2);
    }
}

/// The name of a version: stem, '_', timestamp, then the extension text.
pub open spec fn version_name(stem: Seq<char>, ts: Seq<char>, ext: Seq<char>) -> Seq<char> {
    stem + "_"@ + ts + ext
}

/// Fourteen ASCII digits, as in YYYYMMDDHHMMSS.
pub open spec fn is_timestamp(ts: Seq<char>) -> bool {
    ts.len() == 14 && forall|i: int| 0 <= i < 14 ==> '0' <= #[trigger] ts[i] <= '9'
}

/// The timestamp in a version's file name, when the name is the stem, '_',
/// a timestamp, and the extension text.
pub open spec fn version_timestamp(name: Seq<char>, stem: Seq<char>, ext: Seq<char>) -> Option<
    Seq<char>,
> {
    let pat = stem + "_"@;
    if pat.len() <= name.len() && name.take(pat.len() as int) == pat {
        let after = name.skip(pat.len() as int);
        if ext.len() <= after.len() && after.skip(after.len() - ext.len()) == ext {
            let ts = after.take(after.len() - ext.len());
            if is_timestamp(ts) {
                Some(ts)
            } else {
                None
            }
        } else {
            None
        }
    } else {
        None
    }
}

/// A timestamp shown as "YYYY-MM-DD HH:MM:SS".
pub open spec fn display_of(ts: Seq<char>) -> Seq<char> {
    ts.subrange(0, 4) + "-"@ + ts.subrange(4, 6) + "-"@ + ts.subrange(6, 8) + " "@
        + ts.subrange(8, 10) + ":"@ + ts.subrange(10, 12) + ":"@ + ts.subrange(12, 14)
}

/// Where the versions of a file are kept, and the parts of its name.
pub struct HistoryLocation {
    pub dir: String,
    pub stem: String,
    pub ext: String,
}

/// The versions folder of `file` in the project at `project_root`, and the
/// stem and extension text its version names use.
pub fn history_location(file: &str, project_root: &str, history_path: &str) -> (r: Option<
    HistoryLocation,
>)
    ensures
        r is None <==> versions_dir_of(file@, project_root@, history_path@) is None,
        r matches Some(loc) ==> {
            &&& versions_dir_of(file@, project_root@, history_path@) == Some(loc.dir@)
            &&& loc.stem@ == file_stem_text(file@)
            &&& loc.ext@ == ext_suffix(file@)
        },
{
    let rel = match strip_prefix(file, project_root) {
        Some(r) => r,
        None => return None,
    };
    let rel_dir = match parent(rel.as_str()) {
        Some(d) => d,
        None => String::new(),
    };
    let project_history = history_dir_for_project(history_path, project_root);
    let dir = join(project_history.as_str(), rel_dir.as_str());
    let (st, ext) = match file_name(file) {
        Some(name) => {
            let st = stem(name.as_str());
            let ext = match extension(name.as_str()) {
                Some(e) => {
                    let mut t = String::from_str(".");
                    t.append(e.as_str());
                    t
                },
                None => String::new(),
            };
            (st, ext)
        },
        None => (String::new(), String::new()),
    };
    Some(HistoryLocation { dir, stem: st, ext })
}

/// The name of a version of a file with the given stem and extension text.
pub fn version_file_name(stem: &str, ts: &str, ext: &str) -> (r: String)
    ensures
        r@ == version_name(stem@, ts@, ext@),
{
    let mut r = String::from_str(stem);
    r.append("_");
    r.append(ts);
    r.append(ext);
    r
}

/// Where the version of `file` taken at `ts` is stored.
pub fn version_destination(file: &str, project_root: &str, history_path: &str, ts: &str) -> (r:
    Option<String>)
    ensures
        r is None <==> versions_dir_of(file@, project_root@, history_path@) is None,
        r matches Some(d) ==> d@ == join_of(
            versions_dir_of(file@, project_root@, history_path@)->0,
            version_name(file_stem_text(file@), ts@, ext_suffix(file@)),
        ),
{
    match history_location(file, project_root, history_path) {
        Some(loc) => {
            let name = version_file_name(loc.stem.as_str(), ts, loc.ext.as_str());
            Some(join(loc.dir.as_str(), name.as_str()))
        },
        None => None,
    }
}

/// Whether every character is an ASCII digit.
fn all_digits(s: &str, n: usize) -> (r: bool)
    requires
        n == s@.len(),
    ensures
        r == forall|i: int| 0 <= i < n ==> '0' <= #[trigger] s@[i] <= '9',
{
    let mut i: usize = 0;
    while i < n
        invariant
            n == s@.len(),
            i <= n,
            forall|j: int| 0 <= j < i ==> '0' <= #[trigger] s@[j] <= '9',
        decreases n - i,
    {
        let c = s.get_char(i);
        if !('0' <= c && c <= '9') {
            return false;
        }
        i = i + 1;
    }
    true
}

/// Whether `p` begins `s`.
fn text_starts_with(s: &str, p: &str) -> (r: bool)
    ensures
        r == (p@.len() <= s@.len() && s@.take(p@.len() as int) == p@),
{
    let n = s.unicode_len();
    let m = p.unicode_len();
    if m > n {
        return false;
    }
    let mut i: usize = 0;
    while i < m
        invariant
            n == s@.len(),
            m == p@.len(),
            m <= n,
            i <= m,
            forall|j: int| 0 <= j < i ==> s@[j] == p@[j],
        decreases m - i,
    {
        if s.get_char(i) != p.get_char(i) {
            proof {
                assert(s@.take(m as int)[i as int] != p@[i as int]);
            }
            return false;
        }
        i = i + 1;
    }
    assert(s@.take(m as int) =~= p@);
    true
}

/// Whether `p` ends `s`.
fn text_ends_with(s: &str, p: &str) -> (r: bool)
    ensures
        r == (p@.len() <= s@.len() && s@.skip(s@.len() - p@.len()) == p@),
{
    let n = s.unicode_len();
    let m = p.unicode_len();
    if m > n {
        return false;
    }
    let off = n - m;
    let mut i: usize = 0;
    while i < m
        invariant
            n == s@.len(),
            m == p@.len(),
            m <= n,
            off == n - m,
            i <= m,
            forall|j: int| 0 <= j < i ==> s@[off + j] == p@[j],
        decreases m - i,
    {
        if s.get_char(off + i) != p.get_char(i) {
            proof {
                assert(s@.skip(off as int)[i as int] != p@[i as int]);
            }
            return false;
        }
        i = i + 1;
    }
    assert(s@.skip(off as int) =~= p@);
    true
}

/// The timestamp in a version's file name, if the name is one of a version
/// of a file with the given stem and extension text.
pub fn parse_version_name(name: &str, stem: &str, ext: &str) -> (r: Option<String>)
    ensures
        r matches Some(ts) ==> version_timestamp(name@, stem@, ext@) == Some(ts@),
        r is None ==> version_timestamp(name@, stem@, ext@) is None,
{
    let mut pat = String::from_str(stem);
    pat.append("_");
    if !text_starts_with(name, pat.as_str()) {
        return None;
    }
    let n = name.unicode_len();
    let pn = pat.as_str().unicode_len();
    let after = name.substring_char(pn, n);
    proof {
        assert(after@ =~= name@.skip(pn as int));
    }
    if !text_ends_with(after, ext) {
        return None;
    }
    let an = after.unicode_len();
    let en = ext.unicode_len();
    let ts = after.substring_char(0, an - en);
    proof {
        assert(ts@ =~= after@.take(an - en));
    }
    let tn = ts.unicode_len();
    if tn != 14 || !all_digits(ts, tn) {
        return None;
    }
    Some(String::from_str(ts))
}

/// A timestamp shown as "YYYY-MM-DD HH:MM:SS".
pub fn display_time(ts: &str) -> (r: String)
    requires
        ts@.len() == 14,
    ensures
        r@ == display_of(ts@),
{
    let mut r = String::from_str(ts.substring_char(0, 4));
    r.append("-");
    r.append(ts.substring_char(4, 6));
    r.append("-");
    r.append(ts.substring_char(6, 8));
    r.append(" ");
    r.append(ts.substring_char(8, 10));
    r.append(":");
    r.append(ts.substring_char(10, 12));
    r.append(":");
    r.append(ts.substring_char(12, 14));
    r
}

/// A version taken at a timestamp is read back from its name with that
/// timestamp.
pub proof fn lemma_version_name_round_trip(stem: Seq<char>, ts: Seq<char>, ext: Seq<char>)
    requires
        is_timestamp(ts),
    ensures
        version_timestamp(version_name(stem, ts, ext), stem, ext) == Some(ts),
{
    let name = version_name(stem, ts, ext);
    let pat = stem + "_"@;
    assert(name =~= pat + (ts + ext));
    assert(name.take(pat.len() as int) =~= pat);
    let after = name.skip(pat.len() as int);
    assert(after =~= ts + ext);
    assert(after.skip(after.len() - ext.len()) =~= ext);
    assert(after.take(after.len() - ext.len()) =~= ts);
}

/// A name read as a version of a file is exactly the name that version
/// would be stored under.
pub proof fn lemma_version_name_unique(name: Seq<char>, stem: Seq<char>, ext: Seq<char>)
    requires
        version_timestamp(name, stem, ext) is Some,
    ensures
        name == version_name(stem, version_timestamp(name, stem, ext)->0, ext),
{
    let pat = stem + "_"@;
    let after = name.skip(pat.len() as int);
    let ts = after.take(after.len() - ext.len());
    assert(after =~= ts + ext);
    assert(name =~= pat + after);
    assert(name =~= version_name(stem, ts, ext));
}


/// One stored version of a file.
pub struct Version {
    pub path: String,
    pub timestamp: String,
    pub display_time: String,
    pub size: u64,
}

/// What a version holds, as plain values.
pub type VersionView = (Seq<char>, Seq<char>, Seq<char>, u64);

/// A version as plain values.
pub open spec fn version_view(v: Version) -> VersionView {
    (v.path@, v.timestamp@, v.display_time@, v.size)
}

/// Each version as plain values.
pub open spec fn version_views(vs: Seq<Version>) -> Seq<VersionView> {
    vs.map_values(|v: Version| version_view(v))
}

/// One entry of a versions folder: its name (none when the name is not
/// valid text), its full path, and its size (none when it could not be read).
pub struct ListingEntry {
    pub name: Option<String>,
    pub path: String,
    pub size: Option<u64>,
}

/// The version an entry stands for, if its name is one of a version of the
/// file and its size is known.
pub open spec fn entry_version(e: ListingEntry, stem: Seq<char>, ext: Seq<char>) -> Option<
    VersionView,
> {
    match e.name {
        Some(n) => match version_timestamp(n@, stem, ext) {
            Some(ts) => match e.size {
                Some(sz) => Some((e.path@, ts, display_of(ts), sz)),
                None => None,
            },
            None => None,
        },
        None => None,
    }
}

/// The versions that the entries of a listing stand for, in listing order.
pub open spec fn listed_versions(es: Seq<ListingEntry>, stem: Seq<char>, ext: Seq<char>) -> Seq<
    VersionView,
>
    decreases es.len(),
{
    if es.len() == 0 {
        Seq::empty()
    } else {
        let init = listed_versions(es.drop_last(), stem, ext);
        match entry_version(es.last(), stem, ext) {
            Some(v) => init.push(v),
            None => init,
        }
    }
}

/// Newest first: no version comes before one with a later timestamp.
pub open spec fn newest_first(vs: Seq<VersionView>) -> bool {
    forall|i: int, j: int| 0 <= i < j < vs.len() ==> !lex_lt(#[trigger] vs[i].1, #[trigger] vs[j].1)
}

/// Where a version with timestamp `ts` goes in a list kept newest first:
/// before the first version that is older, after all that are at least as new.
pub open spec fn insert_pos(s: Seq<VersionView>, ts: Seq<char>) -> int
    decreases s.len(),
{
    if s.len() == 0 {
        0
    } else if lex_lt(s[0].1, ts) {
        0
    } else {
        1 + insert_pos(s.drop_first(), ts)
    }
}

/// A version put into a list kept newest first.
pub open spec fn insert_newest(s: Seq<VersionView>, x: VersionView) -> Seq<VersionView> {
    s.insert(insert_pos(s, x.1), x)
}

/// The versions sorted newest first; versions with the same timestamp keep
/// their order.
pub open spec fn sort_newest(s: Seq<VersionView>) -> Seq<VersionView>
    decreases s.len(),
{
    if s.len() == 0 {
        s
    } else {
        insert_newest(sort_newest(s.drop_last()), s.last())
    }
}

proof fn lemma_insert_pos(s: Seq<VersionView>, ts: Seq<char>)
    ensures
        0 <= insert_pos(s, ts) <= s.len(),
        insert_pos(s, ts) < s.len() ==> lex_lt(s[insert_pos(s, ts)].1, ts),
        forall|i: int| 0 <= i < insert_pos(s, ts) ==> !lex_lt(#[trigger] s[i].1, ts),
    decreases s.len(),
{
    if s.len() > 0 && !lex_lt(s[0].1, ts) {
        lemma_insert_pos(s.drop_first(), ts);
        assert forall|i: int| 0 <= i < insert_pos(s, ts) implies !lex_lt(#[trigger] s[i].1, ts) by {
            if i > 0 {
                assert(s[i] == s.drop_first()[i - 1]);
            }
        }
    }
}

/// Putting a version into a list kept newest first keeps it newest first
/// and adds exactly that version.
pub proof fn lemma_insert_newest(s: Seq<VersionView>, x: VersionView)
    requires
        newest_first(s),
    ensures
        newest_first(insert_newest(s, x)),
        insert_newest(s, x).to_multiset() == s.to_multiset().insert(x),
{
    let p = insert_pos(s, x.1);
    lemma_insert_pos(s, x.1);
    let t = insert_newest(s, x);
    vstd::seq_lib::to_multiset_insert(s, p, x);
    assert forall|i: int, j: int| 0 <= i < j < t.len() implies !lex_lt(#[trigger] t[i].1, #[trigger] t[j].1) by {
        if j < p {
            assert(t[i] == s[i] && t[j] == s[j]);
        } else if j == p {
            assert(t[i] == s[i]);
        } else if i > p {
            assert(t[i] == s[i - 1] && t[j] == s[j - 1]);
        } else if i == p {
            let k = j - 1;
            assert(t[j] == s[k]);
            assert(lex_lt(s[p].1, x.1));
            if k > p {
                assert(!lex_lt(s[p].1, s[k].1));
                lemma_lex_total(s[p].1, s[k].1);
                if s[p].1 != s[k].1 {
                    lemma_lex_transitive(s[k].1, s[p].1, x.1);
                }
            }
            lemma_lex_asymmetric(s[k].1, x.1);
        } else {
            assert(t[i] == s[i] && t[j] == s[j - 1]);
        }
    }
}

/// Sorting newest first gives a list that is newest first and holds the
/// same versions.
pub proof fn lemma_sort_newest(s: Seq<VersionView>)
    ensures
        newest_first(sort_newest(s)),
        sort_newest(s).to_multiset() == s.to_multiset(),
    decreases s.len(),
{
    if s.len() == 0 {
        assert(newest_first(s));
    } else {
        lemma_sort_newest(s.drop_last());
        lemma_insert_newest(sort_newest(s.drop_last()), s.last());
        vstd::seq_lib::to_multiset_build(s.drop_last(), s.last());
        assert(s.drop_last().push(s.last()) =~= s);
    }
}

/// Puts a version into a list kept newest first, after every version that is
/// at least as new.
fn insert_newest_first(sorted: &mut Vec<Version>, v: Version)
    ensures
        version_views(final(sorted)@) == insert_newest(version_views(old(sorted)@), version_view(v)),
{
    let ghost s = version_views(sorted@);
    let mut p: usize = 0;
    proof {
        assert(s.skip(0) =~= s);
    }
    while p < sorted.len() && !lex_less(sorted[p].timestamp.as_str(), v.timestamp.as_str())
        invariant
            s == version_views(sorted@),
            p <= sorted@.len(),
            insert_pos(s, v.timestamp@) == p + insert_pos(s.skip(p as int), v.timestamp@),
        decreases sorted@.len() - p,
    {
        proof {
            assert(s.skip(p as int)[0] == s[p as int]);
            assert(s.skip(p as int).drop_first() =~= s.skip(p + 1));
        }
        p = p + 1;
    }
    proof {
        if p < sorted@.len() {
            assert(s.skip(p as int)[0] == s[p as int]);
        }
    }
    let ghost x = version_view(v);
    sorted.insert(p, v);
    proof {
        assert(version_views(sorted@) =~= s.insert(p as int, x));
    }
}

/// The versions of a file found in a listing of its versions folder,
/// newest first; versions with the same timestamp keep their listing order.
pub fn collect_versions(stem: &str, ext: &str, entries: &Vec<ListingEntry>) -> (r: Vec<Version>)
    ensures
        version_views(r@) == sort_newest(listed_versions(entries@, stem@, ext@)),
        newest_first(version_views(r@)),
        version_views(r@).to_multiset() == listed_versions(entries@, stem@, ext@).to_multiset(),
        forall|i: int| 0 <= i < r@.len() ==> is_timestamp(#[trigger] r@[i].timestamp@)
            && r@[i].display_time@ == display_of(r@[i].timestamp@),
{
    let mut out: Vec<Version> = Vec::new();
    let mut i: usize = 0;
    proof {
        assert(entries@.take(0) =~= Seq::<ListingEntry>::empty());
        assert(version_views(out@) =~= Seq::<VersionView>::empty());
    }
    while i < entries.len()
        invariant
            i <= entries@.len(),
            version_views(out@) == sort_newest(listed_versions(entries@.take(i as int), stem@, ext@)),
        decreases entries@.len() - i,
    {
        let e = &entries[i];
        proof {
            assert(entries@.take(i + 1).drop_last() =~= entries@.take(i as int));
            assert(entries@.take(i + 1).last() == entries@[i as int]);
        }
        let ghost prev = listed_versions(entries@.take(i as int), stem@, ext@);
        match &e.name {
            Some(name) => match parse_version_name(name.as_str(), stem, ext) {
                Some(ts) => match e.size {
                    Some(size) => {
                        let display = display_time(ts.as_str());
                        let v = Version {
                            path: String::from_str(e.path.as_str()),
                            timestamp: ts,
                            display_time: display,
                            size,
                        };
                        proof {
                            assert(prev.push(version_view(v)).drop_last() =~= prev);
                        }
                        insert_newest_first(&mut out, v);
                    },
                    None => {},
                },
                None => {},
            },
            None => {},
        }
        i = i + 1;
    }
    proof {
        assert(entries@.take(entries@.len() as int) =~= entries@);
        let listed = listed_versions(entries@, stem@, ext@);
        lemma_sort_newest(listed);
        lemma_listed_fields(entries@, stem@, ext@);
        let views = version_views(out@);
        assert forall|i: int| 0 <= i < out@.len() implies is_timestamp(#[trigger] out@[i].timestamp@)
            && out@[i].display_time@ == display_of(out@[i].timestamp@) by {
            let x = views[i];
            assert(views.contains(x));
            vstd::seq_lib::to_multiset_contains(views, x);
            vstd::seq_lib::to_multiset_contains(listed, x);
            let j = choose|j: int| 0 <= j < listed.len() && listed[j] == x;
            assert(is_timestamp(listed[j].1) && listed[j].2 == display_of(listed[j].1));
            assert(x == version_view(out@[i]));
            assert(x.1 == out@[i].timestamp@ && x.2 == out@[i].display_time@);
        }
    }
    out
}

/// Every version read from a listing has a fourteen-digit timestamp and
/// shows it as "YYYY-MM-DD HH:MM:SS".
pub proof fn lemma_listed_fields(es: Seq<ListingEntry>, stem: Seq<char>, ext: Seq<char>)
    ensures
        forall|i: int| 0 <= i < listed_versions(es, stem, ext).len() ==> is_timestamp(
            #[trigger] listed_versions(es, stem, ext)[i].1,
        ) && listed_versions(es, stem, ext)[i].2 == display_of(listed_versions(es, stem, ext)[i].1),
    decreases es.len(),
{
    if es.len() > 0 {
        lemma_listed_fields(es.drop_last(), stem, ext);
        let init = listed_versions(es.drop_last(), stem, ext);
        let l = listed_versions(es, stem, ext);
        assert forall|i: int| 0 <= i < l.len() implies is_timestamp(#[trigger] l[i].1) && l[i].2
            == display_of(l[i].1) by {
            if i < init.len() {
                assert(l[i] == init[i]);
            }
        }
    }
}


/// The directories searched for a project marker, nearest first: the path
/// itself when it is a directory, otherwise its folder (the path itself when
/// it has none), then each folder above it, one parent at a time, up to the
/// top.
pub open spec fn search_chain(file: Seq<char>, is_dir: bool) -> Seq<Seq<char>> {
    let c = components_of(file);
    let n = c.len() as int;
    match parent_of(file) {
        Some(dir) => {
            let up = walk_up(dir, n - floor_of(c));
            if is_dir {
                seq![file] + up
            } else {
                up
            }
        },
        None => seq![file],
    }
}

/// The folder of a path has the same top as the path: the root when the path
/// is absolute.
proof fn lemma_parent_floor(file: Seq<char>)
    requires
        parent_of(file) is Some,
    ensures
        components_of(parent_of(file)->0) == components_of(file).drop_last(),
        floor_of(components_of(parent_of(file)->0)) == floor_of(components_of(file)),
        components_of(file).len() >= 1 + floor_of(components_of(file)),
{
    let c = components_of(file);
    let n = c.len() as int;
    lemma_parent_components(file);
    lemma_components_well_formed(file);
    if floor_of(c) == 1 {
        assert(n >= 2) by {
            if n == 1 {
                assert(c.last() == c[0]);
            }
        }
        assert(c.drop_last()[0] == c[0]);
    }
}

/// The project a file belongs to: the nearest searched directory that holds
/// a project marker, else the file's folder (the file itself when it has
/// none).
pub open spec fn project_root_of(file: Seq<char>, is_dir: bool, marked: Seq<bool>) -> Seq<char> {
    let chain = search_chain(file, is_dir);
    let k = first_true(marked);
    if k < chain.len() {
        chain[k]
    } else {
        match parent_of(file) {
            Some(p) => p,
            None => file,
        }
    }
}

/// The directories searched for a project marker, nearest first.
pub fn project_root_candidates(file: &str, is_dir: bool) -> (r: Vec<String>)
    ensures
        texts(r@) == search_chain(file@, is_dir),
{
    let mut r: Vec<String> = Vec::new();
    match parent(file) {
        Some(dir) => {
            let cs = components(file);
            let n = cs.len();
            let fl = floor_index(&cs);
            proof {
                lemma_parent_floor(file@);
            }
            let mut up = ancestors(dir.as_str(), n - fl);
            if is_dir {
                r.push(String::from_str(file));
                let ghost rest = up@;
                r.append(&mut up);
                proof {
                    assert(texts(r@) =~= seq![file@] + texts(rest));
                }
                r
            } else {
                up
            }
        },
        None => {
            r.push(String::from_str(file));
            proof {
                assert(texts(r@) =~= seq![file@]);
            }
            r
        },
    }
}

/// Finds the project root for a file by walking up from it. `marked[i]`
/// says whether the `i`-th directory of `project_root_candidates` holds a
/// project marker.
pub fn find_project_root(file_path: &str, is_dir: bool, marked: &Vec<bool>) -> (r: String)
    requires
        marked@.len() == search_chain(file_path@, is_dir).len(),
    ensures
        r@ == project_root_of(file_path@, is_dir, marked@),
{
    let chain = project_root_candidates(file_path, is_dir);
    let k = first_marked(marked);
    proof {
        lemma_first_true(marked@);
    }
    if k < chain.len() {
        proof {
            assert(texts(chain@)[k as int] == chain@[k as int]@);
        }
        String::from_str(chain[k].as_str())
    } else {
        match parent(file_path) {
            Some(p) => p,
            None => String::from_str(file_path),
        }
    }
}


/// The search starts at the path itself when it is a directory, else at its
/// folder (the path itself when it has none), and goes up one parent at a
/// time until there is no parent left.
pub proof fn lemma_search_walks_parents(file: Seq<char>, is_dir: bool)
    ensures
        ({
            let chain = search_chain(file, is_dir);
            &&& chain.len() > 0
            &&& chain[0] == if is_dir {
                file
            } else {
                match parent_of(file) {
                    Some(p) => p,
                    None => file,
                }
            }
            &&& forall|j: int| 0 <= j < chain.len() - 1 ==> parent_of(#[trigger] chain[j]) == Some(chain[j + 1])
            &&& parent_of(chain.last()) is None
        }),
{
    let c = components_of(file);
    let n = c.len() as int;
    let chain = search_chain(file, is_dir);
    if parent_of(file) is Some {
        let dir = parent_of(file)->0;
        lemma_parent_floor(file);
        let count = n - floor_of(c);
        lemma_walk_up(dir, count);
        let up = walk_up(dir, count);
        assert(up[0] == dir);
        if is_dir {
            assert forall|j: int| 0 <= j < chain.len() - 1 implies parent_of(#[trigger] chain[j]) == Some(chain[j + 1]) by {
                if j > 0 {
                    assert(chain[j] == up[j - 1]);
                }
                assert(chain[j + 1] == up[j]);
            }
            assert(chain.last() == up.last());
        }
    } else {
        assert(chain =~= seq![file]);
    }
}

/// Every searched directory holds the first one, and each lies one
/// component further up than the one before: the search meets the first
/// directory's ancestors nearest first, so the first marked one is the
/// nearest marked ancestor.
pub proof fn lemma_search_chain_ancestors(file: Seq<char>, is_dir: bool)
    ensures
        ({
            let chain = search_chain(file, is_dir);
            &&& chain.len() == components_of(chain[0]).len() - floor_of(components_of(chain[0])) + 1
            &&& forall|j: int| 0 <= j < chain.len() ==> starts_with_of(chain[0], #[trigger] chain[j])
                && components_of(chain[j]).len() + j == components_of(chain[0]).len()
        }),
{
    let c = components_of(file);
    let n = c.len() as int;
    let chain = search_chain(file, is_dir);
    lemma_components_well_formed(file);
    if parent_of(file) is Some {
        let dir = parent_of(file)->0;
        lemma_parent_floor(file);
        let count = n - floor_of(c);
        lemma_walk_up(dir, count);
        let up = walk_up(dir, count);
        let cd = components_of(dir);
        assert(cd =~= c.take(n - 1));
        assert forall|j: int| 0 <= j < chain.len() implies starts_with_of(chain[0], #[trigger] chain[j])
            && components_of(chain[j]).len() + j == components_of(chain[0]).len() by {
            if is_dir {
                assert(chain[0] == file);
                assert(c.take(n) =~= c);
                if j > 0 {
                    assert(chain[j] == up[j - 1]);
                    assert(components_of(chain[j]) == cd.take(cd.len() - (j - 1)));
                    assert(cd.take(cd.len() - (j - 1)) =~= c.take(n - j));
                }
            } else {
                assert(chain[0] == up[0]);
                assert(chain[j] == up[j]);
                assert(cd.take(cd.len() as int) =~= cd);
                assert(components_of(chain[j]) == cd.take(cd.len() - j));
                assert(cd.take(cd.len() - j) =~= cd.take(cd.len() as int).take(cd.len() - j));
            }
        }
    } else {
        assert(chain =~= seq![file]);
        assert(c.take(n) =~= c);
        if n > 0 {
            assert(c.last() == seq!['/']);
            if n > 1 {
                assert(no_slash(c[n - 1]));
                assert(c[n - 1][0] == '/');
            }
            assert(c[0] == seq!['/']);
        }
    }
}

/// The project a file belongs to is the nearest marked directory at or
/// above where the search starts: it is marked, and no longer one on the
/// way up is; with none marked, it is the file's folder (the file itself
/// when it has none). `marker` says which directories hold a marker, and
/// `marked` is read from it.
pub proof fn lemma_project_root_is_nearest_marked(
    file: Seq<char>,
    is_dir: bool,
    marked: Seq<bool>,
    marker: spec_fn(Seq<Seq<char>>) -> bool,
)
    requires
        marked.len() == search_chain(file, is_dir).len(),
        forall|i: int| 0 <= i < marked.len() ==> marked[i] == marker(components_of(#[trigger] search_chain(file, is_dir)[i])),
    ensures
        ({
            let start = components_of(search_chain(file, is_dir)[0]);
            let above = |a: Seq<Seq<char>>| is_prefix(a, start) && a.len() >= floor_of(start);
            let r = project_root_of(file, is_dir, marked);
            if exists|a: Seq<Seq<char>>| #[trigger] above(a) && marker(a) {
                &&& above(components_of(r))
                &&& marker(components_of(r))
                &&& forall|a: Seq<Seq<char>>| #[trigger] above(a) && marker(a) ==> a.len() <= components_of(r).len()
            } else {
                r == match parent_of(file) {
                    Some(p) => p,
                    None => file,
                }
            }
        }),
{
    let chain = search_chain(file, is_dir);
    let k = first_true(marked);
    lemma_first_true(marked);
    lemma_search_chain_ancestors(file, is_dir);
    let start = components_of(chain[0]);
    let ns = start.len() as int;
    let above = |a: Seq<Seq<char>>| is_prefix(a, start) && a.len() >= floor_of(start);
    assert forall|j: int| 0 <= j < chain.len() implies #[trigger] components_of(chain[j]) == start.take(ns - j) by {
        let cj = components_of(chain[j]);
        assert(cj =~= start.take(cj.len() as int));
    }
    // Every directory at or above the start lies on the way up.
    assert forall|a: Seq<Seq<char>>| #[trigger] above(a) implies 0 <= ns - a.len() < chain.len() && components_of(
        chain[ns - a.len()],
    ) == a by {
        assert(a =~= start.take(a.len() as int));
    }
    let r = project_root_of(file, is_dir, marked);
    if k < chain.len() {
        assert(r == chain[k]);
        assert(components_of(r) == start.take(ns - k));
        assert(is_prefix(components_of(r), start)) by {
            assert(start.take(ns - k).len() == ns - k);
        }
        assert(marked[k] == marker(components_of(chain[k])));
        assert(above(components_of(r)));
        assert(marker(components_of(r)));
        assert forall|a: Seq<Seq<char>>| #[trigger] above(a) && marker(a) implies a.len() <= components_of(r).len() by {
            let i = ns - a.len();
            if i < k {
                assert(!marked[i]);
            }
        }
    } else {
        assert forall|a: Seq<Seq<char>>| #[trigger] above(a) implies !marker(a) by {
            let i = ns - a.len();
            assert(!marked[i]);
        }
    }
}

/// What is saved is what is listed: the version of a file saved at a
/// timestamp goes into the folder where that file's versions are listed,
/// and the entry it leaves there is read back as a version with that
/// timestamp, its display time, and its size.
pub proof fn lemma_saved_version_listed(
    file: Seq<char>,
    root: Seq<char>,
    history: Seq<char>,
    ts: Seq<char>,
    e: ListingEntry,
)
    requires
        is_timestamp(ts),
        versions_dir_of(file, root, history) is Some,
        e.name matches Some(n) && n@ == version_name(file_stem_text(file), ts, ext_suffix(file)),
        e.size is Some,
    ensures
        entry_version(e, file_stem_text(file), ext_suffix(file)) == Some(
            (e.path@, ts, display_of(ts), e.size->0),
        ),
        listed_versions(seq![e], file_stem_text(file), ext_suffix(file)) == seq![
            (e.path@, ts, display_of(ts), e.size->0),
        ],
{
    lemma_version_name_round_trip(file_stem_text(file), ts, ext_suffix(file));
    assert(seq![e].drop_last() =~= Seq::<ListingEntry>::empty());
    assert(seq![e].last() == e);
    assert(listed_versions(Seq::<ListingEntry>::empty(), file_stem_text(file), ext_suffix(file))
        == Seq::<VersionView>::empty());
    assert(Seq::<VersionView>::empty().push((e.path@, ts, display_of(ts), e.size->0)) =~= seq![
        (e.path@, ts, display_of(ts), e.size->0),
    ]);
}

} // verus!
