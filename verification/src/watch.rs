//! The daemon's decisions: which changed paths are queued, when the queue is
//! flushed, which queued files are versioned, the timestamp a version is
//! named with, and which version a restore picks.

use vstd::prelude::*;

use crate::config::is_watched;
use crate::exclude::{excluded, is_excluded};
use crate::fmt::{lemma_padded_decimal, padded_decimal, pow10, to_padded_decimal};
use crate::history::{display_of, is_timestamp, lemma_version_name_round_trip, version_name, version_timestamp};
use crate::path::{is_prefix, path_eq, same_path, starts_with, starts_with_of, strip_prefix, strip_prefix_of, texts};

verus! {

/// Index of the first root that `p` lies in, or the number of roots.
pub open spec fn first_root(roots: Seq<Seq<char>>, p: Seq<char>) -> int
    decreases roots.len(),
{
    if roots.len() == 0 {
        0
    } else if starts_with_of(p, roots[0]) {
        0
    } else {
        1 + first_root(roots.drop_first(), p)
    }
}

/// The first root found holds the path, and no root before it does.
pub proof fn lemma_first_root(roots: Seq<Seq<char>>, p: Seq<char>)
    ensures
        0 <= first_root(roots, p) <= roots.len(),
        first_root(roots, p) < roots.len() ==> starts_with_of(p, roots[first_root(roots, p)]),
        forall|i: int| 0 <= i < first_root(roots, p) ==> !starts_with_of(p, #[trigger] roots[i]),
    decreases roots.len(),
{
    if roots.len() > 0 && !starts_with_of(p, roots[0]) {
        lemma_first_root(roots.drop_first(), p);
        assert forall|i: int| 0 <= i < first_root(roots, p) implies !starts_with_of(p, #[trigger] roots[i]) by {
            if i > 0 {
                assert(roots[i] == roots.drop_first()[i - 1]);
            }
        }
    }
}

/// The first watched root that a path lies in.
pub fn find_root(roots: &Vec<String>, path: &str) -> (r: Option<usize>)
    ensures
        r matches Some(i) ==> i == first_root(texts(roots@), path@) && i < roots@.len(),
        r is None ==> first_root(texts(roots@), path@) == roots@.len(),
{
    let mut i: usize = 0;
    proof {
        assert(texts(roots@).skip(0) =~= texts(roots@));
    }
    while i < roots.len()
        invariant
            i <= roots@.len(),
            first_root(texts(roots@), path@) == i + first_root(texts(roots@).skip(i as int), path@),
        decreases roots@.len() - i,
    {
        proof {
            assert(texts(roots@).skip(i as int)[0] == roots@[i as int]@);
            assert(texts(roots@).skip(i as int).drop_first() =~= texts(roots@).skip(i + 1));
        }
        if starts_with(path, roots[i].as_str()) {
            return Some(i);
        }
        i = i + 1;
    }
    None
}

/// Whether a change to `p` is queued: it lies in a watched root and is not
/// excluded relative to the first root it lies in.
pub open spec fn queued_change(roots: Seq<Seq<char>>, p: Seq<char>) -> bool {
    let i = first_root(roots, p);
    i < roots.len() && match strip_prefix_of(p, roots[i]) {
        Some(rel) => !excluded(rel),
        None => false,
    }
}

/// Whether a change to a path is queued for versioning.
pub fn should_queue(roots: &Vec<String>, path: &str) -> (r: bool)
    ensures
        r == queued_change(texts(roots@), path@),
{
    match find_root(roots, path) {
        Some(i) => {
            proof {
                assert(texts(roots@)[i as int] == roots@[i as int]@);
            }
            match strip_prefix(path, roots[i].as_str()) {
                Some(rel) => !is_excluded(rel.as_str()),
                None => false,
            }
        },
        None => false,
    }
}

/// The kinds of file-system event the daemon tells apart.
pub enum ChangeKind {
    Create,
    Modify,
    Other,
}

/// Whether an event queues its paths and restarts the batch window: only
/// creations and modifications do.
pub fn queues_paths(kind: &ChangeKind) -> (r: bool)
    ensures
        r == (kind is Create || kind is Modify),
{
    match kind {
        ChangeKind::Create => true,
        ChangeKind::Modify => true,
        ChangeKind::Other => false,
    }
}

/// Whether a queued file is versioned: it is a file with something in it.
pub fn worth_versioning(is_dir: bool, size: u64) -> (r: bool)
    ensures
        r == (!is_dir && size != 0),
{
    !is_dir && size != 0
}

/// Changed paths waiting to be versioned, in the order they came; a path
/// that names the same place as one already waiting is not added twice.
/// Adding a path compares it with each waiting path in turn, so its cost
/// grows with the number waiting (the paths of one batch).
pub struct DirtySet {
    paths: Vec<String>,
}

/// No two of the paths name the same place.
pub open spec fn distinct_paths(s: Seq<Seq<char>>) -> bool {
    forall|i: int, j: int| 0 <= i < j < s.len() ==> !same_path(#[trigger] s[i], #[trigger] s[j])
}

impl View for DirtySet {
    type V = Seq<Seq<char>>;

    /// The waiting paths, in the order they came.
    closed spec fn view(&self) -> Seq<Seq<char>> {
        texts(self.paths@)
    }
}

impl DirtySet {
    #[verifier::type_invariant]
    spec fn no_repeats(&self) -> bool {
        distinct_paths(texts(self.paths@))
    }

    /// Nothing waiting.
    pub fn new() -> (r: Self)
        ensures
            r@ == Seq::<Seq<char>>::empty(),
    {
        let r = DirtySet { paths: Vec::new() };
        proof {
            assert(texts(r.paths@) =~= Seq::<Seq<char>>::empty());
        }
        r
    }

    /// Whether nothing is waiting.
    pub fn is_empty(&self) -> (r: bool)
        ensures
            r == (self@.len() == 0),
    {
        self.paths.len() == 0
    }

    /// Queues a path unless the same place is already waiting.
    pub fn insert(&mut self, p: &str) -> (added: bool)
        ensures
            added == !is_watched(old(self)@, p@),
            added ==> final(self)@ == old(self)@.push(p@),
            !added ==> final(self)@ == old(self)@,
            distinct_paths(final(self)@),
    {
        proof {
            use_type_invariant(&*self);
        }
        let mut i: usize = 0;
        while i < self.paths.len()
            invariant
                i <= self.paths@.len(),
                distinct_paths(texts(self.paths@)),
                forall|j: int| 0 <= j < i ==> !same_path(#[trigger] texts(self.paths@)[j], p@),
            decreases self.paths@.len() - i,
        {
            if path_eq(self.paths[i].as_str(), p) {
                proof {
                    assert(same_path(texts(self.paths@)[i as int], p@));
                }
                return false;
            }
            i = i + 1;
        }
        let ghost before = texts(self.paths@);
        proof {
            assert forall|a: int, b: int| 0 <= a < b < before.push(p@).len() implies !same_path(
                #[trigger] before.push(p@)[a],
                #[trigger] before.push(p@)[b],
            ) by {
                if b == before.len() {
                    assert(before.push(p@)[a] == before[a]);
                    assert(!same_path(before[a], p@));
                } else {
                    assert(before.push(p@)[a] == before[a]);
                    assert(before.push(p@)[b] == before[b]);
                }
            }
        }
        let mut paths: Vec<String> = Vec::new();
        std::mem::swap(&mut paths, &mut self.paths);
        paths.push(String::from_str(p));
        proof {
            assert(texts(paths@) =~= before.push(p@));
        }
        self.paths = paths;
        true
    }

    /// Whether the queue is due: something waits and no change has come for
    /// at least the batch window.
    pub fn ready(&self, since_last_change_ms: u64, window_ms: u64) -> (r: bool)
        ensures
            r == (self@.len() > 0 && since_last_change_ms >= window_ms),
    {
        self.paths.len() > 0 && since_last_change_ms >= window_ms
    }

    /// Takes every waiting path, leaving nothing waiting.
    pub fn drain(&mut self) -> (r: Vec<String>)
        ensures
            texts(r@) == old(self)@,
            distinct_paths(texts(r@)),
            final(self)@ == Seq::<Seq<char>>::empty(),
    {
        proof {
            use_type_invariant(&*self);
        }
        let mut taken: Vec<String> = Vec::new();
        std::mem::swap(&mut taken, &mut self.paths);
        proof {
            assert(texts(self.paths@) =~= Seq::<Seq<char>>::empty());
        }
        taken
    }
}

/// How long the queue must stay quiet before it is flushed, in milliseconds.
pub const BATCH_WINDOW_MS: u64 = 100;

/// What the daemon learns between two decisions.
pub enum Event {
    /// The watcher reported a change of this kind to these paths.
    Changed { kind: ChangeKind, paths: Vec<String> },
    /// The watcher reported an error.
    WatchError,
    /// Nothing came within the wait.
    Timeout,
    /// The watcher is gone.
    Disconnected,
}

/// What the daemon does next.
pub enum Action {
    /// Keep listening.
    Wait,
    /// Look at each of these paths and version those worth it.
    Check(Vec<String>),
    /// Stop listening.
    Stop,
}

/// An action, with the paths to check taken by their text.
pub enum Decision {
    Wait,
    Check(Seq<Seq<char>>),
    Stop,
}

/// The daemon's state: the watched roots, the changed paths waiting, when
/// the last change came and how long the queue must stay quiet.
pub struct DaemonState {
    pub roots: Seq<Seq<char>>,
    pub waiting: Seq<Seq<char>>,
    pub last_change: u64,
    pub window: u64,
}

/// `waiting` with each of `paths` added in turn, when its change is queued
/// and the same place is not waiting yet.
pub open spec fn queue_changes(
    roots: Seq<Seq<char>>,
    waiting: Seq<Seq<char>>,
    paths: Seq<Seq<char>>,
) -> Seq<Seq<char>>
    decreases paths.len(),
{
    if paths.len() == 0 {
        waiting
    } else {
        let w = queue_changes(roots, waiting, paths.drop_last());
        let p = paths.last();
        if queued_change(roots, p) && !is_watched(w, p) {
            w.push(p)
        } else {
            w
        }
    }
}

/// Milliseconds from `last` to `now`; none when the clock reads earlier.
pub open spec fn elapsed(now: u64, last: u64) -> int {
    if now >= last {
        now - last
    } else {
        0
    }
}

/// The state after an event at time `now`, before the queue is looked at:
/// a creation or modification queues its paths and restarts the window.
pub open spec fn after_event(s: DaemonState, e: Event, now: u64) -> DaemonState {
    match e {
        Event::Changed { kind, paths } => if kind is Create || kind is Modify {
            DaemonState {
                roots: s.roots,
                waiting: queue_changes(s.roots, s.waiting, texts(paths@)),
                last_change: now,
                window: s.window,
            }
        } else {
            s
        },
        _ => s,
    }
}

/// The state and decision after an event at time `now`: the daemon stops
/// when the watcher is gone; otherwise, once something waits and the
/// window has passed since the last change, everything waiting is handed
/// out to be checked.
pub open spec fn next_step(s: DaemonState, e: Event, now: u64) -> (DaemonState, Decision) {
    if e is Disconnected {
        (s, Decision::Stop)
    } else {
        let t = after_event(s, e, now);
        if t.waiting.len() > 0 && elapsed(now, t.last_change) >= t.window {
            (
                DaemonState {
                    roots: t.roots,
                    waiting: Seq::empty(),
                    last_change: t.last_change,
                    window: t.window,
                },
                Decision::Check(t.waiting),
            )
        } else {
            (t, Decision::Wait)
        }
    }
}

/// An action as a decision.
pub open spec fn decision_of(a: Action) -> Decision {
    match a {
        Action::Wait => Decision::Wait,
        Action::Check(v) => Decision::Check(texts(v@)),
        Action::Stop => Decision::Stop,
    }
}

/// Every waiting path is a queued change, and no place waits twice.
pub open spec fn keeps_queue(roots: Seq<Seq<char>>, waiting: Seq<Seq<char>>) -> bool {
    &&& distinct_paths(waiting)
    &&& forall|i: int| 0 <= i < waiting.len() ==> queued_change(roots, #[trigger] waiting[i])
}

/// The watching daemon: its roots, the queue of changed paths, and the
/// time of the last change.
pub struct Daemon {
    roots: Vec<String>,
    dirty: DirtySet,
    last_change_ms: u64,
    window_ms: u64,
}

impl View for Daemon {
    type V = DaemonState;

    closed spec fn view(&self) -> DaemonState {
        DaemonState {
            roots: texts(self.roots@),
            waiting: self.dirty@,
            last_change: self.last_change_ms,
            window: self.window_ms,
        }
    }
}

impl Daemon {
    #[verifier::type_invariant]
    spec fn only_queued(&self) -> bool {
        keeps_queue(texts(self.roots@), self.dirty@)
    }

    /// A daemon watching `roots`, with nothing waiting, started at `now_ms`.
    pub fn new(roots: Vec<String>, now_ms: u64) -> (r: Self)
        ensures
            r@ == (DaemonState {
                roots: texts(roots@),
                waiting: Seq::empty(),
                last_change: now_ms,
                window: BATCH_WINDOW_MS,
            }),
    {
        Daemon { roots, dirty: DirtySet::new(), last_change_ms: now_ms, window_ms: BATCH_WINDOW_MS }
    }

    /// The watched roots.
    pub fn roots(&self) -> (r: &Vec<String>)
        ensures
            texts(r@) == self@.roots,
    {
        &self.roots
    }

    /// Takes in an event that came at `now_ms` and decides what to do.
    pub fn step(&mut self, event: Event, now_ms: u64) -> (action: Action)
        ensures
            (final(self)@, decision_of(action)) == next_step(old(self)@, event, now_ms),
            keeps_queue(final(self)@.roots, final(self)@.waiting),
    {
        proof {
            use_type_invariant(&*self);
        }
        match event {
            Event::Changed { kind, paths } => {
                if queues_paths(&kind) {
                    let mut dirty = DirtySet::new();
                    std::mem::swap(&mut dirty, &mut self.dirty);
                    let ghost start = dirty@;
                    let ghost roots = texts(self.roots@);
                    let mut i: usize = 0;
                    proof {
                        assert(texts(paths@).take(0) =~= Seq::<Seq<char>>::empty());
                    }
                    while i < paths.len()
                        invariant
                            i <= paths@.len(),
                            roots == texts(self.roots@),
                            dirty@ == queue_changes(roots, start, texts(paths@).take(i as int)),
                            keeps_queue(roots, dirty@),
                        decreases paths@.len() - i,
                    {
                        let ghost before = dirty@;
                        proof {
                            assert(texts(paths@).take(i + 1).drop_last() =~= texts(paths@).take(i as int));
                            assert(texts(paths@).take(i + 1).last() == paths@[i as int]@);
                        }
                        if should_queue(&self.roots, paths[i].as_str()) {
                            dirty.insert(paths[i].as_str());
                            proof {
                                assert forall|j: int| 0 <= j < dirty@.len() implies queued_change(
                                    roots,
                                    #[trigger] dirty@[j],
                                ) by {
                                    if j < before.len() {
                                        assert(dirty@[j] == before[j]);
                                    }
                                }
                            }
                        }
                        i = i + 1;
                    }
                    proof {
                        assert(texts(paths@).take(paths@.len() as int) =~= texts(paths@));
                    }
                    self.dirty = dirty;
                    self.last_change_ms = now_ms;
                }
            },
            Event::WatchError => {},
            Event::Timeout => {},
            Event::Disconnected => {
                return Action::Stop;
            },
        }
        let since = if now_ms >= self.last_change_ms {
            now_ms - self.last_change_ms
        } else {
            0
        };
        if self.dirty.ready(since, self.window_ms) {
            let mut dirty = DirtySet::new();
            std::mem::swap(&mut dirty, &mut self.dirty);
            let taken = dirty.drain();
            Action::Check(taken)
        } else {
            Action::Wait
        }
    }

    /// The index of the root to version a checked path under: the first
    /// root it lies in, when it is a file with something in it.
    pub fn version_root(&self, path: &str, is_dir: bool, size: u64) -> (r: Option<usize>)
        ensures
            r is Some <==> (!is_dir && size != 0 && first_root(self@.roots, path@) < self@.roots.len()),
            r matches Some(i) ==> i == first_root(self@.roots, path@),
    {
        if !worth_versioning(is_dir, size) {
            return None;
        }
        find_root(&self.roots, path)
    }
}

proof fn lemma_queue_changes(roots: Seq<Seq<char>>, waiting: Seq<Seq<char>>, paths: Seq<Seq<char>>)
    ensures
        is_prefix(waiting, queue_changes(roots, waiting, paths)),
        keeps_queue(roots, waiting) ==> keeps_queue(roots, queue_changes(roots, waiting, paths)),
        forall|j: int| 0 <= j < paths.len() && queued_change(roots, #[trigger] paths[j]) ==> is_watched(
            queue_changes(roots, waiting, paths),
            paths[j],
        ),
    decreases paths.len(),
{
    if paths.len() > 0 {
        let init = paths.drop_last();
        lemma_queue_changes(roots, waiting, init);
        let w = queue_changes(roots, waiting, init);
        let p = paths.last();
        let r = queue_changes(roots, waiting, paths);
        if queued_change(roots, p) && !is_watched(w, p) {
            assert(r == w.push(p));
            assert(r.take(waiting.len() as int) =~= w.take(waiting.len() as int));
            if keeps_queue(roots, waiting) {
                assert forall|a: int, b: int| 0 <= a < b < r.len() implies !same_path(
                    #[trigger] r[a],
                    #[trigger] r[b],
                ) by {
                    assert(r[a] == w[a]);
                    if b < w.len() {
                        assert(r[b] == w[b]);
                    } else {
                        assert(r[b] == p);
                        if same_path(r[a], p) {
                            assert(same_path(w[a], p));
                        }
                    }
                }
                assert forall|i: int| 0 <= i < r.len() implies queued_change(roots, #[trigger] r[i]) by {
                    if i < w.len() {
                        assert(r[i] == w[i]);
                    }
                }
            }
            assert forall|j: int| 0 <= j < paths.len() && queued_change(roots, #[trigger] paths[j]) implies is_watched(
                r,
                paths[j],
            ) by {
                if j < init.len() {
                    assert(init[j] == paths[j]);
                    let i = choose|i: int| 0 <= i < w.len() && same_path(#[trigger] w[i], paths[j]);
                    assert(r[i] == w[i]);
                } else {
                    assert(r[w.len() as int] == p);
                    assert(same_path(r[w.len() as int], p));
                }
            }
        } else {
            assert(r == w);
            assert forall|j: int| 0 <= j < paths.len() && queued_change(roots, #[trigger] paths[j]) implies is_watched(
                r,
                paths[j],
            ) by {
                if j < init.len() {
                    assert(init[j] == paths[j]);
                }
            }
        }
    } else {
        assert(waiting.take(waiting.len() as int) =~= waiting);
    }
}

/// Only queued changes are ever handed out to be checked, and only they
/// wait: a path is checked only when it lies in a watched root and is not
/// excluded relative to the first root it lies in, and no place is handed
/// out twice in one batch.
pub proof fn lemma_only_queued_changes_are_checked(s: DaemonState, e: Event, now: u64)
    requires
        keeps_queue(s.roots, s.waiting),
    ensures
        next_step(s, e, now).0.roots == s.roots,
        keeps_queue(s.roots, next_step(s, e, now).0.waiting),
        next_step(s, e, now).1 matches Decision::Check(ps) ==> keeps_queue(s.roots, ps),
{
    if let Event::Changed { kind, paths } = e {
        lemma_queue_changes(s.roots, s.waiting, texts(paths@));
    }
    assert(distinct_paths(Seq::<Seq<char>>::empty()));
}

/// No waiting path is dropped: each step keeps the waiting paths, in
/// order, or hands them all out to be checked.
pub proof fn lemma_waiting_paths_stay(s: DaemonState, e: Event, now: u64)
    ensures
        match next_step(s, e, now).1 {
            Decision::Check(ps) => is_prefix(s.waiting, ps) && next_step(s, e, now).0.waiting.len() == 0,
            _ => is_prefix(s.waiting, next_step(s, e, now).0.waiting),
        },
{
    if let Event::Changed { kind, paths } = e {
        lemma_queue_changes(s.roots, s.waiting, texts(paths@));
    }
    assert(s.waiting.take(s.waiting.len() as int) =~= s.waiting);
}

/// A created or modified path that is a queued change waits, or is handed
/// out to be checked, right after the event that reports it.
pub proof fn lemma_reported_change_waits(
    s: DaemonState,
    kind: ChangeKind,
    paths: Vec<String>,
    now: u64,
    p: Seq<char>,
)
    requires
        kind is Create || kind is Modify,
        texts(paths@).contains(p),
        queued_change(s.roots, p),
    ensures
        ({
            let (t, d) = next_step(s, Event::Changed { kind, paths }, now);
            match d {
                Decision::Check(ps) => is_watched(ps, p),
                _ => is_watched(t.waiting, p),
            }
        }),
{
    lemma_queue_changes(s.roots, s.waiting, texts(paths@));
    let j = choose|j: int| 0 <= j < texts(paths@).len() && texts(paths@)[j] == p;
    assert(queued_change(s.roots, texts(paths@)[j]));
}

/// Once something waits and the window has passed since the last change,
/// the next quiet step hands out everything that waits.
pub proof fn lemma_due_queue_is_checked(s: DaemonState, e: Event, now: u64)
    requires
        e is Timeout || e is WatchError,
        s.waiting.len() > 0,
        elapsed(now, s.last_change) >= s.window,
    ensures
        next_step(s, e, now).1 == Decision::Check(s.waiting),
        next_step(s, e, now).0.waiting.len() == 0,
{
}

/// The text of a timestamp: year in four digits, then month, day, hour,
/// minute and second in two each (more when a value needs more).
pub open spec fn timestamp_text(
    year: nat,
    month: nat,
    day: nat,
    hour: nat,
    minute: nat,
    second: nat,
) -> Seq<char> {
    padded_decimal(year, 4) + padded_decimal(month, 2) + padded_decimal(day, 2) + padded_decimal(
        hour,
        2,
    ) + padded_decimal(minute, 2) + padded_decimal(second, 2)
}

/// The timestamp a version is named with, YYYYMMDDHHMMSS.
pub fn format_timestamp(year: u32, month: u32, day: u32, hour: u32, minute: u32, second: u32) -> (r:
    String)
    ensures
        r@ == timestamp_text(year as nat, month as nat, day as nat, hour as nat, minute as nat, second as nat),
{
    let mut r = to_padded_decimal(year, 4);
    r.append(to_padded_decimal(month, 2).as_str());
    r.append(to_padded_decimal(day, 2).as_str());
    r.append(to_padded_decimal(hour, 2).as_str());
    r.append(to_padded_decimal(minute, 2).as_str());
    r.append(to_padded_decimal(second, 2).as_str());
    r
}

/// Which stored version a restore uses: the `requested`-th newest (the
/// newest when none is asked for), as an index into the newest-first list;
/// none when that number is 0 or beyond the number of versions.
pub fn select_version(count: usize, requested: Option<usize>) -> (r: Option<usize>)
    ensures
        ({
            let n = match requested {
                Some(k) => k,
                None => 1,
            };
            &&& r is Some <==> 1 <= n <= count
            &&& r matches Some(i) ==> i == n - 1
        }),
{
    let idx = match requested {
        Some(k) => k,
        None => 1,
    };
    if idx == 0 || idx > count {
        None
    } else {
        Some(idx - 1)
    }
}


/// A timestamp made from a year below 10000 and the other fields below 100
/// is fourteen digits.
pub proof fn lemma_timestamp_is_valid(
    year: nat,
    month: nat,
    day: nat,
    hour: nat,
    minute: nat,
    second: nat,
)
    requires
        year < 10000,
        month < 100,
        day < 100,
        hour < 100,
        minute < 100,
        second < 100,
    ensures
        is_timestamp(timestamp_text(year, month, day, hour, minute, second)),
{
    reveal_with_fuel(pow10, 5);
    lemma_padded_decimal(year, 4);
    lemma_padded_decimal(month, 2);
    lemma_padded_decimal(day, 2);
    lemma_padded_decimal(hour, 2);
    lemma_padded_decimal(minute, 2);
    lemma_padded_decimal(second, 2);
    let t = timestamp_text(year, month, day, hour, minute, second);
    let parts = seq![
        padded_decimal(year, 4),
        padded_decimal(month, 2),
        padded_decimal(day, 2),
        padded_decimal(hour, 2),
        padded_decimal(minute, 2),
        padded_decimal(second, 2),
    ];
    assert forall|i: int| 0 <= i < 14 implies '0' <= #[trigger] t[i] <= '9' by {
        if i < 4 {
            assert(t[i] == padded_decimal(year, 4)[i]);
        } else if i < 6 {
            assert(t[i] == padded_decimal(month, 2)[i - 4]);
        } else if i < 8 {
            assert(t[i] == padded_decimal(day, 2)[i - 6]);
        } else if i < 10 {
            assert(t[i] == padded_decimal(hour, 2)[i - 8]);
        } else if i < 12 {
            assert(t[i] == padded_decimal(minute, 2)[i - 10]);
        } else {
            assert(t[i] == padded_decimal(second, 2)[i - 12]);
        }
    }
}

/// A version saved at a given time is read back from its file name with
/// the same timestamp, and is shown as "YYYY-MM-DD HH:MM:SS" of that time.
pub proof fn lemma_saved_version_is_listed(
    stem: Seq<char>,
    ext: Seq<char>,
    year: nat,
    month: nat,
    day: nat,
    hour: nat,
    minute: nat,
    second: nat,
)
    requires
        year < 10000,
        month < 100,
        day < 100,
        hour < 100,
        minute < 100,
        second < 100,
    ensures
        ({
            let ts = timestamp_text(year, month, day, hour, minute, second);
            &&& version_timestamp(version_name(stem, ts, ext), stem, ext) == Some(ts)
            &&& display_of(ts) == padded_decimal(year, 4) + "-"@ + padded_decimal(month, 2) + "-"@
                + padded_decimal(day, 2) + " "@ + padded_decimal(hour, 2) + ":"@ + padded_decimal(
                minute,
                2,
            ) + ":"@ + padded_decimal(second, 2)
        }),
{
    lemma_timestamp_is_valid(year, month, day, hour, minute, second);
    let ts = timestamp_text(year, month, day, hour, minute, second);
    lemma_version_name_round_trip(stem, ts, ext);
    let y = padded_decimal(year, 4);
    let mo = padded_decimal(month, 2);
    let d = padded_decimal(day, 2);
    let h = padded_decimal(hour, 2);
    let mi = padded_decimal(minute, 2);
    let s = padded_decimal(second, 2);
    assert(ts.subrange(0, 4) =~= y);
    assert(ts.subrange(4, 6) =~= mo);
    assert(ts.subrange(6, 8) =~= d);
    assert(ts.subrange(8, 10) =~= h);
    assert(ts.subrange(10, 12) =~= mi);
    assert(ts.subrange(12, 14) =~= s);
}

} // verus!
