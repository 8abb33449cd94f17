//! The debounce engine.
//!
//! The engine turns a stream of qualifying candidate paths into a stream of
//! promotions. It keeps one pending entry per path, stamped with the time the
//! path was *first* seen (later events for the same path never restart the
//! timer), and on each tick boundary promotes every entry whose observed
//! lifetime has reached the debounce window, removing it from pending state.
//!
//! Times are monotonic milliseconds supplied by the caller; the engine never
//! reads a clock itself, which keeps every decision it makes a function of
//! its inputs.

use vstd::prelude::*;

use crate::event::Candidate;
use crate::event::RawEventKind;
use crate::event::filter_candidates;
use crate::event::views_of_strings;
use crate::event::qualifying_paths;

verus! {

/// Mathematical form of one pending entry.
pub ghost struct GEntry {
    pub path: Seq<char>,
    pub first_seen: int,
}

/// Whether some entry in `s` is for path `p`.
pub open spec fn seq_has(s: Seq<GEntry>, p: Seq<char>) -> bool {
    exists|i: int| 0 <= i < s.len() && s[i].path == p
}

/// No two entries are for the same path.
pub open spec fn unique_paths(s: Seq<GEntry>) -> bool {
    forall|i: int, j: int| 0 <= i < j < s.len() ==> s[i].path != s[j].path
}

/// Mathematical form of the engine state.
#[verifier::ext_equal]
pub ghost struct GState {
    /// Canonical absolute path of the watch root.
    pub root: Seq<char>,
    /// Debounce window, in milliseconds.
    pub window: int,
    /// Tick period, in milliseconds.
    pub tick: int,
    /// Time of the most recent sweep.
    pub last_flush: int,
    /// Pending entries, in order of first observation.
    pub pending: Seq<GEntry>,
}

/// Mathematical form of one engine input.
pub ghost enum GInput {
    /// A raw event arrived from the native source.
    Event(RawEventKind, Seq<Candidate>),
    /// The native source reported a transient error; it is logged upstream
    /// and otherwise ignored.
    SourceError,
    /// The timeout-bounded receive elapsed without an event.
    Timeout,
    /// The native source disconnected; the watch loop must stop after this
    /// step.
    Closed,
}

/// What one step of the engine produced.
pub ghost struct GStepResult {
    pub state: GState,
    /// Paths promoted by this step, in order of first observation.
    pub ready: Seq<Seq<char>>,
    /// Whether the watch loop must stop.
    pub stop: bool,
}

/// Insert `p` only if absent: a second event for an already-pending path
/// does not restart its timer.
pub open spec fn spec_note_one(pending: Seq<GEntry>, p: Seq<char>, now: int) -> Seq<GEntry> {
    if seq_has(pending, p) {
        pending
    } else {
        pending.push(GEntry { path: p, first_seen: now })
    }
}

/// Insert each path of `paths` in order, each only if absent.
pub open spec fn spec_note_all(pending: Seq<GEntry>, paths: Seq<Seq<char>>, now: int) -> Seq<
    GEntry,
>
    decreases paths.len(),
{
    if paths.len() == 0 {
        pending
    } else {
        spec_note_one(spec_note_all(pending, paths.drop_last(), now), paths.last(), now)
    }
}

/// The entries old enough to promote at time `now`, in pending order.
pub open spec fn spec_ready(pending: Seq<GEntry>, window: int, now: int) -> Seq<GEntry>
    decreases pending.len(),
{
    if pending.len() == 0 {
        Seq::empty()
    } else {
        let rest = spec_ready(pending.drop_last(), window, now);
        if now - pending.last().first_seen >= window {
            rest.push(pending.last())
        } else {
            rest
        }
    }
}

/// The entries that stay pending at time `now`, in pending order.
pub open spec fn spec_retained(pending: Seq<GEntry>, window: int, now: int) -> Seq<GEntry>
    decreases pending.len(),
{
    if pending.len() == 0 {
        Seq::empty()
    } else {
        let rest = spec_retained(pending.drop_last(), window, now);
        if now - pending.last().first_seen >= window {
            rest
        } else {
            rest.push(pending.last())
        }
    }
}

/// The paths of a sequence of entries, in the same order.
pub open spec fn paths_of(s: Seq<GEntry>) -> Seq<Seq<char>>
    decreases s.len(),
{
    if s.len() == 0 {
        Seq::empty()
    } else {
        paths_of(s.drop_last()).push(s.last().path)
    }
}

/// One step of the watch loop: a disconnect stops the loop at once;
/// otherwise the step records whatever the input introduces and then, if a
/// full tick period has passed since the last sweep, promotes every entry
/// whose age has reached the debounce window.
pub open spec fn spec_step(st: GState, input: GInput, now: int) -> GStepResult {
    if input is Closed {
        GStepResult { state: st, ready: Seq::empty(), stop: true }
    } else {
        spec_live_step(st, input, now)
    }
}

/// The live part of a step: note, then sweep on a tick boundary.
pub open spec fn spec_live_step(st: GState, input: GInput, now: int) -> GStepResult {
    let noted = match input {
        GInput::Event(kind, cands) => if kind.spec_is_interesting() {
            spec_note_all(st.pending, qualifying_paths(cands, st.root), now)
        } else {
            st.pending
        },
        _ => st.pending,
    };
    let stop = false;
    if now - st.last_flush >= st.tick {
        GStepResult {
            state: GState {
                root: st.root,
                window: st.window,
                tick: st.tick,
                last_flush: now,
                pending: spec_retained(noted, st.window, now),
            },
            ready: paths_of(spec_ready(noted, st.window, now)),
            stop: stop,
        }
    } else {
        GStepResult {
            state: GState {
                root: st.root,
                window: st.window,
                tick: st.tick,
                last_flush: st.last_flush,
                pending: noted,
            },
            ready: Seq::empty(),
            stop: stop,
        }
    }
}

/// Appending an entry appends its path.
pub proof fn lemma_paths_of_push(s: Seq<GEntry>, e: GEntry)
    ensures
        paths_of(s.push(e)) == paths_of(s).push(e.path),
{
    let sp = s.push(e);
    assert(sp.drop_last() =~= s);
    assert(sp.last() == e);
    assert(paths_of(sp) == paths_of(sp.drop_last()).push(sp.last().path));
}

/// Everything a sweep retains was pending before.
pub proof fn lemma_retained_sub(s: Seq<GEntry>, window: int, now: int)
    ensures
        forall|k: int|
            0 <= k < spec_retained(s, window, now).len() ==> exists|i: int|
                0 <= i < s.len() && s[i] == #[trigger] spec_retained(s, window, now)[k],
    decreases s.len(),
{
    if s.len() > 0 {
        lemma_retained_sub(s.drop_last(), window, now);
        let r = spec_retained(s, window, now);
        let rest = spec_retained(s.drop_last(), window, now);
        assert forall|k: int| 0 <= k < r.len() implies exists|i: int|
            0 <= i < s.len() && s[i] == #[trigger] r[k] by {
            if now - s.last().first_seen >= window || k < rest.len() {
                assert(r[k] == rest[k]);
                assert(exists|i: int|
                    0 <= i < s.drop_last().len() && s.drop_last()[i] == #[trigger] rest[k]);
                let i = choose|i: int|
                    0 <= i < s.drop_last().len() && s.drop_last()[i] == #[trigger] rest[k];
                assert(s.drop_last()[i] == s[i]);
                assert(s[i] == r[k]);
            } else {
                assert(r[k] == s.last());
                assert(s[s.len() - 1] == r[k]);
            }
        }
    }
}

/// A sweep never duplicates paths: what it retains keeps paths unique.
pub proof fn lemma_retained_unique(s: Seq<GEntry>, window: int, now: int)
    requires
        unique_paths(s),
    ensures
        unique_paths(spec_retained(s, window, now)),
    decreases s.len(),
{
    if s.len() > 0 {
        assert(forall|i: int| 0 <= i < s.len() - 1 ==> s.drop_last()[i] == s[i]);
        lemma_retained_unique(s.drop_last(), window, now);
        lemma_retained_sub(s.drop_last(), window, now);
        let r = spec_retained(s, window, now);
        let rest = spec_retained(s.drop_last(), window, now);
        if now - s.last().first_seen >= window {
        } else {
            assert(forall|k: int| 0 <= k < rest.len() ==> rest[k].path != s.last().path) by {
                assert(forall|k: int|
                    0 <= k < rest.len() ==> exists|i: int|
                        0 <= i < s.drop_last().len() && s.drop_last()[i] == #[trigger] rest[k]);
            }
        }
    }
}

/// One pending path and the time it was first observed. Created on the first
/// qualifying raw event for the path; removed exactly once, on promotion.
pub struct PendingEntry {
    pub path: String,
    pub first_seen: u64,
}

impl PendingEntry {
    /// Mathematical form of the entry.
    pub open spec fn gmodel(self) -> GEntry {
        GEntry { path: self.path@, first_seen: self.first_seen as int }
    }
}

/// The mathematical forms of a sequence of pending entries, in order.
pub open spec fn entries_model(v: Seq<PendingEntry>) -> Seq<GEntry> {
    v.map_values(|e: PendingEntry| e.gmodel())
}

/// One raw input to the engine, as the watch loop receives it.
pub enum RawInput {
    /// A raw event: its kind and the affected candidate paths.
    Event(RawEventKind, Vec<Candidate>),
    /// The native source reported a transient error for a single event.
    SourceError,
    /// The timeout-bounded receive elapsed without an event.
    Timeout,
    /// The native source disconnected.
    Closed,
}

impl RawInput {
    /// Mathematical form of the input.
    pub open spec fn gmodel(self) -> GInput {
        match self {
            RawInput::Event(kind, cands) => GInput::Event(kind, cands@),
            RawInput::SourceError => GInput::SourceError,
            RawInput::Timeout => GInput::Timeout,
            RawInput::Closed => GInput::Closed,
        }
    }
}

/// The debounce engine: private state of the single watcher thread.
pub struct DebounceEngine {
    root: String,
    window_ms: u64,
    tick_ms: u64,
    clock: u64,
    last_flush: u64,
    pending: Vec<PendingEntry>,
}

impl DebounceEngine {
    /// The pending entries, as mathematical values.
    pub closed spec fn pending_model(self) -> Seq<GEntry> {
        entries_model(self.pending@)
    }

    /// Mathematical form of the whole engine state.
    pub closed spec fn gmodel(self) -> GState {
        GState {
            root: self.root@,
            window: self.window_ms as int,
            tick: self.tick_ms as int,
            last_flush: self.last_flush as int,
            pending: self.pending_model(),
        }
    }

    /// The most recent time the engine has been given.
    pub closed spec fn spec_clock(self) -> int {
        self.clock as int
    }

    /// Well-formedness: paths are unique, and no recorded time lies in the
    /// future of the engine's clock.
    pub closed spec fn wf(self) -> bool {
        &&& unique_paths(self.pending_model())
        &&& self.last_flush <= self.clock
        &&& forall|i: int|
            0 <= i < self.pending_model().len() ==> (#[trigger] self.pending_model()[i]).first_seen
                <= self.clock as int
    }

    /// A fresh engine: nothing pending, the sweep timer started at `start`.
    pub fn new(root: String, window_ms: u64, tick_ms: u64, start: u64) -> (e: Self)
        ensures
            e.wf(),
            e.spec_clock() == start as int,
            e.gmodel() == (GState {
                root: root@,
                window: window_ms as int,
                tick: tick_ms as int,
                last_flush: start as int,
                pending: Seq::<GEntry>::empty(),
            }),
    {
        let e = DebounceEngine {
            root,
            window_ms,
            tick_ms,
            clock: start,
            last_flush: start,
            pending: Vec::new(),
        };
        proof {
            assert(e.pending_model() =~= Seq::<GEntry>::empty());
        }
        e
    }

    /// Record one qualifying path, only if absent: first-seen semantics.
    fn note(&mut self, path: String, now: u64)
        requires
            old(self).wf(),
            old(self).spec_clock() == now as int,
        ensures
            final(self).wf(),
            final(self).spec_clock() == old(self).spec_clock(),
            final(self).gmodel() == (GState {
                pending: spec_note_one(old(self).pending_model(), path@, now as int),
                ..old(self).gmodel()
            }),
    {
        let ghost before = self.pending_model();
        let mut i: usize = 0;
        let n = self.pending.len();
        while i < n
            invariant
                n == self.pending@.len(),
                self == old(self),
                old(self).wf(),
                before == self.pending_model(),
                forall|k: int| 0 <= k < i ==> (#[trigger] before[k]).path != path@,
            decreases n - i,
        {
            proof {
                assert(before[i as int] == self.pending@[i as int].gmodel());
            }
            if self.pending[i].path.eq(&path) {
                proof {
                    assert(seq_has(before, path@)) by {
                        assert(before[i as int].path == path@);
                    }
                }
                return ;
            }
            i = i + 1;
        }
        proof {
            assert(!seq_has(before, path@)) by {
                assert(forall|k: int| 0 <= k < before.len() ==> (#[trigger] before[k]).path
                    != path@);
            }
        }
        let ghost ge = GEntry { path: path@, first_seen: now as int };
        self.pending.push(PendingEntry { path, first_seen: now });
        proof {
            let after = self.pending_model();
            assert(after =~= before.push(ge)) by {
                assert(forall|k: int|
                    0 <= k < before.len() ==> #[trigger] after[k] == before[k]) by {
                    assert(forall|k: int|
                        0 <= k < before.len() ==> self.pending@[k] == old(self).pending@[k]);
                }
                assert(after[before.len() as int] == ge);
            }
            assert(unique_paths(before.push(ge))) by {
                assert(forall|k: int|
                    0 <= k < before.len() ==> (#[trigger] before.push(ge)[k]).path != ge.path);
            }
            assert(forall|k: int|
                0 <= k < after.len() ==> (#[trigger] after[k]).first_seen <= self.clock as int) by {
                assert(forall|k: int| 0 <= k < before.len() ==> after[k] == before[k]);
                assert(after[before.len() as int] == ge);
            }
            assert(self.gmodel() =~= (GState {
                pending: spec_note_one(old(self).pending_model(), path@, now as int),
                ..old(self).gmodel()
            }));
        }
    }

    /// Promote every entry whose age has reached the debounce window,
    /// removing it from pending state; the promoted paths come back in
    /// pending (first-observation) order.
    fn sweep(&mut self, now: u64) -> (ready: Vec<String>)
        requires
            old(self).wf(),
            old(self).spec_clock() <= now as int,
        ensures
            final(self).wf(),
            final(self).spec_clock() == old(self).spec_clock(),
            final(self).gmodel() == (GState {
                pending: spec_retained(
                    old(self).pending_model(),
                    old(self).gmodel().window,
                    now as int,
                ),
                ..old(self).gmodel()
            }),
            views_of_strings(ready@) == paths_of(
                spec_ready(old(self).pending_model(), old(self).gmodel().window, now as int),
            ),
    {
        let ghost w = self.window_ms as int;
        let mut retained: Vec<PendingEntry> = Vec::new();
        let mut ready: Vec<String> = Vec::new();
        let mut i: usize = 0;
        let n = self.pending.len();
        while i < n
            invariant
                0 <= i <= n,
                n == self.pending@.len(),
                self == old(self),
                w == self.window_ms as int,
                old(self).wf(),
                old(self).spec_clock() <= now as int,
                entries_model(retained@) == spec_retained(
                    self.pending_model().take(i as int),
                    w,
                    now as int,
                ),
                views_of_strings(ready@) == paths_of(
                    spec_ready(self.pending_model().take(i as int), w, now as int),
                ),
            decreases n - i,
        {
            let ghost part = self.pending_model().take(i as int);
            let ghost next = self.pending_model().take(i + 1);
            proof {
                assert(next.drop_last() =~= part);
                assert(next.last() == self.pending_model()[i as int]);
                assert(self.pending_model()[i as int] == self.pending@[i as int].gmodel());
                assert(self.pending_model()[i as int].first_seen <= self.clock as int);
            }
            let e = &self.pending[i];
            if now - e.first_seen >= self.window_ms {
                ready.push(e.path.clone());
                proof {
                    lemma_paths_of_push(spec_ready(part, w, now as int), next.last());
                    assert(spec_ready(next, w, now as int) == spec_ready(part, w, now as int).push(
                        next.last(),
                    ));
                    assert(views_of_strings(ready@) =~= paths_of(
                        spec_ready(part, w, now as int),
                    ).push(next.last().path));
                }
            } else {
                retained.push(PendingEntry { path: e.path.clone(), first_seen: e.first_seen });
                proof {
                    assert(spec_retained(next, w, now as int) == spec_retained(
                        part,
                        w,
                        now as int,
                    ).push(next.last()));
                    assert(entries_model(retained@) =~= spec_retained(
                        part,
                        w,
                        now as int,
                    ).push(next.last()));
                }
            }
            i = i + 1;
        }
        proof {
            assert(self.pending_model().take(n as int) =~= self.pending_model());
        }
        self.pending = retained;
        proof {
            let oldm = old(self).pending_model();
            let newm = self.pending_model();
            assert(newm == spec_retained(oldm, w, now as int));
            lemma_retained_sub(oldm, w, now as int);
            lemma_retained_unique(oldm, w, now as int);
            assert(forall|k: int|
                0 <= k < newm.len() ==> (#[trigger] newm[k]).first_seen <= self.clock as int) by {
                assert(forall|k: int|
                    0 <= k < newm.len() ==> exists|i: int|
                        0 <= i < oldm.len() && oldm[i] == #[trigger] newm[k]);
            }
            assert(self.gmodel() =~= (GState {
                pending: spec_retained(
                    old(self).pending_model(),
                    old(self).gmodel().window,
                    now as int,
                ),
                ..old(self).gmodel()
            }));
        }
        ready
    }

    /// The canonical watch root this engine filters against.
    pub fn root(&self) -> (r: &String)
        ensures
            r@ == self.gmodel().root,
    {
        &self.root
    }

    /// The debounce window, in milliseconds.
    pub fn window_ms(&self) -> (r: u64)
        ensures
            r as int == self.gmodel().window,
    {
        self.window_ms
    }

    /// The tick period, in milliseconds.
    pub fn tick_ms(&self) -> (r: u64)
        ensures
            r as int == self.gmodel().tick,
    {
        self.tick_ms
    }

    /// One iteration of the watch loop: record what the input introduces,
    /// then sweep if a full tick period has passed since the last sweep.
    /// Returns the promoted paths, in order of first observation, and
    /// whether the loop must stop (the native source disconnected).
    pub fn step(&mut self, input: RawInput, now: u64) -> (r: (Vec<String>, bool))
        requires
            old(self).wf(),
            old(self).spec_clock() <= now as int,
        ensures
            final(self).wf(),
            final(self).spec_clock() == now as int,
            ({
                let res = spec_step(old(self).gmodel(), input.gmodel(), now as int);
                &&& final(self).gmodel() == res.state
                &&& views_of_strings(r.0@) == res.ready
                &&& r.1 == res.stop
            }),
    {
        self.clock = now;
        proof {
            assert(self.pending_model() == old(self).pending_model());
            assert(self.gmodel() =~= old(self).gmodel());
            assert(self.wf());
        }
        match &input {
            RawInput::Closed => {
                let ready: Vec<String> = Vec::new();
                proof {
                    assert(views_of_strings(ready@) =~= Seq::<Seq<char>>::empty());
                    assert(self.gmodel() =~= old(self).gmodel());
                }
                return (ready, true);
            },
            RawInput::Event(kind, cands) => {
                if kind.is_interesting() {
                    let paths = filter_candidates(&self.root, cands);
                    let ghost qpaths = qualifying_paths(cands@, old(self).gmodel().root);
                    let mut j: usize = 0;
                    let m = paths.len();
                    proof {
                        assert(qpaths.take(0) =~= Seq::<Seq<char>>::empty());
                    }
                    while j < m
                        invariant
                            0 <= j <= m,
                            m == paths@.len(),
                            views_of_strings(paths@) == qpaths,
                            self.wf(),
                            self.spec_clock() == now as int,
                            self.gmodel() == (GState {
                                pending: spec_note_all(
                                    old(self).pending_model(),
                                    qpaths.take(j as int),
                                    now as int,
                                ),
                                ..old(self).gmodel()
                            }),
                        decreases m - j,
                    {
                        proof {
                            assert(qpaths.take(j + 1).drop_last() =~= qpaths.take(j as int));
                            assert(qpaths.take(j + 1).last() == qpaths[j as int]);
                            assert(views_of_strings(paths@)[j as int] == paths@[j as int]@);
                        }
                        let p = paths[j].clone();
                        self.note(p, now);
                        j = j + 1;
                    }
                    proof {
                        assert(qpaths.take(m as int) =~= qpaths);
                    }
                }
            },
            _ => {},
        }
        proof {
            let res = spec_step(old(self).gmodel(), input.gmodel(), now as int);
            let noted = match input.gmodel() {
                GInput::Event(kind, cands) => if kind.spec_is_interesting() {
                    spec_note_all(
                        old(self).gmodel().pending,
                        qualifying_paths(cands, old(self).gmodel().root),
                        now as int,
                    )
                } else {
                    old(self).gmodel().pending
                },
                _ => old(self).gmodel().pending,
            };
            assert(self.gmodel() =~= (GState { pending: noted, ..old(self).gmodel() }));
        }
        if now - self.last_flush >= self.tick_ms {
            let ghost pre = *self;
            let ready = self.sweep(now);
            self.last_flush = now;
            proof {
                let res = spec_step(old(self).gmodel(), input.gmodel(), now as int);
                assert(self.pending_model() == spec_retained(
                    pre.pending_model(),
                    pre.gmodel().window,
                    now as int,
                ));
                assert(self.gmodel() =~= res.state);
                assert(self.wf());
            }
            (ready, false)
        } else {
            let ready: Vec<String> = Vec::new();
            proof {
                assert(views_of_strings(ready@) =~= Seq::<Seq<char>>::empty());
            }
            (ready, false)
        }
    }
}

/// `paths_of` keeps length and order.
pub proof fn lemma_paths_of_index(s: Seq<GEntry>)
    ensures
        paths_of(s).len() == s.len(),
        forall|j: int| 0 <= j < s.len() ==> paths_of(s)[j] == s[j].path,
    decreases s.len(),
{
    if s.len() > 0 {
        lemma_paths_of_index(s.drop_last());
        assert(forall|j: int| 0 <= j < s.len() - 1 ==> s.drop_last()[j] == s[j]);
    }
}

/// Everything a sweep promotes was pending and was due.
pub proof fn lemma_ready_sub(s: Seq<GEntry>, window: int, now: int)
    ensures
        forall|k: int|
            0 <= k < spec_ready(s, window, now).len() ==> exists|i: int|
                0 <= i < s.len() && s[i] == #[trigger] spec_ready(s, window, now)[k],
        forall|k: int|
            0 <= k < spec_ready(s, window, now).len() ==> now - (#[trigger] spec_ready(
                s,
                window,
                now,
            )[k]).first_seen >= window,
    decreases s.len(),
{
    if s.len() > 0 {
        lemma_ready_sub(s.drop_last(), window, now);
        let r = spec_ready(s, window, now);
        let rest = spec_ready(s.drop_last(), window, now);
        assert forall|k: int| 0 <= k < r.len() implies exists|i: int|
            0 <= i < s.len() && s[i] == #[trigger] r[k] by {
            if k < rest.len() {
                assert(r[k] == rest[k]);
                let i = choose|i: int|
                    0 <= i < s.drop_last().len() && s.drop_last()[i] == #[trigger] rest[k];
                assert(s.drop_last()[i] == s[i]);
                assert(s[i] == r[k]);
            } else {
                assert(r[k] == s.last());
                assert(s[s.len() - 1] == r[k]);
            }
        }
    }
}

/// Noting paths extends the pending entries: what was pending stays, at its
/// index, and everything appended was first seen now, for a noted path.
pub proof fn lemma_note_all_extends(s: Seq<GEntry>, ps: Seq<Seq<char>>, now: int)
    ensures
        spec_note_all(s, ps, now).len() >= s.len(),
        forall|k: int| 0 <= k < s.len() ==> #[trigger] spec_note_all(s, ps, now)[k] == s[k],
        forall|k: int|
            s.len() <= k < spec_note_all(s, ps, now).len() ==> (#[trigger] spec_note_all(
                s,
                ps,
                now,
            )[k]).first_seen == now && ps.contains(spec_note_all(s, ps, now)[k].path),
    decreases ps.len(),
{
    if ps.len() > 0 {
        lemma_note_all_extends(s, ps.drop_last(), now);
        let prev = spec_note_all(s, ps.drop_last(), now);
        let cur = spec_note_all(s, ps, now);
        if seq_has(prev, ps.last()) {
        } else {
            assert(cur == prev.push(GEntry { path: ps.last(), first_seen: now }));
            assert(ps.contains(ps.last())) by {
                assert(ps[ps.len() - 1] == ps.last());
            }
            assert forall|k: int|
                s.len() <= k < cur.len() implies (#[trigger] cur[k]).first_seen == now
                && ps.contains(cur[k].path) by {
                if k < prev.len() {
                    assert(cur[k] == prev[k]);
                    assert(ps.drop_last().contains(prev[k].path)) by {
                        assert(prev[k].first_seen == now && ps.drop_last().contains(prev[k].path));
                    }
                    let j = choose|j: int|
                        0 <= j < ps.drop_last().len() && ps.drop_last()[j] == prev[k].path;
                    assert(ps[j] == prev[k].path);
                } else {
                    assert(cur[k] == GEntry { path: ps.last(), first_seen: now });
                }
            }
        }
    }
}

/// Noting paths keeps pending paths unique.
pub proof fn lemma_note_all_unique(s: Seq<GEntry>, ps: Seq<Seq<char>>, now: int)
    requires
        unique_paths(s),
    ensures
        unique_paths(spec_note_all(s, ps, now)),
    decreases ps.len(),
{
    if ps.len() > 0 {
        lemma_note_all_unique(s, ps.drop_last(), now);
        let prev = spec_note_all(s, ps.drop_last(), now);
        let cur = spec_note_all(s, ps, now);
        if seq_has(prev, ps.last()) {
        } else {
            assert(cur == prev.push(GEntry { path: ps.last(), first_seen: now }));
            assert forall|i: int, j: int| 0 <= i < j < cur.len() implies cur[i].path
                != cur[j].path by {
                if j < prev.len() {
                } else {
                    assert(cur[j].path == ps.last());
                    assert(cur[i] == prev[i]);
                    assert(!(exists|m: int| 0 <= m < prev.len() && prev[m].path == ps.last()));
                }
            }
        }
    }
}

/// A sweep promotes each path at most once: with unique pending paths, the
/// promoted entries keep paths unique.
pub proof fn lemma_ready_unique(s: Seq<GEntry>, window: int, now: int)
    requires
        unique_paths(s),
    ensures
        unique_paths(spec_ready(s, window, now)),
    decreases s.len(),
{
    if s.len() > 0 {
        assert(forall|i: int| 0 <= i < s.len() - 1 ==> s.drop_last()[i] == s[i]);
        lemma_ready_unique(s.drop_last(), window, now);
        lemma_ready_sub(s.drop_last(), window, now);
        let r = spec_ready(s, window, now);
        let rest = spec_ready(s.drop_last(), window, now);
        if now - s.last().first_seen >= window {
            assert(forall|k: int| 0 <= k < rest.len() ==> rest[k].path != s.last().path) by {
                assert(forall|k: int|
                    0 <= k < rest.len() ==> exists|i: int|
                        0 <= i < s.drop_last().len() && s.drop_last()[i] == #[trigger] rest[k]);
            }
        }
    }
}

/// An entry that is pending and not yet due stays pending across a sweep.
pub proof fn lemma_not_due_retained(s: Seq<GEntry>, window: int, now: int, i: int)
    requires
        0 <= i < s.len(),
        now - s[i].first_seen < window,
    ensures
        seq_has(spec_retained(s, window, now), s[i].path),
        exists|k: int|
            0 <= k < spec_retained(s, window, now).len() && #[trigger] spec_retained(
                s,
                window,
                now,
            )[k] == s[i],
    decreases s.len(),
{
    let r = spec_retained(s, window, now);
    let rest = spec_retained(s.drop_last(), window, now);
    if i == s.len() - 1 {
        assert(s.last() == s[i]);
        assert(r == rest.push(s[i]));
        assert(r[r.len() - 1] == s[i]);
    } else {
        assert(s.drop_last()[i] == s[i]);
        lemma_not_due_retained(s.drop_last(), window, now, i);
        let k = choose|k: int| 0 <= k < rest.len() && #[trigger] rest[k] == s[i];
        assert(r[k] == s[i]) by {
            if now - s.last().first_seen >= window {
                assert(r == rest);
            } else {
                assert(r == rest.push(s.last()));
            }
        }
    }
}

/// An entry that is pending and due is promoted by a sweep.
pub proof fn lemma_due_in_ready(s: Seq<GEntry>, window: int, now: int, i: int)
    requires
        0 <= i < s.len(),
        now - s[i].first_seen >= window,
    ensures
        paths_of(spec_ready(s, window, now)).contains(s[i].path),
    decreases s.len(),
{
    let r = spec_ready(s, window, now);
    let rest = spec_ready(s.drop_last(), window, now);
    lemma_paths_of_index(r);
    if i == s.len() - 1 {
        assert(s.last() == s[i]);
        assert(r == rest.push(s[i]));
        assert(r[r.len() - 1] == s[i]);
        assert(paths_of(r)[r.len() - 1] == s[i].path);
    } else {
        assert(s.drop_last()[i] == s[i]);
        lemma_due_in_ready(s.drop_last(), window, now, i);
        lemma_paths_of_index(rest);
        let k = choose|k: int| 0 <= k < paths_of(rest).len() && paths_of(rest)[k] == s[i].path;
        assert(rest[k].path == s[i].path);
        assert(r[k] == rest[k]) by {
            if now - s.last().first_seen >= window {
                assert(r == rest.push(s.last()));
            } else {
                assert(r == rest);
            }
        }
        assert(paths_of(r)[k] == s[i].path);
    }
}

/// A promoted path leaves pending state: after a sweep over entries with
/// unique paths, no retained entry carries it.
pub proof fn lemma_promoted_not_pending(s: Seq<GEntry>, window: int, now: int, p: Seq<char>)
    requires
        unique_paths(s),
        paths_of(spec_ready(s, window, now)).contains(p),
    ensures
        !seq_has(spec_retained(s, window, now), p),
{
    let ready = spec_ready(s, window, now);
    let ret = spec_retained(s, window, now);
    lemma_paths_of_index(ready);
    let k = choose|k: int| 0 <= k < paths_of(ready).len() && paths_of(ready)[k] == p;
    assert(ready[k].path == p);
    lemma_ready_sub(s, window, now);
    let i = choose|i: int| 0 <= i < s.len() && s[i] == ready[k];
    lemma_retained_sub(s, window, now);
    assert forall|m: int| 0 <= m < ret.len() implies (#[trigger] ret[m]).path != p by {
        let j = choose|j: int| 0 <= j < s.len() && s[j] == ret[m];
        lemma_retained_not_due(s, window, now, m);
        if j == i {
            assert(now - s[i].first_seen >= window);
        } else {
            assert(s[j].path != s[i].path);
        }
    }
}

/// Everything a sweep retains was not yet due.
pub proof fn lemma_retained_not_due(s: Seq<GEntry>, window: int, now: int, k: int)
    requires
        0 <= k < spec_retained(s, window, now).len(),
    ensures
        now - spec_retained(s, window, now)[k].first_seen < window,
    decreases s.len(),
{
    if s.len() > 0 {
        let r = spec_retained(s, window, now);
        let rest = spec_retained(s.drop_last(), window, now);
        if k < rest.len() {
            lemma_retained_not_due(s.drop_last(), window, now, k);
        }
    }
}

} // verus!
