//! Whole-run laws of the debounce engine.
//!
//! A run is a sequence of timed inputs fed to `spec_step`, starting from a
//! fresh engine state. The proofs here state what holds of every
//! notification such a run emits: a notification is emitted only for a path
//! some event offered, never before the path's debounce window has elapsed
//! since that event, at most once per offer, and by the first sweep that
//! runs once the window has elapsed.

use vstd::prelude::*;

use crate::debounce::GEntry;
use crate::debounce::GInput;
use crate::debounce::GState;
use crate::debounce::lemma_due_in_ready;
use crate::debounce::lemma_note_all_extends;
use crate::debounce::lemma_note_all_unique;
use crate::debounce::lemma_not_due_retained;
use crate::debounce::lemma_paths_of_index;
use crate::debounce::lemma_promoted_not_pending;
use crate::debounce::lemma_ready_sub;
use crate::debounce::lemma_ready_unique;
use crate::debounce::lemma_retained_not_due;
use crate::debounce::lemma_retained_sub;
use crate::debounce::lemma_retained_unique;
use crate::debounce::paths_of;
use crate::debounce::seq_has;
use crate::debounce::spec_note_all;
use crate::debounce::spec_ready;
use crate::debounce::spec_retained;
use crate::debounce::spec_step;
use crate::debounce::unique_paths;
use crate::event::Candidate;
use crate::event::lemma_qualifying_paths_absent;
use crate::event::lemma_qualifying_paths_from_candidates;
use crate::event::qualifying_paths;

verus! {

/// One timed input of a run.
pub ghost struct GTimedInput {
    pub input: GInput,
    pub now: int,
}

/// One emitted notification: the promoted path and the sweep time.
pub ghost struct GEmit {
    pub path: Seq<char>,
    pub time: int,
}

/// The outcome of a run: the final state and everything emitted, in order.
#[verifier::ext_equal]
pub ghost struct GRun {
    pub state: GState,
    pub emits: Seq<GEmit>,
}

/// The promoted paths of one sweep, stamped with the sweep time.
pub open spec fn emits_of(paths: Seq<Seq<char>>, time: int) -> Seq<GEmit>
    decreases paths.len(),
{
    if paths.len() == 0 {
        Seq::empty()
    } else {
        emits_of(paths.drop_last(), time).push(GEmit { path: paths.last(), time })
    }
}

/// `emits_of` keeps length and order, and stamps every path with `time`.
pub proof fn lemma_emits_of_index(paths: Seq<Seq<char>>, time: int)
    ensures
        emits_of(paths, time).len() == paths.len(),
        forall|j: int|
            0 <= j < paths.len() ==> #[trigger] emits_of(paths, time)[j] == (GEmit {
                path: paths[j],
                time,
            }),
    decreases paths.len(),
{
    if paths.len() > 0 {
        lemma_emits_of_index(paths.drop_last(), time);
        assert(forall|j: int| 0 <= j < paths.len() - 1 ==> paths.drop_last()[j] == paths[j]);
    }
}

/// The state and emissions after feeding `steps` to a fresh engine in
/// state `st`.
pub open spec fn run(st: GState, steps: Seq<GTimedInput>) -> GRun
    decreases steps.len(),
{
    if steps.len() == 0 {
        GRun { state: st, emits: Seq::empty() }
    } else {
        let prev = run(st, steps.drop_last());
        let s = steps.last();
        let res = spec_step(prev.state, s.input, s.now);
        GRun { state: res.state, emits: prev.emits + emits_of(res.ready, s.now) }
    }
}

/// A starting state with nothing pending.
pub open spec fn initial(st: GState) -> bool {
    st.pending.len() == 0
}

/// Step times never run backwards, and never precede the initial sweep
/// timer.
pub open spec fn times_ok(st: GState, steps: Seq<GTimedInput>) -> bool {
    &&& forall|i: int| 0 <= i < steps.len() ==> st.last_flush <= (#[trigger] steps[i]).now
    &&& forall|i: int, j: int| 0 <= i <= j < steps.len() ==> steps[i].now <= steps[j].now
}

/// The time of the last step, or the initial sweep timer for an empty run.
pub open spec fn latest(st: GState, steps: Seq<GTimedInput>) -> int {
    if steps.len() == 0 {
        st.last_flush
    } else {
        steps.last().now
    }
}

/// Whether step `s` offers path `p`: it carries an interesting raw event
/// with a qualifying candidate for `p`.
pub open spec fn step_offers(s: GTimedInput, root: Seq<char>, p: Seq<char>) -> bool {
    match s.input {
        GInput::Event(kind, cands) => kind.spec_is_interesting() && qualifying_paths(
            cands,
            root,
        ).contains(p),
        _ => false,
    }
}

/// Every pending entry of the run's final state is justified by some step
/// that offered its path at exactly its first-seen time.
pub open spec fn pending_justified(root: Seq<char>, steps: Seq<GTimedInput>, st: GState) -> bool {
    forall|k: int|
        0 <= k < st.pending.len() ==> exists|i: int|
            0 <= i < steps.len() && step_offers(
                #[trigger] steps[i],
                root,
                (#[trigger] st.pending[k]).path,
            ) && st.pending[k].first_seen == steps[i].now
}

/// Every emission of the run is justified by some step that offered its
/// path a full debounce window before the emission time.
pub open spec fn emits_justified(
    root: Seq<char>,
    window: int,
    steps: Seq<GTimedInput>,
    emits: Seq<GEmit>,
) -> bool {
    forall|k: int|
        0 <= k < emits.len() ==> exists|i: int|
            0 <= i < steps.len() && step_offers(
                #[trigger] steps[i],
                root,
                (#[trigger] emits[k]).path,
            ) && emits[k].time >= steps[i].now + window
}

/// Shape facts every run preserves: the configuration never changes,
/// pending paths stay unique, recorded times and the sweep timer never run
/// ahead of the newest step time, and emission times are step times, in
/// order.
pub proof fn lemma_run_wf(st: GState, steps: Seq<GTimedInput>)
    requires
        initial(st),
        times_ok(st, steps),
    ensures
        run(st, steps).state.root == st.root,
        run(st, steps).state.window == st.window,
        run(st, steps).state.tick == st.tick,
        unique_paths(run(st, steps).state.pending),
        run(st, steps).state.last_flush >= st.last_flush,
        run(st, steps).state.last_flush <= latest(st, steps),
        forall|k: int|
            0 <= k < run(st, steps).state.pending.len() ==> (#[trigger] run(
                st,
                steps,
            ).state.pending[k]).first_seen <= latest(st, steps),
        forall|k: int|
            0 <= k < run(st, steps).emits.len() ==> (#[trigger] run(st, steps).emits[k]).time
                <= latest(st, steps),
        forall|k1: int, k2: int|
            0 <= k1 <= k2 < run(st, steps).emits.len() ==> run(st, steps).emits[k1].time <= run(
                st,
                steps,
            ).emits[k2].time,
    decreases steps.len(),
{
    if steps.len() > 0 {
        let pre = steps.drop_last();
        let s = steps.last();
        assert(times_ok(st, pre)) by {
            assert(forall|i: int| 0 <= i < pre.len() ==> pre[i] == steps[i]);
        }
        lemma_run_wf(st, pre);
        let prev = run(st, pre);
        let res = spec_step(prev.state, s.input, s.now);
        assert(s == steps[steps.len() - 1]);
        assert(latest(st, pre) <= s.now) by {
            if pre.len() > 0 {
                assert(pre[pre.len() - 1] == steps[steps.len() - 2]);
            }
        }
        let noted = match s.input {
            GInput::Event(kind, cands) => if kind.spec_is_interesting() {
                spec_note_all(prev.state.pending, qualifying_paths(cands, st.root), s.now)
            } else {
                prev.state.pending
            },
            _ => prev.state.pending,
        };
        lemma_note_all_facts(prev.state.pending, s, st.root, noted);
        lemma_note_all_unique_cases(prev.state.pending, s, st.root, noted);
        assert(forall|k: int|
            0 <= k < noted.len() ==> (#[trigger] noted[k]).first_seen <= s.now) by {
            assert(forall|k: int|
                0 <= k < prev.state.pending.len() ==> (#[trigger] prev.state.pending[k]).first_seen
                    <= latest(st, pre));
        }
        if !(s.input is Closed) && s.now - prev.state.last_flush >= prev.state.tick {
            lemma_retained_unique(noted, st.window, s.now);
            lemma_retained_sub(noted, st.window, s.now);
            lemma_emits_of_index(res.ready, s.now);
            lemma_paths_of_index(spec_ready(noted, st.window, s.now));
            assert(forall|k: int|
                0 <= k < res.state.pending.len() ==> (#[trigger] res.state.pending[k]).first_seen
                    <= s.now) by {
                assert(forall|k: int|
                    0 <= k < res.state.pending.len() ==> exists|i: int|
                        0 <= i < noted.len() && noted[i] == #[trigger] res.state.pending[k]);
            }
        } else {
            lemma_emits_of_index(res.ready, s.now);
        }
    }
}

/// Case split on what one step notes into the pending entries.
proof fn lemma_note_all_facts(
    pending: Seq<GEntry>,
    s: GTimedInput,
    root: Seq<char>,
    noted: Seq<GEntry>,
)
    requires
        noted == (match s.input {
            GInput::Event(kind, cands) => if kind.spec_is_interesting() {
                spec_note_all(pending, qualifying_paths(cands, root), s.now)
            } else {
                pending
            },
            _ => pending,
        }),
    ensures
        noted.len() >= pending.len(),
        forall|k: int| 0 <= k < pending.len() ==> #[trigger] noted[k] == pending[k],
        forall|k: int|
            pending.len() <= k < noted.len() ==> (#[trigger] noted[k]).first_seen == s.now
                && step_offers(s, root, noted[k].path),
{
    match s.input {
        GInput::Event(kind, cands) => {
            if kind.spec_is_interesting() {
                lemma_note_all_extends(pending, qualifying_paths(cands, root), s.now);
            }
        },
        _ => {},
    }
}

/// Noting, whatever the step carried, keeps pending paths unique.
proof fn lemma_note_all_unique_cases(
    pending: Seq<GEntry>,
    s: GTimedInput,
    root: Seq<char>,
    noted: Seq<GEntry>,
)
    requires
        unique_paths(pending),
        noted == (match s.input {
            GInput::Event(kind, cands) => if kind.spec_is_interesting() {
                spec_note_all(pending, qualifying_paths(cands, root), s.now)
            } else {
                pending
            },
            _ => pending,
        }),
    ensures
        unique_paths(noted),
{
    match s.input {
        GInput::Event(kind, cands) => {
            if kind.spec_is_interesting() {
                lemma_note_all_unique(pending, qualifying_paths(cands, root), s.now);
            }
        },
        _ => {},
    }
}

/// Provenance: every pending entry and every emission of a run traces back
/// to a step that offered its path; an emission, moreover, comes no earlier
/// than one full debounce window after that offer.
pub proof fn lemma_run_justified(st: GState, steps: Seq<GTimedInput>)
    requires
        initial(st),
        times_ok(st, steps),
    ensures
        pending_justified(st.root, steps, run(st, steps).state),
        emits_justified(st.root, st.window, steps, run(st, steps).emits),
    decreases steps.len(),
{
    if steps.len() > 0 {
        let pre = steps.drop_last();
        let s = steps.last();
        assert(times_ok(st, pre)) by {
            assert(forall|i: int| 0 <= i < pre.len() ==> pre[i] == steps[i]);
        }
        lemma_run_justified(st, pre);
        lemma_run_wf(st, pre);
        lemma_run_wf(st, steps);
        let prev = run(st, pre);
        let res = spec_step(prev.state, s.input, s.now);
        let cur = run(st, steps);
        assert(s == steps[steps.len() - 1]);
        assert(forall|i: int| 0 <= i < pre.len() ==> pre[i] == steps[i]);

        let noted = match s.input {
            GInput::Event(kind, cands) => if kind.spec_is_interesting() {
                spec_note_all(prev.state.pending, qualifying_paths(cands, st.root), s.now)
            } else {
                prev.state.pending
            },
            _ => prev.state.pending,
        };
        lemma_note_all_facts(prev.state.pending, s, st.root, noted);

        // every noted entry is justified by a step of `steps`
        assert forall|k: int| 0 <= k < noted.len() implies exists|i: int|
            0 <= i < steps.len() && step_offers(
            #[trigger] steps[i],
            st.root,
            (#[trigger] noted[k]).path,
        ) && noted[k].first_seen == steps[i].now by {
            if k < prev.state.pending.len() {
                assert(noted[k] == prev.state.pending[k]);
                let i = choose|i: int|
                    0 <= i < pre.len() && step_offers(
                        #[trigger] pre[i],
                        st.root,
                        prev.state.pending[k].path,
                    ) && prev.state.pending[k].first_seen == pre[i].now;
                assert(steps[i] == pre[i]);
                assert(step_offers(steps[i], st.root, noted[k].path));
            } else {
                assert(step_offers(s, st.root, noted[k].path));
                assert(steps[steps.len() - 1] == s);
            }
        }

        if !(s.input is Closed) && s.now - prev.state.last_flush >= prev.state.tick {
            lemma_retained_sub(noted, st.window, s.now);
            lemma_emits_of_index(res.ready, s.now);
            lemma_paths_of_index(spec_ready(noted, st.window, s.now));
            lemma_ready_sub(noted, st.window, s.now);

            assert forall|k: int| 0 <= k < cur.state.pending.len() implies exists|i: int|
                0 <= i < steps.len() && step_offers(
                #[trigger] steps[i],
                st.root,
                (#[trigger] cur.state.pending[k]).path,
            ) && cur.state.pending[k].first_seen == steps[i].now by {
                let j = choose|j: int|
                    0 <= j < noted.len() && noted[j] == #[trigger] cur.state.pending[k];
                let i = choose|i: int|
                    0 <= i < steps.len() && step_offers(#[trigger] steps[i], st.root, noted[j].path)
                        && noted[j].first_seen == steps[i].now;
                assert(step_offers(steps[i], st.root, cur.state.pending[k].path));
            }

            assert forall|k: int| 0 <= k < cur.emits.len() implies exists|i: int|
                0 <= i < steps.len() && step_offers(
                #[trigger] steps[i],
                st.root,
                (#[trigger] cur.emits[k]).path,
            ) && cur.emits[k].time >= steps[i].now + st.window by {
                if k < prev.emits.len() {
                    assert(cur.emits[k] == prev.emits[k]);
                    let i = choose|i: int|
                        0 <= i < pre.len() && step_offers(
                            #[trigger] pre[i],
                            st.root,
                            prev.emits[k].path,
                        ) && prev.emits[k].time >= pre[i].now + st.window;
                    assert(steps[i] == pre[i]);
                    assert(step_offers(steps[i], st.root, cur.emits[k].path));
                } else {
                    let m = k - prev.emits.len();
                    assert(cur.emits[k] == emits_of(res.ready, s.now)[m]);
                    assert(cur.emits[k] == GEmit { path: res.ready[m], time: s.now });
                    let ready_entries = spec_ready(noted, st.window, s.now);
                    assert(res.ready[m] == ready_entries[m].path);
                    assert(s.now - ready_entries[m].first_seen >= st.window);
                    let j = choose|j: int|
                        0 <= j < noted.len() && noted[j] == #[trigger] ready_entries[m];
                    let i = choose|i: int|
                        0 <= i < steps.len() && step_offers(#[trigger] steps[i], st.root, noted[j].path)
                            && noted[j].first_seen == steps[i].now;
                    assert(step_offers(steps[i], st.root, cur.emits[k].path));
                    assert(cur.emits[k].time >= steps[i].now + st.window);
                }
            }
        } else {
            assert(cur.state.pending == noted);
            assert(cur.emits =~= prev.emits) by {
                lemma_emits_of_index(res.ready, s.now);
            }
            assert forall|k: int| 0 <= k < cur.emits.len() implies exists|i: int|
                0 <= i < steps.len() && step_offers(
                #[trigger] steps[i],
                st.root,
                (#[trigger] cur.emits[k]).path,
            ) && cur.emits[k].time >= steps[i].now + st.window by {
                let i = choose|i: int|
                    0 <= i < pre.len() && step_offers(#[trigger] pre[i], st.root, prev.emits[k].path)
                        && prev.emits[k].time >= pre[i].now + st.window;
                assert(steps[i] == pre[i]);
                assert(step_offers(steps[i], st.root, cur.emits[k].path));
            }
        }
    }
}

/// Debounce lower bound: a run never emits a notification earlier than one
/// full debounce window after a step that offered its path.
pub proof fn lemma_emission_no_earlier(st: GState, steps: Seq<GTimedInput>, k: int)
    requires
        initial(st),
        times_ok(st, steps),
        0 <= k < run(st, steps).emits.len(),
    ensures
        exists|i: int|
            0 <= i < steps.len() && step_offers(#[trigger] steps[i], st.root, run(
                st,
                steps,
            ).emits[k].path) && run(st, steps).emits[k].time >= steps[i].now + st.window,
{
    lemma_run_justified(st, steps);
}

/// Depth filter: a path that no step ever offers — in particular one whose
/// parent is not the watch root, which no candidate set can offer — is never
/// emitted and never becomes pending.
pub proof fn lemma_never_offered_never_emitted(st: GState, steps: Seq<GTimedInput>, p: Seq<char>)
    requires
        initial(st),
        times_ok(st, steps),
        forall|i: int| 0 <= i < steps.len() ==> !step_offers(#[trigger] steps[i], st.root, p),
    ensures
        forall|k: int|
            0 <= k < run(st, steps).emits.len() ==> (#[trigger] run(st, steps).emits[k]).path != p,
        !seq_has(run(st, steps).state.pending, p),
{
    lemma_run_justified(st, steps);
    let cur = run(st, steps);
    assert forall|k: int| 0 <= k < cur.emits.len() implies (#[trigger] cur.emits[k]).path != p by {
        if cur.emits[k].path == p {
            let i = choose|i: int|
                0 <= i < steps.len() && step_offers(#[trigger] steps[i], st.root, cur.emits[k].path)
                    && cur.emits[k].time >= steps[i].now + st.window;
            assert(!step_offers(steps[i], st.root, p));
        }
    }
    assert forall|k: int| 0 <= k < cur.state.pending.len() implies (
    #[trigger] cur.state.pending[k]).path != p by {
        if cur.state.pending[k].path == p {
            let i = choose|i: int|
                0 <= i < steps.len() && step_offers(
                    #[trigger] steps[i],
                    st.root,
                    cur.state.pending[k].path,
                ) && cur.state.pending[k].first_seen == steps[i].now;
            assert(!step_offers(steps[i], st.root, p));
        }
    }
}

/// Whether `s` holds the exact entry `p` stamped `f`.
pub open spec fn has_entry(s: Seq<GEntry>, p: Seq<char>, f: int) -> bool {
    exists|i: int| 0 <= i < s.len() && s[i] == (GEntry { path: p, first_seen: f })
}

/// Every pending entry was first seen at or after every earlier emission of
/// its own path: once a path is promoted, only a fresh event can make it
/// pending again.
pub open spec fn pending_postdates_emissions(st: GState, emits: Seq<GEmit>) -> bool {
    forall|k: int, j: int|
        0 <= k < st.pending.len() && 0 <= j < emits.len() && (#[trigger] st.pending[k]).path == (
        #[trigger] emits[j]).path ==> st.pending[k].first_seen >= emits[j].time
}

/// Freshness invariant of every run: a pending entry postdates every earlier
/// emission of its path.
pub proof fn lemma_run_fresh(st: GState, steps: Seq<GTimedInput>)
    requires
        initial(st),
        times_ok(st, steps),
    ensures
        pending_postdates_emissions(run(st, steps).state, run(st, steps).emits),
    decreases steps.len(),
{
    if steps.len() > 0 {
        let pre = steps.drop_last();
        let s = steps.last();
        assert(times_ok(st, pre)) by {
            assert(forall|i: int| 0 <= i < pre.len() ==> pre[i] == steps[i]);
        }
        lemma_run_fresh(st, pre);
        lemma_run_wf(st, pre);
        let prev = run(st, pre);
        let res = spec_step(prev.state, s.input, s.now);
        let cur = run(st, steps);
        assert(s == steps[steps.len() - 1]);
        assert(latest(st, pre) <= s.now) by {
            if pre.len() > 0 {
                assert(pre[pre.len() - 1] == steps[steps.len() - 2]);
            }
        }

        let noted = match s.input {
            GInput::Event(kind, cands) => if kind.spec_is_interesting() {
                spec_note_all(prev.state.pending, qualifying_paths(cands, st.root), s.now)
            } else {
                prev.state.pending
            },
            _ => prev.state.pending,
        };
        lemma_note_all_facts(prev.state.pending, s, st.root, noted);
        lemma_note_all_unique_cases(prev.state.pending, s, st.root, noted);

        // noted entries postdate every earlier emission of their path
        assert forall|k: int, j: int|
            0 <= k < noted.len() && 0 <= j < prev.emits.len() && (#[trigger] noted[k]).path == (
            #[trigger] prev.emits[j]).path implies noted[k].first_seen >= prev.emits[j].time by {
            if k < prev.state.pending.len() {
                assert(noted[k] == prev.state.pending[k]);
            } else {
                assert(noted[k].first_seen == s.now);
                assert(prev.emits[j].time <= latest(st, pre));
            }
        }

        if !(s.input is Closed) && s.now - prev.state.last_flush >= prev.state.tick {
            let ready_entries = spec_ready(noted, st.window, s.now);
            lemma_retained_sub(noted, st.window, s.now);
            lemma_emits_of_index(res.ready, s.now);
            lemma_paths_of_index(ready_entries);
            assert forall|k: int, j: int|
                0 <= k < cur.state.pending.len() && 0 <= j < cur.emits.len() && (
                #[trigger] cur.state.pending[k]).path == (#[trigger] cur.emits[j]).path implies
                cur.state.pending[k].first_seen >= cur.emits[j].time by {
                let m = choose|m: int|
                    0 <= m < noted.len() && noted[m] == #[trigger] cur.state.pending[k];
                if j < prev.emits.len() {
                    assert(cur.emits[j] == prev.emits[j]);
                } else {
                    // emitted by this very sweep: its path cannot still be pending
                    let b = j - prev.emits.len();
                    assert(cur.emits[j] == GEmit { path: res.ready[b], time: s.now });
                    assert(res.ready[b] == ready_entries[b].path);
                    lemma_promoted_not_pending(noted, st.window, s.now, res.ready[b]);
                    assert(seq_has(cur.state.pending, cur.state.pending[k].path)) by {
                        assert(cur.state.pending[k].path == cur.state.pending[k].path);
                    }
                    assert(false);
                }
            }
        } else {
            assert(cur.state.pending == noted);
            assert(cur.emits =~= prev.emits) by {
                lemma_emits_of_index(res.ready, s.now);
            }
        }
    }
}

/// Whether step `s` carries a qualifying candidate for `p`: a raw creation
/// or rename event with a candidate whose path is `p` and whose parent
/// canonicalized to the watch root.
pub open spec fn step_offers_child(s: GTimedInput, root: Seq<char>, p: Seq<char>) -> bool {
    match s.input {
        GInput::Event(kind, cands) => kind.spec_is_interesting() && exists|j: int|
            0 <= j < cands.len() && (#[trigger] cands[j]).qualifies(root) && cands[j].path@ == p,
        _ => false,
    }
}

/// The core invariant: every path reported as a notification was presented
/// by some raw event as a direct child of the watch root, and by the time
/// of the report it had been pending for at least the debounce window.
pub proof fn lemma_emission_from_root_child(st: GState, steps: Seq<GTimedInput>, k: int)
    requires
        initial(st),
        times_ok(st, steps),
        0 <= k < run(st, steps).emits.len(),
    ensures
        exists|i: int|
            0 <= i < steps.len() && step_offers_child(#[trigger] steps[i], st.root, run(
                st,
                steps,
            ).emits[k].path) && run(st, steps).emits[k].time >= steps[i].now + st.window,
{
    lemma_run_justified(st, steps);
    let cur = run(st, steps);
    let p = cur.emits[k].path;
    let i = choose|i: int|
        0 <= i < steps.len() && step_offers(#[trigger] steps[i], st.root, (#[trigger] cur.emits[k]).path)
            && cur.emits[k].time >= steps[i].now + st.window;
    assert(step_offers_child(steps[i], st.root, p)) by {
        match steps[i].input {
            GInput::Event(kind, cands) => {
                let q = qualifying_paths(cands, st.root);
                let k0 = choose|k0: int| 0 <= k0 < q.len() && q[k0] == p;
                lemma_qualifying_paths_from_candidates(cands, st.root, k0);
            },
            _ => {},
        }
    }
}

/// Whether every candidate a step carries for path `p` fails to qualify:
/// its parent did not canonicalize to the watch root.
pub open spec fn step_candidates_miss_root(s: GTimedInput, root: Seq<char>, p: Seq<char>) -> bool {
    match s.input {
        GInput::Event(kind, cands) => forall|i: int|
            0 <= i < cands.len() && (#[trigger] cands[i].path@) == p ==> !cands[i].qualifies(root),
        _ => true,
    }
}

/// Depth filter, stated over the raw candidates: a path whose parent never
/// canonicalizes to the watch root — one created in a subdirectory, at any
/// depth — is never emitted and never becomes pending.
pub proof fn lemma_deep_paths_never_emitted(st: GState, steps: Seq<GTimedInput>, p: Seq<char>)
    requires
        initial(st),
        times_ok(st, steps),
        forall|i: int| 0 <= i < steps.len() ==> step_candidates_miss_root(#[trigger] steps[i], st.root, p),
    ensures
        forall|k: int|
            0 <= k < run(st, steps).emits.len() ==> (#[trigger] run(st, steps).emits[k]).path != p,
        !seq_has(run(st, steps).state.pending, p),
{
    assert forall|i: int| 0 <= i < steps.len() implies !step_offers(#[trigger] steps[i], st.root, p) by {
        match steps[i].input {
            GInput::Event(kind, cands) => {
                lemma_qualifying_paths_absent(cands, st.root, p);
            },
            _ => {},
        }
    }
    lemma_never_offered_never_emitted(st, steps, p);
}

/// Exactly-once promotion: a second emission of the same path needs a fresh
/// qualifying event at or after the first emission.
pub proof fn lemma_repeat_needs_fresh_event(
    st: GState,
    steps: Seq<GTimedInput>,
    k1: int,
    k2: int,
)
    requires
        initial(st),
        times_ok(st, steps),
        0 <= k1 < k2 < run(st, steps).emits.len(),
        run(st, steps).emits[k1].path == run(st, steps).emits[k2].path,
    ensures
        exists|i: int|
            0 <= i < steps.len() && step_offers(#[trigger] steps[i], st.root, run(
                st,
                steps,
            ).emits[k2].path) && steps[i].now >= run(st, steps).emits[k1].time,
    decreases steps.len(),
{
    let cur = run(st, steps);
    let pre = steps.drop_last();
    let s = steps.last();
    assert(times_ok(st, pre)) by {
        assert(forall|i: int| 0 <= i < pre.len() ==> pre[i] == steps[i]);
    }
    let prev = run(st, pre);
    let res = spec_step(prev.state, s.input, s.now);
    assert(s == steps[steps.len() - 1]);
    lemma_run_wf(st, pre);
    lemma_run_fresh(st, pre);
    lemma_run_justified(st, pre);
    assert(latest(st, pre) <= s.now) by {
        if pre.len() > 0 {
            assert(pre[pre.len() - 1] == steps[steps.len() - 2]);
        }
    }

    if k2 < prev.emits.len() {
        lemma_repeat_needs_fresh_event(st, pre, k1, k2);
        let i = choose|i: int|
            0 <= i < pre.len() && step_offers(#[trigger] pre[i], st.root, prev.emits[k2].path)
                && pre[i].now >= prev.emits[k1].time;
        assert(steps[i] == pre[i]);
        assert(step_offers(steps[i], st.root, cur.emits[k2].path));
    } else {
        let noted = match s.input {
            GInput::Event(kind, cands) => if kind.spec_is_interesting() {
                spec_note_all(prev.state.pending, qualifying_paths(cands, st.root), s.now)
            } else {
                prev.state.pending
            },
            _ => prev.state.pending,
        };
        lemma_note_all_facts(prev.state.pending, s, st.root, noted);
        lemma_note_all_unique_cases(prev.state.pending, s, st.root, noted);
        let ready_entries = spec_ready(noted, st.window, s.now);
        lemma_emits_of_index(res.ready, s.now);
        lemma_paths_of_index(ready_entries);
        lemma_ready_sub(noted, st.window, s.now);
        let b2 = k2 - prev.emits.len();
        assert(cur.emits[k2] == GEmit { path: res.ready[b2], time: s.now });
        let p = cur.emits[k2].path;
        assert(ready_entries[b2].path == p);
        let m = choose|m: int| 0 <= m < noted.len() && noted[m] == #[trigger] ready_entries[b2];
        if k1 >= prev.emits.len() {
            // two emissions of one sweep never share a path
            let b1 = k1 - prev.emits.len();
            assert(cur.emits[k1] == GEmit { path: res.ready[b1], time: s.now });
            lemma_ready_unique(noted, st.window, s.now);
            assert(ready_entries[b1].path == ready_entries[b2].path);
            assert(false);
        } else {
            assert(cur.emits[k1] == prev.emits[k1]);
            if m < prev.state.pending.len() {
                // the promoted entry was already pending: it postdates the
                // earlier emission, and its own offering step is fresh enough
                assert(noted[m] == prev.state.pending[m]);
                assert(prev.state.pending[m].first_seen >= prev.emits[k1].time);
                let i = choose|i: int|
                    0 <= i < pre.len() && step_offers(
                        #[trigger] pre[i],
                        st.root,
                        (#[trigger] prev.state.pending[m]).path,
                    ) && prev.state.pending[m].first_seen == pre[i].now;
                assert(steps[i] == pre[i]);
                assert(step_offers(steps[i], st.root, p));
                assert(steps[i].now >= cur.emits[k1].time);
            } else {
                // the promoted entry was noted by this very step
                assert(noted[m].first_seen == s.now && step_offers(s, st.root, noted[m].path));
                assert(step_offers(steps[steps.len() - 1], st.root, p));
                assert(s.now >= prev.emits[k1].time) by {
                    assert(prev.emits[k1].time <= latest(st, pre));
                }
            }
        }
    }
}

/// Deduplication: when every qualifying event for a path falls within one
/// debounce window of the first, the run emits that path at most once.
pub proof fn lemma_dedup_within_window(
    st: GState,
    steps: Seq<GTimedInput>,
    p: Seq<char>,
    t0: int,
)
    requires
        initial(st),
        times_ok(st, steps),
        forall|i: int|
            0 <= i < steps.len() && step_offers(#[trigger] steps[i], st.root, p) ==> t0
                <= steps[i].now < t0 + st.window,
    ensures
        forall|k1: int, k2: int|
            0 <= k1 < k2 < run(st, steps).emits.len() ==> !((#[trigger] run(
                st,
                steps,
            ).emits[k1]).path == p && (#[trigger] run(st, steps).emits[k2]).path == p),
{
    let cur = run(st, steps);
    lemma_run_justified(st, steps);
    assert forall|k1: int, k2: int| 0 <= k1 < k2 < cur.emits.len() implies !((
    #[trigger] cur.emits[k1]).path == p && (#[trigger] cur.emits[k2]).path == p) by {
        if cur.emits[k1].path == p && cur.emits[k2].path == p {
            lemma_repeat_needs_fresh_event(st, steps, k1, k2);
            let i = choose|i: int|
                0 <= i < steps.len() && step_offers(#[trigger] steps[i], st.root, cur.emits[k2].path)
                    && steps[i].now >= cur.emits[k1].time;
            let i1 = choose|i1: int|
                0 <= i1 < steps.len() && step_offers(
                    #[trigger] steps[i1],
                    st.root,
                    (#[trigger] cur.emits[k1]).path,
                ) && cur.emits[k1].time >= steps[i1].now + st.window;
            assert(steps[i1].now >= t0);
            assert(steps[i].now >= t0 + st.window);
            assert(!(t0 <= steps[i].now < t0 + st.window));
            assert(false);
        }
    }
}

/// Run prefixes only append emissions: what a prefix emitted, the whole run
/// emitted, at the same position.
pub proof fn lemma_emits_monotone(st: GState, steps: Seq<GTimedInput>, m: int)
    requires
        0 <= m <= steps.len(),
    ensures
        run(st, steps.take(m)).emits.len() <= run(st, steps).emits.len(),
        forall|k: int|
            0 <= k < run(st, steps.take(m)).emits.len() ==> #[trigger] run(st, steps).emits[k]
                == run(st, steps.take(m)).emits[k],
    decreases steps.len() - m,
{
    if m == steps.len() {
        assert(steps.take(m) =~= steps);
    } else {
        lemma_emits_monotone(st, steps, m + 1);
        assert(steps.take(m + 1).drop_last() =~= steps.take(m));
        assert(steps.take(m + 1).last() == steps[m]);
    }
}

/// A pending entry stays pending, with its first-seen stamp unchanged, until
/// the sweep that promotes it.
pub proof fn lemma_pending_persists(
    st: GState,
    steps: Seq<GTimedInput>,
    p: Seq<char>,
    f: int,
    m1: int,
    m2: int,
)
    requires
        initial(st),
        times_ok(st, steps),
        0 <= m1 <= m2 <= steps.len(),
        has_entry(run(st, steps.take(m1)).state.pending, p, f),
    ensures
        has_entry(run(st, steps.take(m2)).state.pending, p, f) || exists|k: int|
            0 <= k < run(st, steps.take(m2)).emits.len() && (#[trigger] run(
                st,
                steps.take(m2),
            ).emits[k]).path == p,
    decreases m2 - m1,
{
    if m1 < m2 {
        lemma_pending_persists(st, steps, p, f, m1, m2 - 1);
        let tpre = steps.take(m2 - 1);
        let tcur = steps.take(m2);
        assert(tcur.drop_last() =~= tpre);
        assert(tcur.last() == steps[m2 - 1]);
        assert(times_ok(st, tpre)) by {
            assert(forall|i: int| 0 <= i < tpre.len() ==> tpre[i] == steps[i]);
        }
        lemma_run_wf(st, tpre);
        let prev = run(st, tpre);
        let s = steps[m2 - 1];
        let res = spec_step(prev.state, s.input, s.now);
        let cur = run(st, tcur);
        lemma_emits_of_index(res.ready, s.now);
        if exists|k: int|
            0 <= k < prev.emits.len() && (#[trigger] prev.emits[k]).path == p {
            let k = choose|k: int| 0 <= k < prev.emits.len() && (#[trigger] prev.emits[k]).path == p;
            assert(cur.emits[k] == prev.emits[k]);
        } else {
            let e = GEntry { path: p, first_seen: f };
            let k = choose|k: int| 0 <= k < prev.state.pending.len() && prev.state.pending[k] == e;
            let noted = match s.input {
                GInput::Event(kind, cands) => if kind.spec_is_interesting() {
                    spec_note_all(prev.state.pending, qualifying_paths(cands, st.root), s.now)
                } else {
                    prev.state.pending
                },
                _ => prev.state.pending,
            };
            lemma_note_all_facts(prev.state.pending, s, st.root, noted);
            assert(noted[k] == e);
            if !(s.input is Closed) && s.now - prev.state.last_flush >= prev.state.tick {
                if s.now - f >= st.window {
                    lemma_due_in_ready(noted, st.window, s.now, k);
                    let ready_entries = spec_ready(noted, st.window, s.now);
                    lemma_paths_of_index(ready_entries);
                    let b = choose|b: int|
                        0 <= b < paths_of(ready_entries).len() && paths_of(ready_entries)[b] == p;
                    assert(cur.emits[prev.emits.len() + b] == GEmit { path: p, time: s.now });
                } else {
                    lemma_not_due_retained(noted, st.window, s.now, k);
                    let b = choose|b: int|
                        0 <= b < spec_retained(noted, st.window, s.now).len() && #[trigger] spec_retained(
                            noted,
                            st.window,
                            s.now,
                        )[b] == noted[k];
                    assert(cur.state.pending[b] == e);
                }
            } else {
                assert(cur.state.pending[k] == e);
            }
        }
    } else {
        assert(steps.take(m1) =~= steps.take(m2));
    }
}

/// Whether the run sweeps at step `i`: a full tick period has passed since
/// the last sweep before it.
pub open spec fn flush_at(st: GState, steps: Seq<GTimedInput>, i: int) -> bool {
    let prev = run(st, steps.take(i)).state;
    !(steps[i].input is Closed) && steps[i].now - prev.last_flush >= prev.tick
}

/// Debounce upper bound: a path pending with first-seen stamp `f` is emitted
/// no later than the first sweep that runs once its debounce window has
/// elapsed. In particular, when sweeps run at least once per tick period,
/// the notification comes no later than `f + window + tick`.
pub proof fn lemma_emission_no_later(
    st: GState,
    steps: Seq<GTimedInput>,
    p: Seq<char>,
    f: int,
    m: int,
    i_fl: int,
)
    requires
        initial(st),
        times_ok(st, steps),
        0 <= m <= i_fl < steps.len(),
        has_entry(run(st, steps.take(m)).state.pending, p, f),
        flush_at(st, steps, i_fl),
        steps[i_fl].now >= f + st.window,
    ensures
        exists|k: int|
            0 <= k < run(st, steps).emits.len() && (#[trigger] run(st, steps).emits[k]).path == p
                && run(st, steps).emits[k].time <= steps[i_fl].now,
{
    lemma_pending_persists(st, steps, p, f, m, i_fl);
    let tpre = steps.take(i_fl);
    let tcur = steps.take(i_fl + 1);
    assert(tcur.drop_last() =~= tpre);
    assert(tcur.last() == steps[i_fl]);
    assert(times_ok(st, tpre)) by {
        assert(forall|i: int| 0 <= i < tpre.len() ==> tpre[i] == steps[i]);
    }
    assert(times_ok(st, tcur)) by {
        assert(forall|i: int| 0 <= i < tcur.len() ==> tcur[i] == steps[i]);
    }
    lemma_run_wf(st, tpre);
    let prev = run(st, tpre);
    let s = steps[i_fl];
    let res = spec_step(prev.state, s.input, s.now);
    let cur = run(st, tcur);
    if exists|k: int| 0 <= k < prev.emits.len() && (#[trigger] prev.emits[k]).path == p {
        // already emitted before the sweep, so no later than it
        let k = choose|k: int| 0 <= k < prev.emits.len() && (#[trigger] prev.emits[k]).path == p;
        lemma_emits_monotone(st, steps, i_fl);
        assert(run(st, steps).emits[k] == prev.emits[k]);
        assert(prev.emits[k].time <= latest(st, tpre));
        assert(latest(st, tpre) <= s.now) by {
            if tpre.len() > 0 {
                assert(tpre[tpre.len() - 1] == steps[i_fl - 1]);
            }
        }
    } else {
        // still pending when the sweep runs: it is due, so it is promoted
        let e = GEntry { path: p, first_seen: f };
        let k = choose|k: int| 0 <= k < prev.state.pending.len() && prev.state.pending[k] == e;
        let noted = match s.input {
            GInput::Event(kind, cands) => if kind.spec_is_interesting() {
                spec_note_all(prev.state.pending, qualifying_paths(cands, st.root), s.now)
            } else {
                prev.state.pending
            },
            _ => prev.state.pending,
        };
        lemma_note_all_facts(prev.state.pending, s, st.root, noted);
        assert(noted[k] == e);
        lemma_due_in_ready(noted, st.window, s.now, k);
        let ready_entries = spec_ready(noted, st.window, s.now);
        lemma_paths_of_index(ready_entries);
        lemma_emits_of_index(res.ready, s.now);
        let b = choose|b: int|
            0 <= b < paths_of(ready_entries).len() && paths_of(ready_entries)[b] == p;
        assert(cur.emits[prev.emits.len() + b] == GEmit { path: p, time: s.now });
        lemma_emits_monotone(st, steps, i_fl + 1);
        assert(run(st, steps).emits[prev.emits.len() + b] == GEmit { path: p, time: s.now });
    }
}

} // verus!
