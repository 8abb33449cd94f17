use dirwatch::debounce::{DebounceEngine, RawInput};
use dirwatch::emit::base_name;
use dirwatch::event::{Candidate, RawEventKind};

fn cand(path: &str, parent: Option<&str>) -> Candidate {
    Candidate {
        path: String::from(path),
        canonical_parent: parent.map(String::from),
    }
}

fn create_event(path: &str, parent: Option<&str>) -> RawInput {
    RawInput::Event(RawEventKind::Create, vec![cand(path, parent)])
}

const ROOT: &str = "/watch";

/// Scenario A: a file created at the watch root with a 50 ms window is
/// reported exactly once while polling in 100 ms steps.
#[test]
fn scenario_new_file_at_root() {
    let mut engine = DebounceEngine::new(String::from(ROOT), 50, 100, 0);
    let (ready, stop) = engine.step(create_event("/watch/sample.mkv", Some(ROOT)), 0);
    assert!(ready.is_empty());
    assert!(!stop);

    let mut got: Vec<String> = Vec::new();
    for i in 1..=50u64 {
        let (ready, stop) = engine.step(RawInput::Timeout, i * 100);
        got.extend(ready.iter().map(base_name));
        assert!(!stop);
    }
    assert_eq!(got, vec![String::from("sample.mkv")]);
}

/// Scenario B: a file created in a subdirectory of the watch root is never
/// reported.
#[test]
fn scenario_subdirectory_ignored() {
    let mut engine = DebounceEngine::new(String::from(ROOT), 50, 100, 0);
    let (ready, _) = engine.step(create_event("/watch/sub/x.txt", Some("/watch/sub")), 0);
    assert!(ready.is_empty());
    let mut count = 0;
    for i in 1..=10u64 {
        let (ready, _) = engine.step(RawInput::Timeout, i * 100);
        count += ready.len();
    }
    assert_eq!(count, 0);
}

/// Scenario C: a temporary file renamed within 10 ms stabilizes under its
/// final name; with the original gone before its parent could be resolved,
/// exactly one notification comes out.
#[test]
fn scenario_quick_rename() {
    let mut engine = DebounceEngine::new(String::from(ROOT), 200, 50, 0);
    // the create event for a.tmp is delivered after the rename: the entry
    // vanished, so its parent no longer resolves
    let (ready, _) = engine.step(create_event("/watch/a.tmp", None), 5);
    assert!(ready.is_empty());
    let (ready, _) = engine.step(
        RawInput::Event(
            RawEventKind::RenameName,
            vec![cand("/watch/a.tmp", None), cand("/watch/a.mkv", Some(ROOT))],
        ),
        10,
    );
    assert!(ready.is_empty());
    let mut got: Vec<String> = Vec::new();
    for i in 1..=20u64 {
        let (ready, _) = engine.step(RawInput::Timeout, i * 50);
        got.extend(ready.iter().map(base_name));
    }
    assert_eq!(got, vec![String::from("a.mkv")]);
}

/// Scenario D, the documented quirk: a file deleted before its window
/// elapses is still reported at sweep time; the entry is not retracted.
#[test]
fn scenario_deleted_still_reported() {
    let mut engine = DebounceEngine::new(String::from(ROOT), 200, 50, 0);
    let (ready, _) = engine.step(create_event("/watch/b.txt", Some(ROOT)), 0);
    assert!(ready.is_empty());
    // the deletion 5 ms later is not an interesting event kind
    let (ready, _) = engine.step(
        RawInput::Event(RawEventKind::Other, vec![cand("/watch/b.txt", Some(ROOT))]),
        5,
    );
    assert!(ready.is_empty());
    let mut emitted_at: Option<u64> = None;
    for i in 1..=20u64 {
        let now = i * 50;
        let (ready, _) = engine.step(RawInput::Timeout, now);
        for p in ready {
            assert_eq!(p, "/watch/b.txt");
            assert!(emitted_at.is_none());
            emitted_at = Some(now);
        }
    }
    // emitted at the first sweep once 200 ms have passed
    assert_eq!(emitted_at, Some(200));
}

/// Repeated raw events for one path within the window yield exactly one
/// notification, timed from the first observation.
#[test]
fn repeated_events_one_notification() {
    let mut engine = DebounceEngine::new(String::from(ROOT), 200, 50, 0);
    let (ready, _) = engine.step(create_event("/watch/f.bin", Some(ROOT)), 0);
    assert!(ready.is_empty());
    let (ready, _) = engine.step(create_event("/watch/f.bin", Some(ROOT)), 30);
    assert!(ready.is_empty());
    let (ready, _) = engine.step(create_event("/watch/f.bin", Some(ROOT)), 120);
    assert!(ready.is_empty());
    let mut got: Vec<(String, u64)> = Vec::new();
    for i in 1..=20u64 {
        let now = i * 50 + 120;
        let (ready, _) = engine.step(RawInput::Timeout, now);
        for p in ready {
            got.push((p, now));
        }
    }
    // one notification, timed from the first event at 0, so at the first
    // sweep at or after 200
    assert_eq!(got.len(), 1);
    assert_eq!(got[0].0, "/watch/f.bin");
    assert_eq!(got[0].1, 220);
}

/// A promoted path is gone from pending state: it is not reported again
/// until a fresh qualifying event arrives.
#[test]
fn promotion_is_exactly_once() {
    let mut engine = DebounceEngine::new(String::from(ROOT), 50, 50, 0);
    engine.step(create_event("/watch/g.txt", Some(ROOT)), 0);
    let (ready, _) = engine.step(RawInput::Timeout, 50);
    assert_eq!(ready, vec![String::from("/watch/g.txt")]);
    // no further notifications without a fresh event
    for i in 2..=10u64 {
        let (ready, _) = engine.step(RawInput::Timeout, i * 50);
        assert!(ready.is_empty());
    }
    // a fresh qualifying event makes it pending, and promoted, again
    engine.step(create_event("/watch/g.txt", Some(ROOT)), 600);
    let (ready, _) = engine.step(RawInput::Timeout, 650);
    assert_eq!(ready, vec![String::from("/watch/g.txt")]);
}

/// The debounce bounds: nothing before `first_seen + window`; promotion at
/// the first sweep after that, so no later than one tick period past it.
#[test]
fn debounce_window_bounds() {
    let mut engine = DebounceEngine::new(String::from(ROOT), 200, 100, 0);
    engine.step(create_event("/watch/h.txt", Some(ROOT)), 0);
    let (ready, _) = engine.step(RawInput::Timeout, 100);
    assert!(ready.is_empty());
    let (ready, _) = engine.step(RawInput::Timeout, 199);
    assert!(ready.is_empty());
    let (ready, _) = engine.step(RawInput::Timeout, 250);
    assert_eq!(ready, vec![String::from("/watch/h.txt")]);
}

/// Source errors and timeouts keep the loop alive; a disconnect stops it.
#[test]
fn loop_control() {
    let mut engine = DebounceEngine::new(String::from(ROOT), 50, 50, 0);
    let (_, stop) = engine.step(RawInput::SourceError, 10);
    assert!(!stop);
    let (_, stop) = engine.step(RawInput::Timeout, 20);
    assert!(!stop);
    let (_, stop) = engine.step(RawInput::Closed, 30);
    assert!(stop);
}

/// A disconnect stops the loop at once: whatever is still pending is
/// dropped, not swept out.
#[test]
fn closed_stops_without_sweeping() {
    let mut engine = DebounceEngine::new(String::from(ROOT), 50, 50, 0);
    engine.step(create_event("/watch/last.txt", Some(ROOT)), 0);
    let (ready, stop) = engine.step(RawInput::Closed, 100);
    assert!(ready.is_empty());
    assert!(stop);
}

/// The filter keeps exactly the candidates whose parent resolved to the
/// watch root, in arrival order.
#[test]
fn filter_keeps_only_root_children() {
    let root = String::from(ROOT);
    let candidates = vec![
        cand("/watch/a", Some(ROOT)),
        cand("/watch/sub/b", Some("/watch/sub")),
        cand("/watch/c", None),
        cand("/elsewhere/d", Some("/elsewhere")),
        cand("/watch/e", Some(ROOT)),
    ];
    let kept = dirwatch::event::filter_candidates(&root, &candidates);
    assert_eq!(kept, vec![String::from("/watch/a"), String::from("/watch/e")]);
}
