use profiler::{
    Duration, Frame, GlobalProfiler, ProcessedFrame, ProcessedGlobalProfiler, ProcessedProfiler,
    Profiler, ScopeResult, ThreadProfiler,
};
use std::collections::HashMap;
use std::time::Instant;

fn millis(n: u64) -> Duration {
    Duration::from_millis(n)
}

fn scope(name: &str, start: u64, duration: u64, depth: usize) -> ScopeResult {
    ScopeResult::new(name.to_string(), millis(start), millis(duration), depth)
}

fn frame(start: u64, scopes: Vec<ScopeResult>) -> Frame {
    let mut frame = Frame::starting_at(millis(start));
    frame.duration = millis(1_000);
    frame.scope_results = scopes;
    frame
}

#[test]
fn self_duration_is_what_the_children_leave() {
    let parent = scope("parent", 0, 100, 0);
    let frame = frame(
        0,
        vec![scope("first", 10, 30, 1), scope("second", 50, 20, 1), scope("parent", 0, 100, 0)],
    );
    assert_eq!(frame.self_duration(&parent), Some(millis(50)));
    assert_eq!(frame.self_duration(&frame.scope_results[0]), Some(millis(30)));
}

#[test]
fn only_direct_children_within_the_interval_count() {
    let parent = scope("parent", 10, 100, 2);
    let frame = frame(
        0,
        vec![
            scope("grandchild", 20, 5, 4),
            scope("child", 15, 40, 3),
            scope("touching both ends", 10, 100, 3),
            scope("early", 9, 10, 3),
            scope("late", 100, 11, 3),
            scope("sibling", 20, 10, 2),
            scope("shallow", 20, 10, 0),
        ],
    );
    assert_eq!(frame.self_duration(&parent), None);
    let mut narrower = frame.clone();
    narrower.scope_results.remove(2);
    assert_eq!(narrower.self_duration(&parent), Some(millis(60)));
    assert_eq!(Frame::starting_at(millis(0)).self_duration(&parent), Some(millis(100)));
}

#[test]
fn children_that_overlap_may_leave_nothing() {
    let parent = scope("parent", 0, 100, 0);
    let exact = frame(0, vec![scope("a", 0, 60, 1), scope("b", 60, 40, 1)]);
    assert_eq!(exact.self_duration(&parent), Some(Duration::zero()));
    let over = frame(0, vec![scope("a", 0, 60, 1), scope("b", 50, 50, 1)]);
    assert_eq!(over.self_duration(&parent), None);
    let later = frame(0, vec![scope("a", 0, 60, 1), scope("b", 50, 50, 1), scope("c", 1, 1, 5)]);
    assert_eq!(later.self_duration(&parent), None);
}

#[test]
fn inside_means_within_both_ends() {
    let outer = scope("outer", 10, 100, 0);
    assert!(scope("same", 10, 100, 1).is_inside(&outer));
    assert!(scope("within", 11, 98, 1).is_inside(&outer));
    assert!(scope("empty at the end", 110, 0, 1).is_inside(&outer));
    assert!(!scope("early", 9, 100, 1).is_inside(&outer));
    assert!(!scope("late", 11, 100, 1).is_inside(&outer));
    assert!(!outer.is_inside(&scope("within", 11, 98, 1)));
    let longest = Duration::from_parts(u64::MAX, 999_999_999).unwrap();
    let endless = ScopeResult::new("endless".to_string(), longest, longest, 0);
    assert!(endless.is_inside(&endless));
    assert!(!endless.is_inside(&outer));
    assert!(scope("child", 20, 10, 1).is_child_of(&outer));
    assert!(!scope("deeper", 20, 10, 2).is_child_of(&outer));
    assert!(!scope("level", 20, 10, 0).is_child_of(&outer));
    assert!(!scope("outside", 0, 10, 1).is_child_of(&outer));
    assert!(!outer.is_child_of(&ScopeResult::new(
        "deepest".to_string(),
        millis(0),
        millis(200),
        usize::MAX
    )));
}

#[test]
fn depth_is_the_number_of_intervals_around_a_scope() {
    let processed = ProcessedFrame::new(&frame(
        5,
        vec![scope("leaf", 20, 10, 9), scope("twin", 20, 10, 9), scope("root", 0, 100, 9), scope("apart", 200, 1, 9)],
    ));
    assert_eq!(processed.start, millis(5));
    assert_eq!(processed.duration, millis(1_000));
    let names: Vec<&str> = processed.profile_results.iter().map(|r| r.name.as_str()).collect();
    let depths: Vec<usize> = processed.profile_results.iter().map(|r| r.depth).collect();
    assert_eq!(names, vec!["leaf", "twin", "root", "apart"]);
    assert_eq!(depths, vec![3, 3, 1, 1]);
    assert_eq!(processed.profile_results[0].start, millis(20));
    assert_eq!(processed.profile_results[0].duration, millis(10));
}

#[test]
fn a_processed_profiler_spans_its_last_frame() {
    let mut profiler = Profiler::starting_at(Instant::now(), Duration::zero());
    let empty = ProcessedProfiler::new(&profiler);
    assert_eq!(empty.total_time, Duration::zero());
    assert!(empty.frames.is_empty());
    profiler.begin_profile_result();
    profiler.begin_profile_result();
    profiler.record_scope("inner".to_string(), millis(900), millis(50)).unwrap();
    profiler.record_scope("outer".to_string(), millis(800), millis(200)).unwrap();
    profiler.new_frame_at(millis(1_000)).unwrap();
    profiler.begin_profile_result();
    profiler.record_scope("short".to_string(), millis(1_010), millis(5)).unwrap();
    profiler.begin_profile_result();
    profiler.record_scope("long".to_string(), millis(1_000), millis(30)).unwrap();
    profiler.new_frame_at(millis(1_100)).unwrap();
    let processed = ProcessedProfiler::new(&profiler);
    assert_eq!(processed.total_time, millis(1_030));
    assert_eq!(processed.frames.len(), 2);
    assert_eq!(processed.frames[0].profile_results[0].depth, 2);
    assert_eq!(processed.frames[0].profile_results[1].depth, 1);
    assert_eq!(processed.frames[1].profile_results[0].depth, 2);
    assert_eq!(processed.frames[1].profile_results[1].depth, 1);
    assert_eq!(processed.frames[1].start, millis(1_000));
    assert_eq!(processed.frames[1].duration, millis(100));
}

#[test]
fn a_processed_registry_spans_the_latest_frames() {
    let mut threads: HashMap<u64, ThreadProfiler> = HashMap::new();
    threads.insert(
        1,
        ThreadProfiler::new(
            "a".to_string(),
            vec![frame(0, vec![scope("old", 0, 9_000, 0)]), frame(0, vec![scope("new", 10, 20, 0)])],
        ),
    );
    threads.insert(
        2,
        ThreadProfiler::new(
            "b".to_string(),
            vec![frame(0, vec![scope("x", 5, 30, 0), scope("y", 1, 2, 0)])],
        ),
    );
    threads.insert(3, ThreadProfiler::new("idle".to_string(), Vec::new()));
    threads.insert(4, ThreadProfiler::new("quiet".to_string(), vec![frame(7, Vec::new())]));
    let processed = ProcessedGlobalProfiler::new(threads);
    assert_eq!(processed.total_time, millis(35));
    assert_eq!(processed.thread_profilers.len(), 4);
    assert_eq!(processed.thread_profilers[&1].frames.len(), 2);
    assert_eq!(ProcessedGlobalProfiler::new(HashMap::new()).total_time, Duration::zero());
}

#[test]
fn an_end_beyond_the_longest_span_is_cut_off() {
    let longest = Duration::from_parts(u64::MAX, 999_999_999).unwrap();
    let mut threads: HashMap<u64, ThreadProfiler> = HashMap::new();
    let mut last = Frame::starting_at(Duration::zero());
    last.scope_results.push(ScopeResult::new("late".to_string(), longest, millis(1), 0));
    threads.insert(1, ThreadProfiler::new("a".to_string(), vec![last]));
    assert_eq!(ProcessedGlobalProfiler::new(threads).total_time, longest);
}

#[test]
fn a_rebased_frame_starts_at_zero() {
    let late = frame(100, vec![scope("a", 130, 10, 1), scope("b", 100, 50, 0), scope("c", 90, 5, 0)]);
    let rebased = late.rebased();
    assert_eq!(rebased.start, Duration::zero());
    assert_eq!(rebased.duration, millis(1_000));
    assert_eq!(
        rebased.scope_results,
        vec![scope("a", 30, 10, 1), scope("b", 0, 50, 0), scope("c", 0, 5, 0)]
    );
}

#[test]
fn the_latest_frame_of_each_thread() {
    let mut registry = GlobalProfiler::new();
    registry.submit(1, Some("a".to_string()), frame(0, vec![scope("old", 1, 2, 0)]));
    registry.submit(1, None, frame(50, vec![scope("new", 60, 5, 0)]));
    registry.submit(2, None, frame(10, Vec::new()));
    registry.thread_profilers.insert(3, ThreadProfiler::new("idle".to_string(), Vec::new()));
    let latest = registry.latest_frames();
    assert_eq!(latest.thread_profilers.len(), 3);
    assert_eq!(latest.thread_profilers[&1].name, "a");
    assert_eq!(
        latest.thread_profilers[&1].frames,
        vec![frame(0, vec![scope("new", 10, 5, 0)])]
    );
    assert_eq!(latest.thread_profilers[&2].name, "Unnamed Thread");
    assert_eq!(latest.thread_profilers[&2].frames, vec![frame(0, Vec::new())]);
    assert_eq!(latest.thread_profilers[&3].name, "idle");
    assert!(latest.thread_profilers[&3].frames.is_empty());
    assert_eq!(registry.thread_profilers[&1].frames.len(), 2);
}
