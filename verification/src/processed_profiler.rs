//! A trace made ready for display: the time it spans, the depth of each scope as its
//! intervals show it, and the latest frame of each thread seen from its own start.

use crate::frame::{frame_views, Frame, FrameView};
use crate::profiler::Profiler;
use crate::registry::{GlobalProfiler, ThreadProfiler, ThreadProfilerView};
use crate::scope::{scope_views, ScopeResult, ScopeResultView};
use crate::time::{Duration, MAX_NANOS};
use std::collections::HashMap;
use vstd::prelude::*;
use vstd::std_specs::hash::spec_hash_map_iter;
use vstd::std_specs::iter::IteratorSpec;

verus! {

broadcast use vstd::std_specs::hash::group_hash_axioms;

/// The moment `scope` closed, and the longest span there is where that lies beyond it.
pub open spec fn capped_end(scope: ScopeResultView) -> nat {
    if scope.end() <= MAX_NANOS {
        scope.end()
    } else {
        MAX_NANOS as nat
    }
}

/// The later of two moments.
pub open spec fn later(a: nat, b: nat) -> nat {
    if a <= b {
        b
    } else {
        a
    }
}

/// The moment the last of `scopes` closed, and the program's start where there are none.
pub open spec fn latest_end(scopes: Seq<ScopeResultView>) -> nat
    decreases scopes.len(),
{
    if scopes.len() == 0 {
        0
    } else {
        later(latest_end(scopes.drop_last()), capped_end(scopes.last()))
    }
}

/// The time that a run of frames spans for display: up to the moment the last scope of
/// the last frame closed.
pub open spec fn total_time(frames: Seq<FrameView>) -> nat {
    if frames.len() == 0 {
        0
    } else {
        latest_end(frames.last().scope_results)
    }
}

/// How many of `scopes` hold the interval of `scope` within theirs; `scope` itself is one
/// of them where it is among `scopes`.
pub open spec fn containing_count(scopes: Seq<ScopeResultView>, scope: ScopeResultView) -> nat
    decreases scopes.len(),
{
    if scopes.len() == 0 {
        0
    } else if scope.is_inside(scopes.last()) {
        containing_count(scopes.drop_last(), scope) + 1
    } else {
        containing_count(scopes.drop_last(), scope)
    }
}

/// `scope` with the depth that the intervals of `scopes` show for it.
pub open spec fn processed_scope(scopes: Seq<ScopeResultView>, scope: ScopeResultView)
    -> ScopeResultView {
    ScopeResultView {
        name: scope.name,
        start: scope.start,
        duration: scope.duration,
        depth: containing_count(scopes, scope),
    }
}

/// `frame` with each scope at the depth that the intervals of the frame's scopes show.
pub open spec fn processed_frame(frame: FrameView) -> FrameView {
    FrameView {
        start: frame.start,
        duration: frame.duration,
        scope_results: frame.scope_results.map_values(
            |scope: ScopeResultView| processed_scope(frame.scope_results, scope),
        ),
    }
}

/// `frame` seen from its own start: it starts at 0, and each scope as long after that as
/// it started after the frame did, or at 0 where it started before.
pub open spec fn rebased(frame: FrameView) -> FrameView {
    FrameView {
        start: 0,
        duration: frame.duration,
        scope_results: frame.scope_results.map_values(
            |scope: ScopeResultView|
                ScopeResultView {
                    name: scope.name,
                    start: if frame.start <= scope.start {
                        (scope.start - frame.start) as nat
                    } else {
                        0
                    },
                    duration: scope.duration,
                    depth: scope.depth,
                },
        ),
    }
}

/// `thread` with none but its latest frame, seen from that frame's start.
pub open spec fn latest_frame(thread: ThreadProfilerView) -> ThreadProfilerView {
    ThreadProfilerView {
        name: thread.name,
        frames: if thread.frames.len() == 0 {
            Seq::empty()
        } else {
            seq![rebased(thread.frames.last())]
        },
    }
}

/// A scope with the depth that the intervals of its frame show for it.
#[derive(Debug)]
pub struct ProcessedProfileResult {
    pub name: String,
    pub start: Duration,
    pub duration: Duration,
    pub depth: usize,
}

impl View for ProcessedProfileResult {
    type V = ScopeResultView;

    open spec fn view(&self) -> ScopeResultView {
        ScopeResultView {
            name: self.name@,
            start: self.start@,
            duration: self.duration@,
            depth: self.depth as nat,
        }
    }
}

/// A frame of processed scopes.
#[derive(Debug)]
pub struct ProcessedFrame {
    pub start: Duration,
    pub duration: Duration,
    pub profile_results: Vec<ProcessedProfileResult>,
}

impl View for ProcessedFrame {
    type V = FrameView;

    open spec fn view(&self) -> FrameView {
        FrameView {
            start: self.start@,
            duration: self.duration@,
            scope_results: self.profile_results@.map_values(|r: ProcessedProfileResult| r@),
        }
    }
}

/// The frames that one thread has kept, made ready for display.
#[derive(Debug)]
pub struct ProcessedProfiler {
    pub total_time: Duration,
    pub frames: Vec<ProcessedFrame>,
}

/// The later of `floor` and the moment the last of `scopes` closed.
fn latest_end_from(scopes: &Vec<ScopeResult>, floor: Duration) -> (latest: Duration)
    ensures
        latest@ == later(floor@, latest_end(scope_views(scopes@))),
{
    let mut latest = floor;
    let mut i: usize = 0;
    while i < scopes.len()
        invariant
            i <= scopes.len(),
            latest@ == later(floor@, latest_end(scope_views(scopes@).take(i as int))),
        decreases scopes.len() - i,
    {
        let end = scopes[i].start.saturating_add(scopes[i].duration);
        assert(scope_views(scopes@).take(i + 1).drop_last() == scope_views(scopes@).take(
            i as int,
        ));
        if latest.as_nanos() < end.as_nanos() {
            latest = end;
        }
        i += 1;
    }
    assert(scope_views(scopes@).take(i as int) == scope_views(scopes@));
    latest
}

/// How many of `scopes` hold the interval of `scope` within theirs.
fn count_containing(scopes: &Vec<ScopeResult>, scope: &ScopeResult) -> (count: usize)
    ensures
        count == containing_count(scope_views(scopes@), scope@),
{
    let mut count: usize = 0;
    let mut i: usize = 0;
    while i < scopes.len()
        invariant
            i <= scopes.len(),
            count <= i,
            count == containing_count(scope_views(scopes@).take(i as int), scope@),
        decreases scopes.len() - i,
    {
        assert(scope_views(scopes@).take(i + 1).drop_last() == scope_views(scopes@).take(
            i as int,
        ));
        if scope.is_inside(&scopes[i]) {
            count += 1;
        }
        i += 1;
    }
    assert(scope_views(scopes@).take(i as int) == scope_views(scopes@));
    count
}

impl ProcessedFrame {
    /// `frame` with each scope at the depth that the intervals of the frame's scopes show:
    /// the number of scopes of the frame, itself among them, that hold its interval within
    /// theirs.
    pub fn new(frame: &Frame) -> (processed: Self)
        ensures
            processed@ == processed_frame(frame@),
    {
        let mut profile_results: Vec<ProcessedProfileResult> = Vec::new();
        let mut i: usize = 0;
        while i < frame.scope_results.len()
            invariant
                i <= frame.scope_results.len(),
                profile_results@.len() == i,
                forall|j: int|
                    0 <= j < i ==> (#[trigger] profile_results@[j])@ == processed_scope(
                        frame@.scope_results,
                        frame.scope_results@[j]@,
                    ),
            decreases frame.scope_results.len() - i,
        {
            let scope = &frame.scope_results[i];
            let depth = count_containing(&frame.scope_results, scope);
            profile_results.push(
                ProcessedProfileResult {
                    name: scope.name.clone(),
                    start: scope.start,
                    duration: scope.duration,
                    depth,
                },
            );
            i += 1;
        }
        let processed = ProcessedFrame {
            start: frame.start,
            duration: frame.duration,
            profile_results,
        };
        assert(processed@.scope_results =~= processed_frame(frame@).scope_results);
        processed
    }
}

impl ProcessedProfiler {
    /// The frames that `profiler` has kept, each scope at the depth that the intervals of
    /// its frame show, and the time they span for display.
    pub fn new(profiler: &Profiler) -> (processed: Self)
        ensures
            processed.total_time@ == total_time(profiler@.frames),
            processed.frames@.len() == profiler@.frames.len(),
            forall|i: int|
                0 <= i < processed.frames@.len() ==> (#[trigger] processed.frames@[i])@
                    == processed_frame(profiler@.frames[i]),
    {
        let kept = profiler.frames();
        let mut frames: Vec<ProcessedFrame> = Vec::new();
        let mut i: usize = 0;
        while i < kept.len()
            invariant
                i <= kept.len(),
                frames@.len() == i,
                forall|j: int|
                    0 <= j < i ==> (#[trigger] frames@[j])@ == processed_frame(kept@[j]@),
            decreases kept.len() - i,
        {
            frames.push(ProcessedFrame::new(&kept[i]));
            i += 1;
        }
        let total_time = if kept.len() == 0 {
            Duration::zero()
        } else {
            latest_end_from(&kept[kept.len() - 1].scope_results, Duration::zero())
        };
        assert(frame_views(kept@).len() > 0 ==> frame_views(kept@).last() == kept@[kept@.len()
            - 1]@);
        ProcessedProfiler { total_time, frames }
    }
}

/// The time that the latest frame of `thread` spans for display.
pub open spec fn thread_total_time(thread: ThreadProfilerView) -> nat {
    total_time(thread.frames)
}

/// A registry's traces with the time that they span for display.
#[derive(Debug)]
pub struct ProcessedGlobalProfiler {
    pub total_time: Duration,
    pub thread_profilers: HashMap<u64, ThreadProfiler>,
}

impl ProcessedGlobalProfiler {
    /// The traces `thread_profilers` with the time they span for display: up to the moment
    /// the last scope closed in the latest frame of any thread. A thread without frames
    /// adds nothing to it.
    pub fn new(thread_profilers: HashMap<u64, ThreadProfiler>) -> (processed: Self)
        ensures
            processed.thread_profilers == thread_profilers,
            forall|thread_id: u64| #[trigger]
                thread_profilers@.contains_key(thread_id) ==> thread_total_time(
                    thread_profilers@[thread_id]@,
                ) <= processed.total_time@,
            processed.total_time@ == 0 || exists|thread_id: u64| #[trigger]
                thread_profilers@.contains_key(thread_id) && processed.total_time@
                    == thread_total_time(thread_profilers@[thread_id]@),
    {
        let mut total_time = Duration::zero();
        let ghost entries = spec_hash_map_iter(&thread_profilers).remaining();
        for entry in iter: thread_profilers.iter()
            invariant
                iter.seq() == entries,
                entries == spec_hash_map_iter(&thread_profilers).remaining(),
                forall|i: int|
                    0 <= i < iter.index() ==> thread_total_time((*(#[trigger] entries[i]).1)@)
                        <= total_time@,
                total_time@ == 0 || exists|i: int|
                    0 <= i < iter.index() && total_time@ == thread_total_time(
                        (*(#[trigger] entries[i]).1)@,
                    ),
        {
            let thread = entry.1;
            let ghost before = total_time@;
            if thread.frames.len() > 0 {
                let latest = &thread.frames[thread.frames.len() - 1];
                assert(thread@.frames.last() == latest@);
                total_time = latest_end_from(&latest.scope_results, total_time);
            }
            proof {
                let n = iter.index();
                assert(thread@ == (*entries[n].1)@);
                assert(total_time@ == later(before, thread_total_time(thread@)));
                if total_time@ != 0 && total_time@ == before {
                    let i = choose|i: int|
                        0 <= i < n && before == thread_total_time((*(#[trigger] entries[i]).1)@);
                    assert(0 <= i < n + 1);
                }
            }
        }
        proof {
            let threads = thread_profilers@;
            assert forall|thread_id: u64| #[trigger]
                threads.contains_key(thread_id) implies thread_total_time(threads[thread_id]@)
                <= total_time@ by {
                assert(entries.contains((&thread_id, &threads[thread_id])));
                let i = choose|i: int|
                    0 <= i < entries.len() && entries[i] == (&thread_id, &threads[thread_id]);
                assert(thread_total_time((*entries[i].1)@) <= total_time@);
            }
            if total_time@ != 0 {
                let i = choose|i: int|
                    0 <= i < entries.len() && total_time@ == thread_total_time(
                        (*(#[trigger] entries[i]).1)@,
                    );
                assert(threads.contains_key(*entries[i].0));
            }
        }
        ProcessedGlobalProfiler { total_time, thread_profilers }
    }
}

impl Frame {
    /// This frame seen from its own start: it starts at 0, and each scope as long after
    /// that as it started after the frame did.
    pub fn rebased(&self) -> (frame: Frame)
        ensures
            frame@ == rebased(self@),
    {
        let mut scope_results: Vec<ScopeResult> = Vec::new();
        let mut i: usize = 0;
        while i < self.scope_results.len()
            invariant
                i <= self.scope_results.len(),
                scope_results@.len() == i,
                forall|j: int|
                    0 <= j < i ==> (#[trigger] scope_results@[j])@ == rebased(
                        self@,
                    ).scope_results[j],
            decreases self.scope_results.len() - i,
        {
            let scope = &self.scope_results[i];
            scope_results.push(
                ScopeResult::new(
                    scope.name.clone(),
                    scope.start.saturating_sub(self.start),
                    scope.duration,
                    scope.depth,
                ),
            );
            i += 1;
        }
        let frame = Frame { start: Duration::zero(), duration: self.duration, scope_results };
        assert(frame@.scope_results =~= rebased(self@).scope_results);
        frame
    }
}

impl GlobalProfiler {
    /// A registry that holds, for each thread of this one, none but the thread's latest
    /// frame, seen from that frame's start.
    pub fn latest_frames(&self) -> (latest: GlobalProfiler)
        ensures
            latest@ == self@.map_values(|thread: ThreadProfilerView| latest_frame(thread)),
    {
        let mut thread_profilers: HashMap<u64, ThreadProfiler> = HashMap::new();
        let ghost entries = spec_hash_map_iter(&self.thread_profilers).remaining();
        for entry in iter: self.thread_profilers.iter()
            invariant
                iter.seq() == entries,
                entries == spec_hash_map_iter(&self.thread_profilers).remaining(),
                forall|thread_id: u64| #[trigger]
                    thread_profilers@.contains_key(thread_id) <==> exists|i: int|
                        0 <= i < iter.index() && *(#[trigger] entries[i]).0 == thread_id,
                forall|thread_id: u64| #[trigger]
                    thread_profilers@.contains_key(thread_id) ==> self@.contains_key(thread_id)
                        && thread_profilers@[thread_id]@ == latest_frame(self@[thread_id]),
        {
            let (thread_id, thread) = entry;
            let mut frames: Vec<Frame> = Vec::new();
            if thread.frames.len() > 0 {
                let newest = &thread.frames[thread.frames.len() - 1];
                assert(thread@.frames.last() == newest@);
                frames.push(newest.rebased());
            }
            let snapshot = ThreadProfiler::new(thread.name.clone(), frames);
            proof {
                let n = iter.index();
                assert(self.thread_profilers@.contains_key(*entries[n].0));
                assert(snapshot@.frames =~= latest_frame(thread@).frames);
            }
            let ghost before = thread_profilers@;
            thread_profilers.insert(*thread_id, snapshot);
            proof {
                let n = iter.index();
                assert forall|id: u64| #[trigger]
                    thread_profilers@.contains_key(id) <==> exists|i: int|
                        0 <= i < n + 1 && *(#[trigger] entries[i]).0 == id by {
                    if thread_profilers@.contains_key(id) {
                        if id == *thread_id {
                            assert(*entries[n].0 == id);
                        } else {
                            assert(before.contains_key(id));
                            let i = choose|i: int| 0 <= i < n && *(#[trigger] entries[i]).0 == id;
                            assert(0 <= i < n + 1);
                        }
                    }
                    if exists|i: int| 0 <= i < n + 1 && *(#[trigger] entries[i]).0 == id {
                        let i = choose|i: int| 0 <= i < n + 1 && *(#[trigger] entries[i]).0 == id;
                        if i < n {
                            assert(before.contains_key(id));
                        }
                    }
                }
            }
        }
        let latest = GlobalProfiler { thread_profilers };
        proof {
            let threads = self.thread_profilers@;
            assert(self@.dom() =~= threads.dom());
            assert forall|thread_id: u64| self@.contains_key(thread_id) implies latest@.contains_key(
                thread_id,
            ) by {
                assert(entries.contains((&thread_id, &threads[thread_id])));
                let i = choose|i: int|
                    0 <= i < entries.len() && entries[i] == (&thread_id, &threads[thread_id]);
                assert(*entries[i].0 == thread_id);
            }
            assert(latest@ =~= self@.map_values(
                |thread: ThreadProfilerView| latest_frame(thread),
            ));
        }
        latest
    }
}

} // verus!
