//! The capture engine of one thread: it counts the scopes that are open, files each scope
//! that closes under the current frame, and closes the frame at a frame boundary.

use crate::frame::{frame_views, Frame, FrameView};
use crate::registry::{name_view, submitted, GlobalProfiler};
use crate::scope::{ScopeResult, ScopeResultView};
use crate::time::Duration;
use std::time::Instant;
use vstd::prelude::*;

verus! {

/// A misuse of the capture engine. The engine refuses the call and stays as it was.
#[derive(Clone, Copy, Debug, PartialEq, Eq, Structural)]
pub enum CaptureError {
    /// A scope was closed while none was open.
    UnbalancedScope,
    /// A frame boundary was reached while a scope was still open.
    ScopeOpenAtFrameBoundary,
}

/// What a [`Profiler`] says: the frame in progress, the number of scopes open in it, and the
/// frames it has closed and kept.
pub struct ProfilerView {
    pub current_frame: FrameView,
    pub call_depth: nat,
    pub frames: Seq<FrameView>,
}

impl ProfilerView {
    /// A profiler that has seen nothing yet, with its first frame starting at `start`.
    pub open spec fn starting_at(start: nat) -> ProfilerView {
        ProfilerView {
            current_frame: FrameView::starting_at(start),
            call_depth: 0,
            frames: Seq::empty(),
        }
    }

    /// After a scope has opened.
    pub open spec fn begin(self) -> ProfilerView {
        ProfilerView {
            current_frame: self.current_frame,
            call_depth: self.call_depth + 1,
            frames: self.frames,
        }
    }

    /// The record of a scope that closes now: it lies as deep as there are scopes open
    /// around it.
    pub open spec fn closing_scope(self, name: Seq<char>, start: nat, duration: nat)
        -> ScopeResultView {
        ScopeResultView { name, start, duration, depth: (self.call_depth - 1) as nat }
    }

    /// After the innermost open scope has closed.
    pub open spec fn record(self, name: Seq<char>, start: nat, duration: nat) -> ProfilerView
        recommends
            self.call_depth > 0,
    {
        ProfilerView {
            current_frame: self.current_frame.with_scope(self.closing_scope(name, start, duration)),
            call_depth: (self.call_depth - 1) as nat,
            frames: self.frames,
        }
    }

    /// After a frame boundary at `now` at which the closed frame was handed out.
    pub open spec fn next_frame(self, now: nat) -> ProfilerView {
        ProfilerView {
            current_frame: FrameView::starting_at(now),
            call_depth: self.call_depth,
            frames: self.frames,
        }
    }

    /// After a frame boundary at `now` at which the closed frame was kept.
    pub open spec fn new_frame(self, now: nat) -> ProfilerView {
        ProfilerView {
            current_frame: FrameView::starting_at(now),
            call_depth: self.call_depth,
            frames: self.frames.push(self.current_frame.closed_at(now)),
        }
    }
}

/// One thing that code under measurement does within a frame: it opens a scope, or it closes
/// the innermost open one, which started at `start` and lasted `duration`.
pub enum ScopeEvent {
    Open,
    Close { name: Seq<char>, start: nat, duration: nat },
}

/// How many of `events` open a scope.
pub open spec fn opened(events: Seq<ScopeEvent>) -> nat
    decreases events.len(),
{
    if events.len() == 0 {
        0
    } else if events.last() is Open {
        opened(events.drop_last()) + 1
    } else {
        opened(events.drop_last())
    }
}

/// How many of `events` close a scope.
pub open spec fn closed(events: Seq<ScopeEvent>) -> nat
    decreases events.len(),
{
    if events.len() == 0 {
        0
    } else if events.last() is Close {
        closed(events.drop_last()) + 1
    } else {
        closed(events.drop_last())
    }
}

/// Scopes close in `events` only after they have opened: at no point have more closed than
/// opened.
pub open spec fn well_nested(events: Seq<ScopeEvent>) -> bool {
    forall|n: int| 0 <= n <= events.len() ==> closed(#[trigger] events.take(n)) <= opened(events.take(n))
}

/// The number of scopes that are open around the one that closes at event `at`: those that
/// opened before it and have not closed, but for itself.
pub open spec fn nesting_level(events: Seq<ScopeEvent>, at: int) -> int {
    opened(events.take(at)) - closed(events.take(at)) - 1
}

impl ProfilerView {
    /// After one event.
    pub open spec fn after(self, event: ScopeEvent) -> ProfilerView {
        match event {
            ScopeEvent::Open => self.begin(),
            ScopeEvent::Close { name, start, duration } => self.record(name, start, duration),
        }
    }

    /// After a run of events, the first of them first.
    pub open spec fn after_all(self, events: Seq<ScopeEvent>) -> ProfilerView
        decreases events.len(),
    {
        if events.len() == 0 {
            self
        } else {
            self.after_all(events.drop_last()).after(events.last())
        }
    }

    /// After a run of frame boundaries at which the closed frame was kept, the first of them
    /// first.
    pub open spec fn after_frames(self, boundaries: Seq<nat>) -> ProfilerView
        decreases boundaries.len(),
    {
        if boundaries.len() == 0 {
            self
        } else {
            self.after_frames(boundaries.drop_last()).new_frame(boundaries.last())
        }
    }
}

proof fn lemma_after_all(start: ProfilerView, events: Seq<ScopeEvent>)
    requires
        well_nested(events),
    ensures
        ({
            let end = start.after_all(events);
            let before = start.current_frame.scope_results;
            let results = end.current_frame.scope_results;
            &&& end.call_depth == start.call_depth + opened(events) - closed(events)
            &&& end.frames == start.frames
            &&& end.current_frame.start == start.current_frame.start
            &&& end.current_frame.duration == start.current_frame.duration
            &&& results.len() == before.len() + closed(events)
            &&& forall|i: int| 0 <= i < before.len() ==> results[i] == before[i]
            &&& forall|at: int|
                0 <= at < events.len() && #[trigger] events[at] is Close ==> results[before.len()
                    + closed(events.take(at)) as int] == (ScopeResultView {
                    name: events[at]->name,
                    start: events[at]->start,
                    duration: events[at]->duration,
                    depth: (start.call_depth + nesting_level(events, at)) as nat,
                })
        }),
    decreases events.len(),
{
    if events.len() > 0 {
        let prefix = events.drop_last();
        let last = events.len() - 1;
        assert(events.take(last) == prefix);
        assert(events.take(events.len() as int) == events);
        assert forall|n: int| 0 <= n <= prefix.len() implies closed(#[trigger] prefix.take(n))
            <= opened(prefix.take(n)) by {
            assert(prefix.take(n) == events.take(n));
        }
        lemma_after_all(start, prefix);
        let mid = start.after_all(prefix);
        let end = start.after_all(events);
        let before = start.current_frame.scope_results;
        let results = end.current_frame.scope_results;
        assert forall|at: int| 0 <= at < events.len() && #[trigger] events[at] is Close implies results[before.len()
            + closed(events.take(at)) as int] == (ScopeResultView {
            name: events[at]->name,
            start: events[at]->start,
            duration: events[at]->duration,
            depth: (start.call_depth + nesting_level(events, at)) as nat,
        }) by {
            if at < last {
                assert(prefix.take(at) == events.take(at));
                assert(closed(prefix.take(at)) <= closed(prefix)) by {
                    lemma_closed_grows(prefix, at);
                }
                assert(closed(prefix.take(at)) < closed(prefix)) by {
                    lemma_closed_grows(prefix, at + 1);
                    assert(prefix.take(at + 1).drop_last() == prefix.take(at));
                }
            }
        }
    }
}

proof fn lemma_closed_grows(events: Seq<ScopeEvent>, n: int)
    requires
        0 <= n <= events.len(),
    ensures
        closed(events.take(n)) <= closed(events),
    decreases events.len() - n,
{
    if n < events.len() {
        lemma_closed_grows(events, n + 1);
        assert(events.take(n + 1).drop_last() == events.take(n));
    } else {
        assert(events.take(n) == events);
    }
}

/// Every scope is filed at its true nesting level. Take a profiler at depth `d` and any run
/// of opens and closes in which no scope closes before it has opened. Then the scope that
/// closes at event `at` stands in the current frame behind those that closed before it, with
/// the name and times it closed with, and its depth is `d` plus the number of scopes that
/// were open around it when it closed. At the start of a frame `d` is 0.
pub proof fn lemma_recorded_depth_is_nesting_level(
    start: ProfilerView,
    events: Seq<ScopeEvent>,
    at: int,
)
    requires
        well_nested(events),
        0 <= at < events.len(),
        events[at] is Close,
    ensures
        ({
            let results = start.after_all(events).current_frame.scope_results;
            let index = start.current_frame.scope_results.len() + closed(events.take(at)) as int;
            &&& 0 <= nesting_level(events, at)
            &&& index < results.len()
            &&& results[index].depth == start.call_depth + nesting_level(events, at)
            &&& results[index].name == events[at]->name
            &&& results[index].start == events[at]->start
            &&& results[index].duration == events[at]->duration
        }),
{
    lemma_after_all(start, events);
    lemma_closed_grows(events, at + 1);
    assert(events.take(at + 1).drop_last() == events.take(at));
    assert(closed(events.take(at + 1)) <= opened(events.take(at + 1)));
}

/// Frame boundaries with no scope open leave the engine sound. Take a profiler with no scope
/// open and any run of boundaries at which the frame is kept. Then still no scope is open,
/// the frame in progress is empty, one frame was kept for each boundary, each of them lasting
/// from where it started to its boundary, and all but the first of them empty; and the next
/// scope that opens and closes is filed at depth 0.
pub proof fn lemma_empty_frames_keep_depth(start: ProfilerView, boundaries: Seq<nat>)
    requires
        start.call_depth == 0,
    ensures
        ({
            let end = start.after_frames(boundaries);
            let kept = start.frames.len();
            &&& end.call_depth == 0
            &&& boundaries.len() > 0 ==> end.current_frame == FrameView::starting_at(
                boundaries.last(),
            )
            &&& end.frames.len() == kept + boundaries.len()
            &&& forall|i: int| 0 <= i < kept ==> end.frames[i] == start.frames[i]
            &&& boundaries.len() > 0 ==> end.frames[kept as int]
                == start.current_frame.closed_at(boundaries[0])
            &&& forall|i: int|
                1 <= i < boundaries.len() ==> #[trigger] end.frames[kept + i]
                    == FrameView::starting_at(boundaries[i - 1]).closed_at(boundaries[i])
            &&& forall|name: Seq<char>, at: nat, duration: nat|
                (#[trigger] end.begin().record(
                    name,
                    at,
                    duration,
                )).current_frame.scope_results.last().depth == 0
        }),
    decreases boundaries.len(),
{
    if boundaries.len() > 0 {
        lemma_empty_frames_keep_depth(start, boundaries.drop_last());
    }
}

/// The capture engine of one thread.
pub struct Profiler {
    current_frame: Frame,
    current_frame_call_depth: usize,
    program_start: Instant,
    frames: Vec<Frame>,
}

impl View for Profiler {
    type V = ProfilerView;

    closed spec fn view(&self) -> ProfilerView {
        ProfilerView {
            current_frame: self.current_frame@,
            call_depth: self.current_frame_call_depth as nat,
            frames: frame_views(self.frames@),
        }
    }
}

impl Profiler {
    /// The reading of the clock from which this profiler counts the start of every scope
    /// and frame. It is set when the profiler is made and stays.
    pub closed spec fn program_start(&self) -> Instant {
        self.program_start
    }

    /// A profiler whose clock starts now. Its first frame starts when the clock says, a
    /// moment later.
    pub fn new() -> (profiler: Self)
        ensures
            profiler@ == ProfilerView::starting_at(profiler@.current_frame.start),
    {
        let program_start = Instant::now();
        let now = Instant::now();
        Profiler::starting_at(program_start, Duration::between(&program_start, &now))
    }

    /// A profiler that measures from `program_start`, with its first frame starting
    /// `frame_start` after that.
    pub fn starting_at(program_start: Instant, frame_start: Duration) -> (profiler: Self)
        ensures
            profiler@ == ProfilerView::starting_at(frame_start@),
            profiler.program_start() == program_start,
    {
        let profiler = Profiler {
            current_frame: Frame::starting_at(frame_start),
            current_frame_call_depth: 0,
            program_start,
            frames: Vec::new(),
        };
        assert(profiler@.frames =~= Seq::empty());
        profiler
    }

    /// The frame in progress.
    pub fn current_frame(&self) -> (frame: &Frame)
        ensures
            frame@ == self@.current_frame,
    {
        &self.current_frame
    }

    /// The number of scopes that are open.
    pub fn call_depth(&self) -> (depth: usize)
        ensures
            depth == self@.call_depth,
    {
        self.current_frame_call_depth
    }

    /// The frames closed by [`Profiler::new_frame`], oldest first.
    pub fn frames(&self) -> (frames: &Vec<Frame>)
        ensures
            frame_views(frames@) == self@.frames,
    {
        &self.frames
    }

    /// Notes that a scope has opened.
    pub fn begin_profile_result(&mut self)
        requires
            old(self)@.call_depth < usize::MAX,
        ensures
            final(self).program_start() == old(self).program_start(),
            final(self)@ == old(self)@.begin(),
    {
        self.current_frame_call_depth += 1;
    }

    /// Files the scope that closes now, which opened at `start` and lasted `duration`. Its
    /// start is counted from the program's start by the clock.
    pub fn submit_profile_result(&mut self, name: String, start: Instant, duration: Duration) -> (done:
        Result<(), CaptureError>)
        ensures
            final(self).program_start() == old(self).program_start(),
            old(self)@.call_depth == 0 ==> done == Err::<(), CaptureError>(
                CaptureError::UnbalancedScope,
            ) && final(self)@ == old(self)@,
            old(self)@.call_depth > 0 ==> done is Ok && exists|offset: nat|
                final(self)@ == old(self)@.record(name@, offset, duration@),
    {
        let offset = Duration::between(&self.program_start, &start);
        self.record_scope(name, offset, duration)
    }

    /// Files the scope that closes now, which opened `start` after the program did and lasted
    /// `duration`: at the end of the current frame, as deep as there are scopes open around
    /// it. Refuses where no scope is open.
    pub fn record_scope(&mut self, name: String, start: Duration, duration: Duration) -> (done:
        Result<(), CaptureError>)
        ensures
            final(self).program_start() == old(self).program_start(),
            old(self)@.call_depth == 0 ==> done == Err::<(), CaptureError>(
                CaptureError::UnbalancedScope,
            ) && final(self)@ == old(self)@,
            old(self)@.call_depth > 0 ==> done is Ok && final(self)@ == old(self)@.record(
                name@,
                start@,
                duration@,
            ),
    {
        if self.current_frame_call_depth == 0 {
            return Err(CaptureError::UnbalancedScope);
        }
        let depth = self.current_frame_call_depth - 1;
        self.current_frame.scope_results.push(ScopeResult::new(name, start, duration, depth));
        self.current_frame_call_depth = depth;
        assert(self@.current_frame.scope_results =~= old(self)@.record(
            name@,
            start@,
            duration@,
        ).current_frame.scope_results);
        Ok(())
    }

    /// Closes the current frame at `now` and hands it out; a new frame starts at `now`.
    /// Refuses where a scope is still open.
    pub fn take_frame_at(&mut self, now: Duration) -> (taken: Result<Frame, CaptureError>)
        ensures
            final(self).program_start() == old(self).program_start(),
            old(self)@.call_depth != 0 ==> taken == Err::<Frame, CaptureError>(
                CaptureError::ScopeOpenAtFrameBoundary,
            ) && final(self)@ == old(self)@,
            old(self)@.call_depth == 0 ==> taken is Ok && taken->Ok_0@ == old(
                self,
            )@.current_frame.closed_at(now@) && final(self)@ == old(self)@.next_frame(now@),
    {
        if self.current_frame_call_depth != 0 {
            return Err(CaptureError::ScopeOpenAtFrameBoundary);
        }
        let mut closed = Frame::starting_at(now);
        std::mem::swap(&mut self.current_frame, &mut closed);
        closed.duration = now.saturating_sub(closed.start);
        Ok(closed)
    }

    /// A frame boundary at `now`, for a thread that keeps its own frames: closes the current
    /// frame, puts it behind those kept so far, and starts a new one at `now`. Refuses where
    /// a scope is still open.
    pub fn new_frame_at(&mut self, now: Duration) -> (done: Result<(), CaptureError>)
        ensures
            final(self).program_start() == old(self).program_start(),
            old(self)@.call_depth != 0 ==> done == Err::<(), CaptureError>(
                CaptureError::ScopeOpenAtFrameBoundary,
            ) && final(self)@ == old(self)@,
            old(self)@.call_depth == 0 ==> done is Ok && final(self)@ == old(self)@.new_frame(
                now@,
            ),
    {
        match self.take_frame_at(now) {
            Ok(closed) => {
                self.frames.push(closed);
                assert(self@.frames =~= old(self)@.new_frame(now@).frames);
                Ok(())
            },
            Err(e) => Err(e),
        }
    }

    /// A frame boundary now, for a thread that keeps its own frames: as
    /// [`Profiler::new_frame_at`], at the moment that the clock gives.
    pub fn new_frame(&mut self) -> (done: Result<(), CaptureError>)
        ensures
            final(self).program_start() == old(self).program_start(),
            old(self)@.call_depth != 0 ==> done == Err::<(), CaptureError>(
                CaptureError::ScopeOpenAtFrameBoundary,
            ) && final(self)@ == old(self)@,
            old(self)@.call_depth == 0 ==> done is Ok && exists|now: nat|
                final(self)@ == old(self)@.new_frame(now),
    {
        let now = Instant::now();
        let elapsed = Duration::between(&self.program_start, &now);
        self.new_frame_at(elapsed)
    }

    /// A frame boundary at `now`, for a thread that reports to a registry: closes the current
    /// frame, hands it to `registry` as thread `thread_id`, and starts a new frame at `now`.
    /// Refuses where a scope is still open, and hands in nothing then.
    pub fn submit_frame_at(
        &mut self,
        registry: &mut GlobalProfiler,
        thread_id: u64,
        thread_name: Option<String>,
        now: Duration,
    ) -> (done: Result<(), CaptureError>)
        ensures
            final(self).program_start() == old(self).program_start(),
            old(self)@.call_depth != 0 ==> done == Err::<(), CaptureError>(
                CaptureError::ScopeOpenAtFrameBoundary,
            ) && final(self)@ == old(self)@ && final(registry)@ == old(registry)@,
            old(self)@.call_depth == 0 ==> done is Ok && final(self)@ == old(self)@.next_frame(
                now@,
            ) && final(registry)@ == submitted(
                old(registry)@,
                thread_id,
                name_view(thread_name),
                old(self)@.current_frame.closed_at(now@),
            ),
    {
        match self.take_frame_at(now) {
            Ok(closed) => {
                registry.submit(thread_id, thread_name, closed);
                Ok(())
            },
            Err(e) => Err(e),
        }
    }

    /// A frame boundary now, for a thread that reports to a registry: as
    /// [`Profiler::submit_frame_at`], at the moment that the clock gives.
    pub fn submit_frame(
        &mut self,
        registry: &mut GlobalProfiler,
        thread_id: u64,
        thread_name: Option<String>,
    ) -> (done: Result<(), CaptureError>)
        ensures
            final(self).program_start() == old(self).program_start(),
            old(self)@.call_depth != 0 ==> done == Err::<(), CaptureError>(
                CaptureError::ScopeOpenAtFrameBoundary,
            ) && final(self)@ == old(self)@ && final(registry)@ == old(registry)@,
            old(self)@.call_depth == 0 ==> done is Ok && exists|now: nat|
                final(self)@ == old(self)@.next_frame(now) && final(registry)@ == submitted(
                    old(registry)@,
                    thread_id,
                    name_view(thread_name),
                    old(self)@.current_frame.closed_at(now),
                ),
    {
        let now = Instant::now();
        let elapsed = Duration::between(&self.program_start, &now);
        self.submit_frame_at(registry, thread_id, thread_name, elapsed)
    }
}

impl Default for Profiler {
    fn default() -> (profiler: Self)
        ensures
            profiler@ == ProfilerView::starting_at(profiler@.current_frame.start),
    {
        Self::new()
    }
}

} // verus!
