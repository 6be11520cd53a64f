//! Frames: the scopes that closed on one thread during one unit of work.

use crate::scope::{
    children_duration, lemma_children_duration_grows, scope_views, self_duration, ScopeResult,
    ScopeResultView,
};
use crate::time::Duration;
use std::time::Instant;
use vstd::prelude::*;

verus! {

/// What a [`Frame`] says: where it starts and how long it lasts, in nanoseconds, and its
/// scopes in the order in which they closed.
pub struct FrameView {
    pub start: nat,
    pub duration: nat,
    pub scope_results: Seq<ScopeResultView>,
}

/// One unit of repeated work on one thread.
#[derive(Debug, PartialEq, Eq)]
pub struct Frame {
    pub start: Duration,
    pub duration: Duration,
    pub scope_results: Vec<ScopeResult>,
}

impl View for Frame {
    type V = FrameView;

    open spec fn view(&self) -> FrameView {
        FrameView {
            start: self.start@,
            duration: self.duration@,
            scope_results: scope_views(self.scope_results@),
        }
    }
}

/// The views of a run of frames, in the same order.
pub open spec fn frame_views(frames: Seq<Frame>) -> Seq<FrameView> {
    frames.map_values(|f: Frame| f@)
}

impl FrameView {
    /// The open frame with no scopes yet that starts at `start`.
    pub open spec fn starting_at(start: nat) -> FrameView {
        FrameView { start, duration: 0, scope_results: Seq::empty() }
    }

    /// This frame, closed at `now`: it has lasted from its start until then, and no time at
    /// all where `now` lies before its start.
    pub open spec fn closed_at(self, now: nat) -> FrameView {
        FrameView {
            start: self.start,
            duration: if self.start <= now {
                (now - self.start) as nat
            } else {
                0
            },
            scope_results: self.scope_results,
        }
    }

    /// This frame with one more scope at its end.
    pub open spec fn with_scope(self, scope: ScopeResultView) -> FrameView {
        FrameView {
            start: self.start,
            duration: self.duration,
            scope_results: self.scope_results.push(scope),
        }
    }
}

impl Clone for Frame {
    fn clone(&self) -> (copy: Self)
        ensures
            copy@ == self@,
    {
        let mut scope_results: Vec<ScopeResult> = Vec::new();
        let mut i: usize = 0;
        while i < self.scope_results.len()
            invariant
                i <= self.scope_results.len(),
                scope_results@ == self.scope_results@.take(i as int),
            decreases self.scope_results.len() - i,
        {
            scope_results.push(self.scope_results[i].clone());
            assert(self.scope_results@.take(i + 1) == self.scope_results@.take(i as int).push(
                self.scope_results@[i as int],
            ));
            i += 1;
        }
        assert(self.scope_results@.take(i as int) == self.scope_results@);
        Frame { start: self.start, duration: self.duration, scope_results }
    }
}

impl Frame {
    /// An open frame with no scopes yet, which starts now: as long after `program_start` as
    /// the clock says.
    pub fn new(program_start: &Instant) -> (frame: Self)
        ensures
            frame@ == FrameView::starting_at(frame@.start),
    {
        let now = Instant::now();
        Frame::starting_at(Duration::between(program_start, &now))
    }

    /// The time that `scope` spends in itself within this frame: its duration less that of
    /// its direct children, the scopes of this frame one level deeper and within its
    /// interval. There is none where those together take longer than `scope`.
    pub fn self_duration(&self, scope: &ScopeResult) -> (own: Option<Duration>)
        ensures
            match own {
                Some(time) => self_duration(self@.scope_results, scope@) == Some(time@),
                None => self_duration(self@.scope_results, scope@) is None,
            },
    {
        let mut own = scope.duration;
        let mut i: usize = 0;
        while i < self.scope_results.len()
            invariant
                i <= self.scope_results.len(),
                own@ + children_duration(self@.scope_results.take(i as int), scope@)
                    == scope@.duration,
            decreases self.scope_results.len() - i,
        {
            let other = &self.scope_results[i];
            proof {
                assert(self@.scope_results.take(i + 1).drop_last() == self@.scope_results.take(
                    i as int,
                ));
                lemma_children_duration_grows(self@.scope_results, scope@, i + 1);
            }
            if other.is_child_of(scope) {
                own = match own.checked_sub(other.duration) {
                    Some(rest) => rest,
                    None => {
                        return None;
                    },
                };
            }
            i += 1;
        }
        assert(self@.scope_results.take(i as int) == self@.scope_results);
        Some(own)
    }

    /// An open frame with no scopes yet, which starts `start` after the program did.
    pub fn starting_at(start: Duration) -> (frame: Self)
        ensures
            frame.start == start,
            frame.scope_results@ == Seq::<ScopeResult>::empty(),
            frame@ == FrameView::starting_at(start@),
    {
        let frame = Frame { start, duration: Duration::zero(), scope_results: Vec::new() };
        assert(frame@.scope_results =~= Seq::empty());
        frame
    }
}

} // verus!
