//! Completed scopes: one named, timed interval each, with its place in the call tree.

use crate::profiler::{CaptureError, Profiler};
use crate::time::Duration;
use std::time::Instant;
use vstd::prelude::*;

verus! {

/// What a [`ScopeResult`] says: its name, where it starts and how long it lasts, both in
/// nanoseconds, and how deep it was nested.
pub struct ScopeResultView {
    pub name: Seq<char>,
    pub start: nat,
    pub duration: nat,
    pub depth: nat,
}

impl ScopeResultView {
    /// The moment the scope closed.
    pub open spec fn end(self) -> nat {
        self.start + self.duration
    }

    /// The interval of `self` lies within that of `other`.
    pub open spec fn is_inside(self, other: ScopeResultView) -> bool {
        other.start <= self.start && self.end() <= other.end()
    }

    /// `self` counts as called directly by `parent`: one level deeper, and within its
    /// interval.
    pub open spec fn is_child_of(self, parent: ScopeResultView) -> bool {
        self.depth == parent.depth + 1 && self.is_inside(parent)
    }
}

/// A scope that has closed.
#[derive(Debug, PartialEq, Eq)]
pub struct ScopeResult {
    pub name: String,
    pub start: Duration,
    pub duration: Duration,
    pub depth: usize,
}

impl View for ScopeResult {
    type V = ScopeResultView;

    open spec fn view(&self) -> ScopeResultView {
        ScopeResultView {
            name: self.name@,
            start: self.start@,
            duration: self.duration@,
            depth: self.depth as nat,
        }
    }
}

impl Clone for ScopeResult {
    fn clone(&self) -> (copy: Self)
        ensures
            copy == *self,
    {
        ScopeResult {
            name: self.name.clone(),
            start: self.start,
            duration: self.duration,
            depth: self.depth,
        }
    }
}

impl ScopeResult {
    /// The record of a scope named `name` that started `start` after the program did,
    /// lasted `duration` and was nested `depth` deep.
    pub fn new(name: String, start: Duration, duration: Duration, depth: usize) -> (result: Self)
        ensures
            result == (ScopeResult { name, start, duration, depth }),
    {
        Self { name, start, duration, depth }
    }

    /// Whether the interval of `self` lies within that of `other`, ends included.
    pub fn is_inside(&self, other: &Self) -> (inside: bool)
        ensures
            inside == self@.is_inside(other@),
    {
        let self_end: u128 = self.start.as_nanos() + self.duration.as_nanos();
        let other_end: u128 = other.start.as_nanos() + other.duration.as_nanos();
        self.start.as_nanos() >= other.start.as_nanos() && self_end <= other_end
    }

    /// Whether `self` counts as called directly by `parent`: one level deeper, and within
    /// its interval.
    pub fn is_child_of(&self, parent: &Self) -> (child: bool)
        ensures
            child == self@.is_child_of(parent@),
    {
        self.depth > 0 && self.depth - 1 == parent.depth && self.is_inside(parent)
    }
}

/// A scope that is open: its name, and the reading of the clock when it opened.
#[derive(Debug)]
pub struct Scope {
    pub name: String,
    pub start: Instant,
}

impl Scope {
    /// Opens a scope named `name` on the thread of `profiler`, now.
    pub fn new(profiler: &mut Profiler, name: String) -> (scope: Self)
        requires
            old(profiler)@.call_depth < usize::MAX,
        ensures
            scope.name == name,
            final(profiler)@ == old(profiler)@.begin(),
            final(profiler).program_start() == old(profiler).program_start(),
    {
        profiler.begin_profile_result();
        Scope { name, start: Instant::now() }
    }

    /// Closes the scope now and files it with `profiler`, under its name, with the time it
    /// was open by the clock. A scope is closed on the profiler it was opened on, and
    /// before every scope that was open when it opened.
    pub fn close(self, profiler: &mut Profiler) -> (done: Result<(), CaptureError>)
        ensures
            final(profiler).program_start() == old(profiler).program_start(),
            old(profiler)@.call_depth == 0 ==> done == Err::<(), CaptureError>(
                CaptureError::UnbalancedScope,
            ) && final(profiler)@ == old(profiler)@,
            old(profiler)@.call_depth > 0 ==> done is Ok && exists|start: nat, duration: nat|
                final(profiler)@ == old(profiler)@.record(self.name@, start, duration),
    {
        let now = Instant::now();
        let duration = Duration::between(&self.start, &now);
        profiler.submit_profile_result(self.name, self.start, duration)
    }
}

/// The time that the direct children of `parent` among `scopes` take together.
pub open spec fn children_duration(scopes: Seq<ScopeResultView>, parent: ScopeResultView) -> nat
    decreases scopes.len(),
{
    if scopes.len() == 0 {
        0
    } else if scopes.last().is_child_of(parent) {
        children_duration(scopes.drop_last(), parent) + scopes.last().duration
    } else {
        children_duration(scopes.drop_last(), parent)
    }
}

/// The time that `scope` spends in itself, among the scopes `scopes` of its frame: its
/// duration less that of its direct children. There is none where the children together
/// take longer than the scope, as they may where they overlap.
pub open spec fn self_duration(scopes: Seq<ScopeResultView>, scope: ScopeResultView) -> Option<
    nat,
> {
    if children_duration(scopes, scope) <= scope.duration {
        Some((scope.duration - children_duration(scopes, scope)) as nat)
    } else {
        None
    }
}

/// With more scopes to look at, the children take no less time.
pub proof fn lemma_children_duration_grows(
    scopes: Seq<ScopeResultView>,
    parent: ScopeResultView,
    n: int,
)
    requires
        0 <= n <= scopes.len(),
    ensures
        children_duration(scopes.take(n), parent) <= children_duration(scopes, parent),
    decreases scopes.len() - n,
{
    if n < scopes.len() {
        lemma_children_duration_grows(scopes, parent, n + 1);
        assert(scopes.take(n + 1).drop_last() == scopes.take(n));
    } else {
        assert(scopes.take(n) == scopes);
    }
}

/// Two scopes take their turns one after the other: one of them has closed when the other
/// starts.
pub open spec fn separate(a: ScopeResultView, b: ScopeResultView) -> bool {
    a.end() <= b.start || b.end() <= a.start
}

/// The time that the direct children of `parent` among `scopes` take together, those of
/// them that lie between `from` and `until`.
pub open spec fn children_duration_between(
    scopes: Seq<ScopeResultView>,
    parent: ScopeResultView,
    from: nat,
    until: nat,
) -> nat
    decreases scopes.len(),
{
    if scopes.len() == 0 {
        0
    } else if scopes.last().is_child_of(parent) && from <= scopes.last().start
        && scopes.last().end() <= until {
        children_duration_between(scopes.drop_last(), parent, from, until)
            + scopes.last().duration
    } else {
        children_duration_between(scopes.drop_last(), parent, from, until)
    }
}

/// No two direct children of `parent` among `scopes` overlap.
pub open spec fn children_separate(scopes: Seq<ScopeResultView>, parent: ScopeResultView)
    -> bool {
    forall|i: int, j: int|
        0 <= i < j < scopes.len() && (#[trigger] scopes[i]).is_child_of(parent)
            && (#[trigger] scopes[j]).is_child_of(parent) ==> separate(scopes[i], scopes[j])
}

proof fn lemma_children_on_either_side(
    scopes: Seq<ScopeResultView>,
    parent: ScopeResultView,
    from: nat,
    until: nat,
    gap: ScopeResultView,
)
    requires
        forall|i: int|
            0 <= i < scopes.len() && (#[trigger] scopes[i]).is_child_of(parent) ==> separate(
                scopes[i],
                gap,
            ),
    ensures
        children_duration_between(scopes, parent, from, until) <= children_duration_between(
            scopes,
            parent,
            from,
            gap.start,
        ) + children_duration_between(scopes, parent, gap.end(), until),
    decreases scopes.len(),
{
    if scopes.len() > 0 {
        let rest = scopes.drop_last();
        assert forall|i: int| 0 <= i < rest.len() && (#[trigger] rest[i]).is_child_of(
            parent,
        ) implies separate(rest[i], gap) by {
            assert(rest[i] == scopes[i]);
        }
        lemma_children_on_either_side(rest, parent, from, until, gap);
        assert(scopes[scopes.len() - 1] == scopes.last());
    }
}

proof fn lemma_separate_children_fit(
    scopes: Seq<ScopeResultView>,
    parent: ScopeResultView,
    from: nat,
    until: nat,
)
    requires
        children_separate(scopes, parent),
        from <= until,
    ensures
        children_duration_between(scopes, parent, from, until) <= until - from,
    decreases scopes.len(),
{
    if scopes.len() > 0 {
        let rest = scopes.drop_last();
        let last = scopes.last();
        assert forall|i: int, j: int|
            0 <= i < j < rest.len() && (#[trigger] rest[i]).is_child_of(parent)
                && (#[trigger] rest[j]).is_child_of(parent) implies separate(rest[i], rest[j]) by {
            assert(rest[i] == scopes[i] && rest[j] == scopes[j]);
        }
        if last.is_child_of(parent) && from <= last.start && last.end() <= until {
            assert forall|i: int| 0 <= i < rest.len() && (#[trigger] rest[i]).is_child_of(
                parent,
            ) implies separate(rest[i], last) by {
                assert(rest[i] == scopes[i]);
                assert(scopes[scopes.len() - 1] == last);
            }
            lemma_children_on_either_side(rest, parent, from, until, last);
            lemma_separate_children_fit(rest, parent, from, last.start);
            lemma_separate_children_fit(rest, parent, last.end(), until);
        } else {
            lemma_separate_children_fit(rest, parent, from, until);
        }
    }
}

proof fn lemma_children_lie_within(scopes: Seq<ScopeResultView>, parent: ScopeResultView)
    ensures
        children_duration(scopes, parent) == children_duration_between(
            scopes,
            parent,
            parent.start,
            parent.end(),
        ),
    decreases scopes.len(),
{
    if scopes.len() > 0 {
        lemma_children_lie_within(scopes.drop_last(), parent);
    }
}

/// Children that take their turns leave their parent its own time. Where no two direct
/// children of `scope` among `scopes` overlap, they take no longer together than `scope`
/// lasts, so `scope` has a self-duration: its duration less theirs.
pub proof fn lemma_separate_children_leave_time(
    scopes: Seq<ScopeResultView>,
    scope: ScopeResultView,
)
    requires
        children_separate(scopes, scope),
    ensures
        children_duration(scopes, scope) <= scope.duration,
        self_duration(scopes, scope) == Some(
            (scope.duration - children_duration(scopes, scope)) as nat,
        ),
{
    lemma_children_lie_within(scopes, scope);
    lemma_separate_children_fit(scopes, scope, scope.start, scope.end());
}

/// The views of a run of scope results, in the same order.
pub open spec fn scope_views(results: Seq<ScopeResult>) -> Seq<ScopeResultView> {
    results.map_values(|r: ScopeResult| r@)
}

} // verus!
