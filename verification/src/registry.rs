//! The registry that gathers the closed frames of every thread, each thread under its
//! identity.

use crate::frame::{frame_views, Frame, FrameView};
use std::collections::HashMap;
use vstd::prelude::*;

verus! {

broadcast use vstd::std_specs::hash::group_hash_axioms;

/// What a [`ThreadProfiler`] says: the thread's display name and its frames, oldest first.
pub struct ThreadProfilerView {
    pub name: Seq<char>,
    pub frames: Seq<FrameView>,
}

/// The frames of one thread.
#[derive(Debug)]
pub struct ThreadProfiler {
    pub name: String,
    pub frames: Vec<Frame>,
}

impl View for ThreadProfiler {
    type V = ThreadProfilerView;

    open spec fn view(&self) -> ThreadProfilerView {
        ThreadProfilerView { name: self.name@, frames: frame_views(self.frames@) }
    }
}

/// The name under which a thread is shown: its own, or a stand-in where it has none.
pub open spec fn display_name(thread_name: Option<Seq<char>>) -> Seq<char> {
    match thread_name {
        Some(name) => name,
        None => "Unnamed Thread"@,
    }
}

/// The view of a thread's name, where it has one.
pub open spec fn name_view(thread_name: Option<String>) -> Option<Seq<char>> {
    match thread_name {
        Some(name) => Some(name@),
        None => None,
    }
}

impl Clone for ThreadProfiler {
    fn clone(&self) -> (copy: Self)
        ensures
            copy@ == self@,
    {
        let mut frames: Vec<Frame> = Vec::new();
        let mut i: usize = 0;
        while i < self.frames.len()
            invariant
                i <= self.frames.len(),
                frame_views(frames@) == frame_views(self.frames@.take(i as int)),
            decreases self.frames.len() - i,
        {
            let ghost before = frames@;
            frames.push(self.frames[i].clone());
            assert(self.frames@.take(i + 1) == self.frames@.take(i as int).push(
                self.frames@[i as int],
            ));
            assert(frame_views(frames@) =~= frame_views(before).push(self.frames@[i as int]@));
            assert(frame_views(self.frames@.take(i + 1)) =~= frame_views(
                self.frames@.take(i as int),
            ).push(self.frames@[i as int]@));
            i += 1;
        }
        assert(self.frames@.take(i as int) == self.frames@);
        ThreadProfiler { name: self.name.clone(), frames }
    }
}

impl ThreadProfiler {
    /// The entry of a thread shown as `name`, with the frames `frames`.
    pub fn new(name: String, frames: Vec<Frame>) -> (thread_profiler: Self)
        ensures
            thread_profiler == (ThreadProfiler { name, frames }),
    {
        Self { name, frames }
    }

    /// The entry of a thread that has handed in no frame yet, under the thread's name or
    /// the stand-in for a thread without one.
    pub fn for_thread(thread_name: Option<String>) -> (thread_profiler: Self)
        ensures
            thread_profiler@ == (ThreadProfilerView {
                name: display_name(name_view(thread_name)),
                frames: Seq::empty(),
            }),
    {
        let name = match thread_name {
            Some(name) => name,
            None => "Unnamed Thread".to_owned(),
        };
        let thread_profiler = ThreadProfiler { name, frames: Vec::new() };
        assert(thread_profiler@.frames =~= Seq::empty());
        thread_profiler
    }
}

/// What a [`GlobalProfiler`] says: for each thread that has handed in a frame, what its
/// entry says.
pub type RegistryView = Map<u64, ThreadProfilerView>;

/// The registry after thread `thread_id`, named `thread_name`, has handed in `frame`: the
/// frame stands at the end of the thread's frames, and a thread that was not known has an
/// entry now, under its display name.
pub open spec fn submitted(
    registry: RegistryView,
    thread_id: u64,
    thread_name: Option<Seq<char>>,
    frame: FrameView,
) -> RegistryView {
    if registry.contains_key(thread_id) {
        registry.insert(
            thread_id,
            ThreadProfilerView {
                name: registry[thread_id].name,
                frames: registry[thread_id].frames.push(frame),
            },
        )
    } else {
        registry.insert(
            thread_id,
            ThreadProfilerView { name: display_name(thread_name), frames: seq![frame] },
        )
    }
}

/// One hand-in: thread `thread_id`, which calls itself `thread_name`, hands in `frame`.
pub struct Submission {
    pub thread_id: u64,
    pub thread_name: Option<Seq<char>>,
    pub frame: FrameView,
}

/// The registry after a run of hand-ins, the first of them first.
pub open spec fn aggregated(registry: RegistryView, submissions: Seq<Submission>) -> RegistryView
    decreases submissions.len(),
{
    if submissions.len() == 0 {
        registry
    } else {
        let last = submissions.last();
        submitted(
            aggregated(registry, submissions.drop_last()),
            last.thread_id,
            last.thread_name,
            last.frame,
        )
    }
}

/// The frames that thread `thread_id` hands in during `submissions`, in that order.
pub open spec fn frames_of(submissions: Seq<Submission>, thread_id: u64) -> Seq<FrameView>
    decreases submissions.len(),
{
    if submissions.len() == 0 {
        Seq::empty()
    } else if submissions.last().thread_id == thread_id {
        frames_of(submissions.drop_last(), thread_id).push(submissions.last().frame)
    } else {
        frames_of(submissions.drop_last(), thread_id)
    }
}

/// The registry keeps each thread's frames apart, whatever the order in which threads take
/// turns. After any run of hand-ins to a registry, thread `thread_id` has an entry exactly if
/// it had one before or has handed in a frame, and its entry holds the frames it had before,
/// followed by the frames it handed in, in the order in which it did.
pub proof fn lemma_aggregated_by_thread(
    registry: RegistryView,
    submissions: Seq<Submission>,
    thread_id: u64,
)
    ensures
        ({
            let end = aggregated(registry, submissions);
            let handed_in = frames_of(submissions, thread_id);
            &&& end.contains_key(thread_id) <==> registry.contains_key(thread_id) || handed_in.len()
                > 0
            &&& registry.contains_key(thread_id) ==> end[thread_id].frames
                == registry[thread_id].frames + handed_in && end[thread_id].name
                == registry[thread_id].name
            &&& !registry.contains_key(thread_id) && handed_in.len() > 0 ==> end[thread_id].frames
                == handed_in
        }),
    decreases submissions.len(),
{
    if submissions.len() > 0 {
        lemma_aggregated_by_thread(registry, submissions.drop_last(), thread_id);
        let before = aggregated(registry, submissions.drop_last());
        let earlier = frames_of(submissions.drop_last(), thread_id);
        let last = submissions.last();
        if last.thread_id == thread_id {
            if registry.contains_key(thread_id) {
                assert((registry[thread_id].frames + earlier).push(last.frame)
                    =~= registry[thread_id].frames + earlier.push(last.frame));
            } else if earlier.len() == 0 {
                assert(seq![last.frame] =~= earlier.push(last.frame));
            }
        }
    } else {
        assert(registry[thread_id].frames + Seq::<FrameView>::empty()
            =~= registry[thread_id].frames);
    }
}

proof fn lemma_silent_thread(submissions: Seq<Submission>, thread_id: u64)
    requires
        forall|i: int| 0 <= i < submissions.len() ==> submissions[i].thread_id != thread_id,
    ensures
        frames_of(submissions, thread_id).len() == 0,
    decreases submissions.len(),
{
    if submissions.len() > 0 {
        lemma_silent_thread(submissions.drop_last(), thread_id);
    }
}

/// Threads times frames. Let every hand-in to an empty registry come from one of the threads
/// in `threads`, and let each of those threads hand in exactly `per_thread` frames, at least
/// one. Then, whatever the order of the hand-ins, the registry has exactly one entry for each
/// of the threads and no other, and each entry holds exactly `per_thread` frames.
pub proof fn lemma_threads_times_frames(
    submissions: Seq<Submission>,
    threads: Set<u64>,
    per_thread: nat,
)
    requires
        per_thread > 0,
        forall|i: int|
            0 <= i < submissions.len() ==> threads.contains(#[trigger] submissions[i].thread_id),
        forall|t: u64| threads.contains(t) ==> #[trigger] frames_of(submissions, t).len() == per_thread,
    ensures
        aggregated(Map::empty(), submissions).dom() == threads,
        forall|t: u64|
            threads.contains(t) ==> #[trigger] aggregated(Map::empty(), submissions)[t].frames.len()
                == per_thread,
{
    let end = aggregated(Map::empty(), submissions);
    assert forall|t: u64| end.dom().contains(t) == threads.contains(t) by {
        lemma_aggregated_by_thread(Map::empty(), submissions, t);
        if !threads.contains(t) {
            lemma_silent_thread(submissions, t);
        }
    }
    assert(end.dom() =~= threads);
    assert forall|t: u64| threads.contains(t) implies #[trigger] end[t].frames.len()
        == per_thread by {
        lemma_aggregated_by_thread(Map::empty(), submissions, t);
    }
}

/// The frames of every thread of the process.
#[derive(Debug)]
pub struct GlobalProfiler {
    pub thread_profilers: HashMap<u64, ThreadProfiler>,
}

impl View for GlobalProfiler {
    type V = RegistryView;

    open spec fn view(&self) -> RegistryView {
        self.thread_profilers@.map_values(|t: ThreadProfiler| t@)
    }
}

impl Clone for GlobalProfiler {
    fn clone(&self) -> (copy: Self)
        ensures
            copy@ == self@,
    {
        GlobalProfiler { thread_profilers: self.thread_profilers.clone() }
    }
}

impl GlobalProfiler {
    /// A registry that no thread has reported to.
    pub fn new() -> (registry: Self)
        ensures
            registry@ == RegistryView::empty(),
    {
        let registry = Self { thread_profilers: HashMap::new() };
        assert(registry@ =~= RegistryView::empty());
        registry
    }

    /// Takes a closed frame from thread `thread_id` and puts it behind that thread's frames.
    /// A thread that hands in its first frame gets its entry, named `thread_name` or by the
    /// stand-in.
    pub fn submit(&mut self, thread_id: u64, thread_name: Option<String>, frame: Frame)
        ensures
            final(self)@ == submitted(old(self)@, thread_id, name_view(thread_name), frame@),
    {
        let mut entry = match self.thread_profilers.remove(&thread_id) {
            Some(known) => known,
            None => ThreadProfiler::for_thread(thread_name),
        };
        entry.frames.push(frame);
        self.thread_profilers.insert(thread_id, entry);
        assert(self@ =~= submitted(old(self)@, thread_id, name_view(thread_name), frame@)) by {
            assert(entry@.frames =~= if old(self)@.contains_key(thread_id) {
                old(self)@[thread_id].frames.push(frame@)
            } else {
                seq![frame@]
            });
        }
    }
}

impl Default for GlobalProfiler {
    fn default() -> (registry: Self)
        ensures
            registry@ == RegistryView::empty(),
    {
        Self::new()
    }
}

} // verus!
