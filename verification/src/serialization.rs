//! The binary form of a trace, for saving and loading. A trace is first laid out as plain
//! records, thread by thread, and the records are then encoded by `bincode`.

use crate::frame::{Frame, FrameView};
use crate::registry::{GlobalProfiler, RegistryView, ThreadProfiler, ThreadProfilerView};
use crate::scope::{ScopeResult, ScopeResultView};
use crate::time::{Duration, MAX_NANOS, NANOS_PER_SEC};
use std::collections::HashMap;
use vstd::prelude::*;
use vstd::std_specs::hash::spec_hash_map_iter;
use vstd::std_specs::iter::IteratorSpec;

verus! {

broadcast use vstd::std_specs::hash::group_hash_axioms;

/// A span of time in a record: whole seconds, and nanoseconds beside them.
pub type SpanRecord = (u64, u32);

/// A scope in a record: name, start, duration, depth.
pub type ScopeRecord = (String, SpanRecord, SpanRecord, usize);

/// A frame in a record: start, duration, scopes.
pub type FrameRecord = (SpanRecord, SpanRecord, Vec<ScopeRecord>);

/// A thread in a record: name, frames.
pub type ThreadRecord = (String, Vec<FrameRecord>);

/// A trace as records: one entry for each thread, its identity first.
pub type TraceRecord = Vec<(u64, ThreadRecord)>;

/// What a [`ScopeRecord`] holds.
pub type ScopeRecordView = (Seq<char>, SpanRecord, SpanRecord, usize);

/// What a [`FrameRecord`] holds.
pub type FrameRecordView = (SpanRecord, SpanRecord, Seq<ScopeRecordView>);

/// What a [`ThreadRecord`] holds.
pub type ThreadRecordView = (Seq<char>, Seq<FrameRecordView>);

/// What a [`TraceRecord`] holds.
pub type TraceRecordView = Seq<(u64, ThreadRecordView)>;

/// The record of a span of `nanos` nanoseconds: its whole seconds, and what is left.
pub open spec fn span_record(nanos: nat) -> SpanRecord {
    ((nanos / NANOS_PER_SEC as nat) as u64, (nanos % NANOS_PER_SEC as nat) as u32)
}

/// The record of a scope.
pub open spec fn scope_record(scope: ScopeResultView) -> ScopeRecordView {
    (scope.name, span_record(scope.start), span_record(scope.duration), scope.depth as usize)
}

/// The record of a frame.
pub open spec fn frame_record(frame: FrameView) -> FrameRecordView {
    (
        span_record(frame.start),
        span_record(frame.duration),
        frame.scope_results.map_values(|scope: ScopeResultView| scope_record(scope)),
    )
}

/// The record of a thread.
pub open spec fn thread_record(thread: ThreadProfilerView) -> ThreadRecordView {
    (thread.name, thread.frames.map_values(|frame: FrameView| frame_record(frame)))
}

/// `records` lists `registry`: each thread of the registry once, in any order, with its
/// record.
pub open spec fn lists(records: TraceRecordView, registry: RegistryView) -> bool {
    &&& records.len() == registry.dom().len()
    &&& forall|i: int|
        0 <= i < records.len() ==> registry.contains_key(#[trigger] records[i].0) && records[i].1
            == thread_record(registry[records[i].0])
    &&& forall|i: int, j: int|
        0 <= i < j < records.len() ==> (#[trigger] records[i]).0 != (#[trigger] records[j]).0
}

/// The nanoseconds in a recorded span. The nanoseconds beside the seconds may exceed a
/// second; they count all the same.
pub open spec fn span_nanos(span: SpanRecord) -> nat {
    (span.0 * NANOS_PER_SEC + span.1) as nat
}

/// The recorded span is one that a [`Duration`] holds.
pub open spec fn span_in_range(span: SpanRecord) -> bool {
    span_nanos(span) <= MAX_NANOS
}

/// Both spans of the recorded scope are ones that a [`Duration`] holds.
pub open spec fn scope_in_range(scope: ScopeRecordView) -> bool {
    span_in_range(scope.1) && span_in_range(scope.2)
}

/// Every span of the recorded frame and of its scopes is one that a [`Duration`] holds.
pub open spec fn frame_in_range(frame: FrameRecordView) -> bool {
    &&& span_in_range(frame.0)
    &&& span_in_range(frame.1)
    &&& forall|i: int| 0 <= i < frame.2.len() ==> scope_in_range(#[trigger] frame.2[i])
}

/// Every span in the recorded thread is one that a [`Duration`] holds.
pub open spec fn thread_in_range(thread: ThreadRecordView) -> bool {
    forall|i: int| 0 <= i < thread.1.len() ==> frame_in_range(#[trigger] thread.1[i])
}

/// Every span in `records` is one that a [`Duration`] holds.
pub open spec fn records_in_range(records: TraceRecordView) -> bool {
    forall|i: int| 0 <= i < records.len() ==> thread_in_range((#[trigger] records[i]).1)
}

/// The scope that a record describes.
pub open spec fn scope_of(record: ScopeRecordView) -> ScopeResultView {
    ScopeResultView {
        name: record.0,
        start: span_nanos(record.1),
        duration: span_nanos(record.2),
        depth: record.3 as nat,
    }
}

/// The frame that a record describes.
pub open spec fn frame_of(record: FrameRecordView) -> FrameView {
    FrameView {
        start: span_nanos(record.0),
        duration: span_nanos(record.1),
        scope_results: record.2.map_values(|scope: ScopeRecordView| scope_of(scope)),
    }
}

/// The thread that a record describes.
pub open spec fn thread_of(record: ThreadRecordView) -> ThreadProfilerView {
    ThreadProfilerView {
        name: record.0,
        frames: record.1.map_values(|frame: FrameRecordView| frame_of(frame)),
    }
}

/// The registry that `records` describe: each entry under its thread, and where a thread
/// has several entries, the last of them.
pub open spec fn registry_of(records: TraceRecordView) -> RegistryView
    decreases records.len(),
{
    if records.len() == 0 {
        Map::empty()
    } else {
        registry_of(records.drop_last()).insert(records.last().0, thread_of(records.last().1))
    }
}

/// The trace that `records` describe, where every span in them is in range.
pub open spec fn trace_of(records: TraceRecordView) -> Option<RegistryView> {
    if records_in_range(records) {
        Some(registry_of(records))
    } else {
        None
    }
}

/// The bytes that `bincode::serialize` writes for `records`.
pub uninterp spec fn bincode_encoding(records: TraceRecordView) -> Seq<u8>;

/// The records that `bincode::deserialize` reads from `bytes`, where it reads any.
pub uninterp spec fn bincode_decoding(bytes: Seq<u8>) -> Option<TraceRecordView>;

/// The trace that `bytes` hold, where they hold one.
pub open spec fn decoded_trace(bytes: Seq<u8>) -> Option<RegistryView> {
    match bincode_decoding(bytes) {
        Some(records) => trace_of(records),
        None => None,
    }
}

/// `bincode::ErrorKind`: the encoder's or decoder's own account of why it failed. Nothing is
/// known of what one holds.
#[verifier::external_type_specification]
#[verifier::external_body]
pub struct ExErrorKind(bincode::ErrorKind);

/// Calls `bincode::serialize`, which encodes with the crate's default configuration. Three
/// things are claimed of it. It succeeds on these records: it sets no limit on the bytes,
/// it writes into a vector, and the one error its encoder raises by itself is for a sequence
/// of unknown length, which none of these is. The bytes it gives depend on what the records
/// hold and on nothing else. And `bincode::deserialize` reads the same records back from
/// them, which is what the crate offers its encoder and decoder for.
#[verifier::external_body]
fn encode_records(records: &TraceRecord) -> (encoded: Result<Vec<u8>, Box<bincode::ErrorKind>>)
    ensures
        encoded is Ok,
        encoded matches Ok(bytes) ==> bytes@ == bincode_encoding(records.deep_view())
            && bincode_decoding(bytes@) == Some(records.deep_view()),
{
    bincode::serialize(records)
}

/// Calls `bincode::deserialize`, which decodes with the crate's default configuration.
/// Claimed of it is that whether it reads records from the bytes, and which, depends on the
/// bytes and on nothing else.
#[verifier::external_body]
fn decode_records(bytes: &[u8]) -> (decoded: Result<TraceRecord, Box<bincode::ErrorKind>>)
    ensures
        match decoded {
            Ok(records) => bincode_decoding(bytes@) == Some(records.deep_view()),
            Err(_) => bincode_decoding(bytes@) is None,
        },
{
    bincode::deserialize(bytes)
}

/// Calls `to_string` on a `bincode` error, which gives the text that its `Display` writes.
/// Nothing is claimed of the text.
#[verifier::external_body]
fn error_message(error: &bincode::ErrorKind) -> String {
    error.to_string()
}

/// Why a trace could not be saved or loaded.
#[derive(Debug, PartialEq, Eq)]
pub enum TraceError {
    /// The encoder gave up; its message. No trace makes it do so.
    Encode(String),
    /// The bytes are not an encoded trace; the decoder's message.
    Malformed(String),
    /// The bytes are an encoded trace, but a span of time in it is longer than a
    /// [`Duration`] can hold.
    DurationOverflow,
}

impl TraceError {
    /// The error in words: the encoder's or decoder's own message, or that a span of time
    /// overflows.
    pub fn message(&self) -> (text: String)
        ensures
            text@ == match *self {
                TraceError::Encode(message) => message@,
                TraceError::Malformed(message) => message@,
                TraceError::DurationOverflow => "overflow deserializing Duration"@,
            },
    {
        match self {
            TraceError::Encode(message) => message.clone(),
            TraceError::Malformed(message) => message.clone(),
            TraceError::DurationOverflow => "overflow deserializing Duration".to_owned(),
        }
    }
}

/// Why a trace could not be loaded from a file.
#[derive(Debug, PartialEq, Eq)]
pub enum LoadError {
    /// The file could not be read; the account of whoever tried.
    Io(String),
    /// The file was read, and what it holds is no trace.
    Format(TraceError),
}

impl LoadError {
    /// The error in words: the reader's account, or the message of the [`TraceError`].
    pub fn message(&self) -> (text: String)
        ensures
            text@ == match *self {
                LoadError::Io(message) => message@,
                LoadError::Format(TraceError::Encode(message)) => message@,
                LoadError::Format(TraceError::Malformed(message)) => message@,
                LoadError::Format(TraceError::DurationOverflow) => "overflow deserializing Duration"@,
            },
    {
        match self {
            LoadError::Io(message) => message.clone(),
            LoadError::Format(error) => error.message(),
        }
    }
}

fn span_to_record(span: Duration) -> (record: SpanRecord)
    ensures
        record == span_record(span@),
        span_nanos(record) == span@,
        span_in_range(record),
{
    (span.as_secs(), span.subsec_nanos())
}

fn scope_to_record(scope: &ScopeResult) -> (record: ScopeRecord)
    ensures
        record.deep_view() == scope_record(scope@),
        scope_in_range(record.deep_view()),
        scope_of(record.deep_view()) == scope@,
{
    (
        scope.name.clone(),
        span_to_record(scope.start),
        span_to_record(scope.duration),
        scope.depth,
    )
}

fn scope_from_record(record: ScopeRecord) -> (scope: Option<ScopeResult>)
    ensures
        scope is Some <==> scope_in_range(record.deep_view()),
        scope matches Some(s) ==> s@ == scope_of(record.deep_view()),
{
    let (name, start, duration, depth) = record;
    match (Duration::from_parts(start.0, start.1), Duration::from_parts(duration.0, duration.1)) {
        (Some(start), Some(duration)) => Some(ScopeResult::new(name, start, duration, depth)),
        _ => None,
    }
}

fn frame_to_record(frame: &Frame) -> (record: FrameRecord)
    ensures
        record.deep_view() == frame_record(frame@),
        frame_in_range(record.deep_view()),
        frame_of(record.deep_view()) == frame@,
{
    let mut scopes: Vec<ScopeRecord> = Vec::new();
    let mut i: usize = 0;
    while i < frame.scope_results.len()
        invariant
            i <= frame.scope_results.len(),
            scopes@.len() == i,
            forall|j: int|
                0 <= j < i ==> {
                    let scope = (#[trigger] scopes@[j]).deep_view();
                    &&& scope == scope_record(frame.scope_results@[j]@)
                    &&& scope_in_range(scope)
                    &&& scope_of(scope) == frame.scope_results@[j]@
                },
        decreases frame.scope_results.len() - i,
    {
        scopes.push(scope_to_record(&frame.scope_results[i]));
        i += 1;
    }
    let record = (span_to_record(frame.start), span_to_record(frame.duration), scopes);
    proof {
        let view = record.deep_view();
        assert(view.2 =~= frame_record(frame@).2);
        assert(frame_of(view).scope_results =~= frame@.scope_results);
    }
    record
}

fn frame_from_record(record: FrameRecord) -> (frame: Option<Frame>)
    ensures
        frame is Some <==> frame_in_range(record.deep_view()),
        frame matches Some(f) ==> f@ == frame_of(record.deep_view()),
{
    let (start, duration, scopes) = record;
    let start = match Duration::from_parts(start.0, start.1) {
        Some(start) => start,
        None => {
            return None;
        },
    };
    let duration = match Duration::from_parts(duration.0, duration.1) {
        Some(duration) => duration,
        None => {
            return None;
        },
    };
    let mut scope_results: Vec<ScopeResult> = Vec::new();
    for scope in iter: scopes.into_iter()
        invariant
            iter.seq() == scopes@,
            record.deep_view().2 == scopes.deep_view(),
            scope_results@.len() == iter.index(),
            forall|j: int|
                #![trigger scopes@[j]]
                0 <= j < iter.index() ==> scope_in_range(scopes@[j].deep_view())
                    && scope_results@[j]@ == scope_of(scopes@[j].deep_view()),
    {
        match scope_from_record(scope) {
            Some(result) => {
                scope_results.push(result);
            },
            None => {
                assert(!scope_in_range(record.deep_view().2[iter.index()]));
                return None;
            },
        }
    }
    let frame = Frame { start, duration, scope_results };
    proof {
        assert(frame@.scope_results =~= frame_of(record.deep_view()).scope_results);
        assert forall|j: int| 0 <= j < record.deep_view().2.len() implies scope_in_range(
            #[trigger] record.deep_view().2[j],
        ) by {
            assert(scope_in_range(scopes@[j].deep_view()));
        }
    }
    Some(frame)
}

fn thread_to_record(thread: &ThreadProfiler) -> (record: ThreadRecord)
    ensures
        record.deep_view() == thread_record(thread@),
        thread_in_range(record.deep_view()),
        thread_of(record.deep_view()) == thread@,
{
    let mut frames: Vec<FrameRecord> = Vec::new();
    let mut i: usize = 0;
    while i < thread.frames.len()
        invariant
            i <= thread.frames.len(),
            frames@.len() == i,
            forall|j: int|
                0 <= j < i ==> {
                    let frame = (#[trigger] frames@[j]).deep_view();
                    &&& frame == frame_record(thread.frames@[j]@)
                    &&& frame_in_range(frame)
                    &&& frame_of(frame) == thread.frames@[j]@
                },
        decreases thread.frames.len() - i,
    {
        frames.push(frame_to_record(&thread.frames[i]));
        i += 1;
    }
    let record = (thread.name.clone(), frames);
    proof {
        let view = record.deep_view();
        assert(view.1 =~= thread_record(thread@).1);
        assert(thread_of(view).frames =~= thread@.frames);
    }
    record
}

fn thread_from_record(record: ThreadRecord) -> (thread: Option<ThreadProfiler>)
    ensures
        thread is Some <==> thread_in_range(record.deep_view()),
        thread matches Some(t) ==> t@ == thread_of(record.deep_view()),
{
    let (name, records) = record;
    let mut frames: Vec<Frame> = Vec::new();
    for frame_record in iter: records.into_iter()
        invariant
            iter.seq() == records@,
            record.deep_view().1 == records.deep_view(),
            frames@.len() == iter.index(),
            forall|j: int|
                #![trigger records@[j]]
                0 <= j < iter.index() ==> frame_in_range(records@[j].deep_view())
                    && frames@[j]@ == frame_of(records@[j].deep_view()),
    {
        match frame_from_record(frame_record) {
            Some(frame) => {
                frames.push(frame);
            },
            None => {
                assert(!frame_in_range(record.deep_view().1[iter.index()]));
                return None;
            },
        }
    }
    let thread = ThreadProfiler::new(name, frames);
    proof {
        assert(thread@.frames =~= thread_of(record.deep_view()).frames);
        assert forall|j: int| 0 <= j < record.deep_view().1.len() implies frame_in_range(
            #[trigger] record.deep_view().1[j],
        ) by {
            assert(frame_in_range(records@[j].deep_view()));
        }
    }
    Some(thread)
}

/// `records` hold an entry for thread `thread_id`.
pub open spec fn names_thread(records: TraceRecordView, thread_id: u64) -> bool {
    exists|i: int| 0 <= i < records.len() && (#[trigger] records[i]).0 == thread_id
}

proof fn lemma_registry_of(records: TraceRecordView, registry: RegistryView)
    requires
        forall|i: int|
            0 <= i < records.len() ==> registry.contains_key((#[trigger] records[i]).0)
                && thread_of(records[i].1) == registry[records[i].0],
    ensures
        forall|k: u64| #[trigger]
            registry_of(records).contains_key(k) <==> names_thread(records, k),
        forall|k: u64| #[trigger]
            registry_of(records).contains_key(k) ==> registry_of(records)[k] == registry[k],
    decreases records.len(),
{
    if records.len() > 0 {
        let rest = records.drop_last();
        let last = records.last();
        assert forall|i: int| 0 <= i < rest.len() implies registry.contains_key(
            (#[trigger] rest[i]).0,
        ) && thread_of(rest[i].1) == registry[rest[i].0] by {
            assert(rest[i] == records[i]);
        }
        lemma_registry_of(rest, registry);
        assert(registry_of(records) == registry_of(rest).insert(last.0, thread_of(last.1)));
        assert(records[records.len() - 1] == last);
        assert forall|k: u64| #[trigger]
            registry_of(records).contains_key(k) <==> names_thread(records, k) by {
            if registry_of(records).contains_key(k) && k != last.0 {
                assert(registry_of(rest).contains_key(k));
                let i = choose|i: int| 0 <= i < rest.len() && (#[trigger] rest[i]).0 == k;
                assert(records[i] == rest[i]);
            }
            if names_thread(records, k) && k != last.0 {
                let i = choose|i: int| 0 <= i < records.len() && (#[trigger] records[i]).0 == k;
                assert(rest[i] == records[i]);
                assert(names_thread(rest, k));
            }
        }
    }
}

/// What a scope holds is what a [`ScopeResult`] can hold: spans within the longest there
/// is, and a depth within the machine's range.
pub open spec fn scope_valid(scope: ScopeResultView) -> bool {
    scope.start <= MAX_NANOS && scope.duration <= MAX_NANOS && scope.depth <= usize::MAX
}

/// What a frame holds is what a [`Frame`] can hold.
pub open spec fn frame_valid(frame: FrameView) -> bool {
    &&& frame.start <= MAX_NANOS
    &&& frame.duration <= MAX_NANOS
    &&& forall|i: int|
        0 <= i < frame.scope_results.len() ==> scope_valid(#[trigger] frame.scope_results[i])
}

/// What a thread's entry holds is what a [`ThreadProfiler`] can hold.
pub open spec fn thread_valid(thread: ThreadProfilerView) -> bool {
    forall|i: int| 0 <= i < thread.frames.len() ==> frame_valid(#[trigger] thread.frames[i])
}

/// What a registry holds is what a [`GlobalProfiler`] can hold.
pub open spec fn registry_valid(registry: RegistryView) -> bool {
    &&& registry.dom().finite()
    &&& forall|thread_id: u64| #[trigger]
        registry.contains_key(thread_id) ==> thread_valid(registry[thread_id])
}

proof fn lemma_span_reads_back(nanos: nat)
    requires
        nanos <= MAX_NANOS,
    ensures
        span_in_range(span_record(nanos)),
        span_nanos(span_record(nanos)) == nanos,
{
}

proof fn lemma_frame_reads_back(frame: FrameView)
    requires
        frame_valid(frame),
    ensures
        frame_in_range(frame_record(frame)),
        frame_of(frame_record(frame)) == frame,
{
    lemma_span_reads_back(frame.start);
    lemma_span_reads_back(frame.duration);
    let record = frame_record(frame);
    assert forall|i: int| 0 <= i < record.2.len() implies scope_in_range(#[trigger] record.2[i])
        && scope_of(record.2[i]) == frame.scope_results[i] by {
        let scope = frame.scope_results[i];
        assert(scope_valid(scope));
        lemma_span_reads_back(scope.start);
        lemma_span_reads_back(scope.duration);
    }
    assert(frame_of(record).scope_results =~= frame.scope_results);
}

proof fn lemma_thread_reads_back(thread: ThreadProfilerView)
    requires
        thread_valid(thread),
    ensures
        thread_in_range(thread_record(thread)),
        thread_of(thread_record(thread)) == thread,
{
    let record = thread_record(thread);
    assert forall|i: int| 0 <= i < record.1.len() implies frame_in_range(#[trigger] record.1[i])
        && frame_of(record.1[i]) == thread.frames[i] by {
        assert(frame_valid(thread.frames[i]));
        lemma_frame_reads_back(thread.frames[i]);
    }
    assert(thread_of(record).frames =~= thread.frames);
}

/// Laying a trace out as records loses nothing. Take any trace that a registry can hold and
/// any records that list it. Then every span in the records is in range, and the trace that
/// the records describe is that very trace, field for field.
pub proof fn lemma_records_read_back(registry: RegistryView, records: TraceRecordView)
    requires
        registry_valid(registry),
        lists(records, registry),
    ensures
        trace_of(records) == Some(registry),
{
    assert forall|i: int| 0 <= i < records.len() implies thread_in_range(
        (#[trigger] records[i]).1,
    ) && thread_of(records[i].1) == registry[records[i].0] by {
        assert(registry.contains_key(records[i].0));
        lemma_thread_reads_back(registry[records[i].0]);
    }
    lemma_registry_of(records, registry);
    let listed = records.map_values(|entry: (u64, ThreadRecordView)| entry.0);
    assert forall|i: int, j: int| 0 <= i < j < listed.len() implies listed[i] != listed[j] by {
        assert(records[i].0 != records[j].0);
    }
    listed.unique_seq_to_set();
    assert forall|thread_id: u64| listed.to_set().contains(thread_id) implies registry.dom().contains(
        thread_id,
    ) by {
        let i = choose|i: int| 0 <= i < listed.len() && listed[i] == thread_id;
        assert(registry.contains_key(records[i].0));
    }
    vstd::set_lib::lemma_len_subset(listed.to_set(), registry.dom());
    vstd::set_lib::lemma_subset_equality(listed.to_set(), registry.dom());
    assert forall|thread_id: u64| registry.contains_key(thread_id) implies registry_of(
        records,
    ).contains_key(thread_id) by {
        assert(listed.to_set().contains(thread_id));
        let i = choose|i: int| 0 <= i < listed.len() && listed[i] == thread_id;
        assert(records[i].0 == thread_id);
        assert(names_thread(records, thread_id));
    }
    assert(registry_of(records) =~= registry);
}

impl GlobalProfiler {
    /// Lays the trace out as records: one entry for each thread, in no particular order.
    pub fn to_records(&self) -> (records: TraceRecord)
        ensures
            lists(records.deep_view(), self@),
            trace_of(records.deep_view()) == Some(self@),
    {
        let mut records: TraceRecord = Vec::new();
        let ghost entries = spec_hash_map_iter(&self.thread_profilers).remaining();
        for entry in iter: self.thread_profilers.iter()
            invariant
                iter.seq() == entries,
                entries == spec_hash_map_iter(&self.thread_profilers).remaining(),
                entries.no_duplicates(),
                records@.len() == iter.index(),
                forall|i: int|
                    0 <= i < records@.len() ==> {
                        let record = (#[trigger] records@[i]).deep_view();
                        &&& record.0 == *entries[i].0
                        &&& record.1 == thread_record((*entries[i].1)@)
                        &&& thread_in_range(record.1)
                        &&& thread_of(record.1) == (*entries[i].1)@
                    },
        {
            let (thread_id, thread) = entry;
            records.push((*thread_id, thread_to_record(thread)));
        }
        proof {
            let view = records.deep_view();
            let threads = self.thread_profilers@;
            assert(self@.dom() =~= threads.dom());
            assert forall|i: int| 0 <= i < view.len() implies threads.contains_key(
                #[trigger] view[i].0,
            ) && view[i].1 == thread_record(self@[view[i].0]) && thread_of(view[i].1)
                == self@[view[i].0] by {
                assert(view[i] == records@[i].deep_view());
                assert(threads.contains_key(*entries[i].0));
            }
            assert forall|i: int, j: int| 0 <= i < j < view.len() implies (#[trigger] view[i]).0
                != (#[trigger] view[j]).0 by {
                assert(view[i] == records@[i].deep_view());
                assert(view[j] == records@[j].deep_view());
                assert(threads.contains_key(*entries[i].0));
                assert(threads.contains_key(*entries[j].0));
                if view[i].0 == view[j].0 {
                    assert(entries[i] == entries[j]);
                }
            }
            assert forall|i: int| 0 <= i < view.len() implies thread_in_range(
                (#[trigger] view[i]).1,
            ) by {
                assert(view[i] == records@[i].deep_view());
            }
            lemma_registry_of(view, self@);
            assert forall|k: u64| self@.contains_key(k) implies registry_of(view).contains_key(
                k,
            ) by {
                assert(entries.contains((&k, &threads[k])));
                let i = choose|i: int| 0 <= i < entries.len() && entries[i] == (&k, &threads[k]);
                assert(view[i] == records@[i].deep_view());
                assert(view[i].0 == k);
                assert(names_thread(view, k));
            }
            assert(registry_of(view) =~= self@);
        }
        records
    }

    /// The trace that `records` describe: each entry under its thread, and where a thread
    /// has several entries, the last of them. There is none where a span of time in the
    /// records is longer than a [`Duration`] can hold.
    pub fn from_records(records: TraceRecord) -> (trace: Result<GlobalProfiler, TraceError>)
        ensures
            match trace {
                Ok(registry) => trace_of(records.deep_view()) == Some(registry@),
                Err(e) => trace_of(records.deep_view()) is None && e
                    == TraceError::DurationOverflow,
            },
    {
        let mut thread_profilers: HashMap<u64, ThreadProfiler> = HashMap::new();
        let ghost view = records.deep_view();
        for entry in iter: records.into_iter()
            invariant
                iter.seq() == records@,
                view == records.deep_view(),
                forall|j: int| 0 <= j < iter.index() ==> thread_in_range((#[trigger] view[j]).1),
                thread_profilers@.map_values(|t: ThreadProfiler| t@) == registry_of(
                    view.take(iter.index()),
                ),
        {
            let (thread_id, thread_record) = entry;
            match thread_from_record(thread_record) {
                Some(thread) => {
                    let ghost before = thread_profilers@;
                    thread_profilers.insert(thread_id, thread);
                    proof {
                        let n = iter.index();
                        assert(view.take(n + 1).drop_last() == view.take(n));
                        assert(view[n] == records@[n].deep_view());
                        assert(thread_profilers@.map_values(|t: ThreadProfiler| t@)
                            =~= before.map_values(|t: ThreadProfiler| t@).insert(
                            thread_id,
                            thread@,
                        ));
                    }
                },
                None => {
                    proof {
                        let n = iter.index();
                        assert(view[n] == records@[n].deep_view());
                        assert(!thread_in_range(view[n].1));
                    }
                    return Err(TraceError::DurationOverflow);
                },
            }
        }
        assert(view.take(view.len() as int) == view);
        Ok(GlobalProfiler { thread_profilers })
    }

    /// The trace in binary form, which there always is. Read back by
    /// [`GlobalProfiler::from_binary`], the bytes give this very trace.
    pub fn to_binary(&mut self) -> (encoded: Result<Vec<u8>, TraceError>)
        ensures
            *final(self) == *old(self),
            encoded is Ok,
            encoded matches Ok(bytes) ==> decoded_trace(bytes@) == Some(old(self)@) && exists|
                records: TraceRecordView,
            |
                lists(records, old(self)@) && bytes@ == bincode_encoding(records),
    {
        let records = self.to_records();
        match encode_records(&records) {
            Ok(bytes) => Ok(bytes),
            Err(e) => Err(TraceError::Encode(error_message(&e))),
        }
    }

    /// Loads a trace from what reading a file has given: the file's bytes, or the reader's
    /// account of why there are none. A file that could not be read is one error, bytes that
    /// hold no trace are another, and after either the registry stays as it was.
    pub fn load_from_read(&mut self, read: Result<Vec<u8>, String>) -> (done: Result<
        (),
        LoadError,
    >)
        ensures
            match read {
                Err(account) => *final(self) == *old(self) && done == Err::<(), LoadError>(
                    LoadError::Io(account),
                ),
                Ok(bytes) => match decoded_trace(bytes@) {
                    Some(trace) => done is Ok && final(self)@ == trace,
                    None => done matches Err(LoadError::Format(e)) && *final(self) == *old(self)
                        && match bincode_decoding(bytes@) {
                        Some(_) => e == TraceError::DurationOverflow,
                        None => e is Malformed,
                    },
                },
            },
    {
        match read {
            Err(account) => Err(LoadError::Io(account)),
            Ok(bytes) => match self.from_binary(bytes.as_slice()) {
                Ok(()) => Ok(()),
                Err(e) => Err(LoadError::Format(e)),
            },
        }
    }

    /// Loads the trace that `bytes` hold, in place of what the registry held. Where they
    /// hold none, the registry stays as it was.
    pub fn from_binary(&mut self, bytes: &[u8]) -> (done: Result<(), TraceError>)
        ensures
            match decoded_trace(bytes@) {
                Some(trace) => done is Ok && final(self)@ == trace,
                None => done is Err && *final(self) == *old(self),
            },
            done matches Err(e) ==> match bincode_decoding(bytes@) {
                Some(_) => e == TraceError::DurationOverflow,
                None => e is Malformed,
            },
    {
        let records = match decode_records(bytes) {
            Ok(records) => records,
            Err(e) => {
                return Err(TraceError::Malformed(error_message(&e)));
            },
        };
        match GlobalProfiler::from_records(records) {
            Ok(loaded) => {
                self.thread_profilers = loaded.thread_profilers;
                Ok(())
            },
            Err(e) => Err(e),
        }
    }
}

} // verus!
