//! Export of a trace as a flame-trace document: JSON that trace viewers read, with one
//! complete event for each scope.

use crate::frame::{frame_views, Frame, FrameView};
use crate::profiler::Profiler;
use crate::registry::{GlobalProfiler, RegistryView};
use crate::scope::{ScopeResult, ScopeResultView};
use crate::text::chars_of;
use crate::time::NANOS_PER_MICRO;
use vstd::prelude::*;
use vstd::std_specs::hash::spec_hash_map_iter;
use vstd::std_specs::iter::IteratorSpec;
use vstd::string::{StrSliceExecFns, StringExecFns};

verus! {

broadcast use vstd::std_specs::hash::group_hash_axioms;

/// The character that stands for a single decimal digit.
pub open spec fn digit_char(digit: nat) -> char {
    if digit == 0 {
        '0'
    } else if digit == 1 {
        '1'
    } else if digit == 2 {
        '2'
    } else if digit == 3 {
        '3'
    } else if digit == 4 {
        '4'
    } else if digit == 5 {
        '5'
    } else if digit == 6 {
        '6'
    } else if digit == 7 {
        '7'
    } else if digit == 8 {
        '8'
    } else {
        '9'
    }
}

/// A number written in decimal: most significant digit first, no leading zero but for zero
/// itself.
pub open spec fn decimal(n: nat) -> Seq<char>
    decreases n,
{
    if n < 10 {
        seq![digit_char(n)]
    } else {
        decimal(n / 10).push(digit_char(n % 10))
    }
}

/// The character that stands for a single hexadecimal digit.
pub open spec fn hex_char(digit: nat) -> char {
    if digit < 10 {
        digit_char(digit)
    } else if digit == 10 {
        'a'
    } else if digit == 11 {
        'b'
    } else if digit == 12 {
        'c'
    } else if digit == 13 {
        'd'
    } else if digit == 14 {
        'e'
    } else {
        'f'
    }
}

/// Whether a character stands for itself inside a JSON string: every character does, but
/// for the quote, the backslash and the control characters below U+0020.
pub open spec fn json_plain(c: char) -> bool {
    c != '"' && c != '\\' && c as u32 >= 0x20
}

/// How one character is written inside a JSON string: a quote and a backslash behind a
/// backslash, a line feed, a carriage return and a tab in their short forms, any other
/// control character by its number in four hexadecimal digits, and every other character
/// as it is.
pub open spec fn json_char(c: char) -> Seq<char> {
    if c == '"' {
        seq!['\\', '"']
    } else if c == '\\' {
        seq!['\\', '\\']
    } else if c == '\n' {
        seq!['\\', 'n']
    } else if c == '\r' {
        seq!['\\', 'r']
    } else if c == '\t' {
        seq!['\\', 't']
    } else if (c as u32) < 0x20 {
        seq![
            '\\',
            'u',
            '0',
            '0',
            hex_char((c as u32 / 16) as nat),
            hex_char((c as u32 % 16) as nat),
        ]
    } else {
        seq![c]
    }
}

/// How a text is written inside a JSON string, between the quotes: character by character.
pub open spec fn json_escaped(text: Seq<char>) -> Seq<char>
    decreases text.len(),
{
    if text.len() == 0 {
        Seq::empty()
    } else {
        json_escaped(text.drop_last()) + json_char(text.last())
    }
}

/// The number that a hexadecimal digit stands for, where the character is one.
pub open spec fn hex_value(c: char) -> Option<nat> {
    if '0' <= c <= '9' {
        Some((c as u32 - '0' as u32) as nat)
    } else if 'a' <= c <= 'f' {
        Some((c as u32 - 'a' as u32 + 10) as nat)
    } else if 'A' <= c <= 'F' {
        Some((c as u32 - 'A' as u32 + 10) as nat)
    } else {
        None
    }
}

/// The character that an escape behind a backslash stands for, and how many characters
/// the escape takes, the backslash among them. `text` begins with the backslash. There is
/// none where what follows the backslash is no escape that JSON knows.
pub open spec fn json_escape_read(text: Seq<char>) -> Option<(char, int)> {
    if text.len() < 2 {
        None
    } else if text[1] == '"' || text[1] == '\\' || text[1] == '/' {
        Some((text[1], 2))
    } else if text[1] == 'n' {
        Some(('\n', 2))
    } else if text[1] == 'r' {
        Some(('\r', 2))
    } else if text[1] == 't' {
        Some(('\t', 2))
    } else if text[1] == 'b' {
        Some(('\u{8}', 2))
    } else if text[1] == 'f' {
        Some(('\u{c}', 2))
    } else if text[1] == 'u' && text.len() >= 6 {
        match (hex_value(text[2]), hex_value(text[3]), hex_value(text[4]), hex_value(text[5])) {
            (Some(a), Some(b), Some(c), Some(d)) => {
                let code = a * 4096 + b * 256 + c * 16 + d;
                if 0xD800 <= code <= 0xDFFF {
                    None
                } else {
                    Some((code as char, 6))
                }
            },
            _ => None,
        }
    } else {
        None
    }
}

/// The text that stands between the quotes of a JSON string, read back: the characters
/// that it stands for. There is none where a quote or a control character stands bare in
/// it, or a backslash is followed by no escape.
pub open spec fn json_unescaped(text: Seq<char>) -> Option<Seq<char>>
    decreases text.len(),
{
    if text.len() == 0 {
        Some(Seq::empty())
    } else if text[0] == '"' || (text[0] as u32) < 0x20 {
        None
    } else if text[0] == '\\' {
        match json_escape_read(text) {
            Some((c, taken)) => match json_unescaped(text.skip(taken)) {
                Some(rest) => Some(seq![c] + rest),
                None => None,
            },
            None => None,
        }
    } else {
        match json_unescaped(text.skip(1)) {
            Some(rest) => Some(seq![text[0]] + rest),
            None => None,
        }
    }
}

proof fn lemma_json_escaped_from_the_front(text: Seq<char>)
    requires
        text.len() > 0,
    ensures
        json_escaped(text) == json_char(text[0]) + json_escaped(text.skip(1)),
    decreases text.len(),
{
    if text.len() == 1 {
        assert(text.drop_last() =~= Seq::empty());
        assert(text.skip(1) =~= Seq::empty());
        assert(json_escaped(text.drop_last()) + json_char(text.last()) =~= json_char(text[0])
            + json_escaped(text.skip(1)));
    } else {
        lemma_json_escaped_from_the_front(text.drop_last());
        assert(text.drop_last().skip(1) == text.skip(1).drop_last());
        assert(text.skip(1).last() == text.last());
        assert((json_char(text[0]) + json_escaped(text.skip(1).drop_last())) + json_char(
            text.last(),
        ) =~= json_char(text[0]) + (json_escaped(text.skip(1).drop_last()) + json_char(
            text.last(),
        )));
    }
}

proof fn lemma_json_char_reads_back(c: char, rest: Seq<char>)
    ensures
        json_unescaped(json_char(c) + rest) == match json_unescaped(rest) {
            Some(read) => Some(seq![c] + read),
            None => None,
        },
{
    let text = json_char(c) + rest;
    if c == '"' || c == '\\' || c == '\n' || c == '\r' || c == '\t' {
        assert(text.skip(2) =~= rest);
    } else if (c as u32) < 0x20 {
        let high = (c as u32 / 16) as nat;
        let low = (c as u32 % 16) as nat;
        assert(hex_value(hex_char(high)) == Some(high));
        assert(hex_value(hex_char(low)) == Some(low));
        assert(text.skip(6) =~= rest);
        assert(text[2] == '0' && text[3] == '0');
        assert(hex_value('0') == Some(0nat));
        assert((high * 16 + low) as char == c);
    } else {
        assert(text.skip(1) =~= rest);
    }
}

/// A name written as a JSON string reads back as the name. Whatever characters `name`
/// holds, the text that stands for it between the quotes has no bare quote and no bare
/// control character in it, every backslash in it begins an escape that JSON knows, and
/// read back it gives `name`, character for character.
pub proof fn lemma_json_escaped_reads_back(name: Seq<char>)
    ensures
        json_unescaped(json_escaped(name)) == Some(name),
    decreases name.len(),
{
    if name.len() > 0 {
        lemma_json_escaped_from_the_front(name);
        lemma_json_escaped_reads_back(name.skip(1));
        lemma_json_char_reads_back(name[0], json_escaped(name.skip(1)));
        assert(seq![name[0]] + name.skip(1) =~= name);
    }
}

/// The event that stands for one scope on thread `tid`: a complete event, with its name as
/// a JSON string and its start and its duration in whole microseconds.
pub open spec fn event_json(scope: ScopeResultView, tid: u64) -> Seq<char> {
    "{\"cat\":\"function\",\"dur\":"@ + decimal(scope.duration / NANOS_PER_MICRO as nat)
        + ",\"name\":\""@ + json_escaped(scope.name) + "\",\"ph\":\"X\",\"pid\":0,\"tid\":"@ + decimal(
        tid as nat,
    ) + ",\"ts\":"@ + decimal(scope.start / NANOS_PER_MICRO as nat) + "}"@
}

/// The events of the scopes of one frame, in the order in which the scopes closed.
pub open spec fn scope_events(scopes: Seq<ScopeResultView>, tid: u64) -> Seq<Seq<char>> {
    scopes.map_values(|scope: ScopeResultView| event_json(scope, tid))
}

/// The events of a run of frames: frame by frame, and within a frame scope by scope.
pub open spec fn frame_events(frames: Seq<FrameView>, tid: u64) -> Seq<Seq<char>>
    decreases frames.len(),
{
    if frames.len() == 0 {
        Seq::empty()
    } else {
        frame_events(frames.drop_last(), tid) + scope_events(frames.last().scope_results, tid)
    }
}

/// The events one after the other, with a comma between each two.
pub open spec fn joined(events: Seq<Seq<char>>) -> Seq<char>
    decreases events.len(),
{
    if events.len() == 0 {
        Seq::empty()
    } else if events.len() == 1 {
        events[0]
    } else {
        joined(events.drop_last()) + ","@ + events.last()
    }
}

fn digit_str(digit: u8) -> (text: &'static str)
    requires
        digit < 10,
    ensures
        text@ == seq![digit_char(digit as nat)],
{
    proof {
        reveal_strlit("0");
        reveal_strlit("1");
        reveal_strlit("2");
        reveal_strlit("3");
        reveal_strlit("4");
        reveal_strlit("5");
        reveal_strlit("6");
        reveal_strlit("7");
        reveal_strlit("8");
        reveal_strlit("9");
    }
    let text = match digit {
        0 => "0",
        1 => "1",
        2 => "2",
        3 => "3",
        4 => "4",
        5 => "5",
        6 => "6",
        7 => "7",
        8 => "8",
        _ => "9",
    };
    assert(text@ =~= seq![digit_char(digit as nat)]);
    text
}

/// Writes `n` in decimal at the end of `out`.
pub fn push_decimal(out: &mut String, n: u128)
    ensures
        final(out)@ == old(out)@ + decimal(n as nat),
    decreases n,
{
    if n >= 10 {
        push_decimal(out, n / 10);
    }
    out.append(digit_str((n % 10) as u8));
    assert(out@ =~= old(out)@ + decimal(n as nat));
}

fn hex_digit_str(digit: u8) -> (text: &'static str)
    requires
        digit < 16,
    ensures
        text@ == seq![hex_char(digit as nat)],
{
    if digit < 10 {
        return digit_str(digit);
    }
    proof {
        reveal_strlit("a");
        reveal_strlit("b");
        reveal_strlit("c");
        reveal_strlit("d");
        reveal_strlit("e");
        reveal_strlit("f");
    }
    let text = match digit {
        10 => "a",
        11 => "b",
        12 => "c",
        13 => "d",
        14 => "e",
        _ => "f",
    };
    assert(text@ =~= seq![hex_char(digit as nat)]);
    text
}

/// Writes `c`, a character that does not stand for itself inside a JSON string, at the end
/// of `out` in the form that stands for it.
fn push_json_escape(out: &mut String, c: char)
    requires
        !json_plain(c),
    ensures
        final(out)@ == old(out)@ + json_char(c),
{
    proof {
        reveal_strlit("\\\"");
        reveal_strlit("\\\\");
        reveal_strlit("\\n");
        reveal_strlit("\\r");
        reveal_strlit("\\t");
        reveal_strlit("\\u00");
    }
    if c == '"' {
        out.append("\\\"");
    } else if c == '\\' {
        out.append("\\\\");
    } else if c == '\n' {
        out.append("\\n");
    } else if c == '\r' {
        out.append("\\r");
    } else if c == '\t' {
        out.append("\\t");
    } else {
        let code = c as u32;
        out.append("\\u00");
        out.append(hex_digit_str((code / 16) as u8));
        out.append(hex_digit_str((code % 16) as u8));
    }
    assert(out@ =~= old(out)@ + json_char(c));
}

/// Writes `text` at the end of `out` as it stands inside a JSON string, between the quotes.
pub fn push_json_escaped(out: &mut String, text: &str)
    ensures
        final(out)@ == old(out)@ + json_escaped(text@),
{
    let chars = chars_of(text);
    let mut kept_from: usize = 0;
    let mut at: usize = 0;
    proof {
        assert(text@.take(0) =~= Seq::empty());
        assert(out@ + text@.subrange(0, 0) =~= old(out)@ + json_escaped(text@.take(0)));
    }
    while at < chars.len()
        invariant
            chars@ == text@,
            kept_from <= at <= chars.len(),
            out@ + text@.subrange(kept_from as int, at as int) == old(out)@ + json_escaped(
                text@.take(at as int),
            ),
        decreases chars.len() - at,
    {
        let c = chars[at];
        proof {
            assert(text@.take(at + 1).drop_last() == text@.take(at as int));
            assert(text@.take(at + 1).last() == c);
        }
        if c == '"' || c == '\\' || (c as u32) < 0x20 {
            let ghost before = out@;
            out.append(text.substring_char(kept_from, at));
            push_json_escape(out, c);
            proof {
                assert(out@ + text@.subrange(at + 1, at + 1) =~= (before + text@.subrange(
                    kept_from as int,
                    at as int,
                )) + json_char(c));
                assert(old(out)@ + json_escaped(text@.take(at + 1)) =~= (old(out)@ + json_escaped(
                    text@.take(at as int),
                )) + json_char(c));
            }
            kept_from = at + 1;
        } else {
            proof {
                assert(json_char(c) == seq![c]);
                assert(out@ + text@.subrange(kept_from as int, at + 1) =~= (out@ + text@.subrange(
                    kept_from as int,
                    at as int,
                )) + seq![c]);
                assert(old(out)@ + json_escaped(text@.take(at + 1)) =~= (old(out)@ + json_escaped(
                    text@.take(at as int),
                )) + seq![c]);
            }
        }
        at += 1;
    }
    let ghost before = out@;
    out.append(text.substring_char(kept_from, at));
    assert(text@.take(at as int) == text@);
    assert(out@ == before + text@.subrange(kept_from as int, at as int));
}

/// Writes the event of `scope` on thread `tid` at the end of `out`.
pub fn push_event(out: &mut String, scope: &ScopeResult, tid: u64)
    ensures
        final(out)@ == old(out)@ + event_json(scope@, tid),
{
    out.append("{\"cat\":\"function\",\"dur\":");
    push_decimal(out, scope.duration.as_micros());
    out.append(",\"name\":\"");
    push_json_escaped(out, scope.name.as_str());
    out.append("\",\"ph\":\"X\",\"pid\":0,\"tid\":");
    push_decimal(out, tid as u128);
    out.append(",\"ts\":");
    push_decimal(out, scope.start.as_micros());
    out.append("}");
    assert(out@ =~= old(out)@ + event_json(scope@, tid));
}

/// How a document begins, up to its first event.
pub open spec fn document_open() -> Seq<char> {
    "{\"otherData\":{},\"traceEvents\":["@
}

/// The document that holds `events`.
pub open spec fn trace_document(events: Seq<Seq<char>>) -> Seq<char> {
    document_open() + joined(events) + "]}"@
}

/// The events of the threads `threads` of `registry`, thread by thread, each under its
/// identity.
pub open spec fn thread_events(registry: RegistryView, threads: Seq<u64>) -> Seq<Seq<char>>
    decreases threads.len(),
{
    if threads.len() == 0 {
        Seq::empty()
    } else {
        thread_events(registry, threads.drop_last()) + frame_events(
            registry[threads.last()].frames,
            threads.last(),
        )
    }
}

/// `threads` names each thread of `registry` once.
pub open spec fn lists_threads(threads: Seq<u64>, registry: RegistryView) -> bool {
    &&& threads.no_duplicates()
    &&& forall|thread_id: u64| registry.contains_key(thread_id) <==> threads.contains(thread_id)
}

proof fn lemma_joined_push(events: Seq<Seq<char>>, event: Seq<char>)
    ensures
        joined(events.push(event)) == if events.len() == 0 {
            event
        } else {
            joined(events) + ","@ + event
        },
{
    assert(events.push(event).drop_last() == events);
}

/// Writes the events of `frames` on thread `tid` at the end of `out`, which holds `base`
/// and behind it the events `written` so far, and says whether there is still no event.
fn push_frame_events(
    out: &mut String,
    Ghost(base): Ghost<Seq<char>>,
    Ghost(written): Ghost<Seq<Seq<char>>>,
    empty: bool,
    frames: &Vec<Frame>,
    tid: u64,
) -> (still_empty: bool)
    requires
        old(out)@ == base + joined(written),
        empty == (written.len() == 0),
    ensures
        final(out)@ == base + joined(written + frame_events(frame_views(frames@), tid)),
        still_empty == ((written + frame_events(frame_views(frames@), tid)).len() == 0),
{
    let mut empty = empty;
    let ghost mut events = written;
    let mut i: usize = 0;
    while i < frames.len()
        invariant
            i <= frames.len(),
            out@ == base + joined(events),
            events == written + frame_events(frame_views(frames@.take(i as int)), tid),
            empty == (events.len() == 0),
        decreases frames.len() - i,
    {
        let frame = &frames[i];
        let ghost before = events;
        let mut j: usize = 0;
        while j < frame.scope_results.len()
            invariant
                j <= frame.scope_results.len(),
                out@ == base + joined(events),
                events == before + scope_events(frame@.scope_results.take(j as int), tid),
                empty == (events.len() == 0),
            decreases frame.scope_results.len() - j,
        {
            let ghost event = event_json(frame.scope_results@[j as int]@, tid);
            proof {
                lemma_joined_push(events, event);
            }
            if !empty {
                out.append(",");
            }
            push_event(out, &frame.scope_results[j], tid);
            proof {
                assert(out@ =~= base + joined(events.push(event)));
                assert(frame@.scope_results.take(j + 1) == frame@.scope_results.take(
                    j as int,
                ).push(frame.scope_results@[j as int]@));
                assert(events.push(event) =~= before + scope_events(
                    frame@.scope_results.take(j + 1),
                    tid,
                ));
                events = events.push(event);
            }
            empty = false;
            j += 1;
        }
        proof {
            let views = frame_views(frames@.take(i + 1));
            assert(frame@.scope_results.take(j as int) == frame@.scope_results);
            assert(views.drop_last() =~= frame_views(frames@.take(i as int)));
            assert(views.last() == frame@);
            assert(events =~= written + frame_events(views, tid));
        }
        i += 1;
    }
    assert(frames@.take(i as int) == frames@);
    empty
}

impl Profiler {
    /// Writes the events of the frames that this profiler has closed and kept at the end of
    /// `out`: one for each of their scopes, frame by frame and scope by scope, all on
    /// thread 0, with a comma between each two.
    pub fn write_chrome_tracing_profile_results(&self, out: &mut String)
        ensures
            final(out)@ == old(out)@ + joined(frame_events(self@.frames, 0)),
    {
        assert(out@ =~= out@ + joined(Seq::empty()));
        push_frame_events(out, Ghost(out@), Ghost(Seq::empty()), true, self.frames(), 0);
        assert(Seq::<Seq<char>>::empty() + frame_events(self@.frames, 0) =~= frame_events(
            self@.frames,
            0,
        ));
    }

    /// Writes the flame-trace document of the frames that this profiler has closed and kept
    /// at the end of `out`.
    pub fn write_chrome_tracing_json(&self, out: &mut String)
        ensures
            final(out)@ == old(out)@ + trace_document(frame_events(self@.frames, 0)),
    {
        out.append("{\"otherData\":{},\"traceEvents\":[");
        self.write_chrome_tracing_profile_results(out);
        out.append("]}");
        assert(out@ =~= old(out)@ + trace_document(frame_events(self@.frames, 0)));
    }
}

impl GlobalProfiler {
    /// Writes the flame-trace document of the whole registry at the end of `out`: the events
    /// of one thread after those of another, in no particular order of the threads, each
    /// event under the identity of its thread.
    pub fn write_chrome_tracing_json(&self, out: &mut String)
        ensures
            exists|threads: Seq<u64>|
                lists_threads(threads, self@) && final(out)@ == old(out)@ + trace_document(
                    #[trigger] thread_events(self@, threads),
                ),
    {
        out.append("{\"otherData\":{},\"traceEvents\":[");
        let ghost base = out@;
        let ghost entries = spec_hash_map_iter(&self.thread_profilers).remaining();
        let ghost mut threads: Seq<u64> = Seq::empty();
        let mut empty = true;
        assert(out@ =~= base + joined(Seq::empty()));
        for entry in iter: self.thread_profilers.iter()
            invariant
                iter.seq() == entries,
                entries == spec_hash_map_iter(&self.thread_profilers).remaining(),
                threads.len() == iter.index(),
                forall|i: int| 0 <= i < threads.len() ==> #[trigger] threads[i] == *entries[i].0,
                out@ == base + joined(thread_events(self@, threads)),
                empty == (thread_events(self@, threads).len() == 0),
        {
            let (thread_id, thread) = entry;
            proof {
                assert(self.thread_profilers@.contains_key(*entries[iter.index()].0));
                assert(self@[*thread_id] == thread@);
                assert(threads.push(*thread_id).drop_last() == threads);
            }
            empty =
            push_frame_events(
                out,
                Ghost(base),
                Ghost(thread_events(self@, threads)),
                empty,
                &thread.frames,
                *thread_id,
            );
            proof {
                threads = threads.push(*thread_id);
            }
        }
        out.append("]}");
        proof {
            let registry = self.thread_profilers@;
            assert(self@.dom() =~= registry.dom());
            assert forall|i: int, j: int| 0 <= i < j < threads.len() implies threads[i]
                != threads[j] by {
                assert(registry.contains_key(*entries[i].0));
                assert(registry.contains_key(*entries[j].0));
                if threads[i] == threads[j] {
                    assert(entries[i] == entries[j]);
                }
            }
            assert forall|thread_id: u64| self@.contains_key(thread_id) <==> threads.contains(
                thread_id,
            ) by {
                if self@.contains_key(thread_id) {
                    assert(entries.contains((&thread_id, &registry[thread_id])));
                    let i = choose|i: int|
                        0 <= i < entries.len() && entries[i] == (&thread_id, &registry[thread_id]);
                    assert(threads[i] == thread_id);
                }
                if threads.contains(thread_id) {
                    let i = choose|i: int| 0 <= i < threads.len() && threads[i] == thread_id;
                    assert(registry.contains_key(*entries[i].0));
                }
            }
            assert(out@ =~= old(out)@ + trace_document(thread_events(self@, threads)));
        }
    }
}

} // verus!
