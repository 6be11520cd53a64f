use profiler::chrome_tracing::{push_decimal, push_event, push_json_escaped};
use profiler::{Duration, Frame, GlobalProfiler, Profiler, ScopeResult};
use std::time::Instant;

fn scope(name: &str, start_micros: u64, duration_micros: u64, depth: usize) -> ScopeResult {
    ScopeResult::new(
        name.to_string(),
        Duration::from_micros(start_micros),
        Duration::from_micros(duration_micros),
        depth,
    )
}

fn profiler_with(frames: Vec<Vec<ScopeResult>>) -> Profiler {
    let mut profiler = Profiler::starting_at(Instant::now(), Duration::zero());
    for scopes in frames {
        for _ in 0..scopes.len() {
            profiler.begin_profile_result();
        }
        let mut deepest_first = scopes;
        deepest_first.sort_by(|a, b| b.depth.cmp(&a.depth));
        for s in deepest_first {
            profiler.record_scope(s.name, s.start, s.duration).unwrap();
        }
        profiler.new_frame_at(Duration::from_secs(1)).unwrap();
    }
    profiler
}

#[test]
fn a_single_scope_gives_a_single_event() {
    let profiler = profiler_with(vec![vec![scope("foo", 1500, 2000, 0)]]);
    let mut json = String::new();
    profiler.write_chrome_tracing_json(&mut json);
    assert_eq!(
        json,
        "{\"otherData\":{},\"traceEvents\":[{\"cat\":\"function\",\"dur\":2000,\"name\":\"foo\",\"ph\":\"X\",\"pid\":0,\"tid\":0,\"ts\":1500}]}"
    );
    assert!(json.contains("\"name\":\"foo\""));
    assert!(json.contains("\"ts\":1500"));
    assert!(json.contains("\"dur\":2000"));
    assert!(json.contains("\"ph\":\"X\""));
}

#[test]
fn no_frames_give_an_empty_list_of_events() {
    let profiler = profiler_with(Vec::new());
    let mut json = String::new();
    profiler.write_chrome_tracing_json(&mut json);
    assert_eq!(json, "{\"otherData\":{},\"traceEvents\":[]}");
    let empty_frames = profiler_with(vec![Vec::new(), Vec::new()]);
    let mut json = String::from("kept");
    empty_frames.write_chrome_tracing_json(&mut json);
    assert_eq!(json, "kept{\"otherData\":{},\"traceEvents\":[]}");
}

#[test]
fn events_come_frame_by_frame_and_scope_by_scope() {
    let profiler = profiler_with(vec![
        vec![scope("b", 2, 1, 1), scope("a", 1, 3, 0)],
        Vec::new(),
        vec![scope("c", 10, 0, 0)],
    ]);
    let mut events = String::new();
    profiler.write_chrome_tracing_profile_results(&mut events);
    assert_eq!(
        events,
        "{\"cat\":\"function\",\"dur\":1,\"name\":\"b\",\"ph\":\"X\",\"pid\":0,\"tid\":0,\"ts\":2},\
         {\"cat\":\"function\",\"dur\":3,\"name\":\"a\",\"ph\":\"X\",\"pid\":0,\"tid\":0,\"ts\":1},\
         {\"cat\":\"function\",\"dur\":0,\"name\":\"c\",\"ph\":\"X\",\"pid\":0,\"tid\":0,\"ts\":10}"
    );
    let mut json = String::new();
    profiler.write_chrome_tracing_json(&mut json);
    assert_eq!(json, format!("{{\"otherData\":{{}},\"traceEvents\":[{}]}}", events));
}

#[test]
fn the_frame_in_progress_is_left_out() {
    let mut profiler = profiler_with(vec![vec![scope("done", 1, 1, 0)]]);
    profiler.begin_profile_result();
    profiler
        .record_scope("open".to_string(), Duration::from_micros(5), Duration::from_micros(1))
        .unwrap();
    let mut json = String::new();
    profiler.write_chrome_tracing_json(&mut json);
    assert!(json.contains("\"name\":\"done\""));
    assert!(!json.contains("\"name\":\"open\""));
}

#[test]
fn times_are_whole_microseconds() {
    let mut event = String::new();
    let odd = ScopeResult::new(
        "odd".to_string(),
        Duration::from_nanos(1_999),
        Duration::from_nanos(999),
        0,
    );
    push_event(&mut event, &odd, 18_446_744_073_709_551_615);
    assert_eq!(
        event,
        "{\"cat\":\"function\",\"dur\":0,\"name\":\"odd\",\"ph\":\"X\",\"pid\":0,\"tid\":18446744073709551615,\"ts\":1}"
    );
    let mut event = String::new();
    let long = ScopeResult::new(
        "long".to_string(),
        Duration::from_parts(u64::MAX, 999_999_999).unwrap(),
        Duration::from_secs(3),
        0,
    );
    push_event(&mut event, &long, 7);
    assert_eq!(
        event,
        "{\"cat\":\"function\",\"dur\":3000000,\"name\":\"long\",\"ph\":\"X\",\"pid\":0,\"tid\":7,\"ts\":18446744073709551615999999}"
    );
}

#[test]
fn numbers_in_decimal() {
    for n in [0u128, 7, 9, 10, 11, 99, 100, 1500, 2000, 1_000_000, u64::MAX as u128, u128::MAX] {
        let mut text = String::from("n=");
        push_decimal(&mut text, n);
        assert_eq!(text, format!("n={}", n));
    }
}

#[test]
fn a_registry_gives_each_thread_its_events() {
    let mut registry = GlobalProfiler::new();
    let mut first = Frame::starting_at(Duration::zero());
    first.scope_results.push(scope("a", 1, 2, 0));
    let mut second = Frame::starting_at(Duration::zero());
    second.scope_results.push(scope("b", 3, 4, 0));
    second.scope_results.push(scope("c", 5, 6, 0));
    registry.submit(11, None, first);
    registry.submit(22, None, second);
    registry.submit(33, None, Frame::starting_at(Duration::zero()));
    let mut json = String::new();
    registry.write_chrome_tracing_json(&mut json);
    let of_11 = "{\"cat\":\"function\",\"dur\":2,\"name\":\"a\",\"ph\":\"X\",\"pid\":0,\"tid\":11,\"ts\":1}";
    let of_22 = "{\"cat\":\"function\",\"dur\":4,\"name\":\"b\",\"ph\":\"X\",\"pid\":0,\"tid\":22,\"ts\":3},\
                 {\"cat\":\"function\",\"dur\":6,\"name\":\"c\",\"ph\":\"X\",\"pid\":0,\"tid\":22,\"ts\":5}";
    let one_way = format!("{{\"otherData\":{{}},\"traceEvents\":[{},{}]}}", of_11, of_22);
    let other_way = format!("{{\"otherData\":{{}},\"traceEvents\":[{},{}]}}", of_22, of_11);
    assert!(json == one_way || json == other_way);
    let mut empty = String::new();
    GlobalProfiler::new().write_chrome_tracing_json(&mut empty);
    assert_eq!(empty, "{\"otherData\":{},\"traceEvents\":[]}");
}

#[test]
fn a_name_is_written_as_a_json_string() {
    let profiler = profiler_with(vec![vec![scope("a\"b", 1, 2, 0)]]);
    let mut json = String::new();
    profiler.write_chrome_tracing_json(&mut json);
    assert_eq!(
        json,
        "{\"otherData\":{},\"traceEvents\":[{\"cat\":\"function\",\"dur\":2,\"name\":\"a\\\"b\",\"ph\":\"X\",\"pid\":0,\"tid\":0,\"ts\":1}]}"
    );
}

#[test]
fn what_json_cannot_hold_is_escaped() {
    let cases = [
        ("", ""),
        ("plain::path", "plain::path"),
        ("a\"b", "a\\\"b"),
        ("\"", "\\\""),
        ("back\\slash", "back\\\\slash"),
        ("\\\"", "\\\\\\\""),
        ("line\nfeed", "line\\nfeed"),
        ("carriage\rreturn", "carriage\\rreturn"),
        ("a\tb", "a\\tb"),
        ("\u{0}", "\\u0000"),
        ("\u{1}\u{8}\u{c}", "\\u0001\\u0008\\u000c"),
        ("\u{1f}\u{20}\u{7f}", "\\u001f \u{7f}"),
        ("größe::{{closure}}::\u{10ffff}", "größe::{{closure}}::\u{10ffff}"),
        ("\"\"x\\", "\\\"\\\"x\\\\"),
    ];
    for (name, written) in cases {
        let mut text = String::from("<");
        push_json_escaped(&mut text, name);
        assert_eq!(text, format!("<{}", written));
        let mut event = String::new();
        push_event(&mut event, &scope(name, 3, 4, 0), 5);
        assert_eq!(
            event,
            format!(
                "{{\"cat\":\"function\",\"dur\":4,\"name\":\"{}\",\"ph\":\"X\",\"pid\":0,\"tid\":5,\"ts\":3}}",
                written
            )
        );
    }
}

#[test]
fn every_control_character_is_written_by_its_number() {
    for code in 0u32..0x20 {
        let c = char::from_u32(code).unwrap();
        let mut text = String::new();
        push_json_escaped(&mut text, &c.to_string());
        let expected = match c {
            '\n' => "\\n".to_string(),
            '\r' => "\\r".to_string(),
            '\t' => "\\t".to_string(),
            _ => format!("\\u{:04x}", code),
        };
        assert_eq!(text, expected);
    }
}
