use profiler::function_name;

#[test]
fn normal_function_name() {
    assert_eq!(
        function_name("function_name::normal_function_name::f").unwrap(),
        "function_name::normal_function_name"
    );
}

#[test]
fn function_in_mod() {
    assert_eq!(
        function_name("function_name::a_mod::function_in_mod::f").unwrap(),
        "function_name::a_mod::function_in_mod"
    );

    // should remove closures
    assert_eq!(
        function_name("function_name::a_mod::function_in_mod::{{closure}}::f").unwrap(),
        "function_name::a_mod::function_in_mod"
    );
}

#[test]
fn every_closure_segment_is_removed() {
    assert_eq!(
        function_name("a::{{closure}}::b::{{closure}}::{{closure}}::f").unwrap(),
        "a::b"
    );
    assert_eq!(function_name("::{{closure}}::f").unwrap(), "");
    assert_eq!(function_name("::f").unwrap(), "");
}

#[test]
fn closure_segments_are_found_from_the_left() {
    assert_eq!(function_name("::{{closure::{{closure}}}}::f").unwrap(), "::{{closure}}");
    assert_eq!(function_name("a::{{closure}::f").unwrap(), "a::{{closure}");
}

#[test]
fn names_beyond_ascii_are_kept() {
    assert_eq!(function_name("käse::größe::{{closure}}::f").unwrap(), "käse::größe");
}

#[test]
fn a_name_without_the_marker_has_no_function() {
    assert_eq!(function_name("function_name::normal_function_name"), None);
    assert_eq!(function_name(""), None);
    assert_eq!(function_name(":f"), None);
    assert_eq!(function_name("a::f::{{closure}}"), None);
}
