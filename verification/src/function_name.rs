//! The name of the function that code runs in, as it is read off the type name of a marker
//! function declared inside it.

use crate::text::chars_of;
use vstd::prelude::*;
use vstd::string::{StrSliceExecFns, StringExecFns};

verus! {

/// What the type name of the marker function ends in.
pub open spec fn marker_suffix() -> Seq<char> {
    "::f"@
}

/// What a closure adds to the path of what is declared inside it.
pub open spec fn closure_segment() -> Seq<char> {
    "::{{closure}}"@
}

/// `text` without the runs of `pattern` in it, found from the left; a run that begins
/// inside one already found does not count.
pub open spec fn without(text: Seq<char>, pattern: Seq<char>) -> Seq<char>
    decreases text.len(),
{
    if text.len() == 0 {
        Seq::empty()
    } else if pattern.len() > 0 && pattern.is_prefix_of(text) {
        without(text.skip(pattern.len() as int), pattern)
    } else {
        seq![text[0]] + without(text.skip(1), pattern)
    }
}

/// The path of the function in which a marker function with the type name
/// `marker_type_name` is declared: the name without its last segment, the marker's own, and
/// without the segments of closures. There is none where the name does not end in the
/// marker's segment.
pub open spec fn enclosing_function(marker_type_name: Seq<char>) -> Option<Seq<char>> {
    if marker_suffix().is_suffix_of(marker_type_name) {
        Some(
            without(
                marker_type_name.take(marker_type_name.len() - marker_suffix().len()),
                closure_segment(),
            ),
        )
    } else {
        None
    }
}

/// Whether `pattern` stands in `text` at `at`.
fn stands_at(text: &Vec<char>, at: usize, pattern: &Vec<char>) -> (found: bool)
    requires
        at <= text@.len(),
    ensures
        found == pattern@.is_prefix_of(text@.skip(at as int)),
{
    if pattern.len() > text.len() - at {
        return false;
    }
    let mut i: usize = 0;
    while i < pattern.len()
        invariant
            i <= pattern.len(),
            at + pattern.len() <= text.len(),
            forall|j: int| 0 <= j < i ==> text@.skip(at as int)[j] == #[trigger] pattern@[j],
        decreases pattern.len() - i,
    {
        if text[at + i] != pattern[i] {
            assert(text@.skip(at as int)[i as int] != pattern@[i as int]);
            return false;
        }
        i += 1;
    }
    assert(pattern@ =~= text@.skip(at as int).subrange(0, pattern@.len() as int));
    true
}

/// `text` without the runs of `pattern` in it.
fn remove_all(text: &str, pattern: &str) -> (cleaned: String)
    ensures
        cleaned@ == without(text@, pattern@),
{
    let chars = chars_of(text);
    let pattern = chars_of(pattern);
    let mut cleaned = String::new();
    if pattern.len() == 0 {
        proof {
            lemma_without_nothing(text@, pattern@);
        }
        cleaned.append(text);
        return cleaned;
    }
    let mut kept_from: usize = 0;
    let mut at: usize = 0;
    proof {
        assert(text@.skip(0) == text@);
        assert(cleaned@ + text@.subrange(0, 0) + without(text@, pattern@) =~= without(
            text@,
            pattern@,
        ));
    }
    while at < chars.len()
        invariant
            chars@ == text@,
            pattern@.len() > 0,
            kept_from <= at <= chars.len(),
            cleaned@ + text@.subrange(kept_from as int, at as int) + without(
                text@.skip(at as int),
                pattern@,
            ) == without(text@, pattern@),
        decreases chars.len() - at,
    {
        let ghost rest = text@.skip(at as int);
        if stands_at(&chars, at, &pattern) {
            let ghost before = cleaned@;
            cleaned.append(text.substring_char(kept_from, at));
            proof {
                assert(rest.skip(pattern@.len() as int) == text@.skip(at + pattern@.len()));
                assert(cleaned@ + text@.subrange(at + pattern@.len(), at + pattern@.len())
                    =~= before + text@.subrange(kept_from as int, at as int));
            }
            at += pattern.len();
            kept_from = at;
        } else {
            proof {
                assert(rest.skip(1) == text@.skip(at + 1));
                assert(text@.subrange(kept_from as int, at + 1) =~= text@.subrange(
                    kept_from as int,
                    at as int,
                ) + seq![rest[0]]);
                assert(cleaned@ + text@.subrange(kept_from as int, at + 1) + without(
                    text@.skip(at + 1),
                    pattern@,
                ) =~= cleaned@ + text@.subrange(kept_from as int, at as int) + (seq![rest[0]]
                    + without(text@.skip(at + 1), pattern@)));
            }
            at += 1;
        }
    }
    let ghost before = cleaned@;
    cleaned.append(text.substring_char(kept_from, at));
    assert(cleaned@ =~= before + text@.subrange(kept_from as int, at as int) + without(
        text@.skip(at as int),
        pattern@,
    ));
    cleaned
}

proof fn lemma_without_nothing(text: Seq<char>, pattern: Seq<char>)
    requires
        pattern.len() == 0,
    ensures
        without(text, pattern) == text,
    decreases text.len(),
{
    if text.len() > 0 {
        lemma_without_nothing(text.skip(1), pattern);
        assert(seq![text[0]] + text.skip(1) =~= text);
    }
}

/// The path of the function in which a marker function with the type name
/// `marker_type_name` is declared.
pub fn function_name(marker_type_name: &str) -> (name: Option<String>)
    ensures
        match name {
            Some(path) => enclosing_function(marker_type_name@) == Some(path@),
            None => enclosing_function(marker_type_name@) is None,
        },
{
    let chars = chars_of(marker_type_name);
    let suffix = chars_of("::f");
    let n = chars.len();
    if n < suffix.len() || !stands_at(&chars, n - suffix.len(), &suffix) {
        proof {
            if marker_suffix().len() <= n {
                assert(marker_type_name@.skip(n - marker_suffix().len()).subrange(
                    0,
                    marker_suffix().len() as int,
                ) =~= marker_type_name@.subrange(n - marker_suffix().len(), n as int));
            }
        }
        return None;
    }
    proof {
        assert(marker_type_name@.skip(n - marker_suffix().len()).subrange(
            0,
            marker_suffix().len() as int,
        ) =~= marker_type_name@.subrange(n - marker_suffix().len(), n as int));
    }
    let stem = marker_type_name.substring_char(0, n - suffix.len());
    Some(remove_all(stem, "::{{closure}}"))
}

} // verus!
