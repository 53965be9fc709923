//! The bridge to the outside JSON value and path-query libraries: declared
//! outside types, named results, and the trusted wrappers over the few
//! outside calls the renderer makes.

use vstd::prelude::*;

use crate::value::JsonValue;
use crate::value::SpecValue;
use crate::value::entries_sorted;
use crate::value::spec_int_text;
use crate::value::spec_value_wf;
use crate::value::view_of;

verus! {

#[verifier::external_type_specification]
#[verifier::external_body]
pub struct ExValue(serde_json::Value);

#[verifier::external_type_specification]
#[verifier::external_body]
pub struct ExJsonPath(jsonpath_plus::JsonPath);

/// The structured value a `serde_json::Value` holds.  A value holding a
/// number that is not a 64-bit signed integer is modeled outside the
/// well-formed region (`spec_value_wf` is false of its model), so a
/// well-formed model says the value holds 64-bit integers throughout.
pub uninterp spec fn json_model(v: serde_json::Value) -> SpecValue;

/// The pattern text a compiled path was compiled from.  Two different
/// texts may compile to structurally identical paths (the AST keeps no
/// spans), so this name is only ever carried from a compile to the finds
/// made with its result; no verified code compares two compiled paths.
pub uninterp spec fn path_pattern(p: jsonpath_plus::JsonPath) -> Seq<char>;

/// Whether a pattern text compiles as a path expression.
pub uninterp spec fn path_compiles(pattern: Seq<char>) -> bool;

/// The sub-values a compiled path finds in a value, in the evaluator's
/// order: a function of the pattern and the value alone.
pub uninterp spec fn path_found(root: SpecValue, pattern: Seq<char>) -> Seq<SpecValue>;

/// The compact serialization of a structured value: a function of the
/// value alone.
pub uninterp spec fn compact_text(v: SpecValue) -> Seq<char>;

/// The models of a sequence of outside values.
pub open spec fn models_of(s: Seq<serde_json::Value>) -> Seq<SpecValue> {
    Seq::new(
        s.len(),
        |i: int|
            if 0 <= i < s.len() {
                json_model(s[i])
            } else {
                SpecValue::Null
            },
    )
}

/// The models of a sequence of keyed outside values.
pub open spec fn entry_models_of(s: Seq<(String, serde_json::Value)>) -> Seq<
    (Seq<char>, SpecValue),
> {
    Seq::new(
        s.len(),
        |i: int|
            if 0 <= i < s.len() {
                (s[i].0@, json_model(s[i].1))
            } else {
                (Seq::<char>::empty(), SpecValue::Null)
            },
    )
}

/// Relies on `serde_json::Value::Null`: the null value.
#[verifier::external_body]
fn mk_null() -> (r: serde_json::Value)
    ensures
        json_model(r) == SpecValue::Null,
{
    serde_json::Value::Null
}

/// Relies on `serde_json::Value::Bool`: holds the given boolean.
#[verifier::external_body]
fn mk_bool(b: bool) -> (r: serde_json::Value)
    ensures
        json_model(r) == SpecValue::Bool(b),
{
    serde_json::Value::Bool(b)
}

/// Relies on `serde_json::Value::Number` and `serde_json::Number::from`:
/// holds the given integer.
#[verifier::external_body]
fn mk_int(i: i64) -> (r: serde_json::Value)
    ensures
        json_model(r) == SpecValue::Int(i as int),
{
    serde_json::Value::Number(serde_json::Number::from(i))
}

/// Relies on `serde_json::Value::String`: holds the given text.
#[verifier::external_body]
fn mk_str(s: &str) -> (r: serde_json::Value)
    ensures
        json_model(r) == SpecValue::Str(s@),
{
    serde_json::Value::String(s.to_string())
}

/// Relies on `serde_json::Value::Array`: holds the given items in order.
#[verifier::external_body]
fn mk_arr(items: Vec<serde_json::Value>) -> (r: serde_json::Value)
    ensures
        json_model(r) == SpecValue::Arr(models_of(items@)),
{
    serde_json::Value::Array(items)
}

/// Relies on `serde_json::Value::Object` and the map's `FromIterator`,
/// which keeps entries given in strictly increasing key order as they are
/// (the map iterates in sorted key order).
#[verifier::external_body]
fn mk_obj(entries: Vec<(String, serde_json::Value)>) -> (r: serde_json::Value)
    requires
        entries_sorted(entry_models_of(entries@)),
    ensures
        json_model(r) == SpecValue::Obj(entry_models_of(entries@)),
{
    serde_json::Value::Object(entries.into_iter().collect())
}

/// A decimal digit.
pub open spec fn screen_digit(c: char) -> bool {
    48 <= (c as u32) && (c as u32) <= 57
}

/// Whitespace that the screen looks through when it checks what precedes
/// a character.
pub open spec fn screen_space(c: char) -> bool {
    c == ' ' || c == '\t' || c == '\n' || c == '\r'
}

/// The screen's walk over the pattern from position `i`, knowing the last
/// non-space character `prev` and the length `run` of the digit run ending
/// just before `i`.  It admits only ASCII, refuses the tilde, remainder
/// and caret operators, digit runs longer than 18, a minus not directly
/// before a digit, and a path anchor (`$` or `@`) directly after `[`.
pub open spec fn spec_screen_from(s: Seq<char>, i: int, prev: char, run: int) -> bool
    decreases s.len() - i,
{
    if i < 0 || i >= s.len() {
        true
    } else {
        let c = s[i];
        if (c as u32) >= 128 || c == '~' || c == '%' || c == '^' {
            false
        } else if screen_digit(c) {
            run + 1 <= 18 && spec_screen_from(s, i + 1, c, run + 1)
        } else if c == '-' {
            i + 1 < s.len() && screen_digit(s[i + 1]) && spec_screen_from(s, i + 1, c, 0)
        } else if c == '$' || c == '@' {
            prev != '[' && spec_screen_from(s, i + 1, c, 0)
        } else if screen_space(c) {
            spec_screen_from(s, i + 1, prev, 0)
        } else {
            spec_screen_from(s, i + 1, c, 0)
        }
    }
}

/// The subset of the path language this engine hands to the outside
/// evaluator: a pattern anchored at `$` whose text passes the screen's
/// walk.  Patterns outside the subset are treated as unresolvable, like
/// ones that fail to compile.  The subset keeps object-key access, array
/// indexing with negative indices, and comparison filters; it gives up
/// tilde, caret and remainder operators, bracket sub-paths, arithmetic on
/// data, non-ASCII pattern text and integer literals of more than 18
/// digits, each of which can make the outside evaluator abort.
pub open spec fn path_screened(s: Seq<char>) -> bool {
    s.len() > 0 && s[0] == '$' && spec_screen_from(s, 1, '$', 0)
}

/// Whether the pattern lies in the screened subset of the path language.
pub(crate) fn screen_path(s: &str) -> (b: bool)
    ensures
        b == path_screened(s@),
{
    let n = s.unicode_len();
    if n == 0 {
        return false;
    }
    if s.get_char(0) != '$' {
        return false;
    }
    let mut i: usize = 1;
    let mut prev: char = '$';
    let mut run: usize = 0;
    loop
        invariant
            n == s@.len(),
            1 <= i <= n,
            run <= 18,
            path_screened(s@) == spec_screen_from(s@, i as int, prev, run as int),
        ensures
            path_screened(s@) == spec_screen_from(s@, i as int, prev, run as int),
            i >= n || !spec_screen_from(s@, i as int, prev, run as int),
        decreases n - i,
    {
        if i == n {
            break;
        }
        let c = s.get_char(i);
        if (c as u32) >= 128 || c == '~' || c == '%' || c == '^' {
            break;
        }
        if (c as u32) >= 48 && (c as u32) <= 57 {
            if run + 1 > 18 {
                break;
            }
            run += 1;
            prev = c;
        } else if c == '-' {
            if i + 1 == n {
                break;
            }
            let d = s.get_char(i + 1);
            if !((d as u32) >= 48 && (d as u32) <= 57) {
                break;
            }
            run = 0;
            prev = c;
        } else if c == '$' || c == '@' {
            if prev == '[' {
                break;
            }
            run = 0;
            prev = c;
        } else if c == ' ' || c == '\t' || c == '\n' || c == '\r' {
            run = 0;
        } else {
            run = 0;
            prev = c;
        }
        i += 1;
    }
    if i == n {
        true
    } else {
        false
    }
}

/// Relies on `jsonpath_plus::JsonPath::compile`: a pure parse of the
/// pattern text, succeeding or failing on the text alone.  The parser
/// aborts on an integer literal that does not fit 64 signed bits, and it
/// reads literals with any Unicode digits though it can only parse ASCII
/// ones; the screened subset admits neither, so on admitted patterns the
/// call returns.
#[verifier::external_body]
pub(crate) fn compile_path(pattern: &str) -> (r: Option<jsonpath_plus::JsonPath>)
    requires
        path_screened(pattern@),
    ensures
        r is Some <==> path_compiles(pattern@),
        r matches Some(p) ==> path_pattern(p) == pattern@,
{
    match jsonpath_plus::JsonPath::compile(pattern) {
        Ok(p) => Some(p),
        Err(_) => None,
    }
}

/// Relies on `jsonpath_plus::JsonPath::find`: the matched sub-values, in
/// the evaluator's order, a function of the compiled pattern and the value
/// alone.  Evaluation aborts on the tilde operator, on a remainder by
/// zero, on negating the smallest 64-bit integer, and on indexing through
/// a number that is not a 64-bit integer; the first three need pattern
/// text outside the screened subset, and the last a value outside the
/// well-formed region, so the `requires` excludes them all and on
/// admitted inputs the call returns.
#[verifier::external_body]
pub(crate) fn find_path(p: &jsonpath_plus::JsonPath, root: &serde_json::Value) -> (r: Vec<
    serde_json::Value,
>)
    requires
        path_screened(path_pattern(*p)),
        spec_value_wf(json_model(*root)),
    ensures
        models_of(r@) == path_found(json_model(*root), path_pattern(*p)),
{
    p.find(root).into_iter().cloned().collect()
}

/// Relies on `serde_json::Value::as_str`: `Some` exactly for string
/// values, handing back the raw contents.
#[verifier::external_body]
pub(crate) fn value_as_str(v: &serde_json::Value) -> (r: Option<String>)
    ensures
        match json_model(*v) {
            SpecValue::Str(s) => r matches Some(t) && t@ == s,
            _ => r is None,
        },
{
    match v.as_str() {
        Some(s) => Some(s.to_string()),
        None => None,
    }
}

/// Relies on `serde_json::Value`'s `to_string`: the compact serialization,
/// a function of the value alone; a 64-bit integer value prints as its
/// plain decimal form.
#[verifier::external_body]
pub(crate) fn value_compact_text(v: &serde_json::Value) -> (r: String)
    ensures
        r@ == compact_text(json_model(*v)),
        json_model(*v) matches SpecValue::Int(n) ==> (i64::MIN <= n <= i64::MAX ==> r@
            == spec_int_text(n)),
{
    v.to_string()
}

/// The outside library's value for one of ours, built constructor by
/// constructor.
#[verifier::loop_isolation(false)]
pub(crate) fn to_outside_value(v: &JsonValue) -> (r: serde_json::Value)
    requires
        v.wf(),
    ensures
        json_model(r) == v@,
    decreases v,
{
    match v {
        JsonValue::Null => mk_null(),
        JsonValue::Bool(b) => mk_bool(*b),
        JsonValue::Int(i) => mk_int(*i),
        JsonValue::Str(s) => mk_str(s.as_str()),
        JsonValue::Arr(items) => {
            let mut out: Vec<serde_json::Value> = Vec::new();
            let mut k: usize = 0;
            while k < items.len()
                invariant
                    k <= items@.len(),
                    out@.len() == k,
                    forall|j: int| 0 <= j < k ==> json_model(#[trigger] out@[j]) == view_of(
                        items@[j],
                    ),
                decreases items@.len() - k,
            {
                proof {
                    assert(decreases_to!(*v => *items));
                    assert(decreases_to!(*items => items@));
                    assert(decreases_to!(items@ => items@[k as int]));
                    assert(v@->Arr_0[k as int] == view_of(items@[k as int]));
                    assert(spec_value_wf(view_of(items@[k as int])));
                }
                let c = to_outside_value(&items[k]);
                out.push(c);
                k += 1;
            }
            let r = mk_arr(out);
            proof {
                assert(models_of(out@) =~= v@->Arr_0);
            }
            r
        },
        JsonValue::Obj(entries) => {
            let mut out: Vec<(String, serde_json::Value)> = Vec::new();
            let mut k: usize = 0;
            while k < entries.len()
                invariant
                    k <= entries@.len(),
                    out@.len() == k,
                    forall|j: int| 0 <= j < k ==> (#[trigger] out@[j]).0@ == entries@[j].0@
                        && json_model(out@[j].1) == view_of(entries@[j].1),
                decreases entries@.len() - k,
            {
                proof {
                    assert(decreases_to!(*v => *entries));
                    assert(decreases_to!(*entries => entries@));
                    assert(decreases_to!(entries@ => entries@[k as int]));
                    assert(decreases_to!(entries@[k as int] => entries@[k as int].1));
                    assert(v@->Obj_0[k as int].1 == view_of(entries@[k as int].1));
                    assert(spec_value_wf(view_of(entries@[k as int].1)));
                }
                let key = entries[k].0.clone();
                let c = to_outside_value(&entries[k].1);
                out.push((key, c));
                k += 1;
            }
            proof {
                assert(entry_models_of(out@) =~= v@->Obj_0);
            }
            let r = mk_obj(out);
            r
        },
    }
}

} // verus!
