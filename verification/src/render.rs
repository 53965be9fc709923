//! Rendering: each recorded placeholder is resolved against the context
//! and its resolved text substituted for every occurrence of the
//! placeholder's original span text.

use vstd::prelude::*;
use vstd::string::StrSliceExecFns;
use vstd::string::StringExecFns;

use crate::context::TemplateContext;
use crate::json_api::compact_text;
use crate::json_api::compile_path;
use crate::json_api::find_path;
use crate::json_api::json_model;
use crate::json_api::models_of;
use crate::json_api::path_compiles;
use crate::json_api::path_found;
use crate::json_api::path_screened;
use crate::json_api::screen_path;
use crate::json_api::to_outside_value;
use crate::json_api::value_as_str;
use crate::json_api::value_compact_text;
use crate::template::SpecMatch;
use crate::template::Template;
use crate::template::TemplateModel;
use crate::template::is_pair_at;
use crate::template::lemma_find_pair;
use crate::template::spec_find_pair;
use crate::template::spec_scan;
use crate::value::SpecValue;
use crate::value::spec_int_text;
use crate::value::spec_value_wf;

verus! {

/// The pattern stands in the text at the given position.
pub open spec fn spec_starts_with(s: Seq<char>, at: int, pat: Seq<char>) -> bool {
    0 <= at && at + pat.len() <= s.len() && s.subrange(at, at + pat.len()) == pat
}

/// The text with every occurrence of a non-empty pattern replaced, left to
/// right and without overlap.
pub open spec fn spec_replace(s: Seq<char>, pat: Seq<char>, rep: Seq<char>) -> Seq<char>
    decreases s.len(),
{
    if pat.len() == 0 || s.len() == 0 {
        s
    } else if spec_starts_with(s, 0, pat) {
        rep + spec_replace(s.skip(pat.len() as int), pat, rep)
    } else {
        seq![s[0]] + spec_replace(s.drop_first(), pat, rep)
    }
}

/// Coercion of a resolved value to text: a string's raw contents, any
/// other value's compact serialization.
pub open spec fn spec_coerce(v: SpecValue) -> Seq<char> {
    match v {
        SpecValue::Str(s) => s,
        _ => compact_text(v),
    }
}

/// What one placeholder resolves to: nothing when its expression lies
/// outside the screened path subset or does not compile, the empty text
/// when the query matches no sub-value, and otherwise the coerced text of
/// the last matched sub-value.
pub open spec fn spec_resolved(root: SpecValue, name: Seq<char>) -> Option<Seq<char>> {
    if !path_screened(name) || !path_compiles(name) {
        None
    } else {
        let found = path_found(root, name);
        if found.len() == 0 {
            Some(Seq::<char>::empty())
        } else {
            Some(spec_coerce(found.last()))
        }
    }
}

/// The working text after processing the given matches in order: a match
/// whose expression does not compile leaves the text unchanged, any other
/// match substitutes its resolved text for every occurrence of its span
/// text as sliced from the original source.
pub open spec fn spec_render_from(
    root: SpecValue,
    cur: Seq<char>,
    matches: Seq<SpecMatch>,
    orig: Seq<char>,
) -> Seq<char>
    decreases matches.len(),
{
    if matches.len() == 0 {
        cur
    } else {
        let m = matches[0];
        let next = match spec_resolved(root, m.name) {
            Option::None => cur,
            Option::Some(t) => spec_replace(cur, orig.subrange(m.start, m.end), t),
        };
        spec_render_from(root, next, matches.drop_first(), orig)
    }
}

/// The rendering of a template against a root value.
pub open spec fn spec_render(root: SpecValue, tpl: TemplateModel) -> Seq<char> {
    spec_render_from(root, tpl.src, tpl.matches, tpl.src)
}

/// Whether the pattern stands in the text at the given position.
fn starts_with_at(s: &str, at: usize, pat: &str) -> (b: bool)
    ensures
        b == spec_starts_with(s@, at as int, pat@),
{
    let n = s.unicode_len();
    let m = pat.unicode_len();
    if at > n || n - at < m {
        return false;
    }
    let mut k: usize = 0;
    loop
        invariant
            n == s@.len(),
            m == pat@.len(),
            at + m <= n,
            k <= m,
            forall|j: int| 0 <= j < k ==> s@[at + j] == pat@[j],
        ensures
            n == s@.len(),
            m == pat@.len(),
            at + m <= n,
            k <= m,
            forall|j: int| 0 <= j < k ==> s@[at + j] == pat@[j],
            k < m ==> s@[at + k] != pat@[k as int],
        decreases m - k,
    {
        if k == m {
            break;
        }
        if s.get_char(at + k) != pat.get_char(k) {
            break;
        }
        k += 1;
    }
    if k == m {
        proof {
            assert(s@.subrange(at as int, at + m) =~= pat@);
        }
        true
    } else {
        proof {
            if spec_starts_with(s@, at as int, pat@) {
                assert(s@.subrange(at as int, at + m)[k as int] == pat@[k as int]);
            }
        }
        false
    }
}

/// The text with every occurrence of the non-empty pattern replaced, left
/// to right and without overlap.
pub fn replace_all(s: &str, pat: &str, rep: &str) -> (r: String)
    requires
        pat@.len() > 0,
    ensures
        r@ == spec_replace(s@, pat@, rep@),
{
    let n = s.unicode_len();
    let m = pat.unicode_len();
    let mut out = String::new();
    let mut i: usize = 0;
    proof {
        assert(s@.skip(0) =~= s@);
        assert(out@ + spec_replace(s@, pat@, rep@) =~= spec_replace(s@, pat@, rep@));
    }
    loop
        invariant
            n == s@.len(),
            m == pat@.len(),
            m > 0,
            i <= n,
            spec_replace(s@, pat@, rep@) == out@ + spec_replace(s@.skip(i as int), pat@, rep@),
        ensures
            i == n,
            spec_replace(s@, pat@, rep@) == out@ + spec_replace(s@.skip(i as int), pat@, rep@),
        decreases n - i,
    {
        if i == n {
            break;
        }
        let ghost tail = s@.skip(i as int);
        if starts_with_at(s, i, pat) {
            out.append(rep);
            proof {
                assert(tail.subrange(0, m as int) =~= s@.subrange(i as int, i + m));
                assert(spec_starts_with(tail, 0, pat@));
                assert(tail.len() > 0);
                assert(spec_replace(tail, pat@, rep@) == rep@ + spec_replace(
                    tail.skip(m as int),
                    pat@,
                    rep@,
                ));
                assert(tail.skip(m as int) =~= s@.skip(i + m));
            }
            i += m;
        } else {
            let piece = s.substring_char(i, i + 1);
            out.append(piece);
            proof {
                if spec_starts_with(tail, 0, pat@) {
                    assert(tail.subrange(0, m as int) =~= s@.subrange(i as int, i + m));
                    assert(spec_starts_with(s@, i as int, pat@));
                }
                assert(tail.len() > 0);
                assert(tail[0] == s@[i as int]);
                assert(spec_replace(tail, pat@, rep@) == seq![tail[0]] + spec_replace(
                    tail.drop_first(),
                    pat@,
                    rep@,
                ));
                assert(tail.drop_first() =~= s@.skip(i + 1));
                assert(piece@ =~= seq![tail[0]]);
            }
            i += 1;
        }
    }
    proof {
        assert(s@.skip(n as int) =~= Seq::<char>::empty());
        assert(spec_replace(Seq::<char>::empty(), pat@, rep@) == Seq::<char>::empty());
        assert(out@ + Seq::<char>::empty() =~= out@);
    }
    out
}

/// Coercion of a resolved outside value to text: a string value's raw
/// contents, any other value's compact serialization; a 64-bit integer
/// value yields its plain decimal form.
pub(crate) fn value_to_str(v: &serde_json::Value) -> (r: String)
    ensures
        r@ == spec_coerce(json_model(*v)),
        json_model(*v) matches SpecValue::Int(n) ==> (i64::MIN <= n <= i64::MAX ==> r@
            == spec_int_text(n)),
{
    match value_as_str(v) {
        Some(s) => s,
        None => value_compact_text(v),
    }
}

/// Renders a compiled template against a context: each match is resolved
/// and substituted in order; a match whose expression does not compile is
/// left verbatim, and a query with no matches substitutes empty text.  The
/// renderer never fails.
pub fn render_template(ctx: &TemplateContext, tpl: &Template) -> (r: String)
    requires
        ctx.wf(),
        tpl.wf(),
    ensures
        r@ == spec_render(SpecValue::Obj(ctx@), tpl@),
{
    let ghost root = SpecValue::Obj(ctx@);
    let root_value = ctx.as_value();
    let root_json = to_outside_value(&root_value);
    let mut cur: String = tpl.source().to_owned();
    let count = tpl.match_count();
    let mut k: usize = 0;
    proof {
        assert(tpl@.matches.skip(0) =~= tpl@.matches);
    }
    loop
        invariant
            count == tpl@.matches.len(),
            k <= count,
            tpl.wf(),
            json_model(root_json) == root,
            spec_value_wf(root),
            spec_render_from(root, cur@, tpl@.matches.skip(k as int), tpl@.src) == spec_render(
                root,
                tpl@,
            ),
        ensures
            k == count,
            spec_render_from(root, cur@, tpl@.matches.skip(k as int), tpl@.src) == spec_render(
                root,
                tpl@,
            ),
        decreases count - k,
    {
        if k == count {
            break;
        }
        let ghost remaining = tpl@.matches.skip(k as int);
        let ghost m = tpl@.matches[k as int];
        proof {
            assert(remaining[0] == m);
            assert(remaining.drop_first() =~= tpl@.matches.skip(k as int + 1));
        }
        let name = tpl.match_name(k);
        let compiled = if screen_path(name) {
            compile_path(name)
        } else {
            None
        };
        match compiled {
            None => {
                proof {
                    assert(spec_resolved(root, m.name) is None);
                    assert(spec_render_from(root, cur@, remaining, tpl@.src) == spec_render_from(
                        root,
                        cur@,
                        remaining.drop_first(),
                        tpl@.src,
                    ));
                }
            },
            Some(path) => {
                let found = find_path(&path, &root_json);
                let ghost found_models = path_found(root, m.name);
                let text: String = if found.len() == 0 {
                    proof {
                        assert(found_models.len() == 0);
                    }
                    String::new()
                } else {
                    let last = found.len() - 1;
                    let t = value_to_str(&found[last]);
                    proof {
                        assert(models_of(found@)[last as int] == json_model(found@[last as int]));
                        assert(found_models.last() == json_model(found@[last as int]));
                    }
                    t
                };
                proof {
                    assert(spec_resolved(root, m.name) == Some(text@));
                }
                let needle = tpl.match_text(k);
                let new_cur = replace_all(cur.as_str(), needle, text.as_str());
                proof {
                    assert(spec_render_from(root, cur@, remaining, tpl@.src) == spec_render_from(
                        root,
                        spec_replace(cur@, tpl@.src.subrange(m.start, m.end), text@),
                        remaining.drop_first(),
                        tpl@.src,
                    ));
                }
                cur = new_cur;
            },
        }
        k += 1;
    }
    proof {
        assert(tpl@.matches.skip(count as int) =~= Seq::<SpecMatch>::empty());
    }
    cur
}

/// A template whose every recorded expression is unresolvable — outside
/// the screened path subset or failing to compile — renders to the working
/// text unchanged, for every context: unresolvable placeholders are
/// preserved verbatim.
pub proof fn lemma_render_unresolved(
    root: SpecValue,
    cur: Seq<char>,
    matches: Seq<SpecMatch>,
    orig: Seq<char>,
)
    requires
        forall|i: int|
            0 <= i < matches.len() ==> !path_screened((#[trigger] matches[i]).name)
                || !path_compiles(matches[i].name),
    ensures
        spec_render_from(root, cur, matches, orig) == cur,
    decreases matches.len(),
{
    if matches.len() > 0 {
        assert(spec_resolved(root, matches[0].name) is None);
        assert(forall|i: int|
            0 <= i < matches.drop_first().len() ==> (#[trigger] matches.drop_first()[i])
                == matches[i + 1]);
        lemma_render_unresolved(root, cur, matches.drop_first(), orig);
    }
}

/// Unresolvable literals are preserved: a placeholder whose recorded
/// expression does not begin with `$` — a bare identifier, say — is not a
/// path expression, and every such placeholder is left verbatim, for
/// every context.
pub proof fn lemma_render_non_path_names(
    root: SpecValue,
    cur: Seq<char>,
    matches: Seq<SpecMatch>,
    orig: Seq<char>,
)
    requires
        forall|i: int|
            0 <= i < matches.len() ==> ((#[trigger] matches[i]).name.len() == 0 || matches[i].name[0]
                != '$'),
    ensures
        spec_render_from(root, cur, matches, orig) == cur,
{
    assert(forall|i: int|
        0 <= i < matches.len() ==> !path_screened((#[trigger] matches[i]).name));
    lemma_render_unresolved(root, cur, matches, orig);
}

/// Text with no `{{` pair anywhere scans to no matches, and rendering it
/// against any root yields the text itself, for every context.
pub proof fn lemma_render_no_placeholders(root: SpecValue, t: Seq<char>)
    requires
        forall|i: int| !is_pair_at(t, i, '{'),
    ensures
        spec_scan(t, 0) == Seq::<SpecMatch>::empty(),
        spec_render(root, TemplateModel { src: t, matches: spec_scan(t, 0) }) == t,
{
    lemma_find_pair(t, 0, '{');
    assert(spec_find_pair(t, 0, '{') == -1);
}

} // verus!
