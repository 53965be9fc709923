//! The engine interface: compiling template text and rendering it against
//! a context, with the delimiter-scanning implementation.

use vstd::prelude::*;

use crate::context::TemplateContext;
use crate::context::spec_root_entries;
use crate::render::render_template;
use crate::render::spec_render;
use crate::template::Template;
use crate::template::TemplateModel;
use crate::template::scan_matches;
use crate::template::spec_scan;
use crate::value::JsonValue;
use crate::value::SpecValue;

verus! {

/// An engine turns template text into a compiled template and renders a
/// compiled template against a context.
pub trait TemplateEngine {
    /// Compiles template text: the source is kept verbatim and every
    /// placeholder occurrence is recorded in scanning order.  Parsing
    /// never fails; text without placeholders compiles to an empty match
    /// list.
    fn parse(tpl: &str) -> (t: Template)
        ensures
            t@.src == tpl@,
            t@.matches == spec_scan(tpl@, 0),
            t.wf(),
    ;

    /// Renders a compiled template against a context, best effort: a
    /// placeholder whose expression does not compile stays verbatim, a
    /// query with no matches becomes empty text, and no error is ever
    /// surfaced.
    fn render(ctx: &TemplateContext, tpl: &Template) -> (r: String)
        requires
            ctx.wf(),
            tpl.wf(),
        ensures
            r@ == spec_render(SpecValue::Obj(ctx@), tpl@),
    ;
}

/// The engine that scans for the `{{ ... }}` delimiter pair.
pub struct RegexTemplateEngine {}

impl TemplateEngine for RegexTemplateEngine {
    fn parse(tpl: &str) -> (t: Template) {
        let ms = scan_matches(tpl);
        Template::new(tpl, ms)
    }

    fn render(ctx: &TemplateContext, tpl: &Template) -> (r: String) {
        render_template(ctx, tpl)
    }
}

/// One-shot convenience: builds a context from the value, parses the
/// template text, and renders it.
pub fn format_str(tpl: &str, value: JsonValue) -> (r: String)
    requires
        value.wf(),
    ensures
        r@ == spec_render(
            SpecValue::Obj(spec_root_entries(value@)),
            TemplateModel { src: tpl@, matches: spec_scan(tpl@, 0) },
        ),
{
    let ctx = TemplateContext::new_with_root(value);
    let t = RegexTemplateEngine::parse(tpl);
    RegexTemplateEngine::render(&ctx, &t)
}

} // verus!

