use jpst::JsonValue;
use jpst::RegexTemplateEngine;
use jpst::TemplateContext;
use jpst::TemplateEngine;

fn render(ctx: &TemplateContext, tpl: &str) -> String {
    let t = RegexTemplateEngine::parse(tpl);
    RegexTemplateEngine::render(ctx, &t)
}

#[test]
fn set_twice_overwrites() {
    let mut ctx = TemplateContext::new();
    let e = ctx.entry("k");
    e.set(&mut ctx, JsonValue::of_str("first"));
    let e = ctx.entry("k");
    e.set(&mut ctx, JsonValue::of_str("second"));
    assert_eq!("second".to_string(), render(&ctx, "{{$.k}}"));
}

#[test]
fn append_twice_accumulates() {
    let mut ctx = TemplateContext::new();
    let e = ctx.entry("k");
    e.append(&mut ctx, JsonValue::of_str("first"));
    let e = ctx.entry("k");
    e.append(&mut ctx, JsonValue::of_str("second"));
    assert_eq!("first".to_string(), render(&ctx, "{{$.k[0]}}"));
    assert_eq!("second".to_string(), render(&ctx, "{{$.k[1]}}"));
    assert_eq!("second".to_string(), render(&ctx, "{{$.k[-1]}}"));
}

#[test]
fn set_then_append_promotes() {
    let mut ctx = TemplateContext::new();
    let e = ctx.entry("k");
    e.set(&mut ctx, JsonValue::of_str("first"));
    let e = ctx.entry("k");
    e.append(&mut ctx, JsonValue::of_str("second"));
    assert_eq!(
        "[\"first\",\"second\"]".to_string(),
        render(&ctx, "{{$.k}}")
    );
}

#[test]
fn non_object_root_is_wrapped() {
    let ctx = TemplateContext::new_with_root(JsonValue::Int(7));
    assert_eq!("7".to_string(), render(&ctx, "{{$.value}}"));
}

#[test]
fn object_root_is_kept() {
    let root = JsonValue::new_obj().obj_set("name", JsonValue::of_str("alice"));
    let ctx = TemplateContext::new_with_root(root);
    assert_eq!("alice".to_string(), render(&ctx, "{{$.name}}"));
}

#[test]
fn default_context_is_empty() {
    let ctx = TemplateContext::default();
    assert_eq!("[]".to_string(), render(&ctx, "[{{$.anything}}]"));
}

#[test]
fn nested_values_round_trip() {
    let inner = JsonValue::new_arr()
        .arr_push(JsonValue::Bool(false))
        .arr_push(JsonValue::Null)
        .arr_push(JsonValue::of_str("x"));
    let mut ctx = TemplateContext::new();
    let e = ctx.entry("list");
    e.set(&mut ctx, inner);
    assert_eq!("[false,null,\"x\"]".to_string(), render(&ctx, "{{$.list}}"));
    assert_eq!("x".to_string(), render(&ctx, "{{$.list[2]}}"));
}
