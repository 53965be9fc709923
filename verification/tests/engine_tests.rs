use jpst::JsonValue;
use jpst::RegexTemplateEngine;
use jpst::TemplateContext;
use jpst::TemplateEngine;
use jpst::format_str;

fn bob() -> JsonValue {
    JsonValue::new_obj()
        .obj_set("name", JsonValue::of_str("bob"))
        .obj_set("age", JsonValue::Int(18))
}

fn tom() -> JsonValue {
    JsonValue::new_obj()
        .obj_set("name", JsonValue::of_str("tom"))
        .obj_set("age", JsonValue::Int(20))
}

fn test_case(ctx: &TemplateContext, tpl: &str, expect: &str) {
    let t = RegexTemplateEngine::parse(tpl);
    let result = RegexTemplateEngine::render(ctx, &t);
    assert_eq!(expect.to_owned(), result, "tpl: {}", tpl);
}

#[test]
fn tests() {
    let mut ctx = TemplateContext::new();
    let my = JsonValue::new_obj().obj_set("name", JsonValue::of_str("alice"));
    let e = ctx.entry("my");
    e.set(&mut ctx, my);
    let e = ctx.entry("friends");
    e.append(&mut ctx, bob());
    let e = ctx.entry("friends");
    e.append(&mut ctx, tom());

    test_case(&ctx, "Hello, {{$.my.name}}!", "Hello, alice!");
    test_case(&ctx, "Hello, {{name}}!", "Hello, {{name}}!");
    test_case(&ctx, "Hello, {{ $.my.name }}!", "Hello, alice!");
    test_case(&ctx, "Hello, {{$.friends[0].name}}!", "Hello, bob!");
    test_case(&ctx, "Hello, {{$.friends[-1].name}}!", "Hello, tom!");
    test_case(&ctx, "Age: {{$.friends[0].age}}", "Age: 18");
    test_case(
        &ctx,
        "Hello, {{$.friends[0]}}!",
        "Hello, {\"age\":18,\"name\":\"bob\"}!",
    );
}

#[test]
fn test_format_str() {
    let person = JsonValue::new_obj()
        .obj_set("name", JsonValue::of_str("alice"))
        .obj_set("age", JsonValue::Int(18));
    let result = format_str("name:{{$.name}},age:{{$.age}}", person);
    assert_eq!("name:alice,age:18".to_string(), result);

    let result = format_str("{{$.value}}", JsonValue::of_str("alice"));
    assert_eq!("alice".to_string(), result);

    let result = format_str("{{$.value}}", JsonValue::Int(1));
    assert_eq!("1".to_string(), result);

    let mut ctx = TemplateContext::new();
    let e = ctx.entry("name");
    e.set(&mut ctx, JsonValue::of_str("alice"));
    let e = ctx.entry("age");
    e.set(&mut ctx, JsonValue::Int(18));
    let result = format_str("name:{{$.name}},age:{{$.age}}", ctx.as_value());
    assert_eq!("name:alice,age:18".to_string(), result);
}

#[test]
fn readme_example() {
    let json_value = JsonValue::new_obj()
        .obj_set(
            "my",
            JsonValue::new_obj()
                .obj_set("name", JsonValue::of_str("alice"))
                .obj_set("age", JsonValue::Int(18)),
        )
        .obj_set("friends", JsonValue::new_arr().arr_push(bob()).arr_push(tom()));

    assert_eq!(
        "Hello, alice!".to_string(),
        format_str("Hello, {{$.my.name}}!", json_value.clone())
    );

    assert_eq!(
        "Hello, bob!".to_string(),
        format_str("Hello, {{$.friends[0].name}}!", json_value.clone())
    );

    assert_eq!(
        "Hello, tom!".to_string(),
        format_str("Hello, {{$.friends[-1].name}}!", json_value.clone())
    );

    assert_eq!(
        "Hello, tom!".to_string(),
        format_str("Hello, {{$.friends[?(@.age > 18)].name}}!", json_value)
    );
}

#[test]
fn parse_is_deterministic() {
    let text = "a {{$.x}} b {{ $.y }} c";
    let t1 = RegexTemplateEngine::parse(text);
    let t2 = RegexTemplateEngine::parse(text);
    assert_eq!(t1.match_count(), t2.match_count());
    assert_eq!(t1.match_count(), 2);
    assert_eq!(t1.source(), t2.source());
    let mut ctx = TemplateContext::new();
    let e = ctx.entry("x");
    e.set(&mut ctx, JsonValue::Int(1));
    let e = ctx.entry("y");
    e.set(&mut ctx, JsonValue::Int(2));
    assert_eq!(
        RegexTemplateEngine::render(&ctx, &t1),
        RegexTemplateEngine::render(&ctx, &t2)
    );
}

#[test]
fn no_placeholder_is_identity() {
    let mut ctx = TemplateContext::new();
    let e = ctx.entry("k");
    e.set(&mut ctx, JsonValue::of_str("v"));
    test_case(&ctx, "Hello, world!", "Hello, world!");
    test_case(&ctx, "", "");
    test_case(&ctx, "single } brace { text", "single } brace { text");
}

#[test]
fn unclosed_placeholder_is_left_alone() {
    let ctx = TemplateContext::new();
    test_case(&ctx, "Hello {{name", "Hello {{name");
    test_case(&ctx, "tail }} only", "tail }} only");
}

#[test]
fn empty_expression_is_left_verbatim() {
    let ctx = TemplateContext::new();
    test_case(&ctx, "x{{}}y", "x{{}}y");
}

#[test]
fn whitespace_in_delimiters_is_insignificant() {
    let mut ctx = TemplateContext::new();
    let my = JsonValue::new_obj().obj_set("name", JsonValue::of_str("alice"));
    let e = ctx.entry("my");
    e.set(&mut ctx, my);
    let plain = RegexTemplateEngine::parse("{{$.my.name}}");
    let padded = RegexTemplateEngine::parse("{{  $.my.name\t}}");
    assert_eq!(
        RegexTemplateEngine::render(&ctx, &plain),
        RegexTemplateEngine::render(&ctx, &padded)
    );
}

#[test]
fn identical_placeholders_all_replaced() {
    let mut ctx = TemplateContext::new();
    let e = ctx.entry("k");
    e.set(&mut ctx, JsonValue::of_str("v"));
    test_case(&ctx, "{{$.k}}+{{$.k}}", "v+v");
}

#[test]
fn missing_path_becomes_empty() {
    let ctx = TemplateContext::new();
    test_case(&ctx, "[{{$.absent}}]", "[]");
}

#[test]
fn coercion_of_scalars() {
    let mut ctx = TemplateContext::new();
    let e = ctx.entry("b");
    e.set(&mut ctx, JsonValue::Bool(true));
    let e = ctx.entry("n");
    e.set(&mut ctx, JsonValue::Null);
    let e = ctx.entry("i");
    e.set(&mut ctx, JsonValue::Int(-42));
    test_case(&ctx, "{{$.b}}", "true");
    test_case(&ctx, "{{$.n}}", "null");
    test_case(&ctx, "{{$.i}}", "-42");
}

#[test]
fn object_serialization_orders_keys() {
    let mut ctx = TemplateContext::new();
    let o = JsonValue::new_obj()
        .obj_set("b", JsonValue::Int(2))
        .obj_set("a", JsonValue::Int(1));
    let e = ctx.entry("o");
    e.set(&mut ctx, o);
    test_case(&ctx, "{{$.o}}", "{\"a\":1,\"b\":2}");
}

#[test]
fn patterns_outside_the_subset_are_left_verbatim() {
    let mut ctx = TemplateContext::new();
    let e = ctx.entry("a");
    e.set(&mut ctx, JsonValue::Int(1));
    test_case(&ctx, "x{{$~}}y", "x{{$~}}y");
    test_case(&ctx, "x{{$[?(1 % 0 == 1)]}}y", "x{{$[?(1 % 0 == 1)]}}y");
    test_case(
        &ctx,
        "x{{$[99999999999999999999]}}y",
        "x{{$[99999999999999999999]}}y",
    );
    test_case(&ctx, "x{{$[$.a]}}y", "x{{$[$.a]}}y");
    test_case(&ctx, "x{{$[?(-@.a > 0)]}}y", "x{{$[?(-@.a > 0)]}}y");
}

#[test]
fn unicode_whitespace_trims_in_delimiters() {
    let mut ctx = TemplateContext::new();
    let e = ctx.entry("k");
    e.set(&mut ctx, JsonValue::of_str("v"));
    test_case(&ctx, "a{{\u{00A0}$.k\u{2003}}}b", "avb");
}
