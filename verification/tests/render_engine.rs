use mathspan::KatexContext;
use mathspan::RenderError;
use mathspan::render_katex;
use std::collections::HashMap;

#[test]
fn macros_works() {
    let mut macros = HashMap::new();
    macros.insert(r"\RR".to_string(), r"\mathbb{R}".to_string());
    let ctx = KatexContext::new(true, true, macros);
    let result = render_katex(r"\forall x \in \RR", &ctx).unwrap();
    assert!(result.starts_with(r#"<span class="katex-display">"#))
}

#[test]
fn render_succ() {
    let ctx = KatexContext::new(true, true, HashMap::new());
    let result = render_katex(r"a = \frac{p}{q}", &ctx).unwrap();
    assert!(result.starts_with(r#"<span class="katex-display">"#))
}

#[test]
fn syntax_error_unstrict() {
    let ctx = KatexContext::new(false, true, HashMap::new());
    let result = render_katex(r"a \= \frac{p}{q}", &ctx).unwrap();
    assert!(result.starts_with(r#"<span class="katex-warning">"#))
}

#[test]
#[should_panic]
fn syntax_error_strict() {
    let ctx = KatexContext::new(true, true, HashMap::new());
    let _ = render_katex(r"a \= \frac{p}{q}", &ctx).unwrap();
}

#[test]
fn syntax_error_strict_is_syntax_variant() {
    let ctx = KatexContext::new(true, false, HashMap::new());
    let err = render_katex(r"a \= b", &ctx).unwrap_err();
    match err {
        RenderError::Syntax { raw, message: _ } => assert_eq!(raw, r"a \= b"),
        RenderError::Fatal { message } => panic!("unexpected engine failure: {}", message),
    }
}

#[test]
fn lenient_warning_holds_the_source() {
    let ctx = KatexContext::new(false, false, HashMap::new());
    let result = render_katex(r"a \= b", &ctx).unwrap();
    let expected = "<span class=\"katex-warning\">\nInvalid KaTeX eqation: <code>a \\= b</code>\n</span>";
    assert_eq!(result, expected);
}
