use mathspan::ComposeError;
use mathspan::RenderContext;
use mathspan::compose;
use mathspan::default_delimiters;
use std::collections::HashMap;

#[test]
fn identity_without_markers_lenient() {
    let ctx = RenderContext::new(true, false, default_delimiters(), HashMap::new());
    let text = "no math here, just {braces} and \\slashes";
    assert_eq!(compose(text, &ctx).unwrap(), text);
}

#[test]
fn identity_without_markers_strict() {
    let ctx = RenderContext::new(true, true, default_delimiters(), HashMap::new());
    let text = "no math here, just {braces} and \\slashes";
    assert_eq!(compose(text, &ctx).unwrap(), text);
}

#[test]
fn disabled_passes_through_unchanged() {
    let ctx = RenderContext::new(false, true, default_delimiters(), HashMap::new());
    let text = "$F = ma$ and $$broken";
    assert_eq!(compose(text, &ctx).unwrap(), text);
}

#[test]
fn unclosed_after_escaped_marker_lenient() {
    let ctx = RenderContext::new(true, false, default_delimiters(), HashMap::new());
    let out = compose("\\$F = ma$", &ctx).unwrap();
    assert_eq!(out, "$F = ma ***[KaTeX Warning] Unclosed delimiter ->*** $");
}

#[test]
fn unclosed_before_escaped_marker_lenient() {
    let ctx = RenderContext::new(true, false, default_delimiters(), HashMap::new());
    let out = compose("$F = ma\\$", &ctx).unwrap();
    assert_eq!(out, " ***[KaTeX Warning] Unclosed delimiter ->*** $F = ma\\$");
}

#[test]
fn strict_mode_escalates_unclosed() {
    let ctx = RenderContext::new(true, true, default_delimiters(), HashMap::new());
    let err = compose("$F = ma", &ctx).unwrap_err();
    match err {
        ComposeError::Aggregated { message } => {
            assert_eq!(message, "Unclosed delimiter: $F = ma");
        }
        ComposeError::Engine { message } => panic!("unexpected engine failure: {}", message),
    }
}

#[test]
fn strict_mode_joins_diagnostics_in_order() {
    let ctx = RenderContext::new(true, true, default_delimiters(), HashMap::new());
    let err = compose("a $\\nosuchmacro$ b $x", &ctx).unwrap_err();
    match err {
        ComposeError::Aggregated { message } => {
            assert_eq!(
                message,
                "Fail to parse formula: $\\nosuchmacro$\nUnclosed delimiter: $x"
            );
        }
        ComposeError::Engine { message } => panic!("unexpected engine failure: {}", message),
    }
}

#[test]
fn lenient_mode_warns_inline_and_succeeds() {
    let ctx = RenderContext::new(true, false, default_delimiters(), HashMap::new());
    let out = compose("a $\\nosuchmacro$ b $\\alsobad$ c", &ctx).unwrap();
    assert_eq!(
        out,
        "a  ***[KaTeX Warning] Fail to parse formula:*** $\\nosuchmacro$ b  \
         ***[KaTeX Warning] Fail to parse formula:*** $\\alsobad$ c"
    );
}

#[test]
fn multi_formula_keeps_text_in_place() {
    let ctx = RenderContext::new(true, false, default_delimiters(), HashMap::new());
    let out = compose("plain $a$ middle $b+c$ end", &ctx).unwrap();
    assert!(out.starts_with("plain "));
    assert!(out.contains(" middle "));
    assert!(out.ends_with(" end"));
    assert_eq!(out.matches("<span class=\"katex\">").count(), 2);
    assert!(!out.contains('$'));
}

#[test]
fn macros_reach_composed_formulas() {
    let mut macros = HashMap::new();
    macros.insert(r"\RR".to_string(), r"\mathbb{R}".to_string());
    let ctx = RenderContext::new(true, true, default_delimiters(), macros);
    let out = compose(r"take $x \in \RR$ here", &ctx).unwrap();
    assert!(out.starts_with("take "));
    assert!(out.ends_with(" here"));
    assert!(out.contains("<span class=\"katex\""));
}
