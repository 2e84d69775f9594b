use mathspan::Delimiter;
use mathspan::Segment;
use mathspan::default_delimiters;
use mathspan::segment;

#[test]
fn brace_nesting_keeps_math_whole() {
    let delims = vec![Delimiter {
        left: "$".to_string(),
        right: "$".to_string(),
        display: false,
    }];
    let segs = segment("$F = \\frac{1}{2}ma$", &delims);
    assert_eq!(segs.len(), 1);
    match &segs[0] {
        Segment::Math { content, raw, display } => {
            assert_eq!(content.as_str(), "F = \\frac{1}{2}ma");
            assert_eq!(raw.as_str(), "$F = \\frac{1}{2}ma$");
            assert!(!display);
        }
        _ => panic!("expected one math segment"),
    }
}

#[test]
fn escaped_marker_becomes_literal_text() {
    let delims = vec![Delimiter {
        left: "$".to_string(),
        right: "$".to_string(),
        display: false,
    }];
    let segs = segment("\\$x + y", &delims);
    assert_eq!(segs.len(), 2);
    match &segs[0] {
        Segment::Text { data } => assert_eq!(data.as_str(), "$"),
        _ => panic!("expected literal text for the escaped marker"),
    }
    match &segs[1] {
        Segment::Text { data } => assert_eq!(data.as_str(), "x + y"),
        _ => panic!("expected trailing literal text"),
    }
}

#[test]
fn adjacent_pair_is_empty_math() {
    let delims = vec![Delimiter {
        left: "$".to_string(),
        right: "$".to_string(),
        display: false,
    }];
    let segs = segment("$$", &delims);
    assert_eq!(segs.len(), 1);
    match &segs[0] {
        Segment::Math { content, raw, display: _ } => {
            assert_eq!(content.as_str(), "");
            assert_eq!(raw.as_str(), "$$");
        }
        _ => panic!("expected an empty math segment"),
    }
}

#[test]
fn display_marker_wins_over_inline() {
    let segs = segment("$$x$$", &default_delimiters());
    assert_eq!(segs.len(), 1);
    match &segs[0] {
        Segment::Math { content, raw, display } => {
            assert_eq!(content.as_str(), "x");
            assert_eq!(raw.as_str(), "$$x$$");
            assert!(display);
        }
        _ => panic!("expected one display math segment"),
    }
}

#[test]
fn environment_body_keeps_the_wrapper() {
    let delims = vec![Delimiter {
        left: "$".to_string(),
        right: "$".to_string(),
        display: false,
    }];
    let segs = segment("$\\begin{aligned}x\\end{aligned}$", &delims);
    assert_eq!(segs.len(), 1);
    match &segs[0] {
        Segment::Math { content, raw, display: _ } => {
            assert_eq!(raw.as_str(), "$\\begin{aligned}x\\end{aligned}$");
            assert_eq!(content.as_str(), raw.as_str());
        }
        _ => panic!("expected one math segment"),
    }
}

#[test]
fn double_backslash_does_not_escape() {
    let delims = vec![Delimiter {
        left: "$".to_string(),
        right: "$".to_string(),
        display: false,
    }];
    let segs = segment("\\\\$x$", &delims);
    assert_eq!(segs.len(), 2);
    match &segs[0] {
        Segment::Text { data } => assert_eq!(data.as_str(), "\\\\"),
        _ => panic!("expected the backslashes as literal text"),
    }
    match &segs[1] {
        Segment::Math { content, raw, display: _ } => {
            assert_eq!(content.as_str(), "x");
            assert_eq!(raw.as_str(), "$x$");
        }
        _ => panic!("expected a math segment"),
    }
}

#[test]
fn unclosed_marker_holds_the_remainder() {
    let segs = segment("a $F = ma\\$", &default_delimiters());
    assert_eq!(segs.len(), 2);
    match &segs[0] {
        Segment::Text { data } => assert_eq!(data.as_str(), "a "),
        _ => panic!("expected leading text"),
    }
    match &segs[1] {
        Segment::Unclosed { marker } => assert_eq!(marker.as_str(), "$F = ma\\$"),
        _ => panic!("expected an unclosed segment"),
    }
}
