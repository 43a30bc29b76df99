use burn_contracts::{parse_shape_pattern, PatternComponent, ShapePattern, ShapePatternError};

fn dim(name: &str) -> PatternComponent {
    PatternComponent::Dim(name.to_string())
}

fn group(names: &[&str]) -> PatternComponent {
    PatternComponent::Composite(names.iter().map(|n| n.to_string()).collect())
}

fn parse_error(input: &str) -> Result<ShapePattern, ShapePatternError> {
    Err(ShapePatternError::ParseError { pattern: input.to_string() })
}

#[test]
fn test_display_pattern() {
    let pattern = ShapePattern::new(vec![
        PatternComponent::Dim("b".to_string()),
        PatternComponent::Ellipsis,
        PatternComponent::Composite(vec!["h".to_string(), "w".to_string()]),
        PatternComponent::Dim("c".to_string()),
    ])
    .unwrap();

    assert_eq!(pattern.to_display_string(), "b ... (h w) c");
}

#[test]
fn test_parse_shape_pattern() {
    assert_eq!(
        parse_shape_pattern("..."),
        ShapePattern::new(vec![PatternComponent::Ellipsis])
    );
    assert_eq!(
        parse_shape_pattern("x"),
        ShapePattern::new(vec![PatternComponent::Dim("x".to_string())])
    );
    assert_eq!(
        parse_shape_pattern("b ...( x  y ) c"),
        ShapePattern::new(vec![
            PatternComponent::Dim("b".to_string()),
            PatternComponent::Ellipsis,
            PatternComponent::Composite(vec!["x".to_string(), "y".to_string()]),
            PatternComponent::Dim("c".to_string())
        ])
    );
}

#[test]
fn test_ellipsis() {
    assert_eq!(parse_shape_pattern("..."), ShapePattern::new(vec![PatternComponent::Ellipsis]));
    assert_eq!(parse_shape_pattern("... "), ShapePattern::new(vec![PatternComponent::Ellipsis]));
    assert_eq!(
        parse_shape_pattern("...x"),
        ShapePattern::new(vec![PatternComponent::Ellipsis, dim("x")])
    );
}

#[test]
fn test_identifier() {
    for prefix in &["_", "a", "A"] {
        for suffix in &["", "_", "a", "A", "1", "_"] {
            let id = format!("{prefix}{suffix}");
            let input = format!("{id} z");
            assert_eq!(parse_shape_pattern(&input), ShapePattern::new(vec![dim(&id), dim("z")]));
        }
    }
}

#[test]
fn test_dimension() {
    for id in &["x", "X", "_", "x1", "X1", "_1"] {
        let input = format!("{id} z");
        assert_eq!(parse_shape_pattern(&input), ShapePattern::new(vec![dim(id), dim("z")]));
    }
}

#[test]
fn test_composite() {
    assert_eq!(parse_shape_pattern("(x)"), ShapePattern::new(vec![group(&["x"])]));
    assert_eq!(parse_shape_pattern("(x y)"), ShapePattern::new(vec![group(&["x", "y"])]));
}

#[test]
fn method_parse_matches_free_function() {
    assert_eq!(ShapePattern::parse("b (h w)"), parse_shape_pattern("b (h w)"));
    assert_eq!(
        ShapePattern::parse("b (h w)").unwrap().components(),
        &[dim("b"), group(&["h", "w"])][..]
    );
}

#[test]
fn components_may_touch() {
    assert_eq!(
        parse_shape_pattern("a(b)...c"),
        ShapePattern::new(vec![dim("a"), group(&["b"]), PatternComponent::Ellipsis, dim("c")])
    );
}

#[test]
fn white_space_is_trimmed_at_both_ends() {
    assert_eq!(parse_shape_pattern("\t a b \n"), ShapePattern::new(vec![dim("a"), dim("b")]));
    assert_eq!(
        parse_shape_pattern("\u{a0}\u{3000}a\u{2003}"),
        ShapePattern::new(vec![dim("a")])
    );
}

#[test]
fn separators_inside_are_ascii_only() {
    assert_eq!(parse_shape_pattern("a\u{a0}b"), parse_error("a\u{a0}b"));
    assert_eq!(
        parse_shape_pattern("a\t\r\nb"),
        ShapePattern::new(vec![dim("a"), dim("b")])
    );
}

#[test]
fn malformed_text_is_a_parse_error() {
    for input in ["", "   ", "a .", "....", "..", "()", "( )", "(a", "a)", "1a", "(a 1)", "a-b"] {
        assert_eq!(parse_shape_pattern(input), parse_error(input), "input {input:?}");
    }
}

#[test]
fn two_ellipses_are_invalid() {
    for input in ["... ...", "......", "a ... b ... c", "...(x y)..."] {
        match parse_shape_pattern(input) {
            Err(ShapePatternError::InvalidPattern { .. }) => {}
            other => panic!("{input:?} gave {other:?}"),
        }
    }
    match parse_shape_pattern("a  ... b ...") {
        Err(ShapePatternError::InvalidPattern { pattern, .. }) => {
            assert_eq!(pattern, "a ... b ...")
        }
        other => panic!("gave {other:?}"),
    }
}

#[test]
fn new_rejects_two_ellipses() {
    match ShapePattern::new(vec![PatternComponent::Ellipsis, dim("a"), PatternComponent::Ellipsis]) {
        Err(ShapePatternError::InvalidPattern { pattern, message }) => {
            assert_eq!(pattern, "... a ...");
            assert!(!message.is_empty());
        }
        other => panic!("gave {other:?}"),
    }
}

#[test]
fn ellipsis_position_and_presence() {
    let p = parse_shape_pattern("b ... c").unwrap();
    assert_eq!(p.ellipsis_pos(), Some(1));
    assert!(p.has_ellipsis());
    let q = parse_shape_pattern("b c").unwrap();
    assert_eq!(q.ellipsis_pos(), None);
    assert!(!q.has_ellipsis());
}

#[test]
fn display_string_parses_back() {
    for input in ["b ... (h p) (w p) c", "  x   (a_1  B2)...", "...", "(a)", "_ (x y z)"] {
        let p = parse_shape_pattern(input).unwrap();
        let text = p.to_display_string();
        assert_eq!(parse_shape_pattern(&text), Ok(p.clone()));
    }
    let p = parse_shape_pattern("  x   (a_1  B2)...").unwrap();
    assert_eq!(p.to_display_string(), "x (a_1 B2) ...");
}
