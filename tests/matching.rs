use burn_contracts::{
    cached_parse_shape_pattern, parse_shape_pattern, ParseCache, ShapePattern, ShapePatternError,
};
use std::collections::HashMap;

#[test]
#[allow(clippy::many_single_char_names)]
fn test_parser_example() {
    let cache = ParseCache::new(1000);
    let shape = [2, 9, 9, 20 * 4, 10 * 4, 3];

    let [b, h, w, c] = ShapePattern::cached_parse(&cache, "b ... (h p) (w p) c")
        .unwrap()
        .match_bindings(&shape, &[("b", 2), ("p", 4)])
        .unwrap()
        .select(["b", "h", "w", "c"]);

    assert_eq!(b, 2);
    assert_eq!(h, 20);
    assert_eq!(w, 10);
    assert_eq!(c, 3);
}

#[test]
#[allow(clippy::many_single_char_names)]
fn test_assert() {
    let cache = ParseCache::new(1000);
    let b = 2;
    let h = 3;
    let w = 4;
    let p = 2;
    let c = 3;

    let extra = 7;

    let shape = [b, 9, 9, h * p, w * p, c];

    let mut bindings = HashMap::new();
    bindings.insert("b".to_string(), b);
    bindings.insert("p".to_string(), p);
    bindings.insert("extra".to_string(), extra);

    let m = ShapePattern::cached_parse(&cache, "b ... (h p) (w p) c")
        .unwrap()
        .match_bindings(shape.as_ref(), &bindings)
        .unwrap();

    assert_eq!(m.shape, shape);
    assert_eq!(m.ellipsis_range, Some(1..3));
    assert_eq!(m.bindings.get("b"), Some(&b));
    assert_eq!(m.bindings.get("h"), Some(&h));
    assert_eq!(m.bindings.get("w"), Some(&w));
    assert_eq!(m.bindings.get("p"), Some(&p));
    assert_eq!(m.bindings.get("c"), Some(&c));

    let [sel_b, sel_h, sel_w] = m.select(["b", "h", "w"]);
    assert_eq!(sel_b, b);
    assert_eq!(sel_h, h);
    assert_eq!(sel_w, w);
}

#[test]
fn unpacks_shape_of_a_six_dimensional_tensor() {
    let cache = ParseCache::new(16);
    let dims = [2, 2, 2, 5 * 4, 4 * 4, 3];
    let [b, h, w] = cached_parse_shape_pattern(&cache, "b ... (h p) (w p) c")
        .unwrap()
        .match_bindings(&dims, &[("p", 4), ("c", 3)])
        .unwrap()
        .select(["b", "h", "w"]);
    assert_eq!((b, h, w), (2, 5, 4));
}

#[test]
fn scenario_full_bindings_and_ellipsis_range() {
    let pattern = parse_shape_pattern("b ... (h p) (w p) c").unwrap();
    let m = pattern.match_bindings(&[2, 9, 9, 80, 40, 3], &[("b", 2), ("p", 4)]).unwrap();
    assert_eq!(m.bindings.get("h"), Some(&20));
    assert_eq!(m.bindings.get("w"), Some(&10));
    assert_eq!(m.bindings.get("c"), Some(&3));
    assert_eq!(m.bindings.get("b"), Some(&2));
    assert_eq!(m.bindings.get("p"), Some(&4));
    assert_eq!(m.ellipsis_range, Some(1..3));
    assert_eq!(m.shape, vec![2, 9, 9, 80, 40, 3]);
}

#[test]
fn scenario_factor_that_does_not_divide() {
    let pattern = parse_shape_pattern("b ... (h p) (w p) c").unwrap();
    let e = pattern.match_bindings(&[2, 9, 9, 80, 40, 3], &[("p", 3)]).unwrap_err();
    assert_eq!(
        e,
        ShapePatternError::CompositeMismatch {
            shape: vec![2, 9, 9, 80, 40, 3],
            pattern: "b ... (h p) (w p) c".to_string(),
            bindings: vec![("p".to_string(), 3)],
            factors: vec!["h".to_string(), "p".to_string()],
            unbound: Some("h".to_string()),
            product: Some(3),
            observed: 80,
        }
    );
}

#[test]
fn scenario_conflicting_external_binding() {
    let pattern = parse_shape_pattern("b ... (h p) (w p) c").unwrap();
    let e = pattern.match_bindings(&[2, 9, 9, 80, 40, 3], &[("b", 99)]).unwrap_err();
    assert_eq!(
        e,
        ShapePatternError::ConstraintMismatch {
            shape: vec![2, 9, 9, 80, 40, 3],
            pattern: "b ... (h p) (w p) c".to_string(),
            bindings: vec![("b".to_string(), 99)],
            name: "b".to_string(),
            bound: 99,
            observed: 2,
        }
    );
}

#[test]
fn scenario_two_unresolved_factors() {
    let pattern = parse_shape_pattern("(h w)").unwrap();
    let none: [(&str, usize); 0] = [];
    let e = pattern.match_bindings(&[12], &none).unwrap_err();
    assert_eq!(
        e,
        ShapePatternError::MultipleUnboundFactors {
            shape: vec![12],
            pattern: "(h w)".to_string(),
            bindings: vec![],
            factors: vec!["h".to_string(), "w".to_string()],
        }
    );
}

#[test]
fn rank_must_match_without_ellipsis() {
    let pattern = parse_shape_pattern("a b").unwrap();
    let none: [(&str, usize); 0] = [];
    let shapes: [Vec<usize>; 3] = [vec![], vec![1], vec![1, 2, 3]];
    for shape in shapes {
        match pattern.match_bindings(&shape, &none) {
            Err(ShapePatternError::TooFewDimensions { shape: s, pattern: p, bindings }) => {
                assert_eq!(s, shape);
                assert_eq!(p, "a b");
                assert!(bindings.is_empty());
            }
            other => panic!("{shape:?} gave {other:?}"),
        }
    }
    let m = pattern.match_bindings(&[1, 2], &none).unwrap();
    assert_eq!(m.select(["a", "b"]), [1, 2]);
    assert_eq!(m.ellipsis_range, None);
}

#[test]
fn too_few_dimensions_with_ellipsis() {
    let pattern = parse_shape_pattern("a ... b c").unwrap();
    let e = pattern.match_bindings(&[1, 2], &[("z", 1), ("a", 1)]).unwrap_err();
    assert_eq!(
        e,
        ShapePatternError::TooFewDimensions {
            shape: vec![1, 2],
            pattern: "a ... b c".to_string(),
            bindings: vec![("a".to_string(), 1), ("z".to_string(), 1)],
        }
    );
}

#[test]
fn ellipsis_may_take_nothing_at_either_end() {
    let none: [(&str, usize); 0] = [];
    let tail = parse_shape_pattern("b ...").unwrap().match_bindings(&[2], &none).unwrap();
    assert_eq!(tail.ellipsis_range, Some(1..1));
    assert_eq!(tail.bindings.get("b"), Some(&2));
    let head = parse_shape_pattern("... b").unwrap().match_bindings(&[2], &none).unwrap();
    assert_eq!(head.ellipsis_range, Some(0..0));
    let all = parse_shape_pattern("...").unwrap().match_bindings(&[4, 5, 6], &none).unwrap();
    assert_eq!(all.ellipsis_range, Some(0..3));
    assert_eq!(all.bindings.get("x"), None);
}

#[test]
fn repeated_name_must_agree() {
    let pattern = parse_shape_pattern("a a").unwrap();
    let none: [(&str, usize); 0] = [];
    assert!(pattern.match_bindings(&[3, 3], &none).is_ok());
    match pattern.match_bindings(&[3, 4], &none) {
        Err(ShapePatternError::ConstraintMismatch { name, bound, observed, .. }) => {
            assert_eq!((name.as_str(), bound, observed), ("a", 3, 4));
        }
        other => panic!("gave {other:?}"),
    }
}

#[test]
fn fully_bound_group_must_equal_its_dimension() {
    let pattern = parse_shape_pattern("(h w)").unwrap();
    let m = pattern.match_bindings(&[6], &[("h", 2), ("w", 3)]).unwrap();
    assert_eq!(m.select(["h", "w"]), [2, 3]);
    match pattern.match_bindings(&[7], &[("h", 2), ("w", 3)]) {
        Err(ShapePatternError::CompositeMismatch { unbound, product, observed, .. }) => {
            assert_eq!((unbound, product, observed), (None, Some(6), 7));
        }
        other => panic!("gave {other:?}"),
    }
}

#[test]
fn zero_factor_cannot_infer() {
    let pattern = parse_shape_pattern("(h p)").unwrap();
    match pattern.match_bindings(&[0], &[("p", 0)]) {
        Err(ShapePatternError::CompositeMismatch { unbound, product, observed, .. }) => {
            assert_eq!((unbound, product, observed), (Some("h".to_string()), Some(0), 0));
        }
        other => panic!("gave {other:?}"),
    }
    let m = pattern.match_bindings(&[0], &[("p", 5)]).unwrap();
    assert_eq!(m.select(["h"]), [0]);
}

#[test]
fn product_beyond_usize_is_reported() {
    let pattern = parse_shape_pattern("(a b c)").unwrap();
    let big = [("a", usize::MAX), ("b", 2)];
    let m = pattern.match_bindings(&[0], &big).unwrap();
    assert_eq!(m.select(["c"]), [0]);
    match pattern.match_bindings(&[5], &big) {
        Err(ShapePatternError::CompositeMismatch { unbound, product, observed, .. }) => {
            assert_eq!((unbound, product, observed), (Some("c".to_string()), None, 5));
        }
        other => panic!("gave {other:?}"),
    }
}

#[test]
fn match_exports_only_referenced_names() {
    let pattern = parse_shape_pattern("b c").unwrap();
    let mut ext = HashMap::new();
    ext.insert("b".to_string(), 2usize);
    ext.insert("unused".to_string(), 7usize);
    let m = pattern.match_bindings(&[2, 5], &ext).unwrap();
    assert_eq!(m.bindings.get("b"), Some(&2));
    assert_eq!(m.bindings.get("c"), Some(&5));
    assert_eq!(m.bindings.get("unused"), None);
}

#[test]
fn error_snapshot_lists_external_bindings_sorted() {
    let pattern = parse_shape_pattern("x").unwrap();
    let mut ext = HashMap::new();
    ext.insert("z".to_string(), 1usize);
    ext.insert("x".to_string(), 4usize);
    ext.insert("m".to_string(), 2usize);
    match pattern.match_bindings(&[5], &ext) {
        Err(ShapePatternError::ConstraintMismatch { bindings, .. }) => {
            assert_eq!(
                bindings,
                vec![("m".to_string(), 2), ("x".to_string(), 4), ("z".to_string(), 1)]
            );
        }
        other => panic!("gave {other:?}"),
    }
}

#[test]
fn cached_parse_twice_agrees() {
    let cache = ParseCache::new(4);
    let first = ShapePattern::cached_parse(&cache, "b ... (h p) c");
    let second = ShapePattern::cached_parse(&cache, "b ... (h p) c");
    assert_eq!(first, second);
    assert_eq!(first, parse_shape_pattern("b ... (h p) c"));

    let bad_first = cache.parse("a (");
    let bad_second = cache.parse("a (");
    assert_eq!(bad_first, bad_second);
    assert_eq!(
        bad_first,
        Err(ShapePatternError::ParseError { pattern: "a (".to_string() })
    );
}

#[test]
fn cache_keeps_texts_apart() {
    let cache = ParseCache::new(1);
    for _ in 0..3 {
        for text in ["a b", "a ... b", "(x y)", "a  b"] {
            assert_eq!(cache.parse(text), parse_shape_pattern(text));
        }
    }
}
