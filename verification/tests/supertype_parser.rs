use step_io_blueprint::express::supertype_parser::parse;
use step_io_blueprint::express::SupertypeExpr;

fn ent(name: &str) -> SupertypeExpr {
    SupertypeExpr::Entity {
        name: name.to_string(),
    }
}

fn oneof(children: Vec<SupertypeExpr>) -> SupertypeExpr {
    SupertypeExpr::OneOf { children }
}

fn andor(children: Vec<SupertypeExpr>) -> SupertypeExpr {
    SupertypeExpr::AndOr { children }
}

fn and(children: Vec<SupertypeExpr>) -> SupertypeExpr {
    SupertypeExpr::And { children }
}

#[test]
fn b0_bare_entity() {
    assert_eq!(parse("cartesian_point").unwrap(), ent("cartesian_point"));
}

#[test]
fn b0_grouping_collapses() {
    assert_eq!(parse("(point)").unwrap(), ent("point"));
    assert_eq!(parse("((point))").unwrap(), ent("point"));
}

#[test]
fn b2_oneof_two() {
    assert_eq!(
        parse("ONEOF (a, b)").unwrap(),
        oneof(vec![ent("a"), ent("b")])
    );
}

#[test]
fn b2_oneof_three_lowercased() {
    assert_eq!(
        parse("ONEOF (Circle, Ellipse, Hyperbola)").unwrap(),
        oneof(vec![ent("circle"), ent("ellipse"), ent("hyperbola")])
    );
}

#[test]
fn b3_oneof_andor_entity() {
    assert_eq!(
        parse("ONEOF (a, b) ANDOR mixin").unwrap(),
        andor(vec![oneof(vec![ent("a"), ent("b")]), ent("mixin")])
    );
}

#[test]
fn b4_oneof_andor_oneof() {
    assert_eq!(
        parse("ONEOF (a, b) ANDOR ONEOF (c, d)").unwrap(),
        andor(vec![
            oneof(vec![ent("a"), ent("b")]),
            oneof(vec![ent("c"), ent("d")]),
        ])
    );
}

#[test]
fn b5_oneof_and_oneof() {
    assert_eq!(
        parse("ONEOF (a, b) AND ONEOF (c, d)").unwrap(),
        and(vec![
            oneof(vec![ent("a"), ent("b")]),
            oneof(vec![ent("c"), ent("d")]),
        ])
    );
}

#[test]
fn b6_entity_andor_oneof() {
    assert_eq!(
        parse("track ANDOR ONEOF (a, b, c)").unwrap(),
        andor(vec![ent("track"), oneof(vec![ent("a"), ent("b"), ent("c")])])
    );
}

#[test]
fn b7_oneof_with_andor_member() {
    assert_eq!(
        parse("ONEOF (vertex, edge, (loop ANDOR path))").unwrap(),
        oneof(vec![
            ent("vertex"),
            ent("edge"),
            andor(vec![ent("loop"), ent("path")]),
        ])
    );
}

#[test]
fn b7_oneof_with_and_pair_member() {
    assert_eq!(
        parse("ONEOF ((a AND b), c)").unwrap(),
        oneof(vec![and(vec![ent("a"), ent("b")]), ent("c")])
    );
}

#[test]
fn precedence_and_binds_tighter_than_andor() {
    assert_eq!(
        parse("a AND b ANDOR c AND d").unwrap(),
        andor(vec![
            and(vec![ent("a"), ent("b")]),
            and(vec![ent("c"), ent("d")]),
        ])
    );
}

#[test]
fn outer_grouping_transparent() {
    assert_eq!(
        parse("(ONEOF (a, b) ANDOR c)").unwrap(),
        andor(vec![oneof(vec![ent("a"), ent("b")]), ent("c")])
    );
}

#[test]
fn multi_line_whitespace_tolerated() {
    let body = "ONEOF (\n    intersection_curve,\n    seam_curve\n  ) ANDOR\n  bounded_surface_curve";
    assert_eq!(
        parse(body).unwrap(),
        andor(vec![
            oneof(vec![ent("intersection_curve"), ent("seam_curve")]),
            ent("bounded_surface_curve"),
        ])
    );
}

#[test]
fn single_child_andor_collapses() {
    assert_eq!(parse("(a)").unwrap(), ent("a"));
}

#[test]
fn err_trailing_garbage() {
    assert!(parse("a b").is_err());
}

#[test]
fn err_unmatched_paren() {
    assert!(parse("(a ANDOR b").is_err());
    assert!(parse("ONEOF (a, b").is_err());
}

#[test]
fn oneof_single_child_collapses() {
    assert_eq!(parse("ONEOF (atan_function)").unwrap(), ent("atan_function"));
}

#[test]
fn err_unknown_char() {
    assert!(parse("a @ b").is_err());
}

#[test]
fn err_empty_body() {
    assert!(parse("").is_err());
    assert!(parse("   ").is_err());
}

#[test]
fn err_lone_keyword() {
    assert!(parse("ANDOR").is_err());
    assert!(parse("a ANDOR").is_err());
}
