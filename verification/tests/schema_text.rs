use step_io_blueprint::express::reader::{
    body_before_close, extract_derived, extract_entity_name, extract_parents,
    find_attribute_section, find_derive_section, find_supertype_of_body, parents_in,
    parse_derive_lhs, parse_express, parse_self_redeclaration, quote_list, read_type_block,
    source_label, strip_block_comments, supertype_in,
};
use step_io_blueprint::express::supertype_parser::{parse, tokenize};
use step_io_blueprint::express::type_parser::{
    is_valid_identifier, match_keyword_prefix, parse_type_repr,
};
use step_io_blueprint::express::{AttrType, DerivedTarget, SupertypeExpr};

fn chars(s: &str) -> Vec<char> {
    s.chars().collect()
}

fn strings(names: &[&str]) -> Vec<String> {
    names.iter().map(|s| s.to_string()).collect()
}

fn entity(name: &str) -> AttrType {
    AttrType::Entity(name.to_string())
}

fn leaf(name: &str) -> SupertypeExpr {
    SupertypeExpr::Entity { name: name.to_string() }
}

#[test]
fn comments_leave_their_line_breaks() {
    assert_eq!(strip_block_comments("a (* one\ntwo\n*) b"), "a \n\n b");
    assert_eq!(strip_block_comments("open (* to the end\nof it"), "open \n");
    assert_eq!(strip_block_comments("(**)x"), "x");
}

#[test]
fn bytes_outside_comments_become_characters() {
    assert_eq!(strip_block_comments("é"), "\u{c3}\u{a9}");
}

#[test]
fn labels_are_lower_case_without_the_model_suffix() {
    assert_eq!(source_label("AP214E3_2010"), "ap214e3_2010");
    assert_eq!(source_label("AP203e2_MIM_LF"), "ap203e2");
    assert_eq!(source_label("part42_aim_lf"), "part42");
    assert_eq!(source_label("x_arm_lf"), "x");
    assert_eq!(source_label("_mim_lf"), "");
    assert_eq!(source_label("x_mim_lf_mim_lf"), "x_mim_lf");
}

#[test]
fn keywords_end_at_a_word_boundary() {
    let text = chars("LIST[4:?] OF x");
    let rest: String = match_keyword_prefix(&text, "LIST").unwrap().iter().collect();
    assert_eq!(rest, "[4:?] OF x");
    let text = chars("OF   x");
    let rest: String = match_keyword_prefix(&text, "OF").unwrap().iter().collect();
    assert_eq!(rest, "x");
    assert!(match_keyword_prefix(&chars("OFFSET"), "OF").is_none());
    assert!(match_keyword_prefix(&chars("OF_x"), "OF").is_none());
    assert!(match_keyword_prefix(&chars("OFé"), "OF").is_none());
    assert!(match_keyword_prefix(&chars("OF–"), "OF").is_some());
    assert!(match_keyword_prefix(&chars("of x"), "OF").is_none());
    assert!(match_keyword_prefix(&chars("OF"), "OF").unwrap().is_empty());
}

#[test]
fn identifiers_start_with_a_letter_or_underscore() {
    assert!(is_valid_identifier(&chars("a1_b")));
    assert!(is_valid_identifier(&chars("_x")));
    assert!(!is_valid_identifier(&chars("")));
    assert!(!is_valid_identifier(&chars("1a")));
    assert!(!is_valid_identifier(&chars("a-b")));
}

#[test]
fn redeclarations_name_the_attribute_after_the_last_dot() {
    assert_eq!(
        parse_self_redeclaration(&chars(" SELF\\Geometric_Item.Dim ")),
        Some("dim".to_string())
    );
    assert_eq!(parse_self_redeclaration(&chars("name")), None);
    assert_eq!(parse_self_redeclaration(&chars("SELF\\a.b c")), None);
    assert_eq!(parse_self_redeclaration(&chars("SELF\\a")), None);
}

#[test]
fn derive_targets_keep_their_supertype() {
    assert_eq!(
        parse_derive_lhs(&chars("SELF\\Curve.Dim")),
        Some(DerivedTarget { super_qual: Some("curve".to_string()), name: "dim".to_string() })
    );
    assert_eq!(
        parse_derive_lhs(&chars("Upper")),
        Some(DerivedTarget { super_qual: None, name: "upper".to_string() })
    );
    assert_eq!(parse_derive_lhs(&chars("SELF\\curve")), None);
    assert_eq!(parse_derive_lhs(&chars("two words")), None);
}

#[test]
fn headers_give_name_and_parents() {
    let block = "ENTITY Line\n SUBTYPE OF (Curve, Bounded_Item , );\n END_ENTITY;\n";
    assert_eq!(extract_entity_name(block), Some("line".to_string()));
    assert_eq!(extract_parents(block), strings(&["curve", "bounded_item"]));
    assert_eq!(extract_entity_name("TYPE x = REAL;"), None);
    assert!(extract_parents("ENTITY line;\n").is_empty());
    assert!(parents_in(None).is_empty());
    assert_eq!(parents_in(Some(" A,,B ".to_string())), strings(&["a", "b"]));
}

#[test]
fn sections_end_at_a_keyword_at_line_start() {
    let block = "ENTITY e;\n a : LIST OF UNIQUE x;\n DERIVE\n b : REAL := 1;\nWHERE\n wr1: TRUE;\nEND_ENTITY;\n";
    assert_eq!(
        find_attribute_section(block).unwrap().trim(),
        "a : LIST OF UNIQUE x;"
    );
    assert_eq!(find_derive_section(block).unwrap().trim(), "b : REAL := 1;");
    assert_eq!(find_attribute_section("ENTITY e"), None);
    assert_eq!(find_derive_section("ENTITY e;\n a : REAL;\nEND_ENTITY;\n"), None);
    let targets = extract_derived(block);
    assert_eq!(targets.len(), 1);
    assert_eq!(targets[0].name, "b");
}

#[test]
fn supertype_bodies_are_balanced() {
    assert_eq!(
        find_supertype_of_body("ENTITY e SUPERTYPE  OF (ONEOF (a, b));"),
        Some("ONEOF (a, b)".to_string())
    );
    assert_eq!(find_supertype_of_body("ENTITY e SUPERTYPE OF (a"), None);
    assert_eq!(find_supertype_of_body("ENTITY e SUBTYPE OF (a);"), None);
    assert_eq!(body_before_close("a (b) c) d"), Some("a (b) c".to_string()));
    assert_eq!(body_before_close("a (b)"), None);
}

#[test]
fn rejected_supertype_bodies_are_reported() {
    let mut warnings = Vec::new();
    assert_eq!(supertype_in(None, "e", &mut warnings), None);
    assert_eq!(supertype_in(Some("a".to_string()), "e", &mut warnings), Some(leaf("a")));
    assert!(warnings.is_empty());
    assert_eq!(supertype_in(Some("a,b".to_string()), "e", &mut warnings), None);
    assert_eq!(
        warnings,
        strings(&[
            "ENTITY e: SUPERTYPE OF parse error: trailing tokens at position 1: [Comma, Ident(\"b\")] (body=\"a,b\")"
        ])
    );
}

#[test]
fn supertype_errors_say_what_was_wrong() {
    assert_eq!(parse("  ").unwrap_err(), "empty SUPERTYPE body");
    assert_eq!(tokenize("a ? b").unwrap_err(), "unexpected character '?' at byte 2");
    assert_eq!(tokenize("a ' b").unwrap_err(), "unexpected character '\\'' at byte 2");
    assert_eq!(parse("ONEOF a").unwrap_err(), "expected LParen, got Ident(\"a\")");
    assert_eq!(parse("ONEOF").unwrap_err(), "expected LParen, got end of input");
    assert_eq!(parse("a AND )").unwrap_err(), "unexpected token RParen at term start");
    assert_eq!(parse("a ANDOR").unwrap_err(), "unexpected end of input at term start");
}

#[test]
fn grouping_changes_nothing() {
    assert_eq!(parse("((a))").unwrap(), parse("a").unwrap());
    assert_eq!(parse("(a AND b) ANDOR c").unwrap(), parse("a AND b ANDOR c").unwrap());
}

#[test]
fn conjunction_binds_before_choice() {
    let r = parse("A ANDOR b AND c").unwrap();
    assert_eq!(
        r,
        SupertypeExpr::AndOr {
            children: vec![leaf("a"), SupertypeExpr::And { children: vec![leaf("b"), leaf("c")] }],
        }
    );
}

#[test]
fn compositions_of_one_are_their_member() {
    assert_eq!(parse("ONEOF (a)").unwrap(), leaf("a"));
    assert_eq!(
        parse("ONEOF (a, b)").unwrap(),
        SupertypeExpr::OneOf { children: vec![leaf("a"), leaf("b")] }
    );
}

#[test]
fn type_blocks_give_their_alias() {
    let t = read_type_block("TYPE Label = STRING;\nEND_TYPE;\n").unwrap();
    assert_eq!(t.name, "label");
    assert_eq!(t.aliased, AttrType::Primitive("STRING".to_string()));
}

#[test]
fn type_blocks_are_refused_with_a_reason() {
    let err = |block: &str| read_type_block(block).unwrap_err();
    assert_eq!(err("TYPE\tx"), "TYPE prefix missing:\nTYPE\tx");
    assert_eq!(err("TYPE x;"), "TYPE missing '=':\nTYPE x;");
    assert_eq!(err("TYPE 1 = REAL;"), "TYPE invalid name \"1\"");
    assert_eq!(err("TYPE x = REAL"), "TYPE x: no terminating ';' for aliased repr");
    assert_eq!(
        err("TYPE x = \"odd\";"),
        "TYPE x: parse repr failed (unrecognised type repr: \"\\\"odd\\\"\") — repr was \"\\\"odd\\\"\""
    );
}

#[test]
fn type_texts_give_their_type() {
    let ok = |s: &str| parse_type_repr(s).unwrap();
    assert_eq!(ok("Cartesian_Point"), entity("cartesian_point"));
    assert_eq!(ok("OPTIONAL x"), AttrType::Optional(Box::new(entity("x"))));
    assert_eq!(
        ok("LIST [1:?] OF UNIQUE x"),
        AttrType::List(Box::new(entity("x")))
    );
    assert_eq!(ok("SET OF x"), AttrType::SetOf(Box::new(entity("x"))));
    assert_eq!(ok("BAG OF x"), AttrType::Bag(Box::new(entity("x"))));
    assert_eq!(
        ok("ARRAY [0:n] OF OPTIONAL x"),
        AttrType::Array(Box::new(entity("x")))
    );
    assert_eq!(ok("SELECT (A, B)"), AttrType::Select(strings(&["a", "b"])));
    assert_eq!(
        ok("ENUMERATION OF (UP, DOWN)"),
        AttrType::Enumeration(strings(&["up", "down"]))
    );
    assert_eq!(
        ok("ENUMERATION BASED_ON base WITH OF (LEFT)"),
        AttrType::Enumeration(strings(&["left"]))
    );
    assert_eq!(ok("STRING(16)"), AttrType::Primitive("STRING".to_string()));
    assert_eq!(ok("string (16) FIXED"), AttrType::Primitive("STRING".to_string()));
}

#[test]
fn type_texts_are_refused_with_a_reason() {
    let err = |s: &str| parse_type_repr(s).unwrap_err();
    assert_eq!(err("  "), "empty type repr");
    assert_eq!(err("LIST [1:2] x"), "LIST not followed by OF: \"x\"");
    assert_eq!(err("ENUMERATION (a)"), "ENUMERATION not followed by OF: \"(a)\"");
    assert_eq!(
        err("ENUMERATION BASED_ON x OF (a)"),
        "ENUMERATION BASED_ON without WITH: \"x OF (a)\""
    );
    assert_eq!(err("SELECT a"), "expected '(' at start of \"a\"");
    assert_eq!(err("SELECT (a"), "unterminated paren in \"(a\"");
    assert_eq!(err("a b"), "unrecognised type repr: \"a b\"");
}

#[test]
fn lists_are_shown_quoted() {
    assert_eq!(quote_list(&strings(&["a", "b\"c"])), "[\"a\", \"b\\\"c\"]");
    assert_eq!(quote_list(&Vec::new()), "[]");
}

#[test]
fn schemas_are_read_block_by_block() {
    let text = "SCHEMA s; (* header *)\n\
TYPE label = STRING; END_TYPE;\n\
ENTITY Shape\n ABSTRACT SUPERTYPE OF (ONEOF (Disc, Square));\n  name, note : label;\nEND_ENTITY;\n\
ENTITY Disc\n SUBTYPE OF (Shape);\n  SELF\\shape.name : OPTIONAL label;\n  r : ;\n  bad : two words;\nDERIVE\n  area : REAL := 1;\nEND_ENTITY;\n\
TYPE broken;\nEND_TYPE;\n\
END_SCHEMA;\n";
    let s = parse_express(text, "demo".to_string());
    assert_eq!(s.source_label, "demo");
    assert_eq!(s.entities.keys(), strings(&["disc", "shape"]));
    assert_eq!(s.types.keys(), strings(&["label"]));
    let shape = s.entities.get("shape").unwrap();
    assert!(shape.is_abstract);
    assert_eq!(shape.own_attrs.len(), 2);
    assert_eq!(shape.own_attrs[1].name, "note");
    assert_eq!(
        shape.supertype_expr,
        Some(SupertypeExpr::OneOf { children: vec![leaf("disc"), leaf("square")] })
    );
    let disc = s.entities.get("disc").unwrap();
    assert_eq!(disc.parents, strings(&["shape"]));
    assert!(disc.own_attrs.is_empty());
    assert_eq!(disc.redeclared_attrs.len(), 1);
    assert_eq!(disc.redeclared_attrs[0].ty, AttrType::Optional(Box::new(entity("label"))));
    assert_eq!(disc.derived_attrs.len(), 1);
    assert_eq!(
        s.parse_warnings,
        strings(&[
            "disc: ATTR type parse failed for [\"bad\"] (unrecognised type repr: \"two words\") — type was \"two words\"",
            "TYPE missing '=':\nTYPE broken;\nEND_TYPE;\n",
        ])
    );
}

#[test]
fn nameless_entities_are_reported() {
    let s = parse_express("ENTITY 9;\nEND_ENTITY;\n", "x".to_string());
    assert!(s.entities.is_empty());
    assert_eq!(
        s.parse_warnings,
        strings(&["ENTITY name extraction failed:\nENTITY 9;\nEND_ENTITY;\n"])
    );
}
