use step_io_blueprint::express::reader::{
    extract_attrs, extract_entity_name, process_entity_block, process_type_block,
    strip_block_comments,
};
use step_io_blueprint::express::{AttrSpec, AttrType};
use step_io_blueprint::names::Table;

fn parse_attrs_for(block: &str) -> Vec<AttrSpec> {
    let name = extract_entity_name(block).unwrap();
    let mut warnings = Vec::new();
    extract_attrs(block, &name, &mut warnings).0
}

fn parse_redeclared_for(block: &str) -> Vec<AttrSpec> {
    let name = extract_entity_name(block).unwrap();
    let mut warnings = Vec::new();
    extract_attrs(block, &name, &mut warnings).1
}

#[test]
fn redeclaration_primitive_narrowing() {
    let block = "ENTITY int_literal\n  SUBTYPE OF ( literal_number );\n    SELF\\literal_number.the_value : INTEGER;\nEND_ENTITY;";
    let own = parse_attrs_for(block);
    let redeclared = parse_redeclared_for(block);
    assert!(own.is_empty(), "redeclaration must not land in own_attrs");
    assert_eq!(redeclared.len(), 1);
    assert_eq!(redeclared[0].name, "the_value");
    match &redeclared[0].ty {
        AttrType::Primitive(p) => assert_eq!(p, "INTEGER"),
        other => panic!("expected INTEGER, got {other:?}"),
    }
}

#[test]
fn redeclaration_entity_ref_narrowing() {
    let block = "ENTITY annotation_curve_occurrence\n  SUBTYPE OF ( annotation_occurrence );\n    SELF\\styled_item.item : curve_or_curve_set;\nEND_ENTITY;";
    let own = parse_attrs_for(block);
    let redeclared = parse_redeclared_for(block);
    assert!(own.is_empty());
    assert_eq!(redeclared.len(), 1);
    assert_eq!(redeclared[0].name, "item");
    match &redeclared[0].ty {
        AttrType::Entity(n) => assert_eq!(n, "curve_or_curve_set"),
        other => panic!("expected Entity, got {other:?}"),
    }
}

#[test]
fn redeclaration_mixed_with_plain_attr() {
    let block = "ENTITY mixed\n  SUBTYPE OF ( parent );\n    extra : label;\n    SELF\\parent.item : narrowed_type;\nEND_ENTITY;";
    let own = parse_attrs_for(block);
    let redeclared = parse_redeclared_for(block);
    assert_eq!(own.len(), 1);
    assert_eq!(own[0].name, "extra");
    assert_eq!(redeclared.len(), 1);
    assert_eq!(redeclared[0].name, "item");
}

#[test]
fn parses_cartesian_point() {
    let block = "ENTITY cartesian_point\n  SUBTYPE OF ( point );\n    coordinates : LIST [1 : 3] OF length_measure;\nEND_ENTITY;";
    let attrs = parse_attrs_for(block);
    assert_eq!(attrs.len(), 1);
    assert_eq!(attrs[0].name, "coordinates");
    match &attrs[0].ty {
        AttrType::List(inner) => match inner.as_ref() {
            AttrType::Entity(n) => assert_eq!(n, "length_measure"),
            other => panic!("expected Entity inside LIST, got {other:?}"),
        },
        other => panic!("expected LIST, got {other:?}"),
    }
}

#[test]
fn parses_shape_aspect() {
    let block = "ENTITY shape_aspect\n  SUPERTYPE OF (\n      ONEOF (\n          contacting_feature,\n          datum,\n          datum_feature,\n          datum_target));\n  name : label;\n  description : text;\n  of_shape : product_definition_shape;\n  product_definitional : LOGICAL;\nEND_ENTITY;";
    let attrs = parse_attrs_for(block);
    let names: Vec<_> = attrs.iter().map(|a| a.name.as_str()).collect();
    assert_eq!(names, vec!["name", "description", "of_shape", "product_definitional"]);
    match &attrs[3].ty {
        AttrType::Primitive(p) => assert_eq!(p, "LOGICAL"),
        other => panic!("expected LOGICAL, got {other:?}"),
    }
}

#[test]
fn skips_derive_and_where_sections() {
    let block = "ENTITY representation_item;\n  name : label;\nDERIVE\n  derived_attr : INTEGER := 42;\nWHERE\n  WR1: TRUE;\nEND_ENTITY;";
    let attrs = parse_attrs_for(block);
    assert_eq!(attrs.len(), 1);
    assert_eq!(attrs[0].name, "name");
}

#[test]
fn detects_abstract_supertype() {
    let block = "ENTITY geometric_representation_item\n  ABSTRACT SUPERTYPE\n  SUBTYPE OF ( representation_item );\n  WHERE\n    WR1: TRUE;\nEND_ENTITY;";
    let mut entities = Table::new();
    let mut warnings = Vec::new();
    process_entity_block(block, &mut entities, &mut warnings);
    let e = entities.get("geometric_representation_item").expect("parsed");
    assert!(e.is_abstract);
    assert_eq!(e.parents, vec!["representation_item"]);
}

#[test]
fn strips_block_comments_helper() {
    let text = "ENTITY foo (* a comment *)\n  SUBTYPE OF ( bar );\n  x : INTEGER;\nEND_ENTITY;";
    let stripped = strip_block_comments(text);
    assert!(!stripped.contains("a comment"));
    assert!(stripped.contains("ENTITY foo"));
}

#[test]
fn parses_multi_line_attr() {
    let block = "ENTITY foo;\n  bar : LIST [1 : ?] OF\n         length_measure;\n  baz : SET OF surface;\nEND_ENTITY;";
    let attrs = parse_attrs_for(block);
    assert_eq!(attrs.len(), 2);
    assert_eq!(attrs[0].name, "bar");
    assert_eq!(attrs[1].name, "baz");
}

#[test]
fn parses_select_select_and_optional() {
    let block = "ENTITY foo;\n  a : OPTIONAL my_select;\n  b : SELECT (alpha, beta);\nEND_ENTITY;";
    let attrs = parse_attrs_for(block);
    assert_eq!(attrs.len(), 2);
    match &attrs[0].ty {
        AttrType::Optional(inner) => match inner.as_ref() {
            AttrType::Entity(n) => assert_eq!(n, "my_select"),
            other => panic!("expected Entity inside OPTIONAL, got {other:?}"),
        },
        other => panic!("expected OPTIONAL, got {other:?}"),
    }
    match &attrs[1].ty {
        AttrType::Select(names) => assert_eq!(names, &vec!["alpha".to_string(), "beta".to_string()]),
        other => panic!("expected SELECT, got {other:?}"),
    }
}

#[test]
fn parses_set_bag_array() {
    for (kw, ctor_check) in [
        ("SET", "SET"),
        ("BAG", "BAG"),
        ("ARRAY", "ARRAY"),
    ] {
        let block = format!("ENTITY foo;\n  x : {kw} [1 : 5] OF point;\nEND_ENTITY;");
        let attrs = parse_attrs_for(&block);
        assert_eq!(attrs.len(), 1);
        let ok = match &attrs[0].ty {
            AttrType::SetOf(_) if ctor_check == "SET" => true,
            AttrType::Bag(_) if ctor_check == "BAG" => true,
            AttrType::Array(_) if ctor_check == "ARRAY" => true,
            _ => false,
        };
        assert!(ok, "expected {ctor_check} for {kw}, got {:?}", attrs[0].ty);
    }
}

#[test]
fn parses_primitives_with_size() {
    let block = "ENTITY foo;\n  s : STRING(20);\n  s2 : STRING;\n  i : INTEGER;\n  r : REAL;\n  l : LOGICAL;\nEND_ENTITY;";
    let attrs = parse_attrs_for(block);
    let prims: Vec<&str> = attrs.iter().filter_map(|a| match &a.ty {
        AttrType::Primitive(p) => Some(p.as_str()),
        _ => None,
    }).collect();
    assert_eq!(prims, vec!["STRING", "STRING", "INTEGER", "REAL", "LOGICAL"]);
}

#[test]
fn parses_type_alias() {
    let block = "TYPE length_measure = REAL;\n  END_TYPE;\n";
    let mut types = Table::new();
    let mut warnings = Vec::new();
    process_type_block(block, &mut types, &mut warnings);
    let td = types.get("length_measure").expect("parsed");
    match &td.aliased {
        AttrType::Primitive(p) => assert_eq!(p, "REAL"),
        other => panic!("expected REAL, got {other:?}"),
    }
    assert!(warnings.is_empty(), "warnings: {warnings:?}");
}

#[test]
fn parses_type_select() {
    let block = "TYPE shape_definition = SELECT\n    ( shape_aspect,\n     shape_aspect_relationship,\n     property_definition );\n  END_TYPE;\n";
    let mut types = Table::new();
    let mut warnings = Vec::new();
    process_type_block(block, &mut types, &mut warnings);
    let td = types.get("shape_definition").expect("parsed");
    match &td.aliased {
        AttrType::Select(names) => assert_eq!(
            names,
            &vec![
                "shape_aspect".to_string(),
                "shape_aspect_relationship".to_string(),
                "property_definition".to_string(),
            ]
        ),
        other => panic!("expected SELECT, got {other:?}"),
    }
}

#[test]
fn parses_type_enumeration() {
    let block = "TYPE actuated_direction = ENUMERATION OF\n    ( bidirectional,\n     positive_only,\n     negative_only,\n     not_actuated );\n  END_TYPE;\n";
    let mut types = Table::new();
    let mut warnings = Vec::new();
    process_type_block(block, &mut types, &mut warnings);
    let td = types.get("actuated_direction").expect("parsed");
    match &td.aliased {
        AttrType::Enumeration(names) => assert_eq!(names.len(), 4),
        other => panic!("expected ENUMERATION, got {other:?}"),
    }
}

#[test]
fn parses_type_with_where_clause() {
    let block = "TYPE day_in_year_number = INTEGER;\n  WHERE\n    wr1: ( ( 1 <= SELF ) AND ( SELF <= 366 ) );\n  END_TYPE;\n";
    let mut types = Table::new();
    let mut warnings = Vec::new();
    process_type_block(block, &mut types, &mut warnings);
    let td = types.get("day_in_year_number").expect("parsed");
    match &td.aliased {
        AttrType::Primitive(p) => assert_eq!(p, "INTEGER"),
        other => panic!("expected INTEGER, got {other:?}"),
    }
}

#[test]
fn parses_type_list_alias() {
    let block = "TYPE common_datum_list = LIST [2 : ?] OF datum_reference_element;\n  END_TYPE;\n";
    let mut types = Table::new();
    let mut warnings = Vec::new();
    process_type_block(block, &mut types, &mut warnings);
    let td = types.get("common_datum_list").expect("parsed");
    match &td.aliased {
        AttrType::List(inner) => match inner.as_ref() {
            AttrType::Entity(n) => assert_eq!(n, "datum_reference_element"),
            other => panic!("expected Entity inside LIST, got {other:?}"),
        },
        other => panic!("expected LIST, got {other:?}"),
    }
}
