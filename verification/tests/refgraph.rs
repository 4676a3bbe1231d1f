use step_io_blueprint::express::{AttrSpec, AttrType, EntitySchema, Schema, TypeDef};
use step_io_blueprint::infer::refgraph::build;
use step_io_blueprint::names::Table;

fn schema(label: &str, ents: Vec<EntitySchema>, types: Vec<TypeDef>) -> Schema {
    let mut entities = Table::new();
    for e in ents {
        entities.insert(e.name.clone(), e);
    }
    let mut t = Table::new();
    for td in types {
        t.insert(td.name.clone(), td);
    }
    Schema {
        source_label: label.to_string(),
        entities,
        types: t,
        parse_warnings: Vec::new(),
    }
}

fn ent(name: &str, parents: &[&str], attrs: Vec<(&str, AttrType)>) -> EntitySchema {
    EntitySchema {
        name: name.to_string(),
        parents: parents.iter().map(|s| s.to_string()).collect(),
        own_attrs: attrs
            .into_iter()
            .map(|(n, ty)| AttrSpec {
                name: n.to_string(),
                ty,
            })
            .collect(),
        redeclared_attrs: Vec::new(),
        is_abstract: false,
        supertype_expr: None,
        derived_attrs: Vec::new(),
    }
}

#[test]
fn cross_schema_attr_conflict_recorded() {
    let a = schema(
        "a",
        vec![ent(
            "foo",
            &[],
            vec![("x", AttrType::Primitive("INTEGER".into()))],
        )],
        vec![],
    );
    let b = schema(
        "b",
        vec![ent(
            "foo",
            &[],
            vec![("x", AttrType::Primitive("REAL".into()))],
        )],
        vec![],
    );
    let g = build(&[a, b]);
    assert_eq!(g.attr_conflicts.len(), 1);
    assert!(g.attr_conflicts.get("foo").unwrap().contains_key("x"));
}

#[test]
fn order_of_schemas_changes_only_orders() {
    let integer = || AttrType::Primitive("INTEGER".into());
    let real = || AttrType::Primitive("REAL".into());
    let a = || {
        let mut bar = ent("bar", &[], vec![]);
        bar.is_abstract = true;
        schema("a", vec![ent("foo", &["p", "q"], vec![("x", integer())]), bar], vec![])
    };
    let b = || schema("b", vec![ent("foo", &["q", "r"], vec![("x", real())])], vec![]);
    let c = || schema("c", vec![ent("bar", &["foo"], vec![("y", real())])], vec![]);
    let one = build(&[a(), b(), c()]);
    let other = build(&[c(), b(), a()]);
    assert_eq!(one.entity_parents.keys(), other.entity_parents.keys());
    assert_eq!(one.entity_parents.get("foo"), Some(&vec!["p".into(), "q".into(), "r".into()]));
    assert_eq!(other.entity_parents.get("foo"), Some(&vec!["q".into(), "r".into(), "p".into()]));
    assert_eq!(one.abstract_entities.names(), other.abstract_entities.names());
    assert_eq!(one.abstract_entities.names(), vec!["bar"]);
    assert_eq!(one.attr_conflicts.keys(), vec!["foo"]);
    assert_eq!(other.attr_conflicts.keys(), vec!["foo"]);
    assert_eq!(one.attr_conflicts.get("foo").unwrap().keys(), vec!["x"]);
    assert_eq!(other.attr_conflicts.get("foo").unwrap().keys(), vec!["x"]);
}

#[test]
fn parents_are_united_once() {
    let a = schema("a", vec![ent("foo", &["p", "q", "p"], vec![])], vec![]);
    let b = schema("b", vec![ent("foo", &["q", "r", "r"], vec![])], vec![]);
    let g = build(&[a, b]);
    assert_eq!(g.entity_parents.get("foo"), Some(&vec!["p".into(), "q".into(), "r".into()]));
}
