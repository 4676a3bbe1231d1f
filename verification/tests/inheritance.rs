use step_io_blueprint::express::{EntitySchema, Schema};
use step_io_blueprint::inheritance::{ancestors, root_supertype};
use step_io_blueprint::names::Table;

fn schema_with(entries: &[(&str, &[&str])]) -> Schema {
    let mut entities = Table::new();
    for (name, parents) in entries {
        entities.insert(
            name.to_string(),
            EntitySchema {
                name: name.to_string(),
                parents: parents.iter().map(|s| s.to_string()).collect(),
                own_attrs: Vec::new(),
                redeclared_attrs: Vec::new(),
                is_abstract: false,
                supertype_expr: None,
                derived_attrs: Vec::new(),
            },
        );
    }
    Schema {
        source_label: "test".into(),
        entities,
        types: Table::new(),
        parse_warnings: Vec::new(),
    }
}

#[test]
fn cartesian_point_chain() {
    let s = schema_with(&[
        ("representation_item", &[]),
        ("geometric_representation_item", &["representation_item"]),
        ("point", &["geometric_representation_item"]),
        ("cartesian_point", &["point"]),
    ]);
    assert_eq!(
        root_supertype("cartesian_point", &s).as_deref(),
        Some("representation_item")
    );
    let anc = ancestors("cartesian_point", &s);
    assert_eq!(
        anc,
        vec![
            "point".to_string(),
            "geometric_representation_item".to_string(),
            "representation_item".to_string(),
        ]
    );
}
