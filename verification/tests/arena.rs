use step_io_blueprint::infer::arena::compute_groups;
use step_io_blueprint::infer::variant::VariantSpec;
use step_io_blueprint::names::Table;

#[test]
fn single_struct_becomes_own_group() {
    let mut variants = Table::new();
    variants.insert("foo".into(), VariantSpec::SingleStruct);
    let groups = compute_groups(&variants);
    assert_eq!(groups.len(), 1);
    assert!(!groups.get("foo").unwrap().is_enum);
}

#[test]
fn enum_members_collected_into_one_group() {
    let mut variants = Table::new();
    for v in ["plane", "cylinder", "sphere"] {
        variants.insert(
            v.into(),
            VariantSpec::InEnum {
                enum_name: "surface".into(),
            },
        );
    }
    let groups = compute_groups(&variants);
    assert_eq!(groups.len(), 1);
    assert!(groups.get("surface").unwrap().is_enum);
    assert_eq!(
        groups.get("surface").unwrap().members,
        vec![
            "cylinder".to_string(),
            "plane".to_string(),
            "sphere".to_string()
        ]
    );
}

#[test]
fn nested_field_does_not_create_group() {
    let mut variants = Table::new();
    variants.insert(
        "rational_b_spline".into(),
        VariantSpec::NestedField {
            into: "b_spline".into(),
            as_field: "weights".into(),
            added_attr_count: 1,
        },
    );
    variants.insert("b_spline".into(), VariantSpec::SingleStruct);
    let groups = compute_groups(&variants);
    assert_eq!(groups.len(), 1);
    assert!(groups.contains_key("b_spline"));
    assert!(!groups.contains_key("rational_b_spline"));
}
