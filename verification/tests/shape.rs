use step_io_blueprint::infer::arena::ArenaSpec;
use step_io_blueprint::infer::prune::UsageRecord;
use step_io_blueprint::infer::shape::{
    compile_entities, missing_entries_message, missing_file_message, validate,
    ConcreteSupertypeShape, Validation,
};
use step_io_blueprint::infer::variant::VariantSpec;
use step_io_blueprint::names::{NameSet, Table};

fn name_set(names: &[&str]) -> NameSet {
    let mut out = NameSet::new();
    for n in names {
        out.insert(n.to_string());
    }
    out
}

fn provided_map(pairs: &[(&str, ConcreteSupertypeShape)]) -> Table<ConcreteSupertypeShape> {
    let mut out = Table::new();
    for (k, v) in pairs {
        out.insert(k.to_string(), *v);
    }
    out
}

fn variants_with(pairs: &[(&str, VariantSpec)]) -> Table<VariantSpec> {
    let mut out = Table::new();
    for (k, v) in pairs {
        out.insert(k.to_string(), v.clone());
    }
    out
}

fn arenas_with(pairs: &[(&str, &str)]) -> Table<ArenaSpec> {
    let mut out = Table::new();
    for (g, a) in pairs {
        out.insert(g.to_string(), ArenaSpec { arena: a.to_string() });
    }
    out
}

fn usage_with(pairs: &[(&str, usize)]) -> Table<UsageRecord> {
    let mut out = Table::new();
    for (k, n) in pairs {
        out.insert(
            k.to_string(),
            UsageRecord {
                instance_count: *n,
                complex_part_count: 0,
                co_instantiated_with: Vec::new(),
            },
        );
    }
    out
}

#[test]
fn validate_complete_match_counts_shapes() {
    let required = name_set(&["face_bound", "styled_item"]);
    let provided = provided_map(&[
        ("face_bound", ConcreteSupertypeShape::Carrier),
        ("styled_item", ConcreteSupertypeShape::BaseParallel),
    ]);
    match validate(&required, &provided) {
        Validation::Complete {
            carrier,
            base_parallel,
            extras,
        } => {
            assert_eq!(carrier, 1);
            assert_eq!(base_parallel, 1);
            assert!(extras.is_empty());
        }
        Validation::Missing(_) => panic!("expected Ok"),
    }
}

#[test]
fn shape_validate_missing_entry_returns_missing_list() {
    let required = name_set(&["face_bound", "styled_item"]);
    let provided = provided_map(&[("face_bound", ConcreteSupertypeShape::Carrier)]);
    match validate(&required, &provided) {
        Validation::Missing(missing) => {
            assert_eq!(missing, vec!["styled_item".to_string()]);
        }
        Validation::Complete { .. } => panic!("expected Missing"),
    }
}

#[test]
fn shape_validate_extra_entry_passes_with_warning_payload() {
    let required = name_set(&["face_bound"]);
    let provided = provided_map(&[
        ("face_bound", ConcreteSupertypeShape::Carrier),
        ("cartesian_point", ConcreteSupertypeShape::Carrier),
    ]);
    match validate(&required, &provided) {
        Validation::Complete {
            carrier,
            base_parallel,
            extras,
        } => {
            assert_eq!(carrier, 1);
            assert_eq!(base_parallel, 0);
            assert_eq!(extras, vec!["cartesian_point".to_string()]);
        }
        Validation::Missing(_) => panic!("expected Ok"),
    }
}

#[test]
fn shape_missing_file_message_lists_required() {
    let required = name_set(&["face_bound", "styled_item"]);
    let msg = missing_file_message(&required);
    assert!(msg.contains("face_bound"));
    assert!(msg.contains("styled_item"));
    assert!(msg.contains("required ConcreteSupertype entities (2)"));
}

#[test]
fn shape_missing_entries_message_lists_missing() {
    let msg = missing_entries_message(&vec!["styled_item".into()]);
    assert!(msg.contains("styled_item"));
    assert!(msg.contains("missing 1 required"));
}

#[test]
fn compile_entities_basic() {
    let variants = variants_with(&[
        ("cartesian_point", VariantSpec::SingleStruct),
        (
            "line",
            VariantSpec::InEnum {
                enum_name: "curve".into(),
            },
        ),
        (
            "curve",
            VariantSpec::EnumBase {
                enum_name: "curve".into(),
            },
        ),
        ("face_bound", VariantSpec::ConcreteSupertype),
    ]);
    let arenas = arenas_with(&[
        ("cartesian_point", "cartesian_point"),
        ("curve", "curve"),
        ("face_bound", "face_bound"),
    ]);
    let shapes = provided_map(&[("face_bound", ConcreteSupertypeShape::Carrier)]);
    let usage = usage_with(&[
        ("cartesian_point", 100),
        ("line", 50),
        ("curve", 0),
        ("face_bound", 7),
    ]);

    let out = compile_entities(&variants, &arenas, &shapes, &usage).unwrap();

    assert_eq!(out.get("cartesian_point").unwrap().group, "cartesian_point");
    assert_eq!(out.get("cartesian_point").unwrap().arena, "cartesian_point");
    assert_eq!(out.get("cartesian_point").unwrap().instance_count, 100);
    assert!(out.get("cartesian_point").unwrap().shape.is_none());

    assert_eq!(out.get("line").unwrap().group, "curve");
    assert_eq!(out.get("line").unwrap().arena, "curve");

    assert_eq!(out.get("curve").unwrap().group, "curve");
    assert_eq!(out.get("curve").unwrap().arena, "curve");

    assert_eq!(out.get("face_bound").unwrap().group, "face_bound");
    assert_eq!(
        out.get("face_bound").unwrap().shape,
        Some(ConcreteSupertypeShape::Carrier)
    );
}

#[test]
fn compile_entities_nested_field_inherits_parent_group() {
    let variants = variants_with(&[
        ("parent", VariantSpec::SingleStruct),
        (
            "child",
            VariantSpec::NestedField {
                into: "parent".into(),
                as_field: "child".into(),
                added_attr_count: 1,
            },
        ),
    ]);
    let arenas = arenas_with(&[("parent", "parent")]);
    let shapes = Table::new();
    let usage = usage_with(&[("parent", 1), ("child", 0)]);

    let out = compile_entities(&variants, &arenas, &shapes, &usage).unwrap();

    assert_eq!(out.get("child").unwrap().group, "parent");
    assert_eq!(out.get("child").unwrap().arena, "parent");
}

#[test]
fn compile_entities_merged_into_follows_chain() {
    let variants = variants_with(&[
        ("a", VariantSpec::SingleStruct),
        (
            "b",
            VariantSpec::MergedInto {
                target: "a".into(),
                chain: vec![],
            },
        ),
        (
            "c",
            VariantSpec::MergedInto {
                target: "b".into(),
                chain: vec![],
            },
        ),
    ]);
    let arenas = arenas_with(&[("a", "a")]);
    let shapes = Table::new();
    let usage = Table::new();

    let out = compile_entities(&variants, &arenas, &shapes, &usage).unwrap();

    assert_eq!(out.get("b").unwrap().group, "a");
    assert_eq!(out.get("c").unwrap().group, "a");
    assert_eq!(out.get("c").unwrap().arena, "a");
}
