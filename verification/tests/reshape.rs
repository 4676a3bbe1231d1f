use step_io_blueprint::infer::reshape::{
    apply_anchors, apply_recasts, apply_splits_merges, collapse_single_child_enum_bases,
    prune_empty_enum_bases, validate_anchors, validate_recasts_enum_of, AnchorEntry, AnchorsFile,
    FieldsStrategy, MergeEntry, MergesFile, RecastEntry, RecastsFile, SplitEntry, SplitVariant,
    SplitsFile,
};
use step_io_blueprint::infer::shape::{ConcreteSupertypeShape, EntitySummary};
use step_io_blueprint::infer::variant::VariantSpec;
use step_io_blueprint::names::{Duplicate, Table};

fn one_split(key: &str, entry: SplitEntry) -> Table<SplitEntry> {
    let mut out = Table::new();
    out.insert(key.to_string(), entry);
    out
}

fn one_merge(key: &str, entry: MergeEntry) -> Table<MergeEntry> {
    let mut out = Table::new();
    out.insert(key.to_string(), entry);
    out
}

fn one_recast(key: &str, entry: RecastEntry) -> Table<RecastEntry> {
    let mut out = Table::new();
    out.insert(key.to_string(), entry);
    out
}

fn one_anchor(key: &str, entry: AnchorEntry) -> Table<AnchorEntry> {
    let mut out = Table::new();
    out.insert(key.to_string(), entry);
    out
}

fn summary(variant: VariantSpec, arena: &str) -> EntitySummary {
    EntitySummary {
        variant,
        group: arena.to_string(),
        arena: arena.to_string(),
        shape: None,
        instance_count: 0,
        complex_part_count: 0,
        co_instantiated_with: Vec::new(),
        split_from: None,
        split_context: None,
        merge_absorbs: Vec::new(),
        fields_union: false,
        reasons: None,
    }
}

#[test]
fn empty_inputs_yield_verbatim_copy() {
    let mut entities = Table::new();
    entities.insert("a".into(), summary(VariantSpec::SingleStruct, "a"));
    entities.insert("b".into(), summary(VariantSpec::SingleStruct, "b"));
    let splits = SplitsFile::default();
    let merges = MergesFile::default();
    let out = apply_splits_merges(&entities, &splits, &merges).unwrap();
    assert_eq!(out.len(), 2);
    assert!(out.contains_key("a"));
    assert!(out.contains_key("b"));
    for i in 0..out.len() {
        let v = out.value_at(i);
        assert!(v.split_from.is_none());
        assert!(v.merge_absorbs.is_empty());
    }
}

#[test]
fn split_one_entity_into_two() {
    let mut entities = Table::new();
    entities.insert(
        "cartesian_point".into(),
        summary(VariantSpec::SingleStruct, "cartesian_point"),
    );
    let splits = SplitsFile {
        split: one_split(
            "cartesian_point",
            SplitEntry {
                context_signal: "is_2d".into(),
                variants: vec![
                    SplitVariant {
                        name: "cartesian_point".into(),
                        suffix: "3d".into(),
                        arena: "cartesian_point".into(),
                        kind: None,
                        enum_of: None,
                    },
                    SplitVariant {
                        name: "cartesian_point_2d".into(),
                        suffix: "2d".into(),
                        arena: "cartesian_point_2d".into(),
                        kind: None,
                        enum_of: None,
                    },
                ],
                reasons: None,
            },
        ),
    };
    let merges = MergesFile::default();
    let out = apply_splits_merges(&entities, &splits, &merges).unwrap();
    assert_eq!(out.len(), 2);
    assert!(out.get("cartesian_point").unwrap().split_from.is_none());
    assert_eq!(
        out.get("cartesian_point_2d").unwrap().split_from.as_deref(),
        Some("cartesian_point")
    );
    assert_eq!(
        out.get("cartesian_point_2d").unwrap().split_context.as_deref(),
        Some("is_2d")
    );
    assert_eq!(out.get("cartesian_point_2d").unwrap().arena, "cartesian_point_2d");
}

#[test]
fn merge_three_entities_into_one() {
    let mut entities = Table::new();
    for name in ["b_spline_curve", "rational_b_spline_curve", "quasi_uniform_curve"] {
        entities.insert(name.into(), summary(VariantSpec::SingleStruct, name));
    }
    let splits = SplitsFile::default();
    let merges = MergesFile {
        merge: one_merge(
            "nurbs",
            MergeEntry {
                target_name: "nurbs_curve".into(),
                arena: "nurbs_curve".into(),
                absorbs: vec![
                    "b_spline_curve".into(),
                    "rational_b_spline_curve".into(),
                    "quasi_uniform_curve".into(),
                ],
                fields_strategy: FieldsStrategy::Union,
                reasons: None,
                kind: None,
                enum_of: None,
            },
        ),
    };
    let out = apply_splits_merges(&entities, &splits, &merges).unwrap();
    assert_eq!(out.len(), 1);
    let nurbs = out.get("nurbs_curve").unwrap();
    assert_eq!(nurbs.merge_absorbs.len(), 3);
    assert!(nurbs.fields_union);
    assert_eq!(nurbs.arena, "nurbs_curve");
}

#[test]
fn merge_first_strategy_clears_union_flag() {
    let mut entities = Table::new();
    entities.insert("a".into(), summary(VariantSpec::SingleStruct, "a"));
    entities.insert("b".into(), summary(VariantSpec::SingleStruct, "b"));
    let splits = SplitsFile::default();
    let merges = MergesFile {
        merge: one_merge(
            "m",
            MergeEntry {
                target_name: "ab".into(),
                arena: "ab".into(),
                absorbs: vec!["a".into(), "b".into()],
                fields_strategy: FieldsStrategy::First,
                reasons: None,
                kind: None,
                enum_of: None,
            },
        ),
    };
    let out = apply_splits_merges(&entities, &splits, &merges).unwrap();
    assert!(!out.get("ab").unwrap().fields_union);
}

#[test]
fn shape_passes_through_split() {
    let mut entities = Table::new();
    let mut s = summary(VariantSpec::ConcreteSupertype, "face_bound");
    s.shape = Some(ConcreteSupertypeShape::Carrier);
    entities.insert("face_bound".into(), s);
    let splits = SplitsFile::default();
    let merges = MergesFile::default();
    let out = apply_splits_merges(&entities, &splits, &merges).unwrap();
    assert_eq!(out.get("face_bound").unwrap().shape, Some(ConcreteSupertypeShape::Carrier));
}

fn split_variant(
    name: &str,
    arena: &str,
    kind: Option<&str>,
    enum_of: Option<&str>,
) -> SplitVariant {
    SplitVariant {
        name: name.to_string(),
        suffix: name.to_string(),
        arena: arena.to_string(),
        kind: kind.map(str::to_string),
        enum_of: enum_of.map(str::to_string),
    }
}

fn direction_split_with(second: SplitVariant, reasons: Option<&str>) -> SplitsFile {
    SplitsFile {
        split: one_split(
            "direction",
            SplitEntry {
                context_signal: "is_2d".into(),
                variants: vec![
                    split_variant("direction", "direction", None, None),
                    second,
                ],
                reasons: reasons.map(str::to_string),
            },
        ),
    }
}

fn direction_seed() -> Table<EntitySummary> {
    let mut entities = Table::new();
    entities.insert(
        "direction".into(),
        summary(
            VariantSpec::InEnum {
                enum_name: "geometric_representation_item".into(),
            },
            "direction",
        ),
    );
    entities
}

#[test]
fn split_variant_kind_override_single_struct() {
    let entities = direction_seed();
    let splits = direction_split_with(
        split_variant("direction_2d", "direction_2d", Some("single_struct"), None),
        None,
    );
    let out = apply_splits_merges(&entities, &splits, &MergesFile::default()).unwrap();
    assert!(matches!(out.get("direction_2d").unwrap().variant, VariantSpec::SingleStruct));
    assert!(matches!(
        out.get("direction").unwrap().variant,
        VariantSpec::InEnum { ref enum_name } if enum_name == "geometric_representation_item"
    ));
}

#[test]
fn split_variant_kind_override_in_enum_with_enum_of() {
    let entities = direction_seed();
    let splits = direction_split_with(
        split_variant(
            "direction_2d",
            "direction_2d",
            Some("in_enum"),
            Some("planar_only"),
        ),
        None,
    );
    let out = apply_splits_merges(&entities, &splits, &MergesFile::default()).unwrap();
    match &out.get("direction_2d").unwrap().variant {
        VariantSpec::InEnum { enum_name } => assert_eq!(enum_name, "planar_only"),
        other => panic!("expected InEnum, got {other:?}"),
    }
}

#[test]
fn split_variant_in_enum_missing_enum_of_errors() {
    let entities = direction_seed();
    let splits = direction_split_with(
        split_variant("direction_2d", "direction_2d", Some("in_enum"), None),
        None,
    );
    let err = apply_splits_merges(&entities, &splits, &MergesFile::default()).unwrap_err();
    assert!(err.contains("split.direction.variants[1]"));
    assert!(err.contains("requires enum_of"));
}

#[test]
fn split_variant_orphan_enum_of_errors() {
    let entities = direction_seed();
    let splits = direction_split_with(
        split_variant("direction_2d", "direction_2d", None, Some("anything")),
        None,
    );
    let err = apply_splits_merges(&entities, &splits, &MergesFile::default()).unwrap_err();
    assert!(err.contains("split.direction.variants[1]"));
    assert!(err.contains("enum_of set without kind"));
}

#[test]
fn split_variant_single_struct_with_enum_of_errors() {
    let entities = direction_seed();
    let splits = direction_split_with(
        split_variant(
            "direction_2d",
            "direction_2d",
            Some("single_struct"),
            Some("anything"),
        ),
        None,
    );
    let err = apply_splits_merges(&entities, &splits, &MergesFile::default()).unwrap_err();
    assert!(err.contains("split.direction.variants[1]"));
    assert!(err.contains("incompatible"));
}

#[test]
fn split_variant_unsupported_kind_errors() {
    let entities = direction_seed();
    let splits = direction_split_with(
        split_variant("direction_2d", "direction_2d", Some("weird_kind"), None),
        None,
    );
    let err = apply_splits_merges(&entities, &splits, &MergesFile::default()).unwrap_err();
    assert!(err.contains("split.direction.variants[1]"));
    assert!(err.contains("unsupported kind override 'weird_kind'"));
}

#[test]
fn split_reasons_lands_on_first_variant_only() {
    let entities = direction_seed();
    let splits = direction_split_with(
        split_variant("direction_2d", "direction_2d", Some("single_struct"), None),
        Some("2D direction lives outside the 3D enum"),
    );
    let out = apply_splits_merges(&entities, &splits, &MergesFile::default()).unwrap();
    assert_eq!(
        out.get("direction").unwrap().reasons.as_deref(),
        Some("2D direction lives outside the 3D enum")
    );
    assert_eq!(out.get("direction_2d").unwrap().reasons, None);
    assert_eq!(out.get("direction_2d").unwrap().split_from.as_deref(), Some("direction"));
}

#[test]
fn merge_reasons_lands_on_target() {
    let mut entities = Table::new();
    for name in ["b_spline_curve", "rational_b_spline_curve"] {
        entities.insert(name.into(), summary(VariantSpec::SingleStruct, name));
    }
    let merges = MergesFile {
        merge: one_merge(
            "nurbs",
            MergeEntry {
                target_name: "nurbs_curve".into(),
                arena: "nurbs_curve".into(),
                absorbs: vec![
                    "b_spline_curve".into(),
                    "rational_b_spline_curve".into(),
                ],
                fields_strategy: FieldsStrategy::Union,
                reasons: Some("Mathematical equivalence — unify under one type".into()),
                kind: None,
                enum_of: None,
            },
        ),
    };
    let out = apply_splits_merges(&entities, &SplitsFile::default(), &merges).unwrap();
    assert_eq!(
        out.get("nurbs_curve").unwrap().reasons.as_deref(),
        Some("Mathematical equivalence — unify under one type")
    );
}

fn merge_with_override(
    target: &str,
    absorbs: Vec<&str>,
    kind: Option<&str>,
    enum_of: Option<&str>,
) -> MergesFile {
    MergesFile {
        merge: one_merge(
            "m",
            MergeEntry {
                target_name: target.to_string(),
                arena: target.to_string(),
                absorbs: absorbs.into_iter().map(String::from).collect(),
                fields_strategy: FieldsStrategy::Union,
                reasons: None,
                kind: kind.map(str::to_string),
                enum_of: enum_of.map(str::to_string),
            },
        ),
    }
}

fn merge_seed(absorbs: &[&str]) -> Table<EntitySummary> {
    let mut entities = Table::new();
    for name in absorbs {
        entities.insert(
            (*name).to_string(),
            summary(VariantSpec::SingleStruct, name),
        );
    }
    entities
}

#[test]
fn merge_target_kind_override_single_struct() {
    let entities = merge_seed(&["a", "b"]);
    let merges = merge_with_override("ab", vec!["a", "b"], Some("single_struct"), None);
    let out = apply_splits_merges(&entities, &SplitsFile::default(), &merges).unwrap();
    assert!(matches!(out.get("ab").unwrap().variant, VariantSpec::SingleStruct));
    assert_eq!(out.get("ab").unwrap().group, "ab");
    assert_eq!(out.get("ab").unwrap().arena, "ab");
}

#[test]
fn merge_target_kind_override_in_enum_with_enum_of() {
    let entities = merge_seed(&["a", "b"]);
    let merges = merge_with_override("ab", vec!["a", "b"], Some("in_enum"), Some("curve"));
    let out = apply_splits_merges(&entities, &SplitsFile::default(), &merges).unwrap();
    match &out.get("ab").unwrap().variant {
        VariantSpec::InEnum { enum_name } => assert_eq!(enum_name, "curve"),
        other => panic!("expected InEnum, got {other:?}"),
    }
    assert_eq!(out.get("ab").unwrap().group, "curve");
    assert_eq!(out.get("ab").unwrap().arena, "ab");
}

#[test]
fn merge_target_in_enum_missing_enum_of_errors() {
    let entities = merge_seed(&["a", "b"]);
    let merges = merge_with_override("ab", vec!["a", "b"], Some("in_enum"), None);
    let err = apply_splits_merges(&entities, &SplitsFile::default(), &merges).unwrap_err();
    assert!(err.contains("merges.toml"));
    assert!(err.contains("merge.m"));
    assert!(err.contains("requires enum_of"));
}

#[test]
fn merge_target_orphan_enum_of_errors() {
    let entities = merge_seed(&["a", "b"]);
    let merges = merge_with_override("ab", vec!["a", "b"], None, Some("curve"));
    let err = apply_splits_merges(&entities, &SplitsFile::default(), &merges).unwrap_err();
    assert!(err.contains("merges.toml"));
    assert!(err.contains("merge.m"));
    assert!(err.contains("enum_of set without kind"));
}

#[test]
fn merge_target_single_struct_with_enum_of_errors() {
    let entities = merge_seed(&["a", "b"]);
    let merges = merge_with_override(
        "ab",
        vec!["a", "b"],
        Some("single_struct"),
        Some("curve"),
    );
    let err = apply_splits_merges(&entities, &SplitsFile::default(), &merges).unwrap_err();
    assert!(err.contains("merges.toml"));
    assert!(err.contains("merge.m"));
    assert!(err.contains("incompatible"));
}

#[test]
fn merge_target_unsupported_kind_errors() {
    let entities = merge_seed(&["a", "b"]);
    let merges = merge_with_override("ab", vec!["a", "b"], Some("weird_kind"), None);
    let err = apply_splits_merges(&entities, &SplitsFile::default(), &merges).unwrap_err();
    assert!(err.contains("merges.toml"));
    assert!(err.contains("merge.m"));
    assert!(err.contains("unsupported kind override 'weird_kind'"));
}

fn recast_with(
    key: &str,
    kind: &str,
    enum_of: Option<&str>,
    arena: &str,
    entities: Vec<&str>,
    reasons: Option<&str>,
) -> RecastsFile {
    RecastsFile {
        recast: one_recast(
            key,
            RecastEntry {
                kind: kind.to_string(),
                enum_of: enum_of.map(str::to_string),
                arena: arena.to_string(),
                entities: entities.into_iter().map(String::from).collect(),
                reasons: reasons.map(str::to_string),
            },
        ),
    }
}

#[test]
fn empty_recasts_leaves_entities_unchanged() {
    let mut out = Table::new();
    out.insert("line".into(), summary(VariantSpec::SingleStruct, "line"));
    let before = out.duplicate();
    apply_recasts(&mut out, &RecastsFile::default()).unwrap();
    assert_eq!(out, before);
}

#[test]
fn recast_to_in_enum_updates_variant_group_arena_reasons() {
    let mut out = Table::new();
    out.insert("line".into(), summary(VariantSpec::SingleStruct, "line"));
    out.insert("circle".into(), summary(VariantSpec::SingleStruct, "circle"));
    let recasts = recast_with(
        "curve_unification",
        "in_enum",
        Some("curve"),
        "curve",
        vec!["line", "circle"],
        Some("Unify under Curve enum"),
    );
    apply_recasts(&mut out, &recasts).unwrap();
    for name in ["line", "circle"] {
        match &out.get(name).unwrap().variant {
            VariantSpec::InEnum { enum_name } => assert_eq!(enum_name, "curve"),
            other => panic!("expected InEnum for {name}, got {other:?}"),
        }
        assert_eq!(out.get(name).unwrap().arena, "curve");
        assert_eq!(out.get(name).unwrap().group, "curve");
        assert_eq!(out.get(name).unwrap().reasons.as_deref(), Some("Unify under Curve enum"));
    }
}

#[test]
fn recast_to_single_struct_updates_variant_and_group_to_arena() {
    let mut out = Table::new();
    out.insert(
        "x".into(),
        summary(
            VariantSpec::InEnum {
                enum_name: "old_enum".into(),
            },
            "x",
        ),
    );
    let recasts = recast_with(
        "promote",
        "single_struct",
        None,
        "standalone",
        vec!["x"],
        None,
    );
    apply_recasts(&mut out, &recasts).unwrap();
    assert!(matches!(out.get("x").unwrap().variant, VariantSpec::SingleStruct));
    assert_eq!(out.get("x").unwrap().arena, "standalone");
    assert_eq!(out.get("x").unwrap().group, "standalone");
}

#[test]
fn recast_unknown_entity_warns_but_others_apply() {
    let mut out = Table::new();
    out.insert("line".into(), summary(VariantSpec::SingleStruct, "line"));
    let recasts = recast_with(
        "curve_unification",
        "in_enum",
        Some("curve"),
        "curve",
        vec!["line", "ghost_entity"],
        None,
    );
    apply_recasts(&mut out, &recasts).unwrap();
    match &out.get("line").unwrap().variant {
        VariantSpec::InEnum { enum_name } => assert_eq!(enum_name, "curve"),
        other => panic!("expected InEnum, got {other:?}"),
    }
    assert!(!out.contains_key("ghost_entity"));
}

#[test]
fn recast_invalid_kind_errors_with_file_label() {
    let mut out = Table::new();
    out.insert("line".into(), summary(VariantSpec::SingleStruct, "line"));
    let recasts = recast_with(
        "bad",
        "weird_kind",
        None,
        "curve",
        vec!["line"],
        None,
    );
    let err = apply_recasts(&mut out, &recasts).unwrap_err();
    assert!(err.contains("recasts.toml"));
    assert!(err.contains("recast.bad"));
    assert!(err.contains("unsupported kind override 'weird_kind'"));
}

#[test]
fn prune_empty_enum_bases_removes_zero_child() {
    let mut out = Table::new();
    out.insert(
        "bounded_curve".into(),
        summary(
            VariantSpec::EnumBase {
                enum_name: "bounded_curve".into(),
            },
            "bounded_curve",
        ),
    );
    let removed = prune_empty_enum_bases(&mut out).unwrap();
    assert_eq!(removed, vec!["bounded_curve".to_string()]);
    assert!(!out.contains_key("bounded_curve"));
}

#[test]
fn prune_empty_enum_bases_keeps_one_child() {
    let mut out = Table::new();
    out.insert(
        "elementary_surface".into(),
        summary(
            VariantSpec::EnumBase {
                enum_name: "elementary_surface".into(),
            },
            "elementary_surface",
        ),
    );
    out.insert(
        "degenerate_toroidal_surface".into(),
        summary(
            VariantSpec::InEnum {
                enum_name: "elementary_surface".into(),
            },
            "elementary_surface",
        ),
    );
    let removed = prune_empty_enum_bases(&mut out).unwrap();
    assert!(removed.is_empty());
    assert!(out.contains_key("elementary_surface"));
    assert!(out.contains_key("degenerate_toroidal_surface"));
}

#[test]
fn prune_empty_enum_bases_after_recast() {
    let mut entities = Table::new();
    entities.insert(
        "conic".into(),
        summary(
            VariantSpec::EnumBase {
                enum_name: "conic".into(),
            },
            "conic",
        ),
    );
    entities.insert(
        "circle".into(),
        summary(
            VariantSpec::InEnum {
                enum_name: "conic".into(),
            },
            "conic",
        ),
    );
    let recasts = recast_with(
        "curve_unification",
        "in_enum",
        Some("curve"),
        "curve",
        vec!["circle"],
        None,
    );
    let mut out = entities.duplicate();
    apply_recasts(&mut out, &recasts).unwrap();
    let removed = prune_empty_enum_bases(&mut out).unwrap();
    assert_eq!(removed, vec!["conic".to_string()]);
    assert!(!out.contains_key("conic"));
    match &out.get("circle").unwrap().variant {
        VariantSpec::InEnum { enum_name } => assert_eq!(enum_name, "curve"),
        other => panic!("expected InEnum curve, got {other:?}"),
    }
}

#[test]
fn prune_empty_enum_bases_errs_on_dangling_refs() {
    let mut out = Table::new();
    out.insert(
        "bounded_curve".into(),
        summary(
            VariantSpec::EnumBase {
                enum_name: "bounded_curve".into(),
            },
            "bounded_curve",
        ),
    );
    out.insert(
        "y".into(),
        summary(
            VariantSpec::NestedField {
                into: "bounded_curve".into(),
                as_field: "bc".into(),
                added_attr_count: 0,
            },
            "y",
        ),
    );
    let err = prune_empty_enum_bases(&mut out).unwrap_err();
    assert!(err.contains("dangling"));
    assert!(err.contains("bounded_curve"));
    assert!(out.contains_key("bounded_curve"));
    assert!(out.contains_key("y"));
}

#[test]
fn collapse_single_child_enum_bases_promotes_lone_child() {
    let mut out = Table::new();
    out.insert(
        "elementary_surface".into(),
        summary(
            VariantSpec::EnumBase {
                enum_name: "elementary_surface".into(),
            },
            "elementary_surface",
        ),
    );
    out.insert(
        "degenerate_toroidal_surface".into(),
        summary(
            VariantSpec::InEnum {
                enum_name: "elementary_surface".into(),
            },
            "elementary_surface",
        ),
    );
    let removed = collapse_single_child_enum_bases(&mut out).unwrap();
    assert_eq!(removed, vec!["elementary_surface".to_string()]);
    assert!(!out.contains_key("elementary_surface"));
    assert!(matches!(
        out.get("degenerate_toroidal_surface").unwrap().variant,
        VariantSpec::SingleStruct
    ));
}

#[test]
fn collapse_single_child_enum_bases_keeps_two_children() {
    let mut out = Table::new();
    out.insert(
        "conic".into(),
        summary(
            VariantSpec::EnumBase {
                enum_name: "conic".into(),
            },
            "conic",
        ),
    );
    for child in ["circle", "ellipse"] {
        out.insert(
            child.into(),
            summary(
                VariantSpec::InEnum {
                    enum_name: "conic".into(),
                },
                "conic",
            ),
        );
    }
    let removed = collapse_single_child_enum_bases(&mut out).unwrap();
    assert!(removed.is_empty());
    assert!(out.contains_key("conic"));
    assert!(matches!(
        out.get("circle").unwrap().variant,
        VariantSpec::InEnum { .. }
    ));
}

#[test]
fn collapse_single_child_enum_bases_errs_on_dangling_refs() {
    let mut out = Table::new();
    out.insert(
        "elementary_surface".into(),
        summary(
            VariantSpec::EnumBase {
                enum_name: "elementary_surface".into(),
            },
            "elementary_surface",
        ),
    );
    out.insert(
        "degenerate_toroidal_surface".into(),
        summary(
            VariantSpec::InEnum {
                enum_name: "elementary_surface".into(),
            },
            "elementary_surface",
        ),
    );
    out.insert(
        "y".into(),
        summary(
            VariantSpec::MergedInto {
                target: "elementary_surface".into(),
                chain: vec![],
            },
            "y",
        ),
    );
    let err = collapse_single_child_enum_bases(&mut out).unwrap_err();
    assert!(err.contains("dangling"));
    assert!(err.contains("elementary_surface"));
    assert!(out.contains_key("elementary_surface"));
    assert!(matches!(
        out.get("degenerate_toroidal_surface").unwrap().variant,
        VariantSpec::InEnum { .. }
    ));
}

fn anchor_entry(arena: &str, kind: &str, reasons: &str) -> AnchorEntry {
    AnchorEntry {
        arena: arena.to_string(),
        kind: kind.to_string(),
        reasons: reasons.to_string(),
    }
}

#[test]
fn validate_anchors_rejects_collision_with_existing_entity() {
    let mut entities = Table::new();
    entities.insert(
        "curve".into(),
        summary(VariantSpec::ConcreteSupertype, "curve"),
    );
    let anchors = AnchorsFile {
        anchor: one_anchor(
            "curve",
            anchor_entry("curve", "enum_base", "should collide"),
        ),
    };
    let err = validate_anchors(&anchors, &entities).unwrap_err();
    assert!(err.contains("collides"));
    assert!(err.contains("curve"));
}

#[test]
fn validate_anchors_rejects_non_enum_base_kind() {
    let entities = Table::new();
    let anchors = AnchorsFile {
        anchor: one_anchor(
            "foo",
            anchor_entry("curve", "single_struct", "wrong kind"),
        ),
    };
    let err = validate_anchors(&anchors, &entities).unwrap_err();
    assert!(err.contains("unsupported"));
    assert!(err.contains("single_struct"));
}

#[test]
fn apply_anchors_inserts_enum_base_with_all_fields() {
    let mut out: Table<EntitySummary> = Table::new();
    let anchors = AnchorsFile {
        anchor: one_anchor(
            "surface_trace_curve",
            anchor_entry("curve", "enum_base", "reason text"),
        ),
    };
    let inserted = apply_anchors(&anchors, &mut out);
    assert_eq!(inserted, vec!["surface_trace_curve".to_string()]);
    let entity = out.get("surface_trace_curve").expect("anchor inserted");
    match &entity.variant {
        VariantSpec::EnumBase { enum_name } => {
            assert_eq!(enum_name, "surface_trace_curve");
        }
        other => panic!("expected EnumBase, got {other:?}"),
    }
    assert_eq!(entity.group, "surface_trace_curve");
    assert_eq!(entity.arena, "curve");
    assert_eq!(entity.shape, None);
    assert_eq!(entity.instance_count, 0);
    assert_eq!(entity.split_from, None);
    assert_eq!(entity.split_context, None);
    assert!(entity.merge_absorbs.is_empty());
    assert!(!entity.fields_union);
    assert_eq!(entity.reasons.as_deref(), Some("reason text"));
}

#[test]
fn validate_recasts_enum_of_errs_on_missing_target() {
    let abstract_entities: Table<EntitySummary> = Table::new();
    let recasts = RecastsFile {
        recast: one_recast(
            "ghost_unification",
            RecastEntry {
                kind: "in_enum".to_string(),
                enum_of: Some("ghost".to_string()),
                arena: "curve".to_string(),
                entities: vec![],
                reasons: None,
            },
        ),
    };
    let err = validate_recasts_enum_of(&recasts, &abstract_entities).unwrap_err();
    assert!(err.contains("ghost"));
    assert!(err.contains("anchors.toml"));
}

#[test]
fn validate_recasts_enum_of_accepts_anchor_target() {
    let mut abstract_entities: Table<EntitySummary> = Table::new();
    let anchors = AnchorsFile {
        anchor: one_anchor(
            "surface_trace_curve",
            anchor_entry("curve", "enum_base", "anchor reason"),
        ),
    };
    apply_anchors(&anchors, &mut abstract_entities);
    let recasts = RecastsFile {
        recast: one_recast(
            "surface_trace_unification",
            RecastEntry {
                kind: "in_enum".to_string(),
                enum_of: Some("surface_trace_curve".to_string()),
                arena: "curve".to_string(),
                entities: vec![],
                reasons: None,
            },
        ),
    };
    validate_recasts_enum_of(&recasts, &abstract_entities).unwrap();
}
