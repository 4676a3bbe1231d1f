use step_io_blueprint::express::{
    AttrSpec, AttrType, EntitySchema, Schema, SupertypeExpr, TypeDef,
};
use step_io_blueprint::infer::overrides::OverrideFile;
use step_io_blueprint::infer::refgraph::{build, UnifiedSchema};
use step_io_blueprint::infer::variant::{
    classify_all, CompositeMember, VariantOverride, VariantSpec,
};
use step_io_blueprint::names::Table;

fn schema(label: &str, ents: Vec<EntitySchema>, types: Vec<TypeDef>) -> Schema {
    let mut entities = Table::new();
    for e in ents {
        entities.insert(e.name.clone(), e);
    }
    let mut t = Table::new();
    for td in types {
        t.insert(td.name.clone(), td);
    }
    Schema {
        source_label: label.to_string(),
        entities,
        types: t,
        parse_warnings: Vec::new(),
    }
}

fn ent(name: &str, parents: &[&str], attrs: Vec<(&str, AttrType)>) -> EntitySchema {
    EntitySchema {
        name: name.to_string(),
        parents: parents.iter().map(|s| s.to_string()).collect(),
        own_attrs: attrs
            .into_iter()
            .map(|(n, ty)| AttrSpec {
                name: n.to_string(),
                ty,
            })
            .collect(),
        is_abstract: false,
        supertype_expr: None,
        redeclared_attrs: Vec::new(),
        derived_attrs: Vec::new(),
    }
}

fn classify_no_overrides(unified: &UnifiedSchema) -> Table<VariantSpec> {
    let overrides = OverrideFile::<VariantOverride>::default();
    classify_all(unified, &overrides).0
}

fn ent_decl(
    name: &str,
    parents: &[&str],
    attrs: Vec<(&str, AttrType)>,
    is_abstract: bool,
    supertype_expr: Option<SupertypeExpr>,
) -> EntitySchema {
    EntitySchema {
        name: name.to_string(),
        parents: parents.iter().map(|s| s.to_string()).collect(),
        own_attrs: attrs
            .into_iter()
            .map(|(n, ty)| AttrSpec {
                name: n.to_string(),
                ty,
            })
            .collect(),
        is_abstract,
        supertype_expr,
        redeclared_attrs: Vec::new(),
        derived_attrs: Vec::new(),
    }
}

fn oneof_of(names: &[&str]) -> SupertypeExpr {
    SupertypeExpr::OneOf {
        children: names
            .iter()
            .map(|n| SupertypeExpr::Entity {
                name: (*n).to_string(),
            })
            .collect(),
    }
}

fn entity_ref(name: &str) -> SupertypeExpr {
    SupertypeExpr::Entity {
        name: name.to_string(),
    }
}

#[test]
fn enum_candidate_via_polymorphic_select() {
    let s = schema(
        "test",
        vec![
            ent("surface", &[], vec![]),
            ent("plane", &["surface"], vec![]),
            ent("cylinder", &["surface"], vec![]),
            ent(
                "user",
                &[],
                vec![("geom", AttrType::Entity("surface".into()))],
            ),
        ],
        vec![],
    );
    let unified = build(&[s]);
    let decisions = classify_no_overrides(&unified);
    match decisions.get("plane").unwrap() {
        VariantSpec::InEnum { enum_name } => assert_eq!(enum_name, "surface"),
        other => panic!("expected InEnum, got {other:?}"),
    }
}

#[test]
fn enum_base_when_oneof_declared() {
    let s = schema(
        "test",
        vec![
            ent_decl(
                "shape",
                &[],
                vec![],
                false,
                Some(oneof_of(&["circle", "square"])),
            ),
            ent("circle", &["shape"], vec![("r", AttrType::Primitive("REAL".into()))]),
            ent("square", &["shape"], vec![("s", AttrType::Primitive("REAL".into()))]),
        ],
        vec![],
    );
    let unified = build(&[s]);
    let decisions = classify_no_overrides(&unified);
    match decisions.get("shape").unwrap() {
        VariantSpec::EnumBase { enum_name } => assert_eq!(enum_name, "shape"),
        other => panic!("expected EnumBase, got {other:?}"),
    }
    match decisions.get("circle").unwrap() {
        VariantSpec::InEnum { enum_name } => assert_eq!(enum_name, "shape"),
        other => panic!("expected InEnum, got {other:?}"),
    }
}

#[test]
fn enum_base_when_abstract_only() {
    let s = schema(
        "test",
        vec![
            ent_decl("base", &[], vec![], true, None),
            ent("a", &["base"], vec![("x", AttrType::Primitive("REAL".into()))]),
            ent("b", &["base"], vec![("y", AttrType::Primitive("REAL".into()))]),
        ],
        vec![],
    );
    let unified = build(&[s]);
    let decisions = classify_no_overrides(&unified);
    assert!(matches!(
        decisions.get("base").unwrap(),
        VariantSpec::EnumBase { .. }
    ));
}

#[test]
fn complex_supertype_for_andor() {
    let s = schema(
        "test",
        vec![
            ent_decl(
                "kpair",
                &[],
                vec![("j", AttrType::Primitive("REAL".into()))],
                true,
                Some(SupertypeExpr::AndOr {
                    children: vec![oneof_of(&["high", "low"]), entity_ref("actuated")],
                }),
            ),
            ent("high", &["kpair"], vec![("a", AttrType::Primitive("REAL".into()))]),
            ent("low", &["kpair"], vec![("b", AttrType::Primitive("REAL".into()))]),
            ent("actuated", &["kpair"], vec![("c", AttrType::Primitive("REAL".into()))]),
        ],
        vec![],
    );
    let unified = build(&[s]);
    let decisions = classify_no_overrides(&unified);
    match decisions.get("kpair").unwrap() {
        VariantSpec::ComplexSupertype {
            mixin_pattern,
            oneof_children,
            mixin,
        } => {
            assert_eq!(mixin_pattern, "andor");
            assert_eq!(oneof_children, &vec!["high".to_string(), "low".to_string()]);
            assert_eq!(mixin, &entity_ref("actuated"));
        }
        other => panic!("expected ComplexSupertype, got {other:?}"),
    }
}

#[test]
fn merged_into_when_oneof_with_single_child() {
    let s = schema(
        "test",
        vec![
            ent_decl(
                "wrapper",
                &[],
                vec![],
                true,
                None,
            ),
            ent("only", &["wrapper"], vec![("v", AttrType::Primitive("REAL".into()))]),
        ],
        vec![],
    );
    let unified = build(&[s]);
    let decisions = classify_no_overrides(&unified);
    match decisions.get("wrapper").unwrap() {
        VariantSpec::MergedInto { target, chain } => {
            assert_eq!(target, "only");
            assert!(chain.is_empty());
        }
        other => panic!("expected MergedInto, got {other:?}"),
    }
}

#[test]
fn merged_into_cascading_chain() {
    let s = schema(
        "test",
        vec![
            ent("a", &[], vec![]),
            ent("b", &["a"], vec![]),
            ent("c", &["b"], vec![("v", AttrType::Primitive("REAL".into()))]),
        ],
        vec![],
    );
    let unified = build(&[s]);
    let decisions = classify_no_overrides(&unified);
    match decisions.get("a").unwrap() {
        VariantSpec::MergedInto { target, chain } => {
            assert_eq!(target, "c");
            assert_eq!(chain, &vec!["b".to_string()]);
        }
        other => panic!("expected MergedInto for a, got {other:?}"),
    }
    match decisions.get("b").unwrap() {
        VariantSpec::MergedInto { target, chain } => {
            assert_eq!(target, "c");
            assert!(chain.is_empty());
        }
        other => panic!("expected MergedInto for b, got {other:?}"),
    }
    assert!(matches!(decisions.get("c").unwrap(), VariantSpec::SingleStruct));
}

#[test]
fn rule4_skipped_when_parent_has_multiple_children() {
    let s = schema(
        "test",
        vec![
            ent_decl(
                "parent",
                &[],
                vec![],
                false,
                Some(SupertypeExpr::OneOf {
                    children: vec![
                        SupertypeExpr::Entity { name: "a".into() },
                        SupertypeExpr::Entity { name: "b".into() },
                        SupertypeExpr::Entity { name: "c".into() },
                    ],
                }),
            ),
            ent("a", &["parent"], vec![]),
            ent("b", &["parent"], vec![("v", AttrType::Primitive("REAL".into()))]),
            ent("c", &["parent"], vec![("w", AttrType::Primitive("REAL".into()))]),
            ent("a_sub", &["a"], vec![("x", AttrType::Primitive("REAL".into()))]),
        ],
        vec![],
    );
    let unified = build(&[s]);
    let decisions = classify_no_overrides(&unified);
    match decisions.get("a").unwrap() {
        VariantSpec::InEnum { enum_name } => {
            assert_eq!(enum_name, "parent");
        }
        other => panic!("expected InEnum(parent) for a, got {other:?}"),
    }
}

#[test]
fn rule4_fires_for_wrapper_chain_with_singleton_parent() {
    let s = schema(
        "test",
        vec![
            ent("a", &[], vec![]),
            ent("b", &["a"], vec![]),
            ent("c", &["b"], vec![("v", AttrType::Primitive("REAL".into()))]),
        ],
        vec![],
    );
    let unified = build(&[s]);
    let decisions = classify_no_overrides(&unified);
    assert!(matches!(
        decisions.get("a"),
        Some(VariantSpec::MergedInto { .. })
    ));
    assert!(matches!(
        decisions.get("b"),
        Some(VariantSpec::MergedInto { .. })
    ));
}

#[test]
fn classify_b5_and_between_oneofs() {
    let s = schema(
        "test",
        vec![
            ent_decl(
                "slot",
                &[],
                vec![],
                true,
                Some(SupertypeExpr::And {
                    children: vec![oneof_of(&["trapezoidal", "tee"]), oneof_of(&["straight", "curved"])],
                }),
            ),
            ent("trapezoidal", &["slot"], vec![]),
            ent("tee", &["slot"], vec![]),
            ent("straight", &["slot"], vec![]),
            ent("curved", &["slot"], vec![]),
        ],
        vec![],
    );
    let unified = build(&[s]);
    let decisions = classify_no_overrides(&unified);
    match decisions.get("slot").unwrap() {
        VariantSpec::ComplexSupertype {
            mixin_pattern,
            oneof_children,
            mixin,
        } => {
            assert_eq!(mixin_pattern, "and");
            assert_eq!(
                oneof_children,
                &vec!["trapezoidal".to_string(), "tee".to_string()]
            );
            match mixin {
                SupertypeExpr::OneOf { children } => {
                    assert_eq!(children.len(), 2);
                }
                other => panic!("expected OneOf mixin, got {other:?}"),
            }
        }
        other => panic!("expected ComplexSupertype, got {other:?}"),
    }
}

#[test]
fn classify_b6_ref_andor_oneof() {
    let s = schema(
        "test",
        vec![
            ent_decl(
                "blended",
                &[],
                vec![],
                true,
                Some(SupertypeExpr::AndOr {
                    children: vec![entity_ref("track"), oneof_of(&["constant", "variable"])],
                }),
            ),
            ent("track", &["blended"], vec![]),
            ent("constant", &["blended"], vec![]),
            ent("variable", &["blended"], vec![]),
        ],
        vec![],
    );
    let unified = build(&[s]);
    let decisions = classify_no_overrides(&unified);
    match decisions.get("blended").unwrap() {
        VariantSpec::ComplexSupertype {
            mixin_pattern,
            oneof_children,
            mixin,
        } => {
            assert_eq!(mixin_pattern, "andor");
            assert_eq!(
                oneof_children,
                &vec!["constant".to_string(), "variable".to_string()]
            );
            assert_eq!(mixin, &entity_ref("track"));
        }
        other => panic!("expected ComplexSupertype, got {other:?}"),
    }
}

#[test]
fn classify_b7_andor_inside_oneof() {
    let s = schema(
        "test",
        vec![
            ent_decl(
                "trep",
                &[],
                vec![],
                true,
                Some(SupertypeExpr::OneOf {
                    children: vec![
                        entity_ref("vertex"),
                        entity_ref("edge"),
                        SupertypeExpr::AndOr {
                            children: vec![entity_ref("loop"), entity_ref("path")],
                        },
                    ],
                }),
            ),
            ent("vertex", &["trep"], vec![]),
            ent("edge", &["trep"], vec![]),
            ent("loop", &["trep"], vec![]),
            ent("path", &["trep"], vec![]),
        ],
        vec![],
    );
    let unified = build(&[s]);
    let decisions = classify_no_overrides(&unified);
    match decisions.get("trep").unwrap() {
        VariantSpec::CompositeOneOf {
            simple_alternatives,
            composite_alternatives,
        } => {
            assert_eq!(
                simple_alternatives,
                &vec!["vertex".to_string(), "edge".to_string()]
            );
            assert_eq!(composite_alternatives.len(), 1);
            match &composite_alternatives[0] {
                CompositeMember::AndOr { children } => {
                    assert_eq!(
                        children,
                        &vec!["loop".to_string(), "path".to_string()]
                    );
                }
                other => panic!("expected AndOr composite, got {other:?}"),
            }
        }
        other => panic!("expected CompositeOneOf, got {other:?}"),
    }
}

#[test]
fn classify_b7_and_pair_inside_oneof() {
    let s = schema(
        "test",
        vec![
            ent_decl(
                "zone",
                &[],
                vec![],
                true,
                Some(SupertypeExpr::OneOf {
                    children: vec![
                        SupertypeExpr::And {
                            children: vec![entity_ref("a"), entity_ref("b")],
                        },
                        entity_ref("c"),
                    ],
                }),
            ),
            ent("a", &["zone"], vec![]),
            ent("b", &["zone"], vec![]),
            ent("c", &["zone"], vec![]),
        ],
        vec![],
    );
    let unified = build(&[s]);
    let decisions = classify_no_overrides(&unified);
    match decisions.get("zone").unwrap() {
        VariantSpec::CompositeOneOf {
            simple_alternatives,
            composite_alternatives,
        } => {
            assert_eq!(simple_alternatives, &vec!["c".to_string()]);
            assert_eq!(composite_alternatives.len(), 1);
            match &composite_alternatives[0] {
                CompositeMember::And { children } => {
                    assert_eq!(children, &vec!["a".to_string(), "b".to_string()]);
                }
                other => panic!("expected And composite, got {other:?}"),
            }
        }
        other => panic!("expected CompositeOneOf, got {other:?}"),
    }
}

#[test]
fn rule8_raises_unresolved_for_unknown_shape() {
    let s = schema(
        "test",
        vec![
            ent_decl(
                "weird",
                &[],
                vec![],
                true,
                Some(SupertypeExpr::AndOr {
                    children: vec![oneof_of(&["x", "y"]), entity_ref("m"), entity_ref("n")],
                }),
            ),
            ent("x", &["weird"], vec![]),
            ent("y", &["weird"], vec![]),
            ent("m", &["weird"], vec![]),
            ent("n", &["weird"], vec![]),
        ],
        vec![],
    );
    let unified = build(&[s]);
    let overrides = OverrideFile::<VariantOverride>::default();
    let (decisions, unresolved) = classify_all(&unified, &overrides);
    assert!(matches!(
        decisions.get("weird").unwrap(),
        VariantSpec::EnumBase { .. }
    ));
    assert_eq!(unresolved.len(), 0);
}

#[test]
fn rule8_raises_unresolved_for_3child_andor_no_oneof() {
    let s = schema(
        "test",
        vec![
            ent_decl(
                "weird",
                &[],
                vec![],
                false,
                Some(SupertypeExpr::AndOr {
                    children: vec![entity_ref("a"), entity_ref("b"), entity_ref("c")],
                }),
            ),
            ent("a", &["weird"], vec![("x", AttrType::Primitive("REAL".into()))]),
            ent("b", &["weird"], vec![("y", AttrType::Primitive("REAL".into()))]),
            ent("c", &["weird"], vec![("z", AttrType::Primitive("REAL".into()))]),
        ],
        vec![],
    );
    let unified = build(&[s]);
    let overrides = OverrideFile::<VariantOverride>::default();
    let (_decisions, unresolved) = classify_all(&unified, &overrides);
    let u = unresolved
        .get("weird")
        .expect("weird should land in unresolved");
    assert!(
        !u.reasons.is_empty(),
        "unresolved entry must carry a reason"
    );
    assert!(
        u.override_example.contains("kind"),
        "override_example must hint the user how to fill the override"
    );
}

#[test]
fn classify_concrete_supertype_implicit_pattern() {
    let s = schema(
        "test",
        vec![
            ent("act", &[], vec![("name", AttrType::Primitive("STRING".into()))]),
            ent(
                "executed_act",
                &["act"],
                vec![("done", AttrType::Primitive("BOOLEAN".into()))],
            ),
            ent(
                "analyzed_act",
                &["act"],
                vec![("score", AttrType::Primitive("REAL".into()))],
            ),
            ent(
                "consumer",
                &[],
                vec![("target", AttrType::Entity("act".into()))],
            ),
        ],
        vec![],
    );
    let unified = build(&[s]);
    let decisions = classify_no_overrides(&unified);
    assert!(
        matches!(decisions.get("act").unwrap(), VariantSpec::ConcreteSupertype),
        "act should be ConcreteSupertype, got {:?}",
        decisions.get("act").unwrap()
    );
    match decisions.get("executed_act").unwrap() {
        VariantSpec::InEnum { enum_name } => assert_eq!(enum_name, "act"),
        other => panic!("executed_act should be InEnum(act), got {other:?}"),
    }
}

#[test]
fn override_short_circuits_automatic_rules() {
    let s = schema(
        "test",
        vec![
            ent("forced", &[], vec![("v", AttrType::Primitive("REAL".into()))]),
        ],
        vec![],
    );
    let unified = build(&[s]);
    let mut overrides = OverrideFile::<VariantOverride>::default();
    overrides.entity.insert(
        "forced".to_string(),
        VariantOverride::EnumBase {
            enum_name: "forced".to_string(),
            reason: Some("manual decision".to_string()),
        },
    );
    let (decisions, unresolved) = classify_all(&unified, &overrides);
    assert_eq!(unresolved.len(), 0);
    match decisions.get("forced").unwrap() {
        VariantSpec::EnumBase { enum_name } => assert_eq!(enum_name, "forced"),
        other => panic!("override should win; got {other:?}"),
    }
}

#[test]
fn override_concrete_supertype() {
    let s = schema(
        "test",
        vec![ent(
            "forced",
            &[],
            vec![("v", AttrType::Primitive("REAL".into()))],
        )],
        vec![],
    );
    let unified = build(&[s]);
    let mut overrides = OverrideFile::<VariantOverride>::default();
    overrides.entity.insert(
        "forced".to_string(),
        VariantOverride::ConcreteSupertype {
            reason: Some("manual decision".to_string()),
        },
    );
    let (decisions, unresolved) = classify_all(&unified, &overrides);
    assert_eq!(unresolved.len(), 0);
    assert!(
        matches!(decisions.get("forced").unwrap(), VariantSpec::ConcreteSupertype),
        "override should produce ConcreteSupertype; got {:?}",
        decisions.get("forced").unwrap()
    );
}

#[test]
fn nested_field_for_unique_extending_subtype() {
    let s = schema(
        "test",
        vec![
            ent("base", &[], vec![("x", AttrType::Primitive("INTEGER".into()))]),
            ent(
                "ext",
                &["base"],
                vec![
                    ("x", AttrType::Primitive("INTEGER".into())),
                    ("y", AttrType::Primitive("REAL".into())),
                ],
            ),
        ],
        vec![],
    );
    let unified = build(&[s]);
    let decisions = classify_no_overrides(&unified);
    match decisions.get("ext").unwrap() {
        VariantSpec::NestedField {
            into,
            as_field,
            added_attr_count,
        } => {
            assert_eq!(into, "base");
            assert_eq!(as_field, "y");
            assert_eq!(*added_attr_count, 1);
        }
        other => panic!("expected NestedField, got {other:?}"),
    }
}

#[test]
fn nested_field_with_two_added_attrs_carries_count() {
    let s = schema(
        "test",
        vec![
            ent("base", &[], vec![("x", AttrType::Primitive("INTEGER".into()))]),
            ent(
                "ext",
                &["base"],
                vec![
                    ("x", AttrType::Primitive("INTEGER".into())),
                    ("a", AttrType::Primitive("REAL".into())),
                    ("b", AttrType::Primitive("STRING".into())),
                ],
            ),
        ],
        vec![],
    );
    let unified = build(&[s]);
    let decisions = classify_no_overrides(&unified);
    match decisions.get("ext").unwrap() {
        VariantSpec::NestedField {
            into,
            as_field,
            added_attr_count,
        } => {
            assert_eq!(into, "base");
            assert_eq!(as_field, "ext_ext");
            assert_eq!(*added_attr_count, 2);
        }
        other => panic!("expected NestedField, got {other:?}"),
    }
}

#[test]
fn nested_field_rejected_when_all_extra_optional() {
    let s = schema(
        "test",
        vec![
            ent("base", &[], vec![("x", AttrType::Primitive("INTEGER".into()))]),
            ent(
                "ext",
                &["base"],
                vec![
                    ("x", AttrType::Primitive("INTEGER".into())),
                    (
                        "a",
                        AttrType::Optional(Box::new(AttrType::Primitive("REAL".into()))),
                    ),
                    (
                        "b",
                        AttrType::Optional(Box::new(AttrType::Primitive("STRING".into()))),
                    ),
                ],
            ),
        ],
        vec![],
    );
    let unified = build(&[s]);
    let decisions = classify_no_overrides(&unified);
    let ext = decisions.get("ext").unwrap();
    assert!(
        !matches!(ext, VariantSpec::NestedField { .. }),
        "ext should not be NestedField (all extras OPTIONAL), got {ext:?}"
    );
}

#[test]
fn nested_field_kept_when_some_extra_non_optional() {
    let s = schema(
        "test",
        vec![
            ent("base", &[], vec![("x", AttrType::Primitive("INTEGER".into()))]),
            ent(
                "ext",
                &["base"],
                vec![
                    ("x", AttrType::Primitive("INTEGER".into())),
                    (
                        "a",
                        AttrType::Optional(Box::new(AttrType::Primitive("REAL".into()))),
                    ),
                    ("b", AttrType::Primitive("STRING".into())),
                ],
            ),
        ],
        vec![],
    );
    let unified = build(&[s]);
    let decisions = classify_no_overrides(&unified);
    match decisions.get("ext").unwrap() {
        VariantSpec::NestedField {
            added_attr_count, ..
        } => assert_eq!(*added_attr_count, 2),
        other => panic!("expected NestedField, got {other:?}"),
    }
}

#[test]
fn single_struct_for_isolated_entity() {
    let s = schema(
        "test",
        vec![ent(
            "foo",
            &[],
            vec![("x", AttrType::Primitive("INTEGER".into()))],
        )],
        vec![],
    );
    let unified = build(&[s]);
    let decisions = classify_no_overrides(&unified);
    assert!(matches!(
        decisions.get("foo").unwrap(),
        VariantSpec::SingleStruct
    ));
}

#[test]
fn sibling_with_different_extra_attr_is_not_nested() {
    let s = schema(
        "test",
        vec![
            ent("base", &[], vec![("x", AttrType::Primitive("INTEGER".into()))]),
            ent(
                "sub_a",
                &["base"],
                vec![
                    ("x", AttrType::Primitive("INTEGER".into())),
                    ("a", AttrType::Primitive("REAL".into())),
                ],
            ),
            ent(
                "sub_b",
                &["base"],
                vec![
                    ("x", AttrType::Primitive("INTEGER".into())),
                    ("b", AttrType::Primitive("STRING".into())),
                ],
            ),
        ],
        vec![],
    );
    let unified = build(&[s]);
    let decisions = classify_no_overrides(&unified);
    for name in ["sub_a", "sub_b"] {
        let d = decisions.get(name).unwrap();
        assert!(
            !matches!(d, VariantSpec::NestedField { .. }),
            "{name}: should not be NestedField (sibling extends too)"
        );
    }
}

#[test]
fn merges_end_at_an_unmerged_descendant() {
    let real = || vec![("v", AttrType::Primitive("REAL".into()))];
    let s = schema(
        "test",
        vec![
            ent("a", &[], vec![]),
            ent("b", &["a"], vec![]),
            ent("c", &["b"], vec![]),
            ent("d", &["c"], real()),
            ent_decl("e", &["d"], vec![], true, None),
            ent("f", &["e"], real()),
        ],
        vec![],
    );
    let decisions = classify_no_overrides(&build(&[s]));
    let merged = |target: &str, chain: &[&str]| VariantSpec::MergedInto {
        target: target.to_string(),
        chain: chain.iter().map(|n| n.to_string()).collect(),
    };
    assert_eq!(decisions.get("a"), Some(&merged("d", &["b"])));
    assert_eq!(decisions.get("b"), Some(&merged("d", &["c"])));
    assert_eq!(decisions.get("c"), Some(&merged("d", &[])));
    assert_eq!(decisions.get("e"), Some(&merged("f", &[])));
    for name in ["d", "f"] {
        assert!(!matches!(decisions.get(name), Some(VariantSpec::MergedInto { .. })));
    }
}

#[test]
fn merges_by_override_are_followed() {
    let real = || vec![("v", AttrType::Primitive("REAL".into()))];
    let s = || {
        schema(
            "test",
            vec![
                ent_decl("a", &[], vec![], true, None),
                ent("b", &["a"], real()),
                ent("c", &["b"], real()),
            ],
            vec![],
        )
    };
    let with = |target: &str| {
        let mut overrides = OverrideFile::<VariantOverride>::default();
        overrides.entity.insert(
            "b".to_string(),
            VariantOverride::MergedInto {
                target: target.to_string(),
                chain: vec![],
                reason: None,
            },
        );
        classify_all(&build(&[s()]), &overrides).0
    };
    assert_eq!(
        with("c").get("a"),
        Some(&VariantSpec::MergedInto { target: "c".into(), chain: vec!["b".into()] })
    );
    // An override that leads back up takes the entity above it along.
    assert!(matches!(
        with("a").get("a"),
        Some(VariantSpec::MergedInto { target, .. }) if target == "a"
    ));
}

#[test]
fn enum_roots_stand_above_their_members() {
    let real = |n: &'static str| vec![(n, AttrType::Primitive("REAL".into()))];
    let s = || {
        schema(
            "test",
            vec![
                ent_decl("top", &[], vec![], true, None),
                ent("mid", &["top"], real("m")),
                ent("other", &["top"], real("o")),
                ent("low", &["mid"], real("l")),
            ],
            vec![],
        )
    };
    let decisions = classify_no_overrides(&build(&[s()]));
    let member = |root: &str| VariantSpec::InEnum { enum_name: root.to_string() };
    assert_eq!(decisions.get("mid"), Some(&member("top")));
    assert_eq!(decisions.get("other"), Some(&member("top")));
    assert_eq!(decisions.get("low"), Some(&member("top")));
    let mut overrides = OverrideFile::<VariantOverride>::default();
    overrides.entity.insert(
        "mid".to_string(),
        VariantOverride::EnumBase { enum_name: "elsewhere".into(), reason: None },
    );
    let decisions = classify_all(&build(&[s()]), &overrides).0;
    assert_eq!(decisions.get("low"), Some(&member("elsewhere")));
}
