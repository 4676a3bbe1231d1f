use step_io_blueprint::express::{AttrSpec, AttrType, EntitySchema, Schema};
use step_io_blueprint::infer::fields::{build_attr_types, ty_string, FieldRec};
use step_io_blueprint::infer::naming::{compile_ir, snake_to_pascal, validate_stale, NamesFile};
use step_io_blueprint::infer::pool::PoolEntry;
use step_io_blueprint::infer::shape::{ConcreteSupertypeShape, EntitySummary};
use step_io_blueprint::infer::variant::VariantSpec;
use step_io_blueprint::names::Table;

fn schema_of(entities: Vec<EntitySchema>) -> Schema {
    let mut table = Table::new();
    for e in entities {
        table.insert(e.name.clone(), e);
    }
    Schema {
        source_label: "test".to_string(),
        entities: table,
        types: Table::new(),
        parse_warnings: Vec::new(),
    }
}

fn make_summary(
    variant: VariantSpec,
    arena: &str,
    shape: Option<ConcreteSupertypeShape>,
) -> EntitySummary {
    EntitySummary {
        variant,
        group: arena.to_string(),
        arena: arena.to_string(),
        shape,
        instance_count: 0,
        complex_part_count: 0,
        co_instantiated_with: Vec::new(),
        split_from: None,
        split_context: None,
        merge_absorbs: Vec::new(),
        fields_union: false,
        reasons: None,
    }
}

fn pools_with(pairs: &[(&str, &str)]) -> Table<PoolEntry> {
    let mut out = Table::new();
    for (arena, pool) in pairs {
        out.insert(arena.to_string(), PoolEntry { pool: pool.to_string() });
    }
    out
}

#[test]
fn snake_to_pascal_basic() {
    assert_eq!(snake_to_pascal("b_spline_curve"), "BSplineCurve");
    assert_eq!(snake_to_pascal("cartesian_point"), "CartesianPoint");
    assert_eq!(snake_to_pascal("line"), "Line");
}

#[test]
fn snake_to_pascal_handles_double_underscores() {
    assert_eq!(snake_to_pascal("foo__bar"), "FooBar");
    assert_eq!(snake_to_pascal("__leading_trailing__"), "LeadingTrailing");
}

#[test]
fn snake_to_pascal_known_acronym_pcurve() {
    assert_eq!(snake_to_pascal("pcurve"), "PCurve");
    assert_eq!(snake_to_pascal("bounded_pcurve"), "BoundedPCurve");
}

#[test]
fn snake_to_pascal_known_acronym_rgb() {
    assert_eq!(snake_to_pascal("colour_rgb"), "ColourRGB");
}

#[test]
fn ty_string_primitives_and_refs() {
    let types = Table::new();
    assert_eq!(ty_string(&AttrType::Primitive("REAL".into()), &types), "real");
    assert_eq!(ty_string(&AttrType::Primitive("BOOLEAN".into()), &types), "bool");
    assert_eq!(
        ty_string(&AttrType::Entity("cartesian_point".into()), &types),
        "ref_cartesian_point"
    );
}

#[test]
fn ty_string_aggregates_and_optional() {
    let types = Table::new();
    let list_real = AttrType::List(Box::new(AttrType::Primitive("REAL".into())));
    assert_eq!(ty_string(&list_real, &types), "list_real");
    let opt_ref = AttrType::Optional(Box::new(AttrType::Entity("line".into())));
    assert_eq!(ty_string(&opt_ref, &types), "opt_ref_line");
}

#[test]
fn ty_string_unfolds_type_alias_to_primitive() {
    let mut types = Table::new();
    types.insert(
        "length_measure".to_string(),
        AttrType::Primitive("REAL".into()),
    );
    let ty = AttrType::Entity("length_measure".into());
    assert_eq!(ty_string(&ty, &types), "real");
}

fn specs(attrs: &[(&str, AttrType)]) -> Vec<AttrSpec> {
    attrs
        .iter()
        .map(|(n, t)| AttrSpec {
            name: n.to_string(),
            ty: t.clone(),
        })
        .collect()
}

fn fty<'a>(fields: &'a [FieldRec], name: &str) -> Option<&'a str> {
    fields.iter().find(|f| f.name == name).map(|f| f.ty.as_str())
}

fn fnames(fields: &[FieldRec]) -> Vec<&str> {
    fields.iter().map(|f| f.name.as_str()).collect()
}

fn ent(name: &str, parents: &[&str], attrs: &[(&str, AttrType)]) -> EntitySchema {
    ent_redecl(name, parents, attrs, &[])
}

fn ent_redecl(
    name: &str,
    parents: &[&str],
    attrs: &[(&str, AttrType)],
    redeclared: &[(&str, AttrType)],
) -> EntitySchema {
    EntitySchema {
        name: name.to_string(),
        parents: parents.iter().map(|s| s.to_string()).collect(),
        own_attrs: specs(attrs),
        redeclared_attrs: specs(redeclared),
        is_abstract: false,
        supertype_expr: None,
        derived_attrs: Vec::new(),
    }
}

#[test]
fn build_attr_types_single_inheritance() {
    let schemas = vec![schema_of(vec![
        ent("parent", &[], &[("name", AttrType::Primitive("STRING".into()))]),
        ent(
            "child",
            &["parent"],
            &[("coords", AttrType::Primitive("REAL".into()))],
        ),
    ])];
    let attrs = build_attr_types(&schemas);
    let child = attrs.get("child").expect("child present");
    assert_eq!(fty(child, "name"), Some("string"));
    assert_eq!(fty(child, "coords"), Some("real"));
    assert_eq!(fnames(child), vec!["name", "coords"]);
}

#[test]
fn build_attr_types_multiple_inheritance_collects_all_parents() {
    let schemas = vec![schema_of(vec![
        ent("a", &[], &[("name", AttrType::Primitive("STRING".into()))]),
        ent("b", &[], &[("value", AttrType::Primitive("NUMBER".into()))]),
        ent("child", &["a", "b"], &[]),
    ])];
    let attrs = build_attr_types(&schemas);
    let child = attrs.get("child").expect("child present");
    assert_eq!(fty(child, "name"), Some("string"));
    assert_eq!(
        fty(child, "value"),
        Some("number"),
        "2nd-parent attr must not be dropped"
    );
    assert_eq!(fnames(child), vec!["name", "value"]);
}

#[test]
fn build_attr_types_multiple_inheritance_walks_2nd_parent_chain() {
    let schemas = vec![schema_of(vec![
        ent("a", &[], &[("name", AttrType::Primitive("STRING".into()))]),
        ent(
            "grandparent",
            &[],
            &[("the_value", AttrType::Primitive("NUMBER".into()))],
        ),
        ent("b", &["grandparent"], &[]),
        ent("child", &["a", "b"], &[]),
    ])];
    let attrs = build_attr_types(&schemas);
    let child = attrs.get("child").expect("child present");
    assert_eq!(fty(child, "name"), Some("string"));
    assert_eq!(
        fty(child, "the_value"),
        Some("number"),
        "attr inherited via 2nd parent's grandparent must surface"
    );
}

#[test]
fn build_attr_types_redeclaration_overrides_direct_parent_attr() {
    let schemas = vec![schema_of(vec![
        ent(
            "parent",
            &[],
            &[("the_value", AttrType::Primitive("NUMBER".into()))],
        ),
        ent_redecl(
            "child",
            &["parent"],
            &[],
            &[("the_value", AttrType::Primitive("INTEGER".into()))],
        ),
    ])];
    let attrs = build_attr_types(&schemas);
    let child = attrs.get("child").expect("child present");
    assert_eq!(
        fty(child, "the_value"),
        Some("integer"),
        "redeclaration must narrow the inherited slot in place"
    );
    assert_eq!(
        fnames(child),
        vec!["the_value"],
        "redeclaration narrows in place — no extra slot"
    );
}

#[test]
fn build_attr_types_redeclared_attr_narrows_inherited_via_2nd_parent() {
    let schemas = vec![schema_of(vec![
        ent("a", &[], &[("name", AttrType::Primitive("STRING".into()))]),
        ent(
            "grandparent",
            &[],
            &[("the_value", AttrType::Primitive("NUMBER".into()))],
        ),
        ent_redecl(
            "b",
            &["grandparent"],
            &[],
            &[("the_value", AttrType::Primitive("INTEGER".into()))],
        ),
        ent("child", &["a", "b"], &[]),
    ])];
    let attrs = build_attr_types(&schemas);
    let b = attrs.get("b").expect("b present");
    assert_eq!(
        fty(b, "the_value"),
        Some("integer"),
        "redeclaration must override the inherited NUMBER on b itself"
    );
    assert_eq!(fnames(b), vec!["the_value"]);
    let child = attrs.get("child").expect("child present");
    assert_eq!(
        fty(child, "the_value"),
        Some("integer"),
        "redeclaration on 2nd parent must propagate to the child"
    );
    assert_eq!(fty(child, "name"), Some("string"));
}

#[test]
fn build_attr_types_same_name_collision_keeps_both_slots() {
    let schemas = vec![schema_of(vec![
        ent("a", &[], &[("label", AttrType::Primitive("STRING".into()))]),
        ent("b", &[], &[("label", AttrType::Primitive("STRING".into()))]),
        ent("child", &["a", "b"], &[]),
    ])];
    let attrs = build_attr_types(&schemas);
    let child = attrs.get("child").expect("child present");
    assert_eq!(
        fnames(child),
        vec!["label", "label"],
        "same-name attrs from distinct ancestors must both survive"
    );
    assert_eq!(child[0].from, "a");
    assert_eq!(child[1].from, "b");
}

#[test]
fn compile_ir_single_struct() {
    let mut entities = Table::new();
    entities.insert(
        "cartesian_point".to_string(),
        make_summary(VariantSpec::SingleStruct, "cartesian_point", None),
    );
    let pools = pools_with(&[("cartesian_point", "geometry")]);
    let names = NamesFile::default();
    let schemas: Vec<Schema> = Vec::new();

    let ir = compile_ir(&entities, &pools, &names, &schemas).unwrap();
    let row = ir.get("cartesian_point").unwrap();
    assert_eq!(row.kind, "single_struct");
    assert_eq!(row.pool, "geometry");
    assert_eq!(row.type_.as_deref(), Some("CartesianPoint"));
    assert_eq!(row.id.as_deref(), Some("CartesianPointId"));
    assert!(row.variant.is_none());
    assert!(row.enum_.is_none());
    assert!(row.kind_enum.is_none());
}

#[test]
fn compile_ir_in_enum_uses_arena_id_and_enum_of() {
    let mut entities = Table::new();
    entities.insert(
        "line".to_string(),
        make_summary(
            VariantSpec::InEnum {
                enum_name: "curve".into(),
            },
            "curve",
            None,
        ),
    );
    entities.insert(
        "curve".to_string(),
        make_summary(
            VariantSpec::EnumBase {
                enum_name: "curve".into(),
            },
            "curve",
            None,
        ),
    );
    let pools = pools_with(&[("curve", "geometry")]);
    let names = NamesFile::default();
    let schemas: Vec<Schema> = Vec::new();

    let ir = compile_ir(&entities, &pools, &names, &schemas).unwrap();

    let line = ir.get("line").unwrap();
    assert_eq!(line.type_.as_deref(), Some("Line"));
    assert_eq!(line.id.as_deref(), Some("CurveId"));
    assert_eq!(line.enum_of.as_deref(), Some("curve"));
    assert_eq!(line.variant.as_deref(), Some("Line"));

    let curve = ir.get("curve").unwrap();
    assert_eq!(curve.kind, "enum_base");
    assert!(curve.type_.is_none());
    assert_eq!(curve.enum_.as_deref(), Some("Curve"));
    assert_eq!(curve.id.as_deref(), Some("CurveId"));
}

#[test]
fn compile_ir_carrier_has_data_suffix_and_itself_variant() {
    let mut entities = Table::new();
    entities.insert(
        "face_bound".to_string(),
        make_summary(
            VariantSpec::ConcreteSupertype,
            "face_bound",
            Some(ConcreteSupertypeShape::Carrier),
        ),
    );
    let pools = pools_with(&[("face_bound", "topology")]);
    let names = NamesFile::default();
    let schemas: Vec<Schema> = Vec::new();

    let ir = compile_ir(&entities, &pools, &names, &schemas).unwrap();
    let row = ir.get("face_bound").unwrap();
    assert_eq!(row.shape.as_deref(), Some("carrier"));
    assert_eq!(row.type_.as_deref(), Some("FaceBoundData"));
    assert_eq!(row.enum_.as_deref(), Some("FaceBound"));
    assert_eq!(row.variant.as_deref(), Some("Itself"));
}

#[test]
fn compile_ir_base_parallel_has_kind_enum_and_plain_variant() {
    let mut entities = Table::new();
    entities.insert(
        "styled_item".to_string(),
        make_summary(
            VariantSpec::ConcreteSupertype,
            "styled_item",
            Some(ConcreteSupertypeShape::BaseParallel),
        ),
    );
    let pools = pools_with(&[("styled_item", "visualization")]);
    let names = NamesFile::default();
    let schemas: Vec<Schema> = Vec::new();

    let ir = compile_ir(&entities, &pools, &names, &schemas).unwrap();
    let row = ir.get("styled_item").unwrap();
    assert_eq!(row.shape.as_deref(), Some("base_parallel"));
    assert_eq!(row.type_.as_deref(), Some("StyledItem"));
    assert_eq!(row.kind_enum.as_deref(), Some("StyledItemKind"));
    assert!(row.enum_.is_none());
    assert_eq!(row.variant.as_deref(), Some("Plain"));
}

#[test]
fn compile_ir_override_replaces_default() {
    let mut entities = Table::new();
    entities.insert(
        "b_spline_curve".to_string(),
        make_summary(VariantSpec::SingleStruct, "b_spline_curve", None),
    );
    let pools = pools_with(&[("b_spline_curve", "geometry")]);
    let mut names = NamesFile::default();
    names
        .type_
        .insert("b_spline_curve".to_string(), "BSpline".to_string());
    let schemas: Vec<Schema> = Vec::new();

    let ir = compile_ir(&entities, &pools, &names, &schemas).unwrap();
    assert_eq!(ir.get("b_spline_curve").unwrap().type_.as_deref(), Some("BSpline"));
}

#[test]
fn validate_stale_unknown_entity() {
    let entities: Table<EntitySummary> = Table::new();
    let mut names = NamesFile::default();
    names
        .type_
        .insert("ghost_entity".to_string(), "Ghost".to_string());
    let warns = validate_stale(&names, &entities);
    assert!(warns.iter().any(|w| w.contains("ghost_entity")));
}

#[test]
fn validate_stale_kind_mismatch() {
    let mut entities = Table::new();
    entities.insert(
        "curve".to_string(),
        make_summary(
            VariantSpec::EnumBase {
                enum_name: "curve".into(),
            },
            "curve",
            None,
        ),
    );
    let mut names = NamesFile::default();
    names.type_.insert("curve".to_string(), "Curve".to_string());
    let warns = validate_stale(&names, &entities);
    assert!(warns.iter().any(|w| w.contains("enum_base")));
}
