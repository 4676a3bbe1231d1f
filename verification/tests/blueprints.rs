use step_io_blueprint::express::reader::parse_express;
use step_io_blueprint::express::{AttrType, Schema};
use step_io_blueprint::graph::closure;
use step_io_blueprint::infer::fields::{
    apply_redeclaration, build_attr_types, has_label, resolve_alias, ty_string, types_unfold,
    FieldRec,
};
use step_io_blueprint::infer::lineage::collect_lineage;
use step_io_blueprint::infer::naming::{
    build_arena_id_lookup, categories_for, compile_ir, naming_stage, snake_to_pascal,
    validate_stale, NamesFile,
};
use step_io_blueprint::infer::pool::PoolEntry;
use step_io_blueprint::infer::refgraph::{first_aliases, first_declarations, list_schemas};
use step_io_blueprint::infer::reshape::{
    apply_splits_merges, collapse_single_child_enum_bases, kind_str, prune_empty_enum_bases,
    reshape_stage, validate_anchors, validate_merges, validate_recasts,
    validate_recasts_enum_of, validate_splits, variant_spec_from_override, warn_absent_recasts,
    AnchorEntry, AnchorsFile, FieldsStrategy, MergeEntry, MergesFile, RecastEntry, RecastsFile,
    SplitEntry, SplitVariant, SplitsFile,
};
use step_io_blueprint::infer::shape::{ConcreteSupertypeShape, EntitySummary};
use step_io_blueprint::infer::variant::VariantSpec;
use step_io_blueprint::names::Table;

fn strings(names: &[&str]) -> Vec<String> {
    names.iter().map(|s| s.to_string()).collect()
}

fn schema(text: &str) -> Schema {
    let s = parse_express(text, "demo".to_string());
    assert!(s.parse_warnings.is_empty());
    s
}

fn in_enum(name: &str) -> VariantSpec {
    VariantSpec::InEnum { enum_name: name.to_string() }
}

fn enum_base(name: &str) -> VariantSpec {
    VariantSpec::EnumBase { enum_name: name.to_string() }
}

fn merged(target: &str) -> VariantSpec {
    VariantSpec::MergedInto { target: target.to_string(), chain: Vec::new() }
}

fn row(variant: VariantSpec, arena: &str) -> EntitySummary {
    EntitySummary {
        variant,
        group: arena.to_string(),
        arena: arena.to_string(),
        shape: None,
        instance_count: 0,
        complex_part_count: 0,
        co_instantiated_with: Vec::new(),
        split_from: None,
        split_context: None,
        merge_absorbs: Vec::new(),
        fields_union: false,
        reasons: None,
    }
}

fn rows(list: Vec<(&str, VariantSpec)>) -> Table<EntitySummary> {
    let mut out = Table::new();
    for (k, v) in list {
        out.insert(k.to_string(), row(v, k));
    }
    out
}

fn part(name: &str, kind: Option<&str>, enum_of: Option<&str>) -> SplitVariant {
    SplitVariant {
        name: name.to_string(),
        suffix: "x".to_string(),
        arena: format!("{name}_arena"),
        kind: kind.map(|s| s.to_string()),
        enum_of: enum_of.map(|s| s.to_string()),
    }
}

fn one_split(key: &str, variants: Vec<SplitVariant>) -> SplitsFile {
    let mut out = SplitsFile::default();
    out.split.insert(
        key.to_string(),
        SplitEntry {
            context_signal: "flag".to_string(),
            variants,
            reasons: Some("because".to_string()),
        },
    );
    out
}

fn one_merge(key: &str, target: &str, absorbs: &[&str], kind: Option<&str>) -> MergesFile {
    let mut out = MergesFile::default();
    out.merge.insert(
        key.to_string(),
        MergeEntry {
            target_name: target.to_string(),
            arena: "merged_arena".to_string(),
            absorbs: strings(absorbs),
            fields_strategy: FieldsStrategy::First,
            reasons: None,
            kind: kind.map(|s| s.to_string()),
            enum_of: None,
        },
    );
    out
}

fn one_recast(key: &str, kind: &str, enum_of: Option<&str>, entities: &[&str]) -> RecastsFile {
    let mut out = RecastsFile::default();
    out.recast.insert(
        key.to_string(),
        RecastEntry {
            kind: kind.to_string(),
            enum_of: enum_of.map(|s| s.to_string()),
            arena: "recast_arena".to_string(),
            entities: strings(entities),
            reasons: None,
        },
    );
    out
}

fn one_anchor(key: &str, kind: &str) -> AnchorsFile {
    let mut out = AnchorsFile::default();
    out.anchor.insert(
        key.to_string(),
        AnchorEntry {
            arena: "anchor_arena".to_string(),
            kind: kind.to_string(),
            reasons: "needed".to_string(),
        },
    );
    out
}

fn pools(names: &[&str]) -> Table<PoolEntry> {
    let mut out = Table::new();
    for n in names {
        out.insert(n.to_string(), PoolEntry { pool: format!("{n}_pool") });
    }
    out
}

fn fields(list: &[FieldRec]) -> Vec<(String, String, String)> {
    list.iter().map(|f| (f.name.clone(), f.ty.clone(), f.from.clone())).collect()
}

fn field(name: &str, ty: &str, from: &str) -> (String, String, String) {
    (name.to_string(), ty.to_string(), from.to_string())
}

#[test]
fn closures_hold_everything_reachable() {
    let mut g = Table::new();
    g.insert("a".to_string(), strings(&["b"]));
    g.insert("b".to_string(), strings(&["a", "c"]));
    g.insert("d".to_string(), strings(&["a"]));
    assert_eq!(closure(&g, &strings(&["a"])).names(), strings(&["a", "b", "c"]));
    assert!(closure(&g, &Vec::new()).is_empty());
}

#[test]
fn lineages_start_at_the_base() {
    let all = vec![schema(
        "ENTITY base;\nEND_ENTITY;\n\
ENTITY left\n SUBTYPE OF (base);\nEND_ENTITY;\n\
ENTITY right\n SUBTYPE OF (base, nowhere);\nEND_ENTITY;\n\
ENTITY both\n SUBTYPE OF (left, right);\nEND_ENTITY;\n",
    )];
    let decls = first_declarations(&list_schemas(&all));
    assert_eq!(
        collect_lineage(&decls, &strings(&["left", "right"])),
        strings(&["base", "left", "right"])
    );
    assert_eq!(collect_lineage(&decls, &strings(&["right"])), strings(&["base", "right"]));
    assert!(collect_lineage(&decls, &Vec::new()).is_empty());
}

#[test]
fn aliases_are_followed_to_their_end() {
    let all = vec![schema(
        "TYPE a = b; END_TYPE;\nTYPE b = LIST OF c; END_TYPE;\nTYPE c = BOOLEAN; END_TYPE;\n\
TYPE x = y; END_TYPE;\nTYPE y = x; END_TYPE;\nTYPE me = LIST OF me; END_TYPE;\nTYPE out = point; END_TYPE;\n",
    )];
    let types = first_aliases(&list_schemas(&all));
    let name = |s: &str| AttrType::Entity(s.to_string());
    assert_eq!(resolve_alias("a", &types), Some(&AttrType::List(Box::new(name("c")))));
    assert_eq!(resolve_alias("x", &types), None);
    assert_eq!(resolve_alias("point", &types), None);
    assert_eq!(ty_string(&name("a"), &types), "list_bool");
    assert_eq!(ty_string(&name("x"), &types), "ref_x");
    assert_eq!(ty_string(&name("out"), &types), "ref_point");
    assert_eq!(
        ty_string(&AttrType::Optional(Box::new(AttrType::SetOf(Box::new(name("p"))))), &types),
        "opt_set_ref_p"
    );
    assert_eq!(ty_string(&AttrType::Primitive("REAL".to_string()), &types), "real");
    assert_eq!(ty_string(&AttrType::Bag(Box::new(AttrType::Select(Vec::new()))), &types), "bag_select");
    assert_eq!(
        ty_string(&AttrType::Array(Box::new(AttrType::Enumeration(Vec::new()))), &types),
        "array_enum"
    );
    assert!(has_label(&name("a"), &types));
    assert!(!has_label(&name("me"), &types));
}

#[test]
fn unending_types_are_found() {
    let good = vec![schema("TYPE a = REAL; END_TYPE;\nENTITY e;\n x : a;\nEND_ENTITY;\n")];
    assert!(types_unfold(&good));
    let bad = vec![schema("TYPE a = LIST OF a; END_TYPE;\nENTITY e;\n x : a;\nEND_ENTITY;\n")];
    assert!(!types_unfold(&bad));
}

#[test]
fn redeclarations_keep_the_slot_and_its_origin() {
    let mut out = vec![
        FieldRec { name: "x".to_string(), ty: "real".to_string(), from: "up".to_string() },
        FieldRec { name: "x".to_string(), ty: "bool".to_string(), from: "other".to_string() },
    ];
    apply_redeclaration(&mut out, "x", "integer".to_string(), "me");
    apply_redeclaration(&mut out, "y", "string".to_string(), "me");
    assert_eq!(
        fields(&out),
        vec![
            field("x", "integer", "up"),
            field("x", "bool", "other"),
            field("y", "string", "me"),
        ]
    );
}

#[test]
fn every_attribute_has_its_slot() {
    let all = vec![schema(
        "ENTITY base;\n a : REAL;\nEND_ENTITY;\n\
ENTITY left\n SUBTYPE OF (base);\n b : REAL;\nEND_ENTITY;\n\
ENTITY right\n SUBTYPE OF (base);\n b : BOOLEAN;\n SELF\\base.a : INTEGER;\nEND_ENTITY;\n\
ENTITY both\n SUBTYPE OF (left, right);\n c : base;\nEND_ENTITY;\n",
    )];
    let slots = build_attr_types(&all);
    assert_eq!(
        fields(slots.get("both").unwrap()),
        vec![
            field("a", "integer", "base"),
            field("b", "real", "left"),
            field("b", "bool", "right"),
            field("c", "ref_base", "both"),
        ]
    );
    assert_eq!(fields(slots.get("base").unwrap()), vec![field("a", "real", "base")]);
}

#[test]
fn words_become_capitalized() {
    assert_eq!(snake_to_pascal("rgb_pcurve_x"), "RGBPCurveX");
    assert_eq!(snake_to_pascal("ßa_éb"), "SSaÉb");
    assert_eq!(snake_to_pascal(""), "");
}

#[test]
fn kinds_have_their_names_and_categories() {
    assert_eq!(kind_str(&VariantSpec::SingleStruct), "single_struct");
    assert_eq!(kind_str(&in_enum("e")), "in_enum");
    assert_eq!(kind_str(&enum_base("e")), "enum_base");
    assert_eq!(kind_str(&merged("e")), "merged_into");
    assert_eq!(kind_str(&VariantSpec::ConcreteSupertype), "concrete_supertype");
    let c = categories_for(&row(enum_base("e"), "e"));
    assert!(!c.has_type && c.has_id && !c.has_variant && c.has_enum && !c.has_fields);
    let mut s = row(VariantSpec::ConcreteSupertype, "s");
    let c = categories_for(&s);
    assert!(c.has_type && !c.has_variant && !c.has_enum && !c.has_kind_enum);
    s.shape = Some(ConcreteSupertypeShape::BaseParallel);
    let c = categories_for(&s);
    assert!(c.has_variant && !c.has_enum && c.has_kind_enum);
    let c = categories_for(&row(merged("e"), "e"));
    assert!(!c.has_type && !c.has_id && !c.has_fields);
}

#[test]
fn names_that_name_nothing_are_reported() {
    let entities = rows(vec![("base", enum_base("base")), ("w", merged("base"))]);
    let mut names = NamesFile::default();
    names.type_.insert("base".to_string(), "B".to_string());
    names.id.insert("gone".to_string(), "G".to_string());
    names.variant.insert("base".to_string(), "V".to_string());
    names.enum_.insert("w".to_string(), "W".to_string());
    names.kind_enum.insert("base".to_string(), "K".to_string());
    names.field.insert("nodot".to_string(), "f".to_string());
    names.field.insert("gone.x".to_string(), "f".to_string());
    names.field.insert("w.x".to_string(), "f".to_string());
    assert_eq!(
        validate_stale(&names, &entities),
        strings(&[
            "names.toml [type.base] — entity is enum_base (no type)",
            "names.toml [id.gone] — entity not in abstract_entities.toml",
            "names.toml [variant.base] — entity is enum_base (no variant)",
            "names.toml [enum.w] — entity is merged_into (no enum)",
            "names.toml [kind_enum.base] — entity is enum_base (no kind_enum)",
            "names.toml [field.\"gone.x\"] — entity gone not in abstract_entities.toml",
            "names.toml [field.\"nodot\"] — key must be \"<entity>.<attr>\"",
            "names.toml [field.\"w.x\"] — entity w is merged_into (no fields)",
        ])
    );
}

#[test]
fn blueprints_are_compiled_for_every_entity() {
    let mut entities = rows(vec![("my_base", enum_base("my_base")), ("kid", in_enum("my_base"))]);
    let mut kid = row(in_enum("my_base"), "my_base");
    kid.instance_count = 4;
    entities.insert("kid".to_string(), kid);
    let mut names = NamesFile::default();
    names.type_.insert("kid".to_string(), "Child".to_string());
    names.id.insert("my_base".to_string(), "BaseKey".to_string());
    names.field.insert("kid.x".to_string(), "ex".to_string());
    let all = vec![schema("ENTITY kid;\n x : REAL;\nEND_ENTITY;\n")];
    let ids = build_arena_id_lookup(&entities, &names);
    assert_eq!(ids.get("my_base").unwrap(), "BaseKey");
    let ir = compile_ir(&entities, &pools(&["my_base"]), &names, &all).unwrap();
    assert_eq!(ir.keys(), strings(&["kid", "my_base"]));
    let kid = ir.get("kid").unwrap();
    assert_eq!(kid.kind, "in_enum");
    assert_eq!(kid.pool, "my_base_pool");
    assert_eq!(kid.type_, Some("Child".to_string()));
    assert_eq!(kid.id, Some("BaseKey".to_string()));
    assert_eq!(kid.variant, Some("Kid".to_string()));
    assert_eq!(kid.enum_, None);
    assert_eq!(kid.enum_of, Some("my_base".to_string()));
    assert_eq!(kid.fields.len(), 1);
    assert_eq!(kid.fields[0].name, "ex");
    assert_eq!(kid.fields[0].from, "kid");
    assert_eq!(kid.instance_count, 4);
    let base = ir.get("my_base").unwrap();
    assert_eq!(base.type_, None);
    assert_eq!(base.enum_, Some("MyBase".to_string()));
    assert_eq!(base.id, kid.id);
    assert!(base.fields.is_empty());
}

#[test]
fn naming_stage_refuses_bad_input() {
    let all = vec![schema("ENTITY kid;\nEND_ENTITY;\n")];
    let entities = rows(vec![("kid", VariantSpec::SingleStruct)]);
    let mut names = NamesFile::default();
    let (warnings, r) = naming_stage(&Table::new(), &Table::new(), &names, &all);
    assert!(warnings.is_empty());
    assert_eq!(
        r.err(),
        Some("abstract_entities.toml is empty or missing — run `infer reshape` first.".to_string())
    );
    let (_, r) = naming_stage(&entities, &Table::new(), &names, &Vec::new());
    assert_eq!(r.err(), Some("no schemas loaded — check schemas/*.exp.".to_string()));
    names.id.insert("gone".to_string(), "G".to_string());
    let (warnings, r) = naming_stage(&entities, &Table::new(), &names, &all);
    assert_eq!(
        warnings,
        strings(&["names.toml [id.gone] — entity not in abstract_entities.toml"])
    );
    assert_eq!(r.err(), Some("arena kid missing in pools.toml".to_string()));
    let (_, r) = naming_stage(&entities, &pools(&["kid"]), &names, &all);
    assert_eq!(r.unwrap().get("kid").unwrap().id, Some("KidId".to_string()));
}

#[test]
fn kind_overrides_are_checked() {
    let base = enum_base("b");
    let some = |s: &str| Some(s.to_string());
    let go = |k: Option<String>, e: Option<String>| {
        variant_spec_from_override(&base, &k, &e, "f.toml", "key")
    };
    assert_eq!(go(None, None), Ok(enum_base("b")));
    assert_eq!(go(some("single_struct"), None), Ok(VariantSpec::SingleStruct));
    assert_eq!(go(some("in_enum"), some("x")), Ok(in_enum("x")));
    assert_eq!(go(None, some("x")), Err("f.toml [key]: enum_of set without kind".to_string()));
    assert_eq!(
        go(some("single_struct"), some("x")),
        Err("f.toml [key]: enum_of incompatible with kind = \"single_struct\"".to_string())
    );
    assert_eq!(
        go(some("in_enum"), None),
        Err("f.toml [key]: kind = \"in_enum\" requires enum_of".to_string())
    );
    assert_eq!(
        go(some("odd"), None),
        Err("f.toml [key]: unsupported kind override 'odd' (allowed: \"single_struct\", \"in_enum\")".to_string())
    );
}

#[test]
fn inputs_that_fit_nothing_are_reported() {
    let entities = rows(vec![("s", VariantSpec::SingleStruct), ("w", merged("s"))]);
    let mut splits = one_split("gone", Vec::new());
    splits.split.insert(
        "w".to_string(),
        SplitEntry { context_signal: String::new(), variants: Vec::new(), reasons: None },
    );
    assert_eq!(
        validate_splits(&splits, &entities),
        strings(&[
            "warning: splits.toml [split.gone] — entity not in entities.toml",
            "warning: splits.toml [split.w] — entity is merged_into (split unsupported on absorbed entities)",
        ])
    );
    assert_eq!(
        validate_merges(&one_merge("m", "t", &["gone", "w", "s"], None), &entities),
        strings(&[
            "warning: merges.toml [merge.m] absorbs unknown entity gone",
            "warning: merges.toml [merge.m] absorbs w which is already merged_into (no IR struct)",
        ])
    );
    let recasts = one_recast("r", "single_struct", None, &["gone", "w"]);
    assert_eq!(
        validate_recasts(&recasts, &entities),
        strings(&[
            "warning: recasts.toml [recast.r] entity gone not in entities.toml",
            "warning: recasts.toml [recast.r] entity w is merged_into (recast unsupported on absorbed)",
        ])
    );
    assert_eq!(
        warn_absent_recasts(&recasts, &entities),
        strings(&["warning: recasts.toml [recast.r] entity gone not in abstract_entities (already split / merged?)"])
    );
}

#[test]
fn splits_make_their_parts_and_merges_absorb() {
    let entities = rows(vec![
        ("p", VariantSpec::SingleStruct),
        ("q", VariantSpec::SingleStruct),
        ("r", VariantSpec::SingleStruct),
    ]);
    let splits = one_split("p", vec![part("p", None, None), part("p2", Some("in_enum"), Some("e"))]);
    let out = apply_splits_merges(&entities, &splits, &one_merge("m", "qr", &["q", "r"], None))
        .unwrap();
    assert_eq!(out.keys(), strings(&["p", "p2", "qr"]));
    assert_eq!(out.get("p").unwrap().reasons, Some("because".to_string()));
    assert_eq!(out.get("p").unwrap().arena, "p_arena");
    assert_eq!(out.get("p2").unwrap().split_from, Some("p".to_string()));
    assert_eq!(out.get("p2").unwrap().split_context, Some("flag".to_string()));
    assert_eq!(out.get("p2").unwrap().variant, in_enum("e"));
    let qr = out.get("qr").unwrap();
    assert_eq!(qr.merge_absorbs, strings(&["q", "r"]));
    assert!(!qr.fields_union);
    assert_eq!(qr.group, "qr");
    let bad = one_split("p", vec![part("p", None, None), part("p2", Some("odd"), None)]);
    assert_eq!(
        apply_splits_merges(&entities, &bad, &MergesFile::default()).err(),
        Some("splits.toml [split.p.variants[1]]: unsupported kind override 'odd' (allowed: \"single_struct\", \"in_enum\")".to_string())
    );
    assert_eq!(
        apply_splits_merges(&entities, &SplitsFile::default(), &one_merge("m", "t", &["q"], Some("in_enum"))).err(),
        Some("merges.toml [merge.m]: kind = \"in_enum\" requires enum_of".to_string())
    );
}

#[test]
fn anchors_and_recast_targets_are_checked() {
    let entities = rows(vec![("s", VariantSpec::SingleStruct), ("e", enum_base("e"))]);
    assert_eq!(
        validate_anchors(&one_anchor("s", "enum_base"), &entities),
        Err("anchors.toml [anchor.s] collides with existing entity (schema entity, split product, or merge target)".to_string())
    );
    assert_eq!(
        validate_anchors(&one_anchor("t", "odd \"kind\""), &entities),
        Err("anchors.toml [anchor.t] kind=\"odd \\\"kind\\\"\" unsupported (only \"enum_base\")".to_string())
    );
    assert_eq!(validate_anchors(&one_anchor("t", "enum_base"), &entities), Ok(()));
    let check = |enum_of: Option<&str>| {
        validate_recasts_enum_of(&one_recast("r", "in_enum", enum_of, &["s"]), &entities)
    };
    assert_eq!(check(Some("e")), Ok(()));
    assert_eq!(
        check(None),
        Err("recasts.toml [recast.r] kind=in_enum requires enum_of".to_string())
    );
    assert_eq!(
        check(Some("t")),
        Err("recasts.toml [recast.r] enum_of=\"t\" not in entities (schema entity, split product, or anchor). Declare it in anchors.toml if intentional.".to_string())
    );
    assert_eq!(
        check(Some("s")),
        Err("recasts.toml [recast.r] enum_of=\"s\" resolves to single_struct, not enum_base or concrete_supertype".to_string())
    );
}

#[test]
fn enums_without_members_go() {
    let mut m = rows(vec![("e", enum_base("e")), ("w", merged("e"))]);
    assert_eq!(
        prune_empty_enum_bases(&mut m),
        Err("empty enum_base e has dangling NestedField/MergedInto references: [\"w\"]. Fix the classification before continuing.".to_string())
    );
    assert_eq!(m.len(), 2);
    let mut m = rows(vec![("e", enum_base("e")), ("f", enum_base("f")), ("k", in_enum("f"))]);
    assert_eq!(prune_empty_enum_bases(&mut m), Ok(strings(&["e"])));
    assert_eq!(collapse_single_child_enum_bases(&mut m), Ok(strings(&["f"])));
    assert_eq!(m.keys(), strings(&["k"]));
    assert_eq!(m.get("k").unwrap().variant, VariantSpec::SingleStruct);
    let mut m = rows(vec![("e", enum_base("e")), ("k", in_enum("e")), ("w", merged("e"))]);
    assert_eq!(
        collapse_single_child_enum_bases(&mut m),
        Err("single-child enum_base e has dangling NestedField/MergedInto references: [\"w\"]. Fix the classification before continuing.".to_string())
    );
}

#[test]
fn reshape_stage_applies_everything_in_order() {
    let entities = rows(vec![
        ("a", VariantSpec::SingleStruct),
        ("b", VariantSpec::SingleStruct),
        ("old", enum_base("old")),
    ]);
    let (warnings, r) = reshape_stage(
        &entities,
        &SplitsFile::default(),
        &MergesFile::default(),
        &one_anchor("shape", "enum_base"),
        &one_recast("r", "in_enum", Some("shape"), &["a", "b", "gone"]),
    );
    assert_eq!(
        warnings,
        strings(&[
            "warning: recasts.toml [recast.r] entity gone not in entities.toml",
            "warning: recasts.toml [recast.r] entity gone not in abstract_entities (already split / merged?)",
        ])
    );
    let r = r.unwrap();
    assert_eq!(r.entities.keys(), strings(&["a", "b", "shape"]));
    assert_eq!(r.entities.get("a").unwrap().variant, in_enum("shape"));
    assert_eq!(r.entities.get("a").unwrap().group, "shape");
    assert_eq!(r.entities.get("a").unwrap().arena, "recast_arena");
    assert_eq!(r.inserted_anchors, strings(&["shape"]));
    assert_eq!(r.pruned_enum_bases, strings(&["old"]));
    assert!(r.collapsed_enum_bases.is_empty());
}

#[test]
fn reshape_stage_refuses_bad_input() {
    let none = (SplitsFile::default(), MergesFile::default(), AnchorsFile::default());
    let (warnings, r) =
        reshape_stage(&Table::new(), &none.0, &none.1, &none.2, &RecastsFile::default());
    assert!(warnings.is_empty());
    assert_eq!(
        r.err(),
        Some("entities.toml is empty or missing — run `infer shape` first.".to_string())
    );
    let entities = rows(vec![("a", VariantSpec::SingleStruct)]);
    let (_, r) = reshape_stage(
        &entities,
        &none.0,
        &none.1,
        &none.2,
        &one_recast("r", "odd", None, &["a"]),
    );
    assert_eq!(
        r.err(),
        Some("recasts.toml [recast.r]: unsupported kind override 'odd' (allowed: \"single_struct\", \"in_enum\")".to_string())
    );
}

#[test]
fn reshape_stage_without_input_changes_nothing() {
    let entities = rows(vec![
        ("e", enum_base("e")),
        ("k", in_enum("e")),
        ("l", in_enum("e")),
        ("s", VariantSpec::SingleStruct),
    ]);
    let (warnings, r) = reshape_stage(
        &entities,
        &SplitsFile::default(),
        &MergesFile::default(),
        &AnchorsFile::default(),
        &RecastsFile::default(),
    );
    assert!(warnings.is_empty());
    let r = r.unwrap();
    assert_eq!(r.entities, entities);
}

#[test]
fn reshape_stage_without_input_keeps_small_enums() {
    let entities = rows(vec![
        ("curve", enum_base("curve")),
        ("lone", enum_base("lone")),
        ("only", in_enum("lone")),
        ("w", merged("curve")),
    ]);
    let (warnings, r) = reshape_stage(
        &entities,
        &SplitsFile::default(),
        &MergesFile::default(),
        &AnchorsFile::default(),
        &RecastsFile::default(),
    );
    assert!(warnings.is_empty());
    let r = r.unwrap();
    assert_eq!(r.entities, entities);
    assert!(r.inserted_anchors.is_empty());
    assert!(r.pruned_enum_bases.is_empty());
    assert!(r.collapsed_enum_bases.is_empty());
}
