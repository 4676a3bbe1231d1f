use step_io_blueprint::express::reader::parse_express;
use step_io_blueprint::express::{Schema, SupertypeExpr};
use step_io_blueprint::infer::arena::{
    arena_stage, compute_entity_to_group, compute_groups, recompute_for_pruned, ArenaSpec,
};
use step_io_blueprint::infer::hierarchy::{
    build_descendant_index, climb_all, concrete_descendants, find_left_over, topological_order,
    warn_of_cycles,
};
use step_io_blueprint::infer::io::{
    check_decisions_done, check_variants_done, PendingFile, PendingStats,
};
use step_io_blueprint::infer::overrides::{validate_known, OverrideError, OverrideFile};
use step_io_blueprint::infer::pool::{pool_stage, required_arenas, PoolEntry};
use step_io_blueprint::infer::prune::{
    auto_keep, compute_pruned_group_names, count_usage, filter_stale_overrides,
    flatten_middle_nodes, lookup, prune_stage, prune_transitive_with_keep, record_usage,
    UsageRecord,
};
use step_io_blueprint::infer::refgraph::build;
use step_io_blueprint::infer::shape::{
    check_shapes, compile_entities, required_shapes, ConcreteSupertypeShape,
};
use step_io_blueprint::infer::variant::{
    build_chain, classify_all, classify_complex_supertype, classify_composite_oneof,
    collect_entity_names, effective_direct_children, format_override_example,
    has_oneof_recursive, resolve_merge_target, variant_stage, write_tree, CompositeMember,
    KindCounts, VariantOverride, VariantSpec,
};
use step_io_blueprint::infer::{Decision, Unresolved};
use step_io_blueprint::names::{NameSet, Table};

fn strings(names: &[&str]) -> Vec<String> {
    names.iter().map(|s| s.to_string()).collect()
}

fn name_set(names: &[&str]) -> NameSet {
    NameSet::from_names(&strings(names))
}

fn schema(text: &str) -> Schema {
    let s = parse_express(text, "demo".to_string());
    assert!(s.parse_warnings.is_empty());
    s
}

fn graph(rows: &[(&str, &[&str])]) -> Table<Vec<String>> {
    let mut out = Table::new();
    for (k, ps) in rows {
        out.insert(k.to_string(), strings(ps));
    }
    out
}

fn specs(rows: Vec<(&str, VariantSpec)>) -> Table<VariantSpec> {
    let mut out = Table::new();
    for (k, v) in rows {
        out.insert(k.to_string(), v);
    }
    out
}

fn counts(rows: &[(&str, usize)]) -> Table<usize> {
    let mut out = Table::new();
    for (k, n) in rows {
        out.insert(k.to_string(), *n);
    }
    out
}

fn links(rows: &[(&str, &str)]) -> Table<String> {
    let mut out = Table::new();
    for (k, v) in rows {
        out.insert(k.to_string(), v.to_string());
    }
    out
}

fn in_enum(name: &str) -> VariantSpec {
    VariantSpec::InEnum { enum_name: name.to_string() }
}

fn enum_base(name: &str) -> VariantSpec {
    VariantSpec::EnumBase { enum_name: name.to_string() }
}

fn merged(target: &str) -> VariantSpec {
    VariantSpec::MergedInto { target: target.to_string(), chain: Vec::new() }
}

fn nested(into: &str) -> VariantSpec {
    VariantSpec::NestedField {
        into: into.to_string(),
        as_field: "extra".to_string(),
        added_attr_count: 1,
    }
}

fn arena(name: &str) -> ArenaSpec {
    ArenaSpec { arena: name.to_string() }
}

fn leaf(name: &str) -> SupertypeExpr {
    SupertypeExpr::Entity { name: name.to_string() }
}

fn oneof(names: &[&str]) -> SupertypeExpr {
    SupertypeExpr::OneOf { children: names.iter().map(|n| leaf(n)).collect() }
}

#[test]
fn later_stages_wait_for_open_entries() {
    assert_eq!(check_variants_done(false, false), Ok(()));
    assert_eq!(check_variants_done(true, true), Ok(()));
    assert_eq!(
        check_variants_done(false, true),
        Err("variants_pending.toml exists — variant stage has unresolved/review items.\nResolve in variants_overrides.toml or pass --allow-pending to proceed with partial input.".to_string())
    );
    assert_eq!(check_decisions_done(true, true, true), Ok(()));
    assert_eq!(
        check_decisions_done(false, true, true),
        Err("variants_pending.toml exists — variant stage has unresolved items.\nResolve in variants_overrides.toml or pass --allow-pending.".to_string())
    );
    assert_eq!(
        check_decisions_done(false, false, true),
        Err("arenas_pending.toml exists — arena stage has unresolved/review items.\nResolve in arenas_overrides.toml or pass --allow-pending.".to_string())
    );
}

#[test]
fn pending_files_are_empty_without_entries() {
    let stats = PendingStats { total: 0, confident: 0, review: 0, unresolved: 0 };
    let mut file: PendingFile<VariantSpec> =
        PendingFile { stats, review: Table::new(), unresolved: Table::new() };
    assert!(file.is_empty());
    file.review.insert(
        "x".to_string(),
        Decision { data: VariantSpec::SingleStruct, reasons: Vec::new() },
    );
    assert!(!file.is_empty());
    let mut file: PendingFile<VariantSpec> =
        PendingFile { stats, review: Table::new(), unresolved: Table::new() };
    file.unresolved.insert(
        "x".to_string(),
        Unresolved { reasons: Vec::new(), override_example: String::new() },
    );
    assert!(!file.is_empty());
}

#[test]
fn unknown_override_keys_are_reported() {
    let mut over: OverrideFile<ArenaSpec> = OverrideFile::default();
    over.group.insert("here".to_string(), arena("a"));
    over.group.insert("gone".to_string(), arena("b"));
    let known = name_set(&["here"]);
    assert_eq!(
        validate_known(&over, "group", &known, "f.toml"),
        strings(&["f.toml: [group.gone] references unknown group (not present in any schema). Remove or fix the key."])
    );
    assert!(validate_known(&over, "entity", &known, "f.toml").is_empty());
    assert!(validate_known(&over, "other", &known, "f.toml").is_empty());
    let err = OverrideError { messages: strings(&["one", "two"]) };
    assert_eq!(err.text(), "one\ntwo\n");
}

#[test]
fn parents_come_before_children() {
    let g = graph(&[("c", &["b"]), ("b", &["a"]), ("a", &[]), ("d", &["c", "a"])]);
    let order = topological_order(&g);
    assert_eq!(order, strings(&["a", "b", "c", "d"]));
    let idx = build_descendant_index(&g);
    assert_eq!(idx.get("a").unwrap(), &strings(&["b", "d"]));
    assert_eq!(idx.get("b").unwrap(), &strings(&["c"]));
    assert_eq!(climb_all(&g, "d"), strings(&["d", "c", "a", "b"]));
    assert_eq!(concrete_descendants("b", &idx), strings(&["c", "d"]));
}

#[test]
fn rings_are_still_listed() {
    let g = graph(&[("a", &["b"]), ("b", &["a"]), ("c", &[])]);
    let mut order = topological_order(&g);
    order.sort();
    assert_eq!(order, strings(&["a", "b", "c"]));
}

#[test]
fn trees_are_written_with_their_kinds() {
    let x = SupertypeExpr::AndOr { children: vec![leaf("a"), oneof(&["b", "c"])] };
    assert_eq!(
        write_tree(&x),
        "AndOr { children: [Entity { name: \"a\" }, OneOf { children: [Entity { name: \"b\" }, Entity { name: \"c\" }] }] }"
    );
    assert_eq!(
        format_override_example(&leaf("a")),
        "# Tree: Entity { name: \"a\" }\n# Choose one of: single_struct / in_enum / enum_base / merged_into / complex_supertype / composite_one_of\nkind = \"single_struct\""
    );
    assert_eq!(collect_entity_names(&x), strings(&["a", "b", "c"]));
    assert!(has_oneof_recursive(&x));
    assert!(!has_oneof_recursive(&leaf("a")));
}

#[test]
fn mixins_keep_the_first_choice() {
    let x = SupertypeExpr::And { children: vec![leaf("m"), oneof(&["a", "b"])] };
    assert_eq!(
        classify_complex_supertype(&x),
        Some(VariantSpec::ComplexSupertype {
            mixin_pattern: "and".to_string(),
            oneof_children: strings(&["a", "b"]),
            mixin: leaf("m"),
        })
    );
    assert_eq!(classify_complex_supertype(&oneof(&["a", "b"])), None);
    let both = SupertypeExpr::AndOr { children: vec![leaf("a"), leaf("b")] };
    assert_eq!(classify_complex_supertype(&both), None);
}

#[test]
fn composite_choices_keep_their_members() {
    let x = SupertypeExpr::OneOf {
        children: vec![
            leaf("a"),
            SupertypeExpr::AndOr { children: vec![leaf("b"), leaf("c")] },
            SupertypeExpr::And { children: vec![leaf("d"), leaf("e")] },
        ],
    };
    assert_eq!(
        classify_composite_oneof(&x),
        Some(VariantSpec::CompositeOneOf {
            simple_alternatives: strings(&["a"]),
            composite_alternatives: vec![
                CompositeMember::AndOr { children: strings(&["b", "c"]) },
                CompositeMember::And { children: strings(&["d", "e"]) },
            ],
        })
    );
    assert_eq!(classify_composite_oneof(&oneof(&["a", "b"])), None);
    assert_eq!(classify_composite_oneof(&leaf("a")), None);
}

#[test]
fn merge_chains_lead_to_their_end() {
    let d = specs(vec![
        ("a", merged("b")),
        ("b", merged("c")),
        ("x", merged("y")),
        ("y", merged("x")),
    ]);
    assert_eq!(resolve_merge_target("a", &d), "c");
    assert_eq!(resolve_merge_target("z", &d), "z");
    assert_eq!(resolve_merge_target("x", &d), "x");
    let idx = build_descendant_index(&graph(&[
        ("top", &[]),
        ("a", &["top"]),
        ("b", &["a"]),
        ("c", &["b"]),
    ]));
    assert_eq!(effective_direct_children("top", &idx, &d).names(), strings(&["c"]));
    assert_eq!(build_chain("top", "c", &idx, &d), strings(&["a", "b"]));
}

#[test]
fn every_entity_is_decided_or_open() {
    let s = schema(
        "ENTITY top\n ABSTRACT SUPERTYPE OF (ONEOF (left, right));\nEND_ENTITY;\n\
ENTITY left\n SUBTYPE OF (top);\nEND_ENTITY;\n\
ENTITY right\n SUBTYPE OF (top);\nEND_ENTITY;\n\
ENTITY odd\n SUPERTYPE OF (a ANDOR b ANDOR c);\n x : REAL;\nEND_ENTITY;\n\
ENTITY lone;\n y : REAL;\nEND_ENTITY;\n",
    );
    let u = build(&vec![s]);
    let r = variant_stage(&u, &OverrideFile::default()).unwrap();
    assert_eq!(r.decisions.keys(), strings(&["left", "lone", "right", "top"]));
    assert_eq!(r.decisions.get("top"), Some(&enum_base("top")));
    assert_eq!(r.decisions.get("left"), Some(&in_enum("top")));
    assert_eq!(r.decisions.get("lone"), Some(&VariantSpec::SingleStruct));
    assert_eq!(r.pending.unresolved.keys(), strings(&["odd"]));
    assert_eq!(
        r.pending.unresolved.get("odd").unwrap().reasons,
        strings(&["Rule 8: SUPERTYPE OF tree did not match any automatic rule (Rule 1, 1.5, 2-6). Tree shape: AndOr { children: [Entity { name: \"a\" }, Entity { name: \"b\" }, Entity { name: \"c\" }] }"])
    );
    assert_eq!(r.pending.stats.total, 5);
    assert_eq!(r.pending.stats.confident, 4);
    assert_eq!(r.pending.stats.unresolved, 1);
    assert_eq!(r.counts.enum_base, 1);
    assert_eq!(r.counts.in_enum, 2);
    assert_eq!(r.counts.single, 1);
    let k = KindCounts::of(&r.decisions);
    assert_eq!(k.enum_base, 1);
}

#[test]
fn overrides_decide_first() {
    let u = build(&vec![schema("ENTITY e;\n x : REAL;\nEND_ENTITY;\n")]);
    let mut over: OverrideFile<VariantOverride> = OverrideFile::default();
    over.entity.insert(
        "e".to_string(),
        VariantOverride::EnumBase { enum_name: "e".to_string(), reason: None },
    );
    let (decisions, open) = classify_all(&u, &over);
    assert_eq!(decisions.get("e"), Some(&enum_base("e")));
    assert!(open.is_empty());
    over.entity.insert("f".to_string(), VariantOverride::SingleStruct { reason: None });
    assert_eq!(
        variant_stage(&u, &over).err(),
        Some("variants_overrides.toml: [entity.f] references unknown entity (not present in any schema). Remove or fix the key.".to_string())
    );
}

#[test]
fn groups_have_an_arena_each() {
    let d = specs(vec![
        ("base", enum_base("base")),
        ("m", in_enum("base")),
        ("k", in_enum("base")),
        ("s", VariantSpec::SingleStruct),
        ("n", nested("s")),
        ("w", merged("n")),
    ]);
    let groups = compute_groups(&d);
    assert_eq!(groups.keys(), strings(&["base", "s"]));
    assert_eq!(groups.get("base").unwrap().members, strings(&["k", "m"]));
    assert!(groups.get("base").unwrap().is_enum);
    assert!(!groups.get("s").unwrap().is_enum);
    let by_entity = compute_entity_to_group(&d);
    assert_eq!(by_entity.get("base").unwrap(), "base");
    assert_eq!(by_entity.get("n").unwrap(), "s");
    assert_eq!(by_entity.get("w").unwrap(), "s");
    let arenas = arena_stage(&d, &OverrideFile::default()).unwrap();
    assert_eq!(arenas.get("base").unwrap().arena, "base");
    let mut over: OverrideFile<ArenaSpec> = OverrideFile::default();
    over.group.insert("s".to_string(), arena("shared"));
    let arenas = recompute_for_pruned(&d, &over).unwrap();
    assert_eq!(arenas.get("s").unwrap().arena, "shared");
    assert_eq!(required_arenas(&arenas).names(), strings(&["base", "shared"]));
}

#[test]
fn arena_stage_refuses_bad_input() {
    assert_eq!(
        arena_stage(&Table::new(), &OverrideFile::default()).err(),
        Some("variants.toml is empty or missing — run `infer variant` first.".to_string())
    );
    let d = specs(vec![("s", VariantSpec::SingleStruct)]);
    let mut over: OverrideFile<ArenaSpec> = OverrideFile::default();
    over.group.insert("t".to_string(), arena("x"));
    assert_eq!(
        arena_stage(&d, &over).err(),
        Some("arenas_overrides.toml: [group.t] references unknown group (not present in any schema). Remove or fix the key.".to_string())
    );
}

#[test]
fn cycles_leave_entities_without_a_group() {
    let d = specs(vec![("a", merged("b")), ("b", merged("a")), ("s", VariantSpec::SingleStruct)]);
    assert!(!compute_entity_to_group(&d).contains_key("a"));
    let arenas = arena_stage(&d, &OverrideFile::default()).unwrap();
    assert_eq!(
        compile_entities(&d, &arenas, &Table::new(), &Table::new()).err(),
        Some("entity a has no group".to_string())
    );
    let d = specs(vec![("s", VariantSpec::SingleStruct)]);
    assert_eq!(
        compile_entities(&d, &Table::new(), &Table::new(), &Table::new()).err(),
        Some("group s missing in arenas_pruned.toml".to_string())
    );
}

#[test]
fn pools_are_checked_against_the_arenas() {
    let mut arenas = Table::new();
    assert_eq!(
        pool_stage(&arenas, None).err(),
        Some("arenas_pruned.toml is empty or missing — run `infer prune --corpus <path>` first.".to_string())
    );
    arenas.insert("g".to_string(), arena("a"));
    arenas.insert("h".to_string(), arena("b"));
    assert_eq!(
        pool_stage(&arenas, None).err(),
        Some("pools.toml not found — required arenas (2):\n  a\n  b\nAdd `[arena.<name>] pool = \"<pool_name>\"` for each.".to_string())
    );
    let mut pools = Table::new();
    pools.insert("a".to_string(), PoolEntry { pool: "p".to_string() });
    assert_eq!(
        pool_stage(&arenas, Some(&pools)).err(),
        Some("pools.toml missing 1 required arena entries:\n  b\nAdd `[arena.<name>] pool = \"<pool_name>\"` for each.".to_string())
    );
    pools.insert("b".to_string(), PoolEntry { pool: "p".to_string() });
    pools.insert("c".to_string(), PoolEntry { pool: "q".to_string() });
    let r = pool_stage(&arenas, Some(&pools)).unwrap();
    assert_eq!((r.required, r.distinct_pools), (2, 1));
    assert_eq!(
        r.warnings,
        strings(&["warning: pools.toml [arena.c] is not an arena in arenas_pruned.toml — ignored"])
    );
}

#[test]
fn shapes_are_checked_against_the_supertypes() {
    assert_eq!(
        check_shapes(&Table::new(), None).err(),
        Some("variants_pruned.toml is empty or missing — run `infer prune` first.".to_string())
    );
    let d = specs(vec![
        ("c", VariantSpec::ConcreteSupertype),
        ("s", VariantSpec::SingleStruct),
    ]);
    assert_eq!(required_shapes(&d).names(), strings(&["c"]));
    assert_eq!(
        check_shapes(&d, None).err(),
        Some("shapes.toml not found — required ConcreteSupertype entities (1):\n  c\nAdd `[entity.<name>] shape = \"carrier\" | \"base_parallel\"` for each.".to_string())
    );
    let mut shapes = Table::new();
    assert_eq!(
        check_shapes(&d, Some(&shapes)).err(),
        Some("shapes.toml missing 1 required ConcreteSupertype entries:\n  c\nAdd `[entity.<name>] shape = \"carrier\" | \"base_parallel\"` for each.".to_string())
    );
    shapes.insert("c".to_string(), ConcreteSupertypeShape::BaseParallel);
    shapes.insert("s".to_string(), ConcreteSupertypeShape::Carrier);
    let r = check_shapes(&d, Some(&shapes)).unwrap();
    assert_eq!((r.required, r.carrier, r.base_parallel), (1, 0, 1));
    assert_eq!(
        r.warnings,
        strings(&["warning: shapes.toml [entity.s] is not a ConcreteSupertype in variants_pruned.toml — ignored"])
    );
}

#[test]
fn use_is_recorded_for_every_entity() {
    let d = specs(vec![("a", VariantSpec::SingleStruct), ("b", VariantSpec::SingleStruct)]);
    let mut summary = Table::new();
    summary.insert(
        "a".to_string(),
        UsageRecord {
            instance_count: 5,
            complex_part_count: 2,
            co_instantiated_with: strings(&["z", "b", "b"]),
        },
    );
    summary.insert(
        "z".to_string(),
        UsageRecord {
            instance_count: 9,
            complex_part_count: 0,
            co_instantiated_with: Vec::new(),
        },
    );
    let usage = record_usage(&d, &summary);
    assert_eq!(usage.keys(), strings(&["a", "b"]));
    assert_eq!(usage.get("a").unwrap().co_instantiated_with, strings(&["b"]));
    assert_eq!(usage.get("b").unwrap().instance_count, 0);
    let (total, standalone) = count_usage(&usage);
    assert_eq!(lookup(&total, "a"), 5);
    assert_eq!(lookup(&standalone, "a"), 3);
    assert_eq!(lookup(&total, "z"), 0);
}

#[test]
fn supertypes_with_used_members_are_kept() {
    let d = specs(vec![
        ("e", enum_base("e")),
        ("m", in_enum("e")),
        ("n", in_enum("e")),
        ("f", enum_base("f")),
        ("self", in_enum("self")),
    ]);
    let c = counts(&[("m", 1), ("n", 2), ("self", 1)]);
    assert_eq!(auto_keep(&d, &c).names(), strings(&["e", "self"]));
    let left = prune_transitive_with_keep(&d, &c, &c, &NameSet::new());
    assert_eq!(left.keys(), strings(&["e", "m", "n", "self"]));
    let left = prune_transitive_with_keep(&d, &c, &c, &name_set(&["f"]));
    assert!(left.contains_key("f"));
}

#[test]
fn flattened_members_move_to_a_stable_enum() {
    let mut d = specs(vec![
        ("root", enum_base("root")),
        ("mid", enum_base("mid")),
        ("kid", in_enum("mid")),
    ]);
    let roots = links(&[("mid", "root")]);
    let moved = flatten_middle_nodes(&mut d, &roots, &counts(&[("mid", 1)]), &Table::new());
    assert_eq!(moved, vec![("mid".to_string(), "root".to_string())]);
    assert_eq!(d.get("mid"), Some(&in_enum("root")));
    assert_eq!(d.get("kid"), Some(&in_enum("root")));
    let mut d = specs(vec![("root", enum_base("root")), ("mid", enum_base("mid"))]);
    let pools = links(&[("mid", "p"), ("root", "q")]);
    let moved = flatten_middle_nodes(&mut d, &roots, &counts(&[("mid", 1)]), &pools);
    assert!(moved.is_empty());
}

#[test]
fn overrides_of_dropped_groups_are_dropped() {
    let d = specs(vec![("e", enum_base("e")), ("m", in_enum("e")), ("n", nested("m"))]);
    let groups = compute_pruned_group_names(&d);
    assert_eq!(groups.names(), strings(&["e"]));
    let mut over: OverrideFile<ArenaSpec> = OverrideFile::default();
    over.group.insert("e".to_string(), arena("x"));
    over.group.insert("gone".to_string(), arena("y"));
    let (kept, dropped) = filter_stale_overrides(&over, &groups);
    assert_eq!(kept.group.keys(), strings(&["e"]));
    assert_eq!(dropped, strings(&["gone"]));
}

#[test]
fn prune_stage_hands_on_what_is_used() {
    let d = specs(vec![
        ("dead", VariantSpec::SingleStruct),
        ("live", VariantSpec::SingleStruct),
        ("wrap", merged("dead")),
    ]);
    let mut summary = Table::new();
    summary.insert(
        "live".to_string(),
        UsageRecord {
            instance_count: 3,
            complex_part_count: 0,
            co_instantiated_with: Vec::new(),
        },
    );
    let mut over: OverrideFile<ArenaSpec> = OverrideFile::default();
    over.group.insert("dead".to_string(), arena("x"));
    let r = prune_stage(
        &d,
        &summary,
        &name_set(&["nobody"]),
        &Table::new(),
        &Table::new(),
        &over,
    )
    .unwrap();
    assert_eq!(r.usage.keys(), strings(&["dead", "live", "wrap"]));
    assert_eq!(r.variants.keys(), strings(&["live"]));
    assert_eq!(r.unknown_keeps, strings(&["nobody"]));
    assert_eq!(r.dropped_overrides, strings(&["dead"]));
    assert_eq!(r.arenas.keys(), strings(&["live"]));
    assert!(r.flattened.is_empty());
    let empty = prune_stage(
        &Table::new(),
        &summary,
        &NameSet::new(),
        &Table::new(),
        &Table::new(),
        &over,
    );
    assert_eq!(
        empty.err(),
        Some("variants.toml is empty or missing — run `infer variant` first.".to_string())
    );
}

#[test]
fn entities_that_stand_alone_keep_a_struct() {
    let d = specs(vec![
        ("e", enum_base("e")),
        ("m", in_enum("e")),
        ("f", enum_base("f")),
        ("w", merged("gone")),
    ]);
    let c = counts(&[("e", 2), ("m", 1), ("f", 1), ("w", 1)]);
    let left = prune_transitive_with_keep(&d, &c, &c, &NameSet::new());
    assert_eq!(left.get("e"), Some(&VariantSpec::ConcreteSupertype));
    assert_eq!(left.get("f"), Some(&VariantSpec::SingleStruct));
    assert_eq!(left.get("w"), Some(&VariantSpec::SingleStruct));
    assert_eq!(left.get("m"), Some(&in_enum("e")));
    let alone = counts(&[("m", 1)]);
    let left = prune_transitive_with_keep(&d, &c, &alone, &NameSet::new());
    assert_eq!(left.get("e"), Some(&enum_base("e")));
    assert!(!left.contains_key("w"));
}

#[test]
fn without_cycles_every_parent_comes_first() {
    let g = graph(&[("z", &["y", "b"]), ("y", &["a"]), ("b", &["a"]), ("c", &["z"])]);
    let order = topological_order(&g);
    assert_eq!(order.len(), 5);
    let at = |x: &str| order.iter().position(|n| n == x).unwrap();
    for (child, parent) in [("z", "y"), ("z", "b"), ("y", "a"), ("b", "a"), ("c", "z")] {
        assert!(at(parent) < at(child));
    }
    assert!(find_left_over(&g).is_empty());
    assert_eq!(warn_of_cycles(&g), None);
}

#[test]
fn cycles_leave_names_over() {
    let g = graph(&[("a", &["b"]), ("b", &["a"]), ("c", &["a"]), ("d", &["e"])]);
    assert_eq!(find_left_over(&g), strings(&["a", "b", "c"]));
    assert_eq!(topological_order(&g), strings(&["e", "d", "a", "b", "c"]));
    assert_eq!(
        warn_of_cycles(&g),
        Some("warning: inheritance graph has a cycle (3 entities left over) — appended in arbitrary order".to_string())
    );
    let own = graph(&[("a", &["a"])]);
    assert_eq!(find_left_over(&own), strings(&["a"]));
}
