use step_io_blueprint::infer::notices::{
    find_pinned, find_recovered, find_specialised, prune_notices, usage_notice,
};
use step_io_blueprint::infer::prune::{
    flatten_middle_nodes, prune_transitive, prune_transitive_with_keep, UsageRecord,
};
use step_io_blueprint::infer::variant::VariantSpec;
use step_io_blueprint::names::{Duplicate, NameSet, Table};

fn name_set(names: &[&str]) -> NameSet {
    let mut out = NameSet::new();
    for n in names {
        out.insert(n.to_string());
    }
    out
}

fn variants_with(pairs: &[(&str, VariantSpec)]) -> Table<VariantSpec> {
    let mut out = Table::new();
    for (k, v) in pairs {
        out.insert(k.to_string(), v.clone());
    }
    out
}

fn counts_of(pairs: Vec<(String, usize)>) -> Table<usize> {
    let mut out = Table::new();
    for (k, n) in pairs {
        out.insert(k, n);
    }
    out
}

fn links(pairs: &[(&str, &str)]) -> Table<String> {
    let mut out = Table::new();
    for (k, v) in pairs {
        out.insert(k.to_string(), v.to_string());
    }
    out
}

#[test]
fn prune_drops_unused_singletons() {
    let variants = variants_with(&[
        ("used", VariantSpec::SingleStruct),
        ("dead", VariantSpec::SingleStruct),
    ]);
    let counts = counts_of(vec![("used".to_string(), 5)]);
    let pruned = prune_transitive(&variants, &counts);
    assert!(pruned.contains_key("used"));
    assert!(!pruned.contains_key("dead"));
}

#[test]
fn prune_recovers_self_instantiated_merged_into() {
    let variants = variants_with(&[
        (
            "aoa",
            VariantSpec::MergedInto {
                target: "dctpca".into(),
                chain: vec![],
            },
        ),
        ("dctpca", VariantSpec::SingleStruct),
    ]);
    let counts = counts_of(vec![("aoa".to_string(), 116)]);
    let pruned = prune_transitive(&variants, &counts);
    assert_eq!(
        pruned.get("aoa"),
        Some(&VariantSpec::SingleStruct),
        "self-instantiated MergedInto recovered to SingleStruct, not cascade-dropped"
    );
    assert!(
        !pruned.contains_key("dctpca"),
        "the 0-corpus merge target is still pruned"
    );
}

#[test]
fn prune_enum_with_zero_remaining_members_disappears() {
    let variants = variants_with(&[
        (
            "shape",
            VariantSpec::EnumBase {
                enum_name: "shape".into(),
            },
        ),
        (
            "circle",
            VariantSpec::InEnum {
                enum_name: "shape".into(),
            },
        ),
        (
            "square",
            VariantSpec::InEnum {
                enum_name: "shape".into(),
            },
        ),
    ]);
    let counts: Table<usize> = Table::new();
    let pruned = prune_transitive(&variants, &counts);
    assert!(!pruned.contains_key("shape"));
    assert!(!pruned.contains_key("circle"));
    assert!(!pruned.contains_key("square"));
}

#[test]
fn prune_enum_with_one_remaining_member_collapses_to_single_struct() {
    let variants = variants_with(&[
        (
            "shape",
            VariantSpec::EnumBase {
                enum_name: "shape".into(),
            },
        ),
        (
            "circle",
            VariantSpec::InEnum {
                enum_name: "shape".into(),
            },
        ),
        (
            "square",
            VariantSpec::InEnum {
                enum_name: "shape".into(),
            },
        ),
    ]);
    let counts = counts_of(vec![("circle".to_string(), 7)]);
    let pruned = prune_transitive(&variants, &counts);
    assert!(pruned.contains_key("shape"));
    assert!(!pruned.contains_key("square"));
    assert!(matches!(
        pruned.get("circle"),
        Some(VariantSpec::InEnum { .. })
    ));
}

#[test]
fn prune_childless_concrete_supertype_specializes_to_single_struct() {
    let variants = variants_with(&[
        ("action", VariantSpec::ConcreteSupertype),
        (
            "executed_action",
            VariantSpec::InEnum {
                enum_name: "action".into(),
            },
        ),
    ]);
    let counts = counts_of(vec![("action".to_string(), 12)]);
    let pruned = prune_transitive(&variants, &counts);
    assert!(matches!(
        pruned.get("action"),
        Some(VariantSpec::SingleStruct)
    ));
    assert!(!pruned.contains_key("executed_action"));
}

#[test]
fn prune_concrete_supertype_with_live_child_unchanged() {
    let variants = variants_with(&[
        ("action", VariantSpec::ConcreteSupertype),
        (
            "executed_action",
            VariantSpec::InEnum {
                enum_name: "action".into(),
            },
        ),
    ]);
    let counts = counts_of(vec![
        ("action".to_string(), 12),
        ("executed_action".to_string(), 4),
    ]);
    let pruned = prune_transitive(&variants, &counts);
    assert!(matches!(
        pruned.get("action"),
        Some(VariantSpec::ConcreteSupertype)
    ));
    assert!(matches!(
        pruned.get("executed_action"),
        Some(VariantSpec::InEnum { .. })
    ));
}

#[test]
fn prune_self_reference_in_enum_parent_kept_via_live_child() {
    let variants = variants_with(&[
        (
            "parent_pdc",
            VariantSpec::InEnum {
                enum_name: "parent_pdc".into(),
            },
        ),
        (
            "child_dpdc",
            VariantSpec::InEnum {
                enum_name: "parent_pdc".into(),
            },
        ),
    ]);
    let counts = counts_of(vec![("child_dpdc".to_string(), 100)]);
    let pruned = prune_transitive(&variants, &counts);
    assert!(pruned.contains_key("parent_pdc"));
    assert!(pruned.contains_key("child_dpdc"));
    assert!(matches!(
        pruned.get("parent_pdc"),
        Some(VariantSpec::InEnum { enum_name }) if enum_name == "parent_pdc"
    ));
}

#[test]
fn prune_self_reference_in_enum_drops_when_no_live_child() {
    let variants = variants_with(&[
        (
            "parent_pdc",
            VariantSpec::InEnum {
                enum_name: "parent_pdc".into(),
            },
        ),
        (
            "child_dpdc",
            VariantSpec::InEnum {
                enum_name: "parent_pdc".into(),
            },
        ),
    ]);
    let counts: Table<usize> = Table::new();
    let pruned = prune_transitive(&variants, &counts);
    assert!(!pruned.contains_key("parent_pdc"));
    assert!(!pruned.contains_key("child_dpdc"));
}

#[test]
fn prune_concrete_supertype_with_only_dead_children_specializes() {
    let variants = variants_with(&[
        ("action", VariantSpec::ConcreteSupertype),
        (
            "executed_action",
            VariantSpec::InEnum {
                enum_name: "action".into(),
            },
        ),
        (
            "planned_action",
            VariantSpec::InEnum {
                enum_name: "action".into(),
            },
        ),
    ]);
    let counts = counts_of(vec![("action".to_string(), 5)]);
    let pruned = prune_transitive(&variants, &counts);
    assert!(matches!(
        pruned.get("action"),
        Some(VariantSpec::SingleStruct)
    ));
    assert!(!pruned.contains_key("executed_action"));
    assert!(!pruned.contains_key("planned_action"));
}

#[test]
fn prune_in_enum_loses_parent_and_disappears() {
    let variants = variants_with(&[
        (
            "shape",
            VariantSpec::EnumBase {
                enum_name: "shape".into(),
            },
        ),
        (
            "circle",
            VariantSpec::InEnum {
                enum_name: "shape".into(),
            },
        ),
        (
            "square",
            VariantSpec::InEnum {
                enum_name: "shape".into(),
            },
        ),
    ]);
    let counts: Table<usize> = Table::new();
    let pruned = prune_transitive(&variants, &counts);
    assert!(pruned.is_empty());
}

#[test]
fn prune_overrides_empty_matches_wrapper() {
    let variants = variants_with(&[
        ("used", VariantSpec::SingleStruct),
        ("dead", VariantSpec::SingleStruct),
    ]);
    let counts = counts_of(vec![("used".to_string(), 5)]);
    let baseline = prune_transitive(&variants, &counts);
    let with_empty = prune_transitive_with_keep(&variants, &counts, &counts, &NameSet::new());
    assert_eq!(baseline, with_empty);
}

#[test]
fn keep_preserves_zero_instance_entity() {
    let variants = variants_with(&[
        ("zero_used", VariantSpec::SingleStruct),
        ("seen", VariantSpec::SingleStruct),
    ]);
    let counts = counts_of(vec![("seen".to_string(), 3)]);
    let pruned =
        prune_transitive_with_keep(&variants, &counts, &counts, &name_set(&["zero_used"]));
    assert!(pruned.contains_key("zero_used"));
    assert!(pruned.contains_key("seen"));
}

#[test]
fn keep_breaks_cascade_for_enum_base() {
    let variants = variants_with(&[
        (
            "curve",
            VariantSpec::EnumBase {
                enum_name: "curve".into(),
            },
        ),
        (
            "line",
            VariantSpec::InEnum {
                enum_name: "curve".into(),
            },
        ),
        (
            "ray",
            VariantSpec::InEnum {
                enum_name: "curve".into(),
            },
        ),
    ]);
    let counts: Table<usize> = Table::new();

    let without_keep = prune_transitive(&variants, &counts);
    assert!(!without_keep.contains_key("curve"));
    assert!(!without_keep.contains_key("line"));
    assert!(!without_keep.contains_key("ray"));

    let with_keep =
        prune_transitive_with_keep(&variants, &counts, &counts, &name_set(&["curve"]));
    assert!(with_keep.contains_key("curve"));
    assert!(!with_keep.contains_key("line"));
    assert!(!with_keep.contains_key("ray"));
}

#[test]
fn auto_keep_preserves_supertype_with_live_child() {
    let variants = variants_with(&[
        (
            "placement",
            VariantSpec::EnumBase {
                enum_name: "placement".into(),
            },
        ),
        (
            "axis2_placement_3d",
            VariantSpec::InEnum {
                enum_name: "placement".into(),
            },
        ),
    ]);
    let counts = counts_of(vec![("axis2_placement_3d".to_string(), 9_000_000)]);

    let pruned = prune_transitive(&variants, &counts);
    assert!(matches!(
        pruned.get("placement"),
        Some(VariantSpec::EnumBase { .. })
    ));
    assert!(matches!(
        pruned.get("axis2_placement_3d"),
        Some(VariantSpec::InEnum { .. })
    ));
}

#[test]
fn auto_keep_does_not_fire_when_all_children_unused() {
    let variants = variants_with(&[
        (
            "curve",
            VariantSpec::EnumBase {
                enum_name: "curve".into(),
            },
        ),
        (
            "line",
            VariantSpec::InEnum {
                enum_name: "curve".into(),
            },
        ),
    ]);
    let counts: Table<usize> = Table::new();

    let pruned = prune_transitive(&variants, &counts);
    assert!(!pruned.contains_key("curve"));
    assert!(!pruned.contains_key("line"));
}

#[test]
fn corpus_recovery_self_live_no_live_child_becomes_single_struct() {
    let variants = variants_with(&[
        (
            "group",
            VariantSpec::EnumBase {
                enum_name: "group".into(),
            },
        ),
        (
            "change_group",
            VariantSpec::InEnum {
                enum_name: "group".into(),
            },
        ),
    ]);
    let counts = counts_of(vec![("group".to_string(), 5793)]);
    let standalone = counts.duplicate();
    let pruned = prune_transitive_with_keep(&variants, &counts, &standalone, &NameSet::new());
    assert!(matches!(
        pruned.get("group"),
        Some(VariantSpec::SingleStruct)
    ));
    assert!(!pruned.contains_key("change_group"));
}

#[test]
fn corpus_recovery_self_live_with_live_child_becomes_concrete_supertype() {
    let variants = variants_with(&[
        (
            "shape_aspect",
            VariantSpec::EnumBase {
                enum_name: "shape_aspect".into(),
            },
        ),
        (
            "datum_system",
            VariantSpec::InEnum {
                enum_name: "shape_aspect".into(),
            },
        ),
    ]);
    let counts = counts_of(vec![
        ("shape_aspect".to_string(), 3320),
        ("datum_system".to_string(), 5),
    ]);
    let standalone = counts.duplicate();
    let pruned = prune_transitive_with_keep(&variants, &counts, &standalone, &NameSet::new());
    assert!(matches!(
        pruned.get("shape_aspect"),
        Some(VariantSpec::ConcreteSupertype)
    ));
    assert!(matches!(
        pruned.get("datum_system"),
        Some(VariantSpec::InEnum { .. })
    ));
}

#[test]
fn corpus_recovery_skips_abstract_supertype_zero_standalone() {
    let variants = variants_with(&[
        (
            "placement",
            VariantSpec::EnumBase {
                enum_name: "placement".into(),
            },
        ),
        (
            "axis2_placement_3d",
            VariantSpec::InEnum {
                enum_name: "placement".into(),
            },
        ),
    ]);
    let counts = counts_of(vec![("axis2_placement_3d".to_string(), 9_000_000)]);
    let standalone = counts.duplicate();
    let pruned = prune_transitive_with_keep(&variants, &counts, &standalone, &NameSet::new());
    assert!(matches!(
        pruned.get("placement"),
        Some(VariantSpec::EnumBase { .. })
    ));
    assert!(matches!(
        pruned.get("axis2_placement_3d"),
        Some(VariantSpec::InEnum { .. })
    ));
}

#[test]
fn corpus_recovery_self_live_single_child_not_collapsed() {
    let variants = variants_with(&[
        (
            "property_definition",
            VariantSpec::EnumBase {
                enum_name: "property_definition".into(),
            },
        ),
        (
            "product_definition_shape",
            VariantSpec::InEnum {
                enum_name: "property_definition".into(),
            },
        ),
    ]);
    let counts = counts_of(vec![
        ("property_definition".to_string(), 13_696),
        ("product_definition_shape".to_string(), 253_440),
    ]);
    let standalone = counts.duplicate();
    let pruned = prune_transitive_with_keep(&variants, &counts, &standalone, &NameSet::new());
    assert!(matches!(
        pruned.get("property_definition"),
        Some(VariantSpec::ConcreteSupertype)
    ));
    assert!(matches!(
        pruned.get("product_definition_shape"),
        Some(VariantSpec::InEnum { .. })
    ));
}

#[test]
fn corpus_recovery_complex_part_only_stays_enum_base() {
    let variants = variants_with(&[
        (
            "curve",
            VariantSpec::EnumBase {
                enum_name: "curve".into(),
            },
        ),
        (
            "line",
            VariantSpec::InEnum {
                enum_name: "curve".into(),
            },
        ),
    ]);
    let counts = counts_of(vec![("curve".to_string(), 330_000), ("line".to_string(), 50)]);
    let standalone = counts_of(vec![("line".to_string(), 50)]);
    let pruned = prune_transitive_with_keep(&variants, &counts, &standalone, &NameSet::new());
    assert!(
        matches!(pruned.get("curve"), Some(VariantSpec::EnumBase { .. })),
        "curve appears only as a complex part (standalone 0) -> must stay EnumBase"
    );
    assert!(matches!(
        pruned.get("line"),
        Some(VariantSpec::InEnum { .. })
    ));
}

#[test]
fn flatten_demotes_middle_node_and_reparents_children() {
    let mut variants = variants_with(&[
        (
            "point",
            VariantSpec::EnumBase {
                enum_name: "point".into(),
            },
        ),
        (
            "cartesian_point",
            VariantSpec::EnumBase {
                enum_name: "cartesian_point".into(),
            },
        ),
        (
            "apll_point",
            VariantSpec::InEnum {
                enum_name: "cartesian_point".into(),
            },
        ),
    ]);
    let enum_roots = links(&[
        ("cartesian_point", "point"),
        ("apll_point", "cartesian_point"),
    ]);
    let standalone = counts_of(vec![
        ("cartesian_point".to_string(), 100),
        ("apll_point".to_string(), 5),
    ]);
    let demoted =
        flatten_middle_nodes(&mut variants, &enum_roots, &standalone, &Table::new());
    assert!(matches!(
        variants.get("cartesian_point"),
        Some(VariantSpec::InEnum { enum_name }) if enum_name == "point"
    ));
    assert!(matches!(
        variants.get("apll_point"),
        Some(VariantSpec::InEnum { enum_name }) if enum_name == "point"
    ));
    assert!(matches!(
        variants.get("point"),
        Some(VariantSpec::EnumBase { .. })
    ));
    assert_eq!(
        demoted,
        vec![("cartesian_point".to_string(), "point".to_string())]
    );
}

#[test]
fn flatten_skips_top_supertype_without_ancestor() {
    let mut variants = variants_with(&[
        ("representation", VariantSpec::ConcreteSupertype),
        (
            "shape_representation",
            VariantSpec::InEnum {
                enum_name: "representation".into(),
            },
        ),
    ]);
    let enum_roots = links(&[("shape_representation", "representation")]);
    let standalone = counts_of(vec![("representation".to_string(), 100)]);
    let demoted =
        flatten_middle_nodes(&mut variants, &enum_roots, &standalone, &Table::new());
    assert!(matches!(
        variants.get("representation"),
        Some(VariantSpec::ConcreteSupertype)
    ));
    assert!(demoted.is_empty());
}

#[test]
fn flatten_cascades_chain_to_stable_root() {
    let mut variants = variants_with(&[
        (
            "a",
            VariantSpec::EnumBase {
                enum_name: "a".into(),
            },
        ),
        (
            "m1",
            VariantSpec::EnumBase {
                enum_name: "m1".into(),
            },
        ),
        ("m2", VariantSpec::ConcreteSupertype),
        (
            "leaf",
            VariantSpec::InEnum {
                enum_name: "m2".into(),
            },
        ),
    ]);
    let enum_roots = links(&[("m1", "a"), ("m2", "m1"), ("leaf", "m2")]);
    let standalone = counts_of(vec![
        ("m1".to_string(), 10),
        ("m2".to_string(), 5),
        ("leaf".to_string(), 2),
    ]);
    flatten_middle_nodes(&mut variants, &enum_roots, &standalone, &Table::new());
    for e in ["m1", "m2", "leaf"] {
        assert!(
            matches!(variants.get(e), Some(VariantSpec::InEnum { enum_name }) if enum_name == "a"),
            "{e} should flatten to a, got {:?}",
            variants.get(e)
        );
    }
    assert!(matches!(
        variants.get("a"),
        Some(VariantSpec::EnumBase { .. })
    ));
}

#[test]
fn flatten_leaves_uninstantiated_dispatch_root_untouched() {
    let mut variants = variants_with(&[
        (
            "edge",
            VariantSpec::EnumBase {
                enum_name: "edge".into(),
            },
        ),
        (
            "edge_curve",
            VariantSpec::InEnum {
                enum_name: "edge".into(),
            },
        ),
    ]);
    let enum_roots = links(&[
        ("edge", "topological_representation_item"),
        ("edge_curve", "edge"),
    ]);
    let standalone = counts_of(vec![("edge_curve".to_string(), 100)]);
    let demoted =
        flatten_middle_nodes(&mut variants, &enum_roots, &standalone, &Table::new());
    assert!(matches!(
        variants.get("edge"),
        Some(VariantSpec::EnumBase { .. })
    ));
    assert!(matches!(
        variants.get("edge_curve"),
        Some(VariantSpec::InEnum { enum_name }) if enum_name == "edge"
    ));
    assert!(demoted.is_empty());
}

#[test]
fn flatten_pool_gate_pins_cross_pool_middle_node() {
    let mut variants = variants_with(&[
        (
            "representation_item",
            VariantSpec::EnumBase {
                enum_name: "representation_item".into(),
            },
        ),
        ("styled_item", VariantSpec::ConcreteSupertype),
        (
            "over_riding_styled_item",
            VariantSpec::InEnum {
                enum_name: "styled_item".into(),
            },
        ),
    ]);
    let enum_roots = links(&[
        ("styled_item", "representation_item"),
        ("over_riding_styled_item", "styled_item"),
    ]);
    let standalone = counts_of(vec![
        ("styled_item".to_string(), 100),
        ("over_riding_styled_item".to_string(), 5),
    ]);
    let pools = links(&[
        ("representation_item", "shape_rep"),
        ("styled_item", "visualization"),
    ]);
    flatten_middle_nodes(&mut variants, &enum_roots, &standalone, &pools);
    assert!(matches!(
        variants.get("styled_item"),
        Some(VariantSpec::ConcreteSupertype)
    ));
    assert!(matches!(
        variants.get("over_riding_styled_item"),
        Some(VariantSpec::InEnum { enum_name }) if enum_name == "styled_item"
    ));
}

#[test]
fn flatten_pool_gate_does_not_over_pin_same_pool_descendant() {
    let mut variants = variants_with(&[
        (
            "a",
            VariantSpec::EnumBase {
                enum_name: "a".into(),
            },
        ),
        ("b", VariantSpec::ConcreteSupertype),
        ("c", VariantSpec::ConcreteSupertype),
        (
            "leaf",
            VariantSpec::InEnum {
                enum_name: "c".into(),
            },
        ),
    ]);
    let enum_roots = links(&[("b", "a"), ("c", "b"), ("leaf", "c")]);
    let standalone = counts_of(vec![
        ("b".to_string(), 10),
        ("c".to_string(), 5),
        ("leaf".to_string(), 2),
    ]);
    let pools = links(&[("a", "shape_rep"), ("b", "pmi"), ("c", "pmi")]);
    flatten_middle_nodes(&mut variants, &enum_roots, &standalone, &pools);
    assert!(matches!(
        variants.get("b"),
        Some(VariantSpec::ConcreteSupertype)
    ));
    assert!(matches!(
        variants.get("c"),
        Some(VariantSpec::InEnum { enum_name }) if enum_name == "b"
    ));
    assert!(matches!(
        variants.get("leaf"),
        Some(VariantSpec::InEnum { enum_name }) if enum_name == "b"
    ));
}

fn base(name: &str) -> VariantSpec {
    VariantSpec::EnumBase { enum_name: name.to_string() }
}

fn member(host: &str) -> VariantSpec {
    VariantSpec::InEnum { enum_name: host.to_string() }
}

fn merged(target: &str) -> VariantSpec {
    VariantSpec::MergedInto { target: target.to_string(), chain: vec![] }
}

fn use_of(pairs: &[(&str, usize, usize)]) -> Table<UsageRecord> {
    let mut out = Table::new();
    for (k, all, part) in pairs {
        let record = UsageRecord {
            instance_count: *all,
            complex_part_count: *part,
            co_instantiated_with: vec![],
        };
        out.insert(k.to_string(), record);
    }
    out
}

#[test]
fn pruning_again_changes_nothing() {
    let variants = variants_with(&[
        ("a", base("a")),
        ("a1", member("a")),
        ("a2", member("a")),
        ("b", base("b")),
        ("b1", member("b")),
        ("c", VariantSpec::ConcreteSupertype),
        ("c1", member("c")),
        ("d", merged("gone")),
        ("d1", member("d")),
        ("e", member("e")),
        ("f", merged("b")),
        ("kept", base("kept")),
    ]);
    let counts = counts_of(vec![
        ("a1".to_string(), 3),
        ("b1".to_string(), 1),
        ("c".to_string(), 2),
        ("d".to_string(), 4),
        ("d1".to_string(), 1),
        ("f".to_string(), 1),
    ]);
    let standalone = counts_of(vec![("d".to_string(), 4), ("c".to_string(), 2)]);
    let keep = name_set(&["kept"]);
    let once = prune_transitive_with_keep(&variants, &counts, &standalone, &keep);
    assert_eq!(once.get("d"), Some(&VariantSpec::ConcreteSupertype));
    assert_eq!(once.get("c"), Some(&VariantSpec::SingleStruct));
    assert!(once.contains_key("kept"));
    assert!(!once.contains_key("e"));
    let twice = prune_transitive_with_keep(&once, &counts, &standalone, &keep);
    assert_eq!(twice, once);
}

#[test]
fn prune_tells_what_it_does() {
    let variants = variants_with(&[
        ("b", base("b")),
        ("b1", member("b")),
        ("c", VariantSpec::ConcreteSupertype),
        ("d", merged("b")),
        ("m", base("m")),
        ("p", base("p")),
        ("top", base("top")),
    ]);
    let usage = use_of(&[
        ("b", 5, 0),
        ("b1", 1, 0),
        ("c", 2, 2),
        ("d", 4, 1),
        ("m", 3, 0),
        ("p", 1, 0),
        ("top", 0, 0),
    ]);
    let roots = links(&[("m", "top"), ("p", "top")]);
    let pools = links(&[("p", "one"), ("top", "other")]);
    assert_eq!(usage_notice(&usage), "infer prune: 7 entities (used=6 unused=1)");
    assert_eq!(
        prune_notices(&variants, &usage, &NameSet::new(), &roots, &pools),
        vec![
            "infer prune: pool-boundary gate kept 1 middle node(s) as own arena: p",
            "infer prune: flattened 1 instantiated middle node(s) to InEnum of stable root: m->top",
            "infer prune: auto-kept 4 supertype(s) with live children: b, c, p, top",
            "infer prune: specialized 1 childless ConcreteSupertype(s) to SingleStruct: c",
            "infer prune: recovered 2 self-instantiated EnumBase(s) (-> ConcreteSupertype/SingleStruct): b, p",
            "infer prune: recovered 1 self-instantiated MergedInto(s) (-> ConcreteSupertype/SingleStruct): d",
        ]
    );
}

#[test]
fn prune_tells_of_no_more_than_eight() {
    let names = ["a", "b", "c", "d", "e", "f", "g", "h", "i"];
    let pairs: Vec<(&str, VariantSpec)> = names.iter().map(|n| (*n, merged("x"))).collect();
    let records: Vec<(&str, usize, usize)> = names.iter().map(|n| (*n, 1, 0)).collect();
    let none = links(&[]);
    let told = |n: usize| {
        prune_notices(
            &variants_with(&pairs[..n]),
            &use_of(&records[..n]),
            &NameSet::new(),
            &none,
            &none,
        )
    };
    assert!(told(0).is_empty());
    let head = "self-instantiated MergedInto(s) (-> ConcreteSupertype/SingleStruct): ";
    assert_eq!(
        told(8),
        vec![format!("infer prune: recovered 8 {head}a, b, c, d, e, f, g, h")]
    );
    assert_eq!(
        told(9),
        vec![format!("infer prune: recovered 9 {head}a, b, c, d, e, f, g, h, ...")]
    );
}

#[test]
fn what_prune_changes_is_found() {
    let variants = variants_with(&[
        ("b", base("b")),
        ("c", VariantSpec::ConcreteSupertype),
        ("c1", member("c")),
        ("d", merged("b")),
    ]);
    let counts = counts_of(vec![("c".to_string(), 1)]);
    let alone = counts_of(vec![("b".to_string(), 1), ("d".to_string(), 1)]);
    assert_eq!(find_specialised(&variants, &counts, &NameSet::new()).names(), vec!["c"]);
    assert!(find_specialised(&variants, &counts, &name_set(&["c1"])).is_empty());
    let (bases, others) = find_recovered(&variants, &alone);
    assert_eq!(bases.names(), vec!["b"]);
    assert_eq!(others.names(), vec!["d"]);
    let roots = links(&[("b", "r")]);
    let same = links(&[("b", "p"), ("r", "p")]);
    let other = links(&[("b", "p"), ("r", "q")]);
    assert!(find_pinned(&variants, &roots, &alone, &same).is_empty());
    assert_eq!(find_pinned(&variants, &roots, &alone, &other).names(), vec!["b"]);
}
