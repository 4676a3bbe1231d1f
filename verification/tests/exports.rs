use step_io_blueprint::express::reader::parse_express;
use step_io_blueprint::express::type_parser::parse_type_repr;
use step_io_blueprint::express::{AttrType, Schema, SupertypeExpr};
use step_io_blueprint::infer::export_common::{
    export_attrs, export_signals, order_by_rank, rank_schemas, redeclaration_has_signal,
    schema_rank, ty_repr, write_aliases, write_conflicts, ExportAttr,
};
use step_io_blueprint::infer::l1_export;
use step_io_blueprint::infer::profile_export::{
    compile_profile, nearest_legal_supertype, targets, Target,
};
use step_io_blueprint::infer::prune::UsageRecord;
use step_io_blueprint::infer::refgraph::{
    build, describe_type, first_aliases, first_declarations, list_schemas, mentioned_names,
    shape_eq,
};
use step_io_blueprint::infer::universal_export::{
    collect_combinable, compile_universal, find_complex_parts,
};
use step_io_blueprint::names::{NameSet, Table};

fn strings(names: &[&str]) -> Vec<String> {
    names.iter().map(|s| s.to_string()).collect()
}

fn schema(label: &str, text: &str) -> Schema {
    let s = parse_express(text, label.to_string());
    assert!(s.parse_warnings.is_empty());
    s
}

fn entity(name: &str) -> AttrType {
    AttrType::Entity(name.to_string())
}

fn boxed(name: &str) -> Box<AttrType> {
    Box::new(entity(name))
}

fn pairs(attrs: &[ExportAttr]) -> Vec<(String, String)> {
    attrs.iter().map(|a| (a.name.clone(), a.ty.clone())).collect()
}

fn pair(a: &str, b: &str) -> (String, String) {
    (a.to_string(), b.to_string())
}

fn target(name: &str, label: &str) -> Target {
    Target {
        out_name: name.to_string(),
        label_match: label.to_string(),
        file_schema: strings(&["DEMO"]),
        apd_status: "draft".to_string(),
        apd_name: "demo".to_string(),
        apd_year: 2020,
        apd_desc: "a demo".to_string(),
    }
}

fn usage(count: usize) -> UsageRecord {
    UsageRecord { instance_count: 0, complex_part_count: count, co_instantiated_with: Vec::new() }
}

#[test]
fn editions_are_ranked_by_label() {
    assert_eq!(schema_rank("ap242e3"), 6);
    assert_eq!(schema_rank("ap242e2"), 5);
    assert_eq!(schema_rank("ap242e1"), 4);
    assert_eq!(schema_rank("ap214e3"), 3);
    assert_eq!(schema_rank("ap203e2"), 2);
    assert_eq!(schema_rank("ap203e1"), 1);
    assert_eq!(schema_rank("ap242"), 0);
}

#[test]
fn editions_are_ranked_by_prefix() {
    assert_eq!(l1_export::schema_rank("ap242ed3_mim_lf_v1.152"), 6);
    assert_eq!(l1_export::schema_rank("ap242ed2_dis2"), 5);
    assert_eq!(l1_export::schema_rank("ap242"), 4);
    assert_eq!(l1_export::schema_rank("ap214e3"), 3);
    assert_eq!(l1_export::schema_rank("ap203e2"), 2);
    assert_eq!(l1_export::schema_rank("ap203"), 1);
    assert_eq!(l1_export::schema_rank("ap2"), 0);
}

#[test]
fn newest_schemas_come_first_and_ties_keep_their_order() {
    let all = vec![
        schema("b", ""),
        schema("ap203e1", ""),
        schema("a", ""),
        schema("ap242e2", ""),
    ];
    let ranks = rank_schemas(&all);
    assert_eq!(ranks, vec![0, 1, 0, 5]);
    let order: Vec<String> =
        order_by_rank(&all, &ranks).iter().map(|s| s.source_label.clone()).collect();
    assert_eq!(order, strings(&["ap242e2", "ap203e1", "b", "a"]));
}

#[test]
fn types_are_written_in_one_line() {
    assert_eq!(ty_repr(&AttrType::Primitive("REAL".to_string())), "real");
    assert_eq!(ty_repr(&entity("x")), "x");
    assert_eq!(ty_repr(&AttrType::List(boxed("x"))), "LIST OF x");
    assert_eq!(ty_repr(&AttrType::SetOf(boxed("x"))), "SET OF x");
    assert_eq!(ty_repr(&AttrType::Bag(boxed("x"))), "BAG OF x");
    assert_eq!(ty_repr(&AttrType::Array(boxed("x"))), "ARRAY OF x");
    assert_eq!(
        ty_repr(&AttrType::Optional(Box::new(AttrType::List(boxed("x"))))),
        "OPTIONAL LIST OF x"
    );
    assert_eq!(ty_repr(&AttrType::Select(strings(&["a", "b"]))), "SELECT(a, b)");
    assert_eq!(ty_repr(&AttrType::Enumeration(strings(&["a"]))), "ENUM(a)");
}

#[test]
fn redeclarations_to_primitives_and_selects_count() {
    let s = schema(
        "x",
        "TYPE pick = SELECT (a, b); END_TYPE;\nTYPE same = pick; END_TYPE;\n",
    );
    let ranked = vec![&s];
    assert!(redeclaration_has_signal(&AttrType::Primitive("REAL".to_string()), &ranked));
    assert!(redeclaration_has_signal(&AttrType::Select(Vec::new()), &ranked));
    assert!(redeclaration_has_signal(&entity("pick"), &ranked));
    assert!(!redeclaration_has_signal(&entity("same"), &ranked));
    assert!(!redeclaration_has_signal(&entity("a"), &ranked));
    assert!(!redeclaration_has_signal(&AttrType::List(boxed("pick")), &ranked));
    let e = schema(
        "y",
        "ENTITY e;\n SELF\\up.p : pick;\n SELF\\up.q : a;\n r : a;\nEND_ENTITY;\n",
    );
    let d = e.entities.get("e").unwrap();
    assert_eq!(pairs(&export_signals(&d.redeclared_attrs, &ranked)), vec![pair("p", "pick")]);
    assert_eq!(pairs(&export_attrs(&d.own_attrs)), vec![pair("r", "a")]);
}

#[test]
fn types_are_described_with_their_kind() {
    assert_eq!(
        describe_type(&AttrType::Optional(Box::new(AttrType::List(boxed("x"))))),
        "Optional(List(Entity(\"x\")))"
    );
    assert_eq!(
        describe_type(&AttrType::Select(strings(&["a", "b"]))),
        "Select([\"a\", \"b\"])"
    );
    assert_eq!(describe_type(&AttrType::SetOf(boxed("x"))), "Set(Entity(\"x\"))");
}

#[test]
fn shapes_are_equal_only_to_themselves() {
    assert!(shape_eq(&AttrType::List(boxed("x")), &AttrType::List(boxed("x"))));
    assert!(!shape_eq(&AttrType::List(boxed("x")), &AttrType::SetOf(boxed("x"))));
    assert!(!shape_eq(&entity("x"), &entity("y")));
    assert!(!shape_eq(
        &AttrType::Select(strings(&["a", "b"])),
        &AttrType::Select(strings(&["b", "a"]))
    ));
}

#[test]
fn types_mention_the_names_in_them() {
    assert_eq!(
        mentioned_names(&AttrType::List(Box::new(AttrType::Select(strings(&["a", "b"]))))),
        strings(&["a", "b"])
    );
    assert!(mentioned_names(&AttrType::Enumeration(strings(&["a"]))).is_empty());
}

#[test]
fn declarations_of_all_schemas_are_united() {
    let one = schema(
        "one",
        "ENTITY e\n SUBTYPE OF (p);\n x : INTEGER;\nEND_ENTITY;\n",
    );
    let two = schema(
        "two",
        "ENTITY e\n ABSTRACT SUPERTYPE\n SUBTYPE OF (q, p);\n x : REAL;\nEND_ENTITY;\nENTITY f;\nEND_ENTITY;\n",
    );
    let all = vec![one, two];
    let u = build(&all);
    assert_eq!(u.entity_parents.keys(), strings(&["e", "f"]));
    assert_eq!(u.entity_parents.get("e").unwrap(), &strings(&["p", "q"]));
    assert!(u.abstract_entities.contains("e"));
    assert!(!u.abstract_entities.contains("f"));
    assert_eq!(
        write_conflicts(&u.attr_conflicts, "e"),
        strings(&["x: one: Primitive(\"INTEGER\") | two: Primitive(\"REAL\")"])
    );
    assert!(write_conflicts(&u.attr_conflicts, "f").is_empty());
    let listed = list_schemas(&all);
    assert_eq!(first_declarations(&listed).get("e").unwrap().parents, strings(&["p"]));
}

#[test]
fn first_alias_is_taken() {
    let one = schema("one", "TYPE t = REAL; END_TYPE;\n");
    let two = schema("two", "TYPE t = STRING; END_TYPE;\nTYPE u = LIST OF t; END_TYPE;\n");
    let all = vec![one, two];
    let aliases = first_aliases(&list_schemas(&all));
    let written = write_aliases(&aliases);
    assert_eq!(written.keys(), strings(&["t", "u"]));
    assert_eq!(written.get("t").unwrap(), "real");
    assert_eq!(written.get("u").unwrap(), "LIST OF t");
}

#[test]
fn early_model_takes_the_newest_declaration() {
    let old = schema(
        "ap203",
        "ENTITY unit\n SUBTYPE OF (named);\n a : INTEGER;\nEND_ENTITY;\nENTITY gone;\nEND_ENTITY;\nTYPE t = REAL; END_TYPE;\n",
    );
    let new = schema(
        "ap242ed3_x",
        "ENTITY unit\n SUBTYPE OF (derived);\n b : t;\n a : REAL;\n SELF\\derived.c : STRING;\nEND_ENTITY;\nTYPE t = STRING; END_TYPE;\n",
    );
    let doc = l1_export::compile_early(&vec![old, new]);
    assert_eq!(doc.entity.keys(), strings(&["gone", "unit"]));
    let unit = doc.entity.get("unit").unwrap();
    assert_eq!(unit.parents, strings(&["derived"]));
    assert!(!unit.is_abstract);
    assert_eq!(pairs(&unit.own_attrs), vec![pair("b", "t"), pair("a", "real")]);
    assert_eq!(pairs(&unit.redeclared_attrs), vec![pair("c", "string")]);
    assert_eq!(
        unit.attr_conflicts,
        strings(&["a: ap203: Primitive(\"INTEGER\") | ap242ed3_x: Primitive(\"REAL\")"])
    );
    assert_eq!(doc.type_aliases.get("t").unwrap(), "string");
}

#[test]
fn profiles_have_their_curated_targets() {
    let ts = targets();
    assert_eq!(ts.len(), 3);
    assert_eq!(ts[0].out_name, "ap214e3");
    assert_eq!(ts[0].apd_year, 2009);
    assert_eq!(ts[1].out_name, "ap242e2");
    assert_eq!(ts[1].label_match, "ap242ed2");
    assert_eq!(ts[1].apd_year, 2011);
    assert_eq!(ts[2].out_name, "ap203e2");
    assert_eq!(
        ts[2].file_schema,
        strings(&["AP203_CONFIGURATION_CONTROLLED_3D_DESIGN_OF_MECHANICAL_PARTS_AND_ASSEMBLIES_MIM_LF { 1 0 10303 403 2 1 2 }"])
    );
    assert_eq!(ts[2].apd_status, "international standard");
}

#[test]
fn profiles_hold_one_schema_and_downgrade_the_rest() {
    let mine = schema(
        "mine_v1",
        "ENTITY context;\n name : STRING;\nEND_ENTITY;\nTYPE t = REAL; END_TYPE;\n",
    );
    let other = schema(
        "other",
        "ENTITY design\n SUBTYPE OF (context);\nEND_ENTITY;\n\
ENTITY deeper\n SUBTYPE OF (design);\nEND_ENTITY;\n\
ENTITY extra\n SUBTYPE OF (context);\n more : STRING;\nEND_ENTITY;\n\
ENTITY twice\n SUBTYPE OF (context, design);\nEND_ENTITY;\n\
ENTITY orphan\n SUBTYPE OF (nobody);\nEND_ENTITY;\n\
ENTITY ring\n SUBTYPE OF (ring);\nEND_ENTITY;\n\
ENTITY context;\nEND_ENTITY;\n",
    );
    let all = vec![other, mine];
    let doc = compile_profile(&all, &target("mine", "mine")).unwrap();
    assert_eq!(doc.source_label, "mine_v1");
    assert_eq!(doc.entity.keys(), strings(&["context"]));
    assert_eq!(pairs(&doc.entity.get("context").unwrap().own_attrs), vec![pair("name", "string")]);
    assert_eq!(doc.type_aliases.get("t").unwrap(), "real");
    assert_eq!(doc.downgrade.keys(), strings(&["deeper", "design"]));
    assert_eq!(doc.downgrade.get("deeper").unwrap(), "context");
    assert_eq!(doc.downgrade.get("design").unwrap(), "context");
}

#[test]
fn profiles_need_their_schema() {
    let all = vec![schema("other", "")];
    assert_eq!(
        compile_profile(&all, &target("mine", "mi")).err(),
        Some(
            "profile_export: no schema with source_label starting 'mi' (target mine)".to_string()
        )
    );
}

#[test]
fn long_chains_are_not_followed() {
    let mut text = String::from("ENTITY e0;\nEND_ENTITY;\n");
    for i in 1..70 {
        text.push_str(&format!("ENTITY e{}\n SUBTYPE OF (e{});\nEND_ENTITY;\n", i, i - 1));
    }
    let all = vec![schema("long", &text)];
    let decls = first_declarations(&list_schemas(&all));
    let base = vec![schema("base", "ENTITY e0;\nEND_ENTITY;\n")];
    let allowed = first_declarations(&list_schemas(&base));
    assert_eq!(
        nearest_legal_supertype(decls.get("e64").unwrap(), &decls, &allowed),
        Some("e0".to_string())
    );
    assert_eq!(nearest_legal_supertype(decls.get("e65").unwrap(), &decls, &allowed), None);
    assert_eq!(nearest_legal_supertype(decls.get("e0").unwrap(), &decls, &allowed), None);
}

#[test]
fn only_members_of_andor_and_and_combine() {
    let leaf = |n: &str| SupertypeExpr::Entity { name: n.to_string() };
    let expr = SupertypeExpr::OneOf {
        children: vec![
            leaf("alone"),
            SupertypeExpr::AndOr {
                children: vec![
                    leaf("a"),
                    SupertypeExpr::OneOf { children: vec![leaf("b"), leaf("c")] },
                ],
            },
        ],
    };
    let mut out = NameSet::new();
    collect_combinable(&expr, false, &mut out);
    assert_eq!(out.names(), strings(&["a", "b", "c"]));
    collect_combinable(&expr, true, &mut out);
    assert_eq!(out.names(), strings(&["a", "alone", "b", "c"]));
}

#[test]
fn parts_are_combinable_entities_and_what_is_above_them() {
    let text = "ENTITY root\n SUPERTYPE OF (ONEOF (top, solo));\nEND_ENTITY;\n\
ENTITY top\n SUPERTYPE OF (left ANDOR right)\n SUBTYPE OF (root);\nEND_ENTITY;\n\
ENTITY left\n SUBTYPE OF (top);\nEND_ENTITY;\n\
ENTITY right\n SUBTYPE OF (top);\nEND_ENTITY;\n\
ENTITY solo\n SUBTYPE OF (root);\nEND_ENTITY;\n\
ENTITY bare;\nEND_ENTITY;\n\
ENTITY kid\n SUBTYPE OF (bare);\nEND_ENTITY;\n";
    let all = vec![schema("x", text)];
    let decls = first_declarations(&list_schemas(&all));
    let parts = find_complex_parts(&decls, &Table::new());
    assert_eq!(parts.names(), strings(&["bare", "kid", "left", "right", "root", "top"]));
    let mut corpus = Table::new();
    corpus.insert("solo".to_string(), usage(1));
    corpus.insert("length_measure".to_string(), usage(5));
    corpus.insert("bare".to_string(), usage(0));
    let parts = find_complex_parts(&decls, &corpus);
    assert!(parts.contains("solo"));
    assert!(!parts.contains("length_measure"));
}

#[test]
fn universal_model_unites_selects_and_lists_derives() {
    let old = schema(
        "ap203e1",
        "TYPE pick = SELECT (a, b); END_TYPE;\nTYPE plain = REAL; END_TYPE;\nTYPE mixed = SELECT (m); END_TYPE;\n",
    );
    let new = schema(
        "ap242e3",
        "TYPE pick = SELECT (c, a); END_TYPE;\nTYPE plain = STRING; END_TYPE;\nTYPE mixed = REAL; END_TYPE;\n\
ENTITY e\n SUBTYPE OF (up);\n x : REAL;\nDERIVE\n SELF\\up.y : REAL := 1;\n z : REAL := 2;\nEND_ENTITY;\n",
    );
    let doc = compile_universal(&vec![old, new], &Table::new());
    assert_eq!(doc.type_aliases.keys(), strings(&["mixed", "pick", "plain"]));
    assert_eq!(doc.type_aliases.get("pick").unwrap(), "SELECT(c, a, b)");
    assert_eq!(doc.type_aliases.get("plain").unwrap(), "string");
    assert_eq!(doc.type_aliases.get("mixed").unwrap(), "SELECT(m)");
    let e = doc.entity.get("e").unwrap();
    assert_eq!(e.derives, strings(&["up.y", "z"]));
    assert_eq!(e.parents, strings(&["up"]));
    assert!(!e.is_complex_part);
    assert_eq!(pairs(&e.own_attrs), vec![pair("x", "real")]);
}

#[test]
fn types_are_read_back_from_their_texts() {
    let real = || AttrType::Primitive("REAL".to_string());
    let types = vec![
        real(),
        entity("integer_value"),
        entity("_x1"),
        AttrType::List(Box::new(AttrType::SetOf(Box::new(real())))),
        AttrType::Bag(boxed("list")),
        AttrType::Array(Box::new(AttrType::Select(strings(&["a", "integer", "b_2"])))),
        AttrType::Optional(Box::new(AttrType::Optional(boxed("optional")))),
        AttrType::Optional(Box::new(AttrType::List(boxed("x")))),
        AttrType::Select(vec![]),
        AttrType::Select(strings(&["one"])),
    ];
    for t in &types {
        assert!(shape_eq(&parse_type_repr(&ty_repr(t)).unwrap(), t));
    }
}

#[test]
fn some_types_are_not_read_back() {
    let inner = AttrType::List(Box::new(AttrType::Optional(boxed("x"))));
    assert_eq!(ty_repr(&inner), "LIST OF OPTIONAL x");
    assert!(shape_eq(&parse_type_repr(&ty_repr(&inner)).unwrap(), &AttrType::List(boxed("x"))));
    let list = AttrType::Enumeration(strings(&["on", "off"]));
    assert!(parse_type_repr(&ty_repr(&list)).is_err());
}
