use step_io_blueprint::catalog::{
    build_catalog, classify, glob_match, write_markdown, Catalog, Confidence, GroupRule,
    GroupSummary, GroupsConfig,
};
use step_io_blueprint::express::reader::parse_express;
use step_io_blueprint::express::Schema;
use step_io_blueprint::inheritance::{ancestors, effective_attr_count, root_supertype};
use step_io_blueprint::names::{NameSet, Table};
use step_io_blueprint::step_io_scan::{add_names, scan_text};

fn strings(names: &[&str]) -> Vec<String> {
    names.iter().map(|s| s.to_string()).collect()
}

fn rule(name: &str, patterns: &[&str], roots: &[&str], exclude: &[&str]) -> GroupRule {
    GroupRule {
        name: name.to_string(),
        description: format!("about {name}"),
        patterns: strings(patterns),
        root_supertypes: strings(roots),
        exclude_root: strings(exclude),
    }
}

fn config() -> GroupsConfig {
    GroupsConfig {
        group: vec![
            rule("geometry", &["*point*", "line"], &["geometric_item"], &["styled"]),
            rule("style", &["style_*"], &["styled"], &[]),
        ],
    }
}

fn demo(label: &str) -> Schema {
    parse_express(
        "ENTITY geometric_item;\n a : REAL;\nEND_ENTITY;\n\
ENTITY point\n SUBTYPE OF (geometric_item);\n b, c : REAL;\nEND_ENTITY;\n\
ENTITY curve\n SUBTYPE OF (geometric_item);\nEND_ENTITY;\n\
ENTITY line;\nEND_ENTITY;\n\
ENTITY other;\n bad : two words;\nEND_ENTITY;\n",
        label.to_string(),
    )
}

#[test]
fn stars_stand_for_any_text() {
    assert!(glob_match("line", "line"));
    assert!(!glob_match("line", "lines"));
    assert!(glob_match("*", ""));
    assert!(glob_match("**", "x"));
    assert!(glob_match("a*", "a"));
    assert!(!glob_match("a*", "ba"));
    assert!(glob_match("*_point", "cartesian_point"));
    assert!(!glob_match("*_point", "cartesian_points"));
    assert!(glob_match("a*b*c", "axbxbxc"));
    assert!(!glob_match("ab*b", "ab"));
    assert!(glob_match("*aab", "aaab"));
    assert!(!glob_match("", "a"));
    assert!(glob_match("", ""));
}

#[test]
fn rules_agree_conflict_or_miss() {
    let c = config();
    let root = Some("geometric_item".to_string());
    let up = strings(&["geometric_item"]);
    assert_eq!(
        classify("POINT", &root, &up, &c),
        ("geometry".to_string(), Confidence::High, Some("*point*".to_string()))
    );
    assert_eq!(
        classify("style_x", &root, &up, &c),
        ("geometry".to_string(), Confidence::Low, None)
    );
    assert_eq!(
        classify("curve", &root, &up, &c),
        ("geometry".to_string(), Confidence::Medium, None)
    );
    assert_eq!(
        classify("line", &None, &Vec::new(), &c),
        ("geometry".to_string(), Confidence::Medium, Some("line".to_string()))
    );
    assert_eq!(
        classify("nothing", &Some("nothing".to_string()), &Vec::new(), &c),
        ("_unclassified".to_string(), Confidence::Low, None)
    );
    assert_eq!(
        classify("x", &root, &strings(&["geometric_item", "styled"]), &c),
        ("style".to_string(), Confidence::Medium, None)
    );
}

#[test]
fn supertypes_win_over_patterns() {
    let c = config();
    let r = classify("style_line", &Some("geometric_item".to_string()), &Vec::new(), &c);
    assert_eq!(r.0, "geometry");
}

#[test]
fn catalogs_count_what_they_list() {
    let mut known = NameSet::new();
    known.insert("POINT".to_string());
    let c = build_catalog(&vec![demo("two"), demo("one")], &config(), &known);
    assert_eq!(c.schemas, strings(&["two", "one"]));
    assert_eq!(
        c.entities.keys(),
        strings(&["curve", "geometric_item", "line", "other", "point"])
    );
    assert_eq!(c.groups.keys(), strings(&["_unclassified", "geometry", "style"]));
    let geometry = c.groups.get("geometry").unwrap();
    assert_eq!(geometry.count, 4);
    assert_eq!(geometry.step_io_count, 1);
    assert_eq!(geometry.entities, strings(&["curve", "geometric_item", "line", "point"]));
    assert_eq!(c.groups.get("style").unwrap().count, 0);
    assert_eq!(c.groups.get("_unclassified").unwrap().entities, strings(&["other"]));
    assert_eq!(c.group_descriptions.get("style").unwrap(), "about style");
    assert!(!c.group_descriptions.contains_key("_unclassified"));
    let point = c.entities.get("point").unwrap();
    assert_eq!(point.confidence, Confidence::High);
    assert_eq!(point.root_supertype, Some("geometric_item".to_string()));
    assert_eq!(point.matched_pattern, Some("*point*".to_string()));
    assert_eq!(point.schemas_present, strings(&["one", "two"]));
    assert_eq!(point.effective_attr_count.get("one"), Some(&3));
    assert!(point.step_io_supports);
    assert!(!c.entities.get("line").unwrap().step_io_supports);
    assert_eq!(c.parser_warnings.len(), 2);
    assert_eq!(
        c.parser_warnings[0],
        "[two] other: ATTR type parse failed for [\"bad\"] (unrecognised type repr: \"two words\") — type was \"two words\""
    );
}

#[test]
fn catalogs_are_written_as_markdown() {
    let mut known = NameSet::new();
    known.insert("LINE".to_string());
    let s = parse_express(
        "ENTITY line;\nEND_ENTITY;\nENTITY odd;\nEND_ENTITY;\nTYPE t;\nEND_TYPE;\n",
        "demo".to_string(),
    );
    let c = build_catalog(&vec![s], &config(), &known);
    let expected = "# Entity catalog\n\n\
Schemas loaded: 1 (demo)\n\n\
Total unique entities: **2**\n\n\
step-io processes: **1** entities\n\n\
## Group distribution\n\n\
| group | description | count | step-io |\n\
|---|---|---:|---:|\n\
| `_unclassified` | no rule matched (manual review needed) | 1 | 0 |\n\
| `geometry` | about geometry | 1 | 1 |\n\
\n\
## Entities by group\n\n\
### `_unclassified` — no rule matched (manual review needed) (1 entities, 0 step-io)\n\n\
-   [L] `odd` (root: odd, schemas: demo)\n\
\n\
### `geometry` — about geometry (1 entities, 1 step-io)\n\n\
- ✓ [M] `line` (root: line, schemas: demo)\n\
\n\
## Parser warnings\n\n\
- [demo] TYPE missing '=':\nTYPE t;\nEND_TYPE;\n\n\
\n";
    assert_eq!(write_markdown(&c), expected);
}

#[test]
fn attributes_are_counted_with_the_inherited_ones() {
    let s = demo("x");
    assert_eq!(effective_attr_count("point", &s), Some(3));
    assert_eq!(effective_attr_count("line", &s), Some(0));
    assert_eq!(effective_attr_count("nobody", &s), None);
}

#[test]
fn rings_of_parents_end_the_walk() {
    let s = parse_express(
        "ENTITY a\n SUBTYPE OF (b);\nEND_ENTITY;\nENTITY b\n SUBTYPE OF (a, c);\nEND_ENTITY;\n",
        "x".to_string(),
    );
    assert_eq!(root_supertype("a", &s), Some("a".to_string()));
    assert_eq!(root_supertype("c", &s), Some("c".to_string()));
    assert_eq!(ancestors("a", &s), strings(&["b", "a", "c"]));
    assert!(ancestors("c", &s).is_empty());
}

#[test]
fn call_sites_give_the_entity_names() {
    let mut names = NameSet::new();
    scan_text(
        "check_count(attrs, 4, entity_id, \"CARTESIAN_POINT\")?;\n\
check_count(attrs,12,entity_id,\"LINE_2\")\n\
check_count(attrs, n, entity_id, \"NOT_THIS\")\n\
check_count(attrs, 1, entity_id, \"lower\")\n",
        &mut names,
    );
    assert_eq!(names.names(), strings(&["CARTESIAN_POINT", "LINE_2"]));
    add_names(vec![Some("A".to_string()), None, Some("LINE_2".to_string())], &mut names);
    assert_eq!(names.names(), strings(&["A", "CARTESIAN_POINT", "LINE_2"]));
}

#[test]
fn groups_that_count_nothing_are_not_written_out() {
    let mut groups = Table::new();
    for name in ["_unclassified", "geometry"] {
        groups.insert(
            name.to_string(),
            GroupSummary {
                description: "none".to_string(),
                count: 0,
                step_io_count: 0,
                entities: strings(&["unknown"]),
            },
        );
    }
    let c = Catalog {
        schemas: vec![],
        group_descriptions: Table::new(),
        entities: Table::new(),
        groups,
        parser_warnings: vec![],
    };
    assert_eq!(
        write_markdown(&c),
        "# Entity catalog\n\nSchemas loaded: 0 ()\n\nTotal unique entities: **0**\n\n\
step-io processes: **0** entities\n\n## Group distribution\n\n\
| group | description | count | step-io |\n|---|---|---:|---:|\n\
| `_unclassified` | none | 0 | 0 |\n\n## Entities by group\n\n"
    );
}
