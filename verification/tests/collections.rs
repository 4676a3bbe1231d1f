use step_io_blueprint::express::supertype_parser::parse;
use step_io_blueprint::express::{AttrType, SupertypeExpr};
use step_io_blueprint::infer::export_common::ty_repr;
use step_io_blueprint::names::{listed, position, Duplicate, NameSet, Table};
use step_io_blueprint::text::{
    after_bytes, count_bytes, decimal_of, find_char, find_close, find_last_char, find_text,
    find_top, has_text, join, join3, join_all, same, split_at_char, split_lines, split_outside,
    trimmed, trimmed_end, trimmed_start, Brackets,
};

fn strings(names: &[&str]) -> Vec<String> {
    names.iter().map(|s| s.to_string()).collect()
}

fn chars(s: &str) -> Vec<char> {
    s.chars().collect()
}

fn text(s: &[char]) -> String {
    s.iter().collect()
}

fn leaf(name: &str) -> SupertypeExpr {
    SupertypeExpr::Entity { name: name.to_string() }
}

#[test]
fn tables_keep_their_keys_in_order() {
    let mut t: Table<usize> = Table::new();
    assert!(t.is_empty());
    for (k, v) in [("b", 1), ("a", 2), ("ab", 3), ("B", 4), ("é", 5), ("z", 6)] {
        t.insert(k.to_string(), v);
    }
    assert_eq!(t.keys(), strings(&["B", "a", "ab", "b", "z", "é"]));
    assert_eq!(t.key_at(0), "B");
    assert_eq!(t.value_at(0), &4);
    t.insert("a".to_string(), 7);
    assert_eq!(t.len(), 6);
    assert_eq!(t.get("a"), Some(&7));
    assert_eq!(t.get("c"), None);
    assert_eq!(t.remove("a"), Some(7));
    assert_eq!(t.remove("a"), None);
    assert!(!t.contains_key("a"));
    assert_eq!(t.duplicate(), t);
}

#[test]
fn sets_hold_a_name_once() {
    let mut s = NameSet::new();
    assert!(s.insert("b".to_string()));
    assert!(!s.insert("b".to_string()));
    assert!(s.insert("a".to_string()));
    assert_eq!(s.len(), 2);
    assert_eq!(s.at(1), "b");
    assert_eq!(s.minus(&NameSet::from_names(&strings(&["b", "c"]))).names(), strings(&["a"]));
    assert!(s.remove("a"));
    assert!(!s.remove("a"));
    assert!(!s.is_empty());
}

#[test]
fn lists_are_searched_from_the_front() {
    let v = strings(&["a", "b", "a"]);
    assert_eq!(position(&v, "a"), Some(0));
    assert_eq!(position(&v, "c"), None);
    assert!(listed(&v, "b"));
}

#[test]
fn space_of_every_kind_is_trimmed() {
    let s = chars("\u{3000}\t x y \u{a0}\n");
    assert_eq!(text(trimmed(&s)), "x y");
    assert_eq!(text(trimmed_start(&s)), "x y \u{a0}\n");
    assert_eq!(text(trimmed_end(&s)), "\u{3000}\t x y");
    assert!(trimmed(&chars(" \n")).is_empty());
}

#[test]
fn texts_are_searched() {
    let s = chars("a.b.c");
    assert_eq!(find_char(&s, '.'), Some(1));
    assert_eq!(find_last_char(&s, '.'), Some(3));
    assert_eq!(find_char(&s, 'x'), None);
    assert_eq!(find_text(&s, "b."), Some(2));
    assert_eq!(find_text(&s, ""), Some(0));
    assert!(has_text(&s, ".c"));
    assert!(!has_text(&s, "ac"));
    assert!(same("ab", "ab") && !same("ab", "a"));
}

#[test]
fn texts_are_cut() {
    assert_eq!(split_at_char(&chars("a,,b"), ','), strings(&["a", "", "b"]));
    assert_eq!(split_at_char(&chars(""), ','), strings(&[""]));
    assert_eq!(split_lines(&chars("a\r\nb\n\nc")), strings(&["a", "b", "", "c"]));
    assert_eq!(split_lines(&chars("a\n")), strings(&["a"]));
    assert!(split_lines(&chars("")).is_empty());
    assert_eq!(split_outside(&chars("a;(b;c);d"), ';', Brackets::Round), strings(&["a", "(b;c)", "d"]));
    assert_eq!(find_top(&chars("(:)[:]:"), ':', Brackets::Both), Some(6));
    assert_eq!(find_top(&chars("(:)"), ':', Brackets::Both), None);
    assert_eq!(find_close(&chars("(a(b)c)d"), Brackets::Round, 0), Some(6));
}

#[test]
fn texts_are_put_together() {
    assert_eq!(join("a", "b"), "ab");
    assert_eq!(join3("a", "", "c"), "ac");
    assert_eq!(join_all(&strings(&["a", "b", "c"]), ", "), "a, b, c");
    assert_eq!(join_all(&Vec::new(), ", "), "");
    assert_eq!(decimal_of(0), "0");
    assert_eq!(decimal_of(9070), "9070");
}

#[test]
fn positions_in_bytes_are_found() {
    let s = chars("aé–b");
    assert_eq!(count_bytes(&s), 7);
    assert_eq!(after_bytes(&s, 3).map(text), Some("–b".to_string()));
    assert_eq!(after_bytes(&s, 2).map(text), None);
    assert_eq!(after_bytes(&s, 7).map(text), Some(String::new()));
    assert_eq!(after_bytes(&s, 8).map(text), None);
}

#[test]
fn written_trees_are_read_back() {
    let tree = SupertypeExpr::OneOf {
        children: vec![
            SupertypeExpr::And {
                children: vec![
                    SupertypeExpr::AndOr { children: vec![leaf("a"), leaf("b")] },
                    leaf("c"),
                ],
            },
            SupertypeExpr::AndOr {
                children: vec![
                    SupertypeExpr::OneOf { children: vec![leaf("d"), leaf("e")] },
                    leaf("f"),
                ],
            },
        ],
    };
    let written = "ONEOF ((((a) ANDOR (b)) AND (c)), ((ONEOF ((d), (e))) ANDOR (f)))";
    assert_eq!(parse(written).unwrap(), tree);
    assert_eq!(parse(&written.to_lowercase()).unwrap(), tree);
}

#[test]
fn different_types_have_different_texts() {
    let name = |s: &str| Box::new(AttrType::Entity(s.to_string()));
    let types = vec![
        AttrType::Primitive("REAL".to_string()),
        AttrType::Primitive("STRING".to_string()),
        AttrType::Entity("a".to_string()),
        AttrType::Entity("a_b".to_string()),
        AttrType::List(name("a")),
        AttrType::SetOf(name("a")),
        AttrType::Bag(name("a")),
        AttrType::Array(name("a")),
        AttrType::Optional(name("a")),
        AttrType::Optional(Box::new(AttrType::List(name("a")))),
        AttrType::Select(strings(&["a", "b"])),
        AttrType::Select(strings(&["a"])),
        AttrType::Select(Vec::new()),
        AttrType::Enumeration(strings(&["a", "b"])),
    ];
    for (i, a) in types.iter().enumerate() {
        for (j, b) in types.iter().enumerate() {
            assert_eq!(ty_repr(a) == ty_repr(b), i == j);
        }
    }
}
