//! Entities sorted into groups by their supertypes and their names, and the
//! catalog of all of them.

use crate::chains::chain_end;
use crate::express::{Schema, SchemaModel};
use crate::infer::refgraph::{declared, schema_models};
use crate::inheritance::{
    ancestor_names, ancestors, attr_total, effective_attr_count, first_parent, root_supertype,
};
use crate::names::{
    append_items, capped, first_some, lemma_first_some_next, lemma_ordered, lemma_tabulate_ends,
    lemma_tabulate_next, listed, no_names, ordered, push_item, sorted, tabulate, NameSet, Table,
};
use crate::text::{
    chars_of, decimal, decimal_of, join, join3, join_all, joined, lower, lowercase, same, upper,
    uppercase,
};
use vstd::prelude::*;
use vstd::string::*;

verus! {

broadcast use vstd::string::group_string_axioms;

// ---------------------------------------------------------------------
// Patterns
// ---------------------------------------------------------------------

/// Whether a pattern matches a whole text: `*` stands for any characters, every
/// other character for itself.
pub open spec fn globs(p: Seq<char>, s: Seq<char>) -> bool
    decreases p.len() + s.len(),
{
    if p.len() == 0 {
        s.len() == 0
    } else if p.last() == '*' {
        globs(p.drop_last(), s) || (s.len() > 0 && globs(p, s.drop_last()))
    } else {
        s.len() > 0 && s.last() == p.last() && globs(p.drop_last(), s.drop_last())
    }
}

/// Tells for each beginning of the text whether the first `i + 1` characters of
/// the pattern match it, given the same for the first `i`.
fn glob_step(p: &[char], i: usize, s: &[char], row: &Vec<bool>) -> (next: Vec<bool>)
    requires
        i < p@.len(),
        s@.len() < usize::MAX,
        row@.len() == s@.len() + 1,
        forall|j: int|
            0 <= j <= s@.len() ==> #[trigger] row@[j] == globs(p@.take(i as int), s@.take(j)),
    ensures
        next@.len() == s@.len() + 1,
        forall|j: int|
            0 <= j <= s@.len() ==> #[trigger] next@[j] == globs(p@.take(i + 1), s@.take(j)),
{
    let star = p[i] == '*';
    let mut next: Vec<bool> = Vec::new();
    assert(p@.take(i + 1).drop_last() =~= p@.take(i as int));
    next.push(star && row[0]);
    let mut j: usize = 0;
    while j < s.len()
        invariant
            j <= s@.len(),
            i < p@.len(),
            star == (p@[i as int] == '*'),
            row@.len() == s@.len() + 1,
            p@.take(i + 1).drop_last() == p@.take(i as int),
            forall|k: int|
                0 <= k <= s@.len() ==> #[trigger] row@[k] == globs(p@.take(i as int), s@.take(k)),
            next@.len() == j + 1,
            forall|k: int|
                0 <= k <= j ==> #[trigger] next@[k] == globs(p@.take(i + 1), s@.take(k)),
        decreases s@.len() - j,
    {
        proof {
            assert(s@.take(j + 1).drop_last() =~= s@.take(j as int));
            assert(row@[j + 1] == globs(p@.take(i as int), s@.take(j + 1)));
            assert(row@[j as int] == globs(p@.take(i as int), s@.take(j as int)));
            assert(next@[j as int] == globs(p@.take(i + 1), s@.take(j as int)));
        }
        let hit: bool = if star {
            row[j + 1] || next[j]
        } else {
            s[j] == p[i] && row[j]
        };
        next.push(hit);
        j += 1;
    }
    next
}

/// Tells whether a pattern matches a whole text.
pub fn glob_match(pattern: &str, input: &str) -> (r: bool)
    ensures
        r == globs(pattern@, input@),
{
    let pc = chars_of(pattern);
    let sc = chars_of(input);
    let p = pc.as_slice();
    let s = sc.as_slice();
    let n = s.len();
    let mut row: Vec<bool> = Vec::new();
    row.push(true);
    let mut j: usize = 0;
    while j < n
        invariant
            j <= n,
            n == s@.len(),
            row@.len() == j + 1,
            row@[0],
            forall|k: int| 0 < k <= j ==> !(#[trigger] row@[k]),
        decreases n - j,
    {
        row.push(false);
        j += 1;
    }
    let width: usize = row.len();
    let mut i: usize = 0;
    proof {
        assert forall|k: int| 0 <= k <= n implies #[trigger] row@[k] == globs(
            p@.take(0),
            s@.take(k),
        ) by {}
    }
    while i < p.len()
        invariant
            i <= p@.len(),
            n == s@.len(),
            n + 1 == width,
            row@.len() == width,
            forall|k: int|
                0 <= k <= n ==> #[trigger] row@[k] == globs(p@.take(i as int), s@.take(k)),
        decreases p@.len() - i,
    {
        row = glob_step(p, i, s, &row);
        i += 1;
    }
    proof {
        assert(p@.take(i as int) =~= p@);
        assert(s@.take(n as int) =~= s@);
        assert(row@[n as int] == globs(p@.take(i as int), s@.take(n as int)));
    }
    row[n]
}

// ---------------------------------------------------------------------
// Rules
// ---------------------------------------------------------------------

/// What belongs to a group.
#[derive(Debug, PartialEq, Eq)]
pub struct GroupRule {
    pub name: String,
    pub description: String,
    /// Patterns for the names of its entities.
    pub patterns: Vec<String>,
    /// Supertypes of its entities.
    pub root_supertypes: Vec<String>,
    /// Supertypes whose entities do not belong to it.
    pub exclude_root: Vec<String>,
}

/// What a `GroupRule` stands for.
pub struct RuleModel {
    pub name: Seq<char>,
    pub description: Seq<char>,
    pub patterns: Seq<Seq<char>>,
    pub root_supertypes: Seq<Seq<char>>,
    pub exclude_root: Seq<Seq<char>>,
}

impl DeepView for GroupRule {
    type V = RuleModel;

    open spec fn deep_view(&self) -> RuleModel {
        RuleModel {
            name: self.name@,
            description: self.description@,
            patterns: self.patterns.deep_view(),
            root_supertypes: self.root_supertypes.deep_view(),
            exclude_root: self.exclude_root.deep_view(),
        }
    }
}

/// The rules of all groups, in order.
pub struct GroupsConfig {
    pub group: Vec<GroupRule>,
}

/// How sure the group of an entity is.
#[derive(Debug, Clone, Copy, PartialEq, Eq)]
pub enum Confidence {
    High,
    Medium,
    Low,
}

/// Whether one of `names` is the root or an ancestor.
pub open spec fn above(
    names: Seq<Seq<char>>,
    root: Option<Seq<char>>,
    ancestors: Seq<Seq<char>>,
) -> bool {
    exists|i: int|
        0 <= i < names.len() && (root == Some(#[trigger] names[i]) || ancestors.contains(names[i]))
}

fn is_above(names: &Vec<String>, root: &Option<String>, anc: &Vec<String>) -> (r: bool)
    ensures
        r == above(names.deep_view(), root.deep_view(), anc.deep_view()),
{
    let ghost all = names.deep_view();
    let mut i: usize = 0;
    while i < names.len()
        invariant
            i <= names@.len(),
            all == names.deep_view(),
            forall|j: int|
                0 <= j < i ==> root.deep_view() != Some(#[trigger] all[j])
                    && !anc.deep_view().contains(all[j]),
        decreases names@.len() - i,
    {
        let n = names[i].as_str();
        assert(all[i as int] == n@);
        let is_root = match root {
            Some(x) => same(x.as_str(), n),
            None => false,
        };
        if is_root || listed(anc, n) {
            assert(root.deep_view() == Some(all[i as int]) || anc.deep_view().contains(
                all[i as int],
            ));
            return true;
        }
        i += 1;
    }
    false
}

/// Whether a rule claims an entity by its supertypes.
pub open spec fn claims(
    rule: RuleModel,
    root: Option<Seq<char>>,
    ancestors: Seq<Seq<char>>,
) -> bool {
    above(rule.root_supertypes, root, ancestors) && !above(rule.exclude_root, root, ancestors)
}

/// The first rule that claims an entity by its supertypes.
pub open spec fn claiming_rule(
    rules: Seq<RuleModel>,
    root: Option<Seq<char>>,
    ancestors: Seq<Seq<char>>,
) -> Option<RuleModel>
    decreases rules.len(),
{
    if rules.len() == 0 {
        None
    } else {
        match claiming_rule(rules.drop_last(), root, ancestors) {
            Some(r) => Some(r),
            None => if claims(rules.last(), root, ancestors) {
                Some(rules.last())
            } else {
                None
            },
        }
    }
}

proof fn lemma_claiming_prefix(
    rules: Seq<RuleModel>,
    root: Option<Seq<char>>,
    ancestors: Seq<Seq<char>>,
    k: int,
)
    requires
        0 <= k <= rules.len(),
        claiming_rule(rules.take(k), root, ancestors) is Some,
    ensures
        claiming_rule(rules, root, ancestors) == claiming_rule(rules.take(k), root, ancestors),
    decreases rules.len(),
{
    if k < rules.len() {
        assert(rules.drop_last().take(k) =~= rules.take(k));
        lemma_claiming_prefix(rules.drop_last(), root, ancestors, k);
    } else {
        assert(rules.take(k) =~= rules);
    }
}

fn find_claiming<'a>(rules: &'a Vec<GroupRule>, root: &Option<String>, anc: &Vec<String>) -> (r:
    Option<&'a GroupRule>)
    ensures
        claiming_rule(rules.deep_view(), root.deep_view(), anc.deep_view()) == (match r {
            Some(x) => Some(x.deep_view()),
            None => None,
        }),
{
    let ghost all = rules.deep_view();
    let mut i: usize = 0;
    assert(all.take(0) =~= seq![]);
    while i < rules.len()
        invariant
            i <= rules@.len(),
            all == rules.deep_view(),
            claiming_rule(all.take(i as int), root.deep_view(), anc.deep_view()) is None,
        decreases rules@.len() - i,
    {
        let rule = &rules[i];
        proof {
            assert(all.take(i + 1).drop_last() =~= all.take(i as int));
            assert(all.take(i + 1).last() == rule.deep_view());
        }
        if is_above(&rule.root_supertypes, root, anc) && !is_above(&rule.exclude_root, root, anc) {
            proof {
                lemma_claiming_prefix(all, root.deep_view(), anc.deep_view(), i + 1);
            }
            return Some(rule);
        }
        i += 1;
    }
    assert(all.take(i as int) =~= all);
    None
}

/// The first of the patterns that matches a name.
pub open spec fn first_glob(name: Seq<char>) -> spec_fn(Seq<char>) -> Option<Seq<char>> {
    |p: Seq<char>|
        if globs(p, name) {
            Some(p)
        } else {
            None
        }
}

/// The first rule with a pattern that matches a name, with that pattern.
pub open spec fn matching_rule(rules: Seq<RuleModel>, name: Seq<char>) -> Option<
    (RuleModel, Seq<char>),
>
    decreases rules.len(),
{
    if rules.len() == 0 {
        None
    } else {
        match matching_rule(rules.drop_last(), name) {
            Some(r) => Some(r),
            None => match first_some(rules.last().patterns, first_glob(name)) {
                Some(p) => Some((rules.last(), p)),
                None => None,
            },
        }
    }
}

proof fn lemma_matching_prefix(rules: Seq<RuleModel>, name: Seq<char>, k: int)
    requires
        0 <= k <= rules.len(),
        matching_rule(rules.take(k), name) is Some,
    ensures
        matching_rule(rules, name) == matching_rule(rules.take(k), name),
    decreases rules.len(),
{
    if k < rules.len() {
        assert(rules.drop_last().take(k) =~= rules.take(k));
        lemma_matching_prefix(rules.drop_last(), name, k);
    } else {
        assert(rules.take(k) =~= rules);
    }
}

fn find_pattern(patterns: &Vec<String>, name: &str) -> (r: Option<String>)
    ensures
        r.deep_view() == first_some(patterns.deep_view(), first_glob(name@)),
{
    let ghost all = patterns.deep_view();
    let ghost f = first_glob(name@);
    let mut i: usize = 0;
    assert(all.take(0) =~= seq![]);
    while i < patterns.len()
        invariant
            i <= patterns@.len(),
            all == patterns.deep_view(),
            f == first_glob(name@),
            first_some(all.take(i as int), f) is None,
        decreases patterns@.len() - i,
    {
        proof {
            lemma_first_some_next(all, f, i as int);
            assert(all[i as int] == patterns@[i as int]@);
        }
        if glob_match(patterns[i].as_str(), name) {
            return Some(patterns[i].clone());
        }
        i += 1;
    }
    assert(all.take(i as int) =~= all);
    None
}

fn find_matching<'a>(rules: &'a Vec<GroupRule>, name: &str) -> (r: Option<(&'a GroupRule, String)>)
    ensures
        matching_rule(rules.deep_view(), name@) == (match r {
            Some(x) => Some((x.0.deep_view(), x.1@)),
            None => None,
        }),
{
    let ghost all = rules.deep_view();
    let mut i: usize = 0;
    assert(all.take(0) =~= seq![]);
    while i < rules.len()
        invariant
            i <= rules@.len(),
            all == rules.deep_view(),
            matching_rule(all.take(i as int), name@) is None,
        decreases rules@.len() - i,
    {
        proof {
            assert(all.take(i + 1).drop_last() =~= all.take(i as int));
            assert(all.take(i + 1).last() == rules@[i as int].deep_view());
        }
        if let Some(p) = find_pattern(&rules[i].patterns, name) {
            proof {
                lemma_matching_prefix(all, name@, i + 1);
            }
            return Some((&rules[i], p));
        }
        i += 1;
    }
    assert(all.take(i as int) =~= all);
    None
}

/// The group of an entity, how sure it is, and the pattern that led there.
/// Supertypes decide before names; both together are surest, and if they
/// disagree the group is unsure.
pub open spec fn group_of(
    name: Seq<char>,
    root: Option<Seq<char>>,
    ancestors: Seq<Seq<char>>,
    rules: Seq<RuleModel>,
) -> (Seq<char>, Confidence, Option<Seq<char>>) {
    match (claiming_rule(rules, root, ancestors), matching_rule(rules, lowercase(name))) {
        (Some(r), Some(p)) => if r.name == p.0.name {
            (r.name, Confidence::High, Some(p.1))
        } else {
            (r.name, Confidence::Low, None)
        },
        (Some(r), None) => (r.name, Confidence::Medium, None),
        (None, Some(p)) => (p.0.name, Confidence::Medium, Some(p.1)),
        (None, None) => ("_unclassified"@, Confidence::Low, None),
    }
}

/// Finds the group of an entity.
pub fn classify(
    name: &str,
    root: &Option<String>,
    ancestors_list: &Vec<String>,
    config: &GroupsConfig,
) -> (r: (String, Confidence, Option<String>))
    ensures
        (r.0@, r.1, r.2.deep_view()) == group_of(
            name@,
            root.deep_view(),
            ancestors_list.deep_view(),
            config.group.deep_view(),
        ),
{
    let by_root = find_claiming(&config.group, root, ancestors_list);
    let by_name = find_matching(&config.group, lower(name).as_str());
    match by_root {
        Some(r) => match by_name {
            Some((p, pat)) => if same(r.name.as_str(), p.name.as_str()) {
                (r.name.clone(), Confidence::High, Some(pat))
            } else {
                (r.name.clone(), Confidence::Low, None)
            },
            None => (r.name.clone(), Confidence::Medium, None),
        },
        None => match by_name {
            Some((p, pat)) => (p.name.clone(), Confidence::Medium, Some(pat)),
            None => ("_unclassified".to_owned(), Confidence::Low, None),
        },
    }
}

// ---------------------------------------------------------------------
// Records
// ---------------------------------------------------------------------

/// What the catalog says of an entity.
pub struct EntityRecord {
    pub name: String,
    pub group: String,
    pub confidence: Confidence,
    pub root_supertype: Option<String>,
    pub matched_pattern: Option<String>,
    pub schemas_present: Vec<String>,
    /// How many attributes it has in each schema.
    pub effective_attr_count: Table<usize>,
    pub step_io_supports: bool,
}

/// What an `EntityRecord` stands for.
pub struct RecordModel {
    pub name: Seq<char>,
    pub group: Seq<char>,
    pub confidence: Confidence,
    pub root_supertype: Option<Seq<char>>,
    pub matched_pattern: Option<Seq<char>>,
    pub schemas_present: Seq<Seq<char>>,
    pub effective_attr_count: Map<Seq<char>, usize>,
    pub step_io_supports: bool,
}

impl DeepView for EntityRecord {
    type V = RecordModel;

    open spec fn deep_view(&self) -> RecordModel {
        RecordModel {
            name: self.name@,
            group: self.group@,
            confidence: self.confidence,
            root_supertype: self.root_supertype.deep_view(),
            matched_pattern: self.matched_pattern.deep_view(),
            schemas_present: self.schemas_present.deep_view(),
            effective_attr_count: self.effective_attr_count@,
            step_io_supports: self.step_io_supports,
        }
    }
}

/// The labels of the schemas that declare an entity.
pub open spec fn labels_of(m: Seq<SchemaModel>, name: Seq<char>) -> Set<Seq<char>>
    decreases m.len(),
{
    if m.len() == 0 {
        Set::empty()
    } else if m.last().entities.contains_key(name) {
        labels_of(m.drop_last(), name).insert(m.last().source_label)
    } else {
        labels_of(m.drop_last(), name)
    }
}

fn find_labels(schemas: &[Schema], name: &str) -> (r: NameSet)
    ensures
        r@ == labels_of(schema_models(schemas@), name@),
{
    let ghost m = schema_models(schemas@);
    let mut out = NameSet::new();
    let mut i: usize = 0;
    assert(m.take(0) =~= seq![]);
    while i < schemas.len()
        invariant
            i <= schemas@.len(),
            m == schema_models(schemas@),
            out@ == labels_of(m.take(i as int), name@),
        decreases schemas@.len() - i,
    {
        assert(m.take(i + 1).drop_last() =~= m.take(i as int));
        if schemas[i].entities.contains_key(name) {
            out.insert(schemas[i].source_label.clone());
        }
        i += 1;
    }
    assert(m.take(i as int) =~= m);
    out
}

/// The last schema with the given label.
pub open spec fn schema_labelled(m: Seq<SchemaModel>, label: Seq<char>) -> Option<SchemaModel>
    decreases m.len(),
{
    if m.len() == 0 {
        None
    } else if m.last().source_label == label {
        Some(m.last())
    } else {
        schema_labelled(m.drop_last(), label)
    }
}

fn find_labelled<'a>(schemas: &'a [Schema], label: &str) -> (r: Option<&'a Schema>)
    ensures
        schema_labelled(schema_models(schemas@), label@) == (match r {
            Some(s) => Some(s.view()),
            None => None,
        }),
{
    let ghost m = schema_models(schemas@);
    let mut n: usize = schemas.len();
    assert(m.take(n as int) =~= m);
    while n > 0
        invariant
            n <= schemas@.len(),
            m == schema_models(schemas@),
            schema_labelled(m, label@) == schema_labelled(m.take(n as int), label@),
        decreases n,
    {
        let s = &schemas[n - 1];
        proof {
            assert(m.take(n as int).last() == s.view());
            assert(m.take(n as int).drop_last() =~= m.take(n - 1));
        }
        if same(s.source_label.as_str(), label) {
            return Some(s);
        }
        n -= 1;
    }
    None
}

/// How many attributes an entity has in a schema.
pub open spec fn attrs_in(s: SchemaModel, name: Seq<char>) -> Option<usize> {
    if s.entities.contains_key(name) {
        Some(capped(attr_total(s.entities, ancestor_names(s.entities, name).push(name))))
    } else {
        None
    }
}

/// How many attributes an entity has in the schema with a given label.
pub open spec fn attrs_by_label(m: Seq<SchemaModel>, name: Seq<char>) -> spec_fn(
    Seq<char>,
) -> Option<usize> {
    |label: Seq<char>|
        match schema_labelled(m, label) {
            Some(s) => attrs_in(s, name),
            None => None,
        }
}

fn count_attrs(schemas: &[Schema], labels: &NameSet, name: &str) -> (r: Table<usize>)
    ensures
        r@ == tabulate(ordered(labels@), attrs_by_label(schema_models(schemas@), name@)),
{
    let n = labels.len();
    let ghost o = ordered(labels@);
    let ghost g = attrs_by_label(schema_models(schemas@), name@);
    let mut out: Table<usize> = Table::new();
    let mut i: usize = 0;
    proof {
        lemma_tabulate_ends(o, g);
    }
    while i < n
        invariant
            i <= n,
            n == o.len(),
            o == ordered(labels@),
            g == attrs_by_label(schema_models(schemas@), name@),
            out@ == tabulate(o.take(i as int), g),
        decreases n - i,
    {
        proof {
            lemma_tabulate_next(o, i as int, g);
        }
        let label = labels.at(i);
        if let Some(s) = find_labelled(schemas, label.as_str()) {
            if let Some(c) = effective_attr_count(name, s) {
                out.insert(label.clone(), c);
            }
        }
        i += 1;
    }
    proof {
        lemma_tabulate_ends(o, g);
    }
    out
}

/// The root of an entity in a schema.
pub open spec fn root_in(s: SchemaModel, name: Seq<char>) -> Seq<char> {
    chain_end(|x: Seq<char>| first_parent(s.entities, x), name)
}

/// The schema whose hierarchy counts for an entity: that of the first label.
pub open spec fn home_schema(m: Seq<SchemaModel>, name: Seq<char>) -> Option<SchemaModel> {
    first_some(ordered(labels_of(m, name)), |label: Seq<char>| schema_labelled(m, label))
}

fn find_home<'a>(schemas: &'a [Schema], labels: &NameSet, Ghost(name): Ghost<Seq<char>>) -> (r:
    Option<&'a Schema>)
    requires
        labels@ == labels_of(schema_models(schemas@), name),
    ensures
        home_schema(schema_models(schemas@), name) == (match r {
            Some(s) => Some(s.view()),
            None => None,
        }),
{
    let ghost m = schema_models(schemas@);
    let ghost o = ordered(labels@);
    let ghost f = |label: Seq<char>| schema_labelled(m, label);
    let n = labels.len();
    let mut i: usize = 0;
    assert(o.take(0) =~= seq![]);
    while i < n
        invariant
            i <= n,
            n == o.len(),
            m == schema_models(schemas@),
            labels@ == labels_of(m, name),
            o == ordered(labels@),
            f == (|label: Seq<char>| schema_labelled(m, label)),
            first_some(o.take(i as int), f) is None,
        decreases n - i,
    {
        proof {
            lemma_first_some_next(o, f, i as int);
        }
        if let Some(s) = find_labelled(schemas, labels.at(i).as_str()) {
            return Some(s);
        }
        i += 1;
    }
    assert(o.take(i as int) =~= o);
    None
}

/// The record of an entity.
pub open spec fn record_of(
    m: Seq<SchemaModel>,
    rules: Seq<RuleModel>,
    handled: Set<Seq<char>>,
    name: Seq<char>,
) -> RecordModel {
    let labels = ordered(labels_of(m, name));
    let root = match home_schema(m, name) {
        Some(s) => Some(root_in(s, name)),
        None => None,
    };
    let anc = match home_schema(m, name) {
        Some(s) => ancestor_names(s.entities, name),
        None => seq![],
    };
    let found = group_of(name, root, anc, rules);
    RecordModel {
        name,
        group: found.0,
        confidence: found.1,
        root_supertype: root,
        matched_pattern: found.2,
        schemas_present: labels,
        effective_attr_count: tabulate(labels, attrs_by_label(m, name)),
        step_io_supports: handled.contains(uppercase(name)),
    }
}

fn write_record(schemas: &[Schema], config: &GroupsConfig, handled: &NameSet, name: &str) -> (r:
    EntityRecord)
    ensures
        r.deep_view() == record_of(
            schema_models(schemas@),
            config.group.deep_view(),
            handled@,
            name@,
        ),
{
    let labels = find_labels(schemas, name);
    let (root, anc) = match find_home(schemas, &labels, Ghost(name@)) {
        Some(s) => (root_supertype(name, s), ancestors(name, s)),
        None => (None, no_names()),
    };
    let (group, confidence, matched_pattern) = classify(name, &root, &anc, config);
    EntityRecord {
        name: name.to_owned(),
        group,
        confidence,
        root_supertype: root,
        matched_pattern,
        schemas_present: labels.names(),
        effective_attr_count: count_attrs(schemas, &labels, name),
        step_io_supports: handled.contains(upper(name).as_str()),
    }
}

// ---------------------------------------------------------------------
// Groups
// ---------------------------------------------------------------------

/// What the catalog says of a group.
#[derive(Debug, PartialEq, Eq)]
pub struct GroupSummary {
    pub description: String,
    pub count: usize,
    pub step_io_count: usize,
    pub entities: Vec<String>,
}

/// What a `GroupSummary` stands for.
pub struct GroupModel {
    pub description: Seq<char>,
    pub count: usize,
    pub step_io_count: usize,
    pub entities: Seq<Seq<char>>,
}

impl DeepView for GroupSummary {
    type V = GroupModel;

    open spec fn deep_view(&self) -> GroupModel {
        GroupModel {
            description: self.description@,
            count: self.count,
            step_io_count: self.step_io_count,
            entities: self.entities.deep_view(),
        }
    }
}

/// Records by entity.
pub type Records = Map<Seq<char>, RecordModel>;

/// The entities of a group among `keys`, in order.
pub open spec fn group_members(
    records: Records,
    g: Seq<char>,
    keys: Seq<Seq<char>>,
) -> Seq<Seq<char>>
    decreases keys.len(),
{
    if keys.len() == 0 {
        seq![]
    } else if records[keys.last()].group == g {
        group_members(records, g, keys.drop_last()).push(keys.last())
    } else {
        group_members(records, g, keys.drop_last())
    }
}

/// How many of `keys` are handled.
pub open spec fn handled_count(records: Records, keys: Seq<Seq<char>>) -> nat
    decreases keys.len(),
{
    if keys.len() == 0 {
        0
    } else {
        handled_count(records, keys.drop_last()) + (if records[keys.last()].step_io_supports {
            1nat
        } else {
            0nat
        })
    }
}

/// The description that the last rule of a name gives.
pub open spec fn rule_description(rules: Seq<RuleModel>, g: Seq<char>) -> Option<Seq<char>>
    decreases rules.len(),
{
    if rules.len() == 0 {
        None
    } else if rules.last().name == g {
        Some(rules.last().description)
    } else {
        rule_description(rules.drop_last(), g)
    }
}

/// The names of the rules.
pub open spec fn rule_names(rules: Seq<RuleModel>) -> Set<Seq<char>>
    decreases rules.len(),
{
    if rules.len() == 0 {
        Set::empty()
    } else {
        rule_names(rules.drop_last()).insert(rules.last().name)
    }
}

/// The description of a group.
pub open spec fn group_description(rules: Seq<RuleModel>, g: Seq<char>) -> Seq<char> {
    if g == "_unclassified"@ {
        "no rule matched (manual review needed)"@
    } else {
        match rule_description(rules, g) {
            Some(d) => d,
            None => seq![],
        }
    }
}

/// The summary of a group.
pub open spec fn group_summary(
    records: Records,
    rules: Seq<RuleModel>,
    g: Seq<char>,
) -> GroupModel {
    let members = group_members(records, g, ordered(records.dom()));
    GroupModel {
        description: group_description(rules, g),
        count: members.len() as usize,
        step_io_count: handled_count(records, members) as usize,
        entities: members,
    }
}

fn find_description(rules: &Vec<GroupRule>, g: &str) -> (r: Option<String>)
    ensures
        r.deep_view() == rule_description(rules.deep_view(), g@),
{
    let ghost all = rules.deep_view();
    let mut n: usize = rules.len();
    assert(all.take(n as int) =~= all);
    while n > 0
        invariant
            n <= rules@.len(),
            all == rules.deep_view(),
            rule_description(all, g@) == rule_description(all.take(n as int), g@),
        decreases n,
    {
        let rule = &rules[n - 1];
        proof {
            assert(all.take(n as int).last() == rule.deep_view());
            assert(all.take(n as int).drop_last() =~= all.take(n - 1));
        }
        if same(rule.name.as_str(), g) {
            return Some(rule.description.clone());
        }
        n -= 1;
    }
    None
}

fn find_rule_names(rules: &Vec<GroupRule>) -> (r: NameSet)
    ensures
        r@ == rule_names(rules.deep_view()),
{
    let ghost all = rules.deep_view();
    let mut out = NameSet::new();
    let mut i: usize = 0;
    assert(all.take(0) =~= seq![]);
    while i < rules.len()
        invariant
            i <= rules@.len(),
            all == rules.deep_view(),
            out@ == rule_names(all.take(i as int)),
        decreases rules@.len() - i,
    {
        proof {
            assert(all.take(i + 1).last() == rules@[i as int].deep_view());
            assert(all.take(i + 1).drop_last() =~= all.take(i as int));
        }
        out.insert(rules[i].name.clone());
        i += 1;
    }
    assert(all.take(i as int) =~= all);
    out
}

fn sum_up(records: &Table<EntityRecord>, config: &GroupsConfig, g: &str) -> (r: GroupSummary)
    ensures
        r.deep_view() == group_summary(records@, config.group.deep_view(), g@),
{
    let n = records.len();
    let ghost o = ordered(records@.dom());
    let mut members: Vec<String> = no_names();
    let mut handled: usize = 0;
    let mut i: usize = 0;
    proof {
        assert(o.take(0) =~= seq![]);
    }
    while i < n
        invariant
            i <= n,
            n == o.len(),
            o == ordered(records@.dom()),
            members.deep_view() == group_members(records@, g@, o.take(i as int)),
            members@.len() <= i,
            handled == handled_count(records@, members.deep_view()),
            handled <= i,
        decreases n - i,
    {
        assert(o.take(i + 1).drop_last() =~= o.take(i as int));
        let rec = records.value_at(i);
        if same(rec.group.as_str(), g) {
            let ghost before = members.deep_view();
            push_item(&mut members, records.key_at(i).clone());
            assert(members.deep_view().drop_last() =~= before);
            if rec.step_io_supports {
                handled += 1;
            }
        }
        i += 1;
    }
    assert(o.take(i as int) =~= o);
    let description = if same(g, "_unclassified") {
        "no rule matched (manual review needed)".to_owned()
    } else {
        match find_description(&config.group, g) {
            Some(d) => d,
            None => {
                let none = String::new();
                assert(none@ =~= seq![]);
                none
            },
        }
    };
    GroupSummary { description, count: members.len(), step_io_count: handled, entities: members }
}

// ---------------------------------------------------------------------
// The catalog
// ---------------------------------------------------------------------

/// All entities with their groups.
pub struct Catalog {
    pub schemas: Vec<String>,
    pub group_descriptions: Table<String>,
    pub entities: Table<EntityRecord>,
    pub groups: Table<GroupSummary>,
    pub parser_warnings: Vec<String>,
}

/// What a `Catalog` stands for.
pub struct CatalogModel {
    pub schemas: Seq<Seq<char>>,
    pub group_descriptions: Map<Seq<char>, Seq<char>>,
    pub entities: Records,
    pub groups: Map<Seq<char>, GroupModel>,
    pub parser_warnings: Seq<Seq<char>>,
}

impl Catalog {
    pub open spec fn view(&self) -> CatalogModel {
        CatalogModel {
            schemas: self.schemas.deep_view(),
            group_descriptions: self.group_descriptions@,
            entities: self.entities@,
            groups: self.groups@,
            parser_warnings: self.parser_warnings.deep_view(),
        }
    }
}

/// The labels of the schemas, in order.
pub open spec fn all_labels(m: Seq<SchemaModel>) -> Seq<Seq<char>> {
    Seq::new(m.len(), |i: int| m[i].source_label)
}

/// The complaints of a schema, each with its label.
pub open spec fn labelled(label: Seq<char>, warnings: Seq<Seq<char>>) -> Seq<Seq<char>> {
    Seq::new(warnings.len(), |i: int| "["@ + label + "] "@ + warnings[i])
}

/// The complaints of all schemas, in order.
pub open spec fn all_warnings(m: Seq<SchemaModel>) -> Seq<Seq<char>>
    decreases m.len(),
{
    if m.len() == 0 {
        seq![]
    } else {
        all_warnings(m.drop_last()) + labelled(m.last().source_label, m.last().parse_warnings)
    }
}

/// The records of all entities.
pub open spec fn all_records(
    m: Seq<SchemaModel>,
    rules: Seq<RuleModel>,
    handled: Set<Seq<char>>,
) -> Records {
    tabulate(ordered(declared(m)), |name: Seq<char>| Some(record_of(m, rules, handled, name)))
}

/// The names of all groups.
pub open spec fn group_names(rules: Seq<RuleModel>) -> Set<Seq<char>> {
    rule_names(rules).insert("_unclassified"@)
}

/// The catalog of the schemas.
pub open spec fn catalog_of(
    m: Seq<SchemaModel>,
    rules: Seq<RuleModel>,
    handled: Set<Seq<char>>,
) -> CatalogModel {
    let records = all_records(m, rules, handled);
    CatalogModel {
        schemas: all_labels(m),
        group_descriptions: tabulate(
            ordered(rule_names(rules)),
            |g: Seq<char>| rule_description(rules, g),
        ),
        entities: records,
        groups: tabulate(
            ordered(group_names(rules)),
            |g: Seq<char>| Some(group_summary(records, rules, g)),
        ),
        parser_warnings: all_warnings(m),
    }
}

fn list_labels(schemas: &[Schema]) -> (r: Vec<String>)
    ensures
        r.deep_view() == all_labels(schema_models(schemas@)),
{
    let ghost want = all_labels(schema_models(schemas@));
    let mut out: Vec<String> = no_names();
    let mut i: usize = 0;
    assert(want.take(0) =~= seq![]);
    while i < schemas.len()
        invariant
            i <= schemas@.len(),
            want == all_labels(schema_models(schemas@)),
            out.deep_view() == want.take(i as int),
        decreases schemas@.len() - i,
    {
        push_item(&mut out, schemas[i].source_label.clone());
        assert(out.deep_view() =~= want.take(i + 1));
        i += 1;
    }
    assert(want.take(i as int) =~= want);
    out
}

fn label_warnings(s: &Schema) -> (r: Vec<String>)
    ensures
        r.deep_view() == labelled(s.view().source_label, s.view().parse_warnings),
{
    let ghost want = labelled(s.view().source_label, s.view().parse_warnings);
    let mut out: Vec<String> = no_names();
    let mut i: usize = 0;
    assert(want.take(0) =~= seq![]);
    while i < s.parse_warnings.len()
        invariant
            i <= s.parse_warnings@.len(),
            want == labelled(s.view().source_label, s.view().parse_warnings),
            out.deep_view() == want.take(i as int),
        decreases s.parse_warnings@.len() - i,
    {
        let mut w: String = join3("[", s.source_label.as_str(), "] ");
        w.append(s.parse_warnings[i].as_str());
        assert(s.view().parse_warnings[i as int] == s.parse_warnings@[i as int]@);
        push_item(&mut out, w);
        assert(out.deep_view() =~= want.take(i + 1));
        i += 1;
    }
    assert(want.take(i as int) =~= want);
    out
}

fn list_warnings(schemas: &[Schema]) -> (r: Vec<String>)
    ensures
        r.deep_view() == all_warnings(schema_models(schemas@)),
{
    let ghost m = schema_models(schemas@);
    let mut out: Vec<String> = no_names();
    let mut i: usize = 0;
    assert(m.take(0) =~= seq![]);
    while i < schemas.len()
        invariant
            i <= schemas@.len(),
            m == schema_models(schemas@),
            out.deep_view() == all_warnings(m.take(i as int)),
        decreases schemas@.len() - i,
    {
        assert(m.take(i + 1).drop_last() =~= m.take(i as int));
        append_items(&mut out, label_warnings(&schemas[i]));
        i += 1;
    }
    assert(m.take(i as int) =~= m);
    out
}

fn all_names(schemas: &[Schema]) -> (r: NameSet)
    ensures
        r@ == declared(schema_models(schemas@)),
{
    let ghost m = schema_models(schemas@);
    let mut out = NameSet::new();
    let mut i: usize = 0;
    assert(m.take(0) =~= seq![]);
    while i < schemas.len()
        invariant
            i <= schemas@.len(),
            m == schema_models(schemas@),
            out@ == declared(m.take(i as int)),
        decreases schemas@.len() - i,
    {
        assert(m.take(i + 1).drop_last() =~= m.take(i as int));
        crate::infer::refgraph::add_keys(&mut out, &schemas[i].entities);
        i += 1;
    }
    assert(m.take(i as int) =~= m);
    out
}

fn write_records(schemas: &[Schema], config: &GroupsConfig, handled: &NameSet) -> (r: Table<
    EntityRecord,
>)
    ensures
        r@ == all_records(schema_models(schemas@), config.group.deep_view(), handled@),
{
    let names = all_names(schemas);
    let n = names.len();
    let ghost m = schema_models(schemas@);
    let ghost rules = config.group.deep_view();
    let ghost o = ordered(declared(m));
    let ghost g = |name: Seq<char>| Some(record_of(m, rules, handled@, name));
    let mut out: Table<EntityRecord> = Table::new();
    let mut i: usize = 0;
    proof {
        lemma_tabulate_ends(o, g);
    }
    while i < n
        invariant
            i <= n,
            n == o.len(),
            m == schema_models(schemas@),
            rules == config.group.deep_view(),
            names@ == declared(m),
            o == ordered(declared(m)),
            g == (|name: Seq<char>| Some(record_of(m, rules, handled@, name))),
            out@ == tabulate(o.take(i as int), g),
        decreases n - i,
    {
        proof {
            lemma_tabulate_next(o, i as int, g);
        }
        let name = names.at(i);
        out.insert(name.clone(), write_record(schemas, config, handled, name.as_str()));
        i += 1;
    }
    proof {
        lemma_tabulate_ends(o, g);
    }
    out
}

fn write_descriptions(config: &GroupsConfig) -> (r: Table<String>)
    ensures
        r@ == tabulate(
            ordered(rule_names(config.group.deep_view())),
            |g: Seq<char>| rule_description(config.group.deep_view(), g),
        ),
{
    let names = find_rule_names(&config.group);
    let n = names.len();
    let ghost rules = config.group.deep_view();
    let ghost o = ordered(names@);
    let ghost f = |g: Seq<char>| rule_description(rules, g);
    let mut out: Table<String> = Table::new();
    let mut i: usize = 0;
    proof {
        lemma_tabulate_ends(o, f);
    }
    while i < n
        invariant
            i <= n,
            n == o.len(),
            rules == config.group.deep_view(),
            o == ordered(names@),
            f == (|g: Seq<char>| rule_description(rules, g)),
            out@ == tabulate(o.take(i as int), f),
        decreases n - i,
    {
        proof {
            lemma_tabulate_next(o, i as int, f);
        }
        let g = names.at(i);
        if let Some(d) = find_description(&config.group, g.as_str()) {
            out.insert(g.clone(), d);
        }
        i += 1;
    }
    proof {
        lemma_tabulate_ends(o, f);
    }
    out
}

fn write_groups(records: &Table<EntityRecord>, config: &GroupsConfig) -> (r: Table<GroupSummary>)
    ensures
        r@ == tabulate(
            ordered(group_names(config.group.deep_view())),
            |g: Seq<char>| Some(group_summary(records@, config.group.deep_view(), g)),
        ),
{
    let mut names = find_rule_names(&config.group);
    names.insert("_unclassified".to_owned());
    let n = names.len();
    let ghost rules = config.group.deep_view();
    let ghost o = ordered(group_names(rules));
    let ghost f = |g: Seq<char>| Some(group_summary(records@, rules, g));
    let mut out: Table<GroupSummary> = Table::new();
    let mut i: usize = 0;
    proof {
        lemma_tabulate_ends(o, f);
    }
    while i < n
        invariant
            i <= n,
            n == o.len(),
            rules == config.group.deep_view(),
            names@ == group_names(rules),
            o == ordered(group_names(rules)),
            f == (|g: Seq<char>| Some(group_summary(records@, rules, g))),
            out@ == tabulate(o.take(i as int), f),
        decreases n - i,
    {
        proof {
            lemma_tabulate_next(o, i as int, f);
        }
        let g = names.at(i);
        out.insert(g.clone(), sum_up(records, config, g.as_str()));
        i += 1;
    }
    proof {
        lemma_tabulate_ends(o, f);
    }
    out
}

/// Builds the catalog of the schemas.
pub fn build_catalog(schemas: &[Schema], config: &GroupsConfig, step_io_entities: &NameSet) -> (r:
    Catalog)
    ensures
        r.view() == catalog_of(
            schema_models(schemas@),
            config.group.deep_view(),
            step_io_entities@,
        ),
        forall|name: Seq<char>| #[trigger]
            r.entities@.contains_key(name) ==> r.entities@[name].name == name && (
            r.entities@[name].step_io_supports <==> step_io_entities@.contains(uppercase(name)))
                && sorted(r.entities@[name].schemas_present),
        forall|i: int|
            0 <= i < schemas@.len() ==> #[trigger] r.schemas.deep_view()[i]
                == schemas@[i].source_label@,
        r.schemas.deep_view().len() == schemas@.len(),
{
    let entities = write_records(schemas, config, step_io_entities);
    let groups = write_groups(&entities, config);
    proof {
        let m = schema_models(schemas@);
        assert forall|name: Seq<char>| #[trigger] entities@.contains_key(
            name,
        ) implies entities@[name].name == name && (entities@[name].step_io_supports
            <==> step_io_entities@.contains(uppercase(name))) && sorted(
            entities@[name].schemas_present,
        ) by {
            crate::catalog_laws::law_record_of_schemas(
                m,
                config.group.deep_view(),
                step_io_entities@,
                name,
                name,
            );
        }
    }
    Catalog {
        schemas: list_labels(schemas),
        group_descriptions: write_descriptions(config),
        entities,
        groups,
        parser_warnings: list_warnings(schemas),
    }
}

// ---------------------------------------------------------------------
// The catalog as text
// ---------------------------------------------------------------------

/// Whether every entity that a group lists has a record. A group that counts no
/// entities is not written out, so its list does not matter.
pub open spec fn lists_known(c: CatalogModel) -> bool {
    forall|g: Seq<char>, i: int|
        #![trigger c.groups[g].entities[i]]
        c.groups.contains_key(g) && c.groups[g].count > 0 && 0 <= i
            < c.groups[g].entities.len() ==> c.entities.contains_key(c.groups[g].entities[i])
}

/// The row of a group in the overview; a group without entities has none, but
/// for the one of the entities that no rule matches.
pub open spec fn group_row(g: Seq<char>, s: GroupModel) -> Seq<char> {
    if s.count == 0 && g != "_unclassified"@ {
        seq![]
    } else {
        "| `"@ + g + "` | "@ + s.description + " | "@ + decimal(s.count as nat) + " | "@ + decimal(
            s.step_io_count as nat,
        ) + " |\n"@
    }
}

pub open spec fn group_rows(
    groups: Map<Seq<char>, GroupModel>,
    keys: Seq<Seq<char>>,
) -> Seq<char>
    decreases keys.len(),
{
    if keys.len() == 0 {
        seq![]
    } else {
        group_rows(groups, keys.drop_last()) + group_row(keys.last(), groups[keys.last()])
    }
}

/// The line of an entity.
pub open spec fn entity_line(r: RecordModel) -> Seq<char> {
    "- "@ + (if r.step_io_supports {
        "✓"@
    } else {
        " "@
    }) + " ["@ + (match r.confidence {
        Confidence::High => "H"@,
        Confidence::Medium => "M"@,
        Confidence::Low => "L"@,
    }) + "] `"@ + r.name + "` (root: "@ + (match r.root_supertype {
        Some(x) => x,
        None => "?"@,
    }) + ", schemas: "@ + joined(r.schemas_present, "/"@) + ")\n"@
}

pub open spec fn entity_lines(records: Records, names: Seq<Seq<char>>) -> Seq<char>
    decreases names.len(),
{
    if names.len() == 0 {
        seq![]
    } else {
        entity_lines(records, names.drop_last()) + entity_line(records[names.last()])
    }
}

/// The section of a group; a group without entities has none.
pub open spec fn group_section(records: Records, g: Seq<char>, s: GroupModel) -> Seq<char> {
    if s.count == 0 {
        seq![]
    } else {
        "### `"@ + g + "` — "@ + s.description + " ("@ + decimal(s.count as nat) + " entities, "@
            + decimal(s.step_io_count as nat) + " step-io)\n\n"@ + entity_lines(
            records,
            s.entities,
        ) + "\n"@
    }
}

pub open spec fn group_sections(
    records: Records,
    groups: Map<Seq<char>, GroupModel>,
    keys: Seq<Seq<char>>,
) -> Seq<char>
    decreases keys.len(),
{
    if keys.len() == 0 {
        seq![]
    } else {
        group_sections(records, groups, keys.drop_last()) + group_section(
            records,
            keys.last(),
            groups[keys.last()],
        )
    }
}

/// The complaints, one to a line.
pub open spec fn warning_lines(ws: Seq<Seq<char>>) -> Seq<char>
    decreases ws.len(),
{
    if ws.len() == 0 {
        seq![]
    } else {
        warning_lines(ws.drop_last()) + "- "@ + ws.last() + "\n"@
    }
}

/// The section of the complaints, if there are any.
pub open spec fn warning_section(ws: Seq<Seq<char>>) -> Seq<char> {
    if ws.len() == 0 {
        seq![]
    } else {
        "## Parser warnings\n\n"@ + warning_lines(ws) + "\n"@
    }
}

/// The catalog as text.
pub open spec fn markdown(c: CatalogModel) -> Seq<char> {
    "# Entity catalog\n\nSchemas loaded: "@ + decimal(c.schemas.len()) + " ("@ + joined(
        c.schemas,
        ", "@,
    ) + ")\n\nTotal unique entities: **"@ + decimal(c.entities.len())
        + "**\n\nstep-io processes: **"@ + decimal(
        handled_count(c.entities, ordered(c.entities.dom())),
    )
        + "** entities\n\n## Group distribution\n\n| group | description | count | step-io |\n|---|---|---:|---:|\n"@
        + group_rows(c.groups, ordered(c.groups.dom())) + "\n## Entities by group\n\n"@
        + group_sections(c.entities, c.groups, ordered(c.groups.dom())) + warning_section(
        c.parser_warnings,
    )
}

fn empty_text() -> (r: String)
    ensures
        r@ == Seq::<char>::empty(),
{
    let r = String::new();
    assert(r@ =~= seq![]);
    r
}

fn count_handled(records: &Table<EntityRecord>) -> (r: usize)
    ensures
        r == handled_count(records@, ordered(records@.dom())),
{
    let n = records.len();
    let ghost o = ordered(records@.dom());
    let mut r: usize = 0;
    let mut i: usize = 0;
    assert(o.take(0) =~= seq![]);
    while i < n
        invariant
            i <= n,
            n == o.len(),
            o == ordered(records@.dom()),
            r == handled_count(records@, o.take(i as int)),
            r <= i,
        decreases n - i,
    {
        assert(o.take(i + 1).drop_last() =~= o.take(i as int));
        if records.value_at(i).step_io_supports {
            r += 1;
        }
        i += 1;
    }
    assert(o.take(i as int) =~= o);
    r
}

fn write_group_row(g: &str, s: &GroupSummary) -> (r: String)
    ensures
        r@ == group_row(g@, s.deep_view()),
{
    if s.count == 0 && !same(g, "_unclassified") {
        return empty_text();
    }
    let mut r: String = join3("| `", g, "` | ");
    r.append(s.description.as_str());
    r.append(" | ");
    r.append(decimal_of(s.count).as_str());
    r.append(" | ");
    r.append(decimal_of(s.step_io_count).as_str());
    r.append(" |\n");
    r
}

fn write_entity_line(rec: &EntityRecord) -> (r: String)
    ensures
        r@ == entity_line(rec.deep_view()),
{
    let mut r: String = "- ".to_owned();
    r.append(
        if rec.step_io_supports {
            "✓"
        } else {
            " "
        },
    );
    r.append(" [");
    r.append(
        match rec.confidence {
            Confidence::High => "H",
            Confidence::Medium => "M",
            Confidence::Low => "L",
        },
    );
    r.append("] `");
    r.append(rec.name.as_str());
    r.append("` (root: ");
    match &rec.root_supertype {
        Some(x) => {
            r.append(x.as_str());
        },
        None => {
            r.append("?");
        },
    }
    r.append(", schemas: ");
    r.append(join_all(&rec.schemas_present, "/").as_str());
    r.append(")\n");
    r
}

fn write_entity_lines(records: &Table<EntityRecord>, names: &Vec<String>) -> (r: String)
    requires
        forall|i: int|
            0 <= i < names.deep_view().len() ==> records@.contains_key(
                #[trigger] names.deep_view()[i],
            ),
    ensures
        r@ == entity_lines(records@, names.deep_view()),
{
    let ghost all = names.deep_view();
    let mut r: String = empty_text();
    let mut i: usize = 0;
    assert(all.take(0) =~= seq![]);
    while i < names.len()
        invariant
            i <= names@.len(),
            all == names.deep_view(),
            forall|k: int| 0 <= k < all.len() ==> records@.contains_key(#[trigger] all[k]),
            r@ == entity_lines(records@, all.take(i as int)),
        decreases names@.len() - i,
    {
        proof {
            assert(all.take(i + 1).drop_last() =~= all.take(i as int));
            assert(all[i as int] == names@[i as int]@);
            assert(records@.contains_key(all[i as int]));
        }
        let rec = records.get(names[i].as_str()).unwrap();
        r.append(write_entity_line(rec).as_str());
        i += 1;
    }
    assert(all.take(i as int) =~= all);
    r
}

fn write_group_section(records: &Table<EntityRecord>, g: &str, s: &GroupSummary) -> (r: String)
    requires
        s.count > 0 ==> forall|i: int|
            0 <= i < s.deep_view().entities.len() ==> records@.contains_key(
                #[trigger] s.deep_view().entities[i],
            ),
    ensures
        r@ == group_section(records@, g@, s.deep_view()),
{
    if s.count == 0 {
        return empty_text();
    }
    let mut r: String = join3("### `", g, "` — ");
    r.append(s.description.as_str());
    r.append(" (");
    r.append(decimal_of(s.count).as_str());
    r.append(" entities, ");
    r.append(decimal_of(s.step_io_count).as_str());
    r.append(" step-io)\n\n");
    proof {
        let all = s.entities.deep_view();
        assert forall|i: int| 0 <= i < all.len() implies records@.contains_key(
            #[trigger] all[i],
        ) by {
            assert(records@.contains_key(s.deep_view().entities[i]));
        }
    }
    r.append(write_entity_lines(records, &s.entities).as_str());
    r.append("\n");
    r
}

fn write_warning_section(ws: &Vec<String>) -> (r: String)
    ensures
        r@ == warning_section(ws.deep_view()),
{
    if ws.len() == 0 {
        return empty_text();
    }
    let ghost all = ws.deep_view();
    let mut lines: String = empty_text();
    let mut i: usize = 0;
    assert(all.take(0) =~= seq![]);
    while i < ws.len()
        invariant
            i <= ws@.len(),
            all == ws.deep_view(),
            lines@ == warning_lines(all.take(i as int)),
        decreases ws@.len() - i,
    {
        proof {
            assert(all.take(i + 1).drop_last() =~= all.take(i as int));
            assert(all.take(i + 1).last() == ws@[i as int]@);
        }
        lines.append("- ");
        lines.append(ws[i].as_str());
        lines.append("\n");
        i += 1;
    }
    assert(all.take(i as int) =~= all);
    let mut r: String = join("## Parser warnings\n\n", lines.as_str());
    r.append("\n");
    r
}

fn write_all_groups(catalog: &Catalog) -> (r: (String, String))
    requires
        lists_known(catalog.view()),
    ensures
        r.0@ == group_rows(catalog.groups@, ordered(catalog.groups@.dom())),
        r.1@ == group_sections(
            catalog.entities@,
            catalog.groups@,
            ordered(catalog.groups@.dom()),
        ),
{
    let ghost groups = catalog.groups@;
    let n = catalog.groups.len();
    let ghost o = ordered(groups.dom());
    let mut rows: String = empty_text();
    let mut sections: String = empty_text();
    let mut i: usize = 0;
    proof {
        assert(o.take(0) =~= seq![]);
        lemma_ordered(groups.dom());
    }
    while i < n
        invariant
            i <= n,
            n == o.len(),
            groups == catalog.groups@,
            o == ordered(groups.dom()),
            lists_known(catalog.view()),
            forall|j: int| 0 <= j < o.len() ==> groups.dom().contains(#[trigger] o[j]),
            rows@ == group_rows(groups, o.take(i as int)),
            sections@ == group_sections(catalog.entities@, groups, o.take(i as int)),
        decreases n - i,
    {
        let g = catalog.groups.key_at(i).as_str();
        let s = catalog.groups.value_at(i);
        proof {
            assert(o.take(i + 1).drop_last() =~= o.take(i as int));
            assert(groups.contains_key(o[i as int]));
            assert forall|k: int|
                s.count > 0 && 0 <= k < s.deep_view().entities.len() implies
                catalog.entities@.contains_key(#[trigger] s.deep_view().entities[k]) by {
                assert(catalog.view().entities.contains_key(
                    catalog.view().groups[o[i as int]].entities[k],
                ));
            }
        }
        rows.append(write_group_row(g, s).as_str());
        sections.append(write_group_section(&catalog.entities, g, s).as_str());
        i += 1;
    }
    assert(o.take(i as int) =~= o);
    (rows, sections)
}

/// Writes the catalog as text.
pub fn write_markdown(catalog: &Catalog) -> (r: String)
    requires
        lists_known(catalog.view()),
    ensures
        r@ == markdown(catalog.view()),
{
    let (rows, sections) = write_all_groups(catalog);
    let mut out: String = "# Entity catalog\n\nSchemas loaded: ".to_owned();
    out.append(decimal_of(catalog.schemas.len()).as_str());
    out.append(" (");
    out.append(join_all(&catalog.schemas, ", ").as_str());
    out.append(")\n\nTotal unique entities: **");
    out.append(decimal_of(catalog.entities.len()).as_str());
    out.append("**\n\nstep-io processes: **");
    out.append(decimal_of(count_handled(&catalog.entities)).as_str());
    out.append(
        "** entities\n\n## Group distribution\n\n| group | description | count | step-io |\n|---|---|---:|---:|\n",
    );
    out.append(rows.as_str());
    out.append("\n## Entities by group\n\n");
    out.append(sections.as_str());
    out.append(write_warning_section(&catalog.parser_warnings).as_str());
    out
}

// ---------------------------------------------------------------------
// Laws
// ---------------------------------------------------------------------

proof fn lemma_group_members(records: Records, g: Seq<char>, keys: Seq<Seq<char>>, x: Seq<char>)
    ensures
        group_members(records, g, keys).contains(x) <==> keys.contains(x) && records[x].group == g,
    decreases keys.len(),
{
    let r = group_members(records, g, keys);
    if keys.len() > 0 {
        let d = keys.drop_last();
        let p = group_members(records, g, d);
        lemma_group_members(records, g, d, x);
        if keys.contains(x) {
            let i = choose|i: int| 0 <= i < keys.len() && keys[i] == x;
            if i < d.len() {
                assert(d[i] == x);
            }
        }
        if d.contains(x) {
            let i = choose|i: int| 0 <= i < d.len() && d[i] == x;
            assert(keys[i] == x);
        }
        assert(keys[keys.len() - 1] == keys.last());
        if p.contains(x) {
            let i = choose|i: int| 0 <= i < p.len() && p[i] == x;
            assert(p.push(keys.last())[i] == x);
        }
        if records[keys.last()].group == g {
            assert(r[p.len() as int] == keys.last());
            if r.contains(x) {
                let i = choose|i: int| 0 <= i < r.len() && r[i] == x;
                if i < p.len() {
                    assert(p[i] == x);
                }
            }
        }
    } else {
        assert(!r.contains(x));
    }
}

proof fn lemma_claiming_name(
    rules: Seq<RuleModel>,
    root: Option<Seq<char>>,
    ancestors: Seq<Seq<char>>,
)
    ensures
        claiming_rule(rules, root, ancestors) matches Some(r) ==> rule_names(rules).contains(
            r.name,
        ),
    decreases rules.len(),
{
    if rules.len() > 0 {
        lemma_claiming_name(rules.drop_last(), root, ancestors);
    }
}

proof fn lemma_matching_name(rules: Seq<RuleModel>, name: Seq<char>)
    ensures
        matching_rule(rules, name) matches Some(r) ==> rule_names(rules).contains(r.0.name),
    decreases rules.len(),
{
    if rules.len() > 0 {
        lemma_matching_name(rules.drop_last(), name);
    }
}

proof fn lemma_rule_names_finite(rules: Seq<RuleModel>)
    ensures
        rule_names(rules).finite(),
    decreases rules.len(),
{
    if rules.len() > 0 {
        lemma_rule_names_finite(rules.drop_last());
    }
}

/// Every entity is listed in the group that its record names, and in no other
/// group; and a group lists nothing but entities.
pub proof fn law_each_entity_in_its_group(
    m: Seq<SchemaModel>,
    rules: Seq<RuleModel>,
    handled: Set<Seq<char>>,
    name: Seq<char>,
    g: Seq<char>,
)
    requires
        declared(m).finite(),
        group_names(rules).contains(g),
    ensures
        catalog_of(m, rules, handled).groups.contains_key(g),
        catalog_of(m, rules, handled).groups[g].entities.contains(name) <==> declared(
            m,
        ).contains(name) && catalog_of(m, rules, handled).entities[name].group == g,
{
    let records = all_records(m, rules, handled);
    lemma_ordered(declared(m));
    assert(records.dom() =~= declared(m));
    lemma_group_members(records, g, ordered(records.dom()), name);
    lemma_rule_names_finite(rules);
    lemma_ordered(group_names(rules));
}

/// The group of every entity is one of the groups of the catalog.
pub proof fn law_group_is_known(
    m: Seq<SchemaModel>,
    rules: Seq<RuleModel>,
    handled: Set<Seq<char>>,
    name: Seq<char>,
)
    requires
        declared(m).finite(),
        declared(m).contains(name),
    ensures
        catalog_of(m, rules, handled).entities.contains_key(name),
        catalog_of(m, rules, handled).groups.contains_key(
            catalog_of(m, rules, handled).entities[name].group,
        ),
{
    lemma_ordered(declared(m));
    lemma_rule_names_finite(rules);
    lemma_ordered(group_names(rules));
    let root = match home_schema(m, name) {
        Some(s) => Some(root_in(s, name)),
        None => None,
    };
    let anc = match home_schema(m, name) {
        Some(s) => ancestor_names(s.entities, name),
        None => seq![],
    };
    lemma_claiming_name(rules, root, anc);
    lemma_matching_name(rules, lowercase(name));
    let g = group_of(name, root, anc, rules).0;
    assert(catalog_of(m, rules, handled).entities[name].group == g);
    assert(group_names(rules).contains(g));
    assert(catalog_of(m, rules, handled).groups.contains_key(g));
}

/// The catalog of schemas can be written as text: its groups list known entities
/// only.
pub proof fn law_catalog_lists_known(
    m: Seq<SchemaModel>,
    rules: Seq<RuleModel>,
    handled: Set<Seq<char>>,
)
    requires
        declared(m).finite(),
    ensures
        lists_known(catalog_of(m, rules, handled)),
{
    let c = catalog_of(m, rules, handled);
    lemma_rule_names_finite(rules);
    lemma_ordered(group_names(rules));
    lemma_ordered(declared(m));
    assert forall|g: Seq<char>, i: int|
        #![trigger c.groups[g].entities[i]]
        c.groups.contains_key(g) && c.groups[g].count > 0 && 0 <= i < c.groups[g].entities.len()
        implies c.entities.contains_key(c.groups[g].entities[i]) by {
        assert(group_names(rules).contains(g));
        let x = c.groups[g].entities[i];
        assert(c.groups[g].entities.contains(x));
        law_each_entity_in_its_group(m, rules, handled, x, g);
    }
}

/// Supertypes decide before names: where a rule claims an entity by its
/// supertypes, that is its group.
pub proof fn law_supertypes_decide(
    name: Seq<char>,
    root: Option<Seq<char>>,
    ancestors: Seq<Seq<char>>,
    rules: Seq<RuleModel>,
)
    requires
        claiming_rule(rules, root, ancestors) is Some,
    ensures
        group_of(name, root, ancestors, rules).0 == claiming_rule(rules, root, ancestors)->0.name,
{
}

} // verus!
