//! What the catalogue says of entities and groups.

use crate::catalog::{
    all_labels, all_records, all_warnings, catalog_of, claiming_rule, entity_line, entity_lines,
    first_glob, globs, group_members, group_names, group_of, group_row, group_rows, handled_count,
    labels_of, matching_rule, record_of, root_in, rule_description, rule_names, schema_labelled,
    warning_lines, Confidence, GroupModel, Records, RuleModel,
};
use crate::express::SchemaModel;
use crate::infer::export_laws::{finite_schemas, some_schema_declares};
use crate::infer::refgraph::declared;
use crate::inheritance::{ancestor_names, attr_total};
use crate::names::{capped, first_some, lemma_ordered, ordered, sorted};
use crate::text::{lowercase, uppercase};
use vstd::prelude::*;
use vstd::string::*;

verus! {

broadcast use vstd::string::group_string_axioms;

// ---------------------------------------------------------------------
// Patterns
// ---------------------------------------------------------------------

/// A star matches every text, any other character itself, and nothing the empty text
/// alone.
pub proof fn law_single_patterns(c: char, s: Seq<char>)
    ensures
        globs(seq!['*'], s),
        c != '*' ==> (globs(seq![c], s) <==> s == seq![c]),
        globs(Seq::empty(), s) <==> s.len() == 0,
    decreases s.len(),
{
    let star = seq!['*'];
    assert(globs(Seq::<char>::empty(), s) == (s.len() == 0));
    assert(star.drop_last() =~= Seq::<char>::empty());
    assert(star.last() == '*');
    if s.len() > 0 {
        law_single_patterns(c, s.drop_last());
    }
    let one = seq![c];
    assert(one.drop_last() =~= Seq::<char>::empty());
    assert(one.last() == c);
    if c != '*' {
        if globs(one, s) {
            assert(globs(Seq::<char>::empty(), s.drop_last()));
            assert(s.len() == 1);
            assert(s =~= one);
        }
        if s == one {
            assert(s.drop_last() =~= Seq::<char>::empty());
        }
    }
}

/// A text matches two patterns one after the other if its first part, up to some
/// place, matches the one and the rest the other.
pub proof fn law_patterns_in_parts(p: Seq<char>, q: Seq<char>, s: Seq<char>)
    ensures
        globs(p + q, s) <==> exists|i: int|
            0 <= i <= s.len() && globs(p, #[trigger] s.take(i)) && globs(q, s.skip(i)),
    decreases q.len() + s.len(),
{
    let n = s.len() as int;
    if q.len() == 0 {
        assert(p + q =~= p);
        assert(s.take(n) =~= s);
        assert(s.skip(n).len() == 0);
        if globs(p, s) {
            assert(globs(p, s.take(n)) && globs(q, s.skip(n)));
        }
        if exists|i: int|
            0 <= i <= s.len() && globs(p, #[trigger] s.take(i)) && globs(q, s.skip(i)) {
            let i = choose|i: int|
                0 <= i <= s.len() && globs(p, #[trigger] s.take(i)) && globs(q, s.skip(i));
            assert(s.skip(i).len() == 0);
            assert(s.take(i) =~= s);
        }
    } else {
        let r = q.drop_last();
        assert((p + q).drop_last() =~= p + r);
        assert((p + q).last() == q.last());
        if q.last() == '*' {
            law_patterns_in_parts(p, r, s);
            if s.len() > 0 {
                let t = s.drop_last();
                law_patterns_in_parts(p, q, t);
                assert forall|i: int| 0 <= i <= t.len() implies #[trigger] s.take(i) == t.take(i)
                    && s.skip(i).drop_last() == t.skip(i) && s.skip(i).len() > 0 by {
                    assert(s.take(i) =~= t.take(i));
                    assert(s.skip(i).drop_last() =~= t.skip(i));
                }
                if globs(p + q, t) {
                    let i = choose|i: int|
                        0 <= i <= t.len() && globs(p, #[trigger] t.take(i)) && globs(q, t.skip(i));
                    assert(globs(p, s.take(i)) && globs(q, s.skip(i)));
                }
            }
            if globs(p + r, s) {
                let i = choose|i: int|
                    0 <= i <= s.len() && globs(p, #[trigger] s.take(i)) && globs(r, s.skip(i));
                assert(globs(p, s.take(i)) && globs(q, s.skip(i)));
            }
            if exists|i: int|
                0 <= i <= s.len() && globs(p, #[trigger] s.take(i)) && globs(q, s.skip(i)) {
                let i = choose|i: int|
                    0 <= i <= s.len() && globs(p, #[trigger] s.take(i)) && globs(q, s.skip(i));
                if globs(r, s.skip(i)) {
                    assert(globs(p + r, s));
                } else {
                    let t = s.drop_last();
                    assert(s.skip(i).len() > 0);
                    assert(globs(p, t.take(i)) && globs(q, t.skip(i)));
                }
            }
        } else if s.len() > 0 {
            let t = s.drop_last();
            law_patterns_in_parts(p, r, t);
            assert forall|i: int| 0 <= i <= t.len() implies #[trigger] s.take(i) == t.take(i)
                && s.skip(i).drop_last() == t.skip(i) && s.skip(i).len() > 0 && s.skip(i).last()
                == s.last() by {
                assert(s.take(i) =~= t.take(i));
                assert(s.skip(i).drop_last() =~= t.skip(i));
            }
            if globs(p + q, s) {
                assert(globs(p + r, t));
                let i = choose|i: int|
                    0 <= i <= t.len() && globs(p, #[trigger] t.take(i)) && globs(r, t.skip(i));
                assert(s.take(i) == t.take(i));
                assert(s.skip(i).drop_last() == t.skip(i));
                assert(s.last() == q.last());
                assert(globs(q, s.skip(i)));
                assert(globs(p, s.take(i)) && globs(q, s.skip(i)));
            }
            if exists|i: int|
                0 <= i <= s.len() && globs(p, #[trigger] s.take(i)) && globs(q, s.skip(i)) {
                let i = choose|i: int|
                    0 <= i <= s.len() && globs(p, #[trigger] s.take(i)) && globs(q, s.skip(i));
                assert(s.skip(i).len() > 0);
                assert(globs(p, t.take(i)) && globs(r, t.skip(i)));
            }
        } else {
            assert forall|i: int| 0 <= i <= s.len() implies !globs(q, #[trigger] s.skip(i)) by {
                assert(s.skip(i).len() == 0);
            }
            if exists|i: int|
                0 <= i <= s.len() && globs(p, #[trigger] s.take(i)) && globs(q, s.skip(i)) {
                let i = choose|i: int|
                    0 <= i <= s.len() && globs(p, #[trigger] s.take(i)) && globs(q, s.skip(i));
                assert(!globs(q, s.skip(i)));
            }
        }
    }
}

// ---------------------------------------------------------------------
// Groups of entities
// ---------------------------------------------------------------------

/// Whether one of the names is the root or an ancestor.
pub open spec fn stands_above(
    names: Seq<Seq<char>>,
    root: Option<Seq<char>>,
    ancestors: Seq<Seq<char>>,
) -> bool {
    exists|x: Seq<char>| #[trigger]
        names.contains(x) && (root == Some(x) || ancestors.contains(x))
}

/// Whether rule `i` is the first with a supertype of the entity and none that it
/// excludes.
pub open spec fn first_claim(
    rules: Seq<RuleModel>,
    root: Option<Seq<char>>,
    ancestors: Seq<Seq<char>>,
    i: int,
) -> bool {
    &&& 0 <= i < rules.len()
    &&& rule_claims(rules[i], root, ancestors)
    &&& forall|j: int| 0 <= j < i ==> !rule_claims(#[trigger] rules[j], root, ancestors)
}

pub open spec fn rule_claims(
    rule: RuleModel,
    root: Option<Seq<char>>,
    ancestors: Seq<Seq<char>>,
) -> bool {
    stands_above(rule.root_supertypes, root, ancestors) && !stands_above(
        rule.exclude_root,
        root,
        ancestors,
    )
}

proof fn lemma_above(
    names: Seq<Seq<char>>,
    root: Option<Seq<char>>,
    ancestors: Seq<Seq<char>>,
)
    ensures
        crate::catalog::above(names, root, ancestors) <==> stands_above(names, root, ancestors),
{
    if crate::catalog::above(names, root, ancestors) {
        let i = choose|i: int|
            0 <= i < names.len() && (root == Some(#[trigger] names[i]) || ancestors.contains(
                names[i],
            ));
        assert(names.contains(names[i]));
    }
    if stands_above(names, root, ancestors) {
        let x = choose|x: Seq<char>| #[trigger]
            names.contains(x) && (root == Some(x) || ancestors.contains(x));
        let i = choose|i: int| 0 <= i < names.len() && names[i] == x;
        assert(root == Some(names[i]) || ancestors.contains(names[i]));
    }
}

proof fn lemma_claiming(
    rules: Seq<RuleModel>,
    root: Option<Seq<char>>,
    ancestors: Seq<Seq<char>>,
)
    ensures
        forall|i: int| #[trigger]
            first_claim(rules, root, ancestors, i) ==> claiming_rule(rules, root, ancestors)
                == Some(rules[i]),
        claiming_rule(rules, root, ancestors) is None <==> forall|i: int|
            0 <= i < rules.len() ==> !rule_claims(#[trigger] rules[i], root, ancestors),
    decreases rules.len(),
{
    if rules.len() > 0 {
        let d = rules.drop_last();
        lemma_claiming(d, root, ancestors);
        assert forall|i: int| 0 <= i < d.len() implies #[trigger] rules[i] == d[i] by {}
        assert(rules[rules.len() - 1] == rules.last());
        lemma_above(rules.last().root_supertypes, root, ancestors);
        lemma_above(rules.last().exclude_root, root, ancestors);
        assert forall|i: int| #[trigger] first_claim(rules, root, ancestors, i) implies claiming_rule(
            rules,
            root,
            ancestors,
        ) == Some(rules[i]) by {
            if i < d.len() {
                assert(first_claim(d, root, ancestors, i)) by {
                    assert forall|j: int| 0 <= j < i implies !rule_claims(
                        #[trigger] d[j],
                        root,
                        ancestors,
                    ) by {
                        assert(rules[j] == d[j]);
                    }
                }
            } else {
                assert forall|j: int| 0 <= j < d.len() implies !rule_claims(
                    #[trigger] d[j],
                    root,
                    ancestors,
                ) by {
                    assert(rules[j] == d[j]);
                }
            }
        }
        if claiming_rule(rules, root, ancestors) is None {
            assert forall|i: int| 0 <= i < rules.len() implies !rule_claims(
                #[trigger] rules[i],
                root,
                ancestors,
            ) by {
                if i < d.len() {
                    assert(!rule_claims(d[i], root, ancestors));
                }
            }
        } else if forall|i: int|
            0 <= i < rules.len() ==> !rule_claims(#[trigger] rules[i], root, ancestors) {
            assert forall|j: int| 0 <= j < d.len() implies !rule_claims(
                #[trigger] d[j],
                root,
                ancestors,
            ) by {
                assert(rules[j] == d[j]);
            }
        }
    }
}

/// Whether pattern `k` of rule `i` is the first that the name matches.
pub open spec fn first_match(rules: Seq<RuleModel>, name: Seq<char>, i: int, k: int) -> bool {
    &&& 0 <= i < rules.len()
    &&& 0 <= k < rules[i].patterns.len()
    &&& globs(rules[i].patterns[k], name)
    &&& forall|h: int| 0 <= h < k ==> !globs(#[trigger] rules[i].patterns[h], name)
    &&& forall|j: int| 0 <= j < i ==> no_match(#[trigger] rules[j], name)
}

pub open spec fn no_match(rule: RuleModel, name: Seq<char>) -> bool {
    forall|h: int| 0 <= h < rule.patterns.len() ==> !globs(#[trigger] rule.patterns[h], name)
}

proof fn lemma_first_glob(ps: Seq<Seq<char>>, name: Seq<char>, k: int)
    requires
        0 <= k <= ps.len(),
        forall|h: int| 0 <= h < k ==> !globs(#[trigger] ps[h], name),
        k < ps.len() ==> globs(ps[k], name),
    ensures
        k == ps.len() ==> first_some(ps, first_glob(name)) is None,
        k < ps.len() ==> first_some(ps, first_glob(name)) == Some(ps[k]),
    decreases ps.len(),
{
    if ps.len() > 0 {
        let d = ps.drop_last();
        let n = if k < d.len() {
            k
        } else {
            d.len() as int
        };
        assert forall|h: int| 0 <= h < n implies !globs(#[trigger] d[h], name) by {
            assert(d[h] == ps[h]);
        }
        if k < d.len() {
            assert(d[k] == ps[k]);
        }
        lemma_first_glob(d, name, n);
        if k == ps.len() {
            assert(!globs(ps[ps.len() - 1], name));
        }
    }
}

proof fn lemma_matching(rules: Seq<RuleModel>, name: Seq<char>)
    ensures
        forall|i: int, k: int| #[trigger]
            first_match(rules, name, i, k) ==> matching_rule(rules, name) == Some(
                (rules[i], rules[i].patterns[k]),
            ),
        (forall|i: int| 0 <= i < rules.len() ==> no_match(#[trigger] rules[i], name))
            ==> matching_rule(rules, name) is None,
    decreases rules.len(),
{
    if rules.len() > 0 {
        let d = rules.drop_last();
        lemma_matching(d, name);
        assert forall|i: int| 0 <= i < d.len() implies #[trigger] rules[i] == d[i] by {}
        assert(rules[rules.len() - 1] == rules.last());
        assert forall|i: int, k: int| #[trigger] first_match(rules, name, i, k) implies matching_rule(
            rules,
            name,
        ) == Some((rules[i], rules[i].patterns[k])) by {
            if i < d.len() {
                assert(first_match(d, name, i, k)) by {
                    assert forall|j: int| 0 <= j < i implies no_match(#[trigger] d[j], name) by {
                        assert(rules[j] == d[j]);
                    }
                }
            } else {
                assert forall|j: int| 0 <= j < d.len() implies no_match(#[trigger] d[j], name) by {
                    assert(rules[j] == d[j]);
                }
                lemma_first_glob(rules.last().patterns, name, k);
            }
        }
        if forall|i: int| 0 <= i < rules.len() ==> no_match(#[trigger] rules[i], name) {
            assert forall|j: int| 0 <= j < d.len() implies no_match(#[trigger] d[j], name) by {
                assert(rules[j] == d[j]);
            }
            lemma_first_glob(rules.last().patterns, name, rules.last().patterns.len() as int);
        }
    }
}

/// The group of an entity that a rule claims by its supertypes and that matches a
/// pattern: that of the claiming rule, with high confidence where the pattern is of a
/// rule of the same name, or else with low.
pub proof fn law_claimed_and_matched(
    name: Seq<char>,
    root: Option<Seq<char>>,
    ancestors: Seq<Seq<char>>,
    rules: Seq<RuleModel>,
    i: int,
    j: int,
    k: int,
)
    requires
        first_claim(rules, root, ancestors, i),
        first_match(rules, lowercase(name), j, k),
    ensures
        rules[i].name == rules[j].name ==> group_of(name, root, ancestors, rules) == (
            rules[i].name,
            Confidence::High,
            Some(rules[j].patterns[k]),
        ),
        rules[i].name != rules[j].name ==> group_of(name, root, ancestors, rules) == (
            rules[i].name,
            Confidence::Low,
            None::<Seq<char>>,
        ),
{
    lemma_claiming(rules, root, ancestors);
    lemma_matching(rules, lowercase(name));
}

/// The group of an entity that is only claimed, or only matches, is that of the rule,
/// with medium confidence; the group of any other is none, with low.
pub proof fn law_claimed_or_matched(
    name: Seq<char>,
    root: Option<Seq<char>>,
    ancestors: Seq<Seq<char>>,
    rules: Seq<RuleModel>,
    i: int,
    k: int,
)
    ensures
        first_claim(rules, root, ancestors, i) && (forall|j: int|
            0 <= j < rules.len() ==> no_match(#[trigger] rules[j], lowercase(name))) ==> group_of(
            name,
            root,
            ancestors,
            rules,
        ) == (rules[i].name, Confidence::Medium, None::<Seq<char>>),
        first_match(rules, lowercase(name), i, k) && (forall|j: int|
            0 <= j < rules.len() ==> !rule_claims(#[trigger] rules[j], root, ancestors))
            ==> group_of(name, root, ancestors, rules) == (
            rules[i].name,
            Confidence::Medium,
            Some(rules[i].patterns[k]),
        ),
        (forall|j: int|
            0 <= j < rules.len() ==> no_match(#[trigger] rules[j], lowercase(name)) && !rule_claims(
                rules[j],
                root,
                ancestors,
            )) ==> group_of(name, root, ancestors, rules) == (
            "_unclassified"@,
            Confidence::Low,
            None::<Seq<char>>,
        ),
{
    lemma_claiming(rules, root, ancestors);
    lemma_matching(rules, lowercase(name));
    if forall|j: int|
        0 <= j < rules.len() ==> no_match(#[trigger] rules[j], lowercase(name)) && !rule_claims(
            rules[j],
            root,
            ancestors,
        ) {
        assert forall|j: int| 0 <= j < rules.len() implies !rule_claims(
            #[trigger] rules[j],
            root,
            ancestors,
        ) by {
            assert(no_match(rules[j], lowercase(name)));
        }
    }
}

// ---------------------------------------------------------------------
// Records
// ---------------------------------------------------------------------

proof fn lemma_labels(m: Seq<SchemaModel>, name: Seq<char>, label: Seq<char>)
    ensures
        labels_of(m, name).contains(label) <==> exists|i: int|
            0 <= i < m.len() && (#[trigger] m[i]).entities.contains_key(name) && m[i].source_label
                == label,
        labels_of(m, name).finite(),
    decreases m.len(),
{
    if m.len() > 0 {
        let d = m.drop_last();
        lemma_labels(d, name, label);
        assert(m[m.len() - 1] == m.last());
        if exists|i: int|
            0 <= i < d.len() && (#[trigger] d[i]).entities.contains_key(name) && d[i].source_label
                == label {
            let i = choose|i: int|
                0 <= i < d.len() && (#[trigger] d[i]).entities.contains_key(name)
                    && d[i].source_label == label;
            assert(m[i].entities.contains_key(name));
        }
        if exists|i: int|
            0 <= i < m.len() && (#[trigger] m[i]).entities.contains_key(name) && m[i].source_label
                == label {
            let i = choose|i: int|
                0 <= i < m.len() && (#[trigger] m[i]).entities.contains_key(name)
                    && m[i].source_label == label;
            if i < d.len() {
                assert(d[i].entities.contains_key(name));
            }
        }
    }
}

proof fn lemma_schema_labelled(m: Seq<SchemaModel>, i: int)
    requires
        0 <= i < m.len(),
        forall|j: int| i < j < m.len() ==> (#[trigger] m[j]).source_label != m[i].source_label,
    ensures
        schema_labelled(m, m[i].source_label) == Some(m[i]),
    decreases m.len(),
{
    let d = m.drop_last();
    assert(m[m.len() - 1] == m.last());
    if i < d.len() {
        assert(d[i] == m[i]);
        assert forall|j: int| i < j < d.len() implies (#[trigger] d[j]).source_label
            != d[i].source_label by {
            assert(m[j] == d[j]);
        }
        lemma_schema_labelled(d, i);
    }
}

/// The record of an entity: it lists, in order, the labels of the schemas that declare
/// it, says how many attributes it has in each, and whether it is handled. Of schemas with
/// one label, the last counts.
pub proof fn law_record_of_schemas(
    m: Seq<SchemaModel>,
    rules: Seq<RuleModel>,
    handled: Set<Seq<char>>,
    name: Seq<char>,
    label: Seq<char>,
)
    ensures
        ({
            let r = record_of(m, rules, handled, name);
            &&& r.name == name
            &&& sorted(r.schemas_present)
            &&& r.schemas_present.contains(label) <==> exists|i: int|
                0 <= i < m.len() && (#[trigger] m[i]).entities.contains_key(name)
                    && m[i].source_label == label
            &&& r.step_io_supports <==> handled.contains(uppercase(name))
            &&& forall|i: int|
                #![trigger m[i]]
                0 <= i < m.len() && m[i].entities.contains_key(name) && m[i].source_label == label
                    && (forall|j: int|
                    i < j < m.len() ==> (#[trigger] m[j]).source_label != label)
                    ==> r.effective_attr_count.contains_key(label) && r.effective_attr_count[label]
                    == capped(
                    attr_total(m[i].entities, ancestor_names(m[i].entities, name).push(name)),
                )
        }),
{
    lemma_labels(m, name, label);
    lemma_ordered(labels_of(m, name));
    let r = record_of(m, rules, handled, name);
    assert forall|i: int|
        #![trigger m[i]]
        0 <= i < m.len() && m[i].entities.contains_key(name) && m[i].source_label == label && (
        forall|j: int| i < j < m.len() ==> (#[trigger] m[j]).source_label != label) implies r.effective_attr_count.contains_key(label)
        && r.effective_attr_count[label] == capped(
        attr_total(m[i].entities, ancestor_names(m[i].entities, name).push(name)),
    ) by {
        lemma_schema_labelled(m, i);
        assert(ordered(labels_of(m, name)).contains(label));
    }
}

/// The root and the group of an entity come from the schema with the first label of
/// those that declare it.
pub proof fn law_record_of_home(
    m: Seq<SchemaModel>,
    rules: Seq<RuleModel>,
    handled: Set<Seq<char>>,
    name: Seq<char>,
    i: int,
)
    requires
        0 <= i < m.len(),
        m[i].entities.contains_key(name),
        forall|j: int| i < j < m.len() ==> (#[trigger] m[j]).source_label != m[i].source_label,
        forall|j: int| 0 <= j < m.len() && j != i && (#[trigger] m[j]).entities.contains_key(name)
            ==> crate::text::precedes(m[i].source_label, m[j].source_label),
    ensures
        ({
            let r = record_of(m, rules, handled, name);
            let found = group_of(
                name,
                r.root_supertype,
                ancestor_names(m[i].entities, name),
                rules,
            );
            &&& r.root_supertype == Some(root_in(m[i], name))
            &&& r.group == found.0
            &&& r.confidence == found.1
            &&& r.matched_pattern == found.2
        }),
{
    let label = m[i].source_label;
    let labels = ordered(labels_of(m, name));
    lemma_labels(m, name, label);
    lemma_ordered(labels_of(m, name));
    lemma_schema_labelled(m, i);
    assert(labels.contains(label));
    let k = choose|k: int| 0 <= k < labels.len() && labels[k] == label;
    if k > 0 {
        lemma_labels(m, name, labels[0]);
        assert(labels.contains(labels[0]));
        let j = choose|j: int|
            0 <= j < m.len() && (#[trigger] m[j]).entities.contains_key(name) && m[j].source_label
                == labels[0];
        assert(crate::text::precedes(labels[0], labels[k]));
        crate::text::lemma_precedes_irreflexive(label);
        assert(j != i);
        crate::text::lemma_precedes_transitive(label, labels[0], label);
    }
    lemma_first_of_all(labels, |l: Seq<char>| schema_labelled(m, l));
}

proof fn lemma_first_of_all<A>(keys: Seq<Seq<char>>, f: spec_fn(Seq<char>) -> Option<A>)
    requires
        keys.len() > 0,
        f(keys[0]) is Some,
    ensures
        first_some(keys, f) == f(keys[0]),
    decreases keys.len(),
{
    if keys.len() > 1 {
        assert(keys.drop_last()[0] == keys[0]);
        lemma_first_of_all(keys.drop_last(), f);
    } else {
        reveal_with_fuel(first_some, 2);
        assert(keys.last() == keys[0]);
    }
}

/// There is a record for each entity that some schema declares, and no other.
pub proof fn law_records_are_complete(
    m: Seq<SchemaModel>,
    rules: Seq<RuleModel>,
    handled: Set<Seq<char>>,
    name: Seq<char>,
)
    requires
        finite_schemas(m),
    ensures
        catalog_of(m, rules, handled).entities.contains_key(name) <==> some_schema_declares(
            m,
            name,
        ),
        some_schema_declares(m, name) ==> catalog_of(m, rules, handled).entities[name] == record_of(
            m,
            rules,
            handled,
            name,
        ),
{
    lemma_declared(m, name);
    lemma_ordered(declared(m));
}

proof fn lemma_declared(m: Seq<SchemaModel>, e: Seq<char>)
    requires
        finite_schemas(m),
    ensures
        declared(m).contains(e) <==> some_schema_declares(m, e),
        declared(m).finite(),
    decreases m.len(),
{
    if m.len() > 0 {
        let d = m.drop_last();
        assert forall|i: int| 0 <= i < d.len() implies (#[trigger] d[i]).entities.dom().finite()
            && d[i].types.dom().finite() by {
            assert(m[i].entities.dom().finite());
        }
        lemma_declared(d, e);
        assert(m[m.len() - 1] == m.last());
        assert(m[m.len() - 1].entities.dom().finite());
        if some_schema_declares(d, e) {
            let i = choose|i: int| 0 <= i < d.len() && (#[trigger] d[i]).entities.contains_key(e);
            assert(m[i].entities.contains_key(e));
        }
        if some_schema_declares(m, e) {
            let i = choose|i: int| 0 <= i < m.len() && (#[trigger] m[i]).entities.contains_key(e);
            if i < d.len() {
                assert(d[i].entities.contains_key(e));
            }
        }
    }
}

// ---------------------------------------------------------------------
// Groups
// ---------------------------------------------------------------------

/// Whether rule `i` is the last of this name.
pub open spec fn last_named(rules: Seq<RuleModel>, g: Seq<char>, i: int) -> bool {
    &&& 0 <= i < rules.len()
    &&& rules[i].name == g
    &&& forall|j: int| i < j < rules.len() ==> (#[trigger] rules[j]).name != g
}

proof fn lemma_rule_named(rules: Seq<RuleModel>, g: Seq<char>)
    ensures
        rule_names(rules).contains(g) <==> exists|i: int|
            0 <= i < rules.len() && (#[trigger] rules[i]).name == g,
        rule_names(rules).finite(),
        forall|i: int| #[trigger]
            last_named(rules, g, i) ==> rule_description(rules, g) == Some(rules[i].description),
        rule_description(rules, g) is Some <==> rule_names(rules).contains(g),
    decreases rules.len(),
{
    if rules.len() > 0 {
        let d = rules.drop_last();
        lemma_rule_named(d, g);
        assert(rules[rules.len() - 1] == rules.last());
        assert forall|i: int| 0 <= i < d.len() implies #[trigger] rules[i] == d[i] by {}
        if exists|i: int| 0 <= i < d.len() && (#[trigger] d[i]).name == g {
            let i = choose|i: int| 0 <= i < d.len() && (#[trigger] d[i]).name == g;
            assert(rules[i].name == g);
        }
        if exists|i: int| 0 <= i < rules.len() && (#[trigger] rules[i]).name == g {
            let i = choose|i: int| 0 <= i < rules.len() && (#[trigger] rules[i]).name == g;
            if i < d.len() {
                assert(d[i].name == g);
            }
        }
        assert forall|i: int| #[trigger] last_named(rules, g, i) implies rule_description(rules, g)
            == Some(rules[i].description) by {
            if i < d.len() {
                assert(rules[rules.len() - 1].name != g);
                assert(last_named(d, g, i)) by {
                    assert forall|j: int| i < j < d.len() implies (#[trigger] d[j]).name != g by {
                        assert(rules[j] == d[j]);
                    }
                }
            }
        }
    }
}

/// There is a group for each rule, described as the last rule of its name says, and
/// one for what no rule takes.
pub proof fn law_groups_of_rules(
    m: Seq<SchemaModel>,
    rules: Seq<RuleModel>,
    handled: Set<Seq<char>>,
    g: Seq<char>,
)
    ensures
        ({
            let c = catalog_of(m, rules, handled);
            &&& c.groups.contains_key(g) <==> g == "_unclassified"@ || exists|i: int|
                0 <= i < rules.len() && (#[trigger] rules[i]).name == g
            &&& c.group_descriptions.contains_key(g) <==> exists|i: int|
                0 <= i < rules.len() && (#[trigger] rules[i]).name == g
            &&& forall|i: int| #[trigger]
                last_named(rules, g, i) ==> c.group_descriptions[g] == rules[i].description && (g
                    != "_unclassified"@ ==> c.groups[g].description == rules[i].description)
            &&& g == "_unclassified"@ ==> c.groups[g].description
                == "no rule matched (manual review needed)"@
        }),
{
    lemma_rule_named(rules, g);
    lemma_ordered(rule_names(rules));
    lemma_ordered(group_names(rules));
    let c = catalog_of(m, rules, handled);
    assert(ordered(group_names(rules)).contains(g) == group_names(rules).contains(g));
    assert forall|i: int| #[trigger] last_named(rules, g, i) implies c.group_descriptions[g]
        == rules[i].description && (g != "_unclassified"@ ==> c.groups[g].description
        == rules[i].description) by {
        assert(rules[i].name == g);
    }
}

proof fn lemma_members(records: Records, g: Seq<char>, keys: Seq<Seq<char>>)
    ensures
        forall|x: Seq<char>| #[trigger]
            group_members(records, g, keys).contains(x) ==> keys.contains(x),
        group_members(records, g, keys).len() <= keys.len(),
    decreases keys.len(),
{
    if keys.len() > 0 {
        let d = keys.drop_last();
        lemma_members(records, g, d);
        let q = group_members(records, g, keys);
        assert forall|x: Seq<char>| #[trigger] q.contains(x) implies keys.contains(x) by {
            let i = choose|i: int| 0 <= i < q.len() && q[i] == x;
            let r = group_members(records, g, d);
            if i < r.len() {
                assert(r[i] == x);
                assert(r.contains(x));
                let j = choose|j: int| 0 <= j < d.len() && d[j] == x;
                assert(keys[j] == x);
            } else {
                assert(keys[keys.len() - 1] == x);
            }
        }
    }
}

/// The members of a group, and how many of them are handled, are counted part by
/// part.
pub proof fn law_members_in_parts(
    records: Records,
    g: Seq<char>,
    a: Seq<Seq<char>>,
    b: Seq<Seq<char>>,
    x: Seq<char>,
)
    ensures
        group_members(records, g, a + b) == group_members(records, g, a) + group_members(
            records,
            g,
            b,
        ),
        group_members(records, g, seq![x]) == if records[x].group == g {
            seq![x]
        } else {
            Seq::empty()
        },
        handled_count(records, a + b) == handled_count(records, a) + handled_count(records, b),
        handled_count(records, seq![x]) == if records[x].step_io_supports {
            1nat
        } else {
            0nat
        },
    decreases b.len(),
{
    reveal_with_fuel(group_members, 2);
    reveal_with_fuel(handled_count, 2);
    let q = seq![x];
    assert(q.drop_last() =~= seq![]);
    assert(q.last() == x);
    assert(group_members(records, g, q) =~= if records[x].group == g {
        seq![x]
    } else {
        Seq::empty()
    });
    if b.len() == 0 {
        assert(a + b =~= a);
        assert(group_members(records, g, a) + group_members(records, g, b) =~= group_members(
            records,
            g,
            a,
        ));
    } else {
        law_members_in_parts(records, g, a, b.drop_last(), x);
        assert((a + b).drop_last() =~= a + b.drop_last());
        assert((a + b).last() == b.last());
        assert(group_members(records, g, a + b) =~= group_members(records, g, a) + group_members(
            records,
            g,
            b,
        ));
    }
}

/// A group counts the entities that it lists, and those of them that are handled.
pub proof fn law_groups_count_their_entities(
    m: Seq<SchemaModel>,
    rules: Seq<RuleModel>,
    handled: Set<Seq<char>>,
    g: Seq<char>,
)
    requires
        catalog_of(m, rules, handled).groups.contains_key(g),
        all_records(m, rules, handled).dom().len() <= usize::MAX,
        all_records(m, rules, handled).dom().finite(),
    ensures
        ({
            let c = catalog_of(m, rules, handled);
            &&& c.groups[g].count == c.groups[g].entities.len()
            &&& c.groups[g].step_io_count == handled_count(c.entities, c.groups[g].entities)
            &&& c.groups[g].step_io_count <= c.groups[g].count
        }),
{
    let records = all_records(m, rules, handled);
    let keys = ordered(records.dom());
    lemma_ordered(records.dom());
    lemma_members(records, g, keys);
    lemma_handled_at_most(records, group_members(records, g, keys));
}

proof fn lemma_handled_at_most(records: Records, keys: Seq<Seq<char>>)
    ensures
        handled_count(records, keys) <= keys.len(),
    decreases keys.len(),
{
    if keys.len() > 0 {
        lemma_handled_at_most(records, keys.drop_last());
    }
}

/// The schemas are listed in their order, and what they were complained about for is
/// listed schema by schema, with the label before it.
pub proof fn law_warnings_in_parts(
    a: Seq<SchemaModel>,
    b: Seq<SchemaModel>,
    s: SchemaModel,
    i: int,
)
    ensures
        all_labels(a + b) == all_labels(a) + all_labels(b),
        all_labels(seq![s]) == seq![s.source_label],
        all_warnings(a + b) == all_warnings(a) + all_warnings(b),
        all_warnings(seq![s]).len() == s.parse_warnings.len(),
        0 <= i < s.parse_warnings.len() ==> all_warnings(seq![s])[i] == "["@ + s.source_label + "] "@
            + s.parse_warnings[i],
    decreases b.len(),
{
    assert(all_labels(a + b) =~= all_labels(a) + all_labels(b));
    assert(all_labels(seq![s]) =~= seq![s.source_label]);
    reveal_with_fuel(all_warnings, 2);
    let q = seq![s];
    assert(q.drop_last() =~= seq![]);
    assert(q.last() == s);
    if b.len() == 0 {
        assert(a + b =~= a);
        assert(all_warnings(a) + all_warnings(b) =~= all_warnings(a));
    } else {
        law_warnings_in_parts(a, b.drop_last(), s, i);
        assert((a + b).drop_last() =~= a + b.drop_last());
        assert((a + b).last() == b.last());
        assert(all_warnings(a + b) =~= all_warnings(a) + all_warnings(b));
    }
}

/// The catalog lists the label of every schema in its place, and every complaint of
/// every schema behind the schema's label.
pub proof fn law_catalog_lists_schemas(
    m: Seq<SchemaModel>,
    rules: Seq<RuleModel>,
    handled: Set<Seq<char>>,
    i: int,
    k: int,
)
    requires
        0 <= i < m.len(),
    ensures
        catalog_of(m, rules, handled).schemas.len() == m.len(),
        catalog_of(m, rules, handled).schemas[i] == m[i].source_label,
        0 <= k < m[i].parse_warnings.len() ==> catalog_of(
            m,
            rules,
            handled,
        ).parser_warnings.contains("["@ + m[i].source_label + "] "@ + m[i].parse_warnings[k]),
{
    let a = m.take(i);
    let b = m.skip(i + 1);
    let s = m[i];
    law_warnings_in_parts(a + seq![s], b, s, k);
    law_warnings_in_parts(a, seq![s], s, k);
    assert(m =~= a + seq![s] + b);
    if 0 <= k < s.parse_warnings.len() {
        let all = all_warnings(m);
        assert(all[all_warnings(a).len() + k] == all_warnings(seq![s])[k]);
    }
}

// ---------------------------------------------------------------------
// The text
// ---------------------------------------------------------------------

/// The lines of entities follow one another in order.
pub proof fn law_entity_lines_in_parts(
    records: Records,
    a: Seq<Seq<char>>,
    b: Seq<Seq<char>>,
    x: Seq<char>,
)
    ensures
        entity_lines(records, a + b) == entity_lines(records, a) + entity_lines(records, b),
        entity_lines(records, seq![x]) == entity_line(records[x]),
    decreases b.len(),
{
    let q = seq![x];
    assert(q.drop_last() =~= seq![]);
    assert(q.last() == x);
    assert(entity_lines(records, q.drop_last()) =~= seq![]);
    assert(entity_lines(records, q) =~= entity_line(records[x]));
    if b.len() == 0 {
        assert(a + b =~= a);
        assert(entity_lines(records, a) + entity_lines(records, b) =~= entity_lines(records, a));
    } else {
        law_entity_lines_in_parts(records, a, b.drop_last(), x);
        assert((a + b).drop_last() =~= a + b.drop_last());
        assert((a + b).last() == b.last());
        let y = entity_lines(records, b.drop_last());
        let z = entity_line(records[b.last()]);
        assert((entity_lines(records, a) + y) + z =~= entity_lines(records, a) + (y + z));
    }
}

/// The rows of groups follow one another in order; a group without entities has none,
/// unless it is that of what no rule takes.
pub proof fn law_group_rows_in_parts(
    groups: Map<Seq<char>, GroupModel>,
    a: Seq<Seq<char>>,
    b: Seq<Seq<char>>,
    x: Seq<char>,
)
    ensures
        group_rows(groups, a + b) == group_rows(groups, a) + group_rows(groups, b),
        groups[x].count == 0 && x != "_unclassified"@ ==> group_rows(groups, seq![x]).len() == 0,
        groups[x].count > 0 || x == "_unclassified"@ ==> group_rows(groups, seq![x]) == "| `"@ + x
            + "` | "@ + groups[x].description + " | "@ + crate::text::decimal(groups[x].count as nat)
            + " | "@ + crate::text::decimal(groups[x].step_io_count as nat) + " |\n"@,
    decreases b.len(),
{
    let q = seq![x];
    assert(q.drop_last() =~= seq![]);
    assert(q.last() == x);
    assert(group_rows(groups, q.drop_last()) =~= seq![]);
    let row = group_row(x, groups[x]);
    assert(group_rows(groups, q) =~= row);
    if b.len() == 0 {
        assert(a + b =~= a);
        assert(group_rows(groups, a) + group_rows(groups, b) =~= group_rows(groups, a));
    } else {
        law_group_rows_in_parts(groups, a, b.drop_last(), x);
        assert((a + b).drop_last() =~= a + b.drop_last());
        assert((a + b).last() == b.last());
        let y = group_rows(groups, b.drop_last());
        let z = group_row(b.last(), groups[b.last()]);
        assert((group_rows(groups, a) + y) + z =~= group_rows(groups, a) + (y + z));
    }
}

/// The lines of warnings follow one another in order.
pub proof fn law_warning_lines_in_parts(a: Seq<Seq<char>>, b: Seq<Seq<char>>, x: Seq<char>)
    ensures
        warning_lines(a + b) == warning_lines(a) + warning_lines(b),
        warning_lines(seq![x]) == "- "@ + x + "\n"@,
    decreases b.len(),
{
    let q = seq![x];
    assert(q.drop_last() =~= seq![]);
    assert(q.last() == x);
    assert(warning_lines(q.drop_last()) =~= seq![]);
    assert(warning_lines(q) =~= "- "@ + x + "\n"@);
    if b.len() == 0 {
        assert(a + b =~= a);
        assert(warning_lines(a) + warning_lines(b) =~= warning_lines(a));
    } else {
        law_warning_lines_in_parts(a, b.drop_last(), x);
        assert((a + b).drop_last() =~= a + b.drop_last());
        assert((a + b).last() == b.last());
        let y = warning_lines(b.drop_last());
        assert(((warning_lines(a) + y) + "- "@) + b.last() + "\n"@ =~= warning_lines(a) + (y + "- "@
            + b.last() + "\n"@));
    }
}

} // verus!
