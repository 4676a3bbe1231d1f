//! Laws of the exporters: what each exported entity says, in terms of the
//! schemas that it comes from.

use crate::express::{AttrModel, EntityModel, SchemaModel, SuperModel, TypeDefModel, TypeModel};
use crate::graph::{reachable, reached};
use crate::infer::export_common::{
    conflicts_of, exported, exported_signals, has_signal, label_rank, label_ranks,
    law_every_entity_has_a_declaration, newest_first, of_rank, ranked_down, repr, ExportModel,
};
use crate::infer::l1_export::{early_entities, early_rank, early_ranks};
use crate::infer::lineage::parent_graph;
use crate::infer::profile_export::{
    legal_above, profile_of, schema_for, target_profile, ProfileTomlModel, TargetModel,
};
use crate::infer::prune::UsageModel;
use crate::infer::refgraph::{
    add_missing, declared, first_alias, first_aliased, first_declared, is_abstract, union_of,
};
use crate::infer::universal_export::{
    combinable, combined_by_expr, combining, combining_of, complex_parts, law_combinable_are_parts,
    seen_as_part, under_bare_parent, united_members, univ_aliases, univ_entities, universal_decls,
};
use crate::names::{lemma_ordered, ordered};
use crate::text::{joined, starts_with};
use vstd::prelude::*;

verus! {

// ---------------------------------------------------------------------
// First and newest declarations
// ---------------------------------------------------------------------

/// Whether schema `i` is the first one that declares the entity.
pub open spec fn first_to_declare(m: Seq<SchemaModel>, name: Seq<char>, i: int) -> bool {
    &&& 0 <= i < m.len()
    &&& m[i].entities.contains_key(name)
    &&& forall|j: int| 0 <= j < i ==> !(#[trigger] m[j]).entities.contains_key(name)
}

/// The first schema that declares an entity gives its declaration; what no
/// schema declares has none.
pub proof fn law_first_declaration_counts(m: Seq<SchemaModel>, name: Seq<char>)
    ensures
        first_declared(m).contains_key(name) <==> exists|i: int|
            0 <= i < m.len() && (#[trigger] m[i]).entities.contains_key(name),
        forall|i: int| #[trigger]
            first_to_declare(m, name, i) ==> first_declared(m)[name] == m[i].entities[name],
        first_declared(m).contains_key(name) ==> exists|i: int| #[trigger]
            first_to_declare(m, name, i),
    decreases m.len(),
{
    if m.len() > 0 {
        let d = m.drop_last();
        let last = m.len() - 1;
        law_first_declaration_counts(d, name);
        assert(m[last] == m.last());
        if first_declared(d).contains_key(name) {
            let i = choose|i: int| #[trigger] first_to_declare(d, name, i);
            assert(m[i] == d[i]);
            assert forall|j: int| 0 <= j < i implies !(
            #[trigger] m[j]).entities.contains_key(name) by {
                assert(m[j] == d[j]);
            }
            assert(first_to_declare(m, name, i));
            assert forall|k: int| #[trigger] first_to_declare(m, name, k) implies k == i by {
                if k < i {
                    assert(!m[k].entities.contains_key(name));
                } else if i < k {
                    assert(!m[i].entities.contains_key(name));
                }
            }
        } else {
            assert forall|j: int| 0 <= j < last implies !(
            #[trigger] m[j]).entities.contains_key(name) by {
                assert(m[j] == d[j]);
            }
            if m.last().entities.contains_key(name) {
                assert(first_to_declare(m, name, last));
            }
            assert forall|k: int| #[trigger] first_to_declare(m, name, k) implies k == last by {
                if k < last {
                    assert(!m[k].entities.contains_key(name));
                }
            }
        }
    }
}

/// Whether schema `i` is the newest one that declares the entity: none that
/// declares it has a higher rank, and of those with the same rank it comes
/// first.
pub open spec fn newest_to_declare(
    m: Seq<SchemaModel>,
    ranks: Seq<u8>,
    name: Seq<char>,
    i: int,
) -> bool {
    &&& 0 <= i < m.len()
    &&& m[i].entities.contains_key(name)
    &&& forall|j: int|
        0 <= j < m.len() && (#[trigger] m[j]).entities.contains_key(name) ==> ranks[j] < ranks[i]
            || (ranks[j] == ranks[i] && i <= j)
}

proof fn lemma_joined_first_declared(a: Seq<SchemaModel>, b: Seq<SchemaModel>, name: Seq<char>)
    ensures
        first_declared(a + b).contains_key(name) == (first_declared(a).contains_key(name)
            || first_declared(b).contains_key(name)),
        first_declared(a).contains_key(name) ==> first_declared(a + b)[name]
            == first_declared(a)[name],
        !first_declared(a).contains_key(name) && first_declared(b).contains_key(name)
            ==> first_declared(a + b)[name] == first_declared(b)[name],
    decreases b.len(),
{
    if b.len() == 0 {
        assert(a + b =~= a);
    } else {
        lemma_joined_first_declared(a, b.drop_last(), name);
        assert((a + b).drop_last() =~= a + b.drop_last());
    }
}

/// The first of one rank that declares the entity.
proof fn lemma_first_of_rank(m: Seq<SchemaModel>, ranks: Seq<u8>, r: int, name: Seq<char>) -> (i:
    int)
    requires
        ranks.len() >= m.len(),
    ensures
        first_declared(of_rank(m, ranks, r)).contains_key(name) ==> 0 <= i < m.len() && ranks[i]
            == r && m[i].entities.contains_key(name) && first_declared(of_rank(m, ranks, r))[name]
            == m[i].entities[name] && (forall|j: int|
            0 <= j < i ==> !(ranks[j] == r && (#[trigger] m[j]).entities.contains_key(name))),
        !first_declared(of_rank(m, ranks, r)).contains_key(name) ==> forall|j: int|
            0 <= j < m.len() ==> !(ranks[j] == r && (#[trigger] m[j]).entities.contains_key(name)),
    decreases m.len(),
{
    if m.len() == 0 {
        0
    } else {
        let d = m.drop_last();
        let i = lemma_first_of_rank(d, ranks, r, name);
        let p = of_rank(d, ranks, r);
        let q = of_rank(m, ranks, r);
        if ranks[m.len() - 1] == r {
            assert(q.drop_last() =~= p);
            assert(q.last() == m.last());
        }
        assert forall|j: int| 0 <= j < d.len() implies (#[trigger] m[j]) == d[j] by {}
        if first_declared(p).contains_key(name) {
            assert forall|j: int| 0 <= j < i implies !(ranks[j] == r && (
            #[trigger] m[j]).entities.contains_key(name)) by {
                assert(m[j] == d[j]);
            }
            i
        } else {
            assert forall|j: int| 0 <= j < d.len() implies !(ranks[j] == r && (
            #[trigger] m[j]).entities.contains_key(name)) by {
                assert(m[j] == d[j]);
            }
            m.len() - 1
        }
    }
}

proof fn lemma_newest_down(m: Seq<SchemaModel>, ranks: Seq<u8>, top: int, name: Seq<char>) -> (i:
    int)
    requires
        ranks.len() >= m.len(),
    ensures
        first_declared(ranked_down(m, ranks, top)).contains_key(name) ==> 0 <= i < m.len()
            && ranks[i] <= top && m[i].entities.contains_key(name) && first_declared(
            ranked_down(m, ranks, top),
        )[name] == m[i].entities[name] && (forall|j: int|
            0 <= j < m.len() && ranks[j] <= top && (#[trigger] m[j]).entities.contains_key(name)
                ==> ranks[j] < ranks[i] || (ranks[j] == ranks[i] && i <= j)),
        !first_declared(ranked_down(m, ranks, top)).contains_key(name) ==> forall|j: int|
            0 <= j < m.len() && ranks[j] <= top ==> !(
            #[trigger] m[j]).entities.contains_key(name),
    decreases top + 1,
{
    if top < 0 {
        0
    } else {
        let a = of_rank(m, ranks, top);
        let b = ranked_down(m, ranks, top - 1);
        let i = lemma_first_of_rank(m, ranks, top, name);
        let j = lemma_newest_down(m, ranks, top - 1, name);
        lemma_joined_first_declared(a, b, name);
        if first_declared(a).contains_key(name) {
            i
        } else {
            j
        }
    }
}

/// The newest schema that declares an entity gives its declaration.
pub proof fn law_newest_schema_declares(m: Seq<SchemaModel>, ranks: Seq<u8>, name: Seq<char>)
    requires
        ranks.len() == m.len(),
        forall|i: int| 0 <= i < ranks.len() ==> #[trigger] ranks[i] <= 6,
    ensures
        first_declared(newest_first(m, ranks)).contains_key(name) <==> exists|i: int|
            0 <= i < m.len() && (#[trigger] m[i]).entities.contains_key(name),
        forall|i: int| #[trigger]
            newest_to_declare(m, ranks, name, i) ==> first_declared(newest_first(m, ranks))[name]
                == m[i].entities[name],
        first_declared(newest_first(m, ranks)).contains_key(name) ==> exists|i: int| #[trigger]
            newest_to_declare(m, ranks, name, i),
{
    let i = lemma_newest_down(m, ranks, 6, name);
    let found = first_declared(newest_first(m, ranks));
    if found.contains_key(name) {
        assert(newest_to_declare(m, ranks, name, i));
        assert(m[i].entities.contains_key(name));
        assert forall|k: int| #[trigger] newest_to_declare(m, ranks, name, k) implies k == i by {
            assert(m[k].entities.contains_key(name));
        }
    } else {
        assert forall|j: int| 0 <= j < m.len() implies !(
        #[trigger] m[j]).entities.contains_key(name) by {
            assert(ranks[j] <= 6);
        }
        assert forall|k: int| #[trigger] newest_to_declare(m, ranks, name, k) implies false by {
            assert(m[k].entities.contains_key(name));
        }
    }
}

// ---------------------------------------------------------------------
// Attributes
// ---------------------------------------------------------------------

/// Each attribute is exported with its name and the text of its type, in order.
pub proof fn law_attributes_are_exported(attrs: Seq<AttrModel>)
    ensures
        exported(attrs).len() == attrs.len(),
        forall|i: int|
            0 <= i < attrs.len() ==> (#[trigger] exported(attrs)[i]).name == attrs[i].name
                && exported(attrs)[i].ty == repr(attrs[i].ty),
{
}

/// Redeclarations are exported one by one, in order.
pub proof fn law_signals_are_exported_in_order(
    a: Seq<AttrModel>,
    b: Seq<AttrModel>,
    ranked: Seq<SchemaModel>,
)
    ensures
        exported_signals(a + b, ranked) == exported_signals(a, ranked) + exported_signals(
            b,
            ranked,
        ),
    decreases b.len(),
{
    if b.len() == 0 {
        assert(a + b =~= a);
        assert(exported_signals(a, ranked) + exported_signals(b, ranked) =~= exported_signals(
            a,
            ranked,
        ));
    } else {
        law_signals_are_exported_in_order(a, b.drop_last(), ranked);
        assert((a + b).drop_last() =~= a + b.drop_last());
        assert(exported_signals(a + b, ranked) =~= exported_signals(a, ranked) + exported_signals(
            b,
            ranked,
        ));
    }
}

/// Whether the first of the schemas that has an alias of this name makes it a
/// selection.
pub open spec fn first_alias_selects(ranked: Seq<SchemaModel>, name: Seq<char>) -> bool {
    exists|i: int|
        0 <= i < ranked.len() && (#[trigger] ranked[i]).types.contains_key(name)
            && ranked[i].types[name].aliased is Select && (forall|j: int|
            0 <= j < i ==> !(#[trigger] ranked[j]).types.contains_key(name))
}

proof fn lemma_first_alias(ranked: Seq<SchemaModel>, name: Seq<char>) -> (i: int)
    ensures
        first_alias(ranked, name) matches Some(t) ==> 0 <= i < ranked.len()
            && ranked[i].types.contains_key(name) && ranked[i].types[name].aliased == t && (forall|
            j: int,
        |
            0 <= j < i ==> !(#[trigger] ranked[j]).types.contains_key(name)),
        first_alias(ranked, name) is None ==> forall|j: int|
            0 <= j < ranked.len() ==> !(#[trigger] ranked[j]).types.contains_key(name),
    decreases ranked.len(),
{
    if ranked.len() == 0 {
        0
    } else {
        let d = ranked.drop_last();
        let i = lemma_first_alias(d, name);
        if first_alias(d, name) is Some {
            assert forall|j: int| 0 <= j < i implies !(
            #[trigger] ranked[j]).types.contains_key(name) by {
                assert(ranked[j] == d[j]);
            }
            i
        } else {
            assert forall|j: int| 0 <= j < d.len() implies !(
            #[trigger] ranked[j]).types.contains_key(name) by {
                assert(ranked[j] == d[j]);
            }
            ranked.len() - 1
        }
    }
}

/// A redeclaration is exported if it narrows to a primitive type, to a
/// selection, or to an alias of one; to nothing else.
pub proof fn law_signal_is_exported(a: AttrModel, ranked: Seq<SchemaModel>)
    ensures
        exported_signals(seq![a], ranked) == (if a.ty is Primitive || a.ty is Select || (
        a.ty matches TypeModel::Entity(n) && first_alias_selects(ranked, n)) {
            seq![ExportModel { name: a.name, ty: repr(a.ty) }]
        } else {
            seq![]
        }),
{
    let one = seq![a];
    assert(one.drop_last() =~= seq![]);
    assert(exported_signals(one.drop_last(), ranked) =~= seq![]);
    assert(one.last() == a);
    match a.ty {
        TypeModel::Entity(n) => {
            let i = lemma_first_alias(ranked, n);
            if first_alias_selects(ranked, n) {
                let k = choose|k: int|
                    0 <= k < ranked.len() && (#[trigger] ranked[k]).types.contains_key(n)
                        && ranked[k].types[n].aliased is Select && (forall|j: int|
                        0 <= j < k ==> !(#[trigger] ranked[j]).types.contains_key(n));
                assert(ranked[k].types.contains_key(n));
                if i < k {
                    assert(!ranked[i].types.contains_key(n));
                } else if k < i {
                    assert(!ranked[k].types.contains_key(n));
                }
            } else if first_alias(ranked, n) is Some {
                assert(ranked[i].types.contains_key(n));
            }
        },
        _ => {},
    }
    assert(exported_signals(one, ranked) =~= (if has_signal(a.ty, ranked) {
        seq![ExportModel { name: a.name, ty: repr(a.ty) }]
    } else {
        seq![]
    }));
}

// ---------------------------------------------------------------------
// Entities
// ---------------------------------------------------------------------

/// Whether some schema declares the entity.
pub open spec fn some_schema_declares(m: Seq<SchemaModel>, name: Seq<char>) -> bool {
    exists|i: int| 0 <= i < m.len() && (#[trigger] m[i]).entities.contains_key(name)
}

/// Whether some schema declares the entity abstract.
pub open spec fn some_schema_abstracts(m: Seq<SchemaModel>, name: Seq<char>) -> bool {
    exists|i: int|
        0 <= i < m.len() && (#[trigger] m[i]).entities.contains_key(name)
            && m[i].entities[name].is_abstract
}

/// Whether every schema declares finitely many entities and types.
pub open spec fn finite_schemas(m: Seq<SchemaModel>) -> bool {
    forall|i: int|
        0 <= i < m.len() ==> (#[trigger] m[i]).entities.dom().finite() && m[i].types.dom().finite()
}

/// The entities of the schemas are those that some schema declares.
pub proof fn law_declared_are_declared_somewhere(m: Seq<SchemaModel>, name: Seq<char>)
    ensures
        declared(m).contains(name) <==> some_schema_declares(m, name),
        finite_schemas(m) ==> declared(m).finite(),
    decreases m.len(),
{
    if m.len() > 0 {
        let d = m.drop_last();
        law_declared_are_declared_somewhere(d, name);
        assert(m[m.len() - 1] == m.last());
        if declared(d).contains(name) {
            let i = choose|i: int|
                0 <= i < d.len() && (#[trigger] d[i]).entities.contains_key(name);
            assert(m[i].entities.contains_key(name));
        }
        if some_schema_declares(m, name) {
            let i = choose|i: int|
                0 <= i < m.len() && (#[trigger] m[i]).entities.contains_key(name);
            if i < d.len() {
                assert(d[i].entities.contains_key(name));
            }
        }
        if finite_schemas(m) {
            assert forall|i: int| 0 <= i < d.len() implies (
            #[trigger] d[i]).entities.dom().finite() && d[i].types.dom().finite() by {
                assert(m[i].entities.dom().finite());
            }
        }
    }
}

/// An entity is abstract in the union just where some schema says so.
pub proof fn law_abstract_in_some_schema(m: Seq<SchemaModel>, name: Seq<char>)
    requires
        finite_schemas(m),
    ensures
        union_of(m).abstract_entities.contains(name) <==> some_schema_abstracts(m, name),
        union_of(m).entity_parents.contains_key(name) <==> some_schema_declares(m, name),
{
    law_declared_are_declared_somewhere(m, name);
    lemma_ordered(declared(m));
    if is_abstract(m, name) {
        let i = choose|i: int|
            0 <= i < m.len() && #[trigger] m[i].entities.contains_key(name)
                && m[i].entities[name].is_abstract;
        assert(m[i].entities.contains_key(name));
        assert(some_schema_abstracts(m, name));
        assert(declared(m).contains(name));
    }
    if some_schema_abstracts(m, name) {
        let i = choose|i: int|
            0 <= i < m.len() && (#[trigger] m[i]).entities.contains_key(name)
                && m[i].entities[name].is_abstract;
        assert(m[i].entities.contains_key(name));
        assert(is_abstract(m, name));
    }
}

proof fn lemma_label_ranks(m: Seq<SchemaModel>)
    ensures
        label_ranks(m).len() == m.len(),
        forall|i: int| 0 <= i < m.len() ==> #[trigger] label_ranks(m)[i] <= 6,
        early_ranks(m).len() == m.len(),
        forall|i: int| 0 <= i < m.len() ==> #[trigger] early_ranks(m)[i] <= 6,
{
}

/// The universal export holds every entity that some schema declares, and no
/// other.
pub proof fn law_universal_holds_all(
    m: Seq<SchemaModel>,
    corpus: Map<Seq<char>, UsageModel>,
    name: Seq<char>,
)
    requires
        finite_schemas(m),
    ensures
        univ_entities(m, corpus).contains_key(name) <==> some_schema_declares(m, name),
{
    law_declared_are_declared_somewhere(m, name);
    lemma_ordered(declared(m));
}

/// What the universal export says of an entity: parents, attributes, derived
/// attributes and redeclarations as in the newest schema that declares it;
/// abstract if some schema declares it so.
pub proof fn law_universal_entity(
    m: Seq<SchemaModel>,
    corpus: Map<Seq<char>, UsageModel>,
    name: Seq<char>,
    i: int,
)
    requires
        finite_schemas(m),
        newest_to_declare(
            m,
            Seq::new(m.len(), |j: int| label_rank(m[j].source_label)),
            name,
            i,
        ),
    ensures
        ({
            let r = univ_entities(m, corpus)[name];
            let e = m[i].entities[name];
            &&& r.parents == e.parents
            &&& r.is_abstract == some_schema_abstracts(m, name)
            &&& r.own_attrs.len() == e.own_attrs.len()
            &&& forall|k: int|
                0 <= k < e.own_attrs.len() ==> (#[trigger] r.own_attrs[k]).name
                    == e.own_attrs[k].name && r.own_attrs[k].ty == repr(e.own_attrs[k].ty)
            &&& r.derives.len() == e.derived_attrs.len()
            &&& forall|k: int|
                0 <= k < e.derived_attrs.len() ==> #[trigger] r.derives[k] == (
                match e.derived_attrs[k].super_qual {
                    Some(q) => q + "."@ + e.derived_attrs[k].name,
                    None => e.derived_attrs[k].name,
                })
            &&& r.redeclared_attrs == exported_signals(
                e.redeclared_attrs,
                newest_first(m, Seq::new(m.len(), |j: int| label_rank(m[j].source_label))),
            )
            &&& r.attr_conflicts == conflicts_of(union_of(m).attr_conflicts, name)
        }),
{
    let ranks = Seq::new(m.len(), |j: int| label_rank(m[j].source_label));
    assert(ranks =~= label_ranks(m));
    lemma_label_ranks(m);
    law_newest_schema_declares(m, ranks, name);
    assert(m[i].entities.contains_key(name));
    assert(some_schema_declares(m, name));
    law_universal_holds_all(m, corpus, name);
    law_abstract_in_some_schema(m, name);
    law_attributes_are_exported(m[i].entities[name].own_attrs);
}

/// The early model holds every entity that some schema declares, and no other.
pub proof fn law_early_holds_all(m: Seq<SchemaModel>, name: Seq<char>)
    requires
        finite_schemas(m),
    ensures
        early_entities(m).contains_key(name) <==> some_schema_declares(m, name),
{
    law_declared_are_declared_somewhere(m, name);
    lemma_ordered(declared(m));
    assert(union_of(m).entity_parents.dom() =~= declared(m));
}

/// What the early model says of an entity: parents, attributes and
/// redeclarations as in the newest schema that declares it; abstract if some
/// schema declares it so.
pub proof fn law_early_entity(m: Seq<SchemaModel>, name: Seq<char>, i: int)
    requires
        finite_schemas(m),
        newest_to_declare(
            m,
            Seq::new(m.len(), |j: int| early_rank(m[j].source_label)),
            name,
            i,
        ),
    ensures
        ({
            let r = early_entities(m)[name];
            let e = m[i].entities[name];
            &&& r.parents == e.parents
            &&& r.is_abstract == some_schema_abstracts(m, name)
            &&& r.own_attrs.len() == e.own_attrs.len()
            &&& forall|k: int|
                0 <= k < e.own_attrs.len() ==> (#[trigger] r.own_attrs[k]).name
                    == e.own_attrs[k].name && r.own_attrs[k].ty == repr(e.own_attrs[k].ty)
            &&& r.redeclared_attrs == exported_signals(
                e.redeclared_attrs,
                newest_first(m, Seq::new(m.len(), |j: int| early_rank(m[j].source_label))),
            )
            &&& r.attr_conflicts == conflicts_of(union_of(m).attr_conflicts, name)
        }),
{
    let ranks = Seq::new(m.len(), |j: int| early_rank(m[j].source_label));
    assert(ranks =~= early_ranks(m));
    lemma_label_ranks(m);
    law_newest_schema_declares(m, ranks, name);
    assert(m[i].entities.contains_key(name));
    assert(some_schema_declares(m, name));
    law_early_holds_all(m, name);
    law_abstract_in_some_schema(m, name);
    law_attributes_are_exported(m[i].entities[name].own_attrs);
}

/// The conflicts of an entity are written attribute by attribute, each with the
/// declarations that differ.
pub proof fn law_conflicts_are_written(
    found: Map<Seq<char>, Map<Seq<char>, Seq<Seq<char>>>>,
    entity: Seq<char>,
)
    ensures
        !found.contains_key(entity) ==> conflicts_of(found, entity).len() == 0,
        found.contains_key(entity) ==> conflicts_of(found, entity).len() == ordered(
            found[entity].dom(),
        ).len() && forall|i: int|
            0 <= i < conflicts_of(found, entity).len() ==> #[trigger] conflicts_of(found, entity)[i]
                == ordered(found[entity].dom())[i] + ": "@ + joined(
                found[entity][ordered(found[entity].dom())[i]],
                " | "@,
            ),
{
}

// ---------------------------------------------------------------------
// Profiles
// ---------------------------------------------------------------------

proof fn lemma_schema_for(m: Seq<SchemaModel>, prefix: Seq<char>) -> (i: int)
    ensures
        schema_for(m, prefix) matches Some(s) ==> 0 <= i < m.len() && m[i] == s && starts_with(
            s.source_label,
            prefix,
        ) && (forall|j: int|
            0 <= j < i ==> !starts_with((#[trigger] m[j]).source_label, prefix)),
        schema_for(m, prefix) is None ==> forall|j: int|
            0 <= j < m.len() ==> !starts_with((#[trigger] m[j]).source_label, prefix),
    decreases m.len(),
{
    if m.len() == 0 {
        0
    } else {
        let d = m.drop_last();
        let i = lemma_schema_for(d, prefix);
        if schema_for(d, prefix) is Some {
            assert forall|j: int| 0 <= j < i implies !starts_with(
                (#[trigger] m[j]).source_label,
                prefix,
            ) by {
                assert(m[j] == d[j]);
            }
            i
        } else {
            assert forall|j: int| 0 <= j < d.len() implies !starts_with(
                (#[trigger] m[j]).source_label,
                prefix,
            ) by {
                assert(m[j] == d[j]);
            }
            m.len() - 1
        }
    }
}

/// Whether schema `i` is the first one whose label begins with `prefix`.
pub open spec fn first_labelled(m: Seq<SchemaModel>, prefix: Seq<char>, i: int) -> bool {
    &&& 0 <= i < m.len()
    &&& prefix.len() <= m[i].source_label.len()
    &&& m[i].source_label.take(prefix.len() as int) == prefix
    &&& forall|j: int|
        0 <= j < i ==> !(prefix.len() <= (#[trigger] m[j]).source_label.len()
            && m[j].source_label.take(prefix.len() as int) == prefix)
}

/// A profile is made from the first schema whose label begins as the target
/// asks; without one there is no profile.
pub proof fn law_profile_comes_from_its_schema(m: Seq<SchemaModel>, t: TargetModel)
    ensures
        target_profile(m, t) is Ok <==> exists|i: int| #[trigger]
            first_labelled(m, t.label_match, i),
        forall|i: int| #[trigger]
            first_labelled(m, t.label_match, i) ==> target_profile(m, t) == Ok::<
                ProfileTomlModel,
                Seq<char>,
            >(profile_of(m[i], first_declared(m))),
        target_profile(m, t) is Err ==> target_profile(m, t)->Err_0
            == "profile_export: no schema with source_label starting '"@ + t.label_match
            + "' (target "@ + t.out_name + ")"@,
{
    let i = lemma_schema_for(m, t.label_match);
    if schema_for(m, t.label_match) is Some {
        assert(first_labelled(m, t.label_match, i)) by {
            assert forall|j: int| 0 <= j < i implies !(t.label_match.len() <= (
            #[trigger] m[j]).source_label.len() && m[j].source_label.take(
                t.label_match.len() as int,
            ) == t.label_match) by {
                assert(!starts_with(m[j].source_label, t.label_match));
            }
        }
        assert forall|k: int| #[trigger] first_labelled(m, t.label_match, k) implies k == i by {
            if k < i {
                assert(!starts_with(m[k].source_label, t.label_match));
            } else if i < k {
                assert(starts_with(m[i].source_label, t.label_match));
            }
        }
    } else {
        assert forall|k: int| #[trigger] first_labelled(m, t.label_match, k) implies false by {
            assert(!starts_with(m[k].source_label, t.label_match));
        }
    }
}

/// What a profile says of an entity is what the schema of its target says:
/// parents, whether it is abstract, and the attributes by name and type, in
/// order. It holds the entities and the types of that schema, and no others.
pub proof fn law_profile_entity(
    schema: SchemaModel,
    all: Map<Seq<char>, EntityModel>,
    name: Seq<char>,
)
    ensures
        profile_of(schema, all).source_label == schema.source_label,
        profile_of(schema, all).entity.contains_key(name) == schema.entities.contains_key(name),
        schema.entities.contains_key(name) ==> {
            let r = profile_of(schema, all).entity[name];
            let e = schema.entities[name];
            &&& r.parents == e.parents
            &&& r.is_abstract == e.is_abstract
            &&& r.own_attrs.len() == e.own_attrs.len()
            &&& forall|k: int|
                0 <= k < e.own_attrs.len() ==> (#[trigger] r.own_attrs[k]).name
                    == e.own_attrs[k].name && r.own_attrs[k].ty == repr(e.own_attrs[k].ty)
            &&& r.redeclared_attrs == exported_signals(e.redeclared_attrs, seq![schema])
        },
        profile_of(schema, all).type_aliases.contains_key(name) == schema.types.contains_key(name),
        schema.types.contains_key(name) ==> profile_of(schema, all).type_aliases[name] == repr(
            schema.types[name].aliased,
        ),
{
    if schema.entities.contains_key(name) {
        law_attributes_are_exported(schema.entities[name].own_attrs);
    }
}

/// Whether `way` leads from an entity that the target does not allow, over single
/// parents that it does not allow and that add nothing, to an entity that it does
/// allow.
pub open spec fn downgrade_way(
    all: Map<Seq<char>, EntityModel>,
    schema: SchemaModel,
    way: Seq<Seq<char>>,
) -> bool {
    &&& way.len() >= 2
    &&& schema.entities.contains_key(way[way.len() - 1])
    &&& forall|i: int|
        #![trigger way[i]]
        0 <= i < way.len() - 1 ==> {
            &&& all.contains_key(way[i])
            &&& !schema.entities.contains_key(way[i])
            &&& all[way[i]].parents == seq![way[i + 1]]
            &&& all[way[i]].own_attrs.len() == 0
            &&& all[way[i]].redeclared_attrs.len() == 0
        }
}

proof fn lemma_way_is_followed(
    all: Map<Seq<char>, EntityModel>,
    schema: SchemaModel,
    way: Seq<Seq<char>>,
    n: nat,
)
    requires
        downgrade_way(all, schema, way),
        way.len() - 1 <= n,
    ensures
        legal_above(all[way[0]], all, schema.entities, n) == Some(way[way.len() - 1]),
    decreases way.len(),
{
    assert(all[way[0]].parents == seq![way[0int + 1]]);
    if way.len() > 2 {
        let rest = way.drop_first();
        assert forall|i: int|
            #![trigger rest[i]]
            0 <= i < rest.len() - 1 implies {
            &&& all.contains_key(rest[i])
            &&& !schema.entities.contains_key(rest[i])
            &&& all[rest[i]].parents == seq![rest[i + 1]]
            &&& all[rest[i]].own_attrs.len() == 0
            &&& all[rest[i]].redeclared_attrs.len() == 0
        } by {
            assert(rest[i] == way[i + 1]);
            assert(rest[i + 1] == way[i + 2]);
        }
        assert(all.contains_key(way[1]));
        assert(!schema.entities.contains_key(way[1]));
        lemma_way_is_followed(all, schema, rest, (n - 1) as nat);
    }
}

proof fn lemma_way_is_there(
    all: Map<Seq<char>, EntityModel>,
    schema: SchemaModel,
    name: Seq<char>,
    n: nat,
) -> (way: Seq<Seq<char>>)
    requires
        all.contains_key(name),
        !schema.entities.contains_key(name),
        legal_above(all[name], all, schema.entities, n) is Some,
    ensures
        downgrade_way(all, schema, way),
        way.len() - 1 <= n,
        way[0] == name,
        Some(way[way.len() - 1]) == legal_above(all[name], all, schema.entities, n),
    decreases n,
{
    let e = all[name];
    let p = e.parents[0];
    assert(e.parents =~= seq![p]);
    if schema.entities.contains_key(p) {
        seq![name, p]
    } else {
        let rest = lemma_way_is_there(all, schema, p, (n - 1) as nat);
        let way = seq![name] + rest;
        assert forall|i: int|
            #![trigger way[i]]
            0 <= i < way.len() - 1 implies {
            &&& all.contains_key(way[i])
            &&& !schema.entities.contains_key(way[i])
            &&& all[way[i]].parents == seq![way[i + 1]]
            &&& all[way[i]].own_attrs.len() == 0
            &&& all[way[i]].redeclared_attrs.len() == 0
        } by {
            if i > 0 {
                assert(way[i] == rest[i - 1]);
                assert(way[i + 1] == rest[i]);
            } else {
                assert(way[1] == rest[0]);
            }
        }
        way
    }
}

/// An entity is downgraded just where a way of at most sixty-four steps over
/// entities that add nothing leads to one that the target allows; and to that
/// one.
pub proof fn law_downgrades_follow_the_way(
    schema: SchemaModel,
    all: Map<Seq<char>, EntityModel>,
    name: Seq<char>,
)
    requires
        all.dom().finite(),
    ensures
        forall|way: Seq<Seq<char>>| #[trigger]
            downgrade_way(all, schema, way) && way[0] == name && way.len() <= 65 ==> profile_of(
                schema,
                all,
            ).downgrade.contains_key(name) && profile_of(schema, all).downgrade[name]
                == way[way.len() - 1],
        profile_of(schema, all).downgrade.contains_key(name) ==> exists|way: Seq<Seq<char>>|
            #[trigger] downgrade_way(all, schema, way) && way[0] == name && way.len() <= 65,
{
    lemma_ordered(all.dom());
    assert forall|way: Seq<Seq<char>>| #[trigger]
        downgrade_way(all, schema, way) && way[0] == name && way.len() <= 65 implies profile_of(
        schema,
        all,
    ).downgrade.contains_key(name) && profile_of(schema, all).downgrade[name] == way[way.len()
        - 1] by {
        lemma_way_is_followed(all, schema, way, 64);
        assert(all.contains_key(way[0]));
        assert(ordered(all.dom()).contains(name));
    }
    if profile_of(schema, all).downgrade.contains_key(name) {
        assert(ordered(all.dom()).contains(name));
        assert(all.contains_key(name));
        let way = lemma_way_is_there(all, schema, name, 64);
        assert(downgrade_way(all, schema, way) && way[0] == name && way.len() <= 65);
    }
}

// ---------------------------------------------------------------------
// Parts of complex instances
// ---------------------------------------------------------------------

/// Which members of an expression combine: all names inside an `ANDOR` or an
/// `AND`; of a `ONEOF`, those that combine inside one of its members; a bare name
/// only where it stands inside one of the former.
pub proof fn law_members_combine(c: Seq<SuperModel>, inside: bool, x: Seq<char>)
    ensures
        combining(SuperModel::OneOf(c), inside).contains(x) <==> exists|i: int|
            0 <= i < c.len() && combining(#[trigger] c[i], inside).contains(x),
        combining(SuperModel::AndOr(c), inside).contains(x) <==> exists|i: int|
            0 <= i < c.len() && combining(#[trigger] c[i], true).contains(x),
        combining(SuperModel::And(c), inside).contains(x) <==> exists|i: int|
            0 <= i < c.len() && combining(#[trigger] c[i], true).contains(x),
        combining(SuperModel::Entity(x), true).contains(x),
        forall|n: Seq<char>| #[trigger]
            combining(SuperModel::Entity(n), true).contains(x) ==> n == x,
        forall|n: Seq<char>| !#[trigger] combining(SuperModel::Entity(n), false).contains(x),
{
    lemma_list_combines(c, inside, x);
    lemma_list_combines(c, true, x);
}

proof fn lemma_list_combines(c: Seq<SuperModel>, inside: bool, x: Seq<char>)
    ensures
        combining_of(c, inside).contains(x) <==> exists|i: int|
            0 <= i < c.len() && combining(#[trigger] c[i], inside).contains(x),
    decreases c.len(),
{
    if c.len() > 0 {
        let d = c.drop_last();
        lemma_list_combines(d, inside, x);
        if combining_of(d, inside).contains(x) {
            let i = choose|i: int|
                0 <= i < d.len() && combining(#[trigger] d[i], inside).contains(x);
            assert(combining(c[i], inside).contains(x));
        }
        assert(c[c.len() - 1] == c.last());
        if exists|i: int| 0 <= i < c.len() && combining(#[trigger] c[i], inside).contains(x) {
            let i = choose|i: int|
                0 <= i < c.len() && combining(#[trigger] c[i], inside).contains(x);
            if i < d.len() {
                assert(combining(d[i], inside).contains(x));
            }
        }
    }
}

/// Whether an entity can combine by itself: an expression of some entity combines
/// it with others, it has a parent without an expression, or it was seen as a
/// part.
pub open spec fn combines(
    decls: Map<Seq<char>, EntityModel>,
    corpus: Map<Seq<char>, UsageModel>,
    x: Seq<char>,
) -> bool {
    ||| exists|e: Seq<char>| #[trigger]
        decls.contains_key(e) && decls[e].supertype_expr is Some && combining(
            decls[e].supertype_expr->0,
            false,
        ).contains(x)
    ||| decls.contains_key(x) && exists|i: int|
        0 <= i < decls[x].parents.len() && decls.contains_key(#[trigger] decls[x].parents[i])
            && decls[decls[x].parents[i]].supertype_expr is None
    ||| decls.contains_key(x) && corpus.contains_key(x) && corpus[x].complex_part_count > 0
}

proof fn lemma_combined_by_expr(
    decls: Map<Seq<char>, EntityModel>,
    keys: Seq<Seq<char>>,
    x: Seq<char>,
)
    ensures
        combined_by_expr(decls, keys).contains(x) <==> exists|i: int|
            0 <= i < keys.len() && decls[#[trigger] keys[i]].supertype_expr is Some && combining(
                decls[keys[i]].supertype_expr->0,
                false,
            ).contains(x),
    decreases keys.len(),
{
    if keys.len() > 0 {
        let d = keys.drop_last();
        lemma_combined_by_expr(decls, d, x);
        assert(keys[keys.len() - 1] == keys.last());
        assert forall|i: int| 0 <= i < d.len() implies #[trigger] d[i] == keys[i] by {}
        if combined_by_expr(decls, d).contains(x) {
            let i = choose|i: int|
                0 <= i < d.len() && decls[#[trigger] d[i]].supertype_expr is Some && combining(
                    decls[d[i]].supertype_expr->0,
                    false,
                ).contains(x);
            assert(keys[i] == d[i]);
        }
        if exists|i: int|
            0 <= i < keys.len() && decls[#[trigger] keys[i]].supertype_expr is Some && combining(
                decls[keys[i]].supertype_expr->0,
                false,
            ).contains(x) {
            let i = choose|i: int|
                0 <= i < keys.len() && decls[#[trigger] keys[i]].supertype_expr is Some
                    && combining(decls[keys[i]].supertype_expr->0, false).contains(x);
            if i < d.len() {
                assert(d[i] == keys[i]);
            }
        }
    }
}

proof fn lemma_combinable(
    decls: Map<Seq<char>, EntityModel>,
    corpus: Map<Seq<char>, UsageModel>,
    x: Seq<char>,
)
    requires
        decls.dom().finite(),
    ensures
        combinable(decls, corpus).contains(x) <==> combines(decls, corpus, x),
{
    let keys = ordered(decls.dom());
    lemma_ordered(decls.dom());
    lemma_combined_by_expr(decls, keys, x);
    if combined_by_expr(decls, keys).contains(x) {
        let i = choose|i: int|
            0 <= i < keys.len() && decls[#[trigger] keys[i]].supertype_expr is Some && combining(
                decls[keys[i]].supertype_expr->0,
                false,
            ).contains(x);
        assert(keys.contains(keys[i]));
        assert(decls.contains_key(keys[i]));
    }
    if exists|e: Seq<char>| #[trigger]
        decls.contains_key(e) && decls[e].supertype_expr is Some && combining(
            decls[e].supertype_expr->0,
            false,
        ).contains(x) {
        let e = choose|e: Seq<char>| #[trigger]
            decls.contains_key(e) && decls[e].supertype_expr is Some && combining(
                decls[e].supertype_expr->0,
                false,
            ).contains(x);
        assert(keys.contains(e));
        let i = choose|i: int| 0 <= i < keys.len() && keys[i] == e;
        assert(decls[keys[i]].supertype_expr is Some);
    }
    if under_bare_parent(decls, x) {
        let p = choose|p: Seq<char>| #[trigger]
            decls[x].parents.contains(p) && decls.contains_key(p) && decls[p].supertype_expr
                is None;
        let i = choose|i: int| 0 <= i < decls[x].parents.len() && decls[x].parents[i] == p;
        assert(decls.contains_key(decls[x].parents[i]));
    }
    if decls.contains_key(x) && exists|i: int|
        0 <= i < decls[x].parents.len() && decls.contains_key(#[trigger] decls[x].parents[i])
            && decls[decls[x].parents[i]].supertype_expr is None {
        let i = choose|i: int|
            0 <= i < decls[x].parents.len() && decls.contains_key(#[trigger] decls[x].parents[i])
                && decls[decls[x].parents[i]].supertype_expr is None;
        assert(decls[x].parents.contains(decls[x].parents[i]));
    }
}

/// The parts of complex instances are the entities that combine by themselves and
/// all their ancestors.
pub proof fn law_parts_are_combinable_or_above(
    decls: Map<Seq<char>, EntityModel>,
    corpus: Map<Seq<char>, UsageModel>,
    x: Seq<char>,
)
    requires
        decls.dom().finite(),
        combinable(decls, corpus).finite(),
    ensures
        complex_parts(decls, corpus).contains(x) <==> exists|s: Seq<char>| #[trigger]
            combines(decls, corpus, s) && (s == x || (decls.contains_key(s) && reachable(
                parent_graph(decls),
                decls[s].parents,
                x,
            ))),
{
    let g = parent_graph(decls);
    let all = combinable(decls, corpus);
    let names = ordered(all);
    lemma_ordered(all);
    if complex_parts(decls, corpus).contains(x) {
        let n = choose|n: nat| reached(g, names, x, n);
        if n == 0 {
            assert(names.contains(x));
            lemma_combinable(decls, corpus, x);
            assert(combines(decls, corpus, x));
        } else {
            let s = choose|s: Seq<char>|
                #[trigger] names.contains(s) && g.contains_key(s) && reached(
                    g,
                    g[s],
                    x,
                    (n - 1) as nat,
                );
            lemma_combinable(decls, corpus, s);
            assert(combines(decls, corpus, s));
            assert(reachable(g, decls[s].parents, x));
        }
    }
    if exists|s: Seq<char>| #[trigger]
        combines(decls, corpus, s) && (s == x || (decls.contains_key(s) && reachable(
            g,
            decls[s].parents,
            x,
        ))) {
        let s = choose|s: Seq<char>| #[trigger]
            combines(decls, corpus, s) && (s == x || (decls.contains_key(s) && reachable(
                g,
                decls[s].parents,
                x,
            )));
        lemma_combinable(decls, corpus, s);
        assert(names.contains(s));
        if s == x {
            assert(reached(g, names, x, 0));
        } else {
            let n = choose|n: nat| reached(g, decls[s].parents, x, n);
            assert(g.contains_key(s) && reached(g, g[s], x, n));
            assert(reached(g, names, x, n + 1));
        }
    }
}

/// The universal export marks the parts of complex instances.
pub proof fn law_universal_marks_parts(
    m: Seq<SchemaModel>,
    corpus: Map<Seq<char>, UsageModel>,
    name: Seq<char>,
)
    requires
        finite_schemas(m),
        some_schema_declares(m, name),
    ensures
        univ_entities(m, corpus)[name].is_complex_part == complex_parts(
            first_declared(
                newest_first(m, Seq::new(m.len(), |j: int| label_rank(m[j].source_label))),
            ),
            corpus,
        ).contains(name),
{
    law_universal_holds_all(m, corpus, name);
    assert(Seq::new(m.len(), |j: int| label_rank(m[j].source_label)) =~= label_ranks(m));
}

// ---------------------------------------------------------------------
// Aliases
// ---------------------------------------------------------------------

/// Whether schema `i` is the newest one with the property `p`.
pub open spec fn newest_such(
    m: Seq<SchemaModel>,
    ranks: Seq<u8>,
    p: spec_fn(SchemaModel) -> bool,
    i: int,
) -> bool {
    &&& 0 <= i < m.len()
    &&& p(m[i])
    &&& forall|j: int|
        0 <= j < m.len() && p(#[trigger] m[j]) ==> ranks[j] < ranks[i] || (ranks[j] == ranks[i]
            && i <= j)
}

proof fn lemma_such_of_rank(
    m: Seq<SchemaModel>,
    ranks: Seq<u8>,
    r: int,
    p: spec_fn(SchemaModel) -> bool,
) -> (ki: (int, int))
    requires
        ranks.len() >= m.len(),
    ensures
        ({
            let q = of_rank(m, ranks, r);
            let (k, i) = ki;
            if exists|j: int| 0 <= j < m.len() && ranks[j] == r && p(#[trigger] m[j]) {
                &&& 0 <= k < q.len()
                &&& 0 <= i < m.len()
                &&& q[k] == m[i]
                &&& ranks[i] == r
                &&& p(m[i])
                &&& forall|h: int| 0 <= h < k ==> !p(#[trigger] q[h])
                &&& forall|j: int| 0 <= j < i ==> !(ranks[j] == r && p(#[trigger] m[j]))
            } else {
                forall|h: int| 0 <= h < q.len() ==> !p(#[trigger] q[h])
            }
        }),
    decreases m.len(),
{
    if m.len() == 0 {
        (0, 0)
    } else {
        let d = m.drop_last();
        let last = m.len() - 1;
        let (k, i) = lemma_such_of_rank(d, ranks, r, p);
        let q0 = of_rank(d, ranks, r);
        let q = of_rank(m, ranks, r);
        assert forall|j: int| 0 <= j < d.len() implies #[trigger] m[j] == d[j] by {}
        assert forall|h: int| 0 <= h < q0.len() implies #[trigger] q[h] == q0[h] by {}
        if exists|j: int| 0 <= j < d.len() && ranks[j] == r && p(#[trigger] d[j]) {
            let j = choose|j: int| 0 <= j < d.len() && ranks[j] == r && p(#[trigger] d[j]);
            assert(p(m[j]));
            assert forall|h: int| 0 <= h < k implies !p(#[trigger] q[h]) by {
                assert(!p(q0[h]));
            }
            assert forall|j: int| 0 <= j < i implies !(ranks[j] == r && p(#[trigger] m[j])) by {
                assert(!(ranks[j] == r && p(d[j])));
            }
            (k, i)
        } else {
            assert forall|j: int| 0 <= j < last implies !(ranks[j] == r && p(
                #[trigger] m[j],
            )) by {
                assert(!(ranks[j] == r && p(d[j])));
            }
            assert forall|h: int| 0 <= h < q0.len() implies !p(#[trigger] q[h]) by {
                assert(!p(q0[h]));
            }
            (q0.len() as int, last)
        }
    }
}

proof fn lemma_such_down(
    m: Seq<SchemaModel>,
    ranks: Seq<u8>,
    top: int,
    p: spec_fn(SchemaModel) -> bool,
) -> (ki: (int, int))
    requires
        ranks.len() >= m.len(),
    ensures
        ({
            let q = ranked_down(m, ranks, top);
            let (k, i) = ki;
            if exists|j: int| 0 <= j < m.len() && ranks[j] <= top && p(#[trigger] m[j]) {
                &&& 0 <= k < q.len()
                &&& 0 <= i < m.len()
                &&& q[k] == m[i]
                &&& ranks[i] <= top
                &&& p(m[i])
                &&& forall|h: int| 0 <= h < k ==> !p(#[trigger] q[h])
                &&& forall|j: int|
                    0 <= j < m.len() && ranks[j] <= top && p(#[trigger] m[j]) ==> ranks[j]
                        < ranks[i] || (ranks[j] == ranks[i] && i <= j)
            } else {
                forall|h: int| 0 <= h < q.len() ==> !p(#[trigger] q[h])
            }
        }),
    decreases top + 1,
{
    if top < 0 {
        (0, 0)
    } else {
        let a = of_rank(m, ranks, top);
        let b = ranked_down(m, ranks, top - 1);
        let q = ranked_down(m, ranks, top);
        let (k, i) = lemma_such_of_rank(m, ranks, top, p);
        let (k2, i2) = lemma_such_down(m, ranks, top - 1, p);
        assert forall|h: int| 0 <= h < a.len() implies #[trigger] q[h] == a[h] by {}
        if exists|j: int| 0 <= j < m.len() && ranks[j] == top && p(#[trigger] m[j]) {
            (k, i)
        } else {
            assert forall|h: int| 0 <= h < a.len() implies !p(#[trigger] q[h]) by {
                assert(!p(a[h]));
            }
            if exists|j: int| 0 <= j < m.len() && ranks[j] <= top && p(#[trigger] m[j]) {
                let j = choose|j: int| 0 <= j < m.len() && ranks[j] <= top && p(#[trigger] m[j]);
                assert(ranks[j] <= top - 1);
                assert forall|h: int| 0 <= h < a.len() + k2 implies !p(#[trigger] q[h]) by {
                    if h >= a.len() {
                        assert(q[h] == b[h - a.len()]);
                    }
                }
                assert(q[a.len() + k2] == b[k2]);
            } else {
                assert forall|h: int| 0 <= h < q.len() implies !p(#[trigger] q[h]) by {
                    if h >= a.len() {
                        assert(q[h] == b[h - a.len()]);
                    }
                }
            }
            (a.len() + k2, i2)
        }
    }
}

/// The order of the schemas puts the newest first: the first of the ordered
/// schemas with some property is the newest of those that have it.
pub proof fn law_newest_comes_first(
    m: Seq<SchemaModel>,
    ranks: Seq<u8>,
    p: spec_fn(SchemaModel) -> bool,
    i: int,
) -> (k: int)
    requires
        ranks.len() == m.len(),
        forall|j: int| 0 <= j < ranks.len() ==> #[trigger] ranks[j] <= 6,
        newest_such(m, ranks, p, i),
    ensures
        0 <= k < newest_first(m, ranks).len(),
        newest_first(m, ranks)[k] == m[i],
        forall|h: int| 0 <= h < k ==> !p(#[trigger] newest_first(m, ranks)[h]),
{
    let (k, j) = lemma_such_down(m, ranks, 6, p);
    assert(ranks[i] <= 6 && p(m[i]));
    assert(p(m[j]));
    assert(i == j);
    k
}

proof fn lemma_first_aliased(m: Seq<SchemaModel>, name: Seq<char>)
    ensures
        first_aliased(m).contains_key(name) == (first_alias(m, name) is Some),
        first_aliased(m).contains_key(name) ==> first_aliased(m)[name] == first_alias(
            m,
            name,
        )->0,
    decreases m.len(),
{
    if m.len() > 0 {
        lemma_first_aliased(m.drop_last(), name);
    }
}

/// Whether some schema has an alias of this name.
pub open spec fn some_schema_aliases(m: Seq<SchemaModel>, name: Seq<char>) -> bool {
    exists|i: int| 0 <= i < m.len() && (#[trigger] m[i]).types.contains_key(name)
}

proof fn lemma_ordered_aliases(m: Seq<SchemaModel>, ranks: Seq<u8>, name: Seq<char>)
    requires
        ranks.len() == m.len(),
        forall|j: int| 0 <= j < ranks.len() ==> #[trigger] ranks[j] <= 6,
    ensures
        some_schema_aliases(newest_first(m, ranks), name) == some_schema_aliases(m, name),
{
    let p = |s: SchemaModel| s.types.contains_key(name);
    let q = newest_first(m, ranks);
    let (k, i) = lemma_such_down(m, ranks, 6, p);
    if some_schema_aliases(m, name) {
        let j = choose|j: int| 0 <= j < m.len() && (#[trigger] m[j]).types.contains_key(name);
        assert(ranks[j] <= 6 && p(m[j]));
        assert(q[k].types.contains_key(name));
    }
    if some_schema_aliases(q, name) {
        let h = choose|h: int| 0 <= h < q.len() && (#[trigger] q[h]).types.contains_key(name);
        assert(p(q[h]));
        if !some_schema_aliases(m, name) {
            assert forall|j: int| 0 <= j < m.len() && ranks[j] <= 6 implies !p(
                #[trigger] m[j],
            ) by {}
        }
    }
}

/// An alias stands for what the newest schema that has it says; there is one for
/// each that some schema has.
pub proof fn law_newest_alias_counts(
    m: Seq<SchemaModel>,
    ranks: Seq<u8>,
    name: Seq<char>,
)
    requires
        ranks.len() == m.len(),
        forall|j: int| 0 <= j < ranks.len() ==> #[trigger] ranks[j] <= 6,
    ensures
        first_aliased(newest_first(m, ranks)).contains_key(name) == some_schema_aliases(m, name),
        forall|i: int| #[trigger]
            newest_to_alias(m, ranks, name, i) ==> first_aliased(newest_first(m, ranks))[name]
                == m[i].types[name].aliased,
{
    let q = newest_first(m, ranks);
    let f = lemma_first_alias(q, name);
    lemma_first_aliased(q, name);
    lemma_ordered_aliases(m, ranks, name);
    if first_alias(q, name) is Some {
        assert(q[f].types.contains_key(name));
    }
    assert forall|i: int| #[trigger]
        newest_to_alias(m, ranks, name, i) implies first_aliased(q)[name]
        == m[i].types[name].aliased by {
        let p = |s: SchemaModel| s.types.contains_key(name);
        assert(newest_such(m, ranks, p, i));
        let k = law_newest_comes_first(m, ranks, p, i);
        assert(q[k].types.contains_key(name));
        if f < k {
            assert(!p(q[f]));
        } else if k < f {
            assert(!q[k].types.contains_key(name));
        }
    }
}

/// Whether schema `i` is the newest one that has an alias of this name.
pub open spec fn newest_to_alias(
    m: Seq<SchemaModel>,
    ranks: Seq<u8>,
    name: Seq<char>,
    i: int,
) -> bool {
    &&& 0 <= i < m.len()
    &&& m[i].types.contains_key(name)
    &&& forall|j: int|
        0 <= j < m.len() && (#[trigger] m[j]).types.contains_key(name) ==> ranks[j] < ranks[i] || (
        ranks[j] == ranks[i] && i <= j)
}

/// Whether some schema makes the alias a selection with `x` among its members.
pub open spec fn some_selection_lists(m: Seq<SchemaModel>, name: Seq<char>, x: Seq<char>) -> bool {
    exists|i: int|
        0 <= i < m.len() && (#[trigger] m[i]).types.contains_key(name)
            && m[i].types[name].aliased is Select && (
        m[i].types[name].aliased->Select_0).contains(x)
}

proof fn lemma_last_or_before<A>(q: Seq<A>, x: A)
    requires
        q.len() > 0,
    ensures
        q.contains(x) <==> q.drop_last().contains(x) || x == q.last(),
{
    let d = q.drop_last();
    if q.contains(x) {
        let i = choose|i: int| 0 <= i < q.len() && q[i] == x;
        if i < d.len() {
            assert(d[i] == x);
        }
    }
    if d.contains(x) {
        let i = choose|i: int| 0 <= i < d.len() && d[i] == x;
        assert(q[i] == x);
    }
    assert(q[q.len() - 1] == q.last());
}

/// Adding names keeps those that are there in front, in their order, adds each
/// new one once, and no other.
pub proof fn law_names_are_added_once(v: Seq<Seq<char>>, ps: Seq<Seq<char>>, x: Seq<char>)
    ensures
        add_missing(v, ps).len() >= v.len(),
        add_missing(v, ps).take(v.len() as int) == v,
        add_missing(v, ps).contains(x) <==> v.contains(x) || ps.contains(x),
        v.no_duplicates() ==> add_missing(v, ps).no_duplicates(),
    decreases ps.len(),
{
    if ps.len() == 0 {
        assert(v.take(v.len() as int) =~= v);
    } else {
        let before = add_missing(v, ps.drop_last());
        law_names_are_added_once(v, ps.drop_last(), x);
        lemma_last_or_before(ps, x);
        if !before.contains(ps.last()) {
            let q = before.push(ps.last());
            assert(q.drop_last() =~= before);
            lemma_last_or_before(q, x);
            assert(q.take(v.len() as int) =~= before.take(v.len() as int));
            if v.no_duplicates() {
                assert forall|i: int, j: int| 0 <= i < q.len() && 0 <= j < q.len() && i != j implies
                    q[i] != q[j] by {
                    if i < before.len() {
                        assert(before.contains(before[i]));
                    }
                    if j < before.len() {
                        assert(before.contains(before[j]));
                    }
                }
            }
        }
    }
}

/// The members of a selection are those that some schema lists, each once.
pub proof fn law_selections_are_united(m: Seq<SchemaModel>, name: Seq<char>, x: Seq<char>)
    ensures
        united_members(m, name) is Some <==> exists|i: int|
            0 <= i < m.len() && (#[trigger] m[i]).types.contains_key(name)
                && m[i].types[name].aliased is Select,
        united_members(m, name) matches Some(all) ==> all.no_duplicates() && (all.contains(x)
            <==> some_selection_lists(m, name, x)),
    decreases m.len(),
{
    if m.len() > 0 {
        let d = m.drop_last();
        law_selections_are_united(d, name, x);
        assert(m[m.len() - 1] == m.last());
        assert forall|i: int| 0 <= i < d.len() implies #[trigger] m[i] == d[i] by {}
        if m.last().types.contains_key(name) {
            match m.last().types[name].aliased {
                TypeModel::Select(members) => {
                    match united_members(d, name) {
                        Some(acc) => law_names_are_added_once(acc, members, x),
                        None => law_names_are_added_once(seq![], members, x),
                    }
                },
                _ => {},
            }
        }
        if exists|i: int|
            0 <= i < d.len() && (#[trigger] d[i]).types.contains_key(name)
                && d[i].types[name].aliased is Select {
            let i = choose|i: int|
                0 <= i < d.len() && (#[trigger] d[i]).types.contains_key(name)
                    && d[i].types[name].aliased is Select;
            assert(m[i].types.contains_key(name));
        }
        if some_selection_lists(d, name, x) {
            let i = choose|i: int|
                0 <= i < d.len() && (#[trigger] d[i]).types.contains_key(name)
                    && d[i].types[name].aliased is Select && (
                d[i].types[name].aliased->Select_0).contains(x);
            assert(m[i].types.contains_key(name));
        }
        if exists|i: int|
            0 <= i < m.len() && (#[trigger] m[i]).types.contains_key(name)
                && m[i].types[name].aliased is Select {
            let i = choose|i: int|
                0 <= i < m.len() && (#[trigger] m[i]).types.contains_key(name)
                    && m[i].types[name].aliased is Select;
            if i < d.len() {
                assert(d[i].types.contains_key(name));
            }
        }
        if some_selection_lists(m, name, x) {
            let i = choose|i: int|
                0 <= i < m.len() && (#[trigger] m[i]).types.contains_key(name)
                    && m[i].types[name].aliased is Select && (
                m[i].types[name].aliased->Select_0).contains(x);
            if i < d.len() {
                assert(d[i].types.contains_key(name));
            }
        }
        assert(!Seq::<Seq<char>>::empty().contains(x));
    }
}

/// The alias texts of the universal export: one for each alias of some schema; a
/// selection with the united members where some schema makes it one, or else
/// what the first of the schemas says.
pub proof fn law_universal_aliases(ranked: Seq<SchemaModel>, name: Seq<char>)
    requires
        finite_schemas(ranked),
    ensures
        univ_aliases(ranked).contains_key(name) == some_schema_aliases(ranked, name),
        some_schema_aliases(ranked, name) ==> univ_aliases(ranked)[name] == (match united_members(
            ranked,
            name,
        ) {
            Some(members) => "SELECT("@ + joined(members, ", "@) + ")"@,
            None => repr(first_aliased(ranked)[name]),
        }),
{
    let f = lemma_first_alias(ranked, name);
    lemma_first_aliased(ranked, name);
    lemma_aliased_finite(ranked);
    lemma_ordered(first_aliased(ranked).dom());
    if first_alias(ranked, name) is Some {
        assert(ranked[f].types.contains_key(name));
    }
}

proof fn lemma_aliased_finite(m: Seq<SchemaModel>)
    requires
        finite_schemas(m),
    ensures
        first_aliased(m).dom().finite(),
    decreases m.len(),
{
    if m.len() > 0 {
        let d = m.drop_last();
        assert forall|i: int| 0 <= i < d.len() implies (#[trigger] d[i]).entities.dom().finite()
            && d[i].types.dom().finite() by {
            assert(m[i].types.dom().finite());
        }
        lemma_aliased_finite(d);
        let a = m.last().types.map_values(|t: TypeDefModel| t.aliased);
        assert(m[m.len() - 1].types.dom().finite());
        assert(a.dom() =~= m.last().types.dom());
        assert(first_aliased(m).dom() =~= a.dom().union(first_aliased(d).dom()));
    }
}

// ---------------------------------------------------------------------
// What is written, entity by entity
// ---------------------------------------------------------------------

/// An entity of the universal export is abstract if some schema declares it so, and a
/// part of complex instances if it was seen as one; its parents are those of the
/// newest schema that declares it.
pub proof fn law_universal_row(
    m: Seq<SchemaModel>,
    corpus: Map<Seq<char>, UsageModel>,
    name: Seq<char>,
)
    requires
        univ_entities(m, corpus).contains_key(name),
        universal_decls(m).dom().finite(),
    ensures
        univ_entities(m, corpus)[name].is_abstract <==> exists|i: int|
            0 <= i < m.len() && (#[trigger] m[i]).entities.contains_key(name)
                && m[i].entities[name].is_abstract,
        corpus.contains_key(name) && corpus[name].complex_part_count > 0 ==> univ_entities(
            m,
            corpus,
        )[name].is_complex_part,
        forall|i: int| #[trigger]
            newest_to_declare(m, label_ranks(m), name, i) ==> univ_entities(m, corpus)[name].parents
                == m[i].entities[name].parents && univ_entities(m, corpus)[name].own_attrs.len()
                == m[i].entities[name].own_attrs.len(),
{
    lemma_label_ranks(m);
    law_newest_schema_declares(m, label_ranks(m), name);
    if is_abstract(m, name) {
        let i = choose|i: int|
            0 <= i < m.len() && #[trigger] m[i].entities.contains_key(name)
                && m[i].entities[name].is_abstract;
        assert(m[i].entities.contains_key(name));
    }
    law_every_entity_has_a_declaration(m, label_ranks(m));
    assert(declared(m).finite());
    lemma_ordered(declared(m));
    assert(universal_decls(m).contains_key(name));
    if corpus.contains_key(name) && corpus[name].complex_part_count > 0 {
        assert(seen_as_part(universal_decls(m), corpus, name));
        law_combinable_are_parts(universal_decls(m), corpus, name);
    }
}

/// An entity of the early model is abstract if some schema declares it so; its parents
/// are those of the newest schema that declares it.
pub proof fn law_early_row(m: Seq<SchemaModel>, name: Seq<char>)
    requires
        early_entities(m).contains_key(name),
        declared(m).finite(),
    ensures
        early_entities(m)[name].is_abstract <==> exists|i: int|
            0 <= i < m.len() && (#[trigger] m[i]).entities.contains_key(name)
                && m[i].entities[name].is_abstract,
        forall|i: int| #[trigger]
            newest_to_declare(m, early_ranks(m), name, i) ==> early_entities(m)[name].parents
                == m[i].entities[name].parents && early_entities(m)[name].own_attrs.len()
                == m[i].entities[name].own_attrs.len(),
{
    lemma_label_ranks(m);
    law_newest_schema_declares(m, early_ranks(m), name);
    lemma_ordered(declared(m));
    assert(union_of(m).entity_parents.dom() =~= declared(m));
    law_every_entity_has_a_declaration(m, early_ranks(m));
    if is_abstract(m, name) {
        let i = choose|i: int|
            0 <= i < m.len() && #[trigger] m[i].entities.contains_key(name)
                && m[i].entities[name].is_abstract;
        assert(m[i].entities.contains_key(name));
    }
}

/// How the rank of a schema follows from its label in the early model: the editions
/// of AP242 before AP214, AP203e2 and AP203, and these before any other.
pub proof fn law_early_ranks(label: Seq<char>)
    ensures
        starts_with(label, "ap242ed3"@) ==> early_rank(label) == 6,
        starts_with(label, "ap242ed2"@) ==> early_rank(label) == 5,
        starts_with(label, "ap242"@) && !starts_with(label, "ap242ed3"@) && !starts_with(
            label,
            "ap242ed2"@,
        ) ==> early_rank(label) == 4,
        starts_with(label, "ap214"@) ==> early_rank(label) == 3,
        starts_with(label, "ap203e2"@) ==> early_rank(label) == 2,
        starts_with(label, "ap203"@) && !starts_with(label, "ap203e2"@) ==> early_rank(label) == 1,
        early_rank(label) > 0 ==> starts_with(label, "ap242"@) || starts_with(label, "ap214"@)
            || starts_with(label, "ap203"@),
{
    reveal_strlit("ap242ed3");
    reveal_strlit("ap242ed2");
    reveal_strlit("ap242");
    reveal_strlit("ap214");
    reveal_strlit("ap203e2");
    reveal_strlit("ap203");
    if starts_with(label, "ap242ed3"@) {
        assert(label[2] == label.take(8)[2] && label[7] == label.take(8)[7]);
        assert(label.take(5) =~= label.take(8).take(5));
        assert("ap242ed3"@.take(5) =~= "ap242"@);
    }
    if starts_with(label, "ap242ed2"@) {
        assert(label[2] == label.take(8)[2] && label[7] == label.take(8)[7]);
        assert(label.take(5) =~= label.take(8).take(5));
        assert("ap242ed2"@.take(5) =~= "ap242"@);
    }
    if starts_with(label, "ap242"@) {
        assert(label[2] == label.take(5)[2]);
    }
    if starts_with(label, "ap214"@) {
        assert(label[2] == label.take(5)[2] && label[3] == label.take(5)[3]);
    }
    if starts_with(label, "ap203e2"@) {
        assert(label[2] == label.take(7)[2] && label[3] == label.take(7)[3]);
        assert(label.take(5) =~= label.take(7).take(5));
        assert("ap203e2"@.take(5) =~= "ap203"@);
    }
    if starts_with(label, "ap203"@) {
        assert(label[2] == label.take(5)[2] && label[3] == label.take(5)[3]);
    }
}

/// How the text of a type is made: an aggregate or optional type puts its keyword before
/// the text inside, a selection or enumeration lists its names.
pub proof fn law_type_texts(t: TypeModel, v: Seq<Seq<char>>, n: Seq<char>)
    ensures
        repr(TypeModel::Entity(n)) == n,
        repr(TypeModel::List(Box::new(t))) == "LIST OF "@ + repr(t),
        repr(TypeModel::SetOf(Box::new(t))) == "SET OF "@ + repr(t),
        repr(TypeModel::Bag(Box::new(t))) == "BAG OF "@ + repr(t),
        repr(TypeModel::Array(Box::new(t))) == "ARRAY OF "@ + repr(t),
        repr(TypeModel::Optional(Box::new(t))) == "OPTIONAL "@ + repr(t),
        repr(TypeModel::Select(v)) == "SELECT("@ + joined(v, ", "@) + ")"@,
        repr(TypeModel::Enumeration(v)) == "ENUM("@ + joined(v, ", "@) + ")"@,
        repr(TypeModel::Primitive(n)) == crate::text::lowercase(n),
{
}

/// How the rank of a schema follows from its label: the third, second and first edition
/// of AP242, then AP214e3, AP203e2 and AP203e1, and then all others alike.
pub proof fn law_label_ranks(label: Seq<char>)
    ensures
        label_rank("ap242e3"@) == 6,
        label_rank("ap242e2"@) == 5,
        label_rank("ap242e1"@) == 4,
        label_rank("ap214e3"@) == 3,
        label_rank("ap203e2"@) == 2,
        label_rank("ap203e1"@) == 1,
        label_rank(label) > 0 <==> label == "ap242e3"@ || label == "ap242e2"@ || label
            == "ap242e1"@ || label == "ap214e3"@ || label == "ap203e2"@ || label == "ap203e1"@,
{
    reveal_strlit("ap242e3");
    reveal_strlit("ap242e2");
    reveal_strlit("ap242e1");
    reveal_strlit("ap214e3");
    reveal_strlit("ap203e2");
    reveal_strlit("ap203e1");
    assert("ap242e3"@[6] == '3' && "ap242e2"@[6] == '2' && "ap242e1"@[6] == '1');
    assert("ap242e3"@[2] == '2' && "ap242e3"@[3] == '4' && "ap242e2"@[3] == '4' && "ap242e1"@[3]
        == '4');
    assert("ap214e3"@[3] == '1');
    assert("ap203e2"@[3] == '0' && "ap203e2"@[6] == '2');
    assert("ap203e1"@[3] == '0' && "ap203e1"@[6] == '1');
}

} // verus!
