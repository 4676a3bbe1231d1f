//! What the blueprint of an entity says, by its kind.

use crate::express::SchemaModel;
use crate::infer::fields::{attr_types, FieldModel};
use crate::infer::naming::{
    blueprint, blueprints, pascal, pascal_word, pascal_words, pool_fault, stale_field, stale_name,
    stale_warnings, Given, IrModel, NamesModel, Section,
};
use crate::infer::shape::{ConcreteSupertypeShape, Summaries, SummaryModel};
use crate::infer::variant::SpecModel;
use crate::names::{first_some, gathered, lemma_ordered, ordered};
use crate::text::{capital, index_of, lemma_index_of, split};
use vstd::prelude::*;
use vstd::string::*;

verus! {

broadcast use vstd::string::group_string_axioms;

// ---------------------------------------------------------------------
// Names by kind
// ---------------------------------------------------------------------

/// Which names an entity has, by its kind and shape.
pub proof fn law_names_by_kind(
    entity: Seq<char>,
    s: SummaryModel,
    pool: Seq<char>,
    names: NamesModel,
    slots: Map<Seq<char>, Seq<FieldModel>>,
)
    ensures
        ({
            let b = blueprint(entity, s, pool, names, slots);
            match s.variant {
                SpecModel::SingleStruct => {
                    &&& b.kind == "single_struct"@
                    &&& b.type_ is Some && b.id is Some
                    &&& b.variant is None && b.enum_ is None && b.kind_enum is None
                },
                SpecModel::InEnum { enum_name } => {
                    &&& b.kind == "in_enum"@
                    &&& b.type_ is Some && b.id is Some && b.variant is Some
                    &&& b.enum_ is None && b.kind_enum is None
                    &&& b.enum_of == Some(enum_name)
                },
                SpecModel::EnumBase { enum_name } => {
                    &&& b.kind == "enum_base"@
                    &&& b.id is Some && b.enum_ is Some
                    &&& b.type_ is None && b.variant is None && b.kind_enum is None
                    &&& b.fields.len() == 0
                },
                SpecModel::NestedField { into, as_field, added_attr_count } => {
                    &&& b.kind == "nested_field"@
                    &&& b.type_ is None && b.id is None && b.variant is None
                    &&& b.enum_ is None && b.kind_enum is None
                    &&& b.into == Some(into) && b.as_field == Some(as_field)
                },
                SpecModel::MergedInto { target, chain } => {
                    &&& b.kind == "merged_into"@
                    &&& b.type_ is None && b.id is None && b.variant is None
                    &&& b.enum_ is None && b.kind_enum is None
                    &&& b.target == Some(target) && b.chain == chain
                    &&& b.fields.len() == 0
                },
                SpecModel::ComplexSupertype { mixin_pattern, oneof_children, mixin } => {
                    &&& b.kind == "complex_supertype"@
                    &&& b.type_ is Some && b.id is Some && b.enum_ is Some
                    &&& b.variant is None && b.kind_enum is None
                },
                SpecModel::CompositeOneOf { simple_alternatives, composite_alternatives } => {
                    &&& b.kind == "composite_one_of"@
                    &&& b.type_ is Some && b.id is Some && b.enum_ is Some
                    &&& b.variant is None && b.kind_enum is None
                },
                SpecModel::ConcreteSupertype => {
                    &&& b.kind == "concrete_supertype"@
                    &&& b.type_ is Some && b.id is Some
                    &&& b.variant is Some <==> s.shape is Some
                    &&& b.enum_ is Some <==> s.shape == Some(ConcreteSupertypeShape::Carrier)
                    &&& b.kind_enum is Some <==> s.shape == Some(
                        ConcreteSupertypeShape::BaseParallel,
                    )
                },
            }
        }),
        !(s.variant is InEnum) ==> blueprint(entity, s, pool, names, slots).enum_of is None,
        !(s.variant is NestedField) ==> blueprint(entity, s, pool, names, slots).into is None
            && blueprint(entity, s, pool, names, slots).as_field is None,
        !(s.variant is MergedInto) ==> blueprint(entity, s, pool, names, slots).target is None
            && blueprint(entity, s, pool, names, slots).chain.len() == 0,
        !(s.variant is EnumBase || s.variant is MergedInto) && slots.contains_key(entity)
            ==> blueprint(entity, s, pool, names, slots).fields.len() == slots[entity].len(),
        !slots.contains_key(entity) ==> blueprint(entity, s, pool, names, slots).fields.len() == 0,
{
}

/// The names of an entity for which none are given.
pub proof fn law_names_by_default(
    entity: Seq<char>,
    s: SummaryModel,
    pool: Seq<char>,
    names: NamesModel,
    slots: Map<Seq<char>, Seq<FieldModel>>,
)
    requires
        !names.type_.contains_key(entity),
        !names.id.contains_key(s.arena),
        !names.variant.contains_key(entity),
        !names.enum_.contains_key(entity),
        !names.kind_enum.contains_key(entity),
    ensures
        ({
            let b = blueprint(entity, s, pool, names, slots);
            let carrier = s.variant is ConcreteSupertype && s.shape == Some(
                ConcreteSupertypeShape::Carrier,
            );
            let parallel = s.variant is ConcreteSupertype && s.shape == Some(
                ConcreteSupertypeShape::BaseParallel,
            );
            &&& b.type_ is Some && carrier ==> b.type_ == Some(pascal(entity) + "Data"@)
            &&& b.type_ is Some && !carrier ==> b.type_ == Some(pascal(entity))
            &&& b.id is Some ==> b.id == Some(pascal(s.arena) + "Id"@)
            &&& b.variant is Some && carrier ==> b.variant == Some("Itself"@)
            &&& b.variant is Some && parallel ==> b.variant == Some("Plain"@)
            &&& b.variant is Some && !carrier && !parallel ==> b.variant == Some(pascal(entity))
            &&& b.enum_ is Some ==> b.enum_ == Some(pascal(entity))
            &&& b.kind_enum is Some ==> b.kind_enum == Some(pascal(entity) + "Kind"@)
        }),
{
}

/// What a blueprint takes over from the summary.
pub proof fn law_blueprint_takes_over(
    entity: Seq<char>,
    s: SummaryModel,
    pool: Seq<char>,
    names: NamesModel,
    slots: Map<Seq<char>, Seq<FieldModel>>,
)
    ensures
        ({
            let b = blueprint(entity, s, pool, names, slots);
            &&& b.arena == s.arena
            &&& b.pool == pool
            &&& b.instance_count == s.instance_count
            &&& b.complex_part_count == s.complex_part_count
            &&& b.co_instantiated_with == s.co_instantiated_with
            &&& b.split_from == s.split_from
            &&& b.split_context == s.split_context
            &&& b.merge_absorbs == s.merge_absorbs
            &&& b.fields_union == s.fields_union
            &&& b.reasons == s.reasons
            &&& s.shape is None ==> b.shape is None
            &&& s.shape == Some(ConcreteSupertypeShape::Carrier) ==> b.shape == Some("carrier"@)
            &&& s.shape == Some(ConcreteSupertypeShape::BaseParallel) ==> b.shape == Some(
                "base_parallel"@,
            )
        }),
{
}

proof fn lemma_first_fault(
    keys: Seq<Seq<char>>,
    f: spec_fn(Seq<char>) -> Option<Seq<char>>,
    k: int,
)
    requires
        0 <= k <= keys.len(),
        forall|i: int| 0 <= i < k ==> f(#[trigger] keys[i]) is None,
        k < keys.len() ==> f(keys[k]) is Some,
    ensures
        k == keys.len() ==> first_some(keys, f) is None,
        k < keys.len() ==> first_some(keys, f) == f(keys[k]),
    decreases keys.len(),
{
    if keys.len() > 0 {
        let d = keys.drop_last();
        let n = if k < d.len() {
            k
        } else {
            d.len() as int
        };
        assert forall|i: int| 0 <= i < n implies f(#[trigger] d[i]) is None by {
            assert(d[i] == keys[i]);
        }
        if k < d.len() {
            assert(d[k] == keys[k]);
        }
        lemma_first_fault(d, f, n);
        if k == keys.len() {
            assert(f(keys[keys.len() - 1]) is None);
        }
    }
}

/// Blueprints are made if every arena that is used has a pool, each entity's from
/// its own summary, with the pool of its arena and the fields of the schemas; or else
/// the arena of the first entity without one is complained about.
pub proof fn law_blueprints(
    m: Summaries,
    pools: Given,
    names: NamesModel,
    schemas: Seq<SchemaModel>,
    e: Seq<char>,
)
    requires
        m.dom().finite(),
        m.contains_key(e),
    ensures
        (forall|x: Seq<char>| #[trigger] m.contains_key(x) ==> pools.contains_key(m[x].arena)) ==> {
            &&& blueprints(m, pools, names, schemas) is Ok
            &&& blueprints(m, pools, names, schemas)->Ok_0.contains_key(e)
            &&& blueprints(m, pools, names, schemas)->Ok_0[e] == blueprint(
                e,
                m[e],
                pools[m[e].arena],
                names,
                attr_types(schemas),
            )
        },
        !pools.contains_key(m[e].arena) && (forall|x: Seq<char>| #[trigger]
            m.contains_key(x) && crate::text::precedes(x, e) ==> pools.contains_key(m[x].arena))
            ==> blueprints(m, pools, names, schemas) == Err::<Map<Seq<char>, IrModel>, Seq<char>>(
            "arena "@ + m[e].arena + " missing in pools.toml"@,
        ),
{
    let keys = ordered(m.dom());
    lemma_ordered(m.dom());
    let f = pool_fault(m, pools);
    if forall|x: Seq<char>| #[trigger] m.contains_key(x) ==> pools.contains_key(m[x].arena) {
        assert forall|i: int| 0 <= i < keys.len() implies f(#[trigger] keys[i]) is None by {
            assert(m.contains_key(keys[i]));
        }
        lemma_first_fault(keys, f, keys.len() as int);
        assert(keys.contains(e));
    }
    if !pools.contains_key(m[e].arena) && (forall|x: Seq<char>| #[trigger]
        m.contains_key(x) && crate::text::precedes(x, e) ==> pools.contains_key(m[x].arena)) {
        assert(keys.contains(e));
        let k = choose|k: int| 0 <= k < keys.len() && keys[k] == e;
        assert forall|i: int| 0 <= i < k implies f(#[trigger] keys[i]) is None by {
            assert(m.contains_key(keys[i]));
            assert(crate::text::precedes(keys[i], keys[k]));
        }
        lemma_first_fault(keys, f, k);
    }
}

// ---------------------------------------------------------------------
// Words
// ---------------------------------------------------------------------

proof fn lemma_words_concat(a: Seq<Seq<char>>, b: Seq<Seq<char>>)
    ensures
        pascal_words(a + b) == pascal_words(a) + pascal_words(b),
    decreases b.len(),
{
    if b.len() == 0 {
        assert(a + b =~= a);
        assert(pascal_words(a) + pascal_words(b) =~= pascal_words(a));
    } else {
        lemma_words_concat(a, b.drop_last());
        assert((a + b).drop_last() =~= a + b.drop_last());
        assert((a + b).last() == b.last());
        assert(pascal_words(a) + (pascal_words(b.drop_last()) + pascal_word(b.last()))
            =~= pascal_words(a) + pascal_words(b.drop_last()) + pascal_word(b.last()));
    }
}

/// A word is written with a capital, but for two that have a spelling of their own;
/// words joined by underscores are written one after the other.
pub proof fn law_words_are_capitalised(w: Seq<char>, rest: Seq<char>)
    requires
        forall|i: int| 0 <= i < w.len() ==> #[trigger] w[i] != '_',
    ensures
        pascal(w + seq!['_'] + rest) == pascal(w) + pascal(rest),
        w == "pcurve"@ ==> pascal(w) == "PCurve"@,
        w == "rgb"@ ==> pascal(w) == "RGB"@,
        w.len() > 0 && w != "pcurve"@ && w != "rgb"@ ==> pascal(w) == capital(w[0]) + w.skip(1),
        w.len() == 0 ==> pascal(w).len() == 0,
{
    reveal_strlit("pcurve");
    reveal_strlit("rgb");
    let s = w + seq!['_'] + rest;
    lemma_index_of(w, '_');
    lemma_index_of(s, '_');
    let n = w.len() as int;
    assert(s[n] == '_');
    assert forall|j: int| 0 <= j < n implies s[j] != '_' by {
        assert(s[j] == w[j]);
    }
    assert(index_of(s, '_') == Some(n));
    assert(s.take(n) =~= w);
    assert(s.skip(n + 1) =~= rest);
    assert(split(w, '_') == seq![w]);
    lemma_words_concat(seq![w], split(rest, '_'));
    reveal_with_fuel(pascal_words, 2);
    assert(seq![w].drop_last() =~= seq![]);
    assert(seq![w].last() == w);
    assert(pascal_words(seq![w]) =~= pascal_word(w));
}

// ---------------------------------------------------------------------
// Given names that nothing uses
// ---------------------------------------------------------------------

proof fn lemma_gathered<A>(keys: Seq<Seq<char>>, f: spec_fn(Seq<char>) -> Option<A>, x: A)
    ensures
        gathered(keys, f).contains(x) <==> exists|i: int|
            0 <= i < keys.len() && f(#[trigger] keys[i]) == Some(x),
    decreases keys.len(),
{
    if keys.len() > 0 {
        let d = keys.drop_last();
        lemma_gathered(d, f, x);
        let q = gathered(d, f);
        let all = gathered(keys, f);
        assert(keys[keys.len() - 1] == keys.last());
        if exists|i: int| 0 <= i < d.len() && f(#[trigger] d[i]) == Some(x) {
            let i = choose|i: int| 0 <= i < d.len() && f(#[trigger] d[i]) == Some(x);
            assert(f(keys[i]) == Some(x));
            let k = choose|k: int| 0 <= k < q.len() && q[k] == x;
            assert(all[k] == x);
        }
        if f(keys.last()) == Some(x) {
            assert(all[q.len() as int] == x);
        }
        if all.contains(x) {
            let k = choose|k: int| 0 <= k < all.len() && all[k] == x;
            if k < q.len() {
                assert(q[k] == x);
            }
        }
        if exists|i: int| 0 <= i < keys.len() && f(#[trigger] keys[i]) == Some(x) {
            let i = choose|i: int| 0 <= i < keys.len() && f(#[trigger] keys[i]) == Some(x);
            if i < d.len() {
                assert(f(d[i]) == Some(x));
            }
        }
    }
}

/// Names that are given for an entity that is not there are warned about.
pub proof fn law_names_of_no_entity_are_warned_about(
    names: NamesModel,
    m: Summaries,
    e: Seq<char>,
)
    requires
        names.type_.dom().finite(),
        names.id.dom().finite(),
        names.variant.dom().finite(),
        names.enum_.dom().finite(),
        names.kind_enum.dom().finite(),
        !m.contains_key(e),
    ensures
        names.type_.contains_key(e) ==> stale_warnings(names, m).contains(
            "names.toml ["@ + "type"@ + "."@ + e + "] — entity "@ + "not in abstract_entities.toml"@,
        ),
        names.id.contains_key(e) ==> stale_warnings(names, m).contains(
            "names.toml ["@ + "id"@ + "."@ + e + "] — entity "@ + "not in abstract_entities.toml"@,
        ),
        names.variant.contains_key(e) ==> stale_warnings(names, m).contains(
            "names.toml ["@ + "variant"@ + "."@ + e + "] — entity "@
                + "not in abstract_entities.toml"@,
        ),
        names.enum_.contains_key(e) ==> stale_warnings(names, m).contains(
            "names.toml ["@ + "enum"@ + "."@ + e + "] — entity "@ + "not in abstract_entities.toml"@,
        ),
        names.kind_enum.contains_key(e) ==> stale_warnings(names, m).contains(
            "names.toml ["@ + "kind_enum"@ + "."@ + e + "] — entity "@
                + "not in abstract_entities.toml"@,
        ),
{
    let w = stale_warnings(names, m);
    let q1 = gathered(ordered(names.type_.dom()), stale_name(m, Section::Type));
    let q2 = gathered(ordered(names.id.dom()), stale_name(m, Section::Id));
    let q3 = gathered(ordered(names.variant.dom()), stale_name(m, Section::Variant));
    let q4 = gathered(ordered(names.enum_.dom()), stale_name(m, Section::Enum));
    let q5 = gathered(ordered(names.kind_enum.dom()), stale_name(m, Section::KindEnum));
    let q6 = gathered(ordered(names.field.dom()), stale_field(m));
    assert(w == q1 + q2 + q3 + q4 + q5 + q6);
    if names.type_.contains_key(e) {
        let x = lemma_warned(names.type_, m, Section::Type, e);
        let k = choose|k: int| 0 <= k < q1.len() && q1[k] == x;
        assert(w[k] == x);
    }
    if names.id.contains_key(e) {
        let x = lemma_warned(names.id, m, Section::Id, e);
        let k = choose|k: int| 0 <= k < q2.len() && q2[k] == x;
        assert(w[q1.len() + k] == x);
    }
    if names.variant.contains_key(e) {
        let x = lemma_warned(names.variant, m, Section::Variant, e);
        let k = choose|k: int| 0 <= k < q3.len() && q3[k] == x;
        assert(w[q1.len() + q2.len() + k] == x);
    }
    if names.enum_.contains_key(e) {
        let x = lemma_warned(names.enum_, m, Section::Enum, e);
        let k = choose|k: int| 0 <= k < q4.len() && q4[k] == x;
        assert(w[q1.len() + q2.len() + q3.len() + k] == x);
    }
    if names.kind_enum.contains_key(e) {
        let x = lemma_warned(names.kind_enum, m, Section::KindEnum, e);
        let k = choose|k: int| 0 <= k < q5.len() && q5[k] == x;
        assert(w[q1.len() + q2.len() + q3.len() + q4.len() + k] == x);
    }
}

proof fn lemma_warned(given: Given, m: Summaries, k: Section, e: Seq<char>) -> (x: Seq<char>)
    requires
        given.dom().finite(),
        given.contains_key(e),
        !m.contains_key(e),
    ensures
        x == "names.toml ["@ + crate::infer::naming::section_name(k) + "."@ + e + "] — entity "@
            + "not in abstract_entities.toml"@,
        gathered(ordered(given.dom()), stale_name(m, k)).contains(x),
{
    let keys = ordered(given.dom());
    lemma_ordered(given.dom());
    assert(keys.contains(e));
    let i = choose|i: int| 0 <= i < keys.len() && keys[i] == e;
    let x = stale_name(m, k)(e)->0;
    lemma_gathered(keys, stale_name(m, k), x);
    assert(stale_name(m, k)(keys[i]) == Some(x));
    x
}

/// Names that every entity uses give no warning.
pub proof fn law_used_names_are_not_warned_about(names: NamesModel, m: Summaries)
    requires
        names.type_.dom().finite(),
        names.id.dom().finite(),
        names.variant.dom().finite(),
        names.enum_.dom().finite(),
        names.kind_enum.dom().finite(),
        forall|e: Seq<char>| #[trigger]
            names.type_.contains_key(e) ==> m.contains_key(e) && m[e].variant is SingleStruct,
        forall|e: Seq<char>| #[trigger]
            names.id.contains_key(e) ==> m.contains_key(e) && m[e].variant is SingleStruct,
        forall|e: Seq<char>| #[trigger]
            names.variant.contains_key(e) ==> m.contains_key(e) && m[e].variant is InEnum,
        forall|e: Seq<char>| #[trigger]
            names.enum_.contains_key(e) ==> m.contains_key(e) && m[e].variant is EnumBase,
        names.kind_enum.dom() == Set::<Seq<char>>::empty(),
        names.field.dom() == Set::<Seq<char>>::empty(),
    ensures
        stale_warnings(names, m).len() == 0,
{
    lemma_none_gathered(names.type_, stale_name(m, Section::Type));
    lemma_none_gathered(names.id, stale_name(m, Section::Id));
    lemma_none_gathered(names.variant, stale_name(m, Section::Variant));
    lemma_none_gathered(names.enum_, stale_name(m, Section::Enum));
    lemma_none_gathered(names.kind_enum, stale_name(m, Section::KindEnum));
    lemma_none_gathered(names.field, stale_field(m));
}

proof fn lemma_none_gathered(given: Given, f: spec_fn(Seq<char>) -> Option<Seq<char>>)
    requires
        given.dom().finite(),
        forall|e: Seq<char>| #[trigger] given.contains_key(e) ==> f(e) is None,
    ensures
        gathered(ordered(given.dom()), f).len() == 0,
{
    let keys = ordered(given.dom());
    lemma_ordered(given.dom());
    let q = gathered(keys, f);
    if q.len() > 0 {
        lemma_gathered(keys, f, q[0]);
        assert(q.contains(q[0]));
        let i = choose|i: int| 0 <= i < keys.len() && f(#[trigger] keys[i]) == Some(q[0]);
        assert(given.contains_key(keys[i]));
    }
}

} // verus!
