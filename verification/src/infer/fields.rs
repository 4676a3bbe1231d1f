//! The attributes of an entity in encoding order, inherited ones first, each
//! with its type as a short text.

use crate::express::{
    AttrModel, AttrSpec, AttrType, EntityModel, EntitySchema, Schema, SchemaModel, TypeModel,
};
use crate::graph::Graph;
use crate::infer::lineage::{collect_lineage, lineage, parent_graph};
use crate::infer::refgraph::{
    first_aliased, first_aliases, first_declarations, first_declared, list_schemas, schema_models,
};
use crate::names::{
    lemma_ordered, lemma_tabulate_ends, lemma_tabulate_next, ordered, push_item, tabulate, Table,
};
use crate::text::{join, lower, lowercase, same};
use vstd::prelude::*;
use vstd::string::*;

verus! {

broadcast use vstd::string::group_string_axioms;

// ---------------------------------------------------------------------
// Types as text
// ---------------------------------------------------------------------

/// What each alias stands for.
pub type Aliases = Map<Seq<char>, TypeModel>;

/// What the alias `name` comes to if at most `n` aliases are followed.
pub open spec fn alias_end(name: Seq<char>, types: Aliases, n: nat) -> Option<TypeModel>
    decreases n,
{
    if n == 0 || !types.contains_key(name) {
        None
    } else {
        match types[name] {
            TypeModel::Entity(next) => if types.contains_key(next) {
                alias_end(next, types, (n - 1) as nat)
            } else {
                Some(types[name])
            },
            _ => Some(types[name]),
        }
    }
}

/// Follows an alias of aliases to its end. Gives up after thirty-two steps, and
/// so on aliases that stand for each other.
pub fn resolve_alias<'a>(name: &'a str, types: &'a Table<AttrType>) -> (r: Option<&'a AttrType>)
    ensures
        alias_end(name@, types@, 32) == (match r {
            Some(t) => Some(t.view()),
            None => None,
        }),
{
    let mut current: &'a str = name;
    let mut i: usize = 0;
    while i < 32
        invariant
            i <= 32,
            alias_end(name@, types@, 32) == alias_end(current@, types@, (32 - i) as nat),
        decreases 32 - i,
    {
        match types.get(current) {
            None => {
                return None;
            },
            Some(aliased) => match aliased {
                AttrType::Entity(next) => {
                    if !types.contains_key(next.as_str()) {
                        return Some(aliased);
                    }
                    current = next.as_str();
                },
                _ => {
                    return Some(aliased);
                },
            },
        }
        i += 1;
    }
    None
}

/// The text of a type if at most `n` aliases are unfolded on the way.
pub open spec fn type_text(ty: TypeModel, types: Aliases, n: nat) -> Option<Seq<char>>
    decreases n, ty,
{
    match ty {
        TypeModel::Primitive(p) => Some(
            if lowercase(p) == "boolean"@ {
                "bool"@
            } else {
                lowercase(p)
            },
        ),
        TypeModel::Entity(name) => match alias_end(name, types, 32) {
            None => Some("ref_"@ + name),
            Some(end) => if n == 0 {
                None
            } else {
                type_text(end, types, (n - 1) as nat)
            },
        },
        TypeModel::List(x) => behind("list_"@, type_text(*x, types, n)),
        TypeModel::SetOf(x) => behind("set_"@, type_text(*x, types, n)),
        TypeModel::Bag(x) => behind("bag_"@, type_text(*x, types, n)),
        TypeModel::Array(x) => behind("array_"@, type_text(*x, types, n)),
        TypeModel::Optional(x) => behind("opt_"@, type_text(*x, types, n)),
        TypeModel::Enumeration(v) => Some("enum"@),
        TypeModel::Select(v) => Some("select"@),
    }
}

/// A text with a prefix, if there is one.
pub open spec fn behind(prefix: Seq<char>, text: Option<Seq<char>>) -> Option<Seq<char>> {
    match text {
        Some(t) => Some(prefix + t),
        None => None,
    }
}

/// Whether unfolding the aliases of a type comes to an end. It does not where
/// an alias stands for an aggregate of itself.
pub open spec fn unfolds(ty: TypeModel, types: Aliases) -> bool {
    exists|n: nat| type_text(ty, types, n) is Some
}

/// The text of a type.
pub open spec fn type_label(ty: TypeModel, types: Aliases) -> Seq<char> {
    type_text(ty, types, choose|n: nat| type_text(ty, types, n) is Some)->0
}

proof fn lemma_text_stays(ty: TypeModel, types: Aliases, n: nat)
    requires
        type_text(ty, types, n) is Some,
    ensures
        type_text(ty, types, n + 1) == type_text(ty, types, n),
    decreases n, ty,
{
    match ty {
        TypeModel::Entity(name) => {
            if alias_end(name, types, 32) is Some {
                lemma_text_stays(alias_end(name, types, 32)->0, types, (n - 1) as nat);
            }
        },
        TypeModel::List(x) => lemma_text_stays(*x, types, n),
        TypeModel::SetOf(x) => lemma_text_stays(*x, types, n),
        TypeModel::Bag(x) => lemma_text_stays(*x, types, n),
        TypeModel::Array(x) => lemma_text_stays(*x, types, n),
        TypeModel::Optional(x) => lemma_text_stays(*x, types, n),
        _ => {},
    }
}

proof fn lemma_text_stays_to(ty: TypeModel, types: Aliases, n: nat, m: nat)
    requires
        type_text(ty, types, n) is Some,
        n <= m,
    ensures
        type_text(ty, types, m) == type_text(ty, types, n),
    decreases m - n,
{
    if n < m {
        lemma_text_stays(ty, types, n);
        lemma_text_stays_to(ty, types, n + 1, m);
    }
}

/// The text of a type does not depend on how many aliases may be unfolded.
pub proof fn law_type_label_is_unique(ty: TypeModel, types: Aliases, n: nat)
    requires
        type_text(ty, types, n) is Some,
    ensures
        type_text(ty, types, n) == Some(type_label(ty, types)),
{
    let k = choose|k: nat| type_text(ty, types, k) is Some;
    if k <= n {
        lemma_text_stays_to(ty, types, k, n);
    } else {
        lemma_text_stays_to(ty, types, n, k);
    }
}

/// The aliases that come to an end within `n` unfoldings.
spec fn ending(types: Aliases, n: nat) -> Set<Seq<char>> {
    Set::new(
        |k: Seq<char>|
            types.contains_key(k) && type_text(TypeModel::Entity(k), types, n) is Some,
    )
}

proof fn lemma_end_declared(name: Seq<char>, types: Aliases, n: nat)
    requires
        alias_end(name, types, n) is Some,
    ensures
        types.contains_key(name),
{
}

proof fn lemma_still(ty: TypeModel, types: Aliases, n: nat)
    requires
        ending(types, n) == ending(types, n + 1),
    ensures
        type_text(ty, types, n) is Some <==> type_text(ty, types, n + 1) is Some,
    decreases ty,
{
    match ty {
        TypeModel::Entity(name) => {
            if alias_end(name, types, 32) is Some {
                lemma_end_declared(name, types, 32);
                assert(ending(types, n).contains(name) == (type_text(ty, types, n) is Some));
                assert(ending(types, n + 1).contains(name) == (type_text(ty, types, n + 1) is Some));
            }
        },
        TypeModel::List(x) => lemma_still(*x, types, n),
        TypeModel::SetOf(x) => lemma_still(*x, types, n),
        TypeModel::Bag(x) => lemma_still(*x, types, n),
        TypeModel::Array(x) => lemma_still(*x, types, n),
        TypeModel::Optional(x) => lemma_still(*x, types, n),
        _ => {},
    }
}

proof fn lemma_still_after(types: Aliases, n: nat)
    requires
        ending(types, n) == ending(types, n + 1),
    ensures
        ending(types, n + 1) == ending(types, n + 2),
{
    assert forall|k: Seq<char>| #[trigger]
        ending(types, n + 1).contains(k) <==> ending(types, n + 2).contains(k) by {
        if types.contains_key(k) && alias_end(k, types, 32) is Some {
            lemma_still(alias_end(k, types, 32)->0, types, n);
        }
    }
    assert(ending(types, n + 1) =~= ending(types, n + 2));
}

proof fn lemma_still_text(ty: TypeModel, types: Aliases, n: nat, m: nat)
    requires
        ending(types, n) == ending(types, n + 1),
        n <= m,
    ensures
        type_text(ty, types, n) is Some <==> type_text(ty, types, m) is Some,
    decreases m - n,
{
    if n < m {
        lemma_still(ty, types, n);
        lemma_still_after(types, n);
        lemma_still_text(ty, types, n + 1, m);
    }
}

/// Until nothing changes any more, each unfolding ends another alias.
proof fn lemma_ending_grows(types: Aliases, n: nat)
    requires
        types.dom().finite(),
        forall|k: nat| k < n ==> #[trigger] ending(types, k) != ending(types, k + 1),
    ensures
        ending(types, n).len() >= n,
        ending(types, n).finite(),
    decreases n,
{
    assert(ending(types, n).subset_of(types.dom()));
    vstd::set_lib::lemma_set_subset_finite(types.dom(), ending(types, n));
    if n > 0 {
        let k = (n - 1) as nat;
        lemma_ending_grows(types, k);
        assert forall|x: Seq<char>| ending(types, k).contains(x) implies ending(
            types,
            n,
        ).contains(x) by {
            lemma_text_stays(TypeModel::Entity(x), types, k);
        }
        assert(ending(types, k) != ending(types, k + 1));
        vstd::set_lib::lemma_len_subset(ending(types, k), ending(types, n));
        if ending(types, n).len() == ending(types, k).len() {
            vstd::set_lib::lemma_subset_equality(ending(types, k), ending(types, n));
        }
    }
}

/// If unfolding comes to an end, it takes no more unfoldings than there are
/// aliases.
proof fn lemma_unfolds_within(ty: TypeModel, types: Aliases, n: nat)
    requires
        types.dom().finite(),
        type_text(ty, types, n) is Some,
    ensures
        type_text(ty, types, types.dom().len()) is Some,
{
    let size = types.dom().len();
    if n <= size {
        lemma_text_stays_to(ty, types, n, size);
    } else {
        if forall|k: nat| k < size + 1 ==> #[trigger] ending(types, k) != ending(types, k + 1) {
            lemma_ending_grows(types, size + 1);
            assert(ending(types, size + 1).subset_of(types.dom()));
            vstd::set_lib::lemma_len_subset(ending(types, size + 1), types.dom());
        }
        let k = choose|k: nat|
            k < size + 1 && #[trigger] ending(types, k) == ending(types, k + 1);
        lemma_still_text(ty, types, k, n);
        lemma_text_stays_to(ty, types, k, size);
    }
}

fn put_behind(prefix: &str, text: Option<String>) -> (r: Option<String>)
    ensures
        r.deep_view() == behind(prefix@, text.deep_view()),
{
    match text {
        Some(t) => Some(join(prefix, t.as_str())),
        None => None,
    }
}

fn bounded_text(ty: &AttrType, types: &Table<AttrType>, n: usize) -> (r: Option<String>)
    ensures
        r.deep_view() == type_text(ty.view(), types@, n as nat),
    decreases n, ty,
{
    match ty {
        AttrType::Primitive(p) => {
            let s = lower(p.as_str());
            if same(s.as_str(), "boolean") {
                Some("bool".to_owned())
            } else {
                Some(s)
            }
        },
        AttrType::Entity(name) => match resolve_alias(name.as_str(), types) {
            None => Some(join("ref_", name.as_str())),
            Some(end) => if n == 0 {
                None
            } else {
                bounded_text(end, types, n - 1)
            },
        },
        AttrType::List(x) => put_behind("list_", bounded_text(x, types, n)),
        AttrType::SetOf(x) => put_behind("set_", bounded_text(x, types, n)),
        AttrType::Bag(x) => put_behind("bag_", bounded_text(x, types, n)),
        AttrType::Array(x) => put_behind("array_", bounded_text(x, types, n)),
        AttrType::Optional(x) => put_behind("opt_", bounded_text(x, types, n)),
        AttrType::Enumeration(_) => Some("enum".to_owned()),
        AttrType::Select(_) => Some("select".to_owned()),
    }
}

/// Tells whether unfolding the aliases of a type comes to an end.
pub fn has_label(ty: &AttrType, types: &Table<AttrType>) -> (r: bool)
    ensures
        r == unfolds(ty.view(), types@),
{
    let n = types.len();
    let r = bounded_text(ty, types, n).is_some();
    proof {
        if unfolds(ty.view(), types@) {
            let k = choose|k: nat| type_text(ty.view(), types@, k) is Some;
            lemma_unfolds_within(ty.view(), types@, k);
        }
    }
    r
}

/// The text of a type: primitives in lower case, aliases unfolded, entities as
/// references.
pub fn ty_string(ty: &AttrType, types: &Table<AttrType>) -> (r: String)
    requires
        unfolds(ty.view(), types@),
    ensures
        r@ == type_label(ty.view(), types@),
{
    let n = types.len();
    proof {
        let k = choose|k: nat| type_text(ty.view(), types@, k) is Some;
        lemma_unfolds_within(ty.view(), types@, k);
        law_type_label_is_unique(ty.view(), types@, n as nat);
    }
    bounded_text(ty, types, n).unwrap()
}

// ---------------------------------------------------------------------
// Slots
// ---------------------------------------------------------------------

/// One attribute slot.
#[derive(Debug, PartialEq, Eq)]
pub struct FieldRec {
    pub name: String,
    pub ty: String,
    /// The entity that first declares the attribute.
    pub from: String,
}

/// What a `FieldRec` stands for.
pub struct FieldModel {
    pub name: Seq<char>,
    pub ty: Seq<char>,
    pub from: Seq<char>,
}

impl DeepView for FieldRec {
    type V = FieldModel;

    open spec fn deep_view(&self) -> FieldModel {
        FieldModel { name: self.name@, ty: self.ty@, from: self.from@ }
    }
}

/// The first slot with the given name.
pub open spec fn slot_of(fields: Seq<FieldModel>, name: Seq<char>) -> Option<int>
    decreases fields.len(),
{
    if fields.len() == 0 {
        None
    } else if slot_of(fields.drop_last(), name) is Some {
        slot_of(fields.drop_last(), name)
    } else if fields.last().name == name {
        Some(fields.len() - 1)
    } else {
        None
    }
}

/// The slots after an inherited attribute is given a narrower type: its slot
/// keeps its name and where it is from. A name without a slot gets one.
pub open spec fn redeclared(
    fields: Seq<FieldModel>,
    name: Seq<char>,
    ty: Seq<char>,
    redeclarer: Seq<char>,
) -> Seq<FieldModel> {
    match slot_of(fields, name) {
        Some(i) => fields.update(i, FieldModel { ty, ..fields[i] }),
        None => fields.push(FieldModel { name, ty, from: redeclarer }),
    }
}

proof fn lemma_slot_of(fields: Seq<FieldModel>, name: Seq<char>)
    ensures
        slot_of(fields, name) matches Some(i) ==> 0 <= i < fields.len() && fields[i].name == name,
    decreases fields.len(),
{
    if fields.len() > 0 {
        lemma_slot_of(fields.drop_last(), name);
    }
}

proof fn lemma_slot_prefix(fields: Seq<FieldModel>, name: Seq<char>, n: int)
    requires
        0 <= n <= fields.len(),
        slot_of(fields.take(n), name) is Some,
    ensures
        slot_of(fields, name) == slot_of(fields.take(n), name),
    decreases fields.len(),
{
    if n < fields.len() {
        assert(fields.drop_last().take(n) =~= fields.take(n));
        lemma_slot_prefix(fields.drop_last(), name, n);
    } else {
        assert(fields.take(n) =~= fields);
    }
}

fn find_slot(fields: &Vec<FieldRec>, name: &str) -> (r: Option<usize>)
    ensures
        slot_of(fields.deep_view(), name@) == (match r {
            Some(i) => Some(i as int),
            None => None,
        }),
        r matches Some(i) ==> i < fields@.len(),
{
    let ghost all = fields.deep_view();
    let mut i: usize = 0;
    assert(all.take(0) =~= seq![]);
    while i < fields.len()
        invariant
            i <= fields@.len(),
            all == fields.deep_view(),
            slot_of(all.take(i as int), name@) is None,
        decreases fields@.len() - i,
    {
        proof {
            assert(all.take(i + 1).drop_last() =~= all.take(i as int));
            assert(all.take(i + 1).last() == fields@[i as int].deep_view());
        }
        if same(fields[i].name.as_str(), name) {
            proof {
                lemma_slot_prefix(all, name@, i + 1);
            }
            return Some(i);
        }
        i += 1;
    }
    assert(all.take(i as int) =~= all);
    None
}

/// Gives an inherited attribute a narrower type.
pub fn apply_redeclaration(out: &mut Vec<FieldRec>, name: &str, ty: String, redeclarer: &str)
    ensures
        final(out).deep_view() == redeclared(old(out).deep_view(), name@, ty@, redeclarer@),
{
    let ghost before = out.deep_view();
    match find_slot(out, name) {
        Some(i) => {
            let f = FieldRec { name: out[i].name.clone(), ty, from: out[i].from.clone() };
            assert(before[i as int] == out@[i as int].deep_view());
            out.set(i, f);
            assert(out.deep_view() =~= before.update(i as int, f.deep_view()));
        },
        None => {
            push_item(
                out,
                FieldRec { name: name.to_owned(), ty, from: redeclarer.to_owned() },
            );
        },
    }
}

/// The slots after own attributes are added.
pub open spec fn with_own(
    fields: Seq<FieldModel>,
    attrs: Seq<AttrModel>,
    from: Seq<char>,
    types: Aliases,
) -> Seq<FieldModel> {
    fields + Seq::new(
        attrs.len(),
        |i: int| FieldModel { name: attrs[i].name, ty: type_label(attrs[i].ty, types), from },
    )
}

/// The slots after redeclarations, in order.
pub open spec fn with_redeclared(
    fields: Seq<FieldModel>,
    attrs: Seq<AttrModel>,
    from: Seq<char>,
    types: Aliases,
) -> Seq<FieldModel>
    decreases attrs.len(),
{
    if attrs.len() == 0 {
        fields
    } else {
        redeclared(
            with_redeclared(fields, attrs.drop_last(), from, types),
            attrs.last().name,
            type_label(attrs.last().ty, types),
            from,
        )
    }
}

/// The slots after an entity has added its attributes.
pub open spec fn declared_by(
    fields: Seq<FieldModel>,
    e: EntityModel,
    from: Seq<char>,
    types: Aliases,
) -> Seq<FieldModel> {
    with_redeclared(with_own(fields, e.own_attrs, from, types), e.redeclared_attrs, from, types)
}

/// The slots that the entities `names` make, one after the other.
pub open spec fn fields_from(
    decls: Map<Seq<char>, EntityModel>,
    types: Aliases,
    names: Seq<Seq<char>>,
) -> Seq<FieldModel>
    decreases names.len(),
{
    if names.len() == 0 {
        seq![]
    } else {
        declared_by(
            fields_from(decls, types, names.drop_last()),
            decls[names.last()],
            names.last(),
            types,
        )
    }
}

/// All slots of an entity: those of its ancestors, then its own.
pub open spec fn fields_of(
    decls: Map<Seq<char>, EntityModel>,
    types: Aliases,
    name: Seq<char>,
) -> Seq<FieldModel> {
    fields_from(decls, types, lineage(parent_graph(decls), decls[name].parents).push(name))
}

/// Whether every listed attribute has a text.
pub open spec fn attrs_unfold(attrs: Seq<AttrModel>, types: Aliases) -> bool {
    forall|i: int| 0 <= i < attrs.len() ==> unfolds(#[trigger] attrs[i].ty, types)
}

/// Whether every attribute of an entity has a text.
pub open spec fn entity_unfolds(e: EntityModel, types: Aliases) -> bool {
    attrs_unfold(e.own_attrs, types) && attrs_unfold(e.redeclared_attrs, types)
}

/// Whether every attribute of every entity has a text.
pub open spec fn all_unfold(decls: Map<Seq<char>, EntityModel>, types: Aliases) -> bool {
    forall|k: Seq<char>| #[trigger] decls.contains_key(k) ==> entity_unfolds(decls[k], types)
}

fn attrs_have_labels(attrs: &Vec<AttrSpec>, types: &Table<AttrType>) -> (r: bool)
    ensures
        r == attrs_unfold(attrs.deep_view(), types@),
{
    let ghost all = attrs.deep_view();
    let mut i: usize = 0;
    while i < attrs.len()
        invariant
            i <= attrs@.len(),
            all == attrs.deep_view(),
            forall|j: int| 0 <= j < i ==> unfolds(#[trigger] all[j].ty, types@),
        decreases attrs@.len() - i,
    {
        assert(all[i as int] == attrs@[i as int].deep_view());
        if !has_label(&attrs[i].ty, types) {
            assert(!unfolds(all[i as int].ty, types@));
            return false;
        }
        i += 1;
    }
    true
}

/// Tells whether every attribute that the schemas declare first has a text.
pub fn types_unfold(schemas: &[Schema]) -> (r: bool)
    ensures
        r == all_unfold(
            first_declared(schema_models(schemas@)),
            first_aliased(schema_models(schemas@)),
        ),
{
    let all = list_schemas(schemas);
    let decls = first_declarations(&all);
    let types = first_aliases(&all);
    let n = decls.len();
    let ghost o = ordered(decls@.dom());
    let mut i: usize = 0;
    proof {
        lemma_ordered(decls@.dom());
    }
    while i < n
        invariant
            i <= n,
            n == o.len(),
            o == ordered(decls@.dom()),
            decls@ == first_declared(schema_models(schemas@)),
            types@ == first_aliased(schema_models(schemas@)),
            forall|x: Seq<char>| o.contains(x) <==> decls@.dom().contains(x),
            forall|j: int| 0 <= j < i ==> entity_unfolds(decls@[#[trigger] o[j]], types@),
        decreases n - i,
    {
        let e = decls.value_at(i);
        assert(e.view() == decls@[o[i as int]]);
        if !attrs_have_labels(&e.own_attrs, &types) || !attrs_have_labels(
            &e.redeclared_attrs,
            &types,
        ) {
            assert(o.contains(o[i as int]));
            assert(decls@.contains_key(o[i as int]));
            return false;
        }
        i += 1;
    }
    proof {
        assert forall|k: Seq<char>| #[trigger] decls@.contains_key(k) implies entity_unfolds(
            decls@[k],
            types@,
        ) by {
            assert(o.contains(k));
            let j = choose|j: int| 0 <= j < o.len() && o[j] == k;
            assert(entity_unfolds(decls@[o[j]], types@));
        }
    }
    true
}

fn add_entity(out: &mut Vec<FieldRec>, e: &EntitySchema, from: &str, types: &Table<AttrType>)
    requires
        entity_unfolds(e.view(), types@),
    ensures
        final(out).deep_view() == declared_by(old(out).deep_view(), e.view(), from@, types@),
{
    let ghost before = out.deep_view();
    let ghost own = e.own_attrs.deep_view();
    let mut i: usize = 0;
    assert(out.deep_view() =~= with_own(before, own.take(0), from@, types@));
    while i < e.own_attrs.len()
        invariant
            i <= e.own_attrs@.len(),
            own == e.own_attrs.deep_view(),
            attrs_unfold(own, types@),
            out.deep_view() == with_own(before, own.take(i as int), from@, types@),
        decreases e.own_attrs@.len() - i,
    {
        let a = &e.own_attrs[i];
        proof {
            assert(own[i as int] == a.deep_view());
            assert(unfolds(own[i as int].ty, types@));
        }
        push_item(
            out,
            FieldRec {
                name: a.name.clone(),
                ty: ty_string(&a.ty, types),
                from: from.to_owned(),
            },
        );
        assert(out.deep_view() =~= with_own(before, own.take(i + 1), from@, types@));
        i += 1;
    }
    assert(own.take(i as int) =~= own);
    let ghost mid = out.deep_view();
    let ghost red = e.redeclared_attrs.deep_view();
    let mut j: usize = 0;
    assert(red.take(0) =~= seq![]);
    while j < e.redeclared_attrs.len()
        invariant
            j <= e.redeclared_attrs@.len(),
            red == e.redeclared_attrs.deep_view(),
            attrs_unfold(red, types@),
            out.deep_view() == with_redeclared(mid, red.take(j as int), from@, types@),
        decreases e.redeclared_attrs@.len() - j,
    {
        let a = &e.redeclared_attrs[j];
        proof {
            assert(red[j as int] == a.deep_view());
            assert(unfolds(red[j as int].ty, types@));
            assert(red.take(j + 1).drop_last() =~= red.take(j as int));
        }
        apply_redeclaration(out, a.name.as_str(), ty_string(&a.ty, types), from);
        j += 1;
    }
    assert(red.take(j as int) =~= red);
}

/// Whether every attribute of every ancestor that the entity inherits from has a
/// text.
pub open spec fn ancestors_unfold(
    decls: Map<Seq<char>, EntityModel>,
    types: Aliases,
    parents: Seq<Seq<char>>,
) -> bool {
    forall|k: Seq<char>| #[trigger]
        decls.contains_key(k) && lineage(parent_graph(decls), parents).contains(k)
            ==> entity_unfolds(decls[k], types)
}

/// Adds the attributes of all declared ancestors of an entity.
pub fn collect_ancestor_attrs(
    entity: &EntitySchema,
    decls: &Table<EntitySchema>,
    types: &Table<AttrType>,
) -> (r: Vec<FieldRec>)
    requires
        ancestors_unfold(decls@, types@, entity.view().parents),
    ensures
        r.deep_view() == fields_from(
            decls@,
            types@,
            lineage(parent_graph(decls@), entity.view().parents),
        ),
{
    let size = decls.len();
    let names = collect_lineage(decls, &entity.parents);
    let ghost all = names.deep_view();
    let ghost g = parent_graph(decls@);
    let mut out: Vec<FieldRec> = Vec::new();
    let mut i: usize = 0;
    proof {
        assert(all.take(0) =~= seq![]);
        assert(out.deep_view() =~= seq![]);
        assert(g.dom() =~= decls@.dom());
        assert forall|k: int| 0 <= k < all.len() implies decls@.contains_key(#[trigger] all[k]) by {
            assert(all.contains(all[k]));
            crate::infer::lineage::law_lineage_is_complete(g, entity.view().parents, all[k]);
        }
    }
    while i < names.len()
        invariant
            i <= names@.len(),
            all == names.deep_view(),
            all == lineage(parent_graph(decls@), entity.view().parents),
            ancestors_unfold(decls@, types@, entity.view().parents),
            forall|k: int| 0 <= k < all.len() ==> decls@.contains_key(#[trigger] all[k]),
            out.deep_view() == fields_from(decls@, types@, all.take(i as int)),
        decreases names@.len() - i,
    {
        proof {
            assert(all.take(i + 1).drop_last() =~= all.take(i as int));
            assert(all[i as int] == names@[i as int]@);
            assert(decls@.contains_key(all[i as int]));
            assert(all.contains(all[i as int]));
        }
        match decls.get(names[i].as_str()) {
            Some(e) => {
                add_entity(&mut out, e, names[i].as_str(), types);
            },
            None => {},
        }
        i += 1;
    }
    assert(all.take(i as int) =~= all);
    out
}

/// The slots of every entity.
pub open spec fn attr_types(m: Seq<SchemaModel>) -> Map<Seq<char>, Seq<FieldModel>> {
    tabulate(
        ordered(first_declared(m).dom()),
        |k: Seq<char>| Some(fields_of(first_declared(m), first_aliased(m), k)),
    )
}

/// Collects the slots of every entity in encoding order: parents from left to
/// right, base ancestors first, then own attributes; redeclarations narrow an
/// inherited slot in place.
pub fn build_attr_types(schemas: &[Schema]) -> (r: Table<Vec<FieldRec>>)
    requires
        all_unfold(
            first_declared(schema_models(schemas@)),
            first_aliased(schema_models(schemas@)),
        ),
    ensures
        r@ == attr_types(schema_models(schemas@)),
{
    let all = list_schemas(schemas);
    let decls = first_declarations(&all);
    let types = first_aliases(&all);
    let n = decls.len();
    let ghost m = schema_models(schemas@);
    let ghost o = ordered(decls@.dom());
    let ghost g = |k: Seq<char>| Some(fields_of(first_declared(m), first_aliased(m), k));
    let mut out: Table<Vec<FieldRec>> = Table::new();
    let mut i: usize = 0;
    proof {
        lemma_tabulate_ends(o, g);
        lemma_ordered(decls@.dom());
    }
    while i < n
        invariant
            i <= n,
            n == o.len(),
            o == ordered(decls@.dom()),
            decls@ == first_declared(m),
            types@ == first_aliased(m),
            all_unfold(decls@, types@),
            forall|j: int| 0 <= j < o.len() ==> decls@.dom().contains(#[trigger] o[j]),
            g == (|k: Seq<char>| Some(fields_of(first_declared(m), first_aliased(m), k))),
            out@ == tabulate(o.take(i as int), g),
        decreases n - i,
    {
        proof {
            lemma_tabulate_next(o, i as int, g);
            assert(decls@.contains_key(o[i as int]));
        }
        let name = decls.key_at(i);
        let e = decls.value_at(i);
        let mut fields = collect_ancestor_attrs(e, &decls, &types);
        add_entity(&mut fields, e, name.as_str(), &types);
        proof {
            let l = lineage(parent_graph(decls@), e.view().parents);
            assert(l.push(name@).drop_last() =~= l);
        }
        out.insert(name.clone(), fields);
        i += 1;
    }
    proof {
        lemma_tabulate_ends(o, g);
    }
    out
}

// ---------------------------------------------------------------------
// Laws
// ---------------------------------------------------------------------

/// A redeclaration keeps the slots: none goes, none moves, and each keeps its
/// name and where it is from.
pub proof fn law_redeclaration_keeps_slots(
    fields: Seq<FieldModel>,
    attrs: Seq<AttrModel>,
    from: Seq<char>,
    types: Aliases,
)
    ensures
        with_redeclared(fields, attrs, from, types).len() >= fields.len(),
        forall|i: int|
            0 <= i < fields.len() ==> #[trigger] with_redeclared(fields, attrs, from, types)[i].name
                == fields[i].name && with_redeclared(fields, attrs, from, types)[i].from
                == fields[i].from,
    decreases attrs.len(),
{
    if attrs.len() > 0 {
        law_redeclaration_keeps_slots(fields, attrs.drop_last(), from, types);
        let before = with_redeclared(fields, attrs.drop_last(), from, types);
        lemma_slot_of(before, attrs.last().name);
    }
}

/// A redeclaration of an attribute that has a slot narrows that slot in place,
/// and adds none.
pub proof fn law_redeclaration_narrows_in_place(
    fields: Seq<FieldModel>,
    name: Seq<char>,
    ty: Seq<char>,
    from: Seq<char>,
    i: int,
)
    requires
        0 <= i < fields.len(),
        fields[i].name == name,
    ensures
        redeclared(fields, name, ty, from).len() == fields.len(),
        slot_of(fields, name) is Some,
        redeclared(fields, name, ty, from)[slot_of(fields, name)->0].ty == ty,
    decreases fields.len(),
{
    lemma_slot_of(fields, name);
    if i < fields.len() - 1 {
        assert(fields.drop_last()[i].name == name);
        law_redeclaration_narrows_in_place(fields.drop_last(), name, ty, from, i);
        lemma_slot_of(fields.drop_last(), name);
    } else {
        lemma_slot_of(fields.drop_last(), name);
    }
}

proof fn lemma_slots_stay(
    decls: Map<Seq<char>, EntityModel>,
    types: Aliases,
    names: Seq<Seq<char>>,
    k: int,
    i: int,
)
    requires
        0 <= k < names.len(),
        0 <= i < decls[names[k]].own_attrs.len(),
    ensures
        exists|j: int|
            0 <= j < fields_from(decls, types, names).len() && #[trigger] fields_from(
                decls,
                types,
                names,
            )[j].name == decls[names[k]].own_attrs[i].name && fields_from(
                decls,
                types,
                names,
            )[j].from == names[k],
    decreases names.len(),
{
    let e = decls[names.last()];
    let before = fields_from(decls, types, names.drop_last());
    let own = with_own(before, e.own_attrs, names.last(), types);
    let all = fields_from(decls, types, names);
    law_redeclaration_keeps_slots(own, e.redeclared_attrs, names.last(), types);
    if k < names.len() - 1 {
        lemma_slots_stay(decls, types, names.drop_last(), k, i);
        let j = choose|j: int|
            0 <= j < before.len() && #[trigger] before[j].name
                == decls[names[k]].own_attrs[i].name && before[j].from == names[k];
        assert(own[j] == before[j]);
        assert(all[j].name == own[j].name);
    } else {
        let j = before.len() + i;
        assert(own[j].name == e.own_attrs[i].name);
        assert(all[j].name == own[j].name);
    }
}

/// Every attribute that the entity or one of its declared ancestors declares
/// has a slot of its own name that tells who declares it; attributes of the same
/// name from different ancestors thus keep separate slots.
pub proof fn law_every_attribute_has_a_slot(
    decls: Map<Seq<char>, EntityModel>,
    types: Aliases,
    name: Seq<char>,
    declarer: Seq<char>,
    i: int,
)
    requires
        decls.dom().finite(),
        decls.contains_key(declarer),
        declarer == name || crate::graph::reachable(
            parent_graph(decls),
            decls[name].parents,
            declarer,
        ),
        0 <= i < decls[declarer].own_attrs.len(),
    ensures
        exists|j: int|
            0 <= j < fields_of(decls, types, name).len() && #[trigger] fields_of(
                decls,
                types,
                name,
            )[j].name == decls[declarer].own_attrs[i].name && fields_of(decls, types, name)[j].from
                == declarer,
{
    let g = parent_graph(decls);
    assert(g.dom() =~= decls.dom());
    let l = lineage(g, decls[name].parents);
    let names = l.push(name);
    crate::infer::lineage::law_lineage_is_complete(g, decls[name].parents, declarer);
    let at = if declarer == name {
        l.len() as int
    } else {
        choose|k: int| 0 <= k < l.len() && l[k] == declarer
    };
    assert(names[at] == declarer);
    lemma_slots_stay(decls, types, names, at, i);
    let all = fields_from(decls, types, names);
    let j = choose|j: int|
        0 <= j < all.len() && #[trigger] all[j].name == decls[declarer].own_attrs[i].name
            && all[j].from == declarer;
    assert(fields_of(decls, types, name)[j].name == decls[declarer].own_attrs[i].name);
}

// ---------------------------------------------------------------------
// Labels and slots
// ---------------------------------------------------------------------

/// The slot of a name is the first field that has it.
pub proof fn law_slot_is_the_first(fields: Seq<FieldModel>, name: Seq<char>)
    ensures
        slot_of(fields, name) matches Some(i) ==> 0 <= i < fields.len() && fields[i].name == name
            && forall|j: int| 0 <= j < i ==> (#[trigger] fields[j]).name != name,
        slot_of(fields, name) is None ==> forall|j: int|
            0 <= j < fields.len() ==> (#[trigger] fields[j]).name != name,
    decreases fields.len(),
{
    if fields.len() > 0 {
        let d = fields.drop_last();
        law_slot_is_the_first(d, name);
        assert forall|j: int| 0 <= j < d.len() implies #[trigger] fields[j] == d[j] by {}
        assert(fields[fields.len() - 1] == fields.last());
    }
}

/// Redeclaring an attribute changes the type of its first slot and nothing else; one
/// without a slot is added at the end, as coming from the entity that redeclares it.
pub proof fn law_redeclaration(
    fields: Seq<FieldModel>,
    name: Seq<char>,
    ty: Seq<char>,
    from: Seq<char>,
)
    ensures
        ({
            let r = redeclared(fields, name, ty, from);
            &&& (forall|i: int| 0 <= i < fields.len() ==> (#[trigger] fields[i]).name != name)
                ==> r == fields.push(FieldModel { name, ty, from })
            &&& forall|i: int|
                0 <= i < fields.len() && fields[i].name == name && (forall|j: int|
                    0 <= j < i ==> (#[trigger] fields[j]).name != name) ==> {
                    &&& r.len() == fields.len()
                    &&& (#[trigger] r[i]).ty == ty && r[i].name == name && r[i].from == fields[i].from
                    &&& forall|j: int| 0 <= j < fields.len() && j != i ==> #[trigger] r[j] == fields[j]
                }
        }),
{
    law_slot_is_the_first(fields, name);
}

proof fn lemma_label(ty: TypeModel, types: Aliases, n: nat)
    requires
        type_text(ty, types, n) is Some,
    ensures
        unfolds(ty, types),
        type_text(ty, types, n) == Some(type_label(ty, types)),
{
    law_type_label_is_unique(ty, types, n);
}

/// How the label of a type is made: a primitive is written in lower case, `BOOLEAN`
/// as `bool`; an aggregate or optional type puts its name before the label inside;
/// enumerations and selections have labels of their own.
pub proof fn law_type_labels(t: TypeModel, types: Aliases, v: Seq<Seq<char>>, p: Seq<char>)
    requires
        unfolds(t, types),
    ensures
        type_label(TypeModel::List(Box::new(t)), types) == "list_"@ + type_label(t, types),
        type_label(TypeModel::SetOf(Box::new(t)), types) == "set_"@ + type_label(t, types),
        type_label(TypeModel::Bag(Box::new(t)), types) == "bag_"@ + type_label(t, types),
        type_label(TypeModel::Array(Box::new(t)), types) == "array_"@ + type_label(t, types),
        type_label(TypeModel::Optional(Box::new(t)), types) == "opt_"@ + type_label(t, types),
        type_label(TypeModel::Enumeration(v), types) == "enum"@,
        type_label(TypeModel::Select(v), types) == "select"@,
        lowercase(p) == "boolean"@ ==> type_label(TypeModel::Primitive(p), types) == "bool"@,
        lowercase(p) != "boolean"@ ==> type_label(TypeModel::Primitive(p), types) == lowercase(p),
{
    let n = choose|n: nat| type_text(t, types, n) is Some;
    lemma_label(t, types, n);
    lemma_label(TypeModel::List(Box::new(t)), types, n);
    lemma_label(TypeModel::SetOf(Box::new(t)), types, n);
    lemma_label(TypeModel::Bag(Box::new(t)), types, n);
    lemma_label(TypeModel::Array(Box::new(t)), types, n);
    lemma_label(TypeModel::Optional(Box::new(t)), types, n);
    lemma_label(TypeModel::Enumeration(v), types, n);
    lemma_label(TypeModel::Select(v), types, n);
    lemma_label(TypeModel::Primitive(p), types, n);
}

/// A name that is no alias is a reference to that entity; an alias of anything but
/// another alias has the label of what it stands for.
pub proof fn law_labels_of_names(name: Seq<char>, types: Aliases)
    ensures
        !types.contains_key(name) ==> type_label(TypeModel::Entity(name), types) == "ref_"@ + name,
        types.contains_key(name) && unfolds(types[name], types) && (types[name] matches TypeModel::Entity(
            next,
        ) ==> !types.contains_key(next)) ==> type_label(TypeModel::Entity(name), types)
            == type_label(types[name], types),
{
    reveal_with_fuel(alias_end, 2);
    if !types.contains_key(name) {
        assert(alias_end(name, types, 32) is None);
        lemma_label(TypeModel::Entity(name), types, 0);
    } else if unfolds(types[name], types) {
        let n = choose|n: nat| type_text(types[name], types, n) is Some;
        lemma_label(types[name], types, n);
        match types[name] {
            TypeModel::Entity(next) => {
                if !types.contains_key(next) {
                    assert(alias_end(name, types, 32) == Some(types[name]));
                    lemma_label(TypeModel::Entity(name), types, n + 1);
                }
            },
            _ => {
                assert(alias_end(name, types, 32) == Some(types[name]));
                lemma_label(TypeModel::Entity(name), types, n + 1);
            },
        }
    }
}

/// An alias of an alias leads to where that one leads, as long as steps are left.
pub proof fn law_aliases_of_aliases(name: Seq<char>, next: Seq<char>, types: Aliases, n: nat)
    requires
        types.contains_key(name),
        types.contains_key(next),
        types[name] == TypeModel::Entity(next),
        n > 0,
    ensures
        alias_end(name, types, n) == alias_end(next, types, (n - 1) as nat),
        alias_end(name, types, 0) is None,
{
}

/// The fields of an entity are those of its lineage and then its own, in their
/// order, if it redeclares nothing.
pub proof fn law_own_fields_come_last(
    decls: Map<Seq<char>, EntityModel>,
    types: Aliases,
    name: Seq<char>,
)
    requires
        decls[name].redeclared_attrs.len() == 0,
    ensures
        ({
            let inherited = fields_from(
                decls,
                types,
                lineage(parent_graph(decls), decls[name].parents),
            );
            let all = fields_of(decls, types, name);
            &&& all.len() == inherited.len() + decls[name].own_attrs.len()
            &&& forall|i: int| 0 <= i < inherited.len() ==> #[trigger] all[i] == inherited[i]
            &&& forall|i: int|
                0 <= i < decls[name].own_attrs.len() ==> #[trigger] all[inherited.len() + i]
                    == (FieldModel {
                    name: decls[name].own_attrs[i].name,
                    ty: type_label(decls[name].own_attrs[i].ty, types),
                    from: name,
                })
        }),
{
    let q = lineage(parent_graph(decls), decls[name].parents);
    assert(q.push(name).drop_last() =~= q);
    assert(q.push(name).last() == name);
}

/// Each entity of a lineage adds fields behind those of the entities before it, whose
/// names and origins stay.
pub proof fn law_fields_grow_down_the_lineage(
    decls: Map<Seq<char>, EntityModel>,
    types: Aliases,
    names: Seq<Seq<char>>,
    x: Seq<char>,
)
    ensures
        ({
            let before = fields_from(decls, types, names);
            let after = fields_from(decls, types, names.push(x));
            let own = decls[x].own_attrs;
            &&& after.len() >= before.len() + own.len()
            &&& forall|i: int|
                0 <= i < before.len() ==> (#[trigger] after[i]).name == before[i].name
                    && after[i].from == before[i].from
            &&& forall|i: int|
                0 <= i < own.len() ==> (#[trigger] after[before.len() + i]).name == own[i].name
                    && after[before.len() + i].from == x
        }),
{
    assert(names.push(x).drop_last() =~= names);
    let before = fields_from(decls, types, names);
    let with = with_own(before, decls[x].own_attrs, x, types);
    law_redeclaration_keeps_slots(with, decls[x].redeclared_attrs, x, types);
    assert forall|i: int| 0 <= i < before.len() implies with[i] == before[i] by {}
}

/// There is a list of fields for every entity that some schema declares.
pub proof fn law_every_entity_has_fields(m: Seq<SchemaModel>, name: Seq<char>)
    requires
        first_declared(m).dom().finite(),
    ensures
        attr_types(m).contains_key(name) <==> first_declared(m).contains_key(name),
{
    lemma_ordered(first_declared(m).dom());
}

} // verus!
