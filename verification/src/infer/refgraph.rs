//! The union of the parsed schemas.
//!
//! Entities are united by name: parents and attributes are merged. Where
//! schemas disagree on the type of an attribute, the first one counts and the
//! disagreement is recorded.

use crate::express::reader::{quote_list, quoted_list};
use crate::express::{
    AttrModel, AttrType, EntityModel, EntitySchema, Schema, SchemaModel, SuperModel, SupertypeExpr,
    TypeDef, TypeDefModel, TypeModel,
};
use crate::graph::{closure, closure_of, Graph};
use crate::infer::hierarchy::plain_parents;
use crate::names::{
    append_items, lemma_ordered, lemma_tabulate_ends, lemma_tabulate_next, listed, ordered,
    push_item, tabulate, Duplicate, NameSet, Table,
};
use crate::text::{join3, quote, quoted, same};
use vstd::prelude::*;
use vstd::string::*;

verus! {

broadcast use vstd::string::group_string_axioms;

/// What a reference leads to.
#[derive(Debug)]
pub enum RefTarget {
    /// An entity of some schema.
    Entity(String),
    /// A name that no schema declares.
    Undeclared(String),
}

/// What a `RefTarget` stands for.
pub enum TargetModel {
    Entity(Seq<char>),
    Undeclared(Seq<char>),
}

/// A reference from an attribute.
#[derive(Debug)]
pub struct RefEdge {
    pub entity: String,
    pub attr: String,
    pub target: RefTarget,
}

/// What a `RefEdge` stands for.
pub struct EdgeModel {
    pub entity: Seq<char>,
    pub attr: Seq<char>,
    pub target: TargetModel,
}

impl RefTarget {
    pub open spec fn view(&self) -> TargetModel {
        match self {
            RefTarget::Entity(n) => TargetModel::Entity(n@),
            RefTarget::Undeclared(n) => TargetModel::Undeclared(n@),
        }
    }
}

impl RefEdge {
    pub open spec fn view(&self) -> EdgeModel {
        EdgeModel { entity: self.entity@, attr: self.attr@, target: self.target.view() }
    }
}

impl DeepView for RefEdge {
    type V = EdgeModel;

    open spec fn deep_view(&self) -> EdgeModel {
        self.view()
    }
}

/// The united schemas.
pub struct UnifiedSchema {
    /// Entity to its merged parents, in the order of first declaration.
    pub entity_parents: Table<Vec<String>>,
    /// Entity to those of its attributes whose types differ between schemas,
    /// each with the types that differ.
    pub attr_conflicts: Table<Table<Vec<String>>>,
    /// Entities that are abstract in at least one schema.
    pub abstract_entities: NameSet,
    /// Entity to its first `SUPERTYPE OF` expression.
    pub supertype_exprs: Table<SupertypeExpr>,
    /// Entity to the names of its attributes.
    pub entity_attrs: Table<NameSet>,
    /// Entity to its attributes with the first type of each.
    pub entity_attr_types: Table<Table<AttrType>>,
    /// The references of the attributes, type aliases resolved.
    pub edges: Vec<RefEdge>,
}

/// What a `UnifiedSchema` stands for.
pub struct UnifiedModel {
    pub entity_parents: Graph,
    pub attr_conflicts: Map<Seq<char>, Map<Seq<char>, Seq<Seq<char>>>>,
    pub abstract_entities: Set<Seq<char>>,
    pub supertype_exprs: Map<Seq<char>, SuperModel>,
    pub entity_attrs: Map<Seq<char>, Set<Seq<char>>>,
    pub entity_attr_types: Map<Seq<char>, Map<Seq<char>, TypeModel>>,
    pub edges: Seq<EdgeModel>,
}

impl UnifiedSchema {
    pub open spec fn view(&self) -> UnifiedModel {
        UnifiedModel {
            entity_parents: self.entity_parents@,
            attr_conflicts: self.attr_conflicts@,
            abstract_entities: self.abstract_entities@,
            supertype_exprs: self.supertype_exprs@,
            entity_attrs: self.entity_attrs@,
            entity_attr_types: self.entity_attr_types@,
            edges: self.edges.deep_view(),
        }
    }
}

// ---------------------------------------------------------------------
// Types
// ---------------------------------------------------------------------

/// How a type is written in messages.
pub open spec fn describe(t: TypeModel) -> Seq<char>
    decreases t,
{
    match t {
        TypeModel::Entity(n) => "Entity("@ + quoted(n) + ")"@,
        TypeModel::List(x) => "List("@ + describe(*x) + ")"@,
        TypeModel::SetOf(x) => "Set("@ + describe(*x) + ")"@,
        TypeModel::Bag(x) => "Bag("@ + describe(*x) + ")"@,
        TypeModel::Array(x) => "Array("@ + describe(*x) + ")"@,
        TypeModel::Optional(x) => "Optional("@ + describe(*x) + ")"@,
        TypeModel::Select(v) => "Select("@ + quoted_list(v) + ")"@,
        TypeModel::Enumeration(v) => "Enumeration("@ + quoted_list(v) + ")"@,
        TypeModel::Primitive(n) => "Primitive("@ + quoted(n) + ")"@,
    }
}

/// Writes a type for a message.
pub fn describe_type(t: &AttrType) -> (r: String)
    ensures
        r@ == describe(t.view()),
    decreases t,
{
    match t {
        AttrType::Entity(n) => join3("Entity(", quote(n.as_str()).as_str(), ")"),
        AttrType::List(x) => join3("List(", describe_type(x).as_str(), ")"),
        AttrType::SetOf(x) => join3("Set(", describe_type(x).as_str(), ")"),
        AttrType::Bag(x) => join3("Bag(", describe_type(x).as_str(), ")"),
        AttrType::Array(x) => join3("Array(", describe_type(x).as_str(), ")"),
        AttrType::Optional(x) => join3("Optional(", describe_type(x).as_str(), ")"),
        AttrType::Select(v) => join3("Select(", quote_list(v).as_str(), ")"),
        AttrType::Enumeration(v) => join3("Enumeration(", quote_list(v).as_str(), ")"),
        AttrType::Primitive(n) => join3("Primitive(", quote(n.as_str()).as_str(), ")"),
    }
}

fn same_list(a: &Vec<String>, b: &Vec<String>) -> (r: bool)
    ensures
        r == (a.deep_view() == b.deep_view()),
{
    if a.len() != b.len() {
        assert(a.deep_view().len() != b.deep_view().len());
        return false;
    }
    let mut i: usize = 0;
    while i < a.len()
        invariant
            i <= a@.len(),
            a@.len() == b@.len(),
            forall|j: int| 0 <= j < i ==> #[trigger] a@[j]@ == b@[j]@,
        decreases a@.len() - i,
    {
        if !same(a[i].as_str(), b[i].as_str()) {
            assert(a.deep_view()[i as int] != b.deep_view()[i as int]);
            return false;
        }
        i += 1;
    }
    assert(a.deep_view() =~= b.deep_view());
    true
}

/// Whether two types are the same.
pub fn shape_eq(a: &AttrType, b: &AttrType) -> (r: bool)
    ensures
        r == (a.view() == b.view()),
    decreases a,
{
    match (a, b) {
        (AttrType::Entity(x), AttrType::Entity(y)) => same(x.as_str(), y.as_str()),
        (AttrType::Primitive(x), AttrType::Primitive(y)) => same(x.as_str(), y.as_str()),
        (AttrType::Optional(x), AttrType::Optional(y)) => shape_eq(x, y),
        (AttrType::List(x), AttrType::List(y)) => shape_eq(x, y),
        (AttrType::SetOf(x), AttrType::SetOf(y)) => shape_eq(x, y),
        (AttrType::Bag(x), AttrType::Bag(y)) => shape_eq(x, y),
        (AttrType::Array(x), AttrType::Array(y)) => shape_eq(x, y),
        (AttrType::Select(x), AttrType::Select(y)) => same_list(x, y),
        (AttrType::Enumeration(x), AttrType::Enumeration(y)) => same_list(x, y),
        _ => false,
    }
}

/// The names that a type mentions.
pub open spec fn mentioned(t: TypeModel) -> Seq<Seq<char>>
    decreases t,
{
    match t {
        TypeModel::Entity(n) => seq![n],
        TypeModel::List(x) => mentioned(*x),
        TypeModel::SetOf(x) => mentioned(*x),
        TypeModel::Bag(x) => mentioned(*x),
        TypeModel::Array(x) => mentioned(*x),
        TypeModel::Optional(x) => mentioned(*x),
        TypeModel::Select(v) => v,
        TypeModel::Enumeration(v) => seq![],
        TypeModel::Primitive(n) => seq![],
    }
}

/// Collects the names that a type mentions.
pub fn mentioned_names(t: &AttrType) -> (r: Vec<String>)
    ensures
        r.deep_view() == mentioned(t.view()),
    decreases t,
{
    match t {
        AttrType::Entity(n) => {
            let mut r: Vec<String> = Vec::new();
            r.push(n.clone());
            assert(r.deep_view() =~= seq![n@]);
            r
        },
        AttrType::List(x) => mentioned_names(x),
        AttrType::SetOf(x) => mentioned_names(x),
        AttrType::Bag(x) => mentioned_names(x),
        AttrType::Array(x) => mentioned_names(x),
        AttrType::Optional(x) => mentioned_names(x),
        AttrType::Select(v) => v.duplicate(),
        _ => {
            let r: Vec<String> = Vec::new();
            assert(r.deep_view() =~= seq![]);
            r
        },
    }
}

// ---------------------------------------------------------------------
// The union
// ---------------------------------------------------------------------

pub open spec fn schema_models(schemas: Seq<Schema>) -> Seq<SchemaModel> {
    Seq::new(schemas.len(), |i: int| schemas[i].view())
}

/// What a list of schemas stands for.
pub open spec fn listed_models(schemas: Seq<&Schema>) -> Seq<SchemaModel> {
    Seq::new(schemas.len(), |i: int| schemas[i].view())
}

/// The schemas as a list.
pub fn list_schemas<'a>(schemas: &'a [Schema]) -> (r: Vec<&'a Schema>)
    ensures
        listed_models(r@) == schema_models(schemas@),
{
    let mut r: Vec<&'a Schema> = Vec::new();
    let mut i: usize = 0;
    while i < schemas.len()
        invariant
            i <= schemas@.len(),
            r@.len() == i,
            forall|j: int| 0 <= j < i ==> #[trigger] r@[j].view() == schemas@[j].view(),
        decreases schemas@.len() - i,
    {
        r.push(&schemas[i]);
        i += 1;
    }
    assert(listed_models(r@) =~= schema_models(schemas@));
    r
}

/// The entities that some schema declares.
pub open spec fn declared(m: Seq<SchemaModel>) -> Set<Seq<char>>
    decreases m.len(),
{
    if m.len() == 0 {
        Set::empty()
    } else {
        declared(m.drop_last()).union(m.last().entities.dom())
    }
}

/// The aliases that some schema declares.
pub open spec fn declared_types(m: Seq<SchemaModel>) -> Set<Seq<char>>
    decreases m.len(),
{
    if m.len() == 0 {
        Set::empty()
    } else {
        declared_types(m.drop_last()).union(m.last().types.dom())
    }
}

/// Adds the names of a table.
pub fn add_keys<V: DeepView>(set: &mut NameSet, t: &Table<V>)
    ensures
        final(set)@ == old(set)@.union(t@.dom()),
{
    let ghost s0 = set@;
    let n = t.len();
    let ghost o = ordered(t@.dom());
    let mut i: usize = 0;
    proof {
        lemma_ordered(t@.dom());
        assert(s0.union(o.take(0).to_set()) =~= s0);
    }
    while i < n
        invariant
            i <= n,
            n == o.len(),
            o == ordered(t@.dom()),
            set@ == s0.union(o.take(i as int).to_set()),
        decreases n - i,
    {
        proof {
            assert(o.take(i + 1) =~= o.take(i as int).push(o[i as int]));
            o.take(i as int).lemma_push_to_set_commute(o[i as int]);
            assert(s0.union(o.take(i as int).to_set()).insert(o[i as int]) =~= s0.union(
                o.take(i as int).to_set().insert(o[i as int]),
            ));
        }
        set.insert(t.key_at(i).clone());
        i += 1;
    }
    assert(o.take(i as int) =~= o);
}

fn declared_names(schemas: &[Schema]) -> (r: (NameSet, NameSet))
    ensures
        r.0@ == declared(schema_models(schemas@)),
        r.1@ == declared_types(schema_models(schemas@)),
{
    let ghost m = schema_models(schemas@);
    let mut entities = NameSet::new();
    let mut types = NameSet::new();
    let mut i: usize = 0;
    assert(m.take(0) =~= seq![]);
    while i < schemas.len()
        invariant
            i <= schemas@.len(),
            m == schema_models(schemas@),
            entities@ == declared(m.take(i as int)),
            types@ == declared_types(m.take(i as int)),
        decreases schemas@.len() - i,
    {
        assert(m.take(i + 1).drop_last() =~= m.take(i as int));
        add_keys(&mut entities, &schemas[i].entities);
        add_keys(&mut types, &schemas[i].types);
        i += 1;
    }
    assert(m.take(i as int) =~= m);
    (entities, types)
}

/// `v` with those of `ps` behind it that it does not hold yet.
pub open spec fn add_missing(v: Seq<Seq<char>>, ps: Seq<Seq<char>>) -> Seq<Seq<char>>
    decreases ps.len(),
{
    if ps.len() == 0 {
        v
    } else {
        let before = add_missing(v, ps.drop_last());
        if before.contains(ps.last()) {
            before
        } else {
            before.push(ps.last())
        }
    }
}

/// Appends those of `ps` that are not there yet.
pub fn add_missing_names(out: &mut Vec<String>, ps: &Vec<String>)
    ensures
        final(out).deep_view() == add_missing(old(out).deep_view(), ps.deep_view()),
{
    let ghost before = out.deep_view();
    let ghost all = ps.deep_view();
    let mut j: usize = 0;
    assert(all.take(0) =~= seq![]);
    while j < ps.len()
        invariant
            j <= ps@.len(),
            all == ps.deep_view(),
            all.len() == ps@.len(),
            out.deep_view() == add_missing(before, all.take(j as int)),
        decreases ps@.len() - j,
    {
        proof {
            assert(all.take(j + 1).drop_last() =~= all.take(j as int));
            assert(all.take(j + 1).last() == ps@[j as int]@);
        }
        if !listed(out, ps[j].as_str()) {
            push_item(out, ps[j].clone());
        }
        j += 1;
    }
    assert(all.take(j as int) =~= all);
}

/// The parents of an entity over all schemas.
pub open spec fn merged_parents(m: Seq<SchemaModel>, e: Seq<char>) -> Seq<Seq<char>>
    decreases m.len(),
{
    if m.len() == 0 {
        seq![]
    } else {
        let before = merged_parents(m.drop_last(), e);
        if m.last().entities.contains_key(e) {
            add_missing(before, m.last().entities[e].parents)
        } else {
            before
        }
    }
}

fn merge_parents(schemas: &[Schema], e: &str) -> (r: Vec<String>)
    ensures
        r.deep_view() == merged_parents(schema_models(schemas@), e@),
{
    let ghost m = schema_models(schemas@);
    let mut out: Vec<String> = Vec::new();
    let mut i: usize = 0;
    proof {
        assert(m.take(0) =~= seq![]);
        assert(out.deep_view() =~= seq![]);
    }
    while i < schemas.len()
        invariant
            i <= schemas@.len(),
            m == schema_models(schemas@),
            out.deep_view() == merged_parents(m.take(i as int), e@),
        decreases schemas@.len() - i,
    {
        assert(m.take(i + 1).drop_last() =~= m.take(i as int));
        if let Some(ent) = schemas[i].entities.get(e) {
            add_missing_names(&mut out, &ent.parents);
        }
        i += 1;
    }
    assert(m.take(i as int) =~= m);
    out
}

/// Whether some schema declares the entity abstract.
pub open spec fn is_abstract(m: Seq<SchemaModel>, e: Seq<char>) -> bool {
    exists|i: int|
        0 <= i < m.len() && #[trigger] m[i].entities.contains_key(e) && m[i].entities[e].is_abstract
}

fn any_abstract(schemas: &[Schema], e: &str) -> (r: bool)
    ensures
        r == is_abstract(schema_models(schemas@), e@),
{
    let ghost m = schema_models(schemas@);
    let mut i: usize = 0;
    while i < schemas.len()
        invariant
            i <= schemas@.len(),
            m == schema_models(schemas@),
            forall|j: int|
                0 <= j < i ==> !(#[trigger] m[j].entities.contains_key(e@)
                    && m[j].entities[e@].is_abstract),
        decreases schemas@.len() - i,
    {
        assert(m[i as int] == schemas@[i as int].view());
        if let Some(ent) = schemas[i].entities.get(e) {
            if ent.is_abstract {
                assert(m[i as int].entities.contains_key(e@));
                return true;
            }
        }
        i += 1;
    }
    false
}

/// The first `SUPERTYPE OF` expression of an entity.
pub open spec fn first_supertype(m: Seq<SchemaModel>, e: Seq<char>) -> Option<SuperModel>
    decreases m.len(),
{
    if m.len() == 0 {
        None
    } else if first_supertype(m.drop_last(), e) is Some {
        first_supertype(m.drop_last(), e)
    } else if m.last().entities.contains_key(e) {
        m.last().entities[e].supertype_expr
    } else {
        None
    }
}

fn find_supertype(schemas: &[Schema], e: &str) -> (r: Option<SupertypeExpr>)
    ensures
        r.deep_view() == first_supertype(schema_models(schemas@), e@),
{
    let ghost m = schema_models(schemas@);
    let mut out: Option<SupertypeExpr> = None;
    let mut i: usize = 0;
    assert(m.take(0) =~= seq![]);
    while i < schemas.len()
        invariant
            i <= schemas@.len(),
            m == schema_models(schemas@),
            out.deep_view() == first_supertype(m.take(i as int), e@),
        decreases schemas@.len() - i,
    {
        assert(m.take(i + 1).drop_last() =~= m.take(i as int));
        if out.is_none() {
            if let Some(ent) = schemas[i].entities.get(e) {
                out = ent.supertype_expr.duplicate();
            }
        }
        i += 1;
    }
    assert(m.take(i as int) =~= m);
    out
}

/// One declaration of an attribute.
#[derive(Debug)]
pub struct AttrRow {
    pub attr: String,
    pub label: String,
    pub ty: AttrType,
}

/// What an `AttrRow` stands for.
pub struct RowModel {
    pub attr: Seq<char>,
    pub label: Seq<char>,
    pub ty: TypeModel,
}

impl AttrRow {
    pub open spec fn view(&self) -> RowModel {
        RowModel { attr: self.attr@, label: self.label@, ty: self.ty.view() }
    }
}

impl DeepView for AttrRow {
    type V = RowModel;

    open spec fn deep_view(&self) -> RowModel {
        self.view()
    }
}

pub open spec fn schema_rows(label: Seq<char>, attrs: Seq<AttrModel>) -> Seq<RowModel> {
    attrs.map_values(|a: AttrModel| RowModel { attr: a.name, label, ty: a.ty })
}

/// The declarations of an entity's attributes, schema by schema.
pub open spec fn rows(m: Seq<SchemaModel>, e: Seq<char>) -> Seq<RowModel>
    decreases m.len(),
{
    if m.len() == 0 {
        seq![]
    } else if m.last().entities.contains_key(e) {
        rows(m.drop_last(), e) + schema_rows(
            m.last().source_label,
            m.last().entities[e].own_attrs,
        )
    } else {
        rows(m.drop_last(), e)
    }
}

fn collect_rows(schemas: &[Schema], e: &str) -> (r: Vec<AttrRow>)
    ensures
        r.deep_view() == rows(schema_models(schemas@), e@),
{
    let ghost m = schema_models(schemas@);
    let mut out: Vec<AttrRow> = Vec::new();
    let mut i: usize = 0;
    proof {
        assert(m.take(0) =~= seq![]);
        assert(out.deep_view() =~= seq![]);
    }
    while i < schemas.len()
        invariant
            i <= schemas@.len(),
            m == schema_models(schemas@),
            out.deep_view() == rows(m.take(i as int), e@),
        decreases schemas@.len() - i,
    {
        assert(m.take(i + 1).drop_last() =~= m.take(i as int));
        if let Some(ent) = schemas[i].entities.get(e) {
            let ghost before = out.deep_view();
            let ghost more = schema_rows(schemas@[i as int].source_label@, ent.own_attrs.deep_view());
            let mut j: usize = 0;
            assert(before + more.take(0) =~= before);
            while j < ent.own_attrs.len()
                invariant
                    i < schemas@.len(),
                    j <= ent.own_attrs@.len(),
                    more == schema_rows(
                        schemas@[i as int].source_label@,
                        ent.own_attrs.deep_view(),
                    ),
                    out.deep_view() == before + more.take(j as int),
                decreases ent.own_attrs@.len() - j,
            {
                let a = &ent.own_attrs[j];
                let row = AttrRow {
                    attr: a.name.clone(),
                    label: schemas[i].source_label.clone(),
                    ty: a.ty.duplicate(),
                };
                assert(row.view() == more[j as int]);
                push_item(&mut out, row);
                assert(before + more.take(j + 1) =~= (before + more.take(j as int)).push(
                    more[j as int],
                ));
                j += 1;
            }
            assert(more.take(j as int) =~= more);
        }
        i += 1;
    }
    assert(m.take(i as int) =~= m);
    out
}

/// The names in the declarations.
pub open spec fn row_attrs(rs: Seq<RowModel>) -> Set<Seq<char>> {
    rs.map_values(|r: RowModel| r.attr).to_set()
}

fn attrs_of_rows(rs: &Vec<AttrRow>) -> (r: NameSet)
    ensures
        r@ == row_attrs(rs.deep_view()),
{
    let ghost names = rs.deep_view().map_values(|r: RowModel| r.attr);
    let mut v: Vec<String> = Vec::new();
    let mut i: usize = 0;
    while i < rs.len()
        invariant
            i <= rs@.len(),
            names == rs.deep_view().map_values(|r: RowModel| r.attr),
            v@.len() == i,
            forall|j: int| 0 <= j < i ==> #[trigger] v@[j]@ == names[j],
        decreases rs@.len() - i,
    {
        v.push(rs[i].attr.clone());
        i += 1;
    }
    assert(v.deep_view() =~= names);
    NameSet::from_names(&v)
}

/// The declarations of one attribute.
pub open spec fn rows_of(rs: Seq<RowModel>, a: Seq<char>) -> Seq<RowModel>
    decreases rs.len(),
{
    if rs.len() == 0 {
        seq![]
    } else if rs.last().attr == a {
        rows_of(rs.drop_last(), a).push(rs.last())
    } else {
        rows_of(rs.drop_last(), a)
    }
}

pub proof fn lemma_rows_of(rs: Seq<RowModel>, a: Seq<char>)
    ensures
        row_attrs(rs).contains(a) <==> rows_of(rs, a).len() > 0,
    decreases rs.len(),
{
    let names = rs.map_values(|r: RowModel| r.attr);
    assert(row_attrs(rs).contains(a) == names.contains(a));
    if rs.len() > 0 {
        lemma_rows_of(rs.drop_last(), a);
        let before = rs.drop_last().map_values(|r: RowModel| r.attr);
        assert(row_attrs(rs.drop_last()).contains(a) == before.contains(a));
        assert(names =~= before.push(rs.last().attr));
        if before.contains(a) {
            let i = choose|i: int| 0 <= i < before.len() && before[i] == a;
            assert(names[i] == a);
        }
        assert(names[names.len() - 1] == rs.last().attr);
        if names.contains(a) {
            let i = choose|i: int| 0 <= i < names.len() && names[i] == a;
            if i < before.len() {
                assert(before[i] == a);
            }
        }
    }
}

pub open spec fn row_text(r: RowModel) -> Seq<char> {
    r.label + ": "@ + describe(r.ty)
}

/// The texts of the declarations with another type than `ty`.
pub open spec fn differing(rs: Seq<RowModel>, ty: TypeModel) -> Seq<Seq<char>>
    decreases rs.len(),
{
    if rs.len() == 0 {
        seq![]
    } else if rs.last().ty != ty {
        differing(rs.drop_last(), ty).push(row_text(rs.last()))
    } else {
        differing(rs.drop_last(), ty)
    }
}

/// The disagreement about an attribute: the first declaration and those that
/// differ from it, if any do.
pub open spec fn conflict(rs: Seq<RowModel>) -> Option<Seq<Seq<char>>> {
    if rs.len() == 0 || differing(rs, rs[0].ty).len() == 0 {
        None
    } else {
        Some(seq![row_text(rs[0])] + differing(rs, rs[0].ty))
    }
}

fn rows_for(rs: &Vec<AttrRow>, a: &str) -> (r: Vec<usize>)
    ensures
        r@.len() == rows_of(rs.deep_view(), a@).len(),
        forall|k: int|
            0 <= k < r@.len() ==> #[trigger] r@[k] < rs@.len() && rs@[r@[k] as int].view()
                == rows_of(rs.deep_view(), a@)[k],
{
    let ghost all = rs.deep_view();
    let mut out: Vec<usize> = Vec::new();
    let mut i: usize = 0;
    assert(all.take(0) =~= seq![]);
    while i < rs.len()
        invariant
            i <= rs@.len(),
            all == rs.deep_view(),
            all.len() == rs@.len(),
            out@.len() == rows_of(all.take(i as int), a@).len(),
            forall|k: int|
                0 <= k < out@.len() ==> #[trigger] out@[k] < rs@.len() && rs@[out@[k] as int].view()
                    == rows_of(all.take(i as int), a@)[k],
        decreases rs@.len() - i,
    {
        proof {
            assert(all.take(i + 1).drop_last() =~= all.take(i as int));
            assert(all.take(i + 1).last() == rs@[i as int].view());
        }
        if same(rs[i].attr.as_str(), a) {
            out.push(i);
        }
        i += 1;
    }
    assert(all.take(i as int) =~= all);
    out
}

fn find_conflict(rs: &Vec<AttrRow>, a: &str) -> (r: Option<Vec<String>>)
    ensures
        r.deep_view() == conflict(rows_of(rs.deep_view(), a@)),
{
    let at = rows_for(rs, a);
    let ghost sel = rows_of(rs.deep_view(), a@);
    if at.len() == 0 {
        return None;
    }
    assert(at@[0] < rs@.len());
    let first = &rs[at[0]];
    let mut others: Vec<String> = Vec::new();
    let mut i: usize = 0;
    proof {
        assert(sel.take(0) =~= seq![]);
        assert(others.deep_view() =~= seq![]);
    }
    while i < at.len()
        invariant
            i <= at@.len(),
            at@.len() == sel.len(),
            first.view() == sel[0],
            forall|k: int|
                0 <= k < at@.len() ==> #[trigger] at@[k] < rs@.len() && rs@[at@[k] as int].view()
                    == sel[k],
            others.deep_view() == differing(sel.take(i as int), sel[0].ty),
        decreases at@.len() - i,
    {
        proof {
            assert(sel.take(i + 1).drop_last() =~= sel.take(i as int));
            assert(at@[i as int] < rs@.len());
        }
        let row = &rs[at[i]];
        if !shape_eq(&row.ty, &first.ty) {
            push_item(&mut others, join3(row.label.as_str(), ": ", describe_type(&row.ty).as_str()));
        }
        i += 1;
    }
    assert(sel.take(i as int) =~= sel);
    if others.len() == 0 {
        assert(others.deep_view().len() == 0);
        return None;
    }
    assert(others.deep_view().len() > 0);
    let mut all: Vec<String> = Vec::new();
    all.push(join3(first.label.as_str(), ": ", describe_type(&first.ty).as_str()));
    assert(all.deep_view() =~= seq![row_text(sel[0])]);
    append_items(&mut all, others);
    Some(all)
}

/// The disagreements about an entity's attributes.
pub open spec fn conflicts(rs: Seq<RowModel>) -> Map<Seq<char>, Seq<Seq<char>>> {
    tabulate(ordered(row_attrs(rs)), |a: Seq<char>| conflict(rows_of(rs, a)))
}

/// The first type of each attribute.
pub open spec fn first_types(rs: Seq<RowModel>) -> Map<Seq<char>, TypeModel> {
    tabulate(ordered(row_attrs(rs)), |a: Seq<char>| Some(rows_of(rs, a)[0].ty))
}

fn attr_tables(rs: &Vec<AttrRow>, attrs: &NameSet) -> (r: (Table<Vec<String>>, Table<AttrType>))
    requires
        attrs@ == row_attrs(rs.deep_view()),
    ensures
        r.0@ == conflicts(rs.deep_view()),
        r.1@ == first_types(rs.deep_view()),
{
    let ghost rv = rs.deep_view();
    let ghost g = |a: Seq<char>| conflict(rows_of(rv, a));
    let ghost h = |a: Seq<char>| Some(rows_of(rv, a)[0].ty);
    let ghost o = ordered(attrs@);
    let n = attrs.len();
    let mut found: Table<Vec<String>> = Table::new();
    let mut types: Table<AttrType> = Table::new();
    let mut i: usize = 0;
    proof {
        lemma_tabulate_ends(o, g);
        lemma_tabulate_ends(o, h);
        lemma_ordered(attrs@);
    }
    while i < n
        invariant
            i <= n,
            n == o.len(),
            o == ordered(attrs@),
            attrs@.finite(),
            attrs@ == row_attrs(rv),
            rv == rs.deep_view(),
            g == (|a: Seq<char>| conflict(rows_of(rv, a))),
            h == (|a: Seq<char>| Some(rows_of(rv, a)[0].ty)),
            found@ == tabulate(o.take(i as int), g),
            types@ == tabulate(o.take(i as int), h),
        decreases n - i,
    {
        let a = attrs.at(i);
        proof {
            lemma_tabulate_next(o, i as int, g);
            lemma_tabulate_next(o, i as int, h);
            lemma_rows_of(rv, a@);
        }
        if let Some(c) = find_conflict(rs, a.as_str()) {
            found.insert(a.clone(), c);
        }
        let at = rows_for(rs, a.as_str());
        assert(at@[0] < rs@.len());
        types.insert(a.clone(), rs[at[0]].ty.duplicate());
        i += 1;
    }
    proof {
        lemma_tabulate_ends(o, g);
    }
    (found, types)
}

/// The first type that an alias stands for.
pub open spec fn first_alias(m: Seq<SchemaModel>, n: Seq<char>) -> Option<TypeModel>
    decreases m.len(),
{
    if m.len() == 0 {
        None
    } else if first_alias(m.drop_last(), n) is Some {
        first_alias(m.drop_last(), n)
    } else if m.last().types.contains_key(n) {
        Some(m.last().types[n].aliased)
    } else {
        None
    }
}

fn alias_mentions(schemas: &[Schema], n: &str) -> (r: Option<Vec<String>>)
    ensures
        r.deep_view() == (match first_alias(schema_models(schemas@), n@) {
            Some(t) => Some(mentioned(t)),
            None => None,
        }),
{
    let ghost m = schema_models(schemas@);
    let mut i: usize = 0;
    assert(m.take(0) =~= seq![]);
    while i < schemas.len()
        invariant
            i <= schemas@.len(),
            m == schema_models(schemas@),
            first_alias(m.take(i as int), n@) is None,
        decreases schemas@.len() - i,
    {
        assert(m.take(i + 1).drop_last() =~= m.take(i as int));
        if let Some(td) = schemas[i].types.get(n) {
            proof {
                lemma_first_alias_prefix(m, n@, i + 1);
            }
            return Some(mentioned_names(&td.aliased));
        }
        i += 1;
    }
    assert(m.take(i as int) =~= m);
    None
}

pub proof fn lemma_first_alias_prefix(m: Seq<SchemaModel>, n: Seq<char>, k: int)
    requires
        0 <= k <= m.len(),
        first_alias(m.take(k), n) is Some,
    ensures
        first_alias(m, n) == first_alias(m.take(k), n),
    decreases m.len(),
{
    if k < m.len() {
        assert(m.drop_last().take(k) =~= m.take(k));
        lemma_first_alias_prefix(m.drop_last(), n, k);
    } else {
        assert(m.take(k) =~= m);
    }
}

/// Each alias with the names that it mentions.
pub open spec fn alias_graph(m: Seq<SchemaModel>) -> Graph {
    tabulate(
        ordered(declared_types(m)),
        |n: Seq<char>|
            match first_alias(m, n) {
                Some(t) => Some(mentioned(t)),
                None => None,
            },
    )
}

fn build_aliases(schemas: &[Schema], types: &NameSet) -> (r: Table<Vec<String>>)
    requires
        types@ == declared_types(schema_models(schemas@)),
    ensures
        r@ == alias_graph(schema_models(schemas@)),
{
    let ghost m = schema_models(schemas@);
    let ghost g = |n: Seq<char>|
        match first_alias(m, n) {
            Some(t) => Some(mentioned(t)),
            None => None,
        };
    let ghost o = ordered(types@);
    let n = types.len();
    let mut out: Table<Vec<String>> = Table::new();
    let mut i: usize = 0;
    proof {
        lemma_tabulate_ends(o, g);
    }
    while i < n
        invariant
            i <= n,
            n == o.len(),
            o == ordered(types@),
            m == schema_models(schemas@),
            g == (|n: Seq<char>|
                match first_alias(m, n) {
                    Some(t) => Some(mentioned(t)),
                    None => None,
                }),
            out@ == tabulate(o.take(i as int), g),
        decreases n - i,
    {
        let name = types.at(i);
        proof {
            lemma_tabulate_next(o, i as int, g);
        }
        if let Some(v) = alias_mentions(schemas, name.as_str()) {
            out.insert(name.clone(), v);
        }
        i += 1;
    }
    proof {
        lemma_tabulate_ends(o, g);
    }
    out
}

/// The references to the names `xs`: to entities, and to names that are
/// neither entities nor aliases.
pub open spec fn target_edges(
    entities: Set<Seq<char>>,
    aliases: Graph,
    e: Seq<char>,
    a: Seq<char>,
    xs: Seq<Seq<char>>,
) -> Seq<EdgeModel>
    decreases xs.len(),
{
    if xs.len() == 0 {
        seq![]
    } else {
        let before = target_edges(entities, aliases, e, a, xs.drop_last());
        let x = xs.last();
        if entities.contains(x) {
            before.push(EdgeModel { entity: e, attr: a, target: TargetModel::Entity(x) })
        } else if !aliases.contains_key(x) {
            before.push(EdgeModel { entity: e, attr: a, target: TargetModel::Undeclared(x) })
        } else {
            before
        }
    }
}

/// The references of the attributes `attrs`: all that their types lead to
/// through aliases.
pub open spec fn attr_edges(
    entities: Set<Seq<char>>,
    aliases: Graph,
    e: Seq<char>,
    types: Map<Seq<char>, TypeModel>,
    attrs: Seq<Seq<char>>,
) -> Seq<EdgeModel>
    decreases attrs.len(),
{
    if attrs.len() == 0 {
        seq![]
    } else {
        attr_edges(entities, aliases, e, types, attrs.drop_last()) + target_edges(
            entities,
            aliases,
            e,
            attrs.last(),
            ordered(closure_of(aliases, mentioned(types[attrs.last()]))),
        )
    }
}

fn edges_to(
    entities: &NameSet,
    aliases: &Table<Vec<String>>,
    e: &str,
    a: &str,
    xs: &NameSet,
) -> (r: Vec<RefEdge>)
    ensures
        r.deep_view() == target_edges(entities@, aliases@, e@, a@, ordered(xs@)),
{
    let n = xs.len();
    let ghost o = ordered(xs@);
    let mut out: Vec<RefEdge> = Vec::new();
    let mut i: usize = 0;
    proof {
        assert(o.take(0) =~= seq![]);
        assert(out.deep_view() =~= seq![]);
    }
    while i < n
        invariant
            i <= n,
            n == o.len(),
            o == ordered(xs@),
            out.deep_view() == target_edges(entities@, aliases@, e@, a@, o.take(i as int)),
        decreases n - i,
    {
        assert(o.take(i + 1).drop_last() =~= o.take(i as int));
        let x = xs.at(i);
        if entities.contains(x.as_str()) {
            push_item(
                &mut out,
                RefEdge {
                    entity: e.to_owned(),
                    attr: a.to_owned(),
                    target: RefTarget::Entity(x.clone()),
                },
            );
        } else if !aliases.contains_key(x.as_str()) {
            push_item(
                &mut out,
                RefEdge {
                    entity: e.to_owned(),
                    attr: a.to_owned(),
                    target: RefTarget::Undeclared(x.clone()),
                },
            );
        }
        i += 1;
    }
    assert(o.take(i as int) =~= o);
    out
}

fn edges_of(
    entities: &NameSet,
    aliases: &Table<Vec<String>>,
    e: &str,
    types: &Table<AttrType>,
) -> (r: Vec<RefEdge>)
    ensures
        r.deep_view() == attr_edges(entities@, aliases@, e@, types@, ordered(types@.dom())),
{
    let n = types.len();
    let ghost o = ordered(types@.dom());
    let mut out: Vec<RefEdge> = Vec::new();
    let mut i: usize = 0;
    proof {
        assert(o.take(0) =~= seq![]);
        assert(out.deep_view() =~= seq![]);
    }
    while i < n
        invariant
            i <= n,
            n == o.len(),
            o == ordered(types@.dom()),
            out.deep_view() == attr_edges(entities@, aliases@, e@, types@, o.take(i as int)),
        decreases n - i,
    {
        assert(o.take(i + 1).drop_last() =~= o.take(i as int));
        let a = types.key_at(i);
        let xs = closure(aliases, &mentioned_names(types.value_at(i)));
        append_items(&mut out, edges_to(entities, aliases, e, a.as_str(), &xs));
        i += 1;
    }
    assert(o.take(i as int) =~= o);
    out
}

/// The references of the entities `es`.
pub open spec fn all_edges(m: Seq<SchemaModel>, es: Seq<Seq<char>>) -> Seq<EdgeModel>
    decreases es.len(),
{
    if es.len() == 0 {
        seq![]
    } else {
        let types = first_types(rows(m, es.last()));
        all_edges(m, es.drop_last()) + attr_edges(
            declared(m),
            alias_graph(m),
            es.last(),
            types,
            ordered(types.dom()),
        )
    }
}

/// The union of the schemas.
pub open spec fn union_of(m: Seq<SchemaModel>) -> UnifiedModel {
    let es = ordered(declared(m));
    UnifiedModel {
        entity_parents: tabulate(es, |e: Seq<char>| Some(merged_parents(m, e))),
        attr_conflicts: tabulate(
            es,
            |e: Seq<char>|
                if conflicts(rows(m, e)) == Map::<Seq<char>, Seq<Seq<char>>>::empty() {
                    None
                } else {
                    Some(conflicts(rows(m, e)))
                },
        ),
        abstract_entities: tabulate(
            es,
            |e: Seq<char>|
                if is_abstract(m, e) {
                    Some(true)
                } else {
                    None
                },
        ).dom(),
        supertype_exprs: tabulate(es, |e: Seq<char>| first_supertype(m, e)),
        entity_attrs: tabulate(es, |e: Seq<char>| Some(row_attrs(rows(m, e)))),
        entity_attr_types: tabulate(es, |e: Seq<char>| Some(first_types(rows(m, e)))),
        edges: all_edges(m, es),
    }
}

/// Unites the schemas.
pub fn build(schemas: &[Schema]) -> (r: UnifiedSchema)
    ensures
        r.view() == union_of(schema_models(schemas@)),
        plain_parents(r.view().entity_parents),
        declared(schema_models(schemas@)).finite(),
        forall|e: Seq<char>| #[trigger]
            r.view().abstract_entities.contains(e) <==> exists|i: int|
                0 <= i < schemas@.len() && (#[trigger] schemas@[i]).entities@.contains_key(e)
                    && schemas@[i].entities@[e].is_abstract,
        forall|e: Seq<char>| #[trigger]
            r.view().entity_parents.contains_key(e) <==> exists|i: int|
                0 <= i < schemas@.len() && (#[trigger] schemas@[i]).entities@.contains_key(e),
{
    let ghost m = schema_models(schemas@);
    let (entities, type_names) = declared_names(schemas);
    let aliases = build_aliases(schemas, &type_names);
    let ghost o = ordered(entities@);
    let ghost gp = |e: Seq<char>| Some(merged_parents(m, e));
    let ghost gc = |e: Seq<char>|
        if conflicts(rows(m, e)) == Map::<Seq<char>, Seq<Seq<char>>>::empty() {
            None
        } else {
            Some(conflicts(rows(m, e)))
        };
    let ghost ga = |e: Seq<char>|
        if is_abstract(m, e) {
            Some(true)
        } else {
            None
        };
    let ghost gs = |e: Seq<char>| first_supertype(m, e);
    let ghost gn = |e: Seq<char>| Some(row_attrs(rows(m, e)));
    let ghost gt = |e: Seq<char>| Some(first_types(rows(m, e)));
    let n = entities.len();
    let mut entity_parents: Table<Vec<String>> = Table::new();
    let mut attr_conflicts: Table<Table<Vec<String>>> = Table::new();
    let mut abstract_entities = NameSet::new();
    let mut supertype_exprs: Table<SupertypeExpr> = Table::new();
    let mut entity_attrs: Table<NameSet> = Table::new();
    let mut entity_attr_types: Table<Table<AttrType>> = Table::new();
    let mut edges: Vec<RefEdge> = Vec::new();
    let mut i: usize = 0;
    proof {
        lemma_tabulate_ends(o, gp);
        lemma_tabulate_ends(o, gc);
        lemma_tabulate_ends(o, ga);
        lemma_tabulate_ends(o, gs);
        lemma_tabulate_ends(o, gn);
        lemma_tabulate_ends(o, gt);
        assert(tabulate(o.take(0), ga).dom() =~= Set::empty());
        assert(o.take(0) =~= seq![]);
        assert(edges.deep_view() =~= seq![]);
    }
    while i < n
        invariant
            i <= n,
            n == o.len(),
            o == ordered(entities@),
            m == schema_models(schemas@),
            entities@ == declared(m),
            aliases@ == alias_graph(m),
            gp == (|e: Seq<char>| Some(merged_parents(m, e))),
            gc == (|e: Seq<char>|
                if conflicts(rows(m, e)) == Map::<Seq<char>, Seq<Seq<char>>>::empty() {
                    None
                } else {
                    Some(conflicts(rows(m, e)))
                }),
            ga == (|e: Seq<char>|
                if is_abstract(m, e) {
                    Some(true)
                } else {
                    None
                }),
            gs == (|e: Seq<char>| first_supertype(m, e)),
            gn == (|e: Seq<char>| Some(row_attrs(rows(m, e)))),
            gt == (|e: Seq<char>| Some(first_types(rows(m, e)))),
            entity_parents@ == tabulate(o.take(i as int), gp),
            attr_conflicts@ == tabulate(o.take(i as int), gc),
            abstract_entities@ == tabulate(o.take(i as int), ga).dom(),
            supertype_exprs@ == tabulate(o.take(i as int), gs),
            entity_attrs@ == tabulate(o.take(i as int), gn),
            entity_attr_types@ == tabulate(o.take(i as int), gt),
            edges.deep_view() == all_edges(m, o.take(i as int)),
            forall|j: int|
                0 <= j < i ==> merged_parents(m, #[trigger] o[j]).len() <= usize::MAX,
        decreases n - i,
    {
        let e = entities.at(i);
        proof {
            lemma_tabulate_next(o, i as int, gp);
            lemma_tabulate_next(o, i as int, gc);
            lemma_tabulate_next(o, i as int, ga);
            lemma_tabulate_next(o, i as int, gs);
            lemma_tabulate_next(o, i as int, gn);
            lemma_tabulate_next(o, i as int, gt);
            assert(o.take(i + 1).drop_last() =~= o.take(i as int));
        }
        let list = merge_parents(schemas, e.as_str());
        let width: usize = list.len();
        assert(merged_parents(m, o[i as int]).len() == width);
        entity_parents.insert(e.clone(), list);
        if any_abstract(schemas, e.as_str()) {
            let ghost before = abstract_entities@;
            abstract_entities.insert(e.clone());
            assert(abstract_entities@ =~= tabulate(o.take(i + 1), ga).dom());
        } else {
            assert(abstract_entities@ =~= tabulate(o.take(i + 1), ga).dom());
        }
        if let Some(x) = find_supertype(schemas, e.as_str()) {
            supertype_exprs.insert(e.clone(), x);
        }
        let rs = collect_rows(schemas, e.as_str());
        let attrs = attrs_of_rows(&rs);
        let (found, types) = attr_tables(&rs, &attrs);
        append_items(&mut edges, edges_of(&entities, &aliases, e.as_str(), &types));
        if !found.is_empty() {
            attr_conflicts.insert(e.clone(), found);
        }
        entity_attrs.insert(e.clone(), attrs);
        entity_attr_types.insert(e.clone(), types);
        i += 1;
    }
    proof {
        lemma_tabulate_ends(o, gp);
        lemma_ordered(entities@);
        assert forall|e: Seq<char>| #[trigger] declared(m).contains(e) implies merged_parents(
            m,
            e,
        ).len() <= usize::MAX by {
            assert(o.contains(e));
            let j = choose|j: int| 0 <= j < o.len() && o[j] == e;
            assert(merged_parents(m, o[j]).len() <= usize::MAX);
        }
        law_union_has_plain_parents(m);
        assert forall|i: int| 0 <= i < m.len() implies #[trigger] m[i] == schemas@[i].view() by {}
        assert forall|e: Seq<char>| #[trigger] abstract_entities@.contains(e) <==> exists|i: int|
            0 <= i < schemas@.len() && (#[trigger] schemas@[i]).entities@.contains_key(e)
                && schemas@[i].entities@[e].is_abstract by {
            lemma_declared(m, e);
            if is_abstract(m, e) {
                let i = choose|i: int|
                    0 <= i < m.len() && #[trigger] m[i].entities.contains_key(e)
                        && m[i].entities[e].is_abstract;
                assert(m.contains(m[i]));
                assert(declares(m, m[i], e));
                assert(schemas@[i].entities@.contains_key(e));
            }
            if exists|i: int|
                0 <= i < schemas@.len() && (#[trigger] schemas@[i]).entities@.contains_key(e)
                    && schemas@[i].entities@[e].is_abstract {
                let i = choose|i: int|
                    0 <= i < schemas@.len() && (#[trigger] schemas@[i]).entities@.contains_key(e)
                        && schemas@[i].entities@[e].is_abstract;
                assert(m[i].entities.contains_key(e));
                assert(m.contains(m[i]));
                assert(declares(m, m[i], e));
            }
        }
        assert forall|e: Seq<char>| #[trigger] entity_parents@.contains_key(e) <==> exists|i: int|
            0 <= i < schemas@.len() && (#[trigger] schemas@[i]).entities@.contains_key(e) by {
            lemma_declared(m, e);
            if declared(m).contains(e) {
                let s = choose|s: SchemaModel| declares(m, s, e);
                let i = choose|i: int| 0 <= i < m.len() && m[i] == s;
                assert(schemas@[i].entities@.contains_key(e));
            }
            if exists|i: int|
                0 <= i < schemas@.len() && (#[trigger] schemas@[i]).entities@.contains_key(e) {
                let i = choose|i: int|
                    0 <= i < schemas@.len() && (#[trigger] schemas@[i]).entities@.contains_key(e);
                assert(m.contains(m[i]));
                assert(declares(m, m[i], e));
            }
        }
    }
    UnifiedSchema {
        entity_parents,
        attr_conflicts,
        abstract_entities,
        supertype_exprs,
        entity_attrs,
        entity_attr_types,
        edges,
    }
}

// ---------------------------------------------------------------------
// The parents of the union
// ---------------------------------------------------------------------

proof fn lemma_add_missing_distinct(v: Seq<Seq<char>>, ps: Seq<Seq<char>>)
    requires
        v.no_duplicates(),
    ensures
        add_missing(v, ps).no_duplicates(),
    decreases ps.len(),
{
    if ps.len() > 0 {
        let before = add_missing(v, ps.drop_last());
        lemma_add_missing_distinct(v, ps.drop_last());
        if !before.contains(ps.last()) {
            let q = before.push(ps.last());
            assert forall|i: int, j: int| 0 <= i < q.len() && 0 <= j < q.len() && i != j implies
                q[i] != q[j] by {
                if i < before.len() {
                    assert(before.contains(before[i]));
                }
                if j < before.len() {
                    assert(before.contains(before[j]));
                }
            }
        }
    }
}

/// No parent of an entity is listed twice.
pub proof fn law_parents_are_distinct(m: Seq<SchemaModel>, e: Seq<char>)
    ensures
        merged_parents(m, e).no_duplicates(),
    decreases m.len(),
{
    if m.len() > 0 {
        law_parents_are_distinct(m.drop_last(), e);
        if m.last().entities.contains_key(e) {
            lemma_add_missing_distinct(
                merged_parents(m.drop_last(), e),
                m.last().entities[e].parents,
            );
        }
    }
}

/// The union lists each parent of an entity once. Its graph is one of those of
/// which the order of the names and the classification are complete, as long as no
/// list is beyond counting.
pub proof fn law_union_has_plain_parents(m: Seq<SchemaModel>)
    requires
        forall|e: Seq<char>| #[trigger]
            declared(m).contains(e) ==> merged_parents(m, e).len() <= usize::MAX,
        declared(m).finite(),
    ensures
        plain_parents(union_of(m).entity_parents),
{
    let es = ordered(declared(m));
    let parents = union_of(m).entity_parents;
    lemma_ordered(declared(m));
    assert(parents.dom() =~= declared(m));
    assert forall|c: Seq<char>| #[trigger] parents.contains_key(c) implies
        parents[c].no_duplicates() && parents[c].len() <= usize::MAX by {
        assert(declared(m).contains(c));
        law_parents_are_distinct(m, c);
    }
}

// ---------------------------------------------------------------------
// The order of the schemas
// ---------------------------------------------------------------------

proof fn lemma_last_or_before<A>(q: Seq<A>, x: A)
    requires
        q.len() > 0,
    ensures
        q.contains(x) <==> q.drop_last().contains(x) || x == q.last(),
{
    let d = q.drop_last();
    if q.contains(x) {
        let i = choose|i: int| 0 <= i < q.len() && q[i] == x;
        if i < d.len() {
            assert(d[i] == x);
        }
    }
    if d.contains(x) {
        let i = choose|i: int| 0 <= i < d.len() && d[i] == x;
        assert(q[i] == x);
    }
    assert(q[q.len() - 1] == q.last());
}

/// Whether `s` is one of the schemas and declares the entity.
spec fn declares(m: Seq<SchemaModel>, s: SchemaModel, e: Seq<char>) -> bool {
    m.contains(s) && s.entities.contains_key(e)
}

proof fn lemma_declared(m: Seq<SchemaModel>, e: Seq<char>)
    ensures
        declared(m).contains(e) <==> exists|s: SchemaModel| declares(m, s, e),
    decreases m.len(),
{
    if m.len() > 0 {
        let d = m.drop_last();
        lemma_declared(d, e);
        if declared(d).contains(e) {
            let s = choose|s: SchemaModel| declares(d, s, e);
            lemma_last_or_before(m, s);
            assert(declares(m, s, e));
        }
        if m.last().entities.contains_key(e) {
            lemma_last_or_before(m, m.last());
            assert(declares(m, m.last(), e));
        }
        if exists|s: SchemaModel| declares(m, s, e) {
            let s = choose|s: SchemaModel| declares(m, s, e);
            lemma_last_or_before(m, s);
            if d.contains(s) {
                assert(declares(d, s, e));
            }
        }
    }
}

proof fn lemma_add_missing(v: Seq<Seq<char>>, ps: Seq<Seq<char>>, x: Seq<char>)
    ensures
        add_missing(v, ps).contains(x) <==> v.contains(x) || ps.contains(x),
    decreases ps.len(),
{
    if ps.len() > 0 {
        let before = add_missing(v, ps.drop_last());
        lemma_add_missing(v, ps.drop_last(), x);
        lemma_last_or_before(ps, x);
        if !before.contains(ps.last()) {
            let q = before.push(ps.last());
            assert(q.drop_last() =~= before);
            lemma_last_or_before(q, x);
        }
    }
}

/// Whether one of the schemas gives the entity the parent `x`.
spec fn gives_parent(m: Seq<SchemaModel>, e: Seq<char>, s: SchemaModel, x: Seq<char>) -> bool {
    declares(m, s, e) && s.entities[e].parents.contains(x)
}

proof fn lemma_merged_parents(m: Seq<SchemaModel>, e: Seq<char>, x: Seq<char>)
    ensures
        merged_parents(m, e).contains(x) <==> exists|s: SchemaModel| gives_parent(m, e, s, x),
    decreases m.len(),
{
    if m.len() > 0 {
        let d = m.drop_last();
        let before = merged_parents(d, e);
        lemma_merged_parents(d, e, x);
        lemma_last_or_before(m, m.last());
        if m.last().entities.contains_key(e) {
            lemma_add_missing(before, m.last().entities[e].parents, x);
            if m.last().entities[e].parents.contains(x) {
                assert(gives_parent(m, e, m.last(), x));
            }
        }
        if before.contains(x) {
            let s = choose|s: SchemaModel| gives_parent(d, e, s, x);
            lemma_last_or_before(m, s);
            assert(gives_parent(m, e, s, x));
        }
        if exists|s: SchemaModel| gives_parent(m, e, s, x) {
            let s = choose|s: SchemaModel| gives_parent(m, e, s, x);
            lemma_last_or_before(m, s);
            if d.contains(s) {
                assert(gives_parent(d, e, s, x));
            }
        }
    }
}

/// Whether one of the schemas has the declaration `r` of an attribute.
spec fn gives_row(m: Seq<SchemaModel>, e: Seq<char>, s: SchemaModel, r: RowModel) -> bool {
    declares(m, s, e) && schema_rows(s.source_label, s.entities[e].own_attrs).contains(r)
}

proof fn lemma_rows(m: Seq<SchemaModel>, e: Seq<char>, r: RowModel)
    ensures
        rows(m, e).contains(r) <==> exists|s: SchemaModel| gives_row(m, e, s, r),
    decreases m.len(),
{
    if m.len() > 0 {
        let d = m.drop_last();
        let before = rows(d, e);
        let all = rows(m, e);
        lemma_rows(d, e, r);
        lemma_last_or_before(m, m.last());
        if m.last().entities.contains_key(e) {
            let more = schema_rows(m.last().source_label, m.last().entities[e].own_attrs);
            if more.contains(r) {
                let i = choose|i: int| 0 <= i < more.len() && more[i] == r;
                assert(all[before.len() + i] == r);
                assert(gives_row(m, e, m.last(), r));
            }
            if all.contains(r) {
                let i = choose|i: int| 0 <= i < all.len() && all[i] == r;
                if i < before.len() {
                    assert(before[i] == r);
                } else {
                    assert(more[i - before.len()] == r);
                }
            }
            if before.contains(r) {
                let i = choose|i: int| 0 <= i < before.len() && before[i] == r;
                assert(all[i] == r);
            }
        }
        if before.contains(r) {
            let s = choose|s: SchemaModel| gives_row(d, e, s, r);
            lemma_last_or_before(m, s);
            assert(gives_row(m, e, s, r));
        }
        if exists|s: SchemaModel| gives_row(m, e, s, r) {
            let s = choose|s: SchemaModel| gives_row(m, e, s, r);
            lemma_last_or_before(m, s);
            if d.contains(s) {
                assert(gives_row(d, e, s, r));
            }
        }
    }
}

proof fn lemma_rows_of_contains(rs: Seq<RowModel>, a: Seq<char>, r: RowModel)
    ensures
        rows_of(rs, a).contains(r) <==> rs.contains(r) && r.attr == a,
    decreases rs.len(),
{
    if rs.len() > 0 {
        let before = rows_of(rs.drop_last(), a);
        lemma_rows_of_contains(rs.drop_last(), a, r);
        lemma_last_or_before(rs, r);
        if rs.last().attr == a {
            let q = before.push(rs.last());
            assert(q.drop_last() =~= before);
            lemma_last_or_before(q, r);
        }
    }
}

proof fn lemma_differing(rs: Seq<RowModel>, ty: TypeModel)
    ensures
        differing(rs, ty).len() > 0 <==> exists|r: RowModel| rs.contains(r) && r.ty != ty,
    decreases rs.len(),
{
    if rs.len() > 0 {
        let d = rs.drop_last();
        lemma_differing(d, ty);
        lemma_last_or_before(rs, rs.last());
        if differing(d, ty).len() > 0 {
            let r = choose|r: RowModel| d.contains(r) && r.ty != ty;
            lemma_last_or_before(rs, r);
        }
        if exists|r: RowModel| rs.contains(r) && r.ty != ty {
            let r = choose|r: RowModel| rs.contains(r) && r.ty != ty;
            lemma_last_or_before(rs, r);
            if d.contains(r) {
                assert(d.contains(r) && r.ty != ty);
            }
        }
    }
}

/// Declarations conflict where two of them have different types, in whatever
/// order they stand.
proof fn lemma_conflict_moves(rs: Seq<RowModel>, qs: Seq<RowModel>)
    requires
        forall|r: RowModel| rs.contains(r) ==> qs.contains(r),
        conflict(rs) is Some,
    ensures
        conflict(qs) is Some,
{
    lemma_differing(rs, rs[0].ty);
    let r = choose|r: RowModel| rs.contains(r) && r.ty != rs[0].ty;
    assert(rs.contains(rs[0]));
    assert(qs.contains(r) && qs.contains(rs[0]));
    lemma_differing(qs, qs[0].ty);
}

/// The same declarations in another order name the same attributes and leave
/// the same conflicts.
proof fn lemma_conflicts_move(rs: Seq<RowModel>, qs: Seq<RowModel>)
    requires
        forall|r: RowModel| rs.contains(r) <==> qs.contains(r),
    ensures
        row_attrs(rs) == row_attrs(qs),
        conflicts(rs).dom() == conflicts(qs).dom(),
{
    assert forall|a: Seq<char>| rows_of(rs, a).len() > 0 <==> rows_of(qs, a).len() > 0 by {
        if rows_of(rs, a).len() > 0 {
            let r = rows_of(rs, a)[0];
            assert(rows_of(rs, a).contains(r));
            lemma_rows_of_contains(rs, a, r);
            lemma_rows_of_contains(qs, a, r);
        }
        if rows_of(qs, a).len() > 0 {
            let r = rows_of(qs, a)[0];
            assert(rows_of(qs, a).contains(r));
            lemma_rows_of_contains(rs, a, r);
            lemma_rows_of_contains(qs, a, r);
        }
    }
    assert(row_attrs(rs) =~= row_attrs(qs)) by {
        assert forall|a: Seq<char>| row_attrs(rs).contains(a) <==> row_attrs(qs).contains(a) by {
            lemma_rows_of(rs, a);
            lemma_rows_of(qs, a);
        }
    }
    assert forall|a: Seq<char>|
        (conflict(rows_of(rs, a)) is Some) == (conflict(rows_of(qs, a)) is Some) by {
        assert forall|r: RowModel| rows_of(rs, a).contains(r) <==> rows_of(qs, a).contains(r) by {
            lemma_rows_of_contains(rs, a, r);
            lemma_rows_of_contains(qs, a, r);
        }
        if conflict(rows_of(rs, a)) is Some {
            lemma_conflict_moves(rows_of(rs, a), rows_of(qs, a));
        }
        if conflict(rows_of(qs, a)) is Some {
            lemma_conflict_moves(rows_of(qs, a), rows_of(rs, a));
        }
    }
    assert(conflicts(rs).dom() =~= conflicts(qs).dom());
}

proof fn lemma_tabulated<V>(
    keys: Seq<Seq<char>>,
    g: spec_fn(Seq<char>) -> Option<V>,
    k: Seq<char>,
)
    ensures
        tabulate(keys, g).contains_key(k) == (keys.contains(k) && g(k) is Some),
        tabulate(keys, g).contains_key(k) ==> tabulate(keys, g)[k] == g(k)->0,
{
}

/// What two unions share where only the order of the schemas tells them apart:
/// the entities with their parents and attributes, which of them are abstract,
/// and which attributes the schemas disagree about.
pub open spec fn same_but_for_order(x: UnifiedModel, y: UnifiedModel) -> bool {
    &&& x.entity_parents.dom() == y.entity_parents.dom()
    &&& forall|e: Seq<char>| #[trigger]
        x.entity_parents.contains_key(e) ==> x.entity_parents[e].to_set()
            == y.entity_parents[e].to_set()
    &&& x.abstract_entities == y.abstract_entities
    &&& x.attr_conflicts.dom() == y.attr_conflicts.dom()
    &&& forall|e: Seq<char>| #[trigger]
        x.attr_conflicts.contains_key(e) ==> x.attr_conflicts[e].dom()
            == y.attr_conflicts[e].dom()
    &&& x.entity_attrs == y.entity_attrs
}

/// The union depends on which schemas there are: neither their order nor a
/// repetition changes more than the order of the parents and of what is
/// written first.
pub proof fn law_same_schemas_same_union(m: Seq<SchemaModel>, p: Seq<SchemaModel>)
    requires
        m.to_set() == p.to_set(),
    ensures
        same_but_for_order(union_of(m), union_of(p)),
{
    let x = union_of(m);
    let y = union_of(p);
    assert forall|s: SchemaModel| m.contains(s) <==> p.contains(s) by {
        assert(m.to_set().contains(s) == m.contains(s));
        assert(p.to_set().contains(s) == p.contains(s));
    }
    assert(declared(m) =~= declared(p)) by {
        assert forall|e: Seq<char>| declared(m).contains(e) <==> declared(p).contains(e) by {
            lemma_declared(m, e);
            lemma_declared(p, e);
            assert forall|s: SchemaModel| declares(m, s, e) <==> declares(p, s, e) by {}
        }
    }
    let es = ordered(declared(m));
    assert forall|e: Seq<char>| merged_parents(m, e).to_set() == merged_parents(p, e).to_set() by {
        assert forall|v: Seq<char>|
            merged_parents(m, e).contains(v) <==> merged_parents(p, e).contains(v) by {
            lemma_merged_parents(m, e, v);
            lemma_merged_parents(p, e, v);
            assert forall|s: SchemaModel| gives_parent(m, e, s, v) <==> gives_parent(p, e, s, v) by {}
        }
        assert(merged_parents(m, e).to_set() =~= merged_parents(p, e).to_set());
    }
    assert forall|e: Seq<char>| is_abstract(m, e) == is_abstract(p, e) by {
        if is_abstract(m, e) {
            let i = choose|i: int|
                0 <= i < m.len() && #[trigger] m[i].entities.contains_key(e)
                    && m[i].entities[e].is_abstract;
            assert(p.contains(m[i]));
            let j = choose|j: int| 0 <= j < p.len() && p[j] == m[i];
            assert(p[j].entities.contains_key(e));
        }
        if is_abstract(p, e) {
            let i = choose|i: int|
                0 <= i < p.len() && #[trigger] p[i].entities.contains_key(e)
                    && p[i].entities[e].is_abstract;
            assert(m.contains(p[i]));
            let j = choose|j: int| 0 <= j < m.len() && m[j] == p[i];
            assert(m[j].entities.contains_key(e));
        }
    }
    assert forall|e: Seq<char>|
        #![trigger rows(m, e)]
        row_attrs(rows(m, e)) == row_attrs(rows(p, e)) && conflicts(rows(m, e)).dom() == conflicts(
            rows(p, e),
        ).dom() && ((conflicts(rows(m, e)) == Map::<Seq<char>, Seq<Seq<char>>>::empty()) == (
        conflicts(rows(p, e)) == Map::<Seq<char>, Seq<Seq<char>>>::empty())) by {
        assert forall|r: RowModel| rows(m, e).contains(r) <==> rows(p, e).contains(r) by {
            lemma_rows(m, e, r);
            lemma_rows(p, e, r);
            assert forall|s: SchemaModel| gives_row(m, e, s, r) <==> gives_row(p, e, s, r) by {}
        }
        lemma_conflicts_move(rows(m, e), rows(p, e));
        let none = Map::<Seq<char>, Seq<Seq<char>>>::empty();
        if conflicts(rows(m, e)) == none {
            assert(conflicts(rows(p, e)) =~= none);
        }
        if conflicts(rows(p, e)) == none {
            assert(conflicts(rows(m, e)) =~= none);
        }
    }
    assert(x.entity_parents.dom() =~= y.entity_parents.dom());
    assert(x.abstract_entities =~= y.abstract_entities);
    let gm = |e: Seq<char>|
        if conflicts(rows(m, e)) == Map::<Seq<char>, Seq<Seq<char>>>::empty() {
            None
        } else {
            Some(conflicts(rows(m, e)))
        };
    let gp = |e: Seq<char>|
        if conflicts(rows(p, e)) == Map::<Seq<char>, Seq<Seq<char>>>::empty() {
            None
        } else {
            Some(conflicts(rows(p, e)))
        };
    assert(x.attr_conflicts == tabulate(es, gm));
    assert(y.attr_conflicts == tabulate(es, gp));
    assert forall|e: Seq<char>|
        (#[trigger] gm(e) is Some) == (gp(e) is Some) && (gm(e) is Some ==> gm(e)->0.dom() == gp(
            e,
        )->0.dom()) by {
        let rm = rows(m, e);
    }
    assert forall|e: Seq<char>| #[trigger]
        x.attr_conflicts.contains_key(e) implies x.attr_conflicts[e].dom()
        == y.attr_conflicts[e].dom() by {
        lemma_tabulated(es, gm, e);
        lemma_tabulated(es, gp, e);
        assert(gm(e) is Some);
    }
    assert forall|e: Seq<char>| #[trigger]
        x.attr_conflicts.contains_key(e) == y.attr_conflicts.contains_key(e) by {
        lemma_tabulated(es, gm, e);
        lemma_tabulated(es, gp, e);
        assert((gm(e) is Some) == (gp(e) is Some));
    }
    assert(x.attr_conflicts.dom() =~= y.attr_conflicts.dom());
    assert(x.entity_attrs =~= y.entity_attrs);
}

/// The order of the schemas does not matter for which entities there are, which
/// parents and attributes they have, which are abstract, and which attributes
/// are in conflict.
pub proof fn law_schema_order_does_not_matter(m: Seq<SchemaModel>, p: Seq<SchemaModel>)
    requires
        m.to_multiset() == p.to_multiset(),
    ensures
        same_but_for_order(union_of(m), union_of(p)),
{
    broadcast use vstd::seq_lib::group_to_multiset_ensures;

    assert forall|s: SchemaModel| m.contains(s) <==> p.contains(s) by {
        assert(m.contains(s) <==> m.to_multiset().count(s) > 0);
        assert(p.contains(s) <==> p.to_multiset().count(s) > 0);
    }
    assert(m.to_set() =~= p.to_set());
    law_same_schemas_same_union(m, p);
}

// ---------------------------------------------------------------------
// First declarations
// ---------------------------------------------------------------------

/// Each entity as the first schema that declares it has it.
pub open spec fn first_declared(m: Seq<SchemaModel>) -> Map<Seq<char>, EntityModel>
    decreases m.len(),
{
    if m.len() == 0 {
        Map::empty()
    } else {
        m.last().entities.union_prefer_right(first_declared(m.drop_last()))
    }
}

/// Each alias with what it stands for in the first schema that declares it.
pub open spec fn first_aliased(m: Seq<SchemaModel>) -> Map<Seq<char>, TypeModel>
    decreases m.len(),
{
    if m.len() == 0 {
        Map::empty()
    } else {
        m.last().types.map_values(|t: TypeDefModel| t.aliased).union_prefer_right(
            first_aliased(m.drop_last()),
        )
    }
}

fn add_missing_entities(out: &mut Table<EntitySchema>, t: &Table<EntitySchema>)
    ensures
        final(out)@ == t@.union_prefer_right(old(out)@),
{
    let ghost m0 = out@;
    let n = t.len();
    let ghost o = ordered(t@.dom());
    let ghost g = |k: Seq<char>| Some(t@[k]);
    let mut i: usize = 0;
    proof {
        lemma_tabulate_ends(o, g);
        assert(tabulate(o.take(0), g).union_prefer_right(m0) =~= m0);
    }
    while i < n
        invariant
            i <= n,
            n == o.len(),
            o == ordered(t@.dom()),
            t@.dom().finite(),
            g == (|k: Seq<char>| Some(t@[k])),
            out@ == tabulate(o.take(i as int), g).union_prefer_right(m0),
        decreases n - i,
    {
        proof {
            lemma_tabulate_next(o, i as int, g);
        }
        let k = t.key_at(i);
        if !out.contains_key(k.as_str()) {
            out.insert(k.clone(), t.value_at(i).duplicate());
        }
        assert(out@ =~= tabulate(o.take(i + 1), g).union_prefer_right(m0));
        i += 1;
    }
    proof {
        lemma_tabulate_ends(o, g);
        lemma_ordered(t@.dom());
        assert(tabulate(o, g) =~= t@);
    }
}

fn add_missing_aliases(out: &mut Table<AttrType>, t: &Table<TypeDef>)
    ensures
        final(out)@ == t@.map_values(|d: TypeDefModel| d.aliased).union_prefer_right(old(out)@),
{
    let ghost m0 = out@;
    let n = t.len();
    let ghost o = ordered(t@.dom());
    let ghost g = |k: Seq<char>| Some(t@[k].aliased);
    let mut i: usize = 0;
    proof {
        lemma_tabulate_ends(o, g);
        assert(tabulate(o.take(0), g).union_prefer_right(m0) =~= m0);
    }
    while i < n
        invariant
            i <= n,
            n == o.len(),
            o == ordered(t@.dom()),
            t@.dom().finite(),
            g == (|k: Seq<char>| Some(t@[k].aliased)),
            out@ == tabulate(o.take(i as int), g).union_prefer_right(m0),
        decreases n - i,
    {
        proof {
            lemma_tabulate_next(o, i as int, g);
        }
        let k = t.key_at(i);
        if !out.contains_key(k.as_str()) {
            out.insert(k.clone(), t.value_at(i).aliased.duplicate());
        }
        assert(out@ =~= tabulate(o.take(i + 1), g).union_prefer_right(m0));
        i += 1;
    }
    proof {
        lemma_tabulate_ends(o, g);
        lemma_ordered(t@.dom());
        assert(tabulate(o, g) =~= t@.map_values(|d: TypeDefModel| d.aliased));
    }
}

/// Collects the first declarations of the entities.
pub fn first_declarations(schemas: &Vec<&Schema>) -> (r: Table<EntitySchema>)
    ensures
        r@ == first_declared(listed_models(schemas@)),
{
    let ghost m = listed_models(schemas@);
    let mut out: Table<EntitySchema> = Table::new();
    let mut i: usize = 0;
    assert(m.take(0) =~= seq![]);
    while i < schemas.len()
        invariant
            i <= schemas@.len(),
            m == listed_models(schemas@),
            out@ == first_declared(m.take(i as int)),
        decreases schemas@.len() - i,
    {
        assert(m.take(i + 1).drop_last() =~= m.take(i as int));
        add_missing_entities(&mut out, &schemas[i].entities);
        i += 1;
    }
    assert(m.take(i as int) =~= m);
    out
}

/// Collects the first declarations of the aliases.
pub fn first_aliases(schemas: &Vec<&Schema>) -> (r: Table<AttrType>)
    ensures
        r@ == first_aliased(listed_models(schemas@)),
{
    let ghost m = listed_models(schemas@);
    let mut out: Table<AttrType> = Table::new();
    let mut i: usize = 0;
    assert(m.take(0) =~= seq![]);
    while i < schemas.len()
        invariant
            i <= schemas@.len(),
            m == listed_models(schemas@),
            out@ == first_aliased(m.take(i as int)),
        decreases schemas@.len() - i,
    {
        assert(m.take(i + 1).drop_last() =~= m.take(i as int));
        add_missing_aliases(&mut out, &schemas[i].types);
        i += 1;
    }
    assert(m.take(i as int) =~= m);
    out
}

} // verus!
