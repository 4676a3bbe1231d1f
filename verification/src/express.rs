//! EXPRESS schemas: the parsed form, and the reader for `ENTITY` and `TYPE`
//! blocks.

use crate::names::{Duplicate, Table};
use crate::text::clone_strings;
use vstd::prelude::*;

pub mod reader;
pub mod reader_laws;
pub mod supertype_parser;
pub mod type_laws;
pub mod type_parser;

pub use reader::{parse_express, source_label};
pub use type_parser::parse_type_repr;

verus! {

/// Tree of a `SUPERTYPE OF` expression. Anonymous composition nodes are kept;
/// they have no entity name of their own.
#[derive(Debug, PartialEq, Eq)]
pub enum SupertypeExpr {
    /// Bare entity reference.
    Entity { name: String },
    /// `ONEOF (a, b, ...)`: exactly one of the children.
    OneOf { children: Vec<SupertypeExpr> },
    /// `a ANDOR b ANDOR c`: at least one of the children.
    AndOr { children: Vec<SupertypeExpr> },
    /// `a AND b AND c`: all of the children.
    And { children: Vec<SupertypeExpr> },
}

/// What a `SupertypeExpr` stands for.
pub enum SuperModel {
    Entity(Seq<char>),
    OneOf(Seq<SuperModel>),
    AndOr(Seq<SuperModel>),
    And(Seq<SuperModel>),
}

impl SupertypeExpr {
    pub open spec fn view(&self) -> SuperModel
        decreases self,
    {
        match self {
            SupertypeExpr::Entity { name } => SuperModel::Entity(name@),
            SupertypeExpr::OneOf { children } => SuperModel::OneOf(
                Seq::new(
                    children@.len(),
                    |i: int|
                        if 0 <= i < children@.len() {
                            children@[i].view()
                        } else {
                            arbitrary()
                        },
                ),
            ),
            SupertypeExpr::AndOr { children } => SuperModel::AndOr(
                Seq::new(
                    children@.len(),
                    |i: int|
                        if 0 <= i < children@.len() {
                            children@[i].view()
                        } else {
                            arbitrary()
                        },
                ),
            ),
            SupertypeExpr::And { children } => SuperModel::And(
                Seq::new(
                    children@.len(),
                    |i: int|
                        if 0 <= i < children@.len() {
                            children@[i].view()
                        } else {
                            arbitrary()
                        },
                ),
            ),
        }
    }
}

impl DeepView for SupertypeExpr {
    type V = SuperModel;

    open spec fn deep_view(&self) -> SuperModel {
        self.view()
    }
}

/// The children of a composition node mirror those of the parsed node.
pub proof fn lemma_super_view(e: SupertypeExpr)
    ensures
        e matches SupertypeExpr::OneOf { children } ==> e.view() == SuperModel::OneOf(
            children.deep_view(),
        ),
        e matches SupertypeExpr::AndOr { children } ==> e.view() == SuperModel::AndOr(
            children.deep_view(),
        ),
        e matches SupertypeExpr::And { children } ==> e.view() == SuperModel::And(
            children.deep_view(),
        ),
{
    match e {
        SupertypeExpr::Entity { name } => {},
        SupertypeExpr::OneOf { children } => {
            assert(e.view()->OneOf_0 =~= children.deep_view());
        },
        SupertypeExpr::AndOr { children } => {
            assert(e.view()->AndOr_0 =~= children.deep_view());
        },
        SupertypeExpr::And { children } => {
            assert(e.view()->And_0 =~= children.deep_view());
        },
    }
}

fn copy_super_list(v: &Vec<SupertypeExpr>) -> (r: Vec<SupertypeExpr>)
    ensures
        r.deep_view() == v.deep_view(),
    decreases v,
{
    let mut r: Vec<SupertypeExpr> = Vec::new();
    let mut i: usize = 0;
    while i < v.len()
        invariant
            i <= v@.len(),
            r@.len() == i,
            forall|j: int| 0 <= j < i ==> #[trigger] r@[j].deep_view() == v@[j].deep_view(),
        decreases v@.len() - i,
    {
        r.push(copy_super(&v[i]));
        i += 1;
    }
    assert(r.deep_view() =~= v.deep_view());
    r
}

fn copy_super(e: &SupertypeExpr) -> (r: SupertypeExpr)
    ensures
        r.view() == e.view(),
    decreases e,
{
    proof {
        lemma_super_view(*e);
    }
    let r = match e {
        SupertypeExpr::Entity { name } => SupertypeExpr::Entity { name: name.clone() },
        SupertypeExpr::OneOf { children } => SupertypeExpr::OneOf {
            children: copy_super_list(children),
        },
        SupertypeExpr::AndOr { children } => SupertypeExpr::AndOr {
            children: copy_super_list(children),
        },
        SupertypeExpr::And { children } => SupertypeExpr::And {
            children: copy_super_list(children),
        },
    };
    proof {
        lemma_super_view(r);
    }
    r
}

impl Duplicate for SupertypeExpr {
    fn duplicate(&self) -> Self {
        copy_super(self)
    }
}

impl Clone for SupertypeExpr {
    fn clone(&self) -> (r: Self)
        ensures
            r.view() == self.view(),
    {
        copy_super(self)
    }
}

// ---------------------------------------------------------------------
// Attribute types
// ---------------------------------------------------------------------

/// Type of an attribute or of a `TYPE` alias. Bounds and the modifiers inside
/// aggregations are dropped.
#[derive(Debug, PartialEq, Eq)]
pub enum AttrType {
    /// An entity name or the name of a `TYPE` alias.
    Entity(String),
    /// `LIST [n:m] OF X`.
    List(Box<AttrType>),
    /// `SET [n:m] OF X`.
    SetOf(Box<AttrType>),
    /// `BAG [n:m] OF X`.
    Bag(Box<AttrType>),
    /// `ARRAY [n:m] OF X`.
    Array(Box<AttrType>),
    /// `OPTIONAL X`.
    Optional(Box<AttrType>),
    /// `SELECT (a, b, c)`: polymorphic over the listed names.
    Select(Vec<String>),
    /// `ENUMERATION OF (a, b, c)`: named values.
    Enumeration(Vec<String>),
    /// The canonical name of a primitive; sized forms collapse to it.
    Primitive(String),
}

/// What an `AttrType` stands for.
pub enum TypeModel {
    Entity(Seq<char>),
    List(Box<TypeModel>),
    SetOf(Box<TypeModel>),
    Bag(Box<TypeModel>),
    Array(Box<TypeModel>),
    Optional(Box<TypeModel>),
    Select(Seq<Seq<char>>),
    Enumeration(Seq<Seq<char>>),
    Primitive(Seq<char>),
}

impl AttrType {
    pub open spec fn view(&self) -> TypeModel
        decreases self,
    {
        match self {
            AttrType::Entity(n) => TypeModel::Entity(n@),
            AttrType::List(t) => TypeModel::List(Box::new((*t).view())),
            AttrType::SetOf(t) => TypeModel::SetOf(Box::new((*t).view())),
            AttrType::Bag(t) => TypeModel::Bag(Box::new((*t).view())),
            AttrType::Array(t) => TypeModel::Array(Box::new((*t).view())),
            AttrType::Optional(t) => TypeModel::Optional(Box::new((*t).view())),
            AttrType::Select(v) => TypeModel::Select(v.deep_view()),
            AttrType::Enumeration(v) => TypeModel::Enumeration(v.deep_view()),
            AttrType::Primitive(n) => TypeModel::Primitive(n@),
        }
    }
}

impl DeepView for AttrType {
    type V = TypeModel;

    open spec fn deep_view(&self) -> TypeModel {
        self.view()
    }
}

fn copy_type(t: &AttrType) -> (r: AttrType)
    ensures
        r.view() == t.view(),
    decreases t,
{
    match t {
        AttrType::Entity(n) => AttrType::Entity(n.clone()),
        AttrType::List(x) => AttrType::List(Box::new(copy_type(x))),
        AttrType::SetOf(x) => AttrType::SetOf(Box::new(copy_type(x))),
        AttrType::Bag(x) => AttrType::Bag(Box::new(copy_type(x))),
        AttrType::Array(x) => AttrType::Array(Box::new(copy_type(x))),
        AttrType::Optional(x) => AttrType::Optional(Box::new(copy_type(x))),
        AttrType::Select(v) => AttrType::Select(clone_strings(v)),
        AttrType::Enumeration(v) => AttrType::Enumeration(clone_strings(v)),
        AttrType::Primitive(n) => AttrType::Primitive(n.clone()),
    }
}

impl Duplicate for AttrType {
    fn duplicate(&self) -> Self {
        copy_type(self)
    }
}

impl Clone for AttrType {
    fn clone(&self) -> (r: Self)
        ensures
            r.view() == self.view(),
    {
        copy_type(self)
    }
}

#[derive(Debug)]
pub struct AttrSpec {
    /// Lower-case attribute name.
    pub name: String,
    /// Right-hand side of the colon, parsed.
    pub ty: AttrType,
}

/// What an `AttrSpec` stands for.
pub struct AttrModel {
    pub name: Seq<char>,
    pub ty: TypeModel,
}

impl AttrSpec {
    pub open spec fn view(&self) -> AttrModel {
        AttrModel { name: self.name@, ty: self.ty.view() }
    }
}

impl DeepView for AttrSpec {
    type V = AttrModel;

    open spec fn deep_view(&self) -> AttrModel {
        self.view()
    }
}

impl Duplicate for AttrSpec {
    fn duplicate(&self) -> Self {
        AttrSpec { name: self.name.clone(), ty: copy_type(&self.ty) }
    }
}

impl Clone for AttrSpec {
    fn clone(&self) -> (r: Self)
        ensures
            r.view() == self.view(),
    {
        self.duplicate()
    }
}

/// One `DERIVE` target. `super_qual` is the supertype of a `SELF\\super.attr`
/// form; `None` for a plain derived attribute of the entity itself.
#[derive(Debug, PartialEq)]
pub struct DerivedTarget {
    pub super_qual: Option<String>,
    pub name: String,
}

/// What a `DerivedTarget` stands for.
pub struct DerivedModel {
    pub super_qual: Option<Seq<char>>,
    pub name: Seq<char>,
}

impl DerivedTarget {
    pub open spec fn view(&self) -> DerivedModel {
        DerivedModel { super_qual: self.super_qual.deep_view(), name: self.name@ }
    }
}

impl DeepView for DerivedTarget {
    type V = DerivedModel;

    open spec fn deep_view(&self) -> DerivedModel {
        self.view()
    }
}

impl Duplicate for DerivedTarget {
    fn duplicate(&self) -> Self {
        DerivedTarget { super_qual: self.super_qual.duplicate(), name: self.name.clone() }
    }
}

impl Clone for DerivedTarget {
    fn clone(&self) -> (r: Self)
        ensures
            r.view() == self.view(),
    {
        self.duplicate()
    }
}

#[derive(Debug)]
pub struct TypeDef {
    /// Lower-case alias name.
    pub name: String,
    /// What the alias stands for, one step only.
    pub aliased: AttrType,
}

/// What a `TypeDef` stands for.
pub struct TypeDefModel {
    pub name: Seq<char>,
    pub aliased: TypeModel,
}

impl TypeDef {
    pub open spec fn view(&self) -> TypeDefModel {
        TypeDefModel { name: self.name@, aliased: self.aliased.view() }
    }
}

impl DeepView for TypeDef {
    type V = TypeDefModel;

    open spec fn deep_view(&self) -> TypeDefModel {
        self.view()
    }
}

impl Duplicate for TypeDef {
    fn duplicate(&self) -> Self {
        TypeDef { name: self.name.clone(), aliased: copy_type(&self.aliased) }
    }
}

impl Clone for TypeDef {
    fn clone(&self) -> (r: Self)
        ensures
            r.view() == self.view(),
    {
        self.duplicate()
    }
}

#[derive(Debug)]
pub struct EntitySchema {
    /// Lower-case entity name.
    pub name: String,
    /// Direct parents from `SUBTYPE OF (a, b)`, in declaration order.
    pub parents: Vec<String>,
    /// Attributes declared in this entity, not the inherited ones.
    pub own_attrs: Vec<AttrSpec>,
    /// `SELF\\supertype.attr : type`: an inherited attribute with a narrower
    /// type.
    pub redeclared_attrs: Vec<AttrSpec>,
    /// `ABSTRACT SUPERTYPE` flag.
    pub is_abstract: bool,
    /// The `SUPERTYPE OF (...)` clause, if there is one that parses.
    pub supertype_expr: Option<SupertypeExpr>,
    /// `DERIVE` targets.
    pub derived_attrs: Vec<DerivedTarget>,
}

/// What an `EntitySchema` stands for.
pub struct EntityModel {
    pub name: Seq<char>,
    pub parents: Seq<Seq<char>>,
    pub own_attrs: Seq<AttrModel>,
    pub redeclared_attrs: Seq<AttrModel>,
    pub is_abstract: bool,
    pub supertype_expr: Option<SuperModel>,
    pub derived_attrs: Seq<DerivedModel>,
}

impl EntitySchema {
    pub open spec fn view(&self) -> EntityModel {
        EntityModel {
            name: self.name@,
            parents: self.parents.deep_view(),
            own_attrs: self.own_attrs.deep_view(),
            redeclared_attrs: self.redeclared_attrs.deep_view(),
            is_abstract: self.is_abstract,
            supertype_expr: self.supertype_expr.deep_view(),
            derived_attrs: self.derived_attrs.deep_view(),
        }
    }
}

impl DeepView for EntitySchema {
    type V = EntityModel;

    open spec fn deep_view(&self) -> EntityModel {
        self.view()
    }
}

impl Duplicate for EntitySchema {
    fn duplicate(&self) -> Self {
        EntitySchema {
            name: self.name.clone(),
            parents: self.parents.duplicate(),
            own_attrs: self.own_attrs.duplicate(),
            redeclared_attrs: self.redeclared_attrs.duplicate(),
            is_abstract: self.is_abstract,
            supertype_expr: self.supertype_expr.duplicate(),
            derived_attrs: self.derived_attrs.duplicate(),
        }
    }
}

impl Clone for EntitySchema {
    fn clone(&self) -> (r: Self)
        ensures
            r.view() == self.view(),
    {
        self.duplicate()
    }
}

/// A parsed schema file.
pub struct Schema {
    pub source_label: String,
    pub entities: Table<EntitySchema>,
    pub types: Table<TypeDef>,
    /// Complaints about blocks that were seen but not extracted.
    pub parse_warnings: Vec<String>,
}

/// What a `Schema` stands for.
pub struct SchemaModel {
    pub source_label: Seq<char>,
    pub entities: Map<Seq<char>, EntityModel>,
    pub types: Map<Seq<char>, TypeDefModel>,
    pub parse_warnings: Seq<Seq<char>>,
}

impl Schema {
    pub open spec fn view(&self) -> SchemaModel {
        SchemaModel {
            source_label: self.source_label@,
            entities: self.entities@,
            types: self.types@,
            parse_warnings: self.parse_warnings.deep_view(),
        }
    }
}

impl DeepView for Schema {
    type V = SchemaModel;

    open spec fn deep_view(&self) -> SchemaModel {
        self.view()
    }
}

impl Duplicate for Schema {
    fn duplicate(&self) -> Self {
        Schema {
            source_label: self.source_label.clone(),
            entities: self.entities.duplicate(),
            types: self.types.duplicate(),
            parse_warnings: self.parse_warnings.duplicate(),
        }
    }
}

} // verus!
