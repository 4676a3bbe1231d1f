//! Classification of the entities.
//!
//! Two passes over the inheritance graph. Leaves to roots, supertypes get
//! their kind; roots to leaves, the remaining entities get theirs. A
//! `MergedInto` entity is transparent: what is said of parents and children
//! looks through it.

use crate::chains::{
    chain_at, chain_end, chain_len, chain_names, chain_so_far, lemma_chain_done, lemma_chain_ends,
    lemma_chain_step, Step,
};
use crate::express::{lemma_super_view, AttrType, SuperModel, SupertypeExpr};
use crate::graph::Graph;
use crate::infer::hierarchy::{
    above, acyclic, build_descendant_index, climb_all, concrete_descendants, descendant_index,
    descendants_of, law_children_mirror_parents, law_every_ancestor_comes_first,
    law_order_is_complete, law_upward_chain_goes_up, lemma_above_through, lemma_nodes_finite,
    lemma_parent_above, nodes, nodes_among, noted, plain_parents, topological, topological_order,
    upward_chain,
};
use crate::infer::io::{PendingFile, PendingStats};
use crate::infer::overrides::{unknown_keys, validate_known, OverrideFile};
use crate::infer::refgraph::{EdgeModel, RefTarget, TargetModel, UnifiedModel, UnifiedSchema};
use crate::infer::{Unresolved, UnresolvedModel};
use crate::names::{
    append_items, capped, lemma_ordered, listed, ordered, push_item, Duplicate, NameSet, Table,
};
use crate::text::{join, join3, join_all, joined, quote, quoted, same};
use vstd::prelude::*;
use vstd::string::*;

verus! {

broadcast use vstd::string::group_string_axioms;

// ---------------------------------------------------------------------
// Kinds
// ---------------------------------------------------------------------

/// A member of a `CompositeOneOf` that is not a bare entity.
#[derive(Debug, PartialEq, Eq)]
pub enum CompositeMember {
    /// At least one of the children.
    AndOr { children: Vec<String> },
    /// All children at once.
    And { children: Vec<String> },
}

/// What a `CompositeMember` stands for.
pub enum MemberModel {
    AndOr(Seq<Seq<char>>),
    And(Seq<Seq<char>>),
}

impl CompositeMember {
    pub open spec fn view(&self) -> MemberModel {
        match self {
            CompositeMember::AndOr { children } => MemberModel::AndOr(children.deep_view()),
            CompositeMember::And { children } => MemberModel::And(children.deep_view()),
        }
    }
}

impl DeepView for CompositeMember {
    type V = MemberModel;

    open spec fn deep_view(&self) -> MemberModel {
        self.view()
    }
}

impl Duplicate for CompositeMember {
    fn duplicate(&self) -> Self {
        match self {
            CompositeMember::AndOr { children } => CompositeMember::AndOr {
                children: children.duplicate(),
            },
            CompositeMember::And { children } => CompositeMember::And {
                children: children.duplicate(),
            },
        }
    }
}

impl Clone for CompositeMember {
    fn clone(&self) -> (r: Self)
        ensures
            r.view() == self.view(),
    {
        self.duplicate()
    }
}

/// The kind of an entity.
#[derive(Debug, PartialEq, Eq)]
pub enum VariantSpec {
    /// An entity with a struct of its own.
    SingleStruct,
    /// A member of the enum of `enum_name`.
    InEnum { enum_name: String },
    /// Folded into the struct of its parent as an optional field.
    NestedField { into: String, as_field: String, added_attr_count: usize },
    /// A supertype that is an enum over its children.
    EnumBase { enum_name: String },
    /// A wrapper around one descendant; `chain` holds the wrappers between.
    MergedInto { target: String, chain: Vec<String> },
    /// A `ONEOF` next to a mixin.
    ComplexSupertype { mixin_pattern: String, oneof_children: Vec<String>, mixin: SupertypeExpr },
    /// A `ONEOF` some of whose members are compositions.
    CompositeOneOf {
        simple_alternatives: Vec<String>,
        composite_alternatives: Vec<CompositeMember>,
    },
    /// A struct that is also the enum over its children, without a
    /// `SUPERTYPE OF` clause.
    ConcreteSupertype,
}

/// What a `VariantSpec` stands for.
pub enum SpecModel {
    SingleStruct,
    InEnum { enum_name: Seq<char> },
    NestedField { into: Seq<char>, as_field: Seq<char>, added_attr_count: usize },
    EnumBase { enum_name: Seq<char> },
    MergedInto { target: Seq<char>, chain: Seq<Seq<char>> },
    ComplexSupertype {
        mixin_pattern: Seq<char>,
        oneof_children: Seq<Seq<char>>,
        mixin: SuperModel,
    },
    CompositeOneOf {
        simple_alternatives: Seq<Seq<char>>,
        composite_alternatives: Seq<MemberModel>,
    },
    ConcreteSupertype,
}

impl VariantSpec {
    pub open spec fn view(&self) -> SpecModel {
        match self {
            VariantSpec::SingleStruct => SpecModel::SingleStruct,
            VariantSpec::InEnum { enum_name } => SpecModel::InEnum { enum_name: enum_name@ },
            VariantSpec::NestedField { into, as_field, added_attr_count } => {
                SpecModel::NestedField {
                    into: into@,
                    as_field: as_field@,
                    added_attr_count: *added_attr_count,
                }
            },
            VariantSpec::EnumBase { enum_name } => SpecModel::EnumBase { enum_name: enum_name@ },
            VariantSpec::MergedInto { target, chain } => SpecModel::MergedInto {
                target: target@,
                chain: chain.deep_view(),
            },
            VariantSpec::ComplexSupertype { mixin_pattern, oneof_children, mixin } => {
                SpecModel::ComplexSupertype {
                    mixin_pattern: mixin_pattern@,
                    oneof_children: oneof_children.deep_view(),
                    mixin: mixin.view(),
                }
            },
            VariantSpec::CompositeOneOf { simple_alternatives, composite_alternatives } => {
                SpecModel::CompositeOneOf {
                    simple_alternatives: simple_alternatives.deep_view(),
                    composite_alternatives: composite_alternatives.deep_view(),
                }
            },
            VariantSpec::ConcreteSupertype => SpecModel::ConcreteSupertype,
        }
    }
}

impl DeepView for VariantSpec {
    type V = SpecModel;

    open spec fn deep_view(&self) -> SpecModel {
        self.view()
    }
}

impl Duplicate for VariantSpec {
    fn duplicate(&self) -> Self {
        match self {
            VariantSpec::SingleStruct => VariantSpec::SingleStruct,
            VariantSpec::InEnum { enum_name } => VariantSpec::InEnum {
                enum_name: enum_name.clone(),
            },
            VariantSpec::NestedField { into, as_field, added_attr_count } => {
                VariantSpec::NestedField {
                    into: into.clone(),
                    as_field: as_field.clone(),
                    added_attr_count: *added_attr_count,
                }
            },
            VariantSpec::EnumBase { enum_name } => VariantSpec::EnumBase {
                enum_name: enum_name.clone(),
            },
            VariantSpec::MergedInto { target, chain } => VariantSpec::MergedInto {
                target: target.clone(),
                chain: chain.duplicate(),
            },
            VariantSpec::ComplexSupertype { mixin_pattern, oneof_children, mixin } => {
                VariantSpec::ComplexSupertype {
                    mixin_pattern: mixin_pattern.clone(),
                    oneof_children: oneof_children.duplicate(),
                    mixin: mixin.duplicate(),
                }
            },
            VariantSpec::CompositeOneOf { simple_alternatives, composite_alternatives } => {
                VariantSpec::CompositeOneOf {
                    simple_alternatives: simple_alternatives.duplicate(),
                    composite_alternatives: composite_alternatives.duplicate(),
                }
            },
            VariantSpec::ConcreteSupertype => VariantSpec::ConcreteSupertype,
        }
    }
}

impl Clone for VariantSpec {
    fn clone(&self) -> (r: Self)
        ensures
            r.view() == self.view(),
    {
        self.duplicate()
    }
}

/// An explicit decision, with an optional reason. Each form decides for the
/// kind of the same name.
#[derive(Debug)]
pub enum VariantOverride {
    SingleStruct { reason: Option<String> },
    InEnum { enum_name: String, reason: Option<String> },
    NestedField {
        into: String,
        as_field: String,
        added_attr_count: usize,
        reason: Option<String>,
    },
    EnumBase { enum_name: String, reason: Option<String> },
    MergedInto { target: String, chain: Vec<String>, reason: Option<String> },
    ComplexSupertype {
        mixin_pattern: String,
        oneof_children: Vec<String>,
        mixin: SupertypeExpr,
        reason: Option<String>,
    },
    CompositeOneOf {
        simple_alternatives: Vec<String>,
        composite_alternatives: Vec<CompositeMember>,
        reason: Option<String>,
    },
    ConcreteSupertype { reason: Option<String> },
}

/// The kind that an override decides for.
pub open spec fn decided(o: VariantOverride) -> VariantSpec {
    match o {
        VariantOverride::SingleStruct { reason } => VariantSpec::SingleStruct,
        VariantOverride::InEnum { enum_name, reason } => VariantSpec::InEnum { enum_name },
        VariantOverride::NestedField { into, as_field, added_attr_count, reason } => {
            VariantSpec::NestedField { into, as_field, added_attr_count }
        },
        VariantOverride::EnumBase { enum_name, reason } => VariantSpec::EnumBase { enum_name },
        VariantOverride::MergedInto { target, chain, reason } => VariantSpec::MergedInto {
            target,
            chain,
        },
        VariantOverride::ComplexSupertype { mixin_pattern, oneof_children, mixin, reason } => {
            VariantSpec::ComplexSupertype { mixin_pattern, oneof_children, mixin }
        },
        VariantOverride::CompositeOneOf {
            simple_alternatives,
            composite_alternatives,
            reason,
        } => VariantSpec::CompositeOneOf { simple_alternatives, composite_alternatives },
        VariantOverride::ConcreteSupertype { reason } => VariantSpec::ConcreteSupertype,
    }
}

impl From<VariantOverride> for VariantSpec {
    fn from(o: VariantOverride) -> (r: Self) {
        match o {
            VariantOverride::SingleStruct { .. } => VariantSpec::SingleStruct,
            VariantOverride::InEnum { enum_name, .. } => VariantSpec::InEnum { enum_name },
            VariantOverride::NestedField { into, as_field, added_attr_count, .. } => {
                VariantSpec::NestedField { into, as_field, added_attr_count }
            },
            VariantOverride::EnumBase { enum_name, .. } => VariantSpec::EnumBase { enum_name },
            VariantOverride::MergedInto { target, chain, .. } => VariantSpec::MergedInto {
                target,
                chain,
            },
            VariantOverride::ComplexSupertype { mixin_pattern, oneof_children, mixin, .. } => {
                VariantSpec::ComplexSupertype { mixin_pattern, oneof_children, mixin }
            },
            VariantOverride::CompositeOneOf {
                simple_alternatives,
                composite_alternatives,
                ..
            } => VariantSpec::CompositeOneOf { simple_alternatives, composite_alternatives },
            VariantOverride::ConcreteSupertype { .. } => VariantSpec::ConcreteSupertype,
        }
    }
}

impl vstd::std_specs::convert::FromSpecImpl<VariantOverride> for VariantSpec {
    open spec fn obeys_from_spec() -> bool {
        true
    }

    open spec fn from_spec(o: VariantOverride) -> VariantSpec {
        decided(o)
    }
}

impl DeepView for VariantOverride {
    type V = SpecModel;

    open spec fn deep_view(&self) -> SpecModel {
        decided(*self).view()
    }
}

impl Duplicate for VariantOverride {
    fn duplicate(&self) -> Self {
        match self {
            VariantOverride::SingleStruct { reason } => VariantOverride::SingleStruct {
                reason: reason.duplicate(),
            },
            VariantOverride::InEnum { enum_name, reason } => VariantOverride::InEnum {
                enum_name: enum_name.clone(),
                reason: reason.duplicate(),
            },
            VariantOverride::NestedField { into, as_field, added_attr_count, reason } => {
                VariantOverride::NestedField {
                    into: into.clone(),
                    as_field: as_field.clone(),
                    added_attr_count: *added_attr_count,
                    reason: reason.duplicate(),
                }
            },
            VariantOverride::EnumBase { enum_name, reason } => VariantOverride::EnumBase {
                enum_name: enum_name.clone(),
                reason: reason.duplicate(),
            },
            VariantOverride::MergedInto { target, chain, reason } => VariantOverride::MergedInto {
                target: target.clone(),
                chain: chain.duplicate(),
                reason: reason.duplicate(),
            },
            VariantOverride::ComplexSupertype {
                mixin_pattern,
                oneof_children,
                mixin,
                reason,
            } => VariantOverride::ComplexSupertype {
                mixin_pattern: mixin_pattern.clone(),
                oneof_children: oneof_children.duplicate(),
                mixin: mixin.duplicate(),
                reason: reason.duplicate(),
            },
            VariantOverride::CompositeOneOf {
                simple_alternatives,
                composite_alternatives,
                reason,
            } => VariantOverride::CompositeOneOf {
                simple_alternatives: simple_alternatives.duplicate(),
                composite_alternatives: composite_alternatives.duplicate(),
                reason: reason.duplicate(),
            },
            VariantOverride::ConcreteSupertype { reason } => VariantOverride::ConcreteSupertype {
                reason: reason.duplicate(),
            },
        }
    }
}

/// The decisions so far.
pub type Decisions = Map<Seq<char>, SpecModel>;

// ---------------------------------------------------------------------
// Shapes of supertype expressions
// ---------------------------------------------------------------------

/// The names, if all members are bare entities.
pub open spec fn bare_names(c: Seq<SuperModel>) -> Option<Seq<Seq<char>>> {
    if forall|i: int| 0 <= i < c.len() ==> #[trigger] c[i] is Entity {
        Some(Seq::new(c.len(), |i: int| c[i]->Entity_0))
    } else {
        None
    }
}

fn entity_names(c: &Vec<SupertypeExpr>) -> (r: Option<Vec<String>>)
    ensures
        r.deep_view() == bare_names(c.deep_view()),
{
    let ghost all = c.deep_view();
    let mut out: Vec<String> = Vec::new();
    let mut i: usize = 0;
    while i < c.len()
        invariant
            i <= c@.len(),
            all == c.deep_view(),
            all.len() == c@.len(),
            out@.len() == i,
            forall|j: int|
                0 <= j < i ==> #[trigger] all[j] is Entity && out@[j]@ == all[j]->Entity_0,
        decreases c@.len() - i,
    {
        assert(all[i as int] == c@[i as int].view());
        match &c[i] {
            SupertypeExpr::Entity { name } => {
                out.push(name.clone());
            },
            _ => {
                assert(!(all[i as int] is Entity));
                return None;
            },
        }
        i += 1;
    }
    assert(out.deep_view() =~= Seq::new(all.len(), |i: int| all[i]->Entity_0));
    Some(out)
}

/// `ONEOF` of bare entities next to a mixin.
pub open spec fn complex_parts(c: Seq<SuperModel>, pattern: Seq<char>) -> Option<SpecModel> {
    if c.len() != 2 || !(c[0] is Entity || c[0] is OneOf) || !(c[1] is Entity || c[1] is OneOf) {
        None
    } else {
        let at: int = if c[0] is OneOf {
            0
        } else {
            1
        };
        if !(c[at] is OneOf) {
            None
        } else {
            match bare_names(c[at]->OneOf_0) {
                Some(names) => Some(
                    SpecModel::ComplexSupertype {
                        mixin_pattern: pattern,
                        oneof_children: names,
                        mixin: c[1 - at],
                    },
                ),
                None => None,
            }
        }
    }
}

/// Two members joined by `ANDOR` or `AND`, each an entity or a `ONEOF`: the
/// first `ONEOF`, of bare entities, and the other member as mixin.
pub open spec fn complex_supertype(x: SuperModel) -> Option<SpecModel> {
    match x {
        SuperModel::AndOr(c) => complex_parts(c, "andor"@),
        SuperModel::And(c) => complex_parts(c, "and"@),
        _ => None,
    }
}

fn complex_from(children: &Vec<SupertypeExpr>, pattern: &str) -> (r: Option<VariantSpec>)
    ensures
        r.deep_view() == complex_parts(children.deep_view(), pattern@),
{
    let ghost c = children.deep_view();
    if children.len() != 2 {
        return None;
    }
    proof {
        assert(c[0] == children@[0].view());
        assert(c[1] == children@[1].view());
        lemma_super_view(children@[0]);
        lemma_super_view(children@[1]);
    }
    let plain0 = matches!(&children[0], SupertypeExpr::Entity { .. } | SupertypeExpr::OneOf { .. });
    let plain1 = matches!(&children[1], SupertypeExpr::Entity { .. } | SupertypeExpr::OneOf { .. });
    if !plain0 || !plain1 {
        return None;
    }
    let at: usize = if matches!(&children[0], SupertypeExpr::OneOf { .. }) {
        0
    } else {
        1
    };
    match &children[at] {
        SupertypeExpr::OneOf { children: items } => match entity_names(items) {
            Some(oneof_children) => Some(
                VariantSpec::ComplexSupertype {
                    mixin_pattern: pattern.to_owned(),
                    oneof_children,
                    mixin: children[1 - at].duplicate(),
                },
            ),
            None => None,
        },
        _ => None,
    }
}

pub fn classify_complex_supertype(x: &SupertypeExpr) -> (r: Option<VariantSpec>)
    ensures
        r.deep_view() == complex_supertype(x.view()),
{
    proof {
        lemma_super_view(*x);
    }
    match x {
        SupertypeExpr::AndOr { children } => complex_from(children, "andor"),
        SupertypeExpr::And { children } => complex_from(children, "and"),
        _ => None,
    }
}

/// The members of a `ONEOF`: the bare entities and the compositions of bare
/// entities. `None` where a member is something else.
pub open spec fn oneof_members(c: Seq<SuperModel>) -> Option<(Seq<Seq<char>>, Seq<MemberModel>)>
    decreases c.len(),
{
    if c.len() == 0 {
        Some((seq![], seq![]))
    } else {
        match oneof_members(c.drop_last()) {
            None => None,
            Some((simple, composite)) => match c.last() {
                SuperModel::Entity(n) => Some((simple.push(n), composite)),
                SuperModel::AndOr(parts) => match bare_names(parts) {
                    Some(names) => Some((simple, composite.push(MemberModel::AndOr(names)))),
                    None => None,
                },
                SuperModel::And(parts) => match bare_names(parts) {
                    Some(names) => Some((simple, composite.push(MemberModel::And(names)))),
                    None => None,
                },
                SuperModel::OneOf(parts) => None,
            },
        }
    }
}

proof fn lemma_oneof_members_prefix(c: Seq<SuperModel>, k: int)
    requires
        0 <= k <= c.len(),
        oneof_members(c.take(k)) is None,
    ensures
        oneof_members(c) is None,
    decreases c.len(),
{
    if k < c.len() {
        assert(c.drop_last().take(k) =~= c.take(k));
        lemma_oneof_members_prefix(c.drop_last(), k);
    } else {
        assert(c.take(k) =~= c);
    }
}

/// A `ONEOF` with at least one composition among its members.
pub open spec fn composite_oneof(x: SuperModel) -> Option<SpecModel> {
    match x {
        SuperModel::OneOf(c) => match oneof_members(c) {
            Some((simple, composite)) => if composite.len() == 0 {
                None
            } else {
                Some(
                    SpecModel::CompositeOneOf {
                        simple_alternatives: simple,
                        composite_alternatives: composite,
                    },
                )
            },
            None => None,
        },
        _ => None,
    }
}

pub fn classify_composite_oneof(x: &SupertypeExpr) -> (r: Option<VariantSpec>)
    ensures
        r.deep_view() == composite_oneof(x.view()),
{
    proof {
        lemma_super_view(*x);
    }
    let children = match x {
        SupertypeExpr::OneOf { children } => children,
        _ => {
            return None;
        },
    };
    let ghost c = children.deep_view();
    let mut simple: Vec<String> = Vec::new();
    let mut composite: Vec<CompositeMember> = Vec::new();
    let mut i: usize = 0;
    proof {
        assert(c.take(0) =~= seq![]);
        assert(simple.deep_view() =~= seq![]);
        assert(composite.deep_view() =~= seq![]);
    }
    while i < children.len()
        invariant
            i <= children@.len(),
            c == children.deep_view(),
            c.len() == children@.len(),
            x.view() == SuperModel::OneOf(c),
            oneof_members(c.take(i as int)) == Some((simple.deep_view(), composite.deep_view())),
        decreases children@.len() - i,
    {
        proof {
            assert(c.take(i + 1).drop_last() =~= c.take(i as int));
            assert(c.take(i + 1).last() == children@[i as int].view());
            lemma_super_view(children@[i as int]);
            if oneof_members(c.take(i + 1)) is None {
                lemma_oneof_members_prefix(c, i + 1);
            }
        }
        match &children[i] {
            SupertypeExpr::Entity { name } => {
                push_item(&mut simple, name.clone());
            },
            SupertypeExpr::AndOr { children: parts } => match entity_names(parts) {
                Some(names) => {
                    push_item(&mut composite, CompositeMember::AndOr { children: names });
                },
                None => {
                    return None;
                },
            },
            SupertypeExpr::And { children: parts } => match entity_names(parts) {
                Some(names) => {
                    push_item(&mut composite, CompositeMember::And { children: names });
                },
                None => {
                    return None;
                },
            },
            SupertypeExpr::OneOf { .. } => {
                return None;
            },
        }
        i += 1;
    }
    assert(c.take(i as int) =~= c);
    if composite.len() == 0 {
        assert(composite.deep_view().len() == 0);
        return None;
    }
    assert(composite.deep_view().len() > 0);
    Some(
        VariantSpec::CompositeOneOf {
            simple_alternatives: simple,
            composite_alternatives: composite,
        },
    )
}

/// Whether there is a `ONEOF` at the top of the tree or under `ANDOR` and
/// `AND` nodes.
pub open spec fn has_oneof(x: SuperModel) -> bool
    decreases x, 0nat,
{
    match x {
        SuperModel::OneOf(c) => true,
        SuperModel::AndOr(c) => list_has_oneof(c),
        SuperModel::And(c) => list_has_oneof(c),
        SuperModel::Entity(n) => false,
    }
}

pub open spec fn list_has_oneof(c: Seq<SuperModel>) -> bool
    decreases c, c.len(),
{
    c.len() > 0 && (list_has_oneof(c.drop_last()) || has_oneof(c.last()))
}

proof fn lemma_list_has_oneof(c: Seq<SuperModel>, k: int)
    requires
        0 <= k <= c.len(),
        list_has_oneof(c.take(k)),
    ensures
        list_has_oneof(c),
    decreases c.len(),
{
    if k < c.len() {
        assert(c.drop_last().take(k) =~= c.take(k));
        lemma_list_has_oneof(c.drop_last(), k);
    } else {
        assert(c.take(k) =~= c);
    }
}

fn any_oneof(children: &Vec<SupertypeExpr>) -> (r: bool)
    ensures
        r == list_has_oneof(children.deep_view()),
    decreases children,
{
    let ghost c = children.deep_view();
    let mut i: usize = 0;
    assert(c.take(0) =~= seq![]);
    while i < children.len()
        invariant
            i <= children@.len(),
            c == children.deep_view(),
            c.len() == children@.len(),
            !list_has_oneof(c.take(i as int)),
        decreases children@.len() - i,
    {
        proof {
            assert(c.take(i + 1).drop_last() =~= c.take(i as int));
            assert(c.take(i + 1).last() == children@[i as int].view());
        }
        if has_oneof_recursive(&children[i]) {
            proof {
                lemma_list_has_oneof(c, i + 1);
            }
            return true;
        }
        i += 1;
    }
    assert(c.take(i as int) =~= c);
    false
}

pub fn has_oneof_recursive(x: &SupertypeExpr) -> (r: bool)
    ensures
        r == has_oneof(x.view()),
    decreases x,
{
    proof {
        lemma_super_view(*x);
    }
    match x {
        SupertypeExpr::OneOf { .. } => true,
        SupertypeExpr::AndOr { children } => any_oneof(children),
        SupertypeExpr::And { children } => any_oneof(children),
        SupertypeExpr::Entity { .. } => false,
    }
}

/// The entities in the tree, in order.
pub open spec fn tree_names(x: SuperModel) -> Seq<Seq<char>>
    decreases x, 0nat,
{
    match x {
        SuperModel::Entity(n) => seq![n],
        SuperModel::OneOf(c) => list_tree_names(c),
        SuperModel::AndOr(c) => list_tree_names(c),
        SuperModel::And(c) => list_tree_names(c),
    }
}

pub open spec fn list_tree_names(c: Seq<SuperModel>) -> Seq<Seq<char>>
    decreases c, c.len(),
{
    if c.len() == 0 {
        seq![]
    } else {
        list_tree_names(c.drop_last()) + tree_names(c.last())
    }
}

fn collect_list_names(children: &Vec<SupertypeExpr>) -> (r: Vec<String>)
    ensures
        r.deep_view() == list_tree_names(children.deep_view()),
    decreases children,
{
    let ghost c = children.deep_view();
    let mut out: Vec<String> = Vec::new();
    let mut i: usize = 0;
    proof {
        assert(c.take(0) =~= seq![]);
        assert(out.deep_view() =~= seq![]);
    }
    while i < children.len()
        invariant
            i <= children@.len(),
            c == children.deep_view(),
            c.len() == children@.len(),
            out.deep_view() == list_tree_names(c.take(i as int)),
        decreases children@.len() - i,
    {
        proof {
            assert(c.take(i + 1).drop_last() =~= c.take(i as int));
            assert(c.take(i + 1).last() == children@[i as int].view());
        }
        append_items(&mut out, collect_entity_names(&children[i]));
        i += 1;
    }
    assert(c.take(i as int) =~= c);
    out
}

/// Flattens the entities in the tree.
pub fn collect_entity_names(x: &SupertypeExpr) -> (r: Vec<String>)
    ensures
        r.deep_view() == tree_names(x.view()),
    decreases x,
{
    proof {
        lemma_super_view(*x);
    }
    match x {
        SupertypeExpr::Entity { name } => {
            let mut r: Vec<String> = Vec::new();
            r.push(name.clone());
            assert(r.deep_view() =~= seq![name@]);
            r
        },
        SupertypeExpr::OneOf { children } => collect_list_names(children),
        SupertypeExpr::AndOr { children } => collect_list_names(children),
        SupertypeExpr::And { children } => collect_list_names(children),
    }
}

/// How a tree is written in messages.
pub open spec fn describe_tree(x: SuperModel) -> Seq<char>
    decreases x, 0nat,
{
    match x {
        SuperModel::Entity(n) => "Entity { name: "@ + quoted(n) + " }"@,
        SuperModel::OneOf(c) => "OneOf { children: ["@ + describe_list(c) + "] }"@,
        SuperModel::AndOr(c) => "AndOr { children: ["@ + describe_list(c) + "] }"@,
        SuperModel::And(c) => "And { children: ["@ + describe_list(c) + "] }"@,
    }
}

pub open spec fn describe_list(c: Seq<SuperModel>) -> Seq<char>
    decreases c, c.len(),
{
    if c.len() == 0 {
        seq![]
    } else if c.len() == 1 {
        describe_tree(c[0])
    } else {
        describe_list(c.drop_last()) + ", "@ + describe_tree(c.last())
    }
}

fn write_list(children: &Vec<SupertypeExpr>) -> (r: String)
    ensures
        r@ == describe_list(children.deep_view()),
    decreases children,
{
    let ghost c = children.deep_view();
    let mut out = String::new();
    let mut i: usize = 0;
    assert(c.take(0) =~= seq![]);
    while i < children.len()
        invariant
            i <= children@.len(),
            c == children.deep_view(),
            c.len() == children@.len(),
            out@ == describe_list(c.take(i as int)),
        decreases children@.len() - i,
    {
        proof {
            assert(c.take(i + 1).drop_last() =~= c.take(i as int));
            assert(c.take(i + 1).last() == children@[i as int].view());
        }
        let item = write_tree(&children[i]);
        if i > 0 {
            out.append(", ");
            out.append(item.as_str());
        } else {
            out.append(item.as_str());
            assert(out@ =~= describe_tree(c.take(i + 1)[0]));
        }
        i += 1;
    }
    assert(c.take(i as int) =~= c);
    out
}

/// Writes a tree for a message.
pub fn write_tree(x: &SupertypeExpr) -> (r: String)
    ensures
        r@ == describe_tree(x.view()),
    decreases x,
{
    proof {
        lemma_super_view(*x);
    }
    match x {
        SupertypeExpr::Entity { name } => join3(
            "Entity { name: ",
            quote(name.as_str()).as_str(),
            " }",
        ),
        SupertypeExpr::OneOf { children } => join3(
            "OneOf { children: [",
            write_list(children).as_str(),
            "] }",
        ),
        SupertypeExpr::AndOr { children } => join3(
            "AndOr { children: [",
            write_list(children).as_str(),
            "] }",
        ),
        SupertypeExpr::And { children } => join3(
            "And { children: [",
            write_list(children).as_str(),
            "] }",
        ),
    }
}

// ---------------------------------------------------------------------
// Looking through merged entities
// ---------------------------------------------------------------------

/// What a merged entity is merged into.
pub open spec fn merge_next(d: Decisions, x: Seq<char>) -> Option<Seq<char>> {
    if d.contains_key(x) {
        match d[x] {
            SpecModel::MergedInto { target, chain } => Some(target),
            _ => None,
        }
    } else {
        None
    }
}

fn merged_target(d: &Table<VariantSpec>, x: &str) -> (r: Option<String>)
    ensures
        r.deep_view() == merge_next(d@, x@),
{
    match d.get(x) {
        Some(VariantSpec::MergedInto { target, .. }) => Some(target.clone()),
        _ => None,
    }
}

/// Where the merges from `x` lead.
pub open spec fn merge_end(d: Decisions, x: Seq<char>) -> Seq<char> {
    chain_end(|y: Seq<char>| merge_next(d, y), x)
}

pub fn resolve_merge_target(start: &str, d: &Table<VariantSpec>) -> (r: String)
    ensures
        r@ == merge_end(d@, start@),
{
    let ghost dv = d@;
    let ghost f: Step = |y: Seq<char>| merge_next(dv, y);
    let size = d.len();
    let mut current: String = start.to_owned();
    let mut visited = NameSet::new();
    let ghost mut n: nat = 0;
    loop
        invariant
            dv == d@,
            f == (|y: Seq<char>| merge_next(dv, y)),
            dv.dom().finite(),
            size == dv.dom().len(),
            current@ == chain_at(f, start@, n),
            chain_so_far(f, start@, n, visited@),
            visited@.subset_of(dv.dom()),
        decreases size - visited@.len(),
    {
        let ghost before = visited@;
        proof {
            vstd::set_lib::lemma_len_subset(visited@, dv.dom());
        }
        if !visited.insert(current.clone()) {
            proof {
                lemma_chain_done(f, start@, n, before);
            }
            return current;
        }
        match merged_target(d, current.as_str()) {
            Some(t) => {
                proof {
                    lemma_chain_step(f, start@, n, before);
                    n = n + 1;
                    vstd::set_lib::lemma_len_subset(visited@, dv.dom());
                }
                current = t;
            },
            None => {
                proof {
                    lemma_chain_done(f, start@, n, before);
                }
                return current;
            },
        }
    }
}

/// The children of an entity with merged ones replaced by where they lead.
pub open spec fn effective_children(idx: Graph, d: Decisions, e: Seq<char>) -> Set<Seq<char>> {
    noted(idx, e).map_values(|c: Seq<char>| merge_end(d, c)).to_set()
}

pub fn effective_direct_children(
    e: &str,
    idx: &Table<Vec<String>>,
    d: &Table<VariantSpec>,
) -> (r: NameSet)
    ensures
        r@ == effective_children(idx@, d@, e@),
{
    let ghost all = noted(idx@, e@).map_values(|c: Seq<char>| merge_end(d@, c));
    let mut out: Vec<String> = Vec::new();
    if let Some(direct) = idx.get(e) {
        let mut i: usize = 0;
        while i < direct.len()
            invariant
                i <= direct@.len(),
                all == direct.deep_view().map_values(|c: Seq<char>| merge_end(d@, c)),
                out@.len() == i,
                forall|j: int| 0 <= j < i ==> #[trigger] out@[j]@ == all[j],
            decreases direct@.len() - i,
        {
            out.push(resolve_merge_target(direct[i].as_str(), d));
            i += 1;
        }
    }
    assert(out.deep_view() =~= all);
    NameSet::from_names(&out)
}

/// A step through merges that stops at `target`.
pub open spec fn merge_step_to(d: Decisions, target: Seq<char>) -> Step {
    |y: Seq<char>|
        if y == target {
            None
        } else {
            merge_next(d, y)
        }
}

/// The merged entities between `e` and `target`, from its first child on.
pub open spec fn merge_chain(
    idx: Graph,
    d: Decisions,
    e: Seq<char>,
    target: Seq<char>,
) -> Seq<Seq<char>> {
    if noted(idx, e).len() == 0 {
        seq![]
    } else {
        chain_names(merge_step_to(d, target), idx[e][0])
    }
}

pub fn build_chain(
    e: &str,
    target: &str,
    idx: &Table<Vec<String>>,
    d: &Table<VariantSpec>,
) -> (r: Vec<String>)
    ensures
        r.deep_view() == merge_chain(idx@, d@, e@, target@),
{
    let mut chain: Vec<String> = Vec::new();
    assert(chain.deep_view() =~= seq![]);
    let first = match idx.get(e) {
        Some(direct) => if direct.len() > 0 {
            assert(idx@[e@][0] == direct@[0]@);
            direct[0].clone()
        } else {
            assert(idx@[e@].len() == 0);
            return chain;
        },
        None => {
            return chain;
        },
    };
    let ghost start = first@;
    let ghost dv = d@;
    let ghost f = merge_step_to(dv, target@);
    let size = d.len();
    let mut current: String = first;
    let mut visited = NameSet::new();
    let ghost mut n: nat = 0;
    loop
        invariant
            dv == d@,
            f == merge_step_to(dv, target@),
            merge_chain(idx@, dv, e@, target@) == chain_names(f, start),
            dv.dom().finite(),
            size == dv.dom().len(),
            current@ == chain_at(f, start, n),
            chain_so_far(f, start, n, visited@),
            visited@.subset_of(dv.dom()),
            chain@.len() == n,
            forall|i: int| 0 <= i < n ==> #[trigger] chain@[i]@ == chain_at(f, start, i as nat),
        decreases size - visited@.len(),
    {
        let ghost before = visited@;
        proof {
            vstd::set_lib::lemma_len_subset(visited@, dv.dom());
        }
        let fresh = visited.insert(current.clone());
        let next = if !fresh || same(current.as_str(), target) {
            None
        } else {
            merged_target(d, current.as_str())
        };
        match next {
            Some(t) => {
                proof {
                    lemma_chain_step(f, start, n, before);
                    n = n + 1;
                    vstd::set_lib::lemma_len_subset(visited@, dv.dom());
                }
                chain.push(current);
                current = t;
            },
            None => {
                proof {
                    lemma_chain_done(f, start, n, before);
                    assert(chain.deep_view() =~= chain_names(f, start));
                }
                return chain;
            },
        }
    }
}

/// The first parent of an entity.
pub open spec fn parent_of(parents: Graph, x: Seq<char>) -> Option<Seq<char>> {
    if noted(parents, x).len() > 0 {
        Some(parents[x][0])
    } else {
        None
    }
}

/// A step to the first parent, as long as that one is merged.
pub open spec fn merged_parent_step(parents: Graph, d: Decisions) -> Step {
    |x: Seq<char>|
        match parent_of(parents, x) {
            Some(p) => if merge_next(d, p) is Some {
                Some(p)
            } else {
                None
            },
            None => None,
        }
}

/// The first ancestor, along first parents, that is not merged; none on a
/// cycle of merged ones.
pub open spec fn unmerged_parent(parents: Graph, d: Decisions, e: Seq<char>) -> Option<Seq<char>> {
    let f = merged_parent_step(parents, d);
    let last = chain_end(f, e);
    if f(last) is Some {
        None
    } else {
        parent_of(parents, last)
    }
}

fn first_listed(parents: &Table<Vec<String>>, x: &str) -> (r: Option<String>)
    ensures
        r.deep_view() == parent_of(parents@, x@),
{
    match parents.get(x) {
        Some(ps) => if ps.len() > 0 {
            assert(parents@[x@][0] == ps@[0]@);
            Some(ps[0].clone())
        } else {
            assert(parents@[x@].len() == 0);
            None
        },
        None => None,
    }
}

pub fn effective_parent(
    e: &str,
    parents: &Table<Vec<String>>,
    d: &Table<VariantSpec>,
) -> (r: Option<String>)
    ensures
        r.deep_view() == unmerged_parent(parents@, d@, e@),
{
    let ghost pv = parents@;
    let ghost dv = d@;
    let ghost f = merged_parent_step(pv, dv);
    let size = parents.len();
    let mut current: String = e.to_owned();
    let mut visited = NameSet::new();
    let ghost mut n: nat = 0;
    loop
        invariant
            pv == parents@,
            dv == d@,
            f == merged_parent_step(pv, dv),
            pv.dom().finite(),
            size == pv.dom().len(),
            current@ == chain_at(f, e@, n),
            chain_so_far(f, e@, n, visited@),
            visited@.subset_of(pv.dom()),
        decreases size - visited@.len(),
    {
        let ghost before = visited@;
        proof {
            vstd::set_lib::lemma_len_subset(visited@, pv.dom());
        }
        if !visited.insert(current.clone()) {
            proof {
                lemma_chain_done(f, e@, n, before);
                let i = choose|i: nat| i < n && #[trigger] chain_at(f, e@, i) == current@;
                assert(f(chain_at(f, e@, i)) is Some);
            }
            return None;
        }
        let parent = match first_listed(parents, current.as_str()) {
            Some(p) => p,
            None => {
                proof {
                    lemma_chain_done(f, e@, n, before);
                }
                return None;
            },
        };
        match merged_target(d, parent.as_str()) {
            Some(_) => {
                proof {
                    lemma_chain_step(f, e@, n, before);
                    n = n + 1;
                    vstd::set_lib::lemma_len_subset(visited@, pv.dom());
                }
                current = parent;
            },
            None => {
                proof {
                    lemma_chain_done(f, e@, n, before);
                }
                return Some(parent);
            },
        }
    }
}

// ---------------------------------------------------------------------
// Nested fields
// ---------------------------------------------------------------------

/// The attributes of an entity.
pub open spec fn attrs_of(u: UnifiedModel, e: Seq<char>) -> Set<Seq<char>> {
    if u.entity_attrs.contains_key(e) {
        u.entity_attrs[e]
    } else {
        Set::empty()
    }
}

fn attr_names(u: &UnifiedSchema, e: &str) -> (r: NameSet)
    ensures
        r@ == attrs_of(u.view(), e@),
{
    match u.entity_attrs.get(e) {
        Some(s) => s.duplicate(),
        None => NameSet::new(),
    }
}

/// Whether an attribute has an `OPTIONAL` type.
pub open spec fn is_optional(u: UnifiedModel, e: Seq<char>, a: Seq<char>) -> bool {
    u.entity_attr_types.contains_key(e) && u.entity_attr_types[e].contains_key(a)
        && u.entity_attr_types[e][a] is Optional
}

fn optional_attr(u: &UnifiedSchema, e: &str, a: &str) -> (r: bool)
    ensures
        r == is_optional(u.view(), e@, a@),
{
    match u.entity_attr_types.get(e) {
        Some(types) => match types.get(a) {
            Some(AttrType::Optional(_)) => true,
            _ => false,
        },
        None => false,
    }
}

/// How many of `names` have an attribute that is not in `base`.
pub open spec fn extending(u: UnifiedModel, names: Seq<Seq<char>>, base: Set<Seq<char>>) -> nat
    decreases names.len(),
{
    if names.len() == 0 {
        0
    } else {
        extending(u, names.drop_last(), base) + (if attrs_of(u, names.last()).subset_of(base) {
            0nat
        } else {
            1nat
        })
    }
}

fn count_extending(u: &UnifiedSchema, names: &Vec<String>, base: &NameSet) -> (r: usize)
    ensures
        r == extending(u.view(), names.deep_view(), base@),
{
    let ghost all = names.deep_view();
    let mut n: usize = 0;
    let mut i: usize = 0;
    assert(all.take(0) =~= seq![]);
    while i < names.len()
        invariant
            i <= names@.len(),
            all == names.deep_view(),
            all.len() == names@.len(),
            n <= i,
            n == extending(u.view(), all.take(i as int), base@),
        decreases names@.len() - i,
    {
        proof {
            assert(all.take(i + 1).drop_last() =~= all.take(i as int));
            assert(all.take(i + 1).last() == names@[i as int]@);
        }
        let extra = attr_names(u, names[i].as_str()).minus(base);
        if !extra.is_empty() {
            proof {
                let own = attrs_of(u.view(), all[i as int]);
                if own.subset_of(base@) {
                    assert(own.difference(base@) =~= Set::empty());
                }
            }
            n += 1;
        } else {
            proof {
                let own = attrs_of(u.view(), all[i as int]);
                assert forall|x: Seq<char>| own.contains(x) implies base@.contains(x) by {
                    if !base@.contains(x) {
                        assert(own.difference(base@).contains(x));
                    }
                }
            }
        }
        i += 1;
    }
    assert(all.take(i as int) =~= all);
    n
}

/// The attributes that `e` adds to those of `parent`.
pub open spec fn added_attrs(u: UnifiedModel, e: Seq<char>, parent: Seq<char>) -> Set<Seq<char>> {
    attrs_of(u, e).difference(attrs_of(u, parent))
}

/// Whether `e` folds into `parent`: it has no other parent, is no target of
/// references, adds one to three attributes, not all of them optional, and is
/// the only descendant of the parent that adds any.
pub open spec fn nests(
    u: UnifiedModel,
    idx: Graph,
    targets: Set<Seq<char>>,
    e: Seq<char>,
    parent: Seq<char>,
) -> bool {
    let extra = added_attrs(u, e, parent);
    &&& u.entity_parents.contains_key(e)
    &&& u.entity_parents[e].len() == 1
    &&& !targets.contains(e)
    &&& 1 <= extra.len() <= 3
    &&& exists|a: Seq<char>| extra.contains(a) && !#[trigger] is_optional(u, e, a)
    &&& extending(u, descendants_of(idx, parent), attrs_of(u, parent)) == 1
}

/// The field that `e` becomes in `parent`: named after the added attribute if
/// it is a single one.
pub open spec fn nested_field(
    u: UnifiedModel,
    idx: Graph,
    targets: Set<Seq<char>>,
    e: Seq<char>,
    parent: Seq<char>,
) -> Option<SpecModel> {
    let extra = added_attrs(u, e, parent);
    if nests(u, idx, targets, e, parent) {
        Some(
            SpecModel::NestedField {
                into: parent,
                as_field: if extra.len() == 1 {
                    ordered(extra)[0]
                } else {
                    e + "_ext"@
                },
                added_attr_count: extra.len() as usize,
            },
        )
    } else {
        None
    }
}

pub fn try_nested_field(
    e: &str,
    parent: &str,
    u: &UnifiedSchema,
    idx: &Table<Vec<String>>,
    targets: &NameSet,
) -> (r: Option<VariantSpec>)
    ensures
        r.deep_view() == nested_field(u.view(), idx@, targets@, e@, parent@),
{
    let single = match u.entity_parents.get(e) {
        Some(ps) => {
            assert(u.entity_parents@[e@].len() == ps@.len());
            ps.len() == 1
        },
        None => false,
    };
    if !single || targets.contains(e) {
        return None;
    }
    let base = attr_names(u, parent);
    let extra = attr_names(u, e).minus(&base);
    let added = extra.len();
    if added == 0 || added > 3 {
        return None;
    }
    let ghost o = ordered(extra@);
    proof {
        lemma_ordered(extra@);
    }
    let mut some_required = false;
    let mut i: usize = 0;
    while i < added
        invariant
            i <= added,
            added == o.len(),
            o == ordered(extra@),
            some_required <==> exists|j: int|
                0 <= j < i && !is_optional(u.view(), e@, #[trigger] o[j]),
        decreases added - i,
    {
        if !optional_attr(u, e, extra.at(i).as_str()) {
            assert(!is_optional(u.view(), e@, o[i as int]));
            some_required = true;
        }
        i += 1;
    }
    proof {
        if some_required {
            let j = choose|j: int| 0 <= j < o.len() && !is_optional(u.view(), e@, #[trigger] o[j]);
            assert(extra@.contains(o[j]));
        } else {
            assert forall|a: Seq<char>| extra@.contains(a) implies #[trigger] is_optional(
                u.view(),
                e@,
                a,
            ) by {
                assert(o.contains(a));
                let j = choose|j: int| 0 <= j < o.len() && o[j] == a;
                assert(is_optional(u.view(), e@, o[j]));
            }
        }
    }
    if !some_required {
        return None;
    }
    if count_extending(u, &concrete_descendants(parent, idx), &base) != 1 {
        return None;
    }
    let as_field = if added == 1 {
        extra.at(0).clone()
    } else {
        join(e, "_ext")
    };
    Some(VariantSpec::NestedField { into: parent.to_owned(), as_field, added_attr_count: added })
}

// ---------------------------------------------------------------------
// Enclosing enums
// ---------------------------------------------------------------------

/// Whether an entity is decided to own an enum over its children.
pub open spec fn owns_enum(d: Decisions, x: Seq<char>) -> bool {
    d.contains_key(x) && (d[x] is EnumBase || d[x] is ComplexSupertype || d[x] is CompositeOneOf
        || d[x] is ConcreteSupertype)
}

fn decided_to_own(d: &Table<VariantSpec>, x: &str) -> (r: bool)
    ensures
        r == owns_enum(d@, x@),
{
    match d.get(x) {
        Some(VariantSpec::EnumBase { .. }) => true,
        Some(VariantSpec::ComplexSupertype { .. }) => true,
        Some(VariantSpec::CompositeOneOf { .. }) => true,
        Some(VariantSpec::ConcreteSupertype) => true,
        _ => false,
    }
}

/// The first of `ps` that owns an enum.
pub open spec fn owner_among(d: Decisions, ps: Seq<Seq<char>>) -> Option<Seq<char>>
    decreases ps.len(),
{
    if ps.len() == 0 {
        None
    } else if owner_among(d, ps.drop_last()) is Some {
        owner_among(d, ps.drop_last())
    } else if owns_enum(d, ps.last()) {
        Some(ps.last())
    } else {
        None
    }
}

proof fn lemma_owner_prefix(d: Decisions, ps: Seq<Seq<char>>, k: int)
    requires
        0 <= k <= ps.len(),
        owner_among(d, ps.take(k)) is Some,
    ensures
        owner_among(d, ps) == owner_among(d, ps.take(k)),
    decreases ps.len(),
{
    if k < ps.len() {
        assert(ps.drop_last().take(k) =~= ps.take(k));
        lemma_owner_prefix(d, ps.drop_last(), k);
    } else {
        assert(ps.take(k) =~= ps);
    }
}

pub fn pick_enum_root_parent(ps: &Vec<String>, d: &Table<VariantSpec>) -> (r: Option<String>)
    ensures
        r.deep_view() == owner_among(d@, ps.deep_view()),
{
    let ghost all = ps.deep_view();
    let mut i: usize = 0;
    assert(all.take(0) =~= seq![]);
    while i < ps.len()
        invariant
            i <= ps@.len(),
            all == ps.deep_view(),
            all.len() == ps@.len(),
            owner_among(d@, all.take(i as int)) is None,
        decreases ps@.len() - i,
    {
        proof {
            assert(all.take(i + 1).drop_last() =~= all.take(i as int));
            assert(all.take(i + 1).last() == ps@[i as int]@);
        }
        if decided_to_own(d, ps[i].as_str()) {
            proof {
                lemma_owner_prefix(d@, all, i + 1);
            }
            return Some(ps[i].clone());
        }
        i += 1;
    }
    assert(all.take(i as int) =~= all);
    None
}

/// The first of `ps` that is merged.
pub open spec fn merged_among(d: Decisions, ps: Seq<Seq<char>>) -> Option<Seq<char>>
    decreases ps.len(),
{
    if ps.len() == 0 {
        None
    } else if merged_among(d, ps.drop_last()) is Some {
        merged_among(d, ps.drop_last())
    } else if merge_next(d, ps.last()) is Some {
        Some(ps.last())
    } else {
        None
    }
}

proof fn lemma_merged_prefix(d: Decisions, ps: Seq<Seq<char>>, k: int)
    requires
        0 <= k <= ps.len(),
        merged_among(d, ps.take(k)) is Some,
    ensures
        merged_among(d, ps) == merged_among(d, ps.take(k)),
    decreases ps.len(),
{
    if k < ps.len() {
        assert(ps.drop_last().take(k) =~= ps.take(k));
        lemma_merged_prefix(d, ps.drop_last(), k);
    } else {
        assert(ps.take(k) =~= ps);
    }
}

fn first_merged(ps: &Vec<String>, d: &Table<VariantSpec>) -> (r: Option<String>)
    ensures
        r.deep_view() == merged_among(d@, ps.deep_view()),
{
    let ghost all = ps.deep_view();
    let mut i: usize = 0;
    assert(all.take(0) =~= seq![]);
    while i < ps.len()
        invariant
            i <= ps@.len(),
            all == ps.deep_view(),
            all.len() == ps@.len(),
            merged_among(d@, all.take(i as int)) is None,
        decreases ps@.len() - i,
    {
        proof {
            assert(all.take(i + 1).drop_last() =~= all.take(i as int));
            assert(all.take(i + 1).last() == ps@[i as int]@);
        }
        if merged_target(d, ps[i].as_str()).is_some() {
            proof {
                lemma_merged_prefix(d@, all, i + 1);
            }
            return Some(ps[i].clone());
        }
        i += 1;
    }
    assert(all.take(i as int) =~= all);
    None
}

/// A step up from an entity none of whose parents owns an enum: to the first
/// merged parent, or else the first parent.
pub open spec fn enum_step(parents: Graph, d: Decisions) -> Step {
    |x: Seq<char>|
        {
            let ps = noted(parents, x);
            if owner_among(d, ps) is Some {
                None
            } else if merged_among(d, ps) is Some {
                merged_among(d, ps)
            } else {
                parent_of(parents, x)
            }
        }
}

/// The name of the enum that `x` owns.
pub open spec fn enum_of(d: Decisions, x: Seq<char>) -> Seq<char> {
    if d.contains_key(x) {
        match d[x] {
            SpecModel::EnumBase { enum_name } => enum_name,
            _ => x,
        }
    } else {
        x
    }
}

/// The enum that the steps up from `e` come to.
pub open spec fn declared_enum(parents: Graph, d: Decisions, e: Seq<char>) -> Option<Seq<char>> {
    let last = chain_end(enum_step(parents, d), e);
    match owner_among(d, noted(parents, last)) {
        Some(p) => Some(enum_of(d, p)),
        None => None,
    }
}

fn find_declared_enum(
    e: &str,
    parents: &Table<Vec<String>>,
    d: &Table<VariantSpec>,
) -> (r: Option<String>)
    ensures
        r.deep_view() == declared_enum(parents@, d@, e@),
{
    let ghost pv = parents@;
    let ghost dv = d@;
    let ghost f = enum_step(pv, dv);
    let size = parents.len();
    let mut current: String = e.to_owned();
    let mut visited = NameSet::new();
    let ghost mut n: nat = 0;
    loop
        invariant
            pv == parents@,
            dv == d@,
            f == enum_step(pv, dv),
            pv.dom().finite(),
            size == pv.dom().len(),
            current@ == chain_at(f, e@, n),
            chain_so_far(f, e@, n, visited@),
            visited@.subset_of(pv.dom()),
        decreases size - visited@.len(),
    {
        let ghost before = visited@;
        proof {
            vstd::set_lib::lemma_len_subset(visited@, pv.dom());
        }
        if !visited.insert(current.clone()) {
            proof {
                lemma_chain_done(f, e@, n, before);
                let i = choose|i: nat| i < n && #[trigger] chain_at(f, e@, i) == current@;
                assert(f(chain_at(f, e@, i)) is Some);
            }
            return None;
        }
        let ps = match parents.get(current.as_str()) {
            Some(ps) => ps,
            None => {
                proof {
                    lemma_chain_done(f, e@, n, before);
                }
                return None;
            },
        };
        if let Some(owner) = pick_enum_root_parent(ps, d) {
            proof {
                lemma_chain_done(f, e@, n, before);
            }
            return match d.get(owner.as_str()) {
                Some(VariantSpec::EnumBase { enum_name }) => Some(enum_name.clone()),
                _ => Some(owner),
            };
        }
        let next = match first_merged(ps, d) {
            Some(p) => Some(p),
            None => first_listed(parents, current.as_str()),
        };
        match next {
            Some(p) => {
                proof {
                    lemma_chain_step(f, e@, n, before);
                    n = n + 1;
                    vstd::set_lib::lemma_len_subset(visited@, pv.dom());
                }
                current = p;
            },
            None => {
                proof {
                    lemma_chain_done(f, e@, n, before);
                }
                return None;
            },
        }
    }
}

/// Whether `x` is an enum root for `e` by the references: it is a target, has
/// at least two descendants, and `e` is one of them if it is declared.
pub open spec fn referenced_root(
    u: UnifiedModel,
    idx: Graph,
    targets: Set<Seq<char>>,
    e: Seq<char>,
    x: Seq<char>,
) -> bool {
    &&& targets.contains(x)
    &&& descendants_of(idx, x).len() >= 2
    &&& descendants_of(idx, x).contains(e) || !u.entity_attrs.contains_key(e)
}

/// The first of `chain` that is such a root.
pub open spec fn referenced_among(
    u: UnifiedModel,
    idx: Graph,
    targets: Set<Seq<char>>,
    e: Seq<char>,
    chain: Seq<Seq<char>>,
) -> Option<Seq<char>>
    decreases chain.len(),
{
    if chain.len() == 0 {
        None
    } else if referenced_among(u, idx, targets, e, chain.drop_last()) is Some {
        referenced_among(u, idx, targets, e, chain.drop_last())
    } else if referenced_root(u, idx, targets, e, chain.last()) {
        Some(chain.last())
    } else {
        None
    }
}

proof fn lemma_referenced_prefix(
    u: UnifiedModel,
    idx: Graph,
    targets: Set<Seq<char>>,
    e: Seq<char>,
    chain: Seq<Seq<char>>,
    k: int,
)
    requires
        0 <= k <= chain.len(),
        referenced_among(u, idx, targets, e, chain.take(k)) is Some,
    ensures
        referenced_among(u, idx, targets, e, chain) == referenced_among(
            u,
            idx,
            targets,
            e,
            chain.take(k),
        ),
    decreases chain.len(),
{
    if k < chain.len() {
        assert(chain.drop_last().take(k) =~= chain.take(k));
        lemma_referenced_prefix(u, idx, targets, e, chain.drop_last(), k);
    } else {
        assert(chain.take(k) =~= chain);
    }
}

/// The enum that `e` is a member of: one that a parent owns, or else one that
/// the references ask for.
pub open spec fn enum_root(
    u: UnifiedModel,
    idx: Graph,
    targets: Set<Seq<char>>,
    d: Decisions,
    e: Seq<char>,
) -> Option<Seq<char>> {
    if declared_enum(u.entity_parents, d, e) is Some {
        declared_enum(u.entity_parents, d, e)
    } else {
        referenced_among(u, idx, targets, e, upward_chain(u.entity_parents, e))
    }
}

pub fn enclosing_enum_root(
    e: &str,
    u: &UnifiedSchema,
    idx: &Table<Vec<String>>,
    targets: &NameSet,
    d: &Table<VariantSpec>,
) -> (r: Option<String>)
    ensures
        r.deep_view() == enum_root(u.view(), idx@, targets@, d@, e@),
{
    if let Some(name) = find_declared_enum(e, &u.entity_parents, d) {
        return Some(name);
    }
    let chain = climb_all(&u.entity_parents, e);
    let ghost all = chain.deep_view();
    let mut i: usize = 0;
    assert(all.take(0) =~= seq![]);
    while i < chain.len()
        invariant
            i <= chain@.len(),
            all == chain.deep_view(),
            all == upward_chain(u.view().entity_parents, e@),
            declared_enum(u.view().entity_parents, d@, e@) is None,
            all.len() == chain@.len(),
            referenced_among(u.view(), idx@, targets@, e@, all.take(i as int)) is None,
        decreases chain@.len() - i,
    {
        proof {
            assert(all.take(i + 1).drop_last() =~= all.take(i as int));
            assert(all.take(i + 1).last() == chain@[i as int]@);
        }
        let x = chain[i].as_str();
        if targets.contains(x) {
            let below = concrete_descendants(x, idx);
            assert(below.deep_view().len() == below@.len());
            if below.len() >= 2 && (listed(&below, e) || !u.entity_attrs.contains_key(e)) {
                proof {
                    lemma_referenced_prefix(u.view(), idx@, targets@, e@, all, i + 1);
                }
                return Some(chain[i].clone());
            }
        }
        i += 1;
    }
    assert(all.take(i as int) =~= all);
    None
}

// ---------------------------------------------------------------------
// The rules
// ---------------------------------------------------------------------

/// Whether some parent of `e` has two or more children.
pub open spec fn under_enum_shape(parents: Graph, idx: Graph, e: Seq<char>) -> bool {
    exists|i: int|
        0 <= i < noted(parents, e).len() && noted(idx, #[trigger] noted(parents, e)[i]).len() >= 2
}

fn has_enum_shaped_parent(
    e: &str,
    parents: &Table<Vec<String>>,
    idx: &Table<Vec<String>>,
) -> (r: bool)
    ensures
        r == under_enum_shape(parents@, idx@, e@),
{
    let ps = match parents.get(e) {
        Some(ps) => ps,
        None => {
            return false;
        },
    };
    let ghost all = ps.deep_view();
    let mut i: usize = 0;
    while i < ps.len()
        invariant
            i <= ps@.len(),
            all == ps.deep_view(),
            all == noted(parents@, e@),
            forall|j: int| 0 <= j < i ==> noted(idx@, #[trigger] all[j]).len() < 2,
        decreases ps@.len() - i,
    {
        assert(all[i as int] == ps@[i as int]@);
        let count: usize = match idx.get(ps[i].as_str()) {
            Some(kids) => {
                assert(idx@[all[i as int]].len() == kids@.len());
                kids.len()
            },
            None => 0,
        };
        if count >= 2 {
            assert(noted(idx@, all[i as int]).len() >= 2);
            return true;
        }
        i += 1;
    }
    false
}

/// Whether an entity is declared polymorphic: abstract, or with a `ONEOF`.
pub open spec fn polymorphic(u: UnifiedModel, e: Seq<char>) -> bool {
    u.abstract_entities.contains(e) || (u.supertype_exprs.contains_key(e) && has_oneof(
        u.supertype_exprs[e],
    ))
}

/// The kind that the shape of the `SUPERTYPE OF` expression gives.
pub open spec fn shape_kind(u: UnifiedModel, e: Seq<char>) -> Option<SpecModel> {
    if !u.supertype_exprs.contains_key(e) {
        None
    } else if complex_supertype(u.supertype_exprs[e]) is Some {
        complex_supertype(u.supertype_exprs[e])
    } else {
        composite_oneof(u.supertype_exprs[e])
    }
}

/// The kind of a supertype, where this pass gives one:
/// an override; the shape of its expression; an enum over two or more
/// effective children if it is polymorphic; merged into its only effective
/// child if it is polymorphic, or if it has no attributes and no parent with
/// several children.
pub open spec fn supertype_kind(
    u: UnifiedModel,
    idx: Graph,
    over: Decisions,
    d: Decisions,
    e: Seq<char>,
) -> Option<SpecModel> {
    let kids = effective_children(idx, d, e);
    let only = ordered(kids)[0];
    if over.contains_key(e) {
        Some(over[e])
    } else if shape_kind(u, e) is Some {
        shape_kind(u, e)
    } else if polymorphic(u, e) && kids.len() >= 2 {
        Some(SpecModel::EnumBase { enum_name: e })
    } else if kids.len() == 1 && (polymorphic(u, e) || (attrs_of(u, e) == Set::<Seq<char>>::empty()
        && !under_enum_shape(u.entity_parents, idx, e))) {
        Some(SpecModel::MergedInto { target: only, chain: merge_chain(idx, d, e, only) })
    } else {
        None
    }
}

fn decide_supertype(
    e: &str,
    u: &UnifiedSchema,
    idx: &Table<Vec<String>>,
    over: &OverrideFile<VariantOverride>,
    d: &Table<VariantSpec>,
) -> (r: Option<VariantSpec>)
    ensures
        r.deep_view() == supertype_kind(u.view(), idx@, over.entity@, d@, e@),
{
    if let Some(o) = over.entity.get(e) {
        return Some(VariantSpec::from(o.duplicate()));
    }
    let mut one_of = false;
    if let Some(x) = u.supertype_exprs.get(e) {
        if let Some(spec) = classify_complex_supertype(x) {
            return Some(spec);
        }
        if let Some(spec) = classify_composite_oneof(x) {
            return Some(spec);
        }
        one_of = has_oneof_recursive(x);
    }
    let poly = u.abstract_entities.contains(e) || one_of;
    let kids = effective_direct_children(e, idx, d);
    let count = kids.len();
    if poly && count >= 2 {
        return Some(VariantSpec::EnumBase { enum_name: e.to_owned() });
    }
    if count == 1 && (poly || (attr_names(u, e).is_empty() && !has_enum_shaped_parent(
        e,
        &u.entity_parents,
        idx,
    ))) {
        let target = kids.at(0).clone();
        let chain = build_chain(e, target.as_str(), idx, d);
        return Some(VariantSpec::MergedInto { target, chain });
    }
    None
}

/// The decisions about supertypes, taken in the given order.
pub open spec fn pass_one(
    u: UnifiedModel,
    idx: Graph,
    over: Decisions,
    order: Seq<Seq<char>>,
) -> Decisions
    decreases order.len(),
{
    if order.len() == 0 {
        Map::empty()
    } else {
        let d = pass_one(u, idx, over, order.drop_last());
        match supertype_kind(u, idx, over, d, order.last()) {
            Some(k) => d.insert(order.last(), k),
            None => d,
        }
    }
}

fn pass1_supertype_kinds(
    u: &UnifiedSchema,
    idx: &Table<Vec<String>>,
    topo: &Vec<String>,
    over: &OverrideFile<VariantOverride>,
) -> (r: Table<VariantSpec>)
    ensures
        r@ == pass_one(u.view(), idx@, over.entity@, topo.deep_view().reverse()),
{
    let ghost all = topo.deep_view().reverse();
    let mut d: Table<VariantSpec> = Table::new();
    let mut i: usize = 0;
    assert(all.take(0) =~= seq![]);
    while i < topo.len()
        invariant
            i <= topo@.len(),
            all == topo.deep_view().reverse(),
            all.len() == topo@.len(),
            d@ == pass_one(u.view(), idx@, over.entity@, all.take(i as int)),
        decreases topo@.len() - i,
    {
        let e = topo[topo.len() - 1 - i].as_str();
        proof {
            assert(all.take(i + 1).drop_last() =~= all.take(i as int));
            assert(all.take(i + 1).last() == e@);
        }
        if let Some(k) = decide_supertype(e, u, idx, over, &d) {
            d.insert(e.to_owned(), k);
        }
        i += 1;
    }
    assert(all.take(i as int) =~= all);
    d
}

/// The decisions and the entities left open.
pub struct Classified {
    pub decisions: Decisions,
    pub unresolved: Map<Seq<char>, UnresolvedModel>,
}

/// Whether an entity is a supertype without saying so: no `SUPERTYPE OF`
/// clause, but attributes, children and references to it.
pub open spec fn implicit_supertype(
    u: UnifiedModel,
    idx: Graph,
    targets: Set<Seq<char>>,
    e: Seq<char>,
) -> bool {
    &&& !u.supertype_exprs.contains_key(e)
    &&& attrs_of(u, e) != Set::<Seq<char>>::empty()
    &&& noted(idx, e).len() >= 1
    &&& targets.contains(e)
}

/// The nested field that an entity becomes under a single struct.
pub open spec fn nested_kind(
    u: UnifiedModel,
    idx: Graph,
    targets: Set<Seq<char>>,
    d: Decisions,
    e: Seq<char>,
) -> Option<SpecModel> {
    match unmerged_parent(u.entity_parents, d, e) {
        Some(p) => if d.contains_key(p) && d[p] is SingleStruct {
            nested_field(u, idx, targets, e, p)
        } else {
            None
        },
        None => None,
    }
}

/// The note about an entity whose expression no rule understands.
pub open spec fn unknown_shape(x: SuperModel) -> UnresolvedModel {
    UnresolvedModel {
        reasons: seq![
            "Rule 8: SUPERTYPE OF tree did not match any automatic rule (Rule 1, 1.5, 2-6). Tree shape: "@
                + describe_tree(x),
        ],
        override_example: "# Tree: "@ + describe_tree(x)
            + "\n# Choose one of: single_struct / in_enum / enum_base / merged_into / complex_supertype / composite_one_of\nkind = \"single_struct\""@,
    }
}

/// What becomes of an entity that the first pass left: an override; a concrete
/// supertype; a nested field; a member of an enum; left open where it has an
/// expression that is not a bare entity; a single struct.
pub open spec fn remaining_kind(
    u: UnifiedModel,
    idx: Graph,
    targets: Set<Seq<char>>,
    over: Decisions,
    d: Decisions,
    e: Seq<char>,
) -> Result<SpecModel, UnresolvedModel> {
    if over.contains_key(e) {
        Ok(over[e])
    } else if implicit_supertype(u, idx, targets, e) {
        Ok(SpecModel::ConcreteSupertype)
    } else if nested_kind(u, idx, targets, d, e) is Some {
        Ok(nested_kind(u, idx, targets, d, e)->0)
    } else if enum_root(u, idx, targets, d, e) is Some {
        Ok(SpecModel::InEnum { enum_name: enum_root(u, idx, targets, d, e)->0 })
    } else if u.supertype_exprs.contains_key(e) && !(u.supertype_exprs[e] is Entity) {
        Err(unknown_shape(u.supertype_exprs[e]))
    } else {
        Ok(SpecModel::SingleStruct)
    }
}

/// The second pass over the entities in the given order.
pub open spec fn pass_two(
    u: UnifiedModel,
    idx: Graph,
    targets: Set<Seq<char>>,
    over: Decisions,
    first: Decisions,
    order: Seq<Seq<char>>,
) -> Classified
    decreases order.len(),
{
    if order.len() == 0 {
        Classified { decisions: first, unresolved: Map::empty() }
    } else {
        let st = pass_two(u, idx, targets, over, first, order.drop_last());
        let e = order.last();
        if st.decisions.contains_key(e) {
            st
        } else {
            match remaining_kind(u, idx, targets, over, st.decisions, e) {
                Ok(k) => Classified { decisions: st.decisions.insert(e, k), ..st },
                Err(w) => Classified { unresolved: st.unresolved.insert(e, w), ..st },
            }
        }
    }
}

pub fn format_override_example(x: &SupertypeExpr) -> (r: String)
    ensures
        r@ == unknown_shape(x.view()).override_example,
{
    join3(
        "# Tree: ",
        write_tree(x).as_str(),
        "\n# Choose one of: single_struct / in_enum / enum_base / merged_into / complex_supertype / composite_one_of\nkind = \"single_struct\"",
    )
}

fn note_unknown_shape(x: &SupertypeExpr) -> (r: Unresolved)
    ensures
        r.view() == unknown_shape(x.view()),
{
    let mut reasons: Vec<String> = Vec::new();
    reasons.push(
        join(
            "Rule 8: SUPERTYPE OF tree did not match any automatic rule (Rule 1, 1.5, 2-6). Tree shape: ",
            write_tree(x).as_str(),
        ),
    );
    assert(reasons.deep_view() =~= unknown_shape(x.view()).reasons);
    Unresolved { reasons, override_example: format_override_example(x) }
}

fn decide_remaining(
    e: &str,
    u: &UnifiedSchema,
    idx: &Table<Vec<String>>,
    targets: &NameSet,
    over: &OverrideFile<VariantOverride>,
    d: &Table<VariantSpec>,
) -> (r: Result<VariantSpec, Unresolved>)
    ensures
        match r {
            Ok(k) => remaining_kind(u.view(), idx@, targets@, over.entity@, d@, e@) == Ok::<
                SpecModel,
                UnresolvedModel,
            >(k.view()),
            Err(w) => remaining_kind(u.view(), idx@, targets@, over.entity@, d@, e@) == Err::<
                SpecModel,
                UnresolvedModel,
            >(w.view()),
        },
{
    if let Some(o) = over.entity.get(e) {
        return Ok(VariantSpec::from(o.duplicate()));
    }
    let children: usize = match idx.get(e) {
        Some(kids) => {
            assert(idx@[e@].len() == kids@.len());
            kids.len()
        },
        None => 0,
    };
    if !u.supertype_exprs.contains_key(e) && !attr_names(u, e).is_empty() && children >= 1
        && targets.contains(e) {
        return Ok(VariantSpec::ConcreteSupertype);
    }
    if let Some(p) = effective_parent(e, &u.entity_parents, d) {
        let single = match d.get(p.as_str()) {
            Some(VariantSpec::SingleStruct) => true,
            _ => false,
        };
        if single {
            if let Some(k) = try_nested_field(e, p.as_str(), u, idx, targets) {
                return Ok(k);
            }
        }
    }
    if let Some(enum_name) = enclosing_enum_root(e, u, idx, targets, d) {
        return Ok(VariantSpec::InEnum { enum_name });
    }
    if let Some(x) = u.supertype_exprs.get(e) {
        let bare = match x {
            SupertypeExpr::Entity { .. } => true,
            _ => false,
        };
        if !bare {
            return Err(note_unknown_shape(x));
        }
    }
    Ok(VariantSpec::SingleStruct)
}

fn pass2_remaining_kinds(
    u: &UnifiedSchema,
    idx: &Table<Vec<String>>,
    targets: &NameSet,
    topo: &Vec<String>,
    decisions: &mut Table<VariantSpec>,
    unresolved: &mut Table<Unresolved>,
    over: &OverrideFile<VariantOverride>,
)
    requires
        old(unresolved)@ == Map::<Seq<char>, UnresolvedModel>::empty(),
    ensures
        (Classified { decisions: final(decisions)@, unresolved: final(unresolved)@ }) == pass_two(
            u.view(),
            idx@,
            targets@,
            over.entity@,
            old(decisions)@,
            topo.deep_view(),
        ),
{
    let ghost all = topo.deep_view();
    let ghost first = decisions@;
    let mut i: usize = 0;
    assert(all.take(0) =~= seq![]);
    while i < topo.len()
        invariant
            i <= topo@.len(),
            all == topo.deep_view(),
            all.len() == topo@.len(),
            (Classified { decisions: decisions@, unresolved: unresolved@ }) == pass_two(
                u.view(),
                idx@,
                targets@,
                over.entity@,
                first,
                all.take(i as int),
            ),
        decreases topo@.len() - i,
    {
        let e = topo[i].as_str();
        proof {
            assert(all.take(i + 1).drop_last() =~= all.take(i as int));
            assert(all.take(i + 1).last() == e@);
        }
        if !decisions.contains_key(e) {
            match decide_remaining(e, u, idx, targets, over, decisions) {
                Ok(k) => {
                    decisions.insert(e.to_owned(), k);
                },
                Err(w) => {
                    unresolved.insert(e.to_owned(), w);
                },
            }
        }
        i += 1;
    }
    assert(all.take(i as int) =~= all);
}

/// The entities that references lead to.
pub open spec fn reference_targets(edges: Seq<EdgeModel>) -> Set<Seq<char>>
    decreases edges.len(),
{
    if edges.len() == 0 {
        Set::empty()
    } else {
        match edges.last().target {
            TargetModel::Entity(x) => reference_targets(edges.drop_last()).insert(x),
            TargetModel::Undeclared(x) => reference_targets(edges.drop_last()),
        }
    }
}

pub fn collect_polymorphic_targets(u: &UnifiedSchema) -> (r: NameSet)
    ensures
        r@ == reference_targets(u.view().edges),
{
    let ghost all = u.edges.deep_view();
    let mut out = NameSet::new();
    let mut i: usize = 0;
    assert(all.take(0) =~= seq![]);
    while i < u.edges.len()
        invariant
            i <= u.edges@.len(),
            all == u.edges.deep_view(),
            all.len() == u.edges@.len(),
            out@ == reference_targets(all.take(i as int)),
        decreases u.edges@.len() - i,
    {
        proof {
            assert(all.take(i + 1).drop_last() =~= all.take(i as int));
            assert(all.take(i + 1).last() == u.edges@[i as int].view());
        }
        match &u.edges[i].target {
            RefTarget::Entity(x) => {
                out.insert(x.clone());
            },
            RefTarget::Undeclared(_) => {},
        }
        i += 1;
    }
    assert(all.take(i as int) =~= all);
    out
}

/// The classification of all entities.
pub open spec fn classified(u: UnifiedModel, over: Decisions) -> Classified {
    let idx = descendant_index(u.entity_parents);
    let order = topological(u.entity_parents);
    pass_two(
        u,
        idx,
        reference_targets(u.edges),
        over,
        pass_one(u, idx, over, order.reverse()),
        order,
    )
}

/// Classifies all entities: the decisions, and the entities that no rule
/// understands. An override takes the place of the rules.
pub fn classify_all(u: &UnifiedSchema, over: &OverrideFile<VariantOverride>) -> (r: (
    Table<VariantSpec>,
    Table<Unresolved>,
))
    ensures
        (Classified { decisions: r.0@, unresolved: r.1@ }) == classified(u.view(), over.entity@),
        forall|e: Seq<char>, i: int|
            #![trigger r.0@.contains_key(e), u.view().edges[i]]
            r.0@.contains_key(e) && !over.entity@.contains_key(e) && 0 <= i < u.view().edges.len()
                && u.view().edges[i].target == TargetModel::Entity(e) ==> !(
            r.0@[e] is NestedField),
{
    let idx = build_descendant_index(&u.entity_parents);
    let targets = collect_polymorphic_targets(u);
    let topo = topological_order(&u.entity_parents);
    let mut decisions = pass1_supertype_kinds(u, &idx, &topo, over);
    let mut unresolved: Table<Unresolved> = Table::new();
    pass2_remaining_kinds(u, &idx, &targets, &topo, &mut decisions, &mut unresolved, over);
    proof {
        let d = decisions@;
        assert forall|e: Seq<char>, i: int|
            #![trigger d.contains_key(e), u.view().edges[i]]
            d.contains_key(e) && !over.entity@.contains_key(e) && 0 <= i < u.view().edges.len()
                && u.view().edges[i].target == TargetModel::Entity(e) implies !(
        d[e] is NestedField) by {
            crate::infer::variant_laws::law_referenced_is_never_nested(u.view(), over.entity@, e);
        }
    }
    (decisions, unresolved)
}

// ---------------------------------------------------------------------
// Laws of the classification
// ---------------------------------------------------------------------

pub proof fn lemma_split_last(order: Seq<Seq<char>>, x: Seq<char>)
    requires
        order.len() > 0,
    ensures
        order.contains(x) <==> order.drop_last().contains(x) || x == order.last(),
{
    let firsts = order.drop_last();
    if order.contains(x) {
        let i = choose|i: int| 0 <= i < order.len() && order[i] == x;
        if i < firsts.len() {
            assert(firsts[i] == x);
        }
    }
    if firsts.contains(x) {
        let i = choose|i: int| 0 <= i < firsts.len() && firsts[i] == x;
        assert(order[i] == x);
    }
    assert(order[order.len() - 1] == order.last());
}

pub proof fn lemma_pass_one(u: UnifiedModel, idx: Graph, over: Decisions, order: Seq<Seq<char>>)
    ensures
        forall|x: Seq<char>|
            #[trigger] pass_one(u, idx, over, order).contains_key(x) ==> order.contains(x),
        forall|x: Seq<char>|
            order.contains(x) && #[trigger] over.contains_key(x) ==> pass_one(
                u,
                idx,
                over,
                order,
            ).contains_key(x) && pass_one(u, idx, over, order)[x] == over[x],
    decreases order.len(),
{
    if order.len() > 0 {
        lemma_pass_one(u, idx, over, order.drop_last());
        assert forall|x: Seq<char>|
            #[trigger] pass_one(u, idx, over, order).contains_key(x) implies order.contains(x) by {
            lemma_split_last(order, x);
            if x != order.last() {
                assert(pass_one(u, idx, over, order.drop_last()).contains_key(x));
            }
        }
        assert forall|x: Seq<char>|
            order.contains(x) && #[trigger] over.contains_key(x) implies pass_one(
            u,
            idx,
            over,
            order,
        ).contains_key(x) && pass_one(u, idx, over, order)[x] == over[x] by {
            lemma_split_last(order, x);
        }
    }
}

pub proof fn lemma_pass_two(
    u: UnifiedModel,
    idx: Graph,
    targets: Set<Seq<char>>,
    over: Decisions,
    first: Decisions,
    order: Seq<Seq<char>>,
)
    requires
        order.no_duplicates(),
    ensures
        ({
            let r = pass_two(u, idx, targets, over, first, order);
            &&& forall|x: Seq<char>|
                #[trigger] first.contains_key(x) ==> r.decisions.contains_key(x) && r.decisions[x]
                    == first[x]
            &&& forall|x: Seq<char>|
                order.contains(x) ==> #[trigger] r.decisions.contains_key(x)
                    || r.unresolved.contains_key(x)
            &&& forall|x: Seq<char>|
                #[trigger] r.decisions.contains_key(x) ==> first.contains_key(x) || order.contains(
                    x,
                )
            &&& forall|x: Seq<char>|
                #[trigger] r.unresolved.contains_key(x) ==> order.contains(x)
                    && !r.decisions.contains_key(x)
        }),
    decreases order.len(),
{
    if order.len() > 0 {
        let firsts = order.drop_last();
        let e = order.last();
        assert(firsts.no_duplicates()) by {
            assert forall|i: int, j: int|
                0 <= i < firsts.len() && 0 <= j < firsts.len() && i != j implies firsts[i]
                != firsts[j] by {
                assert(order[i] != order[j]);
            }
        }
        lemma_pass_two(u, idx, targets, over, first, firsts);
        let st = pass_two(u, idx, targets, over, first, firsts);
        let r = pass_two(u, idx, targets, over, first, order);
        assert(!firsts.contains(e)) by {
            if firsts.contains(e) {
                let i = choose|i: int| 0 <= i < firsts.len() && firsts[i] == e;
                assert(order[i] == order[order.len() - 1]);
            }
        }
        assert(!st.unresolved.contains_key(e));
        assert forall|x: Seq<char>| order.contains(x) <==> firsts.contains(x) || x == e by {
            lemma_split_last(order, x);
        }
        assert forall|x: Seq<char>| order.contains(x) implies #[trigger] r.decisions.contains_key(x)
            || r.unresolved.contains_key(x) by {
            if x != e {
                assert(st.decisions.contains_key(x) || st.unresolved.contains_key(x));
            }
        }
        assert forall|x: Seq<char>| #[trigger] r.decisions.contains_key(x) implies
            first.contains_key(x) || order.contains(x) by {
            if x != e {
                assert(st.decisions.contains_key(x));
            }
        }
        assert forall|x: Seq<char>| #[trigger] r.unresolved.contains_key(x) implies order.contains(
            x,
        ) && !r.decisions.contains_key(x) by {
            if x != e {
                assert(st.unresolved.contains_key(x));
            }
        }
    }
}

pub proof fn lemma_reverse_contains(s: Seq<Seq<char>>, x: Seq<char>)
    ensures
        s.reverse().contains(x) <==> s.contains(x),
{
    if s.contains(x) {
        let i = choose|i: int| 0 <= i < s.len() && s[i] == x;
        assert(s.reverse()[s.len() - 1 - i] == x);
    }
    if s.reverse().contains(x) {
        let i = choose|i: int| 0 <= i < s.len() && s.reverse()[i] == x;
        assert(s[s.len() - 1 - i] == x);
    }
}

/// Every name of the inheritance graph is decided or left open, none is both,
/// and nothing else is.
pub proof fn law_each_entity_once(u: UnifiedModel, over: Decisions, x: Seq<char>)
    requires
        plain_parents(u.entity_parents),
    ensures
        nodes(u.entity_parents).contains(x) <==> (classified(u, over).decisions.contains_key(x)
            || classified(u, over).unresolved.contains_key(x)),
        !(classified(u, over).decisions.contains_key(x) && classified(
            u,
            over,
        ).unresolved.contains_key(x)),
{
    let idx = descendant_index(u.entity_parents);
    let order = topological(u.entity_parents);
    let first = pass_one(u, idx, over, order.reverse());
    law_order_is_complete(u.entity_parents);
    lemma_pass_one(u, idx, over, order.reverse());
    lemma_pass_two(u, idx, reference_targets(u.edges), over, first, order);
    assert(order.contains(x) <==> nodes(u.entity_parents).contains(x));
    lemma_reverse_contains(order, x);
    if first.contains_key(x) {
        assert(order.reverse().contains(x));
    }
}

/// An override decides for its entity, whatever the rules say.
pub proof fn law_override_decides(u: UnifiedModel, over: Decisions, e: Seq<char>)
    requires
        plain_parents(u.entity_parents),
        nodes(u.entity_parents).contains(e),
        over.contains_key(e),
    ensures
        classified(u, over).decisions.contains_key(e),
        classified(u, over).decisions[e] == over[e],
{
    let idx = descendant_index(u.entity_parents);
    let order = topological(u.entity_parents);
    let first = pass_one(u, idx, over, order.reverse());
    law_order_is_complete(u.entity_parents);
    assert(order.contains(e));
    lemma_reverse_contains(order, e);
    lemma_pass_one(u, idx, over, order.reverse());
    lemma_pass_two(u, idx, reference_targets(u.edges), over, first, order);
    assert(first.contains_key(e));
}

// ---------------------------------------------------------------------
// Where merges and enums lead
// ---------------------------------------------------------------------

proof fn lemma_fewer_distinct(order: Seq<Seq<char>>)
    requires
        order.no_duplicates(),
        order.len() > 0,
    ensures
        order.drop_last().no_duplicates(),
        !order.drop_last().contains(order.last()),
{
    let firsts = order.drop_last();
    assert forall|i: int, j: int|
        0 <= i < firsts.len() && 0 <= j < firsts.len() && i != j implies firsts[i]
        != firsts[j] by {
        assert(order[i] != order[j]);
    }
    if firsts.contains(order.last()) {
        let i = choose|i: int| 0 <= i < firsts.len() && firsts[i] == order.last();
        assert(order[i] == order[order.len() - 1]);
    }
}

/// What the first pass has said of a name it does not take back.
pub proof fn lemma_pass_one_stays(
    u: UnifiedModel,
    idx: Graph,
    over: Decisions,
    order: Seq<Seq<char>>,
    k: int,
    x: Seq<char>,
)
    requires
        order.no_duplicates(),
        0 <= k <= order.len(),
        order.take(k).contains(x),
    ensures
        pass_one(u, idx, over, order).contains_key(x) == pass_one(
            u,
            idx,
            over,
            order.take(k),
        ).contains_key(x),
        pass_one(u, idx, over, order).contains_key(x) ==> pass_one(u, idx, over, order)[x]
            == pass_one(u, idx, over, order.take(k))[x],
    decreases order.len(),
{
    if k == order.len() {
        assert(order.take(k) =~= order);
    } else {
        let firsts = order.drop_last();
        lemma_fewer_distinct(order);
        assert(firsts.take(k) =~= order.take(k));
        lemma_pass_one_stays(u, idx, over, firsts, k, x);
        let i = choose|i: int| 0 <= i < k && order.take(k)[i] == x;
        assert(firsts[i] == x);
        assert(x != order.last());
    }
}

/// The first pass decides a name from what it has said before.
pub proof fn lemma_pass_one_at(
    u: UnifiedModel,
    idx: Graph,
    over: Decisions,
    order: Seq<Seq<char>>,
    k: int,
)
    requires
        order.no_duplicates(),
        0 <= k < order.len(),
    ensures
        ({
            let first = pass_one(u, idx, over, order);
            let d = pass_one(u, idx, over, order.take(k));
            let kind = supertype_kind(u, idx, over, d, order[k]);
            &&& first.contains_key(order[k]) == (kind is Some)
            &&& first.contains_key(order[k]) ==> first[order[k]] == kind->0
            &&& !d.contains_key(order[k])
            &&& forall|x: Seq<char>| #[trigger]
                d.contains_key(x) ==> order.take(k).contains(x) && first.contains_key(x)
                    && first[x] == d[x]
            &&& d.dom().finite()
        }),
{
    let first = pass_one(u, idx, over, order);
    let before = order.take(k);
    let d = pass_one(u, idx, over, before);
    let upto = order.take(k + 1);
    let e = order[k];
    assert(upto.drop_last() =~= before);
    assert(upto.last() == e);
    assert(upto[k] == e);
    lemma_pass_one(u, idx, over, before);
    lemma_pass_one_stays(u, idx, over, order, k + 1, e);
    assert(!before.contains(e)) by {
        if before.contains(e) {
            let i = choose|i: int| 0 <= i < k && before[i] == e;
            assert(order[i] != order[k]);
        }
    }
    assert(!d.contains_key(e));
    assert forall|x: Seq<char>| #[trigger] d.contains_key(x) implies before.contains(x)
        && first.contains_key(x) && first[x] == d[x] by {
        lemma_pass_one_stays(u, idx, over, order, k, x);
    }
    assert(d.dom().subset_of(before.to_set())) by {
        assert forall|x: Seq<char>| d.dom().contains(x) implies before.to_set().contains(x) by {
            assert(d.contains_key(x));
        }
    }
    vstd::seq_lib::seq_to_set_is_finite(before);
    vstd::set_lib::lemma_len_subset(d.dom(), before.to_set());
}

/// A shape gives an entity an enum of its own, and never merges it.
pub proof fn lemma_shape_kind(u: UnifiedModel, e: Seq<char>)
    ensures
        shape_kind(u, e) matches Some(k) ==> k is ComplexSupertype || k is CompositeOneOf,
{
}

/// What the second pass adds it decides from what was said before.
pub proof fn lemma_pass_two_at(
    u: UnifiedModel,
    idx: Graph,
    targets: Set<Seq<char>>,
    over: Decisions,
    first: Decisions,
    order: Seq<Seq<char>>,
    x: Seq<char>,
) -> (k: int)
    requires
        pass_two(u, idx, targets, over, first, order).decisions.contains_key(x),
        !first.contains_key(x),
    ensures
        0 <= k < order.len(),
        order[k] == x,
        remaining_kind(
            u,
            idx,
            targets,
            over,
            pass_two(u, idx, targets, over, first, order.take(k)).decisions,
            x,
        ) == Ok::<SpecModel, UnresolvedModel>(
            pass_two(u, idx, targets, over, first, order).decisions[x],
        ),
    decreases order.len(),
{
    let firsts = order.drop_last();
    let st = pass_two(u, idx, targets, over, first, firsts);
    if st.decisions.contains_key(x) {
        let k = lemma_pass_two_at(u, idx, targets, over, first, firsts, x);
        assert(firsts.take(k) =~= order.take(k));
        k
    } else {
        assert(order.take(order.len() - 1) =~= firsts);
        order.len() - 1
    }
}

/// The first pass gives a name to no enum but the entity's own, and makes no
/// members; an override may.
pub proof fn lemma_pass_one_kinds(
    u: UnifiedModel,
    idx: Graph,
    over: Decisions,
    order: Seq<Seq<char>>,
    x: Seq<char>,
)
    requires
        pass_one(u, idx, over, order).contains_key(x),
    ensures
        ({
            let k = pass_one(u, idx, over, order)[x];
            ||| over.contains_key(x) && k == over[x]
            ||| !(k is InEnum) && (k is EnumBase ==> k == SpecModel::EnumBase { enum_name: x })
        }),
    decreases order.len(),
{
    let firsts = order.drop_last();
    if x != order.last() || supertype_kind(
        u,
        idx,
        over,
        pass_one(u, idx, over, firsts),
        order.last(),
    ) is None {
        lemma_pass_one_kinds(u, idx, over, firsts, x);
    } else {
        lemma_shape_kind(u, x);
    }
}

/// Every enum base has its own name, but for an override that says otherwise.
proof fn lemma_enum_bases(
    u: UnifiedModel,
    idx: Graph,
    targets: Set<Seq<char>>,
    over: Decisions,
    leaves_first: Seq<Seq<char>>,
    order: Seq<Seq<char>>,
    x: Seq<char>,
)
    requires
        ({
            let d = pass_two(
                u,
                idx,
                targets,
                over,
                pass_one(u, idx, over, leaves_first),
                order,
            ).decisions;
            d.contains_key(x) && d[x] is EnumBase
        }),
    ensures
        ({
            let d = pass_two(
                u,
                idx,
                targets,
                over,
                pass_one(u, idx, over, leaves_first),
                order,
            ).decisions;
            ||| over.contains_key(x) && d[x] == over[x]
            ||| d[x] == SpecModel::EnumBase { enum_name: x }
        }),
    decreases order.len(),
{
    let first = pass_one(u, idx, over, leaves_first);
    if order.len() == 0 {
        lemma_pass_one_kinds(u, idx, over, leaves_first, x);
    } else {
        let st = pass_two(u, idx, targets, over, first, order.drop_last());
        if st.decisions.contains_key(x) {
            lemma_enum_bases(u, idx, targets, over, leaves_first, order.drop_last(), x);
        }
    }
}

/// Whether the overrides below `e` that merge an entity merge it into one of its
/// descendants.
pub open spec fn merges_lead_down(parents: Graph, over: Decisions, e: Seq<char>) -> bool {
    forall|x: Seq<char>| #[trigger]
        over.contains_key(x) && above(parents, x, e) && over[x] is MergedInto ==> above(
            parents,
            over[x]->target,
            x,
        )
}

/// The names leaves first.
spec fn leaves_first(parents: Graph) -> Seq<Seq<char>> {
    topological(parents).reverse()
}

/// Where there are no cycles, a descendant is decided before its ancestors.
proof fn lemma_below_is_earlier(parents: Graph, k: int, x: Seq<char>) -> (j: int)
    requires
        plain_parents(parents),
        acyclic(parents),
        0 <= k < leaves_first(parents).len(),
        nodes(parents).contains(x),
        above(parents, x, leaves_first(parents)[k]),
    ensures
        0 <= j < k,
        leaves_first(parents)[j] == x,
{
    let order = topological(parents);
    let rev = leaves_first(parents);
    let n = order.len() as int;
    law_order_is_complete(parents);
    assert(order.contains(x));
    let i = choose|i: int| 0 <= i < n && order[i] == x;
    let e = rev[k];
    law_every_ancestor_comes_first(parents, i, e);
    let h = choose|h: int| 0 <= h < i && order.take(i)[h] == e;
    assert(order[h] == e);
    assert(rev[k] == order[n - 1 - k]);
    assert(h == n - 1 - k);
    assert(rev[n - 1 - i] == order[i]);
    n - 1 - i
}

proof fn lemma_leaves_first(parents: Graph)
    requires
        plain_parents(parents),
    ensures
        leaves_first(parents).no_duplicates(),
        forall|x: Seq<char>|
            leaves_first(parents).contains(x) <==> nodes(parents).contains(x),
{
    let order = topological(parents);
    let rev = leaves_first(parents);
    law_order_is_complete(parents);
    assert forall|i: int, j: int| 0 <= i < rev.len() && 0 <= j < rev.len() && i != j implies rev[i]
        != rev[j] by {
        assert(order[rev.len() - 1 - i] != order[rev.len() - 1 - j]);
    }
    assert forall|x: Seq<char>| rev.contains(x) <==> nodes(parents).contains(x) by {
        lemma_reverse_contains(order, x);
    }
}

/// No name is above itself where there are no cycles.
proof fn lemma_not_above_itself(parents: Graph, k: int)
    requires
        plain_parents(parents),
        acyclic(parents),
        0 <= k < leaves_first(parents).len(),
    ensures
        !above(parents, leaves_first(parents)[k], leaves_first(parents)[k]),
{
    let rev = leaves_first(parents);
    lemma_leaves_first(parents);
    if above(parents, rev[k], rev[k]) {
        assert(rev.contains(rev[k]));
        let j = lemma_below_is_earlier(parents, k, rev[k]);
        assert(rev[j] != rev[k]);
    }
}

/// What stands below a name is a name of the graph.
proof fn lemma_below_is_node(parents: Graph, x: Seq<char>, a: Seq<char>)
    requires
        plain_parents(parents),
        above(parents, x, a),
    ensures
        nodes(parents).contains(x),
{
    assert(parents.contains_key(x)) by {
        let n = choose|n: nat| crate::graph::reached(parents, noted(parents, x), a, n);
        if n == 0 {
            assert(noted(parents, x).contains(a));
        }
    }
    lemma_keys_are_nodes(parents, x);
}

/// The merges seen from the name at `k`: those that were decided before it.
spec fn merges_before(u: UnifiedModel, over: Decisions, k: int) -> Step {
    let d = pass_one(
        u,
        descendant_index(u.entity_parents),
        over,
        leaves_first(u.entity_parents).take(k),
    );
    |y: Seq<char>| merge_next(d, y)
}

/// The merges from a child of an entity lead down, from name to name.
proof fn lemma_merges_lead_on(
    u: UnifiedModel,
    over: Decisions,
    k: int,
    c: Seq<char>,
    i: nat,
    j: nat,
)
    requires
        plain_parents(u.entity_parents),
        acyclic(u.entity_parents),
        0 <= k < leaves_first(u.entity_parents).len(),
        merges_lead_down(u.entity_parents, over, leaves_first(u.entity_parents)[k]),
        noted(u.entity_parents, c).contains(leaves_first(u.entity_parents)[k]),
        i <= j,
        forall|h: nat|
            h < j ==> merges_before(u, over, k)(
                #[trigger] chain_at(merges_before(u, over, k), c, h),
            ) is Some,
    ensures
        above(
            u.entity_parents,
            chain_at(merges_before(u, over, k), c, j),
            leaves_first(u.entity_parents)[k],
        ),
        i < j ==> above(
            u.entity_parents,
            chain_at(merges_before(u, over, k), c, j),
            chain_at(merges_before(u, over, k), c, i),
        ),
    decreases k, 0int, j,
{
    let parents = u.entity_parents;
    let rev = leaves_first(parents);
    let e = rev[k];
    let f = merges_before(u, over, k);
    if j == 0 {
        lemma_parent_above(parents, c, e);
    } else {
        let p = (j - 1) as nat;
        let q = if i < j {
            i
        } else {
            p
        };
        let idx = descendant_index(parents);
        let d = pass_one(u, idx, over, rev.take(k));
        let y = chain_at(f, c, p);
        let t = chain_at(f, c, j);
        lemma_merges_lead_on(u, over, k, c, q, p);
        lemma_leaves_first(parents);
        assert(f(y) is Some);
        assert(t == f(y)->0);
        assert(d.contains_key(y));
        lemma_pass_one_at(u, idx, over, rev, k);
        let b = rev.take(k);
        let h = choose|h: int| 0 <= h < b.len() && b[h] == y;
        assert(rev[h] == y);
        assert forall|x: Seq<char>| #[trigger]
            over.contains_key(x) && above(parents, x, y) && over[x] is MergedInto implies above(
            parents,
            over[x]->target,
            x,
        ) by {
            lemma_above_through(parents, x, y, e);
        }
        lemma_merge_goes_down(u, over, h);
        assert(above(parents, t, y));
        lemma_above_through(parents, t, y, e);
        if q < p {
            lemma_above_through(parents, t, y, chain_at(f, c, q));
        }
    }
}

/// The only effective child of an entity is below it, and not merged.
proof fn lemma_only_child(u: UnifiedModel, over: Decisions, k: int, c: Seq<char>)
    requires
        plain_parents(u.entity_parents),
        acyclic(u.entity_parents),
        0 <= k < leaves_first(u.entity_parents).len(),
        merges_lead_down(u.entity_parents, over, leaves_first(u.entity_parents)[k]),
        noted(u.entity_parents, c).contains(leaves_first(u.entity_parents)[k]),
    ensures
        ({
            let f = merges_before(u, over, k);
            let end = chain_end(f, c);
            above(u.entity_parents, end, leaves_first(u.entity_parents)[k]) && f(end) is None
        }),
    decreases k, 1int, 0int,
{
    let parents = u.entity_parents;
    let rev = leaves_first(parents);
    let f = merges_before(u, over, k);
    let idx = descendant_index(parents);
    let d = pass_one(u, idx, over, rev.take(k));
    lemma_leaves_first(parents);
    lemma_pass_one_at(u, idx, over, rev, k);
    lemma_chain_ends(f, c, d.dom());
    let n = chain_len(f, c);
    let end = chain_end(f, c);
    lemma_merges_lead_on(u, over, k, c, n, n);
    if f(end) is Some {
        let i = choose|i: nat| i < n && #[trigger] chain_at(f, c, i) == chain_at(f, c, n);
        lemma_merges_lead_on(u, over, k, c, i, n);
        lemma_below_is_node(parents, end, rev[k]);
        assert(rev.contains(end));
        let h = choose|h: int| 0 <= h < rev.len() && rev[h] == end;
        lemma_not_above_itself(parents, h);
    }
}

/// An entity that is merged is merged into a descendant; and, unless an override
/// merges it, into one that is not merged.
proof fn lemma_merge_goes_down(u: UnifiedModel, over: Decisions, k: int)
    requires
        plain_parents(u.entity_parents),
        acyclic(u.entity_parents),
        0 <= k < leaves_first(u.entity_parents).len(),
        merges_lead_down(u.entity_parents, over, leaves_first(u.entity_parents)[k]),
        ({
            let e = leaves_first(u.entity_parents)[k];
            over.contains_key(e) && over[e] is MergedInto ==> above(
                u.entity_parents,
                over[e]->target,
                e,
            )
        }),
    ensures
        ({
            let e = leaves_first(u.entity_parents)[k];
            let first = pass_one(
                u,
                descendant_index(u.entity_parents),
                over,
                leaves_first(u.entity_parents),
            );
            merge_next(first, e) matches Some(t) ==> above(u.entity_parents, t, e) && (
            over.contains_key(e) || merge_next(first, t) is None)
        }),
    decreases k, 2int, 0int,
{
    let parents = u.entity_parents;
    let rev = leaves_first(parents);
    let e = rev[k];
    let idx = descendant_index(parents);
    let d = pass_one(u, idx, over, rev.take(k));
    let first = pass_one(u, idx, over, rev);
    lemma_leaves_first(parents);
    lemma_pass_one_at(u, idx, over, rev, k);
    lemma_shape_kind(u, e);
    if merge_next(first, e) is Some && !over.contains_key(e) {
        let kids = effective_children(idx, d, e);
        let t = ordered(kids)[0];
        let c = lemma_effective_child(idx, d, e, t);
        law_children_mirror_parents(parents, e, c);
        let f = merges_before(u, over, k);
        assert(f == (|y: Seq<char>| merge_next(d, y)));
        lemma_only_child(u, over, k, c);
        assert(chain_end(f, c) == t);
        lemma_below_is_node(parents, t, e);
        let j = lemma_below_is_earlier(parents, k, t);
        assert(rev.take(k)[j] == t);
        lemma_pass_one_stays(u, idx, over, rev, k, t);
    }
}

/// The only effective child comes from some child.
proof fn lemma_effective_child(idx: Graph, d: Decisions, e: Seq<char>, t: Seq<char>) -> (c: Seq<
    char,
>)
    requires
        effective_children(idx, d, e).len() == 1,
        t == ordered(effective_children(idx, d, e))[0],
    ensures
        noted(idx, e).contains(c),
        merge_end(d, c) == t,
        forall|x: Seq<char>| #[trigger] noted(idx, e).contains(x) ==> merge_end(d, x) == t,
{
    let kids = effective_children(idx, d, e);
    let list = noted(idx, e);
    let ends = list.map_values(|c: Seq<char>| merge_end(d, c));
    vstd::seq_lib::seq_to_set_is_finite(ends);
    lemma_ordered(kids);
    assert(ordered(kids).contains(t));
    assert(kids.contains(t));
    assert(ends.to_set().contains(t) == ends.contains(t));
    let i = choose|i: int| 0 <= i < ends.len() && ends[i] == t;
    assert(list.contains(list[i]));
    assert forall|x: Seq<char>| #[trigger] list.contains(x) implies merge_end(d, x) == t by {
        let j = choose|j: int| 0 <= j < list.len() && list[j] == x;
        assert(ends[j] == merge_end(d, x));
        assert(ends.contains(ends[j]));
        assert(ends.to_set().contains(ends[j]));
        vstd::set_lib::lemma_set_empty_equivalency_len(kids.remove(t));
        assert(kids.remove(t).len() == 0);
        if ends[j] != t {
            assert(kids.remove(t).contains(ends[j]));
        }
    }
    list[i]
}

proof fn lemma_keys_are_nodes(parents: Graph, x: Seq<char>)
    requires
        plain_parents(parents),
        parents.contains_key(x),
    ensures
        nodes(parents).contains(x),
{
    let keys = ordered(parents.dom());
    lemma_ordered(parents.dom());
    lemma_nodes_finite(parents, keys);
    assert(keys.contains(x));
    let i = choose|i: int| 0 <= i < keys.len() && keys[i] == x;
    assert(nodes_among(parents, keys).contains(keys[i]));
}

/// Merges are resolved to the end: where there are no cycles, an entity that the
/// rules merge is merged into one of its descendants, which is not merged itself.
/// The chain holds merged entities only, and neither the entity nor its target.
pub proof fn law_merges_are_resolved(u: UnifiedModel, over: Decisions, e: Seq<char>)
    requires
        plain_parents(u.entity_parents),
        acyclic(u.entity_parents),
        merges_lead_down(u.entity_parents, over, e),
        !over.contains_key(e),
        classified(u, over).decisions.contains_key(e),
        classified(u, over).decisions[e] is MergedInto,
    ensures
        ({
            let d = classified(u, over).decisions;
            let target = d[e]->target;
            let chain = d[e]->chain;
            &&& above(u.entity_parents, target, e)
            &&& merge_next(d, target) is None
            &&& forall|x: Seq<char>| #[trigger]
                chain.contains(x) ==> merge_next(d, x) is Some && x != e && x != target
        }),
{
    let parents = u.entity_parents;
    let idx = descendant_index(parents);
    let order = topological(parents);
    let rev = leaves_first(parents);
    let targets = reference_targets(u.edges);
    let first = pass_one(u, idx, over, rev);
    let all = classified(u, over).decisions;
    law_order_is_complete(parents);
    lemma_leaves_first(parents);
    lemma_pass_one(u, idx, over, rev);
    lemma_pass_two(u, idx, targets, over, first, order);
    lemma_rules_merge_first(u, over, e);
    assert(rev.contains(e));
    let k = choose|k: int| 0 <= k < rev.len() && rev[k] == e;
    let d = pass_one(u, idx, over, rev.take(k));
    lemma_merge_goes_down(u, over, k);
    lemma_pass_one_at(u, idx, over, rev, k);
    lemma_shape_kind(u, e);
    let t = all[e]->target;
    assert(merge_next(first, e) == Some(t));
    if merge_next(all, t) is Some {
        lemma_below_is_node(parents, t, e);
        if over.contains_key(t) {
            assert(rev.contains(t));
            assert(first.contains_key(t));
        } else {
            lemma_rules_merge_first(u, over, t);
        }
    }
    let chain = all[e]->chain;
    assert(chain == merge_chain(idx, d, e, t));
    assert forall|x: Seq<char>| #[trigger] chain.contains(x) implies merge_next(all, x) is Some
        && x != e && x != t by {
        let f = merge_step_to(d, t);
        let c = idx[e][0];
        let i = choose|i: int| 0 <= i < chain.len() && chain[i] == x;
        lemma_chain_ends(f, c, d.dom());
        assert(x == chain_at(f, c, i as nat));
        assert(f(chain_at(f, c, i as nat)) is Some);
        assert(d.contains_key(x));
        assert(first.contains_key(x));
    }
}

/// What the rules merge they merge in the first pass.
proof fn lemma_rules_merge_first(u: UnifiedModel, over: Decisions, e: Seq<char>)
    requires
        plain_parents(u.entity_parents),
        !over.contains_key(e),
        merge_next(classified(u, over).decisions, e) is Some,
    ensures
        ({
            let first = pass_one(
                u,
                descendant_index(u.entity_parents),
                over,
                leaves_first(u.entity_parents),
            );
            first.contains_key(e) && first[e] == classified(u, over).decisions[e]
        }),
{
    let parents = u.entity_parents;
    let idx = descendant_index(parents);
    let order = topological(parents);
    let targets = reference_targets(u.edges);
    let first = pass_one(u, idx, over, leaves_first(parents));
    law_order_is_complete(parents);
    lemma_pass_two(u, idx, targets, over, first, order);
    if !first.contains_key(e) {
        let k = lemma_pass_two_at(u, idx, targets, over, first, order, e);
    }
}

/// Whether the overrides above `e` that make an entity an enum base give it its
/// own name, or that of one of its ancestors.
pub open spec fn enums_lead_up(parents: Graph, over: Decisions, e: Seq<char>) -> bool {
    forall|x: Seq<char>| #[trigger]
        over.contains_key(x) && above(parents, e, x) && over[x] is EnumBase ==> over[x]->EnumBase_enum_name
            == x || above(parents, x, over[x]->EnumBase_enum_name)
}

pub proof fn lemma_listed_among(d: Decisions, ps: Seq<Seq<char>>)
    ensures
        owner_among(d, ps) matches Some(p) ==> ps.contains(p) && owns_enum(d, p),
        merged_among(d, ps) matches Some(p) ==> ps.contains(p),
    decreases ps.len(),
{
    if ps.len() > 0 {
        let firsts = ps.drop_last();
        lemma_listed_among(d, firsts);
        assert forall|x: Seq<char>| firsts.contains(x) implies ps.contains(x) by {
            let i = choose|i: int| 0 <= i < firsts.len() && firsts[i] == x;
            assert(ps[i] == x);
        }
        assert(ps[ps.len() - 1] == ps.last());
    }
}

/// The steps to an enclosing enum lead up.
pub proof fn lemma_enum_steps_up(parents: Graph, d: Decisions, e: Seq<char>, n: nat)
    ensures
        ({
            let x = chain_at(enum_step(parents, d), e, n);
            x == e || above(parents, e, x)
        }),
    decreases n,
{
    if n > 0 {
        let f = enum_step(parents, d);
        lemma_enum_steps_up(parents, d, e, (n - 1) as nat);
        let y = chain_at(f, e, (n - 1) as nat);
        let ps = noted(parents, y);
        lemma_listed_among(d, ps);
        if f(y) is Some {
            let x = f(y)->0;
            assert(ps.contains(x)) by {
                if merged_among(d, ps) is None {
                    assert(ps[0] == x);
                }
            }
            lemma_parent_above(parents, y, x);
            if y != e {
                lemma_above_through(parents, e, y, x);
            }
        }
    }
}

proof fn lemma_referenced_is_listed(
    u: UnifiedModel,
    idx: Graph,
    targets: Set<Seq<char>>,
    e: Seq<char>,
    chain: Seq<Seq<char>>,
)
    ensures
        referenced_among(u, idx, targets, e, chain) matches Some(x) ==> chain.contains(x),
    decreases chain.len(),
{
    if chain.len() > 0 {
        let firsts = chain.drop_last();
        lemma_referenced_is_listed(u, idx, targets, e, firsts);
        assert forall|x: Seq<char>| firsts.contains(x) implies chain.contains(x) by {
            let i = choose|i: int| 0 <= i < firsts.len() && firsts[i] == x;
            assert(chain[i] == x);
        }
        assert(chain[chain.len() - 1] == chain.last());
    }
}

/// An entity that the rules make a member of an enum is a member of its own enum
/// or of that of one of its ancestors.
pub proof fn law_enum_roots_are_ancestors(u: UnifiedModel, over: Decisions, e: Seq<char>)
    requires
        u.entity_parents.dom().finite(),
        enums_lead_up(u.entity_parents, over, e),
        !over.contains_key(e),
        classified(u, over).decisions.contains_key(e),
        classified(u, over).decisions[e] is InEnum,
    ensures
        ({
            let root = classified(u, over).decisions[e]->InEnum_enum_name;
            root == e || above(u.entity_parents, e, root)
        }),
{
    let parents = u.entity_parents;
    let idx = descendant_index(parents);
    let order = topological(parents);
    let rev = leaves_first(parents);
    let targets = reference_targets(u.edges);
    let first = pass_one(u, idx, over, rev);
    let root = classified(u, over).decisions[e]->InEnum_enum_name;
    if first.contains_key(e) {
        lemma_pass_one_kinds(u, idx, over, rev, e);
        lemma_pass_two_keeps(u, idx, targets, over, first, order, e);
    } else {
        let k = lemma_pass_two_at(u, idx, targets, over, first, order, e);
        let d = pass_two(u, idx, targets, over, first, order.take(k)).decisions;
        let last = chain_end(enum_step(parents, d), e);
        let ps = noted(parents, last);
        assert(enum_root(u, idx, targets, d, e) == Some(root));
        if declared_enum(parents, d, e) is Some {
            let p = owner_among(d, ps)->0;
            lemma_enum_steps_up(parents, d, e, chain_len(enum_step(parents, d), e));
            lemma_listed_among(d, ps);
            lemma_parent_above(parents, last, p);
            if last != e {
                lemma_above_through(parents, e, last, p);
            }
            if d[p] is EnumBase {
                lemma_enum_bases(u, idx, targets, over, rev, order.take(k), p);
                if root != p {
                    lemma_above_through(parents, e, p, root);
                }
            }
        } else {
            lemma_referenced_is_listed(u, idx, targets, e, upward_chain(parents, e));
            law_upward_chain_goes_up(parents, e, root);
        }
    }
}

pub proof fn lemma_pass_two_keeps(
    u: UnifiedModel,
    idx: Graph,
    targets: Set<Seq<char>>,
    over: Decisions,
    first: Decisions,
    order: Seq<Seq<char>>,
    x: Seq<char>,
)
    requires
        first.contains_key(x),
    ensures
        pass_two(u, idx, targets, over, first, order).decisions.contains_key(x),
        pass_two(u, idx, targets, over, first, order).decisions[x] == first[x],
    decreases order.len(),
{
    if order.len() > 0 {
        lemma_pass_two_keeps(u, idx, targets, over, first, order.drop_last(), x);
    }
}

// ---------------------------------------------------------------------
// Counting
// ---------------------------------------------------------------------

/// How many entities have each kind.
#[derive(Debug, Clone, Copy, PartialEq, Eq)]
pub struct KindCounts {
    pub single: usize,
    pub in_enum: usize,
    pub nested: usize,
    pub enum_base: usize,
    pub merged_into: usize,
    pub complex: usize,
    pub composite: usize,
    pub concrete_super: usize,
}

/// How many of `keys` have a kind for which `p` holds.
pub open spec fn count_kind(
    d: Decisions,
    keys: Seq<Seq<char>>,
    p: spec_fn(SpecModel) -> bool,
) -> nat
    decreases keys.len(),
{
    if keys.len() == 0 {
        0
    } else {
        count_kind(d, keys.drop_last(), p) + (if p(d[keys.last()]) {
            1nat
        } else {
            0nat
        })
    }
}

impl KindCounts {
    /// Whether these are the counts over `keys`.
    pub open spec fn counts(&self, d: Decisions, keys: Seq<Seq<char>>) -> bool {
        &&& self.single == count_kind(d, keys, |k: SpecModel| k is SingleStruct)
        &&& self.in_enum == count_kind(d, keys, |k: SpecModel| k is InEnum)
        &&& self.nested == count_kind(d, keys, |k: SpecModel| k is NestedField)
        &&& self.enum_base == count_kind(d, keys, |k: SpecModel| k is EnumBase)
        &&& self.merged_into == count_kind(d, keys, |k: SpecModel| k is MergedInto)
        &&& self.complex == count_kind(d, keys, |k: SpecModel| k is ComplexSupertype)
        &&& self.composite == count_kind(d, keys, |k: SpecModel| k is CompositeOneOf)
        &&& self.concrete_super == count_kind(d, keys, |k: SpecModel| k is ConcreteSupertype)
    }

    /// Counts the kinds.
    pub fn of(decisions: &Table<VariantSpec>) -> (r: KindCounts)
        ensures
            r.counts(decisions@, ordered(decisions@.dom())),
    {
        let n = decisions.len();
        let ghost o = ordered(decisions@.dom());
        let mut k = KindCounts {
            single: 0,
            in_enum: 0,
            nested: 0,
            enum_base: 0,
            merged_into: 0,
            complex: 0,
            composite: 0,
            concrete_super: 0,
        };
        let mut i: usize = 0;
        assert(o.take(0) =~= seq![]);
        while i < n
            invariant
                i <= n,
                n == o.len(),
                o == ordered(decisions@.dom()),
                k.counts(decisions@, o.take(i as int)),
                k.single <= i && k.in_enum <= i && k.nested <= i && k.enum_base <= i,
                k.merged_into <= i && k.complex <= i && k.composite <= i && k.concrete_super <= i,
            decreases n - i,
        {
            assert(o.take(i + 1).drop_last() =~= o.take(i as int));
            assert(o.take(i + 1).last() == o[i as int]);
            match decisions.value_at(i) {
                VariantSpec::SingleStruct => {
                    k.single = k.single + 1;
                },
                VariantSpec::InEnum { .. } => {
                    k.in_enum = k.in_enum + 1;
                },
                VariantSpec::NestedField { .. } => {
                    k.nested = k.nested + 1;
                },
                VariantSpec::EnumBase { .. } => {
                    k.enum_base = k.enum_base + 1;
                },
                VariantSpec::MergedInto { .. } => {
                    k.merged_into = k.merged_into + 1;
                },
                VariantSpec::ComplexSupertype { .. } => {
                    k.complex = k.complex + 1;
                },
                VariantSpec::CompositeOneOf { .. } => {
                    k.composite = k.composite + 1;
                },
                VariantSpec::ConcreteSupertype => {
                    k.concrete_super = k.concrete_super + 1;
                },
            }
            i += 1;
        }
        assert(o.take(i as int) =~= o);
        k
    }
}

/// Every entity counts once: the counts add up to the number of entities.
pub proof fn law_counts_add_up(k: KindCounts, d: Decisions, keys: Seq<Seq<char>>)
    requires
        k.counts(d, keys),
    ensures
        k.single + k.in_enum + k.nested + k.enum_base + k.merged_into + k.complex + k.composite
            + k.concrete_super == keys.len(),
{
    lemma_kinds_add_up(d, keys);
}

proof fn lemma_kinds_add_up(d: Decisions, keys: Seq<Seq<char>>)
    ensures
        count_kind(d, keys, |k: SpecModel| k is SingleStruct) + count_kind(
            d,
            keys,
            |k: SpecModel| k is InEnum,
        ) + count_kind(d, keys, |k: SpecModel| k is NestedField) + count_kind(
            d,
            keys,
            |k: SpecModel| k is EnumBase,
        ) + count_kind(d, keys, |k: SpecModel| k is MergedInto) + count_kind(
            d,
            keys,
            |k: SpecModel| k is ComplexSupertype,
        ) + count_kind(d, keys, |k: SpecModel| k is CompositeOneOf) + count_kind(
            d,
            keys,
            |k: SpecModel| k is ConcreteSupertype,
        ) == keys.len(),
    decreases keys.len(),
{
    if keys.len() > 0 {
        lemma_kinds_add_up(d, keys.drop_last());
    }
}

// ---------------------------------------------------------------------
// The stage
// ---------------------------------------------------------------------

/// What the stage hands on.
pub struct VariantResult {
    pub decisions: Table<VariantSpec>,
    pub pending: PendingFile<VariantSpec>,
    pub counts: KindCounts,
}

/// The overrides for entities that are not there.
pub open spec fn unknown_overrides(u: UnifiedModel, over: Decisions) -> Seq<Seq<char>> {
    unknown_keys(
        "variants_overrides.toml"@,
        "entity"@,
        ordered(over.dom()),
        u.entity_parents.dom(),
    )
}

/// Runs the stage: refuses overrides for entities that are not there, and
/// classifies all entities.
pub fn variant_stage(u: &UnifiedSchema, over: &OverrideFile<VariantOverride>) -> (r: Result<
    VariantResult,
    String,
>)
    ensures
        match r {
            Err(e) => unknown_overrides(u.view(), over.entity@).len() > 0 && e@ == joined(
                unknown_overrides(u.view(), over.entity@),
                "\n"@,
            ),
            Ok(p) => {
                let want = classified(u.view(), over.entity@);
                &&& unknown_overrides(u.view(), over.entity@).len() == 0
                &&& p.decisions@ == want.decisions
                &&& p.pending.unresolved@ == want.unresolved
                &&& p.pending.review@ == Map::<Seq<char>, (SpecModel, Seq<Seq<char>>)>::empty()
                &&& p.pending.stats.total == capped(want.decisions.len() + want.unresolved.len())
                &&& p.pending.stats.confident == want.decisions.len()
                &&& p.pending.stats.review == 0
                &&& p.pending.stats.unresolved == want.unresolved.len()
                &&& p.counts.counts(want.decisions, ordered(want.decisions.dom()))
                &&& p.counts.single == p.decisions@.dom().filter(
                    |x: Seq<char>| p.decisions@[x] is SingleStruct,
                ).len()
                &&& p.counts.in_enum == p.decisions@.dom().filter(
                    |x: Seq<char>| p.decisions@[x] is InEnum,
                ).len()
                &&& p.counts.nested == p.decisions@.dom().filter(
                    |x: Seq<char>| p.decisions@[x] is NestedField,
                ).len()
                &&& p.counts.enum_base == p.decisions@.dom().filter(
                    |x: Seq<char>| p.decisions@[x] is EnumBase,
                ).len()
                &&& p.counts.merged_into == p.decisions@.dom().filter(
                    |x: Seq<char>| p.decisions@[x] is MergedInto,
                ).len()
                &&& plain_parents(u.view().entity_parents) ==> forall|e: Seq<char>| #[trigger]
                    over.entity@.contains_key(e) ==> p.decisions@.contains_key(e) && p.decisions@[e]
                        == over.entity@[e]
            },
        },
{
    let size = u.entity_parents.len();
    let given = over.entity.len();
    let known = NameSet::from_names(&u.entity_parents.keys());
    proof {
        lemma_ordered(u.entity_parents@.dom());
        assert(known@ =~= u.entity_parents@.dom());
    }
    let errs = validate_known(over, "entity", &known, "variants_overrides.toml");
    if errs.len() > 0 {
        assert(errs.deep_view().len() > 0);
        return Err(join_all(&errs, "\n"));
    }
    assert(errs.deep_view().len() == 0);
    let (decisions, unresolved) = classify_all(u, over);
    let stats = PendingStats {
        total: decisions.len().saturating_add(unresolved.len()),
        confident: decisions.len(),
        review: 0,
        unresolved: unresolved.len(),
    };
    let counts = KindCounts::of(&decisions);
    proof {
        crate::infer::variant_laws::law_counts_are_numbers(counts, decisions@);
        let parents = u.view().entity_parents;
        if plain_parents(parents) {
            assert forall|e: Seq<char>| #[trigger] over.entity@.contains_key(
                e,
            ) implies decisions@.contains_key(e) && decisions@[e] == over.entity@[e] by {
                crate::infer::variant_laws::lemma_known_overrides(u.view(), over.entity@, e);
                law_override_decides(u.view(), over.entity@, e);
            }
        }
    }
    Ok(
        VariantResult {
            decisions,
            pending: PendingFile { stats, review: Table::new(), unresolved },
            counts,
        },
    )
}

} // verus!
