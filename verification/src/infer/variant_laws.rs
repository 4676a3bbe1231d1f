//! What the classification gives, in terms of the schemas' union alone.

use crate::chains::{chain_at, chain_end, chain_len, chain_stops, law_chain_stops_once, Step};
use crate::express::SuperModel;
use crate::graph::Graph;
use crate::infer::hierarchy::{
    above, descendant_index, descendants_of, law_children_mirror_parents,
    law_descendants_are_all_below, law_order_is_complete, lemma_above_through, lemma_parent_above,
    nodes, noted, plain_parents, topological,
};
use crate::infer::refgraph::{EdgeModel, TargetModel, UnifiedModel};
use crate::infer::variant::{
    added_attrs, attrs_of, bare_names, classified, complex_supertype, count_kind, declared_enum,
    effective_children, enum_step, extending, has_oneof, implicit_supertype, is_optional,
    lemma_pass_one_at, lemma_pass_two_at, lemma_pass_two_keeps, lemma_reverse_contains,
    lemma_shape_kind, lemma_split_last, list_has_oneof, list_tree_names, merge_chain, merge_end,
    merge_next, merged_parent_step, nested_kind, nests, oneof_members, owner_among, pass_one,
    pass_two, polymorphic, reference_targets, remaining_kind, supertype_kind, tree_names,
    unmerged_parent, Decisions, MemberModel, SpecModel,
};
use crate::names::{lemma_ordered, ordered};
use vstd::prelude::*;
use vstd::string::*;

verus! {

broadcast use vstd::string::group_string_axioms;

// ---------------------------------------------------------------------
// References
// ---------------------------------------------------------------------

/// Whether some attribute of some entity refers to `e`.
pub open spec fn referenced(u: UnifiedModel, e: Seq<char>) -> bool {
    exists|i: int|
        0 <= i < u.edges.len() && (#[trigger] u.edges[i]).target == TargetModel::Entity(e)
}

proof fn lemma_targets(edges: Seq<EdgeModel>, e: Seq<char>)
    ensures
        reference_targets(edges).contains(e) <==> exists|i: int|
            0 <= i < edges.len() && (#[trigger] edges[i]).target == TargetModel::Entity(e),
    decreases edges.len(),
{
    if edges.len() > 0 {
        let d = edges.drop_last();
        lemma_targets(d, e);
        assert(edges[edges.len() - 1] == edges.last());
        if exists|i: int| 0 <= i < d.len() && (#[trigger] d[i]).target == TargetModel::Entity(e) {
            let i = choose|i: int|
                0 <= i < d.len() && (#[trigger] d[i]).target == TargetModel::Entity(e);
            assert(edges[i].target == TargetModel::Entity(e));
        }
        if exists|i: int|
            0 <= i < edges.len() && (#[trigger] edges[i]).target == TargetModel::Entity(e) {
            let i = choose|i: int|
                0 <= i < edges.len() && (#[trigger] edges[i]).target == TargetModel::Entity(e);
            if i < d.len() {
                assert(d[i].target == TargetModel::Entity(e));
            }
        }
    }
}

/// The targets of references are the entities that some edge points to.
pub proof fn law_targets_are_referenced(u: UnifiedModel, e: Seq<char>)
    ensures
        reference_targets(u.edges).contains(e) <==> referenced(u, e),
{
    lemma_targets(u.edges, e);
}

// ---------------------------------------------------------------------
// Fields of a parent
// ---------------------------------------------------------------------

/// What the first pass says of an entity it decided.
proof fn lemma_first_kind(
    u: UnifiedModel,
    idx: Graph,
    over: Decisions,
    order: Seq<Seq<char>>,
    x: Seq<char>,
) -> (k: int)
    requires
        pass_one(u, idx, over, order).contains_key(x),
    ensures
        0 <= k < order.len(),
        order[k] == x,
        supertype_kind(u, idx, over, pass_one(u, idx, over, order.take(k)), x) == Some(
            pass_one(u, idx, over, order)[x],
        ),
    decreases order.len(),
{
    let d = order.drop_last();
    let before = pass_one(u, idx, over, d);
    let last = (order.len() - 1) as int;
    if order.last() == x && supertype_kind(u, idx, over, before, x) is Some {
        assert(order.take(last) =~= d);
        last
    } else {
        let k = lemma_first_kind(u, idx, over, d, x);
        assert(order.take(k) =~= d.take(k));
        k
    }
}

proof fn lemma_nested_comes_last(u: UnifiedModel, over: Decisions, e: Seq<char>) -> (d: Decisions)
    requires
        !over.contains_key(e),
        classified(u, over).decisions.contains_key(e),
        classified(u, over).decisions[e] is NestedField,
    ensures
        nested_kind(
            u,
            descendant_index(u.entity_parents),
            reference_targets(u.edges),
            d,
            e,
        ) == Some(classified(u, over).decisions[e]),
        forall|x: Seq<char>| #[trigger]
            d.contains_key(x) ==> classified(u, over).decisions.contains_key(x) && classified(
                u,
                over,
            ).decisions[x] == d[x],
{
    let idx = descendant_index(u.entity_parents);
    let order = topological(u.entity_parents);
    let targets = reference_targets(u.edges);
    let first = pass_one(u, idx, over, order.reverse());
    if first.contains_key(e) {
        let k = lemma_first_kind(u, idx, over, order.reverse(), e);
        lemma_shape_kind(u, e);
        lemma_pass_two_keeps(u, idx, targets, over, first, order, e);
    }
    let k = lemma_pass_two_at(u, idx, targets, over, first, order, e);
    let d = pass_two(u, idx, targets, over, first, order.take(k)).decisions;
    assert forall|x: Seq<char>| #[trigger] d.contains_key(x) implies classified(
        u,
        over,
    ).decisions.contains_key(x) && classified(u, over).decisions[x] == d[x] by {
        lemma_pass_two_grows(u, idx, targets, over, first, order, k, x);
    }
    d
}

proof fn lemma_pass_two_grows(
    u: UnifiedModel,
    idx: Graph,
    targets: Set<Seq<char>>,
    over: Decisions,
    first: Decisions,
    order: Seq<Seq<char>>,
    k: int,
    x: Seq<char>,
)
    requires
        0 <= k <= order.len(),
        pass_two(u, idx, targets, over, first, order.take(k)).decisions.contains_key(x),
    ensures
        pass_two(u, idx, targets, over, first, order).decisions.contains_key(x),
        pass_two(u, idx, targets, over, first, order).decisions[x] == pass_two(
            u,
            idx,
            targets,
            over,
            first,
            order.take(k),
        ).decisions[x],
    decreases order.len(),
{
    if k == order.len() {
        assert(order.take(k) =~= order);
    } else {
        assert(order.take(k) =~= order.drop_last().take(k));
        lemma_pass_two_grows(u, idx, targets, over, first, order.drop_last(), k, x);
    }
}

/// An entity that some attribute refers to is never folded into its parent, unless
/// an override says so.
pub proof fn law_referenced_is_never_nested(u: UnifiedModel, over: Decisions, e: Seq<char>)
    requires
        !over.contains_key(e),
        exists|i: int|
            0 <= i < u.edges.len() && (#[trigger] u.edges[i]).target == TargetModel::Entity(e),
        classified(u, over).decisions.contains_key(e),
    ensures
        !(classified(u, over).decisions[e] is NestedField),
{
    if classified(u, over).decisions[e] is NestedField {
        let d = lemma_nested_comes_last(u, over, e);
        law_targets_are_referenced(u, e);
    }
}

/// Whether `e` has the attribute `a` in the union.
pub open spec fn has_attr(u: UnifiedModel, e: Seq<char>, a: Seq<char>) -> bool {
    u.entity_attrs.contains_key(e) && u.entity_attrs[e].contains(a)
}

proof fn lemma_unmerged_is_above(parents: Graph, d: Decisions, e: Seq<char>, n: nat)
    ensures
        ({
            let x = chain_at(merged_parent_step(parents, d), e, n);
            x == e || above(parents, e, x)
        }),
    decreases n,
{
    if n > 0 {
        let f = merged_parent_step(parents, d);
        let before = chain_at(f, e, (n - 1) as nat);
        lemma_unmerged_is_above(parents, d, e, (n - 1) as nat);
        if f(before) is Some {
            let p = f(before)->0;
            assert(noted(parents, before)[0] == p);
            lemma_parent_above(parents, before, p);
            if before != e {
                lemma_above_through(parents, e, before, p);
            }
        }
    }
}

proof fn lemma_none_extends(u: UnifiedModel, names: Seq<Seq<char>>, base: Set<Seq<char>>)
    requires
        extending(u, names, base) == 0,
    ensures
        forall|x: Seq<char>| #[trigger] names.contains(x) ==> attrs_of(u, x).subset_of(base),
    decreases names.len(),
{
    if names.len() > 0 {
        lemma_none_extends(u, names.drop_last(), base);
        assert forall|x: Seq<char>| #[trigger] names.contains(x) implies attrs_of(u, x).subset_of(
            base,
        ) by {
            lemma_split_last(names, x);
        }
    }
}

proof fn lemma_one_extends(
    u: UnifiedModel,
    names: Seq<Seq<char>>,
    base: Set<Seq<char>>,
    e: Seq<char>,
)
    requires
        names.contains(e),
        !attrs_of(u, e).subset_of(base),
        extending(u, names, base) <= 1,
    ensures
        extending(u, names, base) == 1,
        forall|x: Seq<char>| #[trigger]
            names.contains(x) && x != e ==> attrs_of(u, x).subset_of(base),
    decreases names.len(),
{
    lemma_split_last(names, e);
    let d = names.drop_last();
    if d.contains(e) {
        lemma_one_extends(u, d, base, e);
    } else {
        lemma_none_extends(u, d, base);
    }
    assert forall|x: Seq<char>| #[trigger] names.contains(x) && x != e implies attrs_of(
        u,
        x,
    ).subset_of(base) by {
        lemma_split_last(names, x);
    }
}

/// An entity that is folded into an ancestor has one parent; the ancestor has a
/// struct of its own, and is the parent where that is not merged away; between one
/// and three attributes are added, one of which at least must be there; the field
/// is named after the one attribute, or after the entity; and no other descendant
/// of the ancestor adds any.
pub proof fn law_nested_fields(u: UnifiedModel, over: Decisions, e: Seq<char>)
    requires
        u.entity_parents.dom().finite(),
        u.entity_attrs.contains_key(e) ==> u.entity_attrs[e].finite(),
        !over.contains_key(e),
        classified(u, over).decisions.contains_key(e),
        classified(u, over).decisions[e] is NestedField,
    ensures
        ({
            let d = classified(u, over).decisions;
            let into = d[e]->into;
            let name = d[e]->as_field;
            let n = d[e]->added_attr_count;
            &&& u.entity_parents.contains_key(e)
            &&& u.entity_parents[e].len() == 1
            &&& above(u.entity_parents, e, into)
            &&& d.contains_key(into)
            &&& d[into] is SingleStruct
            &&& 1 <= n <= 3
            &&& n == u.entity_attrs[e].filter(|a: Seq<char>| !has_attr(u, into, a)).len()
            &&& exists|a: Seq<char>| #[trigger]
                has_attr(u, e, a) && !has_attr(u, into, a) && !(u.entity_attr_types.contains_key(e)
                    && u.entity_attr_types[e].contains_key(a)
                    && u.entity_attr_types[e][a] is Optional)
            &&& n == 1 ==> has_attr(u, e, name) && !has_attr(u, into, name)
            &&& n > 1 ==> name == e + "_ext"@
            &&& forall|x: Seq<char>, a: Seq<char>|
                above(u.entity_parents, x, into) && x != e && #[trigger] has_attr(u, x, a)
                    ==> has_attr(u, into, a)
        }),
{
    let parents = u.entity_parents;
    let idx = descendant_index(parents);
    let targets = reference_targets(u.edges);
    let d = lemma_nested_comes_last(u, over, e);
    let into = unmerged_parent(parents, d, e)->0;
    let extra = added_attrs(u, e, into);
    assert(nests(u, idx, targets, e, into));
    let f = merged_parent_step(parents, d);
    lemma_unmerged_is_above(parents, d, e, chain_len(f, e));
    let last = chain_end(f, e);
    assert(noted(parents, last)[0] == into);
    lemma_parent_above(parents, last, into);
    if last != e {
        lemma_above_through(parents, e, last, into);
    }
    assert(u.entity_attrs.contains_key(e)) by {
        if !u.entity_attrs.contains_key(e) {
            assert(extra =~= Set::empty());
        }
    }
    assert(extra =~= u.entity_attrs[e].filter(|a: Seq<char>| !has_attr(u, into, a)));
    lemma_ordered(extra);
    if extra.len() == 1 {
        assert(extra.contains(ordered(extra)[0]));
    }
    let a0 = choose|a: Seq<char>| extra.contains(a) && !#[trigger] is_optional(u, e, a);
    assert(has_attr(u, e, a0) && !has_attr(u, into, a0));
    let below = descendants_of(idx, into);
    law_descendants_are_all_below(parents, into, e);
    assert(!attrs_of(u, e).subset_of(attrs_of(u, into))) by {
        assert(attrs_of(u, e).contains(a0) && !attrs_of(u, into).contains(a0));
    }
    lemma_one_extends(u, below, attrs_of(u, into), e);
    assert forall|x: Seq<char>, a: Seq<char>|
        above(parents, x, into) && x != e && #[trigger] has_attr(u, x, a) implies has_attr(
        u,
        into,
        a,
    ) by {
        law_descendants_are_all_below(parents, into, x);
        assert(attrs_of(u, x).contains(a));
        assert(attrs_of(u, x).subset_of(attrs_of(u, into)));
    }
}

// ---------------------------------------------------------------------
// Supertypes
// ---------------------------------------------------------------------

/// Whether `c` has `e` among its parents.
pub open spec fn child_of(u: UnifiedModel, c: Seq<char>, e: Seq<char>) -> bool {
    u.entity_parents.contains_key(c) && u.entity_parents[c].contains(e)
}

/// Whether no entity has `e` among its parents.
pub open spec fn is_leaf(u: UnifiedModel, e: Seq<char>) -> bool {
    forall|c: Seq<char>| !#[trigger] child_of(u, c, e)
}

proof fn lemma_children(u: UnifiedModel, e: Seq<char>, c: Seq<char>)
    requires
        u.entity_parents.dom().finite(),
    ensures
        noted(descendant_index(u.entity_parents), e).contains(c) <==> child_of(u, c, e),
{
    law_children_mirror_parents(u.entity_parents, e, c);
}

/// What the first pass says of any entity, and the state it says it in.
proof fn lemma_first_pass(u: UnifiedModel, over: Decisions, e: Seq<char>) -> (d: Decisions)
    requires
        plain_parents(u.entity_parents),
        nodes(u.entity_parents).contains(e),
    ensures
        ({
            let idx = descendant_index(u.entity_parents);
            let first = pass_one(u, idx, over, topological(u.entity_parents).reverse());
            let kind = supertype_kind(u, idx, over, d, e);
            &&& first.contains_key(e) == (kind is Some)
            &&& kind is Some ==> first[e] == kind->0 && classified(
                u,
                over,
            ).decisions.contains_key(e) && classified(u, over).decisions[e] == kind->0
            &&& forall|x: Seq<char>| #[trigger]
                d.contains_key(x) ==> first.contains_key(x) && first[x] == d[x]
        }),
{
    let idx = descendant_index(u.entity_parents);
    let order = topological(u.entity_parents);
    let rev = order.reverse();
    law_order_is_complete(u.entity_parents);
    lemma_reverse_contains(order, e);
    assert(order.contains(e));
    let k = choose|k: int| 0 <= k < rev.len() && rev[k] == e;
    assert forall|i: int, j: int| 0 <= i < rev.len() && 0 <= j < rev.len() && i != j implies rev[i]
        != rev[j] by {
        assert(rev[i] == order[order.len() - 1 - i] && rev[j] == order[order.len() - 1 - j]);
    }
    lemma_pass_one_at(u, idx, over, rev, k);
    let first = pass_one(u, idx, over, rev);
    if first.contains_key(e) {
        lemma_pass_two_keeps(u, idx, reference_targets(u.edges), over, first, order, e);
    }
    pass_one(u, idx, over, rev.take(k))
}

proof fn lemma_second_pass_at(
    u: UnifiedModel,
    idx: Graph,
    targets: Set<Seq<char>>,
    over: Decisions,
    first: Decisions,
    order: Seq<Seq<char>>,
    x: Seq<char>,
) -> (d: Decisions)
    requires
        order.no_duplicates(),
        order.contains(x),
        !first.contains_key(x),
    ensures
        ({
            let r = pass_two(u, idx, targets, over, first, order);
            &&& (match remaining_kind(u, idx, targets, over, d, x) {
                Ok(k) => r.decisions.contains_key(x) && r.decisions[x] == k
                    && !r.unresolved.contains_key(x),
                Err(w) => !r.decisions.contains_key(x) && r.unresolved.contains_key(x)
                    && r.unresolved[x] == w,
            })
            &&& forall|y: Seq<char>| #[trigger]
                d.contains_key(y) ==> r.decisions.contains_key(y) && r.decisions[y] == d[y]
            &&& forall|y: Seq<char>| #[trigger]
                first.contains_key(y) ==> d.contains_key(y) && d[y] == first[y]
        }),
    decreases order.len(),
{
    let before = order.drop_last();
    let e = order.last();
    let st = pass_two(u, idx, targets, over, first, before);
    assert forall|i: int, j: int| 0 <= i < before.len() && 0 <= j < before.len() && i
        != j implies before[i] != before[j] by {
        assert(before[i] == order[i] && before[j] == order[j]);
    }
    lemma_split_last(order, x);
    if before.contains(x) {
        assert(x != e) by {
            let i = choose|i: int| 0 <= i < before.len() && before[i] == x;
            assert(order[i] == x);
            assert(order[order.len() - 1] == e);
        }
        lemma_second_pass_at(u, idx, targets, over, first, before, x)
    } else {
        lemma_untouched(u, idx, targets, over, first, before, x);
        assert forall|y: Seq<char>| #[trigger] first.contains_key(y) implies st.decisions.contains_key(
            y,
        ) && st.decisions[y] == first[y] by {
            lemma_pass_two_keeps(u, idx, targets, over, first, before, y);
        }
        st.decisions
    }
}

proof fn lemma_untouched(
    u: UnifiedModel,
    idx: Graph,
    targets: Set<Seq<char>>,
    over: Decisions,
    first: Decisions,
    order: Seq<Seq<char>>,
    x: Seq<char>,
)
    requires
        !order.contains(x),
        !first.contains_key(x),
    ensures
        !pass_two(u, idx, targets, over, first, order).decisions.contains_key(x),
        !pass_two(u, idx, targets, over, first, order).unresolved.contains_key(x),
    decreases order.len(),
{
    if order.len() > 0 {
        lemma_split_last(order, x);
        lemma_untouched(u, idx, targets, over, first, order.drop_last(), x);
    }
}

/// What the second pass says of an entity that the first left open.
proof fn lemma_second_pass(u: UnifiedModel, over: Decisions, e: Seq<char>) -> (d: Decisions)
    requires
        plain_parents(u.entity_parents),
        nodes(u.entity_parents).contains(e),
        !pass_one(
            u,
            descendant_index(u.entity_parents),
            over,
            topological(u.entity_parents).reverse(),
        ).contains_key(e),
    ensures
        ({
            let idx = descendant_index(u.entity_parents);
            let targets = reference_targets(u.edges);
            let first = pass_one(u, idx, over, topological(u.entity_parents).reverse());
            let r = classified(u, over);
            &&& (match remaining_kind(u, idx, targets, over, d, e) {
                Ok(k) => r.decisions.contains_key(e) && r.decisions[e] == k
                    && !r.unresolved.contains_key(e),
                Err(w) => !r.decisions.contains_key(e) && r.unresolved.contains_key(e)
                    && r.unresolved[e] == w,
            })
            &&& forall|y: Seq<char>| #[trigger]
                d.contains_key(y) ==> r.decisions.contains_key(y) && r.decisions[y] == d[y]
            &&& forall|y: Seq<char>| #[trigger]
                first.contains_key(y) ==> d.contains_key(y) && d[y] == first[y]
        }),
{
    let idx = descendant_index(u.entity_parents);
    let order = topological(u.entity_parents);
    let first = pass_one(u, idx, over, order.reverse());
    law_order_is_complete(u.entity_parents);
    assert(order.contains(e));
    lemma_second_pass_at(u, idx, reference_targets(u.edges), over, first, order, e)
}

proof fn lemma_some_child(u: UnifiedModel, d: Decisions, e: Seq<char>)
    requires
        u.entity_parents.dom().finite(),
    ensures
        ({
            let idx = descendant_index(u.entity_parents);
            let kids = effective_children(idx, d, e);
            &&& kids.finite()
            &&& kids.len() == 0 <==> is_leaf(u, e)
            &&& noted(idx, e).len() == 0 <==> is_leaf(u, e)
            &&& forall|c: Seq<char>| #[trigger] child_of(u, c, e) ==> kids.contains(merge_end(d, c))
            &&& forall|t: Seq<char>| #[trigger]
                kids.contains(t) ==> exists|c: Seq<char>| #[trigger]
                    child_of(u, c, e) && merge_end(d, c) == t
        }),
{
    let idx = descendant_index(u.entity_parents);
    let q = noted(idx, e);
    let ends = q.map_values(|c: Seq<char>| merge_end(d, c));
    let kids = effective_children(idx, d, e);
    assert(kids == ends.to_set());
    vstd::seq_lib::seq_to_set_is_finite(ends);
    assert forall|c: Seq<char>| #[trigger] child_of(u, c, e) implies kids.contains(
        merge_end(d, c),
    ) by {
        lemma_children(u, e, c);
        let i = choose|i: int| 0 <= i < q.len() && q[i] == c;
        assert(ends[i] == merge_end(d, c));
    }
    assert forall|t: Seq<char>| #[trigger] kids.contains(t) implies exists|c: Seq<char>| #[trigger]
        child_of(u, c, e) && merge_end(d, c) == t by {
        let i = choose|i: int| 0 <= i < ends.len() && ends[i] == t;
        assert(q.contains(q[i]));
        lemma_children(u, e, q[i]);
        assert(child_of(u, q[i], e));
    }
    if q.len() > 0 {
        assert(q.contains(q[0]));
        lemma_children(u, e, q[0]);
        assert(child_of(u, q[0], e));
        assert(kids.contains(merge_end(d, q[0])));
        if kids.len() == 0 {
            assert(kids =~= Set::empty());
        }
    } else {
        assert(kids =~= Set::empty());
        assert forall|c: Seq<char>| !#[trigger] child_of(u, c, e) by {
            lemma_children(u, e, c);
        }
    }
}

/// A concrete supertype, where no override says so, is an entity that is not
/// abstract and has no `SUPERTYPE OF` clause, but has attributes and children, and
/// that some attribute refers to; and every such entity is one.
pub proof fn law_concrete_supertypes(u: UnifiedModel, over: Decisions, e: Seq<char>)
    requires
        plain_parents(u.entity_parents),
        nodes(u.entity_parents).contains(e),
        !over.contains_key(e),
    ensures
        classified(u, over).decisions.contains_key(e) && classified(
            u,
            over,
        ).decisions[e] is ConcreteSupertype <==> {
            &&& !u.abstract_entities.contains(e)
            &&& !u.supertype_exprs.contains_key(e)
            &&& exists|a: Seq<char>| #[trigger] has_attr(u, e, a)
            &&& exists|c: Seq<char>| #[trigger] child_of(u, c, e)
            &&& referenced(u, e)
        },
{
    let idx = descendant_index(u.entity_parents);
    let d = lemma_first_pass(u, over, e);
    lemma_some_child(u, d, e);
    lemma_shape_kind(u, e);
    law_targets_are_referenced(u, e);
    let r = classified(u, over).decisions;
    if exists|a: Seq<char>| #[trigger] has_attr(u, e, a) {
        let a = choose|a: Seq<char>| #[trigger] has_attr(u, e, a);
        assert(attrs_of(u, e).contains(a));
    } else {
        assert(attrs_of(u, e) =~= Set::empty()) by {
            assert forall|a: Seq<char>| !attrs_of(u, e).contains(a) by {
                assert(!has_attr(u, e, a));
            }
        }
    }
    if supertype_kind(u, idx, over, d, e) is None {
        let d2 = lemma_second_pass(u, over, e);
        assert(r.contains_key(e) && r[e] is ConcreteSupertype <==> implicit_supertype(
            u,
            idx,
            reference_targets(u.edges),
            e,
        )) by {
            if nested_kind(u, idx, reference_targets(u.edges), d2, e) is Some {
                assert(nested_kind(u, idx, reference_targets(u.edges), d2, e)->0 is NestedField);
            }
        }
    }
}

/// An enum over its children, where no override says so, is named after itself,
/// has at least two children, and is abstract or has a clause with a `ONEOF`.
pub proof fn law_enum_bases(u: UnifiedModel, over: Decisions, e: Seq<char>)
    requires
        plain_parents(u.entity_parents),
        nodes(u.entity_parents).contains(e),
        !over.contains_key(e),
        classified(u, over).decisions.contains_key(e),
        classified(u, over).decisions[e] is EnumBase,
    ensures
        classified(u, over).decisions[e] == (SpecModel::EnumBase { enum_name: e }),
        exists|c1: Seq<char>, c2: Seq<char>|
            c1 != c2 && #[trigger] child_of(u, c1, e) && #[trigger] child_of(u, c2, e),
        u.abstract_entities.contains(e) || (u.supertype_exprs.contains_key(e) && has_oneof(
            u.supertype_exprs[e],
        )),
{
    let idx = descendant_index(u.entity_parents);
    let d = lemma_first_pass(u, over, e);
    lemma_some_child(u, d, e);
    lemma_shape_kind(u, e);
    if supertype_kind(u, idx, over, d, e) is None {
        let d2 = lemma_second_pass(u, over, e);
    } else {
        let kids = effective_children(idx, d, e);
        assert(kids.len() >= 2);
        let t1 = kids.choose();
        let t2 = kids.remove(t1).choose();
        assert(kids.contains(t1));
        assert(kids.remove(t1).contains(t2)) by {
            if kids.remove(t1) =~= Set::empty() {
                assert(kids.remove(t1).len() == 0);
            }
        }
        let c1 = choose|c: Seq<char>| #[trigger] child_of(u, c, e) && merge_end(d, c) == t1;
        let c2 = choose|c: Seq<char>| #[trigger] child_of(u, c, e) && merge_end(d, c) == t2;
        assert(child_of(u, c1, e) && child_of(u, c2, e) && c1 != c2);
    }
}

/// A leaf that no override decides is never merged away.
proof fn lemma_leaf_stays(u: UnifiedModel, over: Decisions, c: Seq<char>, d: Decisions)
    requires
        plain_parents(u.entity_parents),
        nodes(u.entity_parents).contains(c),
        !over.contains_key(c),
        is_leaf(u, c),
        forall|x: Seq<char>| #[trigger]
            d.contains_key(x) ==> pass_one(
                u,
                descendant_index(u.entity_parents),
                over,
                topological(u.entity_parents).reverse(),
            ).contains_key(x) && pass_one(
                u,
                descendant_index(u.entity_parents),
                over,
                topological(u.entity_parents).reverse(),
            )[x] == d[x],
    ensures
        merge_next(d, c) is None,
        merge_end(d, c) == c,
{
    let dc = lemma_first_pass(u, over, c);
    lemma_some_child(u, dc, c);
    lemma_shape_kind(u, c);
    let f: Step = |y: Seq<char>| merge_next(d, y);
    lemma_ends_at_once(f, c);
}

proof fn lemma_ends_at_once(f: Step, c: Seq<char>)
    requires
        f(c) is None,
    ensures
        chain_len(f, c) == 0,
        chain_end(f, c) == c,
{
    assert(chain_at(f, c, 0) == c);
    assert(chain_stops(f, c, 0));
    law_chain_stops_once(f, c, 0, chain_len(f, c));
}

proof fn lemma_child_is_node(u: UnifiedModel, c: Seq<char>, e: Seq<char>)
    requires
        u.entity_parents.dom().finite(),
        child_of(u, c, e),
    ensures
        nodes(u.entity_parents).contains(c),
        nodes(u.entity_parents).contains(e),
{
    let keys = ordered(u.entity_parents.dom());
    lemma_ordered(u.entity_parents.dom());
    crate::infer::hierarchy::lemma_nodes_finite(u.entity_parents, keys);
    assert(keys.contains(c));
    let i = choose|i: int| 0 <= i < keys.len() && keys[i] == c;
    assert(u.entity_parents[keys[i]].contains(e));
}

/// An abstract entity without a clause that has two leaves for children is the enum
/// over them.
pub proof fn law_abstract_with_leaves_is_enum(
    u: UnifiedModel,
    over: Decisions,
    e: Seq<char>,
    c1: Seq<char>,
    c2: Seq<char>,
)
    requires
        plain_parents(u.entity_parents),
        !over.contains_key(e) && !over.contains_key(c1) && !over.contains_key(c2),
        u.abstract_entities.contains(e),
        !u.supertype_exprs.contains_key(e),
        c1 != c2,
        child_of(u, c1, e) && child_of(u, c2, e),
        is_leaf(u, c1) && is_leaf(u, c2),
    ensures
        classified(u, over).decisions.contains_key(e),
        classified(u, over).decisions[e] == (SpecModel::EnumBase { enum_name: e }),
{
    let idx = descendant_index(u.entity_parents);
    lemma_child_is_node(u, c1, e);
    lemma_child_is_node(u, c2, e);
    let d = lemma_first_pass(u, over, e);
    lemma_some_child(u, d, e);
    lemma_leaf_stays(u, over, c1, d);
    lemma_leaf_stays(u, over, c2, d);
    let kids = effective_children(idx, d, e);
    assert(kids.contains(c1) && kids.contains(c2));
    assert(kids.len() >= 2) by {
        assert(kids.remove(c1).contains(c2));
        if kids.remove(c1).len() == 0 {
            assert(kids.remove(c1) =~= Set::empty());
        }
    }
}

/// An abstract entity without a clause whose only child is a leaf is merged into it,
/// with nothing between.
pub proof fn law_abstract_with_one_leaf_is_merged(
    u: UnifiedModel,
    over: Decisions,
    e: Seq<char>,
    c: Seq<char>,
)
    requires
        plain_parents(u.entity_parents),
        !over.contains_key(e) && !over.contains_key(c),
        u.abstract_entities.contains(e),
        !u.supertype_exprs.contains_key(e),
        child_of(u, c, e),
        forall|x: Seq<char>| #[trigger] child_of(u, x, e) ==> x == c,
        is_leaf(u, c),
    ensures
        classified(u, over).decisions.contains_key(e),
        classified(u, over).decisions[e] == (SpecModel::MergedInto { target: c, chain: seq![] }),
{
    let idx = descendant_index(u.entity_parents);
    lemma_child_is_node(u, c, e);
    let d = lemma_first_pass(u, over, e);
    lemma_some_child(u, d, e);
    lemma_leaf_stays(u, over, c, d);
    let kids = effective_children(idx, d, e);
    assert(kids =~= set![c]);
    lemma_ordered(kids);
    assert(kids.contains(ordered(kids)[0]));
    let q = noted(idx, e);
    assert(q.len() > 0);
    assert(q.contains(q[0]));
    lemma_children(u, e, q[0]);
    assert(child_of(u, q[0], e));
    let f = crate::infer::variant::merge_step_to(d, c);
    lemma_ends_at_once(f, c);
    assert(merge_chain(idx, d, e, c) =~= seq![]);
}

/// Entities merge away, where no override says so, only if they are abstract, have
/// a clause with a `ONEOF`, or have no attribute; and they have children.
pub proof fn law_merged_have_little(u: UnifiedModel, over: Decisions, e: Seq<char>)
    requires
        plain_parents(u.entity_parents),
        nodes(u.entity_parents).contains(e),
        !over.contains_key(e),
        classified(u, over).decisions.contains_key(e),
        classified(u, over).decisions[e] is MergedInto,
    ensures
        exists|c: Seq<char>| #[trigger] child_of(u, c, e),
        u.abstract_entities.contains(e) || (u.supertype_exprs.contains_key(e) && has_oneof(
            u.supertype_exprs[e],
        )) || (forall|a: Seq<char>| !#[trigger] has_attr(u, e, a)) && (forall|p: Seq<char>,
            c1: Seq<char>,
            c2: Seq<char>,
        |
            child_of(u, e, p) && #[trigger] child_of(u, c1, p) && #[trigger] child_of(u, c2, p)
                ==> c1 == c2),
{
    let idx = descendant_index(u.entity_parents);
    let d = lemma_first_pass(u, over, e);
    lemma_some_child(u, d, e);
    lemma_shape_kind(u, e);
    if supertype_kind(u, idx, over, d, e) is None {
        let d2 = lemma_second_pass(u, over, e);
    } else if attrs_of(u, e) == Set::<Seq<char>>::empty() {
        assert forall|a: Seq<char>| !#[trigger] has_attr(u, e, a) by {
            assert(!attrs_of(u, e).contains(a));
        }
        if !polymorphic(u, e) {
            assert forall|p: Seq<char>, c1: Seq<char>, c2: Seq<char>|
                child_of(u, e, p) && #[trigger] child_of(u, c1, p) && #[trigger] child_of(
                    u,
                    c2,
                    p,
                ) implies c1 == c2 by {
                lemma_children(u, p, c1);
                lemma_children(u, p, c2);
                let q = noted(idx, p);
                let i1 = choose|i: int| 0 <= i < q.len() && q[i] == c1;
                let i2 = choose|i: int| 0 <= i < q.len() && q[i] == c2;
                let ps = noted(u.entity_parents, e);
                let j = choose|j: int| 0 <= j < ps.len() && ps[j] == p;
                assert(noted(idx, ps[j]).len() < 2);
                assert(i1 == 0 && i2 == 0);
            }
        }
    }
}

/// A leaf without a clause whose only parent is an enum is a member of that enum.
pub proof fn law_children_of_enums_are_members(
    u: UnifiedModel,
    over: Decisions,
    e: Seq<char>,
    p: Seq<char>,
)
    requires
        plain_parents(u.entity_parents),
        !over.contains_key(e),
        !over.contains_key(p),
        u.entity_parents.contains_key(e),
        u.entity_parents[e] == seq![p],
        is_leaf(u, e),
        !u.supertype_exprs.contains_key(e),
        classified(u, over).decisions.contains_key(p),
        classified(u, over).decisions[p] is EnumBase,
    ensures
        classified(u, over).decisions.contains_key(e),
        classified(u, over).decisions[e] == (SpecModel::InEnum { enum_name: p }),
{
    let parents = u.entity_parents;
    let idx = descendant_index(parents);
    let targets = reference_targets(u.edges);
    assert(u.entity_parents[e][0] == p);
    assert(child_of(u, e, p));
    lemma_child_is_node(u, e, p);
    law_enum_bases(u, over, p);
    let dp = lemma_first_pass(u, over, p);
    lemma_some_child(u, dp, p);
    if supertype_kind(u, idx, over, dp, p) is None {
        let d2 = lemma_second_pass(u, over, p);
    }
    let d1 = lemma_first_pass(u, over, e);
    lemma_some_child(u, d1, e);
    let d = lemma_second_pass(u, over, e);
    assert(d.contains_key(p) && d[p] is EnumBase);
    let ps = noted(parents, e);
    assert(ps == seq![p]);
    assert(ps.drop_last() =~= seq![]);
    reveal_with_fuel(owner_among, 2);
    assert(owner_among(d, ps) == Some(p));
    let f = merged_parent_step(parents, d);
    lemma_ends_at_once(f, e);
    assert(unmerged_parent(parents, d, e) == Some(p));
    let g = enum_step(parents, d);
    lemma_ends_at_once(g, e);
    assert(declared_enum(parents, d, e) == Some(p));
}

/// An entity that stands alone, with no parent, child or clause, and that is not
/// abstract, has a struct of its own.
pub proof fn law_lone_entities_are_structs(u: UnifiedModel, over: Decisions, e: Seq<char>)
    requires
        plain_parents(u.entity_parents),
        nodes(u.entity_parents).contains(e),
        !over.contains_key(e),
        noted(u.entity_parents, e).len() == 0,
        is_leaf(u, e),
        !u.supertype_exprs.contains_key(e),
    ensures
        classified(u, over).decisions.contains_key(e),
        classified(u, over).decisions[e] is SingleStruct,
{
    let parents = u.entity_parents;
    let idx = descendant_index(parents);
    let d1 = lemma_first_pass(u, over, e);
    lemma_some_child(u, d1, e);
    let d = lemma_second_pass(u, over, e);
    let ps = noted(parents, e);
    assert(ps =~= seq![]);
    lemma_ends_at_once(merged_parent_step(parents, d), e);
    lemma_ends_at_once(enum_step(parents, d), e);
    assert(declared_enum(parents, d, e) is None);
    let chain = crate::infer::hierarchy::upward_chain(parents, e);
    assert forall|x: Seq<char>| chain.contains(x) implies x == e by {
        crate::infer::hierarchy::law_upward_chain_is_complete(parents, e, x);
        if above(parents, e, x) {
            let n = choose|n: nat| crate::graph::reached(parents, ps, x, n);
            assert(!ps.contains(x));
        }
    }
    let below = descendants_of(idx, e);
    assert(below.len() == 0) by {
        if below.len() > 0 {
            assert(below.contains(below[0]));
            law_descendants_are_all_below(parents, e, below[0]);
            lemma_leaf_below(u, e, below[0]);
        }
    }
    lemma_no_referenced(u, idx, reference_targets(u.edges), e, chain);
}

proof fn lemma_leaf_below(u: UnifiedModel, e: Seq<char>, x: Seq<char>)
    requires
        is_leaf(u, e),
    ensures
        !above(u.entity_parents, x, e),
{
    if above(u.entity_parents, x, e) {
        let n = choose|n: nat|
            crate::graph::reached(u.entity_parents, noted(u.entity_parents, x), e, n);
        lemma_leaf_not_reached(u, e, x, n);
    }
}

proof fn lemma_leaf_not_reached(u: UnifiedModel, e: Seq<char>, x: Seq<char>, n: nat)
    requires
        is_leaf(u, e),
    ensures
        !crate::graph::reached(u.entity_parents, noted(u.entity_parents, x), e, n),
    decreases n,
{
    let ps = noted(u.entity_parents, x);
    if n == 0 {
        assert(!child_of(u, x, e));
    } else if crate::graph::reached(u.entity_parents, ps, e, n) {
        let p = choose|p: Seq<char>|
            #[trigger] ps.contains(p) && u.entity_parents.contains_key(p)
                && crate::graph::reached(
                u.entity_parents,
                u.entity_parents[p],
                e,
                (n - 1) as nat,
            );
        lemma_leaf_not_reached(u, e, p, (n - 1) as nat);
    }
}

proof fn lemma_no_referenced(
    u: UnifiedModel,
    idx: Graph,
    targets: Set<Seq<char>>,
    e: Seq<char>,
    chain: Seq<Seq<char>>,
)
    requires
        forall|x: Seq<char>| chain.contains(x) ==> x == e,
        descendants_of(idx, e).len() == 0,
    ensures
        crate::infer::variant::referenced_among(u, idx, targets, e, chain) is None,
    decreases chain.len(),
{
    if chain.len() > 0 {
        let before = chain.drop_last();
        assert forall|x: Seq<char>| before.contains(x) implies x == e by {
            lemma_split_last(chain, x);
        }
        lemma_no_referenced(u, idx, targets, e, before);
        assert(chain[chain.len() - 1] == chain.last());
        assert(chain.contains(chain.last()));
    }
}

/// What is left open has a clause that is more than one name.
pub proof fn law_open_entities_have_clauses(u: UnifiedModel, over: Decisions, e: Seq<char>)
    requires
        plain_parents(u.entity_parents),
        classified(u, over).unresolved.contains_key(e),
    ensures
        !over.contains_key(e),
        u.supertype_exprs.contains_key(e),
        !(u.supertype_exprs[e] is Entity),
        !classified(u, over).decisions.contains_key(e),
{
    crate::infer::variant::law_each_entity_once(u, over, e);
    let d1 = lemma_first_pass(u, over, e);
    let d = lemma_second_pass(u, over, e);
}

// ---------------------------------------------------------------------
// Clauses
// ---------------------------------------------------------------------

/// The expression of bare names.
pub open spec fn plain(names: Seq<Seq<char>>) -> Seq<SuperModel> {
    names.map_values(|n: Seq<char>| SuperModel::Entity(n))
}

proof fn lemma_plain(names: Seq<Seq<char>>)
    ensures
        bare_names(plain(names)) == Some(names),
{
    let c = plain(names);
    assert forall|i: int| 0 <= i < c.len() implies #[trigger] c[i] is Entity by {}
    assert(bare_names(c)->0 =~= names);
}

/// A `ONEOF` of names next to one more name or `ONEOF`, joined by `ANDOR` or `AND`,
/// makes a complex supertype with those names and that mixin, on whichever side
/// the names stand.
pub proof fn law_oneof_with_mixin(
    u: UnifiedModel,
    over: Decisions,
    e: Seq<char>,
    names: Seq<Seq<char>>,
    mixin: SuperModel,
    all: bool,
    first: bool,
)
    requires
        plain_parents(u.entity_parents),
        nodes(u.entity_parents).contains(e),
        !over.contains_key(e),
        mixin is Entity || mixin is OneOf && first,
        u.supertype_exprs.contains_key(e),
        ({
            let oneof = SuperModel::OneOf(plain(names));
            let parts = if first {
                seq![oneof, mixin]
            } else {
                seq![mixin, oneof]
            };
            u.supertype_exprs[e] == if all {
                SuperModel::And(parts)
            } else {
                SuperModel::AndOr(parts)
            }
        }),
    ensures
        classified(u, over).decisions.contains_key(e),
        classified(u, over).decisions[e] == (SpecModel::ComplexSupertype {
            mixin_pattern: if all {
                "and"@
            } else {
                "andor"@
            },
            oneof_children: names,
            mixin,
        }),
{
    let d = lemma_first_pass(u, over, e);
    lemma_plain(names);
    let oneof = SuperModel::OneOf(plain(names));
    let parts = if first {
        seq![oneof, mixin]
    } else {
        seq![mixin, oneof]
    };
    assert(parts.len() == 2);
}

/// A member of a `ONEOF` that is a composition of bare names.
pub open spec fn composed(m: MemberModel) -> SuperModel {
    match m {
        MemberModel::AndOr(names) => SuperModel::AndOr(plain(names)),
        MemberModel::And(names) => SuperModel::And(plain(names)),
    }
}

/// The members of a `ONEOF` list are sorted into names and compositions part by
/// part: those of two lists one after the other are those of the first, then those
/// of the second.
pub proof fn law_members_in_parts(a: Seq<SuperModel>, b: Seq<SuperModel>)
    ensures
        match (oneof_members(a), oneof_members(b)) {
            (Some((s1, c1)), Some((s2, c2))) => oneof_members(a + b) == Some((s1 + s2, c1 + c2)),
            _ => oneof_members(a + b) is None,
        },
    decreases b.len(),
{
    if b.len() == 0 {
        assert(a + b =~= a);
        if oneof_members(a) is Some {
            let (s1, c1) = oneof_members(a)->0;
            assert(s1 + Seq::<Seq<char>>::empty() =~= s1);
            assert(c1 + Seq::<MemberModel>::empty() =~= c1);
        }
    } else {
        law_members_in_parts(a, b.drop_last());
        assert((a + b).drop_last() =~= a + b.drop_last());
        assert((a + b).last() == b.last());
        match (oneof_members(a), oneof_members(b)) {
            (Some((s1, c1)), Some((s2, c2))) => {
                let (s0, c0) = oneof_members(b.drop_last())->0;
                match b.last() {
                    SuperModel::Entity(n) => {
                        assert((s1 + s0).push(n) =~= s1 + s0.push(n));
                    },
                    SuperModel::AndOr(parts) => {
                        let m = MemberModel::AndOr(bare_names(parts)->0);
                        assert((c1 + c0).push(m) =~= c1 + c0.push(m));
                    },
                    SuperModel::And(parts) => {
                        let m = MemberModel::And(bare_names(parts)->0);
                        assert((c1 + c0).push(m) =~= c1 + c0.push(m));
                    },
                    SuperModel::OneOf(parts) => {},
                }
            },
            _ => {},
        }
    }
}

/// A single member is a name, a composition, or neither.
pub proof fn law_single_members(n: Seq<char>, m: MemberModel, c: Seq<SuperModel>)
    ensures
        oneof_members(seq![SuperModel::Entity(n)]) == Some((seq![n], Seq::<MemberModel>::empty())),
        oneof_members(seq![composed(m)]) == Some((Seq::<Seq<char>>::empty(), seq![m])),
        oneof_members(seq![SuperModel::OneOf(c)]) is None,
{
    reveal_with_fuel(oneof_members, 2);
    let q1 = seq![SuperModel::Entity(n)];
    assert(q1.drop_last() =~= seq![]);
    assert(Seq::<Seq<char>>::empty().push(n) =~= seq![n]);
    let q2 = seq![composed(m)];
    assert(q2.drop_last() =~= seq![]);
    assert(Seq::<MemberModel>::empty().push(m) =~= seq![m]);
    match m {
        MemberModel::AndOr(names) => lemma_plain(names),
        MemberModel::And(names) => lemma_plain(names),
    }
    let q3 = seq![SuperModel::OneOf(c)];
    assert(q3.drop_last() =~= seq![]);
}

/// A `ONEOF` whose members are names and at least one composition makes a
/// `CompositeOneOf` of just these.
pub proof fn law_composite_oneof(
    u: UnifiedModel,
    over: Decisions,
    e: Seq<char>,
    c: Seq<SuperModel>,
)
    requires
        plain_parents(u.entity_parents),
        nodes(u.entity_parents).contains(e),
        !over.contains_key(e),
        u.supertype_exprs.contains_key(e),
        u.supertype_exprs[e] == SuperModel::OneOf(c),
        oneof_members(c) is Some,
        (oneof_members(c)->0).1.len() > 0,
    ensures
        classified(u, over).decisions.contains_key(e),
        classified(u, over).decisions[e] == (SpecModel::CompositeOneOf {
            simple_alternatives: (oneof_members(c)->0).0,
            composite_alternatives: (oneof_members(c)->0).1,
        }),
{
    let d = lemma_first_pass(u, over, e);
}

proof fn lemma_some_oneof(c: Seq<SuperModel>)
    ensures
        list_has_oneof(c) <==> exists|i: int| 0 <= i < c.len() && has_oneof(#[trigger] c[i]),
    decreases c.len(),
{
    if c.len() > 0 {
        let d = c.drop_last();
        lemma_some_oneof(d);
        assert(c[c.len() - 1] == c.last());
        if list_has_oneof(d) {
            let i = choose|i: int| 0 <= i < d.len() && has_oneof(#[trigger] d[i]);
            assert(has_oneof(c[i]));
        }
        if exists|i: int| 0 <= i < c.len() && has_oneof(#[trigger] c[i]) {
            let i = choose|i: int| 0 <= i < c.len() && has_oneof(#[trigger] c[i]);
            if i < d.len() {
                assert(has_oneof(d[i]));
            }
        }
    }
}

/// An expression holds a `ONEOF` if it is one or some part of it holds one.
pub proof fn law_oneof_anywhere(c: Seq<SuperModel>, n: Seq<char>)
    ensures
        has_oneof(SuperModel::OneOf(c)),
        !has_oneof(SuperModel::Entity(n)),
        has_oneof(SuperModel::AndOr(c)) <==> exists|i: int|
            0 <= i < c.len() && has_oneof(#[trigger] c[i]),
        has_oneof(SuperModel::And(c)) <==> exists|i: int|
            0 <= i < c.len() && has_oneof(#[trigger] c[i]),
{
    lemma_some_oneof(c);
}

/// The names of an expression are those of its parts, one after the other.
pub proof fn law_names_in_parts(a: Seq<SuperModel>, b: Seq<SuperModel>, x: SuperModel)
    ensures
        tree_names(SuperModel::OneOf(a + b)) == tree_names(SuperModel::OneOf(a)) + tree_names(
            SuperModel::OneOf(b),
        ),
        tree_names(SuperModel::OneOf(seq![x])) == tree_names(x),
        tree_names(SuperModel::AndOr(a)) == tree_names(SuperModel::OneOf(a)),
        tree_names(SuperModel::And(a)) == tree_names(SuperModel::OneOf(a)),
        x matches SuperModel::Entity(n) ==> tree_names(x) == seq![n],
{
    lemma_names_concat(a, b);
    let q = seq![x];
    reveal_with_fuel(list_tree_names, 2);
    assert(q.drop_last() =~= seq![]);
    assert(list_tree_names(q) =~= tree_names(x));
}

proof fn lemma_names_concat(a: Seq<SuperModel>, b: Seq<SuperModel>)
    ensures
        list_tree_names(a + b) == list_tree_names(a) + list_tree_names(b),
    decreases b.len(),
{
    if b.len() == 0 {
        assert(a + b =~= a);
        assert(list_tree_names(a) + list_tree_names(b) =~= list_tree_names(a));
    } else {
        lemma_names_concat(a, b.drop_last());
        assert((a + b).drop_last() =~= a + b.drop_last());
        assert(list_tree_names(a) + list_tree_names(b) =~= list_tree_names(a) + list_tree_names(
            b.drop_last(),
        ) + tree_names(b.last()));
    }
}

// ---------------------------------------------------------------------
// Counts
// ---------------------------------------------------------------------

proof fn lemma_count_kind(
    d: Decisions,
    keys: Seq<Seq<char>>,
    p: spec_fn(SpecModel) -> bool,
)
    requires
        keys.no_duplicates(),
    ensures
        count_kind(d, keys, p) == keys.to_set().filter(|x: Seq<char>| p(d[x])).len(),
        keys.to_set().filter(|x: Seq<char>| p(d[x])).finite(),
    decreases keys.len(),
{
    let s = keys.to_set().filter(|x: Seq<char>| p(d[x]));
    if keys.len() == 0 {
        assert(s =~= Set::empty());
    } else {
        let before = keys.drop_last();
        let x = keys.last();
        assert forall|i: int, j: int| 0 <= i < before.len() && 0 <= j < before.len() && i
            != j implies before[i] != before[j] by {
            assert(before[i] == keys[i] && before[j] == keys[j]);
        }
        lemma_count_kind(d, before, p);
        let t = before.to_set().filter(|x: Seq<char>| p(d[x]));
        assert(!before.contains(x)) by {
            if before.contains(x) {
                let i = choose|i: int| 0 <= i < before.len() && before[i] == x;
                assert(keys[i] == keys[keys.len() - 1]);
            }
        }
        assert forall|y: Seq<char>| s.contains(y) <==> t.contains(y) || (y == x && p(d[x])) by {
            lemma_split_last(keys, y);
        }
        if p(d[x]) {
            assert(s =~= t.insert(x));
        } else {
            assert(s =~= t);
        }
    }
}

/// Each count is the number of entities of its kind.
pub proof fn law_counts_are_numbers(k: crate::infer::variant::KindCounts, d: Decisions)
    requires
        d.dom().finite(),
        k.counts(d, ordered(d.dom())),
    ensures
        k.single == d.dom().filter(|x: Seq<char>| d[x] is SingleStruct).len(),
        k.in_enum == d.dom().filter(|x: Seq<char>| d[x] is InEnum).len(),
        k.nested == d.dom().filter(|x: Seq<char>| d[x] is NestedField).len(),
        k.enum_base == d.dom().filter(|x: Seq<char>| d[x] is EnumBase).len(),
        k.merged_into == d.dom().filter(|x: Seq<char>| d[x] is MergedInto).len(),
        k.complex == d.dom().filter(|x: Seq<char>| d[x] is ComplexSupertype).len(),
        k.composite == d.dom().filter(|x: Seq<char>| d[x] is CompositeOneOf).len(),
        k.concrete_super == d.dom().filter(|x: Seq<char>| d[x] is ConcreteSupertype).len(),
{
    let keys = ordered(d.dom());
    lemma_ordered(d.dom());
    assert forall|i: int, j: int| 0 <= i < keys.len() && 0 <= j < keys.len() && i != j implies keys[i]
        != keys[j] by {
        if keys[i] == keys[j] {
            crate::names::lemma_sorted_distinct(keys, i, j);
        }
    }
    assert(keys.to_set() =~= d.dom());
    let p1 = |k: SpecModel| k is SingleStruct;
    lemma_count_kind(d, keys, p1);
    assert(keys.to_set().filter(|x: Seq<char>| p1(d[x])) =~= d.dom().filter(
        |x: Seq<char>| d[x] is SingleStruct,
    ));
    let p2 = |k: SpecModel| k is InEnum;
    lemma_count_kind(d, keys, p2);
    assert(keys.to_set().filter(|x: Seq<char>| p2(d[x])) =~= d.dom().filter(
        |x: Seq<char>| d[x] is InEnum,
    ));
    let p3 = |k: SpecModel| k is NestedField;
    lemma_count_kind(d, keys, p3);
    assert(keys.to_set().filter(|x: Seq<char>| p3(d[x])) =~= d.dom().filter(
        |x: Seq<char>| d[x] is NestedField,
    ));
    let p4 = |k: SpecModel| k is EnumBase;
    lemma_count_kind(d, keys, p4);
    assert(keys.to_set().filter(|x: Seq<char>| p4(d[x])) =~= d.dom().filter(
        |x: Seq<char>| d[x] is EnumBase,
    ));
    let p5 = |k: SpecModel| k is MergedInto;
    lemma_count_kind(d, keys, p5);
    assert(keys.to_set().filter(|x: Seq<char>| p5(d[x])) =~= d.dom().filter(
        |x: Seq<char>| d[x] is MergedInto,
    ));
    let p6 = |k: SpecModel| k is ComplexSupertype;
    lemma_count_kind(d, keys, p6);
    assert(keys.to_set().filter(|x: Seq<char>| p6(d[x])) =~= d.dom().filter(
        |x: Seq<char>| d[x] is ComplexSupertype,
    ));
    let p7 = |k: SpecModel| k is CompositeOneOf;
    lemma_count_kind(d, keys, p7);
    assert(keys.to_set().filter(|x: Seq<char>| p7(d[x])) =~= d.dom().filter(
        |x: Seq<char>| d[x] is CompositeOneOf,
    ));
    let p8 = |k: SpecModel| k is ConcreteSupertype;
    lemma_count_kind(d, keys, p8);
    assert(keys.to_set().filter(|x: Seq<char>| p8(d[x])) =~= d.dom().filter(
        |x: Seq<char>| d[x] is ConcreteSupertype,
    ));
}

/// An override that is not complained about is one of an entity.
pub proof fn lemma_known_overrides(u: UnifiedModel, over: Decisions, e: Seq<char>)
    requires
        plain_parents(u.entity_parents),
        over.dom().finite(),
        over.contains_key(e),
        crate::infer::variant::unknown_overrides(u, over).len() == 0,
    ensures
        nodes(u.entity_parents).contains(e),
{
    let keys = ordered(over.dom());
    lemma_ordered(over.dom());
    assert(keys.contains(e));
    lemma_none_unknown(keys, u.entity_parents.dom(), e);
    let all = ordered(u.entity_parents.dom());
    lemma_ordered(u.entity_parents.dom());
    crate::infer::hierarchy::lemma_nodes_finite(u.entity_parents, all);
    assert(all.contains(e));
    let i = choose|i: int| 0 <= i < all.len() && all[i] == e;
    assert(crate::infer::hierarchy::nodes_among(u.entity_parents, all).contains(all[i]));
}

proof fn lemma_none_unknown(keys: Seq<Seq<char>>, known: Set<Seq<char>>, e: Seq<char>)
    requires
        crate::infer::overrides::unknown_keys(
            "variants_overrides.toml"@,
            "entity"@,
            keys,
            known,
        ).len() == 0,
        keys.contains(e),
    ensures
        known.contains(e),
    decreases keys.len(),
{
    lemma_split_last(keys, e);
    if keys.drop_last().contains(e) {
        lemma_none_unknown(keys.drop_last(), known, e);
    }
}

/// An entity without attributes or a clause, not abstract, whose only child is a leaf
/// and that has no parent, is merged into that child.
pub proof fn law_empty_wrapper_is_merged(
    u: UnifiedModel,
    over: Decisions,
    e: Seq<char>,
    c: Seq<char>,
)
    requires
        plain_parents(u.entity_parents),
        !over.contains_key(e) && !over.contains_key(c),
        forall|a: Seq<char>| !#[trigger] has_attr(u, e, a),
        !u.supertype_exprs.contains_key(e),
        noted(u.entity_parents, e).len() == 0,
        child_of(u, c, e),
        forall|x: Seq<char>| #[trigger] child_of(u, x, e) ==> x == c,
        is_leaf(u, c),
    ensures
        classified(u, over).decisions.contains_key(e),
        classified(u, over).decisions[e] == (SpecModel::MergedInto { target: c, chain: seq![] }),
{
    let idx = descendant_index(u.entity_parents);
    lemma_child_is_node(u, c, e);
    let d = lemma_first_pass(u, over, e);
    lemma_some_child(u, d, e);
    lemma_leaf_stays(u, over, c, d);
    let kids = effective_children(idx, d, e);
    assert(kids =~= set![c]);
    lemma_ordered(kids);
    assert(kids.contains(ordered(kids)[0]));
    let q = noted(idx, e);
    assert(q.len() > 0);
    assert(q.contains(q[0]));
    lemma_children(u, e, q[0]);
    assert(child_of(u, q[0], e));
    assert(attrs_of(u, e) =~= Set::empty()) by {
        assert forall|a: Seq<char>| !attrs_of(u, e).contains(a) by {
            assert(!has_attr(u, e, a));
        }
    }
    let f = crate::infer::variant::merge_step_to(d, c);
    lemma_ends_at_once(f, c);
    assert(merge_chain(idx, d, e, c) =~= seq![]);
}

/// An entity that stands for an enum, has a struct with one, or is a composition, lends
/// its name to the leaf below it that has no other parent and no clause.
pub proof fn law_children_of_owners_are_members(
    u: UnifiedModel,
    over: Decisions,
    e: Seq<char>,
    p: Seq<char>,
)
    requires
        plain_parents(u.entity_parents),
        !over.contains_key(e),
        u.entity_parents.contains_key(e),
        u.entity_parents[e] == seq![p],
        is_leaf(u, e),
        !u.supertype_exprs.contains_key(e),
        pass_one(
            u,
            descendant_index(u.entity_parents),
            over,
            topological(u.entity_parents).reverse(),
        ).contains_key(p),
        classified(u, over).decisions[p] is ComplexSupertype || classified(
            u,
            over,
        ).decisions[p] is CompositeOneOf,
    ensures
        classified(u, over).decisions.contains_key(e),
        classified(u, over).decisions[e] == (SpecModel::InEnum { enum_name: p }),
{
    let parents = u.entity_parents;
    let idx = descendant_index(parents);
    let order = topological(parents);
    let first = pass_one(u, idx, over, order.reverse());
    assert(u.entity_parents[e][0] == p);
    assert(child_of(u, e, p));
    lemma_child_is_node(u, e, p);
    lemma_pass_two_keeps(u, idx, reference_targets(u.edges), over, first, order, p);
    let d1 = lemma_first_pass(u, over, e);
    lemma_some_child(u, d1, e);
    let d = lemma_second_pass(u, over, e);
    let ps = noted(parents, e);
    assert(ps == seq![p]);
    assert(ps.drop_last() =~= seq![]);
    reveal_with_fuel(owner_among, 2);
    assert(owner_among(d, ps) == Some(p));
    lemma_ends_at_once(merged_parent_step(parents, d), e);
    assert(unmerged_parent(parents, d, e) == Some(p));
    lemma_ends_at_once(enum_step(parents, d), e);
    assert(declared_enum(parents, d, e) == Some(p));
}

proof fn lemma_referenced_among(
    u: UnifiedModel,
    idx: Graph,
    targets: Set<Seq<char>>,
    e: Seq<char>,
    chain: Seq<Seq<char>>,
)
    ensures
        crate::infer::variant::referenced_among(u, idx, targets, e, chain) matches Some(x)
            ==> targets.contains(x) && descendants_of(idx, x).len() >= 2,
    decreases chain.len(),
{
    if chain.len() > 0 {
        lemma_referenced_among(u, idx, targets, e, chain.drop_last());
    }
}

/// A member that no ancestor with an enum claims is one of an ancestor, or of itself,
/// that some attribute refers to and that has at least two descendants.
pub proof fn law_members_without_declared_enum(u: UnifiedModel, over: Decisions, e: Seq<char>)
    requires
        plain_parents(u.entity_parents),
        nodes(u.entity_parents).contains(e),
        !over.contains_key(e),
        classified(u, over).decisions.contains_key(e),
        classified(u, over).decisions[e] is InEnum,
        forall|x: Seq<char>| #[trigger]
            above(u.entity_parents, e, x) ==> !crate::infer::variant::owns_enum(
                classified(u, over).decisions,
                x,
            ),
    ensures
        referenced(u, classified(u, over).decisions[e]->InEnum_enum_name),
        exists|x: Seq<char>| #[trigger]
            above(u.entity_parents, x, classified(u, over).decisions[e]->InEnum_enum_name),
        descendants_of(
            descendant_index(u.entity_parents),
            classified(u, over).decisions[e]->InEnum_enum_name,
        ).len() >= 2,
{
    let parents = u.entity_parents;
    let idx = descendant_index(parents);
    let targets = reference_targets(u.edges);
    let d1 = lemma_first_pass(u, over, e);
    lemma_shape_kind(u, e);
    let d = lemma_second_pass(u, over, e);
    let root = classified(u, over).decisions[e]->InEnum_enum_name;
    assert(nested_kind(u, idx, targets, d, e) is None);
    if declared_enum(parents, d, e) is Some {
        let f = enum_step(parents, d);
        let last = chain_end(f, e);
        crate::infer::variant::lemma_enum_steps_up(parents, d, e, chain_len(f, e));
        crate::infer::variant::lemma_listed_among(d, noted(parents, last));
        let p = owner_among(d, noted(parents, last))->0;
        lemma_parent_above(parents, last, p);
        if last != e {
            lemma_above_through(parents, e, last, p);
        }
        assert(d.contains_key(p));
        assert(crate::infer::variant::owns_enum(classified(u, over).decisions, p));
    }
    let chain = crate::infer::hierarchy::upward_chain(parents, e);
    lemma_referenced_among(u, idx, targets, e, chain);
    law_targets_are_referenced(u, root);
    let below = descendants_of(idx, root);
    assert(below.contains(below[0]));
    law_descendants_are_all_below(parents, root, below[0]);
}

/// Whether the members are a `ONEOF` of entities in place `at`, which are the children
/// of the complex supertype, and another member, which is its mixin.
pub open spec fn joins_at(c: Seq<SuperModel>, k: SpecModel, at: int) -> bool {
    &&& c[at] is OneOf
    &&& c[1 - at] is Entity || c[1 - at] is OneOf
    &&& k->mixin == c[1 - at]
    &&& k->oneof_children.len() == c[at]->OneOf_0.len()
    &&& forall|i: int|
        0 <= i < k->oneof_children.len() ==> #[trigger] c[at]->OneOf_0[i] == SuperModel::Entity(
            k->oneof_children[i],
        )
}

/// An expression makes a complex supertype only if it joins two members by `ANDOR` or
/// `AND`, one of them a `ONEOF` of entities and the other an entity or a `ONEOF`.
pub proof fn law_complex_joins_two(c: Seq<SuperModel>, x: SuperModel)
    ensures
        complex_supertype(SuperModel::And(c)) matches Some(k) ==> c.len() == 2
            && k is ComplexSupertype && k->mixin_pattern == "and"@ && (joins_at(c, k, 0) || joins_at(
            c,
            k,
            1,
        )),
        complex_supertype(SuperModel::AndOr(c)) matches Some(k) ==> c.len() == 2
            && k is ComplexSupertype && k->mixin_pattern == "andor"@ && (joins_at(c, k, 0)
            || joins_at(c, k, 1)),
        !(x is And) && !(x is AndOr) ==> complex_supertype(x) is None,
{
}

} // verus!
