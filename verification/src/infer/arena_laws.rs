//! Which groups there are, who is in them, and which arena each has, by the kinds
//! of the entities.

use crate::chains::{lemma_settled, settles};
use crate::infer::arena::{
    arenas_of, entity_groups, groups_among, groups_of, lemma_share_rounds, lemma_sharing_settles,
    map_groups, map_members, map_owners, own_groups, share_round, GroupIndex, GroupModel, Groups,
};
use crate::infer::variant::{Decisions, SpecModel};
use crate::names::{lemma_ordered, ordered};
use vstd::prelude::*;

verus! {

/// Whether an entity of this kind has a struct that is no enum.
pub open spec fn plain_struct(k: SpecModel) -> bool {
    k is SingleStruct || k is ComplexSupertype || k is CompositeOneOf
}

/// Whether `x`, of its kind, calls for the group `g`.
pub open spec fn calls_for(d: Decisions, x: Seq<char>, g: Seq<char>) -> bool {
    ||| plain_struct(d[x]) && x == g
    ||| d[x] is ConcreteSupertype && x == g
    ||| d[x] == (SpecModel::InEnum { enum_name: g })
    ||| d[x] == (SpecModel::EnumBase { enum_name: g })
}

/// Whether `x`, of its kind, is always a member of the group `g`.
pub open spec fn belongs_to(d: Decisions, x: Seq<char>, g: Seq<char>) -> bool {
    ||| d[x] is ConcreteSupertype && x == g
    ||| d[x] == (SpecModel::InEnum { enum_name: g })
}

proof fn lemma_last_or_before<A>(q: Seq<A>, x: A)
    requires
        q.len() > 0,
    ensures
        q.contains(x) <==> q.drop_last().contains(x) || x == q.last(),
{
    let d = q.drop_last();
    if q.contains(x) {
        let i = choose|i: int| 0 <= i < q.len() && q[i] == x;
        if i < d.len() {
            assert(d[i] == x);
        }
    }
    if d.contains(x) {
        let i = choose|i: int| 0 <= i < d.len() && d[i] == x;
        assert(q[i] == x);
    }
    assert(q[q.len() - 1] == q.last());
}

spec fn called_for(d: Decisions, keys: Seq<Seq<char>>, g: Seq<char>) -> bool {
    exists|x: Seq<char>| #[trigger] keys.contains(x) && calls_for(d, x, g)
}

proof fn lemma_groups(d: Decisions, keys: Seq<Seq<char>>, g: Seq<char>)
    ensures
        ({
            let groups = groups_among(d, keys);
            &&& groups.contains_key(g) <==> called_for(d, keys, g)
            &&& groups.contains_key(g) ==> {
                &&& forall|x: Seq<char>| #[trigger]
                    groups[g].members.contains(x) ==> keys.contains(x) && (belongs_to(d, x, g)
                        || plain_struct(d[x]) && x == g)
                &&& forall|x: Seq<char>|
                    keys.contains(x) && belongs_to(d, x, g) ==> #[trigger] groups[g].members.contains(
                        x,
                    )
                &&& !plain_struct(d[g]) ==> groups[g].is_enum
            }
        }),
    decreases keys.len(),
{
    if keys.len() == 0 {
        assert forall|x: Seq<char>| !keys.contains(x) by {}
    } else {
        let before = keys.drop_last();
        let e = keys.last();
        lemma_groups(d, before, g);
        let old_groups = groups_among(d, before);
        let groups = groups_among(d, keys);
        assert forall|x: Seq<char>| #[trigger] keys.contains(x) <==> before.contains(x) || x
            == e by {
            lemma_last_or_before(keys, x);
        }
        if called_for(d, before, g) {
            let x = choose|x: Seq<char>| #[trigger] before.contains(x) && calls_for(d, x, g);
            assert(keys.contains(x));
        }
        assert(keys.contains(e));
        if called_for(d, keys, g) && !calls_for(d, e, g) {
            let x = choose|x: Seq<char>| #[trigger] keys.contains(x) && calls_for(d, x, g);
            assert(before.contains(x));
        }
        if !calls_for(d, e, g) {
            assert(groups.contains_key(g) == old_groups.contains_key(g));
            if groups.contains_key(g) {
                assert(groups[g] == old_groups[g]);
            }
        } else if belongs_to(d, e, g) {
            let made = if old_groups.contains_key(g) {
                old_groups[g].members
            } else {
                seq![]
            };
            let q = groups[g].members;
            assert(q == made.push(e));
            assert(q.drop_last() =~= made);
            assert forall|x: Seq<char>| #[trigger] q.contains(x) <==> made.contains(x) || x == e by {
                lemma_last_or_before(q, x);
            }
            assert forall|x: Seq<char>|
                keys.contains(x) && belongs_to(d, x, g) implies #[trigger] q.contains(x) by {
                if before.contains(x) {
                    assert(called_for(d, before, g));
                    assert(old_groups[g].members.contains(x));
                }
            }
        } else {
            if old_groups.contains_key(g) {
                assert(groups[g] == old_groups[g]);
            }
            if plain_struct(d[e]) && !old_groups.contains_key(g) {
                assert(groups[g].members == seq![g]);
                assert(seq![g].contains(g)) by {
                    assert(seq![g][0] == g);
                }
                assert forall|x: Seq<char>|
                    keys.contains(x) && belongs_to(d, x, g) implies #[trigger] groups[g].members.contains(
                    x,
                ) by {
                    if before.contains(x) {
                        assert(called_for(d, before, g));
                    }
                }
            } else if !old_groups.contains_key(g) {
                assert forall|x: Seq<char>|
                    keys.contains(x) && belongs_to(d, x, g) implies #[trigger] groups[g].members.contains(
                    x,
                ) by {
                    if before.contains(x) {
                        assert(called_for(d, before, g));
                    }
                }
            }
        }
    }
}

proof fn lemma_lone_group(d: Decisions, keys: Seq<Seq<char>>, g: Seq<char>)
    requires
        plain_struct(d[g]),
        forall|x: Seq<char>| #[trigger] keys.contains(x) && calls_for(d, x, g) ==> x == g,
    ensures
        groups_among(d, keys).contains_key(g) ==> groups_among(d, keys)[g] == (GroupModel {
            members: seq![g],
            is_enum: false,
        }),
    decreases keys.len(),
{
    if keys.len() > 0 {
        let before = keys.drop_last();
        let e = keys.last();
        assert forall|x: Seq<char>| #[trigger] before.contains(x) && calls_for(
            d,
            x,
            g,
        ) implies x == g by {
            lemma_last_or_before(keys, x);
            assert(keys.contains(x));
        }
        lemma_lone_group(d, before, g);
        lemma_last_or_before(keys, e);
        assert(keys.contains(e));
        if e != g {
            assert(!calls_for(d, e, g));
        }
    }
}

/// There is a group for each name that some entity calls for, and no other.
pub proof fn law_groups_are_called_for(d: Decisions, g: Seq<char>)
    requires
        d.dom().finite(),
    ensures
        groups_of(d).contains_key(g) <==> exists|x: Seq<char>| #[trigger]
            d.contains_key(x) && calls_for(d, x, g),
{
    let keys = ordered(d.dom());
    lemma_ordered(d.dom());
    lemma_groups(d, keys, g);
    if called_for(d, keys, g) {
        let x = choose|x: Seq<char>| #[trigger] keys.contains(x) && calls_for(d, x, g);
        assert(d.contains_key(x));
    }
    if exists|x: Seq<char>| #[trigger] d.contains_key(x) && calls_for(d, x, g) {
        let x = choose|x: Seq<char>| #[trigger] d.contains_key(x) && calls_for(d, x, g);
        assert(keys.contains(x));
    }
}

/// The members of a group are the members of its enum, and the entity of that name
/// if it has a struct.
pub proof fn law_group_members(d: Decisions, g: Seq<char>, x: Seq<char>)
    requires
        d.dom().finite(),
        groups_of(d).contains_key(g),
    ensures
        groups_of(d)[g].members.contains(x) ==> d.contains_key(x) && (d[x] == (SpecModel::InEnum {
            enum_name: g,
        }) || x == g && (plain_struct(d[x]) || d[x] is ConcreteSupertype)),
        d.contains_key(x) && d[x] == (SpecModel::InEnum { enum_name: g })
            ==> groups_of(d)[g].members.contains(x),
        d.contains_key(g) && d[g] is ConcreteSupertype ==> groups_of(d)[g].members.contains(g),
        d.contains_key(g) && !plain_struct(d[g]) ==> groups_of(d)[g].is_enum,
{
    let keys = ordered(d.dom());
    lemma_ordered(d.dom());
    lemma_groups(d, keys, g);
}

/// An entity with a struct that no enum is named after is a group of its own.
pub proof fn law_plain_structs_stand_alone(d: Decisions, g: Seq<char>)
    requires
        d.dom().finite(),
        d.contains_key(g),
        plain_struct(d[g]),
        forall|x: Seq<char>| #[trigger]
            d.contains_key(x) && x != g ==> d[x] != (SpecModel::InEnum { enum_name: g }) && d[x]
                != (SpecModel::EnumBase { enum_name: g }),
    ensures
        groups_of(d).contains_key(g),
        groups_of(d)[g] == (GroupModel { members: seq![g], is_enum: false }),
{
    let keys = ordered(d.dom());
    lemma_ordered(d.dom());
    law_groups_are_called_for(d, g);
    lemma_groups(d, keys, g);
    assert(calls_for(d, g, g));
    assert forall|x: Seq<char>| #[trigger] keys.contains(x) && calls_for(d, x, g) implies x == g by {
        assert(d.contains_key(x));
    }
    lemma_lone_group(d, keys, g);
}

/// Every group has an arena: the one that an override gives it, or else its own
/// name.
pub proof fn law_arenas(d: Decisions, over: Map<Seq<char>, Seq<char>>, g: Seq<char>)
    requires
        groups_of(d).dom().finite(),
    ensures
        arenas_of(d, over).contains_key(g) <==> groups_of(d).contains_key(g) || over.contains_key(
            g,
        ),
        over.contains_key(g) ==> arenas_of(d, over)[g] == over[g],
        groups_of(d).contains_key(g) && !over.contains_key(g) ==> arenas_of(d, over)[g] == g,
{
    lemma_ordered(groups_of(d).dom());
}

proof fn lemma_map_members(out: GroupIndex, members: Seq<Seq<char>>, g: Seq<char>, x: Seq<char>)
    ensures
        ({
            let r = map_members(out, members, g);
            &&& members.contains(x) ==> r.contains_key(x) && r[x] == g
            &&& !members.contains(x) ==> r.contains_key(x) == out.contains_key(x)
            &&& !members.contains(x) && out.contains_key(x) ==> r[x] == out[x]
        }),
    decreases members.len(),
{
    if members.len() > 0 {
        lemma_map_members(out, members.drop_last(), g, x);
        lemma_last_or_before(members, x);
    }
}

proof fn lemma_map_groups(
    groups: Groups,
    keys: Seq<Seq<char>>,
    x: Seq<char>,
    g: Seq<char>,
)
    requires
        forall|k: Seq<char>| #[trigger]
            keys.contains(k) && groups[k].members.contains(x) ==> k == g,
    ensures
        map_groups(groups, keys).contains_key(x) <==> keys.contains(g)
            && groups[g].members.contains(x),
        map_groups(groups, keys).contains_key(x) ==> map_groups(groups, keys)[x] == g,
    decreases keys.len(),
{
    if keys.len() > 0 {
        let before = keys.drop_last();
        assert forall|k: Seq<char>| #[trigger]
            before.contains(k) && groups[k].members.contains(x) implies k == g by {
            lemma_last_or_before(keys, k);
            assert(keys.contains(k));
        }
        lemma_map_groups(groups, before, x, g);
        lemma_last_or_before(keys, g);
        lemma_last_or_before(keys, keys.last());
        lemma_map_members(
            map_groups(groups, before),
            groups[keys.last()].members,
            keys.last(),
            x,
        );
        assert(keys.contains(keys.last()));
    }
}

proof fn lemma_map_owners(d: Decisions, keys: Seq<Seq<char>>, out: GroupIndex, x: Seq<char>)
    ensures
        ({
            let r = map_owners(d, keys, out);
            &&& out.contains_key(x) ==> r.contains_key(x) && r[x] == out[x]
            &&& !out.contains_key(x) && keys.contains(x) && d[x] is EnumBase ==> r.contains_key(x)
                && r[x] == d[x]->EnumBase_enum_name
            &&& !out.contains_key(x) && keys.contains(x) && (d[x] is ComplexSupertype
                || d[x] is CompositeOneOf) ==> r.contains_key(x) && r[x] == x
            &&& !out.contains_key(x) && !(keys.contains(x) && (d[x] is EnumBase
                || d[x] is ComplexSupertype || d[x] is CompositeOneOf)) ==> !r.contains_key(x)
        }),
    decreases keys.len(),
{
    if keys.len() > 0 {
        lemma_map_owners(d, keys.drop_last(), out, x);
        lemma_last_or_before(keys, x);
    }
}

proof fn lemma_own_groups(d: Decisions, x: Seq<char>)
    requires
        d.dom().finite(),
        groups_of(d).dom().finite(),
        d.contains_key(x),
    ensures
        ({
            let own = own_groups(d);
            match d[x] {
                SpecModel::InEnum { enum_name } => own.contains_key(x) && own[x] == enum_name,
                SpecModel::EnumBase { enum_name } => own.contains_key(x) && own[x] == enum_name,
                SpecModel::NestedField { into, as_field, added_attr_count } => !own.contains_key(x),
                SpecModel::MergedInto { target, chain } => !own.contains_key(x),
                SpecModel::SingleStruct => own.contains_key(x) ==> own[x] == x,
                _ => own.contains_key(x) && own[x] == x,
            }
        }),
        d[x] is SingleStruct && groups_of(d)[x].members.contains(x) ==> own_groups(
            d,
        ).contains_key(x),
{
    let groups = groups_of(d);
    let keys = ordered(groups.dom());
    let g = match d[x] {
        SpecModel::InEnum { enum_name } => enum_name,
        _ => x,
    };
    lemma_ordered(groups.dom());
    lemma_ordered(d.dom());
    assert forall|k: Seq<char>| #[trigger] keys.contains(k) && groups[k].members.contains(
        x,
    ) implies k == g by {
        law_group_members(d, k, x);
    }
    lemma_map_groups(groups, keys, x, g);
    lemma_map_owners(d, ordered(d.dom()), map_groups(groups, keys), x);
    if calls_for(d, x, g) {
        law_groups_are_called_for(d, g);
        law_group_members(d, g, x);
    }
    if keys.contains(g) {
        law_group_members(d, g, x);
    }
}

proof fn lemma_groups_finite(d: Decisions, keys: Seq<Seq<char>>)
    ensures
        groups_among(d, keys).dom().finite(),
    decreases keys.len(),
{
    if keys.len() > 0 {
        lemma_groups_finite(d, keys.drop_last());
    }
}

/// The group of an entity, by its kind: the enum it is a member of or stands for, or
/// its own name if it has a struct; one that goes into another is in the group of
/// that one.
pub proof fn law_group_of_entity(d: Decisions, x: Seq<char>)
    requires
        d.dom().finite(),
        d.contains_key(x),
    ensures
        ({
            let g = entity_groups(d);
            match d[x] {
                SpecModel::InEnum { enum_name } => g.contains_key(x) && g[x] == enum_name,
                SpecModel::EnumBase { enum_name } => g.contains_key(x) && g[x] == enum_name,
                SpecModel::NestedField { into, as_field, added_attr_count } => {
                    &&& g.contains_key(x) <==> g.contains_key(into)
                    &&& g.contains_key(x) ==> g[x] == g[into]
                },
                SpecModel::MergedInto { target, chain } => {
                    &&& g.contains_key(x) <==> g.contains_key(target)
                    &&& g.contains_key(x) ==> g[x] == g[target]
                },
                SpecModel::SingleStruct => {
                    &&& g.contains_key(x) ==> g[x] == x
                    &&& (forall|y: Seq<char>| #[trigger]
                        d.contains_key(y) && y != x ==> d[y] != (SpecModel::InEnum { enum_name: x })
                            && d[y] != (SpecModel::EnumBase { enum_name: x })) ==> g.contains_key(x)
                },
                _ => g.contains_key(x) && g[x] == x,
            }
        }),
{
    let f = share_round(d);
    let own = own_groups(d);
    lemma_groups_finite(d, ordered(d.dom()));
    lemma_own_groups(d, x);
    lemma_sharing_settles(d, 0);
    let n = choose|n: nat| settles(f, own, n);
    lemma_settled(f, own, n);
    lemma_share_rounds(d, n);
    let g = entity_groups(d);
    if d[x] is NestedField || d[x] is MergedInto {
        crate::infer::arena::law_absorbed_share_the_group(d, x);
    }
    if d[x] is SingleStruct && (forall|y: Seq<char>| #[trigger]
        d.contains_key(y) && y != x ==> d[y] != (SpecModel::InEnum { enum_name: x }) && d[y] != (
        SpecModel::EnumBase { enum_name: x })) {
        law_plain_structs_stand_alone(d, x);
        assert(seq![x][0] == x);
        assert(groups_of(d)[x].members.contains(x));
    }
}

} // verus!
