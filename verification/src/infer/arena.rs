//! Groups of entities, and the arena that each group lives in.

use crate::chains::{lemma_settled, rounds, settled, settles};
use crate::infer::overrides::{lemma_no_unknown_keys, unknown_keys, validate_known, OverrideFile};
use crate::infer::variant::{Decisions, SpecModel, VariantSpec};
use crate::names::{
    lemma_ordered, lemma_tabulate_ends, lemma_tabulate_next, ordered, push_item, sorted, tabulate,
    Duplicate, NameSet, Table,
};
use crate::text::{join_all, joined, outcome, precedes};
use vstd::prelude::*;
use vstd::string::*;

verus! {

broadcast use vstd::string::group_string_axioms;

/// The arena of a group.
#[derive(Debug, PartialEq, Eq)]
pub struct ArenaSpec {
    pub arena: String,
}

impl DeepView for ArenaSpec {
    type V = Seq<char>;

    open spec fn deep_view(&self) -> Seq<char> {
        self.arena@
    }
}

impl Duplicate for ArenaSpec {
    fn duplicate(&self) -> Self {
        ArenaSpec { arena: self.arena.clone() }
    }
}

impl Clone for ArenaSpec {
    fn clone(&self) -> (r: Self)
        ensures
            r.deep_view() == self.deep_view(),
    {
        self.duplicate()
    }
}

/// The members of a group, and whether it is an enum.
#[derive(Debug)]
pub struct GroupInfo {
    pub members: Vec<String>,
    pub is_enum: bool,
}

/// What a `GroupInfo` stands for.
pub struct GroupModel {
    pub members: Seq<Seq<char>>,
    pub is_enum: bool,
}

impl DeepView for GroupInfo {
    type V = GroupModel;

    open spec fn deep_view(&self) -> GroupModel {
        GroupModel { members: self.members.deep_view(), is_enum: self.is_enum }
    }
}

/// The groups by name.
pub type Groups = Map<Seq<char>, GroupModel>;

/// `groups` with `g` in it, as `fresh` if it was not there.
pub open spec fn with_group(groups: Groups, g: Seq<char>, fresh: GroupModel) -> Groups {
    if groups.contains_key(g) {
        groups
    } else {
        groups.insert(g, fresh)
    }
}

/// `groups` with `e` as a further member of the enum `g`.
pub open spec fn with_member(groups: Groups, g: Seq<char>, e: Seq<char>) -> Groups {
    let made = with_group(groups, g, GroupModel { members: seq![], is_enum: true });
    made.insert(
        g,
        GroupModel { members: made[g].members.push(e), is_enum: made[g].is_enum },
    )
}

/// What one entity does to the groups: a struct is a group of its own, a
/// member joins its enum, a base only establishes its enum, a concrete
/// supertype is the first member of its own; nested and merged entities have
/// no group.
pub open spec fn group_entity(groups: Groups, e: Seq<char>, k: SpecModel) -> Groups {
    match k {
        SpecModel::SingleStruct => with_group(
            groups,
            e,
            GroupModel { members: seq![e], is_enum: false },
        ),
        SpecModel::InEnum { enum_name } => with_member(groups, enum_name, e),
        SpecModel::EnumBase { enum_name } => with_group(
            groups,
            enum_name,
            GroupModel { members: seq![], is_enum: true },
        ),
        SpecModel::ComplexSupertype { mixin_pattern, oneof_children, mixin } => with_group(
            groups,
            e,
            GroupModel { members: seq![e], is_enum: false },
        ),
        SpecModel::CompositeOneOf { simple_alternatives, composite_alternatives } => with_group(
            groups,
            e,
            GroupModel { members: seq![e], is_enum: false },
        ),
        SpecModel::ConcreteSupertype => with_member(groups, e, e),
        SpecModel::NestedField { into, as_field, added_attr_count } => groups,
        SpecModel::MergedInto { target, chain } => groups,
    }
}

/// The groups of the entities `keys`, taken in order.
pub open spec fn groups_among(d: Decisions, keys: Seq<Seq<char>>) -> Groups
    decreases keys.len(),
{
    if keys.len() == 0 {
        Map::empty()
    } else {
        group_entity(groups_among(d, keys.drop_last()), keys.last(), d[keys.last()])
    }
}

/// The groups of all entities.
pub open spec fn groups_of(d: Decisions) -> Groups {
    groups_among(d, ordered(d.dom()))
}

fn ensure_group(groups: &mut Table<GroupInfo>, g: &str, member: Option<&String>, is_enum: bool)
    ensures
        final(groups)@ == with_group(
            old(groups)@,
            g@,
            GroupModel {
                members: match member {
                    Some(m) => seq![m@],
                    None => seq![],
                },
                is_enum,
            },
        ),
{
    if !groups.contains_key(g) {
        let mut members: Vec<String> = Vec::new();
        if let Some(m) = member {
            members.push(m.clone());
            assert(members.deep_view() =~= seq![m@]);
        } else {
            assert(members.deep_view() =~= seq![]);
        }
        groups.insert(g.to_owned(), GroupInfo { members, is_enum });
    }
}

fn add_member(groups: &mut Table<GroupInfo>, g: &str, e: &String)
    ensures
        final(groups)@ == with_member(old(groups)@, g@, e@),
{
    let ghost m0 = groups@;
    let mut info = match groups.remove(g) {
        Some(info) => info,
        None => {
            let members: Vec<String> = Vec::new();
            assert(members.deep_view() =~= seq![]);
            GroupInfo { members, is_enum: true }
        },
    };
    push_item(&mut info.members, e.clone());
    let ghost made = with_group(m0, g@, GroupModel { members: seq![], is_enum: true });
    assert(info.deep_view() == GroupModel {
        members: made[g@].members.push(e@),
        is_enum: made[g@].is_enum,
    });
    groups.insert(g.to_owned(), info);
    assert(groups@ =~= with_member(m0, g@, e@));
}

/// Groups the entities.
pub fn compute_groups(variants: &Table<VariantSpec>) -> (r: Table<GroupInfo>)
    ensures
        r@ == groups_of(variants@),
{
    let n = variants.len();
    let ghost o = ordered(variants@.dom());
    let mut groups: Table<GroupInfo> = Table::new();
    let mut i: usize = 0;
    assert(o.take(0) =~= seq![]);
    while i < n
        invariant
            i <= n,
            n == o.len(),
            o == ordered(variants@.dom()),
            groups@ == groups_among(variants@, o.take(i as int)),
        decreases n - i,
    {
        assert(o.take(i + 1).drop_last() =~= o.take(i as int));
        let e = variants.key_at(i);
        match variants.value_at(i) {
            VariantSpec::SingleStruct => {
                ensure_group(&mut groups, e.as_str(), Some(e), false);
            },
            VariantSpec::InEnum { enum_name } => {
                add_member(&mut groups, enum_name.as_str(), e);
            },
            VariantSpec::EnumBase { enum_name } => {
                ensure_group(&mut groups, enum_name.as_str(), None, true);
            },
            VariantSpec::ComplexSupertype { .. } => {
                ensure_group(&mut groups, e.as_str(), Some(e), false);
            },
            VariantSpec::CompositeOneOf { .. } => {
                ensure_group(&mut groups, e.as_str(), Some(e), false);
            },
            VariantSpec::ConcreteSupertype => {
                add_member(&mut groups, e.as_str(), e);
            },
            VariantSpec::NestedField { .. } => {},
            VariantSpec::MergedInto { .. } => {},
        }
        i += 1;
    }
    assert(o.take(i as int) =~= o);
    groups
}

proof fn lemma_members_sorted(d: Decisions, keys: Seq<Seq<char>>)
    requires
        sorted(keys),
    ensures
        forall|g: Seq<char>| #[trigger]
            groups_among(d, keys).contains_key(g) ==> sorted(groups_among(d, keys)[g].members)
                && forall|i: int|
                0 <= i < groups_among(d, keys)[g].members.len() ==> keys.contains(
                    #[trigger] groups_among(d, keys)[g].members[i],
                ),
    decreases keys.len(),
{
    if keys.len() > 0 {
        let firsts = keys.drop_last();
        let e = keys.last();
        assert(sorted(firsts)) by {
            assert forall|i: int, j: int| 0 <= i < j < firsts.len() implies #[trigger] precedes(
                firsts[i],
                firsts[j],
            ) by {
                assert(precedes(keys[i], keys[j]));
            }
        }
        lemma_members_sorted(d, firsts);
        let g0 = groups_among(d, firsts);
        let g1 = groups_among(d, keys);
        assert forall|x: Seq<char>| firsts.contains(x) implies keys.contains(x) && precedes(x, e) by {
            let i = choose|i: int| 0 <= i < firsts.len() && firsts[i] == x;
            assert(keys[i] == x);
            assert(precedes(keys[i], keys[keys.len() - 1]));
        }
        assert(keys[keys.len() - 1] == e);
        assert forall|g: Seq<char>| #[trigger] g1.contains_key(g) implies sorted(g1[g].members)
            && forall|i: int|
            0 <= i < g1[g].members.len() ==> keys.contains(#[trigger] g1[g].members[i]) by {
            let m1 = g1[g].members;
            let m0 = if g0.contains_key(g) {
                g0[g].members
            } else {
                seq![]
            };
            assert(m1 == m0 || m1 == m0.push(e) || m1 == seq![e]);
            assert forall|i: int| 0 <= i < m0.len() implies firsts.contains(#[trigger] m0[i]) by {
                assert(g0.contains_key(g));
            }
            assert forall|i: int, j: int| 0 <= i < j < m1.len() implies #[trigger] precedes(
                m1[i],
                m1[j],
            ) by {
                if j < m0.len() {
                    assert(precedes(m0[i], m0[j]));
                } else {
                    assert(firsts.contains(m0[i]));
                }
            }
            assert forall|i: int| 0 <= i < m1.len() implies keys.contains(#[trigger] m1[i]) by {
                if i < m0.len() && m1 != seq![e] {
                    assert(firsts.contains(m0[i]));
                }
            }
        }
    }
}

/// The members of a group stand in the order of their names.
pub proof fn law_members_in_order(d: Decisions, g: Seq<char>)
    requires
        d.dom().finite(),
        groups_of(d).contains_key(g),
    ensures
        sorted(groups_of(d)[g].members),
{
    lemma_ordered(d.dom());
    lemma_members_sorted(d, ordered(d.dom()));
}

// ---------------------------------------------------------------------
// Arenas
// ---------------------------------------------------------------------

/// The arenas: one per group, named after it, unless an override names
/// another.
pub open spec fn arenas_of(
    d: Decisions,
    over: Map<Seq<char>, Seq<char>>,
) -> Map<Seq<char>, Seq<char>> {
    tabulate(ordered(groups_of(d).dom()), |g: Seq<char>| Some(g)).union_prefer_right(over)
}

/// Computes the arenas; an override for a group that does not exist is an
/// error.
pub fn recompute_for_pruned(
    variants: &Table<VariantSpec>,
    overrides: &OverrideFile<ArenaSpec>,
) -> (r: Result<Table<ArenaSpec>, String>)
    ensures
        outcome(r) == (if overrides.group@.dom().subset_of(groups_of(variants@).dom()) {
            Ok(arenas_of(variants@, overrides.group@))
        } else {
            Err(
                joined(
                    unknown_keys(
                        "arenas_overrides.toml"@,
                        "group"@,
                        ordered(overrides.group@.dom()),
                        groups_of(variants@).dom(),
                    ),
                    "\n"@,
                ),
            )
        }),
{
    let groups = compute_groups(variants);
    let names = groups.keys();
    let size = groups.len();
    let known = NameSet::from_names(&names);
    let total = overrides.group.len();
    let ghost o = ordered(groups@.dom());
    let ghost oo = ordered(overrides.group@.dom());
    proof {
        lemma_ordered(groups@.dom());
        assert(known@ =~= groups@.dom());
        reveal_strlit("entity");
        reveal_strlit("group");
        assert("entity"@ != "group"@) by {
            assert("entity"@.len() != "group"@.len());
        }
        lemma_ordered(overrides.group@.dom());
        lemma_no_unknown_keys("arenas_overrides.toml"@, "group"@, oo, known@);
        if overrides.group@.dom().subset_of(known@) {
            assert forall|i: int| 0 <= i < oo.len() implies known@.contains(#[trigger] oo[i]) by {
                assert(overrides.group@.dom().contains(oo[i]));
            }
        }
        if forall|i: int| 0 <= i < oo.len() ==> known@.contains(#[trigger] oo[i]) {
            assert forall|x: Seq<char>| overrides.group@.dom().contains(x) implies known@.contains(
                x,
            ) by {
                assert(oo.contains(x));
                let i = choose|i: int| 0 <= i < oo.len() && oo[i] == x;
                assert(known@.contains(oo[i]));
            }
        }
    }
    let errs = validate_known(overrides, "group", &known, "arenas_overrides.toml");
    if errs.len() > 0 {
        assert(errs.deep_view().len() > 0);
        return Err(join_all(&errs, "\n"));
    }
    assert(errs.deep_view().len() == 0);
    let ghost f = |g: Seq<char>| Some(g);
    let mut out: Table<ArenaSpec> = Table::new();
    let mut i: usize = 0;
    proof {
        lemma_tabulate_ends(o, f);
    }
    while i < size
        invariant
            i <= size,
            size == o.len(),
            o == ordered(groups@.dom()),
            f == (|g: Seq<char>| Some(g)),
            out@ == tabulate(o.take(i as int), f),
        decreases size - i,
    {
        proof {
            lemma_tabulate_next(o, i as int, f);
        }
        let g = groups.key_at(i);
        out.insert(g.clone(), ArenaSpec { arena: g.clone() });
        i += 1;
    }
    proof {
        lemma_tabulate_ends(o, f);
    }
    let ghost base = out@;
    let ghost h = |g: Seq<char>| Some(overrides.group@[g]);
    let mut j: usize = 0;
    proof {
        lemma_tabulate_ends(oo, h);
        assert(base.union_prefer_right(tabulate(oo.take(0), h)) =~= base);
    }
    while j < total
        invariant
            j <= total,
            total == oo.len(),
            oo == ordered(overrides.group@.dom()),
            h == (|g: Seq<char>| Some(overrides.group@[g])),
            out@ == base.union_prefer_right(tabulate(oo.take(j as int), h)),
        decreases total - j,
    {
        proof {
            lemma_tabulate_next(oo, j as int, h);
        }
        let g = overrides.group.key_at(j);
        out.insert(g.clone(), overrides.group.value_at(j).duplicate());
        assert(out@ =~= base.union_prefer_right(tabulate(oo.take(j + 1), h)));
        j += 1;
    }
    proof {
        lemma_tabulate_ends(oo, h);
        assert(tabulate(oo, h) =~= overrides.group@);
    }
    Ok(out)
}

/// Without overrides each group has the arena of its own name.
pub proof fn law_one_arena_per_group(d: Decisions, g: Seq<char>)
    requires
        groups_of(d).dom().finite(),
    ensures
        arenas_of(d, Map::empty()).contains_key(g) <==> groups_of(d).contains_key(g),
        groups_of(d).contains_key(g) ==> arenas_of(d, Map::empty())[g] == g,
{
    lemma_ordered(groups_of(d).dom());
}

// ---------------------------------------------------------------------
// The group of each entity
// ---------------------------------------------------------------------

/// Members and the group that each belongs to.
pub type GroupIndex = Map<Seq<char>, Seq<char>>;

/// Maps each of `members` to `g`.
pub open spec fn map_members(
    out: GroupIndex,
    members: Seq<Seq<char>>,
    g: Seq<char>,
) -> GroupIndex
    decreases members.len(),
{
    if members.len() == 0 {
        out
    } else {
        map_members(out, members.drop_last(), g).insert(members.last(), g)
    }
}

/// Maps the members of the groups `keys`.
pub open spec fn map_groups(groups: Groups, keys: Seq<Seq<char>>) -> GroupIndex
    decreases keys.len(),
{
    if keys.len() == 0 {
        Map::empty()
    } else {
        map_members(
            map_groups(groups, keys.drop_last()),
            groups[keys.last()].members,
            keys.last(),
        )
    }
}

/// Maps those of `keys` that own a group without being a member of it.
pub open spec fn map_owners(d: Decisions, keys: Seq<Seq<char>>, out: GroupIndex) -> GroupIndex
    decreases keys.len(),
{
    if keys.len() == 0 {
        out
    } else {
        let before = map_owners(d, keys.drop_last(), out);
        let e = keys.last();
        if before.contains_key(e) {
            before
        } else {
            match d[e] {
                SpecModel::EnumBase { enum_name } => before.insert(e, enum_name),
                SpecModel::ComplexSupertype { mixin_pattern, oneof_children, mixin } => {
                    before.insert(e, e)
                },
                SpecModel::CompositeOneOf { simple_alternatives, composite_alternatives } => {
                    before.insert(e, e)
                },
                _ => before,
            }
        }
    }
}

/// The entity whose group a nested or merged one shares.
pub open spec fn group_source(k: SpecModel) -> Option<Seq<char>> {
    match k {
        SpecModel::NestedField { into, as_field, added_attr_count } => Some(into),
        SpecModel::MergedInto { target, chain } => Some(target),
        _ => None,
    }
}

/// Gives those of `keys` that share a group that group, where it is known.
pub open spec fn share_groups(d: Decisions, keys: Seq<Seq<char>>, out: GroupIndex) -> GroupIndex
    decreases keys.len(),
{
    if keys.len() == 0 {
        out
    } else {
        let before = share_groups(d, keys.drop_last(), out);
        let e = keys.last();
        match group_source(d[e]) {
            Some(p) => if !before.contains_key(e) && before.contains_key(p) {
                before.insert(e, before[p])
            } else {
                before
            },
            None => before,
        }
    }
}

/// One round over all entities.
pub open spec fn share_round(d: Decisions) -> spec_fn(GroupIndex) -> GroupIndex {
    |out: GroupIndex| share_groups(d, ordered(d.dom()), out)
}

/// The groups before any are shared.
pub open spec fn own_groups(d: Decisions) -> GroupIndex {
    map_owners(d, ordered(d.dom()), map_groups(groups_of(d), ordered(groups_of(d).dom())))
}

/// The group of each entity: its own, or the one it shares.
pub open spec fn entity_groups(d: Decisions) -> GroupIndex {
    settled(share_round(d), own_groups(d))
}

fn mapped_members(variants: &Table<VariantSpec>) -> (r: Table<String>)
    ensures
        r@ == map_groups(groups_of(variants@), ordered(groups_of(variants@).dom())),
{
    let groups = compute_groups(variants);
    let n = groups.len();
    let ghost o = ordered(groups@.dom());
    let mut out: Table<String> = Table::new();
    let mut i: usize = 0;
    assert(o.take(0) =~= seq![]);
    while i < n
        invariant
            i <= n,
            n == o.len(),
            o == ordered(groups@.dom()),
            out@ == map_groups(groups@, o.take(i as int)),
        decreases n - i,
    {
        assert(o.take(i + 1).drop_last() =~= o.take(i as int));
        let g = groups.key_at(i);
        let members = &groups.value_at(i).members;
        let ghost all = members.deep_view();
        let ghost before = out@;
        let mut j: usize = 0;
        assert(all.take(0) =~= seq![]);
        while j < members.len()
            invariant
                j <= members@.len(),
                all == members.deep_view(),
                all.len() == members@.len(),
                out@ == map_members(before, all.take(j as int), g@),
            decreases members@.len() - j,
        {
            proof {
                assert(all.take(j + 1).drop_last() =~= all.take(j as int));
                assert(all.take(j + 1).last() == members@[j as int]@);
            }
            out.insert(members[j].clone(), g.clone());
            j += 1;
        }
        assert(all.take(j as int) =~= all);
        i += 1;
    }
    assert(o.take(i as int) =~= o);
    out
}

fn share_once(variants: &Table<VariantSpec>, out: &mut Table<String>) -> (changed: bool)
    ensures
        final(out)@ == share_groups(variants@, ordered(variants@.dom()), old(out)@),
        !changed ==> final(out)@ == old(out)@,
        old(out)@.dom().subset_of(final(out)@.dom()),
        final(out)@.dom().subset_of(old(out)@.dom().union(variants@.dom())),
        changed ==> exists|x: Seq<char>|
            final(out)@.dom().contains(x) && !old(out)@.dom().contains(x)
                && variants@.dom().contains(x),
{
    let n = variants.len();
    let ghost o = ordered(variants@.dom());
    let ghost start = out@;
    let mut changed = false;
    let mut i: usize = 0;
    proof {
        assert(o.take(0) =~= seq![]);
        lemma_ordered(variants@.dom());
    }
    while i < n
        invariant
            i <= n,
            n == o.len(),
            o == ordered(variants@.dom()),
            variants@.dom().finite(),
            out@ == share_groups(variants@, o.take(i as int), start),
            !changed ==> out@ == start,
            start.dom().subset_of(out@.dom()),
            out@.dom().subset_of(start.dom().union(variants@.dom())),
            changed ==> exists|x: Seq<char>|
                out@.dom().contains(x) && !start.dom().contains(x) && variants@.dom().contains(x),
        decreases n - i,
    {
        let ghost before = out@;
        assert(o.take(i + 1).drop_last() =~= o.take(i as int));
        let e = variants.key_at(i);
        let source: Option<&String> = match variants.value_at(i) {
            VariantSpec::NestedField { into, .. } => Some(into),
            VariantSpec::MergedInto { target, .. } => Some(target),
            _ => None,
        };
        if let Some(p) = source {
            if !out.contains_key(e.as_str()) {
                let g: Option<String> = match out.get(p.as_str()) {
                    Some(g) => Some(g.clone()),
                    None => None,
                };
                if let Some(g) = g {
                    out.insert(e.clone(), g);
                    assert(out@.dom().contains(e@) && !start.dom().contains(e@));
                    changed = true;
                }
            }
        }
        proof {
            if changed && before != out@ {
            } else if changed {
                let x = choose|x: Seq<char>|
                    before.dom().contains(x) && !start.dom().contains(x)
                        && variants@.dom().contains(x);
                assert(out@.dom().contains(x));
            }
        }
        i += 1;
    }
    assert(o.take(i as int) =~= o);
    changed
}

/// Finds the group of each entity. An entity whose sources run in a circle has
/// none.
pub fn compute_entity_to_group(variants: &Table<VariantSpec>) -> (r: Table<String>)
    ensures
        r@ == entity_groups(variants@),
{
    let mut out = mapped_members(variants);
    let n = variants.len();
    let ghost d = variants@;
    let ghost o = ordered(d.dom());
    let ghost first = out@;
    let mut i: usize = 0;
    assert(o.take(0) =~= seq![]);
    while i < n
        invariant
            i <= n,
            n == o.len(),
            d == variants@,
            o == ordered(d.dom()),
            out@ == map_owners(d, o.take(i as int), first),
        decreases n - i,
    {
        assert(o.take(i + 1).drop_last() =~= o.take(i as int));
        let e = variants.key_at(i);
        if !out.contains_key(e.as_str()) {
            match variants.value_at(i) {
                VariantSpec::EnumBase { enum_name } => {
                    out.insert(e.clone(), enum_name.clone());
                },
                VariantSpec::ComplexSupertype { .. } => {
                    out.insert(e.clone(), e.clone());
                },
                VariantSpec::CompositeOneOf { .. } => {
                    out.insert(e.clone(), e.clone());
                },
                _ => {},
            }
        }
        i += 1;
    }
    assert(o.take(i as int) =~= o);
    let ghost start = out@;
    let ghost f = share_round(d);
    let ghost mut k: nat = 0;
    let mut changed = true;
    while changed
        invariant
            d == variants@,
            d.dom().finite(),
            f == share_round(d),
            start == own_groups(d),
            out@ == rounds(f, start, k),
            !changed ==> settles(f, start, k),
        decreases d.dom().difference(out@.dom()).len() + (if changed {
            1nat
        } else {
            0nat
        }),
    {
        let ghost before = out@;
        changed = share_once(variants, &mut out);
        proof {
            assert(f(before) == out@);
            let d0 = d.dom().difference(before.dom());
            let d1 = d.dom().difference(out@.dom());
            assert(d1.subset_of(d0));
            vstd::set_lib::lemma_len_subset(d1, d0);
            if changed {
                let x = choose|x: Seq<char>|
                    out@.dom().contains(x) && !before.dom().contains(x) && d.dom().contains(x);
                assert(d1.subset_of(d0.remove(x)));
                vstd::set_lib::lemma_len_subset(d1, d0.remove(x));
                k = k + 1;
            }
        }
    }
    proof {
        lemma_settled(f, start, k);
    }
    out
}

/// Whether the index gives the groups of `own`, and to everything else the group
/// that it shares.
pub open spec fn shares(d: Decisions, own: GroupIndex, out: GroupIndex) -> bool {
    &&& forall|e: Seq<char>| #[trigger]
        own.contains_key(e) ==> out.contains_key(e) && out[e] == own[e]
    &&& forall|e: Seq<char>| #[trigger]
        out.contains_key(e) && !own.contains_key(e) ==> d.contains_key(e) && (group_source(
            d[e],
        ) matches Some(p) && out.contains_key(p) && out[p] == out[e])
}

/// Whether `e` has a group after a round if the entity it goes into had one before.
spec fn passed_on(d: Decisions, before: GroupIndex, after: GroupIndex, e: Seq<char>) -> bool {
    group_source(d[e]) matches Some(p) && before.contains_key(p) ==> after.contains_key(e)
}

proof fn lemma_share_groups(d: Decisions, own: GroupIndex, keys: Seq<Seq<char>>, out: GroupIndex)
    requires
        shares(d, own, out),
        forall|i: int| 0 <= i < keys.len() ==> d.contains_key(#[trigger] keys[i]),
    ensures
        shares(d, own, share_groups(d, keys, out)),
        forall|e: Seq<char>| #[trigger]
            out.contains_key(e) ==> share_groups(d, keys, out).contains_key(e),
        share_groups(d, keys, out) == out || exists|e: Seq<char>|
            d.contains_key(e) && !out.contains_key(e) && #[trigger] share_groups(
                d,
                keys,
                out,
            ).contains_key(e),
        forall|i: int|
            0 <= i < keys.len() ==> passed_on(d, out, share_groups(d, keys, out), #[trigger] keys[i]),
    decreases keys.len(),
{
    if keys.len() > 0 {
        let fewer = keys.drop_last();
        assert forall|i: int| 0 <= i < fewer.len() implies d.contains_key(#[trigger] fewer[i]) by {
            assert(fewer[i] == keys[i]);
        }
        lemma_share_groups(d, own, fewer, out);
        let before = share_groups(d, fewer, out);
        let after = share_groups(d, keys, out);
        let e = keys.last();
        assert(d.contains_key(keys[keys.len() - 1]));
        if before != out {
            let x = choose|x: Seq<char>|
                d.contains_key(x) && !out.contains_key(x) && #[trigger] before.contains_key(x);
            assert(after.contains_key(x));
        } else if after != before {
            assert(d.contains_key(e) && !out.contains_key(e) && after.contains_key(e));
        }
        assert forall|i: int| 0 <= i < keys.len() implies passed_on(
            d,
            out,
            after,
            #[trigger] keys[i],
        ) by {
            if i < fewer.len() {
                assert(fewer[i] == keys[i]);
            }
        }
    }
}

pub proof fn lemma_share_rounds(d: Decisions, n: nat)
    requires
        d.dom().finite(),
    ensures
        shares(d, own_groups(d), rounds(share_round(d), own_groups(d), n)),
    decreases n,
{
    lemma_ordered(d.dom());
    let o = ordered(d.dom());
    assert forall|i: int| 0 <= i < o.len() implies d.contains_key(#[trigger] o[i]) by {
        assert(o.contains(o[i]));
    }
    if n > 0 {
        lemma_share_rounds(d, (n - 1) as nat);
        lemma_share_groups(
            d,
            own_groups(d),
            o,
            rounds(share_round(d), own_groups(d), (n - 1) as nat),
        );
    }
}

/// The rounds from `n` on come to an end.
pub proof fn lemma_sharing_settles(d: Decisions, n: nat)
    requires
        d.dom().finite(),
    ensures
        exists|m: nat| settles(share_round(d), own_groups(d), m),
    decreases d.dom().difference(rounds(share_round(d), own_groups(d), n).dom()).len(),
{
    let f = share_round(d);
    let own = own_groups(d);
    if !settles(f, own, n) {
        let here = rounds(f, own, n);
        let next = rounds(f, own, n + 1);
        let o = ordered(d.dom());
        lemma_ordered(d.dom());
        assert forall|i: int| 0 <= i < o.len() implies d.contains_key(#[trigger] o[i]) by {
            assert(o.contains(o[i]));
        }
        lemma_share_rounds(d, n);
        lemma_share_groups(d, own, o, here);
        assert(next == share_groups(d, o, here));
        let x = choose|x: Seq<char>|
            d.contains_key(x) && !here.contains_key(x) && #[trigger] next.contains_key(x);
        let d0 = d.dom().difference(here.dom());
        let d1 = d.dom().difference(next.dom());
        assert forall|y: Seq<char>| d1.contains(y) implies d0.remove(x).contains(y) by {
            if here.contains_key(y) {
                assert(next.contains_key(y));
            }
        }
        assert(d0.contains(x));
        vstd::set_lib::lemma_len_subset(d1, d0.remove(x));
        lemma_sharing_settles(d, n + 1);
    }
}

/// A nested or merged entity is in the group of the entity it goes into, however
/// long the chain between them, unless it is a member of a group itself; and it is
/// in no group only if that entity is in none.
pub proof fn law_absorbed_share_the_group(d: Decisions, x: Seq<char>)
    requires
        d.dom().finite(),
        d.contains_key(x),
        group_source(d[x]) is Some,
    ensures
        ({
            let p = group_source(d[x])->0;
            let g = entity_groups(d);
            &&& g.contains_key(p) ==> g.contains_key(x)
            &&& g.contains_key(x) && !own_groups(d).contains_key(x) ==> g.contains_key(p) && g[p]
                == g[x]
        }),
{
    let f = share_round(d);
    let own = own_groups(d);
    let o = ordered(d.dom());
    lemma_ordered(d.dom());
    assert forall|i: int| 0 <= i < o.len() implies d.contains_key(#[trigger] o[i]) by {
        assert(o.contains(o[i]));
    }
    lemma_sharing_settles(d, 0);
    let n = choose|n: nat| settles(f, own, n);
    lemma_settled(f, own, n);
    lemma_share_rounds(d, n);
    let g = rounds(f, own, n);
    lemma_share_groups(d, own, o, g);
    assert(share_groups(d, o, g) == g);
    assert(o.contains(x));
    let i = choose|i: int| 0 <= i < o.len() && o[i] == x;
    assert(passed_on(d, g, g, o[i]));
}

// ---------------------------------------------------------------------
// The stage
// ---------------------------------------------------------------------

/// Runs the stage: refuses an empty classification, and computes the arenas.
pub fn arena_stage(variants: &Table<VariantSpec>, overrides: &OverrideFile<ArenaSpec>) -> (r:
    Result<Table<ArenaSpec>, String>)
    ensures
        outcome(r) == (if variants@ == Map::<Seq<char>, SpecModel>::empty() {
            Err("variants.toml is empty or missing — run `infer variant` first."@)
        } else if overrides.group@.dom().subset_of(groups_of(variants@).dom()) {
            Ok(arenas_of(variants@, overrides.group@))
        } else {
            Err(
                joined(
                    unknown_keys(
                        "arenas_overrides.toml"@,
                        "group"@,
                        ordered(overrides.group@.dom()),
                        groups_of(variants@).dom(),
                    ),
                    "\n"@,
                ),
            )
        }),
        r matches Ok(out) ==> forall|g: Seq<char>| #[trigger]
            out@.contains_key(g) ==> if overrides.group@.contains_key(g) {
                out@[g] == overrides.group@[g]
            } else {
                out@[g] == g
            },
        r matches Ok(out) ==> forall|g: Seq<char>| #[trigger]
            overrides.group@.contains_key(g) ==> out@.contains_key(g),
{
    if variants.is_empty() {
        return Err("variants.toml is empty or missing — run `infer variant` first.".to_owned());
    }
    recompute_for_pruned(variants, overrides)
}

} // verus!
