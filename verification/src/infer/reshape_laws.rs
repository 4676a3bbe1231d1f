//! What reshaping does to each entity.

use crate::infer::reshape::{
    absent_warnings, anchored, asked_kind, bases_with, cleaned, collapsed, first_present,
    members_of, merge_all, merge_one, merge_warning, merge_warnings, recast_all, recast_fault,
    recast_kind, recast_warning, recast_warnings, reshaped, split_all, split_one, split_parts,
    split_warning, split_warnings, without_empty_bases, AnchorModel, MergeModel, RecastModel,
    SplitModel,
};
use crate::infer::shape::{Summaries, SummaryModel};
use crate::infer::variant::SpecModel;
use crate::names::{first_some, lemma_ordered, ordered, sorted};
use vstd::prelude::*;
use vstd::string::*;

verus! {

broadcast use vstd::string::group_string_axioms;

// ---------------------------------------------------------------------
// Kinds that are asked for
// ---------------------------------------------------------------------

/// What kind is asked for: none leaves the base; a struct or a member of a named enum
/// can be had; anything else is refused.
pub proof fn law_asked_kinds(
    base: SpecModel,
    kind: Option<Seq<char>>,
    enum_of: Option<Seq<char>>,
    file: Seq<char>,
    key: Seq<char>,
)
    ensures
        ({
            let r = asked_kind(base, kind, enum_of, file, key);
            &&& kind is None && enum_of is None ==> r == Ok::<SpecModel, Seq<char>>(base)
            &&& kind == Some("single_struct"@) && enum_of is None ==> r == Ok::<
                SpecModel,
                Seq<char>,
            >(SpecModel::SingleStruct)
            &&& kind == Some("in_enum"@) && enum_of is Some ==> r == Ok::<SpecModel, Seq<char>>(
                SpecModel::InEnum { enum_name: enum_of->0 },
            )
            &&& r is Ok ==> {
                ||| kind is None && enum_of is None
                ||| kind == Some("single_struct"@) && enum_of is None
                ||| kind == Some("in_enum"@) && enum_of is Some
            }
        }),
{
    reveal_strlit("single_struct");
    reveal_strlit("in_enum");
    assert("single_struct"@.len() != "in_enum"@.len());
}

/// The kind that a part, a merge or a recast gets.
pub open spec fn gets_kind(
    base: SpecModel,
    kind: Option<Seq<char>>,
    enum_of: Option<Seq<char>>,
    k: SpecModel,
) -> bool {
    &&& kind is None ==> k == base
    &&& kind == Some("single_struct"@) ==> k is SingleStruct
    &&& kind == Some("in_enum"@) && enum_of is Some ==> k == (SpecModel::InEnum {
        enum_name: enum_of->0,
    })
}

proof fn lemma_gets_kind(
    base: SpecModel,
    kind: Option<Seq<char>>,
    enum_of: Option<Seq<char>>,
    file: Seq<char>,
    key: Seq<char>,
)
    ensures
        asked_kind(base, kind, enum_of, file, key) matches Ok(k) ==> gets_kind(
            base,
            kind,
            enum_of,
            k,
        ),
{
    law_asked_kinds(base, kind, enum_of, file, key);
    reveal_strlit("single_struct");
    reveal_strlit("in_enum");
    assert("single_struct"@.len() != "in_enum"@.len());
}

// ---------------------------------------------------------------------
// Splits
// ---------------------------------------------------------------------

/// What the part `i` of a split is: an entity in the part's arena with the use of the
/// one that is split. The first keeps the group and says why; the others say what
/// they come from.
pub open spec fn is_part(
    base: SummaryModel,
    source: Seq<char>,
    entry: SplitModel,
    i: int,
    s: SummaryModel,
) -> bool {
    let p = entry.variants[i];
    &&& s.arena == p.arena
    &&& gets_kind(base.variant, p.kind, p.enum_of, s.variant)
    &&& i == 0 ==> s.group == base.group && s.reasons == entry.reasons && s.split_from
        == base.split_from && s.split_context == base.split_context
    &&& i > 0 ==> s.group == p.arena && s.reasons == base.reasons && s.split_from == Some(source)
        && s.split_context == Some(entry.context_signal)
    &&& s.shape == base.shape
    &&& s.instance_count == base.instance_count
    &&& s.complex_part_count == base.complex_part_count
    &&& s.co_instantiated_with == base.co_instantiated_with
    &&& s.merge_absorbs == base.merge_absorbs
    &&& s.fields_union == base.fields_union
}

proof fn lemma_split_parts(
    out: Summaries,
    base: SummaryModel,
    entry: SplitModel,
    source: Seq<char>,
    n: int,
    x: Seq<char>,
)
    requires
        0 <= n <= entry.variants.len(),
        split_parts(out, base, entry, source, n) is Ok,
    ensures
        ({
            let r = split_parts(out, base, entry, source, n)->Ok_0;
            &&& forall|i: int|
                #![trigger entry.variants[i]]
                0 <= i < n && (forall|j: int|
                    i < j < n ==> (#[trigger] entry.variants[j]).name != entry.variants[i].name)
                    ==> r.contains_key(entry.variants[i].name) && is_part(
                    base,
                    source,
                    entry,
                    i,
                    r[entry.variants[i].name],
                )
            &&& (forall|i: int| 0 <= i < n ==> (#[trigger] entry.variants[i]).name != x) ==> (
            r.contains_key(x) == out.contains_key(x)) && (out.contains_key(x) ==> r[x] == out[x])
        }),
    decreases n,
{
    if n > 0 {
        lemma_split_parts(out, base, entry, source, n - 1, x);
        let p = entry.variants[n - 1];
        let key = crate::infer::reshape::part_key(source, n - 1);
        lemma_gets_kind(base.variant, p.kind, p.enum_of, "splits.toml"@, key);
        let before = split_parts(out, base, entry, source, n - 1)->Ok_0;
        let r = split_parts(out, base, entry, source, n)->Ok_0;
        assert(is_part(base, source, entry, n - 1, r[p.name]));
        assert forall|i: int|
            #![trigger entry.variants[i]]
            0 <= i < n && (forall|j: int|
                i < j < n ==> (#[trigger] entry.variants[j]).name
                    != entry.variants[i].name) implies r.contains_key(entry.variants[i].name)
            && is_part(base, source, entry, i, r[entry.variants[i].name]) by {
            if i < n - 1 {
                assert(entry.variants[n - 1].name != entry.variants[i].name);
                assert(before.contains_key(entry.variants[i].name));
            }
        }
    }
}

/// A split entity is replaced by its parts; the rest stays.
pub proof fn law_split_parts(
    m: Summaries,
    source: Seq<char>,
    entry: SplitModel,
    i: int,
    x: Seq<char>,
)
    requires
        m.contains_key(source),
        0 <= i < entry.variants.len(),
        forall|j: int|
            0 <= j < entry.variants.len() && j != i ==> (#[trigger] entry.variants[j]).name
                != entry.variants[i].name,
        split_one(m, source, entry) is Ok,
    ensures
        ({
            let r = split_one(m, source, entry)->Ok_0;
            &&& r.contains_key(entry.variants[i].name)
            &&& is_part(m[source], source, entry, i, r[entry.variants[i].name])
            &&& (forall|j: int|
                0 <= j < entry.variants.len() ==> (#[trigger] entry.variants[j]).name != source)
                ==> !r.contains_key(source)
            &&& x != source && (forall|j: int|
                0 <= j < entry.variants.len() ==> (#[trigger] entry.variants[j]).name != x)
                ==> r.contains_key(x) == m.contains_key(x) && (m.contains_key(x) ==> r[x] == m[x])
        }),
{
    let n = entry.variants.len() as int;
    lemma_split_parts(m.remove(source), m[source], entry, source, n, x);
    lemma_split_parts(m.remove(source), m[source], entry, source, n, source);
}

/// A split of an entity that is not there, or into nothing, changes nothing.
pub proof fn law_idle_splits(m: Summaries, source: Seq<char>, entry: SplitModel)
    requires
        !m.contains_key(source) || entry.variants.len() == 0,
    ensures
        split_one(m, source, entry) == Ok::<Summaries, Seq<char>>(m),
{
}

/// Whether no split touches the entity.
pub open spec fn no_split_touches(splits: Map<Seq<char>, SplitModel>, x: Seq<char>) -> bool {
    &&& !splits.contains_key(x)
    &&& forall|k: Seq<char>, j: int|
        #![trigger splits[k].variants[j]]
        splits.contains_key(k) && 0 <= j < splits[k].variants.len() ==> splits[k].variants[j].name
            != x
}

proof fn lemma_splits_leave(
    m: Summaries,
    splits: Map<Seq<char>, SplitModel>,
    keys: Seq<Seq<char>>,
    x: Seq<char>,
)
    requires
        no_split_touches(splits, x),
        forall|i: int| 0 <= i < keys.len() ==> splits.contains_key(#[trigger] keys[i]),
    ensures
        split_all(m, splits, keys) matches Ok(r) ==> r.contains_key(x) == m.contains_key(x) && (
        m.contains_key(x) ==> r[x] == m[x]),
    decreases keys.len(),
{
    if keys.len() > 0 {
        let d = keys.drop_last();
        assert forall|i: int| 0 <= i < d.len() implies splits.contains_key(#[trigger] d[i]) by {
            assert(d[i] == keys[i]);
        }
        lemma_splits_leave(m, splits, d, x);
        let k = keys.last();
        assert(splits.contains_key(keys[keys.len() - 1]));
        if split_all(m, splits, keys) is Ok {
            let before = split_all(m, splits, d)->Ok_0;
            let entry = splits[k];
            if before.contains_key(k) && entry.variants.len() > 0 {
                lemma_split_parts(
                    before.remove(k),
                    before[k],
                    entry,
                    k,
                    entry.variants.len() as int,
                    x,
                );
                assert forall|j: int| 0 <= j < entry.variants.len() implies (
                #[trigger] entry.variants[j]).name != x by {
                    assert(splits[k].variants[j].name != x);
                }
            }
        }
    }
}

// ---------------------------------------------------------------------
// Merges
// ---------------------------------------------------------------------

/// Whether place `i` holds the first of the names that is there.
pub open spec fn first_there(m: Summaries, xs: Seq<Seq<char>>, i: int) -> bool {
    &&& 0 <= i < xs.len()
    &&& m.contains_key(xs[i])
    &&& forall|j: int| 0 <= j < i ==> !m.contains_key(#[trigger] xs[j])
}

proof fn lemma_first_present(m: Summaries, xs: Seq<Seq<char>>)
    ensures
        forall|i: int| #[trigger] first_there(m, xs, i) ==> first_present(m, xs) == Some(xs[i]),
        first_present(m, xs) is None <==> forall|i: int|
            0 <= i < xs.len() ==> !m.contains_key(#[trigger] xs[i]),
        first_present(m, xs) matches Some(b) ==> m.contains_key(b) && xs.contains(b),
    decreases xs.len(),
{
    if xs.len() > 0 {
        let d = xs.drop_last();
        lemma_first_present(m, d);
        assert forall|i: int| 0 <= i < d.len() implies #[trigger] xs[i] == d[i] by {}
        assert(xs[xs.len() - 1] == xs.last());
        assert(xs.contains(xs.last()));
        if first_present(m, d) is Some {
            let b = first_present(m, d)->0;
            let k = choose|k: int| 0 <= k < d.len() && d[k] == b;
            assert(xs[k] == b);
        }
        assert forall|i: int| #[trigger] first_there(m, xs, i) implies first_present(m, xs) == Some(
            xs[i],
        ) by {
            if i < d.len() {
                assert(first_there(m, d, i)) by {
                    assert forall|j: int| 0 <= j < i implies !m.contains_key(#[trigger] d[j]) by {
                        assert(xs[j] == d[j]);
                    }
                }
            } else {
                assert forall|j: int| 0 <= j < d.len() implies !m.contains_key(#[trigger] d[j]) by {
                    assert(xs[j] == d[j]);
                }
            }
        }
        if first_present(m, xs) is None {
            assert forall|i: int| 0 <= i < xs.len() implies !m.contains_key(#[trigger] xs[i]) by {
                if i < d.len() {
                    assert(!m.contains_key(d[i]));
                }
            }
        } else if forall|i: int| 0 <= i < xs.len() ==> !m.contains_key(#[trigger] xs[i]) {
            assert forall|i: int| 0 <= i < d.len() implies !m.contains_key(#[trigger] d[i]) by {
                assert(xs[i] == d[i]);
            }
        }
    }
}

/// A merge puts its target in the place of the entities that it absorbs: with the
/// arena, kind and reasons that it asks for, in the group of its enum or its own, and
/// with the use of the first absorbed entity that is there. The rest stays.
pub proof fn law_merge_target(
    m: Summaries,
    key: Seq<char>,
    entry: MergeModel,
    i: int,
    x: Seq<char>,
)
    requires
        first_there(m, entry.absorbs, i),
        merge_one(m, key, entry) is Ok,
    ensures
        ({
            let r = merge_one(m, key, entry)->Ok_0;
            let t = r[entry.target_name];
            let base = m[entry.absorbs[i]];
            &&& r.contains_key(entry.target_name)
            &&& t.arena == entry.arena
            &&& gets_kind(SpecModel::SingleStruct, entry.kind, entry.enum_of, t.variant)
            &&& t.variant is InEnum ==> t.group == t.variant->InEnum_enum_name
            &&& !(t.variant is InEnum) ==> t.group == entry.target_name
            &&& t.merge_absorbs == entry.absorbs
            &&& t.fields_union <==> entry.fields_strategy is Union
            &&& t.reasons == entry.reasons
            &&& t.shape == base.shape
            &&& t.instance_count == base.instance_count
            &&& t.complex_part_count == base.complex_part_count
            &&& t.co_instantiated_with == base.co_instantiated_with
            &&& t.split_from == base.split_from
            &&& t.split_context == base.split_context
            &&& x != entry.target_name && entry.absorbs.contains(x) ==> !r.contains_key(x)
            &&& x != entry.target_name && !entry.absorbs.contains(x) ==> r.contains_key(x)
                == m.contains_key(x) && (m.contains_key(x) ==> r[x] == m[x])
        }),
{
    lemma_first_present(m, entry.absorbs);
    lemma_gets_kind(
        SpecModel::SingleStruct,
        entry.kind,
        entry.enum_of,
        "merges.toml"@,
        "merge."@ + key,
    );
}

/// A merge of entities none of which is there changes nothing.
pub proof fn law_idle_merges(m: Summaries, key: Seq<char>, entry: MergeModel)
    requires
        forall|i: int| 0 <= i < entry.absorbs.len() ==> !m.contains_key(#[trigger] entry.absorbs[i]),
    ensures
        merge_one(m, key, entry) == Ok::<Summaries, Seq<char>>(m),
{
    lemma_first_present(m, entry.absorbs);
}

/// Whether no merge touches the entity.
pub open spec fn no_merge_touches(merges: Map<Seq<char>, MergeModel>, x: Seq<char>) -> bool {
    forall|k: Seq<char>| #[trigger]
        merges.contains_key(k) ==> merges[k].target_name != x && !merges[k].absorbs.contains(x)
}

proof fn lemma_merges_leave(
    m: Summaries,
    merges: Map<Seq<char>, MergeModel>,
    keys: Seq<Seq<char>>,
    x: Seq<char>,
)
    requires
        no_merge_touches(merges, x),
        forall|i: int| 0 <= i < keys.len() ==> merges.contains_key(#[trigger] keys[i]),
    ensures
        merge_all(m, merges, keys) matches Ok(r) ==> r.contains_key(x) == m.contains_key(x) && (
        m.contains_key(x) ==> r[x] == m[x]),
    decreases keys.len(),
{
    if keys.len() > 0 {
        let d = keys.drop_last();
        assert forall|i: int| 0 <= i < d.len() implies merges.contains_key(#[trigger] d[i]) by {
            assert(d[i] == keys[i]);
        }
        lemma_merges_leave(m, merges, d, x);
        assert(merges.contains_key(keys[keys.len() - 1]));
    }
}

// ---------------------------------------------------------------------
// Anchors and recasts
// ---------------------------------------------------------------------

/// An anchor is an enum without use, named after itself, in its arena; the rest
/// stays.
pub proof fn law_anchors(m: Summaries, anchors: Map<Seq<char>, AnchorModel>, x: Seq<char>)
    requires
        anchors.dom().finite(),
    ensures
        ({
            let r = anchored(m, anchors);
            &&& anchors.contains_key(x) ==> {
                &&& r.contains_key(x)
                &&& r[x].variant == (SpecModel::EnumBase { enum_name: x })
                &&& r[x].group == x
                &&& r[x].arena == anchors[x].arena
                &&& r[x].reasons == Some(anchors[x].reasons)
                &&& r[x].shape is None && r[x].split_from is None && r[x].split_context is None
                &&& r[x].instance_count == 0 && r[x].complex_part_count == 0
                &&& r[x].co_instantiated_with.len() == 0 && r[x].merge_absorbs.len() == 0
                &&& !r[x].fields_union
            }
            &&& !anchors.contains_key(x) ==> r.contains_key(x) == m.contains_key(x) && (
            m.contains_key(x) ==> r[x] == m[x])
        }),
{
    lemma_ordered(anchors.dom());
}

/// The last recast that lists an entity decides its kind, arena, group and reasons;
/// its use stays.
pub proof fn law_last_recast_decides(
    m: Summaries,
    recasts: Map<Seq<char>, RecastModel>,
    keys: Seq<Seq<char>>,
    k: Seq<char>,
    x: Seq<char>,
)
    requires
        first_some(keys.push(k), recast_fault(recasts)) is None,
        m.contains_key(x),
        recasts[k].entities.contains(x),
    ensures
        ({
            let s = recast_all(m, recasts, keys.push(k))[x];
            let before = recast_all(m, recasts, keys)[x];
            &&& recast_all(m, recasts, keys.push(k)).contains_key(x)
            &&& s.arena == recasts[k].arena
            &&& s.reasons == recasts[k].reasons
            &&& gets_kind(SpecModel::SingleStruct, Some(recasts[k].kind), recasts[k].enum_of, s.variant)
            &&& s.variant is InEnum ==> s.group == s.variant->InEnum_enum_name
            &&& !(s.variant is InEnum) ==> s.group == recasts[k].arena
            &&& s.shape == before.shape
            &&& s.instance_count == before.instance_count
            &&& s.complex_part_count == before.complex_part_count
            &&& s.co_instantiated_with == before.co_instantiated_with
            &&& s.split_from == before.split_from
            &&& s.split_context == before.split_context
            &&& s.merge_absorbs == before.merge_absorbs
            &&& s.fields_union == before.fields_union
        }),
{
    let all = keys.push(k);
    assert(all.drop_last() =~= keys);
    assert(all.last() == k);
    crate::infer::reshape::law_recasts_keep_entities(m, recasts, keys, x);
    lemma_gets_kind(
        SpecModel::SingleStruct,
        Some(recasts[k].kind),
        recasts[k].enum_of,
        "recasts.toml"@,
        "recast."@ + k,
    );
    assert(recast_kind(k, recasts[k]) is Ok) by {
        if first_some(keys, recast_fault(recasts)) is None {
            assert(recast_fault(recasts)(k) is None);
        }
    }
}

// ---------------------------------------------------------------------
// Cleaning up
// ---------------------------------------------------------------------

proof fn lemma_members_finite(m: Summaries, name: Seq<char>)
    requires
        m.dom().finite(),
    ensures
        members_of(m, name).finite(),
{
    assert(members_of(m, name).subset_of(m.dom()));
    vstd::set_lib::lemma_len_subset(members_of(m, name), m.dom());
}

proof fn lemma_same_members(m: Summaries, name: Seq<char>)
    ensures
        members_of(without_empty_bases(m), name) == members_of(m, name),
{
    assert(members_of(without_empty_bases(m), name) =~= members_of(m, name));
}

/// Cleaning drops the enums with fewer than two members, and no other entity; the
/// member of an enum that had no other gets a struct, and the rest stays.
pub proof fn law_cleaning(m: Summaries, x: Seq<char>)
    requires
        m.dom().finite(),
    ensures
        ({
            let r = collapsed(without_empty_bases(m));
            &&& r.contains_key(x) <==> m.contains_key(x) && !(m[x].variant is EnumBase
                && members_of(m, x).len() <= 1)
            &&& r.contains_key(x) ==> {
                let lone = m[x].variant is InEnum && ({
                    let n = m[x].variant->InEnum_enum_name;
                    m.contains_key(n) && m[n].variant is EnumBase && members_of(m, n).len() == 1
                });
                &&& lone ==> r[x].variant is SingleStruct
                &&& !lone ==> r[x] == m[x]
                &&& r[x].arena == m[x].arena && r[x].group == m[x].group && r[x].shape == m[x].shape
                &&& r[x].instance_count == m[x].instance_count
                &&& r[x].complex_part_count == m[x].complex_part_count
                &&& r[x].co_instantiated_with == m[x].co_instantiated_with
                &&& r[x].split_from == m[x].split_from && r[x].split_context == m[x].split_context
                &&& r[x].merge_absorbs == m[x].merge_absorbs
                &&& r[x].fields_union == m[x].fields_union && r[x].reasons == m[x].reasons
            }
        }),
{
    let w = without_empty_bases(m);
    lemma_members_finite(m, x);
    lemma_same_members(m, x);
    if m.contains_key(x) {
        if m[x].variant is EnumBase {
            assert(bases_with(m, 0).contains(x) <==> members_of(m, x).len() == 0);
            if w.contains_key(x) {
                assert(bases_with(w, 1).contains(x) <==> members_of(m, x).len() == 1);
            }
        } else {
            assert(!bases_with(m, 0).contains(x));
            assert(!bases_with(w, 1).contains(x));
        }
        if m[x].variant is InEnum {
            let n = m[x].variant->InEnum_enum_name;
            lemma_members_finite(m, n);
            lemma_same_members(m, n);
            assert(members_of(m, n).contains(x));
            assert(members_of(m, n).len() > 0) by {
                if members_of(m, n).len() == 0 {
                    assert(members_of(m, n) =~= Set::empty());
                }
            }
            assert(bases_with(w, 1).contains(n) <==> m.contains_key(n) && m[n].variant is EnumBase
                && members_of(m, n).len() == 1);
        }
    }
}

/// Cleaning tells, in order, which enums it dropped for want of members and which for
/// having a single one; every other entity is still there.
pub proof fn law_cleaning_tells(m: Summaries, inserted: Seq<Seq<char>>, x: Seq<char>)
    requires
        m.dom().finite(),
        cleaned(m, inserted) is Ok,
    ensures
        ({
            let r = cleaned(m, inserted)->Ok_0;
            &&& r.inserted_anchors == inserted
            &&& sorted(r.pruned_enum_bases)
            &&& sorted(r.collapsed_enum_bases)
            &&& r.pruned_enum_bases.contains(x) <==> m.contains_key(x) && m[x].variant is EnumBase
                && members_of(m, x).len() == 0
            &&& r.collapsed_enum_bases.contains(x) <==> m.contains_key(x)
                && m[x].variant is EnumBase && members_of(m, x).len() == 1
            &&& r.entities.contains_key(x) <==> m.contains_key(x) && !r.pruned_enum_bases.contains(x)
                && !r.collapsed_enum_bases.contains(x)
        }),
{
    let w = without_empty_bases(m);
    law_cleaning(m, x);
    lemma_same_members(m, x);
    lemma_members_finite(m, x);
    assert(bases_with(m, 0).subset_of(m.dom()));
    assert(bases_with(w, 1).subset_of(m.dom()));
    vstd::set_lib::lemma_len_subset(bases_with(m, 0), m.dom());
    vstd::set_lib::lemma_len_subset(bases_with(w, 1), m.dom());
    lemma_ordered(bases_with(m, 0));
    lemma_ordered(bases_with(w, 1));
}

/// Whether no entity is absorbed by an enum.
pub open spec fn enums_absorb_nothing(m: Summaries) -> bool {
    forall|k: Seq<char>| #[trigger]
        m.contains_key(k) ==> match m[k].variant {
            SpecModel::NestedField { into, as_field, added_attr_count } => !(m.contains_key(into)
                && m[into].variant is EnumBase),
            SpecModel::MergedInto { target, chain } => !(m.contains_key(target)
                && m[target].variant is EnumBase),
            _ => true,
        }
}

proof fn lemma_all_without_fault(
    keys: Seq<Seq<char>>,
    f: spec_fn(Seq<char>) -> Option<Seq<char>>,
)
    requires
        forall|i: int| 0 <= i < keys.len() ==> f(#[trigger] keys[i]) is None,
    ensures
        first_some(keys, f) is None,
    decreases keys.len(),
{
    if keys.len() > 0 {
        let d = keys.drop_last();
        assert(keys[keys.len() - 1] == keys.last());
        assert forall|i: int| 0 <= i < d.len() implies f(#[trigger] d[i]) is None by {
            assert(d[i] == keys[i]);
        }
        lemma_all_without_fault(d, f);
    }
}

/// Cleaning goes through where no entity is absorbed by an enum.
pub proof fn law_cleaning_goes_through(m: Summaries, inserted: Seq<Seq<char>>)
    requires
        enums_absorb_nothing(m),
    ensures
        cleaned(m, inserted) is Ok,
{
    let w = without_empty_bases(m);
    let f = crate::infer::reshape::base_fault(m, 0, "empty enum_base "@);
    let g = crate::infer::reshape::base_fault(w, 1, "single-child enum_base "@);
    assert forall|x: Seq<char>| m.contains_key(x) && m[x].variant is EnumBase implies
        #[trigger] crate::infer::reshape::absorbed_by(m, x).len() == 0
        && crate::infer::reshape::absorbed_by(w, x).len() == 0 by {
        assert(crate::infer::reshape::absorbed_by(m, x) =~= Set::empty());
        assert(crate::infer::reshape::absorbed_by(w, x) =~= Set::empty());
    }
    assert forall|x: Seq<char>| (#[trigger] f(x)) is None by {
        if bases_with(m, 0).contains(x) {
            assert(crate::infer::reshape::absorbed_by(m, x).len() == 0);
        }
    }
    assert forall|x: Seq<char>| (#[trigger] g(x)) is None by {
        if bases_with(w, 1).contains(x) {
            assert(m.contains_key(x) && m[x].variant is EnumBase);
            assert(crate::infer::reshape::absorbed_by(m, x).len() == 0);
        }
    }
    lemma_all_without_fault(ordered(m.dom()), f);
    lemma_all_without_fault(ordered(w.dom()), g);
}

// ---------------------------------------------------------------------
// The whole
// ---------------------------------------------------------------------

/// Whether no recast lists the entity.
pub open spec fn no_recast_touches(recasts: Map<Seq<char>, RecastModel>, x: Seq<char>) -> bool {
    forall|k: Seq<char>| #[trigger]
        recasts.contains_key(k) ==> !recasts[k].entities.contains(x)
}

/// An entity with a struct that no split, merge, anchor or recast touches comes out of
/// reshaping as it went in.
pub proof fn law_untouched_entities_stay(
    m: Summaries,
    splits: Map<Seq<char>, SplitModel>,
    merges: Map<Seq<char>, MergeModel>,
    anchors: Map<Seq<char>, AnchorModel>,
    recasts: Map<Seq<char>, RecastModel>,
    x: Seq<char>,
)
    requires
        splits.dom().finite(),
        merges.dom().finite(),
        anchors.dom().finite(),
        recasts.dom().finite(),
        m.contains_key(x),
        !(m[x].variant is EnumBase),
        !(m[x].variant is InEnum),
        no_split_touches(splits, x),
        no_merge_touches(merges, x),
        !anchors.contains_key(x),
        no_recast_touches(recasts, x),
    ensures
        reshaped(m, splits, merges, anchors, recasts).1 matches Ok(r) ==> r.entities.contains_key(x)
            && r.entities[x] == m[x],
{
    lemma_ordered(splits.dom());
    lemma_ordered(merges.dom());
    lemma_ordered(recasts.dom());
    let sk = ordered(splits.dom());
    let mk = ordered(merges.dom());
    let rk = ordered(recasts.dom());
    assert forall|i: int| 0 <= i < sk.len() implies splits.contains_key(#[trigger] sk[i]) by {
        assert(splits.dom().contains(sk[i]));
    }
    assert forall|i: int| 0 <= i < mk.len() implies merges.contains_key(#[trigger] mk[i]) by {
        assert(merges.dom().contains(mk[i]));
    }
    lemma_splits_leave(m, splits, sk, x);
    if split_all(m, splits, sk) is Ok {
        let a = split_all(m, splits, sk)->Ok_0;
        lemma_merges_leave(a, merges, mk, x);
        if merge_all(a, merges, mk) is Ok {
            let b = merge_all(a, merges, mk)->Ok_0;
            law_anchors(b, anchors, x);
            let c = anchored(b, anchors);
            assert forall|i: int| 0 <= i < rk.len() implies !recasts[#[trigger] rk[i]].entities.contains(
                x,
            ) by {
                assert(recasts.dom().contains(rk[i]));
                assert(recasts.contains_key(rk[i]));
            }
            crate::infer::reshape::law_recasts_keep_entities(c, recasts, rk, x);
            let e = recast_all(c, recasts, rk);
            assert(e.contains_key(x) && e[x] == m[x]);
            assert(!bases_with(e, 0).contains(x));
            let w = without_empty_bases(e);
            assert(w.contains_key(x) && w[x] == m[x]);
            assert(!bases_with(w, 1).contains(x));
            assert(collapsed(w).contains_key(x) && collapsed(w)[x] == m[x]);
        }
    }
}

/// The anchors that reshaping tells of are those that it was given, in order.
pub proof fn law_reshaped_tells(
    m: Summaries,
    splits: Map<Seq<char>, SplitModel>,
    merges: Map<Seq<char>, MergeModel>,
    anchors: Map<Seq<char>, AnchorModel>,
    recasts: Map<Seq<char>, RecastModel>,
)
    requires
        !(splits == Map::<Seq<char>, SplitModel>::empty() && merges == Map::<
            Seq<char>,
            MergeModel,
        >::empty() && anchors == Map::<Seq<char>, AnchorModel>::empty() && recasts == Map::<
            Seq<char>,
            RecastModel,
        >::empty()),
    ensures
        reshaped(m, splits, merges, anchors, recasts).1 matches Ok(r) ==> r.inserted_anchors
            == ordered(anchors.dom()),
{
}

// ---------------------------------------------------------------------
// Warnings
// ---------------------------------------------------------------------

/// Warnings about splits come entity by entity, in order; there is one for each that
/// is not there or is absorbed.
pub proof fn law_split_warnings_in_parts(
    m: Summaries,
    a: Seq<Seq<char>>,
    b: Seq<Seq<char>>,
    x: Seq<char>,
)
    ensures
        split_warnings(m, a + b) == split_warnings(m, a) + split_warnings(m, b),
        !m.contains_key(x) ==> split_warnings(m, seq![x]) == seq![
            "warning: splits.toml [split."@ + x + "] — entity not in entities.toml"@,
        ],
        m.contains_key(x) && (m[x].variant is NestedField || m[x].variant is MergedInto)
            ==> split_warnings(m, seq![x]).len() == 1,
        m.contains_key(x) && !(m[x].variant is NestedField || m[x].variant is MergedInto)
            ==> split_warnings(m, seq![x]).len() == 0,
    decreases b.len(),
{
    reveal_with_fuel(split_warnings, 2);
    let q = seq![x];
    assert(q.drop_last() =~= seq![]);
    assert(q.last() == x);
    if !m.contains_key(x) {
        assert(split_warnings(m, q) =~= seq![split_warning(m, x)->0]);
    }
    if b.len() == 0 {
        assert(a + b =~= a);
        assert(split_warnings(m, a) + split_warnings(m, b) =~= split_warnings(m, a));
    } else {
        law_split_warnings_in_parts(m, a, b.drop_last(), x);
        assert((a + b).drop_last() =~= a + b.drop_last());
        assert((a + b).last() == b.last());
        assert(split_warnings(m, a + b) =~= split_warnings(m, a) + split_warnings(m, b));
    }
}

/// A recast of an entity that is not there is warned about, of the others not.
pub proof fn law_absent_warnings_in_parts(
    m: Summaries,
    key: Seq<char>,
    a: Seq<Seq<char>>,
    b: Seq<Seq<char>>,
    x: Seq<char>,
)
    ensures
        absent_warnings(m, key, a + b) == absent_warnings(m, key, a) + absent_warnings(m, key, b),
        m.contains_key(x) ==> absent_warnings(m, key, seq![x]).len() == 0,
        !m.contains_key(x) ==> absent_warnings(m, key, seq![x]).len() == 1,
    decreases b.len(),
{
    reveal_with_fuel(absent_warnings, 2);
    let q = seq![x];
    assert(q.drop_last() =~= seq![]);
    assert(q.last() == x);
    if b.len() == 0 {
        assert(a + b =~= a);
        assert(absent_warnings(m, key, a) + absent_warnings(m, key, b) =~= absent_warnings(
            m,
            key,
            a,
        ));
    } else {
        law_absent_warnings_in_parts(m, key, a, b.drop_last(), x);
        assert((a + b).drop_last() =~= a + b.drop_last());
        assert((a + b).last() == b.last());
        assert(absent_warnings(m, key, a + b) =~= absent_warnings(m, key, a) + absent_warnings(
            m,
            key,
            b,
        ));
    }
}

proof fn lemma_no_fault(
    keys: Seq<Seq<char>>,
    f: spec_fn(Seq<char>) -> Option<Seq<char>>,
    e: Seq<char>,
)
    requires
        first_some(keys, f) is None,
        keys.contains(e),
    ensures
        f(e) is None,
    decreases keys.len(),
{
    let d = keys.drop_last();
    let i = choose|i: int| 0 <= i < keys.len() && keys[i] == e;
    if i < d.len() {
        assert(d[i] == e);
        lemma_no_fault(d, f, e);
    }
}

/// Reshaping accepts an anchor only if there is no entity of that name and it asks for an
/// enum; it accepts a recast into an enum only if that is named, is there, and is one.
pub proof fn law_accepted_inputs(
    m: Summaries,
    anchors: Map<Seq<char>, AnchorModel>,
    recasts: Map<Seq<char>, RecastModel>,
    x: Seq<char>,
)
    requires
        anchors.dom().finite(),
        recasts.dom().finite(),
        crate::infer::reshape::after_merges(m, anchors, recasts).1 is Ok,
    ensures
        anchors.contains_key(x) ==> !m.contains_key(x) && anchors[x].kind == "enum_base"@,
        recasts.contains_key(x) ==> recasts[x].kind == "in_enum"@ || recasts[x].kind
            == "single_struct"@,
        recasts.contains_key(x) && recasts[x].kind == "single_struct"@ ==> recasts[x].enum_of is None,
        recasts.contains_key(x) && recasts[x].kind == "in_enum"@ ==> {
            &&& recasts[x].enum_of is Some
            &&& anchored(m, anchors).contains_key(recasts[x].enum_of->0)
            &&& anchored(m, anchors)[recasts[x].enum_of->0].variant is EnumBase || anchored(
                m,
                anchors,
            )[recasts[x].enum_of->0].variant is ConcreteSupertype
        },
{
    lemma_ordered(anchors.dom());
    lemma_ordered(recasts.dom());
    let with = anchored(m, anchors);
    if anchors.contains_key(x) {
        assert(ordered(anchors.dom()).contains(x));
        lemma_no_fault(
            ordered(anchors.dom()),
            crate::infer::reshape::anchor_fault(m, anchors),
            x,
        );
    }
    if recasts.contains_key(x) {
        assert(ordered(recasts.dom()).contains(x));
        lemma_no_fault(
            ordered(recasts.dom()),
            crate::infer::reshape::target_fault(with, recasts),
            x,
        );
        lemma_no_fault(ordered(recasts.dom()), recast_fault(recasts), x);
        law_asked_kinds(
            SpecModel::SingleStruct,
            Some(recasts[x].kind),
            recasts[x].enum_of,
            "recasts.toml"@,
            "recast."@ + x,
        );
        reveal_strlit("single_struct");
        reveal_strlit("in_enum");
        assert("single_struct"@.len() != "in_enum"@.len());
    }
}

/// Warnings about merges come entity by entity, in order; there is one for each that
/// is not there or is absorbed already.
pub proof fn law_merge_warnings_in_parts(
    m: Summaries,
    key: Seq<char>,
    a: Seq<Seq<char>>,
    b: Seq<Seq<char>>,
    x: Seq<char>,
)
    ensures
        merge_warnings(m, key, a + b) == merge_warnings(m, key, a) + merge_warnings(m, key, b),
        !m.contains_key(x) ==> merge_warnings(m, key, seq![x]) == seq![
            "warning: merges.toml [merge."@ + key + "] absorbs unknown entity "@ + x,
        ],
        m.contains_key(x) && (m[x].variant is NestedField || m[x].variant is MergedInto)
            ==> merge_warnings(m, key, seq![x]).len() == 1,
        m.contains_key(x) && !(m[x].variant is NestedField || m[x].variant is MergedInto)
            ==> merge_warnings(m, key, seq![x]).len() == 0,
    decreases b.len(),
{
    reveal_with_fuel(merge_warnings, 2);
    let q = seq![x];
    assert(q.drop_last() =~= seq![]);
    assert(q.last() == x);
    if !m.contains_key(x) {
        assert(merge_warnings(m, key, q) =~= seq![merge_warning(m, key, x)->0]);
    }
    if b.len() == 0 {
        assert(a + b =~= a);
        assert(merge_warnings(m, key, a) + merge_warnings(m, key, b) =~= merge_warnings(m, key, a));
    } else {
        law_merge_warnings_in_parts(m, key, a, b.drop_last(), x);
        assert((a + b).drop_last() =~= a + b.drop_last());
        assert((a + b).last() == b.last());
        assert(merge_warnings(m, key, a + b) =~= merge_warnings(m, key, a) + merge_warnings(m, key, b));
    }
}

/// Warnings about recasts come entity by entity, in order; there is one for each that
/// is not there or is absorbed.
pub proof fn law_recast_warnings_in_parts(
    m: Summaries,
    key: Seq<char>,
    a: Seq<Seq<char>>,
    b: Seq<Seq<char>>,
    x: Seq<char>,
)
    ensures
        recast_warnings(m, key, a + b) == recast_warnings(m, key, a) + recast_warnings(m, key, b),
        !m.contains_key(x) ==> recast_warnings(m, key, seq![x]) == seq![
            "warning: recasts.toml [recast."@ + key + "] entity "@ + x + " not in entities.toml"@,
        ],
        m.contains_key(x) && (m[x].variant is NestedField || m[x].variant is MergedInto)
            ==> recast_warnings(m, key, seq![x]).len() == 1,
        m.contains_key(x) && !(m[x].variant is NestedField || m[x].variant is MergedInto)
            ==> recast_warnings(m, key, seq![x]).len() == 0,
    decreases b.len(),
{
    reveal_with_fuel(recast_warnings, 2);
    let q = seq![x];
    assert(q.drop_last() =~= seq![]);
    assert(q.last() == x);
    if !m.contains_key(x) {
        assert(recast_warnings(m, key, q) =~= seq![recast_warning(m, key, x)->0]);
    }
    if b.len() == 0 {
        assert(a + b =~= a);
        assert(recast_warnings(m, key, a) + recast_warnings(m, key, b) =~= recast_warnings(m, key, a));
    } else {
        law_recast_warnings_in_parts(m, key, a, b.drop_last(), x);
        assert((a + b).drop_last() =~= a + b.drop_last());
        assert((a + b).last() == b.last());
        assert(recast_warnings(m, key, a + b) =~= recast_warnings(m, key, a) + recast_warnings(m, key, b));
    }
}

} // verus!
