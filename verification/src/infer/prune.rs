//! Pruning of the classification by use.
//!
//! Entities that no file uses go, and what depends on them goes with them or
//! falls back to a simpler kind, until nothing changes any more.

use crate::chains::{
    chain_at, chain_end, chain_so_far, lemma_chain_done, lemma_chain_step, lemma_settled, rounds,
    settled, settles, Step,
};
use crate::infer::arena::ArenaSpec;
use crate::infer::overrides::OverrideFile;
use crate::infer::variant::{Decisions, SpecModel, VariantSpec};
use crate::names::{
    lemma_ordered, lemma_tabulate_ends, lemma_tabulate_next, ordered, push_item, tabulate,
    Duplicate, NameSet, Table,
};
use crate::text::same;
use vstd::prelude::*;

verus! {

/// How often an entity is used, by name.
pub type Counts = Map<Seq<char>, usize>;

pub open spec fn count_of(counts: Counts, x: Seq<char>) -> usize {
    if counts.contains_key(x) {
        counts[x]
    } else {
        0
    }
}

/// Looks a count up; what is not there counts nothing.
pub fn lookup(counts: &Table<usize>, x: &str) -> (r: usize)
    ensures
        r == count_of(counts@, x@),
{
    match counts.get(x) {
        Some(n) => *n,
        None => 0,
    }
}

/// Whether `x` is a member of the enum of `host`.
pub open spec fn member_of(d: Decisions, x: Seq<char>, host: Seq<char>) -> bool {
    d.contains_key(x) && d[x] == SpecModel::InEnum { enum_name: host }
}

fn spec_in_enum(spec: &VariantSpec, host: &str) -> (r: bool)
    ensures
        r == (spec.view() == SpecModel::InEnum { enum_name: host@ }),
{
    match spec {
        VariantSpec::InEnum { enum_name } => same(enum_name.as_str(), host),
        _ => false,
    }
}

// ---------------------------------------------------------------------
// Preparation
// ---------------------------------------------------------------------

/// Whether an entity stands above others: a supertype, or an enum member that
/// names itself as the enum.
pub open spec fn hosts(d: Decisions, x: Seq<char>) -> bool {
    d.contains_key(x) && (d[x] is EnumBase || d[x] is ConcreteSupertype || d[x] is ComplexSupertype
        || d[x] is CompositeOneOf || d[x] == SpecModel::InEnum { enum_name: x })
}

/// Whether an entity has a member that is used.
pub open spec fn has_used_member(d: Decisions, counts: Counts, x: Seq<char>) -> bool {
    exists|c: Seq<char>| #[trigger] member_of(d, c, x) && count_of(counts, c) > 0
}

/// The supertypes that are used or have a used member.
pub open spec fn auto_kept(d: Decisions, counts: Counts) -> Set<Seq<char>> {
    d.dom().filter(
        |x: Seq<char>| hosts(d, x) && (count_of(counts, x) > 0 || has_used_member(d, counts, x)),
    )
}

/// Whether an entity has a member that is used or kept.
pub open spec fn has_surviving_member(
    d: Decisions,
    counts: Counts,
    keep: Set<Seq<char>>,
    x: Seq<char>,
) -> bool {
    exists|c: Seq<char>|
        #[trigger] member_of(d, c, x) && (count_of(counts, c) > 0 || keep.contains(c))
}

/// The kind with which an entity enters the pruning: a used concrete supertype
/// without surviving members is a plain struct; an enum base or a merged
/// entity that stands alone in some file needs a struct, and is a concrete
/// supertype if it has surviving members.
pub open spec fn prepared_kind(
    d: Decisions,
    counts: Counts,
    standalone: Counts,
    keep: Set<Seq<char>>,
    x: Seq<char>,
) -> SpecModel {
    let survives = has_surviving_member(d, counts, keep, x);
    if d[x] is ConcreteSupertype && count_of(counts, x) > 0 && !survives {
        SpecModel::SingleStruct
    } else if (d[x] is EnumBase || d[x] is MergedInto) && count_of(standalone, x) > 0 {
        if survives {
            SpecModel::ConcreteSupertype
        } else {
            SpecModel::SingleStruct
        }
    } else {
        d[x]
    }
}

/// The classification that enters the pruning.
pub open spec fn prepared(
    d: Decisions,
    counts: Counts,
    standalone: Counts,
    keep: Set<Seq<char>>,
) -> Decisions {
    Map::new(
        |x: Seq<char>| d.contains_key(x),
        |x: Seq<char>| prepared_kind(d, counts, standalone, keep, x),
    )
}

/// Looks for a member of `x` that is used, or kept.
pub fn surviving_member(
    x: &str,
    d: &Table<VariantSpec>,
    counts: &Table<usize>,
    keep: &NameSet,
) -> (r: bool)
    ensures
        r == has_surviving_member(d@, counts@, keep@, x@),
{
    let n = d.len();
    let ghost o = ordered(d@.dom());
    let mut i: usize = 0;
    proof {
        lemma_ordered(d@.dom());
    }
    while i < n
        invariant
            i <= n,
            n == o.len(),
            o == ordered(d@.dom()),
            forall|j: int|
                0 <= j < i ==> !(member_of(d@, #[trigger] o[j], x@) && (count_of(counts@, o[j]) > 0
                    || keep@.contains(o[j]))),
        decreases n - i,
    {
        let c = d.key_at(i);
        if spec_in_enum(d.value_at(i), x) && (lookup(counts, c.as_str()) > 0 || keep.contains(
            c.as_str(),
        )) {
            assert(member_of(d@, c@, x@));
            return true;
        }
        i += 1;
    }
    proof {
        assert forall|c: Seq<char>|
            #[trigger] member_of(d@, c, x@) implies !(count_of(counts@, c) > 0 || keep@.contains(
            c,
        )) by {
            assert(o.contains(c));
            let j = choose|j: int| 0 <= j < o.len() && o[j] == c;
            assert(member_of(d@, o[j], x@));
        }
    }
    false
}

fn host_spec(name: &str, spec: &VariantSpec) -> (r: bool)
    ensures
        r == (spec.view() is EnumBase || spec.view() is ConcreteSupertype
            || spec.view() is ComplexSupertype || spec.view() is CompositeOneOf || spec.view()
            == SpecModel::InEnum { enum_name: name@ }),
{
    match spec {
        VariantSpec::EnumBase { .. } => true,
        VariantSpec::ConcreteSupertype => true,
        VariantSpec::ComplexSupertype { .. } => true,
        VariantSpec::CompositeOneOf { .. } => true,
        VariantSpec::InEnum { enum_name } => same(enum_name.as_str(), name),
        _ => false,
    }
}

/// Collects the supertypes that are used or have a used member.
pub fn auto_keep(d: &Table<VariantSpec>, counts: &Table<usize>) -> (r: NameSet)
    ensures
        r@ == auto_kept(d@, counts@),
{
    let n = d.len();
    let ghost o = ordered(d@.dom());
    let none = NameSet::new();
    let mut out = NameSet::new();
    let mut i: usize = 0;
    proof {
        lemma_ordered(d@.dom());
        assert(auto_kept(d@, counts@).intersect(o.take(0).to_set()) =~= Set::empty());
    }
    while i < n
        invariant
            i <= n,
            n == o.len(),
            o == ordered(d@.dom()),
            none@ == Set::<Seq<char>>::empty(),
            out@ == auto_kept(d@, counts@).intersect(o.take(i as int).to_set()),
        decreases n - i,
    {
        let x = d.key_at(i);
        let ghost before = o.take(i as int);
        proof {
            assert(o.take(i + 1) =~= before.push(x@));
            before.lemma_push_to_set_commute(x@);
            assert(has_used_member(d@, counts@, x@) == has_surviving_member(
                d@,
                counts@,
                none@,
                x@,
            )) by {
                if has_surviving_member(d@, counts@, none@, x@) {
                    let c = choose|c: Seq<char>|
                        #[trigger] member_of(d@, c, x@) && (count_of(counts@, c) > 0
                            || none@.contains(c));
                    assert(member_of(d@, c, x@));
                }
                if has_used_member(d@, counts@, x@) {
                    let c = choose|c: Seq<char>|
                        #[trigger] member_of(d@, c, x@) && count_of(counts@, c) > 0;
                    assert(member_of(d@, c, x@));
                }
            }
        }
        if host_spec(x.as_str(), d.value_at(i)) && (lookup(counts, x.as_str()) > 0
            || surviving_member(x.as_str(), d, counts, &none)) {
            out.insert(x.clone());
        }
        assert(out@ =~= auto_kept(d@, counts@).intersect(o.take(i + 1).to_set()));
        i += 1;
    }
    proof {
        assert(o.take(i as int) =~= o);
        assert(out@ =~= auto_kept(d@, counts@));
    }
    out
}

fn prepare(
    d: &Table<VariantSpec>,
    counts: &Table<usize>,
    standalone: &Table<usize>,
    keep: &NameSet,
) -> (r: Table<VariantSpec>)
    ensures
        r@ == prepared(d@, counts@, standalone@, keep@),
{
    let n = d.len();
    let ghost o = ordered(d@.dom());
    let ghost g = |x: Seq<char>| Some(prepared_kind(d@, counts@, standalone@, keep@, x));
    let mut out: Table<VariantSpec> = Table::new();
    let mut i: usize = 0;
    proof {
        lemma_ordered(d@.dom());
        lemma_tabulate_ends(o, g);
    }
    while i < n
        invariant
            i <= n,
            n == o.len(),
            o == ordered(d@.dom()),
            g == (|x: Seq<char>| Some(prepared_kind(d@, counts@, standalone@, keep@, x))),
            out@ == tabulate(o.take(i as int), g),
        decreases n - i,
    {
        proof {
            lemma_tabulate_next(o, i as int, g);
        }
        let x = d.key_at(i);
        let spec = d.value_at(i);
        let concrete = match spec {
            VariantSpec::ConcreteSupertype => true,
            _ => false,
        };
        let structless = match spec {
            VariantSpec::EnumBase { .. } => true,
            VariantSpec::MergedInto { .. } => true,
            _ => false,
        };
        let survives = surviving_member(x.as_str(), d, counts, keep);
        let kind = if concrete && lookup(counts, x.as_str()) > 0 && !survives {
            VariantSpec::SingleStruct
        } else if structless && lookup(standalone, x.as_str()) > 0 {
            if survives {
                VariantSpec::ConcreteSupertype
            } else {
                VariantSpec::SingleStruct
            }
        } else {
            spec.duplicate()
        };
        out.insert(x.clone(), kind);
        i += 1;
    }
    proof {
        lemma_tabulate_ends(o, g);
        assert(out@ =~= prepared(d@, counts@, standalone@, keep@));
    }
    out
}

// ---------------------------------------------------------------------
// Rounds
// ---------------------------------------------------------------------

/// What is left of the classification, and what is marked to go.
pub struct Pruning {
    pub left: Decisions,
    pub unused: Set<Seq<char>>,
}

/// Whether `c` is a member of `host` that is not marked.
pub open spec fn live_member(st: Pruning, host: Seq<char>, c: Seq<char>) -> bool {
    member_of(st.left, c, host) && !st.unused.contains(c)
}

/// The members of `host` that are not marked.
pub open spec fn live_members(st: Pruning, host: Seq<char>) -> Set<Seq<char>> {
    st.left.dom().filter(|c: Seq<char>| live_member(st, host, c))
}

/// A supertype whose members have gone. An enum base without members is
/// marked; with one member left, that one becomes a struct and the base is
/// marked; a concrete supertype without members becomes a plain struct. What
/// is kept stays as it is. `k` is the kind at the start of the round.
pub open spec fn shrink(st: Pruning, kept: Set<Seq<char>>, e: Seq<char>, k: SpecModel) -> Pruning {
    let members = live_members(st, e);
    if kept.contains(e) {
        st
    } else if k is EnumBase && members.len() == 0 {
        Pruning { left: st.left, unused: st.unused.insert(e) }
    } else if k is EnumBase && members.len() == 1 {
        Pruning {
            left: st.left.insert(ordered(members)[0], SpecModel::SingleStruct),
            unused: st.unused.insert(e),
        }
    } else if k is ConcreteSupertype && members.len() == 0 && !st.unused.contains(e) {
        Pruning { left: st.left.insert(e, SpecModel::SingleStruct), unused: st.unused }
    } else {
        st
    }
}

pub open spec fn shrink_all(
    st: Pruning,
    kept: Set<Seq<char>>,
    snapshot: Decisions,
    keys: Seq<Seq<char>>,
) -> Pruning
    decreases keys.len(),
{
    if keys.len() == 0 {
        st
    } else {
        shrink(
            shrink_all(st, kept, snapshot, keys.drop_last()),
            kept,
            keys.last(),
            snapshot[keys.last()],
        )
    }
}

/// The entity that a kind depends on.
pub open spec fn anchor(k: SpecModel) -> Option<Seq<char>> {
    match k {
        SpecModel::InEnum { enum_name } => Some(enum_name),
        SpecModel::MergedInto { target, chain } => Some(target),
        SpecModel::NestedField { into, as_field, added_attr_count } => Some(into),
        _ => None,
    }
}

/// Whether an entity depends on one that is gone or marked.
pub open spec fn stale(st: Pruning, e: Seq<char>) -> bool {
    match anchor(st.left[e]) {
        Some(p) => !st.left.contains_key(p) || st.unused.contains(p),
        None => false,
    }
}

/// Marks an entity that depends on what is gone, unless it is kept.
pub open spec fn cascade(st: Pruning, kept: Set<Seq<char>>, e: Seq<char>) -> Pruning {
    if !st.unused.contains(e) && stale(st, e) && !kept.contains(e) {
        Pruning { left: st.left, unused: st.unused.insert(e) }
    } else {
        st
    }
}

pub open spec fn cascade_all(
    st: Pruning,
    kept: Set<Seq<char>>,
    keys: Seq<Seq<char>>,
) -> Pruning
    decreases keys.len(),
{
    if keys.len() == 0 {
        st
    } else {
        cascade(cascade_all(st, kept, keys.drop_last()), kept, keys.last())
    }
}

/// Drops what is marked.
pub open spec fn sweep(st: Pruning) -> Pruning {
    Pruning { left: st.left.remove_keys(st.unused), unused: st.unused }
}

/// One round: supertypes shrink, marks cascade, and what is marked goes.
pub open spec fn prune_round(kept: Set<Seq<char>>) -> spec_fn(Pruning) -> Pruning {
    |st: Pruning|
        {
            let shrunk = shrink_all(st, kept, st.left, ordered(st.left.dom()));
            sweep(cascade_all(shrunk, kept, ordered(st.left.dom())))
        }
}

/// What is kept in any case.
pub open spec fn kept_set(
    d: Decisions,
    counts: Counts,
    keep: Set<Seq<char>>,
) -> Set<Seq<char>> {
    keep.union(auto_kept(d, counts))
}

/// The state before the first round: all that is not used and not kept is
/// marked.
pub open spec fn prune_start(
    d: Decisions,
    counts: Counts,
    standalone: Counts,
    keep: Set<Seq<char>>,
) -> Pruning {
    Pruning {
        left: prepared(d, counts, standalone, keep),
        unused: d.dom().filter(
            |x: Seq<char>| count_of(counts, x) == 0 && !kept_set(d, counts, keep).contains(x),
        ),
    }
}

/// The pruned classification: what repeated rounds come to.
pub open spec fn pruned(
    d: Decisions,
    counts: Counts,
    standalone: Counts,
    keep: Set<Seq<char>>,
) -> Decisions {
    settled(
        prune_round(kept_set(d, counts, keep)),
        prune_start(d, counts, standalone, keep),
    ).left
}

// ---------------------------------------------------------------------
// Rounds shrink the state
// ---------------------------------------------------------------------

/// From `a` to `b` entities only go, become plain structs, or get marked.
pub open spec fn shrinks(a: Pruning, b: Pruning) -> bool {
    &&& b.left.dom().subset_of(a.left.dom())
    &&& forall|x: Seq<char>|
        #[trigger] b.left.contains_key(x) ==> b.left[x] == a.left[x] || (b.left[x] is SingleStruct
            && !(a.left[x] is SingleStruct))
    &&& a.unused.subset_of(b.unused)
    &&& forall|x: Seq<char>|
        #[trigger] b.unused.contains(x) && !a.unused.contains(x) ==> a.left.contains_key(x)
}

proof fn lemma_shrinks_trans(a: Pruning, b: Pruning, c: Pruning)
    requires
        shrinks(a, b),
        shrinks(b, c),
    ensures
        shrinks(a, c),
{
    assert forall|x: Seq<char>| #[trigger] c.left.contains_key(x) implies c.left[x] == a.left[x]
        || (c.left[x] is SingleStruct && !(a.left[x] is SingleStruct)) by {
        assert(b.left.contains_key(x));
    }
    assert forall|x: Seq<char>|
        #[trigger] c.unused.contains(x) && !a.unused.contains(x) implies a.left.contains_key(x) by {
        if b.unused.contains(x) {
            assert(a.left.contains_key(x));
        } else {
            assert(b.left.contains_key(x));
        }
    }
}

/// The entities that are not plain structs.
pub open spec fn structured(d: Decisions) -> Set<Seq<char>> {
    d.dom().filter(|x: Seq<char>| !(d[x] is SingleStruct))
}

/// How much can still change, within the names `all`.
pub open spec fn room(st: Pruning, all: Set<Seq<char>>) -> nat {
    st.left.dom().len() + structured(st.left).len() + all.difference(st.unused).len()
}

proof fn lemma_room(a: Pruning, b: Pruning, all: Set<Seq<char>>)
    requires
        shrinks(a, b),
        all.finite(),
        a.left.dom().subset_of(all),
    ensures
        room(b, all) <= room(a, all),
        a != b ==> room(b, all) < room(a, all),
        b.left.dom().subset_of(all),
{
    let da = a.left.dom();
    let db = b.left.dom();
    let sa = structured(a.left);
    let sb = structured(b.left);
    let ua = all.difference(a.unused);
    let ub = all.difference(b.unused);
    vstd::set_lib::lemma_len_subset(da, all);
    vstd::set_lib::lemma_len_subset(db, da);
    assert(sa.subset_of(da));
    vstd::set_lib::lemma_len_subset(sa, da);
    assert forall|x: Seq<char>| sb.contains(x) implies sa.contains(x) by {
        assert(b.left.contains_key(x));
    }
    vstd::set_lib::lemma_len_subset(sb, sa);
    assert(ub.subset_of(ua));
    vstd::set_lib::lemma_len_subset(ub, ua);
    if room(b, all) == room(a, all) {
        vstd::set_lib::lemma_subset_equality(db, da);
        vstd::set_lib::lemma_subset_equality(sb, sa);
        vstd::set_lib::lemma_subset_equality(ub, ua);
        assert forall|x: Seq<char>| a.left.contains_key(x) implies b.left[x] == a.left[x] by {
            assert(b.left.contains_key(x));
            if b.left[x] != a.left[x] {
                assert(sa.contains(x));
                assert(!sb.contains(x));
            }
        }
        assert(a.left =~= b.left);
        assert forall|x: Seq<char>| b.unused.contains(x) implies a.unused.contains(x) by {
            if !a.unused.contains(x) {
                assert(a.left.contains_key(x));
                assert(ua.contains(x));
                assert(!ub.contains(x));
            }
        }
        assert(a.unused =~= b.unused);
    }
}

proof fn lemma_shrink(st: Pruning, kept: Set<Seq<char>>, e: Seq<char>, k: SpecModel)
    requires
        st.left.dom().finite(),
        st.left.contains_key(e),
        k is ConcreteSupertype ==> st.left[e] is ConcreteSupertype || st.left[e] is SingleStruct,
    ensures
        shrink(st, kept, e, k).left.dom() == st.left.dom(),
        shrinks(st, shrink(st, kept, e, k)),
{
    let members = live_members(st, e);
    let r = shrink(st, kept, e, k);
    lemma_ordered(members);
    if !kept.contains(e) && k is EnumBase && members.len() == 1 {
        let c = ordered(members)[0];
        assert(members.contains(c));
        assert(st.left.contains_key(c));
        assert(r.left.dom() =~= st.left.dom());
    } else {
        assert(r.left.dom() =~= st.left.dom());
        assert(st.left.insert(e, SpecModel::SingleStruct).dom() =~= st.left.dom());
        if st.left[e] is SingleStruct {
            assert(st.left.insert(e, SpecModel::SingleStruct) =~= st.left);
        }
    }
}

proof fn lemma_shrink_all(
    st: Pruning,
    kept: Set<Seq<char>>,
    snapshot: Decisions,
    keys: Seq<Seq<char>>,
)
    requires
        st.left.dom().finite(),
        snapshot == st.left,
        forall|i: int| 0 <= i < keys.len() ==> st.left.contains_key(#[trigger] keys[i]),
    ensures
        shrink_all(st, kept, snapshot, keys).left.dom() == st.left.dom(),
        shrinks(st, shrink_all(st, kept, snapshot, keys)),
    decreases keys.len(),
{
    if keys.len() > 0 {
        let firsts = keys.drop_last();
        assert forall|i: int| 0 <= i < firsts.len() implies st.left.contains_key(
            #[trigger] firsts[i],
        ) by {
            assert(st.left.contains_key(keys[i]));
        }
        lemma_shrink_all(st, kept, snapshot, firsts);
        let mid = shrink_all(st, kept, snapshot, firsts);
        let e = keys.last();
        assert(st.left.contains_key(keys[keys.len() - 1]));
        assert(mid.left.contains_key(e));
        lemma_shrink(mid, kept, e, snapshot[e]);
        lemma_shrinks_trans(st, mid, shrink(mid, kept, e, snapshot[e]));
    }
}

proof fn lemma_cascade_all(st: Pruning, kept: Set<Seq<char>>, keys: Seq<Seq<char>>)
    requires
        forall|i: int| 0 <= i < keys.len() ==> st.left.contains_key(#[trigger] keys[i]),
    ensures
        cascade_all(st, kept, keys).left == st.left,
        shrinks(st, cascade_all(st, kept, keys)),
    decreases keys.len(),
{
    if keys.len() > 0 {
        let firsts = keys.drop_last();
        assert forall|i: int| 0 <= i < firsts.len() implies st.left.contains_key(
            #[trigger] firsts[i],
        ) by {
            assert(st.left.contains_key(keys[i]));
        }
        lemma_cascade_all(st, kept, firsts);
        let mid = cascade_all(st, kept, firsts);
        assert(st.left.contains_key(keys[keys.len() - 1]));
        assert(shrinks(mid, cascade(mid, kept, keys.last())));
        lemma_shrinks_trans(st, mid, cascade(mid, kept, keys.last()));
    }
}

proof fn lemma_round_shrinks(kept: Set<Seq<char>>, st: Pruning)
    requires
        st.left.dom().finite(),
    ensures
        shrinks(st, prune_round(kept)(st)),
{
    let keys = ordered(st.left.dom());
    lemma_ordered(st.left.dom());
    let shrunk = shrink_all(st, kept, st.left, keys);
    lemma_shrink_all(st, kept, st.left, keys);
    let cascaded = cascade_all(shrunk, kept, keys);
    lemma_cascade_all(shrunk, kept, keys);
    lemma_shrinks_trans(st, shrunk, cascaded);
    assert(shrinks(cascaded, sweep(cascaded)));
    lemma_shrinks_trans(st, cascaded, sweep(cascaded));
}

/// Rounds come to an end.
pub proof fn lemma_prune_settles(kept: Set<Seq<char>>, start: Pruning, n: nat) -> (m: nat)
    requires
        start.left.dom().finite(),
    ensures
        m >= n,
        settles(prune_round(kept), start, m),
    decreases room(rounds(prune_round(kept), start, n), start.left.dom()),
{
    let f = prune_round(kept);
    lemma_rounds_shrink(kept, start, n);
    let st = rounds(f, start, n);
    if f(st) == st {
        n
    } else {
        lemma_round_shrinks(kept, st);
        lemma_room(st, f(st), start.left.dom());
        assert(rounds(f, start, n + 1) == f(st));
        lemma_prune_settles(kept, start, n + 1)
    }
}

proof fn lemma_rounds_shrink(kept: Set<Seq<char>>, start: Pruning, n: nat)
    requires
        start.left.dom().finite(),
    ensures
        shrinks(start, rounds(prune_round(kept), start, n)),
        rounds(prune_round(kept), start, n).left.dom().subset_of(start.left.dom()),
        rounds(prune_round(kept), start, n).left.dom().finite(),
    decreases n,
{
    let f = prune_round(kept);
    if n > 0 {
        lemma_rounds_shrink(kept, start, (n - 1) as nat);
        let st = rounds(f, start, (n - 1) as nat);
        lemma_round_shrinks(kept, st);
        lemma_shrinks_trans(start, st, f(st));
    }
    vstd::set_lib::lemma_len_subset(rounds(f, start, n).left.dom(), start.left.dom());
}

// ---------------------------------------------------------------------
// Carrying the rounds out
// ---------------------------------------------------------------------

/// Collects the members of `host` that are not marked.
fn unmarked_members(left: &Table<VariantSpec>, unused: &NameSet, host: &str) -> (r: NameSet)
    ensures
        r@ == live_members(Pruning { left: left@, unused: unused@ }, host@),
{
    let ghost st = Pruning { left: left@, unused: unused@ };
    let n = left.len();
    let ghost o = ordered(left@.dom());
    let mut out = NameSet::new();
    let mut i: usize = 0;
    proof {
        lemma_ordered(left@.dom());
        assert(live_members(st, host@).intersect(o.take(0).to_set()) =~= Set::empty());
    }
    while i < n
        invariant
            i <= n,
            n == o.len(),
            o == ordered(left@.dom()),
            st == (Pruning { left: left@, unused: unused@ }),
            out@ == live_members(st, host@).intersect(o.take(i as int).to_set()),
        decreases n - i,
    {
        let c = left.key_at(i);
        let ghost before = o.take(i as int);
        proof {
            assert(o.take(i + 1) =~= before.push(c@));
            before.lemma_push_to_set_commute(c@);
        }
        if !unused.contains(c.as_str()) && spec_in_enum(left.value_at(i), host) {
            out.insert(c.clone());
        }
        assert(out@ =~= live_members(st, host@).intersect(o.take(i + 1).to_set()));
        i += 1;
    }
    proof {
        assert(o.take(i as int) =~= o);
        assert(out@ =~= live_members(st, host@));
    }
    out
}

fn shrink_entity(
    left: &mut Table<VariantSpec>,
    unused: &mut NameSet,
    kept: &NameSet,
    e: &str,
    k: &VariantSpec,
) -> (changed: bool)
    requires
        old(left)@.contains_key(e@),
        old(left)@.dom().finite(),
    ensures
        ({
            let before = Pruning { left: old(left)@, unused: old(unused)@ };
            let after = Pruning { left: final(left)@, unused: final(unused)@ };
            &&& after == shrink(before, kept@, e@, k.view())
            &&& changed <==> after != before
        }),
{
    let ghost before = Pruning { left: left@, unused: unused@ };
    if kept.contains(e) {
        return false;
    }
    let base = match k {
        VariantSpec::EnumBase { .. } => true,
        _ => false,
    };
    let concrete = match k {
        VariantSpec::ConcreteSupertype => true,
        _ => false,
    };
    if !base && !concrete {
        return false;
    }
    let members = unmarked_members(left, unused, e);
    let count = members.len();
    if base && count == 0 {
        let fresh = unused.insert(e.to_owned());
        proof {
            if !fresh {
                assert(unused@ =~= before.unused);
            } else {
                assert(unused@.contains(e@) && !before.unused.contains(e@));
            }
        }
        return fresh;
    }
    if base && count == 1 {
        let c = members.at(0).clone();
        proof {
            lemma_ordered(members@);
            assert(members@.contains(c@));
            assert(!(before.left[c@] is SingleStruct));
        }
        left.insert(c, VariantSpec::SingleStruct);
        unused.insert(e.to_owned());
        assert(left@[c@] != before.left[c@]);
        return true;
    }
    if concrete && count == 0 && !unused.contains(e) {
        let already = match left.get(e) {
            Some(VariantSpec::SingleStruct) => true,
            _ => false,
        };
        left.insert(e.to_owned(), VariantSpec::SingleStruct);
        proof {
            if already {
                assert(left@ =~= before.left);
            } else {
                assert(left@[e@] != before.left[e@]);
            }
        }
        return !already;
    }
    false
}

/// Notes that the state after a further step differs from the one at the start
/// of the round.
proof fn lemma_step_counts(
    start: Pruning,
    before: Pruning,
    after: Pruning,
    all: Set<Seq<char>>,
    changed: bool,
    stepped: bool,
)
    requires
        all.finite(),
        start.left.dom().subset_of(all),
        before.left.dom().subset_of(all),
        shrinks(before, after),
        room(before, all) <= room(start, all),
        changed ==> room(before, all) < room(start, all),
        stepped ==> after != before,
    ensures
        after.left.dom().subset_of(all),
        room(after, all) <= room(start, all),
        changed || stepped ==> room(after, all) < room(start, all),
{
    lemma_room(before, after, all);
}

fn shrink_supertypes(
    left: &mut Table<VariantSpec>,
    unused: &mut NameSet,
    kept: &NameSet,
    Ghost(all): Ghost<Set<Seq<char>>>,
) -> (changed: bool)
    requires
        old(left)@.dom().finite(),
        old(left)@.dom().subset_of(all),
        all.finite(),
    ensures
        ({
            let before = Pruning { left: old(left)@, unused: old(unused)@ };
            let after = Pruning { left: final(left)@, unused: final(unused)@ };
            &&& after == shrink_all(before, kept@, before.left, ordered(before.left.dom()))
            &&& !changed ==> after == before
            &&& room(after, all) <= room(before, all)
            &&& changed ==> room(after, all) < room(before, all)
        }),
{
    let ghost start = Pruning { left: left@, unused: unused@ };
    let snapshot = left.duplicate();
    let n = snapshot.len();
    let ghost o = ordered(start.left.dom());
    let mut changed = false;
    let mut i: usize = 0;
    proof {
        lemma_ordered(start.left.dom());
        assert(o.take(0) =~= seq![]);
    }
    while i < n
        invariant
            i <= n,
            n == o.len(),
            o == ordered(start.left.dom()),
            start.left.dom().finite(),
            start.left.dom().subset_of(all),
            all.finite(),
            snapshot@ == start.left,
            forall|j: int| 0 <= j < o.len() ==> start.left.contains_key(#[trigger] o[j]),
            (Pruning { left: left@, unused: unused@ }) == shrink_all(
                start,
                kept@,
                start.left,
                o.take(i as int),
            ),
            !changed ==> (Pruning { left: left@, unused: unused@ }) == start,
            room(Pruning { left: left@, unused: unused@ }, all) <= room(start, all),
            changed ==> room(Pruning { left: left@, unused: unused@ }, all) < room(start, all),
        decreases n - i,
    {
        let ghost mid = Pruning { left: left@, unused: unused@ };
        let e = snapshot.key_at(i);
        let k = snapshot.value_at(i);
        proof {
            assert(o.take(i + 1).drop_last() =~= o.take(i as int));
            assert(o.take(i + 1).last() == e@);
            assert forall|j: int| 0 <= j < o.take(i as int).len() implies start.left.contains_key(
                #[trigger] o.take(i as int)[j],
            ) by {
                assert(start.left.contains_key(o[j]));
            }
            lemma_shrink_all(start, kept@, start.left, o.take(i as int));
            assert(mid.left.contains_key(e@));
            lemma_shrink(mid, kept@, e@, k.view());
        }
        let stepped = shrink_entity(left, unused, kept, e.as_str(), k);
        proof {
            let after = Pruning { left: left@, unused: unused@ };
            lemma_step_counts(start, mid, after, all, changed, stepped);
        }
        changed = changed || stepped;
        i += 1;
    }
    assert(o.take(i as int) =~= o);
    changed
}

fn depends_on_gone(left: &Table<VariantSpec>, unused: &NameSet, e: &str) -> (r: bool)
    requires
        left@.contains_key(e@),
    ensures
        r == stale(Pruning { left: left@, unused: unused@ }, e@),
{
    let source: Option<&String> = match left.get(e) {
        Some(VariantSpec::InEnum { enum_name }) => Some(enum_name),
        Some(VariantSpec::MergedInto { target, .. }) => Some(target),
        Some(VariantSpec::NestedField { into, .. }) => Some(into),
        _ => None,
    };
    match source {
        Some(p) => !left.contains_key(p.as_str()) || unused.contains(p.as_str()),
        None => false,
    }
}

fn cascade_marks(
    left: &Table<VariantSpec>,
    unused: &mut NameSet,
    kept: &NameSet,
    Ghost(all): Ghost<Set<Seq<char>>>,
) -> (changed: bool)
    requires
        left@.dom().finite(),
        left@.dom().subset_of(all),
        all.finite(),
    ensures
        ({
            let before = Pruning { left: left@, unused: old(unused)@ };
            let after = Pruning { left: left@, unused: final(unused)@ };
            &&& after == cascade_all(before, kept@, ordered(left@.dom()))
            &&& !changed ==> after == before
            &&& room(after, all) <= room(before, all)
            &&& changed ==> room(after, all) < room(before, all)
        }),
{
    let ghost start = Pruning { left: left@, unused: unused@ };
    let n = left.len();
    let ghost o = ordered(left@.dom());
    let mut changed = false;
    let mut i: usize = 0;
    proof {
        lemma_ordered(left@.dom());
        assert(o.take(0) =~= seq![]);
    }
    while i < n
        invariant
            i <= n,
            n == o.len(),
            o == ordered(left@.dom()),
            left@.dom().subset_of(all),
            all.finite(),
            start.left == left@,
            forall|j: int| 0 <= j < o.len() ==> start.left.contains_key(#[trigger] o[j]),
            (Pruning { left: left@, unused: unused@ }) == cascade_all(
                start,
                kept@,
                o.take(i as int),
            ),
            !changed ==> (Pruning { left: left@, unused: unused@ }) == start,
            room(Pruning { left: left@, unused: unused@ }, all) <= room(start, all),
            changed ==> room(Pruning { left: left@, unused: unused@ }, all) < room(start, all),
        decreases n - i,
    {
        let ghost mid = Pruning { left: left@, unused: unused@ };
        let e = left.key_at(i);
        proof {
            assert(o.take(i + 1).drop_last() =~= o.take(i as int));
            assert(o.take(i + 1).last() == e@);
        }
        let mut stepped = false;
        if !unused.contains(e.as_str()) && depends_on_gone(left, unused, e.as_str())
            && !kept.contains(e.as_str()) {
            unused.insert(e.clone());
            assert(unused@.contains(e@) && !mid.unused.contains(e@));
            stepped = true;
        }
        proof {
            let after = Pruning { left: left@, unused: unused@ };
            assert(shrinks(mid, after));
            lemma_step_counts(start, mid, after, all, changed, stepped);
        }
        changed = changed || stepped;
        i += 1;
    }
    assert(o.take(i as int) =~= o);
    changed
}

fn drop_marked(left: &mut Table<VariantSpec>, unused: &NameSet) -> (changed: bool)
    ensures
        final(left)@ == old(left)@.remove_keys(unused@),
        changed <==> final(left)@ != old(left)@,
{
    let ghost start = left@;
    let n = unused.len();
    let ghost o = ordered(unused@);
    let mut changed = false;
    let mut i: usize = 0;
    proof {
        lemma_ordered(unused@);
        assert(start.remove_keys(o.take(0).to_set()) =~= start);
    }
    while i < n
        invariant
            i <= n,
            n == o.len(),
            o == ordered(unused@),
            left@ == start.remove_keys(o.take(i as int).to_set()),
            changed <==> left@ != start,
        decreases n - i,
    {
        let x = unused.at(i);
        let ghost before = left@;
        proof {
            assert(o.take(i + 1) =~= o.take(i as int).push(x@));
            o.take(i as int).lemma_push_to_set_commute(x@);
        }
        let removed = left.remove(x.as_str()).is_some();
        proof {
            assert(left@ =~= start.remove_keys(o.take(i + 1).to_set()));
            if removed {
                assert(before.contains_key(x@));
                assert(start.contains_key(x@));
                assert(!left@.contains_key(x@));
            } else {
                assert(left@ =~= before);
            }
            if before != start && removed {
                assert(!left@.contains_key(x@));
            }
        }
        changed = changed || removed;
        i += 1;
    }
    proof {
        assert(o.take(i as int) =~= o);
    }
    changed
}

/// Prunes the classification. `keep` holds entities that stay in any case.
pub fn prune_transitive_with_keep(
    variants: &Table<VariantSpec>,
    counts: &Table<usize>,
    standalone: &Table<usize>,
    keep: &NameSet,
) -> (r: Table<VariantSpec>)
    ensures
        r@ == pruned(variants@, counts@, standalone@, keep@),
{
    let ghost d = variants@;
    let size = variants.len();
    let mut kept = auto_keep(variants, counts);
    let names = keep.names();
    let mut i: usize = 0;
    let ghost auto = kept@;
    let ghost extra = names.deep_view();
    let extra_len = keep.len();
    proof {
        lemma_ordered(keep@);
        assert(auto.union(extra.take(0).to_set()) =~= auto);
    }
    while i < names.len()
        invariant
            i <= names@.len(),
            extra == names.deep_view(),
            extra.len() == names@.len(),
            kept@ == auto.union(extra.take(i as int).to_set()),
        decreases names@.len() - i,
    {
        proof {
            assert(extra.take(i + 1) =~= extra.take(i as int).push(extra[i as int]));
            extra.take(i as int).lemma_push_to_set_commute(extra[i as int]);
        }
        kept.insert(names[i].clone());
        assert(kept@ =~= auto.union(extra.take(i + 1).to_set()));
        i += 1;
    }
    proof {
        assert(extra.take(i as int) =~= extra);
        assert(kept@ =~= kept_set(d, counts@, keep@));
    }
    let mut left = prepare(variants, counts, standalone, keep);
    let ghost all = left@.dom();
    assert(all =~= d.dom());
    let mut unused = NameSet::new();
    let ghost start = prune_start(d, counts@, standalone@, keep@);
    let ghost o = ordered(d.dom());
    let mut j: usize = 0;
    proof {
        lemma_ordered(d.dom());
        assert(start.unused.intersect(o.take(0).to_set()) =~= Set::empty());
    }
    while j < size
        invariant
            j <= size,
            size == o.len(),
            d == variants@,
            o == ordered(d.dom()),
            kept@ == kept_set(d, counts@, keep@),
            start == prune_start(d, counts@, standalone@, keep@),
            unused@ == start.unused.intersect(o.take(j as int).to_set()),
        decreases size - j,
    {
        let x = variants.key_at(j);
        let ghost before = o.take(j as int);
        proof {
            assert(o.take(j + 1) =~= before.push(x@));
            before.lemma_push_to_set_commute(x@);
        }
        if lookup(counts, x.as_str()) == 0 && !kept.contains(x.as_str()) {
            unused.insert(x.clone());
        }
        assert(unused@ =~= start.unused.intersect(o.take(j + 1).to_set()));
        j += 1;
    }
    proof {
        assert(o.take(j as int) =~= o);
        assert(unused@ =~= start.unused);
    }
    let ghost f = prune_round(kept@);
    let ghost mut n: nat = 0;
    let mut changed = true;
    while changed
        invariant
            f == prune_round(kept@),
            all.finite(),
            left@.dom().subset_of(all),
            left@.dom().finite(),
            rounds(f, start, n) == (Pruning { left: left@, unused: unused@ }),
            !changed ==> settles(f, start, n),
        decreases room(Pruning { left: left@, unused: unused@ }, all) + (if changed {
            1nat
        } else {
            0nat
        }),
    {
        let ghost st = Pruning { left: left@, unused: unused@ };
        proof {
            lemma_ordered(st.left.dom());
            lemma_shrink_all(st, kept@, st.left, ordered(st.left.dom()));
            lemma_round_shrinks(kept@, st);
        }
        let shrunk = shrink_supertypes(&mut left, &mut unused, &kept, Ghost(all));
        let ghost st1 = Pruning { left: left@, unused: unused@ };
        let cascaded = cascade_marks(&left, &mut unused, &kept, Ghost(all));
        let ghost st2 = Pruning { left: left@, unused: unused@ };
        let dropped = drop_marked(&mut left, &unused);
        changed = shrunk || cascaded || dropped;
        proof {
            let st3 = Pruning { left: left@, unused: unused@ };
            assert(st3 == f(st));
            assert(shrinks(st2, st3));
            lemma_room(st2, st3, all);
            vstd::set_lib::lemma_len_subset(st3.left.dom(), all);
            if changed {
                n = n + 1;
            } else {
                assert(st3 == st);
            }
        }
    }
    proof {
        lemma_settled(f, start, n);
    }
    left
}

/// Prunes without anything to keep, every use counting as standing alone.
pub fn prune_transitive(variants: &Table<VariantSpec>, counts: &Table<usize>) -> (r: Table<
    VariantSpec,
>)
    ensures
        r@ == pruned(variants@, counts@, counts@, Set::empty()),
{
    prune_transitive_with_keep(variants, counts, counts, &NameSet::new())
}

// ---------------------------------------------------------------------
// Laws of pruning
// ---------------------------------------------------------------------

/// Pruning adds no entity.
pub proof fn law_prune_adds_nothing(
    d: Decisions,
    counts: Counts,
    standalone: Counts,
    keep: Set<Seq<char>>,
)
    requires
        d.dom().finite(),
    ensures
        pruned(d, counts, standalone, keep).dom().subset_of(d.dom()),
{
    let start = prune_start(d, counts, standalone, keep);
    let f = prune_round(kept_set(d, counts, keep));
    assert(start.left.dom() =~= d.dom());
    let n = choose|n: nat| settles(f, start, n);
    lemma_rounds_shrink(kept_set(d, counts, keep), start, n);
}

proof fn lemma_kept_not_marked(kept: Set<Seq<char>>, start: Pruning, n: nat, x: Seq<char>)
    requires
        start.left.dom().finite(),
        start.left.contains_key(x),
        kept.contains(x),
        !start.unused.contains(x),
    ensures
        rounds(prune_round(kept), start, n).left.contains_key(x),
        !rounds(prune_round(kept), start, n).unused.contains(x),
    decreases n,
{
    if n > 0 {
        lemma_kept_not_marked(kept, start, (n - 1) as nat, x);
        lemma_rounds_shrink(kept, start, (n - 1) as nat);
        let st = rounds(prune_round(kept), start, (n - 1) as nat);
        let keys = ordered(st.left.dom());
        lemma_ordered(st.left.dom());
        lemma_shrink_all(st, kept, st.left, keys);
        lemma_shrink_keeps(st, kept, st.left, keys, x);
        let shrunk = shrink_all(st, kept, st.left, keys);
        lemma_cascade_all(shrunk, kept, keys);
        lemma_cascade_keeps(shrunk, kept, keys, x);
    }
}

proof fn lemma_shrink_keeps(
    st: Pruning,
    kept: Set<Seq<char>>,
    snapshot: Decisions,
    keys: Seq<Seq<char>>,
    x: Seq<char>,
)
    requires
        kept.contains(x),
        !st.unused.contains(x),
    ensures
        !shrink_all(st, kept, snapshot, keys).unused.contains(x),
    decreases keys.len(),
{
    if keys.len() > 0 {
        lemma_shrink_keeps(st, kept, snapshot, keys.drop_last(), x);
    }
}

proof fn lemma_cascade_keeps(
    st: Pruning,
    kept: Set<Seq<char>>,
    keys: Seq<Seq<char>>,
    x: Seq<char>,
)
    requires
        kept.contains(x),
        !st.unused.contains(x),
    ensures
        !cascade_all(st, kept, keys).unused.contains(x),
    decreases keys.len(),
{
    if keys.len() > 0 {
        lemma_cascade_keeps(st, kept, keys.drop_last(), x);
    }
}

/// What is kept, by an override or because it has used members, survives.
pub proof fn law_kept_survives(
    d: Decisions,
    counts: Counts,
    standalone: Counts,
    keep: Set<Seq<char>>,
    x: Seq<char>,
)
    requires
        d.dom().finite(),
        d.contains_key(x),
        kept_set(d, counts, keep).contains(x),
    ensures
        pruned(d, counts, standalone, keep).contains_key(x),
{
    let start = prune_start(d, counts, standalone, keep);
    let kept = kept_set(d, counts, keep);
    assert(start.left.dom() =~= d.dom());
    let n = choose|n: nat| settles(prune_round(kept), start, n);
    lemma_kept_not_marked(kept, start, n, x);
}

/// Whether an entity of this kind has a struct of its own.
pub open spec fn has_struct(k: SpecModel) -> bool {
    k is SingleStruct || k is ConcreteSupertype || k is ComplexSupertype || k is CompositeOneOf
}

/// Whether an entity is there, unmarked, with a struct of its own.
spec fn stands(st: Pruning, x: Seq<char>) -> bool {
    st.left.contains_key(x) && !st.unused.contains(x) && has_struct(st.left[x])
}

proof fn lemma_shrink_all_leaves_standing(
    st: Pruning,
    kept: Set<Seq<char>>,
    snapshot: Decisions,
    keys: Seq<Seq<char>>,
    x: Seq<char>,
)
    requires
        stands(st, x),
        has_struct(snapshot[x]),
    ensures
        stands(shrink_all(st, kept, snapshot, keys), x),
    decreases keys.len(),
{
    if keys.len() > 0 {
        lemma_shrink_all_leaves_standing(st, kept, snapshot, keys.drop_last(), x);
    }
}

proof fn lemma_cascade_all_leaves_standing(
    st: Pruning,
    kept: Set<Seq<char>>,
    keys: Seq<Seq<char>>,
    x: Seq<char>,
)
    requires
        stands(st, x),
    ensures
        stands(cascade_all(st, kept, keys), x),
    decreases keys.len(),
{
    if keys.len() > 0 {
        lemma_cascade_all_leaves_standing(st, kept, keys.drop_last(), x);
    }
}

proof fn lemma_rounds_leave_standing(kept: Set<Seq<char>>, start: Pruning, n: nat, x: Seq<char>)
    requires
        stands(start, x),
    ensures
        stands(rounds(prune_round(kept), start, n), x),
    decreases n,
{
    if n > 0 {
        lemma_rounds_leave_standing(kept, start, (n - 1) as nat, x);
        let st = rounds(prune_round(kept), start, (n - 1) as nat);
        let keys = ordered(st.left.dom());
        lemma_shrink_all_leaves_standing(st, kept, st.left, keys, x);
        lemma_cascade_all_leaves_standing(shrink_all(st, kept, st.left, keys), kept, keys, x);
    }
}

/// An entity that stands alone in some file survives with a struct of its own,
/// also where it was an enum or merged into another, unless it is a member of an
/// enum or a field of another.
pub proof fn law_instantiated_keep_a_struct(
    d: Decisions,
    counts: Counts,
    standalone: Counts,
    keep: Set<Seq<char>>,
    x: Seq<char>,
)
    requires
        d.contains_key(x),
        count_of(counts, x) > 0,
        count_of(standalone, x) > 0,
        !(d[x] is InEnum || d[x] is NestedField),
    ensures
        pruned(d, counts, standalone, keep).contains_key(x),
        has_struct(pruned(d, counts, standalone, keep)[x]),
{
    let start = prune_start(d, counts, standalone, keep);
    let kept = kept_set(d, counts, keep);
    let n = choose|n: nat| settles(prune_round(kept), start, n);
    assert(stands(start, x));
    lemma_rounds_leave_standing(kept, start, n, x);
}

/// The state that the rounds come to changes no more, and holds nothing that
/// is marked.
proof fn lemma_pruned_state(
    d: Decisions,
    counts: Counts,
    standalone: Counts,
    keep: Set<Seq<char>>,
) -> (st: Pruning)
    requires
        d.dom().finite(),
    ensures
        st == settled(
            prune_round(kept_set(d, counts, keep)),
            prune_start(d, counts, standalone, keep),
        ),
        st.left == pruned(d, counts, standalone, keep),
        prune_round(kept_set(d, counts, keep))(st) == st,
        shrinks(prune_start(d, counts, standalone, keep), st),
        st.left.dom().finite(),
        forall|x: Seq<char>| st.left.contains_key(x) ==> !st.unused.contains(x),
{
    let start = prune_start(d, counts, standalone, keep);
    let kept = kept_set(d, counts, keep);
    let f = prune_round(kept);
    assert(start.left.dom() =~= d.dom());
    let m = lemma_prune_settles(kept, start, 0);
    lemma_settled(f, start, m);
    lemma_rounds_shrink(kept, start, m);
    let st = rounds(f, start, m);
    let keys = ordered(st.left.dom());
    let cascaded = cascade_all(shrink_all(st, kept, st.left, keys), kept, keys);
    assert(st == sweep(cascaded));
    st
}

/// What is left is used or kept.
pub proof fn law_unused_goes(
    d: Decisions,
    counts: Counts,
    standalone: Counts,
    keep: Set<Seq<char>>,
    x: Seq<char>,
)
    requires
        d.dom().finite(),
        pruned(d, counts, standalone, keep).contains_key(x),
    ensures
        count_of(counts, x) > 0 || kept_set(d, counts, keep).contains(x),
{
    let st = lemma_pruned_state(d, counts, standalone, keep);
    let start = prune_start(d, counts, standalone, keep);
    assert(d.contains_key(x)) by {
        law_prune_adds_nothing(d, counts, standalone, keep);
    }
    if start.unused.contains(x) {
        assert(st.unused.contains(x));
    }
}

proof fn lemma_cascade_grows(
    st: Pruning,
    kept: Set<Seq<char>>,
    keys: Seq<Seq<char>>,
    i: int,
)
    requires
        0 <= i < keys.len(),
        cascade_all(st, kept, keys) == st,
    ensures
        !(!st.unused.contains(keys[i]) && stale(st, keys[i]) && !kept.contains(keys[i])),
    decreases keys.len(),
{
    let firsts = keys.drop_last();
    let mid = cascade_all(st, kept, firsts);
    lemma_cascade_unused(st, kept, firsts);
    assert(mid.left == st.left);
    assert(mid.unused.subset_of(st.unused));
    assert(mid.unused =~= st.unused);
    if i < keys.len() - 1 {
        assert(firsts[i] == keys[i]);
        lemma_cascade_grows(st, kept, firsts, i);
    } else {
        if !st.unused.contains(keys[i]) && stale(st, keys[i]) && !kept.contains(keys[i]) {
            assert(cascade(mid, kept, keys[i]).unused.contains(keys[i]));
        }
    }
}

proof fn lemma_cascade_unused(st: Pruning, kept: Set<Seq<char>>, keys: Seq<Seq<char>>)
    ensures
        cascade_all(st, kept, keys).left == st.left,
        st.unused.subset_of(cascade_all(st, kept, keys).unused),
    decreases keys.len(),
{
    if keys.len() > 0 {
        lemma_cascade_unused(st, kept, keys.drop_last());
    }
}

/// Where a round changes nothing, none of its steps does.
proof fn lemma_round_rests(kept: Set<Seq<char>>, st: Pruning)
    requires
        st.left.dom().finite(),
        prune_round(kept)(st) == st,
        forall|x: Seq<char>| st.left.contains_key(x) ==> !st.unused.contains(x),
    ensures
        shrink_all(st, kept, st.left, ordered(st.left.dom())) == st,
        cascade_all(st, kept, ordered(st.left.dom())) == st,
{
    let keys = ordered(st.left.dom());
    lemma_ordered(st.left.dom());
    let shrunk = shrink_all(st, kept, st.left, keys);
    let cascaded = cascade_all(shrunk, kept, keys);
    lemma_shrink_all(st, kept, st.left, keys);
    lemma_cascade_all(shrunk, kept, keys);
    lemma_shrinks_trans(st, shrunk, cascaded);
    assert(cascaded.unused == st.unused);
    assert(shrunk.unused =~= st.unused);
    assert(cascaded.left.remove_keys(st.unused) == st.left);
    assert(shrunk.left =~= st.left) by {
        assert forall|y: Seq<char>| st.left.contains_key(y) implies shrunk.left[y] == st.left[y] by {
            assert(cascaded.left.remove_keys(st.unused).contains_key(y));
        }
    }
    assert(shrunk == st);
    assert(cascaded == st);
}

/// Nothing dangles: what is left and not kept depends on nothing, or on
/// something that is left.
pub proof fn law_nothing_dangles(
    d: Decisions,
    counts: Counts,
    standalone: Counts,
    keep: Set<Seq<char>>,
    x: Seq<char>,
)
    requires
        d.dom().finite(),
        pruned(d, counts, standalone, keep).contains_key(x),
        !kept_set(d, counts, keep).contains(x),
    ensures
        anchor(pruned(d, counts, standalone, keep)[x]) matches Some(p) ==> pruned(
            d,
            counts,
            standalone,
            keep,
        ).contains_key(p),
{
    let kept = kept_set(d, counts, keep);
    let st = lemma_pruned_state(d, counts, standalone, keep);
    let keys = ordered(st.left.dom());
    lemma_ordered(st.left.dom());
    lemma_round_rests(kept, st);
    assert(keys.contains(x));
    let i = choose|i: int| 0 <= i < keys.len() && keys[i] == x;
    lemma_cascade_grows(st, kept, keys, i);
}

/// Where shrinking all supertypes changes nothing, shrinking any of them does
/// not.
proof fn lemma_shrink_rests(
    st: Pruning,
    kept: Set<Seq<char>>,
    keys: Seq<Seq<char>>,
    i: int,
)
    requires
        st.left.dom().finite(),
        forall|j: int| 0 <= j < keys.len() ==> st.left.contains_key(#[trigger] keys[j]),
        shrink_all(st, kept, st.left, keys) == st,
        0 <= i < keys.len(),
    ensures
        shrink(st, kept, keys[i], st.left[keys[i]]) == st,
    decreases keys.len(),
{
    let firsts = keys.drop_last();
    let e = keys.last();
    assert forall|j: int| 0 <= j < firsts.len() implies st.left.contains_key(
        #[trigger] firsts[j],
    ) by {
        assert(st.left.contains_key(keys[j]));
    }
    assert(st.left.contains_key(keys[keys.len() - 1]));
    lemma_shrink_all(st, kept, st.left, firsts);
    let mid = shrink_all(st, kept, st.left, firsts);
    assert(mid.left.contains_key(e));
    lemma_shrink(mid, kept, e, st.left[e]);
    assert(shrinks(mid, st));
    assert(mid == st) by {
        assert(mid.left =~= st.left) by {
            assert forall|x: Seq<char>| st.left.contains_key(x) implies mid.left[x]
                == st.left[x] by {
                assert(mid.left.contains_key(x));
            }
        }
        assert(mid.unused =~= st.unused);
    }
    if i < firsts.len() {
        assert(firsts[i] == keys[i]);
        lemma_shrink_rests(st, kept, firsts, i);
    }
}

proof fn lemma_shrink_all_rests(st: Pruning, kept: Set<Seq<char>>, keys: Seq<Seq<char>>)
    requires
        forall|i: int|
            0 <= i < keys.len() ==> shrink(st, kept, #[trigger] keys[i], st.left[keys[i]]) == st,
    ensures
        shrink_all(st, kept, st.left, keys) == st,
    decreases keys.len(),
{
    if keys.len() > 0 {
        let firsts = keys.drop_last();
        assert forall|i: int| 0 <= i < firsts.len() implies shrink(
            st,
            kept,
            #[trigger] firsts[i],
            st.left[firsts[i]],
        ) == st by {
            assert(keys[i] == firsts[i]);
        }
        lemma_shrink_all_rests(st, kept, firsts);
        assert(keys[keys.len() - 1] == keys.last());
    }
}

proof fn lemma_cascade_all_rests(st: Pruning, kept: Set<Seq<char>>, keys: Seq<Seq<char>>)
    requires
        forall|i: int| 0 <= i < keys.len() ==> cascade(st, kept, #[trigger] keys[i]) == st,
    ensures
        cascade_all(st, kept, keys) == st,
    decreases keys.len(),
{
    if keys.len() > 0 {
        let firsts = keys.drop_last();
        assert forall|i: int| 0 <= i < firsts.len() implies cascade(st, kept, #[trigger] firsts[i])
            == st by {
            assert(keys[i] == firsts[i]);
        }
        lemma_cascade_all_rests(st, kept, firsts);
        assert(keys[keys.len() - 1] == keys.last());
    }
}

/// Whether `x` is there to stay, with `c` as one of its members.
spec fn holds_member(st: Pruning, kept: Set<Seq<char>>, x: Seq<char>, c: Seq<char>) -> bool {
    &&& st.left.contains_key(x)
    &&& !st.unused.contains(x)
    &&& kept.contains(x) || st.left[x] is ConcreteSupertype
    &&& live_member(st, x, c)
}

proof fn lemma_shrink_all_holds_member(
    st: Pruning,
    kept: Set<Seq<char>>,
    snapshot: Decisions,
    keys: Seq<Seq<char>>,
    x: Seq<char>,
    c: Seq<char>,
)
    requires
        st.left.dom().finite(),
        snapshot == st.left,
        forall|i: int| 0 <= i < keys.len() ==> st.left.contains_key(#[trigger] keys[i]),
        holds_member(st, kept, x, c),
    ensures
        holds_member(shrink_all(st, kept, snapshot, keys), kept, x, c),
    decreases keys.len(),
{
    if keys.len() > 0 {
        let firsts = keys.drop_last();
        let e = keys.last();
        assert forall|i: int| 0 <= i < firsts.len() implies st.left.contains_key(
            #[trigger] firsts[i],
        ) by {
            assert(st.left.contains_key(keys[i]));
        }
        lemma_shrink_all_holds_member(st, kept, snapshot, firsts, x, c);
        lemma_shrink_all(st, kept, snapshot, firsts);
        let mid = shrink_all(st, kept, snapshot, firsts);
        let members = live_members(mid, e);
        lemma_ordered(members);
        if members.len() == 1 {
            assert(members.contains(ordered(members)[0]));
        }
        if e == x {
            assert(members.contains(c));
        }
    }
}

proof fn lemma_cascade_all_holds_member(
    st: Pruning,
    kept: Set<Seq<char>>,
    keys: Seq<Seq<char>>,
    x: Seq<char>,
    c: Seq<char>,
)
    requires
        holds_member(st, kept, x, c),
    ensures
        holds_member(cascade_all(st, kept, keys), kept, x, c),
    decreases keys.len(),
{
    if keys.len() > 0 {
        lemma_cascade_all_holds_member(st, kept, keys.drop_last(), x, c);
    }
}

/// A member whose host stays is never taken from it.
proof fn lemma_rounds_hold_member(
    kept: Set<Seq<char>>,
    start: Pruning,
    n: nat,
    x: Seq<char>,
    c: Seq<char>,
)
    requires
        start.left.dom().finite(),
        holds_member(start, kept, x, c),
    ensures
        holds_member(rounds(prune_round(kept), start, n), kept, x, c),
    decreases n,
{
    if n > 0 {
        lemma_rounds_hold_member(kept, start, (n - 1) as nat, x, c);
        lemma_rounds_shrink(kept, start, (n - 1) as nat);
        let st = rounds(prune_round(kept), start, (n - 1) as nat);
        let keys = ordered(st.left.dom());
        lemma_ordered(st.left.dom());
        lemma_shrink_all_holds_member(st, kept, st.left, keys, x, c);
        lemma_cascade_all_holds_member(shrink_all(st, kept, st.left, keys), kept, keys, x, c);
    }
}

proof fn lemma_shrink_all_keeps_kind(
    st: Pruning,
    kept: Set<Seq<char>>,
    snapshot: Decisions,
    keys: Seq<Seq<char>>,
    x: Seq<char>,
)
    requires
        st.left.dom().finite(),
        snapshot == st.left,
        forall|i: int| 0 <= i < keys.len() ==> st.left.contains_key(#[trigger] keys[i]),
        kept.contains(x),
        hosts(st.left, x),
    ensures
        shrink_all(st, kept, snapshot, keys).left.contains_key(x),
        shrink_all(st, kept, snapshot, keys).left[x] == st.left[x],
    decreases keys.len(),
{
    if keys.len() > 0 {
        let firsts = keys.drop_last();
        assert forall|i: int| 0 <= i < firsts.len() implies st.left.contains_key(
            #[trigger] firsts[i],
        ) by {
            assert(st.left.contains_key(keys[i]));
        }
        lemma_shrink_all_keeps_kind(st, kept, snapshot, firsts, x);
        lemma_shrink_all(st, kept, snapshot, firsts);
        let mid = shrink_all(st, kept, snapshot, firsts);
        let members = live_members(mid, keys.last());
        lemma_ordered(members);
        if members.len() == 1 {
            assert(members.contains(ordered(members)[0]));
        }
    }
}

/// A kept supertype keeps its kind.
proof fn lemma_rounds_keep_kind(kept: Set<Seq<char>>, start: Pruning, n: nat, x: Seq<char>)
    requires
        start.left.dom().finite(),
        kept.contains(x),
        hosts(start.left, x),
        !start.unused.contains(x),
    ensures
        rounds(prune_round(kept), start, n).left.contains_key(x),
        rounds(prune_round(kept), start, n).left[x] == start.left[x],
    decreases n,
{
    if n > 0 {
        lemma_rounds_keep_kind(kept, start, (n - 1) as nat, x);
        lemma_kept_not_marked(kept, start, n, x);
        lemma_rounds_shrink(kept, start, (n - 1) as nat);
        let st = rounds(prune_round(kept), start, (n - 1) as nat);
        let keys = ordered(st.left.dom());
        lemma_ordered(st.left.dom());
        lemma_shrink_all(st, kept, st.left, keys);
        lemma_shrink_all_keeps_kind(st, kept, st.left, keys, x);
        lemma_cascade_all(shrink_all(st, kept, st.left, keys), kept, keys);
    }
}

/// What is left without being used is kept by what is left, too.
proof fn lemma_left_is_kept_again(
    d: Decisions,
    counts: Counts,
    standalone: Counts,
    keep: Set<Seq<char>>,
    x: Seq<char>,
)
    requires
        d.dom().finite(),
        pruned(d, counts, standalone, keep).contains_key(x),
        count_of(counts, x) == 0,
    ensures
        kept_set(pruned(d, counts, standalone, keep), counts, keep).contains(x),
{
    let p = pruned(d, counts, standalone, keep);
    let start = prune_start(d, counts, standalone, keep);
    let kept = kept_set(d, counts, keep);
    law_unused_goes(d, counts, standalone, keep, x);
    law_prune_adds_nothing(d, counts, standalone, keep);
    assert(start.left.dom() =~= d.dom());
    if !keep.contains(x) {
        let c = choose|c: Seq<char>| #[trigger] member_of(d, c, x) && count_of(counts, c) > 0;
        assert(member_of(d, c, x));
        assert(has_surviving_member(d, counts, keep, x));
        let n = choose|n: nat| settles(prune_round(kept), start, n);
        assert(live_member(start, x, c));
        lemma_rounds_hold_member(kept, start, n, x, c);
        assert(member_of(p, c, x));
        lemma_rounds_keep_kind(kept, start, n, x);
    }
}

/// The preparation finds nothing to do in what is left.
proof fn lemma_left_is_prepared(
    d: Decisions,
    counts: Counts,
    standalone: Counts,
    keep: Set<Seq<char>>,
)
    requires
        d.dom().finite(),
    ensures
        ({
            let p = pruned(d, counts, standalone, keep);
            prepared(p, counts, standalone, keep) == p
        }),
{
    let p = pruned(d, counts, standalone, keep);
    let start = prune_start(d, counts, standalone, keep);
    let kept = kept_set(d, counts, keep);
    let st = lemma_pruned_state(d, counts, standalone, keep);
    assert(start.left.dom() =~= d.dom());
    assert forall|x: Seq<char>| p.contains_key(x) implies prepared_kind(
        p,
        counts,
        standalone,
        keep,
        x,
    ) == p[x] by {
        assert(st.left.contains_key(x));
        assert(d.contains_key(x));
        assert(start.left[x] == prepared_kind(d, counts, standalone, keep, x));
        if p[x] is ConcreteSupertype && count_of(counts, x) > 0 {
            assert(has_surviving_member(d, counts, keep, x));
            let c = choose|c: Seq<char>|
                #[trigger] member_of(d, c, x) && (count_of(counts, c) > 0 || keep.contains(c));
            let n = choose|n: nat| settles(prune_round(kept), start, n);
            assert(live_member(start, x, c));
            lemma_rounds_hold_member(kept, start, n, x, c);
            assert(member_of(p, c, x));
        }
    }
    assert(prepared(p, counts, standalone, keep) =~= p);
}

/// Pruning comes to an end: what is left stays as it is when it is pruned
/// again with the same counts and the same entities to keep.
pub proof fn law_prune_is_idempotent(
    d: Decisions,
    counts: Counts,
    standalone: Counts,
    keep: Set<Seq<char>>,
)
    requires
        d.dom().finite(),
    ensures
        pruned(pruned(d, counts, standalone, keep), counts, standalone, keep) == pruned(
            d,
            counts,
            standalone,
            keep,
        ),
{
    let p = pruned(d, counts, standalone, keep);
    let kept = kept_set(d, counts, keep);
    let again = kept_set(p, counts, keep);
    let first = prune_start(d, counts, standalone, keep);
    let st = lemma_pruned_state(d, counts, standalone, keep);
    let start = prune_start(p, counts, standalone, keep);
    lemma_left_is_prepared(d, counts, standalone, keep);
    assert(start.unused =~= Set::empty()) by {
        assert forall|x: Seq<char>| p.contains_key(x) && count_of(counts, x) == 0 implies
            again.contains(x) by {
            lemma_left_is_kept_again(d, counts, standalone, keep, x);
        }
    }
    let keys = ordered(p.dom());
    lemma_ordered(p.dom());
    lemma_round_rests(kept, st);
    assert forall|i: int| 0 <= i < keys.len() implies shrink(
        start,
        again,
        #[trigger] keys[i],
        start.left[keys[i]],
    ) == start by {
        let e = keys[i];
        assert(keys.contains(e));
        lemma_shrink_rests(st, kept, keys, i);
        assert(live_members(start, e) =~= live_members(st, e));
        if count_of(counts, e) == 0 {
            lemma_left_is_kept_again(d, counts, standalone, keep, e);
        }
        if !again.contains(e) && (p[e] is EnumBase || p[e] is ConcreteSupertype) {
            assert(hosts(p, e));
            assert(!kept.contains(e));
        }
    }
    lemma_shrink_all_rests(start, again, keys);
    assert forall|i: int| 0 <= i < keys.len() implies cascade(start, again, #[trigger] keys[i])
        == start by {
        let e = keys[i];
        assert(keys.contains(e));
        if !kept.contains(e) {
            law_nothing_dangles(d, counts, standalone, keep, e);
        } else if !again.contains(e) {
            assert(hosts(d, e));
            assert(st.left.contains_key(e));
            assert(first.left[e] == prepared_kind(d, counts, standalone, keep, e));
        }
    }
    lemma_cascade_all_rests(start, again, keys);
    assert(sweep(start) == start) by {
        assert(start.left.remove_keys(start.unused) =~= start.left);
    }
    assert(rounds(prune_round(again), start, 0) == start);
    assert(settles(prune_round(again), start, 0));
    lemma_settled(prune_round(again), start, 0);
}

// ---------------------------------------------------------------------
// Flattening
// ---------------------------------------------------------------------

/// The enum around each entity, by name; and the pool of each arena.
pub type Links = Map<Seq<char>, Seq<char>>;

/// The next link.
pub open spec fn link(links: Links, x: Seq<char>) -> Option<Seq<char>> {
    if links.contains_key(x) {
        Some(links[x])
    } else {
        None
    }
}

/// Whether an entity is a middle node: an enum of its own that stands alone in
/// some file and sits inside another enum.
pub open spec fn middle_node(
    d: Decisions,
    roots: Links,
    standalone: Counts,
    x: Seq<char>,
) -> bool {
    &&& d.contains_key(x)
    &&& d[x] is EnumBase || d[x] is ConcreteSupertype
    &&& count_of(standalone, x) > 0
    &&& roots.contains_key(x)
}

/// A step to the next enclosing enum, up to one with a pool.
pub open spec fn pool_step(roots: Links, pools: Links) -> Step {
    |x: Seq<char>|
        if pools.contains_key(x) {
            None
        } else {
            link(roots, x)
        }
}

/// The nearest enclosing enum with a pool.
pub open spec fn nearest_pooled(roots: Links, pools: Links, x: Seq<char>) -> Option<Seq<char>> {
    match link(roots, x) {
        Some(r) => {
            let last = chain_end(pool_step(roots, pools), r);
            if pools.contains_key(last) {
                Some(last)
            } else {
                None
            }
        },
        None => None,
    }
}

/// Whether a pool boundary pins an entity: it has a pool, and the nearest
/// enclosing enum with a pool has another.
pub open spec fn pinned(roots: Links, pools: Links, x: Seq<char>) -> bool {
    pools.contains_key(x) && (match nearest_pooled(roots, pools, x) {
        Some(a) => pools[a] != pools[x],
        None => false,
    })
}

/// The middle nodes that give up their own enum.
pub open spec fn demoted_set(
    d: Decisions,
    roots: Links,
    standalone: Counts,
    pools: Links,
) -> Set<Seq<char>> {
    d.dom().filter(
        |x: Seq<char>| middle_node(d, roots, standalone, x) && !pinned(roots, pools, x),
    )
}

/// A step to the enclosing enum of a node that gives up its own.
pub open spec fn demoted_step(roots: Links, demoted: Set<Seq<char>>) -> Step {
    |x: Seq<char>|
        if demoted.contains(x) {
            link(roots, x)
        } else {
            None
        }
}

/// The first enclosing enum that stays; none on a circle.
pub open spec fn stable_root(
    roots: Links,
    demoted: Set<Seq<char>>,
    x: Seq<char>,
) -> Option<Seq<char>> {
    let last = chain_end(demoted_step(roots, demoted), x);
    if demoted.contains(last) {
        None
    } else {
        Some(last)
    }
}

/// The stable root that an entity moves to, if it does: a node that gives up
/// its enum, or a member of such an enum.
pub open spec fn moves_to(
    d: Decisions,
    roots: Links,
    demoted: Set<Seq<char>>,
    x: Seq<char>,
) -> Option<Seq<char>> {
    match d[x] {
        SpecModel::InEnum { enum_name } => if demoted.contains(enum_name) {
            stable_root(roots, demoted, enum_name)
        } else {
            None
        },
        _ => if demoted.contains(x) {
            stable_root(roots, demoted, x)
        } else {
            None
        },
    }
}

/// The classification after flattening.
pub open spec fn flattened(d: Decisions, roots: Links, demoted: Set<Seq<char>>) -> Decisions {
    Map::new(
        |x: Seq<char>| d.contains_key(x),
        |x: Seq<char>|
            match moves_to(d, roots, demoted, x) {
                Some(r) => SpecModel::InEnum { enum_name: r },
                None => d[x],
            },
    )
}

/// The nodes among `keys` that gave up their enum, each with its stable root.
pub open spec fn demotions(
    roots: Links,
    demoted: Set<Seq<char>>,
    keys: Seq<Seq<char>>,
) -> Seq<(Seq<char>, Seq<char>)>
    decreases keys.len(),
{
    if keys.len() == 0 {
        seq![]
    } else {
        let before = demotions(roots, demoted, keys.drop_last());
        let x = keys.last();
        if demoted.contains(x) && stable_root(roots, demoted, x) is Some {
            before.push((x, stable_root(roots, demoted, x)->0))
        } else {
            before
        }
    }
}

fn find_nearest_pooled(x: &str, roots: &Table<String>, pools: &Table<String>) -> (r: Option<String>)
    ensures
        r.deep_view() == nearest_pooled(roots@, pools@, x@),
{
    let start = match roots.get(x) {
        Some(r) => r.clone(),
        None => {
            return None;
        },
    };
    let ghost s0 = start@;
    let ghost rv = roots@;
    let ghost f = pool_step(rv, pools@);
    let size = roots.len();
    let mut current: String = start;
    let mut visited = NameSet::new();
    let ghost mut n: nat = 0;
    loop
        invariant
            rv == roots@,
            f == pool_step(rv, pools@),
            roots@.contains_key(x@),
            s0 == roots@[x@],
            rv.dom().finite(),
            size == rv.dom().len(),
            current@ == chain_at(f, s0, n),
            chain_so_far(f, s0, n, visited@),
            visited@.subset_of(rv.dom()),
        decreases size - visited@.len(),
    {
        let ghost before = visited@;
        proof {
            vstd::set_lib::lemma_len_subset(visited@, rv.dom());
        }
        if pools.contains_key(current.as_str()) {
            proof {
                lemma_chain_done(f, s0, n, before);
            }
            return Some(current);
        }
        if !visited.insert(current.clone()) {
            proof {
                lemma_chain_done(f, s0, n, before);
            }
            return None;
        }
        let next: Option<String> = match roots.get(current.as_str()) {
            Some(r) => Some(r.clone()),
            None => None,
        };
        match next {
            Some(r) => {
                proof {
                    lemma_chain_step(f, s0, n, before);
                    n = n + 1;
                    vstd::set_lib::lemma_len_subset(visited@, rv.dom());
                }
                current = r;
            },
            None => {
                proof {
                    lemma_chain_done(f, s0, n, before);
                }
                return None;
            },
        }
    }
}

fn find_stable_root(x: &str, roots: &Table<String>, demoted: &NameSet) -> (r: Option<String>)
    ensures
        r.deep_view() == stable_root(roots@, demoted@, x@),
{
    let ghost rv = roots@;
    let ghost f = demoted_step(rv, demoted@);
    let size = roots.len();
    let mut current: String = x.to_owned();
    let mut visited = NameSet::new();
    let ghost mut n: nat = 0;
    loop
        invariant
            rv == roots@,
            f == demoted_step(rv, demoted@),
            rv.dom().finite(),
            size == rv.dom().len(),
            current@ == chain_at(f, x@, n),
            chain_so_far(f, x@, n, visited@),
            visited@.subset_of(rv.dom()),
        decreases size - visited@.len(),
    {
        let ghost before = visited@;
        proof {
            vstd::set_lib::lemma_len_subset(visited@, rv.dom());
        }
        if !demoted.contains(current.as_str()) {
            proof {
                lemma_chain_done(f, x@, n, before);
            }
            return Some(current);
        }
        if !visited.insert(current.clone()) {
            proof {
                lemma_chain_done(f, x@, n, before);
            }
            return None;
        }
        let next: Option<String> = match roots.get(current.as_str()) {
            Some(r) => Some(r.clone()),
            None => None,
        };
        match next {
            Some(r) => {
                proof {
                    lemma_chain_step(f, x@, n, before);
                    n = n + 1;
                    vstd::set_lib::lemma_len_subset(visited@, rv.dom());
                }
                current = r;
            },
            None => {
                proof {
                    lemma_chain_done(f, x@, n, before);
                }
                return None;
            },
        }
    }
}

/// Tells whether a pool boundary pins an entity.
pub fn is_pinned(x: &str, roots: &Table<String>, pools: &Table<String>) -> (r: bool)
    ensures
        r == pinned(roots@, pools@, x@),
{
    let own = match pools.get(x) {
        Some(p) => p,
        None => {
            return false;
        },
    };
    match find_nearest_pooled(x, roots, pools) {
        Some(a) => match pools.get(a.as_str()) {
            Some(p) => !same(p.as_str(), own.as_str()),
            None => true,
        },
        None => false,
    }
}

fn find_demoted(
    d: &Table<VariantSpec>,
    roots: &Table<String>,
    standalone: &Table<usize>,
    pools: &Table<String>,
) -> (r: NameSet)
    ensures
        r@ == demoted_set(d@, roots@, standalone@, pools@),
{
    let n = d.len();
    let ghost o = ordered(d@.dom());
    let ghost want = demoted_set(d@, roots@, standalone@, pools@);
    let mut out = NameSet::new();
    let mut i: usize = 0;
    proof {
        lemma_ordered(d@.dom());
        assert(want.intersect(o.take(0).to_set()) =~= Set::empty());
    }
    while i < n
        invariant
            i <= n,
            n == o.len(),
            o == ordered(d@.dom()),
            want == demoted_set(d@, roots@, standalone@, pools@),
            out@ == want.intersect(o.take(i as int).to_set()),
        decreases n - i,
    {
        let x = d.key_at(i);
        let ghost before = o.take(i as int);
        proof {
            assert(o.take(i + 1) =~= before.push(x@));
            before.lemma_push_to_set_commute(x@);
        }
        let own_enum = match d.value_at(i) {
            VariantSpec::EnumBase { .. } => true,
            VariantSpec::ConcreteSupertype => true,
            _ => false,
        };
        if own_enum && lookup(standalone, x.as_str()) > 0 && roots.contains_key(x.as_str())
            && !is_pinned(x.as_str(), roots, pools) {
            out.insert(x.clone());
        }
        assert(out@ =~= want.intersect(o.take(i + 1).to_set()));
        i += 1;
    }
    proof {
        assert(o.take(i as int) =~= o);
        assert(out@ =~= want);
    }
    out
}

/// Flattens middle nodes: those that a file uses on their own join the enum
/// around them, and so do their members, unless a pool boundary lies between.
/// Returns the nodes that moved, each with where it moved to.
pub fn flatten_middle_nodes(
    variants: &mut Table<VariantSpec>,
    enum_roots: &Table<String>,
    standalone: &Table<usize>,
    pools: &Table<String>,
) -> (r: Vec<(String, String)>)
    ensures
        final(variants)@ == flattened(
            old(variants)@,
            enum_roots@,
            demoted_set(old(variants)@, enum_roots@, standalone@, pools@),
        ),
        r.deep_view() == demotions(
            enum_roots@,
            demoted_set(old(variants)@, enum_roots@, standalone@, pools@),
            ordered(old(variants)@.dom()),
        ),
{
    let ghost d = variants@;
    let demoted = find_demoted(variants, enum_roots, standalone, pools);
    let n = variants.len();
    let ghost o = ordered(d.dom());
    let ghost g = |x: Seq<char>|
        Some(
            match moves_to(d, enum_roots@, demoted@, x) {
                Some(r) => SpecModel::InEnum { enum_name: r },
                None => d[x],
            },
        );
    let mut out: Table<VariantSpec> = Table::new();
    let mut moved: Vec<(String, String)> = Vec::new();
    let mut i: usize = 0;
    proof {
        lemma_ordered(d.dom());
        lemma_tabulate_ends(o, g);
        assert(moved.deep_view() =~= seq![]);
        assert(o.take(0) =~= seq![]);
    }
    while i < n
        invariant
            i <= n,
            n == o.len(),
            d == variants@,
            o == ordered(d.dom()),
            forall|j: int| 0 <= j < o.len() ==> d.contains_key(#[trigger] o[j]),
            demoted@ == demoted_set(d, enum_roots@, standalone@, pools@),
            g == (|x: Seq<char>|
                Some(
                    match moves_to(d, enum_roots@, demoted@, x) {
                        Some(r) => SpecModel::InEnum { enum_name: r },
                        None => d[x],
                    },
                )),
            out@ == tabulate(o.take(i as int), g),
            moved.deep_view() == demotions(enum_roots@, demoted@, o.take(i as int)),
        decreases n - i,
    {
        proof {
            lemma_tabulate_next(o, i as int, g);
            assert(o.take(i + 1).drop_last() =~= o.take(i as int));
            assert(d.contains_key(o[i as int]));
        }
        let x = variants.key_at(i);
        let spec = variants.value_at(i);
        let target: Option<String> = match spec {
            VariantSpec::InEnum { enum_name } => if demoted.contains(enum_name.as_str()) {
                find_stable_root(enum_name.as_str(), enum_roots, &demoted)
            } else {
                None
            },
            _ => if demoted.contains(x.as_str()) {
                find_stable_root(x.as_str(), enum_roots, &demoted)
            } else {
                None
            },
        };
        if demoted.contains(x.as_str()) {
            if let Some(r) = find_stable_root(x.as_str(), enum_roots, &demoted) {
                push_item(&mut moved, (x.clone(), r));
            }
        }
        match target {
            Some(r) => {
                out.insert(x.clone(), VariantSpec::InEnum { enum_name: r });
            },
            None => {
                out.insert(x.clone(), spec.duplicate());
            },
        }
        i += 1;
    }
    proof {
        lemma_tabulate_ends(o, g);
        assert(out@ =~= flattened(d, enum_roots@, demoted@));
    }
    *variants = out;
    moved
}

/// After flattening no member names an enum that was given up, except where
/// the enclosing enums run in a circle.
pub proof fn law_flattened_members_point_at_stable_enums(
    d: Decisions,
    roots: Links,
    standalone: Counts,
    pools: Links,
    x: Seq<char>,
    host: Seq<char>,
)
    requires
        member_of(
            flattened(d, roots, demoted_set(d, roots, standalone, pools)),
            x,
            host,
        ),
        demoted_set(d, roots, standalone, pools).contains(host),
    ensures
        stable_root(roots, demoted_set(d, roots, standalone, pools), host) is None,
{
}

proof fn lemma_shrink_all_keeps_member(
    st: Pruning,
    kept: Set<Seq<char>>,
    snapshot: Decisions,
    keys: Seq<Seq<char>>,
    x: Seq<char>,
    host: Seq<char>,
)
    requires
        st.left.dom().finite(),
        snapshot == st.left,
        forall|i: int| 0 <= i < keys.len() ==> st.left.contains_key(#[trigger] keys[i]),
        kept.contains(host) || !(st.left.contains_key(host) && st.left[host] is EnumBase),
        member_of(st.left, x, host),
    ensures
        member_of(shrink_all(st, kept, snapshot, keys).left, x, host),
    decreases keys.len(),
{
    if keys.len() > 0 {
        let firsts = keys.drop_last();
        assert forall|i: int| 0 <= i < firsts.len() implies st.left.contains_key(
            #[trigger] firsts[i],
        ) by {
            assert(st.left.contains_key(keys[i]));
        }
        lemma_shrink_all_keeps_member(st, kept, snapshot, firsts, x, host);
        lemma_shrink_all(st, kept, snapshot, firsts);
        let mid = shrink_all(st, kept, snapshot, firsts);
        let members = live_members(mid, keys.last());
        lemma_ordered(members);
        if members.len() == 1 {
            assert(members.contains(ordered(members)[0]));
        }
        assert(st.left.contains_key(keys[keys.len() - 1]));
    }
}

proof fn lemma_rounds_keep_member(
    kept: Set<Seq<char>>,
    start: Pruning,
    n: nat,
    x: Seq<char>,
    host: Seq<char>,
)
    requires
        start.left.dom().finite(),
        kept.contains(host) || !(start.left.contains_key(host) && start.left[host] is EnumBase),
        member_of(start.left, x, host),
    ensures
        ({
            let st = rounds(prune_round(kept), start, n);
            st.left.contains_key(x) ==> member_of(st.left, x, host)
        }),
    decreases n,
{
    if n > 0 {
        lemma_rounds_keep_member(kept, start, (n - 1) as nat, x, host);
        lemma_rounds_shrink(kept, start, (n - 1) as nat);
        lemma_rounds_shrink(kept, start, n);
        let st = rounds(prune_round(kept), start, (n - 1) as nat);
        let keys = ordered(st.left.dom());
        lemma_ordered(st.left.dom());
        lemma_shrink_all(st, kept, st.left, keys);
        let shrunk = shrink_all(st, kept, st.left, keys);
        lemma_cascade_all(shrunk, kept, keys);
        if st.left.contains_key(x) {
            lemma_shrink_all_keeps_member(st, kept, st.left, keys, x, host);
        }
    }
}

/// A used member of an enum is that enum's member for as long as it is there, and
/// it is there for as long as its enum is one.
pub proof fn law_used_members_stay(
    d: Decisions,
    counts: Counts,
    standalone: Counts,
    keep: Set<Seq<char>>,
    x: Seq<char>,
    host: Seq<char>,
)
    requires
        d.dom().finite(),
        d.contains_key(x),
        d[x] == (SpecModel::InEnum { enum_name: host }),
        count_of(counts, x) > 0,
    ensures
        pruned(d, counts, standalone, keep).contains_key(x) ==> pruned(
            d,
            counts,
            standalone,
            keep,
        )[x] == (SpecModel::InEnum { enum_name: host }),
        d.contains_key(host) && (d[host] is EnumBase || d[host] is ConcreteSupertype) ==> pruned(
            d,
            counts,
            standalone,
            keep,
        ).contains_key(x) && pruned(d, counts, standalone, keep).contains_key(host),
{
    let kept = kept_set(d, counts, keep);
    let start = prune_start(d, counts, standalone, keep);
    let f = prune_round(kept);
    assert(start.left.dom() =~= d.dom());
    let m = lemma_prune_settles(kept, start, 0);
    lemma_settled(f, start, m);
    assert(member_of(d, x, host));
    assert(member_of(start.left, x, host));
    assert(has_used_member(d, counts, host));
    lemma_rounds_keep_member(kept, start, m, x, host);
    if d.contains_key(host) && (d[host] is EnumBase || d[host] is ConcreteSupertype) {
        assert(auto_kept(d, counts).contains(host));
        assert(holds_member(start, kept, host, x));
        lemma_rounds_hold_member(kept, start, m, host, x);
    }
}

/// Pruning makes no member of an enum that was none before.
pub proof fn law_pruning_adds_no_members(
    d: Decisions,
    counts: Counts,
    standalone: Counts,
    keep: Set<Seq<char>>,
    x: Seq<char>,
    host: Seq<char>,
)
    requires
        d.dom().finite(),
        pruned(d, counts, standalone, keep).contains_key(x),
        pruned(d, counts, standalone, keep)[x] == (SpecModel::InEnum { enum_name: host }),
    ensures
        d.contains_key(x),
        d[x] == (SpecModel::InEnum { enum_name: host }),
{
    let st = lemma_pruned_state(d, counts, standalone, keep);
    assert(prune_start(d, counts, standalone, keep).left.contains_key(x));
}

proof fn lemma_reported(
    roots: Links,
    demoted: Set<Seq<char>>,
    keys: Seq<Seq<char>>,
    k: int,
)
    requires
        0 <= k < demotions(roots, demoted, keys).len(),
    ensures
        ({
            let (e, r) = demotions(roots, demoted, keys)[k];
            demoted.contains(e) && stable_root(roots, demoted, e) == Some(r) && !demoted.contains(
                r,
            )
        }),
    decreases keys.len(),
{
    if keys.len() > 0 {
        if k < demotions(roots, demoted, keys.drop_last()).len() {
            lemma_reported(roots, demoted, keys.drop_last(), k);
        }
    }
}

proof fn lemma_standalone_is_used(usage: Map<Seq<char>, UsageModel>, x: Seq<char>)
    requires
        count_of(standalone_counts(usage), x) > 0,
    ensures
        count_of(total_counts(usage), x) > 0,
{
}

/// What the stage reports as flattened is so in its result: an entity that it
/// moved into an enum is a member of that enum wherever it is left, and no entity
/// is left as a member of the one that was moved.
pub proof fn law_reported_are_flattened(
    d: Decisions,
    usage: Map<Seq<char>, UsageModel>,
    keep: Set<Seq<char>>,
    roots: Links,
    pools: Links,
    k: int,
)
    requires
        d.dom().finite(),
        0 <= k < demotions(
            roots,
            demoted_set(d, roots, standalone_counts(usage), pools),
            ordered(d.dom()),
        ).len(),
    ensures
        ({
            let (e, r) = demotions(
                roots,
                demoted_set(d, roots, standalone_counts(usage), pools),
                ordered(d.dom()),
            )[k];
            let result = pruned(
                flattened_by_use(d, usage, roots, pools),
                total_counts(usage),
                standalone_counts(usage),
                keep,
            );
            &&& e != r
            &&& d.contains_key(e)
            &&& d[e] is EnumBase || d[e] is ConcreteSupertype
            &&& result.contains_key(e) ==> result[e] == (SpecModel::InEnum { enum_name: r })
            &&& forall|x: Seq<char>| #[trigger]
                result.contains_key(x) ==> result[x] != (SpecModel::InEnum { enum_name: e })
        }),
{
    let standalone = standalone_counts(usage);
    let counts = total_counts(usage);
    let demoted = demoted_set(d, roots, standalone, pools);
    let (e, r) = demotions(roots, demoted, ordered(d.dom()))[k];
    lemma_reported(roots, demoted, ordered(d.dom()), k);
    let flat = flattened_by_use(d, usage, roots, pools);
    assert(flat.dom() =~= d.dom());
    lemma_standalone_is_used(usage, e);
    law_used_members_stay(flat, counts, standalone, keep, e, r);
    let result = pruned(flat, counts, standalone, keep);
    assert forall|x: Seq<char>| #[trigger] result.contains_key(x) implies result[x] != (
    SpecModel::InEnum { enum_name: e }) by {
        if result[x] == (SpecModel::InEnum { enum_name: e }) {
            law_pruning_adds_no_members(flat, counts, standalone, keep, x, e);
            assert(member_of(flat, x, e));
            law_flattened_members_point_at_stable_enums(d, roots, standalone, pools, x, e);
        }
    }
}

// ---------------------------------------------------------------------
// Groups and overrides after pruning
// ---------------------------------------------------------------------

/// The group that an entity establishes or belongs to.
pub open spec fn group_name(d: Decisions, x: Seq<char>) -> Option<Seq<char>> {
    match d[x] {
        SpecModel::SingleStruct => Some(x),
        SpecModel::InEnum { enum_name } => Some(enum_name),
        SpecModel::EnumBase { enum_name } => Some(enum_name),
        SpecModel::ConcreteSupertype => Some(x),
        SpecModel::ComplexSupertype { mixin_pattern, oneof_children, mixin } => Some(x),
        SpecModel::CompositeOneOf { simple_alternatives, composite_alternatives } => Some(x),
        SpecModel::NestedField { into, as_field, added_attr_count } => None,
        SpecModel::MergedInto { target, chain } => None,
    }
}

/// The groups of the entities `keys`.
pub open spec fn group_names(d: Decisions, keys: Seq<Seq<char>>) -> Set<Seq<char>>
    decreases keys.len(),
{
    if keys.len() == 0 {
        Set::empty()
    } else {
        match group_name(d, keys.last()) {
            Some(g) => group_names(d, keys.drop_last()).insert(g),
            None => group_names(d, keys.drop_last()),
        }
    }
}

pub fn compute_pruned_group_names(pruned: &Table<VariantSpec>) -> (r: NameSet)
    ensures
        r@ == group_names(pruned@, ordered(pruned@.dom())),
{
    let n = pruned.len();
    let ghost o = ordered(pruned@.dom());
    let mut out = NameSet::new();
    let mut i: usize = 0;
    assert(o.take(0) =~= seq![]);
    while i < n
        invariant
            i <= n,
            n == o.len(),
            o == ordered(pruned@.dom()),
            out@ == group_names(pruned@, o.take(i as int)),
        decreases n - i,
    {
        assert(o.take(i + 1).drop_last() =~= o.take(i as int));
        let x = pruned.key_at(i);
        let g: Option<&String> = match pruned.value_at(i) {
            VariantSpec::SingleStruct => Some(x),
            VariantSpec::InEnum { enum_name } => Some(enum_name),
            VariantSpec::EnumBase { enum_name } => Some(enum_name),
            VariantSpec::ConcreteSupertype => Some(x),
            VariantSpec::ComplexSupertype { .. } => Some(x),
            VariantSpec::CompositeOneOf { .. } => Some(x),
            VariantSpec::NestedField { .. } => None,
            VariantSpec::MergedInto { .. } => None,
        };
        if let Some(g) = g {
            out.insert(g.clone());
        }
        i += 1;
    }
    assert(o.take(i as int) =~= o);
    out
}

proof fn lemma_group_names(d: Decisions, keys: Seq<Seq<char>>)
    ensures
        group_names(d, keys) == crate::infer::arena::groups_among(d, keys).dom(),
    decreases keys.len(),
{
    if keys.len() > 0 {
        lemma_group_names(d, keys.drop_last());
    }
    assert(group_names(d, keys) =~= crate::infer::arena::groups_among(d, keys).dom());
}

/// These are the names of the groups that the arenas are computed from.
pub proof fn law_group_names_agree(d: Decisions)
    ensures
        group_names(d, ordered(d.dom())) == crate::infer::arena::groups_of(d).dom(),
{
    lemma_group_names(d, ordered(d.dom()));
}

/// The entries of `m` at the names in `valid`.
pub open spec fn valid_entry(m: Links, valid: Set<Seq<char>>) -> spec_fn(Seq<char>) -> Option<
    Seq<char>,
> {
    |x: Seq<char>|
        if valid.contains(x) {
            Some(m[x])
        } else {
            None
        }
}

proof fn lemma_valid_entries(m: Links, valid: Set<Seq<char>>)
    requires
        m.dom().finite(),
    ensures
        tabulate(ordered(m.dom()), valid_entry(m, valid)) == m.restrict(valid),
{
    let o = ordered(m.dom());
    let t = tabulate(o, valid_entry(m, valid));
    lemma_ordered(m.dom());
    assert forall|x: Seq<char>| #[trigger] t.contains_key(x) <==> m.restrict(valid).contains_key(
        x,
    ) by {
        assert(o.contains(x) <==> m.dom().contains(x));
    }
    assert(t =~= m.restrict(valid));
}

/// Keeps the overrides whose group still exists; also tells which do not.
pub fn filter_stale_overrides(overrides: &OverrideFile<ArenaSpec>, valid_groups: &NameSet) -> (r: (
    OverrideFile<ArenaSpec>,
    Vec<String>,
))
    ensures
        r.0.group@ == overrides.group@.restrict(valid_groups@),
        r.0.entity@ == Map::<Seq<char>, Seq<char>>::empty(),
        r.0.arena@ == Map::<Seq<char>, Seq<char>>::empty(),
        r.1.deep_view() == crate::infer::hierarchy::unseen(
            ordered(overrides.group@.dom()),
            valid_groups@,
        ),
{
    let n = overrides.group.len();
    let ghost m = overrides.group@;
    let ghost o = ordered(m.dom());
    let ghost g = valid_entry(m, valid_groups@);
    let mut filtered: OverrideFile<ArenaSpec> = OverrideFile::default();
    let mut dropped: Vec<String> = Vec::new();
    let mut i: usize = 0;
    proof {
        lemma_ordered(m.dom());
        lemma_tabulate_ends(o, g);
        assert(o.take(0) =~= seq![]);
        assert(dropped.deep_view() =~= seq![]);
    }
    while i < n
        invariant
            i <= n,
            n == o.len(),
            m == overrides.group@,
            m.dom().finite(),
            o == ordered(m.dom()),
            g == valid_entry(m, valid_groups@),
            filtered.group@ == tabulate(o.take(i as int), g),
            filtered.entity@ == Map::<Seq<char>, Seq<char>>::empty(),
            filtered.arena@ == Map::<Seq<char>, Seq<char>>::empty(),
            dropped.deep_view() == crate::infer::hierarchy::unseen(
                o.take(i as int),
                valid_groups@,
            ),
        decreases n - i,
    {
        proof {
            lemma_tabulate_next(o, i as int, g);
            assert(o.take(i + 1).drop_last() =~= o.take(i as int));
        }
        let x = overrides.group.key_at(i);
        if valid_groups.contains(x.as_str()) {
            filtered.group.insert(x.clone(), overrides.group.value_at(i).duplicate());
        } else {
            push_item(&mut dropped, x.clone());
        }
        i += 1;
    }
    proof {
        lemma_tabulate_ends(o, g);
        lemma_valid_entries(m, valid_groups@);
    }
    (filtered, dropped)
}

// ---------------------------------------------------------------------
// Use
// ---------------------------------------------------------------------

/// How an entity occurs in the corpus.
#[derive(Debug, PartialEq, Eq)]
pub struct UsageRecord {
    /// All occurrences.
    pub instance_count: usize,
    /// Occurrences as a part of a complex instance.
    pub complex_part_count: usize,
    /// The entities that occur in a complex instance with this one.
    pub co_instantiated_with: Vec<String>,
}

/// What a `UsageRecord` stands for.
pub struct UsageModel {
    pub instance_count: usize,
    pub complex_part_count: usize,
    pub co_instantiated_with: Seq<Seq<char>>,
}

impl DeepView for UsageRecord {
    type V = UsageModel;

    open spec fn deep_view(&self) -> UsageModel {
        UsageModel {
            instance_count: self.instance_count,
            complex_part_count: self.complex_part_count,
            co_instantiated_with: self.co_instantiated_with.deep_view(),
        }
    }
}

impl Duplicate for UsageRecord {
    fn duplicate(&self) -> Self {
        UsageRecord {
            instance_count: self.instance_count,
            complex_part_count: self.complex_part_count,
            co_instantiated_with: self.co_instantiated_with.duplicate(),
        }
    }
}

impl Clone for UsageRecord {
    fn clone(&self) -> (r: Self)
        ensures
            r.deep_view() == self.deep_view(),
    {
        self.duplicate()
    }
}

/// The use of an entity: what the corpus says of it, with only those companions
/// that are entities, in order; nothing where the corpus does not know it.
pub open spec fn usage_of(
    known: Set<Seq<char>>,
    summary: Map<Seq<char>, UsageModel>,
    x: Seq<char>,
) -> UsageModel {
    if summary.contains_key(x) {
        UsageModel {
            instance_count: summary[x].instance_count,
            complex_part_count: summary[x].complex_part_count,
            co_instantiated_with: ordered(
                summary[x].co_instantiated_with.to_set().intersect(known),
            ),
        }
    } else {
        UsageModel { instance_count: 0, complex_part_count: 0, co_instantiated_with: seq![] }
    }
}

/// The use of every entity.
pub open spec fn usage_table(
    known: Set<Seq<char>>,
    summary: Map<Seq<char>, UsageModel>,
) -> Map<Seq<char>, UsageModel> {
    Map::new(|x: Seq<char>| known.contains(x), |x: Seq<char>| usage_of(known, summary, x))
}

fn known_companions(list: &Vec<String>, known: &Table<VariantSpec>) -> (r: Vec<String>)
    ensures
        r.deep_view() == ordered(list.deep_view().to_set().intersect(known@.dom())),
{
    let ghost all = list.deep_view();
    let mut out = NameSet::new();
    let mut i: usize = 0;
    assert(all.take(0).to_set().intersect(known@.dom()) =~= Set::empty());
    while i < list.len()
        invariant
            i <= list@.len(),
            all == list.deep_view(),
            all.len() == list@.len(),
            out@ == all.take(i as int).to_set().intersect(known@.dom()),
        decreases list@.len() - i,
    {
        proof {
            assert(all.take(i + 1) =~= all.take(i as int).push(all[i as int]));
            all.take(i as int).lemma_push_to_set_commute(all[i as int]);
        }
        if known.contains_key(list[i].as_str()) {
            out.insert(list[i].clone());
        }
        assert(out@ =~= all.take(i + 1).to_set().intersect(known@.dom()));
        i += 1;
    }
    assert(all.take(i as int) =~= all);
    out.names()
}

/// Records the use of every entity from the corpus summary.
pub fn record_usage(variants: &Table<VariantSpec>, summary: &Table<UsageRecord>) -> (r: Table<
    UsageRecord,
>)
    ensures
        r@ == usage_table(variants@.dom(), summary@),
{
    let n = variants.len();
    let ghost known = variants@.dom();
    let ghost o = ordered(known);
    let ghost g = |x: Seq<char>| Some(usage_of(known, summary@, x));
    let mut out: Table<UsageRecord> = Table::new();
    let mut i: usize = 0;
    proof {
        lemma_ordered(known);
        lemma_tabulate_ends(o, g);
    }
    while i < n
        invariant
            i <= n,
            n == o.len(),
            known == variants@.dom(),
            o == ordered(known),
            g == (|x: Seq<char>| Some(usage_of(known, summary@, x))),
            out@ == tabulate(o.take(i as int), g),
        decreases n - i,
    {
        proof {
            lemma_tabulate_next(o, i as int, g);
        }
        let x = variants.key_at(i);
        let rec = match summary.get(x.as_str()) {
            Some(s) => UsageRecord {
                instance_count: s.instance_count,
                complex_part_count: s.complex_part_count,
                co_instantiated_with: known_companions(&s.co_instantiated_with, variants),
            },
            None => {
                let none: Vec<String> = Vec::new();
                assert(none.deep_view() =~= seq![]);
                UsageRecord {
                    instance_count: 0,
                    complex_part_count: 0,
                    co_instantiated_with: none,
                }
            },
        };
        out.insert(x.clone(), rec);
        i += 1;
    }
    proof {
        lemma_tabulate_ends(o, g);
        assert(out@ =~= usage_table(known, summary@));
    }
    out
}

/// The counts of the entities that occur at all.
pub open spec fn total_counts(usage: Map<Seq<char>, UsageModel>) -> Counts {
    tabulate(
        ordered(usage.dom()),
        |x: Seq<char>|
            if usage[x].instance_count > 0 {
                Some(usage[x].instance_count)
            } else {
                None
            },
    )
}

/// Occurrences that are not parts of complex instances.
pub open spec fn outside_complex(u: UsageModel) -> usize {
    if u.instance_count >= u.complex_part_count {
        (u.instance_count - u.complex_part_count) as usize
    } else {
        0
    }
}

/// The counts of occurrences that stand alone.
pub open spec fn standalone_counts(usage: Map<Seq<char>, UsageModel>) -> Counts {
    tabulate(
        ordered(usage.dom()),
        |x: Seq<char>|
            if usage[x].instance_count > 0 {
                Some(outside_complex(usage[x]))
            } else {
                None
            },
    )
}

/// Counts all occurrences, and those that stand alone.
pub fn count_usage(usage: &Table<UsageRecord>) -> (r: (Table<usize>, Table<usize>))
    ensures
        r.0@ == total_counts(usage@),
        r.1@ == standalone_counts(usage@),
{
    let n = usage.len();
    let ghost o = ordered(usage@.dom());
    let ghost g = |x: Seq<char>|
        if usage@[x].instance_count > 0 {
            Some(usage@[x].instance_count)
        } else {
            None
        };
    let ghost h = |x: Seq<char>|
        if usage@[x].instance_count > 0 {
            Some(outside_complex(usage@[x]))
        } else {
            None
        };
    let mut total: Table<usize> = Table::new();
    let mut alone: Table<usize> = Table::new();
    let mut i: usize = 0;
    proof {
        lemma_tabulate_ends(o, g);
        lemma_tabulate_ends(o, h);
    }
    while i < n
        invariant
            i <= n,
            n == o.len(),
            o == ordered(usage@.dom()),
            g == (|x: Seq<char>|
                if usage@[x].instance_count > 0 {
                    Some(usage@[x].instance_count)
                } else {
                    None
                }),
            h == (|x: Seq<char>|
                if usage@[x].instance_count > 0 {
                    Some(outside_complex(usage@[x]))
                } else {
                    None
                }),
            total@ == tabulate(o.take(i as int), g),
            alone@ == tabulate(o.take(i as int), h),
        decreases n - i,
    {
        proof {
            lemma_tabulate_next(o, i as int, g);
            lemma_tabulate_next(o, i as int, h);
        }
        let x = usage.key_at(i);
        let u = usage.value_at(i);
        if u.instance_count > 0 {
            total.insert(x.clone(), u.instance_count);
            let rest: usize = if u.instance_count >= u.complex_part_count {
                u.instance_count - u.complex_part_count
            } else {
                0
            };
            alone.insert(x.clone(), rest);
        }
        i += 1;
    }
    proof {
        lemma_tabulate_ends(o, g);
    }
    (total, alone)
}

// ---------------------------------------------------------------------
// The stage
// ---------------------------------------------------------------------

/// What the stage hands on.
pub struct PruneResult {
    /// The use of every entity.
    pub usage: Table<UsageRecord>,
    /// The middle nodes that moved, each with where it moved to.
    pub flattened: Vec<(String, String)>,
    /// Entries to keep that name no entity.
    pub unknown_keeps: Vec<String>,
    /// The pruned classification.
    pub variants: Table<VariantSpec>,
    /// Arena overrides whose group is gone.
    pub dropped_overrides: Vec<String>,
    /// The arenas of the pruned classification.
    pub arenas: Table<ArenaSpec>,
}

/// The classification after flattening, from the use of the entities.
pub open spec fn flattened_by_use(
    d: Decisions,
    usage: Map<Seq<char>, UsageModel>,
    roots: Links,
    pools: Links,
) -> Decisions {
    flattened(d, roots, demoted_set(d, roots, standalone_counts(usage), pools))
}

/// Whether a summary has the entity in some file.
pub open spec fn occurs(summary: Map<Seq<char>, UsageModel>, x: Seq<char>) -> bool {
    summary.contains_key(x) && summary[x].instance_count > 0
}

/// Whether a summary has the entity outside complex instances.
pub open spec fn occurs_alone(summary: Map<Seq<char>, UsageModel>, x: Seq<char>) -> bool {
    summary.contains_key(x) && summary[x].instance_count > summary[x].complex_part_count
}

/// The two counts of an entity tell how it occurs.
pub proof fn law_counts_tell_use(
    known: Set<Seq<char>>,
    summary: Map<Seq<char>, UsageModel>,
    x: Seq<char>,
)
    requires
        known.finite(),
    ensures
        ({
            let usage = usage_table(known, summary);
            &&& known.contains(x) && summary.contains_key(x) ==> count_of(total_counts(usage), x)
                == summary[x].instance_count
            &&& known.contains(x) && occurs_alone(summary, x) ==> count_of(
                standalone_counts(usage),
                x,
            ) == summary[x].instance_count - summary[x].complex_part_count
            &&& count_of(total_counts(usage), x) > 0 <==> known.contains(x) && occurs(summary, x)
            &&& count_of(standalone_counts(usage), x) > 0 <==> known.contains(x) && occurs_alone(
                summary,
                x,
            )
        }),
{
    let usage = usage_table(known, summary);
    assert(usage.dom() =~= known);
    lemma_ordered(usage.dom());
    assert(ordered(usage.dom()).contains(x) == known.contains(x));
}

/// What the record of use says of every entity of the classification, and of no
/// other: the counts of the summary, or none, and those of its companions that
/// are entities, in order.
pub proof fn law_usage_is_the_summary(
    known: Set<Seq<char>>,
    summary: Map<Seq<char>, UsageModel>,
    x: Seq<char>,
    y: Seq<char>,
)
    requires
        known.finite(),
    ensures
        ({
            let usage = usage_table(known, summary);
            &&& usage.contains_key(x) <==> known.contains(x)
            &&& known.contains(x) && summary.contains_key(x) ==> {
                &&& usage[x].instance_count == summary[x].instance_count
                &&& usage[x].complex_part_count == summary[x].complex_part_count
                &&& crate::names::sorted(usage[x].co_instantiated_with)
                &&& usage[x].co_instantiated_with.contains(y) <==> known.contains(y)
                    && summary[x].co_instantiated_with.contains(y)
            }
            &&& known.contains(x) && !summary.contains_key(x) ==> {
                &&& usage[x].instance_count == 0
                &&& usage[x].complex_part_count == 0
                &&& usage[x].co_instantiated_with.len() == 0
            }
        }),
{
    if known.contains(x) && summary.contains_key(x) {
        let shared = summary[x].co_instantiated_with.to_set().intersect(known);
        assert(shared =~= known.filter(|z: Seq<char>| summary[x].co_instantiated_with.contains(z)));
        lemma_ordered(shared);
        assert(ordered(shared).contains(y) == shared.contains(y));
    }
}

proof fn lemma_shrink_all_changes(
    st: Pruning,
    kept: Set<Seq<char>>,
    snapshot: Decisions,
    keys: Seq<Seq<char>>,
    x: Seq<char>,
)
    requires
        st.left.dom().finite(),
        snapshot == st.left,
        forall|i: int| 0 <= i < keys.len() ==> st.left.contains_key(#[trigger] keys[i]),
        st.left.contains_key(x),
        !(st.left[x] is InEnum || st.left[x] is ConcreteSupertype),
    ensures
        shrink_all(st, kept, snapshot, keys).left.contains_key(x),
        shrink_all(st, kept, snapshot, keys).left[x] == st.left[x],
    decreases keys.len(),
{
    if keys.len() > 0 {
        let firsts = keys.drop_last();
        assert forall|i: int| 0 <= i < firsts.len() implies st.left.contains_key(
            #[trigger] firsts[i],
        ) by {
            assert(st.left.contains_key(keys[i]));
        }
        lemma_shrink_all_changes(st, kept, snapshot, firsts, x);
        lemma_shrink_all(st, kept, snapshot, firsts);
        let mid = shrink_all(st, kept, snapshot, firsts);
        let members = live_members(mid, keys.last());
        lemma_ordered(members);
        if members.len() == 1 {
            assert(members.contains(ordered(members)[0]));
        }
    }
}

proof fn lemma_rounds_change(kept: Set<Seq<char>>, start: Pruning, n: nat, x: Seq<char>)
    requires
        start.left.dom().finite(),
        start.left.contains_key(x),
        !(start.left[x] is InEnum || start.left[x] is ConcreteSupertype),
    ensures
        ({
            let st = rounds(prune_round(kept), start, n);
            st.left.contains_key(x) ==> st.left[x] == start.left[x]
        }),
    decreases n,
{
    if n > 0 {
        lemma_rounds_change(kept, start, (n - 1) as nat, x);
        lemma_rounds_shrink(kept, start, (n - 1) as nat);
        let st = rounds(prune_round(kept), start, (n - 1) as nat);
        let keys = ordered(st.left.dom());
        lemma_ordered(st.left.dom());
        lemma_shrink_all(st, kept, st.left, keys);
        lemma_cascade_all(shrink_all(st, kept, st.left, keys), kept, keys);
        if st.left.contains_key(x) {
            lemma_shrink_all_changes(st, kept, st.left, keys, x);
        }
    }
}

/// How pruning can change the kind of what it leaves: an enum, a merged entity
/// or a concrete supertype gets a struct; a member of an enum can only be set
/// free; the rest stays as it is.
pub proof fn law_kinds_after_pruning(
    d: Decisions,
    counts: Counts,
    standalone: Counts,
    keep: Set<Seq<char>>,
    x: Seq<char>,
)
    requires
        d.dom().finite(),
        pruned(d, counts, standalone, keep).contains_key(x),
    ensures
        ({
            let k = pruned(d, counts, standalone, keep)[x];
            &&& d.contains_key(x)
            &&& d[x] is SingleStruct || d[x] is NestedField || d[x] is ComplexSupertype
                || d[x] is CompositeOneOf ==> k == d[x]
            &&& d[x] is EnumBase || d[x] is MergedInto ==> if count_of(standalone, x) > 0 {
                k is SingleStruct || k is ConcreteSupertype
            } else {
                k == d[x]
            }
            &&& d[x] is InEnum || d[x] is ConcreteSupertype ==> k == d[x] || k is SingleStruct
        }),
{
    let kept = kept_set(d, counts, keep);
    let start = prune_start(d, counts, standalone, keep);
    let f = prune_round(kept);
    assert(start.left.dom() =~= d.dom());
    let m = lemma_prune_settles(kept, start, 0);
    lemma_settled(f, start, m);
    let st = lemma_pruned_state(d, counts, standalone, keep);
    assert(start.left.contains_key(x));
    if !(start.left[x] is InEnum || start.left[x] is ConcreteSupertype) {
        lemma_rounds_change(kept, start, m, x);
    }
}

/// What the stage leaves: what was asked to be kept, what occurs, and enums with a
/// member that occurs. What is left of the rest hangs on nothing that is gone.
pub proof fn law_survivors(
    d: Decisions,
    summary: Map<Seq<char>, UsageModel>,
    keep: Set<Seq<char>>,
    x: Seq<char>,
)
    requires
        d.dom().finite(),
    ensures
        ({
            let usage = usage_table(d.dom(), summary);
            let left = pruned(d, total_counts(usage), standalone_counts(usage), keep);
            &&& keep.contains(x) && d.contains_key(x) ==> left.contains_key(x)
            &&& d.contains_key(x) && d[x] is SingleStruct && occurs(summary, x)
                ==> left.contains_key(x) && left[x] is SingleStruct
            &&& d.contains_key(x) && (d[x] is EnumBase || d[x] is MergedInto) && occurs_alone(
                summary,
                x,
            ) ==> left.contains_key(x) && (left[x] is SingleStruct || left[x] is ConcreteSupertype)
            &&& left.contains_key(x) ==> {
                ||| keep.contains(x)
                ||| occurs(summary, x)
                ||| exists|c: Seq<char>| #[trigger]
                    left.contains_key(c) && left[c] == (SpecModel::InEnum { enum_name: x })
                        && occurs(summary, c)
            }
            &&& left.contains_key(x) && !keep.contains(x) ==> {
                &&& left[x] matches SpecModel::InEnum { enum_name } ==> left.contains_key(enum_name)
                &&& left[x] matches SpecModel::MergedInto { target, chain } ==> left.contains_key(
                    target,
                )
                &&& left[x] matches SpecModel::NestedField { into, as_field, added_attr_count }
                    ==> left.contains_key(into)
            }
        }),
{
    let known = d.dom();
    let usage = usage_table(known, summary);
    let counts = total_counts(usage);
    let standalone = standalone_counts(usage);
    let left = pruned(d, counts, standalone, keep);
    let kept = kept_set(d, counts, keep);
    let start = prune_start(d, counts, standalone, keep);
    law_counts_tell_use(known, summary, x);
    let f = prune_round(kept);
    assert(start.left.dom() =~= d.dom());
    let m = lemma_prune_settles(kept, start, 0);
    lemma_settled(f, start, m);
    let st = lemma_pruned_state(d, counts, standalone, keep);
    if keep.contains(x) && d.contains_key(x) {
        law_kept_survives(d, counts, standalone, keep, x);
    }
    if d.contains_key(x) && (d[x] is SingleStruct && occurs(summary, x) || (d[x] is EnumBase
        || d[x] is MergedInto) && occurs_alone(summary, x)) {
        assert(occurs(summary, x));
        assert(stands(start, x));
        lemma_rounds_leave_standing(kept, start, m, x);
        law_kinds_after_pruning(d, counts, standalone, keep, x);
    }
    if left.contains_key(x) {
        law_unused_goes(d, counts, standalone, keep, x);
        if !keep.contains(x) && !occurs(summary, x) {
            assert(auto_kept(d, counts).contains(x));
            let c = choose|c: Seq<char>| #[trigger]
                member_of(d, c, x) && count_of(counts, c) > 0;
            law_counts_tell_use(known, summary, c);
            assert(hosts(d, x));
            assert(count_of(counts, x) == 0);
            assert(holds_member(start, kept, x, c));
            lemma_rounds_hold_member(kept, start, m, x, c);
            assert(left.contains_key(c));
        }
        if !keep.contains(x) {
            if !kept.contains(x) {
                law_nothing_dangles(d, counts, standalone, keep, x);
            } else {
                assert(hosts(d, x));
                assert(start.left.contains_key(x));
            }
        }
    }
}

/// Flattening moves nothing but enums and concrete supertypes that occur alone
/// inside another enum, and the members of these.
pub proof fn law_flattening_moves_no_more(
    d: Decisions,
    known: Set<Seq<char>>,
    summary: Map<Seq<char>, UsageModel>,
    roots: Links,
    pools: Links,
    x: Seq<char>,
)
    requires
        known.finite(),
    ensures
        ({
            let usage = usage_table(known, summary);
            let flat = flattened_by_use(d, usage, roots, pools);
            &&& flat.contains_key(x) <==> d.contains_key(x)
            &&& d.contains_key(x) && flat[x] != d[x] ==> flat[x] is InEnum
            &&& d.contains_key(x) && flat[x] != d[x] && !(d[x] is InEnum) ==> {
                &&& d[x] is EnumBase || d[x] is ConcreteSupertype
                &&& occurs_alone(summary, x)
                &&& roots.contains_key(x)
            }
            &&& d.contains_key(x) && flat[x] != d[x] && d[x] is InEnum ==> {
                let e = d[x]->InEnum_enum_name;
                &&& d.contains_key(e)
                &&& d[e] is EnumBase || d[e] is ConcreteSupertype
                &&& occurs_alone(summary, e)
                &&& roots.contains_key(e)
            }
        }),
{
    law_counts_tell_use(known, summary, x);
    if d.contains_key(x) && d[x] is InEnum {
        law_counts_tell_use(known, summary, d[x]->InEnum_enum_name);
    }
}

/// Where no pools are given, every enum or concrete supertype that occurs alone
/// directly inside an enum that does not becomes a member of that enum, as do its
/// members.
pub proof fn law_middle_nodes_are_flattened(
    d: Decisions,
    known: Set<Seq<char>>,
    summary: Map<Seq<char>, UsageModel>,
    roots: Links,
    e: Seq<char>,
    x: Seq<char>,
)
    requires
        known.finite(),
        known.contains(e),
        d.contains_key(e),
        d[e] is EnumBase || d[e] is ConcreteSupertype,
        occurs_alone(summary, e),
        roots.contains_key(e),
        !occurs_alone(summary, roots[e]),
    ensures
        ({
            let usage = usage_table(known, summary);
            let flat = flattened_by_use(d, usage, roots, Map::empty());
            &&& flat[e] == (SpecModel::InEnum { enum_name: roots[e] })
            &&& d.contains_key(x) && d[x] == (SpecModel::InEnum { enum_name: e }) ==> flat[x] == (
            SpecModel::InEnum { enum_name: roots[e] })
        }),
{
    let usage = usage_table(known, summary);
    let standalone = standalone_counts(usage);
    let demoted = demoted_set(d, roots, standalone, Map::empty());
    law_counts_tell_use(known, summary, e);
    law_counts_tell_use(known, summary, roots[e]);
    let step = demoted_step(roots, demoted);
    assert(demoted.contains(e));
    assert(!demoted.contains(roots[e]));
    reveal_with_fuel(chain_at, 2);
    assert(chain_at(step, e, 0) == e);
    assert(chain_at(step, e, 1) == roots[e]);
    assert(crate::chains::chain_stops(step, e, 1));
    let n = crate::chains::chain_len(step, e);
    crate::chains::law_chain_stops_once(step, e, 1, n);
    assert(stable_root(roots, demoted, e) == Some(roots[e]));
}

/// Runs the stage: refuses an empty classification, records use, flattens,
/// prunes and computes the arenas.
pub fn prune_stage(
    variants: &Table<VariantSpec>,
    summary: &Table<UsageRecord>,
    keep: &NameSet,
    enum_roots: &Table<String>,
    pools: &Table<String>,
    arena_overrides: &OverrideFile<ArenaSpec>,
) -> (r: Result<PruneResult, String>)
    ensures
        match r {
            Err(e) => variants@ == Map::<Seq<char>, SpecModel>::empty() && e@
                == "variants.toml is empty or missing — run `infer variant` first."@,
            Ok(p) => {
                let usage = usage_table(variants@.dom(), summary@);
                let flat = flattened_by_use(variants@, usage, enum_roots@, pools@);
                &&& variants@ != Map::<Seq<char>, SpecModel>::empty()
                &&& p.usage@ == usage
                &&& p.flattened.deep_view() == demotions(
                    enum_roots@,
                    demoted_set(variants@, enum_roots@, standalone_counts(usage), pools@),
                    ordered(variants@.dom()),
                )
                &&& forall|k: int|
                    #![trigger p.flattened.deep_view()[k]]
                    0 <= k < p.flattened.deep_view().len() ==> {
                        let (e, r) = p.flattened.deep_view()[k];
                        &&& e != r
                        &&& variants@.contains_key(e)
                        &&& variants@[e] is EnumBase || variants@[e] is ConcreteSupertype
                        &&& p.variants@.contains_key(e) ==> p.variants@[e] == (
                        SpecModel::InEnum { enum_name: r })
                        &&& forall|x: Seq<char>| #[trigger]
                            p.variants@.contains_key(x) ==> p.variants@[x] != (
                            SpecModel::InEnum { enum_name: e })
                    }
                &&& forall|x: Seq<char>| #[trigger]
                    variants@.contains_key(x) ==> {
                        &&& p.usage@.contains_key(x)
                        &&& summary@.contains_key(x) ==> p.usage@[x].instance_count
                            == summary@[x].instance_count && p.usage@[x].complex_part_count
                            == summary@[x].complex_part_count
                        &&& keep@.contains(x) ==> p.variants@.contains_key(x)
                        &&& variants@[x] is SingleStruct && occurs(summary@, x)
                            ==> p.variants@.contains_key(x) && p.variants@[x] is SingleStruct
                        &&& variants@[x] is MergedInto && occurs_alone(summary@, x)
                            ==> p.variants@.contains_key(x) && (p.variants@[x] is SingleStruct
                            || p.variants@[x] is ConcreteSupertype)
                    }
                &&& forall|x: Seq<char>| #[trigger]
                    p.variants@.contains_key(x) ==> {
                        ||| keep@.contains(x)
                        ||| occurs(summary@, x)
                        ||| exists|c: Seq<char>| #[trigger]
                            p.variants@.contains_key(c) && p.variants@[c] == (
                            SpecModel::InEnum { enum_name: x }) && occurs(summary@, c)
                    }
                &&& p.unknown_keeps.deep_view() == ordered(keep@.difference(variants@.dom()))
                &&& p.variants@ == pruned(
                    flat,
                    total_counts(usage),
                    standalone_counts(usage),
                    keep@,
                )
                &&& p.dropped_overrides.deep_view() == crate::infer::hierarchy::unseen(
                    ordered(arena_overrides.group@.dom()),
                    crate::infer::arena::groups_of(p.variants@).dom(),
                )
                &&& p.arenas@ == crate::infer::arena::arenas_of(
                    p.variants@,
                    arena_overrides.group@.restrict(
                        crate::infer::arena::groups_of(p.variants@).dom(),
                    ),
                )
            },
        },
{
    if variants.is_empty() {
        return Err("variants.toml is empty or missing — run `infer variant` first.".to_owned());
    }
    let usage = record_usage(variants, summary);
    let (total, standalone) = count_usage(&usage);
    let names = NameSet::from_names(&variants.keys());
    let size = variants.len();
    proof {
        lemma_ordered(variants@.dom());
        assert(names@ =~= variants@.dom());
    }
    let unknown_keeps = keep.minus(&names).names();
    let mut working = variants.duplicate();
    let flattened = flatten_middle_nodes(&mut working, enum_roots, &standalone, pools);
    let pruned = prune_transitive_with_keep(&working, &total, &standalone, keep);
    let valid_groups = compute_pruned_group_names(&pruned);
    proof {
        law_group_names_agree(pruned@);
        assert forall|k: int|
            #![trigger flattened.deep_view()[k]]
            0 <= k < flattened.deep_view().len() implies {
            let (e, r) = flattened.deep_view()[k];
            &&& e != r
            &&& variants@.contains_key(e)
            &&& variants@[e] is EnumBase || variants@[e] is ConcreteSupertype
            &&& pruned@.contains_key(e) ==> pruned@[e] == (SpecModel::InEnum { enum_name: r })
            &&& forall|x: Seq<char>| #[trigger]
                pruned@.contains_key(x) ==> pruned@[x] != (SpecModel::InEnum { enum_name: e })
        } by {
            law_reported_are_flattened(variants@, usage@, keep@, enum_roots@, pools@, k);
        }
        let flat = flattened_by_use(variants@, usage@, enum_roots@, pools@);
        assert(flat.dom() =~= variants@.dom());
        assert forall|x: Seq<char>| #[trigger] variants@.contains_key(x) implies {
            &&& keep@.contains(x) ==> pruned@.contains_key(x)
            &&& variants@[x] is SingleStruct && occurs(summary@, x) ==> pruned@.contains_key(x)
                && pruned@[x] is SingleStruct
            &&& variants@[x] is MergedInto && occurs_alone(summary@, x) ==> pruned@.contains_key(x)
                && (pruned@[x] is SingleStruct || pruned@[x] is ConcreteSupertype)
        } by {
            law_survivors(flat, summary@, keep@, x);
        }
        assert forall|x: Seq<char>| #[trigger] pruned@.contains_key(x) implies {
            ||| keep@.contains(x)
            ||| occurs(summary@, x)
            ||| exists|c: Seq<char>| #[trigger]
                pruned@.contains_key(c) && pruned@[c] == (SpecModel::InEnum { enum_name: x })
                    && occurs(summary@, c)
        } by {
            law_survivors(flat, summary@, keep@, x);
        }
    }
    let (filtered, dropped_overrides) = filter_stale_overrides(arena_overrides, &valid_groups);
    match crate::infer::arena::recompute_for_pruned(&pruned, &filtered) {
        Ok(arenas) => Ok(
            PruneResult {
                usage,
                flattened,
                unknown_keeps,
                variants: pruned,
                dropped_overrides,
                arenas,
            },
        ),
        Err(e) => Err(e),
    }
}

// ---------------------------------------------------------------------
// Supertypes that occur
// ---------------------------------------------------------------------

/// A supertype that occurs gets a struct: beside an enum if it has members that occur
/// or are kept, or else alone.
pub proof fn law_supertypes_that_occur(
    d: Decisions,
    counts: Counts,
    standalone: Counts,
    keep: Set<Seq<char>>,
    x: Seq<char>,
)
    requires
        d.dom().finite(),
        d.contains_key(x),
        count_of(counts, x) > 0,
        d[x] is ConcreteSupertype || (d[x] is EnumBase || d[x] is MergedInto) && count_of(
            standalone,
            x,
        ) > 0,
    ensures
        ({
            let left = pruned(d, counts, standalone, keep);
            let members = exists|c: Seq<char>| #[trigger]
                d.contains_key(c) && d[c] == (SpecModel::InEnum { enum_name: x }) && (count_of(
                    counts,
                    c,
                ) > 0 || keep.contains(c));
            &&& left.contains_key(x)
            &&& members ==> left[x] is ConcreteSupertype
            &&& !members ==> left[x] is SingleStruct
        }),
{
    let kept = kept_set(d, counts, keep);
    let start = prune_start(d, counts, standalone, keep);
    let f = prune_round(kept);
    assert(start.left.dom() =~= d.dom());
    let m = lemma_prune_settles(kept, start, 0);
    lemma_settled(f, start, m);
    let st = lemma_pruned_state(d, counts, standalone, keep);
    assert(stands(start, x));
    lemma_rounds_leave_standing(kept, start, m, x);
    let members = exists|c: Seq<char>| #[trigger]
        d.contains_key(c) && d[c] == (SpecModel::InEnum { enum_name: x }) && (count_of(counts, c)
            > 0 || keep.contains(c));
    if members {
        let c = choose|c: Seq<char>| #[trigger]
            d.contains_key(c) && d[c] == (SpecModel::InEnum { enum_name: x }) && (count_of(
                counts,
                c,
            ) > 0 || keep.contains(c));
        assert(member_of(d, c, x));
        assert(has_surviving_member(d, counts, keep, x));
        assert(start.left[x] is ConcreteSupertype);
        assert(holds_member(start, kept, x, c));
        lemma_rounds_hold_member(kept, start, m, x, c);
        if kept.contains(x) {
            lemma_rounds_keep_kind(kept, start, m, x);
        }
    } else {
        if has_surviving_member(d, counts, keep, x) {
            let c = choose|c: Seq<char>|
                #[trigger] member_of(d, c, x) && (count_of(counts, c) > 0 || keep.contains(c));
            assert(d.contains_key(c));
        }
        assert(start.left[x] is SingleStruct);
    }
}

/// A middle node whose pool is not that of the enum around it stays; one in the same
/// pool moves into that enum, if that stays itself.
pub proof fn law_pools_are_not_crossed(
    d: Decisions,
    known: Set<Seq<char>>,
    summary: Map<Seq<char>, UsageModel>,
    roots: Links,
    pools: Links,
    x: Seq<char>,
)
    requires
        known.finite(),
        known.contains(x),
        d.contains_key(x),
        d[x] is EnumBase || d[x] is ConcreteSupertype,
        roots.contains_key(x),
        pools.contains_key(x),
        pools.contains_key(roots[x]),
    ensures
        ({
            let flat = flattened_by_use(d, usage_table(known, summary), roots, pools);
            &&& pools[roots[x]] != pools[x] ==> flat[x] == d[x]
            &&& pools[roots[x]] == pools[x] && occurs_alone(summary, x) && !occurs_alone(
                summary,
                roots[x],
            ) ==> flat[x] == (SpecModel::InEnum { enum_name: roots[x] })
        }),
{
    let usage = usage_table(known, summary);
    let standalone = standalone_counts(usage);
    let demoted = demoted_set(d, roots, standalone, pools);
    let r = roots[x];
    crate::chains::law_chain_ends_where_it_stops(pool_step(roots, pools), r);
    assert(nearest_pooled(roots, pools, x) == Some(r));
    law_counts_tell_use(known, summary, x);
    law_counts_tell_use(known, summary, r);
    if pools[r] == pools[x] && occurs_alone(summary, x) && !occurs_alone(summary, r) {
        let step = demoted_step(roots, demoted);
        assert(demoted.contains(x));
        assert(!demoted.contains(r));
        reveal_with_fuel(chain_at, 2);
        assert(chain_at(step, x, 0) == x);
        assert(chain_at(step, x, 1) == r);
        assert(crate::chains::chain_stops(step, x, 1));
        crate::chains::law_chain_stops_once(step, x, 1, crate::chains::chain_len(step, x));
        assert(stable_root(roots, demoted, x) == Some(r));
    }
}

/// A chain of middle nodes moves as a whole into the first enum above that stays.
pub proof fn law_chains_move_as_a_whole(
    roots: Links,
    demoted: Set<Seq<char>>,
    x: Seq<char>,
    n: nat,
)
    requires
        demoted.contains(x),
        roots.contains_key(x),
        crate::chains::chain_stops(demoted_step(roots, demoted), roots[x], n),
        !demoted.contains(chain_at(demoted_step(roots, demoted), roots[x], n)),
        forall|i: nat|
            i <= n ==> #[trigger] chain_at(demoted_step(roots, demoted), roots[x], i) != x,
    ensures
        stable_root(roots, demoted, x) == stable_root(roots, demoted, roots[x]),
        stable_root(roots, demoted, x) is Some,
{
    let step = demoted_step(roots, demoted);
    crate::chains::law_chain_goes_on(step, x, n);
    crate::chains::law_chain_stops_once(step, roots[x], n, crate::chains::chain_len(step, roots[x]));
}

} // verus!
