//! What the prune stage tells its user: which entities it kept, changed and
//! moved, and why.

use crate::infer::prune::{
    auto_keep, auto_kept, count_of, count_usage, demoted_set, demotions, flatten_middle_nodes,
    flattened_by_use, has_surviving_member, is_pinned, law_counts_tell_use,
    law_usage_is_the_summary, lookup, middle_node, occurs, occurs_alone, pinned, prepared_kind,
    standalone_counts, surviving_member, total_counts, usage_table, Counts, Links, UsageModel,
    UsageRecord,
};
use crate::infer::variant::{Decisions, VariantSpec};
use crate::names::{
    append_items, lemma_ordered, no_names, ordered, push_item, Duplicate, NameSet, Table,
};
use crate::text::{decimal, decimal_of, join, join3, join_all, joined};
use vstd::prelude::*;
use vstd::string::*;

verus! {

broadcast use vstd::string::group_string_axioms;

// ---------------------------------------------------------------------
// Which entities
// ---------------------------------------------------------------------

/// The used concrete supertypes without surviving members: each becomes a plain
/// struct.
pub open spec fn specialised(d: Decisions, counts: Counts, keep: Set<Seq<char>>) -> Set<Seq<char>> {
    d.dom().filter(
        |x: Seq<char>|
            d[x] is ConcreteSupertype && count_of(counts, x) > 0 && !has_surviving_member(
                d,
                counts,
                keep,
                x,
            ),
    )
}

/// The enum bases that stand alone in some file: each gets a struct.
pub open spec fn recovered_bases(d: Decisions, standalone: Counts) -> Set<Seq<char>> {
    d.dom().filter(|x: Seq<char>| d[x] is EnumBase && count_of(standalone, x) > 0)
}

/// The merged entities that stand alone in some file: each gets a struct.
pub open spec fn recovered_merged(d: Decisions, standalone: Counts) -> Set<Seq<char>> {
    d.dom().filter(|x: Seq<char>| d[x] is MergedInto && count_of(standalone, x) > 0)
}

/// The middle nodes that a pool boundary pins: they keep their own enum.
pub open spec fn pinned_set(
    d: Decisions,
    roots: Links,
    standalone: Counts,
    pools: Links,
) -> Set<Seq<char>> {
    d.dom().filter(|x: Seq<char>| middle_node(d, roots, standalone, x) && pinned(roots, pools, x))
}

/// The entities that occur in the corpus.
pub open spec fn used_set(usage: Map<Seq<char>, UsageModel>) -> Set<Seq<char>> {
    usage.dom().filter(|x: Seq<char>| usage[x].instance_count > 0)
}

/// Collects the used concrete supertypes without surviving members.
pub fn find_specialised(d: &Table<VariantSpec>, counts: &Table<usize>, keep: &NameSet) -> (r:
    NameSet)
    ensures
        r@ == specialised(d@, counts@, keep@),
{
    let n = d.len();
    let ghost o = ordered(d@.dom());
    let ghost want = specialised(d@, counts@, keep@);
    let mut out = NameSet::new();
    let mut i: usize = 0;
    proof {
        lemma_ordered(d@.dom());
        assert(want.intersect(o.take(0).to_set()) =~= Set::empty());
    }
    while i < n
        invariant
            i <= n,
            n == o.len(),
            o == ordered(d@.dom()),
            want == specialised(d@, counts@, keep@),
            out@ == want.intersect(o.take(i as int).to_set()),
        decreases n - i,
    {
        let x = d.key_at(i);
        let ghost before = o.take(i as int);
        proof {
            assert(o.take(i + 1) =~= before.push(x@));
            before.lemma_push_to_set_commute(x@);
        }
        let concrete = match d.value_at(i) {
            VariantSpec::ConcreteSupertype => true,
            _ => false,
        };
        if concrete && lookup(counts, x.as_str()) > 0 && !surviving_member(
            x.as_str(),
            d,
            counts,
            keep,
        ) {
            out.insert(x.clone());
        }
        assert(out@ =~= want.intersect(o.take(i + 1).to_set()));
        i += 1;
    }
    proof {
        assert(o.take(i as int) =~= o);
        assert(out@ =~= want);
    }
    out
}

/// Collects the enum bases and the merged entities that stand alone in some
/// file.
pub fn find_recovered(d: &Table<VariantSpec>, standalone: &Table<usize>) -> (r: (NameSet, NameSet))
    ensures
        r.0@ == recovered_bases(d@, standalone@),
        r.1@ == recovered_merged(d@, standalone@),
{
    let n = d.len();
    let ghost o = ordered(d@.dom());
    let ghost want0 = recovered_bases(d@, standalone@);
    let ghost want1 = recovered_merged(d@, standalone@);
    let mut bases = NameSet::new();
    let mut merged = NameSet::new();
    let mut i: usize = 0;
    proof {
        lemma_ordered(d@.dom());
        assert(want0.intersect(o.take(0).to_set()) =~= Set::empty());
        assert(want1.intersect(o.take(0).to_set()) =~= Set::empty());
    }
    while i < n
        invariant
            i <= n,
            n == o.len(),
            o == ordered(d@.dom()),
            want0 == recovered_bases(d@, standalone@),
            want1 == recovered_merged(d@, standalone@),
            bases@ == want0.intersect(o.take(i as int).to_set()),
            merged@ == want1.intersect(o.take(i as int).to_set()),
        decreases n - i,
    {
        let x = d.key_at(i);
        let ghost before = o.take(i as int);
        proof {
            assert(o.take(i + 1) =~= before.push(x@));
            before.lemma_push_to_set_commute(x@);
        }
        if lookup(standalone, x.as_str()) > 0 {
            match d.value_at(i) {
                VariantSpec::EnumBase { .. } => {
                    bases.insert(x.clone());
                },
                VariantSpec::MergedInto { .. } => {
                    merged.insert(x.clone());
                },
                _ => {},
            }
        }
        assert(bases@ =~= want0.intersect(o.take(i + 1).to_set()));
        assert(merged@ =~= want1.intersect(o.take(i + 1).to_set()));
        i += 1;
    }
    proof {
        assert(o.take(i as int) =~= o);
        assert(bases@ =~= want0);
        assert(merged@ =~= want1);
    }
    (bases, merged)
}

/// Collects the middle nodes that a pool boundary pins.
pub fn find_pinned(
    d: &Table<VariantSpec>,
    roots: &Table<String>,
    standalone: &Table<usize>,
    pools: &Table<String>,
) -> (r: NameSet)
    ensures
        r@ == pinned_set(d@, roots@, standalone@, pools@),
{
    let n = d.len();
    let ghost o = ordered(d@.dom());
    let ghost want = pinned_set(d@, roots@, standalone@, pools@);
    let mut out = NameSet::new();
    let mut i: usize = 0;
    proof {
        lemma_ordered(d@.dom());
        assert(want.intersect(o.take(0).to_set()) =~= Set::empty());
    }
    while i < n
        invariant
            i <= n,
            n == o.len(),
            o == ordered(d@.dom()),
            want == pinned_set(d@, roots@, standalone@, pools@),
            out@ == want.intersect(o.take(i as int).to_set()),
        decreases n - i,
    {
        let x = d.key_at(i);
        let ghost before = o.take(i as int);
        proof {
            assert(o.take(i + 1) =~= before.push(x@));
            before.lemma_push_to_set_commute(x@);
        }
        let own_enum = match d.value_at(i) {
            VariantSpec::EnumBase { .. } => true,
            VariantSpec::ConcreteSupertype => true,
            _ => false,
        };
        if own_enum && lookup(standalone, x.as_str()) > 0 && roots.contains_key(x.as_str())
            && is_pinned(x.as_str(), roots, pools) {
            out.insert(x.clone());
        }
        assert(out@ =~= want.intersect(o.take(i + 1).to_set()));
        i += 1;
    }
    proof {
        assert(o.take(i as int) =~= o);
        assert(out@ =~= want);
    }
    out
}

/// Collects the entities that occur in the corpus.
pub fn find_used(usage: &Table<UsageRecord>) -> (r: NameSet)
    ensures
        r@ == used_set(usage@),
{
    let n = usage.len();
    let ghost o = ordered(usage@.dom());
    let ghost want = used_set(usage@);
    let mut out = NameSet::new();
    let mut i: usize = 0;
    proof {
        lemma_ordered(usage@.dom());
        assert(want.intersect(o.take(0).to_set()) =~= Set::empty());
    }
    while i < n
        invariant
            i <= n,
            n == o.len(),
            o == ordered(usage@.dom()),
            want == used_set(usage@),
            out@ == want.intersect(o.take(i as int).to_set()),
        decreases n - i,
    {
        let x = usage.key_at(i);
        let ghost before = o.take(i as int);
        proof {
            assert(o.take(i + 1) =~= before.push(x@));
            before.lemma_push_to_set_commute(x@);
        }
        if usage.value_at(i).instance_count > 0 {
            out.insert(x.clone());
        }
        assert(out@ =~= want.intersect(o.take(i + 1).to_set()));
        i += 1;
    }
    proof {
        assert(o.take(i as int) =~= o);
        assert(out@ =~= want);
    }
    out
}

// ---------------------------------------------------------------------
// What is said
// ---------------------------------------------------------------------

/// The first `n` of `items` in a row, with dots where there are more.
pub open spec fn preview(items: Seq<Seq<char>>, n: nat) -> Seq<char> {
    if items.len() <= n {
        joined(items, ", "@)
    } else {
        joined(items.take(n as int), ", "@) + ", ..."@
    }
}

/// A notice of how many `items` there are, and of the first `n` of them; none
/// where there are no items.
pub open spec fn notice(
    items: Seq<Seq<char>>,
    n: nat,
    head: Seq<char>,
    tail: Seq<char>,
) -> Seq<Seq<char>> {
    if items.len() == 0 {
        seq![]
    } else {
        seq![head + decimal(items.len()) + tail + preview(items, n)]
    }
}

fn shorten(items: &Vec<String>, n: usize) -> (r: String)
    ensures
        r@ == preview(items.deep_view(), n as nat),
{
    let ghost all = items.deep_view();
    assert(all.len() == items@.len());
    if items.len() <= n {
        return join_all(items, ", ");
    }
    let mut firsts: Vec<String> = no_names();
    let mut i: usize = 0;
    assert(all.take(0) =~= seq![]);
    while i < n
        invariant
            i <= n,
            n < items@.len(),
            all == items.deep_view(),
            all.len() == items@.len(),
            firsts.deep_view() == all.take(i as int),
        decreases n - i,
    {
        assert(all.take(i + 1) =~= all.take(i as int).push(all[i as int]));
        push_item(&mut firsts, items[i].clone());
        i += 1;
    }
    join(join_all(&firsts, ", ").as_str(), ", ...")
}

fn note(items: &Vec<String>, n: usize, head: &str, tail: &str) -> (r: Vec<String>)
    ensures
        r.deep_view() == notice(items.deep_view(), n as nat, head@, tail@),
{
    let mut out = no_names();
    assert(items.deep_view().len() == items@.len());
    if items.len() > 0 {
        let counted = join3(head, decimal_of(items.len()).as_str(), tail);
        let line = join(counted.as_str(), shorten(items, n).as_str());
        let ghost said = line@;
        push_item(&mut out, line);
        assert(out.deep_view() =~= seq![said]);
    }
    out
}

/// The moves, each as text.
pub open spec fn move_texts(moves: Seq<(Seq<char>, Seq<char>)>) -> Seq<Seq<char>> {
    moves.map_values(|m: (Seq<char>, Seq<char>)| m.0 + "->"@ + m.1)
}

fn write_moves(moves: &Vec<(String, String)>) -> (r: Vec<String>)
    ensures
        r.deep_view() == move_texts(moves.deep_view()),
{
    let ghost all = move_texts(moves.deep_view());
    let mut out = no_names();
    let mut i: usize = 0;
    assert(all.take(0) =~= seq![]);
    while i < moves.len()
        invariant
            i <= moves@.len(),
            all == move_texts(moves.deep_view()),
            all.len() == moves@.len(),
            out.deep_view() == all.take(i as int),
        decreases moves@.len() - i,
    {
        let line = join3(moves[i].0.as_str(), "->", moves[i].1.as_str());
        assert(moves.deep_view()[i as int] == (moves@[i as int].0@, moves@[i as int].1@));
        assert(line@ == all[i as int]);
        assert(all.take(i + 1) =~= all.take(i as int).push(all[i as int]));
        push_item(&mut out, line);
        i += 1;
    }
    assert(all.take(i as int) =~= all);
    out
}

/// What is said about flattening: the pinned nodes, and the nodes that moved.
pub open spec fn flatten_notices(
    d: Decisions,
    roots: Links,
    standalone: Counts,
    pools: Links,
) -> Seq<Seq<char>> {
    let held = ordered(pinned_set(d, roots, standalone, pools));
    let moves = demotions(
        roots,
        demoted_set(d, roots, standalone, pools),
        ordered(d.dom()),
    );
    notice(
        held,
        held.len(),
        "infer prune: pool-boundary gate kept "@,
        " middle node(s) as own arena: "@,
    ) + notice(
        move_texts(moves),
        12,
        "infer prune: flattened "@,
        " instantiated middle node(s) to InEnum of stable root: "@,
    )
}

/// What is said about the entities that enter the pruning.
pub open spec fn preparation_notices(
    d: Decisions,
    counts: Counts,
    standalone: Counts,
    keep: Set<Seq<char>>,
) -> Seq<Seq<char>> {
    notice(
        ordered(auto_kept(d, counts)),
        8,
        "infer prune: auto-kept "@,
        " supertype(s) with live children: "@,
    ) + notice(
        ordered(specialised(d, counts, keep)),
        8,
        "infer prune: specialized "@,
        " childless ConcreteSupertype(s) to SingleStruct: "@,
    ) + notice(
        ordered(recovered_bases(d, standalone)),
        8,
        "infer prune: recovered "@,
        " self-instantiated EnumBase(s) (-> ConcreteSupertype/SingleStruct): "@,
    ) + notice(
        ordered(recovered_merged(d, standalone)),
        8,
        "infer prune: recovered "@,
        " self-instantiated MergedInto(s) (-> ConcreteSupertype/SingleStruct): "@,
    )
}

/// All that is said between the use of the entities and the pruned
/// classification.
pub open spec fn all_notices(
    d: Decisions,
    usage: Map<Seq<char>, UsageModel>,
    keep: Set<Seq<char>>,
    roots: Links,
    pools: Links,
) -> Seq<Seq<char>> {
    flatten_notices(d, roots, standalone_counts(usage), pools) + preparation_notices(
        flattened_by_use(d, usage, roots, pools),
        total_counts(usage),
        standalone_counts(usage),
        keep,
    )
}

fn note_preparation(
    d: &Table<VariantSpec>,
    counts: &Table<usize>,
    standalone: &Table<usize>,
    keep: &NameSet,
) -> (r: Vec<String>)
    ensures
        r.deep_view() == preparation_notices(d@, counts@, standalone@, keep@),
{
    let mut out = note(
        &auto_keep(d, counts).names(),
        8,
        "infer prune: auto-kept ",
        " supertype(s) with live children: ",
    );
    append_items(
        &mut out,
        note(
            &find_specialised(d, counts, keep).names(),
            8,
            "infer prune: specialized ",
            " childless ConcreteSupertype(s) to SingleStruct: ",
        ),
    );
    let (bases, merged) = find_recovered(d, standalone);
    append_items(
        &mut out,
        note(
            &bases.names(),
            8,
            "infer prune: recovered ",
            " self-instantiated EnumBase(s) (-> ConcreteSupertype/SingleStruct): ",
        ),
    );
    append_items(
        &mut out,
        note(
            &merged.names(),
            8,
            "infer prune: recovered ",
            " self-instantiated MergedInto(s) (-> ConcreteSupertype/SingleStruct): ",
        ),
    );
    out
}

/// Tells which entities the prune stage pins, moves, keeps and changes, line by
/// line.
pub fn prune_notices(
    variants: &Table<VariantSpec>,
    usage: &Table<UsageRecord>,
    keep: &NameSet,
    enum_roots: &Table<String>,
    pools: &Table<String>,
) -> (r: Vec<String>)
    ensures
        r.deep_view() == all_notices(variants@, usage@, keep@, enum_roots@, pools@),
{
    let (total, standalone) = count_usage(usage);
    let held = find_pinned(variants, enum_roots, &standalone, pools).names();
    assert(held.deep_view().len() == held@.len());
    let mut out = note(
        &held,
        held.len(),
        "infer prune: pool-boundary gate kept ",
        " middle node(s) as own arena: ",
    );
    let mut working = variants.duplicate();
    let moves = flatten_middle_nodes(&mut working, enum_roots, &standalone, pools);
    append_items(
        &mut out,
        note(
            &write_moves(&moves),
            12,
            "infer prune: flattened ",
            " instantiated middle node(s) to InEnum of stable root: ",
        ),
    );
    append_items(&mut out, note_preparation(&working, &total, &standalone, keep));
    out
}

/// How many entities there are, and how many of them are used.
pub open spec fn usage_line(usage: Map<Seq<char>, UsageModel>) -> Seq<char> {
    "infer prune: "@ + decimal(usage.dom().len()) + " entities (used="@ + decimal(
        used_set(usage).len(),
    ) + " unused="@ + decimal((usage.dom().len() - used_set(usage).len()) as nat) + ")"@
}

/// Tells how many entities there are, and how many of them are used.
pub fn usage_notice(usage: &Table<UsageRecord>) -> (r: String)
    ensures
        r@ == usage_line(usage@),
{
    let all: usize = usage.len();
    let used: usize = find_used(usage).len();
    proof {
        lemma_ordered(usage@.dom());
        vstd::set_lib::lemma_len_subset(used_set(usage@), usage@.dom());
    }
    let first = join3("infer prune: ", decimal_of(all).as_str(), " entities (used=");
    let second = join3(first.as_str(), decimal_of(used).as_str(), " unused=");
    join3(second.as_str(), decimal_of(all - used).as_str(), ")")
}

// ---------------------------------------------------------------------
// Laws
// ---------------------------------------------------------------------

/// The notices name just the entities whose kind the preparation changes.
pub proof fn law_changed_kinds_are_told(
    d: Decisions,
    counts: Counts,
    standalone: Counts,
    keep: Set<Seq<char>>,
    x: Seq<char>,
)
    requires
        d.contains_key(x),
    ensures
        prepared_kind(d, counts, standalone, keep, x) != d[x] <==> specialised(
            d,
            counts,
            keep,
        ).contains(x) || recovered_bases(d, standalone).contains(x) || recovered_merged(
            d,
            standalone,
        ).contains(x),
{
}

/// A middle node is pinned, or gives up its own enum.
pub proof fn law_middle_nodes_are_pinned_or_demoted(
    d: Decisions,
    roots: Links,
    standalone: Counts,
    pools: Links,
    x: Seq<char>,
)
    ensures
        middle_node(d, roots, standalone, x) <==> pinned_set(d, roots, standalone, pools).contains(
            x,
        ) || demoted_set(d, roots, standalone, pools).contains(x),
        !(pinned_set(d, roots, standalone, pools).contains(x) && demoted_set(
            d,
            roots,
            standalone,
            pools,
        ).contains(x)),
{
}

/// What the notices list after the record of use: the supertypes and the absorbed
/// entities that occur by themselves; and what counts as used.
pub proof fn law_recovered_occur_alone(
    d: Decisions,
    known: Set<Seq<char>>,
    summary: Map<Seq<char>, UsageModel>,
    x: Seq<char>,
)
    requires
        known.finite(),
    ensures
        ({
            let usage = usage_table(known, summary);
            let standalone = standalone_counts(usage);
            &&& recovered_bases(d, standalone).contains(x) <==> d.contains_key(x)
                && d[x] is EnumBase && known.contains(x) && occurs_alone(summary, x)
            &&& recovered_merged(d, standalone).contains(x) <==> d.contains_key(x)
                && d[x] is MergedInto && known.contains(x) && occurs_alone(summary, x)
            &&& used_set(usage).contains(x) <==> known.contains(x) && occurs(summary, x)
        }),
{
    law_counts_tell_use(known, summary, x);
    law_usage_is_the_summary(known, summary, x, x);
}

/// A notice about nothing is not given; any other is one text, with the number of
/// items, and the names of at most so many of them.
pub proof fn law_notices_show_the_first(
    a: Seq<Seq<char>>,
    b: Seq<Seq<char>>,
    n: nat,
    head: Seq<char>,
    tail: Seq<char>,
)
    ensures
        preview(a, a.len()) == joined(a, ", "@),
        b.len() > 0 ==> preview(a + b, a.len()) == joined(a, ", "@) + ", ..."@,
        notice(a, n, head, tail).len() == (if a.len() == 0 {
            0int
        } else {
            1
        }),
        a.len() > 0 ==> notice(a, n, head, tail)[0] == head + decimal(a.len()) + tail + preview(a, n),
{
    if b.len() > 0 {
        assert((a + b).take(a.len() as int) =~= a);
    }
}

} // verus!
