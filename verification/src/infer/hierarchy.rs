//! The inheritance graph: children, descendants, ancestors, and an order in
//! which parents come before children.

use crate::chains::{lemma_settled, rounds, settled, settles};
use crate::graph::{lemma_closed_reaches, lemma_reach_through, reachable, reached, Graph};
use crate::names::{
    append_items, lemma_ordered, listed, ordered, push_item, Duplicate, NameSet, Table,
};
use crate::text::{decimal, decimal_of, join3};
use vstd::prelude::*;

verus! {

// ---------------------------------------------------------------------
// Children
// ---------------------------------------------------------------------

/// The children noted for `p` so far.
pub open spec fn noted(idx: Graph, p: Seq<char>) -> Seq<Seq<char>> {
    if idx.contains_key(p) {
        idx[p]
    } else {
        seq![]
    }
}

/// Notes `c` as a child of each of `ps`.
pub open spec fn note_child(idx: Graph, ps: Seq<Seq<char>>, c: Seq<char>) -> Graph
    decreases ps.len(),
{
    if ps.len() == 0 {
        idx
    } else {
        let before = note_child(idx, ps.drop_last(), c);
        before.insert(ps.last(), noted(before, ps.last()).push(c))
    }
}

/// The children of the entities `keys`, by parent.
pub open spec fn children_among(parents: Graph, keys: Seq<Seq<char>>) -> Graph
    decreases keys.len(),
{
    if keys.len() == 0 {
        Map::empty()
    } else {
        note_child(
            children_among(parents, keys.drop_last()),
            parents[keys.last()],
            keys.last(),
        )
    }
}

/// Each parent with its children, in the order of their names.
pub open spec fn descendant_index(parents: Graph) -> Graph {
    children_among(parents, ordered(parents.dom()))
}

pub fn build_descendant_index(parents: &Table<Vec<String>>) -> (r: Table<Vec<String>>)
    ensures
        r@ == descendant_index(parents@),
{
    let n = parents.len();
    let ghost o = ordered(parents@.dom());
    let mut idx: Table<Vec<String>> = Table::new();
    let mut i: usize = 0;
    assert(o.take(0) =~= seq![]);
    while i < n
        invariant
            i <= n,
            n == o.len(),
            o == ordered(parents@.dom()),
            idx@ == children_among(parents@, o.take(i as int)),
        decreases n - i,
    {
        assert(o.take(i + 1).drop_last() =~= o.take(i as int));
        let child = parents.key_at(i);
        let list = parents.value_at(i);
        let ghost ps = list.deep_view();
        let ghost before = idx@;
        let mut j: usize = 0;
        assert(ps.take(0) =~= seq![]);
        while j < list.len()
            invariant
                j <= list@.len(),
                ps == list.deep_view(),
                ps.len() == list@.len(),
                idx@ == note_child(before, ps.take(j as int), child@),
            decreases list@.len() - j,
        {
            proof {
                assert(ps.take(j + 1).drop_last() =~= ps.take(j as int));
                assert(ps.take(j + 1).last() == list@[j as int]@);
            }
            let ghost cur = idx@;
            let p = list[j].clone();
            let mut kids: Vec<String> = match idx.remove(p.as_str()) {
                Some(v) => v,
                None => Vec::new(),
            };
            assert(kids.deep_view() =~= noted(cur, p@));
            push_item(&mut kids, child.clone());
            let ghost want = cur.insert(p@, kids.deep_view());
            idx.insert(p, kids);
            assert(idx@ =~= want);
            j += 1;
        }
        assert(ps.take(j as int) =~= ps);
        i += 1;
    }
    assert(o.take(i as int) =~= o);
    idx
}

// ---------------------------------------------------------------------
// Descendants and ancestors
// ---------------------------------------------------------------------

/// How many names of the graph are not in `visited`.
pub open spec fn left(g: Graph, visited: Set<Seq<char>>) -> nat {
    g.dom().difference(visited).len()
}

/// A name met for the first time leaves fewer names.
pub proof fn lemma_left(g: Graph, visited: Set<Seq<char>>, x: Seq<char>)
    requires
        g.dom().finite(),
        !visited.contains(x),
    ensures
        left(g, visited.insert(x)) <= left(g, visited),
        g.contains_key(x) ==> left(g, visited.insert(x)) < left(g, visited),
{
    let d0 = g.dom().difference(visited);
    let d1 = g.dom().difference(visited.insert(x));
    assert(d1.subset_of(d0));
    vstd::set_lib::lemma_len_subset(d1, d0);
    if g.contains_key(x) {
        assert(d1.subset_of(d0.remove(x)));
        vstd::set_lib::lemma_len_subset(d1, d0.remove(x));
    }
}

/// Goes down from the names on the stack, the last one first; each name not
/// met before hands out its children.
pub open spec fn descend(
    idx: Graph,
    stack: Seq<Seq<char>>,
    visited: Set<Seq<char>>,
    out: Seq<Seq<char>>,
) -> Seq<Seq<char>>
    decreases left(idx, visited), stack.len(),
    when idx.dom().finite()
    via descend_decreases
{
    if stack.len() == 0 {
        out
    } else if visited.contains(stack.last()) {
        descend(idx, stack.drop_last(), visited, out)
    } else {
        let kids = noted(idx, stack.last());
        descend(idx, stack.drop_last() + kids, visited.insert(stack.last()), out + kids)
    }
}

#[via_fn]
proof fn descend_decreases(
    idx: Graph,
    stack: Seq<Seq<char>>,
    visited: Set<Seq<char>>,
    out: Seq<Seq<char>>,
) {
    if stack.len() > 0 && !visited.contains(stack.last()) {
        lemma_left(idx, visited, stack.last());
    }
}

/// The descendants of `root`, once for each parent they have among them.
pub open spec fn descendants_of(idx: Graph, root: Seq<char>) -> Seq<Seq<char>> {
    descend(idx, seq![root], Set::empty(), seq![])
}

pub fn concrete_descendants(root: &str, idx: &Table<Vec<String>>) -> (r: Vec<String>)
    ensures
        r.deep_view() == descendants_of(idx@, root@),
{
    let size = idx.len();
    let ghost g = idx@;
    let mut out: Vec<String> = Vec::new();
    let mut stack: Vec<String> = Vec::new();
    stack.push(root.to_owned());
    let mut visited = NameSet::new();
    proof {
        assert(stack.deep_view() =~= seq![root@]);
        assert(out.deep_view() =~= seq![]);
    }
    while stack.len() > 0
        invariant
            g == idx@,
            g.dom().finite(),
            descend(g, stack.deep_view(), visited@, out.deep_view()) == descendants_of(g, root@),
        decreases left(g, visited@), stack@.len(),
    {
        let ghost s0 = stack.deep_view();
        let ghost v0 = visited@;
        let name = stack.pop().unwrap();
        proof {
            assert(stack.deep_view() =~= s0.drop_last());
            assert(s0.last() == name@);
            if !v0.contains(name@) {
                lemma_left(g, v0, name@);
            }
        }
        if visited.insert(name.clone()) {
            if let Some(children) = idx.get(name.as_str()) {
                append_items(&mut stack, children.duplicate());
                append_items(&mut out, children.duplicate());
            } else {
                assert(s0.drop_last() + noted(g, name@) =~= s0.drop_last());
                assert(out.deep_view() + noted(g, name@) =~= out.deep_view());
            }
        } else {
            assert(visited@ =~= v0);
        }
    }
    out
}

/// Those of `ps` that are not in `seen`.
pub open spec fn unseen(ps: Seq<Seq<char>>, seen: Set<Seq<char>>) -> Seq<Seq<char>>
    decreases ps.len(),
{
    if ps.len() == 0 {
        seq![]
    } else if seen.contains(ps.last()) {
        unseen(ps.drop_last(), seen)
    } else {
        unseen(ps.drop_last(), seen).push(ps.last())
    }
}

/// Goes up from the names on the stack, the last one first; each name not met
/// before hands out those of its parents that were not met before.
pub open spec fn ascend(
    parents: Graph,
    stack: Seq<Seq<char>>,
    seen: Set<Seq<char>>,
    chain: Seq<Seq<char>>,
) -> Seq<Seq<char>>
    decreases left(parents, seen), stack.len(),
    when parents.dom().finite()
    via ascend_decreases
{
    if stack.len() == 0 {
        chain
    } else if seen.contains(stack.last()) {
        ascend(parents, stack.drop_last(), seen, chain)
    } else {
        let now = seen.insert(stack.last());
        let ps = unseen(noted(parents, stack.last()), now);
        ascend(parents, stack.drop_last() + ps, now, chain + ps)
    }
}

#[via_fn]
proof fn ascend_decreases(
    parents: Graph,
    stack: Seq<Seq<char>>,
    seen: Set<Seq<char>>,
    chain: Seq<Seq<char>>,
) {
    if stack.len() > 0 && !seen.contains(stack.last()) {
        lemma_left(parents, seen, stack.last());
    }
}

/// `entity` and all its ancestors, the nearest first.
pub open spec fn upward_chain(parents: Graph, entity: Seq<char>) -> Seq<Seq<char>> {
    ascend(parents, seq![entity], Set::empty(), seq![entity])
}

fn unseen_of(ps: &Vec<String>, seen: &NameSet) -> (r: Vec<String>)
    ensures
        r.deep_view() == unseen(ps.deep_view(), seen@),
{
    let ghost all = ps.deep_view();
    let mut out: Vec<String> = Vec::new();
    let mut i: usize = 0;
    proof {
        assert(all.take(0) =~= seq![]);
        assert(out.deep_view() =~= seq![]);
    }
    while i < ps.len()
        invariant
            i <= ps@.len(),
            all == ps.deep_view(),
            all.len() == ps@.len(),
            out.deep_view() == unseen(all.take(i as int), seen@),
        decreases ps@.len() - i,
    {
        proof {
            assert(all.take(i + 1).drop_last() =~= all.take(i as int));
            assert(all.take(i + 1).last() == ps@[i as int]@);
        }
        if !seen.contains(ps[i].as_str()) {
            push_item(&mut out, ps[i].clone());
        }
        i += 1;
    }
    assert(all.take(i as int) =~= all);
    out
}

/// Lists `entity` and all its ancestors.
pub fn climb_all(parents: &Table<Vec<String>>, entity: &str) -> (r: Vec<String>)
    ensures
        r.deep_view() == upward_chain(parents@, entity@),
{
    let size = parents.len();
    let ghost g = parents@;
    let mut chain: Vec<String> = Vec::new();
    chain.push(entity.to_owned());
    let mut stack: Vec<String> = Vec::new();
    stack.push(entity.to_owned());
    let mut seen = NameSet::new();
    proof {
        assert(stack.deep_view() =~= seq![entity@]);
        assert(chain.deep_view() =~= seq![entity@]);
    }
    while stack.len() > 0
        invariant
            g == parents@,
            g.dom().finite(),
            ascend(g, stack.deep_view(), seen@, chain.deep_view()) == upward_chain(g, entity@),
        decreases left(g, seen@), stack@.len(),
    {
        let ghost s0 = stack.deep_view();
        let ghost v0 = seen@;
        let name = stack.pop().unwrap();
        proof {
            assert(stack.deep_view() =~= s0.drop_last());
            assert(s0.last() == name@);
            if !v0.contains(name@) {
                lemma_left(g, v0, name@);
            }
        }
        if seen.insert(name.clone()) {
            if let Some(ps) = parents.get(name.as_str()) {
                let more = unseen_of(ps, &seen);
                append_items(&mut stack, more.duplicate());
                append_items(&mut chain, more);
            } else {
                assert(unseen(noted(g, name@), seen@) =~= seq![]);
                assert(s0.drop_last() + unseen(noted(g, name@), seen@) =~= s0.drop_last());
                assert(chain.deep_view() + unseen(noted(g, name@), seen@) =~= chain.deep_view());
            }
        } else {
            assert(seen@ =~= v0);
        }
    }
    chain
}

// ---------------------------------------------------------------------
// Parents before children
// ---------------------------------------------------------------------

/// The entities `keys` and their parents.
pub open spec fn nodes_among(parents: Graph, keys: Seq<Seq<char>>) -> Set<Seq<char>>
    decreases keys.len(),
{
    if keys.len() == 0 {
        Set::empty()
    } else {
        nodes_among(parents, keys.drop_last()).insert(keys.last()).union(
            parents[keys.last()].to_set(),
        )
    }
}

/// All names of the graph.
pub open spec fn nodes(parents: Graph) -> Set<Seq<char>> {
    nodes_among(parents, ordered(parents.dom()))
}

/// How many parents of a name are still to come.
pub open spec fn waits_at_first(parents: Graph, x: Seq<char>) -> nat {
    noted(parents, x).len()
}

/// The state of the ordering: what each name still waits for, the names that
/// wait for nothing in the order in which they stopped waiting, and how many
/// of them have been placed.
pub struct Placing {
    pub waits: Map<Seq<char>, usize>,
    pub queue: Seq<Seq<char>>,
    pub placed: nat,
}

/// Those of `keys` that wait for nothing.
pub open spec fn ready(waits: Map<Seq<char>, usize>, keys: Seq<Seq<char>>) -> Seq<Seq<char>>
    decreases keys.len(),
{
    if keys.len() == 0 {
        seq![]
    } else if waits[keys.last()] == 0 {
        ready(waits, keys.drop_last()).push(keys.last())
    } else {
        ready(waits, keys.drop_last())
    }
}

/// After `cur` is placed, each of `keys` that has it as a parent waits for one
/// parent less; those that then wait for none join the queue.
pub open spec fn release(
    parents: Graph,
    keys: Seq<Seq<char>>,
    cur: Seq<char>,
    st: Placing,
) -> Placing
    decreases keys.len(),
{
    if keys.len() == 0 {
        st
    } else {
        let before = release(parents, keys.drop_last(), cur, st);
        let c = keys.last();
        if parents[c].contains(cur) && before.waits.contains_key(c) && before.waits[c] > 0 {
            let waits = before.waits.insert(c, (before.waits[c] - 1) as usize);
            if waits[c] == 0 {
                Placing { waits, queue: before.queue.push(c), placed: before.placed }
            } else {
                Placing { waits, queue: before.queue, placed: before.placed }
            }
        } else {
            before
        }
    }
}

/// Places the next name of the queue.
pub open spec fn place(parents: Graph) -> spec_fn(Placing) -> Placing {
    |st: Placing|
        if st.placed < st.queue.len() {
            let after = release(
                parents,
                ordered(parents.dom()),
                st.queue[st.placed as int],
                st,
            );
            Placing { waits: after.waits, queue: after.queue, placed: st.placed + 1 }
        } else {
            st
        }
}

pub open spec fn placing_start(parents: Graph) -> Placing {
    let waits = Map::new(
        |x: Seq<char>| nodes(parents).contains(x),
        |x: Seq<char>| waits_at_first(parents, x) as usize,
    );
    Placing { waits, queue: ready(waits, ordered(nodes(parents))), placed: 0 }
}

/// The names that could be placed, in their order.
pub open spec fn placeable(parents: Graph) -> Seq<Seq<char>> {
    settled(place(parents), placing_start(parents)).queue
}

/// The names on cycles, and below them: those that could not be placed.
pub open spec fn left_over(parents: Graph) -> Seq<Seq<char>> {
    unseen(ordered(nodes(parents)), placeable(parents).to_set())
}

/// The names parents first; the names on cycles, and below them, at the end.
pub open spec fn topological(parents: Graph) -> Seq<Seq<char>> {
    placeable(parents) + left_over(parents)
}

fn all_nodes(parents: &Table<Vec<String>>) -> (r: NameSet)
    ensures
        r@ == nodes(parents@),
{
    let n = parents.len();
    let ghost o = ordered(parents@.dom());
    let mut out = NameSet::new();
    let mut i: usize = 0;
    assert(o.take(0) =~= seq![]);
    while i < n
        invariant
            i <= n,
            n == o.len(),
            o == ordered(parents@.dom()),
            out@ == nodes_among(parents@, o.take(i as int)),
        decreases n - i,
    {
        assert(o.take(i + 1).drop_last() =~= o.take(i as int));
        out.insert(parents.key_at(i).clone());
        let list = parents.value_at(i);
        let ghost ps = list.deep_view();
        let ghost before = out@;
        let mut j: usize = 0;
        assert(before.union(ps.take(0).to_set()) =~= before);
        while j < list.len()
            invariant
                j <= list@.len(),
                ps == list.deep_view(),
                ps.len() == list@.len(),
                out@ == before.union(ps.take(j as int).to_set()),
            decreases list@.len() - j,
        {
            proof {
                assert(ps.take(j + 1) =~= ps.take(j as int).push(ps[j as int]));
                ps.take(j as int).lemma_push_to_set_commute(ps[j as int]);
            }
            out.insert(list[j].clone());
            assert(out@ =~= before.union(ps.take(j + 1).to_set()));
            j += 1;
        }
        assert(ps.take(j as int) =~= ps);
        i += 1;
    }
    assert(o.take(i as int) =~= o);
    out
}

fn first_waits(parents: &Table<Vec<String>>, names: &NameSet) -> (r: Table<usize>)
    requires
        names@ == nodes(parents@),
    ensures
        r@ == placing_start(parents@).waits,
{
    let n = names.len();
    let ghost o = ordered(names@);
    let ghost g = |x: Seq<char>| Some(waits_at_first(parents@, x) as usize);
    let mut waits: Table<usize> = Table::new();
    let mut i: usize = 0;
    proof {
        crate::names::lemma_tabulate_ends(o, g);
    }
    while i < n
        invariant
            i <= n,
            n == o.len(),
            o == ordered(names@),
            g == (|x: Seq<char>| Some(waits_at_first(parents@, x) as usize)),
            waits@ == crate::names::tabulate(o.take(i as int), g),
        decreases n - i,
    {
        let x = names.at(i);
        proof {
            crate::names::lemma_tabulate_next(o, i as int, g);
        }
        let w: usize = match parents.get(x.as_str()) {
            Some(ps) => ps.len(),
            None => 0,
        };
        waits.insert(x.clone(), w);
        i += 1;
    }
    proof {
        crate::names::lemma_tabulate_ends(o, g);
        lemma_ordered(names@);
        assert(waits@ =~= placing_start(parents@).waits);
    }
    waits
}

/// The names that still wait.
pub open spec fn waiting(waits: Map<Seq<char>, usize>) -> Set<Seq<char>> {
    waits.dom().filter(|x: Seq<char>| waits[x] > 0)
}

proof fn lemma_release_counts(parents: Graph, keys: Seq<Seq<char>>, cur: Seq<char>, st: Placing)
    requires
        st.waits.dom().finite(),
    ensures
        release(parents, keys, cur, st).waits.dom() == st.waits.dom(),
        release(parents, keys, cur, st).placed == st.placed,
        release(parents, keys, cur, st).queue.len() >= st.queue.len(),
        waiting(release(parents, keys, cur, st).waits).finite(),
        waiting(release(parents, keys, cur, st).waits).len() + release(
            parents,
            keys,
            cur,
            st,
        ).queue.len() == waiting(st.waits).len() + st.queue.len(),
    decreases keys.len(),
{
    if keys.len() > 0 {
        lemma_release_counts(parents, keys.drop_last(), cur, st);
        let before = release(parents, keys.drop_last(), cur, st);
        let c = keys.last();
        if parents[c].contains(cur) && before.waits.contains_key(c) && before.waits[c] > 0 {
            let waits = before.waits.insert(c, (before.waits[c] - 1) as usize);
            assert(waits.dom() =~= before.waits.dom());
            if waits[c] == 0 {
                assert(waiting(waits) =~= waiting(before.waits).remove(c));
            } else {
                assert(waiting(waits) =~= waiting(before.waits));
            }
        }
    }
}

fn release_children(
    parents: &Table<Vec<String>>,
    cur: &str,
    waits: &mut Table<usize>,
    queue: &mut Vec<String>,
    Ghost(placed): Ghost<nat>,
)
    requires
        old(waits)@.dom().finite(),
    ensures
        ({
            let before = Placing { waits: old(waits)@, queue: old(queue).deep_view(), placed };
            let after = release(parents@, ordered(parents@.dom()), cur@, before);
            after.waits == final(waits)@ && after.queue == final(queue).deep_view()
        }),
{
    let n = parents.len();
    let ghost o = ordered(parents@.dom());
    let ghost st = Placing { waits: waits@, queue: queue.deep_view(), placed };
    let mut i: usize = 0;
    assert(o.take(0) =~= seq![]);
    while i < n
        invariant
            i <= n,
            n == o.len(),
            o == ordered(parents@.dom()),
            st.waits.dom().finite(),
            release(parents@, o.take(i as int), cur@, st).waits == waits@,
            release(parents@, o.take(i as int), cur@, st).queue == queue.deep_view(),
        decreases n - i,
    {
        assert(o.take(i + 1).drop_last() =~= o.take(i as int));
        let child = parents.key_at(i);
        if listed(parents.value_at(i), cur) {
            let left: Option<usize> = match waits.get(child.as_str()) {
                Some(w) => Some(*w),
                None => None,
            };
            if let Some(w) = left {
                if w > 0 {
                    waits.insert(child.clone(), w - 1);
                    if w == 1 {
                        push_item(queue, child.clone());
                    }
                }
            }
        }
        i += 1;
    }
    assert(o.take(i as int) =~= o);
}

/// Places the names, each after its parents, until those on cycles and below
/// them are left.
fn place_names(parents: &Table<Vec<String>>, names: &NameSet) -> (r: Vec<String>)
    requires
        names@ == nodes(parents@),
    ensures
        r.deep_view() == placeable(parents@),
{
    let mut waits = first_waits(parents, names);
    let total = names.len();
    let size = waits.len();
    let ghost start = placing_start(parents@);
    let ghost o = ordered(names@);
    let mut queue: Vec<String> = Vec::new();
    let mut i: usize = 0;
    proof {
        assert(o.take(0) =~= seq![]);
        assert(queue.deep_view() =~= seq![]);
        lemma_ordered(names@);
    }
    while i < total
        invariant
            i <= total,
            total == o.len(),
            o == ordered(names@),
            names@ == nodes(parents@),
            names@.finite(),
            start == placing_start(parents@),
            waits@ == start.waits,
            queue.deep_view() == ready(start.waits, o.take(i as int)),
        decreases total - i,
    {
        proof {
            assert(o.take(i + 1).drop_last() =~= o.take(i as int));
            lemma_ordered(names@);
        }
        let x = names.at(i);
        let w: usize = *waits.get(x.as_str()).unwrap();
        if w == 0 {
            push_item(&mut queue, x.clone());
        }
        i += 1;
    }
    assert(o.take(i as int) =~= o);
    let ghost f = place(parents@);
    let ghost mut n: nat = 0;
    let mut head: usize = 0;
    while head < queue.len()
        invariant
            f == place(parents@),
            start == placing_start(parents@),
            waits@.dom().finite(),
            waiting(waits@).finite(),
            head <= queue@.len(),
            n == head,
            rounds(f, start, n) == (Placing {
                waits: waits@,
                queue: queue.deep_view(),
                placed: head as nat,
            }),
        decreases waiting(waits@).len() + queue@.len() - head,
    {
        let ghost st = rounds(f, start, n);
        proof {
            lemma_release_counts(
                parents@,
                ordered(parents@.dom()),
                st.queue[head as int],
                st,
            );
        }
        let cur = queue[head].clone();
        release_children(parents, cur.as_str(), &mut waits, &mut queue, Ghost(head as nat));
        head += 1;
        proof {
            n = n + 1;
            assert(rounds(f, start, n) == f(st));
        }
    }
    proof {
        assert(settles(f, start, n));
        lemma_settled(f, start, n);
    }
    queue
}

/// Collects the names that cycles leave over.
pub fn find_left_over(parents: &Table<Vec<String>>) -> (r: Vec<String>)
    ensures
        r.deep_view() == left_over(parents@),
{
    let names = all_nodes(parents);
    let placed = NameSet::from_names(&place_names(parents, &names));
    unseen_of(&names.names(), &placed)
}

/// Orders all names of the graph, parents before children as far as there are
/// no cycles.
pub fn topological_order(parents: &Table<Vec<String>>) -> (r: Vec<String>)
    ensures
        r.deep_view() == topological(parents@),
{
    let names = all_nodes(parents);
    let mut queue = place_names(parents, &names);
    let placed = NameSet::from_names(&queue);
    let rest = unseen_of(&names.names(), &placed);
    append_items(&mut queue, rest);
    queue
}

/// What is said about the names that cycles leave over, if there are any.
pub open spec fn cycle_warning(parents: Graph) -> Option<Seq<char>> {
    if left_over(parents).len() == 0 {
        None
    } else {
        Some(
            "warning: inheritance graph has a cycle ("@ + decimal(left_over(parents).len())
                + " entities left over) — appended in arbitrary order"@,
        )
    }
}

/// Warns of cycles.
pub fn warn_of_cycles(parents: &Table<Vec<String>>) -> (r: Option<String>)
    ensures
        r.deep_view() == cycle_warning(parents@),
{
    let rest = find_left_over(parents);
    assert(rest.deep_view().len() == rest@.len());
    if rest.len() == 0 {
        None
    } else {
        Some(
            join3(
                "warning: inheritance graph has a cycle (",
                decimal_of(rest.len()).as_str(),
                " entities left over) — appended in arbitrary order",
            ),
        )
    }
}

// ---------------------------------------------------------------------
// Laws of the order
// ---------------------------------------------------------------------

/// How many of `ps` are not in `done`.
pub open spec fn pending(ps: Seq<Seq<char>>, done: Set<Seq<char>>) -> nat {
    unseen(ps, done).len()
}

proof fn lemma_unseen(ps: Seq<Seq<char>>, seen: Set<Seq<char>>)
    ensures
        forall|x: Seq<char>| unseen(ps, seen).contains(x) <==> ps.contains(x) && !seen.contains(x),
        ps.no_duplicates() ==> unseen(ps, seen).no_duplicates(),
        unseen(ps, seen).len() <= ps.len(),
    decreases ps.len(),
{
    if ps.len() == 0 {
        assert(unseen(ps, seen) =~= seq![]);
    } else {
        let before = ps.drop_last();
        let l = ps.last();
        lemma_unseen(before, seen);
        let u0 = unseen(before, seen);
        let u = unseen(ps, seen);
        assert forall|x: Seq<char>| ps.contains(x) <==> before.contains(x) || x == l by {
            if ps.contains(x) {
                let i = choose|i: int| 0 <= i < ps.len() && ps[i] == x;
                if i < before.len() {
                    assert(before[i] == x);
                }
            }
            if before.contains(x) {
                let i = choose|i: int| 0 <= i < before.len() && before[i] == x;
                assert(ps[i] == x);
            }
            assert(ps[ps.len() - 1] == l);
        }
        if !seen.contains(l) {
            assert forall|x: Seq<char>| u.contains(x) <==> u0.contains(x) || x == l by {
                if u0.contains(x) {
                    let i = choose|i: int| 0 <= i < u0.len() && u0[i] == x;
                    assert(u[i] == x);
                }
                assert(u[u0.len() as int] == l);
            }
            if ps.no_duplicates() {
                assert(!before.contains(l)) by {
                    if before.contains(l) {
                        let i = choose|i: int| 0 <= i < before.len() && before[i] == l;
                        assert(ps[i] == ps[ps.len() - 1]);
                    }
                }
                assert(before.no_duplicates()) by {
                    assert forall|i: int, j: int|
                        0 <= i < before.len() && 0 <= j < before.len() && i != j implies before[i]
                        != before[j] by {
                        assert(ps[i] != ps[j]);
                    }
                }
                assert(!u0.contains(l));
                assert forall|i: int, j: int| 0 <= i < u.len() && 0 <= j < u.len() && i != j implies
                    u[i] != u[j] by {
                    if i == u0.len() {
                        assert(u0.contains(u0[j]));
                    } else if j == u0.len() {
                        assert(u0.contains(u0[i]));
                    }
                }
            }
        } else if ps.no_duplicates() {
            assert(before.no_duplicates()) by {
                assert forall|i: int, j: int|
                    0 <= i < before.len() && 0 <= j < before.len() && i != j implies before[i]
                    != before[j] by {
                    assert(ps[i] != ps[j]);
                }
            }
        }
    }
}

/// Placing one more parent leaves one parent less to come.
proof fn lemma_pending_step(ps: Seq<Seq<char>>, done: Set<Seq<char>>, x: Seq<char>)
    requires
        ps.no_duplicates(),
        !done.contains(x),
    ensures
        pending(ps, done.insert(x)) == pending(ps, done) - (if ps.contains(x) {
            1int
        } else {
            0
        }),
    decreases ps.len(),
{
    if ps.len() > 0 {
        let before = ps.drop_last();
        let l = ps.last();
        assert(before.no_duplicates()) by {
            assert forall|i: int, j: int|
                0 <= i < before.len() && 0 <= j < before.len() && i != j implies before[i]
                != before[j] by {
                assert(ps[i] != ps[j]);
            }
        }
        lemma_pending_step(before, done, x);
        assert(ps.contains(x) <==> before.contains(x) || x == l) by {
            if ps.contains(x) {
                let i = choose|i: int| 0 <= i < ps.len() && ps[i] == x;
                if i < before.len() {
                    assert(before[i] == x);
                }
            }
            if before.contains(x) {
                let i = choose|i: int| 0 <= i < before.len() && before[i] == x;
                assert(ps[i] == x);
            }
            assert(ps[ps.len() - 1] == l);
        }
        assert(!(before.contains(l))) by {
            if before.contains(l) {
                let i = choose|i: int| 0 <= i < before.len() && before[i] == l;
                assert(ps[i] == ps[ps.len() - 1]);
            }
        }
    }
}

/// What releasing the children of `cur` among `keys` does.
pub open spec fn released(
    parents: Graph,
    keys: Seq<Seq<char>>,
    cur: Seq<char>,
    st: Placing,
    r: Placing,
) -> bool {
    &&& r.waits.dom() == st.waits.dom()
    &&& r.placed == st.placed
    &&& forall|c: Seq<char>|
        #[trigger] r.waits.contains_key(c) ==> r.waits[c] == (if keys.contains(c)
            && parents[c].contains(cur) && st.waits[c] > 0 {
            (st.waits[c] - 1) as usize
        } else {
            st.waits[c]
        })
    &&& st.queue.len() <= r.queue.len()
    &&& r.queue.take(st.queue.len() as int) == st.queue
    &&& forall|i: int|
        st.queue.len() <= i < r.queue.len() ==> keys.contains(#[trigger] r.queue[i])
            && r.waits.contains_key(r.queue[i]) && st.waits[r.queue[i]] > 0
            && r.waits[r.queue[i]] == 0
    &&& forall|i: int, j: int|
        st.queue.len() <= i < j < r.queue.len() ==> #[trigger] r.queue[i] != #[trigger] r.queue[j]
}

proof fn lemma_released(parents: Graph, keys: Seq<Seq<char>>, cur: Seq<char>, st: Placing)
    requires
        keys.no_duplicates(),
    ensures
        released(parents, keys, cur, st, release(parents, keys, cur, st)),
    decreases keys.len(),
{
    let r = release(parents, keys, cur, st);
    if keys.len() == 0 {
        assert(r.queue.take(st.queue.len() as int) =~= st.queue);
    } else {
        let firsts = keys.drop_last();
        let c = keys.last();
        assert(firsts.no_duplicates()) by {
            assert forall|i: int, j: int|
                0 <= i < firsts.len() && 0 <= j < firsts.len() && i != j implies firsts[i]
                != firsts[j] by {
                assert(keys[i] != keys[j]);
            }
        }
        lemma_released(parents, firsts, cur, st);
        let before = release(parents, firsts, cur, st);
        assert(!firsts.contains(c)) by {
            if firsts.contains(c) {
                let i = choose|i: int| 0 <= i < firsts.len() && firsts[i] == c;
                assert(keys[i] == keys[keys.len() - 1]);
            }
        }
        assert forall|x: Seq<char>| keys.contains(x) <==> firsts.contains(x) || x == c by {
            if keys.contains(x) {
                let i = choose|i: int| 0 <= i < keys.len() && keys[i] == x;
                if i < firsts.len() {
                    assert(firsts[i] == x);
                }
            }
            if firsts.contains(x) {
                let i = choose|i: int| 0 <= i < firsts.len() && firsts[i] == x;
                assert(keys[i] == x);
            }
            assert(keys[keys.len() - 1] == c);
        }
        assert(r.waits.dom() =~= st.waits.dom());
        assert(r.queue.take(st.queue.len() as int) =~= st.queue) by {
            assert(before.queue.take(st.queue.len() as int) =~= st.queue);
            assert forall|i: int| 0 <= i < st.queue.len() implies r.queue[i] == st.queue[i] by {
                assert(before.queue.take(st.queue.len() as int)[i] == before.queue[i]);
            }
        }
        assert forall|i: int| st.queue.len() <= i < r.queue.len() implies keys.contains(
            #[trigger] r.queue[i],
        ) && r.waits.contains_key(r.queue[i]) && st.waits[r.queue[i]] > 0 && r.waits[r.queue[i]]
            == 0 by {
            if i < before.queue.len() {
                assert(r.queue[i] == before.queue[i]);
                assert(firsts.contains(before.queue[i]));
            }
        }
        assert forall|i: int, j: int|
            st.queue.len() <= i < j < r.queue.len() implies #[trigger] r.queue[i]
            != #[trigger] r.queue[j] by {
            if j < before.queue.len() {
                assert(before.queue[i] != before.queue[j]);
            } else {
                assert(firsts.contains(before.queue[i]));
            }
        }
    }
}

/// What holds between two placements.
pub open spec fn in_step(parents: Graph, st: Placing) -> bool {
    let done = st.queue.take(st.placed as int).to_set();
    &&& st.placed <= st.queue.len()
    &&& st.waits.dom() == nodes(parents)
    &&& st.queue.no_duplicates()
    &&& forall|i: int|
        0 <= i < st.queue.len() ==> st.waits.contains_key(#[trigger] st.queue[i])
            && st.waits[st.queue[i]] == 0
    &&& forall|c: Seq<char>|
        #[trigger] st.waits.contains_key(c) ==> st.waits[c] == pending(noted(parents, c), done)
    &&& forall|i: int, p: Seq<char>|
        0 <= i < st.queue.len() && #[trigger] noted(parents, st.queue[i]).contains(p)
            ==> st.queue.take(i).contains(p)
}

/// Each entity lists a parent at most once, and no list is beyond counting.
pub open spec fn plain_parents(parents: Graph) -> bool {
    &&& parents.dom().finite()
    &&& forall|c: Seq<char>|
        #[trigger] parents.contains_key(c) ==> parents[c].no_duplicates() && parents[c].len()
            <= usize::MAX
}

pub proof fn lemma_nodes_finite(parents: Graph, keys: Seq<Seq<char>>)
    ensures
        nodes_among(parents, keys).finite(),
        forall|i: int| 0 <= i < keys.len() ==> nodes_among(parents, keys).contains(#[trigger] keys[i]),
        forall|i: int, p: Seq<char>|
            0 <= i < keys.len() && parents[#[trigger] keys[i]].contains(p) ==> #[trigger] nodes_among(
                parents,
                keys,
            ).contains(p),
    decreases keys.len(),
{
    if keys.len() > 0 {
        lemma_nodes_finite(parents, keys.drop_last());
        vstd::seq_lib::seq_to_set_is_finite(parents[keys.last()]);
        let n0 = nodes_among(parents, keys.drop_last());
        assert forall|i: int| 0 <= i < keys.len() implies nodes_among(parents, keys).contains(
            #[trigger] keys[i],
        ) by {
            if i < keys.len() - 1 {
                assert(n0.contains(keys.drop_last()[i]));
            }
        }
        assert forall|i: int, p: Seq<char>|
            0 <= i < keys.len() && parents[#[trigger] keys[i]].contains(p) implies #[trigger] nodes_among(
            parents,
            keys,
        ).contains(p) by {
            if i < keys.len() - 1 {
                assert(keys.drop_last()[i] == keys[i]);
                assert(n0.contains(p));
            } else {
                assert(parents[keys.last()].to_set().contains(p));
            }
        }
    }
}

proof fn lemma_ready(waits: Map<Seq<char>, usize>, keys: Seq<Seq<char>>)
    ensures
        forall|i: int|
            0 <= i < ready(waits, keys).len() ==> keys.contains(#[trigger] ready(waits, keys)[i])
                && waits[ready(waits, keys)[i]] == 0,
        keys.no_duplicates() ==> ready(waits, keys).no_duplicates(),
    decreases keys.len(),
{
    if keys.len() > 0 {
        let firsts = keys.drop_last();
        lemma_ready(waits, firsts);
        let r0 = ready(waits, firsts);
        let r = ready(waits, keys);
        assert forall|i: int| 0 <= i < r.len() implies keys.contains(#[trigger] r[i])
            && waits[r[i]] == 0 by {
            if i < r0.len() {
                assert(r[i] == r0[i]);
                let j = choose|j: int| 0 <= j < firsts.len() && firsts[j] == r0[i];
                assert(keys[j] == r[i]);
            } else {
                assert(keys[keys.len() - 1] == r[i]);
            }
        }
        if keys.no_duplicates() {
            assert(firsts.no_duplicates()) by {
                assert forall|i: int, j: int|
                    0 <= i < firsts.len() && 0 <= j < firsts.len() && i != j implies firsts[i]
                    != firsts[j] by {
                    assert(keys[i] != keys[j]);
                }
            }
            assert forall|i: int, j: int| 0 <= i < r.len() && 0 <= j < r.len() && i != j implies r[i]
                != r[j] by {
                if i == r0.len() {
                    let k = choose|k: int| 0 <= k < firsts.len() && firsts[k] == r0[j];
                    assert(keys[k] != keys[keys.len() - 1]);
                } else if j == r0.len() {
                    let k = choose|k: int| 0 <= k < firsts.len() && firsts[k] == r0[i];
                    assert(keys[k] != keys[keys.len() - 1]);
                }
            }
        }
    }
}

proof fn lemma_ordered_distinct(s: Set<Seq<char>>)
    requires
        s.finite(),
    ensures
        ordered(s).no_duplicates(),
{
    lemma_ordered(s);
    let o = ordered(s);
    assert forall|i: int, j: int| 0 <= i < o.len() && 0 <= j < o.len() && i != j implies o[i]
        != o[j] by {
        if o[i] == o[j] {
            crate::names::lemma_sorted_distinct(o, i, j);
        }
    }
}

proof fn lemma_start_in_step(parents: Graph)
    requires
        plain_parents(parents),
    ensures
        in_step(parents, placing_start(parents)),
{
    let st = placing_start(parents);
    let ns = nodes(parents);
    lemma_ordered(parents.dom());
    lemma_nodes_finite(parents, ordered(parents.dom()));
    lemma_ordered(ns);
    lemma_ordered_distinct(ns);
    lemma_ready(st.waits, ordered(ns));
    assert(st.waits.dom() =~= ns);
    let done = st.queue.take(0).to_set();
    assert(done =~= Set::empty());
    assert forall|c: Seq<char>| #[trigger] st.waits.contains_key(c) implies st.waits[c] == pending(
        noted(parents, c),
        done,
    ) by {
        lemma_unseen_none(noted(parents, c));
    }
    assert forall|i: int| 0 <= i < st.queue.len() implies st.waits.contains_key(
        #[trigger] st.queue[i],
    ) && st.waits[st.queue[i]] == 0 by {
        assert(ordered(ns).contains(st.queue[i]));
    }
    assert forall|i: int, p: Seq<char>|
        0 <= i < st.queue.len() && #[trigger] noted(parents, st.queue[i]).contains(p) implies
        st.queue.take(i).contains(p) by {
        assert(st.waits[st.queue[i]] == 0);
        assert(noted(parents, st.queue[i]).len() == 0);
    }
}

proof fn lemma_unseen_none(ps: Seq<Seq<char>>)
    ensures
        unseen(ps, Set::empty()) == ps,
    decreases ps.len(),
{
    if ps.len() > 0 {
        lemma_unseen_none(ps.drop_last());
        assert(ps =~= ps.drop_last().push(ps.last()));
    } else {
        assert(unseen(ps, Set::empty()) =~= ps);
    }
}

proof fn lemma_place_in_step(parents: Graph, st: Placing)
    requires
        plain_parents(parents),
        in_step(parents, st),
    ensures
        in_step(parents, place(parents)(st)),
{
    if st.placed < st.queue.len() {
        let keys = ordered(parents.dom());
        let cur = st.queue[st.placed as int];
        let after = release(parents, keys, cur, st);
        let r = place(parents)(st);
        lemma_ordered(parents.dom());
        lemma_ordered_distinct(parents.dom());
        lemma_released(parents, keys, cur, st);
        let done0 = st.queue.take(st.placed as int).to_set();
        let done1 = r.queue.take(r.placed as int).to_set();
        assert forall|i: int| 0 <= i < st.queue.len() implies r.queue[i] == st.queue[i] by {
            assert(r.queue.take(st.queue.len() as int)[i] == r.queue[i]);
        }
        assert(r.queue.take(r.placed as int) =~= st.queue.take(st.placed as int).push(cur));
        st.queue.take(st.placed as int).lemma_push_to_set_commute(cur);
        assert(done1 =~= done0.insert(cur));
        assert(!done0.contains(cur)) by {
            if st.queue.take(st.placed as int).contains(cur) {
                let i = choose|i: int|
                    0 <= i < st.placed && st.queue.take(st.placed as int)[i] == cur;
                assert(st.queue[i] == st.queue[st.placed as int]);
            }
        }
        assert forall|c: Seq<char>| #[trigger] r.waits.contains_key(c) implies r.waits[c]
            == pending(noted(parents, c), done1) by {
            assert(st.waits.contains_key(c));
            let ps = noted(parents, c);
            if parents.contains_key(c) {
                assert(keys.contains(c));
                lemma_pending_step(ps, done0, cur);
            } else {
                assert(!keys.contains(c));
            }
        }
        assert forall|i: int, j: int|
            0 <= i < r.queue.len() && 0 <= j < r.queue.len() && i != j implies r.queue[i]
            != r.queue[j] by {
            let m = st.queue.len();
            if i < m && j < m {
                assert(st.queue[i] != st.queue[j]);
            } else if i < m {
                assert(st.waits[st.queue[i]] == 0);
                assert(st.waits[r.queue[j]] > 0);
            } else if j < m {
                assert(st.waits[st.queue[j]] == 0);
                assert(st.waits[r.queue[i]] > 0);
            } else if i < j {
                assert(after.queue[i] != after.queue[j]);
            } else {
                assert(after.queue[j] != after.queue[i]);
            }
        }
        assert forall|i: int| 0 <= i < r.queue.len() implies r.waits.contains_key(
            #[trigger] r.queue[i],
        ) && r.waits[r.queue[i]] == 0 by {
            if i < st.queue.len() {
                assert(st.waits.contains_key(st.queue[i]));
                assert(st.waits[st.queue[i]] == 0);
            } else {
                assert(keys.contains(after.queue[i]));
            }
        }
        assert forall|i: int, p: Seq<char>|
            0 <= i < r.queue.len() && #[trigger] noted(parents, r.queue[i]).contains(p) implies
            r.queue.take(i).contains(p) by {
            if i < st.queue.len() {
                assert(noted(parents, st.queue[i]).contains(p));
                assert(r.queue.take(i) =~= st.queue.take(i));
            } else {
                let c = r.queue[i];
                assert(r.waits[c] == 0);
                lemma_unseen(noted(parents, c), done1);
                assert(done1.contains(p)) by {
                    if !done1.contains(p) {
                        assert(unseen(noted(parents, c), done1).contains(p));
                    }
                }
                let k = choose|k: int|
                    0 <= k < r.placed && r.queue.take(r.placed as int)[k] == p;
                assert(r.queue.take(i)[k] == p);
            }
        }
    }
}

proof fn lemma_rounds_in_step(parents: Graph, n: nat)
    requires
        plain_parents(parents),
    ensures
        in_step(parents, rounds(place(parents), placing_start(parents), n)),
    decreases n,
{
    if n == 0 {
        lemma_start_in_step(parents);
    } else {
        lemma_rounds_in_step(parents, (n - 1) as nat);
        lemma_place_in_step(
            parents,
            rounds(place(parents), placing_start(parents), (n - 1) as nat),
        );
    }
}

/// The order lists every name of the graph once.
pub proof fn law_order_is_complete(parents: Graph)
    requires
        plain_parents(parents),
    ensures
        topological(parents).no_duplicates(),
        forall|x: Seq<char>| topological(parents).contains(x) <==> nodes(parents).contains(x),
{
    let n = choose|n: nat| settles(place(parents), placing_start(parents), n);
    lemma_rounds_in_step(parents, n);
    let done = placeable(parents);
    let st = rounds(place(parents), placing_start(parents), n);
    let ns = nodes(parents);
    lemma_ordered(parents.dom());
    lemma_nodes_finite(parents, ordered(parents.dom()));
    lemma_ordered(ns);
    lemma_ordered_distinct(ns);
    lemma_unseen(ordered(ns), done.to_set());
    let rest = unseen(ordered(ns), done.to_set());
    let t = topological(parents);
    assert forall|i: int, j: int| 0 <= i < t.len() && 0 <= j < t.len() && i != j implies t[i]
        != t[j] by {
        if i < done.len() && j < done.len() {
            assert(done[i] != done[j]);
        } else if i < done.len() {
            assert(done.contains(done[i]));
            assert(rest.contains(rest[j - done.len()]));
        } else if j < done.len() {
            assert(done.contains(done[j]));
            assert(rest.contains(rest[i - done.len()]));
        } else {
            assert(rest[i - done.len()] != rest[j - done.len()]);
        }
    }
    assert forall|x: Seq<char>| t.contains(x) <==> ns.contains(x) by {
        if t.contains(x) {
            let i = choose|i: int| 0 <= i < t.len() && t[i] == x;
            if i < done.len() {
                assert(st.waits.contains_key(st.queue[i]));
            } else {
                assert(rest.contains(rest[i - done.len()]));
            }
        }
        if ns.contains(x) {
            if done.contains(x) {
                let i = choose|i: int| 0 <= i < done.len() && done[i] == x;
                assert(t[i] == x);
            } else {
                assert(rest.contains(x));
                let i = choose|i: int| 0 <= i < rest.len() && rest[i] == x;
                assert(t[i + done.len()] == x);
            }
        }
    }
}

/// Whatever could be placed comes after all its parents.
pub proof fn law_parents_come_first(parents: Graph, i: int, p: Seq<char>)
    requires
        plain_parents(parents),
        0 <= i < placeable(parents).len(),
        noted(parents, topological(parents)[i]).contains(p),
    ensures
        topological(parents).take(i).contains(p),
{
    let n = choose|n: nat| settles(place(parents), placing_start(parents), n);
    lemma_rounds_in_step(parents, n);
    let done = placeable(parents);
    assert(topological(parents)[i] == done[i]);
    assert(topological(parents).take(i) =~= done.take(i));
    assert(noted(parents, done[i]).contains(p));
}

/// Whether the names of `q` lead upwards: each has the next one as a parent.
pub open spec fn leads_up(parents: Graph, q: Seq<Seq<char>>) -> bool {
    forall|i: int|
        #![trigger q[i]]
        0 <= i < q.len() - 1 ==> noted(parents, q[i]).contains(q[i + 1])
}

/// Whether no way up leads back to where it started.
pub open spec fn acyclic(parents: Graph) -> bool {
    forall|q: Seq<Seq<char>>| #[trigger]
        leads_up(parents, q) && q.len() >= 2 ==> q[0] != q[q.len() - 1]
}

/// Whether every name that waits for nothing is in the queue.
spec fn all_freed(st: Placing) -> bool {
    forall|c: Seq<char>| #[trigger]
        st.waits.contains_key(c) && st.waits[c] == 0 ==> st.queue.contains(c)
}

proof fn lemma_pushed(q: Seq<Seq<char>>, c: Seq<char>)
    ensures
        q.push(c).contains(c),
        forall|x: Seq<char>| q.contains(x) ==> q.push(c).contains(x),
{
    let r = q.push(c);
    assert(r[q.len() as int] == c);
    assert forall|x: Seq<char>| q.contains(x) implies r.contains(x) by {
        let i = choose|i: int| 0 <= i < q.len() && q[i] == x;
        assert(r[i] == x);
    }
}

proof fn lemma_all_ready(waits: Map<Seq<char>, usize>, keys: Seq<Seq<char>>, c: Seq<char>)
    requires
        keys.contains(c),
        waits[c] == 0,
    ensures
        ready(waits, keys).contains(c),
    decreases keys.len(),
{
    let firsts = keys.drop_last();
    lemma_pushed(ready(waits, firsts), keys.last());
    if c != keys.last() {
        let i = choose|i: int| 0 <= i < keys.len() && keys[i] == c;
        assert(firsts[i] == c);
        lemma_all_ready(waits, firsts, c);
    }
}

proof fn lemma_release_frees(
    parents: Graph,
    keys: Seq<Seq<char>>,
    cur: Seq<char>,
    st: Placing,
)
    requires
        all_freed(st),
    ensures
        all_freed(release(parents, keys, cur, st)),
    decreases keys.len(),
{
    if keys.len() > 0 {
        lemma_release_frees(parents, keys.drop_last(), cur, st);
        let before = release(parents, keys.drop_last(), cur, st);
        lemma_pushed(before.queue, keys.last());
        let after = release(parents, keys, cur, st);
        assert forall|c: Seq<char>| #[trigger]
            after.waits.contains_key(c) && after.waits[c] == 0 implies after.queue.contains(c) by {
            assert(before.waits.contains_key(c));
        }
    }
}

proof fn lemma_rounds_free(parents: Graph, n: nat)
    requires
        plain_parents(parents),
    ensures
        all_freed(rounds(place(parents), placing_start(parents), n)),
    decreases n,
{
    if n == 0 {
        let ns = nodes(parents);
        let st = placing_start(parents);
        lemma_ordered(parents.dom());
        lemma_nodes_finite(parents, ordered(parents.dom()));
        lemma_ordered(ns);
        assert forall|c: Seq<char>| #[trigger]
            st.waits.contains_key(c) && st.waits[c] == 0 implies st.queue.contains(c) by {
            assert(ordered(ns).contains(c));
            lemma_all_ready(st.waits, ordered(ns), c);
        }
    } else {
        lemma_rounds_free(parents, (n - 1) as nat);
        let st = rounds(place(parents), placing_start(parents), (n - 1) as nat);
        if st.placed < st.queue.len() {
            let keys = ordered(parents.dom());
            let cur = st.queue[st.placed as int];
            lemma_release_frees(parents, keys, cur, st);
            let after = release(parents, keys, cur, st);
            let r = rounds(place(parents), placing_start(parents), n);
            assert forall|c: Seq<char>| #[trigger]
                r.waits.contains_key(c) && r.waits[c] == 0 implies r.queue.contains(c) by {
                assert(after.waits.contains_key(c));
            }
        }
    }
}

/// Placing comes to an end.
proof fn lemma_placing_settles(parents: Graph, n: nat) -> (m: nat)
    requires
        plain_parents(parents),
    ensures
        settles(place(parents), placing_start(parents), m),
    decreases
            waiting(rounds(place(parents), placing_start(parents), n).waits).len() + rounds(
                place(parents),
                placing_start(parents),
                n,
            ).queue.len() - rounds(place(parents), placing_start(parents), n).placed,
{
    let f = place(parents);
    let start = placing_start(parents);
    let st = rounds(f, start, n);
    lemma_ordered(parents.dom());
    lemma_nodes_finite(parents, ordered(parents.dom()));
    lemma_rounds_in_step(parents, n);
    if st.placed < st.queue.len() {
        lemma_rounds_in_step(parents, n + 1);
        lemma_release_counts(
            parents,
            ordered(parents.dom()),
            st.queue[st.placed as int],
            st,
        );
        assert(rounds(f, start, n + 1) == f(st));
        lemma_placing_settles(parents, n + 1)
    } else {
        assert(f(st) == st);
        n
    }
}

/// A name that is left over has a parent that is left over.
proof fn lemma_left_over_above(parents: Graph, c: Seq<char>) -> (p: Seq<char>)
    requires
        plain_parents(parents),
        nodes(parents).contains(c),
        !placeable(parents).contains(c),
    ensures
        noted(parents, c).contains(p),
        nodes(parents).contains(p),
        !placeable(parents).contains(p),
{
    let f = place(parents);
    let start = placing_start(parents);
    let n = lemma_placing_settles(parents, 0);
    lemma_settled(f, start, n);
    lemma_rounds_in_step(parents, n);
    lemma_rounds_free(parents, n);
    let st = rounds(f, start, n);
    assert(st.placed == st.queue.len()) by {
        if st.placed < st.queue.len() {
            assert(f(st).placed == st.placed + 1) by {
                lemma_ordered(parents.dom());
                lemma_nodes_finite(parents, ordered(parents.dom()));
            }
        }
    }
    let done = st.queue.take(st.placed as int);
    assert(done =~= st.queue);
    let ps = noted(parents, c);
    assert(st.waits.contains_key(c));
    assert(st.waits[c] == pending(ps, done.to_set()));
    let rest = unseen(ps, done.to_set());
    assert(rest.len() > 0);
    let p = rest[0];
    assert(rest.contains(p));
    lemma_unseen(ps, done.to_set());
    assert(!done.contains(p)) by {
        assert(done.to_set().contains(p) == done.contains(p));
    }
    let keys = ordered(parents.dom());
    lemma_ordered(parents.dom());
    lemma_nodes_finite(parents, keys);
    assert(keys.contains(c));
    let i = choose|i: int| 0 <= i < keys.len() && keys[i] == c;
    assert(parents[keys[i]].contains(p));
    p
}

/// From a name that is left over the way leads up over such names, as far as
/// one likes.
proof fn lemma_left_over_way(parents: Graph, c: Seq<char>, n: nat) -> (q: Seq<Seq<char>>)
    requires
        plain_parents(parents),
        nodes(parents).contains(c),
        !placeable(parents).contains(c),
    ensures
        q.len() == n + 1,
        q[0] == c,
        leads_up(parents, q),
        forall|i: int| 0 <= i < q.len() ==> nodes(parents).contains(#[trigger] q[i]),
    decreases n,
{
    if n == 0 {
        seq![c]
    } else {
        let p = lemma_left_over_above(parents, c);
        let rest = lemma_left_over_way(parents, p, (n - 1) as nat);
        let q = seq![c] + rest;
        assert forall|i: int|
            #![trigger q[i]]
            0 <= i < q.len() - 1 implies noted(parents, q[i]).contains(q[i + 1]) by {
            if i > 0 {
                assert(q[i] == rest[i - 1]);
                assert(q[i + 1] == rest[i]);
            } else {
                assert(q[1] == rest[0]);
            }
        }
        assert forall|i: int| 0 <= i < q.len() implies nodes(parents).contains(
            #[trigger] q[i],
        ) by {
            if i > 0 {
                assert(q[i] == rest[i - 1]);
            }
        }
        q
    }
}

/// Without a cycle no name is left over, and no warning is given.
pub proof fn law_without_cycles_all_are_placed(parents: Graph)
    requires
        plain_parents(parents),
        acyclic(parents),
    ensures
        left_over(parents) == Seq::<Seq<char>>::empty(),
        topological(parents) == placeable(parents),
        forall|x: Seq<char>| nodes(parents).contains(x) ==> placeable(parents).contains(x),
        cycle_warning(parents) is None,
{
    let ns = nodes(parents);
    lemma_ordered(parents.dom());
    lemma_nodes_finite(parents, ordered(parents.dom()));
    assert forall|x: Seq<char>| ns.contains(x) implies placeable(parents).contains(x) by {
        if !placeable(parents).contains(x) {
            let q = lemma_left_over_way(parents, x, ns.len());
            assert(!q.no_duplicates()) by {
                if q.no_duplicates() {
                    q.unique_seq_to_set();
                    assert(q.to_set().subset_of(ns));
                    vstd::set_lib::lemma_len_subset(q.to_set(), ns);
                }
            }
            let (i, j) = choose|i: int, j: int|
                0 <= i < q.len() && 0 <= j < q.len() && i != j && q[i] == q[j];
            let (a, b) = if i < j {
                (i, j)
            } else {
                (j, i)
            };
            let way = q.subrange(a, b + 1);
            assert forall|k: int|
                #![trigger way[k]]
                0 <= k < way.len() - 1 implies noted(parents, way[k]).contains(way[k + 1]) by {
                assert(way[k] == q[a + k]);
                assert(way[k + 1] == q[a + k + 1]);
            }
            assert(leads_up(parents, way));
        }
    }
    lemma_ordered(ns);
    lemma_unseen(ordered(ns), placeable(parents).to_set());
    let rest = left_over(parents);
    if rest.len() > 0 {
        let x = rest[0];
        assert(rest.contains(x));
        assert(placeable(parents).to_set().contains(x) == placeable(parents).contains(x));
        assert(ordered(ns).contains(x));
        assert(ns.contains(x));
    }
    assert(rest =~= Seq::empty());
    assert(topological(parents) =~= placeable(parents));
}

/// Without a cycle every parent stands before each of its children.
pub proof fn law_every_parent_comes_first(parents: Graph, i: int, p: Seq<char>)
    requires
        plain_parents(parents),
        acyclic(parents),
        0 <= i < topological(parents).len(),
        noted(parents, topological(parents)[i]).contains(p),
    ensures
        topological(parents).take(i).contains(p),
{
    law_without_cycles_all_are_placed(parents);
    law_parents_come_first(parents, i, p);
}

proof fn lemma_way_goes_back(parents: Graph, q: Seq<Seq<char>>, k: int, at: int)
    requires
        plain_parents(parents),
        leads_up(parents, q),
        0 <= k < q.len(),
        0 <= at < placeable(parents).len(),
        placeable(parents)[at] == q[0],
        k > 0,
    ensures
        placeable(parents).take(at).contains(q[k]),
    decreases k,
{
    let done = placeable(parents);
    if k == 1 {
        assert(noted(parents, q[0]).contains(q[0int + 1]));
        lemma_placed_after_parents(parents, at, q[1]);
    } else {
        lemma_way_goes_back(parents, q, k - 1, at);
        let j = choose|j: int| 0 <= j < at && done.take(at)[j] == q[k - 1];
        assert(noted(parents, q[k - 1]).contains(q[k - 1 + 1]));
        lemma_placed_after_parents(parents, j, q[k]);
        let h = choose|h: int| 0 <= h < j && done.take(j)[h] == q[k];
        assert(done.take(at)[h] == q[k]);
    }
}

/// A name is placed after all its parents.
proof fn lemma_placed_after_parents(parents: Graph, i: int, p: Seq<char>)
    requires
        plain_parents(parents),
        0 <= i < placeable(parents).len(),
        noted(parents, placeable(parents)[i]).contains(p),
    ensures
        placeable(parents).take(i).contains(p),
{
    let done = placeable(parents);
    assert(topological(parents)[i] == done[i]);
    law_parents_come_first(parents, i, p);
    assert(topological(parents).take(i) =~= done.take(i));
}

/// The names of a cycle are left over, and a warning is given.
pub proof fn law_cycles_are_left_over(parents: Graph, q: Seq<Seq<char>>)
    requires
        plain_parents(parents),
        leads_up(parents, q),
        q.len() >= 2,
        q[0] == q[q.len() - 1],
    ensures
        left_over(parents).contains(q[0]),
        cycle_warning(parents) is Some,
{
    let done = placeable(parents);
    let n = choose|n: nat| settles(place(parents), placing_start(parents), n);
    lemma_rounds_in_step(parents, n);
    if done.contains(q[0]) {
        let at = choose|at: int| 0 <= at < done.len() && done[at] == q[0];
        lemma_way_goes_back(parents, q, q.len() - 1, at);
        let h = choose|h: int| 0 <= h < at && done.take(at)[h] == q[0];
        assert(done[h] == done[at]);
    }
    let ns = nodes(parents);
    let keys = ordered(parents.dom());
    lemma_ordered(parents.dom());
    lemma_nodes_finite(parents, keys);
    lemma_ordered(ns);
    assert(noted(parents, q[0]).contains(q[0int + 1]));
    assert(keys.contains(q[0]));
    assert(ns.contains(q[0]));
    lemma_unseen(ordered(ns), done.to_set());
    assert(done.to_set().contains(q[0]) == done.contains(q[0]));
    assert(ordered(ns).contains(q[0]));
    assert(left_over(parents).contains(q[0]));
}

// ---------------------------------------------------------------------
// Laws of descendants and ancestors
// ---------------------------------------------------------------------

/// Whether `a` is a proper ancestor of `x`, and `x` a proper descendant of `a`.
pub open spec fn above(parents: Graph, x: Seq<char>, a: Seq<char>) -> bool {
    reachable(parents, noted(parents, x), a)
}

/// A parent is an ancestor.
pub proof fn lemma_parent_above(parents: Graph, x: Seq<char>, p: Seq<char>)
    requires
        noted(parents, x).contains(p),
    ensures
        above(parents, x, p),
{
    assert(reached(parents, noted(parents, x), p, 0));
}

/// An ancestor of an ancestor is an ancestor.
pub proof fn lemma_above_through(parents: Graph, x: Seq<char>, a: Seq<char>, b: Seq<char>)
    requires
        above(parents, x, a),
        above(parents, a, b),
    ensures
        above(parents, x, b),
{
    let m = choose|m: nat| reached(parents, noted(parents, a), b, m);
    assert(parents.contains_key(a)) by {
        if m == 0 {
            assert(noted(parents, a).contains(b));
        }
    }
    lemma_reach_through(parents, noted(parents, x), a, b);
}

proof fn lemma_note_child(
    idx: Graph,
    ps: Seq<Seq<char>>,
    c: Seq<char>,
    p: Seq<char>,
    x: Seq<char>,
)
    ensures
        noted(note_child(idx, ps, c), p).contains(x) <==> noted(idx, p).contains(x) || (x == c
            && ps.contains(p)),
    decreases ps.len(),
{
    if ps.len() > 0 {
        let firsts = ps.drop_last();
        let before = note_child(idx, firsts, c);
        lemma_note_child(idx, firsts, c, p, x);
        if ps.contains(p) {
            let i = choose|i: int| 0 <= i < ps.len() && ps[i] == p;
            if i < firsts.len() {
                assert(firsts[i] == p);
            }
        }
        if firsts.contains(p) {
            let i = choose|i: int| 0 <= i < firsts.len() && firsts[i] == p;
            assert(ps[i] == p);
        }
        assert(ps[ps.len() - 1] == ps.last());
        if p == ps.last() {
            let q = noted(before, p);
            lemma_pushed(q, c);
            if q.push(c).contains(x) {
                let i = choose|i: int| 0 <= i < q.push(c).len() && q.push(c)[i] == x;
                if i < q.len() {
                    assert(q[i] == x);
                }
            }
        }
    }
}

proof fn lemma_children_among(parents: Graph, keys: Seq<Seq<char>>, p: Seq<char>, x: Seq<char>)
    ensures
        noted(children_among(parents, keys), p).contains(x) <==> keys.contains(x)
            && parents[x].contains(p),
    decreases keys.len(),
{
    if keys.len() > 0 {
        let firsts = keys.drop_last();
        lemma_children_among(parents, firsts, p, x);
        lemma_note_child(children_among(parents, firsts), parents[keys.last()], keys.last(), p, x);
        if keys.contains(x) {
            let i = choose|i: int| 0 <= i < keys.len() && keys[i] == x;
            if i < firsts.len() {
                assert(firsts[i] == x);
            }
        }
        if firsts.contains(x) {
            let i = choose|i: int| 0 <= i < firsts.len() && firsts[i] == x;
            assert(keys[i] == x);
        }
        assert(keys[keys.len() - 1] == keys.last());
    }
}

/// The index lists a name among the children of another just where it has that
/// other one as a parent.
pub proof fn law_children_mirror_parents(parents: Graph, p: Seq<char>, c: Seq<char>)
    requires
        parents.dom().finite(),
    ensures
        noted(descendant_index(parents), p).contains(c) <==> noted(parents, c).contains(p),
{
    lemma_ordered(parents.dom());
    lemma_children_among(parents, ordered(parents.dom()), p, c);
}

proof fn lemma_ancestors_come_first(parents: Graph, i: int, a: Seq<char>, n: nat)
    requires
        plain_parents(parents),
        acyclic(parents),
        0 <= i < topological(parents).len(),
        reached(parents, noted(parents, topological(parents)[i]), a, n),
    ensures
        topological(parents).take(i).contains(a),
    decreases n,
{
    let order = topological(parents);
    if n == 0 {
        law_every_parent_comes_first(parents, i, a);
    } else {
        let ps = noted(parents, order[i]);
        let p = choose|p: Seq<char>|
            #[trigger] ps.contains(p) && parents.contains_key(p) && reached(
                parents,
                parents[p],
                a,
                (n - 1) as nat,
            );
        law_every_parent_comes_first(parents, i, p);
        let j = choose|j: int| 0 <= j < i && order.take(i)[j] == p;
        lemma_ancestors_come_first(parents, j, a, (n - 1) as nat);
        let h = choose|h: int| 0 <= h < j && order.take(j)[h] == a;
        assert(order.take(i)[h] == a);
    }
}

/// Without a cycle every ancestor stands before each of its descendants.
pub proof fn law_every_ancestor_comes_first(parents: Graph, i: int, a: Seq<char>)
    requires
        plain_parents(parents),
        acyclic(parents),
        0 <= i < topological(parents).len(),
        above(parents, topological(parents)[i], a),
    ensures
        topological(parents).take(i).contains(a),
{
    let n = choose|n: nat| reached(parents, noted(parents, topological(parents)[i]), a, n);
    lemma_ancestors_come_first(parents, i, a, n);
}

/// Whether each of `q` is `e` or one of its ancestors.
spec fn all_up_from(parents: Graph, e: Seq<char>, q: Seq<Seq<char>>) -> bool {
    forall|i: int| 0 <= i < q.len() ==> (#[trigger] q[i]) == e || above(parents, e, q[i])
}

proof fn lemma_ascend_goes_up(
    parents: Graph,
    e: Seq<char>,
    stack: Seq<Seq<char>>,
    seen: Set<Seq<char>>,
    chain: Seq<Seq<char>>,
)
    requires
        parents.dom().finite(),
        all_up_from(parents, e, stack),
        all_up_from(parents, e, chain),
    ensures
        all_up_from(parents, e, ascend(parents, stack, seen, chain)),
    decreases left(parents, seen), stack.len(),
{
    if stack.len() > 0 {
        let x = stack.last();
        let rest = stack.drop_last();
        assert(stack[stack.len() - 1] == x);
        assert(all_up_from(parents, e, rest)) by {
            assert forall|i: int| 0 <= i < rest.len() implies (#[trigger] rest[i]) == e || above(
                parents,
                e,
                rest[i],
            ) by {
                assert(rest[i] == stack[i]);
            }
        }
        if seen.contains(x) {
            lemma_ascend_goes_up(parents, e, rest, seen, chain);
        } else {
            lemma_left(parents, seen, x);
            let now = seen.insert(x);
            let ps = unseen(noted(parents, x), now);
            lemma_unseen(noted(parents, x), now);
            assert forall|i: int| 0 <= i < ps.len() implies above(
                parents,
                e,
                #[trigger] ps[i],
            ) by {
                assert(ps.contains(ps[i]));
                lemma_parent_above(parents, x, ps[i]);
                if x != e {
                    lemma_above_through(parents, e, x, ps[i]);
                }
            }
            let stack2 = rest + ps;
            let chain2 = chain + ps;
            assert forall|i: int| 0 <= i < stack2.len() implies (#[trigger] stack2[i]) == e
                || above(parents, e, stack2[i]) by {
                if i < rest.len() {
                    assert(stack2[i] == rest[i]);
                } else {
                    assert(stack2[i] == ps[i - rest.len()]);
                }
            }
            assert forall|i: int| 0 <= i < chain2.len() implies (#[trigger] chain2[i]) == e
                || above(parents, e, chain2[i]) by {
                if i < chain.len() {
                    assert(chain2[i] == chain[i]);
                } else {
                    assert(chain2[i] == ps[i - chain.len()]);
                }
            }
            lemma_ascend_goes_up(parents, e, stack2, now, chain2);
        }
    }
}

/// The way up from a name holds nothing but the name and its ancestors.
pub proof fn law_upward_chain_goes_up(parents: Graph, e: Seq<char>, x: Seq<char>)
    requires
        parents.dom().finite(),
        upward_chain(parents, e).contains(x),
    ensures
        x == e || above(parents, e, x),
{
    lemma_ascend_goes_up(parents, e, seq![e], Set::empty(), seq![e]);
    let q = upward_chain(parents, e);
    let i = choose|i: int| 0 <= i < q.len() && q[i] == x;
    assert(q[i] == e || above(parents, e, q[i]));
}

proof fn lemma_note_child_finite(idx: Graph, ps: Seq<Seq<char>>, c: Seq<char>)
    requires
        idx.dom().finite(),
    ensures
        note_child(idx, ps, c).dom().finite(),
    decreases ps.len(),
{
    if ps.len() > 0 {
        lemma_note_child_finite(idx, ps.drop_last(), c);
    }
}

proof fn lemma_children_finite(parents: Graph, keys: Seq<Seq<char>>)
    ensures
        children_among(parents, keys).dom().finite(),
    decreases keys.len(),
{
    if keys.len() > 0 {
        lemma_children_finite(parents, keys.drop_last());
        lemma_note_child_finite(
            children_among(parents, keys.drop_last()),
            parents[keys.last()],
            keys.last(),
        );
    }
}

proof fn lemma_descend_is_closed(
    idx: Graph,
    stack: Seq<Seq<char>>,
    visited: Set<Seq<char>>,
    out: Seq<Seq<char>>,
)
    requires
        idx.dom().finite(),
        forall|x: Seq<char>, y: Seq<char>|
            visited.contains(x) && #[trigger] noted(idx, x).contains(y) ==> out.contains(y),
        forall|x: Seq<char>| #[trigger]
            out.contains(x) ==> visited.contains(x) || stack.contains(x),
    ensures
        ({
            let r = descend(idx, stack, visited, out);
            &&& forall|x: Seq<char>| #[trigger] out.contains(x) ==> r.contains(x)
            &&& forall|x: Seq<char>, y: Seq<char>|
                (visited.contains(x) || stack.contains(x) || r.contains(x)) && #[trigger] noted(
                    idx,
                    x,
                ).contains(y) ==> r.contains(y)
        }),
    decreases left(idx, visited), stack.len(),
{
    if stack.len() > 0 {
        let x = stack.last();
        let rest = stack.drop_last();
        assert forall|y: Seq<char>| #[trigger] stack.contains(y) implies rest.contains(y) || y
            == x by {
            let i = choose|i: int| 0 <= i < stack.len() && stack[i] == y;
            if i < rest.len() {
                assert(rest[i] == y);
            }
        }
        if visited.contains(x) {
            lemma_descend_is_closed(idx, rest, visited, out);
        } else {
            let kids = noted(idx, x);
            lemma_left(idx, visited, x);
            assert forall|y: Seq<char>| #[trigger] (out + kids).contains(y) <==> out.contains(y)
                || kids.contains(y) by {
                lemma_either(out, kids, y);
            }
            assert forall|y: Seq<char>| #[trigger] (rest + kids).contains(y) <==> rest.contains(y)
                || kids.contains(y) by {
                lemma_either(rest, kids, y);
            }
            if !idx.contains_key(x) {
                assert(rest + kids =~= rest);
            }
            lemma_descend_is_closed(idx, rest + kids, visited.insert(x), out + kids);
            let r = descend(idx, stack, visited, out);
            assert(r == descend(idx, rest + kids, visited.insert(x), out + kids));
            assert forall|z: Seq<char>| #[trigger] out.contains(z) implies r.contains(z) by {
                assert((out + kids).contains(z));
            }
            assert forall|z: Seq<char>, y: Seq<char>|
                (visited.contains(z) || stack.contains(z) || r.contains(z)) && #[trigger] noted(
                    idx,
                    z,
                ).contains(y) implies r.contains(y) by {
                if rest.contains(z) {
                    assert((rest + kids).contains(z));
                }
            }
        }
    }
}

proof fn lemma_either(a: Seq<Seq<char>>, b: Seq<Seq<char>>, y: Seq<char>)
    ensures
        (a + b).contains(y) <==> a.contains(y) || b.contains(y),
{
    let c = a + b;
    if a.contains(y) {
        let i = choose|i: int| 0 <= i < a.len() && a[i] == y;
        assert(c[i] == y);
    }
    if b.contains(y) {
        let i = choose|i: int| 0 <= i < b.len() && b[i] == y;
        assert(c[a.len() + i] == y);
    }
    if c.contains(y) {
        let i = choose|i: int| 0 <= i < c.len() && c[i] == y;
        if i < a.len() {
            assert(a[i] == y);
        } else {
            assert(b[i - a.len()] == y);
        }
    }
}

spec fn all_below(parents: Graph, root: Seq<char>, q: Seq<Seq<char>>) -> bool {
    forall|i: int| 0 <= i < q.len() ==> above(parents, #[trigger] q[i], root)
}

proof fn lemma_descend_goes_down(
    parents: Graph,
    root: Seq<char>,
    stack: Seq<Seq<char>>,
    visited: Set<Seq<char>>,
    out: Seq<Seq<char>>,
)
    requires
        parents.dom().finite(),
        descendant_index(parents).dom().finite(),
        forall|i: int|
            0 <= i < stack.len() ==> #[trigger] stack[i] == root || above(parents, stack[i], root),
        all_below(parents, root, out),
    ensures
        all_below(parents, root, descend(descendant_index(parents), stack, visited, out)),
    decreases left(descendant_index(parents), visited), stack.len(),
{
    let idx = descendant_index(parents);
    if stack.len() > 0 {
        let x = stack.last();
        let rest = stack.drop_last();
        assert(stack[stack.len() - 1] == x);
        assert forall|i: int| 0 <= i < rest.len() implies #[trigger] rest[i] == root || above(
            parents,
            rest[i],
            root,
        ) by {
            assert(rest[i] == stack[i]);
        }
        if visited.contains(x) {
            lemma_descend_goes_down(parents, root, rest, visited, out);
        } else {
            let kids = noted(idx, x);
            lemma_left(idx, visited, x);
            assert forall|i: int| 0 <= i < kids.len() implies above(
                parents,
                #[trigger] kids[i],
                root,
            ) by {
                assert(kids.contains(kids[i]));
                law_children_mirror_parents(parents, x, kids[i]);
                lemma_parent_above(parents, kids[i], x);
                if x != root {
                    lemma_above_through(parents, kids[i], x, root);
                }
            }
            let more = rest + kids;
            assert forall|i: int| 0 <= i < more.len() implies #[trigger] more[i] == root || above(
                parents,
                more[i],
                root,
            ) by {
                if i < rest.len() {
                    assert(more[i] == rest[i]);
                } else {
                    assert(more[i] == kids[i - rest.len()]);
                }
            }
            let found = out + kids;
            assert forall|i: int| 0 <= i < found.len() implies above(
                parents,
                #[trigger] found[i],
                root,
            ) by {
                if i < out.len() {
                    assert(found[i] == out[i]);
                } else {
                    assert(found[i] == kids[i - out.len()]);
                }
            }
            if !idx.contains_key(x) {
                assert(more =~= rest);
            }
            lemma_descend_goes_down(parents, root, more, visited.insert(x), found);
        }
    }
}

proof fn lemma_below_is_found(
    parents: Graph,
    root: Seq<char>,
    r: Seq<Seq<char>>,
    x: Seq<char>,
    n: nat,
)
    requires
        parents.dom().finite(),
        forall|z: Seq<char>, y: Seq<char>|
            (z == root || r.contains(z)) && #[trigger] noted(
                descendant_index(parents),
                z,
            ).contains(y) ==> r.contains(y),
        reached(parents, noted(parents, x), root, n),
    ensures
        r.contains(x),
    decreases n,
{
    if n == 0 {
        law_children_mirror_parents(parents, root, x);
        assert(noted(descendant_index(parents), root).contains(x));
    } else {
        let p = choose|p: Seq<char>|
            #[trigger] noted(parents, x).contains(p) && parents.contains_key(p) && reached(
                parents,
                parents[p],
                root,
                (n - 1) as nat,
            );
        lemma_below_is_found(parents, root, r, p, (n - 1) as nat);
        law_children_mirror_parents(parents, p, x);
        assert(noted(descendant_index(parents), p).contains(x));
    }
}

/// The descendants of an entity are all those that it is an ancestor of.
pub proof fn law_descendants_are_all_below(parents: Graph, root: Seq<char>, x: Seq<char>)
    requires
        parents.dom().finite(),
    ensures
        descendants_of(descendant_index(parents), root).contains(x) <==> above(parents, x, root),
{
    let idx = descendant_index(parents);
    lemma_children_finite(parents, ordered(parents.dom()));
    let r = descendants_of(idx, root);
    let stack = seq![root];
    assert(stack[0] == root);
    lemma_descend_is_closed(idx, stack, Set::empty(), seq![]);
    lemma_descend_goes_down(parents, root, stack, Set::empty(), seq![]);
    if r.contains(x) {
        let i = choose|i: int| 0 <= i < r.len() && r[i] == x;
        assert(above(parents, r[i], root));
    }
    if above(parents, x, root) {
        let n = choose|n: nat| reached(parents, noted(parents, x), root, n);
        assert(stack.contains(root));
        lemma_below_is_found(parents, root, r, x, n);
    }
}

proof fn lemma_ascend_is_closed(
    parents: Graph,
    stack: Seq<Seq<char>>,
    seen: Set<Seq<char>>,
    chain: Seq<Seq<char>>,
)
    requires
        parents.dom().finite(),
        forall|x: Seq<char>, y: Seq<char>|
            seen.contains(x) && #[trigger] noted(parents, x).contains(y) ==> chain.contains(y)
                || seen.contains(y),
        forall|x: Seq<char>| #[trigger] seen.contains(x) ==> chain.contains(x),
        forall|x: Seq<char>| #[trigger] stack.contains(x) ==> chain.contains(x),
        forall|x: Seq<char>| #[trigger]
            chain.contains(x) ==> seen.contains(x) || stack.contains(x),
    ensures
        ({
            let r = ascend(parents, stack, seen, chain);
            &&& forall|x: Seq<char>| #[trigger] chain.contains(x) ==> r.contains(x)
            &&& forall|x: Seq<char>, y: Seq<char>|
                (seen.contains(x) || stack.contains(x) || r.contains(x)) && #[trigger] noted(
                    parents,
                    x,
                ).contains(y) ==> r.contains(y)
        }),
    decreases left(parents, seen), stack.len(),
{
    if stack.len() > 0 {
        let x = stack.last();
        let rest = stack.drop_last();
        assert forall|y: Seq<char>| #[trigger] stack.contains(y) implies rest.contains(y) || y
            == x by {
            let i = choose|i: int| 0 <= i < stack.len() && stack[i] == y;
            if i < rest.len() {
                assert(rest[i] == y);
            }
        }
        assert forall|y: Seq<char>| #[trigger] rest.contains(y) implies chain.contains(y) by {
            let i = choose|i: int| 0 <= i < rest.len() && rest[i] == y;
            assert(stack[i] == y);
            assert(stack.contains(y));
        }
        if seen.contains(x) {
            lemma_ascend_is_closed(parents, rest, seen, chain);
        } else {
            let now = seen.insert(x);
            let ps = unseen(noted(parents, x), now);
            lemma_unseen(noted(parents, x), now);
            lemma_left(parents, seen, x);
            assert forall|y: Seq<char>| #[trigger] (chain + ps).contains(y) <==> chain.contains(y)
                || ps.contains(y) by {
                lemma_either(chain, ps, y);
            }
            assert forall|y: Seq<char>| #[trigger] (rest + ps).contains(y) <==> rest.contains(y)
                || ps.contains(y) by {
                lemma_either(rest, ps, y);
            }
            if !parents.contains_key(x) {
                assert(rest + ps =~= rest);
            }
            assert(stack[stack.len() - 1] == x);
            assert(stack.contains(x));
            lemma_ascend_is_closed(parents, rest + ps, now, chain + ps);
            let r = ascend(parents, stack, seen, chain);
            assert(r == ascend(parents, rest + ps, now, chain + ps));
            assert forall|z: Seq<char>| #[trigger] chain.contains(z) implies r.contains(z) by {
                assert((chain + ps).contains(z));
            }
            assert forall|z: Seq<char>, y: Seq<char>|
                (seen.contains(z) || stack.contains(z) || r.contains(z)) && #[trigger] noted(
                    parents,
                    z,
                ).contains(y) implies r.contains(y) by {
                if rest.contains(z) {
                    assert((rest + ps).contains(z));
                }
            }
        }
    }
}

/// The chain upward from an entity starts with it and holds all its ancestors.
pub proof fn law_upward_chain_is_complete(parents: Graph, e: Seq<char>, x: Seq<char>)
    requires
        parents.dom().finite(),
    ensures
        upward_chain(parents, e).contains(x) <==> x == e || above(parents, e, x),
{
    let r = upward_chain(parents, e);
    let start = seq![e];
    assert(start[0] == e);
    assert(start.contains(e));
    lemma_ascend_is_closed(parents, start, Set::empty(), start);
    if r.contains(x) {
        law_upward_chain_goes_up(parents, e, x);
    }
    assert(r.contains(e));
    if above(parents, e, x) {
        let n = choose|n: nat| reached(parents, noted(parents, e), x, n);
        let s = r.to_set();
        assert forall|q: Seq<char>| noted(parents, e).contains(q) implies s.contains(q) by {}
        assert forall|y: Seq<char>, p: Seq<char>|
            s.contains(y) && parents.contains_key(y) && #[trigger] parents[y].contains(
                p,
            ) implies s.contains(p) by {
            assert(noted(parents, y).contains(p));
        }
        lemma_closed_reaches(parents, noted(parents, e), s, x, n);
    }
}

proof fn lemma_leaves_hand_out_nothing(
    idx: Graph,
    stack: Seq<Seq<char>>,
    visited: Set<Seq<char>>,
    out: Seq<Seq<char>>,
)
    requires
        idx.dom().finite(),
        forall|i: int| 0 <= i < stack.len() ==> noted(idx, #[trigger] stack[i]).len() == 0,
    ensures
        descend(idx, stack, visited, out) == out,
    decreases left(idx, visited), stack.len(),
{
    if stack.len() > 0 {
        let x = stack.last();
        let rest = stack.drop_last();
        assert(stack[stack.len() - 1] == x);
        assert forall|i: int| 0 <= i < rest.len() implies noted(idx, #[trigger] rest[i]).len()
            == 0 by {
            assert(rest[i] == stack[i]);
        }
        assert(rest + noted(idx, x) =~= rest);
        assert(out + noted(idx, x) =~= out);
        if visited.contains(x) {
            lemma_leaves_hand_out_nothing(idx, rest, visited, out);
        } else {
            lemma_left(idx, visited, x);
            lemma_leaves_hand_out_nothing(idx, rest, visited.insert(x), out);
        }
    }
}

/// The descendants of a name whose children have none are its children, in order.
pub proof fn law_descendants_of_a_flat_root(idx: Graph, root: Seq<char>)
    requires
        idx.dom().finite(),
        forall|i: int|
            0 <= i < noted(idx, root).len() ==> noted(idx, #[trigger] noted(idx, root)[i]).len()
                == 0,
    ensures
        descendants_of(idx, root) == noted(idx, root),
{
    let kids = noted(idx, root);
    let stack = seq![root];
    lemma_left(idx, Set::empty(), root);
    assert(stack.last() == root);
    assert(stack.drop_last() + kids =~= kids);
    assert(seq![] + kids =~= kids);
    lemma_leaves_hand_out_nothing(idx, kids, Set::empty().insert(root), kids);
}

} // verus!
