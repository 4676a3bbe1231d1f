//! The ancestors of an entity in the order in which their attributes are
//! encoded: each parent's own ancestors before the parent, parents from left to
//! right.

use crate::express::{EntityModel, EntitySchema};
use crate::graph::{lemma_closed_reaches, reachable, reached, Graph};
use crate::infer::hierarchy::{left, lemma_left};
use crate::names::{push_item, NameSet, Table};
use vstd::prelude::*;

verus! {

/// What is to be done with a name.
#[derive(Debug)]
pub enum Turn<N> {
    /// Go to its parents first, unless that was done before.
    Enter(N),
    /// Its parents are done.
    Leave(N),
}

impl DeepView for Turn<String> {
    type V = Turn<Seq<char>>;

    open spec fn deep_view(&self) -> Turn<Seq<char>> {
        match self {
            Turn::Enter(n) => Turn::Enter(n@),
            Turn::Leave(n) => Turn::Leave(n@),
        }
    }
}

/// The turns that enter `names`, the first name on top.
pub open spec fn entering(names: Seq<Seq<char>>) -> Seq<Turn<Seq<char>>> {
    Seq::new(names.len(), |i: int| Turn::Enter(names[names.len() - 1 - i]))
}

/// The turns once the declared name `x` on top of `turns` is entered.
pub open spec fn entered(
    g: Graph,
    turns: Seq<Turn<Seq<char>>>,
    x: Seq<char>,
) -> Seq<Turn<Seq<char>>> {
    turns.drop_last().push(Turn::Leave(x)) + entering(g[x])
}

/// The names in the order in which they are left, taking the last turn first.
pub open spec fn lineage_from(
    g: Graph,
    turns: Seq<Turn<Seq<char>>>,
    seen: Set<Seq<char>>,
) -> Seq<Seq<char>>
    decreases left(g, seen), turns.len(),
    when g.dom().finite()
    via lineage_decreases
{
    if turns.len() == 0 {
        seq![]
    } else {
        match turns.last() {
            Turn::Leave(x) => seq![x] + lineage_from(g, turns.drop_last(), seen),
            Turn::Enter(x) => if seen.contains(x) || !g.contains_key(x) {
                lineage_from(g, turns.drop_last(), seen)
            } else {
                lineage_from(g, entered(g, turns, x), seen.insert(x))
            },
        }
    }
}

#[via_fn]
proof fn lineage_decreases(g: Graph, turns: Seq<Turn<Seq<char>>>, seen: Set<Seq<char>>) {
    if turns.len() > 0 {
        match turns.last() {
            Turn::Leave(x) => {},
            Turn::Enter(x) => {
                if !seen.contains(x) {
                    lemma_left(g, seen, x);
                }
            },
        }
    }
}

/// The declared ancestors of an entity with the given parents.
pub open spec fn lineage(g: Graph, parents: Seq<Seq<char>>) -> Seq<Seq<char>> {
    lineage_from(g, entering(parents), Set::empty())
}

/// The parents of each declared entity.
pub open spec fn parent_graph(decls: Map<Seq<char>, EntityModel>) -> Graph {
    decls.map_values(|e: EntityModel| e.parents)
}

fn enter_all(turns: &mut Vec<Turn<String>>, names: &Vec<String>)
    ensures
        final(turns).deep_view() == old(turns).deep_view() + entering(names.deep_view()),
{
    let ghost before = turns.deep_view();
    let ghost all = names.deep_view();
    let n = names.len();
    let mut i: usize = 0;
    assert(before + entering(all).take(0) =~= before);
    while i < n
        invariant
            i <= n,
            n == names@.len(),
            all == names.deep_view(),
            turns.deep_view() == before + entering(all).take(i as int),
        decreases n - i,
    {
        push_item(turns, Turn::Enter(names[n - 1 - i].clone()));
        assert(turns.deep_view() =~= before + entering(all).take(i + 1));
        i += 1;
    }
    assert(entering(all).take(i as int) =~= entering(all));
}

/// Collects the declared ancestors of an entity with the given parents.
pub fn collect_lineage(decls: &Table<EntitySchema>, parents: &Vec<String>) -> (r: Vec<String>)
    ensures
        r.deep_view() == lineage(parent_graph(decls@), parents.deep_view()),
{
    let size = decls.len();
    let ghost g = parent_graph(decls@);
    let mut turns: Vec<Turn<String>> = Vec::new();
    let mut seen = NameSet::new();
    let mut out: Vec<String> = Vec::new();
    let ghost want = lineage(g, parents.deep_view());
    proof {
        assert(g.dom() =~= decls@.dom());
        assert(turns.deep_view() + entering(parents.deep_view()) =~= entering(
            parents.deep_view(),
        ));
    }
    enter_all(&mut turns, parents);
    assert(out.deep_view() + want =~= want);
    while turns.len() > 0
        invariant
            g == parent_graph(decls@),
            g.dom() == decls@.dom(),
            g.dom().finite(),
            out.deep_view() + lineage_from(g, turns.deep_view(), seen@) == want,
        decreases left(g, seen@), turns@.len(),
    {
        let ghost t0 = turns.deep_view();
        let ghost o0 = out.deep_view();
        let turn = turns.pop().unwrap();
        proof {
            assert(turns.deep_view() =~= t0.drop_last());
            assert(turn.deep_view() == t0.last());
        }
        match turn {
            Turn::Leave(x) => {
                push_item(&mut out, x);
                assert(o0 + (seq![x@] + lineage_from(g, t0.drop_last(), seen@)) =~= o0.push(x@)
                    + lineage_from(g, t0.drop_last(), seen@));
            },
            Turn::Enter(x) => {
                if !seen.contains(x.as_str()) {
                    if let Some(e) = decls.get(x.as_str()) {
                        proof {
                            lemma_left(g, seen@, x@);
                            assert(g[x@] == e.parents.deep_view());
                        }
                        seen.insert(x.clone());
                        push_item(&mut turns, Turn::Leave(x));
                        enter_all(&mut turns, &e.parents);
                    }
                }
            },
        }
    }
    assert(out.deep_view() + Seq::<Seq<char>>::empty() =~= out.deep_view());
    out
}

// ---------------------------------------------------------------------
// Laws
// ---------------------------------------------------------------------

/// Every name that is to be left has been seen, and is to be left once.
spec fn leaves_once(turns: Seq<Turn<Seq<char>>>, seen: Set<Seq<char>>) -> bool {
    &&& forall|i: int|
        0 <= i < turns.len() ==> (#[trigger] turns[i] matches Turn::Leave(x) ==> seen.contains(x))
    &&& forall|i: int, j: int|
        0 <= i < j < turns.len() && turns[i] is Leave ==> #[trigger] turns[i] != #[trigger] turns[j]
}

proof fn lemma_entered(g: Graph, turns: Seq<Turn<Seq<char>>>, x: Seq<char>)
    requires
        turns.len() > 0,
    ensures
        entered(g, turns, x).len() == turns.len() + g[x].len(),
        forall|i: int| 0 <= i < turns.len() - 1 ==> #[trigger] entered(g, turns, x)[i] == turns[i],
        entered(g, turns, x)[turns.len() - 1] == Turn::Leave(x),
        forall|i: int|
            turns.len() <= i < entered(g, turns, x).len() ==> (#[trigger] entered(g, turns, x)[i]
                matches Turn::Enter(p) && g[x].contains(p)),
        forall|p: Seq<char>| #[trigger]
            g[x].contains(p) ==> exists|i: int|
                turns.len() <= i < entered(g, turns, x).len() && #[trigger] entered(g, turns, x)[i]
                    == Turn::Enter(p),
{
    let t = entered(g, turns, x);
    let n = g[x].len();
    assert forall|i: int| turns.len() <= i < t.len() implies (#[trigger] t[i] matches Turn::Enter(p)
        && g[x].contains(p)) by {
        let j = n - 1 - (i - turns.len());
        assert(t[i] == Turn::Enter(g[x][j]));
    }
    assert forall|p: Seq<char>| #[trigger] g[x].contains(p) implies exists|i: int|
        turns.len() <= i < t.len() && #[trigger] t[i] == Turn::Enter(p) by {
        let j = choose|j: int| 0 <= j < n && g[x][j] == p;
        let i = turns.len() + (n - 1 - j);
        assert(t[i] == Turn::Enter(p));
    }
}

proof fn lemma_lineage_distinct(g: Graph, turns: Seq<Turn<Seq<char>>>, seen: Set<Seq<char>>)
    requires
        g.dom().finite(),
        leaves_once(turns, seen),
    ensures
        lineage_from(g, turns, seen).no_duplicates(),
        forall|i: int|
            0 <= i < lineage_from(g, turns, seen).len() ==> turns.contains(
                Turn::Leave(#[trigger] lineage_from(g, turns, seen)[i]),
            ) || !seen.contains(lineage_from(g, turns, seen)[i]),
    decreases left(g, seen), turns.len(),
{
    let r = lineage_from(g, turns, seen);
    if turns.len() > 0 {
        let rest = turns.drop_last();
        let last = turns.len() - 1;
        match turns.last() {
            Turn::Leave(x) => {
                assert(leaves_once(rest, seen)) by {
                    assert forall|i: int| 0 <= i < rest.len() implies (#[trigger] rest[i]
                        matches Turn::Leave(y) ==> seen.contains(y)) by {
                        assert(rest[i] == turns[i]);
                    }
                }
                lemma_lineage_distinct(g, rest, seen);
                let q = lineage_from(g, rest, seen);
                assert(!q.contains(x)) by {
                    if q.contains(x) {
                        let i = choose|i: int| 0 <= i < q.len() && q[i] == x;
                        assert(seen.contains(x)) by {
                            assert(turns[last] == Turn::Leave(x));
                        }
                        assert(rest.contains(Turn::Leave(q[i])));
                        let j = choose|j: int| 0 <= j < rest.len() && rest[j] == Turn::Leave(x);
                        assert(turns[j] != turns[last]);
                    }
                }
                assert forall|i: int| 0 <= i < r.len() implies turns.contains(
                    Turn::Leave(#[trigger] r[i]),
                ) || !seen.contains(r[i]) by {
                    if i == 0 {
                        assert(turns[last] == Turn::Leave(r[0]));
                    } else {
                        assert(r[i] == q[i - 1]);
                        if rest.contains(Turn::Leave(q[i - 1])) {
                            let j = choose|j: int|
                                0 <= j < rest.len() && rest[j] == Turn::Leave(q[i - 1]);
                            assert(turns[j] == Turn::Leave(q[i - 1]));
                        }
                    }
                }
                assert forall|i: int, j: int| 0 <= i < r.len() && 0 <= j < r.len() && i
                    != j implies r[i] != r[j] by {
                    if i == 0 {
                        assert(r[j] == q[j - 1]);
                        assert(q.contains(q[j - 1]));
                    } else if j == 0 {
                        assert(r[i] == q[i - 1]);
                        assert(q.contains(q[i - 1]));
                    } else {
                        assert(r[i] == q[i - 1] && r[j] == q[j - 1]);
                    }
                }
            },
            Turn::Enter(x) => {
                if seen.contains(x) || !g.contains_key(x) {
                    assert(leaves_once(rest, seen)) by {
                        assert forall|i: int| 0 <= i < rest.len() implies (#[trigger] rest[i]
                            matches Turn::Leave(y) ==> seen.contains(y)) by {
                            assert(rest[i] == turns[i]);
                        }
                    }
                    lemma_lineage_distinct(g, rest, seen);
                    assert forall|i: int| 0 <= i < r.len() implies turns.contains(
                        Turn::Leave(#[trigger] r[i]),
                    ) || !seen.contains(r[i]) by {
                        if rest.contains(Turn::Leave(r[i])) {
                            let j = choose|j: int|
                                0 <= j < rest.len() && rest[j] == Turn::Leave(r[i]);
                            assert(turns[j] == Turn::Leave(r[i]));
                        }
                    }
                } else {
                    lemma_left(g, seen, x);
                    lemma_entered(g, turns, x);
                    let t = entered(g, turns, x);
                    let s = seen.insert(x);
                    assert(leaves_once(t, s)) by {
                        assert forall|i: int| 0 <= i < t.len() implies (#[trigger] t[i]
                            matches Turn::Leave(y) ==> s.contains(y)) by {
                            if i < last {
                                assert(t[i] == turns[i]);
                            }
                        }
                        assert forall|i: int, j: int|
                            0 <= i < j < t.len() && t[i] is Leave implies #[trigger] t[i]
                            != #[trigger] t[j] by {
                            if i < last {
                                assert(t[i] == turns[i]);
                                if j < last {
                                    assert(t[j] == turns[j]);
                                }
                            }
                        }
                    }
                    lemma_lineage_distinct(g, t, s);
                    assert forall|i: int| 0 <= i < r.len() implies turns.contains(
                        Turn::Leave(#[trigger] r[i]),
                    ) || !seen.contains(r[i]) by {
                        if t.contains(Turn::Leave(r[i])) {
                            let j = choose|j: int| 0 <= j < t.len() && t[j] == Turn::Leave(r[i]);
                            if j < last {
                                assert(turns[j] == Turn::Leave(r[i]));
                            }
                        }
                    }
                }
            },
        }
    }
}

/// No ancestor comes twice.
pub proof fn law_lineage_is_distinct(g: Graph, parents: Seq<Seq<char>>)
    requires
        g.dom().finite(),
    ensures
        lineage(g, parents).no_duplicates(),
{
    lemma_lineage_distinct(g, entering(parents), Set::empty());
}

/// Every name left is to be left already, or can be reached from a name that is
/// to be entered; every declared name that is to be entered is left unless it
/// was seen; and with a name its declared parents are left or were seen.
proof fn lemma_lineage_complete(
    g: Graph,
    start: Seq<Seq<char>>,
    turns: Seq<Turn<Seq<char>>>,
    seen: Set<Seq<char>>,
)
    requires
        g.dom().finite(),
        forall|i: int|
            0 <= i < turns.len() ==> match #[trigger] turns[i] {
                Turn::Enter(x) => reachable(g, start, x),
                Turn::Leave(x) => reachable(g, start, x) && g.contains_key(x),
            },
    ensures
        forall|x: Seq<char>| #[trigger]
            lineage_from(g, turns, seen).contains(x) ==> g.contains_key(x) && reachable(
                g,
                start,
                x,
            ),
        forall|x: Seq<char>| #[trigger]
            turns.contains(Turn::Enter(x)) && g.contains_key(x) && !seen.contains(x)
                ==> lineage_from(g, turns, seen).contains(x),
        forall|x: Seq<char>| #[trigger]
            turns.contains(Turn::Leave(x)) ==> lineage_from(g, turns, seen).contains(x),
        forall|x: Seq<char>, p: Seq<char>|
            #![trigger lineage_from(g, turns, seen).contains(x), g[x].contains(p)]
            lineage_from(g, turns, seen).contains(x) && !turns.contains(Turn::Leave(x))
                && g[x].contains(p) && g.contains_key(p) ==> lineage_from(g, turns, seen).contains(p)
                || seen.contains(p),
    decreases left(g, seen), turns.len(),
{
    let r = lineage_from(g, turns, seen);
    if turns.len() > 0 {
        let rest = turns.drop_last();
        let last = turns.len() - 1;
        let top = turns.last();
        assert(turns[last] == top);
        assert forall|t: Turn<Seq<char>>| turns.contains(t) <==> rest.contains(t) || t == top by {
            if turns.contains(t) {
                let i = choose|i: int| 0 <= i < turns.len() && turns[i] == t;
                if i < last {
                    assert(rest[i] == t);
                }
            }
            if rest.contains(t) {
                let i = choose|i: int| 0 <= i < rest.len() && rest[i] == t;
                assert(turns[i] == t);
            }
        }
        assert forall|i: int| 0 <= i < rest.len() implies match #[trigger] rest[i] {
            Turn::Enter(x) => reachable(g, start, x),
            Turn::Leave(x) => reachable(g, start, x) && g.contains_key(x),
        } by {
            assert(rest[i] == turns[i]);
        }
        match top {
            Turn::Leave(x) => {
                lemma_lineage_complete(g, start, rest, seen);
                let q = lineage_from(g, rest, seen);
                assert forall|y: Seq<char>| r.contains(y) <==> q.contains(y) || y == x by {
                    if r.contains(y) {
                        let i = choose|i: int| 0 <= i < r.len() && r[i] == y;
                        if i > 0 {
                            assert(q[i - 1] == y);
                        }
                    }
                    if q.contains(y) {
                        let i = choose|i: int| 0 <= i < q.len() && q[i] == y;
                        assert(r[i + 1] == y);
                    }
                    assert(r[0] == x);
                }
                assert forall|y: Seq<char>, p: Seq<char>|
                    #![trigger r.contains(y), g[y].contains(p)]
                    r.contains(y) && !turns.contains(Turn::Leave(y)) && g[y].contains(p)
                        && g.contains_key(p) implies r.contains(p) || seen.contains(p) by {
                    assert(turns.contains(Turn::Leave(x)));
                    assert(q.contains(y));
                    assert(!rest.contains(Turn::Leave(y)));
                    assert(q.contains(p) || seen.contains(p));
                }
            },
            Turn::Enter(x) => {
                if seen.contains(x) || !g.contains_key(x) {
                    lemma_lineage_complete(g, start, rest, seen);
                    assert(r == lineage_from(g, rest, seen));
                } else {
                    lemma_left(g, seen, x);
                    lemma_entered(g, turns, x);
                    let t = entered(g, turns, x);
                    let s = seen.insert(x);
                    assert(reachable(g, start, x));
                    assert forall|i: int| 0 <= i < t.len() implies match #[trigger] t[i] {
                        Turn::Enter(y) => reachable(g, start, y),
                        Turn::Leave(y) => reachable(g, start, y) && g.contains_key(y),
                    } by {
                        if i < last {
                            assert(t[i] == turns[i]);
                        } else if i > last {
                            let p = t[i]->Enter_0;
                            crate::graph::lemma_reach_on(g, start, x, p);
                        }
                    }
                    lemma_lineage_complete(g, start, t, s);
                    assert forall|u: Turn<Seq<char>>| rest.contains(u) implies t.contains(u) by {
                        let i = choose|i: int| 0 <= i < rest.len() && rest[i] == u;
                        assert(t[i] == u);
                    }
                    assert(t[last] == Turn::Leave(x));
                    assert(t.contains(Turn::Leave(x)));
                    assert forall|y: Seq<char>|
                        t.contains(Turn::Leave(y)) implies rest.contains(Turn::Leave(y)) || y
                        == x by {
                        let i = choose|i: int| 0 <= i < t.len() && t[i] == Turn::Leave(y);
                        if i < last {
                            assert(rest[i] == Turn::Leave(y));
                        }
                    }
                    assert forall|y: Seq<char>| #[trigger]
                        turns.contains(Turn::Enter(y)) && g.contains_key(y) && !seen.contains(
                            y,
                        ) implies r.contains(y) by {
                        if y != x {
                            assert(rest.contains(Turn::Enter(y)));
                            assert(t.contains(Turn::Enter(y)));
                        }
                    }
                    assert forall|y: Seq<char>, p: Seq<char>|
                        #![trigger r.contains(y), g[y].contains(p)]
                        r.contains(y) && !turns.contains(Turn::Leave(y)) && g[y].contains(p)
                            && g.contains_key(p) implies r.contains(p) || seen.contains(p) by {
                        if y == x {
                            let i = choose|i: int|
                                turns.len() <= i < t.len() && #[trigger] t[i] == Turn::Enter(p);
                            assert(t.contains(Turn::Enter(p)));
                        } else {
                            assert(!t.contains(Turn::Leave(y)));
                            assert(r.contains(p) || s.contains(p));
                        }
                    }
                }
            },
        }
    } else {
        assert(r =~= seq![]);
        assert forall|x: Seq<char>| !r.contains(x) by {}
    }
}

/// The lineage holds the declared ancestors: all declared names that can be
/// reached from the parents, and no others.
pub proof fn law_lineage_is_complete(g: Graph, parents: Seq<Seq<char>>, x: Seq<char>)
    requires
        g.dom().finite(),
    ensures
        lineage(g, parents).contains(x) <==> g.contains_key(x) && reachable(g, parents, x),
{
    let turns = entering(parents);
    let none = Set::<Seq<char>>::empty();
    assert forall|i: int| 0 <= i < turns.len() implies match #[trigger] turns[i] {
        Turn::Enter(y) => reachable(g, parents, y),
        Turn::Leave(y) => reachable(g, parents, y) && g.contains_key(y),
    } by {
        let y = parents[parents.len() - 1 - i];
        assert(parents.contains(y));
        assert(reached(g, parents, y, 0));
    }
    lemma_lineage_complete(g, parents, turns, none);
    let r = lineage(g, parents);
    if g.contains_key(x) && reachable(g, parents, x) {
        let n = choose|n: nat| reached(g, parents, x, n);
        let s = Set::new(|y: Seq<char>| r.contains(y) || !g.contains_key(y));
        assert forall|q: Seq<char>| parents.contains(q) implies s.contains(q) by {
            if g.contains_key(q) {
                let j = choose|j: int| 0 <= j < parents.len() && parents[j] == q;
                assert(turns[parents.len() - 1 - j] == Turn::Enter(q));
                assert(turns.contains(Turn::Enter(q)));
            }
        }
        assert forall|y: Seq<char>, p: Seq<char>|
            s.contains(y) && g.contains_key(y) && #[trigger] g[y].contains(p) implies s.contains(
            p,
        ) by {
            assert(r.contains(y));
            assert(!turns.contains(Turn::Leave(y)));
            if g.contains_key(p) {
                assert(r.contains(p) || none.contains(p));
            }
        }
        lemma_closed_reaches(g, parents, s, x, n);
    }
}

/// Whether `rank` shows that nobody is an own ancestor: every declared parent
/// has a lower rank than its child.
pub open spec fn ranks_parents_lower(g: Graph, rank: spec_fn(Seq<char>) -> nat) -> bool {
    forall|x: Seq<char>, p: Seq<char>|
        #![trigger g[x].contains(p)]
        g.contains_key(x) && g[x].contains(p) && g.contains_key(p) ==> rank(p) < rank(x)
}

/// Whether the declared parents of each of `names` stand before it.
pub open spec fn parents_first(g: Graph, names: Seq<Seq<char>>) -> bool {
    forall|k: int, p: Seq<char>|
        #![trigger g[names[k]].contains(p)]
        0 <= k < names.len() && g[names[k]].contains(p) && g.contains_key(p) ==> names.take(
            k,
        ).contains(p)
}

/// What holds of the turns while the names in `done` have been left.
spec fn in_order(
    g: Graph,
    rank: spec_fn(Seq<char>) -> nat,
    turns: Seq<Turn<Seq<char>>>,
    seen: Set<Seq<char>>,
    done: Seq<Seq<char>>,
) -> bool {
    &&& forall|i: int|
        0 <= i < turns.len() ==> (#[trigger] turns[i] matches Turn::Leave(x) ==> g.contains_key(x))
    &&& forall|x: Seq<char>| #[trigger]
        seen.contains(x) ==> done.contains(x) || turns.contains(Turn::Leave(x))
    &&& forall|i: int, j: int|
        #![trigger turns[i], turns[j]]
        0 <= i < j < turns.len() ==> (turns[i] matches Turn::Leave(y) ==> match turns[j] {
            Turn::Leave(x) => rank(x) < rank(y),
            Turn::Enter(x) => g.contains_key(x) ==> rank(x) < rank(y),
        })
    &&& forall|i: int, p: Seq<char>|
        #![trigger turns[i], g.contains_key(p)]
        0 <= i < turns.len() && g.contains_key(p) ==> (turns[i] matches Turn::Leave(y) ==> (
        g[y].contains(p) ==> done.contains(p) || awaited(turns, i, p)))
    &&& parents_first(g, done)
}

/// Whether `p` is entered or left before the turn `i` is taken.
spec fn awaited(turns: Seq<Turn<Seq<char>>>, i: int, p: Seq<char>) -> bool {
    exists|j: int|
        i < j < turns.len() && (#[trigger] turns[j] == Turn::Enter(p) || turns[j] == Turn::Leave(p))
}

proof fn lemma_parents_first_push(g: Graph, done: Seq<Seq<char>>, x: Seq<char>)
    requires
        parents_first(g, done),
        forall|p: Seq<char>| #[trigger]
            g[x].contains(p) && g.contains_key(p) ==> done.contains(p),
    ensures
        parents_first(g, done.push(x)),
{
    let all = done.push(x);
    assert forall|k: int, p: Seq<char>|
        #![trigger g[all[k]].contains(p)]
        0 <= k < all.len() && g[all[k]].contains(p) && g.contains_key(p) implies all.take(
        k,
    ).contains(p) by {
        if k < done.len() {
            assert(all[k] == done[k]);
            assert(g[done[k]].contains(p));
            assert(all.take(k) =~= done.take(k));
        } else {
            assert(all.take(k) =~= done);
        }
    }
}

proof fn lemma_lineage_in_order(
    g: Graph,
    rank: spec_fn(Seq<char>) -> nat,
    turns: Seq<Turn<Seq<char>>>,
    seen: Set<Seq<char>>,
    done: Seq<Seq<char>>,
)
    requires
        g.dom().finite(),
        ranks_parents_lower(g, rank),
        in_order(g, rank, turns, seen, done),
    ensures
        parents_first(g, done + lineage_from(g, turns, seen)),
    decreases left(g, seen), turns.len(),
{
    if turns.len() == 0 {
        assert(done + lineage_from(g, turns, seen) =~= done);
    } else {
        let rest = turns.drop_last();
        let last = turns.len() - 1;
        let top = turns.last();
        assert(turns[last] == top);
        match top {
            Turn::Leave(x) => {
                let now = done.push(x);
                assert forall|p: Seq<char>| #[trigger]
                    g[x].contains(p) && g.contains_key(p) implies done.contains(p) by {
                    assert(turns[last] == Turn::Leave(x));
                    assert(done.contains(p) || awaited(turns, last, p));
                }
                lemma_parents_first_push(g, done, x);
                assert(now[done.len() as int] == x);
                assert forall|y: Seq<char>| done.contains(y) implies now.contains(y) by {
                    let i = choose|i: int| 0 <= i < done.len() && done[i] == y;
                    assert(now[i] == y);
                }
                assert(in_order(g, rank, rest, seen, now)) by {
                    assert forall|i: int| 0 <= i < rest.len() implies (#[trigger] rest[i]
                        matches Turn::Leave(y) ==> g.contains_key(y)) by {
                        assert(rest[i] == turns[i]);
                    }
                    assert forall|y: Seq<char>| #[trigger] seen.contains(y) implies now.contains(y)
                        || rest.contains(Turn::Leave(y)) by {
                        if !done.contains(y) && y != x {
                            let i = choose|i: int|
                                0 <= i < turns.len() && turns[i] == Turn::Leave(y);
                            assert(rest[i] == Turn::Leave(y));
                        }
                    }
                    assert forall|i: int, p: Seq<char>|
                        #![trigger rest[i], g.contains_key(p)]
                        0 <= i < rest.len() && g.contains_key(p) implies (rest[i]
                        matches Turn::Leave(y) ==> (g[y].contains(p) ==> now.contains(p)
                        || awaited(rest, i, p))) by {
                        assert(rest[i] == turns[i]);
                        if turns[i] is Leave && g[turns[i]->Leave_0].contains(p) && !done.contains(
                            p,
                        ) {
                            let j = choose|j: int|
                                i < j < turns.len() && (#[trigger] turns[j] == Turn::Enter(p)
                                    || turns[j] == Turn::Leave(p));
                            if j < last {
                                assert(rest[j] == turns[j]);
                            }
                        }
                    }
                }
                lemma_lineage_in_order(g, rank, rest, seen, now);
                assert(done + (seq![x] + lineage_from(g, rest, seen)) =~= now + lineage_from(
                    g,
                    rest,
                    seen,
                ));
            },
            Turn::Enter(x) => {
                if seen.contains(x) || !g.contains_key(x) {
                    assert(g.contains_key(x) ==> done.contains(x)) by {
                        if g.contains_key(x) && !done.contains(x) {
                            let i = choose|i: int|
                                0 <= i < turns.len() && turns[i] == Turn::Leave(x);
                            assert(turns[i] is Leave && turns[last] == Turn::Enter(x));
                            assert(rank(x) < rank(x));
                        }
                    }
                    assert(in_order(g, rank, rest, seen, done)) by {
                        assert forall|i: int| 0 <= i < rest.len() implies (#[trigger] rest[i]
                            matches Turn::Leave(y) ==> g.contains_key(y)) by {
                            assert(rest[i] == turns[i]);
                        }
                        assert forall|y: Seq<char>| #[trigger]
                            seen.contains(y) implies done.contains(y) || rest.contains(
                            Turn::Leave(y),
                        ) by {
                            if !done.contains(y) {
                                let i = choose|i: int|
                                    0 <= i < turns.len() && turns[i] == Turn::Leave(y);
                                assert(rest[i] == Turn::Leave(y));
                            }
                        }
                        assert forall|i: int, p: Seq<char>|
                            #![trigger rest[i], g.contains_key(p)]
                            0 <= i < rest.len() && g.contains_key(p) implies (rest[i]
                            matches Turn::Leave(y) ==> (g[y].contains(p) ==> done.contains(p)
                            || awaited(rest, i, p))) by {
                            assert(rest[i] == turns[i]);
                            if turns[i] is Leave && g[turns[i]->Leave_0].contains(p)
                                && !done.contains(p) {
                                let j = choose|j: int|
                                    i < j < turns.len() && (#[trigger] turns[j] == Turn::Enter(p)
                                        || turns[j] == Turn::Leave(p));
                                if j < last {
                                    assert(rest[j] == turns[j]);
                                }
                            }
                        }
                    }
                    lemma_lineage_in_order(g, rank, rest, seen, done);
                } else {
                    lemma_left(g, seen, x);
                    lemma_entered(g, turns, x);
                    let t = entered(g, turns, x);
                    let s = seen.insert(x);
                    assert(t[last] == Turn::Leave(x));
                    assert(in_order(g, rank, t, s, done)) by {
                        assert forall|i: int| 0 <= i < t.len() implies (#[trigger] t[i]
                            matches Turn::Leave(y) ==> g.contains_key(y)) by {
                            if i < last {
                                assert(t[i] == turns[i]);
                            }
                        }
                        assert forall|y: Seq<char>| #[trigger] s.contains(y) implies done.contains(
                            y,
                        ) || t.contains(Turn::Leave(y)) by {
                            if !done.contains(y) && y != x {
                                assert(seen.contains(y));
                                let i = choose|i: int|
                                    0 <= i < turns.len() && turns[i] == Turn::Leave(y);
                                assert(t[i] == Turn::Leave(y));
                            }
                        }
                        assert forall|i: int, j: int|
                            #![trigger t[i], t[j]]
                            0 <= i < j < t.len() implies (t[i] matches Turn::Leave(y) ==> match t[j] {
                            Turn::Leave(z) => rank(z) < rank(y),
                            Turn::Enter(z) => g.contains_key(z) ==> rank(z) < rank(y),
                        }) by {
                            if t[i] is Leave {
                                if i < last {
                                    assert(t[i] == turns[i]);
                                    assert(turns[last] == Turn::Enter(x));
                                    if j < last {
                                        assert(t[j] == turns[j]);
                                    } else if j > last {
                                        let p = t[j]->Enter_0;
                                        assert(g[x].contains(p));
                                    }
                                } else {
                                    assert(i == last);
                                    let p = t[j]->Enter_0;
                                    assert(g[x].contains(p));
                                }
                            }
                        }
                        assert forall|i: int, p: Seq<char>|
                            #![trigger t[i], g.contains_key(p)]
                            0 <= i < t.len() && g.contains_key(p) implies (t[i]
                            matches Turn::Leave(y) ==> (g[y].contains(p) ==> done.contains(p)
                            || awaited(t, i, p))) by {
                            if t[i] is Leave && g[t[i]->Leave_0].contains(p) && !done.contains(p) {
                                if i < last {
                                    assert(t[i] == turns[i]);
                                    let j = choose|j: int|
                                        i < j < turns.len() && (#[trigger] turns[j]
                                            == Turn::Enter(p) || turns[j] == Turn::Leave(p));
                                    if j < last {
                                        assert(t[j] == turns[j]);
                                    } else {
                                        assert(t[last] == Turn::Leave(p));
                                    }
                                } else {
                                    assert(g[x].contains(p));
                                    let j = choose|j: int|
                                        turns.len() <= j < t.len() && #[trigger] t[j]
                                            == Turn::Enter(p);
                                    assert(i < j);
                                }
                            }
                        }
                    }
                    lemma_lineage_in_order(g, rank, t, s, done);
                }
            },
        }
    }
}

/// Where nobody is an own ancestor, the base ancestors come first: the declared
/// parents of each ancestor stand before it.
pub proof fn law_lineage_starts_at_the_base(
    g: Graph,
    rank: spec_fn(Seq<char>) -> nat,
    parents: Seq<Seq<char>>,
)
    requires
        g.dom().finite(),
        ranks_parents_lower(g, rank),
    ensures
        parents_first(g, lineage(g, parents)),
{
    let none = Seq::<Seq<char>>::empty();
    lemma_lineage_in_order(g, rank, entering(parents), Set::empty(), none);
    assert(none + lineage(g, parents) =~= lineage(g, parents));
}

/// A turn at the bottom is taken last.
proof fn lemma_bottom_last(
    g: Graph,
    p: Seq<char>,
    turns: Seq<Turn<Seq<char>>>,
    seen: Set<Seq<char>>,
)
    requires
        g.dom().finite(),
    ensures
        lineage_from(g, seq![Turn::Leave(p)] + turns, seen) == lineage_from(g, turns, seen).push(p),
    decreases left(g, seen), turns.len(),
{
    let all = seq![Turn::Leave(p)] + turns;
    if turns.len() == 0 {
        assert(all.drop_last() =~= turns);
        assert(all.last() == Turn::Leave(p));
        assert(lineage_from(g, all, seen) =~= seq![p] + lineage_from(g, turns, seen));
        assert(lineage_from(g, all, seen) =~= lineage_from(g, turns, seen).push(p));
    } else {
        let rest = turns.drop_last();
        assert(all.last() == turns.last());
        assert(all.drop_last() =~= seq![Turn::Leave(p)] + rest);
        match turns.last() {
            Turn::Leave(x) => {
                lemma_bottom_last(g, p, rest, seen);
                assert(seq![x] + lineage_from(g, rest, seen).push(p) =~= (seq![x] + lineage_from(
                    g,
                    rest,
                    seen,
                )).push(p));
            },
            Turn::Enter(x) => {
                if seen.contains(x) || !g.contains_key(x) {
                    lemma_bottom_last(g, p, rest, seen);
                } else {
                    lemma_left(g, seen, x);
                    assert(entered(g, all, x) =~= seq![Turn::Leave(p)] + entered(g, turns, x));
                    lemma_bottom_last(g, p, entered(g, turns, x), seen.insert(x));
                }
            },
        }
    }
}

/// A name above all that is to be entered is never met.
proof fn lemma_never_met(
    g: Graph,
    rank: spec_fn(Seq<char>) -> nat,
    p: Seq<char>,
    turns: Seq<Turn<Seq<char>>>,
    seen: Set<Seq<char>>,
)
    requires
        g.dom().finite(),
        g.contains_key(p),
        ranks_parents_lower(g, rank),
        forall|i: int|
            0 <= i < turns.len() ==> (#[trigger] turns[i] matches Turn::Enter(x) ==> (
            g.contains_key(x) ==> rank(x) < rank(p))),
    ensures
        lineage_from(g, turns, seen.insert(p)) == lineage_from(g, turns, seen),
    decreases left(g, seen), turns.len(),
{
    if turns.len() > 0 {
        let rest = turns.drop_last();
        let last = turns.len() - 1;
        assert(turns[last] == turns.last());
        assert forall|i: int| 0 <= i < rest.len() implies (#[trigger] rest[i]
            matches Turn::Enter(x) ==> (g.contains_key(x) ==> rank(x) < rank(p))) by {
            assert(rest[i] == turns[i]);
        }
        match turns.last() {
            Turn::Leave(x) => {
                lemma_never_met(g, rank, p, rest, seen);
            },
            Turn::Enter(x) => {
                if seen.contains(x) || !g.contains_key(x) {
                    lemma_never_met(g, rank, p, rest, seen);
                } else {
                    lemma_left(g, seen, x);
                    lemma_entered(g, turns, x);
                    let t = entered(g, turns, x);
                    assert forall|i: int| 0 <= i < t.len() implies (#[trigger] t[i]
                        matches Turn::Enter(y) ==> (g.contains_key(y) ==> rank(y) < rank(p))) by {
                        if i < last {
                            assert(t[i] == turns[i]);
                        } else if i > last {
                            let y = t[i]->Enter_0;
                            assert(g[x].contains(y));
                        }
                    }
                    lemma_never_met(g, rank, p, t, seen.insert(x));
                    assert(seen.insert(p).insert(x) =~= seen.insert(x).insert(p));
                }
            },
        }
    }
}

/// The ancestors of an entity with one declared parent are those of the parent,
/// then the parent.
pub proof fn law_lineage_of_one_parent(
    g: Graph,
    rank: spec_fn(Seq<char>) -> nat,
    p: Seq<char>,
)
    requires
        g.dom().finite(),
        g.contains_key(p),
        ranks_parents_lower(g, rank),
    ensures
        lineage(g, seq![p]) == lineage(g, g[p]).push(p),
{
    let none = Set::<Seq<char>>::empty();
    let turns = entering(seq![p]);
    assert(turns =~= seq![Turn::Enter(p)]);
    assert(entered(g, turns, p) =~= seq![Turn::Leave(p)] + entering(g[p]));
    lemma_bottom_last(g, p, entering(g[p]), none.insert(p));
    assert forall|i: int| 0 <= i < entering(g[p]).len() implies (#[trigger] entering(g[p])[i]
        matches Turn::Enter(x) ==> (g.contains_key(x) ==> rank(x) < rank(p))) by {
        let x = g[p][g[p].len() - 1 - i];
        assert(g[p].contains(x));
    }
    lemma_never_met(g, rank, p, entering(g[p]), none);
}

} // verus!
