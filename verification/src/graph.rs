//! Reachability along lists of names.

use crate::names::{Duplicate, NameSet, Table};
use vstd::prelude::*;

verus! {

/// A directed graph: the names that each name leads to.
pub type Graph = Map<Seq<char>, Seq<Seq<char>>>;

/// Whether `n` steps lead from one of `names` to `x`.
pub open spec fn reached(g: Graph, names: Seq<Seq<char>>, x: Seq<char>, n: nat) -> bool
    decreases n,
{
    if n == 0 {
        names.contains(x)
    } else {
        exists|p: Seq<char>|
            #[trigger] names.contains(p) && g.contains_key(p) && reached(g, g[p], x, (n - 1) as nat)
    }
}

/// Whether steps lead from one of `names` to `x`.
pub open spec fn reachable(g: Graph, names: Seq<Seq<char>>, x: Seq<char>) -> bool {
    exists|n: nat| reached(g, names, x, n)
}

/// All that can be reached from `names`.
pub open spec fn closure_of(g: Graph, names: Seq<Seq<char>>) -> Set<Seq<char>> {
    Set::new(|x: Seq<char>| reachable(g, names, x))
}

/// A set that holds `names`, and with each name what it leads to, holds all
/// that can be reached.
pub proof fn lemma_closed_reaches(
    g: Graph,
    names: Seq<Seq<char>>,
    s: Set<Seq<char>>,
    x: Seq<char>,
    n: nat,
)
    requires
        forall|q: Seq<char>| names.contains(q) ==> s.contains(q),
        forall|y: Seq<char>, p: Seq<char>|
            s.contains(y) && g.contains_key(y) && #[trigger] g[y].contains(p) ==> s.contains(p),
        reached(g, names, x, n),
    ensures
        s.contains(x),
    decreases n,
{
    if n > 0 {
        let p = choose|p: Seq<char>|
            #[trigger] names.contains(p) && g.contains_key(p) && reached(
                g,
                g[p],
                x,
                (n - 1) as nat,
            );
        assert(s.contains(p));
        lemma_closed_reaches(g, g[p], s, x, (n - 1) as nat);
    }
}

/// One more step from a name that can be reached.
pub proof fn lemma_reach_on(g: Graph, names: Seq<Seq<char>>, x: Seq<char>, y: Seq<char>)
    requires
        reachable(g, names, x),
        g.contains_key(x),
        g[x].contains(y),
    ensures
        reachable(g, names, y),
{
    let n = choose|n: nat| reached(g, names, x, n);
    lemma_reached_on(g, names, x, y, n);
}

proof fn lemma_reached_on(g: Graph, names: Seq<Seq<char>>, x: Seq<char>, y: Seq<char>, n: nat)
    requires
        reached(g, names, x, n),
        g.contains_key(x),
        g[x].contains(y),
    ensures
        reached(g, names, y, n + 1),
    decreases n,
{
    if n == 0 {
        assert(reached(g, g[x], y, 0));
        assert(names.contains(x));
    } else {
        let p = choose|p: Seq<char>|
            #[trigger] names.contains(p) && g.contains_key(p) && reached(
                g,
                g[p],
                x,
                (n - 1) as nat,
            );
        lemma_reached_on(g, g[p], x, y, (n - 1) as nat);
    }
}

/// What can be reached from the names that a reached name leads to can be
/// reached.
pub proof fn lemma_reach_through(
    g: Graph,
    names: Seq<Seq<char>>,
    x: Seq<char>,
    y: Seq<char>,
)
    requires
        reachable(g, names, x),
        g.contains_key(x),
        reachable(g, g[x], y),
    ensures
        reachable(g, names, y),
{
    let m = choose|m: nat| reached(g, g[x], y, m);
    lemma_reached_through(g, names, x, y, m);
}

proof fn lemma_reached_through(
    g: Graph,
    names: Seq<Seq<char>>,
    x: Seq<char>,
    y: Seq<char>,
    m: nat,
)
    requires
        reachable(g, names, x),
        g.contains_key(x),
        reached(g, g[x], y, m),
    ensures
        reachable(g, names, y),
    decreases m,
{
    if m == 0 {
        lemma_reach_on(g, names, x, y);
    } else {
        let p = choose|p: Seq<char>|
            #[trigger] g[x].contains(p) && g.contains_key(p) && reached(
                g,
                g[p],
                y,
                (m - 1) as nat,
            );
        lemma_reach_on(g, names, x, p);
        lemma_reached_through(g, names, p, y, (m - 1) as nat);
    }
}

/// Collects all that can be reached from `names`.
pub fn closure(g: &Table<Vec<String>>, names: &Vec<String>) -> (r: NameSet)
    ensures
        r@ == closure_of(g@, names.deep_view()),
{
    let size = g.len();
    let ghost gv = g@;
    let ghost start = names.deep_view();
    let mut visited = NameSet::new();
    let mut stack: Vec<String> = names.duplicate();
    proof {
        assert(gv.dom().difference(visited@) =~= gv.dom());
        assert forall|x: Seq<char>| stack.deep_view().contains(x) implies reachable(
            gv,
            start,
            x,
        ) by {
            assert(reached(gv, start, x, 0));
        }
    }
    while stack.len() > 0
        invariant
            gv == g@,
            gv.dom().finite(),
            start == names.deep_view(),
            forall|x: Seq<char>|
                visited@.contains(x) || stack.deep_view().contains(x) ==> #[trigger] reachable(
                    gv,
                    start,
                    x,
                ),
            forall|x: Seq<char>|
                #[trigger] start.contains(x) ==> visited@.contains(x) || stack.deep_view().contains(
                    x,
                ),
            forall|y: Seq<char>, p: Seq<char>|
                visited@.contains(y) && gv.contains_key(y) && #[trigger] gv[y].contains(p)
                    ==> visited@.contains(p) || stack.deep_view().contains(p),
        decreases gv.dom().difference(visited@).len(), stack@.len(),
    {
        let ghost s0 = stack.deep_view();
        let ghost v0 = visited@;
        let name = stack.pop().unwrap();
        let ghost s1 = stack.deep_view();
        proof {
            assert(s1 =~= s0.drop_last());
            assert(s0.last() == name@);
            assert(s0.contains(name@));
            assert forall|x: Seq<char>| s0.contains(x) <==> s1.contains(x) || x == name@ by {
                if s0.contains(x) {
                    let i = choose|i: int| 0 <= i < s0.len() && s0[i] == x;
                    if i < s1.len() {
                        assert(s1[i] == x);
                    }
                }
                if s1.contains(x) {
                    let i = choose|i: int| 0 <= i < s1.len() && s1[i] == x;
                    assert(s0[i] == x);
                }
            }
        }
        if visited.insert(name.clone()) {
            proof {
                let d0 = gv.dom().difference(v0);
                let d1 = gv.dom().difference(visited@);
                assert(d1.subset_of(d0));
                vstd::set_lib::lemma_len_subset(d1, d0);
                if gv.contains_key(name@) {
                    assert(d1.subset_of(d0.remove(name@)));
                    vstd::set_lib::lemma_len_subset(d1, d0.remove(name@));
                }
            }
            if let Some(next) = g.get(name.as_str()) {
                let ghost kids = next.deep_view();
                let mut more: Vec<String> = next.duplicate();
                stack.append(&mut more);
                proof {
                    let s2 = stack.deep_view();
                    assert(s2 =~= s1 + kids);
                    assert forall|x: Seq<char>| s2.contains(x) <==> s1.contains(x)
                        || kids.contains(x) by {
                        if s2.contains(x) {
                            let i = choose|i: int| 0 <= i < s2.len() && s2[i] == x;
                            if i < s1.len() {
                                assert(s1[i] == x);
                            } else {
                                assert(kids[i - s1.len()] == x);
                            }
                        }
                        if s1.contains(x) {
                            let i = choose|i: int| 0 <= i < s1.len() && s1[i] == x;
                            assert(s2[i] == x);
                        }
                        if kids.contains(x) {
                            let i = choose|i: int| 0 <= i < kids.len() && kids[i] == x;
                            assert(s2[i + s1.len()] == x);
                        }
                    }
                    assert(reachable(gv, start, name@));
                    assert forall|x: Seq<char>| kids.contains(x) implies reachable(
                        gv,
                        start,
                        x,
                    ) by {
                        lemma_reach_on(gv, start, name@, x);
                    }
                }
            }
        } else {
            assert(visited@ =~= v0);
        }
    }
    proof {
        assert(!stack.deep_view().contains(arbitrary::<Seq<char>>()));
        assert forall|x: Seq<char>| visited@.contains(x) <==> reachable(gv, start, x) by {
            assert(!stack.deep_view().contains(x));
            if reachable(gv, start, x) {
                let n = choose|n: nat| reached(gv, start, x, n);
                assert forall|q: Seq<char>| start.contains(q) implies visited@.contains(q) by {
                    assert(!stack.deep_view().contains(q));
                }
                assert forall|y: Seq<char>, p: Seq<char>|
                    visited@.contains(y) && gv.contains_key(y) && #[trigger] gv[y].contains(
                        p,
                    ) implies visited@.contains(p) by {
                    assert(!stack.deep_view().contains(p));
                }
                lemma_closed_reaches(gv, start, visited@, x, n);
            }
        }
        assert(visited@ =~= closure_of(gv, start));
    }
    visited
}

} // verus!
