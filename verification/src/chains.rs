//! Chains of names, and rounds repeated until nothing changes.

use vstd::prelude::*;

verus! {

/// A step from a name to the next one, if there is one.
pub type Step = spec_fn(Seq<char>) -> Option<Seq<char>>;

/// The name `n` steps from `start`.
pub open spec fn chain_at(f: Step, start: Seq<char>, n: nat) -> Seq<char>
    decreases n,
{
    if n == 0 {
        start
    } else {
        let before = chain_at(f, start, (n - 1) as nat);
        match f(before) {
            Some(x) => x,
            None => before,
        }
    }
}

/// Whether the chain from `start` stops after `n` steps: it comes to a name
/// without a next one, or for the first time to a name that it has seen.
pub open spec fn chain_stops(f: Step, start: Seq<char>, n: nat) -> bool {
    &&& forall|i: nat| i < n ==> f(#[trigger] chain_at(f, start, i)) is Some
    &&& forall|i: nat, j: nat|
        i < j < n ==> #[trigger] chain_at(f, start, i) != #[trigger] chain_at(f, start, j)
    &&& f(chain_at(f, start, n)) is None || exists|i: nat|
        i < n && #[trigger] chain_at(f, start, i) == chain_at(f, start, n)
}

/// How many steps the chain takes.
pub open spec fn chain_len(f: Step, start: Seq<char>) -> nat {
    choose|n: nat| chain_stops(f, start, n)
}

/// Where the chain ends.
pub open spec fn chain_end(f: Step, start: Seq<char>) -> Seq<char> {
    chain_at(f, start, chain_len(f, start))
}

/// The names of the chain before its end.
pub open spec fn chain_names(f: Step, start: Seq<char>) -> Seq<Seq<char>> {
    Seq::new(chain_len(f, start), |i: int| chain_at(f, start, i as nat))
}

proof fn lemma_stop_not_below(f: Step, start: Seq<char>, m: nat, n: nat)
    requires
        chain_stops(f, start, m),
        chain_stops(f, start, n),
    ensures
        m >= n,
{
    if m < n {
        assert(f(chain_at(f, start, m)) is Some);
        let i = choose|i: nat| i < m && #[trigger] chain_at(f, start, i) == chain_at(f, start, m);
        assert(chain_at(f, start, i) != chain_at(f, start, m));
    }
}

/// A chain stops at one place only.
pub proof fn law_chain_stops_once(f: Step, start: Seq<char>, m: nat, n: nat)
    requires
        chain_stops(f, start, m),
        chain_stops(f, start, n),
    ensures
        m == n,
{
    lemma_stop_not_below(f, start, m, n);
    lemma_stop_not_below(f, start, n, m);
}

/// The chain has gone `n` steps over distinct names, which are those in
/// `visited`.
pub open spec fn chain_so_far(
    f: Step,
    start: Seq<char>,
    n: nat,
    visited: Set<Seq<char>>,
) -> bool {
    &&& forall|i: nat| i < n ==> f(#[trigger] chain_at(f, start, i)) is Some
    &&& forall|i: nat, j: nat|
        i < j < n ==> #[trigger] chain_at(f, start, i) != #[trigger] chain_at(f, start, j)
    &&& forall|x: Seq<char>|
        visited.contains(x) <==> exists|i: nat| i < n && #[trigger] chain_at(f, start, i) == x
}

pub proof fn lemma_chain_step(f: Step, start: Seq<char>, n: nat, visited: Set<Seq<char>>)
    requires
        chain_so_far(f, start, n, visited),
        !visited.contains(chain_at(f, start, n)),
        f(chain_at(f, start, n)) is Some,
    ensures
        chain_so_far(f, start, n + 1, visited.insert(chain_at(f, start, n))),
        chain_at(f, start, n + 1) == f(chain_at(f, start, n))->0,
{
    let here = chain_at(f, start, n);
    let next = visited.insert(here);
    assert forall|x: Seq<char>| next.contains(x) <==> exists|i: nat|
        i < n + 1 && #[trigger] chain_at(f, start, i) == x by {
        if visited.contains(x) {
            let i = choose|i: nat| i < n && #[trigger] chain_at(f, start, i) == x;
            assert(i < n + 1);
        }
        assert(chain_at(f, start, n) == here);
    }
    assert forall|i: nat, j: nat| i < j < n + 1 implies #[trigger] chain_at(f, start, i)
        != #[trigger] chain_at(f, start, j) by {
        if j == n && chain_at(f, start, i) == here {
            assert(visited.contains(here));
        }
    }
}

pub proof fn lemma_chain_done(f: Step, start: Seq<char>, n: nat, visited: Set<Seq<char>>)
    requires
        chain_so_far(f, start, n, visited),
        f(chain_at(f, start, n)) is None || visited.contains(chain_at(f, start, n)),
    ensures
        chain_stops(f, start, n),
        chain_len(f, start) == n,
        chain_end(f, start) == chain_at(f, start, n),
{
    assert(chain_stops(f, start, n));
    law_chain_stops_once(f, start, n, chain_len(f, start));
}

proof fn lemma_chain_ends_from(
    f: Step,
    start: Seq<char>,
    names: Set<Seq<char>>,
    n: nat,
    visited: Set<Seq<char>>,
)
    requires
        names.finite(),
        forall|x: Seq<char>| #[trigger] f(x) is Some ==> names.contains(x),
        chain_so_far(f, start, n, visited),
        visited.subset_of(names),
    ensures
        chain_stops(f, start, chain_len(f, start)),
    decreases names.len() - visited.len(),
{
    let here = chain_at(f, start, n);
    vstd::set_lib::lemma_len_subset(visited, names);
    if f(here) is None || visited.contains(here) {
        lemma_chain_done(f, start, n, visited);
    } else {
        lemma_chain_step(f, start, n, visited);
        vstd::set_lib::lemma_len_subset(visited.insert(here), names);
        lemma_chain_ends_from(f, start, names, n + 1, visited.insert(here));
    }
}

/// A chain that steps on from finitely many names only stops.
pub proof fn lemma_chain_ends(f: Step, start: Seq<char>, names: Set<Seq<char>>)
    requires
        names.finite(),
        forall|x: Seq<char>| #[trigger] f(x) is Some ==> names.contains(x),
    ensures
        chain_stops(f, start, chain_len(f, start)),
{
    lemma_chain_ends_from(f, start, names, 0, Set::empty());
}

/// `n` rounds of `f`, starting from `s`.
pub open spec fn rounds<S>(f: spec_fn(S) -> S, s: S, n: nat) -> S
    decreases n,
{
    if n == 0 {
        s
    } else {
        f(rounds(f, s, (n - 1) as nat))
    }
}

/// Whether another round after `n` changes nothing.
pub open spec fn settles<S>(f: spec_fn(S) -> S, s: S, n: nat) -> bool {
    f(rounds(f, s, n)) == rounds(f, s, n)
}

/// What repeated rounds of `f` come to from `s`.
pub open spec fn settled<S>(f: spec_fn(S) -> S, s: S) -> S {
    rounds(f, s, choose|n: nat| settles(f, s, n))
}

proof fn lemma_settled_stays<S>(f: spec_fn(S) -> S, s: S, m: nat, n: nat)
    requires
        settles(f, s, m),
        m <= n,
    ensures
        rounds(f, s, n) == rounds(f, s, m),
    decreases n,
{
    if m < n {
        lemma_settled_stays(f, s, m, (n - 1) as nat);
    }
}

/// Rounds that change nothing more have come to the settled state.
pub proof fn lemma_settled<S>(f: spec_fn(S) -> S, s: S, n: nat)
    requires
        settles(f, s, n),
    ensures
        settled(f, s) == rounds(f, s, n),
{
    let m = choose|m: nat| settles(f, s, m);
    assert(settles(f, s, m));
    if m <= n {
        lemma_settled_stays(f, s, m, n);
    } else {
        lemma_settled_stays(f, s, n, m);
    }
}

/// A chain ends where its step stops, or where it comes back to a name it has passed.
pub proof fn law_chain_ends_where_it_stops(f: Step, start: Seq<char>)
    requires
        f(start) is None,
    ensures
        chain_len(f, start) == 0,
        chain_end(f, start) == start,
{
    assert(chain_at(f, start, 0) == start);
    assert(chain_stops(f, start, 0));
    law_chain_stops_once(f, start, 0, chain_len(f, start));
}

proof fn lemma_one_step_on(f: Step, start: Seq<char>, n: nat)
    requires
        f(start) is Some,
    ensures
        chain_at(f, start, n + 1) == chain_at(f, f(start)->0, n),
    decreases n,
{
    reveal_with_fuel(chain_at, 2);
    if n > 0 {
        lemma_one_step_on(f, start, (n - 1) as nat);
    }
}

/// A chain goes on where the next name's chain goes: it ends at the same name,
/// provided that one stops and does not come back to the start.
pub proof fn law_chain_goes_on(f: Step, start: Seq<char>, n: nat)
    requires
        f(start) is Some,
        chain_stops(f, f(start)->0, n),
        f(chain_at(f, f(start)->0, n)) is None,
        forall|i: nat| i <= n ==> #[trigger] chain_at(f, f(start)->0, i) != start,
    ensures
        chain_end(f, start) == chain_end(f, f(start)->0),
        chain_len(f, start) == chain_len(f, f(start)->0) + 1,
{
    let next = f(start)->0;
    law_chain_stops_once(f, next, n, chain_len(f, next));
    assert forall|i: nat| i < n + 1 implies f(#[trigger] chain_at(f, start, i)) is Some by {
        if i > 0 {
            lemma_one_step_on(f, start, (i - 1) as nat);
        }
    }
    assert forall|i: nat, j: nat| i < j < n + 1 implies #[trigger] chain_at(f, start, i)
        != #[trigger] chain_at(f, start, j) by {
        lemma_one_step_on(f, start, (j - 1) as nat);
        if i > 0 {
            lemma_one_step_on(f, start, (i - 1) as nat);
        } else {
            assert(chain_at(f, start, 0) == start);
        }
    }
    lemma_one_step_on(f, start, n);
    assert(chain_stops(f, start, n + 1));
    law_chain_stops_once(f, start, n + 1, chain_len(f, start));
}

} // verus!
