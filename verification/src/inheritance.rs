//! Walks along `SUBTYPE OF` within one schema.

use crate::chains::{
    chain_at, chain_end, chain_so_far, lemma_chain_done, lemma_chain_step, Step,
};
use crate::express::{EntityModel, Schema};
use crate::names::{capped, push_item, NameSet};
use vstd::prelude::*;

verus! {

/// The first parent of an entity.
pub open spec fn first_parent(
    entities: Map<Seq<char>, EntityModel>,
    name: Seq<char>,
) -> Option<Seq<char>> {
    if entities.contains_key(name) && entities[name].parents.len() > 0 {
        Some(entities[name].parents[0])
    } else {
        None
    }
}

/// Climbs first parents to the furthest ancestor; on a cycle, to the first
/// name met again.
pub fn root_supertype(name: &str, schema: &Schema) -> (r: Option<String>)
    ensures
        r.deep_view() == Some(
            chain_end(|x: Seq<char>| first_parent(schema.entities@, x), name@),
        ),
{
    let ghost ents = schema.entities@;
    let ghost f: Step = |x: Seq<char>| first_parent(ents, x);
    let size = schema.entities.len();
    let mut current: String = name.to_owned();
    let mut visited = NameSet::new();
    let ghost mut n: nat = 0;
    loop
        invariant
            ents == schema.entities@,
            f == (|x: Seq<char>| first_parent(ents, x)),
            ents.dom().finite(),
            size == ents.dom().len(),
            current@ == chain_at(f, name@, n),
            chain_so_far(f, name@, n, visited@),
            visited@.subset_of(ents.dom()),
        decreases size - visited@.len(),
    {
        let ghost before = visited@;
        proof {
            vstd::set_lib::lemma_len_subset(visited@, ents.dom());
        }
        if !visited.insert(current.clone()) {
            proof {
                lemma_chain_done(f, name@, n, before);
            }
            return Some(current);
        }
        let parent = match schema.entities.get(current.as_str()) {
            Some(e) => if e.parents.len() > 0 {
                assert(ents[current@].parents[0] == e.parents@[0]@);
                Some(e.parents[0].clone())
            } else {
                None
            },
            None => None,
        };
        match parent {
            Some(p) => {
                proof {
                    lemma_chain_step(f, name@, n, before);
                    n = n + 1;
                    vstd::set_lib::lemma_len_subset(visited@, ents.dom());
                }
                current = p;
            },
            None => {
                proof {
                    lemma_chain_done(f, name@, n, before);
                }
                return Some(current);
            },
        }
    }
}

/// The names met on a walk, and those among them found so far.
pub struct Walk {
    pub visited: Set<Seq<char>>,
    pub found: Seq<Seq<char>>,
}

/// Visits the names in order, each with its own parents right after it; a name
/// met before is passed over. `depth` bounds the nesting.
pub open spec fn walk(
    entities: Map<Seq<char>, EntityModel>,
    names: Seq<Seq<char>>,
    st: Walk,
    depth: nat,
) -> Walk
    decreases depth, names.len(),
{
    if names.len() == 0 {
        st
    } else {
        let before = walk(entities, names.drop_last(), st, depth);
        let p = names.last();
        if before.visited.contains(p) {
            before
        } else {
            let here = Walk { visited: before.visited.insert(p), found: before.found.push(p) };
            if depth > 0 && entities.contains_key(p) {
                walk(entities, entities[p].parents, here, (depth - 1) as nat)
            } else {
                here
            }
        }
    }
}

/// The ancestors of `name` in the order of the walk. No nesting is deeper than
/// the number of entities.
pub open spec fn ancestor_names(
    entities: Map<Seq<char>, EntityModel>,
    name: Seq<char>,
) -> Seq<Seq<char>> {
    if entities.contains_key(name) {
        walk(
            entities,
            entities[name].parents,
            Walk { visited: Set::empty(), found: seq![] },
            entities.dom().len(),
        ).found
    } else {
        seq![]
    }
}

/// Whether a chain of `n` parents leads from one of `names` to `x`.
pub open spec fn reached(
    entities: Map<Seq<char>, EntityModel>,
    names: Seq<Seq<char>>,
    x: Seq<char>,
    n: nat,
) -> bool
    decreases n,
{
    if n == 0 {
        names.contains(x)
    } else {
        exists|p: Seq<char>|
            #[trigger] names.contains(p) && entities.contains_key(p) && reached(
                entities,
                entities[p].parents,
                x,
                (n - 1) as nat,
            )
    }
}

pub open spec fn reachable(
    entities: Map<Seq<char>, EntityModel>,
    names: Seq<Seq<char>>,
    x: Seq<char>,
) -> bool {
    exists|n: nat| reached(entities, names, x, n)
}

/// How many entities are not visited.
pub open spec fn unvisited(
    entities: Map<Seq<char>, EntityModel>,
    visited: Set<Seq<char>>,
) -> nat {
    entities.dom().difference(visited).len()
}

/// What a walk with enough depth does.
pub open spec fn walked(
    entities: Map<Seq<char>, EntityModel>,
    names: Seq<Seq<char>>,
    st: Walk,
    r: Walk,
) -> bool {
    &&& st.visited.subset_of(r.visited)
    &&& forall|x: Seq<char>| names.contains(x) ==> r.visited.contains(x)
    &&& forall|x: Seq<char>, p: Seq<char>|
        r.visited.contains(x) && !st.visited.contains(x) && entities.contains_key(x)
            && #[trigger] entities[x].parents.contains(p) ==> r.visited.contains(p)
    &&& forall|x: Seq<char>|
        r.visited.contains(x) && !st.visited.contains(x) ==> #[trigger] reachable(
            entities,
            names,
            x,
        )
    &&& forall|x: Seq<char>|
        r.found.contains(x) <==> st.found.contains(x) || (r.visited.contains(x)
            && !st.visited.contains(x))
}

proof fn lemma_unvisited_less(
    entities: Map<Seq<char>, EntityModel>,
    a: Set<Seq<char>>,
    b: Set<Seq<char>>,
)
    requires
        entities.dom().finite(),
        a.subset_of(b),
    ensures
        unvisited(entities, b) <= unvisited(entities, a),
        forall|p: Seq<char>|
            #![trigger entities.contains_key(p)]
            entities.contains_key(p) && b.contains(p) && !a.contains(p) ==> unvisited(entities, b)
                < unvisited(entities, a),
{
    let da = entities.dom().difference(a);
    let db = entities.dom().difference(b);
    assert(db.subset_of(da));
    vstd::set_lib::lemma_len_subset(db, da);
    assert forall|p: Seq<char>|
        #![trigger entities.contains_key(p)]
        entities.contains_key(p) && b.contains(p) && !a.contains(p) implies unvisited(entities, b)
        < unvisited(entities, a) by {
        assert(db.subset_of(da.remove(p)));
        vstd::set_lib::lemma_len_subset(db, da.remove(p));
    }
}

proof fn lemma_walk(
    entities: Map<Seq<char>, EntityModel>,
    names: Seq<Seq<char>>,
    st: Walk,
    depth: nat,
)
    requires
        entities.dom().finite(),
        unvisited(entities, st.visited) <= depth,
    ensures
        walked(entities, names, st, walk(entities, names, st, depth)),
    decreases depth, names.len(),
{
    let r = walk(entities, names, st, depth);
    if names.len() > 0 {
        let p = names.last();
        let firsts = names.drop_last();
        let before = walk(entities, firsts, st, depth);
        lemma_walk(entities, firsts, st, depth);
        lemma_unvisited_less(entities, st.visited, before.visited);
        assert(forall|x: Seq<char>| names.contains(x) <==> firsts.contains(x) || x == p) by {
            assert forall|x: Seq<char>| names.contains(x) implies firsts.contains(x) || x == p by {
                let i = choose|i: int| 0 <= i < names.len() && names[i] == x;
                if i < names.len() - 1 {
                    assert(firsts[i] == x);
                }
            }
            assert(names[names.len() - 1] == p);
            assert forall|x: Seq<char>| firsts.contains(x) implies names.contains(x) by {
                let i = choose|i: int| 0 <= i < firsts.len() && firsts[i] == x;
                assert(names[i] == x);
            }
        }
        assert forall|x: Seq<char>| reachable(entities, firsts, x) implies reachable(
            entities,
            names,
            x,
        ) by {
            let n = choose|n: nat| reached(entities, firsts, x, n);
            if n > 0 {
                let q = choose|q: Seq<char>|
                    #[trigger] firsts.contains(q) && entities.contains_key(q) && reached(
                        entities,
                        entities[q].parents,
                        x,
                        (n - 1) as nat,
                    );
                assert(names.contains(q));
            }
            assert(reached(entities, names, x, n));
        }
        if !before.visited.contains(p) {
            let here = Walk { visited: before.visited.insert(p), found: before.found.push(p) };
            assert(reached(entities, names, p, 0));
            assert(reachable(entities, names, p));
            assert forall|x: Seq<char>| here.found.contains(x) <==> before.found.contains(x) || x
                == p by {
                if before.found.contains(x) {
                    let i = choose|i: int| 0 <= i < before.found.len() && before.found[i] == x;
                    assert(here.found[i] == x);
                }
                assert(here.found[before.found.len() as int] == p);
            }
            if entities.contains_key(p) {
                lemma_unvisited_less(entities, before.visited, here.visited);
                assert(depth > 0);
                let ps = entities[p].parents;
                lemma_walk(entities, ps, here, (depth - 1) as nat);
                assert forall|x: Seq<char>| reachable(entities, ps, x) implies reachable(
                    entities,
                    names,
                    x,
                ) by {
                    let n = choose|n: nat| reached(entities, ps, x, n);
                    assert(names.contains(p));
                    assert(reached(entities, names, x, n + 1));
                }
                assert forall|x: Seq<char>, q: Seq<char>|
                    r.visited.contains(x) && !st.visited.contains(x) && entities.contains_key(x)
                        && #[trigger] entities[x].parents.contains(q) implies r.visited.contains(
                    q,
                ) by {
                    if before.visited.contains(x) {
                        assert(before.visited.contains(q));
                    } else if x == p {
                        assert(ps.contains(q));
                    }
                }
            }
        }
    }
}

/// A set that holds `names` and with each entity its parents holds all that
/// can be reached.
proof fn lemma_closed_reaches(
    entities: Map<Seq<char>, EntityModel>,
    names: Seq<Seq<char>>,
    s: Set<Seq<char>>,
    x: Seq<char>,
    n: nat,
)
    requires
        forall|q: Seq<char>| names.contains(q) ==> s.contains(q),
        forall|y: Seq<char>, p: Seq<char>|
            s.contains(y) && entities.contains_key(y) && #[trigger] entities[y].parents.contains(p)
                ==> s.contains(p),
        reached(entities, names, x, n),
    ensures
        s.contains(x),
    decreases n,
{
    if n > 0 {
        let p = choose|p: Seq<char>|
            #[trigger] names.contains(p) && entities.contains_key(p) && reached(
                entities,
                entities[p].parents,
                x,
                (n - 1) as nat,
            );
        assert(s.contains(p));
        lemma_closed_reaches(entities, entities[p].parents, s, x, (n - 1) as nat);
    }
}

/// The ancestors of an entity are exactly the names that a chain of parents
/// leads to.
pub proof fn law_ancestors_are_reachable(
    entities: Map<Seq<char>, EntityModel>,
    name: Seq<char>,
    x: Seq<char>,
)
    requires
        entities.dom().finite(),
        entities.contains_key(name),
    ensures
        ancestor_names(entities, name).contains(x) <==> reachable(
            entities,
            entities[name].parents,
            x,
        ),
{
    let ps = entities[name].parents;
    let st = Walk { visited: Set::empty(), found: seq![] };
    assert(entities.dom().difference(st.visited) =~= entities.dom());
    lemma_walk(entities, ps, st, entities.dom().len());
    let r = walk(entities, ps, st, entities.dom().len());
    assert(!st.found.contains(x));
    if reachable(entities, ps, x) {
        let n = choose|n: nat| reached(entities, ps, x, n);
        lemma_closed_reaches(entities, ps, r.visited, x, n);
    }
}

proof fn lemma_walk_distinct(
    entities: Map<Seq<char>, EntityModel>,
    names: Seq<Seq<char>>,
    st: Walk,
    depth: nat,
)
    requires
        st.found.no_duplicates(),
        forall|x: Seq<char>| st.found.contains(x) ==> st.visited.contains(x),
    ensures
        walk(entities, names, st, depth).found.no_duplicates(),
        forall|x: Seq<char>|
            walk(entities, names, st, depth).found.contains(x) ==> walk(
                entities,
                names,
                st,
                depth,
            ).visited.contains(x),
    decreases depth, names.len(),
{
    if names.len() > 0 {
        lemma_walk_distinct(entities, names.drop_last(), st, depth);
        let before = walk(entities, names.drop_last(), st, depth);
        let p = names.last();
        if !before.visited.contains(p) {
            let here = Walk { visited: before.visited.insert(p), found: before.found.push(p) };
            assert(!before.found.contains(p));
            assert forall|i: int, j: int|
                0 <= i < here.found.len() && 0 <= j < here.found.len() && i != j implies
                here.found[i] != here.found[j] by {
                if i == before.found.len() {
                    assert(before.found.contains(before.found[j]));
                } else if j == before.found.len() {
                    assert(before.found.contains(before.found[i]));
                }
            }
            assert forall|x: Seq<char>| here.found.contains(x) implies here.visited.contains(x) by {
                let i = choose|i: int| 0 <= i < here.found.len() && here.found[i] == x;
                if i < before.found.len() {
                    assert(before.found.contains(before.found[i]));
                }
            }
            if depth > 0 && entities.contains_key(p) {
                lemma_walk_distinct(entities, entities[p].parents, here, (depth - 1) as nat);
            }
        }
    }
}

/// No ancestor is listed twice.
pub proof fn law_ancestors_are_distinct(
    entities: Map<Seq<char>, EntityModel>,
    name: Seq<char>,
)
    ensures
        ancestor_names(entities, name).no_duplicates(),
{
    if entities.contains_key(name) {
        lemma_walk_distinct(
            entities,
            entities[name].parents,
            Walk { visited: Set::empty(), found: seq![] },
            entities.dom().len(),
        );
    }
}

fn walk_ancestors(
    name: &str,
    schema: &Schema,
    visited: &mut NameSet,
    out: &mut Vec<String>,
    Ghost(depth): Ghost<nat>,
)
    requires
        schema.entities@.contains_key(name@) ==> unvisited(schema.entities@, old(visited)@)
            <= depth,
        schema.entities@.dom().finite(),
    ensures
        schema.entities@.contains_key(name@) ==> (Walk {
            visited: final(visited)@,
            found: final(out).deep_view(),
        }) == walk(
            schema.entities@,
            schema.entities@[name@].parents,
            Walk { visited: old(visited)@, found: old(out).deep_view() },
            depth,
        ),
        !schema.entities@.contains_key(name@) ==> final(visited)@ == old(visited)@ && final(
            out).deep_view() == old(out).deep_view(),
    decreases depth,
{
    let ghost ents = schema.entities@;
    let ghost st = Walk { visited: visited@, found: out.deep_view() };
    let entity = match schema.entities.get(name) {
        Some(e) => e,
        None => {
            return ;
        },
    };
    let ghost ps = entity.parents.deep_view();
    let mut i: usize = 0;
    assert(ps.take(0) =~= seq![]);
    while i < entity.parents.len()
        invariant
            i <= entity.parents@.len(),
            ents == schema.entities@,
            ents.dom().finite(),
            ps == entity.parents.deep_view(),
            ps.len() == entity.parents@.len(),
            unvisited(ents, st.visited) <= depth,
            st.visited.subset_of(visited@),
            (Walk { visited: visited@, found: out.deep_view() }) == walk(
                ents,
                ps.take(i as int),
                st,
                depth,
            ),
        decreases entity.parents@.len() - i,
    {
        proof {
            assert(ps.take(i + 1).drop_last() =~= ps.take(i as int));
            assert(ps.take(i + 1).last() == entity.parents@[i as int]@);
            lemma_walk(ents, ps.take(i as int), st, depth);
            lemma_walk(ents, ps.take(i + 1), st, depth);
            lemma_unvisited_less(ents, st.visited, visited@);
        }
        let ghost before = visited@;
        let ghost next = walk(ents, ps.take(i + 1), st, depth);
        let parent = entity.parents[i].clone();
        if visited.insert(parent.clone()) {
            push_item(out, parent.clone());
            let ghost here = Walk { visited: visited@, found: out.deep_view() };
            proof {
                assert(next == if depth > 0 && ents.contains_key(parent@) {
                    walk(ents, ents[parent@].parents, here, (depth - 1) as nat)
                } else {
                    here
                });
                lemma_unvisited_less(ents, before, visited@);
                if ents.contains_key(parent@) {
                    assert(unvisited(ents, visited@) < unvisited(ents, before));
                }
            }
            if schema.entities.contains_key(parent.as_str()) {
                walk_ancestors(
                    parent.as_str(),
                    schema,
                    visited,
                    out,
                    Ghost((depth - 1) as nat),
                );
            }
        } else {
            assert(visited@ =~= before);
        }
        i += 1;
    }
    assert(ps.take(i as int) =~= ps);
}

/// All ancestors of an entity: each parent, followed by its own ancestors.
pub fn ancestors(name: &str, schema: &Schema) -> (r: Vec<String>)
    ensures
        r.deep_view() == ancestor_names(schema.entities@, name@),
{
    let size = schema.entities.len();
    let mut out: Vec<String> = Vec::new();
    let mut visited = NameSet::new();
    proof {
        assert(out.deep_view() =~= seq![]);
        assert(schema.entities@.dom().difference(visited@) =~= schema.entities@.dom());
    }
    walk_ancestors(name, schema, &mut visited, &mut out, Ghost(schema.entities@.dom().len()));
    out
}

/// How many attributes the entities `names` declare; a name that is not
/// declared has none.
pub open spec fn attr_total(
    entities: Map<Seq<char>, EntityModel>,
    names: Seq<Seq<char>>,
) -> nat
    decreases names.len(),
{
    if names.len() == 0 {
        0
    } else {
        attr_total(entities, names.drop_last()) + (if entities.contains_key(names.last()) {
            entities[names.last()].own_attrs.len()
        } else {
            0
        })
    }
}

/// How many attributes an entity has, its own and those of its ancestors.
pub fn effective_attr_count(name: &str, schema: &Schema) -> (r: Option<usize>)
    ensures
        r == (if schema.entities@.contains_key(name@) {
            Some(
                capped(
                    attr_total(
                        schema.entities@,
                        ancestor_names(schema.entities@, name@).push(name@),
                    ),
                ),
            )
        } else {
            None
        }),
{
    let own: usize = match schema.entities.get(name) {
        Some(e) => e.own_attrs.len(),
        None => {
            return None;
        },
    };
    let names = ancestors(name, schema);
    let ghost all = names.deep_view();
    let mut total: usize = 0;
    let mut i: usize = 0;
    assert(all.take(0) =~= seq![]);
    while i < names.len()
        invariant
            i <= names@.len(),
            all == names.deep_view(),
            total == capped(attr_total(schema.entities@, all.take(i as int))),
        decreases names@.len() - i,
    {
        proof {
            assert(all.take(i + 1).drop_last() =~= all.take(i as int));
            assert(all.take(i + 1).last() == names@[i as int]@);
        }
        if let Some(e) = schema.entities.get(names[i].as_str()) {
            total = total.saturating_add(e.own_attrs.len());
        }
        i += 1;
    }
    proof {
        assert(all.take(i as int) =~= all);
        assert(all.push(name@).drop_last() =~= all);
    }
    Some(total.saturating_add(own))
}

/// The root of an entity without parents, or of a name that is no entity, is itself.
pub proof fn law_root_of_a_root(entities: Map<Seq<char>, EntityModel>, name: Seq<char>)
    requires
        !entities.contains_key(name) || entities[name].parents.len() == 0,
    ensures
        chain_end(|x: Seq<char>| first_parent(entities, x), name) == name,
{
    crate::chains::law_chain_ends_where_it_stops(|x: Seq<char>| first_parent(entities, x), name);
}

/// The root of an entity is that of its first parent, if the way up from there ends
/// without coming back.
pub proof fn law_root_of_the_first_parent(
    entities: Map<Seq<char>, EntityModel>,
    name: Seq<char>,
    n: nat,
)
    requires
        entities.contains_key(name),
        entities[name].parents.len() > 0,
        ({
            let f = |x: Seq<char>| first_parent(entities, x);
            let p = entities[name].parents[0];
            &&& crate::chains::chain_stops(f, p, n)
            &&& f(crate::chains::chain_at(f, p, n)) is None
            &&& forall|i: nat| i <= n ==> #[trigger] crate::chains::chain_at(f, p, i) != name
        }),
    ensures
        chain_end(|x: Seq<char>| first_parent(entities, x), name) == chain_end(
            |x: Seq<char>| first_parent(entities, x),
            entities[name].parents[0],
        ),
{
    crate::chains::law_chain_goes_on(|x: Seq<char>| first_parent(entities, x), name, n);
}

/// The attributes of a list of entities are those of its parts; a single name counts
/// with its own attributes, or not at all.
pub proof fn law_attributes_add_up(
    entities: Map<Seq<char>, EntityModel>,
    a: Seq<Seq<char>>,
    b: Seq<Seq<char>>,
    x: Seq<char>,
)
    ensures
        attr_total(entities, a + b) == attr_total(entities, a) + attr_total(entities, b),
        entities.contains_key(x) ==> attr_total(entities, seq![x])
            == entities[x].own_attrs.len(),
        !entities.contains_key(x) ==> attr_total(entities, seq![x]) == 0,
    decreases b.len(),
{
    reveal_with_fuel(attr_total, 2);
    let q = seq![x];
    assert(q.drop_last() =~= seq![]);
    assert(q.last() == x);
    if b.len() == 0 {
        assert(a + b =~= a);
    } else {
        law_attributes_add_up(entities, a, b.drop_last(), x);
        assert((a + b).drop_last() =~= a + b.drop_last());
        assert((a + b).last() == b.last());
    }
}

proof fn lemma_walk_adds_behind(
    entities: Map<Seq<char>, EntityModel>,
    names: Seq<Seq<char>>,
    st: Walk,
    depth: nat,
)
    ensures
        st.found.len() <= walk(entities, names, st, depth).found.len(),
        walk(entities, names, st, depth).found.take(st.found.len() as int) == st.found,
        names.len() > 0 && !st.visited.contains(names[0]) ==> walk(
            entities,
            names,
            st,
            depth,
        ).found.len() > st.found.len() && walk(entities, names, st, depth).found[st.found.len() as int]
            == names[0],
    decreases depth, names.len(),
{
    if names.len() == 0 {
        assert(st.found.take(st.found.len() as int) =~= st.found);
    } else {
        let before = walk(entities, names.drop_last(), st, depth);
        let all = walk(entities, names, st, depth);
        let n = st.found.len() as int;
        lemma_walk_adds_behind(entities, names.drop_last(), st, depth);
        let p = names.last();
        if !before.visited.contains(p) {
            let here = Walk { visited: before.visited.insert(p), found: before.found.push(p) };
            if depth > 0 && entities.contains_key(p) {
                lemma_walk_adds_behind(entities, entities[p].parents, here, (depth - 1) as nat);
                assert(all.found.take(here.found.len() as int) == here.found);
            } else {
                assert(all.found.take(here.found.len() as int) =~= here.found);
            }
            assert(all.found.take(n) =~= all.found.take(here.found.len() as int).take(n));
            assert(here.found.take(n) =~= before.found.take(n));
            assert(all.found[before.found.len() as int] == here.found[before.found.len() as int]);
            if names.len() > 1 && !st.visited.contains(names[0]) {
                assert(names.drop_last()[0] == names[0]);
                assert(all.found[n] == here.found[n]);
            }
        } else if names.len() > 1 {
            assert(names.drop_last()[0] == names[0]);
        }
    }
}

/// The ancestors start with the first parent.
pub proof fn law_first_parent_is_the_first_ancestor(
    entities: Map<Seq<char>, EntityModel>,
    name: Seq<char>,
)
    requires
        entities.contains_key(name),
        entities[name].parents.len() > 0,
    ensures
        ancestor_names(entities, name).len() > 0,
        ancestor_names(entities, name)[0] == entities[name].parents[0],
{
    lemma_walk_adds_behind(
        entities,
        entities[name].parents,
        Walk { visited: Set::empty(), found: seq![] },
        entities.dom().len(),
    );
}

} // verus!
