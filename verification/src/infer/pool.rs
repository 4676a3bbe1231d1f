//! Pool grouping: each arena needs a pool.

use crate::infer::arena::ArenaSpec;
use crate::names::{lemma_ordered, no_names, ordered, push_item, NameSet, Table};
use crate::text::{decimal, decimal_of, join3, join_all, joined};
use vstd::prelude::*;
use vstd::string::*;

verus! {

broadcast use vstd::string::group_string_axioms;

/// The pool that an arena belongs to.
#[derive(Debug, PartialEq, Eq)]
pub struct PoolEntry {
    pub pool: String,
}

impl DeepView for PoolEntry {
    type V = Seq<char>;

    open spec fn deep_view(&self) -> Seq<char> {
        self.pool@
    }
}

/// What comes of comparing the arenas with the pool entries.
#[derive(Debug)]
pub enum Validation {
    Complete {
        /// How many pools the required arenas use.
        distinct_pools: usize,
        /// Entries that belong to no arena.
        extras: Vec<String>,
    },
    /// Arenas without an entry.
    Missing(Vec<String>),
}

/// The pools of the required arenas.
pub open spec fn used_pools(
    required: Set<Seq<char>>,
    provided: Map<Seq<char>, Seq<char>>,
) -> Set<Seq<char>> {
    provided.restrict(required).values()
}

/// Compares the required arenas with the pool entries.
pub fn validate(required: &NameSet, provided: &Table<PoolEntry>) -> (r: Validation)
    ensures
        match r {
            Validation::Missing(missing) => missing.deep_view() == ordered(
                required@.difference(provided@.dom()),
            ) && missing@.len() > 0,
            Validation::Complete { distinct_pools, extras } => required@.subset_of(provided@.dom())
                && extras.deep_view() == ordered(provided@.dom().difference(required@))
                && distinct_pools == used_pools(required@, provided@).len() && used_pools(
                required@,
                provided@,
            ).finite(),
        },
{
    let provided_keys = NameSet::from_names(&provided.keys());
    let total = provided.len();
    proof {
        lemma_ordered(provided@.dom());
        assert(provided_keys@ =~= provided@.dom());
    }
    let missing = required.minus(&provided_keys);
    if missing.len() > 0 {
        return Validation::Missing(missing.names());
    }
    proof {
        assert forall|x: Seq<char>| required@.contains(x) implies provided@.dom().contains(x) by {
            if !provided@.dom().contains(x) {
                assert(missing@.contains(x));
                assert(missing@ =~= Set::empty());
            }
        }
    }
    let extras = provided_keys.minus(required);
    let mut pools = NameSet::new();
    let ghost o = ordered(provided@.dom());
    let mut i: usize = 0;
    while i < total
        invariant
            i <= total,
            total == o.len(),
            o == ordered(provided@.dom()),
            provided@.dom().finite(),
            forall|v: Seq<char>|
                pools@.contains(v) <==> exists|j: int|
                    0 <= j < i && required@.contains(#[trigger] o[j]) && provided@[o[j]] == v,
        decreases total - i,
    {
        let ghost before = pools@;
        let k = provided.key_at(i);
        if required.contains(k.as_str()) {
            pools.insert(provided.value_at(i).pool.clone());
        }
        proof {
            assert forall|v: Seq<char>| pools@.contains(v) <==> exists|j: int|
                0 <= j < i + 1 && required@.contains(#[trigger] o[j]) && provided@[o[j]] == v by {
                if before.contains(v) {
                    let j = choose|j: int|
                        0 <= j < i && required@.contains(#[trigger] o[j]) && provided@[o[j]] == v;
                    assert(required@.contains(o[j]));
                }
                if required@.contains(o[i as int]) {
                    assert(required@.contains(o[i as int]));
                }
            }
        }
        i += 1;
    }
    proof {
        let m = provided@.restrict(required@);
        assert forall|v: Seq<char>| pools@.contains(v) <==> m.values().contains(v) by {
            if pools@.contains(v) {
                let j = choose|j: int|
                    0 <= j < i && required@.contains(#[trigger] o[j]) && provided@[o[j]] == v;
                assert(provided@.dom().contains(o[j]));
                assert(m.dom().contains(o[j]) && m[o[j]] == v);
            }
            if m.values().contains(v) {
                let k = choose|k: Seq<char>| #[trigger] m.dom().contains(k) && m[k] == v;
                assert(o.contains(k));
                let j = choose|j: int| 0 <= j < o.len() && o[j] == k;
                assert(required@.contains(o[j]));
            }
        }
        assert(pools@ =~= used_pools(required@, provided@));
    }
    Validation::Complete { distinct_pools: pools.len(), extras: extras.names() }
}

/// The message about a pool file that is not there.
pub open spec fn missing_file(required: Set<Seq<char>>) -> Seq<char> {
    "pools.toml not found — required arenas ("@ + decimal(required.len()) + "):\n  "@ + joined(
        ordered(required),
        "\n  "@,
    ) + "\nAdd `[arena.<name>] pool = \"<pool_name>\"` for each."@
}

pub fn missing_file_message(required: &NameSet) -> (r: String)
    ensures
        r@ == missing_file(required@),
{
    let mut r: String = "pools.toml not found — required arenas (".to_owned();
    r.append(decimal_of(required.len()).as_str());
    r.append("):\n  ");
    r.append(join_all(&required.names(), "\n  ").as_str());
    r.append("\nAdd `[arena.<name>] pool = \"<pool_name>\"` for each.");
    r
}

/// The message about arenas without an entry.
pub open spec fn missing_entries(missing: Seq<Seq<char>>) -> Seq<char> {
    "pools.toml missing "@ + decimal(missing.len()) + " required arena entries:\n  "@ + joined(
        missing,
        "\n  "@,
    ) + "\nAdd `[arena.<name>] pool = \"<pool_name>\"` for each."@
}

pub fn missing_entries_message(missing: &Vec<String>) -> (r: String)
    ensures
        r@ == missing_entries(missing.deep_view()),
{
    let mut r: String = "pools.toml missing ".to_owned();
    r.append(decimal_of(missing.len()).as_str());
    r.append(" required arena entries:\n  ");
    r.append(join_all(missing, "\n  ").as_str());
    r.append("\nAdd `[arena.<name>] pool = \"<pool_name>\"` for each.");
    r
}

// ---------------------------------------------------------------------
// The stage
// ---------------------------------------------------------------------

/// What the stage found.
#[derive(Debug)]
pub struct PoolCheck {
    pub required: usize,
    pub distinct_pools: usize,
    pub warnings: Vec<String>,
}

/// The arenas of the groups.
pub open spec fn arenas_used(arenas: Map<Seq<char>, Seq<char>>) -> Set<Seq<char>> {
    Set::new(|a: Seq<char>| exists|g: Seq<char>| #[trigger] arenas.contains_key(g) && arenas[g] == a)
}

/// Collects the arenas of the groups.
pub fn required_arenas(arenas: &Table<ArenaSpec>) -> (r: NameSet)
    ensures
        r@ == arenas_used(arenas@),
{
    let n = arenas.len();
    let ghost o = ordered(arenas@.dom());
    let mut out = NameSet::new();
    let mut i: usize = 0;
    proof {
        lemma_ordered(arenas@.dom());
    }
    while i < n
        invariant
            i <= n,
            n == o.len(),
            o == ordered(arenas@.dom()),
            forall|x: Seq<char>| o.contains(x) <==> arenas@.dom().contains(x),
            forall|a: Seq<char>|
                out@.contains(a) <==> exists|j: int| 0 <= j < i && arenas@[#[trigger] o[j]] == a,
        decreases n - i,
    {
        let ghost before = out@;
        out.insert(arenas.value_at(i).arena.clone());
        proof {
            assert forall|a: Seq<char>| out@.contains(a) <==> exists|j: int|
                0 <= j < i + 1 && arenas@[#[trigger] o[j]] == a by {
                if before.contains(a) {
                    let j = choose|j: int| 0 <= j < i && arenas@[#[trigger] o[j]] == a;
                    assert(arenas@[o[j]] == a);
                }
                assert(arenas@[o[i as int]] == arenas@[o[i as int]]);
            }
        }
        i += 1;
    }
    proof {
        assert forall|a: Seq<char>| out@.contains(a) <==> arenas_used(arenas@).contains(a) by {
            if out@.contains(a) {
                let j = choose|j: int| 0 <= j < i && arenas@[#[trigger] o[j]] == a;
                assert(o.contains(o[j]));
                assert(arenas@.contains_key(o[j]));
            }
            if arenas_used(arenas@).contains(a) {
                let g = choose|g: Seq<char>| #[trigger] arenas@.contains_key(g) && arenas@[g] == a;
                assert(o.contains(g));
                let j = choose|j: int| 0 <= j < o.len() && o[j] == g;
                assert(arenas@[o[j]] == a);
            }
        }
        assert(out@ =~= arenas_used(arenas@));
    }
    out
}

/// The warning about an entry that belongs to no arena.
pub open spec fn extra_pool(e: Seq<char>) -> Seq<char> {
    "warning: pools.toml [arena."@ + e + "] is not an arena in arenas_pruned.toml — ignored"@
}

fn warn_extra_pools(extras: &Vec<String>) -> (r: Vec<String>)
    ensures
        r.deep_view() == extras.deep_view().map_values(|e: Seq<char>| extra_pool(e)),
{
    let ghost want = extras.deep_view().map_values(|e: Seq<char>| extra_pool(e));
    let mut out: Vec<String> = no_names();
    let mut i: usize = 0;
    assert(want.take(0) =~= seq![]);
    while i < extras.len()
        invariant
            i <= extras@.len(),
            want == extras.deep_view().map_values(|e: Seq<char>| extra_pool(e)),
            out.deep_view() == want.take(i as int),
        decreases extras@.len() - i,
    {
        assert(extras.deep_view()[i as int] == extras@[i as int]@);
        push_item(
            &mut out,
            join3(
                "warning: pools.toml [arena.",
                extras[i].as_str(),
                "] is not an arena in arenas_pruned.toml — ignored",
            ),
        );
        assert(out.deep_view() =~= want.take(i + 1));
        i += 1;
    }
    assert(want.take(i as int) =~= want);
    out
}

/// Checks that every arena has a pool. `provided` holds the entries, if there is
/// a file of them.
pub fn pool_stage(arenas: &Table<ArenaSpec>, provided: Option<&Table<PoolEntry>>) -> (r: Result<
    PoolCheck,
    String,
>)
    ensures
        ({
            let required = arenas_used(arenas@);
            if arenas@ == Map::<Seq<char>, Seq<char>>::empty() {
                r matches Err(e) && e@
                    == "arenas_pruned.toml is empty or missing — run `infer prune --corpus <path>` first."@
            } else {
                match provided {
                    None => r matches Err(e) && e@ == missing_file(required),
                    Some(p) => if required.subset_of(p@.dom()) {
                        r matches Ok(c) && c.required == required.len() && c.distinct_pools
                            == used_pools(required, p@).len() && c.warnings.deep_view() == ordered(
                            p@.dom().difference(required),
                        ).map_values(|e: Seq<char>| extra_pool(e))
                    } else {
                        r matches Err(e) && e@ == missing_entries(
                            ordered(required.difference(p@.dom())),
                        )
                    },
                }
            }
        }),
{
    if arenas.is_empty() {
        return Err(
            "arenas_pruned.toml is empty or missing — run `infer prune --corpus <path>` first.".to_owned(),
        );
    }
    let required = required_arenas(arenas);
    let size = required.len();
    match provided {
        None => Err(missing_file_message(&required)),
        Some(p) => match validate(&required, p) {
            Validation::Missing(missing) => {
                proof {
                    let gone = required@.difference(p@.dom());
                    if required@.subset_of(p@.dom()) {
                        assert(gone =~= Set::empty());
                        lemma_ordered(gone);
                        assert(missing.deep_view().len() == missing@.len());
                    }
                }
                Err(missing_entries_message(&missing))
            },
            Validation::Complete { distinct_pools, extras } => Ok(
                PoolCheck {
                    required: size,
                    distinct_pools,
                    warnings: warn_extra_pools(&extras),
                },
            ),
        },
    }
}

/// The pools in use are those that the entries give to the required arenas.
pub proof fn law_pools_in_use(
    required: Set<Seq<char>>,
    provided: Map<Seq<char>, Seq<char>>,
    p: Seq<char>,
)
    ensures
        used_pools(required, provided).contains(p) <==> exists|a: Seq<char>| #[trigger]
            required.contains(a) && provided.contains_key(a) && provided[a] == p,
{
    let q = provided.restrict(required);
    if used_pools(required, provided).contains(p) {
        let a = choose|a: Seq<char>| q.contains_key(a) && q[a] == p;
        assert(required.contains(a) && provided.contains_key(a) && provided[a] == p);
    }
    if exists|a: Seq<char>| #[trigger]
        required.contains(a) && provided.contains_key(a) && provided[a] == p {
        let a = choose|a: Seq<char>| #[trigger]
            required.contains(a) && provided.contains_key(a) && provided[a] == p;
        assert(q.contains_key(a) && q[a] == p);
    }
}

} // verus!
