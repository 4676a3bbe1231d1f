//! What a stage leaves open, and what lets the next stages start.

use crate::infer::{Decision, Unresolved};
use crate::names::Table;
use crate::text::complaint;
use vstd::prelude::*;
use vstd::string::*;

verus! {

#[derive(Debug, Clone, Copy)]
pub struct PendingStats {
    pub total: usize,
    pub confident: usize,
    pub review: usize,
    pub unresolved: usize,
}

/// The entries of a stage that are not decided yet.
pub struct PendingFile<T: DeepView> {
    pub stats: PendingStats,
    /// Decisions that want a review.
    pub review: Table<Decision<T>>,
    /// Entries without a decision.
    pub unresolved: Table<Unresolved>,
}

impl<T: DeepView> PendingFile<T> {
    /// Whether nothing is left to do.
    pub fn is_empty(&self) -> (r: bool)
        ensures
            r == (self.review@.len() == 0 && self.unresolved@.len() == 0),
    {
        self.review.is_empty() && self.unresolved.is_empty()
    }
}

// ---------------------------------------------------------------------
// The start of the next stages
// ---------------------------------------------------------------------

/// Why the arena stage does not start: the stage before it left entries open.
pub open spec fn variants_left(allow_pending: bool, variants_pending: bool) -> Option<Seq<char>> {
    if !allow_pending && variants_pending {
        Some(
            "variants_pending.toml exists — variant stage has unresolved/review items.\nResolve in variants_overrides.toml or pass --allow-pending to proceed with partial input."@,
        )
    } else {
        None
    }
}

/// Lets the arena stage start, unless the variant stage left entries open.
pub fn check_variants_done(allow_pending: bool, variants_pending: bool) -> (r: Result<(), String>)
    ensures
        complaint(r) == variants_left(allow_pending, variants_pending),
{
    if !allow_pending && variants_pending {
        return Err(
            "variants_pending.toml exists — variant stage has unresolved/review items.\nResolve in variants_overrides.toml or pass --allow-pending to proceed with partial input.".to_owned(),
        );
    }
    Ok(())
}

/// Why a later stage does not start: one of the first two stages left entries
/// open.
pub open spec fn decisions_left(
    allow_pending: bool,
    variants_pending: bool,
    arenas_pending: bool,
) -> Option<Seq<char>> {
    if !allow_pending && variants_pending {
        Some(
            "variants_pending.toml exists — variant stage has unresolved items.\nResolve in variants_overrides.toml or pass --allow-pending."@,
        )
    } else if !allow_pending && arenas_pending {
        Some(
            "arenas_pending.toml exists — arena stage has unresolved/review items.\nResolve in arenas_overrides.toml or pass --allow-pending."@,
        )
    } else {
        None
    }
}

/// Lets a later stage start, unless one of the first two stages left entries
/// open.
pub fn check_decisions_done(
    allow_pending: bool,
    variants_pending: bool,
    arenas_pending: bool,
) -> (r: Result<(), String>)
    ensures
        complaint(r) == decisions_left(allow_pending, variants_pending, arenas_pending),
{
    if !allow_pending && variants_pending {
        return Err(
            "variants_pending.toml exists — variant stage has unresolved items.\nResolve in variants_overrides.toml or pass --allow-pending.".to_owned(),
        );
    }
    if !allow_pending && arenas_pending {
        return Err(
            "arenas_pending.toml exists — arena stage has unresolved/review items.\nResolve in arenas_overrides.toml or pass --allow-pending.".to_owned(),
        );
    }
    Ok(())
}

/// The later stages start just where nothing is open, or open entries are allowed.
pub proof fn law_later_stages_start(
    allow_pending: bool,
    variants_pending: bool,
    arenas_pending: bool,
)
    ensures
        decisions_left(allow_pending, variants_pending, arenas_pending) is None <==> allow_pending
            || (!variants_pending && !arenas_pending),
{
}

} // verus!
