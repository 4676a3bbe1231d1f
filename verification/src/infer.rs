//! The inference stages.

use crate::names::Duplicate;
use vstd::prelude::*;

pub mod arena;
pub mod arena_laws;
pub mod export_common;
pub mod export_laws;
pub mod fields;
pub mod hierarchy;
pub mod io;
pub mod l1_export;
pub mod lineage;
pub mod naming;
pub mod naming_laws;
pub mod notices;
pub mod overrides;
pub mod pool;
pub mod profile_export;
pub mod prune;
pub mod refgraph;
pub mod refgraph_laws;
pub mod reshape;
pub mod reshape_laws;
pub mod shape;
pub mod universal_export;
pub mod variant;
pub mod variant_laws;

verus! {

/// An entity that no rule decides: why, and how a decision could look.
#[derive(Debug)]
pub struct Unresolved {
    pub reasons: Vec<String>,
    pub override_example: String,
}

/// What an `Unresolved` stands for.
pub struct UnresolvedModel {
    pub reasons: Seq<Seq<char>>,
    pub override_example: Seq<char>,
}

impl Unresolved {
    pub open spec fn view(&self) -> UnresolvedModel {
        UnresolvedModel {
            reasons: self.reasons.deep_view(),
            override_example: self.override_example@,
        }
    }
}

impl DeepView for Unresolved {
    type V = UnresolvedModel;

    open spec fn deep_view(&self) -> UnresolvedModel {
        self.view()
    }
}

impl Duplicate for Unresolved {
    fn duplicate(&self) -> Self {
        Unresolved {
            reasons: self.reasons.duplicate(),
            override_example: self.override_example.clone(),
        }
    }
}

/// A decision that still wants a look, with what speaks for it.
#[derive(Debug)]
pub struct Decision<T> {
    pub data: T,
    pub reasons: Vec<String>,
}

impl<T: DeepView> DeepView for Decision<T> {
    type V = (T::V, Seq<Seq<char>>);

    open spec fn deep_view(&self) -> (T::V, Seq<Seq<char>>) {
        (self.data.deep_view(), self.reasons.deep_view())
    }
}

} // verus!
