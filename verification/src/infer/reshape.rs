//! Manual reshaping of the summaries: splits, merges, anchors and recasts,
//! and the clean-up of the enums that they leave.

use crate::express::reader::{quote_list, quoted_list};
use crate::infer::reshape_laws::{
    law_untouched_entities_stay, no_merge_touches, no_recast_touches, no_split_touches,
};
use crate::infer::shape::{EntitySummary, Summaries, SummaryModel};
use crate::infer::variant::{SpecModel, VariantSpec};
use crate::names::{
    append_items, first_some, lemma_first_some_next, lemma_first_some_prefix, lemma_ordered,
    lemma_tabulate_ends, lemma_tabulate_next, lemma_take_contains, no_names, ordered, push_item,
    tabulate, Duplicate, NameSet, Table,
};
use crate::text::{complaint, decimal, decimal_of, join, join3, outcome, quote, quoted, same};
use vstd::prelude::*;
use vstd::string::*;

verus! {

broadcast use vstd::string::group_string_axioms;

// ---------------------------------------------------------------------
// Inputs
// ---------------------------------------------------------------------

/// One part of a split.
#[derive(Debug)]
pub struct SplitVariant {
    pub name: String,
    pub suffix: String,
    pub arena: String,
    pub kind: Option<String>,
    pub enum_of: Option<String>,
}

/// What a `SplitVariant` stands for.
pub struct PartModel {
    pub name: Seq<char>,
    pub suffix: Seq<char>,
    pub arena: Seq<char>,
    pub kind: Option<Seq<char>>,
    pub enum_of: Option<Seq<char>>,
}

impl DeepView for SplitVariant {
    type V = PartModel;

    open spec fn deep_view(&self) -> PartModel {
        PartModel {
            name: self.name@,
            suffix: self.suffix@,
            arena: self.arena@,
            kind: self.kind.deep_view(),
            enum_of: self.enum_of.deep_view(),
        }
    }
}

/// How an entity is split.
#[derive(Debug)]
pub struct SplitEntry {
    pub context_signal: String,
    pub variants: Vec<SplitVariant>,
    pub reasons: Option<String>,
}

/// What a `SplitEntry` stands for.
pub struct SplitModel {
    pub context_signal: Seq<char>,
    pub variants: Seq<PartModel>,
    pub reasons: Option<Seq<char>>,
}

impl DeepView for SplitEntry {
    type V = SplitModel;

    open spec fn deep_view(&self) -> SplitModel {
        SplitModel {
            context_signal: self.context_signal@,
            variants: self.variants.deep_view(),
            reasons: self.reasons.deep_view(),
        }
    }
}

/// The splits, by source entity.
pub struct SplitsFile {
    pub split: Table<SplitEntry>,
}

impl Default for SplitsFile {
    fn default() -> (r: Self)
        ensures
            r.split@ == Map::<Seq<char>, SplitModel>::empty(),
    {
        SplitsFile { split: Table::new() }
    }
}

/// Which fields a merged entity has.
#[derive(Debug, Clone, Copy, PartialEq, Eq)]
pub enum FieldsStrategy {
    Union,
    First,
}

impl Default for FieldsStrategy {
    fn default() -> (r: Self)
        ensures
            r is Union,
    {
        FieldsStrategy::Union
    }
}

/// How entities are merged.
#[derive(Debug)]
pub struct MergeEntry {
    pub target_name: String,
    pub arena: String,
    pub absorbs: Vec<String>,
    pub fields_strategy: FieldsStrategy,
    pub reasons: Option<String>,
    pub kind: Option<String>,
    pub enum_of: Option<String>,
}

/// What a `MergeEntry` stands for.
pub struct MergeModel {
    pub target_name: Seq<char>,
    pub arena: Seq<char>,
    pub absorbs: Seq<Seq<char>>,
    pub fields_strategy: FieldsStrategy,
    pub reasons: Option<Seq<char>>,
    pub kind: Option<Seq<char>>,
    pub enum_of: Option<Seq<char>>,
}

impl DeepView for MergeEntry {
    type V = MergeModel;

    open spec fn deep_view(&self) -> MergeModel {
        MergeModel {
            target_name: self.target_name@,
            arena: self.arena@,
            absorbs: self.absorbs.deep_view(),
            fields_strategy: self.fields_strategy,
            reasons: self.reasons.deep_view(),
            kind: self.kind.deep_view(),
            enum_of: self.enum_of.deep_view(),
        }
    }
}

/// The merges, by label.
pub struct MergesFile {
    pub merge: Table<MergeEntry>,
}

impl Default for MergesFile {
    fn default() -> (r: Self)
        ensures
            r.merge@ == Map::<Seq<char>, MergeModel>::empty(),
    {
        MergesFile { merge: Table::new() }
    }
}

/// How a list of entities is recast.
#[derive(Debug)]
pub struct RecastEntry {
    pub kind: String,
    pub enum_of: Option<String>,
    pub arena: String,
    pub entities: Vec<String>,
    pub reasons: Option<String>,
}

/// What a `RecastEntry` stands for.
pub struct RecastModel {
    pub kind: Seq<char>,
    pub enum_of: Option<Seq<char>>,
    pub arena: Seq<char>,
    pub entities: Seq<Seq<char>>,
    pub reasons: Option<Seq<char>>,
}

impl DeepView for RecastEntry {
    type V = RecastModel;

    open spec fn deep_view(&self) -> RecastModel {
        RecastModel {
            kind: self.kind@,
            enum_of: self.enum_of.deep_view(),
            arena: self.arena@,
            entities: self.entities.deep_view(),
            reasons: self.reasons.deep_view(),
        }
    }
}

/// The recasts, by label.
pub struct RecastsFile {
    pub recast: Table<RecastEntry>,
}

impl Default for RecastsFile {
    fn default() -> (r: Self)
        ensures
            r.recast@ == Map::<Seq<char>, RecastModel>::empty(),
    {
        RecastsFile { recast: Table::new() }
    }
}

/// An enum that no schema declares.
#[derive(Debug)]
pub struct AnchorEntry {
    pub arena: String,
    pub kind: String,
    pub reasons: String,
}

/// What an `AnchorEntry` stands for.
pub struct AnchorModel {
    pub arena: Seq<char>,
    pub kind: Seq<char>,
    pub reasons: Seq<char>,
}

impl DeepView for AnchorEntry {
    type V = AnchorModel;

    open spec fn deep_view(&self) -> AnchorModel {
        AnchorModel { arena: self.arena@, kind: self.kind@, reasons: self.reasons@ }
    }
}

/// The anchors, by name.
pub struct AnchorsFile {
    pub anchor: Table<AnchorEntry>,
}

impl Default for AnchorsFile {
    fn default() -> (r: Self)
        ensures
            r.anchor@ == Map::<Seq<char>, AnchorModel>::empty(),
    {
        AnchorsFile { anchor: Table::new() }
    }
}

// ---------------------------------------------------------------------
// Kinds
// ---------------------------------------------------------------------

/// The name of a kind.
pub open spec fn kind_name(k: SpecModel) -> Seq<char> {
    match k {
        SpecModel::SingleStruct => "single_struct"@,
        SpecModel::InEnum { enum_name } => "in_enum"@,
        SpecModel::EnumBase { enum_name } => "enum_base"@,
        SpecModel::ConcreteSupertype => "concrete_supertype"@,
        SpecModel::ComplexSupertype { mixin_pattern, oneof_children, mixin } => {
            "complex_supertype"@
        },
        SpecModel::CompositeOneOf { simple_alternatives, composite_alternatives } => {
            "composite_one_of"@
        },
        SpecModel::NestedField { into, as_field, added_attr_count } => "nested_field"@,
        SpecModel::MergedInto { target, chain } => "merged_into"@,
    }
}

pub fn kind_str(spec: &VariantSpec) -> (r: &'static str)
    ensures
        r@ == kind_name(spec.view()),
{
    match spec {
        VariantSpec::SingleStruct => "single_struct",
        VariantSpec::InEnum { .. } => "in_enum",
        VariantSpec::EnumBase { .. } => "enum_base",
        VariantSpec::ConcreteSupertype => "concrete_supertype",
        VariantSpec::ComplexSupertype { .. } => "complex_supertype",
        VariantSpec::CompositeOneOf { .. } => "composite_one_of",
        VariantSpec::NestedField { .. } => "nested_field",
        VariantSpec::MergedInto { .. } => "merged_into",
    }
}

/// The kind that an entry asks for: that of `base` if it asks for none, a
/// single struct, or a member of a given enum.
pub open spec fn asked_kind(
    base: SpecModel,
    kind: Option<Seq<char>>,
    enum_of: Option<Seq<char>>,
    file: Seq<char>,
    key: Seq<char>,
) -> Result<SpecModel, Seq<char>> {
    let place = file + " ["@ + key + "]: "@;
    match (kind, enum_of) {
        (None, None) => Ok(base),
        (None, Some(x)) => Err(place + "enum_of set without kind"@),
        (Some(k), en) => if k == "single_struct"@ {
            match en {
                None => Ok(SpecModel::SingleStruct),
                Some(x) => Err(
                    place + "enum_of incompatible with kind = \"single_struct\""@,
                ),
            }
        } else if k == "in_enum"@ {
            match en {
                Some(name) => Ok(SpecModel::InEnum { enum_name: name }),
                None => Err(place + "kind = \"in_enum\" requires enum_of"@),
            }
        } else {
            Err(
                place + "unsupported kind override '"@ + k
                    + "' (allowed: \"single_struct\", \"in_enum\")"@,
            )
        },
    }
}

pub fn variant_spec_from_override(
    base: &VariantSpec,
    kind: &Option<String>,
    enum_of: &Option<String>,
    file: &str,
    key: &str,
) -> (r: Result<VariantSpec, String>)
    ensures
        outcome(r) == asked_kind(base.view(), kind.deep_view(), enum_of.deep_view(), file@, key@),
{
    let mut place: String = join3(file, " [", key);
    place.append("]: ");
    match kind {
        None => match enum_of {
            None => Ok(base.duplicate()),
            Some(_) => {
                place.append("enum_of set without kind");
                Err(place)
            },
        },
        Some(k) => if same(k.as_str(), "single_struct") {
            match enum_of {
                None => Ok(VariantSpec::SingleStruct),
                Some(_) => {
                    place.append("enum_of incompatible with kind = \"single_struct\"");
                    Err(place)
                },
            }
        } else if same(k.as_str(), "in_enum") {
            match enum_of {
                Some(name) => Ok(VariantSpec::InEnum { enum_name: name.clone() }),
                None => {
                    place.append("kind = \"in_enum\" requires enum_of");
                    Err(place)
                },
            }
        } else {
            place.append("unsupported kind override '");
            place.append(k.as_str());
            place.append("' (allowed: \"single_struct\", \"in_enum\")");
            Err(place)
        },
    }
}

// ---------------------------------------------------------------------
// Warnings
// ---------------------------------------------------------------------

/// Whether an entity has no struct of its own.
pub open spec fn absorbed(k: SpecModel) -> bool {
    k is NestedField || k is MergedInto
}

fn is_absorbed(spec: &VariantSpec) -> (r: bool)
    ensures
        r == absorbed(spec.view()),
{
    match spec {
        VariantSpec::NestedField { .. } => true,
        VariantSpec::MergedInto { .. } => true,
        _ => false,
    }
}

/// The warning about a split of `k`.
pub open spec fn split_warning(m: Summaries, k: Seq<char>) -> Option<Seq<char>> {
    if !m.contains_key(k) {
        Some("warning: splits.toml [split."@ + k + "] — entity not in entities.toml"@)
    } else if absorbed(m[k].variant) {
        Some(
            "warning: splits.toml [split."@ + k + "] — entity is "@ + kind_name(m[k].variant)
                + " (split unsupported on absorbed entities)"@,
        )
    } else {
        None
    }
}

pub open spec fn split_warnings(m: Summaries, keys: Seq<Seq<char>>) -> Seq<Seq<char>>
    decreases keys.len(),
{
    if keys.len() == 0 {
        seq![]
    } else {
        match split_warning(m, keys.last()) {
            Some(w) => split_warnings(m, keys.drop_last()).push(w),
            None => split_warnings(m, keys.drop_last()),
        }
    }
}

/// Warns about splits of entities that are not there or have no struct.
pub fn validate_splits(splits: &SplitsFile, entities: &Table<EntitySummary>) -> (r: Vec<String>)
    ensures
        r.deep_view() == split_warnings(entities@, ordered(splits.split@.dom())),
{
    let n = splits.split.len();
    let ghost o = ordered(splits.split@.dom());
    let mut out: Vec<String> = Vec::new();
    let mut i: usize = 0;
    proof {
        assert(o.take(0) =~= seq![]);
        assert(out.deep_view() =~= seq![]);
    }
    while i < n
        invariant
            i <= n,
            n == o.len(),
            o == ordered(splits.split@.dom()),
            out.deep_view() == split_warnings(entities@, o.take(i as int)),
        decreases n - i,
    {
        assert(o.take(i + 1).drop_last() =~= o.take(i as int));
        let k = splits.split.key_at(i);
        match entities.get(k.as_str()) {
            None => {
                push_item(
                    &mut out,
                    join3(
                        "warning: splits.toml [split.",
                        k.as_str(),
                        "] — entity not in entities.toml",
                    ),
                );
            },
            Some(s) => {
                if is_absorbed(&s.variant) {
                    let mut w: String = join3(
                        "warning: splits.toml [split.",
                        k.as_str(),
                        "] — entity is ",
                    );
                    w.append(kind_str(&s.variant));
                    w.append(" (split unsupported on absorbed entities)");
                    push_item(&mut out, w);
                }
            },
        }
        i += 1;
    }
    assert(o.take(i as int) =~= o);
    out
}

/// The warning about an absorbed entity `x` of the merge `k`.
pub open spec fn merge_warning(m: Summaries, k: Seq<char>, x: Seq<char>) -> Option<Seq<char>> {
    if !m.contains_key(x) {
        Some("warning: merges.toml [merge."@ + k + "] absorbs unknown entity "@ + x)
    } else if absorbed(m[x].variant) {
        Some(
            "warning: merges.toml [merge."@ + k + "] absorbs "@ + x + " which is already "@
                + kind_name(m[x].variant) + " (no IR struct)"@,
        )
    } else {
        None
    }
}

pub open spec fn merge_warnings(m: Summaries, k: Seq<char>, xs: Seq<Seq<char>>) -> Seq<Seq<char>>
    decreases xs.len(),
{
    if xs.len() == 0 {
        seq![]
    } else {
        match merge_warning(m, k, xs.last()) {
            Some(w) => merge_warnings(m, k, xs.drop_last()).push(w),
            None => merge_warnings(m, k, xs.drop_last()),
        }
    }
}

pub open spec fn all_merge_warnings(
    m: Summaries,
    merges: Map<Seq<char>, MergeModel>,
    keys: Seq<Seq<char>>,
) -> Seq<Seq<char>>
    decreases keys.len(),
{
    if keys.len() == 0 {
        seq![]
    } else {
        all_merge_warnings(m, merges, keys.drop_last()) + merge_warnings(
            m,
            keys.last(),
            merges[keys.last()].absorbs,
        )
    }
}

fn warn_absorbs(entities: &Table<EntitySummary>, k: &str, xs: &Vec<String>) -> (r: Vec<String>)
    ensures
        r.deep_view() == merge_warnings(entities@, k@, xs.deep_view()),
{
    let ghost all = xs.deep_view();
    let mut out: Vec<String> = Vec::new();
    let mut i: usize = 0;
    proof {
        assert(all.take(0) =~= seq![]);
        assert(out.deep_view() =~= seq![]);
    }
    while i < xs.len()
        invariant
            i <= xs@.len(),
            all == xs.deep_view(),
            all.len() == xs@.len(),
            out.deep_view() == merge_warnings(entities@, k@, all.take(i as int)),
        decreases xs@.len() - i,
    {
        proof {
            assert(all.take(i + 1).drop_last() =~= all.take(i as int));
            assert(all.take(i + 1).last() == xs@[i as int]@);
        }
        let x = xs[i].as_str();
        match entities.get(x) {
            None => {
                let mut w: String = join3(
                    "warning: merges.toml [merge.",
                    k,
                    "] absorbs unknown entity ",
                );
                w.append(x);
                push_item(&mut out, w);
            },
            Some(s) => {
                if is_absorbed(&s.variant) {
                    let mut w: String = join3("warning: merges.toml [merge.", k, "] absorbs ");
                    w.append(x);
                    w.append(" which is already ");
                    w.append(kind_str(&s.variant));
                    w.append(" (no IR struct)");
                    push_item(&mut out, w);
                }
            },
        }
        i += 1;
    }
    assert(all.take(i as int) =~= all);
    out
}

/// Warns about absorbed entities that are not there or have no struct.
pub fn validate_merges(merges: &MergesFile, entities: &Table<EntitySummary>) -> (r: Vec<String>)
    ensures
        r.deep_view() == all_merge_warnings(
            entities@,
            merges.merge@,
            ordered(merges.merge@.dom()),
        ),
{
    let n = merges.merge.len();
    let ghost o = ordered(merges.merge@.dom());
    let mut out: Vec<String> = Vec::new();
    let mut i: usize = 0;
    proof {
        assert(o.take(0) =~= seq![]);
        assert(out.deep_view() =~= seq![]);
    }
    while i < n
        invariant
            i <= n,
            n == o.len(),
            o == ordered(merges.merge@.dom()),
            out.deep_view() == all_merge_warnings(entities@, merges.merge@, o.take(i as int)),
        decreases n - i,
    {
        assert(o.take(i + 1).drop_last() =~= o.take(i as int));
        let k = merges.merge.key_at(i);
        append_items(
            &mut out,
            warn_absorbs(entities, k.as_str(), &merges.merge.value_at(i).absorbs),
        );
        i += 1;
    }
    assert(o.take(i as int) =~= o);
    out
}

/// The warning about an entity `x` of the recast `k`.
pub open spec fn recast_warning(m: Summaries, k: Seq<char>, x: Seq<char>) -> Option<Seq<char>> {
    if !m.contains_key(x) {
        Some("warning: recasts.toml [recast."@ + k + "] entity "@ + x + " not in entities.toml"@)
    } else if absorbed(m[x].variant) {
        Some(
            "warning: recasts.toml [recast."@ + k + "] entity "@ + x + " is "@ + kind_name(
                m[x].variant,
            ) + " (recast unsupported on absorbed)"@,
        )
    } else {
        None
    }
}

pub open spec fn recast_warnings(m: Summaries, k: Seq<char>, xs: Seq<Seq<char>>) -> Seq<Seq<char>>
    decreases xs.len(),
{
    if xs.len() == 0 {
        seq![]
    } else {
        match recast_warning(m, k, xs.last()) {
            Some(w) => recast_warnings(m, k, xs.drop_last()).push(w),
            None => recast_warnings(m, k, xs.drop_last()),
        }
    }
}

pub open spec fn all_recast_warnings(
    m: Summaries,
    recasts: Map<Seq<char>, RecastModel>,
    keys: Seq<Seq<char>>,
) -> Seq<Seq<char>>
    decreases keys.len(),
{
    if keys.len() == 0 {
        seq![]
    } else {
        all_recast_warnings(m, recasts, keys.drop_last()) + recast_warnings(
            m,
            keys.last(),
            recasts[keys.last()].entities,
        )
    }
}

fn warn_recast(entities: &Table<EntitySummary>, k: &str, xs: &Vec<String>) -> (r: Vec<String>)
    ensures
        r.deep_view() == recast_warnings(entities@, k@, xs.deep_view()),
{
    let ghost all = xs.deep_view();
    let mut out: Vec<String> = Vec::new();
    let mut i: usize = 0;
    proof {
        assert(all.take(0) =~= seq![]);
        assert(out.deep_view() =~= seq![]);
    }
    while i < xs.len()
        invariant
            i <= xs@.len(),
            all == xs.deep_view(),
            all.len() == xs@.len(),
            out.deep_view() == recast_warnings(entities@, k@, all.take(i as int)),
        decreases xs@.len() - i,
    {
        proof {
            assert(all.take(i + 1).drop_last() =~= all.take(i as int));
            assert(all.take(i + 1).last() == xs@[i as int]@);
        }
        let x = xs[i].as_str();
        let mut w: String = join3("warning: recasts.toml [recast.", k, "] entity ");
        w.append(x);
        match entities.get(x) {
            None => {
                w.append(" not in entities.toml");
                push_item(&mut out, w);
            },
            Some(s) => {
                if is_absorbed(&s.variant) {
                    w.append(" is ");
                    w.append(kind_str(&s.variant));
                    w.append(" (recast unsupported on absorbed)");
                    push_item(&mut out, w);
                }
            },
        }
        i += 1;
    }
    assert(all.take(i as int) =~= all);
    out
}

/// Warns about recast entities that are not there or have no struct.
pub fn validate_recasts(recasts: &RecastsFile, entities: &Table<EntitySummary>) -> (r: Vec<String>)
    ensures
        r.deep_view() == all_recast_warnings(
            entities@,
            recasts.recast@,
            ordered(recasts.recast@.dom()),
        ),
{
    let n = recasts.recast.len();
    let ghost o = ordered(recasts.recast@.dom());
    let mut out: Vec<String> = Vec::new();
    let mut i: usize = 0;
    proof {
        assert(o.take(0) =~= seq![]);
        assert(out.deep_view() =~= seq![]);
    }
    while i < n
        invariant
            i <= n,
            n == o.len(),
            o == ordered(recasts.recast@.dom()),
            out.deep_view() == all_recast_warnings(entities@, recasts.recast@, o.take(i as int)),
        decreases n - i,
    {
        assert(o.take(i + 1).drop_last() =~= o.take(i as int));
        let k = recasts.recast.key_at(i);
        append_items(
            &mut out,
            warn_recast(entities, k.as_str(), &recasts.recast.value_at(i).entities),
        );
        i += 1;
    }
    assert(o.take(i as int) =~= o);
    out
}

// ---------------------------------------------------------------------
// Splits
// ---------------------------------------------------------------------

/// Where the kind of part `i` of a split is asked for.
pub open spec fn part_key(source: Seq<char>, i: int) -> Seq<char> {
    "split."@ + source + ".variants["@ + decimal(i as nat) + "]"@
}

fn name_part(source: &str, i: usize) -> (r: String)
    ensures
        r@ == part_key(source@, i as int),
{
    let mut r: String = join3("split.", source, ".variants[");
    r.append(decimal_of(i).as_str());
    r.append("]");
    r
}

/// The summary of part `i`: the first takes the place of the source, the
/// others point back to it.
pub open spec fn part_summary(
    base: SummaryModel,
    entry: SplitModel,
    source: Seq<char>,
    i: int,
    kind: SpecModel,
) -> SummaryModel {
    if i == 0 {
        SummaryModel {
            arena: entry.variants[0].arena,
            variant: kind,
            reasons: entry.reasons,
            ..base
        }
    } else {
        SummaryModel {
            arena: entry.variants[i].arena,
            group: entry.variants[i].arena,
            variant: kind,
            split_from: Some(source),
            split_context: Some(entry.context_signal),
            ..base
        }
    }
}

/// `out` with the first `n` parts of a split.
pub open spec fn split_parts(
    out: Summaries,
    base: SummaryModel,
    entry: SplitModel,
    source: Seq<char>,
    n: int,
) -> Result<Summaries, Seq<char>>
    decreases n,
{
    if n <= 0 {
        Ok(out)
    } else {
        match split_parts(out, base, entry, source, n - 1) {
            Err(e) => Err(e),
            Ok(before) => {
                let p = entry.variants[n - 1];
                match asked_kind(
                    base.variant,
                    p.kind,
                    p.enum_of,
                    "splits.toml"@,
                    part_key(source, n - 1),
                ) {
                    Ok(kind) => Ok(
                        before.insert(p.name, part_summary(base, entry, source, n - 1, kind)),
                    ),
                    Err(e) => Err(e),
                }
            },
        }
    }
}

/// Splits `source`; a source that is not there, or an entry without parts,
/// changes nothing.
pub open spec fn split_one(
    out: Summaries,
    source: Seq<char>,
    entry: SplitModel,
) -> Result<Summaries, Seq<char>> {
    if !out.contains_key(source) || entry.variants.len() == 0 {
        Ok(out)
    } else {
        split_parts(
            out.remove(source),
            out[source],
            entry,
            source,
            entry.variants.len() as int,
        )
    }
}

/// The splits `keys`, in order.
pub open spec fn split_all(
    out: Summaries,
    splits: Map<Seq<char>, SplitModel>,
    keys: Seq<Seq<char>>,
) -> Result<Summaries, Seq<char>>
    decreases keys.len(),
{
    if keys.len() == 0 {
        Ok(out)
    } else {
        match split_all(out, splits, keys.drop_last()) {
            Ok(before) => split_one(before, keys.last(), splits[keys.last()]),
            Err(e) => Err(e),
        }
    }
}

proof fn lemma_split_parts_err(
    out: Summaries,
    base: SummaryModel,
    entry: SplitModel,
    source: Seq<char>,
    k: int,
    n: int,
)
    requires
        k <= n,
        split_parts(out, base, entry, source, k) is Err,
    ensures
        split_parts(out, base, entry, source, n) == split_parts(out, base, entry, source, k),
    decreases n - k,
{
    if k < n && n > 0 {
        lemma_split_parts_err(out, base, entry, source, k, n - 1);
    }
}

fn split_entity(out: &mut Table<EntitySummary>, source: &str, entry: &SplitEntry) -> (r: Result<
    (),
    String,
>)
    ensures
        match r {
            Ok(_) => split_one(old(out)@, source@, entry.deep_view()) == Ok::<
                Summaries,
                Seq<char>,
            >(final(out)@),
            Err(e) => split_one(old(out)@, source@, entry.deep_view()) == Err::<
                Summaries,
                Seq<char>,
            >(e@),
        },
{
    let ghost m0 = out@;
    let ghost ev = entry.deep_view();
    if entry.variants.len() == 0 {
        assert(ev.variants.len() == 0);
        return Ok(());
    }
    assert(ev.variants.len() == entry.variants@.len());
    let base = match out.remove(source) {
        Some(b) => b,
        None => {
            assert(m0.remove(source@) =~= m0);
            return Ok(());
        },
    };
    let ghost start = out@;
    let mut i: usize = 0;
    while i < entry.variants.len()
        invariant
            i <= entry.variants@.len(),
            ev == entry.deep_view(),
            ev.variants.len() == entry.variants@.len(),
            ev.variants.len() > 0,
            m0 == old(out)@,
            m0.contains_key(source@),
            start == m0.remove(source@),
            base.view() == m0[source@],
            split_parts(start, base.view(), ev, source@, i as int) == Ok::<Summaries, Seq<char>>(
                out@,
            ),
        decreases entry.variants@.len() - i,
    {
        let p = &entry.variants[i];
        assert(ev.variants[i as int] == p.deep_view());
        let kind = match variant_spec_from_override(
            &base.variant,
            &p.kind,
            &p.enum_of,
            "splits.toml",
            name_part(source, i).as_str(),
        ) {
            Ok(k) => k,
            Err(e) => {
                proof {
                    lemma_split_parts_err(
                        start,
                        base.view(),
                        ev,
                        source@,
                        i + 1,
                        ev.variants.len() as int,
                    );
                }
                return Err(e);
            },
        };
        let mut s = base.duplicate();
        s.arena = p.arena.clone();
        s.variant = kind;
        if i == 0 {
            s.reasons = entry.reasons.duplicate();
        } else {
            s.group = p.arena.clone();
            s.split_from = Some(source.to_owned());
            s.split_context = Some(entry.context_signal.clone());
        }
        assert(s.view() == part_summary(base.view(), ev, source@, i as int, kind.view()));
        out.insert(p.name.clone(), s);
        i += 1;
    }
    Ok(())
}

proof fn lemma_split_all_err(
    out: Summaries,
    splits: Map<Seq<char>, SplitModel>,
    keys: Seq<Seq<char>>,
    k: int,
)
    requires
        0 <= k <= keys.len(),
        split_all(out, splits, keys.take(k)) is Err,
    ensures
        split_all(out, splits, keys) == split_all(out, splits, keys.take(k)),
    decreases keys.len(),
{
    if k < keys.len() {
        assert(keys.drop_last().take(k) =~= keys.take(k));
        lemma_split_all_err(out, splits, keys.drop_last(), k);
    } else {
        assert(keys.take(k) =~= keys);
    }
}

// ---------------------------------------------------------------------
// Merges
// ---------------------------------------------------------------------

/// The first of `xs` that is there.
pub open spec fn first_present(m: Summaries, xs: Seq<Seq<char>>) -> Option<Seq<char>>
    decreases xs.len(),
{
    if xs.len() == 0 {
        None
    } else if first_present(m, xs.drop_last()) is Some {
        first_present(m, xs.drop_last())
    } else if m.contains_key(xs.last()) {
        Some(xs.last())
    } else {
        None
    }
}

/// The group of an entity of a given kind: that of its enum, or else its own.
pub open spec fn group_for(k: SpecModel, own: Seq<char>) -> Seq<char> {
    match k {
        SpecModel::InEnum { enum_name } => enum_name,
        _ => own,
    }
}

fn group_name_for(spec: &VariantSpec, own: &str) -> (r: String)
    ensures
        r@ == group_for(spec.view(), own@),
{
    match spec {
        VariantSpec::InEnum { enum_name } => enum_name.clone(),
        _ => own.to_owned(),
    }
}

/// Merges the absorbed entities into one, made after the first of them that is
/// there; if none is, nothing changes.
pub open spec fn merge_one(
    out: Summaries,
    key: Seq<char>,
    entry: MergeModel,
) -> Result<Summaries, Seq<char>> {
    match first_present(out, entry.absorbs) {
        None => Ok(out),
        Some(b) => match asked_kind(
            SpecModel::SingleStruct,
            entry.kind,
            entry.enum_of,
            "merges.toml"@,
            "merge."@ + key,
        ) {
            Err(e) => Err(e),
            Ok(kind) => Ok(
                out.remove_keys(entry.absorbs.to_set()).insert(
                    entry.target_name,
                    SummaryModel {
                        variant: kind,
                        arena: entry.arena,
                        group: group_for(kind, entry.target_name),
                        merge_absorbs: entry.absorbs,
                        fields_union: entry.fields_strategy is Union,
                        reasons: entry.reasons,
                        ..out[b]
                    },
                ),
            ),
        },
    }
}

/// The merges `keys`, in order.
pub open spec fn merge_all(
    out: Summaries,
    merges: Map<Seq<char>, MergeModel>,
    keys: Seq<Seq<char>>,
) -> Result<Summaries, Seq<char>>
    decreases keys.len(),
{
    if keys.len() == 0 {
        Ok(out)
    } else {
        match merge_all(out, merges, keys.drop_last()) {
            Ok(before) => merge_one(before, keys.last(), merges[keys.last()]),
            Err(e) => Err(e),
        }
    }
}

proof fn lemma_merge_all_err(
    out: Summaries,
    merges: Map<Seq<char>, MergeModel>,
    keys: Seq<Seq<char>>,
    k: int,
)
    requires
        0 <= k <= keys.len(),
        merge_all(out, merges, keys.take(k)) is Err,
    ensures
        merge_all(out, merges, keys) == merge_all(out, merges, keys.take(k)),
    decreases keys.len(),
{
    if k < keys.len() {
        assert(keys.drop_last().take(k) =~= keys.take(k));
        lemma_merge_all_err(out, merges, keys.drop_last(), k);
    } else {
        assert(keys.take(k) =~= keys);
    }
}

proof fn lemma_first_present_none(m: Summaries, xs: Seq<Seq<char>>)
    requires
        first_present(m, xs) is None,
    ensures
        m.remove_keys(xs.to_set()) == m,
    decreases xs.len(),
{
    if xs.len() > 0 {
        lemma_first_present_none(m, xs.drop_last());
        assert forall|x: Seq<char>| xs.to_set().contains(x) implies !m.contains_key(x) by {
            let i = choose|i: int| 0 <= i < xs.len() && xs[i] == x;
            if i < xs.len() - 1 {
                assert(xs.drop_last()[i] == x);
                assert(xs.drop_last().to_set().contains(x));
                if m.contains_key(x) {
                    assert(!m.remove_keys(xs.drop_last().to_set()).contains_key(x));
                }
            }
        }
    }
    assert(m.remove_keys(xs.to_set()) =~= m);
}

fn merge_entities(out: &mut Table<EntitySummary>, key: &str, entry: &MergeEntry) -> (r: Result<
    (),
    String,
>)
    ensures
        match r {
            Ok(_) => merge_one(old(out)@, key@, entry.deep_view()) == Ok::<Summaries, Seq<char>>(
                final(out)@,
            ),
            Err(e) => merge_one(old(out)@, key@, entry.deep_view()) == Err::<Summaries, Seq<char>>(
                e@,
            ),
        },
{
    let ghost m0 = out@;
    let ghost ev = entry.deep_view();
    let ghost xs = entry.absorbs.deep_view();
    let mut base: Option<EntitySummary> = None;
    let mut i: usize = 0;
    proof {
        assert(xs.take(0) =~= seq![]);
        assert(m0.remove_keys(xs.take(0).to_set()) =~= m0);
    }
    while i < entry.absorbs.len()
        invariant
            i <= entry.absorbs@.len(),
            xs == entry.absorbs.deep_view(),
            xs.len() == entry.absorbs@.len(),
            out@ == m0.remove_keys(xs.take(i as int).to_set()),
            base is Some <==> first_present(m0, xs.take(i as int)) is Some,
            base matches Some(b) ==> m0.contains_key(first_present(m0, xs.take(i as int))->0)
                && b.view() == m0[first_present(m0, xs.take(i as int))->0],
        decreases entry.absorbs@.len() - i,
    {
        let ghost before = out@;
        let ghost x = xs[i as int];
        proof {
            assert(xs.take(i + 1).drop_last() =~= xs.take(i as int));
            assert(xs.take(i + 1) =~= xs.take(i as int).push(x));
            xs.take(i as int).lemma_push_to_set_commute(x);
            if first_present(m0, xs.take(i as int)) is None {
                lemma_first_present_none(m0, xs.take(i as int));
            }
        }
        let taken = out.remove(entry.absorbs[i].as_str());
        assert(out@ =~= m0.remove_keys(xs.take(i + 1).to_set()));
        if base.is_none() {
            base = taken;
        }
        i += 1;
    }
    assert(xs.take(i as int) =~= xs);
    let mut merged = match base {
        Some(b) => b,
        None => {
            proof {
                lemma_first_present_none(m0, xs);
            }
            return Ok(());
        },
    };
    let kind = match variant_spec_from_override(
        &VariantSpec::SingleStruct,
        &entry.kind,
        &entry.enum_of,
        "merges.toml",
        join("merge.", key).as_str(),
    ) {
        Ok(k) => k,
        Err(e) => {
            return Err(e);
        },
    };
    merged.group = group_name_for(&kind, entry.target_name.as_str());
    merged.variant = kind;
    merged.arena = entry.arena.clone();
    merged.merge_absorbs = entry.absorbs.duplicate();
    merged.fields_union = match entry.fields_strategy {
        FieldsStrategy::Union => true,
        FieldsStrategy::First => false,
    };
    merged.reasons = entry.reasons.duplicate();
    out.insert(entry.target_name.clone(), merged);
    Ok(())
}

/// The summaries after splits and merges.
pub open spec fn split_and_merged(
    m: Summaries,
    splits: Map<Seq<char>, SplitModel>,
    merges: Map<Seq<char>, MergeModel>,
) -> Result<Summaries, Seq<char>> {
    match split_all(m, splits, ordered(splits.dom())) {
        Ok(out) => merge_all(out, merges, ordered(merges.dom())),
        Err(e) => Err(e),
    }
}

/// Applies the splits and then the merges.
pub fn apply_splits_merges(
    entities: &Table<EntitySummary>,
    splits: &SplitsFile,
    merges: &MergesFile,
) -> (r: Result<Table<EntitySummary>, String>)
    ensures
        outcome(r) == split_and_merged(entities@, splits.split@, merges.merge@),
{
    let mut out = entities.duplicate();
    let n = splits.split.len();
    let ghost o = ordered(splits.split@.dom());
    let mut i: usize = 0;
    assert(o.take(0) =~= seq![]);
    while i < n
        invariant
            i <= n,
            n == o.len(),
            o == ordered(splits.split@.dom()),
            split_all(entities@, splits.split@, o.take(i as int)) == Ok::<Summaries, Seq<char>>(
                out@,
            ),
        decreases n - i,
    {
        proof {
            assert(o.take(i + 1).drop_last() =~= o.take(i as int));
            if split_all(entities@, splits.split@, o.take(i + 1)) is Err {
                lemma_split_all_err(entities@, splits.split@, o, i + 1);
            }
        }
        match split_entity(&mut out, splits.split.key_at(i).as_str(), splits.split.value_at(i)) {
            Ok(_) => {},
            Err(e) => {
                return Err(e);
            },
        }
        i += 1;
    }
    assert(o.take(i as int) =~= o);
    let ghost mid = out@;
    let k = merges.merge.len();
    let ghost q = ordered(merges.merge@.dom());
    let mut j: usize = 0;
    assert(q.take(0) =~= seq![]);
    while j < k
        invariant
            j <= k,
            k == q.len(),
            q == ordered(merges.merge@.dom()),
            split_all(entities@, splits.split@, ordered(splits.split@.dom())) == Ok::<
                Summaries,
                Seq<char>,
            >(mid),
            merge_all(mid, merges.merge@, q.take(j as int)) == Ok::<Summaries, Seq<char>>(out@),
        decreases k - j,
    {
        proof {
            assert(q.take(j + 1).drop_last() =~= q.take(j as int));
            if merge_all(mid, merges.merge@, q.take(j + 1)) is Err {
                lemma_merge_all_err(mid, merges.merge@, q, j + 1);
            }
        }
        match merge_entities(&mut out, merges.merge.key_at(j).as_str(), merges.merge.value_at(j)) {
            Ok(_) => {},
            Err(e) => {
                return Err(e);
            },
        }
        j += 1;
    }
    assert(q.take(j as int) =~= q);
    Ok(out)
}

/// Without splits and merges the summaries stay as they are.
pub proof fn law_no_input_no_change(m: Summaries)
    ensures
        split_and_merged(m, Map::empty(), Map::empty()) == Ok::<Summaries, Seq<char>>(m),
{
    lemma_ordered(Map::<Seq<char>, SplitModel>::empty().dom());
    lemma_ordered(Map::<Seq<char>, MergeModel>::empty().dom());
}

// ---------------------------------------------------------------------
// Anchors
// ---------------------------------------------------------------------

/// What is wrong with an anchor.
pub open spec fn anchor_fault(
    m: Summaries,
    anchors: Map<Seq<char>, AnchorModel>,
) -> spec_fn(Seq<char>) -> Option<Seq<char>> {
    |name: Seq<char>|
        if m.contains_key(name) {
            Some(
                "anchors.toml [anchor."@ + name
                    + "] collides with existing entity (schema entity, split product, or merge target)"@,
            )
        } else if anchors[name].kind != "enum_base"@ {
            Some(
                "anchors.toml [anchor."@ + name + "] kind="@ + quoted(anchors[name].kind)
                    + " unsupported (only \"enum_base\")"@,
            )
        } else {
            None
        }
}

/// Refuses anchors that collide with an entity or are no enums.
pub fn validate_anchors(anchors: &AnchorsFile, entities: &Table<EntitySummary>) -> (r: Result<
    (),
    String,
>)
    ensures
        complaint(r) == first_some(
            ordered(anchors.anchor@.dom()),
            anchor_fault(entities@, anchors.anchor@),
        ),
{
    let n = anchors.anchor.len();
    let ghost o = ordered(anchors.anchor@.dom());
    let ghost f = anchor_fault(entities@, anchors.anchor@);
    let mut i: usize = 0;
    assert(o.take(0) =~= seq![]);
    while i < n
        invariant
            i <= n,
            n == o.len(),
            o == ordered(anchors.anchor@.dom()),
            f == anchor_fault(entities@, anchors.anchor@),
            first_some(o.take(i as int), f) is None,
        decreases n - i,
    {
        proof {
            lemma_first_some_next(o, f, i as int);
        }
        let name = anchors.anchor.key_at(i);
        let kind = anchors.anchor.value_at(i).kind.as_str();
        if entities.contains_key(name.as_str()) {
            return Err(
                join3(
                    "anchors.toml [anchor.",
                    name.as_str(),
                    "] collides with existing entity (schema entity, split product, or merge target)",
                ),
            );
        }
        if !same(kind, "enum_base") {
            let mut e: String = join3("anchors.toml [anchor.", name.as_str(), "] kind=");
            e.append(quote(kind).as_str());
            e.append(" unsupported (only \"enum_base\")");
            return Err(e);
        }
        i += 1;
    }
    assert(o.take(i as int) =~= o);
    Ok(())
}

/// The summary of an anchor.
pub open spec fn anchor_summary(name: Seq<char>, entry: AnchorModel) -> SummaryModel {
    SummaryModel {
        variant: SpecModel::EnumBase { enum_name: name },
        group: name,
        arena: entry.arena,
        shape: None,
        instance_count: 0,
        complex_part_count: 0,
        co_instantiated_with: seq![],
        split_from: None,
        split_context: None,
        merge_absorbs: seq![],
        fields_union: false,
        reasons: Some(entry.reasons),
    }
}

/// The summaries with the anchors, which stand before entities of their name.
pub open spec fn anchored(m: Summaries, anchors: Map<Seq<char>, AnchorModel>) -> Summaries {
    m.union_prefer_right(
        tabulate(
            ordered(anchors.dom()),
            |name: Seq<char>| Some(anchor_summary(name, anchors[name])),
        ),
    )
}

/// Adds the anchors, and returns their names.
pub fn apply_anchors(anchors: &AnchorsFile, out: &mut Table<EntitySummary>) -> (r: Vec<String>)
    ensures
        final(out)@ == anchored(old(out)@, anchors.anchor@),
        r.deep_view() == ordered(anchors.anchor@.dom()),
{
    let ghost m = out@;
    let n = anchors.anchor.len();
    let ghost o = ordered(anchors.anchor@.dom());
    let ghost g = |name: Seq<char>| Some(anchor_summary(name, anchors.anchor@[name]));
    let mut i: usize = 0;
    proof {
        lemma_tabulate_ends(o, g);
        assert(m.union_prefer_right(tabulate(o.take(0), g)) =~= m);
    }
    while i < n
        invariant
            i <= n,
            n == o.len(),
            o == ordered(anchors.anchor@.dom()),
            g == (|name: Seq<char>| Some(anchor_summary(name, anchors.anchor@[name]))),
            out@ == m.union_prefer_right(tabulate(o.take(i as int), g)),
        decreases n - i,
    {
        proof {
            lemma_tabulate_next(o, i as int, g);
        }
        let name = anchors.anchor.key_at(i);
        let entry = anchors.anchor.value_at(i);
        let s = EntitySummary {
            variant: VariantSpec::EnumBase { enum_name: name.clone() },
            group: name.clone(),
            arena: entry.arena.clone(),
            shape: None,
            instance_count: 0,
            complex_part_count: 0,
            co_instantiated_with: no_names(),
            split_from: None,
            split_context: None,
            merge_absorbs: no_names(),
            fields_union: false,
            reasons: Some(entry.reasons.clone()),
        };
        assert(s.view() == anchor_summary(o[i as int], anchors.anchor@[o[i as int]]));
        out.insert(name.clone(), s);
        assert(out@ =~= m.union_prefer_right(tabulate(o.take(i + 1), g)));
        i += 1;
    }
    proof {
        lemma_tabulate_ends(o, g);
    }
    anchors.anchor.keys()
}

// ---------------------------------------------------------------------
// Recasts
// ---------------------------------------------------------------------

/// What is wrong with the enum that a recast names.
pub open spec fn target_fault(
    m: Summaries,
    recasts: Map<Seq<char>, RecastModel>,
) -> spec_fn(Seq<char>) -> Option<Seq<char>> {
    |label: Seq<char>|
        {
            let place = "recasts.toml [recast."@ + label + "] "@;
            if recasts[label].kind != "in_enum"@ {
                None
            } else {
                match recasts[label].enum_of {
                    None => Some(place + "kind=in_enum requires enum_of"@),
                    Some(target) => if !m.contains_key(target) {
                        Some(
                            place + "enum_of="@ + quoted(target)
                                + " not in entities (schema entity, split product, or anchor). Declare it in anchors.toml if intentional."@,
                        )
                    } else if m[target].variant is EnumBase || m[target].variant
                        is ConcreteSupertype {
                        None
                    } else {
                        Some(
                            place + "enum_of="@ + quoted(target) + " resolves to "@ + kind_name(
                                m[target].variant,
                            ) + ", not enum_base or concrete_supertype"@,
                        )
                    },
                }
            }
        }
}

fn check_target(label: &str, entry: &RecastEntry, entities: &Table<EntitySummary>) -> (r: Option<
    String,
>)
    ensures
        r.deep_view() == target_fault(entities@, map![label@ => entry.deep_view()])(label@),
{
    if !same(entry.kind.as_str(), "in_enum") {
        return None;
    }
    let mut e: String = join3("recasts.toml [recast.", label, "] ");
    let target = match &entry.enum_of {
        None => {
            e.append("kind=in_enum requires enum_of");
            return Some(e);
        },
        Some(t) => t.as_str(),
    };
    e.append("enum_of=");
    e.append(quote(target).as_str());
    match entities.get(target) {
        None => {
            e.append(
                " not in entities (schema entity, split product, or anchor). Declare it in anchors.toml if intentional.",
            );
            Some(e)
        },
        Some(s) => match &s.variant {
            VariantSpec::EnumBase { .. } => None,
            VariantSpec::ConcreteSupertype => None,
            other => {
                e.append(" resolves to ");
                e.append(kind_str(other));
                e.append(", not enum_base or concrete_supertype");
                Some(e)
            },
        },
    }
}

/// Refuses recasts into what is no enum.
pub fn validate_recasts_enum_of(
    recasts: &RecastsFile,
    abstract_entities: &Table<EntitySummary>,
) -> (r: Result<(), String>)
    ensures
        complaint(r) == first_some(
            ordered(recasts.recast@.dom()),
            target_fault(abstract_entities@, recasts.recast@),
        ),
{
    let n = recasts.recast.len();
    let ghost o = ordered(recasts.recast@.dom());
    let ghost f = target_fault(abstract_entities@, recasts.recast@);
    let mut i: usize = 0;
    assert(o.take(0) =~= seq![]);
    while i < n
        invariant
            i <= n,
            n == o.len(),
            o == ordered(recasts.recast@.dom()),
            f == target_fault(abstract_entities@, recasts.recast@),
            first_some(o.take(i as int), f) is None,
        decreases n - i,
    {
        proof {
            lemma_first_some_next(o, f, i as int);
        }
        let label = recasts.recast.key_at(i);
        match check_target(label.as_str(), recasts.recast.value_at(i), abstract_entities) {
            Some(e) => {
                return Err(e);
            },
            None => {},
        }
        i += 1;
    }
    assert(o.take(i as int) =~= o);
    Ok(())
}

/// The kind that a recast asks for.
pub open spec fn recast_kind(key: Seq<char>, entry: RecastModel) -> Result<SpecModel, Seq<char>> {
    asked_kind(
        SpecModel::SingleStruct,
        Some(entry.kind),
        entry.enum_of,
        "recasts.toml"@,
        "recast."@ + key,
    )
}

fn kind_of_recast(key: &str, entry: &RecastEntry) -> (r: Result<VariantSpec, String>)
    ensures
        outcome(r) == recast_kind(key@, entry.deep_view()),
{
    let kind: Option<String> = Some(entry.kind.clone());
    variant_spec_from_override(
        &VariantSpec::SingleStruct,
        &kind,
        &entry.enum_of,
        "recasts.toml",
        join("recast.", key).as_str(),
    )
}

/// What is wrong with the kind that a recast asks for.
pub open spec fn recast_fault(
    recasts: Map<Seq<char>, RecastModel>,
) -> spec_fn(Seq<char>) -> Option<Seq<char>> {
    |key: Seq<char>|
        match recast_kind(key, recasts[key]) {
            Ok(_) => None,
            Err(e) => Some(e),
        }
}

/// The summary of a recast entity.
pub open spec fn recast_summary(
    s: SummaryModel,
    kind: SpecModel,
    entry: RecastModel,
) -> SummaryModel {
    SummaryModel {
        variant: kind,
        arena: entry.arena,
        group: group_for(kind, entry.arena),
        reasons: entry.reasons,
        ..s
    }
}

/// Recasts those of `xs` that are there.
pub open spec fn recast_listed(
    m: Summaries,
    kind: SpecModel,
    entry: RecastModel,
    xs: Seq<Seq<char>>,
) -> Summaries {
    Map::new(
        |k: Seq<char>| m.contains_key(k),
        |k: Seq<char>|
            if xs.contains(k) {
                recast_summary(m[k], kind, entry)
            } else {
                m[k]
            },
    )
}

/// The recasts `keys`, in order, up to the first with a fault.
pub open spec fn recast_all(
    m: Summaries,
    recasts: Map<Seq<char>, RecastModel>,
    keys: Seq<Seq<char>>,
) -> Summaries
    decreases keys.len(),
{
    if keys.len() == 0 {
        m
    } else if first_some(keys, recast_fault(recasts)) is Some {
        recast_all(m, recasts, keys.drop_last())
    } else {
        recast_listed(
            recast_all(m, recasts, keys.drop_last()),
            recast_kind(keys.last(), recasts[keys.last()])->Ok_0,
            recasts[keys.last()],
            recasts[keys.last()].entities,
        )
    }
}

/// From the first fault on nothing is recast.
proof fn lemma_recast_all_prefix(
    m: Summaries,
    recasts: Map<Seq<char>, RecastModel>,
    keys: Seq<Seq<char>>,
    i: int,
)
    requires
        0 <= i < keys.len(),
        first_some(keys.take(i + 1), recast_fault(recasts)) is Some,
        first_some(keys.take(i), recast_fault(recasts)) is None,
    ensures
        recast_all(m, recasts, keys) == recast_all(m, recasts, keys.take(i)),
    decreases keys.len(),
{
    let f = recast_fault(recasts);
    lemma_first_some_prefix(keys, f, i + 1);
    if i + 1 < keys.len() {
        assert(keys.drop_last().take(i + 1) =~= keys.take(i + 1));
        assert(keys.drop_last().take(i) =~= keys.take(i));
        lemma_recast_all_prefix(m, recasts, keys.drop_last(), i);
    } else {
        assert(keys.drop_last() =~= keys.take(i));
    }
}

fn recast_entities(out: &mut Table<EntitySummary>, kind: &VariantSpec, entry: &RecastEntry)
    ensures
        final(out)@ == recast_listed(
            old(out)@,
            kind.view(),
            entry.deep_view(),
            entry.deep_view().entities,
        ),
{
    let ghost m = out@;
    let ghost ev = entry.deep_view();
    let ghost xs = ev.entities;
    let mut i: usize = 0;
    assert(out@ =~= recast_listed(m, kind.view(), ev, xs.take(0)));
    while i < entry.entities.len()
        invariant
            i <= entry.entities@.len(),
            ev == entry.deep_view(),
            xs == ev.entities,
            xs.len() == entry.entities@.len(),
            out@ == recast_listed(m, kind.view(), ev, xs.take(i as int)),
        decreases entry.entities@.len() - i,
    {
        let ghost before = out@;
        let ghost x = xs[i as int];
        proof {
            lemma_take_contains(xs, i as int);
        }
        match out.remove(entry.entities[i].as_str()) {
            Some(mut s) => {
                s.variant = kind.duplicate();
                s.arena = entry.arena.clone();
                s.group = group_name_for(kind, entry.arena.as_str());
                s.reasons = entry.reasons.duplicate();
                assert(s.view() == recast_summary(before[x], kind.view(), ev));
                out.insert(entry.entities[i].clone(), s);
            },
            None => {},
        }
        assert(out@ =~= recast_listed(m, kind.view(), ev, xs.take(i + 1)));
        i += 1;
    }
    assert(xs.take(i as int) =~= xs);
}

/// Recasts the entities of each entry in order, up to the first entry that asks
/// for a kind that there is not.
pub fn apply_recasts(out: &mut Table<EntitySummary>, recasts: &RecastsFile) -> (r: Result<
    (),
    String,
>)
    ensures
        complaint(r) == first_some(ordered(recasts.recast@.dom()), recast_fault(recasts.recast@)),
        final(out)@ == recast_all(old(out)@, recasts.recast@, ordered(recasts.recast@.dom())),
{
    let ghost m = out@;
    let n = recasts.recast.len();
    let ghost o = ordered(recasts.recast@.dom());
    let ghost f = recast_fault(recasts.recast@);
    let mut i: usize = 0;
    assert(o.take(0) =~= seq![]);
    while i < n
        invariant
            i <= n,
            n == o.len(),
            m == old(out)@,
            o == ordered(recasts.recast@.dom()),
            f == recast_fault(recasts.recast@),
            first_some(o.take(i as int), f) is None,
            out@ == recast_all(m, recasts.recast@, o.take(i as int)),
        decreases n - i,
    {
        proof {
            lemma_first_some_next(o, f, i as int);
            assert(o.take(i + 1).drop_last() =~= o.take(i as int));
        }
        let key = recasts.recast.key_at(i);
        let entry = recasts.recast.value_at(i);
        match kind_of_recast(key.as_str(), entry) {
            Err(e) => {
                proof {
                    lemma_recast_all_prefix(m, recasts.recast@, o, i as int);
                }
                return Err(e);
            },
            Ok(kind) => {
                recast_entities(out, &kind, entry);
            },
        }
        i += 1;
    }
    assert(o.take(i as int) =~= o);
    Ok(())
}

/// The warnings about those of `xs` that are not there.
pub open spec fn absent_warnings(m: Summaries, key: Seq<char>, xs: Seq<Seq<char>>) -> Seq<Seq<char>>
    decreases xs.len(),
{
    if xs.len() == 0 {
        seq![]
    } else if m.contains_key(xs.last()) {
        absent_warnings(m, key, xs.drop_last())
    } else {
        absent_warnings(m, key, xs.drop_last()).push(
            "warning: recasts.toml [recast."@ + key + "] entity "@ + xs.last()
                + " not in abstract_entities (already split / merged?)"@,
        )
    }
}

/// The warnings of the recasts `keys`, up to the first with a fault.
pub open spec fn all_absent_warnings(
    m: Summaries,
    recasts: Map<Seq<char>, RecastModel>,
    keys: Seq<Seq<char>>,
) -> Seq<Seq<char>>
    decreases keys.len(),
{
    if keys.len() == 0 {
        seq![]
    } else if first_some(keys, recast_fault(recasts)) is Some {
        all_absent_warnings(m, recasts, keys.drop_last())
    } else {
        all_absent_warnings(m, recasts, keys.drop_last()) + absent_warnings(
            m,
            keys.last(),
            recasts[keys.last()].entities,
        )
    }
}

proof fn lemma_absent_prefix(
    m: Summaries,
    recasts: Map<Seq<char>, RecastModel>,
    keys: Seq<Seq<char>>,
    i: int,
)
    requires
        0 <= i < keys.len(),
        first_some(keys.take(i + 1), recast_fault(recasts)) is Some,
        first_some(keys.take(i), recast_fault(recasts)) is None,
    ensures
        all_absent_warnings(m, recasts, keys) == all_absent_warnings(m, recasts, keys.take(i)),
    decreases keys.len(),
{
    let f = recast_fault(recasts);
    lemma_first_some_prefix(keys, f, i + 1);
    if i + 1 < keys.len() {
        assert(keys.drop_last().take(i + 1) =~= keys.take(i + 1));
        assert(keys.drop_last().take(i) =~= keys.take(i));
        lemma_absent_prefix(m, recasts, keys.drop_last(), i);
    } else {
        assert(keys.drop_last() =~= keys.take(i));
    }
}

fn warn_absent(entities: &Table<EntitySummary>, key: &str, xs: &Vec<String>) -> (r: Vec<String>)
    ensures
        r.deep_view() == absent_warnings(entities@, key@, xs.deep_view()),
{
    let ghost all = xs.deep_view();
    let mut out: Vec<String> = no_names();
    let mut i: usize = 0;
    assert(all.take(0) =~= seq![]);
    while i < xs.len()
        invariant
            i <= xs@.len(),
            all == xs.deep_view(),
            all.len() == xs@.len(),
            out.deep_view() == absent_warnings(entities@, key@, all.take(i as int)),
        decreases xs@.len() - i,
    {
        proof {
            assert(all.take(i + 1).drop_last() =~= all.take(i as int));
            assert(all.take(i + 1).last() == xs@[i as int]@);
        }
        let x = xs[i].as_str();
        if !entities.contains_key(x) {
            let mut w: String = join3("warning: recasts.toml [recast.", key, "] entity ");
            w.append(x);
            w.append(" not in abstract_entities (already split / merged?)");
            push_item(&mut out, w);
        }
        i += 1;
    }
    assert(all.take(i as int) =~= all);
    out
}

/// Warns about entities that the recasts name and that are not there.
pub fn warn_absent_recasts(recasts: &RecastsFile, entities: &Table<EntitySummary>) -> (r: Vec<
    String,
>)
    ensures
        r.deep_view() == all_absent_warnings(
            entities@,
            recasts.recast@,
            ordered(recasts.recast@.dom()),
        ),
{
    let n = recasts.recast.len();
    let ghost o = ordered(recasts.recast@.dom());
    let ghost f = recast_fault(recasts.recast@);
    let mut out: Vec<String> = no_names();
    let mut i: usize = 0;
    assert(o.take(0) =~= seq![]);
    while i < n
        invariant
            i <= n,
            n == o.len(),
            o == ordered(recasts.recast@.dom()),
            f == recast_fault(recasts.recast@),
            first_some(o.take(i as int), f) is None,
            out.deep_view() == all_absent_warnings(entities@, recasts.recast@, o.take(i as int)),
        decreases n - i,
    {
        proof {
            lemma_first_some_next(o, f, i as int);
            assert(o.take(i + 1).drop_last() =~= o.take(i as int));
        }
        let key = recasts.recast.key_at(i);
        let entry = recasts.recast.value_at(i);
        match kind_of_recast(key.as_str(), entry) {
            Err(_) => {
                proof {
                    lemma_absent_prefix(entities@, recasts.recast@, o, i as int);
                }
                return out;
            },
            Ok(_) => {
                append_items(&mut out, warn_absent(entities, key.as_str(), &entry.entities));
            },
        }
        i += 1;
    }
    assert(o.take(i as int) =~= o);
    out
}

// ---------------------------------------------------------------------
// Enums without members
// ---------------------------------------------------------------------

/// The members of the enum `name`.
pub open spec fn members_of(m: Summaries, name: Seq<char>) -> Set<Seq<char>> {
    Set::new(
        |k: Seq<char>| m.contains_key(k) && m[k].variant == (SpecModel::InEnum { enum_name: name }),
    )
}

/// The entities that are absorbed by `name`.
pub open spec fn absorbed_by(m: Summaries, name: Seq<char>) -> Set<Seq<char>> {
    Set::new(
        |k: Seq<char>|
            m.contains_key(k) && match m[k].variant {
                SpecModel::NestedField { into, as_field, added_attr_count } => into == name,
                SpecModel::MergedInto { target, chain } => target == name,
                _ => false,
            },
    )
}

fn collect_members(t: &Table<EntitySummary>, name: &str) -> (r: Vec<String>)
    ensures
        r.deep_view() == ordered(members_of(t@, name@)),
        r@.len() == members_of(t@, name@).len(),
        members_of(t@, name@).finite(),
{
    let n = t.len();
    let ghost o = ordered(t@.dom());
    let ghost want = members_of(t@, name@);
    let mut found = NameSet::new();
    let mut i: usize = 0;
    assert(found@ =~= want.intersect(o.take(0).to_set()));
    while i < n
        invariant
            i <= n,
            n == o.len(),
            o == ordered(t@.dom()),
            t@.dom().finite(),
            want == members_of(t@, name@),
            found@ == want.intersect(o.take(i as int).to_set()),
        decreases n - i,
    {
        let ghost x = o[i as int];
        proof {
            lemma_ordered(t@.dom());
            assert(o.contains(x));
            assert(o.take(i + 1) =~= o.take(i as int).push(x));
            o.take(i as int).lemma_push_to_set_commute(x);
        }
        match &t.value_at(i).variant {
            VariantSpec::InEnum { enum_name } => {
                if same(enum_name.as_str(), name) {
                    found.insert(t.key_at(i).clone());
                }
            },
            _ => {},
        }
        assert(found@ =~= want.intersect(o.take(i + 1).to_set()));
        i += 1;
    }
    proof {
        lemma_ordered(t@.dom());
        assert(o.take(i as int) =~= o);
        assert(found@ =~= want);
        lemma_ordered(want);
    }
    found.names()
}

fn collect_absorbed(t: &Table<EntitySummary>, name: &str) -> (r: Vec<String>)
    ensures
        r.deep_view() == ordered(absorbed_by(t@, name@)),
        r@.len() == absorbed_by(t@, name@).len(),
        absorbed_by(t@, name@).finite(),
{
    let n = t.len();
    let ghost o = ordered(t@.dom());
    let ghost want = absorbed_by(t@, name@);
    let mut found = NameSet::new();
    let mut i: usize = 0;
    assert(found@ =~= want.intersect(o.take(0).to_set()));
    while i < n
        invariant
            i <= n,
            n == o.len(),
            o == ordered(t@.dom()),
            t@.dom().finite(),
            want == absorbed_by(t@, name@),
            found@ == want.intersect(o.take(i as int).to_set()),
        decreases n - i,
    {
        let ghost x = o[i as int];
        proof {
            lemma_ordered(t@.dom());
            assert(o.contains(x));
            assert(o.take(i + 1) =~= o.take(i as int).push(x));
            o.take(i as int).lemma_push_to_set_commute(x);
        }
        let hit = match &t.value_at(i).variant {
            VariantSpec::NestedField { into, .. } => same(into.as_str(), name),
            VariantSpec::MergedInto { target, .. } => same(target.as_str(), name),
            _ => false,
        };
        if hit {
            found.insert(t.key_at(i).clone());
        }
        assert(found@ =~= want.intersect(o.take(i + 1).to_set()));
        i += 1;
    }
    proof {
        lemma_ordered(t@.dom());
        assert(o.take(i as int) =~= o);
        assert(found@ =~= want);
        lemma_ordered(want);
    }
    found.names()
}

/// The enums with `n` members.
pub open spec fn bases_with(m: Summaries, n: nat) -> Set<Seq<char>> {
    Set::new(
        |k: Seq<char>| m.contains_key(k) && m[k].variant is EnumBase && members_of(m, k).len() == n,
    )
}

/// What is wrong with dropping an enum with `n` members: entities that it
/// absorbs.
pub open spec fn base_fault(
    m: Summaries,
    n: nat,
    label: Seq<char>,
) -> spec_fn(Seq<char>) -> Option<Seq<char>> {
    |name: Seq<char>|
        if bases_with(m, n).contains(name) && absorbed_by(m, name).len() > 0 {
            Some(
                label + name + " has dangling NestedField/MergedInto references: "@ + quoted_list(
                    ordered(absorbed_by(m, name)),
                ) + ". Fix the classification before continuing."@,
            )
        } else {
            None
        }
}

/// The enums with `n` members, all of which can be dropped.
fn find_bases(t: &Table<EntitySummary>, n: usize, label: &str) -> (r: Result<NameSet, String>)
    ensures
        complaint(r) == first_some(ordered(t@.dom()), base_fault(t@, n as nat, label@)),
        r matches Ok(s) ==> s@ == bases_with(t@, n as nat),
{
    let total = t.len();
    let ghost o = ordered(t@.dom());
    let ghost want = bases_with(t@, n as nat);
    let ghost f = base_fault(t@, n as nat, label@);
    let mut found = NameSet::new();
    let mut i: usize = 0;
    proof {
        assert(o.take(0) =~= seq![]);
        assert(found@ =~= want.intersect(o.take(0).to_set()));
    }
    while i < total
        invariant
            i <= total,
            total == o.len(),
            o == ordered(t@.dom()),
            t@.dom().finite(),
            want == bases_with(t@, n as nat),
            f == base_fault(t@, n as nat, label@),
            first_some(o.take(i as int), f) is None,
            found@ == want.intersect(o.take(i as int).to_set()),
        decreases total - i,
    {
        let ghost x = o[i as int];
        proof {
            lemma_ordered(t@.dom());
            assert(o.contains(x));
            assert(o.take(i + 1) =~= o.take(i as int).push(x));
            o.take(i as int).lemma_push_to_set_commute(x);
            lemma_first_some_next(o, f, i as int);
        }
        let name = t.key_at(i).as_str();
        let is_base = match &t.value_at(i).variant {
            VariantSpec::EnumBase { .. } => true,
            _ => false,
        };
        if is_base && collect_members(t, name).len() == n {
            assert(want.contains(x));
            let dangling = collect_absorbed(t, name);
            if dangling.len() > 0 {
                let mut e: String = join3(
                    label,
                    name,
                    " has dangling NestedField/MergedInto references: ",
                );
                e.append(quote_list(&dangling).as_str());
                e.append(". Fix the classification before continuing.");
                return Err(e);
            }
            found.insert(name.to_owned());
        }
        assert(found@ =~= want.intersect(o.take(i + 1).to_set()));
        i += 1;
    }
    proof {
        lemma_ordered(t@.dom());
        assert(o.take(i as int) =~= o);
        assert(found@ =~= want);
    }
    Ok(found)
}

/// What is wrong with dropping the enums without members.
pub open spec fn empty_base_complaint(m: Summaries) -> Option<Seq<char>> {
    first_some(ordered(m.dom()), base_fault(m, 0, "empty enum_base "@))
}

/// What is wrong with dropping the enums with one member.
pub open spec fn lone_base_complaint(m: Summaries) -> Option<Seq<char>> {
    first_some(ordered(m.dom()), base_fault(m, 1, "single-child enum_base "@))
}

/// The summaries without the enums that have no members.
pub open spec fn without_empty_bases(m: Summaries) -> Summaries {
    m.remove_keys(bases_with(m, 0))
}

/// Drops the enums that have no members and returns their names; if one of them
/// absorbs entities, nothing is dropped.
pub fn prune_empty_enum_bases(out: &mut Table<EntitySummary>) -> (r: Result<Vec<String>, String>)
    ensures
        complaint(r) == empty_base_complaint(old(out)@),
        match r {
            Ok(removed) => final(out)@ == without_empty_bases(old(out)@) && removed.deep_view()
                == ordered(bases_with(old(out)@, 0)),
            Err(_) => final(out)@ == old(out)@,
        },
{
    let ghost m = out@;
    let found = match find_bases(out, 0, "empty enum_base ") {
        Ok(s) => s,
        Err(e) => {
            return Err(e);
        },
    };
    let removed = found.names();
    let n = removed.len();
    let ghost o = removed.deep_view();
    let mut i: usize = 0;
    assert(out@ =~= m.remove_keys(o.take(0).to_set()));
    while i < n
        invariant
            i <= n,
            n == removed@.len(),
            n == o.len(),
            o == removed.deep_view(),
            out@ == m.remove_keys(o.take(i as int).to_set()),
        decreases n - i,
    {
        proof {
            assert(o.take(i + 1) =~= o.take(i as int).push(o[i as int]));
            o.take(i as int).lemma_push_to_set_commute(o[i as int]);
        }
        out.remove(removed[i].as_str());
        assert(out@ =~= m.remove_keys(o.take(i + 1).to_set()));
        i += 1;
    }
    proof {
        assert(o.take(i as int) =~= o);
        lemma_ordered(found@);
        assert(o.to_set() =~= bases_with(m, 0));
    }
    Ok(removed)
}

/// The summaries without the enums that have one member, which stands alone
/// then.
pub open spec fn collapsed(m: Summaries) -> Summaries {
    Map::new(
        |k: Seq<char>| m.contains_key(k) && !bases_with(m, 1).contains(k),
        |k: Seq<char>| released(m, k),
    )
}

/// The summary of `k` once the enums with one member are gone.
pub open spec fn released(m: Summaries, k: Seq<char>) -> SummaryModel {
    match m[k].variant {
        SpecModel::InEnum { enum_name } => if bases_with(m, 1).contains(enum_name) {
            SummaryModel { variant: SpecModel::SingleStruct, ..m[k] }
        } else {
            m[k]
        },
        _ => m[k],
    }
}

/// What is left of `k` once the enums with one member are gone.
spec fn survivor(m: Summaries) -> spec_fn(Seq<char>) -> Option<SummaryModel> {
    |k: Seq<char>|
        if bases_with(m, 1).contains(k) {
            None
        } else {
            Some(released(m, k))
        }
}

proof fn lemma_collapsed(m: Summaries)
    requires
        m.dom().finite(),
    ensures
        tabulate(ordered(m.dom()), survivor(m)) == collapsed(m),
{
    lemma_ordered(m.dom());
    assert(tabulate(ordered(m.dom()), survivor(m)) =~= collapsed(m));
}

/// Drops the enums that have one member and returns their names; the member
/// becomes a single struct. If one of the enums absorbs entities, nothing is
/// changed.
pub fn collapse_single_child_enum_bases(out: &mut Table<EntitySummary>) -> (r: Result<
    Vec<String>,
    String,
>)
    ensures
        complaint(r) == lone_base_complaint(old(out)@),
        match r {
            Ok(removed) => final(out)@ == collapsed(old(out)@) && removed.deep_view() == ordered(
                bases_with(old(out)@, 1),
            ),
            Err(_) => final(out)@ == old(out)@,
        },
{
    let found = match find_bases(out, 1, "single-child enum_base ") {
        Ok(s) => s,
        Err(e) => {
            return Err(e);
        },
    };
    let ghost m = out@;
    let n = out.len();
    let ghost o = ordered(m.dom());
    let ghost g = survivor(m);
    let mut kept: Table<EntitySummary> = Table::new();
    let mut i: usize = 0;
    proof {
        lemma_tabulate_ends(o, g);
    }
    while i < n
        invariant
            i <= n,
            n == o.len(),
            out@ == m,
            m.dom().finite(),
            o == ordered(m.dom()),
            found@ == bases_with(m, 1),
            g == survivor(m),
            kept@ == tabulate(o.take(i as int), g),
        decreases n - i,
    {
        proof {
            lemma_tabulate_next(o, i as int, g);
        }
        let k = out.key_at(i);
        if !found.contains(k.as_str()) {
            let mut s = out.value_at(i).duplicate();
            let alone = match &s.variant {
                VariantSpec::InEnum { enum_name } => found.contains(enum_name.as_str()),
                _ => false,
            };
            if alone {
                s.variant = VariantSpec::SingleStruct;
            }
            kept.insert(k.clone(), s);
        }
        i += 1;
    }
    proof {
        lemma_tabulate_ends(o, g);
        lemma_collapsed(m);
    }
    *out = kept;
    Ok(found.names())
}

/// Once the enums without members and then those with one member are dropped,
/// every enum that is left has two members or more.
pub proof fn law_enums_have_members(m: Summaries, name: Seq<char>)
    requires
        m.dom().finite(),
        collapsed(without_empty_bases(m)).contains_key(name),
        collapsed(without_empty_bases(m))[name].variant is EnumBase,
    ensures
        members_of(collapsed(without_empty_bases(m)), name).len() >= 2,
{
    let m1 = without_empty_bases(m);
    let m2 = collapsed(m1);
    assert(m1[name].variant is EnumBase);
    assert(members_of(m1, name) =~= members_of(m, name));
    assert(members_of(m2, name) =~= members_of(m1, name)) by {
        assert forall|k: Seq<char>| members_of(m1, name).contains(k) implies members_of(
            m2,
            name,
        ).contains(k) by {
            assert(!bases_with(m1, 1).contains(k));
            assert(!bases_with(m1, 1).contains(name));
        }
    }
}

/// Only enums are dropped, and every other entity stays.
pub proof fn law_only_enums_dropped(m: Summaries, k: Seq<char>)
    requires
        m.contains_key(k),
        !(m[k].variant is EnumBase),
    ensures
        collapsed(without_empty_bases(m)).contains_key(k),
{
}

proof fn lemma_parts_there(
    out: Summaries,
    base: SummaryModel,
    entry: SplitModel,
    source: Seq<char>,
    n: int,
    i: int,
)
    requires
        0 <= i < n <= entry.variants.len(),
        split_parts(out, base, entry, source, n) is Ok,
    ensures
        split_parts(out, base, entry, source, n)->Ok_0.contains_key(entry.variants[i].name),
    decreases n,
{
    if i < n - 1 {
        lemma_parts_there(out, base, entry, source, n - 1, i);
    }
}

/// A split leaves a summary for each of its parts.
pub proof fn law_split_makes_parts(m: Summaries, source: Seq<char>, entry: SplitModel, i: int)
    requires
        m.contains_key(source),
        0 <= i < entry.variants.len(),
        split_one(m, source, entry) is Ok,
    ensures
        split_one(m, source, entry)->Ok_0.contains_key(entry.variants[i].name),
{
    lemma_parts_there(
        m.remove(source),
        m[source],
        entry,
        source,
        entry.variants.len() as int,
        i,
    );
}

/// A merge that finds one of its entities leaves its target, which lists what
/// it absorbed, and none of the entities that it absorbed.
pub proof fn law_merge_absorbs(m: Summaries, key: Seq<char>, entry: MergeModel, x: Seq<char>)
    requires
        first_present(m, entry.absorbs) is Some,
        merge_one(m, key, entry) is Ok,
        entry.absorbs.contains(x),
        x != entry.target_name,
    ensures
        !merge_one(m, key, entry)->Ok_0.contains_key(x),
        merge_one(m, key, entry)->Ok_0.contains_key(entry.target_name),
        merge_one(m, key, entry)->Ok_0[entry.target_name].merge_absorbs == entry.absorbs,
{
    assert(entry.absorbs.to_set().contains(x));
}

/// Recasts neither add nor drop an entity, and one that none of them lists
/// stays as it is.
pub proof fn law_recasts_keep_entities(
    m: Summaries,
    recasts: Map<Seq<char>, RecastModel>,
    keys: Seq<Seq<char>>,
    k: Seq<char>,
)
    ensures
        recast_all(m, recasts, keys).contains_key(k) == m.contains_key(k),
        m.contains_key(k) && (forall|i: int|
            0 <= i < keys.len() ==> !recasts[#[trigger] keys[i]].entities.contains(k))
            ==> recast_all(m, recasts, keys)[k] == m[k],
    decreases keys.len(),
{
    if keys.len() > 0 {
        law_recasts_keep_entities(m, recasts, keys.drop_last(), k);
        if forall|i: int|
            0 <= i < keys.len() ==> !recasts[#[trigger] keys[i]].entities.contains(k) {
            assert forall|i: int| 0 <= i < keys.len() - 1 implies !recasts[
                #[trigger] keys.drop_last()[i]].entities.contains(k) by {
                assert(!recasts[keys[i]].entities.contains(k));
            }
            assert(!recasts[keys[keys.len() - 1]].entities.contains(k));
        }
    }
}

/// Without recasts the summaries stay as they are.
pub proof fn law_no_recasts_no_change(m: Summaries)
    ensures
        recast_all(m, Map::empty(), ordered(Map::<Seq<char>, RecastModel>::empty().dom())) == m,
{
    lemma_ordered(Map::<Seq<char>, RecastModel>::empty().dom());
}

// ---------------------------------------------------------------------
// The stage
// ---------------------------------------------------------------------

/// What the stage hands on.
pub struct Reshaped {
    pub entities: Table<EntitySummary>,
    pub inserted_anchors: Vec<String>,
    pub pruned_enum_bases: Vec<String>,
    pub collapsed_enum_bases: Vec<String>,
}

/// What a `Reshaped` stands for.
pub struct ReshapedModel {
    pub entities: Summaries,
    pub inserted_anchors: Seq<Seq<char>>,
    pub pruned_enum_bases: Seq<Seq<char>>,
    pub collapsed_enum_bases: Seq<Seq<char>>,
}

impl DeepView for Reshaped {
    type V = ReshapedModel;

    open spec fn deep_view(&self) -> ReshapedModel {
        ReshapedModel {
            entities: self.entities@,
            inserted_anchors: self.inserted_anchors.deep_view(),
            pruned_enum_bases: self.pruned_enum_bases.deep_view(),
            collapsed_enum_bases: self.collapsed_enum_bases.deep_view(),
        }
    }
}

/// The clean-up of the enums that the recasts left.
pub open spec fn cleaned(
    m: Summaries,
    inserted: Seq<Seq<char>>,
) -> Result<ReshapedModel, Seq<char>> {
    match empty_base_complaint(m) {
        Some(e) => Err(e),
        None => match lone_base_complaint(without_empty_bases(m)) {
            Some(e) => Err(e),
            None => Ok(
                ReshapedModel {
                    entities: collapsed(without_empty_bases(m)),
                    inserted_anchors: inserted,
                    pruned_enum_bases: ordered(bases_with(m, 0)),
                    collapsed_enum_bases: ordered(bases_with(without_empty_bases(m), 1)),
                },
            ),
        },
    }
}

/// Everything after the splits and merges, with the warnings that come up.
pub open spec fn after_merges(
    m: Summaries,
    anchors: Map<Seq<char>, AnchorModel>,
    recasts: Map<Seq<char>, RecastModel>,
) -> (Seq<Seq<char>>, Result<ReshapedModel, Seq<char>>) {
    let names = ordered(anchors.dom());
    let keys = ordered(recasts.dom());
    let with = anchored(m, anchors);
    match first_some(names, anchor_fault(m, anchors)) {
        Some(e) => (seq![], Err(e)),
        None => match first_some(keys, target_fault(with, recasts)) {
            Some(e) => (seq![], Err(e)),
            None => (
                all_absent_warnings(with, recasts, keys),
                match first_some(keys, recast_fault(recasts)) {
                    Some(e) => Err(e),
                    None => cleaned(recast_all(with, recasts, keys), names),
                },
            ),
        },
    }
}

/// The summaries as they came, with nothing inserted, pruned or collapsed.
pub open spec fn unchanged(m: Summaries) -> ReshapedModel {
    ReshapedModel {
        entities: m,
        inserted_anchors: seq![],
        pruned_enum_bases: seq![],
        collapsed_enum_bases: seq![],
    }
}

/// The whole stage, with its warnings. Where there is nothing to apply, the
/// summaries are copied as they are: the enums are cleaned up only after a
/// reshaping that may have taken their members.
pub open spec fn reshaped(
    m: Summaries,
    splits: Map<Seq<char>, SplitModel>,
    merges: Map<Seq<char>, MergeModel>,
    anchors: Map<Seq<char>, AnchorModel>,
    recasts: Map<Seq<char>, RecastModel>,
) -> (Seq<Seq<char>>, Result<ReshapedModel, Seq<char>>) {
    if m == Map::<Seq<char>, SummaryModel>::empty() {
        (seq![], Err("entities.toml is empty or missing — run `infer shape` first."@))
    } else if splits == Map::<Seq<char>, SplitModel>::empty() && merges == Map::<
        Seq<char>,
        MergeModel,
    >::empty() && anchors == Map::<Seq<char>, AnchorModel>::empty() && recasts == Map::<
        Seq<char>,
        RecastModel,
    >::empty() {
        (seq![], Ok(unchanged(m)))
    } else {
        let first = split_warnings(m, ordered(splits.dom())) + all_merge_warnings(
            m,
            merges,
            ordered(merges.dom()),
        ) + all_recast_warnings(m, recasts, ordered(recasts.dom()));
        match split_and_merged(m, splits, merges) {
            Err(e) => (first, Err(e)),
            Ok(out) => {
                let rest = after_merges(out, anchors, recasts);
                (first + rest.0, rest.1)
            },
        }
    }
}

fn clean(entities: Table<EntitySummary>, inserted: Vec<String>) -> (r: Result<Reshaped, String>)
    ensures
        outcome(r) == cleaned(entities@, inserted.deep_view()),
{
    let mut out = entities;
    let pruned = match prune_empty_enum_bases(&mut out) {
        Ok(p) => p,
        Err(e) => {
            return Err(e);
        },
    };
    let lone = match collapse_single_child_enum_bases(&mut out) {
        Ok(p) => p,
        Err(e) => {
            return Err(e);
        },
    };
    Ok(
        Reshaped {
            entities: out,
            inserted_anchors: inserted,
            pruned_enum_bases: pruned,
            collapsed_enum_bases: lone,
        },
    )
}

fn finish(entities: Table<EntitySummary>, anchors: &AnchorsFile, recasts: &RecastsFile) -> (r: (
    Vec<String>,
    Result<Reshaped, String>,
))
    ensures
        (r.0.deep_view(), outcome(r.1)) == after_merges(
            entities@,
            anchors.anchor@,
            recasts.recast@,
        ),
{
    let mut out = entities;
    match validate_anchors(anchors, &out) {
        Err(e) => {
            return (no_names(), Err(e));
        },
        Ok(_) => {},
    }
    let inserted = apply_anchors(anchors, &mut out);
    match validate_recasts_enum_of(recasts, &out) {
        Err(e) => {
            return (no_names(), Err(e));
        },
        Ok(_) => {},
    }
    let warnings = warn_absent_recasts(recasts, &out);
    match apply_recasts(&mut out, recasts) {
        Err(e) => (warnings, Err(e)),
        Ok(_) => (warnings, clean(out, inserted)),
    }
}

/// With no splits, merges, anchors and recasts the stage copies the summaries
/// as they are, without a warning: enums without members, or with a single
/// one, stay too.
pub proof fn law_nothing_to_apply_copies(m: Summaries)
    requires
        m != Map::<Seq<char>, SummaryModel>::empty(),
    ensures
        reshaped(m, Map::empty(), Map::empty(), Map::empty(), Map::empty()) == (
            Seq::<Seq<char>>::empty(),
            Ok::<ReshapedModel, Seq<char>>(unchanged(m)),
        ),
        unchanged(m).entities == m,
{
}

/// Runs the stage: splits, merges, anchors, recasts, and the clean-up of the
/// enums. With none of the four the entities are copied as they are. The first
/// part of the result holds the warnings.
pub fn reshape_stage(
    entities: &Table<EntitySummary>,
    splits: &SplitsFile,
    merges: &MergesFile,
    anchors: &AnchorsFile,
    recasts: &RecastsFile,
) -> (r: (Vec<String>, Result<Reshaped, String>))
    ensures
        (r.0.deep_view(), outcome(r.1)) == reshaped(
            entities@,
            splits.split@,
            merges.merge@,
            anchors.anchor@,
            recasts.recast@,
        ),
        r.1 matches Ok(out) ==> forall|x: Seq<char>| #[trigger]
            entities@.contains_key(x) && !(entities@[x].variant is EnumBase
                || entities@[x].variant is InEnum) && no_split_touches(splits.split@, x)
                && no_merge_touches(merges.merge@, x) && !anchors.anchor@.contains_key(x)
                && no_recast_touches(recasts.recast@, x) ==> out.entities@.contains_key(x)
                && out.entities@[x] == entities@[x],
{
    let no_splits = splits.split.is_empty();
    let no_merges = merges.merge.is_empty();
    let no_anchors = anchors.anchor.is_empty();
    let no_recasts = recasts.recast.is_empty();
    proof {
        let m = entities@;
        let want = reshaped(m, splits.split@, merges.merge@, anchors.anchor@, recasts.recast@).1;
        assert forall|x: Seq<char>| #[trigger]
            m.contains_key(x) && !(m[x].variant is EnumBase || m[x].variant is InEnum)
                && no_split_touches(splits.split@, x) && no_merge_touches(merges.merge@, x)
                && !anchors.anchor@.contains_key(x) && no_recast_touches(recasts.recast@, x)
                && want is Ok implies want->Ok_0.entities.contains_key(x) && want->Ok_0.entities[x]
            == m[x] by {
            law_untouched_entities_stay(
                m,
                splits.split@,
                merges.merge@,
                anchors.anchor@,
                recasts.recast@,
                x,
            );
        }
    }
    if entities.is_empty() {
        return (
            no_names(),
            Err("entities.toml is empty or missing — run `infer shape` first.".to_owned()),
        );
    }
    if no_splits && no_merges && no_anchors && no_recasts {
        let kept = Reshaped {
            entities: entities.duplicate(),
            inserted_anchors: no_names(),
            pruned_enum_bases: no_names(),
            collapsed_enum_bases: no_names(),
        };
        return (no_names(), Ok(kept));
    }
    let mut warnings = validate_splits(splits, entities);
    append_items(&mut warnings, validate_merges(merges, entities));
    append_items(&mut warnings, validate_recasts(recasts, entities));
    match apply_splits_merges(entities, splits, merges) {
        Err(e) => (warnings, Err(e)),
        Ok(out) => {
            let (more, result) = finish(out, anchors, recasts);
            append_items(&mut warnings, more);
            (warnings, result)
        },
    }
}

} // verus!
