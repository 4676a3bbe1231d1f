//! The shape of concrete supertypes, and the summary of every decision about
//! an entity.

use crate::infer::arena::{compute_entity_to_group, entity_groups, ArenaSpec};
use crate::infer::prune::{UsageModel, UsageRecord};
use crate::infer::variant::{Decisions, SpecModel, VariantSpec};
use crate::names::{lemma_ordered, no_names, ordered, push_item, Duplicate, NameSet, Table};
use crate::text::{decimal, decimal_of, join3, join_all, joined, outcome};
use vstd::prelude::*;
use vstd::string::*;

verus! {

broadcast use vstd::string::group_string_axioms;

/// How a concrete supertype is laid out.
#[derive(Debug, Clone, Copy, PartialEq, Eq)]
pub enum ConcreteSupertypeShape {
    /// One enum with the supertype and its children side by side.
    Carrier,
    /// A struct for the supertype and an enum for the kinds.
    BaseParallel,
}

impl DeepView for ConcreteSupertypeShape {
    type V = ConcreteSupertypeShape;

    open spec fn deep_view(&self) -> ConcreteSupertypeShape {
        *self
    }
}

impl Duplicate for ConcreteSupertypeShape {
    fn duplicate(&self) -> Self {
        *self
    }
}

/// All decisions about an entity.
#[derive(Debug, PartialEq, Eq)]
pub struct EntitySummary {
    pub variant: VariantSpec,
    pub group: String,
    pub arena: String,
    pub shape: Option<ConcreteSupertypeShape>,
    pub instance_count: usize,
    pub complex_part_count: usize,
    pub co_instantiated_with: Vec<String>,
    /// The entity that this one was split from.
    pub split_from: Option<String>,
    /// What tells the parts of a split apart.
    pub split_context: Option<String>,
    /// The entities that this one absorbs.
    pub merge_absorbs: Vec<String>,
    /// Whether the fields of the absorbed entities are united.
    pub fields_union: bool,
    /// Why the entity was reshaped.
    pub reasons: Option<String>,
}

/// What an `EntitySummary` stands for.
pub struct SummaryModel {
    pub variant: SpecModel,
    pub group: Seq<char>,
    pub arena: Seq<char>,
    pub shape: Option<ConcreteSupertypeShape>,
    pub instance_count: usize,
    pub complex_part_count: usize,
    pub co_instantiated_with: Seq<Seq<char>>,
    pub split_from: Option<Seq<char>>,
    pub split_context: Option<Seq<char>>,
    pub merge_absorbs: Seq<Seq<char>>,
    pub fields_union: bool,
    pub reasons: Option<Seq<char>>,
}

impl EntitySummary {
    pub open spec fn view(&self) -> SummaryModel {
        SummaryModel {
            variant: self.variant.view(),
            group: self.group@,
            arena: self.arena@,
            shape: self.shape,
            instance_count: self.instance_count,
            complex_part_count: self.complex_part_count,
            co_instantiated_with: self.co_instantiated_with.deep_view(),
            split_from: self.split_from.deep_view(),
            split_context: self.split_context.deep_view(),
            merge_absorbs: self.merge_absorbs.deep_view(),
            fields_union: self.fields_union,
            reasons: self.reasons.deep_view(),
        }
    }
}

impl DeepView for EntitySummary {
    type V = SummaryModel;

    open spec fn deep_view(&self) -> SummaryModel {
        self.view()
    }
}

impl Duplicate for EntitySummary {
    fn duplicate(&self) -> Self {
        EntitySummary {
            variant: self.variant.duplicate(),
            group: self.group.clone(),
            arena: self.arena.clone(),
            shape: self.shape,
            instance_count: self.instance_count,
            complex_part_count: self.complex_part_count,
            co_instantiated_with: self.co_instantiated_with.duplicate(),
            split_from: self.split_from.duplicate(),
            split_context: self.split_context.duplicate(),
            merge_absorbs: self.merge_absorbs.duplicate(),
            fields_union: self.fields_union,
            reasons: self.reasons.duplicate(),
        }
    }
}

impl Clone for EntitySummary {
    fn clone(&self) -> (r: Self)
        ensures
            r.view() == self.view(),
    {
        self.duplicate()
    }
}

/// The summaries by entity.
pub type Summaries = Map<Seq<char>, SummaryModel>;

/// The summary of one entity.
pub open spec fn summary_of(
    d: Decisions,
    group: Seq<char>,
    arena: Seq<char>,
    shapes: Map<Seq<char>, ConcreteSupertypeShape>,
    usage: Map<Seq<char>, UsageModel>,
    e: Seq<char>,
) -> SummaryModel {
    SummaryModel {
        variant: d[e],
        group,
        arena,
        shape: if shapes.contains_key(e) {
            Some(shapes[e])
        } else {
            None
        },
        instance_count: if usage.contains_key(e) {
            usage[e].instance_count
        } else {
            0
        },
        complex_part_count: if usage.contains_key(e) {
            usage[e].complex_part_count
        } else {
            0
        },
        co_instantiated_with: if usage.contains_key(e) {
            usage[e].co_instantiated_with
        } else {
            seq![]
        },
        split_from: None,
        split_context: None,
        merge_absorbs: seq![],
        fields_union: false,
        reasons: None,
    }
}

/// The summaries of the entities `keys`; an entity without a group, or a group
/// without an arena, is an error.
pub open spec fn summaries_among(
    d: Decisions,
    groups: Map<Seq<char>, Seq<char>>,
    arenas: Map<Seq<char>, Seq<char>>,
    shapes: Map<Seq<char>, ConcreteSupertypeShape>,
    usage: Map<Seq<char>, UsageModel>,
    keys: Seq<Seq<char>>,
) -> Result<Summaries, Seq<char>>
    decreases keys.len(),
{
    if keys.len() == 0 {
        Ok(Map::empty())
    } else {
        match summaries_among(d, groups, arenas, shapes, usage, keys.drop_last()) {
            Err(w) => Err(w),
            Ok(out) => {
                let e = keys.last();
                if !groups.contains_key(e) {
                    Err("entity "@ + e + " has no group"@)
                } else if !arenas.contains_key(groups[e]) {
                    Err("group "@ + groups[e] + " missing in arenas_pruned.toml"@)
                } else {
                    Ok(
                        out.insert(
                            e,
                            summary_of(d, groups[e], arenas[groups[e]], shapes, usage, e),
                        ),
                    )
                }
            },
        }
    }
}

proof fn lemma_summaries_prefix(
    d: Decisions,
    groups: Map<Seq<char>, Seq<char>>,
    arenas: Map<Seq<char>, Seq<char>>,
    shapes: Map<Seq<char>, ConcreteSupertypeShape>,
    usage: Map<Seq<char>, UsageModel>,
    keys: Seq<Seq<char>>,
    k: int,
)
    requires
        0 <= k <= keys.len(),
        summaries_among(d, groups, arenas, shapes, usage, keys.take(k)) is Err,
    ensures
        summaries_among(d, groups, arenas, shapes, usage, keys) == summaries_among(
            d,
            groups,
            arenas,
            shapes,
            usage,
            keys.take(k),
        ),
    decreases keys.len(),
{
    if k < keys.len() {
        assert(keys.drop_last().take(k) =~= keys.take(k));
        lemma_summaries_prefix(d, groups, arenas, shapes, usage, keys.drop_last(), k);
    } else {
        assert(keys.take(k) =~= keys);
    }
}

/// Compiles the summary of every entity.
pub fn compile_entities(
    variants: &Table<VariantSpec>,
    arenas: &Table<ArenaSpec>,
    shapes: &Table<ConcreteSupertypeShape>,
    usage: &Table<UsageRecord>,
) -> (r: Result<Table<EntitySummary>, String>)
    ensures
        outcome(r) == summaries_among(
            variants@,
            entity_groups(variants@),
            arenas@,
            shapes@,
            usage@,
            ordered(variants@.dom()),
        ),
        r matches Ok(out) ==> forall|e: Seq<char>| #[trigger]
            variants@.contains_key(e) ==> {
                &&& out@.contains_key(e)
                &&& out@[e].variant == variants@[e]
                &&& arenas@.contains_key(out@[e].group)
                &&& out@[e].arena == arenas@[out@[e].group]
                &&& shapes@.contains_key(e) ==> out@[e].shape == Some(shapes@[e])
                &&& usage@.contains_key(e) ==> out@[e].instance_count == usage@[e].instance_count
                    && out@[e].complex_part_count == usage@[e].complex_part_count
                    && out@[e].co_instantiated_with == usage@[e].co_instantiated_with
            },
{
    let groups = compute_entity_to_group(variants);
    let n = variants.len();
    let ghost o = ordered(variants@.dom());
    let mut out: Table<EntitySummary> = Table::new();
    let mut i: usize = 0;
    assert(o.take(0) =~= seq![]);
    while i < n
        invariant
            i <= n,
            n == o.len(),
            o == ordered(variants@.dom()),
            groups@ == entity_groups(variants@),
            summaries_among(variants@, groups@, arenas@, shapes@, usage@, o.take(i as int)) == Ok::<
                Summaries,
                Seq<char>,
            >(out@),
        decreases n - i,
    {
        proof {
            assert(o.take(i + 1).drop_last() =~= o.take(i as int));
            if summaries_among(variants@, groups@, arenas@, shapes@, usage@, o.take(i + 1)) is Err {
                lemma_summaries_prefix(variants@, groups@, arenas@, shapes@, usage@, o, i + 1);
            }
        }
        let e = variants.key_at(i);
        let group = match groups.get(e.as_str()) {
            Some(g) => g.clone(),
            None => {
                return Err(join3("entity ", e.as_str(), " has no group"));
            },
        };
        let arena = match arenas.get(group.as_str()) {
            Some(a) => a.arena.clone(),
            None => {
                return Err(join3("group ", group.as_str(), " missing in arenas_pruned.toml"));
            },
        };
        let shape: Option<ConcreteSupertypeShape> = match shapes.get(e.as_str()) {
            Some(s) => Some(*s),
            None => None,
        };
        let none: Vec<String> = Vec::new();
        let absorbed: Vec<String> = Vec::new();
        proof {
            assert(none.deep_view() =~= seq![]);
            assert(absorbed.deep_view() =~= seq![]);
        }
        let used: UsageRecord = match usage.get(e.as_str()) {
            Some(u) => u.duplicate(),
            None => UsageRecord {
                instance_count: 0,
                complex_part_count: 0,
                co_instantiated_with: none,
            },
        };
        let summary = EntitySummary {
            variant: variants.value_at(i).duplicate(),
            group,
            arena,
            shape,
            instance_count: used.instance_count,
            complex_part_count: used.complex_part_count,
            co_instantiated_with: used.co_instantiated_with,
            split_from: None,
            split_context: None,
            merge_absorbs: absorbed,
            fields_union: false,
            reasons: None,
        };
        out.insert(e.clone(), summary);
        i += 1;
    }
    assert(o.take(i as int) =~= o);
    proof {
        lemma_ordered(variants@.dom());
        assert forall|e: Seq<char>| #[trigger] variants@.contains_key(e) implies {
            &&& out@.contains_key(e)
            &&& out@[e].variant == variants@[e]
            &&& arenas@.contains_key(out@[e].group)
            &&& out@[e].arena == arenas@[out@[e].group]
            &&& shapes@.contains_key(e) ==> out@[e].shape == Some(shapes@[e])
            &&& usage@.contains_key(e) ==> out@[e].instance_count == usage@[e].instance_count
                && out@[e].complex_part_count == usage@[e].complex_part_count
                && out@[e].co_instantiated_with == usage@[e].co_instantiated_with
        } by {
            assert(o.contains(e));
            law_summaries_say_it_all(variants@, groups@, arenas@, shapes@, usage@, o, e);
        }
    }
    Ok(out)
}

/// What the summary of each entity says: its kind, its group and the arena of that,
/// the shape given for it, how it is used, and nothing of any reshaping.
pub proof fn law_summaries_say_it_all(
    d: Decisions,
    groups: Map<Seq<char>, Seq<char>>,
    arenas: Map<Seq<char>, Seq<char>>,
    shapes: Map<Seq<char>, ConcreteSupertypeShape>,
    usage: Map<Seq<char>, UsageModel>,
    keys: Seq<Seq<char>>,
    e: Seq<char>,
)
    requires
        keys.contains(e),
    ensures
        summaries_among(d, groups, arenas, shapes, usage, keys) matches Ok(out) ==> {
            &&& out.contains_key(e)
            &&& groups.contains_key(e)
            &&& arenas.contains_key(groups[e])
            &&& out[e].variant == d[e]
            &&& out[e].group == groups[e]
            &&& out[e].arena == arenas[groups[e]]
            &&& out[e].shape is Some <==> shapes.contains_key(e)
            &&& shapes.contains_key(e) ==> out[e].shape == Some(shapes[e])
            &&& usage.contains_key(e) ==> out[e].instance_count == usage[e].instance_count
                && out[e].complex_part_count == usage[e].complex_part_count
                && out[e].co_instantiated_with == usage[e].co_instantiated_with
            &&& !usage.contains_key(e) ==> out[e].instance_count == 0
                && out[e].complex_part_count == 0 && out[e].co_instantiated_with.len() == 0
            &&& out[e].split_from is None && out[e].split_context is None && out[e].reasons is None
            &&& out[e].merge_absorbs.len() == 0 && !out[e].fields_union
        },
    decreases keys.len(),
{
    let before = keys.drop_last();
    let i = choose|i: int| 0 <= i < keys.len() && keys[i] == e;
    if i < before.len() {
        assert(before[i] == e);
        law_summaries_say_it_all(d, groups, arenas, shapes, usage, before, e);
    }
}

/// Summaries are made if every entity has a group and that an arena; or else the
/// first entity that lacks one of these is complained about.
pub proof fn law_summaries_need_groups(
    d: Decisions,
    groups: Map<Seq<char>, Seq<char>>,
    arenas: Map<Seq<char>, Seq<char>>,
    shapes: Map<Seq<char>, ConcreteSupertypeShape>,
    usage: Map<Seq<char>, UsageModel>,
    keys: Seq<Seq<char>>,
    k: int,
)
    requires
        0 <= k <= keys.len(),
        forall|i: int|
            0 <= i < k ==> groups.contains_key(#[trigger] keys[i]) && arenas.contains_key(
                groups[keys[i]],
            ),
    ensures
        k == keys.len() ==> summaries_among(d, groups, arenas, shapes, usage, keys) is Ok,
        k < keys.len() && !groups.contains_key(keys[k]) ==> summaries_among(
            d,
            groups,
            arenas,
            shapes,
            usage,
            keys,
        ) == Err::<Summaries, Seq<char>>("entity "@ + keys[k] + " has no group"@),
        k < keys.len() && groups.contains_key(keys[k]) && !arenas.contains_key(groups[keys[k]])
            ==> summaries_among(d, groups, arenas, shapes, usage, keys) == Err::<
            Summaries,
            Seq<char>,
        >("group "@ + groups[keys[k]] + " missing in arenas_pruned.toml"@),
    decreases keys.len(),
{
    if keys.len() > 0 {
        let before = keys.drop_last();
        let n = if k < before.len() {
            k
        } else {
            before.len() as int
        };
        assert forall|i: int| 0 <= i < n implies groups.contains_key(#[trigger] before[i])
            && arenas.contains_key(groups[before[i]]) by {
            assert(before[i] == keys[i]);
        }
        law_summaries_need_groups(d, groups, arenas, shapes, usage, before, n);
        if k < before.len() {
            assert(before[k] == keys[k]);
        }
        if k == keys.len() {
            assert(groups.contains_key(keys[keys.len() - 1]));
        }
    }
}

/// Compiling keeps the entities: each has a summary with its kind, and nothing
/// else has one.
pub proof fn law_compile_keeps_entities(
    d: Decisions,
    groups: Map<Seq<char>, Seq<char>>,
    arenas: Map<Seq<char>, Seq<char>>,
    shapes: Map<Seq<char>, ConcreteSupertypeShape>,
    usage: Map<Seq<char>, UsageModel>,
    keys: Seq<Seq<char>>,
)
    ensures
        summaries_among(d, groups, arenas, shapes, usage, keys) matches Ok(out) ==> forall|
            e: Seq<char>,
        |
            {
                &&& #[trigger] out.contains_key(e) <==> keys.contains(e)
                &&& out.contains_key(e) ==> out[e].variant == d[e]
            },
    decreases keys.len(),
{
    if keys.len() > 0 {
        let firsts = keys.drop_last();
        law_compile_keeps_entities(d, groups, arenas, shapes, usage, firsts);
        assert forall|x: Seq<char>| keys.contains(x) <==> firsts.contains(x) || x
            == keys.last() by {
            if keys.contains(x) {
                let i = choose|i: int| 0 <= i < keys.len() && keys[i] == x;
                if i < firsts.len() {
                    assert(firsts[i] == x);
                }
            }
            if firsts.contains(x) {
                let i = choose|i: int| 0 <= i < firsts.len() && firsts[i] == x;
                assert(keys[i] == x);
            }
            assert(keys[keys.len() - 1] == keys.last());
        }
    }
}

// ---------------------------------------------------------------------
// Shapes
// ---------------------------------------------------------------------

/// What comes of comparing the concrete supertypes with the shape entries.
#[derive(Debug)]
pub enum Validation {
    Complete {
        /// How many of the required entities are carriers.
        carrier: usize,
        /// How many have a parallel enum.
        base_parallel: usize,
        /// Entries that belong to no concrete supertype.
        extras: Vec<String>,
    },
    /// Concrete supertypes without an entry.
    Missing(Vec<String>),
}

/// The required entities with the given shape.
pub open spec fn with_shape(
    required: Set<Seq<char>>,
    provided: Map<Seq<char>, ConcreteSupertypeShape>,
    shape: ConcreteSupertypeShape,
) -> Set<Seq<char>> {
    provided.dom().filter(|e: Seq<char>| required.contains(e) && provided[e] == shape)
}

/// Compares the concrete supertypes with the shape entries.
pub fn validate(required: &NameSet, provided: &Table<ConcreteSupertypeShape>) -> (r: Validation)
    ensures
        match r {
            Validation::Missing(missing) => missing.deep_view() == ordered(
                required@.difference(provided@.dom()),
            ) && missing@.len() > 0,
            Validation::Complete { carrier, base_parallel, extras } => required@.subset_of(
                provided@.dom(),
            ) && extras.deep_view() == ordered(provided@.dom().difference(required@)) && carrier
                == with_shape(required@, provided@, ConcreteSupertypeShape::Carrier).len()
                && base_parallel == with_shape(
                required@,
                provided@,
                ConcreteSupertypeShape::BaseParallel,
            ).len(),
        },
{
    let provided_keys = NameSet::from_names(&provided.keys());
    let total = provided.len();
    proof {
        lemma_ordered(provided@.dom());
        assert(provided_keys@ =~= provided@.dom());
    }
    let missing = required.minus(&provided_keys);
    if missing.len() > 0 {
        return Validation::Missing(missing.names());
    }
    proof {
        assert forall|x: Seq<char>| required@.contains(x) implies provided@.dom().contains(x) by {
            if !provided@.dom().contains(x) {
                assert(missing@.contains(x));
                assert(missing@ =~= Set::empty());
            }
        }
    }
    let extras = provided_keys.minus(required);
    let ghost o = ordered(provided@.dom());
    let mut carriers = NameSet::new();
    let mut parallels = NameSet::new();
    let ghost wc = with_shape(required@, provided@, ConcreteSupertypeShape::Carrier);
    let ghost wp = with_shape(required@, provided@, ConcreteSupertypeShape::BaseParallel);
    let mut i: usize = 0;
    proof {
        assert(wc.intersect(o.take(0).to_set()) =~= Set::empty());
        assert(wp.intersect(o.take(0).to_set()) =~= Set::empty());
    }
    while i < total
        invariant
            i <= total,
            total == o.len(),
            o == ordered(provided@.dom()),
            wc == with_shape(required@, provided@, ConcreteSupertypeShape::Carrier),
            wp == with_shape(required@, provided@, ConcreteSupertypeShape::BaseParallel),
            carriers@ == wc.intersect(o.take(i as int).to_set()),
            parallels@ == wp.intersect(o.take(i as int).to_set()),
        decreases total - i,
    {
        let e = provided.key_at(i);
        let ghost before = o.take(i as int);
        proof {
            assert(o.take(i + 1) =~= before.push(e@));
            before.lemma_push_to_set_commute(e@);
        }
        if required.contains(e.as_str()) {
            match provided.value_at(i) {
                ConcreteSupertypeShape::Carrier => {
                    carriers.insert(e.clone());
                },
                ConcreteSupertypeShape::BaseParallel => {
                    parallels.insert(e.clone());
                },
            }
        }
        proof {
            assert(carriers@ =~= wc.intersect(o.take(i + 1).to_set()));
            assert(parallels@ =~= wp.intersect(o.take(i + 1).to_set()));
        }
        i += 1;
    }
    proof {
        assert(o.take(i as int) =~= o);
        lemma_ordered(provided@.dom());
        assert(carriers@ =~= wc);
        assert(parallels@ =~= wp);
    }
    Validation::Complete {
        carrier: carriers.len(),
        base_parallel: parallels.len(),
        extras: extras.names(),
    }
}

/// The message about a shape file that is not there.
pub open spec fn missing_file(required: Set<Seq<char>>) -> Seq<char> {
    "shapes.toml not found — required ConcreteSupertype entities ("@ + decimal(required.len())
        + "):\n  "@ + joined(ordered(required), "\n  "@)
        + "\nAdd `[entity.<name>] shape = \"carrier\" | \"base_parallel\"` for each."@
}

pub fn missing_file_message(required: &NameSet) -> (r: String)
    ensures
        r@ == missing_file(required@),
{
    let mut r: String = "shapes.toml not found — required ConcreteSupertype entities (".to_owned();
    r.append(decimal_of(required.len()).as_str());
    r.append("):\n  ");
    r.append(join_all(&required.names(), "\n  ").as_str());
    r.append("\nAdd `[entity.<name>] shape = \"carrier\" | \"base_parallel\"` for each.");
    r
}

/// The message about concrete supertypes without an entry.
pub open spec fn missing_entries(missing: Seq<Seq<char>>) -> Seq<char> {
    "shapes.toml missing "@ + decimal(missing.len()) + " required ConcreteSupertype entries:\n  "@
        + joined(missing, "\n  "@)
        + "\nAdd `[entity.<name>] shape = \"carrier\" | \"base_parallel\"` for each."@
}

pub fn missing_entries_message(missing: &Vec<String>) -> (r: String)
    ensures
        r@ == missing_entries(missing.deep_view()),
{
    let mut r: String = "shapes.toml missing ".to_owned();
    r.append(decimal_of(missing.len()).as_str());
    r.append(" required ConcreteSupertype entries:\n  ");
    r.append(join_all(missing, "\n  ").as_str());
    r.append("\nAdd `[entity.<name>] shape = \"carrier\" | \"base_parallel\"` for each.");
    r
}

/// The concrete supertypes.
pub open spec fn concrete_supertypes(d: Decisions) -> Set<Seq<char>> {
    d.dom().filter(|e: Seq<char>| d[e] is ConcreteSupertype)
}

/// Collects the concrete supertypes.
pub fn required_shapes(variants: &Table<VariantSpec>) -> (r: NameSet)
    ensures
        r@ == concrete_supertypes(variants@),
{
    let n = variants.len();
    let ghost o = ordered(variants@.dom());
    let ghost want = concrete_supertypes(variants@);
    let mut out = NameSet::new();
    let mut i: usize = 0;
    proof {
        lemma_ordered(variants@.dom());
        assert(want.intersect(o.take(0).to_set()) =~= Set::empty());
    }
    while i < n
        invariant
            i <= n,
            n == o.len(),
            o == ordered(variants@.dom()),
            want == concrete_supertypes(variants@),
            out@ == want.intersect(o.take(i as int).to_set()),
        decreases n - i,
    {
        let e = variants.key_at(i);
        let ghost before = o.take(i as int);
        proof {
            assert(o.take(i + 1) =~= before.push(e@));
            before.lemma_push_to_set_commute(e@);
        }
        match variants.value_at(i) {
            VariantSpec::ConcreteSupertype => {
                out.insert(e.clone());
            },
            _ => {},
        }
        assert(out@ =~= want.intersect(o.take(i + 1).to_set()));
        i += 1;
    }
    proof {
        assert(o.take(i as int) =~= o);
        assert(out@ =~= want);
    }
    out
}

// ---------------------------------------------------------------------
// The check of the shapes
// ---------------------------------------------------------------------

/// What the check of the shapes found.
#[derive(Debug)]
pub struct ShapeCheck {
    pub required: usize,
    pub carrier: usize,
    pub base_parallel: usize,
    pub warnings: Vec<String>,
}

/// The warning about an entry that belongs to no concrete supertype.
pub open spec fn extra_shape(e: Seq<char>) -> Seq<char> {
    "warning: shapes.toml [entity."@ + e
        + "] is not a ConcreteSupertype in variants_pruned.toml — ignored"@
}

fn warn_extra_shapes(extras: &Vec<String>) -> (r: Vec<String>)
    ensures
        r.deep_view() == extras.deep_view().map_values(|e: Seq<char>| extra_shape(e)),
{
    let ghost want = extras.deep_view().map_values(|e: Seq<char>| extra_shape(e));
    let mut out: Vec<String> = no_names();
    let mut i: usize = 0;
    assert(want.take(0) =~= seq![]);
    while i < extras.len()
        invariant
            i <= extras@.len(),
            want == extras.deep_view().map_values(|e: Seq<char>| extra_shape(e)),
            out.deep_view() == want.take(i as int),
        decreases extras@.len() - i,
    {
        assert(extras.deep_view()[i as int] == extras@[i as int]@);
        push_item(
            &mut out,
            join3(
                "warning: shapes.toml [entity.",
                extras[i].as_str(),
                "] is not a ConcreteSupertype in variants_pruned.toml — ignored",
            ),
        );
        assert(out.deep_view() =~= want.take(i + 1));
        i += 1;
    }
    assert(want.take(i as int) =~= want);
    out
}

/// Checks that every concrete supertype has a shape. `provided` holds the
/// entries, if there is a file of them.
pub fn check_shapes(
    variants: &Table<VariantSpec>,
    provided: Option<&Table<ConcreteSupertypeShape>>,
) -> (r: Result<ShapeCheck, String>)
    ensures
        ({
            let required = concrete_supertypes(variants@);
            if variants@ == Map::<Seq<char>, SpecModel>::empty() {
                r matches Err(e) && e@
                    == "variants_pruned.toml is empty or missing — run `infer prune` first."@
            } else {
                match provided {
                    None => r matches Err(e) && e@ == missing_file(required),
                    Some(p) => if required.subset_of(p@.dom()) {
                        r matches Ok(c) && c.required == required.len() && c.carrier == with_shape(
                            required,
                            p@,
                            ConcreteSupertypeShape::Carrier,
                        ).len() && c.base_parallel == with_shape(
                            required,
                            p@,
                            ConcreteSupertypeShape::BaseParallel,
                        ).len() && c.warnings.deep_view() == ordered(
                            p@.dom().difference(required),
                        ).map_values(|e: Seq<char>| extra_shape(e))
                    } else {
                        r matches Err(e) && e@ == missing_entries(
                            ordered(required.difference(p@.dom())),
                        )
                    },
                }
            }
        }),
{
    if variants.is_empty() {
        return Err(
            "variants_pruned.toml is empty or missing — run `infer prune` first.".to_owned(),
        );
    }
    let required = required_shapes(variants);
    let size = required.len();
    match provided {
        None => Err(missing_file_message(&required)),
        Some(p) => match validate(&required, p) {
            Validation::Missing(missing) => {
                proof {
                    let gone = required@.difference(p@.dom());
                    if required@.subset_of(p@.dom()) {
                        assert(gone =~= Set::empty());
                        lemma_ordered(gone);
                        assert(missing.deep_view().len() == missing@.len());
                    }
                }
                Err(missing_entries_message(&missing))
            },
            Validation::Complete { carrier, base_parallel, extras } => Ok(
                ShapeCheck {
                    required: size,
                    carrier,
                    base_parallel,
                    warnings: warn_extra_shapes(&extras),
                },
            ),
        },
    }
}

} // verus!
