//! Names for everything, and the blueprint of every entity. Defaults follow
//! from the entity names; manual names replace them.

use crate::express::{Schema, SchemaModel};
use crate::infer::fields::{all_unfold, attr_types, build_attr_types, FieldModel, FieldRec};
use crate::infer::pool::PoolEntry;
use crate::infer::refgraph::{first_aliased, first_declared, schema_models};
use crate::infer::reshape::{kind_name, kind_str};
use crate::infer::shape::{ConcreteSupertypeShape, EntitySummary, Summaries, SummaryModel};
use crate::infer::variant::{SpecModel, VariantSpec};
use crate::names::{
    append_items, first_some, gathered, lemma_first_some_next, lemma_gathered_ends,
    lemma_gathered_next, lemma_ordered, lemma_tabulate_ends, lemma_tabulate_next, no_names, ordered,
    push_item, tabulate, Duplicate, Table,
};
use crate::text::{
    capital, capital_of, chars_of, find_char, index_of, join, join3, outcome, same, split,
    split_at_char, string_of,
};
use vstd::prelude::*;
use vstd::slice::slice_subrange;
use vstd::string::*;

verus! {

broadcast use vstd::string::group_string_axioms;

// ---------------------------------------------------------------------
// Pascal case
// ---------------------------------------------------------------------

/// A word with its first letter in upper case; two acronyms have a form of
/// their own.
pub open spec fn pascal_word(w: Seq<char>) -> Seq<char> {
    if w == "pcurve"@ {
        "PCurve"@
    } else if w == "rgb"@ {
        "RGB"@
    } else if w.len() == 0 {
        w
    } else {
        capital(w[0]) + w.skip(1)
    }
}

pub open spec fn pascal_words(ws: Seq<Seq<char>>) -> Seq<char>
    decreases ws.len(),
{
    if ws.len() == 0 {
        seq![]
    } else {
        pascal_words(ws.drop_last()) + pascal_word(ws.last())
    }
}

/// The words of a name, capitalised and without the underscores.
pub open spec fn pascal(s: Seq<char>) -> Seq<char> {
    pascal_words(split(s, '_'))
}

fn capitalise(w: &str) -> (r: String)
    ensures
        r@ == pascal_word(w@),
{
    if same(w, "pcurve") {
        return "PCurve".to_owned();
    }
    if same(w, "rgb") {
        return "RGB".to_owned();
    }
    let cs = chars_of(w);
    if cs.len() == 0 {
        return w.to_owned();
    }
    let mut r: String = capital_of(cs[0]);
    let n = cs.len();
    let rest = string_of(slice_subrange(cs.as_slice(), 1, n));
    r.append(rest.as_str());
    assert(w@.subrange(1, n as int) =~= w@.skip(1));
    r
}

/// Turns `snake_case` into `PascalCase`.
pub fn snake_to_pascal(s: &str) -> (r: String)
    ensures
        r@ == pascal(s@),
{
    let words = split_at_char(chars_of(s).as_slice(), '_');
    let ghost all = words.deep_view();
    let mut r: String = String::new();
    let mut i: usize = 0;
    proof {
        assert(all.take(0) =~= seq![]);
        assert(r@ =~= seq![]);
    }
    while i < words.len()
        invariant
            i <= words@.len(),
            all == words.deep_view(),
            r@ == pascal_words(all.take(i as int)),
        decreases words@.len() - i,
    {
        proof {
            assert(all.take(i + 1).drop_last() =~= all.take(i as int));
            assert(all.take(i + 1).last() == words@[i as int]@);
        }
        r.append(capitalise(words[i].as_str()).as_str());
        i += 1;
    }
    assert(all.take(i as int) =~= all);
    r
}

// ---------------------------------------------------------------------
// Categories
// ---------------------------------------------------------------------

/// What an entity has a name for.
#[derive(Debug, Clone, Copy, PartialEq, Eq)]
pub struct Categories {
    pub has_type: bool,
    pub has_id: bool,
    pub has_variant: bool,
    pub has_enum: bool,
    pub has_kind_enum: bool,
    pub has_fields: bool,
}

/// What an entity of a given kind and shape has a name for.
pub open spec fn categories(
    variant: SpecModel,
    shape: Option<ConcreteSupertypeShape>,
) -> Categories {
    let carrier = variant is ConcreteSupertype && shape == Some(ConcreteSupertypeShape::Carrier);
    let parallel = variant is ConcreteSupertype && shape == Some(
        ConcreteSupertypeShape::BaseParallel,
    );
    let absorbed = variant is NestedField || variant is MergedInto;
    Categories {
        has_type: !absorbed && !(variant is EnumBase),
        has_id: !absorbed,
        has_variant: variant is InEnum || carrier || parallel,
        has_enum: variant is EnumBase || variant is ComplexSupertype || variant is CompositeOneOf
            || carrier,
        has_kind_enum: parallel,
        has_fields: !(variant is EnumBase) && !(variant is MergedInto),
    }
}

pub fn categories_for(summary: &EntitySummary) -> (r: Categories)
    ensures
        r == categories(summary.view().variant, summary.view().shape),
{
    match &summary.variant {
        VariantSpec::SingleStruct => Categories {
            has_type: true,
            has_id: true,
            has_variant: false,
            has_enum: false,
            has_kind_enum: false,
            has_fields: true,
        },
        VariantSpec::InEnum { .. } => Categories {
            has_type: true,
            has_id: true,
            has_variant: true,
            has_enum: false,
            has_kind_enum: false,
            has_fields: true,
        },
        VariantSpec::EnumBase { .. } => Categories {
            has_type: false,
            has_id: true,
            has_variant: false,
            has_enum: true,
            has_kind_enum: false,
            has_fields: false,
        },
        VariantSpec::ConcreteSupertype => match summary.shape {
            Some(ConcreteSupertypeShape::Carrier) => Categories {
                has_type: true,
                has_id: true,
                has_variant: true,
                has_enum: true,
                has_kind_enum: false,
                has_fields: true,
            },
            Some(ConcreteSupertypeShape::BaseParallel) => Categories {
                has_type: true,
                has_id: true,
                has_variant: true,
                has_enum: false,
                has_kind_enum: true,
                has_fields: true,
            },
            None => Categories {
                has_type: true,
                has_id: true,
                has_variant: false,
                has_enum: false,
                has_kind_enum: false,
                has_fields: true,
            },
        },
        VariantSpec::ComplexSupertype { .. } => Categories {
            has_type: true,
            has_id: true,
            has_variant: false,
            has_enum: true,
            has_kind_enum: false,
            has_fields: true,
        },
        VariantSpec::CompositeOneOf { .. } => Categories {
            has_type: true,
            has_id: true,
            has_variant: false,
            has_enum: true,
            has_kind_enum: false,
            has_fields: true,
        },
        VariantSpec::NestedField { .. } => Categories {
            has_type: false,
            has_id: false,
            has_variant: false,
            has_enum: false,
            has_kind_enum: false,
            has_fields: true,
        },
        VariantSpec::MergedInto { .. } => Categories {
            has_type: false,
            has_id: false,
            has_variant: false,
            has_enum: false,
            has_kind_enum: false,
            has_fields: false,
        },
    }
}

// ---------------------------------------------------------------------
// Manual names
// ---------------------------------------------------------------------

/// The manual names, each section by entity; the fields by `entity.attr`.
pub struct NamesFile {
    pub type_: Table<String>,
    pub id: Table<String>,
    pub variant: Table<String>,
    pub enum_: Table<String>,
    pub kind_enum: Table<String>,
    pub field: Table<String>,
}

/// Names by key.
pub type Given = Map<Seq<char>, Seq<char>>;

/// What a `NamesFile` stands for.
pub struct NamesModel {
    pub type_: Given,
    pub id: Given,
    pub variant: Given,
    pub enum_: Given,
    pub kind_enum: Given,
    pub field: Given,
}

impl NamesFile {
    pub open spec fn view(&self) -> NamesModel {
        NamesModel {
            type_: self.type_@,
            id: self.id@,
            variant: self.variant@,
            enum_: self.enum_@,
            kind_enum: self.kind_enum@,
            field: self.field@,
        }
    }
}

impl Default for NamesFile {
    fn default() -> (r: Self)
        ensures
            r.view() == (NamesModel {
                type_: Map::empty(),
                id: Map::empty(),
                variant: Map::empty(),
                enum_: Map::empty(),
                kind_enum: Map::empty(),
                field: Map::empty(),
            }),
    {
        NamesFile {
            type_: Table::new(),
            id: Table::new(),
            variant: Table::new(),
            enum_: Table::new(),
            kind_enum: Table::new(),
            field: Table::new(),
        }
    }
}

/// The sections of names that are given by entity.
#[derive(Debug, Clone, Copy, PartialEq, Eq)]
pub enum Section {
    Type,
    Id,
    Variant,
    Enum,
    KindEnum,
}

/// How a section is called.
pub open spec fn section_name(k: Section) -> Seq<char> {
    match k {
        Section::Type => "type"@,
        Section::Id => "id"@,
        Section::Variant => "variant"@,
        Section::Enum => "enum"@,
        Section::KindEnum => "kind_enum"@,
    }
}

/// Whether there is something to name in a section.
pub open spec fn has_section(c: Categories, k: Section) -> bool {
    match k {
        Section::Type => c.has_type,
        Section::Id => c.has_id,
        Section::Variant => c.has_variant,
        Section::Enum => c.has_enum,
        Section::KindEnum => c.has_kind_enum,
    }
}

fn name_section(k: Section) -> (r: &'static str)
    ensures
        r@ == section_name(k),
{
    match k {
        Section::Type => "type",
        Section::Id => "id",
        Section::Variant => "variant",
        Section::Enum => "enum",
        Section::KindEnum => "kind_enum",
    }
}

fn in_section(c: Categories, k: Section) -> (r: bool)
    ensures
        r == has_section(c, k),
{
    match k {
        Section::Type => c.has_type,
        Section::Id => c.has_id,
        Section::Variant => c.has_variant,
        Section::Enum => c.has_enum,
        Section::KindEnum => c.has_kind_enum,
    }
}

/// The warning about a name of a section.
pub open spec fn stale_name(m: Summaries, k: Section) -> spec_fn(Seq<char>) -> Option<Seq<char>> {
    |entity: Seq<char>|
        {
            let place = "names.toml ["@ + section_name(k) + "."@ + entity + "] — entity "@;
            if !m.contains_key(entity) {
                Some(place + "not in abstract_entities.toml"@)
            } else if !has_section(categories(m[entity].variant, m[entity].shape), k) {
                Some(
                    place + "is "@ + kind_name(m[entity].variant) + " (no "@ + section_name(k)
                        + ")"@,
                )
            } else {
                None
            }
        }
}

fn warn_section(names: &Table<String>, k: Section, entities: &Table<EntitySummary>) -> (r: Vec<
    String,
>)
    ensures
        r.deep_view() == gathered(ordered(names@.dom()), stale_name(entities@, k)),
{
    let n = names.len();
    let ghost o = ordered(names@.dom());
    let ghost f = stale_name(entities@, k);
    let mut out: Vec<String> = no_names();
    let mut i: usize = 0;
    proof {
        lemma_gathered_ends(o, f);
    }
    while i < n
        invariant
            i <= n,
            n == o.len(),
            o == ordered(names@.dom()),
            f == stale_name(entities@, k),
            out.deep_view() == gathered(o.take(i as int), f),
        decreases n - i,
    {
        proof {
            lemma_gathered_next(o, f, i as int);
        }
        let entity = names.key_at(i).as_str();
        let mut w: String = join3("names.toml [", name_section(k), ".");
        w.append(entity);
        w.append("] — entity ");
        match entities.get(entity) {
            None => {
                w.append("not in abstract_entities.toml");
                push_item(&mut out, w);
            },
            Some(s) => {
                if !in_section(categories_for(s), k) {
                    w.append("is ");
                    w.append(kind_str(&s.variant));
                    w.append(" (no ");
                    w.append(name_section(k));
                    w.append(")");
                    push_item(&mut out, w);
                }
            },
        }
        i += 1;
    }
    proof {
        lemma_gathered_ends(o, f);
    }
    out
}

/// The warning about a field name.
pub open spec fn stale_field(m: Summaries) -> spec_fn(Seq<char>) -> Option<Seq<char>> {
    |k: Seq<char>|
        {
            let place = "names.toml [field.\""@ + k + "\"] — "@;
            match index_of(k, '.') {
                None => Some(place + "key must be \"<entity>.<attr>\""@),
                Some(i) => {
                    let entity = k.take(i);
                    if !m.contains_key(entity) {
                        Some(place + "entity "@ + entity + " not in abstract_entities.toml"@)
                    } else if !categories(m[entity].variant, m[entity].shape).has_fields {
                        Some(
                            place + "entity "@ + entity + " is "@ + kind_name(m[entity].variant)
                                + " (no fields)"@,
                        )
                    } else {
                        None
                    }
                },
            }
        }
}

fn warn_field(k: &str, entities: &Table<EntitySummary>) -> (r: Option<String>)
    ensures
        r.deep_view() == stale_field(entities@)(k@),
{
    let mut w: String = join3("names.toml [field.\"", k, "\"] — ");
    let cs = chars_of(k);
    let entity = match find_char(cs.as_slice(), '.') {
        None => {
            w.append("key must be \"<entity>.<attr>\"");
            return Some(w);
        },
        Some(i) => {
            assert(k@.subrange(0, i as int) =~= k@.take(i as int));
            string_of(slice_subrange(cs.as_slice(), 0, i))
        },
    };
    w.append("entity ");
    w.append(entity.as_str());
    match entities.get(entity.as_str()) {
        None => {
            w.append(" not in abstract_entities.toml");
            Some(w)
        },
        Some(s) => {
            if categories_for(s).has_fields {
                None
            } else {
                w.append(" is ");
                w.append(kind_str(&s.variant));
                w.append(" (no fields)");
                Some(w)
            }
        },
    }
}

fn warn_fields(names: &Table<String>, entities: &Table<EntitySummary>) -> (r: Vec<String>)
    ensures
        r.deep_view() == gathered(ordered(names@.dom()), stale_field(entities@)),
{
    let n = names.len();
    let ghost o = ordered(names@.dom());
    let ghost f = stale_field(entities@);
    let mut out: Vec<String> = no_names();
    let mut i: usize = 0;
    proof {
        lemma_gathered_ends(o, f);
    }
    while i < n
        invariant
            i <= n,
            n == o.len(),
            o == ordered(names@.dom()),
            f == stale_field(entities@),
            out.deep_view() == gathered(o.take(i as int), f),
        decreases n - i,
    {
        proof {
            lemma_gathered_next(o, f, i as int);
        }
        if let Some(w) = warn_field(names.key_at(i).as_str(), entities) {
            push_item(&mut out, w);
        }
        i += 1;
    }
    proof {
        lemma_gathered_ends(o, f);
    }
    out
}

/// The warnings about manual names that name nothing.
pub open spec fn stale_warnings(names: NamesModel, m: Summaries) -> Seq<Seq<char>> {
    gathered(ordered(names.type_.dom()), stale_name(m, Section::Type)) + gathered(
        ordered(names.id.dom()),
        stale_name(m, Section::Id),
    ) + gathered(ordered(names.variant.dom()), stale_name(m, Section::Variant)) + gathered(
        ordered(names.enum_.dom()),
        stale_name(m, Section::Enum),
    ) + gathered(ordered(names.kind_enum.dom()), stale_name(m, Section::KindEnum)) + gathered(
        ordered(names.field.dom()),
        stale_field(m),
    )
}

/// Warns about manual names that name nothing.
pub fn validate_stale(names: &NamesFile, entities: &Table<EntitySummary>) -> (r: Vec<String>)
    ensures
        r.deep_view() == stale_warnings(names.view(), entities@),
{
    let mut out = warn_section(&names.type_, Section::Type, entities);
    append_items(&mut out, warn_section(&names.id, Section::Id, entities));
    append_items(&mut out, warn_section(&names.variant, Section::Variant, entities));
    append_items(&mut out, warn_section(&names.enum_, Section::Enum, entities));
    append_items(&mut out, warn_section(&names.kind_enum, Section::KindEnum, entities));
    append_items(&mut out, warn_fields(&names.field, entities));
    out
}

/// The given name of `key`, or else the default.
pub open spec fn given_or(given: Given, key: Seq<char>, default: Seq<char>) -> Seq<char> {
    if given.contains_key(key) {
        given[key]
    } else {
        default
    }
}

fn name_or(given: &Table<String>, key: &str, default: &str) -> (r: String)
    ensures
        r@ == given_or(given@, key@, default@),
{
    match given.get(key) {
        Some(s) => s.clone(),
        None => default.to_owned(),
    }
}

// ---------------------------------------------------------------------
// Arena ids
// ---------------------------------------------------------------------

/// The name of an arena's id.
pub open spec fn arena_id(arena: Seq<char>, ids: Given) -> Seq<char> {
    given_or(ids, arena, pascal(arena) + "Id"@)
}

/// The arenas of the entities `keys`.
pub open spec fn arenas_among(m: Summaries, keys: Seq<Seq<char>>) -> Set<Seq<char>>
    decreases keys.len(),
{
    if keys.len() == 0 {
        Set::empty()
    } else {
        arenas_among(m, keys.drop_last()).insert(m[keys.last()].arena)
    }
}

/// The arenas in use, each with the name of its id.
pub open spec fn arena_ids(m: Summaries, ids: Given) -> Given {
    Map::new(
        |a: Seq<char>| arenas_among(m, ordered(m.dom())).contains(a),
        |a: Seq<char>| arena_id(a, ids),
    )
}

proof fn lemma_arena_among(m: Summaries, keys: Seq<Seq<char>>, k: Seq<char>)
    requires
        keys.contains(k),
    ensures
        arenas_among(m, keys).contains(m[k].arena),
    decreases keys.len(),
{
    let i = choose|i: int| 0 <= i < keys.len() && keys[i] == k;
    if i < keys.len() - 1 {
        assert(keys.drop_last()[i] == k);
        lemma_arena_among(m, keys.drop_last(), k);
    }
}

/// Names the ids of the arenas in use: after the arena, unless a name is given
/// for the entity of the arena's name.
pub fn build_arena_id_lookup(entities: &Table<EntitySummary>, names: &NamesFile) -> (r: Table<
    String,
>)
    ensures
        r@ == arena_ids(entities@, names.view().id),
{
    let n = entities.len();
    let ghost m = entities@;
    let ghost ids = names.view().id;
    let ghost o = ordered(m.dom());
    let mut out: Table<String> = Table::new();
    let mut i: usize = 0;
    assert(o.take(0) =~= seq![]);
    while i < n
        invariant
            i <= n,
            n == o.len(),
            m == entities@,
            ids == names.view().id,
            o == ordered(m.dom()),
            forall|a: Seq<char>| #[trigger]
                out@.contains_key(a) <==> arenas_among(m, o.take(i as int)).contains(a),
            forall|a: Seq<char>| #[trigger]
                out@.contains_key(a) ==> out@[a] == arena_id(a, ids),
        decreases n - i,
    {
        assert(o.take(i + 1).drop_last() =~= o.take(i as int));
        let arena = entities.value_at(i).arena.as_str();
        let default = join(snake_to_pascal(arena).as_str(), "Id");
        out.insert(arena.to_owned(), name_or(&names.id, arena, default.as_str()));
        i += 1;
    }
    proof {
        assert(o.take(i as int) =~= o);
        assert(out@ =~= arena_ids(m, ids));
    }
    out
}

// ---------------------------------------------------------------------
// The blueprint
// ---------------------------------------------------------------------

/// One field of a blueprint.
#[derive(Debug, PartialEq, Eq)]
pub struct IrField {
    pub name: String,
    pub ty: String,
    /// The entity that first declares the attribute.
    pub from: String,
}

impl DeepView for IrField {
    type V = FieldModel;

    open spec fn deep_view(&self) -> FieldModel {
        FieldModel { name: self.name@, ty: self.ty@, from: self.from@ }
    }
}

/// The blueprint of an entity.
#[derive(Debug, PartialEq, Eq)]
pub struct IrEntity {
    pub kind: String,
    pub arena: String,
    pub pool: String,
    pub shape: Option<String>,
    pub type_: Option<String>,
    pub id: Option<String>,
    pub variant: Option<String>,
    pub enum_: Option<String>,
    pub kind_enum: Option<String>,
    pub enum_of: Option<String>,
    pub into: Option<String>,
    pub as_field: Option<String>,
    pub target: Option<String>,
    pub chain: Vec<String>,
    /// The attributes in encoding order.
    pub fields: Vec<IrField>,
    pub instance_count: usize,
    /// How many of the instances are parts of complex instances.
    pub complex_part_count: usize,
    /// The entities seen in the same complex instances.
    pub co_instantiated_with: Vec<String>,
    pub split_from: Option<String>,
    pub split_context: Option<String>,
    pub merge_absorbs: Vec<String>,
    pub fields_union: bool,
    /// Why the entity was reshaped.
    pub reasons: Option<String>,
}

/// What an `IrEntity` stands for.
pub struct IrModel {
    pub kind: Seq<char>,
    pub arena: Seq<char>,
    pub pool: Seq<char>,
    pub shape: Option<Seq<char>>,
    pub type_: Option<Seq<char>>,
    pub id: Option<Seq<char>>,
    pub variant: Option<Seq<char>>,
    pub enum_: Option<Seq<char>>,
    pub kind_enum: Option<Seq<char>>,
    pub enum_of: Option<Seq<char>>,
    pub into: Option<Seq<char>>,
    pub as_field: Option<Seq<char>>,
    pub target: Option<Seq<char>>,
    pub chain: Seq<Seq<char>>,
    pub fields: Seq<FieldModel>,
    pub instance_count: usize,
    pub complex_part_count: usize,
    pub co_instantiated_with: Seq<Seq<char>>,
    pub split_from: Option<Seq<char>>,
    pub split_context: Option<Seq<char>>,
    pub merge_absorbs: Seq<Seq<char>>,
    pub fields_union: bool,
    pub reasons: Option<Seq<char>>,
}

impl IrEntity {
    pub open spec fn view(&self) -> IrModel {
        IrModel {
            kind: self.kind@,
            arena: self.arena@,
            pool: self.pool@,
            shape: self.shape.deep_view(),
            type_: self.type_.deep_view(),
            id: self.id.deep_view(),
            variant: self.variant.deep_view(),
            enum_: self.enum_.deep_view(),
            kind_enum: self.kind_enum.deep_view(),
            enum_of: self.enum_of.deep_view(),
            into: self.into.deep_view(),
            as_field: self.as_field.deep_view(),
            target: self.target.deep_view(),
            chain: self.chain.deep_view(),
            fields: self.fields.deep_view(),
            instance_count: self.instance_count,
            complex_part_count: self.complex_part_count,
            co_instantiated_with: self.co_instantiated_with.deep_view(),
            split_from: self.split_from.deep_view(),
            split_context: self.split_context.deep_view(),
            merge_absorbs: self.merge_absorbs.deep_view(),
            fields_union: self.fields_union,
            reasons: self.reasons.deep_view(),
        }
    }
}

impl DeepView for IrEntity {
    type V = IrModel;

    open spec fn deep_view(&self) -> IrModel {
        self.view()
    }
}

/// `x` where `there` holds.
pub open spec fn only_if(there: bool, x: Seq<char>) -> Option<Seq<char>> {
    if there {
        Some(x)
    } else {
        None
    }
}

/// The default name of an entity's type.
pub open spec fn default_type(entity: Seq<char>, s: SummaryModel) -> Seq<char> {
    if s.variant is ConcreteSupertype && s.shape == Some(ConcreteSupertypeShape::Carrier) {
        pascal(entity) + "Data"@
    } else {
        pascal(entity)
    }
}

/// The default name of an entity's variant.
pub open spec fn default_variant(entity: Seq<char>, s: SummaryModel) -> Seq<char> {
    if !(s.variant is ConcreteSupertype) {
        pascal(entity)
    } else {
        match s.shape {
            Some(ConcreteSupertypeShape::Carrier) => "Itself"@,
            Some(ConcreteSupertypeShape::BaseParallel) => "Plain"@,
            None => pascal(entity),
        }
    }
}

/// The fields with the names given to them.
pub open spec fn renamed(
    entity: Seq<char>,
    fields: Seq<FieldModel>,
    given: Given,
) -> Seq<FieldModel> {
    Seq::new(
        fields.len(),
        |i: int|
            FieldModel {
                name: given_or(given, entity + "."@ + fields[i].name, fields[i].name),
                ..fields[i]
            },
    )
}

/// The blueprint of an entity in the pool `pool`.
pub open spec fn blueprint(
    entity: Seq<char>,
    s: SummaryModel,
    pool: Seq<char>,
    names: NamesModel,
    slots: Map<Seq<char>, Seq<FieldModel>>,
) -> IrModel {
    let c = categories(s.variant, s.shape);
    IrModel {
        kind: kind_name(s.variant),
        arena: s.arena,
        pool,
        shape: match s.shape {
            Some(ConcreteSupertypeShape::Carrier) => Some("carrier"@),
            Some(ConcreteSupertypeShape::BaseParallel) => Some("base_parallel"@),
            None => None,
        },
        type_: only_if(c.has_type, given_or(names.type_, entity, default_type(entity, s))),
        id: only_if(c.has_id, arena_id(s.arena, names.id)),
        variant: only_if(
            c.has_variant,
            given_or(names.variant, entity, default_variant(entity, s)),
        ),
        enum_: only_if(c.has_enum, given_or(names.enum_, entity, pascal(entity))),
        kind_enum: only_if(
            c.has_kind_enum,
            given_or(names.kind_enum, entity, pascal(entity) + "Kind"@),
        ),
        enum_of: match s.variant {
            SpecModel::InEnum { enum_name } => Some(enum_name),
            _ => None,
        },
        into: match s.variant {
            SpecModel::NestedField { into, as_field, added_attr_count } => Some(into),
            _ => None,
        },
        as_field: match s.variant {
            SpecModel::NestedField { into, as_field, added_attr_count } => Some(as_field),
            _ => None,
        },
        target: match s.variant {
            SpecModel::MergedInto { target, chain } => Some(target),
            _ => None,
        },
        chain: match s.variant {
            SpecModel::MergedInto { target, chain } => chain,
            _ => seq![],
        },
        fields: if c.has_fields && slots.contains_key(entity) {
            renamed(entity, slots[entity], names.field)
        } else {
            seq![]
        },
        instance_count: s.instance_count,
        complex_part_count: s.complex_part_count,
        co_instantiated_with: s.co_instantiated_with,
        split_from: s.split_from,
        split_context: s.split_context,
        merge_absorbs: s.merge_absorbs,
        fields_union: s.fields_union,
        reasons: s.reasons,
    }
}

/// What is wrong with an entity: its arena is in no pool.
pub open spec fn pool_fault(m: Summaries, pools: Given) -> spec_fn(Seq<char>) -> Option<Seq<char>> {
    |entity: Seq<char>|
        if pools.contains_key(m[entity].arena) {
            None
        } else {
            Some("arena "@ + m[entity].arena + " missing in pools.toml"@)
        }
}

/// The blueprints of all entities.
pub open spec fn blueprints(
    m: Summaries,
    pools: Given,
    names: NamesModel,
    schemas: Seq<SchemaModel>,
) -> Result<Map<Seq<char>, IrModel>, Seq<char>> {
    match first_some(ordered(m.dom()), pool_fault(m, pools)) {
        Some(e) => Err(e),
        None => Ok(
            tabulate(
                ordered(m.dom()),
                |k: Seq<char>|
                    Some(blueprint(k, m[k], pools[m[k].arena], names, attr_types(schemas))),
            ),
        ),
    }
}

fn keep_if(there: bool, x: String) -> (r: Option<String>)
    ensures
        r.deep_view() == only_if(there, x@),
{
    if there {
        Some(x)
    } else {
        None
    }
}

fn rename(entity: &str, slots: &Vec<FieldRec>, given: &Table<String>) -> (r: Vec<IrField>)
    ensures
        r.deep_view() == renamed(entity@, slots.deep_view(), given@),
{
    let ghost all = slots.deep_view();
    let mut out: Vec<IrField> = Vec::new();
    let mut i: usize = 0;
    assert(out.deep_view() =~= renamed(entity@, all, given@).take(0));
    while i < slots.len()
        invariant
            i <= slots@.len(),
            all == slots.deep_view(),
            out.deep_view() == renamed(entity@, all, given@).take(i as int),
        decreases slots@.len() - i,
    {
        let f = &slots[i];
        assert(all[i as int] == f.deep_view());
        let key = join3(entity, ".", f.name.as_str());
        push_item(
            &mut out,
            IrField {
                name: name_or(given, key.as_str(), f.name.as_str()),
                ty: f.ty.clone(),
                from: f.from.clone(),
            },
        );
        assert(out.deep_view() =~= renamed(entity@, all, given@).take(i + 1));
        i += 1;
    }
    assert(renamed(entity@, all, given@).take(i as int) =~= renamed(entity@, all, given@));
    out
}

fn describe_entity(
    entity: &str,
    s: &EntitySummary,
    pool: &str,
    names: &NamesFile,
    id: String,
    slots: Option<&Vec<FieldRec>>,
    Ghost(all): Ghost<Map<Seq<char>, Seq<FieldModel>>>,
) -> (r: IrEntity)
    requires
        id@ == arena_id(s.view().arena, names.view().id),
        match slots {
            Some(v) => all.contains_key(entity@) && all[entity@] == v.deep_view(),
            None => !all.contains_key(entity@),
        },
    ensures
        r.view() == blueprint(entity@, s.view(), pool@, names.view(), all),
{
    let c = categories_for(s);
    let auto = snake_to_pascal(entity);
    let concrete = match &s.variant {
        VariantSpec::ConcreteSupertype => true,
        _ => false,
    };
    let (auto_type, auto_variant) = match s.shape {
        Some(ConcreteSupertypeShape::Carrier) => if concrete {
            (join(auto.as_str(), "Data"), "Itself".to_owned())
        } else {
            (auto.clone(), auto.clone())
        },
        Some(ConcreteSupertypeShape::BaseParallel) => if concrete {
            (auto.clone(), "Plain".to_owned())
        } else {
            (auto.clone(), auto.clone())
        },
        None => (auto.clone(), auto.clone()),
    };
    let enum_of = match &s.variant {
        VariantSpec::InEnum { enum_name } => Some(enum_name.clone()),
        _ => None,
    };
    let (into, as_field, target, chain) = match &s.variant {
        VariantSpec::NestedField { into, as_field, .. } => (
            Some(into.clone()),
            Some(as_field.clone()),
            None,
            no_names(),
        ),
        VariantSpec::MergedInto { target, chain } => (
            None,
            None,
            Some(target.clone()),
            chain.duplicate(),
        ),
        _ => (None, None, None, no_names()),
    };
    let fields = match slots {
        Some(v) => if c.has_fields {
            rename(entity, v, &names.field)
        } else {
            no_fields()
        },
        None => no_fields(),
    };
    let shape = match s.shape {
        Some(ConcreteSupertypeShape::Carrier) => Some("carrier".to_owned()),
        Some(ConcreteSupertypeShape::BaseParallel) => Some("base_parallel".to_owned()),
        None => None,
    };
    let kind_enum = join(auto.as_str(), "Kind");
    IrEntity {
        kind: kind_str(&s.variant).to_owned(),
        arena: s.arena.clone(),
        pool: pool.to_owned(),
        shape,
        type_: keep_if(c.has_type, name_or(&names.type_, entity, auto_type.as_str())),
        id: keep_if(c.has_id, id),
        variant: keep_if(
            c.has_variant,
            name_or(&names.variant, entity, auto_variant.as_str()),
        ),
        enum_: keep_if(c.has_enum, name_or(&names.enum_, entity, auto.as_str())),
        kind_enum: keep_if(
            c.has_kind_enum,
            name_or(&names.kind_enum, entity, kind_enum.as_str()),
        ),
        enum_of,
        into,
        as_field,
        target,
        chain,
        fields,
        instance_count: s.instance_count,
        complex_part_count: s.complex_part_count,
        co_instantiated_with: s.co_instantiated_with.duplicate(),
        split_from: s.split_from.duplicate(),
        split_context: s.split_context.duplicate(),
        merge_absorbs: s.merge_absorbs.duplicate(),
        fields_union: s.fields_union,
        reasons: s.reasons.duplicate(),
    }
}

fn no_fields() -> (r: Vec<IrField>)
    ensures
        r.deep_view() == Seq::<FieldModel>::empty(),
{
    let r: Vec<IrField> = Vec::new();
    assert(r.deep_view() =~= seq![]);
    r
}

/// Compiles the blueprint of every entity. Refuses entities whose arena is in
/// no pool.
pub fn compile_ir(
    entities: &Table<EntitySummary>,
    pools: &Table<PoolEntry>,
    names: &NamesFile,
    schemas: &[Schema],
) -> (r: Result<Table<IrEntity>, String>)
    requires
        all_unfold(
            first_declared(schema_models(schemas@)),
            first_aliased(schema_models(schemas@)),
        ),
    ensures
        outcome(r) == blueprints(entities@, pools@, names.view(), schema_models(schemas@)),
{
    let slots = build_attr_types(schemas);
    let ids = build_arena_id_lookup(entities, names);
    let n = entities.len();
    let ghost m = entities@;
    let ghost o = ordered(m.dom());
    let ghost f = pool_fault(m, pools@);
    let ghost g = |k: Seq<char>|
        Some(
            blueprint(
                k,
                m[k],
                pools@[m[k].arena],
                names.view(),
                attr_types(schema_models(schemas@)),
            ),
        );
    let mut out: Table<IrEntity> = Table::new();
    let mut i: usize = 0;
    proof {
        lemma_tabulate_ends(o, g);
        lemma_ordered(m.dom());
        assert(o.take(0) =~= seq![]);
    }
    while i < n
        invariant
            i <= n,
            n == o.len(),
            m == entities@,
            o == ordered(m.dom()),
            f == pool_fault(m, pools@),
            g == (|k: Seq<char>|
                Some(
                    blueprint(
                        k,
                        m[k],
                        pools@[m[k].arena],
                        names.view(),
                        attr_types(schema_models(schemas@)),
                    ),
                )),
            slots@ == attr_types(schema_models(schemas@)),
            ids@ == arena_ids(m, names.view().id),
            first_some(o.take(i as int), f) is None,
            out@ == tabulate(o.take(i as int), g),
        decreases n - i,
    {
        proof {
            lemma_tabulate_next(o, i as int, g);
            lemma_first_some_next(o, f, i as int);
            assert(o.contains(o[i as int]));
            lemma_arena_among(m, o, o[i as int]);
        }
        let entity = entities.key_at(i);
        let s = entities.value_at(i);
        let pool = match pools.get(s.arena.as_str()) {
            Some(p) => p.pool.as_str(),
            None => {
                return Err(join3("arena ", s.arena.as_str(), " missing in pools.toml"));
            },
        };
        let id = match ids.get(s.arena.as_str()) {
            Some(x) => x.clone(),
            None => String::new(),
        };
        let row = describe_entity(
            entity.as_str(),
            s,
            pool,
            names,
            id,
            slots.get(entity.as_str()),
            Ghost(slots@),
        );
        out.insert(entity.clone(), row);
        i += 1;
    }
    proof {
        lemma_tabulate_ends(o, g);
    }
    Ok(out)
}

// ---------------------------------------------------------------------
// The stage
// ---------------------------------------------------------------------

/// The whole stage, with its warnings.
pub open spec fn named(
    m: Summaries,
    pools: Given,
    names: NamesModel,
    schemas: Seq<SchemaModel>,
) -> (Seq<Seq<char>>, Result<Map<Seq<char>, IrModel>, Seq<char>>) {
    if m == Map::<Seq<char>, SummaryModel>::empty() {
        (seq![], Err("abstract_entities.toml is empty or missing — run `infer reshape` first."@))
    } else if schemas.len() == 0 {
        (seq![], Err("no schemas loaded — check schemas/*.exp."@))
    } else {
        (stale_warnings(names, m), blueprints(m, pools, names, schemas))
    }
}

/// Runs the stage: refuses empty inputs, warns about names that name nothing, and
/// compiles the blueprints. The first part of the result holds the warnings.
pub fn naming_stage(
    entities: &Table<EntitySummary>,
    pools: &Table<PoolEntry>,
    names: &NamesFile,
    schemas: &[Schema],
) -> (r: (Vec<String>, Result<Table<IrEntity>, String>))
    requires
        all_unfold(
            first_declared(schema_models(schemas@)),
            first_aliased(schema_models(schemas@)),
        ),
    ensures
        (r.0.deep_view(), outcome(r.1)) == named(
            entities@,
            pools@,
            names.view(),
            schema_models(schemas@),
        ),
        r.1 matches Ok(out) ==> forall|e: Seq<char>| #[trigger]
            entities@.contains_key(e) ==> {
                let s = entities@[e];
                &&& out@.contains_key(e)
                &&& pools@.contains_key(s.arena)
                &&& out@[e].arena == s.arena
                &&& out@[e].pool == pools@[s.arena]
                &&& out@[e].instance_count == s.instance_count
                &&& out@[e].complex_part_count == s.complex_part_count
                &&& out@[e].co_instantiated_with == s.co_instantiated_with
                &&& out@[e].split_from == s.split_from
                &&& out@[e].merge_absorbs == s.merge_absorbs
                &&& out@[e].type_ is Some && names.type_@.contains_key(e) ==> out@[e].type_ == Some(
                    names.type_@[e],
                )
                &&& out@[e].variant is Some && names.variant@.contains_key(e)
                    ==> out@[e].variant == Some(names.variant@[e])
                &&& out@[e].enum_ is Some && names.enum_@.contains_key(e) ==> out@[e].enum_ == Some(
                    names.enum_@[e],
                )
                &&& out@[e].id is Some && names.id@.contains_key(s.arena) ==> out@[e].id == Some(
                    names.id@[s.arena],
                )
            },
{
    if entities.is_empty() {
        return (
            no_names(),
            Err(
                "abstract_entities.toml is empty or missing — run `infer reshape` first.".to_owned(),
            ),
        );
    }
    if schemas.len() == 0 {
        return (no_names(), Err("no schemas loaded — check schemas/*.exp.".to_owned()));
    }
    proof {
        let m = entities@;
        lemma_ordered(m.dom());
        assert forall|e: Seq<char>| #[trigger] m.contains_key(e) && blueprints(
            m,
            pools@,
            names.view(),
            schema_models(schemas@),
        ) is Ok implies pools@.contains_key(m[e].arena) by {
            lemma_no_fault(ordered(m.dom()), pool_fault(m, pools@), e);
        }
        assert forall|e: Seq<char>| #[trigger] m.contains_key(e) implies ordered(
            m.dom(),
        ).contains(e) by {}
    }
    (validate_stale(names, entities), compile_ir(entities, pools, names, schemas))
}

/// Where no key has a fault, this one has none.
proof fn lemma_no_fault(
    keys: Seq<Seq<char>>,
    f: spec_fn(Seq<char>) -> Option<Seq<char>>,
    e: Seq<char>,
)
    requires
        first_some(keys, f) is None,
        keys.contains(e),
    ensures
        f(e) is None,
    decreases keys.len(),
{
    let d = keys.drop_last();
    let i = choose|i: int| 0 <= i < keys.len() && keys[i] == e;
    if i < d.len() {
        assert(d[i] == e);
        lemma_no_fault(d, f, e);
    }
}

// ---------------------------------------------------------------------
// Laws
// ---------------------------------------------------------------------

/// Every entity has a blueprint, and nothing else has one.
pub proof fn law_blueprint_for_each_entity(
    m: Summaries,
    pools: Given,
    names: NamesModel,
    schemas: Seq<SchemaModel>,
)
    requires
        m.dom().finite(),
        blueprints(m, pools, names, schemas) is Ok,
    ensures
        blueprints(m, pools, names, schemas)->Ok_0.dom() == m.dom(),
{
    lemma_ordered(m.dom());
    assert(blueprints(m, pools, names, schemas)->Ok_0.dom() =~= m.dom());
}

/// Given names replace the defaults wherever there is something to name; and where
/// there is nothing, they name nothing.
pub proof fn law_given_names_win(
    entity: Seq<char>,
    s: SummaryModel,
    pool: Seq<char>,
    names: NamesModel,
    slots: Map<Seq<char>, Seq<FieldModel>>,
)
    ensures
        ({
            let c = categories(s.variant, s.shape);
            let b = blueprint(entity, s, pool, names, slots);
            &&& b.type_ is Some <==> c.has_type
            &&& b.id is Some <==> c.has_id
            &&& b.variant is Some <==> c.has_variant
            &&& b.enum_ is Some <==> c.has_enum
            &&& b.kind_enum is Some <==> c.has_kind_enum
            &&& c.has_type && names.type_.contains_key(entity) ==> b.type_ == Some(
                names.type_[entity],
            )
            &&& c.has_id && names.id.contains_key(s.arena) ==> b.id == Some(names.id[s.arena])
            &&& c.has_variant && names.variant.contains_key(entity) ==> b.variant == Some(
                names.variant[entity],
            )
            &&& c.has_enum && names.enum_.contains_key(entity) ==> b.enum_ == Some(
                names.enum_[entity],
            )
            &&& c.has_kind_enum && names.kind_enum.contains_key(entity) ==> b.kind_enum == Some(
                names.kind_enum[entity],
            )
        }),
{
}

/// A given field name renames the attribute in its slot, and changes neither its
/// type nor its origin.
pub proof fn law_given_field_name_wins(
    entity: Seq<char>,
    s: SummaryModel,
    pool: Seq<char>,
    names: NamesModel,
    slots: Map<Seq<char>, Seq<FieldModel>>,
    i: int,
)
    requires
        categories(s.variant, s.shape).has_fields,
        slots.contains_key(entity),
        0 <= i < slots[entity].len(),
    ensures
        ({
            let fields = blueprint(entity, s, pool, names, slots).fields;
            let slot = slots[entity][i];
            let key = entity + "."@ + slot.name;
            &&& fields.len() == slots[entity].len()
            &&& fields[i].ty == slot.ty
            &&& fields[i].from == slot.from
            &&& names.field.contains_key(key) ==> fields[i].name == names.field[key]
            &&& !names.field.contains_key(key) ==> fields[i].name == slot.name
        }),
{
}

/// Entities of the same arena have the same id.
pub proof fn law_one_id_per_arena(
    a: Seq<char>,
    b: Seq<char>,
    sa: SummaryModel,
    sb: SummaryModel,
    pool: Seq<char>,
    names: NamesModel,
    slots: Map<Seq<char>, Seq<FieldModel>>,
)
    requires
        sa.arena == sb.arena,
        blueprint(a, sa, pool, names, slots).id is Some,
        blueprint(b, sb, pool, names, slots).id is Some,
    ensures
        blueprint(a, sa, pool, names, slots).id == blueprint(b, sb, pool, names, slots).id,
{
}

} // verus!
