//! Output profiles: which entities a target allows, with their attributes, and
//! which other entities can stand under the name of a supertype that it allows.

use crate::express::{EntityModel, EntitySchema, Schema, SchemaModel, TypeDefModel};
use crate::infer::export_common::{
    alias_texts, export_attrs, export_signals, exported, exported_signals, ty_repr, ExportAttr,
    ExportModel,
};
use crate::infer::export_laws::{
    first_labelled, law_profile_comes_from_its_schema, law_profile_entity,
};
use crate::infer::fields::{fields_from, fields_of, with_own, Aliases};
use crate::infer::lineage::{
    law_lineage_of_one_parent, lineage, parent_graph, ranks_parents_lower,
};
use crate::infer::refgraph::{
    first_declarations, first_declared, list_schemas, listed_models, schema_models,
};
use crate::names::{
    lemma_ordered, lemma_tabulate_ends, lemma_tabulate_next, ordered, tabulate, Duplicate, Table,
};
use crate::text::{chars_of, has_prefix, join3, outcome, starts_with};
use vstd::prelude::*;
use vstd::string::*;

verus! {

broadcast use vstd::string::group_string_axioms;

// ---------------------------------------------------------------------
// Targets
// ---------------------------------------------------------------------

/// An output target.
#[derive(Debug, PartialEq, Eq)]
pub struct Target {
    /// The name of the profile.
    pub out_name: String,
    /// How the label of its schema begins.
    pub label_match: String,
    /// The descriptors in the file header.
    pub file_schema: Vec<String>,
    pub apd_status: String,
    pub apd_name: String,
    pub apd_year: i64,
    pub apd_desc: String,
}

/// What a `Target` stands for.
pub struct TargetModel {
    pub out_name: Seq<char>,
    pub label_match: Seq<char>,
    pub file_schema: Seq<Seq<char>>,
    pub apd_status: Seq<char>,
    pub apd_name: Seq<char>,
    pub apd_year: i64,
    pub apd_desc: Seq<char>,
}

impl DeepView for Target {
    type V = TargetModel;

    open spec fn deep_view(&self) -> TargetModel {
        TargetModel {
            out_name: self.out_name@,
            label_match: self.label_match@,
            file_schema: self.file_schema.deep_view(),
            apd_status: self.apd_status@,
            apd_name: self.apd_name@,
            apd_year: self.apd_year,
            apd_desc: self.apd_desc@,
        }
    }
}

/// The targets: the latest edition of each protocol that is a standard.
pub open spec fn all_targets() -> Seq<TargetModel> {
    seq![
        TargetModel {
            out_name: "ap214e3"@,
            label_match: "ap214e3"@,
            file_schema: seq!["AUTOMOTIVE_DESIGN { 1 0 10303 214 3 1 1 }"@],
            apd_status: "international standard"@,
            apd_name: "automotive_design"@,
            apd_year: 2009,
            apd_desc: "Core Data for Automotive Mechanical Design Process"@,
        },
        TargetModel {
            out_name: "ap242e2"@,
            label_match: "ap242ed2"@,
            file_schema: seq![
                "AP242_MANAGED_MODEL_BASED_3D_ENGINEERING_MIM_LF { 1 0 10303 442 3 1 4 }"@,
            ],
            apd_status: "international standard"@,
            apd_name: "ap242_managed_model_based_3d_engineering_mim_lf"@,
            apd_year: 2011,
            apd_desc: "managed model based 3d engineering"@,
        },
        TargetModel {
            out_name: "ap203e2"@,
            label_match: "ap203e2"@,
            file_schema: seq![
                "AP203_CONFIGURATION_CONTROLLED_3D_DESIGN_OF_MECHANICAL_PARTS_AND_ASSEMBLIES_MIM_LF { 1 0 10303 403 2 1 2 }"@,
            ],
            apd_status: "international standard"@,
            apd_name: "config_control_design"@,
            apd_year: 2010,
            apd_desc: "configuration controlled 3D designs of mechanical parts and assemblies"@,
        },
    ]
}

fn target(
    out_name: &str,
    label_match: &str,
    file_schema: &str,
    apd_name: &str,
    apd_year: i64,
    apd_desc: &str,
) -> (r: Target)
    ensures
        r.deep_view() == (TargetModel {
            out_name: out_name@,
            label_match: label_match@,
            file_schema: seq![file_schema@],
            apd_status: "international standard"@,
            apd_name: apd_name@,
            apd_year,
            apd_desc: apd_desc@,
        }),
{
    let mut schemas: Vec<String> = Vec::new();
    schemas.push(file_schema.to_owned());
    assert(schemas.deep_view() =~= seq![file_schema@]);
    Target {
        out_name: out_name.to_owned(),
        label_match: label_match.to_owned(),
        file_schema: schemas,
        apd_status: "international standard".to_owned(),
        apd_name: apd_name.to_owned(),
        apd_year,
        apd_desc: apd_desc.to_owned(),
    }
}

/// The targets.
pub fn targets() -> (r: Vec<Target>)
    ensures
        r.deep_view() == all_targets(),
{
    let mut out: Vec<Target> = Vec::new();
    out.push(
        target(
            "ap214e3",
            "ap214e3",
            "AUTOMOTIVE_DESIGN { 1 0 10303 214 3 1 1 }",
            "automotive_design",
            2009,
            "Core Data for Automotive Mechanical Design Process",
        ),
    );
    out.push(
        target(
            "ap242e2",
            "ap242ed2",
            "AP242_MANAGED_MODEL_BASED_3D_ENGINEERING_MIM_LF { 1 0 10303 442 3 1 4 }",
            "ap242_managed_model_based_3d_engineering_mim_lf",
            2011,
            "managed model based 3d engineering",
        ),
    );
    out.push(
        target(
            "ap203e2",
            "ap203e2",
            "AP203_CONFIGURATION_CONTROLLED_3D_DESIGN_OF_MECHANICAL_PARTS_AND_ASSEMBLIES_MIM_LF { 1 0 10303 403 2 1 2 }",
            "config_control_design",
            2010,
            "configuration controlled 3D designs of mechanical parts and assemblies",
        ),
    );
    assert(out.deep_view() =~= all_targets());
    out
}

// ---------------------------------------------------------------------
// Profiles
// ---------------------------------------------------------------------

/// An entity that the target allows.
#[derive(Debug, PartialEq, Eq)]
pub struct ProfileEntity {
    pub parents: Vec<String>,
    pub is_abstract: bool,
    pub own_attrs: Vec<ExportAttr>,
    pub redeclared_attrs: Vec<ExportAttr>,
}

/// What a `ProfileEntity` stands for.
pub struct ProfileModel {
    pub parents: Seq<Seq<char>>,
    pub is_abstract: bool,
    pub own_attrs: Seq<ExportModel>,
    pub redeclared_attrs: Seq<ExportModel>,
}

impl DeepView for ProfileEntity {
    type V = ProfileModel;

    open spec fn deep_view(&self) -> ProfileModel {
        ProfileModel {
            parents: self.parents.deep_view(),
            is_abstract: self.is_abstract,
            own_attrs: self.own_attrs.deep_view(),
            redeclared_attrs: self.redeclared_attrs.deep_view(),
        }
    }
}

/// The profile of a target.
pub struct ProfileToml {
    /// The label of the schema that it is made from.
    pub source_label: String,
    /// Entities that the target does not allow, each with the supertype that it
    /// can stand under.
    pub downgrade: Table<String>,
    pub entity: Table<ProfileEntity>,
    pub type_aliases: Table<String>,
}

/// What a `ProfileToml` stands for.
pub struct ProfileTomlModel {
    pub source_label: Seq<char>,
    pub downgrade: Map<Seq<char>, Seq<char>>,
    pub entity: Map<Seq<char>, ProfileModel>,
    pub type_aliases: Map<Seq<char>, Seq<char>>,
}

impl DeepView for ProfileToml {
    type V = ProfileTomlModel;

    open spec fn deep_view(&self) -> ProfileTomlModel {
        ProfileTomlModel {
            source_label: self.source_label@,
            downgrade: self.downgrade@,
            entity: self.entity@,
            type_aliases: self.type_aliases@,
        }
    }
}

/// Whether an entity can stand under the name of its parent: it has one parent
/// and adds no attribute.
pub open spec fn adds_nothing(e: EntityModel) -> bool {
    e.parents.len() == 1 && e.own_attrs.len() == 0 && e.redeclared_attrs.len() == 0
}

/// The nearest allowed supertype within `n` steps, if nothing on the way adds
/// anything.
pub open spec fn legal_above(
    e: EntityModel,
    all: Map<Seq<char>, EntityModel>,
    allowed: Map<Seq<char>, EntityModel>,
    n: nat,
) -> Option<Seq<char>>
    decreases n,
{
    if n == 0 || !adds_nothing(e) {
        None
    } else if allowed.contains_key(e.parents[0]) {
        Some(e.parents[0])
    } else if all.contains_key(e.parents[0]) {
        legal_above(all[e.parents[0]], all, allowed, (n - 1) as nat)
    } else {
        None
    }
}

/// Finds the nearest allowed supertype that an entity can stand under, at most
/// sixty-four steps up.
pub fn nearest_legal_supertype(
    e: &EntitySchema,
    all: &Table<EntitySchema>,
    allowed: &Table<EntitySchema>,
) -> (r: Option<String>)
    ensures
        r.deep_view() == legal_above(e.view(), all@, allowed@, 64),
{
    let mut cur: &EntitySchema = e;
    let mut i: usize = 0;
    while i < 64
        invariant
            i <= 64,
            legal_above(e.view(), all@, allowed@, 64) == legal_above(
                cur.view(),
                all@,
                allowed@,
                (64 - i) as nat,
            ),
        decreases 64 - i,
    {
        if cur.parents.len() != 1 || cur.own_attrs.len() != 0 || cur.redeclared_attrs.len() != 0 {
            assert(!adds_nothing(cur.view()));
            return None;
        }
        let parent = cur.parents[0].as_str();
        assert(cur.view().parents[0] == parent@);
        if allowed.contains_key(parent) {
            return Some(parent.to_owned());
        }
        match all.get(parent) {
            Some(p) => {
                cur = p;
            },
            None => {
                return None;
            },
        }
        i += 1;
    }
    None
}

/// An allowed entity.
pub open spec fn profile_entity(e: EntityModel, schema: SchemaModel) -> ProfileModel {
    ProfileModel {
        parents: e.parents,
        is_abstract: e.is_abstract,
        own_attrs: exported(e.own_attrs),
        redeclared_attrs: exported_signals(e.redeclared_attrs, seq![schema]),
    }
}

/// The entities that can stand under an allowed supertype.
pub open spec fn downgrades(
    all: Map<Seq<char>, EntityModel>,
    schema: SchemaModel,
) -> Map<Seq<char>, Seq<char>> {
    tabulate(
        ordered(all.dom()),
        |name: Seq<char>|
            if schema.entities.contains_key(name) {
                None
            } else {
                legal_above(all[name], all, schema.entities, 64)
            },
    )
}

/// The profile made from a schema.
pub open spec fn profile_of(
    schema: SchemaModel,
    all: Map<Seq<char>, EntityModel>,
) -> ProfileTomlModel {
    ProfileTomlModel {
        source_label: schema.source_label,
        downgrade: downgrades(all, schema),
        entity: schema.entities.map_values(|e: EntityModel| profile_entity(e, schema)),
        type_aliases: alias_texts(schema.types.map_values(|t: TypeDefModel| t.aliased)),
    }
}

/// The first schema whose label begins with `prefix`.
pub open spec fn schema_for(m: Seq<SchemaModel>, prefix: Seq<char>) -> Option<SchemaModel>
    decreases m.len(),
{
    if m.len() == 0 {
        None
    } else {
        match schema_for(m.drop_last(), prefix) {
            Some(s) => Some(s),
            None => if starts_with(m.last().source_label, prefix) {
                Some(m.last())
            } else {
                None
            },
        }
    }
}

proof fn lemma_schema_for_prefix(m: Seq<SchemaModel>, prefix: Seq<char>, k: int)
    requires
        0 <= k <= m.len(),
        schema_for(m.take(k), prefix) is Some,
    ensures
        schema_for(m, prefix) == schema_for(m.take(k), prefix),
    decreases m.len(),
{
    if k < m.len() {
        assert(m.drop_last().take(k) =~= m.take(k));
        lemma_schema_for_prefix(m.drop_last(), prefix, k);
    } else {
        assert(m.take(k) =~= m);
    }
}

fn find_schema<'a>(schemas: &'a [Schema], prefix: &str) -> (r: Option<&'a Schema>)
    ensures
        schema_for(schema_models(schemas@), prefix@) == (match r {
            Some(s) => Some(s.view()),
            None => None,
        }),
{
    let ghost m = schema_models(schemas@);
    let mut i: usize = 0;
    assert(m.take(0) =~= seq![]);
    while i < schemas.len()
        invariant
            i <= schemas@.len(),
            m == schema_models(schemas@),
            schema_for(m.take(i as int), prefix@) is None,
        decreases schemas@.len() - i,
    {
        assert(m.take(i + 1).drop_last() =~= m.take(i as int));
        if has_prefix(chars_of(schemas[i].source_label.as_str()).as_slice(), prefix) {
            proof {
                lemma_schema_for_prefix(m, prefix@, i + 1);
            }
            return Some(&schemas[i]);
        }
        i += 1;
    }
    assert(m.take(i as int) =~= m);
    None
}

fn write_entities(schema: &Schema) -> (r: Table<ProfileEntity>)
    ensures
        r@ == schema.view().entities.map_values(
            |e: EntityModel| profile_entity(e, schema.view()),
        ),
{
    let mut only: Vec<&Schema> = Vec::new();
    only.push(schema);
    let ghost sm = schema.view();
    assert(listed_models(only@) =~= seq![sm]);
    let n = schema.entities.len();
    let ghost o = ordered(sm.entities.dom());
    let ghost g = |k: Seq<char>| Some(profile_entity(sm.entities[k], sm));
    let mut out: Table<ProfileEntity> = Table::new();
    let mut i: usize = 0;
    proof {
        lemma_tabulate_ends(o, g);
    }
    while i < n
        invariant
            i <= n,
            n == o.len(),
            sm == schema.view(),
            sm.entities.dom().finite(),
            listed_models(only@) == seq![sm],
            o == ordered(sm.entities.dom()),
            g == (|k: Seq<char>| Some(profile_entity(sm.entities[k], sm))),
            out@ == tabulate(o.take(i as int), g),
        decreases n - i,
    {
        proof {
            lemma_tabulate_next(o, i as int, g);
        }
        let e = schema.entities.value_at(i);
        out.insert(
            schema.entities.key_at(i).clone(),
            ProfileEntity {
                parents: e.parents.duplicate(),
                is_abstract: e.is_abstract,
                own_attrs: export_attrs(&e.own_attrs),
                redeclared_attrs: export_signals(&e.redeclared_attrs, &only),
            },
        );
        i += 1;
    }
    proof {
        lemma_tabulate_ends(o, g);
        lemma_ordered(sm.entities.dom());
        assert(out@ =~= sm.entities.map_values(|e: EntityModel| profile_entity(e, sm)));
    }
    out
}

fn write_types(schema: &Schema) -> (r: Table<String>)
    ensures
        r@ == alias_texts(schema.view().types.map_values(|t: TypeDefModel| t.aliased)),
{
    let ghost sm = schema.view();
    let ghost want = alias_texts(sm.types.map_values(|t: TypeDefModel| t.aliased));
    let n = schema.types.len();
    let ghost o = ordered(sm.types.dom());
    let ghost g = |k: Seq<char>| Some(want[k]);
    let mut out: Table<String> = Table::new();
    let mut i: usize = 0;
    proof {
        lemma_tabulate_ends(o, g);
        lemma_ordered(sm.types.dom());
    }
    while i < n
        invariant
            i <= n,
            n == o.len(),
            sm == schema.view(),
            sm.types.dom().finite(),
            want == alias_texts(sm.types.map_values(|t: TypeDefModel| t.aliased)),
            o == ordered(sm.types.dom()),
            forall|j: int| 0 <= j < o.len() ==> sm.types.dom().contains(#[trigger] o[j]),
            g == (|k: Seq<char>| Some(want[k])),
            out@ == tabulate(o.take(i as int), g),
        decreases n - i,
    {
        proof {
            lemma_tabulate_next(o, i as int, g);
            assert(sm.types.dom().contains(o[i as int]));
        }
        out.insert(schema.types.key_at(i).clone(), ty_repr(&schema.types.value_at(i).aliased));
        i += 1;
    }
    proof {
        lemma_tabulate_ends(o, g);
        lemma_ordered(sm.types.dom());
        assert(out@ =~= want);
    }
    out
}

fn find_downgrades(all: &Table<EntitySchema>, schema: &Schema) -> (r: Table<String>)
    ensures
        r@ == downgrades(all@, schema.view()),
{
    let ghost sm = schema.view();
    let n = all.len();
    let ghost o = ordered(all@.dom());
    let ghost g = |name: Seq<char>|
        if sm.entities.contains_key(name) {
            None
        } else {
            legal_above(all@[name], all@, sm.entities, 64)
        };
    let mut out: Table<String> = Table::new();
    let mut i: usize = 0;
    proof {
        lemma_tabulate_ends(o, g);
    }
    while i < n
        invariant
            i <= n,
            n == o.len(),
            sm == schema.view(),
            o == ordered(all@.dom()),
            g == (|name: Seq<char>|
                if sm.entities.contains_key(name) {
                    None
                } else {
                    legal_above(all@[name], all@, sm.entities, 64)
                }),
            out@ == tabulate(o.take(i as int), g),
        decreases n - i,
    {
        proof {
            lemma_tabulate_next(o, i as int, g);
        }
        let name = all.key_at(i);
        if !schema.entities.contains_key(name.as_str()) {
            if let Some(up) = nearest_legal_supertype(all.value_at(i), all, &schema.entities) {
                out.insert(name.clone(), up);
            }
        }
        i += 1;
    }
    proof {
        lemma_tabulate_ends(o, g);
    }
    out
}

/// The profile of a target, made from the schema that its label names.
pub open spec fn target_profile(m: Seq<SchemaModel>, t: TargetModel) -> Result<
    ProfileTomlModel,
    Seq<char>,
> {
    match schema_for(m, t.label_match) {
        Some(s) => Ok(profile_of(s, first_declared(m))),
        None => Err(
            "profile_export: no schema with source_label starting '"@ + t.label_match
                + "' (target "@ + t.out_name + ")"@,
        ),
    }
}

/// Compiles the profile of a target.
pub fn compile_profile(schemas: &[Schema], t: &Target) -> (r: Result<ProfileToml, String>)
    ensures
        outcome(r) == target_profile(schema_models(schemas@), t.deep_view()),
        r matches Ok(p) ==> exists|i: int| #[trigger]
            first_labelled(schema_models(schemas@), t.label_match@, i) && ({
                let s = schema_models(schemas@)[i];
                &&& p.source_label@ == s.source_label
                &&& forall|name: Seq<char>| #[trigger]
                    p.entity@.contains_key(name) <==> s.entities.contains_key(name)
                &&& forall|name: Seq<char>| #[trigger]
                    p.entity@.contains_key(name) ==> p.entity@[name].parents
                        == s.entities[name].parents && p.entity@[name].is_abstract
                        == s.entities[name].is_abstract && p.entity@[name].own_attrs.len()
                        == s.entities[name].own_attrs.len()
            }),
{
    proof {
        let m = schema_models(schemas@);
        law_profile_comes_from_its_schema(m, t.deep_view());
        if target_profile(m, t.deep_view()) is Ok {
            let i = choose|i: int| #[trigger] first_labelled(m, t.label_match@, i);
            let p = profile_of(m[i], first_declared(m));
            assert forall|name: Seq<char>| #[trigger] p.entity.contains_key(
                name,
            ) implies p.entity[name].parents == m[i].entities[name].parents
                && p.entity[name].is_abstract == m[i].entities[name].is_abstract
                && p.entity[name].own_attrs.len() == m[i].entities[name].own_attrs.len() by {
                law_profile_entity(m[i], first_declared(m), name);
            }
        }
    }
    let schema = match find_schema(schemas, t.label_match.as_str()) {
        Some(s) => s,
        None => {
            let mut e: String = join3(
                "profile_export: no schema with source_label starting '",
                t.label_match.as_str(),
                "' (target ",
            );
            e.append(t.out_name.as_str());
            e.append(")");
            return Err(e);
        },
    };
    let all = first_declarations(&list_schemas(schemas));
    Ok(
        ProfileToml {
            source_label: schema.source_label.clone(),
            downgrade: find_downgrades(&all, schema),
            entity: write_entities(schema),
            type_aliases: write_types(schema),
        },
    )
}

// ---------------------------------------------------------------------
// Laws
// ---------------------------------------------------------------------

/// A profile allows exactly the entities of its schema.
pub proof fn law_profile_allows_its_schema(
    schema: SchemaModel,
    all: Map<Seq<char>, EntityModel>,
    name: Seq<char>,
)
    ensures
        profile_of(schema, all).entity.contains_key(name) == schema.entities.contains_key(name),
{
}

proof fn lemma_legal_above(
    e: EntityModel,
    all: Map<Seq<char>, EntityModel>,
    allowed: Map<Seq<char>, EntityModel>,
    n: nat,
)
    ensures
        legal_above(e, all, allowed, n) matches Some(up) ==> allowed.contains_key(up)
            && adds_nothing(e),
    decreases n,
{
    if n > 0 && adds_nothing(e) && !allowed.contains_key(e.parents[0]) && all.contains_key(
        e.parents[0],
    ) {
        lemma_legal_above(all[e.parents[0]], all, allowed, (n - 1) as nat);
    }
}

/// Only entities that the target does not allow are downgraded, only to entities
/// that it allows, and only if they add nothing to their parent.
pub proof fn law_downgrades_are_safe(
    schema: SchemaModel,
    all: Map<Seq<char>, EntityModel>,
    name: Seq<char>,
)
    requires
        all.dom().finite(),
        profile_of(schema, all).downgrade.contains_key(name),
    ensures
        all.contains_key(name),
        !profile_of(schema, all).entity.contains_key(name),
        profile_of(schema, all).entity.contains_key(profile_of(schema, all).downgrade[name]),
        adds_nothing(all[name]),
{
    lemma_ordered(all.dom());
    lemma_legal_above(all[name], all, schema.entities, 64);
}

proof fn lemma_adds_nothing(
    all: Map<Seq<char>, EntityModel>,
    types: Aliases,
    rank: spec_fn(Seq<char>) -> nat,
    name: Seq<char>,
)
    requires
        all.dom().finite(),
        ranks_parents_lower(parent_graph(all), rank),
        all.contains_key(name),
        adds_nothing(all[name]),
        all.contains_key(all[name].parents[0]),
    ensures
        fields_of(all, types, name) == fields_of(all, types, all[name].parents[0]),
{
    let g = parent_graph(all);
    let e = all[name];
    let p = e.parents[0];
    assert(g.dom() =~= all.dom());
    assert(e.parents =~= seq![p]);
    law_lineage_of_one_parent(g, rank, p);
    let l = lineage(g, e.parents);
    assert(l == lineage(g, all[p].parents).push(p));
    assert(l.push(name).drop_last() =~= l);
    let before = fields_from(all, types, l);
    assert(with_own(before, e.own_attrs, name, types) =~= before);
}

proof fn lemma_legal_above_lossless(
    all: Map<Seq<char>, EntityModel>,
    allowed: Map<Seq<char>, EntityModel>,
    types: Aliases,
    rank: spec_fn(Seq<char>) -> nat,
    name: Seq<char>,
    n: nat,
)
    requires
        all.dom().finite(),
        ranks_parents_lower(parent_graph(all), rank),
        all.contains_key(name),
        allowed.dom().subset_of(all.dom()),
        legal_above(all[name], all, allowed, n) is Some,
    ensures
        fields_of(all, types, name) == fields_of(
            all,
            types,
            legal_above(all[name], all, allowed, n)->0,
        ),
    decreases n,
{
    let p = all[name].parents[0];
    assert(allowed.contains_key(p) ==> all.dom().contains(p));
    lemma_adds_nothing(all, types, rank, name);
    if !allowed.contains_key(p) {
        lemma_legal_above_lossless(all, allowed, types, rank, p, (n - 1) as nat);
    }
}

/// A downgrade loses nothing: over the declarations of all schemas, the entity
/// has exactly the attributes of the supertype that it stands under. Nobody may
/// be an own ancestor, which `rank` shows.
pub proof fn law_downgrade_is_lossless(
    schema: SchemaModel,
    all: Map<Seq<char>, EntityModel>,
    types: Aliases,
    rank: spec_fn(Seq<char>) -> nat,
    name: Seq<char>,
)
    requires
        all.dom().finite(),
        schema.entities.dom().subset_of(all.dom()),
        ranks_parents_lower(parent_graph(all), rank),
        profile_of(schema, all).downgrade.contains_key(name),
    ensures
        fields_of(all, types, name) == fields_of(
            all,
            types,
            profile_of(schema, all).downgrade[name],
        ),
{
    lemma_ordered(all.dom());
    lemma_legal_above_lossless(all, schema.entities, types, rank, name, 64);
}

} // verus!
