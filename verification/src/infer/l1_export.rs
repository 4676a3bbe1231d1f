//! The faithful union of the schemas: every entity as the newest schema declares
//! it, nothing inferred.

use crate::express::{EntityModel, EntitySchema, Schema, SchemaModel};
use crate::infer::export_common::{
    alias_texts, conflicts_of, export_attrs, export_signals, exported, exported_signals,
    law_every_entity_has_a_declaration, law_newest_declaration_counts, newest_declaration,
    newest_first, order_by_rank, write_aliases, write_conflicts, ExportAttr, ExportModel,
};
use crate::infer::export_laws::{law_early_row, newest_to_declare};
use crate::infer::refgraph::{
    build, declared, first_aliased, first_aliases, first_declarations, first_declared,
    listed_models, schema_models, union_of, UnifiedModel, UnifiedSchema,
};
use crate::names::{
    lemma_ordered, lemma_tabulate_ends, lemma_tabulate_next, no_names, ordered, tabulate,
    Duplicate, Table,
};
use crate::text::{chars_of, has_prefix, starts_with};
use vstd::prelude::*;
use vstd::string::*;

verus! {

broadcast use vstd::string::group_string_axioms;

/// How new a schema is by the beginning of its label.
pub open spec fn early_rank(label: Seq<char>) -> u8 {
    if starts_with(label, "ap242ed3"@) {
        6
    } else if starts_with(label, "ap242ed2"@) {
        5
    } else if starts_with(label, "ap242"@) {
        4
    } else if starts_with(label, "ap214"@) {
        3
    } else if starts_with(label, "ap203e2"@) {
        2
    } else if starts_with(label, "ap203"@) {
        1
    } else {
        0
    }
}

/// Tells how new a schema is by the beginning of its label.
pub fn schema_rank(label: &str) -> (r: u8)
    ensures
        r == early_rank(label@),
{
    let cs = chars_of(label);
    let s = cs.as_slice();
    if has_prefix(s, "ap242ed3") {
        6
    } else if has_prefix(s, "ap242ed2") {
        5
    } else if has_prefix(s, "ap242") {
        4
    } else if has_prefix(s, "ap214") {
        3
    } else if has_prefix(s, "ap203e2") {
        2
    } else if has_prefix(s, "ap203") {
        1
    } else {
        0
    }
}

/// The ranks of the schemas.
pub open spec fn early_ranks(m: Seq<SchemaModel>) -> Seq<u8> {
    Seq::new(m.len(), |i: int| early_rank(m[i].source_label))
}

fn rank_schemas(schemas: &[Schema]) -> (r: Vec<u8>)
    ensures
        r@ == early_ranks(schema_models(schemas@)),
{
    let mut r: Vec<u8> = Vec::new();
    let mut i: usize = 0;
    while i < schemas.len()
        invariant
            i <= schemas@.len(),
            r@.len() == i,
            forall|j: int|
                0 <= j < i ==> #[trigger] r@[j] == early_rank(schemas@[j].source_label@),
        decreases schemas@.len() - i,
    {
        r.push(schema_rank(schemas[i].source_label.as_str()));
        i += 1;
    }
    assert(r@ =~= early_ranks(schema_models(schemas@)));
    r
}

/// An entity as declared.
#[derive(Debug, PartialEq, Eq)]
pub struct EarlyEntity {
    pub parents: Vec<String>,
    pub is_abstract: bool,
    /// The attributes on whose type the schemas disagree.
    pub attr_conflicts: Vec<String>,
    /// The attributes of its own, in order.
    pub own_attrs: Vec<ExportAttr>,
    /// The redeclarations that matter.
    pub redeclared_attrs: Vec<ExportAttr>,
}

/// What an `EarlyEntity` stands for.
pub struct EarlyModel {
    pub parents: Seq<Seq<char>>,
    pub is_abstract: bool,
    pub attr_conflicts: Seq<Seq<char>>,
    pub own_attrs: Seq<ExportModel>,
    pub redeclared_attrs: Seq<ExportModel>,
}

impl DeepView for EarlyEntity {
    type V = EarlyModel;

    open spec fn deep_view(&self) -> EarlyModel {
        EarlyModel {
            parents: self.parents.deep_view(),
            is_abstract: self.is_abstract,
            attr_conflicts: self.attr_conflicts.deep_view(),
            own_attrs: self.own_attrs.deep_view(),
            redeclared_attrs: self.redeclared_attrs.deep_view(),
        }
    }
}

/// The union of the schemas.
pub struct EarlyToml {
    pub entity: Table<EarlyEntity>,
    /// The aliases, each with what it stands for.
    pub type_aliases: Table<String>,
}

/// An entity of the union with the declaration `e`.
pub open spec fn early_entity(
    name: Seq<char>,
    e: Option<EntityModel>,
    u: UnifiedModel,
    ranked: Seq<SchemaModel>,
) -> EarlyModel {
    EarlyModel {
        parents: match e {
            Some(d) => d.parents,
            None => seq![],
        },
        is_abstract: u.abstract_entities.contains(name),
        attr_conflicts: conflicts_of(u.attr_conflicts, name),
        own_attrs: match e {
            Some(d) => exported(d.own_attrs),
            None => seq![],
        },
        redeclared_attrs: match e {
            Some(d) => exported_signals(d.redeclared_attrs, ranked),
            None => seq![],
        },
    }
}

/// The declaration of `name`, if there is one.
pub open spec fn declaration(
    decls: Map<Seq<char>, EntityModel>,
    name: Seq<char>,
) -> Option<EntityModel> {
    if decls.contains_key(name) {
        Some(decls[name])
    } else {
        None
    }
}

/// The entities of the union.
pub open spec fn early_entities(m: Seq<SchemaModel>) -> Map<Seq<char>, EarlyModel> {
    let ranked = newest_first(m, early_ranks(m));
    tabulate(
        ordered(union_of(m).entity_parents.dom()),
        |name: Seq<char>|
            Some(
                early_entity(
                    name,
                    declaration(first_declared(ranked), name),
                    union_of(m),
                    ranked,
                ),
            ),
    )
}

fn no_attrs() -> (r: Vec<ExportAttr>)
    ensures
        r.deep_view() == Seq::<ExportModel>::empty(),
{
    let r: Vec<ExportAttr> = Vec::new();
    assert(r.deep_view() =~= seq![]);
    r
}

fn write_entity(
    name: &str,
    decl: Option<&EntitySchema>,
    unified: &UnifiedSchema,
    ranked: &Vec<&Schema>,
) -> (r: EarlyEntity)
    ensures
        r.deep_view() == early_entity(
            name@,
            match decl {
                Some(d) => Some(d.view()),
                None => None,
            },
            unified.view(),
            listed_models(ranked@),
        ),
{
    let is_abstract = unified.abstract_entities.contains(name);
    let attr_conflicts = write_conflicts(&unified.attr_conflicts, name);
    match decl {
        Some(d) => EarlyEntity {
            parents: d.parents.duplicate(),
            is_abstract,
            attr_conflicts,
            own_attrs: export_attrs(&d.own_attrs),
            redeclared_attrs: export_signals(&d.redeclared_attrs, ranked),
        },
        None => EarlyEntity {
            parents: no_names(),
            is_abstract,
            attr_conflicts,
            own_attrs: no_attrs(),
            redeclared_attrs: no_attrs(),
        },
    }
}

/// Compiles the union: names, parents and own attributes as the newest schema
/// has them, abstract entities and disagreements over all schemas.
pub fn compile_early(schemas: &[Schema]) -> (r: EarlyToml)
    ensures
        r.entity@ == early_entities(schema_models(schemas@)),
        r.type_aliases@ == alias_texts(
            first_aliased(
                newest_first(schema_models(schemas@), early_ranks(schema_models(schemas@))),
            ),
        ),
        forall|name: Seq<char>| #[trigger]
            r.entity@.contains_key(name) ==> {
                let m = schema_models(schemas@);
                &&& r.entity@[name].is_abstract <==> exists|i: int|
                    0 <= i < m.len() && (#[trigger] m[i]).entities.contains_key(name)
                        && m[i].entities[name].is_abstract
                &&& forall|i: int| #[trigger]
                    newest_to_declare(m, early_ranks(m), name, i) ==> r.entity@[name].parents
                        == m[i].entities[name].parents && r.entity@[name].own_attrs.len()
                        == m[i].entities[name].own_attrs.len()
            },
{
    let unified = build(schemas);
    let ranked = order_by_rank(schemas, &rank_schemas(schemas));
    let decls = first_declarations(&ranked);
    let ghost m = schema_models(schemas@);
    let ghost rm = newest_first(m, early_ranks(m));
    let n = unified.entity_parents.len();
    let ghost o = ordered(union_of(m).entity_parents.dom());
    let ghost g = |name: Seq<char>|
        Some(early_entity(name, declaration(first_declared(rm), name), union_of(m), rm));
    let mut entity: Table<EarlyEntity> = Table::new();
    let mut i: usize = 0;
    proof {
        lemma_tabulate_ends(o, g);
    }
    while i < n
        invariant
            i <= n,
            n == o.len(),
            unified.view() == union_of(m),
            rm == newest_first(m, early_ranks(m)),
            listed_models(ranked@) == rm,
            decls@ == first_declared(rm),
            o == ordered(union_of(m).entity_parents.dom()),
            g == (|name: Seq<char>|
                Some(early_entity(name, declaration(first_declared(rm), name), union_of(m), rm))),
            entity@ == tabulate(o.take(i as int), g),
        decreases n - i,
    {
        proof {
            lemma_tabulate_next(o, i as int, g);
        }
        let name = unified.entity_parents.key_at(i);
        entity.insert(
            name.clone(),
            write_entity(name.as_str(), decls.get(name.as_str()), &unified, &ranked),
        );
        i += 1;
    }
    proof {
        lemma_tabulate_ends(o, g);
        law_every_entity_has_a_declaration(m, early_ranks(m));
        assert forall|name: Seq<char>| #[trigger] entity@.contains_key(name) implies {
            &&& entity@[name].is_abstract <==> exists|i: int|
                0 <= i < m.len() && (#[trigger] m[i]).entities.contains_key(name)
                    && m[i].entities[name].is_abstract
            &&& forall|i: int| #[trigger]
                newest_to_declare(m, early_ranks(m), name, i) ==> entity@[name].parents
                    == m[i].entities[name].parents && entity@[name].own_attrs.len()
                    == m[i].entities[name].own_attrs.len()
        } by {
            law_early_row(m, name);
        }
    }
    EarlyToml { entity, type_aliases: write_aliases(&first_aliases(&ranked)) }
}

/// The parents and the own attributes of an entity come from the same
/// declaration, that of the newest schema that has it.
pub proof fn law_one_declaration_for_all(m: Seq<SchemaModel>, name: Seq<char>)
    requires
        declared(m).finite(),
        declared(m).contains(name),
    ensures
        early_entities(m).contains_key(name),
        exists|e: EntityModel| #[trigger]
            newest_declaration(m, early_ranks(m), name, e) && early_entities(m)[name].parents
                == e.parents && early_entities(m)[name].own_attrs == exported(e.own_attrs),
{
    let ranked = newest_first(m, early_ranks(m));
    let e = first_declared(ranked)[name];
    law_every_entity_has_a_declaration(m, early_ranks(m));
    assert(first_declared(ranked).contains_key(name));
    law_newest_declaration_counts(m, early_ranks(m), name);
    lemma_ordered(declared(m));
    assert(union_of(m).entity_parents.dom() =~= declared(m));
    assert(early_entities(m)[name] == early_entity(name, Some(e), union_of(m), ranked));
    assert(newest_declaration(m, early_ranks(m), name, e));
}

} // verus!
