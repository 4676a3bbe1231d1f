//! The union of the schemas for code generation: the faithful union, with derived
//! attributes, with the entities that can be parts of complex instances, and with
//! the selections of all editions united.

use crate::express::{
    lemma_super_view, AttrType, DerivedModel, DerivedTarget, EntityModel, EntitySchema, Schema,
    SchemaModel, SuperModel, SupertypeExpr, TypeModel,
};
use crate::graph::{closure, closure_of, reachable, reached};
use crate::infer::export_common::{
    conflicts_of, export_attrs, export_signals, exported, exported_signals, label_ranks,
    law_every_entity_has_a_declaration, law_newest_declaration_counts, newest_declaration,
    newest_first, order_by_rank, rank_schemas, repr, ty_repr, write_conflicts, ExportAttr,
    ExportModel,
};
use crate::infer::export_laws::{law_universal_row, newest_to_declare};
use crate::infer::lineage::parent_graph;
use crate::infer::prune::{UsageModel, UsageRecord};
use crate::infer::refgraph::{
    add_missing, add_missing_names, build, declared, first_aliased, first_aliases,
    first_declarations, first_declared, listed_models, schema_models, union_of, UnifiedModel,
    UnifiedSchema,
};
use crate::names::{
    lemma_ordered, lemma_tabulate_ends, lemma_tabulate_next, lemma_take_contains, no_names,
    ordered, push_item, tabulate, Duplicate, NameSet, Table,
};
use crate::text::{join3, join_all, joined};
use vstd::prelude::*;
use vstd::string::*;

verus! {

broadcast use vstd::string::group_string_axioms;

// ---------------------------------------------------------------------
// Entities that combine
// ---------------------------------------------------------------------

/// The entities inside an `ANDOR` or `AND` of an expression; all of them if
/// `inside` says that the expression itself stands in one.
pub open spec fn combining(x: SuperModel, inside: bool) -> Set<Seq<char>>
    decreases x, 0nat,
{
    match x {
        SuperModel::Entity(n) => if inside {
            set![n]
        } else {
            Set::empty()
        },
        SuperModel::OneOf(c) => combining_of(c, inside),
        SuperModel::AndOr(c) => combining_of(c, true),
        SuperModel::And(c) => combining_of(c, true),
    }
}

pub open spec fn combining_of(c: Seq<SuperModel>, inside: bool) -> Set<Seq<char>>
    decreases c, c.len(),
{
    if c.len() == 0 {
        Set::empty()
    } else {
        combining_of(c.drop_last(), inside).union(combining(c.last(), inside))
    }
}

fn collect_children(children: &Vec<SupertypeExpr>, inside: bool, out: &mut NameSet)
    ensures
        final(out)@ == old(out)@.union(combining_of(children.deep_view(), inside)),
    decreases children,
{
    let ghost before = out@;
    let ghost c = children.deep_view();
    let mut i: usize = 0;
    proof {
        assert(c.take(0) =~= seq![]);
        assert(before.union(combining_of(c.take(0), inside)) =~= before);
    }
    while i < children.len()
        invariant
            i <= children@.len(),
            c == children.deep_view(),
            c.len() == children@.len(),
            out@ == before.union(combining_of(c.take(i as int), inside)),
        decreases children@.len() - i,
    {
        proof {
            assert(c.take(i + 1).drop_last() =~= c.take(i as int));
            assert(c.take(i + 1).last() == children@[i as int].view());
        }
        collect_combinable(&children[i], inside, out);
        assert(out@ =~= before.union(combining_of(c.take(i + 1), inside)));
        i += 1;
    }
    assert(c.take(i as int) =~= c);
}

/// Adds the entities inside an `ANDOR` or `AND`. Those of a plain `ONEOF`
/// exclude each other, so they are not added.
pub fn collect_combinable(expr: &SupertypeExpr, in_andor: bool, out: &mut NameSet)
    ensures
        final(out)@ == old(out)@.union(combining(expr.view(), in_andor)),
    decreases expr,
{
    let ghost before = out@;
    proof {
        lemma_super_view(*expr);
    }
    match expr {
        SupertypeExpr::Entity { name } => {
            if in_andor {
                out.insert(name.clone());
            }
            assert(out@ =~= before.union(combining(expr.view(), in_andor)));
        },
        SupertypeExpr::OneOf { children } => collect_children(children, in_andor, out),
        SupertypeExpr::AndOr { children } => collect_children(children, true, out),
        SupertypeExpr::And { children } => collect_children(children, true, out),
    }
}

/// Entities by declaration.
pub type Decls = Map<Seq<char>, EntityModel>;

/// The entities that the expressions of the entities `keys` combine.
pub open spec fn combined_by_expr(decls: Decls, keys: Seq<Seq<char>>) -> Set<Seq<char>>
    decreases keys.len(),
{
    if keys.len() == 0 {
        Set::empty()
    } else {
        let before = combined_by_expr(decls, keys.drop_last());
        match decls[keys.last()].supertype_expr {
            Some(x) => before.union(combining(x, false)),
            None => before,
        }
    }
}

/// Whether an entity has a declared parent without a `SUPERTYPE OF` clause,
/// which lets its subtypes combine.
pub open spec fn under_bare_parent(decls: Decls, x: Seq<char>) -> bool {
    decls.contains_key(x) && exists|p: Seq<char>| #[trigger]
        decls[x].parents.contains(p) && decls.contains_key(p) && decls[p].supertype_expr is None
}

/// Whether the corpus shows an entity as a part of a complex instance.
pub open spec fn seen_as_part(
    decls: Decls,
    corpus: Map<Seq<char>, UsageModel>,
    x: Seq<char>,
) -> bool {
    decls.contains_key(x) && corpus.contains_key(x) && corpus[x].complex_part_count > 0
}

/// The entities that can be combined with others.
pub open spec fn combinable(decls: Decls, corpus: Map<Seq<char>, UsageModel>) -> Set<Seq<char>> {
    Set::new(
        |x: Seq<char>|
            combined_by_expr(decls, ordered(decls.dom())).contains(x) || under_bare_parent(
                decls,
                x,
            ) || seen_as_part(decls, corpus, x),
    )
}

/// The entities that can be parts of complex instances: those that can be
/// combined, and their ancestors.
pub open spec fn complex_parts(
    decls: Decls,
    corpus: Map<Seq<char>, UsageModel>,
) -> Set<Seq<char>> {
    closure_of(parent_graph(decls), ordered(combinable(decls, corpus)))
}

fn has_bare_parent(e: &EntitySchema, decls: &Table<EntitySchema>) -> (r: bool)
    ensures
        r == (exists|p: Seq<char>| #[trigger]
            e.view().parents.contains(p) && decls@.contains_key(p)
                && decls@[p].supertype_expr is None),
{
    let ghost ps = e.view().parents;
    let mut i: usize = 0;
    while i < e.parents.len()
        invariant
            i <= e.parents@.len(),
            ps == e.view().parents,
            ps.len() == e.parents@.len(),
            forall|j: int|
                0 <= j < i ==> !(decls@.contains_key(#[trigger] ps[j])
                    && decls@[ps[j]].supertype_expr is None),
        decreases e.parents@.len() - i,
    {
        let p = e.parents[i].as_str();
        assert(ps[i as int] == p@);
        if let Some(d) = decls.get(p) {
            if d.supertype_expr.is_none() {
                assert(ps.contains(p@));
                return true;
            }
        }
        i += 1;
    }
    proof {
        assert forall|p: Seq<char>| #[trigger] ps.contains(p) implies !(decls@.contains_key(p)
            && decls@[p].supertype_expr is None) by {
            let j = choose|j: int| 0 <= j < ps.len() && ps[j] == p;
            assert(!(decls@.contains_key(ps[j]) && decls@[ps[j]].supertype_expr is None));
        }
    }
    false
}

/// The part of `combinable` that the entities `keys` bring in.
spec fn combinable_among(
    decls: Decls,
    corpus: Map<Seq<char>, UsageModel>,
    keys: Seq<Seq<char>>,
) -> Set<Seq<char>> {
    Set::new(
        |x: Seq<char>|
            combined_by_expr(decls, keys).contains(x) || keys.contains(x) && (under_bare_parent(
                decls,
                x,
            ) || seen_as_part(decls, corpus, x)),
    )
}

fn find_combinable(decls: &Table<EntitySchema>, corpus: &Table<UsageRecord>) -> (r: NameSet)
    ensures
        r@ == combinable(decls@, corpus@),
{
    let n = decls.len();
    let ghost o = ordered(decls@.dom());
    let mut out = NameSet::new();
    let mut i: usize = 0;
    proof {
        assert(o.take(0) =~= seq![]);
        assert(out@ =~= combinable_among(decls@, corpus@, o.take(0)));
        lemma_ordered(decls@.dom());
    }
    while i < n
        invariant
            i <= n,
            n == o.len(),
            o == ordered(decls@.dom()),
            decls@.dom().finite(),
            forall|j: int| 0 <= j < o.len() ==> decls@.dom().contains(#[trigger] o[j]),
            out@ == combinable_among(decls@, corpus@, o.take(i as int)),
        decreases n - i,
    {
        let ghost k = o[i as int];
        let ghost before = out@;
        proof {
            assert(o.take(i + 1).drop_last() =~= o.take(i as int));
            lemma_take_contains(o, i as int);
            assert(decls@.contains_key(k));
        }
        let name = decls.key_at(i);
        let e = decls.value_at(i);
        if let Some(x) = &e.supertype_expr {
            collect_combinable(x, false, &mut out);
        }
        let ghost mid = out@;
        let part = match corpus.get(name.as_str()) {
            Some(u) => u.complex_part_count > 0,
            None => false,
        };
        if part || has_bare_parent(e, decls) {
            out.insert(name.clone());
        }
        proof {
            let want = combinable_among(decls@, corpus@, o.take(i + 1));
            assert forall|x: Seq<char>| out@.contains(x) <==> want.contains(x) by {
                if x != k {
                    assert(out@.contains(x) <==> mid.contains(x));
                }
            }
            assert(out@ =~= want);
        }
        i += 1;
    }
    proof {
        assert(o.take(i as int) =~= o);
        lemma_ordered(decls@.dom());
        assert(out@ =~= combinable(decls@, corpus@));
    }
    out
}

fn list_parents(decls: &Table<EntitySchema>) -> (r: Table<Vec<String>>)
    ensures
        r@ == parent_graph(decls@),
{
    let n = decls.len();
    let ghost o = ordered(decls@.dom());
    let ghost g = |k: Seq<char>| Some(decls@[k].parents);
    let mut out: Table<Vec<String>> = Table::new();
    let mut i: usize = 0;
    proof {
        lemma_tabulate_ends(o, g);
    }
    while i < n
        invariant
            i <= n,
            n == o.len(),
            o == ordered(decls@.dom()),
            decls@.dom().finite(),
            g == (|k: Seq<char>| Some(decls@[k].parents)),
            out@ == tabulate(o.take(i as int), g),
        decreases n - i,
    {
        proof {
            lemma_tabulate_next(o, i as int, g);
        }
        out.insert(decls.key_at(i).clone(), decls.value_at(i).parents.duplicate());
        i += 1;
    }
    proof {
        lemma_tabulate_ends(o, g);
        lemma_ordered(decls@.dom());
        assert(out@ =~= parent_graph(decls@));
    }
    out
}

/// Finds the entities that can be parts of complex instances.
pub fn find_complex_parts(decls: &Table<EntitySchema>, corpus: &Table<UsageRecord>) -> (r: NameSet)
    ensures
        r@ == complex_parts(decls@, corpus@),
{
    closure(&list_parents(decls), &find_combinable(decls, corpus).names())
}

// ---------------------------------------------------------------------
// Entities
// ---------------------------------------------------------------------

/// An entity of the union.
#[derive(Debug, PartialEq, Eq)]
pub struct UnivEntity {
    pub parents: Vec<String>,
    pub is_abstract: bool,
    /// Whether it can be a part of a complex instance.
    pub is_complex_part: bool,
    pub attr_conflicts: Vec<String>,
    /// The derived attributes: `super.attr` or `attr`.
    pub derives: Vec<String>,
    pub own_attrs: Vec<ExportAttr>,
    pub redeclared_attrs: Vec<ExportAttr>,
}

/// What a `UnivEntity` stands for.
pub struct UnivModel {
    pub parents: Seq<Seq<char>>,
    pub is_abstract: bool,
    pub is_complex_part: bool,
    pub attr_conflicts: Seq<Seq<char>>,
    pub derives: Seq<Seq<char>>,
    pub own_attrs: Seq<ExportModel>,
    pub redeclared_attrs: Seq<ExportModel>,
}

impl DeepView for UnivEntity {
    type V = UnivModel;

    open spec fn deep_view(&self) -> UnivModel {
        UnivModel {
            parents: self.parents.deep_view(),
            is_abstract: self.is_abstract,
            is_complex_part: self.is_complex_part,
            attr_conflicts: self.attr_conflicts.deep_view(),
            derives: self.derives.deep_view(),
            own_attrs: self.own_attrs.deep_view(),
            redeclared_attrs: self.redeclared_attrs.deep_view(),
        }
    }
}

/// The union of the schemas.
pub struct UniversalToml {
    pub entity: Table<UnivEntity>,
    /// The aliases, each with what it stands for.
    pub type_aliases: Table<String>,
}

/// How a derived attribute is written.
pub open spec fn derive_text(d: DerivedModel) -> Seq<char> {
    match d.super_qual {
        Some(s) => s + "."@ + d.name,
        None => d.name,
    }
}

/// The derived attributes, in order.
pub open spec fn derive_texts(ds: Seq<DerivedModel>) -> Seq<Seq<char>> {
    Seq::new(ds.len(), |i: int| derive_text(ds[i]))
}

fn write_derives(ds: &Vec<DerivedTarget>) -> (r: Vec<String>)
    ensures
        r.deep_view() == derive_texts(ds.deep_view()),
{
    let ghost want = derive_texts(ds.deep_view());
    let mut out: Vec<String> = no_names();
    let mut i: usize = 0;
    assert(want.take(0) =~= seq![]);
    while i < ds.len()
        invariant
            i <= ds@.len(),
            want == derive_texts(ds.deep_view()),
            out.deep_view() == want.take(i as int),
        decreases ds@.len() - i,
    {
        assert(ds.deep_view()[i as int] == ds@[i as int].deep_view());
        let text = match &ds[i].super_qual {
            Some(s) => join3(s.as_str(), ".", ds[i].name.as_str()),
            None => ds[i].name.clone(),
        };
        push_item(&mut out, text);
        assert(out.deep_view() =~= want.take(i + 1));
        i += 1;
    }
    assert(want.take(i as int) =~= want);
    out
}

/// An entity of the union with the declaration `e`.
pub open spec fn univ_entity(
    name: Seq<char>,
    e: EntityModel,
    u: UnifiedModel,
    ranked: Seq<SchemaModel>,
    parts: Set<Seq<char>>,
) -> UnivModel {
    UnivModel {
        parents: e.parents,
        is_abstract: u.abstract_entities.contains(name),
        is_complex_part: parts.contains(name),
        attr_conflicts: conflicts_of(u.attr_conflicts, name),
        derives: derive_texts(e.derived_attrs),
        own_attrs: exported(e.own_attrs),
        redeclared_attrs: exported_signals(e.redeclared_attrs, ranked),
    }
}

/// The schemas from the newest to the oldest.
pub open spec fn universal_order(m: Seq<SchemaModel>) -> Seq<SchemaModel> {
    newest_first(m, label_ranks(m))
}

/// The declarations that count: those of the newest schemas.
pub open spec fn universal_decls(m: Seq<SchemaModel>) -> Decls {
    first_declared(universal_order(m))
}

/// The entities of the union.
pub open spec fn univ_entities(
    m: Seq<SchemaModel>,
    corpus: Map<Seq<char>, UsageModel>,
) -> Map<Seq<char>, UnivModel> {
    tabulate(
        ordered(declared(m)),
        |name: Seq<char>|
            Some(
                univ_entity(
                    name,
                    universal_decls(m)[name],
                    union_of(m),
                    universal_order(m),
                    complex_parts(universal_decls(m), corpus),
                ),
            ),
    )
}

fn write_entities(
    decls: &Table<EntitySchema>,
    unified: &UnifiedSchema,
    ranked: &Vec<&Schema>,
    parts: &NameSet,
) -> (r: Table<UnivEntity>)
    ensures
        decls@.dom().finite(),
        r@ == tabulate(
            ordered(decls@.dom()),
            |name: Seq<char>|
                Some(
                    univ_entity(
                        name,
                        decls@[name],
                        unified.view(),
                        listed_models(ranked@),
                        parts@,
                    ),
                ),
        ),
{
    let n = decls.len();
    let ghost o = ordered(decls@.dom());
    let ghost u = unified.view();
    let ghost rm = listed_models(ranked@);
    let ghost g = |name: Seq<char>| Some(univ_entity(name, decls@[name], u, rm, parts@));
    let mut out: Table<UnivEntity> = Table::new();
    let mut i: usize = 0;
    proof {
        lemma_tabulate_ends(o, g);
    }
    while i < n
        invariant
            i <= n,
            n == o.len(),
            o == ordered(decls@.dom()),
            u == unified.view(),
            rm == listed_models(ranked@),
            g == (|name: Seq<char>| Some(univ_entity(name, decls@[name], u, rm, parts@))),
            out@ == tabulate(o.take(i as int), g),
        decreases n - i,
    {
        proof {
            lemma_tabulate_next(o, i as int, g);
        }
        let name = decls.key_at(i);
        let e = decls.value_at(i);
        let row = UnivEntity {
            parents: e.parents.duplicate(),
            is_abstract: unified.abstract_entities.contains(name.as_str()),
            is_complex_part: parts.contains(name.as_str()),
            attr_conflicts: write_conflicts(&unified.attr_conflicts, name.as_str()),
            derives: write_derives(&e.derived_attrs),
            own_attrs: export_attrs(&e.own_attrs),
            redeclared_attrs: export_signals(&e.redeclared_attrs, ranked),
        };
        out.insert(name.clone(), row);
        i += 1;
    }
    proof {
        lemma_tabulate_ends(o, g);
    }
    out
}

// ---------------------------------------------------------------------
// Aliases
// ---------------------------------------------------------------------

/// The members of the selection `name` over the schemas, those of the first
/// schemas first; nothing where it is no selection in any of them.
pub open spec fn united_members(m: Seq<SchemaModel>, name: Seq<char>) -> Option<Seq<Seq<char>>>
    decreases m.len(),
{
    if m.len() == 0 {
        None
    } else {
        let before = united_members(m.drop_last(), name);
        if !m.last().types.contains_key(name) {
            before
        } else {
            match m.last().types[name].aliased {
                TypeModel::Select(members) => match before {
                    Some(acc) => Some(add_missing(acc, members)),
                    None => Some(add_missing(seq![], members)),
                },
                _ => before,
            }
        }
    }
}

/// What an alias stands for: a selection over all schemas, or else what the
/// first schema has.
pub open spec fn united_alias(m: Seq<SchemaModel>, name: Seq<char>) -> Seq<char> {
    match united_members(m, name) {
        Some(members) => "SELECT("@ + joined(members, ", "@) + ")"@,
        None => repr(first_aliased(m)[name]),
    }
}

/// The aliases of the union.
pub open spec fn univ_aliases(m: Seq<SchemaModel>) -> Map<Seq<char>, Seq<char>> {
    tabulate(ordered(first_aliased(m).dom()), |name: Seq<char>| Some(united_alias(m, name)))
}

fn unite_members(ranked: &Vec<&Schema>, name: &str) -> (r: Option<Vec<String>>)
    ensures
        r.deep_view() == united_members(listed_models(ranked@), name@),
{
    let ghost m = listed_models(ranked@);
    let mut out: Option<Vec<String>> = None;
    let mut i: usize = 0;
    assert(m.take(0) =~= seq![]);
    while i < ranked.len()
        invariant
            i <= ranked@.len(),
            m == listed_models(ranked@),
            out.deep_view() == united_members(m.take(i as int), name@),
        decreases ranked@.len() - i,
    {
        proof {
            assert(m.take(i + 1).drop_last() =~= m.take(i as int));
            assert(m.take(i + 1).last() == ranked@[i as int].view());
        }
        if let Some(td) = ranked[i].types.get(name) {
            if let AttrType::Select(members) = &td.aliased {
                let mut acc = match out {
                    Some(v) => v,
                    None => no_names(),
                };
                add_missing_names(&mut acc, members);
                out = Some(acc);
            }
        }
        i += 1;
    }
    assert(m.take(i as int) =~= m);
    out
}

fn write_united(ranked: &Vec<&Schema>) -> (r: Table<String>)
    ensures
        r@ == univ_aliases(listed_models(ranked@)),
{
    let first = first_aliases(ranked);
    let n = first.len();
    let ghost m = listed_models(ranked@);
    let ghost o = ordered(first_aliased(m).dom());
    let ghost g = |name: Seq<char>| Some(united_alias(m, name));
    let mut out: Table<String> = Table::new();
    let mut i: usize = 0;
    proof {
        lemma_tabulate_ends(o, g);
    }
    while i < n
        invariant
            i <= n,
            n == o.len(),
            m == listed_models(ranked@),
            first@ == first_aliased(m),
            o == ordered(first_aliased(m).dom()),
            g == (|name: Seq<char>| Some(united_alias(m, name))),
            out@ == tabulate(o.take(i as int), g),
        decreases n - i,
    {
        proof {
            lemma_tabulate_next(o, i as int, g);
        }
        let name = first.key_at(i);
        let text = match unite_members(ranked, name.as_str()) {
            Some(members) => join3("SELECT(", join_all(&members, ", ").as_str(), ")"),
            None => ty_repr(first.value_at(i)),
        };
        out.insert(name.clone(), text);
        i += 1;
    }
    proof {
        lemma_tabulate_ends(o, g);
    }
    out
}

/// Compiles the union.
pub fn compile_universal(schemas: &[Schema], corpus: &Table<UsageRecord>) -> (r: UniversalToml)
    ensures
        r.entity@ == univ_entities(schema_models(schemas@), corpus@),
        r.type_aliases@ == univ_aliases(universal_order(schema_models(schemas@))),
        forall|name: Seq<char>| #[trigger]
            r.entity@.contains_key(name) ==> {
                let m = schema_models(schemas@);
                &&& r.entity@[name].is_abstract <==> exists|i: int|
                    0 <= i < m.len() && (#[trigger] m[i]).entities.contains_key(name)
                        && m[i].entities[name].is_abstract
                &&& corpus@.contains_key(name) && corpus@[name].complex_part_count > 0
                    ==> r.entity@[name].is_complex_part
                &&& forall|i: int| #[trigger]
                    newest_to_declare(m, label_ranks(m), name, i) ==> r.entity@[name].parents
                        == m[i].entities[name].parents && r.entity@[name].own_attrs.len()
                        == m[i].entities[name].own_attrs.len()
            },
{
    let unified = build(schemas);
    let ranked = order_by_rank(schemas, &rank_schemas(schemas));
    let decls = first_declarations(&ranked);
    let parts = find_complex_parts(&decls, corpus);
    proof {
        let m = schema_models(schemas@);
        law_every_entity_has_a_declaration(m, label_ranks(m));
    }
    let entity = write_entities(&decls, &unified, &ranked, &parts);
    proof {
        let m = schema_models(schemas@);
        assert forall|name: Seq<char>| #[trigger] entity@.contains_key(name) implies {
            &&& entity@[name].is_abstract <==> exists|i: int|
                0 <= i < m.len() && (#[trigger] m[i]).entities.contains_key(name)
                    && m[i].entities[name].is_abstract
            &&& corpus@.contains_key(name) && corpus@[name].complex_part_count > 0
                ==> entity@[name].is_complex_part
            &&& forall|i: int| #[trigger]
                newest_to_declare(m, label_ranks(m), name, i) ==> entity@[name].parents
                    == m[i].entities[name].parents && entity@[name].own_attrs.len()
                    == m[i].entities[name].own_attrs.len()
        } by {
            law_universal_row(m, corpus@, name);
        }
    }
    UniversalToml { entity, type_aliases: write_united(&ranked) }
}

// ---------------------------------------------------------------------
// Laws
// ---------------------------------------------------------------------

/// The union has every entity that some schema declares, with the parents, the
/// attributes and the derived attributes of the newest declaration.
pub proof fn law_newest_declaration_is_exported(
    m: Seq<SchemaModel>,
    corpus: Map<Seq<char>, UsageModel>,
    name: Seq<char>,
)
    requires
        declared(m).finite(),
        declared(m).contains(name),
    ensures
        univ_entities(m, corpus).contains_key(name),
        exists|e: EntityModel| #[trigger]
            newest_declaration(m, label_ranks(m), name, e) && univ_entities(m, corpus)[name].parents
                == e.parents && univ_entities(m, corpus)[name].own_attrs == exported(e.own_attrs)
                && univ_entities(m, corpus)[name].derives == derive_texts(e.derived_attrs),
{
    let e = universal_decls(m)[name];
    law_every_entity_has_a_declaration(m, label_ranks(m));
    assert(universal_decls(m).contains_key(name));
    law_newest_declaration_counts(m, label_ranks(m), name);
    lemma_ordered(declared(m));
    assert(newest_declaration(m, label_ranks(m), name, e));
}

/// With an entity that can be a part of a complex instance its parents can be
/// one.
pub proof fn law_ancestors_of_parts_are_parts(
    decls: Decls,
    corpus: Map<Seq<char>, UsageModel>,
    x: Seq<char>,
    p: Seq<char>,
)
    requires
        complex_parts(decls, corpus).contains(x),
        decls.contains_key(x),
        decls[x].parents.contains(p),
    ensures
        complex_parts(decls, corpus).contains(p),
{
    let g = parent_graph(decls);
    let start = ordered(combinable(decls, corpus));
    assert(reachable(g, start, x));
    assert(g[x] == decls[x].parents);
    crate::graph::lemma_reach_on(g, start, x, p);
}

proof fn lemma_combining_finite(x: SuperModel, inside: bool)
    ensures
        combining(x, inside).finite(),
    decreases x, 0nat,
{
    match x {
        SuperModel::Entity(n) => {},
        SuperModel::OneOf(c) => lemma_combining_of_finite(c, inside),
        SuperModel::AndOr(c) => lemma_combining_of_finite(c, true),
        SuperModel::And(c) => lemma_combining_of_finite(c, true),
    }
}

proof fn lemma_combining_of_finite(c: Seq<SuperModel>, inside: bool)
    ensures
        combining_of(c, inside).finite(),
    decreases c, c.len(),
{
    if c.len() > 0 {
        lemma_combining_of_finite(c.drop_last(), inside);
        lemma_combining_finite(c.last(), inside);
    }
}

proof fn lemma_combined_finite(decls: Decls, keys: Seq<Seq<char>>)
    ensures
        combined_by_expr(decls, keys).finite(),
    decreases keys.len(),
{
    if keys.len() > 0 {
        lemma_combined_finite(decls, keys.drop_last());
        match decls[keys.last()].supertype_expr {
            Some(x) => lemma_combining_finite(x, false),
            None => {},
        }
    }
}

/// Every entity that can be combined can be a part of a complex instance.
pub proof fn law_combinable_are_parts(
    decls: Decls,
    corpus: Map<Seq<char>, UsageModel>,
    x: Seq<char>,
)
    requires
        decls.dom().finite(),
        combinable(decls, corpus).contains(x),
    ensures
        complex_parts(decls, corpus).contains(x),
{
    let g = parent_graph(decls);
    let start = ordered(combinable(decls, corpus));
    let named = combined_by_expr(decls, ordered(decls.dom())).union(decls.dom());
    lemma_combined_finite(decls, ordered(decls.dom()));
    assert(combinable(decls, corpus).subset_of(named));
    vstd::set_lib::lemma_set_subset_finite(named, combinable(decls, corpus));
    lemma_ordered(combinable(decls, corpus));
    assert(start.contains(x));
    assert(reached(g, start, x, 0));
}

proof fn lemma_add_missing(v: Seq<Seq<char>>, ps: Seq<Seq<char>>, x: Seq<char>)
    requires
        v.contains(x) || ps.contains(x),
    ensures
        add_missing(v, ps).contains(x),
    decreases ps.len(),
{
    if ps.len() > 0 {
        let before = add_missing(v, ps.drop_last());
        if v.contains(x) {
            lemma_add_missing(v, ps.drop_last(), x);
        } else {
            let i = choose|i: int| 0 <= i < ps.len() && ps[i] == x;
            if i < ps.len() - 1 {
                assert(ps.drop_last()[i] == x);
                lemma_add_missing(v, ps.drop_last(), x);
            }
        }
        if before.contains(x) {
            let i = choose|i: int| 0 <= i < before.len() && before[i] == x;
            assert(before.push(ps.last())[i] == x);
        } else {
            assert(before.push(ps.last())[before.len() as int] == ps.last());
        }
    }
}

/// A member of a selection in any schema is a member in the union.
pub proof fn law_members_are_united(
    m: Seq<SchemaModel>,
    i: int,
    name: Seq<char>,
    members: Seq<Seq<char>>,
    x: Seq<char>,
)
    requires
        0 <= i < m.len(),
        m[i].types.contains_key(name),
        m[i].types[name].aliased == TypeModel::Select(members),
        members.contains(x),
    ensures
        united_members(m, name) matches Some(all) && all.contains(x),
    decreases m.len(),
{
    if i < m.len() - 1 {
        law_members_are_united(m.drop_last(), i, name, members, x);
        let acc = united_members(m.drop_last(), name)->0;
        if m.last().types.contains_key(name) {
            match m.last().types[name].aliased {
                TypeModel::Select(more) => {
                    lemma_add_missing(acc, more, x);
                },
                _ => {},
            }
        }
    } else {
        match united_members(m.drop_last(), name) {
            Some(acc) => {
                lemma_add_missing(acc, members, x);
            },
            None => {
                lemma_add_missing(seq![], members, x);
            },
        }
    }
}

} // verus!
