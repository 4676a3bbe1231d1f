//! What the union of the schemas holds, in terms of the schemas.

use crate::express::{SchemaModel, TypeModel};
use crate::graph::{closure_of, reachable, reached, Graph};
use crate::infer::export_laws::{
    finite_schemas, law_names_are_added_once, some_schema_declares,
};
use crate::infer::refgraph::{
    add_missing, alias_graph, all_edges, attr_edges, conflict, conflicts, declared,
    declared_types, differing, first_alias, first_supertype, first_types, is_abstract,
    mentioned, merged_parents, row_attrs, rows, rows_of, schema_rows, target_edges, union_of,
    EdgeModel, RowModel, TargetModel,
};
use crate::names::{lemma_ordered, ordered};
use vstd::prelude::*;

verus! {

// ---------------------------------------------------------------------
// Entities
// ---------------------------------------------------------------------

proof fn lemma_declared(m: Seq<SchemaModel>, e: Seq<char>)
    ensures
        declared(m).contains(e) <==> some_schema_declares(m, e),
    decreases m.len(),
{
    if m.len() > 0 {
        let d = m.drop_last();
        lemma_declared(d, e);
        assert(m[m.len() - 1] == m.last());
        if some_schema_declares(d, e) {
            let i = choose|i: int| 0 <= i < d.len() && (#[trigger] d[i]).entities.contains_key(e);
            assert(m[i].entities.contains_key(e));
        }
        if some_schema_declares(m, e) {
            let i = choose|i: int| 0 <= i < m.len() && (#[trigger] m[i]).entities.contains_key(e);
            if i < d.len() {
                assert(d[i].entities.contains_key(e));
            }
        }
    }
}

proof fn lemma_declared_finite(m: Seq<SchemaModel>)
    requires
        finite_schemas(m),
    ensures
        declared(m).finite(),
        declared_types(m).finite(),
    decreases m.len(),
{
    if m.len() > 0 {
        let d = m.drop_last();
        assert forall|i: int| 0 <= i < d.len() implies (#[trigger] d[i]).entities.dom().finite()
            && d[i].types.dom().finite() by {
            assert(m[i].entities.dom().finite());
        }
        lemma_declared_finite(d);
        assert(m[m.len() - 1].entities.dom().finite());
    }
}

proof fn lemma_listed(m: Seq<SchemaModel>, e: Seq<char>)
    requires
        finite_schemas(m),
    ensures
        ordered(declared(m)).contains(e) <==> some_schema_declares(m, e),
{
    lemma_declared(m, e);
    lemma_declared_finite(m);
    lemma_ordered(declared(m));
}

/// Whether some schema has `p` among the parents of `e`.
pub open spec fn some_schema_derives(m: Seq<SchemaModel>, e: Seq<char>, p: Seq<char>) -> bool {
    exists|i: int|
        0 <= i < m.len() && (#[trigger] m[i]).entities.contains_key(e)
            && m[i].entities[e].parents.contains(p)
}

proof fn lemma_parents(m: Seq<SchemaModel>, e: Seq<char>, p: Seq<char>)
    ensures
        merged_parents(m, e).contains(p) <==> some_schema_derives(m, e, p),
        merged_parents(m, e).no_duplicates(),
    decreases m.len(),
{
    if m.len() > 0 {
        let d = m.drop_last();
        lemma_parents(d, e, p);
        assert(m[m.len() - 1] == m.last());
        if m.last().entities.contains_key(e) {
            law_names_are_added_once(merged_parents(d, e), m.last().entities[e].parents, p);
        }
        if some_schema_derives(d, e, p) {
            let i = choose|i: int|
                0 <= i < d.len() && (#[trigger] d[i]).entities.contains_key(e)
                    && d[i].entities[e].parents.contains(p);
            assert(m[i].entities.contains_key(e));
        }
        if some_schema_derives(m, e, p) {
            let i = choose|i: int|
                0 <= i < m.len() && (#[trigger] m[i]).entities.contains_key(e)
                    && m[i].entities[e].parents.contains(p);
            if i < d.len() {
                assert(d[i].entities.contains_key(e));
            }
        }
    }
}

/// The union has every entity that some schema declares, and no other; its parents
/// are those that some schema gives it, each once.
pub proof fn law_union_of_parents(m: Seq<SchemaModel>, e: Seq<char>, p: Seq<char>)
    requires
        finite_schemas(m),
    ensures
        union_of(m).entity_parents.contains_key(e) <==> some_schema_declares(m, e),
        some_schema_declares(m, e) ==> (union_of(m).entity_parents[e].contains(p)
            <==> some_schema_derives(m, e, p)),
        some_schema_declares(m, e) ==> union_of(m).entity_parents[e].no_duplicates(),
{
    lemma_listed(m, e);
    lemma_parents(m, e, p);
}

/// The parents that earlier schemas give stand before those that a later one adds.
pub proof fn law_earlier_parents_come_first(m: Seq<SchemaModel>, s: SchemaModel, e: Seq<char>)
    ensures
        merged_parents(m, e).len() <= merged_parents(m.push(s), e).len(),
        merged_parents(m.push(s), e).take(merged_parents(m, e).len() as int) == merged_parents(
            m,
            e,
        ),
{
    assert(m.push(s).drop_last() =~= m);
    if s.entities.contains_key(e) {
        law_names_are_added_once(merged_parents(m, e), s.entities[e].parents, e);
    } else {
        assert(merged_parents(m, e).take(merged_parents(m, e).len() as int) =~= merged_parents(
            m,
            e,
        ));
    }
}

/// The parents of an entity of one schema stay in their order.
pub proof fn law_parents_of_one_schema(s: SchemaModel, e: Seq<char>)
    requires
        s.entities.contains_key(e),
        s.entities[e].parents.no_duplicates(),
    ensures
        merged_parents(seq![s], e) == s.entities[e].parents,
{
    let q = seq![s];
    assert(q.drop_last() =~= seq![]);
    reveal_with_fuel(merged_parents, 2);
    lemma_add_to_none(s.entities[e].parents);
}

proof fn lemma_add_to_none(ps: Seq<Seq<char>>)
    requires
        ps.no_duplicates(),
    ensures
        add_missing(seq![], ps) == ps,
    decreases ps.len(),
{
    if ps.len() > 0 {
        let d = ps.drop_last();
        assert forall|i: int, j: int| 0 <= i < d.len() && 0 <= j < d.len() && i != j implies d[i]
            != d[j] by {
            assert(d[i] == ps[i] && d[j] == ps[j]);
        }
        lemma_add_to_none(d);
        if d.contains(ps.last()) {
            let i = choose|i: int| 0 <= i < d.len() && d[i] == ps.last();
            assert(ps[i] == ps[ps.len() - 1]);
        }
        assert(d.push(ps.last()) =~= ps);
    }
}

/// An entity of the union is abstract if it is so in some schema.
pub proof fn law_union_of_flags(m: Seq<SchemaModel>, e: Seq<char>)
    requires
        finite_schemas(m),
    ensures
        union_of(m).abstract_entities.contains(e) <==> exists|i: int|
            0 <= i < m.len() && (#[trigger] m[i]).entities.contains_key(e)
                && m[i].entities[e].is_abstract,
{
    lemma_listed(m, e);
    if is_abstract(m, e) {
        let i = choose|i: int|
            0 <= i < m.len() && #[trigger] m[i].entities.contains_key(e)
                && m[i].entities[e].is_abstract;
        assert(m[i].entities.contains_key(e));
    }
}

/// Whether schema `i` is the first with a clause for `e`.
pub open spec fn first_with_clause(m: Seq<SchemaModel>, e: Seq<char>, i: int) -> bool {
    &&& 0 <= i < m.len()
    &&& m[i].entities.contains_key(e)
    &&& m[i].entities[e].supertype_expr is Some
    &&& forall|j: int|
        0 <= j < i ==> !((#[trigger] m[j]).entities.contains_key(e)
            && m[j].entities[e].supertype_expr is Some)
}

proof fn lemma_first_clause(m: Seq<SchemaModel>, e: Seq<char>)
    ensures
        first_supertype(m, e) is Some <==> exists|i: int|
            0 <= i < m.len() && (#[trigger] m[i]).entities.contains_key(e)
                && m[i].entities[e].supertype_expr is Some,
        forall|i: int| #[trigger]
            first_with_clause(m, e, i) ==> first_supertype(m, e)
                == m[i].entities[e].supertype_expr,
    decreases m.len(),
{
    if m.len() > 0 {
        let d = m.drop_last();
        lemma_first_clause(d, e);
        assert(m[m.len() - 1] == m.last());
        assert forall|i: int| 0 <= i < d.len() implies #[trigger] m[i] == d[i] by {}
        if exists|i: int|
            0 <= i < d.len() && (#[trigger] d[i]).entities.contains_key(e)
                && d[i].entities[e].supertype_expr is Some {
            let i = choose|i: int|
                0 <= i < d.len() && (#[trigger] d[i]).entities.contains_key(e)
                    && d[i].entities[e].supertype_expr is Some;
            assert(m[i].entities.contains_key(e));
        }
        if exists|i: int|
            0 <= i < m.len() && (#[trigger] m[i]).entities.contains_key(e)
                && m[i].entities[e].supertype_expr is Some {
            let i = choose|i: int|
                0 <= i < m.len() && (#[trigger] m[i]).entities.contains_key(e)
                    && m[i].entities[e].supertype_expr is Some;
            if i < d.len() {
                assert(d[i].entities.contains_key(e));
            }
        }
        assert forall|i: int| #[trigger] first_with_clause(m, e, i) implies first_supertype(m, e)
            == m[i].entities[e].supertype_expr by {
            if i < d.len() {
                assert(first_with_clause(d, e, i)) by {
                    assert forall|j: int| 0 <= j < i implies !((#[trigger] d[j]).entities.contains_key(
                        e,
                    ) && d[j].entities[e].supertype_expr is Some) by {
                        assert(m[j] == d[j]);
                    }
                }
                assert(d[i].entities.contains_key(e));
            } else if first_supertype(d, e) is Some {
                let j = choose|j: int|
                    0 <= j < d.len() && (#[trigger] d[j]).entities.contains_key(e)
                        && d[j].entities[e].supertype_expr is Some;
                assert(m[j].entities.contains_key(e));
            }
        }
    }
}

/// The clause of an entity in the union is the first that a schema gives it.
pub proof fn law_union_of_clauses(m: Seq<SchemaModel>, e: Seq<char>)
    requires
        finite_schemas(m),
    ensures
        union_of(m).supertype_exprs.contains_key(e) <==> exists|i: int|
            0 <= i < m.len() && (#[trigger] m[i]).entities.contains_key(e)
                && m[i].entities[e].supertype_expr is Some,
        forall|i: int| #[trigger]
            first_with_clause(m, e, i) ==> union_of(m).supertype_exprs.contains_key(e) && Some(
                union_of(m).supertype_exprs[e],
            ) == m[i].entities[e].supertype_expr,
{
    lemma_listed(m, e);
    lemma_first_clause(m, e);
    if exists|i: int|
        0 <= i < m.len() && (#[trigger] m[i]).entities.contains_key(e)
            && m[i].entities[e].supertype_expr is Some {
        let i = choose|i: int|
            0 <= i < m.len() && (#[trigger] m[i]).entities.contains_key(e)
                && m[i].entities[e].supertype_expr is Some;
        assert(m[i].entities.contains_key(e));
    }
    assert forall|i: int| #[trigger] first_with_clause(m, e, i) implies union_of(
        m,
    ).supertype_exprs.contains_key(e) && Some(union_of(m).supertype_exprs[e])
        == m[i].entities[e].supertype_expr by {
        assert(m[i].entities.contains_key(e));
    }
}

// ---------------------------------------------------------------------
// Attributes
// ---------------------------------------------------------------------

/// Whether attribute `j` of `e` in schema `i` is called `a`.
pub open spec fn names_attr(m: Seq<SchemaModel>, e: Seq<char>, a: Seq<char>, i: int, j: int) -> bool {
    &&& 0 <= i < m.len()
    &&& m[i].entities.contains_key(e)
    &&& 0 <= j < m[i].entities[e].own_attrs.len()
    &&& m[i].entities[e].own_attrs[j].name == a
}

/// The row of attribute `j` of `e` in schema `i`.
spec fn row_at(m: Seq<SchemaModel>, e: Seq<char>, i: int, j: int) -> RowModel {
    RowModel {
        attr: m[i].entities[e].own_attrs[j].name,
        label: m[i].source_label,
        ty: m[i].entities[e].own_attrs[j].ty,
    }
}

proof fn lemma_rows_hold(m: Seq<SchemaModel>, e: Seq<char>, a: Seq<char>, i: int, j: int)
    requires
        names_attr(m, e, a, i, j),
    ensures
        rows_of(rows(m, e), a).contains(row_at(m, e, i, j)),
    decreases m.len(),
{
    let d = m.drop_last();
    let r = row_at(m, e, i, j);
    assert(m[m.len() - 1] == m.last());
    if i < d.len() {
        assert(d[i] == m[i]);
        lemma_rows_hold(d, e, a, i, j);
    }
    if m.last().entities.contains_key(e) {
        let more = schema_rows(m.last().source_label, m.last().entities[e].own_attrs);
        lemma_rows_of_concat(rows(d, e), more, a);
        let q = rows_of(rows(d, e), a);
        let w = rows_of(more, a);
        if i < d.len() {
            let k = choose|k: int| 0 <= k < q.len() && q[k] == r;
            assert((q + w)[k] == r);
        } else {
            assert(more[j] == r);
            lemma_rows_of_has(more, a, j);
            let k = choose|k: int| 0 <= k < w.len() && w[k] == r;
            assert((q + w)[q.len() + k] == r);
        }
    }
}

proof fn lemma_rows_of_concat(x: Seq<RowModel>, y: Seq<RowModel>, a: Seq<char>)
    ensures
        rows_of(x + y, a) == rows_of(x, a) + rows_of(y, a),
    decreases y.len(),
{
    if y.len() == 0 {
        assert(x + y =~= x);
        assert(rows_of(x, a) + rows_of(y, a) =~= rows_of(x, a));
    } else {
        lemma_rows_of_concat(x, y.drop_last(), a);
        assert((x + y).drop_last() =~= x + y.drop_last());
        assert((x + y).last() == y.last());
        assert(rows_of(x + y, a) =~= rows_of(x, a) + rows_of(y, a));
    }
}

proof fn lemma_rows_of_has(x: Seq<RowModel>, a: Seq<char>, j: int)
    requires
        0 <= j < x.len(),
        x[j].attr == a,
    ensures
        rows_of(x, a).contains(x[j]),
    decreases x.len(),
{
    let d = x.drop_last();
    let q = rows_of(d, a);
    if j < d.len() {
        lemma_rows_of_has(d, a, j);
        let k = choose|k: int| 0 <= k < q.len() && q[k] == x[j];
        assert(rows_of(x, a)[k] == x[j]);
    } else {
        assert(rows_of(x, a)[q.len() as int] == x[j]);
    }
}

/// Where each row of an attribute comes from.
proof fn lemma_row_source(m: Seq<SchemaModel>, e: Seq<char>, a: Seq<char>, k: int) -> (ij: (
    int,
    int,
))
    requires
        0 <= k < rows_of(rows(m, e), a).len(),
    ensures
        names_attr(m, e, a, ij.0, ij.1),
        rows_of(rows(m, e), a)[k] == row_at(m, e, ij.0, ij.1),
        k == 0 ==> forall|i: int, j: int| #[trigger]
            names_attr(m, e, a, i, j) ==> ij.0 < i || (ij.0 == i && ij.1 <= j),
    decreases m.len(),
{
    if m.len() == 0 {
        (0, 0)
    } else {
        let d = m.drop_last();
        let last = m.len() - 1;
        assert(m[last] == m.last());
        assert forall|i: int| 0 <= i < d.len() implies #[trigger] m[i] == d[i] by {}
        let q = rows_of(rows(d, e), a);
        if m.last().entities.contains_key(e) {
            let more = schema_rows(m.last().source_label, m.last().entities[e].own_attrs);
            lemma_rows_of_concat(rows(d, e), more, a);
            if k < q.len() {
                let (i, j) = lemma_row_source(d, e, a, k);
                lemma_no_earlier(m, e, a, i, j, k);
                (i, j)
            } else {
                let j = lemma_row_place(more, a, k - q.len());
                if k == 0 {
                    assert forall|i: int, h: int| #[trigger] names_attr(m, e, a, i, h) implies last
                        < i || (last == i && j <= h) by {
                        if i < last {
                            assert(names_attr(d, e, a, i, h));
                            lemma_rows_hold(d, e, a, i, h);
                        } else {
                            assert(more[h].attr == a);
                        }
                    }
                }
                (last, j)
            }
        } else {
            let (i, j) = lemma_row_source(d, e, a, k);
            lemma_no_earlier(m, e, a, i, j, k);
            (i, j)
        }
    }
}

proof fn lemma_no_earlier(m: Seq<SchemaModel>, e: Seq<char>, a: Seq<char>, i0: int, j0: int, k: int)
    requires
        m.len() > 0,
        names_attr(m.drop_last(), e, a, i0, j0),
        k == 0 ==> forall|i: int, j: int| #[trigger]
            names_attr(m.drop_last(), e, a, i, j) ==> i0 < i || (i0 == i && j0 <= j),
    ensures
        names_attr(m, e, a, i0, j0),
        row_at(m, e, i0, j0) == row_at(m.drop_last(), e, i0, j0),
        k == 0 ==> forall|i: int, j: int| #[trigger]
            names_attr(m, e, a, i, j) ==> i0 < i || (i0 == i && j0 <= j),
{
    let d = m.drop_last();
    assert(m[i0] == d[i0]);
    if k == 0 {
        assert forall|i: int, j: int| #[trigger] names_attr(m, e, a, i, j) implies i0 < i || (i0 == i
            && j0 <= j) by {
            if i < d.len() {
                assert(m[i] == d[i]);
                assert(names_attr(d, e, a, i, j));
            }
        }
    }
}

proof fn lemma_row_place(x: Seq<RowModel>, a: Seq<char>, k: int) -> (j: int)
    requires
        0 <= k < rows_of(x, a).len(),
    ensures
        0 <= j < x.len(),
        x[j].attr == a,
        rows_of(x, a)[k] == x[j],
        k == 0 ==> forall|h: int| 0 <= h < j ==> (#[trigger] x[h]).attr != a,
    decreases x.len(),
{
    if x.len() == 0 {
        0
    } else {
        let d = x.drop_last();
        let q = rows_of(d, a);
        if k < q.len() {
            let j = lemma_row_place(d, a, k);
            assert(x[j] == d[j]);
            assert forall|h: int| k == 0 && 0 <= h < j implies (#[trigger] x[h]).attr != a by {
                assert(x[h] == d[h]);
            }
            j
        } else {
            let last = x.len() - 1;
            if k == 0 {
                assert forall|h: int| 0 <= h < last implies (#[trigger] x[h]).attr != a by {
                    if x[h].attr == a {
                        assert(d[h] == x[h]);
                        lemma_rows_of_has(d, a, h);
                    }
                }
            }
            last
        }
    }
}

proof fn lemma_attr_rows(m: Seq<SchemaModel>, e: Seq<char>, a: Seq<char>)
    ensures
        rows_of(rows(m, e), a).len() > 0 <==> exists|i: int, j: int| #[trigger]
            names_attr(m, e, a, i, j),
        row_attrs(rows(m, e)).contains(a) <==> exists|i: int, j: int| #[trigger]
            names_attr(m, e, a, i, j),
        row_attrs(rows(m, e)).finite(),
{
    crate::infer::refgraph::lemma_rows_of(rows(m, e), a);
    vstd::seq_lib::seq_to_set_is_finite(rows(m, e).map_values(|r: RowModel| r.attr));
    if rows_of(rows(m, e), a).len() > 0 {
        let (i, j) = lemma_row_source(m, e, a, 0);
        assert(names_attr(m, e, a, i, j));
    }
    if exists|i: int, j: int| #[trigger] names_attr(m, e, a, i, j) {
        let (i, j) = choose|i: int, j: int| #[trigger] names_attr(m, e, a, i, j);
        lemma_rows_hold(m, e, a, i, j);
    }
}

/// The attributes of an entity in the union are those that some schema gives it.
pub proof fn law_union_of_attributes(m: Seq<SchemaModel>, e: Seq<char>, a: Seq<char>)
    requires
        finite_schemas(m),
    ensures
        union_of(m).entity_attrs.contains_key(e) <==> some_schema_declares(m, e),
        union_of(m).entity_attr_types.contains_key(e) <==> some_schema_declares(m, e),
        some_schema_declares(m, e) ==> {
            &&& union_of(m).entity_attrs[e].contains(a) <==> exists|i: int, j: int| #[trigger]
                names_attr(m, e, a, i, j)
            &&& union_of(m).entity_attr_types[e].contains_key(a) <==> exists|i: int, j: int| #[trigger]
                names_attr(m, e, a, i, j)
        },
{
    lemma_listed(m, e);
    lemma_attr_rows(m, e, a);
    lemma_ordered(row_attrs(rows(m, e)));
}

/// Whether attribute `j` of `e` in schema `i` is the first called `a`.
pub open spec fn first_to_name(
    m: Seq<SchemaModel>,
    e: Seq<char>,
    a: Seq<char>,
    i: int,
    j: int,
) -> bool {
    &&& names_attr(m, e, a, i, j)
    &&& forall|i2: int, j2: int| #[trigger]
        names_attr(m, e, a, i2, j2) ==> i < i2 || (i == i2 && j <= j2)
}

/// The type of an attribute in the union is the one it has first.
pub proof fn law_union_of_types(m: Seq<SchemaModel>, e: Seq<char>, a: Seq<char>, i: int, j: int)
    requires
        finite_schemas(m),
        first_to_name(m, e, a, i, j),
    ensures
        union_of(m).entity_attr_types.contains_key(e),
        union_of(m).entity_attr_types[e].contains_key(a),
        union_of(m).entity_attr_types[e][a] == m[i].entities[e].own_attrs[j].ty,
{
    assert(m[i].entities.contains_key(e));
    law_union_of_attributes(m, e, a);
    lemma_listed(m, e);
    lemma_attr_rows(m, e, a);
    let (i0, j0) = lemma_row_source(m, e, a, 0);
    assert(names_attr(m, e, a, i0, j0));
    assert(names_attr(m, e, a, i, j));
}

proof fn lemma_differ(rs: Seq<RowModel>, ty: TypeModel)
    ensures
        differing(rs, ty).len() > 0 <==> exists|k: int|
            0 <= k < rs.len() && (#[trigger] rs[k]).ty != ty,
    decreases rs.len(),
{
    if rs.len() > 0 {
        let d = rs.drop_last();
        lemma_differ(d, ty);
        assert(rs[rs.len() - 1] == rs.last());
        if exists|k: int| 0 <= k < d.len() && (#[trigger] d[k]).ty != ty {
            let k = choose|k: int| 0 <= k < d.len() && (#[trigger] d[k]).ty != ty;
            assert(rs[k].ty != ty);
        }
        if exists|k: int| 0 <= k < rs.len() && (#[trigger] rs[k]).ty != ty {
            let k = choose|k: int| 0 <= k < rs.len() && (#[trigger] rs[k]).ty != ty;
            if k < d.len() {
                assert(d[k].ty != ty);
            }
        }
    }
}

/// Whether two declarations give the attribute different types.
pub open spec fn types_differ(m: Seq<SchemaModel>, e: Seq<char>, a: Seq<char>) -> bool {
    exists|i: int, j: int, i2: int, j2: int| #[trigger]
        names_attr(m, e, a, i, j) && #[trigger] names_attr(m, e, a, i2, j2)
            && m[i].entities[e].own_attrs[j].ty != m[i2].entities[e].own_attrs[j2].ty
}

/// The conflicts of the union are the attributes that two declarations give
/// different types.
pub proof fn law_union_of_conflicts(m: Seq<SchemaModel>, e: Seq<char>, a: Seq<char>)
    requires
        finite_schemas(m),
    ensures
        union_of(m).attr_conflicts.contains_key(e) && union_of(m).attr_conflicts[e].contains_key(a)
            <==> types_differ(m, e, a),
{
    let rs = rows(m, e);
    let mine = rows_of(rs, a);
    lemma_listed(m, e);
    lemma_attr_rows(m, e, a);
    lemma_ordered(row_attrs(rs));
    if mine.len() > 0 {
        lemma_differ(mine, mine[0].ty);
        if conflict(mine) is Some {
            let k = choose|k: int| 0 <= k < mine.len() && (#[trigger] mine[k]).ty != mine[0].ty;
            let (i, j) = lemma_row_source(m, e, a, 0);
            let (i2, j2) = lemma_row_source(m, e, a, k);
            assert(names_attr(m, e, a, i, j) && names_attr(m, e, a, i2, j2));
            assert(m[i].entities.contains_key(e));
        }
    }
    if types_differ(m, e, a) {
        let (i, j, i2, j2) = choose|i: int, j: int, i2: int, j2: int| #[trigger]
            names_attr(m, e, a, i, j) && #[trigger] names_attr(m, e, a, i2, j2)
                && m[i].entities[e].own_attrs[j].ty != m[i2].entities[e].own_attrs[j2].ty;
        lemma_rows_hold(m, e, a, i, j);
        lemma_rows_hold(m, e, a, i2, j2);
        let k = choose|k: int| 0 <= k < mine.len() && mine[k] == row_at(m, e, i, j);
        let k2 = choose|k: int| 0 <= k < mine.len() && mine[k] == row_at(m, e, i2, j2);
        assert(mine[k].ty != mine[k2].ty);
        assert(mine[k].ty != mine[0].ty || mine[k2].ty != mine[0].ty);
        assert(conflict(mine) is Some);
        assert(conflicts(rs).contains_key(a));
        assert(m[i].entities.contains_key(e));
    }
    if conflict(mine) is Some && mine.len() > 0 {
        assert(conflicts(rs).contains_key(a));
        assert(conflicts(rs) != Map::<Seq<char>, Seq<Seq<char>>>::empty());
    }
}

// ---------------------------------------------------------------------
// References
// ---------------------------------------------------------------------

proof fn lemma_last_or_before<A>(q: Seq<A>, x: A)
    requires
        q.len() > 0,
    ensures
        q.contains(x) <==> q.drop_last().contains(x) || x == q.last(),
{
    let d = q.drop_last();
    if q.contains(x) {
        let i = choose|i: int| 0 <= i < q.len() && q[i] == x;
        if i < d.len() {
            assert(d[i] == x);
        }
    }
    if d.contains(x) {
        let i = choose|i: int| 0 <= i < d.len() && d[i] == x;
        assert(q[i] == x);
    }
    assert(q[q.len() - 1] == q.last());
}

proof fn lemma_either<A>(a: Seq<A>, b: Seq<A>, y: A)
    ensures
        (a + b).contains(y) <==> a.contains(y) || b.contains(y),
{
    let c = a + b;
    if a.contains(y) {
        let i = choose|i: int| 0 <= i < a.len() && a[i] == y;
        assert(c[i] == y);
    }
    if b.contains(y) {
        let i = choose|i: int| 0 <= i < b.len() && b[i] == y;
        assert(c[a.len() + i] == y);
    }
    if c.contains(y) {
        let i = choose|i: int| 0 <= i < c.len() && c[i] == y;
        if i < a.len() {
            assert(a[i] == y);
        } else {
            assert(b[i - a.len()] == y);
        }
    }
}

/// What edge there is from an attribute to a name that its type leads to.
spec fn edge_kind(entities: Set<Seq<char>>, aliases: Graph, t: TargetModel) -> bool {
    match t {
        TargetModel::Entity(x) => entities.contains(x),
        TargetModel::Undeclared(x) => !entities.contains(x) && !aliases.contains_key(x),
    }
}

spec fn target_name(t: TargetModel) -> Seq<char> {
    match t {
        TargetModel::Entity(x) => x,
        TargetModel::Undeclared(x) => x,
    }
}

proof fn lemma_target_edges(
    entities: Set<Seq<char>>,
    aliases: Graph,
    e: Seq<char>,
    a: Seq<char>,
    xs: Seq<Seq<char>>,
    g: EdgeModel,
)
    ensures
        target_edges(entities, aliases, e, a, xs).contains(g) <==> g.entity == e && g.attr == a
            && xs.contains(target_name(g.target)) && edge_kind(entities, aliases, g.target),
    decreases xs.len(),
{
    if xs.len() > 0 {
        lemma_target_edges(entities, aliases, e, a, xs.drop_last(), g);
        lemma_last_or_before(xs, target_name(g.target));
        let before = target_edges(entities, aliases, e, a, xs.drop_last());
        let all = target_edges(entities, aliases, e, a, xs);
        if all.len() > before.len() {
            assert(all.drop_last() =~= before);
            lemma_last_or_before(all, g);
        }
    }
}

proof fn lemma_closure_finite(g: Graph, names: Seq<Seq<char>>)
    requires
        g.dom().finite(),
    ensures
        closure_of(g, names).finite(),
{
    let keys = ordered(g.dom());
    lemma_ordered(g.dom());
    let all = gathered_names(g, keys).union(names.to_set());
    vstd::seq_lib::seq_to_set_is_finite(names);
    lemma_gathered_finite(g, keys);
    assert forall|x: Seq<char>| closure_of(g, names).contains(x) implies all.contains(x) by {
        let n = choose|n: nat| reached(g, names, x, n);
        lemma_reached_is_named(g, names, x, n);
    }
    vstd::set_lib::lemma_len_subset(closure_of(g, names), all);
}

spec fn gathered_names(g: Graph, keys: Seq<Seq<char>>) -> Set<Seq<char>>
    decreases keys.len(),
{
    if keys.len() == 0 {
        Set::empty()
    } else {
        gathered_names(g, keys.drop_last()).union(g[keys.last()].to_set())
    }
}

proof fn lemma_gathered_finite(g: Graph, keys: Seq<Seq<char>>)
    ensures
        gathered_names(g, keys).finite(),
        forall|k: Seq<char>, x: Seq<char>|
            keys.contains(k) && #[trigger] g[k].contains(x) ==> gathered_names(g, keys).contains(x),
    decreases keys.len(),
{
    if keys.len() > 0 {
        lemma_gathered_finite(g, keys.drop_last());
        vstd::seq_lib::seq_to_set_is_finite(g[keys.last()]);
        assert forall|k: Seq<char>, x: Seq<char>|
            keys.contains(k) && #[trigger] g[k].contains(x) implies gathered_names(
            g,
            keys,
        ).contains(x) by {
            lemma_last_or_before(keys, k);
        }
    }
}

proof fn lemma_reached_is_named(g: Graph, names: Seq<Seq<char>>, x: Seq<char>, n: nat)
    requires
        g.dom().finite(),
        reached(g, names, x, n),
    ensures
        names.contains(x) || gathered_names(g, ordered(g.dom())).contains(x),
    decreases n,
{
    if n > 0 {
        let p = choose|p: Seq<char>|
            #[trigger] names.contains(p) && g.contains_key(p) && reached(
                g,
                g[p],
                x,
                (n - 1) as nat,
            );
        lemma_reached_is_named(g, g[p], x, (n - 1) as nat);
        lemma_ordered(g.dom());
        lemma_gathered_finite(g, ordered(g.dom()));
        assert(ordered(g.dom()).contains(p));
    }
}

proof fn lemma_attr_edges(
    entities: Set<Seq<char>>,
    aliases: Graph,
    e: Seq<char>,
    types: Map<Seq<char>, TypeModel>,
    attrs: Seq<Seq<char>>,
    g: EdgeModel,
)
    requires
        aliases.dom().finite(),
    ensures
        attr_edges(entities, aliases, e, types, attrs).contains(g) <==> g.entity == e
            && attrs.contains(g.attr) && reachable(
            aliases,
            mentioned(types[g.attr]),
            target_name(g.target),
        ) && edge_kind(entities, aliases, g.target),
    decreases attrs.len(),
{
    if attrs.len() > 0 {
        let d = attrs.drop_last();
        let a = attrs.last();
        lemma_attr_edges(entities, aliases, e, types, d, g);
        let reach = closure_of(aliases, mentioned(types[a]));
        lemma_closure_finite(aliases, mentioned(types[a]));
        lemma_ordered(reach);
        lemma_target_edges(entities, aliases, e, a, ordered(reach), g);
        let to = target_name(g.target);
        assert(ordered(reach).contains(to) == reach.contains(to));
        assert(reach.contains(to) == reachable(aliases, mentioned(types[a]), to));
        lemma_either(
            attr_edges(entities, aliases, e, types, d),
            target_edges(entities, aliases, e, a, ordered(reach)),
            g,
        );
        lemma_last_or_before(attrs, g.attr);
    }
}

proof fn lemma_all_edges(m: Seq<SchemaModel>, es: Seq<Seq<char>>, g: EdgeModel)
    requires
        finite_schemas(m),
    ensures
        all_edges(m, es).contains(g) <==> es.contains(g.entity) && (exists|i: int, j: int| #[trigger]
            names_attr(m, g.entity, g.attr, i, j)) && reachable(
            alias_graph(m),
            mentioned(first_types(rows(m, g.entity))[g.attr]),
            target_name(g.target),
        ) && edge_kind(declared(m), alias_graph(m), g.target),
    decreases es.len(),
{
    if es.len() > 0 {
        let d = es.drop_last();
        let e = es.last();
        lemma_all_edges(m, d, g);
        lemma_aliases_finite(m);
        let types = first_types(rows(m, e));
        lemma_attr_rows(m, e, g.attr);
        lemma_ordered(row_attrs(rows(m, e)));
        assert(types.dom() =~= row_attrs(rows(m, e)));
        lemma_ordered(types.dom());
        lemma_attr_edges(declared(m), alias_graph(m), e, types, ordered(types.dom()), g);
        lemma_either(
            all_edges(m, d),
            attr_edges(declared(m), alias_graph(m), e, types, ordered(types.dom())),
            g,
        );
        lemma_last_or_before(es, g.entity);
    }
}

proof fn lemma_aliases_finite(m: Seq<SchemaModel>)
    requires
        finite_schemas(m),
    ensures
        alias_graph(m).dom().finite(),
{
    lemma_declared_finite(m);
    let keys = ordered(declared_types(m));
    lemma_ordered(declared_types(m));
    assert(alias_graph(m).dom().subset_of(declared_types(m))) by {
        assert forall|n: Seq<char>| alias_graph(m).contains_key(n) implies declared_types(
            m,
        ).contains(n) by {
            assert(keys.contains(n));
        }
    }
    vstd::set_lib::lemma_len_subset(alias_graph(m).dom(), declared_types(m));
}

/// The references of the union: each attribute of an entity refers to the entities
/// that its type leads to, through aliases, and to names that nothing declares.
pub proof fn law_union_of_references(
    m: Seq<SchemaModel>,
    e: Seq<char>,
    a: Seq<char>,
    i: int,
    j: int,
    x: Seq<char>,
)
    requires
        finite_schemas(m),
        first_to_name(m, e, a, i, j),
    ensures
        union_of(m).edges.contains(
            (EdgeModel { entity: e, attr: a, target: TargetModel::Entity(x) }),
        ) <==> some_schema_declares(m, x) && reachable(
            alias_graph(m),
            mentioned(m[i].entities[e].own_attrs[j].ty),
            x,
        ),
        union_of(m).edges.contains(
            (EdgeModel { entity: e, attr: a, target: TargetModel::Undeclared(x) }),
        ) <==> !some_schema_declares(m, x) && !alias_graph(m).contains_key(x) && reachable(
            alias_graph(m),
            mentioned(m[i].entities[e].own_attrs[j].ty),
            x,
        ),
{
    let g1 = EdgeModel { entity: e, attr: a, target: TargetModel::Entity(x) };
    let g2 = EdgeModel { entity: e, attr: a, target: TargetModel::Undeclared(x) };
    assert(m[i].entities.contains_key(e));
    lemma_listed(m, e);
    lemma_declared(m, x);
    lemma_all_edges(m, ordered(declared(m)), g1);
    lemma_all_edges(m, ordered(declared(m)), g2);
    law_union_of_types(m, e, a, i, j);
    assert(names_attr(m, e, a, i, j));
    assert(union_of(m).entity_attr_types[e] == first_types(rows(m, e)));
    assert(some_schema_declares(m, e));
    assert(ordered(declared(m)).contains(g1.entity));
    let ty = m[i].entities[e].own_attrs[j].ty;
    assert(first_types(rows(m, g1.entity))[g1.attr] == ty);
    assert(names_attr(m, g1.entity, g1.attr, i, j));
    assert(edge_kind(declared(m), alias_graph(m), g1.target) == some_schema_declares(m, x));
    assert(union_of(m).edges == all_edges(m, ordered(declared(m))));
    assert(target_name(g1.target) == x && target_name(g2.target) == x);
}

/// Every reference of the union comes from an attribute that some schema gives the
/// entity.
pub proof fn law_references_come_from_attributes(m: Seq<SchemaModel>, k: int)
    requires
        finite_schemas(m),
        0 <= k < union_of(m).edges.len(),
    ensures
        exists|i: int, j: int| #[trigger]
            names_attr(m, union_of(m).edges[k].entity, union_of(m).edges[k].attr, i, j),
{
    let g = union_of(m).edges[k];
    assert(union_of(m).edges.contains(g));
    lemma_all_edges(m, ordered(declared(m)), g);
}

proof fn lemma_alias_at(m: Seq<SchemaModel>, n: Seq<char>) -> (f: int)
    ensures
        first_alias(m, n) is Some ==> 0 <= f < m.len() && m[f].types.contains_key(n)
            && first_alias(m, n) == Some(m[f].types[n].aliased) && forall|h: int|
            0 <= h < f ==> !(#[trigger] m[h]).types.contains_key(n),
        first_alias(m, n) is None ==> forall|h: int|
            0 <= h < m.len() ==> !(#[trigger] m[h]).types.contains_key(n),
    decreases m.len(),
{
    if m.len() == 0 {
        0
    } else {
        let d = m.drop_last();
        let f = lemma_alias_at(d, n);
        assert forall|h: int| 0 <= h < d.len() implies #[trigger] m[h] == d[h] by {}
        assert(m[m.len() - 1] == m.last());
        if first_alias(d, n) is Some {
            f
        } else {
            m.len() - 1
        }
    }
}

proof fn lemma_declared_types(m: Seq<SchemaModel>, n: Seq<char>)
    ensures
        declared_types(m).contains(n) <==> exists|i: int|
            0 <= i < m.len() && (#[trigger] m[i]).types.contains_key(n),
    decreases m.len(),
{
    if m.len() > 0 {
        let d = m.drop_last();
        lemma_declared_types(d, n);
        assert(m[m.len() - 1] == m.last());
        if exists|i: int| 0 <= i < d.len() && (#[trigger] d[i]).types.contains_key(n) {
            let i = choose|i: int| 0 <= i < d.len() && (#[trigger] d[i]).types.contains_key(n);
            assert(m[i].types.contains_key(n));
        }
        if exists|i: int| 0 <= i < m.len() && (#[trigger] m[i]).types.contains_key(n) {
            let i = choose|i: int| 0 <= i < m.len() && (#[trigger] m[i]).types.contains_key(n);
            if i < d.len() {
                assert(d[i].types.contains_key(n));
            }
        }
    }
}

/// An alias leads to the names that its first definition mentions.
pub proof fn law_aliases_lead_on(m: Seq<SchemaModel>, n: Seq<char>, i: int)
    requires
        finite_schemas(m),
        0 <= i < m.len(),
        m[i].types.contains_key(n),
        forall|h: int| 0 <= h < i ==> !(#[trigger] m[h]).types.contains_key(n),
    ensures
        alias_graph(m).contains_key(n),
        alias_graph(m)[n] == mentioned(m[i].types[n].aliased),
{
    lemma_declared_types(m, n);
    lemma_declared_finite(m);
    lemma_ordered(declared_types(m));
    let f = lemma_alias_at(m, n);
    assert(m[i].types.contains_key(n));
    if f < i {
        assert(!m[f].types.contains_key(n));
    }
}

/// A type mentions the name it is, the members of a selection, and what the type
/// inside it mentions; a primitive or an enumeration mentions nothing.
pub proof fn law_types_mention_names(n: Seq<char>, v: Seq<Seq<char>>, t: TypeModel)
    ensures
        mentioned(TypeModel::Entity(n)) == seq![n],
        mentioned(TypeModel::Select(v)) == v,
        mentioned(TypeModel::List(Box::new(t))) == mentioned(t),
        mentioned(TypeModel::SetOf(Box::new(t))) == mentioned(t),
        mentioned(TypeModel::Bag(Box::new(t))) == mentioned(t),
        mentioned(TypeModel::Array(Box::new(t))) == mentioned(t),
        mentioned(TypeModel::Optional(Box::new(t))) == mentioned(t),
        mentioned(TypeModel::Enumeration(v)).len() == 0,
        mentioned(TypeModel::Primitive(n)).len() == 0,
{
}

/// An entity that the type of some attribute mentions is never folded into its
/// parent, unless an override says so.
pub proof fn law_mentioned_is_never_nested(
    m: Seq<SchemaModel>,
    over: crate::infer::variant::Decisions,
    e: Seq<char>,
    a: Seq<char>,
    i: int,
    j: int,
    x: Seq<char>,
)
    requires
        finite_schemas(m),
        first_to_name(m, e, a, i, j),
        mentioned(m[i].entities[e].own_attrs[j].ty).contains(x),
        some_schema_declares(m, x),
        !over.contains_key(x),
        crate::infer::variant::classified(union_of(m), over).decisions.contains_key(x),
    ensures
        !(crate::infer::variant::classified(union_of(m), over).decisions[x] is NestedField),
{
    let u = union_of(m);
    let g = EdgeModel { entity: e, attr: a, target: TargetModel::Entity(x) };
    let names = mentioned(m[i].entities[e].own_attrs[j].ty);
    assert(reached(alias_graph(m), names, x, 0));
    law_union_of_references(m, e, a, i, j, x);
    let k = choose|k: int| 0 <= k < u.edges.len() && u.edges[k] == g;
    assert(u.edges[k].target == TargetModel::Entity(x));
    crate::infer::variant_laws::law_referenced_is_never_nested(u, over, x);
}

// ---------------------------------------------------------------------
// What conflicts say
// ---------------------------------------------------------------------

proof fn lemma_differing_has(rs: Seq<RowModel>, ty: TypeModel, k: int)
    requires
        0 <= k < rs.len(),
        rs[k].ty != ty,
    ensures
        differing(rs, ty).contains(crate::infer::refgraph::row_text(rs[k])),
    decreases rs.len(),
{
    let d = rs.drop_last();
    let q = differing(d, ty);
    let all = differing(rs, ty);
    let t = crate::infer::refgraph::row_text(rs[k]);
    if k < d.len() {
        assert(d[k] == rs[k]);
        lemma_differing_has(d, ty, k);
        let i = choose|i: int| 0 <= i < q.len() && q[i] == t;
        assert(all[i] == t);
    } else {
        assert(all[q.len() as int] == t);
    }
}

/// A conflict is told with the first declaration, and every declaration that differs
/// from it, each as the label of its schema and its type.
pub proof fn law_conflicts_tell_all(
    m: Seq<SchemaModel>,
    e: Seq<char>,
    a: Seq<char>,
    i: int,
    j: int,
    i2: int,
    j2: int,
)
    requires
        finite_schemas(m),
        first_to_name(m, e, a, i, j),
        names_attr(m, e, a, i2, j2),
        m[i2].entities[e].own_attrs[j2].ty != m[i].entities[e].own_attrs[j].ty,
    ensures
        union_of(m).attr_conflicts.contains_key(e),
        union_of(m).attr_conflicts[e].contains_key(a),
        union_of(m).attr_conflicts[e][a].len() >= 2,
        union_of(m).attr_conflicts[e][a][0] == m[i].source_label + ": "@
            + crate::infer::refgraph::describe(m[i].entities[e].own_attrs[j].ty),
        union_of(m).attr_conflicts[e][a].contains(
            m[i2].source_label + ": "@ + crate::infer::refgraph::describe(
                m[i2].entities[e].own_attrs[j2].ty,
            ),
        ),
{
    let rs = rows(m, e);
    let mine = rows_of(rs, a);
    assert(names_attr(m, e, a, i, j) && names_attr(m, e, a, i2, j2));
    assert(types_differ(m, e, a));
    law_union_of_conflicts(m, e, a);
    assert(m[i].entities.contains_key(e));
    lemma_listed(m, e);
    lemma_attr_rows(m, e, a);
    lemma_ordered(row_attrs(rs));
    let (i0, j0) = lemma_row_source(m, e, a, 0);
    assert(names_attr(m, e, a, i0, j0));
    assert(i0 == i && j0 == j);
    lemma_rows_hold(m, e, a, i2, j2);
    let k = choose|k: int| 0 <= k < mine.len() && mine[k] == row_at(m, e, i2, j2);
    lemma_differing_has(mine, mine[0].ty, k);
    let diff = differing(mine, mine[0].ty);
    let text = crate::infer::refgraph::row_text(mine[k]);
    let all = union_of(m).attr_conflicts[e][a];
    assert(all == seq![crate::infer::refgraph::row_text(mine[0])] + diff);
    let h = choose|h: int| 0 <= h < diff.len() && diff[h] == text;
    assert(all[h + 1] == text);
}

/// How a type is described.
pub proof fn law_type_descriptions(t: TypeModel, n: Seq<char>)
    ensures
        crate::infer::refgraph::describe(TypeModel::Entity(n)) == "Entity("@
            + crate::text::quoted(n) + ")"@,
        crate::infer::refgraph::describe(TypeModel::Primitive(n)) == "Primitive("@
            + crate::text::quoted(n) + ")"@,
        crate::infer::refgraph::describe(TypeModel::List(Box::new(t))) == "List("@
            + crate::infer::refgraph::describe(t) + ")"@,
        crate::infer::refgraph::describe(TypeModel::SetOf(Box::new(t))) == "Set("@
            + crate::infer::refgraph::describe(t) + ")"@,
        crate::infer::refgraph::describe(TypeModel::Bag(Box::new(t))) == "Bag("@
            + crate::infer::refgraph::describe(t) + ")"@,
        crate::infer::refgraph::describe(TypeModel::Array(Box::new(t))) == "Array("@
            + crate::infer::refgraph::describe(t) + ")"@,
        crate::infer::refgraph::describe(TypeModel::Optional(Box::new(t))) == "Optional("@
            + crate::infer::refgraph::describe(t) + ")"@,
{
}

} // verus!
