//! What the exporters share: the order of the schemas, attributes as text, and
//! which redeclarations matter.

use crate::express::type_parser::{
    after_bound, aggregate, aggregate_name, aggregate_of, identifier, is_primitive, keyword_rest,
    list_names, lowered, parse_type, primitive, trim_name_end, without_modifier, Aggregate,
};
use crate::express::{AttrModel, AttrSpec, AttrType, EntityModel, Schema, SchemaModel, TypeModel};
use crate::infer::refgraph::{
    declared, first_alias, first_declared, lemma_first_alias_prefix, listed_models, schema_models,
};
use crate::names::{
    lemma_ordered, lemma_tabulate_ends, lemma_tabulate_next, no_names, ordered, push_item,
    tabulate, Table,
};
use crate::text::{
    all_ascii, ascii_lower, ascii_upper, close_index, closes, depth, is_ascii_char, is_ascii_word,
    is_space, join, join3, join_all, joined, lemma_top_index_prefix, lower, lowercase, opens, same,
    split_top, starts_with, top_index, trim, trim_start, uppercase, Brackets,
};
use vstd::prelude::*;
use vstd::string::*;

verus! {

broadcast use vstd::string::group_string_axioms;

// ---------------------------------------------------------------------
// The order of the schemas
// ---------------------------------------------------------------------

/// How new a schema is: the higher, the newer.
pub open spec fn label_rank(label: Seq<char>) -> u8 {
    if label == "ap242e3"@ {
        6
    } else if label == "ap242e2"@ {
        5
    } else if label == "ap242e1"@ {
        4
    } else if label == "ap214e3"@ {
        3
    } else if label == "ap203e2"@ {
        2
    } else if label == "ap203e1"@ {
        1
    } else {
        0
    }
}

/// Tells how new a schema is by its label.
pub fn schema_rank(label: &str) -> (r: u8)
    ensures
        r == label_rank(label@),
{
    if same(label, "ap242e3") {
        6
    } else if same(label, "ap242e2") {
        5
    } else if same(label, "ap242e1") {
        4
    } else if same(label, "ap214e3") {
        3
    } else if same(label, "ap203e2") {
        2
    } else if same(label, "ap203e1") {
        1
    } else {
        0
    }
}

/// The schemas of the given rank, in order.
pub open spec fn of_rank(m: Seq<SchemaModel>, ranks: Seq<u8>, r: int) -> Seq<SchemaModel>
    decreases m.len(),
{
    if m.len() == 0 {
        seq![]
    } else if ranks[m.len() - 1] == r {
        of_rank(m.drop_last(), ranks, r).push(m.last())
    } else {
        of_rank(m.drop_last(), ranks, r)
    }
}

/// The schemas of the ranks from `top` down, those of the same rank in order.
pub open spec fn ranked_down(m: Seq<SchemaModel>, ranks: Seq<u8>, top: int) -> Seq<SchemaModel>
    decreases top + 1,
{
    if top < 0 {
        seq![]
    } else {
        of_rank(m, ranks, top) + ranked_down(m, ranks, top - 1)
    }
}

/// The schemas from the newest to the oldest.
pub open spec fn newest_first(m: Seq<SchemaModel>, ranks: Seq<u8>) -> Seq<SchemaModel> {
    ranked_down(m, ranks, 6)
}

/// The ranks of the schemas by their labels.
pub open spec fn label_ranks(m: Seq<SchemaModel>) -> Seq<u8> {
    Seq::new(m.len(), |i: int| label_rank(m[i].source_label))
}

/// Orders the schemas by rank, the highest first; those of the same rank stay
/// in order.
pub fn order_by_rank<'a>(schemas: &'a [Schema], ranks: &Vec<u8>) -> (r: Vec<&'a Schema>)
    requires
        ranks@.len() == schemas@.len(),
    ensures
        listed_models(r@) == newest_first(schema_models(schemas@), ranks@),
{
    let ghost m = schema_models(schemas@);
    let mut out: Vec<&'a Schema> = Vec::new();
    let mut left: u8 = 7;
    assert(listed_models(out@) =~= seq![]);
    while left > 0
        invariant
            left <= 7,
            m == schema_models(schemas@),
            ranks@.len() == schemas@.len(),
            listed_models(out@) + ranked_down(m, ranks@, left - 1) == newest_first(m, ranks@),
        decreases left,
    {
        let ghost before = listed_models(out@);
        let r: u8 = left - 1;
        let mut i: usize = 0;
        proof {
            assert(m.take(0) =~= seq![]);
            assert(before + of_rank(m.take(0), ranks@, r as int) =~= before);
        }
        while i < schemas.len()
            invariant
                i <= schemas@.len(),
                m == schema_models(schemas@),
                ranks@.len() == schemas@.len(),
                listed_models(out@) == before + of_rank(m.take(i as int), ranks@, r as int),
            decreases schemas@.len() - i,
        {
            let ghost mid = listed_models(out@);
            assert(m.take(i + 1).drop_last() =~= m.take(i as int));
            if ranks[i] == r {
                out.push(&schemas[i]);
                assert(listed_models(out@) =~= mid.push(m[i as int]));
                assert(listed_models(out@) =~= before + of_rank(m.take(i + 1), ranks@, r as int));
            }
            i += 1;
        }
        proof {
            assert(m.take(i as int) =~= m);
            assert(before + of_rank(m, ranks@, r as int) + ranked_down(m, ranks@, r - 1)
                =~= before + ranked_down(m, ranks@, r as int));
        }
        left = r;
    }
    assert(listed_models(out@) + Seq::<SchemaModel>::empty() =~= listed_models(out@));
    out
}

/// Ranks the schemas by their labels.
pub fn rank_schemas(schemas: &[Schema]) -> (r: Vec<u8>)
    ensures
        r@ == label_ranks(schema_models(schemas@)),
{
    let mut r: Vec<u8> = Vec::new();
    let mut i: usize = 0;
    while i < schemas.len()
        invariant
            i <= schemas@.len(),
            r@.len() == i,
            forall|j: int|
                0 <= j < i ==> #[trigger] r@[j] == label_rank(schemas@[j].source_label@),
        decreases schemas@.len() - i,
    {
        r.push(schema_rank(schemas[i].source_label.as_str()));
        i += 1;
    }
    assert(r@ =~= label_ranks(schema_models(schemas@)));
    r
}

// ---------------------------------------------------------------------
// Types as text
// ---------------------------------------------------------------------

/// A type as text, nothing lost: primitives in lower case, names as they are,
/// aliases not resolved.
pub open spec fn repr(ty: TypeModel) -> Seq<char>
    decreases ty,
{
    match ty {
        TypeModel::Primitive(p) => lowercase(p),
        TypeModel::Entity(name) => name,
        TypeModel::List(x) => "LIST OF "@ + repr(*x),
        TypeModel::SetOf(x) => "SET OF "@ + repr(*x),
        TypeModel::Bag(x) => "BAG OF "@ + repr(*x),
        TypeModel::Array(x) => "ARRAY OF "@ + repr(*x),
        TypeModel::Optional(x) => "OPTIONAL "@ + repr(*x),
        TypeModel::Select(v) => "SELECT("@ + joined(v, ", "@) + ")"@,
        TypeModel::Enumeration(v) => "ENUM("@ + joined(v, ", "@) + ")"@,
    }
}

/// Writes a type as text.
pub fn ty_repr(ty: &AttrType) -> (r: String)
    ensures
        r@ == repr(ty.view()),
    decreases ty,
{
    match ty {
        AttrType::Primitive(p) => lower(p.as_str()),
        AttrType::Entity(name) => name.clone(),
        AttrType::List(x) => join("LIST OF ", ty_repr(x).as_str()),
        AttrType::SetOf(x) => join("SET OF ", ty_repr(x).as_str()),
        AttrType::Bag(x) => join("BAG OF ", ty_repr(x).as_str()),
        AttrType::Array(x) => join("ARRAY OF ", ty_repr(x).as_str()),
        AttrType::Optional(x) => join("OPTIONAL ", ty_repr(x).as_str()),
        AttrType::Select(v) => join3("SELECT(", join_all(v, ", ").as_str(), ")"),
        AttrType::Enumeration(v) => join3("ENUM(", join_all(v, ", ").as_str(), ")"),
    }
}

// ---------------------------------------------------------------------
// Redeclarations
// ---------------------------------------------------------------------

/// Whether a redeclaration matters: it gives a primitive or a selection. A
/// narrower entity does not.
pub open spec fn has_signal(ty: TypeModel, ranked: Seq<SchemaModel>) -> bool {
    match ty {
        TypeModel::Primitive(p) => true,
        TypeModel::Select(v) => true,
        TypeModel::Entity(name) => first_alias(ranked, name) matches Some(t) && t is Select,
        _ => false,
    }
}

/// Tells whether a redeclaration matters.
pub fn redeclaration_has_signal(ty: &AttrType, ranked: &Vec<&Schema>) -> (r: bool)
    ensures
        r == has_signal(ty.view(), listed_models(ranked@)),
{
    let name = match ty {
        AttrType::Primitive(_) => {
            return true;
        },
        AttrType::Select(_) => {
            return true;
        },
        AttrType::Entity(n) => n.as_str(),
        _ => {
            return false;
        },
    };
    let ghost m = listed_models(ranked@);
    let mut i: usize = 0;
    assert(m.take(0) =~= seq![]);
    while i < ranked.len()
        invariant
            i <= ranked@.len(),
            m == listed_models(ranked@),
            ty.view() == TypeModel::Entity(name@),
            first_alias(m.take(i as int), name@) is None,
        decreases ranked@.len() - i,
    {
        proof {
            assert(m.take(i + 1).drop_last() =~= m.take(i as int));
            assert(m.take(i + 1).last() == ranked@[i as int].view());
        }
        if let Some(td) = ranked[i].types.get(name) {
            proof {
                lemma_first_alias_prefix(m, name@, i + 1);
            }
            return match &td.aliased {
                AttrType::Select(_) => true,
                _ => false,
            };
        }
        i += 1;
    }
    assert(m.take(i as int) =~= m);
    false
}

// ---------------------------------------------------------------------
// Attributes
// ---------------------------------------------------------------------

/// An attribute with its type as text.
#[derive(Debug, PartialEq, Eq)]
pub struct ExportAttr {
    pub name: String,
    pub ty: String,
}

/// What an `ExportAttr` stands for.
pub struct ExportModel {
    pub name: Seq<char>,
    pub ty: Seq<char>,
}

impl DeepView for ExportAttr {
    type V = ExportModel;

    open spec fn deep_view(&self) -> ExportModel {
        ExportModel { name: self.name@, ty: self.ty@ }
    }
}

/// All attributes, in order.
pub open spec fn exported(attrs: Seq<AttrModel>) -> Seq<ExportModel> {
    Seq::new(attrs.len(), |i: int| ExportModel { name: attrs[i].name, ty: repr(attrs[i].ty) })
}

/// The attributes whose redeclaration matters, in order.
pub open spec fn exported_signals(
    attrs: Seq<AttrModel>,
    ranked: Seq<SchemaModel>,
) -> Seq<ExportModel>
    decreases attrs.len(),
{
    if attrs.len() == 0 {
        seq![]
    } else {
        let before = exported_signals(attrs.drop_last(), ranked);
        if has_signal(attrs.last().ty, ranked) {
            before.push(ExportModel { name: attrs.last().name, ty: repr(attrs.last().ty) })
        } else {
            before
        }
    }
}

/// Writes all attributes.
pub fn export_attrs(attrs: &Vec<AttrSpec>) -> (r: Vec<ExportAttr>)
    ensures
        r.deep_view() == exported(attrs.deep_view()),
{
    let ghost all = attrs.deep_view();
    let mut out: Vec<ExportAttr> = Vec::new();
    let mut i: usize = 0;
    assert(out.deep_view() =~= exported(all).take(0));
    while i < attrs.len()
        invariant
            i <= attrs@.len(),
            all == attrs.deep_view(),
            out.deep_view() == exported(all).take(i as int),
        decreases attrs@.len() - i,
    {
        assert(all[i as int] == attrs@[i as int].deep_view());
        push_item(
            &mut out,
            ExportAttr { name: attrs[i].name.clone(), ty: ty_repr(&attrs[i].ty) },
        );
        assert(out.deep_view() =~= exported(all).take(i + 1));
        i += 1;
    }
    assert(exported(all).take(i as int) =~= exported(all));
    out
}

/// Writes the attributes whose redeclaration matters.
pub fn export_signals(attrs: &Vec<AttrSpec>, ranked: &Vec<&Schema>) -> (r: Vec<ExportAttr>)
    ensures
        r.deep_view() == exported_signals(attrs.deep_view(), listed_models(ranked@)),
{
    let ghost all = attrs.deep_view();
    let ghost m = listed_models(ranked@);
    let mut out: Vec<ExportAttr> = Vec::new();
    let mut i: usize = 0;
    proof {
        assert(all.take(0) =~= seq![]);
        assert(out.deep_view() =~= seq![]);
    }
    while i < attrs.len()
        invariant
            i <= attrs@.len(),
            all == attrs.deep_view(),
            m == listed_models(ranked@),
            out.deep_view() == exported_signals(all.take(i as int), m),
        decreases attrs@.len() - i,
    {
        proof {
            assert(all.take(i + 1).drop_last() =~= all.take(i as int));
            assert(all.take(i + 1).last() == attrs@[i as int].deep_view());
        }
        if redeclaration_has_signal(&attrs[i].ty, ranked) {
            push_item(
                &mut out,
                ExportAttr { name: attrs[i].name.clone(), ty: ty_repr(&attrs[i].ty) },
            );
        }
        i += 1;
    }
    assert(all.take(i as int) =~= all);
    out
}

/// An attribute on whose type the schemas disagree, with the types.
pub open spec fn conflict_text(a: Seq<char>, kinds: Seq<Seq<char>>) -> Seq<char> {
    a + ": "@ + joined(kinds, " | "@)
}

/// The disagreements about the attributes `keys`, in order.
pub open spec fn conflict_texts(
    found: Map<Seq<char>, Seq<Seq<char>>>,
    keys: Seq<Seq<char>>,
) -> Seq<Seq<char>> {
    Seq::new(keys.len(), |i: int| conflict_text(keys[i], found[keys[i]]))
}

/// The disagreements about the attributes of an entity.
pub open spec fn conflicts_of(
    found: Map<Seq<char>, Map<Seq<char>, Seq<Seq<char>>>>,
    entity: Seq<char>,
) -> Seq<Seq<char>> {
    if found.contains_key(entity) {
        conflict_texts(found[entity], ordered(found[entity].dom()))
    } else {
        seq![]
    }
}

/// Writes the disagreements about the attributes of an entity.
pub fn write_conflicts(found: &Table<Table<Vec<String>>>, entity: &str) -> (r: Vec<String>)
    ensures
        r.deep_view() == conflicts_of(found@, entity@),
{
    let t = match found.get(entity) {
        Some(t) => t,
        None => {
            return no_names();
        },
    };
    let ghost mt = t@;
    assert(mt == found@[entity@]);
    let n = t.len();
    let ghost o = ordered(mt.dom());
    let ghost want = conflict_texts(mt, o);
    let mut out: Vec<String> = no_names();
    let mut i: usize = 0;
    assert(want.take(0) =~= seq![]);
    while i < n
        invariant
            i <= n,
            n == o.len(),
            mt == t@,
            o == ordered(mt.dom()),
            want == conflict_texts(mt, o),
            out.deep_view() == want.take(i as int),
        decreases n - i,
    {
        let text = join3(t.key_at(i).as_str(), ": ", join_all(t.value_at(i), " | ").as_str());
        push_item(&mut out, text);
        assert(out.deep_view() =~= want.take(i + 1));
        i += 1;
    }
    assert(want.take(i as int) =~= want);
    out
}

/// Each alias with the text of what it stands for.
pub open spec fn alias_texts(types: Map<Seq<char>, TypeModel>) -> Map<Seq<char>, Seq<char>> {
    types.map_values(|t: TypeModel| repr(t))
}

/// Writes what the aliases stand for.
pub fn write_aliases(types: &Table<AttrType>) -> (r: Table<String>)
    ensures
        r@ == alias_texts(types@),
{
    let n = types.len();
    let ghost o = ordered(types@.dom());
    let ghost g = |k: Seq<char>| Some(repr(types@[k]));
    let mut out: Table<String> = Table::new();
    let mut i: usize = 0;
    proof {
        lemma_tabulate_ends(o, g);
    }
    while i < n
        invariant
            i <= n,
            n == o.len(),
            o == ordered(types@.dom()),
            types@.dom().finite(),
            g == (|k: Seq<char>| Some(repr(types@[k]))),
            out@ == tabulate(o.take(i as int), g),
        decreases n - i,
    {
        proof {
            lemma_tabulate_next(o, i as int, g);
        }
        out.insert(types.key_at(i).clone(), ty_repr(types.value_at(i)));
        i += 1;
    }
    proof {
        lemma_tabulate_ends(o, g);
        lemma_ordered(types@.dom());
        assert(out@ =~= alias_texts(types@));
    }
    out
}

// ---------------------------------------------------------------------
// Laws
// ---------------------------------------------------------------------

/// A name as the schemas are read: an identifier in lower case.
pub open spec fn plain_name(s: Seq<char>) -> bool {
    &&& identifier(s)
    &&& forall|i: int| 0 <= i < s.len() ==> !('A' <= #[trigger] s[i] && s[i] <= 'Z')
}

/// The primitive types.
pub open spec fn primitive_name(p: Seq<char>) -> bool {
    ||| p == "INTEGER"@
    ||| p == "REAL"@
    ||| p == "STRING"@
    ||| p == "LOGICAL"@
    ||| p == "BOOLEAN"@
    ||| p == "NUMBER"@
    ||| p == "BINARY"@
}

/// A type of which every name is plain, and none that of a primitive type.
pub open spec fn plain_type(ty: TypeModel) -> bool
    decreases ty,
{
    match ty {
        TypeModel::Primitive(p) => primitive_name(p),
        TypeModel::Entity(name) => plain_name(name) && !primitive_name(ascii_upper(name)),
        TypeModel::List(x) => plain_type(*x),
        TypeModel::SetOf(x) => plain_type(*x),
        TypeModel::Bag(x) => plain_type(*x),
        TypeModel::Array(x) => plain_type(*x),
        TypeModel::Optional(x) => plain_type(*x),
        TypeModel::Select(v) => forall|i: int| 0 <= i < v.len() ==> plain_name(#[trigger] v[i]),
        TypeModel::Enumeration(v) => forall|i: int|
            0 <= i < v.len() ==> plain_name(#[trigger] v[i]),
    }
}

proof fn lemma_primitive_in_capitals(p: Seq<char>)
    requires
        primitive_name(p),
    ensures
        p.len() > 0,
        forall|i: int| 0 <= i < p.len() ==> 'A' <= #[trigger] p[i] && p[i] <= 'Z',
{
    reveal_strlit("INTEGER");
    reveal_strlit("REAL");
    reveal_strlit("STRING");
    reveal_strlit("LOGICAL");
    reveal_strlit("BOOLEAN");
    reveal_strlit("NUMBER");
    reveal_strlit("BINARY");
}

/// The text of a primitive type is in small letters, and gives the type back.
proof fn lemma_primitive_text(p: Seq<char>)
    requires
        primitive_name(p),
    ensures
        lowercase(p).len() == p.len(),
        p.len() > 0,
        forall|i: int| 0 <= i < p.len() ==> 'a' <= #[trigger] lowercase(p)[i] && lowercase(p)[i]
            <= 'z',
        ascii_upper(lowercase(p)) == p,
{
    lemma_primitive_in_capitals(p);
    assert forall|i: int| 0 <= i < p.len() implies is_ascii_char(#[trigger] p[i]) by {}
    assert(all_ascii(p));
    assert(lowercase(p) == ascii_lower(p));
    assert(ascii_upper(ascii_lower(p)) =~= p);
}

proof fn lemma_joined_names(x: Seq<Seq<char>>)
    requires
        x.len() > 0,
        forall|i: int| 0 <= i < x.len() ==> plain_name(#[trigger] x[i]),
    ensures
        joined(x, ", "@).len() > 0,
    decreases x.len(),
{
    assert(plain_name(x[0]));
    assert(plain_name(x[x.len() - 1]));
}

/// A list of names can be told from its text.
proof fn lemma_joined_unique(x: Seq<Seq<char>>, y: Seq<Seq<char>>)
    requires
        forall|i: int| 0 <= i < x.len() ==> plain_name(#[trigger] x[i]),
        forall|i: int| 0 <= i < y.len() ==> plain_name(#[trigger] y[i]),
        joined(x, ", "@) == joined(y, ", "@),
    ensures
        x == y,
    decreases x.len(),
{
    reveal_strlit(", ");
    let a = joined(x, ", "@);
    let b = joined(y, ", "@);
    if x.len() == 0 || y.len() == 0 {
        if x.len() > 0 {
            lemma_joined_names(x);
        }
        if y.len() > 0 {
            lemma_joined_names(y);
        }
        assert(x =~= y);
    } else {
        assert(plain_name(x.last()));
        assert(plain_name(y.last()));
        if x.len() >= 2 && y.len() >= 2 {
            let p = joined(x.drop_last(), ", "@);
            let q = joined(y.drop_last(), ", "@);
            lemma_comma_splits(p, x.last(), q, y.last());
            assert forall|i: int| 0 <= i < x.drop_last().len() implies plain_name(
                #[trigger] x.drop_last()[i],
            ) by {
                assert(plain_name(x[i]));
            }
            assert forall|i: int| 0 <= i < y.drop_last().len() implies plain_name(
                #[trigger] y.drop_last()[i],
            ) by {
                assert(plain_name(y[i]));
            }
            lemma_joined_unique(x.drop_last(), y.drop_last());
            assert(x =~= x.drop_last().push(x.last()));
            assert(y =~= y.drop_last().push(y.last()));
        } else if x.len() >= 2 {
            let p = joined(x.drop_last(), ", "@);
            assert(a[p.len() as int] == ',');
            assert(is_ascii_word(y.last()[p.len() as int]));
        } else if y.len() >= 2 {
            let q = joined(y.drop_last(), ", "@);
            assert(b[q.len() as int] == ',');
            assert(is_ascii_word(x.last()[q.len() as int]));
        } else {
            assert(x =~= y);
        }
    }
}

proof fn lemma_comma_splits(p: Seq<char>, x: Seq<char>, q: Seq<char>, y: Seq<char>)
    requires
        plain_name(x),
        plain_name(y),
        p + ", "@ + x == q + ", "@ + y,
    ensures
        p == q,
        x == y,
{
    reveal_strlit(", ");
    let a = p + ", "@ + x;
    let b = q + ", "@ + y;
    let m = p.len() as int;
    let n = q.len() as int;
    assert(", "@.len() == 2);
    assert(a.len() == m + 2 + x.len());
    assert(b.len() == n + 2 + y.len());
    assert(a[m] == ',' && a[m + 1] == ' ');
    assert(b[n] == ',' && b[n + 1] == ' ');
    if m < n && n > m + 1 {
        assert(a[n] == x[n - m - 2]);
        assert(is_ascii_word(x[n - m - 2]));
    }
    if n < m && m > n + 1 {
        assert(b[m] == y[m - n - 2]);
        assert(is_ascii_word(y[m - n - 2]));
    }
    assert(m == n);
    assert(p =~= a.take(m));
    assert(q =~= b.take(n));
    assert(x =~= a.skip(m + 2));
    assert(y =~= b.skip(n + 2));
}

/// The outermost kind of a type.
spec fn kind_number(ty: TypeModel) -> int {
    match ty {
        TypeModel::Primitive(p) => 0,
        TypeModel::Entity(name) => 0,
        TypeModel::List(x) => 1,
        TypeModel::SetOf(x) => 2,
        TypeModel::Bag(x) => 3,
        TypeModel::Array(x) => 4,
        TypeModel::Optional(x) => 5,
        TypeModel::Select(v) => 6,
        TypeModel::Enumeration(v) => 7,
    }
}

/// The outermost kind of the type that a text stands for.
spec fn text_kind(s: Seq<char>) -> int {
    if s[0] == 'L' {
        1
    } else if s[0] == 'S' {
        if s[2] == 'T' {
            2
        } else {
            6
        }
    } else if s[0] == 'B' {
        3
    } else if s[0] == 'A' {
        4
    } else if s[0] == 'O' {
        5
    } else if s[0] == 'E' {
        7
    } else {
        0
    }
}

proof fn lemma_text_kind(ty: TypeModel)
    requires
        plain_type(ty),
    ensures
        text_kind(repr(ty)) == kind_number(ty),
{
    reveal_strlit("LIST OF ");
    reveal_strlit("SET OF ");
    reveal_strlit("BAG OF ");
    reveal_strlit("ARRAY OF ");
    reveal_strlit("OPTIONAL ");
    reveal_strlit("SELECT(");
    reveal_strlit("ENUM(");
    match ty {
        TypeModel::Primitive(p) => {
            lemma_primitive_text(p);
            assert('a' <= lowercase(p)[0]);
        },
        _ => {},
    }
}

proof fn lemma_same_rest(head: Seq<char>, a: Seq<char>, b: Seq<char>)
    requires
        head + a == head + b,
    ensures
        a == b,
{
    assert(a =~= (head + a).skip(head.len() as int));
    assert(b =~= (head + b).skip(head.len() as int));
}

proof fn lemma_same_inside(head: Seq<char>, a: Seq<char>, b: Seq<char>, tail: Seq<char>)
    requires
        head + a + tail == head + b + tail,
    ensures
        a == b,
{
    let s = head + a + tail;
    let t = head + b + tail;
    assert(a =~= s.subrange(head.len() as int, s.len() - tail.len()));
    assert(b =~= t.subrange(head.len() as int, t.len() - tail.len()));
}

/// Writing a type loses nothing: different types have different texts.
pub proof fn law_type_text_is_lossless(a: TypeModel, b: TypeModel)
    requires
        plain_type(a),
        plain_type(b),
        repr(a) == repr(b),
    ensures
        a == b,
    decreases a,
{
    lemma_text_kind(a);
    lemma_text_kind(b);
    match (a, b) {
        (TypeModel::Primitive(p), TypeModel::Primitive(q)) => {
            lemma_primitive_text(p);
            lemma_primitive_text(q);
        },
        (TypeModel::Primitive(p), TypeModel::Entity(n)) => {
            lemma_primitive_text(p);
        },
        (TypeModel::Entity(n), TypeModel::Primitive(p)) => {
            lemma_primitive_text(p);
        },
        (TypeModel::List(x), TypeModel::List(y)) => {
            lemma_same_rest("LIST OF "@, repr(*x), repr(*y));
            law_type_text_is_lossless(*x, *y);
        },
        (TypeModel::SetOf(x), TypeModel::SetOf(y)) => {
            lemma_same_rest("SET OF "@, repr(*x), repr(*y));
            law_type_text_is_lossless(*x, *y);
        },
        (TypeModel::Bag(x), TypeModel::Bag(y)) => {
            lemma_same_rest("BAG OF "@, repr(*x), repr(*y));
            law_type_text_is_lossless(*x, *y);
        },
        (TypeModel::Array(x), TypeModel::Array(y)) => {
            lemma_same_rest("ARRAY OF "@, repr(*x), repr(*y));
            law_type_text_is_lossless(*x, *y);
        },
        (TypeModel::Optional(x), TypeModel::Optional(y)) => {
            lemma_same_rest("OPTIONAL "@, repr(*x), repr(*y));
            law_type_text_is_lossless(*x, *y);
        },
        (TypeModel::Select(v), TypeModel::Select(w)) => {
            lemma_same_inside("SELECT("@, joined(v, ", "@), joined(w, ", "@), ")"@);
            lemma_joined_unique(v, w);
        },
        (TypeModel::Enumeration(v), TypeModel::Enumeration(w)) => {
            lemma_same_inside("ENUM("@, joined(v, ", "@), joined(w, ", "@), ")"@);
            lemma_joined_unique(v, w);
        },
        _ => {},
    }
}

// ---------------------------------------------------------------------
// Reading a type back
// ---------------------------------------------------------------------

/// Whether the text of a type can be read back: the parser does not read
/// `ENUM(...)`, and takes an `OPTIONAL` before the element of an aggregate for a
/// modifier, which it drops.
pub open spec fn readable(ty: TypeModel) -> bool
    decreases ty,
{
    match ty {
        TypeModel::Primitive(p) => true,
        TypeModel::Entity(name) => true,
        TypeModel::List(x) => !(*x is Optional) && readable(*x),
        TypeModel::SetOf(x) => !(*x is Optional) && readable(*x),
        TypeModel::Bag(x) => !(*x is Optional) && readable(*x),
        TypeModel::Array(x) => !(*x is Optional) && readable(*x),
        TypeModel::Optional(x) => readable(*x),
        TypeModel::Select(v) => true,
        TypeModel::Enumeration(v) => false,
    }
}

/// A text without white space at its ends.
spec fn tight(s: Seq<char>) -> bool {
    s.len() > 0 && !is_space(s[0]) && !is_space(s.last())
}

proof fn lemma_repr_is_tight(ty: TypeModel)
    requires
        plain_type(ty),
    ensures
        tight(repr(ty)),
    decreases ty,
{
    reveal_strlit("LIST OF ");
    reveal_strlit("SET OF ");
    reveal_strlit("BAG OF ");
    reveal_strlit("ARRAY OF ");
    reveal_strlit("OPTIONAL ");
    reveal_strlit("SELECT(");
    reveal_strlit("ENUM(");
    reveal_strlit(")");
    match ty {
        TypeModel::Primitive(p) => {
            lemma_primitive_text(p);
            assert('a' <= lowercase(p)[0]);
            assert('a' <= lowercase(p)[p.len() - 1]);
        },
        TypeModel::Entity(name) => {
            assert(is_ascii_word(name[0]));
            assert(is_ascii_word(name[name.len() - 1]));
        },
        TypeModel::List(x) => {
            lemma_repr_is_tight(*x);
        },
        TypeModel::SetOf(x) => {
            lemma_repr_is_tight(*x);
        },
        TypeModel::Bag(x) => {
            lemma_repr_is_tight(*x);
        },
        TypeModel::Array(x) => {
            lemma_repr_is_tight(*x);
        },
        TypeModel::Optional(x) => {
            lemma_repr_is_tight(*x);
        },
        _ => {},
    }
}

/// A keyword and a blank come off the text behind them.
proof fn lemma_keyword_comes_off(keyword: Seq<char>, r: Seq<char>)
    requires
        tight(r),
    ensures
        keyword_rest(keyword + seq![' '] + r, keyword) == Some(r),
{
    let s = keyword + seq![' '] + r;
    let rest = s.skip(keyword.len() as int);
    assert(s.take(keyword.len() as int) =~= keyword);
    assert(rest =~= seq![' '] + r);
    assert(rest.drop_first() =~= r);
    assert(trim_start(r) == r);
}

/// A text that starts otherwise does not start with the keyword.
proof fn lemma_no_keyword(s: Seq<char>, keyword: Seq<char>)
    requires
        s.len() > 0,
        keyword.len() > 0,
        s[0] != keyword[0],
    ensures
        keyword_rest(s, keyword) is None,
{
    if starts_with(s, keyword) {
        assert(s.take(keyword.len() as int)[0] == s[0]);
    }
}

/// The text of an aggregate, without its keyword, leads to that of its element.
proof fn lemma_element_text(x: TypeModel)
    requires
        plain_type(x),
        !(x is Optional),
    ensures
        keyword_rest(after_bound("OF"@ + seq![' '] + repr(x)), "OF"@) == Some(repr(x)),
        without_modifier(repr(x)) == repr(x),
        tight("OF"@ + seq![' '] + repr(x)),
{
    let r = repr(x);
    let s = "OF"@ + seq![' '] + r;
    reveal_strlit("OF");
    reveal_strlit("[");
    reveal_strlit("UNIQUE");
    reveal_strlit("OPTIONAL");
    lemma_repr_is_tight(x);
    lemma_text_kind(x);
    assert(s[0] == 'O');
    assert(s.last() == r.last());
    assert(trim_start(s) == s);
    assert(!starts_with(s, "["@)) by {
        if starts_with(s, "["@) {
            assert(s.take(1)[0] == s[0]);
        }
    }
    lemma_keyword_comes_off("OF"@, r);
    assert(trim_start(r) == r);
    assert(r[0] != 'U') by {
        lemma_first_letter(x);
    }
    lemma_no_keyword(r, "UNIQUE"@);
    lemma_no_keyword(r, "OPTIONAL"@);
}

/// A text starts with the letter of its kind, or as a name does.
proof fn lemma_first_letter(ty: TypeModel)
    requires
        plain_type(ty),
    ensures
        ({
            let c = repr(ty)[0];
            match ty {
                TypeModel::Primitive(p) => 'a' <= c && c <= 'z',
                TypeModel::Entity(name) => !('A' <= c && c <= 'Z'),
                TypeModel::List(x) => c == 'L',
                TypeModel::SetOf(x) => c == 'S',
                TypeModel::Bag(x) => c == 'B',
                TypeModel::Array(x) => c == 'A',
                TypeModel::Optional(x) => c == 'O',
                TypeModel::Select(v) => c == 'S',
                TypeModel::Enumeration(v) => c == 'E',
            }
        }),
{
    reveal_strlit("LIST OF ");
    reveal_strlit("SET OF ");
    reveal_strlit("BAG OF ");
    reveal_strlit("ARRAY OF ");
    reveal_strlit("OPTIONAL ");
    reveal_strlit("SELECT(");
    reveal_strlit("ENUM(");
    match ty {
        TypeModel::Primitive(p) => {
            lemma_primitive_text(p);
            assert('a' <= lowercase(p)[0]);
        },
        _ => {},
    }
}

/// A text without brackets has no depth, and without `c` no place to cut it.
proof fn lemma_flat_text(s: Seq<char>, c: char, kind: Brackets)
    requires
        forall|i: int|
            0 <= i < s.len() ==> !opens(#[trigger] s[i], kind) && !closes(s[i], kind),
    ensures
        depth(s, kind) == 0,
        (forall|i: int| 0 <= i < s.len() ==> #[trigger] s[i] != c) ==> top_index(s, c, kind)
            is None,
    decreases s.len(),
{
    if s.len() > 0 {
        let d = s.drop_last();
        assert forall|i: int| 0 <= i < d.len() implies !opens(#[trigger] d[i], kind) && !closes(
            d[i],
            kind,
        ) by {
            assert(d[i] == s[i]);
        }
        lemma_flat_text(d, c, kind);
        assert(s.last() == s[s.len() - 1]);
        if forall|i: int| 0 <= i < s.len() ==> #[trigger] s[i] != c {
            assert forall|i: int| 0 <= i < d.len() implies #[trigger] d[i] != c by {
                assert(d[i] == s[i]);
            }
        }
    }
}

/// A text in brackets closes at its end.
proof fn lemma_brackets_close(b: Seq<char>)
    requires
        forall|i: int| 0 <= i < b.len() ==> #[trigger] b[i] != '(' && b[i] != ')',
    ensures
        depth(seq!['('] + b, Brackets::Round) == 1,
        close_index(seq!['('] + b, Brackets::Round, 0) is None,
        close_index(seq!['('] + b + seq![')'], Brackets::Round, 0) == Some(b.len() as int + 1),
    decreases b.len(),
{
    let s = seq!['('] + b;
    if b.len() > 0 {
        let fewer = b.drop_last();
        assert forall|i: int| 0 <= i < fewer.len() implies #[trigger] fewer[i] != '(' && fewer[i]
            != ')' by {
            assert(fewer[i] == b[i]);
        }
        lemma_brackets_close(fewer);
        assert(s.drop_last() =~= seq!['('] + fewer);
        assert(s.last() == b[b.len() - 1]);
    } else {
        assert(s.drop_last() =~= seq![]);
        assert(s.last() == '(');
        assert(depth(Seq::<char>::empty(), Brackets::Round) == 0);
        assert(close_index(s.drop_last(), Brackets::Round, 0) is None);
    }
    let t = s + seq![')'];
    assert(t.drop_last() =~= s);
    assert(t.last() == ')');
    assert(depth(s, Brackets::Round) == 1);
    assert(depth(t.drop_last(), Brackets::Round) == 1);
    assert(depth(t, Brackets::Round) == 0);
    assert(close_index(t, Brackets::Round, 0) == Some(t.len() - 1));
}

/// The names of a list come apart at its first comma.
proof fn lemma_joined_first(v: Seq<Seq<char>>, sep: Seq<char>)
    requires
        v.len() >= 2,
    ensures
        joined(v, sep) == v[0] + sep + joined(v.drop_first(), sep),
    decreases v.len(),
{
    let rest = v.drop_first();
    if v.len() == 2 {
        assert(v.drop_last() =~= seq![v[0]]);
        assert(rest =~= seq![v[1]]);
        assert(joined(v.drop_last(), sep) == v[0]);
        assert(joined(rest, sep) == v[1]);
    } else {
        lemma_joined_first(v.drop_last(), sep);
        assert(v.drop_last().drop_first() =~= rest.drop_last());
        assert(joined(v, sep) =~= v[0] + sep + (joined(rest.drop_last(), sep) + sep + v.last()));
    }
}

proof fn lemma_lowered_first(a: Seq<char>, q: Seq<Seq<char>>)
    ensures
        lowered(seq![a] + q) == lowered(seq![a]) + lowered(q),
    decreases q.len(),
{
    if q.len() == 0 {
        assert(seq![a] + q =~= seq![a]);
        assert(lowered(seq![a]) + lowered(q) =~= lowered(seq![a]));
    } else {
        lemma_lowered_first(a, q.drop_last());
        assert((seq![a] + q).drop_last() =~= seq![a] + q.drop_last());
        assert((seq![a] + q).last() == q.last());
        assert(lowered(seq![a] + q) =~= lowered(seq![a]) + lowered(q));
    }
}

/// A name, with a blank before it or not, is read as that name.
proof fn lemma_name_is_read(lead: Seq<char>, name: Seq<char>)
    requires
        plain_name(name),
        lead == Seq::<char>::empty() || lead == seq![' '],
    ensures
        lowered(seq![lead + name]) == seq![name],
        lowercase(name) == name,
{
    let s = lead + name;
    let one = seq![s];
    assert(is_ascii_word(name[0]));
    assert(is_ascii_word(name[name.len() - 1]));
    if lead.len() == 0 {
        assert(s =~= name);
    } else {
        assert(s.drop_first() =~= name);
    }
    assert(trim_start(name) == name);
    assert(trim(s) == name);
    assert forall|i: int| 0 <= i < name.len() implies is_ascii_char(#[trigger] name[i]) by {
        assert(is_ascii_word(name[i]));
    }
    assert(ascii_lower(name) =~= name);
    assert(one.drop_last() =~= seq![]);
    assert(lowered(one.drop_last()) == Seq::<Seq<char>>::empty());
    assert(lowered(one) =~= seq![name]);
}

/// A list of names is read back from its text.
proof fn lemma_list_is_read(lead: Seq<char>, v: Seq<Seq<char>>)
    requires
        lead == Seq::<char>::empty() || lead == seq![' '],
        forall|i: int| 0 <= i < v.len() ==> plain_name(#[trigger] v[i]),
    ensures
        list_names(lead + joined(v, ", "@)) == v,
    decreases v.len(),
{
    reveal_strlit(", ");
    let s = lead + joined(v, ", "@);
    if v.len() == 0 {
        assert(s =~= lead);
        lemma_flat_text(s, ',', Brackets::Both);
        let one = seq![s];
        if lead.len() > 0 {
            assert(s.drop_first() =~= seq![]);
        }
        assert(trim_start(Seq::<char>::empty()) == Seq::<char>::empty());
        assert(trim(s).len() == 0);
        assert(one.drop_last() =~= seq![]);
        assert(lowered(one.drop_last()) == Seq::<Seq<char>>::empty());
        assert(lowered(one) =~= v);
    } else {
        let a = lead + v[0];
        assert(plain_name(v[0]));
        assert forall|i: int| 0 <= i < a.len() implies !opens(#[trigger] a[i], Brackets::Both)
            && !closes(a[i], Brackets::Both) && a[i] != ',' by {
            if i >= lead.len() {
                assert(is_ascii_word(v[0][i - lead.len()]));
            }
        }
        lemma_flat_text(a, ',', Brackets::Both);
        lemma_name_is_read(lead, v[0]);
        if v.len() == 1 {
            assert(s =~= a);
            assert(v =~= seq![v[0]]);
        } else {
            let rest = v.drop_first();
            assert forall|i: int| 0 <= i < rest.len() implies plain_name(#[trigger] rest[i]) by {
                assert(plain_name(v[i + 1]));
            }
            lemma_joined_first(v, ", "@);
            lemma_list_is_read(seq![' '], rest);
            let more = seq![' '] + joined(rest, ", "@);
            let n = a.len() as int;
            assert(s =~= a + seq![','] + more);
            let head = s.take(n + 1);
            assert(head.drop_last() =~= a);
            assert(head.last() == ',');
            assert(top_index(head, ',', Brackets::Both) == Some(n));
            lemma_top_index_prefix(s, ',', Brackets::Both, n + 1);
            assert(s.take(n) =~= a);
            assert(s.skip(n + 1) =~= more);
            lemma_lowered_first(a, split_top(more, ',', Brackets::Both));
            assert(seq![v[0]] + rest =~= v);
        }
    }
}

/// A selection is read back from its text.
proof fn lemma_select_is_read(v: Seq<Seq<char>>)
    requires
        plain_type(TypeModel::Select(v)),
    ensures
        crate::express::type_parser::plain_type(repr(TypeModel::Select(v))) == Ok::<
            TypeModel,
            Seq<char>,
        >(TypeModel::Select(v)),
        keyword_rest(repr(TypeModel::Select(v)), "SET"@) is None,
{
    let j = joined(v, ", "@);
    let s = repr(TypeModel::Select(v));
    reveal_strlit("SELECT");
    reveal_strlit("SELECT(");
    reveal_strlit("SET");
    reveal_strlit("(");
    reveal_strlit(")");
    assert(s[2] == 'L');
    if starts_with(s, "SET"@) {
        assert(s.take(3)[2] == s[2]);
    }
    let rest = seq!['('] + j + seq![')'];
    assert(s =~= "SELECT"@ + rest);
    assert(s.take(6) =~= "SELECT"@);
    assert(s.skip(6) =~= rest);
    assert(trim_start(rest) == rest);
    assert(keyword_rest(s, "SELECT"@) == Some(rest));
    assert(rest.take(1) =~= "("@);
    lemma_joined_is_flat(v);
    lemma_brackets_close(j);
    assert(rest.subrange(1, j.len() as int + 1) =~= j);
    lemma_list_is_read(Seq::empty(), v);
    assert(Seq::<char>::empty() + j =~= j);
}

/// There are no brackets in a list of names.
proof fn lemma_joined_is_flat(v: Seq<Seq<char>>)
    requires
        forall|i: int| 0 <= i < v.len() ==> plain_name(#[trigger] v[i]),
    ensures
        forall|i: int|
            0 <= i < joined(v, ", "@).len() ==> #[trigger] joined(v, ", "@)[i] != '(' && joined(
                v,
                ", "@,
            )[i] != ')',
    decreases v.len(),
{
    reveal_strlit(", ");
    if v.len() > 0 {
        let d = v.drop_last();
        assert forall|i: int| 0 <= i < d.len() implies plain_name(#[trigger] d[i]) by {
            assert(plain_name(v[i]));
        }
        lemma_joined_is_flat(d);
        let j = joined(v, ", "@);
        let last = v[v.len() - 1];
        assert(plain_name(last));
        let k = j.len() - last.len();
        assert forall|i: int| 0 <= i < j.len() implies #[trigger] j[i] != '(' && j[i] != ')' by {
            if v.len() == 1 {
                assert(is_ascii_word(last[i]));
            } else if i < k - 2 {
                assert(j[i] == joined(d, ", "@)[i]);
            } else if i >= k {
                assert(j[i] == last[i - k]);
                assert(is_ascii_word(last[i - k]));
            }
        }
    }
}

/// A text in capitals without brackets and blanks is a primitive type only
/// where it is its name.
proof fn lemma_whole_primitive(up: Seq<char>)
    requires
        forall|i: int| 0 <= i < up.len() ==> is_ascii_word(#[trigger] up[i]),
    ensures
        primitive_name(up) ==> primitive(up) == Some(up),
        !primitive_name(up) ==> primitive(up) is None,
{
    lemma_no_size(up, "INTEGER"@);
    lemma_no_size(up, "REAL"@);
    lemma_no_size(up, "STRING"@);
    lemma_no_size(up, "LOGICAL"@);
    lemma_no_size(up, "BOOLEAN"@);
    lemma_no_size(up, "NUMBER"@);
    lemma_no_size(up, "BINARY"@);
}

proof fn lemma_no_size(up: Seq<char>, p: Seq<char>)
    requires
        forall|i: int| 0 <= i < up.len() ==> is_ascii_word(#[trigger] up[i]),
    ensures
        is_primitive(up, p) <==> up == p,
{
    reveal_strlit("(");
    reveal_strlit(" ");
    let n = p.len() as int;
    if starts_with(up, p + "("@) {
        assert(up.take(n + 1)[n] == up[n]);
        assert((p + "("@)[n] == '(');
        assert(is_ascii_word(up[n]));
    }
    if starts_with(up, p + " "@) {
        assert(up.take(n + 1)[n] == up[n]);
        assert((p + " "@)[n] == ' ');
        assert(is_ascii_word(up[n]));
    }
}

/// A primitive type or a name is read back from its text.
proof fn lemma_word_is_read(ty: TypeModel)
    requires
        plain_type(ty),
        ty is Primitive || ty is Entity,
    ensures
        crate::express::type_parser::plain_type(repr(ty)) == Ok::<TypeModel, Seq<char>>(ty),
{
    let s = repr(ty);
    reveal_strlit("SELECT");
    reveal_strlit("ENUMERATION");
    lemma_first_letter(ty);
    lemma_repr_is_tight(ty);
    lemma_no_keyword(s, "SELECT"@);
    lemma_no_keyword(s, "ENUMERATION"@);
    let up = ascii_upper(s);
    assert forall|i: int| 0 <= i < s.len() implies is_ascii_char(#[trigger] s[i]) && is_ascii_word(
        s[i],
    ) by {
        match ty {
            TypeModel::Primitive(p) => {
                lemma_primitive_text(p);
                assert('a' <= lowercase(p)[i]);
            },
            _ => {
                assert(is_ascii_word(s[i]));
            },
        }
    }
    assert(uppercase(s) == up);
    assert forall|i: int| 0 <= i < up.len() implies is_ascii_word(#[trigger] up[i]) by {
        assert(is_ascii_word(s[i]));
    }
    lemma_whole_primitive(up);
    match ty {
        TypeModel::Primitive(p) => {
            lemma_primitive_text(p);
        },
        TypeModel::Entity(name) => {
            assert(is_ascii_word(s[s.len() - 1]));
            assert(trim_name_end(s) == s);
            lemma_name_is_read(Seq::empty(), name);
        },
        _ => {},
    }
}

/// An aggregate is read back from its text, where its element is.
proof fn lemma_aggregate_is_read(kind: Aggregate, x: TypeModel, s: Seq<char>)
    requires
        plain_type(x),
        !(x is Optional),
        parse_type(repr(x)) == Ok::<TypeModel, Seq<char>>(x),
        s == aggregate_name(kind) + seq![' '] + ("OF"@ + seq![' '] + repr(x)),
    ensures
        parse_type(s) == Ok::<TypeModel, Seq<char>>(aggregate_of(kind, x)),
{
    let rest = "OF"@ + seq![' '] + repr(x);
    let name = aggregate_name(kind);
    reveal_strlit("LIST");
    reveal_strlit("SET");
    reveal_strlit("BAG");
    reveal_strlit("ARRAY");
    reveal_strlit("OPTIONAL");
    lemma_element_text(x);
    lemma_keyword_comes_off(name, rest);
    assert(s[0] == name[0]);
    assert(s.last() == rest.last());
    assert(tight(s));
    assert(trim(s) == s);
    lemma_no_keyword(s, "OPTIONAL"@);
    if !(kind is List) {
        lemma_no_keyword(s, "LIST"@);
        if !(kind is SetOf) {
            lemma_no_keyword(s, "SET"@);
            if !(kind is Bag) {
                lemma_no_keyword(s, "BAG"@);
            }
        }
    }
    assert(aggregate(s) == Some((kind, rest)));
}

/// The text of an aggregate is that of its element behind two keywords.
proof fn lemma_aggregate_text(kind: Aggregate, x: TypeModel)
    ensures
        repr(aggregate_of(kind, x)) == aggregate_name(kind) + seq![' '] + ("OF"@ + seq![' ']
            + repr(x)),
{
    reveal_strlit("OF");
    reveal_strlit("LIST");
    reveal_strlit("SET");
    reveal_strlit("BAG");
    reveal_strlit("ARRAY");
    reveal_strlit("LIST OF ");
    reveal_strlit("SET OF ");
    reveal_strlit("BAG OF ");
    reveal_strlit("ARRAY OF ");
    let s = repr(aggregate_of(kind, x));
    let t = aggregate_name(kind) + seq![' '] + ("OF"@ + seq![' '] + repr(x));
    match kind {
        Aggregate::List => {
            assert(s == "LIST OF "@ + repr(x));
            assert(s =~= t);
        },
        Aggregate::SetOf => {
            assert(s == "SET OF "@ + repr(x));
            assert(s =~= t);
        },
        Aggregate::Bag => {
            assert(s == "BAG OF "@ + repr(x));
            assert(s =~= t);
        },
        Aggregate::Array => {
            assert(s == "ARRAY OF "@ + repr(x));
            assert(s =~= t);
        },
    }
}

/// An optional type is read back from its text, where what is optional is.
proof fn lemma_optional_is_read(x: TypeModel)
    requires
        plain_type(x),
        parse_type(repr(x)) == Ok::<TypeModel, Seq<char>>(x),
    ensures
        parse_type("OPTIONAL "@ + repr(x)) == Ok::<TypeModel, Seq<char>>(
            TypeModel::Optional(Box::new(x)),
        ),
{
    let s = "OPTIONAL "@ + repr(x);
    reveal_strlit("OPTIONAL");
    reveal_strlit("OPTIONAL ");
    lemma_repr_is_tight(x);
    assert(s =~= "OPTIONAL"@ + seq![' '] + repr(x));
    assert(s[0] == 'O');
    assert(s.last() == repr(x).last());
    assert(trim(s) == s);
    lemma_keyword_comes_off("OPTIONAL"@, repr(x));
}

/// A type that is no aggregate and not optional is read back from its text.
proof fn lemma_simple_is_read(ty: TypeModel)
    requires
        plain_type(ty),
        ty is Primitive || ty is Entity || ty is Select,
    ensures
        parse_type(repr(ty)) == Ok::<TypeModel, Seq<char>>(ty),
{
    let s = repr(ty);
    reveal_strlit("LIST");
    reveal_strlit("SET");
    reveal_strlit("BAG");
    reveal_strlit("ARRAY");
    reveal_strlit("OPTIONAL");
    lemma_repr_is_tight(ty);
    lemma_first_letter(ty);
    assert(trim(s) == s);
    lemma_no_keyword(s, "OPTIONAL"@);
    lemma_no_keyword(s, "LIST"@);
    lemma_no_keyword(s, "BAG"@);
    lemma_no_keyword(s, "ARRAY"@);
    match ty {
        TypeModel::Select(v) => {
            lemma_select_is_read(v);
        },
        _ => {
            lemma_no_keyword(s, "SET"@);
            lemma_word_is_read(ty);
        },
    }
}

/// A type is read back from its text. This holds of every plain type but those
/// with an enumeration in them, or with an optional element in an aggregate.
pub proof fn law_type_text_is_read_back(ty: TypeModel)
    requires
        plain_type(ty),
        readable(ty),
    ensures
        parse_type(repr(ty)) == Ok::<TypeModel, Seq<char>>(ty),
    decreases ty,
{
    match ty {
        TypeModel::List(x) => {
            law_type_text_is_read_back(*x);
            lemma_aggregate_text(Aggregate::List, *x);
            lemma_aggregate_is_read(Aggregate::List, *x, repr(ty));
        },
        TypeModel::SetOf(x) => {
            law_type_text_is_read_back(*x);
            lemma_aggregate_text(Aggregate::SetOf, *x);
            lemma_aggregate_is_read(Aggregate::SetOf, *x, repr(ty));
        },
        TypeModel::Bag(x) => {
            law_type_text_is_read_back(*x);
            lemma_aggregate_text(Aggregate::Bag, *x);
            lemma_aggregate_is_read(Aggregate::Bag, *x, repr(ty));
        },
        TypeModel::Array(x) => {
            law_type_text_is_read_back(*x);
            lemma_aggregate_text(Aggregate::Array, *x);
            lemma_aggregate_is_read(Aggregate::Array, *x, repr(ty));
        },
        TypeModel::Optional(x) => {
            law_type_text_is_read_back(*x);
            lemma_optional_is_read(*x);
        },
        _ => {
            lemma_simple_is_read(ty);
        },
    }
}

// ---------------------------------------------------------------------
// The newest declaration
// ---------------------------------------------------------------------

/// Whether the declaration `e` of `name` is that of a schema than which no newer
/// one declares `name`.
pub open spec fn newest_declaration(
    m: Seq<SchemaModel>,
    ranks: Seq<u8>,
    name: Seq<char>,
    e: EntityModel,
) -> bool {
    exists|i: int|
        0 <= i < m.len() && (#[trigger] m[i]).entities.contains_key(name) && m[i].entities[name]
            == e && forall|j: int|
            0 <= j < m.len() && (#[trigger] m[j]).entities.contains_key(name) ==> ranks[j]
                <= ranks[i]
}

/// Whether `x` is a schema of the given rank.
spec fn has_rank(m: Seq<SchemaModel>, ranks: Seq<u8>, r: int, x: SchemaModel) -> bool {
    exists|i: int| 0 <= i < m.len() && ranks[i] == r && #[trigger] m[i] == x
}

proof fn lemma_of_rank(m: Seq<SchemaModel>, ranks: Seq<u8>, r: int)
    requires
        ranks.len() >= m.len(),
    ensures
        forall|k: int|
            0 <= k < of_rank(m, ranks, r).len() ==> has_rank(
                m,
                ranks,
                r,
                #[trigger] of_rank(m, ranks, r)[k],
            ),
        forall|i: int|
            0 <= i < m.len() && ranks[i] == r ==> of_rank(m, ranks, r).contains(#[trigger] m[i]),
    decreases m.len(),
{
    if m.len() > 0 {
        let d = m.drop_last();
        let last = m.len() - 1;
        lemma_of_rank(d, ranks, r);
        let q = of_rank(m, ranks, r);
        let p = of_rank(d, ranks, r);
        assert forall|k: int| 0 <= k < q.len() implies has_rank(m, ranks, r, #[trigger] q[k]) by {
            if k < p.len() {
                assert(q[k] == p[k]);
                assert(has_rank(d, ranks, r, p[k]));
                let i = choose|i: int|
                    0 <= i < d.len() && ranks[i] == r && #[trigger] d[i] == p[k];
                assert(m[i] == q[k]);
            } else {
                assert(m[last] == q[k]);
            }
        }
        assert forall|i: int| 0 <= i < m.len() && ranks[i] == r implies q.contains(
            #[trigger] m[i],
        ) by {
            if i < last {
                assert(p.contains(d[i]));
                let k = choose|k: int| 0 <= k < p.len() && p[k] == d[i];
                assert(q[k] == m[i]);
            } else {
                assert(q[p.len() as int] == m[i]);
            }
        }
    }
}

/// The first schema of a list that declares `name` gives its declaration.
proof fn lemma_first_declared_at(m: Seq<SchemaModel>, name: Seq<char>) -> (k: int)
    requires
        first_declared(m).contains_key(name),
    ensures
        0 <= k < m.len(),
        m[k].entities.contains_key(name),
        first_declared(m)[name] == m[k].entities[name],
        forall|j: int| 0 <= j < k ==> !(#[trigger] m[j]).entities.contains_key(name),
    decreases m.len(),
{
    let d = m.drop_last();
    if first_declared(d).contains_key(name) {
        let k = lemma_first_declared_at(d, name);
        assert forall|j: int| 0 <= j < k implies !(#[trigger] m[j]).entities.contains_key(name) by {
            assert(m[j] == d[j]);
        }
        k
    } else {
        assert forall|j: int| 0 <= j < m.len() - 1 implies !(
        #[trigger] m[j]).entities.contains_key(name) by {
            assert(m[j] == d[j]);
            lemma_not_declared(d, name, j);
        }
        m.len() - 1
    }
}

proof fn lemma_not_declared(m: Seq<SchemaModel>, name: Seq<char>, j: int)
    requires
        0 <= j < m.len(),
        !first_declared(m).contains_key(name),
    ensures
        !m[j].entities.contains_key(name),
    decreases m.len(),
{
    if j < m.len() - 1 {
        lemma_not_declared(m.drop_last(), name, j);
    }
}

/// Where each schema of the ordered list stands among those of its rank or
/// below.
proof fn lemma_ranked_down(m: Seq<SchemaModel>, ranks: Seq<u8>, top: int, k: int) -> (i: int)
    requires
        ranks.len() >= m.len(),
        0 <= k < ranked_down(m, ranks, top).len(),
    ensures
        0 <= i < m.len(),
        m[i] == ranked_down(m, ranks, top)[k],
        ranks[i] <= top,
        forall|j: int|
            0 <= j < m.len() && ranks[i] < ranks[j] <= top ==> ranked_down(m, ranks, top).take(
                k,
            ).contains(#[trigger] m[j]),
    decreases top + 1,
{
    let a = of_rank(m, ranks, top);
    let b = ranked_down(m, ranks, top - 1);
    let all = ranked_down(m, ranks, top);
    lemma_of_rank(m, ranks, top);
    if k < a.len() {
        assert(all[k] == a[k]);
        assert(has_rank(m, ranks, top, a[k]));
        choose|i: int| 0 <= i < m.len() && ranks[i] == top && #[trigger] m[i] == a[k]
    } else {
        let i = lemma_ranked_down(m, ranks, top - 1, k - a.len());
        assert(all[k] == b[k - a.len()]);
        assert forall|j: int| 0 <= j < m.len() && ranks[i] < ranks[j] <= top implies all.take(
            k,
        ).contains(#[trigger] m[j]) by {
            if ranks[j] == top {
                assert(a.contains(m[j]));
                let h = choose|h: int| 0 <= h < a.len() && a[h] == m[j];
                assert(all.take(k)[h] == m[j]);
            } else {
                let c = b.take(k - a.len());
                assert(c.contains(m[j]));
                let h = choose|h: int| 0 <= h < c.len() && c[h] == m[j];
                assert(all.take(k)[h + a.len()] == m[j]);
            }
        }
        i
    }
}

/// The newest schema that declares an entity gives its declaration.
pub proof fn law_newest_declaration_counts(m: Seq<SchemaModel>, ranks: Seq<u8>, name: Seq<char>)
    requires
        ranks.len() == m.len(),
        forall|i: int| 0 <= i < ranks.len() ==> #[trigger] ranks[i] <= 6,
        first_declared(newest_first(m, ranks)).contains_key(name),
    ensures
        newest_declaration(m, ranks, name, first_declared(newest_first(m, ranks))[name]),
{
    let q = newest_first(m, ranks);
    let k = lemma_first_declared_at(q, name);
    let i = lemma_ranked_down(m, ranks, 6, k);
    assert forall|j: int| 0 <= j < m.len() && (#[trigger] m[j]).entities.contains_key(
        name,
    ) implies ranks[j] <= ranks[i] by {
        if ranks[j] > ranks[i] {
            assert(ranks[j] <= 6);
            assert(q.take(k).contains(m[j]));
            let h = choose|h: int| 0 <= h < k && q.take(k)[h] == m[j];
            assert(q[h] == m[j]);
            assert(!q[h].entities.contains_key(name));
        }
    }
    assert(m[i].entities.contains_key(name));
}

proof fn lemma_declared_at(m: Seq<SchemaModel>, name: Seq<char>) -> (k: int)
    requires
        declared(m).contains(name),
    ensures
        0 <= k < m.len(),
        m[k].entities.contains_key(name),
    decreases m.len(),
{
    if m.last().entities.contains_key(name) {
        m.len() - 1
    } else {
        lemma_declared_at(m.drop_last(), name)
    }
}

proof fn lemma_in_ranked(m: Seq<SchemaModel>, ranks: Seq<u8>, top: int, i: int)
    requires
        0 <= i < m.len() <= ranks.len(),
        ranks[i] <= top,
    ensures
        ranked_down(m, ranks, top).contains(m[i]),
    decreases top + 1,
{
    let a = of_rank(m, ranks, top);
    let b = ranked_down(m, ranks, top - 1);
    let all = ranked_down(m, ranks, top);
    if ranks[i] == top {
        lemma_of_rank(m, ranks, top);
        let h = choose|h: int| 0 <= h < a.len() && a[h] == m[i];
        assert(all[h] == m[i]);
    } else {
        lemma_in_ranked(m, ranks, top - 1, i);
        let h = choose|h: int| 0 <= h < b.len() && b[h] == m[i];
        assert(all[h + a.len()] == m[i]);
    }
}

proof fn lemma_declared_by(m: Seq<SchemaModel>, name: Seq<char>, j: int)
    requires
        0 <= j < m.len(),
        m[j].entities.contains_key(name),
    ensures
        declared(m).contains(name),
    decreases m.len(),
{
    if j < m.len() - 1 {
        lemma_declared_by(m.drop_last(), name, j);
    }
}

/// No entity is lost by the order: every entity of some schema has a
/// declaration, and nothing else has one.
pub proof fn law_every_entity_has_a_declaration(m: Seq<SchemaModel>, ranks: Seq<u8>)
    requires
        ranks.len() == m.len(),
        forall|i: int| 0 <= i < ranks.len() ==> #[trigger] ranks[i] <= 6,
    ensures
        first_declared(newest_first(m, ranks)).dom() == declared(m),
{
    let q = newest_first(m, ranks);
    assert forall|name: Seq<char>| #[trigger]
        first_declared(q).contains_key(name) <==> declared(m).contains(name) by {
        if first_declared(q).contains_key(name) {
            let k = lemma_first_declared_at(q, name);
            let i = lemma_ranked_down(m, ranks, 6, k);
            lemma_declared_by(m, name, i);
        }
        if declared(m).contains(name) {
            let i = lemma_declared_at(m, name);
            assert(ranks[i] <= 6);
            lemma_in_ranked(m, ranks, 6, i);
            let h = choose|h: int| 0 <= h < q.len() && q[h] == m[i];
            if !first_declared(q).contains_key(name) {
                lemma_not_declared(q, name, h);
            }
        }
    }
    assert(first_declared(q).dom() =~= declared(m));
}

} // verus!
