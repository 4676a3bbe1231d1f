//! What the reader gives, statement by statement.

use crate::express::reader::{
    abstract_flag, attribute_section, derive_section, derive_statement, derive_statements,
    entity_name, identifiers, label_of, parent_names, read_attr_section, read_attrs, read_derived,
    read_entity, read_segment, read_segments, read_type, redeclared_name, supertype_body,
    uncommented, Segment,
};
use crate::express::type_parser::{identifier, lowered, parse_type};
use crate::express::{AttrModel, DerivedModel};
use crate::text::{
    all_ascii, ascii_lower, closes, depth, index_of, is_ascii_char, is_ascii_word, is_space,
    last_index_of, lemma_index_of, lower_char, lowercase, split, split_top, starts_with, top_index,
    trim, trim_start, Brackets,
};
use crate::text_laws::{
    law_first_and_last_place, law_split_top_in_parts, law_top_index_is_first, law_trimmed_stays,
};
use vstd::prelude::*;
use vstd::string::*;

verus! {

// ---------------------------------------------------------------------
// Attribute sections
// ---------------------------------------------------------------------

/// Attributes are read statement by statement: those of two lists of statements one
/// after the other are those of the first, then those of the second.
pub proof fn law_statements_in_parts(entity: Seq<char>, a: Seq<Seq<char>>, b: Seq<Seq<char>>)
    ensures
        read_segments(entity, a + b).own == read_segments(entity, a).own + read_segments(
            entity,
            b,
        ).own,
        read_segments(entity, a + b).redeclared == read_segments(entity, a).redeclared
            + read_segments(entity, b).redeclared,
        read_segments(entity, a + b).complaints == read_segments(entity, a).complaints
            + read_segments(entity, b).complaints,
    decreases b.len(),
{
    let x = read_segments(entity, a);
    if b.len() == 0 {
        assert(a + b =~= a);
        assert(x.own + Seq::<AttrModel>::empty() =~= x.own);
        assert(x.redeclared + Seq::<AttrModel>::empty() =~= x.redeclared);
        assert(x.complaints + Seq::<Seq<char>>::empty() =~= x.complaints);
    } else {
        let c = b.drop_last();
        law_statements_in_parts(entity, a, c);
        assert((a + b).drop_last() =~= a + c);
        assert((a + b).last() == b.last());
        let y = read_segments(entity, c);
        match read_segment(entity, b.last()) {
            Segment::Nothing => {},
            Segment::Own(attrs) => {
                assert((x.own + y.own) + attrs =~= x.own + (y.own + attrs));
            },
            Segment::Redeclared(attr) => {
                assert((x.redeclared + y.redeclared).push(attr) =~= x.redeclared
                    + y.redeclared.push(attr));
            },
            Segment::Complaint(w) => {
                assert((x.complaints + y.complaints).push(w) =~= x.complaints + y.complaints.push(
                    w,
                ));
            },
        }
    }
}

/// One statement gives its attributes, its redeclaration, its complaint, or nothing.
pub proof fn law_single_statement(entity: Seq<char>, s: Seq<char>)
    ensures
        ({
            let r = read_segments(entity, seq![s]);
            match read_segment(entity, s) {
                Segment::Nothing => r.own.len() == 0 && r.redeclared.len() == 0
                    && r.complaints.len() == 0,
                Segment::Own(attrs) => r.own == attrs && r.redeclared.len() == 0
                    && r.complaints.len() == 0,
                Segment::Redeclared(attr) => r.own.len() == 0 && r.redeclared == seq![attr]
                    && r.complaints.len() == 0,
                Segment::Complaint(w) => r.own.len() == 0 && r.redeclared.len() == 0
                    && r.complaints == seq![w],
            }
        }),
{
    reveal_with_fuel(read_segments, 2);
    let q = seq![s];
    assert(q.drop_last() =~= seq![]);
    assert(q.last() == s);
    if let Segment::Own(attrs) = read_segment(entity, s) {
        assert(Seq::<AttrModel>::empty() + attrs =~= attrs);
    }
}

/// Two attribute sections, the first with its brackets closed, put together with a
/// semicolon give the attributes, redeclarations and complaints of the first, then
/// those of the second.
pub proof fn law_sections_in_parts(entity: Seq<char>, s1: Seq<char>, s2: Seq<char>)
    requires
        depth(s1, Brackets::Round) == 0,
    ensures
        read_attrs(entity, s1 + seq![';'] + s2).own == read_attrs(entity, s1).own + read_attrs(
            entity,
            s2,
        ).own,
        read_attrs(entity, s1 + seq![';'] + s2).redeclared == read_attrs(entity, s1).redeclared
            + read_attrs(entity, s2).redeclared,
        read_attrs(entity, s1 + seq![';'] + s2).complaints == read_attrs(entity, s1).complaints
            + read_attrs(entity, s2).complaints,
{
    law_split_top_in_parts(s1, ';', s2, Brackets::Round);
    law_statements_in_parts(
        entity,
        split_top(s1, ';', Brackets::Round),
        split_top(s2, ';', Brackets::Round),
    );
}

/// The statements, by place, that are redeclarations.
pub open spec fn redeclarations(entity: Seq<char>, segments: Seq<Seq<char>>) -> Set<int> {
    Set::new(
        |i: int| 0 <= i < segments.len() && read_segment(entity, segments[i]) is Redeclared,
    )
}

proof fn lemma_redeclarations(entity: Seq<char>, segments: Seq<Seq<char>>)
    ensures
        redeclarations(entity, segments).finite(),
        read_segments(entity, segments).redeclared.len() == redeclarations(entity, segments).len(),
        forall|i: int|
            #![trigger segments[i]]
            0 <= i < segments.len() && read_segment(entity, segments[i]) is Redeclared
                ==> read_segments(entity, segments).redeclared.contains(
                read_segment(entity, segments[i])->Redeclared_0,
            ),
    decreases segments.len(),
{
    let all = redeclarations(entity, segments);
    if segments.len() == 0 {
        assert(all =~= Set::empty());
    } else {
        let d = segments.drop_last();
        let n = segments.len() - 1;
        lemma_redeclarations(entity, d);
        let before = redeclarations(entity, d);
        assert(segments[n] == segments.last());
        assert forall|i: int| 0 <= i < d.len() implies #[trigger] segments[i] == d[i] by {}
        let r = read_segments(entity, segments).redeclared;
        let q = read_segments(entity, d).redeclared;
        if read_segment(entity, segments.last()) is Redeclared {
            assert(all =~= before.insert(n));
            assert(!before.contains(n));
            let x = read_segment(entity, segments.last())->Redeclared_0;
            assert(r[q.len() as int] == x);
            assert(r.contains(x));
        } else {
            assert(all =~= before);
        }
        assert forall|i: int|
            #![trigger segments[i]]
            0 <= i < segments.len() && read_segment(
                entity,
                segments[i],
            ) is Redeclared implies r.contains(
            read_segment(entity, segments[i])->Redeclared_0,
        ) by {
            if i < d.len() {
                let x = read_segment(entity, d[i])->Redeclared_0;
                assert(q.contains(x));
                let k = choose|k: int| 0 <= k < q.len() && q[k] == x;
                assert(r[k] == x);
            }
        }
    }
}

/// Every statement that reads as a redeclaration is among the redeclared attributes,
/// and there are as many of these as there are such statements.
pub proof fn law_every_redeclaration_is_kept(entity: Seq<char>, section: Seq<char>)
    ensures
        ({
            let segments = split_top(section, ';', Brackets::Round);
            let r = read_attrs(entity, section).redeclared;
            &&& forall|i: int|
                #![trigger segments[i]]
                0 <= i < segments.len() && read_segment(entity, segments[i]) is Redeclared
                    ==> r.contains(read_segment(entity, segments[i])->Redeclared_0)
            &&& r.len() == Set::new(
                |i: int|
                    0 <= i < segments.len() && read_segment(entity, segments[i]) is Redeclared,
            ).len()
        }),
{
    let segments = split_top(section, ';', Brackets::Round);
    lemma_redeclarations(entity, segments);
    assert(redeclarations(entity, segments) =~= Set::new(
        |i: int| 0 <= i < segments.len() && read_segment(entity, segments[i]) is Redeclared,
    ));
}

// ---------------------------------------------------------------------
// Single statements
// ---------------------------------------------------------------------

/// A character of a name, possibly with its supertype.
spec fn name_char(c: char) -> bool {
    is_ascii_word(c) || c == '\\' || c == '.'
}

spec fn name_text(s: Seq<char>) -> bool {
    forall|i: int| 0 <= i < s.len() ==> name_char(#[trigger] s[i])
}

proof fn lemma_name_depth(s: Seq<char>)
    requires
        name_text(s),
    ensures
        depth(s, Brackets::Both) == 0,
    decreases s.len(),
{
    if s.len() > 0 {
        let d = s.drop_last();
        assert forall|i: int| 0 <= i < d.len() implies name_char(#[trigger] d[i]) by {
            assert(d[i] == s[i]);
        }
        lemma_name_depth(d);
        assert(name_char(s[s.len() - 1]));
    }
}

/// A statement `name : type` is cut at its colon.
proof fn lemma_statement(np: Seq<char>, t: Seq<char>)
    requires
        name_text(np),
        np.len() > 0,
        t.len() > 0,
        !is_space(t[0]),
        !is_space(t.last()),
    ensures
        ({
            let s = np + seq![':'] + t;
            &&& trim(s) == s
            &&& top_index(s, ':', Brackets::Both) == Some(np.len() as int)
            &&& trim(s.take(np.len() as int)) == np
            &&& trim(s.skip(np.len() as int + 1)) == t
            &&& trim(np) == np
        }),
{
    let s = np + seq![':'] + t;
    let n = np.len() as int;
    assert(s[0] == np[0] && name_char(np[0]));
    assert(s.last() == t.last());
    law_trimmed_stays(s);
    assert(np.last() == np[np.len() - 1]);
    law_trimmed_stays(np);
    law_trimmed_stays(t);
    assert(s.take(n) =~= np);
    assert(s.skip(n + 1) =~= t);
    lemma_name_depth(np);
    law_top_index_is_first(s, ':', Brackets::Both);
    assert(s[n] == ':');
    assert(depth(s.take(n), Brackets::Both) == 0);
    if top_index(s, ':', Brackets::Both) is Some {
        let i = top_index(s, ':', Brackets::Both)->0;
        if i < n {
            assert(s[i] == np[i] && name_char(np[i]));
        }
    }
}

proof fn lemma_identifier(name: Seq<char>)
    requires
        identifier(name),
        ascii_lower(name) == name,
    ensures
        name_text(name),
        lowercase(name) == name,
        trim(name) == name,
        !starts_with(name, "self\\"@),
        identifiers(lowered(split(name, ','))) == seq![name],
{
    reveal_strlit("self\\");
    assert(all_ascii(name)) by {
        assert forall|i: int| 0 <= i < name.len() implies is_ascii_char(#[trigger] name[i]) by {
            assert(is_ascii_word(name[i]));
        }
    }
    assert(is_ascii_word(name[0]) && is_ascii_word(name[name.len() - 1]));
    law_trimmed_stays(name);
    if starts_with(name, "self\\"@) {
        assert(name.take(5)[4] == name[4]);
        assert(is_ascii_word(name[4]));
    }
    lemma_index_of(name, ',');
    if index_of(name, ',') is Some {
        assert(is_ascii_word(name[index_of(name, ',')->0]));
    }
    let q = seq![name];
    assert(split(name, ',') == q);
    reveal_with_fuel(lowered, 2);
    reveal_with_fuel(identifiers, 2);
    assert(q.drop_last() =~= seq![]);
    assert(lowered(q) =~= q);
    assert(identifiers(q) =~= q);
}

/// A statement `name : type` declares the attribute `name` of that type.
pub proof fn law_plain_attribute_is_read(entity: Seq<char>, name: Seq<char>, t: Seq<char>)
    requires
        identifier(name),
        ascii_lower(name) == name,
        t.len() > 0,
        !is_space(t[0]),
        !is_space(t.last()),
        parse_type(t) is Ok,
    ensures
        read_segment(entity, name + seq![':'] + t) == Segment::Own(
            seq![AttrModel { name, ty: parse_type(t)->Ok_0 }],
        ),
{
    lemma_identifier(name);
    lemma_statement(name, t);
    let ty = parse_type(t)->Ok_0;
    assert(redeclared_name(name) is None);
    assert(seq![name].map_values(|n: Seq<char>| AttrModel { name: n, ty }) =~= seq![
        AttrModel { name, ty },
    ]);
}

proof fn lemma_qualified(np: Seq<char>, sup: Seq<char>, attr: Seq<char>)
    requires
        all_ascii(np),
        ascii_lower(np) == "self\\"@ + sup + seq!['.'] + attr,
        identifier(sup),
        identifier(attr),
    ensures
        name_text(np),
        np.len() > 0,
        lowercase(np) == "self\\"@ + sup + seq!['.'] + attr,
        starts_with(lowercase(np), "self\\"@),
        lowercase(np).skip(5) == sup + seq!['.'] + attr,
        last_index_of(lowercase(np), '.') == Some(5 + sup.len() as int),
        last_index_of(lowercase(np).skip(5), '.') == Some(sup.len() as int),
        lowercase(np).skip(5 + sup.len() as int + 1) == attr,
        trim(attr) == attr,
        trim(sup) == sup,
{
    reveal_strlit("self\\");
    let low = "self\\"@ + sup + seq!['.'] + attr;
    assert("self\\"@.len() == 5);
    assert(low.len() == 5 + sup.len() + 1 + attr.len());
    assert forall|i: int| 0 <= i < np.len() implies name_char(#[trigger] np[i]) by {
        assert(lower_char(np[i]) == low[i]);
        if i >= 5 && i < 5 + sup.len() {
            assert(low[i] == sup[i - 5] && is_ascii_word(sup[i - 5]));
        } else if i > 5 + sup.len() {
            let k = i - 5 - sup.len() - 1;
            assert(low[i] == attr[k] && is_ascii_word(attr[k]));
        } else {
            assert(name_char(low[i]));
        }
    }
    assert(low.take(5) =~= "self\\"@);
    assert(low.skip(5) =~= sup + seq!['.'] + attr);
    assert(low.skip(5 + sup.len() as int + 1) =~= attr);
    let rest = sup + seq!['.'] + attr;
    law_first_and_last_place(low, '.');
    law_first_and_last_place(rest, '.');
    assert(low[5 + sup.len() as int] == '.');
    assert(rest[sup.len() as int] == '.');
    assert forall|k: int| 0 <= k < attr.len() implies attr[k] != '.' by {
        assert(is_ascii_word(attr[k]));
    }
    assert forall|i: int| 5 + sup.len() < i < low.len() implies low[i] != '.' by {
        assert(low[i] == attr[i - 5 - sup.len() - 1]);
    }
    assert forall|i: int| sup.len() < i < rest.len() implies rest[i] != '.' by {
        assert(rest[i] == attr[i - sup.len() - 1]);
    }
    assert(is_ascii_word(attr[0]) && is_ascii_word(attr[attr.len() - 1]));
    assert(is_ascii_word(sup[0]) && is_ascii_word(sup[sup.len() - 1]));
    law_trimmed_stays(attr);
    law_trimmed_stays(sup);
}

/// A statement `SELF\supertype.attr : type`, in whatever case, redeclares the
/// attribute `attr` with that type.
pub proof fn law_redeclaration_is_read(
    entity: Seq<char>,
    np: Seq<char>,
    sup: Seq<char>,
    attr: Seq<char>,
    t: Seq<char>,
)
    requires
        all_ascii(np),
        ascii_lower(np) == "self\\"@ + sup + seq!['.'] + attr,
        identifier(sup),
        identifier(attr),
        t.len() > 0,
        !is_space(t[0]),
        !is_space(t.last()),
        parse_type(t) is Ok,
    ensures
        read_segment(entity, np + seq![':'] + t) == Segment::Redeclared(
            AttrModel { name: attr, ty: parse_type(t)->Ok_0 },
        ),
{
    lemma_qualified(np, sup, attr);
    lemma_statement(np, t);
    assert(redeclared_name(np) == Some(attr));
}

/// A statement of the `DERIVE` section derives the attribute before its colon: that
/// of a supertype, or one of the entity.
pub proof fn law_derivation_is_read(
    np: Seq<char>,
    sup: Seq<char>,
    attr: Seq<char>,
    t: Seq<char>,
)
    requires
        all_ascii(np),
        identifier(sup),
        identifier(attr),
        ascii_lower(np) == "self\\"@ + sup + seq!['.'] + attr || (ascii_lower(np) == np && np
            == attr),
        t.len() > 0,
        !is_space(t[0]),
        !is_space(t.last()),
    ensures
        derive_statement(np + seq![':'] + t) == Some(
            DerivedModel {
                super_qual: if np == attr {
                    None
                } else {
                    Some(sup)
                },
                name: attr,
            },
        ),
{
    if np == attr {
        if ascii_lower(np) == "self\\"@ + sup + seq!['.'] + attr {
            lemma_qualified(np, sup, attr);
            assert(np.len() == ascii_lower(np).len());
        }
        lemma_identifier(np);
        lemma_statement(np, t);
    } else {
        lemma_qualified(np, sup, attr);
        lemma_statement(np, t);
        let low = lowercase(np);
        assert((sup + seq!['.'] + attr).take(sup.len() as int) =~= sup);
        assert((sup + seq!['.'] + attr).skip(sup.len() as int + 1) =~= attr);
    }
}

/// Derived attributes are read statement by statement, in order.
pub proof fn law_derivations_in_parts(a: Seq<Seq<char>>, b: Seq<Seq<char>>, s: Seq<char>)
    ensures
        derive_statements(a + b) == derive_statements(a) + derive_statements(b),
        derive_statements(seq![s]) == (match derive_statement(s) {
            Some(t) => seq![t],
            None => Seq::empty(),
        }),
    decreases b.len(),
{
    reveal_with_fuel(derive_statements, 2);
    let q = seq![s];
    assert(q.drop_last() =~= seq![]);
    assert(derive_statements(q) =~= (match derive_statement(s) {
        Some(t) => seq![t],
        None => Seq::empty(),
    }));
    if b.len() == 0 {
        assert(a + b =~= a);
        assert(derive_statements(a) + Seq::<DerivedModel>::empty() =~= derive_statements(a));
    } else {
        law_derivations_in_parts(a, b.drop_last(), s);
        assert((a + b).drop_last() =~= a + b.drop_last());
        assert((a + b).last() == b.last());
        if derive_statement(b.last()) is Some {
            let t = derive_statement(b.last())->0;
            assert((derive_statements(a) + derive_statements(b.drop_last())).push(t)
                =~= derive_statements(a) + derive_statements(b.drop_last()).push(t));
        }
    }
}

/// Two `DERIVE` sections, the first with its brackets closed, put together with a
/// semicolon give the targets of the first, then those of the second.
pub proof fn law_derive_sections_in_parts(s1: Seq<char>, s2: Seq<char>)
    requires
        depth(s1, Brackets::Round) == 0,
    ensures
        read_derived(s1 + seq![';'] + s2) == read_derived(s1) + read_derived(s2),
{
    law_split_top_in_parts(s1, ';', s2, Brackets::Round);
    law_derivations_in_parts(
        split_top(s1, ';', Brackets::Round),
        split_top(s2, ';', Brackets::Round),
        s1,
    );
}

// ---------------------------------------------------------------------
// Names and lists
// ---------------------------------------------------------------------

/// Lists of names are taken over in order; empty ones are left out.
pub proof fn law_names_in_parts(a: Seq<Seq<char>>, b: Seq<Seq<char>>, x: Seq<char>)
    ensures
        lowered(a + b) == lowered(a) + lowered(b),
        lowered(seq![x]) == if trim(x).len() == 0 {
            Seq::empty()
        } else {
            seq![lowercase(trim(x))]
        },
        identifiers(a + b) == identifiers(a) + identifiers(b),
        identifiers(seq![x]) == if identifier(x) {
            seq![x]
        } else {
            Seq::empty()
        },
    decreases b.len(),
{
    reveal_with_fuel(lowered, 2);
    reveal_with_fuel(identifiers, 2);
    let q = seq![x];
    assert(q.drop_last() =~= seq![]);
    assert(lowered(q) =~= if trim(x).len() == 0 {
        Seq::empty()
    } else {
        seq![lowercase(trim(x))]
    });
    assert(identifiers(q) =~= if identifier(x) {
        seq![x]
    } else {
        Seq::empty()
    });
    if b.len() == 0 {
        assert(a + b =~= a);
        assert(lowered(a) + Seq::<Seq<char>>::empty() =~= lowered(a));
        assert(identifiers(a) + Seq::<Seq<char>>::empty() =~= identifiers(a));
    } else {
        law_names_in_parts(a, b.drop_last(), x);
        assert((a + b).drop_last() =~= a + b.drop_last());
        assert((a + b).last() == b.last());
        assert(lowered(a + b) =~= lowered(a) + lowered(b));
        assert(identifiers(a + b) =~= identifiers(a) + identifiers(b));
    }
}

// ---------------------------------------------------------------------
// Blocks
// ---------------------------------------------------------------------

/// What an entity block declares: its name, the names in its `SUBTYPE OF` list, the
/// attributes of its sections, and its flag and clause. Complaints about the clause
/// come before those about attributes.
pub proof fn law_entity_fields(block: Seq<char>)
    ensures
        read_entity(block).0 is Some <==> entity_name(block) is Some,
        read_entity(block).0 matches Some(e) ==> {
            &&& Some(e.name) == entity_name(block)
            &&& e.parents == parent_names(
                crate::patterns::first_group(crate::express::reader::SUBTYPE_OF@, block),
            )
            &&& attribute_section(block) matches Some(s) ==> e.own_attrs == read_attrs(e.name, s).own
                && e.redeclared_attrs == read_attrs(e.name, s).redeclared
            &&& attribute_section(block) is None ==> e.own_attrs.len() == 0
                && e.redeclared_attrs.len() == 0
            &&& derive_section(block) matches Some(s) ==> e.derived_attrs == read_derived(s)
            &&& derive_section(block) is None ==> e.derived_attrs.len() == 0
            &&& e.is_abstract == abstract_flag(block)
            &&& e.supertype_expr is Some ==> supertype_body(block) is Some
            &&& supertype_body(block) is None ==> read_entity(block).1 == read_attr_section(
                e.name,
                attribute_section(block),
            ).complaints
        },
        entity_name(block) is None ==> read_entity(block).1.len() == 1,
{
    if entity_name(block) is Some {
        let name = entity_name(block)->0;
        let attrs = read_attr_section(name, attribute_section(block));
        assert(Seq::<Seq<char>>::empty() + attrs.complaints =~= attrs.complaints);
    }
}

/// A type block `TYPE name = type;` names a type by that name.
pub proof fn law_type_block_names_its_type(name: Seq<char>, t: Seq<char>, rest: Seq<char>)
    requires
        identifier(name),
        ascii_lower(name) == name,
        t.len() > 0,
        !is_space(t[0]),
        !is_space(t.last()),
        depth(t, Brackets::Round) == 0,
        forall|i: int| 0 <= i < t.len() ==> #[trigger] t[i] != ';',
        parse_type(t) is Ok,
    ensures
        read_type("TYPE "@ + name + seq!['='] + t + seq![';'] + rest) == Ok::<
            crate::express::TypeDefModel,
            Seq<char>,
        >(crate::express::TypeDefModel { name, aliased: parse_type(t)->Ok_0 }),
{
    reveal_strlit("TYPE ");
    let block = "TYPE "@ + name + seq!['='] + t + seq![';'] + rest;
    assert("TYPE "@.len() == 5);
    assert(block.take(5) =~= "TYPE "@);
    let after = block.skip(5);
    assert(after =~= name + seq!['='] + t + seq![';'] + rest);
    lemma_identifier(name);
    lemma_index_of(after, '=');
    let n = name.len() as int;
    assert(after[n] == '=');
    assert forall|j: int| 0 <= j < n implies after[j] != '=' by {
        assert(after[j] == name[j] && is_ascii_word(name[j]));
    }
    assert(index_of(after, '=') == Some(n));
    assert(after.take(n) =~= name);
    let tail = after.skip(n + 1);
    assert(tail =~= t + seq![';'] + rest);
    law_top_index_is_first(tail, ';', Brackets::Round);
    let m = t.len() as int;
    assert(tail[m] == ';');
    assert(tail.take(m) =~= t);
    if top_index(tail, ';', Brackets::Round) is Some {
        let i = top_index(tail, ';', Brackets::Round)->0;
        if i < m {
            assert(tail[i] == t[i]);
        }
    }
    law_trimmed_stays(t);
}

/// The label of a schema file is its stem in lower case without the long-form
/// ending.
pub proof fn law_label_drops_the_ending(s: Seq<char>, ending: Seq<char>)
    requires
        ending == "_mim_lf"@ || ending == "_aim_lf"@ || ending == "_arm_lf"@,
        all_ascii(s),
        ascii_lower(s) == s,
    ensures
        label_of(s + ending) == s,
{
    reveal_strlit("_mim_lf");
    reveal_strlit("_aim_lf");
    reveal_strlit("_arm_lf");
    let t = s + ending;
    assert forall|i: int| 0 <= i < t.len() implies is_ascii_char(#[trigger] t[i]) by {
        if i < s.len() {
            assert(t[i] == s[i]);
        } else {
            assert(t[i] == ending[i - s.len()]);
        }
    }
    assert forall|i: int| 0 <= i < t.len() implies lower_char(t[i]) == t[i] by {
        if i < s.len() {
            assert(ascii_lower(s)[i] == lower_char(s[i]));
            assert(t[i] == s[i]);
        } else {
            assert(t[i] == ending[i - s.len()]);
        }
    }
    assert(ascii_lower(t) =~= t);
    assert(t.skip(t.len() - 7) =~= ending);
    assert(t.take(t.len() - 7) =~= s);
}

// ---------------------------------------------------------------------
// Parts of a block
// ---------------------------------------------------------------------

/// A block is of an abstract entity where the two words stand in it, with a space, two
/// spaces or a line feed between them.
pub proof fn law_abstract_flag(a: Seq<char>, b: Seq<char>)
    ensures
        abstract_flag(a + "ABSTRACT SUPERTYPE"@ + b),
        abstract_flag(a + "ABSTRACT  SUPERTYPE"@ + b),
        abstract_flag(a + "ABSTRACT\nSUPERTYPE"@ + b),
{
    lemma_text_inside(a, "ABSTRACT SUPERTYPE"@, b);
    lemma_text_inside(a, "ABSTRACT  SUPERTYPE"@, b);
    lemma_text_inside(a, "ABSTRACT\nSUPERTYPE"@, b);
}

proof fn lemma_text_inside(a: Seq<char>, p: Seq<char>, b: Seq<char>)
    ensures
        crate::text::contains(a + p + b, p),
{
    let s = a + p + b;
    assert(s.subrange(a.len() as int, a.len() as int + p.len()) =~= p);
    assert(crate::text::occurs_at(s, p, a.len() as int));
}

/// The parents are the names of the list, in order.
pub proof fn law_parents_in_parts(a: Seq<char>, b: Seq<char>)
    ensures
        parent_names(Some(a + seq![','] + b)) == parent_names(Some(a)) + parent_names(Some(b)),
        parent_names(None).len() == 0,
{
    crate::text_laws::law_split_in_parts(a, ',', b);
    law_names_in_parts(split(a, ','), split(b, ','), a);
}

/// The body of a clause goes up to the bracket that closes it.
pub proof fn law_clause_ends_at_its_bracket(body: Seq<char>, rest: Seq<char>)
    requires
        depth(body, Brackets::Round) == 0,
        forall|j: int|
            0 <= j < body.len() && closes(#[trigger] body[j], Brackets::Round) ==> 1 + depth(
                body.take(j + 1),
                Brackets::Round,
            ) != 0,
    ensures
        crate::express::reader::bracket_body(body + seq![')'] + rest) == Some(body),
{
    let s = body + seq![')'] + rest;
    let n = body.len() as int;
    crate::text_laws::law_close_index_is_first(s, Brackets::Round, 1);
    assert(s[n] == ')');
    assert(s.take(n + 1) =~= body.push(')'));
    assert(body.push(')').drop_last() =~= body);
    assert(depth(s.take(n + 1), Brackets::Round) == -1);
    assert forall|j: int| 0 <= j < n && closes(s[j], Brackets::Round) implies 1 + depth(
        #[trigger] s.take(j + 1),
        Brackets::Round,
    ) != 0 by {
        assert(s[j] == body[j]);
        assert(s.take(j + 1) =~= body.take(j + 1));
        assert(closes(body[j], Brackets::Round));
    }
    assert(s.take(n) =~= body);
    let found = crate::text::close_index(s, Brackets::Round, 1);
    if found is Some {
        let i = found->0;
        if i < n {
            assert(1 + depth(s.take(i + 1), Brackets::Round) != 0);
        } else if i > n {
            assert(1 + depth(s.take(n + 1), Brackets::Round) == 0);
        }
    } else {
        assert(1 + depth(s.take(n + 1), Brackets::Round) == 0);
    }
}

/// The body of a block is what follows its first semicolon outside brackets.
pub proof fn law_body_follows_the_header(head: Seq<char>, body: Seq<char>)
    requires
        depth(head, Brackets::Round) == 0,
        forall|i: int| 0 <= i < head.len() ==> #[trigger] head[i] != ';',
    ensures
        crate::express::reader::after_header(head + seq![';'] + body) == Some(body),
{
    let s = head + seq![';'] + body;
    let n = head.len() as int;
    law_top_index_is_first(s, ';', Brackets::Round);
    assert(s[n] == ';');
    assert(s.take(n) =~= head);
    let found = top_index(s, ';', Brackets::Round);
    if found is Some {
        let i = found->0;
        if i < n {
            assert(s[i] == head[i]);
        } else if i > n {
            assert(depth(s.take(n), Brackets::Round) == 0);
        }
    } else {
        assert(depth(s.take(n), Brackets::Round) == 0);
    }
    assert(s.skip(n + 1) =~= body);
}

/// A line outside blocks that opens none is passed over.
pub proof fn law_other_lines_are_passed_over(before: Seq<Seq<char>>, line: Seq<char>)
    requires
        crate::express::reader::scan_lines(before).kind is None,
        crate::express::type_parser::keyword_rest(trim_start(line), "ENTITY"@) is None,
        crate::express::type_parser::keyword_rest(trim_start(line), "TYPE"@) is None,
    ensures
        crate::express::reader::scan_lines(before.push(line))
            == crate::express::reader::scan_lines(before),
{
    assert(before.push(line).drop_last() =~= before);
    assert(before.push(line).last() == line);
}

/// An entity block can stand on one line.
pub proof fn law_entity_on_one_line(before: Seq<Seq<char>>, line: Seq<char>)
    requires
        crate::express::reader::scan_lines(before).kind is None,
        crate::express::type_parser::keyword_rest(trim_start(line), "ENTITY"@) is Some,
        crate::text::contains(line, "END_ENTITY"@),
    ensures
        ({
            let st = crate::express::reader::scan_lines(before);
            let after = crate::express::reader::scan_lines(before.push(line));
            let block = "ENTITY "@ + crate::express::type_parser::keyword_rest(
                trim_start(line),
                "ENTITY"@,
            )->0 + "\n"@;
            &&& after.kind is None
            &&& after.types == st.types
            &&& after.warnings == st.warnings + read_entity(block).1
            &&& read_entity(block).0 is None ==> after.entities == st.entities
            &&& read_entity(block).0 matches Some(e) ==> after.entities == st.entities.insert(
                e.name,
                e,
            )
        }),
{
    assert(before.push(line).drop_last() =~= before);
    assert(before.push(line).last() == line);
}

// ---------------------------------------------------------------------
// Comments
// ---------------------------------------------------------------------

/// A comment is taken out of the text but for its line feeds, and what follows it is
/// read on.
pub proof fn law_comments_are_taken_out(b: Seq<u8>, i: int, j: int)
    requires
        0 <= i,
        i + 1 < b.len(),
        b[i] == 40,
        b[i + 1] == 42,
        crate::express::reader::closes_at(b, i + 2, j),
    ensures
        uncommented(b, i) == Seq::new(
            crate::express::reader::line_feeds(b, i + 2, j),
            |k: int| '\n',
        ) + uncommented(b, j + 2),
{
    crate::express::reader::law_comments_leave_their_lines(b, i + 2, j);
}

/// A schema has its label, and the entities, types and complaints that its lines give
/// once the comments are out.
pub proof fn law_schema_is_what_its_lines_give(text: &str, label: Seq<char>)
    ensures
        ({
            let s = crate::express::reader::schema_of(text, label);
            let st = crate::express::reader::scan_lines(
                crate::text::lines(uncommented(text.spec_bytes(), 0)),
            );
            &&& s.source_label == label
            &&& s.entities == st.entities
            &&& s.types == st.types
            &&& s.parse_warnings == st.warnings
        }),
{
}

} // verus!
