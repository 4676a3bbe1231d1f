//! Reader for schema text: finds `ENTITY` and `TYPE` blocks and extracts what
//! they declare.

use crate::express::supertype_parser::{self, parse_body};
use crate::express::type_parser::{
    identifier, is_valid_identifier, keyword_rest, lower_all, lowered, match_keyword_prefix,
    parse_type, parse_type_chars,
};
use crate::express::{
    AttrModel, AttrSpec, DerivedModel, DerivedTarget, EntityModel, EntitySchema, Schema,
    SchemaModel, SuperModel, SupertypeExpr, TypeDef, TypeDefModel,
};
use crate::names::{append_items, push_item, Table};
use crate::patterns::{find_group, find_match, first_group, match_parts};
use crate::text::{
    chars_of, close_index, contains, find_char, find_close, find_last_char, find_top, has_prefix,
    has_text, index_of, join, join3, join_all, joined, last_index_of, lines, lower, lowercase,
    quote, quoted, split, split_at_char, split_lines, split_outside, split_top, starts_with,
    string_of, top_index, trim, trim_start, trimmed, trimmed_start, Brackets,
};
use vstd::prelude::*;
use vstd::slice::slice_subrange;
use vstd::string::*;
use vstd::utf8::encode_utf8;

verus! {

broadcast use vstd::string::group_string_axioms;

pub const SUPERTYPE_OF: &'static str = r"(?is)\bSUPERTYPE\s+OF\s*\(";

pub const ENTITY_NAME: &'static str = r"(?i)\bENTITY\s+([a-z_][a-z0-9_]*)";

pub const SUBTYPE_OF: &'static str = r"(?is)\bSUBTYPE\s+OF\s*\(([^)]*)\)";

/// Section keywords count only at the start of a line: an inline `UNIQUE` is
/// no section.
pub const ATTRIBUTES_END: &'static str = r"(?m)^\s*(DERIVE|INVERSE|WHERE|UNIQUE|END_ENTITY)\b";

pub const DERIVE_START: &'static str = r"(?m)^\s*DERIVE\b";

pub const DERIVE_END: &'static str = r"(?m)^\s*(INVERSE|WHERE|UNIQUE|END_ENTITY)\b";

// ---------------------------------------------------------------------
// Comments
// ---------------------------------------------------------------------

/// The text from byte `i` on, each byte a character, without `(* ... *)`
/// comments; the line feeds inside them stay.
pub open spec fn uncommented(b: Seq<u8>, i: int) -> Seq<char>
    decreases (if i < b.len() { b.len() - i } else { 0 }), 0nat,
{
    if i < 0 || i >= b.len() {
        seq![]
    } else if i + 1 < b.len() && b[i] == 40 && b[i + 1] == 42 {
        after_comment(b, i + 2)
    } else {
        seq![b[i] as char] + uncommented(b, i + 1)
    }
}

/// The same from a position inside a comment.
pub open spec fn after_comment(b: Seq<u8>, i: int) -> Seq<char>
    decreases (if i < b.len() { b.len() - i } else { 0 }), 1nat,
{
    if 0 <= i && i + 1 < b.len() && !(b[i] == 42 && b[i + 1] == 41) {
        if b[i] == 10 {
            seq!['\n'] + after_comment(b, i + 1)
        } else {
            after_comment(b, i + 1)
        }
    } else {
        uncommented(b, i + 2)
    }
}

/// Removes block comments, keeping the line structure.
pub fn strip_block_comments(text: &str) -> (r: String)
    ensures
        r@ == uncommented(text.spec_bytes(), 0),
{
    let bytes = text.as_bytes();
    let mut out = String::new();
    let mut i: usize = 0;
    assert(out@ + uncommented(bytes@, 0) =~= uncommented(bytes@, 0));
    while i < bytes.len()
        invariant
            bytes@ == text.spec_bytes(),
            out@ + uncommented(bytes@, i as int) == uncommented(bytes@, 0),
        decreases bytes@.len() - i,
    {
        let n: usize = bytes.len();
        if i < n - 1 && bytes[i] == 40 && bytes[i + 1] == 42 {
            let mut j: usize = i + 2;
            while j < n && n - j > 1 && !(bytes[j] == 42 && bytes[j + 1] == 41)
                invariant
                    n == bytes@.len(),
                    i + 2 <= j <= n,
                    out@ + after_comment(bytes@, j as int) == uncommented(bytes@, 0),
                decreases n - j,
            {
                if bytes[j] == 10 {
                    let ghost before = out@;
                    out.push('\n');
                    assert(before + (seq!['\n'] + after_comment(bytes@, j + 1)) =~= out@
                        + after_comment(bytes@, j + 1));
                }
                j += 1;
            }
            if n - j >= 2 {
                i = j + 2;
            } else {
                assert(uncommented(bytes@, j + 2) =~= uncommented(bytes@, n as int));
                i = n;
            }
        } else {
            let ghost before = out@;
            let c: char = bytes[i] as char;
            out.push(c);
            assert(before + (seq![c] + uncommented(bytes@, i + 1)) =~= out@ + uncommented(
                bytes@,
                i + 1,
            ));
            i += 1;
        }
    }
    assert(out@ + uncommented(bytes@, i as int) =~= out@);
    out
}

/// Whether no comment opens at byte `i` or later.
pub open spec fn comment_free(b: Seq<u8>, i: int) -> bool {
    forall|j: int| i <= j && j + 1 < b.len() ==> !(#[trigger] b[j] == 40 && b[j + 1] == 42)
}

/// A text without comments stays as it is, byte by byte.
pub proof fn law_text_without_comments_stays(b: Seq<u8>, i: int)
    requires
        0 <= i <= b.len(),
        comment_free(b, i),
    ensures
        uncommented(b, i) == Seq::new((b.len() - i) as nat, |j: int| b[i + j] as char),
    decreases b.len() - i,
{
    let want = Seq::new((b.len() - i) as nat, |j: int| b[i + j] as char);
    if i < b.len() {
        law_text_without_comments_stays(b, i + 1);
        let rest = Seq::new((b.len() - i - 1) as nat, |j: int| b[i + 1 + j] as char);
        assert(seq![b[i] as char] + rest =~= want);
    } else {
        assert(uncommented(b, i) =~= want);
    }
}

/// Whether byte `j` is the first from byte `i` on at which a comment closes.
pub open spec fn closes_at(b: Seq<u8>, i: int, j: int) -> bool {
    &&& 0 <= i <= j
    &&& j + 1 < b.len()
    &&& b[j] == 42
    &&& b[j + 1] == 41
    &&& forall|k: int| i <= k < j ==> !(#[trigger] b[k] == 42 && b[k + 1] == 41)
}

/// How many line feeds stand between bytes `i` and `j`.
pub open spec fn line_feeds(b: Seq<u8>, i: int, j: int) -> nat
    decreases j - i,
{
    if i >= j {
        0
    } else {
        (if b[i] == 10 {
            1nat
        } else {
            0nat
        }) + line_feeds(b, i + 1, j)
    }
}

/// A comment leaves its line feeds and nothing else, so that what follows it
/// stands in its line.
pub proof fn law_comments_leave_their_lines(b: Seq<u8>, i: int, j: int)
    requires
        closes_at(b, i, j),
    ensures
        after_comment(b, i) == Seq::new(line_feeds(b, i, j), |k: int| '\n') + uncommented(b, j + 2),
    decreases j - i,
{
    if i < j {
        law_comments_leave_their_lines(b, i + 1, j);
        assert(!(b[i] == 42 && b[i + 1] == 41));
        if b[i] == 10 {
            let fewer = Seq::new(line_feeds(b, i + 1, j), |k: int| '\n');
            assert(seq!['\n'] + (fewer + uncommented(b, j + 2)) =~= Seq::new(
                line_feeds(b, i, j),
                |k: int| '\n',
            ) + uncommented(b, j + 2));
        }
    } else {
        assert(Seq::new(line_feeds(b, i, j), |k: int| '\n') + uncommented(b, j + 2)
            =~= uncommented(b, j + 2));
    }
}

// ---------------------------------------------------------------------
// Attributes
// ---------------------------------------------------------------------

/// The attribute that a `SELF\supertype.attr` names.
pub open spec fn redeclared_name(names_part: Seq<char>) -> Option<Seq<char>> {
    let low = lowercase(trim(names_part));
    if !starts_with(low, "self\\"@) {
        None
    } else {
        let attr = trim(
            match last_index_of(low, '.') {
                Some(i) => low.skip(i + 1),
                None => low,
            },
        );
        if identifier(attr) {
            Some(attr)
        } else {
            None
        }
    }
}

pub fn parse_self_redeclaration(names_part: &[char]) -> (r: Option<String>)
    ensures
        r.deep_view() == redeclared_name(names_part@),
{
    let low = chars_of(lower(string_of(trimmed(names_part)).as_str()).as_str());
    let low = low.as_slice();
    if !has_prefix(low, "self\\") {
        return None;
    }
    let tail = match find_last_char(low, '.') {
        Some(i) => {
            let n: usize = low.len();
            assert(low@.subrange(i + 1, n as int) =~= low@.skip(i + 1));
            slice_subrange(low, i + 1, n)
        },
        None => low,
    };
    let attr = trimmed(tail);
    if is_valid_identifier(attr) {
        Some(string_of(attr))
    } else {
        None
    }
}

/// The identifiers among `names`.
pub open spec fn identifiers(names: Seq<Seq<char>>) -> Seq<Seq<char>>
    decreases names.len(),
{
    if names.len() == 0 {
        seq![]
    } else if identifier(names.last()) {
        identifiers(names.drop_last()).push(names.last())
    } else {
        identifiers(names.drop_last())
    }
}

fn only_identifiers(names: &Vec<String>) -> (r: Vec<String>)
    ensures
        r.deep_view() == identifiers(names.deep_view()),
{
    let ghost all = names.deep_view();
    let mut out: Vec<String> = Vec::new();
    let mut i: usize = 0;
    assert(all.take(0) =~= seq![]);
    assert(out.deep_view() =~= seq![]);
    while i < names.len()
        invariant
            i <= names@.len(),
            all == names.deep_view(),
            all.len() == names@.len(),
            out.deep_view() == identifiers(all.take(i as int)),
        decreases names@.len() - i,
    {
        proof {
            assert(all.take(i + 1).drop_last() =~= all.take(i as int));
            assert(all.take(i + 1).last() == names@[i as int]@);
        }
        if is_valid_identifier(chars_of(names[i].as_str()).as_slice()) {
            push_item(&mut out, names[i].clone());
        }
        i += 1;
    }
    assert(all.take(i as int) =~= all);
    out
}

/// What one attribute segment declares.
pub enum Segment {
    Nothing,
    Own(Seq<AttrModel>),
    Redeclared(AttrModel),
    Complaint(Seq<char>),
}

/// How a list of names is written in messages.
pub open spec fn quoted_list(names: Seq<Seq<char>>) -> Seq<char> {
    "["@ + joined(names.map_values(|n: Seq<char>| quoted(n)), ", "@) + "]"@
}

pub fn quote_list(names: &Vec<String>) -> (r: String)
    ensures
        r@ == quoted_list(names.deep_view()),
{
    let ghost all = names.deep_view().map_values(|n: Seq<char>| quoted(n));
    let mut parts: Vec<String> = Vec::new();
    let mut i: usize = 0;
    while i < names.len()
        invariant
            i <= names@.len(),
            all == names.deep_view().map_values(|n: Seq<char>| quoted(n)),
            parts@.len() == i,
            forall|j: int| 0 <= j < i ==> #[trigger] parts@[j]@ == all[j],
        decreases names@.len() - i,
    {
        parts.push(quote(names[i].as_str()));
        i += 1;
    }
    assert(parts.deep_view() =~= all);
    join3("[", join_all(&parts, ", ").as_str(), "]")
}

/// Reads one segment `names : type`: a redeclaration, or names that share the
/// type.
pub open spec fn read_segment(entity: Seq<char>, segment: Seq<char>) -> Segment {
    let s = trim(segment);
    match top_index(s, ':', Brackets::Both) {
        None => Segment::Nothing,
        Some(colon) => {
            let names_part = trim(s.take(colon));
            let type_part = trim(s.skip(colon + 1));
            let redeclared = redeclared_name(names_part);
            let names = identifiers(lowered(split(names_part, ',')));
            if type_part.len() == 0 || (redeclared is None && names.len() == 0) {
                Segment::Nothing
            } else {
                match (parse_type(type_part), redeclared) {
                    (Ok(ty), Some(name)) => Segment::Redeclared(AttrModel { name, ty }),
                    (Ok(ty), None) => Segment::Own(
                        names.map_values(|name: Seq<char>| AttrModel { name, ty }),
                    ),
                    (Err(e), Some(name)) => Segment::Complaint(
                        attr_complaint(entity, name, e, type_part),
                    ),
                    (Err(e), None) => Segment::Complaint(
                        attr_complaint(entity, quoted_list(names), e, type_part),
                    ),
                }
            }
        },
    }
}

pub open spec fn attr_complaint(
    entity: Seq<char>,
    label: Seq<char>,
    e: Seq<char>,
    type_part: Seq<char>,
) -> Seq<char> {
    entity + ": ATTR type parse failed for "@ + label + " ("@ + e + ") — type was "@ + quoted(
        type_part,
    )
}

fn complain_attr(entity: &str, label: &str, e: &str, type_part: &[char]) -> (r: String)
    ensures
        r@ == attr_complaint(entity@, label@, e@, type_part@),
{
    let mut r: String = entity.to_owned();
    r.append(": ATTR type parse failed for ");
    r.append(label);
    r.append(" (");
    r.append(e);
    r.append(") — type was ");
    r.append(quote(string_of(type_part).as_str()).as_str());
    r
}

/// The own attributes, the redeclared ones and the complaints of a list of
/// segments.
pub struct AttrsModel {
    pub own: Seq<AttrModel>,
    pub redeclared: Seq<AttrModel>,
    pub complaints: Seq<Seq<char>>,
}

pub open spec fn read_segments(entity: Seq<char>, segments: Seq<Seq<char>>) -> AttrsModel
    decreases segments.len(),
{
    if segments.len() == 0 {
        AttrsModel { own: seq![], redeclared: seq![], complaints: seq![] }
    } else {
        let before = read_segments(entity, segments.drop_last());
        match read_segment(entity, segments.last()) {
            Segment::Nothing => before,
            Segment::Own(attrs) => AttrsModel { own: before.own + attrs, ..before },
            Segment::Redeclared(attr) => AttrsModel {
                redeclared: before.redeclared.push(attr),
                ..before
            },
            Segment::Complaint(w) => AttrsModel { complaints: before.complaints.push(w), ..before },
        }
    }
}

/// What an attribute section declares.
pub open spec fn read_attrs(entity: Seq<char>, section: Seq<char>) -> AttrsModel {
    read_segments(entity, split_top(section, ';', Brackets::Round))
}

fn copies_for(names: &Vec<String>, ty: &crate::express::AttrType) -> (r: Vec<AttrSpec>)
    ensures
        r.deep_view() == names.deep_view().map_values(
            |name: Seq<char>| AttrModel { name, ty: ty.view() },
        ),
{
    let mut out: Vec<AttrSpec> = Vec::new();
    let mut i: usize = 0;
    while i < names.len()
        invariant
            i <= names@.len(),
            out@.len() == i,
            forall|j: int|
                0 <= j < i ==> #[trigger] out@[j].view() == (AttrModel {
                    name: names@[j]@,
                    ty: ty.view(),
                }),
        decreases names@.len() - i,
    {
        out.push(AttrSpec { name: names[i].clone(), ty: ty.clone() });
        i += 1;
    }
    assert(out.deep_view() =~= names.deep_view().map_values(
        |name: Seq<char>| AttrModel { name, ty: ty.view() },
    ));
    out
}

/// The parts of a segment that matter for attributes.
fn add_segment(
    entity: &str,
    segment: &str,
    own: &mut Vec<AttrSpec>,
    redeclared: &mut Vec<AttrSpec>,
    warnings: &mut Vec<String>,
)
    ensures
        match read_segment(entity@, segment@) {
            Segment::Nothing => {
                &&& final(own).deep_view() == old(own).deep_view()
                &&& final(redeclared).deep_view() == old(redeclared).deep_view()
                &&& final(warnings).deep_view() == old(warnings).deep_view()
            },
            Segment::Own(attrs) => {
                &&& final(own).deep_view() == old(own).deep_view() + attrs
                &&& final(redeclared).deep_view() == old(redeclared).deep_view()
                &&& final(warnings).deep_view() == old(warnings).deep_view()
            },
            Segment::Redeclared(attr) => {
                &&& final(own).deep_view() == old(own).deep_view()
                &&& final(redeclared).deep_view() == old(redeclared).deep_view().push(attr)
                &&& final(warnings).deep_view() == old(warnings).deep_view()
            },
            Segment::Complaint(w) => {
                &&& final(own).deep_view() == old(own).deep_view()
                &&& final(redeclared).deep_view() == old(redeclared).deep_view()
                &&& final(warnings).deep_view() == old(warnings).deep_view().push(w)
            },
        },
{
    let chars = chars_of(segment);
    let s = trimmed(chars.as_slice());
    let colon = match find_top(s, ':', Brackets::Both) {
        Some(i) => i,
        None => {
            return ;
        },
    };
    let n: usize = s.len();
    let left = slice_subrange(s, 0, colon);
    let right = slice_subrange(s, colon + 1, n);
    proof {
        assert(left@ =~= s@.take(colon as int));
        assert(right@ =~= s@.skip(colon + 1));
    }
    let names_part = trimmed(left);
    let type_part = trimmed(right);
    if type_part.len() == 0 {
        return ;
    }
    let names = only_identifiers(&lower_all(&split_at_char(names_part, ',')));
    match parse_self_redeclaration(names_part) {
        Some(name) => match parse_type_chars(type_part) {
            Ok(ty) => {
                push_item(redeclared, AttrSpec { name, ty });
            },
            Err(e) => {
                push_item(
                    warnings,
                    complain_attr(entity, name.as_str(), e.as_str(), type_part),
                );
            },
        },
        None => {
            if names.len() == 0 {
                assert(names.deep_view().len() == 0);
                return ;
            }
            assert(names.deep_view().len() > 0);
            match parse_type_chars(type_part) {
                Ok(ty) => {
                    append_items(own, copies_for(&names, &ty));
                },
                Err(e) => {
                    let label = quote_list(&names);
                    push_item(
                        warnings,
                        complain_attr(entity, label.as_str(), e.as_str(), type_part),
                    );
                },
            }
        },
    }
}

/// Reads the attributes that the section declares: the own ones and the
/// redeclared ones.
pub fn attrs_in(section: &str, entity: &str, warnings: &mut Vec<String>) -> (r: (
    Vec<AttrSpec>,
    Vec<AttrSpec>,
))
    ensures
        r.0.deep_view() == read_attrs(entity@, section@).own,
        r.1.deep_view() == read_attrs(entity@, section@).redeclared,
        final(warnings).deep_view() == old(warnings).deep_view() + read_attrs(
            entity@,
            section@,
        ).complaints,
        ({
            let segments = split_top(section@, ';', Brackets::Round);
            &&& forall|i: int|
                #![trigger segments[i]]
                0 <= i < segments.len() && read_segment(entity@, segments[i]) is Redeclared
                    ==> r.1.deep_view().contains(
                    read_segment(entity@, segments[i])->Redeclared_0,
                )
            &&& r.1@.len() == Set::new(
                |i: int|
                    0 <= i < segments.len() && read_segment(entity@, segments[i]) is Redeclared,
            ).len()
        }),
{
    let segments = split_outside(chars_of(section).as_slice(), ';', Brackets::Round);
    let ghost all = segments.deep_view();
    let ghost w0 = warnings.deep_view();
    let mut own: Vec<AttrSpec> = Vec::new();
    let mut redeclared: Vec<AttrSpec> = Vec::new();
    let mut i: usize = 0;
    proof {
        assert(all.take(0) =~= seq![]);
        assert(own.deep_view() =~= seq![]);
        assert(redeclared.deep_view() =~= seq![]);
        assert(w0 + seq![] =~= w0);
    }
    while i < segments.len()
        invariant
            i <= segments@.len(),
            all == segments.deep_view(),
            all.len() == segments@.len(),
            own.deep_view() == read_segments(entity@, all.take(i as int)).own,
            redeclared.deep_view() == read_segments(entity@, all.take(i as int)).redeclared,
            warnings.deep_view() == w0 + read_segments(entity@, all.take(i as int)).complaints,
        decreases segments@.len() - i,
    {
        proof {
            assert(all.take(i + 1).drop_last() =~= all.take(i as int));
            assert(all.take(i + 1).last() == segments@[i as int]@);
        }
        let ghost seen = read_segments(entity@, all.take(i as int)).complaints;
        add_segment(entity, segments[i].as_str(), &mut own, &mut redeclared, warnings);
        proof {
            if let Segment::Complaint(w) = read_segment(entity@, all[i as int]) {
                assert((w0 + seen).push(w) =~= w0 + seen.push(w));
            }
        }
        i += 1;
    }
    assert(all.take(i as int) =~= all);
    proof {
        crate::express::reader_laws::law_every_redeclaration_is_kept(entity@, section@);
    }
    (own, redeclared)
}

// ---------------------------------------------------------------------
// Derived attributes
// ---------------------------------------------------------------------

/// The target that the left-hand side of a `DERIVE` statement names.
pub open spec fn derive_target(lhs: Seq<char>) -> Option<DerivedModel> {
    let low = lowercase(trim(lhs));
    if starts_with(low, "self\\"@) {
        let rest = low.skip(5);
        match last_index_of(rest, '.') {
            Some(i) => {
                let sup = trim(rest.take(i));
                let attr = trim(rest.skip(i + 1));
                if identifier(sup) && identifier(attr) {
                    Some(DerivedModel { super_qual: Some(sup), name: attr })
                } else {
                    None
                }
            },
            None => None,
        }
    } else if identifier(trim(low)) {
        Some(DerivedModel { super_qual: None, name: trim(low) })
    } else {
        None
    }
}

pub fn parse_derive_lhs(lhs: &[char]) -> (r: Option<DerivedTarget>)
    ensures
        r.deep_view() == derive_target(lhs@),
{
    let low = chars_of(lower(string_of(trimmed(lhs)).as_str()).as_str());
    let low = low.as_slice();
    if has_prefix(low, "self\\") {
        proof {
            reveal_strlit("self\\");
        }
        let n: usize = low.len();
        let rest = slice_subrange(low, 5, n);
        assert(rest@ =~= low@.skip(5));
        let dot = match find_last_char(rest, '.') {
            Some(i) => i,
            None => {
                return None;
            },
        };
        let m: usize = rest.len();
        let left = slice_subrange(rest, 0, dot);
        let right = slice_subrange(rest, dot + 1, m);
        proof {
            assert(left@ =~= rest@.take(dot as int));
            assert(right@ =~= rest@.skip(dot + 1));
        }
        let sup = trimmed(left);
        let attr = trimmed(right);
        if is_valid_identifier(sup) && is_valid_identifier(attr) {
            Some(DerivedTarget { super_qual: Some(string_of(sup)), name: string_of(attr) })
        } else {
            None
        }
    } else {
        let attr = trimmed(low);
        if is_valid_identifier(attr) {
            Some(DerivedTarget { super_qual: None, name: string_of(attr) })
        } else {
            None
        }
    }
}

/// The target of one `DERIVE` statement.
pub open spec fn derive_statement(segment: Seq<char>) -> Option<DerivedModel> {
    let s = trim(segment);
    match top_index(s, ':', Brackets::Both) {
        Some(colon) => derive_target(trim(s.take(colon))),
        None => None,
    }
}

pub open spec fn derive_statements(segments: Seq<Seq<char>>) -> Seq<DerivedModel>
    decreases segments.len(),
{
    if segments.len() == 0 {
        seq![]
    } else {
        match derive_statement(segments.last()) {
            Some(t) => derive_statements(segments.drop_last()).push(t),
            None => derive_statements(segments.drop_last()),
        }
    }
}

/// The targets of a `DERIVE` section.
pub open spec fn read_derived(section: Seq<char>) -> Seq<DerivedModel> {
    derive_statements(split_top(section, ';', Brackets::Round))
}

/// Reads the targets of a `DERIVE` section.
pub fn derived_in(section: &str) -> (r: Vec<DerivedTarget>)
    ensures
        r.deep_view() == read_derived(section@),
{
    let segments = split_outside(chars_of(section).as_slice(), ';', Brackets::Round);
    let ghost all = segments.deep_view();
    let mut out: Vec<DerivedTarget> = Vec::new();
    let mut i: usize = 0;
    proof {
        assert(all.take(0) =~= seq![]);
        assert(out.deep_view() =~= seq![]);
    }
    while i < segments.len()
        invariant
            i <= segments@.len(),
            all == segments.deep_view(),
            all.len() == segments@.len(),
            out.deep_view() == derive_statements(all.take(i as int)),
        decreases segments@.len() - i,
    {
        proof {
            assert(all.take(i + 1).drop_last() =~= all.take(i as int));
            assert(all.take(i + 1).last() == segments@[i as int]@);
        }
        let chars = chars_of(segments[i].as_str());
        let s = trimmed(chars.as_slice());
        if let Some(colon) = find_top(s, ':', Brackets::Both) {
            let left = slice_subrange(s, 0, colon);
            assert(left@ =~= s@.take(colon as int));
            if let Some(t) = parse_derive_lhs(trimmed(left)) {
                push_item(&mut out, t);
            }
        }
        i += 1;
    }
    assert(all.take(i as int) =~= all);
    out
}

// ---------------------------------------------------------------------
// Sections of an entity block
// ---------------------------------------------------------------------

/// What follows the semicolon that ends the header.
pub open spec fn after_header(block: Seq<char>) -> Option<Seq<char>> {
    match top_index(block, ';', Brackets::Round) {
        Some(i) => Some(block.skip(i + 1)),
        None => None,
    }
}

fn body_after_header(block: &str) -> (r: Option<String>)
    ensures
        r.deep_view() == after_header(block@),
{
    let chars = chars_of(block);
    match find_top(chars.as_slice(), ';', Brackets::Round) {
        Some(i) => {
            let n: usize = chars.len();
            let rest = slice_subrange(chars.as_slice(), i + 1, n);
            assert(rest@ =~= block@.skip(i + 1));
            Some(string_of(rest))
        },
        None => None,
    }
}

/// What stands before a match, or the whole text without one.
pub open spec fn before_match(
    text: Seq<char>,
    parts: Option<(Seq<char>, Seq<char>, Seq<char>)>,
) -> Seq<char> {
    match parts {
        Some(p) => p.0,
        None => text,
    }
}

/// The part of an entity block that declares attributes.
pub open spec fn attribute_section(block: Seq<char>) -> Option<Seq<char>> {
    match after_header(block) {
        Some(body) => Some(before_match(body, match_parts(ATTRIBUTES_END@, body))),
        None => None,
    }
}

pub fn find_attribute_section(block: &str) -> (r: Option<String>)
    ensures
        r.deep_view() == attribute_section(block@),
{
    match body_after_header(block) {
        Some(body) => match find_match(ATTRIBUTES_END, body.as_str()) {
            Some((before, _, _)) => Some(before),
            None => Some(body),
        },
        None => None,
    }
}

/// The `DERIVE` section of an entity block.
pub open spec fn derive_section(block: Seq<char>) -> Option<Seq<char>> {
    match after_header(block) {
        Some(body) => match match_parts(DERIVE_START@, body) {
            Some(p) => Some(before_match(p.2, match_parts(DERIVE_END@, p.2))),
            None => None,
        },
        None => None,
    }
}

pub fn find_derive_section(block: &str) -> (r: Option<String>)
    ensures
        r.deep_view() == derive_section(block@),
{
    match body_after_header(block) {
        Some(body) => match find_match(DERIVE_START, body.as_str()) {
            Some((_, _, after)) => match find_match(DERIVE_END, after.as_str()) {
                Some((before, _, _)) => Some(before),
                None => Some(after),
            },
            None => None,
        },
        None => None,
    }
}

/// The body of a `SUPERTYPE OF (` from what follows its bracket.
pub open spec fn bracket_body(after: Seq<char>) -> Option<Seq<char>> {
    match close_index(after, Brackets::Round, 1) {
        Some(i) => Some(after.take(i)),
        None => None,
    }
}

/// Cuts the text at the bracket that closes one opened before it.
pub fn body_before_close(after: &str) -> (r: Option<String>)
    ensures
        r.deep_view() == bracket_body(after@),
{
    let chars = chars_of(after);
    match find_close(chars.as_slice(), Brackets::Round, 1) {
        Some(i) => {
            let head = slice_subrange(chars.as_slice(), 0, i);
            assert(head@ =~= after@.take(i as int));
            Some(string_of(head))
        },
        None => None,
    }
}

/// The body of the `SUPERTYPE OF ( )` clause.
pub open spec fn supertype_body(block: Seq<char>) -> Option<Seq<char>> {
    match match_parts(SUPERTYPE_OF@, block) {
        Some(p) => bracket_body(p.2),
        None => None,
    }
}

pub fn find_supertype_of_body(block: &str) -> (r: Option<String>)
    ensures
        r.deep_view() == supertype_body(block@),
{
    match find_match(SUPERTYPE_OF, block) {
        Some((_, _, after)) => body_before_close(after.as_str()),
        None => None,
    }
}

/// The lower-cased entity name.
pub open spec fn entity_name(block: Seq<char>) -> Option<Seq<char>> {
    match first_group(ENTITY_NAME@, block) {
        Some(g) => Some(lowercase(g)),
        None => None,
    }
}

pub fn extract_entity_name(block: &str) -> (r: Option<String>)
    ensures
        r.deep_view() == entity_name(block@),
{
    match find_group(ENTITY_NAME, block) {
        Some(g) => Some(lower(g.as_str())),
        None => None,
    }
}

/// The names in a `SUBTYPE OF` list.
pub open spec fn parent_names(group: Option<Seq<char>>) -> Seq<Seq<char>> {
    match group {
        Some(inner) => lowered(split(inner, ',')),
        None => seq![],
    }
}

/// Reads the names in a `SUBTYPE OF` list.
pub fn parents_in(group: Option<String>) -> (r: Vec<String>)
    ensures
        r.deep_view() == parent_names(group.deep_view()),
{
    match group {
        Some(inner) => lower_all(&split_at_char(chars_of(inner.as_str()).as_slice(), ',')),
        None => {
            let r: Vec<String> = Vec::new();
            assert(r.deep_view() =~= seq![]);
            r
        },
    }
}

pub fn extract_parents(block: &str) -> (r: Vec<String>)
    ensures
        r.deep_view() == parent_names(first_group(SUBTYPE_OF@, block@)),
{
    parents_in(find_group(SUBTYPE_OF, block))
}

/// The complaint about a `SUPERTYPE OF` body that does not parse.
pub open spec fn supertype_complaint(entity: Seq<char>, e: Seq<char>, body: Seq<char>) -> Seq<char> {
    "ENTITY "@ + entity + ": SUPERTYPE OF parse error: "@ + e + " (body="@ + quoted(body) + ")"@
}

/// The tree of a `SUPERTYPE OF` body, and the complaints about it.
pub open spec fn read_supertype(entity: Seq<char>, body: Option<Seq<char>>) -> (
    Option<SuperModel>,
    Seq<Seq<char>>,
) {
    match body {
        Some(b) => match parse_body(encode_utf8(b)) {
            Ok(x) => (Some(x), seq![]),
            Err(e) => (None, seq![supertype_complaint(entity, e, b)]),
        },
        None => (None, seq![]),
    }
}

/// Parses a `SUPERTYPE OF` body; a body that does not parse leaves a warning.
pub fn supertype_in(body: Option<String>, entity: &str, warnings: &mut Vec<String>) -> (r: Option<
    SupertypeExpr,
>)
    ensures
        r.deep_view() == read_supertype(entity@, body.deep_view()).0,
        final(warnings).deep_view() == old(warnings).deep_view() + read_supertype(
            entity@,
            body.deep_view(),
        ).1,
{
    assert(warnings.deep_view() + seq![] =~= warnings.deep_view());
    match body {
        Some(b) => match supertype_parser::parse(b.as_str()) {
            Ok(x) => Some(x),
            Err(e) => {
                let mut w: String = join3("ENTITY ", entity, ": SUPERTYPE OF parse error: ");
                w.append(e.as_str());
                w.append(" (body=");
                w.append(quote(b.as_str()).as_str());
                w.append(")");
                let ghost w0 = warnings.deep_view();
                let ghost dw = w@;
                push_item(warnings, w);
                assert(w0.push(dw) =~= w0 + seq![dw]);
                None
            },
        },
        None => None,
    }
}

pub fn extract_supertype_expr(block: &str, entity: &str, warnings: &mut Vec<String>) -> (r: Option<
    SupertypeExpr,
>)
    ensures
        r.deep_view() == read_supertype(entity@, supertype_body(block@)).0,
        final(warnings).deep_view() == old(warnings).deep_view() + read_supertype(
            entity@,
            supertype_body(block@),
        ).1,
{
    let body = find_supertype_of_body(block);
    supertype_in(body, entity, warnings)
}

/// What an attribute section declares, where there is one.
pub open spec fn read_attr_section(entity: Seq<char>, section: Option<Seq<char>>) -> AttrsModel {
    match section {
        Some(s) => read_attrs(entity, s),
        None => AttrsModel { own: seq![], redeclared: seq![], complaints: seq![] },
    }
}

pub fn extract_attrs(block: &str, entity: &str, warnings: &mut Vec<String>) -> (r: (
    Vec<AttrSpec>,
    Vec<AttrSpec>,
))
    ensures
        r.0.deep_view() == read_attr_section(entity@, attribute_section(block@)).own,
        r.1.deep_view() == read_attr_section(entity@, attribute_section(block@)).redeclared,
        final(warnings).deep_view() == old(warnings).deep_view() + read_attr_section(
            entity@,
            attribute_section(block@),
        ).complaints,
{
    match find_attribute_section(block) {
        Some(section) => attrs_in(section.as_str(), entity, warnings),
        None => {
            let own: Vec<AttrSpec> = Vec::new();
            let redeclared: Vec<AttrSpec> = Vec::new();
            assert(own.deep_view() =~= seq![]);
            assert(redeclared.deep_view() =~= seq![]);
            assert(warnings.deep_view() + seq![] =~= warnings.deep_view());
            (own, redeclared)
        },
    }
}

pub open spec fn read_derive_section(section: Option<Seq<char>>) -> Seq<DerivedModel> {
    match section {
        Some(s) => read_derived(s),
        None => seq![],
    }
}

pub fn extract_derived(block: &str) -> (r: Vec<DerivedTarget>)
    ensures
        r.deep_view() == read_derive_section(derive_section(block@)),
{
    match find_derive_section(block) {
        Some(section) => derived_in(section.as_str()),
        None => {
            let r: Vec<DerivedTarget> = Vec::new();
            assert(r.deep_view() =~= seq![]);
            r
        },
    }
}

/// Whether the block carries the `ABSTRACT SUPERTYPE` flag.
pub open spec fn abstract_flag(block: Seq<char>) -> bool {
    contains(block, "ABSTRACT SUPERTYPE"@) || contains(block, "ABSTRACT  SUPERTYPE"@) || contains(
        block,
        "ABSTRACT\nSUPERTYPE"@,
    )
}

/// What an entity block declares, and the complaints about it.
pub open spec fn read_entity(block: Seq<char>) -> (Option<EntityModel>, Seq<Seq<char>>) {
    match entity_name(block) {
        Some(name) => {
            let attrs = read_attr_section(name, attribute_section(block));
            let sup = read_supertype(name, supertype_body(block));
            (
                Some(
                    EntityModel {
                        name,
                        parents: parent_names(first_group(SUBTYPE_OF@, block)),
                        own_attrs: attrs.own,
                        redeclared_attrs: attrs.redeclared,
                        is_abstract: abstract_flag(block),
                        supertype_expr: sup.0,
                        derived_attrs: read_derive_section(derive_section(block)),
                    },
                ),
                sup.1 + attrs.complaints,
            )
        },
        None => (None, seq!["ENTITY name extraction failed:\n"@ + block]),
    }
}

/// Adds the entity that the block declares.
pub fn process_entity_block(
    block: &str,
    entities: &mut Table<EntitySchema>,
    warnings: &mut Vec<String>,
)
    ensures
        final(entities)@ == (match read_entity(block@).0 {
            Some(e) => old(entities)@.insert(e.name, e),
            None => old(entities)@,
        }),
        final(warnings).deep_view() == old(warnings).deep_view() + read_entity(block@).1,
{
    let ghost w0 = warnings.deep_view();
    let name = match extract_entity_name(block) {
        Some(n) => n,
        None => {
            let w = join("ENTITY name extraction failed:\n", block);
            let ghost dw = w@;
            push_item(warnings, w);
            assert(w0.push(dw) =~= w0 + seq![dw]);
            return ;
        },
    };
    let parents = extract_parents(block);
    let chars = chars_of(block);
    let is_abstract = has_text(chars.as_slice(), "ABSTRACT SUPERTYPE") || has_text(
        chars.as_slice(),
        "ABSTRACT  SUPERTYPE",
    ) || has_text(chars.as_slice(), "ABSTRACT\nSUPERTYPE");
    let supertype_expr = extract_supertype_expr(block, name.as_str(), warnings);
    let (own_attrs, redeclared_attrs) = extract_attrs(block, name.as_str(), warnings);
    let derived_attrs = extract_derived(block);
    let key = name.clone();
    let e = EntitySchema {
        name,
        parents,
        own_attrs,
        redeclared_attrs,
        is_abstract,
        supertype_expr,
        derived_attrs,
    };
    proof {
        let sup = read_supertype(name@, supertype_body(block@)).1;
        let attrs = read_attr_section(name@, attribute_section(block@)).complaints;
        assert(w0 + sup + attrs =~= w0 + (sup + attrs));
        assert(e.view() == read_entity(block@).0->0);
    }
    entities.insert(key, e);
}

/// What a type block declares, or the complaint about it.
pub open spec fn read_type(block: Seq<char>) -> Result<TypeDefModel, Seq<char>> {
    if !starts_with(block, "TYPE "@) {
        Err("TYPE prefix missing:\n"@ + block)
    } else {
        let after = block.skip(5);
        match index_of(after, '=') {
            None => Err("TYPE missing '=':\n"@ + block),
            Some(eq) => {
                let name_part = trim(after.take(eq));
                let name = lowercase(name_part);
                if !identifier(name) {
                    Err("TYPE invalid name "@ + quoted(name_part))
                } else {
                    let after_eq = after.skip(eq + 1);
                    match top_index(after_eq, ';', Brackets::Round) {
                        None => Err("TYPE "@ + name + ": no terminating ';' for aliased repr"@),
                        Some(end) => {
                            let repr = trim(after_eq.take(end));
                            match parse_type(repr) {
                                Ok(aliased) => Ok(TypeDefModel { name, aliased }),
                                Err(e) => Err(
                                    "TYPE "@ + name + ": parse repr failed ("@ + e
                                        + ") — repr was "@ + quoted(repr),
                                ),
                            }
                        },
                    }
                }
            },
        }
    }
}

/// Reads the type that the block declares.
pub fn read_type_block(block: &str) -> (r: Result<TypeDef, String>)
    ensures
        crate::text::outcome(r) == read_type(block@),
{
    let chars = chars_of(block);
    if !has_prefix(chars.as_slice(), "TYPE ") {
        return Err(join("TYPE prefix missing:\n", block));
    }
    proof {
        reveal_strlit("TYPE ");
    }
    let n: usize = chars.len();
    let after = slice_subrange(chars.as_slice(), 5, n);
    assert(after@ =~= block@.skip(5));
    let eq = match find_char(after, '=') {
        Some(i) => i,
        None => {
            return Err(join("TYPE missing '=':\n", block));
        },
    };
    let head = slice_subrange(after, 0, eq);
    assert(head@ =~= after@.take(eq as int));
    let name_part = string_of(trimmed(head));
    let name = lower(name_part.as_str());
    if !is_valid_identifier(chars_of(name.as_str()).as_slice()) {
        return Err(join("TYPE invalid name ", quote(name_part.as_str()).as_str()));
    }
    let m: usize = after.len();
    let after_eq = slice_subrange(after, eq + 1, m);
    assert(after_eq@ =~= after@.skip(eq + 1));
    let end = match find_top(after_eq, ';', Brackets::Round) {
        Some(i) => i,
        None => {
            return Err(join3("TYPE ", name.as_str(), ": no terminating ';' for aliased repr"));
        },
    };
    let repr_text = slice_subrange(after_eq, 0, end);
    assert(repr_text@ =~= after_eq@.take(end as int));
    let repr = trimmed(repr_text);
    match parse_type_chars(repr) {
        Ok(aliased) => Ok(TypeDef { name, aliased }),
        Err(e) => {
            let mut w: String = join3("TYPE ", name.as_str(), ": parse repr failed (");
            w.append(e.as_str());
            w.append(") — repr was ");
            w.append(quote(string_of(repr).as_str()).as_str());
            Err(w)
        },
    }
}

/// Adds the type that the block declares.
pub fn process_type_block(block: &str, types: &mut Table<TypeDef>, warnings: &mut Vec<String>)
    ensures
        match read_type(block@) {
            Ok(t) => {
                &&& final(types)@ == old(types)@.insert(t.name, t)
                &&& final(warnings).deep_view() == old(warnings).deep_view()
            },
            Err(w) => {
                &&& final(types)@ == old(types)@
                &&& final(warnings).deep_view() == old(warnings).deep_view().push(w)
            },
        },
{
    match read_type_block(block) {
        Ok(t) => {
            let key = t.name.clone();
            types.insert(key, t);
        },
        Err(w) => {
            push_item(warnings, w);
        },
    }
}

// ---------------------------------------------------------------------
// Schema text
// ---------------------------------------------------------------------

#[derive(Clone, Copy)]
pub enum BlockKind {
    Entity,
    Type,
}

/// Where the reader stands between two lines.
pub struct Scan {
    /// The kind of the open block.
    pub kind: Option<BlockKind>,
    /// The text of the open block so far.
    pub block: Seq<char>,
    pub entities: Map<Seq<char>, EntityModel>,
    pub types: Map<Seq<char>, TypeDefModel>,
    pub warnings: Seq<Seq<char>>,
}

/// Goes on with the block after `line`: at its end line it is complete.
pub open spec fn grow(st: Scan, kind: BlockKind, block: Seq<char>, line: Seq<char>) -> Scan {
    match kind {
        BlockKind::Entity => if contains(line, "END_ENTITY"@) {
            Scan {
                kind: None,
                block: seq![],
                entities: match read_entity(block).0 {
                    Some(e) => st.entities.insert(e.name, e),
                    None => st.entities,
                },
                types: st.types,
                warnings: st.warnings + read_entity(block).1,
            }
        } else {
            Scan { kind: Some(kind), block, ..st }
        },
        BlockKind::Type => if contains(line, "END_TYPE"@) {
            match read_type(block) {
                Ok(t) => Scan {
                    kind: None,
                    block: seq![],
                    types: st.types.insert(t.name, t),
                    ..st
                },
                Err(w) => Scan {
                    kind: None,
                    block: seq![],
                    warnings: st.warnings.push(w),
                    ..st
                },
            }
        } else {
            Scan { kind: Some(kind), block, ..st }
        },
    }
}

/// One line: outside a block it may open one; inside, it belongs to it.
pub open spec fn scan_line(st: Scan, line: Seq<char>) -> Scan {
    match st.kind {
        Some(kind) => grow(st, kind, st.block + line + "\n"@, line),
        None => match keyword_rest(trim_start(line), "ENTITY"@) {
            Some(rest) => grow(st, BlockKind::Entity, "ENTITY "@ + rest + "\n"@, line),
            None => match keyword_rest(trim_start(line), "TYPE"@) {
                Some(rest) => grow(st, BlockKind::Type, "TYPE "@ + rest + "\n"@, line),
                None => st,
            },
        },
    }
}

pub open spec fn scan_lines(ls: Seq<Seq<char>>) -> Scan
    decreases ls.len(),
{
    if ls.len() == 0 {
        Scan {
            kind: None,
            block: seq![],
            entities: Map::empty(),
            types: Map::empty(),
            warnings: seq![],
        }
    } else {
        scan_line(scan_lines(ls.drop_last()), ls.last())
    }
}

/// A block from its opening on: `header`, then the lines, each with a line feed.
pub open spec fn block_text(header: Seq<char>, ls: Seq<Seq<char>>) -> Seq<char>
    decreases ls.len(),
{
    if ls.len() == 0 {
        header
    } else {
        block_text(header, ls.drop_last()) + ls.last() + "\n"@
    }
}

/// The words that end a block.
pub open spec fn end_of(kind: BlockKind) -> Seq<char> {
    match kind {
        BlockKind::Entity => "END_ENTITY"@,
        BlockKind::Type => "END_TYPE"@,
    }
}

/// Lines inside a block only add to it.
proof fn lemma_inside_block(before: Seq<Seq<char>>, kind: BlockKind, inner: Seq<Seq<char>>)
    requires
        scan_lines(before).kind == Some(kind),
        forall|i: int| 0 <= i < inner.len() ==> !contains(#[trigger] inner[i], end_of(kind)),
    ensures
        scan_lines(before + inner) == (Scan {
            block: block_text(scan_lines(before).block, inner),
            ..scan_lines(before)
        }),
    decreases inner.len(),
{
    if inner.len() == 0 {
        assert(before + inner =~= before);
    } else {
        let fewer = inner.drop_last();
        assert forall|i: int| 0 <= i < fewer.len() implies !contains(
            #[trigger] fewer[i],
            end_of(kind),
        ) by {
            assert(fewer[i] == inner[i]);
        }
        lemma_inside_block(before, kind, fewer);
        assert((before + inner).drop_last() =~= before + fewer);
        assert(!contains(inner[inner.len() - 1], end_of(kind)));
    }
}

/// An entity declared over several lines, from its keyword to the line that ends
/// it, is read as one block, and nothing else changes.
pub proof fn law_entity_block_is_read(
    before: Seq<Seq<char>>,
    first: Seq<char>,
    inner: Seq<Seq<char>>,
    last: Seq<char>,
)
    requires
        scan_lines(before).kind is None,
        keyword_rest(trim_start(first), "ENTITY"@) is Some,
        !contains(first, "END_ENTITY"@),
        forall|i: int| 0 <= i < inner.len() ==> !contains(#[trigger] inner[i], "END_ENTITY"@),
        contains(last, "END_ENTITY"@),
    ensures
        ({
            let st = scan_lines(before);
            let opening = "ENTITY "@ + keyword_rest(trim_start(first), "ENTITY"@)->0 + "\n"@;
            let block = block_text(opening, inner.push(last));
            scan_lines(before.push(first) + inner.push(last)) == (Scan {
                kind: None,
                block: seq![],
                entities: match read_entity(block).0 {
                    Some(e) => st.entities.insert(e.name, e),
                    None => st.entities,
                },
                types: st.types,
                warnings: st.warnings + read_entity(block).1,
            })
        }),
{
    let opened = before.push(first);
    assert(opened.drop_last() =~= before);
    lemma_inside_block(opened, BlockKind::Entity, inner);
    assert((opened + inner.push(last)).drop_last() =~= opened + inner);
    assert(inner.push(last).drop_last() =~= inner);
}

/// A type declared over several lines is read as one block: it is added, or what
/// is wrong with it is noted, and nothing else changes.
pub proof fn law_type_block_is_read(
    before: Seq<Seq<char>>,
    first: Seq<char>,
    inner: Seq<Seq<char>>,
    last: Seq<char>,
)
    requires
        scan_lines(before).kind is None,
        keyword_rest(trim_start(first), "ENTITY"@) is None,
        keyword_rest(trim_start(first), "TYPE"@) is Some,
        !contains(first, "END_TYPE"@),
        forall|i: int| 0 <= i < inner.len() ==> !contains(#[trigger] inner[i], "END_TYPE"@),
        contains(last, "END_TYPE"@),
    ensures
        ({
            let st = scan_lines(before);
            let opening = "TYPE "@ + keyword_rest(trim_start(first), "TYPE"@)->0 + "\n"@;
            let block = block_text(opening, inner.push(last));
            let after = scan_lines(before.push(first) + inner.push(last));
            &&& after.kind is None
            &&& after.entities == st.entities
            &&& match read_type(block) {
                Ok(t) => after.types == st.types.insert(t.name, t) && after.warnings == st.warnings,
                Err(w) => after.types == st.types && after.warnings == st.warnings.push(w),
            }
        }),
{
    let opened = before.push(first);
    assert(opened.drop_last() =~= before);
    lemma_inside_block(opened, BlockKind::Type, inner);
    assert((opened + inner.push(last)).drop_last() =~= opened + inner);
    assert(inner.push(last).drop_last() =~= inner);
}

/// The schema that a text declares.
pub open spec fn schema_of(text: &str, label: Seq<char>) -> SchemaModel {
    let st = scan_lines(lines(uncommented(text.spec_bytes(), 0)));
    SchemaModel {
        source_label: label,
        entities: st.entities,
        types: st.types,
        parse_warnings: st.warnings,
    }
}

/// Reads a schema from its text.
pub fn parse_express(text: &str, label: String) -> (r: Schema)
    ensures
        r.view() == schema_of(text, label@),
        r.source_label@ == label@,
{
    let mut entities: Table<EntitySchema> = Table::new();
    let mut types: Table<TypeDef> = Table::new();
    let mut warnings: Vec<String> = Vec::new();
    let stripped = strip_block_comments(text);
    let ls = split_lines(chars_of(stripped.as_str()).as_slice());
    let ghost all = ls.deep_view();
    let mut block = String::new();
    let mut kind: Option<BlockKind> = None;
    let mut i: usize = 0;
    proof {
        assert(all.take(0) =~= seq![]);
        assert(warnings.deep_view() =~= seq![]);
    }
    while i < ls.len()
        invariant
            i <= ls@.len(),
            all == ls.deep_view(),
            all.len() == ls@.len(),
            scan_lines(all.take(i as int)) == (Scan {
                kind,
                block: block@,
                entities: entities@,
                types: types@,
                warnings: warnings.deep_view(),
            }),
        decreases ls@.len() - i,
    {
        let ghost st = scan_lines(all.take(i as int));
        proof {
            assert(all.take(i + 1).drop_last() =~= all.take(i as int));
            assert(all.take(i + 1).last() == ls@[i as int]@);
        }
        let line = chars_of(ls[i].as_str());
        let trimmed_line = trimmed_start(line.as_slice());
        match kind {
            Some(_) => {
                block.append(ls[i].as_str());
                block.append("\n");
            },
            None => {
                if let Some(rest) = match_keyword_prefix(trimmed_line, "ENTITY") {
                    kind = Some(BlockKind::Entity);
                    block = join3("ENTITY ", string_of(rest).as_str(), "\n");
                } else if let Some(rest) = match_keyword_prefix(trimmed_line, "TYPE") {
                    kind = Some(BlockKind::Type);
                    block = join3("TYPE ", string_of(rest).as_str(), "\n");
                }
            },
        }
        match kind {
            Some(BlockKind::Entity) => {
                if has_text(line.as_slice(), "END_ENTITY") {
                    process_entity_block(block.as_str(), &mut entities, &mut warnings);
                    kind = None;
                    block = String::new();
                }
            },
            Some(BlockKind::Type) => {
                if has_text(line.as_slice(), "END_TYPE") {
                    process_type_block(block.as_str(), &mut types, &mut warnings);
                    kind = None;
                    block = String::new();
                }
            },
            None => {},
        }
        i += 1;
    }
    assert(all.take(i as int) =~= all);
    Schema { source_label: label, entities, types, parse_warnings: warnings }
}

/// Whether `s` ends with `p`.
pub open spec fn ends_with(s: Seq<char>, p: Seq<char>) -> bool {
    p.len() <= s.len() && s.skip(s.len() - p.len()) == p
}

/// The label of a schema file with the given stem: lower case, without the
/// suffix that names the kind of model.
pub open spec fn label_of(stem: Seq<char>) -> Seq<char> {
    let low = lowercase(stem);
    if ends_with(low, "_mim_lf"@) || ends_with(low, "_aim_lf"@) || ends_with(low, "_arm_lf"@) {
        low.take(low.len() - 7)
    } else {
        low
    }
}

fn has_suffix(s: &[char], p: &str) -> (r: bool)
    ensures
        r == ends_with(s@, p@),
{
    let pc = chars_of(p);
    if pc.len() > s.len() {
        return false;
    }
    let n: usize = s.len();
    let tail = slice_subrange(s, n - pc.len(), n);
    assert(tail@ =~= s@.skip(s@.len() - p@.len()));
    crate::text::same_chars(tail, pc.as_slice())
}

/// The label of a schema file with the given stem.
pub fn source_label(stem: &str) -> (r: String)
    ensures
        r@ == label_of(stem@),
{
    let low = lower(stem);
    let chars = chars_of(low.as_str());
    let s = chars.as_slice();
    if has_suffix(s, "_mim_lf") || has_suffix(s, "_aim_lf") || has_suffix(s, "_arm_lf") {
        proof {
            reveal_strlit("_mim_lf");
            reveal_strlit("_aim_lf");
            reveal_strlit("_arm_lf");
        }
        let head = slice_subrange(s, 0, s.len() - 7);
        assert(head@ =~= s@.take(s@.len() - 7));
        return string_of(head);
    }
    low
}

} // verus!
