//! Parser for the right-hand side of an attribute or of a `TYPE` alias, such
//! as `OPTIONAL LIST [1:?] OF cartesian_point`. Keywords are upper case.

use crate::express::{AttrType, TypeModel};
use crate::text::{
    after_bytes, alphanumeric, ascii_letter, ascii_word, byte_len, chars_of, close_index,
    count_bytes, depth, find_close, find_text, has_prefix, is_alphanumeric, is_ascii_letter,
    is_ascii_word, is_space, join, join3, lemma_close_index, lemma_close_index_prefix,
    lemma_trim_len, lower, lowercase, outcome, quote, quoted, same_chars, skip_bytes, space,
    split_outside, split_top, starts_with, string_of, text_index, trim, trim_start, trimmed,
    trimmed_start, upper, uppercase, Brackets,
};
use vstd::prelude::*;
use vstd::slice::slice_subrange;
use vstd::string::*;

verus! {

broadcast use vstd::string::group_string_axioms;

/// What follows `keyword` at the start of `line`, without white space before
/// it. `None` where the keyword is not there or runs on into a longer word.
pub open spec fn keyword_rest(line: Seq<char>, keyword: Seq<char>) -> Option<Seq<char>> {
    if !starts_with(line, keyword) {
        None
    } else {
        let rest = line.skip(keyword.len() as int);
        if rest.len() == 0 {
            Some(rest)
        } else if alphanumeric(rest[0]) || rest[0] == '_' {
            None
        } else {
            Some(trim_start(rest))
        }
    }
}

pub proof fn lemma_keyword_rest(line: Seq<char>, keyword: Seq<char>)
    ensures
        keyword_rest(line, keyword) matches Some(r) ==> r.len() + keyword.len() <= line.len(),
{
    lemma_trim_len(line.skip(keyword.len() as int));
}

/// Takes `keyword` off the start of `line`.
pub fn match_keyword_prefix<'a>(line: &'a [char], keyword: &str) -> (r: Option<&'a [char]>)
    ensures
        r is Some <==> keyword_rest(line@, keyword@) is Some,
        r matches Some(s) ==> keyword_rest(line@, keyword@) == Some(s@),
{
    if !has_prefix(line, keyword) {
        return None;
    }
    let n: usize = chars_of(keyword).len();
    let rest = slice_subrange(line, n, line.len());
    assert(rest@ =~= line@.skip(keyword@.len() as int));
    if rest.len() == 0 {
        Some(rest)
    } else if is_alphanumeric(rest[0]) || rest[0] == '_' {
        None
    } else {
        Some(trimmed_start(rest))
    }
}

/// Whether `s` is an identifier: a letter or underscore, then letters, digits
/// and underscores.
pub open spec fn identifier(s: Seq<char>) -> bool {
    &&& s.len() > 0
    &&& is_ascii_letter(s[0]) || s[0] == '_'
    &&& forall|i: int| 0 <= i < s.len() ==> is_ascii_word(#[trigger] s[i])
}

pub fn is_valid_identifier(s: &[char]) -> (r: bool)
    ensures
        r == identifier(s@),
{
    if s.len() == 0 || !(ascii_letter(s[0]) || s[0] == '_') {
        return false;
    }
    let mut i: usize = 0;
    while i < s.len()
        invariant
            i <= s@.len(),
            s@.len() > 0,
            is_ascii_letter(s@[0]) || s@[0] == '_',
            forall|j: int| 0 <= j < i ==> is_ascii_word(#[trigger] s@[j]),
        decreases s@.len() - i,
    {
        if !ascii_word(s[i]) {
            return false;
        }
        i += 1;
    }
    true
}

/// What follows a leading `[...]`, if `s` has one.
pub open spec fn strip_bound(s: Seq<char>) -> Seq<char> {
    let t = trim_start(s);
    if !starts_with(t, "["@) {
        t
    } else {
        match close_index(t, Brackets::Square, 0) {
            Some(i) => t.skip(i + 1),
            None => t,
        }
    }
}

fn strip_bracket_bound(s: &[char]) -> (r: &[char])
    ensures
        r@ == strip_bound(s@),
{
    let t = trimmed_start(s);
    if !has_prefix(t, "[") {
        return t;
    }
    match find_close(t, Brackets::Square, 0) {
        Some(i) => {
            let n: usize = t.len();
            assert(t@.subrange(i + 1, n as int) =~= t@.skip(i + 1));
            slice_subrange(t, i + 1, n)
        },
        None => t,
    }
}

/// What stands between the bracket that opens `s` and the one that closes it.
pub open spec fn paren_content(s: Seq<char>) -> Result<Seq<char>, Seq<char>> {
    let t = trim_start(s);
    if !starts_with(t, "("@) {
        Err("expected '(' at start of "@ + quoted(t))
    } else {
        match close_index(t, Brackets::Round, 0) {
            Some(i) => Ok(t.subrange(1, i)),
            None => Err("unterminated paren in "@ + quoted(t)),
        }
    }
}

proof fn lemma_close_after_open(t: Seq<char>)
    requires
        t.len() > 0,
        t[0] == '(',
    ensures
        close_index(t, Brackets::Round, 0) matches Some(i) ==> 1 <= i < t.len(),
{
    lemma_close_index(t, Brackets::Round, 0);
    if close_index(t, Brackets::Round, 0) == Some(0int) {
        lemma_close_at(t, Brackets::Round, 0);
    }
}

proof fn lemma_close_at(t: Seq<char>, kind: Brackets, level: int)
    ensures
        close_index(t, kind, level) matches Some(i) ==> crate::text::closes(t[i], kind),
    decreases t.len(),
{
    lemma_close_index(t, kind, level);
    if t.len() > 0 {
        lemma_close_index(t.drop_last(), kind, level);
        lemma_close_at(t.drop_last(), kind, level);
    }
}

fn extract_paren_content(s: &[char]) -> (r: Result<&[char], String>)
    ensures
        match r {
            Ok(c) => paren_content(s@) == Ok::<Seq<char>, Seq<char>>(c@),
            Err(e) => paren_content(s@) == Err::<Seq<char>, Seq<char>>(e@),
        },
{
    let t = trimmed_start(s);
    if !has_prefix(t, "(") {
        return Err(join("expected '(' at start of ", quote(string_of(t).as_str()).as_str()));
    }
    proof {
        reveal_strlit("(");
        assert(t@.take(1)[0] == '(');
        lemma_close_after_open(t@);
    }
    match find_close(t, Brackets::Round, 0) {
        Some(i) => Ok(slice_subrange(t, 1, i)),
        None => Err(join("unterminated paren in ", quote(string_of(t).as_str()).as_str())),
    }
}

/// The lower-cased pieces, trimmed, without the empty ones.
pub open spec fn lowered(pieces: Seq<Seq<char>>) -> Seq<Seq<char>>
    decreases pieces.len(),
{
    if pieces.len() == 0 {
        seq![]
    } else {
        let before = lowered(pieces.drop_last());
        let item = trim(pieces.last());
        if item.len() == 0 {
            before
        } else {
            before.push(lowercase(item))
        }
    }
}

/// Trims and lower-cases the pieces, and drops the empty ones.
pub fn lower_all(pieces: &Vec<String>) -> (r: Vec<String>)
    ensures
        r.deep_view() == lowered(pieces.deep_view()),
{
    let ghost all = pieces.deep_view();
    let mut out: Vec<String> = Vec::new();
    let mut i: usize = 0;
    assert(all.take(0) =~= seq![]);
    assert(out.deep_view() =~= seq![]);
    while i < pieces.len()
        invariant
            i <= pieces@.len(),
            all == pieces.deep_view(),
            all.len() == pieces@.len(),
            out.deep_view() == lowered(all.take(i as int)),
        decreases pieces@.len() - i,
    {
        let chars = chars_of(pieces[i].as_str());
        let item = trimmed(chars.as_slice());
        proof {
            assert(all.take(i + 1).drop_last() =~= all.take(i as int));
            assert(all.take(i + 1).last() == pieces@[i as int]@);
        }
        if item.len() > 0 {
            let ghost before = out.deep_view();
            let low = lower(string_of(item).as_str());
            out.push(low);
            assert(out.deep_view() =~= before.push(low@));
        }
        i += 1;
    }
    assert(all.take(i as int) =~= all);
    out
}

/// The names in a comma-separated list.
pub open spec fn list_names(s: Seq<char>) -> Seq<Seq<char>> {
    lowered(split_top(s, ',', Brackets::Both))
}

fn split_top_level_commas_lower(s: &[char]) -> (r: Vec<String>)
    ensures
        r.deep_view() == list_names(s@),
{
    lower_all(&split_outside(s, ',', Brackets::Both))
}

/// The aggregations.
pub enum Aggregate {
    List,
    SetOf,
    Bag,
    Array,
}

/// The aggregation that `t` starts with, and what follows its keyword.
pub open spec fn aggregate(t: Seq<char>) -> Option<(Aggregate, Seq<char>)> {
    if keyword_rest(t, "LIST"@) is Some {
        Some((Aggregate::List, keyword_rest(t, "LIST"@)->0))
    } else if keyword_rest(t, "SET"@) is Some {
        Some((Aggregate::SetOf, keyword_rest(t, "SET"@)->0))
    } else if keyword_rest(t, "BAG"@) is Some {
        Some((Aggregate::Bag, keyword_rest(t, "BAG"@)->0))
    } else if keyword_rest(t, "ARRAY"@) is Some {
        Some((Aggregate::Array, keyword_rest(t, "ARRAY"@)->0))
    } else {
        None
    }
}

pub open spec fn aggregate_name(a: Aggregate) -> Seq<char> {
    match a {
        Aggregate::List => "LIST"@,
        Aggregate::SetOf => "SET"@,
        Aggregate::Bag => "BAG"@,
        Aggregate::Array => "ARRAY"@,
    }
}

pub open spec fn aggregate_of(a: Aggregate, t: TypeModel) -> TypeModel {
    match a {
        Aggregate::List => TypeModel::List(Box::new(t)),
        Aggregate::SetOf => TypeModel::SetOf(Box::new(t)),
        Aggregate::Bag => TypeModel::Bag(Box::new(t)),
        Aggregate::Array => TypeModel::Array(Box::new(t)),
    }
}

/// The text of an aggregation after its bound.
pub open spec fn after_bound(rest: Seq<char>) -> Seq<char> {
    trim_start(strip_bound(rest))
}

/// The element type's text after `OF`, without a `UNIQUE` or `OPTIONAL`.
pub open spec fn without_modifier(after_of: Seq<char>) -> Seq<char> {
    if keyword_rest(trim_start(after_of), "UNIQUE"@) is Some {
        keyword_rest(trim_start(after_of), "UNIQUE"@)->0
    } else if keyword_rest(trim_start(after_of), "OPTIONAL"@) is Some {
        keyword_rest(trim_start(after_of), "OPTIONAL"@)->0
    } else {
        after_of
    }
}

/// What follows `WITH` in the upper-cased text, cut out of the text itself by
/// the byte position; `None` without `WITH`, or where a character of the text
/// spans that position.
pub open spec fn with_tail(after: Seq<char>) -> Option<Seq<char>> {
    match text_index(uppercase(after), "WITH"@) {
        Some(j) => skip_bytes(after, byte_len(uppercase(after).take(j)) + 4),
        None => None,
    }
}

/// The text of an enumeration from `OF` on: a `BASED_ON parent WITH` is
/// skipped.
pub open spec fn enumeration_tail(rest: Seq<char>) -> Result<Seq<char>, Seq<char>> {
    let cur = trim_start(rest);
    match keyword_rest(cur, "BASED_ON"@) {
        Some(after) => match with_tail(after) {
            Some(t) => Ok(trim_start(t)),
            None => Err("ENUMERATION BASED_ON without WITH: "@ + quoted(after)),
        },
        None => Ok(cur),
    }
}

/// An enumeration from what follows its keyword.
pub open spec fn enumeration(rest: Seq<char>) -> Result<TypeModel, Seq<char>> {
    match enumeration_tail(rest) {
        Ok(cur) => match keyword_rest(cur, "OF"@) {
            Some(after_of) => match paren_content(after_of) {
                Ok(inside) => Ok(TypeModel::Enumeration(list_names(inside))),
                Err(e) => Err(e),
            },
            None => Err("ENUMERATION not followed by OF: "@ + quoted(cur)),
        },
        Err(e) => Err(e),
    }
}

/// Whether upper-cased text is the primitive `p`, alone or with a size.
pub open spec fn is_primitive(up: Seq<char>, p: Seq<char>) -> bool {
    up == p || starts_with(up, p + "("@) || starts_with(up, p + " "@)
}

/// The primitive that upper-cased text names.
pub open spec fn primitive(up: Seq<char>) -> Option<Seq<char>> {
    if is_primitive(up, "INTEGER"@) {
        Some("INTEGER"@)
    } else if is_primitive(up, "REAL"@) {
        Some("REAL"@)
    } else if is_primitive(up, "STRING"@) {
        Some("STRING"@)
    } else if is_primitive(up, "LOGICAL"@) {
        Some("LOGICAL"@)
    } else if is_primitive(up, "BOOLEAN"@) {
        Some("BOOLEAN"@)
    } else if is_primitive(up, "NUMBER"@) {
        Some("NUMBER"@)
    } else if is_primitive(up, "BINARY"@) {
        Some("BINARY"@)
    } else {
        None
    }
}

/// `s` without the white space and semicolons at its end.
pub open spec fn trim_name_end(s: Seq<char>) -> Seq<char>
    decreases s.len(),
{
    if s.len() > 0 && (is_space(s.last()) || s.last() == ';') {
        trim_name_end(s.drop_last())
    } else {
        s
    }
}

/// A type that is no aggregation and no `OPTIONAL`.
pub open spec fn plain_type(t: Seq<char>) -> Result<TypeModel, Seq<char>> {
    if keyword_rest(t, "SELECT"@) is Some {
        match paren_content(keyword_rest(t, "SELECT"@)->0) {
            Ok(inside) => Ok(TypeModel::Select(list_names(inside))),
            Err(e) => Err(e),
        }
    } else if keyword_rest(t, "ENUMERATION"@) is Some {
        enumeration(keyword_rest(t, "ENUMERATION"@)->0)
    } else if primitive(uppercase(t)) is Some {
        Ok(TypeModel::Primitive(primitive(uppercase(t))->0))
    } else if identifier(trim_name_end(t)) {
        Ok(TypeModel::Entity(lowercase(trim_name_end(t))))
    } else {
        Err("unrecognised type repr: "@ + quoted(t))
    }
}

/// The type that a text spells, or the complaint.
pub open spec fn parse_type(input: Seq<char>) -> Result<TypeModel, Seq<char>>
    decreases input.len(),
    via parse_type_decreases
{
    let t = trim(input);
    if t.len() == 0 {
        Err("empty type repr"@)
    } else if keyword_rest(t, "OPTIONAL"@) is Some {
        match parse_type(keyword_rest(t, "OPTIONAL"@)->0) {
            Ok(x) => Ok(TypeModel::Optional(Box::new(x))),
            Err(e) => Err(e),
        }
    } else if aggregate(t) is Some {
        let (kind, rest) = aggregate(t)->0;
        match keyword_rest(after_bound(rest), "OF"@) {
            Some(after_of) => match parse_type(without_modifier(after_of)) {
                Ok(x) => Ok(aggregate_of(kind, x)),
                Err(e) => Err(e),
            },
            None => Err(
                aggregate_name(kind) + " not followed by OF: "@ + quoted(after_bound(rest)),
            ),
        }
    } else {
        plain_type(t)
    }
}

proof fn lemma_element_shrinks(t: Seq<char>)
    ensures
        aggregate(t) matches Some((kind, rest)) ==> (keyword_rest(after_bound(rest), "OF"@)
            matches Some(after_of) ==> without_modifier(after_of).len() < t.len()),
{
    reveal_strlit("OF");
    lemma_keyword_rest(t, "LIST"@);
    lemma_keyword_rest(t, "SET"@);
    lemma_keyword_rest(t, "BAG"@);
    lemma_keyword_rest(t, "ARRAY"@);
    if aggregate(t) is Some {
        let (kind, rest) = aggregate(t)->0;
        lemma_trim_len(rest);
        lemma_close_index(trim_start(rest), Brackets::Square, 0);
        lemma_trim_len(strip_bound(rest));
        lemma_keyword_rest(after_bound(rest), "OF"@);
        if keyword_rest(after_bound(rest), "OF"@) is Some {
            let after_of = keyword_rest(after_bound(rest), "OF"@)->0;
            lemma_trim_len(after_of);
            lemma_keyword_rest(trim_start(after_of), "UNIQUE"@);
            lemma_keyword_rest(trim_start(after_of), "OPTIONAL"@);
        }
    }
}

proof fn lemma_parts_shrink(input: Seq<char>)
    ensures
        trim(input).len() <= input.len(),
        keyword_rest(trim(input), "OPTIONAL"@) matches Some(r) ==> r.len() < input.len(),
        aggregate(trim(input)) matches Some((kind, rest)) ==> (keyword_rest(
            after_bound(rest),
            "OF"@,
        ) matches Some(after_of) ==> without_modifier(after_of).len() < input.len()),
{
    lemma_trim_len(input);
    reveal_strlit("OPTIONAL");
    lemma_keyword_rest(trim(input), "OPTIONAL"@);
    lemma_element_shrinks(trim(input));
}

#[via_fn]
proof fn parse_type_decreases(input: Seq<char>) {
    lemma_parts_shrink(input);
}

proof fn lemma_open_bound(b: Seq<char>)
    requires
        forall|i: int| 0 <= i < b.len() ==> #[trigger] b[i] != '[' && b[i] != ']',
    ensures
        depth(seq!['['] + b, Brackets::Square) == 1,
        close_index(seq!['['] + b, Brackets::Square, 0) is None,
    decreases b.len(),
{
    let s = seq!['['] + b;
    if b.len() > 0 {
        let fewer = b.drop_last();
        assert forall|i: int| 0 <= i < fewer.len() implies #[trigger] fewer[i] != '[' && fewer[i]
            != ']' by {
            assert(fewer[i] == b[i]);
        }
        lemma_open_bound(fewer);
        assert(s.drop_last() =~= seq!['['] + fewer);
        assert(s.last() == b[b.len() - 1]);
    } else {
        assert(s.drop_last() =~= seq![]);
        assert(s.last() == '[');
        assert(depth(Seq::<char>::empty(), Brackets::Square) == 0);
        assert(close_index(s.drop_last(), Brackets::Square, 0) is None);
    }
}

/// The bound of an aggregation does not matter: the type is read from what follows
/// it.
pub proof fn law_bounds_are_dropped(b: Seq<char>, tail: Seq<char>)
    requires
        forall|i: int| 0 <= i < b.len() ==> #[trigger] b[i] != '[' && b[i] != ']',
    ensures
        after_bound(seq!['['] + b + seq![']'] + tail) == trim_start(tail),
{
    let head = seq!['['] + b;
    let closed = head.push(']');
    let t = seq!['['] + b + seq![']'] + tail;
    lemma_open_bound(b);
    assert(closed.drop_last() =~= head);
    assert(close_index(closed, Brackets::Square, 0) == Some(head.len() as int));
    assert(t.take(closed.len() as int) =~= closed);
    lemma_close_index_prefix(t, Brackets::Square, 0, closed.len() as int);
    reveal_strlit("[");
    assert(t[0] == '[');
    assert(trim_start(t) == t);
    assert(t.take(1) =~= "["@);
    assert(t.skip(head.len() as int + 1) =~= tail);
}

fn is_named_primitive(up: &[char], p: &str) -> (r: bool)
    ensures
        r == is_primitive(up@, p@),
{
    let pc = chars_of(p);
    if same_chars(up, pc.as_slice()) {
        return true;
    }
    has_prefix(up, join(p, "(").as_str()) || has_prefix(up, join(p, " ").as_str())
}

fn primitive_of(up: &[char]) -> (r: Option<&'static str>)
    ensures
        r is Some <==> primitive(up@) is Some,
        r matches Some(p) ==> primitive(up@) == Some(p@),
{
    if is_named_primitive(up, "INTEGER") {
        Some("INTEGER")
    } else if is_named_primitive(up, "REAL") {
        Some("REAL")
    } else if is_named_primitive(up, "STRING") {
        Some("STRING")
    } else if is_named_primitive(up, "LOGICAL") {
        Some("LOGICAL")
    } else if is_named_primitive(up, "BOOLEAN") {
        Some("BOOLEAN")
    } else if is_named_primitive(up, "NUMBER") {
        Some("NUMBER")
    } else if is_named_primitive(up, "BINARY") {
        Some("BINARY")
    } else {
        None
    }
}

fn trimmed_name_end(s: &[char]) -> (r: &[char])
    ensures
        r@ == trim_name_end(s@),
{
    let mut n: usize = s.len();
    assert(s@.take(n as int) =~= s@);
    while n > 0 && (space(s[n - 1]) || s[n - 1] == ';')
        invariant
            n <= s@.len(),
            trim_name_end(s@) == trim_name_end(s@.take(n as int)),
        decreases n,
    {
        assert(s@.take(n as int).drop_last() =~= s@.take(n - 1));
        n -= 1;
    }
    assert(s@.subrange(0, n as int) =~= s@.take(n as int));
    slice_subrange(s, 0, n)
}

fn tail_after_with(after: &[char]) -> (r: Option<&[char]>)
    ensures
        r is Some <==> with_tail(after@) is Some,
        r matches Some(t) ==> with_tail(after@) == Some(t@),
{
    let up = chars_of(upper(string_of(after).as_str()).as_str());
    match find_text(up.as_slice(), "WITH") {
        Some(j) => {
            let head = slice_subrange(up.as_slice(), 0, j);
            assert(head@ =~= uppercase(after@).take(j as int));
            after_bytes(after, count_bytes(head) + 4)
        },
        None => None,
    }
}

fn parse_enumeration(rest: &[char]) -> (r: Result<AttrType, String>)
    ensures
        outcome(r) == enumeration(rest@),
{
    let mut cur = trimmed_start(rest);
    if let Some(after) = match_keyword_prefix(cur, "BASED_ON") {
        match tail_after_with(after) {
            Some(t) => {
                cur = trimmed_start(t);
            },
            None => {
                return Err(
                    join(
                        "ENUMERATION BASED_ON without WITH: ",
                        quote(string_of(after).as_str()).as_str(),
                    ),
                );
            },
        }
    }
    match match_keyword_prefix(cur, "OF") {
        Some(after_of) => match extract_paren_content(after_of) {
            Ok(inside) => Ok(AttrType::Enumeration(split_top_level_commas_lower(inside))),
            Err(e) => Err(e),
        },
        None => Err(
            join("ENUMERATION not followed by OF: ", quote(string_of(cur).as_str()).as_str()),
        ),
    }
}

fn parse_plain(t: &[char]) -> (r: Result<AttrType, String>)
    ensures
        outcome(r) == plain_type(t@),
{
    if let Some(rest) = match_keyword_prefix(t, "SELECT") {
        return match extract_paren_content(rest) {
            Ok(inside) => Ok(AttrType::Select(split_top_level_commas_lower(inside))),
            Err(e) => Err(e),
        };
    }
    if let Some(rest) = match_keyword_prefix(t, "ENUMERATION") {
        return parse_enumeration(rest);
    }
    let up = chars_of(upper(string_of(t).as_str()).as_str());
    if let Some(p) = primitive_of(up.as_slice()) {
        return Ok(AttrType::Primitive(p.to_owned()));
    }
    let id = trimmed_name_end(t);
    if is_valid_identifier(id) {
        return Ok(AttrType::Entity(lower(string_of(id).as_str())));
    }
    Err(join("unrecognised type repr: ", quote(string_of(t).as_str()).as_str()))
}

fn match_aggregate(t: &[char]) -> (r: Option<(Aggregate, &[char])>)
    ensures
        r is Some <==> aggregate(t@) is Some,
        r matches Some(p) ==> aggregate(t@) == Some((p.0, p.1@)),
{
    if let Some(rest) = match_keyword_prefix(t, "LIST") {
        return Some((Aggregate::List, rest));
    }
    if let Some(rest) = match_keyword_prefix(t, "SET") {
        return Some((Aggregate::SetOf, rest));
    }
    if let Some(rest) = match_keyword_prefix(t, "BAG") {
        return Some((Aggregate::Bag, rest));
    }
    if let Some(rest) = match_keyword_prefix(t, "ARRAY") {
        return Some((Aggregate::Array, rest));
    }
    None
}

/// Parses the type that `input` spells.
pub fn parse_type_chars(input: &[char]) -> (r: Result<AttrType, String>)
    ensures
        outcome(r) == parse_type(input@),
    decreases input@.len(),
{
    proof {
        lemma_parts_shrink(input@);
    }
    let t = trimmed(input);
    if t.len() == 0 {
        return Err("empty type repr".to_owned());
    }
    if let Some(rest) = match_keyword_prefix(t, "OPTIONAL") {
        return match parse_type_chars(rest) {
            Ok(x) => Ok(AttrType::Optional(Box::new(x))),
            Err(e) => Err(e),
        };
    }
    if let Some((kind, rest)) = match_aggregate(t) {
        let bound = trimmed_start(strip_bracket_bound(rest));
        let after_of = match match_keyword_prefix(bound, "OF") {
            Some(a) => a,
            None => {
                let name = match kind {
                    Aggregate::List => "LIST",
                    Aggregate::SetOf => "SET",
                    Aggregate::Bag => "BAG",
                    Aggregate::Array => "ARRAY",
                };
                return Err(
                    join3(
                        name,
                        " not followed by OF: ",
                        quote(string_of(bound).as_str()).as_str(),
                    ),
                );
            },
        };
        let mut inner = after_of;
        let start = trimmed_start(after_of);
        if let Some(m) = match_keyword_prefix(start, "UNIQUE") {
            inner = m;
        } else if let Some(m) = match_keyword_prefix(start, "OPTIONAL") {
            inner = m;
        }
        return match parse_type_chars(inner) {
            Ok(x) => Ok(
                match kind {
                    Aggregate::List => AttrType::List(Box::new(x)),
                    Aggregate::SetOf => AttrType::SetOf(Box::new(x)),
                    Aggregate::Bag => AttrType::Bag(Box::new(x)),
                    Aggregate::Array => AttrType::Array(Box::new(x)),
                },
            ),
            Err(e) => Err(e),
        };
    }
    parse_plain(t)
}

/// Parses the type that `input` spells, such as
/// `OPTIONAL LIST [1:?] OF cartesian_point`.
pub fn parse_type_repr(input: &str) -> (r: Result<AttrType, String>)
    ensures
        outcome(r) == parse_type(input@),
{
    let chars = chars_of(input);
    parse_type_chars(chars.as_slice())
}

} // verus!
