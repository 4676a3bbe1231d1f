//! Recursive descent parser for the body inside `SUPERTYPE OF (...)`.
//!
//! ```text
//! supertype_expression := supertype_factor (ANDOR supertype_factor)*
//! supertype_factor     := supertype_term (AND supertype_term)*
//! supertype_term       := entity_ref
//!                       | ONEOF '(' supertype_expression
//!                                  (',' supertype_expression)* ')'
//!                       | '(' supertype_expression ')'
//! ```
//!
//! `AND` binds tighter than `ANDOR`. A composition with a single member is
//! that member; brackets leave no node of their own. Any text outside the
//! grammar is an error.

use crate::express::{lemma_super_view, SuperModel, SupertypeExpr};
use crate::text::{decimal, decimal_of, lower_char, quote, quote_char, quoted, quoted_char, join};
use vstd::prelude::*;
use vstd::string::*;

verus! {

broadcast use vstd::string::group_string_axioms;

#[derive(Debug, PartialEq, Eq)]
pub enum Token {
    Ident(String),
    OneOf,
    And,
    AndOr,
    LParen,
    RParen,
    Comma,
}

/// What a `Token` stands for.
pub enum TokenModel {
    Ident(Seq<char>),
    OneOf,
    And,
    AndOr,
    LParen,
    RParen,
    Comma,
}

impl Token {
    pub open spec fn view(&self) -> TokenModel {
        match self {
            Token::Ident(s) => TokenModel::Ident(s@),
            Token::OneOf => TokenModel::OneOf,
            Token::And => TokenModel::And,
            Token::AndOr => TokenModel::AndOr,
            Token::LParen => TokenModel::LParen,
            Token::RParen => TokenModel::RParen,
            Token::Comma => TokenModel::Comma,
        }
    }
}

impl DeepView for Token {
    type V = TokenModel;

    open spec fn deep_view(&self) -> TokenModel {
        self.view()
    }
}

// ---------------------------------------------------------------------
// Tokens
// ---------------------------------------------------------------------

/// The ASCII bytes that count as white space.
pub open spec fn is_blank(b: u8) -> bool {
    b == 9 || b == 10 || b == 12 || b == 13 || b == 32
}

pub open spec fn is_letter(b: u8) -> bool {
    97 <= b <= 122 || 65 <= b <= 90 || b == 95
}

pub open spec fn is_word(b: u8) -> bool {
    is_letter(b) || 48 <= b <= 57
}

/// Where the identifier that runs through position `i` ends.
pub open spec fn word_end(b: Seq<u8>, i: int) -> int
    decreases b.len() - i,
{
    if 0 <= i < b.len() && is_word(b[i]) {
        word_end(b, i + 1)
    } else {
        i
    }
}

pub proof fn lemma_word_end(b: Seq<u8>, i: int)
    requires
        0 <= i <= b.len(),
    ensures
        i <= word_end(b, i) <= b.len(),
        i < b.len() && is_word(b[i]) ==> i < word_end(b, i),
    decreases b.len() - i,
{
    if i < b.len() && is_word(b[i]) {
        lemma_word_end(b, i + 1);
    }
}

/// The lower-cased characters of an ASCII word.
pub open spec fn word_text(b: Seq<u8>) -> Seq<char> {
    Seq::new(b.len(), |i: int| lower_char(b[i] as char))
}

/// The token that a word stands for.
pub open spec fn word_token(w: Seq<char>) -> TokenModel {
    if w == "oneof"@ {
        TokenModel::OneOf
    } else if w == "and"@ {
        TokenModel::And
    } else if w == "andor"@ {
        TokenModel::AndOr
    } else {
        TokenModel::Ident(w)
    }
}

/// `first` and then the tokens `rest`, unless reading those failed.
pub open spec fn cons(
    first: TokenModel,
    rest: Result<Seq<TokenModel>, Seq<char>>,
) -> Result<Seq<TokenModel>, Seq<char>> {
    match rest {
        Ok(ts) => Ok(seq![first] + ts),
        Err(e) => Err(e),
    }
}

/// The tokens from byte `i` on, or the complaint about the first byte that
/// belongs to none.
pub open spec fn tokens_from(b: Seq<u8>, i: int) -> Result<Seq<TokenModel>, Seq<char>>
    decreases b.len() - i,
    via tokens_from_decreases
{
    if i < 0 || i >= b.len() {
        Ok(seq![])
    } else if is_blank(b[i]) {
        tokens_from(b, i + 1)
    } else if b[i] == 40 {
        cons(TokenModel::LParen, tokens_from(b, i + 1))
    } else if b[i] == 41 {
        cons(TokenModel::RParen, tokens_from(b, i + 1))
    } else if b[i] == 44 {
        cons(TokenModel::Comma, tokens_from(b, i + 1))
    } else if is_letter(b[i]) {
        cons(word_token(word_text(b.subrange(i, word_end(b, i)))), tokens_from(b, word_end(b, i)))
    } else {
        Err(
            "unexpected character "@ + quoted_char(b[i] as char) + " at byte "@ + decimal(
                i as nat,
            ),
        )
    }
}

#[via_fn]
proof fn tokens_from_decreases(b: Seq<u8>, i: int) {
    if 0 <= i <= b.len() {
        lemma_word_end(b, i);
    }
}

/// The bytes with the ASCII letters in lower case.
pub open spec fn lower_bytes(b: Seq<u8>) -> Seq<u8> {
    Seq::new(
        b.len(),
        |i: int|
            if 65 <= b[i] <= 90 {
                (b[i] + 32) as u8
            } else {
                b[i]
            },
    )
}

proof fn lemma_word_end_in_lower_case(b: Seq<u8>, i: int)
    ensures
        word_end(lower_bytes(b), i) == word_end(b, i),
    decreases b.len() - i,
{
    if 0 <= i < b.len() && is_word(b[i]) {
        lemma_word_end_in_lower_case(b, i + 1);
    }
}

proof fn lemma_tokens_in_lower_case(b: Seq<u8>, i: int)
    ensures
        tokens_from(lower_bytes(b), i) == tokens_from(b, i),
    decreases b.len() - i,
{
    if 0 <= i < b.len() {
        lemma_word_end(b, i);
        if is_letter(b[i]) {
            let j = word_end(b, i);
            lemma_word_end_in_lower_case(b, i);
            lemma_tokens_in_lower_case(b, j);
            assert(word_text(lower_bytes(b).subrange(i, j)) =~= word_text(b.subrange(i, j)));
        } else {
            lemma_tokens_in_lower_case(b, i + 1);
        }
    }
}

/// Keywords and names may be written in either case.
pub proof fn law_case_does_not_matter(b: Seq<u8>)
    ensures
        tokens_from(lower_bytes(b), 0) == tokens_from(b, 0),
        parse_body(lower_bytes(b)) == parse_body(b),
{
    lemma_tokens_in_lower_case(b, 0);
}

fn blank(b: u8) -> (r: bool)
    ensures
        r == is_blank(b),
{
    b == 9 || b == 10 || b == 12 || b == 13 || b == 32
}

fn letter(b: u8) -> (r: bool)
    ensures
        r == is_letter(b),
{
    (97 <= b && b <= 122) || (65 <= b && b <= 90) || b == 95
}

/// Reads the lower-cased word at `i`; tells where it ends.
fn read_word(b: &[u8], i: usize) -> (r: (String, usize))
    requires
        i < b@.len(),
        is_letter(b@[i as int]),
    ensures
        r.1 == word_end(b@, i as int),
        i < r.1 <= b@.len(),
        r.0@ == word_text(b@.subrange(i as int, r.1 as int)),
{
    let mut w = String::new();
    let mut j: usize = i;
    proof {
        lemma_word_end(b@, i as int);
        assert(word_text(b@.subrange(i as int, i as int)) =~= seq![]);
    }
    while j < b.len() && (letter(b[j]) || (48 <= b[j] && b[j] <= 57))
        invariant
            i <= j <= b@.len(),
            word_end(b@, i as int) == word_end(b@, j as int),
            w@ == word_text(b@.subrange(i as int, j as int)),
        decreases b@.len() - j,
    {
        let x: u8 = b[j];
        let c: char = if 65 <= x && x <= 90 {
            (x + 32) as char
        } else {
            x as char
        };
        w.push(c);
        assert(w@ =~= word_text(b@.subrange(i as int, j + 1)));
        j += 1;
    }
    (w, j)
}

/// Cuts the body into tokens.
pub fn tokenize(body: &str) -> (r: Result<Vec<Token>, String>)
    ensures
        match r {
            Ok(ts) => tokens_from(body.spec_bytes(), 0) == Ok::<Seq<TokenModel>, Seq<char>>(
                ts.deep_view(),
            ),
            Err(e) => tokens_from(body.spec_bytes(), 0) == Err::<Seq<TokenModel>, Seq<char>>(e@),
        },
{
    let bytes = body.as_bytes();
    let mut out: Vec<Token> = Vec::new();
    let mut i: usize = 0;
    assert(out.deep_view() =~= seq![]);
    proof {
        match tokens_from(bytes@, 0) {
            Ok(ts) => {
                assert(out.deep_view() + ts =~= ts);
            },
            Err(e) => {},
        }
    }
    while i < bytes.len()
        invariant
            i <= bytes@.len(),
            bytes@ == body.spec_bytes(),
            tokens_from(bytes@, 0) == (match tokens_from(bytes@, i as int) {
                Ok(ts) => Ok::<Seq<TokenModel>, Seq<char>>(out.deep_view() + ts),
                Err(e) => Err(e),
            }),
        decreases bytes@.len() - i,
    {
        let b: u8 = bytes[i];
        if blank(b) {
            i += 1;
            continue;
        }
        let ghost before = out.deep_view();
        let tok: Token;
        let next: usize;
        if b == 40 {
            tok = Token::LParen;
            next = i + 1;
        } else if b == 41 {
            tok = Token::RParen;
            next = i + 1;
        } else if b == 44 {
            tok = Token::Comma;
            next = i + 1;
        } else if letter(b) {
            let (word, end) = read_word(bytes, i);
            if crate::text::same(word.as_str(), "oneof") {
                tok = Token::OneOf;
            } else if crate::text::same(word.as_str(), "and") {
                tok = Token::And;
            } else if crate::text::same(word.as_str(), "andor") {
                tok = Token::AndOr;
            } else {
                tok = Token::Ident(word);
            }
            next = end;
        } else {
            let mut e: String = "unexpected character ".to_owned();
            e.append(quote_char(b as char).as_str());
            e.append(" at byte ");
            e.append(decimal_of(i).as_str());
            return Err(e);
        }
        let ghost first = tok@;
        proof {
            assert(tokens_from(bytes@, i as int) == cons(first, tokens_from(bytes@, next as int)));
        }
        out.push(tok);
        proof {
            assert(out.deep_view() =~= before.push(first));
            match tokens_from(bytes@, next as int) {
                Ok(ts) => {
                    assert(before + (seq![first] + ts) =~= out.deep_view() + ts);
                },
                Err(e) => {},
            }
        }
        i = next;
    }
    proof {
        assert(out.deep_view() + seq![] =~= out.deep_view());
    }
    Ok(out)
}

// ---------------------------------------------------------------------
// Grammar
// ---------------------------------------------------------------------

/// How a token is named in messages.
pub open spec fn token_name(t: TokenModel) -> Seq<char> {
    match t {
        TokenModel::Ident(s) => "Ident("@ + quoted(s) + ")"@,
        TokenModel::OneOf => "OneOf"@,
        TokenModel::And => "And"@,
        TokenModel::AndOr => "AndOr"@,
        TokenModel::LParen => "LParen"@,
        TokenModel::RParen => "RParen"@,
        TokenModel::Comma => "Comma"@,
    }
}

/// How a list of tokens is written in messages.
pub open spec fn token_list(t: Seq<TokenModel>) -> Seq<char>
    decreases t.len(),
{
    if t.len() == 0 {
        seq![]
    } else if t.len() == 1 {
        token_name(t[0])
    } else {
        token_list(t.drop_last()) + ", "@ + token_name(t.last())
    }
}

/// An expression and the position after it, or the complaint.
pub type Parsed = Result<(SuperModel, int), Seq<char>>;

/// A composition of `parts`, unless there is only one of them.
pub open spec fn compose_andor(parts: Seq<SuperModel>) -> SuperModel {
    if parts.len() == 1 {
        parts[0]
    } else {
        SuperModel::AndOr(parts)
    }
}

pub open spec fn compose_and(parts: Seq<SuperModel>) -> SuperModel {
    if parts.len() == 1 {
        parts[0]
    } else {
        SuperModel::And(parts)
    }
}

pub open spec fn compose_oneof(parts: Seq<SuperModel>) -> SuperModel {
    if parts.len() == 1 {
        parts[0]
    } else {
        SuperModel::OneOf(parts)
    }
}

/// The position after the token `x` at `pos`.
pub open spec fn expect(t: Seq<TokenModel>, pos: int, x: TokenModel) -> Result<int, Seq<char>> {
    if 0 <= pos < t.len() {
        if t[pos] == x {
            Ok(pos + 1)
        } else {
            Err("expected "@ + token_name(x) + ", got "@ + token_name(t[pos]))
        }
    } else {
        Err("expected "@ + token_name(x) + ", got end of input"@)
    }
}

/// `supertype_expression`. Each part takes at least one token
/// (`lemma_progress`), so the guard on the position always holds.
pub open spec fn expression(t: Seq<TokenModel>, pos: int) -> Parsed
    decreases t.len() - pos, 4nat,
{
    match factor(t, pos) {
        Ok((x, p)) => if pos < p <= t.len() {
            more_factors(t, p, seq![x])
        } else {
            Err(seq![])
        },
        Err(e) => Err(e),
    }
}

pub open spec fn more_factors(t: Seq<TokenModel>, pos: int, parts: Seq<SuperModel>) -> Parsed
    decreases t.len() - pos, 5nat,
{
    if 0 <= pos < t.len() && t[pos] is AndOr {
        match factor(t, pos + 1) {
            Ok((x, p)) => if pos < p <= t.len() {
                more_factors(t, p, parts.push(x))
            } else {
                Err(seq![])
            },
            Err(e) => Err(e),
        }
    } else {
        Ok((compose_andor(parts), pos))
    }
}

/// `supertype_factor`.
pub open spec fn factor(t: Seq<TokenModel>, pos: int) -> Parsed
    decreases t.len() - pos, 2nat,
{
    match term(t, pos) {
        Ok((x, p)) => if pos < p <= t.len() {
            more_terms(t, p, seq![x])
        } else {
            Err(seq![])
        },
        Err(e) => Err(e),
    }
}

pub open spec fn more_terms(t: Seq<TokenModel>, pos: int, parts: Seq<SuperModel>) -> Parsed
    decreases t.len() - pos, 3nat,
{
    if 0 <= pos < t.len() && t[pos] is And {
        match term(t, pos + 1) {
            Ok((x, p)) => if pos < p <= t.len() {
                more_terms(t, p, parts.push(x))
            } else {
                Err(seq![])
            },
            Err(e) => Err(e),
        }
    } else {
        Ok((compose_and(parts), pos))
    }
}

/// `supertype_term`.
pub open spec fn term(t: Seq<TokenModel>, pos: int) -> Parsed
    decreases t.len() - pos, 1nat,
{
    if !(0 <= pos < t.len()) {
        Err("unexpected end of input at term start"@)
    } else {
        match t[pos] {
            TokenModel::Ident(name) => Ok((SuperModel::Entity(name), pos + 1)),
            TokenModel::OneOf => match expect(t, pos + 1, TokenModel::LParen) {
                Ok(p) => match expression(t, p) {
                    Ok((x, q)) => if p < q <= t.len() {
                        more_members(t, q, seq![x])
                    } else {
                        Err(seq![])
                    },
                    Err(e) => Err(e),
                },
                Err(e) => Err(e),
            },
            TokenModel::LParen => match expression(t, pos + 1) {
                Ok((x, q)) => match expect(t, q, TokenModel::RParen) {
                    Ok(r) => Ok((x, r)),
                    Err(e) => Err(e),
                },
                Err(e) => Err(e),
            },
            other => Err("unexpected token "@ + token_name(other) + " at term start"@),
        }
    }
}

/// The members of a `ONEOF` after the first ones, and its closing bracket.
pub open spec fn more_members(t: Seq<TokenModel>, pos: int, parts: Seq<SuperModel>) -> Parsed
    decreases t.len() - pos, 6nat,
{
    if 0 <= pos < t.len() && t[pos] is Comma {
        match expression(t, pos + 1) {
            Ok((x, p)) => if pos < p <= t.len() {
                more_members(t, p, parts.push(x))
            } else {
                Err(seq![])
            },
            Err(e) => Err(e),
        }
    } else {
        match expect(t, pos, TokenModel::RParen) {
            Ok(r) => Ok((compose_oneof(parts), r)),
            Err(e) => Err(e),
        }
    }
}

/// The tree that a whole token list spells, or the complaint.
pub open spec fn parse_tokens(t: Seq<TokenModel>) -> Result<SuperModel, Seq<char>> {
    if t.len() == 0 {
        Err("empty SUPERTYPE body"@)
    } else {
        match expression(t, 0) {
            Ok((x, p)) => if p == t.len() {
                Ok(x)
            } else {
                Err(
                    "trailing tokens at position "@ + decimal(p as nat) + ": ["@ + token_list(
                        t.skip(p),
                    ) + "]"@,
                )
            },
            Err(e) => Err(e),
        }
    }
}

/// The tree that the bytes of a body spell, or the complaint.
pub open spec fn parse_body(b: Seq<u8>) -> Result<SuperModel, Seq<char>> {
    match tokens_from(b, 0) {
        Ok(t) => parse_tokens(t),
        Err(e) => Err(e),
    }
}

// ---------------------------------------------------------------------
// Laws
// ---------------------------------------------------------------------

/// Every composition node of `m` has at least two members.
pub open spec fn composed(m: SuperModel) -> bool
    decreases m,
{
    match m {
        SuperModel::Entity(name) => true,
        SuperModel::OneOf(c) => c.len() >= 2 && forall|i: int|
            0 <= i < c.len() ==> composed(#[trigger] c[i]),
        SuperModel::AndOr(c) => c.len() >= 2 && forall|i: int|
            0 <= i < c.len() ==> composed(#[trigger] c[i]),
        SuperModel::And(c) => c.len() >= 2 && forall|i: int|
            0 <= i < c.len() ==> composed(#[trigger] c[i]),
    }
}

pub open spec fn all_composed(parts: Seq<SuperModel>) -> bool {
    parts.len() >= 1 && forall|i: int| 0 <= i < parts.len() ==> composed(#[trigger] parts[i])
}

/// Parsing an expression takes at least one token, stays inside the list and
/// yields a tree whose composition nodes have at least two members.
pub proof fn lemma_progress(t: Seq<TokenModel>, pos: int)
    requires
        0 <= pos <= t.len(),
    ensures
        expression(t, pos) matches Ok((x, p)) ==> pos < p <= t.len() && composed(x),
    decreases t.len() - pos, 4nat,
{
    lemma_progress_factor(t, pos);
    if let Ok((x, p)) = factor(t, pos) {
        lemma_progress_more_factors(t, p, seq![x]);
    }
}

proof fn lemma_progress_more_factors(t: Seq<TokenModel>, pos: int, parts: Seq<SuperModel>)
    requires
        0 <= pos <= t.len(),
        all_composed(parts),
    ensures
        more_factors(t, pos, parts) matches Ok((x, p)) ==> pos <= p <= t.len() && composed(x),
    decreases t.len() - pos, 5nat,
{
    if pos < t.len() && t[pos] is AndOr {
        lemma_progress_factor(t, pos + 1);
        if let Ok((x, p)) = factor(t, pos + 1) {
            lemma_progress_more_factors(t, p, parts.push(x));
        }
    }
}

pub proof fn lemma_progress_factor(t: Seq<TokenModel>, pos: int)
    requires
        0 <= pos <= t.len(),
    ensures
        factor(t, pos) matches Ok((x, p)) ==> pos < p <= t.len() && composed(x),
    decreases t.len() - pos, 2nat,
{
    lemma_progress_term(t, pos);
    if let Ok((x, p)) = term(t, pos) {
        lemma_progress_more_terms(t, p, seq![x]);
    }
}

proof fn lemma_progress_more_terms(t: Seq<TokenModel>, pos: int, parts: Seq<SuperModel>)
    requires
        0 <= pos <= t.len(),
        all_composed(parts),
    ensures
        more_terms(t, pos, parts) matches Ok((x, p)) ==> pos <= p <= t.len() && composed(x),
    decreases t.len() - pos, 3nat,
{
    if pos < t.len() && t[pos] is And {
        lemma_progress_term(t, pos + 1);
        if let Ok((x, p)) = term(t, pos + 1) {
            lemma_progress_more_terms(t, p, parts.push(x));
        }
    }
}

proof fn lemma_progress_term(t: Seq<TokenModel>, pos: int)
    requires
        0 <= pos <= t.len(),
    ensures
        term(t, pos) matches Ok((x, p)) ==> pos < p <= t.len() && composed(x),
    decreases t.len() - pos, 1nat,
{
    if pos < t.len() {
        match t[pos] {
            TokenModel::OneOf => {
                if let Ok(p) = expect(t, pos + 1, TokenModel::LParen) {
                    lemma_progress(t, p);
                    if let Ok((x, q)) = expression(t, p) {
                        lemma_progress_more_members(t, q, seq![x]);
                    }
                }
            },
            TokenModel::LParen => {
                lemma_progress(t, pos + 1);
            },
            _ => {},
        }
    }
}

proof fn lemma_progress_more_members(t: Seq<TokenModel>, pos: int, parts: Seq<SuperModel>)
    requires
        0 <= pos <= t.len(),
        all_composed(parts),
    ensures
        more_members(t, pos, parts) matches Ok((x, p)) ==> pos <= p <= t.len() && composed(x),
    decreases t.len() - pos, 6nat,
{
    if pos < t.len() && t[pos] is Comma {
        lemma_progress(t, pos + 1);
        if let Ok((x, p)) = expression(t, pos + 1) {
            lemma_progress_more_members(t, p, parts.push(x));
        }
    }
}

/// Every composition node of a parsed body has at least two members: a
/// composition of one collapses to its member.
pub proof fn law_compositions_have_members(b: Seq<u8>)
    ensures
        parse_body(b) matches Ok(x) ==> composed(x),
{
    if let Ok(t) = tokens_from(b, 0) {
        lemma_progress(t, 0);
    }
}

/// Whether `post` can follow a complete expression without extending it.
pub open spec fn ends_expression(post: Seq<TokenModel>) -> bool {
    post.len() == 0 || !(post[0] is AndOr || post[0] is And)
}

pub open spec fn ends_factor(post: Seq<TokenModel>) -> bool {
    post.len() == 0 || !(post[0] is And)
}

/// The token list `pre`, `t`, `post`.
pub open spec fn around(
    pre: Seq<TokenModel>,
    t: Seq<TokenModel>,
    post: Seq<TokenModel>,
) -> Seq<TokenModel> {
    pre + t + post
}

proof fn lemma_around_at(pre: Seq<TokenModel>, t: Seq<TokenModel>, post: Seq<TokenModel>, pos: int)
    requires
        0 <= pos <= t.len(),
    ensures
        around(pre, t, post).len() == pre.len() + t.len() + post.len(),
        pos < t.len() ==> around(pre, t, post)[pre.len() + pos] == t[pos],
        pos == t.len() && post.len() > 0 ==> around(pre, t, post)[pre.len() + pos] == post[0],
{
}

/// What an expression spells does not depend on what stands around it.
pub proof fn lemma_embed(
    pre: Seq<TokenModel>,
    t: Seq<TokenModel>,
    post: Seq<TokenModel>,
    pos: int,
)
    requires
        0 <= pos <= t.len(),
        expression(t, pos) is Ok,
        ends_expression(post),
    ensures
        expression(around(pre, t, post), pre.len() + pos) == Ok::<(SuperModel, int), Seq<char>>(
            (expression(t, pos)->Ok_0.0, pre.len() + expression(t, pos)->Ok_0.1),
        ),
    decreases t.len() - pos, 4nat,
{
    lemma_progress_factor(t, pos);
    lemma_embed_factor(pre, t, post, pos);
    let (x, p) = factor(t, pos)->Ok_0;
    lemma_embed_more_factors(pre, t, post, p, seq![x]);
}

proof fn lemma_embed_more_factors(
    pre: Seq<TokenModel>,
    t: Seq<TokenModel>,
    post: Seq<TokenModel>,
    pos: int,
    parts: Seq<SuperModel>,
)
    requires
        0 <= pos <= t.len(),
        more_factors(t, pos, parts) is Ok,
        ends_expression(post),
    ensures
        more_factors(around(pre, t, post), pre.len() + pos, parts) == Ok::<
            (SuperModel, int),
            Seq<char>,
        >(
            (
                more_factors(t, pos, parts)->Ok_0.0,
                pre.len() + more_factors(t, pos, parts)->Ok_0.1,
            ),
        ),
    decreases t.len() - pos, 5nat,
{
    lemma_around_at(pre, t, post, pos);
    if pos < t.len() && t[pos] is AndOr {
        lemma_progress_factor(t, pos + 1);
        lemma_embed_factor(pre, t, post, pos + 1);
        let (x, p) = factor(t, pos + 1)->Ok_0;
        lemma_embed_more_factors(pre, t, post, p, parts.push(x));
    }
}

proof fn lemma_embed_factor(
    pre: Seq<TokenModel>,
    t: Seq<TokenModel>,
    post: Seq<TokenModel>,
    pos: int,
)
    requires
        0 <= pos <= t.len(),
        factor(t, pos) is Ok,
        ends_factor(post),
    ensures
        factor(around(pre, t, post), pre.len() + pos) == Ok::<(SuperModel, int), Seq<char>>(
            (factor(t, pos)->Ok_0.0, pre.len() + factor(t, pos)->Ok_0.1),
        ),
    decreases t.len() - pos, 2nat,
{
    lemma_progress_term(t, pos);
    lemma_embed_term(pre, t, post, pos);
    let (x, p) = term(t, pos)->Ok_0;
    lemma_embed_more_terms(pre, t, post, p, seq![x]);
}

proof fn lemma_embed_more_terms(
    pre: Seq<TokenModel>,
    t: Seq<TokenModel>,
    post: Seq<TokenModel>,
    pos: int,
    parts: Seq<SuperModel>,
)
    requires
        0 <= pos <= t.len(),
        more_terms(t, pos, parts) is Ok,
        ends_factor(post),
    ensures
        more_terms(around(pre, t, post), pre.len() + pos, parts) == Ok::<
            (SuperModel, int),
            Seq<char>,
        >((more_terms(t, pos, parts)->Ok_0.0, pre.len() + more_terms(t, pos, parts)->Ok_0.1)),
    decreases t.len() - pos, 3nat,
{
    lemma_around_at(pre, t, post, pos);
    if pos < t.len() && t[pos] is And {
        lemma_progress_term(t, pos + 1);
        lemma_embed_term(pre, t, post, pos + 1);
        let (x, p) = term(t, pos + 1)->Ok_0;
        lemma_embed_more_terms(pre, t, post, p, parts.push(x));
    }
}

proof fn lemma_embed_term(
    pre: Seq<TokenModel>,
    t: Seq<TokenModel>,
    post: Seq<TokenModel>,
    pos: int,
)
    requires
        0 <= pos <= t.len(),
        term(t, pos) is Ok,
    ensures
        term(around(pre, t, post), pre.len() + pos) == Ok::<(SuperModel, int), Seq<char>>(
            (term(t, pos)->Ok_0.0, pre.len() + term(t, pos)->Ok_0.1),
        ),
    decreases t.len() - pos, 1nat,
{
    lemma_around_at(pre, t, post, pos);
    match t[pos] {
        TokenModel::OneOf => {
            lemma_around_at(pre, t, post, pos + 1);
            let p = expect(t, pos + 1, TokenModel::LParen)->Ok_0;
            lemma_progress(t, p);
            let (x, q) = expression(t, p)->Ok_0;
            lemma_around_at(pre, t, post, q);
            lemma_embed_inner(pre, t, post, p, q);
            lemma_embed_more_members(pre, t, post, q, seq![x]);
        },
        TokenModel::LParen => {
            lemma_progress(t, pos + 1);
            let (x, q) = expression(t, pos + 1)->Ok_0;
            lemma_embed_inner(pre, t, post, pos + 1, q);
            lemma_around_at(pre, t, post, q);
        },
        _ => {},
    }
}

/// An expression that ends before the end of the list, whatever follows it.
proof fn lemma_embed_inner(
    pre: Seq<TokenModel>,
    t: Seq<TokenModel>,
    post: Seq<TokenModel>,
    pos: int,
    q: int,
)
    requires
        0 <= pos <= t.len(),
        expression(t, pos) matches Ok((x, p)) && p == q,
        q < t.len(),
    ensures
        expression(around(pre, t, post), pre.len() + pos) == Ok::<(SuperModel, int), Seq<char>>(
            (expression(t, pos)->Ok_0.0, pre.len() + expression(t, pos)->Ok_0.1),
        ),
    decreases t.len() - pos, 4nat,
{
    lemma_progress_factor(t, pos);
    let (x, p) = factor(t, pos)->Ok_0;
    lemma_progress_more_factors(t, p, seq![x]);
    lemma_embed_inner_factor(pre, t, post, pos, p);
    lemma_embed_inner_more_factors(pre, t, post, p, seq![x], q);
}

proof fn lemma_embed_inner_more_factors(
    pre: Seq<TokenModel>,
    t: Seq<TokenModel>,
    post: Seq<TokenModel>,
    pos: int,
    parts: Seq<SuperModel>,
    q: int,
)
    requires
        0 <= pos <= t.len(),
        all_composed(parts),
        more_factors(t, pos, parts) matches Ok((x, p)) && p == q,
        q < t.len(),
    ensures
        more_factors(around(pre, t, post), pre.len() + pos, parts) == Ok::<
            (SuperModel, int),
            Seq<char>,
        >(
            (
                more_factors(t, pos, parts)->Ok_0.0,
                pre.len() + more_factors(t, pos, parts)->Ok_0.1,
            ),
        ),
    decreases t.len() - pos, 5nat,
{
    lemma_around_at(pre, t, post, pos);
    if pos < t.len() && t[pos] is AndOr {
        lemma_progress_factor(t, pos + 1);
        let (x, p) = factor(t, pos + 1)->Ok_0;
        lemma_progress_more_factors(t, p, parts.push(x));
        lemma_embed_inner_factor(pre, t, post, pos + 1, p);
        lemma_embed_inner_more_factors(pre, t, post, p, parts.push(x), q);
    }
}

proof fn lemma_embed_inner_factor(
    pre: Seq<TokenModel>,
    t: Seq<TokenModel>,
    post: Seq<TokenModel>,
    pos: int,
    q: int,
)
    requires
        0 <= pos <= t.len(),
        factor(t, pos) matches Ok((x, p)) && p == q,
        q < t.len(),
    ensures
        factor(around(pre, t, post), pre.len() + pos) == Ok::<(SuperModel, int), Seq<char>>(
            (factor(t, pos)->Ok_0.0, pre.len() + factor(t, pos)->Ok_0.1),
        ),
    decreases t.len() - pos, 2nat,
{
    lemma_progress_term(t, pos);
    let (x, p) = term(t, pos)->Ok_0;
    lemma_progress_more_terms(t, p, seq![x]);
    lemma_embed_term(pre, t, post, pos);
    lemma_embed_inner_more_terms(pre, t, post, p, seq![x], q);
}

proof fn lemma_embed_inner_more_terms(
    pre: Seq<TokenModel>,
    t: Seq<TokenModel>,
    post: Seq<TokenModel>,
    pos: int,
    parts: Seq<SuperModel>,
    q: int,
)
    requires
        0 <= pos <= t.len(),
        all_composed(parts),
        more_terms(t, pos, parts) matches Ok((x, p)) && p == q,
        q < t.len(),
    ensures
        more_terms(around(pre, t, post), pre.len() + pos, parts) == Ok::<
            (SuperModel, int),
            Seq<char>,
        >((more_terms(t, pos, parts)->Ok_0.0, pre.len() + more_terms(t, pos, parts)->Ok_0.1)),
    decreases t.len() - pos, 3nat,
{
    lemma_around_at(pre, t, post, pos);
    if pos < t.len() && t[pos] is And {
        lemma_progress_term(t, pos + 1);
        let (x, p) = term(t, pos + 1)->Ok_0;
        lemma_progress_more_terms(t, p, parts.push(x));
        lemma_embed_term(pre, t, post, pos + 1);
        lemma_embed_inner_more_terms(pre, t, post, p, parts.push(x), q);
    }
}

proof fn lemma_embed_more_members(
    pre: Seq<TokenModel>,
    t: Seq<TokenModel>,
    post: Seq<TokenModel>,
    pos: int,
    parts: Seq<SuperModel>,
)
    requires
        0 <= pos <= t.len(),
        more_members(t, pos, parts) is Ok,
    ensures
        more_members(around(pre, t, post), pre.len() + pos, parts) == Ok::<
            (SuperModel, int),
            Seq<char>,
        >(
            (
                more_members(t, pos, parts)->Ok_0.0,
                pre.len() + more_members(t, pos, parts)->Ok_0.1,
            ),
        ),
    decreases t.len() - pos, 6nat,
{
    lemma_around_at(pre, t, post, pos);
    if pos < t.len() && t[pos] is Comma {
        lemma_progress(t, pos + 1);
        let (x, p) = expression(t, pos + 1)->Ok_0;
        assert(more_members(t, p, parts.push(x)) is Ok);
        lemma_embed_inner(pre, t, post, pos + 1, p);
        lemma_embed_more_members(pre, t, post, p, parts.push(x));
    }
}

/// Brackets are transparent: a bracketed body spells what it spells without
/// them.
pub proof fn law_grouping_is_transparent(t: Seq<TokenModel>)
    requires
        parse_tokens(t) is Ok,
    ensures
        parse_tokens(seq![TokenModel::LParen] + t + seq![TokenModel::RParen]) == parse_tokens(t),
{
    let open = seq![TokenModel::LParen];
    let close = seq![TokenModel::RParen];
    let g = open + t + close;
    lemma_embed(open, t, close, 0);
    assert(around(open, t, close) == g);
    assert(g[0] is LParen);
    assert(g[g.len() - 1] is RParen);
    let x = parse_tokens(t)->Ok_0;
    assert(expression(g, 1) == Ok::<(SuperModel, int), Seq<char>>((x, g.len() - 1)));
    assert(term(g, 0) == Ok::<(SuperModel, int), Seq<char>>((x, g.len() as int)));
    assert(compose_and(seq![x]) == x);
    assert(more_terms(g, g.len() as int, seq![x]) == Ok::<(SuperModel, int), Seq<char>>(
        (x, g.len() as int),
    ));
    assert(factor(g, 0) == Ok::<(SuperModel, int), Seq<char>>((x, g.len() as int)));
    assert(compose_andor(seq![x]) == x);
    assert(more_factors(g, g.len() as int, seq![x]) == Ok::<(SuperModel, int), Seq<char>>(
        (x, g.len() as int),
    ));
}

/// `AND` binds tighter than `ANDOR`: two complete factors joined by `ANDOR`
/// spell the `ANDOR` of what each spells.
pub proof fn law_and_binds_tighter(a: Seq<TokenModel>, b: Seq<TokenModel>)
    requires
        factor(a, 0) matches Ok((x, p)) && p == a.len(),
        factor(b, 0) matches Ok((y, q)) && q == b.len(),
    ensures
        parse_tokens(a + seq![TokenModel::AndOr] + b) == Ok::<SuperModel, Seq<char>>(
            SuperModel::AndOr(seq![factor(a, 0)->Ok_0.0, factor(b, 0)->Ok_0.0]),
        ),
{
    let mid = seq![TokenModel::AndOr];
    let g = a + mid + b;
    let none = Seq::<TokenModel>::empty();
    let x = factor(a, 0)->Ok_0.0;
    let y = factor(b, 0)->Ok_0.0;
    lemma_progress_factor(a, 0);
    lemma_progress_factor(b, 0);
    lemma_embed_factor(none, a, mid + b, 0);
    assert(around(none, a, mid + b) =~= g);
    lemma_embed_factor(a + mid, b, none, 0);
    assert(around(a + mid, b, none) =~= g);
    let n = g.len() as int;
    assert(g[a.len() as int] is AndOr);
    assert(factor(g, 0) == Ok::<(SuperModel, int), Seq<char>>((x, a.len() as int)));
    assert(factor(g, a.len() as int + 1) == Ok::<(SuperModel, int), Seq<char>>((y, n)));
    assert(seq![x].push(y) =~= seq![x, y]);
    assert(more_factors(g, n, seq![x, y]) == Ok::<(SuperModel, int), Seq<char>>(
        (SuperModel::AndOr(seq![x, y]), n),
    ));
    assert(more_factors(g, a.len() as int, seq![x]) == Ok::<(SuperModel, int), Seq<char>>(
        (SuperModel::AndOr(seq![x, y]), n),
    ));
}

/// The tokens that write a tree down, with brackets around every member.
pub open spec fn written(m: SuperModel) -> Seq<TokenModel>
    decreases m, 0nat,
{
    match m {
        SuperModel::Entity(name) => seq![TokenModel::Ident(name)],
        SuperModel::OneOf(c) => seq![TokenModel::OneOf, TokenModel::LParen] + members(
            c,
            TokenModel::Comma,
            c.len(),
        ) + seq![TokenModel::RParen],
        SuperModel::AndOr(c) => members(c, TokenModel::AndOr, c.len()),
        SuperModel::And(c) => members(c, TokenModel::And, c.len()),
    }
}

/// The first `n` of `c` in brackets, with `sep` between them.
pub open spec fn members(c: Seq<SuperModel>, sep: TokenModel, n: nat) -> Seq<TokenModel>
    decreases c, n,
{
    if n == 0 || n > c.len() {
        seq![]
    } else if n == 1 {
        seq![TokenModel::LParen] + written(c[0]) + seq![TokenModel::RParen]
    } else {
        members(c, sep, (n - 1) as nat) + seq![sep, TokenModel::LParen] + written(c[n - 1]) + seq![
            TokenModel::RParen,
        ]
    }
}

/// A tree in brackets.
pub open spec fn bracketed(m: SuperModel) -> Seq<TokenModel> {
    seq![TokenModel::LParen] + written(m) + seq![TokenModel::RParen]
}

/// Whether the tree in brackets is read back as a term.
pub open spec fn reads_back(m: SuperModel) -> bool {
    term(bracketed(m), 0) == Ok::<(SuperModel, int), Seq<char>>((m, bracketed(m).len() as int))
}

/// What follows the first `i` of `n` members.
proof fn members_after(c: Seq<SuperModel>, sep: TokenModel, i: nat, n: nat) -> (tail: Seq<
    TokenModel,
>)
    requires
        1 <= i <= n <= c.len(),
    ensures
        members(c, sep, n) == members(c, sep, i) + tail,
        i == n ==> tail.len() == 0,
        i < n ==> tail.len() > 0 && tail[0] == sep,
    decreases n - i,
{
    if i == n {
        assert(members(c, sep, i) + seq![] =~= members(c, sep, i));
        seq![]
    } else {
        let before = members_after(c, sep, i, (n - 1) as nat);
        let tail = before + seq![sep, TokenModel::LParen] + written(c[n - 1]) + seq![
            TokenModel::RParen,
        ];
        assert(members(c, sep, n) =~= members(c, sep, i) + tail);
        tail
    }
}

/// Where member `i` starts.
spec fn member_start(c: Seq<SuperModel>, sep: TokenModel, i: nat) -> int {
    if i == 0 {
        0
    } else {
        members(c, sep, i).len() as int + 1
    }
}

proof fn lemma_regroup(
    pre: Seq<TokenModel>,
    head: Seq<TokenModel>,
    one: Seq<TokenModel>,
    tail: Seq<TokenModel>,
    post: Seq<TokenModel>,
)
    ensures
        pre + (head + one + tail) + post == around(pre + head, one, tail + post),
{
    assert(pre + (head + one + tail) + post =~= around(pre + head, one, tail + post));
}

/// What stands before member `i`.
spec fn member_head(c: Seq<SuperModel>, sep: TokenModel, i: nat) -> Seq<TokenModel> {
    if i == 0 {
        seq![]
    } else {
        members(c, sep, i) + seq![sep]
    }
}

proof fn lemma_member_head(c: Seq<SuperModel>, sep: TokenModel, i: nat)
    requires
        i < c.len(),
    ensures
        members(c, sep, i + 1) == member_head(c, sep, i) + bracketed(c[i as int]),
        member_head(c, sep, i).len() == member_start(c, sep, i),
{
    let one = bracketed(c[i as int]);
    if i > 0 {
        assert(members(c, sep, i) + seq![sep, TokenModel::LParen] + written(c[i as int]) + seq![
            TokenModel::RParen,
        ] =~= member_head(c, sep, i) + one);
    } else {
        assert(member_head(c, sep, i) + one =~= one);
    }
}

/// Each member is read as a term, wherever the list of members stands.
proof fn lemma_member(
    pre: Seq<TokenModel>,
    c: Seq<SuperModel>,
    sep: TokenModel,
    post: Seq<TokenModel>,
    i: nat,
)
    requires
        i < c.len(),
        reads_back(c[i as int]),
    ensures
        ({
            let all = members(c, sep, c.len());
            let g = pre + all + post;
            let stop = pre.len() + members(c, sep, i + 1).len();
            &&& term(g, pre.len() + member_start(c, sep, i)) == Ok::<(SuperModel, int), Seq<char>>(
                (c[i as int], stop as int),
            )
            &&& pre.len() + member_start(c, sep, i) < stop <= pre.len() + all.len()
            &&& i + 1 < c.len() ==> stop < pre.len() + all.len() && g[stop as int] == sep
            &&& i + 1 == c.len() ==> stop == pre.len() + all.len()
        }),
{
    let all = members(c, sep, c.len());
    let tail = members_after(c, sep, i + 1, c.len());
    let one = bracketed(c[i as int]);
    let head = member_head(c, sep, i);
    lemma_member_head(c, sep, i);
    lemma_regroup(pre, head, one, tail, post);
    lemma_embed_term(pre + head, one, tail + post, 0);
    lemma_member_ends(pre, head + one, tail, post, sep);
}

proof fn lemma_member_ends(
    pre: Seq<TokenModel>,
    upto: Seq<TokenModel>,
    tail: Seq<TokenModel>,
    post: Seq<TokenModel>,
    sep: TokenModel,
)
    requires
        tail.len() > 0 ==> tail[0] == sep,
    ensures
        tail.len() > 0 ==> (pre + (upto + tail) + post)[(pre.len() + upto.len()) as int] == sep,
{
}

proof fn lemma_read_terms(c: Seq<SuperModel>, i: nat)
    requires
        c.len() >= 2,
        1 <= i <= c.len(),
        forall|j: int| 0 <= j < c.len() ==> reads_back(#[trigger] c[j]),
    ensures
        more_terms(
            members(c, TokenModel::And, c.len()),
            members(c, TokenModel::And, i).len() as int,
            c.take(i as int),
        ) == Ok::<(SuperModel, int), Seq<char>>(
            (SuperModel::And(c), members(c, TokenModel::And, c.len()).len() as int),
        ),
    decreases c.len() - i,
{
    let none = Seq::<TokenModel>::empty();
    let t = members(c, TokenModel::And, c.len());
    assert(none + t + none =~= t);
    lemma_member(none, c, TokenModel::And, none, (i - 1) as nat);
    if i < c.len() {
        assert(reads_back(c[i as int]));
        lemma_member(none, c, TokenModel::And, none, i);
        lemma_read_terms(c, i + 1);
        assert(c.take(i as int).push(c[i as int]) =~= c.take(i as int + 1));
    } else {
        assert(c.take(i as int) =~= c);
    }
}

proof fn lemma_read_factors(c: Seq<SuperModel>, i: nat)
    requires
        c.len() >= 2,
        1 <= i <= c.len(),
        forall|j: int| 0 <= j < c.len() ==> reads_back(#[trigger] c[j]),
    ensures
        more_factors(
            members(c, TokenModel::AndOr, c.len()),
            members(c, TokenModel::AndOr, i).len() as int,
            c.take(i as int),
        ) == Ok::<(SuperModel, int), Seq<char>>(
            (SuperModel::AndOr(c), members(c, TokenModel::AndOr, c.len()).len() as int),
        ),
    decreases c.len() - i,
{
    let none = Seq::<TokenModel>::empty();
    let t = members(c, TokenModel::AndOr, c.len());
    assert(none + t + none =~= t);
    lemma_member(none, c, TokenModel::AndOr, none, (i - 1) as nat);
    if i < c.len() {
        assert(reads_back(c[i as int]));
        lemma_member(none, c, TokenModel::AndOr, none, i);
        let x = c[i as int];
        let stop = members(c, TokenModel::AndOr, i + 1).len() as int;
        assert(compose_and(seq![x]) == x);
        assert(more_terms(t, stop, seq![x]) == Ok::<(SuperModel, int), Seq<char>>((x, stop)));
        assert(factor(t, member_start(c, TokenModel::AndOr, i)) == Ok::<
            (SuperModel, int),
            Seq<char>,
        >((x, stop)));
        lemma_read_factors(c, i + 1);
        assert(c.take(i as int).push(x) =~= c.take(i as int + 1));
    } else {
        assert(c.take(i as int) =~= c);
    }
}

proof fn lemma_read_members(c: Seq<SuperModel>, i: nat)
    requires
        c.len() >= 2,
        1 <= i <= c.len(),
        forall|j: int| 0 <= j < c.len() ==> reads_back(#[trigger] c[j]),
    ensures
        more_members(
            written(SuperModel::OneOf(c)),
            2 + members(c, TokenModel::Comma, i).len() as int,
            c.take(i as int),
        ) == Ok::<(SuperModel, int), Seq<char>>(
            (SuperModel::OneOf(c), written(SuperModel::OneOf(c)).len() as int),
        ),
    decreases c.len() - i,
{
    let open = seq![TokenModel::OneOf, TokenModel::LParen];
    let close = seq![TokenModel::RParen];
    let all = members(c, TokenModel::Comma, c.len());
    let t = open + all + close;
    assert(t == written(SuperModel::OneOf(c)));
    lemma_member(open, c, TokenModel::Comma, close, (i - 1) as nat);
    if i < c.len() {
        assert(reads_back(c[i as int]));
        lemma_member(open, c, TokenModel::Comma, close, i);
        let x = c[i as int];
        let stop = 2 + members(c, TokenModel::Comma, i + 1).len() as int;
        assert(t[2 + all.len() as int] is RParen);
        lemma_expression_of_term(t, 2 + member_start(c, TokenModel::Comma, i), x, stop);
        lemma_read_members(c, i + 1);
        assert(c.take(i as int).push(x) =~= c.take(i as int + 1));
    } else {
        assert(t[2 + all.len() as int] is RParen);
        assert(c.take(i as int) =~= c);
    }
}

/// A term that nothing extends is an expression.
proof fn lemma_expression_of_term(t: Seq<TokenModel>, pos: int, x: SuperModel, stop: int)
    requires
        0 <= pos < stop <= t.len(),
        term(t, pos) == Ok::<(SuperModel, int), Seq<char>>((x, stop)),
        stop < t.len() ==> !(t[stop] is And || t[stop] is AndOr),
    ensures
        expression(t, pos) == Ok::<(SuperModel, int), Seq<char>>((x, stop)),
{
    assert(compose_and(seq![x]) == x);
    assert(more_terms(t, stop, seq![x]) == Ok::<(SuperModel, int), Seq<char>>((x, stop)));
    assert(factor(t, pos) == Ok::<(SuperModel, int), Seq<char>>((x, stop)));
    assert(compose_andor(seq![x]) == x);
    assert(more_factors(t, stop, seq![x]) == Ok::<(SuperModel, int), Seq<char>>((x, stop)));
}

proof fn lemma_reads_back(m: SuperModel)
    requires
        composed(m),
    ensures
        parse_tokens(written(m)) == Ok::<SuperModel, Seq<char>>(m),
        reads_back(m),
    decreases m,
{
    let t = written(m);
    let n = t.len() as int;
    match m {
        SuperModel::Entity(name) => {
            lemma_expression_of_term(t, 0, m, 1);
        },
        SuperModel::OneOf(c) => {
            assert forall|j: int| 0 <= j < c.len() implies reads_back(#[trigger] c[j]) by {
                lemma_reads_back(c[j]);
            }
            let open = seq![TokenModel::OneOf, TokenModel::LParen];
            let close = seq![TokenModel::RParen];
            assert(reads_back(c[0]));
            lemma_member(open, c, TokenModel::Comma, close, 0);
            let stop = 2 + members(c, TokenModel::Comma, 1).len() as int;
            lemma_expression_of_term(t, 2, c[0], stop);
            lemma_read_members(c, 1);
            assert(c.take(1) =~= seq![c[0]]);
            assert(expect(t, 1, TokenModel::LParen) == Ok::<int, Seq<char>>(2));
            assert(term(t, 0) == Ok::<(SuperModel, int), Seq<char>>((m, n)));
            lemma_expression_of_term(t, 0, m, n);
        },
        SuperModel::AndOr(c) => {
            assert forall|j: int| 0 <= j < c.len() implies reads_back(#[trigger] c[j]) by {
                lemma_reads_back(c[j]);
            }
            let none = Seq::<TokenModel>::empty();
            assert(none + t + none =~= t);
            assert(reads_back(c[0]));
            lemma_member(none, c, TokenModel::AndOr, none, 0);
            let stop = members(c, TokenModel::AndOr, 1).len() as int;
            assert(compose_and(seq![c[0]]) == c[0]);
            assert(more_terms(t, stop, seq![c[0]]) == Ok::<(SuperModel, int), Seq<char>>(
                (c[0], stop),
            ));
            lemma_read_factors(c, 1);
            assert(c.take(1) =~= seq![c[0]]);
        },
        SuperModel::And(c) => {
            assert forall|j: int| 0 <= j < c.len() implies reads_back(#[trigger] c[j]) by {
                lemma_reads_back(c[j]);
            }
            let none = Seq::<TokenModel>::empty();
            assert(none + t + none =~= t);
            assert(reads_back(c[0]));
            lemma_member(none, c, TokenModel::And, none, 0);
            lemma_read_terms(c, 1);
            assert(c.take(1) =~= seq![c[0]]);
            assert(factor(t, 0) == Ok::<(SuperModel, int), Seq<char>>((m, n)));
            assert(compose_andor(seq![m]) == m);
            assert(more_factors(t, n, seq![m]) == Ok::<(SuperModel, int), Seq<char>>((m, n)));
        },
    }
    law_grouping_is_transparent(t);
    let b = bracketed(m);
    lemma_embed(seq![TokenModel::LParen], t, seq![TokenModel::RParen], 0);
    assert(around(seq![TokenModel::LParen], t, seq![TokenModel::RParen]) == b);
    assert(b[0] is LParen);
    assert(b[b.len() - 1] is RParen);
}

/// Every tree whose composition nodes have at least two members can be written
/// down, and is then read back as it is.
pub proof fn law_written_trees_are_read_back(m: SuperModel)
    requires
        composed(m),
    ensures
        parse_tokens(written(m)) == Ok::<SuperModel, Seq<char>>(m),
{
    lemma_reads_back(m);
}

// ---------------------------------------------------------------------
// The parser
// ---------------------------------------------------------------------

fn name_token(t: &Token) -> (r: String)
    ensures
        r@ == token_name(t@),
{
    match t {
        Token::Ident(s) => {
            let mut r: String = "Ident(".to_owned();
            r.append(quote(s.as_str()).as_str());
            r.append(")");
            r
        },
        Token::OneOf => "OneOf".to_owned(),
        Token::And => "And".to_owned(),
        Token::AndOr => "AndOr".to_owned(),
        Token::LParen => "LParen".to_owned(),
        Token::RParen => "RParen".to_owned(),
        Token::Comma => "Comma".to_owned(),
    }
}

fn list_tokens(t: &Vec<Token>, from: usize) -> (r: String)
    requires
        from <= t@.len(),
    ensures
        r@ == token_list(t.deep_view().skip(from as int)),
{
    let ghost all = t.deep_view().skip(from as int);
    let mut r = String::new();
    let mut i: usize = from;
    assert(all.take(0) =~= seq![]);
    while i < t.len()
        invariant
            from <= i <= t@.len(),
            all == t.deep_view().skip(from as int),
            all.len() == t@.len() - from,
            r@ == token_list(all.take(i - from)),
        decreases t@.len() - i,
    {
        let ghost cur = all.take(i - from + 1);
        proof {
            assert(cur.drop_last() =~= all.take(i - from));
            assert(cur.last() == t@[i as int]@);
        }
        if i > from {
            r.append(", ");
            r.append(name_token(&t[i]).as_str());
        } else {
            r.append(name_token(&t[i]).as_str());
            assert(r@ =~= token_name(cur[0]));
        }
        i += 1;
    }
    assert(all.take(all.len() as int) =~= all);
    r
}

fn expect_lparen(t: &Vec<Token>, pos: usize) -> (r: Result<usize, String>)
    ensures
        match r {
            Ok(p) => expect(t.deep_view(), pos as int, TokenModel::LParen) == Ok::<int, Seq<char>>(
                p as int,
            ) && pos < t@.len(),
            Err(e) => expect(t.deep_view(), pos as int, TokenModel::LParen) == Err::<
                int,
                Seq<char>,
            >(e@),
        },
{
    if pos < t.len() {
        assert(t.deep_view()[pos as int] == t@[pos as int]@);
        match &t[pos] {
            Token::LParen => Ok(pos + 1),
            other => {
                let mut e: String = join("expected ", name_token(&Token::LParen).as_str());
                e.append(", got ");
                e.append(name_token(other).as_str());
                Err(e)
            },
        }
    } else {
        let mut e: String = join("expected ", name_token(&Token::LParen).as_str());
        e.append(", got end of input");
        Err(e)
    }
}

fn expect_rparen(t: &Vec<Token>, pos: usize) -> (r: Result<usize, String>)
    ensures
        match r {
            Ok(p) => expect(t.deep_view(), pos as int, TokenModel::RParen) == Ok::<int, Seq<char>>(
                p as int,
            ) && pos < t@.len(),
            Err(e) => expect(t.deep_view(), pos as int, TokenModel::RParen) == Err::<
                int,
                Seq<char>,
            >(e@),
        },
{
    if pos < t.len() {
        assert(t.deep_view()[pos as int] == t@[pos as int]@);
        match &t[pos] {
            Token::RParen => Ok(pos + 1),
            other => {
                let mut e: String = join("expected ", name_token(&Token::RParen).as_str());
                e.append(", got ");
                e.append(name_token(other).as_str());
                Err(e)
            },
        }
    } else {
        let mut e: String = join("expected ", name_token(&Token::RParen).as_str());
        e.append(", got end of input");
        Err(e)
    }
}

/// Whether a parse came out as `want` says.
pub open spec fn agrees(r: Result<(SupertypeExpr, usize), String>, want: Parsed) -> bool {
    match r {
        Ok((x, p)) => want == Ok::<(SuperModel, int), Seq<char>>((x.view(), p as int)),
        Err(e) => want == Err::<(SuperModel, int), Seq<char>>(e@),
    }
}

fn parse_andor(t: &Vec<Token>, pos: usize) -> (r: Result<(SupertypeExpr, usize), String>)
    requires
        pos <= t@.len(),
    ensures
        agrees(r, expression(t.deep_view(), pos as int)),
    decreases t@.len() - pos, 4nat,
{
    let ghost tv = t.deep_view();
    proof {
        lemma_progress_factor(tv, pos as int);
    }
    let (x, p0) = match parse_and(t, pos) {
        Ok(ok) => ok,
        Err(e) => {
            return Err(e);
        },
    };
    let mut parts: Vec<SupertypeExpr> = Vec::new();
    parts.push(x);
    let mut p: usize = p0;
    assert(parts.deep_view() =~= seq![x.view()]);
    while p < t.len() && matches!(&t[p], Token::AndOr)
        invariant
            pos < p <= t@.len(),
            tv == t.deep_view(),
            parts@.len() >= 1,
            expression(tv, pos as int) == more_factors(tv, p as int, parts.deep_view()),
        decreases t@.len() - p,
    {
        assert(tv[p as int] == t@[p as int]@);
        proof {
            lemma_progress_factor(tv, p + 1);
        }
        match parse_and(t, p + 1) {
            Ok((y, q)) => {
                let ghost before = parts.deep_view();
                parts.push(y);
                assert(parts.deep_view() =~= before.push(y.view()));
                p = q;
            },
            Err(e) => {
                return Err(e);
            },
        }
    }
    proof {
        if p < t@.len() {
            assert(tv[p as int] == t@[p as int]@);
        }
    }
    if parts.len() == 1 {
        assert(parts.deep_view()[0] == parts@[0].view());
        let only = parts.pop().unwrap();
        Ok((only, p))
    } else {
        let r = SupertypeExpr::AndOr { children: parts };
        proof {
            lemma_super_view(r);
        }
        Ok((r, p))
    }
}

fn parse_and(t: &Vec<Token>, pos: usize) -> (r: Result<(SupertypeExpr, usize), String>)
    requires
        pos <= t@.len(),
    ensures
        agrees(r, factor(t.deep_view(), pos as int)),
    decreases t@.len() - pos, 3nat,
{
    let ghost tv = t.deep_view();
    proof {
        lemma_progress_term(tv, pos as int);
    }
    let (x, p0) = match parse_term(t, pos) {
        Ok(ok) => ok,
        Err(e) => {
            return Err(e);
        },
    };
    let mut parts: Vec<SupertypeExpr> = Vec::new();
    parts.push(x);
    let mut p: usize = p0;
    assert(parts.deep_view() =~= seq![x.view()]);
    while p < t.len() && matches!(&t[p], Token::And)
        invariant
            pos < p <= t@.len(),
            tv == t.deep_view(),
            parts@.len() >= 1,
            factor(tv, pos as int) == more_terms(tv, p as int, parts.deep_view()),
        decreases t@.len() - p,
    {
        assert(tv[p as int] == t@[p as int]@);
        proof {
            lemma_progress_term(tv, p + 1);
        }
        match parse_term(t, p + 1) {
            Ok((y, q)) => {
                let ghost before = parts.deep_view();
                parts.push(y);
                assert(parts.deep_view() =~= before.push(y.view()));
                p = q;
            },
            Err(e) => {
                return Err(e);
            },
        }
    }
    proof {
        if p < t@.len() {
            assert(tv[p as int] == t@[p as int]@);
        }
    }
    if parts.len() == 1 {
        assert(parts.deep_view()[0] == parts@[0].view());
        let only = parts.pop().unwrap();
        Ok((only, p))
    } else {
        let r = SupertypeExpr::And { children: parts };
        proof {
            lemma_super_view(r);
        }
        Ok((r, p))
    }
}

fn parse_term(t: &Vec<Token>, pos: usize) -> (r: Result<(SupertypeExpr, usize), String>)
    requires
        pos <= t@.len(),
    ensures
        agrees(r, term(t.deep_view(), pos as int)),
    decreases t@.len() - pos, 2nat,
{
    let ghost tv = t.deep_view();
    if pos >= t.len() {
        return Err("unexpected end of input at term start".to_owned());
    }
    assert(tv[pos as int] == t@[pos as int]@);
    match &t[pos] {
        Token::Ident(name) => Ok((SupertypeExpr::Entity { name: name.clone() }, pos + 1)),
        Token::OneOf => parse_oneof(t, pos + 1),
        Token::LParen => {
            proof {
                lemma_progress(tv, pos + 1);
            }
            match parse_andor(t, pos + 1) {
                Ok((inner, p)) => match expect_rparen(t, p) {
                    Ok(q) => Ok((inner, q)),
                    Err(e) => Err(e),
                },
                Err(e) => Err(e),
            }
        },
        other => {
            let mut e: String = join("unexpected token ", name_token(other).as_str());
            e.append(" at term start");
            Err(e)
        },
    }
}

fn parse_oneof(t: &Vec<Token>, pos: usize) -> (r: Result<(SupertypeExpr, usize), String>)
    requires
        1 <= pos <= t@.len(),
        t@[pos - 1]@ is OneOf,
    ensures
        agrees(r, term(t.deep_view(), pos - 1)),
    decreases t@.len() - pos, 5nat,
{
    let ghost tv = t.deep_view();
    assert(tv[pos - 1] == t@[pos - 1]@);
    let start = match expect_lparen(t, pos) {
        Ok(p) => p,
        Err(e) => {
            return Err(e);
        },
    };
    proof {
        lemma_progress(tv, start as int);
    }
    let (x, p0) = match parse_andor(t, start) {
        Ok(ok) => ok,
        Err(e) => {
            return Err(e);
        },
    };
    let mut children: Vec<SupertypeExpr> = Vec::new();
    children.push(x);
    let mut p: usize = p0;
    assert(children.deep_view() =~= seq![x.view()]);
    while p < t.len() && matches!(&t[p], Token::Comma)
        invariant
            pos < p <= t@.len(),
            tv == t.deep_view(),
            children@.len() >= 1,
            term(tv, pos - 1) == more_members(tv, p as int, children.deep_view()),
        decreases t@.len() - p,
    {
        assert(tv[p as int] == t@[p as int]@);
        proof {
            lemma_progress(tv, p + 1);
        }
        match parse_andor(t, p + 1) {
            Ok((y, q)) => {
                let ghost before = children.deep_view();
                children.push(y);
                assert(children.deep_view() =~= before.push(y.view()));
                p = q;
            },
            Err(e) => {
                return Err(e);
            },
        }
    }
    proof {
        if p < t@.len() {
            assert(tv[p as int] == t@[p as int]@);
        }
    }
    let end = match expect_rparen(t, p) {
        Ok(q) => q,
        Err(e) => {
            return Err(e);
        },
    };
    if children.len() == 1 {
        assert(children.deep_view()[0] == children@[0].view());
        let only = children.pop().unwrap();
        return Ok((only, end));
    }
    let r = SupertypeExpr::OneOf { children };
    proof {
        lemma_super_view(r);
    }
    Ok((r, end))
}

/// Parses the text between the brackets of `SUPERTYPE OF ( )`.
pub fn parse(body: &str) -> (r: Result<SupertypeExpr, String>)
    ensures
        match r {
            Ok(x) => parse_body(body.spec_bytes()) == Ok::<SuperModel, Seq<char>>(x.view()),
            Err(e) => parse_body(body.spec_bytes()) == Err::<SuperModel, Seq<char>>(e@),
        },
{
    let tokens = match tokenize(body) {
        Ok(ts) => ts,
        Err(e) => {
            return Err(e);
        },
    };
    if tokens.len() == 0 {
        return Err("empty SUPERTYPE body".to_owned());
    }
    proof {
        lemma_progress(tokens.deep_view(), 0);
    }
    match parse_andor(&tokens, 0) {
        Ok((expr, pos)) => {
            if pos != tokens.len() {
                let mut e: String = join(
                    "trailing tokens at position ",
                    decimal_of(pos).as_str(),
                );
                e.append(": [");
                e.append(list_tokens(&tokens, pos).as_str());
                e.append("]");
                Err(e)
            } else {
                Ok(expr)
            }
        },
        Err(e) => Err(e),
    }
}

} // verus!
