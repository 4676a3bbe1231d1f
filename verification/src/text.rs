//! Text primitives over character sequences.
//!
//! Parsing code works on `&[char]`; a text is the sequence of its characters.

use vstd::prelude::*;
use vstd::slice::slice_subrange;
use vstd::string::*;

verus! {

broadcast use vstd::string::group_string_axioms;

// ---------------------------------------------------------------------
// Standard library functions
// ---------------------------------------------------------------------

/// `String::push` appends one character.
pub assume_specification[ String::push ](s: &mut String, c: char)
    ensures
        final(s)@ == old(s)@.push(c),
;

/// What `str::to_lowercase` returns: the full Unicode lower-casing of a text.
pub uninterp spec fn unicode_lower(s: Seq<char>) -> Seq<char>;

/// Calls `str::to_lowercase`. Its result depends on the text alone, and on a
/// text of ASCII characters only the letters `A` to `Z` change.
#[verifier::external_body]
pub(crate) fn lower(s: &str) -> (r: String)
    ensures
        r@ == unicode_lower(s@),
        all_ascii(s@) ==> r@ == ascii_lower(s@),
{
    s.to_lowercase()
}

/// The text in lower case.
pub open spec fn lowercase(s: Seq<char>) -> Seq<char> {
    if all_ascii(s) {
        ascii_lower(s)
    } else {
        unicode_lower(s)
    }
}

/// What `str::to_uppercase` returns: the full Unicode upper-casing of a text.
pub uninterp spec fn unicode_upper(s: Seq<char>) -> Seq<char>;

/// Calls `str::to_uppercase`. Its result depends on the text alone, and on a
/// text of ASCII characters only the letters `a` to `z` change.
#[verifier::external_body]
pub(crate) fn upper(s: &str) -> (r: String)
    ensures
        r@ == unicode_upper(s@),
        all_ascii(s@) ==> r@ == ascii_upper(s@),
{
    s.to_uppercase()
}

/// The text in upper case.
pub open spec fn uppercase(s: Seq<char>) -> Seq<char> {
    if all_ascii(s) {
        ascii_upper(s)
    } else {
        unicode_upper(s)
    }
}

/// What `char::to_uppercase` yields: the Unicode upper-case mapping of a
/// character, one character or more.
pub uninterp spec fn unicode_capital(c: char) -> Seq<char>;

/// Collects what `char::to_uppercase` yields. It depends on the character
/// alone, and of the ASCII characters only the letters `a` to `z` change.
#[verifier::external_body]
pub(crate) fn capital_of(c: char) -> (r: String)
    ensures
        r@ == unicode_capital(c),
        is_ascii_char(c) ==> r@ == seq![upper_char(c)],
{
    c.to_uppercase().to_string()
}

/// The character in upper case.
pub open spec fn capital(c: char) -> Seq<char> {
    if is_ascii_char(c) {
        seq![upper_char(c)]
    } else {
        unicode_capital(c)
    }
}

/// What `char::is_alphanumeric` answers: the Unicode properties Alphabetic and
/// Numeric.
pub uninterp spec fn unicode_alphanumeric(c: char) -> bool;

/// Calls `char::is_alphanumeric`. On an ASCII character the answer is whether
/// it is a letter or a digit.
#[verifier::external_body]
pub(crate) fn is_alphanumeric(c: char) -> (r: bool)
    ensures
        r == unicode_alphanumeric(c),
        is_ascii_char(c) ==> r == (is_ascii_word(c) && c != '_'),
{
    c.is_alphanumeric()
}

/// Whether the character is a letter or a digit.
pub open spec fn alphanumeric(c: char) -> bool {
    if is_ascii_char(c) {
        is_ascii_word(c) && c != '_'
    } else {
        unicode_alphanumeric(c)
    }
}

/// What the `Debug` format of a `str` prints: the text between double quotes,
/// escaped.
pub uninterp spec fn quoted(s: Seq<char>) -> Seq<char>;

/// Formats a `str` with `{:?}`. The result depends on the text alone.
#[verifier::external_body]
pub(crate) fn quote(s: &str) -> (r: String)
    ensures
        r@ == quoted(s@),
{
    format!("{:?}", s)
}

/// What the `Debug` format of a `char` prints: the character between single
/// quotes, escaped.
pub uninterp spec fn quoted_char(c: char) -> Seq<char>;

/// Formats a `char` with `{:?}`. The result depends on the character alone.
#[verifier::external_body]
pub(crate) fn quote_char(c: char) -> (r: String)
    ensures
        r@ == quoted_char(c),
{
    format!("{:?}", c)
}

// ---------------------------------------------------------------------
// Characters
// ---------------------------------------------------------------------

pub open spec fn is_ascii_char(c: char) -> bool {
    (c as u32) < 128
}

pub open spec fn all_ascii(s: Seq<char>) -> bool {
    forall|i: int| 0 <= i < s.len() ==> is_ascii_char(#[trigger] s[i])
}

pub open spec fn is_ascii_letter(c: char) -> bool {
    ('a' <= c && c <= 'z') || ('A' <= c && c <= 'Z')
}

/// A character that may stand inside an identifier.
pub open spec fn is_ascii_word(c: char) -> bool {
    is_ascii_letter(c) || ('0' <= c && c <= '9') || c == '_'
}

pub fn ascii_letter(c: char) -> (r: bool)
    ensures
        r == is_ascii_letter(c),
{
    ('a' <= c && c <= 'z') || ('A' <= c && c <= 'Z')
}

pub fn ascii_word(c: char) -> (r: bool)
    ensures
        r == is_ascii_word(c),
{
    ascii_letter(c) || ('0' <= c && c <= '9') || c == '_'
}

/// The characters with the Unicode property White_Space.
pub open spec fn is_space(c: char) -> bool {
    let n = c as u32;
    ||| 9 <= n <= 13
    ||| n == 32
    ||| n == 0x85
    ||| n == 0xa0
    ||| n == 0x1680
    ||| 0x2000 <= n <= 0x200a
    ||| n == 0x2028
    ||| n == 0x2029
    ||| n == 0x202f
    ||| n == 0x205f
    ||| n == 0x3000
}

pub fn space(c: char) -> (r: bool)
    ensures
        r == is_space(c),
{
    let n: u32 = c as u32;
    (9 <= n && n <= 13) || n == 32 || n == 0x85 || n == 0xa0 || n == 0x1680
        || (0x2000 <= n && n <= 0x200a) || n == 0x2028 || n == 0x2029 || n == 0x202f
        || n == 0x205f || n == 0x3000
}

pub open spec fn lower_char(c: char) -> char {
    if 'A' <= c && c <= 'Z' {
        ((c as u32) + 32) as char
    } else {
        c
    }
}

pub open spec fn upper_char(c: char) -> char {
    if 'a' <= c && c <= 'z' {
        ((c as u32) - 32) as char
    } else {
        c
    }
}

pub open spec fn ascii_lower(s: Seq<char>) -> Seq<char> {
    Seq::new(s.len(), |i: int| lower_char(s[i]))
}

pub open spec fn ascii_upper(s: Seq<char>) -> Seq<char> {
    Seq::new(s.len(), |i: int| upper_char(s[i]))
}

// ---------------------------------------------------------------------
// Conversions and comparison
// ---------------------------------------------------------------------

/// The characters of `s`.
pub fn chars_of(s: &str) -> (v: Vec<char>)
    ensures
        v@ == s@,
{
    let mut v: Vec<char> = Vec::new();
    for c in it: s.chars()
        invariant
            v@ == s@.take(it.index()),
            it.seq() == s@,
    {
        assert(s@.take(it.index() + 1) =~= s@.take(it.index()).push(s@[it.index()]));
        v.push(c);
    }
    assert(s@.take(s@.len() as int) =~= s@);
    v
}

/// The text made of the characters `v`.
pub fn string_of(v: &[char]) -> (s: String)
    ensures
        s@ == v@,
{
    let mut s = String::new();
    let mut i: usize = 0;
    while i < v.len()
        invariant
            i <= v@.len(),
            s@ == v@.take(i as int),
        decreases v@.len() - i,
    {
        assert(v@.take(i + 1) =~= v@.take(i as int).push(v@[i as int]));
        s.push(v[i]);
        i += 1;
    }
    assert(v@.take(v@.len() as int) =~= v@);
    s
}

/// Whether two character slices hold the same text.
pub fn same_chars(a: &[char], b: &[char]) -> (r: bool)
    ensures
        r == (a@ == b@),
{
    if a.len() != b.len() {
        return false;
    }
    let mut i: usize = 0;
    while i < a.len()
        invariant
            i <= a@.len(),
            a@.len() == b@.len(),
            forall|j: int| 0 <= j < i ==> a@[j] == b@[j],
        decreases a@.len() - i,
    {
        if a[i] != b[i] {
            return false;
        }
        i += 1;
    }
    assert(a@ =~= b@);
    true
}

/// Whether two texts are equal.
pub fn same(a: &str, b: &str) -> (r: bool)
    ensures
        r == (a@ == b@),
{
    same_chars(chars_of(a).as_slice(), chars_of(b).as_slice())
}

/// The text of `a` followed by that of `b`.
pub fn join(a: &str, b: &str) -> (r: String)
    ensures
        r@ == a@ + b@,
{
    let mut r: String = a.to_owned();
    r.append(b);
    r
}

/// The text of `a`, `b` and `c` in a row.
pub fn join3(a: &str, b: &str, c: &str) -> (r: String)
    ensures
        r@ == a@ + b@ + c@,
{
    let mut r: String = a.to_owned();
    r.append(b);
    r.append(c);
    r
}

/// Copies a list of texts.
pub fn clone_strings(v: &Vec<String>) -> (r: Vec<String>)
    ensures
        r.deep_view() == v.deep_view(),
{
    let mut r: Vec<String> = Vec::new();
    let mut i: usize = 0;
    while i < v.len()
        invariant
            i <= v@.len(),
            r@.len() == i,
            forall|j: int| 0 <= j < i ==> #[trigger] r@[j]@ == v@[j]@,
        decreases v@.len() - i,
    {
        r.push(v[i].clone());
        i += 1;
    }
    assert(r.deep_view() =~= v.deep_view());
    r
}

/// Lexicographic order by code point, the order of `str`.
pub open spec fn precedes(a: Seq<char>, b: Seq<char>) -> bool
    decreases a.len(),
{
    if b.len() == 0 {
        false
    } else if a.len() == 0 {
        true
    } else if a[0] != b[0] {
        a[0] < b[0]
    } else {
        precedes(a.drop_first(), b.drop_first())
    }
}

pub proof fn lemma_precedes_irreflexive(a: Seq<char>)
    ensures
        !precedes(a, a),
    decreases a.len(),
{
    if a.len() > 0 {
        lemma_precedes_irreflexive(a.drop_first());
    }
}

pub proof fn lemma_precedes_transitive(a: Seq<char>, b: Seq<char>, c: Seq<char>)
    requires
        precedes(a, b),
        precedes(b, c),
    ensures
        precedes(a, c),
    decreases a.len(),
{
    if a.len() > 0 && b.len() > 0 && c.len() > 0 && a[0] == b[0] && b[0] == c[0] {
        lemma_precedes_transitive(a.drop_first(), b.drop_first(), c.drop_first());
    }
}

pub proof fn lemma_precedes_total(a: Seq<char>, b: Seq<char>)
    ensures
        precedes(a, b) || a == b || precedes(b, a),
    decreases a.len(),
{
    if a.len() > 0 && b.len() > 0 && a[0] == b[0] {
        lemma_precedes_total(a.drop_first(), b.drop_first());
        if a.drop_first() == b.drop_first() {
            assert(a =~= seq![a[0]] + a.drop_first());
            assert(b =~= seq![b[0]] + b.drop_first());
        }
    } else if a.len() == 0 && b.len() == 0 {
        assert(a =~= b);
    }
}

/// How one text stands to another in the order of `precedes`.
pub enum Rank {
    Before,
    Same,
    After,
}

/// Where `a` stands relative to `b`.
pub fn rank(a: &[char], b: &[char]) -> (r: Rank)
    ensures
        r is Before <==> precedes(a@, b@),
        r is Same <==> a@ == b@,
        r is After <==> precedes(b@, a@),
{
    proof {
        lemma_precedes_irreflexive(a@);
        lemma_precedes_total(a@, b@);
        if precedes(a@, b@) && precedes(b@, a@) {
            lemma_precedes_transitive(a@, b@, a@);
        }
    }
    let mut i: usize = 0;
    assert(a@.skip(0) =~= a@);
    assert(b@.skip(0) =~= b@);
    while i < a.len() && i < b.len()
        invariant
            i <= a@.len(),
            i <= b@.len(),
            precedes(a@, b@) == precedes(a@.skip(i as int), b@.skip(i as int)),
            precedes(b@, a@) == precedes(b@.skip(i as int), a@.skip(i as int)),
        decreases a@.len() - i,
    {
        proof {
            assert(a@.skip(i as int).drop_first() =~= a@.skip(i + 1));
            assert(b@.skip(i as int).drop_first() =~= b@.skip(i + 1));
        }
        if a[i] != b[i] {
            if a[i] < b[i] {
                return Rank::Before;
            }
            return Rank::After;
        }
        i += 1;
    }
    if i < b.len() {
        Rank::Before
    } else if i < a.len() {
        Rank::After
    } else {
        Rank::Same
    }
}

/// A result whose value and complaint are taken by what they stand for.
pub open spec fn outcome<T: DeepView>(r: Result<T, String>) -> Result<T::V, Seq<char>> {
    match r {
        Ok(x) => Ok(x.deep_view()),
        Err(e) => Err(e@),
    }
}

/// What a function that may refuse complains about.
pub open spec fn complaint<T>(r: Result<T, String>) -> Option<Seq<char>> {
    match r {
        Ok(_) => None,
        Err(e) => Some(e@),
    }
}

// ---------------------------------------------------------------------
// Trimming, prefixes, searching
// ---------------------------------------------------------------------

pub open spec fn trim_start(s: Seq<char>) -> Seq<char>
    decreases s.len(),
{
    if s.len() > 0 && is_space(s[0]) {
        trim_start(s.drop_first())
    } else {
        s
    }
}

pub open spec fn trim_end(s: Seq<char>) -> Seq<char>
    decreases s.len(),
{
    if s.len() > 0 && is_space(s.last()) {
        trim_end(s.drop_last())
    } else {
        s
    }
}

pub open spec fn trim(s: Seq<char>) -> Seq<char> {
    trim_end(trim_start(s))
}

/// Drops the white space at the start.
pub fn trimmed_start(s: &[char]) -> (r: &[char])
    ensures
        r@ == trim_start(s@),
{
    let mut i: usize = 0;
    assert(s@.skip(0) =~= s@);
    while i < s.len() && space(s[i])
        invariant
            i <= s@.len(),
            trim_start(s@) == trim_start(s@.skip(i as int)),
        decreases s@.len() - i,
    {
        assert(s@.skip(i as int).drop_first() =~= s@.skip(i + 1));
        i += 1;
    }
    assert(s@.subrange(i as int, s@.len() as int) =~= s@.skip(i as int));
    slice_subrange(s, i, s.len())
}

/// Drops the white space at the end.
pub fn trimmed_end(s: &[char]) -> (r: &[char])
    ensures
        r@ == trim_end(s@),
{
    let mut n: usize = s.len();
    assert(s@.take(n as int) =~= s@);
    while n > 0 && space(s[n - 1])
        invariant
            n <= s@.len(),
            trim_end(s@) == trim_end(s@.take(n as int)),
        decreases n,
    {
        assert(s@.take(n as int).drop_last() =~= s@.take(n - 1));
        n -= 1;
    }
    assert(s@.subrange(0, n as int) =~= s@.take(n as int));
    slice_subrange(s, 0, n)
}

/// Drops the white space at both ends.
pub fn trimmed(s: &[char]) -> (r: &[char])
    ensures
        r@ == trim(s@),
{
    trimmed_end(trimmed_start(s))
}

pub proof fn lemma_trim_len(s: Seq<char>)
    ensures
        trim_start(s).len() <= s.len(),
        trim_end(s).len() <= s.len(),
        trim(s).len() <= s.len(),
    decreases s.len(),
{
    lemma_trim_start_len(s);
    lemma_trim_end_len(s);
    lemma_trim_end_len(trim_start(s));
}

proof fn lemma_trim_start_len(s: Seq<char>)
    ensures
        trim_start(s).len() <= s.len(),
    decreases s.len(),
{
    if s.len() > 0 && is_space(s[0]) {
        lemma_trim_start_len(s.drop_first());
    }
}

proof fn lemma_trim_end_len(s: Seq<char>)
    ensures
        trim_end(s).len() <= s.len(),
    decreases s.len(),
{
    if s.len() > 0 && is_space(s.last()) {
        lemma_trim_end_len(s.drop_last());
    }
}

pub open spec fn starts_with(s: Seq<char>, p: Seq<char>) -> bool {
    p.len() <= s.len() && s.take(p.len() as int) == p
}

/// Whether `p` stands in `s` at position `i`.
pub open spec fn occurs_at(s: Seq<char>, p: Seq<char>, i: int) -> bool {
    0 <= i && i + p.len() <= s.len() && s.subrange(i, i + p.len()) == p
}

/// Whether `p` stands somewhere in `s`.
pub open spec fn contains(s: Seq<char>, p: Seq<char>) -> bool {
    exists|i: int| occurs_at(s, p, i)
}

/// Whether `p` stands in `s` at position `i`.
pub fn stands_at(s: &[char], p: &[char], i: usize) -> (r: bool)
    requires
        i <= s@.len(),
    ensures
        r == occurs_at(s@, p@, i as int),
{
    if p.len() > s.len() - i {
        return false;
    }
    let sub = slice_subrange(s, i, i + p.len());
    same_chars(sub, p)
}

/// Whether `s` begins with `p`.
pub fn has_prefix(s: &[char], p: &str) -> (r: bool)
    ensures
        r == starts_with(s@, p@),
{
    let pc = chars_of(p);
    proof {
        if p@.len() <= s@.len() {
            assert(s@.take(p@.len() as int) =~= s@.subrange(0, p@.len() as int));
        }
    }
    stands_at(s, pc.as_slice(), 0)
}

/// Whether `s` contains `p`.
pub fn has_text(s: &[char], p: &str) -> (r: bool)
    ensures
        r == contains(s@, p@),
{
    let pc = chars_of(p);
    let mut i: usize = 0;
    loop
        invariant
            i <= s@.len(),
            pc@ == p@,
            forall|j: int| 0 <= j < i ==> !occurs_at(s@, p@, j),
        decreases s@.len() - i,
    {
        if stands_at(s, pc.as_slice(), i) {
            return true;
        }
        if i == s.len() {
            return false;
        }
        i += 1;
    }
}

/// The position of the first occurrence of `p` in `s`.
pub open spec fn text_index(s: Seq<char>, p: Seq<char>) -> Option<int>
    decreases s.len(),
{
    if starts_with(s, p) {
        Some(0)
    } else if s.len() == 0 {
        None
    } else {
        match text_index(s.drop_first(), p) {
            Some(i) => Some(i + 1),
            None => None,
        }
    }
}

/// Finds the first occurrence of `p` in `s`.
pub fn find_text(s: &[char], p: &str) -> (r: Option<usize>)
    ensures
        r is Some <==> text_index(s@, p@) is Some,
        r matches Some(i) ==> text_index(s@, p@) == Some(i as int) && i + p@.len() <= s@.len(),
{
    let pc = chars_of(p);
    let mut i: usize = 0;
    assert(s@.skip(0) =~= s@);
    loop
        invariant
            i <= s@.len(),
            pc@ == p@,
            text_index(s@, p@) == (match text_index(s@.skip(i as int), p@) {
                Some(j) => Some(i + j),
                None => None,
            }),
        decreases s@.len() - i,
    {
        let ghost rest = s@.skip(i as int);
        proof {
            if p@.len() <= rest.len() {
                assert(rest.take(p@.len() as int) =~= s@.subrange(i as int, i + p@.len()));
            }
        }
        if stands_at(s, pc.as_slice(), i) {
            return Some(i);
        }
        if i == s.len() {
            return None;
        }
        assert(rest.drop_first() =~= s@.skip(i + 1));
        i += 1;
    }
}

/// The number of bytes that UTF-8 takes for `c`.
pub open spec fn utf8_len(c: char) -> int {
    let n = c as u32;
    if n < 0x80 {
        1
    } else if n < 0x800 {
        2
    } else if n < 0x10000 {
        3
    } else {
        4
    }
}

/// The number of bytes that UTF-8 takes for `s`.
pub open spec fn byte_len(s: Seq<char>) -> int
    decreases s.len(),
{
    if s.len() == 0 {
        0
    } else {
        byte_len(s.drop_last()) + utf8_len(s.last())
    }
}

fn width(c: char) -> (r: u128)
    ensures
        r == utf8_len(c),
        1 <= r <= 4,
{
    let n: u32 = c as u32;
    if n < 0x80 {
        1
    } else if n < 0x800 {
        2
    } else if n < 0x10000 {
        3
    } else {
        4
    }
}

/// Counts the bytes of `s`.
pub fn count_bytes(s: &[char]) -> (r: u128)
    ensures
        r == byte_len(s@),
        r <= 4 * s@.len(),
{
    let mut i: usize = 0;
    let mut n: u128 = 0;
    while i < s.len()
        invariant
            i <= s@.len(),
            n == byte_len(s@.take(i as int)),
            n <= 4 * i,
        decreases s@.len() - i,
    {
        assert(s@.take(i + 1).drop_last() =~= s@.take(i as int));
        n += width(s[i]);
        i += 1;
    }
    assert(s@.take(i as int) =~= s@);
    n
}

/// What is left of `s` after its first `n` bytes, if a character ends there.
pub open spec fn skip_bytes(s: Seq<char>, n: int) -> Option<Seq<char>>
    decreases s.len(),
{
    if n == 0 {
        Some(s)
    } else if s.len() == 0 || n < utf8_len(s[0]) {
        None
    } else {
        skip_bytes(s.drop_first(), n - utf8_len(s[0]))
    }
}

/// Drops the first `n` bytes of `s`, if a character ends there.
pub fn after_bytes(s: &[char], n: u128) -> (r: Option<&[char]>)
    ensures
        r is Some <==> skip_bytes(s@, n as int) is Some,
        r matches Some(t) ==> skip_bytes(s@, n as int) == Some(t@),
{
    let mut i: usize = 0;
    let mut left: u128 = n;
    assert(s@.skip(0) =~= s@);
    while left > 0
        invariant
            i <= s@.len(),
            skip_bytes(s@, n as int) == skip_bytes(s@.skip(i as int), left as int),
        decreases s@.len() - i,
    {
        if i == s.len() || left < width(s[i]) {
            return None;
        }
        assert(s@.skip(i as int).drop_first() =~= s@.skip(i + 1));
        left -= width(s[i]);
        i += 1;
    }
    assert(s@.subrange(i as int, s@.len() as int) =~= s@.skip(i as int));
    Some(slice_subrange(s, i, s.len()))
}

/// The position of the first `c` in `s`.
pub open spec fn index_of(s: Seq<char>, c: char) -> Option<int>
    decreases s.len(),
{
    if s.len() == 0 {
        None
    } else if index_of(s.drop_last(), c) is Some {
        index_of(s.drop_last(), c)
    } else if s.last() == c {
        Some(s.len() - 1)
    } else {
        None
    }
}

pub proof fn lemma_index_of(s: Seq<char>, c: char)
    ensures
        index_of(s, c) matches Some(i) ==> 0 <= i < s.len() && s[i] == c && forall|j: int|
            0 <= j < i ==> s[j] != c,
        index_of(s, c) is None ==> forall|j: int| 0 <= j < s.len() ==> s[j] != c,
    decreases s.len(),
{
    if s.len() > 0 {
        lemma_index_of(s.drop_last(), c);
        assert(forall|j: int| 0 <= j < s.len() - 1 ==> s[j] == s.drop_last()[j]);
    }
}

/// A prefix that holds `c` already decides where the first `c` stands.
pub proof fn lemma_index_of_prefix(s: Seq<char>, c: char, n: int)
    requires
        0 <= n <= s.len(),
        index_of(s.take(n), c) is Some,
    ensures
        index_of(s, c) == index_of(s.take(n), c),
    decreases s.len(),
{
    if n < s.len() {
        assert(s.drop_last().take(n) =~= s.take(n));
        lemma_index_of_prefix(s.drop_last(), c, n);
    } else {
        assert(s.take(n) =~= s);
    }
}

/// Finds the first `c` in `s`.
pub fn find_char(s: &[char], c: char) -> (r: Option<usize>)
    ensures
        r is Some <==> index_of(s@, c) is Some,
        r matches Some(i) ==> index_of(s@, c) == Some(i as int) && i < s@.len(),
{
    let mut i: usize = 0;
    while i < s.len()
        invariant
            i <= s@.len(),
            index_of(s@.take(i as int), c) is None,
        decreases s@.len() - i,
    {
        assert(s@.take(i + 1).drop_last() =~= s@.take(i as int));
        if s[i] == c {
            proof {
                lemma_index_of_prefix(s@, c, i + 1);
            }
            return Some(i);
        }
        i += 1;
    }
    assert(s@.take(i as int) =~= s@);
    None
}

/// The position of the last `c` in `s`.
pub open spec fn last_index_of(s: Seq<char>, c: char) -> Option<int>
    decreases s.len(),
{
    if s.len() == 0 {
        None
    } else if s.last() == c {
        Some(s.len() - 1)
    } else {
        last_index_of(s.drop_last(), c)
    }
}

/// Finds the last `c` in `s`.
pub fn find_last_char(s: &[char], c: char) -> (r: Option<usize>)
    ensures
        r is Some <==> last_index_of(s@, c) is Some,
        r matches Some(i) ==> last_index_of(s@, c) == Some(i as int) && i < s@.len(),
{
    let mut n: usize = s.len();
    assert(s@.take(n as int) =~= s@);
    while n > 0
        invariant
            n <= s@.len(),
            last_index_of(s@, c) == last_index_of(s@.take(n as int), c),
        decreases n,
    {
        if s[n - 1] == c {
            return Some(n - 1);
        }
        assert(s@.take(n as int).drop_last() =~= s@.take(n - 1));
        n -= 1;
    }
    None
}

/// The pieces of `s` between the occurrences of `c`.
pub open spec fn split(s: Seq<char>, c: char) -> Seq<Seq<char>>
    decreases s.len(),
    via split_decreases
{
    match index_of(s, c) {
        Some(i) => seq![s.take(i)] + split(s.skip(i + 1), c),
        None => seq![s],
    }
}

#[via_fn]
proof fn split_decreases(s: Seq<char>, c: char) {
    lemma_index_of(s, c);
}

/// Cuts `s` at each `c`.
pub fn split_at_char(s: &[char], c: char) -> (r: Vec<String>)
    ensures
        r.deep_view() == split(s@, c),
{
    let mut out: Vec<String> = Vec::new();
    let mut rest: &[char] = s;
    loop
        invariant
            out.deep_view() + split(rest@, c) == split(s@, c),
        decreases rest@.len(),
    {
        match find_char(rest, c) {
            Some(i) => {
                proof {
                    assert(rest@.subrange(0, i as int) =~= rest@.take(i as int));
                    assert(rest@.subrange(i + 1, rest@.len() as int) =~= rest@.skip(i + 1));
                }
                let piece = string_of(slice_subrange(rest, 0, i));
                let ghost before = out.deep_view();
                out.push(piece);
                assert(out.deep_view() =~= before.push(piece@));
                assert(before.push(piece@) + split(rest@.skip(i + 1), c) =~= before + (seq![
                    piece@,
                ] + split(rest@.skip(i + 1), c)));
                let n: usize = rest.len();
                rest = slice_subrange(rest, i + 1, n);
            },
            None => {
                let piece = string_of(rest);
                let ghost before = out.deep_view();
                out.push(piece);
                assert(out.deep_view() =~= before + seq![piece@]);
                return out;
            },
        }
    }
}

/// Drops a carriage return that ends `s`.
pub open spec fn strip_return(s: Seq<char>) -> Seq<char> {
    if s.len() > 0 && s.last() == '\r' {
        s.drop_last()
    } else {
        s
    }
}

/// The lines of `s`: cut at each line feed, a carriage return before it
/// belonging to the line end; what follows the last line feed is a line if it
/// is not empty.
pub open spec fn lines(s: Seq<char>) -> Seq<Seq<char>>
    decreases s.len(),
    via lines_decreases
{
    match index_of(s, '\n') {
        Some(i) => seq![strip_return(s.take(i))] + lines(s.skip(i + 1)),
        None => if s.len() == 0 {
            seq![]
        } else {
            seq![s]
        },
    }
}

#[via_fn]
proof fn lines_decreases(s: Seq<char>) {
    lemma_index_of(s, '\n');
}

/// Cuts `s` into lines.
pub fn split_lines(s: &[char]) -> (r: Vec<String>)
    ensures
        r.deep_view() == lines(s@),
{
    let mut out: Vec<String> = Vec::new();
    let mut rest: &[char] = s;
    loop
        invariant
            out.deep_view() + lines(rest@) == lines(s@),
        decreases rest@.len(),
    {
        match find_char(rest, '\n') {
            Some(i) => {
                let mut end: usize = i;
                if i > 0 && rest[i - 1] == '\r' {
                    end = i - 1;
                }
                let piece = string_of(slice_subrange(rest, 0, end));
                proof {
                    assert(rest@.subrange(i + 1, rest@.len() as int) =~= rest@.skip(i + 1));
                    assert(piece@ =~= strip_return(rest@.take(i as int)));
                }
                let ghost before = out.deep_view();
                out.push(piece);
                assert(out.deep_view() =~= before.push(piece@));
                assert(before.push(piece@) + lines(rest@.skip(i + 1)) =~= before + (seq![piece@]
                    + lines(rest@.skip(i + 1))));
                let n: usize = rest.len();
                rest = slice_subrange(rest, i + 1, n);
            },
            None => {
                if rest.len() > 0 {
                    let piece = string_of(rest);
                    let ghost before = out.deep_view();
                    out.push(piece);
                    assert(out.deep_view() =~= before + seq![piece@]);
                } else {
                    assert(out.deep_view() =~= out.deep_view() + seq![]);
                }
                return out;
            },
        }
    }
}

// ---------------------------------------------------------------------
// Bracket depth
// ---------------------------------------------------------------------

/// Which brackets count for nesting.
#[derive(Clone, Copy)]
pub enum Brackets {
    Round,
    Square,
    Both,
}

/// Whether `c` opens a nesting level.
pub open spec fn opens(c: char, kind: Brackets) -> bool {
    (c == '(' && !(kind is Square)) || (c == '[' && !(kind is Round))
}

/// Whether `c` closes a nesting level.
pub open spec fn closes(c: char, kind: Brackets) -> bool {
    (c == ')' && !(kind is Square)) || (c == ']' && !(kind is Round))
}

fn is_opening(c: char, kind: Brackets) -> (r: bool)
    ensures
        r == opens(c, kind),
{
    (c == '(' && !matches!(kind, Brackets::Square)) || (c == '[' && !matches!(
        kind,
        Brackets::Round
    ))
}

fn is_closing(c: char, kind: Brackets) -> (r: bool)
    ensures
        r == closes(c, kind),
{
    (c == ')' && !matches!(kind, Brackets::Square)) || (c == ']' && !matches!(
        kind,
        Brackets::Round
    ))
}

/// Opening brackets minus closing brackets in `s`.
pub open spec fn depth(s: Seq<char>, kind: Brackets) -> int
    decreases s.len(),
{
    if s.len() == 0 {
        0
    } else {
        depth(s.drop_last(), kind) + (if opens(s.last(), kind) {
            1int
        } else if closes(s.last(), kind) {
            -1
        } else {
            0
        })
    }
}

/// Where `level` open brackets before `s` are all closed: the position of the
/// first closing bracket that brings the nesting down to none.
pub open spec fn close_index(s: Seq<char>, kind: Brackets, level: int) -> Option<int>
    decreases s.len(),
{
    if s.len() == 0 {
        None
    } else if close_index(s.drop_last(), kind, level) is Some {
        close_index(s.drop_last(), kind, level)
    } else if closes(s.last(), kind) && level + depth(s, kind) == 0 {
        Some(s.len() - 1)
    } else {
        None
    }
}

pub proof fn lemma_close_index(s: Seq<char>, kind: Brackets, level: int)
    ensures
        close_index(s, kind, level) matches Some(i) ==> 0 <= i < s.len(),
    decreases s.len(),
{
    if s.len() > 0 {
        lemma_close_index(s.drop_last(), kind, level);
    }
}

pub proof fn lemma_close_index_prefix(s: Seq<char>, kind: Brackets, level: int, n: int)
    requires
        0 <= n <= s.len(),
        close_index(s.take(n), kind, level) is Some,
    ensures
        close_index(s, kind, level) == close_index(s.take(n), kind, level),
    decreases s.len(),
{
    if n < s.len() {
        assert(s.drop_last().take(n) =~= s.take(n));
        lemma_close_index_prefix(s.drop_last(), kind, level, n);
    } else {
        assert(s.take(n) =~= s);
    }
}

/// Finds the bracket that closes `level` open ones.
pub fn find_close(s: &[char], kind: Brackets, level: u8) -> (r: Option<usize>)
    ensures
        r is Some <==> close_index(s@, kind, level as int) is Some,
        r matches Some(i) ==> close_index(s@, kind, level as int) == Some(i as int) && i
            < s@.len(),
{
    let mut i: usize = 0;
    let mut d: i128 = 0;
    while i < s.len()
        invariant
            i <= s@.len(),
            d == depth(s@.take(i as int), kind),
            -i <= d <= i,
            close_index(s@.take(i as int), kind, level as int) is None,
        decreases s@.len() - i,
    {
        assert(s@.take(i + 1).drop_last() =~= s@.take(i as int));
        if is_opening(s[i], kind) {
            d += 1;
        } else if is_closing(s[i], kind) {
            d -= 1;
            if level as i128 + d == 0 {
                proof {
                    lemma_close_index_prefix(s@, kind, level as int, i + 1);
                }
                return Some(i);
            }
        }
        i += 1;
    }
    assert(s@.take(i as int) =~= s@);
    None
}

/// The position of the first `c` in `s` with bracket depth 0 before it.
pub open spec fn top_index(s: Seq<char>, c: char, kind: Brackets) -> Option<int>
    decreases s.len(),
{
    if s.len() == 0 {
        None
    } else if top_index(s.drop_last(), c, kind) is Some {
        top_index(s.drop_last(), c, kind)
    } else if s.last() == c && depth(s.drop_last(), kind) == 0 {
        Some(s.len() - 1)
    } else {
        None
    }
}

pub proof fn lemma_top_index(s: Seq<char>, c: char, kind: Brackets)
    ensures
        top_index(s, c, kind) matches Some(i) ==> 0 <= i < s.len() && s[i] == c,
    decreases s.len(),
{
    if s.len() > 0 {
        lemma_top_index(s.drop_last(), c, kind);
    }
}

pub proof fn lemma_top_index_prefix(s: Seq<char>, c: char, kind: Brackets, n: int)
    requires
        0 <= n <= s.len(),
        top_index(s.take(n), c, kind) is Some,
    ensures
        top_index(s, c, kind) == top_index(s.take(n), c, kind),
    decreases s.len(),
{
    if n < s.len() {
        assert(s.drop_last().take(n) =~= s.take(n));
        lemma_top_index_prefix(s.drop_last(), c, kind, n);
    } else {
        assert(s.take(n) =~= s);
    }
}

/// Finds the first `c` outside all brackets.
pub fn find_top(s: &[char], c: char, kind: Brackets) -> (r: Option<usize>)
    ensures
        r is Some <==> top_index(s@, c, kind) is Some,
        r matches Some(i) ==> top_index(s@, c, kind) == Some(i as int) && i < s@.len(),
{
    let mut i: usize = 0;
    let mut d: i128 = 0;
    while i < s.len()
        invariant
            i <= s@.len(),
            d == depth(s@.take(i as int), kind),
            -i <= d <= i,
            top_index(s@.take(i as int), c, kind) is None,
        decreases s@.len() - i,
    {
        assert(s@.take(i + 1).drop_last() =~= s@.take(i as int));
        if s[i] == c && d == 0 {
            proof {
                lemma_top_index_prefix(s@, c, kind, i + 1);
            }
            return Some(i);
        }
        if is_opening(s[i], kind) {
            d += 1;
        } else if is_closing(s[i], kind) {
            d -= 1;
        }
        i += 1;
    }
    assert(s@.take(i as int) =~= s@);
    None
}

/// The pieces of `s` between the `c` that stand outside all brackets.
pub open spec fn split_top(s: Seq<char>, c: char, kind: Brackets) -> Seq<Seq<char>>
    decreases s.len(),
    via split_top_decreases
{
    match top_index(s, c, kind) {
        Some(i) => seq![s.take(i)] + split_top(s.skip(i + 1), c, kind),
        None => seq![s],
    }
}

#[via_fn]
proof fn split_top_decreases(s: Seq<char>, c: char, kind: Brackets) {
    lemma_top_index(s, c, kind);
}

/// Cuts `s` at each `c` that stands outside all brackets.
pub fn split_outside(s: &[char], c: char, kind: Brackets) -> (r: Vec<String>)
    ensures
        r.deep_view() == split_top(s@, c, kind),
{
    let mut out: Vec<String> = Vec::new();
    let mut rest: &[char] = s;
    loop
        invariant
            out.deep_view() + split_top(rest@, c, kind) == split_top(s@, c, kind),
        decreases rest@.len(),
    {
        match find_top(rest, c, kind) {
            Some(i) => {
                proof {
                    assert(rest@.subrange(0, i as int) =~= rest@.take(i as int));
                    assert(rest@.subrange(i + 1, rest@.len() as int) =~= rest@.skip(i + 1));
                }
                let piece = string_of(slice_subrange(rest, 0, i));
                let ghost before = out.deep_view();
                out.push(piece);
                assert(out.deep_view() =~= before.push(piece@));
                assert(before.push(piece@) + split_top(rest@.skip(i + 1), c, kind) =~= before
                    + (seq![piece@] + split_top(rest@.skip(i + 1), c, kind)));
                let n: usize = rest.len();
                rest = slice_subrange(rest, i + 1, n);
            },
            None => {
                let piece = string_of(rest);
                let ghost before = out.deep_view();
                out.push(piece);
                assert(out.deep_view() =~= before + seq![piece@]);
                return out;
            },
        }
    }
}

// ---------------------------------------------------------------------
// Numbers and lists
// ---------------------------------------------------------------------

pub open spec fn digit(n: int) -> char {
    (48 + n) as char
}

/// The decimal digits of `n`.
pub open spec fn decimal(n: nat) -> Seq<char>
    decreases n,
{
    if n < 10 {
        seq![digit(n as int)]
    } else {
        decimal(n / 10).push(digit((n % 10) as int))
    }
}

/// Writes `n` in decimal.
pub fn decimal_of(n: usize) -> (r: String)
    ensures
        r@ == decimal(n as nat),
    decreases n,
{
    let c: char = (48u8 + (n % 10) as u8) as char;
    if n < 10 {
        let mut r = String::new();
        r.push(c);
        assert(r@ =~= decimal(n as nat));
        r
    } else {
        let mut r = decimal_of(n / 10);
        r.push(c);
        r
    }
}

/// The texts `parts` with `sep` between any two.
pub open spec fn joined(parts: Seq<Seq<char>>, sep: Seq<char>) -> Seq<char>
    decreases parts.len(),
{
    if parts.len() == 0 {
        seq![]
    } else if parts.len() == 1 {
        parts[0]
    } else {
        joined(parts.drop_last(), sep) + sep + parts.last()
    }
}

/// Joins `parts` with `sep`.
pub fn join_all(parts: &Vec<String>, sep: &str) -> (r: String)
    ensures
        r@ == joined(parts.deep_view(), sep@),
{
    let mut r = String::new();
    let mut i: usize = 0;
    let ghost all = parts.deep_view();
    assert(all.take(0) =~= seq![]);
    while i < parts.len()
        invariant
            i <= parts@.len(),
            all == parts.deep_view(),
            all.len() == parts@.len(),
            r@ == joined(all.take(i as int), sep@),
        decreases parts@.len() - i,
    {
        let ghost cur = all.take(i + 1);
        proof {
            assert(cur.drop_last() =~= all.take(i as int));
            assert(cur.last() == parts@[i as int]@);
        }
        if i > 0 {
            r.append(sep);
            r.append(parts[i].as_str());
        } else {
            r.append(parts[i].as_str());
            assert(r@ =~= cur[0]);
        }
        i += 1;
    }
    assert(all.take(all.len() as int) =~= all);
    r
}

} // verus!
