//! What the text operations give, stated over the characters of their texts.

use crate::text::{
    byte_len, close_index, closes, contains, decimal, depth, digit, index_of, is_space, joined,
    last_index_of, lemma_index_of, lemma_top_index, lemma_top_index_prefix, lines, occurs_at, opens,
    skip_bytes, split, split_top, starts_with, text_index, top_index, trim, trim_end, trim_start,
    utf8_len, Brackets,
};
use vstd::prelude::*;

verus! {

// ---------------------------------------------------------------------
// Space at the ends
// ---------------------------------------------------------------------

proof fn lemma_trim_start(s: Seq<char>) -> (a: int)
    ensures
        0 <= a <= s.len(),
        trim_start(s) == s.skip(a),
        forall|i: int| 0 <= i < a ==> is_space(#[trigger] s[i]),
        a < s.len() ==> !is_space(s[a]),
    decreases s.len(),
{
    if s.len() > 0 && is_space(s[0]) {
        let t = s.drop_first();
        let a = lemma_trim_start(t);
        assert(t.skip(a) =~= s.skip(a + 1));
        assert forall|i: int| 0 <= i < a + 1 implies is_space(#[trigger] s[i]) by {
            if i > 0 {
                assert(s[i] == t[i - 1]);
            }
        }
        if a < t.len() {
            assert(t[a] == s[a + 1]);
        }
        a + 1
    } else {
        assert(s.skip(0) =~= s);
        0
    }
}

proof fn lemma_trim_end(s: Seq<char>) -> (b: int)
    ensures
        0 <= b <= s.len(),
        trim_end(s) == s.take(b),
        forall|i: int| b <= i < s.len() ==> is_space(#[trigger] s[i]),
        b > 0 ==> !is_space(s[b - 1]),
    decreases s.len(),
{
    if s.len() > 0 && is_space(s.last()) {
        let t = s.drop_last();
        let b = lemma_trim_end(t);
        assert(t.take(b) =~= s.take(b));
        assert forall|i: int| b <= i < s.len() implies is_space(#[trigger] s[i]) by {
            if i < t.len() {
                assert(s[i] == t[i]);
            }
        }
        b
    } else {
        assert(s.take(s.len() as int) =~= s);
        s.len() as int
    }
}

/// Trimming cuts a text out of the middle: what is cut off on both sides is space,
/// and what is left neither starts nor ends with space.
pub proof fn law_trim_cuts_space(s: Seq<char>) -> (ab: (int, int))
    ensures
        0 <= ab.0 <= ab.1 <= s.len(),
        trim(s) == s.subrange(ab.0, ab.1),
        forall|i: int| 0 <= i < ab.0 ==> is_space(#[trigger] s[i]),
        forall|i: int| ab.1 <= i < s.len() ==> is_space(#[trigger] s[i]),
        ab.0 < ab.1 ==> !is_space(s[ab.0]) && !is_space(s[ab.1 - 1]),
{
    let a = lemma_trim_start(s);
    let t = s.skip(a);
    let n = lemma_trim_end(t);
    assert(t.take(n) =~= s.subrange(a, a + n));
    assert forall|i: int| a + n <= i < s.len() implies is_space(#[trigger] s[i]) by {
        assert(t[i - a] == s[i]);
    }
    if n > 0 {
        assert(t[n - 1] == s[a + n - 1]);
    }
    (a, a + n)
}

/// A text without space at its ends stays as it is.
pub proof fn law_trimmed_stays(s: Seq<char>)
    requires
        s.len() > 0 ==> !is_space(s[0]) && !is_space(s.last()),
    ensures
        trim(s) == s,
        trim_start(s) == s,
{
}

// ---------------------------------------------------------------------
// Cutting
// ---------------------------------------------------------------------

/// Cutting at a character gives pieces without it, which put together again with it
/// between them are the text.
pub proof fn law_split_is_undone_by_joining(s: Seq<char>, c: char)
    ensures
        split(s, c).len() > 0,
        joined(split(s, c), seq![c]) == s,
        forall|i: int, j: int|
            0 <= i < split(s, c).len() && 0 <= j < split(s, c)[i].len() ==> #[trigger] split(
                s,
                c,
            )[i][j] != c,
    decreases s.len(),
{
    lemma_index_of(s, c);
    match index_of(s, c) {
        Some(i) => {
            let rest = s.skip(i + 1);
            law_split_is_undone_by_joining(rest, c);
            let more = split(rest, c);
            let all = seq![s.take(i)] + more;
            lemma_joined_first(s.take(i), more, seq![c]);
            assert(s =~= s.take(i) + seq![c] + rest);
            assert forall|k: int, j: int|
                0 <= k < all.len() && 0 <= j < all[k].len() implies #[trigger] all[k][j] != c by {
                if k > 0 {
                    assert(all[k] == more[k - 1]);
                    assert(more[k - 1][j] != c);
                }
            }
        },
        None => {
            let all = seq![s];
            assert(joined(all, seq![c]) == s);
        },
    }
}

proof fn lemma_joined_first(a: Seq<char>, more: Seq<Seq<char>>, sep: Seq<char>)
    requires
        more.len() > 0,
    ensures
        joined(seq![a] + more, sep) == a + sep + joined(more, sep),
    decreases more.len(),
{
    let all = seq![a] + more;
    if more.len() == 1 {
        assert(all.drop_last() =~= seq![a]);
        assert(all.last() == more[0]);
        reveal_with_fuel(joined, 2);
    } else {
        lemma_joined_first(a, more.drop_last(), sep);
        assert(all.drop_last() =~= seq![a] + more.drop_last());
        assert(all.last() == more.last());
        assert(a + sep + joined(more.drop_last(), sep) + sep + more.last() =~= a + sep + (joined(
            more.drop_last(),
            sep,
        ) + sep + more.last()));
    }
}

/// Joining two lists is joining each and putting the separator between; joining one
/// text gives that text.
pub proof fn law_joined_in_parts(
    a: Seq<Seq<char>>,
    b: Seq<Seq<char>>,
    x: Seq<char>,
    sep: Seq<char>,
)
    requires
        a.len() > 0,
        b.len() > 0,
    ensures
        joined(a + b, sep) == joined(a, sep) + sep + joined(b, sep),
        joined(seq![x], sep) == x,
        joined(Seq::<Seq<char>>::empty(), sep) == Seq::<char>::empty(),
    decreases b.len(),
{
    if b.len() == 1 {
        assert((a + b).drop_last() =~= a);
        assert((a + b).last() == b[0]);
    } else {
        law_joined_in_parts(a, b.drop_last(), x, sep);
        assert((a + b).drop_last() =~= a + b.drop_last());
        assert((a + b).last() == b.last());
        assert(joined(a, sep) + sep + joined(b.drop_last(), sep) + sep + b.last() =~= joined(a, sep)
            + sep + (joined(b.drop_last(), sep) + sep + b.last()));
    }
}

/// A line ends at its line feed; a carriage return before that is dropped.
pub proof fn law_lines_end_at_line_feeds(a: Seq<char>, rest: Seq<char>)
    requires
        forall|i: int| 0 <= i < a.len() ==> #[trigger] a[i] != '\n' && a[i] != '\r',
    ensures
        lines(a + seq!['\n'] + rest) == seq![a] + lines(rest),
        lines(a + seq!['\r', '\n'] + rest) == seq![a] + lines(rest),
        a.len() > 0 ==> lines(a) == seq![a],
        lines(Seq::empty()) == Seq::<Seq<char>>::empty(),
{
    let s = a + seq!['\n'] + rest;
    lemma_index_of(s, '\n');
    assert(s[a.len() as int] == '\n');
    assert forall|j: int| 0 <= j < a.len() implies s[j] != '\n' by {
        assert(s[j] == a[j]);
    }
    assert(index_of(s, '\n') == Some(a.len() as int));
    assert(s.take(a.len() as int) =~= a);
    assert(s.skip(a.len() as int + 1) =~= rest);
    if a.len() > 0 {
        assert(a[a.len() - 1] == a.last());
    }
    let r = a.push('\r');
    let t = a + seq!['\r', '\n'] + rest;
    lemma_index_of(t, '\n');
    assert(t[a.len() as int + 1] == '\n');
    assert forall|j: int| 0 <= j < a.len() + 1 implies t[j] != '\n' by {
        if j < a.len() {
            assert(t[j] == a[j]);
        }
    }
    assert(index_of(t, '\n') == Some(a.len() as int + 1));
    assert(t.take(a.len() as int + 1) =~= r);
    assert(t.skip(a.len() as int + 2) =~= rest);
    assert(r.drop_last() =~= a);
    lemma_index_of(a, '\n');
    lemma_index_of(Seq::empty(), '\n');
}

// ---------------------------------------------------------------------
// Brackets
// ---------------------------------------------------------------------

/// The depth after a text is that after its first part and that of the rest.
pub proof fn law_depth_adds_up(a: Seq<char>, b: Seq<char>, kind: Brackets)
    ensures
        depth(a + b, kind) == depth(a, kind) + depth(b, kind),
    decreases b.len(),
{
    if b.len() == 0 {
        assert(a + b =~= a);
    } else {
        law_depth_adds_up(a, b.drop_last(), kind);
        assert((a + b).drop_last() =~= a + b.drop_last());
        assert((a + b).last() == b.last());
    }
}

/// Where a character first stands outside all brackets.
pub proof fn law_top_index_is_first(s: Seq<char>, c: char, kind: Brackets)
    ensures
        top_index(s, c, kind) matches Some(i) ==> 0 <= i < s.len() && s[i] == c && depth(
            s.take(i),
            kind,
        ) == 0 && forall|j: int| 0 <= j < i && s[j] == c ==> depth(#[trigger] s.take(j), kind) != 0,
        top_index(s, c, kind) is None ==> forall|j: int|
            0 <= j < s.len() && s[j] == c ==> depth(#[trigger] s.take(j), kind) != 0,
    decreases s.len(),
{
    if s.len() > 0 {
        let d = s.drop_last();
        law_top_index_is_first(d, c, kind);
        assert(s.take(s.len() - 1) =~= d);
        assert forall|j: int| 0 <= j <= d.len() implies #[trigger] s.take(j) == d.take(j) by {
            assert(s.take(j) =~= d.take(j));
        }
        assert forall|j: int| 0 <= j < d.len() implies #[trigger] s[j] == d[j] by {}
    }
}

/// Where the bracket that brings a text down to level zero first closes.
pub proof fn law_close_index_is_first(s: Seq<char>, kind: Brackets, level: int)
    ensures
        close_index(s, kind, level) matches Some(i) ==> 0 <= i < s.len() && closes(s[i], kind)
            && level + depth(s.take(i + 1), kind) == 0 && forall|j: int|
            0 <= j < i && closes(s[j], kind) ==> level + depth(#[trigger] s.take(j + 1), kind) != 0,
        close_index(s, kind, level) is None ==> forall|j: int|
            0 <= j < s.len() && closes(s[j], kind) ==> level + depth(
                #[trigger] s.take(j + 1),
                kind,
            ) != 0,
    decreases s.len(),
{
    if s.len() > 0 {
        let d = s.drop_last();
        law_close_index_is_first(d, kind, level);
        assert(s.take(s.len() as int) =~= s);
        assert forall|j: int| 0 <= j < d.len() implies #[trigger] s.take(j + 1) == d.take(j + 1) by {
            assert(s.take(j + 1) =~= d.take(j + 1));
        }
        assert forall|j: int| 0 <= j < d.len() implies #[trigger] s[j] == d[j] by {}
    }
}

/// Cutting outside brackets: a text whose brackets are closed, the character, and
/// more text are cut into the pieces of the one and then those of the other.
pub proof fn law_split_top_in_parts(a: Seq<char>, c: char, b: Seq<char>, kind: Brackets)
    requires
        depth(a, kind) == 0,
        !opens(c, kind),
        !closes(c, kind),
    ensures
        split_top(a + seq![c] + b, c, kind) == split_top(a, c, kind) + split_top(b, c, kind),
    decreases a.len(),
{
    let s = a + seq![c] + b;
    lemma_top_index(a, c, kind);
    lemma_top_index(s, c, kind);
    assert(s.take(a.len() as int) =~= a);
    match top_index(a, c, kind) {
        Some(i) => {
            lemma_top_index_prefix(s, c, kind, a.len() as int);
            let rest = a.skip(i + 1);
            assert(s.take(i) =~= a.take(i));
            assert(s.skip(i + 1) =~= rest + seq![c] + b);
            law_top_index_is_first(a, c, kind);
            assert(a =~= a.take(i) + (seq![c] + rest));
            law_depth_adds_up(a.take(i), seq![c] + rest, kind);
            law_depth_adds_up(seq![c], rest, kind);
            reveal_with_fuel(depth, 2);
            assert(seq![c].drop_last() =~= seq![]);
            law_split_top_in_parts(rest, c, b, kind);
            assert(seq![a.take(i)] + (split_top(rest, c, kind) + split_top(b, c, kind)) =~= (seq![
                a.take(i),
            ] + split_top(rest, c, kind)) + split_top(b, c, kind));
        },
        None => {
            let ac = a.push(c);
            assert(ac.drop_last() =~= a);
            assert(s.take(a.len() as int + 1) =~= ac);
            assert(top_index(ac, c, kind) == Some(a.len() as int));
            lemma_top_index_prefix(s, c, kind, a.len() as int + 1);
            assert(s.skip(a.len() as int + 1) =~= b);
        },
    }
}

/// A text without the character, or with it inside brackets alone, is not cut.
pub proof fn law_split_top_leaves_whole(s: Seq<char>, c: char, kind: Brackets)
    requires
        forall|j: int| 0 <= j < s.len() && s[j] == c ==> depth(#[trigger] s.take(j), kind) != 0,
    ensures
        split_top(s, c, kind) == seq![s],
{
    law_top_index_is_first(s, c, kind);
}

// ---------------------------------------------------------------------
// Finding
// ---------------------------------------------------------------------

/// The first and the last place of a character.
pub proof fn law_first_and_last_place(s: Seq<char>, c: char)
    ensures
        index_of(s, c) matches Some(i) ==> 0 <= i < s.len() && s[i] == c && forall|j: int|
            0 <= j < i ==> #[trigger] s[j] != c,
        index_of(s, c) is None ==> forall|j: int| 0 <= j < s.len() ==> #[trigger] s[j] != c,
        last_index_of(s, c) matches Some(i) ==> 0 <= i < s.len() && s[i] == c && forall|j: int|
            i < j < s.len() ==> #[trigger] s[j] != c,
        last_index_of(s, c) is None ==> forall|j: int| 0 <= j < s.len() ==> #[trigger] s[j] != c,
    decreases s.len(),
{
    lemma_index_of(s, c);
    if s.len() > 0 {
        let d = s.drop_last();
        law_first_and_last_place(d, c);
        assert forall|j: int| 0 <= j < d.len() implies #[trigger] s[j] == d[j] by {}
        assert(s[s.len() - 1] == s.last());
    }
}

/// The first place of a text in another.
pub proof fn law_first_text_place(s: Seq<char>, p: Seq<char>)
    ensures
        text_index(s, p) matches Some(i) ==> occurs_at(s, p, i) && forall|j: int|
            0 <= j < i ==> !#[trigger] occurs_at(s, p, j),
        text_index(s, p) is None ==> !contains(s, p),
    decreases s.len(),
{
    if starts_with(s, p) {
        assert(s.subrange(0, p.len() as int) =~= s.take(p.len() as int));
    } else {
        assert(!occurs_at(s, p, 0)) by {
            if occurs_at(s, p, 0) {
                assert(s.subrange(0, p.len() as int) =~= s.take(p.len() as int));
            }
        }
        if s.len() > 0 {
            let t = s.drop_first();
            law_first_text_place(t, p);
            assert forall|j: int| 1 <= j implies #[trigger] occurs_at(s, p, j) == occurs_at(
                t,
                p,
                j - 1,
            ) by {
                if j + p.len() <= s.len() {
                    assert(s.subrange(j, j + p.len()) =~= t.subrange(j - 1, j - 1 + p.len()));
                }
            }
            if text_index(t, p) is Some {
                let i = text_index(t, p)->0;
                assert(occurs_at(s, p, i + 1));
                assert forall|j: int| 0 <= j < i + 1 implies !#[trigger] occurs_at(s, p, j) by {
                    if j > 0 {
                        assert(!occurs_at(t, p, j - 1));
                    }
                }
            } else if contains(s, p) {
                let i = choose|i: int| occurs_at(s, p, i);
                assert(occurs_at(t, p, i - 1));
            }
        } else if contains(s, p) {
            let i = choose|i: int| occurs_at(s, p, i);
            assert(i == 0);
        }
    }
}

// ---------------------------------------------------------------------
// Numbers
// ---------------------------------------------------------------------

/// What a decimal numeral stands for.
pub open spec fn numeral_value(s: Seq<char>) -> int
    decreases s.len(),
{
    if s.len() == 0 {
        0
    } else {
        10 * numeral_value(s.drop_last()) + (s.last() as int - 48)
    }
}

/// A number is written in decimal digits, without a leading zero, and reads back as
/// itself.
pub proof fn law_decimal_reads_back(n: nat)
    ensures
        numeral_value(decimal(n)) == n,
        decimal(n).len() > 0,
        forall|i: int| 0 <= i < decimal(n).len() ==> '0' <= #[trigger] decimal(n)[i] <= '9',
        n > 0 ==> decimal(n)[0] != '0',
    decreases n,
{
    if n < 10 {
        let q = seq![digit(n as int)];
        reveal_with_fuel(numeral_value, 2);
        assert(q.drop_last() =~= seq![]);
        assert(q.last() == digit(n as int));
    } else {
        law_decimal_reads_back(n / 10);
        let before = decimal(n / 10);
        let q = before.push(digit((n % 10) as int));
        assert(q.drop_last() =~= before);
        assert(q.last() == digit((n % 10) as int));
    }
}

/// The bytes of a text are those of its parts, and skipping the bytes of the first
/// part leaves the second.
pub proof fn law_bytes_in_parts(a: Seq<char>, b: Seq<char>)
    ensures
        byte_len(a + b) == byte_len(a) + byte_len(b),
        byte_len(a) >= a.len(),
        skip_bytes(a + b, byte_len(a)) == Some(b),
    decreases a.len() + b.len(),
{
    lemma_bytes_add(a, b);
    lemma_bytes_least(a);
    lemma_skip(a, b);
}

proof fn lemma_bytes_add(a: Seq<char>, b: Seq<char>)
    ensures
        byte_len(a + b) == byte_len(a) + byte_len(b),
    decreases b.len(),
{
    if b.len() == 0 {
        assert(a + b =~= a);
    } else {
        lemma_bytes_add(a, b.drop_last());
        assert((a + b).drop_last() =~= a + b.drop_last());
        assert((a + b).last() == b.last());
    }
}

proof fn lemma_bytes_least(a: Seq<char>)
    ensures
        byte_len(a) >= a.len(),
    decreases a.len(),
{
    if a.len() > 0 {
        lemma_bytes_least(a.drop_last());
    }
}

proof fn lemma_skip(a: Seq<char>, b: Seq<char>)
    ensures
        skip_bytes(a + b, byte_len(a)) == Some(b),
    decreases a.len(),
{
    if a.len() == 0 {
        assert(a + b =~= b);
    } else {
        let rest = a.drop_first();
        assert(a =~= seq![a[0]] + rest);
        lemma_bytes_add(seq![a[0]], rest);
        lemma_bytes_least(rest);
        reveal_with_fuel(byte_len, 2);
        assert(seq![a[0]].drop_last() =~= seq![]);
        assert(seq![a[0]].last() == a[0]);
        assert(byte_len(a) == utf8_len(a[0]) + byte_len(rest));
        assert((a + b).drop_first() =~= rest + b);
        lemma_skip(rest, b);
    }
}

/// Cutting at a character is done part by part: a text, the character and more text
/// are cut into the pieces of the one and then those of the other.
pub proof fn law_split_in_parts(a: Seq<char>, c: char, b: Seq<char>)
    ensures
        split(a + seq![c] + b, c) == split(a, c) + split(b, c),
    decreases a.len(),
{
    let s = a + seq![c] + b;
    let n = a.len() as int;
    lemma_index_of(a, c);
    lemma_index_of(s, c);
    assert(s[n] == c);
    assert forall|j: int| 0 <= j < n implies s[j] == a[j] by {}
    match index_of(a, c) {
        Some(i) => {
            assert(s[i] == c);
            assert(index_of(s, c) == Some(i));
            let rest = a.skip(i + 1);
            assert(s.take(i) =~= a.take(i));
            assert(s.skip(i + 1) =~= rest + seq![c] + b);
            law_split_in_parts(rest, c, b);
            assert(seq![a.take(i)] + (split(rest, c) + split(b, c)) =~= (seq![a.take(i)] + split(
                rest,
                c,
            )) + split(b, c));
        },
        None => {
            assert(index_of(s, c) == Some(n));
            assert(s.take(n) =~= a);
            assert(s.skip(n + 1) =~= b);
        },
    }
}

} // verus!
