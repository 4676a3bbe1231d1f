//! What the texts of types are read as.

use crate::express::type_parser::{
    enumeration, enumeration_tail, is_primitive, keyword_rest, list_names, paren_content,
    parse_type, primitive, without_modifier,
};
use crate::express::TypeModel;
use crate::text::{close_index, depth, is_space, starts_with, trim_start, Brackets};
use crate::text_laws::{law_close_index_is_first, law_trimmed_stays};
use vstd::prelude::*;

verus! {

proof fn lemma_keyword(k: Seq<char>, r: Seq<char>)
    requires
        r.len() > 0 ==> !is_space(r[0]),
    ensures
        keyword_rest(k + seq![' '] + r, k) == Some(r),
{
    let s = k + seq![' '] + r;
    assert(s.take(k.len() as int) =~= k);
    let rest = s.skip(k.len() as int);
    assert(rest =~= seq![' '] + r);
    assert(rest[0] == ' ');
    assert(rest.drop_first() =~= r);
    reveal_with_fuel(trim_start, 2);
}

proof fn lemma_other_keyword(s: Seq<char>, k: Seq<char>)
    requires
        k.len() > 0,
        s.len() > 0 ==> s[0] != k[0],
    ensures
        keyword_rest(s, k) is None,
{
    if starts_with(s, k) {
        assert(s.take(k.len() as int)[0] == s[0]);
    }
}

/// A `UNIQUE` or `OPTIONAL` before the element of an aggregation is passed over.
pub proof fn law_modifiers_are_dropped(t: Seq<char>)
    requires
        t.len() > 0 ==> !is_space(t[0]),
    ensures
        without_modifier("UNIQUE"@ + seq![' '] + t) == t,
        without_modifier("OPTIONAL"@ + seq![' '] + t) == t,
{
    reveal_strlit("UNIQUE");
    reveal_strlit("OPTIONAL");
    let a = "UNIQUE"@ + seq![' '] + t;
    let b = "OPTIONAL"@ + seq![' '] + t;
    assert(a[0] == 'U');
    assert(b[0] == 'O');
    lemma_keyword("UNIQUE"@, t);
    lemma_keyword("OPTIONAL"@, t);
    lemma_other_keyword(b, "UNIQUE"@);
}

/// A primitive with a size is read as the primitive.
pub proof fn law_sizes_are_dropped(p: Seq<char>, rest: Seq<char>)
    requires
        p == "INTEGER"@ || p == "REAL"@ || p == "STRING"@ || p == "LOGICAL"@ || p == "BOOLEAN"@ || p
            == "NUMBER"@ || p == "BINARY"@,
    ensures
        primitive(p + "("@ + rest) == Some(p),
        primitive(p + " "@ + rest) == Some(p),
        primitive(p) == Some(p),
{
    let a = p + "("@ + rest;
    let b = p + " "@ + rest;
    assert(a.take((p + "("@).len() as int) =~= p + "("@);
    assert(b.take((p + " "@).len() as int) =~= p + " "@);
    lemma_heads();
    assert(a[0] == p[0] && a[1] == p[1]);
    assert(b[0] == p[0] && b[1] == p[1]);
    lemma_not_primitives(a, p);
    lemma_not_primitives(b, p);
    lemma_not_primitives(p, p);
}

proof fn lemma_heads()
    ensures
        "INTEGER"@.len() == 7 && "INTEGER"@[0] == 'I' && "INTEGER"@[1] == 'N',
        "REAL"@.len() == 4 && "REAL"@[0] == 'R' && "REAL"@[1] == 'E',
        "STRING"@.len() == 6 && "STRING"@[0] == 'S' && "STRING"@[1] == 'T',
        "LOGICAL"@.len() == 7 && "LOGICAL"@[0] == 'L' && "LOGICAL"@[1] == 'O',
        "BOOLEAN"@.len() == 7 && "BOOLEAN"@[0] == 'B' && "BOOLEAN"@[1] == 'O',
        "NUMBER"@.len() == 6 && "NUMBER"@[0] == 'N' && "NUMBER"@[1] == 'U',
        "BINARY"@.len() == 6 && "BINARY"@[0] == 'B' && "BINARY"@[1] == 'I',
{
    reveal_strlit("INTEGER");
    reveal_strlit("REAL");
    reveal_strlit("STRING");
    reveal_strlit("LOGICAL");
    reveal_strlit("BOOLEAN");
    reveal_strlit("NUMBER");
    reveal_strlit("BINARY");
}

proof fn lemma_primitive_first(up: Seq<char>, q: Seq<char>)
    requires
        q.len() > 1,
        is_primitive(up, q),
    ensures
        up.len() > 1,
        up[0] == q[0],
        up[1] == q[1],
{
    if up != q {
        if starts_with(up, q + "("@) {
            assert(up.take((q + "("@).len() as int)[0] == q[0]);
            assert(up.take((q + "("@).len() as int)[1] == q[1]);
        } else {
            assert(up.take((q + " "@).len() as int)[0] == q[0]);
            assert(up.take((q + " "@).len() as int)[1] == q[1]);
        }
    }
}

proof fn lemma_not_primitives(up: Seq<char>, p: Seq<char>)
    requires
        p == "INTEGER"@ || p == "REAL"@ || p == "STRING"@ || p == "LOGICAL"@ || p == "BOOLEAN"@ || p
            == "NUMBER"@ || p == "BINARY"@,
        up.len() > 1,
        up[0] == p[0],
        up[1] == p[1],
        is_primitive(up, p),
    ensures
        primitive(up) == Some(p),
{
    lemma_heads();
    if is_primitive(up, "INTEGER"@) {
        lemma_primitive_first(up, "INTEGER"@);
    }
    if is_primitive(up, "REAL"@) {
        lemma_primitive_first(up, "REAL"@);
    }
    if is_primitive(up, "STRING"@) {
        lemma_primitive_first(up, "STRING"@);
    }
    if is_primitive(up, "LOGICAL"@) {
        lemma_primitive_first(up, "LOGICAL"@);
    }
    if is_primitive(up, "BOOLEAN"@) {
        lemma_primitive_first(up, "BOOLEAN"@);
    }
    if is_primitive(up, "NUMBER"@) {
        lemma_primitive_first(up, "NUMBER"@);
    }
    if is_primitive(up, "BINARY"@) {
        lemma_primitive_first(up, "BINARY"@);
    }
}

proof fn lemma_flat(s: Seq<char>)
    requires
        forall|i: int| 0 <= i < s.len() ==> #[trigger] s[i] != '(' && s[i] != ')',
    ensures
        depth(s, Brackets::Round) == 0,
    decreases s.len(),
{
    if s.len() > 0 {
        let d = s.drop_last();
        assert forall|i: int| 0 <= i < d.len() implies #[trigger] d[i] != '(' && d[i] != ')' by {
            assert(d[i] == s[i]);
        }
        lemma_flat(d);
        assert(s[s.len() - 1] == s.last());
    }
}

proof fn lemma_in_brackets(body: Seq<char>)
    requires
        forall|i: int| 0 <= i < body.len() ==> #[trigger] body[i] != '(' && body[i] != ')',
    ensures
        paren_content(seq!['('] + body + seq![')']) == Ok::<Seq<char>, Seq<char>>(body),
{
    reveal_strlit("(");
    let t = seq!['('] + body + seq![')'];
    let n = body.len() as int + 1;
    assert(t[0] == '(');
    assert("("@ =~= seq!['(']);
    assert(t.take(1) =~= "("@);
    law_trimmed_stays(t);
    law_close_index_is_first(t, Brackets::Round, 0);
    assert(t[n] == ')');
    lemma_flat(body);
    crate::text_laws::law_depth_adds_up(seq!['('], body, Brackets::Round);
    crate::text_laws::law_depth_adds_up(seq!['('] + body, seq![')'], Brackets::Round);
    reveal_with_fuel(depth, 2);
    assert(seq!['('].drop_last() =~= seq![]);
    assert(seq![')'].drop_last() =~= seq![]);
    assert(t.take(n + 1) =~= t);
    assert(depth(t, Brackets::Round) == 0);
    let found = close_index(t, Brackets::Round, 0);
    if found is Some {
        let i = found->0;
        if i < n {
            if i > 0 {
                assert(t[i] == body[i - 1]);
            }
        }
    } else {
        assert(depth(t.take(n + 1), Brackets::Round) == 0);
    }
    assert(t.subrange(1, n) =~= body);
}

/// An enumeration is read as the names of its list.
pub proof fn law_enumeration_is_read(body: Seq<char>)
    requires
        forall|i: int| 0 <= i < body.len() ==> #[trigger] body[i] != '(' && body[i] != ')',
    ensures
        parse_type(
            "ENUMERATION"@ + seq![' '] + ("OF"@ + seq![' '] + (seq!['('] + body + seq![')'])),
        ) == Ok::<TypeModel, Seq<char>>(TypeModel::Enumeration(list_names(body))),
{
    reveal_strlit("ENUMERATION");
    reveal_strlit("OF");
    reveal_strlit("OPTIONAL");
    reveal_strlit("LIST");
    reveal_strlit("SET");
    reveal_strlit("BAG");
    reveal_strlit("ARRAY");
    reveal_strlit("SELECT");
    reveal_strlit("BASED_ON");
    let inner = seq!['('] + body + seq![')'];
    let of = "OF"@ + seq![' '] + inner;
    let t = "ENUMERATION"@ + seq![' '] + of;
    assert(t[0] == 'E');
    assert(of[0] == 'O');
    assert(inner[0] == '(');
    assert(t.last() == ')');
    law_trimmed_stays(t);
    law_trimmed_stays(of);
    lemma_keyword("ENUMERATION"@, of);
    lemma_keyword("OF"@, inner);
    lemma_other_keyword(t, "OPTIONAL"@);
    lemma_other_keyword(t, "LIST"@);
    lemma_other_keyword(t, "SET"@);
    lemma_other_keyword(t, "BAG"@);
    lemma_other_keyword(t, "ARRAY"@);
    lemma_other_keyword(t, "SELECT"@);
    lemma_other_keyword(of, "BASED_ON"@);
    lemma_in_brackets(body);
    assert(of.last() == ')');
    assert(enumeration_tail(of) == Ok::<Seq<char>, Seq<char>>(of));
    assert(enumeration(of) == Ok::<TypeModel, Seq<char>>(TypeModel::Enumeration(list_names(body))));
}

} // verus!
