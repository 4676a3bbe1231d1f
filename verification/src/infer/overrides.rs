//! Explicit decisions that replace those of the rules.

use crate::names::{ordered, push_item, NameSet, Table};
use crate::text::{join3, same};
use vstd::prelude::*;
use vstd::string::*;

verus! {

broadcast use vstd::string::group_string_axioms;

/// The explicit decisions of one stage, keyed by unit name.
pub struct OverrideFile<T: DeepView> {
    pub entity: Table<T>,
    pub group: Table<T>,
    pub arena: Table<T>,
}

impl<T: DeepView> Default for OverrideFile<T> {
    fn default() -> (r: Self)
        ensures
            r.entity@ == Map::<Seq<char>, T::V>::empty(),
            r.group@ == Map::<Seq<char>, T::V>::empty(),
            r.arena@ == Map::<Seq<char>, T::V>::empty(),
    {
        OverrideFile { entity: Table::new(), group: Table::new(), arena: Table::new() }
    }
}

/// What is wrong with an override file.
#[derive(Debug)]
pub struct OverrideError {
    pub messages: Vec<String>,
}

/// Each message on a line of its own.
pub open spec fn message_lines(messages: Seq<Seq<char>>) -> Seq<char>
    decreases messages.len(),
{
    if messages.len() == 0 {
        seq![]
    } else {
        message_lines(messages.drop_last()) + messages.last() + "\n"@
    }
}

impl OverrideError {
    /// The messages, each on a line of its own.
    pub fn text(&self) -> (r: String)
        ensures
            r@ == message_lines(self.messages.deep_view()),
    {
        let ghost all = self.messages.deep_view();
        let mut r = String::new();
        let mut i: usize = 0;
        assert(all.take(0) =~= seq![]);
        while i < self.messages.len()
            invariant
                i <= self.messages@.len(),
                all == self.messages.deep_view(),
                all.len() == self.messages@.len(),
                r@ == message_lines(all.take(i as int)),
            decreases self.messages@.len() - i,
        {
            proof {
                assert(all.take(i + 1).drop_last() =~= all.take(i as int));
                assert(all.take(i + 1).last() == self.messages@[i as int]@);
            }
            r.append(self.messages[i].as_str());
            r.append("\n");
            i += 1;
        }
        assert(all.take(i as int) =~= all);
        r
    }
}

/// The complaint about a key that names no known unit.
pub open spec fn unknown_key(filename: Seq<char>, section: Seq<char>, key: Seq<char>) -> Seq<char> {
    filename + ": ["@ + section + "."@ + key + "] references unknown "@ + section
        + " (not present in any schema). Remove or fix the key."@
}

/// The complaints about those of `keys` that are not known.
pub open spec fn unknown_keys(
    filename: Seq<char>,
    section: Seq<char>,
    keys: Seq<Seq<char>>,
    known: Set<Seq<char>>,
) -> Seq<Seq<char>>
    decreases keys.len(),
{
    if keys.len() == 0 {
        seq![]
    } else {
        let before = unknown_keys(filename, section, keys.drop_last(), known);
        if known.contains(keys.last()) {
            before
        } else {
            before.push(unknown_key(filename, section, keys.last()))
        }
    }
}

/// Without complaints all keys are known, and the other way round.
pub proof fn lemma_no_unknown_keys(
    filename: Seq<char>,
    section: Seq<char>,
    keys: Seq<Seq<char>>,
    known: Set<Seq<char>>,
)
    ensures
        unknown_keys(filename, section, keys, known).len() == 0 <==> forall|i: int|
            0 <= i < keys.len() ==> known.contains(#[trigger] keys[i]),
    decreases keys.len(),
{
    if keys.len() > 0 {
        lemma_no_unknown_keys(filename, section, keys.drop_last(), known);
        assert forall|i: int| 0 <= i < keys.len() - 1 implies keys.drop_last()[i]
            == #[trigger] keys[i] by {}
        if unknown_keys(filename, section, keys, known).len() == 0 {
            assert forall|i: int| 0 <= i < keys.len() implies known.contains(
                #[trigger] keys[i],
            ) by {
                if i < keys.len() - 1 {
                    assert(known.contains(keys.drop_last()[i]));
                }
            }
        }
        if forall|i: int| 0 <= i < keys.len() ==> known.contains(#[trigger] keys[i]) {
            assert(known.contains(keys[keys.len() - 1]));
            assert forall|i: int| 0 <= i < keys.len() - 1 implies known.contains(
                #[trigger] keys.drop_last()[i],
            ) by {
                assert(known.contains(keys[i]));
            }
        }
    }
}

/// The keys of the named section; none for any other name.
pub open spec fn section_keys<T: DeepView>(
    over: OverrideFile<T>,
    section: Seq<char>,
) -> Set<Seq<char>> {
    if section == "entity"@ {
        over.entity@.dom()
    } else if section == "group"@ {
        over.group@.dom()
    } else if section == "arena"@ {
        over.arena@.dom()
    } else {
        Set::empty()
    }
}

fn check_keys<T: DeepView>(t: &Table<T>, section: &str, known: &NameSet, filename: &str) -> (r: Vec<
    String,
>)
    ensures
        r.deep_view() == unknown_keys(filename@, section@, ordered(t@.dom()), known@),
{
    let n = t.len();
    let ghost o = ordered(t@.dom());
    let mut errs: Vec<String> = Vec::new();
    let mut i: usize = 0;
    proof {
        assert(o.take(0) =~= seq![]);
        assert(errs.deep_view() =~= seq![]);
    }
    while i < n
        invariant
            i <= n,
            n == o.len(),
            o == ordered(t@.dom()),
            errs.deep_view() == unknown_keys(filename@, section@, o.take(i as int), known@),
        decreases n - i,
    {
        assert(o.take(i + 1).drop_last() =~= o.take(i as int));
        let key = t.key_at(i);
        if !known.contains(key.as_str()) {
            let mut e: String = join3(filename, ": [", section);
            e.append(".");
            e.append(key.as_str());
            e.append("] references unknown ");
            e.append(section);
            e.append(" (not present in any schema). Remove or fix the key.");
            push_item(&mut errs, e);
        }
        i += 1;
    }
    assert(o.take(i as int) =~= o);
    errs
}

/// Complains about each key of the section that names no known unit.
pub fn validate_known<T: DeepView>(
    over: &OverrideFile<T>,
    section: &str,
    known: &NameSet,
    filename: &str,
) -> (r: Vec<String>)
    ensures
        r.deep_view() == unknown_keys(
            filename@,
            section@,
            ordered(section_keys(*over, section@)),
            known@,
        ),
{
    if same(section, "entity") {
        check_keys(&over.entity, section, known, filename)
    } else if same(section, "group") {
        check_keys(&over.group, section, known, filename)
    } else if same(section, "arena") {
        check_keys(&over.arena, section, known, filename)
    } else {
        let r: Vec<String> = Vec::new();
        proof {
            crate::names::lemma_ordered(Set::<Seq<char>>::empty());
            assert(r.deep_view() =~= seq![]);
        }
        r
    }
}

/// The complaints about unknown keys: one for each key that is not known, in the
/// order of the keys, and none for the others.
pub proof fn law_unknown_keys_in_parts(
    filename: Seq<char>,
    section: Seq<char>,
    a: Seq<Seq<char>>,
    b: Seq<Seq<char>>,
    key: Seq<char>,
    known: Set<Seq<char>>,
)
    ensures
        unknown_keys(filename, section, a + b, known) == unknown_keys(filename, section, a, known)
            + unknown_keys(filename, section, b, known),
        known.contains(key) ==> unknown_keys(filename, section, seq![key], known).len() == 0,
        !known.contains(key) ==> unknown_keys(filename, section, seq![key], known) == seq![
            filename + ": ["@ + section + "."@ + key + "] references unknown "@ + section
                + " (not present in any schema). Remove or fix the key."@,
        ],
    decreases b.len(),
{
    reveal_with_fuel(unknown_keys, 2);
    let q = seq![key];
    assert(q.drop_last() =~= seq![]);
    if !known.contains(key) {
        assert(unknown_keys(filename, section, q, known) =~= seq![
            unknown_key(filename, section, key),
        ]);
    }
    let x = unknown_keys(filename, section, a, known);
    if b.len() == 0 {
        assert(a + b =~= a);
        assert(x + Seq::<Seq<char>>::empty() =~= x);
    } else {
        law_unknown_keys_in_parts(filename, section, a, b.drop_last(), key, known);
        assert((a + b).drop_last() =~= a + b.drop_last());
        assert((a + b).last() == b.last());
        assert(unknown_keys(filename, section, a + b, known) =~= x + unknown_keys(
            filename,
            section,
            b,
            known,
        ));
    }
}

/// The three sections of a file of decisions have the keys of their tables; there is no
/// other section.
pub proof fn law_sections<T: DeepView>(over: OverrideFile<T>, section: Seq<char>)
    ensures
        section_keys(over, "entity"@) == over.entity@.dom(),
        section_keys(over, "group"@) == over.group@.dom(),
        section_keys(over, "arena"@) == over.arena@.dom(),
        section != "entity"@ && section != "group"@ && section != "arena"@ ==> section_keys(
            over,
            section,
        ) == Set::<Seq<char>>::empty(),
{
    reveal_strlit("entity");
    reveal_strlit("group");
    reveal_strlit("arena");
    assert("entity"@.len() != "group"@.len());
    assert("entity"@.len() != "arena"@.len());
    assert("group"@[0] != "arena"@[0]);
}

} // verus!
