//! Which entities a source text handles: those named in its attribute count
//! checks.

use crate::names::NameSet;
use crate::patterns::{each_first_group, find_groups};
use vstd::prelude::*;

verus! {

/// An attribute count check; the group is the name of the entity.
pub const COUNT_CHECK: &'static str = r#"check_count\(attrs,\s*\d+,\s*entity_id,\s*"([A-Z_0-9]+)"\)"#;

/// The names among what the groups of a search hold.
pub open spec fn names_in(groups: Seq<Option<Seq<char>>>) -> Set<Seq<char>> {
    Set::new(|x: Seq<char>| groups.contains(Some(x)))
}

/// Adds the names that the groups of a search hold.
pub fn add_names(groups: Vec<Option<String>>, names: &mut NameSet)
    ensures
        final(names)@ == old(names)@.union(names_in(groups.deep_view())),
{
    let ghost before = names@;
    let ghost all = groups.deep_view();
    let mut i: usize = 0;
    assert(before.union(names_in(all.take(0))) =~= before);
    while i < groups.len()
        invariant
            i <= groups@.len(),
            all == groups.deep_view(),
            names@ == before.union(names_in(all.take(i as int))),
        decreases groups@.len() - i,
    {
        let ghost a = all.take(i as int);
        let ghost b = all.take(i + 1);
        let ghost mid = names@;
        proof {
            assert(all[i as int] == groups@[i as int].deep_view());
            assert forall|g: Option<Seq<char>>| #[trigger] b.contains(g) <==> a.contains(g) || g
                == all[i as int] by {
                if b.contains(g) {
                    let j = choose|j: int| 0 <= j < b.len() && b[j] == g;
                    if j < i {
                        assert(a[j] == g);
                    }
                }
                if a.contains(g) {
                    let j = choose|j: int| 0 <= j < a.len() && a[j] == g;
                    assert(b[j] == g);
                }
                assert(b[i as int] == all[i as int]);
            }
        }
        if let Some(n) = &groups[i] {
            names.insert(n.clone());
        }
        assert(names@ =~= before.union(names_in(b)));
        i += 1;
    }
    assert(all.take(i as int) =~= all);
}

/// Adds the entities that a source text handles.
pub fn scan_text(text: &str, names: &mut NameSet)
    ensures
        final(names)@ == old(names)@.union(names_in(each_first_group(COUNT_CHECK@, text@))),
{
    add_names(find_groups(COUNT_CHECK, text), names);
}

/// The names found are those that some group holds, whatever the order.
pub proof fn law_names_are_gathered(
    a: Seq<Option<Seq<char>>>,
    b: Seq<Option<Seq<char>>>,
    x: Seq<char>,
)
    ensures
        names_in(a + b) == names_in(a).union(names_in(b)),
        names_in(seq![Some(x)]) == set![x],
        names_in(seq![None]) == Set::<Seq<char>>::empty(),
{
    assert forall|y: Seq<char>| names_in(a + b).contains(y) <==> names_in(a).contains(y)
        || names_in(b).contains(y) by {
        let g = Some(y);
        if (a + b).contains(g) {
            let i = choose|i: int| 0 <= i < (a + b).len() && (a + b)[i] == g;
            if i < a.len() {
                assert(a[i] == g);
            } else {
                assert(b[i - a.len()] == g);
            }
        }
        if a.contains(g) {
            let i = choose|i: int| 0 <= i < a.len() && a[i] == g;
            assert((a + b)[i] == g);
        }
        if b.contains(g) {
            let i = choose|i: int| 0 <= i < b.len() && b[i] == g;
            assert((a + b)[a.len() + i] == g);
        }
    }
    assert(names_in(a + b) =~= names_in(a).union(names_in(b)));
    let one = seq![Some(x)];
    assert(one[0] == Some(x));
    assert(names_in(one) =~= set![x]);
    assert(names_in(seq![None]) =~= Set::<Seq<char>>::empty());
}

} // verus!
