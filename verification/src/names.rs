//! Collections keyed by name, kept in the order of `str`.

use crate::text::{
    chars_of, lemma_precedes_irreflexive, lemma_precedes_total, lemma_precedes_transitive, precedes,
    rank, same, Rank,
};
use vstd::prelude::*;

verus! {

/// Values that can be copied without loss.
pub trait Duplicate: Sized + DeepView {
    /// A value with the same contents.
    fn duplicate(&self) -> (r: Self)
        ensures
            r.deep_view() == self.deep_view(),
    ;
}

impl Duplicate for bool {
    fn duplicate(&self) -> Self {
        *self
    }
}

impl Duplicate for usize {
    fn duplicate(&self) -> Self {
        *self
    }
}

impl Duplicate for String {
    fn duplicate(&self) -> Self {
        self.clone()
    }
}

impl<T: Duplicate> Duplicate for Vec<T> {
    fn duplicate(&self) -> Self {
        let mut r: Vec<T> = Vec::new();
        let mut i: usize = 0;
        while i < self.len()
            invariant
                i <= self@.len(),
                r@.len() == i,
                forall|j: int| 0 <= j < i ==> #[trigger] r@[j].deep_view() == self@[j].deep_view(),
            decreases self@.len() - i,
        {
            r.push(self[i].duplicate());
            i += 1;
        }
        assert(r.deep_view() =~= self.deep_view());
        r
    }
}

impl<T: Duplicate> Duplicate for Option<T> {
    fn duplicate(&self) -> Self {
        match self {
            Some(x) => Some(x.duplicate()),
            None => None,
        }
    }
}

/// Adds `x` at the end of `v`.
pub fn push_item<T: DeepView>(v: &mut Vec<T>, x: T)
    ensures
        final(v).deep_view() == old(v).deep_view().push(x.deep_view()),
{
    let ghost before = v.deep_view();
    let ghost dx = x.deep_view();
    v.push(x);
    assert(v.deep_view() =~= before.push(dx));
}

/// Adds the items of `w` at the end of `v`.
pub fn append_items<T: DeepView>(v: &mut Vec<T>, w: Vec<T>)
    ensures
        final(v).deep_view() == old(v).deep_view() + w.deep_view(),
{
    let ghost before = v.deep_view();
    let ghost dw = w.deep_view();
    let mut w = w;
    v.append(&mut w);
    assert(v.deep_view() =~= before + dw);
}

/// Each name precedes the ones after it.
pub open spec fn sorted(q: Seq<Seq<char>>) -> bool {
    forall|i: int, j: int| 0 <= i < j < q.len() ==> #[trigger] precedes(q[i], q[j])
}

/// The names of a finite set in order.
pub open spec fn ordered(s: Set<Seq<char>>) -> Seq<Seq<char>> {
    choose|q: Seq<Seq<char>>| sorted(q) && q.to_set() == s
}

proof fn lemma_sorted_last(a: Seq<Seq<char>>, b: Seq<Seq<char>>)
    requires
        sorted(a),
        sorted(b),
        a.len() > 0,
        b.len() > 0,
        forall|x: Seq<char>| a.contains(x) <==> b.contains(x),
    ensures
        a.last() == b.last(),
{
    assert(a.contains(a.last()));
    assert(b.contains(b.last()));
    let j = choose|j: int| 0 <= j < b.len() && b[j] == a.last();
    let i = choose|i: int| 0 <= i < a.len() && a[i] == b.last();
    if j < b.len() - 1 {
        assert(precedes(b[j], b[b.len() - 1]));
        if i < a.len() - 1 {
            assert(precedes(a[i], a[a.len() - 1]));
            lemma_precedes_transitive(a.last(), b.last(), a.last());
        }
        lemma_precedes_irreflexive(a.last());
    }
}

/// A set of names has one ordering.
pub proof fn lemma_sorted_unique(a: Seq<Seq<char>>, b: Seq<Seq<char>>)
    requires
        sorted(a),
        sorted(b),
        forall|x: Seq<char>| a.contains(x) <==> b.contains(x),
    ensures
        a == b,
    decreases a.len(),
{
    if a.len() == 0 {
        if b.len() > 0 {
            assert(b.contains(b[0]));
        }
        assert(a =~= b);
    } else {
        assert(a.contains(a[0]));
        lemma_sorted_last(a, b);
        let a1 = a.drop_last();
        let b1 = b.drop_last();
        assert forall|x: Seq<char>| a1.contains(x) implies b1.contains(x) by {
            let i = choose|i: int| 0 <= i < a1.len() && a1[i] == x;
            assert(a[i] == x);
            assert(a.contains(x));
            let j = choose|j: int| 0 <= j < b.len() && b[j] == x;
            assert(precedes(a[i], a[a.len() - 1]));
            lemma_precedes_irreflexive(x);
            assert(j < b.len() - 1);
            assert(b1[j] == x);
        }
        assert forall|x: Seq<char>| b1.contains(x) implies a1.contains(x) by {
            let i = choose|i: int| 0 <= i < b1.len() && b1[i] == x;
            assert(b[i] == x);
            assert(b.contains(x));
            let j = choose|j: int| 0 <= j < a.len() && a[j] == x;
            assert(precedes(b[i], b[b.len() - 1]));
            lemma_precedes_irreflexive(x);
            assert(j < a.len() - 1);
            assert(a1[j] == x);
        }
        lemma_sorted_unique(a1, b1);
        assert(a =~= a1.push(a.last()));
        assert(b =~= b1.push(b.last()));
    }
}

/// A sorted sequence is the ordering of the set of its names.
pub proof fn lemma_ordered_is(q: Seq<Seq<char>>)
    requires
        sorted(q),
    ensures
        ordered(q.to_set()) == q,
{
    let s = q.to_set();
    let o = ordered(s);
    assert(sorted(q) && q.to_set() == s);
    assert(sorted(o) && o.to_set() == s);
    assert forall|x: Seq<char>| q.contains(x) <==> o.contains(x) by {
        assert(q.contains(x) == q.to_set().contains(x));
        assert(o.contains(x) == o.to_set().contains(x));
    }
    lemma_sorted_unique(q, o);
}

/// No name stands twice in a sorted sequence.
pub proof fn lemma_sorted_distinct(q: Seq<Seq<char>>, i: int, j: int)
    requires
        sorted(q),
        0 <= i < q.len(),
        0 <= j < q.len(),
        q[i] == q[j],
    ensures
        i == j,
{
    lemma_precedes_irreflexive(q[i]);
    if i < j {
        assert(precedes(q[i], q[j]));
    } else if j < i {
        assert(precedes(q[j], q[i]));
    }
}

proof fn lemma_insert_sorted(q: Seq<Seq<char>>, k: Seq<char>) -> (p: Seq<Seq<char>>)
    requires
        sorted(q),
        !q.contains(k),
    ensures
        sorted(p),
        p.to_set() == q.to_set().insert(k),
    decreases q.len(),
{
    if q.len() == 0 {
        let p = seq![k];
        assert(p.to_set() =~= q.to_set().insert(k)) by {
            assert(p[0] == k);
            assert forall|x: Seq<char>| p.to_set().contains(x) <==> x == k by {
                if x == k {
                    assert(p.contains(p[0]));
                }
            }
        }
        p
    } else {
        let l = q.last();
        let q1 = q.drop_last();
        assert(q.contains(l));
        lemma_precedes_total(k, l);
        assert forall|x: Seq<char>| q.contains(x) <==> q1.contains(x) || x == l by {
            if q.contains(x) {
                let i = choose|i: int| 0 <= i < q.len() && q[i] == x;
                if i < q.len() - 1 {
                    assert(q1[i] == x);
                }
            }
            if q1.contains(x) {
                let i = choose|i: int| 0 <= i < q1.len() && q1[i] == x;
                assert(q[i] == x);
            }
        }
        if precedes(l, k) {
            let p = q.push(k);
            assert forall|i: int, j: int| 0 <= i < j < p.len() implies #[trigger] precedes(
                p[i],
                p[j],
            ) by {
                if j == q.len() && i < q.len() - 1 {
                    assert(precedes(q[i], q[q.len() - 1]));
                    lemma_precedes_transitive(q[i], l, k);
                } else if j < q.len() {
                    assert(precedes(q[i], q[j]));
                }
            }
            assert forall|x: Seq<char>| p.contains(x) <==> q.contains(x) || x == k by {
                if q.contains(x) {
                    let i = choose|i: int| 0 <= i < q.len() && q[i] == x;
                    assert(p[i] == x);
                }
                assert(p[q.len() as int] == k);
            }
            assert(p.to_set() =~= q.to_set().insert(k));
            p
        } else {
            let p1 = lemma_insert_sorted(q1, k);
            let p = p1.push(l);
            assert forall|x: Seq<char>| p1.contains(x) <==> q1.contains(x) || x == k by {
                assert(p1.contains(x) == p1.to_set().contains(x));
                assert(q1.contains(x) == q1.to_set().contains(x));
            }
            assert forall|i: int, j: int| 0 <= i < j < p.len() implies #[trigger] precedes(
                p[i],
                p[j],
            ) by {
                if j == p1.len() {
                    assert(p1.contains(p1[i]));
                    if p1[i] != k {
                        let m = choose|m: int| 0 <= m < q1.len() && q1[m] == p1[i];
                        assert(precedes(q[m], q[q.len() - 1]));
                    }
                } else {
                    assert(precedes(p1[i], p1[j]));
                }
            }
            assert forall|x: Seq<char>| p.contains(x) <==> q.contains(x) || x == k by {
                if p1.contains(x) {
                    let i = choose|i: int| 0 <= i < p1.len() && p1[i] == x;
                    assert(p[i] == x);
                }
                assert(p[p1.len() as int] == l);
                if p.contains(x) {
                    let i = choose|i: int| 0 <= i < p.len() && p[i] == x;
                    if i < p1.len() {
                        assert(p1[i] == x);
                    }
                }
            }
            assert(p.to_set() =~= q.to_set().insert(k));
            p
        }
    }
}

proof fn lemma_ordering_exists(s: Set<Seq<char>>) -> (q: Seq<Seq<char>>)
    requires
        s.finite(),
    ensures
        sorted(q),
        q.to_set() == s,
    decreases s.len(),
{
    if s.len() == 0 {
        let q = Seq::<Seq<char>>::empty();
        assert(q.to_set() =~= s);
        q
    } else {
        let k = s.choose();
        let q = lemma_ordering_exists(s.remove(k));
        assert(!q.contains(k)) by {
            assert(q.contains(k) == q.to_set().contains(k));
        }
        let p = lemma_insert_sorted(q, k);
        assert(s.remove(k).insert(k) =~= s);
        p
    }
}

/// The ordering of a finite set holds each of its names once, in order.
pub proof fn lemma_ordered(s: Set<Seq<char>>)
    requires
        s.finite(),
    ensures
        sorted(ordered(s)),
        ordered(s).to_set() == s,
        ordered(s).len() == s.len(),
        forall|x: Seq<char>| ordered(s).contains(x) <==> s.contains(x),
        forall|i: int| 0 <= i < ordered(s).len() ==> s.contains(#[trigger] ordered(s)[i]),
{
    let q = lemma_ordering_exists(s);
    assert(sorted(q) && q.to_set() == s);
    let o = ordered(s);
    assert(o.no_duplicates()) by {
        assert forall|i: int, j: int| 0 <= i < o.len() && 0 <= j < o.len() && i != j implies o[i]
            != o[j] by {
            if o[i] == o[j] {
                lemma_sorted_distinct(o, i, j);
            }
        }
    }
    o.unique_seq_to_set();
    assert forall|x: Seq<char>| o.contains(x) <==> s.contains(x) by {
        assert(o.contains(x) == o.to_set().contains(x));
    }
    assert forall|i: int| 0 <= i < o.len() implies s.contains(#[trigger] o[i]) by {
        assert(o.contains(o[i]));
    }
}

spec fn entry_keys<V>(entries: Seq<(String, V)>) -> Seq<Seq<char>> {
    Seq::new(entries.len(), |i: int| entries[i].0@)
}

/// A map from names to values.
#[derive(Debug, PartialEq, Eq)]
pub struct Table<V: DeepView> {
    entries: Vec<(String, V)>,
}

/// Looks `key` up by halving: either where it stands, or where it would go.
fn search<V>(entries: &Vec<(String, V)>, key: &[char]) -> (r: (bool, usize))
    requires
        sorted(entry_keys(entries@)),
    ensures
        r.1 <= entries@.len(),
        r.0 ==> r.1 < entries@.len() && entries@[r.1 as int].0@ == key@,
        r.0 <==> entry_keys(entries@).contains(key@),
        !r.0 ==> forall|i: int|
            0 <= i < r.1 ==> precedes(#[trigger] entries@[i].0@, key@),
        !r.0 ==> forall|i: int|
            r.1 <= i < entries@.len() ==> precedes(key@, #[trigger] entries@[i].0@),
{
    let ghost q = entry_keys(entries@);
    let mut lo: usize = 0;
    let mut hi: usize = entries.len();
    while lo < hi
        invariant
            lo <= hi <= entries@.len(),
            q == entry_keys(entries@),
            sorted(q),
            forall|i: int| 0 <= i < lo ==> precedes(#[trigger] entries@[i].0@, key@),
            forall|i: int| hi <= i < entries@.len() ==> precedes(key@, #[trigger] entries@[i].0@),
        decreases hi - lo,
    {
        let mid: usize = lo + (hi - lo) / 2;
        match rank(chars_of(entries[mid].0.as_str()).as_slice(), key) {
            Rank::Same => {
                assert(q[mid as int] == key@);
                return (true, mid);
            },
            Rank::Before => {
                assert forall|i: int| 0 <= i < mid + 1 implies precedes(
                    #[trigger] entries@[i].0@,
                    key@,
                ) by {
                    if i < mid {
                        assert(precedes(q[i], q[mid as int]));
                        lemma_precedes_transitive(q[i], q[mid as int], key@);
                    }
                }
                lo = mid + 1;
            },
            Rank::After => {
                assert forall|i: int| mid <= i < entries@.len() implies precedes(
                    key@,
                    #[trigger] entries@[i].0@,
                ) by {
                    if i > mid {
                        assert(precedes(q[mid as int], q[i]));
                        lemma_precedes_transitive(key@, q[mid as int], q[i]);
                    }
                }
                hi = mid;
            },
        }
    }
    proof {
        if q.contains(key@) {
            let i = choose|i: int| 0 <= i < q.len() && q[i] == key@;
            assert(entries@[i].0@ == key@);
            lemma_precedes_irreflexive(key@);
        }
    }
    (false, lo)
}

impl<V: DeepView> Table<V> {
    #[verifier::type_invariant]
    spec fn in_order(self) -> bool {
        sorted(entry_keys(self.entries@))
    }

    /// The contents as a map.
    pub closed spec fn view(&self) -> Map<Seq<char>, V::V> {
        Map::new(
            |k: Seq<char>| entry_keys(self.entries@).contains(k),
            |k: Seq<char>| self.entries@[entry_keys(self.entries@).index_of(k)].1.deep_view(),
        )
    }

    proof fn lemma_view(&self)
        requires
            self.in_order(),
        ensures
            self@.dom().finite(),
            ordered(self@.dom()) == entry_keys(self.entries@),
            self@.len() == self.entries@.len(),
            forall|i: int|
                0 <= i < self.entries@.len() ==> self@.contains_key(
                    #[trigger] self.entries@[i].0@,
                ) && self@[self.entries@[i].0@] == self.entries@[i].1.deep_view(),
            forall|k: Seq<char>|
                self@.contains_key(k) ==> exists|i: int|
                    0 <= i < self.entries@.len() && #[trigger] self.entries@[i].0@ == k,
    {
        let q = entry_keys(self.entries@);
        assert(q.to_set() =~= self@.dom()) by {
            assert forall|k: Seq<char>| q.to_set().contains(k) <==> self@.dom().contains(k) by {
                assert(q.to_set().contains(k) == q.contains(k));
            }
        }
        lemma_ordered_is(q);
        vstd::seq_lib::seq_to_set_is_finite(q);
        assert forall|i: int| 0 <= i < self.entries@.len() implies self@.contains_key(
            #[trigger] self.entries@[i].0@,
        ) && self@[self.entries@[i].0@] == self.entries@[i].1.deep_view() by {
            let k = q[i];
            assert(q.contains(k));
            lemma_sorted_distinct(q, i, q.index_of(k));
        }
        lemma_ordered(self@.dom());
        assert forall|k: Seq<char>| self@.contains_key(k) implies exists|i: int|
            0 <= i < self.entries@.len() && #[trigger] self.entries@[i].0@ == k by {
            let i = choose|i: int| 0 <= i < q.len() && q[i] == k;
            assert(self.entries@[i].0@ == k);
        }
    }
}

impl<V: DeepView> DeepView for Table<V> {
    type V = Map<Seq<char>, V::V>;

    open spec fn deep_view(&self) -> Map<Seq<char>, V::V> {
        self@
    }
}

impl<V: DeepView> Table<V> {
    /// A table without entries.
    pub fn new() -> (t: Self)
        ensures
            t@ == Map::<Seq<char>, V::V>::empty(),
    {
        let entries: Vec<(String, V)> = Vec::new();
        let t = Table { entries };
        assert(t@ =~= Map::<Seq<char>, V::V>::empty());
        t
    }

    /// The number of entries.
    pub fn len(&self) -> (n: usize)
        ensures
            n == self@.len(),
            n == ordered(self@.dom()).len(),
            self@.dom().finite(),
    {
        proof {
            use_type_invariant(self);
            self.lemma_view();
        }
        self.entries.len()
    }

    pub fn is_empty(&self) -> (r: bool)
        ensures
            r == (self@.len() == 0),
            r == (self@ == Map::<Seq<char>, V::V>::empty()),
            self@.dom().finite(),
    {
        proof {
            use_type_invariant(self);
            self.lemma_view();
            if self@.len() == 0 {
                assert(self@.dom() =~= Set::empty());
                assert(self@ =~= Map::<Seq<char>, V::V>::empty());
            }
        }
        self.entries.len() == 0
    }

    /// The `i`-th name in order.
    pub fn key_at(&self, i: usize) -> (k: &String)
        requires
            i < ordered(self@.dom()).len(),
        ensures
            k@ == ordered(self@.dom())[i as int],
            self@.contains_key(k@),
    {
        proof {
            use_type_invariant(self);
            self.lemma_view();
        }
        &self.entries[i].0
    }

    /// The value of the `i`-th name in order.
    pub fn value_at(&self, i: usize) -> (v: &V)
        requires
            i < ordered(self@.dom()).len(),
        ensures
            v.deep_view() == self@[ordered(self@.dom())[i as int]],
            self@.contains_key(ordered(self@.dom())[i as int]),
    {
        proof {
            use_type_invariant(self);
            self.lemma_view();
        }
        &self.entries[i].1
    }

    /// The names in order.
    pub fn keys(&self) -> (r: Vec<String>)
        ensures
            r.deep_view() == ordered(self@.dom()),
            self@.dom().finite(),
    {
        proof {
            use_type_invariant(self);
            self.lemma_view();
        }
        let mut r: Vec<String> = Vec::new();
        let mut i: usize = 0;
        while i < self.entries.len()
            invariant
                i <= self.entries@.len(),
                r@.len() == i,
                forall|j: int| 0 <= j < i ==> #[trigger] r@[j]@ == self.entries@[j].0@,
            decreases self.entries@.len() - i,
        {
            r.push(self.entries[i].0.clone());
            i += 1;
        }
        assert(r.deep_view() =~= entry_keys(self.entries@));
        r
    }

    /// The value stored under `key`.
    pub fn get(&self, key: &str) -> (r: Option<&V>)
        ensures
            r is Some <==> self@.contains_key(key@),
            r matches Some(v) ==> v.deep_view() == self@[key@],
    {
        proof {
            use_type_invariant(self);
            self.lemma_view();
        }
        let kc = chars_of(key);
        let (found, i) = search(&self.entries, kc.as_slice());
        if found {
            Some(&self.entries[i].1)
        } else {
            None
        }
    }

    pub fn contains_key(&self, key: &str) -> (r: bool)
        ensures
            r == self@.contains_key(key@),
    {
        self.get(key).is_some()
    }

    /// Stores `val` under `key`, replacing what was there.
    pub fn insert(&mut self, key: String, val: V)
        ensures
            final(self)@ == old(self)@.insert(key@, val.deep_view()),
    {
        proof {
            use_type_invariant(&*self);
            self.lemma_view();
        }
        let kc = chars_of(key.as_str());
        let ghost e0 = self.entries@;
        let ghost m0 = self@;
        let ghost k = key@;
        let ghost dv = val.deep_view();
        let mut entries: Vec<(String, V)> = Vec::new();
        std::mem::swap(&mut entries, &mut self.entries);
        let (found, i) = search(&entries, kc.as_slice());
        let ghost q0 = entry_keys(e0);
        if found {
            entries.set(i, (key, val));
            assert(entry_keys(entries@) =~= q0);
        } else {
            entries.insert(i, (key, val));
            proof {
                let q = entry_keys(entries@);
                assert(q =~= q0.insert(i as int, k));
                assert forall|a: int, b: int| 0 <= a < b < q.len() implies #[trigger] precedes(
                    q[a],
                    q[b],
                ) by {
                    if b < i {
                        assert(precedes(q0[a], q0[b]));
                    } else if b == i {
                        assert(precedes(e0[a].0@, k));
                    } else if a == i {
                        assert(precedes(k, e0[b - 1].0@));
                    } else if a < i {
                        assert(precedes(q0[a], q0[b - 1]));
                    } else {
                        assert(precedes(q0[a - 1], q0[b - 1]));
                    }
                }
            }
        }
        let ghost e1 = entries@;
        self.entries = entries;
        proof {
            use_type_invariant(&*self);
            self.lemma_view();
            assert forall|x: Seq<char>| self@.contains_key(x) <==> m0.insert(k, dv).contains_key(
                x,
            ) by {
                if self@.contains_key(x) {
                    let j = choose|j: int| 0 <= j < e1.len() && #[trigger] e1[j].0@ == x;
                    if !found && j > i {
                        assert(e0[j - 1] == e1[j]);
                    } else if j != i {
                        assert(e0[j] == e1[j]);
                    }
                }
                if m0.contains_key(x) {
                    let j = choose|j: int| 0 <= j < e0.len() && #[trigger] e0[j].0@ == x;
                    if !found && j >= i {
                        assert(e1[j + 1] == e0[j]);
                    } else if j != i {
                        assert(e1[j] == e0[j]);
                    } else {
                        assert(e1[j].0@ == x);
                    }
                }
                assert(e1[i as int].0@ == k);
            }
            assert forall|x: Seq<char>| self@.contains_key(x) implies self@[x] == m0.insert(
                k,
                dv,
            )[x] by {
                assert(e1[i as int].0@ == k);
                if x != k {
                    let j = choose|j: int| 0 <= j < e1.len() && #[trigger] e1[j].0@ == x;
                    if !found && j > i {
                        assert(e0[j - 1] == e1[j]);
                    } else {
                        assert(e0[j] == e1[j]);
                    }
                }
            }
            assert(self@ =~= m0.insert(k, dv));
        }
    }

    /// Takes the entry under `key` out.
    pub fn remove(&mut self, key: &str) -> (r: Option<V>)
        ensures
            final(self)@ == old(self)@.remove(key@),
            r is Some <==> old(self)@.contains_key(key@),
            r matches Some(v) ==> v.deep_view() == old(self)@[key@],
    {
        proof {
            use_type_invariant(&*self);
            self.lemma_view();
        }
        let kc = chars_of(key);
        let ghost e0 = self.entries@;
        let ghost m0 = self@;
        let ghost q0 = entry_keys(e0);
        let (found, i) = search(&self.entries, kc.as_slice());
        if !found {
            assert(m0.remove(key@) =~= m0);
            return None;
        }
        let mut entries: Vec<(String, V)> = Vec::new();
        std::mem::swap(&mut entries, &mut self.entries);
        let (_, v) = entries.remove(i);
        let ghost e1 = entries@;
        proof {
            let q = entry_keys(e1);
            assert(q =~= q0.remove(i as int));
            assert forall|a: int, b: int| 0 <= a < b < q.len() implies #[trigger] precedes(
                q[a],
                q[b],
            ) by {
                let a0 = if a < i { a } else { a + 1 };
                let b0 = if b < i { b } else { b + 1 };
                assert(precedes(q0[a0], q0[b0]));
            }
        }
        self.entries = entries;
        proof {
            use_type_invariant(&*self);
            self.lemma_view();
            assert forall|x: Seq<char>| self@.contains_key(x) <==> m0.remove(key@).contains_key(
                x,
            ) by {
                if self@.contains_key(x) {
                    let j = choose|j: int| 0 <= j < e1.len() && #[trigger] e1[j].0@ == x;
                    let j0 = if j < i { j } else { j + 1 };
                    assert(e0[j0] == e1[j]);
                    if x == key@ {
                        lemma_sorted_distinct(q0, j0, i as int);
                    }
                }
                if m0.contains_key(x) && x != key@ {
                    let j = choose|j: int| 0 <= j < e0.len() && #[trigger] e0[j].0@ == x;
                    let j1 = if j < i { j } else { j - 1 };
                    assert(e1[j1] == e0[j]);
                }
            }
            assert forall|x: Seq<char>| self@.contains_key(x) implies self@[x] == m0.remove(
                key@,
            )[x] by {
                let j = choose|j: int| 0 <= j < e1.len() && #[trigger] e1[j].0@ == x;
                let j0 = if j < i { j } else { j + 1 };
                assert(e0[j0] == e1[j]);
            }
            assert(self@ =~= m0.remove(key@));
        }
        Some(v)
    }
}

impl<V: Duplicate> Duplicate for Table<V> {
    fn duplicate(&self) -> Self {
        let n = self.len();
        let mut r: Table<V> = Table::new();
        let ghost o = ordered(self@.dom());
        proof {
            lemma_ordered(self@.dom());
        }
        let mut i: usize = 0;
        while i < n
            invariant
                n == o.len(),
                o == ordered(self@.dom()),
                i <= n,
                forall|k: Seq<char>|
                    r@.contains_key(k) <==> exists|j: int| 0 <= j < i && #[trigger] o[j] == k,
                forall|k: Seq<char>| r@.contains_key(k) ==> r@[k] == self@[k],
            decreases n - i,
        {
            let ghost r0 = r@;
            r.insert(self.key_at(i).clone(), self.value_at(i).duplicate());
            proof {
                assert forall|k: Seq<char>|
                    r@.contains_key(k) <==> exists|j: int| 0 <= j < i + 1 && #[trigger] o[j] == k by {
                    if r0.contains_key(k) {
                        let j = choose|j: int| 0 <= j < i && #[trigger] o[j] == k;
                        assert(o[j] == k);
                    }
                    assert(o[i as int] == o[i as int]);
                }
            }
            i += 1;
        }
        proof {
            assert forall|k: Seq<char>| r@.contains_key(k) <==> self@.contains_key(k) by {
                if self@.contains_key(k) {
                    assert(o.contains(k));
                }
            }
            assert(r@ =~= self@);
        }
        r
    }
}

/// A set of names.
#[derive(Debug, PartialEq, Eq)]
pub struct NameSet {
    table: Table<bool>,
}

impl NameSet {
    /// The contents as a set.
    pub closed spec fn view(&self) -> Set<Seq<char>> {
        self.table@.dom()
    }

    /// A set without names.
    pub fn new() -> (s: Self)
        ensures
            s@ == Set::<Seq<char>>::empty(),
    {
        let s = NameSet { table: Table::new() };
        assert(s@ =~= Set::<Seq<char>>::empty());
        s
    }

    /// The set of the names in `v`.
    pub fn from_names(v: &Vec<String>) -> (s: Self)
        ensures
            s@ == v.deep_view().to_set(),
    {
        let mut s = NameSet::new();
        let ghost q = v.deep_view();
        assert(q.take(0).to_set() =~= Set::empty());
        let mut i: usize = 0;
        while i < v.len()
            invariant
                i <= v@.len(),
                q == v.deep_view(),
                q.len() == v@.len(),
                s@ == q.take(i as int).to_set(),
            decreases v@.len() - i,
        {
            proof {
                assert(q.take(i + 1) =~= q.take(i as int).push(q[i as int]));
                q.take(i as int).lemma_push_to_set_commute(q[i as int]);
            }
            s.insert(v[i].clone());
            i += 1;
        }
        assert(q.take(q.len() as int) =~= q);
        s
    }

    /// The number of names.
    pub fn len(&self) -> (n: usize)
        ensures
            n == self@.len(),
            n == ordered(self@).len(),
            self@.finite(),
    {
        self.table.len()
    }

    pub fn is_empty(&self) -> (r: bool)
        ensures
            r == (self@ == Set::<Seq<char>>::empty()),
    {
        let r = self.table.is_empty();
        proof {
            if r {
                assert(self@ =~= Set::<Seq<char>>::empty());
            } else if self@ == Set::<Seq<char>>::empty() {
                assert(self.table@ =~= Map::<Seq<char>, bool>::empty());
            }
        }
        r
    }

    /// The `i`-th name in order.
    pub fn at(&self, i: usize) -> (k: &String)
        requires
            i < ordered(self@).len(),
        ensures
            k@ == ordered(self@)[i as int],
            self@.contains(k@),
    {
        self.table.key_at(i)
    }

    /// The names in order.
    pub fn names(&self) -> (r: Vec<String>)
        ensures
            r.deep_view() == ordered(self@),
            self@.finite(),
    {
        self.table.keys()
    }

    pub fn contains(&self, key: &str) -> (r: bool)
        ensures
            r == self@.contains(key@),
    {
        self.table.contains_key(key)
    }

    /// Adds `key`; tells whether it was new.
    pub fn insert(&mut self, key: String) -> (r: bool)
        ensures
            final(self)@ == old(self)@.insert(key@),
            r == !old(self)@.contains(key@),
    {
        let ghost s0 = self@;
        let r = !self.contains(key.as_str());
        let ghost k = key@;
        self.table.insert(key, true);
        assert(self@ =~= s0.insert(k));
        r
    }

    /// Takes `key` out; tells whether it was there.
    pub fn remove(&mut self, key: &str) -> (r: bool)
        ensures
            final(self)@ == old(self)@.remove(key@),
            r == old(self)@.contains(key@),
    {
        let ghost s0 = self@;
        let r = self.table.remove(key).is_some();
        assert(self@ =~= s0.remove(key@));
        r
    }
}

impl NameSet {
    /// The names of this set that `other` does not hold.
    pub fn minus(&self, other: &NameSet) -> (r: NameSet)
        ensures
            r@ == self@.difference(other@),
    {
        let n = self.len();
        let ghost o = ordered(self@);
        let mut r = NameSet::new();
        let mut i: usize = 0;
        proof {
            lemma_ordered(self@);
            assert(o.take(0).to_set().difference(other@) =~= Set::empty());
        }
        while i < n
            invariant
                i <= n,
                n == o.len(),
                o == ordered(self@),
                r@ == o.take(i as int).to_set().difference(other@),
            decreases n - i,
        {
            let k = self.at(i);
            proof {
                assert(o.take(i + 1) =~= o.take(i as int).push(k@));
                o.take(i as int).lemma_push_to_set_commute(k@);
            }
            if !other.contains(k.as_str()) {
                r.insert(k.clone());
            }
            assert(r@ =~= o.take(i + 1).to_set().difference(other@));
            i += 1;
        }
        assert(o.take(i as int) =~= o);
        r
    }
}

impl DeepView for NameSet {
    type V = Set<Seq<char>>;

    open spec fn deep_view(&self) -> Set<Seq<char>> {
        self@
    }
}

impl Duplicate for NameSet {
    fn duplicate(&self) -> Self {
        NameSet { table: self.table.duplicate() }
    }
}

/// The position of `x` in a list of names.
pub fn position(v: &Vec<String>, x: &str) -> (r: Option<usize>)
    ensures
        r is Some <==> v.deep_view().contains(x@),
        r matches Some(i) ==> i < v@.len() && v@[i as int]@ == x@ && forall|j: int|
            0 <= j < i ==> #[trigger] v@[j]@ != x@,
{
    let ghost q = v.deep_view();
    let mut i: usize = 0;
    while i < v.len()
        invariant
            i <= v@.len(),
            q == v.deep_view(),
            forall|j: int| 0 <= j < i ==> #[trigger] v@[j]@ != x@,
        decreases v@.len() - i,
    {
        if same(v[i].as_str(), x) {
            assert(q[i as int] == x@);
            return Some(i);
        }
        i += 1;
    }
    assert(!q.contains(x@)) by {
        assert forall|j: int| 0 <= j < q.len() implies q[j] != x@ by {
            assert(q[j] == v@[j]@);
        }
    }
    None
}

/// Whether `x` is in a list of names.
pub fn listed(v: &Vec<String>, x: &str) -> (r: bool)
    ensures
        r == v.deep_view().contains(x@),
{
    position(v, x).is_some()
}

/// The map that gives each of `keys` what `g` gives it, where `g` gives
/// something.
pub open spec fn tabulate<V>(
    keys: Seq<Seq<char>>,
    g: spec_fn(Seq<char>) -> Option<V>,
) -> Map<Seq<char>, V> {
    Map::new(|k: Seq<char>| keys.contains(k) && g(k) is Some, |k: Seq<char>| g(k)->0)
}

pub proof fn lemma_tabulate_push<V>(
    keys: Seq<Seq<char>>,
    k: Seq<char>,
    g: spec_fn(Seq<char>) -> Option<V>,
)
    ensures
        tabulate(keys.push(k), g) == (match g(k) {
            Some(v) => tabulate(keys, g).insert(k, v),
            None => tabulate(keys, g),
        }),
{
    let all = keys.push(k);
    assert forall|x: Seq<char>| all.contains(x) <==> keys.contains(x) || x == k by {
        if keys.contains(x) {
            let i = choose|i: int| 0 <= i < keys.len() && keys[i] == x;
            assert(all[i] == x);
        }
        assert(all[keys.len() as int] == k);
    }
    let want = match g(k) {
        Some(v) => tabulate(keys, g).insert(k, v),
        None => tabulate(keys, g),
    };
    assert(tabulate(all, g) =~= want);
}

/// The next entry of a table filled in the order of `keys`.
pub proof fn lemma_tabulate_next<V>(
    keys: Seq<Seq<char>>,
    i: int,
    g: spec_fn(Seq<char>) -> Option<V>,
)
    requires
        0 <= i < keys.len(),
    ensures
        tabulate(keys.take(i + 1), g) == (match g(keys[i]) {
            Some(v) => tabulate(keys.take(i), g).insert(keys[i], v),
            None => tabulate(keys.take(i), g),
        }),
{
    assert(keys.take(i + 1) =~= keys.take(i).push(keys[i]));
    lemma_tabulate_push(keys.take(i), keys[i], g);
}

/// A table filled for no key is empty; filled for all keys it is complete.
pub proof fn lemma_tabulate_ends<V>(keys: Seq<Seq<char>>, g: spec_fn(Seq<char>) -> Option<V>)
    ensures
        tabulate(keys.take(0), g) == Map::<Seq<char>, V>::empty(),
        keys.take(keys.len() as int) == keys,
{
    assert(keys.take(keys.len() as int) =~= keys);
    assert(tabulate(keys.take(0), g) =~= Map::<Seq<char>, V>::empty());
}

/// What `f` gives the first of `keys` that it gives something.
pub open spec fn first_some<A>(
    keys: Seq<Seq<char>>,
    f: spec_fn(Seq<char>) -> Option<A>,
) -> Option<A>
    decreases keys.len(),
{
    if keys.len() == 0 {
        None
    } else {
        match first_some(keys.drop_last(), f) {
            Some(a) => Some(a),
            None => f(keys.last()),
        }
    }
}

/// What a prefix gives, all keys give.
pub proof fn lemma_first_some_prefix<A>(
    keys: Seq<Seq<char>>,
    f: spec_fn(Seq<char>) -> Option<A>,
    n: int,
)
    requires
        0 <= n <= keys.len(),
        first_some(keys.take(n), f) is Some,
    ensures
        first_some(keys, f) == first_some(keys.take(n), f),
    decreases keys.len(),
{
    if n < keys.len() {
        assert(keys.drop_last().take(n) =~= keys.take(n));
        lemma_first_some_prefix(keys.drop_last(), f, n);
    } else {
        assert(keys.take(n) =~= keys);
    }
}

/// One key more of a search that found nothing yet.
pub proof fn lemma_first_some_next<A>(
    keys: Seq<Seq<char>>,
    f: spec_fn(Seq<char>) -> Option<A>,
    i: int,
)
    requires
        0 <= i < keys.len(),
        first_some(keys.take(i), f) is None,
    ensures
        first_some(keys.take(i + 1), f) == f(keys[i]),
        f(keys[i]) is Some ==> first_some(keys, f) == f(keys[i]),
{
    assert(keys.take(i + 1).drop_last() =~= keys.take(i));
    if f(keys[i]) is Some {
        lemma_first_some_prefix(keys, f, i + 1);
    }
}

/// All that `f` gives to `keys`, in order.
pub open spec fn gathered<A>(keys: Seq<Seq<char>>, f: spec_fn(Seq<char>) -> Option<A>) -> Seq<A>
    decreases keys.len(),
{
    if keys.len() == 0 {
        seq![]
    } else {
        match f(keys.last()) {
            Some(a) => gathered(keys.drop_last(), f).push(a),
            None => gathered(keys.drop_last(), f),
        }
    }
}

/// One key more.
pub proof fn lemma_gathered_next<A>(
    keys: Seq<Seq<char>>,
    f: spec_fn(Seq<char>) -> Option<A>,
    i: int,
)
    requires
        0 <= i < keys.len(),
    ensures
        gathered(keys.take(i + 1), f) == (match f(keys[i]) {
            Some(a) => gathered(keys.take(i), f).push(a),
            None => gathered(keys.take(i), f),
        }),
{
    assert(keys.take(i + 1).drop_last() =~= keys.take(i));
}

/// Nothing is gathered of no key, and everything of all.
pub proof fn lemma_gathered_ends<A>(keys: Seq<Seq<char>>, f: spec_fn(Seq<char>) -> Option<A>)
    ensures
        gathered(keys.take(0), f) == Seq::<A>::empty(),
        keys.take(keys.len() as int) == keys,
{
    assert(keys.take(keys.len() as int) =~= keys);
    assert(keys.take(0) =~= seq![]);
}

/// An empty list of names.
pub fn no_names() -> (r: Vec<String>)
    ensures
        r.deep_view() == Seq::<Seq<char>>::empty(),
{
    let r: Vec<String> = Vec::new();
    assert(r.deep_view() =~= seq![]);
    r
}

/// One name more.
pub proof fn lemma_take_contains(q: Seq<Seq<char>>, i: int)
    requires
        0 <= i < q.len(),
    ensures
        forall|x: Seq<char>| #[trigger]
            q.take(i + 1).contains(x) <==> q.take(i).contains(x) || x == q[i],
{
    let a = q.take(i);
    let b = q.take(i + 1);
    assert forall|x: Seq<char>| #[trigger] b.contains(x) <==> a.contains(x) || x == q[i] by {
        if b.contains(x) {
            let j = choose|j: int| 0 <= j < b.len() && b[j] == x;
            if j < i {
                assert(a[j] == x);
            }
        }
        if a.contains(x) {
            let j = choose|j: int| 0 <= j < a.len() && a[j] == x;
            assert(b[j] == x);
        }
        assert(b[i] == q[i]);
    }
}

/// `n`, but no more than fits.
pub open spec fn capped(n: nat) -> usize {
    if n <= usize::MAX {
        n as usize
    } else {
        usize::MAX
    }
}

} // verus!
