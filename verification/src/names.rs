//! A map from names to values, kept in name order.

use vstd::prelude::*;

use crate::text;

verus! {

/// The entries are in name order, and no name occurs twice.
pub open spec fn in_order<V>(s: Seq<(Seq<char>, V)>) -> bool {
    forall|i: int, j: int| 0 <= i < j < s.len() ==> text::lex_lt(#[trigger] s[i].0, #[trigger] s[j].0)
}

/// The number of entries whose name comes before `k`.
pub open spec fn rank<V>(s: Seq<(Seq<char>, V)>, k: Seq<char>) -> int
    decreases s.len(),
{
    if s.len() > 0 && text::lex_lt(s[0].0, k) {
        1 + rank(s.drop_first(), k)
    } else {
        0
    }
}

/// Whether some entry has the name `k`.
pub open spec fn has_name<V>(s: Seq<(Seq<char>, V)>, k: Seq<char>) -> bool {
    exists|i: int| 0 <= i < s.len() && (#[trigger] s[i]).0 == k
}

/// The value stored under `k`, if any.
pub open spec fn lookup<V>(s: Seq<(Seq<char>, V)>, k: Seq<char>) -> Option<V> {
    if has_name(s, k) {
        Some(s[rank(s, k)].1)
    } else {
        None
    }
}

/// The entries once `v` is stored under `k`: in place of the old value, or at its place in the order.
pub open spec fn put<V>(s: Seq<(Seq<char>, V)>, k: Seq<char>, v: V) -> Seq<(Seq<char>, V)> {
    if has_name(s, k) {
        s.update(rank(s, k), (k, v))
    } else {
        s.insert(rank(s, k), (k, v))
    }
}

/// The entries without the one named `k`.
pub open spec fn without<V>(s: Seq<(Seq<char>, V)>, k: Seq<char>) -> Seq<(Seq<char>, V)> {
    if has_name(s, k) {
        s.remove(rank(s, k))
    } else {
        s
    }
}

/// `rank` is the one place that has only smaller names before it and no smaller name after it.
pub proof fn lemma_rank<V>(s: Seq<(Seq<char>, V)>, k: Seq<char>, p: int)
    requires
        in_order(s),
        0 <= p <= s.len(),
        forall|i: int| 0 <= i < p ==> text::lex_lt(#[trigger] s[i].0, k),
        p < s.len() ==> !text::lex_lt(s[p].0, k),
    ensures
        rank(s, k) == p,
    decreases s.len(),
{
    if p > 0 {
        let t = s.drop_first();
        assert forall|i: int| 0 <= i < p - 1 implies text::lex_lt(#[trigger] t[i].0, k) by {
            assert(t[i] == s[i + 1]);
        }
        assert forall|i: int, j: int| 0 <= i < j < t.len() implies text::lex_lt(#[trigger] t[i].0, #[trigger] t[j].0) by {
            assert(t[i] == s[i + 1] && t[j] == s[j + 1]);
        }
        if p < s.len() {
            assert(t[p - 1] == s[p]);
        }
        assert(text::lex_lt(s[0].0, k));
        lemma_rank(t, k, p - 1);
    }
}

/// A map from names to values, held in name order.
#[derive(Debug, PartialEq, Eq)]
pub struct NameMap<V> {
    entries: Vec<(String, V)>,
}

impl<V> View for NameMap<V> {
    type V = Seq<(Seq<char>, V)>;

    closed spec fn view(&self) -> Seq<(Seq<char>, V)> {
        Seq::new(self.entries@.len(), |i: int| (self.entries@[i].0@, self.entries@[i].1))
    }
}

/// An entry named `k` stands at the rank of `k`; if that entry has another name, none is named `k`.
pub proof fn lemma_has_at_rank<V>(s: Seq<(Seq<char>, V)>, k: Seq<char>)
    requires
        in_order(s),
    ensures
        0 <= rank(s, k) <= s.len(),
        has_name(s, k) <==> rank(s, k) < s.len() && s[rank(s, k)].0 == k,
        forall|i: int| 0 <= i < rank(s, k) ==> text::lex_lt(#[trigger] s[i].0, k),
        forall|i: int| rank(s, k) <= i < s.len() ==> !text::lex_lt(#[trigger] s[i].0, k),
    decreases s.len(),
{
    text::lemma_lex_irreflexive(k);
    if s.len() > 0 {
        if text::lex_lt(s[0].0, k) {
            let t = s.drop_first();
            assert forall|i: int, j: int| 0 <= i < j < t.len() implies text::lex_lt(#[trigger] t[i].0, #[trigger] t[j].0) by {
                assert(t[i] == s[i + 1] && t[j] == s[j + 1]);
            }
            lemma_has_at_rank(t, k);
            assert forall|i: int| 0 <= i < rank(s, k) implies text::lex_lt(#[trigger] s[i].0, k) by {
                if i > 0 {
                    assert(s[i] == t[i - 1]);
                }
            }
            assert forall|i: int| rank(s, k) <= i < s.len() implies !text::lex_lt(#[trigger] s[i].0, k) by {
                assert(s[i] == t[i - 1]);
            }
            if has_name(s, k) {
                let i = choose|i: int| 0 <= i < s.len() && (#[trigger] s[i]).0 == k;
                assert(i != 0);
                assert(t[i - 1].0 == k);
                assert(has_name(t, k));
                assert(s[rank(s, k)] == t[rank(t, k)]);
            }
        } else {
            assert forall|i: int| 0 <= i < s.len() implies !text::lex_lt(#[trigger] s[i].0, k) by {
                if i > 0 && text::lex_lt(s[i].0, k) {
                    text::lemma_lex_transitive(s[0].0, s[i].0, k);
                }
            }
            if has_name(s, k) {
                let i = choose|i: int| 0 <= i < s.len() && (#[trigger] s[i]).0 == k;
                if i > 0 {
                    assert(text::lex_lt(s[0].0, s[i].0));
                }
            }
        }
    }
}

/// The entries that stay when all of `s` are stored one after the other.
pub open spec fn put_all<V>(s: Seq<(Seq<char>, V)>) -> Seq<(Seq<char>, V)>
    decreases s.len(),
{
    if s.len() == 0 {
        s
    } else {
        put(put_all(s.drop_last()), s.last().0, s.last().1)
    }
}

/// Storing a value keeps the order.
pub proof fn lemma_put_in_order<V>(s: Seq<(Seq<char>, V)>, k: Seq<char>, v: V)
    requires
        in_order(s),
    ensures
        in_order(put(s, k, v)),
{
    lemma_has_at_rank(s, k);
    let t = put(s, k, v);
    let p = rank(s, k);
    assert forall|i: int, j: int| 0 <= i < j < t.len() implies text::lex_lt(#[trigger] t[i].0, #[trigger] t[j].0) by {
        if has_name(s, k) {
            assert(t[i].0 == s[i].0 && t[j].0 == s[j].0);
        } else {
            if i < p {
                assert(t[i] == s[i]);
            } else if i > p {
                assert(t[i] == s[i - 1]);
            }
            if j < p {
                assert(t[j] == s[j]);
            } else if j > p {
                assert(t[j] == s[j - 1]);
                if i == p {
                    text::lemma_lex_total(s[j - 1].0, k);
                }
            }
        }
    }
}

/// Taking an entry out keeps the order.
pub proof fn lemma_without_in_order<V>(s: Seq<(Seq<char>, V)>, k: Seq<char>)
    requires
        in_order(s),
    ensures
        in_order(without(s, k)),
{
    lemma_has_at_rank(s, k);
    let t = without(s, k);
    let p = rank(s, k);
    if has_name(s, k) {
        assert forall|i: int, j: int| 0 <= i < j < t.len() implies text::lex_lt(#[trigger] t[i].0, #[trigger] t[j].0) by {
            assert(t[i] == if i < p { s[i] } else { s[i + 1] });
            assert(t[j] == if j < p { s[j] } else { s[j + 1] });
        }
    }
}

/// The entries with `f` applied to each value.
pub open spec fn with_values<V, W>(s: Seq<(Seq<char>, V)>, f: spec_fn(V) -> W) -> Seq<(Seq<char>, W)> {
    s.map_values(|e: (Seq<char>, V)| (e.0, f(e.1)))
}

/// The place of a name depends on the names alone.
pub proof fn lemma_with_values_rank<V, W>(s: Seq<(Seq<char>, V)>, f: spec_fn(V) -> W, k: Seq<char>)
    ensures
        rank(with_values(s, f), k) == rank(s, k),
    decreases s.len(),
{
    if s.len() > 0 {
        lemma_with_values_rank(s.drop_first(), f, k);
        assert(with_values(s, f).drop_first() =~= with_values(s.drop_first(), f));
    }
}

/// Order, search and change commute with a function on the values.
pub proof fn lemma_with_values<V, W>(s: Seq<(Seq<char>, V)>, f: spec_fn(V) -> W, k: Seq<char>, v: V)
    requires
        in_order(s),
    ensures
        in_order(with_values(s, f)),
        has_name(with_values(s, f), k) == has_name(s, k),
        lookup(with_values(s, f), k) == match lookup(s, k) {
            Some(x) => Some(f(x)),
            None => None,
        },
        with_values(put(s, k, v), f) == put(with_values(s, f), k, f(v)),
        with_values(without(s, k), f) == without(with_values(s, f), k),
{
    let t = with_values(s, f);
    lemma_with_values_rank(s, f, k);
    lemma_has_at_rank(s, k);
    assert forall|i: int, j: int| 0 <= i < j < t.len() implies text::lex_lt(#[trigger] t[i].0, #[trigger] t[j].0) by {
        assert(t[i].0 == s[i].0 && t[j].0 == s[j].0);
    }
    lemma_has_at_rank(t, k);
    assert(with_values(put(s, k, v), f) =~= put(t, k, f(v)));
    assert(with_values(without(s, k), f) =~= without(t, k));
}

/// In an ordered sequence the entry at place `i` is the one that its name finds.
pub proof fn lemma_lookup_at<V>(s: Seq<(Seq<char>, V)>, i: int)
    requires
        in_order(s),
        0 <= i < s.len(),
    ensures
        has_name(s, s[i].0),
        rank(s, s[i].0) == i,
        lookup(s, s[i].0) == Some(s[i].1),
{
    text::lemma_lex_irreflexive(s[i].0);
    lemma_rank(s, s[i].0, i);
}

/// What was stored under a name is what is found under it; every other name finds what it found before.
pub proof fn lemma_lookup_put<V>(s: Seq<(Seq<char>, V)>, k: Seq<char>, v: V, j: Seq<char>)
    requires
        in_order(s),
    ensures
        lookup(put(s, k, v), j) == if j == k {
            Some(v)
        } else {
            lookup(s, j)
        },
{
    let t = put(s, k, v);
    let p = rank(s, k);
    lemma_has_at_rank(s, k);
    lemma_put_in_order(s, k, v);
    assert(t[p] == (k, v));
    lemma_lookup_at(t, p);
    if j != k {
        if has_name(s, j) {
            let i = choose|i: int| 0 <= i < s.len() && (#[trigger] s[i]).0 == j;
            lemma_lookup_at(s, i);
            let i2 = if has_name(s, k) || i < p {
                i
            } else {
                i + 1
            };
            assert(t[i2] == s[i]);
            lemma_lookup_at(t, i2);
        } else if has_name(t, j) {
            let i = choose|i: int| 0 <= i < t.len() && (#[trigger] t[i]).0 == j;
            let i2 = if has_name(s, k) || i < p {
                i
            } else {
                i - 1
            };
            assert(s[i2] == t[i]);
        }
    }
}

/// Of two values stored under one name the later stays.
pub proof fn lemma_put_put<V>(s: Seq<(Seq<char>, V)>, k: Seq<char>, v: V, w: V)
    requires
        in_order(s),
    ensures
        put(put(s, k, v), k, w) == put(s, k, w),
{
    let t = put(s, k, v);
    lemma_has_at_rank(s, k);
    lemma_put_in_order(s, k, v);
    assert(t[rank(s, k)] == (k, v));
    lemma_lookup_at(t, rank(s, k));
    assert(put(t, k, w) =~= put(s, k, w));
}

/// Storing what is stored already changes nothing.
pub proof fn lemma_put_same<V>(s: Seq<(Seq<char>, V)>, k: Seq<char>)
    requires
        in_order(s),
    ensures
        lookup(s, k) matches Some(v) ==> put(s, k, v) == s,
{
    lemma_has_at_rank(s, k);
    if let Some(v) = lookup(s, k) {
        assert(put(s, k, v) =~= s);
    }
}

/// After an entry is taken out its name finds nothing; every other name finds what it found before.
pub proof fn lemma_lookup_without<V>(s: Seq<(Seq<char>, V)>, k: Seq<char>, j: Seq<char>)
    requires
        in_order(s),
    ensures
        lookup(without(s, k), j) == if j == k {
            None
        } else {
            lookup(s, j)
        },
{
    let t = without(s, k);
    let p = rank(s, k);
    lemma_has_at_rank(s, k);
    lemma_without_in_order(s, k);
    if has_name(s, k) {
        if has_name(t, j) {
            let i = choose|i: int| 0 <= i < t.len() && (#[trigger] t[i]).0 == j;
            let i2 = if i < p {
                i
            } else {
                i + 1
            };
            assert(s[i2] == t[i]);
            lemma_lookup_at(t, i);
            lemma_lookup_at(s, i2);
        } else if has_name(s, j) && j != k {
            let i = choose|i: int| 0 <= i < s.len() && (#[trigger] s[i]).0 == j;
            let i2 = if i < p {
                i
            } else {
                i - 1
            };
            assert(t[i2] == s[i]);
        }
    }
}

impl<V> NameMap<V> {
    /// The empty map.
    pub fn new() -> (m: Self)
        ensures
            m@ == Seq::<(Seq<char>, V)>::empty(),
    {
        let m = NameMap { entries: Vec::new() };
        assert(m@ =~= Seq::<(Seq<char>, V)>::empty());
        m
    }

    /// The place of the name `k`, and whether it is there.
    fn find(&self, k: &str) -> (r: (bool, usize))
        requires
            in_order(self@),
        ensures
            r.0 == has_name(self@, k@),
            r.1 == rank(self@, k@),
            r.1 <= self@.len(),
            r.0 ==> r.1 < self@.len() && self@[r.1 as int].0 == k@,
    {
        let mut lo: usize = 0;
        let mut hi: usize = self.entries.len();
        while lo < hi
            invariant
                lo <= hi <= self.entries@.len(),
                in_order(self@),
                forall|i: int| 0 <= i < lo ==> text::lex_lt(#[trigger] self@[i].0, k@),
                forall|i: int| hi <= i < self@.len() ==> !text::lex_lt(#[trigger] self@[i].0, k@),
            decreases hi - lo,
        {
            let mid: usize = lo + (hi - lo) / 2;
            if text::name_lt(self.entries[mid].0.as_str(), k) {
                assert forall|i: int| 0 <= i < mid + 1 implies text::lex_lt(#[trigger] self@[i].0, k@) by {
                    if i < mid {
                        text::lemma_lex_transitive(self@[i].0, self@[mid as int].0, k@);
                    }
                }
                lo = mid + 1;
            } else {
                assert forall|i: int| mid <= i < self@.len() implies !text::lex_lt(#[trigger] self@[i].0, k@) by {
                    if mid < i && text::lex_lt(self@[i].0, k@) {
                        text::lemma_lex_transitive(self@[mid as int].0, self@[i].0, k@);
                    }
                }
                hi = mid;
            }
        }
        proof {
            lemma_rank(self@, k@, lo as int);
            lemma_has_at_rank(self@, k@);
        }
        if lo < self.entries.len() && text::same_text(self.entries[lo].0.as_str(), k) {
            (true, lo)
        } else {
            (false, lo)
        }
    }

    /// The value stored under `k`.
    pub fn get(&self, k: &str) -> (r: Option<&V>)
        requires
            in_order(self@),
        ensures
            match r {
                Some(v) => lookup(self@, k@) == Some(*v),
                None => lookup(self@, k@) is None,
            },
    {
        let (found, i) = self.find(k);
        if found {
            Some(&self.entries[i].1)
        } else {
            None
        }
    }

    /// A mutable reference to the value stored under `k`.
    pub fn get_mut(&mut self, k: &str) -> (r: Option<&mut V>)
        requires
            in_order(old(self)@),
        ensures
            match r {
                Some(v) => {
                    &&& lookup(old(self)@, k@) == Some(*v)
                    &&& final(self)@ == put(old(self)@, k@, *final(v))
                },
                None => {
                    &&& lookup(old(self)@, k@) is None
                    &&& final(self)@ == old(self)@
                },
            },
    {
        let (found, i) = self.find(k);
        if found {
            Some(&mut self.entries[i].1)
        } else {
            None
        }
    }

    /// How many names there are.
    pub fn len(&self) -> (n: usize)
        ensures
            n == self@.len(),
    {
        self.entries.len()
    }

    /// Whether some value is stored under `k`.
    pub fn contains_key(&self, k: &str) -> (r: bool)
        requires
            in_order(self@),
        ensures
            r == has_name(self@, k@),
    {
        self.find(k).0
    }

    /// The name at place `i` of the order.
    pub fn name_at(&self, i: usize) -> (k: &String)
        requires
            i < self@.len(),
        ensures
            k@ == self@[i as int].0,
    {
        &self.entries[i].0
    }

    /// The value at place `i` of the order.
    pub fn value_at(&self, i: usize) -> (v: &V)
        requires
            i < self@.len(),
        ensures
            *v == self@[i as int].1,
    {
        &self.entries[i].1
    }

    /// Stores `v` under `k`, and returns the value that it replaces.
    pub fn insert(&mut self, k: String, v: V) -> (r: Option<V>)
        requires
            in_order(old(self)@),
        ensures
            final(self)@ == put(old(self)@, k@, v),
            in_order(final(self)@),
            r == lookup(old(self)@, k@),
    {
        proof {
            lemma_put_in_order(self@, k@, v);
        }
        let (found, i) = self.find(k.as_str());
        if found {
            let mut w = v;
            std::mem::swap(&mut self.entries[i].1, &mut w);
            assert(self@ =~= put(old(self)@, k@, v));
            Some(w)
        } else {
            self.entries.insert(i, (k, v));
            assert(self@ =~= put(old(self)@, k@, v));
            None
        }
    }

    /// Takes out the value stored under `k`.
    pub fn remove(&mut self, k: &str) -> (r: Option<V>)
        requires
            in_order(old(self)@),
        ensures
            final(self)@ == without(old(self)@, k@),
            in_order(final(self)@),
            r == lookup(old(self)@, k@),
    {
        proof {
            lemma_without_in_order(self@, k@);
        }
        let (found, i) = self.find(k);
        if found {
            let (name, v) = self.entries.remove(i);
            assert(self@ =~= without(old(self)@, k@));
            Some(v)
        } else {
            None
        }
    }

    /// Stores `v` under a name that comes after all names stored so far.
    pub fn append(&mut self, k: String, v: V)
        requires
            in_order(old(self)@),
            forall|i: int| 0 <= i < old(self)@.len() ==> text::lex_lt(#[trigger] old(self)@[i].0, k@),
        ensures
            final(self)@ == old(self)@.push((k@, v)),
            in_order(final(self)@),
    {
        self.entries.push((k, v));
        assert(self@ =~= old(self)@.push((k@, v)));
    }

    /// The map that holds the given entries, in their order.
    pub(crate) fn from_ordered(entries: Vec<(String, V)>) -> (m: NameMap<V>)
        ensures
            m@ == Seq::new(entries@.len(), |i: int| (entries@[i].0@, entries@[i].1)),
    {
        NameMap { entries }
    }

    /// The map that holds the given entries; of two with one name the later stays.
    pub fn from_entries(entries: Vec<(String, V)>) -> (m: NameMap<V>)
        ensures
            in_order(m@),
            m@ == put_all(Seq::new(entries@.len(), |i: int| (entries@[i].0@, entries@[i].1))),
    {
        let mut m: NameMap<V> = NameMap::new();
        let ghost given = Seq::new(entries@.len(), |i: int| (entries@[i].0@, entries@[i].1));
        assert(given.take(0) =~= Seq::<(Seq<char>, V)>::empty());
        for e in it: entries
            invariant
                in_order(m@),
                it.seq() == entries@,
                given == Seq::new(entries@.len(), |i: int| (entries@[i].0@, entries@[i].1)),
                m@ == put_all(given.take(it.index() as int)),
        {
            let ghost n = it.index() as int;
            assert(given.take(n + 1).drop_last() =~= given.take(n));
            assert(given.take(n + 1).last() == (e.0@, e.1));
            m.insert(e.0, e.1);
        }
        assert(given.take(given.len() as int) =~= given);
        m
    }
}

/// A map is larger than each of its values, for proofs of termination.
pub broadcast proof fn lemma_value_smaller<V>(m: NameMap<V>, i: int)
    requires
        0 <= i < m@.len(),
    ensures
        #[trigger] (decreases_to!(m => m@[i].1)),
{
    assert(decreases_to!(m => m.entries));
    assert(decreases_to!(m.entries => m.entries[i]));
    assert(decreases_to!(m.entries[i] => m.entries[i].1));
}

} // verus!
