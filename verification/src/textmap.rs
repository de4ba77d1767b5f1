//! Maps from texts to values, kept in the order of their keys.

use vstd::prelude::*;

use crate::text::text_before;
#[allow(unused_imports)]
use crate::text::{before, lemma_before_total, lemma_before_transitive};

verus! {

/// The value under `k` in a list of keys and values: that of its first entry with this key.
pub open spec fn lookup<W>(m: Seq<(Seq<char>, W)>, k: Seq<char>) -> Option<W>
    decreases m.len(),
{
    if m.len() == 0 {
        None
    } else if m[0].0 == k {
        Some(m[0].1)
    } else {
        lookup(m.skip(1), k)
    }
}

/// The list with `w` under `k`: in place of the value that is there, or as a new entry
/// before the first key that is not before `k`.
pub open spec fn put<W>(m: Seq<(Seq<char>, W)>, k: Seq<char>, w: W) -> Seq<(Seq<char>, W)>
    decreases m.len(),
{
    if m.len() == 0 {
        seq![(k, w)]
    } else if m[0].0 == k {
        seq![(k, w)] + m.skip(1)
    } else if before(k, m[0].0) {
        seq![(k, w)] + m
    } else {
        seq![m[0]] + put(m.skip(1), k, w)
    }
}

/// Whether every key is before the keys behind it.
pub open spec fn ascending<W>(m: Seq<(Seq<char>, W)>) -> bool {
    forall|i: int, j: int|
        0 <= i < j < m.len() ==> before(#[trigger] m[i].0, #[trigger] m[j].0)
}

/// A map from texts to values.
pub struct TextMap<V> {
    entries: Vec<(String, V)>,
}

impl<V: DeepView> View for TextMap<V> {
    type V = Seq<(Seq<char>, V::V)>;

    closed spec fn view(&self) -> Seq<(Seq<char>, V::V)> {
        Seq::new(
            self.entries@.len(),
            |i: int| (self.entries@[i].0@, self.entries@[i].1.deep_view()),
        )
    }
}

impl<V: DeepView> DeepView for TextMap<V> {
    type V = Seq<(Seq<char>, V::V)>;

    open spec fn deep_view(&self) -> Seq<(Seq<char>, V::V)> {
        self@
    }
}

impl<V: DeepView> TextMap<V> {
    /// The empty map.
    pub fn new() -> (r: Self)
        ensures
            r@ == Seq::<(Seq<char>, V::V)>::empty(),
    {
        let r = TextMap { entries: Vec::new() };
        assert(r@ =~= Seq::<(Seq<char>, V::V)>::empty());
        r
    }

    /// How many keys there are.
    pub fn len(&self) -> (r: usize)
        ensures
            r == self@.len(),
    {
        self.entries.len()
    }

    /// The key at place `i` of the order.
    pub fn key(&self, i: usize) -> (r: &str)
        requires
            i < self@.len(),
        ensures
            r@ == self@[i as int].0,
    {
        self.entries[i].0.as_str()
    }

    /// The value at place `i` of the order.
    pub fn value(&self, i: usize) -> (r: &V)
        requires
            i < self@.len(),
        ensures
            r.deep_view() == self@[i as int].1,
    {
        &self.entries[i].1
    }

    /// The value under `k`.
    pub fn get(&self, k: &str) -> (r: Option<&V>)
        ensures
            match r {
                Some(v) => lookup(self@, k@) == Some(v.deep_view()),
                None => lookup(self@, k@) is None,
            },
    {
        let key = k.to_owned();
        let mut i: usize = 0;
        assert(self@.skip(0) == self@);
        while i < self.entries.len()
            invariant
                key@ == k@,
                i <= self.entries@.len(),
                lookup(self@, k@) == lookup(self@.skip(i as int), k@),
            decreases self.entries@.len() - i,
        {
            assert(self@.skip(i as int)[0] == self@[i as int]);
            assert(self@.skip(i as int).skip(1) == self@.skip(i + 1));
            if self.entries[i].0 == key {
                return Some(&self.entries[i].1);
            }
            i += 1;
        }
        None
    }

    /// The place at which `put` puts the key `k`, and whether the key is there.
    fn place(&self, k: &str) -> (r: (usize, bool))
        ensures
            ({
                let (i, there) = r;
                let m = self@;
                &&& i <= m.len()
                &&& there ==> i < m.len() && m[i as int].0 == k@ && lookup(m, k@) == Some(
                    m[i as int].1,
                )
                &&& !there && ascending(m) ==> lookup(m, k@) is None
                &&& forall|w: V::V| #[trigger]
                    put(m, k@, w) == m.take(i as int) + seq![(k@, w)] + m.skip(
                        if there {
                            i + 1
                        } else {
                            i as int
                        },
                    )
            }),
    {
        let key = k.to_owned();
        let ghost m = self@;
        let mut i: usize = 0;
        assert(m.skip(0) == m);
        assert forall|w: V::V| #[trigger] put(m, k@, w) == m.take(0) + put(m.skip(0), k@, w) by {
            assert(m.take(0) + put(m.skip(0), k@, w) =~= put(m.skip(0), k@, w));
        }
        while i < self.entries.len()
            invariant
                key@ == k@,
                m == self@,
                i <= m.len(),
                m.len() == self.entries@.len(),
                lookup(m, k@) == lookup(m.skip(i as int), k@),
                forall|w: V::V| #[trigger]
                    put(m, k@, w) == m.take(i as int) + put(m.skip(i as int), k@, w),
            decreases self.entries@.len() - i,
        {
            let ghost rest = m.skip(i as int);
            assert(rest[0] == m[i as int]);
            assert(rest.skip(1) == m.skip(i + 1));
            if self.entries[i].0 == key {
                assert forall|w: V::V| #[trigger]
                    put(m, k@, w) == m.take(i as int) + seq![(k@, w)] + m.skip(i + 1) by {
                    assert(m.take(i as int) + (seq![(k@, w)] + m.skip(i + 1)) =~= m.take(i as int)
                        + seq![(k@, w)] + m.skip(i + 1));
                }
                return (i, true);
            }
            if text_before(k, self.entries[i].0.as_str()) {
                assert forall|w: V::V| #[trigger]
                    put(m, k@, w) == m.take(i as int) + seq![(k@, w)] + m.skip(i as int) by {
                    assert(m.take(i as int) + (seq![(k@, w)] + rest) =~= m.take(i as int)
                        + seq![(k@, w)] + rest);
                }
                proof {
                    if ascending(m) {
                        lemma_absent_before(m, k@, i as int);
                    }
                }
                return (i, false);
            }
            assert forall|w: V::V| #[trigger]
                put(m, k@, w) == m.take(i + 1) + put(m.skip(i + 1), k@, w) by {
                assert(m.take(i as int) + (seq![m[i as int]] + put(m.skip(i + 1), k@, w))
                    =~= m.take(i + 1) + put(m.skip(i + 1), k@, w));
            }
            i += 1;
        }
        assert forall|w: V::V| #[trigger]
            put(m, k@, w) == m.take(i as int) + seq![(k@, w)] + m.skip(i as int) by {
            assert(m.take(i as int) + seq![(k@, w)] + m.skip(i as int) =~= m.take(i as int) + seq![
                (k@, w),
            ]);
        }
        (i, false)
    }

    /// Puts `v` under `k`.
    pub fn insert(&mut self, k: &str, v: V)
        ensures
            final(self)@ == put(old(self)@, k@, v.deep_view()),
    {
        let (i, there) = self.place(k);
        let ghost m = self@;
        if there {
            self.entries[i] = (k.to_owned(), v);
        } else {
            self.entries.insert(i, (k.to_owned(), v));
        }
        assert(self@ =~= put(m, k@, v.deep_view()));
    }

    /// The value under `k`, to be changed; it is `v` where nothing was under `k`.
    pub fn slot(&mut self, k: &str, v: V) -> (r: &mut V)
        requires
            ascending(old(self)@),
        ensures
            r.deep_view() == match lookup(old(self)@, k@) {
                Some(w) => w,
                None => v.deep_view(),
            },
            final(self)@ == put(old(self)@, k@, final(r).deep_view()),
    {
        let (i, there) = self.place(k);
        let ghost m = self@;
        if !there {
            self.entries.insert(i, (k.to_owned(), v));
        }
        &mut self.entries[i].1
    }
}

/// Where a key is before that at place `i`, the map holds it at no later place.
pub proof fn lemma_absent_before<W>(m: Seq<(Seq<char>, W)>, k: Seq<char>, i: int)
    requires
        ascending(m),
        0 <= i < m.len(),
        before(k, m[i].0),
    ensures
        lookup(m.skip(i), k) is None,
    decreases m.len() - i,
{
    lemma_before_total(k, k);
    assert(m.skip(i)[0] == m[i]);
    assert(m.skip(i).skip(1) == m.skip(i + 1));
    if i + 1 < m.len() {
        assert(before(m[i].0, m[i + 1].0));
        lemma_before_transitive(k, m[i].0, m[i + 1].0);
        lemma_absent_before(m, k, i + 1);
    }
}

/// Putting a value under a key keeps the order of the keys.
pub proof fn law_put_ascending<W>(m: Seq<(Seq<char>, W)>, k: Seq<char>, w: W)
    requires
        ascending(m),
    ensures
        ascending(put(m, k, w)),
        forall|i: int| 0 <= i < put(m, k, w).len() ==> (#[trigger] put(m, k, w)[i]).0 == k || exists|
            j: int,
        | 0 <= j < m.len() && put(m, k, w)[i].0 == (#[trigger] m[j]).0,
    decreases m.len(),
{
    let p = put(m, k, w);
    if m.len() > 0 && m[0].0 != k {
        lemma_before_total(k, m[0].0);
        if before(k, m[0].0) {
            assert forall|i: int, j: int| 0 <= i < j < p.len() implies before(
                #[trigger] p[i].0,
                #[trigger] p[j].0,
            ) by {
                assert(p[j] == m[j - 1]);
                if i == 0 {
                    if j > 1 {
                        lemma_before_transitive(k, m[0].0, m[j - 1].0);
                    }
                } else {
                    assert(p[i] == m[i - 1]);
                }
            }
            assert forall|i: int| 0 <= i < p.len() implies (#[trigger] p[i]).0 == k || exists|j: int|
                0 <= j < m.len() && p[i].0 == (#[trigger] m[j]).0 by {
                if i > 0 {
                    assert(p[i] == m[i - 1]);
                }
            }
        } else {
            let rest = m.skip(1);
            let q = put(rest, k, w);
            assert(ascending(rest)) by {
                assert forall|i: int, j: int| 0 <= i < j < rest.len() implies before(
                    #[trigger] rest[i].0,
                    #[trigger] rest[j].0,
                ) by {
                    assert(rest[i] == m[i + 1] && rest[j] == m[j + 1]);
                }
            }
            law_put_ascending(rest, k, w);
            assert forall|i: int| 0 <= i < p.len() implies (#[trigger] p[i]).0 == k || exists|j: int|
                0 <= j < m.len() && p[i].0 == (#[trigger] m[j]).0 by {
                if i == 0 {
                    assert(p[0].0 == m[0].0);
                } else {
                    assert(p[i] == q[i - 1]);
                    if q[i - 1].0 != k {
                        let j = choose|j: int| 0 <= j < rest.len() && q[i - 1].0 == (#[trigger] rest[j]).0;
                        assert(rest[j] == m[j + 1]);
                    }
                }
            }
            assert forall|i: int, j: int| 0 <= i < j < p.len() implies before(
                #[trigger] p[i].0,
                #[trigger] p[j].0,
            ) by {
                assert(p[j] == q[j - 1]);
                if i == 0 {
                    if q[j - 1].0 != k {
                        let l = choose|l: int| 0 <= l < rest.len() && q[j - 1].0 == (#[trigger] rest[l]).0;
                        assert(rest[l] == m[l + 1]);
                    }
                } else {
                    assert(p[i] == q[i - 1]);
                }
            }
        }
    } else if m.len() > 0 {
        assert forall|i: int| 0 <= i < p.len() implies p[i].0 == #[trigger] m[i].0 by {}
        assert forall|i: int| 0 <= i < p.len() implies (#[trigger] p[i]).0 == k || exists|j: int|
            0 <= j < m.len() && p[i].0 == (#[trigger] m[j]).0 by {
            assert(p[i].0 == m[i].0);
        }
    }
}

/// A key that was put gives its value.
pub proof fn law_lookup_put<W>(m: Seq<(Seq<char>, W)>, k: Seq<char>, w: W)
    ensures
        lookup(put(m, k, w), k) == Some(w),
    decreases m.len(),
{
    if m.len() > 0 && m[0].0 != k && !before(k, m[0].0) {
        law_lookup_put(m.skip(1), k, w);
        let p = put(m, k, w);
        assert(p.skip(1) == put(m.skip(1), k, w));
    }
}

/// Putting a value under one key leaves the values under the others.
pub proof fn law_lookup_put_other<W>(m: Seq<(Seq<char>, W)>, k: Seq<char>, w: W, other: Seq<char>)
    requires
        other != k,
    ensures
        lookup(put(m, k, w), other) == lookup(m, other),
    decreases m.len(),
{
    let p = put(m, k, w);
    if m.len() == 0 {
        assert(p.skip(1) == m);
    } else if m[0].0 == k {
        assert(p.skip(1) == m.skip(1));
    } else if before(k, m[0].0) {
        assert(p.skip(1) == m);
    } else {
        law_lookup_put_other(m.skip(1), k, w, other);
        assert(p.skip(1) == put(m.skip(1), k, w));
    }
}

} // verus!
