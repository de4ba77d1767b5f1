//! Sets of texts.

use vstd::prelude::*;

use crate::text::has_member;

verus! {

/// A set of texts.
pub struct TextSet {
    members: Vec<String>,
}

impl View for TextSet {
    type V = Set<Seq<char>>;

    closed spec fn view(&self) -> Set<Seq<char>> {
        self.members.deep_view().to_set()
    }
}

impl TextSet {
    #[verifier::type_invariant]
    spec fn once_each(&self) -> bool {
        self.members.deep_view().no_duplicates()
    }

    /// The empty set.
    pub fn new() -> (r: Self)
        ensures
            r@ == Set::<Seq<char>>::empty(),
    {
        let members: Vec<String> = Vec::new();
        assert(members.deep_view() =~= Seq::empty());
        let r = TextSet { members };
        assert(r@ =~= Set::<Seq<char>>::empty());
        r
    }

    /// How many texts the set holds.
    pub fn len(&self) -> (r: usize)
        ensures
            r == self@.len(),
            self@.finite(),
    {
        proof {
            use_type_invariant(self);
            self.members.deep_view().unique_seq_to_set();
            vstd::seq_lib::seq_to_set_is_finite(self.members.deep_view());
        }
        self.members.len()
    }

    /// Whether the set holds nothing.
    pub fn is_empty(&self) -> (r: bool)
        ensures
            r == (self@ == Set::<Seq<char>>::empty()),
    {
        proof {
            let d = self.members.deep_view();
            if d.len() > 0 {
                assert(d.to_set().contains(d[0]));
            } else {
                assert(d.to_set() =~= Set::<Seq<char>>::empty());
            }
        }
        self.members.len() == 0
    }

    /// Whether the set holds `t`.
    pub fn contains(&self, t: &str) -> (r: bool)
        ensures
            r == self@.contains(t@),
    {
        has_member(&self.members, t)
    }

    /// Puts `t` into the set.
    pub fn insert(&mut self, t: &str)
        ensures
            final(self)@ == old(self)@.insert(t@),
    {
        proof {
            use_type_invariant(&*self);
        }
        let ghost d = self.members.deep_view();
        if has_member(&self.members, t) {
            assert(self@ =~= old(self)@.insert(t@));
            return;
        }
        let mut members: Vec<String> = Vec::new();
        assert(members.deep_view() =~= Seq::empty());
        std::mem::swap(&mut members, &mut self.members);
        members.push(t.to_owned());
        assert(members.deep_view() =~= d.push(t@));
        self.members = members;
        assert(self@ =~= old(self)@.insert(t@)) by {
            d.lemma_push_to_set_commute(t@);
        }
    }

    /// Takes `t` out of the set.
    pub fn remove(&mut self, t: &str)
        ensures
            final(self)@ == old(self)@.remove(t@),
    {
        proof {
            use_type_invariant(&*self);
        }
        let ghost d = self.members.deep_view();
        let n: usize = self.members.len();
        let mut i: usize = 0;
        while i < n
            invariant
                i <= n,
                n == self.members@.len(),
                d == self.members.deep_view(),
                d == old(self).members.deep_view(),
                d.no_duplicates(),
                forall|j: int| 0 <= j < i ==> d[j] != t@,
            decreases n - i,
        {
            assert(d[i as int] == self.members@[i as int]@);
            if crate::text::same_text(self.members[i].as_str(), t) {
                let mut members: Vec<String> = Vec::new();
                assert(members.deep_view() =~= Seq::empty());
                std::mem::swap(&mut members, &mut self.members);
                let _ = members.remove(i);
                assert(members.deep_view() =~= d.remove(i as int));
                self.members = members;
                assert(self@ =~= old(self)@.remove(t@)) by {
                    let e = d.remove(i as int);
                    assert forall|x: Seq<char>| e.contains(x) == (d.contains(x) && x != t@) by {
                        if e.contains(x) {
                            let k = choose|k: int| 0 <= k < e.len() && e[k] == x;
                            if k < i {
                                assert(d[k] == x);
                            } else {
                                assert(d[k + 1] == x);
                            }
                        }
                        if d.contains(x) && x != t@ {
                            let k = choose|k: int| 0 <= k < d.len() && d[k] == x;
                            if k < i {
                                assert(e[k] == x);
                            } else {
                                assert(e[k - 1] == x);
                            }
                        }
                    }
                }
                return;
            }
            i += 1;
        }
        assert(self@ =~= old(self)@.remove(t@));
    }

    /// Another set with the same texts.
    pub fn copy(&self) -> (r: Self)
        ensures
            r@ == self@,
    {
        proof {
            use_type_invariant(self);
        }
        TextSet { members: crate::text::copy_texts(&self.members) }
    }

    /// The set of the texts of `v`.
    pub fn of(v: &Vec<String>) -> (r: Self)
        ensures
            r@ == v.deep_view().to_set(),
    {
        let mut r = TextSet::new();
        let ghost d = v.deep_view();
        let mut i: usize = 0;
        assert(d.take(0).to_set() =~= Set::<Seq<char>>::empty());
        while i < v.len()
            invariant
                i <= v@.len(),
                d == v.deep_view(),
                r@ == d.take(i as int).to_set(),
            decreases v@.len() - i,
        {
            assert(d[i as int] == v@[i as int]@);
            assert(d.take(i + 1) =~= d.take(i as int).push(d[i as int]));
            proof {
                d.take(i as int).lemma_push_to_set_commute(d[i as int]);
            }
            r.insert(v[i].as_str());
            i += 1;
        }
        assert(d.take(i as int) == d);
        r
    }

    /// The texts of `self` that are not in `other`.
    pub fn minus(&self, other: &TextSet) -> (r: Self)
        ensures
            r@ == self@.difference(other@),
    {
        let mut r = TextSet::new();
        let ghost d = self.members.deep_view();
        let mut i: usize = 0;
        assert(d.take(0).to_set() =~= Set::<Seq<char>>::empty());
        assert(r@ =~= d.take(0).to_set().difference(other@));
        while i < self.members.len()
            invariant
                i <= self.members@.len(),
                d == self.members.deep_view(),
                r@ == d.take(i as int).to_set().difference(other@),
            decreases self.members@.len() - i,
        {
            assert(d[i as int] == self.members@[i as int]@);
            assert(d.take(i + 1) =~= d.take(i as int).push(d[i as int]));
            proof {
                d.take(i as int).lemma_push_to_set_commute(d[i as int]);
            }
            if !other.contains(self.members[i].as_str()) {
                r.insert(self.members[i].as_str());
            }
            assert(r@ =~= d.take(i + 1).to_set().difference(other@));
            i += 1;
        }
        assert(d.take(i as int) == d);
        r
    }

    /// The texts that are in `self` or in `other`.
    pub fn plus(&self, other: &TextSet) -> (r: Self)
        ensures
            r@ == self@.union(other@),
    {
        let mut r = self.copy();
        let ghost d = other.members.deep_view();
        let mut i: usize = 0;
        assert(r@ =~= self@.union(d.take(0).to_set()));
        while i < other.members.len()
            invariant
                i <= other.members@.len(),
                d == other.members.deep_view(),
                r@ == self@.union(d.take(i as int).to_set()),
            decreases other.members@.len() - i,
        {
            assert(d[i as int] == other.members@[i as int]@);
            assert(d.take(i + 1) =~= d.take(i as int).push(d[i as int]));
            proof {
                d.take(i as int).lemma_push_to_set_commute(d[i as int]);
            }
            r.insert(other.members[i].as_str());
            assert(r@ =~= self@.union(d.take(i + 1).to_set()));
            i += 1;
        }
        assert(d.take(i as int) == d);
        r
    }
}

} // verus!
