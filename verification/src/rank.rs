//! Ranking by scores. Scores are floating-point numbers, carried as bit patterns.

use vstd::prelude::*;

use crate::bits::above32;
#[allow(unused_imports)]
use crate::bits::{gt32, nan32, rank32};

verus! {

/// The place of the part that dominates the first `n` parts: a part gives way to a later one
/// unless it is above it.
pub open spec fn leader(parts: Seq<u32>, n: nat) -> int
    decreases n,
{
    if n <= 1 {
        0
    } else {
        let l = leader(parts, (n - 1) as nat);
        if gt32(parts[l], parts[n - 1]) {
            l
        } else {
            n - 1
        }
    }
}

/// The place of the greatest of `parts`, the last of them where several are equal.
pub fn dominant(parts: &[u32; 4]) -> (r: usize)
    ensures
        r == leader(parts@, 4),
        r < 4,
{
    let mut l: usize = 0;
    let mut n: usize = 1;
    while n < 4
        invariant
            1 <= n <= 4,
            l < n,
            l == leader(parts@, n as nat),
        decreases 4 - n,
    {
        if !above32(parts[l], parts[n]) {
            l = n;
        }
        n += 1;
    }
    l
}

/// The leading part is not below any part, and above those behind it.
pub proof fn law_leader_is_greatest(parts: Seq<u32>, n: nat)
    requires
        0 < n <= parts.len(),
        forall|i: int| 0 <= i < n ==> !nan32(#[trigger] parts[i]),
    ensures
        0 <= leader(parts, n) < n,
        forall|i: int| 0 <= i < n ==> rank32(#[trigger] parts[i]) <= rank32(parts[leader(parts, n)]),
        forall|i: int|
            leader(parts, n) < i < n ==> rank32(#[trigger] parts[i]) < rank32(
                parts[leader(parts, n)],
            ),
    decreases n,
{
    if n > 1 {
        law_leader_is_greatest(parts, (n - 1) as nat);
    }
}

/// The place in `order` before which item `x` goes: the first whose item `x` is above, from
/// place `from` on.
pub open spec fn way_up(above: spec_fn(int, int) -> bool, order: Seq<int>, x: int, from: int) -> int
    decreases order.len() - from,
{
    if from < 0 || from >= order.len() || above(x, order[from]) {
        from
    } else {
        way_up(above, order, x, from + 1)
    }
}

/// The first `n` items from the highest to the lowest: one after the other, each goes before
/// the first that it is above.
pub open spec fn ranked(above: spec_fn(int, int) -> bool, n: nat) -> Seq<int>
    decreases n,
{
    if n == 0 {
        Seq::empty()
    } else {
        let order = ranked(above, (n - 1) as nat);
        order.insert(way_up(above, order, n - 1, 0), n - 1)
    }
}

/// The items of some scores from the highest score to the lowest.
pub open spec fn by_score(scores: Seq<u32>) -> Seq<int> {
    ranked(|x: int, y: int| gt32(scores[x], scores[y]), scores.len())
}

/// The items of some keys from the highest key to the lowest.
pub open spec fn by_key(keys: Seq<u128>) -> Seq<int> {
    ranked(|x: int, y: int| keys[x] > keys[y], keys.len())
}

proof fn lemma_way_up(above: spec_fn(int, int) -> bool, order: Seq<int>, x: int, from: int)
    requires
        0 <= from <= order.len(),
    ensures
        from <= way_up(above, order, x, from) <= order.len(),
        forall|k: int|
            from <= k < way_up(above, order, x, from) ==> !above(x, #[trigger] order[k]),
        way_up(above, order, x, from) < order.len() ==> above(
            x,
            order[way_up(above, order, x, from)],
        ),
    decreases order.len() - from,
{
    if from < order.len() && !above(x, order[from]) {
        lemma_way_up(above, order, x, from + 1);
    }
}

/// Ranking keeps every item, once.
pub proof fn law_ranked_keeps(above: spec_fn(int, int) -> bool, n: nat)
    ensures
        ranked(above, n).len() == n,
        forall|k: int| 0 <= k < n ==> 0 <= #[trigger] ranked(above, n)[k] < n,
        ranked(above, n).no_duplicates(),
    decreases n,
{
    if n > 0 {
        law_ranked_keeps(above, (n - 1) as nat);
        let order = ranked(above, (n - 1) as nat);
        lemma_way_up(above, order, n - 1, 0);
        let w = way_up(above, order, n - 1, 0);
        let r = ranked(above, n);
        order.insert_ensures(w, n - 1);
        assert forall|k: int| 0 <= k < n implies 0 <= #[trigger] r[k] < n && (k != w ==> r[k] < n
            - 1) by {
            if k < w {
                assert(r[k] == order[k]);
            } else if k > w {
                assert(r[k] == order[k - 1]);
            }
        }
        assert forall|i: int, j: int| 0 <= i < n && 0 <= j < n && i != j implies r[i] != r[j] by {
            let a = if i < w {
                i
            } else {
                i - 1
            };
            let b = if j < w {
                j
            } else {
                j - 1
            };
            if i != w && j != w {
                assert(r[i] == order[a] && r[j] == order[b]);
            }
        }
    }
}

/// Ranking leaves no item out.
pub proof fn law_ranked_complete(above: spec_fn(int, int) -> bool, n: nat, x: int)
    requires
        0 <= x < n,
    ensures
        ranked(above, n).contains(x),
    decreases n,
{
    let order = ranked(above, (n - 1) as nat);
    law_ranked_keeps(above, (n - 1) as nat);
    lemma_way_up(above, order, n - 1, 0);
    let w = way_up(above, order, n - 1, 0);
    let r = ranked(above, n);
    order.insert_ensures(w, n - 1);
    if x == n - 1 {
        assert(r[w] == x);
    } else {
        law_ranked_complete(above, (n - 1) as nat, x);
        let k = choose|k: int| 0 <= k < order.len() && order[k] == x;
        if k < w {
            assert(r[k] == x);
        } else {
            assert(r[k + 1] == x);
        }
    }
}

/// Whether `above` sorts the first `n` items into levels: of two items at most one is above
/// the other, and an item is above another only where each third item is below the first or
/// above the second.
pub open spec fn levels(above: spec_fn(int, int) -> bool, n: nat) -> bool {
    &&& forall|x: int, y: int|
        0 <= x < n && 0 <= y < n && #[trigger] above(x, y) ==> !above(y, x)
    &&& forall|x: int, y: int, z: int|
        #![trigger above(x, y), above(y, z)]
        0 <= x < n && 0 <= y < n && 0 <= z < n && above(x, z) ==> above(x, y) || above(y, z)
}

/// Whether no item of `order` is above one before it, and items of which none is above the
/// other stand by their places.
pub open spec fn falling(above: spec_fn(int, int) -> bool, order: Seq<int>) -> bool {
    forall|i: int, j: int|
        0 <= i < j < order.len() ==> above(#[trigger] order[i], #[trigger] order[j]) || (!above(
            order[j],
            order[i],
        ) && order[i] < order[j])
}

/// Ranking puts the items of a relation of levels into falling order, equal items staying in
/// theirs.
pub proof fn law_ranked_falls(above: spec_fn(int, int) -> bool, n: nat)
    requires
        levels(above, n),
    ensures
        falling(above, ranked(above, n)),
    decreases n,
{
    if n > 0 {
        law_ranked_falls(above, (n - 1) as nat);
        law_ranked_keeps(above, (n - 1) as nat);
        let order = ranked(above, (n - 1) as nat);
        lemma_way_up(above, order, n - 1, 0);
        let w = way_up(above, order, n - 1, 0);
        let r = ranked(above, n);
        order.insert_ensures(w, n - 1);
        assert forall|i: int, j: int| 0 <= i < j < r.len() implies above(
            #[trigger] r[i],
            #[trigger] r[j],
        ) || (!above(r[j], r[i]) && r[i] < r[j]) by {
            if i == w {
                assert(r[j] == order[j - 1]);
                assert(above(n - 1, order[w]));
                if j - 1 > w {
                    let lo = order[j - 1];
                    assert(!above(lo, order[w])) by {
                        assert(above(order[w], lo) || !above(lo, order[w]));
                    }
                    assert(above(n - 1, lo) || above(lo, order[w]));
                }
            } else if j == w {
                assert(r[i] == order[i]);
                assert(!above(n - 1, order[i]));
            } else {
                let a = if i < w {
                    i
                } else {
                    i - 1
                };
                let b = if j < w {
                    j
                } else {
                    j - 1
                };
                assert(r[i] == order[a] && r[j] == order[b]);
            }
        }
    }
}

/// Scores that are numbers are ranked from the highest to the lowest, equal ones staying in
/// their order.
pub proof fn law_scores_fall(scores: Seq<u32>)
    requires
        forall|k: int| 0 <= k < scores.len() ==> !nan32(#[trigger] scores[k]),
    ensures
        by_score(scores).len() == scores.len(),
        forall|i: int, j: int|
            0 <= i < j < scores.len() ==> {
                let a = #[trigger] by_score(scores)[i];
                let b = #[trigger] by_score(scores)[j];
                rank32(scores[a]) > rank32(scores[b]) || (rank32(scores[a]) == rank32(scores[b])
                    && a < b)
            },
{
    let above = |x: int, y: int| gt32(scores[x], scores[y]);
    law_ranked_keeps(above, scores.len());
    assert(levels(above, scores.len())) by {
        assert forall|x: int, y: int, z: int|
            #![trigger above(x, y), above(y, z)]
            0 <= x < scores.len() && 0 <= y < scores.len() && 0 <= z < scores.len() && above(
                x,
                z,
            ) implies above(x, y) || above(y, z) by {
            assert(!nan32(scores[x]) && !nan32(scores[y]) && !nan32(scores[z]));
        }
    }
    law_ranked_falls(above, scores.len());
    let r = by_score(scores);
    assert forall|i: int, j: int| 0 <= i < j < scores.len() implies ({
        let a = #[trigger] r[i];
        let b = #[trigger] r[j];
        rank32(scores[a]) > rank32(scores[b]) || (rank32(scores[a]) == rank32(scores[b]) && a < b)
    }) by {
        assert(!nan32(scores[r[i]]) && !nan32(scores[r[j]]));
    }
}

/// Keys are ranked from the highest to the lowest, equal ones staying in their order.
pub proof fn law_keys_fall(keys: Seq<u128>)
    ensures
        by_key(keys).len() == keys.len(),
        forall|i: int, j: int|
            0 <= i < j < keys.len() ==> {
                let a = #[trigger] by_key(keys)[i];
                let b = #[trigger] by_key(keys)[j];
                keys[a] > keys[b] || (keys[a] == keys[b] && a < b)
            },
{
    let above = |x: int, y: int| keys[x] > keys[y];
    law_ranked_keeps(above, keys.len());
    assert(levels(above, keys.len()));
    law_ranked_falls(above, keys.len());
}

/// A list of places as a sequence of integers.
pub open spec fn as_ints(v: Seq<usize>) -> Seq<int> {
    v.map_values(|i: usize| i as int)
}

/// The items from the highest score to the lowest.
pub fn rank_scores(scores: &Vec<u32>) -> (r: Vec<usize>)
    ensures
        as_ints(r@) == by_score(scores@),
        r@.len() == scores@.len(),
        forall|k: int| 0 <= k < r@.len() ==> #[trigger] r@[k] < scores@.len(),
{
    let ghost above = |x: int, y: int| gt32(scores[x], scores[y]);
    let mut order: Vec<usize> = Vec::new();
    let mut n: usize = 0;
    assert(as_ints(order@) =~= ranked(above, 0));
    while n < scores.len()
        invariant
            above == (|x: int, y: int| gt32(scores[x], scores[y])),
            n <= scores@.len(),
            order@.len() == n,
            as_ints(order@) == ranked(above, n as nat),
            forall|k: int| 0 <= k < n ==> #[trigger] order@[k] < n,
        decreases scores@.len() - n,
    {
        let ghost o = as_ints(order@);
        assert(forall|k: int| 0 <= k < n ==> #[trigger] o[k] == order@[k]);
        let mut w: usize = 0;
        while w < n && !above32(scores[n], scores[order[w]])
            invariant
                above == (|x: int, y: int| gt32(scores[x], scores[y])),
                w <= n < scores@.len(),
                order@.len() == n,
                o == as_ints(order@),
                forall|k: int| 0 <= k < n ==> #[trigger] o[k] == order@[k],
                forall|k: int| 0 <= k < n ==> #[trigger] order@[k] < n,
                way_up(above, o, n as int, 0) == way_up(above, o, n as int, w as int),
            decreases n - w,
        {
            assert(o[w as int] == order@[w as int]);
            w += 1;
        }
        assert(w < n ==> o[w as int] == order@[w as int]);
        assert(way_up(above, o, n as int, 0) == w);
        let ghost before = order@;
        order.insert(w, n);
        assert(as_ints(order@) =~= o.insert(w as int, n as int));
        assert forall|k: int| 0 <= k < n + 1 implies #[trigger] order@[k] < n + 1 by {
            if k < w {
                assert(order@[k] == before[k]);
            } else if k > w {
                assert(order@[k] == before[k - 1]);
            }
        }
        n += 1;
    }
    order
}

/// The items from the highest key to the lowest.
pub fn rank_keys(keys: &Vec<u128>) -> (r: Vec<usize>)
    ensures
        as_ints(r@) == by_key(keys@),
        r@.len() == keys@.len(),
        forall|k: int| 0 <= k < r@.len() ==> #[trigger] r@[k] < keys@.len(),
{
    let ghost above = |x: int, y: int| keys[x] > keys[y];
    let mut order: Vec<usize> = Vec::new();
    let mut n: usize = 0;
    assert(as_ints(order@) =~= ranked(above, 0));
    while n < keys.len()
        invariant
            above == (|x: int, y: int| keys[x] > keys[y]),
            n <= keys@.len(),
            order@.len() == n,
            as_ints(order@) == ranked(above, n as nat),
            forall|k: int| 0 <= k < n ==> #[trigger] order@[k] < n,
        decreases keys@.len() - n,
    {
        let ghost o = as_ints(order@);
        assert(forall|k: int| 0 <= k < n ==> #[trigger] o[k] == order@[k]);
        let mut w: usize = 0;
        while w < n && !(keys[n] > keys[order[w]])
            invariant
                above == (|x: int, y: int| keys[x] > keys[y]),
                w <= n < keys@.len(),
                order@.len() == n,
                o == as_ints(order@),
                forall|k: int| 0 <= k < n ==> #[trigger] o[k] == order@[k],
                forall|k: int| 0 <= k < n ==> #[trigger] order@[k] < n,
                way_up(above, o, n as int, 0) == way_up(above, o, n as int, w as int),
            decreases n - w,
        {
            assert(o[w as int] == order@[w as int]);
            w += 1;
        }
        assert(w < n ==> o[w as int] == order@[w as int]);
        assert(way_up(above, o, n as int, 0) == w);
        let ghost before = order@;
        order.insert(w, n);
        assert(as_ints(order@) =~= o.insert(w as int, n as int));
        assert forall|k: int| 0 <= k < n + 1 implies #[trigger] order@[k] < n + 1 by {
            if k < w {
                assert(order@[k] == before[k]);
            } else if k > w {
                assert(order@[k] == before[k - 1]);
            }
        }
        n += 1;
    }
    order
}

} // verus!
