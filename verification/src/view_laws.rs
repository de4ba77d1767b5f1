//! What holds of everything that is recommended: which champions are in a list or on a lane, in
//! which order, and what is shown of them.

use vstd::prelude::*;

#[allow(unused_imports)]
use crate::bits::{gt32, nan32, rank32};
#[allow(unused_imports)]
use crate::champs::{champ_id, champ_ko, ko_all, ko_of, law_ids_differ, place_of, CHAMP_COUNT};
#[allow(unused_imports)]
use crate::lanes::{
    any_seat,
    bare_lanes,
    countered,
    is_board_at,
    lane_best,
    lane_places,
    lane_shown,
    law_lanes_keep_their_picks,
    law_star,
    playable_seat,
    seat,
    seated,
    starred,
    tip_of,
    timing_of,
    with_star,
    LaneShown,
    LaneView,
    Seat,
};
#[allow(unused_imports)]
use crate::rank::{
    by_score,
    law_leader_is_greatest,
    law_ranked_complete,
    law_ranked_keeps,
    law_scores_fall,
    leader,
};
#[allow(unused_imports)]
use crate::recommend::{
    all_numbers,
    all_shown,
    best_places,
    is_open,
    is_view_at,
    label_of,
    law_best_places,
    law_recommends_open_champions,
    lemma_open_places_sound,
    open_places,
    totals,
    DraftView,
    Score,
    Shown,
};
#[allow(unused_imports)]
use crate::score::{BanSum, PickSum, TermsSum};
#[allow(unused_imports)]
use crate::state::Draft;
#[allow(unused_imports)]
use crate::table_laws::lemma_kept;
#[allow(unused_imports)]
use crate::tables::{pair, reading, tier_letter, Stats};

verus! {

/// The champion at place `i` of the list can be recommended for a draft: no side has picked or
/// banned it, and the pool, where there is one, has it.
pub proof fn law_open(d: Draft, pool: Option<Set<Seq<char>>>, i: int)
    ensures
        is_open(d, pool, i) ==> !d.ally_pick.contains(champ_id(i)) && !d.enemy_pick.contains(
            champ_id(i),
        ) && !d.ally_ban.contains(champ_id(i)) && !d.enemy_ban.contains(champ_id(i)),
        is_open(d, pool, i) ==> (pool matches Some(p) ==> p.contains(champ_id(i))),
        !is_open(d, pool, i) ==> d.ally_pick.contains(champ_id(i)) || d.enemy_pick.contains(
            champ_id(i),
        ) || d.ally_ban.contains(champ_id(i)) || d.enemy_ban.contains(champ_id(i)) || (pool
            matches Some(p) && !p.contains(champ_id(i))),
{
}

/// Whether no part of `parts` is above the one at `m`, and none behind it equals it.
pub open spec fn leads(parts: Seq<u32>, m: int) -> bool {
    forall|x: int|
        0 <= x < 4 ==> rank32(#[trigger] parts[x]) <= rank32(parts[m]) && (x > m ==> rank32(
            parts[x],
        ) < rank32(parts[m]))
}

/// A score is labelled by its greatest part, the last where several are equal.
pub proof fn law_label(parts: Seq<u32>)
    requires
        parts.len() == 4,
        forall|x: int| 0 <= x < 4 ==> !nan32(#[trigger] parts[x]),
    ensures
        leads(parts, 0) ==> label_of(false, parts) == "강챔"@ && label_of(true, parts) == "강챔"@,
        leads(parts, 1) ==> label_of(false, parts) == "시너지"@ && label_of(true, parts)
            == "우리킬"@,
        leads(parts, 2) ==> label_of(false, parts) == "카운터"@ && label_of(true, parts)
            == "적시너지"@,
        leads(parts, 3) ==> label_of(false, parts) == "조합"@ && label_of(true, parts) == "밴율"@,
        leads(parts, 0) || leads(parts, 1) || leads(parts, 2) || leads(parts, 3),
{
    law_leader_is_greatest(parts, 4);
    let m = leader(parts, 4);
    assert(leads(parts, m));
    assert(forall|k: int| 0 <= k < 4 && #[trigger] leads(parts, k) ==> k == m) by {
        assert forall|k: int| 0 <= k < 4 && #[trigger] leads(parts, k) implies k == m by {
            assert(rank32(parts[k]) <= rank32(parts[m]));
            assert(rank32(parts[m]) <= rank32(parts[k]));
        }
    }
}

/// Whether some places go upwards.
pub open spec fn rises(c: Seq<int>) -> bool {
    forall|j: int, k: int| 0 <= j < k < c.len() ==> #[trigger] c[j] < #[trigger] c[k]
}

proof fn lemma_kept_rises(c: Seq<int>, p: spec_fn(int) -> bool)
    requires
        rises(c),
    ensures
        rises(c.filter(p)),
        c.filter(p).len() > 0 ==> c.len() > 0 && c.filter(p).last() <= c.last(),
    decreases c.len(),
{
    reveal(Seq::filter);
    if c.len() > 0 {
        let front = c.drop_last();
        assert(forall|k: int| 0 <= k < front.len() ==> #[trigger] front[k] == c[k]);
        lemma_kept_rises(front, p);
        let kept = front.filter(p);
        if kept.len() > 0 {
            assert(c[front.len() - 1] < c[c.len() - 1]);
            assert forall|j: int| 0 <= j < kept.len() implies #[trigger] kept[j] < c.last() by {
                if j < kept.len() - 1 {
                    assert(kept[j] < kept[kept.len() - 1]);
                }
            }
        }
    }
}

proof fn lemma_open_rises(d: Draft, pool: Option<Set<Seq<char>>>)
    ensures
        rises(open_places(d, pool)),
{
    lemma_kept_rises(
        crate::recommend::places(CHAMP_COUNT as nat),
        |i: int| is_open(d, pool, i),
    );
}

/// What the rows of the best of some places show: at most `n`, fewer only where all places are
/// shown.
proof fn lemma_rows(
    t: Stats,
    c: Seq<int>,
    scored: Seq<Score>,
    n: nat,
    ban: bool,
    lane: Option<u8>,
    rows: Seq<Shown>,
)
    requires
        c.no_duplicates(),
        rises(c),
        forall|k: int| 0 <= k < c.len() ==> 0 <= #[trigger] c[k] < 60,
        scored.len() == 60,
        rows == all_shown(t, best_places(c, scored, n), scored, ban, lane),
    ensures
        rows.len() <= n,
        rows.len() == n || rows.len() == c.len(),
        forall|k: int|
            0 <= k < rows.len() ==> {
                let p = place_of(#[trigger] rows[k].id);
                &&& p is Some && 0 <= p->0 < 60
                &&& c.contains(p->0)
                &&& rows[k].id == champ_id(p->0)
                &&& rows[k].ko == champ_ko(p->0)
                &&& rows[k].score == scored[p->0].total
                &&& rows[k].label == label_of(ban, scored[p->0].parts)
                &&& rows[k].role == t.glyph(rows[k].id)
                &&& rows[k].tier == t.tier(rows[k].id, lane)
                &&& rows[k].low_conf <==> t.games_on(rows[k].id, lane) < 15
            },
        forall|j: int, k: int|
            0 <= j < k < rows.len() ==> #[trigger] rows[j].id != #[trigger] rows[k].id,
        rows.len() < n ==> forall|i: int| #[trigger]
            c.contains(i) ==> exists|k: int|
                0 <= k < rows.len() && #[trigger] rows[k].id == champ_id(i),
        all_numbers(scored) ==> forall|j: int, k: int|
            0 <= j < k < rows.len() ==> rank32(#[trigger] rows[j].score) > rank32(
                #[trigger] rows[k].score,
            ) || (rank32(rows[j].score) == rank32(rows[k].score) && place_of(rows[j].id)->0
                < place_of(rows[k].id)->0),
        all_numbers(scored) ==> forall|i: int, k: int|
            0 <= k < rows.len() && #[trigger] c.contains(i) && (forall|j: int|
                0 <= j < rows.len() ==> #[trigger] rows[j].id != champ_id(i)) ==> rank32(
                #[trigger] rows[k].score,
            ) >= rank32(scored[i].total),
{
    let best = best_places(c, scored, n);
    law_best_places(c, scored, n);
    assert forall|k: int| 0 <= k < rows.len() implies ({
        let p = place_of(#[trigger] rows[k].id);
        &&& p == Some(best[k])
        &&& 0 <= best[k] < 60
        &&& rows[k].ko == champ_ko(best[k])
    }) by {
        assert(c.contains(best[k]));
        let j = choose|j: int| 0 <= j < c.len() && c[j] == best[k];
        assert(0 <= c[j] < 60);
        law_ids_differ(best[k]);
    }
    assert forall|j: int, k: int| 0 <= j < k < rows.len() implies #[trigger] rows[j].id
        != #[trigger] rows[k].id by {
        assert(best[j] != best[k]);
        assert(place_of(rows[j].id) == Some(best[j]));
        assert(place_of(rows[k].id) == Some(best[k]));
    }
    if rows.len() < n {
        assert forall|i: int| #[trigger] c.contains(i) implies exists|k: int|
            0 <= k < rows.len() && #[trigger] rows[k].id == champ_id(i) by {
            let x = choose|x: int| 0 <= x < c.len() && c[x] == i;
            let tt = totals(c, scored);
            let above = |a: int, b: int| gt32(tt[a], tt[b]);
            law_ranked_complete(above, tt.len(), x);
            let order = by_score(tt);
            let q = choose|q: int| 0 <= q < order.len() && order[q] == x;
            law_ranked_keeps(above, tt.len());
            assert(best[q] == c[order[q]]);
            assert(rows[q].id == champ_id(i));
        }
    }
    if all_numbers(scored) {
        assert forall|i: int, k: int|
            0 <= k < rows.len() && #[trigger] c.contains(i) && (forall|j: int|
                0 <= j < rows.len() ==> #[trigger] rows[j].id != champ_id(i)) implies rank32(
            #[trigger] rows[k].score,
        ) >= rank32(scored[i].total) by {
            let x = choose|x: int| 0 <= x < c.len() && c[x] == i;
            if best.contains(c[x]) {
                let j = choose|j: int| 0 <= j < best.len() && best[j] == c[x];
                assert(rows[j].id == champ_id(i));
            }
            assert(rank32(scored[best[k]].total) >= rank32(scored[c[x]].total));
        }
        let tt = totals(c, scored);
        let order = by_score(tt);
        law_ranked_keeps(|a: int, b: int| gt32(tt[a], tt[b]), tt.len());
        assert forall|k: int| 0 <= k < tt.len() implies !nan32(#[trigger] tt[k]) by {
            assert(!nan32(scored[c[k]].total));
        }
        law_scores_fall(tt);
        assert forall|j: int, k: int| 0 <= j < k < rows.len() implies rank32(
            #[trigger] rows[j].score,
        ) > rank32(#[trigger] rows[k].score) || (rank32(rows[j].score) == rank32(rows[k].score)
            && place_of(rows[j].id)->0 < place_of(rows[k].id)->0) by {
            let a = order[j];
            let b = order[k];
            assert(best[j] == c[a] && best[k] == c[b]);
            assert(tt[a] == scored[best[j]].total && tt[b] == scored[best[k]].total);
            assert(place_of(rows[j].id) == Some(best[j]));
            assert(place_of(rows[k].id) == Some(best[k]));
        }
    }
}

/// A list recommends open champions, each once, with its score and its marks over all lanes:
/// eight, or all that are open.
pub proof fn law_list_rows(
    r: DraftView,
    t: Stats,
    d: Draft,
    human_is_enemy: bool,
    pool: Option<Set<Seq<char>>>,
    scored: Seq<Score>,
    now: u64,
    k: int,
    i: int,
)
    requires
        is_view_at(r, t, d, human_is_enemy, pool, scored, now),
        scored.len() == 60,
    ensures
        r.rows@.len() <= 8,
        r.rows@.len() < 8 && 0 <= i < 60 && is_open(d, pool, i) ==> exists|j: int|
            0 <= j < r.rows@.len() && (#[trigger] r.rows@[j]).id@ == champ_id(i),
        0 <= k < r.rows@.len() ==> ({
            let p = place_of(r.rows@[k].id@);
            &&& p is Some && 0 <= p->0 < 60 && is_open(d, pool, p->0)
            &&& r.rows@[k].ko@ == champ_ko(p->0)
            &&& r.rows@[k].score == scored[p->0].total
            &&& r.rows@[k].label@ == label_of(d.phase == "BAN"@, scored[p->0].parts)
            &&& r.rows@[k].role@ == t.glyph(r.rows@[k].id@)
            &&& r.rows@[k].tier@ == t.tier(r.rows@[k].id@, None)
            &&& r.rows@[k].low_conf <==> t.games_of(r.rows@[k].id@) < 15
        }),
{
    let c = open_places(d, pool);
    let rows = r.rows.deep_view();
    lemma_open_places_sound(d, pool);
    lemma_open_rises(d, pool);
    law_recommends_open_champions(d, pool, scored);
    lemma_rows(t, c, scored, 8, d.phase == "BAN"@, None, rows);
    if r.rows@.len() < 8 && 0 <= i < 60 && is_open(d, pool, i) {
        assert(c.contains(i));
        let j = choose|j: int| 0 <= j < rows.len() && #[trigger] rows[j].id == champ_id(i);
        assert(r.rows@[j].id@ == champ_id(i));
    }
    if 0 <= k < r.rows@.len() {
        assert(rows[k] == r.rows@[k].deep_view());
        let p = place_of(rows[k].id);
        assert(c.contains(p->0));
        let x = choose|x: int| 0 <= x < c.len() && c[x] == p->0;
        assert(is_open(d, pool, c[x]));
    }
}

/// Where the scores are numbers a list goes from the highest score to the lowest, champions
/// of the same score standing in the order of all champions, and no open champion that is left out has a higher one.
pub proof fn law_list_order(
    r: DraftView,
    t: Stats,
    d: Draft,
    human_is_enemy: bool,
    pool: Option<Set<Seq<char>>>,
    scored: Seq<Score>,
    now: u64,
    i: int,
)
    requires
        is_view_at(r, t, d, human_is_enemy, pool, scored, now),
        scored.len() == 60,
        forall|x: int| 0 <= x < 60 ==> !nan32((#[trigger] scored[x]).total),
    ensures
        forall|j: int, k: int|
            0 <= j < k < r.rows@.len() ==> rank32((#[trigger] r.rows@[j]).score) > rank32(
                (#[trigger] r.rows@[k]).score,
            ) || (rank32(r.rows@[j].score) == rank32(r.rows@[k].score) && place_of(
                r.rows@[j].id@,
            )->0 < place_of(r.rows@[k].id@)->0),
        0 <= i < 60 && is_open(d, pool, i) && (forall|j: int|
            0 <= j < r.rows@.len() ==> (#[trigger] r.rows@[j]).id@ != champ_id(i)) ==> forall|k: int|
            0 <= k < r.rows@.len() ==> rank32((#[trigger] r.rows@[k]).score) >= rank32(
                scored[i].total,
            ),
{
    let c = open_places(d, pool);
    let rows = r.rows.deep_view();
    lemma_open_places_sound(d, pool);
    lemma_open_rises(d, pool);
    law_recommends_open_champions(d, pool, scored);
    lemma_rows(t, c, scored, 8, d.phase == "BAN"@, None, rows);
    assert(forall|k: int| 0 <= k < rows.len() ==> #[trigger] rows[k] == r.rows@[k].deep_view());
    assert forall|j: int, k: int| 0 <= j < k < r.rows@.len() implies rank32(
        (#[trigger] r.rows@[j]).score,
    ) > rank32((#[trigger] r.rows@[k]).score) || (rank32(r.rows@[j].score) == rank32(
        r.rows@[k].score,
    ) && place_of(r.rows@[j].id@)->0 < place_of(r.rows@[k].id@)->0) by {
        assert(rank32(rows[j].score) > rank32(rows[k].score) || place_of(rows[j].id)->0 < place_of(
            rows[k].id,
        )->0);
    }
    if 0 <= i < 60 && is_open(d, pool, i) && (forall|j: int|
        0 <= j < r.rows@.len() ==> (#[trigger] r.rows@[j]).id@ != champ_id(i)) {
        assert(c.contains(i));
        assert forall|j: int| 0 <= j < rows.len() implies #[trigger] rows[j].id != champ_id(i) by {
            assert(r.rows@[j].id@ != champ_id(i));
        }
        assert forall|k: int| 0 <= k < r.rows@.len() implies rank32((#[trigger] r.rows@[k]).score)
            >= rank32(scored[i].total) by {
            assert(rank32(rows[k].score) >= rank32(scored[i].total));
        }
    }
}

/// A list says whether bans are due, names the picks and bans of both sides as the human sees
/// them, and how old the draft is, how many matches are behind it and how many champions are
/// offered.
pub proof fn law_list_head(
    r: DraftView,
    t: Stats,
    d: Draft,
    human_is_enemy: bool,
    pool: Option<Set<Seq<char>>>,
    scored: Seq<Score>,
    now: u64,
    k: int,
)
    requires
        is_view_at(r, t, d, human_is_enemy, pool, scored, now),
    ensures
        r.phase_ban <==> d.phase == "BAN"@,
        r.explore == d.explore,
        now >= d.ts ==> r.age_ms == now - d.ts,
        now <= d.ts ==> r.age_ms == 0,
        r.matches == t.matches,
        pool matches Some(p) ==> r.pool_size == p.len(),
        pool is None ==> r.pool_size == 0,
        ({
            let (mp, op, mb, ob) = if human_is_enemy {
                (d.enemy_pick, d.ally_pick, d.enemy_ban, d.ally_ban)
            } else {
                (d.ally_pick, d.enemy_pick, d.ally_ban, d.enemy_ban)
            };
            &&& r.my_pick@.len() == mp.len() && r.opp_pick@.len() == op.len()
            &&& r.my_ban@.len() == mb.len() && r.opp_ban@.len() == ob.len()
            &&& 0 <= k < mp.len() ==> r.my_pick@[k]@ == ko_of(mp[k])
            &&& 0 <= k < op.len() ==> r.opp_pick@[k]@ == ko_of(op[k])
            &&& 0 <= k < mb.len() ==> r.my_ban@[k]@ == ko_of(mb[k])
            &&& 0 <= k < ob.len() ==> r.opp_ban@[k]@ == ko_of(ob[k])
        }),
{
    let (mp, op, mb, ob) = if human_is_enemy {
        (d.enemy_pick, d.ally_pick, d.enemy_ban, d.ally_ban)
    } else {
        (d.ally_pick, d.enemy_pick, d.ally_ban, d.enemy_ban)
    };
    assert(r.my_pick.deep_view() == ko_all(mp));
    assert(r.opp_pick.deep_view() == ko_all(op));
    assert(r.my_ban.deep_view() == ko_all(mb));
    assert(r.opp_ban.deep_view() == ko_all(ob));
    assert(r.my_pick.deep_view().len() == r.my_pick@.len());
    assert(r.opp_pick.deep_view().len() == r.opp_pick@.len());
    assert(r.my_ban.deep_view().len() == r.my_ban@.len());
    assert(r.opp_ban.deep_view().len() == r.opp_ban@.len());
    assert(0 <= k < mp.len() ==> r.my_pick.deep_view()[k] == r.my_pick@[k]@);
    assert(0 <= k < op.len() ==> r.opp_pick.deep_view()[k] == r.opp_pick@[k]@);
    assert(0 <= k < mb.len() ==> r.my_ban.deep_view()[k] == r.my_ban@[k]@);
    assert(0 <= k < ob.len() ==> r.opp_ban.deep_view()[k] == r.opp_ban@[k]@);
}

/// Where a pick goes: to its most played lane where that is open; else to an open lane that it
/// plays, before which it plays none that is open; else to the first open lane; and to none
/// only where all are filled.
pub proof fn law_seat(t: Stats, filled: Seq<Option<int>>, id: Seq<char>)
    requires
        filled.len() == 5,
        t.primary_of(id) matches Some(p) ==> p < 5,
        forall|k: int| 0 <= k < t.lanes_of(id).len() ==> #[trigger] t.lanes_of(id)[k] < 5,
    ensures
        ({
            let plays = t.lanes_of(id);
            let at = seat(t, filled, id);
            let main = t.primary_of(id) matches Some(p) && filled[p as int] is None;
            let flex = exists|k: int|
                0 <= k < plays.len() && filled[#[trigger] plays[k] as int] is None;
            let any = exists|l: int| 0 <= l < 5 && #[trigger] filled[l] is None;
            &&& main ==> at == Seat::Lane(t.primary_of(id)->0 as usize)
            &&& !main && flex ==> exists|k: int|
                {
                    &&& 0 <= k < plays.len()
                    &&& filled[#[trigger] plays[k] as int] is None
                    &&& at == Seat::Lane(plays[k] as usize)
                    &&& forall|j: int| 0 <= j < k ==> filled[#[trigger] plays[j] as int] is Some
                }
            &&& !main && !flex && any ==> exists|l: int|
                {
                    &&& 0 <= l < 5
                    &&& #[trigger] filled[l] is None
                    &&& at == Seat::Lane(l as usize)
                    &&& forall|m: int| 0 <= m < l ==> #[trigger] filled[m] is Some
                }
            &&& !any ==> at == Seat::Bench
        }),
{
    let plays = t.lanes_of(id);
    lemma_first_playable(filled, plays, 0);
    lemma_first_open(filled, 0);
    if exists|k: int| 0 <= k < plays.len() && filled[#[trigger] plays[k] as int] is None {
        let k = choose|k: int| 0 <= k < plays.len() && filled[#[trigger] plays[k] as int] is None;
        assert(filled[plays[k] as int] is None);
    }
}

proof fn lemma_first_playable(filled: Seq<Option<int>>, plays: Seq<u8>, from: int)
    requires
        filled.len() == 5,
        0 <= from <= plays.len(),
        forall|k: int| 0 <= k < plays.len() ==> #[trigger] plays[k] < 5,
    ensures
        match playable_seat(filled, plays, from) {
            Seat::Lane(l) => exists|k: int|
                {
                    &&& from <= k < plays.len()
                    &&& filled[#[trigger] plays[k] as int] is None
                    &&& l == plays[k]
                    &&& forall|j: int| from <= j < k ==> filled[#[trigger] plays[j] as int] is Some
                },
            Seat::Bench => forall|k: int|
                from <= k < plays.len() ==> filled[#[trigger] plays[k] as int] is Some,
            Seat::Nowhere => false,
        },
    decreases plays.len() - from,
{
    if from < plays.len() {
        assert(plays[from] < 5);
        if filled[plays[from] as int] is Some {
            lemma_first_playable(filled, plays, from + 1);
            if let Seat::Lane(l) = playable_seat(filled, plays, from + 1) {
                let k = choose|k: int|
                    {
                        &&& from + 1 <= k < plays.len()
                        &&& filled[#[trigger] plays[k] as int] is None
                        &&& l == plays[k]
                        &&& forall|j: int|
                            from + 1 <= j < k ==> filled[#[trigger] plays[j] as int] is Some
                    };
                assert(filled[plays[k] as int] is None);
            }
        }
    }
}

proof fn lemma_first_open(filled: Seq<Option<int>>, from: int)
    requires
        filled.len() == 5,
        0 <= from <= 5,
    ensures
        match any_seat(filled, from) {
            Seat::Lane(l) => from <= l < 5 && filled[l as int] is None && forall|m: int|
                from <= m < l ==> #[trigger] filled[m] is Some,
            Seat::Bench => forall|m: int| from <= m < 5 ==> #[trigger] filled[m] is Some,
            Seat::Nowhere => false,
        },
    decreases 5 - from,
{
    if from < 5 && filled[from] is Some {
        lemma_first_open(filled, from + 1);
    }
}

/// Picks are seated one after the other, each where it goes with the earlier ones seated; no
/// lane is filled before the first.
pub proof fn law_seated_in_turn(t: Stats, picks: Seq<Seq<char>>, n: nat, filled: Seq<Option<int>>)
    requires
        seated(t, picks, n) == Some(filled),
    ensures
        seated(t, picks, 0) matches Some(f) && f.len() == 5 && f[0] is None && f[1] is None
            && f[2] is None && f[3] is None && f[4] is None,
        seat(t, filled, picks[n as int]) matches Seat::Lane(l) ==> seated(t, picks, n + 1) == Some(
            filled.update(l as int, Some(n as int)),
        ),
        seat(t, filled, picks[n as int]) is Bench ==> seated(t, picks, n + 1) == Some(filled),
{
}

/// The enemy that the best champion of a lane counters: one that plays the lane, with an
/// advantage above 0.03 that no other such enemy's is above, the first of several; none where
/// there is no such enemy.
pub proof fn law_countered(
    t: Stats,
    enemies: Seq<Seq<char>>,
    lane: u8,
    adv: Seq<u32>,
    n: nat,
)
    requires
        n <= enemies.len(),
        n <= adv.len(),
        forall|k: int| 0 <= k < n ==> !nan32(#[trigger] adv[k]),
    ensures
        match countered(t, enemies, lane, adv, n).1 {
            Some(w) => {
                &&& 0 <= w < n
                &&& t.lanes_of(enemies[w]).contains(lane)
                &&& rank32(adv[w]) > 0x3cf5_c28f
                &&& rank32(countered(t, enemies, lane, adv, n).0) == rank32(adv[w])
                &&& forall|k: int|
                    0 <= k < n && t.lanes_of(enemies[k]).contains(lane) ==> rank32(
                        #[trigger] adv[k],
                    ) < rank32(adv[w]) || (rank32(adv[k]) == rank32(adv[w]) && w <= k)
            },
            None => rank32(countered(t, enemies, lane, adv, n).0) == 0x3cf5_c28f && forall|k: int|
                0 <= k < n && t.lanes_of(enemies[k]).contains(lane) ==> rank32(#[trigger] adv[k])
                    <= 0x3cf5_c28f,
        },
        !nan32(countered(t, enemies, lane, adv, n).0),
    decreases n,
{
    if n > 0 {
        law_countered(t, enemies, lane, adv, (n - 1) as nat);
        assert(!nan32(adv[n - 1]));
    }
}

/// The star is on the first of the lanes whose best champions have the highest score.
pub proof fn law_star_is_first(lanes: Seq<LaneShown>, n: nat)
    requires
        n <= lanes.len(),
        forall|l: int|
            0 <= l < n && (#[trigger] lanes[l]).cands.len() > 0 ==> !nan32(lanes[l].cands[0].score),
    ensures
        starred(lanes, n) matches Some(b) ==> 0 <= b < n && lanes[b].cands.len() > 0 && forall|l: int|
            0 <= l < n && (#[trigger] lanes[l]).cands.len() > 0 ==> rank32(lanes[l].cands[0].score)
                < rank32(lanes[b].cands[0].score) || (rank32(lanes[l].cands[0].score) == rank32(
                lanes[b].cands[0].score,
            ) && b <= l),
        starred(lanes, n) is None ==> forall|l: int|
            0 <= l < n ==> (#[trigger] lanes[l]).cands.len() == 0,
    decreases n,
{
    if n > 0 {
        law_star_is_first(lanes, (n - 1) as nat);
    }
}

proof fn lemma_lane_places(t: Stats, d: Draft, pool: Option<Set<Seq<char>>>, lane: u8)
    ensures
        lane_places(t, d, pool, lane).no_duplicates(),
        rises(lane_places(t, d, pool, lane)),
        forall|i: int| #[trigger]
            lane_places(t, d, pool, lane).contains(i) <==> 0 <= i < 60 && is_open(d, pool, i)
                && t.lanes_of(champ_id(i)).contains(lane),
        forall|k: int|
            0 <= k < lane_places(t, d, pool, lane).len() ==> 0 <= #[trigger] lane_places(
                t,
                d,
                pool,
                lane,
            )[k] < 60,
{
    let o = open_places(d, pool);
    let fits = |i: int| t.lanes_of(champ_id(i)).contains(lane);
    let c = lane_places(t, d, pool, lane);
    lemma_open_places_sound(d, pool);
    lemma_open_rises(d, pool);
    lemma_kept_rises(o, fits);
    assert(c.no_duplicates()) by {
        assert forall|j: int, k: int| 0 <= j < c.len() && 0 <= k < c.len() && j != k implies c[j]
            != c[k] by {
            if j < k {
                assert(c[j] < c[k]);
            } else {
                assert(c[k] < c[j]);
            }
        }
    }
    law_recommends_open_champions(
        d,
        pool,
        Seq::new(60, |i: int| Score { total: 0, parts: Seq::empty() }),
    );
    assert forall|i: int| #[trigger] c.contains(i) <==> 0 <= i < 60 && is_open(d, pool, i)
        && t.lanes_of(champ_id(i)).contains(lane) by {
        lemma_kept(o, fits, i);
        if o.contains(i) {
            let k = choose|k: int| 0 <= k < o.len() && o[k] == i;
            assert(0 <= o[k] < 60);
        }
    }
    assert forall|k: int| 0 <= k < c.len() implies 0 <= #[trigger] c[k] < 60 by {
        assert(c.contains(c[k]));
    }
}

/// The lanes of a board: top, jungle, middle, bottom and support. One that an own pick fills
/// names that pick and recommends nobody; any other recommends open champions that play it,
/// each once: three, or all that there are, with their marks on that lane. Where the tables have
/// a cell of the champion on the lane, its tier and the games behind it are those of the cell;
/// where they have none it has no tier there.
pub proof fn law_board_lane(
    r: LaneView,
    t: Stats,
    d: Draft,
    human_is_enemy: bool,
    pool: Option<Set<Seq<char>>>,
    scored: Seq<Seq<Score>>,
    advantages: Seq<Seq<u32>>,
    now: u64,
    l: int,
    k: int,
    i: int,
)
    requires
        is_board_at(r, t, d, human_is_enemy, pool, scored, advantages, now),
        scored.len() == 5,
        0 <= l < 5,
        scored[l].len() == 60,
    ensures
        r.lanes@.len() == 5,
        l == 0 ==> r.lanes@[l].name@ == "탑"@,
        l == 1 ==> r.lanes@[l].name@ == "정글"@,
        l == 2 ==> r.lanes@[l].name@ == "미드"@,
        l == 3 ==> r.lanes@[l].name@ == "바텀"@,
        l == 4 ==> r.lanes@[l].name@ == "서폿"@,
        ({
            let own = if human_is_enemy {
                d.enemy_pick
            } else {
                d.ally_pick
            };
            let filled = seated(t, own, own.len())->0;
            let lane = r.lanes@[l];
            let cands = lane.cands@;
            &&& filled[l] matches Some(w) ==> (lane.filled matches Some(s) && s@ == ko_of(own[w]))
                && cands.len() == 0 && lane.counter_of is None && !lane.star
            &&& filled[l] is None ==> {
                &&& lane.filled is None
                &&& cands.len() <= 3
                &&& cands.len() < 3 && 0 <= i < 60 && is_open(d, pool, i) && t.lanes_of(
                    champ_id(i),
                ).contains(l as u8) ==> exists|j: int|
                    0 <= j < cands.len() && (#[trigger] cands[j]).id@ == champ_id(i)
                &&& 0 <= k < cands.len() ==> {
                    let id = cands[k].id@;
                    let p = place_of(id);
                    &&& p is Some && 0 <= p->0 < 60 && is_open(d, pool, p->0)
                    &&& t.lanes_of(id).contains(l as u8)
                    &&& cands[k].ko@ == champ_ko(p->0)
                    &&& cands[k].score == scored[l][p->0].total
                    &&& cands[k].label@ == label_of(false, scored[l][p->0].parts)
                    &&& cands[k].role@ == t.glyph(id)
                    &&& t.cell(id, l as u8) matches Some((w, g)) ==> cands[k].tier@ == tier_letter(w)
                        && (cands[k].low_conf <==> g < 15)
                    &&& t.cell(id, l as u8) is None ==> cands[k].tier@.len() == 0 && (
                    cands[k].low_conf <==> t.games_of(id) < 15)
                }
            }
        }),
{
    reveal_strlit("");
    let own = if human_is_enemy {
        d.enemy_pick
    } else {
        d.ally_pick
    };
    let filled = seated(t, own, own.len())->0;
    law_lanes_keep_their_picks(t, own, own.len());
    let bare = bare_lanes(t, d, human_is_enemy, pool, scored, advantages, filled);
    let shown = r.lanes.deep_view();
    assert(shown == with_star(bare));
    assert(shown.len() == r.lanes@.len());
    assert(shown[l] == r.lanes@[l].deep_view());
    assert(bare[l] == lane_shown(t, d, human_is_enemy, pool, scored, advantages, filled, l));
    law_star(bare, 5);
    let rows = bare[l].cands;
    assert(rows == r.lanes@[l].cands.deep_view());
    assert(rows.len() == r.lanes@[l].cands@.len());
    if filled[l] is None {
        let c = lane_places(t, d, pool, l as u8);
        lemma_lane_places(t, d, pool, l as u8);
        lemma_rows(t, c, scored[l], 3, false, Some(l as u8), rows);
        let cands = r.lanes@[l].cands@;
        assert(forall|j: int| 0 <= j < cands.len() ==> #[trigger] rows[j] == cands[j].deep_view());
        if cands.len() < 3 && 0 <= i < 60 && is_open(d, pool, i) && t.lanes_of(
            champ_id(i),
        ).contains(l as u8) {
            assert(c.contains(i));
            let j = choose|j: int| 0 <= j < rows.len() && #[trigger] rows[j].id == champ_id(i);
            assert(cands[j].id@ == champ_id(i));
        }
        if 0 <= k < cands.len() {
            assert(rows[k] == cands[k].deep_view());
            let p = place_of(rows[k].id);
            assert(c.contains(p->0));
        }
    }
}

/// Where the scores of a lane are numbers its champions go from the highest score to the
/// lowest, those of the same score in the order of all champions, and nobody who is left out
/// and could be there has a higher one.
pub proof fn law_board_order(
    r: LaneView,
    t: Stats,
    d: Draft,
    human_is_enemy: bool,
    pool: Option<Set<Seq<char>>>,
    scored: Seq<Seq<Score>>,
    advantages: Seq<Seq<u32>>,
    now: u64,
    l: int,
    i: int,
)
    requires
        is_board_at(r, t, d, human_is_enemy, pool, scored, advantages, now),
        scored.len() == 5,
        0 <= l < 5,
        scored[l].len() == 60,
        forall|x: int| 0 <= x < 60 ==> !nan32((#[trigger] scored[l][x]).total),
        r.lanes@[l].filled is None,
    ensures
        ({
            let cands = r.lanes@[l].cands@;
            &&& forall|j: int, k: int|
                0 <= j < k < cands.len() ==> rank32((#[trigger] cands[j]).score) > rank32(
                    (#[trigger] cands[k]).score,
                ) || (rank32(cands[j].score) == rank32(cands[k].score) && place_of(cands[j].id@)->0
                    < place_of(cands[k].id@)->0)
            &&& 0 <= i < 60 && is_open(d, pool, i) && t.lanes_of(champ_id(i)).contains(l as u8) && (
            forall|j: int| 0 <= j < cands.len() ==> (#[trigger] cands[j]).id@ != champ_id(i))
                ==> forall|k: int|
                0 <= k < cands.len() ==> rank32((#[trigger] cands[k]).score) >= rank32(
                    scored[l][i].total,
                )
        }),
{
    let own = if human_is_enemy {
        d.enemy_pick
    } else {
        d.ally_pick
    };
    let filled = seated(t, own, own.len())->0;
    law_lanes_keep_their_picks(t, own, own.len());
    let bare = bare_lanes(t, d, human_is_enemy, pool, scored, advantages, filled);
    let shown = r.lanes.deep_view();
    assert(shown == with_star(bare));
    assert(shown.len() == r.lanes@.len());
    assert(shown[l] == r.lanes@[l].deep_view());
    let rows = bare[l].cands;
    let cands = r.lanes@[l].cands@;
    assert(rows == r.lanes@[l].cands.deep_view());
    let c = lane_places(t, d, pool, l as u8);
    lemma_lane_places(t, d, pool, l as u8);
    assert(all_numbers(scored[l]));
    lemma_rows(t, c, scored[l], 3, false, Some(l as u8), rows);
    assert(forall|j: int| 0 <= j < cands.len() ==> #[trigger] rows[j] == cands[j].deep_view());
    assert forall|j: int, k: int| 0 <= j < k < cands.len() implies rank32(
        (#[trigger] cands[j]).score,
    ) > rank32((#[trigger] cands[k]).score) || (rank32(cands[j].score) == rank32(cands[k].score)
        && place_of(cands[j].id@)->0 < place_of(cands[k].id@)->0) by {
        assert(rank32(rows[j].score) > rank32(rows[k].score) || place_of(rows[j].id)->0 < place_of(
            rows[k].id,
        )->0);
    }
    if 0 <= i < 60 && is_open(d, pool, i) && t.lanes_of(champ_id(i)).contains(l as u8) && (forall|
        j: int,
    |
        0 <= j < cands.len() ==> (#[trigger] cands[j]).id@ != champ_id(i)) {
        assert(c.contains(i));
        assert forall|j: int| 0 <= j < rows.len() implies #[trigger] rows[j].id != champ_id(i) by {
            assert(cands[j].id@ != champ_id(i));
        }
        assert forall|k: int| 0 <= k < cands.len() implies rank32((#[trigger] cands[k]).score)
            >= rank32(scored[l][i].total) by {
            assert(rank32(rows[k].score) >= rank32(scored[l][i].total));
        }
    }
}

/// The marks of a champion on a lane where the tables have a cell of it need that cell alone:
/// tables that differ in what they say of the champion over all lanes show the same.
pub proof fn law_lane_marks_need_the_cell(t: Stats, u: Stats, id: Seq<char>, lane: u8)
    requires
        t.cells == u.cells,
        t.cell(id, lane) is Some,
    ensures
        t.tier(id, Some(lane)) == u.tier(id, Some(lane)),
        t.games_on(id, Some(lane)) == u.games_on(id, Some(lane)),
        t.delta_on(id, Some(lane)) == u.delta_on(id, Some(lane)),
{
}

/// On an open lane an enemy is named as countered if and only if the best champion there
/// counters one of the enemies; the star is on one lane where any has champions, and that has.
pub proof fn law_board_marks(
    r: LaneView,
    t: Stats,
    d: Draft,
    human_is_enemy: bool,
    pool: Option<Set<Seq<char>>>,
    scored: Seq<Seq<Score>>,
    advantages: Seq<Seq<u32>>,
    now: u64,
    l: int,
)
    requires
        is_board_at(r, t, d, human_is_enemy, pool, scored, advantages, now),
        scored.len() == 5,
        forall|m: int| 0 <= m < 5 ==> (#[trigger] scored[m]).len() == 60,
        0 <= l < 5,
    ensures
        ({
            let foes = if human_is_enemy {
                d.ally_pick
            } else {
                d.enemy_pick
            };
            let lane = r.lanes@[l];
            &&& lane.cands@.len() > 0 ==> {
                let adv = advantages[place_of(lane.cands@[0].id@)->0];
                match countered(t, foes, l as u8, adv, foes.len()).1 {
                    Some(k) => lane.counter_of matches Some(s) && s@ == ko_of(foes[k]),
                    None => lane.counter_of is None,
                }
            }
            &&& lane.cands@.len() == 0 ==> lane.counter_of is None && !lane.star
            &&& lane.cands@.len() > 0 ==> exists|m: int|
                0 <= m < 5 && (#[trigger] r.lanes@[m]).star && r.lanes@[m].cands@.len() > 0 && forall|
                    x: int,
                |
                    0 <= x < 5 && (#[trigger] r.lanes@[x]).star ==> x == m
        }),
{
    let own = if human_is_enemy {
        d.enemy_pick
    } else {
        d.ally_pick
    };
    let filled = seated(t, own, own.len())->0;
    law_lanes_keep_their_picks(t, own, own.len());
    let bare = bare_lanes(t, d, human_is_enemy, pool, scored, advantages, filled);
    let shown = r.lanes.deep_view();
    assert(shown == with_star(bare));
    assert(shown.len() == r.lanes@.len());
    assert(forall|m: int| 0 <= m < 5 ==> #[trigger] shown[m] == r.lanes@[m].deep_view());
    assert forall|m: int| 0 <= m < 5 implies (#[trigger] r.lanes@[m]).cands.deep_view()
        == bare[m].cands && r.lanes@[m].star == (starred(bare, 5) == Some(m)) by {
        assert(shown[m] == r.lanes@[m].deep_view());
    }
    law_star(bare, 5);
    let rows = bare[l].cands;
    assert(rows.len() == r.lanes@[l].cands@.len());
    if filled[l] is None && rows.len() > 0 {
        let c = lane_places(t, d, pool, l as u8);
        lemma_lane_places(t, d, pool, l as u8);
        lemma_rows(t, c, scored[l], 3, false, Some(l as u8), rows);
        let best = lane_best(t, d, pool, scored[l], l as u8);
        law_best_places(c, scored[l], 3);
        assert(c.contains(best[0]));
        law_ids_differ(best[0]);
        assert(rows[0] == r.lanes@[l].cands@[0].deep_view());
        assert(rows[0].id == champ_id(best[0]));
    }
    if rows.len() > 0 {
        match starred(bare, 5) {
            Some(m) => {
                assert(r.lanes@[m].star);
                assert(r.lanes@[m].cands.deep_view() == bare[m].cands);
                assert(r.lanes@[m].cands@.len() == bare[m].cands.len());
            },
            None => {
                assert(bare[l].cands.len() == 0);
            },
        }
    }
    let foes = if human_is_enemy {
        d.ally_pick
    } else {
        d.enemy_pick
    };
    assert(foes == crate::recommend::theirs(d, human_is_enemy));
    assert(lane_shown(t, d, human_is_enemy, pool, scored, advantages, filled, l) == bare[l]);
    assert(shown[l] == r.lanes@[l].deep_view());
    assert(crate::text::opt_text(r.lanes@[l].counter_of) == bare[l].counter_of);
    assert(r.lanes@[l].star == (starred(bare, 5) == Some(l)));
}

/// A board says how many picks were made and what they ask for: the first two are early, the
/// third is in the middle, later ones are late.
pub proof fn law_board_head(
    r: LaneView,
    t: Stats,
    d: Draft,
    human_is_enemy: bool,
    pool: Option<Set<Seq<char>>>,
    scored: Seq<Seq<Score>>,
    advantages: Seq<Seq<u32>>,
    now: u64,
    k: int,
)
    requires
        is_board_at(r, t, d, human_is_enemy, pool, scored, advantages, now),
    ensures
        r.explore == d.explore,
        now >= d.ts ==> r.age_ms == now - d.ts,
        now <= d.ts ==> r.age_ms == 0,
        r.matches == t.matches,
        r.has_pos <==> t.plays.len() > 0,
        pool matches Some(p) ==> r.pool_size == p.len(),
        pool is None ==> r.pool_size == 0,
        r.picks_made < 2 ==> r.timing@ == "선픽"@ && r.tip@ == "플렉스·강픽 우선 (라인 안 들키게)"@,
        r.picks_made == 2 ==> r.timing@ == "중반"@ && r.tip@ == "시너지·조합 채우기"@,
        r.picks_made > 2 ==> r.timing@ == "후픽"@ && r.tip@
            == "카운터 우선 (상대 드러난 라인 받아치기)"@,
        ({
            let (mp, op, mb, ob) = if human_is_enemy {
                (d.enemy_pick, d.ally_pick, d.enemy_ban, d.ally_ban)
            } else {
                (d.ally_pick, d.enemy_pick, d.ally_ban, d.enemy_ban)
            };
            &&& r.picks_made == mp.len()
            &&& r.my_pick@.len() == mp.len() && r.opp_pick@.len() == op.len()
            &&& r.my_ban@.len() == mb.len() && r.opp_ban@.len() == ob.len()
            &&& 0 <= k < mp.len() ==> r.my_pick@[k]@ == ko_of(mp[k])
            &&& 0 <= k < op.len() ==> r.opp_pick@[k]@ == ko_of(op[k])
            &&& 0 <= k < mb.len() ==> r.my_ban@[k]@ == ko_of(mb[k])
            &&& 0 <= k < ob.len() ==> r.opp_ban@[k]@ == ko_of(ob[k])
        }),
{
    let (mp, op, mb, ob) = if human_is_enemy {
        (d.enemy_pick, d.ally_pick, d.enemy_ban, d.ally_ban)
    } else {
        (d.ally_pick, d.enemy_pick, d.ally_ban, d.enemy_ban)
    };
    assert(r.my_pick.deep_view() == ko_all(mp));
    assert(r.opp_pick.deep_view() == ko_all(op));
    assert(r.my_ban.deep_view() == ko_all(mb));
    assert(r.opp_ban.deep_view() == ko_all(ob));
    assert(r.my_pick.deep_view().len() == r.my_pick@.len());
    assert(r.opp_pick.deep_view().len() == r.opp_pick@.len());
    assert(r.my_ban.deep_view().len() == r.my_ban@.len());
    assert(r.opp_ban.deep_view().len() == r.opp_ban@.len());
    assert(0 <= k < mp.len() ==> r.my_pick.deep_view()[k] == r.my_pick@[k]@);
    assert(0 <= k < op.len() ==> r.opp_pick.deep_view()[k] == r.opp_pick@[k]@);
    assert(0 <= k < mb.len() ==> r.my_ban.deep_view()[k] == r.my_ban@[k]@);
    assert(0 <= k < ob.len() ==> r.opp_ban.deep_view()[k] == r.opp_ban@[k]@);
}

/// What the score of a pick is made of: the delta on the lane or over all, the synergy with
/// each ally, the deltas against each enemy and of each enemy, and what the kits say of the
/// allies' gaps and pairings and of the enemies' answers.
pub proof fn law_pick_terms(
    t: Stats,
    c: Seq<char>,
    allies: Seq<Seq<char>>,
    enemies: Seq<Seq<char>>,
    lane: Option<u8>,
    k: int,
)
    ensures
        ({
            let s = t.pick_sum(c, allies, enemies, lane);
            &&& s.picks_made == allies.len() && s.trust == t.trust()
            &&& lane is None ==> s.power == t.delta_of(c)
            &&& lane matches Some(l) ==> match t.cell(c, l) {
                Some((w, _)) => s.power == w,
                None => s.power == t.delta_of(c),
            }
            &&& s.synergies.len() == allies.len()
            &&& s.answers.len() == enemies.len() && s.threats.len() == enemies.len()
            &&& 0 <= k < allies.len() ==> s.synergies[k] == pair(t.synergy, c, allies[k])
            &&& 0 <= k < enemies.len() ==> s.answers[k] == pair(t.counter, c, enemies[k])
            &&& 0 <= k < enemies.len() ==> s.threats[k] == pair(t.counter, enemies[k], c)
            &&& s.signs == t.signs(c, enemies)
            &&& s.gaps == t.gaps(c, allies)
            &&& s.pairings == t.pairings(c, allies)
            &&& s.sharing == t.sharing(c, allies)
        }),
{
}

/// What the score of a ban is made of: the delta over all lanes, the deltas against each own
/// pick and what the kit answers them with, the synergy with each enemy, and the ban rate.
pub proof fn law_ban_terms(
    t: Stats,
    c: Seq<char>,
    allies: Seq<Seq<char>>,
    enemies: Seq<Seq<char>>,
    k: int,
)
    ensures
        ({
            let s = t.ban_sum(c, allies, enemies);
            &&& s.trust == t.trust() && s.power == t.delta_of(c)
            &&& s.banrate == reading(t.banrate, c)
            &&& s.answers.len() == allies.len() && s.synergies.len() == enemies.len()
            &&& 0 <= k < allies.len() ==> s.answers[k] == pair(t.counter, c, allies[k])
            &&& 0 <= k < enemies.len() ==> s.synergies[k] == pair(t.synergy, c, enemies[k])
            &&& s.signs == t.signs(c, allies)
        }),
{
}

/// What a champion is worth to the human's side: a ban in the phase of bans, where the own
/// picks are those it must not answer, and else a pick; the lane board knows picks alone.
pub proof fn law_draft_terms(t: Stats, d: Draft, i: int, lane: u8)
    ensures
        ({
            let c = champ_id(i);
            &&& d.phase == "BAN"@ ==> t.draft_sum(d, false, i) == TermsSum::Ban(
                t.ban_sum(c, d.ally_pick, d.enemy_pick),
            ) && t.draft_sum(d, true, i) == TermsSum::Ban(
                t.ban_sum(c, d.enemy_pick, d.ally_pick),
            )
            &&& d.phase != "BAN"@ ==> t.draft_sum(d, false, i) == TermsSum::Pick(
                t.pick_sum(c, d.ally_pick, d.enemy_pick, None),
            ) && t.draft_sum(d, true, i) == TermsSum::Pick(
                t.pick_sum(c, d.enemy_pick, d.ally_pick, None),
            )
            &&& t.lane_sum(d, false, i, lane).pick == t.pick_sum(
                c,
                d.ally_pick,
                d.enemy_pick,
                Some(lane),
            )
            &&& t.lane_sum(d, false, i, lane).flex == t.flex_bonus(c, d.ally_pick.len())
            &&& t.lane_sum(d, true, i, lane).flex == t.flex_bonus(c, d.enemy_pick.len())
        }),
{
}

/// What an advantage over an enemy is made of: the delta against it and its delta against the
/// champion, and what the kit answers that enemy alone with.
pub proof fn law_counter_terms(t: Stats, c: Seq<char>, e: Seq<char>)
    ensures
        t.counter_sum(c, e).trust == t.trust(),
        t.counter_sum(c, e).answer == pair(t.counter, c, e),
        t.counter_sum(c, e).threat == t.counter_sum(e, c).answer,
        t.counter_sum(c, e).signs == t.pick_sum(c, Seq::empty(), seq![e], None).signs,
{
}

/// The scores behind a list are those that the scoring gives what the draft says of each
/// champion.
pub proof fn law_scores_are_of_the_draft<
    F: Fn(crate::score::Terms) -> crate::recommend::Scored,
>(score: F, t: Stats, d: Draft, human_is_enemy: bool, scored: Seq<Score>, i: int)
    requires
        crate::recommend::scored_by(score, t, d, human_is_enemy, scored),
        0 <= i < 60,
    ensures
        scored.len() == 60,
        exists|terms: crate::score::Terms, x: crate::recommend::Scored|
            #![trigger call_ensures(score, (terms,), x)]
            {
                let own = if human_is_enemy {
                    d.enemy_pick
                } else {
                    d.ally_pick
                };
                let foes = if human_is_enemy {
                    d.ally_pick
                } else {
                    d.enemy_pick
                };
                &&& call_ensures(score, (terms,), x)
                &&& x.total == scored[i].total && x.parts@ == scored[i].parts
                &&& d.phase == "BAN"@ ==> terms@ == TermsSum::Ban(t.ban_sum(champ_id(i), own, foes))
                &&& d.phase != "BAN"@ ==> terms@ == TermsSum::Pick(
                    t.pick_sum(champ_id(i), own, foes, None),
                )
            },
{
    assert(crate::recommend::scores(score, t.draft_sum(d, human_is_enemy, i), scored[i]));
}

/// The scores behind a board are those that the scoring gives what the draft says of each
/// champion on each lane.
pub proof fn law_lane_scores_are_of_the_draft<
    F: Fn(crate::score::LaneTerms) -> crate::recommend::Scored,
>(
    score: F,
    t: Stats,
    d: Draft,
    human_is_enemy: bool,
    scored: Seq<Seq<Score>>,
    l: int,
    i: int,
)
    requires
        crate::lanes::lanes_scored_by(score, t, d, human_is_enemy, scored),
        0 <= l < 5,
        0 <= i < 60,
    ensures
        scored.len() == 5 && scored[l].len() == 60,
        exists|terms: crate::score::LaneTerms, x: crate::recommend::Scored|
            #![trigger call_ensures(score, (terms,), x)]
            {
                let own = if human_is_enemy {
                    d.enemy_pick
                } else {
                    d.ally_pick
                };
                let foes = if human_is_enemy {
                    d.ally_pick
                } else {
                    d.enemy_pick
                };
                &&& call_ensures(score, (terms,), x)
                &&& x.total == scored[l][i].total && x.parts@ == scored[l][i].parts
                &&& terms.pick@ == t.pick_sum(champ_id(i), own, foes, Some(l as u8))
                &&& terms.flex == t.flex_bonus(champ_id(i), own.len())
            },
{
    assert(crate::lanes::scores_lane(
        score,
        t.lane_sum(d, human_is_enemy, i, l as u8),
        scored[l][i],
    ));
}

/// The advantages behind a board are those that the weighing gives what the tables say of each
/// champion and each enemy.
pub proof fn law_advantages_are_of_the_enemies<A: Fn(crate::score::CounterTerms) -> u32>(
    advantage: A,
    t: Stats,
    enemies: Seq<Seq<char>>,
    advantages: Seq<Seq<u32>>,
    i: int,
    k: int,
)
    requires
        crate::lanes::weighed_by(advantage, t, enemies, advantages),
        0 <= i < 60,
        0 <= k < enemies.len(),
    ensures
        advantages.len() == 60 && advantages[i].len() == enemies.len(),
        exists|terms: crate::score::CounterTerms|
            #![trigger call_ensures(advantage, (terms,), advantages[i][k])]
            {
                &&& call_ensures(advantage, (terms,), advantages[i][k])
                &&& terms.answer == pair(t.counter, champ_id(i), enemies[k])
                &&& terms.threat == pair(t.counter, enemies[k], champ_id(i))
                &&& terms.signs == t.signs(champ_id(i), seq![enemies[k]])
                &&& terms.trust == t.trust()
            },
{
    assert(crate::lanes::weighs(
        advantage,
        t.counter_sum(champ_id(i), enemies[k]),
        advantages[i][k],
    ));
}

} // verus!
