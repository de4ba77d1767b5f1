//! Recommendations: which champions to ban or to pick next, as a list and lane by lane.
//!
//! A score is a sum of floating-point numbers, computed by a function that the caller gives;
//! what it is made of for a draft, and what is recommended, in which order and with which marks
//! is decided here. Scores are bit patterns.

use vstd::prelude::*;

#[allow(unused_imports)]
use crate::bits::{gt32, nan32, rank32};
use crate::champs::{ko_name, ko_names, CHAMPS, CHAMP_COUNT};
#[allow(unused_imports)]
use crate::champs::{champ_id, ko_all, ko_of};
#[allow(unused_imports)]
use crate::clock::ms_shown;
use crate::clock::now_ms;
use crate::rank::{dominant, rank_scores};
#[allow(unused_imports)]
use crate::rank::{
    as_ints,
    by_score,
    law_ranked_complete,
    law_ranked_keeps,
    law_scores_fall,
    leader,
};
use crate::score::Terms;
#[allow(unused_imports)]
use crate::score::TermsSum;
use crate::state::DraftState;
#[allow(unused_imports)]
use crate::state::Draft;
#[allow(unused_imports)]
use crate::tables::Stats;
use crate::tables::{Tables, LOW_CONF_GAMES};
use crate::text::{has_member, same_text};
use crate::textset::TextSet;

verus! {

/// How many champions a list recommends.
pub const TOP_N: usize = 8;

/// How many champions are recommended for a lane.
pub const LANE_TOP: usize = 3;

/// The names of the lanes.
pub const LANES: [&'static str; 5] = ["탑", "정글", "미드", "바텀", "서폿"];

/// What each part of a pick's score stands for.
pub const PICK_LABELS: [&'static str; 4] = ["강챔", "시너지", "카운터", "조합"];

/// What each part of a ban's score stands for.
pub const BAN_LABELS: [&'static str; 4] = ["강챔", "우리킬", "적시너지", "밴율"];

/// The advantage above which a champion counters another: 0.03.
pub const COUNTER_FLAG: u32 = 0x3cf5_c28f;

/// The score of a champion and its parts, as bit patterns.
#[derive(Clone, Copy)]
pub struct Scored {
    pub total: u32,
    pub parts: [u32; 4],
}

/// What a `Scored` holds.
pub struct Score {
    pub total: u32,
    pub parts: Seq<u32>,
}

impl DeepView for Scored {
    type V = Score;

    open spec fn deep_view(&self) -> Score {
        Score { total: self.total, parts: self.parts@ }
    }
}

/// A recommended champion.
pub struct Row {
    /// The Korean name.
    pub ko: String,
    pub id: String,
    /// The score, as a bit pattern.
    pub score: u32,
    /// What the greatest part of the score stands for.
    pub label: &'static str,
    /// Whether the winrate is too thin to trust.
    pub low_conf: bool,
    /// The glyph of the role.
    pub role: &'static str,
    /// The tier.
    pub tier: &'static str,
}

/// A champion that is recommended for a lane; its marks are those of the lane.
pub struct LaneCand {
    /// The Korean name.
    pub ko: String,
    pub id: String,
    /// The score, as a bit pattern.
    pub score: u32,
    /// What the greatest part of the score stands for.
    pub label: &'static str,
    /// Whether the winrate on the lane is too thin to trust.
    pub low_conf: bool,
    /// The glyph of the role.
    pub role: &'static str,
    /// The tier on the lane.
    pub tier: &'static str,
}

/// What a recommended champion shows.
pub struct Shown {
    pub ko: Seq<char>,
    pub id: Seq<char>,
    pub score: u32,
    pub label: Seq<char>,
    pub low_conf: bool,
    pub role: Seq<char>,
    pub tier: Seq<char>,
}

impl DeepView for Row {
    type V = Shown;

    open spec fn deep_view(&self) -> Shown {
        Shown {
            ko: self.ko@,
            id: self.id@,
            score: self.score,
            label: self.label@,
            low_conf: self.low_conf,
            role: self.role@,
            tier: self.tier@,
        }
    }
}

impl DeepView for LaneCand {
    type V = Shown;

    open spec fn deep_view(&self) -> Shown {
        Shown {
            ko: self.ko@,
            id: self.id@,
            score: self.score,
            label: self.label@,
            low_conf: self.low_conf,
            role: self.role@,
            tier: self.tier@,
        }
    }
}

/// The recommendations for a draft.
pub struct DraftView {
    pub phase_ban: bool,
    pub explore: bool,
    /// How old the draft is.
    pub age_ms: u64,
    pub my_pick: Vec<String>,
    pub opp_pick: Vec<String>,
    pub my_ban: Vec<String>,
    pub opp_ban: Vec<String>,
    pub rows: Vec<Row>,
    /// The matches behind the statistics.
    pub matches: usize,
    /// How many champions are offered; 0 means all.
    pub pool_size: usize,
}

/// Whether a side has picked or banned a champion.
pub open spec fn is_taken(d: Draft, id: Seq<char>) -> bool {
    d.ally_pick.contains(id) || d.enemy_pick.contains(id) || d.ally_ban.contains(id)
        || d.enemy_ban.contains(id)
}

/// What an optional set of texts holds.
pub open spec fn offered(pool: Option<&TextSet>) -> Option<Set<Seq<char>>> {
    match pool {
        Some(p) => Some(p@),
        None => None,
    }
}

/// Whether the champion at place `i` can still be picked or banned: nobody has taken it, and
/// the pool, where there is one, offers it.
pub open spec fn is_open(d: Draft, pool: Option<Set<Seq<char>>>, i: int) -> bool {
    !is_taken(d, champ_id(i)) && match pool {
        Some(p) => p.contains(champ_id(i)),
        None => true,
    }
}

/// The first `n` places of the champions.
pub open spec fn places(n: nat) -> Seq<int> {
    Seq::new(n, |i: int| i)
}

/// The places of the champions that can still be picked or banned.
pub open spec fn open_places(d: Draft, pool: Option<Set<Seq<char>>>) -> Seq<int> {
    places(CHAMP_COUNT as nat).filter(|i: int| is_open(d, pool, i))
}

/// The picks of the human's side.
pub open spec fn mine(d: Draft, human_is_enemy: bool) -> Seq<Seq<char>> {
    if human_is_enemy {
        d.enemy_pick
    } else {
        d.ally_pick
    }
}

/// The picks of the other side.
pub open spec fn theirs(d: Draft, human_is_enemy: bool) -> Seq<Seq<char>> {
    mine(d, !human_is_enemy)
}

/// The picks of the human's side and of the other.
pub(crate) fn sides(s: &DraftState, human_is_enemy: bool) -> (r: (&Vec<String>, &Vec<String>))
    ensures
        r.0.deep_view() == mine(s@, human_is_enemy),
        r.1.deep_view() == theirs(s@, human_is_enemy),
{
    if human_is_enemy {
        (&s.enemy_pick, &s.ally_pick)
    } else {
        (&s.ally_pick, &s.enemy_pick)
    }
}

/// The bans of the human's side.
pub open spec fn my_bans(d: Draft, human_is_enemy: bool) -> Seq<Seq<char>> {
    if human_is_enemy {
        d.enemy_ban
    } else {
        d.ally_ban
    }
}

/// The name of the part that dominates a score.
pub open spec fn label_of(ban: bool, parts: Seq<u32>) -> Seq<char> {
    if ban {
        BAN_LABELS@[leader(parts, 4)]@
    } else {
        PICK_LABELS@[leader(parts, 4)]@
    }
}

/// What the champion at place `i` shows with a score, on a lane where one is given.
pub open spec fn shown(t: Stats, i: int, sc: Score, ban: bool, lane: Option<u8>) -> Shown {
    Shown {
        ko: ko_of(champ_id(i)),
        id: champ_id(i),
        score: sc.total,
        label: label_of(ban, sc.parts),
        low_conf: t.games_on(champ_id(i), lane) < LOW_CONF_GAMES,
        role: t.glyph(champ_id(i)),
        tier: t.tier(champ_id(i), lane),
    }
}

/// The total scores of the champions at some places.
pub open spec fn totals(c: Seq<int>, scored: Seq<Score>) -> Seq<u32> {
    c.map_values(|i: int| scored[i].total)
}

/// The smaller of two numbers.
pub open spec fn least(a: nat, b: nat) -> nat {
    if a < b {
        a
    } else {
        b
    }
}

/// The best `n` of the places `c`, from the highest score to the lowest.
pub open spec fn best_places(c: Seq<int>, scored: Seq<Score>, n: nat) -> Seq<int> {
    let order = by_score(totals(c, scored));
    Seq::new(least(n, c.len()), |k: int| c[order[k]])
}

/// What the champions at some places show.
pub open spec fn all_shown(
    t: Stats,
    best: Seq<int>,
    scored: Seq<Score>,
    ban: bool,
    lane: Option<u8>,
) -> Seq<Shown> {
    Seq::new(best.len(), |k: int| shown(t, best[k], scored[best[k]], ban, lane))
}

/// How long ago `ts` was at `now`; no time where it is yet to come.
pub open spec fn age(now: u64, ts: nat) -> int {
    if now > ts {
        now - ts
    } else {
        0
    }
}

/// How many champions a pool offers; none stands for all.
pub open spec fn pool_count(pool: Option<Set<Seq<char>>>) -> nat {
    match pool {
        Some(p) => p.len(),
        None => 0,
    }
}

/// Whether a side has picked or banned a champion.
pub fn taken(s: &DraftState, id: &str) -> (r: bool)
    ensures
        r == is_taken(s@, id@),
{
    has_member(&s.ally_pick, id) || has_member(&s.enemy_pick, id) || has_member(&s.ally_ban, id)
        || has_member(&s.enemy_ban, id)
}

/// Whether the champion at place `i` can still be picked or banned.
fn still_open(s: &DraftState, pool: Option<&TextSet>, i: usize) -> (r: bool)
    requires
        i < CHAMP_COUNT,
    ensures
        r == is_open(s@, offered(pool), i as int),
{
    let id = CHAMPS[i].0;
    if taken(s, id) {
        return false;
    }
    match pool {
        Some(p) => p.contains(id),
        None => true,
    }
}

/// The places of the champions that can still be picked or banned.
pub fn open_champs(s: &DraftState, pool: Option<&TextSet>) -> (r: Vec<usize>)
    ensures
        as_ints(r@) == open_places(s@, offered(pool)),
        forall|k: int| 0 <= k < r@.len() ==> #[trigger] r@[k] < CHAMP_COUNT,
{
    let ghost free = |i: int| is_open(s@, offered(pool), i);
    let mut r: Vec<usize> = Vec::new();
    let mut i: usize = 0;
    assert(as_ints(r@) =~= places(0).filter(free)) by {
        reveal(Seq::filter);
    }
    while i < CHAMP_COUNT
        invariant
            i <= CHAMP_COUNT,
            free == (|i: int| is_open(s@, offered(pool), i)),
            as_ints(r@) == places(i as nat).filter(free),
            forall|k: int| 0 <= k < r@.len() ==> #[trigger] r@[k] < CHAMP_COUNT,
        decreases CHAMP_COUNT - i,
    {
        let ghost sofar = as_ints(r@);
        assert(places((i + 1) as nat).drop_last() =~= places(i as nat));
        assert(places((i + 1) as nat).filter(free) == if free(i as int) {
            sofar.push(i as int)
        } else {
            sofar
        }) by {
            reveal(Seq::filter);
        }
        if still_open(s, pool, i) {
            r.push(i);
            assert(as_ints(r@) =~= sofar.push(i as int));
        }
        i += 1;
    }
    r
}

/// The best `n` of the places `c`, from the highest score to the lowest.
pub fn best_of(c: &Vec<usize>, scored: &Vec<Scored>, n: usize) -> (r: Vec<usize>)
    requires
        scored@.len() == CHAMP_COUNT,
        forall|k: int| 0 <= k < c@.len() ==> #[trigger] c@[k] < CHAMP_COUNT,
    ensures
        as_ints(r@) == best_places(as_ints(c@), scored.deep_view(), n as nat),
        forall|k: int| 0 <= k < r@.len() ==> #[trigger] r@[k] < CHAMP_COUNT,
{
    let ghost ci = as_ints(c@);
    let ghost sc = scored.deep_view();
    let mut scores: Vec<u32> = Vec::new();
    let mut i: usize = 0;
    while i < c.len()
        invariant
            i <= c@.len(),
            scored@.len() == CHAMP_COUNT,
            forall|k: int| 0 <= k < c@.len() ==> #[trigger] c@[k] < CHAMP_COUNT,
            scores@.len() == i,
            forall|k: int| 0 <= k < i ==> #[trigger] scores@[k] == scored@[c@[k] as int].total,
        decreases c@.len() - i,
    {
        scores.push(scored[c[i]].total);
        i += 1;
    }
    assert(scores@ =~= totals(ci, sc)) by {
        assert forall|k: int| 0 <= k < c@.len() implies #[trigger] scores@[k] == totals(ci, sc)[k] by {
            assert(ci[k] == c@[k]);
            assert(sc[c@[k] as int] == scored@[c@[k] as int].deep_view());
        }
    }
    let order = rank_scores(&scores);
    let ghost oi = as_ints(order@);
    let m: usize = if n < c.len() {
        n
    } else {
        c.len()
    };
    let mut r: Vec<usize> = Vec::new();
    let mut k: usize = 0;
    while k < m
        invariant
            k <= m <= c@.len(),
            order@.len() == c@.len(),
            oi == as_ints(order@),
            ci == as_ints(c@),
            forall|j: int| 0 <= j < order@.len() ==> #[trigger] order@[j] < c@.len(),
            forall|j: int| 0 <= j < c@.len() ==> #[trigger] c@[j] < CHAMP_COUNT,
            r@.len() == k,
            forall|j: int| 0 <= j < k ==> #[trigger] r@[j] == ci[oi[j]],
            forall|j: int| 0 <= j < k ==> #[trigger] r@[j] < CHAMP_COUNT,
        decreases m - k,
    {
        assert(oi[k as int] == order@[k as int]);
        assert(ci[order@[k as int] as int] == c@[order@[k as int] as int]);
        r.push(c[order[k]]);
        k += 1;
    }
    assert(as_ints(r@) =~= best_places(ci, sc, n as nat));
    r
}

fn label(ban: bool, parts: &[u32; 4]) -> (r: &'static str)
    ensures
        r@ == label_of(ban, parts@),
{
    let l = dominant(parts);
    if ban {
        BAN_LABELS[l]
    } else {
        PICK_LABELS[l]
    }
}

/// The recommendations for a draft, from the human's side, at the time `now`: of the
/// champions that can still be banned, or picked, the eight with the highest scores.
/// `scored` gives the score of every champion for the draft's phase; `pool`, where there is
/// one, the champions that are offered.
pub fn recommend_at(
    tables: &Tables,
    s: &DraftState,
    human_is_enemy: bool,
    pool: Option<&TextSet>,
    scored: &Vec<Scored>,
    now: u64,
) -> (r: DraftView)
    requires
        scored@.len() == CHAMP_COUNT,
    ensures
        is_view_at(
            r,
            tables@,
            s@,
            human_is_enemy,
            offered(pool),
            scored.deep_view(),
            now,
        ),
{
    let phase_ban = same_text(s.phase.as_str(), "BAN");
    let c = open_champs(s, pool);
    let best = best_of(&c, scored, TOP_N);
    let ghost bi = as_ints(best@);
    let ghost sc = scored.deep_view();
    let mut rows: Vec<Row> = Vec::new();
    let mut k: usize = 0;
    while k < best.len()
        invariant
            k <= best@.len(),
            bi == as_ints(best@),
            sc == scored.deep_view(),
            scored@.len() == CHAMP_COUNT,
            forall|j: int| 0 <= j < best@.len() ==> #[trigger] best@[j] < CHAMP_COUNT,
            rows@.len() == k,
            forall|j: int|
                0 <= j < k ==> #[trigger] rows@[j].deep_view() == shown(
                    tables@,
                    bi[j],
                    sc[bi[j]],
                    phase_ban,
                    None,
                ),
        decreases best@.len() - k,
    {
        let i: usize = best[k];
        let id = CHAMPS[i].0;
        assert(bi[k as int] == i);
        assert(sc[i as int] == scored@[i as int].deep_view());
        rows.push(
            Row {
                ko: ko_name(id),
                id: id.to_owned(),
                score: scored[i].total,
                label: label(phase_ban, &scored[i].parts),
                low_conf: tables.low_conf(id),
                role: tables.role_tag(id),
                tier: tables.tier_of(id, None),
            },
        );
        k += 1;
    }
    assert(rows.deep_view() =~= all_shown(tables@, bi, sc, phase_ban, None));
    let pool_size = match pool {
        Some(p) => p.len(),
        None => 0,
    };
    let (my_pick, opp_pick, my_ban, opp_ban) = if human_is_enemy {
        (&s.enemy_pick, &s.ally_pick, &s.enemy_ban, &s.ally_ban)
    } else {
        (&s.ally_pick, &s.enemy_pick, &s.ally_ban, &s.enemy_ban)
    };
    DraftView {
        phase_ban,
        explore: s.explore,
        age_ms: if now > s.ts {
            now - s.ts
        } else {
            0
        },
        my_pick: ko_names(my_pick),
        opp_pick: ko_names(opp_pick),
        my_ban: ko_names(my_ban),
        opp_ban: ko_names(opp_ban),
        rows,
        matches: tables.match_count(),
        pool_size,
    }
}

/// Whether `r` are the recommendations for a draft at the time `now`.
pub open spec fn is_view_at(
    r: DraftView,
    t: Stats,
    d: Draft,
    human_is_enemy: bool,
    pool: Option<Set<Seq<char>>>,
    scored: Seq<Score>,
    now: u64,
) -> bool {
    let best = best_places(open_places(d, pool), scored, TOP_N as nat);
    &&& r.phase_ban == (d.phase == "BAN"@)
    &&& r.explore == d.explore
    &&& r.age_ms == age(now, d.ts)
    &&& r.my_pick.deep_view() == ko_all(mine(d, human_is_enemy))
    &&& r.opp_pick.deep_view() == ko_all(theirs(d, human_is_enemy))
    &&& r.my_ban.deep_view() == ko_all(my_bans(d, human_is_enemy))
    &&& r.opp_ban.deep_view() == ko_all(my_bans(d, !human_is_enemy))
    &&& r.rows.deep_view() == all_shown(t, best, scored, d.phase == "BAN"@, None)
    &&& r.matches == t.matches
    &&& r.pool_size == pool_count(pool)
}

/// Whether `score` can give the score `x` for what a score is made of.
pub open spec fn scores<F: Fn(Terms) -> Scored>(score: F, sum: TermsSum, x: Score) -> bool {
    exists|t: Terms, r: Scored| #[trigger]
        call_ensures(score, (t,), r) && t@ == sum && r.deep_view() == x
}

/// Whether `scored` are scores that `score` gives the champions in the list for a draft.
pub open spec fn scored_by<F: Fn(Terms) -> Scored>(
    score: F,
    t: Stats,
    d: Draft,
    human_is_enemy: bool,
    scored: Seq<Score>,
) -> bool {
    &&& scored.len() == CHAMP_COUNT
    &&& forall|i: int|
        0 <= i < CHAMP_COUNT ==> scores(
            score,
            t.draft_sum(d, human_is_enemy, i),
            #[trigger] scored[i],
        )
}

/// The scores of all champions in the list for a draft.
fn score_list<F: Fn(Terms) -> Scored>(
    tables: &Tables,
    s: &DraftState,
    human_is_enemy: bool,
    score: F,
) -> (r: Vec<Scored>)
    requires
        forall|t: Terms| #[trigger] call_requires(score, (t,)),
    ensures
        scored_by(score, tables@, s@, human_is_enemy, r.deep_view()),
{
    let mut r: Vec<Scored> = Vec::new();
    let mut i: usize = 0;
    while i < CHAMP_COUNT
        invariant
            i <= CHAMP_COUNT,
            forall|t: Terms| #[trigger] call_requires(score, (t,)),
            r@.len() == i,
            forall|k: int|
                0 <= k < i ==> scores(
                    score,
                    tables@.draft_sum(s@, human_is_enemy, k),
                    (#[trigger] r@[k]).deep_view(),
                ),
        decreases CHAMP_COUNT - i,
    {
        let t = tables.draft_terms(s, human_is_enemy, i);
        let ghost terms = t;
        let x = score(t);
        assert(call_ensures(score, (terms,), x));
        r.push(x);
        i += 1;
    }
    r
}

/// The recommendations for a draft, from the human's side, at the time of the call. `score`
/// sums up what the score of a champion is made of.
pub fn recommend<F: Fn(Terms) -> Scored>(
    tables: &Tables,
    s: &DraftState,
    human_is_enemy: bool,
    pool: Option<&TextSet>,
    score: F,
) -> (r: DraftView)
    requires
        forall|t: Terms| #[trigger] call_requires(score, (t,)),
    ensures
        exists|scored: Seq<Score>, since: Option<u128>|
            scored_by(score, tables@, s@, human_is_enemy, scored) && #[trigger] is_view_at(
                r,
                tables@,
                s@,
                human_is_enemy,
                offered(pool),
                scored,
                ms_shown(since),
            ),
{
    let scored = score_list(tables, s, human_is_enemy, score);
    recommend_at(tables, s, human_is_enemy, pool, &scored, now_ms())
}

proof fn lemma_places_kept(n: nat, p: spec_fn(int) -> bool)
    ensures
        forall|k: int|
            0 <= k < places(n).filter(p).len() ==> 0 <= #[trigger] places(n).filter(p)[k] < n && p(
                places(n).filter(p)[k],
            ),
        places(n).filter(p).no_duplicates(),
        forall|i: int| 0 <= i < n && #[trigger] p(i) ==> places(n).filter(p).contains(i),
    decreases n,
{
    reveal(Seq::filter);
    if n > 0 {
        let m = (n - 1) as nat;
        lemma_places_kept(m, p);
        assert(places(n).drop_last() =~= places(m));
        let front = places(m).filter(p);
        let all = places(n).filter(p);
        assert(all == if p(n - 1) {
            front.push(n - 1)
        } else {
            front
        });
        assert forall|i: int| 0 <= i < n && #[trigger] p(i) implies all.contains(i) by {
            if i < m {
                let k = choose|k: int| 0 <= k < front.len() && front[k] == i;
                assert(all[k] == i);
            } else {
                assert(all[front.len() as int] == i);
            }
        }
    }
}

/// Whether no total score of the champions is no number.
pub open spec fn all_numbers(scored: Seq<Score>) -> bool {
    forall|i: int| 0 <= i < scored.len() ==> !nan32((#[trigger] scored[i]).total)
}

/// What holds of the best places of `c`: they are places of `c`, each once, as many as there
/// can be; and where all scores are numbers they go by falling scores, and no place of `c`
/// that is left out has a higher score.
pub proof fn law_best_places(c: Seq<int>, scored: Seq<Score>, n: nat)
    requires
        c.no_duplicates(),
        forall|k: int| 0 <= k < c.len() ==> 0 <= #[trigger] c[k] < scored.len(),
    ensures
        ({
            let best = best_places(c, scored, n);
            &&& best.len() == least(n, c.len())
            &&& best.no_duplicates()
            &&& forall|k: int| 0 <= k < best.len() ==> c.contains(#[trigger] best[k])
            &&& all_numbers(scored) ==> forall|j: int, k: int|
                0 <= j < k < best.len() ==> rank32(scored[#[trigger] best[j]].total) >= rank32(
                    scored[#[trigger] best[k]].total,
                )
            &&& all_numbers(scored) ==> forall|j: int, k: int|
                0 <= j < c.len() && 0 <= k < best.len() && !best.contains(#[trigger] c[j])
                    ==> rank32(scored[#[trigger] best[k]].total) >= rank32(scored[c[j]].total)
        }),
{
    let best = best_places(c, scored, n);
    let t = totals(c, scored);
    let order = by_score(t);
    let above = |x: int, y: int| gt32(t[x], t[y]);
    law_ranked_keeps(above, t.len());
    assert forall|k: int| 0 <= k < best.len() implies c.contains(#[trigger] best[k]) by {
        assert(best[k] == c[order[k]]);
    }
    assert forall|j: int, k: int| 0 <= j < best.len() && 0 <= k < best.len() && j != k implies best[j]
        != best[k] by {
        assert(order[j] != order[k]);
    }
    if all_numbers(scored) {
        assert forall|k: int| 0 <= k < t.len() implies !nan32(#[trigger] t[k]) by {
            assert(!nan32(scored[c[k]].total));
        }
        law_scores_fall(t);
        assert forall|j: int, k: int| 0 <= j < k < best.len() implies rank32(
            scored[#[trigger] best[j]].total,
        ) >= rank32(scored[#[trigger] best[k]].total) by {
            assert(t[order[j]] == scored[best[j]].total);
            assert(t[order[k]] == scored[best[k]].total);
        }
        assert forall|j: int, k: int|
            0 <= j < c.len() && 0 <= k < best.len() && !best.contains(
                #[trigger] c[j],
            ) implies rank32(scored[#[trigger] best[k]].total) >= rank32(scored[c[j]].total) by {
            law_ranked_complete(above, t.len(), j);
            let q = choose|q: int| 0 <= q < order.len() && order[q] == j;
            if q < best.len() {
                assert(best[q] == c[j]);
            }
            assert(t[order[k]] == scored[best[k]].total);
            assert(t[order[q]] == scored[c[j]].total);
        }
    }
}

/// Only champions that nobody has taken and that the pool offers are recommended, each once:
/// eight, or all that are left.
pub proof fn law_recommends_open_champions(
    d: Draft,
    pool: Option<Set<Seq<char>>>,
    scored: Seq<Score>,
)
    requires
        scored.len() == CHAMP_COUNT,
    ensures
        ({
            let c = open_places(d, pool);
            let best = best_places(c, scored, TOP_N as nat);
            &&& best.len() == least(TOP_N as nat, c.len())
            &&& best.no_duplicates()
            &&& forall|k: int|
                0 <= k < best.len() ==> 0 <= #[trigger] best[k] < CHAMP_COUNT && is_open(
                    d,
                    pool,
                    best[k],
                )
            &&& forall|i: int|
                0 <= i < CHAMP_COUNT && #[trigger] is_open(d, pool, i) ==> c.contains(i)
        }),
{
    let p = |i: int| is_open(d, pool, i);
    lemma_places_kept(CHAMP_COUNT as nat, p);
    let c = open_places(d, pool);
    law_best_places(c, scored, TOP_N as nat);
    let best = best_places(c, scored, TOP_N as nat);
    assert forall|k: int| 0 <= k < best.len() implies 0 <= #[trigger] best[k] < CHAMP_COUNT
        && is_open(d, pool, best[k]) by {
        assert(c.contains(best[k]));
        let j = choose|j: int| 0 <= j < c.len() && c[j] == best[k];
        assert(p(c[j]));
    }
    assert forall|i: int| 0 <= i < CHAMP_COUNT && #[trigger] is_open(d, pool, i) implies c.contains(
        i,
    ) by {
        assert(p(i));
    }
}

/// The open places are places of champions, each once.
pub proof fn lemma_open_places_sound(d: Draft, pool: Option<Set<Seq<char>>>)
    ensures
        open_places(d, pool).no_duplicates(),
        forall|k: int|
            0 <= k < open_places(d, pool).len() ==> 0 <= #[trigger] open_places(d, pool)[k]
                < CHAMP_COUNT && is_open(d, pool, open_places(d, pool)[k]),
{
    let p = |i: int| is_open(d, pool, i);
    lemma_places_kept(CHAMP_COUNT as nat, p);
    let c = open_places(d, pool);
    assert forall|k: int| 0 <= k < c.len() implies 0 <= #[trigger] c[k] < CHAMP_COUNT && is_open(
        d,
        pool,
        c[k],
    ) by {
        assert(p(c[k]));
    }
}

/// To look at a draft from the other side is to swap the sides of the draft.
pub proof fn law_sides_swap(d: Draft, human_is_enemy: bool)
    ensures
        ({
            let swapped = Draft {
                ally_pick: d.enemy_pick,
                enemy_pick: d.ally_pick,
                ally_ban: d.enemy_ban,
                enemy_ban: d.ally_ban,
                ..d
            };
            &&& mine(swapped, human_is_enemy) == mine(d, !human_is_enemy)
            &&& theirs(swapped, human_is_enemy) == theirs(d, !human_is_enemy)
            &&& my_bans(swapped, human_is_enemy) == my_bans(d, !human_is_enemy)
            &&& forall|id: Seq<char>| #[trigger] is_taken(swapped, id) == is_taken(d, id)
        }),
{
}

} // verus!
