//! The lane board: which lanes the own picks fill, and what to pick for the open ones.

use vstd::prelude::*;

use crate::bits::above32;
#[allow(unused_imports)]
use crate::bits::{gt32, nan32, rank32};
use crate::champs::{ko_name, ko_names, CHAMPS, CHAMP_COUNT};
#[allow(unused_imports)]
use crate::champs::{champ_id, ko_all, ko_of};
#[allow(unused_imports)]
use crate::clock::ms_shown;
use crate::clock::now_ms;
#[allow(unused_imports)]
use crate::rank::as_ints;
use crate::rank::dominant;
#[allow(unused_imports)]
use crate::recommend::{
    age,
    all_shown,
    best_places,
    is_open,
    law_best_places,
    law_recommends_open_champions,
    least,
    lemma_open_places_sound,
    mine,
    my_bans,
    offered,
    open_places,
    pool_count,
    shown,
    theirs,
    Score,
    Shown,
};
use crate::recommend::{
    best_of,
    open_champs,
    sides,
    LaneCand,
    Scored,
    COUNTER_FLAG,
    LANES,
    LANE_TOP,
    PICK_LABELS,
};
#[allow(unused_imports)]
use crate::score::{CounterSum, LaneSum};
use crate::score::{CounterTerms, LaneTerms};
#[allow(unused_imports)]
use crate::state::Draft;
use crate::state::DraftState;
#[allow(unused_imports)]
use crate::tables::Stats;
use crate::tables::Tables;
#[allow(unused_imports)]
use crate::text::opt_text;
use crate::textset::TextSet;

verus! {

/// Where a pick goes.
#[derive(Clone, Copy, PartialEq, Eq, Structural, Debug)]
pub enum Seat {
    /// It fills this lane.
    Lane(usize),
    /// All lanes are filled.
    Bench,
    /// It is said to play a lane that does not exist.
    Nowhere,
}

/// The first open one of the lanes that a pick plays, from place `from` on.
pub open spec fn playable_seat(filled: Seq<Option<int>>, plays: Seq<u8>, from: int) -> Seat
    decreases plays.len() - from,
{
    if from < 0 || from >= plays.len() {
        Seat::Bench
    } else if plays[from] >= 5 {
        Seat::Nowhere
    } else if filled[plays[from] as int] is None {
        Seat::Lane(plays[from] as usize)
    } else {
        playable_seat(filled, plays, from + 1)
    }
}

/// The first open lane, from lane `from` on.
pub open spec fn any_seat(filled: Seq<Option<int>>, from: int) -> Seat
    decreases filled.len() - from,
{
    if from < 0 || from >= filled.len() {
        Seat::Bench
    } else if filled[from] is None {
        Seat::Lane(from as usize)
    } else {
        any_seat(filled, from + 1)
    }
}

/// Where a pick goes: to the lane that it plays most, where that is open, else to the first
/// open one that it plays, else to the first open one.
pub open spec fn seat(t: Stats, filled: Seq<Option<int>>, id: Seq<char>) -> Seat {
    let flexible = match playable_seat(filled, t.lanes_of(id), 0) {
        Seat::Bench => any_seat(filled, 0),
        other => other,
    };
    match t.primary_of(id) {
        Some(p) => if p >= 5 {
            Seat::Nowhere
        } else if filled[p as int] is None {
            Seat::Lane(p as usize)
        } else {
            flexible
        },
        None => flexible,
    }
}

/// Which pick fills each lane after the first `n` picks; nothing where one of them would go
/// to a lane that does not exist.
pub open spec fn seated(t: Stats, picks: Seq<Seq<char>>, n: nat) -> Option<Seq<Option<int>>>
    decreases n,
{
    if n == 0 {
        Some(seq![None, None, None, None, None])
    } else {
        match seated(t, picks, (n - 1) as nat) {
            Some(filled) => match seat(t, filled, picks[n - 1]) {
                Seat::Lane(l) => Some(filled.update(l as int, Some(n - 1))),
                Seat::Bench => Some(filled),
                Seat::Nowhere => None,
            },
            None => None,
        }
    }
}

/// What fills each lane, as indices of the picks.
pub open spec fn fill_view(v: Seq<Option<usize>>) -> Seq<Option<int>> {
    v.map_values(
        |o: Option<usize>|
            match o {
                Some(k) => Some(k as int),
                None => None,
            },
    )
}

proof fn lemma_seat_in_range(t: Stats, filled: Seq<Option<int>>, id: Seq<char>)
    requires
        filled.len() == 5,
    ensures
        seat(t, filled, id) matches Seat::Lane(l) ==> l < 5 && filled[l as int] is None,
{
    lemma_playable_seat(filled, t.lanes_of(id), 0);
    lemma_any_seat(filled, 0);
}

proof fn lemma_playable_seat(filled: Seq<Option<int>>, plays: Seq<u8>, from: int)
    requires
        filled.len() == 5,
        0 <= from,
    ensures
        playable_seat(filled, plays, from) matches Seat::Lane(l) ==> l < 5 && filled[l as int] is None,
    decreases plays.len() - from,
{
    if from < plays.len() && plays[from] < 5 && filled[plays[from] as int] is Some {
        lemma_playable_seat(filled, plays, from + 1);
    }
}

proof fn lemma_any_seat(filled: Seq<Option<int>>, from: int)
    requires
        filled.len() == 5,
        0 <= from,
    ensures
        any_seat(filled, from) matches Seat::Lane(l) ==> l < 5 && filled[l as int] is None,
        any_seat(filled, from) is Bench ==> forall|l: int|
            from <= l < 5 ==> #[trigger] filled[l] is Some,
        !(any_seat(filled, from) is Nowhere),
    decreases filled.len() - from,
{
    if from < filled.len() && filled[from] is Some {
        lemma_any_seat(filled, from + 1);
    }
}

/// Each pick fills at most one lane, only picks fill lanes, and a lane stays with the pick
/// that fills it.
pub proof fn law_lanes_keep_their_picks(t: Stats, picks: Seq<Seq<char>>, n: nat)
    requires
        seated(t, picks, n) is Some,
    ensures
        ({
            let filled = seated(t, picks, n).unwrap();
            &&& filled.len() == 5
            &&& forall|l: int|
                0 <= l < 5 ==> (#[trigger] filled[l] matches Some(k) ==> 0 <= k < n)
            &&& forall|l: int, m: int|
                0 <= l < m < 5 && #[trigger] filled[l] is Some ==> filled[l] != #[trigger] filled[m]
            &&& n > 0 ==> {
                let before = seated(t, picks, (n - 1) as nat);
                before is Some && forall|l: int|
                    0 <= l < 5 && #[trigger] before.unwrap()[l] is Some ==> filled[l]
                        == before.unwrap()[l]
            }
        }),
    decreases n,
{
    if n > 0 {
        law_lanes_keep_their_picks(t, picks, (n - 1) as nat);
        let before = seated(t, picks, (n - 1) as nat).unwrap();
        lemma_seat_in_range(t, before, picks[n - 1]);
        let filled = seated(t, picks, n).unwrap();
        assert forall|l: int, m: int|
            0 <= l < m < 5 && #[trigger] filled[l] is Some implies filled[l]
            != #[trigger] filled[m] by {
            if before[l] is Some {
                assert(before[l] != before[m]);
            }
        }
    }
}

/// As long as there are lanes for them, all picks are seated.
pub proof fn law_five_picks_fit(t: Stats, picks: Seq<Seq<char>>, n: nat)
    requires
        n <= 5,
        seated(t, picks, n) is Some,
    ensures
        seated(t, picks, n).unwrap().filter(|o: Option<int>| o is Some).len() == n,
    decreases n,
{
    let seat_taken = |o: Option<int>| o is Some;
    if n == 0 {
        let empty: Seq<Option<int>> = seq![None, None, None, None, None];
        assert(empty.filter(seat_taken).len() == 0) by {
            lemma_count_taken(empty);
        }
    } else {
        law_five_picks_fit(t, picks, (n - 1) as nat);
        law_lanes_keep_their_picks(t, picks, (n - 1) as nat);
        let before = seated(t, picks, (n - 1) as nat).unwrap();
        lemma_seat_in_range(t, before, picks[n - 1]);
        lemma_any_seat(before, 0);
        lemma_count_taken(before);
        let filled = seated(t, picks, n).unwrap();
        lemma_count_taken(filled);
        if seat(t, before, picks[n - 1]) is Bench {
            assert(before[0] is Some && before[1] is Some && before[2] is Some && before[3] is Some
                && before[4] is Some);
        }
    }
}

proof fn lemma_count_taken(s: Seq<Option<int>>)
    requires
        s.len() == 5,
    ensures
        s.filter(|o: Option<int>| o is Some).len() == (if s[0] is Some {
            1int
        } else {
            0
        }) + (if s[1] is Some {
            1int
        } else {
            0
        }) + (if s[2] is Some {
            1int
        } else {
            0
        }) + (if s[3] is Some {
            1int
        } else {
            0
        }) + (if s[4] is Some {
            1int
        } else {
            0
        }),
{
    reveal_with_fuel(Seq::filter, 6);
    let p = |o: Option<int>| o is Some;
    let s4 = s.drop_last();
    let s3 = s4.drop_last();
    let s2 = s3.drop_last();
    let s1 = s2.drop_last();
    assert(s1.drop_last().len() == 0);
    assert(s1.last() == s[0] && s2.last() == s[1] && s3.last() == s[2] && s4.last() == s[3]);
    assert(s1.filter(p).len() == if s[0] is Some {
        1int
    } else {
        0
    });
    assert(s2.filter(p).len() == s1.filter(p).len() + if s[1] is Some {
        1int
    } else {
        0
    });
    assert(s3.filter(p).len() == s2.filter(p).len() + if s[2] is Some {
        1int
    } else {
        0
    });
    assert(s4.filter(p).len() == s3.filter(p).len() + if s[3] is Some {
        1int
    } else {
        0
    });
}

/// Where a pick goes.
fn find_seat(tables: &Tables, filled: &Vec<Option<usize>>, id: &str) -> (r: Seat)
    requires
        filled@.len() == 5,
    ensures
        r == seat(tables@, fill_view(filled@), id@),
{
    let ghost f = fill_view(filled@);
    assert(forall|l: int| 0 <= l < 5 ==> (#[trigger] f[l] is None <==> filled@[l] is None));
    if let Some(p) = tables.primary(id) {
        if p >= 5 {
            return Seat::Nowhere;
        }
        assert(f[p as int] is None <==> filled@[p as int] is None);
        if filled[p as usize].is_none() {
            return Seat::Lane(p as usize);
        }
    }
    let plays = tables.lanes(id);
    let mut i: usize = 0;
    while i < plays.len()
        invariant
            i <= plays@.len(),
            plays@ == tables@.lanes_of(id@),
            filled@.len() == 5,
            f == fill_view(filled@),
            forall|l: int| 0 <= l < 5 ==> (#[trigger] f[l] is None <==> filled@[l] is None),
            playable_seat(f, plays@, 0) == playable_seat(f, plays@, i as int),
            match tables@.primary_of(id@) {
                Some(p) => p < 5 && f[p as int] is Some,
                None => true,
            },
        decreases plays@.len() - i,
    {
        let l: u8 = plays[i];
        if l >= 5 {
            return Seat::Nowhere;
        }
        assert(f[l as int] is None <==> filled@[l as int] is None);
        if filled[l as usize].is_none() {
            return Seat::Lane(l as usize);
        }
        i += 1;
    }
    let mut l: usize = 0;
    while l < 5
        invariant
            l <= 5,
            filled@.len() == 5,
            f == fill_view(filled@),
            forall|m: int| 0 <= m < 5 ==> (#[trigger] f[m] is None <==> filled@[m] is None),
            playable_seat(f, tables@.lanes_of(id@), 0) is Bench,
            any_seat(f, 0) == any_seat(f, l as int),
            match tables@.primary_of(id@) {
                Some(p) => p < 5 && f[p as int] is Some,
                None => true,
            },
        decreases 5 - l,
    {
        assert(f[l as int] is None <==> filled@[l as int] is None);
        if filled[l].is_none() {
            return Seat::Lane(l);
        }
        l += 1;
    }
    Seat::Bench
}

/// Which pick fills each lane; nothing where the tables send a pick to a lane that does not
/// exist.
pub fn assign_lanes(tables: &Tables, picks: &Vec<String>) -> (r: Option<Vec<Option<usize>>>)
    ensures
        match r {
            Some(v) => seated(tables@, picks.deep_view(), picks@.len()) == Some(fill_view(v@))
                && v@.len() == 5 && forall|l: int|
                0 <= l < 5 ==> (#[trigger] v@[l] matches Some(k) ==> k < picks@.len()),
            None => seated(tables@, picks.deep_view(), picks@.len()) is None,
        },
{
    let ghost d = picks.deep_view();
    let mut filled: Vec<Option<usize>> = Vec::new();
    filled.push(None);
    filled.push(None);
    filled.push(None);
    filled.push(None);
    filled.push(None);
    assert(fill_view(filled@) =~= seq![None, None, None, None, None]);
    let mut n: usize = 0;
    while n < picks.len()
        invariant
            n <= picks@.len(),
            d == picks.deep_view(),
            filled@.len() == 5,
            seated(tables@, d, n as nat) == Some(fill_view(filled@)),
            forall|l: int| 0 <= l < 5 ==> (#[trigger] filled@[l] matches Some(k) ==> k < n),
        decreases picks@.len() - n,
    {
        let ghost f = fill_view(filled@);
        assert(d[n as int] == picks@[n as int]@);
        proof {
            lemma_seat_in_range(tables@, f, d[n as int]);
        }
        match find_seat(tables, &filled, picks[n].as_str()) {
            Seat::Lane(l) => {
                filled[l] = Some(n);
                assert(fill_view(filled@) =~= f.update(l as int, Some(n as int)));
            },
            Seat::Bench => {},
            Seat::Nowhere => {
                proof {
                    lemma_unseated_stays(tables@, d, (n + 1) as nat, picks@.len());
                }
                return None;
            },
        }
        n += 1;
    }
    Some(filled)
}

proof fn lemma_unseated_stays(t: Stats, picks: Seq<Seq<char>>, n: nat, m: nat)
    requires
        n <= m,
        seated(t, picks, n) is None,
    ensures
        seated(t, picks, m) is None,
    decreases m,
{
    if n < m {
        lemma_unseated_stays(t, picks, n, (m - 1) as nat);
    }
}

/// One lane of the board.
pub struct Lane {
    pub name: &'static str,
    /// The Korean name of the own pick that fills it; nothing where it is open.
    pub filled: Option<String>,
    /// The best champions for it, where it is open.
    pub cands: Vec<LaneCand>,
    /// The Korean name of an enemy that plays it and that the best champion counters.
    pub counter_of: Option<String>,
    /// Whether it is the lane to pick for now.
    pub star: bool,
}

/// What a lane of the board shows.
pub struct LaneShown {
    pub name: Seq<char>,
    pub filled: Option<Seq<char>>,
    pub cands: Seq<Shown>,
    pub counter_of: Option<Seq<char>>,
    pub star: bool,
}

impl DeepView for Lane {
    type V = LaneShown;

    open spec fn deep_view(&self) -> LaneShown {
        LaneShown {
            name: self.name@,
            filled: opt_text(self.filled),
            cands: self.cands.deep_view(),
            counter_of: opt_text(self.counter_of),
            star: self.star,
        }
    }
}

/// The lane board of a draft.
pub struct LaneView {
    pub explore: bool,
    /// How old the draft is.
    pub age_ms: u64,
    pub my_pick: Vec<String>,
    pub opp_pick: Vec<String>,
    pub my_ban: Vec<String>,
    pub opp_ban: Vec<String>,
    /// The five lanes.
    pub lanes: Vec<Lane>,
    pub picks_made: usize,
    /// Early, middle or late.
    pub timing: &'static str,
    pub tip: &'static str,
    /// The matches behind the statistics.
    pub matches: usize,
    /// How many champions are offered; 0 means all.
    pub pool_size: usize,
    /// Whether the lanes of any champion are known.
    pub has_pos: bool,
}

/// The places of the champions that can still be picked and play a lane.
pub open spec fn lane_places(t: Stats, d: Draft, pool: Option<Set<Seq<char>>>, lane: u8) -> Seq<int> {
    open_places(d, pool).filter(|i: int| t.lanes_of(champ_id(i)).contains(lane))
}

/// The places of the best champions for a lane.
pub open spec fn lane_best(
    t: Stats,
    d: Draft,
    pool: Option<Set<Seq<char>>>,
    scored: Seq<Score>,
    lane: u8,
) -> Seq<int> {
    best_places(lane_places(t, d, pool, lane), scored, LANE_TOP as nat)
}

/// Of the first `n` enemies, the one that plays a lane and over which the advantage is the
/// greatest, the first where several are equal; none where no advantage is above the mark.
/// With it the advantage that a further enemy must be above.
pub open spec fn countered(t: Stats, enemies: Seq<Seq<char>>, lane: u8, adv: Seq<u32>, n: nat) -> (
    u32,
    Option<int>,
)
    decreases n,
{
    if n == 0 {
        (COUNTER_FLAG, None)
    } else {
        let (best, who) = countered(t, enemies, lane, adv, (n - 1) as nat);
        if t.lanes_of(enemies[n - 1]).contains(lane) && gt32(adv[n - 1], best) {
            (adv[n - 1], Some(n - 1))
        } else {
            (best, who)
        }
    }
}

/// What a lane shows, but for its star.
pub open spec fn lane_shown(
    t: Stats,
    d: Draft,
    human_is_enemy: bool,
    pool: Option<Set<Seq<char>>>,
    scored: Seq<Seq<Score>>,
    advantages: Seq<Seq<u32>>,
    filled: Seq<Option<int>>,
    lane: int,
) -> LaneShown {
    match filled[lane] {
        Some(k) => LaneShown {
            name: LANES@[lane]@,
            filled: Some(ko_of(mine(d, human_is_enemy)[k])),
            cands: Seq::empty(),
            counter_of: None,
            star: false,
        },
        None => {
            let best = lane_best(t, d, pool, scored[lane], lane as u8);
            let enemies = theirs(d, human_is_enemy);
            LaneShown {
                name: LANES@[lane]@,
                filled: None,
                cands: all_shown(t, best, scored[lane], false, Some(lane as u8)),
                counter_of: if best.len() == 0 {
                    None
                } else {
                    match countered(t, enemies, lane as u8, advantages[best[0]], enemies.len()).1 {
                        Some(k) => Some(ko_of(enemies[k])),
                        None => None,
                    }
                },
                star: false,
            }
        },
    }
}

/// Of the first `n` lanes, the one whose best champion has the highest score, the first where
/// several are equal; none where no lane has a champion to pick.
pub open spec fn starred(lanes: Seq<LaneShown>, n: nat) -> Option<int>
    decreases n,
{
    if n == 0 {
        None
    } else {
        let prev = starred(lanes, (n - 1) as nat);
        let cands = lanes[n - 1].cands;
        if cands.len() == 0 {
            prev
        } else {
            match prev {
                Some(b) => if gt32(cands[0].score, lanes[b].cands[0].score) {
                    Some(n - 1)
                } else {
                    prev
                },
                None => Some(n - 1),
            }
        }
    }
}

/// What the five lanes show, but for the star.
pub open spec fn bare_lanes(
    t: Stats,
    d: Draft,
    human_is_enemy: bool,
    pool: Option<Set<Seq<char>>>,
    scored: Seq<Seq<Score>>,
    advantages: Seq<Seq<u32>>,
    filled: Seq<Option<int>>,
) -> Seq<LaneShown> {
    Seq::new(
        5,
        |l: int| lane_shown(t, d, human_is_enemy, pool, scored, advantages, filled, l),
    )
}

/// The lanes with a star on the one to pick for now.
pub open spec fn with_star(lanes: Seq<LaneShown>) -> Seq<LaneShown> {
    Seq::new(lanes.len(), |l: int| LaneShown { star: starred(lanes, lanes.len()) == Some(l), ..lanes[l] })
}

/// How early a pick is.
pub open spec fn timing_of(picks_made: nat) -> Seq<char> {
    if picks_made <= 1 {
        "선픽"@
    } else if picks_made >= 3 {
        "후픽"@
    } else {
        "중반"@
    }
}

/// What to look for in a pick.
pub open spec fn tip_of(picks_made: nat) -> Seq<char> {
    if picks_made <= 1 {
        "플렉스·강픽 우선 (라인 안 들키게)"@
    } else if picks_made >= 3 {
        "카운터 우선 (상대 드러난 라인 받아치기)"@
    } else {
        "시너지·조합 채우기"@
    }
}

/// Whether `r` is the lane board of a draft at the time `now`.
pub open spec fn is_board_at(
    r: LaneView,
    t: Stats,
    d: Draft,
    human_is_enemy: bool,
    pool: Option<Set<Seq<char>>>,
    scored: Seq<Seq<Score>>,
    advantages: Seq<Seq<u32>>,
    now: u64,
) -> bool {
    let picks = mine(d, human_is_enemy);
    &&& seated(t, picks, picks.len()) matches Some(filled)
    &&& r.explore == d.explore
    &&& r.age_ms == age(now, d.ts)
    &&& r.my_pick.deep_view() == ko_all(picks)
    &&& r.opp_pick.deep_view() == ko_all(theirs(d, human_is_enemy))
    &&& r.my_ban.deep_view() == ko_all(my_bans(d, human_is_enemy))
    &&& r.opp_ban.deep_view() == ko_all(my_bans(d, !human_is_enemy))
    &&& r.lanes.deep_view() == with_star(
        bare_lanes(t, d, human_is_enemy, pool, scored, advantages, filled),
    )
    &&& r.picks_made == picks.len()
    &&& r.timing@ == timing_of(picks.len())
    &&& r.tip@ == tip_of(picks.len())
    &&& r.matches == t.matches
    &&& r.pool_size == pool_count(pool)
    &&& r.has_pos == (t.plays.len() > 0)
}

/// The places of the champions that can still be picked and play a lane.
fn lane_champs(tables: &Tables, s: &DraftState, pool: Option<&TextSet>, lane: u8) -> (r: Vec<usize>)
    ensures
        as_ints(r@) == lane_places(tables@, s@, offered(pool), lane),
        forall|k: int| 0 <= k < r@.len() ==> #[trigger] r@[k] < CHAMP_COUNT,
{
    let c = open_champs(s, pool);
    let ghost ci = as_ints(c@);
    let ghost fits = |i: int| tables@.lanes_of(champ_id(i)).contains(lane);
    let mut r: Vec<usize> = Vec::new();
    let mut k: usize = 0;
    assert(as_ints(r@) =~= ci.take(0).filter(fits)) by {
        reveal(Seq::filter);
    }
    while k < c.len()
        invariant
            k <= c@.len(),
            ci == as_ints(c@),
            fits == (|i: int| tables@.lanes_of(champ_id(i)).contains(lane)),
            forall|j: int| 0 <= j < c@.len() ==> #[trigger] c@[j] < CHAMP_COUNT,
            as_ints(r@) == ci.take(k as int).filter(fits),
            forall|j: int| 0 <= j < r@.len() ==> #[trigger] r@[j] < CHAMP_COUNT,
        decreases c@.len() - k,
    {
        let ghost sofar = as_ints(r@);
        let i: usize = c[k];
        assert(ci[k as int] == i);
        assert(ci.take(k + 1).drop_last() =~= ci.take(k as int));
        assert(ci.take(k + 1).filter(fits) == if fits(i as int) {
            sofar.push(i as int)
        } else {
            sofar
        }) by {
            reveal(Seq::filter);
        }
        if tables.plays(CHAMPS[i].0, lane) {
            r.push(i);
            assert(as_ints(r@) =~= sofar.push(i as int));
        }
        k += 1;
    }
    assert(ci.take(k as int) == ci);
    r
}

/// What the champions at some places show on a lane.
fn lane_rows(tables: &Tables, best: &Vec<usize>, scored: &Vec<Scored>, lane: u8) -> (r: Vec<LaneCand>)
    requires
        scored@.len() == CHAMP_COUNT,
        forall|k: int| 0 <= k < best@.len() ==> #[trigger] best@[k] < CHAMP_COUNT,
    ensures
        r.deep_view() == all_shown(
            tables@,
            as_ints(best@),
            scored.deep_view(),
            false,
            Some(lane),
        ),
{
    let ghost bi = as_ints(best@);
    let ghost sc = scored.deep_view();
    let mut rows: Vec<LaneCand> = Vec::new();
    let mut k: usize = 0;
    while k < best.len()
        invariant
            k <= best@.len(),
            bi == as_ints(best@),
            sc == scored.deep_view(),
            scored@.len() == CHAMP_COUNT,
            forall|j: int| 0 <= j < best@.len() ==> #[trigger] best@[j] < CHAMP_COUNT,
            rows@.len() == k,
            forall|j: int|
                0 <= j < k ==> #[trigger] rows@[j].deep_view() == shown(
                    tables@,
                    bi[j],
                    sc[bi[j]],
                    false,
                    Some(lane),
                ),
        decreases best@.len() - k,
    {
        let i: usize = best[k];
        let id = CHAMPS[i].0;
        assert(bi[k as int] == i);
        assert(sc[i as int] == scored@[i as int].deep_view());
        rows.push(
            LaneCand {
                ko: ko_name(id),
                id: id.to_owned(),
                score: scored[i].total,
                label: PICK_LABELS[dominant(&scored[i].parts)],
                low_conf: tables.low_conf_for(id, Some(lane)),
                role: tables.role_tag(id),
                tier: tables.tier_of(id, Some(lane)),
            },
        );
        k += 1;
    }
    assert(rows.deep_view() =~= all_shown(tables@, bi, sc, false, Some(lane)));
    rows
}

/// The enemy that plays a lane and over which the advantage is the greatest.
pub fn counter_target(tables: &Tables, enemies: &Vec<String>, lane: u8, adv: &Vec<u32>) -> (r: Option<usize>)
    requires
        adv@.len() == enemies@.len(),
    ensures
        match r {
            Some(k) => k < enemies@.len() && countered(
                tables@,
                enemies.deep_view(),
                lane,
                adv@,
                enemies@.len(),
            ).1 == Some(k as int),
            None => countered(tables@, enemies.deep_view(), lane, adv@, enemies@.len()).1 is None,
        },
{
    let ghost d = enemies.deep_view();
    let mut best: u32 = COUNTER_FLAG;
    let mut who: Option<usize> = None;
    let mut n: usize = 0;
    while n < enemies.len()
        invariant
            n <= enemies@.len(),
            adv@.len() == enemies@.len(),
            d == enemies.deep_view(),
            countered(tables@, d, lane, adv@, n as nat) == (
                best,
                match who {
                    Some(k) => Some(k as int),
                    None => None,
                },
            ),
            who matches Some(k) ==> k < n,
        decreases enemies@.len() - n,
    {
        assert(d[n as int] == enemies@[n as int]@);
        if tables.plays(enemies[n].as_str(), lane) && above32(adv[n], best) {
            best = adv[n];
            who = Some(n);
        }
        n += 1;
    }
    who
}

/// Whether the scores and the advantages for a lane board are complete: a score for every
/// champion on every lane, and an advantage of every champion over every enemy.
pub open spec fn complete(scored: Seq<Seq<Score>>, advantages: Seq<Seq<u32>>, enemies: nat) -> bool {
    &&& scored.len() == 5
    &&& forall|l: int| 0 <= l < 5 ==> (#[trigger] scored[l]).len() == CHAMP_COUNT
    &&& advantages.len() == CHAMP_COUNT
    &&& forall|i: int| 0 <= i < CHAMP_COUNT ==> (#[trigger] advantages[i]).len() == enemies
}

/// What a lane shows, but for its star.
fn one_lane(
    tables: &Tables,
    s: &DraftState,
    human_is_enemy: bool,
    pool: Option<&TextSet>,
    scored: &Vec<Vec<Scored>>,
    advantages: &Vec<Vec<u32>>,
    filled: &Vec<Option<usize>>,
    lane: usize,
) -> (r: Lane)
    requires
        lane < 5,
        filled@.len() == 5,
        filled@[lane as int] matches Some(k) ==> k < mine(s@, human_is_enemy).len(),
        complete(scored.deep_view(), advantages.deep_view(), theirs(s@, human_is_enemy).len()),
    ensures
        r.deep_view() == lane_shown(
            tables@,
            s@,
            human_is_enemy,
            offered(pool),
            scored.deep_view(),
            advantages.deep_view(),
            fill_view(filled@),
            lane as int,
        ),
{
    let ghost f = fill_view(filled@);
    let ghost sc = scored.deep_view();
    let ghost ad = advantages.deep_view();
    let (my_pick, opp_pick) = if human_is_enemy {
        (&s.enemy_pick, &s.ally_pick)
    } else {
        (&s.ally_pick, &s.enemy_pick)
    };
    assert(my_pick.deep_view() == mine(s@, human_is_enemy));
    assert(opp_pick.deep_view() == theirs(s@, human_is_enemy));
    if let Some(k) = filled[lane] {
        assert(f[lane as int] == Some(k as int));
        assert(my_pick.deep_view()[k as int] == my_pick@[k as int]@);
        let r = Lane {
            name: LANES[lane],
            filled: Some(ko_name(my_pick[k].as_str())),
            cands: Vec::new(),
            counter_of: None,
            star: false,
        };
        assert(r.cands.deep_view() =~= Seq::empty());
        return r;
    }
    assert(f[lane as int] is None);
    assert(sc[lane as int] == scored@[lane as int].deep_view());
    assert(sc[lane as int].len() == CHAMP_COUNT);
    let c = lane_champs(tables, s, pool, lane as u8);
    let best = best_of(&c, &scored[lane], LANE_TOP);
    let ghost bi = as_ints(best@);
    let cands = lane_rows(tables, &best, &scored[lane], lane as u8);
    let counter_of = if best.len() == 0 {
        None
    } else {
        let top: usize = best[0];
        assert(bi[0] == top);
        assert(ad[top as int] == advantages@[top as int].deep_view());
        assert(ad[top as int].len() == theirs(s@, human_is_enemy).len());
        assert(advantages@[top as int].deep_view() =~= advantages@[top as int]@);
        match counter_target(tables, opp_pick, lane as u8, &advantages[top]) {
            Some(k) => {
                assert(opp_pick.deep_view()[k as int] == opp_pick@[k as int]@);
                Some(ko_name(opp_pick[k].as_str()))
            },
            None => None,
        }
    };
    Lane { name: LANES[lane], filled: None, cands, counter_of, star: false }
}

/// The lane board of a draft, from the human's side, at the time `now`: the lanes that the
/// own picks fill, and for every open lane the best three champions that play it. `scored`
/// gives the score of every champion on every lane, `advantages` the advantage of every
/// champion over every enemy. The tables must not send a pick to a lane that does not exist.
pub fn recommend_lanes_at(
    tables: &Tables,
    s: &DraftState,
    human_is_enemy: bool,
    pool: Option<&TextSet>,
    scored: &Vec<Vec<Scored>>,
    advantages: &Vec<Vec<u32>>,
    now: u64,
) -> (r: LaneView)
    requires
        complete(scored.deep_view(), advantages.deep_view(), theirs(s@, human_is_enemy).len()),
        seated(tables@, mine(s@, human_is_enemy), mine(s@, human_is_enemy).len()) is Some,
    ensures
        is_board_at(
            r,
            tables@,
            s@,
            human_is_enemy,
            offered(pool),
            scored.deep_view(),
            advantages.deep_view(),
            now,
        ),
{
    let (my_pick, opp_pick, my_ban, opp_ban) = if human_is_enemy {
        (&s.enemy_pick, &s.ally_pick, &s.enemy_ban, &s.ally_ban)
    } else {
        (&s.ally_pick, &s.enemy_pick, &s.ally_ban, &s.enemy_ban)
    };
    assert(my_pick.deep_view() == mine(s@, human_is_enemy));
    let filled = match assign_lanes(tables, my_pick) {
        Some(v) => v,
        None => Vec::new(),
    };
    let ghost bare = bare_lanes(
        tables@,
        s@,
        human_is_enemy,
        offered(pool),
        scored.deep_view(),
        advantages.deep_view(),
        fill_view(filled@),
    );
    let mut lanes: Vec<Lane> = Vec::new();
    let mut lead: Option<usize> = None;
    let mut l: usize = 0;
    while l < 5
        invariant
            l <= 5,
            filled@.len() == 5,
            forall|m: int|
                0 <= m < 5 ==> (#[trigger] filled@[m] matches Some(k) ==> k < mine(
                    s@,
                    human_is_enemy,
                ).len()),
            complete(scored.deep_view(), advantages.deep_view(), theirs(s@, human_is_enemy).len()),
            bare == bare_lanes(
                tables@,
                s@,
                human_is_enemy,
                offered(pool),
                scored.deep_view(),
                advantages.deep_view(),
                fill_view(filled@),
            ),
            lanes@.len() == l,
            forall|m: int| 0 <= m < l ==> #[trigger] lanes@[m].deep_view() == bare[m],
            match lead {
                Some(b) => starred(bare, l as nat) == Some(b as int) && b < l
                    && lanes@[b as int].cands@.len() > 0,
                None => starred(bare, l as nat) is None,
            },
        decreases 5 - l,
    {
        let lane = one_lane(tables, s, human_is_enemy, pool, scored, advantages, &filled, l);
        assert(lane.deep_view() == bare[l as int]);
        if lane.cands.len() > 0 {
            let better = match lead {
                Some(b) => {
                    assert(lanes@[b as int].deep_view() == bare[b as int]);
                    assert(bare[b as int].cands[0] == lanes@[b as int].cands@[0].deep_view());
                    assert(bare[l as int].cands[0] == lane.cands@[0].deep_view());
                    above32(lane.cands[0].score, lanes[b].cands[0].score)
                },
                None => true,
            };
            if better {
                lead = Some(l);
            }
        }
        assert(bare[l as int].cands.len() == lane.cands@.len());
        let ghost before = lanes@;
        lanes.push(lane);
        assert(forall|m: int| 0 <= m < l ==> lanes@[m] == before[m]);
        l += 1;
    }
    if let Some(b) = lead {
        let ghost before = lanes@;
        lanes[b].star = true;
        assert(forall|m: int| 0 <= m < 5 && m != b ==> lanes@[m] == before[m]);
        assert(before[b as int].deep_view() == bare[b as int]);
        assert(lanes@[b as int].deep_view() == (LaneShown { star: true, ..bare[b as int] }));
    }
    assert(lanes.deep_view() =~= with_star(bare)) by {
        assert forall|m: int| 0 <= m < 5 implies #[trigger] lanes.deep_view()[m] == with_star(
            bare,
        )[m] by {
            assert(!bare[m].star);
        }
    }
    let picks_made: usize = my_pick.len();
    let (timing, tip) = if picks_made <= 1 {
        ("선픽", "플렉스·강픽 우선 (라인 안 들키게)")
    } else if picks_made >= 3 {
        ("후픽", "카운터 우선 (상대 드러난 라인 받아치기)")
    } else {
        ("중반", "시너지·조합 채우기")
    };
    let pool_size = match pool {
        Some(p) => p.len(),
        None => 0,
    };
    LaneView {
        explore: s.explore,
        age_ms: if now > s.ts {
            now - s.ts
        } else {
            0
        },
        my_pick: ko_names(my_pick),
        opp_pick: ko_names(opp_pick),
        my_ban: ko_names(my_ban),
        opp_ban: ko_names(opp_ban),
        lanes,
        picks_made,
        timing,
        tip,
        matches: tables.match_count(),
        pool_size,
        has_pos: tables.has_pos(),
    }
}

/// Whether `score` can give the score `x` for what a score on a lane is made of.
pub open spec fn scores_lane<F: Fn(LaneTerms) -> Scored>(score: F, sum: LaneSum, x: Score) -> bool {
    exists|t: LaneTerms, r: Scored| #[trigger]
        call_ensures(score, (t,), r) && t@ == sum && r.deep_view() == x
}

/// Whether `advantage` can give the advantage `x` for what an advantage is made of.
pub open spec fn weighs<A: Fn(CounterTerms) -> u32>(advantage: A, sum: CounterSum, x: u32) -> bool {
    exists|t: CounterTerms| #[trigger] call_ensures(advantage, (t,), x) && t@ == sum
}

/// Whether `scored` are scores that `score` gives the champions on the lanes of the board for
/// a draft.
pub open spec fn lanes_scored_by<F: Fn(LaneTerms) -> Scored>(
    score: F,
    t: Stats,
    d: Draft,
    human_is_enemy: bool,
    scored: Seq<Seq<Score>>,
) -> bool {
    &&& scored.len() == 5
    &&& forall|l: int| 0 <= l < 5 ==> (#[trigger] scored[l]).len() == CHAMP_COUNT
    &&& forall|l: int, i: int|
        0 <= l < 5 && 0 <= i < CHAMP_COUNT ==> scores_lane(
            score,
            t.lane_sum(d, human_is_enemy, i, l as u8),
            #[trigger] scored[l][i],
        )
}

/// Whether `advantages` are those that `advantage` gives the champions over the enemies.
pub open spec fn weighed_by<A: Fn(CounterTerms) -> u32>(
    advantage: A,
    t: Stats,
    enemies: Seq<Seq<char>>,
    advantages: Seq<Seq<u32>>,
) -> bool {
    &&& advantages.len() == CHAMP_COUNT
    &&& forall|i: int| 0 <= i < CHAMP_COUNT ==> (#[trigger] advantages[i]).len() == enemies.len()
    &&& forall|i: int, k: int|
        0 <= i < CHAMP_COUNT && 0 <= k < enemies.len() ==> weighs(
            advantage,
            t.counter_sum(champ_id(i), enemies[k]),
            #[trigger] advantages[i][k],
        )
}

/// The scores of all champions on all lanes of the board for a draft.
fn score_lanes<F: Fn(LaneTerms) -> Scored>(
    tables: &Tables,
    s: &DraftState,
    human_is_enemy: bool,
    score: F,
) -> (r: Vec<Vec<Scored>>)
    requires
        forall|t: LaneTerms| #[trigger] call_requires(score, (t,)),
    ensures
        lanes_scored_by(score, tables@, s@, human_is_enemy, r.deep_view()),
{
    let mut r: Vec<Vec<Scored>> = Vec::new();
    let mut l: u8 = 0;
    while l < 5
        invariant
            l <= 5,
            forall|t: LaneTerms| #[trigger] call_requires(score, (t,)),
            r@.len() == l,
            forall|m: int| 0 <= m < l ==> (#[trigger] r@[m])@.len() == CHAMP_COUNT,
            forall|m: int, k: int|
                0 <= m < l && 0 <= k < CHAMP_COUNT ==> scores_lane(
                    score,
                    tables@.lane_sum(s@, human_is_enemy, k, m as u8),
                    (#[trigger] r@[m]@[k]).deep_view(),
                ),
        decreases 5 - l,
    {
        let mut row: Vec<Scored> = Vec::new();
        let mut i: usize = 0;
        while i < CHAMP_COUNT
            invariant
                i <= CHAMP_COUNT,
                forall|t: LaneTerms| #[trigger] call_requires(score, (t,)),
                row@.len() == i,
                forall|k: int|
                    0 <= k < i ==> scores_lane(
                        score,
                        tables@.lane_sum(s@, human_is_enemy, k, l),
                        (#[trigger] row@[k]).deep_view(),
                    ),
            decreases CHAMP_COUNT - i,
        {
            let t = tables.lane_terms(s, human_is_enemy, i, l);
            let ghost terms = t;
            let x = score(t);
            assert(call_ensures(score, (terms,), x));
            row.push(x);
            i += 1;
        }
        r.push(row);
        l += 1;
    }
    let ghost v = r.deep_view();
    assert(forall|m: int| 0 <= m < 5 ==> #[trigger] v[m] == r@[m].deep_view());
    assert forall|m: int, k: int| 0 <= m < 5 && 0 <= k < CHAMP_COUNT implies scores_lane(
        score,
        tables@.lane_sum(s@, human_is_enemy, k, m as u8),
        #[trigger] v[m][k],
    ) by {
        assert(v[m][k] == r@[m]@[k].deep_view());
    }
    r
}

/// The advantages of all champions over all enemies of a draft.
fn weigh_enemies<A: Fn(CounterTerms) -> u32>(
    tables: &Tables,
    s: &DraftState,
    human_is_enemy: bool,
    advantage: A,
) -> (r: Vec<Vec<u32>>)
    requires
        forall|t: CounterTerms| #[trigger] call_requires(advantage, (t,)),
    ensures
        weighed_by(advantage, tables@, theirs(s@, human_is_enemy), r.deep_view()),
{
    let (_, enemies) = sides(s, human_is_enemy);
    let ghost foes = theirs(s@, human_is_enemy);
    let mut r: Vec<Vec<u32>> = Vec::new();
    let mut i: usize = 0;
    while i < CHAMP_COUNT
        invariant
            i <= CHAMP_COUNT,
            forall|t: CounterTerms| #[trigger] call_requires(advantage, (t,)),
            foes == theirs(s@, human_is_enemy),
            foes == enemies.deep_view(),
            r@.len() == i,
            forall|m: int| 0 <= m < i ==> (#[trigger] r@[m])@.len() == foes.len(),
            forall|m: int, k: int|
                0 <= m < i && 0 <= k < foes.len() ==> weighs(
                    advantage,
                    tables@.counter_sum(champ_id(m), foes[k]),
                    #[trigger] r@[m]@[k],
                ),
        decreases CHAMP_COUNT - i,
    {
        let mut row: Vec<u32> = Vec::new();
        let mut k: usize = 0;
        while k < enemies.len()
            invariant
                i < CHAMP_COUNT,
                k <= enemies@.len(),
                forall|t: CounterTerms| #[trigger] call_requires(advantage, (t,)),
                foes == theirs(s@, human_is_enemy),
                foes == enemies.deep_view(),
                row@.len() == k,
                forall|m: int|
                    0 <= m < k ==> weighs(
                        advantage,
                        tables@.counter_sum(champ_id(i as int), foes[m]),
                        #[trigger] row@[m],
                    ),
            decreases enemies@.len() - k,
        {
            let t = tables.counter_terms(s, human_is_enemy, i, k);
            let x: u32 = advantage(t);
            assert(call_ensures(advantage, (t,), x));
            row.push(x);
            k += 1;
        }
        r.push(row);
        i += 1;
    }
    let ghost v = r.deep_view();
    assert(forall|m: int| 0 <= m < CHAMP_COUNT ==> #[trigger] v[m] == r@[m].deep_view());
    assert forall|m: int, k: int| 0 <= m < CHAMP_COUNT && 0 <= k < foes.len() implies weighs(
        advantage,
        tables@.counter_sum(champ_id(m), foes[k]),
        #[trigger] v[m][k],
    ) by {
        assert(v[m][k] == r@[m]@[k]);
    }
    r
}

/// The lane board of a draft, from the human's side, at the time of the call. `score` sums up
/// what the score of a champion on a lane is made of, `advantage` what its advantage over an
/// enemy is made of.
pub fn recommend_lanes<F: Fn(LaneTerms) -> Scored, A: Fn(CounterTerms) -> u32>(
    tables: &Tables,
    s: &DraftState,
    human_is_enemy: bool,
    pool: Option<&TextSet>,
    score: F,
    advantage: A,
) -> (r: LaneView)
    requires
        forall|t: LaneTerms| #[trigger] call_requires(score, (t,)),
        forall|t: CounterTerms| #[trigger] call_requires(advantage, (t,)),
        seated(tables@, mine(s@, human_is_enemy), mine(s@, human_is_enemy).len()) is Some,
    ensures
        exists|scored: Seq<Seq<Score>>, advantages: Seq<Seq<u32>>, since: Option<u128>|
            lanes_scored_by(score, tables@, s@, human_is_enemy, scored) && weighed_by(
                advantage,
                tables@,
                theirs(s@, human_is_enemy),
                advantages,
            ) && #[trigger] is_board_at(
                r,
                tables@,
                s@,
                human_is_enemy,
                offered(pool),
                scored,
                advantages,
                ms_shown(since),
            ),
{
    let scored = score_lanes(tables, s, human_is_enemy, score);
    let advantages = weigh_enemies(tables, s, human_is_enemy, advantage);
    recommend_lanes_at(tables, s, human_is_enemy, pool, &scored, &advantages, now_ms())
}

/// The champions that are recommended for a lane can still be picked and play it, each is
/// there once, and there are three, or all that there are.
pub proof fn law_lane_candidates(
    t: Stats,
    d: Draft,
    pool: Option<Set<Seq<char>>>,
    scored: Seq<Score>,
    lane: u8,
)
    requires
        scored.len() == CHAMP_COUNT,
    ensures
        ({
            let c = lane_places(t, d, pool, lane);
            let best = lane_best(t, d, pool, scored, lane);
            &&& best.len() == least(LANE_TOP as nat, c.len())
            &&& best.no_duplicates()
            &&& forall|k: int|
                0 <= k < best.len() ==> 0 <= #[trigger] best[k] < CHAMP_COUNT && is_open(
                    d,
                    pool,
                    best[k],
                ) && t.lanes_of(champ_id(best[k])).contains(lane)
        }),
{
    let o = open_places(d, pool);
    let fits = |i: int| t.lanes_of(champ_id(i)).contains(lane);
    let c = lane_places(t, d, pool, lane);
    law_recommends_open_champions(d, pool, scored);
    lemma_open_places_sound(d, pool);
    lemma_filter_sound(o, fits);
    law_best_places(c, scored, LANE_TOP as nat);
    let best = lane_best(t, d, pool, scored, lane);
    assert forall|k: int| 0 <= k < best.len() implies 0 <= #[trigger] best[k] < CHAMP_COUNT
        && is_open(d, pool, best[k]) && t.lanes_of(champ_id(best[k])).contains(lane) by {
        assert(c.contains(best[k]));
        let j = choose|j: int| 0 <= j < c.len() && c[j] == best[k];
        assert(fits(c[j]) && o.contains(c[j]));
        let m = choose|m: int| 0 <= m < o.len() && o[m] == c[j];
        assert(is_open(d, pool, o[m]));
    }
}

proof fn lemma_filter_sound(s: Seq<int>, p: spec_fn(int) -> bool)
    requires
        s.no_duplicates(),
        forall|k: int| 0 <= k < s.len() ==> 0 <= #[trigger] s[k] < CHAMP_COUNT,
    ensures
        s.filter(p).no_duplicates(),
        forall|k: int|
            0 <= k < s.filter(p).len() ==> p(#[trigger] s.filter(p)[k]) && s.contains(
                s.filter(p)[k],
            ) && 0 <= s.filter(p)[k] < CHAMP_COUNT,
    decreases s.len(),
{
    reveal(Seq::filter);
    if s.len() > 0 {
        let front = s.drop_last();
        assert forall|k: int| 0 <= k < front.len() implies 0 <= #[trigger] front[k] < CHAMP_COUNT by {
            assert(front[k] == s[k]);
        }
        lemma_filter_sound(front, p);
        let f = front.filter(p);
        let r = s.filter(p);
        assert forall|k: int| 0 <= k < f.len() implies #[trigger] f[k] != s.last() && s.contains(
            f[k],
        ) by {
            assert(front.contains(f[k]));
            let j = choose|j: int| 0 <= j < front.len() && front[j] == f[k];
            assert(s[j] == f[k]);
        }
        assert(r == if p(s.last()) {
            f.push(s.last())
        } else {
            f
        });
        assert(s.contains(s.last())) by {
            assert(s[s.len() - 1] == s.last());
        }
        assert forall|k: int| 0 <= k < r.len() implies p(#[trigger] r[k]) && s.contains(r[k]) && 0
            <= r[k] < CHAMP_COUNT by {
            if k < f.len() {
                assert(r[k] == f[k]);
            }
        }
    }
}

/// At most one lane has the star; it has champions to pick, and where the scores are numbers
/// no lane has one with a higher score.
pub proof fn law_star(lanes: Seq<LaneShown>, n: nat)
    requires
        n <= lanes.len(),
    ensures
        match starred(lanes, n) {
            Some(b) => {
                &&& 0 <= b < n
                &&& lanes[b].cands.len() > 0
                &&& (forall|l: int|
                    0 <= l < n && (#[trigger] lanes[l]).cands.len() > 0 ==> !nan32(
                        lanes[l].cands[0].score,
                    )) ==> forall|l: int|
                    0 <= l < n && (#[trigger] lanes[l]).cands.len() > 0 ==> rank32(
                        lanes[l].cands[0].score,
                    ) <= rank32(lanes[b].cands[0].score)
            },
            None => forall|l: int| 0 <= l < n ==> (#[trigger] lanes[l]).cands.len() == 0,
        },
        forall|l: int, m: int|
            0 <= l < lanes.len() && 0 <= m < lanes.len() && (#[trigger] with_star(lanes)[l]).star
                && (#[trigger] with_star(lanes)[m]).star ==> l == m,
    decreases n,
{
    if n > 0 {
        law_star(lanes, (n - 1) as nat);
    }
}

/// A lane that a pick fills recommends nobody.
pub proof fn law_filled_lane_is_done(
    t: Stats,
    d: Draft,
    human_is_enemy: bool,
    pool: Option<Set<Seq<char>>>,
    scored: Seq<Seq<Score>>,
    advantages: Seq<Seq<u32>>,
    filled: Seq<Option<int>>,
    lane: int,
)
    requires
        0 <= lane < 5,
        filled.len() == 5,
    ensures
        ({
            let shown = lane_shown(t, d, human_is_enemy, pool, scored, advantages, filled, lane);
            shown.filled is Some ==> shown.cands.len() == 0 && shown.counter_of is None
        }),
{
}

} // verus!
