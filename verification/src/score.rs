//! What the scores of champions are made of.
//!
//! A score is a weighted sum of what is gathered here. The sum is a floating-point number and
//! the caller's to compute; numbers of the tables are handed out as bit patterns.

use vstd::prelude::*;

use crate::champs::CHAMPS;
#[allow(unused_imports)]
use crate::champs::{champ_id, CHAMP_COUNT};
use crate::recommend::sides;
#[allow(unused_imports)]
use crate::recommend::{mine, theirs};
#[allow(unused_imports)]
use crate::state::Draft;
use crate::state::DraftState;
use crate::tables::Tables;
#[allow(unused_imports)]
use crate::tables::{pair, reading, Stats};
use crate::tags::{CompGaps, CounterSigns};
#[allow(unused_imports)]
use crate::tags::law_first_pick_fills_none;
use crate::text::same_text;

verus! {

/// What the score of a pick is made of.
pub struct PickTerms {
    /// How many picks the own team has made.
    pub picks_made: usize,
    /// How far the statistics are trusted, in two-hundredths.
    pub trust: usize,
    /// The winrate delta.
    pub power: u32,
    /// The synergy with each pick of the own team.
    pub synergies: Vec<u32>,
    /// How many pairings of kits the champion makes with the own team.
    pub pairings: usize,
    /// The delta against each enemy.
    pub answers: Vec<u32>,
    /// The delta of each enemy against the champion.
    pub threats: Vec<u32>,
    /// What of the kit answers the enemies' kits.
    pub signs: CounterSigns,
    /// The gaps of the own team that the champion fills.
    pub gaps: CompGaps,
    /// How many of the own team share the champion's category.
    pub sharing: usize,
}

/// What `PickTerms` hold.
pub struct PickSum {
    pub picks_made: nat,
    pub trust: nat,
    pub power: u32,
    pub synergies: Seq<u32>,
    pub pairings: nat,
    pub answers: Seq<u32>,
    pub threats: Seq<u32>,
    pub signs: CounterSigns,
    pub gaps: CompGaps,
    pub sharing: nat,
}

impl View for PickTerms {
    type V = PickSum;

    open spec fn view(&self) -> PickSum {
        PickSum {
            picks_made: self.picks_made as nat,
            trust: self.trust as nat,
            power: self.power,
            synergies: self.synergies@,
            pairings: self.pairings as nat,
            answers: self.answers@,
            threats: self.threats@,
            signs: self.signs,
            gaps: self.gaps,
            sharing: self.sharing as nat,
        }
    }
}

/// What the score of a ban is made of.
pub struct BanTerms {
    /// How far the statistics are trusted, in two-hundredths.
    pub trust: usize,
    /// The winrate delta.
    pub power: u32,
    /// The delta against each pick of the own team.
    pub answers: Vec<u32>,
    /// What of the kit answers the own team's kits.
    pub signs: CounterSigns,
    /// The synergy with each pick of the enemy.
    pub synergies: Vec<u32>,
    /// The ban rate.
    pub banrate: u32,
}

/// What `BanTerms` hold.
pub struct BanSum {
    pub trust: nat,
    pub power: u32,
    pub answers: Seq<u32>,
    pub signs: CounterSigns,
    pub synergies: Seq<u32>,
    pub banrate: u32,
}

impl View for BanTerms {
    type V = BanSum;

    open spec fn view(&self) -> BanSum {
        BanSum {
            trust: self.trust as nat,
            power: self.power,
            answers: self.answers@,
            signs: self.signs,
            synergies: self.synergies@,
            banrate: self.banrate,
        }
    }
}

/// What the advantage of a champion over an enemy is made of.
#[derive(Clone, Copy, PartialEq, Eq, Structural, Debug)]
pub struct CounterTerms {
    /// How far the statistics are trusted, in two-hundredths.
    pub trust: usize,
    /// The delta against the enemy.
    pub answer: u32,
    /// The delta of the enemy against the champion.
    pub threat: u32,
    /// What of the kit answers the enemy's kit.
    pub signs: CounterSigns,
}

/// What a `CounterTerms` holds.
pub struct CounterSum {
    pub trust: nat,
    pub answer: u32,
    pub threat: u32,
    pub signs: CounterSigns,
}

impl View for CounterTerms {
    type V = CounterSum;

    open spec fn view(&self) -> CounterSum {
        CounterSum {
            trust: self.trust as nat,
            answer: self.answer,
            threat: self.threat,
            signs: self.signs,
        }
    }
}

/// What the score of a champion in a list is made of.
pub enum Terms {
    /// It can be picked.
    Pick(PickTerms),
    /// It can be banned.
    Ban(BanTerms),
}

/// What `Terms` hold.
pub enum TermsSum {
    Pick(PickSum),
    Ban(BanSum),
}

impl View for Terms {
    type V = TermsSum;

    open spec fn view(&self) -> TermsSum {
        match self {
            Terms::Pick(p) => TermsSum::Pick(p@),
            Terms::Ban(b) => TermsSum::Ban(b@),
        }
    }
}

/// What the score of a champion on a lane is made of.
pub struct LaneTerms {
    /// What it is as a pick for the lane.
    pub pick: PickTerms,
    /// The steps of the bonus for playing several lanes.
    pub flex: u8,
}

/// What `LaneTerms` hold.
pub struct LaneSum {
    pub pick: PickSum,
    pub flex: int,
}

impl View for LaneTerms {
    type V = LaneSum;

    open spec fn view(&self) -> LaneSum {
        LaneSum { pick: self.pick@, flex: self.flex as int }
    }
}

impl Stats {
    /// The synergies of a champion with each of a team.
    pub open spec fn beside(self, c: Seq<char>, team: Seq<Seq<char>>) -> Seq<u32> {
        team.map_values(|a: Seq<char>| pair(self.synergy, c, a))
    }

    /// The deltas of a champion against each of a team.
    pub open spec fn against(self, c: Seq<char>, team: Seq<Seq<char>>) -> Seq<u32> {
        team.map_values(|e: Seq<char>| pair(self.counter, c, e))
    }

    /// The deltas of each of a team against a champion.
    pub open spec fn facing(self, c: Seq<char>, team: Seq<Seq<char>>) -> Seq<u32> {
        team.map_values(|e: Seq<char>| pair(self.counter, e, c))
    }

    /// What the score of a pick is made of, on a lane where one is given.
    pub open spec fn pick_sum(
        self,
        c: Seq<char>,
        allies: Seq<Seq<char>>,
        enemies: Seq<Seq<char>>,
        lane: Option<u8>,
    ) -> PickSum {
        PickSum {
            picks_made: allies.len(),
            trust: self.trust(),
            power: self.delta_on(c, lane),
            synergies: self.beside(c, allies),
            pairings: self.pairings(c, allies),
            answers: self.against(c, enemies),
            threats: self.facing(c, enemies),
            signs: self.signs(c, enemies),
            gaps: self.gaps(c, allies),
            sharing: self.sharing(c, allies),
        }
    }

    /// What the score of a ban is made of.
    pub open spec fn ban_sum(
        self,
        c: Seq<char>,
        allies: Seq<Seq<char>>,
        enemies: Seq<Seq<char>>,
    ) -> BanSum {
        BanSum {
            trust: self.trust(),
            power: self.delta_of(c),
            answers: self.against(c, allies),
            signs: self.signs(c, allies),
            synergies: self.beside(c, enemies),
            banrate: reading(self.banrate, c),
        }
    }

    /// What the advantage of a champion over an enemy is made of.
    pub open spec fn counter_sum(self, c: Seq<char>, e: Seq<char>) -> CounterSum {
        CounterSum {
            trust: self.trust(),
            answer: pair(self.counter, c, e),
            threat: pair(self.counter, e, c),
            signs: self.signs(c, seq![e]),
        }
    }

    /// What the score of the champion at place `i` is made of in the list for a draft: as a
    /// ban in the phase of bans, else as a pick, for the human's picks and against the others.
    pub open spec fn draft_sum(self, d: Draft, human_is_enemy: bool, i: int) -> TermsSum {
        let allies = mine(d, human_is_enemy);
        let enemies = theirs(d, human_is_enemy);
        if d.phase == "BAN"@ {
            TermsSum::Ban(self.ban_sum(champ_id(i), allies, enemies))
        } else {
            TermsSum::Pick(self.pick_sum(champ_id(i), allies, enemies, None))
        }
    }

    /// What the score of the champion at place `i` is made of on a lane of the board for a
    /// draft.
    pub open spec fn lane_sum(self, d: Draft, human_is_enemy: bool, i: int, lane: u8) -> LaneSum {
        let allies = mine(d, human_is_enemy);
        let enemies = theirs(d, human_is_enemy);
        LaneSum {
            pick: self.pick_sum(champ_id(i), allies, enemies, Some(lane)),
            flex: self.flex_bonus(champ_id(i), allies.len()),
        }
    }
}

impl Tables {
    fn all_beside(&self, c: &str, team: &Vec<String>) -> (r: Vec<u32>)
        ensures
            r@ == self@.beside(c@, team.deep_view()),
    {
        let mut r: Vec<u32> = Vec::new();
        let mut i: usize = 0;
        while i < team.len()
            invariant
                i <= team@.len(),
                r@ == self@.beside(c@, team.deep_view()).take(i as int),
            decreases team@.len() - i,
        {
            assert(team.deep_view()[i as int] == team@[i as int]@);
            r.push(self.syn(c, team[i].as_str()));
            i += 1;
            assert(r@ =~= self@.beside(c@, team.deep_view()).take(i as int));
        }
        assert(r@ =~= self@.beside(c@, team.deep_view()));
        r
    }

    fn all_against(&self, c: &str, team: &Vec<String>) -> (r: Vec<u32>)
        ensures
            r@ == self@.against(c@, team.deep_view()),
    {
        let mut r: Vec<u32> = Vec::new();
        let mut i: usize = 0;
        while i < team.len()
            invariant
                i <= team@.len(),
                r@ == self@.against(c@, team.deep_view()).take(i as int),
            decreases team@.len() - i,
        {
            assert(team.deep_view()[i as int] == team@[i as int]@);
            r.push(self.cnt(c, team[i].as_str()));
            i += 1;
            assert(r@ =~= self@.against(c@, team.deep_view()).take(i as int));
        }
        assert(r@ =~= self@.against(c@, team.deep_view()));
        r
    }

    fn all_facing(&self, c: &str, team: &Vec<String>) -> (r: Vec<u32>)
        ensures
            r@ == self@.facing(c@, team.deep_view()),
    {
        let mut r: Vec<u32> = Vec::new();
        let mut i: usize = 0;
        while i < team.len()
            invariant
                i <= team@.len(),
                r@ == self@.facing(c@, team.deep_view()).take(i as int),
            decreases team@.len() - i,
        {
            assert(team.deep_view()[i as int] == team@[i as int]@);
            r.push(self.cnt(team[i].as_str(), c));
            i += 1;
            assert(r@ =~= self@.facing(c@, team.deep_view()).take(i as int));
        }
        assert(r@ =~= self@.facing(c@, team.deep_view()));
        r
    }

    /// What the score of a pick is made of.
    pub fn score_pick(&self, cand: &str, allies: &Vec<String>, enemies: &Vec<String>) -> (r:
        PickTerms)
        ensures
            r@ == self@.pick_sum(cand@, allies.deep_view(), enemies.deep_view(), None),
    {
        self.score_pick_in(cand, allies, enemies, None)
    }

    /// What the score of a pick is made of, on a lane where one is given: the winrate is then
    /// that of the lane.
    pub fn score_pick_in(
        &self,
        cand: &str,
        allies: &Vec<String>,
        enemies: &Vec<String>,
        lane: Option<u8>,
    ) -> (r: PickTerms)
        ensures
            r@ == self@.pick_sum(cand@, allies.deep_view(), enemies.deep_view(), lane),
    {
        PickTerms {
            picks_made: allies.len(),
            trust: self.confidence(),
            power: self.delta_for(cand, lane),
            synergies: self.all_beside(cand, allies),
            pairings: self.tag_synergy(cand, allies),
            answers: self.all_against(cand, enemies),
            threats: self.all_facing(cand, enemies),
            signs: self.tag_counter(cand, enemies),
            gaps: self.comp_need(cand, allies),
            sharing: self.overlap(cand, allies),
        }
    }

    /// What the score of a ban is made of.
    pub fn score_ban(&self, cand: &str, allies: &Vec<String>, enemies: &Vec<String>) -> (r: BanTerms)
        ensures
            r@ == self@.ban_sum(cand@, allies.deep_view(), enemies.deep_view()),
    {
        BanTerms {
            trust: self.confidence(),
            power: self.delta(cand),
            answers: self.all_against(cand, allies),
            signs: self.tag_counter(cand, allies),
            synergies: self.all_beside(cand, enemies),
            banrate: self.ban(cand),
        }
    }

    /// What the advantage of a champion over an enemy is made of.
    pub fn counters(&self, cand: &str, enemy: &str) -> (r: CounterTerms)
        ensures
            r@ == self@.counter_sum(cand@, enemy@),
    {
        let mut alone: Vec<String> = Vec::new();
        alone.push(enemy.to_owned());
        assert(alone.deep_view() =~= seq![enemy@]);
        CounterTerms {
            trust: self.confidence(),
            answer: self.cnt(cand, enemy),
            threat: self.cnt(enemy, cand),
            signs: self.tag_counter(cand, &alone),
        }
    }

    /// What the score of the champion at place `i` is made of in the list for a draft.
    pub fn draft_terms(&self, s: &DraftState, human_is_enemy: bool, i: usize) -> (r: Terms)
        requires
            i < CHAMP_COUNT,
        ensures
            r@ == self@.draft_sum(s@, human_is_enemy, i as int),
    {
        let (allies, enemies) = sides(s, human_is_enemy);
        let id = CHAMPS[i].0;
        if same_text(s.phase.as_str(), "BAN") {
            Terms::Ban(self.score_ban(id, allies, enemies))
        } else {
            Terms::Pick(self.score_pick(id, allies, enemies))
        }
    }

    /// What the score of the champion at place `i` is made of on a lane of the board for a
    /// draft.
    pub fn lane_terms(&self, s: &DraftState, human_is_enemy: bool, i: usize, lane: u8) -> (r:
        LaneTerms)
        requires
            i < CHAMP_COUNT,
        ensures
            r@ == self@.lane_sum(s@, human_is_enemy, i as int, lane),
    {
        let (allies, enemies) = sides(s, human_is_enemy);
        let id = CHAMPS[i].0;
        LaneTerms {
            pick: self.score_pick_in(id, allies, enemies, Some(lane)),
            flex: self.flex_steps(id, allies.len()),
        }
    }

    /// What the advantage of the champion at place `i` over the enemy at place `k` is made of.
    pub fn counter_terms(&self, s: &DraftState, human_is_enemy: bool, i: usize, k: usize) -> (r:
        CounterTerms)
        requires
            i < CHAMP_COUNT,
            k < theirs(s@, human_is_enemy).len(),
        ensures
            r@ == self@.counter_sum(champ_id(i as int), theirs(s@, human_is_enemy)[k as int]),
    {
        let (_, enemies) = sides(s, human_is_enemy);
        assert(enemies.deep_view()[k as int] == enemies@[k as int]@);
        self.counters(CHAMPS[i].0, enemies[k].as_str())
    }
}

/// The score of a first pick against nobody rests on the winrate alone: there is nobody to
/// pair with or to answer, no gap to fill and no category to share.
pub proof fn law_first_pick_is_power(t: Stats, c: Seq<char>, lane: Option<u8>)
    ensures
        ({
            let none = Seq::<Seq<char>>::empty();
            let s = t.pick_sum(c, none, none, lane);
            &&& s.power == t.delta_on(c, lane)
            &&& s.synergies.len() == 0 && s.answers.len() == 0 && s.threats.len() == 0
            &&& s.pairings == 0 && s.sharing == 0
            &&& s.signs == (CounterSigns { dive: 0, whittle: 0, engage: false, mitigate: false })
            &&& s.gaps == (CompGaps {
                tank: false,
                front: false,
                cc: false,
                heal: false,
                backline: false,
                ap: false,
                ad: false,
            })
        }),
{
    law_first_pick_fills_none(t, c);
    reveal(Seq::filter);
}

/// What a champion answers an enemy with is what threatens that enemy.
pub proof fn law_answers_are_threats(t: Stats, c: Seq<char>, e: Seq<char>)
    ensures
        t.against(c, seq![e]) == t.facing(e, seq![c]),
{
    assert(t.against(c, seq![e]) =~= t.facing(e, seq![c]));
}

/// To score a draft from the other side is to score it with its sides swapped.
pub proof fn law_scores_swap(t: Stats, d: Draft, human_is_enemy: bool, i: int, lane: u8)
    ensures
        ({
            let swapped = Draft { ally_pick: d.enemy_pick, enemy_pick: d.ally_pick, ..d };
            &&& t.draft_sum(swapped, human_is_enemy, i) == t.draft_sum(d, !human_is_enemy, i)
            &&& t.lane_sum(swapped, human_is_enemy, i, lane) == t.lane_sum(
                d,
                !human_is_enemy,
                i,
                lane,
            )
        }),
{
}

/// Bans change no score: it rests on the phase, the picks and the tables.
pub proof fn law_scores_rest_on_picks(t: Stats, d: Draft, e: Draft, human_is_enemy: bool, i: int)
    requires
        d.phase == e.phase,
        d.ally_pick == e.ally_pick,
        d.enemy_pick == e.enemy_pick,
    ensures
        t.draft_sum(d, human_is_enemy, i) == t.draft_sum(e, human_is_enemy, i),
        forall|lane: u8| #[trigger]
            t.lane_sum(d, human_is_enemy, i, lane) == t.lane_sum(e, human_is_enemy, i, lane),
{
}

} // verus!
