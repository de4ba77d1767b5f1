//! Counting the games and wins of champions, of pairs in one team and of pairs that face
//! each other.

use vstd::prelude::*;

use crate::scan::{
    extract_array,
    parse_bool,
    parse_position_from_stats,
    parse_quoted_field,
    split_structs,
};
#[allow(unused_imports)]
use crate::scan::{array_field, bool_field, lane_of, quoted_field, structs};
use crate::text::has_text;
#[allow(unused_imports)]
use crate::text::{has, opt_text};
use crate::textmap::TextMap;
#[allow(unused_imports)]
use crate::textmap::{ascending, law_put_ascending, lookup, put};
use crate::textset::TextSet;

verus! {

/// Games and wins.
#[derive(Clone, Copy)]
pub struct WL {
    pub games: u32,
    pub wins: u32,
}

/// What a `WL` counts.
pub struct Record {
    pub games: nat,
    pub wins: nat,
}

impl DeepView for WL {
    type V = Record;

    open spec fn deep_view(&self) -> Record {
        Record { games: self.games as nat, wins: self.wins as nat }
    }
}

/// No games.
pub open spec fn no_games() -> Record {
    Record { games: 0, wins: 0 }
}

/// The record with one more game.
pub open spec fn scored(r: Record, won: bool) -> Record {
    Record {
        games: r.games + 1,
        wins: r.wins + if won {
            1nat
        } else {
            0nat
        },
    }
}

/// Whether a record can be counted.
pub open spec fn countable(r: Record) -> bool {
    r.games <= u32::MAX && r.wins <= u32::MAX
}

impl WL {
    /// No games.
    pub fn new() -> (r: Self)
        ensures
            r.deep_view() == no_games(),
    {
        WL { games: 0, wins: 0 }
    }

    /// Counts one more game.
    pub fn record(&mut self, won: bool)
        requires
            countable(scored(old(self).deep_view(), won)),
        ensures
            final(self).deep_view() == scored(old(self).deep_view(), won),
    {
        self.games = self.games + 1;
        if won {
            self.wins = self.wins + 1;
        }
    }

    /// Whether one more game can be counted.
    pub fn has_room(&self, won: bool) -> (r: bool)
        ensures
            r == countable(scored(self.deep_view(), won)),
    {
        self.games < u32::MAX && (!won || self.wins < u32::MAX)
    }
}

/// A champion's games, all of them and by lane.
pub struct ChampAgg {
    pub overall: WL,
    pub by_pos: TextMap<WL>,
}

/// What a `ChampAgg` counts.
pub struct ChampRecord {
    pub overall: Record,
    pub by_pos: Seq<(Seq<char>, Record)>,
}

impl DeepView for ChampAgg {
    type V = ChampRecord;

    open spec fn deep_view(&self) -> ChampRecord {
        ChampRecord { overall: self.overall.deep_view(), by_pos: self.by_pos@ }
    }
}

/// The counts of all games.
pub struct Aggregator {
    pub champs: TextMap<ChampAgg>,
    /// The games of a champion in a team with another.
    pub synergy: TextMap<TextMap<WL>>,
    /// The games of a champion against another.
    pub counter: TextMap<TextMap<WL>>,
    pub matches: u32,
}

/// What an `Aggregator` counts.
pub struct Tally {
    pub champs: Seq<(Seq<char>, ChampRecord)>,
    pub synergy: Seq<(Seq<char>, Seq<(Seq<char>, Record)>)>,
    pub counter: Seq<(Seq<char>, Seq<(Seq<char>, Record)>)>,
    pub matches: nat,
}

impl View for Aggregator {
    type V = Tally;

    open spec fn view(&self) -> Tally {
        Tally {
            champs: self.champs@,
            synergy: self.synergy@,
            counter: self.counter@,
            matches: self.matches as nat,
        }
    }
}

/// The tally before the first game.
pub open spec fn no_tally() -> Tally {
    Tally { champs: Seq::empty(), synergy: Seq::empty(), counter: Seq::empty(), matches: 0 }
}

/// One thing to count.
pub enum Event {
    /// A game.
    Game,
    /// A champion's game, on a lane where it is known, and whether it was won.
    Player(Seq<char>, Option<Seq<char>>, bool),
    /// A champion's game in a team with another.
    Synergy(Seq<char>, Seq<char>, bool),
    /// A champion's game against another.
    Counter(Seq<char>, Seq<char>, bool),
}

/// The record under a key, that of no games where there is none.
pub open spec fn record_of(m: Seq<(Seq<char>, Record)>, k: Seq<char>) -> Record {
    match lookup(m, k) {
        Some(r) => r,
        None => no_games(),
    }
}

/// A champion's counts, those of no games where there are none.
pub open spec fn champ_of(t: Tally, c: Seq<char>) -> ChampRecord {
    match lookup(t.champs, c) {
        Some(r) => r,
        None => ChampRecord { overall: no_games(), by_pos: Seq::empty() },
    }
}

/// The records under the first key of a pair.
pub open spec fn row_of(
    m: Seq<(Seq<char>, Seq<(Seq<char>, Record)>)>,
    a: Seq<char>,
) -> Seq<(Seq<char>, Record)> {
    match lookup(m, a) {
        Some(r) => r,
        None => Seq::empty(),
    }
}

/// The record under a pair, that of no games where there is none.
pub open spec fn pair_of(
    m: Seq<(Seq<char>, Seq<(Seq<char>, Record)>)>,
    a: Seq<char>,
    b: Seq<char>,
) -> Record {
    record_of(row_of(m, a), b)
}

/// The pairs with one more game under `a`, `b`.
pub open spec fn pair_scored(
    m: Seq<(Seq<char>, Seq<(Seq<char>, Record)>)>,
    a: Seq<char>,
    b: Seq<char>,
    won: bool,
) -> Seq<(Seq<char>, Seq<(Seq<char>, Record)>)> {
    put(m, a, put(row_of(m, a), b, scored(pair_of(m, a, b), won)))
}

/// The tally with one more thing counted.
pub open spec fn counted(t: Tally, e: Event) -> Tally {
    match e {
        Event::Game => Tally { matches: t.matches + 1, ..t },
        Event::Player(c, pos, won) => {
            let r = champ_of(t, c);
            Tally {
                champs: put(
                    t.champs,
                    c,
                    ChampRecord {
                        overall: scored(r.overall, won),
                        by_pos: match pos {
                            Some(p) => put(r.by_pos, p, scored(record_of(r.by_pos, p), won)),
                            None => r.by_pos,
                        },
                    },
                ),
                ..t
            }
        },
        Event::Synergy(a, b, won) => Tally { synergy: pair_scored(t.synergy, a, b, won), ..t },
        Event::Counter(a, b, won) => Tally { counter: pair_scored(t.counter, a, b, won), ..t },
    }
}

/// Whether one more thing can be counted.
pub open spec fn fits(t: Tally, e: Event) -> bool {
    match e {
        Event::Game => t.matches + 1 <= u32::MAX,
        Event::Player(c, pos, won) => {
            let r = champ_of(t, c);
            countable(scored(r.overall, won)) && (pos matches Some(p) ==> countable(
                scored(record_of(r.by_pos, p), won),
            ))
        },
        Event::Synergy(a, b, won) => countable(scored(pair_of(t.synergy, a, b), won)),
        Event::Counter(a, b, won) => countable(scored(pair_of(t.counter, a, b), won)),
    }
}

/// The tally with some things counted, one after the other.
pub open spec fn counted_all(t: Tally, es: Seq<Event>) -> Tally
    decreases es.len(),
{
    if es.len() == 0 {
        t
    } else {
        counted(counted_all(t, es.drop_last()), es.last())
    }
}

/// Whether some things can be counted, one after the other.
pub open spec fn fits_all(t: Tally, es: Seq<Event>) -> bool
    decreases es.len(),
{
    es.len() == 0 || (fits_all(t, es.drop_last()) && fits(
        counted_all(t, es.drop_last()),
        es.last(),
    ))
}

/// Counting one list behind another is counting both in turn.
pub proof fn law_counted_in_turn(t: Tally, a: Seq<Event>, b: Seq<Event>)
    ensures
        counted_all(t, a + b) == counted_all(counted_all(t, a), b),
        fits_all(t, a + b) == (fits_all(t, a) && fits_all(counted_all(t, a), b)),
    decreases b.len(),
{
    if b.len() == 0 {
        assert(a + b == a);
    } else {
        law_counted_in_turn(t, a, b.drop_last());
        assert((a + b).drop_last() == a + b.drop_last());
        assert((a + b).last() == b.last());
    }
}

/// A member of a team: the champion, and its lane where it is known.
pub type Player = (Seq<char>, Option<Seq<char>>);

/// The members of a team.
pub open spec fn players(team: Seq<(String, Option<String>)>) -> Seq<Player> {
    Seq::new(team.len(), |i: int| (team[i].0@, opt_text(team[i].1)))
}

/// The champions of a team.
pub open spec fn names(team: Seq<Player>) -> Seq<Seq<char>> {
    Seq::new(team.len(), |i: int| team[i].0)
}

/// What a team's members count for themselves.
pub open spec fn player_events(team: Seq<Player>, won: bool) -> Seq<Event> {
    Seq::new(team.len(), |i: int| Event::Player(team[i].0, team[i].1, won))
}

/// What the first `n` members count with the member at place `i`.
pub open spec fn mate_events(team: Seq<Seq<char>>, i: int, n: nat, won: bool) -> Seq<Event>
    decreases n,
{
    if n == 0 {
        Seq::empty()
    } else {
        let front = mate_events(team, i, (n - 1) as nat, won);
        if n - 1 == i {
            front
        } else {
            front.push(Event::Synergy(team[i], team[n - 1], won))
        }
    }
}

/// What the first `n` members count with each other member.
pub open spec fn synergy_events(team: Seq<Seq<char>>, n: nat, won: bool) -> Seq<Event>
    decreases n,
{
    if n == 0 {
        Seq::empty()
    } else {
        synergy_events(team, (n - 1) as nat, won) + mate_events(team, n - 1, team.len(), won)
    }
}

/// What a champion counts against each enemy.
pub open spec fn foe_events(c: Seq<char>, enemies: Seq<Seq<char>>, won: bool) -> Seq<Event> {
    Seq::new(enemies.len(), |i: int| Event::Counter(c, enemies[i], won))
}

/// What the first `n` members count against each enemy.
pub open spec fn counter_events(
    team: Seq<Seq<char>>,
    enemies: Seq<Seq<char>>,
    n: nat,
    won: bool,
) -> Seq<Event>
    decreases n,
{
    if n == 0 {
        Seq::empty()
    } else {
        counter_events(team, enemies, (n - 1) as nat, won) + foe_events(team[n - 1], enemies, won)
    }
}

/// What a game counts.
pub open spec fn game_events(blue: Seq<Player>, red: Seq<Player>, blue_win: bool) -> Seq<Event> {
    let b = names(blue);
    let r = names(red);
    seq![Event::Game] + player_events(blue, blue_win) + player_events(red, !blue_win)
        + synergy_events(b, b.len(), blue_win) + synergy_events(r, r.len(), !blue_win)
        + counter_events(b, r, b.len(), blue_win) + counter_events(r, b, r.len(), !blue_win)
}

/// Counts one more game under `a`, `b`, where it can be counted.
fn record_pair(m: &mut TextMap<TextMap<WL>>, a: &str, b: &str, won: bool) -> (ok: bool)
    requires
        ascending(old(m)@),
    ensures
        ascending(final(m)@),
        ok == countable(scored(pair_of(old(m)@, a@, b@), won)),
        ok ==> final(m)@ == pair_scored(old(m)@, a@, b@, won),
{
    let row = m.slot(a, TextMap::new());
    let mut w = match row.get(b) {
        Some(w) => *w,
        None => WL::new(),
    };
    let ok = w.has_room(won);
    if ok {
        w.record(won);
        row.insert(b, w);
    }
    proof {
        law_put_ascending(old(m)@, a@, row@);
    }
    ok
}

impl Aggregator {
    /// Whether the champions are in order.
    pub open spec fn ordered(&self) -> bool {
        &&& ascending(self@.champs)
        &&& ascending(self@.synergy)
        &&& ascending(self@.counter)
    }

    /// Nothing counted yet.
    pub fn new() -> (r: Self)
        ensures
            r@ == no_tally(),
            r.ordered(),
    {
        Aggregator {
            champs: TextMap::new(),
            synergy: TextMap::new(),
            counter: TextMap::new(),
            matches: 0,
        }
    }

    /// Counts a champion's game. The answer is whether it could be counted.
    pub fn record_player(&mut self, champ: &str, pos: &Option<String>, won: bool) -> (ok: bool)
        requires
            old(self).ordered(),
        ensures
            final(self).ordered(),
            ok == fits(old(self)@, Event::Player(champ@, opt_text(*pos), won)),
            ok ==> final(self)@ == counted(
                old(self)@,
                Event::Player(champ@, opt_text(*pos), won),
            ),
    {
        let ghost t = self@;
        let none = ChampAgg { overall: WL::new(), by_pos: TextMap::new() };
        assert(none.deep_view().by_pos =~= Seq::<(Seq<char>, Record)>::empty());
        let c = self.champs.slot(champ, none);
        assert(c.deep_view() == champ_of(t, champ@));
        let mut ok = c.overall.has_room(won);
        if let Some(p) = pos {
            let mut w = match c.by_pos.get(p.as_str()) {
                Some(w) => *w,
                None => WL::new(),
            };
            ok = ok && w.has_room(won);
            if ok {
                w.record(won);
                c.by_pos.insert(p.as_str(), w);
            }
        }
        if ok {
            c.overall.record(won);
        }
        proof {
            law_put_ascending(t.champs, champ@, c.deep_view());
        }
        ok
    }

    /// Counts the games of a team's champions with each other.
    pub fn record_team_synergy(&mut self, team: &Vec<String>, won: bool) -> (ok: bool)
        requires
            old(self).ordered(),
        ensures
            final(self).ordered(),
            ok == fits_all(old(self)@, synergy_events(team.deep_view(), team@.len(), won)),
            ok ==> final(self)@ == counted_all(
                old(self)@,
                synergy_events(team.deep_view(), team@.len(), won),
            ),
    {
        let ghost t = self@;
        let ghost d = team.deep_view();
        let ghost all = synergy_events(d, d.len(), won);
        let mut i: usize = 0;
        while i < team.len()
            invariant
                i <= team@.len(),
                t == old(self)@,
                d == team.deep_view(),
                all == synergy_events(d, d.len(), won),
                self.ordered(),
                fits_all(t, synergy_events(d, i as nat, won)),
                self@ == counted_all(t, synergy_events(d, i as nat, won)),
            decreases team@.len() - i,
        {
            let ghost front = synergy_events(d, i as nat, won);
            let mut j: usize = 0;
            assert(front + mate_events(d, i as int, 0, won) =~= front);
            while j < team.len()
                invariant
                    i < team@.len(),
                    j <= team@.len(),
                    t == old(self)@,
                    d == team.deep_view(),
                    all == synergy_events(d, d.len(), won),
                    front == synergy_events(d, i as nat, won),
                    self.ordered(),
                    fits_all(t, front + mate_events(d, i as int, j as nat, won)),
                    self@ == counted_all(t, front + mate_events(d, i as int, j as nat, won)),
                decreases team@.len() - j,
            {
                assert(d[i as int] == team@[i as int]@);
                assert(d[j as int] == team@[j as int]@);
                let ghost sofar = mate_events(d, i as int, j as nat, won);
                if i != j {
                    let ghost e = Event::Synergy(d[i as int], d[j as int], won);
                    assert((front + sofar.push(e)).drop_last() =~= front + sofar);
                    let ok = record_pair(
                        &mut self.synergy,
                        team[i].as_str(),
                        team[j].as_str(),
                        won,
                    );
                    if !ok {
                        proof {
                            lemma_mates_first(d, i as int, (j + 1) as nat, won);
                            lemma_synergy_first(d, (i + 1) as nat, won);
                            let rest = choose|rest: Seq<Event>|
                                mate_events(d, i as int, d.len(), won) == #[trigger] (sofar.push(e)
                                    + rest);
                            let more = choose|more: Seq<Event>|
                                all == #[trigger] (synergy_events(d, (i + 1) as nat, won) + more);
                            assert(all =~= (front + sofar.push(e)) + (rest + more));
                            law_counted_in_turn(t, front + sofar.push(e), rest + more);
                        }
                        return false;
                    }
                }
                j += 1;
            }
            i += 1;
        }
        true
    }

    /// Counts the games of a team's champions against each enemy.
    pub fn record_counters(&mut self, team: &Vec<String>, enemies: &Vec<String>, won: bool) -> (ok:
        bool)
        requires
            old(self).ordered(),
        ensures
            final(self).ordered(),
            ok == fits_all(
                old(self)@,
                counter_events(team.deep_view(), enemies.deep_view(), team@.len(), won),
            ),
            ok ==> final(self)@ == counted_all(
                old(self)@,
                counter_events(team.deep_view(), enemies.deep_view(), team@.len(), won),
            ),
    {
        let ghost t = self@;
        let ghost d = team.deep_view();
        let ghost f = enemies.deep_view();
        let ghost all = counter_events(d, f, d.len(), won);
        let mut i: usize = 0;
        while i < team.len()
            invariant
                i <= team@.len(),
                t == old(self)@,
                d == team.deep_view(),
                f == enemies.deep_view(),
                all == counter_events(d, f, d.len(), won),
                self.ordered(),
                fits_all(t, counter_events(d, f, i as nat, won)),
                self@ == counted_all(t, counter_events(d, f, i as nat, won)),
            decreases team@.len() - i,
        {
            let ghost front = counter_events(d, f, i as nat, won);
            let ghost row = foe_events(d[i as int], f, won);
            let mut j: usize = 0;
            assert(front + row.take(0) =~= front);
            while j < enemies.len()
                invariant
                    i < team@.len(),
                    j <= enemies@.len(),
                    t == old(self)@,
                    d == team.deep_view(),
                    f == enemies.deep_view(),
                    all == counter_events(d, f, d.len(), won),
                    front == counter_events(d, f, i as nat, won),
                    row == foe_events(d[i as int], f, won),
                    self.ordered(),
                    fits_all(t, front + row.take(j as int)),
                    self@ == counted_all(t, front + row.take(j as int)),
                decreases enemies@.len() - j,
            {
                assert(d[i as int] == team@[i as int]@);
                assert(f[j as int] == enemies@[j as int]@);
                assert((front + row.take(j + 1)).drop_last() =~= front + row.take(j as int));
                let ok = record_pair(
                    &mut self.counter,
                    team[i].as_str(),
                    enemies[j].as_str(),
                    won,
                );
                if !ok {
                    proof {
                        lemma_counter_first(d, f, (i + 1) as nat, won);
                        let more = choose|more: Seq<Event>|
                            all == #[trigger] (counter_events(d, f, (i + 1) as nat, won) + more);
                        assert(all =~= (front + row.take(j + 1)) + (row.skip(j + 1) + more));
                        law_counted_in_turn(
                            t,
                            front + row.take(j + 1),
                            row.skip(j + 1) + more,
                        );
                    }
                    return false;
                }
                j += 1;
            }
            assert(row.take(j as int) == row);
            i += 1;
        }
        true
    }

    /// Counts the games of a team's members.
    fn record_players(&mut self, team: &Vec<(String, Option<String>)>, won: bool) -> (ok: bool)
        requires
            old(self).ordered(),
        ensures
            final(self).ordered(),
            ok == fits_all(old(self)@, player_events(players(team@), won)),
            ok ==> final(self)@ == counted_all(old(self)@, player_events(players(team@), won)),
    {
        let ghost t = self@;
        let ghost all = player_events(players(team@), won);
        let mut i: usize = 0;
        while i < team.len()
            invariant
                i <= team@.len(),
                t == old(self)@,
                all == player_events(players(team@), won),
                self.ordered(),
                fits_all(t, all.take(i as int)),
                self@ == counted_all(t, all.take(i as int)),
            decreases team@.len() - i,
        {
            assert(all.take(i + 1).drop_last() == all.take(i as int));
            let ok = self.record_player(team[i].0.as_str(), &team[i].1, won);
            if !ok {
                assert(all =~= all.take(i + 1) + all.skip(i + 1));
                proof {
                    law_counted_in_turn(t, all.take(i + 1), all.skip(i + 1));
                }
                return false;
            }
            i += 1;
        }
        assert(all.take(i as int) == all);
        true
    }

    /// Counts a game. The answer is whether all of it could be counted.
    pub fn record_match(
        &mut self,
        blue: &Vec<(String, Option<String>)>,
        red: &Vec<(String, Option<String>)>,
        blue_win: bool,
    ) -> (ok: bool)
        requires
            old(self).ordered(),
        ensures
            final(self).ordered(),
            ok == fits_all(old(self)@, game_events(players(blue@), players(red@), blue_win)),
            ok ==> final(self)@ == counted_all(
                old(self)@,
                game_events(players(blue@), players(red@), blue_win),
            ),
    {
        let blue_names = team_names(blue);
        let red_names = team_names(red);
        proof {
            let t = self@;
            let b = players(blue@);
            let r = players(red@);
            let e0 = seq![Event::Game];
            let e1 = player_events(b, blue_win);
            let e2 = player_events(r, !blue_win);
            let e3 = synergy_events(names(b), b.len(), blue_win);
            let e4 = synergy_events(names(r), r.len(), !blue_win);
            let e5 = counter_events(names(b), names(r), b.len(), blue_win);
            let e6 = counter_events(names(r), names(b), r.len(), !blue_win);
            law_counted_in_turn(t, e0, e1);
            law_counted_in_turn(t, e0 + e1, e2);
            law_counted_in_turn(t, e0 + e1 + e2, e3);
            law_counted_in_turn(t, e0 + e1 + e2 + e3, e4);
            law_counted_in_turn(t, e0 + e1 + e2 + e3 + e4, e5);
            law_counted_in_turn(t, e0 + e1 + e2 + e3 + e4 + e5, e6);
            assert(e0.drop_last() == Seq::<Event>::empty());
            reveal_with_fuel(counted_all, 2);
            reveal_with_fuel(fits_all, 2);
        }
        if self.matches == u32::MAX {
            return false;
        }
        self.matches = self.matches + 1;
        self.record_players(blue, blue_win) && self.record_players(red, !blue_win)
            && self.record_team_synergy(&blue_names, blue_win) && self.record_team_synergy(
            &red_names,
            !blue_win,
        ) && self.record_counters(&blue_names, &red_names, blue_win) && self.record_counters(
            &red_names,
            &blue_names,
            !blue_win,
        )
    }
}

/// The champions of a team.
fn team_names(team: &Vec<(String, Option<String>)>) -> (r: Vec<String>)
    ensures
        r.deep_view() == names(players(team@)),
        r@.len() == team@.len(),
{
    let mut r: Vec<String> = Vec::new();
    let mut i: usize = 0;
    while i < team.len()
        invariant
            i <= team@.len(),
            r@.len() == i,
            forall|j: int| 0 <= j < i ==> #[trigger] r@[j]@ == team@[j].0@,
        decreases team@.len() - i,
    {
        r.push(team[i].0.clone());
        i += 1;
    }
    assert(r.deep_view() =~= names(players(team@)));
    r
}

proof fn lemma_mates_first(team: Seq<Seq<char>>, i: int, n: nat, won: bool)
    requires
        n <= team.len(),
    ensures
        exists|rest: Seq<Event>|
            mate_events(team, i, team.len(), won) == #[trigger] (mate_events(team, i, n, won)
                + rest),
    decreases team.len() - n,
{
    let now = mate_events(team, i, n, won);
    let all = mate_events(team, i, team.len(), won);
    if n == team.len() {
        assert(all =~= now + Seq::<Event>::empty());
    } else {
        lemma_mates_first(team, i, n + 1, won);
        let next = mate_events(team, i, n + 1, won);
        let rest = choose|rest: Seq<Event>| all == #[trigger] (next + rest);
        if n == i {
            assert(all == now + rest);
        } else {
            let e = Event::Synergy(team[i], team[n as int], won);
            assert(all =~= now + (seq![e] + rest));
        }
    }
}

proof fn lemma_synergy_first(team: Seq<Seq<char>>, n: nat, won: bool)
    requires
        n <= team.len(),
    ensures
        exists|rest: Seq<Event>|
            synergy_events(team, team.len(), won) == #[trigger] (synergy_events(team, n, won)
                + rest),
    decreases team.len() - n,
{
    let now = synergy_events(team, n, won);
    let all = synergy_events(team, team.len(), won);
    if n == team.len() {
        assert(all =~= now + Seq::<Event>::empty());
    } else {
        lemma_synergy_first(team, n + 1, won);
        let row = mate_events(team, n as int, team.len(), won);
        let rest = choose|rest: Seq<Event>| all == #[trigger] (now + row + rest);
        assert(all =~= now + (row + rest));
    }
}

proof fn lemma_counter_first(team: Seq<Seq<char>>, enemies: Seq<Seq<char>>, n: nat, won: bool)
    requires
        n <= team.len(),
    ensures
        exists|rest: Seq<Event>|
            counter_events(team, enemies, team.len(), won) == #[trigger] (counter_events(
                team,
                enemies,
                n,
                won,
            ) + rest),
    decreases team.len() - n,
{
    let now = counter_events(team, enemies, n, won);
    let all = counter_events(team, enemies, team.len(), won);
    if n == team.len() {
        assert(all =~= now + Seq::<Event>::empty());
    } else {
        lemma_counter_first(team, enemies, n + 1, won);
        let row = foe_events(team[n as int], enemies, won);
        let rest = choose|rest: Seq<Event>| all == #[trigger] (now + row + rest);
        assert(all =~= now + (row + rest));
    }
}

/// The team member that a printed athlete is: none where it names no champion of the set.
pub open spec fn member(block: Seq<char>, with_pos: bool, set: Set<Seq<char>>) -> Option<Player> {
    match quoted_field(block, "champion"@) {
        Some(c) => if set.contains(c) {
            Some(
                (
                    c,
                    if with_pos {
                        lane_of(block)
                    } else {
                        None
                    },
                ),
            )
        } else {
            None
        },
        None => None,
    }
}

/// The team members among some printed athletes.
pub open spec fn members(blocks: Seq<Seq<char>>, with_pos: bool, set: Set<Seq<char>>) -> Seq<Player>
    decreases blocks.len(),
{
    if blocks.len() == 0 {
        Seq::empty()
    } else {
        let front = members(blocks.drop_last(), with_pos, set);
        match member(blocks.last(), with_pos, set) {
            Some(p) => front.push(p),
            None => front,
        }
    }
}

/// The members of a printed team.
pub fn parse_team(team_text: &str, struct_name: &str, with_pos: bool, set: &TextSet) -> (r: Vec<
    (String, Option<String>),
>)
    ensures
        players(r@) == members(structs(team_text@, struct_name@), with_pos, set@),
{
    let blocks = split_structs(team_text, struct_name);
    let ghost all = structs(team_text@, struct_name@);
    let mut r: Vec<(String, Option<String>)> = Vec::new();
    let mut i: usize = 0;
    assert(all.take(0) == Seq::<Seq<char>>::empty());
    while i < blocks.len()
        invariant
            i <= blocks@.len(),
            blocks.deep_view() == all,
            players(r@) == members(all.take(i as int), with_pos, set@),
        decreases blocks@.len() - i,
    {
        assert(all[i as int] == blocks@[i as int]@);
        assert(all.take(i + 1).drop_last() == all.take(i as int));
        let ghost sofar = players(r@);
        let block = blocks[i].as_str();
        if let Some(c) = parse_quoted_field(block, "champion") {
            if set.contains(c.as_str()) {
                let pos = if with_pos {
                    parse_position_from_stats(block)
                } else {
                    None
                };
                let ghost p = (c@, opt_text(pos));
                r.push((c, pos));
                assert(players(r@) =~= sofar.push(p));
            }
        }
        i += 1;
    }
    assert(all.take(i as int) == all);
    r
}

/// A game: the teams, and whether the blue one won.
pub struct Match {
    pub blue: Seq<Player>,
    pub red: Seq<Player>,
    pub blue_win: bool,
}

/// What is read from printed games.
pub struct Reading {
    /// The name of an athlete's structure.
    pub athlete: Seq<char>,
    /// Whether games that were not played are left out.
    pub require_played: bool,
    /// Whether athletes say their lanes.
    pub with_pos: bool,
    /// The champions that count.
    pub set: Set<Seq<char>>,
}

/// The members of the team under `name` of a printed game.
pub open spec fn team_in(block: Seq<char>, name: Seq<char>, how: Reading) -> Seq<Player> {
    match array_field(block, name) {
        Some(a) => members(structs(a, how.athlete), how.with_pos, how.set),
        None => Seq::empty(),
    }
}

/// The game that a printed game is: none where it was not played though that is asked for,
/// where it does not say who won, or where a team has no members.
pub open spec fn match_of(block: Seq<char>, how: Reading) -> Option<Match> {
    let blue = team_in(block, "blue_team"@, how);
    let red = team_in(block, "red_team"@, how);
    match bool_field(block, "blue_team_win"@) {
        Some(blue_win) => if (how.require_played ==> has(block, "played: true"@)) && blue.len() > 0
            && red.len() > 0 {
            Some(Match { blue, red, blue_win })
        } else {
            None
        },
        None => None,
    }
}

/// The games among some printed games.
pub open spec fn matches_of(blocks: Seq<Seq<char>>, how: Reading) -> Seq<Match>
    decreases blocks.len(),
{
    if blocks.len() == 0 {
        Seq::empty()
    } else {
        let front = matches_of(blocks.drop_last(), how);
        match match_of(blocks.last(), how) {
            Some(m) => front.push(m),
            None => front,
        }
    }
}

/// What some games count.
pub open spec fn events_of(games: Seq<Match>) -> Seq<Event>
    decreases games.len(),
{
    if games.len() == 0 {
        Seq::empty()
    } else {
        let m = games.last();
        events_of(games.drop_last()) + game_events(m.blue, m.red, m.blue_win)
    }
}

/// The team under `name` of a printed game, without members where it has none.
fn read_team(block: &str, name: &str, athlete: &str, with_pos: bool, set: &TextSet) -> (r: Vec<
    (String, Option<String>),
>)
    ensures
        players(r@) == (match array_field(block@, name@) {
            Some(a) => members(structs(a, athlete@), with_pos, set@),
            None => Seq::empty(),
        }),
{
    match extract_array(block, name) {
        Some(a) => parse_team(a.as_str(), athlete, with_pos, set),
        None => {
            let r: Vec<(String, Option<String>)> = Vec::new();
            assert(players(r@) =~= Seq::empty());
            r
        },
    }
}

proof fn lemma_events_first(blocks: Seq<Seq<char>>, how: Reading, i: int)
    requires
        0 <= i <= blocks.len(),
    ensures
        exists|rest: Seq<Event>|
            events_of(matches_of(blocks, how)) == #[trigger] (events_of(
                matches_of(blocks.take(i), how),
            ) + rest),
    decreases blocks.len() - i,
{
    let now = events_of(matches_of(blocks.take(i), how));
    let all = events_of(matches_of(blocks, how));
    if i == blocks.len() {
        assert(blocks.take(i) == blocks);
        assert(all =~= now + Seq::<Event>::empty());
    } else {
        lemma_events_first(blocks, how, i + 1);
        let front = matches_of(blocks.take(i), how);
        assert(blocks.take(i + 1).drop_last() == blocks.take(i));
        let next = events_of(matches_of(blocks.take(i + 1), how));
        let rest = choose|rest: Seq<Event>| all == #[trigger] (next + rest);
        match match_of(blocks[i], how) {
            Some(m) => {
                assert(front.push(m).drop_last() == front);
                let g = game_events(m.blue, m.red, m.blue_win);
                assert(next == now + g);
                assert(all =~= now + (g + rest));
            },
            None => {
                assert(all == now + rest);
            },
        }
    }
}

/// Counts the games that are printed in `text`. The answer is how many they are, or nothing
/// where a count would grow too large.
pub fn parse_matches_file(
    agg: &mut Aggregator,
    text: &str,
    match_struct: &str,
    athlete_struct: &str,
    require_played: bool,
    with_pos: bool,
    set: &TextSet,
) -> (r: Option<usize>)
    requires
        old(agg).ordered(),
    ensures
        final(agg).ordered(),
        ({
            let how = Reading { athlete: athlete_struct@, require_played, with_pos, set: set@ };
            let games = matches_of(structs(text@, match_struct@), how);
            match r {
                Some(n) => n == games.len() && fits_all(old(agg)@, events_of(games))
                    && final(agg)@ == counted_all(old(agg)@, events_of(games)),
                None => !fits_all(old(agg)@, events_of(games)),
            }
        }),
{
    let blocks = split_structs(text, match_struct);
    let ghost t = agg@;
    let ghost all = structs(text@, match_struct@);
    let ghost how = Reading { athlete: athlete_struct@, require_played, with_pos, set: set@ };
    let mut count: usize = 0;
    let mut i: usize = 0;
    assert(all.take(0) == Seq::<Seq<char>>::empty());
    while i < blocks.len()
        invariant
            i <= blocks@.len(),
            blocks.deep_view() == all,
            all == structs(text@, match_struct@),
            t == old(agg)@,
            how == (Reading { athlete: athlete_struct@, require_played, with_pos, set: set@ }),
            agg.ordered(),
            count == matches_of(all.take(i as int), how).len(),
            count <= i,
            fits_all(t, events_of(matches_of(all.take(i as int), how))),
            agg@ == counted_all(t, events_of(matches_of(all.take(i as int), how))),
        decreases blocks@.len() - i,
    {
        assert(all[i as int] == blocks@[i as int]@);
        assert(all.take(i + 1).drop_last() == all.take(i as int));
        let ghost front = matches_of(all.take(i as int), how);
        let block = blocks[i].as_str();
        i += 1;
        if require_played && !has_text(block, "played: true") {
            continue ;
        }
        let blue_win = match parse_bool(block, "blue_team_win") {
            Some(v) => v,
            None => {
                continue ;
            },
        };
        let blue = read_team(block, "blue_team", athlete_struct, with_pos, set);
        let red = read_team(block, "red_team", athlete_struct, with_pos, set);
        assert(players(blue@).len() == blue@.len());
        assert(players(red@).len() == red@.len());
        if blue.len() == 0 || red.len() == 0 {
            continue ;
        }
        let ghost m = Match { blue: players(blue@), red: players(red@), blue_win };
        assert(match_of(all[i - 1], how) == Some(m));
        assert(front.push(m).drop_last() == front);
        let ghost g = game_events(m.blue, m.red, m.blue_win);
        proof {
            law_counted_in_turn(t, events_of(front), g);
        }
        if !agg.record_match(&blue, &red, blue_win) {
            proof {
                lemma_events_first(all, how, i as int);
                let rest = choose|rest: Seq<Event>|
                    events_of(matches_of(all, how)) == #[trigger] (events_of(
                        matches_of(all.take(i as int), how),
                    ) + rest);
                law_counted_in_turn(t, events_of(front) + g, rest);
            }
            return None;
        }
        count += 1;
    }
    assert(all.take(i as int) == all);
    Some(count)
}

} // verus!
