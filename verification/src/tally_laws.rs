//! What holds of every tally: its order, and what its pairs say of each other.

use vstd::prelude::*;

#[allow(unused_imports)]
use crate::tally::{
    champ_of,
    counted,
    counted_all,
    counter_events,
    events_of,
    foe_events,
    game_events,
    mate_events,
    names,
    no_tally,
    pair_of,
    pair_scored,
    player_events,
    record_of,
    row_of,
    scored,
    synergy_events,
    ChampRecord,
    Event,
    Match,
    Player,
    Record,
    Tally,
};
#[allow(unused_imports)]
use crate::text::before;
#[allow(unused_imports)]
use crate::textmap::{
    ascending,
    law_lookup_put,
    law_lookup_put_other,
    law_put_ascending,
    lemma_absent_before,
    put,
};

verus! {

/// How often `e` is among `es`.
pub open spec fn times(es: Seq<Event>, e: Event) -> nat
    decreases es.len(),
{
    if es.len() == 0 {
        0
    } else {
        times(es.drop_last(), e) + if es.last() == e {
            1nat
        } else {
            0nat
        }
    }
}

/// How often `x` is among `s`.
pub open spec fn occurrences(s: Seq<Seq<char>>, x: Seq<char>) -> nat
    decreases s.len(),
{
    if s.len() == 0 {
        0
    } else {
        occurrences(s.drop_last(), x) + if s.last() == x {
            1nat
        } else {
            0nat
        }
    }
}

proof fn lemma_times_add(a: Seq<Event>, b: Seq<Event>, e: Event)
    ensures
        times(a + b, e) == times(a, e) + times(b, e),
    decreases b.len(),
{
    if b.len() == 0 {
        assert(a + b == a);
    } else {
        lemma_times_add(a, b.drop_last(), e);
        assert((a + b).drop_last() == a + b.drop_last());
    }
}

proof fn lemma_pair_scored(
    m: Seq<(Seq<char>, Seq<(Seq<char>, Record)>)>,
    a: Seq<char>,
    b: Seq<char>,
    won: bool,
    x: Seq<char>,
    y: Seq<char>,
)
    ensures
        pair_of(pair_scored(m, a, b, won), x, y) == if x == a && y == b {
            scored(pair_of(m, x, y), won)
        } else {
            pair_of(m, x, y)
        },
{
    let row = put(row_of(m, a), b, scored(pair_of(m, a, b), won));
    if x == a {
        law_lookup_put(m, a, row);
        if y == b {
            law_lookup_put(row_of(m, a), b, scored(pair_of(m, a, b), won));
        } else {
            law_lookup_put_other(row_of(m, a), b, scored(pair_of(m, a, b), won), y);
        }
    } else {
        law_lookup_put_other(m, a, row, x);
    }
}

/// A pair's games in one team grow by the times they are counted, its wins by the times they
/// are counted as won; the same holds of the pairs that face each other.
pub proof fn law_pairs_count(t: Tally, es: Seq<Event>, a: Seq<char>, b: Seq<char>)
    ensures
        pair_of(counted_all(t, es).synergy, a, b) == (Record {
            games: pair_of(t.synergy, a, b).games + times(es, Event::Synergy(a, b, true)) + times(
                es,
                Event::Synergy(a, b, false),
            ),
            wins: pair_of(t.synergy, a, b).wins + times(es, Event::Synergy(a, b, true)),
        }),
        pair_of(counted_all(t, es).counter, a, b) == (Record {
            games: pair_of(t.counter, a, b).games + times(es, Event::Counter(a, b, true)) + times(
                es,
                Event::Counter(a, b, false),
            ),
            wins: pair_of(t.counter, a, b).wins + times(es, Event::Counter(a, b, true)),
        }),
    decreases es.len(),
{
    if es.len() > 0 {
        let front = es.drop_last();
        law_pairs_count(t, front, a, b);
        let before = counted_all(t, front);
        match es.last() {
            Event::Synergy(x, y, won) => {
                lemma_pair_scored(before.synergy, x, y, won, a, b);
            },
            Event::Counter(x, y, won) => {
                lemma_pair_scored(before.counter, x, y, won, a, b);
            },
            _ => {},
        }
    }
}

proof fn lemma_times_none(es: Seq<Event>, e: Event)
    requires
        forall|i: int| 0 <= i < es.len() ==> #[trigger] es[i] != e,
    ensures
        times(es, e) == 0,
    decreases es.len(),
{
    if es.len() > 0 {
        assert(es[es.len() - 1] != e);
        assert forall|i: int| 0 <= i < es.len() - 1 implies #[trigger] es.drop_last()[i] != e by {
            assert(es.drop_last()[i] == es[i]);
        }
        lemma_times_none(es.drop_last(), e);
    }
}

proof fn lemma_mates(
    team: Seq<Seq<char>>,
    i: int,
    n: nat,
    won: bool,
    a: Seq<char>,
    b: Seq<char>,
    w: bool,
)
    requires
        0 <= i < team.len(),
        n <= team.len(),
    ensures
        times(mate_events(team, i, n, won), Event::Synergy(a, b, w)) == if w == won && team[i]
            == a {
            occurrences(team.take(n as int), b) - if i < n && a == b {
                1int
            } else {
                0int
            }
        } else {
            0
        },
        forall|c: Seq<char>, d: Seq<char>, v: bool|
            #[trigger] times(mate_events(team, i, n, won), Event::Counter(c, d, v)) == 0,
    decreases n,
{
    if n > 0 {
        lemma_mates(team, i, (n - 1) as nat, won, a, b, w);
        assert(team.take(n as int).drop_last() == team.take(n - 1));
        let front = mate_events(team, i, (n - 1) as nat, won);
        if n - 1 != i {
            let e = Event::Synergy(team[i], team[n - 1], won);
            assert(front.push(e).drop_last() == front);
        }
        assert forall|c: Seq<char>, d: Seq<char>, v: bool| #[trigger]
            times(mate_events(team, i, n, won), Event::Counter(c, d, v)) == 0 by {
            assert(times(front, Event::Counter(c, d, v)) == 0);
        }
    }
}

proof fn lemma_synergies(
    team: Seq<Seq<char>>,
    n: nat,
    won: bool,
    a: Seq<char>,
    b: Seq<char>,
    w: bool,
)
    requires
        n <= team.len(),
    ensures
        times(synergy_events(team, n, won), Event::Synergy(a, b, w)) == if w == won {
            occurrences(team.take(n as int), a) * (occurrences(team, b) - if a == b {
                1int
            } else {
                0int
            })
        } else {
            0
        },
        forall|c: Seq<char>, d: Seq<char>, v: bool|
            #[trigger] times(synergy_events(team, n, won), Event::Counter(c, d, v)) == 0,
    decreases n,
{
    if n > 0 {
        lemma_synergies(team, (n - 1) as nat, won, a, b, w);
        lemma_mates(team, n - 1, team.len(), won, a, b, w);
        let front = synergy_events(team, (n - 1) as nat, won);
        let row = mate_events(team, n - 1, team.len(), won);
        lemma_times_add(front, row, Event::Synergy(a, b, w));
        assert forall|c: Seq<char>, d: Seq<char>, v: bool|
            #[trigger] times(front + row, Event::Counter(c, d, v)) == 0 by {
            lemma_times_add(front, row, Event::Counter(c, d, v));
        }
        assert(team.take(n as int).drop_last() == team.take(n - 1));
        assert(team.take(team.len() as int) == team);
        let k = occurrences(team.take(n - 1), a);
        let m = occurrences(team, b) - if a == b {
            1int
        } else {
            0int
        };
        assert((k + 1) * m == k * m + m) by (nonlinear_arith);
    } else {
        assert(0 * (occurrences(team, b) - if a == b {
            1int
        } else {
            0int
        }) == 0);
    }
}

proof fn lemma_foes(
    x: Seq<char>,
    enemies: Seq<Seq<char>>,
    n: nat,
    won: bool,
    a: Seq<char>,
    b: Seq<char>,
    w: bool,
)
    requires
        n <= enemies.len(),
    ensures
        times(foe_events(x, enemies, won).take(n as int), Event::Counter(a, b, w)) == if w == won
            && x == a {
            occurrences(enemies.take(n as int), b)
        } else {
            0
        },
    decreases n,
{
    let all = foe_events(x, enemies, won);
    if n > 0 {
        lemma_foes(x, enemies, (n - 1) as nat, won, a, b, w);
        assert(all.take(n as int).drop_last() == all.take(n - 1));
        assert(enemies.take(n as int).drop_last() == enemies.take(n - 1));
    }
}

proof fn lemma_counters(
    team: Seq<Seq<char>>,
    enemies: Seq<Seq<char>>,
    n: nat,
    won: bool,
    a: Seq<char>,
    b: Seq<char>,
    w: bool,
)
    requires
        n <= team.len(),
    ensures
        times(counter_events(team, enemies, n, won), Event::Counter(a, b, w)) == if w == won {
            occurrences(team.take(n as int), a) * occurrences(enemies, b)
        } else {
            0
        },
        forall|c: Seq<char>, d: Seq<char>, v: bool|
            #[trigger] times(counter_events(team, enemies, n, won), Event::Synergy(c, d, v)) == 0,
    decreases n,
{
    if n > 0 {
        lemma_counters(team, enemies, (n - 1) as nat, won, a, b, w);
        let front = counter_events(team, enemies, (n - 1) as nat, won);
        let row = foe_events(team[n - 1], enemies, won);
        lemma_foes(team[n - 1], enemies, enemies.len(), won, a, b, w);
        assert(row.take(enemies.len() as int) == row);
        assert(enemies.take(enemies.len() as int) == enemies);
        lemma_times_add(front, row, Event::Counter(a, b, w));
        assert forall|c: Seq<char>, d: Seq<char>, v: bool|
            #[trigger] times(front + row, Event::Synergy(c, d, v)) == 0 by {
            lemma_times_add(front, row, Event::Synergy(c, d, v));
            lemma_times_none(row, Event::Synergy(c, d, v));
        }
        assert(team.take(n as int).drop_last() == team.take(n - 1));
        let k = occurrences(team.take(n - 1), a);
        let m = occurrences(enemies, b);
        assert((k + 1) * m == k * m + m) by (nonlinear_arith);
    } else {
        assert(0 * occurrences(enemies, b) == 0);
    }
}

/// How often a game counts a pair: in one team, each appearance of one champion with each
/// other appearance of the other; against each other, each appearance on one side with each
/// on the other.
pub proof fn law_game_counts(
    blue: Seq<Player>,
    red: Seq<Player>,
    blue_win: bool,
    a: Seq<char>,
    b: Seq<char>,
    w: bool,
)
    ensures
        ({
            let side = if w == blue_win {
                names(blue)
            } else {
                names(red)
            };
            let other = if w == blue_win {
                names(red)
            } else {
                names(blue)
            };
            let es = game_events(blue, red, blue_win);
            &&& times(es, Event::Synergy(a, b, w)) == occurrences(side, a) * (occurrences(side, b)
                - if a == b {
                1int
            } else {
                0int
            })
            &&& times(es, Event::Counter(a, b, w)) == occurrences(side, a) * occurrences(other, b)
        }),
{
    let x = names(blue);
    let y = names(red);
    let e0 = seq![Event::Game];
    let e1 = player_events(blue, blue_win);
    let e2 = player_events(red, !blue_win);
    let e3 = synergy_events(x, x.len(), blue_win);
    let e4 = synergy_events(y, y.len(), !blue_win);
    let e5 = counter_events(x, y, x.len(), blue_win);
    let e6 = counter_events(y, x, y.len(), !blue_win);
    let s = Event::Synergy(a, b, w);
    let c = Event::Counter(a, b, w);
    assert forall|e: Event| e == s || e == c implies #[trigger] times(
        game_events(blue, red, blue_win),
        e,
    ) == times(e3, e) + times(e4, e) + times(e5, e) + times(e6, e) by {
        lemma_times_add(e0, e1, e);
        lemma_times_add(e0 + e1, e2, e);
        lemma_times_add(e0 + e1 + e2, e3, e);
        lemma_times_add(e0 + e1 + e2 + e3, e4, e);
        lemma_times_add(e0 + e1 + e2 + e3 + e4, e5, e);
        lemma_times_add(e0 + e1 + e2 + e3 + e4 + e5, e6, e);
        lemma_times_none(e0, e);
        lemma_times_none(e1, e);
        lemma_times_none(e2, e);
    }
    lemma_synergies(x, x.len(), blue_win, a, b, w);
    lemma_synergies(y, y.len(), !blue_win, a, b, w);
    lemma_counters(x, y, x.len(), blue_win, a, b, w);
    lemma_counters(y, x, y.len(), !blue_win, a, b, w);
    assert(x.take(x.len() as int) == x);
    assert(y.take(y.len() as int) == y);
}

proof fn lemma_mirrored(games: Seq<Match>, a: Seq<char>, b: Seq<char>, w: bool)
    ensures
        times(events_of(games), Event::Synergy(a, b, w)) == times(
            events_of(games),
            Event::Synergy(b, a, w),
        ),
        times(events_of(games), Event::Counter(a, b, w)) == times(
            events_of(games),
            Event::Counter(b, a, !w),
        ),
    decreases games.len(),
{
    if games.len() > 0 {
        let m = games.last();
        let front = events_of(games.drop_last());
        let g = game_events(m.blue, m.red, m.blue_win);
        lemma_mirrored(games.drop_last(), a, b, w);
        lemma_times_add(front, g, Event::Synergy(a, b, w));
        lemma_times_add(front, g, Event::Synergy(b, a, w));
        lemma_times_add(front, g, Event::Counter(a, b, w));
        lemma_times_add(front, g, Event::Counter(b, a, !w));
        law_game_counts(m.blue, m.red, m.blue_win, a, b, w);
        law_game_counts(m.blue, m.red, m.blue_win, b, a, w);
        law_game_counts(m.blue, m.red, m.blue_win, b, a, !w);
        let side = if w == m.blue_win {
            names(m.blue)
        } else {
            names(m.red)
        };
        let other = if w == m.blue_win {
            names(m.red)
        } else {
            names(m.blue)
        };
        let p = occurrences(side, a);
        let q = occurrences(side, b);
        let o = occurrences(other, b);
        assert(p * q == q * p) by (nonlinear_arith);
        assert(p * o == o * p) by (nonlinear_arith);
    }
}

/// In the tally of some games a pair in one team has one record, whichever champion is named
/// first.
pub proof fn law_synergy_is_mutual(games: Seq<Match>, a: Seq<char>, b: Seq<char>)
    ensures
        ({
            let t = counted_all(no_tally(), events_of(games));
            pair_of(t.synergy, a, b) == pair_of(t.synergy, b, a)
        }),
{
    let es = events_of(games);
    law_pairs_count(no_tally(), es, a, b);
    law_pairs_count(no_tally(), es, b, a);
    lemma_mirrored(games, a, b, true);
    lemma_mirrored(games, a, b, false);
}

/// In the tally of some games two champions have as many games against each other from
/// either side, and each of these games was won by one of them.
pub proof fn law_counters_mirror(games: Seq<Match>, a: Seq<char>, b: Seq<char>)
    ensures
        ({
            let t = counted_all(no_tally(), events_of(games));
            let r = pair_of(t.counter, a, b);
            let s = pair_of(t.counter, b, a);
            r.games == s.games && r.wins + s.wins == r.games
        }),
{
    let es = events_of(games);
    law_pairs_count(no_tally(), es, a, b);
    law_pairs_count(no_tally(), es, b, a);
    lemma_mirrored(games, a, b, true);
    lemma_mirrored(games, a, b, false);
}

/// Whether all keys are in order, also those of the inner lists.
pub open spec fn deeply_ordered(t: Tally) -> bool {
    &&& ascending(t.champs)
    &&& ascending(t.synergy)
    &&& ascending(t.counter)
    &&& forall|c: Seq<char>| ascending(#[trigger] champ_of(t, c).by_pos)
    &&& forall|c: Seq<char>| ascending(#[trigger] row_of(t.synergy, c))
    &&& forall|c: Seq<char>| ascending(#[trigger] row_of(t.counter, c))
}

proof fn lemma_row_scored(
    m: Seq<(Seq<char>, Seq<(Seq<char>, Record)>)>,
    a: Seq<char>,
    b: Seq<char>,
    won: bool,
)
    requires
        ascending(m),
        forall|c: Seq<char>| ascending(#[trigger] row_of(m, c)),
    ensures
        ascending(pair_scored(m, a, b, won)),
        forall|c: Seq<char>| ascending(#[trigger] row_of(pair_scored(m, a, b, won), c)),
{
    let w = scored(pair_of(m, a, b), won);
    let row = put(row_of(m, a), b, w);
    law_put_ascending(row_of(m, a), b, w);
    law_put_ascending(m, a, row);
    assert forall|c: Seq<char>| ascending(#[trigger] row_of(pair_scored(m, a, b, won), c)) by {
        if c == a {
            law_lookup_put(m, a, row);
        } else {
            law_lookup_put_other(m, a, row, c);
            assert(ascending(row_of(m, c)));
        }
    }
}

/// Counting keeps all keys in order, and from the empty tally on they are.
pub proof fn law_tally_is_ordered(t: Tally, es: Seq<Event>)
    requires
        deeply_ordered(t),
    ensures
        deeply_ordered(counted_all(t, es)),
        deeply_ordered(no_tally()),
    decreases es.len(),
{
    if es.len() > 0 {
        let front = es.drop_last();
        law_tally_is_ordered(t, front);
        let now = counted_all(t, front);
        let next = counted(now, es.last());
        match es.last() {
            Event::Game => {
                assert(forall|c: Seq<char>| champ_of(next, c) == champ_of(now, c));
            },
            Event::Player(c, pos, won) => {
                let r = champ_of(now, c);
                assert(ascending(r.by_pos));
                let by_pos = match pos {
                    Some(p) => put(r.by_pos, p, scored(record_of(r.by_pos, p), won)),
                    None => r.by_pos,
                };
                if let Some(p) = pos {
                    law_put_ascending(r.by_pos, p, scored(record_of(r.by_pos, p), won));
                }
                let new = ChampRecord { overall: scored(r.overall, won), by_pos };
                law_put_ascending(now.champs, c, new);
                assert forall|d: Seq<char>| ascending(#[trigger] champ_of(next, d).by_pos) by {
                    if d == c {
                        law_lookup_put(now.champs, c, new);
                    } else {
                        law_lookup_put_other(now.champs, c, new, d);
                        assert(ascending(champ_of(now, d).by_pos));
                    }
                }
            },
            Event::Synergy(a, b, won) => {
                lemma_row_scored(now.synergy, a, b, won);
                assert(forall|c: Seq<char>| champ_of(next, c) == champ_of(now, c));
            },
            Event::Counter(a, b, won) => {
                lemma_row_scored(now.counter, a, b, won);
                assert(forall|c: Seq<char>| champ_of(next, c) == champ_of(now, c));
            },
        }
    }
    let none = no_tally();
    assert forall|c: Seq<char>| ascending(#[trigger] champ_of(none, c).by_pos) by {
        assert(champ_of(none, c).by_pos =~= Seq::<(Seq<char>, Record)>::empty());
    }
    assert forall|c: Seq<char>| ascending(#[trigger] row_of(none.synergy, c)) by {
        assert(row_of(none.synergy, c) =~= Seq::<(Seq<char>, Record)>::empty());
    }
    assert forall|c: Seq<char>| ascending(#[trigger] row_of(none.counter, c)) by {
        assert(row_of(none.counter, c) =~= Seq::<(Seq<char>, Record)>::empty());
    }
}

/// A champion has no more wins than games, all in all and on each lane.
pub open spec fn wins_within(r: ChampRecord) -> bool {
    &&& r.overall.wins <= r.overall.games
    &&& forall|p: Seq<char>|
        (#[trigger] record_of(r.by_pos, p)).wins <= record_of(r.by_pos, p).games
            && record_of(r.by_pos, p).games <= r.overall.games
}

/// From the empty tally on no champion and no pair has more wins than games, and no champion
/// more games on a lane than all in all.
pub proof fn law_wins_within_games(es: Seq<Event>, a: Seq<char>, b: Seq<char>)
    ensures
        ({
            let t = counted_all(no_tally(), es);
            &&& wins_within(champ_of(t, a))
            &&& pair_of(t.synergy, a, b).wins <= pair_of(t.synergy, a, b).games
            &&& pair_of(t.counter, a, b).wins <= pair_of(t.counter, a, b).games
        }),
    decreases es.len(),
{
    law_pairs_count(no_tally(), es, a, b);
    if es.len() > 0 {
        let front = es.drop_last();
        law_wins_within_games(front, a, b);
        let now = counted_all(no_tally(), front);
        let next = counted(now, es.last());
        match es.last() {
            Event::Player(c, pos, won) => {
                let r = champ_of(now, c);
                let by_pos = match pos {
                    Some(p) => put(r.by_pos, p, scored(record_of(r.by_pos, p), won)),
                    None => r.by_pos,
                };
                let new = ChampRecord { overall: scored(r.overall, won), by_pos };
                if a == c {
                    law_lookup_put(now.champs, c, new);
                    assert forall|q: Seq<char>|
                        (#[trigger] record_of(by_pos, q)).wins <= record_of(by_pos, q).games
                            && record_of(by_pos, q).games <= new.overall.games by {
                        assert(record_of(r.by_pos, q).wins <= record_of(r.by_pos, q).games);
                        if let Some(p) = pos {
                            let s = scored(record_of(r.by_pos, p), won);
                            if p == q {
                                law_lookup_put(r.by_pos, p, s);
                            } else {
                                law_lookup_put_other(r.by_pos, p, s, q);
                            }
                        }
                    }
                } else {
                    law_lookup_put_other(now.champs, c, new, a);
                }
            },
            _ => {
                assert(champ_of(next, a) == champ_of(now, a));
            },
        }
    }
}

/// The games on some lanes, in all.
pub open spec fn lane_games(m: Seq<(Seq<char>, Record)>) -> nat
    decreases m.len(),
{
    if m.len() == 0 {
        0
    } else {
        m[0].1.games + lane_games(m.skip(1))
    }
}

proof fn lemma_one_more_on_a_lane(m: Seq<(Seq<char>, Record)>, p: Seq<char>, won: bool)
    requires
        ascending(m),
    ensures
        lane_games(put(m, p, scored(record_of(m, p), won))) == lane_games(m) + 1,
    decreases m.len(),
{
    let w = scored(record_of(m, p), won);
    let now = put(m, p, w);
    reveal_with_fuel(lane_games, 2);
    if m.len() == 0 {
        assert(now[0].1 == w);
        assert(now.skip(1) =~= Seq::empty());
    } else if m[0].0 == p {
        assert(now[0].1 == w);
        assert(now.skip(1) =~= m.skip(1));
    } else if before(p, m[0].0) {
        lemma_absent_before(m, p, 0);
        assert(m.skip(0) =~= m);
        assert(now[0].1 == w);
        assert(now.skip(1) =~= m);
    } else {
        let rest = m.skip(1);
        assert(forall|i: int| 0 <= i < rest.len() ==> #[trigger] rest[i] == m[i + 1]);
        assert(record_of(rest, p) == record_of(m, p));
        lemma_one_more_on_a_lane(rest, p, won);
        assert(now[0] == m[0]);
        assert(now.skip(1) =~= put(rest, p, w));
    }
}

/// From the empty tally on the games of a champion on all its lanes are no more than its games
/// all in all.
pub proof fn law_lanes_within_games(es: Seq<Event>, c: Seq<char>)
    ensures
        ({
            let r = champ_of(counted_all(no_tally(), es), c);
            lane_games(r.by_pos) <= r.overall.games
        }),
    decreases es.len(),
{
    if es.len() > 0 {
        let front = es.drop_last();
        law_lanes_within_games(front, c);
        law_tally_is_ordered(no_tally(), front);
        let now = counted_all(no_tally(), front);
        let next = counted(now, es.last());
        match es.last() {
            Event::Player(d, pos, won) => {
                let r = champ_of(now, d);
                let by_pos = match pos {
                    Some(p) => put(r.by_pos, p, scored(record_of(r.by_pos, p), won)),
                    None => r.by_pos,
                };
                let new = ChampRecord { overall: scored(r.overall, won), by_pos };
                if c == d {
                    law_lookup_put(now.champs, d, new);
                    assert(ascending(champ_of(now, d).by_pos));
                    if let Some(p) = pos {
                        lemma_one_more_on_a_lane(r.by_pos, p, won);
                    }
                } else {
                    law_lookup_put_other(now.champs, d, new, c);
                }
            },
            _ => {
                assert(champ_of(next, c) == champ_of(now, c));
            },
        }
    }
}

} // verus!
