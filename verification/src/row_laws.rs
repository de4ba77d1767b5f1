//! What is written as rows is read as tables.

use vstd::prelude::*;

#[allow(unused_imports)]
use crate::cache::{matches_row, pool_row, stamp_row};
#[allow(unused_imports)]
use crate::numeral::{decimal, is_digit, law_decimal_reads_back, lemma_decimal_digits, number};
#[allow(unused_imports)]
use crate::patch::{
    is_played,
    lane_row,
    law_most_played,
    most_played,
    played_but,
    pos_row,
    winrate_row,
    Computed,
    LaneGames,
};
#[allow(unused_imports)]
use crate::tables::{after_line, after_row, lanes_listed, put_pair, reading, Kit, Stats};
#[allow(unused_imports)]
use crate::text::{begins, joined, lacks, law_joined_is_cut, lemma_filter_all};
#[allow(unused_imports)]
use crate::textmap::{lookup, put};
#[allow(unused_imports)]
use crate::weights::{ban_row, champ_row, kit_row, pair_row};

verus! {

/// The tags of rows differ.
pub proof fn lemma_tags()
    ensures
        "C"@.len() == 1 && "C"@[0] == 'C',
        "CP"@.len() == 2 && "CP"@[0] == 'C',
        "S"@.len() == 1 && "S"@[0] == 'S',
        "K"@.len() == 1 && "K"@[0] == 'K',
        "T"@.len() == 1 && "T"@[0] == 'T',
        "B"@.len() == 1 && "B"@[0] == 'B',
        "M"@.len() == 1 && "M"@[0] == 'M',
        "SAVE"@.len() == 4 && "SAVE"@[0] == 'S',
        "POOL"@.len() == 4 && "POOL"@[0] == 'P',
        "POS"@.len() == 3 && "POS"@[0] == 'P',
        "RP"@.len() == 2 && "RP"@[0] == 'R',
        "STAMP"@.len() == 5 && "STAMP"@[0] == 'S',
        "#"@.len() == 1 && "#"@[0] == '#',
{
    reveal_strlit("C");
    reveal_strlit("CP");
    reveal_strlit("S");
    reveal_strlit("K");
    reveal_strlit("T");
    reveal_strlit("B");
    reveal_strlit("M");
    reveal_strlit("SAVE");
    reveal_strlit("POOL");
    reveal_strlit("POS");
    reveal_strlit("RP");
    reveal_strlit("STAMP");
    reveal_strlit("#");
}

/// A row of fields, whose first is a tag, is read by its fields.
proof fn lemma_row_is_read(t: Stats, f: Seq<Seq<char>>, readings: Seq<(Seq<char>, u32)>)
    requires
        f.len() > 0,
        f[0].len() > 0,
        f[0][0] != '#',
        forall|i: int| 0 <= i < f.len() ==> lacks(#[trigger] f[i], '\t'),
    ensures
        after_line(t, joined(f, "\t"@), readings) == after_row(t, f, readings),
{
    reveal_strlit("\t");
    reveal_strlit("#");
    assert("\t"@ =~= seq!['\t']);
    law_joined_is_cut(f, '\t');
    let line = joined(f, "\t"@);
    lemma_joined_begins(f, "\t"@);
    assert(line[0] == f[0][0]);
    if begins(line, "#"@) {
        assert(line.take(1)[0] == '#');
    }
}

proof fn lemma_joined_begins(f: Seq<Seq<char>>, sep: Seq<char>)
    requires
        f.len() > 0,
    ensures
        joined(f, sep).len() >= f[0].len(),
        forall|i: int| 0 <= i < f[0].len() ==> #[trigger] joined(f, sep)[i] == f[0][i],
    decreases f.len(),
{
    if f.len() > 1 {
        lemma_joined_begins(f.drop_last(), sep);
        let a = joined(f.drop_last(), sep);
        assert forall|i: int| 0 <= i < f[0].len() implies #[trigger] joined(f, sep)[i] == f[0][i] by {
            assert(joined(f, sep)[i] == a[i]);
        }
    }
}

proof fn lemma_joined_2(a: Seq<char>, b: Seq<char>, sep: Seq<char>)
    ensures
        joined(seq![a, b], sep) == a + sep + b,
{
    reveal_with_fuel(joined, 3);
    assert(seq![a, b].drop_last() =~= seq![a]);
}

proof fn lemma_joined_3(a: Seq<char>, b: Seq<char>, c: Seq<char>, sep: Seq<char>)
    ensures
        joined(seq![a, b, c], sep) == a + sep + b + sep + c,
{
    lemma_joined_2(a, b, sep);
    assert(seq![a, b, c].drop_last() =~= seq![a, b]);
}

proof fn lemma_joined_4(a: Seq<char>, b: Seq<char>, c: Seq<char>, d: Seq<char>, sep: Seq<char>)
    ensures
        joined(seq![a, b, c, d], sep) == a + sep + b + sep + c + sep + d,
{
    lemma_joined_3(a, b, c, sep);
    assert(seq![a, b, c, d].drop_last() =~= seq![a, b, c]);
}

proof fn lemma_joined_5(
    a: Seq<char>,
    b: Seq<char>,
    c: Seq<char>,
    d: Seq<char>,
    e: Seq<char>,
    sep: Seq<char>,
)
    ensures
        joined(seq![a, b, c, d, e], sep) == a + sep + b + sep + c + sep + d + sep + e,
{
    lemma_joined_4(a, b, c, d, sep);
    assert(seq![a, b, c, d, e].drop_last() =~= seq![a, b, c, d]);
}

proof fn lemma_decimal_is_field(n: nat)
    ensures
        lacks(decimal(n), '\t'),
        lacks(decimal(n), ','),
        decimal(n).len() > 0,
{
    lemma_decimal_digits(n);
    let d = decimal(n);
    assert forall|i: int| 0 <= i < d.len() implies #[trigger] d[i] != '\t' && d[i] != ',' by {
        assert(is_digit(d[i]));
    }
}

/// The row of a champion's delta is read as its delta.
pub proof fn law_champ_row_is_read(
    t: Stats,
    champ: Seq<char>,
    delta: Seq<char>,
    readings: Seq<(Seq<char>, u32)>,
)
    requires
        lacks(champ, '\t'),
        lacks(delta, '\t'),
    ensures
        after_line(t, champ_row(champ, delta), readings) == (Stats {
            delta: put(t.delta, champ, reading(readings, delta)),
            ..t
        }),
{
    reveal_strlit("C\t");
    reveal_strlit("\t");
    lemma_tags();
    let f = seq!["C"@, champ, delta];
    lemma_joined_3("C"@, champ, delta, "\t"@);
    assert(champ_row(champ, delta) =~= joined(f, "\t"@));
    lemma_row_is_read(t, f, readings);
}

/// The row of a champion's winrate is read as its delta and its games.
pub proof fn law_winrate_row_is_read(
    t: Stats,
    champ: Seq<char>,
    x: Computed,
    readings: Seq<(Seq<char>, u32)>,
)
    requires
        lacks(champ, '\t'),
        lacks(x.delta, '\t'),
        x.games <= u32::MAX,
    ensures
        after_line(t, winrate_row(champ, x), readings) == (Stats {
            delta: put(t.delta, champ, reading(readings, x.delta)),
            games: put(t.games, champ, x.games as u32),
            ..t
        }),
{
    reveal_strlit("C\t");
    reveal_strlit("\t");
    lemma_tags();
    lemma_decimal_is_field(x.games);
    law_decimal_reads_back(x.games, u32::MAX as nat);
    let f = seq!["C"@, champ, x.delta, decimal(x.games)];
    lemma_joined_4("C"@, champ, x.delta, decimal(x.games), "\t"@);
    assert(winrate_row(champ, x) =~= joined(f, "\t"@));
    lemma_row_is_read(t, f, readings);
}

/// The row of a champion's winrate on a lane is read as its delta and its games there.
pub proof fn law_lane_row_is_read(
    t: Stats,
    champ: Seq<char>,
    lane: nat,
    x: Computed,
    readings: Seq<(Seq<char>, u32)>,
)
    requires
        lacks(champ, '\t'),
        lacks(x.delta, '\t'),
        lane <= 4,
        x.games <= u32::MAX,
    ensures
        after_line(t, lane_row(champ, lane, x), readings) == (Stats {
            cells: put(
                t.cells,
                champ,
                (match lookup(t.cells, champ) {
                    Some(v) => v,
                    None => Seq::empty(),
                }).push((lane as u8, (reading(readings, x.delta), x.games as u32))),
            ),
            ..t
        }),
{
    reveal_strlit("CP\t");
    reveal_strlit("\t");
    reveal_strlit("CP");
    lemma_tags();
    lemma_decimal_is_field(x.games);
    lemma_decimal_is_field(lane);
    law_decimal_reads_back(x.games, u32::MAX as nat);
    law_decimal_reads_back(lane, 255);
    let f = seq!["CP"@, champ, decimal(lane), x.delta, decimal(x.games)];
    lemma_joined_5("CP"@, champ, decimal(lane), x.delta, decimal(x.games), "\t"@);
    assert(lane_row(champ, lane, x) =~= joined(f, "\t"@));
    lemma_row_is_read(t, f, readings);
}

/// The rows of pairs are read as the deltas of synergies and of counters.
pub proof fn law_pair_rows_are_read(
    t: Stats,
    a: Seq<char>,
    b: Seq<char>,
    delta: Seq<char>,
    readings: Seq<(Seq<char>, u32)>,
)
    requires
        lacks(a, '\t'),
        lacks(b, '\t'),
        lacks(delta, '\t'),
    ensures
        after_line(t, pair_row("S"@, a, b, delta), readings) == (Stats {
            synergy: put_pair(t.synergy, a, b, reading(readings, delta)),
            ..t
        }),
        after_line(t, pair_row("K"@, a, b, delta), readings) == (Stats {
            counter: put_pair(t.counter, a, b, reading(readings, delta)),
            ..t
        }),
{
    lemma_tags();
    reveal_strlit("S");
    reveal_strlit("K");
    let f = seq!["S"@, a, b, delta];
    lemma_joined_4("S"@, a, b, delta, "\t"@);
    lemma_row_is_read(t, f, readings);
    let g = seq!["K"@, a, b, delta];
    lemma_joined_4("K"@, a, b, delta, "\t"@);
    lemma_row_is_read(t, g, readings);
}

/// The row of a champion's kit is read as its kit, where its tags hold no commas and are at
/// least one.
pub proof fn law_kit_row_is_read(
    t: Stats,
    champ: Seq<char>,
    k: Kit,
    readings: Seq<(Seq<char>, u32)>,
)
    requires
        lacks(champ, '\t'),
        lacks(k.category, '\t'),
        lacks(k.damage, '\t'),
        lacks(joined(k.tags, ","@), '\t'),
        k.tags.len() > 0,
        forall|i: int| 0 <= i < k.tags.len() ==> lacks(#[trigger] k.tags[i], ','),
    ensures
        after_line(t, kit_row(champ, k), readings) == (Stats {
            taxon: put(t.taxon, champ, k),
            ..t
        }),
{
    reveal_strlit("T\t");
    reveal_strlit("\t");
    reveal_strlit(",");
    lemma_tags();
    assert(","@ =~= seq![',']);
    law_joined_is_cut(k.tags, ',');
    let tags = joined(k.tags, ","@);
    let f = seq!["T"@, champ, k.category, k.damage, tags];
    lemma_joined_5("T"@, champ, k.category, k.damage, tags, "\t"@);
    assert(kit_row(champ, k) =~= joined(f, "\t"@));
    lemma_row_is_read(t, f, readings);
}

/// The row of a champion's ban rate is read as its ban rate.
pub proof fn law_ban_row_is_read(
    t: Stats,
    champ: Seq<char>,
    rate: Seq<char>,
    readings: Seq<(Seq<char>, u32)>,
)
    requires
        lacks(champ, '\t'),
        lacks(rate, '\t'),
    ensures
        after_line(t, ban_row(champ, rate), readings) == (Stats {
            banrate: put(t.banrate, champ, reading(readings, rate)),
            ..t
        }),
{
    reveal_strlit("B\t");
    reveal_strlit("\t");
    lemma_tags();
    let f = seq!["B"@, champ, rate];
    lemma_joined_3("B"@, champ, rate, "\t"@);
    assert(ban_row(champ, rate) =~= joined(f, "\t"@));
    lemma_row_is_read(t, f, readings);
}

/// The rows of the save, of the matches and of the stamp are read as the save's name, as the
/// matches, and as nothing.
pub proof fn law_origin_rows_are_read(
    t: Stats,
    save: Seq<char>,
    total: nat,
    stamp: Seq<char>,
    readings: Seq<(Seq<char>, u32)>,
)
    requires
        lacks(save, '\t'),
        lacks(stamp, '\t'),
        total <= u32::MAX,
    ensures
        after_line(t, "SAVE\t"@ + save, readings) == (Stats { save_name: save, ..t }),
        after_line(t, matches_row(total), readings) == (Stats { matches: total, ..t }),
        after_line(t, stamp_row(stamp), readings) == t,
{
    reveal_strlit("SAVE\t");
    reveal_strlit("M\t");
    reveal_strlit("STAMP\t");
    reveal_strlit("\t");
    reveal_strlit("SAVE");
    reveal_strlit("STAMP");
    lemma_tags();
    lemma_decimal_is_field(total);
    law_decimal_reads_back(total, usize::MAX as nat);
    let f = seq!["SAVE"@, save];
    lemma_joined_2("SAVE"@, save, "\t"@);
    assert("SAVE\t"@ + save =~= joined(f, "\t"@));
    lemma_row_is_read(t, f, readings);
    let g = seq!["M"@, decimal(total)];
    lemma_joined_2("M"@, decimal(total), "\t"@);
    assert(matches_row(total) =~= joined(g, "\t"@));
    lemma_row_is_read(t, g, readings);
    let h = seq!["STAMP"@, stamp];
    lemma_joined_2("STAMP"@, stamp, "\t"@);
    assert(stamp_row(stamp) =~= joined(h, "\t"@));
    lemma_row_is_read(t, h, readings);
}

/// The row of a pool is read as the pool, where its ids are not empty and hold no commas.
pub proof fn law_pool_row_is_read(t: Stats, pool: Seq<Seq<char>>, readings: Seq<(Seq<char>, u32)>)
    requires
        pool.len() > 0,
        lacks(joined(pool, ","@), '\t'),
        forall|i: int| 0 <= i < pool.len() ==> lacks(#[trigger] pool[i], ',') && pool[i].len() > 0,
    ensures
        after_line(t, pool_row(pool), readings) == (Stats { pool: pool.to_set(), ..t }),
{
    reveal_strlit("POOL\t");
    reveal_strlit("\t");
    reveal_strlit("POOL");
    reveal_strlit(",");
    lemma_tags();
    assert(","@ =~= seq![',']);
    law_joined_is_cut(pool, ',');
    let ids = joined(pool, ","@);
    let keep = |p: Seq<char>| p.len() > 0;
    lemma_filter_all(pool, keep);
    let f = seq!["POOL"@, ids];
    lemma_joined_2("POOL"@, ids, "\t"@);
    assert(pool_row(pool) =~= joined(f, "\t"@));
    lemma_row_is_read(t, f, readings);
}

/// The decimal texts of some lanes.
pub open spec fn lane_texts(lanes: Seq<u8>) -> Seq<Seq<char>> {
    lanes.map_values(|l: u8| decimal(l as nat))
}

proof fn lemma_lanes_listed(lanes: Seq<u8>)
    requires
        lanes.len() > 0,
        forall|i: int| 0 <= i < lanes.len() ==> #[trigger] lanes[i] <= 4,
    ensures
        lanes_listed(joined(lane_texts(lanes), ","@)) == lanes,
        lacks(joined(lane_texts(lanes), ","@), '\t'),
{
    reveal_strlit(",");
    assert(","@ =~= seq![',']);
    let texts = lane_texts(lanes);
    assert forall|i: int| 0 <= i < texts.len() implies lacks(#[trigger] texts[i], ',') by {
        lemma_decimal_is_field(lanes[i] as nat);
    }
    law_joined_is_cut(texts, ',');
    let f = |p: Seq<char>|
        match number(p, 255) {
            Some(n) => if n < 5 {
                Some(n as u8)
            } else {
                None
            },
            None => None,
        };
    lemma_lanes_kept(lanes, f);
    lemma_no_tabs(lanes);
}

proof fn lemma_lanes_kept(lanes: Seq<u8>, f: spec_fn(Seq<char>) -> Option<u8>)
    requires
        forall|i: int| 0 <= i < lanes.len() ==> #[trigger] lanes[i] <= 4,
        f == (|p: Seq<char>|
            match number(p, 255) {
                Some(n) => if n < 5 {
                    Some(n as u8)
                } else {
                    None
                },
                None => None,
            }),
    ensures
        lane_texts(lanes).filter_map(f) == lanes,
    decreases lanes.len(),
{
    let texts = lane_texts(lanes);
    if lanes.len() > 0 {
        let n = lanes.len() - 1;
        let front = lanes.drop_last();
        assert(forall|i: int| 0 <= i < front.len() ==> #[trigger] front[i] == lanes[i]);
        lemma_lanes_kept(front, f);
        assert(texts.take(n) =~= lane_texts(front));
        texts.lemma_filter_map_take_succ(f, n);
        assert(texts.take(n + 1) =~= texts);
        assert(lanes[n] <= 4);
        law_decimal_reads_back(lanes[n] as nat, 255);
        assert(f(texts[n]) == Some(lanes[n]));
        assert(front.push(lanes[n]) =~= lanes);
    } else {
        reveal(Seq::filter_map);
        assert(texts.filter_map(f) =~= lanes);
    }
}

proof fn lemma_no_tabs(lanes: Seq<u8>)
    ensures
        lacks(joined(lane_texts(lanes), ","@), '\t'),
    decreases lanes.len(),
{
    reveal_strlit(",");
    let texts = lane_texts(lanes);
    let all = joined(texts, ","@);
    if lanes.len() == 1 {
        lemma_decimal_is_field(lanes[0] as nat);
    } else if lanes.len() > 1 {
        let front = lanes.drop_last();
        lemma_no_tabs(front);
        assert(texts.drop_last() =~= lane_texts(front));
        lemma_decimal_is_field(lanes.last() as nat);
        let a = joined(lane_texts(front), ","@);
        assert forall|i: int| 0 <= i < all.len() implies #[trigger] all[i] != '\t' by {
            if i < a.len() {
                assert(all[i] == a[i]);
            } else if i == a.len() {
                assert(all[i] == ',');
            } else {
                assert(all[i] == texts.last()[i - a.len() - 1]);
            }
        }
    }
}

/// The row of a champion's lanes is read as the lane that it plays most and the lanes that it
/// plays.
pub proof fn law_pos_row_is_read(
    t: Stats,
    champ: Seq<char>,
    main: u8,
    lanes: Seq<u8>,
    readings: Seq<(Seq<char>, u32)>,
)
    requires
        lacks(champ, '\t'),
        main <= 4,
        lanes.len() > 0,
        forall|i: int| 0 <= i < lanes.len() ==> #[trigger] lanes[i] <= 4,
    ensures
        after_line(
            t,
            "POS\t"@ + champ + "\t"@ + decimal(main as nat) + "\t"@ + joined(
                lane_texts(lanes),
                ","@,
            ),
            readings,
        ) == (Stats {
            primary: put(t.primary, champ, main),
            plays: put(t.plays, champ, lanes),
            ..t
        }),
{
    reveal_strlit("POS\t");
    reveal_strlit("\t");
    reveal_strlit("POS");
    lemma_tags();
    lemma_lanes_listed(lanes);
    lemma_decimal_is_field(main as nat);
    law_decimal_reads_back(main as nat, 255);
    let list = joined(lane_texts(lanes), ","@);
    let f = seq!["POS"@, champ, decimal(main as nat), list];
    lemma_joined_4("POS"@, champ, decimal(main as nat), list, "\t"@);
    assert("POS\t"@ + champ + "\t"@ + decimal(main as nat) + "\t"@ + list =~= joined(f, "\t"@));
    lemma_row_is_read(t, f, readings);
}

/// The row of a champion's role is read as its ratios.
pub proof fn law_role_row_is_read(
    t: Stats,
    champ: Seq<char>,
    tank: Seq<char>,
    heal: Seq<char>,
    readings: Seq<(Seq<char>, u32)>,
)
    requires
        lacks(champ, '\t'),
        lacks(tank, '\t'),
        lacks(heal, '\t'),
    ensures
        after_line(t, "RP\t"@ + champ + "\t"@ + tank + "\t"@ + heal, readings) == (Stats {
            role: put(t.role, champ, (reading(readings, tank), reading(readings, heal))),
            ..t
        }),
{
    reveal_strlit("RP\t");
    reveal_strlit("\t");
    reveal_strlit("RP");
    lemma_tags();
    let f = seq!["RP"@, champ, tank, heal];
    lemma_joined_4("RP"@, champ, tank, heal, "\t"@);
    assert("RP\t"@ + champ + "\t"@ + tank + "\t"@ + heal =~= joined(f, "\t"@));
    lemma_row_is_read(t, f, readings);
}

/// The lanes that a champion plays among the first `n`, but for one.
pub open spec fn lanes_but(said: Seq<LaneGames>, not: nat, n: nat) -> Seq<u8>
    decreases n,
{
    if n == 0 {
        Seq::empty()
    } else {
        let front = lanes_but(said, not, (n - 1) as nat);
        if n - 1 != not && is_played(said, n - 1) {
            front.push((n - 1) as u8)
        } else {
            front
        }
    }
}

proof fn lemma_lanes_but(said: Seq<LaneGames>, not: nat, n: nat)
    requires
        n <= 5,
    ensures
        played_but(said, not, n) == lane_texts(lanes_but(said, not, n)),
        forall|i: int| 0 <= i < lanes_but(said, not, n).len() ==> #[trigger] lanes_but(
            said,
            not,
            n,
        )[i] <= 4,
    decreases n,
{
    if n > 0 {
        lemma_lanes_but(said, not, (n - 1) as nat);
        let front = lanes_but(said, not, (n - 1) as nat);
        assert(lane_texts(front.push((n - 1) as u8)) =~= lane_texts(front).push(
            decimal((n - 1) as nat),
        ));
    } else {
        assert(played_but(said, not, n) =~= lane_texts(lanes_but(said, not, n)));
    }
}

/// The lanes that were computed for a champion are read: the one that it plays most, and all
/// that it plays, that one first.
pub proof fn law_computed_lanes_are_read(
    t: Stats,
    champ: Seq<char>,
    said: Seq<LaneGames>,
    readings: Seq<(Seq<char>, u32)>,
)
    requires
        lacks(champ, '\t'),
    ensures
        pos_row(champ, said) matches Some(row) ==> ({
            let main = most_played(said, 4) as u8;
            after_line(t, row, readings) == (Stats {
                primary: put(t.primary, champ, main),
                plays: put(t.plays, champ, seq![main] + lanes_but(said, main as nat, 5)),
                ..t
            })
        }),
{
    law_most_played(said, 4);
    let main = most_played(said, 4) as u8;
    lemma_lanes_but(said, main as nat, 5);
    let lanes = seq![main] + lanes_but(said, main as nat, 5);
    assert(lane_texts(lanes) =~= seq![decimal(main as nat)] + played_but(said, main as nat, 5));
    law_pos_row_is_read(t, champ, main, lanes, readings);
}

} // verus!
