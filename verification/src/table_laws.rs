//! What holds of all tables: how a row that is said shows in them, and what they say of tiers,
//! roles and trust.

use vstd::prelude::*;

#[allow(unused_imports)]
use crate::bits::{ge32, gt32, magnitude32, nan32, rank32, INF32};
#[allow(unused_imports)]
use crate::numeral::{number, number_or_zero};
#[allow(unused_imports)]
use crate::state::listed;
#[allow(unused_imports)]
use crate::tables::{
    after_line,
    after_lines,
    after_row,
    lanes_listed,
    last_cell,
    no_stats,
    pair,
    put_pair,
    reading,
    tier_letter,
    Kit,
    Stats,
};
#[allow(unused_imports)]
use crate::text::pieces;
#[allow(unused_imports)]
use crate::textmap::{ascending, law_lookup_put, law_lookup_put_other, lookup, put};

verus! {

/// Where nothing is said, a champion has no delta, enough games, no tier, no role, no kit but
/// that of physical damage, plays no lane and counts as playing one; nothing is trusted.
pub proof fn law_nothing_is_said(c: Seq<char>, d: Seq<char>, lane: u8)
    ensures
        ({
            let t = no_stats();
            &&& t.delta_of(c) == 0 && t.delta_on(c, Some(lane)) == 0
            &&& t.games_of(c) == u32::MAX && t.games_on(c, Some(lane)) == u32::MAX
            &&& t.tier(c, None).len() == 0 && t.tier(c, Some(lane)).len() == 0
            &&& t.glyph(c).len() == 0
            &&& !t.tagged(c, d) && t.category_of(c).len() == 0 && t.damage_of(c) == "AD"@
            &&& t.lanes_of(c).len() == 0 && t.primary_of(c) is None && t.lane_count(c) == 1
            &&& pair(t.synergy, c, d) == 0 && pair(t.counter, c, d) == 0
            &&& t.trust() == 0 && t.matches == 0 && t.pool == Set::<Seq<char>>::empty()
        }),
{
    reveal_strlit("");
}

/// A champion's delta and games are those that were said of it, whatever is said of others.
pub proof fn law_said_winrate(t: Stats, c: Seq<char>, w: u32, g: u32, d: Seq<char>)
    ensures
        ({
            let u = Stats { delta: put(t.delta, c, w), games: put(t.games, c, g), ..t };
            &&& u.delta_of(c) == w && u.games_of(c) == g
            &&& u.delta_on(c, None) == w && u.games_on(c, None) == g
            &&& u.tier(c, None) == tier_letter(w)
            &&& d != c ==> u.delta_of(d) == t.delta_of(d) && u.games_of(d) == t.games_of(d)
                && u.tier(d, None) == t.tier(d, None)
        }),
{
    law_lookup_put(t.delta, c, w);
    law_lookup_put(t.games, c, g);
    if d != c {
        law_lookup_put_other(t.delta, c, w, d);
        law_lookup_put_other(t.games, c, g, d);
    }
}

/// The statistics after a lane cell of a champion was said.
pub open spec fn with_cell(t: Stats, c: Seq<char>, lane: u8, w: u32, g: u32) -> Stats {
    let said = match lookup(t.cells, c) {
        Some(v) => v,
        None => Seq::empty(),
    };
    Stats { cells: put(t.cells, c, said.push((lane, (w, g)))), ..t }
}

/// What is said of a champion on a lane holds there over what was said before and over what
/// holds of the champion everywhere; other lanes and other champions are as before.
pub proof fn law_said_cell(t: Stats, c: Seq<char>, lane: u8, w: u32, g: u32, l: u8, d: Seq<char>)
    ensures
        ({
            let u = with_cell(t, c, lane, w, g);
            &&& u.delta_on(c, Some(lane)) == w
            &&& u.games_on(c, Some(lane)) == g
            &&& u.tier(c, Some(lane)) == tier_letter(w)
            &&& l != lane || d != c ==> u.delta_on(d, Some(l)) == t.delta_on(d, Some(l))
                && u.games_on(d, Some(l)) == t.games_on(d, Some(l)) && u.tier(d, Some(l)) == t.tier(
                d,
                Some(l),
            )
            &&& u.delta_on(c, None) == t.delta_on(c, None)
            &&& u.games_on(c, None) == t.games_on(c, None)
            &&& u.tier(c, None) == t.tier(c, None)
        }),
{
    let said = match lookup(t.cells, c) {
        Some(v) => v,
        None => Seq::empty(),
    };
    let now = said.push((lane, (w, g)));
    law_lookup_put(t.cells, c, now);
    assert(now.drop_last() =~= said);
    assert(last_cell(now, lane) == Some((w, g)));
    if d != c {
        law_lookup_put_other(t.cells, c, now, d);
    } else if l != lane {
        assert(last_cell(now, l) == last_cell(said, l));
        if lookup(t.cells, c) is None {
            assert(last_cell(said, l) is None);
        }
    }
}

/// Where a champion has no cell on a lane, its delta and games there are those that it has
/// everywhere, but it has no tier there.
pub proof fn law_no_cell(t: Stats, c: Seq<char>, lane: u8)
    requires
        lookup(t.cells, c) matches Some(v) ==> forall|i: int|
            0 <= i < v.len() ==> (#[trigger] v[i]).0 != lane,
    ensures
        t.delta_on(c, Some(lane)) == t.delta_on(c, None),
        t.games_on(c, Some(lane)) == t.games_on(c, None),
        t.tier(c, Some(lane)).len() == 0,
{
    reveal_strlit("");
    if let Some(v) = lookup(t.cells, c) {
        lemma_no_last_cell(v, lane);
    }
}

proof fn lemma_no_last_cell(v: Seq<(u8, (u32, u32))>, lane: u8)
    requires
        forall|i: int| 0 <= i < v.len() ==> (#[trigger] v[i]).0 != lane,
    ensures
        last_cell(v, lane) is None,
    decreases v.len(),
{
    if v.len() > 0 {
        let front = v.drop_last();
        assert(forall|i: int| 0 <= i < front.len() ==> #[trigger] front[i] == v[i]);
        lemma_no_last_cell(front, lane);
    }
}

/// A delta said of a pair holds of that pair in that order, and of no other pair.
pub proof fn law_said_pair(
    m: Seq<(Seq<char>, Seq<(Seq<char>, u32)>)>,
    a: Seq<char>,
    b: Seq<char>,
    w: u32,
    c: Seq<char>,
    d: Seq<char>,
)
    ensures
        pair(put_pair(m, a, b, w), a, b) == w,
        c != a || d != b ==> pair(put_pair(m, a, b, w), c, d) == pair(m, c, d),
{
    let inner = match lookup(m, a) {
        Some(i) => i,
        None => Seq::empty(),
    };
    let now = put(inner, b, w);
    law_lookup_put(m, a, now);
    law_lookup_put(inner, b, w);
    if c != a {
        law_lookup_put_other(m, a, now, c);
    } else if d != b {
        law_lookup_put_other(inner, b, w, d);
    }
}

/// A champion's kit is the one that was said of it, whatever is said of others.
pub proof fn law_said_kit(t: Stats, c: Seq<char>, k: Kit, tag: Seq<char>, d: Seq<char>)
    ensures
        ({
            let u = Stats { taxon: put(t.taxon, c, k), ..t };
            &&& u.tagged(c, tag) <==> k.tags.contains(tag)
            &&& u.category_of(c) == k.category
            &&& u.damage_of(c) == k.damage
            &&& d != c ==> u.tagged(d, tag) == t.tagged(d, tag) && u.category_of(d)
                == t.category_of(d) && u.damage_of(d) == t.damage_of(d)
        }),
{
    law_lookup_put(t.taxon, c, k);
    if d != c {
        law_lookup_put_other(t.taxon, c, k, d);
    }
}

/// A champion plays the lanes that were said of it, and as many as were said.
pub proof fn law_said_lanes(t: Stats, c: Seq<char>, main: u8, lanes: Seq<u8>, d: Seq<char>)
    requires
        lanes.len() < 256,
    ensures
        ({
            let u = Stats {
                primary: put(t.primary, c, main),
                plays: put(t.plays, c, lanes),
                ..t
            };
            &&& u.primary_of(c) == Some(main)
            &&& u.lanes_of(c) == lanes
            &&& u.lane_count(c) == lanes.len()
            &&& d != c ==> u.primary_of(d) == t.primary_of(d) && u.lanes_of(d) == t.lanes_of(d)
                && u.lane_count(d) == t.lane_count(d)
        }),
{
    law_lookup_put(t.primary, c, main);
    law_lookup_put(t.plays, c, lanes);
    if d != c {
        law_lookup_put_other(t.primary, c, main, d);
        law_lookup_put_other(t.plays, c, lanes, d);
    }
}

/// Tiers go by the delta: the better delta has no worse tier. From 0.06 on the tier is S, from
/// 0.02 on A, from -0.02 on B, from -0.06 on C, and else D, as for what is no number.
pub proof fn law_tiers_go_by_delta(d: u32)
    ensures
        tier_letter(d) == "S"@ <==> !nan32(d) && rank32(d) >= 0x3d75_c28f,
        tier_letter(d) == "A"@ <==> !nan32(d) && 0x3ca3_d70a <= rank32(d) < 0x3d75_c28f,
        tier_letter(d) == "B"@ <==> !nan32(d) && -0x3ca3_d70a <= rank32(d) < 0x3ca3_d70a,
        tier_letter(d) == "C"@ <==> !nan32(d) && -0x3d75_c28f <= rank32(d) < -0x3ca3_d70a,
        tier_letter(d) == "D"@ <==> nan32(d) || rank32(d) < -0x3d75_c28f,
{
    reveal_strlit("S");
    reveal_strlit("A");
    reveal_strlit("B");
    reveal_strlit("C");
    reveal_strlit("D");
    assert("S"@[0] == 'S' && "A"@[0] == 'A' && "B"@[0] == 'B' && "C"@[0] == 'C' && "D"@[0] == 'D');
}

/// A champion whose ratios were said is a healer from 1.5 on; else it is a tank from 1.6 on
/// where it heals less than it deals; else it is a bruiser from 1.25 on where it heals less
/// than 1.2; else it deals damage. Others are as before.
pub proof fn law_said_role(t: Stats, c: Seq<char>, tank: u32, heal: u32, d: Seq<char>)
    requires
        !nan32(tank),
        !nan32(heal),
    ensures
        ({
            let u = Stats { role: put(t.role, c, (tank, heal)), ..t };
            let healer = rank32(heal) >= 0x3fc0_0000;
            let hard = rank32(tank) >= 0x3fcc_cccd && rank32(heal) < 0x3f80_0000;
            let front = rank32(tank) >= 0x3fa0_0000 && rank32(heal) < 0x3f99_999a;
            &&& u.ratios(c) == (tank, heal)
            &&& u.heals(c) <==> healer
            &&& u.tanks(c) <==> hard
            &&& u.fronts(c) <==> front
            &&& u.glyph(c) == "힐"@ <==> healer
            &&& u.glyph(c) == "탱"@ <==> hard
            &&& u.glyph(c) == "브"@ <==> front && !hard
            &&& u.glyph(c) == "딜"@ <==> !healer && !front
            &&& d != c ==> u.glyph(d) == t.glyph(d) && u.ratios(d) == t.ratios(d)
        }),
{
    reveal_strlit("힐");
    reveal_strlit("탱");
    reveal_strlit("브");
    reveal_strlit("딜");
    assert("힐"@[0] == '힐' && "탱"@[0] == '탱' && "브"@[0] == '브' && "딜"@[0] == '딜');
    law_lookup_put(t.role, c, (tank, heal));
    if d != c {
        law_lookup_put_other(t.role, c, (tank, heal), d);
    }
}

/// Trust grows with the matches, one step each, up to 200.
pub proof fn law_trust_grows(t: Stats, u: Stats)
    ensures
        t.matches <= 200 ==> t.trust() == t.matches,
        t.matches >= 200 ==> t.trust() == 200,
        t.matches <= u.matches ==> t.trust() <= u.trust(),
{
}

/// A comment, an empty line, and a row of a name that no table has say nothing.
pub proof fn law_other_lines_say_nothing(
    t: Stats,
    line: Seq<char>,
    readings: Seq<(Seq<char>, u32)>,
)
    requires
        ({
            let tag = pieces(line, '\t')[0];
            ||| line.len() == 0
            ||| line[0] == '#'
            ||| tag != "C"@ && tag != "CP"@ && tag != "S"@ && tag != "K"@ && tag != "T"@ && tag
                != "B"@ && tag != "M"@ && tag != "SAVE"@ && tag != "POOL"@ && tag != "POS"@ && tag
                != "RP"@
        }),
    ensures
        after_line(t, line, readings) == t,
{
    reveal_strlit("#");
    if line.len() > 0 && line[0] == '#' {
        assert(crate::text::begins(line, "#"@)) by {
            assert("#"@ =~= seq!['#']);
            assert(line.take(1) =~= "#"@);
        }
    }
}

/// A row of too few fields says nothing.
pub proof fn law_short_rows_say_nothing(
    t: Stats,
    f: Seq<Seq<char>>,
    readings: Seq<(Seq<char>, u32)>,
)
    requires
        f.len() > 0,
        ({
            ||| f.len() == 1
            ||| f.len() == 2 && f[0] != "M"@ && f[0] != "SAVE"@ && f[0] != "POOL"@
            ||| f.len() == 3 && (f[0] == "S"@ || f[0] == "K"@ || f[0] == "T"@ || f[0] == "POS"@
                || f[0] == "RP"@)
            ||| f.len() <= 4 && f[0] == "CP"@
        }),
    ensures
        after_row(t, f, readings) == t,
{
    lemma_row_names();
}

proof fn lemma_row_names()
    ensures
        "C"@ != "CP"@,
        "S"@ != "SAVE"@,
        "POS"@ != "POOL"@,
        "C"@ != "S"@,
        "C"@ != "K"@,
        "C"@ != "T"@,
        "C"@ != "B"@,
        "C"@ != "M"@,
        "S"@ != "K"@,
        "S"@ != "T"@,
        "S"@ != "B"@,
        "S"@ != "M"@,
        "K"@ != "T"@,
        "K"@ != "B"@,
        "K"@ != "M"@,
        "T"@ != "B"@,
        "T"@ != "M"@,
        "B"@ != "M"@,
        "C"@ != "SAVE"@,
        "C"@ != "POOL"@,
        "C"@ != "POS"@,
        "C"@ != "RP"@,
        "CP"@ != "RP"@,
        "CP"@ != "SAVE"@,
        "CP"@ != "POOL"@,
        "CP"@ != "POS"@,
        "CP"@ != "S"@,
        "CP"@ != "K"@,
        "CP"@ != "T"@,
        "CP"@ != "B"@,
        "CP"@ != "M"@,
        "S"@ != "POOL"@,
        "S"@ != "POS"@,
        "S"@ != "RP"@,
        "K"@ != "SAVE"@,
        "K"@ != "POOL"@,
        "K"@ != "POS"@,
        "K"@ != "RP"@,
        "T"@ != "SAVE"@,
        "T"@ != "POOL"@,
        "T"@ != "POS"@,
        "T"@ != "RP"@,
        "B"@ != "SAVE"@,
        "B"@ != "POOL"@,
        "B"@ != "POS"@,
        "B"@ != "RP"@,
        "M"@ != "SAVE"@,
        "M"@ != "POOL"@,
        "M"@ != "POS"@,
        "M"@ != "RP"@,
        "SAVE"@ != "POOL"@,
        "SAVE"@ != "POS"@,
        "SAVE"@ != "RP"@,
        "POOL"@ != "RP"@,
        "POS"@ != "RP"@,
{
    reveal_strlit("C");
    reveal_strlit("CP");
    reveal_strlit("S");
    reveal_strlit("K");
    reveal_strlit("T");
    reveal_strlit("B");
    reveal_strlit("M");
    reveal_strlit("SAVE");
    reveal_strlit("POOL");
    reveal_strlit("POS");
    reveal_strlit("RP");
    assert("C"@.len() == 1 && "CP"@.len() == 2 && "S"@.len() == 1 && "K"@.len() == 1);
    assert("T"@.len() == 1 && "B"@.len() == 1 && "M"@.len() == 1 && "SAVE"@.len() == 4);
    assert("POOL"@.len() == 4 && "POS"@.len() == 3 && "RP"@.len() == 2);
    assert("C"@[0] == 'C' && "CP"@[0] == 'C' && "S"@[0] == 'S' && "K"@[0] == 'K');
    assert("T"@[0] == 'T' && "B"@[0] == 'B' && "M"@[0] == 'M' && "SAVE"@[0] == 'S');
    assert("POOL"@[0] == 'P' && "RP"@[0] == 'R');
}

/// A champion's delta is read though its games are missing or no number: its games then stay.
/// A lane above the last is the last; a cell on what is no lane, and a lane row without lanes
/// below five, say no lane cell and the one lane; matches that are no number are none.
pub proof fn law_rows_with_gaps(t: Stats, f: Seq<Seq<char>>, readings: Seq<(Seq<char>, u32)>)
    ensures
        f.len() >= 3 && f[0] == "C"@ ==> ({
            let u = after_row(t, f, readings);
            &&& u.delta == put(t.delta, f[1], reading(readings, f[2]))
            &&& f.len() == 3 || number(f[3], u32::MAX as nat) is None ==> u.games == t.games
        }),
        f.len() >= 5 && f[0] == "CP"@ ==> match number(f[2], 255) {
            Some(n) => after_row(t, f, readings) == with_cell(
                t,
                f[1],
                if n < 4 {
                    n as u8
                } else {
                    4
                },
                reading(readings, f[3]),
                number_or_zero(f[4], u32::MAX as nat) as u32,
            ),
            None => after_row(t, f, readings) == t,
        },
        f.len() >= 4 && f[0] == "POS"@ && lanes_listed(f[3]).len() == 0 ==> after_row(
            t,
            f,
            readings,
        ).plays == put(t.plays, f[1], seq![number_or_zero(f[2], 255) as u8]),
        f.len() >= 4 && f[0] == "POS"@ ==> (lookup(after_row(t, f, readings).primary, f[1])
            matches Some(p) && p <= 4 && (p == number_or_zero(f[2], 255) || p == 4 && number_or_zero(
            f[2],
            255,
        ) > 4)),
        f.len() >= 2 && f[0] == "M"@ && number(f[1], usize::MAX as nat) is None ==> after_row(
            t,
            f,
            readings,
        ).matches == 0,
        f.len() >= 4 && f[0] == "T"@ ==> (lookup(after_row(t, f, readings).taxon, f[1])
            matches Some(k) && k.category == f[2] && k.damage == f[3] && (if f.len() == 4 {
            k.tags.len() == 0
        } else {
            k.tags == pieces(f[4], ',')
        })),
        f.len() >= 2 && f[0] == "POOL"@ ==> forall|id: Seq<char>| #[trigger]
            after_row(t, f, readings).pool.contains(id) <==> pieces(f[1], ',').contains(id)
                && id.len() > 0,
{
    lemma_row_names();
    if f.len() >= 4 && f[0] == "POS"@ {
        let p = crate::tables::at_most_4(number_or_zero(f[2], 255));
        law_lookup_put(t.primary, f[1], p);
    }
    if f.len() >= 4 && f[0] == "T"@ {
        let k = Kit {
            category: f[2],
            damage: f[3],
            tags: if f.len() >= 5 {
                pieces(f[4], ',')
            } else {
                Seq::empty()
            },
        };
        law_lookup_put(t.taxon, f[1], k);
    }
    if f.len() >= 2 && f[0] == "POOL"@ {
        let some = |p: Seq<char>| p.len() > 0;
        assert forall|id: Seq<char>| #[trigger] listed(f[1]).contains(id) <==> pieces(
            f[1],
            ',',
        ).contains(id) && id.len() > 0 by {
            lemma_kept(pieces(f[1], ','), some, id);
        }
    }
}

/// What is kept of a list is what is in it and has the property.
pub proof fn lemma_kept<A>(s: Seq<A>, p: spec_fn(A) -> bool, x: A)
    ensures
        s.filter(p).contains(x) <==> s.contains(x) && p(x),
    decreases s.len(),
{
    reveal(Seq::filter);
    if s.len() > 0 {
        let front = s.drop_last();
        lemma_kept(front, p, x);
        let kept = front.filter(p);
        let all = s.filter(p);
        assert(s =~= front.push(s.last()));
        assert(s.contains(x) <==> front.contains(x) || x == s.last()) by {
            if front.contains(x) {
                let k = choose|k: int| 0 <= k < front.len() && front[k] == x;
                assert(s[k] == x);
            }
            if x == s.last() {
                assert(s[s.len() - 1] == x);
            }
        }
        if p(s.last()) {
            assert(all =~= kept.push(s.last()));
            assert(all[kept.len() as int] == s.last());
            if kept.contains(x) {
                let k = choose|k: int| 0 <= k < kept.len() && kept[k] == x;
                assert(all[k] == x);
            }
        }
    }
}

/// The lanes of a list are its numbers below five.
pub proof fn law_listed_lanes(s: Seq<char>, l: u8)
    ensures
        lanes_listed(s).contains(l) <==> l < 5 && exists|k: int|
            0 <= k < pieces(s, ',').len() && number(#[trigger] pieces(s, ',')[k], 255) == Some(
                l as nat,
            ),
{
    let f = |p: Seq<char>|
        match number(p, 255) {
            Some(n) => if n < 5 {
                Some(n as u8)
            } else {
                None
            },
            None => None,
        };
    lemma_mapped(pieces(s, ','), f, l);
    let p = pieces(s, ',');
    if l < 5 && exists|k: int| 0 <= k < p.len() && number(#[trigger] p[k], 255) == Some(l as nat) {
        let k = choose|k: int| 0 <= k < p.len() && number(#[trigger] p[k], 255) == Some(l as nat);
        assert(f(p[k]) == Some(l));
    }
    if exists|k: int| 0 <= k < p.len() && f(#[trigger] p[k]) == Some(l) {
        let k = choose|k: int| 0 <= k < p.len() && f(#[trigger] p[k]) == Some(l);
        assert(number(p[k], 255) == Some(l as nat));
    }
}

proof fn lemma_mapped(s: Seq<Seq<char>>, f: spec_fn(Seq<char>) -> Option<u8>, x: u8)
    ensures
        s.filter_map(f).contains(x) <==> exists|k: int|
            0 <= k < s.len() && f(#[trigger] s[k]) == Some(x),
    decreases s.len(),
{
    if s.len() == 0 {
        reveal(Seq::filter_map);
    } else {
        let n = s.len() - 1;
        let front = s.take(n);
        lemma_mapped(front, f, x);
        s.lemma_filter_map_take_succ(f, n);
        assert(s.take(n + 1) =~= s);
        let kept = front.filter_map(f);
        let all = s.filter_map(f);
        if kept.contains(x) {
            let k = choose|k: int| 0 <= k < kept.len() && kept[k] == x;
            assert(all[k] == x);
            let j = choose|j: int| 0 <= j < front.len() && f(#[trigger] front[j]) == Some(x);
            assert(f(s[j]) == Some(x));
        }
        if f(s[n]) == Some(x) {
            assert(all[kept.len() as int] == x);
        }
        if exists|k: int| 0 <= k < s.len() && f(#[trigger] s[k]) == Some(x) {
            let k = choose|k: int| 0 <= k < s.len() && f(#[trigger] s[k]) == Some(x);
            if k < n {
                assert(f(front[k]) == Some(x));
            }
        }
    }
}

} // verus!
