//! The tables behind the recommendations: what they hold and how they are read from text.
//!
//! Winrate deltas, ban rates and ratios are single-precision bit patterns (see `bits`).

use vstd::prelude::*;

use crate::numeral::{number_or_0, parse_number};
#[allow(unused_imports)]
use crate::numeral::{number, number_or_zero};
use crate::state::split_csv;
#[allow(unused_imports)]
use crate::state::listed;
use crate::bits::{above32, at_least32};
#[allow(unused_imports)]
use crate::bits::{ge32, gt32};
use crate::text::{has_member, lines, same_text, split_on, starts_with};
#[allow(unused_imports)]
use crate::text::{begins, line_seq, pieces};
use crate::textmap::TextMap;
#[allow(unused_imports)]
use crate::textmap::{
    ascending,
    law_lookup_put,
    law_lookup_put_other,
    law_put_ascending,
    lookup,
    put,
};
use crate::textset::TextSet;

verus! {

/// What is known of a champion's kit.
pub struct Taxon {
    pub category: String,
    pub damage: String,
    pub tags: Vec<String>,
}

/// What a `Taxon` holds.
pub struct Kit {
    pub category: Seq<char>,
    pub damage: Seq<char>,
    pub tags: Seq<Seq<char>>,
}

impl DeepView for Taxon {
    type V = Kit;

    open spec fn deep_view(&self) -> Kit {
        Kit { category: self.category@, damage: self.damage@, tags: self.tags.deep_view() }
    }
}

/// The statistics of one save.
pub struct Tables {
    champ_delta: TextMap<u32>,
    champ_games: TextMap<u32>,
    champ_pos: TextMap<Vec<(u8, (u32, u32))>>,
    synergy: TextMap<TextMap<u32>>,
    counter: TextMap<TextMap<u32>>,
    taxon: TextMap<Taxon>,
    banrate: TextMap<u32>,
    /// The matches behind the statistics.
    pub matches: usize,
    /// The save that the statistics come from.
    pub save_name: String,
    /// The champions that the save offers; none means that it is not known.
    pub pool: TextSet,
    pos_primary: TextMap<u8>,
    pos_play: TextMap<Vec<u8>>,
    role: TextMap<(u32, u32)>,
}

/// What `Tables` hold.
pub struct Stats {
    /// Winrate delta of a champion.
    pub delta: Seq<(Seq<char>, u32)>,
    /// Games behind a champion's delta.
    pub games: Seq<(Seq<char>, u32)>,
    /// Delta and games of a champion on a lane, in the order in which they were said.
    pub cells: Seq<(Seq<char>, Seq<(u8, (u32, u32))>)>,
    /// Delta of a champion beside another.
    pub synergy: Seq<(Seq<char>, Seq<(Seq<char>, u32)>)>,
    /// Delta of a champion against another.
    pub counter: Seq<(Seq<char>, Seq<(Seq<char>, u32)>)>,
    pub taxon: Seq<(Seq<char>, Kit)>,
    pub banrate: Seq<(Seq<char>, u32)>,
    pub matches: nat,
    pub save_name: Seq<char>,
    pub pool: Set<Seq<char>>,
    /// The lane that a champion plays most.
    pub primary: Seq<(Seq<char>, u8)>,
    /// The lanes that a champion plays.
    pub plays: Seq<(Seq<char>, Seq<u8>)>,
    /// Tanking and healing of a champion, each divided by its dealing.
    pub role: Seq<(Seq<char>, (u32, u32))>,
}

impl View for Tables {
    type V = Stats;

    closed spec fn view(&self) -> Stats {
        Stats {
            delta: self.champ_delta@,
            games: self.champ_games@,
            cells: self.champ_pos@,
            synergy: self.synergy@,
            counter: self.counter@,
            taxon: self.taxon@,
            banrate: self.banrate@,
            matches: self.matches as nat,
            save_name: self.save_name@,
            pool: self.pool@,
            primary: self.pos_primary@,
            plays: self.pos_play@,
            role: self.role@,
        }
    }
}

/// The statistics in which nothing is said.
pub open spec fn no_stats() -> Stats {
    Stats {
        delta: Seq::empty(),
        games: Seq::empty(),
        cells: Seq::empty(),
        synergy: Seq::empty(),
        counter: Seq::empty(),
        taxon: Seq::empty(),
        banrate: Seq::empty(),
        matches: 0,
        save_name: Seq::empty(),
        pool: Set::empty(),
        primary: Seq::empty(),
        plays: Seq::empty(),
        role: Seq::empty(),
    }
}

/// The bit pattern of the number that `t` writes, as `readings` say; that of zero where they
/// say nothing.
pub open spec fn reading(readings: Seq<(Seq<char>, u32)>, t: Seq<char>) -> u32 {
    match lookup(readings, t) {
        Some(b) => b,
        None => 0,
    }
}

/// The bit pattern of the number that `t` writes, as `readings` say.
pub fn read_bits(readings: &TextMap<u32>, t: &str) -> (r: u32)
    ensures
        r == reading(readings@, t@),
{
    match readings.get(t) {
        Some(b) => *b,
        None => 0,
    }
}

/// The table `m` with `w` under the pair `a`, `b`.
pub open spec fn put_pair(
    m: Seq<(Seq<char>, Seq<(Seq<char>, u32)>)>,
    a: Seq<char>,
    b: Seq<char>,
    w: u32,
) -> Seq<(Seq<char>, Seq<(Seq<char>, u32)>)> {
    let inner = match lookup(m, a) {
        Some(i) => i,
        None => Seq::empty(),
    };
    put(m, a, put(inner, b, w))
}

/// The lane numbers below 5 that stand between the commas of `s`.
pub open spec fn lanes_listed(s: Seq<char>) -> Seq<u8> {
    pieces(s, ',').filter_map(
        |p: Seq<char>|
            match number(p, 255) {
                Some(n) => if n < 5 {
                    Some(n as u8)
                } else {
                    None
                },
                None => None,
            },
    )
}

/// The smaller of a lane number and 4.
pub open spec fn at_most_4(n: nat) -> u8 {
    if n > 4 {
        4
    } else {
        n as u8
    }
}

/// The statistics after one more row, given by its fields.
pub open spec fn after_row(t: Stats, f: Seq<Seq<char>>, readings: Seq<(Seq<char>, u32)>) -> Stats {
    if f[0] == "C"@ && f.len() >= 3 {
        let games = if f.len() >= 4 {
            number(f[3], u32::MAX as nat)
        } else {
            None
        };
        Stats {
            delta: put(t.delta, f[1], reading(readings, f[2])),
            games: match games {
                Some(g) => put(t.games, f[1], g as u32),
                None => t.games,
            },
            ..t
        }
    } else if f[0] == "CP"@ && f.len() >= 5 {
        match number(f[2], 255) {
            Some(lane) => {
                let cell = (
                    reading(readings, f[3]),
                    number_or_zero(f[4], u32::MAX as nat) as u32,
                );
                let said = match lookup(t.cells, f[1]) {
                    Some(v) => v,
                    None => Seq::empty(),
                };
                Stats { cells: put(t.cells, f[1], said.push((at_most_4(lane), cell))), ..t }
            },
            None => t,
        }
    } else if f[0] == "S"@ && f.len() >= 4 {
        Stats { synergy: put_pair(t.synergy, f[1], f[2], reading(readings, f[3])), ..t }
    } else if f[0] == "K"@ && f.len() >= 4 {
        Stats { counter: put_pair(t.counter, f[1], f[2], reading(readings, f[3])), ..t }
    } else if f[0] == "T"@ && f.len() >= 4 {
        let tags = if f.len() >= 5 {
            pieces(f[4], ',')
        } else {
            Seq::empty()
        };
        Stats { taxon: put(t.taxon, f[1], Kit { category: f[2], damage: f[3], tags }), ..t }
    } else if f[0] == "B"@ && f.len() >= 3 {
        Stats { banrate: put(t.banrate, f[1], reading(readings, f[2])), ..t }
    } else if f[0] == "M"@ && f.len() >= 2 {
        Stats { matches: number_or_zero(f[1], usize::MAX as nat), ..t }
    } else if f[0] == "SAVE"@ && f.len() >= 2 {
        Stats { save_name: f[1], ..t }
    } else if f[0] == "POOL"@ && f.len() >= 2 {
        Stats { pool: listed(f[1]).to_set(), ..t }
    } else if f[0] == "POS"@ && f.len() >= 4 {
        let prim = number_or_zero(f[2], 255);
        let plays = lanes_listed(f[3]);
        Stats {
            primary: put(t.primary, f[1], at_most_4(prim)),
            plays: put(
                t.plays,
                f[1],
                if plays.len() == 0 {
                    seq![prim as u8]
                } else {
                    plays
                },
            ),
            ..t
        }
    } else if f[0] == "RP"@ && f.len() >= 4 {
        Stats {
            role: put(t.role, f[1], (reading(readings, f[2]), reading(readings, f[3]))),
            ..t
        }
    } else {
        t
    }
}

/// The statistics after one more line: a comment or an empty line says nothing, any other is
/// a row of fields between tabs.
pub open spec fn after_line(t: Stats, line: Seq<char>, readings: Seq<(Seq<char>, u32)>) -> Stats {
    if begins(line, "#"@) || line.len() == 0 {
        t
    } else {
        after_row(t, pieces(line, '\t'), readings)
    }
}

/// The statistics that some lines say, a later line over an earlier one.
pub open spec fn after_lines(lines: Seq<Seq<char>>, readings: Seq<(Seq<char>, u32)>) -> Stats
    decreases lines.len(),
{
    if lines.len() == 0 {
        no_stats()
    } else {
        after_line(after_lines(lines.drop_last(), readings), lines.last(), readings)
    }
}

/// The statistics that a text says.
pub open spec fn stats_of(tsv: Seq<char>, readings: Seq<(Seq<char>, u32)>) -> Stats {
    after_lines(line_seq(tsv), readings)
}

/// Puts `w` under the pair `a`, `b`.
fn insert_pair(m: &mut TextMap<TextMap<u32>>, a: &str, b: &str, w: u32)
    requires
        ascending(old(m)@),
    ensures
        final(m)@ == put_pair(old(m)@, a@, b@, w),
        ascending(final(m)@),
{
    let inner = m.slot(a, TextMap::new());
    inner.insert(b, w);
    proof {
        law_put_ascending(old(m)@, a@, inner@);
    }
}

/// The lane numbers below 5 that stand between the commas of `s`.
fn parse_lanes(s: &str) -> (r: Vec<u8>)
    ensures
        r@ == lanes_listed(s@),
{
    let p = split_on(s, ',');
    let ghost ps = pieces(s@, ',');
    let ghost f = |p: Seq<char>|
        match number(p, 255) {
            Some(n) => if n < 5 {
                Some(n as u8)
            } else {
                None
            },
            None => None,
        };
    let mut r: Vec<u8> = Vec::new();
    let mut i: usize = 0;
    assert(ps.take(0).filter_map(f) =~= Seq::<u8>::empty());
    while i < p.len()
        invariant
            i <= p@.len(),
            p.deep_view() == ps,
            r@ == ps.take(i as int).filter_map(f),
            f == |p: Seq<char>|
                match number(p, 255) {
                    Some(n) => if n < 5 {
                        Some(n as u8)
                    } else {
                        None
                    },
                    None => None,
                },
        decreases p@.len() - i,
    {
        assert(ps[i as int] == p@[i as int]@);
        proof {
            ps.lemma_filter_map_take_succ(f, i as int);
        }
        if let Some(n) = parse_number(p[i].as_str(), 255) {
            if n < 5 {
                r.push(n as u8);
            }
        }
        i += 1;
    }
    assert(ps.take(i as int) == ps);
    r
}

impl Tables {
    /// The tables that hold nothing.
    pub fn new() -> (r: Self)
        ensures
            r@ == no_stats(),
    {
        Tables {
            champ_delta: TextMap::new(),
            champ_games: TextMap::new(),
            champ_pos: TextMap::new(),
            synergy: TextMap::new(),
            counter: TextMap::new(),
            taxon: TextMap::new(),
            banrate: TextMap::new(),
            matches: 0,
            save_name: String::new(),
            pool: TextSet::new(),
            pos_primary: TextMap::new(),
            pos_play: TextMap::new(),
            role: TextMap::new(),
        }
    }

    /// Whether the keys of the tables with inner tables are in order.
    spec fn ordered(&self) -> bool {
        &&& ascending(self.champ_pos@)
        &&& ascending(self.synergy@)
        &&& ascending(self.counter@)
    }

    /// Takes in one row, given by its fields.
    fn take_row(&mut self, f: &Vec<String>, readings: &TextMap<u32>)
        requires
            f@.len() >= 1,
            old(self).ordered(),
        ensures
            final(self)@ == after_row(old(self)@, f.deep_view(), readings@),
            final(self).ordered(),
    {
        let ghost d = f.deep_view();
        assert(forall|i: int| 0 <= i < d.len() ==> #[trigger] d[i] == f@[i]@);
        let tag = f[0].as_str();
        if same_text(tag, "C") && f.len() >= 3 {
            self.champ_delta.insert(f[1].as_str(), read_bits(readings, f[2].as_str()));
            if f.len() >= 4 {
                if let Some(g) = parse_number(f[3].as_str(), u32::MAX as u64) {
                    self.champ_games.insert(f[1].as_str(), g as u32);
                }
            }
        } else if same_text(tag, "CP") && f.len() >= 5 {
            if let Some(lane) = parse_number(f[2].as_str(), 255) {
                let cell = (
                    read_bits(readings, f[3].as_str()),
                    number_or_0(f[4].as_str(), u32::MAX as u64) as u32,
                );
                let lane: u8 = if lane > 4 {
                    4
                } else {
                    lane as u8
                };
                let none: Vec<(u8, (u32, u32))> = Vec::new();
                assert(none.deep_view() =~= Seq::empty());
                let said = self.champ_pos.slot(f[1].as_str(), none);
                let ghost before = said.deep_view();
                said.push((lane, cell));
                assert(said.deep_view() =~= before.push((lane, cell)));
                proof {
                    law_put_ascending(old(self).champ_pos@, d[1], said.deep_view());
                }
            }
        } else if same_text(tag, "S") && f.len() >= 4 {
            insert_pair(
                &mut self.synergy,
                f[1].as_str(),
                f[2].as_str(),
                read_bits(readings, f[3].as_str()),
            );
        } else if same_text(tag, "K") && f.len() >= 4 {
            insert_pair(
                &mut self.counter,
                f[1].as_str(),
                f[2].as_str(),
                read_bits(readings, f[3].as_str()),
            );
        } else if same_text(tag, "T") && f.len() >= 4 {
            let tags = if f.len() >= 5 {
                split_on(f[4].as_str(), ',')
            } else {
                Vec::new()
            };
            assert(d.len() < 5 ==> tags.deep_view() =~= Seq::empty());
            self.taxon.insert(
                f[1].as_str(),
                Taxon { category: f[2].clone(), damage: f[3].clone(), tags },
            );
        } else if same_text(tag, "B") && f.len() >= 3 {
            self.banrate.insert(f[1].as_str(), read_bits(readings, f[2].as_str()));
        } else if same_text(tag, "M") && f.len() >= 2 {
            self.matches = number_or_0(f[1].as_str(), usize::MAX as u64) as usize;
        } else if same_text(tag, "SAVE") && f.len() >= 2 {
            self.save_name = f[1].clone();
        } else if same_text(tag, "POOL") && f.len() >= 2 {
            self.pool = TextSet::of(&split_csv(f[1].as_str()));
        } else if same_text(tag, "POS") && f.len() >= 4 {
            let prim: u8 = number_or_0(f[2].as_str(), 255) as u8;
            let mut plays = parse_lanes(f[3].as_str());
            if plays.len() == 0 {
                plays.push(prim);
                assert(plays@ =~= seq![prim]);
            }
            assert(plays.deep_view() =~= plays@);
            self.pos_primary.insert(
                f[1].as_str(),
                if prim > 4 {
                    4
                } else {
                    prim
                },
            );
            self.pos_play.insert(f[1].as_str(), plays);
        } else if same_text(tag, "RP") && f.len() >= 4 {
            self.role.insert(
                f[1].as_str(),
                (read_bits(readings, f[2].as_str()), read_bits(readings, f[3].as_str())),
            );
        }
    }
}

/// The tables that the rows of `tsv` say. `readings` give the bit pattern of each numeral
/// that writes a floating-point number; any other numeral counts as zero.
pub fn parse_tables_from_str(tsv: &str, readings: &TextMap<u32>) -> (r: Tables)
    ensures
        r@ == stats_of(tsv@, readings@),
{
    let mut t = Tables::new();
    let ls = lines(tsv);
    let ghost all = line_seq(tsv@);
    let mut i: usize = 0;
    assert(all.take(0) == Seq::<Seq<char>>::empty());
    while i < ls.len()
        invariant
            i <= ls@.len(),
            ls.deep_view() == all,
            t.ordered(),
            t@ == after_lines(all.take(i as int), readings@),
        decreases ls@.len() - i,
    {
        assert(all[i as int] == ls@[i as int]@);
        assert(all.take(i + 1).drop_last() == all.take(i as int));
        let line = ls[i].as_str();
        if !starts_with(line, "#") && !line.is_empty() {
            let f = split_on(line, '\t');
            t.take_row(&f, readings);
        }
        i += 1;
    }
    assert(all.take(i as int) == all);
    t
}

/// The numerals of a row that write floating-point numbers.
pub open spec fn row_numerals(f: Seq<Seq<char>>) -> Seq<Seq<char>> {
    if f[0] == "C"@ && f.len() >= 3 {
        seq![f[2]]
    } else if f[0] == "CP"@ && f.len() >= 5 {
        seq![f[3]]
    } else if (f[0] == "S"@ || f[0] == "K"@) && f.len() >= 4 {
        seq![f[3]]
    } else if f[0] == "B"@ && f.len() >= 3 {
        seq![f[2]]
    } else if f[0] == "RP"@ && f.len() >= 4 {
        seq![f[2], f[3]]
    } else {
        Seq::empty()
    }
}

/// The numerals of a line that write floating-point numbers.
pub open spec fn line_numerals(line: Seq<char>) -> Seq<Seq<char>> {
    if begins(line, "#"@) || line.len() == 0 {
        Seq::empty()
    } else {
        row_numerals(pieces(line, '\t'))
    }
}

/// The numerals of some lines that write floating-point numbers.
pub open spec fn numerals_of(lines: Seq<Seq<char>>) -> Seq<Seq<char>>
    decreases lines.len(),
{
    if lines.len() == 0 {
        Seq::empty()
    } else {
        numerals_of(lines.drop_last()) + line_numerals(lines.last())
    }
}

/// The numerals of `tsv` whose readings its tables need.
pub fn numerals(tsv: &str) -> (r: Vec<String>)
    ensures
        r.deep_view() == numerals_of(line_seq(tsv@)),
{
    let ls = lines(tsv);
    let ghost all = line_seq(tsv@);
    let mut r: Vec<String> = Vec::new();
    let mut i: usize = 0;
    assert(all.take(0) == Seq::<Seq<char>>::empty());
    assert(r.deep_view() =~= Seq::empty());
    while i < ls.len()
        invariant
            i <= ls@.len(),
            ls.deep_view() == all,
            r.deep_view() == numerals_of(all.take(i as int)),
        decreases ls@.len() - i,
    {
        assert(all[i as int] == ls@[i as int]@);
        assert(all.take(i + 1).drop_last() == all.take(i as int));
        let line = ls[i].as_str();
        let ghost sofar = r.deep_view();
        if !starts_with(line, "#") && !line.is_empty() {
            let f = split_on(line, '\t');
            let ghost d = f.deep_view();
            assert(forall|j: int| 0 <= j < d.len() ==> #[trigger] d[j] == f@[j]@);
            let tag = f[0].as_str();
            if same_text(tag, "C") && f.len() >= 3 {
                r.push(f[2].clone());
            } else if same_text(tag, "CP") && f.len() >= 5 {
                r.push(f[3].clone());
            } else if (same_text(tag, "S") || same_text(tag, "K")) && f.len() >= 4 {
                r.push(f[3].clone());
            } else if same_text(tag, "B") && f.len() >= 3 {
                r.push(f[2].clone());
            } else if same_text(tag, "RP") && f.len() >= 4 {
                r.push(f[2].clone());
                r.push(f[3].clone());
            }
            assert(r.deep_view() =~= sofar + row_numerals(d));
        }
        assert(r.deep_view() =~= sofar + line_numerals(all[i as int]));
        i += 1;
    }
    assert(all.take(i as int) == all);
    r
}

proof fn lemma_lines_need(lines: Seq<Seq<char>>, a: Seq<(Seq<char>, u32)>, b: Seq<(Seq<char>, u32)>)
    requires
        forall|t: Seq<char>| #[trigger]
            numerals_of(lines).contains(t) ==> reading(a, t) == reading(b, t),
    ensures
        after_lines(lines, a) == after_lines(lines, b),
    decreases lines.len(),
{
    if lines.len() > 0 {
        let front = numerals_of(lines.drop_last());
        let back = line_numerals(lines.last());
        assert forall|t: Seq<char>| #[trigger] front.contains(t) implies reading(a, t) == reading(
            b,
            t,
        ) by {
            let i = choose|i: int| 0 <= i < front.len() && front[i] == t;
            assert(numerals_of(lines) == front + back);
            assert((front + back)[i] == t);
            assert(numerals_of(lines).contains(t));
        }
        lemma_lines_need(lines.drop_last(), a, b);
        assert forall|i: int| 0 <= i < back.len() implies reading(a, #[trigger] back[i]) == reading(
            b,
            back[i],
        ) by {
            assert((front + back)[front.len() + i] == back[i]);
            assert(numerals_of(lines).contains(back[i]));
        }
        let f = pieces(lines.last(), '\t');
        if back.len() > 0 {
            assert(reading(a, back[0]) == reading(b, back[0]));
        }
        if back.len() > 1 {
            assert(reading(a, back[1]) == reading(b, back[1]));
        }
    }
}

/// The tables of a text depend on the readings of its `numerals` alone.
pub proof fn law_tables_need_numerals(
    tsv: Seq<char>,
    a: Seq<(Seq<char>, u32)>,
    b: Seq<(Seq<char>, u32)>,
)
    requires
        forall|t: Seq<char>| #[trigger]
            numerals_of(line_seq(tsv)).contains(t) ==> reading(a, t) == reading(b, t),
    ensures
        stats_of(tsv, a) == stats_of(tsv, b),
{
    lemma_lines_need(line_seq(tsv), a, b);
}

/// Whether a lane, where one is known, exists.
pub open spec fn lane_exists(lane: Option<u8>) -> bool {
    lane matches Some(p) ==> p <= 4
}

/// Whether the lanes that a champion plays, where they are known, are some lanes that exist,
/// or a single one.
pub open spec fn lanes_exist(lanes: Option<Seq<u8>>) -> bool {
    lanes matches Some(v) ==> v.len() > 0 && (v.len() == 1 || forall|i: int|
        0 <= i < v.len() ==> #[trigger] v[i] <= 4)
}

/// Whether every lane that a champion plays most exists, and the lanes that a champion plays
/// exist unless there is only one.
pub open spec fn lanes_sound(t: Stats) -> bool {
    &&& forall|c: Seq<char>| lane_exists(#[trigger] lookup(t.primary, c))
    &&& forall|c: Seq<char>| lanes_exist(#[trigger] lookup(t.plays, c))
}

proof fn lemma_listed_lanes(s: Seq<Seq<char>>, f: spec_fn(Seq<char>) -> Option<u8>)
    requires
        forall|p: Seq<char>| #[trigger] f(p) matches Some(l) ==> l <= 4,
    ensures
        forall|i: int| 0 <= i < s.filter_map(f).len() ==> #[trigger] s.filter_map(f)[i] <= 4,
    decreases s.len(),
{
    if s.len() > 0 {
        let n = s.len() - 1;
        lemma_listed_lanes(s.take(n), f);
        s.lemma_filter_map_take_succ(f, n);
        assert(s.take(n + 1) == s);
    } else {
        reveal(Seq::filter_map);
    }
}

proof fn lemma_row_keeps_lanes(t: Stats, f: Seq<Seq<char>>, readings: Seq<(Seq<char>, u32)>)
    requires
        lanes_sound(t),
    ensures
        lanes_sound(after_row(t, f, readings)),
{
    let u = after_row(t, f, readings);
    let prim = at_most_4(number_or_zero(f[2], 255));
    let plays = if lanes_listed(f[3]).len() == 0 {
        seq![number_or_zero(f[2], 255) as u8]
    } else {
        lanes_listed(f[3])
    };
    lemma_listed_lanes(
        pieces(f[3], ','),
        |p: Seq<char>|
            match number(p, 255) {
                Some(n) => if n < 5 {
                    Some(n as u8)
                } else {
                    None
                },
                None => None,
            },
    );
    assert forall|c: Seq<char>| lane_exists(#[trigger] lookup(u.primary, c)) by {
        if u.primary != t.primary {
            if c == f[1] {
                law_lookup_put(t.primary, f[1], prim);
            } else {
                law_lookup_put_other(t.primary, f[1], prim, c);
            }
        }
        assert(lane_exists(lookup(t.primary, c)));
    }
    assert forall|c: Seq<char>| lanes_exist(#[trigger] lookup(u.plays, c)) by {
        if u.plays != t.plays {
            if c == f[1] {
                law_lookup_put(t.plays, f[1], plays);
            } else {
                law_lookup_put_other(t.plays, f[1], plays, c);
            }
        }
        assert(lanes_exist(lookup(t.plays, c)));
    }
}

proof fn lemma_lines_keep_lanes(lines: Seq<Seq<char>>, readings: Seq<(Seq<char>, u32)>)
    ensures
        lanes_sound(after_lines(lines, readings)),
    decreases lines.len(),
{
    if lines.len() > 0 {
        lemma_lines_keep_lanes(lines.drop_last(), readings);
        lemma_row_keeps_lanes(
            after_lines(lines.drop_last(), readings),
            pieces(lines.last(), '\t'),
            readings,
        );
    }
}

/// In the tables of any text, every lane that a champion plays most exists.
pub proof fn law_lanes_exist(tsv: Seq<char>, readings: Seq<(Seq<char>, u32)>)
    ensures
        lanes_sound(stats_of(tsv, readings)),
{
    lemma_lines_keep_lanes(line_seq(tsv), readings);
}

/// The lane cell of a champion that was said last.
pub open spec fn last_cell(said: Seq<(u8, (u32, u32))>, lane: u8) -> Option<(u32, u32)>
    decreases said.len(),
{
    if said.len() == 0 {
        None
    } else if said.last().0 == lane {
        Some(said.last().1)
    } else {
        last_cell(said.drop_last(), lane)
    }
}

/// What `m` says of the pair `a`, `b`; zero where it says nothing.
pub open spec fn pair(m: Seq<(Seq<char>, Seq<(Seq<char>, u32)>)>, a: Seq<char>, b: Seq<char>) -> u32 {
    match lookup(m, a) {
        Some(inner) => reading(inner, b),
        None => 0,
    }
}

/// Games below which a winrate is too thin to trust.
pub const LOW_CONF_GAMES: u32 = 15;

/// Matches from which on the statistics are trusted fully.
pub const FULL_CONF_MATCHES: usize = 200;

/// Healing over dealing from which on a champion is a healer: 1.5.
pub const HEAL_RATIO: u32 = 0x3fc0_0000;

/// Tanking over dealing from which on a champion is a tank: 1.6.
pub const TANK_RATIO: u32 = 0x3fcc_cccd;

/// Tanking over dealing from which on a champion is a frontliner: 1.25.
pub const FRONT_RATIO: u32 = 0x3fa0_0000;

/// Healing over dealing below which a champion can be a tank: 1.
pub const TANK_HEAL: u32 = 0x3f80_0000;

/// Healing over dealing below which a champion can be a frontliner: 1.2.
pub const FRONT_HEAL: u32 = 0x3f99_999a;

/// Winrate delta from which on a champion is of tier S: 0.06.
pub const TIER_S: u32 = 0x3d75_c28f;

/// Winrate delta from which on a champion is of tier A: 0.02.
pub const TIER_A: u32 = 0x3ca3_d70a;

/// Winrate delta from which on a champion is of tier B: -0.02.
pub const TIER_B: u32 = 0xbca3_d70a;

/// Winrate delta from which on a champion is of tier C: -0.06.
pub const TIER_C: u32 = 0xbd75_c28f;

/// The tier of a winrate delta.
pub open spec fn tier_letter(d: u32) -> Seq<char> {
    if ge32(d, TIER_S) {
        "S"@
    } else if ge32(d, TIER_A) {
        "A"@
    } else if ge32(d, TIER_B) {
        "B"@
    } else if ge32(d, TIER_C) {
        "C"@
    } else {
        "D"@
    }
}

impl Stats {
    /// A champion's winrate delta; zero where it is not known.
    pub open spec fn delta_of(self, c: Seq<char>) -> u32 {
        reading(self.delta, c)
    }

    /// The games behind a champion's delta; the greatest number where they are not known.
    pub open spec fn games_of(self, c: Seq<char>) -> u32 {
        match lookup(self.games, c) {
            Some(g) => g,
            None => u32::MAX,
        }
    }

    /// Delta and games of a champion on a lane.
    pub open spec fn cell(self, c: Seq<char>, lane: u8) -> Option<(u32, u32)> {
        match lookup(self.cells, c) {
            Some(said) => last_cell(said, lane),
            None => None,
        }
    }

    /// The delta of a champion on a lane, or its delta overall where the lane is not known.
    pub open spec fn delta_on(self, c: Seq<char>, lane: Option<u8>) -> u32 {
        match lane {
            Some(l) => match self.cell(c, l) {
                Some((d, _)) => d,
                None => self.delta_of(c),
            },
            None => self.delta_of(c),
        }
    }

    /// The games behind the delta on a lane.
    pub open spec fn games_on(self, c: Seq<char>, lane: Option<u8>) -> u32 {
        match lane {
            Some(l) => match self.cell(c, l) {
                Some((_, g)) => g,
                None => self.games_of(c),
            },
            None => self.games_of(c),
        }
    }

    /// Whether a champion has a winrate, on the lane where one is given.
    pub open spec fn has_winrate(self, c: Seq<char>, lane: Option<u8>) -> bool {
        match lane {
            Some(l) => self.cell(c, l) is Some,
            None => lookup(self.delta, c) is Some,
        }
    }

    /// The tier of a champion; empty where it has no winrate.
    pub open spec fn tier(self, c: Seq<char>, lane: Option<u8>) -> Seq<char> {
        if self.has_winrate(c, lane) {
            tier_letter(self.delta_on(c, lane))
        } else {
            ""@
        }
    }

    /// Whether a champion's kit has a tag.
    pub open spec fn tagged(self, c: Seq<char>, tag: Seq<char>) -> bool {
        match lookup(self.taxon, c) {
            Some(k) => k.tags.contains(tag),
            None => false,
        }
    }

    /// The damage that a champion deals: "AD" where it is not known.
    pub open spec fn damage_of(self, c: Seq<char>) -> Seq<char> {
        match lookup(self.taxon, c) {
            Some(k) => k.damage,
            None => "AD"@,
        }
    }

    /// The category of a champion: empty where it is not known.
    pub open spec fn category_of(self, c: Seq<char>) -> Seq<char> {
        match lookup(self.taxon, c) {
            Some(k) => k.category,
            None => ""@,
        }
    }

    /// The ratios of a champion; zeros where they are not known.
    pub open spec fn ratios(self, c: Seq<char>) -> (u32, u32) {
        match lookup(self.role, c) {
            Some(r) => r,
            None => (0, 0),
        }
    }

    /// Whether a champion heals far more than it deals.
    pub open spec fn heals(self, c: Seq<char>) -> bool {
        ge32(self.ratios(c).1, HEAL_RATIO)
    }

    /// Whether a champion soaks much more than it deals, and is no healer.
    pub open spec fn tanks(self, c: Seq<char>) -> bool {
        ge32(self.ratios(c).0, TANK_RATIO) && gt32(TANK_HEAL, self.ratios(c).1)
    }

    /// Whether a champion soaks more than it deals, and is no healer.
    pub open spec fn fronts(self, c: Seq<char>) -> bool {
        ge32(self.ratios(c).0, FRONT_RATIO) && gt32(FRONT_HEAL, self.ratios(c).1)
    }

    /// The glyph of a champion's role; empty where its ratios are not known.
    pub open spec fn glyph(self, c: Seq<char>) -> Seq<char> {
        if lookup(self.role, c) is None {
            ""@
        } else if self.heals(c) {
            "힐"@
        } else if self.tanks(c) {
            "탱"@
        } else if self.fronts(c) {
            "브"@
        } else {
            "딜"@
        }
    }

    /// The lane that a champion plays most.
    pub open spec fn primary_of(self, c: Seq<char>) -> Option<u8> {
        lookup(self.primary, c)
    }

    /// The lanes that a champion plays.
    pub open spec fn lanes_of(self, c: Seq<char>) -> Seq<u8> {
        match lookup(self.plays, c) {
            Some(v) => v,
            None => Seq::empty(),
        }
    }

    /// How many lanes a champion plays, in eight bits; one where it is not known.
    pub open spec fn lane_count(self, c: Seq<char>) -> nat {
        match lookup(self.plays, c) {
            Some(v) => v.len() % 256,
            None => 1,
        }
    }

    /// How far the statistics are trusted, in two-hundredths.
    pub open spec fn trust(self) -> nat {
        if self.matches < FULL_CONF_MATCHES {
            self.matches
        } else {
            FULL_CONF_MATCHES as nat
        }
    }
}

impl Tables {
    /// How many champions have a winrate.
    pub fn len(&self) -> (r: usize)
        ensures
            r == self@.delta.len(),
    {
        self.champ_delta.len()
    }

    /// The matches behind the statistics.
    pub fn match_count(&self) -> (r: usize)
        ensures
            r == self@.matches,
    {
        self.matches
    }

    /// The save that the statistics come from.
    pub fn save(&self) -> (r: &str)
        ensures
            r@ == self@.save_name,
    {
        self.save_name.as_str()
    }

    /// The champions that the save offers.
    pub fn offers(&self) -> (r: &TextSet)
        ensures
            r@ == self@.pool,
    {
        &self.pool
    }

    /// How far the statistics are trusted, in two-hundredths: none of them without matches,
    /// all of them from 200 matches on.
    pub fn confidence(&self) -> (r: usize)
        ensures
            r == self@.trust(),
            r <= FULL_CONF_MATCHES,
    {
        if self.matches < FULL_CONF_MATCHES {
            self.matches
        } else {
            FULL_CONF_MATCHES
        }
    }

    /// A champion's winrate delta.
    pub fn delta(&self, c: &str) -> (r: u32)
        ensures
            r == self@.delta_of(c@),
    {
        read_bits(&self.champ_delta, c)
    }

    /// The games behind a champion's delta.
    pub fn games(&self, c: &str) -> (r: u32)
        ensures
            r == self@.games_of(c@),
    {
        match self.champ_games.get(c) {
            Some(g) => *g,
            None => u32::MAX,
        }
    }

    /// Whether a champion's winrate is too thin to trust.
    pub fn low_conf(&self, c: &str) -> (r: bool)
        ensures
            r == (self@.games_of(c@) < LOW_CONF_GAMES),
    {
        self.games(c) < LOW_CONF_GAMES
    }

    fn cell(&self, c: &str, lane: u8) -> (r: Option<(u32, u32)>)
        ensures
            r == self@.cell(c@, lane),
    {
        let said = match self.champ_pos.get(c) {
            Some(v) => v,
            None => return None,
        };
        assert(said.deep_view() =~= said@);
        let mut i: usize = said.len();
        assert(said@.take(i as int) == said@);
        while i > 0
            invariant
                i <= said@.len(),
                self@.cell(c@, lane) == last_cell(said@, lane),
                last_cell(said@, lane) == last_cell(said@.take(i as int), lane),
            decreases i,
        {
            assert(said@.take(i as int).drop_last() == said@.take(i - 1));
            if said[i - 1].0 == lane {
                return Some(said[i - 1].1);
            }
            i -= 1;
        }
        None
    }

    /// The delta of a champion on a lane, or its delta overall where the lane is not known.
    pub fn delta_for(&self, c: &str, lane: Option<u8>) -> (r: u32)
        ensures
            r == self@.delta_on(c@, lane),
    {
        if let Some(l) = lane {
            if let Some((d, _)) = self.cell(c, l) {
                return d;
            }
        }
        self.delta(c)
    }

    /// The games behind the delta on a lane.
    pub fn games_for(&self, c: &str, lane: Option<u8>) -> (r: u32)
        ensures
            r == self@.games_on(c@, lane),
    {
        if let Some(l) = lane {
            if let Some((_, g)) = self.cell(c, l) {
                return g;
            }
        }
        self.games(c)
    }

    /// Whether the winrate on a lane is too thin to trust.
    pub fn low_conf_for(&self, c: &str, lane: Option<u8>) -> (r: bool)
        ensures
            r == (self@.games_on(c@, lane) < LOW_CONF_GAMES),
    {
        self.games_for(c, lane) < LOW_CONF_GAMES
    }

    /// What the table of synergies says of `a` beside `b`.
    pub fn syn(&self, a: &str, b: &str) -> (r: u32)
        ensures
            r == pair(self@.synergy, a@, b@),
    {
        match self.synergy.get(a) {
            Some(inner) => read_bits(inner, b),
            None => 0,
        }
    }

    /// What the table of counters says of `a` against `b`.
    pub fn cnt(&self, a: &str, b: &str) -> (r: u32)
        ensures
            r == pair(self@.counter, a@, b@),
    {
        match self.counter.get(a) {
            Some(inner) => read_bits(inner, b),
            None => 0,
        }
    }

    /// A champion's ban rate.
    pub fn ban(&self, c: &str) -> (r: u32)
        ensures
            r == reading(self@.banrate, c@),
    {
        read_bits(&self.banrate, c)
    }

    /// Whether a champion's kit has a tag.
    pub fn has_tag(&self, c: &str, tag: &str) -> (r: bool)
        ensures
            r == self@.tagged(c@, tag@),
    {
        match self.taxon.get(c) {
            Some(t) => has_member(&t.tags, tag),
            None => false,
        }
    }

    /// The damage that a champion deals.
    pub fn damage(&self, c: &str) -> (r: &str)
        ensures
            r@ == self@.damage_of(c@),
    {
        match self.taxon.get(c) {
            Some(t) => t.damage.as_str(),
            None => "AD",
        }
    }

    /// The category of a champion.
    pub fn category(&self, c: &str) -> (r: &str)
        ensures
            r@ == self@.category_of(c@),
    {
        match self.taxon.get(c) {
            Some(t) => t.category.as_str(),
            None => "",
        }
    }

    /// Tanking and healing of a champion, each divided by its dealing.
    pub fn role(&self, c: &str) -> (r: (u32, u32))
        ensures
            r == self@.ratios(c@),
    {
        match self.role.get(c) {
            Some(r) => *r,
            None => (0, 0),
        }
    }

    /// Whether a champion heals far more than it deals.
    pub fn is_healer_data(&self, c: &str) -> (r: bool)
        ensures
            r == self@.heals(c@),
    {
        at_least32(self.role(c).1, HEAL_RATIO)
    }

    /// Whether a champion soaks much more than it deals, and is no healer.
    pub fn is_tank_data(&self, c: &str) -> (r: bool)
        ensures
            r == self@.tanks(c@),
    {
        let (t, h) = self.role(c);
        at_least32(t, TANK_RATIO) && above32(TANK_HEAL, h)
    }

    /// Whether a champion soaks more than it deals, and is no healer.
    pub fn is_frontline_data(&self, c: &str) -> (r: bool)
        ensures
            r == self@.fronts(c@),
    {
        let (t, h) = self.role(c);
        at_least32(t, FRONT_RATIO) && above32(FRONT_HEAL, h)
    }

    /// The tier (S, A, B, C or D) of a champion, on the lane where one is given, or overall;
    /// empty where it has no winrate there.
    pub fn tier_of(&self, c: &str, lane: Option<u8>) -> (r: &'static str)
        ensures
            r@ == self@.tier(c@, lane),
    {
        let known = match lane {
            Some(l) => self.cell(c, l).is_some(),
            None => self.champ_delta.get(c).is_some(),
        };
        if !known {
            return "";
        }
        let d = self.delta_for(c, lane);
        if at_least32(d, TIER_S) {
            "S"
        } else if at_least32(d, TIER_A) {
            "A"
        } else if at_least32(d, TIER_B) {
            "B"
        } else if at_least32(d, TIER_C) {
            "C"
        } else {
            "D"
        }
    }

    /// The glyph of a champion's role: healer, tank, bruiser or carry; empty where its ratios
    /// are not known.
    pub fn role_tag(&self, c: &str) -> (r: &'static str)
        ensures
            r@ == self@.glyph(c@),
    {
        if self.role.get(c).is_none() {
            ""
        } else if self.is_healer_data(c) {
            "힐"
        } else if self.is_tank_data(c) {
            "탱"
        } else if self.is_frontline_data(c) {
            "브"
        } else {
            "딜"
        }
    }

    /// Whether the lanes of any champion are known.
    pub fn has_pos(&self) -> (r: bool)
        ensures
            r == (self@.plays.len() > 0),
    {
        self.pos_play.len() > 0
    }

    /// The lane that a champion plays most.
    pub fn primary(&self, c: &str) -> (r: Option<u8>)
        ensures
            r == self@.primary_of(c@),
    {
        match self.pos_primary.get(c) {
            Some(l) => Some(*l),
            None => None,
        }
    }

    /// The lanes that a champion plays, the one it was said to play first in front.
    pub fn lanes(&self, c: &str) -> (r: Vec<u8>)
        ensures
            r@ == self@.lanes_of(c@),
    {
        match self.pos_play.get(c) {
            Some(v) => {
                assert(v.deep_view() =~= v@);
                v.clone()
            },
            None => Vec::new(),
        }
    }

    /// Whether a champion plays a lane.
    pub fn plays(&self, c: &str, lane: u8) -> (r: bool)
        ensures
            r == self@.lanes_of(c@).contains(lane),
    {
        let v = self.lanes(c);
        let mut i: usize = 0;
        while i < v.len()
            invariant
                i <= v@.len(),
                v@ == self@.lanes_of(c@),
                forall|j: int| 0 <= j < i ==> v@[j] != lane,
            decreases v@.len() - i,
        {
            if v[i] == lane {
                return true;
            }
            i += 1;
        }
        false
    }

    /// How many lanes a champion plays, in eight bits; one where it is not known.
    pub fn flex(&self, c: &str) -> (r: u8)
        ensures
            r == self@.lane_count(c@),
    {
        match self.pos_play.get(c) {
            Some(v) => {
                assert(v.deep_view() =~= v@);
                (v.len() % 256) as u8
            },
            None => 1,
        }
    }
}

/// Neither tanks nor fronts are healers, and tanks are fronts.
pub proof fn law_fronts_are_no_healers(s: Stats, c: Seq<char>)
    ensures
        s.tanks(c) ==> s.fronts(c),
        s.fronts(c) ==> !s.heals(c),
        lookup(s.role, c) is None ==> !s.heals(c) && !s.tanks(c) && !s.fronts(c),
{
}

} // verus!
