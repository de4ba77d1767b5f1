//! The weights that are written from a tally, as JSON and as rows between tabs.
//!
//! Winrates and their deltas are computed by the caller, who hands in their texts under the
//! records that they are computed from.

use vstd::prelude::*;

use crate::champs::{CHAMPS, CHAMP_COUNT};
#[allow(unused_imports)]
use crate::champs::champ_id;
use crate::numeral::{number_or_0, to_decimal};
#[allow(unused_imports)]
use crate::numeral::{decimal, is_digit, law_decimal_reads_back, number_or_zero};
#[allow(unused_imports)]
use crate::scan::escaped;
use crate::scan::json_escape;
use crate::tables::Taxon;
#[allow(unused_imports)]
use crate::tables::Kit;
use crate::tally::{Aggregator, ChampAgg, WL};
#[allow(unused_imports)]
use crate::tally::{ChampRecord, Record, Tally};
use crate::text::{join, lines, split_on, to_lines};
#[allow(unused_imports)]
use crate::text::{char_index, joined, lemma_char_index, line_seq, pieces, with_feeds};
use crate::textmap::TextMap;
#[allow(unused_imports)]
use crate::textmap::{lookup, put};

verus! {

/// The text under which a record's winrates are found: its wins, a slash and its games.
pub open spec fn record_key(r: Record) -> Seq<char> {
    decimal(r.wins) + "/"@ + decimal(r.games)
}

/// The text under which a record's winrates are found.
pub fn key_of(w: &WL) -> (r: String)
    ensures
        r@ == record_key(w.deep_view()),
{
    let mut r = to_decimal(w.wins as u64);
    r.append("/");
    r.append(to_decimal(w.games as u64).as_str());
    r
}

/// Different records have different keys.
pub proof fn law_record_keys_differ(a: Record, b: Record)
    ensures
        record_key(a) == record_key(b) ==> a == b,
{
    reveal_strlit("/");
    lemma_key_parts(a);
    lemma_key_parts(b);
    if record_key(a) == record_key(b) {
        law_decimal_reads_back(a.wins, if a.wins > b.wins { a.wins } else { b.wins });
        law_decimal_reads_back(b.wins, if a.wins > b.wins { a.wins } else { b.wins });
        law_decimal_reads_back(a.games, if a.games > b.games { a.games } else { b.games });
        law_decimal_reads_back(b.games, if a.games > b.games { a.games } else { b.games });
    }
}

proof fn lemma_key_parts(r: Record)
    ensures
        ({
            let k = record_key(r);
            let i = char_index(k, '/');
            k.take(i) == decimal(r.wins) && k.skip(i + 1) == decimal(r.games)
        }),
{
    reveal_strlit("/");
    let k = record_key(r);
    let d = decimal(r.wins);
    crate::numeral::lemma_decimal_digits(r.wins);
    assert forall|j: int| 0 <= j < d.len() implies k[j] != '/' by {
        assert(is_digit(d[j]));
    }
    lemma_char_index(k, '/', d.len() as int);
    assert(k.take(d.len() as int) =~= d);
    assert(k.skip(d.len() as int + 1) =~= decimal(r.games));
}

/// The texts of winrates and of their deltas from one half, under the keys of the records.
pub struct Rates {
    /// The winrate as it is.
    pub raw: TextMap<String>,
    /// The delta of a winrate on a lane.
    pub lane: TextMap<String>,
    /// The delta of a winrate all in all.
    pub overall: TextMap<String>,
    /// The delta of a pair's winrate.
    pub pair: TextMap<String>,
}

/// The text under a record's key, the empty one where there is none.
pub open spec fn rate_of(m: Seq<(Seq<char>, Seq<char>)>, r: Record) -> Seq<char> {
    match lookup(m, record_key(r)) {
        Some(t) => t,
        None => Seq::empty(),
    }
}

fn rate(m: &TextMap<String>, w: &WL) -> (r: String)
    ensures
        r@ == rate_of(m@, w.deep_view()),
{
    match m.get(key_of(w).as_str()) {
        Some(t) => t.clone(),
        None => String::new(),
    }
}

/// The records of some lanes or pairs.
pub open spec fn records(m: Seq<(Seq<char>, Record)>) -> Seq<Record> {
    Seq::new(m.len(), |i: int| m[i].1)
}

/// The records of the first `n` champions, all in all and by lane.
pub open spec fn champ_records(m: Seq<(Seq<char>, ChampRecord)>, n: nat) -> Seq<Record>
    decreases n,
{
    if n == 0 {
        Seq::empty()
    } else {
        champ_records(m, (n - 1) as nat).push(m[n - 1].1.overall) + records(m[n - 1].1.by_pos)
    }
}

/// The records of the first `n` champions' pairs.
pub open spec fn pair_records(m: Seq<(Seq<char>, Seq<(Seq<char>, Record)>)>, n: nat) -> Seq<Record>
    decreases n,
{
    if n == 0 {
        Seq::empty()
    } else {
        pair_records(m, (n - 1) as nat) + records(m[n - 1].1)
    }
}

fn push_records(r: &mut Vec<WL>, m: &TextMap<WL>)
    ensures
        final(r).deep_view() == old(r).deep_view() + records(m@),
{
    let ghost before = r.deep_view();
    let mut i: usize = 0;
    assert(before + records(m@).take(0) =~= before);
    while i < m.len()
        invariant
            i <= m@.len(),
            r.deep_view() == before + records(m@).take(i as int),
        decreases m@.len() - i,
    {
        let ghost sofar = r.deep_view();
        let w = *m.value(i);
        r.push(w);
        assert(r.deep_view() =~= sofar.push(w.deep_view()));
        assert(r.deep_view() =~= before + records(m@).take(i + 1));
        i += 1;
    }
    assert(records(m@).take(i as int) == records(m@));
}

fn push_pairs(r: &mut Vec<WL>, m: &TextMap<TextMap<WL>>)
    ensures
        final(r).deep_view() == old(r).deep_view() + pair_records(m@, m@.len()),
{
    let ghost before = r.deep_view();
    let mut i: usize = 0;
    assert(before + pair_records(m@, 0) =~= before);
    while i < m.len()
        invariant
            i <= m@.len(),
            r.deep_view() == before + pair_records(m@, i as nat),
        decreases m@.len() - i,
    {
        push_records(r, m.value(i));
        assert(r.deep_view() =~= before + pair_records(m@, (i + 1) as nat));
        i += 1;
    }
}

/// All records of a tally.
pub open spec fn all_records(t: Tally) -> Seq<Record> {
    champ_records(t.champs, t.champs.len()) + pair_records(t.synergy, t.synergy.len())
        + pair_records(t.counter, t.counter.len())
}

/// All records of a tally: those whose winrates its weights need.
pub fn tallied(agg: &Aggregator) -> (r: Vec<WL>)
    ensures
        r.deep_view() == all_records(agg@),
{
    let mut r: Vec<WL> = Vec::new();
    let ghost m = agg.champs@;
    let mut i: usize = 0;
    assert(r.deep_view() =~= champ_records(m, 0));
    while i < agg.champs.len()
        invariant
            i <= m.len(),
            m == agg.champs@,
            r.deep_view() == champ_records(m, i as nat),
        decreases m.len() - i,
    {
        let c = agg.champs.value(i);
        let ghost sofar = r.deep_view();
        r.push(c.overall);
        assert(r.deep_view() =~= sofar.push(c.overall.deep_view()));
        push_records(&mut r, &c.by_pos);
        i += 1;
    }
    push_pairs(&mut r, &agg.synergy);
    push_pairs(&mut r, &agg.counter);
    r
}

/// Of the first `n` lanes the last with the most games.
pub open spec fn main_lane(m: Seq<(Seq<char>, Record)>, n: nat) -> Option<int>
    decreases n,
{
    if n == 0 {
        None
    } else {
        match main_lane(m, (n - 1) as nat) {
            Some(i) if m[i].1.games > m[n - 1].1.games => Some(i),
            _ => Some(n - 1),
        }
    }
}

/// The lane with the most games: no lane has more, and no later one as many.
pub proof fn law_main_lane(m: Seq<(Seq<char>, Record)>, n: nat)
    requires
        n <= m.len(),
    ensures
        match main_lane(m, n) {
            Some(i) => 0 <= i < n && (forall|j: int|
                0 <= j < n ==> (#[trigger] m[j]).1.games <= m[i].1.games && (j > i ==> m[j].1.games
                    < m[i].1.games)),
            None => n == 0,
        },
    decreases n,
{
    if n > 0 {
        law_main_lane(m, (n - 1) as nat);
    }
}

/// The games that a lane needs for a champion to be judged by it.
pub const MIN_LANE_GAMES: u32 = 3;

/// The lane by which a champion is judged: that with the most games, where they are enough.
pub open spec fn basis_lane(c: ChampRecord) -> Option<int> {
    match main_lane(c.by_pos, c.by_pos.len()) {
        Some(i) if c.by_pos[i].1.games >= MIN_LANE_GAMES => Some(i),
        _ => None,
    }
}

/// What `Rates` hold.
pub struct RateTexts {
    pub raw: Seq<(Seq<char>, Seq<char>)>,
    pub lane: Seq<(Seq<char>, Seq<char>)>,
    pub overall: Seq<(Seq<char>, Seq<char>)>,
    pub pair: Seq<(Seq<char>, Seq<char>)>,
}

impl View for Rates {
    type V = RateTexts;

    open spec fn view(&self) -> RateTexts {
        RateTexts {
            raw: self.raw@,
            lane: self.lane@,
            overall: self.overall@,
            pair: self.pair@,
        }
    }
}

/// The delta by which a champion is judged.
pub open spec fn champ_delta(c: ChampRecord, rates: RateTexts) -> Seq<char> {
    match basis_lane(c) {
        Some(i) => rate_of(rates.lane, c.by_pos[i].1),
        None => rate_of(rates.overall, c.overall),
    }
}

fn find_main_lane(m: &TextMap<WL>) -> (r: Option<usize>)
    ensures
        match r {
            Some(i) => i < m@.len() && main_lane(m@, m@.len()) == Some(i as int),
            None => main_lane(m@, m@.len()) is None,
        },
{
    let mut best: Option<usize> = None;
    let mut i: usize = 0;
    while i < m.len()
        invariant
            i <= m@.len(),
            match best {
                Some(k) => k < i && main_lane(m@, i as nat) == Some(k as int),
                None => main_lane(m@, i as nat) is None,
            },
        decreases m@.len() - i,
    {
        let stays = match best {
            Some(k) => m.value(k).games > m.value(i).games,
            None => false,
        };
        if !stays {
            best = Some(i);
        }
        i += 1;
    }
    best
}

fn find_basis_lane(c: &ChampAgg) -> (r: Option<usize>)
    ensures
        match r {
            Some(i) => i < c.by_pos@.len() && basis_lane(c.deep_view()) == Some(i as int),
            None => basis_lane(c.deep_view()) is None,
        },
{
    match find_main_lane(&c.by_pos) {
        Some(i) => if c.by_pos.value(i).games >= MIN_LANE_GAMES {
            Some(i)
        } else {
            None
        },
        None => None,
    }
}

fn judged(c: &ChampAgg, rates: &Rates) -> (r: String)
    ensures
        r@ == champ_delta(c.deep_view(), rates@),
{
    match find_basis_lane(c) {
        Some(i) => rate(&rates.lane, c.by_pos.value(i)),
        None => rate(&rates.overall, &c.overall),
    }
}

/// The JSON member of a lane.
pub open spec fn lane_member(pos: Seq<char>, r: Record, rates: RateTexts) -> Seq<char> {
    "\""@ + pos + "\": { \"games\": "@ + decimal(r.games) + ", \"wins\": "@ + decimal(r.wins)
        + ", \"delta\": "@ + rate_of(rates.lane, r) + " }"@
}

/// The JSON members of some lanes.
pub open spec fn lane_members(m: Seq<(Seq<char>, Record)>, rates: RateTexts) -> Seq<Seq<char>> {
    Seq::new(m.len(), |i: int| lane_member(m[i].0, m[i].1, rates))
}

/// The JSON member of a champion.
pub open spec fn champ_member(champ: Seq<char>, c: ChampRecord, rates: RateTexts) -> Seq<char> {
    "    \""@ + escaped(champ) + "\": { \"games\": "@ + decimal(c.overall.games)
        + ", \"wins\": "@ + decimal(c.overall.wins) + ", \"winrate\": "@ + rate_of(
        rates.raw,
        c.overall,
    ) + ", \"delta\": "@ + champ_delta(c, rates) + ", \"primaryPos\": \""@ + (match main_lane(
        c.by_pos,
        c.by_pos.len(),
    ) {
        Some(i) => c.by_pos[i].0,
        None => "none"@,
    }) + "\", \"basis\": \""@ + (match basis_lane(c) {
        Some(i) => c.by_pos[i].0,
        None => "overall"@,
    }) + "\", \"positions\": {"@ + joined(lane_members(c.by_pos, rates), ", "@) + "} }"@
}

fn write_lanes(m: &TextMap<WL>, rates: &Rates) -> (r: Vec<String>)
    ensures
        r.deep_view() == lane_members(m@, rates@),
{
    let mut r: Vec<String> = Vec::new();
    let mut i: usize = 0;
    while i < m.len()
        invariant
            i <= m@.len(),
            r@.len() == i,
            forall|j: int|
                0 <= j < i ==> #[trigger] r@[j]@ == lane_member(m@[j].0, m@[j].1, rates@),
        decreases m@.len() - i,
    {
        let w = m.value(i);
        let mut t = "\"".to_owned();
        t.append(m.key(i));
        t.append("\": { \"games\": ");
        t.append(to_decimal(w.games as u64).as_str());
        t.append(", \"wins\": ");
        t.append(to_decimal(w.wins as u64).as_str());
        t.append(", \"delta\": ");
        t.append(rate(&rates.lane, w).as_str());
        t.append(" }");
        r.push(t);
        i += 1;
    }
    assert(r.deep_view() =~= lane_members(m@, rates@));
    r
}

fn write_champ(champ: &str, c: &ChampAgg, rates: &Rates) -> (r: String)
    ensures
        r@ == champ_member(champ@, c.deep_view(), rates@),
{
    let mut t = "    \"".to_owned();
    t.append(json_escape(champ).as_str());
    t.append("\": { \"games\": ");
    t.append(to_decimal(c.overall.games as u64).as_str());
    t.append(", \"wins\": ");
    t.append(to_decimal(c.overall.wins as u64).as_str());
    t.append(", \"winrate\": ");
    t.append(rate(&rates.raw, &c.overall).as_str());
    t.append(", \"delta\": ");
    t.append(judged(c, rates).as_str());
    t.append(", \"primaryPos\": \"");
    t.append(
        match find_main_lane(&c.by_pos) {
            Some(i) => c.by_pos.key(i),
            None => "none",
        },
    );
    t.append("\", \"basis\": \"");
    t.append(
        match find_basis_lane(c) {
            Some(i) => c.by_pos.key(i),
            None => "overall",
        },
    );
    t.append("\", \"positions\": {");
    let lanes = write_lanes(&c.by_pos, rates);
    t.append(join(&lanes, ", ").as_str());
    t.append("} }");
    t
}

/// The JSON members of some champions.
pub open spec fn champ_members(m: Seq<(Seq<char>, ChampRecord)>, rates: RateTexts) -> Seq<
    Seq<char>,
> {
    Seq::new(m.len(), |i: int| champ_member(m[i].0, m[i].1, rates))
}

/// The JSON member of a pair.
pub open spec fn pair_member(b: Seq<char>, r: Record, rates: RateTexts) -> Seq<char> {
    "\""@ + escaped(b) + "\": { \"games\": "@ + decimal(r.games) + ", \"delta\": "@ + rate_of(
        rates.pair,
        r,
    ) + " }"@
}

/// The JSON members of the first `n` pairs that have at least `min_pair` games.
pub open spec fn pair_members(
    m: Seq<(Seq<char>, Record)>,
    n: nat,
    min_pair: u32,
    rates: RateTexts,
) -> Seq<Seq<char>>
    decreases n,
{
    if n == 0 {
        Seq::empty()
    } else {
        let front = pair_members(m, (n - 1) as nat, min_pair, rates);
        if m[n - 1].1.games >= min_pair {
            front.push(pair_member(m[n - 1].0, m[n - 1].1, rates))
        } else {
            front
        }
    }
}

/// The JSON members of the first `n` champions that have a pair with enough games.
pub open spec fn relation_members(
    m: Seq<(Seq<char>, Seq<(Seq<char>, Record)>)>,
    n: nat,
    min_pair: u32,
    rates: RateTexts,
) -> Seq<Seq<char>>
    decreases n,
{
    if n == 0 {
        Seq::empty()
    } else {
        let front = relation_members(m, (n - 1) as nat, min_pair, rates);
        let row = m[n - 1].1;
        let pairs = pair_members(row, row.len(), min_pair, rates);
        if pairs.len() == 0 {
            front
        } else {
            front.push("    \""@ + escaped(m[n - 1].0) + "\": {"@ + joined(pairs, ", "@) + "}"@)
        }
    }
}

fn write_pairs(m: &TextMap<WL>, min_pair: u32, rates: &Rates) -> (r: Vec<String>)
    ensures
        r.deep_view() == pair_members(m@, m@.len(), min_pair, rates@),
{
    let mut r: Vec<String> = Vec::new();
    let mut i: usize = 0;
    assert(r.deep_view() =~= Seq::empty());
    while i < m.len()
        invariant
            i <= m@.len(),
            r.deep_view() == pair_members(m@, i as nat, min_pair, rates@),
        decreases m@.len() - i,
    {
        let ghost sofar = r.deep_view();
        let w = m.value(i);
        if w.games >= min_pair {
            let mut t = "\"".to_owned();
            t.append(json_escape(m.key(i)).as_str());
            t.append("\": { \"games\": ");
            t.append(to_decimal(w.games as u64).as_str());
            t.append(", \"delta\": ");
            t.append(rate(&rates.pair, w).as_str());
            t.append(" }");
            r.push(t);
            assert(r.deep_view() =~= sofar.push(t@));
        }
        i += 1;
    }
    r
}

/// A relation between champions as a member of the JSON object.
pub open spec fn relation_json(
    name: Seq<char>,
    m: Seq<(Seq<char>, Seq<(Seq<char>, Record)>)>,
    last: bool,
    min_pair: u32,
    rates: RateTexts,
) -> Seq<char> {
    "  \""@ + name + "\": {\n"@ + joined(
        relation_members(m, m.len(), min_pair, rates),
        ",\n"@,
    ) + (if last {
        "\n  }\n"@
    } else {
        "\n  },\n"@
    })
}

fn write_relation(
    name: &str,
    m: &TextMap<TextMap<WL>>,
    last: bool,
    min_pair: u32,
    rates: &Rates,
) -> (r: String)
    ensures
        r@ == relation_json(name@, m@, last, min_pair, rates@),
{
    let mut rows: Vec<String> = Vec::new();
    let mut i: usize = 0;
    assert(rows.deep_view() =~= Seq::empty());
    while i < m.len()
        invariant
            i <= m@.len(),
            rows.deep_view() == relation_members(m@, i as nat, min_pair, rates@),
        decreases m@.len() - i,
    {
        let ghost sofar = rows.deep_view();
        let pairs = write_pairs(m.value(i), min_pair, rates);
        assert(pairs.deep_view().len() == pairs@.len());
        if pairs.len() > 0 {
            let mut t = "    \"".to_owned();
            t.append(json_escape(m.key(i)).as_str());
            t.append("\": {");
            t.append(join(&pairs, ", ").as_str());
            t.append("}");
            rows.push(t);
            assert(rows.deep_view() =~= sofar.push(t@));
        }
        i += 1;
    }
    let mut t = "  \"".to_owned();
    t.append(name);
    t.append("\": {\n");
    t.append(join(&rows, ",\n").as_str());
    t.append(
        if last {
            "\n  }\n"
        } else {
            "\n  },\n"
        },
    );
    t
}

/// How many games the weights come from, and what a pair needs to be written.
pub struct Origin {
    pub solo: usize,
    pub replay: usize,
    pub min_pair: u32,
}

/// The ids of the champions between quotation marks.
pub open spec fn quoted_ids() -> Seq<Seq<char>> {
    Seq::new(CHAMP_COUNT as nat, |i: int| "\""@ + escaped(champ_id(i)) + "\""@)
}

/// The weights of a tally as JSON.
pub open spec fn weights_json(t: Tally, o: Origin, rates: RateTexts) -> Seq<char> {
    "{\n  \"meta\": { \"source\": \"save_probe\", \"matches\": "@ + decimal(t.matches)
        + ", \"soloMatches\": "@ + decimal(o.solo as nat) + ", \"replayMatches\": "@ + decimal(
        o.replay as nat,
    ) + ", \"kPos\": 8, \"kOverall\": 10, \"kPair\": 12, \"minPair\": "@ + decimal(
        o.min_pair as nat,
    ) + " },\n  \"championOrder\": ["@ + joined(quoted_ids(), ", "@)
        + "],\n  \"champions\": {\n"@ + joined(champ_members(t.champs, rates), ",\n"@)
        + "\n  },\n"@ + relation_json("synergy"@, t.synergy, false, o.min_pair, rates)
        + relation_json("counter"@, t.counter, true, o.min_pair, rates) + "}\n"@
}

fn write_ids() -> (r: Vec<String>)
    ensures
        r.deep_view() == quoted_ids(),
{
    let mut r: Vec<String> = Vec::new();
    let mut i: usize = 0;
    while i < CHAMP_COUNT
        invariant
            i <= CHAMP_COUNT,
            r@.len() == i,
            forall|j: int|
                0 <= j < i ==> #[trigger] r@[j]@ == "\""@ + escaped(champ_id(j)) + "\""@,
        decreases CHAMP_COUNT - i,
    {
        let mut t = "\"".to_owned();
        t.append(json_escape(CHAMPS[i].0).as_str());
        t.append("\"");
        r.push(t);
        i += 1;
    }
    assert(r.deep_view() =~= quoted_ids());
    r
}

/// The weights of a tally as JSON.
pub fn to_json(agg: &Aggregator, o: &Origin, rates: &Rates) -> (r: String)
    ensures
        r@ == weights_json(agg@, *o, rates@),
{
    let mut champs: Vec<String> = Vec::new();
    let mut i: usize = 0;
    while i < agg.champs.len()
        invariant
            i <= agg.champs@.len(),
            champs@.len() == i,
            forall|j: int|
                0 <= j < i ==> #[trigger] champs@[j]@ == champ_member(
                    agg.champs@[j].0,
                    agg.champs@[j].1,
                    rates@,
                ),
        decreases agg.champs@.len() - i,
    {
        champs.push(write_champ(agg.champs.key(i), agg.champs.value(i), rates));
        i += 1;
    }
    assert(champs.deep_view() =~= champ_members(agg@.champs, rates@));
    let mut t = "{\n  \"meta\": { \"source\": \"save_probe\", \"matches\": ".to_owned();
    t.append(to_decimal(agg.matches as u64).as_str());
    t.append(", \"soloMatches\": ");
    t.append(to_decimal(o.solo as u64).as_str());
    t.append(", \"replayMatches\": ");
    t.append(to_decimal(o.replay as u64).as_str());
    t.append(", \"kPos\": 8, \"kOverall\": 10, \"kPair\": 12, \"minPair\": ");
    t.append(to_decimal(o.min_pair as u64).as_str());
    t.append(" },\n  \"championOrder\": [");
    let ids = write_ids();
    t.append(join(&ids, ", ").as_str());
    t.append("],\n  \"champions\": {\n");
    t.append(join(&champs, ",\n").as_str());
    t.append("\n  },\n");
    t.append(write_relation("synergy", &agg.synergy, false, o.min_pair, rates).as_str());
    t.append(write_relation("counter", &agg.counter, true, o.min_pair, rates).as_str());
    t.append("}\n");
    t
}

/// The row of a champion's delta.
pub open spec fn champ_row(champ: Seq<char>, delta: Seq<char>) -> Seq<char> {
    "C\t"@ + champ + "\t"@ + delta
}

/// The row of a pair's delta, `tag` naming the relation.
pub open spec fn pair_row(tag: Seq<char>, a: Seq<char>, b: Seq<char>, delta: Seq<char>) -> Seq<char> {
    tag + "\t"@ + a + "\t"@ + b + "\t"@ + delta
}

/// The row of a champion's kit.
pub open spec fn kit_row(champ: Seq<char>, k: Kit) -> Seq<char> {
    "T\t"@ + champ + "\t"@ + k.category + "\t"@ + k.damage + "\t"@ + joined(k.tags, ","@)
}

/// The row of a champion's ban rate.
pub open spec fn ban_row(champ: Seq<char>, rate: Seq<char>) -> Seq<char> {
    "B\t"@ + champ + "\t"@ + rate
}

/// The rows of some champions' deltas.
pub open spec fn champ_rows(m: Seq<(Seq<char>, ChampRecord)>, rates: RateTexts) -> Seq<Seq<char>> {
    Seq::new(m.len(), |i: int| champ_row(m[i].0, champ_delta(m[i].1, rates)))
}

/// The rows of the first `n` pairs of a champion that have at least `min_pair` games.
pub open spec fn pair_rows(
    tag: Seq<char>,
    a: Seq<char>,
    m: Seq<(Seq<char>, Record)>,
    n: nat,
    min_pair: u32,
    rates: RateTexts,
) -> Seq<Seq<char>>
    decreases n,
{
    if n == 0 {
        Seq::empty()
    } else {
        let front = pair_rows(tag, a, m, (n - 1) as nat, min_pair, rates);
        if m[n - 1].1.games >= min_pair {
            front.push(pair_row(tag, a, m[n - 1].0, rate_of(rates.pair, m[n - 1].1)))
        } else {
            front
        }
    }
}

/// The rows of the first `n` champions' pairs.
pub open spec fn relation_rows(
    tag: Seq<char>,
    m: Seq<(Seq<char>, Seq<(Seq<char>, Record)>)>,
    n: nat,
    min_pair: u32,
    rates: RateTexts,
) -> Seq<Seq<char>>
    decreases n,
{
    if n == 0 {
        Seq::empty()
    } else {
        relation_rows(tag, m, (n - 1) as nat, min_pair, rates) + pair_rows(
            tag,
            m[n - 1].0,
            m[n - 1].1,
            m[n - 1].1.len(),
            min_pair,
            rates,
        )
    }
}

/// The rows of some champions' kits.
pub open spec fn kit_rows(m: Seq<(Seq<char>, Kit)>) -> Seq<Seq<char>> {
    Seq::new(m.len(), |i: int| kit_row(m[i].0, m[i].1))
}

/// The rows of some champions' ban rates.
pub open spec fn ban_rows(m: Seq<(Seq<char>, Seq<char>)>) -> Seq<Seq<char>> {
    Seq::new(m.len(), |i: int| ban_row(m[i].0, m[i].1))
}

/// The rows of the weights of a tally: a comment, then champions, pairs in one team, pairs
/// that face each other, kits and ban rates.
pub open spec fn weight_rows(
    t: Tally,
    kits: Seq<(Seq<char>, Kit)>,
    bans: Seq<(Seq<char>, Seq<char>)>,
    min_pair: u32,
    rates: RateTexts,
) -> Seq<Seq<char>> {
    seq!["# draft_weights TSV  C=champ S=synergy K=counter"@] + champ_rows(t.champs, rates)
        + relation_rows("S"@, t.synergy, t.synergy.len(), min_pair, rates) + relation_rows(
        "K"@,
        t.counter,
        t.counter.len(),
        min_pair,
        rates,
    ) + kit_rows(kits) + ban_rows(bans)
}

fn push_relation_rows(
    rows: &mut Vec<String>,
    tag: &str,
    m: &TextMap<TextMap<WL>>,
    min_pair: u32,
    rates: &Rates,
)
    ensures
        final(rows).deep_view() == old(rows).deep_view() + relation_rows(
            tag@,
            m@,
            m@.len(),
            min_pair,
            rates@,
        ),
{
    let ghost before = rows.deep_view();
    let mut i: usize = 0;
    assert(before + relation_rows(tag@, m@, 0, min_pair, rates@) =~= before);
    while i < m.len()
        invariant
            i <= m@.len(),
            rows.deep_view() == before + relation_rows(tag@, m@, i as nat, min_pair, rates@),
        decreases m@.len() - i,
    {
        let ghost front = rows.deep_view();
        let row = m.value(i);
        let ghost a = m@[i as int].0;
        let mut j: usize = 0;
        assert(front + pair_rows(tag@, a, row@, 0, min_pair, rates@) =~= front);
        while j < row.len()
            invariant
                i < m@.len(),
                j <= row@.len(),
                a == m@[i as int].0,
                rows.deep_view() == front + pair_rows(
                    tag@,
                    a,
                    row@,
                    j as nat,
                    min_pair,
                    rates@,
                ),
            decreases row@.len() - j,
        {
            let ghost sofar = rows.deep_view();
            let w = row.value(j);
            if w.games >= min_pair {
                let mut t = tag.to_owned();
                t.append("\t");
                t.append(m.key(i));
                t.append("\t");
                t.append(row.key(j));
                t.append("\t");
                t.append(rate(&rates.pair, w).as_str());
                rows.push(t);
                assert(rows.deep_view() =~= sofar.push(t@));
                assert(rows.deep_view() =~= front + pair_rows(
                    tag@,
                    a,
                    row@,
                    (j + 1) as nat,
                    min_pair,
                    rates@,
                ));
            }
            j += 1;
        }
        assert(rows.deep_view() =~= before + relation_rows(
            tag@,
            m@,
            (i + 1) as nat,
            min_pair,
            rates@,
        ));
        i += 1;
    }
}

/// The weights of a tally as rows between tabs.
pub fn to_tsv(
    agg: &Aggregator,
    kits: &TextMap<Taxon>,
    bans: &TextMap<String>,
    min_pair: u32,
    rates: &Rates,
) -> (r: String)
    ensures
        r@ == with_feeds(weight_rows(agg@, kits@, bans@, min_pair, rates@)),
{
    let mut rows: Vec<String> = Vec::new();
    rows.push("# draft_weights TSV  C=champ S=synergy K=counter".to_owned());
    let ghost head = seq!["# draft_weights TSV  C=champ S=synergy K=counter"@];
    assert(rows.deep_view() =~= head);
    let ghost all = champ_rows(agg@.champs, rates@);
    let mut i: usize = 0;
    assert(rows.deep_view() =~= head + all.take(0));
    while i < agg.champs.len()
        invariant
            i <= agg.champs@.len(),
            all == champ_rows(agg@.champs, rates@),
            rows.deep_view() == head + all.take(i as int),
        decreases agg.champs@.len() - i,
    {
        let ghost sofar = rows.deep_view();
        let mut t = "C\t".to_owned();
        t.append(agg.champs.key(i));
        t.append("\t");
        t.append(judged(agg.champs.value(i), rates).as_str());
        rows.push(t);
        assert(rows.deep_view() =~= sofar.push(t@));
        assert(t@ == all[i as int]);
        assert(rows.deep_view() =~= head + all.take(i + 1));
        i += 1;
    }
    assert(all.take(i as int) == all);
    push_relation_rows(&mut rows, "S", &agg.synergy, min_pair, rates);
    push_relation_rows(&mut rows, "K", &agg.counter, min_pair, rates);
    let ghost front = rows.deep_view();
    let mut i: usize = 0;
    assert(front =~= front + kit_rows(kits@).take(0));
    while i < kits.len()
        invariant
            i <= kits@.len(),
            rows.deep_view() == front + kit_rows(kits@).take(i as int),
        decreases kits@.len() - i,
    {
        let ghost sofar = rows.deep_view();
        let k = kits.value(i);
        let mut t = "T\t".to_owned();
        t.append(kits.key(i));
        t.append("\t");
        t.append(k.category.as_str());
        t.append("\t");
        t.append(k.damage.as_str());
        t.append("\t");
        t.append(join(&k.tags, ",").as_str());
        rows.push(t);
        assert(rows.deep_view() =~= sofar.push(t@));
        assert(t@ == kit_rows(kits@)[i as int]);
        assert(rows.deep_view() =~= front + kit_rows(kits@).take(i + 1));
        i += 1;
    }
    assert(kit_rows(kits@).take(i as int) == kit_rows(kits@));
    let ghost front = rows.deep_view();
    let mut i: usize = 0;
    assert(front =~= front + ban_rows(bans@).take(0));
    while i < bans.len()
        invariant
            i <= bans@.len(),
            rows.deep_view() == front + ban_rows(bans@).take(i as int),
        decreases bans@.len() - i,
    {
        let ghost sofar = rows.deep_view();
        let mut t = "B\t".to_owned();
        t.append(bans.key(i));
        t.append("\t");
        t.append(bans.value(i).as_str());
        rows.push(t);
        assert(rows.deep_view() =~= sofar.push(t@));
        assert(t@ == ban_rows(bans@)[i as int]);
        assert(rows.deep_view() =~= front + ban_rows(bans@).take(i + 1));
        i += 1;
    }
    assert(ban_rows(bans@).take(i as int) == ban_rows(bans@));
    to_lines(&rows)
}

/// Bans of champions, and the matches that they are counted over.
pub struct Bans {
    pub bans: TextMap<u32>,
    pub total: u32,
}

/// What `Bans` hold.
pub struct BanCounts {
    pub bans: Seq<(Seq<char>, u32)>,
    pub total: nat,
}

impl View for Bans {
    type V = BanCounts;

    open spec fn view(&self) -> BanCounts {
        BanCounts { bans: self.bans@, total: self.total as nat }
    }
}

/// The counts after one more line of patch statistics: the total is the first that is not 0,
/// the bans of a champion are the most that one of its lines says.
pub open spec fn after_ban_line(c: BanCounts, line: Seq<char>) -> BanCounts {
    let f = pieces(line, '\t');
    if f.len() < 5 {
        c
    } else {
        let had = match lookup(c.bans, f[2]) {
            Some(b) => b,
            None => 0,
        };
        let said = number_or_zero(f[4], u32::MAX as nat) as u32;
        BanCounts {
            total: if c.total == 0 {
                number_or_zero(f[1], u32::MAX as nat)
            } else {
                c.total
            },
            bans: put(
                c.bans,
                f[2],
                if had >= said {
                    had
                } else {
                    said
                },
            ),
        }
    }
}

/// The counts of some lines of patch statistics, the first of which is their heading.
pub open spec fn ban_counts(lines: Seq<Seq<char>>) -> BanCounts
    decreases lines.len(),
{
    if lines.len() <= 1 {
        BanCounts { bans: Seq::empty(), total: 0 }
    } else {
        after_ban_line(ban_counts(lines.drop_last()), lines.last())
    }
}

/// The bans from which ban rates are computed: those of patch statistics that say how many
/// matches there were.
pub open spec fn ban_basis(tsv: Seq<char>) -> BanCounts {
    let c = ban_counts(line_seq(tsv));
    if c.total > 0 {
        c
    } else {
        BanCounts { bans: Seq::empty(), total: 0 }
    }
}

/// The bans from which ban rates are computed.
pub fn parse_banrate(tsv: &str) -> (r: Bans)
    ensures
        r@ == ban_basis(tsv@),
{
    let ls = lines(tsv);
    let ghost all = line_seq(tsv@);
    let mut bans: TextMap<u32> = TextMap::new();
    let mut total: u32 = 0;
    let mut i: usize = 1;
    if ls.len() == 0 {
        assert(all.len() == 0);
        return Bans { bans, total };
    }
    assert(all.len() > 0);
    while i < ls.len()
        invariant
            1 <= i <= ls@.len(),
            ls.deep_view() == all,
            ban_counts(all.take(i as int)) == (BanCounts { bans: bans@, total: total as nat }),
        decreases ls@.len() - i,
    {
        assert(all[i as int] == ls@[i as int]@);
        assert(all.take(i + 1).drop_last() == all.take(i as int));
        let f = split_on(ls[i].as_str(), '\t');
        let ghost d = f.deep_view();
        assert(forall|j: int| 0 <= j < d.len() ==> #[trigger] d[j] == f@[j]@);
        i += 1;
        if f.len() >= 5 {
            if total == 0 {
                total = number_or_0(f[1].as_str(), u32::MAX as u64) as u32;
            }
            let had: u32 = match bans.get(f[2].as_str()) {
                Some(b) => *b,
                None => 0,
            };
            let said: u32 = number_or_0(f[4].as_str(), u32::MAX as u64) as u32;
            bans.insert(
                f[2].as_str(),
                if had >= said {
                    had
                } else {
                    said
                },
            );
        }
    }
    assert(all.take(i as int) == all);
    if total > 0 {
        Bans { bans, total }
    } else {
        Bans { bans: TextMap::new(), total: 0 }
    }
}

/// A champion is judged by the lane with the most games, the last of several, where it has
/// three games there; else by all its games.
pub proof fn law_judged_by(c: ChampRecord, rates: RateTexts, i: int)
    ensures
        (forall|j: int| 0 <= j < c.by_pos.len() ==> (#[trigger] c.by_pos[j]).1.games < 3)
            ==> champ_delta(c, rates) == rate_of(rates.overall, c.overall),
        0 <= i < c.by_pos.len() && c.by_pos[i].1.games >= 3 && (forall|j: int|
            0 <= j < c.by_pos.len() ==> (#[trigger] c.by_pos[j]).1.games <= c.by_pos[i].1.games && (
            j > i ==> c.by_pos[j].1.games < c.by_pos[i].1.games)) ==> champ_delta(c, rates)
            == rate_of(rates.lane, c.by_pos[i].1),
{
    law_main_lane(c.by_pos, c.by_pos.len());
    if let Some(k) = main_lane(c.by_pos, c.by_pos.len()) {
        assert(c.by_pos[k].1.games <= c.by_pos[k].1.games);
        if 0 <= i < c.by_pos.len() {
            assert(c.by_pos[i].1.games <= c.by_pos[k].1.games);
        }
    }
}

/// A pair is written if and only if it has enough games.
pub proof fn law_pairs_with_enough_games(
    m: Seq<(Seq<char>, Record)>,
    n: nat,
    min_pair: u32,
    rates: RateTexts,
    i: int,
    k: int,
)
    requires
        n <= m.len(),
    ensures
        0 <= i < n && m[i].1.games >= min_pair ==> pair_members(m, n, min_pair, rates).contains(
            pair_member(m[i].0, m[i].1, rates),
        ),
        0 <= k < pair_members(m, n, min_pair, rates).len() ==> exists|j: int|
            0 <= j < n && (#[trigger] m[j]).1.games >= min_pair && pair_members(
                m,
                n,
                min_pair,
                rates,
            )[k] == pair_member(m[j].0, m[j].1, rates),
        (forall|j: int| 0 <= j < n ==> (#[trigger] m[j]).1.games < min_pair) ==> pair_members(
            m,
            n,
            min_pair,
            rates,
        ).len() == 0,
    decreases n,
{
    if n > 0 {
        let before = (n - 1) as nat;
        law_pairs_with_enough_games(m, before, min_pair, rates, i, k);
        let front = pair_members(m, before, min_pair, rates);
        let all = pair_members(m, n, min_pair, rates);
        let last = pair_member(m[n - 1].0, m[n - 1].1, rates);
        if m[n - 1].1.games >= min_pair {
            assert(all[front.len() as int] == last);
            if 0 <= i < n - 1 && m[i].1.games >= min_pair {
                let one = pair_member(m[i].0, m[i].1, rates);
                let x = choose|x: int| 0 <= x < front.len() && front[x] == one;
                assert(all[x] == one);
            }
            if k == front.len() {
                assert(all[k] == pair_member(m[n - 1].0, m[n - 1].1, rates));
            } else if 0 <= k < front.len() {
                assert(all[k] == front[k]);
            }
        }
    }
}

/// A further line of patch statistics never lowers a champion's bans: they are at least those
/// that it says, and those of one line; other champions' stay. The total is the first that is
/// not 0. A line of fewer than five fields says nothing.
pub proof fn law_bans_are_counted(lines: Seq<Seq<char>>, line: Seq<char>, c: Seq<char>)
    requires
        lines.len() > 0,
    ensures
        ({
            let before = ban_counts(lines);
            let after = ban_counts(lines.push(line));
            let f = pieces(line, '\t');
            let bans = |x: BanCounts, id: Seq<char>|
                match lookup(x.bans, id) {
                    Some(n) => n,
                    None => 0,
                };
            &&& f.len() < 5 ==> after == before
            &&& f.len() >= 5 ==> {
                let said = number_or_zero(f[4], u32::MAX as nat);
                &&& lookup(after.bans, f[2]) is Some
                &&& bans(after, f[2]) >= said
                &&& bans(after, f[2]) >= bans(before, f[2])
                &&& bans(after, f[2]) == said || bans(after, f[2]) == bans(before, f[2])
                &&& c != f[2] ==> lookup(after.bans, c) == lookup(before.bans, c)
                &&& before.total > 0 ==> after.total == before.total
                &&& before.total == 0 ==> after.total == number_or_zero(f[1], u32::MAX as nat)
            }
        }),
        ban_counts(seq![line]).total == 0,
        ban_counts(seq![line]).bans.len() == 0,
{
    assert(lines.push(line).drop_last() =~= lines);
    let before = ban_counts(lines);
    let f = pieces(line, '\t');
    if f.len() >= 5 {
        let had = match lookup(before.bans, f[2]) {
            Some(b) => b,
            None => 0,
        };
        let said = number_or_zero(f[4], u32::MAX as nat) as u32;
        let now = if had >= said {
            had
        } else {
            said
        };
        crate::textmap::law_lookup_put(before.bans, f[2], now);
        if c != f[2] {
            crate::textmap::law_lookup_put_other(before.bans, f[2], now, c);
        }
    }
}

/// Ban rates are computed from all bans where the statistics say how many matches there were,
/// and from none where they do not.
pub proof fn law_ban_basis(tsv: Seq<char>)
    ensures
        ban_counts(line_seq(tsv)).total > 0 ==> ban_basis(tsv) == ban_counts(line_seq(tsv)),
        ban_counts(line_seq(tsv)).total == 0 ==> ban_basis(tsv).bans.len() == 0 && ban_basis(
            tsv,
        ).total == 0,
{
}

/// A champion stands in a relation if and only if it has a pair with enough games.
pub proof fn law_related_champions(
    m: Seq<(Seq<char>, Seq<(Seq<char>, Record)>)>,
    n: nat,
    min_pair: u32,
    rates: RateTexts,
    j: int,
)
    requires
        n < m.len(),
    ensures
        ({
            let row = m[n as int].1;
            let was = relation_members(m, n, min_pair, rates);
            let now = relation_members(m, n + 1, min_pair, rates);
            &&& (forall|k: int| 0 <= k < row.len() ==> (#[trigger] row[k]).1.games < min_pair)
                ==> now == was
            &&& 0 <= j < row.len() && row[j].1.games >= min_pair ==> now.len() == was.len() + 1
                && now.drop_last() == was
        }),
{
    let row = m[n as int].1;
    law_pairs_with_enough_games(row, row.len(), min_pair, rates, j, 0);
    let was = relation_members(m, n, min_pair, rates);
    let now = relation_members(m, n + 1, min_pair, rates);
    if now.len() == was.len() + 1 {
        assert(now.drop_last() =~= was);
    }
}

/// Among all records of a tally are those of each champion, of each of its lanes, and of each
/// pair in one team and against each other.
pub proof fn law_all_records(t: Tally, i: int, j: int)
    ensures
        0 <= i < t.champs.len() ==> all_records(t).contains(t.champs[i].1.overall),
        0 <= i < t.champs.len() && 0 <= j < t.champs[i].1.by_pos.len() ==> all_records(t).contains(
            t.champs[i].1.by_pos[j].1,
        ),
        0 <= i < t.synergy.len() && 0 <= j < t.synergy[i].1.len() ==> all_records(t).contains(
            t.synergy[i].1[j].1,
        ),
        0 <= i < t.counter.len() && 0 <= j < t.counter[i].1.len() ==> all_records(t).contains(
            t.counter[i].1[j].1,
        ),
{
    let a = champ_records(t.champs, t.champs.len());
    let b = pair_records(t.synergy, t.synergy.len());
    let c = pair_records(t.counter, t.counter.len());
    if 0 <= i < t.champs.len() {
        lemma_champ_records(t.champs, t.champs.len(), i, j);
        crate::cache::lemma_in_both(a, b, t.champs[i].1.overall);
        crate::cache::lemma_in_both(a + b, c, t.champs[i].1.overall);
        crate::cache::lemma_in_both(a, b, t.champs[i].1.by_pos[j].1);
        crate::cache::lemma_in_both(a + b, c, t.champs[i].1.by_pos[j].1);
    }
    if 0 <= i < t.synergy.len() && 0 <= j < t.synergy[i].1.len() {
        lemma_pair_records(t.synergy, t.synergy.len(), i, j);
        crate::cache::lemma_in_both(a, b, t.synergy[i].1[j].1);
        crate::cache::lemma_in_both(a + b, c, t.synergy[i].1[j].1);
    }
    if 0 <= i < t.counter.len() && 0 <= j < t.counter[i].1.len() {
        lemma_pair_records(t.counter, t.counter.len(), i, j);
        crate::cache::lemma_in_both(a + b, c, t.counter[i].1[j].1);
    }
}

proof fn lemma_champ_records(m: Seq<(Seq<char>, ChampRecord)>, n: nat, i: int, j: int)
    requires
        0 <= i < n <= m.len(),
    ensures
        champ_records(m, n).contains(m[i].1.overall),
        0 <= j < m[i].1.by_pos.len() ==> champ_records(m, n).contains(m[i].1.by_pos[j].1),
    decreases n,
{
    let before = champ_records(m, (n - 1) as nat);
    let one = before.push(m[n - 1].1.overall);
    let lanes = records(m[n - 1].1.by_pos);
    assert(one == before + seq![m[n - 1].1.overall]);
    if i < n - 1 {
        lemma_champ_records(m, (n - 1) as nat, i, j);
    } else {
        assert(seq![m[i].1.overall][0] == m[i].1.overall);
        if 0 <= j < m[i].1.by_pos.len() {
            assert(lanes[j] == m[i].1.by_pos[j].1);
        }
    }
    let last = seq![m[n - 1].1.overall];
    crate::cache::lemma_in_both(before, last, m[i].1.overall);
    crate::cache::lemma_in_both(one, lanes, m[i].1.overall);
    crate::cache::lemma_in_both(before, last, m[i].1.by_pos[j].1);
    crate::cache::lemma_in_both(one, lanes, m[i].1.by_pos[j].1);
}

proof fn lemma_pair_records(
    m: Seq<(Seq<char>, Seq<(Seq<char>, Record)>)>,
    n: nat,
    i: int,
    j: int,
)
    requires
        0 <= i < n <= m.len(),
        0 <= j < m[i].1.len(),
    ensures
        pair_records(m, n).contains(m[i].1[j].1),
    decreases n,
{
    let before = pair_records(m, (n - 1) as nat);
    let row = records(m[n - 1].1);
    if i < n - 1 {
        lemma_pair_records(m, (n - 1) as nat, i, j);
    } else {
        assert(row[j] == m[i].1[j].1);
    }
    crate::cache::lemma_in_both(before, row, m[i].1[j].1);
}

} // verus!
