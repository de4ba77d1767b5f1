//! What the game's patch statistics say: the current winrates, the lanes and the roles of
//! the champions.
//!
//! Statistics have one row for each version, champion and lane. Sums and ratios of
//! floating-point numbers are computed by the caller, who gets the texts of the numbers and
//! hands the results in.

use vstd::prelude::*;

use crate::bits::{above64, at_least64};
#[allow(unused_imports)]
use crate::bits::{ge64, gt64};
use crate::numeral::{number_or_0, to_decimal};
#[allow(unused_imports)]
use crate::numeral::{decimal, number_or_zero};
use crate::text::{join, lines, same_text, split_on, text_before};
#[allow(unused_imports)]
use crate::text::{
    before,
    joined,
    lemma_before_total,
    lemma_before_transitive,
    line_seq,
    pieces,
};
use crate::textmap::TextMap;
#[allow(unused_imports)]
use crate::textmap::{ascending, law_lookup_put, law_lookup_put_other, law_put_ascending, lookup, put};

verus! {

/// The rows of some lines with at least `n` fields, without the first line, which is the
/// heading.
pub open spec fn rows_of(lines: Seq<Seq<char>>, n: nat) -> Seq<Seq<Seq<char>>>
    decreases lines.len(),
{
    if lines.len() <= 1 {
        Seq::empty()
    } else {
        let front = rows_of(lines.drop_last(), n);
        let f = pieces(lines.last(), '\t');
        if f.len() >= n {
            front.push(f)
        } else {
            front
        }
    }
}

/// The rows of statistics with at least `n` fields.
pub open spec fn data_rows(tsv: Seq<char>, n: nat) -> Seq<Seq<Seq<char>>> {
    rows_of(line_seq(tsv), n)
}

/// The rows of statistics with at least `n` fields.
pub fn read_rows(tsv: &str, n: usize) -> (r: Vec<Vec<String>>)
    ensures
        r.deep_view() == data_rows(tsv@, n as nat),
        forall|i: int| 0 <= i < r@.len() ==> #[trigger] r@[i]@.len() >= n,
{
    let ls = lines(tsv);
    let ghost all = line_seq(tsv@);
    let mut r: Vec<Vec<String>> = Vec::new();
    assert(r.deep_view() =~= Seq::empty());
    if ls.len() == 0 {
        assert(all.len() == 0);
        return r;
    }
    assert(all.len() > 0);
    let mut i: usize = 1;
    while i < ls.len()
        invariant
            1 <= i <= ls@.len(),
            ls.deep_view() == all,
            r.deep_view() == rows_of(all.take(i as int), n as nat),
            forall|k: int| 0 <= k < r@.len() ==> #[trigger] r@[k]@.len() >= n,
        decreases ls@.len() - i,
    {
        assert(all[i as int] == ls@[i as int]@);
        assert(all.take(i + 1).drop_last() == all.take(i as int));
        let f = split_on(ls[i].as_str(), '\t');
        assert(f.deep_view().len() == f@.len());
        let ghost sofar = r.deep_view();
        if f.len() >= n {
            r.push(f);
            assert(r.deep_view() =~= sofar.push(f.deep_view()));
        }
        i += 1;
    }
    assert(all.take(i as int) == all);
    r
}

/// The greatest version of some rows.
pub open spec fn newest(rows: Seq<Seq<Seq<char>>>) -> Option<Seq<char>>
    decreases rows.len(),
{
    if rows.len() == 0 {
        None
    } else {
        let v = rows.last()[0];
        match newest(rows.drop_last()) {
            Some(b) => if before(b, v) {
                Some(v)
            } else {
                Some(b)
            },
            None => Some(v),
        }
    }
}

/// The greatest version of some rows but for one.
pub open spec fn newest_but(rows: Seq<Seq<Seq<char>>>, not: Seq<char>) -> Option<Seq<char>>
    decreases rows.len(),
{
    if rows.len() == 0 {
        None
    } else {
        let v = rows.last()[0];
        let front = newest_but(rows.drop_last(), not);
        if v == not {
            front
        } else {
            match front {
                Some(b) => if before(b, v) {
                    Some(v)
                } else {
                    Some(b)
                },
                None => Some(v),
            }
        }
    }
}

/// The newest version is that of a row, and no row's is greater.
pub proof fn law_newest(rows: Seq<Seq<Seq<char>>>)
    ensures
        match newest(rows) {
            Some(v) => (exists|i: int| 0 <= i < rows.len() && #[trigger] rows[i][0] == v) && (
            forall|i: int| 0 <= i < rows.len() ==> !before(v, #[trigger] rows[i][0])),
            None => rows.len() == 0,
        },
    decreases rows.len(),
{
    if rows.len() > 0 {
        let n = rows.len() - 1;
        let front = rows.drop_last();
        law_newest(front);
        let v = newest(rows)->0;
        lemma_before_total(v, v);
        assert forall|i: int| 0 <= i < rows.len() implies !before(v, #[trigger] rows[i][0]) by {
            if i < n {
                assert(front[i][0] == rows[i][0]);
                if let Some(b) = newest(front) {
                    if before(b, rows[n][0]) && before(rows[n][0], rows[i][0]) {
                        lemma_before_transitive(b, rows[n][0], rows[i][0]);
                    }
                }
            }
        }
        if v == rows[n][0] {
            assert(rows[n][0] == v);
        } else {
            let k = choose|k: int| 0 <= k < front.len() && #[trigger] front[k][0] == v;
            assert(rows[k][0] == v);
        }
    }
}

/// The newest version but for one is that of a row, it is another than that one, and no
/// other row's is greater.
pub proof fn law_newest_but(rows: Seq<Seq<Seq<char>>>, not: Seq<char>)
    ensures
        match newest_but(rows, not) {
            Some(v) => v != not && (exists|i: int| 0 <= i < rows.len() && #[trigger] rows[i][0] == v)
                && (forall|i: int|
                0 <= i < rows.len() ==> #[trigger] rows[i][0] == not || !before(v, rows[i][0])),
            None => forall|i: int| 0 <= i < rows.len() ==> #[trigger] rows[i][0] == not,
        },
    decreases rows.len(),
{
    if rows.len() > 0 {
        let n = rows.len() - 1;
        let front = rows.drop_last();
        law_newest_but(front, not);
        assert(forall|i: int| 0 <= i < n ==> front[i][0] == #[trigger] rows[i][0]);
        if let Some(v) = newest_but(rows, not) {
            lemma_before_total(v, v);
            assert forall|i: int| 0 <= i < rows.len() implies #[trigger] rows[i][0] == not
                || !before(v, rows[i][0]) by {
                if i < n {
                    assert(front[i][0] == rows[i][0]);
                    if let Some(b) = newest_but(front, not) {
                        if before(b, rows[n][0]) && before(rows[n][0], rows[i][0]) {
                            lemma_before_transitive(b, rows[n][0], rows[i][0]);
                        }
                    }
                }
            }
            if v == rows[n][0] {
                assert(rows[n][0] == v);
            } else {
                let k = choose|k: int| 0 <= k < front.len() && #[trigger] front[k][0] == v;
                assert(rows[k][0] == v);
            }
        }
    }
}

/// A row with the newest version.
pub fn find_newest(rows: &Vec<Vec<String>>) -> (r: Option<usize>)
    requires
        forall|i: int| 0 <= i < rows@.len() ==> #[trigger] rows@[i]@.len() >= 1,
    ensures
        match r {
            Some(i) => i < rows@.len() && newest(rows.deep_view()) == Some(
                rows.deep_view()[i as int][0],
            ),
            None => newest(rows.deep_view()) is None,
        },
{
    let ghost d = rows.deep_view();
    let mut best: Option<usize> = None;
    let mut i: usize = 0;
    while i < rows.len()
        invariant
            i <= rows@.len(),
            d == rows.deep_view(),
            forall|k: int| 0 <= k < rows@.len() ==> #[trigger] rows@[k]@.len() >= 1,
            match best {
                Some(k) => k < i && newest(d.take(i as int)) == Some(d[k as int][0]),
                None => newest(d.take(i as int)) is None && i == 0,
            },
        decreases rows@.len() - i,
    {
        assert(d.take(i + 1).drop_last() == d.take(i as int));
        assert(d[i as int][0] == rows@[i as int]@[0]@);
        let better = match best {
            Some(k) => {
                assert(d[k as int][0] == rows@[k as int]@[0]@);
                text_before(rows[k][0].as_str(), rows[i][0].as_str())
            },
            None => true,
        };
        if better {
            best = Some(i);
        }
        i += 1;
    }
    assert(d.take(i as int) == d);
    best
}

/// A row with the greatest version but for one.
fn find_newest_but(rows: &Vec<Vec<String>>, not: &str) -> (r: Option<usize>)
    requires
        forall|i: int| 0 <= i < rows@.len() ==> #[trigger] rows@[i]@.len() >= 1,
    ensures
        match r {
            Some(i) => i < rows@.len() && newest_but(rows.deep_view(), not@) == Some(
                rows.deep_view()[i as int][0],
            ),
            None => newest_but(rows.deep_view(), not@) is None,
        },
{
    let ghost d = rows.deep_view();
    let mut best: Option<usize> = None;
    let mut i: usize = 0;
    while i < rows.len()
        invariant
            i <= rows@.len(),
            d == rows.deep_view(),
            forall|k: int| 0 <= k < rows@.len() ==> #[trigger] rows@[k]@.len() >= 1,
            match best {
                Some(k) => k < i && newest_but(d.take(i as int), not@) == Some(d[k as int][0]),
                None => newest_but(d.take(i as int), not@) is None,
            },
        decreases rows@.len() - i,
    {
        assert(d.take(i + 1).drop_last() == d.take(i as int));
        assert(d[i as int][0] == rows@[i as int]@[0]@);
        let better = !same_text(rows[i][0].as_str(), not) && match best {
            Some(k) => {
                assert(d[k as int][0] == rows@[k as int]@[0]@);
                text_before(rows[k][0].as_str(), rows[i][0].as_str())
            },
            None => true,
        };
        if better {
            best = Some(i);
        }
        i += 1;
    }
    assert(d.take(i as int) == d);
    best
}

/// The number of a lane.
pub open spec fn lane_number(name: Seq<char>) -> Option<u8> {
    if name == "Top"@ {
        Some(0)
    } else if name == "Jungle"@ {
        Some(1)
    } else if name == "Mid"@ {
        Some(2)
    } else if name == "Bottom"@ {
        Some(3)
    } else if name == "Support"@ {
        Some(4)
    } else {
        None
    }
}

/// The number of a lane.
pub fn lane_idx(name: &str) -> (r: Option<u8>)
    ensures
        r == lane_number(name@),
        r matches Some(l) ==> l < 5,
{
    if same_text(name, "Top") {
        Some(0)
    } else if same_text(name, "Jungle") {
        Some(1)
    } else if same_text(name, "Mid") {
        Some(2)
    } else if same_text(name, "Bottom") {
        Some(3)
    } else if same_text(name, "Support") {
        Some(4)
    } else {
        None
    }
}

/// What one row says of a champion's winrate.
pub struct Sample {
    /// Whether the row is of the newest version; else it is of the one before.
    pub current: bool,
    pub lane: Option<u8>,
    /// The text of the wins.
    pub wins: String,
    /// The text of the matches.
    pub matches: String,
}

/// What a `Sample` holds.
pub struct Said {
    pub current: bool,
    pub lane: Option<u8>,
    pub wins: Seq<char>,
    pub matches: Seq<char>,
}

impl DeepView for Sample {
    type V = Said;

    open spec fn deep_view(&self) -> Said {
        Said { current: self.current, lane: self.lane, wins: self.wins@, matches: self.matches@ }
    }
}

/// What was said of a champion, nothing where it is not there.
pub open spec fn said_of<W>(m: Seq<(Seq<char>, Seq<W>)>, champ: Seq<char>) -> Seq<W> {
    match lookup(m, champ) {
        Some(v) => v,
        None => Seq::empty(),
    }
}

/// What the rows of two versions say of each champion's winrate, in the order of the rows;
/// rows of other versions say nothing.
pub open spec fn winrates_said(
    rows: Seq<Seq<Seq<char>>>,
    latest: Seq<char>,
    prev: Option<Seq<char>>,
) -> Seq<(Seq<char>, Seq<Said>)>
    decreases rows.len(),
{
    if rows.len() == 0 {
        Seq::empty()
    } else {
        let front = winrates_said(rows.drop_last(), latest, prev);
        let f = rows.last();
        if f[0] == latest || prev == Some(f[0]) {
            let s = Said {
                current: f[0] == latest,
                lane: lane_number(f[3]),
                wins: f[5],
                matches: f[6],
            };
            put(front, f[2], said_of(front, f[2]).push(s))
        } else {
            front
        }
    }
}

/// The matches of the first row of a version, 0 where it does not say a number.
pub open spec fn version_total(rows: Seq<Seq<Seq<char>>>, v: Seq<char>) -> nat
    decreases rows.len(),
{
    if rows.len() == 0 {
        0
    } else if rows[0][0] == v {
        number_or_zero(rows[0][1], u32::MAX as nat)
    } else {
        version_total(rows.skip(1), v)
    }
}

/// What the current patch says of winrates.
pub struct Current {
    /// What is said of each champion.
    pub champs: TextMap<Vec<Sample>>,
    /// The matches of the newest version.
    pub total: u32,
}

/// What the newest version and the one before say of winrates, and the matches of the
/// newest.
pub open spec fn current_patch(patch: Seq<char>) -> (Seq<(Seq<char>, Seq<Said>)>, nat) {
    let rows = data_rows(patch, 7);
    match newest(rows) {
        Some(latest) => (
            winrates_said(rows, latest, newest_but(rows, latest)),
            version_total(rows, latest),
        ),
        None => (Seq::empty(), 0),
    }
}

/// The matches of the first row of a version.
pub fn total_of(rows: &Vec<Vec<String>>, v: &str) -> (r: u32)
    requires
        forall|i: int| 0 <= i < rows@.len() ==> #[trigger] rows@[i]@.len() >= 2,
    ensures
        r == version_total(rows.deep_view(), v@),
{
    let ghost d = rows.deep_view();
    let mut i: usize = 0;
    assert(d.skip(0) == d);
    while i < rows.len()
        invariant
            i <= rows@.len(),
            d == rows.deep_view(),
            forall|k: int| 0 <= k < rows@.len() ==> #[trigger] rows@[k]@.len() >= 2,
            version_total(d, v@) == version_total(d.skip(i as int), v@),
        decreases rows@.len() - i,
    {
        assert(d.skip(i as int)[0] == d[i as int]);
        assert(d.skip(i as int).skip(1) == d.skip(i + 1));
        assert(d[i as int][0] == rows@[i as int]@[0]@);
        assert(d[i as int][1] == rows@[i as int]@[1]@);
        if same_text(rows[i][0].as_str(), v) {
            return number_or_0(rows[i][1].as_str(), u32::MAX as u64) as u32;
        }
        i += 1;
    }
    0
}

/// What the newest version and the one before say of winrates, and the matches of the
/// newest.
pub fn patch_current(patch: &str) -> (r: Current)
    ensures
        current_patch(patch@) == (r.champs@, r.total as nat),
{
    let rows = read_rows(patch, 7);
    let ghost d = rows.deep_view();
    let mut champs: TextMap<Vec<Sample>> = TextMap::new();
    match find_newest(&rows) {
        None => Current { champs, total: 0 },
        Some(top) => {
            let latest = rows[top][0].as_str();
            assert(d[top as int][0] == latest@);
            let prev = find_newest_but(&rows, latest);
            let ghost prev_text = newest_but(d, latest@);
            let mut i: usize = 0;
            while i < rows.len()
                invariant
                    i <= rows@.len(),
                    d == rows.deep_view(),
                    forall|k: int| 0 <= k < rows@.len() ==> #[trigger] rows@[k]@.len() >= 7,
                    prev_text == newest_but(d, latest@),
                    match prev {
                        Some(k) => k < rows@.len() && prev_text == Some(d[k as int][0]),
                        None => prev_text is None,
                    },
                    ascending(champs@),
                    champs@ == winrates_said(d.take(i as int), latest@, prev_text),
                decreases rows@.len() - i,
            {
                assert(d.take(i + 1).drop_last() == d.take(i as int));
                let f = &rows[i];
                assert(forall|k: int|
                    0 <= k < f@.len() ==> d[i as int][k] == #[trigger] rows@[i as int]@[k]@);
                assert(f@.len() >= 7);
                let v = f[0].as_str();
                let current = same_text(v, latest);
                let older = match prev {
                    Some(k) => {
                        assert(d[k as int][0] == rows@[k as int]@[0]@);
                        same_text(v, rows[k][0].as_str())
                    },
                    None => false,
                };
                if current || older {
                    let s = Sample {
                        current,
                        lane: lane_idx(f[3].as_str()),
                        wins: f[5].clone(),
                        matches: f[6].clone(),
                    };
                    let none: Vec<Sample> = Vec::new();
                    assert(none.deep_view() =~= Seq::empty());
                    let ghost m = champs@;
                    let said = champs.slot(f[2].as_str(), none);
                    let ghost sofar = said.deep_view();
                    said.push(s);
                    assert(said.deep_view() =~= sofar.push(s.deep_view()));
                    proof {
                        law_put_ascending(m, f@[2]@, said.deep_view());
                    }
                }
                i += 1;
            }
            assert(d.take(i as int) == d);
            let total = total_of(&rows, latest);
            Current { champs, total }
        },
    }
}

/// Whether a row counts for a champion's winrate.
pub open spec fn counts_for(
    f: Seq<Seq<char>>,
    champ: Seq<char>,
    latest: Seq<char>,
    prev: Option<Seq<char>>,
) -> bool {
    f[2] == champ && (f[0] == latest || prev == Some(f[0]))
}

/// What is said of a champion's winrate is said by the rows of the two versions that name
/// it, each in its place.
pub proof fn law_winrates_said(
    rows: Seq<Seq<Seq<char>>>,
    latest: Seq<char>,
    prev: Option<Seq<char>>,
    champ: Seq<char>,
)
    ensures
        said_of(winrates_said(rows, latest, prev), champ) == rows.filter(
            |f: Seq<Seq<char>>| counts_for(f, champ, latest, prev),
        ).map_values(
            |f: Seq<Seq<char>>|
                Said {
                    current: f[0] == latest,
                    lane: lane_number(f[3]),
                    wins: f[5],
                    matches: f[6],
                },
        ),
    decreases rows.len(),
{
    let p = |f: Seq<Seq<char>>| counts_for(f, champ, latest, prev);
    let g = |f: Seq<Seq<char>>|
        Said { current: f[0] == latest, lane: lane_number(f[3]), wins: f[5], matches: f[6] };
    reveal(Seq::filter);
    if rows.len() > 0 {
        let front = rows.drop_last();
        law_winrates_said(front, latest, prev, champ);
        let m = winrates_said(front, latest, prev);
        let f = rows.last();
        if f[0] == latest || prev == Some(f[0]) {
            let new = said_of(m, f[2]).push(g(f));
            if f[2] == champ {
                law_lookup_put(m, f[2], new);
            } else {
                law_lookup_put_other(m, f[2], new, champ);
            }
        }
        assert(rows.filter(p).map_values(g) =~= if p(f) {
            front.filter(p).map_values(g).push(g(f))
        } else {
            front.filter(p).map_values(g)
        });
    } else {
        assert(rows.filter(p).map_values(g) =~= Seq::<Said>::empty());
    }
}

/// What was said of a lane.
pub open spec fn on_lane(said: Seq<Said>, lane: u8) -> Seq<Said> {
    said.filter(|s: Said| s.lane == Some(lane))
}

/// The places, among what was said, of what was said of a lane.
pub fn lane_places(said: &Vec<Sample>, lane: u8) -> (r: Vec<usize>)
    ensures
        forall|j: int| 0 <= j < r@.len() ==> #[trigger] r@[j] < said@.len(),
        Seq::new(r@.len(), |j: int| said.deep_view()[r@[j] as int]) == on_lane(
            said.deep_view(),
            lane,
        ),
{
    let ghost d = said.deep_view();
    let ghost p = |s: Said| s.lane == Some(lane);
    let mut r: Vec<usize> = Vec::new();
    let mut i: usize = 0;
    proof {
        reveal(Seq::filter);
        assert(Seq::new(r@.len(), |j: int| d[r@[j] as int]) =~= d.take(0).filter(p));
    }
    while i < said.len()
        invariant
            i <= said@.len(),
            d == said.deep_view(),
            p == (|s: Said| s.lane == Some(lane)),
            forall|j: int| 0 <= j < r@.len() ==> #[trigger] r@[j] < said@.len(),
            Seq::new(r@.len(), |j: int| d[r@[j] as int]) == d.take(i as int).filter(p),
        decreases said@.len() - i,
    {
        assert(d.take(i + 1).drop_last() == d.take(i as int));
        assert(d[i as int] == said@[i as int].deep_view());
        let ghost sofar = Seq::new(r@.len(), |j: int| d[r@[j] as int]);
        let here = match said[i].lane {
            Some(l) => l == lane,
            None => false,
        };
        if here {
            r.push(i);
            assert(Seq::new(r@.len(), |j: int| d[r@[j] as int]) =~= sofar.push(d[i as int]));
        }
        proof {
            reveal(Seq::filter);
        }
        i += 1;
    }
    assert(d.take(i as int) == d);
    r
}

/// A winrate that was computed from samples.
pub struct Figure {
    /// The text of the shrunk winrate's delta.
    pub delta: String,
    /// The matches, rounded.
    pub games: u32,
    /// The bit pattern of the matches.
    pub matches: u64,
}

/// What a `Figure` holds.
pub struct Computed {
    pub delta: Seq<char>,
    pub games: nat,
    pub matches: u64,
}

impl DeepView for Figure {
    type V = Computed;

    open spec fn deep_view(&self) -> Computed {
        Computed { delta: self.delta@, games: self.games as nat, matches: self.matches }
    }
}

/// The row of a champion's winrate.
pub open spec fn winrate_row(champ: Seq<char>, x: Computed) -> Seq<char> {
    "C\t"@ + champ + "\t"@ + x.delta + "\t"@ + decimal(x.games)
}

/// The row of a champion's winrate on a lane.
pub open spec fn lane_row(champ: Seq<char>, lane: nat, x: Computed) -> Seq<char> {
    "CP\t"@ + champ + "\t"@ + decimal(lane) + "\t"@ + x.delta + "\t"@ + decimal(x.games)
}

/// The rows of the champions' winrates.
pub open spec fn winrate_rows(m: Seq<(Seq<char>, Seq<Said>)>, xs: Seq<Computed>) -> Seq<Seq<char>> {
    Seq::new(m.len(), |i: int| winrate_row(m[i].0, xs[i]))
}

/// The rows of a champion's winrates on the first `n` lanes: on those of which something was
/// said and on which there were matches.
pub open spec fn champ_lane_rows(
    champ: Seq<char>,
    said: Seq<Said>,
    xs: Seq<Computed>,
    n: nat,
) -> Seq<Seq<char>>
    decreases n,
{
    if n == 0 {
        Seq::empty()
    } else {
        let front = champ_lane_rows(champ, said, xs, (n - 1) as nat);
        if on_lane(said, (n - 1) as u8).len() > 0 && gt64(xs[n - 1].matches, 0) {
            front.push(lane_row(champ, (n - 1) as nat, xs[n - 1]))
        } else {
            front
        }
    }
}

/// The rows of the first `n` champions' winrates on the lanes.
pub open spec fn lane_rows(
    m: Seq<(Seq<char>, Seq<Said>)>,
    xs: Seq<Seq<Computed>>,
    n: nat,
) -> Seq<Seq<char>>
    decreases n,
{
    if n == 0 {
        Seq::empty()
    } else {
        lane_rows(m, xs, (n - 1) as nat) + champ_lane_rows(m[n - 1].0, m[n - 1].1, xs[n - 1], 5)
    }
}

/// The rows of the champions' winrates, given what was computed for each.
pub fn write_winrates(c: &Current, xs: &Vec<Figure>) -> (r: Vec<String>)
    requires
        xs@.len() == c.champs@.len(),
    ensures
        r.deep_view() == winrate_rows(c.champs@, xs.deep_view()),
{
    let ghost m = c.champs@;
    let ghost d = xs.deep_view();
    let mut r: Vec<String> = Vec::new();
    let mut i: usize = 0;
    while i < c.champs.len()
        invariant
            i <= m.len(),
            m == c.champs@,
            d == xs.deep_view(),
            xs@.len() == m.len(),
            r@.len() == i,
            forall|j: int| 0 <= j < i ==> #[trigger] r@[j]@ == winrate_row(m[j].0, d[j]),
        decreases m.len() - i,
    {
        assert(d[i as int] == xs@[i as int].deep_view());
        let mut t = "C\t".to_owned();
        t.append(c.champs.key(i));
        t.append("\t");
        t.append(xs[i].delta.as_str());
        t.append("\t");
        t.append(to_decimal(xs[i].games as u64).as_str());
        r.push(t);
        i += 1;
    }
    assert(r.deep_view() =~= winrate_rows(m, d));
    r
}

/// The rows of the champions' winrates on the lanes, given what was computed for each
/// champion and each of the five lanes.
pub fn write_lane_winrates(c: &Current, xs: &Vec<Vec<Figure>>) -> (r: Vec<String>)
    requires
        xs@.len() == c.champs@.len(),
        forall|i: int| 0 <= i < xs@.len() ==> #[trigger] xs@[i]@.len() == 5,
    ensures
        r.deep_view() == lane_rows(c.champs@, xs.deep_view(), c.champs@.len()),
{
    let ghost m = c.champs@;
    let ghost d = xs.deep_view();
    let mut r: Vec<String> = Vec::new();
    let mut i: usize = 0;
    assert(r.deep_view() =~= Seq::empty());
    while i < c.champs.len()
        invariant
            i <= m.len(),
            m == c.champs@,
            d == xs.deep_view(),
            xs@.len() == m.len(),
            forall|k: int| 0 <= k < xs@.len() ==> #[trigger] xs@[k]@.len() == 5,
            r.deep_view() == lane_rows(m, d, i as nat),
        decreases m.len() - i,
    {
        let ghost front = r.deep_view();
        let ghost champ = m[i as int].0;
        let said = c.champs.value(i);
        let row = &xs[i];
        assert(d[i as int] == row.deep_view());
        let mut l: u8 = 0;
        assert(front + champ_lane_rows(champ, said.deep_view(), d[i as int], 0) =~= front);
        while l < 5
            invariant
                l <= 5,
                i < m.len(),
                m == c.champs@,
                champ == m[i as int].0,
                row@.len() == 5,
                d[i as int] == row.deep_view(),
                r.deep_view() == front + champ_lane_rows(
                    champ,
                    said.deep_view(),
                    d[i as int],
                    l as nat,
                ),
            decreases 5 - l,
        {
            let places = lane_places(said, l);
            assert(on_lane(said.deep_view(), l).len() == places@.len());
            let x = &row[l as usize];
            assert(d[i as int][l as int] == x.deep_view());
            let ghost sofar = r.deep_view();
            if places.len() > 0 && above64(x.matches, 0) {
                let mut t = "CP\t".to_owned();
                t.append(c.champs.key(i));
                t.append("\t");
                t.append(to_decimal(l as u64).as_str());
                t.append("\t");
                t.append(x.delta.as_str());
                t.append("\t");
                t.append(to_decimal(x.games as u64).as_str());
                r.push(t);
                assert(r.deep_view() =~= sofar.push(t@));
                assert(r.deep_view() =~= front + champ_lane_rows(
                    champ,
                    said.deep_view(),
                    d[i as int],
                    (l + 1) as nat,
                ));
            }
            l += 1;
        }
        i += 1;
    }
    r
}

/// The lane and the matches of one row of a champion.
pub type LaneGames = (u8, u32);

/// What rows say of the matches of each champion on the lanes; a row without a lane says
/// nothing.
pub open spec fn lanes_said(rows: Seq<Seq<Seq<char>>>) -> Seq<(Seq<char>, Seq<LaneGames>)>
    decreases rows.len(),
{
    if rows.len() == 0 {
        Seq::empty()
    } else {
        let front = lanes_said(rows.drop_last());
        let f = rows.last();
        match lane_number(f[3]) {
            Some(l) => put(
                front,
                f[2],
                said_of(front, f[2]).push((l, number_or_zero(f[6], u32::MAX as nat) as u32)),
            ),
            None => front,
        }
    }
}

/// The matches on a lane.
pub open spec fn lane_sum(said: Seq<LaneGames>, lane: int) -> nat
    decreases said.len(),
{
    if said.len() == 0 {
        0
    } else {
        lane_sum(said.drop_last(), lane) + if said.last().0 == lane {
            said.last().1 as nat
        } else {
            0nat
        }
    }
}

/// The matches on the first `n` lanes.
pub open spec fn lanes_sum(said: Seq<LaneGames>, n: nat) -> nat
    decreases n,
{
    if n == 0 {
        0
    } else {
        lanes_sum(said, (n - 1) as nat) + lane_sum(said, n - 1)
    }
}

/// Of the first `n + 1` lanes the last with the most matches.
pub open spec fn most_played(said: Seq<LaneGames>, n: nat) -> nat
    decreases n,
{
    if n == 0 {
        0
    } else {
        let best = most_played(said, (n - 1) as nat);
        if lane_sum(said, n as int) >= lane_sum(said, best as int) {
            n
        } else {
            best
        }
    }
}

/// Whether a champion plays a lane: on it are at least a fifth of its matches.
pub open spec fn is_played(said: Seq<LaneGames>, lane: int) -> bool {
    5 * lane_sum(said, lane) >= lanes_sum(said, 5)
}

/// The lanes that a champion plays among the first `n`, but for one.
pub open spec fn played_but(said: Seq<LaneGames>, not: nat, n: nat) -> Seq<Seq<char>>
    decreases n,
{
    if n == 0 {
        Seq::empty()
    } else {
        let front = played_but(said, not, (n - 1) as nat);
        if n - 1 != not && is_played(said, n - 1) {
            front.push(decimal((n - 1) as nat))
        } else {
            front
        }
    }
}

/// The row of a champion's lanes: the one it plays most, and all that it plays, that one
/// first; none where it has no matches.
pub open spec fn pos_row(champ: Seq<char>, said: Seq<LaneGames>) -> Option<Seq<char>> {
    if lanes_sum(said, 5) == 0 {
        None
    } else {
        let main = most_played(said, 4);
        Some(
            "POS\t"@ + champ + "\t"@ + decimal(main) + "\t"@ + joined(
                seq![decimal(main)] + played_but(said, main, 5),
                ","@,
            ),
        )
    }
}

/// The rows of the first `n` champions' lanes.
pub open spec fn pos_rows(m: Seq<(Seq<char>, Seq<LaneGames>)>, n: nat) -> Seq<Seq<char>>
    decreases n,
{
    if n == 0 {
        Seq::empty()
    } else {
        let front = pos_rows(m, (n - 1) as nat);
        match pos_row(m[n - 1].0, m[n - 1].1) {
            Some(r) => front.push(r),
            None => front,
        }
    }
}

/// The matches on a lane.
fn sum_lane(said: &Vec<LaneGames>, lane: u8) -> (r: u128)
    ensures
        r == lane_sum(said@, lane as int),
        r <= 0x1_0000_0000_0000_0000_0000_0000,
{
    let mut r: u128 = 0;
    let mut i: usize = 0;
    while i < said.len()
        invariant
            i <= said@.len(),
            r == lane_sum(said@.take(i as int), lane as int),
            r <= i * 0x1_0000_0000,
        decreases said@.len() - i,
    {
        assert(said@.take(i + 1).drop_last() == said@.take(i as int));
        if said[i].0 == lane {
            r = r + said[i].1 as u128;
        }
        i += 1;
    }
    assert(said@.take(i as int) == said@);
    r
}

/// The row of a champion's lanes.
fn write_pos(champ: &str, said: &Vec<LaneGames>) -> (r: Option<String>)
    ensures
        crate::text::opt_text(r) == pos_row(champ@, said@),
{
    let mut sums: Vec<u128> = Vec::new();
    let mut total: u128 = 0;
    let mut best: usize = 0;
    let mut i: u8 = 0;
    while i < 5
        invariant
            i <= 5,
            sums@.len() == i,
            forall|j: int| 0 <= j < i ==> #[trigger] sums@[j] == lane_sum(said@, j),
            forall|j: int|
                0 <= j < i ==> #[trigger] sums@[j] <= 0x1_0000_0000_0000_0000_0000_0000,
            total == lanes_sum(said@, i as nat),
            total <= i * 0x1_0000_0000_0000_0000_0000_0000,
            i == 0 ==> best == 0,
            i > 0 ==> best < i && best == most_played(said@, (i - 1) as nat),
        decreases 5 - i,
    {
        let s = sum_lane(said, i);
        if i > 0 && s >= sums[best] {
            best = i as usize;
        }
        total = total + s;
        sums.push(s);
        i += 1;
    }
    if total == 0 {
        return None;
    }
    let mut list: Vec<String> = Vec::new();
    list.push(to_decimal(best as u64));
    let ghost head = seq![decimal(best as nat)];
    assert(list.deep_view() =~= head);
    let mut i: usize = 0;
    assert(head + played_but(said@, best as nat, 0) =~= head);
    while i < 5
        invariant
            i <= 5,
            best < 5,
            sums@.len() == 5,
            forall|j: int| 0 <= j < 5 ==> #[trigger] sums@[j] == lane_sum(said@, j),
            forall|j: int|
                0 <= j < 5 ==> #[trigger] sums@[j] <= 0x1_0000_0000_0000_0000_0000_0000,
            total == lanes_sum(said@, 5),
            list.deep_view() == head + played_but(said@, best as nat, i as nat),
        decreases 5 - i,
    {
        let ghost sofar = list.deep_view();
        if i != best && 5 * sums[i] >= total {
            list.push(to_decimal(i as u64));
            assert(list.deep_view() =~= sofar.push(decimal(i as nat)));
            assert(list.deep_view() =~= head + played_but(said@, best as nat, (i + 1) as nat));
        }
        i += 1;
    }
    let mut t = "POS\t".to_owned();
    t.append(champ);
    t.append("\t");
    t.append(to_decimal(best as u64).as_str());
    t.append("\t");
    t.append(join(&list, ",").as_str());
    Some(t)
}

/// The rows of the champions' lanes, over all versions.
pub fn compute_pos(patch: &str) -> (r: Vec<String>)
    ensures
        r.deep_view() == ({
            let m = lanes_said(data_rows(patch@, 7));
            pos_rows(m, m.len())
        }),
{
    let rows = read_rows(patch, 7);
    let ghost d = rows.deep_view();
    let mut by: TextMap<Vec<LaneGames>> = TextMap::new();
    let mut i: usize = 0;
    while i < rows.len()
        invariant
            i <= rows@.len(),
            d == rows.deep_view(),
            forall|k: int| 0 <= k < rows@.len() ==> #[trigger] rows@[k]@.len() >= 7,
            ascending(by@),
            by@ == lanes_said(d.take(i as int)),
        decreases rows@.len() - i,
    {
        assert(d.take(i + 1).drop_last() == d.take(i as int));
        let f = &rows[i];
        assert(forall|k: int|
            0 <= k < f@.len() ==> d[i as int][k] == #[trigger] rows@[i as int]@[k]@);
        assert(f@.len() >= 7);
        if let Some(l) = lane_idx(f[3].as_str()) {
            let n: u32 = number_or_0(f[6].as_str(), u32::MAX as u64) as u32;
            let none: Vec<LaneGames> = Vec::new();
            assert(none.deep_view() =~= Seq::empty());
            let ghost m = by@;
            let said = by.slot(f[2].as_str(), none);
            let ghost sofar = said.deep_view();
            said.push((l, n));
            assert(said.deep_view() =~= sofar.push((l, n)));
            proof {
                law_put_ascending(m, f@[2]@, said.deep_view());
            }
        }
        i += 1;
    }
    assert(d.take(i as int) == d);
    let mut r: Vec<String> = Vec::new();
    let mut i: usize = 0;
    assert(r.deep_view() =~= Seq::empty());
    while i < by.len()
        invariant
            i <= by@.len(),
            r.deep_view() == pos_rows(by@, i as nat),
        decreases by@.len() - i,
    {
        let ghost sofar = r.deep_view();
        let said = by.value(i);
        assert(said.deep_view() =~= said@);
        if let Some(t) = write_pos(by.key(i), said) {
            r.push(t);
            assert(r.deep_view() =~= sofar.push(t@));
        }
        i += 1;
    }
    r
}

/// The lane that a champion plays most: no lane has more matches, and no later one as many.
pub proof fn law_most_played(said: Seq<LaneGames>, n: nat)
    ensures
        most_played(said, n) <= n,
        forall|j: int|
            0 <= j <= n ==> #[trigger] lane_sum(said, j) <= lane_sum(
                said,
                most_played(said, n) as int,
            ) && (j > most_played(said, n) ==> lane_sum(said, j) < lane_sum(
                said,
                most_played(said, n) as int,
            )),
    decreases n,
{
    if n > 0 {
        law_most_played(said, (n - 1) as nat);
    }
}

/// The lane that a champion plays most is one that it plays.
pub proof fn law_most_played_is_played(said: Seq<LaneGames>)
    ensures
        is_played(said, most_played(said, 4) as int),
{
    law_most_played(said, 4);
    let b = most_played(said, 4) as int;
    reveal_with_fuel(lanes_sum, 6);
    assert(lane_sum(said, 0) <= lane_sum(said, b));
    assert(lane_sum(said, 1) <= lane_sum(said, b));
    assert(lane_sum(said, 2) <= lane_sum(said, b));
    assert(lane_sum(said, 3) <= lane_sum(said, b));
    assert(lane_sum(said, 4) <= lane_sum(said, b));
}

/// What one row says of a champion's role.
pub struct RoleSample {
    /// The text of the damage dealt.
    pub dealing: String,
    /// The text of the damage taken.
    pub tanking: String,
    /// The text of the healing.
    pub healing: String,
    pub matches: u32,
}

/// What a `RoleSample` holds.
pub struct RoleSaid {
    pub dealing: Seq<char>,
    pub tanking: Seq<char>,
    pub healing: Seq<char>,
    pub matches: u32,
}

impl DeepView for RoleSample {
    type V = RoleSaid;

    open spec fn deep_view(&self) -> RoleSaid {
        RoleSaid {
            dealing: self.dealing@,
            tanking: self.tanking@,
            healing: self.healing@,
            matches: self.matches,
        }
    }
}

/// What a row says of a champion's role.
pub open spec fn role_said(f: Seq<Seq<char>>) -> RoleSaid {
    RoleSaid {
        dealing: f[7],
        tanking: f[8],
        healing: f[9],
        matches: number_or_zero(f[6], u32::MAX as nat) as u32,
    }
}

/// What the rows of a version say of each champion's role; rows of other versions say nothing.
pub open spec fn roles_said(rows: Seq<Seq<Seq<char>>>, version: Seq<char>) -> Seq<
    (Seq<char>, Seq<RoleSaid>),
>
    decreases rows.len(),
{
    if rows.len() == 0 {
        Seq::empty()
    } else {
        let front = roles_said(rows.drop_last(), version);
        let f = rows.last();
        if f[0] == version {
            put(front, f[2], said_of(front, f[2]).push(role_said(f)))
        } else {
            front
        }
    }
}

/// What the newest version of statistics says of the champions' roles.
pub open spec fn current_roles(patch: Seq<char>) -> Seq<(Seq<char>, Seq<RoleSaid>)> {
    let rows = data_rows(patch, 10);
    match newest(rows) {
        Some(latest) => roles_said(rows, latest),
        None => Seq::empty(),
    }
}

/// What is said of a champion's role is said by the rows of the version that name it, each in
/// its place.
pub proof fn law_roles_said(rows: Seq<Seq<Seq<char>>>, version: Seq<char>, champ: Seq<char>)
    ensures
        said_of(roles_said(rows, version), champ) == rows.filter(
            |f: Seq<Seq<char>>| f[0] == version && f[2] == champ,
        ).map_values(|f: Seq<Seq<char>>| role_said(f)),
    decreases rows.len(),
{
    reveal(Seq::filter);
    let p = |f: Seq<Seq<char>>| f[0] == version && f[2] == champ;
    let g = |f: Seq<Seq<char>>| role_said(f);
    if rows.len() > 0 {
        let front = rows.drop_last();
        let f = rows.last();
        law_roles_said(front, version, champ);
        let m = roles_said(front, version);
        if f[0] == version {
            let now = said_of(m, f[2]).push(role_said(f));
            if f[2] == champ {
                law_lookup_put(m, f[2], now);
            } else {
                law_lookup_put_other(m, f[2], now, champ);
            }
        }
        assert(rows.filter(p).map_values(g) =~= if p(f) {
            front.filter(p).map_values(g).push(g(f))
        } else {
            front.filter(p).map_values(g)
        });
    } else {
        assert(rows.filter(p).map_values(g) =~= Seq::<RoleSaid>::empty());
    }
}

/// The matches behind what was said of a role.
pub open spec fn role_games(said: Seq<RoleSaid>) -> nat
    decreases said.len(),
{
    if said.len() == 0 {
        0
    } else {
        role_games(said.drop_last()) + said.last().matches as nat
    }
}

/// What the newest version of statistics says of the champions' roles.
pub fn role_samples(patch: &str) -> (r: TextMap<Vec<RoleSample>>)
    ensures
        r@ == current_roles(patch@),
{
    let rows = read_rows(patch, 10);
    let ghost d = rows.deep_view();
    let mut by: TextMap<Vec<RoleSample>> = TextMap::new();
    let at = match find_newest(&rows) {
        Some(at) => at,
        None => {
            return by;
        },
    };
    assert(d[at as int][0] == rows@[at as int]@[0]@);
    let latest = rows[at][0].clone();
    let mut i: usize = 0;
    while i < rows.len()
        invariant
            i <= rows@.len(),
            d == rows.deep_view(),
            forall|k: int| 0 <= k < rows@.len() ==> #[trigger] rows@[k]@.len() >= 10,
            ascending(by@),
            by@ == roles_said(d.take(i as int), latest@),
        decreases rows@.len() - i,
    {
        assert(d.take(i + 1).drop_last() == d.take(i as int));
        let f = &rows[i];
        assert(forall|k: int|
            0 <= k < f@.len() ==> d[i as int][k] == #[trigger] rows@[i as int]@[k]@);
        assert(f@.len() >= 10);
        if same_text(f[0].as_str(), latest.as_str()) {
            let s = RoleSample {
                dealing: f[7].clone(),
                tanking: f[8].clone(),
                healing: f[9].clone(),
                matches: number_or_0(f[6].as_str(), u32::MAX as u64) as u32,
            };
            let none: Vec<RoleSample> = Vec::new();
            assert(none.deep_view() =~= Seq::empty());
            let ghost m = by@;
            let said = by.slot(f[2].as_str(), none);
            let ghost sofar = said.deep_view();
            said.push(s);
            assert(said.deep_view() =~= sofar.push(s.deep_view()));
            proof {
                law_put_ascending(m, f@[2]@, said.deep_view());
            }
        }
        i += 1;
    }
    assert(d.take(i as int) == d);
    by
}

/// The games that a role needs to be known.
pub const MIN_ROLE_GAMES: u64 = 5;

/// The matches behind what was said of a role.
fn sum_role(said: &Vec<RoleSample>) -> (r: u128)
    ensures
        r == role_games(said.deep_view()),
{
    let ghost d = said.deep_view();
    let mut r: u128 = 0;
    let mut i: usize = 0;
    while i < said.len()
        invariant
            i <= said@.len(),
            d == said.deep_view(),
            r == role_games(d.take(i as int)),
            r <= i * 0x1_0000_0000,
        decreases said@.len() - i,
    {
        assert(d.take(i + 1).drop_last() == d.take(i as int));
        assert(d[i as int] == said@[i as int].deep_view());
        r = r + said[i].matches as u128;
        i += 1;
    }
    assert(d.take(i as int) == d);
    r
}

/// A role that was computed from samples.
pub struct RoleFigure {
    /// The bit pattern of the damage dealt.
    pub dealt: u64,
    /// The text of the damage taken, divided by the damage dealt.
    pub tank: String,
    /// The text of the healing, divided by the damage dealt.
    pub heal: String,
}

/// What a `RoleFigure` holds.
pub struct RoleComputed {
    pub dealt: u64,
    pub tank: Seq<char>,
    pub heal: Seq<char>,
}

impl DeepView for RoleFigure {
    type V = RoleComputed;

    open spec fn deep_view(&self) -> RoleComputed {
        RoleComputed { dealt: self.dealt, tank: self.tank@, heal: self.heal@ }
    }
}

/// The rows of the first `n` champions' roles: of those with enough games that dealt damage.
pub open spec fn role_rows(
    m: Seq<(Seq<char>, Seq<RoleSaid>)>,
    xs: Seq<RoleComputed>,
    n: nat,
) -> Seq<Seq<char>>
    decreases n,
{
    if n == 0 {
        Seq::empty()
    } else {
        let front = role_rows(m, xs, (n - 1) as nat);
        let x = xs[n - 1];
        if role_games(m[n - 1].1) < MIN_ROLE_GAMES || ge64(0, x.dealt) {
            front
        } else {
            front.push("RP\t"@ + m[n - 1].0 + "\t"@ + x.tank + "\t"@ + x.heal)
        }
    }
}

/// The rows of the champions' roles, given what was computed for each.
pub fn compute_roles(m: &TextMap<Vec<RoleSample>>, xs: &Vec<RoleFigure>) -> (r: Vec<String>)
    requires
        xs@.len() == m@.len(),
    ensures
        r.deep_view() == role_rows(m@, xs.deep_view(), m@.len()),
{
    let ghost d = xs.deep_view();
    let mut r: Vec<String> = Vec::new();
    let mut i: usize = 0;
    assert(r.deep_view() =~= Seq::empty());
    while i < m.len()
        invariant
            i <= m@.len(),
            d == xs.deep_view(),
            xs@.len() == m@.len(),
            r.deep_view() == role_rows(m@, d, i as nat),
        decreases m@.len() - i,
    {
        let ghost sofar = r.deep_view();
        let x = &xs[i];
        assert(d[i as int] == x.deep_view());
        if sum_role(m.value(i)) >= MIN_ROLE_GAMES as u128 && !at_least64(0, x.dealt) {
            let mut t = "RP\t".to_owned();
            t.append(m.key(i));
            t.append("\t");
            t.append(x.tank.as_str());
            t.append("\t");
            t.append(x.heal.as_str());
            r.push(t);
            assert(r.deep_view() =~= sofar.push(t@));
        }
        i += 1;
    }
    r
}

} // verus!
