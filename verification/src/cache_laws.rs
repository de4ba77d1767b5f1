//! What a cache was put together from is what the tables read from it.

use vstd::prelude::*;

#[allow(unused_imports)]
use crate::bits::{ge64, gt64};
#[allow(unused_imports)]
use crate::cache::{cache_rows, matches_row, pool_row, stamp_row, stays, PartTexts};
#[allow(unused_imports)]
use crate::numeral::decimal;
#[allow(unused_imports)]
use crate::patch::{
    champ_lane_rows,
    current_patch,
    current_roles,
    data_rows,
    lane_row,
    lane_rows,
    lanes_said,
    lanes_sum,
    most_played,
    newest,
    newest_but,
    on_lane,
    pos_row,
    pos_rows,
    role_games,
    role_rows,
    role_said,
    roles_said,
    rows_of,
    said_of,
    winrate_row,
    winrate_rows,
    winrates_said,
    Computed,
    LaneGames,
    RoleComputed,
    RoleSaid,
    Said,
    MIN_ROLE_GAMES,
};
#[allow(unused_imports)]
use crate::row_laws::{
    lanes_but,
    law_computed_lanes_are_read,
    law_lane_row_is_read,
    law_origin_rows_are_read,
    law_pool_row_is_read,
    law_role_row_is_read,
    law_winrate_row_is_read,
    lemma_tags,
};
#[allow(unused_imports)]
use crate::settings::{beginning, of_a_save, source_of};
#[allow(unused_imports)]
use crate::tables::{
    after_line,
    after_lines,
    after_row,
    last_cell,
    no_stats,
    reading,
    stats_of,
    Stats,
};
#[allow(unused_imports)]
use crate::text::{
    before,
    begins,
    is_line,
    joined,
    lacks,
    law_lines_read_back,
    lemma_before_total,
    lemma_pieces_lack,
    lemma_pieces_some,
    line_seq,
    pieces,
    with_feeds,
};
#[allow(unused_imports)]
use crate::textmap::{
    ascending,
    law_lookup_put,
    law_lookup_put_other,
    law_put_ascending,
    lookup,
    put,
};

verus! {

/// The statistics after some more lines.
pub open spec fn read_on(
    t: Stats,
    lines: Seq<Seq<char>>,
    readings: Seq<(Seq<char>, u32)>,
) -> Stats
    decreases lines.len(),
{
    if lines.len() == 0 {
        t
    } else {
        after_line(read_on(t, lines.drop_last(), readings), lines.last(), readings)
    }
}

/// Reading lines is reading on from nothing.
pub proof fn lemma_read_all(lines: Seq<Seq<char>>, readings: Seq<(Seq<char>, u32)>)
    ensures
        after_lines(lines, readings) == read_on(no_stats(), lines, readings),
    decreases lines.len(),
{
    if lines.len() > 0 {
        lemma_read_all(lines.drop_last(), readings);
    }
}

/// Lines are read in their order.
pub proof fn lemma_read_parts(
    t: Stats,
    a: Seq<Seq<char>>,
    b: Seq<Seq<char>>,
    readings: Seq<(Seq<char>, u32)>,
)
    ensures
        read_on(t, a + b, readings) == read_on(read_on(t, a, readings), b, readings),
    decreases b.len(),
{
    if b.len() > 0 {
        lemma_read_parts(t, a, b.drop_last(), readings);
        assert((a + b).drop_last() =~= a + b.drop_last());
    } else {
        assert(a + b =~= a);
    }
}

/// Reading on by one line.
pub proof fn lemma_read_one(t: Stats, line: Seq<char>, readings: Seq<(Seq<char>, u32)>)
    ensures
        read_on(t, seq![line], readings) == after_line(t, line, readings),
{
    reveal_with_fuel(read_on, 2);
    assert(seq![line].drop_last() =~= Seq::empty());
}

/// A text begins with its first piece, and where it has more of them the separator is behind
/// it.
proof fn lemma_first_piece(s: Seq<char>, sep: char)
    ensures
        pieces(s, sep).len() == 1 ==> pieces(s, sep)[0] == s,
        pieces(s, sep).len() > 1 ==> begins(s, pieces(s, sep)[0].push(sep)),
    decreases s.len(),
{
    if s.len() > 0 {
        let r = s.drop_last();
        lemma_first_piece(r, sep);
        lemma_pieces_some(r, sep);
        let front = pieces(r, sep);
        let p = pieces(s, sep);
        if front.len() > 1 {
            let x = front[0].push(sep);
            assert(p[0] == front[0]);
            assert(s.take(x.len() as int) =~= r.take(x.len() as int));
        } else if s.last() == sep {
            assert(p[0] == r);
            assert(s.take(s.len() as int) =~= r.push(sep));
        } else {
            assert(p[0] == r.push(s.last()));
            assert(p[0] =~= s);
        }
    } else {
        assert(pieces(s, sep)[0] =~= s);
    }
}

/// A text without separator is the first piece of the text in which a separator follows it.
proof fn lemma_piece_before(tag: Seq<char>, rest: Seq<char>, sep: char)
    requires
        lacks(tag, sep),
    ensures
        pieces(tag.push(sep) + rest, sep).len() > 1,
        pieces(tag.push(sep) + rest, sep)[0] == tag,
    decreases rest.len(),
{
    let s = tag.push(sep) + rest;
    if rest.len() == 0 {
        crate::text::lemma_one_piece(tag, sep);
        assert(s.drop_last() =~= tag);
    } else {
        lemma_piece_before(tag, rest.drop_last(), sep);
        assert(s.drop_last() =~= tag.push(sep) + rest.drop_last());
    }
}

/// Whether the names of a list are in order and hold no tabs.
pub open spec fn names_sound<W>(m: Seq<(Seq<char>, W)>) -> bool {
    ascending(m) && forall|i: int| 0 <= i < m.len() ==> lacks((#[trigger] m[i]).0, '\t')
}

/// Whether one of the first `n` names of a list is `c`.
pub open spec fn named<W>(m: Seq<(Seq<char>, W)>, n: int, c: Seq<char>) -> bool {
    exists|i: int| 0 <= i < n && (#[trigger] m[i]).0 == c
}

proof fn lemma_put_sound<W>(m: Seq<(Seq<char>, W)>, k: Seq<char>, w: W)
    requires
        names_sound(m),
        lacks(k, '\t'),
    ensures
        names_sound(put(m, k, w)),
{
    law_put_ascending(m, k, w);
    let p = put(m, k, w);
    assert forall|i: int| 0 <= i < p.len() implies lacks((#[trigger] p[i]).0, '\t') by {
        if p[i].0 != k {
            let j = choose|j: int| 0 <= j < m.len() && p[i].0 == (#[trigger] m[j]).0;
            assert(lacks(m[j].0, '\t'));
        }
    }
}

/// The names of a sound list differ.
pub proof fn lemma_names_differ<W>(m: Seq<(Seq<char>, W)>, i: int, j: int)
    requires
        names_sound(m),
        0 <= i < j < m.len(),
    ensures
        m[i].0 != m[j].0,
{
    assert(before(m[i].0, m[j].0));
    lemma_before_total(m[i].0, m[j].0);
}

/// Whether rows have at least `n` fields, and none of them holds a tab.
pub open spec fn rows_sound(rows: Seq<Seq<Seq<char>>>, n: nat) -> bool {
    &&& forall|i: int| 0 <= i < rows.len() ==> (#[trigger] rows[i]).len() >= n
    &&& forall|i: int, j: int|
        0 <= i < rows.len() && 0 <= j < rows[i].len() ==> lacks(#[trigger] rows[i][j], '\t')
}

proof fn lemma_rows_sound(lines: Seq<Seq<char>>, n: nat)
    ensures
        rows_sound(rows_of(lines, n), n),
    decreases lines.len(),
{
    if lines.len() > 1 {
        lemma_rows_sound(lines.drop_last(), n);
        lemma_pieces_lack(lines.last(), '\t');
        let front = rows_of(lines.drop_last(), n);
        let f = pieces(lines.last(), '\t');
        let rows = rows_of(lines, n);
        assert forall|i: int, j: int| 0 <= i < rows.len() && 0 <= j < rows[i].len() implies lacks(
            #[trigger] rows[i][j],
            '\t',
        ) by {
            if i < front.len() {
                assert(rows[i] == front[i]);
                assert(lacks(front[i][j], '\t'));
            } else {
                assert(rows[i] == f);
            }
        }
    }
}

proof fn lemma_winrates_sound(
    rows: Seq<Seq<Seq<char>>>,
    latest: Seq<char>,
    prev: Option<Seq<char>>,
)
    requires
        rows_sound(rows, 7),
    ensures
        names_sound(winrates_said(rows, latest, prev)),
    decreases rows.len(),
{
    if rows.len() > 0 {
        let front = rows.drop_last();
        assert(forall|i: int| 0 <= i < front.len() ==> #[trigger] front[i] == rows[i]);
        lemma_winrates_sound(front, latest, prev);
        let f = rows.last();
        let m = winrates_said(front, latest, prev);
        assert(rows[rows.len() - 1].len() >= 7);
        assert(lacks(rows[rows.len() - 1][2], '\t'));
        if f[0] == latest || prev == Some(f[0]) {
            let s = Said {
                current: f[0] == latest,
                lane: crate::patch::lane_number(f[3]),
                wins: f[5],
                matches: f[6],
            };
            lemma_put_sound(m, f[2], said_of(m, f[2]).push(s));
        }
    }
}

proof fn lemma_lanes_sound(rows: Seq<Seq<Seq<char>>>)
    requires
        rows_sound(rows, 7),
    ensures
        names_sound(lanes_said(rows)),
    decreases rows.len(),
{
    if rows.len() > 0 {
        let front = rows.drop_last();
        assert(forall|i: int| 0 <= i < front.len() ==> #[trigger] front[i] == rows[i]);
        lemma_lanes_sound(front);
        let f = rows.last();
        let m = lanes_said(front);
        assert(rows[rows.len() - 1].len() >= 7);
        assert(lacks(rows[rows.len() - 1][2], '\t'));
        if let Some(l) = crate::patch::lane_number(f[3]) {
            let games = crate::numeral::number_or_zero(f[6], u32::MAX as nat) as u32;
            lemma_put_sound(m, f[2], said_of(m, f[2]).push((l, games)));
        }
    }
}

proof fn lemma_roles_sound(rows: Seq<Seq<Seq<char>>>, version: Seq<char>)
    requires
        rows_sound(rows, 10),
    ensures
        names_sound(roles_said(rows, version)),
    decreases rows.len(),
{
    if rows.len() > 0 {
        let front = rows.drop_last();
        assert(forall|i: int| 0 <= i < front.len() ==> #[trigger] front[i] == rows[i]);
        lemma_roles_sound(front, version);
        let f = rows.last();
        let m = roles_said(front, version);
        assert(rows[rows.len() - 1].len() >= 10);
        assert(lacks(rows[rows.len() - 1][2], '\t'));
        if f[0] == version {
            lemma_put_sound(m, f[2], said_of(m, f[2]).push(role_said(f)));
        }
    }
}

/// Whether a winrate that was computed can stand in a row.
pub open spec fn writable(x: Computed) -> bool {
    lacks(x.delta, '\t') && x.games <= u32::MAX
}

proof fn lemma_winrates_read(
    t: Stats,
    m: Seq<(Seq<char>, Seq<Said>)>,
    xs: Seq<Computed>,
    n: int,
    readings: Seq<(Seq<char>, u32)>,
)
    requires
        0 <= n <= m.len(),
        m.len() == xs.len(),
        names_sound(m),
        forall|i: int| 0 <= i < xs.len() ==> writable(#[trigger] xs[i]),
    ensures
        ({
            let u = read_on(t, winrate_rows(m, xs).take(n), readings);
            &&& u == (Stats { delta: u.delta, games: u.games, ..t })
            &&& forall|i: int|
                0 <= i < n ==> lookup(u.delta, (#[trigger] m[i]).0) == Some(
                    reading(readings, xs[i].delta),
                ) && lookup(u.games, m[i].0) == Some(xs[i].games as u32)
            &&& forall|c: Seq<char>|
                !named(m, n, c) ==> #[trigger] lookup(u.delta, c) == lookup(t.delta, c)
        }),
    decreases n,
{
    let rows = winrate_rows(m, xs);
    let u = read_on(t, rows.take(n), readings);
    if n > 0 {
        lemma_winrates_read(t, m, xs, n - 1, readings);
        let v = read_on(t, rows.take(n - 1), readings);
        assert(rows.take(n).drop_last() =~= rows.take(n - 1));
        let k = m[n - 1].0;
        let x = xs[n - 1];
        assert(writable(xs[n - 1]));
        law_winrate_row_is_read(v, k, x, readings);
        assert(u.delta == put(v.delta, k, reading(readings, x.delta)));
        assert(u.games == put(v.games, k, x.games as u32));
        law_lookup_put(v.delta, k, reading(readings, x.delta));
        law_lookup_put(v.games, k, x.games as u32);
        assert forall|i: int| 0 <= i < n implies lookup(u.delta, (#[trigger] m[i]).0) == Some(
            reading(readings, xs[i].delta),
        ) && lookup(u.games, m[i].0) == Some(xs[i].games as u32) by {
            if i < n - 1 {
                lemma_names_differ(m, i, n - 1);
                law_lookup_put_other(v.delta, k, reading(readings, x.delta), m[i].0);
                law_lookup_put_other(v.games, k, x.games as u32, m[i].0);
            }
        }
        assert forall|c: Seq<char>| !named(m, n, c) implies #[trigger] lookup(u.delta, c) == lookup(
            t.delta,
            c,
        ) by {
            assert(m[n - 1].0 != c);
            assert(!named(m, n - 1, c));
            law_lookup_put_other(v.delta, k, reading(readings, x.delta), c);
            assert(lookup(v.delta, c) == lookup(t.delta, c));
        }
    } else {
        assert(rows.take(n) =~= Seq::empty());
    }
}

/// Whether the cache has a row for a champion's winrate on a lane: something was said of the
/// lane, and there were matches on it.
pub open spec fn has_lane_row(said: Seq<Said>, xs: Seq<Computed>, lane: int) -> bool {
    on_lane(said, lane as u8).len() > 0 && gt64(xs[lane].matches, 0)
}

/// What a champion's row on a lane says.
pub open spec fn lane_cell(x: Computed, readings: Seq<(Seq<char>, u32)>) -> (u32, u32) {
    (reading(readings, x.delta), x.games as u32)
}

proof fn lemma_champ_lanes_read(
    t: Stats,
    champ: Seq<char>,
    said: Seq<Said>,
    xs: Seq<Computed>,
    n: int,
    readings: Seq<(Seq<char>, u32)>,
)
    requires
        0 <= n <= 5,
        xs.len() == 5,
        lacks(champ, '\t'),
        forall|i: int| 0 <= i < xs.len() ==> writable(#[trigger] xs[i]),
    ensures
        ({
            let u = read_on(t, champ_lane_rows(champ, said, xs, n as nat), readings);
            &&& u == (Stats { cells: u.cells, ..t })
            &&& forall|l: int|
                0 <= l < n && #[trigger] has_lane_row(said, xs, l) ==> u.cell(champ, l as u8)
                    == Some(lane_cell(xs[l], readings))
            &&& forall|c: Seq<char>|
                c != champ ==> #[trigger] lookup(u.cells, c) == lookup(t.cells, c)
        }),
    decreases n,
{
    let rows = champ_lane_rows(champ, said, xs, n as nat);
    let u = read_on(t, rows, readings);
    if n > 0 {
        lemma_champ_lanes_read(t, champ, said, xs, n - 1, readings);
        let front = champ_lane_rows(champ, said, xs, (n - 1) as nat);
        let v = read_on(t, front, readings);
        if has_lane_row(said, xs, n - 1) {
            let x = xs[n - 1];
            assert(rows == front.push(lane_row(champ, (n - 1) as nat, x)));
            assert(rows.drop_last() =~= front);
            assert(writable(xs[n - 1]));
            law_lane_row_is_read(v, champ, (n - 1) as nat, x, readings);
            let had = match lookup(v.cells, champ) {
                Some(w) => w,
                None => Seq::empty(),
            };
            let now = had.push(((n - 1) as u8, lane_cell(x, readings)));
            assert(u.cells == put(v.cells, champ, now));
            law_lookup_put(v.cells, champ, now);
            assert forall|l: int| 0 <= l < n && #[trigger] has_lane_row(said, xs, l) implies u.cell(
                champ,
                l as u8,
            ) == Some(lane_cell(xs[l], readings)) by {
                assert(last_cell(now, l as u8) == if l == n - 1 {
                    Some(lane_cell(x, readings))
                } else {
                    last_cell(had, l as u8)
                }) by {
                    assert(now.drop_last() =~= had);
                }
                if l < n - 1 {
                    assert(v.cell(champ, l as u8) == Some(lane_cell(xs[l], readings)));
                }
            }
            assert forall|c: Seq<char>| c != champ implies #[trigger] lookup(u.cells, c) == lookup(
                t.cells,
                c,
            ) by {
                law_lookup_put_other(v.cells, champ, now, c);
                assert(lookup(v.cells, c) == lookup(t.cells, c));
            }
        } else {
            assert(rows == front);
        }
    }
}

proof fn lemma_lanes_read(
    t: Stats,
    m: Seq<(Seq<char>, Seq<Said>)>,
    xs: Seq<Seq<Computed>>,
    n: int,
    readings: Seq<(Seq<char>, u32)>,
)
    requires
        0 <= n <= m.len(),
        m.len() == xs.len(),
        names_sound(m),
        forall|i: int| 0 <= i < xs.len() ==> (#[trigger] xs[i]).len() == 5,
        forall|i: int, l: int|
            0 <= i < xs.len() && 0 <= l < 5 ==> writable(#[trigger] xs[i][l]),
    ensures
        ({
            let u = read_on(t, lane_rows(m, xs, n as nat), readings);
            &&& u == (Stats { cells: u.cells, ..t })
            &&& forall|i: int, l: int|
                0 <= i < n && 0 <= l < 5 && #[trigger] has_lane_row(m[i].1, xs[i], l) ==> u.cell(
                    m[i].0,
                    l as u8,
                ) == Some(lane_cell(xs[i][l], readings))
        }),
    decreases n,
{
    let u = read_on(t, lane_rows(m, xs, n as nat), readings);
    if n > 0 {
        lemma_lanes_read(t, m, xs, n - 1, readings);
        let front = lane_rows(m, xs, (n - 1) as nat);
        let back = champ_lane_rows(m[n - 1].0, m[n - 1].1, xs[n - 1], 5);
        let v = read_on(t, front, readings);
        lemma_read_parts(t, front, back, readings);
        assert(xs[n - 1].len() == 5);
        assert forall|i: int| 0 <= i < 5 implies writable(#[trigger] xs[n - 1][i]) by {}
        lemma_champ_lanes_read(v, m[n - 1].0, m[n - 1].1, xs[n - 1], 5, readings);
        assert forall|i: int, l: int|
            0 <= i < n && 0 <= l < 5 && #[trigger] has_lane_row(m[i].1, xs[i], l) implies u.cell(
            m[i].0,
            l as u8,
        ) == Some(lane_cell(xs[i][l], readings)) by {
            if i < n - 1 {
                lemma_names_differ(m, i, n - 1);
                assert(lookup(u.cells, m[i].0) == lookup(v.cells, m[i].0));
                assert(v.cell(m[i].0, l as u8) == Some(lane_cell(xs[i][l], readings)));
            }
        }
    }
}

/// What a champion's lanes are read as: the one that it plays most, and all that it plays,
/// that one first.
pub open spec fn lanes_found(t: Stats, champ: Seq<char>, said: Seq<LaneGames>) -> bool {
    let main = most_played(said, 4) as u8;
    t.primary_of(champ) == Some(main) && t.lanes_of(champ) == seq![main] + lanes_but(
        said,
        main as nat,
        5,
    )
}

proof fn lemma_pos_read(
    t: Stats,
    m: Seq<(Seq<char>, Seq<LaneGames>)>,
    n: int,
    readings: Seq<(Seq<char>, u32)>,
)
    requires
        0 <= n <= m.len(),
        names_sound(m),
    ensures
        ({
            let u = read_on(t, pos_rows(m, n as nat), readings);
            &&& u == (Stats { primary: u.primary, plays: u.plays, ..t })
            &&& forall|i: int|
                0 <= i < n && lanes_sum((#[trigger] m[i]).1, 5) > 0 ==> lanes_found(
                    u,
                    m[i].0,
                    m[i].1,
                )
        }),
    decreases n,
{
    let rows = pos_rows(m, n as nat);
    let u = read_on(t, rows, readings);
    if n > 0 {
        lemma_pos_read(t, m, n - 1, readings);
        let front = pos_rows(m, (n - 1) as nat);
        let v = read_on(t, front, readings);
        let (k, said) = m[n - 1];
        assert(lacks(m[n - 1].0, '\t'));
        if let Some(row) = pos_row(k, said) {
            assert(rows.drop_last() =~= front);
            law_computed_lanes_are_read(v, k, said, readings);
            let main = most_played(said, 4) as u8;
            let lanes = seq![main] + lanes_but(said, main as nat, 5);
            law_lookup_put(v.primary, k, main);
            law_lookup_put(v.plays, k, lanes);
            assert forall|i: int| 0 <= i < n && lanes_sum((#[trigger] m[i]).1, 5) > 0 implies
                lanes_found(u, m[i].0, m[i].1) by {
                if i < n - 1 {
                    lemma_names_differ(m, i, n - 1);
                    law_lookup_put_other(v.primary, k, main, m[i].0);
                    law_lookup_put_other(v.plays, k, lanes, m[i].0);
                    assert(lanes_found(v, m[i].0, m[i].1));
                }
            }
        } else {
            assert(rows == front);
        }
    }
}

/// Whether the cache has a row for a champion's role: it has enough games, and it dealt
/// damage.
pub open spec fn has_role_row(said: Seq<RoleSaid>, x: RoleComputed) -> bool {
    role_games(said) >= MIN_ROLE_GAMES && !ge64(0, x.dealt)
}

proof fn lemma_roles_read(
    t: Stats,
    m: Seq<(Seq<char>, Seq<RoleSaid>)>,
    xs: Seq<RoleComputed>,
    n: int,
    readings: Seq<(Seq<char>, u32)>,
)
    requires
        0 <= n <= m.len(),
        m.len() == xs.len(),
        names_sound(m),
        forall|i: int|
            0 <= i < xs.len() ==> lacks((#[trigger] xs[i]).tank, '\t') && lacks(xs[i].heal, '\t'),
    ensures
        ({
            let u = read_on(t, role_rows(m, xs, n as nat), readings);
            &&& u == (Stats { role: u.role, ..t })
            &&& forall|i: int|
                0 <= i < n && has_role_row((#[trigger] m[i]).1, xs[i]) ==> lookup(u.role, m[i].0)
                    == Some((reading(readings, xs[i].tank), reading(readings, xs[i].heal)))
        }),
    decreases n,
{
    let rows = role_rows(m, xs, n as nat);
    let u = read_on(t, rows, readings);
    if n > 0 {
        lemma_roles_read(t, m, xs, n - 1, readings);
        let front = role_rows(m, xs, (n - 1) as nat);
        let v = read_on(t, front, readings);
        let k = m[n - 1].0;
        let x = xs[n - 1];
        assert(lacks(m[n - 1].0, '\t'));
        assert(lacks(xs[n - 1].tank, '\t'));
        if has_role_row(m[n - 1].1, x) {
            assert(rows.drop_last() =~= front);
            law_role_row_is_read(v, k, x.tank, x.heal, readings);
            let w = (reading(readings, x.tank), reading(readings, x.heal));
            law_lookup_put(v.role, k, w);
            assert forall|i: int|
                0 <= i < n && has_role_row((#[trigger] m[i]).1, xs[i]) implies lookup(
                u.role,
                m[i].0,
            ) == Some((reading(readings, xs[i].tank), reading(readings, xs[i].heal))) by {
                if i < n - 1 {
                    lemma_names_differ(m, i, n - 1);
                    law_lookup_put_other(v.role, k, w, m[i].0);
                }
            }
        } else {
            assert(rows == front);
        }
    }
}

proof fn lemma_kept_say_nothing(rows: Seq<Seq<char>>, readings: Seq<(Seq<char>, u32)>)
    requires
        forall|i: int| 0 <= i < rows.len() ==> stays(#[trigger] rows[i]),
    ensures
        ({
            let u = after_lines(rows, readings);
            &&& u.delta == no_stats().delta
            &&& u.pool == no_stats().pool
        }),
    decreases rows.len(),
{
    if rows.len() > 0 {
        let front = rows.drop_last();
        assert(forall|i: int| 0 <= i < front.len() ==> #[trigger] front[i] == rows[i]);
        lemma_kept_say_nothing(front, readings);
        let row = rows[rows.len() - 1];
        assert(stays(row));
        lemma_first_piece(row, '\t');
        lemma_tags();
        reveal_strlit("C\t");
        reveal_strlit("POOL\t");
        reveal_strlit("C");
        reveal_strlit("POOL");
        assert("C"@.push('\t') =~= "C\t"@);
        assert("POOL"@.push('\t') =~= "POOL\t"@);
    }
}

/// Whether two statistics say the same of pairs, kits and ban rates.
pub open spec fn same_weights(t: Stats, u: Stats) -> bool {
    t.synergy == u.synergy && t.counter == u.counter && t.taxon == u.taxon && t.banrate
        == u.banrate
}

/// A row that does not stay says nothing of pairs, kits and ban rates.
proof fn lemma_dropped_row(t: Stats, row: Seq<char>, readings: Seq<(Seq<char>, u32)>)
    requires
        !stays(row),
    ensures
        same_weights(after_line(t, row, readings), t),
{
    lemma_tags();
    reveal_strlit("C\t");
    reveal_strlit("M\t");
    reveal_strlit("SAVE\t");
    reveal_strlit("POOL\t");
    reveal_strlit("C");
    reveal_strlit("M");
    reveal_strlit("SAVE");
    reveal_strlit("POOL");
    let tag = if begins(row, "C\t"@) {
        "C"@
    } else if begins(row, "M\t"@) {
        "M"@
    } else if begins(row, "SAVE\t"@) {
        "SAVE"@
    } else {
        "POOL"@
    };
    assert("C"@.push('\t') =~= "C\t"@);
    assert("M"@.push('\t') =~= "M\t"@);
    assert("SAVE"@.push('\t') =~= "SAVE\t"@);
    assert("POOL"@.push('\t') =~= "POOL\t"@);
    let n = tag.len() + 1;
    assert(row =~= row.take(n as int) + row.skip(n as int));
    lemma_piece_before(tag, row.skip(n as int), '\t');
}

proof fn lemma_kept_weights(gen: Seq<Seq<char>>, readings: Seq<(Seq<char>, u32)>)
    ensures
        same_weights(
            after_lines(gen.filter(|l: Seq<char>| stays(l)), readings),
            after_lines(gen, readings),
        ),
    decreases gen.len(),
{
    reveal(Seq::filter);
    if gen.len() > 0 {
        let front = gen.drop_last();
        let row = gen.last();
        lemma_kept_weights(front, readings);
        let kept = front.filter(|l: Seq<char>| stays(l));
        if stays(row) {
            assert(gen.filter(|l: Seq<char>| stays(l)) == kept.push(row));
            assert(kept.push(row).drop_last() =~= kept);
        } else {
            lemma_dropped_row(after_lines(front, readings), row, readings);
        }
    }
}

proof fn lemma_stamp_says_nothing(t: Stats, stamp: Seq<char>, readings: Seq<(Seq<char>, u32)>)
    ensures
        after_line(t, stamp_row(stamp), readings) == t,
{
    lemma_tags();
    reveal_strlit("STAMP");
    reveal_strlit("STAMP\t");
    assert("STAMP"@.push('\t') =~= "STAMP\t"@);
    lemma_piece_before("STAMP"@, stamp, '\t');
    let row = stamp_row(stamp);
    assert(row[0] == 'S');
    if begins(row, "#"@) {
        assert(row.take(1)[0] == '#');
    }
}

/// What was computed from patch statistics: winrates, winrates on the five lanes and roles.
pub struct Findings {
    pub winrates: Seq<Computed>,
    pub lane_winrates: Seq<Seq<Computed>>,
    pub roles: Seq<RoleComputed>,
}

/// What patch statistics say of the champions' lanes.
pub open spec fn patch_lanes(patch: Seq<char>) -> Seq<(Seq<char>, Seq<LaneGames>)> {
    lanes_said(data_rows(patch, 7))
}

/// Whether the parts of a cache are the rows of what patch statistics say and of what was
/// computed from them.
pub open spec fn made_from(p: PartTexts, patch: Seq<char>, x: Findings) -> bool {
    let (w, total) = current_patch(patch);
    let l = patch_lanes(patch);
    let r = current_roles(patch);
    &&& x.winrates.len() == w.len() && x.lane_winrates.len() == w.len()
    &&& forall|i: int| 0 <= i < w.len() ==> (#[trigger] x.lane_winrates[i]).len() == 5
    &&& x.roles.len() == r.len()
    &&& p.winrates == winrate_rows(w, x.winrates)
    &&& p.lane_winrates == lane_rows(w, x.lane_winrates, w.len())
    &&& p.pos == pos_rows(l, l.len())
    &&& p.roles == role_rows(r, x.roles, r.len())
    &&& p.total == total
}

/// Whether the texts of a cache can stand in its rows: they hold no tabs, the ids of the pool
/// are not empty and hold no commas, and counts fit.
pub open spec fn parts_writable(p: PartTexts, x: Findings) -> bool {
    &&& lacks(p.save, '\t')
    &&& lacks(joined(p.pool, ","@), '\t')
    &&& forall|i: int| 0 <= i < p.pool.len() ==> lacks(#[trigger] p.pool[i], ',') && p.pool[i].len() > 0
    &&& p.total <= u32::MAX
    &&& forall|i: int| 0 <= i < x.winrates.len() ==> writable(#[trigger] x.winrates[i])
    &&& forall|i: int, l: int|
        0 <= i < x.lane_winrates.len() && 0 <= l < 5 ==> writable(#[trigger] x.lane_winrates[i][l])
    &&& forall|i: int|
        0 <= i < x.roles.len() ==> lacks((#[trigger] x.roles[i]).tank, '\t') && lacks(
            x.roles[i].heal,
            '\t',
        )
}

/// Whether tables say of each champion what patch statistics say and what was computed from
/// them, and give no winrate to other champions.
pub open spec fn patch_is_read(
    t: Stats,
    patch: Seq<char>,
    x: Findings,
    readings: Seq<(Seq<char>, u32)>,
) -> bool {
    let w = current_patch(patch).0;
    let l = patch_lanes(patch);
    let r = current_roles(patch);
    &&& forall|i: int|
        0 <= i < w.len() ==> lookup(t.delta, (#[trigger] w[i]).0) == Some(
            reading(readings, x.winrates[i].delta),
        ) && lookup(t.games, w[i].0) == Some(x.winrates[i].games as u32)
    &&& forall|c: Seq<char>|
        !named(w, w.len() as int, c) ==> #[trigger] lookup(t.delta, c) is None
    &&& forall|i: int, k: int|
        0 <= i < w.len() && 0 <= k < 5 && #[trigger] has_lane_row(
            w[i].1,
            x.lane_winrates[i],
            k,
        ) ==> t.cell(w[i].0, k as u8) == Some(lane_cell(x.lane_winrates[i][k], readings))
    &&& forall|i: int|
        0 <= i < l.len() && lanes_sum((#[trigger] l[i]).1, 5) > 0 ==> lanes_found(
            t,
            l[i].0,
            l[i].1,
        )
    &&& forall|i: int|
        0 <= i < r.len() && has_role_row((#[trigger] r[i]).1, x.roles[i]) ==> lookup(
            t.role,
            r[i].0,
        ) == Some((reading(readings, x.roles[i].tank), reading(readings, x.roles[i].heal)))
}

/// The rows of a cache before those from the patch statistics.
pub open spec fn front_rows(gen: Seq<Seq<char>>, p: PartTexts) -> Seq<Seq<char>> {
    let pool = if p.pool.len() == 0 {
        Seq::empty()
    } else {
        seq![pool_row(p.pool)]
    };
    gen.filter(|l: Seq<char>| stays(l)) + seq!["SAVE\t"@ + p.save] + pool
}

proof fn lemma_front_read(
    gen: Seq<Seq<char>>,
    p: PartTexts,
    x: Findings,
    readings: Seq<(Seq<char>, u32)>,
)
    requires
        parts_writable(p, x),
    ensures
        ({
            let t = read_on(no_stats(), front_rows(gen, p), readings);
            &&& t.save_name == p.save
            &&& t.pool == p.pool.to_set()
            &&& t.delta == no_stats().delta
            &&& same_weights(t, after_lines(gen, readings))
        }),
{
    let kept = gen.filter(|l: Seq<char>| stays(l));
    assert forall|i: int| 0 <= i < kept.len() implies stays(#[trigger] kept[i]) by {
        gen.lemma_filter_pred(|l: Seq<char>| stays(l), i);
    }
    lemma_kept_say_nothing(kept, readings);
    lemma_kept_weights(gen, readings);
    lemma_read_all(kept, readings);
    let save = "SAVE\t"@ + p.save;
    let t0 = read_on(no_stats(), kept, readings);
    let t1 = after_line(t0, save, readings);
    lemma_read_parts(no_stats(), kept, seq![save], readings);
    lemma_read_one(t0, save, readings);
    law_origin_rows_are_read(t0, p.save, p.total, Seq::empty(), readings);
    let front = kept + seq![save];
    if p.pool.len() > 0 {
        lemma_read_parts(no_stats(), front, seq![pool_row(p.pool)], readings);
        lemma_read_one(t1, pool_row(p.pool), readings);
        law_pool_row_is_read(t1, p.pool, readings);
    } else {
        assert(p.pool.to_set() =~= Set::empty());
        assert(front_rows(gen, p) =~= front);
    }
}

proof fn lemma_end_read(t: Stats, p: PartTexts, readings: Seq<(Seq<char>, u32)>)
    requires
        p.total <= u32::MAX,
    ensures
        read_on(t, seq![matches_row(p.total), stamp_row(p.stamp)], readings) == (Stats {
            matches: p.total,
            ..t
        }),
{
    let a = matches_row(p.total);
    let b = stamp_row(p.stamp);
    let m = after_line(t, a, readings);
    law_origin_rows_are_read(t, Seq::empty(), p.total, Seq::empty(), readings);
    lemma_stamp_says_nothing(m, p.stamp, readings);
    lemma_read_parts(t, seq![a], seq![b], readings);
    assert(seq![a, b] =~= seq![a] + seq![b]);
    lemma_read_one(t, a, readings);
    lemma_read_one(m, b, readings);
}

/// What patch statistics say is said in order, of champions whose names hold no tabs.
proof fn lemma_patch_sound(patch: Seq<char>)
    ensures
        names_sound(current_patch(patch).0),
        names_sound(patch_lanes(patch)),
        names_sound(current_roles(patch)),
{
    lemma_rows_sound(line_seq(patch), 7);
    lemma_rows_sound(line_seq(patch), 10);
    let rows = data_rows(patch, 7);
    if let Some(latest) = newest(rows) {
        lemma_winrates_sound(rows, latest, newest_but(rows, latest));
    }
    lemma_lanes_sound(rows);
    let ten = data_rows(patch, 10);
    if let Some(latest) = newest(ten) {
        lemma_roles_sound(ten, latest);
    }
}

/// The statistics after the rows of a cache that come from patch statistics.
pub open spec fn patch_rows_read(
    t: Stats,
    p: PartTexts,
    readings: Seq<(Seq<char>, u32)>,
) -> Stats {
    read_on(
        read_on(read_on(read_on(t, p.pos, readings), p.roles, readings), p.winrates, readings),
        p.lane_winrates,
        readings,
    )
}

proof fn lemma_patch_rows_in_turn(
    t: Stats,
    front: Seq<Seq<char>>,
    p: PartTexts,
    readings: Seq<(Seq<char>, u32)>,
)
    ensures
        read_on(t, front + p.pos + p.roles + p.winrates + p.lane_winrates, readings)
            == patch_rows_read(read_on(t, front, readings), p, readings),
{
    lemma_read_parts(t, front, p.pos, readings);
    lemma_read_parts(t, front + p.pos, p.roles, readings);
    lemma_read_parts(t, front + p.pos + p.roles, p.winrates, readings);
    lemma_read_parts(t, front + p.pos + p.roles + p.winrates, p.lane_winrates, readings);
}

/// The rows of a cache are read in their order.
proof fn lemma_rows_in_turn(gen: Seq<Seq<char>>, p: PartTexts, readings: Seq<(Seq<char>, u32)>)
    requires
        p.total <= u32::MAX,
        forall|i: int| 0 <= i < cache_rows(gen, p).len() ==> is_line(#[trigger] cache_rows(gen, p)[i]),
    ensures
        stats_of(with_feeds(cache_rows(gen, p)), readings) == (Stats {
            matches: p.total,
            ..patch_rows_read(read_on(no_stats(), front_rows(gen, p), readings), p, readings)
        }),
{
    let rows = cache_rows(gen, p);
    let front = front_rows(gen, p);
    let patch = front + p.pos + p.roles + p.winrates + p.lane_winrates;
    let end = seq![matches_row(p.total), stamp_row(p.stamp)];
    assert(rows == patch + end);
    law_lines_read_back(rows);
    lemma_read_all(rows, readings);
    lemma_read_parts(no_stats(), patch, end, readings);
    lemma_patch_rows_in_turn(no_stats(), front, p, readings);
    lemma_end_read(read_on(no_stats(), patch, readings), p, readings);
}

proof fn lemma_patch_read(
    t: Stats,
    p: PartTexts,
    patch: Seq<char>,
    x: Findings,
    readings: Seq<(Seq<char>, u32)>,
)
    requires
        made_from(p, patch, x),
        parts_writable(p, x),
        t.delta == no_stats().delta,
    ensures
        ({
            let u = patch_rows_read(t, p, readings);
            &&& patch_is_read(u, patch, x, readings)
            &&& u.save_name == t.save_name
            &&& u.pool == t.pool
            &&& same_weights(u, t)
        }),
{
    let w = current_patch(patch).0;
    let l = patch_lanes(patch);
    let r = current_roles(patch);
    lemma_patch_sound(patch);
    let t3 = read_on(t, p.pos, readings);
    let t4 = read_on(t3, p.roles, readings);
    let t5 = read_on(t4, p.winrates, readings);
    let u = read_on(t5, p.lane_winrates, readings);
    lemma_pos_read(t, l, l.len() as int, readings);
    lemma_roles_read(t3, r, x.roles, r.len() as int, readings);
    lemma_winrates_read(t4, w, x.winrates, w.len() as int, readings);
    assert(p.winrates.take(w.len() as int) =~= p.winrates);
    lemma_lanes_read(t5, w, x.lane_winrates, w.len() as int, readings);
    assert(u.primary == t3.primary && u.plays == t3.plays);
    assert forall|i: int| 0 <= i < l.len() && lanes_sum((#[trigger] l[i]).1, 5) > 0 implies
        lanes_found(u, l[i].0, l[i].1) by {
        assert(lanes_found(t3, l[i].0, l[i].1));
    }
    assert(u.role == t4.role);
    assert(u.delta == t5.delta && u.games == t5.games);
    assert forall|c: Seq<char>| !named(w, w.len() as int, c) implies #[trigger] lookup(
        u.delta,
        c,
    ) is None by {
        assert(lookup(t5.delta, c) == lookup(t4.delta, c));
    }
}

/// What tables say of champions does not rest on their matches.
proof fn lemma_same_patch(
    t: Stats,
    u: Stats,
    patch: Seq<char>,
    x: Findings,
    readings: Seq<(Seq<char>, u32)>,
)
    requires
        patch_is_read(t, patch, x, readings),
        u == (Stats { matches: u.matches, ..t }),
    ensures
        patch_is_read(u, patch, x, readings),
{
    let w = current_patch(patch).0;
    let l = patch_lanes(patch);
    assert forall|i: int, k: int|
        0 <= i < w.len() && 0 <= k < 5 && #[trigger] has_lane_row(
            w[i].1,
            x.lane_winrates[i],
            k,
        ) implies u.cell(w[i].0, k as u8) == Some(lane_cell(x.lane_winrates[i][k], readings)) by {
        assert(t.cell(w[i].0, k as u8) == u.cell(w[i].0, k as u8));
    }
    assert forall|i: int| 0 <= i < l.len() && lanes_sum((#[trigger] l[i]).1, 5) > 0 implies
        lanes_found(u, l[i].0, l[i].1) by {
        assert(lanes_found(t, l[i].0, l[i].1));
    }
}

/// What is put into a cache is what the tables show: the save, the matches and the pool, the
/// pairs, kits and ban rates of the generated weights, and of each champion the winrates, the
/// lanes and the role that were computed from the patch statistics. Champions of which these
/// say nothing have no winrate, whatever the generated weights say.
pub proof fn law_cache_is_read(
    gen: Seq<Seq<char>>,
    p: PartTexts,
    patch: Seq<char>,
    x: Findings,
    readings: Seq<(Seq<char>, u32)>,
)
    requires
        made_from(p, patch, x),
        parts_writable(p, x),
        forall|i: int| 0 <= i < cache_rows(gen, p).len() ==> is_line(#[trigger] cache_rows(gen, p)[i]),
    ensures
        ({
            let t = stats_of(with_feeds(cache_rows(gen, p)), readings);
            &&& t.save_name == p.save
            &&& t.matches == p.total
            &&& t.pool == p.pool.to_set()
            &&& same_weights(t, after_lines(gen, readings))
            &&& patch_is_read(t, patch, x, readings)
        }),
{
    let t2 = read_on(no_stats(), front_rows(gen, p), readings);
    let t6 = patch_rows_read(t2, p, readings);
    let t = stats_of(with_feeds(cache_rows(gen, p)), readings);
    lemma_rows_in_turn(gen, p, readings);
    lemma_front_read(gen, p, x, readings);
    lemma_patch_read(t2, p, patch, x, readings);
    lemma_same_patch(t6, t, patch, x, readings);
}

proof fn lemma_beginning_parts(a: Seq<Seq<char>>, b: Seq<Seq<char>>, p: Seq<char>)
    ensures
        beginning(a + b, p) == beginning(a, p) + beginning(b, p),
    decreases b.len(),
{
    if b.len() > 0 {
        assert((a + b).drop_last() =~= a + b.drop_last());
        lemma_beginning_parts(a, b.drop_last(), p);
    } else {
        assert(a + b =~= a);
    }
}

proof fn lemma_beginning_none(rows: Seq<Seq<char>>, p: Seq<char>)
    requires
        forall|i: int| 0 <= i < rows.len() ==> !begins(#[trigger] rows[i], p),
    ensures
        beginning(rows, p) == 0,
    decreases rows.len(),
{
    if rows.len() > 0 {
        let front = rows.drop_last();
        assert(forall|i: int| 0 <= i < front.len() ==> #[trigger] front[i] == rows[i]);
        lemma_beginning_none(front, p);
        assert(!begins(rows[rows.len() - 1], p));
    }
}

proof fn lemma_beginning_all(rows: Seq<Seq<char>>, p: Seq<char>)
    requires
        forall|i: int| 0 <= i < rows.len() ==> begins(#[trigger] rows[i], p),
    ensures
        beginning(rows, p) == rows.len(),
    decreases rows.len(),
{
    if rows.len() > 0 {
        let front = rows.drop_last();
        assert(forall|i: int| 0 <= i < front.len() ==> #[trigger] front[i] == rows[i]);
        lemma_beginning_all(front, p);
        assert(begins(rows[rows.len() - 1], p));
    }
}

/// A text that begins otherwise does not begin so.
proof fn lemma_begins_otherwise(s: Seq<char>, a: Seq<char>, b: Seq<char>, i: int)
    requires
        begins(s, a),
        0 <= i < a.len(),
        i < b.len(),
        a[i] != b[i],
    ensures
        !begins(s, b),
{
    assert(s.take(a.len() as int)[i] == a[i]);
    if begins(s, b) {
        assert(s.take(b.len() as int)[i] == b[i]);
    }
}

proof fn lemma_begins_sum(a: Seq<char>, b: Seq<char>)
    ensures
        begins(a + b, a),
{
    assert((a + b).take(a.len() as int) =~= a);
}

proof fn lemma_no_winrates_in_pos(m: Seq<(Seq<char>, Seq<LaneGames>)>, n: nat)
    ensures
        beginning(pos_rows(m, n), "C\t"@) == 0,
    decreases n,
{
    if n > 0 {
        lemma_no_winrates_in_pos(m, (n - 1) as nat);
        if let Some(row) = pos_row(m[n - 1].0, m[n - 1].1) {
            reveal_strlit("C\t");
            reveal_strlit("POS\t");
            assert(begins(row, "POS\t"@)) by {
                assert(row.take(4) =~= "POS\t"@);
            }
            lemma_begins_otherwise(row, "POS\t"@, "C\t"@, 0);
            let front = pos_rows(m, (n - 1) as nat);
            assert(front.push(row).drop_last() =~= front);
        }
    }
}

proof fn lemma_no_winrates_in_roles(
    m: Seq<(Seq<char>, Seq<RoleSaid>)>,
    xs: Seq<RoleComputed>,
    n: nat,
)
    ensures
        beginning(role_rows(m, xs, n), "C\t"@) == 0,
    decreases n,
{
    if n > 0 {
        lemma_no_winrates_in_roles(m, xs, (n - 1) as nat);
        let front = role_rows(m, xs, (n - 1) as nat);
        let x = xs[n - 1];
        let row = "RP\t"@ + m[n - 1].0 + "\t"@ + x.tank + "\t"@ + x.heal;
        reveal_strlit("C\t");
        reveal_strlit("RP\t");
        assert(begins(row, "RP\t"@)) by {
            assert(row.take(3) =~= "RP\t"@);
        }
        lemma_begins_otherwise(row, "RP\t"@, "C\t"@, 0);
        assert(front.push(row).drop_last() =~= front);
    }
}

proof fn lemma_no_winrates_in_champ_lanes(
    champ: Seq<char>,
    said: Seq<Said>,
    xs: Seq<Computed>,
    n: nat,
)
    ensures
        beginning(champ_lane_rows(champ, said, xs, n), "C\t"@) == 0,
    decreases n,
{
    if n > 0 {
        lemma_no_winrates_in_champ_lanes(champ, said, xs, (n - 1) as nat);
        let front = champ_lane_rows(champ, said, xs, (n - 1) as nat);
        let row = lane_row(champ, (n - 1) as nat, xs[n - 1]);
        reveal_strlit("C\t");
        reveal_strlit("CP\t");
        assert(begins(row, "CP\t"@)) by {
            assert(row.take(3) =~= "CP\t"@);
        }
        lemma_begins_otherwise(row, "CP\t"@, "C\t"@, 1);
        assert(front.push(row).drop_last() =~= front);
    }
}

proof fn lemma_no_winrates_in_lanes(
    m: Seq<(Seq<char>, Seq<Said>)>,
    xs: Seq<Seq<Computed>>,
    n: nat,
)
    ensures
        beginning(lane_rows(m, xs, n), "C\t"@) == 0,
    decreases n,
{
    if n > 0 {
        lemma_no_winrates_in_lanes(m, xs, (n - 1) as nat);
        let back = champ_lane_rows(m[n - 1].0, m[n - 1].1, xs[n - 1], 5);
        lemma_no_winrates_in_champ_lanes(m[n - 1].0, m[n - 1].1, xs[n - 1], 5);
        lemma_beginning_parts(lane_rows(m, xs, (n - 1) as nat), back, "C\t"@);
    }
}

proof fn lemma_front_counts(gen: Seq<Seq<char>>, p: PartTexts)
    ensures
        beginning(front_rows(gen, p), "SAVE\t"@) > 0,
        beginning(front_rows(gen, p), "C\t"@) == 0,
{
    reveal_strlit("C\t");
    reveal_strlit("SAVE\t");
    reveal_strlit("POOL\t");
    let kept = gen.filter(|l: Seq<char>| stays(l));
    assert forall|i: int| 0 <= i < kept.len() implies !begins(#[trigger] kept[i], "C\t"@) by {
        gen.lemma_filter_pred(|l: Seq<char>| stays(l), i);
        assert(stays(kept[i]));
    }
    lemma_beginning_none(kept, "C\t"@);
    let save = "SAVE\t"@ + p.save;
    lemma_begins_sum("SAVE\t"@, p.save);
    lemma_begins_otherwise(save, "SAVE\t"@, "C\t"@, 0);
    lemma_beginning_parts(kept, seq![save], "C\t"@);
    lemma_beginning_parts(kept, seq![save], "SAVE\t"@);
    lemma_beginning_none(seq![save], "C\t"@);
    lemma_beginning_all(seq![save], "SAVE\t"@);
    let front = kept + seq![save];
    if p.pool.len() > 0 {
        let row = pool_row(p.pool);
        lemma_begins_sum("POOL\t"@, joined(p.pool, ","@));
        lemma_begins_otherwise(row, "POOL\t"@, "C\t"@, 0);
        lemma_beginning_none(seq![row], "C\t"@);
        lemma_beginning_parts(front, seq![row], "C\t"@);
        lemma_beginning_parts(front, seq![row], "SAVE\t"@);
    } else {
        assert(front_rows(gen, p) =~= front);
    }
}

/// A cache belongs to a save, also where no champion has a winrate yet, and the overlay is
/// told of as many champions as have one.
pub proof fn law_cache_is_shown(
    gen: Seq<Seq<char>>,
    p: PartTexts,
    patch: Seq<char>,
    x: Findings,
)
    requires
        made_from(p, patch, x),
        forall|i: int| 0 <= i < cache_rows(gen, p).len() ==> is_line(#[trigger] cache_rows(gen, p)[i]),
    ensures
        ({
            let text = with_feeds(cache_rows(gen, p));
            let champs = current_patch(patch).0.len();
            &&& of_a_save(text)
            &&& source_of(Some(text)) == if champs == 0 {
                "새 세이브 · 데이터 없음(콜드스타트)"@
            } else {
                decimal(champs) + "챔프"@
            }
        }),
{
    let rows = cache_rows(gen, p);
    law_lines_read_back(rows);
    let w = current_patch(patch).0;
    let l = patch_lanes(patch);
    let r = current_roles(patch);
    let front = front_rows(gen, p);
    let end = seq![matches_row(p.total), stamp_row(p.stamp)];
    let r3 = front + p.pos;
    let r4 = r3 + p.roles;
    let r5 = r4 + p.winrates;
    let r6 = r5 + p.lane_winrates;
    assert(rows == r6 + end);
    lemma_front_counts(gen, p);
    lemma_no_winrates_in_pos(l, l.len());
    lemma_no_winrates_in_roles(r, x.roles, r.len());
    lemma_no_winrates_in_lanes(w, x.lane_winrates, w.len());
    reveal_strlit("C\t");
    reveal_strlit("M\t");
    reveal_strlit("STAMP\t");
    assert forall|i: int| 0 <= i < p.winrates.len() implies begins(#[trigger] p.winrates[i], "C\t"@) by {
        let row = winrate_row(w[i].0, x.winrates[i]);
        assert(p.winrates[i] == row);
        assert(row.take(2) =~= "C\t"@);
    }
    lemma_beginning_all(p.winrates, "C\t"@);
    lemma_begins_sum("M\t"@, decimal(p.total));
    lemma_begins_otherwise(end[0], "M\t"@, "C\t"@, 0);
    lemma_begins_sum("STAMP\t"@, p.stamp);
    lemma_begins_otherwise(end[1], "STAMP\t"@, "C\t"@, 0);
    lemma_beginning_none(end, "C\t"@);
    lemma_beginning_parts(front, p.pos, "C\t"@);
    lemma_beginning_parts(r3, p.roles, "C\t"@);
    lemma_beginning_parts(r4, p.winrates, "C\t"@);
    lemma_beginning_parts(r5, p.lane_winrates, "C\t"@);
    lemma_beginning_parts(r6, end, "C\t"@);
    lemma_beginning_parts(front, p.pos, "SAVE\t"@);
    lemma_beginning_parts(r3, p.roles, "SAVE\t"@);
    lemma_beginning_parts(r4, p.winrates, "SAVE\t"@);
    lemma_beginning_parts(r5, p.lane_winrates, "SAVE\t"@);
    lemma_beginning_parts(r6, end, "SAVE\t"@);
}

} // verus!
