//! What holds of all patch statistics: which rows count, for whom, and which lanes and roles
//! come out of them.

use vstd::prelude::*;

#[allow(unused_imports)]
use crate::bits::{ge64, gt64, nan64, rank64};
#[allow(unused_imports)]
use crate::numeral::{decimal, number, number_or_zero};
#[allow(unused_imports)]
use crate::patch::{
    champ_lane_rows,
    current_patch,
    current_roles,
    data_rows,
    is_played,
    lane_number,
    lane_row,
    lane_sum,
    lanes_said,
    lanes_sum,
    most_played,
    newest,
    newest_but,
    on_lane,
    played_but,
    pos_row,
    pos_rows,
    role_games,
    role_rows,
    role_said,
    roles_said,
    rows_of,
    said_of,
    version_total,
    winrates_said,
    Computed,
    LaneGames,
    RoleComputed,
    RoleSaid,
    Said,
};
#[allow(unused_imports)]
use crate::row_laws::lanes_but;
#[allow(unused_imports)]
use crate::text::{before, line_seq, pieces};
#[allow(unused_imports)]
use crate::textmap::{law_lookup_put, law_lookup_put_other, lookup, put};

verus! {

/// The heading is no row; any further line is one if and only if it has enough fields.
pub proof fn law_rows(lines: Seq<Seq<char>>, line: Seq<char>, n: nat)
    ensures
        rows_of(seq![line], n).len() == 0,
        rows_of(Seq::empty(), n).len() == 0,
        lines.len() > 0 && pieces(line, '\t').len() >= n ==> rows_of(lines.push(line), n)
            == rows_of(lines, n).push(pieces(line, '\t')),
        lines.len() > 0 && pieces(line, '\t').len() < n ==> rows_of(lines.push(line), n) == rows_of(
            lines,
            n,
        ),
{
    assert(lines.push(line).drop_last() =~= lines);
}

/// The lanes are numbered top, jungle, middle, bottom, support; nothing else is a lane.
pub proof fn law_lane_numbers(name: Seq<char>)
    ensures
        lane_number(name) == Some(0u8) <==> name == "Top"@,
        lane_number(name) == Some(1u8) <==> name == "Jungle"@,
        lane_number(name) == Some(2u8) <==> name == "Mid"@,
        lane_number(name) == Some(3u8) <==> name == "Bottom"@,
        lane_number(name) == Some(4u8) <==> name == "Support"@,
        lane_number(name) matches Some(l) ==> l < 5,
{
    reveal_strlit("Top");
    reveal_strlit("Jungle");
    reveal_strlit("Mid");
    reveal_strlit("Bottom");
    reveal_strlit("Support");
    assert("Top"@.len() == 3 && "Jungle"@.len() == 6 && "Mid"@.len() == 3 && "Bottom"@.len() == 6
        && "Support"@.len() == 7);
    assert("Top"@[0] == 'T' && "Mid"@[0] == 'M' && "Jungle"@[0] == 'J' && "Bottom"@[0] == 'B');
}

/// A further row of the newest version counts for its champion as current, one of the version
/// before as not current, and one of any other for nobody; its lane, wins and matches are its
/// own.
pub proof fn law_winrate_row_counts(
    rows: Seq<Seq<Seq<char>>>,
    f: Seq<Seq<char>>,
    latest: Seq<char>,
    prev: Option<Seq<char>>,
    champ: Seq<char>,
)
    requires
        prev != Some(latest),
    ensures
        ({
            let was = said_of(winrates_said(rows, latest, prev), champ);
            let now = said_of(winrates_said(rows.push(f), latest, prev), champ);
            &&& f[2] != champ ==> now == was
            &&& f[0] != latest && prev != Some(f[0]) ==> now == was
            &&& f[2] == champ && f[0] == latest ==> now == was.push(
                Said { current: true, lane: lane_number(f[3]), wins: f[5], matches: f[6] },
            )
            &&& f[2] == champ && prev == Some(f[0]) ==> now == was.push(
                Said { current: false, lane: lane_number(f[3]), wins: f[5], matches: f[6] },
            )
        }),
        winrates_said(Seq::empty(), latest, prev).len() == 0,
{
    assert(rows.push(f).drop_last() =~= rows);
    let m = winrates_said(rows, latest, prev);
    let s = Said {
        current: f[0] == latest,
        lane: lane_number(f[3]),
        wins: f[5],
        matches: f[6],
    };
    law_lookup_put(m, f[2], said_of(m, f[2]).push(s));
    if f[2] != champ {
        law_lookup_put_other(m, f[2], said_of(m, f[2]).push(s), champ);
    }
}

/// The winrates of a patch are those of its newest version and of the newest before that, of
/// rows of seven fields or more; without rows there are none.
pub proof fn law_current_patch(patch: Seq<char>, v: Seq<char>, w: Seq<char>)
    ensures
        ({
            let rows = data_rows(patch, 7);
            &&& newest(rows) == Some(v) && newest_but(rows, v) is None ==> current_patch(patch).0
                == winrates_said(rows, v, None)
            &&& newest(rows) == Some(v) && newest_but(rows, v) == Some(w) ==> current_patch(patch).0
                == winrates_said(rows, v, Some(w))
            &&& newest(rows) == Some(v) ==> current_patch(patch).1 == version_total(rows, v)
            &&& rows.len() == 0 ==> current_patch(patch).0.len() == 0 && current_patch(patch).1 == 0
        }),
        data_rows(patch, 7) == rows_of(line_seq(patch), 7),
{
}

/// The matches of a version are those that its first row says, 0 where it says no number.
pub proof fn law_version_total(rows: Seq<Seq<Seq<char>>>, v: Seq<char>, i: int)
    ensures
        0 <= i < rows.len() && rows[i][0] == v && (forall|j: int|
            0 <= j < i ==> #[trigger] rows[j][0] != v) ==> version_total(rows, v) == number_or_zero(
            rows[i][1],
            u32::MAX as nat,
        ),
        (forall|j: int| 0 <= j < rows.len() ==> #[trigger] rows[j][0] != v) ==> version_total(
            rows,
            v,
        ) == 0,
    decreases rows.len(),
{
    if rows.len() > 0 {
        let rest = rows.skip(1);
        assert(forall|j: int| 0 <= j < rest.len() ==> #[trigger] rest[j] == rows[j + 1]);
        law_version_total(rest, v, i - 1);
        if forall|j: int| 0 <= j < i ==> #[trigger] rows[j][0] != v {
            assert forall|j: int| 0 <= j < i - 1 && i <= rows.len() implies #[trigger] rest[j][0]
                != v by {
                assert(rows[j + 1][0] != v);
            }
        }
        if forall|j: int| 0 <= j < rows.len() ==> #[trigger] rows[j][0] != v {
            assert forall|j: int| 0 <= j < rest.len() implies #[trigger] rest[j][0] != v by {
                assert(rows[j + 1][0] != v);
            }
            assert(rows[0][0] != v);
        }
        if i > 0 {
            assert(0 <= 0 < i);
        }
    }
}

/// What is said of a lane is what is said with that lane, and nothing else.
pub proof fn law_said_on_lane(said: Seq<Said>, s: Said, lane: u8)
    ensures
        on_lane(Seq::empty(), lane).len() == 0,
        s.lane == Some(lane) ==> on_lane(said.push(s), lane) == on_lane(said, lane).push(s),
        s.lane != Some(lane) ==> on_lane(said.push(s), lane) == on_lane(said, lane),
{
    reveal(Seq::filter);
    assert(said.push(s).drop_last() =~= said);
}

/// A champion's lane is written if and only if something was said of it and it had matches.
pub proof fn law_lane_is_written(champ: Seq<char>, said: Seq<Said>, xs: Seq<Computed>, l: nat)
    ensures
        champ_lane_rows(champ, said, xs, 0).len() == 0,
        l < 5 && on_lane(said, l as u8).len() > 0 && !nan64(xs[l as int].matches) && rank64(
            xs[l as int].matches,
        ) > 0 ==> champ_lane_rows(champ, said, xs, l + 1) == champ_lane_rows(
            champ,
            said,
            xs,
            l,
        ).push(lane_row(champ, l, xs[l as int])),
        l < 5 && (on_lane(said, l as u8).len() == 0 || nan64(xs[l as int].matches) || rank64(
            xs[l as int].matches,
        ) <= 0) ==> champ_lane_rows(champ, said, xs, l + 1) == champ_lane_rows(champ, said, xs, l),
{
}

/// A further row adds its matches to those of its champion on its lane; one without a lane
/// adds nothing.
pub proof fn law_lane_matches(rows: Seq<Seq<Seq<char>>>, f: Seq<Seq<char>>, champ: Seq<char>, l: u8)
    ensures
        ({
            let was = said_of(lanes_said(rows), champ);
            let now = said_of(lanes_said(rows.push(f)), champ);
            &&& f[2] == champ && lane_number(f[3]) == Some(l) ==> lane_sum(now, l as int)
                == lane_sum(was, l as int) + number_or_zero(f[6], u32::MAX as nat)
            &&& f[2] != champ || lane_number(f[3]) != Some(l) ==> lane_sum(now, l as int)
                == lane_sum(was, l as int)
        }),
        lane_sum(said_of(lanes_said(Seq::empty()), champ), l as int) == 0,
{
    assert(rows.push(f).drop_last() =~= rows);
    let m = lanes_said(rows);
    if let Some(k) = lane_number(f[3]) {
        let n = number_or_zero(f[6], u32::MAX as nat) as u32;
        let old = said_of(m, f[2]);
        let new = old.push((k, n));
        law_lookup_put(m, f[2], new);
        assert(new.drop_last() =~= old);
        if f[2] != champ {
            law_lookup_put_other(m, f[2], new, champ);
        }
    }
}

/// A champion plays a lane where a fifth or more of its matches on the five lanes were.
pub proof fn law_played(said: Seq<LaneGames>, l: int)
    ensures
        lanes_sum(said, 5) == lane_sum(said, 0) + lane_sum(said, 1) + lane_sum(said, 2) + lane_sum(
            said,
            3,
        ) + lane_sum(said, 4),
        is_played(said, l) <==> lane_sum(said, l) * 100 >= 20 * lanes_sum(said, 5),
{
    reveal_with_fuel(lanes_sum, 6);
}

/// The further lanes of a champion are those that it plays, but for one, in their order.
pub proof fn law_further_lanes(said: Seq<LaneGames>, not: nat, n: nat, l: u8)
    requires
        n <= 5,
    ensures
        lanes_but(said, not, n).contains(l) <==> l < n && l != not && is_played(said, l as int),
        forall|j: int, k: int|
            0 <= j < k < lanes_but(said, not, n).len() ==> #[trigger] lanes_but(said, not, n)[j]
                < #[trigger] lanes_but(said, not, n)[k],
        forall|k: int| 0 <= k < lanes_but(said, not, n).len() ==> #[trigger] lanes_but(
            said,
            not,
            n,
        )[k] < n,
    decreases n,
{
    if n > 0 {
        let m = (n - 1) as nat;
        law_further_lanes(said, not, m, l);
        let front = lanes_but(said, not, m);
        let all = lanes_but(said, not, n);
        if m != not && is_played(said, m as int) {
            assert(all =~= front.push(m as u8));
            assert(all[front.len() as int] == m as u8);
            if front.contains(l) {
                let k = choose|k: int| 0 <= k < front.len() && front[k] == l;
                assert(all[k] == l);
            }
            if all.contains(l) {
                let k = choose|k: int| 0 <= k < all.len() && all[k] == l;
                if k < front.len() {
                    assert(front[k] == l);
                }
            }
        }
    }
}

/// A champion's lanes are written if and only if it had matches on one.
pub proof fn law_lanes_are_written(m: Seq<(Seq<char>, Seq<LaneGames>)>, n: nat)
    requires
        n < m.len(),
    ensures
        ({
            let (champ, said) = m[n as int];
            let played = lane_sum(said, 0) > 0 || lane_sum(said, 1) > 0 || lane_sum(said, 2) > 0
                || lane_sum(said, 3) > 0 || lane_sum(said, 4) > 0;
            &&& played ==> pos_row(champ, said) is Some && pos_rows(m, n + 1) == pos_rows(m, n).push(
                pos_row(champ, said)->0,
            )
            &&& !played ==> pos_row(champ, said) is None && pos_rows(m, n + 1) == pos_rows(m, n)
        }),
{
    law_played(m[n as int].1, 0);
}

/// A further row of a version says dealing, tanking, healing and matches of its champion's
/// role; one of another version says nothing.
pub proof fn law_role_row_counts(
    rows: Seq<Seq<Seq<char>>>,
    f: Seq<Seq<char>>,
    version: Seq<char>,
    champ: Seq<char>,
)
    ensures
        ({
            let was = said_of(roles_said(rows, version), champ);
            let now = said_of(roles_said(rows.push(f), version), champ);
            &&& f[2] != champ || f[0] != version ==> now == was
            &&& f[2] == champ && f[0] == version ==> {
                &&& now.len() == was.len() + 1 && now.drop_last() == was
                &&& now.last().dealing == f[7] && now.last().tanking == f[8] && now.last().healing
                    == f[9]
                &&& now.last().matches == number_or_zero(f[6], u32::MAX as nat)
                &&& role_games(now) == role_games(was) + number_or_zero(f[6], u32::MAX as nat)
            }
        }),
        roles_said(Seq::empty(), version).len() == 0,
        role_games(Seq::empty()) == 0,
{
    assert(rows.push(f).drop_last() =~= rows);
    let m = roles_said(rows, version);
    let new = said_of(m, f[2]).push(role_said(f));
    law_lookup_put(m, f[2], new);
    assert(new.drop_last() =~= said_of(m, f[2]));
    if f[2] != champ {
        law_lookup_put_other(m, f[2], new, champ);
    }
}

/// Roles are those of the newest version, of rows of ten fields or more.
pub proof fn law_current_roles(patch: Seq<char>, v: Seq<char>)
    ensures
        newest(rows_of(line_seq(patch), 10)) == Some(v) ==> current_roles(patch) == roles_said(
            rows_of(line_seq(patch), 10),
            v,
        ),
        rows_of(line_seq(patch), 10).len() == 0 ==> current_roles(patch).len() == 0,
{
}

/// A champion's role is written if and only if it has five matches and dealt damage.
pub proof fn law_role_is_written(
    m: Seq<(Seq<char>, Seq<RoleSaid>)>,
    xs: Seq<RoleComputed>,
    n: nat,
)
    requires
        n < m.len(),
        !nan64(xs[n as int].dealt),
    ensures
        role_games(m[n as int].1) >= 5 && rank64(xs[n as int].dealt) > 0 ==> role_rows(m, xs, n + 1)
            == role_rows(m, xs, n).push(
            "RP\t"@ + m[n as int].0 + "\t"@ + xs[n as int].tank + "\t"@ + xs[n as int].heal,
        ),
        role_games(m[n as int].1) < 5 || rank64(xs[n as int].dealt) <= 0 ==> role_rows(m, xs, n + 1)
            == role_rows(m, xs, n),
        role_rows(m, xs, 0).len() == 0,
{
}

} // verus!
