//! What holds of every page: who is listed, in which order, and from what it is counted.

use vstd::prelude::*;

#[allow(unused_imports)]
use crate::bits::{gt64, nan64, rank64};
#[allow(unused_imports)]
use crate::numeral::number;
#[allow(unused_imports)]
use crate::rank::{by_key, law_ranked_complete, law_ranked_keeps};
#[allow(unused_imports)]
use crate::report::{
    bans_in,
    by_rate,
    champs_said,
    enough,
    games_in,
    law_by_rate_falls,
    page,
    page_subject,
    page_text,
    pos_places,
    pos_row,
    pos_table,
    pos_tables,
    rate_keys,
    report_of,
    report_said,
    role_glyph,
    tier_colour,
    tier_name,
    top_places,
    top_row,
    top_rows,
    wins_in,
    Figures,
    ReportData,
    ReportSaid,
    LEGEND,
    PAGE_END,
    PAGE_HEAD,
    POS_COLUMNS,
    POS_HEAD,
    TOP_HEAD,
};
#[allow(unused_imports)]
use crate::textmap::{law_lookup_put, law_lookup_put_other, lookup};

verus! {

/// Wins and games are summed over a champion's rows, over those of one lane where a lane is
/// asked for; its bans are the most that a row says.
pub proof fn law_rows_are_summed(said: Seq<ReportSaid>, s: ReportSaid, pos: Seq<char>)
    ensures
        games_in(Seq::empty(), None) == 0 && wins_in(Seq::empty(), None) == 0,
        games_in(Seq::empty(), Some(pos)) == 0 && wins_in(Seq::empty(), Some(pos)) == 0,
        bans_in(Seq::empty()) == 0,
        games_in(said.push(s), None) == games_in(said, None) + s.matches,
        wins_in(said.push(s), None) == wins_in(said, None) + s.wins,
        s.pos == pos ==> games_in(said.push(s), Some(pos)) == games_in(said, Some(pos)) + s.matches
            && wins_in(said.push(s), Some(pos)) == wins_in(said, Some(pos)) + s.wins,
        s.pos != pos ==> games_in(said.push(s), Some(pos)) == games_in(said, Some(pos)) && wins_in(
            said.push(s),
            Some(pos),
        ) == wins_in(said, Some(pos)),
        bans_in(said.push(s)) >= s.bans && bans_in(said.push(s)) >= bans_in(said),
        bans_in(said.push(s)) == s.bans || bans_in(said.push(s)) == bans_in(said),
{
    assert(said.push(s).drop_last() =~= said);
}

/// What a row says: its lane, wins, matches and bans, 0 where it is no number, and seven sums.
pub proof fn law_row_said(f: Seq<Seq<char>>, k: int)
    requires
        f.len() >= 14,
    ensures
        report_said(f).pos == f[3],
        number(f[4], u32::MAX as nat) matches Some(n) ==> report_said(f).bans == n,
        number(f[5], u32::MAX as nat) matches Some(n) ==> report_said(f).wins == n,
        number(f[6], u32::MAX as nat) matches Some(n) ==> report_said(f).matches == n,
        number(f[4], u32::MAX as nat) is None ==> report_said(f).bans == 0,
        number(f[5], u32::MAX as nat) is None ==> report_said(f).wins == 0,
        number(f[6], u32::MAX as nat) is None ==> report_said(f).matches == 0,
        report_said(f).sums.len() == 7,
        0 <= k < 7 ==> report_said(f).sums[k] == f[7 + k],
{
}

/// A further row of the version is one more row of its champion, and of no other; one of
/// another version says nothing.
pub proof fn law_rows_of_version(
    rows: Seq<Seq<Seq<char>>>,
    f: Seq<Seq<char>>,
    version: Seq<char>,
    c: Seq<char>,
)
    ensures
        f[0] != version ==> champs_said(rows.push(f), version) == champs_said(rows, version),
        f[0] == version && c != f[2] ==> lookup(champs_said(rows.push(f), version), c) == lookup(
            champs_said(rows, version),
            c,
        ),
        f[0] == version ==> lookup(champs_said(rows.push(f), version), f[2]) == Some(
            (match lookup(champs_said(rows, version), f[2]) {
                Some(v) => v,
                None => Seq::empty(),
            }).push(report_said(f)),
        ),
{
    assert(rows.push(f).drop_last() =~= rows);
    let front = champs_said(rows, version);
    let said = crate::patch::said_of(front, f[2]).push(report_said(f));
    law_lookup_put(front, f[2], said);
    if c != f[2] {
        law_lookup_put_other(front, f[2], said, c);
    }
}

proof fn lemma_enough(
    m: Seq<(Seq<char>, Seq<ReportSaid>)>,
    pos: Option<Seq<char>>,
    least: nat,
    n: nat,
    i: int,
)
    ensures
        enough(m, pos, least, n).contains(i) <==> 0 <= i < n && games_in(m[i].1, pos) >= least,
        enough(m, pos, least, n).no_duplicates(),
        forall|k: int| 0 <= k < enough(m, pos, least, n).len() ==> 0 <= #[trigger] enough(
            m,
            pos,
            least,
            n,
        )[k] < n,
    decreases n,
{
    if n > 0 {
        lemma_enough(m, pos, least, (n - 1) as nat, i);
        let front = enough(m, pos, least, (n - 1) as nat);
        let all = enough(m, pos, least, n);
        if games_in(m[n - 1].1, pos) >= least {
            assert(all =~= front.push(n - 1));
            assert(all[front.len() as int] == n - 1);
            if front.contains(i) {
                let k = choose|k: int| 0 <= k < front.len() && front[k] == i;
                assert(all[k] == i);
            }
        }
    }
}

/// A champion can be among the strongest if and only if it has 15 games, and is listed on a
/// lane if and only if it has 8 there: top, jungle, middle, bottom, support.
pub proof fn law_enough_games(r: ReportData, i: int, lane: int)
    requires
        0 <= lane < 5,
    ensures
        top_places(r).contains(i) <==> 0 <= i < r.champs.len() && games_in(r.champs[i].1, None)
            >= 15,
        top_places(r).no_duplicates(),
        pos_places(r, lane).no_duplicates(),
        lane == 0 ==> (pos_places(r, lane).contains(i) <==> 0 <= i < r.champs.len() && games_in(
            r.champs[i].1,
            Some("Top"@),
        ) >= 8),
        lane == 1 ==> (pos_places(r, lane).contains(i) <==> 0 <= i < r.champs.len() && games_in(
            r.champs[i].1,
            Some("Jungle"@),
        ) >= 8),
        lane == 2 ==> (pos_places(r, lane).contains(i) <==> 0 <= i < r.champs.len() && games_in(
            r.champs[i].1,
            Some("Mid"@),
        ) >= 8),
        lane == 3 ==> (pos_places(r, lane).contains(i) <==> 0 <= i < r.champs.len() && games_in(
            r.champs[i].1,
            Some("Bottom"@),
        ) >= 8),
        lane == 4 ==> (pos_places(r, lane).contains(i) <==> 0 <= i < r.champs.len() && games_in(
            r.champs[i].1,
            Some("Support"@),
        ) >= 8),
{
    lemma_enough(r.champs, None, 15, r.champs.len(), i);
    lemma_enough(r.champs, Some(crate::report::POS_EN[lane]@), 8, r.champs.len(), i);
}

/// Some texts, one behind the other.
pub open spec fn stacked(rows: Seq<Seq<char>>) -> Seq<char>
    decreases rows.len(),
{
    if rows.len() == 0 {
        Seq::empty()
    } else {
        stacked(rows.drop_last()) + rows.last()
    }
}

/// Whether `o` lists some of the champions with the winrates `xs`, each once, from the highest
/// winrate to the lowest, and leaves none out that has a higher one than one of them.
pub open spec fn from_the_best(o: Seq<int>, xs: Seq<Figures>) -> bool {
    &&& o.no_duplicates()
    &&& forall|k: int| 0 <= k < o.len() ==> 0 <= #[trigger] o[k] < xs.len()
    &&& forall|j: int, k: int|
        0 <= j < k < o.len() ==> rank64(xs[#[trigger] o[j]].rate) > rank64(
            xs[#[trigger] o[k]].rate,
        ) || (rank64(xs[o[j]].rate) == rank64(xs[o[k]].rate) && o[j] < o[k])
    &&& forall|i: int, k: int|
        0 <= i < xs.len() && !o.contains(i) && 0 <= k < o.len() ==> rank64(
            xs[#[trigger] o[k]].rate,
        ) >= rank64((#[trigger] xs[i]).rate)
}

proof fn lemma_first_of_order(xs: Seq<Figures>, n: nat)
    requires
        n <= xs.len(),
    ensures
        from_the_best(by_rate(xs).take(n as int), xs),
        by_rate(xs).len() == xs.len(),
{
    let keys = rate_keys(xs);
    let above = |x: int, y: int| keys[x] > keys[y];
    let all = by_rate(xs);
    let o = all.take(n as int);
    law_ranked_keeps(above, keys.len());
    law_by_rate_falls(xs);
    assert forall|i: int, k: int|
        0 <= i < xs.len() && !o.contains(i) && 0 <= k < o.len() implies rank64(
        xs[#[trigger] o[k]].rate,
    ) >= rank64((#[trigger] xs[i]).rate) by {
        law_ranked_complete(above, keys.len(), i);
        let q = choose|q: int| 0 <= q < all.len() && all[q] == i;
        if q < n {
            assert(o[q] == i);
        }
        assert(o[k] == all[k]);
    }
    assert forall|j: int, k: int| 0 <= j < k < o.len() implies rank64(xs[#[trigger] o[j]].rate)
        > rank64(xs[#[trigger] o[k]].rate) || (rank64(xs[o[j]].rate) == rank64(xs[o[k]].rate)
        && o[j] < o[k]) by {
        assert(o[j] == all[j] && o[k] == all[k]);
    }
}

/// The rows of the champions of `o` among the strongest.
pub open spec fn top_texts(r: ReportData, xs: Seq<Figures>, o: Seq<int>) -> Seq<Seq<char>> {
    Seq::new(
        o.len(),
        |k: int|
            top_row(
                r.champs[top_places(r)[o[k]]].0,
                games_in(r.champs[top_places(r)[o[k]]].1, None),
                xs[o[k]],
            ),
    )
}

/// The rows of the champions of `o` on a lane.
pub open spec fn lane_texts(r: ReportData, lane: int, pos: Seq<char>, xs: Seq<Figures>, o: Seq<int>) -> Seq<
    Seq<char>,
> {
    Seq::new(
        o.len(),
        |k: int|
            pos_row(
                r.champs[pos_places(r, lane)[o[k]]].0,
                games_in(r.champs[pos_places(r, lane)[o[k]]].1, Some(pos)),
                xs[o[k]],
            ),
    )
}

proof fn lemma_top_rows(r: ReportData, xs: Seq<Figures>, n: nat)
    requires
        n <= by_rate(xs).len(),
    ensures
        top_rows(r, top_places(r), xs, n) == stacked(
            top_texts(r, xs, by_rate(xs).take(n as int)),
        ),
    decreases n,
{
    let now = top_texts(r, xs, by_rate(xs).take(n as int));
    if n > 0 {
        lemma_top_rows(r, xs, (n - 1) as nat);
        assert(now.drop_last() =~= top_texts(r, xs, by_rate(xs).take(n - 1)));
    }
}

proof fn lemma_lane_rows(r: ReportData, lane: int, pos: Seq<char>, xs: Seq<Figures>, n: nat)
    requires
        n <= by_rate(xs).len(),
    ensures
        pos_table(r, pos, pos_places(r, lane), xs, n) == stacked(
            lane_texts(r, lane, pos, xs, by_rate(xs).take(n as int)),
        ),
    decreases n,
{
    let now = lane_texts(r, lane, pos, xs, by_rate(xs).take(n as int));
    if n > 0 {
        lemma_lane_rows(r, lane, pos, xs, (n - 1) as nat);
        assert(now.drop_last() =~= lane_texts(r, lane, pos, xs, by_rate(xs).take(n - 1)));
    }
}

/// The table of the strongest champions has a row for each of the 15 with the highest winrates,
/// or for all that have enough games, from the highest to the lowest.
pub proof fn law_strongest_are_listed(
    r: ReportData,
    save: Seq<char>,
    tops: Seq<Figures>,
    lanes: Seq<Seq<Figures>>,
)
    requires
        tops.len() == top_places(r).len(),
    ensures
        exists|o: Seq<int>|
            {
                &&& #[trigger] from_the_best(o, tops)
                &&& o.len() <= 15
                &&& o.len() == 15 || o.len() == top_places(r).len()
                &&& page(r, save, tops, lanes) == PAGE_HEAD@ + page_subject(r, save) + LEGEND@
                    + TOP_HEAD@ + stacked(top_texts(r, tops, o)) + POS_HEAD@ + pos_tables(
                    r,
                    lanes,
                    5,
                ) + PAGE_END@
            },
{
    let n: nat = if tops.len() < 15 {
        tops.len()
    } else {
        15
    };
    lemma_first_of_order(tops, n);
    lemma_top_rows(r, tops, n);
    let o = by_rate(tops).take(n as int);
    assert(from_the_best(o, tops));
}

/// A lane with champions to be listed has a table of all of them, from the highest winrate to
/// the lowest, below its name; one without has none. The lanes stand in their order.
pub proof fn law_lanes_are_listed(r: ReportData, xs: Seq<Seq<Figures>>, lane: int)
    requires
        0 <= lane < 5,
        xs.len() == 5,
        xs[lane].len() == pos_places(r, lane).len(),
    ensures
        pos_tables(r, xs, 0).len() == 0,
        pos_places(r, lane).len() == 0 ==> pos_tables(r, xs, (lane + 1) as nat) == pos_tables(
            r,
            xs,
            lane as nat,
        ),
        pos_places(r, lane).len() > 0 ==> exists|o: Seq<int>|
            {
                let (ko, en) = if lane == 0 {
                    ("탑"@, "Top"@)
                } else if lane == 1 {
                    ("정글"@, "Jungle"@)
                } else if lane == 2 {
                    ("미드"@, "Mid"@)
                } else if lane == 3 {
                    ("바텀"@, "Bottom"@)
                } else {
                    ("서폿"@, "Support"@)
                };
                &&& #[trigger] from_the_best(o, xs[lane])
                &&& o.len() == pos_places(r, lane).len()
                &&& pos_tables(r, xs, (lane + 1) as nat) == pos_tables(r, xs, lane as nat)
                    + "<h3>"@ + ko + POS_COLUMNS@ + stacked(
                    lane_texts(r, lane, en, xs[lane], o),
                ) + "</table>"@
            },
{
    let n = xs[lane].len();
    lemma_first_of_order(xs[lane], n);
    lemma_lane_rows(r, lane, crate::report::POS_EN[lane]@, xs[lane], n);
    let o = by_rate(xs[lane]).take(n as int);
    assert(from_the_best(o, xs[lane]));
    reveal_with_fuel(pos_tables, 2);
}

/// The tiers of the page go by the delta, as their colours do.
pub proof fn law_page_tiers(d: u64)
    ensures
        tier_name(d) == "S"@ <==> tier_colour(d) == "#ff5d5d"@,
        tier_name(d) == "S"@ <==> !nan64(d) && rank64(d) >= 0x3fae_b851_eb85_1eb8,
        tier_name(d) == "A"@ <==> !nan64(d) && 0x3f94_7ae1_47ae_147b <= rank64(d)
            < 0x3fae_b851_eb85_1eb8,
        tier_name(d) == "B"@ <==> !nan64(d) && -0x3f94_7ae1_47ae_147b <= rank64(d)
            < 0x3f94_7ae1_47ae_147b,
        tier_name(d) == "C"@ <==> !nan64(d) && -0x3fae_b851_eb85_1eb8 <= rank64(d)
            < -0x3f94_7ae1_47ae_147b,
        tier_name(d) == "D"@ <==> nan64(d) || rank64(d) < -0x3fae_b851_eb85_1eb8,
        tier_name(d) == "A"@ ==> tier_colour(d) == "#ff9f43"@,
        tier_name(d) == "B"@ ==> tier_colour(d) == "#feca57"@,
        tier_name(d) == "C"@ ==> tier_colour(d) == "#8fd14f"@,
        tier_name(d) == "D"@ ==> tier_colour(d) == "#7a8aa0"@,
{
    reveal_strlit("S");
    reveal_strlit("A");
    reveal_strlit("B");
    reveal_strlit("C");
    reveal_strlit("D");
    assert("S"@[0] == 'S' && "A"@[0] == 'A' && "B"@[0] == 'B' && "C"@[0] == 'C' && "D"@[0] == 'D');
    reveal_strlit("#ff5d5d");
    reveal_strlit("#ff9f43");
    reveal_strlit("#feca57");
    reveal_strlit("#8fd14f");
    reveal_strlit("#7a8aa0");
    assert("#ff5d5d"@[3] == '5');
    assert("#ff9f43"@[3] == '9');
    assert("#feca57"@[3] == 'c');
    assert("#8fd14f"@[3] == 'd');
    assert("#7a8aa0"@[3] == '8');
}

/// On the page a champion that deals damage is a healer from 1.5 on, else a tank from 1.6 on
/// where it heals less than 1, else a bruiser from 1.25 on where it heals less than 1.2, else a
/// dealer; one that deals none has no role.
pub proof fn law_page_roles(deal: u64, tank: u64, heal: u64)
    requires
        !nan64(deal),
        !nan64(tank),
        !nan64(heal),
    ensures
        rank64(deal) <= 0 ==> role_glyph(deal, tank, heal).len() == 0,
        rank64(deal) > 0 ==> ({
            let healer = rank64(heal) >= 0x3ff8_0000_0000_0000;
            let hard = rank64(tank) >= 0x3ff9_9999_9999_999a && rank64(heal)
                < 0x3ff0_0000_0000_0000;
            let front = rank64(tank) >= 0x3ff4_0000_0000_0000 && rank64(heal)
                < 0x3ff3_3333_3333_3333;
            let g = role_glyph(deal, tank, heal);
            &&& g == "힐"@ <==> healer
            &&& g == "탱"@ <==> hard
            &&& g == "브"@ <==> front && !hard
            &&& g == "딜"@ <==> !healer && !front
        }),
{
    reveal_strlit("힐");
    reveal_strlit("탱");
    reveal_strlit("브");
    reveal_strlit("딜");
    assert("힐"@[0] == '힐' && "탱"@[0] == '탱' && "브"@[0] == '브' && "딜"@[0] == '딜');
}

/// A page names its version and its matches, and its save where it has one.
pub proof fn law_page_subject(r: ReportData, save: Seq<char>)
    ensures
        save.len() == 0 ==> page_subject(r, save) == "<p class=sub>패치 <b>"@ + page_text(r.version)
            + "</b> · 매치 <b>"@ + crate::numeral::decimal(r.total) + "</b>판"@ + "</p>"@,
        save.len() > 0 ==> page_subject(r, save) == "<p class=sub>패치 <b>"@ + page_text(r.version)
            + "</b> · 매치 <b>"@ + crate::numeral::decimal(r.total) + "</b>판"@ + (
        " · 세이브 <b>"@ + page_text(save) + "</b>"@) + "</p>"@,
{
    let front = "<p class=sub>패치 <b>"@ + page_text(r.version) + "</b> · 매치 <b>"@
        + crate::numeral::decimal(r.total) + "</b>판"@;
    assert(front + Seq::<char>::empty() =~= front);
}

/// A role is marked by itself; no role is marked by nothing.
pub proof fn law_role_mark(role: Seq<char>)
    ensures
        role.len() == 0 ==> crate::report::role_mark(role).len() == 0,
        role.len() > 0 ==> crate::report::role_mark(role) == "<span class='role r"@ + role + "'>"@
            + role + "</span>"@,
{
}

/// In a page the three characters of tags and entities are written as entities, any other
/// stands for itself.
pub proof fn law_page_text(s: Seq<char>, c: char)
    ensures
        page_text(Seq::empty()).len() == 0,
        c != '&' && c != '<' && c != '>' ==> page_text(s.push(c)) == page_text(s).push(c),
        page_text(s.push('<')) == page_text(s) + "&lt;"@,
        page_text(s.push('>')) == page_text(s) + "&gt;"@,
        page_text(s.push('&')) == page_text(s) + "&amp;"@,
{
    reveal_strlit("&lt;");
    reveal_strlit("&gt;");
    reveal_strlit("&amp;");
    let a = crate::text::replaced(s, '&', "&amp;"@);
    let b = crate::text::replaced(a, '<', "&lt;"@);
    crate::text::law_replaced(s, c, '&', "&amp;"@);
    crate::text::law_replaced(s, '<', '&', "&amp;"@);
    crate::text::law_replaced(s, '>', '&', "&amp;"@);
    crate::text::law_replaced(s, '&', '&', "&amp;"@);
    crate::text::law_replaced(a, c, '<', "&lt;"@);
    crate::text::law_replaced(a, '<', '<', "&lt;"@);
    crate::text::law_replaced(a, '>', '<', "&lt;"@);
    crate::text::law_replaced(b, c, '>', "&gt;"@);
    crate::text::law_replaced(b, '>', '>', "&gt;"@);
    lemma_kept_behind(a, "&amp;"@, '<', "&lt;"@);
    lemma_kept_behind(b, "&amp;"@, '>', "&gt;"@);
    lemma_kept_behind(b, "&lt;"@, '>', "&gt;"@);
}

proof fn lemma_kept_behind(a: Seq<char>, b: Seq<char>, c: char, with: Seq<char>)
    requires
        crate::text::lacks(b, c),
    ensures
        crate::text::replaced(a + b, c, with) == crate::text::replaced(a, c, with) + b,
    decreases b.len(),
{
    if b.len() == 0 {
        assert(a + b =~= a);
        assert(crate::text::replaced(a, c, with) + b =~= crate::text::replaced(a, c, with));
    } else {
        let front = b.drop_last();
        assert(forall|i: int| 0 <= i < front.len() ==> #[trigger] front[i] == b[i]);
        lemma_kept_behind(a, front, c, with);
        assert(b[b.len() - 1] != c);
        assert((a + front).push(b.last()) =~= a + b);
        crate::text::law_replaced(a + front, b.last(), c, with);
        assert((crate::text::replaced(a, c, with) + front).push(b.last()) =~= crate::text::replaced(
            a,
            c,
            with,
        ) + b);
    }
}

/// A page is that of the newest version, of rows of fourteen fields or more, with the matches
/// and the champions of that version; without such rows there is none.
pub proof fn law_report_is_of_newest(tsv: Seq<char>)
    ensures
        ({
            let rows = crate::patch::rows_of(crate::text::line_seq(tsv), 14);
            match report_of(tsv) {
                Some(r) => crate::patch::newest(rows) == Some(r.version) && r.champs == champs_said(
                    rows,
                    r.version,
                ) && r.total == crate::patch::version_total(rows, r.version),
                None => rows.len() == 0,
            }
        }),
{
    crate::patch::law_newest(crate::patch::rows_of(crate::text::line_seq(tsv), 14));
}

} // verus!
