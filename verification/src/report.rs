//! The page that shows a patch's champions and lanes.
//!
//! What is computed with floating-point numbers (winrates, shares and averages) is handed in
//! by the caller: as bit patterns where it decides something, as texts where it is shown.

use vstd::prelude::*;

use crate::bits::{above64, at_least64};
#[allow(unused_imports)]
use crate::bits::{ge32, ge64, gt32, gt64, lemma_widened, rank64, widened};
use crate::champs::ko_name;
#[allow(unused_imports)]
use crate::champs::ko_of;
use crate::numeral::{number_or_0, to_decimal, to_decimal_wide};
#[allow(unused_imports)]
use crate::numeral::{decimal, number_or_zero};
use crate::patch::{find_newest, read_rows, total_of};
#[allow(unused_imports)]
use crate::patch::{data_rows, newest, said_of, version_total};
use crate::rank::rank_keys;
#[allow(unused_imports)]
use crate::rank::{as_ints, by_key, law_keys_fall, law_ranked_keeps};
#[allow(unused_imports)]
use crate::tables::{tier_letter, Stats};
use crate::text::{replace_char, same_text};
#[allow(unused_imports)]
use crate::text::{lacks, replaced};
use crate::textmap::TextMap;
#[allow(unused_imports)]
use crate::textmap::{ascending, law_put_ascending, lookup, put};

verus! {

/// The lanes as the statistics name them.
pub const POS_EN: [&'static str; 5] = ["Top", "Jungle", "Mid", "Bottom", "Support"];

/// The lanes as the page names them.
pub const POS_KO: [&'static str; 5] = ["탑", "정글", "미드", "바텀", "서폿"];

/// The games that a champion needs on a lane to be listed there.
pub const MIN_POS: u128 = 8;

/// The games that a champion needs to be among the strongest.
pub const MIN_TOP: u128 = 15;

/// How many champions are listed as the strongest.
pub const TOP_COUNT: usize = 15;

/// What one row says of a champion on a lane.
pub struct ReportRow {
    pub pos: String,
    pub wins: u32,
    pub matches: u32,
    pub bans: u32,
    /// The texts of damage dealt, damage taken, healing, kills, deaths, creeps and gold.
    pub sums: Vec<String>,
}

/// What a `ReportRow` holds.
pub struct ReportSaid {
    pub pos: Seq<char>,
    pub wins: u32,
    pub matches: u32,
    pub bans: u32,
    pub sums: Seq<Seq<char>>,
}

impl DeepView for ReportRow {
    type V = ReportSaid;

    open spec fn deep_view(&self) -> ReportSaid {
        ReportSaid {
            pos: self.pos@,
            wins: self.wins,
            matches: self.matches,
            bans: self.bans,
            sums: self.sums.deep_view(),
        }
    }
}

/// What the fields of a row say.
pub open spec fn report_said(f: Seq<Seq<char>>) -> ReportSaid {
    ReportSaid {
        pos: f[3],
        wins: number_or_zero(f[5], u32::MAX as nat) as u32,
        matches: number_or_zero(f[6], u32::MAX as nat) as u32,
        bans: number_or_zero(f[4], u32::MAX as nat) as u32,
        sums: f.subrange(7, 14),
    }
}

/// What the rows of a version say of each champion.
pub open spec fn champs_said(rows: Seq<Seq<Seq<char>>>, version: Seq<char>) -> Seq<
    (Seq<char>, Seq<ReportSaid>),
>
    decreases rows.len(),
{
    if rows.len() == 0 {
        Seq::empty()
    } else {
        let front = champs_said(rows.drop_last(), version);
        let f = rows.last();
        if f[0] == version {
            put(front, f[2], said_of(front, f[2]).push(report_said(f)))
        } else {
            front
        }
    }
}

/// What a page is made from.
pub struct Report {
    pub version: String,
    /// The matches of the version.
    pub total: u32,
    pub champs: TextMap<Vec<ReportRow>>,
}

/// What a `Report` holds.
pub struct ReportData {
    pub version: Seq<char>,
    pub total: nat,
    pub champs: Seq<(Seq<char>, Seq<ReportSaid>)>,
}

impl View for Report {
    type V = ReportData;

    open spec fn view(&self) -> ReportData {
        ReportData { version: self.version@, total: self.total as nat, champs: self.champs@ }
    }
}

/// What statistics say of their newest version; nothing where they have no rows.
pub open spec fn report_of(tsv: Seq<char>) -> Option<ReportData> {
    let rows = data_rows(tsv, 14);
    match newest(rows) {
        Some(v) => Some(
            ReportData {
                version: v,
                total: version_total(rows, v),
                champs: champs_said(rows, v),
            },
        ),
        None => None,
    }
}

fn read_report_row(f: &Vec<String>) -> (r: ReportRow)
    requires
        f@.len() >= 14,
    ensures
        r.deep_view() == report_said(f.deep_view()),
{
    let ghost d = f.deep_view();
    assert(forall|i: int| 0 <= i < d.len() ==> #[trigger] d[i] == f@[i]@);
    let mut sums: Vec<String> = Vec::new();
    let mut i: usize = 7;
    while i < 14
        invariant
            7 <= i <= 14,
            f@.len() >= 14,
            sums@.len() == i - 7,
            forall|j: int| 0 <= j < i - 7 ==> #[trigger] sums@[j]@ == f@[j + 7]@,
        decreases 14 - i,
    {
        sums.push(f[i].clone());
        i += 1;
    }
    assert(sums.deep_view() =~= d.subrange(7, 14));
    ReportRow {
        pos: f[3].clone(),
        wins: number_or_0(f[5].as_str(), u32::MAX as u64) as u32,
        matches: number_or_0(f[6].as_str(), u32::MAX as u64) as u32,
        bans: number_or_0(f[4].as_str(), u32::MAX as u64) as u32,
        sums,
    }
}

/// What statistics say of their newest version.
pub fn read_report(tsv: &str) -> (r: Option<Report>)
    ensures
        match r {
            Some(x) => report_of(tsv@) == Some(x@),
            None => report_of(tsv@) is None,
        },
{
    let rows = read_rows(tsv, 14);
    let ghost d = rows.deep_view();
    match find_newest(&rows) {
        None => None,
        Some(top) => {
            let version = rows[top][0].as_str();
            assert(d[top as int][0] == version@);
            let mut champs: TextMap<Vec<ReportRow>> = TextMap::new();
            let mut i: usize = 0;
            while i < rows.len()
                invariant
                    i <= rows@.len(),
                    d == rows.deep_view(),
                    forall|k: int| 0 <= k < rows@.len() ==> #[trigger] rows@[k]@.len() >= 14,
                    ascending(champs@),
                    champs@ == champs_said(d.take(i as int), version@),
                decreases rows@.len() - i,
            {
                assert(d.take(i + 1).drop_last() == d.take(i as int));
                let f = &rows[i];
                assert(d[i as int] == f.deep_view());
                assert(f@.len() >= 14);
                assert(f.deep_view()[0] == f@[0]@);
                assert(f.deep_view()[2] == f@[2]@);
                if same_text(f[0].as_str(), version) {
                    let row = read_report_row(f);
                    let none: Vec<ReportRow> = Vec::new();
                    assert(none.deep_view() =~= Seq::empty());
                    let ghost m = champs@;
                    let said = champs.slot(f[2].as_str(), none);
                    let ghost sofar = said.deep_view();
                    said.push(row);
                    assert(said.deep_view() =~= sofar.push(row.deep_view()));
                    proof {
                        law_put_ascending(m, f@[2]@, said.deep_view());
                    }
                }
                i += 1;
            }
            assert(d.take(i as int) == d);
            Some(Report { version: version.to_owned(), total: total_of(&rows, version), champs })
        },
    }
}

/// Whether a row counts for a lane; every row counts where no lane is asked for.
pub open spec fn on_pos(s: ReportSaid, pos: Option<Seq<char>>) -> bool {
    pos is None || pos == Some(s.pos)
}

/// The games of a champion, on a lane where one is asked for.
pub open spec fn games_in(said: Seq<ReportSaid>, pos: Option<Seq<char>>) -> nat
    decreases said.len(),
{
    if said.len() == 0 {
        0
    } else {
        games_in(said.drop_last(), pos) + if on_pos(said.last(), pos) {
            said.last().matches as nat
        } else {
            0nat
        }
    }
}

/// The wins of a champion, on a lane where one is asked for.
pub open spec fn wins_in(said: Seq<ReportSaid>, pos: Option<Seq<char>>) -> nat
    decreases said.len(),
{
    if said.len() == 0 {
        0
    } else {
        wins_in(said.drop_last(), pos) + if on_pos(said.last(), pos) {
            said.last().wins as nat
        } else {
            0nat
        }
    }
}

/// The bans of a champion: the most that one of its rows says.
pub open spec fn bans_in(said: Seq<ReportSaid>) -> u32
    decreases said.len(),
{
    if said.len() == 0 {
        0
    } else {
        let front = bans_in(said.drop_last());
        if said.last().bans > front {
            said.last().bans
        } else {
            front
        }
    }
}

/// Wins and games of a champion, on a lane where one is asked for.
pub fn cell(said: &Vec<ReportRow>, pos: Option<&str>) -> (r: (u128, u128))
    ensures
        ({
            let p = match pos {
                Some(t) => Some(t@),
                None => None,
            };
            r.0 == wins_in(said.deep_view(), p) && r.1 == games_in(said.deep_view(), p)
        }),
{
    let ghost d = said.deep_view();
    let ghost p = match pos {
        Some(t) => Some(t@),
        None => None,
    };
    let mut wins: u128 = 0;
    let mut games: u128 = 0;
    let mut i: usize = 0;
    while i < said.len()
        invariant
            i <= said@.len(),
            d == said.deep_view(),
            p == (match pos {
                Some(t) => Some(t@),
                None => None,
            }),
            wins == wins_in(d.take(i as int), p),
            games == games_in(d.take(i as int), p),
            wins <= i * 0x1_0000_0000,
            games <= i * 0x1_0000_0000,
        decreases said@.len() - i,
    {
        assert(d.take(i + 1).drop_last() == d.take(i as int));
        assert(d[i as int] == said@[i as int].deep_view());
        let counts = match pos {
            Some(t) => same_text(said[i].pos.as_str(), t),
            None => true,
        };
        if counts {
            wins = wins + said[i].wins as u128;
            games = games + said[i].matches as u128;
        }
        i += 1;
    }
    assert(d.take(i as int) == d);
    (wins, games)
}

/// The bans of a champion.
pub fn bans_of(said: &Vec<ReportRow>) -> (r: u32)
    ensures
        r == bans_in(said.deep_view()),
{
    let ghost d = said.deep_view();
    let mut r: u32 = 0;
    let mut i: usize = 0;
    while i < said.len()
        invariant
            i <= said@.len(),
            d == said.deep_view(),
            r == bans_in(d.take(i as int)),
        decreases said@.len() - i,
    {
        assert(d.take(i + 1).drop_last() == d.take(i as int));
        assert(d[i as int] == said@[i as int].deep_view());
        if said[i].bans > r {
            r = said[i].bans;
        }
        i += 1;
    }
    assert(d.take(i as int) == d);
    r
}

/// The places of the champions, among the first `n`, that have enough games, on a lane where
/// one is asked for.
pub open spec fn enough(
    m: Seq<(Seq<char>, Seq<ReportSaid>)>,
    pos: Option<Seq<char>>,
    least: nat,
    n: nat,
) -> Seq<int>
    decreases n,
{
    if n == 0 {
        Seq::empty()
    } else {
        let front = enough(m, pos, least, (n - 1) as nat);
        if games_in(m[n - 1].1, pos) >= least {
            front.push(n - 1)
        } else {
            front
        }
    }
}

fn list_enough(r: &Report, pos: Option<&str>, least: u128) -> (v: Vec<usize>)
    ensures
        ({
            let p = match pos {
                Some(t) => Some(t@),
                None => None,
            };
            as_ints(v@) == enough(r.champs@, p, least as nat, r.champs@.len())
        }),
        forall|k: int| 0 <= k < v@.len() ==> #[trigger] v@[k] < r.champs@.len(),
{
    let ghost p = match pos {
        Some(t) => Some(t@),
        None => None,
    };
    let mut v: Vec<usize> = Vec::new();
    let mut i: usize = 0;
    assert(as_ints(v@) =~= Seq::empty());
    while i < r.champs.len()
        invariant
            i <= r.champs@.len(),
            p == (match pos {
                Some(t) => Some(t@),
                None => None,
            }),
            as_ints(v@) == enough(r.champs@, p, least as nat, i as nat),
            forall|k: int| 0 <= k < v@.len() ==> #[trigger] v@[k] < r.champs@.len(),
        decreases r.champs@.len() - i,
    {
        let ghost sofar = as_ints(v@);
        let (_, games) = cell(r.champs.value(i), pos);
        if games >= least {
            v.push(i);
            assert(as_ints(v@) =~= sofar.push(i as int));
        }
        i += 1;
    }
    v
}

/// The champions with enough games to be among the strongest.
pub open spec fn top_places(r: ReportData) -> Seq<int> {
    enough(r.champs, None, MIN_TOP as nat, r.champs.len())
}

/// The champions with enough games on a lane to be listed there.
pub open spec fn pos_places(r: ReportData, lane: int) -> Seq<int> {
    enough(r.champs, Some(POS_EN[lane]@), MIN_POS as nat, r.champs.len())
}

/// The champions with enough games to be among the strongest.
pub fn top_champs(r: &Report) -> (v: Vec<usize>)
    ensures
        as_ints(v@) == top_places(r@),
        forall|k: int| 0 <= k < v@.len() ==> #[trigger] v@[k] < r.champs@.len(),
{
    list_enough(r, None, MIN_TOP)
}

/// The champions with enough games on a lane to be listed there.
pub fn pos_champs(r: &Report, lane: usize) -> (v: Vec<usize>)
    requires
        lane < 5,
    ensures
        as_ints(v@) == pos_places(r@, lane as int),
        forall|k: int| 0 <= k < v@.len() ==> #[trigger] v@[k] < r.champs@.len(),
{
    list_enough(r, Some(POS_EN[lane]), MIN_POS)
}

/// What was computed for a champion.
pub struct Figures {
    /// The bit pattern of the shrunk winrate.
    pub rate: u64,
    /// The bit pattern of its delta from one half.
    pub delta: u64,
    /// The bit pattern of the damage dealt.
    pub deal: u64,
    /// The bit pattern of the damage taken, divided by the damage dealt.
    pub tank: u64,
    /// The bit pattern of the healing, divided by the damage dealt.
    pub heal: u64,
    /// The text of the winrate, in percent.
    pub rate_text: String,
    /// The text of the share of matches in which it was picked, in percent.
    pub pick_text: String,
    /// The text of the share of matches in which it was banned, in percent.
    pub ban_text: String,
    /// The text of the damage dealt in a game.
    pub deal_text: String,
    /// The text of the damage taken in a game.
    pub tank_text: String,
    /// The text of the healing in a game.
    pub heal_text: String,
    /// The text of the creeps of a game.
    pub cs_text: String,
    /// The text of the gold of a game.
    pub gold_text: String,
}

/// 0.06, 0.02, -0.02 and -0.06.
pub const TIER_S: u64 = 0x3fae_b851_eb85_1eb8;

pub const TIER_A: u64 = 0x3f94_7ae1_47ae_147b;

pub const TIER_B: u64 = 0xbf94_7ae1_47ae_147b;

pub const TIER_C: u64 = 0xbfae_b851_eb85_1eb8;

/// The tier of a winrate's delta.
pub open spec fn tier_name(d: u64) -> Seq<char> {
    if ge64(d, TIER_S) {
        "S"@
    } else if ge64(d, TIER_A) {
        "A"@
    } else if ge64(d, TIER_B) {
        "B"@
    } else if ge64(d, TIER_C) {
        "C"@
    } else {
        "D"@
    }
}

/// The colour of a winrate's tier.
pub open spec fn tier_colour(d: u64) -> Seq<char> {
    if ge64(d, TIER_S) {
        "#ff5d5d"@
    } else if ge64(d, TIER_A) {
        "#ff9f43"@
    } else if ge64(d, TIER_B) {
        "#feca57"@
    } else if ge64(d, TIER_C) {
        "#8fd14f"@
    } else {
        "#7a8aa0"@
    }
}

/// The tier of a winrate's delta, and its colour.
pub fn tier(d: u64) -> (r: (&'static str, &'static str))
    ensures
        r.0@ == tier_name(d),
        r.1@ == tier_colour(d),
{
    if at_least64(d, TIER_S) {
        ("S", "#ff5d5d")
    } else if at_least64(d, TIER_A) {
        ("A", "#ff9f43")
    } else if at_least64(d, TIER_B) {
        ("B", "#feca57")
    } else if at_least64(d, TIER_C) {
        ("C", "#8fd14f")
    } else {
        ("D", "#7a8aa0")
    }
}

/// 1.5: healing, divided by damage dealt, from which on a champion is a healer.
pub const HEALS: u64 = 0x3ff8_0000_0000_0000;

/// 1.6: damage taken, divided by damage dealt, from which on a champion is a tank.
pub const TANKS: u64 = 0x3ff9_9999_9999_999a;

/// 1.0: healing, divided by damage dealt, below which a champion can be a tank.
pub const TANK_HEALS: u64 = 0x3ff0_0000_0000_0000;

/// 1.25: damage taken, divided by damage dealt, from which on a champion is a bruiser.
pub const FRONTS: u64 = 0x3ff4_0000_0000_0000;

/// 1.2: healing, divided by damage dealt, below which a champion can be a bruiser.
pub const FRONT_HEALS: u64 = 0x3ff3_3333_3333_3333;

/// The glyph of a role: healer, tank, bruiser or carry; none without damage dealt.
pub open spec fn role_glyph(deal: u64, tank: u64, heal: u64) -> Seq<char> {
    if ge64(0, deal) {
        Seq::empty()
    } else if ge64(heal, HEALS) {
        "힐"@
    } else if ge64(tank, TANKS) && gt64(TANK_HEALS, heal) {
        "탱"@
    } else if ge64(tank, FRONTS) && gt64(FRONT_HEALS, heal) {
        "브"@
    } else {
        "딜"@
    }
}

/// The glyph of a role.
pub fn role(deal: u64, tank: u64, heal: u64) -> (r: &'static str)
    ensures
        r@ == role_glyph(deal, tank, heal),
{
    if at_least64(0, deal) {
        proof {
            reveal_strlit("");
            assert(""@ =~= Seq::<char>::empty());
        }
        ""
    } else if at_least64(heal, HEALS) {
        "힐"
    } else if at_least64(tank, TANKS) && above64(TANK_HEALS, heal) {
        "탱"
    } else if at_least64(tank, FRONTS) && above64(FRONT_HEALS, heal) {
        "브"
    } else {
        "딜"
    }
}

/// The page and the tables have the same tiers. Only at 0.06 and 0.02 themselves, which
/// neither precision holds exactly, the tables' tier is the better one.
pub proof fn law_tiers_agree(d: u32)
    requires
        d != crate::tables::TIER_S,
        d != crate::tables::TIER_A,
    ensures
        tier_name(widened(d)) == tier_letter(d),
{
    lemma_widened(d);
}

/// The page and the tables have the same roles, where damage is dealt.
pub proof fn law_roles_agree(s: Stats, c: Seq<char>, deal: u64)
    requires
        lookup(s.role, c) is Some,
        !ge64(0, deal),
    ensures
        role_glyph(deal, widened(s.ratios(c).0), widened(s.ratios(c).1)) == s.glyph(c),
{
    lemma_widened(s.ratios(c).0);
    lemma_widened(s.ratios(c).1);
}

/// A text as it stands in a page, without marks that begin or end a tag.
pub open spec fn page_text(s: Seq<char>) -> Seq<char> {
    replaced(replaced(replaced(s, '&', "&amp;"@), '<', "&lt;"@), '>', "&gt;"@)
}

/// A text as it stands in a page.
pub fn esc(s: &str) -> (r: String)
    ensures
        r@ == page_text(s@),
{
    let a = replace_char(s, '&', "&amp;");
    let b = replace_char(a.as_str(), '<', "&lt;");
    replace_char(b.as_str(), '>', "&gt;")
}

proof fn lemma_replaced_lacks(s: Seq<char>, c: char, with: Seq<char>, x: char)
    requires
        lacks(with, x),
        x == c || lacks(s, x),
    ensures
        lacks(replaced(s, c, with), x),
    decreases s.len(),
{
    if s.len() > 0 {
        let front = s.drop_last();
        assert(forall|i: int| 0 <= i < front.len() ==> #[trigger] front[i] == s[i]);
        lemma_replaced_lacks(front, c, with, x);
        let a = replaced(front, c, with);
        let b = if s.last() == c {
            with
        } else {
            seq![s.last()]
        };
        assert(x != c ==> s[s.len() - 1] != x);
        assert forall|i: int| 0 <= i < (a + b).len() implies #[trigger] (a + b)[i] != x by {
            if i < a.len() {
                assert(a[i] != x);
            } else {
                assert((a + b)[i] == b[i - a.len()]);
            }
        }
    }
}

/// In a page a text begins and ends no tag.
pub proof fn law_page_text_has_no_tags(s: Seq<char>)
    ensures
        lacks(page_text(s), '<'),
        lacks(page_text(s), '>'),
{
    reveal_strlit("&lt;");
    reveal_strlit("&gt;");
    let a = replaced(s, '&', "&amp;"@);
    let b = replaced(a, '<', "&lt;"@);
    lemma_replaced_lacks(a, '<', "&lt;"@, '<');
    lemma_replaced_lacks(b, '>', "&gt;"@, '<');
    lemma_replaced_lacks(b, '>', "&gt;"@, '>');
}

/// The mark of a role on the page.
pub open spec fn role_mark(role: Seq<char>) -> Seq<char> {
    if role.len() == 0 {
        Seq::empty()
    } else {
        "<span class='role r"@ + role + "'>"@ + role + "</span>"@
    }
}

fn write_role_mark(role: &str) -> (r: String)
    ensures
        r@ == role_mark(role@),
{
    if role.is_empty() {
        return String::new();
    }
    let mut r = "<span class='role r".to_owned();
    r.append(role);
    r.append("'>");
    r.append(role);
    r.append("</span>");
    r
}

/// The cells of a table that both kinds of tables begin with: tier, name, role, winrate,
/// games and share of picks.
pub open spec fn common_cells(champ: Seq<char>, games: nat, x: Figures) -> Seq<char> {
    "<tr><td class=l><span class=tier style='background:"@ + tier_colour(x.delta) + "'>"@
        + tier_name(x.delta) + "</span></td><td class=l>"@ + page_text(ko_of(champ))
        + "</td><td>"@ + role_mark(role_glyph(x.deal, x.tank, x.heal))
        + "</td><td class=wr style='color:"@ + tier_colour(x.delta) + "'>"@ + x.rate_text@
        + "%</td><td>"@ + decimal(games) + "</td><td>"@ + x.pick_text@ + "%</td>"@
}

fn write_common(champ: &str, games: u128, x: &Figures) -> (r: String)
    ensures
        r@ == common_cells(champ@, games as nat, *x),
{
    let (name, colour) = tier(x.delta);
    let mut r = "<tr><td class=l><span class=tier style='background:".to_owned();
    r.append(colour);
    r.append("'>");
    r.append(name);
    r.append("</span></td><td class=l>");
    r.append(esc(ko_name(champ).as_str()).as_str());
    r.append("</td><td>");
    r.append(write_role_mark(role(x.deal, x.tank, x.heal)).as_str());
    r.append("</td><td class=wr style='color:");
    r.append(colour);
    r.append("'>");
    r.append(x.rate_text.as_str());
    r.append("%</td><td>");
    r.append(to_decimal_wide(games).as_str());
    r.append("</td><td>");
    r.append(x.pick_text.as_str());
    r.append("%</td>");
    r
}

/// The row of one of the strongest champions.
pub open spec fn top_row(champ: Seq<char>, games: nat, x: Figures) -> Seq<char> {
    common_cells(champ, games, x) + "<td>"@ + x.ban_text@ + "%</td><td>"@ + x.deal_text@
        + "</td><td>"@ + x.tank_text@ + "</td><td>"@ + x.heal_text@ + "</td></tr>"@
}

/// The row of a champion on a lane.
pub open spec fn pos_row(champ: Seq<char>, games: nat, x: Figures) -> Seq<char> {
    common_cells(champ, games, x) + "<td>"@ + x.deal_text@ + "</td><td>"@ + x.tank_text@
        + "</td><td>"@ + x.heal_text@ + "</td><td>"@ + x.cs_text@ + "</td><td>"@ + x.gold_text@
        + "</td></tr>"@
}

fn write_top_row(champ: &str, games: u128, x: &Figures) -> (r: String)
    ensures
        r@ == top_row(champ@, games as nat, *x),
{
    let mut r = write_common(champ, games, x);
    r.append("<td>");
    r.append(x.ban_text.as_str());
    r.append("%</td><td>");
    r.append(x.deal_text.as_str());
    r.append("</td><td>");
    r.append(x.tank_text.as_str());
    r.append("</td><td>");
    r.append(x.heal_text.as_str());
    r.append("</td></tr>");
    r
}

fn write_pos_row(champ: &str, games: u128, x: &Figures) -> (r: String)
    ensures
        r@ == pos_row(champ@, games as nat, *x),
{
    let mut r = write_common(champ, games, x);
    r.append("<td>");
    r.append(x.deal_text.as_str());
    r.append("</td><td>");
    r.append(x.tank_text.as_str());
    r.append("</td><td>");
    r.append(x.heal_text.as_str());
    r.append("</td><td>");
    r.append(x.cs_text.as_str());
    r.append("</td><td>");
    r.append(x.gold_text.as_str());
    r.append("</td></tr>");
    r
}

/// A key that grows with the number of a bit pattern.
pub open spec fn rate_key(b: u64) -> u128 {
    (0x8000_0000_0000_0000 + rank64(b)) as u128
}

fn key_of_rate(b: u64) -> (r: u128)
    ensures
        r == rate_key(b),
{
    if b >= 0x8000_0000_0000_0000 {
        0x8000_0000_0000_0000 - (b as u128 - 0x8000_0000_0000_0000)
    } else {
        0x8000_0000_0000_0000 + b as u128
    }
}

/// The keys of some winrates.
pub open spec fn rate_keys(xs: Seq<Figures>) -> Seq<u128> {
    Seq::new(xs.len(), |i: int| rate_key(xs[i].rate))
}

/// The order of some champions from the highest winrate to the lowest.
pub open spec fn by_rate(xs: Seq<Figures>) -> Seq<int> {
    by_key(rate_keys(xs))
}

/// Champions are listed from the highest winrate to the lowest, equal ones in their order.
pub proof fn law_by_rate_falls(xs: Seq<Figures>)
    ensures
        by_rate(xs).len() == xs.len(),
        forall|i: int, j: int|
            0 <= i < j < xs.len() ==> {
                let a = #[trigger] by_rate(xs)[i];
                let b = #[trigger] by_rate(xs)[j];
                rank64(xs[a].rate) > rank64(xs[b].rate) || (rank64(xs[a].rate) == rank64(xs[b].rate)
                    && a < b)
            },
{
    let keys = rate_keys(xs);
    law_keys_fall(keys);
    law_ranked_keeps(|x: int, y: int| keys[x] > keys[y], keys.len());
    assert forall|i: int, j: int| 0 <= i < j < xs.len() implies ({
        let a = #[trigger] by_rate(xs)[i];
        let b = #[trigger] by_rate(xs)[j];
        rank64(xs[a].rate) > rank64(xs[b].rate) || (rank64(xs[a].rate) == rank64(xs[b].rate) && a
            < b)
    }) by {
        let a = by_key(keys)[i];
        let b = by_key(keys)[j];
        assert(keys[a] == rate_key(xs[a].rate));
        assert(keys[b] == rate_key(xs[b].rate));
    }
}

fn rank_rates(xs: &Vec<Figures>) -> (r: Vec<usize>)
    ensures
        as_ints(r@) == by_rate(xs@),
        r@.len() == xs@.len(),
        forall|k: int| 0 <= k < r@.len() ==> #[trigger] r@[k] < xs@.len(),
{
    let mut keys: Vec<u128> = Vec::new();
    let mut i: usize = 0;
    while i < xs.len()
        invariant
            i <= xs@.len(),
            keys@.len() == i,
            forall|j: int| 0 <= j < i ==> #[trigger] keys@[j] == rate_key(xs@[j].rate),
        decreases xs@.len() - i,
    {
        keys.push(key_of_rate(xs[i].rate));
        i += 1;
    }
    assert(keys@ =~= rate_keys(xs@));
    rank_keys(&keys)
}

/// The first `n` rows of the strongest champions, one behind the other.
pub open spec fn top_rows(r: ReportData, places: Seq<int>, xs: Seq<Figures>, n: nat) -> Seq<char>
    decreases n,
{
    if n == 0 {
        Seq::empty()
    } else {
        let k = by_rate(xs)[n - 1];
        let c = r.champs[places[k]];
        top_rows(r, places, xs, (n - 1) as nat) + top_row(c.0, games_in(c.1, None), xs[k])
    }
}

/// The first `n` rows of a lane's champions, one behind the other.
pub open spec fn pos_table(
    r: ReportData,
    pos: Seq<char>,
    places: Seq<int>,
    xs: Seq<Figures>,
    n: nat,
) -> Seq<char>
    decreases n,
{
    if n == 0 {
        Seq::empty()
    } else {
        let k = by_rate(xs)[n - 1];
        let c = r.champs[places[k]];
        pos_table(r, pos, places, xs, (n - 1) as nat) + pos_row(
            c.0,
            games_in(c.1, Some(pos)),
            xs[k],
        )
    }
}

/// The page where there are no statistics.
pub const EMPTY_PAGE: &'static str = "<!doctype html><meta charset=utf-8><body style='background:#11151c;color:#ccc;font-family:sans-serif;padding:40px'>아직 데이터가 없습니다. 게임을 진행하면 통계가 쌓입니다.</body>";

/// The beginning of the page.
pub const PAGE_HEAD: &'static str = "<!doctype html><html lang=ko><head><meta charset=utf-8><meta name=viewport content='width=device-width,initial-scale=1'><title>TFM2 메타 분석</title><style>body{background:#11151c;color:#dfe6f0;font-family:'Malgun Gothic',sans-serif;margin:0;padding:24px 28px;}h1{font-size:22px;margin:0 0 2px} h2{font-size:17px;margin:26px 0 8px;color:#7fb2ff;border-bottom:1px solid #2a3340;padding-bottom:4px}h3{font-size:14px;margin:16px 0 4px;color:#9fb0c8}.sub{color:#8ea0b8;font-size:13px;margin:0 0 4px} .legend{color:#6f8097;font-size:12px;margin:2px 0 0}table{border-collapse:collapse;width:100%;font-size:12.5px;margin:4px 0 6px} th,td{padding:3px 8px;text-align:right;white-space:nowrap} th{color:#8ea0b8;font-weight:600;border-bottom:1px solid #2a3340;text-align:right}td.l,th.l{text-align:left} tr:nth-child(even){background:#161b24} tr:hover{background:#1d2533}.tier{font-weight:800;border-radius:4px;padding:1px 7px;color:#11151c}.role{display:inline-block;min-width:16px;text-align:center;border-radius:3px;padding:0 4px;font-size:11px;font-weight:700;color:#11151c}.r힐{background:#5ad17a}.r탱{background:#6db1ff}.r브{background:#46c7c7}.r딜{background:#ff7a7a}.wr{font-weight:700} .grey{color:#6f8097} .cols{column-width:340px;column-gap:24px}</style></head><body><h1>TFM2 메타·챔피언 분석</h1>";

/// What the page says of its numbers.
pub const LEGEND: &'static str = "<p class=legend>티어 S~D = 현 패치 보정 승률(표본 적으면 50%로 수축) · 역할 힐/탱/브/딜 = 딜·탱·힐 데이터 · 픽률·밴률 = 전체 매치 대비 · 표본 부족 제외</p>";

/// The heading of the strongest champions.
pub const TOP_HEAD: &'static str = "<h2>이번 패치 강캐 TOP</h2><table><tr><th class=l>티어</th><th class=l>챔프</th><th>역할</th><th>승률</th><th>판수</th><th>픽률</th><th>밴률</th><th>딜/판</th><th>탱/판</th><th>힐/판</th></tr>";

/// The heading of the lanes.
pub const POS_HEAD: &'static str = "</table><h2>라인별 티어</h2><div class=cols>";

/// The columns of a lane's table.
pub const POS_COLUMNS: &'static str = "</h3><table><tr><th class=l>티어</th><th class=l>챔프</th><th>역할</th><th>승률</th><th>판</th><th>픽률</th><th>딜/판</th><th>탱/판</th><th>힐/판</th><th>CS</th><th>골드</th></tr>";

/// The end of the page.
pub const PAGE_END: &'static str = "</div><p class=legend style='margin-top:18px'>tfm2_db_export 모드가 읽은 라이브 게임 DB 기반 · 게임 진행할수록 표본이 늘어 정확해집니다.</p></body></html>";

/// What the page says of its version, matches and save.
pub open spec fn page_subject(r: ReportData, save: Seq<char>) -> Seq<char> {
    "<p class=sub>패치 <b>"@ + page_text(r.version) + "</b> · 매치 <b>"@ + decimal(r.total)
        + "</b>판"@ + (if save.len() == 0 {
        Seq::empty()
    } else {
        " · 세이브 <b>"@ + page_text(save) + "</b>"@
    }) + "</p>"@
}

fn write_subject(r: &Report, save: &str) -> (t: String)
    ensures
        t@ == page_subject(r@, save@),
{
    let mut s = String::new();
    if !save.is_empty() {
        s.append(" · 세이브 <b>");
        s.append(esc(save).as_str());
        s.append("</b>");
        assert(s@ =~= " · 세이브 <b>"@ + page_text(save@) + "</b>"@);
    }
    let mut t = "<p class=sub>패치 <b>".to_owned();
    t.append(esc(r.version.as_str()).as_str());
    t.append("</b> · 매치 <b>");
    t.append(to_decimal(r.total as u64).as_str());
    t.append("</b>판");
    t.append(s.as_str());
    t.append("</p>");
    t
}

/// The tables of the first `n` lanes that have champions to be listed.
pub open spec fn pos_tables(r: ReportData, xs: Seq<Seq<Figures>>, n: nat) -> Seq<char>
    decreases n,
{
    if n == 0 {
        Seq::empty()
    } else {
        let front = pos_tables(r, xs, (n - 1) as nat);
        let places = pos_places(r, n - 1);
        if places.len() == 0 {
            front
        } else {
            front + "<h3>"@ + POS_KO[n - 1]@ + POS_COLUMNS@ + pos_table(
                r,
                POS_EN[n - 1]@,
                places,
                xs[n - 1],
                places.len(),
            ) + "</table>"@
        }
    }
}

/// How many of the strongest champions are listed.
pub open spec fn top_shown(n: nat) -> nat {
    if n < TOP_COUNT {
        n
    } else {
        TOP_COUNT as nat
    }
}

/// The page of a version's champions and lanes, given what was computed for the strongest
/// champions and for those of each lane.
pub open spec fn page(
    r: ReportData,
    save: Seq<char>,
    tops: Seq<Figures>,
    lanes: Seq<Seq<Figures>>,
) -> Seq<char> {
    PAGE_HEAD@ + page_subject(r, save) + LEGEND@ + TOP_HEAD@ + top_rows(
        r,
        top_places(r),
        tops,
        top_shown(top_places(r).len()),
    ) + POS_HEAD@ + pos_tables(r, lanes, 5) + PAGE_END@
}

/// What was computed for the champions of each lane.
pub open spec fn lane_figures(lanes: Seq<Vec<Figures>>) -> Seq<Seq<Figures>> {
    Seq::new(lanes.len(), |i: int| lanes[i]@)
}

fn write_tops(r: &Report, tops: &Vec<Figures>) -> (t: String)
    requires
        tops@.len() == top_places(r@).len(),
    ensures
        t@ == top_rows(r@, top_places(r@), tops@, top_shown(top_places(r@).len())),
{
    let places = top_champs(r);
    let ghost ps = top_places(r@);
    assert(ps.len() == places@.len());
    let order = rank_rates(tops);
    let ghost o = by_rate(tops@);
    assert(forall|k: int| 0 <= k < o.len() ==> #[trigger] o[k] == order@[k]);
    assert(forall|k: int| 0 <= k < ps.len() ==> #[trigger] ps[k] == places@[k]);
    let n: usize = if order.len() < TOP_COUNT {
        order.len()
    } else {
        TOP_COUNT
    };
    let mut t = String::new();
    let mut k: usize = 0;
    while k < n
        invariant
            k <= n <= order@.len(),
            order@.len() == tops@.len() == places@.len(),
            ps.len() == places@.len(),
            ps == top_places(r@),
            o == by_rate(tops@),
            o.len() == order@.len(),
            forall|j: int| 0 <= j < o.len() ==> #[trigger] o[j] == order@[j],
            forall|j: int| 0 <= j < ps.len() ==> #[trigger] ps[j] == places@[j],
            forall|j: int| 0 <= j < order@.len() ==> #[trigger] order@[j] < tops@.len(),
            forall|j: int| 0 <= j < places@.len() ==> #[trigger] places@[j] < r.champs@.len(),
            t@ == top_rows(r@, ps, tops@, k as nat),
        decreases n - k,
    {
        let x: usize = order[k];
        assert(o[k as int] == x);
        let c: usize = places[x];
        assert(ps[x as int] == c);
        let (_, games) = cell(r.champs.value(c), None);
        t.append(write_top_row(r.champs.key(c), games, &tops[x]).as_str());
        k += 1;
    }
    t
}

fn write_pos_table(r: &Report, lane: usize, places: &Vec<usize>, xs: &Vec<Figures>) -> (t: String)
    requires
        lane < 5,
        as_ints(places@) == pos_places(r@, lane as int),
        forall|k: int| 0 <= k < places@.len() ==> #[trigger] places@[k] < r.champs@.len(),
        xs@.len() == places@.len(),
    ensures
        t@ == pos_table(
            r@,
            POS_EN[lane as int]@,
            pos_places(r@, lane as int),
            xs@,
            places@.len(),
        ),
{
    let ghost ps = pos_places(r@, lane as int);
    assert(ps.len() == places@.len());
    let order = rank_rates(xs);
    let ghost o = by_rate(xs@);
    assert(forall|k: int| 0 <= k < o.len() ==> #[trigger] o[k] == order@[k]);
    assert(forall|k: int| 0 <= k < ps.len() ==> #[trigger] ps[k] == places@[k]);
    let mut t = String::new();
    let mut k: usize = 0;
    while k < order.len()
        invariant
            lane < 5,
            k <= order@.len(),
            order@.len() == xs@.len() == places@.len(),
            ps.len() == places@.len(),
            o == by_rate(xs@),
            o.len() == order@.len(),
            forall|j: int| 0 <= j < o.len() ==> #[trigger] o[j] == order@[j],
            forall|j: int| 0 <= j < ps.len() ==> #[trigger] ps[j] == places@[j],
            forall|j: int| 0 <= j < order@.len() ==> #[trigger] order@[j] < xs@.len(),
            forall|j: int| 0 <= j < places@.len() ==> #[trigger] places@[j] < r.champs@.len(),
            t@ == pos_table(r@, POS_EN[lane as int]@, ps, xs@, k as nat),
        decreases order@.len() - k,
    {
        let x: usize = order[k];
        assert(o[k as int] == x);
        let c: usize = places[x];
        assert(ps[x as int] == c);
        let (_, games) = cell(r.champs.value(c), Some(POS_EN[lane]));
        t.append(write_pos_row(r.champs.key(c), games, &xs[x]).as_str());
        k += 1;
    }
    t
}

/// The page of a version's champions and lanes, given what was computed for the strongest
/// champions and for those of each lane.
pub fn write_page(r: &Report, save: &str, tops: &Vec<Figures>, lanes: &Vec<Vec<Figures>>) -> (t:
    String)
    requires
        tops@.len() == top_places(r@).len(),
        lanes@.len() == 5,
        forall|i: int| 0 <= i < 5 ==> #[trigger] lanes@[i]@.len() == pos_places(r@, i).len(),
    ensures
        t@ == page(r@, save@, tops@, lane_figures(lanes@)),
{
    let ghost xs = lane_figures(lanes@);
    let mut tables = String::new();
    let mut i: usize = 0;
    while i < 5
        invariant
            i <= 5,
            lanes@.len() == 5,
            xs == lane_figures(lanes@),
            forall|k: int| 0 <= k < 5 ==> #[trigger] lanes@[k]@.len() == pos_places(r@, k).len(),
            tables@ == pos_tables(r@, xs, i as nat),
        decreases 5 - i,
    {
        let places = pos_champs(r, i);
        assert(pos_places(r@, i as int).len() == places@.len());
        assert(xs[i as int] == lanes@[i as int]@);
        if places.len() > 0 {
            tables.append("<h3>");
            tables.append(POS_KO[i]);
            tables.append(POS_COLUMNS);
            tables.append(write_pos_table(r, i, &places, &lanes[i]).as_str());
            tables.append("</table>");
        }
        i += 1;
    }
    let mut t = PAGE_HEAD.to_owned();
    t.append(write_subject(r, save).as_str());
    t.append(LEGEND);
    t.append(TOP_HEAD);
    t.append(write_tops(r, tops).as_str());
    t.append(POS_HEAD);
    t.append(tables.as_str());
    t.append(PAGE_END);
    t
}

} // verus!
