//! What is exported from the running game: when, and in which form.

use vstd::prelude::*;

use crate::numeral::to_decimal;
#[allow(unused_imports)]
use crate::numeral::{decimal, is_digit, lemma_decimal_digits};
#[allow(unused_imports)]
use crate::patch::{data_rows, rows_of};
use crate::text::{join, replace_char, text_before, to_lines};
#[allow(unused_imports)]
use crate::text::{
    before,
    is_line,
    joined,
    lacks,
    law_joined_is_cut,
    law_lines_read_back,
    lemma_before_total,
    lemma_before_transitive,
    lemma_joined_lacks,
    line_seq,
    pieces,
    replaced,
    with_feeds,
};

verus! {

/// The directory that the parts of the recommender share, given the user's directory of
/// local data, where it is known; with forward slashes.
pub open spec fn shared_dir(local: Option<Seq<char>>) -> Seq<char> {
    let dir = match local {
        Some(l) => l,
        None => "C:/tmp"@,
    };
    replaced(dir, '\\', "/"@) + "/tfm2-overlay"@
}

/// The directory that the parts of the recommender share.
pub fn base(local: Option<&str>) -> (r: String)
    ensures
        r@ == shared_dir(
            match local {
                Some(l) => Some(l@),
                None => None,
            },
        ),
{
    let dir = match local {
        Some(l) => l,
        None => "C:/tmp",
    };
    let mut r = replace_char(dir, '\\', "/");
    r.append("/tfm2-overlay");
    r
}

/// The statistics of a champion on a lane, as texts.
pub struct PositionStats {
    /// The lane's name.
    pub position: String,
    pub wins: String,
    pub matches: String,
    /// The damage dealt.
    pub dealing: String,
    /// The damage taken.
    pub tanking: String,
    pub healing: String,
    pub kills: String,
    pub deaths: String,
    /// The creeps.
    pub cs: String,
    pub gold: String,
    /// The damage dealt in the first phase.
    pub dealing_line_phase: String,
    /// The damage taken in the first phase.
    pub tanking_line_phase: String,
    /// The healing in the first phase.
    pub healing_line_phase: String,
    /// The gold of the first phase.
    pub gold_line_phase: String,
    /// The creeps of the first phase.
    pub cs_line_phase: String,
}

/// The statistics of a champion in a version.
pub struct ChampionStats {
    pub champion: String,
    /// The text of the bans.
    pub bans: String,
    pub by_position: Vec<PositionStats>,
}

/// The statistics of a version.
pub struct VersionStats {
    pub version: String,
    pub total_match: usize,
    pub data: Vec<ChampionStats>,
}

/// What a `PositionStats` holds.
pub struct PositionTexts {
    pub position: Seq<char>,
    pub wins: Seq<char>,
    pub matches: Seq<char>,
    pub dealing: Seq<char>,
    pub tanking: Seq<char>,
    pub healing: Seq<char>,
    pub kills: Seq<char>,
    pub deaths: Seq<char>,
    pub cs: Seq<char>,
    pub gold: Seq<char>,
    pub dealing_line_phase: Seq<char>,
    pub tanking_line_phase: Seq<char>,
    pub healing_line_phase: Seq<char>,
    pub gold_line_phase: Seq<char>,
    pub cs_line_phase: Seq<char>,
}

impl DeepView for PositionStats {
    type V = PositionTexts;

    open spec fn deep_view(&self) -> PositionTexts {
        PositionTexts {
            position: self.position@,
            wins: self.wins@,
            matches: self.matches@,
            dealing: self.dealing@,
            tanking: self.tanking@,
            healing: self.healing@,
            kills: self.kills@,
            deaths: self.deaths@,
            cs: self.cs@,
            gold: self.gold@,
            dealing_line_phase: self.dealing_line_phase@,
            tanking_line_phase: self.tanking_line_phase@,
            healing_line_phase: self.healing_line_phase@,
            gold_line_phase: self.gold_line_phase@,
            cs_line_phase: self.cs_line_phase@,
        }
    }
}

/// What a `ChampionStats` holds.
pub struct ChampionTexts {
    pub champion: Seq<char>,
    pub bans: Seq<char>,
    pub by_position: Seq<PositionTexts>,
}

impl DeepView for ChampionStats {
    type V = ChampionTexts;

    open spec fn deep_view(&self) -> ChampionTexts {
        ChampionTexts {
            champion: self.champion@,
            bans: self.bans@,
            by_position: self.by_position.deep_view(),
        }
    }
}

/// What a `VersionStats` holds.
pub struct VersionTexts {
    pub version: Seq<char>,
    pub total_match: nat,
    pub data: Seq<ChampionTexts>,
}

impl DeepView for VersionStats {
    type V = VersionTexts;

    open spec fn deep_view(&self) -> VersionTexts {
        VersionTexts {
            version: self.version@,
            total_match: self.total_match as nat,
            data: self.data.deep_view(),
        }
    }
}

/// The heading of the patch statistics.
pub const HEADING: &'static str = "version\ttotal_match\tchampion\tposition\tbans\twins\tmatches\tdealing\ttanking\thealing\tkills\tdeaths\tcs\tgold\tdealing_line_phase\ttanking_line_phase\thealing_line_phase\tgold_line_phase\tcs_line_phase";

/// How many fields a row of the patch statistics has.
pub const COLUMNS: usize = 19;

/// The fields of a row of the patch statistics, in the order of the heading.
pub open spec fn stat_fields(v: VersionTexts, c: ChampionTexts, p: PositionTexts) -> Seq<Seq<char>> {
    seq![
        v.version,
        decimal(v.total_match),
        c.champion,
        p.position,
        c.bans,
        p.wins,
        p.matches,
        p.dealing,
        p.tanking,
        p.healing,
        p.kills,
        p.deaths,
        p.cs,
        p.gold,
        p.dealing_line_phase,
        p.tanking_line_phase,
        p.healing_line_phase,
        p.gold_line_phase,
        p.cs_line_phase,
    ]
}

/// The fields of the rows of a champion's first `n` lanes.
pub open spec fn champ_fields(v: VersionTexts, c: ChampionTexts, n: nat) -> Seq<Seq<Seq<char>>>
    decreases n,
{
    if n == 0 {
        Seq::empty()
    } else {
        champ_fields(v, c, (n - 1) as nat).push(stat_fields(v, c, c.by_position[n - 1]))
    }
}

/// The fields of the rows of a version's first `n` champions.
pub open spec fn version_fields(v: VersionTexts, n: nat) -> Seq<Seq<Seq<char>>>
    decreases n,
{
    if n == 0 {
        Seq::empty()
    } else {
        let c = v.data[n - 1];
        version_fields(v, (n - 1) as nat) + champ_fields(v, c, c.by_position.len())
    }
}

/// The fields of the rows of the first `n` versions.
pub open spec fn all_fields(db: Seq<VersionTexts>, n: nat) -> Seq<Seq<Seq<char>>>
    decreases n,
{
    if n == 0 {
        Seq::empty()
    } else {
        all_fields(db, (n - 1) as nat) + version_fields(db[n - 1], db[n - 1].data.len())
    }
}

/// Rows of fields between tabs.
pub open spec fn tabbed(rows: Seq<Seq<Seq<char>>>) -> Seq<Seq<char>> {
    rows.map_values(|f: Seq<Seq<char>>| joined(f, "\t"@))
}

/// The lines of the patch statistics: their heading, and their rows between tabs.
pub open spec fn export_lines(db: Seq<VersionTexts>) -> Seq<Seq<char>> {
    seq![HEADING@] + tabbed(all_fields(db, db.len()))
}

/// The patch statistics as rows between tabs, below their heading.
pub open spec fn patch_text(db: Seq<VersionTexts>) -> Seq<char> {
    with_feeds(export_lines(db))
}

/// Puts a row behind `rows`.
fn push_stat(
    rows: &mut Vec<String>,
    v: &VersionStats,
    c: &ChampionStats,
    p: &PositionStats,
)
    ensures
        final(rows).deep_view() == old(rows).deep_view().push(
            joined(stat_fields(v.deep_view(), c.deep_view(), p.deep_view()), "\t"@),
        ),
{
    let ghost before = rows.deep_view();
    let mut f: Vec<String> = Vec::new();
    f.push(v.version.clone());
    f.push(to_decimal(v.total_match as u64));
    f.push(c.champion.clone());
    f.push(p.position.clone());
    f.push(c.bans.clone());
    f.push(p.wins.clone());
    f.push(p.matches.clone());
    f.push(p.dealing.clone());
    f.push(p.tanking.clone());
    f.push(p.healing.clone());
    f.push(p.kills.clone());
    f.push(p.deaths.clone());
    f.push(p.cs.clone());
    f.push(p.gold.clone());
    f.push(p.dealing_line_phase.clone());
    f.push(p.tanking_line_phase.clone());
    f.push(p.healing_line_phase.clone());
    f.push(p.gold_line_phase.clone());
    f.push(p.cs_line_phase.clone());
    assert(f.deep_view() =~= stat_fields(v.deep_view(), c.deep_view(), p.deep_view()));
    let t = join(&f, "\t");
    rows.push(t);
    assert(rows.deep_view() =~= before.push(t@));
}

/// The patch statistics as rows between tabs, below their heading.
pub fn patch_tsv(db: &Vec<VersionStats>) -> (r: String)
    ensures
        r@ == patch_text(db.deep_view()),
{
    let ghost d = db.deep_view();
    let mut rows: Vec<String> = Vec::new();
    rows.push(HEADING.to_owned());
    let ghost head = seq![HEADING@];
    assert(rows.deep_view() =~= head);
    let mut i: usize = 0;
    assert(rows.deep_view() =~= head + tabbed(all_fields(d, 0)));
    while i < db.len()
        invariant
            i <= db@.len(),
            d == db.deep_view(),
            rows.deep_view() == head + tabbed(all_fields(d, i as nat)),
        decreases db@.len() - i,
    {
        let v = &db[i];
        let ghost vv = d[i as int];
        assert(vv == v.deep_view());
        let ghost front = rows.deep_view();
        let mut j: usize = 0;
        assert(front =~= front + tabbed(version_fields(vv, 0)));
        while j < v.data.len()
            invariant
                j <= v.data@.len(),
                vv == v.deep_view(),
                rows.deep_view() == front + tabbed(version_fields(vv, j as nat)),
            decreases v.data@.len() - j,
        {
            let c = &v.data[j];
            let ghost cc = vv.data[j as int];
            assert(cc == c.deep_view());
            let ghost mid = rows.deep_view();
            let mut k: usize = 0;
            assert(mid =~= mid + tabbed(champ_fields(vv, cc, 0)));
            while k < c.by_position.len()
                invariant
                    k <= c.by_position@.len(),
                    vv == v.deep_view(),
                    cc == c.deep_view(),
                    rows.deep_view() == mid + tabbed(champ_fields(vv, cc, k as nat)),
                decreases c.by_position@.len() - k,
            {
                let p = &c.by_position[k];
                assert(cc.by_position[k as int] == p.deep_view());
                push_stat(&mut rows, v, c, p);
                assert(rows.deep_view() =~= mid + tabbed(champ_fields(vv, cc, (k + 1) as nat)));
                k += 1;
            }
            assert(rows.deep_view() =~= front + tabbed(version_fields(vv, (j + 1) as nat)));
            j += 1;
        }
        assert(rows.deep_view() =~= head + tabbed(all_fields(d, (i + 1) as nat)));
        i += 1;
    }
    to_lines(&rows)
}

/// Whether a text can stand between tabs in a line.
pub open spec fn is_field(t: Seq<char>) -> bool {
    lacks(t, '\t') && lacks(t, '\n') && lacks(t, '\r')
}

/// Fields that are joined without an end of a line make no end of a line.
pub proof fn lemma_joined_line(f: Seq<Seq<char>>, sep: Seq<char>)
    requires
        forall|i: int| 0 <= i < f.len() ==> is_field(#[trigger] f[i]),
        lacks(sep, '\n'),
        lacks(sep, '\r'),
    ensures
        lacks(joined(f, sep), '\n'),
        lacks(joined(f, sep), '\r'),
{
    assert forall|i: int| 0 <= i < f.len() implies lacks(#[trigger] f[i], '\n') && lacks(
        f[i],
        '\r',
    ) by {
        assert(is_field(f[i]));
    }
    lemma_joined_lacks(f, sep, '\n');
    lemma_joined_lacks(f, sep, '\r');
}

proof fn lemma_rows_cut(lines: Seq<Seq<char>>, rows: Seq<Seq<Seq<char>>>, n: nat)
    requires
        lines.len() == rows.len() + 1,
        forall|i: int|
            0 <= i < rows.len() ==> pieces(lines[i + 1], '\t') == #[trigger] rows[i]
                && rows[i].len() >= n,
    ensures
        rows_of(lines, n) == rows,
    decreases rows.len(),
{
    if rows.len() > 0 {
        let k = rows.len() - 1;
        assert forall|i: int| 0 <= i < k implies pieces(lines.drop_last()[i + 1], '\t')
            == #[trigger] rows.drop_last()[i] && rows.drop_last()[i].len() >= n by {
            assert(rows[i] == rows.drop_last()[i]);
        }
        lemma_rows_cut(lines.drop_last(), rows.drop_last(), n);
        assert(pieces(lines[k + 1], '\t') == rows[k]);
        assert(rows.drop_last().push(rows[k]) == rows);
    } else {
        assert(rows_of(lines, n) =~= rows);
    }
}

/// The names of the columns.
pub open spec fn column_names() -> Seq<Seq<char>> {
    seq![
        "version"@,
        "total_match"@,
        "champion"@,
        "position"@,
        "bans"@,
        "wins"@,
        "matches"@,
        "dealing"@,
        "tanking"@,
        "healing"@,
        "kills"@,
        "deaths"@,
        "cs"@,
        "gold"@,
        "dealing_line_phase"@,
        "tanking_line_phase"@,
        "healing_line_phase"@,
        "gold_line_phase"@,
        "cs_line_phase"@,
    ]
}

/// Whether a name can stand between tabs before the last field of a line.
pub open spec fn is_inner(t: Seq<char>) -> bool {
    lacks(t, '\t') && lacks(t, '\n')
}

/// Whether the statistics of a champion on a lane can stand in a row.
pub open spec fn cell_sound(v: VersionTexts, c: ChampionTexts, p: PositionTexts) -> bool {
    &&& is_inner(v.version) && is_inner(c.champion) && is_inner(p.position) && is_inner(c.bans)
    &&& is_field(p.wins)
    &&& is_field(p.matches)
    &&& is_field(p.dealing)
    &&& is_field(p.tanking)
    &&& is_field(p.healing)
    &&& is_field(p.kills)
    &&& is_field(p.deaths)
    &&& is_field(p.cs)
    &&& is_field(p.gold)
    &&& is_field(p.dealing_line_phase)
    &&& is_field(p.tanking_line_phase)
    &&& is_field(p.healing_line_phase)
    &&& is_field(p.gold_line_phase)
    &&& is_field(p.cs_line_phase)
}

/// Whether no name in patch statistics holds a tab or a line feed, and no number anything that
/// ends a field.
pub open spec fn all_sound(db: Seq<VersionTexts>) -> bool {
    forall|i: int, j: int, k: int|
        0 <= i < db.len() && 0 <= j < db[i].data.len() && 0 <= k
            < db[i].data[j].by_position.len() ==> #[trigger] cell_sound(
            db[i],
            db[i].data[j],
            db[i].data[j].by_position[k],
        )
}

/// How many lanes the first `n` champions of a version have, in all.
pub open spec fn version_cells(v: VersionTexts, n: nat) -> nat
    decreases n,
{
    if n == 0 {
        0
    } else {
        version_cells(v, (n - 1) as nat) + v.data[n - 1].by_position.len()
    }
}

/// How many lanes the champions of the first `n` versions have, in all.
pub open spec fn all_cells(db: Seq<VersionTexts>, n: nat) -> nat
    decreases n,
{
    if n == 0 {
        0
    } else {
        all_cells(db, (n - 1) as nat) + version_cells(db[n - 1], db[n - 1].data.len())
    }
}

/// Whether a row has all its fields, none of them with a tab or a line feed, and does not end
/// with a carriage return.
pub open spec fn row_sound(f: Seq<Seq<char>>) -> bool {
    &&& f.len() == COLUMNS
    &&& forall|j: int| 0 <= j < f.len() ==> is_inner(#[trigger] f[j])
    &&& lacks(f[COLUMNS - 1], '\r')
}

proof fn lemma_row_sound(v: VersionTexts, c: ChampionTexts, p: PositionTexts)
    requires
        cell_sound(v, c, p),
    ensures
        row_sound(stat_fields(v, c, p)),
{
    let d = decimal(v.total_match);
    lemma_decimal_digits(v.total_match);
    assert forall|i: int| 0 <= i < d.len() implies #[trigger] d[i] != '\t' && d[i] != '\n' by {
        assert(is_digit(d[i]));
    }
    let f = stat_fields(v, c, p);
    assert forall|j: int| 0 <= j < f.len() implies is_inner(#[trigger] f[j]) by {}
}

proof fn lemma_champ_rows(v: VersionTexts, c: ChampionTexts, n: nat)
    requires
        n <= c.by_position.len(),
        forall|k: int|
            0 <= k < c.by_position.len() ==> cell_sound(v, c, #[trigger] c.by_position[k]),
    ensures
        champ_fields(v, c, n).len() == n,
        forall|i: int| 0 <= i < n ==> row_sound(#[trigger] champ_fields(v, c, n)[i]),
    decreases n,
{
    if n > 0 {
        lemma_champ_rows(v, c, (n - 1) as nat);
        lemma_row_sound(v, c, c.by_position[n - 1]);
    }
}

proof fn lemma_version_rows(v: VersionTexts, n: nat)
    requires
        n <= v.data.len(),
        forall|j: int, k: int|
            0 <= j < v.data.len() && 0 <= k < v.data[j].by_position.len() ==> #[trigger] cell_sound(
                v,
                v.data[j],
                v.data[j].by_position[k],
            ),
    ensures
        version_fields(v, n).len() == version_cells(v, n),
        forall|i: int|
            0 <= i < version_fields(v, n).len() ==> row_sound(#[trigger] version_fields(v, n)[i]),
    decreases n,
{
    if n > 0 {
        lemma_version_rows(v, (n - 1) as nat);
        let c = v.data[n - 1];
        assert forall|k: int| 0 <= k < c.by_position.len() implies cell_sound(
            v,
            c,
            #[trigger] c.by_position[k],
        ) by {
            assert(cell_sound(v, v.data[n - 1], v.data[n - 1].by_position[k]));
        }
        lemma_champ_rows(v, c, c.by_position.len());
    }
}

proof fn lemma_all_rows(db: Seq<VersionTexts>, n: nat)
    requires
        n <= db.len(),
        all_sound(db),
    ensures
        all_fields(db, n).len() == all_cells(db, n),
        forall|i: int| 0 <= i < all_fields(db, n).len() ==> row_sound(#[trigger] all_fields(db, n)[i]),
    decreases n,
{
    if n > 0 {
        lemma_all_rows(db, (n - 1) as nat);
        let v = db[n - 1];
        assert forall|j: int, k: int|
            0 <= j < v.data.len() && 0 <= k < v.data[j].by_position.len() implies #[trigger] cell_sound(
            v,
            v.data[j],
            v.data[j].by_position[k],
        ) by {
            assert(cell_sound(db[n - 1], db[n - 1].data[j], db[n - 1].data[j].by_position[k]));
        }
        lemma_version_rows(v, v.data.len());
    }
}

proof fn lemma_row_is_line(f: Seq<Seq<char>>)
    requires
        row_sound(f),
    ensures
        is_line(joined(f, "\t"@)),
        pieces(joined(f, "\t"@), '\t') == f,
{
    reveal_strlit("\t");
    assert("\t"@ =~= seq!['\t']);
    assert forall|j: int| 0 <= j < f.len() implies lacks(#[trigger] f[j], '\t') && lacks(
        f[j],
        '\n',
    ) by {
        assert(is_inner(f[j]));
    }
    law_joined_is_cut(f, '\t');
    lemma_joined_lacks(f, "\t"@, '\n');
    let t = joined(f, "\t"@);
    let last = f.last();
    assert(t == joined(f.drop_last(), "\t"@) + "\t"@ + last);
    if last.len() > 0 {
        assert(t.last() == last[last.len() - 1]);
    } else {
        assert(t.last() == '\t');
    }
}

/// The names of the columns with tabs between them are the heading.
proof fn lemma_columns_joined()
    ensures
        joined(column_names(), "\t"@) == HEADING@,
{
    reveal_strlit("version");
    reveal_strlit("total_match");
    reveal_strlit("champion");
    reveal_strlit("position");
    reveal_strlit("bans");
    reveal_strlit("wins");
    reveal_strlit("matches");
    reveal_strlit("dealing");
    reveal_strlit("tanking");
    reveal_strlit("healing");
    reveal_strlit("kills");
    reveal_strlit("deaths");
    reveal_strlit("cs");
    reveal_strlit("gold");
    reveal_strlit("dealing_line_phase");
    reveal_strlit("tanking_line_phase");
    reveal_strlit("healing_line_phase");
    reveal_strlit("gold_line_phase");
    reveal_strlit("cs_line_phase");
    reveal_strlit("\t");
    reveal_strlit(
        "version\ttotal_match\tchampion\tposition\tbans\twins\tmatches\tdealing\ttanking\thealing\tkills\tdeaths\tcs\tgold\tdealing_line_phase\ttanking_line_phase\thealing_line_phase\tgold_line_phase\tcs_line_phase",
    );
    let f = column_names();
    let t = "\t"@;
    assert(f.take(1) =~= seq!["version"@]);
    assert(joined(f.take(1), t) == "version"@);
    assert(f.take(2).drop_last() =~= f.take(1));
    assert(joined(f.take(2), t) == joined(f.take(1), t) + t + "total_match"@);
    assert(f.take(3).drop_last() =~= f.take(2));
    assert(joined(f.take(3), t) == joined(f.take(2), t) + t + "champion"@);
    assert(f.take(4).drop_last() =~= f.take(3));
    assert(joined(f.take(4), t) == joined(f.take(3), t) + t + "position"@);
    assert(f.take(5).drop_last() =~= f.take(4));
    assert(joined(f.take(5), t) == joined(f.take(4), t) + t + "bans"@);
    assert(f.take(6).drop_last() =~= f.take(5));
    assert(joined(f.take(6), t) == joined(f.take(5), t) + t + "wins"@);
    assert(f.take(7).drop_last() =~= f.take(6));
    assert(joined(f.take(7), t) == joined(f.take(6), t) + t + "matches"@);
    assert(f.take(8).drop_last() =~= f.take(7));
    assert(joined(f.take(8), t) == joined(f.take(7), t) + t + "dealing"@);
    assert(f.take(9).drop_last() =~= f.take(8));
    assert(joined(f.take(9), t) == joined(f.take(8), t) + t + "tanking"@);
    assert(f.take(10).drop_last() =~= f.take(9));
    assert(joined(f.take(10), t) == joined(f.take(9), t) + t + "healing"@);
    assert(f.take(11).drop_last() =~= f.take(10));
    assert(joined(f.take(11), t) == joined(f.take(10), t) + t + "kills"@);
    assert(f.take(12).drop_last() =~= f.take(11));
    assert(joined(f.take(12), t) == joined(f.take(11), t) + t + "deaths"@);
    assert(f.take(13).drop_last() =~= f.take(12));
    assert(joined(f.take(13), t) == joined(f.take(12), t) + t + "cs"@);
    assert(f.take(14).drop_last() =~= f.take(13));
    assert(joined(f.take(14), t) == joined(f.take(13), t) + t + "gold"@);
    assert(f.take(15).drop_last() =~= f.take(14));
    assert(joined(f.take(15), t) == joined(f.take(14), t) + t + "dealing_line_phase"@);
    assert(f.take(16).drop_last() =~= f.take(15));
    assert(joined(f.take(16), t) == joined(f.take(15), t) + t + "tanking_line_phase"@);
    assert(f.take(17).drop_last() =~= f.take(16));
    assert(joined(f.take(17), t) == joined(f.take(16), t) + t + "healing_line_phase"@);
    assert(f.take(18).drop_last() =~= f.take(17));
    assert(joined(f.take(18), t) == joined(f.take(17), t) + t + "gold_line_phase"@);
    assert(f.take(19).drop_last() =~= f.take(18));
    assert(joined(f.take(19), t) == joined(f.take(18), t) + t + "cs_line_phase"@);
    assert(f.take(19) =~= f);
    assert(joined(f, t) =~= HEADING@);
}

proof fn lemma_heading()
    ensures
        is_line(HEADING@),
        pieces(HEADING@, '\t') == column_names(),
{
    reveal_strlit("version");
    reveal_strlit("total_match");
    reveal_strlit("champion");
    reveal_strlit("position");
    reveal_strlit("bans");
    reveal_strlit("wins");
    reveal_strlit("matches");
    reveal_strlit("dealing");
    reveal_strlit("tanking");
    reveal_strlit("healing");
    reveal_strlit("kills");
    reveal_strlit("deaths");
    reveal_strlit("cs");
    reveal_strlit("gold");
    reveal_strlit("dealing_line_phase");
    reveal_strlit("tanking_line_phase");
    reveal_strlit("healing_line_phase");
    reveal_strlit("gold_line_phase");
    reveal_strlit("cs_line_phase");
    reveal_strlit("\t");
    reveal_strlit(
        "version\ttotal_match\tchampion\tposition\tbans\twins\tmatches\tdealing\ttanking\thealing\tkills\tdeaths\tcs\tgold\tdealing_line_phase\ttanking_line_phase\thealing_line_phase\tgold_line_phase\tcs_line_phase",
    );
    let h = HEADING@;
    assert forall|k: int| 0 <= k < h.len() implies #[trigger] h[k] != '\n' && h[k] != '\r' by {}
    let f = column_names();
    assert forall|j: int| 0 <= j < f.len() implies lacks(#[trigger] f[j], '\t') by {}
    assert("\t"@ =~= seq!['\t']);
    law_joined_is_cut(f, '\t');
    lemma_columns_joined();
}

/// What is exported has a line for the heading and one for each champion on each lane, and
/// every line has as many fields as there are columns, in the columns' order.
pub proof fn law_export_has_its_columns(db: Seq<VersionTexts>)
    requires
        all_sound(db),
    ensures
        ({
            let lines = line_seq(patch_text(db));
            let rows = all_fields(db, db.len());
            &&& lines.len() == 1 + all_cells(db, db.len())
            &&& rows.len() == all_cells(db, db.len())
            &&& pieces(lines[0], '\t') == column_names()
            &&& forall|i: int|
                0 <= i < rows.len() ==> pieces(lines[i + 1], '\t') == #[trigger] rows[i]
                    && rows[i].len() == COLUMNS
        }),
{
    let rows = all_fields(db, db.len());
    let lines = export_lines(db);
    lemma_all_rows(db, db.len());
    lemma_heading();
    assert forall|i: int| 0 <= i < lines.len() implies is_line(#[trigger] lines[i]) by {
        if i > 0 {
            assert(row_sound(rows[i - 1]));
            lemma_row_is_line(rows[i - 1]);
        }
    }
    law_lines_read_back(lines);
    assert forall|i: int| 0 <= i < rows.len() implies pieces(lines[i + 1], '\t')
        == #[trigger] rows[i] && rows[i].len() == COLUMNS by {
        assert(row_sound(rows[i]));
        lemma_row_is_line(rows[i]);
    }
}

/// What is exported is read: the rows of exported patch statistics are their fields, in their
/// order, where no more fields are asked for than there are columns.
pub proof fn law_export_is_read(db: Seq<VersionTexts>, n: nat)
    requires
        n <= COLUMNS,
        all_sound(db),
    ensures
        data_rows(patch_text(db), n) == all_fields(db, db.len()),
{
    let rows = all_fields(db, db.len());
    let lines = line_seq(patch_text(db));
    law_export_has_its_columns(db);
    assert forall|i: int| 0 <= i < rows.len() implies pieces(lines[i + 1], '\t')
        == #[trigger] rows[i] && rows[i].len() >= n by {}
    lemma_rows_cut(lines, rows, n);
}

/// How many milliseconds of the game pass between two exports of changed data.
pub const THROTTLE_MS: u32 = 8000;

/// What the exporter remembers from frame to frame.
pub struct Exporter {
    /// How much data there were at the last export; nothing before the first one.
    pub last: Option<Counts>,
    /// The milliseconds since then in which the data were found changed.
    pub acc_ms: u32,
    /// Whether the launcher was started.
    pub spawned: bool,
}

/// How much data there are: ranked games, replays, matches of all versions and champions.
#[derive(Clone, Copy, PartialEq, Eq, Structural, Debug)]
pub struct Counts {
    pub solo: usize,
    pub replay: usize,
    pub patch_total: usize,
    pub pool: usize,
}

/// What is to be done in a frame.
#[derive(Clone, Copy, PartialEq, Eq, Structural, Debug)]
pub enum Export {
    /// Nothing.
    Skip,
    /// The data are written.
    Write,
    /// The data are written, and then the launcher is started.
    WriteAndStart,
}

/// The exporter after a frame of `ms` milliseconds, and what is to be done in it. Data are
/// written first when they are there, and then when one of their counts has changed and enough
/// time has passed.
pub open spec fn after_frame(e: Exporter, loaded: bool, c: Counts, ms: u32) -> (Exporter, Export) {
    let acc = e.acc_ms + ms;
    if !loaded || e.last == Some(c) {
        (e, Export::Skip)
    } else if e.last is Some && acc < THROTTLE_MS {
        (Exporter { acc_ms: acc as u32, ..e }, Export::Skip)
    } else {
        (
            Exporter { last: Some(c), acc_ms: 0, spawned: true },
            if e.spawned {
                Export::Write
            } else {
                Export::WriteAndStart
            },
        )
    }
}

impl Exporter {
    /// Nothing exported yet.
    pub fn new() -> (r: Self)
        ensures
            r == (Exporter { last: None, acc_ms: 0, spawned: false }),
    {
        Exporter { last: None, acc_ms: 0, spawned: false }
    }

    /// Decides what is to be done in a frame of `ms` milliseconds, given whether the data are
    /// loaded and how much there are.
    pub fn pre_update(&mut self, loaded: bool, c: &Counts, ms: u32) -> (r: Export)
        ensures
            (*final(self), r) == after_frame(*old(self), loaded, *c, ms),
    {
        if !loaded {
            return Export::Skip;
        }
        if let Some(last) = self.last {
            if last == *c {
                return Export::Skip;
            }
            let acc = self.acc_ms.saturating_add(ms);
            if acc < THROTTLE_MS {
                self.acc_ms = acc;
                return Export::Skip;
            }
        }
        self.acc_ms = 0;
        self.last = Some(*c);
        if self.spawned {
            Export::Write
        } else {
            self.spawned = true;
            Export::WriteAndStart
        }
    }
}

/// The exporter after some frames, and what was to be done in the last one.
pub open spec fn after_frames(e: Exporter, fs: Seq<(bool, Counts, u32)>) -> Exporter
    decreases fs.len(),
{
    if fs.len() == 0 {
        e
    } else {
        let f = fs.last();
        after_frame(after_frames(e, fs.drop_last()), f.0, f.1, f.2).0
    }
}

/// How often the launcher is started in some frames.
pub open spec fn starts(e: Exporter, fs: Seq<(bool, Counts, u32)>) -> nat
    decreases fs.len(),
{
    if fs.len() == 0 {
        0
    } else {
        let f = fs.last();
        starts(e, fs.drop_last()) + if after_frame(
            after_frames(e, fs.drop_last()),
            f.0,
            f.1,
            f.2,
        ).1 == Export::WriteAndStart {
            1nat
        } else {
            0nat
        }
    }
}

/// The launcher is started at most once.
pub proof fn law_started_once(e: Exporter, fs: Seq<(bool, Counts, u32)>)
    ensures
        starts(e, fs) + (if e.spawned {
            1nat
        } else {
            0nat
        }) == if after_frames(e, fs).spawned {
            1nat
        } else {
            0nat
        },
    decreases fs.len(),
{
    if fs.len() > 0 {
        law_started_once(e, fs.drop_last());
    }
}

/// Data that were just written are not written again until they change.
pub proof fn law_unchanged_is_not_written(e: Exporter, c: Counts, ms: u32, again: u32)
    requires
        after_frame(e, true, c, ms).1 != Export::Skip,
    ensures
        after_frame(after_frame(e, true, c, ms).0, true, c, again).1 == Export::Skip,
{
}

/// Data of which any count has changed since the last export are written once enough time has
/// passed, and the launcher is not started again.
pub proof fn law_changed_is_written(e: Exporter, before: Counts, c: Counts, ms: u32)
    requires
        e.last == Some(before),
        c.solo != before.solo || c.replay != before.replay || c.patch_total != before.patch_total
            || c.pool != before.pool,
        e.acc_ms + ms >= THROTTLE_MS,
    ensures
        ({
            let (next, done) = after_frame(e, true, c, ms);
            &&& done != Export::Skip
            &&& e.spawned ==> done == Export::Write
            &&& next.last == Some(c)
            &&& next.acc_ms == 0
        }),
{
}

/// Whether a database is loaded: it has champions or athletes.
pub fn is_loaded(champions: usize, athletes: usize) -> (r: bool)
    ensures
        r == (champions > 0 || athletes > 0),
{
    champions > 0 || athletes > 0
}

/// The sum of some counts.
pub open spec fn sum_of(v: Seq<usize>) -> nat
    decreases v.len(),
{
    if v.len() == 0 {
        0
    } else {
        sum_of(v.drop_last()) + v.last() as nat
    }
}

proof fn lemma_sum_grows(v: Seq<usize>, i: int)
    requires
        0 <= i <= v.len(),
    ensures
        sum_of(v.take(i)) <= sum_of(v),
    decreases v.len() - i,
{
    if i < v.len() {
        lemma_sum_grows(v, i + 1);
        assert(v.take(i + 1).drop_last() == v.take(i));
    } else {
        assert(v.take(i) == v);
    }
}

/// The matches of all versions, where their sum can be counted.
pub fn patch_total(totals: &Vec<usize>) -> (r: Option<usize>)
    ensures
        match r {
            Some(n) => n == sum_of(totals@),
            None => sum_of(totals@) > usize::MAX,
        },
{
    let mut n: usize = 0;
    let mut i: usize = 0;
    while i < totals.len()
        invariant
            i <= totals@.len(),
            n == sum_of(totals@.take(i as int)),
        decreases totals@.len() - i,
    {
        assert(totals@.take(i + 1).drop_last() == totals@.take(i as int));
        match n.checked_add(totals[i]) {
            Some(m) => {
                n = m;
            },
            None => {
                proof {
                    lemma_sum_grows(totals@, i + 1);
                }
                return None;
            },
        }
        i += 1;
    }
    assert(totals@.take(i as int) == totals@);
    Some(n)
}

/// The stamp of data.
pub fn stamp(c: &Counts) -> (r: String)
    ensures
        r@ == decimal(c.solo as nat) + ","@ + decimal(c.replay as nat) + ","@ + decimal(
            c.patch_total as nat,
        ) + ","@ + decimal(c.pool as nat),
{
    let mut r = to_decimal(c.solo as u64);
    r.append(",");
    r.append(to_decimal(c.replay as u64).as_str());
    r.append(",");
    r.append(to_decimal(c.patch_total as u64).as_str());
    r.append(",");
    r.append(to_decimal(c.pool as u64).as_str());
    r
}

/// The place in ordered texts before which `t` goes: the first whose text `t` is before, from
/// place `from` on.
pub open spec fn way_in(v: Seq<Seq<char>>, t: Seq<char>, from: int) -> int
    decreases v.len() - from,
{
    if from < 0 || from >= v.len() || before(t, v[from]) {
        from
    } else {
        way_in(v, t, from + 1)
    }
}

/// Some texts in their order.
pub open spec fn ordered(v: Seq<Seq<char>>) -> Seq<Seq<char>>
    decreases v.len(),
{
    if v.len() == 0 {
        Seq::empty()
    } else {
        let front = ordered(v.drop_last());
        front.insert(way_in(front, v.last(), 0), v.last())
    }
}

proof fn lemma_way_in(v: Seq<Seq<char>>, t: Seq<char>, from: int)
    requires
        0 <= from <= v.len(),
    ensures
        from <= way_in(v, t, from) <= v.len(),
        forall|k: int| from <= k < way_in(v, t, from) ==> !before(t, #[trigger] v[k]),
        way_in(v, t, from) < v.len() ==> before(t, v[way_in(v, t, from)]),
    decreases v.len() - from,
{
    if from < v.len() && !before(t, v[from]) {
        lemma_way_in(v, t, from + 1);
    }
}

/// Ordering keeps the texts, each as often as it is there, and leaves none behind one that it
/// is before.
pub proof fn law_ordered(v: Seq<Seq<char>>)
    ensures
        ordered(v).to_multiset() =~= v.to_multiset(),
        forall|i: int, j: int|
            0 <= i < j < ordered(v).len() ==> !before(
                #[trigger] ordered(v)[j],
                #[trigger] ordered(v)[i],
            ),
    decreases v.len(),
{
    broadcast use vstd::seq_lib::group_to_multiset_ensures;

    if v.len() > 0 {
        let front = ordered(v.drop_last());
        let t = v.last();
        law_ordered(v.drop_last());
        lemma_way_in(front, t, 0);
        let w = way_in(front, t, 0);
        let r = ordered(v);
        assert(v =~= v.drop_last().push(t));
        front.insert_ensures(w, t);
        assert(r.to_multiset() =~= front.to_multiset().insert(t));
        assert forall|i: int, j: int| 0 <= i < j < r.len() implies !before(
            #[trigger] r[j],
            #[trigger] r[i],
        ) by {
            if j == w {
                assert(r[i] == front[i]);
            } else if i == w {
                assert(r[j] == front[j - 1]);
                let x = front[w];
                if before(r[j], t) {
                    lemma_before_transitive(r[j], t, x);
                    if j - 1 == w {
                        lemma_before_total(x, x);
                    } else {
                        assert(!before(front[j - 1], front[w]));
                    }
                }
            } else {
                let a = if i < w {
                    i
                } else {
                    i - 1
                };
                let b = if j < w {
                    j
                } else {
                    j - 1
                };
                assert(r[i] == front[a] && r[j] == front[b]);
            }
        }
    } else {
        assert(ordered(v) =~= v);
    }
}

/// The text of a pool: its champions in their order, with commas between them.
pub fn pool_text(pool: &Vec<String>) -> (r: String)
    ensures
        r@ == joined(ordered(pool.deep_view()), ","@),
{
    let ghost d = pool.deep_view();
    let mut v: Vec<String> = Vec::new();
    let mut i: usize = 0;
    assert(v.deep_view() =~= ordered(d.take(0)));
    while i < pool.len()
        invariant
            i <= pool@.len(),
            d == pool.deep_view(),
            v.deep_view() == ordered(d.take(i as int)),
        decreases pool@.len() - i,
    {
        assert(d.take(i + 1).drop_last() == d.take(i as int));
        assert(d[i as int] == pool@[i as int]@);
        let ghost o = v.deep_view();
        let t = pool[i].as_str();
        let mut w: usize = 0;
        while w < v.len() && !text_before(t, v[w].as_str())
            invariant
                w <= v@.len(),
                o == v.deep_view(),
                way_in(o, t@, 0) == way_in(o, t@, w as int),
            decreases v@.len() - w,
        {
            assert(o[w as int] == v@[w as int]@);
            w += 1;
        }
        assert(w < v@.len() ==> o[w as int] == v@[w as int]@);
        assert(way_in(o, t@, 0) == w);
        v.insert(w, t.to_owned());
        assert(v.deep_view() =~= o.insert(w as int, t@));
        i += 1;
    }
    assert(d.take(i as int) == d);
    join(&v, ",")
}

/// What a frame does: nothing where nothing is loaded or no count has changed; the first data
/// are written at once, and the launcher is started where it was not; changed data are written
/// once eight seconds have passed in frames with changes, which are summed up until then.
pub proof fn law_frame(e: Exporter, c: Counts, before: Counts, ms: u32)
    ensures
        after_frame(e, false, c, ms) == (e, Export::Skip),
        e.last == Some(c) ==> after_frame(e, true, c, ms) == (e, Export::Skip),
        e.last is None && !e.spawned ==> after_frame(e, true, c, ms).1 == Export::WriteAndStart,
        e.last is None && e.spawned ==> after_frame(e, true, c, ms).1 == Export::Write,
        e.last == Some(before) && before != c && e.acc_ms + ms < 8000 ==> ({
            let (next, done) = after_frame(e, true, c, ms);
            done == Export::Skip && next.acc_ms == e.acc_ms + ms && next.last == e.last
                && next.spawned == e.spawned
        }),
        e.last == Some(before) && before != c && e.acc_ms + ms >= 8000 ==> after_frame(
            e,
            true,
            c,
            ms,
        ).1 != Export::Skip,
        after_frame(e, true, c, ms).1 != Export::Skip ==> ({
            let next = after_frame(e, true, c, ms).0;
            next.last == Some(c) && next.acc_ms == 0 && next.spawned
        }),
{
}

/// The sum grows by each further count.
pub proof fn law_sum(v: Seq<usize>, n: usize)
    ensures
        sum_of(Seq::empty()) == 0,
        sum_of(v.push(n)) == sum_of(v) + n,
{
    assert(v.push(n).drop_last() =~= v);
}

/// The shared directory is in the user's directory, or in the one for all where that is not
/// known, with forward slashes.
pub proof fn law_shared_dir(dir: Seq<char>)
    ensures
        shared_dir(None) == "C:/tmp/tfm2-overlay"@,
        lacks(dir, '\\') ==> shared_dir(Some(dir)) == dir + "/tfm2-overlay"@,
        shared_dir(Some(dir.push('\\'))) == replaced(dir, '\\', "/"@) + "//tfm2-overlay"@,
{
    reveal_strlit("C:/tmp");
    reveal_strlit("/tfm2-overlay");
    reveal_strlit("C:/tmp/tfm2-overlay");
    reveal_strlit("//tfm2-overlay");
    reveal_strlit("/");
    let own = "C:/tmp"@;
    assert(lacks(own, '\\'));
    crate::text::law_nothing_to_replace(own, '\\', "/"@);
    assert(own + "/tfm2-overlay"@ =~= "C:/tmp/tfm2-overlay"@);
    if lacks(dir, '\\') {
        crate::text::law_nothing_to_replace(dir, '\\', "/"@);
    }
    crate::text::law_replaced(dir, '\\', '\\', "/"@);
    assert("/"@ + "/tfm2-overlay"@ =~= "//tfm2-overlay"@);
    assert(replaced(dir, '\\', "/"@) + "/"@ + "/tfm2-overlay"@ =~= replaced(dir, '\\', "/"@)
        + "//tfm2-overlay"@);
}

} // verus!
