//! The texts of the overlay's panel. Texts of scores are made by the caller.

use vstd::prelude::*;

use crate::board::{Fearless, Mode};
use crate::champs::{CHAMPS, CHAMP_COUNT};
#[allow(unused_imports)]
use crate::champs::champ_ko;
use crate::lanes::Lane;
#[allow(unused_imports)]
use crate::lanes::LaneShown;
use crate::numeral::to_decimal;
#[allow(unused_imports)]
use crate::numeral::decimal;
use crate::recommend::{LaneCand, Row};
#[allow(unused_imports)]
use crate::recommend::Shown;
use crate::tables::FULL_CONF_MATCHES;
use crate::text::{chars_of, join};
#[allow(unused_imports)]
use crate::text::joined;

verus! {

/// What a click in a mode marks.
pub open spec fn mode_text(mode: Mode) -> Seq<char> {
    match mode {
        Mode::MyPick => "내 픽"@,
        Mode::EnemyPick => "상대 픽"@,
        Mode::MyBan => "내 밴"@,
        Mode::EnemyBan => "상대 밴"@,
        Mode::Clear => "지움"@,
        Mode::Pool => "풀 편집"@,
    }
}

/// What a click in a mode marks.
pub fn mode_label(mode: Mode) -> (r: &'static str)
    ensures
        r@ == mode_text(mode),
{
    match mode {
        Mode::MyPick => "내 픽",
        Mode::EnemyPick => "상대 픽",
        Mode::MyBan => "내 밴",
        Mode::EnemyBan => "상대 밴",
        Mode::Clear => "지움",
        Mode::Pool => "풀 편집",
    }
}

/// What is told of the statistics: their matches, and how much of the recommendations rests
/// on theory, in percent, as long as some does.
pub open spec fn conf_text(matches: nat, theory: nat) -> Seq<char> {
    if matches == 0 {
        "데이터 없음 · 이론 추천"@
    } else if matches < FULL_CONF_MATCHES {
        "현재패치 "@ + decimal(matches) + "판 · 이론 "@ + decimal(theory) + "%"@
    } else {
        "현재패치 "@ + decimal(matches) + "판 · 통계"@
    }
}

/// What is told of the statistics.
pub fn conf_label(matches: usize, theory: u32) -> (r: String)
    ensures
        r@ == conf_text(matches as nat, theory as nat),
{
    if matches == 0 {
        return "데이터 없음 · 이론 추천".to_owned();
    }
    let mut r = "현재패치 ".to_owned();
    r.append(to_decimal(matches as u64).as_str());
    if matches < FULL_CONF_MATCHES {
        r.append("판 · 이론 ");
        r.append(to_decimal(theory as u64).as_str());
        r.append("%");
    } else {
        r.append("판 · 통계");
    }
    r
}

/// What is told of the pool.
pub open spec fn pool_text(n: nat) -> Seq<char> {
    if n == 0 {
        "풀 전체"@
    } else {
        "풀 "@ + decimal(n) + "/60"@
    }
}

/// What is told of the pool.
pub fn pool_label(n: usize) -> (r: String)
    ensures
        r@ == pool_text(n as nat),
{
    if n == 0 {
        return "풀 전체".to_owned();
    }
    let mut r = "풀 ".to_owned();
    r.append(to_decimal(n as u64).as_str());
    r.append("/60");
    r
}

/// What is told of the statistics that are loaded: their save, or else where they come from.
pub fn loaded_label(save_name: &str, source: &str) -> (r: String)
    ensures
        r@ == "로드됨 "@ + if save_name@.len() == 0 {
            source@
        } else {
            save_name@
        },
{
    let mut r = "로드됨 ".to_owned();
    r.append(
        if save_name.is_empty() {
            source
        } else {
            save_name
        },
    );
    r
}

/// What is told of the champions that are locked, given how many each team may not pick.
pub open spec fn lock_text(fearless: Fearless, mine: nat, theirs: nat) -> Seq<char> {
    "이전 세트 사용 챔프 » 추천·그리드 제외  ·  "@ + if fearless == Fearless::Hard {
        "금지(공통) "@ + decimal(mine)
    } else {
        "금지 내 "@ + decimal(mine) + "  ·  상대 "@ + decimal(theirs)
    }
}

/// What is told of the champions that are locked.
pub fn lock_label(fearless: Fearless, mine: usize, theirs: usize) -> (r: String)
    ensures
        r@ == lock_text(fearless, mine as nat, theirs as nat),
{
    let mut t = String::new();
    if fearless == Fearless::Hard {
        t.append("금지(공통) ");
        t.append(to_decimal(mine as u64).as_str());
        assert(t@ =~= "금지(공통) "@ + decimal(mine as nat));
    } else {
        t.append("금지 내 ");
        t.append(to_decimal(mine as u64).as_str());
        t.append("  ·  상대 ");
        t.append(to_decimal(theirs as u64).as_str());
        assert(t@ =~= "금지 내 "@ + decimal(mine as nat) + "  ·  상대 "@ + decimal(theirs as nat));
    }
    let mut r = "이전 세트 사용 챔프 » 추천·그리드 제외  ·  ".to_owned();
    r.append(t.as_str());
    r
}

/// Some names in a row, a dash where there are none.
pub open spec fn row_of_names(names: Seq<Seq<char>>) -> Seq<char> {
    if names.len() == 0 {
        "-"@
    } else {
        joined(names, ", "@)
    }
}

/// Some names in a row, a dash where there are none.
pub fn join_names(names: &Vec<String>) -> (r: String)
    ensures
        r@ == row_of_names(names.deep_view()),
{
    assert(names.deep_view().len() == names@.len());
    if names.len() == 0 {
        "-".to_owned()
    } else {
        join(names, ", ")
    }
}

/// A tier in brackets with a space behind it; nothing where there is none.
pub open spec fn badge(tier: Seq<char>) -> Seq<char> {
    if tier.len() == 0 {
        Seq::empty()
    } else {
        "["@ + tier + "] "@
    }
}

/// A role with a space behind it; nothing where there is none.
pub open spec fn role_prefix(role: Seq<char>) -> Seq<char> {
    if role.len() == 0 {
        Seq::empty()
    } else {
        role + " "@
    }
}

fn write_badge(tier: &str) -> (r: String)
    ensures
        r@ == badge(tier@),
{
    if tier.is_empty() {
        String::new()
    } else {
        let mut r = "[".to_owned();
        r.append(tier);
        r.append("] ");
        r
    }
}

fn write_role(role: &str) -> (r: String)
    ensures
        r@ == role_prefix(role@),
{
    if role.is_empty() {
        String::new()
    } else {
        let mut r = role.to_owned();
        r.append(" ");
        r
    }
}

/// The first of some lanes that has the star.
pub open spec fn star_place(lanes: Seq<LaneShown>, from: int) -> Option<int>
    decreases lanes.len() - from,
{
    if from < 0 || from >= lanes.len() {
        None
    } else if lanes[from].star {
        Some(from)
    } else {
        star_place(lanes, from + 1)
    }
}

/// The lane with the star, where it has a recommended champion.
pub open spec fn headline_lane(lanes: Seq<LaneShown>) -> Option<int> {
    match star_place(lanes, 0) {
        Some(i) => if lanes[i].cands.len() > 0 {
            Some(i)
        } else {
            None
        },
        None => None,
    }
}

/// The lane whose first champion is to be picked now.
pub fn find_headline_lane(lanes: &Vec<Lane>) -> (r: Option<usize>)
    ensures
        match r {
            Some(i) => i < lanes@.len() && lanes@[i as int].cands@.len() > 0 && headline_lane(
                lanes.deep_view(),
            ) == Some(i as int),
            None => headline_lane(lanes.deep_view()) is None,
        },
{
    let ghost d = lanes.deep_view();
    let mut i: usize = 0;
    while i < lanes.len()
        invariant
            i <= lanes@.len(),
            d == lanes.deep_view(),
            star_place(d, 0) == star_place(d, i as int),
        decreases lanes@.len() - i,
    {
        assert(d[i as int] == lanes@[i as int].deep_view());
        if lanes[i].star {
            assert(d[i as int].cands.len() == lanes@[i as int].cands@.len());
            return if lanes[i].cands.len() > 0 {
                Some(i)
            } else {
                None
            };
        }
        i += 1;
    }
    None
}

/// What to pick now, and for which lane.
pub open spec fn lane_headline_text(lane: Seq<char>, c: Shown) -> Seq<char> {
    "» 지금 추천: "@ + badge(c.tier) + role_prefix(c.role) + c.ko + "  ·  "@ + lane
        + " 라인  ("@ + c.label + ")"@
}

/// What to pick now, and for which lane.
pub fn lane_headline(lane: &str, c: &LaneCand) -> (r: String)
    ensures
        r@ == lane_headline_text(lane@, c.deep_view()),
{
    let mut r = "» 지금 추천: ".to_owned();
    r.append(write_badge(c.tier).as_str());
    r.append(write_role(c.role).as_str());
    r.append(c.ko.as_str());
    r.append("  ·  ");
    r.append(lane);
    r.append(" 라인  (");
    r.append(c.label);
    r.append(")");
    r
}

/// What is recommended in a phase.
pub open spec fn phase_text(ban: bool) -> Seq<char> {
    if ban {
        "추천 밴"@
    } else {
        "추천 픽"@
    }
}

/// What is recommended in a phase.
pub fn phase_label(ban: bool) -> (r: &'static str)
    ensures
        r@ == phase_text(ban),
{
    if ban {
        "추천 밴"
    } else {
        "추천 픽"
    }
}

/// What to ban or to pick now.
pub open spec fn headline_text(ban: bool, c: Shown) -> Seq<char> {
    "» 지금 "@ + phase_text(ban) + ": "@ + badge(c.tier) + role_prefix(c.role) + c.ko + "  ("@
        + c.label + ")"@
}

/// What to ban or to pick now.
pub fn headline(ban: bool, c: &Row) -> (r: String)
    ensures
        r@ == headline_text(ban, c.deep_view()),
{
    let mut r = "» 지금 ".to_owned();
    r.append(phase_label(ban));
    r.append(": ");
    r.append(write_badge(c.tier).as_str());
    r.append(write_role(c.role).as_str());
    r.append(c.ko.as_str());
    r.append("  (");
    r.append(c.label);
    r.append(")");
    r
}

/// How far the lane board is, and what it advises.
pub fn board_label(timing: &str, picks_made: usize, tip: &str) -> (r: String)
    ensures
        r@ == timing@ + " (내픽 "@ + decimal(picks_made as nat) + "/5) · "@ + tip@,
{
    let mut r = timing.to_owned();
    r.append(" (내픽 ");
    r.append(to_decimal(picks_made as u64).as_str());
    r.append("/5) · ");
    r.append(tip);
    r
}

/// The name of a lane on the board, with an arrow at that with the star.
pub fn lane_label(lane: &Lane) -> (r: String)
    ensures
        r@ == (if lane.star {
            "» "@
        } else {
            "   "@
        }) + lane.name@,
{
    let mut r = if lane.star {
        "» ".to_owned()
    } else {
        "   ".to_owned()
    };
    r.append(lane.name);
    r
}

/// The button of a champion on a lane: role, name, score and a mark of thin statistics; what
/// stands behind the two hashes tells it from other buttons.
pub open spec fn lane_button_text(lane: Seq<char>, c: Shown, score: Seq<char>) -> Seq<char> {
    role_prefix(c.role) + c.ko + " "@ + score + (if c.low_conf {
        "?"@
    } else {
        Seq::empty()
    }) + "##L"@ + lane + "_"@ + c.id
}

/// The button of a champion on a lane.
pub fn lane_button(lane: &str, c: &LaneCand, score: &str) -> (r: String)
    ensures
        r@ == lane_button_text(lane@, c.deep_view(), score@),
{
    let mut r = write_role(c.role);
    r.append(c.ko.as_str());
    r.append(" ");
    r.append(score);
    let ghost sofar = r@;
    if c.low_conf {
        r.append("?");
    } else {
        assert(r@ =~= sofar + Seq::empty());
    }
    r.append("##L");
    r.append(lane);
    r.append("_");
    r.append(c.id.as_str());
    r
}

/// Some spaces.
pub open spec fn spaces(n: int) -> Seq<char> {
    Seq::new(
        if n > 0 {
            n as nat
        } else {
            0
        },
        |i: int| ' ',
    )
}

fn push_spaces(s: &mut String, have: usize, want: usize)
    ensures
        final(s)@ == old(s)@ + spaces(want - have),
{
    let ghost before = s@;
    let mut n: usize = have;
    assert(before + spaces(0) =~= before);
    while n < want
        invariant
            have <= n,
            have < want ==> n <= want,
            have >= want ==> n == have,
            s@ == before + spaces(n - have),
        decreases want - n,
    {
        s.push(' ');
        n += 1;
        assert(s@ =~= before + spaces(n - have));
    }
    assert(spaces(want - have) =~= spaces(n - have));
}

/// A row of the list of recommendations: its place, role, name, score, label and a mark of
/// thin statistics, in columns.
pub open spec fn list_row_text(place: nat, c: Shown, score: Seq<char>) -> Seq<char> {
    let n = decimal(place);
    spaces(2 - n.len()) + n + ". "@ + (if c.role.len() == 0 {
        "  "@
    } else {
        c.role + " "@
    }) + (c.ko + spaces(11 - c.ko.len())) + score + "   "@ + c.label + (if c.low_conf {
        " ?"@
    } else {
        Seq::empty()
    })
}

/// A row of the list of recommendations.
pub fn list_row(place: usize, c: &Row, score: &str) -> (r: String)
    ensures
        r@ == list_row_text(place as nat, c.deep_view(), score@),
{
    let n = to_decimal(place as u64);
    let digits = chars_of(n.as_str());
    let mut r = String::new();
    push_spaces(&mut r, digits.len(), 2);
    assert(r@ =~= spaces(2 - n@.len()));
    r.append(n.as_str());
    r.append(". ");
    if c.role.is_empty() {
        r.append("  ");
    } else {
        r.append(write_role(c.role).as_str());
    }
    let ko = chars_of(c.ko.as_str());
    let mut name = c.ko.clone();
    push_spaces(&mut name, ko.len(), 11);
    r.append(name.as_str());
    r.append(score);
    r.append("   ");
    r.append(c.label);
    let ghost sofar = r@;
    if c.low_conf {
        r.append(" ?");
    } else {
        assert(r@ =~= sofar + Seq::empty());
    }
    r
}

/// The button of a champion of the grid: its tier, where it has one, and its name; what
/// stands behind the two hashes tells it from other buttons.
pub open spec fn grid_text(i: int, tier: Seq<char>) -> Seq<char> {
    (if tier.len() == 0 {
        Seq::empty()
    } else {
        tier + "·"@
    }) + champ_ko(i) + "##"@ + decimal(i as nat)
}

/// The button of a champion of the grid.
pub fn grid_label(i: usize, tier: &str) -> (r: String)
    requires
        i < CHAMP_COUNT,
    ensures
        r@ == grid_text(i as int, tier@),
{
    let mut r = String::new();
    if !tier.is_empty() {
        r.append(tier);
        r.append("·");
        assert(r@ =~= tier@ + "·"@);
    }
    r.append(CHAMPS[i].1);
    r.append("##");
    r.append(to_decimal(i as u64).as_str());
    r
}

/// What is told of statistics: that there are none, how much rests on theory below 200
/// matches, and that all rests on them from there on.
pub proof fn law_conf_text(matches: nat, theory: nat)
    ensures
        matches == 0 ==> conf_text(matches, theory) == "데이터 없음 · 이론 추천"@,
        0 < matches < 200 ==> conf_text(matches, theory) == "현재패치 "@ + decimal(matches)
            + "판 · 이론 "@ + decimal(theory) + "%"@,
        matches >= 200 ==> conf_text(matches, theory) == "현재패치 "@ + decimal(matches)
            + "판 · 통계"@,
        pool_text(0) == "풀 전체"@,
        matches > 0 ==> pool_text(matches) == "풀 "@ + decimal(matches) + "/60"@,
{
}

/// The headline is that of the first lane with the star, where it recommends somebody.
pub proof fn law_headline_lane(lanes: Seq<LaneShown>, i: int)
    ensures
        0 <= i < lanes.len() && lanes[i].star && lanes[i].cands.len() > 0 && (forall|j: int|
            0 <= j < i ==> !(#[trigger] lanes[j]).star) ==> headline_lane(lanes) == Some(i),
        (forall|j: int| 0 <= j < lanes.len() ==> !(#[trigger] lanes[j]).star) ==> headline_lane(
            lanes,
        ) is None,
        headline_lane(lanes) matches Some(k) ==> 0 <= k < lanes.len() && lanes[k].star
            && lanes[k].cands.len() > 0,
{
    lemma_star_place(lanes, 0);
}

proof fn lemma_star_place(lanes: Seq<LaneShown>, from: int)
    requires
        0 <= from,
    ensures
        match star_place(lanes, from) {
            Some(i) => from <= i < lanes.len() && lanes[i].star && forall|j: int|
                from <= j < i ==> !(#[trigger] lanes[j]).star,
            None => forall|j: int| from <= j < lanes.len() ==> !(#[trigger] lanes[j]).star,
        },
    decreases lanes.len() - from,
{
    if from < lanes.len() && !lanes[from].star {
        lemma_star_place(lanes, from + 1);
    }
}

/// Thin statistics are marked by a question mark behind a score, on a lane's button and at the
/// end of a list's row, and others by nothing.
pub proof fn law_thin_is_marked(lane: Seq<char>, place: nat, c: Shown, score: Seq<char>)
    ensures
        ({
            let thin = Shown { low_conf: true, ..c };
            let firm = Shown { low_conf: false, ..c };
            &&& list_row_text(place, thin, score) == list_row_text(place, firm, score) + " ?"@
            &&& lane_button_text(lane, firm, score) == role_prefix(c.role) + c.ko + " "@ + score
                + "##L"@ + lane + "_"@ + c.id
            &&& lane_button_text(lane, thin, score) == role_prefix(c.role) + c.ko + " "@ + score
                + "?"@ + "##L"@ + lane + "_"@ + c.id
        }),
{
    let firm = Shown { low_conf: false, ..c };
    let thin = Shown { low_conf: true, ..c };
    assert(list_row_text(place, thin, score) =~= list_row_text(place, firm, score) + " ?"@);
    assert(role_prefix(c.role) + c.ko + " "@ + score + Seq::<char>::empty() =~= role_prefix(c.role)
        + c.ko + " "@ + score);
}

} // verus!
