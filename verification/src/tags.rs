//! What the kits of the champions say of a team: its gaps, its synergies and its counters.

use vstd::prelude::*;

use crate::tables::{Stats, Tables};
use crate::text::{has_text, same_text};
#[allow(unused_imports)]
use crate::text::has;

verus! {

/// The gaps of a team that a champion fills.
#[derive(Clone, Copy, PartialEq, Eq, Structural, Debug)]
pub struct CompGaps {
    /// The team has no tank, and the champion is one.
    pub tank: bool,
    /// The champion fills no tank's place, but that of a missing frontliner.
    pub front: bool,
    /// The team has no crowd control, and the champion has.
    pub cc: bool,
    /// Nobody in the team heals or shields, and the champion does.
    pub heal: bool,
    /// The team has no backline, and the champion stands there.
    pub backline: bool,
    /// Nobody in the team deals magic damage, and the champion does.
    pub ap: bool,
    /// Nobody in the team deals physical damage, and the champion does.
    pub ad: bool,
}

/// What of a champion's kit answers the enemies' kits.
#[derive(Clone, Copy, PartialEq, Eq, Structural, Debug)]
pub struct CounterSigns {
    /// Steps (0 to 3) by which it dives a backline.
    pub dive: usize,
    /// Steps (0 to 3) by which it whittles a frontline down.
    pub whittle: usize,
    /// It closes in on enemies that poke.
    pub engage: bool,
    /// It withstands crowd control.
    pub mitigate: bool,
}

/// The steps that `n` champions of one kind give: none for the first, at most three.
pub open spec fn steps(n: nat) -> nat {
    if n < 2 {
        0
    } else if n <= 4 {
        (n - 1) as nat
    } else {
        3
    }
}

impl Stats {
    /// Whether the tags or the ratios say that a champion is a tank.
    pub open spec fn is_tank(self, c: Seq<char>) -> bool {
        self.tagged(c, "Tank"@) || self.tanks(c)
    }

    /// Whether the tags or the ratios say that a champion is a frontliner.
    pub open spec fn is_front(self, c: Seq<char>) -> bool {
        self.tagged(c, "Frontline"@) || self.fronts(c)
    }

    /// Whether the tags or the ratios say that a champion heals or shields.
    pub open spec fn is_heal(self, c: Seq<char>) -> bool {
        self.tagged(c, "Heal"@) || self.tagged(c, "Shield"@) || self.heals(c)
    }

    /// Whether the kit says that a champion stands behind.
    pub open spec fn is_back(self, c: Seq<char>) -> bool {
        self.tagged(c, "Backline"@) || self.category_of(c) == "Range"@
    }

    /// Whether a champion deals damage of a kind.
    pub open spec fn deals(self, c: Seq<char>, kind: Seq<char>) -> bool {
        has(self.damage_of(c), kind)
    }

    /// Whether some champion of a team has a tag.
    pub open spec fn some_tagged(self, team: Seq<Seq<char>>, tag: Seq<char>) -> bool {
        exists|j: int| 0 <= j < team.len() && #[trigger] self.tagged(team[j], tag)
    }

    /// Whether some champion of a team is of a category.
    pub open spec fn some_in(self, team: Seq<Seq<char>>, cat: Seq<char>) -> bool {
        exists|j: int| 0 <= j < team.len() && #[trigger] self.category_of(team[j]) == cat
    }

    /// Whether some champion of a team is a tank.
    pub open spec fn some_tank(self, team: Seq<Seq<char>>) -> bool {
        exists|j: int| 0 <= j < team.len() && #[trigger] self.is_tank(team[j])
    }

    /// Whether some champion of a team is a frontliner.
    pub open spec fn some_front(self, team: Seq<Seq<char>>) -> bool {
        exists|j: int| 0 <= j < team.len() && #[trigger] self.is_front(team[j])
    }

    /// Whether some champion of a team heals or shields.
    pub open spec fn some_heal(self, team: Seq<Seq<char>>) -> bool {
        exists|j: int| 0 <= j < team.len() && #[trigger] self.is_heal(team[j])
    }

    /// Whether some champion of a team deals damage of a kind.
    pub open spec fn some_deals(self, team: Seq<Seq<char>>, kind: Seq<char>) -> bool {
        exists|j: int| 0 <= j < team.len() && #[trigger] self.deals(team[j], kind)
    }

    /// How many champions of a team have a tag.
    pub open spec fn count_tagged(self, team: Seq<Seq<char>>, tag: Seq<char>) -> nat {
        team.filter(|c: Seq<char>| self.tagged(c, tag)).len()
    }

    /// How many champions of a team are of a category.
    pub open spec fn count_in(self, team: Seq<Seq<char>>, cat: Seq<char>) -> nat {
        team.filter(|c: Seq<char>| self.category_of(c) == cat).len()
    }

    /// The gaps of a team that a champion fills; a team of nobody has none.
    pub open spec fn gaps(self, cand: Seq<char>, team: Seq<Seq<char>>) -> CompGaps {
        let formed = team.len() > 0;
        let tank = formed && !self.some_tank(team) && self.is_tank(cand);
        CompGaps {
            tank,
            front: formed && !tank && !self.some_front(team) && self.is_front(cand),
            cc: formed && !self.some_tagged(team, "CC"@) && self.tagged(cand, "CC"@),
            heal: formed && !self.some_heal(team) && self.is_heal(cand),
            backline: formed && !self.some_tagged(team, "Backline"@) && !self.some_in(
                team,
                "Range"@,
            ) && self.is_back(cand),
            ap: formed && !self.some_deals(team, "AP"@) && self.deals(cand, "AP"@),
            ad: formed && !self.some_deals(team, "AD"@) && self.deals(cand, "AD"@),
        }
    }

    /// How many champions of a team share a champion's category, where it has one.
    pub open spec fn sharing(self, cand: Seq<char>, team: Seq<Seq<char>>) -> nat {
        if self.category_of(cand).len() == 0 {
            0
        } else {
            self.count_in(team, self.category_of(cand))
        }
    }

    /// How many of the three pairings of kits a champion makes with a team: its area damage
    /// behind the team's crowd control, its crowd control before the team's area damage, and
    /// its protection of the team's backline.
    pub open spec fn pairings(self, cand: Seq<char>, team: Seq<Seq<char>>) -> nat {
        let follow = self.some_tagged(team, "CC"@) && (self.tagged(cand, "AOE"@) || self.tagged(
            cand,
            "DOT"@,
        ));
        let setup = self.some_tagged(team, "AOE"@) && self.tagged(cand, "CC"@);
        let peel = (self.some_tagged(team, "Backline"@) || self.some_in(team, "Range"@)) && (
        self.tagged(cand, "Heal"@) || self.tagged(cand, "Shield"@) || self.tagged(cand, "CC"@));
        (if follow {
            1nat
        } else {
            0
        }) + (if setup {
            1nat
        } else {
            0
        }) + (if peel {
            1nat
        } else {
            0
        })
    }

    /// What of a champion's kit answers the kits of the enemies.
    pub open spec fn signs(self, cand: Seq<char>, enemies: Seq<Seq<char>>) -> CounterSigns {
        let mobile = self.tagged(cand, "Mobility"@);
        let back = self.count_tagged(enemies, "Backline"@) + self.count_in(enemies, "Range"@);
        let front = self.count_tagged(enemies, "Tank"@) + self.count_tagged(enemies, "Frontline"@);
        CounterSigns {
            dive: if mobile || self.category_of(cand) == "Assassin"@ {
                steps(back) as usize
            } else {
                0
            },
            whittle: if self.tagged(cand, "Poke"@) || self.tagged(cand, "DOT"@) {
                steps(front) as usize
            } else {
                0
            },
            engage: self.count_tagged(enemies, "Poke"@) >= 2 && (self.tagged(cand, "Frontline"@)
                || mobile),
            mitigate: self.count_tagged(enemies, "CC"@) >= 3 && (mobile || self.tagged(
                cand,
                "Shield"@,
            )),
        }
    }
}

/// The steps that two counts give together.
fn joint_steps(a: usize, b: usize) -> (r: usize)
    ensures
        r == steps((a + b) as nat),
{
    let a: usize = if a > 4 {
        4
    } else {
        a
    };
    let b: usize = if b > 4 {
        4
    } else {
        b
    };
    let n: usize = a + b;
    if n < 2 {
        0
    } else if n <= 4 {
        n - 1
    } else {
        3
    }
}

/// A number of further lanes, not below 0 and not above 2.
pub open spec fn bonus_steps(n: int) -> int {
    if n <= 0 {
        0
    } else if n >= 2 {
        2
    } else {
        n
    }
}

impl Stats {
    /// The steps of the bonus for the lanes that a champion plays beyond one: only for the
    /// first two picks.
    pub open spec fn flex_bonus(self, c: Seq<char>, picks_made: nat) -> int {
        if picks_made <= 1 {
            bonus_steps(self.lane_count(c) as int - 1)
        } else {
            0
        }
    }
}

impl Tables {
    /// Whether the tags or the ratios say that a champion is a tank.
    pub fn tank_like(&self, c: &str) -> (r: bool)
        ensures
            r == self@.is_tank(c@),
    {
        self.has_tag(c, "Tank") || self.is_tank_data(c)
    }

    /// Whether the tags or the ratios say that a champion is a frontliner.
    pub fn front_like(&self, c: &str) -> (r: bool)
        ensures
            r == self@.is_front(c@),
    {
        self.has_tag(c, "Frontline") || self.is_frontline_data(c)
    }

    /// Whether the tags or the ratios say that a champion heals or shields.
    pub fn heal_like(&self, c: &str) -> (r: bool)
        ensures
            r == self@.is_heal(c@),
    {
        self.has_tag(c, "Heal") || self.has_tag(c, "Shield") || self.is_healer_data(c)
    }

    /// Whether a champion deals damage of a kind.
    pub fn deals(&self, c: &str, kind: &str) -> (r: bool)
        ensures
            r == self@.deals(c@, kind@),
    {
        has_text(self.damage(c), kind)
    }

    /// Whether some champion of a team has a tag.
    pub fn team_has_tag(&self, team: &Vec<String>, tag: &str) -> (r: bool)
        ensures
            r == self@.some_tagged(team.deep_view(), tag@),
    {
        let ghost d = team.deep_view();
        let mut i: usize = 0;
        while i < team.len()
            invariant
                i <= team@.len(),
                d == team.deep_view(),
                forall|j: int| 0 <= j < i ==> !#[trigger] self@.tagged(d[j], tag@),
            decreases team@.len() - i,
        {
            assert(d[i as int] == team@[i as int]@);
            if self.has_tag(team[i].as_str(), tag) {
                assert(self@.tagged(d[i as int], tag@));
                return true;
            }
            i += 1;
        }
        false
    }

    /// Whether some champion of a team is of a category.
    pub fn category_team(&self, team: &Vec<String>, cat: &str) -> (r: bool)
        ensures
            r == self@.some_in(team.deep_view(), cat@),
    {
        let ghost d = team.deep_view();
        let mut i: usize = 0;
        while i < team.len()
            invariant
                i <= team@.len(),
                d == team.deep_view(),
                forall|j: int| 0 <= j < i ==> !(#[trigger] self@.category_of(d[j]) == cat@),
            decreases team@.len() - i,
        {
            assert(d[i as int] == team@[i as int]@);
            if same_text(self.category(team[i].as_str()), cat) {
                assert((self@.category_of(d[i as int]) == cat@));
                return true;
            }
            i += 1;
        }
        false
    }

    /// Whether some champion of a team is a tank.
    pub fn team_has_tank(&self, team: &Vec<String>) -> (r: bool)
        ensures
            r == self@.some_tank(team.deep_view()),
    {
        let ghost d = team.deep_view();
        let mut i: usize = 0;
        while i < team.len()
            invariant
                i <= team@.len(),
                d == team.deep_view(),
                forall|j: int| 0 <= j < i ==> !#[trigger] self@.is_tank(d[j]),
            decreases team@.len() - i,
        {
            assert(d[i as int] == team@[i as int]@);
            if self.tank_like(team[i].as_str()) {
                assert(self@.is_tank(d[i as int]));
                return true;
            }
            i += 1;
        }
        false
    }

    /// Whether some champion of a team is a frontliner.
    pub fn team_has_front(&self, team: &Vec<String>) -> (r: bool)
        ensures
            r == self@.some_front(team.deep_view()),
    {
        let ghost d = team.deep_view();
        let mut i: usize = 0;
        while i < team.len()
            invariant
                i <= team@.len(),
                d == team.deep_view(),
                forall|j: int| 0 <= j < i ==> !#[trigger] self@.is_front(d[j]),
            decreases team@.len() - i,
        {
            assert(d[i as int] == team@[i as int]@);
            if self.front_like(team[i].as_str()) {
                assert(self@.is_front(d[i as int]));
                return true;
            }
            i += 1;
        }
        false
    }

    /// Whether some champion of a team heals or shields.
    pub fn team_has_heal(&self, team: &Vec<String>) -> (r: bool)
        ensures
            r == self@.some_heal(team.deep_view()),
    {
        let ghost d = team.deep_view();
        let mut i: usize = 0;
        while i < team.len()
            invariant
                i <= team@.len(),
                d == team.deep_view(),
                forall|j: int| 0 <= j < i ==> !#[trigger] self@.is_heal(d[j]),
            decreases team@.len() - i,
        {
            assert(d[i as int] == team@[i as int]@);
            if self.heal_like(team[i].as_str()) {
                assert(self@.is_heal(d[i as int]));
                return true;
            }
            i += 1;
        }
        false
    }

    /// Whether some champion of a team deals damage of a kind.
    pub fn team_deals(&self, team: &Vec<String>, kind: &str) -> (r: bool)
        ensures
            r == self@.some_deals(team.deep_view(), kind@),
    {
        let ghost d = team.deep_view();
        let mut i: usize = 0;
        while i < team.len()
            invariant
                i <= team@.len(),
                d == team.deep_view(),
                forall|j: int| 0 <= j < i ==> !#[trigger] self@.deals(d[j], kind@),
            decreases team@.len() - i,
        {
            assert(d[i as int] == team@[i as int]@);
            if self.deals(team[i].as_str(), kind) {
                assert(self@.deals(d[i as int], kind@));
                return true;
            }
            i += 1;
        }
        false
    }

    /// How many champions of a team have a tag.
    pub fn count_tag(&self, team: &Vec<String>, tag: &str) -> (r: usize)
        ensures
            r == self@.count_tagged(team.deep_view(), tag@),
    {
        let ghost d = team.deep_view();
        let ghost s = self@;
        let ghost counts = |c: Seq<char>| s.tagged(c, tag@);
        let mut n: usize = 0;
        let mut i: usize = 0;
        assert(d.take(0).filter(counts).len() == 0) by {
            reveal(Seq::filter);
        }
        while i < team.len()
            invariant
                i <= team@.len(),
                d == team.deep_view(),
                s == self@,
                counts == (|c: Seq<char>| s.tagged(c, tag@)),
                n <= i,
                n == d.take(i as int).filter(counts).len(),
            decreases team@.len() - i,
        {
            assert(d[i as int] == team@[i as int]@);
            assert(d.take(i + 1).drop_last() == d.take(i as int));
            assert(d.take(i + 1).filter(counts).len() == n + if counts(d[i as int]) {
                1int
            } else {
                0
            }) by {
                reveal(Seq::filter);
            }
            if self.has_tag(team[i].as_str(), tag) {
                n += 1;
            }
            i += 1;
        }
        assert(d.take(i as int) == d);
        n
    }

    /// How many champions of a team are of a category.
    pub fn count_category(&self, team: &Vec<String>, cat: &str) -> (r: usize)
        ensures
            r == self@.count_in(team.deep_view(), cat@),
    {
        let ghost d = team.deep_view();
        let ghost s = self@;
        let ghost counts = |c: Seq<char>| s.category_of(c) == cat@;
        let mut n: usize = 0;
        let mut i: usize = 0;
        assert(d.take(0).filter(counts).len() == 0) by {
            reveal(Seq::filter);
        }
        while i < team.len()
            invariant
                i <= team@.len(),
                d == team.deep_view(),
                s == self@,
                counts == (|c: Seq<char>| s.category_of(c) == cat@),
                n <= i,
                n == d.take(i as int).filter(counts).len(),
            decreases team@.len() - i,
        {
            assert(d[i as int] == team@[i as int]@);
            assert(d.take(i + 1).drop_last() == d.take(i as int));
            assert(d.take(i + 1).filter(counts).len() == n + if counts(d[i as int]) {
                1int
            } else {
                0
            }) by {
                reveal(Seq::filter);
            }
            if same_text(self.category(team[i].as_str()), cat) {
                n += 1;
            }
            i += 1;
        }
        assert(d.take(i as int) == d);
        n
    }

    /// The gaps of a team that a champion fills. A team of nobody has none: with no pick made
    /// there is no composition whose gaps could be seen.
    pub fn comp_need(&self, cand: &str, allies: &Vec<String>) -> (r: CompGaps)
        ensures
            r == self@.gaps(cand@, allies.deep_view()),
    {
        if allies.len() == 0 {
            return CompGaps {
                tank: false,
                front: false,
                cc: false,
                heal: false,
                backline: false,
                ap: false,
                ad: false,
            };
        }
        let tank = !self.team_has_tank(allies) && self.tank_like(cand);
        CompGaps {
            tank,
            front: !tank && !self.team_has_front(allies) && self.front_like(cand),
            cc: !self.team_has_tag(allies, "CC") && self.has_tag(cand, "CC"),
            heal: !self.team_has_heal(allies) && self.heal_like(cand),
            backline: !self.team_has_tag(allies, "Backline") && !self.category_team(allies, "Range")
                && (self.has_tag(cand, "Backline") || same_text(self.category(cand), "Range")),
            ap: !self.team_deals(allies, "AP") && self.deals(cand, "AP"),
            ad: !self.team_deals(allies, "AD") && self.deals(cand, "AD"),
        }
    }

    /// How many champions of a team share a champion's category, where it has one.
    pub fn overlap(&self, cand: &str, allies: &Vec<String>) -> (r: usize)
        ensures
            r == self@.sharing(cand@, allies.deep_view()),
    {
        let cat = self.category(cand);
        if cat.is_empty() {
            return 0;
        }
        self.count_category(allies, cat)
    }

    /// How many of the three pairings of kits a champion makes with a team.
    pub fn tag_synergy(&self, cand: &str, allies: &Vec<String>) -> (r: usize)
        ensures
            r == self@.pairings(cand@, allies.deep_view()),
            r <= 3,
    {
        let mut n: usize = 0;
        if self.team_has_tag(allies, "CC") && (self.has_tag(cand, "AOE") || self.has_tag(
            cand,
            "DOT",
        )) {
            n += 1;
        }
        if self.team_has_tag(allies, "AOE") && self.has_tag(cand, "CC") {
            n += 1;
        }
        if (self.team_has_tag(allies, "Backline") || self.category_team(allies, "Range")) && (
        self.has_tag(cand, "Heal") || self.has_tag(cand, "Shield") || self.has_tag(cand, "CC")) {
            n += 1;
        }
        n
    }

    /// What of a champion's kit answers the kits of the enemies.
    pub fn tag_counter(&self, cand: &str, enemies: &Vec<String>) -> (r: CounterSigns)
        ensures
            r == self@.signs(cand@, enemies.deep_view()),
    {
        let mobile = self.has_tag(cand, "Mobility");
        CounterSigns {
            dive: if mobile || same_text(self.category(cand), "Assassin") {
                joint_steps(
                    self.count_tag(enemies, "Backline"),
                    self.count_category(enemies, "Range"),
                )
            } else {
                0
            },
            whittle: if self.has_tag(cand, "Poke") || self.has_tag(cand, "DOT") {
                joint_steps(self.count_tag(enemies, "Tank"), self.count_tag(enemies, "Frontline"))
            } else {
                0
            },
            engage: self.count_tag(enemies, "Poke") >= 2 && (self.has_tag(cand, "Frontline")
                || mobile),
            mitigate: self.count_tag(enemies, "CC") >= 3 && (mobile || self.has_tag(cand, "Shield")),
        }
    }

    /// How many steps of a bonus a champion has for the lanes that it plays beyond one: at
    /// most two, and only for the first two picks.
    pub fn flex_steps(&self, c: &str, picks_made: usize) -> (r: u8)
        ensures
            r == self@.flex_bonus(c@, picks_made as nat),
    {
        if picks_made > 1 {
            return 0;
        }
        let n = self.flex(c);
        if n <= 1 {
            0
        } else if n >= 3 {
            2
        } else {
            n - 1
        }
    }
}

/// Of the places of a tank and of a frontliner, a champion fills at most one.
pub proof fn law_one_front_gap(t: Stats, cand: Seq<char>, team: Seq<Seq<char>>)
    ensures
        !(t.gaps(cand, team).tank && t.gaps(cand, team).front),
{
}

/// The first pick of a team fills no gap.
pub proof fn law_first_pick_fills_none(t: Stats, cand: Seq<char>)
    ensures
        t.gaps(cand, Seq::empty()) == (CompGaps {
            tank: false,
            front: false,
            cc: false,
            heal: false,
            backline: false,
            ap: false,
            ad: false,
        }),
{
}

/// The champion that fills a gap leaves none of that kind behind it.
pub proof fn law_gap_closes(t: Stats, cand: Seq<char>, team: Seq<Seq<char>>, next: Seq<char>)
    ensures
        t.gaps(cand, team).tank ==> !t.gaps(next, team.push(cand)).tank,
        t.gaps(cand, team).front ==> !t.gaps(next, team.push(cand)).front,
        t.gaps(cand, team).cc ==> !t.gaps(next, team.push(cand)).cc,
        t.gaps(cand, team).heal ==> !t.gaps(next, team.push(cand)).heal,
        t.gaps(cand, team).backline ==> !t.gaps(next, team.push(cand)).backline,
        t.gaps(cand, team).ap ==> !t.gaps(next, team.push(cand)).ap,
        t.gaps(cand, team).ad ==> !t.gaps(next, team.push(cand)).ad,
{
    let grown = team.push(cand);
    let n = team.len() as int;
    assert(grown[n] == cand);
    if t.gaps(cand, team).tank {
        assert(t.is_tank(grown[n]));
    }
    if t.gaps(cand, team).cc {
        assert(t.tagged(grown[n], "CC"@));
    }
    if t.gaps(cand, team).heal {
        assert(t.is_heal(grown[n]));
    }
    if t.gaps(cand, team).backline {
        assert(t.tagged(grown[n], "Backline"@) || t.category_of(grown[n]) == "Range"@);
    }
    if t.gaps(cand, team).ap {
        assert(t.deals(grown[n], "AP"@));
    }
    if t.gaps(cand, team).ad {
        assert(t.deals(grown[n], "AD"@));
    }
}

} // verus!
