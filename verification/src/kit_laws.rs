//! What holds of every kit: which gaps a champion fills, how it pairs with a team and what it
//! answers the enemies with, tag by tag.

use vstd::prelude::*;

#[allow(unused_imports)]
use crate::tables::Stats;
#[allow(unused_imports)]
use crate::tags::{bonus_steps, steps, CompGaps, CounterSigns};

verus! {

/// A champion is a tank, a frontliner or a healer by a tag alone and by its ratios alone, and
/// by nothing else; it stands behind by its tag or its category.
pub proof fn law_tags_or_ratios(t: Stats, c: Seq<char>)
    ensures
        t.tagged(c, "Tank"@) ==> t.is_tank(c),
        t.tanks(c) ==> t.is_tank(c),
        !t.tagged(c, "Tank"@) && !t.tanks(c) ==> !t.is_tank(c),
        t.tagged(c, "Frontline"@) ==> t.is_front(c),
        t.fronts(c) ==> t.is_front(c),
        !t.tagged(c, "Frontline"@) && !t.fronts(c) ==> !t.is_front(c),
        t.tagged(c, "Heal"@) ==> t.is_heal(c),
        t.tagged(c, "Shield"@) ==> t.is_heal(c),
        t.heals(c) ==> t.is_heal(c),
        !t.tagged(c, "Heal"@) && !t.tagged(c, "Shield"@) && !t.heals(c) ==> !t.is_heal(c),
        t.tagged(c, "Backline"@) ==> t.is_back(c),
        t.category_of(c) == "Range"@ ==> t.is_back(c),
        !t.tagged(c, "Backline"@) && t.category_of(c) != "Range"@ ==> !t.is_back(c),
{
}

/// The counts of a team: none of nobody, and one more for each champion that has the tag, or
/// is of the category.
pub proof fn law_team_counts(t: Stats, team: Seq<Seq<char>>, c: Seq<char>, tag: Seq<char>)
    ensures
        t.count_tagged(Seq::empty(), tag) == 0,
        t.count_in(Seq::empty(), tag) == 0,
        t.tagged(c, tag) ==> t.count_tagged(team.push(c), tag) == t.count_tagged(team, tag) + 1,
        !t.tagged(c, tag) ==> t.count_tagged(team.push(c), tag) == t.count_tagged(team, tag),
        t.category_of(c) == tag ==> t.count_in(team.push(c), tag) == t.count_in(team, tag) + 1,
        t.category_of(c) != tag ==> t.count_in(team.push(c), tag) == t.count_in(team, tag),
{
    reveal(Seq::filter);
    assert(team.push(c).drop_last() =~= team);
}

/// The steps of a count: none below two, one for two, one more for each further, at most
/// three.
pub proof fn law_steps(n: nat)
    ensures
        n <= 1 ==> steps(n) == 0,
        steps(2) == 1,
        steps(n) <= 3,
        n >= 2 && steps(n) < 3 ==> steps(n + 1) == steps(n) + 1,
        steps(n) <= steps(n + 1),
{
}

/// A champion fills the gap of a tank where nobody in the team is one, and that of a
/// frontliner where it does not fill that of a tank and nobody is one.
pub proof fn law_front_gaps(t: Stats, cand: Seq<char>, team: Seq<Seq<char>>, j: int)
    requires
        0 <= j < team.len(),
    ensures
        t.is_tank(team[j]) || !t.is_tank(cand) ==> !t.gaps(cand, team).tank,
        t.is_front(team[j]) || !t.is_front(cand) ==> !t.gaps(cand, team).front,
        t.is_tank(cand) && (forall|k: int| 0 <= k < team.len() ==> !t.is_tank(#[trigger] team[k]))
            ==> t.gaps(cand, team).tank && !t.gaps(cand, team).front,
        t.is_front(cand) && !t.gaps(cand, team).tank && (forall|k: int|
            0 <= k < team.len() ==> !t.is_front(#[trigger] team[k])) ==> t.gaps(cand, team).front,
{
}

/// A champion fills the gap of crowd control, of healing, of a backline, of magic or of
/// physical damage if and only if it has what nobody in the team has.
pub proof fn law_other_gaps(t: Stats, cand: Seq<char>, team: Seq<Seq<char>>, j: int)
    requires
        0 <= j < team.len(),
    ensures
        t.tagged(team[j], "CC"@) || !t.tagged(cand, "CC"@) ==> !t.gaps(cand, team).cc,
        t.tagged(cand, "CC"@) && (forall|k: int|
            0 <= k < team.len() ==> !t.tagged(#[trigger] team[k], "CC"@)) ==> t.gaps(cand, team).cc,
        t.is_heal(team[j]) || !t.is_heal(cand) ==> !t.gaps(cand, team).heal,
        t.is_heal(cand) && (forall|k: int| 0 <= k < team.len() ==> !t.is_heal(#[trigger] team[k]))
            ==> t.gaps(cand, team).heal,
        t.is_back(team[j]) || !t.is_back(cand) ==> !t.gaps(cand, team).backline,
        t.is_back(cand) && (forall|k: int| 0 <= k < team.len() ==> !t.is_back(#[trigger] team[k]))
            ==> t.gaps(cand, team).backline,
        t.deals(team[j], "AP"@) || !t.deals(cand, "AP"@) ==> !t.gaps(cand, team).ap,
        t.deals(cand, "AP"@) && (forall|k: int|
            0 <= k < team.len() ==> !t.deals(#[trigger] team[k], "AP"@)) ==> t.gaps(cand, team).ap,
        t.deals(team[j], "AD"@) || !t.deals(cand, "AD"@) ==> !t.gaps(cand, team).ad,
        t.deals(cand, "AD"@) && (forall|k: int|
            0 <= k < team.len() ==> !t.deals(#[trigger] team[k], "AD"@)) ==> t.gaps(cand, team).ad,
{
    if t.is_back(team[j]) {
        assert(t.tagged(team[j], "Backline"@) || t.category_of(team[j]) == "Range"@);
    }
    if forall|k: int| 0 <= k < team.len() ==> !t.is_back(#[trigger] team[k]) {
        assert forall|k: int| 0 <= k < team.len() implies !t.tagged(team[k], "Backline"@)
            && t.category_of(team[k]) != "Range"@ by {
            assert(!t.is_back(team[k]));
        }
    }
}

/// Each further champion of a team that shares a champion's category is one more, and no other
/// is; nobody shares an empty category.
pub proof fn law_sharing(t: Stats, cand: Seq<char>, team: Seq<Seq<char>>, next: Seq<char>)
    ensures
        t.sharing(cand, Seq::empty()) == 0,
        t.category_of(cand).len() == 0 ==> t.sharing(cand, team) == 0,
        t.category_of(cand).len() > 0 && t.category_of(next) == t.category_of(cand) ==> t.sharing(
            cand,
            team.push(next),
        ) == t.sharing(cand, team) + 1,
        t.category_of(next) != t.category_of(cand) ==> t.sharing(cand, team.push(next))
            == t.sharing(cand, team),
{
    law_team_counts(t, team, next, t.category_of(cand));
}

/// Whether some champion of a team stands behind.
pub open spec fn some_back(t: Stats, team: Seq<Seq<char>>) -> bool {
    exists|j: int| 0 <= j < team.len() && t.is_back(#[trigger] team[j])
}

proof fn lemma_some_back(t: Stats, team: Seq<Seq<char>>)
    ensures
        some_back(t, team) <==> t.some_tagged(team, "Backline"@) || t.some_in(team, "Range"@),
{
    if t.some_tagged(team, "Backline"@) {
        let j = choose|j: int| 0 <= j < team.len() && #[trigger] t.tagged(team[j], "Backline"@);
        assert(t.is_back(team[j]));
    }
    if t.some_in(team, "Range"@) {
        let j = choose|j: int| 0 <= j < team.len() && #[trigger] t.category_of(team[j]) == "Range"@;
        assert(t.is_back(team[j]));
    }
    if some_back(t, team) {
        let j = choose|j: int| 0 <= j < team.len() && t.is_back(#[trigger] team[j]);
        assert(t.tagged(team[j], "Backline"@) || t.category_of(team[j]) == "Range"@);
    }
}

/// Area damage, and damage over time, each pair with an ally's crowd control; crowd control
/// pairs with an ally's area damage; healing, shields and crowd control each pair with an ally
/// that stands behind. Each of the three counts once, and nothing else counts.
pub proof fn law_pairings(t: Stats, cand: Seq<char>, team: Seq<Seq<char>>)
    ensures
        ({
            let n = t.pairings(cand, team);
            let burst = t.tagged(cand, "AOE"@);
            let burn = t.tagged(cand, "DOT"@);
            let cc = t.tagged(cand, "CC"@);
            let heal = t.tagged(cand, "Heal"@);
            let shield = t.tagged(cand, "Shield"@);
            let held = exists|j: int| 0 <= j < team.len() && t.tagged(#[trigger] team[j], "CC"@);
            let area = exists|j: int| 0 <= j < team.len() && t.tagged(#[trigger] team[j], "AOE"@);
            let behind = some_back(t, team);
            &&& n <= 3
            &&& !held && !area && !behind ==> n == 0
            &&& !burst && !burn && !cc && !heal && !shield ==> n == 0
            &&& held && burst && !cc && !heal && !shield ==> n == 1
            &&& held && burn && !cc && !heal && !shield ==> n == 1
            &&& !held && !cc && !heal && !shield ==> n == 0
            &&& area && cc && !behind && !held ==> n == 1
            &&& area && cc && !burst && !burn && !behind ==> n == 1
            &&& area && !cc && !held && !behind ==> n == 0
            &&& behind && !held && !area ==> (n == 1 <==> heal || shield || cc)
            &&& behind && !burst && !burn && !cc ==> (n == 1 <==> heal || shield)
            &&& behind && area && cc && !held ==> n == 2
            &&& behind && area && cc && !burst && !burn ==> n == 2
            &&& held && area && cc && burst && !behind ==> n == 2
            &&& held && area && cc && burn && !behind ==> n == 2
            &&& held && burst && !area && behind ==> (n == 2 <==> heal || shield || cc)
            &&& held && burn && !area && behind ==> (n == 2 <==> heal || shield || cc)
            &&& held && area && behind && cc && (burst || burn) ==> n == 3
        }),
{
    lemma_some_back(t, team);
    if t.some_tagged(team, "CC"@) {
        let j = choose|j: int| 0 <= j < team.len() && #[trigger] t.tagged(team[j], "CC"@);
        assert(t.tagged(team[j], "CC"@));
    }
    if t.some_tagged(team, "AOE"@) {
        let j = choose|j: int| 0 <= j < team.len() && #[trigger] t.tagged(team[j], "AOE"@);
        assert(t.tagged(team[j], "AOE"@));
    }
}

/// A champion that moves, and an assassin, each dive where two or more enemies stand behind;
/// any other dives not.
pub proof fn law_dive(t: Stats, cand: Seq<char>, enemies: Seq<Seq<char>>)
    ensures
        ({
            let n = t.signs(cand, enemies).dive;
            let back = t.count_tagged(enemies, "Backline"@) + t.count_in(enemies, "Range"@);
            &&& t.tagged(cand, "Mobility"@) ==> n == steps(back)
            &&& t.category_of(cand) == "Assassin"@ ==> n == steps(back)
            &&& t.tagged(cand, "Mobility"@) && back >= 2 ==> n >= 1
            &&& t.category_of(cand) == "Assassin"@ && back >= 2 ==> n >= 1
            &&& n > 0 ==> back >= 2
            &&& n > 0 ==> t.tagged(cand, "Mobility"@) || t.category_of(cand) == "Assassin"@
        }),
{
}

/// A champion that pokes, and one with damage over time, each whittle a frontline down where
/// tanks and frontliners among the enemies are two or more; any other does not.
pub proof fn law_whittle(t: Stats, cand: Seq<char>, enemies: Seq<Seq<char>>)
    ensures
        ({
            let n = t.signs(cand, enemies).whittle;
            let front = t.count_tagged(enemies, "Tank"@) + t.count_tagged(enemies, "Frontline"@);
            &&& t.tagged(cand, "Poke"@) ==> n == steps(front)
            &&& t.tagged(cand, "DOT"@) ==> n == steps(front)
            &&& t.tagged(cand, "Poke"@) && front >= 2 ==> n >= 1
            &&& t.tagged(cand, "DOT"@) && front >= 2 ==> n >= 1
            &&& n > 0 ==> front >= 2
            &&& n > 0 ==> t.tagged(cand, "Poke"@) || t.tagged(cand, "DOT"@)
        }),
{
}

/// A frontliner by tag, and a champion that moves, each close in where two or more enemies
/// poke; one that moves, and one that shields, each withstand crowd control where three or more
/// enemies have it. Any other does not.
pub proof fn law_engage_and_mitigate(t: Stats, cand: Seq<char>, enemies: Seq<Seq<char>>)
    ensures
        ({
            let s = t.signs(cand, enemies);
            let poke = t.count_tagged(enemies, "Poke"@);
            let cc = t.count_tagged(enemies, "CC"@);
            &&& t.tagged(cand, "Frontline"@) && poke >= 2 ==> s.engage
            &&& t.tagged(cand, "Mobility"@) && poke >= 2 ==> s.engage
            &&& s.engage ==> poke >= 2 && (t.tagged(cand, "Frontline"@) || t.tagged(
                cand,
                "Mobility"@,
            ))
            &&& t.tagged(cand, "Mobility"@) && cc >= 3 ==> s.mitigate
            &&& t.tagged(cand, "Shield"@) && cc >= 3 ==> s.mitigate
            &&& s.mitigate ==> cc >= 3 && (t.tagged(cand, "Mobility"@) || t.tagged(
                cand,
                "Shield"@,
            ))
        }),
{
}

/// Whether two tables say the same of the kits of a team.
pub open spec fn same_kits(t: Stats, u: Stats, team: Seq<Seq<char>>) -> bool {
    forall|j: int, tag: Seq<char>|
        0 <= j < team.len() ==> #[trigger] t.tagged(team[j], tag) == u.tagged(team[j], tag)
            && t.category_of(team[j]) == u.category_of(team[j])
}

proof fn lemma_same_counts(t: Stats, u: Stats, team: Seq<Seq<char>>, tag: Seq<char>)
    requires
        same_kits(t, u, team),
    ensures
        t.count_tagged(team, tag) == u.count_tagged(team, tag),
        t.count_in(team, tag) == u.count_in(team, tag),
    decreases team.len(),
{
    if team.len() > 0 {
        let front = team.drop_last();
        assert(same_kits(t, u, front)) by {
            assert forall|j: int, g: Seq<char>| 0 <= j < front.len() implies #[trigger] t.tagged(
                front[j],
                g,
            ) == u.tagged(front[j], g) && t.category_of(front[j]) == u.category_of(front[j]) by {
                assert(t.tagged(team[j], g) == u.tagged(team[j], g));
            }
        }
        lemma_same_counts(t, u, front, tag);
        assert(t.tagged(team[team.len() - 1], tag) == u.tagged(team[team.len() - 1], tag));
        law_team_counts(t, front, team.last(), tag);
        law_team_counts(u, front, team.last(), tag);
        assert(front.push(team.last()) =~= team);
    } else {
        law_team_counts(t, team, tag, tag);
        law_team_counts(u, team, tag, tag);
        assert(team =~= Seq::empty());
    }
}

/// One more tag never takes an answer from a champion: all signs of a kit with more tags are at
/// least those of the kit with fewer, against the same enemies.
pub proof fn law_more_tags_answer_more(
    t: Stats,
    u: Stats,
    cand: Seq<char>,
    enemies: Seq<Seq<char>>,
)
    requires
        same_kits(t, u, enemies),
        t.category_of(cand) == u.category_of(cand),
        forall|tag: Seq<char>| #[trigger] t.tagged(cand, tag) ==> u.tagged(cand, tag),
    ensures
        t.signs(cand, enemies).dive <= u.signs(cand, enemies).dive,
        t.signs(cand, enemies).whittle <= u.signs(cand, enemies).whittle,
        t.signs(cand, enemies).engage ==> u.signs(cand, enemies).engage,
        t.signs(cand, enemies).mitigate ==> u.signs(cand, enemies).mitigate,
{
    lemma_same_counts(t, u, enemies, "Backline"@);
    lemma_same_counts(t, u, enemies, "Range"@);
    lemma_same_counts(t, u, enemies, "Tank"@);
    lemma_same_counts(t, u, enemies, "Frontline"@);
    lemma_same_counts(t, u, enemies, "Poke"@);
    lemma_same_counts(t, u, enemies, "CC"@);
    assert(t.tagged(cand, "Mobility"@) ==> u.tagged(cand, "Mobility"@));
    assert(t.tagged(cand, "Poke"@) ==> u.tagged(cand, "Poke"@));
    assert(t.tagged(cand, "DOT"@) ==> u.tagged(cand, "DOT"@));
    assert(t.tagged(cand, "Frontline"@) ==> u.tagged(cand, "Frontline"@));
    assert(t.tagged(cand, "Shield"@) ==> u.tagged(cand, "Shield"@));
}

/// A further enemy never takes an answer from a champion.
pub proof fn law_more_enemies_answer_more(
    t: Stats,
    cand: Seq<char>,
    enemies: Seq<Seq<char>>,
    next: Seq<char>,
)
    ensures
        t.signs(cand, enemies).dive <= t.signs(cand, enemies.push(next)).dive,
        t.signs(cand, enemies).whittle <= t.signs(cand, enemies.push(next)).whittle,
        t.signs(cand, enemies).engage ==> t.signs(cand, enemies.push(next)).engage,
        t.signs(cand, enemies).mitigate ==> t.signs(cand, enemies.push(next)).mitigate,
{
    law_team_counts(t, enemies, next, "Backline"@);
    law_team_counts(t, enemies, next, "Range"@);
    law_team_counts(t, enemies, next, "Tank"@);
    law_team_counts(t, enemies, next, "Frontline"@);
    law_team_counts(t, enemies, next, "Poke"@);
    law_team_counts(t, enemies, next, "CC"@);
}

/// The bonus for several lanes: for the first two picks a step for each lane beyond the first,
/// at most two; none for later picks.
pub proof fn law_flex_bonus(t: Stats, c: Seq<char>, picks_made: nat)
    ensures
        ({
            let n = t.flex_bonus(c, picks_made);
            &&& picks_made >= 2 ==> n == 0
            &&& picks_made <= 1 && t.lane_count(c) <= 1 ==> n == 0
            &&& picks_made <= 1 && t.lane_count(c) == 2 ==> n == 1
            &&& picks_made <= 1 && t.lane_count(c) >= 3 ==> n == 2
        }),
{
}

/// A champion deals each kind of damage that its damage names, and no other; one that is not
/// known deals physical damage alone.
pub proof fn law_deals(t: Stats, c: Seq<char>, a: Seq<char>, kind: Seq<char>, b: Seq<char>)
    ensures
        t.damage_of(c) == a + kind + b ==> t.deals(c, kind),
        t.deals(c, kind) ==> exists|x: Seq<char>, y: Seq<char>|
            t.damage_of(c) == #[trigger] (x + kind + y),
        crate::textmap::lookup(t.taxon, c) is None ==> t.deals(c, "AD"@) && !t.deals(c, "AP"@),
{
    crate::text::law_has(t.damage_of(c), kind);
    if crate::textmap::lookup(t.taxon, c) is None {
        reveal_strlit("AD");
        reveal_strlit("AP");
        let d = "AD"@;
        let p = "AP"@;
        assert(d.subrange(0, 2) =~= d);
        assert(crate::text::occurs_at(d, d, 0));
        crate::text::lemma_first_at(d, d, 0);
        crate::text::lemma_first_at(d, p, 0);
        assert(d[1] != p[1]);
    }
}

} // verus!
