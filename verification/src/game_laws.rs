//! What holds of printed games: what of a text is read, and what a game adds to the tally.

use vstd::prelude::*;

#[allow(unused_imports)]
use crate::numeral::{all_digits, decimal, digits_value, is_digit, lemma_decimal_digits};
#[allow(unused_imports)]
use crate::scan::{
    after_key,
    array_field,
    balanced_at,
    blocks_from,
    bool_field,
    digit_run,
    found_from,
    heaviest,
    json_string,
    json_texts,
    lane_of,
    lane_weight,
    law_lane_is_heaviest,
    law_region,
    leading_number,
    level,
    quoted_after,
    quoted_field,
    quoted_texts,
    region_after,
    region_end,
    structs,
    POSITIONS,
};
#[allow(unused_imports)]
use crate::tally::{
    champ_of,
    counted,
    counted_all,
    counter_events,
    events_of,
    foe_events,
    game_events,
    law_counted_in_turn,
    mate_events,
    match_of,
    matches_of,
    member,
    members,
    names,
    no_tally,
    pair_of,
    player_events,
    record_of,
    scored,
    synergy_events,
    team_in,
    ChampRecord,
    Event,
    Match,
    Player,
    Reading,
    Record,
    Tally,
};
#[allow(unused_imports)]
use crate::tally_laws::{law_game_counts, law_pairs_count, occurrences, times};
#[allow(unused_imports)]
use crate::text::{
    begins,
    first_at,
    has,
    joined,
    lacks,
    law_joined_is_cut,
    lemma_char_index,
    lemma_first_at,
    occurs_at,
    parted,
    pieces,
};
#[allow(unused_imports)]
use crate::textmap::{law_lookup_put, law_lookup_put_other, lookup, put};

verus! {

/// What stands behind a key is what stands behind the first place where the key stands.
pub proof fn law_after_key(before: Seq<char>, key: Seq<char>, rest: Seq<char>)
    requires
        first_at(before + key + rest, key, 0) == Some(before.len() as int),
    ensures
        after_key(before + key + rest, key) == Some(rest),
{
    assert((before + key + rest).skip((before.len() + key.len()) as int) =~= rest);
}

/// A field that says `true` is true, one that says `false` is false; any other, and one that
/// is not there, says nothing. The first place of the field counts.
pub proof fn law_bool_field(before: Seq<char>, name: Seq<char>, rest: Seq<char>)
    requires
        first_at(before + (name + ": "@) + rest, name + ": "@, 0) == Some(before.len() as int),
    ensures
        ({
            let block = before + (name + ": "@) + rest;
            &&& begins(rest, "true"@) ==> bool_field(block, name) == Some(true)
            &&& begins(rest, "false"@) ==> bool_field(block, name) == Some(false)
            &&& !begins(rest, "true"@) && !begins(rest, "false"@) ==> bool_field(block, name) is None
        }),
{
    law_after_key(before, name + ": "@, rest);
    reveal_strlit("true");
    reveal_strlit("false");
    if begins(rest, "true"@) && begins(rest, "false"@) {
        assert(rest.take("true"@.len() as int)[0] == 't');
        assert(rest.take("false"@.len() as int)[0] == 'f');
    }
}

/// A field that is not there says nothing.
pub proof fn law_missing_fields(block: Seq<char>, name: Seq<char>)
    ensures
        !(has(block, name + ": "@)) ==> bool_field(block, name) is None && lane_weight(block, name)
            is None,
        !(has(block, name + ": ["@)) ==> array_field(block, name) is None,
        !(has(block, name + ": \""@)) ==> quoted_field(block, name) is None,
{
}

/// A quoted field says what stands between its quotation mark and the next.
pub proof fn law_quoted_field(before: Seq<char>, name: Seq<char>, q: Seq<char>, rest: Seq<char>)
    requires
        lacks(q, '"'),
    ensures
        first_at(before + (name + ": \""@) + (q + seq!['"'] + rest), name + ": \""@, 0) == Some(
            before.len() as int,
        ) ==> quoted_field(before + (name + ": \""@) + (q + seq!['"'] + rest), name) == Some(q),
        first_at(before + (name + ": \""@) + q, name + ": \""@, 0) == Some(before.len() as int)
            ==> quoted_field(before + (name + ": \""@) + q, name) is None,
        first_at(
            before + ("\""@ + name + "\": \""@) + (q + seq!['"'] + rest),
            "\""@ + name + "\": \""@,
            0,
        ) == Some(before.len() as int) ==> json_string(
            before + ("\""@ + name + "\": \""@) + (q + seq!['"'] + rest),
            name,
        ) == Some(q),
{
    let t = q + seq!['"'] + rest;
    assert(forall|i: int| 0 <= i < q.len() ==> #[trigger] t[i] == q[i]);
    lemma_char_index(t, '"', q.len() as int);
    assert(t.take(q.len() as int) =~= q);
    lemma_char_index(q, '"', q.len() as int);
    if first_at(before + (name + ": \""@) + t, name + ": \""@, 0) == Some(before.len() as int) {
        law_after_key(before, name + ": \""@, t);
    }
    if first_at(before + (name + ": \""@) + q, name + ": \""@, 0) == Some(before.len() as int) {
        law_after_key(before, name + ": \""@, q);
    }
    let key = "\""@ + name + "\": \""@;
    if first_at(before + key + t, key, 0) == Some(before.len() as int) {
        law_after_key(before, key, t);
    }
}

/// Of the texts between quotation marks every second is quoted, from the second on, where a
/// mark stands behind it.
pub proof fn law_quoted_texts(v: Seq<Seq<char>>, i: int)
    requires
        v.len() > 0,
        forall|k: int| 0 <= k < v.len() ==> lacks(#[trigger] v[k], '"'),
    ensures
        v.len() % 2 == 1 ==> 2 * quoted_texts(joined(v, seq!['"'])).len() == v.len() - 1,
        v.len() % 2 == 0 ==> 2 * quoted_texts(joined(v, seq!['"'])).len() == v.len() - 2,
        0 <= i && 2 * i + 2 < v.len() ==> quoted_texts(joined(v, seq!['"']))[i] == v[2 * i + 1],
{
    law_joined_is_cut(v, '"');
}

/// The level rises with each opening delimiter and falls with each closing one.
pub proof fn law_level(s: Seq<char>, from: int, to: int, open: char, close: char)
    requires
        0 <= from <= to < s.len(),
        open != close,
    ensures
        level(s, from, from, open, close) == 0,
        s[to] == open ==> level(s, from, to + 1, open, close) == level(s, from, to, open, close) + 1,
        s[to] == close ==> level(s, from, to + 1, open, close) == level(s, from, to, open, close)
            - 1,
        s[to] != open && s[to] != close ==> level(s, from, to + 1, open, close) == level(
            s,
            from,
            to,
            open,
            close,
        ),
{
}

proof fn lemma_never_balanced(s: Seq<char>, from: int, i: int, open: char, close: char)
    requires
        0 <= i,
        balanced_at(s, from, i, open, close) is None,
    ensures
        forall|j: int| i < j <= s.len() ==> #[trigger] level(s, from, j, open, close) != 0,
    decreases s.len() - i,
{
    if i < s.len() {
        lemma_never_balanced(s, from, i + 1, open, close);
    }
}

/// What an opening delimiter opens has an end unless its level never comes back to the ground;
/// nothing begins where no opening delimiter stands.
pub proof fn law_region_is_found(s: Seq<char>, from: int, e: int, open: char, close: char)
    ensures
        !(0 <= from < s.len()) || s[from] != open ==> region_end(s, from, open, close) is None,
        0 <= from < s.len() && s[from] == open && from <= e < s.len() && level(
            s,
            from,
            e + 1,
            open,
            close,
        ) == 0 ==> region_end(s, from, open, close) is Some,
{
    if 0 <= from < s.len() && s[from] == open && from <= e < s.len() && region_end(
        s,
        from,
        open,
        close,
    ) is None {
        lemma_never_balanced(s, from, from, open, close);
    }
}

/// An array is what stands from its first bracket on to the one that closes it.
pub proof fn law_array_field(block: Seq<char>, name: Seq<char>)
    ensures
        match array_field(block, name) {
            Some(a) => {
                let i = first_at(block, name + ": ["@, 0)->0;
                let from = i + name.len() + 2;
                let to = from + a.len();
                &&& first_at(block, name + ": ["@, 0) is Some
                &&& 0 <= from < to <= block.len() && a == block.subrange(from, to)
                &&& a.len() >= 2 && a[0] == '[' && a.last() == ']'
                &&& level(block, from, to, '[', ']') == 0
                &&& forall|j: int| from < j < to ==> #[trigger] level(block, from, j, '[', ']') > 0
            },
            None => first_at(block, name + ": ["@, 0) matches Some(i) ==> forall|j: int|
                i + name.len() + 2 < j <= block.len() ==> #[trigger] level(
                    block,
                    i + name.len() + 2,
                    j,
                    '[',
                    ']',
                ) != 0,
        },
{
    reveal_strlit(": [");
    let key = name + ": ["@;
    lemma_first_at(block, key, 0);
    if let Some(i) = first_at(block, key, 0) {
        let from = i + key.len() - 1;
        assert(key[key.len() - 1] == '[');
        assert(occurs_at(block, key, i));
        assert(block.subrange(i, i + key.len())[key.len() - 1] == block[from]);
        law_region(block, from, '[', ']');
        if region_end(block, from, '[', ']') is None {
            lemma_never_balanced(block, from, from, '[', ']');
        }
    }
}

/// The structures of a text: the first begins at the first place of the name, ends with the
/// brace that closes it, and the others are those behind it; there is none where the name does
/// not stand or its brace is not closed.
pub proof fn law_structs(s: Seq<char>, name: Seq<char>, off: int)
    requires
        0 <= off <= s.len(),
    ensures
        ({
            let key = name + " {"@;
            let all = blocks_from(s, key, off);
            match first_at(s, key, off) {
                Some(i) => match region_end(s, i + name.len() + 1, '{', '}') {
                    Some(e) => all.len() > 0 && all[0] == s.subrange(i + name.len() + 1, e + 1)
                        && all.skip(1) == blocks_from(s, key, e + 1) && e < s.len(),
                    None => all.len() == 0,
                },
                None => all.len() == 0,
            }
        }),
        structs(s, name) == blocks_from(s, name + " {"@, 0),
{
    reveal_strlit(" {");
    let key = name + " {"@;
    if let Some(i) = first_at(s, key, off) {
        law_region(s, i + key.len() - 1, '{', '}');
        if let Some(e) = region_end(s, i + key.len() - 1, '{', '}') {
            let rest = blocks_from(s, key, e + 1);
            let one = seq![s.subrange(i + key.len() - 1, e + 1)];
            assert((one + rest).skip(1) =~= rest);
        }
    }
}

/// The number at the beginning of a text is that of all digits there; a text that begins with
/// none has none.
pub proof fn law_leading_number(n: nat, rest: Seq<char>, max: nat)
    requires
        rest.len() > 0 ==> !('0' <= rest[0] <= '9'),
    ensures
        n <= max ==> leading_number(decimal(n) + rest, max) == Some(n),
        n > max ==> leading_number(decimal(n) + rest, max) is None,
        leading_number(rest, max) is None,
{
    lemma_decimal_digits(n);
    lemma_run(decimal(n), rest);
    assert((decimal(n) + rest).take(decimal(n).len() as int) =~= decimal(n));
}

proof fn lemma_run(d: Seq<char>, rest: Seq<char>)
    requires
        all_digits(d),
        rest.len() > 0 ==> !is_digit(rest[0]),
    ensures
        digit_run(d + rest) == d.len(),
    decreases d.len(),
{
    if d.len() > 0 {
        assert(is_digit(d[0]));
        assert((d + rest)[0] == d[0]);
        assert((d + rest).skip(1) =~= d.skip(1) + rest);
        assert forall|i: int| 0 <= i < d.skip(1).len() implies is_digit(#[trigger] d.skip(1)[i]) by {
            assert(is_digit(d[i + 1]));
        }
        lemma_run(d.skip(1), rest);
    } else {
        assert(d + rest =~= rest);
    }
}

/// The weight of a lane, none where it is not said.
pub open spec fn weight_or_0(block: Seq<char>, pos: Seq<char>) -> nat {
    match lane_weight(block, pos) {
        Some(w) => w,
        None => 0,
    }
}

/// The lane of an athlete has the greatest weight, above 0, the first of several in the order
/// top, jungle, mid, bottom, support; an athlete whose weights are all 0 has no lane.
pub proof fn law_lane_of(block: Seq<char>)
    ensures
        ({
            let t = weight_or_0(block, "top"@);
            let j = weight_or_0(block, "jungle"@);
            let m = weight_or_0(block, "mid"@);
            let b = weight_or_0(block, "bottom"@);
            let s = weight_or_0(block, "support"@);
            &&& t == 0 && j == 0 && m == 0 && b == 0 && s == 0 ==> lane_of(block) is None
            &&& t > 0 && t >= j && t >= m && t >= b && t >= s ==> lane_of(block) == Some("top"@)
            &&& j > t && j >= m && j >= b && j >= s ==> lane_of(block) == Some("jungle"@)
            &&& m > t && m > j && m >= b && m >= s ==> lane_of(block) == Some("mid"@)
            &&& b > t && b > j && b > m && b >= s ==> lane_of(block) == Some("bottom"@)
            &&& s > t && s > j && s > m && s > b ==> lane_of(block) == Some("support"@)
        }),
{
    law_lane_is_heaviest(block, 5);
    assert(POSITIONS[0]@ == "top"@);
    assert(POSITIONS[1]@ == "jungle"@);
    assert(POSITIONS[2]@ == "mid"@);
    assert(POSITIONS[3]@ == "bottom"@);
    assert(POSITIONS[4]@ == "support"@);
}

/// The weight of a lane is the number behind its name.
pub proof fn law_lane_weight(before: Seq<char>, pos: Seq<char>, n: nat, rest: Seq<char>)
    requires
        rest.len() > 0 ==> !('0' <= rest[0] <= '9'),
        n <= i64::MAX,
        first_at(before + (pos + ": "@) + (decimal(n) + rest), pos + ": "@, 0) == Some(
            before.len() as int,
        ),
    ensures
        lane_weight(before + (pos + ": "@) + (decimal(n) + rest), pos) == Some(n),
{
    law_after_key(before, pos + ": "@, decimal(n) + rest);
    law_leading_number(n, rest, i64::MAX as nat);
}

/// A further athlete is a member of its team if and only if it names a champion that counts;
/// it then has a lane only where lanes are asked for, and its own one.
pub proof fn law_members(blocks: Seq<Seq<char>>, block: Seq<char>, set: Set<Seq<char>>)
    ensures
        members(Seq::empty(), true, set).len() == 0,
        members(Seq::empty(), false, set).len() == 0,
        quoted_field(block, "champion"@) is None ==> members(blocks.push(block), true, set)
            == members(blocks, true, set) && members(blocks.push(block), false, set) == members(
            blocks,
            false,
            set,
        ),
        quoted_field(block, "champion"@) matches Some(c) ==> if set.contains(c) {
            &&& members(blocks.push(block), true, set) == members(blocks, true, set).push(
                (c, lane_of(block)),
            )
            &&& members(blocks.push(block), false, set) == members(blocks, false, set).push(
                (c, None),
            )
        } else {
            &&& members(blocks.push(block), true, set) == members(blocks, true, set)
            &&& members(blocks.push(block), false, set) == members(blocks, false, set)
        },
{
    assert(blocks.push(block).drop_last() =~= blocks);
}

/// A printed game that counts was won by blue if and only if it says so, and its teams are the
/// members under `blue_team` and `red_team`.
pub proof fn law_printed_game(block: Seq<char>, how: Reading, blue_win: bool, m: Match)
    requires
        match_of(block, how) == Some(m),
    ensures
        bool_field(block, "blue_team_win"@) == Some(m.blue_win),
        bool_field(block, "blue_team_win"@) == Some(blue_win) ==> m.blue_win == blue_win,
        array_field(block, "blue_team"@) matches Some(a) && m.blue == members(
            structs(a, how.athlete),
            how.with_pos,
            how.set,
        ),
        array_field(block, "red_team"@) matches Some(a) && m.red == members(
            structs(a, how.athlete),
            how.with_pos,
            how.set,
        ),
        m.blue.len() > 0,
        m.red.len() > 0,
        how.require_played ==> has(block, "played: true"@),
{
}

/// A printed game counts if it says who won, has members of both teams, and was played where
/// that is asked for.
pub proof fn law_game_counts_if_complete(block: Seq<char>, how: Reading, a: Seq<char>, b: Seq<char>)
    requires
        array_field(block, "blue_team"@) == Some(a),
        array_field(block, "red_team"@) == Some(b),
        members(structs(a, how.athlete), how.with_pos, how.set).len() > 0,
        members(structs(b, how.athlete), how.with_pos, how.set).len() > 0,
    ensures
        bool_field(block, "blue_team_win"@) is Some && has(block, "played: true"@) ==> match_of(
            block,
            how,
        ) is Some,
        bool_field(block, "blue_team_win"@) is Some && !how.require_played ==> match_of(block, how)
            is Some,
{
}

/// How often a champion plays a lane in a team.
pub open spec fn appearances(team: Seq<Player>, c: Seq<char>, p: Seq<char>) -> nat
    decreases team.len(),
{
    if team.len() == 0 {
        0
    } else {
        appearances(team.drop_last(), c, p) + if team.last() == (c, Some(p)) {
            1nat
        } else {
            0nat
        }
    }
}

proof fn lemma_players_counted(
    t: Tally,
    team: Seq<Player>,
    won: bool,
    c: Seq<char>,
    p: Seq<char>,
)
    ensures
        ({
            let u = counted_all(t, player_events(team, won));
            let n = occurrences(names(team), c);
            let k = appearances(team, c, p);
            let before = champ_of(t, c);
            let after = champ_of(u, c);
            &&& after.overall.games == before.overall.games + n
            &&& after.overall.wins == before.overall.wins + if won {
                n
            } else {
                0
            }
            &&& record_of(after.by_pos, p).games == record_of(before.by_pos, p).games + k
            &&& record_of(after.by_pos, p).wins == record_of(before.by_pos, p).wins + if won {
                k
            } else {
                0
            }
            &&& u.matches == t.matches
        }),
    decreases team.len(),
{
    let es = player_events(team, won);
    if team.len() > 0 {
        let front = team.drop_last();
        lemma_players_counted(t, front, won, c, p);
        assert(es.drop_last() =~= player_events(front, won));
        assert(names(team).drop_last() =~= names(front));
        let now = counted_all(t, player_events(front, won));
        let (d, pos) = team.last();
        assert(es.last() == Event::Player(d, pos, won));
        let r = champ_of(now, d);
        let by_pos = match pos {
            Some(q) => put(r.by_pos, q, scored(record_of(r.by_pos, q), won)),
            None => r.by_pos,
        };
        let new = ChampRecord { overall: scored(r.overall, won), by_pos };
        if c == d {
            law_lookup_put(now.champs, d, new);
            if let Some(q) = pos {
                let w = scored(record_of(r.by_pos, q), won);
                if q == p {
                    law_lookup_put(r.by_pos, q, w);
                } else {
                    law_lookup_put_other(r.by_pos, q, w, p);
                }
            }
        } else {
            law_lookup_put_other(now.champs, d, new, c);
        }
    } else {
        assert(es =~= Seq::empty());
    }
}

proof fn lemma_pairs_only(t: Tally, es: Seq<Event>)
    requires
        forall|i: int| 0 <= i < es.len() ==> #[trigger] es[i] is Synergy || es[i] is Counter,
    ensures
        counted_all(t, es).champs == t.champs,
        counted_all(t, es).matches == t.matches,
    decreases es.len(),
{
    if es.len() > 0 {
        let front = es.drop_last();
        assert(forall|i: int| 0 <= i < front.len() ==> #[trigger] front[i] == es[i]);
        lemma_pairs_only(t, front);
        assert(es[es.len() - 1] is Synergy || es[es.len() - 1] is Counter);
    }
}

proof fn lemma_mates_are_pairs(team: Seq<Seq<char>>, i: int, n: nat, won: bool)
    ensures
        forall|k: int| 0 <= k < mate_events(team, i, n, won).len() ==> #[trigger] mate_events(
            team,
            i,
            n,
            won,
        )[k] is Synergy,
    decreases n,
{
    if n > 0 {
        lemma_mates_are_pairs(team, i, (n - 1) as nat, won);
    }
}

proof fn lemma_synergies_are_pairs(team: Seq<Seq<char>>, n: nat, won: bool)
    ensures
        forall|k: int| 0 <= k < synergy_events(team, n, won).len() ==> #[trigger] synergy_events(
            team,
            n,
            won,
        )[k] is Synergy,
    decreases n,
{
    if n > 0 {
        lemma_synergies_are_pairs(team, (n - 1) as nat, won);
        lemma_mates_are_pairs(team, n - 1, team.len(), won);
    }
}

proof fn lemma_counters_are_pairs(team: Seq<Seq<char>>, foes: Seq<Seq<char>>, n: nat, won: bool)
    ensures
        forall|k: int|
            0 <= k < counter_events(team, foes, n, won).len() ==> #[trigger] counter_events(
                team,
                foes,
                n,
                won,
            )[k] is Counter,
    decreases n,
{
    if n > 0 {
        lemma_counters_are_pairs(team, foes, (n - 1) as nat, won);
    }
}

/// A game is one more match. Each champion has one more game for each of its places in the
/// teams, and one more win for each in the winning team, over all and on the lane of that
/// place.
pub proof fn law_game_is_tallied(
    t: Tally,
    blue: Seq<Player>,
    red: Seq<Player>,
    blue_win: bool,
    c: Seq<char>,
    p: Seq<char>,
)
    ensures
        ({
            let u = counted_all(t, game_events(blue, red, blue_win));
            let before = champ_of(t, c);
            let after = champ_of(u, c);
            let b = occurrences(names(blue), c);
            let r = occurrences(names(red), c);
            let bp = appearances(blue, c, p);
            let rp = appearances(red, c, p);
            &&& u.matches == t.matches + 1
            &&& after.overall.games == before.overall.games + b + r
            &&& blue_win ==> after.overall.wins == before.overall.wins + b
            &&& !blue_win ==> after.overall.wins == before.overall.wins + r
            &&& record_of(after.by_pos, p).games == record_of(before.by_pos, p).games + bp + rp
            &&& blue_win ==> record_of(after.by_pos, p).wins == record_of(before.by_pos, p).wins + bp
            &&& !blue_win ==> record_of(after.by_pos, p).wins == record_of(before.by_pos, p).wins
                + rp
        }),
{
    let x = names(blue);
    let y = names(red);
    let e0 = seq![Event::Game];
    let e1 = player_events(blue, blue_win);
    let e2 = player_events(red, !blue_win);
    let e3 = synergy_events(x, x.len(), blue_win);
    let e4 = synergy_events(y, y.len(), !blue_win);
    let e5 = counter_events(x, y, x.len(), blue_win);
    let e6 = counter_events(y, x, y.len(), !blue_win);
    let pairs = e3 + e4 + e5 + e6;
    lemma_synergies_are_pairs(x, x.len(), blue_win);
    lemma_synergies_are_pairs(y, y.len(), !blue_win);
    lemma_counters_are_pairs(x, y, x.len(), blue_win);
    lemma_counters_are_pairs(y, x, y.len(), !blue_win);
    assert(game_events(blue, red, blue_win) =~= e0 + e1 + e2 + pairs);
    law_counted_in_turn(t, e0 + e1 + e2, pairs);
    law_counted_in_turn(t, e0 + e1, e2);
    law_counted_in_turn(t, e0, e1);
    let t0 = counted_all(t, e0);
    assert(t0 == counted(t, Event::Game)) by {
        assert(e0.drop_last() =~= Seq::<Event>::empty());
        reveal_with_fuel(counted_all, 2);
    }
    let t1 = counted_all(t0, e1);
    let t2 = counted_all(t1, e2);
    lemma_players_counted(t0, blue, blue_win, c, p);
    lemma_players_counted(t1, red, !blue_win, c, p);
    assert forall|i: int| 0 <= i < pairs.len() implies #[trigger] pairs[i] is Synergy || pairs[i]
        is Counter by {
        let a = e3.len();
        let b = a + e4.len();
        let d = b + e5.len();
        if i < a {
            assert(pairs[i] == e3[i]);
        } else if i < b {
            assert(pairs[i] == e4[i - a]);
        } else if i < d {
            assert(pairs[i] == e5[i - b]);
        } else {
            assert(pairs[i] == e6[i - d]);
        }
    }
    lemma_pairs_only(t2, pairs);
}

/// In a game two champions of one team have one more game together for each two of their places
/// there, won if the team won; two that face each other have one more against each other for
/// each two of their places, won by the one of the winning team.
pub proof fn law_pairs_are_tallied(
    t: Tally,
    blue: Seq<Player>,
    red: Seq<Player>,
    blue_win: bool,
    a: Seq<char>,
    b: Seq<char>,
)
    requires
        a != b,
    ensures
        ({
            let u = counted_all(t, game_events(blue, red, blue_win));
            let ba = occurrences(names(blue), a);
            let bb = occurrences(names(blue), b);
            let ra = occurrences(names(red), a);
            let rb = occurrences(names(red), b);
            let s0 = pair_of(t.synergy, a, b);
            let s1 = pair_of(u.synergy, a, b);
            let c0 = pair_of(t.counter, a, b);
            let c1 = pair_of(u.counter, a, b);
            &&& s1.games == s0.games + ba * bb + ra * rb
            &&& blue_win ==> s1.wins == s0.wins + ba * bb
            &&& !blue_win ==> s1.wins == s0.wins + ra * rb
            &&& c1.games == c0.games + ba * rb + ra * bb
            &&& blue_win ==> c1.wins == c0.wins + ba * rb
            &&& !blue_win ==> c1.wins == c0.wins + ra * bb
        }),
{
    let es = game_events(blue, red, blue_win);
    law_pairs_count(t, es, a, b);
    law_game_counts(blue, red, blue_win, a, b, true);
    law_game_counts(blue, red, blue_win, a, b, false);
}

/// What one more printed game adds to the tally of printed games: nothing where it does not
/// count; else one match, and to each champion its places in the teams as games, and those in
/// the team that the text says to have won as wins.
pub proof fn law_one_more_printed_game(
    t: Tally,
    blocks: Seq<Seq<char>>,
    block: Seq<char>,
    how: Reading,
    c: Seq<char>,
)
    ensures
        ({
            let before = counted_all(t, events_of(matches_of(blocks, how)));
            let after = counted_all(t, events_of(matches_of(blocks.push(block), how)));
            let old = champ_of(before, c).overall;
            let new = champ_of(after, c).overall;
            &&& match_of(block, how) is None ==> after == before && matches_of(
                blocks.push(block),
                how,
            ).len() == matches_of(blocks, how).len()
            &&& match_of(block, how) is Some ==> {
                let b = occurrences(
                    names(
                        members(
                            structs(array_field(block, "blue_team"@)->0, how.athlete),
                            how.with_pos,
                            how.set,
                        ),
                    ),
                    c,
                );
                let r = occurrences(
                    names(
                        members(
                            structs(array_field(block, "red_team"@)->0, how.athlete),
                            how.with_pos,
                            how.set,
                        ),
                    ),
                    c,
                );
                &&& after.matches == before.matches + 1
                &&& matches_of(blocks.push(block), how).len() == matches_of(blocks, how).len() + 1
                &&& new.games == old.games + b + r
                &&& bool_field(block, "blue_team_win"@) == Some(true) ==> new.wins == old.wins + b
                &&& bool_field(block, "blue_team_win"@) == Some(false) ==> new.wins == old.wins + r
            }
        }),
{
    let games = matches_of(blocks, how);
    assert(blocks.push(block).drop_last() =~= blocks);
    if let Some(m) = match_of(block, how) {
        law_printed_game(block, how, m.blue_win, m);
        assert(games.push(m).drop_last() =~= games);
        law_counted_in_turn(t, events_of(games), game_events(m.blue, m.red, m.blue_win));
        law_game_is_tallied(
            counted_all(t, events_of(games)),
            m.blue,
            m.red,
            m.blue_win,
            c,
            "top"@,
        );
    }
}

/// The counts of a tally of `n` things are no more than `n`.
proof fn lemma_counts_within(es: Seq<Event>, a: Seq<char>, b: Seq<char>)
    ensures
        ({
            let t = counted_all(no_tally(), es);
            &&& t.matches <= es.len()
            &&& champ_of(t, a).overall.games <= es.len()
            &&& pair_of(t.synergy, a, b).games <= es.len()
            &&& pair_of(t.counter, a, b).games <= es.len()
        }),
    decreases es.len(),
{
    if es.len() > 0 {
        let front = es.drop_last();
        lemma_counts_within(front, a, b);
        let now = counted_all(no_tally(), front);
        law_pairs_count(no_tally(), es, a, b);
        law_pairs_count(no_tally(), front, a, b);
        match es.last() {
            Event::Player(c, pos, won) => {
                let r = champ_of(now, c);
                let by_pos = match pos {
                    Some(p) => put(r.by_pos, p, scored(record_of(r.by_pos, p), won)),
                    None => r.by_pos,
                };
                let new = ChampRecord { overall: scored(r.overall, won), by_pos };
                if a == c {
                    law_lookup_put(now.champs, c, new);
                } else {
                    law_lookup_put_other(now.champs, c, new, a);
                }
            },
            _ => {},
        }
    }
}

/// As long as no more things are counted than a counter can hold, all can be counted.
pub proof fn law_games_fit(es: Seq<Event>)
    requires
        es.len() <= u32::MAX,
    ensures
        crate::tally::fits_all(no_tally(), es),
    decreases es.len(),
{
    if es.len() > 0 {
        let front = es.drop_last();
        law_games_fit(front);
        match es.last() {
            Event::Game => {
                lemma_counts_within(front, "top"@, "top"@);
            },
            Event::Player(c, pos, won) => {
                lemma_counts_within(front, c, c);
                crate::tally_laws::law_wins_within_games(front, c, c);
                if let Some(p) = pos {
                    let r = champ_of(counted_all(no_tally(), front), c);
                    assert(record_of(r.by_pos, p).wins <= record_of(r.by_pos, p).games);
                }
            },
            Event::Synergy(a, b, won) => {
                lemma_counts_within(front, a, b);
                crate::tally_laws::law_wins_within_games(front, a, b);
            },
            Event::Counter(a, b, won) => {
                lemma_counts_within(front, a, b);
                crate::tally_laws::law_wins_within_games(front, a, b);
            },
        }
    }
}

} // verus!
