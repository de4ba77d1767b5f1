//! What holds of every text of a draft: which of its lines count, and that a written draft is
//! read back.

use vstd::prelude::*;

#[allow(unused_imports)]
use crate::numeral::{
    all_digits,
    decimal,
    is_digit,
    law_decimal_reads_back,
    lemma_decimal_digits,
    number_or_zero,
};
#[allow(unused_imports)]
use crate::state::{after_line, after_lines, blank, draft_of, listed, Draft};
#[allow(unused_imports)]
use crate::text::{
    is_line,
    joined,
    lacks,
    law_joined_is_cut,
    law_lines_read_back,
    lemma_char_index,
    lemma_filter_all,
    lemma_joined_lacks,
    lemma_joined_lines,
    lemma_one_piece,
    line_seq,
    parted,
    with_feeds,
};

verus! {

/// Whether a line is `key=value` for some value.
pub open spec fn has_key(line: Seq<char>, key: Seq<char>) -> bool {
    parted(line, '=') matches Some((k, _)) && k == key
}

/// What the last line for a key says, if there is one.
pub open spec fn last_value(lines: Seq<Seq<char>>, key: Seq<char>) -> Option<Seq<char>>
    decreases lines.len(),
{
    if lines.len() == 0 {
        None
    } else {
        match parted(lines.last(), '=') {
            Some((k, v)) if k == key => Some(v),
            _ => last_value(lines.drop_last(), key),
        }
    }
}

/// A number that may be said, 0 where it is not.
pub open spec fn said_number(v: Option<Seq<char>>, max: nat) -> nat {
    match v {
        Some(v) => number_or_zero(v, max),
        None => 0,
    }
}

/// A list that may be said, the empty one where it is not.
pub open spec fn said_list(v: Option<Seq<char>>) -> Seq<Seq<char>> {
    match v {
        Some(v) => listed(v),
        None => Seq::empty(),
    }
}

/// The draft whose every field is what the last line for it says.
pub open spec fn last_said(lines: Seq<Seq<char>>) -> Draft {
    let phase = match last_value(lines, "phase"@) {
        Some(v) => v,
        None => Seq::empty(),
    };
    Draft {
        ok: phase.len() > 0,
        ts: said_number(last_value(lines, "ts"@), u64::MAX as nat),
        phase,
        explore: last_value(lines, "explore"@) == Some("1"@),
        ally_pick: said_list(last_value(lines, "ally_pick"@)),
        enemy_pick: said_list(last_value(lines, "enemy_pick"@)),
        ally_ban: said_list(last_value(lines, "ally_ban"@)),
        enemy_ban: said_list(last_value(lines, "enemy_ban"@)),
        avail: said_number(last_value(lines, "avail"@), usize::MAX as nat),
    }
}

/// Whether lines for a key are read.
pub open spec fn known(key: Seq<char>) -> bool {
    ||| key == "ts"@
    ||| key == "phase"@
    ||| key == "explore"@
    ||| key == "ally_pick"@
    ||| key == "enemy_pick"@
    ||| key == "ally_ban"@
    ||| key == "enemy_ban"@
    ||| key == "avail"@
}

proof fn lemma_after_lines(lines: Seq<Seq<char>>)
    ensures
        after_lines(lines) == (Draft { ok: false, ..last_said(lines) }),
    decreases lines.len(),
{
    if lines.len() > 0 {
        lemma_keys_differ();
        lemma_after_lines(lines.drop_last());
    }
}

/// Every field of a draft is what the last line for its key says, and what it is in the draft
/// in which nothing is said where there is no such line; the draft counts if and only if its
/// phase is not empty.
pub proof fn law_last_line_counts(txt: Seq<char>)
    ensures
        draft_of(txt) == last_said(line_seq(txt)),
        draft_of(txt).ok == (draft_of(txt).phase.len() > 0),
{
    lemma_after_lines(line_seq(txt));
}

/// Whether the line at a place counts: it is the last one for a key that is read.
pub open spec fn counts(lines: Seq<Seq<char>>, i: int) -> bool {
    match parted(lines[i], '=') {
        Some((k, _)) => known(k) && forall|j: int|
            i < j < lines.len() ==> !has_key(#[trigger] lines[j], k),
        None => false,
    }
}

/// Those of the first `n` lines that count.
pub open spec fn counting(lines: Seq<Seq<char>>, n: nat) -> Seq<Seq<char>>
    decreases n,
{
    if n == 0 {
        Seq::empty()
    } else {
        let front = counting(lines, (n - 1) as nat);
        if counts(lines, n - 1) {
            front.push(lines[n - 1])
        } else {
            front
        }
    }
}

/// Where a key is read, the lines that count hold its last line, once it is passed.
proof fn lemma_counting(lines: Seq<Seq<char>>, n: nat, key: Seq<char>)
    requires
        n <= lines.len(),
        known(key),
    ensures
        (exists|j: int| n <= j < lines.len() && has_key(#[trigger] lines[j], key)) ==> last_value(
            counting(lines, n),
            key,
        ) is None,
        (forall|j: int| n <= j < lines.len() ==> !has_key(#[trigger] lines[j], key))
            ==> last_value(counting(lines, n), key) == last_value(lines.take(n as int), key),
    decreases n,
{
    if n > 0 {
        let m = (n - 1) as nat;
        lemma_counting(lines, m, key);
        let front = counting(lines, m);
        let all = counting(lines, n);
        assert(lines.take(n as int).drop_last() =~= lines.take(m as int));
        if counts(lines, m as int) {
            assert(all.drop_last() =~= front);
            assert(all.last() == lines[m as int]);
        }
        if exists|j: int| n <= j < lines.len() && has_key(#[trigger] lines[j], key) {
            let j = choose|j: int| n <= j < lines.len() && has_key(#[trigger] lines[j], key);
            assert(m <= j);
            assert(last_value(front, key) is None);
            if counts(lines, m as int) {
                assert(!has_key(lines[m as int], key));
            }
        } else if has_key(lines[m as int], key) {
            assert(counts(lines, m as int));
        } else {
            assert(forall|j: int| m <= j < lines.len() ==> !has_key(#[trigger] lines[j], key));
        }
    }
}

/// A draft is what the last lines for the keys that are read say: a text of these lines alone
/// says the same draft.
pub proof fn law_only_last_lines_count(txt: Seq<char>, other: Seq<char>)
    requires
        line_seq(other) == counting(line_seq(txt), line_seq(txt).len()),
    ensures
        draft_of(other) == draft_of(txt),
{
    let lines = line_seq(txt);
    let n = lines.len();
    assert(lines.take(n as int) =~= lines);
    lemma_counting(lines, n, "ts"@);
    lemma_counting(lines, n, "phase"@);
    lemma_counting(lines, n, "explore"@);
    lemma_counting(lines, n, "ally_pick"@);
    lemma_counting(lines, n, "enemy_pick"@);
    lemma_counting(lines, n, "ally_ban"@);
    lemma_counting(lines, n, "enemy_ban"@);
    lemma_counting(lines, n, "avail"@);
    law_last_line_counts(txt);
    law_last_line_counts(other);
}

/// The line that says a value for a key.
pub open spec fn key_line(key: Seq<char>, value: Seq<char>) -> Seq<char> {
    key + "="@ + value
}

/// Whether a text can stand in a list.
pub open spec fn is_name(s: Seq<char>) -> bool {
    s.len() > 0 && lacks(s, ',') && lacks(s, '\n') && lacks(s, '\r')
}

/// Whether all texts can stand in a list.
pub open spec fn are_names(v: Seq<Seq<char>>) -> bool {
    forall|i: int| 0 <= i < v.len() ==> is_name(#[trigger] v[i])
}

/// A list whose texts are joined by commas is read back.
pub proof fn law_list_reads_back(v: Seq<Seq<char>>)
    requires
        are_names(v),
    ensures
        listed(joined(v, ","@)) == v,
{
    reveal_strlit(",");
    assert(","@ =~= seq![',']);
    let some = |p: Seq<char>| p.len() > 0;
    assert(forall|i: int| 0 <= i < v.len() ==> is_name(#[trigger] v[i]));
    if v.len() == 0 {
        let none = Seq::<char>::empty();
        lemma_one_piece(none, ',');
        assert(seq![none].filter(some) =~= v) by {
            reveal(Seq::filter);
            assert(seq![none].drop_last() =~= Seq::<Seq<char>>::empty());
            assert(seq![none].drop_last().filter(some) =~= Seq::<Seq<char>>::empty());
        }
    } else {
        law_joined_is_cut(v, ',');
        lemma_filter_all(v, some);
    }
}

/// A list is written on one line.
proof fn lemma_list_line(v: Seq<Seq<char>>)
    requires
        are_names(v),
    ensures
        is_line(joined(v, ","@)),
{
    reveal_strlit(",");
    assert(forall|i: int| 0 <= i < v.len() ==> is_name(#[trigger] v[i]));
    lemma_joined_lacks(v, ","@, '\n');
    lemma_joined_lacks(v, ","@, '\r');
    let s = joined(v, ","@);
    if s.len() > 0 {
        assert(s[s.len() - 1] != '\r');
    }
}

/// A number is written on one line.
proof fn lemma_number_line(n: nat)
    ensures
        is_line(decimal(n)),
{
    lemma_decimal_digits(n);
    let s = decimal(n);
    assert forall|i: int| 0 <= i < s.len() implies #[trigger] s[i] != '\n' && s[i] != '\r' by {
        assert(is_digit(s[i]));
    }
}

/// What a line for a key says is read back, and it is one line.
proof fn lemma_key_line(key: Seq<char>, value: Seq<char>)
    requires
        known(key),
        is_line(value),
    ensures
        parted(key_line(key, value), '=') == Some((key, value)),
        is_line(key_line(key, value)),
        key_line(key, value).len() > 0,
{
    reveal_strlit("ts");
    reveal_strlit("phase");
    reveal_strlit("explore");
    reveal_strlit("ally_pick");
    reveal_strlit("enemy_pick");
    reveal_strlit("ally_ban");
    reveal_strlit("enemy_ban");
    reveal_strlit("avail");
    reveal_strlit("=");
    let s = key_line(key, value);
    let n = key.len() as int;
    assert(lacks(key, '=') && lacks(key, '\n'));
    assert(forall|i: int| 0 <= i < n ==> #[trigger] s[i] == key[i]);
    assert(s[n] == '=');
    lemma_char_index(s, '=', n);
    assert(s.take(n) =~= key);
    assert(s.skip(n + 1) =~= value);
    assert forall|i: int| 0 <= i < s.len() implies #[trigger] s[i] != '\n' by {
        if i < n {
            assert(key[i] != '\n');
        } else if i > n {
            assert(s[i] == value[i - n - 1]);
        }
    }
    if value.len() > 0 {
        assert(s.last() == value.last());
    }
}

/// The lines that say all of a draft.
pub open spec fn draft_lines(d: Draft) -> Seq<Seq<char>> {
    seq![
        key_line("ts"@, decimal(d.ts)),
        key_line("phase"@, d.phase),
        key_line("explore"@, if d.explore { "1"@ } else { "0"@ }),
        key_line("ally_pick"@, joined(d.ally_pick, ","@)),
        key_line("enemy_pick"@, joined(d.enemy_pick, ","@)),
        key_line("ally_ban"@, joined(d.ally_ban, ","@)),
        key_line("enemy_ban"@, joined(d.enemy_ban, ","@)),
        key_line("avail"@, decimal(d.avail)),
    ]
}

/// Whether a draft can be written: its numbers fit, its phase is one line, and its names can
/// stand in a list.
pub open spec fn writable(d: Draft) -> bool {
    &&& d.ts <= u64::MAX
    &&& d.avail <= usize::MAX
    &&& is_line(d.phase)
    &&& are_names(d.ally_pick)
    &&& are_names(d.enemy_pick)
    &&& are_names(d.ally_ban)
    &&& are_names(d.enemy_ban)
}

/// One more line for a key says its value for the key and leaves the others.
proof fn lemma_said_last(front: Seq<Seq<char>>, key: Seq<char>, value: Seq<char>)
    requires
        known(key),
        is_line(value),
    ensures
        after_lines(front.push(key_line(key, value))) == after_line(
            after_lines(front),
            key_line(key, value),
        ),
        parted(key_line(key, value), '=') == Some((key, value)),
        is_line(key_line(key, value)),
        key_line(key, value).len() > 0,
{
    lemma_key_line(key, value);
    assert(front.push(key_line(key, value)).drop_last() =~= front);
}

proof fn lemma_keys_differ()
    ensures
        "ts"@ != "phase"@,
        "ts"@ != "explore"@,
        "ts"@ != "ally_pick"@,
        "ts"@ != "enemy_pick"@,
        "ts"@ != "ally_ban"@,
        "ts"@ != "enemy_ban"@,
        "ts"@ != "avail"@,
        "phase"@ != "explore"@,
        "phase"@ != "ally_pick"@,
        "phase"@ != "enemy_pick"@,
        "phase"@ != "ally_ban"@,
        "phase"@ != "enemy_ban"@,
        "phase"@ != "avail"@,
        "explore"@ != "ally_pick"@,
        "explore"@ != "enemy_pick"@,
        "explore"@ != "ally_ban"@,
        "explore"@ != "enemy_ban"@,
        "explore"@ != "avail"@,
        "ally_pick"@ != "enemy_pick"@,
        "ally_pick"@ != "ally_ban"@,
        "ally_pick"@ != "enemy_ban"@,
        "ally_pick"@ != "avail"@,
        "enemy_pick"@ != "ally_ban"@,
        "enemy_pick"@ != "enemy_ban"@,
        "enemy_pick"@ != "avail"@,
        "ally_ban"@ != "enemy_ban"@,
        "ally_ban"@ != "avail"@,
        "enemy_ban"@ != "avail"@,
{
    reveal_strlit("ts");
    reveal_strlit("phase");
    reveal_strlit("explore");
    reveal_strlit("ally_pick");
    reveal_strlit("enemy_pick");
    reveal_strlit("ally_ban");
    reveal_strlit("enemy_ban");
    reveal_strlit("avail");
    assert("ts"@.len() == 2);
    assert("phase"@.len() == 5);
    assert("explore"@.len() == 7);
    assert("ally_pick"@.len() == 9);
    assert("enemy_pick"@.len() == 10);
    assert("ally_ban"@.len() == 8);
    assert("enemy_ban"@.len() == 9);
    assert("avail"@.len() == 5);
    assert("phase"@[0] != "avail"@[0]);
    assert("ally_pick"@[0] != "enemy_ban"@[0]);
}

/// A draft whose every part is written on a line is read back; it then counts if and only if
/// it names a phase.
pub proof fn law_draft_reads_back(d: Draft)
    requires
        writable(d),
    ensures
        draft_of(with_feeds(draft_lines(d))) == (Draft { ok: d.phase.len() > 0, ..d }),
{
    reveal_strlit("0");
    reveal_strlit("1");
    assert("0"@[0] != "1"@[0]);
    lemma_keys_differ();
    law_decimal_reads_back(d.ts, u64::MAX as nat);
    law_decimal_reads_back(d.avail, usize::MAX as nat);
    lemma_number_line(d.ts);
    lemma_number_line(d.avail);
    law_list_reads_back(d.ally_pick);
    law_list_reads_back(d.enemy_pick);
    law_list_reads_back(d.ally_ban);
    law_list_reads_back(d.enemy_ban);
    lemma_list_line(d.ally_pick);
    lemma_list_line(d.enemy_pick);
    lemma_list_line(d.ally_ban);
    lemma_list_line(d.enemy_ban);
    let v = draft_lines(d);
    let v0 = Seq::<Seq<char>>::empty();
    let v1 = v0.push(v[0]);
    let v2 = v1.push(v[1]);
    let v3 = v2.push(v[2]);
    let v4 = v3.push(v[3]);
    let v5 = v4.push(v[4]);
    let v6 = v5.push(v[5]);
    let v7 = v6.push(v[6]);
    lemma_said_last(v0, "ts"@, decimal(d.ts));
    lemma_said_last(v1, "phase"@, d.phase);
    lemma_said_last(v2, "explore"@, if d.explore { "1"@ } else { "0"@ });
    lemma_said_last(v3, "ally_pick"@, joined(d.ally_pick, ","@));
    lemma_said_last(v4, "enemy_pick"@, joined(d.enemy_pick, ","@));
    lemma_said_last(v5, "ally_ban"@, joined(d.ally_ban, ","@));
    lemma_said_last(v6, "enemy_ban"@, joined(d.enemy_ban, ","@));
    lemma_said_last(v7, "avail"@, decimal(d.avail));
    assert(v =~= v7.push(v[7]));
    law_lines_read_back(v);
}

/// The lines that say when a draft was, what one side has picked, what the other has banned,
/// and the phase.
pub open spec fn short_lines(
    ts: nat,
    picks: Seq<Seq<char>>,
    bans: Seq<Seq<char>>,
    phase: Seq<char>,
) -> Seq<Seq<char>> {
    seq![
        key_line("ts"@, decimal(ts)),
        key_line("ally_pick"@, joined(picks, ","@)),
        key_line("enemy_ban"@, joined(bans, ","@)),
        key_line("phase"@, phase),
    ]
}

/// What such lines say is read back, with no line feed behind the last, and what they do not
/// say is empty.
pub proof fn law_short_draft_reads_back(
    ts: nat,
    picks: Seq<Seq<char>>,
    bans: Seq<Seq<char>>,
    phase: Seq<char>,
)
    requires
        ts <= u64::MAX,
        are_names(picks),
        are_names(bans),
        is_line(phase),
    ensures
        draft_of(joined(short_lines(ts, picks, bans, phase), "\n"@)) == (Draft {
            ok: phase.len() > 0,
            ts,
            phase,
            ally_pick: picks,
            enemy_ban: bans,
            ..blank()
        }),
{
    lemma_keys_differ();
    law_decimal_reads_back(ts, u64::MAX as nat);
    lemma_number_line(ts);
    law_list_reads_back(picks);
    law_list_reads_back(bans);
    lemma_list_line(picks);
    lemma_list_line(bans);
    let v = short_lines(ts, picks, bans, phase);
    let v0 = Seq::<Seq<char>>::empty();
    let v1 = v0.push(v[0]);
    let v2 = v1.push(v[1]);
    let v3 = v2.push(v[2]);
    lemma_said_last(v0, "ts"@, decimal(ts));
    lemma_said_last(v1, "ally_pick"@, joined(picks, ","@));
    lemma_said_last(v2, "enemy_ban"@, joined(bans, ","@));
    lemma_said_last(v3, "phase"@, phase);
    assert(v =~= v3.push(v[3]));
    lemma_joined_lines(v);
}

} // verus!
