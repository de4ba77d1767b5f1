//! The rounds of the launcher: when statistics are made anew, and when it injects, waits and
//! ends.

use vstd::prelude::*;

use crate::numeral::to_decimal;
#[allow(unused_imports)]
use crate::numeral::decimal;
use crate::text::same_text;

verus! {

/// What the launcher remembers from round to round.
pub struct Launcher {
    /// Whether the overlay was injected.
    pub injected: bool,
    /// The save, its time and the stamp for which statistics were made last.
    pub last_key: String,
    /// Whether this is the first round.
    pub first: bool,
    /// How many rounds in a row the game was gone.
    pub misses: u32,
}

/// What a `Launcher` remembers.
pub struct Rounds {
    pub injected: bool,
    pub last_key: Seq<char>,
    pub first: bool,
    pub misses: nat,
}

impl View for Launcher {
    type V = Rounds;

    open spec fn view(&self) -> Rounds {
        Rounds {
            injected: self.injected,
            last_key: self.last_key@,
            first: self.first,
            misses: self.misses as nat,
        }
    }
}

/// What the launcher does with the game in a round.
#[derive(Clone, Copy, PartialEq, Eq, Structural, Debug)]
pub enum Task {
    /// It tries to inject the overlay.
    Inject,
    /// It looks whether the game is still running.
    Look,
}

/// What comes of it.
#[derive(Clone, Copy, PartialEq, Eq, Structural, Debug)]
pub enum Outcome {
    /// The overlay was injected just now.
    Injected,
    /// The game is not there yet, and the user is told so.
    Announced,
    /// Nothing to be told.
    Quiet,
    /// The game has ended, and so does the launcher.
    Ended,
}

/// How many rounds in a row the game must be gone for the launcher to end.
pub const MISSES_TO_END: u32 = 2;

/// What the launcher does with the game.
pub open spec fn task_of(s: Rounds) -> Task {
    if s.injected {
        Task::Look
    } else {
        Task::Inject
    }
}

/// The rounds after one more, in which the task succeeded or not, and what came of it.
pub open spec fn after_round(s: Rounds, ok: bool) -> (Rounds, Outcome) {
    let misses = if !s.injected {
        s.misses
    } else if ok {
        0
    } else {
        s.misses + 1
    };
    let next = Rounds { injected: s.injected || ok, first: false, misses, ..s };
    (
        next,
        if !s.injected {
            if ok {
                Outcome::Injected
            } else if s.first {
                Outcome::Announced
            } else {
                Outcome::Quiet
            }
        } else if misses >= MISSES_TO_END {
            Outcome::Ended
        } else {
            Outcome::Quiet
        },
    )
}

/// The rounds after some more.
pub open spec fn after_rounds(s: Rounds, oks: Seq<bool>) -> Rounds
    decreases oks.len(),
{
    if oks.len() == 0 {
        s
    } else {
        after_round(after_rounds(s, oks.drop_last()), oks.last()).0
    }
}

/// The launcher at its start.
pub open spec fn at_start(s: Rounds) -> bool {
    !s.injected && s.misses == 0
}

/// Whether the task succeeded in one of some rounds.
pub open spec fn any_ok(oks: Seq<bool>) -> bool {
    exists|i: int| 0 <= i < oks.len() && #[trigger] oks[i]
}

/// From its start on the launcher ends after a round exactly where it had injected before and
/// then saw the game gone in this round and in the one before.
pub proof fn law_ends_when_game_is_gone(s: Rounds, oks: Seq<bool>, ok: bool)
    requires
        at_start(s),
        after_rounds(s, oks).misses < MISSES_TO_END,
    ensures
        after_rounds(s, oks).injected == any_ok(oks),
        after_round(after_rounds(s, oks), ok).1 == Outcome::Ended <==> oks.len() > 0
            && any_ok(oks.drop_last()) && !oks.last() && !ok,
{
    lemma_rounds(s, oks);
    if oks.len() > 0 {
        lemma_rounds(s, oks.drop_last());
    }
}

proof fn lemma_rounds(s: Rounds, oks: Seq<bool>)
    requires
        at_start(s),
    ensures
        after_rounds(s, oks).injected == any_ok(oks),
        oks.len() == 0 || oks.last() ==> after_rounds(s, oks).misses == 0,
        oks.len() > 0 && !oks.last() ==> after_rounds(s, oks).misses == if any_ok(
            oks.drop_last(),
        ) {
            after_rounds(s, oks.drop_last()).misses + 1
        } else {
            0
        },
        !any_ok(oks) ==> after_rounds(s, oks).misses == 0,
    decreases oks.len(),
{
    if oks.len() > 0 {
        let front = oks.drop_last();
        lemma_rounds(s, front);
        if any_ok(front) {
            let i = choose|i: int| 0 <= i < front.len() && #[trigger] front[i];
            assert(oks[i]);
        }
        if oks.last() {
            assert(oks[oks.len() - 1]);
        }
        if any_ok(oks) && !oks.last() {
            let i = choose|i: int| 0 <= i < oks.len() && #[trigger] oks[i];
            assert(front[i]);
        }
    }
}

impl Launcher {
    /// The launcher at its start.
    pub fn new() -> (r: Self)
        ensures
            at_start(r@),
            r.first,
            r@.last_key == Seq::<char>::empty(),
    {
        Launcher { injected: false, last_key: String::new(), first: true, misses: 0 }
    }

    /// Notes the save, its time and the stamp, as texts. The answer is whether one of them is
    /// new, so that statistics have to be looked after.
    pub fn note(&mut self, save: &str, time: &str, stamp: &str) -> (r: bool)
        ensures
            ({
                let key = save@ + "|"@ + time@ + "|"@ + stamp@;
                &&& r == (key != old(self)@.last_key)
                &&& final(self)@ == (Rounds { last_key: key, ..old(self)@ })
            }),
    {
        let mut key = save.to_owned();
        key.append("|");
        key.append(time);
        key.append("|");
        key.append(stamp);
        if same_text(key.as_str(), self.last_key.as_str()) {
            false
        } else {
            self.last_key = key;
            true
        }
    }

    /// What the launcher does with the game.
    pub fn task(&self) -> (r: Task)
        ensures
            r == task_of(self@),
    {
        if self.injected {
            Task::Look
        } else {
            Task::Inject
        }
    }

    /// Ends a round in which the task succeeded or not: the overlay was injected, or the game
    /// was found.
    pub fn end_round(&mut self, ok: bool) -> (r: Outcome)
        requires
            old(self).misses < MISSES_TO_END,
        ensures
            (final(self)@, r) == after_round(old(self)@, ok),
    {
        let first = self.first;
        self.first = false;
        if !self.injected {
            if ok {
                self.injected = true;
                Outcome::Injected
            } else if first {
                Outcome::Announced
            } else {
                Outcome::Quiet
            }
        } else if ok {
            self.misses = 0;
            Outcome::Quiet
        } else {
            self.misses = self.misses + 1;
            if self.misses >= MISSES_TO_END {
                Outcome::Ended
            } else {
                Outcome::Quiet
            }
        }
    }
}

/// Whether a cache can be used: it is not older than the save, and it was built from the
/// current data, where they are stamped.
pub open spec fn is_fresh(
    cache_time: Option<u128>,
    save_time: u128,
    stamp: Seq<char>,
    cache_stamp: Seq<char>,
) -> bool {
    (cache_time matches Some(t) && t >= save_time) && (stamp.len() == 0 || cache_stamp == stamp)
}

/// Whether a cache can be used.
pub fn cache_fresh(cache_time: Option<u128>, save_time: u128, stamp: &str, cache_stamp: &str) -> (r:
    bool)
    ensures
        r == is_fresh(cache_time, save_time, stamp@, cache_stamp@),
{
    let as_new = match cache_time {
        Some(t) => t >= save_time,
        None => false,
    };
    as_new && (stamp.is_empty() || same_text(cache_stamp, stamp))
}

/// Whether the save itself has to be probed: nothing was exported from the running game.
pub fn needs_probe(export_len: Option<u64>) -> (r: bool)
    ensures
        r == !(export_len matches Some(n) && n > 0),
{
    match export_len {
        Some(n) => n == 0,
        None => true,
    }
}

/// The matches from which on recommendations rest on statistics.
pub const COLD_START: u32 = 50;

/// What recommendations rest on, given the matches of the current patch.
pub open spec fn basis_text(total: nat) -> Seq<char> {
    if total < COLD_START {
        "콜드스타트(이론 위주)"@
    } else {
        "통계 위주"@
    }
}

/// What the user is told of the active save.
pub fn status_line(name: &str, total: u32) -> (r: String)
    ensures
        r@ == "  활성 세이브: "@ + name@ + "  ·  현재 패치 "@ + decimal(total as nat)
            + "판 → "@ + basis_text(total as nat),
{
    let mut r = "  활성 세이브: ".to_owned();
    r.append(name);
    r.append("  ·  현재 패치 ");
    r.append(to_decimal(total as u64).as_str());
    r.append("판 → ");
    r.append(
        if total < COLD_START {
            "콜드스타트(이론 위주)"
        } else {
            "통계 위주"
        },
    );
    r
}

/// Before the overlay is injected each round tries that; a try that succeeds is told, the first
/// that fails too, and no later one. Afterwards each round looks for the game, ends with the
/// second time in a row that it is gone, and is quiet else.
pub proof fn law_rounds(s: Rounds, ok: bool)
    ensures
        ({
            let (next, out) = after_round(s, ok);
            &&& task_of(s) == Task::Inject <==> !s.injected
            &&& !next.first && next.last_key == s.last_key
            &&& !s.injected && ok ==> next.injected && next.misses == s.misses && out
                == Outcome::Injected
            &&& !s.injected && !ok ==> !next.injected && next.misses == s.misses
            &&& !s.injected && !ok && s.first ==> out == Outcome::Announced
            &&& !s.injected && !ok && !s.first ==> out == Outcome::Quiet
            &&& s.injected ==> next.injected
            &&& s.injected && ok ==> next.misses == 0 && out == Outcome::Quiet
            &&& s.injected && !ok ==> next.misses == s.misses + 1
            &&& s.injected && !ok && s.misses == 0 ==> out == Outcome::Quiet
            &&& s.injected && !ok && s.misses >= 1 ==> out == Outcome::Ended
        }),
{
}

/// A cache is used only where it is there, not older than its save, and built from the current
/// stamp, where there is one; where all that holds it is.
pub proof fn law_fresh(t: u128, save_time: u128, stamp: Seq<char>, cache_stamp: Seq<char>)
    ensures
        !is_fresh(None, save_time, stamp, cache_stamp),
        t < save_time ==> !is_fresh(Some(t), save_time, stamp, cache_stamp),
        stamp.len() > 0 && stamp != cache_stamp ==> !is_fresh(
            Some(t),
            save_time,
            stamp,
            cache_stamp,
        ),
        t >= save_time ==> is_fresh(Some(t), save_time, cache_stamp, cache_stamp),
        t >= save_time ==> is_fresh(Some(t), save_time, Seq::empty(), cache_stamp),
{
}

/// Recommendations rest on theory below 50 matches, and on statistics from there on.
pub proof fn law_basis(total: nat)
    ensures
        total < 50 ==> basis_text(total) == "콜드스타트(이론 위주)"@,
        total >= 50 ==> basis_text(total) == "통계 위주"@,
{
}

} // verus!
