//! The state of a draft as it is handed over in a text.

use vstd::prelude::*;

use crate::numeral::number_or_0;
#[allow(unused_imports)]
use crate::numeral::number_or_zero;
use crate::text::{lines, same_text, split_on, split_once};
#[allow(unused_imports)]
use crate::text::{line_seq, parted, pieces};

verus! {

/// Where the text of a draft is handed over.
pub const STATE_PATH: &'static str = "C:\\tmp\\tfm2_draft_state.txt";

/// A draft: the phase and what both sides have picked and banned.
#[derive(Clone)]
pub struct DraftState {
    pub ok: bool,
    pub ts: u64,
    /// "BAN" or "PICK".
    pub phase: String,
    pub explore: bool,
    pub ally_pick: Vec<String>,
    pub enemy_pick: Vec<String>,
    pub ally_ban: Vec<String>,
    pub enemy_ban: Vec<String>,
    pub avail: usize,
}

/// What a draft holds.
pub struct Draft {
    pub ok: bool,
    pub ts: nat,
    pub phase: Seq<char>,
    pub explore: bool,
    pub ally_pick: Seq<Seq<char>>,
    pub enemy_pick: Seq<Seq<char>>,
    pub ally_ban: Seq<Seq<char>>,
    pub enemy_ban: Seq<Seq<char>>,
    pub avail: nat,
}

impl View for DraftState {
    type V = Draft;

    open spec fn view(&self) -> Draft {
        Draft {
            ok: self.ok,
            ts: self.ts as nat,
            phase: self.phase@,
            explore: self.explore,
            ally_pick: self.ally_pick.deep_view(),
            enemy_pick: self.enemy_pick.deep_view(),
            ally_ban: self.ally_ban.deep_view(),
            enemy_ban: self.enemy_ban.deep_view(),
            avail: self.avail as nat,
        }
    }
}

/// The draft in which nothing is said.
pub open spec fn blank() -> Draft {
    Draft {
        ok: false,
        ts: 0,
        phase: Seq::empty(),
        explore: false,
        ally_pick: Seq::empty(),
        enemy_pick: Seq::empty(),
        ally_ban: Seq::empty(),
        enemy_ban: Seq::empty(),
        avail: 0,
    }
}

impl Default for DraftState {
    fn default() -> (r: Self)
        ensures
            r@ == blank(),
    {
        let r = DraftState {
            ok: false,
            ts: 0,
            phase: String::new(),
            explore: false,
            ally_pick: Vec::new(),
            enemy_pick: Vec::new(),
            ally_ban: Vec::new(),
            enemy_ban: Vec::new(),
            avail: 0,
        };
        assert(r.ally_pick.deep_view() =~= Seq::empty());
        assert(r.enemy_pick.deep_view() =~= Seq::empty());
        assert(r.ally_ban.deep_view() =~= Seq::empty());
        assert(r.enemy_ban.deep_view() =~= Seq::empty());
        r
    }
}

/// The texts between the commas of `s` that are not empty.
pub open spec fn listed(s: Seq<char>) -> Seq<Seq<char>> {
    pieces(s, ',').filter(|p: Seq<char>| p.len() > 0)
}

/// The texts between the commas of `v`, without the empty ones.
pub fn split_csv(v: &str) -> (r: Vec<String>)
    ensures
        r.deep_view() == listed(v@),
{
    let p = split_on(v, ',');
    let ghost ps = pieces(v@, ',');
    let ghost keep = |p: Seq<char>| p.len() > 0;
    let mut r: Vec<String> = Vec::new();
    assert(r.deep_view() =~= ps.take(0).filter(keep)) by {
        reveal(Seq::filter);
    }
    let mut i: usize = 0;
    while i < p.len()
        invariant
            i <= p@.len(),
            p.deep_view() == ps,
            keep == (|p: Seq<char>| p.len() > 0),
            r.deep_view() == ps.take(i as int).filter(keep),
        decreases p@.len() - i,
    {
        assert(ps[i as int] == p@[i as int]@);
        assert(ps.take(i + 1).drop_last() == ps.take(i as int));
        let ghost sofar = r.deep_view();
        assert(ps.take(i + 1).filter(keep) == if keep(ps[i as int]) {
            sofar.push(ps[i as int])
        } else {
            sofar
        }) by {
            reveal(Seq::filter);
        }
        if !p[i].as_str().is_empty() {
            r.push(p[i].clone());
            assert(r.deep_view() =~= sofar.push(ps[i as int]));
        }
        i += 1;
    }
    assert(ps.take(i as int) == ps);
    r
}

/// A draft after one more line `key=value` of its text; other lines change nothing.
pub open spec fn after_line(d: Draft, line: Seq<char>) -> Draft {
    match parted(line, '=') {
        None => d,
        Some((k, v)) => if k == "ts"@ {
            Draft { ts: number_or_zero(v, u64::MAX as nat), ..d }
        } else if k == "phase"@ {
            Draft { phase: v, ..d }
        } else if k == "explore"@ {
            Draft { explore: v == "1"@, ..d }
        } else if k == "ally_pick"@ {
            Draft { ally_pick: listed(v), ..d }
        } else if k == "enemy_pick"@ {
            Draft { enemy_pick: listed(v), ..d }
        } else if k == "ally_ban"@ {
            Draft { ally_ban: listed(v), ..d }
        } else if k == "enemy_ban"@ {
            Draft { enemy_ban: listed(v), ..d }
        } else if k == "avail"@ {
            Draft { avail: number_or_zero(v, usize::MAX as nat), ..d }
        } else {
            d
        },
    }
}

/// The draft that some lines say, a later line over an earlier one.
pub open spec fn after_lines(lines: Seq<Seq<char>>) -> Draft
    decreases lines.len(),
{
    if lines.len() == 0 {
        blank()
    } else {
        after_line(after_lines(lines.drop_last()), lines.last())
    }
}

/// The draft that a text says; it counts once it names a phase.
pub open spec fn draft_of(txt: Seq<char>) -> Draft {
    let d = after_lines(line_seq(txt));
    Draft { ok: d.phase.len() > 0, ..d }
}

/// The draft that the lines `key=value` of `txt` say.
pub fn parse_state(txt: &str) -> (r: DraftState)
    ensures
        r@ == draft_of(txt@),
{
    let mut s = DraftState::default();
    let ls = lines(txt);
    let ghost all = line_seq(txt@);
    let mut i: usize = 0;
    assert(all.take(0) == Seq::<Seq<char>>::empty());
    while i < ls.len()
        invariant
            i <= ls@.len(),
            ls.deep_view() == all,
            s@ == after_lines(all.take(i as int)),
        decreases ls@.len() - i,
    {
        assert(all[i as int] == ls@[i as int]@);
        assert(all.take(i + 1).drop_last() == all.take(i as int));
        if let Some((k, v)) = split_once(ls[i].as_str(), '=') {
            let k = k.as_str();
            let v = v.as_str();
            if same_text(k, "ts") {
                s.ts = number_or_0(v, u64::MAX);
            } else if same_text(k, "phase") {
                s.phase = v.to_owned();
            } else if same_text(k, "explore") {
                s.explore = same_text(v, "1");
            } else if same_text(k, "ally_pick") {
                s.ally_pick = split_csv(v);
            } else if same_text(k, "enemy_pick") {
                s.enemy_pick = split_csv(v);
            } else if same_text(k, "ally_ban") {
                s.ally_ban = split_csv(v);
            } else if same_text(k, "enemy_ban") {
                s.enemy_ban = split_csv(v);
            } else if same_text(k, "avail") {
                s.avail = number_or_0(v, usize::MAX as u64) as usize;
            }
        }
        i += 1;
    }
    assert(all.take(i as int) == all);
    s.ok = !s.phase.as_str().is_empty();
    s
}

} // verus!
