//! The board on which a draft is marked by hand, and the series of sets around it.

use vstd::prelude::*;

#[allow(unused_imports)]
use crate::champs::{champ_id, law_ids_differ, place_of};
use crate::champs::{CHAMPS, CHAMP_COUNT};
#[allow(unused_imports)]
use crate::state::Draft;
use crate::state::DraftState;
use crate::textset::TextSet;

verus! {

/// What a click on a champion marks.
#[derive(Clone, Copy, PartialEq, Eq, Structural, Debug)]
pub enum Mode {
    MyPick,
    EnemyPick,
    MyBan,
    EnemyBan,
    Clear,
    Pool,
}

/// How a champion is marked.
#[derive(Clone, Copy, PartialEq, Eq, Structural, Debug)]
pub enum Slot {
    Avail,
    MyPick,
    EnemyPick,
    MyBan,
    EnemyBan,
}

/// The rule of a series for champions that were picked in earlier sets.
#[derive(Clone, Copy, PartialEq, Eq, Structural, Debug)]
pub enum Fearless {
    /// They may be picked again.
    Off,
    /// No team may pick its own again.
    Normal,
    /// No team may pick any of them again.
    Hard,
}

/// The mark of a champion after a click: the mode's mark, or none where it had that mark
/// already. Clearing takes the mark away; in the pool's mode it stays.
pub open spec fn marked(cur: Slot, mode: Mode) -> Slot {
    match mode {
        Mode::MyPick => if cur == Slot::MyPick {
            Slot::Avail
        } else {
            Slot::MyPick
        },
        Mode::EnemyPick => if cur == Slot::EnemyPick {
            Slot::Avail
        } else {
            Slot::EnemyPick
        },
        Mode::MyBan => if cur == Slot::MyBan {
            Slot::Avail
        } else {
            Slot::MyBan
        },
        Mode::EnemyBan => if cur == Slot::EnemyBan {
            Slot::Avail
        } else {
            Slot::EnemyBan
        },
        Mode::Clear => Slot::Avail,
        Mode::Pool => cur,
    }
}

/// The mark of a champion after a click.
pub fn apply_mode(cur: Slot, mode: Mode) -> (r: Slot)
    ensures
        r == marked(cur, mode),
{
    let target = match mode {
        Mode::MyPick => Slot::MyPick,
        Mode::EnemyPick => Slot::EnemyPick,
        Mode::MyBan => Slot::MyBan,
        Mode::EnemyBan => Slot::EnemyBan,
        Mode::Clear => return Slot::Avail,
        Mode::Pool => return cur,
    };
    if cur == target {
        Slot::Avail
    } else {
        target
    }
}

/// Two clicks in one mode leave a champion unmarked that had no mark.
pub proof fn law_two_clicks_unmark(mode: Mode)
    ensures
        marked(marked(Slot::Avail, mode), mode) == Slot::Avail,
{
}

/// The pool after a click on a champion: without it where it was in, else with it.
pub open spec fn flipped(pool: Set<Seq<char>>, id: Seq<char>) -> Set<Seq<char>> {
    if pool.contains(id) {
        pool.remove(id)
    } else {
        pool.insert(id)
    }
}

/// Two clicks in the pool's mode leave the pool as it was.
pub proof fn law_two_clicks_keep_pool(pool: Set<Seq<char>>, id: Seq<char>)
    ensures
        flipped(flipped(pool, id), id) == pool,
{
    assert(flipped(flipped(pool, id), id) =~= pool);
}

/// A click on the champion at place `i`: marks it, or, in the pool's mode, puts it into the
/// pool or takes it out.
pub fn click_champ(i: usize, mode: Mode, slots: &mut Vec<Slot>, pool: &mut TextSet)
    requires
        i < CHAMP_COUNT,
        i < old(slots)@.len(),
    ensures
        mode == Mode::Pool ==> final(slots)@ == old(slots)@ && final(pool)@ == flipped(
            old(pool)@,
            champ_id(i as int),
        ),
        mode != Mode::Pool ==> final(pool)@ == old(pool)@ && final(slots)@ == old(slots)@.update(
            i as int,
            marked(old(slots)@[i as int], mode),
        ),
{
    if mode == Mode::Pool {
        let id = CHAMPS[i].0;
        if pool.contains(id) {
            pool.remove(id);
        } else {
            pool.insert(id);
        }
    } else {
        slots[i] = apply_mode(slots[i], mode);
    }
}

/// The mode that stays valid when the phase changes: bans are marked in the ban phase, picks
/// in the pick phase.
pub open spec fn mode_in_phase(rec_ban: bool, mode: Mode) -> Mode {
    if rec_ban && (mode == Mode::MyPick || mode == Mode::EnemyPick) {
        Mode::MyBan
    } else if !rec_ban && (mode == Mode::MyBan || mode == Mode::EnemyBan) {
        Mode::MyPick
    } else {
        mode
    }
}

/// The mode that stays valid in a phase.
pub fn valid_mode(rec_ban: bool, mode: Mode) -> (r: Mode)
    ensures
        r == mode_in_phase(rec_ban, mode),
{
    if rec_ban && (mode == Mode::MyPick || mode == Mode::EnemyPick) {
        Mode::MyBan
    } else if !rec_ban && (mode == Mode::MyBan || mode == Mode::EnemyBan) {
        Mode::MyPick
    } else {
        mode
    }
}

/// In the ban phase no click marks a pick, in the pick phase none a ban; a mode that fits the
/// phase stays.
pub proof fn law_mode_fits_phase(rec_ban: bool, mode: Mode)
    ensures
        ({
            let m = mode_in_phase(rec_ban, mode);
            &&& rec_ban ==> m != Mode::MyPick && m != Mode::EnemyPick
            &&& !rec_ban ==> m != Mode::MyBan && m != Mode::EnemyBan
            &&& mode_in_phase(rec_ban, m) == m
        }),
{
}

/// The ids of the first `n` champions that have a mark, in the order of the champions.
pub open spec fn ids_marked(slots: Seq<Slot>, mark: Slot, n: nat) -> Seq<Seq<char>>
    decreases n,
{
    if n == 0 {
        Seq::empty()
    } else {
        let front = ids_marked(slots, mark, (n - 1) as nat);
        if slots[n - 1] == mark {
            front.push(champ_id(n - 1))
        } else {
            front
        }
    }
}

/// The draft that a board shows.
pub open spec fn board_draft(slots: Seq<Slot>, rec_ban: bool) -> Draft {
    Draft {
        ok: true,
        ts: 0,
        phase: if rec_ban {
            "BAN"@
        } else {
            "PICK"@
        },
        explore: false,
        ally_pick: ids_marked(slots, Slot::MyPick, CHAMP_COUNT as nat),
        enemy_pick: ids_marked(slots, Slot::EnemyPick, CHAMP_COUNT as nat),
        ally_ban: ids_marked(slots, Slot::MyBan, CHAMP_COUNT as nat),
        enemy_ban: ids_marked(slots, Slot::EnemyBan, CHAMP_COUNT as nat),
        avail: 0,
    }
}

/// The ids of the champions that have a mark, in the order of the champions.
pub fn ids_with(slots: &Vec<Slot>, mark: Slot) -> (r: Vec<String>)
    requires
        slots@.len() == CHAMP_COUNT,
    ensures
        r.deep_view() == ids_marked(slots@, mark, CHAMP_COUNT as nat),
{
    let mut r: Vec<String> = Vec::new();
    let mut i: usize = 0;
    assert(r.deep_view() =~= Seq::empty());
    while i < CHAMP_COUNT
        invariant
            i <= CHAMP_COUNT,
            slots@.len() == CHAMP_COUNT,
            r.deep_view() == ids_marked(slots@, mark, i as nat),
        decreases CHAMP_COUNT - i,
    {
        let ghost sofar = r.deep_view();
        if slots[i] == mark {
            r.push(CHAMPS[i].0.to_owned());
            assert(r.deep_view() =~= sofar.push(champ_id(i as int)));
        }
        i += 1;
    }
    r
}

/// The draft that a board shows.
pub fn current_state(slots: &Vec<Slot>, rec_ban: bool) -> (r: DraftState)
    requires
        slots@.len() == CHAMP_COUNT,
    ensures
        r@ == board_draft(slots@, rec_ban),
{
    let mut st = DraftState::default();
    st.ok = true;
    st.phase = if rec_ban {
        "BAN".to_owned()
    } else {
        "PICK".to_owned()
    };
    st.ally_pick = ids_with(slots, Slot::MyPick);
    st.enemy_pick = ids_with(slots, Slot::EnemyPick);
    st.ally_ban = ids_with(slots, Slot::MyBan);
    st.enemy_ban = ids_with(slots, Slot::EnemyBan);
    st
}

/// A marked champion is listed under its mark.
pub proof fn law_marked_is_listed(slots: Seq<Slot>, mark: Slot, n: nat, i: int)
    requires
        0 <= i < n <= slots.len(),
        slots[i] == mark,
    ensures
        ids_marked(slots, mark, n).contains(champ_id(i)),
    decreases n,
{
    let front = ids_marked(slots, mark, (n - 1) as nat);
    let all = ids_marked(slots, mark, n);
    if i == n - 1 {
        assert(all[front.len() as int] == champ_id(i));
    } else {
        law_marked_is_listed(slots, mark, (n - 1) as nat, i);
        let k = choose|k: int| 0 <= k < front.len() && front[k] == champ_id(i);
        assert(all[k] == champ_id(i));
    }
}

/// A board without marks.
pub fn clear_board() -> (r: Vec<Slot>)
    ensures
        r@ == Seq::new(CHAMP_COUNT as nat, |i: int| Slot::Avail),
{
    let mut r: Vec<Slot> = Vec::new();
    let mut i: usize = 0;
    while i < CHAMP_COUNT
        invariant
            i <= CHAMP_COUNT,
            r@ == Seq::new(i as nat, |j: int| Slot::Avail),
        decreases CHAMP_COUNT - i,
    {
        r.push(Slot::Avail);
        i += 1;
        assert(r@ =~= Seq::new(i as nat, |j: int| Slot::Avail));
    }
    r
}

/// A series of sets: the rule, and what each team picked in the earlier sets.
pub struct Series {
    pub fearless: Fearless,
    /// What the own team picked in earlier sets.
    pub mine: TextSet,
    /// What the enemy picked in earlier sets.
    pub theirs: TextSet,
    /// The number of the current set, from 1 on.
    pub game: u32,
}

/// The ids that a side of the rule locks: none, those of the own earlier picks, or those of
/// all earlier picks.
pub open spec fn locked(fearless: Fearless, own: Set<Seq<char>>, other: Set<Seq<char>>) -> Set<
    Seq<char>,
> {
    match fearless {
        Fearless::Off => Set::empty(),
        Fearless::Normal => own,
        Fearless::Hard => own.union(other),
    }
}

/// The ids of the champions that have a mark, as a set.
pub open spec fn marked_set(slots: Seq<Slot>, mark: Slot) -> Set<Seq<char>> {
    ids_marked(slots, mark, CHAMP_COUNT as nat).to_set()
}

impl Series {
    /// A series at its beginning.
    pub fn new() -> (r: Self)
        ensures
            r.fearless == Fearless::Off,
            r.mine@ == Set::<Seq<char>>::empty(),
            r.theirs@ == Set::<Seq<char>>::empty(),
            r.game == 1,
    {
        Series { fearless: Fearless::Off, mine: TextSet::new(), theirs: TextSet::new(), game: 1 }
    }

    /// The champions that the own team may not pick.
    pub fn my_locked(&self) -> (r: TextSet)
        ensures
            r@ == locked(self.fearless, self.mine@, self.theirs@),
    {
        match self.fearless {
            Fearless::Off => TextSet::new(),
            Fearless::Normal => self.mine.copy(),
            Fearless::Hard => self.mine.plus(&self.theirs),
        }
    }

    /// The champions that the enemy may not pick.
    pub fn enemy_locked(&self) -> (r: TextSet)
        ensures
            r@ == locked(self.fearless, self.theirs@, self.mine@),
    {
        match self.fearless {
            Fearless::Off => TextSet::new(),
            Fearless::Normal => self.theirs.copy(),
            Fearless::Hard => self.theirs.plus(&self.mine),
        }
    }

    /// The champions that are not worth recommending in a phase: those that the enemy may not
    /// pick are not worth a ban, those that the own team may not pick cannot be picked.
    pub fn rec_lock(&self, rec_ban: bool) -> (r: TextSet)
        ensures
            r@ == if rec_ban {
                locked(self.fearless, self.theirs@, self.mine@)
            } else {
                locked(self.fearless, self.mine@, self.theirs@)
            },
    {
        if rec_ban {
            self.enemy_locked()
        } else {
            self.my_locked()
        }
    }

    /// Ends a set: its picks join those of the earlier sets, and the board is cleared.
    pub fn next_set(&mut self, slots: &mut Vec<Slot>)
        requires
            old(slots)@.len() == CHAMP_COUNT,
            old(self).game < u32::MAX,
        ensures
            final(self).fearless == old(self).fearless,
            final(self).mine@ == old(self).mine@.union(marked_set(old(slots)@, Slot::MyPick)),
            final(self).theirs@ == old(self).theirs@.union(
                marked_set(old(slots)@, Slot::EnemyPick),
            ),
            final(self).game == old(self).game + 1,
            final(slots)@ == Seq::new(CHAMP_COUNT as nat, |i: int| Slot::Avail),
    {
        let my_picks = TextSet::of(&ids_with(slots, Slot::MyPick));
        let their_picks = TextSet::of(&ids_with(slots, Slot::EnemyPick));
        self.mine = self.mine.plus(&my_picks);
        self.theirs = self.theirs.plus(&their_picks);
        self.game = self.game + 1;
        *slots = clear_board();
    }

    /// Begins the series anew.
    pub fn clear(&mut self)
        ensures
            final(self).fearless == old(self).fearless,
            final(self).mine@ == Set::<Seq<char>>::empty(),
            final(self).theirs@ == Set::<Seq<char>>::empty(),
            final(self).game == 1,
    {
        self.mine = TextSet::new();
        self.theirs = TextSet::new();
        self.game = 1;
    }
}

/// The ids of all champions.
pub open spec fn all_ids() -> Set<Seq<char>> {
    Seq::new(CHAMP_COUNT as nat, |i: int| champ_id(i)).to_set()
}

/// The ids of all champions.
pub fn every_champ() -> (r: TextSet)
    ensures
        r@ == all_ids(),
{
    let mut v: Vec<String> = Vec::new();
    let mut i: usize = 0;
    while i < CHAMP_COUNT
        invariant
            i <= CHAMP_COUNT,
            v@.len() == i,
            forall|j: int| 0 <= j < i ==> #[trigger] v@[j]@ == champ_id(j),
        decreases CHAMP_COUNT - i,
    {
        v.push(CHAMPS[i].0.to_owned());
        i += 1;
    }
    assert(v.deep_view() =~= Seq::new(CHAMP_COUNT as nat, |i: int| champ_id(i)));
    TextSet::of(&v)
}

/// The champions to recommend from: nothing restricts them where the pool is not known and
/// nothing is locked; else they are the pool (all champions where it is not known) without
/// what is locked.
pub open spec fn effective(pool: Set<Seq<char>>, lock: Set<Seq<char>>) -> Option<Set<Seq<char>>> {
    if pool == Set::<Seq<char>>::empty() && lock == Set::<Seq<char>>::empty() {
        None
    } else if pool == Set::<Seq<char>>::empty() {
        Some(all_ids().difference(lock))
    } else {
        Some(pool.difference(lock))
    }
}

/// The champions to recommend from.
pub fn effective_pool(pool: &TextSet, lock: &TextSet) -> (r: Option<TextSet>)
    ensures
        match r {
            Some(p) => effective(pool@, lock@) == Some(p@),
            None => effective(pool@, lock@) is None,
        },
{
    if pool.is_empty() && lock.is_empty() {
        None
    } else if pool.is_empty() {
        Some(every_champ().minus(lock))
    } else {
        Some(pool.minus(lock))
    }
}

/// A locked champion is never recommended from the effective pool.
pub proof fn law_locked_is_not_offered(
    pool: Set<Seq<char>>,
    lock: Set<Seq<char>>,
    d: Draft,
    i: int,
)
    requires
        lock.contains(champ_id(i)),
    ensures
        !crate::recommend::is_open(d, effective(pool, lock), i),
{
}

/// Under the hard rule both teams are locked out of the same champions; under the normal
/// one each out of its own.
pub proof fn law_fearless(own: Set<Seq<char>>, other: Set<Seq<char>>)
    ensures
        locked(Fearless::Hard, own, other) == locked(Fearless::Hard, other, own),
        locked(Fearless::Normal, own, other) == own,
        locked(Fearless::Off, own, other) == Set::<Seq<char>>::empty(),
        locked(Fearless::Normal, own, other).subset_of(locked(Fearless::Hard, own, other)),
{
    assert(own.union(other) =~= other.union(own));
}

/// The mark that a mode is for, where it is for one.
pub open spec fn mark_of(mode: Mode) -> Option<Slot> {
    match mode {
        Mode::MyPick => Some(Slot::MyPick),
        Mode::EnemyPick => Some(Slot::EnemyPick),
        Mode::MyBan => Some(Slot::MyBan),
        Mode::EnemyBan => Some(Slot::EnemyBan),
        Mode::Clear => None,
        Mode::Pool => None,
    }
}

/// A click in a mode that is for a mark gives that mark to a champion that had any other or
/// none, and takes it from one that had it.
pub proof fn law_click_sets_mark(cur: Slot, mode: Mode)
    ensures
        mark_of(mode) matches Some(m) ==> (cur != m ==> marked(cur, mode) == m) && (cur == m
            ==> marked(cur, mode) == Slot::Avail),
        marked(cur, Mode::EnemyPick) == Slot::EnemyPick || cur == Slot::EnemyPick,
        marked(cur, Mode::MyBan) == Slot::MyBan || cur == Slot::MyBan,
        marked(cur, Mode::EnemyBan) == Slot::EnemyBan || cur == Slot::EnemyBan,
        marked(cur, Mode::MyPick) == Slot::MyPick || cur == Slot::MyPick,
        marked(cur, Mode::Clear) == Slot::Avail,
        marked(cur, Mode::Pool) == cur,
{
}

/// What is listed under a mark is the id of a champion with that mark.
proof fn lemma_listed_place(slots: Seq<Slot>, mark: Slot, n: nat, id: Seq<char>) -> (i: int)
    requires
        n <= CHAMP_COUNT,
        ids_marked(slots, mark, n).contains(id),
    ensures
        0 <= i < n,
        slots[i] == mark,
        champ_id(i) == id,
    decreases n,
{
    let all = ids_marked(slots, mark, n);
    let k = choose|k: int| 0 <= k < all.len() && all[k] == id;
    if n == 0 {
        assert(all.len() == 0);
        0
    } else {
        let m = (n - 1) as nat;
        let front = ids_marked(slots, mark, m);
        if k < front.len() {
            assert(front[k] == id);
            assert(front.contains(id));
            lemma_listed_place(slots, mark, m, id)
        } else {
            assert(slots[n - 1] == mark);
            assert(all[k] == champ_id(n - 1));
            n - 1
        }
    }
}

/// A champion is listed under a mark if and only if it has that mark.
pub proof fn law_listed_is_marked(slots: Seq<Slot>, mark: Slot, i: int)
    requires
        slots.len() == CHAMP_COUNT,
        0 <= i < CHAMP_COUNT,
    ensures
        ids_marked(slots, mark, CHAMP_COUNT as nat).contains(champ_id(i)) <==> slots[i] == mark,
        marked_set(slots, mark).contains(champ_id(i)) <==> slots[i] == mark,
{
    let all = ids_marked(slots, mark, CHAMP_COUNT as nat);
    if slots[i] == mark {
        law_marked_is_listed(slots, mark, CHAMP_COUNT as nat, i);
    }
    if all.contains(champ_id(i)) {
        let j = lemma_listed_place(slots, mark, CHAMP_COUNT as nat, champ_id(i));
        law_ids_differ(i);
        law_ids_differ(j);
    }
}

/// After a click in a mode that is for a mark, on a champion without it, the draft lists the
/// champion under that mark and under no other; every other champion is listed as before.
pub proof fn law_click_lists(slots: Seq<Slot>, i: int, mode: Mode, rec_ban: bool, j: int)
    requires
        slots.len() == CHAMP_COUNT,
        0 <= i < CHAMP_COUNT,
        0 <= j < CHAMP_COUNT,
        mark_of(mode) is Some,
        mark_of(mode) != Some(slots[i]),
    ensures
        ({
            let before = board_draft(slots, rec_ban);
            let after = board_draft(slots.update(i, marked(slots[i], mode)), rec_ban);
            let id = champ_id(i);
            let other = champ_id(j);
            &&& after.ally_pick.contains(id) <==> mode == Mode::MyPick
            &&& after.enemy_pick.contains(id) <==> mode == Mode::EnemyPick
            &&& after.ally_ban.contains(id) <==> mode == Mode::MyBan
            &&& after.enemy_ban.contains(id) <==> mode == Mode::EnemyBan
            &&& i != j ==> (after.ally_pick.contains(other) <==> before.ally_pick.contains(other))
            &&& i != j ==> (after.enemy_pick.contains(other) <==> before.enemy_pick.contains(other))
            &&& i != j ==> (after.ally_ban.contains(other) <==> before.ally_ban.contains(other))
            &&& i != j ==> (after.enemy_ban.contains(other) <==> before.enemy_ban.contains(other))
        }),
{
    let after = slots.update(i, marked(slots[i], mode));
    law_listed_is_marked(after, Slot::MyPick, i);
    law_listed_is_marked(after, Slot::EnemyPick, i);
    law_listed_is_marked(after, Slot::MyBan, i);
    law_listed_is_marked(after, Slot::EnemyBan, i);
    law_listed_is_marked(after, Slot::MyPick, j);
    law_listed_is_marked(after, Slot::EnemyPick, j);
    law_listed_is_marked(after, Slot::MyBan, j);
    law_listed_is_marked(after, Slot::EnemyBan, j);
    law_listed_is_marked(slots, Slot::MyPick, j);
    law_listed_is_marked(slots, Slot::EnemyPick, j);
    law_listed_is_marked(slots, Slot::MyBan, j);
    law_listed_is_marked(slots, Slot::EnemyBan, j);
}

/// The draft of a board counts, is in the phase of bans if and only if bans are asked for, and
/// lists own picks, enemy picks, own bans and enemy bans by their marks; without marks nobody
/// is listed.
pub proof fn law_board_is_shown(slots: Seq<Slot>, rec_ban: bool, i: int)
    requires
        slots.len() == CHAMP_COUNT,
        0 <= i < CHAMP_COUNT,
    ensures
        ({
            let d = board_draft(slots, rec_ban);
            &&& d.ok && !d.explore && d.ts == 0 && d.avail == 0
            &&& d.phase == "BAN"@ <==> rec_ban
            &&& d.phase == "PICK"@ <==> !rec_ban
            &&& d.ally_pick.contains(champ_id(i)) <==> slots[i] == Slot::MyPick
            &&& d.enemy_pick.contains(champ_id(i)) <==> slots[i] == Slot::EnemyPick
            &&& d.ally_ban.contains(champ_id(i)) <==> slots[i] == Slot::MyBan
            &&& d.enemy_ban.contains(champ_id(i)) <==> slots[i] == Slot::EnemyBan
        }),
{
    reveal_strlit("BAN");
    reveal_strlit("PICK");
    assert("BAN"@.len() == 3 && "PICK"@.len() == 4);
    law_listed_is_marked(slots, Slot::MyPick, i);
    law_listed_is_marked(slots, Slot::EnemyPick, i);
    law_listed_is_marked(slots, Slot::MyBan, i);
    law_listed_is_marked(slots, Slot::EnemyBan, i);
}

/// What is listed under a mark is the id of a champion with that mark, and the champions are
/// listed in their order.
pub proof fn law_listed_in_order(slots: Seq<Slot>, mark: Slot, n: nat)
    requires
        n <= CHAMP_COUNT,
    ensures
        forall|k: int|
            0 <= k < ids_marked(slots, mark, n).len() ==> {
                let p = place_of(#[trigger] ids_marked(slots, mark, n)[k]);
                p is Some && 0 <= p->0 < n && slots[p->0] == mark
            },
        forall|k: int, l: int|
            0 <= k < l < ids_marked(slots, mark, n).len() ==> place_of(
                #[trigger] ids_marked(slots, mark, n)[k],
            )->0 < place_of(#[trigger] ids_marked(slots, mark, n)[l])->0,
    decreases n,
{
    if n > 0 {
        let m = (n - 1) as nat;
        law_listed_in_order(slots, mark, m);
        law_ids_differ(n - 1);
        let front = ids_marked(slots, mark, m);
        let all = ids_marked(slots, mark, n);
        assert(forall|k: int| 0 <= k < front.len() ==> all[k] == #[trigger] front[k]);
    }
}

/// Bans are marked in the ban phase, picks in the pick phase: a mode of the other phase gives
/// way to that of the own marks, any other stays.
pub proof fn law_mode_gives_way(mode: Mode)
    ensures
        mode_in_phase(true, mode) == mode || (mode_in_phase(true, mode) == Mode::MyBan && (mode
            == Mode::MyPick || mode == Mode::EnemyPick)),
        mode_in_phase(false, mode) == mode || (mode_in_phase(false, mode) == Mode::MyPick && (mode
            == Mode::MyBan || mode == Mode::EnemyBan)),
{
}

/// A click in the pool's mode changes whether the champion is in the pool, and that alone.
pub proof fn law_pool_click(pool: Set<Seq<char>>, id: Seq<char>, other: Seq<char>)
    ensures
        flipped(pool, id).contains(id) <==> !pool.contains(id),
        other != id ==> (flipped(pool, id).contains(other) <==> pool.contains(other)),
{
}

/// A champion is locked for a team by the hard rule if any team picked it before, by the
/// normal rule if that team did, and never where no rule holds.
pub proof fn law_locks(own: Set<Seq<char>>, other: Set<Seq<char>>, id: Seq<char>)
    ensures
        locked(Fearless::Hard, own, other).contains(id) <==> own.contains(id) || other.contains(id),
        locked(Fearless::Normal, own, other).contains(id) <==> own.contains(id),
        !locked(Fearless::Off, own, other).contains(id),
{
}

/// What is recommended from: without a pool and without locks there is no restriction; else a
/// champion is offered if it is not locked and the pool, where it is known, has it.
pub proof fn law_effective_pool(pool: Set<Seq<char>>, lock: Set<Seq<char>>, i: int)
    requires
        0 <= i < CHAMP_COUNT,
    ensures
        effective(pool, lock) is None <==> (forall|id: Seq<char>|
            !(#[trigger] pool.contains(id))) && (forall|id: Seq<char>|
            !(#[trigger] lock.contains(id))),
        effective(pool, lock) matches Some(p) ==> (p.contains(champ_id(i)) <==> !lock.contains(
            champ_id(i),
        ) && (pool.contains(champ_id(i)) || pool == Set::<Seq<char>>::empty())),
        effective(pool, lock) matches Some(p) ==> forall|id: Seq<char>| #[trigger]
            p.contains(id) && pool != Set::<Seq<char>>::empty() ==> pool.contains(id)
                && !lock.contains(id),
{
    let none = Set::<Seq<char>>::empty();
    if forall|id: Seq<char>| !(#[trigger] pool.contains(id)) {
        assert(pool =~= none);
    }
    if forall|id: Seq<char>| !(#[trigger] lock.contains(id)) {
        assert(lock =~= none);
    }
    let ids = Seq::new(CHAMP_COUNT as nat, |k: int| champ_id(k));
    assert(ids[i] == champ_id(i));
    assert(ids.contains(champ_id(i)));
}

} // verus!
