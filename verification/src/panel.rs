//! The overlay's panel: what it remembers from frame to frame, and what the clicks on it do.

use vstd::prelude::*;

use crate::board::{
    apply_mode,
    clear_board,
    click_champ,
    current_state,
    effective_pool,
    every_champ,
    valid_mode,
    Fearless,
    Mode,
    Series,
    Slot,
};
#[allow(unused_imports)]
use crate::board::{
    all_ids,
    board_draft,
    effective,
    flipped,
    locked,
    marked,
    marked_set,
    mode_in_phase,
};
use crate::champs::{champ_place, chosung_group, CHAMPS, CHAMP_COUNT};
#[allow(unused_imports)]
use crate::champs::{champ_id, champ_ko, group_of, place_of};
use crate::state::DraftState;
use crate::text::has_text;
#[allow(unused_imports)]
use crate::text::has;
use crate::textset::TextSet;

verus! {

/// How many frames pass between two looks at the files.
pub const RELOAD_EVERY_FRAMES: u64 = 120;

/// What the panel remembers.
pub struct Panel {
    pub slots: Vec<Slot>,
    pub mode: Mode,
    /// Whether bans are recommended; else picks are.
    pub rec_ban: bool,
    pub pool: TextSet,
    /// The group of leading consonants to which the grid is narrowed.
    pub chosung: Option<u8>,
    pub series: Series,
    pub visible: bool,
    /// Whether the keys that show and hide the panel were down.
    pub prev_combo: bool,
    pub frames: u64,
    pub last_reload_frame: u64,
}

/// What a `Panel` holds.
pub struct PanelState {
    pub slots: Seq<Slot>,
    pub mode: Mode,
    pub rec_ban: bool,
    pub pool: Set<Seq<char>>,
    pub chosung: Option<u8>,
    pub fearless: Fearless,
    pub mine: Set<Seq<char>>,
    pub theirs: Set<Seq<char>>,
    pub game: nat,
    pub visible: bool,
    pub prev_combo: bool,
    pub frames: nat,
    pub last_reload_frame: nat,
}

impl View for Panel {
    type V = PanelState;

    open spec fn view(&self) -> PanelState {
        PanelState {
            slots: self.slots@,
            mode: self.mode,
            rec_ban: self.rec_ban,
            pool: self.pool@,
            chosung: self.chosung,
            fearless: self.series.fearless,
            mine: self.series.mine@,
            theirs: self.series.theirs@,
            game: self.series.game as nat,
            visible: self.visible,
            prev_combo: self.prev_combo,
            frames: self.frames as nat,
            last_reload_frame: self.last_reload_frame as nat,
        }
    }
}

/// A board without marks.
pub open spec fn no_marks() -> Seq<Slot> {
    Seq::new(CHAMP_COUNT as nat, |i: int| Slot::Avail)
}

/// The panel at the beginning: bans come first in a draft.
pub open spec fn fresh_panel(pool: Set<Seq<char>>) -> PanelState {
    PanelState {
        slots: no_marks(),
        mode: Mode::MyBan,
        rec_ban: true,
        pool,
        chosung: None,
        fearless: Fearless::Off,
        mine: Set::empty(),
        theirs: Set::empty(),
        game: 1,
        visible: true,
        prev_combo: false,
        frames: 0,
        last_reload_frame: 0,
    }
}

/// What is to be done in a frame.
#[derive(Clone, Copy, PartialEq, Eq, Structural, Debug)]
pub enum Frame {
    /// Nothing is drawn.
    Hidden,
    /// The panel is drawn.
    Draw,
    /// The files are looked at, and the panel is drawn.
    Reload,
}

/// The panel when a frame begins, given whether the keys that show and hide it are down. It
/// is shown or hidden when they go down, not while they are held.
pub open spec fn frame_begun(p: PanelState, combo: bool) -> (PanelState, Frame) {
    let visible = if combo && !p.prev_combo {
        !p.visible
    } else {
        p.visible
    };
    let q = PanelState { visible, prev_combo: combo, ..p };
    if !visible {
        (q, Frame::Hidden)
    } else if p.frames + 1 - p.last_reload_frame >= RELOAD_EVERY_FRAMES {
        (
            PanelState { frames: p.frames + 1, last_reload_frame: p.frames + 1, ..q },
            Frame::Reload,
        )
    } else {
        (PanelState { frames: p.frames + 1, ..q }, Frame::Draw)
    }
}

/// The panel after a mark was set or taken at place `i` in a mode.
pub open spec fn clicked(p: PanelState, i: int, mode: Mode) -> PanelState {
    if mode == Mode::Pool {
        PanelState { pool: flipped(p.pool, champ_id(i)), ..p }
    } else {
        PanelState { slots: p.slots.update(i, marked(p.slots[i], mode)), ..p }
    }
}

/// What the user asked for in a frame.
#[derive(Clone, Copy)]
pub struct Requests {
    /// To take all marks away.
    pub reset: bool,
    /// To go on to the next set.
    pub next_set: bool,
    /// To begin the series anew.
    pub clear_series: bool,
}

/// The panel when a frame ends, in which some things were asked for.
pub open spec fn frame_ended(p: PanelState, r: Requests) -> PanelState {
    let slots = if r.reset {
        no_marks()
    } else {
        p.slots
    };
    let q = if r.next_set {
        PanelState {
            slots: no_marks(),
            mine: p.mine.union(marked_set(slots, Slot::MyPick)),
            theirs: p.theirs.union(marked_set(slots, Slot::EnemyPick)),
            game: p.game + 1,
            ..p
        }
    } else {
        PanelState { slots, ..p }
    };
    if r.clear_series {
        PanelState { mine: Set::empty(), theirs: Set::empty(), game: 1, ..q }
    } else {
        q
    }
}

/// Whether a panel holds what it must: a mark for each champion, and no look at the files in
/// a frame to come.
pub open spec fn sound(p: PanelState) -> bool {
    p.slots.len() == CHAMP_COUNT && p.last_reload_frame <= p.frames
}

/// The text in lower case, as `str::to_lowercase` gives it by Unicode's tables.
pub uninterp spec fn lowercased(s: Seq<char>) -> Seq<char>;

/// The text in lower case: what `str::to_lowercase` returns, which depends on the text
/// alone. Which characters it has is not stated.
#[verifier::external_body]
fn lowercase(s: &str) -> (r: String)
    ensures
        r@ == lowercased(s@),
{
    s.to_lowercase()
}

/// Whether the grid shows a champion: its Korean name holds what is searched, or its id in
/// lower case holds that in lower case, or nothing is searched; and its name begins with a
/// consonant of the group, where the grid is narrowed to one.
pub open spec fn in_grid(
    ko: Seq<char>,
    low_id: Seq<char>,
    search: Seq<char>,
    low_search: Seq<char>,
    chosung: Option<u8>,
) -> bool {
    (low_search.len() == 0 || has(ko, search) || has(low_id, low_search)) && (chosung is None
        || group_of(ko) == chosung)
}

/// Whether the grid shows a champion, given its id and what is searched also in lower case.
pub fn grid_match(ko: &str, low_id: &str, search: &str, low_search: &str, chosung: Option<u8>) -> (r:
    bool)
    ensures
        r == in_grid(ko@, low_id@, search@, low_search@, chosung),
{
    let found = low_search.is_empty() || has_text(ko, search) || has_text(low_id, low_search);
    let grouped = match chosung {
        None => true,
        Some(g) => match chosung_group(ko) {
            Some(h) => g == h,
            None => false,
        },
    };
    found && grouped
}

/// How a champion of the grid is coloured.
#[derive(Clone, Copy, PartialEq, Eq, Structural, Debug)]
pub struct Tint {
    pub slot: Slot,
    /// Whether it is darkened: the pool is known and does not hold it.
    pub out_of_pool: bool,
    /// Whether it is shown as locked: it has no mark and the own team may not pick it.
    pub locked: bool,
}

/// How a champion of the grid is coloured.
pub open spec fn tint_of(p: PanelState, i: int) -> Tint {
    let id = champ_id(i);
    Tint {
        slot: p.slots[i],
        out_of_pool: p.pool != Set::<Seq<char>>::empty() && !p.pool.contains(id),
        locked: p.slots[i] == Slot::Avail && locked(p.fearless, p.mine, p.theirs).contains(id),
    }
}

/// The champions from which the panel recommends: the pool without those that the rule of
/// the series makes pointless in the phase.
pub open spec fn recommended_from(p: PanelState) -> Option<Set<Seq<char>>> {
    effective(
        p.pool,
        if p.rec_ban {
            locked(p.fearless, p.theirs, p.mine)
        } else {
            locked(p.fearless, p.mine, p.theirs)
        },
    )
}

impl Panel {
    /// The panel at the beginning.
    pub fn new(pool: &TextSet) -> (r: Self)
        ensures
            r@ == fresh_panel(pool@),
            sound(r@),
    {
        Panel {
            slots: clear_board(),
            mode: Mode::MyBan,
            rec_ban: true,
            pool: pool.copy(),
            chosung: None,
            series: Series::new(),
            visible: true,
            prev_combo: false,
            frames: 0,
            last_reload_frame: 0,
        }
    }

    /// Begins a frame, given whether the keys that show and hide the panel are down.
    pub fn begin_frame(&mut self, combo: bool) -> (r: Frame)
        requires
            sound(old(self)@),
            old(self).frames < u64::MAX,
        ensures
            sound(final(self)@),
            (final(self)@, r) == frame_begun(old(self)@, combo),
    {
        if combo && !self.prev_combo {
            self.visible = !self.visible;
        }
        self.prev_combo = combo;
        if !self.visible {
            return Frame::Hidden;
        }
        self.frames = self.frames + 1;
        if self.frames - self.last_reload_frame >= RELOAD_EVERY_FRAMES {
            self.last_reload_frame = self.frames;
            Frame::Reload
        } else {
            Frame::Draw
        }
    }

    /// Takes over the pool of tables that were loaded.
    pub fn take_pool(&mut self, pool: &TextSet)
        ensures
            final(self)@ == (PanelState { pool: pool@, ..old(self)@ }),
    {
        self.pool = pool.copy();
    }

    /// Puts all champions into the pool.
    pub fn fill_pool(&mut self)
        ensures
            final(self)@ == (PanelState { pool: all_ids(), ..old(self)@ }),
    {
        self.pool = every_champ();
    }

    /// Sets the phase, and with it the mode that stays valid in it.
    pub fn set_phase(&mut self, rec_ban: bool)
        ensures
            final(self)@ == (PanelState {
                rec_ban,
                mode: mode_in_phase(rec_ban, old(self)@.mode),
                ..old(self)@
            }),
    {
        self.rec_ban = rec_ban;
        self.mode = valid_mode(rec_ban, self.mode);
    }

    /// A click on the champion at place `i` of the grid.
    pub fn click(&mut self, i: usize)
        requires
            sound(old(self)@),
            i < CHAMP_COUNT,
        ensures
            sound(final(self)@),
            final(self)@ == clicked(old(self)@, i as int, old(self)@.mode),
    {
        click_champ(i, self.mode, &mut self.slots, &mut self.pool);
    }

    /// A click on a recommended champion of the list.
    pub fn click_row(&mut self, id: &str)
        requires
            sound(old(self)@),
        ensures
            sound(final(self)@),
            final(self)@ == match place_of(id@) {
                Some(i) => clicked(old(self)@, i, old(self)@.mode),
                None => old(self)@,
            },
    {
        if let Some(i) = champ_place(id) {
            self.click(i);
        }
    }

    /// A click on a champion that is recommended for a lane: it is an own pick, whatever the
    /// mode.
    pub fn click_lane(&mut self, id: &str)
        requires
            sound(old(self)@),
        ensures
            sound(final(self)@),
            final(self)@ == match place_of(id@) {
                Some(i) => clicked(old(self)@, i, Mode::MyPick),
                None => old(self)@,
            },
    {
        if let Some(i) = champ_place(id) {
            self.slots[i] = apply_mode(self.slots[i], Mode::MyPick);
        }
    }

    /// A click on a group of leading consonants: narrows the grid to it, or no more.
    pub fn click_chosung(&mut self, group: u8)
        ensures
            final(self)@ == (PanelState {
                chosung: if old(self)@.chosung == Some(group) {
                    None
                } else {
                    Some(group)
                },
                ..old(self)@
            }),
    {
        let active = match self.chosung {
            Some(g) => g == group,
            None => false,
        };
        self.chosung = if active {
            None
        } else {
            Some(group)
        };
    }

    /// Ends a frame in which some things were asked for.
    pub fn end_frame(&mut self, r: Requests)
        requires
            sound(old(self)@),
            r.next_set ==> old(self).series.game < u32::MAX,
        ensures
            sound(final(self)@),
            final(self)@ == frame_ended(old(self)@, r),
    {
        if r.reset {
            self.slots = clear_board();
        }
        if r.next_set {
            self.series.next_set(&mut self.slots);
        }
        if r.clear_series {
            self.series.clear();
        }
    }

    /// The draft that the board shows.
    pub fn state(&self) -> (r: DraftState)
        requires
            sound(self@),
        ensures
            r@ == board_draft(self@.slots, self@.rec_ban),
    {
        current_state(&self.slots, self.rec_ban)
    }

    /// The champions from which the panel recommends; nothing restricts them where there is
    /// no answer.
    pub fn offers(&self) -> (r: Option<TextSet>)
        ensures
            match r {
                Some(p) => recommended_from(self@) == Some(p@),
                None => recommended_from(self@) is None,
            },
    {
        effective_pool(&self.pool, &self.series.rec_lock(self.rec_ban))
    }

    /// How the champion at place `i` of the grid is coloured.
    pub fn tint(&self, i: usize) -> (r: Tint)
        requires
            sound(self@),
            i < CHAMP_COUNT,
        ensures
            r == tint_of(self@, i as int),
    {
        let id = CHAMPS[i].0;
        Tint {
            slot: self.slots[i],
            out_of_pool: !self.pool.is_empty() && !self.pool.contains(id),
            locked: self.slots[i] == Slot::Avail && self.series.my_locked().contains(id),
        }
    }

    /// Whether the grid shows the champion at place `i`, given what is searched.
    pub fn shows(&self, i: usize, search: &str) -> (r: bool)
        requires
            i < CHAMP_COUNT,
        ensures
            r == in_grid(
                champ_ko(i as int),
                lowercased(champ_id(i as int)),
                search@,
                lowercased(search@),
                self@.chosung,
            ),
    {
        let low_id = lowercase(CHAMPS[i].0);
        let low_search = lowercase(search);
        grid_match(CHAMPS[i].1, low_id.as_str(), search, low_search.as_str(), self.chosung)
    }
}

/// Whether mouse and keyboard are kept from the game: those that the panel wants, while it is
/// shown.
pub fn message_filter(visible: bool, want_mouse: bool, want_keyboard: bool) -> (r: (bool, bool))
    ensures
        r == (visible && want_mouse, visible && want_keyboard),
{
    (visible && want_mouse, visible && want_keyboard)
}

/// Holding the keys shows or hides the panel once: in the frames that follow it stays as it
/// is until they were let go.
pub proof fn law_held_keys_toggle_once(p: PanelState)
    ensures
        ({
            let once = frame_begun(p, true).0;
            &&& !p.prev_combo ==> once.visible == !p.visible
            &&& frame_begun(once, true).0.visible == once.visible
            &&& frame_begun(once, false).0.visible == once.visible
        }),
{
}

/// A set that ends locks its picks: under the normal rule the own team may not pick its own
/// again, under the hard rule neither team any of them.
pub proof fn law_next_set_locks(p: PanelState, r: Requests, i: int)
    requires
        0 <= i < CHAMP_COUNT,
        p.slots.len() == CHAMP_COUNT,
        !r.reset && r.next_set && !r.clear_series,
    ensures
        ({
            let q = frame_ended(p, r);
            &&& q.slots == no_marks()
            &&& p.slots[i] == Slot::MyPick && p.fearless != Fearless::Off ==> tint_of(q, i).locked
            &&& p.slots[i] == Slot::EnemyPick && p.fearless == Fearless::Hard ==> tint_of(
                q,
                i,
            ).locked
            &&& p.fearless == Fearless::Off ==> !tint_of(q, i).locked
        }),
{
    if p.slots[i] == Slot::MyPick {
        crate::board::law_marked_is_listed(p.slots, Slot::MyPick, CHAMP_COUNT as nat, i);
    }
    if p.slots[i] == Slot::EnemyPick {
        crate::board::law_marked_is_listed(p.slots, Slot::EnemyPick, CHAMP_COUNT as nat, i);
    }
}

/// What is locked is never among the champions from which the panel recommends.
pub proof fn law_panel_offers_no_locked(p: PanelState, id: Seq<char>)
    requires
        locked(
            p.fearless,
            if p.rec_ban {
                p.theirs
            } else {
                p.mine
            },
            if p.rec_ban {
                p.mine
            } else {
                p.theirs
            },
        ).contains(id),
    ensures
        recommended_from(p) matches Some(s) && !s.contains(id),
{
    let lock = if p.rec_ban {
        locked(p.fearless, p.theirs, p.mine)
    } else {
        locked(p.fearless, p.mine, p.theirs)
    };
    assert(lock != Set::<Seq<char>>::empty()) by {
        assert(lock.contains(id));
    }
}

/// Under the normal rule the own earlier picks can still be recommended for a ban, as far as
/// the pool offers them: the enemy may pick what it has not picked itself.
pub proof fn law_own_picks_can_be_banned(p: PanelState, id: Seq<char>)
    requires
        p.fearless == Fearless::Normal,
        p.rec_ban,
        p.mine.contains(id),
        !p.theirs.contains(id),
    ensures
        recommended_from(p) matches Some(s) ==> s.contains(id) == if p.pool == Set::<
            Seq<char>,
        >::empty() {
            all_ids().contains(id)
        } else {
            p.pool.contains(id)
        },
{
}

/// A panel begins shown, without marks, in the phase of bans and with the own bans to be
/// marked, in the first set of a series without a rule.
pub proof fn law_panel_begins(pool: Set<Seq<char>>, i: int)
    requires
        0 <= i < 60,
    ensures
        ({
            let p = fresh_panel(pool);
            &&& p.slots.len() == 60 && p.slots[i] == Slot::Avail
            &&& p.rec_ban && p.mode == Mode::MyBan && p.visible && !p.prev_combo
            &&& p.pool == pool && p.chosung is None && p.game == 1 && p.fearless == Fearless::Off
            &&& !p.mine.contains(champ_id(i)) && !p.theirs.contains(champ_id(i))
            &&& p.frames == 0 && p.last_reload_frame == 0 && sound(p)
        }),
{
}

/// A frame in which the keys go down shows or hides the panel, any other leaves it. A hidden
/// panel counts no frame; a shown one looks at the files in each 120th frame since it last did.
pub proof fn law_frame_begins(p: PanelState, combo: bool)
    ensures
        ({
            let (q, f) = frame_begun(p, combo);
            &&& combo && !p.prev_combo ==> q.visible == !p.visible
            &&& !combo || p.prev_combo ==> q.visible == p.visible
            &&& q.prev_combo == combo
            &&& f == Frame::Hidden <==> !q.visible
            &&& !q.visible ==> q.frames == p.frames && q.last_reload_frame == p.last_reload_frame
            &&& q.visible ==> q.frames == p.frames + 1
            &&& q.visible && p.frames + 1 - p.last_reload_frame >= 120 ==> f == Frame::Reload
                && q.last_reload_frame == q.frames
            &&& q.visible && p.frames + 1 - p.last_reload_frame < 120 ==> f == Frame::Draw
                && q.last_reload_frame == p.last_reload_frame
            &&& q.slots == p.slots && q.mode == p.mode && q.pool == p.pool && q.rec_ban == p.rec_ban
            &&& q.mine == p.mine && q.theirs == p.theirs && q.game == p.game
        }),
{
}

/// What a frame ends with: to reset takes all marks away and leaves the series; to go on to the
/// next set adds the picks that are marked to those of the earlier sets, takes the marks away
/// and counts one more set; to clear the series forgets its picks and begins with the first set.
pub proof fn law_frame_ends(p: PanelState, r: Requests, i: int)
    requires
        p.slots.len() == 60,
        0 <= i < 60,
    ensures
        ({
            let q = frame_ended(p, r);
            let id = champ_id(i);
            &&& r.reset || r.next_set ==> q.slots.len() == 60 && q.slots[i] == Slot::Avail
            &&& !r.reset && !r.next_set ==> q.slots == p.slots
            &&& r.clear_series ==> q.game == 1 && !q.mine.contains(id) && !q.theirs.contains(id)
            &&& !r.clear_series && !r.next_set ==> q.game == p.game && q.mine == p.mine && q.theirs
                == p.theirs
            &&& !r.clear_series && r.next_set ==> q.game == p.game + 1
            &&& !r.clear_series && r.next_set && !r.reset ==> (q.mine.contains(id) <==> p.mine.contains(
                id,
            ) || p.slots[i] == Slot::MyPick) && (q.theirs.contains(id) <==> p.theirs.contains(id)
                || p.slots[i] == Slot::EnemyPick)
            &&& !r.clear_series && r.next_set && r.reset ==> (q.mine.contains(id)
                <==> p.mine.contains(id)) && (q.theirs.contains(id) <==> p.theirs.contains(id))
            &&& q.mode == p.mode && q.rec_ban == p.rec_ban && q.pool == p.pool && q.fearless
                == p.fearless && q.visible == p.visible
        }),
{
    crate::board::law_listed_is_marked(p.slots, Slot::MyPick, i);
    crate::board::law_listed_is_marked(p.slots, Slot::EnemyPick, i);
    crate::board::law_listed_is_marked(no_marks(), Slot::MyPick, i);
    crate::board::law_listed_is_marked(no_marks(), Slot::EnemyPick, i);
}

/// A click changes one mark, or, in the pool's mode, whether one champion is in the pool.
pub proof fn law_panel_click(p: PanelState, i: int, mode: Mode, j: int)
    requires
        p.slots.len() == 60,
        0 <= i < 60,
        0 <= j < 60,
    ensures
        ({
            let q = clicked(p, i, mode);
            &&& mode == Mode::Pool ==> q.slots == p.slots && (q.pool.contains(champ_id(i))
                <==> !p.pool.contains(champ_id(i)))
            &&& mode != Mode::Pool ==> q.pool == p.pool
            &&& i != j ==> q.slots[j] == p.slots[j] && (q.pool.contains(champ_id(j))
                <==> p.pool.contains(champ_id(j)))
            &&& mode == Mode::Clear ==> q.slots[i] == Slot::Avail
            &&& mode == Mode::MyPick && p.slots[i] != Slot::MyPick ==> q.slots[i] == Slot::MyPick
            &&& mode == Mode::EnemyPick && p.slots[i] != Slot::EnemyPick ==> q.slots[i]
                == Slot::EnemyPick
            &&& mode == Mode::MyBan && p.slots[i] != Slot::MyBan ==> q.slots[i] == Slot::MyBan
            &&& mode == Mode::EnemyBan && p.slots[i] != Slot::EnemyBan ==> q.slots[i]
                == Slot::EnemyBan
            &&& q.mode == p.mode && q.rec_ban == p.rec_ban && q.mine == p.mine && q.theirs
                == p.theirs
        }),
{
    crate::champs::law_ids_differ(i);
    crate::champs::law_ids_differ(j);
    if i != j {
        crate::board::law_pool_click(p.pool, champ_id(i), champ_id(j));
    }
}

/// A champion of the grid has the colour of its mark. It is out of a pool that has others but
/// not it, and locked where it has no mark and the own team may not pick it.
pub proof fn law_tint(p: PanelState, i: int)
    ensures
        tint_of(p, i).slot == p.slots[i],
        p.pool.contains(champ_id(i)) ==> !tint_of(p, i).out_of_pool,
        p.pool == Set::<Seq<char>>::empty() ==> !tint_of(p, i).out_of_pool,
        p.pool != Set::<Seq<char>>::empty() && !p.pool.contains(champ_id(i)) ==> tint_of(
            p,
            i,
        ).out_of_pool,
        tint_of(p, i).locked ==> p.slots[i] == Slot::Avail && p.fearless != Fearless::Off && (
        p.mine.contains(champ_id(i)) || p.theirs.contains(champ_id(i))),
        p.slots[i] == Slot::Avail && p.fearless == Fearless::Normal ==> (tint_of(p, i).locked
            <==> p.mine.contains(champ_id(i))),
        p.slots[i] == Slot::Avail && p.fearless == Fearless::Hard ==> (tint_of(p, i).locked
            <==> p.mine.contains(champ_id(i)) || p.theirs.contains(champ_id(i))),
{
}

/// The grid shows a champion where its name holds what is searched, where its id in lower case
/// holds that in lower case, and where nothing is searched, but of a group where one is chosen.
pub proof fn law_grid(
    ko: Seq<char>,
    low_id: Seq<char>,
    search: Seq<char>,
    low_search: Seq<char>,
    g: u8,
)
    ensures
        low_search.len() == 0 ==> in_grid(ko, low_id, search, low_search, None),
        has(ko, search) ==> in_grid(ko, low_id, search, low_search, None),
        has(low_id, low_search) ==> in_grid(ko, low_id, search, low_search, None),
        in_grid(ko, low_id, search, low_search, None) ==> low_search.len() == 0 || has(ko, search)
            || has(low_id, low_search),
        in_grid(ko, low_id, search, low_search, Some(g)) <==> in_grid(
            ko,
            low_id,
            search,
            low_search,
            None,
        ) && group_of(ko) == Some(g),
{
}

/// In the phase of bans what the enemy may not pick is left out of the recommendations, in that
/// of picks what the own team may not; everything else that the pool has stays.
pub proof fn law_recommended_from(p: PanelState, i: int)
    requires
        0 <= i < 60,
    ensures
        ({
            let id = champ_id(i);
            let own = if p.rec_ban {
                p.theirs.contains(id)
            } else {
                p.mine.contains(id)
            };
            let any = p.mine.contains(id) || p.theirs.contains(id);
            let barred = (p.fearless == Fearless::Normal && own) || (p.fearless == Fearless::Hard
                && any);
            match recommended_from(p) {
                Some(s) => s.contains(id) <==> !barred && (p.pool == Set::<Seq<char>>::empty()
                    || p.pool.contains(id)),
                None => !barred && p.pool == Set::<Seq<char>>::empty(),
            }
        }),
{
    let lock = if p.rec_ban {
        locked(p.fearless, p.theirs, p.mine)
    } else {
        locked(p.fearless, p.mine, p.theirs)
    };
    crate::board::law_effective_pool(p.pool, lock, i);
    if recommended_from(p) is None {
        assert(p.pool =~= Set::<Seq<char>>::empty());
        assert(!lock.contains(champ_id(i)));
    }
}

} // verus!
