//! The saves of the game: which one is played, how they are listed, and what their headers
//! say.
//!
//! Times are numbers that grow with time; how they are scaled is the caller's choice.

use vstd::prelude::*;
use vstd::utf8::{
    decode_utf8,
    encode_utf8,
    encode_utf8_decode_utf8,
    encode_utf8_valid_utf8,
    is_char_boundary,
    is_char_boundary_iff_not_is_continuation_byte,
    is_char_boundary_start_end_of_seq,
    valid_utf8,
};

use crate::numeral::to_decimal;
#[allow(unused_imports)]
use crate::export::{is_field, lemma_joined_line};
#[allow(unused_imports)]
use crate::numeral::{decimal, is_digit, lemma_decimal_digits};
use crate::rank::rank_keys;
#[allow(unused_imports)]
use crate::rank::{as_ints, by_key, law_keys_fall, law_ranked_complete, law_ranked_keeps};
use crate::text::{
    chars_of,
    ends_with,
    lines,
    same_text,
    split_on,
    split_once,
    starts_with,
    strip_prefix,
    text_between,
    to_lines,
    trim,
};
#[allow(unused_imports)]
use crate::text::{
    after_prefix,
    begins,
    ends,
    is_line,
    joined,
    lacks,
    law_joined_is_cut,
    law_lines_read_back,
    line_seq,
    opt_text,
    parted,
    pieces,
    trimmed,
    with_feeds,
};

verus! {

/// Whether a file is a save, by its name.
pub open spec fn names_save(name: Seq<char>) -> bool {
    begins(name, "save_2"@) && ends(name, ".data"@)
}

/// Whether a file is a save, by its name.
pub fn is_save(name: &str) -> (r: bool)
    ensures
        r == names_save(name@),
{
    starts_with(name, "save_2") && ends_with(name, ".data")
}

/// The index of the last dot of a name, -1 where it has none.
pub open spec fn last_dot(name: Seq<char>) -> int
    decreases name.len(),
{
    if name.len() == 0 {
        -1
    } else if name.last() == '.' {
        name.len() - 1
    } else {
        last_dot(name.drop_last())
    }
}

/// The name of a file without its extension; a dot at the beginning begins none. A file
/// without a name is called `save`.
pub open spec fn stem_of(name: Seq<char>) -> Seq<char> {
    if name.len() == 0 {
        "save"@
    } else if last_dot(name) > 0 {
        name.take(last_dot(name))
    } else {
        name
    }
}

fn find_last_dot(c: &[char]) -> (r: Option<usize>)
    ensures
        match r {
            Some(i) => i < c@.len() && last_dot(c@) == i,
            None => last_dot(c@) == -1,
        },
{
    let mut n: usize = c.len();
    assert(c@.take(n as int) == c@);
    while n > 0
        invariant
            n <= c@.len(),
            last_dot(c@) == last_dot(c@.take(n as int)),
        decreases n,
    {
        assert(c@.take(n as int).drop_last() == c@.take(n - 1));
        if c[n - 1] == '.' {
            return Some(n - 1);
        }
        n -= 1;
    }
    None
}

/// The name of a file without its extension.
pub fn stem(name: &str) -> (r: String)
    ensures
        r@ == stem_of(name@),
{
    let c = chars_of(name);
    if c.len() == 0 {
        return "save".to_owned();
    }
    match find_last_dot(c.as_slice()) {
        Some(i) => if i > 0 {
            let t = text_between(c.as_slice(), 0, i);
            assert(t@ =~= name@.take(i as int));
            t
        } else {
            name.to_owned()
        },
        None => name.to_owned(),
    }
}

/// Whether a file is a cache of statistics, by its extension.
pub open spec fn names_cache(name: Seq<char>) -> bool {
    last_dot(name) > 0 && name.skip(last_dot(name) + 1) == "tsv"@
}

/// Whether a file is a cache of statistics, by its extension.
pub fn is_cache(name: &str) -> (r: bool)
    ensures
        r == names_cache(name@),
{
    let c = chars_of(name);
    match find_last_dot(c.as_slice()) {
        Some(i) => {
            assert(i < c.len());
            let ext = text_between(c.as_slice(), i + 1, c.len());
            assert(ext@ =~= name@.skip(i + 1));
            i > 0 && same_text(ext.as_str(), "tsv")
        },
        None => false,
    }
}

/// The name of the cache of a save.
pub fn cache_name(save: &str) -> (r: String)
    ensures
        r@ == stem_of(save@) + ".tsv"@,
{
    let mut r = stem(save);
    r.append(".tsv");
    r
}

/// A file in a directory: its name, and when it was written, where that is known.
pub type Listed = (String, Option<u128>);

/// Of the first `n` files the first save with the latest time.
pub open spec fn latest_save(files: Seq<Listed>, n: nat) -> Option<int>
    decreases n,
{
    if n == 0 {
        None
    } else {
        let best = latest_save(files, (n - 1) as nat);
        match files[n - 1].1 {
            Some(t) => if names_save(files[n - 1].0@) && (match best {
                Some(b) => files[b].1 matches Some(s) && t > s,
                None => true,
            }) {
                Some(n - 1)
            } else {
                best
            },
            None => best,
        }
    }
}

/// The save that was written last.
pub fn newest_save(files: &Vec<Listed>) -> (r: Option<usize>)
    ensures
        match r {
            Some(i) => latest_save(files@, files@.len()) == Some(i as int),
            None => latest_save(files@, files@.len()) is None,
        },
{
    let mut best: Option<(usize, u128)> = None;
    let mut i: usize = 0;
    while i < files.len()
        invariant
            i <= files@.len(),
            match best {
                Some((b, t)) => b < i && latest_save(files@, i as nat) == Some(b as int)
                    && files@[b as int].1 == Some(t),
                None => latest_save(files@, i as nat) is None,
            },
        decreases files@.len() - i,
    {
        if let Some(t) = files[i].1 {
            let later = match best {
                Some((_, s)) => t > s,
                None => true,
            };
            if later && is_save(files[i].0.as_str()) {
                best = Some((i, t));
            }
        }
        i += 1;
    }
    match best {
        Some((b, _)) => Some(b),
        None => None,
    }
}

/// The save that was written last is a save, and no save was written later.
pub proof fn law_latest_save(files: Seq<Listed>, n: nat)
    requires
        n <= files.len(),
    ensures
        match latest_save(files, n) {
            Some(b) => {
                &&& 0 <= b < n
                &&& names_save(files[b].0@)
                &&& files[b].1 is Some
                &&& forall|i: int|
                    0 <= i < n && names_save((#[trigger] files[i]).0@) && files[i].1 is Some
                        ==> files[i].1->0 <= files[b].1->0
            },
            None => forall|i: int|
                0 <= i < n ==> !names_save((#[trigger] files[i]).0@) || files[i].1 is None,
        },
    decreases n,
{
    if n > 0 {
        law_latest_save(files, (n - 1) as nat);
    }
}

/// The save that is pinned, none where the pin is blank.
pub open spec fn pinned_name(pin: Seq<char>) -> Option<Seq<char>> {
    if trimmed(pin).len() == 0 {
        None
    } else {
        Some(trimmed(pin))
    }
}

/// The save that is pinned.
pub fn pinned(pin: &str) -> (r: Option<String>)
    ensures
        opt_text(r) == pinned_name(pin@),
{
    let t = trim(pin);
    if t.as_str().is_empty() {
        None
    } else {
        Some(t)
    }
}

/// The save that is played.
#[derive(Clone, Copy, PartialEq, Eq, Structural, Debug)]
pub enum Active {
    /// The pinned one.
    Pinned,
    /// The file at this place.
    Latest(usize),
    /// There is none.
    Missing,
}

/// The save that is played: the pinned one, where its time is known and so it is there, else
/// the one that was written last.
pub fn active_save(pin_time: Option<u128>, files: &Vec<Listed>) -> (r: Active)
    ensures
        match r {
            Active::Pinned => pin_time is Some,
            Active::Latest(i) => pin_time is None && latest_save(files@, files@.len()) == Some(
                i as int,
            ),
            Active::Missing => pin_time is None && latest_save(files@, files@.len()) is None,
        },
{
    match pin_time {
        Some(_) => Active::Pinned,
        None => match newest_save(files) {
            Some(i) => Active::Latest(i),
            None => Active::Missing,
        },
    }
}

/// How many caches are kept.
pub const KEEP_CACHES: usize = 40;

/// The places of the caches with known times among the first `n` files.
pub open spec fn cache_places(files: Seq<Listed>, n: nat) -> Seq<int>
    decreases n,
{
    if n == 0 {
        Seq::empty()
    } else {
        let front = cache_places(files, (n - 1) as nat);
        if names_cache(files[n - 1].0@) && files[n - 1].1 is Some {
            front.push(n - 1)
        } else {
            front
        }
    }
}

/// How long before the end of time each of some files was written.
pub open spec fn ages(files: Seq<Listed>, places: Seq<int>) -> Seq<u128> {
    Seq::new(places.len(), |k: int| (u128::MAX - files[places[k]].1->0) as u128)
}

/// The caches to be removed, from the oldest on: all but the newest.
pub open spec fn stale_caches(files: Seq<Listed>) -> Seq<int> {
    let c = cache_places(files, files.len());
    if c.len() <= KEEP_CACHES {
        Seq::empty()
    } else {
        by_key(ages(files, c)).take(c.len() - KEEP_CACHES).map_values(|k: int| c[k])
    }
}

/// The caches to be removed.
pub fn prune_caches(files: &Vec<Listed>) -> (r: Vec<usize>)
    ensures
        as_ints(r@) == stale_caches(files@),
        forall|k: int| 0 <= k < r@.len() ==> #[trigger] r@[k] < files@.len(),
{
    let mut places: Vec<usize> = Vec::new();
    let mut keys: Vec<u128> = Vec::new();
    let mut i: usize = 0;
    assert(as_ints(places@) =~= Seq::empty());
    while i < files.len()
        invariant
            i <= files@.len(),
            as_ints(places@) == cache_places(files@, i as nat),
            keys@.len() == places@.len(),
            forall|k: int|
                0 <= k < places@.len() ==> #[trigger] places@[k] < files@.len()
                    && files@[places@[k] as int].1 is Some && keys@[k] == u128::MAX
                    - files@[places@[k] as int].1->0,
        decreases files@.len() - i,
    {
        let ghost before = as_ints(places@);
        if let Some(t) = files[i].1 {
            if is_cache(files[i].0.as_str()) {
                places.push(i);
                keys.push(u128::MAX - t);
                assert(as_ints(places@) =~= before.push(i as int));
            }
        }
        i += 1;
    }
    let ghost c = cache_places(files@, files@.len());
    assert(c.len() == places@.len());
    assert(forall|k: int| 0 <= k < c.len() ==> #[trigger] c[k] == places@[k]);
    let mut r: Vec<usize> = Vec::new();
    if places.len() <= KEEP_CACHES {
        assert(as_ints(r@) =~= Seq::empty());
        return r;
    }
    assert(keys@ =~= ages(files@, c));
    let order = rank_keys(&keys);
    let ghost o = by_key(ages(files@, c));
    assert(forall|k: int| 0 <= k < o.len() ==> #[trigger] o[k] == order@[k]);
    let n: usize = places.len() - KEEP_CACHES;
    let mut k: usize = 0;
    while k < n
        invariant
            k <= n <= places@.len(),
            order@.len() == places@.len(),
            o.len() == order@.len(),
            c.len() == places@.len(),
            forall|j: int| 0 <= j < c.len() ==> #[trigger] c[j] == places@[j],
            forall|j: int| 0 <= j < places@.len() ==> #[trigger] places@[j] < files@.len(),
            forall|j: int| 0 <= j < o.len() ==> #[trigger] o[j] == order@[j],
            forall|j: int| 0 <= j < order@.len() ==> #[trigger] order@[j] < places@.len(),
            r@.len() == k,
            forall|j: int| 0 <= j < k ==> #[trigger] r@[j] == c[o[j]],
            forall|j: int| 0 <= j < k ==> #[trigger] r@[j] < files@.len(),
        decreases n - k,
    {
        assert(o[k as int] == order@[k as int]);
        assert(c[order@[k as int] as int] == places@[order@[k as int] as int]);
        r.push(places[order[k]]);
        k += 1;
    }
    assert(as_ints(r@) =~= stale_caches(files@));
    r
}

proof fn lemma_cache_places(files: Seq<Listed>, n: nat)
    requires
        n <= files.len(),
    ensures
        forall|k: int|
            0 <= k < cache_places(files, n).len() ==> {
                let i = #[trigger] cache_places(files, n)[k];
                0 <= i < n && names_cache(files[i].0@) && files[i].1 is Some
            },
        cache_places(files, n).no_duplicates(),
        forall|i: int|
            0 <= i < n && names_cache((#[trigger] files[i]).0@) && files[i].1 is Some
                ==> cache_places(files, n).contains(i),
    decreases n,
{
    if n > 0 {
        lemma_cache_places(files, (n - 1) as nat);
        let front = cache_places(files, (n - 1) as nat);
        let all = cache_places(files, n);
        if names_cache(files[n - 1].0@) && files[n - 1].1 is Some {
            assert(all[front.len() as int] == n - 1);
        }
        assert forall|i: int|
            0 <= i < n && names_cache((#[trigger] files[i]).0@) && files[i].1 is Some implies all.contains(
            i,
        ) by {
            if i < n - 1 {
                assert(front.contains(i));
                let k = choose|k: int| 0 <= k < front.len() && front[k] == i;
                assert(all[k] == i);
            }
        }
    }
}

/// Of the caches as many stay as are kept, and none that stays is older than one that goes.
pub proof fn law_newest_caches_stay(files: Seq<Listed>)
    ensures
        ({
            let all = cache_places(files, files.len());
            let gone = stale_caches(files);
            &&& gone.no_duplicates()
            &&& all.len() <= KEEP_CACHES ==> gone.len() == 0
            &&& all.len() > KEEP_CACHES ==> gone.len() == all.len() - KEEP_CACHES
            &&& forall|i: int| #[trigger] gone.contains(i) ==> all.contains(i)
            &&& forall|i: int, j: int| #[trigger]
                gone.contains(i) && #[trigger] all.contains(j) && !gone.contains(j)
                    ==> files[i].1->0 <= files[j].1->0
        }),
{
    let all = cache_places(files, files.len());
    let gone = stale_caches(files);
    lemma_cache_places(files, files.len());
    if all.len() > KEEP_CACHES {
        let keys = ages(files, all);
        let o = by_key(keys);
        let above = |x: int, y: int| keys[x] > keys[y];
        law_keys_fall(keys);
        law_ranked_keeps(above, keys.len());
        let n = all.len() - KEEP_CACHES;
        assert(gone.len() == n);
        assert(forall|k: int| 0 <= k < n ==> #[trigger] gone[k] == all[o[k]]);
        assert forall|i: int, j: int| 0 <= i < n && 0 <= j < n && i != j implies gone[i]
            != gone[j] by {
            assert(o[i] != o[j]);
        }
        assert forall|i: int| #[trigger] gone.contains(i) implies all.contains(i) by {
            let k = choose|k: int| 0 <= k < gone.len() && gone[k] == i;
            assert(all[o[k]] == i);
        }
        assert forall|i: int, j: int| #[trigger]
            gone.contains(i) && #[trigger] all.contains(j) && !gone.contains(j) implies files[i].1->0
            <= files[j].1->0 by {
            let k = choose|k: int| 0 <= k < gone.len() && gone[k] == i;
            let l = choose|l: int| 0 <= l < all.len() && all[l] == j;
            law_ranked_complete(above, keys.len(), l);
            let m = choose|m: int| 0 <= m < o.len() && o[m] == l;
            if m < n {
                assert(gone[m] == j);
            }
            assert(k < m);
            let a = o[k];
            let b = o[m];
            assert(keys[a] >= keys[b]);
        }
    }
}

/// The files that stay of the first `n` where those at the places `gone` are removed.
pub open spec fn staying(files: Seq<Listed>, gone: Seq<int>, n: nat) -> Seq<Listed>
    decreases n,
{
    if n == 0 {
        Seq::empty()
    } else {
        let front = staying(files, gone, (n - 1) as nat);
        if gone.contains(n - 1) {
            front
        } else {
            front.push(files[n - 1])
        }
    }
}

/// The files that stay where stale caches are removed.
pub open spec fn pruned(files: Seq<Listed>) -> Seq<Listed> {
    staying(files, stale_caches(files), files.len())
}

proof fn lemma_cache_places_before(files: Seq<Listed>, next: Listed, n: nat)
    requires
        n <= files.len(),
    ensures
        cache_places(files.push(next), n) == cache_places(files, n),
    decreases n,
{
    if n > 0 {
        lemma_cache_places_before(files, next, (n - 1) as nat);
    }
}

/// Whether a place is none of some.
spec fn outside(gone: Seq<int>) -> spec_fn(int) -> bool {
    |i: int| !gone.contains(i)
}

/// What is left of places that differ, where some of them go.
proof fn lemma_left_of(all: Seq<int>, gone: Seq<int>)
    requires
        all.no_duplicates(),
    ensures
        all.filter(outside(gone)).no_duplicates(),
        forall|i: int|
            #![auto]
            all.filter(outside(gone)).contains(i) <==> all.contains(i) && !gone.contains(i),
    decreases all.len(),
{
    reveal(Seq::filter);
    if all.len() > 0 {
        let front = all.drop_last();
        lemma_left_of(front, gone);
        let before = front.filter(outside(gone));
        let left = all.filter(outside(gone));
        assert(!front.contains(all.last()));
        assert forall|i: int|
            #![auto]
            left.contains(i) <==> all.contains(i) && !gone.contains(i) by {
            assert(all =~= front.push(all.last()));
            assert(all.contains(i) <==> front.contains(i) || i == all.last()) by {
                if front.contains(i) {
                    let k = choose|k: int| 0 <= k < front.len() && front[k] == i;
                    assert(all[k] == i);
                }
            }
            if !gone.contains(all.last()) {
                assert(left =~= before.push(all.last()));
                assert(left[before.len() as int] == all.last());
                if before.contains(i) {
                    let k = choose|k: int| 0 <= k < before.len() && before[k] == i;
                    assert(left[k] == i);
                }
            }
        }
        if !gone.contains(all.last()) {
            assert(!before.contains(all.last()));
        }
    }
}

/// All files stay where none goes.
proof fn lemma_all_stay(files: Seq<Listed>, n: nat)
    requires
        n <= files.len(),
    ensures
        staying(files, Seq::empty(), n) == files.take(n as int),
    decreases n,
{
    if n > 0 {
        lemma_all_stay(files, (n - 1) as nat);
        assert(files.take(n as int) =~= files.take(n - 1).push(files[n - 1]));
    }
}

/// The caches among the files that stay are as many as those that are not removed.
proof fn lemma_staying_caches(files: Seq<Listed>, gone: Seq<int>, n: nat)
    requires
        n <= files.len(),
    ensures
        ({
            let left = staying(files, gone, n);
            cache_places(left, left.len()).len() == cache_places(files, n).filter(
                outside(gone),
            ).len()
        }),
    decreases n,
{
    reveal(Seq::filter);
    if n > 0 {
        lemma_staying_caches(files, gone, (n - 1) as nat);
        let before = staying(files, gone, (n - 1) as nat);
        let front = cache_places(files, (n - 1) as nat);
        let all = cache_places(files, n);
        if names_cache(files[n - 1].0@) && files[n - 1].1 is Some {
            assert(all.drop_last() =~= front);
        }
        if !gone.contains(n - 1) {
            let left = staying(files, gone, n);
            lemma_cache_places_before(before, files[n - 1], before.len());
            assert(left[before.len() as int] == files[n - 1]);
        }
    }
}

/// Where stale caches were removed, of all caches the newest stay, as many as are kept at most,
/// and to remove stale caches again removes nothing.
pub proof fn law_pruned_once(files: Seq<Listed>)
    ensures
        ({
            let all = cache_places(files, files.len());
            let left = pruned(files);
            &&& cache_places(left, left.len()).len() == if all.len() < KEEP_CACHES {
                all.len()
            } else {
                KEEP_CACHES as nat
            }
            &&& stale_caches(left) == Seq::<int>::empty()
            &&& pruned(left) == left
        }),
{
    let all = cache_places(files, files.len());
    let gone = stale_caches(files);
    let left = pruned(files);
    lemma_cache_places(files, files.len());
    law_newest_caches_stay(files);
    lemma_staying_caches(files, gone, files.len());
    lemma_left_of(all, gone);
    let kept = all.filter(outside(gone));
    all.unique_seq_to_set();
    gone.unique_seq_to_set();
    kept.unique_seq_to_set();
    assert(kept.to_set() =~= all.to_set().difference(gone.to_set()));
    assert(all.to_set().intersect(gone.to_set()) =~= gone.to_set());
    vstd::set_lib::lemma_set_difference_len(all.to_set(), gone.to_set());
    lemma_all_stay(left, left.len());
    assert(left.take(left.len() as int) =~= left);
}

/// The text that some bytes encode, where they are valid UTF-8: that of
/// `std::str::from_utf8`, which gives the text of exactly the bytes, or an error where they
/// are not valid.
#[verifier::external_body]
fn utf8_text(b: &[u8]) -> (r: Option<String>)
    ensures
        match r {
            Some(s) => valid_utf8(b@) && encode_utf8(s@) == b@,
            None => !valid_utf8(b@),
        },
{
    match std::str::from_utf8(b) {
        Ok(s) => Some(s.to_owned()),
        Err(_) => None,
    }
}

/// Whether a character is a control character.
pub open spec fn control(c: char) -> bool {
    c <= '\u{1f}' || '\u{7f}' <= c <= '\u{9f}'
}

/// The text that some bytes encode: none where it is empty, holds a control character or is
/// not valid.
pub open spec fn clean_text(b: Seq<u8>) -> Option<Seq<char>> {
    let t = decode_utf8(b);
    if valid_utf8(b) && t.len() > 0 && (forall|i: int| 0 <= i < t.len() ==> !control(#[trigger] t[i])) {
        Some(t)
    } else {
        None
    }
}

/// The text that some bytes encode: none where it is empty, holds a control character or is
/// not valid.
pub fn clean_str(b: &[u8]) -> (r: Option<String>)
    ensures
        opt_text(r) == clean_text(b@),
{
    match utf8_text(b) {
        None => None,
        Some(s) => {
            proof {
                encode_utf8_decode_utf8(s@);
            }
            let c = chars_of(s.as_str());
            if c.len() == 0 {
                return None;
            }
            let mut i: usize = 0;
            while i < c.len()
                invariant
                    i <= c@.len(),
                    c@ == s@,
                    s@ == decode_utf8(b@),
                    forall|j: int| 0 <= j < i ==> !control(#[trigger] c@[j]),
                decreases c@.len() - i,
            {
                if c[i] <= '\u{1f}' || ('\u{7f}' <= c[i] && c[i] <= '\u{9f}') {
                    assert(control(s@[i as int]));
                    return None;
                }
                i += 1;
            }
            Some(s)
        },
    }
}

/// The bytes with which the path of a team's logo begins: `custom:custom_team_logo`.
pub const LOGO: [u8; 23] = [
    99,
    117,
    115,
    116,
    111,
    109,
    58,
    99,
    117,
    115,
    116,
    111,
    109,
    95,
    116,
    101,
    97,
    109,
    95,
    108,
    111,
    103,
    111,
];

/// The first index, not before `from`, at which `p` stands in `b`.
pub open spec fn bytes_at(b: Seq<u8>, p: Seq<u8>, from: int) -> Option<int>
    decreases b.len() + 1 - from,
{
    if from < 0 || from + p.len() > b.len() {
        None
    } else if b.subrange(from, from + p.len()) == p {
        Some(from)
    } else {
        bytes_at(b, p, from + 1)
    }
}

/// The longest name in a header, in bytes.
pub const MAX_NAME: usize = 40;

/// The team's name in a header whose logo path begins at `o`: of the texts of `n` bytes and
/// more that end one byte before the path, with their lengths in the byte before them, the
/// shortest that is clean.
pub open spec fn team_from(b: Seq<u8>, o: int, n: int) -> Seq<char>
    decreases MAX_NAME + 1 - n,
{
    if n > MAX_NAME || o < 2 + n {
        Seq::empty()
    } else {
        let text = clean_text(b.subrange(o - 1 - n, o - 1));
        if b[o - 2 - n] == n && text is Some {
            text->0
        } else {
            team_from(b, o, n + 1)
        }
    }
}

/// The manager's name in a header whose logo path begins at `o`: the text behind the path,
/// whose length is in the byte before it, with its own length in the byte before it.
pub open spec fn manager_at(b: Seq<u8>, o: int) -> Seq<char> {
    let after = o + b[o - 1] as int;
    if after < b.len() {
        let n = b[after] as int;
        if 1 <= n <= MAX_NAME && after + 1 + n <= b.len() {
            match clean_text(b.subrange(after + 1, after + 1 + n)) {
                Some(t) => t,
                None => Seq::empty(),
            }
        } else {
            Seq::empty()
        }
    } else {
        Seq::empty()
    }
}

/// The names of the team and of the manager in a save's header; empty where it has no path
/// of a logo.
pub open spec fn header_names(b: Seq<u8>) -> (Seq<char>, Seq<char>) {
    match bytes_at(b, LOGO@, 0) {
        Some(o) => (team_from(b, o, 1), manager_at(b, o)),
        None => (Seq::empty(), Seq::empty()),
    }
}

fn find_logo(b: &[u8]) -> (r: Option<usize>)
    ensures
        match r {
            Some(i) => bytes_at(b@, LOGO@, 0) == Some(i as int) && i + 23 <= b@.len(),
            None => bytes_at(b@, LOGO@, 0) is None,
        },
{
    let n: usize = b.len();
    if n < 23 {
        return None;
    }
    let last: usize = n - 23;
    let mut i: usize = 0;
    while i <= last
        invariant
            n == b@.len(),
            last == n - 23,
            bytes_at(b@, LOGO@, 0) == bytes_at(b@, LOGO@, i as int),
        decreases last + 1 - i,
    {
        let mut k: usize = 0;
        while k < 23 && b[i + k] == LOGO[k]
            invariant
                k <= 23,
                i <= last,
                n == b@.len(),
                last == n - 23,
                forall|j: int| 0 <= j < k ==> b@[i + j] == #[trigger] LOGO@[j],
            decreases 23 - k,
        {
            k += 1;
        }
        let ghost here = b@.subrange(i as int, i + 23);
        if k == 23 {
            assert(here =~= LOGO@);
            return Some(i);
        }
        assert(here[k as int] != LOGO@[k as int]);
        if i == last {
            assert(bytes_at(b@, LOGO@, i + 1) is None);
            return None;
        }
        i += 1;
    }
    None
}

/// The names of the team and of the manager in a save's header, which does not begin with
/// the path of the logo.
pub fn header_info(b: &[u8]) -> (r: (String, String))
    requires
        bytes_at(b@, LOGO@, 0) != Some(0int),
    ensures
        (r.0@, r.1@) == header_names(b@),
{
    match find_logo(b) {
        None => (String::new(), String::new()),
        Some(o) => {
            let mut team = String::new();
            let mut n: usize = 1;
            let mut found = false;
            while !found && n <= MAX_NAME && o >= 2 + n
                invariant
                    1 <= n <= MAX_NAME + 1,
                    o + 23 <= b@.len(),
                    !found ==> team_from(b@, o as int, 1) == team_from(b@, o as int, n as int)
                        && team@.len() == 0,
                    found ==> team@ == team_from(b@, o as int, 1),
                decreases MAX_NAME + 1 - n,
            {
                let at: usize = o - 2 - n;
                if b[at] as usize == n {
                    if let Some(s) = clean_str(vstd::slice::slice_subrange(b, at + 1, at + 1 + n)) {
                        team = s;
                        found = true;
                    }
                }
                n += 1;
            }
            assert(!found ==> team_from(b@, o as int, 1) =~= Seq::empty());
            assert(team@ == team_from(b@, o as int, 1));
            let mut manager = String::new();
            let path: usize = b[o - 1] as usize;
            if path < b.len() - o {
                let after: usize = o + path;
                let m: usize = b[after] as usize;
                if 1 <= m && m <= MAX_NAME && m <= b.len() - after - 1 {
                    if let Some(s) = clean_str(
                        vstd::slice::slice_subrange(b, after + 1, after + 1 + m),
                    ) {
                        manager = s;
                    }
                }
            }
            assert(manager@ =~= manager_at(b@, o as int));
            (team, manager)
        },
    }
}

/// A header as the game writes it: some bytes, the team's name with its length before it, the
/// path of the logo with its length before it, the manager's name with its length before it,
/// and some more bytes.
pub open spec fn header(
    front: Seq<u8>,
    team: Seq<u8>,
    path: Seq<u8>,
    manager: Seq<u8>,
    rest: Seq<u8>,
) -> Seq<u8> {
    front + seq![team.len() as u8] + team + seq![path.len() as u8] + path + seq![
        manager.len() as u8,
    ] + manager + rest
}

/// Whether the last `n` bytes before `end` read as a name of their own: they are clean, and
/// the byte before them is their number.
pub open spec fn reads_as_name(b: Seq<u8>, end: int, n: int) -> bool {
    b[end - n - 1] == n && clean_text(b.subrange(end - n, end)) is Some
}

proof fn lemma_team_found(b: Seq<u8>, o: int, n: int, len: int)
    requires
        1 <= n <= len <= MAX_NAME,
        o >= 2 + len,
        o <= b.len(),
        reads_as_name(b, o - 1, len),
        forall|k: int| 1 <= k < len ==> !#[trigger] reads_as_name(b, o - 1, k),
    ensures
        team_from(b, o, n) == clean_text(b.subrange(o - 1 - len, o - 1))->0,
    decreases len - n,
{
    if n < len {
        assert(!reads_as_name(b, o - 1, n));
        lemma_team_found(b, o, n + 1, len);
    }
}

/// From a header as the game writes it come the names of the team and of the manager, where
/// the logo's path is first found in its place, the names are clean and the end of the team's
/// name does not read as a name of its own.
pub proof fn law_header_names(
    front: Seq<u8>,
    team: Seq<u8>,
    path: Seq<u8>,
    manager: Seq<u8>,
    rest: Seq<u8>,
)
    requires
        1 <= team.len() <= 40,
        1 <= manager.len() <= 40,
        path.len() <= 255,
        clean_text(team) is Some,
        clean_text(manager) is Some,
        forall|n: int|
            1 <= n < team.len() ==> !#[trigger] reads_as_name(team, team.len() as int, n),
        bytes_at(header(front, team, path, manager, rest), LOGO@, 0) == Some(
            front.len() + team.len() + 2int,
        ),
    ensures
        header_names(header(front, team, path, manager, rest)) == (
            clean_text(team)->0,
            clean_text(manager)->0,
        ),
{
    let b = header(front, team, path, manager, rest);
    let o = front.len() + team.len() + 2int;
    let len = team.len() as int;
    assert(b.subrange(o - 1 - len, o - 1) =~= team);
    assert(b[o - 2 - len] == len);
    assert forall|k: int| 1 <= k < len implies !#[trigger] reads_as_name(b, o - 1, k) by {
        assert(!reads_as_name(team, len, k));
        assert(b[o - 2 - k] == team[len - 1 - k]);
        assert(b.subrange(o - 1 - k, o - 1) =~= team.subrange(len - k, len));
    }
    lemma_team_found(b, o, 1, len);
    let after = o + path.len();
    assert(b[o - 1] == path.len() as u8);
    assert(b[after] == manager.len() as u8);
    assert(b.subrange(after + 1, after + 1 + manager.len()) =~= manager);
}

/// The part of a text between two byte indices.
pub open spec fn byte_part(s: Seq<char>, from: int, to: int) -> Seq<char> {
    decode_utf8(encode_utf8(s).subrange(from, to))
}

/// A save's name without `save_` before it and `.data` behind it.
pub open spec fn bare_name(name: Seq<char>) -> Seq<char> {
    let s = match after_prefix(name, "save_"@) {
        Some(t) => t,
        None => name,
    };
    if ends(s, ".data"@) {
        s.take(s.len() - ".data"@.len())
    } else {
        s
    }
}

/// The date and the time in a save's name: eight bytes, an underscore and at least four more.
pub open spec fn date_and_time(name: Seq<char>) -> Option<(Seq<char>, Seq<char>)> {
    match parted(bare_name(name), '_') {
        Some((d, t)) => if encode_utf8(d).len() == 8 && encode_utf8(t).len() >= 4 {
            Some((d, t))
        } else {
            None
        },
        None => None,
    }
}

/// Whether a text has no character across a byte index.
pub open spec fn cuts_at(s: Seq<char>, i: int) -> bool {
    is_char_boundary(encode_utf8(s), i)
}

/// Whether the date and the time in a save's name, where it has them, can be cut into month,
/// day, hour and minute.
pub open spec fn datable(name: Seq<char>) -> bool {
    date_and_time(name) matches Some((d, t)) ==> cuts_at(d, 4) && cuts_at(d, 6) && cuts_at(t, 2)
        && cuts_at(t, 4)
}

/// How a save is dated: month, day, hour and minute where its name has them, else its bare
/// name.
pub open spec fn dated(name: Seq<char>) -> Seq<char> {
    match date_and_time(name) {
        Some((d, t)) => byte_part(d, 4, 6) + "-"@ + byte_part(d, 6, 8) + " "@ + byte_part(t, 0, 2)
            + ":"@ + byte_part(t, 2, 4),
        None => bare_name(name),
    }
}

fn read_bare_name(name: &str) -> (r: String)
    ensures
        r@ == bare_name(name@),
{
    let s = match strip_prefix(name, "save_") {
        Some(t) => t,
        None => name.to_owned(),
    };
    if ends_with(s.as_str(), ".data") {
        let c = chars_of(s.as_str());
        let k = chars_of(".data");
        let t = text_between(c.as_slice(), 0, c.len() - k.len());
        assert(t@ =~= s@.take(s@.len() - ".data"@.len()));
        t
    } else {
        s
    }
}

/// The part of a text between two byte indices that cut no character.
fn bytes_between(s: &str, from: usize, to: usize) -> (r: String)
    requires
        from <= to <= encode_utf8(s@).len(),
        cuts_at(s@, from as int),
        cuts_at(s@, to as int),
    ensures
        r@ == byte_part(s@, from as int, to as int),
{
    let ghost b = encode_utf8(s@);
    let (front, _) = s.split_at(to);
    let ghost f = encode_utf8(front@);
    proof {
        encode_utf8_valid_utf8(s@);
        encode_utf8_valid_utf8(front@);
        assert(f == b.subrange(0, to as int));
        if from < to {
            is_char_boundary_iff_not_is_continuation_byte(b, from as int);
            is_char_boundary_iff_not_is_continuation_byte(f, from as int);
            assert(f[from as int] == b[from as int]);
        } else {
            is_char_boundary_start_end_of_seq(f);
        }
    }
    let (_, part) = front.split_at(from);
    proof {
        assert(encode_utf8(part@) =~= b.subrange(from as int, to as int));
        encode_utf8_decode_utf8(part@);
    }
    part.to_owned()
}

fn read_date(name: &str) -> (r: Option<(String, String)>)
    ensures
        match r {
            Some((d, t)) => date_and_time(name@) == Some((d@, t@)),
            None => date_and_time(name@) is None,
        },
{
    let s = read_bare_name(name);
    match split_once(s.as_str(), '_') {
        Some((d, t)) => if d.as_str().as_bytes().len() == 8 && t.as_str().as_bytes().len() >= 4 {
            Some((d, t))
        } else {
            None
        },
        None => None,
    }
}

/// Whether the date and the time in a save's name, where it has them, can be cut into month,
/// day, hour and minute.
pub fn can_date(name: &str) -> (r: bool)
    ensures
        r == datable(name@),
{
    match read_date(name) {
        Some((d, t)) => d.as_str().is_char_boundary(4) && d.as_str().is_char_boundary(6)
            && t.as_str().is_char_boundary(2) && t.as_str().is_char_boundary(4),
        None => true,
    }
}

/// How a save is dated.
pub fn fmt_date(name: &str) -> (r: String)
    requires
        datable(name@),
    ensures
        r@ == dated(name@),
{
    match read_date(name) {
        Some((d, t)) => {
            proof {
                encode_utf8_valid_utf8(d@);
                encode_utf8_valid_utf8(t@);
                is_char_boundary_start_end_of_seq(encode_utf8(d@));
                is_char_boundary_start_end_of_seq(encode_utf8(t@));
            }
            let mut r = bytes_between(d.as_str(), 4, 6);
            r.append("-");
            r.append(bytes_between(d.as_str(), 6, 8).as_str());
            r.append(" ");
            r.append(bytes_between(t.as_str(), 0, 2).as_str());
            r.append(":");
            r.append(bytes_between(t.as_str(), 2, 4).as_str());
            r
        },
        None => read_bare_name(name),
    }
}

/// A save in the list of saves.
pub struct SaveEntry {
    pub time: u128,
    pub name: String,
    /// The matches of its current patch, where they were counted.
    pub count: Option<u32>,
    /// Its size in mebibytes.
    pub mb: u64,
    pub team: String,
    pub manager: String,
}

/// The line of a save in the list of saves.
pub open spec fn entry_line(e: SaveEntry) -> Seq<char> {
    e.name@ + "\t"@ + (match e.count {
        Some(n) => decimal(n as nat),
        None => "?"@,
    }) + "\t"@ + decimal(e.mb as nat) + "\t"@ + e.team@ + "\t"@ + e.manager@
}

/// The times of some saves.
pub open spec fn entry_times(entries: Seq<SaveEntry>) -> Seq<u128> {
    Seq::new(entries.len(), |i: int| entries[i].time)
}

/// The list of some saves, from the latest to the earliest.
pub open spec fn saves_text(entries: Seq<SaveEntry>) -> Seq<char> {
    with_feeds(by_key(entry_times(entries)).map_values(|i: int| entry_line(entries[i])))
}

/// The list of some saves, from the latest to the earliest.
pub fn write_saves_list(entries: &Vec<SaveEntry>) -> (r: String)
    ensures
        r@ == saves_text(entries@),
{
    let mut times: Vec<u128> = Vec::new();
    let mut i: usize = 0;
    while i < entries.len()
        invariant
            i <= entries@.len(),
            times@.len() == i,
            forall|j: int| 0 <= j < i ==> #[trigger] times@[j] == entries@[j].time,
        decreases entries@.len() - i,
    {
        times.push(entries[i].time);
        i += 1;
    }
    assert(times@ =~= entry_times(entries@));
    let order = rank_keys(&times);
    let ghost o = by_key(times@);
    assert(forall|k: int| 0 <= k < o.len() ==> #[trigger] o[k] == order@[k]);
    let mut rows: Vec<String> = Vec::new();
    let mut k: usize = 0;
    while k < order.len()
        invariant
            k <= order@.len(),
            o.len() == order@.len(),
            forall|j: int| 0 <= j < o.len() ==> #[trigger] o[j] == order@[j],
            forall|j: int| 0 <= j < order@.len() ==> #[trigger] order@[j] < entries@.len(),
            rows@.len() == k,
            forall|j: int| 0 <= j < k ==> #[trigger] rows@[j]@ == entry_line(entries@[o[j]]),
        decreases order@.len() - k,
    {
        assert(o[k as int] == order@[k as int]);
        let e = &entries[order[k]];
        let mut t = e.name.clone();
        t.append("\t");
        match e.count {
            Some(n) => {
                t.append(to_decimal(n as u64).as_str());
            },
            None => {
                t.append("?");
            },
        }
        t.append("\t");
        t.append(to_decimal(e.mb).as_str());
        t.append("\t");
        t.append(e.team.as_str());
        t.append("\t");
        t.append(e.manager.as_str());
        rows.push(t);
        k += 1;
    }
    assert(rows.deep_view() =~= o.map_values(|i: int| entry_line(entries@[i])));
    to_lines(&rows)
}

/// The field at place `i`, or `default` where there are fewer.
pub open spec fn field_or(f: Seq<Seq<char>>, i: int, default: Seq<char>) -> Seq<char> {
    if i < f.len() {
        f[i]
    } else {
        default
    }
}

/// How a save is shown, given the fields of its line: manager and team, date, size and
/// matches, as far as they are known.
pub open spec fn save_label(f: Seq<Seq<char>>) -> Seq<char> {
    let count = field_or(f, 1, "?"@);
    let mb = field_or(f, 2, "?"@);
    let team = trimmed(field_or(f, 3, Seq::empty()));
    let manager = trimmed(field_or(f, 4, Seq::empty()));
    let who = if manager.len() == 0 {
        team
    } else if team.len() == 0 {
        manager
    } else {
        manager + " ("@ + team + ")"@
    };
    let front = if who.len() == 0 {
        Seq::empty()
    } else {
        who + " · "@
    };
    let back = if count == "?"@ {
        Seq::empty()
    } else {
        " · "@ + count + "판"@
    };
    front + dated(f[0]) + " · "@ + mb + "MB"@ + back
}

/// The saves of some lines, each with its name and how it is shown; a line without a name
/// says nothing.
pub open spec fn saves_of(lines: Seq<Seq<char>>) -> Seq<(Seq<char>, Seq<char>)>
    decreases lines.len(),
{
    if lines.len() == 0 {
        Seq::empty()
    } else {
        let front = saves_of(lines.drop_last());
        let f = pieces(lines.last(), '\t');
        if f[0].len() == 0 {
            front
        } else {
            front.push((f[0], save_label(f)))
        }
    }
}

/// Whether the date of every save of a list can be cut.
pub open spec fn all_datable(lines: Seq<Seq<char>>) -> bool {
    forall|i: int| 0 <= i < lines.len() ==> datable(pieces(#[trigger] lines[i], '\t')[0])
}

/// Names and labels of some saves.
pub open spec fn shown_saves(v: Seq<(String, String)>) -> Seq<(Seq<char>, Seq<char>)> {
    Seq::new(v.len(), |i: int| (v[i].0@, v[i].1@))
}

fn write_label(f: &Vec<String>) -> (r: String)
    requires
        f@.len() >= 1,
        datable(f@[0]@),
    ensures
        r@ == save_label(f.deep_view()),
{
    let ghost d = f.deep_view();
    assert(forall|i: int| 0 <= i < d.len() ==> #[trigger] d[i] == f@[i]@);
    let count = if f.len() > 1 {
        f[1].as_str()
    } else {
        "?"
    };
    let mb = if f.len() > 2 {
        f[2].as_str()
    } else {
        "?"
    };
    let team = if f.len() > 3 {
        trim(f[3].as_str())
    } else {
        trim("")
    };
    let manager = if f.len() > 4 {
        trim(f[4].as_str())
    } else {
        trim("")
    };
    proof {
        reveal_strlit("");
        assert(""@ =~= Seq::<char>::empty());
    }
    let who = if manager.as_str().is_empty() {
        team
    } else if team.as_str().is_empty() {
        manager
    } else {
        let mut both = manager;
        both.append(" (");
        both.append(team.as_str());
        both.append(")");
        both
    };
    let ghost back = if count@ == "?"@ {
        Seq::empty()
    } else {
        " · "@ + count@ + "판"@
    };
    let mut r = who;
    if !r.as_str().is_empty() {
        r.append(" · ");
    }
    r.append(fmt_date(f[0].as_str()).as_str());
    r.append(" · ");
    r.append(mb);
    r.append("MB");
    let ghost sofar = r@;
    if !same_text(count, "?") {
        r.append(" · ");
        r.append(count);
        r.append("판");
    }
    assert(r@ =~= sofar + back);
    r
}

/// The saves of a list, each with its name and how it is shown.
pub fn load_saves(text: &str) -> (r: Vec<(String, String)>)
    requires
        all_datable(line_seq(text@)),
    ensures
        shown_saves(r@) == saves_of(line_seq(text@)),
{
    let ls = lines(text);
    let ghost all = line_seq(text@);
    let mut r: Vec<(String, String)> = Vec::new();
    let mut i: usize = 0;
    assert(all.take(0) == Seq::<Seq<char>>::empty());
    while i < ls.len()
        invariant
            i <= ls@.len(),
            ls.deep_view() == all,
            all_datable(all),
            shown_saves(r@) == saves_of(all.take(i as int)),
        decreases ls@.len() - i,
    {
        assert(all[i as int] == ls@[i as int]@);
        assert(all.take(i + 1).drop_last() == all.take(i as int));
        let f = split_on(ls[i].as_str(), '\t');
        assert(f.deep_view()[0] == f@[0]@);
        assert(datable(pieces(all[i as int], '\t')[0]));
        let ghost sofar = shown_saves(r@);
        if !f[0].as_str().is_empty() {
            let label = write_label(&f);
            let ghost e = (f@[0]@, label@);
            r.push((f[0].clone(), label));
            assert(shown_saves(r@) =~= sofar.push(e));
        }
        i += 1;
    }
    assert(all.take(i as int) == all);
    r
}

/// Whether the date of every save of a list can be cut.
pub fn can_date_all(text: &str) -> (r: bool)
    ensures
        r == all_datable(line_seq(text@)),
{
    let ls = lines(text);
    let ghost all = line_seq(text@);
    let mut i: usize = 0;
    while i < ls.len()
        invariant
            i <= ls@.len(),
            ls.deep_view() == all,
            all == line_seq(text@),
            forall|j: int| 0 <= j < i ==> datable(pieces(#[trigger] all[j], '\t')[0]),
        decreases ls@.len() - i,
    {
        assert(all[i as int] == ls@[i as int]@);
        let f = split_on(ls[i].as_str(), '\t');
        assert(f.deep_view()[0] == f@[0]@);
        if !can_date(f[0].as_str()) {
            return false;
        }
        i += 1;
    }
    true
}

/// The place of a pin in the list of saves, from 1 on; 0 where nothing is pinned that is in
/// the list.
pub open spec fn pin_place(saves: Seq<(Seq<char>, Seq<char>)>, pin: Seq<char>) -> nat
    decreases saves.len(),
{
    if pin.len() == 0 || saves.len() == 0 {
        0
    } else if saves[0].0 == pin {
        1
    } else {
        let rest = pin_place(saves.skip(1), pin);
        if rest == 0 {
            0
        } else {
            rest + 1
        }
    }
}

/// The pin that a choice from the list of saves makes: none for place 0, which is the latest
/// save.
pub open spec fn pin_chosen(saves: Seq<(Seq<char>, Seq<char>)>, sel: int) -> Seq<char> {
    if 1 <= sel <= saves.len() {
        saves[sel - 1].0
    } else {
        Seq::empty()
    }
}

/// The place of a pin in the list of saves.
pub fn sel_from_pin(saves: &Vec<(String, String)>, pin: &str) -> (r: usize)
    requires
        saves@.len() < usize::MAX,
    ensures
        r == pin_place(shown_saves(saves@), pin@),
{
    let ghost all = shown_saves(saves@);
    if pin.is_empty() {
        return 0;
    }
    let mut i: usize = 0;
    assert(all.skip(0) == all);
    while i < saves.len()
        invariant
            i <= saves@.len() < usize::MAX,
            pin@.len() > 0,
            all == shown_saves(saves@),
            pin_place(all, pin@) == (if pin_place(all.skip(i as int), pin@) == 0 {
                0
            } else {
                pin_place(all.skip(i as int), pin@) + i
            }),
        decreases saves@.len() - i,
    {
        assert(all.skip(i as int)[0] == all[i as int]);
        assert(all.skip(i as int).skip(1) == all.skip(i + 1));
        if same_text(saves[i].0.as_str(), pin) {
            return i + 1;
        }
        i += 1;
    }
    0
}

/// The pin that a choice from the list of saves makes.
pub fn new_pin(saves: &Vec<(String, String)>, sel: usize) -> (r: String)
    ensures
        r@ == pin_chosen(shown_saves(saves@), sel as int),
{
    if sel == 0 || sel > saves.len() {
        String::new()
    } else {
        saves[sel - 1].0.clone()
    }
}

proof fn lemma_pin_found(saves: Seq<(Seq<char>, Seq<char>)>, i: int)
    requires
        0 <= i < saves.len(),
        saves[i].0.len() > 0,
        forall|j: int| 0 <= j < i ==> (#[trigger] saves[j]).0 != saves[i].0,
    ensures
        pin_place(saves, saves[i].0) == i + 1,
    decreases i,
{
    if i > 0 {
        assert(saves[0].0 != saves[i].0);
        let rest = saves.skip(1);
        assert(forall|j: int| 0 <= j < rest.len() ==> #[trigger] rest[j] == saves[j + 1]);
        lemma_pin_found(rest, i - 1);
    }
}

/// Choosing a save from the list pins it: the list shows the pin at the place chosen, where
/// the names are not empty and differ; choosing place 0 pins nothing.
pub proof fn law_choice_is_shown(saves: Seq<(Seq<char>, Seq<char>)>, sel: int)
    requires
        0 <= sel <= saves.len(),
        forall|j: int| 0 <= j < saves.len() ==> (#[trigger] saves[j]).0.len() > 0,
        forall|i: int, j: int|
            0 <= i < j < saves.len() ==> (#[trigger] saves[i]).0 != (#[trigger] saves[j]).0,
    ensures
        pin_place(saves, pin_chosen(saves, sel)) == sel,
{
    if sel > 0 {
        lemma_pin_found(saves, sel - 1);
    }
}

/// The fields of a save's line in the list of saves.
pub open spec fn entry_fields(e: SaveEntry) -> Seq<Seq<char>> {
    seq![
        e.name@,
        (match e.count {
            Some(n) => decimal(n as nat),
            None => "?"@,
        }),
        decimal(e.mb as nat),
        e.team@,
        e.manager@,
    ]
}

/// Whether the texts of a save can stand between tabs in a line, and it has a name.
pub open spec fn listable(e: SaveEntry) -> bool {
    is_field(e.name@) && e.name@.len() > 0 && is_field(e.team@) && is_field(e.manager@)
}

proof fn lemma_entry_is_read(e: SaveEntry)
    requires
        listable(e),
    ensures
        is_line(entry_line(e)),
        pieces(entry_line(e), '\t') == entry_fields(e),
{
    reveal_strlit("\t");
    reveal_strlit("?");
    let f = entry_fields(e);
    assert("\t"@ =~= seq!['\t']);
    lemma_decimal_digits(e.mb as nat);
    if let Some(n) = e.count {
        lemma_decimal_digits(n as nat);
    }
    assert forall|i: int| 0 <= i < f.len() implies is_field(#[trigger] f[i]) by {
        if i == 1 || i == 2 {
            assert forall|k: int| 0 <= k < f[i].len() implies #[trigger] f[i][k] != '\t' && f[i][k]
                != '\n' && f[i][k] != '\r' by {
                if i == 2 || e.count is Some {
                    assert(is_digit(f[i][k]));
                }
            }
        }
    }
    reveal_with_fuel(joined, 6);
    assert(f.drop_last() =~= seq![f[0], f[1], f[2], f[3]]);
    assert(f.drop_last().drop_last() =~= seq![f[0], f[1], f[2]]);
    assert(f.drop_last().drop_last().drop_last() =~= seq![f[0], f[1]]);
    assert(f.drop_last().drop_last().drop_last().drop_last() =~= seq![f[0]]);
    assert(entry_line(e) =~= joined(f, "\t"@));
    assert forall|i: int| 0 <= i < f.len() implies lacks(#[trigger] f[i], '\t') by {
        assert(is_field(f[i]));
    }
    law_joined_is_cut(f, '\t');
    lemma_joined_line(f, "\t"@);
    let l = entry_line(e);
    if l.len() > 0 {
        assert(l[l.len() - 1] != '\r');
    }
}

proof fn lemma_saves_read(entries: Seq<SaveEntry>, order: Seq<int>)
    requires
        forall|k: int| 0 <= k < order.len() ==> 0 <= #[trigger] order[k] < entries.len(),
        forall|i: int| 0 <= i < entries.len() ==> listable(#[trigger] entries[i]),
    ensures
        saves_of(order.map_values(|i: int| entry_line(entries[i]))) == order.map_values(
            |i: int| (entries[i].name@, save_label(entry_fields(entries[i]))),
        ),
    decreases order.len(),
{
    let ls = order.map_values(|i: int| entry_line(entries[i]));
    let shown = order.map_values(
        |i: int| (entries[i].name@, save_label(entry_fields(entries[i]))),
    );
    if order.len() > 0 {
        let front = order.drop_last();
        assert(forall|k: int| 0 <= k < front.len() ==> #[trigger] front[k] == order[k]);
        lemma_saves_read(entries, front);
        assert(ls.drop_last() =~= front.map_values(|i: int| entry_line(entries[i])));
        let e = entries[order[order.len() - 1]];
        assert(listable(e));
        lemma_entry_is_read(e);
        assert(shown =~= front.map_values(
            |i: int| (entries[i].name@, save_label(entry_fields(entries[i]))),
        ).push((e.name@, save_label(entry_fields(e)))));
    } else {
        assert(saves_of(ls) =~= shown);
    }
}

/// The list of saves is read as it was written: the saves from the latest to the earliest,
/// each with its name and how it is shown.
pub proof fn law_saves_list_is_read(entries: Seq<SaveEntry>)
    requires
        forall|i: int| 0 <= i < entries.len() ==> listable(#[trigger] entries[i]),
    ensures
        saves_of(line_seq(saves_text(entries))) == by_key(entry_times(entries)).map_values(
            |i: int| (entries[i].name@, save_label(entry_fields(entries[i]))),
        ),
{
    let times = entry_times(entries);
    let order = by_key(times);
    law_ranked_keeps(|x: int, y: int| times[x] > times[y], times.len());
    let ls = order.map_values(|i: int| entry_line(entries[i]));
    assert forall|k: int| 0 <= k < ls.len() implies is_line(#[trigger] ls[k]) by {
        assert(listable(entries[order[k]]));
        lemma_entry_is_read(entries[order[k]]);
    }
    law_lines_read_back(ls);
    lemma_saves_read(entries, order);
}

/// A file is a save if and only if its name begins with `save_2` and ends with `.data`.
pub proof fn law_names_save(x: Seq<char>, name: Seq<char>)
    ensures
        names_save("save_2"@ + x + ".data"@),
        names_save(name) ==> begins(name, "save_2"@) && ends(name, ".data"@),
        !begins(name, "save_2"@) || !ends(name, ".data"@) ==> !names_save(name),
{
    crate::text::law_begins_and_ends("save_2"@, x + ".data"@, name);
    crate::text::law_begins_and_ends(".data"@, "save_2"@ + x, name);
    assert("save_2"@ + (x + ".data"@) =~= "save_2"@ + x + ".data"@);
}

proof fn lemma_last_dot(a: Seq<char>, ext: Seq<char>)
    requires
        lacks(ext, '.'),
    ensures
        last_dot(a + seq!['.'] + ext) == a.len(),
        last_dot(ext) == -1,
    decreases ext.len(),
{
    let s = a + seq!['.'] + ext;
    if ext.len() > 0 {
        let front = ext.drop_last();
        assert(forall|i: int| 0 <= i < front.len() ==> #[trigger] front[i] == ext[i]);
        lemma_last_dot(a, front);
        assert(ext[ext.len() - 1] != '.');
        assert(s.drop_last() =~= a + seq!['.'] + front);
    } else {
        assert(s.last() == '.');
    }
}

/// A file's stem is what stands before its last dot, where something does, and else all of its
/// name; it is a cache if and only if `tsv` stands behind that dot.
pub proof fn law_stem(a: Seq<char>, ext: Seq<char>)
    requires
        lacks(ext, '.'),
    ensures
        a.len() > 0 ==> stem_of(a + seq!['.'] + ext) == a,
        stem_of(seq!['.'] + ext) == seq!['.'] + ext,
        ext.len() > 0 ==> stem_of(ext) == ext,
        stem_of(Seq::empty()) == "save"@,
        a.len() > 0 ==> (names_cache(a + seq!['.'] + ext) <==> ext == "tsv"@),
        !names_cache(seq!['.'] + ext),
        !names_cache(ext),
{
    let s = a + seq!['.'] + ext;
    lemma_last_dot(a, ext);
    lemma_last_dot(Seq::empty(), ext);
    assert(Seq::<char>::empty() + seq!['.'] + ext =~= seq!['.'] + ext);
    assert(s.take(a.len() as int) =~= a);
    assert(s.skip((a.len() + 1) as int) =~= ext);
}

/// Of several saves that were written last the first counts.
pub proof fn law_latest_is_first(files: Seq<Listed>, n: nat)
    requires
        n <= files.len(),
    ensures
        latest_save(files, n) matches Some(b) ==> forall|i: int|
            0 <= i < b && names_save((#[trigger] files[i]).0@) && files[i].1 is Some
                ==> files[i].1->0 < files[b].1->0,
    decreases n,
{
    if n > 0 {
        law_latest_save(files, (n - 1) as nat);
        law_latest_is_first(files, (n - 1) as nat);
    }
}

/// Of the caches 40 stay, or all; a file that is no cache is never removed.
pub proof fn law_forty_caches_stay(files: Seq<Listed>, i: int)
    ensures
        ({
            let all = cache_places(files, files.len());
            let gone = stale_caches(files);
            &&& all.len() <= 40 ==> gone.len() == 0
            &&& all.len() > 40 ==> gone.len() + 40 == all.len()
            &&& gone.contains(i) ==> 0 <= i < files.len() && names_cache(files[i].0@)
                && files[i].1 is Some
            &&& all.contains(i) <==> 0 <= i < files.len() && names_cache(files[i].0@)
                && files[i].1 is Some
        }),
{
    law_newest_caches_stay(files);
    lemma_cache_places(files, files.len());
    let all = cache_places(files, files.len());
    if all.contains(i) {
        let k = choose|k: int| 0 <= k < all.len() && all[k] == i;
        assert(0 <= all[k] < files.len());
    }
}

/// A pin names what is left of it without white space around it, and nothing where that is
/// nothing.
pub proof fn law_pinned(pin: Seq<char>)
    ensures
        trimmed(pin).len() > 0 ==> pinned_name(pin) == Some(trimmed(pin)),
        trimmed(pin).len() == 0 ==> pinned_name(pin) is None,
{
}

/// A name is read if it is not empty and no character is below the space or from the delete
/// character to the application program command; its bytes then are those of its text.
pub proof fn law_clean_text(t: Seq<char>, i: int)
    ensures
        clean_text(encode_utf8(t)) is Some ==> clean_text(encode_utf8(t)) == Some(t) && t.len() > 0,
        t.len() > 0 && (forall|k: int|
            0 <= k < t.len() ==> (' ' <= #[trigger] t[k] <= '~' || t[k] >= '\u{a0}'))
            ==> clean_text(encode_utf8(t)) == Some(t),
        0 <= i < t.len() && t[i] < ' ' ==> clean_text(encode_utf8(t)) is None,
        0 <= i < t.len() && '\u{7f}' <= t[i] <= '\u{9f}' ==> clean_text(encode_utf8(t)) is None,
        t.len() == 0 ==> clean_text(encode_utf8(t)) is None,
{
    vstd::utf8::encode_utf8_valid_utf8(t);
    vstd::utf8::encode_utf8_decode_utf8(t);
    if t.len() > 0 && (forall|k: int|
        0 <= k < t.len() ==> (' ' <= #[trigger] t[k] <= '~' || t[k] >= '\u{a0}')) {
        assert forall|k: int| 0 <= k < t.len() implies !control(#[trigger] t[k]) by {
            assert(' ' <= t[k] <= '~' || t[k] >= '\u{a0}');
        }
    }
    if 0 <= i < t.len() && (t[i] < ' ' || '\u{7f}' <= t[i] <= '\u{9f}') {
        assert(control(t[i]));
    }
}

/// A manager's name of no bytes, of more than 40, or of more than there are is not read; a
/// header without the path of a logo has no names.
pub proof fn law_odd_headers(b: Seq<u8>, o: int)
    requires
        0 < o <= b.len(),
    ensures
        bytes_at(b, LOGO@, 0) is None ==> header_names(b).0.len() == 0 && header_names(b).1.len()
            == 0,
        ({
            let after = o + b[o - 1] as int;
            &&& after >= b.len() ==> manager_at(b, o).len() == 0
            &&& after < b.len() && (b[after] == 0 || b[after] > 40 || after + 1 + b[after] > b.len())
                ==> manager_at(b, o).len() == 0
        }),
{
}

/// A further line of a list of saves with a name is one more save, under that name; one without
/// a name is none.
pub proof fn law_listed_saves(lines: Seq<Seq<char>>, line: Seq<char>)
    ensures
        saves_of(Seq::empty()).len() == 0,
        pieces(line, '\t')[0].len() == 0 ==> saves_of(lines.push(line)) == saves_of(lines),
        pieces(line, '\t')[0].len() > 0 ==> saves_of(lines.push(line)).len() == saves_of(
            lines,
        ).len() + 1 && saves_of(lines.push(line)).drop_last() == saves_of(lines) && saves_of(
            lines.push(line),
        ).last().0 == pieces(line, '\t')[0] && saves_of(lines.push(line)).last().1 == save_label(
            pieces(line, '\t'),
        ),
{
    assert(lines.push(line).drop_last() =~= lines);
    let front = saves_of(lines);
    let f = pieces(line, '\t');
    assert(front.push((f[0], save_label(f))).drop_last() =~= front);
}

/// What is shown of a save: the manager with the team in brackets, or the one of them that is
/// known, or neither; then its date and its size; then its matches where they are known.
pub proof fn law_save_label(
    name: Seq<char>,
    count: Seq<char>,
    mb: Seq<char>,
    team: Seq<char>,
    manager: Seq<char>,
)
    requires
        trimmed(team) == team,
        trimmed(manager) == manager,
    ensures
        ({
            let label = save_label(seq![name, count, mb, team, manager]);
            let body = dated(name) + " · "@ + mb + "MB"@;
            let tail = if count == "?"@ {
                Seq::empty()
            } else {
                " · "@ + count + "판"@
            };
            &&& team.len() == 0 && manager.len() == 0 ==> label == body + tail
            &&& team.len() > 0 && manager.len() == 0 ==> label == team + " · "@ + body + tail
            &&& team.len() == 0 && manager.len() > 0 ==> label == manager + " · "@ + body + tail
            &&& team.len() > 0 && manager.len() > 0 ==> label == manager + " ("@ + team + ")"@
                + " · "@ + body + tail
        }),
{
    let f = seq![name, count, mb, team, manager];
    let label = save_label(f);
    let body = dated(name) + " · "@ + mb + "MB"@;
    let tail = if count == "?"@ {
        Seq::empty()
    } else {
        " · "@ + count + "판"@
    };
    if team.len() == 0 && manager.len() == 0 {
        assert(label =~= body + tail);
    } else if manager.len() == 0 {
        assert(label =~= team + " · "@ + body + tail);
    } else if team.len() == 0 {
        assert(label =~= manager + " · "@ + body + tail);
    } else {
        assert(label =~= manager + " ("@ + team + ")"@ + " · "@ + body + tail);
    }
}

/// A pin is shown at the place of the first save of its name, from one on, and at place 0 where
/// it is empty or no save has it.
pub proof fn law_pin_place(saves: Seq<(Seq<char>, Seq<char>)>, pin: Seq<char>, i: int)
    ensures
        pin.len() == 0 ==> pin_place(saves, pin) == 0,
        (forall|j: int| 0 <= j < saves.len() ==> (#[trigger] saves[j]).0 != pin) ==> pin_place(
            saves,
            pin,
        ) == 0,
        pin.len() > 0 && 0 <= i < saves.len() && saves[i].0 == pin && (forall|j: int|
            0 <= j < i ==> (#[trigger] saves[j]).0 != pin) ==> pin_place(saves, pin) == i + 1,
        pin_chosen(saves, 0).len() == 0,
        0 <= i < saves.len() ==> pin_chosen(saves, i + 1) == saves[i].0,
        i >= saves.len() ==> pin_chosen(saves, i + 1).len() == 0,
    decreases saves.len(),
{
    if saves.len() > 0 {
        let rest = saves.skip(1);
        assert(forall|j: int| 0 <= j < rest.len() ==> #[trigger] rest[j] == saves[j + 1]);
        law_pin_place(rest, pin, i - 1);
        if forall|j: int| 0 <= j < saves.len() ==> (#[trigger] saves[j]).0 != pin {
            assert(saves[0].0 != pin);
        }
        if 0 < i < saves.len() && (forall|j: int| 0 <= j < i ==> (#[trigger] saves[j]).0 != pin) {
            assert(saves[0].0 != pin);
            assert(rest[i - 1] == saves[i]);
        }
    }
}

/// The lines of some saves, by their places.
pub open spec fn lines_at(entries: Seq<SaveEntry>, o: Seq<int>) -> Seq<Seq<char>> {
    Seq::new(o.len(), |k: int| entry_line(entries[o[k]]))
}

/// The list of saves has a line for each save, from the latest to the earliest, those of one
/// time in their order.
pub proof fn law_saves_are_listed(entries: Seq<SaveEntry>)
    ensures
        exists|o: Seq<int>|
            {
                &&& o.len() == entries.len()
                &&& o.no_duplicates()
                &&& forall|k: int| 0 <= k < o.len() ==> 0 <= #[trigger] o[k] < entries.len()
                &&& forall|j: int, k: int|
                    0 <= j < k < o.len() ==> entries[#[trigger] o[j]].time > entries[#[trigger] o[k]].time
                        || (entries[o[j]].time == entries[o[k]].time && o[j] < o[k])
                &&& saves_text(entries) == with_feeds(#[trigger] lines_at(entries, o))
            },
{
    let keys = entry_times(entries);
    let o = by_key(keys);
    law_keys_fall(keys);
    law_ranked_keeps(|x: int, y: int| keys[x] > keys[y], keys.len());
    assert(lines_at(entries, o) =~= o.map_values(|i: int| entry_line(entries[i])));
    assert forall|j: int, k: int| 0 <= j < k < o.len() implies entries[#[trigger] o[j]].time
        > entries[#[trigger] o[k]].time || (entries[o[j]].time == entries[o[k]].time && o[j] < o[k]) by {
        assert(keys[o[j]] == entries[o[j]].time);
        assert(keys[o[k]] == entries[o[k]].time);
    }
}

proof fn lemma_ascii_part(s: Seq<char>, from: int, to: int)
    requires
        vstd::utf8::is_ascii_chars(s),
        0 <= from <= to <= s.len(),
    ensures
        byte_part(s, from, to) == s.subrange(from, to),
        encode_utf8(s).len() == s.len(),
{
    let part = s.subrange(from, to);
    assert(vstd::utf8::is_ascii_chars(part));
    vstd::utf8::is_ascii_chars_encode_utf8(s);
    vstd::utf8::is_ascii_chars_encode_utf8(part);
    assert(encode_utf8(s).subrange(from, to) =~= encode_utf8(part)) by {
        assert forall|i: int| 0 <= i < to - from implies encode_utf8(s).subrange(from, to)[i]
            == encode_utf8(part)[i] by {
            assert(part[i] == s[from + i]);
            assert(s[from + i] as u8 == encode_utf8(s)[from + i]);
            assert(part[i] as u8 == encode_utf8(part)[i]);
        }
    }
    vstd::utf8::encode_utf8_decode_utf8(part);
}

/// A save of a name with a date of eight characters and a time of four or more is dated by month
/// and day, hour and minute; any other by its name without `save_` before and `.data` behind.
pub proof fn law_dated(d: Seq<char>, t: Seq<char>)
    requires
        vstd::utf8::is_ascii_chars(d),
        vstd::utf8::is_ascii_chars(t),
        lacks(d, '_'),
    ensures
        ({
            let name = "save_"@ + (d + seq!['_'] + t) + ".data"@;
            &&& d.len() == 8 && t.len() >= 4 ==> dated(name) == d.subrange(4, 6) + "-"@ + d.subrange(
                6,
                8,
            ) + " "@ + t.subrange(0, 2) + ":"@ + t.subrange(2, 4)
            &&& d.len() != 8 || t.len() < 4 ==> dated(name) == d + seq!['_'] + t
        }),
        dated("save_"@ + d + ".data"@) == d,
{
    let mid = d + seq!['_'] + t;
    lemma_bare_name(mid);
    lemma_bare_name(d);
    crate::text::law_parted(d, t, '_');
    vstd::utf8::is_ascii_chars_encode_utf8(d);
    vstd::utf8::is_ascii_chars_encode_utf8(t);
    if d.len() == 8 && t.len() >= 4 {
        lemma_ascii_part(d, 4, 6);
        lemma_ascii_part(d, 6, 8);
        lemma_ascii_part(t, 0, 2);
        lemma_ascii_part(t, 2, 4);
    }
}

proof fn lemma_bare_name(x: Seq<char>)
    ensures
        bare_name("save_"@ + x + ".data"@) == x,
{
    let name = "save_"@ + x + ".data"@;
    let s = x + ".data"@;
    assert(name =~= "save_"@ + s);
    crate::text::law_begins_and_ends("save_"@, s, name);
    crate::text::law_begins_and_ends(".data"@, x, s);
    assert(s.take(s.len() - ".data"@.len()) =~= x);
}

} // verus!
