//! The cached statistics of a save: how they are put together, kept in step with the pool,
//! and recognised as current.

use vstd::prelude::*;

use crate::champs::{CHAMPS, CHAMP_COUNT};
#[allow(unused_imports)]
use crate::champs::champ_id;
use crate::numeral::{parse_number, to_decimal};
#[allow(unused_imports)]
use crate::numeral::{decimal, law_decimal_reads_back, lemma_decimal_digits, number};
use crate::state::split_csv;
#[allow(unused_imports)]
use crate::state::listed;
use crate::text::{
    has_member,
    has_text,
    join,
    lines,
    starts_with,
    strip_prefix,
    to_lines,
    trim,
};
#[allow(unused_imports)]
use crate::text::{
    after_prefix,
    begins,
    has,
    is_line,
    joined,
    lacks,
    law_lines_read_back,
    lemma_lines_lack,
    lemma_lines_written,
    line_seq,
    trimmed,
    with_feeds,
    without_cr,
};

verus! {

/// The ids of the first `n` champions that stand between quotation marks in a text.
pub open spec fn quoted_champs(text: Seq<char>, n: nat) -> Seq<Seq<char>>
    decreases n,
{
    if n == 0 {
        Seq::empty()
    } else {
        let front = quoted_champs(text, (n - 1) as nat);
        let id = champ_id(n - 1);
        if has(text, "\""@ + id + "\""@) {
            front.push(id)
        } else {
            front
        }
    }
}

/// The champions that a save offers: those that appear in the printed data of the save,
/// given file by file.
pub fn compute_pool(files: &Vec<String>) -> (r: Vec<String>)
    ensures
        r.deep_view() == quoted_champs(with_feeds(files.deep_view()), CHAMP_COUNT as nat),
{
    let text = to_lines(files);
    let mut r: Vec<String> = Vec::new();
    let mut i: usize = 0;
    assert(r.deep_view() =~= Seq::empty());
    while i < CHAMP_COUNT
        invariant
            i <= CHAMP_COUNT,
            r.deep_view() == quoted_champs(text@, i as nat),
        decreases CHAMP_COUNT - i,
    {
        let ghost sofar = r.deep_view();
        let mut key = "\"".to_owned();
        key.append(CHAMPS[i].0);
        key.append("\"");
        if has_text(text.as_str(), key.as_str()) {
            r.push(CHAMPS[i].0.to_owned());
            assert(r.deep_view() =~= sofar.push(champ_id(i as int)));
        }
        i += 1;
    }
    r
}

/// The champions that the text of a pool lists, none where it lists nobody.
pub fn read_pool_txt(text: &str) -> (r: Option<Vec<String>>)
    ensures
        match r {
            Some(v) => v.deep_view() == listed(trimmed(text@)) && listed(trimmed(text@)).len() > 0,
            None => listed(trimmed(text@)).len() == 0,
        },
{
    let t = trim(text);
    let v = split_csv(t.as_str());
    assert(v.deep_view().len() == v@.len());
    if v.len() == 0 {
        None
    } else {
        Some(v)
    }
}

/// The row of a pool.
pub open spec fn pool_row(pool: Seq<Seq<char>>) -> Seq<char> {
    "POOL\t"@ + joined(pool, ","@)
}

fn write_pool_row(pool: &Vec<String>) -> (r: String)
    ensures
        r@ == pool_row(pool.deep_view()),
{
    let mut r = "POOL\t".to_owned();
    r.append(join(pool, ",").as_str());
    r
}

/// The first place, not before `from`, of a row of a pool; the number of rows where there is
/// none.
pub open spec fn pool_place(rows: Seq<Seq<char>>, from: int) -> int
    decreases rows.len() - from,
{
    if from >= rows.len() || begins(rows[from], "POOL\t"@) {
        from
    } else {
        pool_place(rows, from + 1)
    }
}

/// The rows with another pool: its row in place of the one that is there, or at the end;
/// nothing where it is there already.
pub open spec fn synced(rows: Seq<Seq<char>>, row: Seq<char>) -> Option<Seq<Seq<char>>> {
    if rows.contains(row) {
        None
    } else {
        let i = pool_place(rows, 0);
        Some(
            if i < rows.len() {
                rows.update(i, row)
            } else {
                rows.push(row)
            },
        )
    }
}

/// What `synced` gives, as a text.
pub open spec fn synced_text(content: Seq<char>, pool: Seq<Seq<char>>) -> Option<Seq<char>> {
    match synced(line_seq(content), pool_row(pool)) {
        Some(rows) => Some(with_feeds(rows)),
        None => None,
    }
}

proof fn lemma_pool_place(rows: Seq<Seq<char>>, from: int)
    requires
        0 <= from <= rows.len(),
    ensures
        from <= pool_place(rows, from) <= rows.len(),
    decreases rows.len() - from,
{
    if from < rows.len() && !begins(rows[from], "POOL\t"@) {
        lemma_pool_place(rows, from + 1);
    }
}

/// Statistics with another pool, or nothing where they have this pool already.
pub fn sync_pool(content: &str, pool: &Vec<String>) -> (r: Option<String>)
    ensures
        crate::text::opt_text(r) == synced_text(content@, pool.deep_view()),
{
    let row = write_pool_row(pool);
    let mut rows = lines(content);
    let ghost d = line_seq(content@);
    if has_member(&rows, row.as_str()) {
        return None;
    }
    let mut i: usize = 0;
    while i < rows.len() && !starts_with(rows[i].as_str(), "POOL\t")
        invariant
            i <= rows@.len(),
            d == rows.deep_view(),
            pool_place(d, 0) == pool_place(d, i as int),
        decreases rows@.len() - i,
    {
        assert(d[i as int] == rows@[i as int]@);
        i += 1;
    }
    assert(i < rows@.len() ==> d[i as int] == rows@[i as int]@);
    assert(pool_place(d, 0) == i);
    if i < rows.len() {
        rows[i] = row;
        assert(rows.deep_view() =~= d.update(i as int, row@));
    } else {
        rows.push(row);
        assert(rows.deep_view() =~= d.push(row@));
    }
    Some(to_lines(&rows))
}

/// A pool that was just put in is there: its row is among the new rows, which a further
/// `synced` leaves as they are.
pub proof fn law_synced_once(rows: Seq<Seq<char>>, row: Seq<char>)
    ensures
        synced(rows, row) matches Some(new) ==> new.contains(row) && synced(new, row) is None,
{
    lemma_pool_place(rows, 0);
    if let Some(new) = synced(rows, row) {
        let i = pool_place(rows, 0);
        if i < rows.len() {
            assert(new[i] == row);
        } else {
            assert(new[rows.len() as int] == row);
        }
    }
}

/// Putting a pool in changes one row at most, and adds one at most.
pub proof fn law_synced_keeps(rows: Seq<Seq<char>>, row: Seq<char>)
    ensures
        synced(rows, row) matches Some(new) ==> {
            &&& rows.len() <= new.len() <= rows.len() + 1
            &&& forall|i: int|
                0 <= i < rows.len() && !begins(rows[i], "POOL\t"@) ==> #[trigger] new[i] == rows[i]
        },
{
    lemma_pool_place(rows, 0);
    let i = pool_place(rows, 0);
    if i < rows.len() {
        lemma_pool_row_there(rows, 0);
    }
}

proof fn lemma_pool_row_there(rows: Seq<Seq<char>>, from: int)
    requires
        0 <= from <= rows.len(),
        pool_place(rows, from) < rows.len(),
    ensures
        begins(rows[pool_place(rows, from)], "POOL\t"@),
    decreases rows.len() - from,
{
    if from < rows.len() && !begins(rows[from], "POOL\t"@) {
        lemma_pool_row_there(rows, from + 1);
    }
}

/// Putting a pool in and reading the lines again finds its row, whatever the other lines are,
/// where the row is one line: to put it in again changes nothing.
pub proof fn law_synced_text_is_read(content: Seq<char>, pool: Seq<Seq<char>>)
    requires
        is_line(pool_row(pool)),
    ensures
        synced_text(content, pool) matches Some(t) ==> synced_text(t, pool) is None,
{
    let rows = line_seq(content);
    let row = pool_row(pool);
    law_synced_once(rows, row);
    lemma_pool_place(rows, 0);
    lemma_lines_lack(content);
    if let Some(new) = synced(rows, row) {
        assert forall|i: int| 0 <= i < new.len() implies lacks(#[trigger] new[i], '\n') by {
            if i < rows.len() {
                assert(lacks(rows[i], '\n'));
            }
        }
        lemma_lines_written(new);
        let k = choose|k: int| 0 <= k < new.len() && new[k] == row;
        let read = line_seq(with_feeds(new));
        assert(read[k] == without_cr(row));
        assert(read.contains(row));
    }
}

/// A pool whose row is not free of line feeds is never found again: each time it is put in.
pub proof fn law_split_row_is_not_found(content: Seq<char>, pool: Seq<Seq<char>>)
    requires
        !lacks(pool_row(pool), '\n'),
    ensures
        synced_text(content, pool) is Some,
{
    lemma_lines_lack(content);
    let rows = line_seq(content);
    let row = pool_row(pool);
    if rows.contains(row) {
        let k = choose|k: int| 0 <= k < rows.len() && rows[k] == row;
        assert(lacks(rows[k], '\n'));
    }
}

/// Whether a row of generated weights stays in a cache: those of champions, matches, save
/// and pool come anew.
pub open spec fn stays(row: Seq<char>) -> bool {
    !(begins(row, "C\t"@) || begins(row, "M\t"@) || begins(row, "SAVE\t"@) || begins(
        row,
        "POOL\t"@,
    ))
}

/// What a cache is put together from.
pub struct Parts {
    /// The save's name.
    pub save: String,
    /// The champions that the save offers.
    pub pool: Vec<String>,
    /// The rows of lanes.
    pub pos: Vec<String>,
    /// The rows of roles.
    pub roles: Vec<String>,
    /// The rows of winrates.
    pub winrates: Vec<String>,
    /// The rows of winrates on lanes.
    pub lane_winrates: Vec<String>,
    /// The matches of the current patch.
    pub total: u32,
    /// The stamp of the data.
    pub stamp: String,
}

/// What `Parts` hold.
pub struct PartTexts {
    pub save: Seq<char>,
    pub pool: Seq<Seq<char>>,
    pub pos: Seq<Seq<char>>,
    pub roles: Seq<Seq<char>>,
    pub winrates: Seq<Seq<char>>,
    pub lane_winrates: Seq<Seq<char>>,
    pub total: nat,
    pub stamp: Seq<char>,
}

impl View for Parts {
    type V = PartTexts;

    open spec fn view(&self) -> PartTexts {
        PartTexts {
            save: self.save@,
            pool: self.pool.deep_view(),
            pos: self.pos.deep_view(),
            roles: self.roles.deep_view(),
            winrates: self.winrates.deep_view(),
            lane_winrates: self.lane_winrates.deep_view(),
            total: self.total as nat,
            stamp: self.stamp@,
        }
    }
}

/// The row of the matches.
pub open spec fn matches_row(total: nat) -> Seq<char> {
    "M\t"@ + decimal(total)
}

/// The row of the stamp.
pub open spec fn stamp_row(stamp: Seq<char>) -> Seq<char> {
    "STAMP\t"@ + stamp
}

/// The rows of a cache before that of the matches.
pub open spec fn rows_before_matches(gen: Seq<Seq<char>>, p: PartTexts) -> Seq<Seq<char>> {
    let pool = if p.pool.len() == 0 {
        Seq::empty()
    } else {
        seq![pool_row(p.pool)]
    };
    gen.filter(|l: Seq<char>| stays(l)) + seq!["SAVE\t"@ + p.save] + pool + p.pos + p.roles
        + p.winrates + p.lane_winrates
}

/// The rows of a cache.
pub open spec fn cache_rows(gen: Seq<Seq<char>>, p: PartTexts) -> Seq<Seq<char>> {
    rows_before_matches(gen, p) + seq![matches_row(p.total), stamp_row(p.stamp)]
}

fn push_all(rows: &mut Vec<String>, more: &Vec<String>)
    ensures
        final(rows).deep_view() == old(rows).deep_view() + more.deep_view(),
{
    let ghost before = rows.deep_view();
    let ghost m = more.deep_view();
    let mut i: usize = 0;
    assert(before + m.take(0) =~= before);
    while i < more.len()
        invariant
            i <= more@.len(),
            m == more.deep_view(),
            rows.deep_view() == before + m.take(i as int),
        decreases more@.len() - i,
    {
        let ghost sofar = rows.deep_view();
        assert(m[i as int] == more@[i as int]@);
        rows.push(more[i].clone());
        assert(rows.deep_view() =~= sofar.push(m[i as int]));
        assert(rows.deep_view() =~= before + m.take(i + 1));
        i += 1;
    }
    assert(m.take(i as int) == m);
}

/// The cache of a save, from its generated weights and the other parts.
pub fn regen(gen: &str, p: &Parts) -> (r: String)
    ensures
        r@ == with_feeds(cache_rows(line_seq(gen@), p@)),
{
    let ls = lines(gen);
    let ghost all = line_seq(gen@);
    let ghost f = |l: Seq<char>| stays(l);
    let mut rows: Vec<String> = Vec::new();
    let mut i: usize = 0;
    proof {
        reveal(Seq::filter);
        assert(rows.deep_view() =~= all.take(0).filter(f));
    }
    while i < ls.len()
        invariant
            i <= ls@.len(),
            ls.deep_view() == all,
            f == (|l: Seq<char>| stays(l)),
            rows.deep_view() == all.take(i as int).filter(f),
        decreases ls@.len() - i,
    {
        assert(all[i as int] == ls@[i as int]@);
        assert(all.take(i + 1).drop_last() == all.take(i as int));
        let ghost sofar = rows.deep_view();
        let l = ls[i].as_str();
        if !starts_with(l, "C\t") && !starts_with(l, "M\t") && !starts_with(l, "SAVE\t")
            && !starts_with(l, "POOL\t") {
            rows.push(ls[i].clone());
            assert(rows.deep_view() =~= sofar.push(all[i as int]));
        }
        proof {
            reveal(Seq::filter);
        }
        i += 1;
    }
    assert(all.take(i as int) == all);
    let ghost kept = all.filter(f);
    let mut save = "SAVE\t".to_owned();
    save.append(p.save.as_str());
    rows.push(save);
    assert(rows.deep_view() =~= kept + seq!["SAVE\t"@ + p.save@]);
    let ghost sofar = rows.deep_view();
    assert(p.pool.deep_view().len() == p.pool@.len());
    if p.pool.len() > 0 {
        rows.push(write_pool_row(&p.pool));
        assert(rows.deep_view() =~= sofar + seq![pool_row(p.pool.deep_view())]);
    } else {
        assert(rows.deep_view() =~= sofar + Seq::empty());
    }
    push_all(&mut rows, &p.pos);
    push_all(&mut rows, &p.roles);
    push_all(&mut rows, &p.winrates);
    push_all(&mut rows, &p.lane_winrates);
    let ghost sofar = rows.deep_view();
    assert(sofar == rows_before_matches(all, p@));
    let mut m = "M\t".to_owned();
    m.append(to_decimal(p.total as u64).as_str());
    rows.push(m);
    let mut s = "STAMP\t".to_owned();
    s.append(p.stamp.as_str());
    rows.push(s);
    assert(rows.deep_view() =~= cache_rows(all, p@));
    to_lines(&rows)
}

/// The matches that some rows say: the first that is a number, 0 where there is none.
pub open spec fn count_in(rows: Seq<Seq<char>>) -> nat
    decreases rows.len(),
{
    if rows.len() == 0 {
        0
    } else {
        let n = match after_prefix(rows[0], "M\t"@) {
            Some(t) => number(t, u32::MAX as nat),
            None => None,
        };
        match n {
            Some(n) => n,
            None => count_in(rows.skip(1)),
        }
    }
}

/// The stamp that some rows say: the first, the empty one where there is none.
pub open spec fn stamp_in(rows: Seq<Seq<char>>) -> Seq<char>
    decreases rows.len(),
{
    if rows.len() == 0 {
        Seq::empty()
    } else {
        match after_prefix(rows[0], "STAMP\t"@) {
            Some(t) => trimmed(t),
            None => stamp_in(rows.skip(1)),
        }
    }
}

/// The matches that a cache says.
pub fn read_cached_count(cache: &str) -> (r: u32)
    ensures
        r == count_in(line_seq(cache@)),
{
    let ls = lines(cache);
    let ghost all = line_seq(cache@);
    let mut i: usize = 0;
    assert(all.skip(0) == all);
    while i < ls.len()
        invariant
            i <= ls@.len(),
            ls.deep_view() == all,
            all == line_seq(cache@),
            count_in(all) == count_in(all.skip(i as int)),
        decreases ls@.len() - i,
    {
        assert(all[i as int] == ls@[i as int]@);
        assert(all.skip(i as int)[0] == all[i as int]);
        assert(all.skip(i as int).skip(1) == all.skip(i + 1));
        if let Some(t) = strip_prefix(ls[i].as_str(), "M\t") {
            if let Some(n) = parse_number(t.as_str(), u32::MAX as u64) {
                return n as u32;
            }
        }
        i += 1;
    }
    0
}

/// The stamp of the data from which a cache was built.
pub fn read_cache_stamp(cache: &str) -> (r: String)
    ensures
        r@ == stamp_in(line_seq(cache@)),
{
    let ls = lines(cache);
    let ghost all = line_seq(cache@);
    let mut i: usize = 0;
    assert(all.skip(0) == all);
    while i < ls.len()
        invariant
            i <= ls@.len(),
            ls.deep_view() == all,
            all == line_seq(cache@),
            stamp_in(all) == stamp_in(all.skip(i as int)),
        decreases ls@.len() - i,
    {
        assert(all[i as int] == ls@[i as int]@);
        assert(all.skip(i as int)[0] == all[i as int]);
        assert(all.skip(i as int).skip(1) == all.skip(i + 1));
        if let Some(t) = strip_prefix(ls[i].as_str(), "STAMP\t") {
            return trim(t.as_str());
        }
        i += 1;
    }
    String::new()
}

proof fn lemma_count_behind(front: Seq<Seq<char>>, back: Seq<Seq<char>>)
    requires
        forall|i: int| 0 <= i < front.len() ==> !begins(#[trigger] front[i], "M\t"@),
    ensures
        count_in(front + back) == count_in(back),
    decreases front.len(),
{
    if front.len() == 0 {
        assert(front + back == back);
    } else {
        assert(!begins(front[0], "M\t"@));
        assert((front + back)[0] == front[0]);
        assert((front + back).skip(1) == front.skip(1) + back);
        assert(forall|i: int| 0 <= i < front.len() - 1 ==> #[trigger] front.skip(1)[i] == front[i + 1]);
        lemma_count_behind(front.skip(1), back);
    }
}

proof fn lemma_stamp_behind(front: Seq<Seq<char>>, back: Seq<Seq<char>>)
    requires
        forall|i: int| 0 <= i < front.len() ==> !begins(#[trigger] front[i], "STAMP\t"@),
    ensures
        stamp_in(front + back) == stamp_in(back),
    decreases front.len(),
{
    if front.len() == 0 {
        assert(front + back == back);
    } else {
        assert(!begins(front[0], "STAMP\t"@));
        assert((front + back)[0] == front[0]);
        assert((front + back).skip(1) == front.skip(1) + back);
        assert(forall|i: int| 0 <= i < front.len() - 1 ==> #[trigger] front.skip(1)[i] == front[i + 1]);
        lemma_stamp_behind(front.skip(1), back);
    }
}

/// Whether a row says neither matches nor a stamp, and is one line.
pub open spec fn is_other_row(row: Seq<char>) -> bool {
    is_line(row) && !begins(row, "M\t"@) && !begins(row, "STAMP\t"@)
}

/// From a cache come the matches and the stamp that it was put together with, where no other
/// row says matches or a stamp and each row is one line.
pub proof fn law_cache_says(gen: Seq<Seq<char>>, p: PartTexts)
    requires
        p.total <= u32::MAX,
        is_line(stamp_row(p.stamp)),
        forall|i: int|
            0 <= i < rows_before_matches(gen, p).len() ==> is_other_row(
                #[trigger] rows_before_matches(gen, p)[i],
            ),
    ensures
        count_in(line_seq(with_feeds(cache_rows(gen, p)))) == p.total,
        stamp_in(line_seq(with_feeds(cache_rows(gen, p)))) == trimmed(p.stamp),
{
    reveal_strlit("M\t");
    reveal_strlit("STAMP\t");
    let front = rows_before_matches(gen, p);
    let m = matches_row(p.total);
    let s = stamp_row(p.stamp);
    let back = seq![m, s];
    let rows = cache_rows(gen, p);
    lemma_decimal_digits(p.total);
    let d = decimal(p.total);
    assert(is_line(m)) by {
        assert forall|i: int| 0 <= i < m.len() implies #[trigger] m[i] != '\n' && m[i] != '\r' by {
            if i >= 2 {
                assert(m[i] == d[i - 2]);
            }
        }
    }
    assert forall|i: int| 0 <= i < rows.len() implies is_line(#[trigger] rows[i]) by {
        if i < front.len() {
            assert(is_other_row(front[i]));
            assert(rows[i] == front[i]);
        } else {
            assert(rows[i] == back[i - front.len()]);
        }
    }
    law_lines_read_back(rows);
    assert forall|i: int| 0 <= i < front.len() implies !begins(#[trigger] front[i], "M\t"@)
        && !begins(front[i], "STAMP\t"@) by {
        assert(is_other_row(front[i]));
    }
    lemma_count_behind(front, back);
    lemma_stamp_behind(front, back);
    assert(m.take(2) =~= "M\t"@);
    assert(m.skip(2) =~= d);
    law_decimal_reads_back(p.total, u32::MAX as nat);
    assert(m[0] == 'M');
    assert(!begins(m, "STAMP\t"@)) by {
        if begins(m, "STAMP\t"@) {
            assert(m.take(6)[0] == 'S');
        }
    }
    assert(back.skip(1) =~= seq![s]);
    assert(s.take(6) =~= "STAMP\t"@);
    assert(s.skip(6) =~= p.stamp);
    assert(stamp_in(back) == stamp_in(back.skip(1)));
}

/// A champion is in the pool of a text if and only if its id stands there between quotation
/// marks; the pool has the champions in their order.
pub proof fn law_quoted_are_offered(text: Seq<char>, n: nat, i: int)
    requires
        n <= CHAMP_COUNT,
        0 <= i < n,
    ensures
        quoted_champs(text, n).contains(champ_id(i)) <==> has(
            text,
            "\""@ + champ_id(i) + "\""@,
        ),
        forall|k: int|
            0 <= k < quoted_champs(text, n).len() ==> has(
                text,
                "\""@ + (#[trigger] quoted_champs(text, n)[k]) + "\""@,
            ),
    decreases n,
{
    let m = (n - 1) as nat;
    let front = quoted_champs(text, m);
    let all = quoted_champs(text, n);
    if m > 0 {
        law_quoted_are_offered(text, m, if i < m { i } else { 0 });
    }
    if has(text, "\""@ + champ_id(n - 1) + "\""@) {
        assert(all =~= front.push(champ_id(n - 1)));
        assert(all[front.len() as int] == champ_id(n - 1));
        if i < m && front.contains(champ_id(i)) {
            let k = choose|k: int| 0 <= k < front.len() && front[k] == champ_id(i);
            assert(all[k] == champ_id(i));
        }
        assert forall|k: int| 0 <= k < all.len() implies has(
            text,
            "\""@ + (#[trigger] all[k]) + "\""@,
        ) by {
            if k < front.len() {
                assert(all[k] == front[k]);
            }
        }
    }
    if all.contains(champ_id(i)) {
        let k = choose|k: int| 0 <= k < all.len() && all[k] == champ_id(i);
        assert(has(text, "\""@ + all[k] + "\""@));
    }
}

/// A pool is put in where its row is not there: over the first row of a pool, or behind all
/// rows where there is none; where its row is there nothing changes.
pub proof fn law_pool_is_put_in(rows: Seq<Seq<char>>, row: Seq<char>, i: int)
    ensures
        rows.contains(row) ==> synced(rows, row) is None,
        !rows.contains(row) ==> synced(rows, row) is Some,
        !rows.contains(row) && 0 <= i < rows.len() && begins(rows[i], "POOL\t"@) && (forall|j: int|
            0 <= j < i ==> !begins(#[trigger] rows[j], "POOL\t"@)) ==> synced(rows, row) == Some(
            rows.update(i, row),
        ),
        !rows.contains(row) && (forall|j: int|
            0 <= j < rows.len() ==> !begins(#[trigger] rows[j], "POOL\t"@)) ==> synced(rows, row)
            == Some(rows.push(row)),
{
    lemma_first_pool(rows, 0);
}

proof fn lemma_first_pool(rows: Seq<Seq<char>>, from: int)
    requires
        0 <= from <= rows.len(),
    ensures
        from <= pool_place(rows, from) <= rows.len(),
        forall|j: int| from <= j < pool_place(rows, from) ==> !begins(#[trigger] rows[j], "POOL\t"@),
        pool_place(rows, from) < rows.len() ==> begins(rows[pool_place(rows, from)], "POOL\t"@),
    decreases rows.len() - from,
{
    if from < rows.len() && !begins(rows[from], "POOL\t"@) {
        lemma_first_pool(rows, from + 1);
    }
}

/// A cache holds each generated row but those of champions, matches, save and pool, and each
/// row of the parts; the row of the pool is there if and only if there is one. Nothing else is
/// in it.
pub proof fn law_cache_rows(gen: Seq<Seq<char>>, p: PartTexts, row: Seq<char>)
    ensures
        cache_rows(gen, p).contains(row) <==> {
            ||| gen.contains(row) && !begins(row, "C\t"@) && !begins(row, "M\t"@) && !begins(
                row,
                "SAVE\t"@,
            ) && !begins(row, "POOL\t"@)
            ||| row == "SAVE\t"@ + p.save
            ||| p.pool.len() > 0 && row == pool_row(p.pool)
            ||| p.pos.contains(row)
            ||| p.roles.contains(row)
            ||| p.winrates.contains(row)
            ||| p.lane_winrates.contains(row)
            ||| row == "M\t"@ + decimal(p.total)
            ||| row == "STAMP\t"@ + p.stamp
        },
{
    let keep = |l: Seq<char>| stays(l);
    crate::table_laws::lemma_kept(gen, keep, row);
    let a = gen.filter(keep);
    let b = seq!["SAVE\t"@ + p.save];
    let c = if p.pool.len() == 0 {
        Seq::empty()
    } else {
        seq![pool_row(p.pool)]
    };
    let z = seq![matches_row(p.total), stamp_row(p.stamp)];
    lemma_in_both(a, b, row);
    lemma_in_both(a + b, c, row);
    lemma_in_both(a + b + c, p.pos, row);
    lemma_in_both(a + b + c + p.pos, p.roles, row);
    lemma_in_both(a + b + c + p.pos + p.roles, p.winrates, row);
    lemma_in_both(a + b + c + p.pos + p.roles + p.winrates, p.lane_winrates, row);
    lemma_in_both(rows_before_matches(gen, p), z, row);
    assert(b[0] == "SAVE\t"@ + p.save);
    if p.pool.len() > 0 {
        assert(c[0] == pool_row(p.pool));
    }
    assert(z[0] == matches_row(p.total) && z[1] == stamp_row(p.stamp));
}

/// What is in one list or the other is in both together.
pub proof fn lemma_in_both<A>(a: Seq<A>, b: Seq<A>, x: A)
    ensures
        (a + b).contains(x) <==> a.contains(x) || b.contains(x),
{
    let s = a + b;
    if a.contains(x) {
        let k = choose|k: int| 0 <= k < a.len() && a[k] == x;
        assert(s[k] == x);
    }
    if b.contains(x) {
        let k = choose|k: int| 0 <= k < b.len() && b[k] == x;
        assert(s[a.len() + k] == x);
    }
    if s.contains(x) {
        let k = choose|k: int| 0 <= k < s.len() && s[k] == x;
        if k < a.len() {
            assert(a[k] == x);
        } else {
            assert(b[k - a.len()] == x);
        }
    }
}

/// The matches of a cache are those of its first row that says a number of them, and none where
/// no row does; its stamp is that of its first row of one, and empty where there is none.
pub proof fn law_first_rows_count(rows: Seq<Seq<char>>, i: int)
    ensures
        0 <= i < rows.len() && begins(rows[i], "M\t"@) && (number(rows[i].skip(2), u32::MAX as nat)
            is Some) && (forall|j: int|
            0 <= j < i ==> !(begins(#[trigger] rows[j], "M\t"@) && number(
                rows[j].skip(2),
                u32::MAX as nat,
            ) is Some)) ==> number(rows[i].skip(2), u32::MAX as nat) == Some(count_in(rows)),
        (forall|j: int|
            0 <= j < rows.len() ==> !(begins(#[trigger] rows[j], "M\t"@) && number(
                rows[j].skip(2),
                u32::MAX as nat,
            ) is Some)) ==> count_in(rows) == 0,
        0 <= i < rows.len() && begins(rows[i], "STAMP\t"@) && (forall|j: int|
            0 <= j < i ==> !begins(#[trigger] rows[j], "STAMP\t"@)) ==> stamp_in(rows) == trimmed(
            rows[i].skip(6),
        ),
        (forall|j: int| 0 <= j < rows.len() ==> !begins(#[trigger] rows[j], "STAMP\t"@))
            ==> stamp_in(rows).len() == 0,
    decreases rows.len(),
{
    reveal_strlit("M\t");
    reveal_strlit("STAMP\t");
    assert("M\t"@.len() == 2 && "STAMP\t"@.len() == 6);
    if rows.len() > 0 {
        let rest = rows.skip(1);
        assert(forall|j: int| 0 <= j < rest.len() ==> #[trigger] rest[j] == rows[j + 1]);
        law_first_rows_count(rest, i - 1);
        if 0 < i < rows.len() {
            assert(rest[i - 1] == rows[i]);
            if forall|j: int|
                0 <= j < i ==> !(begins(#[trigger] rows[j], "M\t"@) && number(
                    rows[j].skip(2),
                    u32::MAX as nat,
                ) is Some) {
                assert(!(begins(rows[0], "M\t"@) && number(rows[0].skip(2), u32::MAX as nat)
                    is Some));
            }
            if forall|j: int| 0 <= j < i ==> !begins(#[trigger] rows[j], "STAMP\t"@) {
                assert(!begins(rows[0], "STAMP\t"@));
            }
        }
        if forall|j: int|
            0 <= j < rows.len() ==> !(begins(#[trigger] rows[j], "M\t"@) && number(
                rows[j].skip(2),
                u32::MAX as nat,
            ) is Some) {
            assert(!(begins(rows[0], "M\t"@) && number(rows[0].skip(2), u32::MAX as nat) is Some));
        }
        if forall|j: int| 0 <= j < rows.len() ==> !begins(#[trigger] rows[j], "STAMP\t"@) {
            assert(!begins(rows[0], "STAMP\t"@));
        }
    }
}

} // verus!
