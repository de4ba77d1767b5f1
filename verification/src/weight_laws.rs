//! What is written as weights is what the tables read from them.

use vstd::prelude::*;

#[allow(unused_imports)]
use crate::cache_laws::{
    lemma_names_differ,
    lemma_read_all,
    lemma_read_one,
    lemma_read_parts,
    names_sound,
    read_on,
};
#[allow(unused_imports)]
use crate::row_laws::{
    law_ban_row_is_read,
    law_champ_row_is_read,
    law_kit_row_is_read,
    law_pair_rows_are_read,
};
#[allow(unused_imports)]
use crate::tables::{
    after_line,
    no_stats,
    pair,
    put_pair,
    reading,
    stats_of,
    Kit,
    Stats,
};
#[allow(unused_imports)]
use crate::tally::{row_of, ChampRecord, Record, Tally};
#[allow(unused_imports)]
use crate::text::{begins, is_line, joined, lacks, law_lines_read_back, with_feeds};
#[allow(unused_imports)]
use crate::textmap::{ascending, law_lookup_put, law_lookup_put_other, lookup, put};
#[allow(unused_imports)]
use crate::weights::{
    ban_row,
    ban_rows,
    champ_delta,
    champ_row,
    champ_rows,
    kit_row,
    kit_rows,
    pair_row,
    pair_rows,
    rate_of,
    relation_rows,
    weight_rows,
    RateTexts,
};

verus! {

/// The value at a place of a sound list is the one under its name.
proof fn lemma_lookup_at<W>(m: Seq<(Seq<char>, W)>, i: int)
    requires
        names_sound(m),
        0 <= i < m.len(),
    ensures
        lookup(m, m[i].0) == Some(m[i].1),
    decreases m.len(),
{
    if i > 0 {
        lemma_names_differ(m, 0, i);
        let rest = m.skip(1);
        assert(forall|k: int| 0 <= k < rest.len() ==> #[trigger] rest[k] == m[k + 1]);
        assert(ascending(rest)) by {
            assert forall|a: int, b: int| 0 <= a < b < rest.len() implies crate::text::before(
                #[trigger] rest[a].0,
                #[trigger] rest[b].0,
            ) by {
                assert(crate::text::before(m[a + 1].0, m[b + 1].0));
            }
        }
        assert forall|k: int| 0 <= k < rest.len() implies lacks((#[trigger] rest[k]).0, '\t') by {
            assert(lacks(m[k + 1].0, '\t'));
        }
        lemma_lookup_at(rest, i - 1);
    }
}

/// The values under the first `n` names of a list.
pub open spec fn among<W>(m: Seq<(Seq<char>, W)>, n: int, k: Seq<char>) -> Option<W> {
    lookup(m.take(n), k)
}

/// With one more name only the value under that name is new.
proof fn lemma_among_grows<W>(m: Seq<(Seq<char>, W)>, n: int, k: Seq<char>)
    requires
        names_sound(m),
        0 < n <= m.len(),
    ensures
        among(m, n, k) == if k == m[n - 1].0 {
            Some(m[n - 1].1)
        } else {
            among(m, n - 1, k)
        },
{
    let a = m.take(n);
    assert(names_sound(a)) by {
        assert(forall|i: int| 0 <= i < a.len() ==> #[trigger] a[i] == m[i]);
        assert forall|i: int| 0 <= i < a.len() implies lacks((#[trigger] a[i]).0, '\t') by {
            assert(lacks(m[i].0, '\t'));
        }
        assert forall|i: int, j: int| 0 <= i < j < a.len() implies crate::text::before(
            #[trigger] a[i].0,
            #[trigger] a[j].0,
        ) by {
            assert(crate::text::before(m[i].0, m[j].0));
        }
    }
    if k == m[n - 1].0 {
        lemma_lookup_at(a, n - 1);
    } else {
        lemma_lookup_push(m.take(n - 1), m[n - 1], k);
        assert(m.take(n - 1).push(m[n - 1]) =~= a);
    }
}

proof fn lemma_lookup_push<W>(m: Seq<(Seq<char>, W)>, e: (Seq<char>, W), k: Seq<char>)
    requires
        e.0 != k,
    ensures
        lookup(m.push(e), k) == lookup(m, k),
    decreases m.len(),
{
    let p = m.push(e);
    if m.len() > 0 {
        assert(p.skip(1) =~= m.skip(1).push(e));
        lemma_lookup_push(m.skip(1), e, k);
    } else {
        assert(p.skip(1) =~= m);
        assert(lookup(p.skip(1), k) is None);
    }
}

proof fn lemma_put_pair(
    m: Seq<(Seq<char>, Seq<(Seq<char>, u32)>)>,
    a: Seq<char>,
    b: Seq<char>,
    w: u32,
    c: Seq<char>,
    d: Seq<char>,
)
    ensures
        pair(put_pair(m, a, b, w), c, d) == if c == a && d == b {
            w
        } else {
            pair(m, c, d)
        },
{
    let inner = match lookup(m, a) {
        Some(i) => i,
        None => Seq::empty(),
    };
    if c == a {
        law_lookup_put(m, a, put(inner, b, w));
        if d == b {
            law_lookup_put(inner, b, w);
        } else {
            law_lookup_put_other(inner, b, w, d);
        }
    } else {
        law_lookup_put_other(m, a, put(inner, b, w), c);
    }
}

/// The table of counters or of synergies.
pub open spec fn relation(t: Stats, counter: bool) -> Seq<(Seq<char>, Seq<(Seq<char>, u32)>)> {
    if counter {
        t.counter
    } else {
        t.synergy
    }
}

/// The statistics with another table of counters or of synergies.
pub open spec fn with_relation(
    t: Stats,
    counter: bool,
    m: Seq<(Seq<char>, Seq<(Seq<char>, u32)>)>,
) -> Stats {
    if counter {
        Stats { counter: m, ..t }
    } else {
        Stats { synergy: m, ..t }
    }
}

/// The tag of the rows of counters or of synergies.
pub open spec fn relation_tag(counter: bool) -> Seq<char> {
    if counter {
        "K"@
    } else {
        "S"@
    }
}

/// What the weights say of a pair with some record: nothing where it has too few games.
pub open spec fn pair_weight(
    r: Option<Record>,
    min_pair: u32,
    rates: RateTexts,
    readings: Seq<(Seq<char>, u32)>,
) -> Option<u32> {
    match r {
        Some(r) => if r.games >= min_pair {
            Some(reading(readings, rate_of(rates.pair, r)))
        } else {
            None
        },
        None => None,
    }
}

proof fn lemma_pairs_read(
    t: Stats,
    counter: bool,
    a: Seq<char>,
    m: Seq<(Seq<char>, Record)>,
    n: int,
    min_pair: u32,
    rates: RateTexts,
    readings: Seq<(Seq<char>, u32)>,
)
    requires
        0 <= n <= m.len(),
        names_sound(m),
        lacks(a, '\t'),
        forall|r: Record| lacks(#[trigger] rate_of(rates.pair, r), '\t'),
    ensures
        ({
            let rows = pair_rows(relation_tag(counter), a, m, n as nat, min_pair, rates);
            let u = read_on(t, rows, readings);
            &&& u == with_relation(t, counter, relation(u, counter))
            &&& forall|c: Seq<char>, d: Seq<char>| #[trigger]
                pair(relation(u, counter), c, d) == match pair_weight(
                    among(m, n, d),
                    min_pair,
                    rates,
                    readings,
                ) {
                    Some(w) if c == a => w,
                    _ => pair(relation(t, counter), c, d),
                }
        }),
    decreases n,
{
    let tag = relation_tag(counter);
    let rows = pair_rows(tag, a, m, n as nat, min_pair, rates);
    let u = read_on(t, rows, readings);
    if n > 0 {
        lemma_pairs_read(t, counter, a, m, n - 1, min_pair, rates, readings);
        let front = pair_rows(tag, a, m, (n - 1) as nat, min_pair, rates);
        let v = read_on(t, front, readings);
        let (b, r) = m[n - 1];
        let text = rate_of(rates.pair, r);
        let w = reading(readings, text);
        if r.games >= min_pair {
            assert(rows.drop_last() =~= front);
            assert(lacks(m[n - 1].0, '\t'));
            law_pair_rows_are_read(v, a, b, text, readings);
            assert(relation(u, counter) == put_pair(relation(v, counter), a, b, w));
        } else {
            assert(rows == front);
        }
        assert forall|c: Seq<char>, d: Seq<char>| #[trigger]
            pair(relation(u, counter), c, d) == match pair_weight(
                among(m, n, d),
                min_pair,
                rates,
                readings,
            ) {
                Some(x) if c == a => x,
                _ => pair(relation(t, counter), c, d),
            } by {
            lemma_among_grows(m, n, d);
            if r.games >= min_pair {
                lemma_put_pair(relation(v, counter), a, b, w, c, d);
            }
            assert(pair(relation(v, counter), c, d) == match pair_weight(
                among(m, n - 1, d),
                min_pair,
                rates,
                readings,
            ) {
                Some(x) if c == a => x,
                _ => pair(relation(t, counter), c, d),
            });
            if d == b {
                lemma_absent(m, n);
            }
        }
    } else {
        assert forall|c: Seq<char>, d: Seq<char>| #[trigger]
            pair(relation(u, counter), c, d) == match pair_weight(
                among(m, n, d),
                min_pair,
                rates,
                readings,
            ) {
                Some(x) if c == a => x,
                _ => pair(relation(t, counter), c, d),
            } by {
            assert(m.take(0) =~= Seq::empty());
        }
    }
}

/// A name is not among those before it.
proof fn lemma_absent<W>(m: Seq<(Seq<char>, W)>, n: int)
    requires
        names_sound(m),
        0 < n <= m.len(),
    ensures
        among(m, n - 1, m[n - 1].0) is None,
{
    lemma_absent_until(m, n - 1, n - 1);
}

proof fn lemma_absent_until<W>(m: Seq<(Seq<char>, W)>, n: int, i: int)
    requires
        names_sound(m),
        0 <= n <= i < m.len(),
    ensures
        among(m, n, m[i].0) is None,
    decreases n,
{
    if n > 0 {
        lemma_among_grows(m, n, m[i].0);
        lemma_names_differ(m, n - 1, i);
        lemma_absent_until(m, n - 1, i);
    } else {
        assert(m.take(0) =~= Seq::empty());
    }
}

/// Whether the names of a table of pairs are in order and hold no tabs.
pub open spec fn pairs_sound(m: Seq<(Seq<char>, Seq<(Seq<char>, Record)>)>) -> bool {
    names_sound(m) && forall|i: int| 0 <= i < m.len() ==> names_sound((#[trigger] m[i]).1)
}

/// The record of a pair among those of the first `n` champions.
pub open spec fn pair_among(
    m: Seq<(Seq<char>, Seq<(Seq<char>, Record)>)>,
    n: int,
    a: Seq<char>,
    b: Seq<char>,
) -> Option<Record> {
    match among(m, n, a) {
        Some(row) => lookup(row, b),
        None => None,
    }
}

proof fn lemma_relation_read(
    t: Stats,
    counter: bool,
    m: Seq<(Seq<char>, Seq<(Seq<char>, Record)>)>,
    n: int,
    min_pair: u32,
    rates: RateTexts,
    readings: Seq<(Seq<char>, u32)>,
)
    requires
        0 <= n <= m.len(),
        pairs_sound(m),
        forall|r: Record| lacks(#[trigger] rate_of(rates.pair, r), '\t'),
    ensures
        ({
            let rows = relation_rows(relation_tag(counter), m, n as nat, min_pair, rates);
            let u = read_on(t, rows, readings);
            &&& u == with_relation(t, counter, relation(u, counter))
            &&& forall|a: Seq<char>, b: Seq<char>| #[trigger]
                pair(relation(u, counter), a, b) == match pair_weight(
                    pair_among(m, n, a, b),
                    min_pair,
                    rates,
                    readings,
                ) {
                    Some(w) => w,
                    None => pair(relation(t, counter), a, b),
                }
        }),
    decreases n,
{
    let tag = relation_tag(counter);
    let rows = relation_rows(tag, m, n as nat, min_pair, rates);
    let u = read_on(t, rows, readings);
    if n > 0 {
        lemma_relation_read(t, counter, m, n - 1, min_pair, rates, readings);
        let front = relation_rows(tag, m, (n - 1) as nat, min_pair, rates);
        let v = read_on(t, front, readings);
        let (k, row) = m[n - 1];
        let back = pair_rows(tag, k, row, row.len(), min_pair, rates);
        lemma_read_parts(t, front, back, readings);
        assert(names_sound(m[n - 1].1));
        assert(lacks(m[n - 1].0, '\t'));
        lemma_pairs_read(v, counter, k, row, row.len() as int, min_pair, rates, readings);
        assert(row.take(row.len() as int) =~= row);
        assert forall|a: Seq<char>, b: Seq<char>| #[trigger]
            pair(relation(u, counter), a, b) == match pair_weight(
                pair_among(m, n, a, b),
                min_pair,
                rates,
                readings,
            ) {
                Some(w) => w,
                None => pair(relation(t, counter), a, b),
            } by {
            lemma_among_grows(m, n, a);
            if a == k {
                lemma_absent(m, n);
            }
            assert(pair(relation(v, counter), a, b) == match pair_weight(
                pair_among(m, n - 1, a, b),
                min_pair,
                rates,
                readings,
            ) {
                Some(w) => w,
                None => pair(relation(t, counter), a, b),
            });
        }
    } else {
        assert forall|a: Seq<char>, b: Seq<char>| #[trigger]
            pair(relation(u, counter), a, b) == match pair_weight(
                pair_among(m, n, a, b),
                min_pair,
                rates,
                readings,
            ) {
                Some(w) => w,
                None => pair(relation(t, counter), a, b),
            } by {
            assert(m.take(0) =~= Seq::empty());
        }
    }
}

proof fn lemma_champs_read(
    t: Stats,
    m: Seq<(Seq<char>, ChampRecord)>,
    rates: RateTexts,
    n: int,
    readings: Seq<(Seq<char>, u32)>,
)
    requires
        0 <= n <= m.len(),
        names_sound(m),
        forall|c: ChampRecord| lacks(#[trigger] champ_delta(c, rates), '\t'),
    ensures
        ({
            let u = read_on(t, champ_rows(m, rates).take(n), readings);
            &&& u == (Stats { delta: u.delta, ..t })
            &&& forall|i: int|
                0 <= i < n ==> lookup(u.delta, (#[trigger] m[i]).0) == Some(
                    reading(readings, champ_delta(m[i].1, rates)),
                )
        }),
    decreases n,
{
    let rows = champ_rows(m, rates);
    let u = read_on(t, rows.take(n), readings);
    if n > 0 {
        lemma_champs_read(t, m, rates, n - 1, readings);
        let v = read_on(t, rows.take(n - 1), readings);
        assert(rows.take(n).drop_last() =~= rows.take(n - 1));
        let k = m[n - 1].0;
        let text = champ_delta(m[n - 1].1, rates);
        let w = reading(readings, text);
        assert(lacks(m[n - 1].0, '\t'));
        law_champ_row_is_read(v, k, text, readings);
        law_lookup_put(v.delta, k, w);
        assert forall|i: int| 0 <= i < n implies lookup(u.delta, (#[trigger] m[i]).0) == Some(
            reading(readings, champ_delta(m[i].1, rates)),
        ) by {
            if i < n - 1 {
                lemma_names_differ(m, i, n - 1);
                law_lookup_put_other(v.delta, k, w, m[i].0);
            }
        }
    } else {
        assert(rows.take(n) =~= Seq::empty());
    }
}

/// Whether a kit can stand in a row: its texts hold no tabs, and it has tags, which hold no
/// commas.
pub open spec fn kit_writable(k: Kit) -> bool {
    &&& lacks(k.category, '\t')
    &&& lacks(k.damage, '\t')
    &&& lacks(joined(k.tags, ","@), '\t')
    &&& k.tags.len() > 0
    &&& forall|i: int| 0 <= i < k.tags.len() ==> lacks(#[trigger] k.tags[i], ',')
}

proof fn lemma_kits_read(
    t: Stats,
    m: Seq<(Seq<char>, Kit)>,
    n: int,
    readings: Seq<(Seq<char>, u32)>,
)
    requires
        0 <= n <= m.len(),
        names_sound(m),
        forall|i: int| 0 <= i < m.len() ==> kit_writable((#[trigger] m[i]).1),
    ensures
        ({
            let u = read_on(t, kit_rows(m).take(n), readings);
            &&& u == (Stats { taxon: u.taxon, ..t })
            &&& forall|i: int|
                0 <= i < n ==> lookup(u.taxon, (#[trigger] m[i]).0) == Some(m[i].1)
        }),
    decreases n,
{
    let rows = kit_rows(m);
    let u = read_on(t, rows.take(n), readings);
    if n > 0 {
        lemma_kits_read(t, m, n - 1, readings);
        let v = read_on(t, rows.take(n - 1), readings);
        assert(rows.take(n).drop_last() =~= rows.take(n - 1));
        let (k, kit) = m[n - 1];
        assert(lacks(m[n - 1].0, '\t'));
        assert(kit_writable(m[n - 1].1));
        law_kit_row_is_read(v, k, kit, readings);
        law_lookup_put(v.taxon, k, kit);
        assert forall|i: int| 0 <= i < n implies lookup(u.taxon, (#[trigger] m[i]).0) == Some(
            m[i].1,
        ) by {
            if i < n - 1 {
                lemma_names_differ(m, i, n - 1);
                law_lookup_put_other(v.taxon, k, kit, m[i].0);
            }
        }
    } else {
        assert(rows.take(n) =~= Seq::empty());
    }
}

proof fn lemma_bans_read(
    t: Stats,
    m: Seq<(Seq<char>, Seq<char>)>,
    n: int,
    readings: Seq<(Seq<char>, u32)>,
)
    requires
        0 <= n <= m.len(),
        names_sound(m),
        forall|i: int| 0 <= i < m.len() ==> lacks((#[trigger] m[i]).1, '\t'),
    ensures
        ({
            let u = read_on(t, ban_rows(m).take(n), readings);
            &&& u == (Stats { banrate: u.banrate, ..t })
            &&& forall|i: int|
                0 <= i < n ==> lookup(u.banrate, (#[trigger] m[i]).0) == Some(
                    reading(readings, m[i].1),
                )
        }),
    decreases n,
{
    let rows = ban_rows(m);
    let u = read_on(t, rows.take(n), readings);
    if n > 0 {
        lemma_bans_read(t, m, n - 1, readings);
        let v = read_on(t, rows.take(n - 1), readings);
        assert(rows.take(n).drop_last() =~= rows.take(n - 1));
        let (k, text) = m[n - 1];
        let w = reading(readings, text);
        assert(lacks(m[n - 1].0, '\t'));
        assert(lacks(m[n - 1].1, '\t'));
        law_ban_row_is_read(v, k, text, readings);
        law_lookup_put(v.banrate, k, w);
        assert forall|i: int| 0 <= i < n implies lookup(u.banrate, (#[trigger] m[i]).0) == Some(
            reading(readings, m[i].1),
        ) by {
            if i < n - 1 {
                lemma_names_differ(m, i, n - 1);
                law_lookup_put_other(v.banrate, k, w, m[i].0);
            }
        }
    } else {
        assert(rows.take(n) =~= Seq::empty());
    }
}

/// What weights are written from: a tally, kits and ban rates, what a pair needs to be
/// written, and the texts of winrates.
pub struct Sources {
    pub tally: Tally,
    pub kits: Seq<(Seq<char>, Kit)>,
    pub bans: Seq<(Seq<char>, Seq<char>)>,
    pub min_pair: u32,
    pub rates: RateTexts,
}

/// The rows that are written from some sources.
pub open spec fn rows_from(x: Sources) -> Seq<Seq<char>> {
    weight_rows(x.tally, x.kits, x.bans, x.min_pair, x.rates)
}

/// Whether sources can be written as rows: their names are in order, and no text holds a tab.
pub open spec fn sources_writable(x: Sources) -> bool {
    &&& names_sound(x.tally.champs)
    &&& pairs_sound(x.tally.synergy)
    &&& pairs_sound(x.tally.counter)
    &&& names_sound(x.kits)
    &&& forall|i: int| 0 <= i < x.kits.len() ==> kit_writable((#[trigger] x.kits[i]).1)
    &&& names_sound(x.bans)
    &&& forall|i: int| 0 <= i < x.bans.len() ==> lacks((#[trigger] x.bans[i]).1, '\t')
    &&& forall|c: ChampRecord| lacks(#[trigger] champ_delta(c, x.rates), '\t')
    &&& forall|r: Record| lacks(#[trigger] rate_of(x.rates.pair, r), '\t')
}

/// Whether a table of pairs says the weights of the pairs that have enough games, and of no
/// other.
pub open spec fn pairs_are_read(
    m: Seq<(Seq<char>, Seq<(Seq<char>, u32)>)>,
    tally: Seq<(Seq<char>, Seq<(Seq<char>, Record)>)>,
    x: Sources,
    readings: Seq<(Seq<char>, u32)>,
) -> bool {
    forall|a: Seq<char>, b: Seq<char>| #[trigger]
        pair(m, a, b) == match pair_weight(
            lookup(row_of(tally, a), b),
            x.min_pair,
            x.rates,
            readings,
        ) {
            Some(w) => w,
            None => 0,
        }
}

proof fn lemma_comment_says_nothing(t: Stats, readings: Seq<(Seq<char>, u32)>)
    ensures
        after_line(t, "# draft_weights TSV  C=champ S=synergy K=counter"@, readings) == t,
{
    reveal_strlit("# draft_weights TSV  C=champ S=synergy K=counter");
    reveal_strlit("#");
    let line = "# draft_weights TSV  C=champ S=synergy K=counter"@;
    assert(line.take(1) =~= "#"@);
}

/// The statistics after the rows of weights, read in their order from nothing.
pub open spec fn weights_read(x: Sources, readings: Seq<(Seq<char>, u32)>) -> Stats {
    let t1 = read_on(no_stats(), champ_rows(x.tally.champs, x.rates), readings);
    let t2 = read_on(
        t1,
        relation_rows("S"@, x.tally.synergy, x.tally.synergy.len(), x.min_pair, x.rates),
        readings,
    );
    let t3 = read_on(
        t2,
        relation_rows("K"@, x.tally.counter, x.tally.counter.len(), x.min_pair, x.rates),
        readings,
    );
    read_on(read_on(t3, kit_rows(x.kits), readings), ban_rows(x.bans), readings)
}

proof fn lemma_rows_in_turn(x: Sources, readings: Seq<(Seq<char>, u32)>)
    ensures
        read_on(no_stats(), rows_from(x), readings) == weights_read(x, readings),
{
    let comment = "# draft_weights TSV  C=champ S=synergy K=counter"@;
    let a = champ_rows(x.tally.champs, x.rates);
    let b = relation_rows("S"@, x.tally.synergy, x.tally.synergy.len(), x.min_pair, x.rates);
    let c = relation_rows("K"@, x.tally.counter, x.tally.counter.len(), x.min_pair, x.rates);
    let d = kit_rows(x.kits);
    let e = ban_rows(x.bans);
    let r0 = seq![comment];
    lemma_read_one(no_stats(), comment, readings);
    lemma_comment_says_nothing(no_stats(), readings);
    lemma_read_parts(no_stats(), r0, a, readings);
    lemma_read_parts(no_stats(), r0 + a, b, readings);
    lemma_read_parts(no_stats(), r0 + a + b, c, readings);
    lemma_read_parts(no_stats(), r0 + a + b + c, d, readings);
    lemma_read_parts(no_stats(), r0 + a + b + c + d, e, readings);
}

/// Weights that were written are read: each champion has its delta, each pair with enough
/// games its own and no other pair any, and each champion its kit and its ban rate, where the
/// rows are lines.
pub proof fn law_weights_are_read(x: Sources, readings: Seq<(Seq<char>, u32)>)
    requires
        sources_writable(x),
        forall|i: int| 0 <= i < rows_from(x).len() ==> is_line(#[trigger] rows_from(x)[i]),
    ensures
        ({
            let t = stats_of(with_feeds(rows_from(x)), readings);
            let champs = x.tally.champs;
            &&& forall|i: int|
                0 <= i < champs.len() ==> lookup(t.delta, (#[trigger] champs[i]).0) == Some(
                    reading(readings, champ_delta(champs[i].1, x.rates)),
                )
            &&& pairs_are_read(t.synergy, x.tally.synergy, x, readings)
            &&& pairs_are_read(t.counter, x.tally.counter, x, readings)
            &&& forall|i: int|
                0 <= i < x.kits.len() ==> lookup(t.taxon, (#[trigger] x.kits[i]).0) == Some(
                    x.kits[i].1,
                )
            &&& forall|i: int|
                0 <= i < x.bans.len() ==> lookup(t.banrate, (#[trigger] x.bans[i]).0) == Some(
                    reading(readings, x.bans[i].1),
                )
        }),
{
    law_lines_read_back(rows_from(x));
    lemma_read_all(rows_from(x), readings);
    lemma_rows_in_turn(x, readings);
    let champs = x.tally.champs;
    let syn = x.tally.synergy;
    let cnt = x.tally.counter;
    let t1 = read_on(no_stats(), champ_rows(champs, x.rates), readings);
    let t2 = read_on(
        t1,
        relation_rows("S"@, syn, syn.len(), x.min_pair, x.rates),
        readings,
    );
    let t3 = read_on(
        t2,
        relation_rows("K"@, cnt, cnt.len(), x.min_pair, x.rates),
        readings,
    );
    let t4 = read_on(t3, kit_rows(x.kits), readings);
    lemma_champs_read(no_stats(), champs, x.rates, champs.len() as int, readings);
    assert(champ_rows(champs, x.rates).take(champs.len() as int) =~= champ_rows(champs, x.rates));
    lemma_relation_read(t1, false, syn, syn.len() as int, x.min_pair, x.rates, readings);
    assert(syn.take(syn.len() as int) =~= syn);
    lemma_relation_read(t2, true, cnt, cnt.len() as int, x.min_pair, x.rates, readings);
    assert(cnt.take(cnt.len() as int) =~= cnt);
    lemma_kits_read(t3, x.kits, x.kits.len() as int, readings);
    assert(kit_rows(x.kits).take(x.kits.len() as int) =~= kit_rows(x.kits));
    lemma_bans_read(t4, x.bans, x.bans.len() as int, readings);
    assert(ban_rows(x.bans).take(x.bans.len() as int) =~= ban_rows(x.bans));
    let t = weights_read(x, readings);
    assert(t.synergy == t2.synergy && t.counter == t3.counter);
    assert forall|a: Seq<char>, b: Seq<char>| #[trigger]
        pair(t.synergy, a, b) == match pair_weight(
            lookup(row_of(syn, a), b),
            x.min_pair,
            x.rates,
            readings,
        ) {
            Some(w) => w,
            None => 0,
        } by {
        assert(pair(relation(t2, false), a, b) == pair(t.synergy, a, b));
        assert(pair_among(syn, syn.len() as int, a, b) == lookup(row_of(syn, a), b));
    }
    assert forall|a: Seq<char>, b: Seq<char>| #[trigger]
        pair(t.counter, a, b) == match pair_weight(
            lookup(row_of(cnt, a), b),
            x.min_pair,
            x.rates,
            readings,
        ) {
            Some(w) => w,
            None => 0,
        } by {
        assert(pair(relation(t3, true), a, b) == pair(t.counter, a, b));
        assert(pair_among(cnt, cnt.len() as int, a, b) == lookup(row_of(cnt, a), b));
    }
}

} // verus!
