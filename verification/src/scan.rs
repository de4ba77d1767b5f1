//! Finding regions, fields and quoted texts in printed data: the structures of Rust's debug
//! format and the objects of JSON.

use vstd::prelude::*;

use crate::numeral::digits_between;
#[allow(unused_imports)]
use crate::numeral::{all_digits, digits_value, is_digit};
use crate::text::{chars_of, search, split_on, split_once, starts_with, text_between};
#[allow(unused_imports)]
use crate::text::{begins, first_at, lemma_first_at, opt_text, parted, pieces};

verus! {

/// How many more delimiters `open` than `close` stand in `s` at the indices `from..to`.
pub open spec fn level(s: Seq<char>, from: int, to: int, open: char, close: char) -> int
    decreases to - from,
{
    if to <= from {
        0
    } else {
        level(s, from, to - 1, open, close) + if s[to - 1] == open {
            1int
        } else if s[to - 1] == close {
            -1
        } else {
            0
        }
    }
}

/// The first index, not before `i`, with which the delimiters of `s` from `from` on are
/// balanced.
pub open spec fn balanced_at(s: Seq<char>, from: int, i: int, open: char, close: char) -> Option<
    int,
>
    decreases s.len() - i,
{
    if i >= s.len() {
        None
    } else if level(s, from, i + 1, open, close) == 0 {
        Some(i)
    } else {
        balanced_at(s, from, i + 1, open, close)
    }
}

/// The index of the delimiter that closes what the delimiter at `from` opens.
pub open spec fn region_end(s: Seq<char>, from: int, open: char, close: char) -> Option<int> {
    if 0 <= from < s.len() && s[from] == open {
        balanced_at(s, from, from, open, close)
    } else {
        None
    }
}

proof fn lemma_balanced_at(s: Seq<char>, from: int, i: int, open: char, close: char)
    requires
        0 <= i,
    ensures
        balanced_at(s, from, i, open, close) matches Some(e) ==> i <= e < s.len() && level(
            s,
            from,
            e + 1,
            open,
            close,
        ) == 0,
    decreases s.len() - i,
{
    if i < s.len() && level(s, from, i + 1, open, close) != 0 {
        lemma_balanced_at(s, from, i + 1, open, close);
    }
}

/// A region ends behind its beginning, with its delimiters balanced, and not before that.
pub proof fn law_region(s: Seq<char>, from: int, open: char, close: char)
    ensures
        region_end(s, from, open, close) matches Some(e) ==> {
            &&& from < e < s.len()
            &&& s[from] == open
            &&& s[e] == close
            &&& level(s, from, e + 1, open, close) == 0
            &&& forall|j: int|
                from < j <= e ==> #[trigger] level(s, from, j, open, close) > 0
        },
{
    if 0 <= from < s.len() && s[from] == open {
        lemma_balanced_at(s, from, from, open, close);
        assert(level(s, from, from, open, close) == 0);
        lemma_above(s, from, from, open, close);
    }
}

proof fn lemma_above(s: Seq<char>, from: int, i: int, open: char, close: char)
    requires
        0 <= from <= i <= s.len(),
        from < s.len(),
        s[from] == open,
        forall|j: int| from < j <= i ==> #[trigger] level(s, from, j, open, close) > 0,
        level(s, from, from, open, close) == 0,
    ensures
        balanced_at(s, from, i, open, close) matches Some(e) ==> from < e && s[e] == close && (
        forall|j: int| from < j <= e ==> #[trigger] level(s, from, j, open, close) > 0),
    decreases s.len() - i,
{
    if i < s.len() {
        let next = level(s, from, i + 1, open, close);
        if i > from {
            assert(level(s, from, i, open, close) > 0);
        }
        if next != 0 {
            lemma_above(s, from, i + 1, open, close);
        }
    }
}

/// The indices of the delimiter at `open_idx` and of the one that closes it.
pub fn read_balanced(s: &[char], open_idx: usize, open: char, close: char) -> (r: Option<
    (usize, usize),
>)
    ensures
        match r {
            Some((a, e)) => a == open_idx && region_end(s@, open_idx as int, open, close) == Some(
                e as int,
            ),
            None => region_end(s@, open_idx as int, open, close) is None,
        },
{
    if open_idx >= s.len() || s[open_idx] != open {
        return None;
    }
    let mut depth: usize = 0;
    let mut i: usize = open_idx;
    while i < s.len()
        invariant
            open_idx <= i <= s@.len(),
            open_idx < s@.len(),
            s@[open_idx as int] == open,
            depth == level(s@, open_idx as int, i as int, open, close),
            depth <= i - open_idx,
            i > open_idx ==> depth > 0,
            region_end(s@, open_idx as int, open, close) == balanced_at(
                s@,
                open_idx as int,
                i as int,
                open,
                close,
            ),
        decreases s@.len() - i,
    {
        let c = s[i];
        if c == open {
            depth += 1;
        } else if c == close {
            depth -= 1;
            if depth == 0 {
                return Some((open_idx, i));
            }
        }
        i += 1;
    }
    None
}

/// The first index, not before `from`, at which a text that is not empty stands.
pub open spec fn found_from(hay: Seq<char>, needle: Seq<char>, from: int) -> Option<int> {
    if needle.len() == 0 {
        None
    } else {
        first_at(hay, needle, from)
    }
}

/// The first index, not before `from`, at which a text that is not empty stands.
pub fn find_from(hay: &[char], needle: &[char], from: usize) -> (r: Option<usize>)
    ensures
        match r {
            Some(i) => found_from(hay@, needle@, from as int) == Some(i as int),
            None => found_from(hay@, needle@, from as int) is None,
        },
{
    if needle.len() == 0 {
        return None;
    }
    search(hay, needle, from)
}

/// What stands behind the first `key` of `s`.
pub open spec fn after_key(s: Seq<char>, key: Seq<char>) -> Option<Seq<char>> {
    match first_at(s, key, 0) {
        Some(i) => Some(s.skip(i + key.len())),
        None => None,
    }
}

/// What stands behind the first `key` of `s`.
pub fn rest_after(s: &str, key: &str) -> (r: Option<String>)
    ensures
        opt_text(r) == after_key(s@, key@),
{
    let c = chars_of(s);
    let k = chars_of(key);
    match search(c.as_slice(), k.as_slice(), 0) {
        Some(i) => {
            proof {
                lemma_first_at(s@, key@, 0);
                assert(i + key@.len() <= c.len());
            }
            let t = text_between(c.as_slice(), i + k.len(), c.len());
            assert(t@ =~= s@.skip(i + key@.len()));
            Some(t)
        },
        None => None,
    }
}

/// The text `a` with `b` behind it.
fn with_suffix(a: &str, b: &str) -> (r: String)
    ensures
        r@ == a@ + b@,
{
    let mut r = a.to_owned();
    r.append(b);
    r
}

/// The truth value of the field `name` of a printed structure.
pub open spec fn bool_field(block: Seq<char>, name: Seq<char>) -> Option<bool> {
    match after_key(block, name + ": "@) {
        Some(rest) => if begins(rest, "true"@) {
            Some(true)
        } else if begins(rest, "false"@) {
            Some(false)
        } else {
            None
        },
        None => None,
    }
}

/// The truth value of the field `name` of a printed structure.
pub fn parse_bool(block: &str, name: &str) -> (r: Option<bool>)
    ensures
        r == bool_field(block@, name@),
{
    let key = with_suffix(name, ": ");
    match rest_after(block, key.as_str()) {
        Some(rest) => if starts_with(rest.as_str(), "true") {
            Some(true)
        } else if starts_with(rest.as_str(), "false") {
            Some(false)
        } else {
            None
        },
        None => None,
    }
}

/// The region that the last character of the first `key` of `s` opens, both delimiters with
/// it.
pub open spec fn region_after(s: Seq<char>, key: Seq<char>, open: char, close: char) -> Option<
    Seq<char>,
> {
    match first_at(s, key, 0) {
        Some(i) => match region_end(s, i + key.len() - 1, open, close) {
            Some(e) => Some(s.subrange(i + key.len() - 1, e + 1)),
            None => None,
        },
        None => None,
    }
}

/// The region that the last character of the first `key` of `s` opens, both delimiters with
/// it.
pub fn read_region(s: &str, key: &str, open: char, close: char) -> (r: Option<String>)
    requires
        key@.len() > 0,
    ensures
        opt_text(r) == region_after(s@, key@, open, close),
{
    let c = chars_of(s);
    let k = chars_of(key);
    match search(c.as_slice(), k.as_slice(), 0) {
        Some(i) => {
            proof {
                lemma_first_at(s@, key@, 0);
                law_region(s@, i + key@.len() - 1, open, close);
                assert(i + key@.len() <= c.len());
            }
            match read_balanced(c.as_slice(), i + k.len() - 1, open, close) {
                Some((a, e)) => Some(text_between(c.as_slice(), a, e + 1)),
                None => None,
            }
        },
        None => None,
    }
}

/// The array of the field `name` of a printed structure, its brackets with it.
pub open spec fn array_field(block: Seq<char>, name: Seq<char>) -> Option<Seq<char>> {
    region_after(block, name + ": ["@, '[', ']')
}

/// The array of the field `name` of a printed structure, its brackets with it.
pub fn extract_array(block: &str, name: &str) -> (r: Option<String>)
    ensures
        opt_text(r) == array_field(block@, name@),
{
    let key = with_suffix(name, ": [");
    proof {
        reveal_strlit(": [");
    }
    read_region(block, key.as_str(), '[', ']')
}

/// What stands before the first quotation mark behind the first `key` of `s`.
pub open spec fn quoted_after(s: Seq<char>, key: Seq<char>) -> Option<Seq<char>> {
    match after_key(s, key) {
        Some(rest) => match parted(rest, '"') {
            Some((q, _)) => Some(q),
            None => None,
        },
        None => None,
    }
}

fn read_quoted(s: &str, key: &str) -> (r: Option<String>)
    ensures
        opt_text(r) == quoted_after(s@, key@),
{
    match rest_after(s, key) {
        Some(rest) => match split_once(rest.as_str(), '"') {
            Some((q, _)) => Some(q),
            None => None,
        },
        None => None,
    }
}

/// The quoted text of the field `field` of a printed structure.
pub open spec fn quoted_field(block: Seq<char>, field: Seq<char>) -> Option<Seq<char>> {
    quoted_after(block, field + ": \""@)
}

/// The quoted text of the field `field` of a printed structure.
pub fn parse_quoted_field(block: &str, field: &str) -> (r: Option<String>)
    ensures
        opt_text(r) == quoted_field(block@, field@),
{
    let key = with_suffix(field, ": \"");
    read_quoted(block, key.as_str())
}

/// The text of the field `field` of a JSON object.
pub open spec fn json_string(block: Seq<char>, field: Seq<char>) -> Option<Seq<char>> {
    quoted_after(block, "\""@ + field + "\": \""@)
}

/// The text of the field `field` of a JSON object.
pub fn json_string_field(block: &str, field: &str) -> (r: Option<String>)
    ensures
        opt_text(r) == json_string(block@, field@),
{
    let mut key = with_suffix("\"", field);
    key.append("\": \"");
    read_quoted(block, key.as_str())
}

/// The texts between the first and the second quotation mark of `s`, the third and the
/// fourth, and so on.
pub open spec fn quoted_texts(s: Seq<char>) -> Seq<Seq<char>> {
    let p = pieces(s, '"');
    Seq::new(((p.len() - 1) / 2) as nat, |i: int| p[2 * i + 1])
}

/// The texts of the array `field` of a JSON object; none where it has no such array.
pub open spec fn json_texts(block: Seq<char>, field: Seq<char>) -> Seq<Seq<char>> {
    match region_after(block, "\""@ + field + "\": ["@, '[', ']') {
        Some(a) => quoted_texts(a.subrange(1, a.len() - 1)),
        None => Seq::empty(),
    }
}

/// The texts of the array `field` of a JSON object.
pub fn parse_quoted_array(block: &str, field: &str) -> (r: Vec<String>)
    ensures
        r.deep_view() == json_texts(block@, field@),
{
    let mut key = with_suffix("\"", field);
    key.append("\": [");
    let mut r: Vec<String> = Vec::new();
    assert(r.deep_view() =~= Seq::empty());
    proof {
        reveal_strlit("\"");
    }
    match read_region(block, key.as_str(), '[', ']') {
        Some(a) => {
            let c = chars_of(a.as_str());
            proof {
                let i = first_at(block@, key@, 0)->0;
                lemma_first_at(block@, key@, 0);
                law_region(block@, i + key@.len() - 1, '[', ']');
            }
            let inner = text_between(c.as_slice(), 1, c.len() - 1);
            let p = split_on(inner.as_str(), '"');
            let ghost ps = pieces(inner@, '"');
            let n: usize = (p.len() - 1) / 2;
            let mut i: usize = 0;
            while i < n
                invariant
                    i <= n,
                    n == (p@.len() - 1) / 2,
                    p@.len() >= 1,
                    p.deep_view() == ps,
                    r@.len() == i,
                    forall|j: int| 0 <= j < i ==> #[trigger] r@[j]@ == ps[2 * j + 1],
                decreases n - i,
            {
                assert(2 * i + 1 < p.len());
                assert(ps[2 * i + 1] == p@[2 * i + 1]@);
                r.push(p[2 * i + 1].clone());
                i += 1;
            }
            assert(r.deep_view() =~= quoted_texts(inner@));
            r
        },
        None => r,
    }
}

/// How many digits stand at the beginning of `s`.
pub open spec fn digit_run(s: Seq<char>) -> int
    decreases s.len(),
{
    if s.len() > 0 && is_digit(s[0]) {
        1 + digit_run(s.skip(1))
    } else {
        0
    }
}

/// The number that the digits at the beginning of `s` write, where there are some and it is
/// not more than `max`.
pub open spec fn leading_number(s: Seq<char>, max: nat) -> Option<nat> {
    let d = s.take(digit_run(s));
    if d.len() > 0 && digits_value(d) <= max {
        Some(digits_value(d))
    } else {
        None
    }
}

proof fn lemma_digit_run(s: Seq<char>, n: int)
    requires
        0 <= n <= s.len(),
        all_digits(s.take(n)),
        n < s.len() ==> !is_digit(s[n]),
    ensures
        digit_run(s) == n,
    decreases n,
{
    if n > 0 {
        assert(s.take(n)[0] == s[0]);
        assert forall|i: int| 0 <= i < n - 1 implies is_digit(#[trigger] s.skip(1).take(n - 1)[i]) by {
            assert(s.take(n)[i + 1] == s.skip(1).take(n - 1)[i]);
        }
        lemma_digit_run(s.skip(1), n - 1);
    }
}

/// The number that the digits at the beginning of `s` write.
pub fn read_leading_number(s: &str, max: u64) -> (r: Option<u64>)
    ensures
        match r {
            Some(n) => leading_number(s@, max as nat) == Some(n as nat),
            None => leading_number(s@, max as nat) is None,
        },
{
    let c = chars_of(s);
    let mut n: usize = 0;
    while n < c.len() && '0' <= c[n] && c[n] <= '9'
        invariant
            n <= c@.len(),
            all_digits(c@.take(n as int)),
        decreases c@.len() - n,
    {
        n += 1;
    }
    proof {
        lemma_digit_run(s@, n as int);
    }
    assert(c@.subrange(0, n as int) == s@.take(n as int));
    digits_between(c.as_slice(), 0, n, max)
}

/// The lanes, in the order in which their weights are looked at.
pub const POSITIONS: [&'static str; 5] = ["top", "jungle", "mid", "bottom", "support"];

/// The weight that the field `pos` of a printed athlete gives to a lane.
pub open spec fn lane_weight(block: Seq<char>, pos: Seq<char>) -> Option<nat> {
    match after_key(block, pos + ": "@) {
        Some(rest) => leading_number(rest, i64::MAX as nat),
        None => None,
    }
}

/// Of the first `n` lanes that have a weight, the first with the greatest one.
pub open spec fn heaviest(block: Seq<char>, n: nat) -> Option<(int, nat)>
    decreases n,
{
    if n == 0 {
        None
    } else {
        let best = heaviest(block, (n - 1) as nat);
        match lane_weight(block, POSITIONS[n - 1]@) {
            Some(w) => match best {
                Some((_, b)) if b >= w => best,
                _ => Some((n - 1, w)),
            },
            None => best,
        }
    }
}

/// The lane of a printed athlete: the first with the greatest weight, where that is not 0.
pub open spec fn lane_of(block: Seq<char>) -> Option<Seq<char>> {
    match heaviest(block, 5) {
        Some((i, w)) if w > 0 => Some(POSITIONS[i]@),
        _ => None,
    }
}

/// The lane of a printed athlete has a weight, no lane has a greater one, and no lane before
/// it has the same; an athlete without a lane has no weight but 0.
pub proof fn law_lane_is_heaviest(block: Seq<char>, n: nat)
    requires
        n <= 5,
    ensures
        match heaviest(block, n) {
            Some((i, w)) => {
                &&& 0 <= i < n
                &&& lane_weight(block, POSITIONS[i]@) == Some(w)
                &&& forall|j: int|
                    0 <= j < n ==> (lane_weight(block, #[trigger] POSITIONS[j]@) matches Some(v)
                        ==> v <= w && (j < i ==> v < w))
            },
            None => forall|j: int|
                0 <= j < n ==> lane_weight(block, #[trigger] POSITIONS[j]@) is None,
        },
    decreases n,
{
    if n > 0 {
        law_lane_is_heaviest(block, (n - 1) as nat);
    }
}

/// The lane of a printed athlete.
pub fn parse_position_from_stats(block: &str) -> (r: Option<String>)
    ensures
        opt_text(r) == lane_of(block@),
{
    let mut best: Option<(usize, u64)> = None;
    let mut i: usize = 0;
    while i < 5
        invariant
            i <= 5,
            match best {
                Some((k, w)) => k < i && heaviest(block@, i as nat) == Some((k as int, w as nat)),
                None => heaviest(block@, i as nat) is None,
            },
        decreases 5 - i,
    {
        let key = with_suffix(POSITIONS[i], ": ");
        let weight = match rest_after(block, key.as_str()) {
            Some(rest) => read_leading_number(rest.as_str(), i64::MAX as u64),
            None => None,
        };
        if let Some(w) = weight {
            let replaces = match best {
                Some((_, b)) => b < w,
                None => true,
            };
            if replaces {
                best = Some((i, w));
            }
        }
        i += 1;
    }
    match best {
        Some((k, w)) => if w > 0 {
            Some(POSITIONS[k].to_owned())
        } else {
            None
        },
        None => None,
    }
}

/// The regions of `s` that begin, from `off` on, with the last character of a `key`: each is
/// looked for behind the one before, up to the first that does not end.
pub open spec fn blocks_from(s: Seq<char>, key: Seq<char>, off: int) -> Seq<Seq<char>>
    decreases s.len() - off,
{
    if off < 0 || off > s.len() {
        Seq::empty()
    } else {
        match found_from(s, key, off) {
            Some(i) => match region_end(s, i + key.len() - 1, '{', '}') {
                Some(e) => {
                    proof {
                        lemma_first_at(s, key, off);
                        law_region(s, i + key.len() - 1, '{', '}');
                    }
                    seq![s.subrange(i + key.len() - 1, e + 1)] + blocks_from(s, key, e + 1)
                },
                None => Seq::empty(),
            },
            None => Seq::empty(),
        }
    }
}

/// The regions of `s` that begin with the last character of a `key`.
pub fn read_blocks(s: &str, key: &str) -> (r: Vec<String>)
    ensures
        r.deep_view() == blocks_from(s@, key@, 0),
{
    let c = chars_of(s);
    let k = chars_of(key);
    let mut r: Vec<String> = Vec::new();
    let mut off: usize = 0;
    assert(r.deep_view() =~= Seq::empty());
    assert(r.deep_view() + blocks_from(s@, key@, 0) =~= blocks_from(s@, key@, 0));
    let mut more = true;
    while more
        invariant
            c@ == s@,
            k@ == key@,
            off <= s@.len(),
            more ==> r.deep_view() + blocks_from(s@, key@, off as int) == blocks_from(s@, key@, 0),
            !more ==> r.deep_view() == blocks_from(s@, key@, 0),
        decreases s@.len() - off, if more {
                1int
            } else {
                0int
            },
    {
        let ghost sofar = r.deep_view();
        assert(sofar + Seq::<Seq<char>>::empty() =~= sofar);
        match find_from(c.as_slice(), k.as_slice(), off) {
            Some(i) => {
                proof {
                    lemma_first_at(s@, key@, off as int);
                    law_region(s@, i + key@.len() - 1, '{', '}');
                    assert(i + key@.len() <= c.len());
                }
                match read_balanced(c.as_slice(), i + k.len() - 1, '{', '}') {
                    Some((a, e)) => {
                        assert(e < c.len());
                        let b = text_between(c.as_slice(), a, e + 1);
                        r.push(b);
                        assert(r.deep_view() =~= sofar.push(b@));
                        assert(sofar.push(b@) + blocks_from(s@, key@, e + 1) =~= sofar + (seq![b@]
                            + blocks_from(s@, key@, e + 1)));
                        off = e + 1;
                    },
                    None => {
                        more = false;
                    },
                }
            },
            None => {
                more = false;
            },
        }
    }
    r
}

/// The structures named `name` that are printed in `s`, from their opening braces on.
pub open spec fn structs(s: Seq<char>, name: Seq<char>) -> Seq<Seq<char>> {
    blocks_from(s, name + " {"@, 0)
}

/// The structures named `struct_name` that are printed in `text`, from their opening braces
/// on.
pub fn split_structs(text: &str, struct_name: &str) -> (r: Vec<String>)
    ensures
        r.deep_view() == structs(text@, struct_name@),
{
    let key = with_suffix(struct_name, " {");
    read_blocks(text, key.as_str())
}

/// A text as it stands in JSON between quotation marks.
pub open spec fn escaped(s: Seq<char>) -> Seq<char>
    decreases s.len(),
{
    if s.len() == 0 {
        Seq::empty()
    } else {
        escaped(s.drop_last()) + if s.last() == '"' {
            seq!['\\', '"']
        } else if s.last() == '\\' {
            seq!['\\', '\\']
        } else if s.last() == '\n' {
            seq!['\\', 'n']
        } else {
            seq![s.last()]
        }
    }
}

/// A text as it stands in JSON between quotation marks.
pub fn json_escape(s: &str) -> (r: String)
    ensures
        r@ == escaped(s@),
{
    let mut r = String::new();
    for c in it: s.chars()
        invariant
            it.seq() == s@,
            r@ == escaped(s@.take(it.index())),
    {
        let ghost i = it.index();
        assert(s@.take(i + 1).drop_last() == s@.take(i));
        let ghost before = r@;
        if c == '"' {
            r.push('\\');
            r.push('"');
            assert(r@ =~= before + seq!['\\', '"']);
        } else if c == '\\' {
            r.push('\\');
            r.push('\\');
            assert(r@ =~= before + seq!['\\', '\\']);
        } else if c == '\n' {
            r.push('\\');
            r.push('n');
            assert(r@ =~= before + seq!['\\', 'n']);
        } else {
            r.push(c);
            assert(r@ =~= before + seq![c]);
        }
    }
    assert(s@.take(s@.len() as int) == s@);
    r
}

/// A character as it stands in JSON between quotation marks.
pub open spec fn escaped_char(c: char) -> Seq<char> {
    if c == '"' {
        seq!['\\', '"']
    } else if c == '\\' {
        seq!['\\', '\\']
    } else if c == '\n' {
        seq!['\\', 'n']
    } else {
        seq![c]
    }
}

/// What a text between quotation marks stands for: a backslash and an `n` for a line feed, a
/// backslash and another character for that character.
pub open spec fn unescaped(s: Seq<char>) -> Seq<char>
    decreases s.len(),
{
    if s.len() == 0 {
        Seq::empty()
    } else if s[0] == '\\' && s.len() > 1 {
        seq![
            if s[1] == 'n' {
                '\n'
            } else {
                s[1]
            },
        ] + unescaped(s.skip(2))
    } else {
        seq![s[0]] + unescaped(s.skip(1))
    }
}

proof fn lemma_escaped_first(s: Seq<char>)
    requires
        s.len() > 0,
    ensures
        escaped(s) == escaped_char(s[0]) + escaped(s.skip(1)),
    decreases s.len(),
{
    if s.len() == 1 {
        assert(s.drop_last() =~= Seq::empty());
        assert(s.skip(1) =~= Seq::empty());
        assert(escaped(s) =~= escaped_char(s[0]) + escaped(s.skip(1)));
    } else {
        lemma_escaped_first(s.drop_last());
        assert(s.skip(1).drop_last() =~= s.drop_last().skip(1));
        assert(escaped(s) =~= escaped_char(s[0]) + escaped(s.skip(1)));
    }
}

/// A text that was escaped is read back, and holds no line feed.
pub proof fn law_escaped_reads_back(s: Seq<char>)
    ensures
        unescaped(escaped(s)) == s,
        crate::text::lacks(escaped(s), '\n'),
    decreases s.len(),
{
    if s.len() > 0 {
        let c = s[0];
        let rest = s.skip(1);
        lemma_escaped_first(s);
        law_escaped_reads_back(rest);
        let e = escaped(s);
        let n = escaped_char(c).len();
        assert(e.skip(n as int) =~= escaped(rest));
        assert forall|i: int| 0 <= i < e.len() implies #[trigger] e[i] != '\n' by {
            if i >= n {
                assert(e[i] == escaped(rest)[i - n]);
            }
        }
        assert(unescaped(e) =~= seq![c] + unescaped(escaped(rest)));
        assert(seq![c] + rest =~= s);
    } else {
        assert(unescaped(escaped(s)) =~= s);
    }
}

/// A text that is not empty is found at its first place not before a given one, the empty text
/// nowhere.
pub proof fn law_found_from(hay: Seq<char>, needle: Seq<char>, from: int, i: int)
    requires
        0 <= from,
    ensures
        needle.len() == 0 ==> found_from(hay, needle, from) is None,
        needle.len() > 0 && from <= i && crate::text::occurs_at(hay, needle, i) ==> (found_from(
            hay,
            needle,
            from,
        ) matches Some(k) && from <= k <= i && crate::text::occurs_at(hay, needle, k)),
        found_from(hay, needle, from) matches Some(k) ==> from <= k && crate::text::occurs_at(
            hay,
            needle,
            k,
        ),
{
    lemma_first_at(hay, needle, from);
}

/// The texts of an array are those that are quoted between its brackets; without the array
/// there are none.
pub proof fn law_json_texts(block: Seq<char>, field: Seq<char>, inner: Seq<char>)
    ensures
        region_after(block, "\""@ + field + "\": ["@, '[', ']') is None ==> json_texts(
            block,
            field,
        ).len() == 0,
        region_after(block, "\""@ + field + "\": ["@, '[', ']') == Some(
            seq!['['] + inner + seq![']'],
        ) ==> json_texts(block, field) == quoted_texts(inner),
{
    let a = seq!['['] + inner + seq![']'];
    assert(a.subrange(1, a.len() - 1) =~= inner);
}

/// A text without quotation marks, backslashes and line feeds stands in JSON as it is.
pub proof fn law_plain_text_is_not_escaped(s: Seq<char>)
    requires
        crate::text::lacks(s, '"'),
        crate::text::lacks(s, '\\'),
        crate::text::lacks(s, '\n'),
    ensures
        escaped(s) == s,
    decreases s.len(),
{
    if s.len() > 0 {
        let front = s.drop_last();
        assert(forall|i: int| 0 <= i < front.len() ==> #[trigger] front[i] == s[i]);
        law_plain_text_is_not_escaped(front);
        assert(s[s.len() - 1] != '"' && s[s.len() - 1] != '\\' && s[s.len() - 1] != '\n');
        assert(front + seq![s.last()] =~= s);
    }
}

} // verus!
