//! Texts as character sequences: cutting them up, searching them and putting them together.

use vstd::prelude::*;

verus! {

/// `String::push` puts one character behind the text that is there.
pub assume_specification[ String::push ](s: &mut String, c: char)
    ensures
        final(s)@ == old(s)@.push(c),
;

/// The characters of `s`, in order.
pub fn chars_of(s: &str) -> (r: Vec<char>)
    ensures
        r@ == s@,
{
    let mut r: Vec<char> = Vec::new();
    for c in it: s.chars()
        invariant
            r@ == it.seq().take(it.index()),
            it.seq() == s@,
    {
        r.push(c);
    }
    r
}

/// The text made of the characters `from..to` of `c`.
pub fn text_between(c: &[char], from: usize, to: usize) -> (r: String)
    requires
        from <= to <= c@.len(),
    ensures
        r@ == c@.subrange(from as int, to as int),
{
    let mut r = String::new();
    let mut i: usize = from;
    while i < to
        invariant
            from <= i <= to <= c@.len(),
            r@ == c@.subrange(from as int, i as int),
        decreases to - i,
    {
        r.push(c[i]);
        i += 1;
    }
    r
}

/// Whether two texts hold the same characters.
pub fn same_text(a: &str, b: &str) -> (r: bool)
    ensures
        r == (a@ == b@),
{
    a.to_owned() == b.to_owned()
}

/// `s` cut at every `sep`: with each further character the last piece grows, or a new
/// piece begins.
pub open spec fn pieces(s: Seq<char>, sep: char) -> Seq<Seq<char>>
    decreases s.len(),
{
    if s.len() == 0 {
        seq![Seq::empty()]
    } else {
        let front = pieces(s.drop_last(), sep);
        if s.last() == sep {
            front.push(Seq::empty())
        } else {
            front.drop_last().push(front.last().push(s.last()))
        }
    }
}

/// The pieces of `s` between the `sep` characters (one piece where there is none).
pub fn split_on(s: &str, sep: char) -> (r: Vec<String>)
    ensures
        r.deep_view() == pieces(s@, sep),
        r.len() >= 1,
{
    let mut done: Vec<String> = Vec::new();
    let mut cur = String::new();
    for c in it: s.chars()
        invariant
            it.seq() == s@,
            done.deep_view().push(cur@) == pieces(s@.take(it.index()), sep),
    {
        let ghost i = it.index();
        assert(s@.take(i + 1).drop_last() == s@.take(i));
        let ghost before = done.deep_view();
        if c == sep {
            done.push(cur);
            cur = String::new();
            assert(done.deep_view() =~= before.push(done@.last()@));
        } else {
            cur.push(c);
            assert(before.push(cur@).drop_last() =~= before);
        }
    }
    assert(s@.take(s@.len() as int) == s@);
    let ghost before = done.deep_view();
    done.push(cur);
    assert(done.deep_view() =~= before.push(cur@));
    done
}

/// A text without one carriage return at its end.
pub open spec fn without_cr(s: Seq<char>) -> Seq<char> {
    if s.len() > 0 && s.last() == '\r' {
        s.drop_last()
    } else {
        s
    }
}

/// The lines of `s`: its pieces between line feeds, each terminated one without the
/// carriage return before its line feed. Nothing behind the last line feed is no line.
pub open spec fn line_seq(s: Seq<char>) -> Seq<Seq<char>> {
    let p = pieces(s, '\n');
    let terminated = Seq::new((p.len() - 1) as nat, |i: int| without_cr(p[i]));
    if p.last().len() == 0 {
        terminated
    } else {
        terminated.push(p.last())
    }
}

/// The lines of `s`.
pub fn lines(s: &str) -> (r: Vec<String>)
    ensures
        r.deep_view() == line_seq(s@),
{
    let p = split_on(s, '\n');
    let ghost ps = pieces(s@, '\n');
    assert(forall|i: int| 0 <= i < p@.len() ==> #[trigger] p@[i]@ == ps[i]);
    let mut r: Vec<String> = Vec::new();
    let last: usize = p.len() - 1;
    let mut i: usize = 0;
    while i < last
        invariant
            i <= last,
            last == p@.len() - 1,
            forall|j: int| 0 <= j < p@.len() ==> #[trigger] p@[j]@ == ps[j],
            r@.len() == i,
            forall|j: int| 0 <= j < i ==> #[trigger] r@[j]@ == without_cr(ps[j]),
        decreases last - i,
    {
        let c = chars_of(p[i].as_str());
        let n: usize = c.len();
        if n > 0 && c[n - 1] == '\r' {
            r.push(text_between(c.as_slice(), 0, n - 1));
        } else {
            r.push(p[i].clone());
        }
        i += 1;
    }
    assert(p@[last as int]@ == ps.last());
    if !p[last].as_str().is_empty() {
        r.push(p[last].clone());
    }
    assert(r.deep_view() =~= line_seq(s@));
    r
}

/// Whether `p` stands in `s` at index `i`.
pub open spec fn occurs_at(s: Seq<char>, p: Seq<char>, i: int) -> bool {
    0 <= i && i + p.len() <= s.len() && s.subrange(i, i + p.len()) == p
}

/// The first index, not before `from`, at which `p` stands in `s`.
pub open spec fn first_at(s: Seq<char>, p: Seq<char>, from: int) -> Option<int>
    decreases s.len() + 1 - from,
{
    if from < 0 || from + p.len() > s.len() {
        None
    } else if occurs_at(s, p, from) {
        Some(from)
    } else {
        first_at(s, p, from + 1)
    }
}

/// `first_at` gives an index in reach at which `p` stands, with none before it.
pub proof fn lemma_first_at(s: Seq<char>, p: Seq<char>, from: int)
    requires
        0 <= from,
    ensures
        match first_at(s, p, from) {
            Some(i) => from <= i && occurs_at(s, p, i) && forall|j: int|
                from <= j < i ==> !#[trigger] occurs_at(s, p, j),
            None => forall|j: int| from <= j ==> !#[trigger] occurs_at(s, p, j),
        },
    decreases s.len() + 1 - from,
{
    if from + p.len() <= s.len() && !occurs_at(s, p, from) {
        lemma_first_at(s, p, from + 1);
    }
}

/// Whether `p` stands somewhere in `s`.
pub open spec fn has(s: Seq<char>, p: Seq<char>) -> bool {
    first_at(s, p, 0) is Some
}

/// Whether `p` stands in `s` at `i`.
pub fn is_at(s: &[char], p: &[char], i: usize) -> (r: bool)
    requires
        i <= s@.len(),
    ensures
        r == occurs_at(s@, p@, i as int),
{
    if p.len() > s.len() - i {
        return false;
    }
    let mut k: usize = 0;
    while k < p.len()
        invariant
            k <= p@.len(),
            i + p@.len() <= s.len(),
            forall|j: int| 0 <= j < k ==> s@[i + j] == p@[j],
        decreases p@.len() - k,
    {
        if s[i + k] != p[k] {
            assert(s@.subrange(i as int, i + p@.len())[k as int] != p@[k as int]);
            return false;
        }
        k += 1;
    }
    assert(s@.subrange(i as int, i + p@.len()) =~= p@);
    true
}

/// The first index, not before `from`, at which `p` stands in `s`.
pub fn search(s: &[char], p: &[char], from: usize) -> (r: Option<usize>)
    ensures
        match r {
            Some(i) => first_at(s@, p@, from as int) == Some(i as int),
            None => first_at(s@, p@, from as int) is None,
        },
{
    if p.len() > s.len() {
        return None;
    }
    let last: usize = s.len() - p.len();
    let mut i: usize = from;
    while i <= last
        invariant
            last == s@.len() - p@.len(),
            from <= i,
            first_at(s@, p@, from as int) == first_at(s@, p@, i as int),
        decreases last + 1 - i,
    {
        if is_at(s, p, i) {
            return Some(i);
        }
        if i == last {
            return None;
        }
        i += 1;
    }
    None
}

/// Whether `p` stands somewhere in `s`.
pub fn has_text(s: &str, p: &str) -> (r: bool)
    ensures
        r == has(s@, p@),
{
    let sc = chars_of(s);
    let pc = chars_of(p);
    search(sc.as_slice(), pc.as_slice(), 0).is_some()
}

/// Whether `s` begins with `p`.
pub open spec fn begins(s: Seq<char>, p: Seq<char>) -> bool {
    p.len() <= s.len() && s.take(p.len() as int) == p
}

/// Whether `s` ends with `p`.
pub open spec fn ends(s: Seq<char>, p: Seq<char>) -> bool {
    p.len() <= s.len() && s.skip(s.len() - p.len()) == p
}

/// Whether `s` begins with `p`.
pub fn starts_with(s: &str, p: &str) -> (r: bool)
    ensures
        r == begins(s@, p@),
{
    let sc = chars_of(s);
    let pc = chars_of(p);
    is_at(sc.as_slice(), pc.as_slice(), 0)
}

/// Whether `s` ends with `p`.
pub fn ends_with(s: &str, p: &str) -> (r: bool)
    ensures
        r == ends(s@, p@),
{
    let sc = chars_of(s);
    let pc = chars_of(p);
    if pc.len() > sc.len() {
        return false;
    }
    assert(s@.subrange(s@.len() - p@.len(), s@.len() as int) =~= s@.skip(s@.len() - p@.len()));
    is_at(sc.as_slice(), pc.as_slice(), sc.len() - pc.len())
}

/// `s` without `p` at its beginning, where `p` stands there.
pub open spec fn after_prefix(s: Seq<char>, p: Seq<char>) -> Option<Seq<char>> {
    if begins(s, p) {
        Some(s.skip(p.len() as int))
    } else {
        None
    }
}

/// What an optional text holds.
pub open spec fn opt_text(o: Option<String>) -> Option<Seq<char>> {
    match o {
        Some(t) => Some(t@),
        None => None,
    }
}

/// `s` without `p` at its beginning, or nothing where it does not begin so.
pub fn strip_prefix(s: &str, p: &str) -> (r: Option<String>)
    ensures
        opt_text(r) == after_prefix(s@, p@),
{
    let sc = chars_of(s);
    let pc = chars_of(p);
    if !is_at(sc.as_slice(), pc.as_slice(), 0) {
        return None;
    }
    let t = text_between(sc.as_slice(), pc.len(), sc.len());
    assert(t@ =~= s@.skip(p@.len() as int));
    Some(t)
}

/// The first index of `c` in `s`, or the length of `s` where it is nowhere.
pub open spec fn char_index(s: Seq<char>, c: char) -> int
    decreases s.len(),
{
    if s.len() == 0 || s[0] == c {
        0
    } else {
        1 + char_index(s.skip(1), c)
    }
}

/// `char_index` is the one index that has no `c` before it and `c` at it (or ends `s`).
pub proof fn lemma_char_index(s: Seq<char>, c: char, i: int)
    requires
        0 <= i <= s.len(),
        forall|j: int| 0 <= j < i ==> s[j] != c,
        i < s.len() ==> s[i] == c,
    ensures
        char_index(s, c) == i,
    decreases s.len(),
{
    if s.len() > 0 && s[0] != c {
        assert(forall|j: int| 0 <= j < i - 1 ==> s.skip(1)[j] == s[j + 1]);
        lemma_char_index(s.skip(1), c, i - 1);
    }
}

/// The first index of `c` in `s` from `from` on, counted from `from`.
pub fn index_of(s: &[char], c: char, from: usize) -> (r: usize)
    requires
        from <= s@.len(),
    ensures
        from <= r <= s@.len(),
        r - from == char_index(s@.skip(from as int), c),
        r < s@.len() ==> s@[r as int] == c,
        forall|j: int| from <= j < r ==> s@[j] != c,
{
    let mut i: usize = from;
    while i < s.len() && s[i] != c
        invariant
            from <= i <= s@.len(),
            forall|j: int| from <= j < i ==> s@[j] != c,
        decreases s@.len() - i,
    {
        i += 1;
    }
    proof {
        let t = s@.skip(from as int);
        assert(forall|j: int| 0 <= j < t.len() ==> t[j] == s@[from + j]);
        lemma_char_index(t, c, i - from);
    }
    i
}

/// What stands before and after the first `c` of `s`.
pub open spec fn parted(s: Seq<char>, c: char) -> Option<(Seq<char>, Seq<char>)> {
    let i = char_index(s, c);
    if i < s.len() {
        Some((s.take(i), s.skip(i + 1)))
    } else {
        None
    }
}

/// What stands before and after the first `c` of `s`, or nothing where `s` has no `c`.
pub fn split_once(s: &str, c: char) -> (r: Option<(String, String)>)
    ensures
        match r {
            Some((k, v)) => parted(s@, c) == Some((k@, v@)),
            None => parted(s@, c) is None,
        },
{
    let sc = chars_of(s);
    let i = index_of(sc.as_slice(), c, 0);
    assert(sc@.skip(0) == s@);
    if i == sc.len() {
        return None;
    }
    let k = text_between(sc.as_slice(), 0, i);
    let v = text_between(sc.as_slice(), i + 1, sc.len());
    assert(v@ =~= s@.skip(i + 1));
    Some((k, v))
}

/// The characters of Unicode's `White_Space` property.
pub open spec fn white(c: char) -> bool {
    ||| '\t' <= c <= '\r'
    ||| c == ' '
    ||| c == '\u{85}'
    ||| c == '\u{a0}'
    ||| c == '\u{1680}'
    ||| '\u{2000}' <= c <= '\u{200a}'
    ||| c == '\u{2028}'
    ||| c == '\u{2029}'
    ||| c == '\u{202f}'
    ||| c == '\u{205f}'
    ||| c == '\u{3000}'
}

fn is_white(c: char) -> (r: bool)
    ensures
        r == white(c),
{
    ('\t' <= c && c <= '\r') || c == ' ' || c == '\u{85}' || c == '\u{a0}' || c == '\u{1680}' || (
    '\u{2000}' <= c && c <= '\u{200a}') || c == '\u{2028}' || c == '\u{2029}' || c == '\u{202f}' || c
        == '\u{205f}' || c == '\u{3000}'
}

/// `s` without the white space at its beginning.
pub open spec fn trimmed_start(s: Seq<char>) -> Seq<char>
    decreases s.len(),
{
    if s.len() > 0 && white(s[0]) {
        trimmed_start(s.skip(1))
    } else {
        s
    }
}

/// `s` without the white space at its end.
pub open spec fn trimmed_end(s: Seq<char>) -> Seq<char>
    decreases s.len(),
{
    if s.len() > 0 && white(s.last()) {
        trimmed_end(s.drop_last())
    } else {
        s
    }
}

/// `s` without the white space at its beginning and at its end.
pub open spec fn trimmed(s: Seq<char>) -> Seq<char> {
    trimmed_end(trimmed_start(s))
}

/// `s` without the white space at its beginning and at its end.
pub fn trim(s: &str) -> (r: String)
    ensures
        r@ == trimmed(s@),
{
    let c = chars_of(s);
    let mut lo: usize = 0;
    assert(s@.skip(0) == s@);
    while lo < c.len() && is_white(c[lo])
        invariant
            c@ == s@,
            lo <= c@.len(),
            trimmed_start(s@) == trimmed_start(s@.skip(lo as int)),
        decreases c@.len() - lo,
    {
        assert(s@.skip(lo as int)[0] == s@[lo as int]);
        assert(s@.skip(lo as int).skip(1) == s@.skip(lo + 1));
        lo += 1;
    }
    let ghost t = s@.skip(lo as int);
    assert(lo < c@.len() ==> t[0] == s@[lo as int]);
    assert(trimmed_start(s@) == t);
    let mut hi: usize = c.len();
    assert(s@.subrange(lo as int, hi as int) == t);
    while hi > lo && is_white(c[hi - 1])
        invariant
            c@ == s@,
            lo <= hi <= c@.len(),
            trimmed_end(t) == trimmed_end(s@.subrange(lo as int, hi as int)),
        decreases hi,
    {
        assert(s@.subrange(lo as int, hi as int).drop_last() == s@.subrange(lo as int, hi - 1));
        hi -= 1;
    }
    text_between(c.as_slice(), lo, hi)
}

/// The texts of `v`, one behind the other, with `sep` between them.
pub open spec fn joined(v: Seq<Seq<char>>, sep: Seq<char>) -> Seq<char>
    decreases v.len(),
{
    if v.len() == 0 {
        Seq::empty()
    } else if v.len() == 1 {
        v[0]
    } else {
        joined(v.drop_last(), sep) + sep + v.last()
    }
}

/// The texts of `v`, one behind the other, with `sep` between them.
pub fn join(v: &Vec<String>, sep: &str) -> (r: String)
    ensures
        r@ == joined(v.deep_view(), sep@),
{
    let mut r = String::new();
    let mut i: usize = 0;
    let ghost d = v.deep_view();
    while i < v.len()
        invariant
            i <= v@.len(),
            d == v.deep_view(),
            r@ == joined(d.take(i as int), sep@),
        decreases v@.len() - i,
    {
        assert(d.take(i + 1).drop_last() == d.take(i as int));
        assert(d[i as int] == v@[i as int]@);
        if i > 0 {
            r.append(sep);
        }
        r.append(v[i].as_str());
        i += 1;
    }
    assert(d.take(i as int) == d);
    r
}

/// The lines of a file: every text of `v` with a line feed behind it.
pub open spec fn with_feeds(v: Seq<Seq<char>>) -> Seq<char>
    decreases v.len(),
{
    if v.len() == 0 {
        Seq::empty()
    } else {
        with_feeds(v.drop_last()) + v.last().push('\n')
    }
}

/// The lines of a file: every text of `v` with a line feed behind it.
pub fn to_lines(v: &Vec<String>) -> (r: String)
    ensures
        r@ == with_feeds(v.deep_view()),
{
    let mut r = String::new();
    let mut i: usize = 0;
    let ghost d = v.deep_view();
    while i < v.len()
        invariant
            i <= v@.len(),
            d == v.deep_view(),
            r@ == with_feeds(d.take(i as int)),
        decreases v@.len() - i,
    {
        assert(d.take(i + 1).drop_last() == d.take(i as int));
        assert(d[i as int] == v@[i as int]@);
        let ghost sofar = r@;
        r.append(v[i].as_str());
        r.push('\n');
        assert(r@ =~= sofar + d[i as int].push('\n'));
        i += 1;
    }
    assert(d.take(i as int) == d);
    r
}

/// `s` with `with` in place of each `c`.
pub open spec fn replaced(s: Seq<char>, c: char, with: Seq<char>) -> Seq<char>
    decreases s.len(),
{
    if s.len() == 0 {
        Seq::empty()
    } else {
        replaced(s.drop_last(), c, with) + if s.last() == c {
            with
        } else {
            seq![s.last()]
        }
    }
}

/// `s` with `with` in place of each `c`.
pub fn replace_char(s: &str, c: char, with: &str) -> (r: String)
    ensures
        r@ == replaced(s@, c, with@),
{
    let mut r = String::new();
    for x in it: s.chars()
        invariant
            it.seq() == s@,
            r@ == replaced(s@.take(it.index()), c, with@),
    {
        let ghost i = it.index();
        assert(s@.take(i + 1).drop_last() == s@.take(i));
        let ghost before = r@;
        if x == c {
            r.append(with);
        } else {
            r.push(x);
            assert(r@ == before + seq![x]);
        }
    }
    assert(s@.take(s@.len() as int) == s@);
    r
}

/// The order of texts: by their first characters that differ, a beginning before what it
/// begins.
pub open spec fn before(a: Seq<char>, b: Seq<char>) -> bool
    decreases a.len(),
{
    if b.len() == 0 {
        false
    } else if a.len() == 0 {
        true
    } else {
        a[0] < b[0] || (a[0] == b[0] && before(a.skip(1), b.skip(1)))
    }
}

/// Whether `a` is ordered before `b`.
pub fn text_before(a: &str, b: &str) -> (r: bool)
    ensures
        r == before(a@, b@),
{
    let ac = chars_of(a);
    let bc = chars_of(b);
    let mut i: usize = 0;
    assert(a@.skip(0) == a@);
    assert(b@.skip(0) == b@);
    while i < ac.len() && i < bc.len()
        invariant
            ac@ == a@,
            bc@ == b@,
            i <= ac@.len(),
            i <= bc@.len(),
            before(a@, b@) == before(a@.skip(i as int), b@.skip(i as int)),
        decreases ac@.len() - i,
    {
        assert(a@.skip(i as int).skip(1) == a@.skip(i + 1));
        assert(b@.skip(i as int).skip(1) == b@.skip(i + 1));
        if ac[i] < bc[i] {
            return true;
        }
        if ac[i] > bc[i] {
            return false;
        }
        i += 1;
    }
    ac.len() == i && i < bc.len()
}

/// No text is before itself, and of two different texts one is before the other.
pub proof fn lemma_before_total(a: Seq<char>, b: Seq<char>)
    ensures
        !before(a, a),
        a != b ==> before(a, b) != before(b, a),
    decreases a.len(),
{
    if a.len() > 0 {
        lemma_before_total(a.skip(1), if b.len() > 0 { b.skip(1) } else { b });
        if b.len() > 0 && a[0] == b[0] && a != b {
            assert(a.skip(1) != b.skip(1)) by {
                if a.skip(1) == b.skip(1) {
                    assert(a =~= seq![a[0]] + a.skip(1));
                    assert(b =~= seq![b[0]] + b.skip(1));
                }
            }
        }
    } else if b.len() == 0 {
        assert(a =~= b);
    }
}

/// What is before a text that is before another is before that other.
pub proof fn lemma_before_transitive(a: Seq<char>, b: Seq<char>, c: Seq<char>)
    requires
        before(a, b),
        before(b, c),
    ensures
        before(a, c),
    decreases a.len(),
{
    if a.len() > 0 && a[0] == b[0] && b[0] == c[0] {
        lemma_before_transitive(a.skip(1), b.skip(1), c.skip(1));
    }
}

/// A copy of the texts of `v`.
pub fn copy_texts(v: &Vec<String>) -> (r: Vec<String>)
    ensures
        r.deep_view() == v.deep_view(),
{
    let mut r: Vec<String> = Vec::new();
    let mut i: usize = 0;
    while i < v.len()
        invariant
            i <= v@.len(),
            r@.len() == i,
            forall|j: int| 0 <= j < i ==> #[trigger] r@[j]@ == v@[j]@,
        decreases v@.len() - i,
    {
        r.push(v[i].clone());
        i += 1;
    }
    assert(r.deep_view() =~= v.deep_view());
    r
}

/// Whether the texts of `v` hold `t`.
pub fn has_member(v: &Vec<String>, t: &str) -> (r: bool)
    ensures
        r == v.deep_view().contains(t@),
{
    let ghost d = v.deep_view();
    let mut i: usize = 0;
    while i < v.len()
        invariant
            i <= v@.len(),
            d == v.deep_view(),
            forall|j: int| 0 <= j < i ==> d[j] != t@,
        decreases v@.len() - i,
    {
        assert(d[i as int] == v@[i as int]@);
        if same_text(v[i].as_str(), t) {
            return true;
        }
        i += 1;
    }
    false
}

/// Whether `c` does not stand in `s`.
pub open spec fn lacks(s: Seq<char>, c: char) -> bool {
    forall|i: int| 0 <= i < s.len() ==> #[trigger] s[i] != c
}

/// There is always a piece.
pub proof fn lemma_pieces_some(s: Seq<char>, sep: char)
    ensures
        pieces(s, sep).len() > 0,
    decreases s.len(),
{
    if s.len() > 0 {
        lemma_pieces_some(s.drop_last(), sep);
    }
}

/// A text without separator makes the last piece of the text before it longer.
pub proof fn lemma_pieces_grow(a: Seq<char>, b: Seq<char>, sep: char)
    requires
        lacks(b, sep),
    ensures
        pieces(a + b, sep) == pieces(a, sep).drop_last().push(pieces(a, sep).last() + b),
    decreases b.len(),
{
    lemma_pieces_some(a, sep);
    let p = pieces(a, sep);
    if b.len() == 0 {
        assert(a + b == a);
        assert(p.last() + b == p.last());
        assert(p.drop_last().push(p.last()) == p);
    } else {
        let front = b.drop_last();
        assert(lacks(front, sep)) by {
            assert(forall|i: int| 0 <= i < front.len() ==> #[trigger] front[i] == b[i]);
        }
        lemma_pieces_grow(a, front, sep);
        assert((a + b).drop_last() == a + front);
        assert((a + b).last() == b.last());
        let q = pieces(a + front, sep);
        assert(q.drop_last() == p.drop_last());
        assert(q.last() == p.last() + front);
        assert(q.last().push(b.last()) == p.last() + b);
        assert(b[b.len() - 1] != sep);
    }
}

/// A text without separator is its only piece.
pub proof fn lemma_one_piece(s: Seq<char>, sep: char)
    requires
        lacks(s, sep),
    ensures
        pieces(s, sep) == seq![s],
{
    let none = Seq::<char>::empty();
    lemma_pieces_grow(none, s, sep);
    assert(none + s == s);
    assert(pieces(none, sep).drop_last().push(pieces(none, sep).last() + s) == seq![s]);
}

/// A piece holds no separator.
pub proof fn lemma_pieces_lack(s: Seq<char>, sep: char)
    ensures
        forall|i: int| 0 <= i < pieces(s, sep).len() ==> lacks(#[trigger] pieces(s, sep)[i], sep),
    decreases s.len(),
{
    if s.len() > 0 {
        lemma_pieces_lack(s.drop_last(), sep);
        lemma_pieces_some(s.drop_last(), sep);
        let front = pieces(s.drop_last(), sep);
        let p = pieces(s, sep);
        assert forall|i: int| 0 <= i < p.len() implies lacks(#[trigger] p[i], sep) by {
            if s.last() == sep {
                if i < front.len() {
                    assert(p[i] == front[i]);
                }
            } else if i < front.len() - 1 {
                assert(p[i] == front[i]);
            } else {
                assert(lacks(front[front.len() - 1], sep));
                assert(p[i] == front.last().push(s.last()));
            }
        }
    }
}

/// A character that is in no part and not in the separator is not in what they are joined to.
pub proof fn lemma_joined_lacks(f: Seq<Seq<char>>, sep: Seq<char>, c: char)
    requires
        forall|i: int| 0 <= i < f.len() ==> lacks(#[trigger] f[i], c),
        lacks(sep, c),
    ensures
        lacks(joined(f, sep), c),
    decreases f.len(),
{
    if f.len() == 1 {
        assert(lacks(f[0], c));
    } else if f.len() > 1 {
        let front = f.drop_last();
        assert(forall|i: int| 0 <= i < front.len() ==> #[trigger] front[i] == f[i]);
        lemma_joined_lacks(front, sep, c);
        let a = joined(front, sep);
        let all = joined(f, sep);
        assert(lacks(f[f.len() - 1], c));
        assert forall|i: int| 0 <= i < all.len() implies #[trigger] all[i] != c by {
            if i < a.len() {
                assert(all[i] == a[i]);
            } else if i < a.len() + sep.len() {
                assert(all[i] == sep[i - a.len()]);
            } else {
                assert(all[i] == f.last()[i - a.len() - sep.len()]);
            }
        }
    }
}

/// Keeping what all have keeps all.
pub proof fn lemma_filter_all(s: Seq<Seq<char>>, p: spec_fn(Seq<char>) -> bool)
    requires
        forall|i: int| 0 <= i < s.len() ==> p(#[trigger] s[i]),
    ensures
        s.filter(p) == s,
    decreases s.len(),
{
    reveal(Seq::filter);
    if s.len() > 0 {
        let front = s.drop_last();
        assert(forall|i: int| 0 <= i < front.len() ==> #[trigger] front[i] == s[i]);
        lemma_filter_all(front, p);
        assert(p(s[s.len() - 1]));
        assert(front.push(s.last()) =~= s);
    } else {
        assert(s.filter(p) =~= s);
    }
}

/// Cutting what was joined gives the parts back, where none of them holds the separator.
pub proof fn law_joined_is_cut(v: Seq<Seq<char>>, sep: char)
    requires
        v.len() > 0,
        forall|i: int| 0 <= i < v.len() ==> lacks(#[trigger] v[i], sep),
    ensures
        pieces(joined(v, seq![sep]), sep) == v,
    decreases v.len(),
{
    if v.len() == 1 {
        assert(lacks(v[0], sep));
        lemma_one_piece(v[0], sep);
        assert(seq![v[0]] == v);
    } else {
        let front = v.drop_last();
        assert(forall|i: int| 0 <= i < front.len() ==> #[trigger] front[i] == v[i]);
        law_joined_is_cut(front, sep);
        let f = joined(front, seq![sep]);
        let g = f + seq![sep];
        assert(g.drop_last() == f);
        assert(pieces(g, sep) == front.push(Seq::empty()));
        assert(lacks(v[v.len() - 1], sep));
        lemma_pieces_grow(g, v.last(), sep);
        assert(front.push(Seq::<char>::empty()).drop_last() == front);
        assert(Seq::<char>::empty() + v.last() == v.last());
        assert(front.push(v.last()) == v);
    }
}

/// Whether a text is one line: it holds no line feed and does not end with a carriage
/// return.
pub open spec fn is_line(s: Seq<char>) -> bool {
    lacks(s, '\n') && !(s.len() > 0 && s.last() == '\r')
}

/// A line holds no line feed.
pub proof fn lemma_lines_lack(s: Seq<char>)
    ensures
        forall|i: int| 0 <= i < line_seq(s).len() ==> lacks(#[trigger] line_seq(s)[i], '\n'),
{
    lemma_pieces_lack(s, '\n');
    lemma_pieces_some(s, '\n');
    let p = pieces(s, '\n');
    let v = line_seq(s);
    assert forall|i: int| 0 <= i < v.len() implies lacks(#[trigger] v[i], '\n') by {
        assert(lacks(p[i], '\n'));
        if i < p.len() - 1 {
            assert(v[i] == without_cr(p[i]));
        }
    }
}

/// Reading what was written as lines gives each text back without a carriage return at its
/// end, where none holds a line feed.
pub proof fn lemma_lines_written(v: Seq<Seq<char>>)
    requires
        forall|i: int| 0 <= i < v.len() ==> lacks(#[trigger] v[i], '\n'),
    ensures
        line_seq(with_feeds(v)) == v.map_values(|s: Seq<char>| without_cr(s)),
{
    lemma_feeds_cut(v);
    let p = pieces(with_feeds(v), '\n');
    assert(p.last() == Seq::<char>::empty());
    assert(line_seq(with_feeds(v)) =~= v.map_values(|s: Seq<char>| without_cr(s)));
}

/// Reading the lines of texts with line feeds between them gives the texts back, where each is
/// one line and the last is not empty.
pub proof fn lemma_joined_lines(v: Seq<Seq<char>>)
    requires
        v.len() > 0,
        v.last().len() > 0,
        forall|i: int| 0 <= i < v.len() ==> is_line(#[trigger] v[i]),
    ensures
        line_seq(joined(v, "\n"@)) == v,
{
    reveal_strlit("\n");
    assert("\n"@ =~= seq!['\n']);
    assert forall|i: int| 0 <= i < v.len() implies lacks(#[trigger] v[i], '\n') by {
        assert(is_line(v[i]));
    }
    law_joined_is_cut(v, '\n');
    let s = joined(v, "\n"@);
    assert forall|i: int| 0 <= i < v.len() implies without_cr(#[trigger] v[i]) == v[i] by {
        assert(is_line(v[i]));
    }
    assert(line_seq(s) =~= v);
}

/// Reading the lines of what was written as lines gives the texts back, where each is one
/// line.
pub proof fn law_lines_read_back(v: Seq<Seq<char>>)
    requires
        forall|i: int| 0 <= i < v.len() ==> is_line(#[trigger] v[i]),
    ensures
        line_seq(with_feeds(v)) == v,
{
    assert forall|i: int| 0 <= i < v.len() implies lacks(#[trigger] v[i], '\n') && without_cr(v[i])
        == v[i] by {
        assert(is_line(v[i]));
    }
    lemma_lines_written(v);
    assert(line_seq(with_feeds(v)) =~= v);
}

proof fn lemma_feeds_cut(v: Seq<Seq<char>>)
    requires
        forall|i: int| 0 <= i < v.len() ==> lacks(#[trigger] v[i], '\n'),
    ensures
        pieces(with_feeds(v), '\n') == v.push(Seq::empty()),
    decreases v.len(),
{
    if v.len() == 0 {
        assert(v.push(Seq::<char>::empty()) == seq![Seq::<char>::empty()]);
    } else {
        let front = v.drop_last();
        assert(forall|i: int| 0 <= i < front.len() ==> #[trigger] front[i] == v[i]);
        lemma_feeds_cut(front);
        let f = with_feeds(front);
        let w = v.last();
        assert(lacks(v[v.len() - 1], '\n'));
        lemma_pieces_grow(f, w, '\n');
        assert(front.push(Seq::<char>::empty()).drop_last() == front);
        assert(Seq::<char>::empty() + w == w);
        assert(front.push(w) == v);
        assert(pieces(f + w, '\n') == v);
        let all = with_feeds(v);
        assert(all == f + w.push('\n'));
        assert(all.drop_last() =~= f + w);
        assert(all.last() == '\n');
    }
}

/// A text without the separator is one piece; a separator with such a text behind it makes
/// that text one more piece.
pub proof fn law_pieces(a: Seq<char>, b: Seq<char>, sep: char)
    requires
        lacks(b, sep),
    ensures
        pieces(b, sep) == seq![b],
        pieces(a.push(sep) + b, sep) == pieces(a, sep).push(b),
{
    lemma_one_piece(b, sep);
    lemma_pieces_grow(a.push(sep), b, sep);
    assert(a.push(sep).drop_last() =~= a);
    let p = pieces(a, sep);
    assert(p.push(Seq::empty()).drop_last() =~= p);
    assert(Seq::<char>::empty() + b =~= b);
}

/// A text stands in another if and only if that is some text, this one, and some text.
pub proof fn law_has(s: Seq<char>, p: Seq<char>)
    ensures
        has(s, p) <==> exists|a: Seq<char>, b: Seq<char>| s == #[trigger] (a + p + b),
{
    lemma_first_at(s, p, 0);
    if let Some(i) = first_at(s, p, 0) {
        let a = s.take(i);
        let b = s.skip(i + p.len());
        assert(s =~= a + p + b);
    }
    if exists|a: Seq<char>, b: Seq<char>| s == #[trigger] (a + p + b) {
        let (a, b) = choose|a: Seq<char>, b: Seq<char>| s == #[trigger] (a + p + b);
        assert(s.subrange(a.len() as int, (a.len() + p.len()) as int) =~= p);
        assert(occurs_at(s, p, a.len() as int));
    }
}

/// A text begins with what stands before anything, and ends with what stands behind anything;
/// what is left without its beginning is the rest.
pub proof fn law_begins_and_ends(p: Seq<char>, r: Seq<char>, s: Seq<char>)
    ensures
        begins(p + r, p),
        ends(r + p, p),
        after_prefix(p + r, p) == Some(r),
        begins(s, p) ==> s == p + s.skip(p.len() as int),
        ends(s, p) ==> s == s.take(s.len() - p.len()) + p,
        !begins(s, p) ==> after_prefix(s, p) is None,
{
    assert((p + r).take(p.len() as int) =~= p);
    assert((p + r).skip(p.len() as int) =~= r);
    assert((r + p).skip(r.len() as int) =~= p);
    if begins(s, p) {
        assert(s =~= s.take(p.len() as int) + s.skip(p.len() as int));
    }
    if ends(s, p) {
        assert(s =~= s.take(s.len() - p.len()) + s.skip(s.len() - p.len()));
    }
}

/// A text is parted at the first of a character: before it stands none.
pub proof fn law_parted(a: Seq<char>, b: Seq<char>, c: char)
    requires
        lacks(a, c),
    ensures
        parted(a + seq![c] + b, c) == Some((a, b)),
        parted(a, c) is None,
{
    let s = a + seq![c] + b;
    let n = a.len() as int;
    assert(forall|i: int| 0 <= i < n ==> #[trigger] s[i] == a[i]);
    assert(s[n] == c);
    lemma_char_index(s, c, n);
    lemma_char_index(a, c, n);
    assert(s.take(n) =~= a);
    assert(s.skip(n + 1) =~= b);
}

/// Trimming takes away white space at both ends, all of it and nothing else.
pub proof fn law_trimmed(a: Seq<char>, s: Seq<char>, b: Seq<char>)
    requires
        forall|i: int| 0 <= i < a.len() ==> white(#[trigger] a[i]),
        forall|i: int| 0 <= i < b.len() ==> white(#[trigger] b[i]),
        s.len() > 0 ==> !white(s[0]) && !white(s.last()),
    ensures
        trimmed(a + s + b) == s,
{
    let t = a + s + b;
    if s.len() == 0 {
        assert forall|i: int| 0 <= i < t.len() implies white(#[trigger] t[i]) by {
            if i < a.len() {
                assert(t[i] == a[i]);
            } else {
                assert(t[i] == b[i - a.len()]);
            }
        }
        lemma_trim_front(t, Seq::empty());
        assert(t + Seq::<char>::empty() =~= t);
        assert(trimmed_start(Seq::<char>::empty()) =~= Seq::<char>::empty());
        assert(s =~= Seq::<char>::empty());
    } else {
        lemma_trim_front(a, s + b);
        assert(t =~= a + (s + b));
        assert((s + b)[0] == s[0]);
        lemma_trim_back(s, b);
        assert(trimmed_end(s) == s);
    }
}

proof fn lemma_trim_front(a: Seq<char>, rest: Seq<char>)
    requires
        forall|i: int| 0 <= i < a.len() ==> white(#[trigger] a[i]),
    ensures
        trimmed_start(a + rest) == trimmed_start(rest),
    decreases a.len(),
{
    if a.len() > 0 {
        assert((a + rest)[0] == a[0]);
        assert((a + rest).skip(1) =~= a.skip(1) + rest);
        assert forall|i: int| 0 <= i < a.skip(1).len() implies white(#[trigger] a.skip(1)[i]) by {
            assert(white(a[i + 1]));
        }
        lemma_trim_front(a.skip(1), rest);
    } else {
        assert(a + rest =~= rest);
    }
}

proof fn lemma_trim_back(s: Seq<char>, b: Seq<char>)
    requires
        forall|i: int| 0 <= i < b.len() ==> white(#[trigger] b[i]),
    ensures
        trimmed_end(s + b) == trimmed_end(s),
    decreases b.len(),
{
    if b.len() > 0 {
        assert((s + b).last() == b[b.len() - 1]);
        assert((s + b).drop_last() =~= s + b.drop_last());
        assert forall|i: int| 0 <= i < b.drop_last().len() implies white(
            #[trigger] b.drop_last()[i],
        ) by {
            assert(white(b[i]));
        }
        lemma_trim_back(s, b.drop_last());
    } else {
        assert(s + b =~= s);
    }
}

/// Of the first 256 characters those from the tab to the carriage return, the space, the next
/// line and the space without a break are white; letters, digits and signs are not.
pub proof fn law_white(c: char)
    requires
        (c as u32) < 256,
    ensures
        white(c) <==> 9 <= c as u32 <= 13 || c as u32 == 32 || c as u32 == 133 || c as u32 == 160,
{
}

/// Replacing goes character by character: one that is replaced becomes the other text, any
/// other stays.
pub proof fn law_replaced(s: Seq<char>, x: char, c: char, with: Seq<char>)
    ensures
        replaced(Seq::empty(), c, with).len() == 0,
        x == c ==> replaced(s.push(x), c, with) == replaced(s, c, with) + with,
        x != c ==> replaced(s.push(x), c, with) == replaced(s, c, with).push(x),
{
    assert(s.push(x).drop_last() =~= s);
}

/// A text without the character stays as it is.
pub proof fn law_nothing_to_replace(s: Seq<char>, c: char, with: Seq<char>)
    requires
        lacks(s, c),
    ensures
        replaced(s, c, with) == s,
    decreases s.len(),
{
    if s.len() > 0 {
        assert(s[s.len() - 1] != c);
        let front = s.drop_last();
        assert(forall|i: int| 0 <= i < front.len() ==> #[trigger] front[i] == s[i]);
        law_nothing_to_replace(front, c, with);
        assert(front.push(s.last()) =~= s);
    }
}

/// Texts go by their first characters that differ, and a text stands before all that it
/// begins; none stands before itself.
pub proof fn law_before(p: Seq<char>, x: char, a: Seq<char>, y: char, b: Seq<char>)
    ensures
        before(p + seq![x] + a, p + seq![y] + b) <==> x < y || (x == y && before(a, b)),
        before(p, p + seq![y] + b),
        !before(p + seq![y] + b, p),
        !before(p, p),
    decreases p.len(),
{
    let u = p + seq![x] + a;
    let v = p + seq![y] + b;
    if p.len() == 0 {
        assert(u[0] == x && v[0] == y);
        assert(u.skip(1) =~= a);
        assert(v.skip(1) =~= b);
    } else {
        let rest = p.skip(1);
        law_before(rest, x, a, y, b);
        assert(u[0] == p[0] && v[0] == p[0]);
        assert(u.skip(1) =~= rest + seq![x] + a);
        assert(v.skip(1) =~= rest + seq![y] + b);
    }
}

/// Lines may end with a carriage return before the line feed: the lines are the same. What
/// stands behind the last line feed is a line where it is not empty, and keeps its carriage
/// return.
pub proof fn law_line_ends(v: Seq<Seq<char>>, s: Seq<char>, rest: Seq<char>)
    requires
        forall|i: int| 0 <= i < v.len() ==> lacks(#[trigger] v[i], '\n'),
        lacks(rest, '\n'),
    ensures
        without_cr(s.push('\r')) == s,
        s.len() > 0 && s.last() != '\r' ==> without_cr(s) == s,
        line_seq(with_feeds(v.map_values(|t: Seq<char>| t.push('\r')))) == v,
        rest.len() > 0 ==> line_seq(with_feeds(v) + rest) == line_seq(with_feeds(v)).push(rest),
{
    assert(s.push('\r').drop_last() =~= s);
    let w = v.map_values(|t: Seq<char>| t.push('\r'));
    assert forall|i: int| 0 <= i < w.len() implies lacks(#[trigger] w[i], '\n') by {
        assert(lacks(v[i], '\n'));
        assert(w[i] == v[i].push('\r'));
    }
    lemma_lines_written(w);
    assert forall|i: int| 0 <= i < v.len() implies without_cr(#[trigger] w[i]) == v[i] by {
        assert(w[i] == v[i].push('\r'));
        assert(v[i].push('\r').drop_last() =~= v[i]);
    }
    assert(line_seq(with_feeds(w)) =~= v);
    if rest.len() > 0 {
        lemma_feeds_cut(v);
        let a = with_feeds(v);
        let p = pieces(a, '\n');
        lemma_pieces_grow(a, rest, '\n');
        let q = pieces(a + rest, '\n');
        assert(q == p.drop_last().push(p.last() + rest));
        assert(p.last() + rest =~= rest);
        assert(line_seq(a + rest) =~= line_seq(a).push(rest));
    }
}

} // verus!
