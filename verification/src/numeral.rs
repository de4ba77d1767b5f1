//! Whole numbers as decimal texts.

use vstd::prelude::*;

use crate::text::chars_of;

verus! {

/// Whether `c` is one of the ten decimal digits.
pub open spec fn is_digit(c: char) -> bool {
    '0' <= c <= '9'
}

/// The character of a digit's value.
pub open spec fn digit(d: nat) -> char {
    if d == 0 {
        '0'
    } else if d == 1 {
        '1'
    } else if d == 2 {
        '2'
    } else if d == 3 {
        '3'
    } else if d == 4 {
        '4'
    } else if d == 5 {
        '5'
    } else if d == 6 {
        '6'
    } else if d == 7 {
        '7'
    } else if d == 8 {
        '8'
    } else {
        '9'
    }
}

/// The decimal text of `n`.
pub open spec fn decimal(n: nat) -> Seq<char>
    decreases n,
{
    if n < 10 {
        seq![digit(n)]
    } else {
        decimal(n / 10).push(digit(n % 10))
    }
}

/// Whether all characters of `s` are digits.
pub open spec fn all_digits(s: Seq<char>) -> bool {
    forall|i: int| 0 <= i < s.len() ==> is_digit(#[trigger] s[i])
}

/// The number that a row of digits writes.
pub open spec fn digits_value(s: Seq<char>) -> nat
    decreases s.len(),
{
    if s.len() == 0 {
        0
    } else {
        10 * digits_value(s.drop_last()) + (s.last() as nat - '0' as nat) as nat
    }
}

/// The number that `s` writes: digits, with or without a plus sign before them, and not
/// more than `max`.
pub open spec fn number(s: Seq<char>, max: nat) -> Option<nat> {
    let d = if s.len() > 1 && s[0] == '+' {
        s.skip(1)
    } else {
        s
    };
    if d.len() > 0 && all_digits(d) && digits_value(d) <= max {
        Some(digits_value(d))
    } else {
        None
    }
}

/// The number that `s` writes, or 0 where it writes none that is not more than `max`.
pub open spec fn number_or_zero(s: Seq<char>, max: nat) -> nat {
    match number(s, max) {
        Some(n) => n,
        None => 0,
    }
}

fn digit_char(d: u64) -> (c: char)
    requires
        d < 10,
    ensures
        c == digit(d as nat),
{
    if d == 0 {
        '0'
    } else if d == 1 {
        '1'
    } else if d == 2 {
        '2'
    } else if d == 3 {
        '3'
    } else if d == 4 {
        '4'
    } else if d == 5 {
        '5'
    } else if d == 6 {
        '6'
    } else if d == 7 {
        '7'
    } else if d == 8 {
        '8'
    } else {
        '9'
    }
}

/// The decimal text of `n`.
pub fn to_decimal(n: u64) -> (r: String)
    ensures
        r@ == decimal(n as nat),
    decreases n,
{
    let mut r = if n < 10 {
        String::new()
    } else {
        to_decimal(n / 10)
    };
    r.push(digit_char(n % 10));
    r
}

/// The decimal text of `n`.
pub fn to_decimal_wide(n: u128) -> (r: String)
    ensures
        r@ == decimal(n as nat),
    decreases n,
{
    let mut r = if n < 10 {
        String::new()
    } else {
        to_decimal_wide(n / 10)
    };
    r.push(digit_char((n % 10) as u64));
    r
}

/// The number that the characters `from..to` of `c` write, digits alone.
pub fn digits_between(c: &[char], from: usize, to: usize, max: u64) -> (r: Option<u64>)
    requires
        from <= to <= c@.len(),
    ensures
        ({
            let d = c@.subrange(from as int, to as int);
            match r {
                Some(n) => d.len() > 0 && all_digits(d) && digits_value(d) == n && n <= max,
                None => !(d.len() > 0 && all_digits(d) && digits_value(d) <= max),
            }
        }),
{
    let ghost d = c@.subrange(from as int, to as int);
    if from == to {
        return None;
    }
    let mut n: u64 = 0;
    let mut i: usize = from;
    let mut over = false;
    while i < to
        invariant
            from <= i <= to <= c@.len(),
            d == c@.subrange(from as int, to as int),
            all_digits(d.take(i - from)),
            !over ==> n == digits_value(d.take(i - from)) && n <= max,
            over ==> digits_value(d.take(i - from)) > max,
        decreases to - i,
    {
        let x = c[i];
        assert(d[i - from] == x);
        if x < '0' || x > '9' {
            return None;
        }
        assert(d.take(i + 1 - from).drop_last() == d.take(i - from));
        let v: u64 = (x as u32 - '0' as u32) as u64;
        if !over {
            if n > (max - if v <= max { v } else { max }) / 10 || v > max {
                over = true;
                assert(10 * n + v > max);
            } else {
                n = n * 10 + v;
            }
        }
        i += 1;
    }
    assert(d.take(to - from) == d);
    if over {
        None
    } else {
        Some(n)
    }
}

/// The number that `s` writes, where it is not more than `max`.
pub fn parse_number(s: &str, max: u64) -> (r: Option<u64>)
    ensures
        match r {
            Some(n) => number(s@, max as nat) == Some(n as nat),
            None => number(s@, max as nat) is None,
        },
{
    let c = chars_of(s);
    let from: usize = if c.len() > 1 && c[0] == '+' {
        1
    } else {
        0
    };
    assert(c@.subrange(1, c@.len() as int) == c@.skip(1) || c@.len() == 0);
    assert(c@.subrange(0, c@.len() as int) == c@);
    digits_between(c.as_slice(), from, c.len(), max)
}

/// The number that `s` writes, or 0 where it writes none that is not more than `max`.
pub fn number_or_0(s: &str, max: u64) -> (r: u64)
    ensures
        r == number_or_zero(s@, max as nat),
        r <= max,
{
    match parse_number(s, max) {
        Some(n) => n,
        None => 0,
    }
}

/// Reading back what `decimal` writes gives the number.
pub proof fn law_decimal_reads_back(n: nat, max: nat)
    requires
        n <= max,
    ensures
        number(decimal(n), max) == Some(n),
    decreases n,
{
    lemma_decimal_digits(n);
    assert(decimal(n)[0] != '+') by {
        assert(is_digit(decimal(n)[0]));
    }
}

/// What `decimal` writes is a row of digits that writes the number.
pub proof fn lemma_decimal_digits(n: nat)
    ensures
        decimal(n).len() > 0,
        all_digits(decimal(n)),
        digits_value(decimal(n)) == n,
    decreases n,
{
    reveal_with_fuel(digits_value, 2);
    if n >= 10 {
        lemma_decimal_digits(n / 10);
        assert(decimal(n).drop_last() == decimal(n / 10));
    } else {
        assert(decimal(n).drop_last() == Seq::<char>::empty());
    }
}

/// A decimal text is read with a plus sign and with zeros before it too, where the number is
/// not too great; it is not read where it is.
pub proof fn law_numbers_are_read(n: nat, max: nat, s: Seq<char>)
    ensures
        n <= max ==> number(seq!['+'] + decimal(n), max) == Some(n),
        n > max ==> number(decimal(n), max) is None,
        n > max ==> number(seq!['+'] + decimal(n), max) is None,
        s.len() > 0 && s[0] != '+' ==> number(seq!['0'] + s, max) == number(s, max),
{
    lemma_decimal_digits(n);
    assert(decimal(n)[0] != '+') by {
        assert(is_digit(decimal(n)[0]));
    }
    assert((seq!['+'] + decimal(n)).skip(1) =~= decimal(n));
    if s.len() > 0 && s[0] != '+' {
        let t = seq!['0'] + s;
        lemma_zero_before(s);
        assert(t[0] == '0');
        if all_digits(s) {
            assert forall|i: int| 0 <= i < t.len() implies is_digit(#[trigger] t[i]) by {
                if i > 0 {
                    assert(t[i] == s[i - 1]);
                }
            }
        } else {
            let i = choose|i: int| 0 <= i < s.len() && !is_digit(#[trigger] s[i]);
            assert(t[i + 1] == s[i]);
        }
    }
}

proof fn lemma_zero_before(s: Seq<char>)
    ensures
        digits_value(seq!['0'] + s) == digits_value(s),
    decreases s.len(),
{
    reveal_with_fuel(digits_value, 2);
    let t = seq!['0'] + s;
    if s.len() == 0 {
        assert(t =~= seq!['0']);
        assert(t.drop_last() =~= Seq::empty());
    } else {
        lemma_zero_before(s.drop_last());
        assert(t.drop_last() =~= seq!['0'] + s.drop_last());
    }
}

/// Nothing, a bare sign, and a text with anything but digits behind its first character, or
/// with a first one that is neither a digit nor a plus sign, write no number.
pub proof fn law_other_texts_are_no_numbers(s: Seq<char>, max: nat, i: int)
    requires
        s.len() == 0 || s == seq!['+'] || (0 <= i < s.len() && !('0' <= s[i] <= '9') && (i > 0
            || s[i] != '+')),
    ensures
        number(s, max) is None,
        number_or_zero(s, max) == 0,
{
    let d = if s.len() > 1 && s[0] == '+' {
        s.skip(1)
    } else {
        s
    };
    if 0 <= i < s.len() && !('0' <= s[i] <= '9') {
        if s.len() > 1 && s[0] == '+' {
            if i > 0 {
                assert(d[i - 1] == s[i]);
            }
        } else {
            assert(d[i] == s[i]);
        }
    }
}

} // verus!
