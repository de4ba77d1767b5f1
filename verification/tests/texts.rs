use draft_overlay::numeral::{number_or_0, parse_number, to_decimal, to_decimal_wide};
use draft_overlay::text::{
    ends_with, has_member, has_text, join, lines, replace_char, same_text, split_on, split_once,
    starts_with, strip_prefix, text_before, to_lines, trim,
};
use draft_overlay::textmap::TextMap;
use draft_overlay::textset::TextSet;

fn owned(v: &[&str]) -> Vec<String> {
    v.iter().map(|s| s.to_string()).collect()
}

#[test]
fn split_on_agrees_with_str_split() {
    for s in ["", ",", "a,b", ",a,,b,", "가,나", "abc"] {
        let want: Vec<String> = s.split(',').map(|x| x.to_string()).collect();
        assert_eq!(split_on(s, ','), want);
    }
}

#[test]
fn lines_agree_with_str_lines() {
    for s in ["", "\n", "a", "a\n", "a\r\nb", "a\r\n", "a\r", "\r\n\r\n", "a\n\nb\n", "x\r\r\ny"] {
        let want: Vec<String> = s.lines().map(|x| x.to_string()).collect();
        assert_eq!(lines(s), want);
    }
}

#[test]
fn searching_agrees_with_str() {
    for (s, p) in [("", ""), ("abc", ""), ("abc", "bc"), ("abc", "cb"), ("ab", "abc"), ("가나다", "나다")] {
        assert_eq!(has_text(s, p), s.contains(p));
        assert_eq!(starts_with(s, p), s.starts_with(p));
        assert_eq!(ends_with(s, p), s.ends_with(p));
        assert_eq!(strip_prefix(s, p), s.strip_prefix(p).map(|x| x.to_string()));
        assert_eq!(same_text(s, p), s == p);
        assert_eq!(text_before(s, p), s < p);
    }
}

#[test]
fn split_once_agrees_with_str() {
    for s in ["", "=", "a=b", "a=b=c", "ab", "=b"] {
        let want = s.split_once('=').map(|(a, b)| (a.to_string(), b.to_string()));
        assert_eq!(split_once(s, '='), want);
    }
}

#[test]
fn trim_agrees_with_str() {
    for s in ["", "  ", " a ", "\t a b\r\n", "\u{a0}x\u{3000}", "\u{2003}가\u{85}", "a\u{200b}"] {
        assert_eq!(trim(s), s.trim());
    }
}

#[test]
fn joining_and_replacing() {
    assert_eq!(join(&owned(&[]), ","), "");
    assert_eq!(join(&owned(&["a"]), ","), "a");
    assert_eq!(join(&owned(&["a", "", "b"]), ", "), "a, , b");
    assert_eq!(to_lines(&owned(&[])), "");
    assert_eq!(to_lines(&owned(&["a", "b"])), "a\nb\n");
    assert_eq!(replace_char("a\\b\\", '\\', "/"), "a/b/");
    assert!(has_member(&owned(&["x", "y"]), "y"));
    assert!(!has_member(&owned(&["x", "y"]), "z"));
}

#[test]
fn what_is_joined_is_cut_again() {
    let v = owned(&["C", "monk", "0.031", "12"]);
    assert_eq!(split_on(&join(&v, "\t"), '\t'), v);
    let rows = owned(&["C\tmonk", "", "M\t5"]);
    assert_eq!(lines(&to_lines(&rows)), rows);
}

#[test]
fn decimals() {
    assert_eq!(to_decimal(0), "0");
    assert_eq!(to_decimal(10), "10");
    assert_eq!(to_decimal(u64::MAX), "18446744073709551615");
    assert_eq!(to_decimal_wide(u128::MAX), "340282366920938463463374607431768211455");
    assert_eq!(parse_number("0", 255), Some(0));
    assert_eq!(parse_number("255", 255), Some(255));
    assert_eq!(parse_number("256", 255), None);
    assert_eq!(parse_number("+7", 255), Some(7));
    assert_eq!(parse_number("007", 255), Some(7));
    for bad in ["", "+", "-1", " 1", "1 ", "1.0", "a", "+-1", "++1", "１"] {
        assert_eq!(parse_number(bad, u64::MAX), None);
        assert_eq!(bad.parse::<u64>().is_ok(), false);
    }
    assert_eq!(parse_number("18446744073709551615", u64::MAX), Some(u64::MAX));
    assert_eq!(parse_number("18446744073709551616", u64::MAX), None);
    assert_eq!(number_or_0("x", 9), 0);
    assert_eq!(number_or_0("8", 9), 8);
    for n in [0u64, 9, 10, 4096, 99999] {
        assert_eq!(parse_number(&to_decimal(n), u64::MAX), Some(n));
    }
}

#[test]
fn maps_keep_their_keys_in_order() {
    let mut m: TextMap<u32> = TextMap::new();
    m.insert("monk", 1);
    m.insert("archer", 2);
    m.insert("ninja", 3);
    m.insert("monk", 4);
    assert_eq!(m.len(), 3);
    assert_eq!(m.key(0), "archer");
    assert_eq!(m.key(1), "monk");
    assert_eq!(m.key(2), "ninja");
    assert_eq!(*m.value(1), 4);
    assert_eq!(m.get("ninja"), Some(&3));
    assert_eq!(m.get("bard"), None);
    *m.slot("bard", 10) += 1;
    *m.slot("bard", 10) += 1;
    assert_eq!(m.get("bard"), Some(&12));
    assert_eq!(m.key(1), "bard");
}

#[test]
fn sets_hold_each_text_once() {
    let mut s = TextSet::new();
    assert!(s.is_empty());
    s.insert("a");
    s.insert("a");
    s.insert("b");
    assert_eq!(s.len(), 2);
    s.remove("a");
    s.remove("zzz");
    assert!(!s.contains("a"));
    assert!(s.contains("b"));
    let t = TextSet::of(&owned(&["b", "c", "c"]));
    assert_eq!(t.len(), 2);
    assert_eq!(s.plus(&t).len(), 2);
    assert_eq!(t.minus(&s).len(), 1);
    assert!(t.minus(&s).contains("c"));
    assert_eq!(t.copy().len(), 2);
}
