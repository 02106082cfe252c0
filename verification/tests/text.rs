use kime::order::descending;
use kime::text::{
    bare, chars_of, decimal, is_in, parse_u64, parse_usize, replace, split, starts_with, text_before,
    to_ascii_lower, trim, words, Class,
};

#[test]
fn texts_are_cut_like_std_cuts_them() {
    for s in ["", " a  b\tc ", "x,y,,z", "\u{3000}é\u{a0}"] {
        let cs = chars_of(s);
        assert_eq!(bare(s), s.trim());
        let w: Vec<String> = words(&cs).iter().map(|c| c.iter().collect()).collect();
        assert_eq!(w, s.split_whitespace().collect::<Vec<_>>());
        let p: Vec<String> = split(&cs, Class::One(',')).iter().map(|c| c.iter().collect()).collect();
        assert_eq!(p, s.split(',').collect::<Vec<_>>());
        let t: String = trim(&cs, Class::One('x')).iter().collect();
        assert_eq!(t, s.trim_matches('x'));
    }
    let before: String = text_before(&chars_of("a::b::c"), &chars_of("::")).iter().collect();
    assert_eq!(before, "a");
    assert_eq!(replace("aXbXXc", "X", "--"), "aXbXXc".replace('X', "--"));
    assert_eq!(to_ascii_lower("ÀBc"), "Àbc");
    assert!(starts_with("abc", "ab") && !starts_with("a", "ab"));
}

#[test]
fn numbers_are_read_and_written() {
    for n in [0, 9, 10, 12345, u64::MAX] {
        assert_eq!(decimal(n), n.to_string());
        assert_eq!(parse_u64(&chars_of(&n.to_string()), u64::MAX), Some(n));
    }
    assert_eq!(parse_u64(&chars_of("18446744073709551616"), u64::MAX), None);
    for s in ["", "+", "-1", "1 ", "0x1"] {
        assert_eq!(parse_usize(&chars_of(s)), None, "{s}");
    }
}

#[test]
fn larger_keys_come_first() {
    assert_eq!(descending(&vec![(1, 5), (2, 0), (1, 6), (2, 0)]), [1, 3, 2, 0]);
}

#[test]
fn whitespace_is_what_unicode_lists() {
    let listed = |c: char| {
        matches!(c, '\u{9}'..='\u{d}' | ' ' | '\u{85}' | '\u{a0}' | '\u{1680}')
            || matches!(c, '\u{2000}'..='\u{200a}' | '\u{2028}' | '\u{2029}' | '\u{202f}')
            || matches!(c, '\u{205f}' | '\u{3000}')
    };
    for c in '\0'..=char::MAX {
        assert_eq!(is_in(c, Class::White), listed(c), "{c:?}");
    }
}
