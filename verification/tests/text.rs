use belmarsh::text::{
    chars_of, contains_str, ends_with, find_char, find_from, is_space, matches_at, replace,
    str_eq, str_lt, trimmed_starts_with,
};

#[test]
fn chars_of_gives_the_characters_in_order() {
    assert_eq!(chars_of("héllo"), vec!['h', 'é', 'l', 'l', 'o']);
    assert_eq!(chars_of(""), Vec::<char>::new());
}

#[test]
fn str_eq_compares_contents() {
    assert!(str_eq("index.ts", "index.ts"));
    assert!(!str_eq("index.ts", "index.tsx"));
    assert!(!str_eq("", "a"));
}

#[test]
fn matches_at_finds_a_pattern_only_where_it_stands() {
    let s = chars_of("abcabc");
    let p = chars_of("bc");
    assert!(matches_at(&s, &p, 1));
    assert!(matches_at(&s, &p, 4));
    assert!(!matches_at(&s, &p, 0));
    assert!(!matches_at(&s, &p, 5));
    assert!(!matches_at(&s, &p, 99));
    assert!(matches_at(&s, &chars_of(""), 6));
}

#[test]
fn find_from_gives_the_first_occurrence_at_or_after_the_start() {
    let s = chars_of("abcabc");
    let p = chars_of("bc");
    assert_eq!(find_from(&s, &p, 0), Some(1));
    assert_eq!(find_from(&s, &p, 2), Some(4));
    assert_eq!(find_from(&s, &p, 5), None);
    assert_eq!(find_from(&s, &chars_of("x"), 0), None);
    assert_eq!(find_from(&s, &chars_of(""), 6), Some(6));
    assert_eq!(find_from(&s, &chars_of(""), 7), None);
}

#[test]
fn find_char_gives_the_first_index() {
    assert_eq!(find_char(&chars_of("a:b:c"), ':'), Some(1));
    assert_eq!(find_char(&chars_of("abc"), ':'), None);
}

#[test]
fn contains_and_ends_with_agree_with_std() {
    for (s, p) in [("import x", "import"), ("abc", "bd"), ("abc", ""), ("", ""), ("", "a"), ("a.ts", ".ts")] {
        assert_eq!(contains_str(s, p), s.contains(p), "contains {s:?} {p:?}");
        assert_eq!(ends_with(s, p), s.ends_with(p), "ends_with {s:?} {p:?}");
    }
}

#[test]
fn is_space_agrees_with_std_on_every_character() {
    let mut n: u32 = 0;
    while n <= 0x10FFFF {
        if let Some(c) = char::from_u32(n) {
            assert_eq!(is_space(c), c.is_whitespace(), "U+{n:04X}");
        }
        n += 1;
    }
}

#[test]
fn trimmed_starts_with_skips_leading_whitespace_only() {
    assert!(trimmed_starts_with("  \timport { a } from './a';", "import"));
    assert!(trimmed_starts_with("import", "import"));
    assert!(!trimmed_starts_with("x import", "import"));
    assert!(!trimmed_starts_with("   ", "import"));
    assert!(trimmed_starts_with("\u{3000}import", "import"));
}

#[test]
fn replace_agrees_with_std() {
    let cases = [
        ("import { a } from '@lib/a';", "@lib", "./packages/lib"),
        ("aaaa", "aa", "b"),
        ("aaa", "aa", "b"),
        ("abc", "", "-"),
        ("", "", "-"),
        ("", "a", "b"),
        ("abc", "abcd", "x"),
        ("abcabc", "abc", ""),
        ("a", "a", "aa"),
    ];
    for (s, from, to) in cases {
        assert_eq!(replace(s, from, to), s.replace(from, to), "{s:?} {from:?} {to:?}");
    }
    assert_eq!(replace("aaa", "aa", "b"), "ba");
    assert_eq!(replace("abc", "", "-"), "-a-b-c-");
}

#[test]
fn str_lt_is_the_order_of_strings() {
    let words = ["", "a", "A", "aa", "ab", "b", "B/index.ts", "a/index.ts", "é", "z"];
    for a in words {
        for b in words {
            assert_eq!(str_lt(a, b), a < b, "{a:?} < {b:?}");
        }
    }
}
