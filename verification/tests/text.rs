use pea_server::text::{char_is_whitespace, chars_of, count_leading_whitespace, rfind};

#[test]
fn chars_of_a_string() {
    assert_eq!(chars_of("a/b"), vec!['a', '/', 'b']);
    assert_eq!(chars_of("caf\u{e9}"), vec!['c', 'a', 'f', '\u{e9}']);
    assert_eq!(chars_of(""), Vec::<char>::new());
}

#[test]
fn rfind_gives_the_last_occurrence() {
    assert_eq!(rfind(&chars_of("a.b.c"), '.'), Some(3));
    assert_eq!(rfind(&chars_of(".abc"), '.'), Some(0));
    assert_eq!(rfind(&chars_of("abc."), '.'), Some(3));
    assert_eq!(rfind(&chars_of("abc"), '.'), None);
    assert_eq!(rfind(&chars_of(""), '.'), None);
}

#[test]
fn white_space_is_what_std_takes_for_it() {
    for code in 0..=0x3100u32 {
        if let Some(c) = char::from_u32(code) {
            assert_eq!(char_is_whitespace(c), c.is_whitespace(), "U+{:04X}", code);
        }
    }
    assert!(!char_is_whitespace('\u{feff}'));
    assert!(!char_is_whitespace('\u{200b}'));
}

#[test]
fn leading_white_space_is_counted() {
    assert_eq!(count_leading_whitespace(&chars_of("  \t x ")), 4);
    assert_eq!(count_leading_whitespace(&chars_of("x  ")), 0);
    assert_eq!(count_leading_whitespace(&chars_of("   ")), 3);
    assert_eq!(count_leading_whitespace(&chars_of("")), 0);
}
