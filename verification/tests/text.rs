use clg::text::{char_is_space, chars_of, find_char, matches_at, trim_bounds};

#[test]
fn white_space_is_what_unicode_says() {
    for c in [
        '\t', '\n', '\u{b}', '\u{c}', '\r', ' ', '\u{85}', '\u{a0}', '\u{1680}', '\u{2000}',
        '\u{2005}', '\u{200a}', '\u{2028}', '\u{2029}', '\u{202f}', '\u{205f}', '\u{3000}',
    ] {
        assert!(char_is_space(c));
    }
    for c in ['a', '0', '\u{8}', '\u{e}', '\u{1f}', '!', '\u{200b}', '\u{2060}', '\u{feff}', '\u{180e}'] {
        assert!(!char_is_space(c));
    }
}

#[test]
fn white_space_agrees_with_the_standard_library() {
    let mut code: u32 = 0;
    while code <= 0x3100 {
        if let Some(c) = char::from_u32(code) {
            assert_eq!(char_is_space(c), c.is_whitespace());
        }
        code += 1;
    }
}

#[test]
fn characters_come_in_order() {
    assert_eq!(chars_of("a\u{e9}\u{1f600}z"), vec!['a', '\u{e9}', '\u{1f600}', 'z']);
    assert_eq!(chars_of(""), Vec::<char>::new());
}

#[test]
fn trim_bounds_enclose_what_is_left() {
    let chars = chars_of("  ab c \t");
    assert_eq!(trim_bounds(&chars, 0, chars.len()), (2, 6));
    assert_eq!(trim_bounds(&chars, 3, 5), (3, 4));
    assert_eq!(trim_bounds(&chars, 2, 6), (2, 6));
}

#[test]
fn trim_bounds_of_white_space_alone_are_empty() {
    let chars = chars_of(" \t  ");
    let (from, to) = trim_bounds(&chars, 0, chars.len());
    assert_eq!(from, to);
    let none = chars_of("");
    assert_eq!(trim_bounds(&none, 0, 0), (0, 0));
}

#[test]
fn find_char_gives_the_first_or_the_end() {
    let chars = chars_of("a=b=c");
    assert_eq!(find_char(&chars, 0, 5, '='), 1);
    assert_eq!(find_char(&chars, 2, 5, '='), 3);
    assert_eq!(find_char(&chars, 4, 5, '='), 5);
    assert_eq!(find_char(&chars, 0, 1, '='), 1);
    assert_eq!(find_char(&chars, 0, 5, 'x'), 5);
}

#[test]
fn matches_at_compares_in_place() {
    let chars = chars_of("say $name");
    let pattern = chars_of("$name");
    assert!(matches_at(&chars, 4, &pattern));
    assert!(!matches_at(&chars, 3, &pattern));
    assert!(matches_at(&chars, 9, &chars_of("")));
}
