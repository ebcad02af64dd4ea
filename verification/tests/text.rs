use blf_asc::text::{
    chars_of, contains, count_digits, find_char, has_only_digits, is_float, same_letters,
    same_text, split_words, starts_with, text_of, trim,
};

fn words_of(s: &str) -> Vec<String> {
    split_words(&chars_of(s)).iter().map(|w| text_of(w)).collect()
}

#[test]
fn words_and_trimming_are_those_of_std() {
    for s in [
        "",
        " ",
        "one",
        "  one two\tthree\r\n",
        "\u{a0}wide\u{3000}space\u{2003}",
        "zero\u{200b}width",
        "a\u{b}b\u{c}c\u{85}d\u{1680}e\u{2028}f",
    ] {
        let expected: Vec<String> = s.split_whitespace().map(str::to_owned).collect();
        assert_eq!(words_of(s), expected, "{s:?}");
        assert_eq!(text_of(&trim(&chars_of(s))), s.trim(), "{s:?}");
    }
}

#[test]
fn texts_are_searched() {
    let s = chars_of("begin Triggerblock");
    assert!(starts_with(&s, "begin"));
    assert!(!starts_with(&s, "Begin"));
    assert!(starts_with(&s, ""));
    assert!(contains(&s, "block"));
    assert!(contains(&s, "begin Triggerblock"));
    assert!(!contains(&s, "begin Triggerblocks"));
    assert!(!contains(&s, "locks"));
    assert!(same_text(&s, "begin Triggerblock"));
    assert!(!same_text(&s, "begin"));
    assert_eq!(find_char(&s, 'g', 0), 2);
    assert_eq!(find_char(&s, 'g', 3), 9);
    assert_eq!(find_char(&s, 'z', 0), 18);
}

#[test]
fn letters_are_compared_without_case() {
    assert!(same_letters(&chars_of("ErrorFrame"), "errorframe"));
    assert!(same_letters(&chars_of("rx"), "Rx"));
    assert!(!same_letters(&chars_of("tx"), "Rx"));
    assert!(!same_letters(&chars_of("rxx"), "Rx"));
    // only letters of ASCII
    assert!(!same_letters(&chars_of("\u{c4}"), "\u{e4}"));
}

#[test]
fn digits_are_counted() {
    assert_eq!(count_digits(&chars_of("12a3"), 0), 2);
    assert_eq!(count_digits(&chars_of("12a3"), 2), 0);
    assert_eq!(count_digits(&chars_of("12a3"), 3), 1);
    assert!(has_only_digits(&chars_of("0123")));
    assert!(has_only_digits(&chars_of("")));
    assert!(!has_only_digits(&chars_of("1x")));
    assert!(!has_only_digits(&chars_of("\u{661}")));
}

#[test]
fn floating_point_numbers_are_told_as_by_std() {
    for s in [
        "", "+", "-", ".", "0", "1.5", "5.", ".5", "-0.25", "+3.0", "1e5", "1E5", "1e+5", "1e-5",
        "1e", "e5", "1e+", "1.5e3", ".e3", ".5e3", "5.e3", "inf", "INF", "+inf", "-Infinity",
        "infinit", "nan", "NaN", "-nan", "nano", "1_0", "0x10", "1,5", "--1", "1.2.3", "1 ", "٣",
        "00.0000", "9999999999999999999999999", "1e400",
    ] {
        assert_eq!(is_float(&chars_of(s)), s.parse::<f64>().is_ok(), "{s:?}");
    }
}

#[test]
fn white_space_is_these_characters() {
    let mut found: Vec<u32> = Vec::new();
    for n in 0..=0x10_ffff {
        if let Some(c) = char::from_u32(n) {
            if trim(&[c]).is_empty() {
                found.push(n);
            }
        }
    }
    let mut expected: Vec<u32> = (0x9..=0xd).collect();
    expected.extend([0x20, 0x85, 0xa0, 0x1680]);
    expected.extend(0x2000..=0x200a);
    expected.extend([0x2028, 0x2029, 0x202f, 0x205f, 0x3000]);
    assert_eq!(found, expected);
}
