use tinypt::decimal::{push_ascii, push_decimal, to_decimal, to_hex};
use tinypt::rng::splitmix64;
use tinypt::text::{
    after_prefix, chars_of, copied, find_char, float, has_suffix, is_word, parse_i32, parse_i64,
    parse_usize, replace_char, same, same_str, space, split_char, split_lines, split_words,
    string_of, to_lower, trim,
};

fn chars(s: &str) -> Vec<char> {
    s.chars().collect()
}

fn strings(v: Vec<&[char]>) -> Vec<String> {
    v.iter().map(|w| w.iter().collect()).collect()
}

#[test]
fn words_and_lines_are_cut_like_those_of_std() {
    for s in ["", " a\tb  c ", "one", "  ", "x\ny\r\nz", "\n", "a\n\n", "\r", "a\rb\r\n", "\u{3000}a\u{85}b\u{a0}"] {
        let c = chars(s);
        let want: Vec<String> = s.split_whitespace().map(|w| w.to_string()).collect();
        assert_eq!(strings(split_words(&c)), want, "{:?}", s);
        let want: Vec<String> = s.lines().map(|w| w.to_string()).collect();
        assert_eq!(strings(split_lines(&c)), want, "{:?}", s);
        assert_eq!(trim(&c).iter().collect::<String>(), s.trim(), "{:?}", s);
        let want: Vec<String> = s.split('a').map(|w| w.to_string()).collect();
        assert_eq!(strings(split_char(&c, 'a')), want, "{:?}", s);
    }
}

#[test]
fn white_space_is_that_of_std() {
    for i in 0..0x11_0000u32 {
        if let Some(c) = char::from_u32(i) {
            assert_eq!(space(c), c.is_whitespace(), "{:x}", i);
        }
    }
}

#[test]
fn numbers_are_read_like_those_of_std() {
    for s in [
        "", "0", "+7", "-7", "12a", "18446744073709551615", "18446744073709551616", "-0", "+", "-",
        "2147483647", "2147483648", "-2147483648", "-2147483649", "9223372036854775808",
        "-9223372036854775808", " 1", "1_0",
    ] {
        let c = chars(s);
        assert_eq!(parse_usize(&c), s.parse::<usize>().ok(), "{:?}", s);
        assert_eq!(parse_i64(&c), s.parse::<i64>().ok(), "{:?}", s);
        assert_eq!(parse_i32(&c), s.parse::<i32>().ok(), "{:?}", s);
    }
}

#[test]
fn floats_are_recognised_like_those_of_std() {
    for s in [
        "", "1", "-1.5", "+.5", "5.", ".", "1e5", "1E-5", "1e", "e5", "1e+", "inf", "-Infinity", "NaN",
        "infinit", "nan1", "0x10", "1 ", "--1", "1.2.3", "+", ".e1", "1.e1", "١",
    ] {
        assert_eq!(float(&chars(s)), s.parse::<f64>().is_ok(), "{:?}", s);
    }
}

#[test]
fn numbers_are_written_in_decimal_and_in_hex() {
    for n in [0u64, 7, 10, 12345, u64::MAX] {
        assert_eq!(to_decimal(n).iter().collect::<String>(), n.to_string());
        assert_eq!(to_hex(n, 16).iter().collect::<String>(), format!("{:016x}", n));
    }
    let mut out = vec![b'x'];
    push_decimal(&mut out, 42);
    push_ascii(&mut out, &chars("yz"));
    assert_eq!(out, b"x42yz".to_vec());
}

#[test]
fn strings_keep_their_characters() {
    let s = "h\u{e9}llo \u{1F600}";
    assert_eq!(chars_of(s), chars(s));
    assert_eq!(string_of(&chars(s)), s);
    assert_eq!(copied(s), s);
    assert!(same(&chars("ab"), &chars("ab")) && !same(&chars("ab"), &chars("abc")));
    assert!(is_word(&chars("ab"), "ab") && !is_word(&chars("ab"), "a"));
    assert!(same_str("ab", "ab") && !same_str("ab", "ba"));
    assert_eq!(to_lower(&chars("AbZ[")).iter().collect::<String>(), "abz[");
    assert_eq!(after_prefix(&chars("abc"), "ab"), Some(&chars("c")[..]));
    assert_eq!(after_prefix(&chars("abc"), "b"), None);
    assert!(has_suffix(&chars("abc"), "bc") && !has_suffix(&chars("c"), "bc"));
    assert_eq!(replace_char(&chars("a\\b\\"), '\\', '/'), "a/b/");
    assert_eq!(find_char(&chars("abca"), 1, 'a'), 3);
    assert_eq!(find_char(&chars("abca"), 1, 'x'), 4);
}

#[test]
fn splitmix_scrambles_its_argument() {
    assert_eq!(splitmix64(0), 0xE220_A839_7B1D_CDAF);
    assert_eq!(splitmix64(0x9E37_79B9_7F4A_7C15), 0x6E78_9E6A_A1B9_65F4);
}
