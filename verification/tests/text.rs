use task_heap::text::char_is_whitespace;
use task_heap::text::chars_of;
use task_heap::text::digit_str;
use task_heap::text::join;
use task_heap::text::parse_u32;
use task_heap::text::split_on;
use task_heap::text::split_words;
use task_heap::text::str_eq;
use task_heap::text::trim;
use task_heap::text::u32_to_string;

fn strings(items: &[&str]) -> Vec<String> {
    items.iter().map(|s| s.to_string()).collect()
}

#[test]
fn trim_drops_outer_white_space() {
    assert_eq!(trim("  a b \t"), "a b");
    assert_eq!(trim(""), "");
    assert_eq!(trim(" \u{3000} "), "");
    assert_eq!(trim("\u{a0}x\u{2003}"), "x");
    assert_eq!(trim("x"), "x");
}

#[test]
fn trim_agrees_with_std_on_every_char() {
    let mut code: u32 = 0;
    while code <= 0x10FFFF {
        if let Some(c) = char::from_u32(code) {
            assert_eq!(char_is_whitespace(c), c.is_whitespace(), "U+{:04X}", code);
        }
        code += 1;
    }
}

#[test]
fn chars_of_lists_the_characters() {
    assert_eq!(chars_of("aé\u{1F600}"), vec!['a', 'é', '\u{1F600}']);
    assert_eq!(chars_of(""), Vec::<char>::new());
}

#[test]
fn str_eq_compares_contents() {
    assert!(str_eq("abc", "abc"));
    assert!(!str_eq("abc", "abd"));
    assert!(!str_eq("abc", "ab"));
    assert!(str_eq("", ""));
}

#[test]
fn split_on_keeps_empty_pieces() {
    assert_eq!(split_on("a,b,,c", ','), strings(&["a", "b", "", "c"]));
    assert_eq!(split_on("", ','), strings(&[""]));
    assert_eq!(split_on(",", ','), strings(&["", ""]));
    assert_eq!(split_on("abc", ','), strings(&["abc"]));
    assert_eq!(split_on("é,ü", ','), strings(&["é", "ü"]));
}

#[test]
fn split_words_drops_white_space() {
    assert_eq!(split_words("  one two\tthree\n"), strings(&["one", "two", "three"]));
    assert_eq!(split_words("   "), Vec::<String>::new());
    assert_eq!(split_words(""), Vec::<String>::new());
    assert_eq!(split_words("solo"), strings(&["solo"]));
}

#[test]
fn join_puts_the_separator_between() {
    assert_eq!(join(&strings(&["a", "b", "c"]), " "), "a b c");
    assert_eq!(join(&strings(&["a"]), ", "), "a");
    assert_eq!(join(&strings(&[]), ","), "");
    assert_eq!(join(&strings(&["", ""]), ","), ",");
}

#[test]
fn parse_u32_reads_decimal() {
    assert_eq!(parse_u32("42"), Some(42));
    assert_eq!(parse_u32("+7"), Some(7));
    assert_eq!(parse_u32("007"), Some(7));
    assert_eq!(parse_u32("0"), Some(0));
    assert_eq!(parse_u32("4294967295"), Some(u32::MAX));
    assert_eq!(parse_u32("4294967296"), None);
    assert_eq!(parse_u32("99999999999999999999999"), None);
    assert_eq!(parse_u32("-1"), None);
    assert_eq!(parse_u32(""), None);
    assert_eq!(parse_u32("+"), None);
    assert_eq!(parse_u32("1 "), None);
    assert_eq!(parse_u32("1_0"), None);
    assert_eq!(parse_u32("١"), None);
}

#[test]
fn parse_u32_agrees_with_std() {
    for text in ["12", "+12", "++1", "0000", "4294967295", "4294967296", "12a", " 12", "", "+", "-0"] {
        assert_eq!(parse_u32(text), text.parse::<u32>().ok(), "{:?}", text);
    }
}

#[test]
fn u32_to_string_writes_decimal() {
    assert_eq!(u32_to_string(0), "0");
    assert_eq!(u32_to_string(9), "9");
    assert_eq!(u32_to_string(10), "10");
    assert_eq!(u32_to_string(100), "100");
    assert_eq!(u32_to_string(u32::MAX), "4294967295");
    assert_eq!(digit_str(7), "7");
}

#[test]
fn decimal_round_trip() {
    for n in [0u32, 1, 9, 10, 99, 100, 12345, u32::MAX] {
        assert_eq!(parse_u32(&u32_to_string(n)), Some(n));
    }
}
