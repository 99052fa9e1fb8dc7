use ip_config_tool::text::{
    chars_of, contains, ends_with, find, join_strings, join_strs, lines, parse_number, place_of, split, starts_with,
    string_of, trim, words,
};

fn texts(parts: Vec<&[char]>) -> Vec<String> {
    parts.into_iter().map(string_of).collect()
}

#[test]
fn lines_end_at_line_feeds() {
    let s = chars_of("a\r\nb\n\nc\r");
    assert_eq!(texts(lines(&s)), vec!["a", "b", "", "c\r"]);
    assert!(lines(&chars_of("")).is_empty());
    assert_eq!(texts(lines(&chars_of("\n"))), vec![""]);
}

#[test]
fn words_are_parted_by_white_space() {
    let s = chars_of(" a\t\u{a0}bc\u{3000}d ");
    assert_eq!(texts(words(&s)), vec!["a", "bc", "d"]);
}

#[test]
fn splitting_and_joining() {
    let s = chars_of("a..b.");
    let parts = texts(split(&s, '.'));
    assert_eq!(parts, vec!["a", "", "b", ""]);
    assert_eq!(join_strings(&parts, "."), "a..b.");
    assert_eq!(join_strs(&["x", "y"], ", "), "x, y");
    assert_eq!(join_strs(&[], ", "), "");
}

#[test]
fn searching() {
    let s = chars_of("abcabc");
    assert_eq!(find(&s, &chars_of("ca")), Some(2));
    assert_eq!(find(&s, &chars_of("")), Some(0));
    assert_eq!(find(&s, &chars_of("cb")), None);
    assert!(contains(&s, &chars_of("bca")));
    assert!(starts_with(&s, &chars_of("abc")));
    assert!(!starts_with(&s, &chars_of("abcabca")));
    assert!(ends_with(&s, &chars_of("bc")));
    assert!(!ends_with(&s, &chars_of("ab")));
    assert_eq!(place_of(&["a".to_string(), "b".to_string(), "b".to_string()], "b"), Some(1));
    assert_eq!(place_of(&[], "b"), None);
}

#[test]
fn trimming() {
    assert_eq!(string_of(trim(&chars_of(" \u{2003}a b\r\n"))), "a b");
    assert_eq!(string_of(trim(&chars_of(" \t "))), "");
}

#[test]
fn numbers_are_read_as_far_as_they_fit() {
    let read = |s: &str, radix: u32, max: u32| parse_number(&chars_of(s), radix, max);
    assert_eq!(read("255", 10, 255), Some(255));
    assert_eq!(read("256", 10, 255), None);
    assert_eq!(read("+7", 10, 255), Some(7));
    assert_eq!(read("-7", 10, 255), None);
    assert_eq!(read("+", 10, 255), None);
    assert_eq!(read("", 10, 255), None);
    assert_eq!(read("fF", 16, 255), Some(255));
    assert_eq!(read("4294967295", 10, 4294967295), Some(4294967295));
    assert_eq!(read("4294967296", 10, 4294967295), None);
    assert_eq!(read("000000000000000000000001", 10, 255), Some(1));
}
