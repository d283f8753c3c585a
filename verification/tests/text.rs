use rumqttd::text::{chars_of, contains, is_plain_text, replace, same_range, same_text, segment_end};

#[test]
fn chars_of_gives_each_character() {
    assert_eq!(chars_of("a/ü"), vec!['a', '/', 'ü']);
    assert_eq!(chars_of(""), Vec::<char>::new());
}

#[test]
fn segment_end_stops_at_the_separator() {
    let name = chars_of("ab/c//d");
    assert_eq!(segment_end(&name, 0), 2);
    assert_eq!(segment_end(&name, 2), 2);
    assert_eq!(segment_end(&name, 3), 4);
    assert_eq!(segment_end(&name, 5), 5);
    assert_eq!(segment_end(&name, 6), 7);
    assert_eq!(segment_end(&name, 7), 7);
}

#[test]
fn same_range_tells_equal_stretches() {
    let a = chars_of("xabcx");
    let b = chars_of("abcabd");
    assert!(same_range(&a, 1, 4, &b, 0, 3));
    assert!(!same_range(&a, 1, 4, &b, 3, 6));
    assert!(!same_range(&a, 1, 4, &b, 0, 2));
    assert!(same_range(&a, 2, 2, &b, 5, 5));
}

#[test]
fn same_text_tells_equal_strings() {
    assert!(same_text("abc", "abc"));
    assert!(!same_text("abc", "abd"));
    assert!(!same_text("abc", "ab"));
    assert!(same_text("", ""));
}

#[test]
fn plain_text_holds_no_rule_syntax() {
    assert!(is_plain_text("0xff"));
    assert!(is_plain_text(""));
    assert!(is_plain_text("a b-c_d.e:f%g"));
    assert!(!is_plain_text("client1/a"));
    assert!(!is_plain_text("a#"));
    assert!(!is_plain_text("+a"));
}

#[test]
fn contains_finds_a_token_anywhere() {
    assert!(contains("device/%u/x", "%u"));
    assert!(contains("%u", "%u"));
    assert!(contains("ab%u", "%u"));
    assert!(!contains("device/%c/x", "%u"));
    assert!(!contains("%", "%u"));
    assert!(contains("abc", ""));
    assert!(contains("", ""));
    assert!(!contains("", "a"));
}

#[test]
fn replace_takes_occurrences_from_the_left() {
    assert_eq!(replace("aaa", "aa", "b"), "ba");
    assert_eq!(replace("abab", "ab", "x"), "xx");
    assert_eq!(replace("abab", "ba", "x"), "axb");
    assert_eq!(replace("abc", "abc", ""), "");
    assert_eq!(replace("abc", "abcd", "x"), "abc");
    assert_eq!(replace("abc", "d", "x"), "abc");
    assert_eq!(replace("", "a", "x"), "");
    assert_eq!(replace("a%ub", "%u", "%u%u"), "a%u%ub");
    assert_eq!(replace("über/%u", "%u", "ß"), "über/ß");
}

#[test]
fn replace_of_the_empty_token_goes_between_all_characters() {
    assert_eq!(replace("abc", "", "-"), "-a-b-c-");
    assert_eq!(replace("", "", "-"), "-");
    assert_eq!(replace("a", "", ""), "a");
}
