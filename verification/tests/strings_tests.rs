use audion::builtins::{builtin_str_explode, builtin_str_join};
use audion::error::AudionError;
use audion::strings::{
    builtin_str_contains, builtin_str_replace, builtin_str_ends_with, builtin_str_length, builtin_str_lower, builtin_str_starts_with,
    builtin_str_substr, builtin_str_trim, builtin_str_upper,
};

#[test]
fn upper_and_lower() {
    assert_eq!(builtin_str_upper("abc Déf"), "ABC DÉF");
    assert_eq!(builtin_str_lower("ABC Déf"), "abc déf");
}

#[test]
fn trim_removes_surrounding_white_space() {
    assert_eq!(builtin_str_trim("  \t hi there \n"), "hi there");
    assert_eq!(builtin_str_trim("   "), "");
    assert_eq!(builtin_str_trim("x"), "x");
}

#[test]
fn length_counts_characters() {
    assert_eq!(builtin_str_length("héllo"), 5);
    assert_eq!(builtin_str_length(""), 0);
}

#[test]
fn substr_with_and_without_length() {
    assert_eq!(builtin_str_substr("héllo world", 1, Some(4)), "éllo");
    assert_eq!(builtin_str_substr("hello", 2, None), "llo");
    assert_eq!(builtin_str_substr("hello", 9, None), "");
    assert_eq!(builtin_str_substr("hello", 3, Some(10)), "lo");
}

#[test]
fn prefix_and_suffix() {
    assert!(builtin_str_starts_with("he", "hello"));
    assert!(!builtin_str_starts_with("lo", "hello"));
    assert!(builtin_str_starts_with("", "hello"));
    assert!(builtin_str_ends_with("lo", "hello"));
    assert!(!builtin_str_ends_with("hello!", "hello"));
    assert!(builtin_str_ends_with("é", "café"));
}

#[test]
fn str_contains_plain_and_regex() {
    assert_eq!(builtin_str_contains("lo w", "hello world").unwrap(), true);
    assert_eq!(builtin_str_contains("xyz", "hello world").unwrap(), false);
    assert_eq!(builtin_str_contains("", "").unwrap(), true);
    assert_eq!(builtin_str_contains("/w.r/", "hello world").unwrap(), true);
    assert_eq!(builtin_str_contains("{^h[a-z]+$}", "hello world").unwrap(), false);
    assert_eq!(builtin_str_contains("%%o\\s+w%%", "hello world").unwrap(), true);
}

#[test]
fn str_contains_reports_an_invalid_regex() {
    match builtin_str_contains("/(/", "x") {
        Err(AudionError::RuntimeError { msg }) => {
            let expected = format!("str_contains() invalid regex: {}", regex::Regex::new("(").unwrap_err());
            assert_eq!(msg, expected);
        }
        other => panic!("unexpected {:?}", other),
    }
}

#[test]
fn str_replace_plain_matches_std() {
    for (needle, rep, hay) in [
        ("a", "b", "banana"),
        ("ana", "_", "banana"),
        ("", "-", "abc"),
        ("", "-", ""),
        ("zz", "y", "abc"),
        ("é", "e", "café é"),
        ("aa", "a", "aaaaa"),
    ] {
        assert_eq!(builtin_str_replace(needle, rep, hay).unwrap(), hay.replace(needle, rep));
    }
}

#[test]
fn str_replace_with_regex_groups() {
    assert_eq!(builtin_str_replace("/(\\d+)-(\\d+)/", "$2-$1", "10-20 and 3-4").unwrap(), "20-10 and 4-3");
    assert!(builtin_str_replace("{[}", "x", "y").is_err());
}

#[test]
fn str_explode_plain_matches_std() {
    for (delim, s) in [(",", "a,b,,c"), (",", ""), (",", ","), ("", "rust"), ("", ""), ("ab", "xabyabab"), ("é", "aébéc")] {
        let expected: Vec<String> = s.split(delim).map(|p| p.to_string()).collect();
        assert_eq!(builtin_str_explode(delim, s).unwrap(), expected, "{:?} {:?}", delim, s);
    }
}

#[test]
fn str_explode_with_regex() {
    assert_eq!(builtin_str_explode("/\\s*,\\s*/", "a , b,c").unwrap(), vec!["a", "b", "c"]);
}

#[test]
fn str_join_puts_glue_between_entries() {
    let parts = vec!["a".to_string(), "b".to_string(), "c".to_string()];
    assert_eq!(builtin_str_join(", ", &parts), "a, b, c");
    assert_eq!(builtin_str_join("-", &vec!["x".to_string()]), "x");
    assert_eq!(builtin_str_join("-", &Vec::new()), "");
}

#[test]
fn join_undoes_explode() {
    for (delim, s) in [(",", "a,b,,c"), ("", "rust"), ("::", "a::b::"), ("x", "")] {
        let parts = builtin_str_explode(delim, s).unwrap();
        assert_eq!(builtin_str_join(delim, &parts), s);
    }
}

#[test]
fn replacing_a_text_by_itself_changes_nothing() {
    for (n, s) in [("an", "banana"), ("", "abc"), ("q", "abc")] {
        assert_eq!(builtin_str_replace(n, n, s).unwrap(), s);
    }
}

#[test]
fn trim_agrees_with_unicode_white_space() {
    assert_eq!(builtin_str_trim("\u{3000} a b\u{2029}\u{85}"), "a b");
    assert_eq!(builtin_str_trim("\u{200B}a"), "\u{200B}a");
    for c in (0u32..=0x10FFFF).filter_map(char::from_u32) {
        let s = format!("{}x{}", c, c);
        assert_eq!(builtin_str_trim(&s), s.trim(), "U+{:04X}", c as u32);
    }
}
