use agentseek_desktop::text::{
    byte_len, char_is_space, comes_before, decimal_of, index_of, join, last_index_of, lines_of, parse_u16,
    parse_up_to, replace, replace_once, rsplit_once, sort_texts, split, split_inclusive, split_once,
    split_whitespace, strip_prefix, strip_suffix, to_lower, to_upper, trim, trim_end, trim_start,
    trim_end_text, trim_start_text,
};

#[test]
fn white_space_is_what_std_takes_for_it() {
    for c in '\0'..=char::MAX {
        assert_eq!(char_is_space(c), c.is_whitespace(), "{c:?}");
    }
}

#[test]
fn texts_are_trimmed_as_std_trims_them() {
    for sample in ["", " ", "a", " a ", "\t a b\u{a0}\n", "\u{2003}x\u{3000}", "no space"] {
        assert_eq!(trim(sample), sample.trim());
        assert_eq!(trim_start(sample), sample.trim_start());
        assert_eq!(trim_end(sample), sample.trim_end());
    }
}

#[test]
fn texts_are_split_as_std_splits_them() {
    for sample in ["", "\n", "a", "a\n", "a\r\nb", "a\n\nb\n", "a\r\r\nb\r", "→\n→"] {
        assert_eq!(lines_of(sample), sample.lines().collect::<Vec<_>>());
        assert_eq!(split_inclusive(sample), sample.split_inclusive('\n').collect::<Vec<_>>());
        assert_eq!(split_whitespace(sample), sample.split_whitespace().collect::<Vec<_>>());
        assert_eq!(split(sample, 'a'), sample.split('a').collect::<Vec<_>>());
    }
    assert_eq!(split_once("a=b=c", "="), Some(("a", "b=c")));
    assert_eq!(rsplit_once("a=b=c", "="), Some(("a=b", "c")));
    assert_eq!(split_once("abc", "="), None);
}

#[test]
fn texts_are_searched_from_either_end() {
    assert_eq!(index_of("→abcabc", "bc"), Some(2));
    assert_eq!(last_index_of("→abcabc", "bc"), Some(5));
    assert_eq!(index_of("abc", "x"), None);
    assert_eq!(index_of("abc", ""), Some(0));
    assert_eq!(strip_prefix("export A", "export "), Some("A"));
    assert_eq!(strip_prefix("A", "export "), None);
    assert_eq!(strip_suffix("repo.git", ".git"), Some("repo"));
    assert_eq!(trim_start_text("- - a", "- "), "a");
    assert_eq!(trim_end_text("a::", ":"), "a");
}

#[test]
fn replacing_goes_from_left_to_right() {
    assert_eq!(replace("aaa", "aa", "b"), "ba");
    assert_eq!(replace("abc", "x", "y"), "abc");
    assert_eq!(replace_once("abab", "ab", "c"), "cab");
    assert_eq!(join(&vec!["a".to_string(), String::new(), "b".to_string()], ", "), "a, , b");
}

#[test]
fn numbers_are_written_and_read() {
    for n in [0u64, 7, 10, 99, 100, 65535, u64::MAX] {
        assert_eq!(decimal_of(n), n.to_string());
        assert_eq!(parse_up_to(&decimal_of(n), u64::MAX), Some(n));
    }
    for sample in ["", "+", "+7", "-7", " 7", "007", "65535", "65536", "٣", "12a"] {
        assert_eq!(parse_u16(sample), sample.parse::<u16>().ok(), "{sample:?}");
    }
}

#[test]
fn case_changes_for_ascii_letters_only() {
    assert_eq!(to_upper("aZ-é"), "aZ-é".to_ascii_uppercase());
    assert_eq!(to_lower("aZ-É"), "aZ-É".to_ascii_lowercase());
    assert_eq!(byte_len("a→é"), "a→é".len());
}

#[test]
fn sorted_texts_are_the_texts_in_ascending_order() {
    let samples = ["b", "", "a", "ab", "B", "é", "→", "a"];
    let texts: Vec<String> = samples.iter().map(|text| text.to_string()).collect();
    let mut expected = texts.clone();
    expected.sort();
    assert_eq!(sort_texts(&texts), expected);
    assert!(comes_before("a", "ab"));
    assert!(!comes_before("a", "a"));
    assert!(comes_before("z", "é"));
}
