use cargo_trim::text::{
    find_sub, first_index_of, last_index_of, split_char, str_cmp, str_eq, tokenize, CharsOrd,
};

#[test]
fn first_index_finds_the_earliest_occurrence() {
    assert_eq!(first_index_of("abca", 'a'), 0);
    assert_eq!(first_index_of("abca", 'c'), 2);
}

#[test]
fn first_index_is_the_length_when_absent() {
    assert_eq!(first_index_of("abca", 'z'), 4);
    assert_eq!(first_index_of("", 'z'), 0);
}

#[test]
fn last_index_finds_the_latest_occurrence() {
    assert_eq!(last_index_of("abca", 'a'), Some(3));
    assert_eq!(last_index_of("abca", 'b'), Some(1));
    assert_eq!(last_index_of("abca", 'z'), None);
}

#[test]
fn find_sub_reports_the_first_match() {
    assert_eq!(find_sub("hello world", "lo w"), Some(3));
    assert_eq!(find_sub("aaa", "aa"), Some(0));
    assert_eq!(find_sub("hello", "xyz"), None);
    assert_eq!(find_sub("hi", "longer than it"), None);
}

#[test]
fn split_keeps_empty_pieces() {
    assert_eq!(split_char("a\nb\n", '\n'), vec!["a", "b", ""]);
    assert_eq!(split_char("", '\n'), vec![""]);
    assert_eq!(split_char("abc", '\n'), vec!["abc"]);
}

#[test]
fn tokenize_drops_all_whitespace() {
    assert_eq!(tokenize(" a  bb\tc "), vec!["a", "bb", "c"]);
    assert_eq!(tokenize("one"), vec!["one"]);
    assert!(tokenize("  \t ").is_empty());
    assert!(tokenize("").is_empty());
}

#[test]
fn comparison_is_lexicographic() {
    assert!(matches!(str_cmp("a", "ab"), CharsOrd::Less));
    assert!(matches!(str_cmp("ab", "b"), CharsOrd::Less));
    assert!(matches!(str_cmp("b", "ab"), CharsOrd::Greater));
    assert!(matches!(str_cmp("same", "same"), CharsOrd::Equal));
}

#[test]
fn equality_is_exact() {
    assert!(str_eq("abc", "abc"));
    assert!(!str_eq("abc", "abd"));
    assert!(!str_eq("abc", "abcd"));
}
