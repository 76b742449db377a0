use substring_count::File;

const TEXT: &str = "hello world hello there hello";

#[test]
fn test_parse_and_count() {
    let mut file = File::new("hello world hello there hello");
    let hello_count = file.parse_and_count("hello");
    assert_eq!(hello_count, 3);
}

#[test]
fn test_get_count() {
    let mut file = File::new("hello world hello there hello");
    let _hello_count = file.parse_and_count("world");
    let world_count = file.get_count("world");
    assert_eq!(world_count, Some(&1));
}

#[test]
fn counts_of_the_sample_text() {
    let mut file = File::new(TEXT);
    assert_eq!(file.parse_and_count("o"), 4);
    assert_eq!(file.parse_and_count("world"), 1);
    assert_eq!(file.parse_and_count("there"), 1);
    assert_eq!(file.parse_and_count("rust"), 0);
    assert_eq!(file.get_count("world"), Some(&1));
    assert_eq!(file.get_count("o"), Some(&4));
    assert_eq!(file.get_count("rust"), Some(&0));
}

#[test]
fn a_substring_never_counted_has_no_count() {
    let mut file = File::new(TEXT);
    assert_eq!(file.get_count("hello"), None);
    file.parse_and_count("hello");
    assert_eq!(file.get_count("hell"), None);
    assert_eq!(file.get_count(""), None);
}

#[test]
fn the_count_returned_is_the_count_stored() {
    for (content, substr) in [
        (TEXT, "hello"),
        (TEXT, "l"),
        (TEXT, " "),
        (TEXT, "xyz"),
        ("", "a"),
        ("a", "a"),
        ("été, l'été", "été"),
    ] {
        let mut file = File::new(content);
        let count = file.parse_and_count(substr);
        assert_eq!(file.get_count(substr), Some(&count));
    }
}

#[test]
fn occurrences_that_overlap_count_once() {
    let mut file = File::new("aaaaa");
    assert_eq!(file.parse_and_count("aa"), 2);
    assert_eq!(file.parse_and_count("aaa"), 1);
    assert_eq!(file.parse_and_count("aaaaa"), 1);
    assert_eq!(file.parse_and_count("aaaaaa"), 0);
    let mut file = File::new("abababa");
    assert_eq!(file.parse_and_count("aba"), 2);
    assert_eq!(file.parse_and_count("bab"), 1);
    assert_eq!(file.parse_and_count("ab"), 3);
}

#[test]
fn a_match_is_looked_for_again_one_character_on() {
    let mut file = File::new("aab");
    assert_eq!(file.parse_and_count("ab"), 1);
    let mut file = File::new("xxxy-xxy");
    assert_eq!(file.parse_and_count("xxy"), 2);
}

#[test]
fn the_empty_substring_is_found_at_every_boundary() {
    let mut file = File::new("abc");
    assert_eq!(file.parse_and_count(""), 4);
    assert_eq!(file.get_count(""), Some(&4));
    let mut file = File::new("");
    assert_eq!(file.parse_and_count(""), 1);
    let mut file = File::new("héé");
    assert_eq!(file.parse_and_count(""), 4);
}

#[test]
fn an_empty_text_holds_no_substring() {
    let mut file = File::new("");
    assert_eq!(file.parse_and_count("a"), 0);
    assert_eq!(file.get_count("a"), Some(&0));
}

#[test]
fn counts_agree_with_the_standard_search() {
    let contents = [
        "",
        "a",
        "aaaa",
        "abcabcabc",
        "hello world hello there hello",
        "mississippi",
        "ééé-été",
        "日本語日本語",
        "a\nb\na\n",
    ];
    let substrs = ["", "a", "aa", "abc", "bca", "ss", "issi", "hello", "é", "本語", "\n", "zz"];
    for content in contents {
        for substr in substrs {
            let mut file = File::new(content);
            let expected = content.matches(substr).count() as u32;
            assert_eq!(file.parse_and_count(substr), expected, "{:?} in {:?}", substr, content);
        }
    }
}

#[test]
fn two_counts_add_up() {
    let mut file = File::new(TEXT);
    let first = file.parse_and_count("hello");
    let second = file.parse_and_count("hello");
    assert_eq!(first, 3);
    assert_eq!(second, 3);
    assert_eq!(file.get_count("hello"), Some(&6));
    assert_eq!(file.get_count("hello"), Some(&(first + second)));
}

#[test]
fn a_count_leaves_other_totals_alone() {
    let mut file = File::new(TEXT);
    file.parse_and_count("hello");
    file.parse_and_count("o");
    file.parse_and_count("hello");
    assert_eq!(file.get_count("hello"), Some(&6));
    assert_eq!(file.get_count("o"), Some(&4));
}

#[test]
fn each_further_count_adds_as_much_again() {
    let mut file = File::new("hello world hello there hello");
    for times in 1..=7u32 {
        assert_eq!(file.parse_and_count("hello"), 3);
        assert_eq!(file.get_count("hello"), Some(&(3 * times)));
    }
}

#[test]
fn counts_lists_each_substring_with_its_total() {
    let mut file = File::new(TEXT);
    assert!(file.counts().is_empty());
    file.parse_and_count("o");
    file.parse_and_count("world");
    file.parse_and_count("o");
    file.parse_and_count("rust");
    let mut entries = file.counts();
    entries.sort();
    assert_eq!(
        entries,
        vec![("o".to_string(), 8), ("rust".to_string(), 0), ("world".to_string(), 1)]
    );
}

#[test]
fn the_checked_count_counts_as_the_plain_one() {
    let mut plain = File::new(TEXT);
    let mut checked = File::new(TEXT);
    for substr in ["hello", "o", "", "rust", "hello", "o"] {
        let count = plain.parse_and_count(substr);
        assert_eq!(checked.checked_parse_and_count(substr), Some(count));
        assert_eq!(checked.get_count(substr), plain.get_count(substr));
    }
    assert_eq!(checked.get_count("hello"), Some(&6));
    assert_eq!(checked.get_count("o"), Some(&8));
    assert_eq!(checked.get_count(""), Some(&30));
    assert_eq!(checked.get_count("rust"), Some(&0));
}

#[test]
fn the_checked_count_stops_where_the_total_would_not_fit() {
    let content = "a".repeat(1 << 20);
    let mut file = File::new(&content);
    let each: u32 = (1 << 20) + 1;
    for times in 1..=4095u32 {
        assert_eq!(file.checked_parse_and_count(""), Some(each));
        assert_eq!(file.get_count(""), Some(&(times * each)));
    }
    assert_eq!(file.get_count(""), Some(&4_293_922_815));
    assert_eq!(file.checked_parse_and_count(""), None);
    assert_eq!(file.get_count(""), Some(&4_293_922_815));
    assert_eq!(file.checked_parse_and_count("b"), Some(0));
    assert_eq!(file.checked_parse_and_count("a"), Some(1 << 20));
    assert_eq!(file.counts().len(), 3);
    assert_eq!(file.checked_parse_and_count(""), None);
    assert_eq!(file.order_content_alphabetically(), vec!["", "a", "b"]);
}
