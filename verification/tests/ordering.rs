use substring_count::File;

const TEXT: &str = "hello world hello there hello";

fn strings(texts: &[&str]) -> Vec<String> {
    texts.iter().map(|text| text.to_string()).collect()
}

#[test]
fn nothing_counted_gives_an_empty_order() {
    let mut file = File::new(TEXT);
    assert!(file.order_content_alphabetically().is_empty());
    assert!(file.ordered_content().is_empty());
}

#[test]
fn counted_substrings_come_in_ascending_order() {
    let mut file = File::new(TEXT);
    file.parse_and_count("o");
    file.parse_and_count("world");
    file.parse_and_count("there");
    file.parse_and_count("rust");
    let ordered = file.order_content_alphabetically();
    assert_eq!(ordered, strings(&["o", "rust", "there", "world"]));
    assert_eq!(file.ordered_content(), &ordered);
}

#[test]
fn a_substring_counted_twice_is_listed_once() {
    let mut file = File::new(TEXT);
    file.parse_and_count("world");
    file.parse_and_count("hello");
    file.parse_and_count("world");
    file.parse_and_count("hello");
    assert_eq!(file.order_content_alphabetically(), strings(&["hello", "world"]));
}

#[test]
fn a_prefix_comes_before_what_it_begins() {
    let mut file = File::new(TEXT);
    for substr in ["hello", "he", "hell", "h", "", "hello "] {
        file.parse_and_count(substr);
    }
    assert_eq!(
        file.order_content_alphabetically(),
        strings(&["", "h", "he", "hell", "hello", "hello "])
    );
}

#[test]
fn the_order_goes_by_code_points() {
    let mut file = File::new(TEXT);
    for substr in ["b", "a", "B", "é", "z", "ab", "日", "Z", " ", "~"] {
        file.parse_and_count(substr);
    }
    let ordered = file.order_content_alphabetically();
    assert_eq!(ordered, strings(&[" ", "B", "Z", "a", "ab", "b", "z", "~", "é", "日"]));
    let mut expected = ordered.clone();
    expected.sort();
    assert_eq!(ordered, expected);
}

#[test]
fn the_order_agrees_with_the_standard_sort() {
    let substrs = [
        "there", "the", "hello", "o w", "world", "", "l", "ll", "lo", "e", "h", "d", "rust", "o",
    ];
    let mut file = File::new(TEXT);
    for substr in substrs {
        file.parse_and_count(substr);
    }
    let mut expected = strings(&substrs);
    expected.sort();
    assert_eq!(file.order_content_alphabetically(), expected);
}

#[test]
fn ordering_twice_gives_the_same_list() {
    let mut file = File::new(TEXT);
    file.parse_and_count("world");
    file.parse_and_count("o");
    let first = file.order_content_alphabetically();
    let second = file.order_content_alphabetically();
    assert_eq!(first, second);
    assert_eq!(file.ordered_content(), &second);
}

#[test]
fn the_list_kept_is_stale_until_ordered_again() {
    let mut file = File::new(TEXT);
    file.parse_and_count("world");
    file.order_content_alphabetically();
    file.parse_and_count("hello");
    assert_eq!(file.ordered_content(), &strings(&["world"]));
    assert_eq!(file.order_content_alphabetically(), strings(&["hello", "world"]));
    assert_eq!(file.ordered_content(), &strings(&["hello", "world"]));
}

#[test]
fn ordering_changes_no_count() {
    let mut file = File::new(TEXT);
    file.parse_and_count("hello");
    file.parse_and_count("o");
    file.order_content_alphabetically();
    assert_eq!(file.get_count("hello"), Some(&3));
    assert_eq!(file.get_count("o"), Some(&4));
    assert_eq!(file.parse_and_count("hello"), 3);
    assert_eq!(file.get_count("hello"), Some(&6));
}
