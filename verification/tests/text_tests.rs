use radar_monitor::text::{chars_of, contains, find_in, matches_at, name_lt, sort_names};

fn names(list: &[&str]) -> Vec<String> {
    list.iter().map(|s| s.to_string()).collect()
}

#[test]
fn chars_of_keeps_every_character() {
    assert_eq!(chars_of("a.b"), vec!['a', '.', 'b']);
    assert_eq!(chars_of("\u{e9}x"), vec!['\u{e9}', 'x']);
    assert_eq!(chars_of(""), Vec::<char>::new());
}

#[test]
fn contains_finds_a_part_anywhere() {
    assert!(contains("IDR043.T.202401011200.png", "IDR043"));
    assert!(contains("prefix-IDR043.T.202401011200.png", "IDR043"));
    assert!(contains("IDR043.T.202401011200.png", ".png"));
    assert!(contains("IDR043.T.202401011200.png", "IDR043.T.202401011200.png"));
    assert!(!contains("IDR043.T.202401011200.png", "IDR044"));
    assert!(!contains("IDR04", "IDR043"));
    assert!(!contains("", "a"));
}

#[test]
fn contains_finds_the_empty_part_everywhere() {
    assert!(contains("abc", ""));
    assert!(contains("", ""));
}

#[test]
fn contains_goes_on_after_a_partial_match() {
    assert!(contains("IDIDR043", "IDR043"));
    assert!(contains("aab", "ab"));
    assert!(!contains("aaa", "ab"));
}

#[test]
fn matches_at_checks_one_place() {
    let hay = chars_of("abcabc");
    let needle = chars_of("bc");
    assert!(matches_at(&hay, &needle, 1));
    assert!(matches_at(&hay, &needle, 4));
    assert!(!matches_at(&hay, &needle, 0));
    assert!(!matches_at(&hay, &needle, 5));
    assert!(!matches_at(&hay, &needle, 6));
    assert!(!matches_at(&hay, &needle, usize::MAX));
    assert!(matches_at(&hay, &chars_of(""), 6));
    assert!(!matches_at(&hay, &chars_of(""), 7));
    assert!(find_in(&hay, &needle));
}

#[test]
fn names_order_as_strings_do() {
    let samples = ["", "a", "ab", "b", "B", "x", "xa", "IDR042", "IDR043", "\u{e9}", "z\u{e9}", "zz"];
    for a in samples.iter() {
        for b in samples.iter() {
            assert_eq!(name_lt(a, b), a < b);
        }
    }
}

#[test]
fn sort_names_sorts_as_strings_do() {
    let listing = names(&["b", "xa", "a", "", "IDR043.T.2", "IDR043.T.10", "a", "B"]);
    let mut expected = listing.clone();
    expected.sort();
    assert_eq!(sort_names(&listing), expected);
}

#[test]
fn sort_names_keeps_repeated_names() {
    assert_eq!(sort_names(&names(&["b", "a", "b", "a"])), names(&["a", "a", "b", "b"]));
    assert_eq!(sort_names(&Vec::new()), Vec::<String>::new());
}
