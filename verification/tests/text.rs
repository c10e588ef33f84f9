use history_search::text::{find, find_from, matches_at, to_char_texts, to_chars, without_span};

fn chars(s: &str) -> Vec<char> {
    s.chars().collect()
}

#[test]
fn to_chars_gives_each_character() {
    assert_eq!(to_chars("ls -la"), vec!['l', 's', ' ', '-', 'l', 'a']);
    assert_eq!(to_chars(""), Vec::<char>::new());
    assert_eq!(to_chars("hé"), vec!['h', 'é']);
    assert_eq!(
        to_char_texts(&vec!["ab".to_string(), "".to_string(), "c".to_string()]),
        vec![vec!['a', 'b'], vec![], vec!['c']]
    );
}

#[test]
fn matches_at_compares_in_place() {
    let hay = chars("abcabc");
    assert!(matches_at(&hay, &chars("abc"), 0));
    assert!(matches_at(&hay, &chars("abc"), 3));
    assert!(!matches_at(&hay, &chars("abc"), 1));
    assert!(!matches_at(&hay, &chars("abc"), 4));
    assert!(!matches_at(&hay, &chars("abc"), 7));
    assert!(matches_at(&hay, &chars(""), 6));
    assert!(!matches_at(&hay, &chars(""), 7));
    assert!(!matches_at(&hay, &chars("abcabcd"), 0));
}

#[test]
fn find_gives_the_first_occurrence() {
    let hay = chars("abcabc");
    assert_eq!(find(&hay, &chars("abc")), Some(0));
    assert_eq!(find(&hay, &chars("bc")), Some(1));
    assert_eq!(find(&hay, &chars("ca")), Some(2));
    assert_eq!(find(&hay, &chars("cb")), None);
    assert_eq!(find(&hay, &chars("abcabcabc")), None);
    assert_eq!(find(&hay, &chars("")), Some(0));
    assert_eq!(find(&chars(""), &chars("")), Some(0));
    assert_eq!(find(&chars(""), &chars("a")), None);
}

#[test]
fn find_from_starts_at_the_offset_given() {
    let hay = chars("abcabc");
    assert_eq!(find_from(&hay, &chars("abc"), 0), Some(0));
    assert_eq!(find_from(&hay, &chars("abc"), 1), Some(3));
    assert_eq!(find_from(&hay, &chars("abc"), 3), Some(3));
    assert_eq!(find_from(&hay, &chars("abc"), 4), None);
    assert_eq!(find_from(&hay, &chars("c"), 3), Some(5));
    assert_eq!(find_from(&hay, &chars("c"), 6), None);
    assert_eq!(find_from(&hay, &chars("c"), 100), None);
    assert_eq!(find_from(&hay, &chars(""), 6), Some(6));
    assert_eq!(find_from(&hay, &chars(""), 7), None);
}

#[test]
fn without_span_cuts_a_stretch_out() {
    let s = chars("abcdef");
    assert_eq!(without_span(&s, 0, 0), chars("abcdef"));
    assert_eq!(without_span(&s, 0, 2), chars("cdef"));
    assert_eq!(without_span(&s, 2, 2), chars("abef"));
    assert_eq!(without_span(&s, 4, 2), chars("abcd"));
    assert_eq!(without_span(&s, 0, 6), chars(""));
    assert_eq!(without_span(&s, 6, 0), chars("abcdef"));
}
