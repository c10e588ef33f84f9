use history_search::matcher::{
    ordered_match, ordered_match_chars, unordered_match, unordered_match_chars,
};
use history_search::query::{term_match, MatchMode};

fn terms(items: &[&str]) -> Vec<String> {
    items.iter().map(|item| item.to_string()).collect()
}

fn ordered(line: &str, items: &[&str]) -> bool {
    ordered_match(line.to_string(), terms(items))
}

fn unordered(line: &str, items: &[&str]) -> bool {
    unordered_match(line.to_string(), terms(items))
}

#[test]
fn no_terms_match_every_line() {
    for line in ["", "a", "ls -la", "cd /tmp; make", "héllo"] {
        assert!(ordered(line, &[]));
        assert!(unordered(line, &[]));
    }
}

#[test]
fn ordered_takes_two_occurrences_for_a_repeated_term() {
    assert!(ordered("foofoo", &["foo", "foo"]));
    assert!(!ordered("foo", &["foo", "foo"]));
}

#[test]
fn unordered_takes_two_occurrences_for_a_repeated_term() {
    assert!(unordered("aa", &["a", "a"]));
    assert!(!unordered("a", &["a", "a"]));
}

#[test]
fn ordered_match_implies_unordered_match() {
    let lines = ["git commit -m fix", "foofoo", "abcabc", "aXbXc", "ls -la /tmp", "aaa"];
    let queries: [&[&str]; 8] = [
        &["git", "fix"],
        &["foo", "foo"],
        &["abc", "abc"],
        &["a", "b", "c"],
        &["c", "a"],
        &["ls", "/tmp"],
        &["a", "a", "a"],
        &["bc", "ab"],
    ];
    for line in lines {
        for query in queries {
            if ordered(line, query) {
                assert!(unordered(line, query), "{:?} {:?}", line, query);
            }
        }
    }
}

#[test]
fn ordered_asks_for_more_than_unordered() {
    assert!(unordered("ba", &["a", "b"]));
    assert!(!ordered("ba", &["a", "b"]));
    assert!(unordered("cd /tmp && ls", &["ls", "cd"]));
    assert!(!ordered("cd /tmp && ls", &["ls", "cd"]));
    assert!(ordered("cd /tmp && ls", &["cd", "ls"]));
}

#[test]
fn ordered_rejects_overlapping_occurrences() {
    assert!(!ordered("aba", &["ab", "ba"]));
    assert!(ordered("abba", &["ab", "ba"]));
    assert!(!ordered("aa", &["aa", "a"]));
    assert!(ordered("aaa", &["aa", "a"]));
}

#[test]
fn ordered_moves_the_cursor_past_the_first_occurrence() {
    assert!(ordered("a-b-a", &["a", "b", "a"]));
    assert!(!ordered("a-b", &["a", "b", "a"]));
    assert!(ordered("xaxbxc", &["a", "b", "c"]));
    assert!(!ordered("xcxbxa", &["a", "b", "c"]));
}

#[test]
fn unordered_cuts_the_first_occurrence_out() {
    // "abba" without "bb" is "aa"
    assert!(unordered("abba", &["bb", "aa"]));
    assert!(!ordered("abba", &["bb", "aa"]));
    // "abab" without its first "ab" is "ab"
    assert!(unordered("abab", &["ab", "ab"]));
    assert!(!unordered("abab", &["ab", "ab", "ab"]));
    assert!(!unordered("abab", &["ab", "ba"]));
    assert!(unordered("abab", &["ba", "ab"]));
}

#[test]
fn a_missing_term_fails_the_match() {
    assert!(!ordered("ls -la", &["cd"]));
    assert!(!unordered("ls -la", &["cd"]));
    assert!(!ordered("ls -la", &["ls", "cd"]));
    assert!(!unordered("ls -la", &["ls", "cd"]));
    assert!(!ordered("ls", &["ls -la"]));
    assert!(!unordered("ls", &["ls -la"]));
}

#[test]
fn a_single_term_matches_where_it_occurs() {
    for (line, term, expected) in [
        ("ls -la", "ls", true),
        ("ls -la", "-la", true),
        ("ls -la", "s -l", true),
        ("ls -la", "la ", false),
        ("ls -la", "ls -la ", false),
        ("ls -la", "", false),
        ("", "a", false),
    ] {
        assert_eq!(ordered(line, &[term]), expected, "{:?} {:?}", line, term);
        assert_eq!(unordered(line, &[term]), expected, "{:?} {:?}", line, term);
    }
}

#[test]
fn matched_terms_are_together_no_longer_than_the_line() {
    assert!(unordered("abc", &["a", "b", "c"]));
    assert!(ordered("abc", &["a", "b", "c"]));
    assert!(!unordered("abc", &["a", "b", "c", "a"]));
    assert!(!ordered("abc", &["a", "b", "c", "a"]));
    assert!(!unordered("abc", &["ab", "bc"]));
    assert!(!ordered("abc", &["ab", "bc"]));
    assert!(unordered("abc", &["bc", "a"]));
    assert!(unordered("abc", &["abc"]));
    assert!(!unordered("abc", &["abc", "a"]));
}

#[test]
fn the_empty_line_matches_only_no_terms() {
    assert!(ordered("", &[]));
    assert!(unordered("", &[]));
    assert!(!ordered("", &["a"]));
    assert!(!unordered("", &["a"]));
    assert!(!ordered("", &[""]));
    assert!(!unordered("", &[""]));
}

#[test]
fn an_empty_term_matches_nothing() {
    assert!(!ordered("ls -la", &[""]));
    assert!(!unordered("ls -la", &[""]));
    assert!(!ordered("ls -la", &["ls", ""]));
    assert!(!unordered("ls -la", &["ls", ""]));
    assert!(!ordered("ls -la", &["", "ls"]));
    assert!(!unordered("ls -la", &["", "ls"]));
}

#[test]
fn a_term_may_be_the_whole_line() {
    assert!(ordered("ls -la", &["ls -la"]));
    assert!(unordered("ls -la", &["ls -la"]));
    assert!(!ordered("ls -la", &["ls -la", "l"]));
    assert!(!unordered("ls -la", &["ls -la", "l"]));
}

#[test]
fn text_outside_ascii_is_matched_by_character() {
    assert!(ordered("héllo wörld", &["hé", "wör"]));
    assert!(!ordered("héllo wörld", &["wör", "hé"]));
    assert!(unordered("héllo wörld", &["wör", "hé"]));
    assert!(unordered("日本語 テキスト", &["テキ", "本"]));
    assert!(!unordered("日本語", &["本日"]));
}

#[test]
fn matching_on_characters_agrees_with_matching_on_strings() {
    let line: Vec<char> = "foofoo".chars().collect();
    let twice: Vec<Vec<char>> = vec!["foo".chars().collect(), "foo".chars().collect()];
    let thrice: Vec<Vec<char>> =
        vec!["foo".chars().collect(), "foo".chars().collect(), "foo".chars().collect()];
    assert!(ordered_match_chars(&line, &twice));
    assert!(unordered_match_chars(&line, &twice));
    assert!(!ordered_match_chars(&line, &thrice));
    assert!(!unordered_match_chars(&line, &thrice));
}

#[test]
fn term_match_follows_the_mode() {
    let query = terms(&["b", "a"]);
    assert!(term_match(MatchMode::Unordered, "ab", &query));
    assert!(!term_match(MatchMode::Ordered, "ab", &query));
    assert!(term_match(MatchMode::Ordered, "ba", &query));
    assert!(term_match(MatchMode::Ordered, "anything", &Vec::new()));
    assert!(term_match(MatchMode::Unordered, "anything", &Vec::new()));
}
