use std::collections::HashMap;

use history_search::dialect::{normalize, ShellDialect};
use history_search::index::LineIndex;
use history_search::matcher::{ordered_match, unordered_match};

/// A small generator of repeatable pseudo-random numbers.
struct Lcg(u64);

impl Lcg {
    fn next(&mut self, bound: u64) -> u64 {
        self.0 = self.0.wrapping_mul(6364136223846793005).wrapping_add(1442695040888963407);
        (self.0 >> 33) % bound
    }

    fn text(&mut self, alphabet: &[char], max_len: u64) -> String {
        let len = self.next(max_len + 1);
        (0..len).map(|_| alphabet[self.next(alphabet.len() as u64) as usize]).collect()
    }
}

fn ordered_on_strings(line: &str, terms: &[String]) -> bool {
    let mut rest = line.to_string();
    for term in terms {
        if term.is_empty() {
            return false;
        }
        match rest.find(term.as_str()) {
            Some(at) => rest = rest[at + term.len()..].to_string(),
            None => return false,
        }
    }
    true
}

fn unordered_on_strings(line: &str, terms: &[String]) -> bool {
    let mut rest = line.to_string();
    for term in terms {
        if term.is_empty() {
            return false;
        }
        if rest.find(term.as_str()).is_some() {
            rest = rest.replacen(term.as_str(), "", 1);
        } else {
            return false;
        }
    }
    true
}

#[test]
fn matching_agrees_with_search_and_removal_on_strings() {
    let mut random = Lcg(7);
    let alphabet = ['a', 'b', 'é'];
    let mut matched = 0;
    for _ in 0..4000 {
        let line = random.text(&alphabet, 8);
        let count = random.next(4);
        let terms: Vec<String> = (0..count).map(|_| random.text(&alphabet, 3)).collect();
        let ordered = ordered_match(line.clone(), terms.clone());
        let unordered = unordered_match(line.clone(), terms.clone());
        assert_eq!(ordered, ordered_on_strings(&line, &terms), "{:?} {:?}", line, terms);
        assert_eq!(unordered, unordered_on_strings(&line, &terms), "{:?} {:?}", line, terms);
        if ordered {
            assert!(unordered, "{:?} {:?}", line, terms);
            matched += 1;
        }
    }
    assert!(matched > 100);
}

#[test]
fn the_index_agrees_with_a_map_of_positions() {
    let mut random = Lcg(11);
    let alphabet = ['x', 'y', ' '];
    for _ in 0..200 {
        let count = random.next(40);
        let lines: Vec<String> = (0..count).map(|_| random.text(&alphabet, 3)).collect();
        let mut expected: HashMap<String, Vec<usize>> = HashMap::new();
        for (i, line) in lines.iter().enumerate() {
            expected.entry(line.clone()).or_insert_with(Vec::new).push(i + 1);
        }
        let index = LineIndex::build(&lines);
        assert_eq!(index.len(), expected.len());
        for entry in index.entries() {
            assert_eq!(expected.get(&entry.line), Some(&entry.positions));
            assert_eq!(index.positions(&entry.line), Some(&entry.positions));
        }
        let firsts: Vec<usize> = index.entries().iter().map(|entry| entry.positions[0]).collect();
        for pair in firsts.windows(2) {
            assert!(pair[0] < pair[1]);
        }
    }
}

#[test]
fn normalizing_agrees_with_splitting_at_semicolons() {
    let mut random = Lcg(13);
    let alphabet = [';', ':', '0', ' ', 'l', 's', 'ü'];
    for _ in 0..2000 {
        let raw = random.text(&alphabet, 10);
        let expected = if raw.contains(';') {
            raw.split(';').last().unwrap_or("").to_string()
        } else {
            String::new()
        };
        assert_eq!(normalize(&raw, ShellDialect::ZshExtended), expected, "{:?}", raw);
        assert_eq!(normalize(&raw, ShellDialect::Generic), raw);
    }
}
