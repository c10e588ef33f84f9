//! Matching one line against a list of terms.
//!
//! Two strategies are offered. The ordered one walks the line with a cursor:
//! each term must occur at or after the cursor, and the cursor then moves
//! just past the first such occurrence. The unordered one consumes: each term
//! must occur in what is left of the line, and its first occurrence is then
//! cut out, so that one stretch of text never serves two terms.
//!
//! In both, an empty list of terms matches every line, and an empty term
//! matches nothing.

use vstd::prelude::*;
use crate::text::{
    char_texts, find, find_from, first_occurrence, first_occurrence_from,
    lemma_first_occurrence_unique, occurs, occurs_from, remove_span, texts, to_char_texts,
    to_chars, without_span,
};

verus! {

/// The ordered strategy, started with the cursor at `cursor`.
pub open spec fn ordered_matches_from(line: Seq<char>, terms: Seq<Seq<char>>, cursor: int) -> bool
    decreases terms.len(),
{
    if terms.len() == 0 {
        true
    } else {
        let term = terms.first();
        &&& term.len() > 0
        &&& occurs_from(line, term, cursor)
        &&& ordered_matches_from(
            line,
            terms.drop_first(),
            first_occurrence_from(line, term, cursor) + term.len(),
        )
    }
}

/// The terms occur in `line` one after the other, in the order given and
/// without overlap, each found as early as the one before it allows.
pub open spec fn ordered_matches(line: Seq<char>, terms: Seq<Seq<char>>) -> bool {
    ordered_matches_from(line, terms, 0)
}

/// Each term in turn occurs in what the terms before it have left of `line`,
/// and its first occurrence there is cut out.
pub open spec fn unordered_matches(line: Seq<char>, terms: Seq<Seq<char>>) -> bool
    decreases terms.len(),
{
    if terms.len() == 0 {
        true
    } else {
        let term = terms.first();
        &&& term.len() > 0
        &&& occurs(line, term)
        &&& unordered_matches(
            remove_span(line, first_occurrence(line, term), term.len() as int),
            terms.drop_first(),
        )
    }
}

/// The ordered strategy on character vectors.
pub fn ordered_match_chars(line: &Vec<char>, terms: &Vec<Vec<char>>) -> (matched: bool)
    ensures
        matched == ordered_matches(line@, char_texts(terms@)),
{
    let ghost all = char_texts(terms@);
    let mut cursor: usize = 0;
    let mut i: usize = 0;
    assert(all.skip(0) =~= all);
    while i < terms.len()
        invariant
            i <= terms.len(),
            cursor <= line.len(),
            all == char_texts(terms@),
            ordered_matches(line@, all) == ordered_matches_from(
                line@,
                all.skip(i as int),
                cursor as int,
            ),
        decreases terms.len() - i,
    {
        let term = &terms[i];
        proof {
            assert(all.skip(i as int).first() == term@);
            assert(all.skip(i as int).drop_first() =~= all.skip(i + 1));
        }
        if term.len() == 0 {
            return false;
        }
        match find_from(line, term, cursor) {
            None => {
                return false;
            },
            Some(at) => {
                proof {
                    lemma_first_occurrence_unique(line@, term@, cursor as int, at as int);
                }
                cursor = at + term.len();
            },
        }
        i += 1;
    }
    true
}

/// The unordered strategy on character vectors.
pub fn unordered_match_chars(line: &Vec<char>, terms: &Vec<Vec<char>>) -> (matched: bool)
    ensures
        matched == unordered_matches(line@, char_texts(terms@)),
{
    let ghost all = char_texts(terms@);
    let mut left: Vec<char> = line.clone();
    let mut i: usize = 0;
    assert(left@ =~= line@);
    assert(all.skip(0) =~= all);
    while i < terms.len()
        invariant
            i <= terms.len(),
            all == char_texts(terms@),
            unordered_matches(line@, all) == unordered_matches(left@, all.skip(i as int)),
        decreases terms.len() - i,
    {
        let term = &terms[i];
        proof {
            assert(all.skip(i as int).first() == term@);
            assert(all.skip(i as int).drop_first() =~= all.skip(i + 1));
        }
        if term.len() == 0 {
            return false;
        }
        match find(&left, term) {
            None => {
                return false;
            },
            Some(at) => {
                left = without_span(&left, at, term.len());
            },
        }
        i += 1;
    }
    true
}

/// Whether the terms of `args` occur in `key` in the order given, without
/// overlap.
pub fn ordered_match(key: String, args: Vec<String>) -> (matched: bool)
    ensures
        matched == ordered_matches(key@, texts(args@)),
        args@.len() == 0 ==> matched,
{
    let line = to_chars(key.as_str());
    let terms = to_char_texts(&args);
    ordered_match_chars(&line, &terms)
}

/// Whether each term of `args` occurs in `key`, no stretch of `key` serving
/// two terms.
pub fn unordered_match(key: String, args: Vec<String>) -> (matched: bool)
    ensures
        matched == unordered_matches(key@, texts(args@)),
        args@.len() == 0 ==> matched,
{
    let line = to_chars(key.as_str());
    let terms = to_char_texts(&args);
    unordered_match_chars(&line, &terms)
}

} // verus!
