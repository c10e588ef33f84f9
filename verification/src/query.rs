//! Queries and their execution against a line index.

use vstd::prelude::*;
use crate::dialect::{normalize_all, normalized_all, ShellDialect};
use crate::index::{entry_models, index_of, well_formed, EntryModel, IndexEntry, LineIndex};
use crate::matcher::{
    ordered_match_chars, ordered_matches, unordered_match_chars, unordered_matches,
};
use crate::query_lemmas::lemma_selected_well_formed;
use crate::text::{char_texts, texts, to_char_texts, to_chars};

verus! {

/// The strategy by which a line is matched against the terms.
#[derive(Clone, Copy, Debug, PartialEq, Eq, Structural)]
pub enum MatchMode {
    /// Each term occurs somewhere, no stretch of the line serving two terms.
    Unordered,
    /// The terms occur in the order given, without overlap.
    Ordered,
}

impl Default for MatchMode {
    /// The unordered strategy.
    fn default() -> (mode: Self)
        ensures
            mode == MatchMode::Unordered,
    {
        MatchMode::Unordered
    }
}

/// The terms to look for and the strategy to match them by.
#[derive(Debug)]
pub struct Query {
    /// The terms, in the order in which they are matched.
    pub terms: Vec<String>,
    /// The strategy.
    pub mode: MatchMode,
}

/// What a query selects from an index: entries of the index, in its order.
pub type MatchResult = Vec<IndexEntry>;

/// Whether `line` matches `terms` under `mode`.
pub open spec fn line_matches(mode: MatchMode, line: Seq<char>, terms: Seq<Seq<char>>) -> bool {
    match mode {
        MatchMode::Unordered => unordered_matches(line, terms),
        MatchMode::Ordered => ordered_matches(line, terms),
    }
}

/// The entries of `entries` whose line matches `terms` under `mode`, in the
/// same order.
pub open spec fn selected(entries: Seq<EntryModel>, mode: MatchMode, terms: Seq<Seq<char>>) -> Seq<
    EntryModel,
> {
    entries.filter(|entry: EntryModel| line_matches(mode, entry.line, terms))
}

/// Whether `line` matches `terms` under `mode`, on character vectors.
pub fn match_chars(mode: MatchMode, line: &Vec<char>, terms: &Vec<Vec<char>>) -> (matched: bool)
    ensures
        matched == line_matches(mode, line@, char_texts(terms@)),
{
    match mode {
        MatchMode::Unordered => unordered_match_chars(line, terms),
        MatchMode::Ordered => ordered_match_chars(line, terms),
    }
}

/// Whether `candidate` matches `terms` under `mode`.
pub fn term_match(mode: MatchMode, candidate: &str, terms: &Vec<String>) -> (matched: bool)
    ensures
        matched == line_matches(mode, candidate@, texts(terms@)),
        terms@.len() == 0 ==> matched,
{
    let line = to_chars(candidate);
    let terms = to_char_texts(terms);
    match_chars(mode, &line, &terms)
}

/// The entries of `index` whose line matches the query, in the order of the
/// index, each with all its positions.
pub fn execute(index: &LineIndex, query: &Query) -> (result: MatchResult)
    ensures
        entry_models(result@) == selected(index@, query.mode, texts(query.terms@)),
        well_formed(entry_models(result@)),
{
    let entries = index.entries();
    let terms = to_char_texts(&query.terms);
    let ghost all = entry_models(entries@);
    let ghost wanted = texts(query.terms@);
    let mut result: Vec<IndexEntry> = Vec::new();
    let mut i: usize = 0;
    proof {
        reveal(Seq::filter);
        assert(entry_models(result@) =~= selected(all.take(0), query.mode, wanted));
    }
    while i < entries.len()
        invariant
            i <= entries.len(),
            all == entry_models(entries@),
            wanted == texts(query.terms@),
            char_texts(terms@) == wanted,
            entry_models(result@) == selected(all.take(i as int), query.mode, wanted),
        decreases entries.len() - i,
    {
        let entry = &entries[i];
        let line = to_chars(entry.line.as_str());
        proof {
            reveal(Seq::filter);
            assert(all.take(i + 1).drop_last() =~= all.take(i as int));
            assert(all.take(i + 1).last() == entry@);
        }
        if match_chars(query.mode, &line, &terms) {
            result.push(entry.clone());
            assert(entry_models(result@) =~= selected(all.take(i + 1), query.mode, wanted));
        }
        i += 1;
    }
    proof {
        assert(all.take(entries.len() as int) =~= all);
        lemma_selected_well_formed(all, query.mode, wanted);
    }
    result
}

/// The whole search: the raw lines are normalised under `dialect`, indexed,
/// and the index is queried.
pub fn search(raw_lines: &Vec<String>, dialect: ShellDialect, query: &Query) -> (result:
    MatchResult)
    ensures
        entry_models(result@) == selected(
            index_of(normalized_all(texts(raw_lines@), dialect)),
            query.mode,
            texts(query.terms@),
        ),
        well_formed(entry_models(result@)),
{
    let lines = normalize_all(raw_lines, dialect);
    let index = LineIndex::build(&lines);
    execute(&index, query)
}

} // verus!
