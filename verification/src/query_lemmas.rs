//! What holds of what a query selects.

use vstd::prelude::*;
use crate::index::{
    ascending_positions, index_of, occurrences, positions_of, well_formed, EntryModel,
};
use crate::index_lemmas::{
    lemma_every_line_is_indexed, lemma_index_of_positions, lemma_index_of_well_formed,
};
use crate::query::{line_matches, selected, MatchMode};

verus! {

/// The selection holds an entry exactly where the index holds it and its
/// line matches.
pub proof fn lemma_selected_contains(
    entries: Seq<EntryModel>,
    mode: MatchMode,
    terms: Seq<Seq<char>>,
    entry: EntryModel,
)
    ensures
        selected(entries, mode, terms).contains(entry) <==> entries.contains(entry) && line_matches(
            mode,
            entry.line,
            terms,
        ),
{
    let pred = |entry: EntryModel| line_matches(mode, entry.line, terms);
    let chosen = entries.filter(pred);
    if chosen.contains(entry) {
        entries.lemma_filter_contains_rev(pred, entry);
        let i = choose|i: int| 0 <= i < chosen.len() && chosen[i] == entry;
        entries.lemma_filter_pred(pred, i);
    }
    if entries.contains(entry) && line_matches(mode, entry.line, terms) {
        let i = choose|i: int| 0 <= i < entries.len() && entries[i] == entry;
        entries.lemma_filter_contains(pred, i);
    }
}

/// What is selected from a well-formed index is well formed.
pub proof fn lemma_selected_well_formed(
    entries: Seq<EntryModel>,
    mode: MatchMode,
    terms: Seq<Seq<char>>,
)
    requires
        well_formed(entries),
    ensures
        well_formed(selected(entries, mode, terms)),
    decreases entries.len(),
{
    reveal(Seq::filter);
    if entries.len() > 0 {
        let front = entries.drop_last();
        let last = entries.last();
        let earlier = selected(front, mode, terms);
        let here = selected(entries, mode, terms);
        assert(well_formed(front)) by {
            assert forall|i: int| 0 <= i < front.len() implies front[i] == entries[i] by {}
        }
        lemma_selected_well_formed(front, mode, terms);
        if line_matches(mode, last.line, terms) {
            assert(here == earlier.push(last));
            assert forall|i: int, j: int| 0 <= i < j < here.len() implies here[i].line
                != here[j].line by {
                if j == earlier.len() {
                    lemma_selected_contains(front, mode, terms, earlier[i]);
                    assert(earlier.contains(earlier[i]));
                    let k = choose|k: int| 0 <= k < front.len() && front[k] == earlier[i];
                    assert(entries[k] == earlier[i]);
                } else {
                    assert(here[i] == earlier[i] && here[j] == earlier[j]);
                }
            }
            assert forall|i: int| 0 <= i < here.len() implies ascending_positions(
                #[trigger] here[i].positions,
            ) by {
                if i < earlier.len() {
                    assert(here[i] == earlier[i]);
                } else {
                    assert(here[i] == entries[entries.len() - 1]);
                }
            }
        } else {
            assert(here == earlier);
        }
    }
}

/// Nothing is found that is not there: each entry selected from the index
/// of `lines` holds a line of `lines` that matches, with all its occurrences.
pub proof fn lemma_search_is_sound(
    lines: Seq<Seq<char>>,
    mode: MatchMode,
    terms: Seq<Seq<char>>,
    k: int,
)
    requires
        0 <= k < selected(index_of(lines), mode, terms).len(),
    ensures
        ({
            let entry = selected(index_of(lines), mode, terms)[k];
            &&& line_matches(mode, entry.line, terms)
            &&& lines.contains(entry.line)
            &&& entry.positions == occurrences(lines, entry.line)
        }),
{
    let index = index_of(lines);
    let found = selected(index, mode, terms);
    let entry = found[k];
    assert(found.contains(entry));
    lemma_selected_contains(index, mode, terms, entry);
    let i = choose|i: int| 0 <= i < index.len() && index[i] == entry;
    assert(index[i].positions == occurrences(lines, index[i].line));
    lemma_index_of_positions(lines, entry.line);
}

/// Nothing that is there is missed: each line of `lines` that matches has
/// its entry among those selected from the index of `lines`, and its own
/// position stands in that entry.
pub proof fn lemma_search_is_complete(
    lines: Seq<Seq<char>>,
    mode: MatchMode,
    terms: Seq<Seq<char>>,
    i: int,
)
    requires
        0 <= i < lines.len(),
        line_matches(mode, lines[i], terms),
    ensures
        positions_of(selected(index_of(lines), mode, terms), lines[i]) == Some(
            occurrences(lines, lines[i]),
        ),
        occurrences(lines, lines[i]).contains(i + 1),
{
    let index = index_of(lines);
    let found = selected(index, mode, terms);
    lemma_every_line_is_indexed(lines, i);
    lemma_index_of_well_formed(lines);
    lemma_selected_well_formed(index, mode, terms);
    let at = choose|at: int| 0 <= at < index.len() && index[at].line == lines[i];
    let entry = index[at];
    assert(index.contains(entry));
    lemma_selected_contains(index, mode, terms, entry);
    let k = choose|k: int| 0 <= k < found.len() && found[k] == entry;
    assert(found[k].line == lines[i]);
}

/// With no terms, every entry is selected.
pub proof fn lemma_no_terms_select_all(entries: Seq<EntryModel>, mode: MatchMode)
    ensures
        selected(entries, mode, Seq::<Seq<char>>::empty()) == entries,
    decreases entries.len(),
{
    reveal(Seq::filter);
    if entries.len() > 0 {
        lemma_no_terms_select_all(entries.drop_last(), mode);
        assert(entries.drop_last().push(entries.last()) =~= entries);
    }
}

} // verus!
