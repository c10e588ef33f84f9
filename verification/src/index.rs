//! The line index: each distinct line with the places at which it stands.
//!
//! Lines are numbered from 1 in the order given. The index keeps each
//! distinct line once, in the order of first appearance, with the ascending
//! list of its positions. A hash map from the text of a line to the place of
//! its entry makes a line found in the time of one lookup.

use vstd::prelude::*;
use vstd::hash_map::StringHashMap;
use crate::index_lemmas::{
    lemma_index_of_new_line, lemma_index_of_positions, lemma_index_of_seen_line,
    lemma_index_of_well_formed,
};
use crate::text::texts;

verus! {

/// One line of the index, with the positions at which it stands.
#[derive(Debug, PartialEq, Eq)]
pub struct IndexEntry {
    /// The text of the line.
    pub line: String,
    /// The positions of the line, counted from 1, in ascending order.
    pub positions: Vec<usize>,
}

/// What an entry holds: the text of a line and its positions.
pub struct EntryModel {
    /// The text of the line.
    pub line: Seq<char>,
    /// The positions of the line, counted from 1.
    pub positions: Seq<int>,
}

/// The positions of `positions` as mathematical integers.
pub open spec fn position_values(positions: Seq<usize>) -> Seq<int> {
    Seq::new(positions.len(), |i: int| positions[i] as int)
}

impl View for IndexEntry {
    type V = EntryModel;

    open spec fn view(&self) -> EntryModel {
        EntryModel { line: self.line@, positions: position_values(self.positions@) }
    }
}

impl Clone for IndexEntry {
    fn clone(&self) -> (copy: Self)
        ensures
            copy@ == self@,
    {
        let positions = self.positions.clone();
        assert(position_values(positions@) =~= position_values(self.positions@));
        IndexEntry { line: self.line.clone(), positions }
    }
}

/// The view of each entry of `entries`, in order.
pub open spec fn entry_models(entries: Seq<IndexEntry>) -> Seq<EntryModel> {
    Seq::new(entries.len(), |i: int| entries[i]@)
}

/// The positions, counted from 1 and ascending, at which `key` stands in
/// `lines`.
pub open spec fn occurrences(lines: Seq<Seq<char>>, key: Seq<char>) -> Seq<int>
    decreases lines.len(),
{
    if lines.len() == 0 {
        Seq::empty()
    } else {
        let earlier = occurrences(lines.drop_last(), key);
        if lines.last() == key {
            earlier.push(lines.len() as int)
        } else {
            earlier
        }
    }
}

/// The lines of `lines` without repetition, each where it first appears.
pub open spec fn distinct(lines: Seq<Seq<char>>) -> Seq<Seq<char>>
    decreases lines.len(),
{
    if lines.len() == 0 {
        Seq::empty()
    } else {
        let earlier = distinct(lines.drop_last());
        if lines.drop_last().contains(lines.last()) {
            earlier
        } else {
            earlier.push(lines.last())
        }
    }
}

/// The index of `lines`: its distinct lines, each with its occurrences.
pub open spec fn index_of(lines: Seq<Seq<char>>) -> Seq<EntryModel> {
    Seq::new(
        distinct(lines).len(),
        |i: int|
            EntryModel {
                line: distinct(lines)[i],
                positions: occurrences(lines, distinct(lines)[i]),
            },
    )
}

/// A list of positions as an index may hold it: not empty, counted from 1,
/// strictly ascending.
pub open spec fn ascending_positions(positions: Seq<int>) -> bool {
    &&& positions.len() > 0
    &&& positions[0] >= 1
    &&& forall|a: int, b: int| 0 <= a < b < positions.len() ==> positions[a] < positions[b]
}

/// What holds of every index: no line stands in it twice, and each line has
/// a list of positions that is not empty and strictly ascending.
pub open spec fn well_formed(entries: Seq<EntryModel>) -> bool {
    &&& forall|i: int, j: int| 0 <= i < j < entries.len() ==> entries[i].line != entries[j].line
    &&& forall|i: int|
        0 <= i < entries.len() ==> ascending_positions(#[trigger] entries[i].positions)
}

/// The positions that `entries` holds for `key`, where it holds the line.
pub open spec fn positions_of(entries: Seq<EntryModel>, key: Seq<char>) -> Option<Seq<int>> {
    if exists|i: int| 0 <= i < entries.len() && entries[i].line == key {
        let i = choose|i: int| 0 <= i < entries.len() && entries[i].line == key;
        Some(entries[i].positions)
    } else {
        None
    }
}

/// The number of positions that `entries` hold, all together.
pub open spec fn total_positions(entries: Seq<EntryModel>) -> nat
    decreases entries.len(),
{
    if entries.len() == 0 {
        0
    } else {
        total_positions(entries.drop_last()) + entries.last().positions.len()
    }
}

/// Whether `places` tells, for each line of `entries` and for no other
/// text, the place of its entry.
pub open spec fn places_agree(places: Map<Seq<char>, usize>, entries: Seq<IndexEntry>) -> bool {
    &&& forall|i: int|
        0 <= i < entries.len() ==> places.contains_key(#[trigger] entries[i].line@)
            && places[entries[i].line@] == i
    &&& forall|key: Seq<char>| #[trigger]
        places.contains_key(key) ==> places[key] < entries.len()
            && entries[places[key] as int].line@ == key
}

/// The index of a list of lines. It is built in one pass and only read
/// afterwards.
pub struct LineIndex {
    entries: Vec<IndexEntry>,
    places: StringHashMap<usize>,
}

impl View for LineIndex {
    type V = Seq<EntryModel>;

    closed spec fn view(&self) -> Seq<EntryModel> {
        entry_models(self.entries@)
    }
}

impl LineIndex {
    #[verifier::type_invariant]
    spec fn inv(&self) -> bool {
        &&& well_formed(entry_models(self.entries@))
        &&& places_agree(self.places@, self.entries@)
    }

    /// The index of no lines.
    pub fn new() -> (index: Self)
        ensures
            index@ == Seq::<EntryModel>::empty(),
    {
        let entries: Vec<IndexEntry> = Vec::new();
        assert(entry_models(entries@) =~= Seq::<EntryModel>::empty());
        LineIndex { entries, places: StringHashMap::new() }
    }

    /// The index of `lines`, which are numbered from 1 in the order given.
    pub fn build(lines: &Vec<String>) -> (index: Self)
        ensures
            index@ == index_of(texts(lines@)),
            well_formed(index@),
    {
        let ghost all = texts(lines@);
        let mut entries: Vec<IndexEntry> = Vec::new();
        let mut places: StringHashMap<usize> = StringHashMap::new();
        let mut i: usize = 0;
        assert(entry_models(entries@) =~= index_of(all.take(0)));
        while i < lines.len()
            invariant
                i <= lines.len(),
                all == texts(lines@),
                entry_models(entries@) == index_of(all.take(i as int)),
                places_agree(places@, entries@),
            decreases lines.len() - i,
        {
            let line = &lines[i];
            let position: usize = i + 1;
            let ghost seen = all.take(i as int);
            let ghost before = entry_models(entries@);
            let ghost old_entries = entries@;
            assert(all.take(i + 1) =~= seen.push(line@));
            match places.get(line.as_str()) {
                Some(place) => {
                    let at: usize = *place;
                    entries[at].positions.push(position);
                    proof {
                        let gained = EntryModel {
                            line: line@,
                            positions: before[at as int].positions.push(position as int),
                        };
                        lemma_index_of_seen_line(seen, at as int);
                        assert forall|m: int| 0 <= m < before.len() implies entry_models(
                            entries@,
                        )[m] =~~= before.update(at as int, gained)[m] && entries@[m].line
                            == old_entries[m].line by {
                            assert(before[m] == old_entries[m]@);
                            if m == at {
                                assert(entries@[m].positions@ == old_entries[m].positions@.push(
                                    position,
                                ));
                                assert(entries@[m]@.positions =~= gained.positions);
                            } else {
                                assert(entries@[m] == old_entries[m]);
                            }
                        }
                        assert(entry_models(entries@) =~= before.update(at as int, gained));
                    }
                },
                None => {
                    let mut positions: Vec<usize> = Vec::new();
                    positions.push(position);
                    places.insert(line.clone(), entries.len());
                    entries.push(IndexEntry { line: line.clone(), positions });
                    proof {
                        let added = EntryModel { line: line@, positions: seq![position as int] };
                        assert forall|j: int| 0 <= j < before.len() implies before[j].line
                            != line@ by {
                            assert(before[j] == old_entries[j]@);
                        }
                        lemma_index_of_positions(seen, line@);
                        lemma_index_of_new_line(seen, line@);
                        assert forall|m: int| 0 <= m <= before.len() implies entry_models(
                            entries@,
                        )[m] =~~= before.push(added)[m] by {
                            if m < before.len() {
                                assert(before[m] == entries@[m]@);
                            } else {
                                assert(entries@[m]@.positions =~= added.positions);
                            }
                        }
                        assert(entry_models(entries@) =~= before.push(added));
                    }
                },
            }
            i += 1;
        }
        proof {
            assert(all.take(lines.len() as int) =~= all);
            lemma_index_of_well_formed(all);
        }
        LineIndex { entries, places }
    }

    /// The number of distinct lines.
    pub fn len(&self) -> (n: usize)
        ensures
            n == self@.len(),
    {
        self.entries.len()
    }

    /// Whether the index holds no line.
    pub fn is_empty(&self) -> (empty: bool)
        ensures
            empty == (self@.len() == 0),
    {
        self.entries.len() == 0
    }

    /// The entries, in the order in which their lines first appeared.
    pub fn entries(&self) -> (entries: &Vec<IndexEntry>)
        ensures
            entry_models(entries@) == self@,
            well_formed(self@),
    {
        proof {
            use_type_invariant(self);
        }
        &self.entries
    }

    /// The positions at which `key` stands, if the index holds it.
    pub fn positions(&self, key: &str) -> (found: Option<&Vec<usize>>)
        ensures
            match found {
                Some(positions) => positions_of(self@, key@) == Some(position_values(positions@)),
                None => positions_of(self@, key@) is None,
            },
    {
        proof {
            use_type_invariant(self);
        }
        match self.places.get(key) {
            Some(place) => {
                let at: usize = *place;
                assert(self@[at as int].line == key@);
                Some(&self.entries[at].positions)
            },
            None => {
                assert forall|i: int| 0 <= i < self@.len() implies self@[i].line != key@ by {
                    assert(self@[i] == self.entries@[i]@);
                }
                None
            },
        }
    }
}

} // verus!
