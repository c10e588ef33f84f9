//! What holds of the index of any list of lines.

use vstd::prelude::*;
use crate::index::{
    ascending_positions, distinct, index_of, occurrences, positions_of, total_positions,
    well_formed, EntryModel,
};

verus! {

/// `occurrences` lists exactly the positions at which `key` stands, in
/// ascending order.
pub proof fn lemma_occurrences(lines: Seq<Seq<char>>, key: Seq<char>)
    ensures
        forall|a: int|
            0 <= a < occurrences(lines, key).len() ==> 1 <= #[trigger] occurrences(lines, key)[a]
                <= lines.len() && lines[occurrences(lines, key)[a] - 1] == key,
        forall|a: int, b: int|
            0 <= a < b < occurrences(lines, key).len() ==> occurrences(lines, key)[a]
                < occurrences(lines, key)[b],
        forall|i: int|
            0 <= i < lines.len() && #[trigger] lines[i] == key ==> occurrences(lines, key).contains(
                i + 1,
            ),
        lines.contains(key) <==> occurrences(lines, key).len() > 0,
    decreases lines.len(),
{
    let here = occurrences(lines, key);
    if lines.len() > 0 {
        let front = lines.drop_last();
        let earlier = occurrences(front, key);
        lemma_occurrences(front, key);
        assert forall|a: int| 0 <= a < here.len() implies 1 <= #[trigger] here[a] <= lines.len()
            && lines[here[a] - 1] == key by {
            if a < earlier.len() {
                assert(here[a] == earlier[a]);
                assert(front[earlier[a] - 1] == lines[earlier[a] - 1]);
            }
        }
        assert forall|a: int, b: int| 0 <= a < b < here.len() implies here[a] < here[b] by {
            assert(here[a] == earlier[a]);
            if b < earlier.len() {
                assert(here[b] == earlier[b]);
            }
        }
        assert forall|i: int|
            0 <= i < lines.len() && #[trigger] lines[i] == key implies here.contains(i + 1) by {
            if i < lines.len() - 1 {
                assert(front[i] == key);
                let a = choose|a: int| 0 <= a < earlier.len() && earlier[a] == i + 1;
                assert(here[a] == i + 1);
            } else {
                assert(here[here.len() - 1] == i + 1);
            }
        }
        if lines.contains(key) {
            let i = choose|i: int| 0 <= i < lines.len() && lines[i] == key;
            assert(here.contains(i + 1));
        }
        if here.len() > 0 {
            assert(lines[here[0] - 1] == key);
        }
    }
}

/// `distinct` holds the lines of `lines`, and each of them once.
pub proof fn lemma_distinct(lines: Seq<Seq<char>>)
    ensures
        forall|key: Seq<char>|
            #![trigger distinct(lines).contains(key)]
            #![trigger lines.contains(key)]
            distinct(lines).contains(key) <==> lines.contains(key),
        forall|i: int, j: int|
            0 <= i < j < distinct(lines).len() ==> distinct(lines)[i] != distinct(lines)[j],
    decreases lines.len(),
{
    let here = distinct(lines);
    if lines.len() > 0 {
        let front = lines.drop_last();
        let earlier = distinct(front);
        let last = lines.last();
        lemma_distinct(front);
        assert forall|key: Seq<char>| here.contains(key) <==> lines.contains(key) by {
            if here.contains(key) {
                let i = choose|i: int| 0 <= i < here.len() && here[i] == key;
                if i < earlier.len() {
                    assert(earlier[i] == key);
                    assert(earlier.contains(key));
                    let j = choose|j: int| 0 <= j < front.len() && front[j] == key;
                    assert(lines[j] == key);
                } else {
                    assert(lines[lines.len() - 1] == key);
                }
            }
            if lines.contains(key) {
                let j = choose|j: int| 0 <= j < lines.len() && lines[j] == key;
                if j < front.len() {
                    assert(front[j] == key);
                    assert(earlier.contains(key));
                    let i = choose|i: int| 0 <= i < earlier.len() && earlier[i] == key;
                    assert(here[i] == key);
                } else if front.contains(last) {
                    assert(earlier.contains(key));
                } else {
                    assert(here[here.len() - 1] == key);
                }
            }
        }
        assert forall|i: int, j: int| 0 <= i < j < here.len() implies here[i] != here[j] by {
            assert(here[i] == earlier[i]);
            if j < earlier.len() {
                assert(here[j] == earlier[j]);
            } else {
                assert(earlier.contains(earlier[i]));
            }
        }
    }
}

/// The index of any list of lines is well formed.
pub proof fn lemma_index_of_well_formed(lines: Seq<Seq<char>>)
    ensures
        well_formed(index_of(lines)),
{
    let entries = index_of(lines);
    lemma_distinct(lines);
    assert forall|i: int| 0 <= i < entries.len() implies ascending_positions(
        #[trigger] entries[i].positions,
    ) by {
        let key = distinct(lines)[i];
        assert(distinct(lines).contains(key));
        lemma_occurrences(lines, key);
    }
}

/// The index holds a line exactly where the lines hold it, and then with
/// all its occurrences.
pub proof fn lemma_index_of_positions(lines: Seq<Seq<char>>, key: Seq<char>)
    ensures
        positions_of(index_of(lines), key) == if lines.contains(key) {
            Some(occurrences(lines, key))
        } else {
            None
        },
{
    let entries = index_of(lines);
    lemma_distinct(lines);
    if lines.contains(key) {
        assert(distinct(lines).contains(key));
        let i = choose|i: int| 0 <= i < distinct(lines).len() && distinct(lines)[i] == key;
        assert(entries[i].line == key);
    }
}

/// Each line is recorded under its text: the index holds the line, and the
/// positions it holds for it include the line's own. Lines with the same
/// text so share one entry.
pub proof fn lemma_every_line_is_indexed(lines: Seq<Seq<char>>, i: int)
    requires
        0 <= i < lines.len(),
    ensures
        positions_of(index_of(lines), lines[i]) == Some(occurrences(lines, lines[i])),
        occurrences(lines, lines[i]).contains(i + 1),
{
    assert(lines.contains(lines[i]));
    lemma_index_of_positions(lines, lines[i]);
    lemma_occurrences(lines, lines[i]);
}

/// One more line, of a text that the entry at `at` holds already: that
/// entry gains the new position, and nothing else changes.
pub proof fn lemma_index_of_seen_line(lines: Seq<Seq<char>>, at: int)
    requires
        0 <= at < index_of(lines).len(),
    ensures
        index_of(lines.push(index_of(lines)[at].line)) == index_of(lines).update(
            at,
            EntryModel {
                line: index_of(lines)[at].line,
                positions: index_of(lines)[at].positions.push(lines.len() as int + 1),
            },
        ),
{
    let before = index_of(lines);
    let line = before[at].line;
    let after = index_of(lines.push(line));
    let gained = EntryModel { line, positions: before[at].positions.push(lines.len() as int + 1) };
    lemma_distinct(lines);
    assert(lines.push(line).drop_last() =~= lines);
    assert(distinct(lines).contains(distinct(lines)[at]));
    assert forall|m: int| 0 <= m < after.len() implies after[m] == before.update(at, gained)[m] by {
        if m != at {
            assert(distinct(lines)[m] != line);
        }
    }
    assert(after =~= before.update(at, gained));
}

/// One more line, of a text not seen before: the index gains an entry at
/// its end, with the new position alone.
pub proof fn lemma_index_of_new_line(lines: Seq<Seq<char>>, line: Seq<char>)
    requires
        !lines.contains(line),
    ensures
        index_of(lines.push(line)) == index_of(lines).push(
            EntryModel { line, positions: seq![lines.len() as int + 1] },
        ),
{
    let before = index_of(lines);
    let after = index_of(lines.push(line));
    let added = EntryModel { line, positions: seq![lines.len() as int + 1] };
    lemma_distinct(lines);
    lemma_occurrences(lines, line);
    assert(lines.push(line).drop_last() =~= lines);
    assert(occurrences(lines, line).push(lines.len() as int + 1) =~= added.positions);
    assert forall|m: int| 0 <= m < after.len() implies after[m] == before.push(added)[m] by {
        if m < before.len() {
            assert(distinct(lines).contains(distinct(lines)[m]));
        }
    }
    assert(after =~= before.push(added));
}

/// The entries stand in the order in which their lines first appear: each
/// has its first position before that of the next.
pub proof fn lemma_index_of_order(lines: Seq<Seq<char>>)
    ensures
        forall|i: int, j: int|
            0 <= i < j < index_of(lines).len() ==> index_of(lines)[i].positions[0] < index_of(
                lines,
            )[j].positions[0],
    decreases lines.len(),
{
    let after = index_of(lines);
    if lines.len() > 0 {
        let front = lines.drop_last();
        let line = lines.last();
        let before = index_of(front);
        lemma_index_of_order(front);
        lemma_index_of_well_formed(front);
        lemma_index_of_positions(front, line);
        assert(front.push(line) =~= lines);
        if front.contains(line) {
            let at = choose|at: int| 0 <= at < before.len() && before[at].line == line;
            lemma_index_of_seen_line(front, at);
            assert forall|i: int| 0 <= i < after.len() implies after[i].positions[0]
                == before[i].positions[0] by {}
        } else {
            lemma_index_of_new_line(front, line);
            assert forall|i: int, j: int| 0 <= i < j < after.len() implies after[i].positions[0]
                < after[j].positions[0] by {
                assert(after[i] == before[i]);
                if j < before.len() {
                    assert(after[j] == before[j]);
                } else {
                    lemma_occurrences(front, before[i].line);
                    assert(before[i].positions == occurrences(front, before[i].line));
                }
            }
        }
    }
}

proof fn lemma_total_positions_update(entries: Seq<EntryModel>, at: int, entry: EntryModel)
    requires
        0 <= at < entries.len(),
    ensures
        total_positions(entries.update(at, entry)) == total_positions(entries)
            - entries[at].positions.len() + entry.positions.len(),
    decreases entries.len(),
{
    let updated = entries.update(at, entry);
    if at == entries.len() - 1 {
        assert(updated.drop_last() =~= entries.drop_last());
    } else {
        assert(updated.drop_last() =~= entries.drop_last().update(at, entry));
        lemma_total_positions_update(entries.drop_last(), at, entry);
    }
}

/// The index holds one position for each line: as many positions, all
/// together, as there are lines.
pub proof fn lemma_index_of_total_positions(lines: Seq<Seq<char>>)
    ensures
        total_positions(index_of(lines)) == lines.len(),
    decreases lines.len(),
{
    if lines.len() > 0 {
        let front = lines.drop_last();
        let line = lines.last();
        let before = index_of(front);
        lemma_index_of_total_positions(front);
        lemma_index_of_positions(front, line);
        assert(front.push(line) =~= lines);
        if front.contains(line) {
            let at = choose|at: int| 0 <= at < before.len() && before[at].line == line;
            lemma_index_of_seen_line(front, at);
            lemma_total_positions_update(
                before,
                at,
                EntryModel { line, positions: before[at].positions.push(front.len() as int + 1) },
            );
        } else {
            lemma_index_of_new_line(front, line);
            assert(index_of(lines).drop_last() =~= before);
        }
    }
}

} // verus!
