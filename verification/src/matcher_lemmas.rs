//! What holds of the two matching strategies, whatever the line and the terms.

use vstd::prelude::*;
use crate::matcher::{ordered_matches, ordered_matches_from, unordered_matches};
use crate::text::{
    first_occurrence, first_occurrence_from, lemma_first_occurrence_from,
    lemma_first_occurrence_unique, occurs, occurs_at, occurs_from, remove_span,
};

verus! {

/// `tail` is what stands at the end of `whole`.
pub open spec fn is_suffix(tail: Seq<char>, whole: Seq<char>) -> bool {
    &&& tail.len() <= whole.len()
    &&& whole.skip(whole.len() - tail.len()) =~= tail
}

/// An empty list of terms matches every line, under both strategies.
pub proof fn lemma_no_terms_match(line: Seq<char>)
    ensures
        ordered_matches(line, Seq::<Seq<char>>::empty()),
        unordered_matches(line, Seq::<Seq<char>>::empty()),
{
}

/// Where the ordered strategy, with its cursor at `cursor`, finds all the
/// terms in `line`, the unordered strategy finds them in any text that ends
/// with what `line` holds from the cursor on.
proof fn lemma_ordered_from_implies_unordered(
    line: Seq<char>,
    terms: Seq<Seq<char>>,
    cursor: int,
    left: Seq<char>,
)
    requires
        0 <= cursor <= line.len(),
        is_suffix(line.skip(cursor), left),
        ordered_matches_from(line, terms, cursor),
    ensures
        unordered_matches(left, terms),
    decreases terms.len(),
{
    if terms.len() > 0 {
        let term = terms.first();
        lemma_first_occurrence_from(line, term, cursor);
        let at = first_occurrence_from(line, term, cursor);
        let extra = left.len() - (line.len() - cursor);
        let there = extra + (at - cursor);
        assert(occurs_at(left, term, there)) by {
            assert forall|k: int| 0 <= k < term.len() implies left[there + k] == term[k] by {
                assert(left.skip(extra)[at - cursor + k] == line.skip(cursor)[at - cursor + k]);
                assert(line.subrange(at, at + term.len())[k] == term[k]);
            }
            assert(left.subrange(there, there + term.len()) =~= term);
        }
        assert(occurs(left, term));
        lemma_first_occurrence_from(left, term, 0);
        let cut = first_occurrence(left, term);
        assert(cut <= there);
        let rest = remove_span(left, cut, term.len() as int);
        let next = at + term.len();
        assert(is_suffix(line.skip(next), rest)) by {
            let tail = line.skip(next);
            let shift = rest.len() - tail.len();
            assert(shift == there);
            assert forall|k: int| 0 <= k < tail.len() implies rest.skip(shift)[k] == tail[k] by {
                assert(rest[shift + k] == left[shift + k + term.len()]);
                assert(left.skip(extra)[next - cursor + k] == line.skip(cursor)[next - cursor + k]);
            }
        }
        lemma_ordered_from_implies_unordered(line, terms.drop_first(), next, rest);
    }
}

/// Whatever the ordered strategy matches, the unordered strategy matches
/// too: the ordered one asks for more.
pub proof fn lemma_ordered_implies_unordered(line: Seq<char>, terms: Seq<Seq<char>>)
    requires
        ordered_matches(line, terms),
    ensures
        unordered_matches(line, terms),
{
    assert(line.skip(0) =~= line);
    lemma_ordered_from_implies_unordered(line, terms, 0, line);
}

/// The unordered strategy matches more than the ordered one: there is a
/// line, `ba`, that it matches against terms, `a` and then `b`, against
/// which the ordered strategy does not.
pub proof fn lemma_unordered_matches_more()
    ensures
        exists|line: Seq<char>, terms: Seq<Seq<char>>|
            unordered_matches(line, terms) && !ordered_matches(line, terms),
{
    let line = seq!['b', 'a'];
    let a = seq!['a'];
    let b = seq!['b'];
    let terms = seq![a, b];
    assert(terms.first() == a);
    assert(terms.drop_first() =~= seq![b]);
    assert(occurs_at(line, a, 1)) by {
        assert(line.subrange(1, 2) =~= a);
    }
    assert(!occurs_at(line, a, 0)) by {
        assert(line.subrange(0, 1)[0] != a[0]);
    }
    lemma_first_occurrence_unique(line, a, 0, 1);
    assert(unordered_matches(line, terms)) by {
        let rest = remove_span(line, 1, 1);
        assert(rest =~= b);
        assert(occurs_at(rest, b, 0)) by {
            assert(rest.subrange(0, 1) =~= b);
        }
        lemma_single_term(rest, b);
    }
    assert(!ordered_matches(line, terms)) by {
        assert forall|at: int| 2 <= at implies !occurs_at(line, b, at) by {}
        assert(!occurs_from(line, b, 2));
        reveal_with_fuel(ordered_matches_from, 2);
    }
}

/// The lengths of `terms`, all together.
pub open spec fn total_len(terms: Seq<Seq<char>>) -> nat
    decreases terms.len(),
{
    if terms.len() == 0 {
        0
    } else {
        terms.first().len() + total_len(terms.drop_first())
    }
}

proof fn lemma_unordered_terms_fit(line: Seq<char>, terms: Seq<Seq<char>>)
    requires
        unordered_matches(line, terms),
    ensures
        total_len(terms) <= line.len(),
    decreases terms.len(),
{
    if terms.len() > 0 {
        let term = terms.first();
        lemma_first_occurrence_from(line, term, 0);
        lemma_unordered_terms_fit(
            remove_span(line, first_occurrence(line, term), term.len() as int),
            terms.drop_first(),
        );
    }
}

/// Terms that match a line, under either strategy, are together no longer
/// than the line: no stretch of it serves two of them.
pub proof fn lemma_matched_terms_fit(line: Seq<char>, terms: Seq<Seq<char>>)
    ensures
        unordered_matches(line, terms) ==> total_len(terms) <= line.len(),
        ordered_matches(line, terms) ==> total_len(terms) <= line.len(),
{
    if ordered_matches(line, terms) {
        lemma_ordered_implies_unordered(line, terms);
    }
    if unordered_matches(line, terms) {
        lemma_unordered_terms_fit(line, terms);
    }
}

/// One term alone matches, under either strategy, exactly where it is not
/// empty and occurs in the line.
pub proof fn lemma_single_term(line: Seq<char>, term: Seq<char>)
    ensures
        ordered_matches(line, seq![term]) <==> term.len() > 0 && occurs(line, term),
        unordered_matches(line, seq![term]) <==> term.len() > 0 && occurs(line, term),
{
    let terms = seq![term];
    assert(terms.first() == term);
    assert(terms.drop_first().len() == 0);
    reveal_with_fuel(ordered_matches_from, 2);
    reveal_with_fuel(unordered_matches, 2);
}

/// A list of terms that holds an empty term matches no line, under either
/// strategy.
pub proof fn lemma_empty_term_never_matches(line: Seq<char>, terms: Seq<Seq<char>>, i: int)
    requires
        0 <= i < terms.len(),
        terms[i].len() == 0,
    ensures
        !ordered_matches(line, terms),
        !unordered_matches(line, terms),
{
    lemma_empty_term_stops_ordered(line, terms, 0, i);
    lemma_empty_term_stops_unordered(line, terms, i);
}

proof fn lemma_empty_term_stops_ordered(line: Seq<char>, terms: Seq<Seq<char>>, cursor: int, i: int)
    requires
        0 <= i < terms.len(),
        terms[i].len() == 0,
    ensures
        !ordered_matches_from(line, terms, cursor),
    decreases i,
{
    if i > 0 {
        let term = terms.first();
        lemma_empty_term_stops_ordered(
            line,
            terms.drop_first(),
            first_occurrence_from(line, term, cursor) + term.len(),
            i - 1,
        );
    }
}

proof fn lemma_empty_term_stops_unordered(line: Seq<char>, terms: Seq<Seq<char>>, i: int)
    requires
        0 <= i < terms.len(),
        terms[i].len() == 0,
    ensures
        !unordered_matches(line, terms),
    decreases i,
{
    if i > 0 {
        let term = terms.first();
        lemma_empty_term_stops_unordered(
            remove_span(line, first_occurrence(line, term), term.len() as int),
            terms.drop_first(),
            i - 1,
        );
    }
}

/// The empty line is matched by the empty list of terms and by no other,
/// under either strategy.
pub proof fn lemma_empty_line_matches_only_no_terms(terms: Seq<Seq<char>>)
    ensures
        ordered_matches(Seq::<char>::empty(), terms) <==> terms.len() == 0,
        unordered_matches(Seq::<char>::empty(), terms) <==> terms.len() == 0,
{
    let line = Seq::<char>::empty();
    if terms.len() > 0 {
        let term = terms.first();
        if term.len() > 0 {
            assert forall|at: int| !occurs_at(line, term, at) by {}
            assert(!occurs_from(line, term, 0));
        }
    }
}

/// `places` gives each term an occurrence in `line`: none of them starts
/// before `start`, and each starts where the one before it has ended, or later.
pub open spec fn is_embedding_from(
    line: Seq<char>,
    terms: Seq<Seq<char>>,
    start: int,
    places: Seq<int>,
) -> bool {
    &&& places.len() == terms.len()
    &&& forall|i: int|
        0 <= i < terms.len() ==> (#[trigger] terms[i]).len() > 0 && occurs_at(
            line,
            terms[i],
            places[i],
        )
    &&& terms.len() > 0 ==> start <= places[0]
    &&& forall|i: int|
        0 <= i < terms.len() - 1 ==> places[i] + (#[trigger] terms[i]).len() <= places[i + 1]
}

proof fn lemma_ordered_gives_embedding(
    line: Seq<char>,
    terms: Seq<Seq<char>>,
    cursor: int,
) -> (places: Seq<int>)
    requires
        ordered_matches_from(line, terms, cursor),
    ensures
        is_embedding_from(line, terms, cursor, places),
    decreases terms.len(),
{
    if terms.len() == 0 {
        Seq::empty()
    } else {
        let term = terms.first();
        lemma_first_occurrence_from(line, term, cursor);
        let at = first_occurrence_from(line, term, cursor);
        let later = lemma_ordered_gives_embedding(line, terms.drop_first(), at + term.len());
        let places = seq![at] + later;
        assert forall|i: int| 0 <= i < terms.len() implies (#[trigger] terms[i]).len() > 0
            && occurs_at(line, terms[i], places[i]) by {
            if i > 0 {
                assert(terms[i] == terms.drop_first()[i - 1]);
                assert(places[i] == later[i - 1]);
            }
        }
        assert forall|i: int| 0 <= i < terms.len() - 1 implies places[i] + (
        #[trigger] terms[i]).len() <= places[i + 1] by {
            assert(places[i + 1] == later[i]);
            if i > 0 {
                assert(terms[i] == terms.drop_first()[i - 1]);
                assert(places[i] == later[i - 1]);
            }
        }
        places
    }
}

proof fn lemma_embedding_gives_ordered(
    line: Seq<char>,
    terms: Seq<Seq<char>>,
    cursor: int,
    places: Seq<int>,
)
    requires
        is_embedding_from(line, terms, cursor, places),
    ensures
        ordered_matches_from(line, terms, cursor),
    decreases terms.len(),
{
    if terms.len() > 0 {
        let term = terms.first();
        assert(term == terms[0]);
        assert(occurs_at(line, term, places[0]));
        assert(occurs_from(line, term, cursor));
        lemma_first_occurrence_from(line, term, cursor);
        let at = first_occurrence_from(line, term, cursor);
        assert(at <= places[0]);
        let rest = terms.drop_first();
        let later = places.drop_first();
        assert(is_embedding_from(line, rest, at + term.len(), later)) by {
            assert forall|i: int| 0 <= i < rest.len() implies (#[trigger] rest[i]).len() > 0
                && occurs_at(line, rest[i], later[i]) by {
                assert(rest[i] == terms[i + 1]);
            }
            assert forall|i: int| 0 <= i < rest.len() - 1 implies later[i] + (
            #[trigger] rest[i]).len() <= later[i + 1] by {
                assert(rest[i] == terms[i + 1]);
            }
        }
        lemma_embedding_gives_ordered(line, rest, at + term.len(), later);
    }
}

/// The ordered strategy matches exactly where the terms, none of them empty,
/// can be laid into the line in the order given and without overlap. To take
/// each term where it first fits loses nothing.
pub proof fn lemma_ordered_matches_iff_embedding(line: Seq<char>, terms: Seq<Seq<char>>)
    ensures
        ordered_matches(line, terms) <==> exists|places: Seq<int>|
            is_embedding_from(line, terms, 0, places),
{
    if ordered_matches(line, terms) {
        let places = lemma_ordered_gives_embedding(line, terms, 0);
        assert(is_embedding_from(line, terms, 0, places));
    }
    if exists|places: Seq<int>| is_embedding_from(line, terms, 0, places) {
        let places = choose|places: Seq<int>| is_embedding_from(line, terms, 0, places);
        lemma_embedding_gives_ordered(line, terms, 0, places);
    }
}

} // verus!
