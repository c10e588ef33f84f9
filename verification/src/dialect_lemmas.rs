//! What holds of normalisation, whatever the raw line.

use vstd::prelude::*;
use crate::dialect::{after_last, last_index_of, normalized, ShellDialect};

verus! {

/// `last_index_of` is the greatest offset at which `sep` stands, and -1
/// exactly where `sep` stands nowhere.
pub proof fn lemma_last_index_of(s: Seq<char>, sep: char)
    ensures
        -1 <= last_index_of(s, sep) < s.len(),
        last_index_of(s, sep) >= 0 ==> s[last_index_of(s, sep)] == sep,
        forall|j: int| last_index_of(s, sep) < j < s.len() ==> s[j] != sep,
        last_index_of(s, sep) >= 0 <==> s.contains(sep),
    decreases s.len(),
{
    if s.len() > 0 {
        lemma_last_index_of(s.drop_last(), sep);
        if s.last() != sep {
            let r = last_index_of(s.drop_last(), sep);
            assert forall|j: int| r < j < s.len() implies s[j] != sep by {
                if j < s.len() - 1 {
                    assert(s.drop_last()[j] == s[j]);
                }
            }
            if r >= 0 {
                assert(s.drop_last()[r] == s[r]);
            }
        }
    }
    let r = last_index_of(s, sep);
    if r >= 0 {
        assert(s[r] == sep);
    }
    if s.contains(sep) {
        let j = choose|j: int| 0 <= j < s.len() && s[j] == sep;
        assert(j <= r);
    }
}

/// An offset at which `sep` stands, with no `sep` behind it, is the last.
pub proof fn lemma_last_index_of_unique(s: Seq<char>, sep: char, at: int)
    requires
        0 <= at < s.len(),
        s[at] == sep,
        forall|j: int| at < j < s.len() ==> s[j] != sep,
    ensures
        last_index_of(s, sep) == at,
{
    lemma_last_index_of(s, sep);
}

/// What stands behind the last `sep` holds no `sep`.
pub proof fn lemma_after_last_has_no_sep(s: Seq<char>, sep: char)
    requires
        s.contains(sep),
    ensures
        !after_last(s, sep).contains(sep),
{
    lemma_last_index_of(s, sep);
    let tail = after_last(s, sep);
    let r = last_index_of(s, sep);
    assert forall|j: int| 0 <= j < tail.len() implies tail[j] != sep by {
        assert(tail[j] == s[r + 1 + j]);
    }
}

/// A text that holds `sep` is what stands before its last `sep`, that `sep`,
/// and what stands behind it; a text that holds none is all behind.
pub proof fn lemma_after_last_splits(s: Seq<char>, sep: char)
    ensures
        s.contains(sep) ==> s == s.take(last_index_of(s, sep)) + seq![sep] + after_last(s, sep),
        !s.contains(sep) ==> after_last(s, sep) == s,
{
    lemma_last_index_of(s, sep);
    if s.contains(sep) {
        assert(s =~= s.take(last_index_of(s, sep)) + seq![sep] + after_last(s, sep));
    } else {
        assert(after_last(s, sep) =~= s);
    }
}

/// Under the generic dialect, to normalise twice is to normalise once.
pub proof fn lemma_generic_normalize_idempotent(raw: Seq<char>)
    ensures
        normalized(normalized(raw, ShellDialect::Generic), ShellDialect::Generic) == normalized(
            raw,
            ShellDialect::Generic,
        ),
{
}

/// Under the extended dialect a normalised line holds no `;`, so to
/// normalise it again gives the empty line. To normalise twice is then to
/// normalise once exactly where once gives the empty line, as it does for
/// every raw line without a `;`.
pub proof fn lemma_zsh_normalize_twice(raw: Seq<char>)
    ensures
        !normalized(raw, ShellDialect::ZshExtended).contains(';'),
        normalized(normalized(raw, ShellDialect::ZshExtended), ShellDialect::ZshExtended)
            == Seq::<char>::empty(),
        normalized(normalized(raw, ShellDialect::ZshExtended), ShellDialect::ZshExtended)
            == normalized(raw, ShellDialect::ZshExtended) <==> normalized(
            raw,
            ShellDialect::ZshExtended,
        ).len() == 0,
        !raw.contains(';') ==> normalized(
            normalized(raw, ShellDialect::ZshExtended),
            ShellDialect::ZshExtended,
        ) == normalized(raw, ShellDialect::ZshExtended),
{
    let once = normalized(raw, ShellDialect::ZshExtended);
    if raw.contains(';') {
        lemma_after_last_has_no_sep(raw, ';');
    }
    if once.len() == 0 {
        assert(once =~= Seq::<char>::empty());
    }
}

} // verus!
