//! Character sequences and substring search.
//!
//! Text is modelled as `Seq<char>`, the view of `str` and `String`. The
//! executable search works on `Vec<char>`, whose view is the same sequence.

use vstd::prelude::*;

verus! {

/// `needle` stands in `hay` at offset `at`.
pub open spec fn occurs_at(hay: Seq<char>, needle: Seq<char>, at: int) -> bool {
    &&& 0 <= at
    &&& at + needle.len() <= hay.len()
    &&& hay.subrange(at, at + needle.len()) =~= needle
}

/// `needle` stands in `hay` at some offset that is at least `start`.
pub open spec fn occurs_from(hay: Seq<char>, needle: Seq<char>, start: int) -> bool {
    exists|at: int| start <= at && occurs_at(hay, needle, at)
}

/// `needle` is a substring of `hay`.
pub open spec fn occurs(hay: Seq<char>, needle: Seq<char>) -> bool {
    occurs_from(hay, needle, 0)
}

/// `at` is the least offset, not below `start`, at which `needle` stands in `hay`.
pub open spec fn is_first_occurrence_from(
    hay: Seq<char>,
    needle: Seq<char>,
    start: int,
    at: int,
) -> bool {
    &&& start <= at
    &&& occurs_at(hay, needle, at)
    &&& forall|earlier: int| start <= earlier < at ==> !occurs_at(hay, needle, earlier)
}

/// The least offset, not below `start`, at which `needle` stands in `hay`.
/// Meaningful where `occurs_from(hay, needle, start)` holds.
pub open spec fn first_occurrence_from(hay: Seq<char>, needle: Seq<char>, start: int) -> int {
    choose|at: int| is_first_occurrence_from(hay, needle, start, at)
}

/// The offset of the first occurrence of `needle` in `hay`.
/// Meaningful where `occurs(hay, needle)` holds.
pub open spec fn first_occurrence(hay: Seq<char>, needle: Seq<char>) -> int {
    first_occurrence_from(hay, needle, 0)
}

/// `s` without the `len` elements that start at offset `at`.
pub open spec fn remove_span(s: Seq<char>, at: int, len: int) -> Seq<char> {
    s.subrange(0, at) + s.subrange(at + len, s.len() as int)
}

/// The view of each string of `items`, in order.
pub open spec fn texts(items: Seq<String>) -> Seq<Seq<char>> {
    Seq::new(items.len(), |i: int| items[i]@)
}

/// The view of each character vector of `items`, in order.
pub open spec fn char_texts(items: Seq<Vec<char>>) -> Seq<Seq<char>> {
    Seq::new(items.len(), |i: int| items[i]@)
}

proof fn lemma_least_occurrence(hay: Seq<char>, needle: Seq<char>, start: int, bound: int)
    requires
        start <= bound,
        occurs_at(hay, needle, bound),
    ensures
        exists|at: int| is_first_occurrence_from(hay, needle, start, at),
    decreases bound - start,
{
    if exists|j: int| start <= j < bound && occurs_at(hay, needle, j) {
        let j = choose|j: int| start <= j < bound && occurs_at(hay, needle, j);
        lemma_least_occurrence(hay, needle, start, j);
    } else {
        assert(is_first_occurrence_from(hay, needle, start, bound));
    }
}

/// Where `needle` occurs at or after `start`, `first_occurrence_from` is the
/// least such offset.
pub proof fn lemma_first_occurrence_from(hay: Seq<char>, needle: Seq<char>, start: int)
    requires
        occurs_from(hay, needle, start),
    ensures
        is_first_occurrence_from(hay, needle, start, first_occurrence_from(hay, needle, start)),
{
    let bound = choose|at: int| start <= at && occurs_at(hay, needle, at);
    lemma_least_occurrence(hay, needle, start, bound);
}

/// The least offset is unique: whatever offset is a first occurrence is
/// the value of `first_occurrence_from`.
pub proof fn lemma_first_occurrence_unique(hay: Seq<char>, needle: Seq<char>, start: int, at: int)
    requires
        is_first_occurrence_from(hay, needle, start, at),
    ensures
        occurs_from(hay, needle, start),
        first_occurrence_from(hay, needle, start) == at,
{
    let chosen = first_occurrence_from(hay, needle, start);
    assert(is_first_occurrence_from(hay, needle, start, chosen));
    if chosen < at {
        assert(!occurs_at(hay, needle, chosen));
    } else if at < chosen {
        assert(!occurs_at(hay, needle, at));
    }
}

/// The characters of `s`, in order.
pub fn to_chars(s: &str) -> (chars: Vec<char>)
    ensures
        chars@ == s@,
{
    let mut chars: Vec<char> = Vec::new();
    for c in it: s.chars()
        invariant
            it.seq() == s@,
            chars@ == it.seq().take(it.index()),
    {
        chars.push(c);
    }
    chars
}

/// The characters of each string of `items`, in order.
pub fn to_char_texts(items: &Vec<String>) -> (converted: Vec<Vec<char>>)
    ensures
        char_texts(converted@) == texts(items@),
{
    let mut converted: Vec<Vec<char>> = Vec::new();
    let mut i: usize = 0;
    while i < items.len()
        invariant
            i <= items.len(),
            converted@.len() == i,
            forall|k: int| 0 <= k < i ==> (#[trigger] converted@[k])@ == items@[k]@,
        decreases items.len() - i,
    {
        let chars = to_chars(items[i].as_str());
        converted.push(chars);
        i += 1;
    }
    assert(char_texts(converted@) =~= texts(items@));
    converted
}

/// Whether `needle` stands in `hay` at offset `at`.
pub fn matches_at(hay: &Vec<char>, needle: &Vec<char>, at: usize) -> (found: bool)
    ensures
        found == occurs_at(hay@, needle@, at as int),
{
    if needle.len() > hay.len() || at > hay.len() - needle.len() {
        return false;
    }
    let mut k: usize = 0;
    while k < needle.len()
        invariant
            k <= needle.len(),
            at + needle.len() <= hay.len(),
            forall|j: int| 0 <= j < k ==> hay@[at + j] == #[trigger] needle@[j],
        decreases needle.len() - k,
    {
        if hay[at + k] != needle[k] {
            assert(hay@.subrange(at as int, at + needle.len())[k as int] != needle@[k as int]);
            return false;
        }
        k += 1;
    }
    true
}

/// The first offset, not below `start`, at which `needle` stands in `hay`;
/// `None` where there is no such offset.
pub fn find_from(hay: &Vec<char>, needle: &Vec<char>, start: usize) -> (found: Option<usize>)
    ensures
        match found {
            Some(at) => is_first_occurrence_from(hay@, needle@, start as int, at as int),
            None => !occurs_from(hay@, needle@, start as int),
        },
{
    if needle.len() > hay.len() || start > hay.len() - needle.len() {
        return None;
    }
    let last: usize = hay.len() - needle.len();
    let mut at: usize = start;
    loop
        invariant
            start <= at <= last,
            last == hay.len() - needle.len(),
            forall|earlier: int| start <= earlier < at ==> !occurs_at(hay@, needle@, earlier),
        decreases last - at,
    {
        if matches_at(hay, needle, at) {
            return Some(at);
        }
        if at == last {
            return None;
        }
        at += 1;
    }
}

/// The first offset at which `needle` stands in `hay`, if it occurs at all.
pub fn find(hay: &Vec<char>, needle: &Vec<char>) -> (found: Option<usize>)
    ensures
        found is Some <==> occurs(hay@, needle@),
        found matches Some(at) ==> at == first_occurrence(hay@, needle@) && occurs_at(
            hay@,
            needle@,
            at as int,
        ),
{
    let found = find_from(hay, needle, 0);
    proof {
        if let Some(at) = found {
            lemma_first_occurrence_unique(hay@, needle@, 0, at as int);
        }
    }
    found
}

/// `s` without the `len` elements that start at offset `at`.
pub fn without_span(s: &Vec<char>, at: usize, len: usize) -> (rest: Vec<char>)
    requires
        at + len <= s.len(),
    ensures
        rest@ == remove_span(s@, at as int, len as int),
{
    let mut rest: Vec<char> = Vec::new();
    let mut i: usize = 0;
    while i < at
        invariant
            i <= at <= s.len(),
            rest@ == s@.subrange(0, i as int),
        decreases at - i,
    {
        rest.push(s[i]);
        i += 1;
    }
    let mut j: usize = at + len;
    while j < s.len()
        invariant
            at + len <= j <= s.len(),
            rest@ == s@.subrange(0, at as int) + s@.subrange(at + len, j as int),
        decreases s.len() - j,
    {
        rest.push(s[j]);
        j += 1;
    }
    rest
}

} // verus!
