//! What a run is set up from: the flags given, the shell found, the file
//! names seen, the choice made.
//!
//! Nothing here reads or asks: each function takes as plain values what was
//! read or answered, and decides.

use vstd::prelude::*;
use vstd::string::{StrSliceExecFns, StringExecFns};
use crate::query::MatchMode;
use crate::text::{find, occurs, texts, to_chars};

verus! {

/// Where the path of the file to search comes from.
#[derive(Clone, Copy, Debug, PartialEq, Eq, Structural)]
pub enum PathSource {
    /// The history file of the shell in use, in the home directory.
    ShellHistory,
    /// One of the history files of the home directory, picked from a list.
    Picked,
    /// A path typed in on request.
    Typed,
}

/// What the flags of an invocation ask for.
#[derive(Clone, Copy, Debug, PartialEq, Eq, Structural)]
pub struct Plan {
    /// Where the path of the file to search comes from.
    pub source: PathSource,
    /// The strategy to match lines by.
    pub mode: MatchMode,
}

/// What can go wrong while a run is set up or its file is read.
#[derive(Clone, Copy, Debug, PartialEq, Eq, Structural)]
pub enum Failure {
    /// A variable of the environment is not set.
    EnvironmentLookup,
    /// The shell in use could not be told.
    ShellDetection,
    /// The file, or a line of it, could not be read.
    FileRead,
    /// The list of files was left without a choice.
    SelectionCancelled,
}

/// The word by which a history file is known: `history`.
pub open spec fn history_word() -> Seq<char> {
    seq!['h', 'i', 's', 't', 'o', 'r', 'y']
}

/// The name of the history file of the shell called `shell`: a dot, the
/// shell's name, `_history`.
pub open spec fn history_file_name_of(shell: Seq<char>) -> Seq<char> {
    seq!['.'] + shell + seq!['_'] + history_word()
}

/// `s` without the run of `c` at its end.
pub open spec fn without_trailing(s: Seq<char>, c: char) -> Seq<char>
    decreases s.len(),
{
    if s.len() > 0 && s.last() == c {
        without_trailing(s.drop_last(), c)
    } else {
        s
    }
}

/// The lines of `lines` that were read, in order.
pub open spec fn lines_read_of(lines: Seq<Option<String>>) -> Seq<Seq<char>>
    decreases lines.len(),
{
    if lines.len() == 0 {
        Seq::empty()
    } else {
        let earlier = lines_read_of(lines.drop_last());
        match lines.last() {
            Some(line) => earlier.push(line@),
            None => earlier,
        }
    }
}

/// What `s` is left with is `s` up to the last element that is not `c`.
pub proof fn lemma_without_trailing(s: Seq<char>, c: char)
    ensures
        without_trailing(s, c).len() <= s.len(),
        without_trailing(s, c) == s.take(without_trailing(s, c).len() as int),
        without_trailing(s, c).len() > 0 ==> without_trailing(s, c).last() != c,
        forall|i: int| without_trailing(s, c).len() <= i < s.len() ==> s[i] == c,
    decreases s.len(),
{
    if s.len() > 0 && s.last() == c {
        let front = s.drop_last();
        lemma_without_trailing(front, c);
        let kept = without_trailing(front, c);
        assert(front.take(kept.len() as int) =~= s.take(kept.len() as int));
        assert forall|i: int| kept.len() <= i < s.len() implies s[i] == c by {
            if i < front.len() {
                assert(front[i] == s[i]);
            }
        }
    } else {
        assert(s.take(s.len() as int) =~= s);
    }
}

impl Plan {
    /// The plan for the flags given. A file picked from the list goes before
    /// a path typed in, and either before the shell's own history file. The
    /// strategy is the ordered one exactly where `ordered` is set.
    pub fn from_flags(history: bool, file: bool, ordered: bool) -> (plan: Plan)
        ensures
            plan.source == if history {
                PathSource::Picked
            } else if file {
                PathSource::Typed
            } else {
                PathSource::ShellHistory
            },
            plan.mode == if ordered {
                MatchMode::Ordered
            } else {
                MatchMode::Unordered
            },
    {
        let source = if history {
            PathSource::Picked
        } else if file {
            PathSource::Typed
        } else {
            PathSource::ShellHistory
        };
        let mode = if ordered {
            MatchMode::Ordered
        } else {
            MatchMode::Unordered
        };
        Plan { source, mode }
    }
}

impl Failure {
    /// Whether the run ends on this failure. It ends where no file was
    /// chosen; any other failure leaves less to search and the run goes on.
    pub fn stops_run(&self) -> (stops: bool)
        ensures
            stops == (*self == Failure::SelectionCancelled),
    {
        match self {
            Failure::SelectionCancelled => true,
            _ => false,
        }
    }
}

/// The name of the history file of the shell called `shell`.
pub fn history_file_name(shell: &str) -> (name: String)
    ensures
        name@ == history_file_name_of(shell@),
{
    proof {
        reveal_strlit(".");
        reveal_strlit("_history");
    }
    let mut name = String::from_str(".");
    name.append(shell);
    name.append("_history");
    assert(name@ =~= history_file_name_of(shell@));
    name
}

/// Whether `name` is the name of a history file: whether it holds the word
/// `history`.
pub fn is_history_name(name: &str) -> (named: bool)
    ensures
        named == occurs(name@, history_word()),
{
    proof {
        reveal_strlit("history");
    }
    let word = to_chars("history");
    assert(word@ =~= history_word());
    let chars = to_chars(name);
    find(&chars, &word).is_some()
}

/// The place of the candidate that was chosen, among `candidates` of them.
/// Without a selection, or with one that is no place among the candidates,
/// the choice was cancelled.
pub fn chosen_place(candidates: usize, selection: Option<usize>) -> (chosen: Result<usize, Failure>)
    ensures
        match selection {
            Some(at) if at < candidates => chosen == Ok::<usize, Failure>(at),
            _ => chosen == Err::<usize, Failure>(Failure::SelectionCancelled),
        },
{
    match selection {
        Some(at) => {
            if at < candidates {
                Ok(at)
            } else {
                Err(Failure::SelectionCancelled)
            }
        },
        None => Err(Failure::SelectionCancelled),
    }
}

/// `input` without the line ends at its end.
pub fn trim_line_end(input: &str) -> (path: String)
    ensures
        path@ == without_trailing(input@, '\n'),
{
    let chars = to_chars(input);
    let mut end: usize = chars.len();
    assert(input@.take(end as int) =~= input@);
    while end > 0 && chars[end - 1] == '\n'
        invariant
            end <= chars.len(),
            chars@ == input@,
            without_trailing(input@, '\n') == without_trailing(input@.take(end as int), '\n'),
        decreases end,
    {
        proof {
            assert(input@.take(end as int).drop_last() =~= input@.take(end - 1));
        }
        end -= 1;
    }
    assert(input@.take(end as int) =~= input@.subrange(0, end as int));
    input.substring_char(0, end).to_owned()
}

/// The lines that were read, in order; a line that could not be read is
/// left out, and the lines behind it move up.
pub fn lines_read(lines: Vec<Option<String>>) -> (read: Vec<String>)
    ensures
        texts(read@) == lines_read_of(lines@),
{
    let mut read: Vec<String> = Vec::new();
    let mut i: usize = 0;
    assert(texts(read@) =~= lines_read_of(lines@.take(0)));
    while i < lines.len()
        invariant
            i <= lines.len(),
            texts(read@) == lines_read_of(lines@.take(i as int)),
        decreases lines.len() - i,
    {
        proof {
            assert(lines@.take(i + 1).drop_last() =~= lines@.take(i as int));
        }
        match &lines[i] {
            Some(line) => {
                read.push(line.clone());
                assert(texts(read@) =~= lines_read_of(lines@.take(i + 1)));
            },
            None => {},
        }
        i += 1;
    }
    assert(lines@.take(lines.len() as int) =~= lines@);
    read
}

} // verus!
