//! Shell dialects, and how each frames a line of its history file.
//!
//! A shell may store more than the command in a line of its history. Zsh's
//! extended format writes `: <epoch>:<duration>;<command>`. To normalise a raw
//! line is to recover the command from it.

use vstd::prelude::*;
use vstd::string::StrSliceExecFns;
use crate::dialect_lemmas::{lemma_last_index_of, lemma_last_index_of_unique};
use crate::text::{texts, to_chars};

verus! {

/// How a shell frames the lines of its history file.
#[derive(Clone, Copy, Debug, PartialEq, Eq, Structural)]
pub enum ShellDialect {
    /// One command per line, nothing else.
    Generic,
    /// Each command behind a `: <epoch>:<duration>;` prefix.
    ZshExtended,
}

/// The offset of the last `sep` in `s`, or -1 where `s` holds none.
pub open spec fn last_index_of(s: Seq<char>, sep: char) -> int
    decreases s.len(),
{
    if s.len() == 0 {
        -1
    } else if s.last() == sep {
        s.len() - 1
    } else {
        last_index_of(s.drop_last(), sep)
    }
}

/// What stands in `s` behind its last `sep`; all of `s` where it holds none.
pub open spec fn after_last(s: Seq<char>, sep: char) -> Seq<char> {
    s.skip(last_index_of(s, sep) + 1)
}

/// The command that a raw history line holds under `dialect`.
///
/// A generic line is the command. An extended line holds it behind the last
/// `;`; a line without any `;` is not in that format and gives nothing.
pub open spec fn normalized(raw: Seq<char>, dialect: ShellDialect) -> Seq<char> {
    match dialect {
        ShellDialect::Generic => raw,
        ShellDialect::ZshExtended => if raw.contains(';') {
            after_last(raw, ';')
        } else {
            Seq::empty()
        },
    }
}

/// Each line of `raws`, normalised under `dialect`.
pub open spec fn normalized_all(raws: Seq<Seq<char>>, dialect: ShellDialect) -> Seq<Seq<char>> {
    Seq::new(raws.len(), |i: int| normalized(raws[i], dialect))
}

/// The name by which zsh is known: `zsh`.
pub open spec fn zsh_name() -> Seq<char> {
    seq!['z', 's', 'h']
}

/// The dialect of the shell called `name`.
pub open spec fn dialect_named(name: Seq<char>) -> ShellDialect {
    if name == zsh_name() {
        ShellDialect::ZshExtended
    } else {
        ShellDialect::Generic
    }
}

/// The dialect to read a history with, given the path of the shell's
/// executable where one was found.
pub open spec fn dialect_for(shell_path: Option<Seq<char>>) -> ShellDialect {
    match shell_path {
        Some(path) => dialect_named(after_last(path, '/')),
        None => ShellDialect::Generic,
    }
}

/// The offset of the last `sep` in `chars`, if it holds one.
pub fn last_index(chars: &Vec<char>, sep: char) -> (found: Option<usize>)
    ensures
        match found {
            Some(at) => at < chars.len() && at == last_index_of(chars@, sep),
            None => last_index_of(chars@, sep) == -1,
        },
{
    let mut i: usize = chars.len();
    while i > 0
        invariant
            i <= chars.len(),
            forall|j: int| i <= j < chars.len() ==> chars@[j] != sep,
        decreases i,
    {
        i -= 1;
        if chars[i] == sep {
            proof {
                lemma_last_index_of_unique(chars@, sep, i as int);
            }
            return Some(i);
        }
    }
    proof {
        lemma_last_index_of(chars@, sep);
    }
    None
}

/// The trailing segment of `path`: what stands behind its last `/`, or all
/// of it where it holds none.
pub fn shell_name(path: &str) -> (name: String)
    ensures
        name@ == after_last(path@, '/'),
{
    let chars = to_chars(path);
    match last_index(&chars, '/') {
        Some(at) => path.substring_char(at + 1, chars.len()).to_owned(),
        None => {
            assert(path@.skip(0) =~= path@);
            path.to_owned()
        },
    }
}

/// The dialect of the shell called `name`: the extended one for `zsh`, the
/// generic one for any other.
pub fn dialect_of(name: &str) -> (dialect: ShellDialect)
    ensures
        dialect == dialect_named(name@),
{
    let chars = to_chars(name);
    if chars.len() == 3 && chars[0] == 'z' && chars[1] == 's' && chars[2] == 'h' {
        assert(chars@ =~= zsh_name());
        ShellDialect::ZshExtended
    } else {
        ShellDialect::Generic
    }
}

/// The dialect to read a history with: that of the shell whose executable
/// is at `shell_path`, and the generic one where no shell was found.
pub fn resolve_dialect(shell_path: Option<&str>) -> (dialect: ShellDialect)
    ensures
        dialect == dialect_for(
            match shell_path {
                Some(path) => Some(path@),
                None => None,
            },
        ),
{
    match shell_path {
        Some(path) => {
            let name = shell_name(path);
            dialect_of(name.as_str())
        },
        None => ShellDialect::Generic,
    }
}

/// The command that the raw history line `raw` holds under `dialect`.
pub fn normalize(raw: &str, dialect: ShellDialect) -> (line: String)
    ensures
        line@ == normalized(raw@, dialect),
{
    match dialect {
        ShellDialect::Generic => raw.to_owned(),
        ShellDialect::ZshExtended => {
            let chars = to_chars(raw);
            proof {
                lemma_last_index_of(raw@, ';');
            }
            match last_index(&chars, ';') {
                Some(at) => raw.substring_char(at + 1, chars.len()).to_owned(),
                None => String::new(),
            }
        },
    }
}

/// Each line of `raws`, normalised under `dialect`, in the same order.
pub fn normalize_all(raws: &Vec<String>, dialect: ShellDialect) -> (lines: Vec<String>)
    ensures
        texts(lines@) == normalized_all(texts(raws@), dialect),
{
    let mut lines: Vec<String> = Vec::new();
    let mut i: usize = 0;
    while i < raws.len()
        invariant
            i <= raws.len(),
            lines@.len() == i,
            forall|k: int| 0 <= k < i ==> (#[trigger] lines@[k])@ == normalized(raws@[k]@, dialect),
        decreases raws.len() - i,
    {
        let line = normalize(raws[i].as_str(), dialect);
        lines.push(line);
        i += 1;
    }
    assert(texts(lines@) =~= normalized_all(texts(raws@), dialect));
    lines
}

} // verus!
