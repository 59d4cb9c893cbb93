//! The commands of the interactive shell, read from a line of input.
use vstd::prelude::*;
use vstd::string::*;
use crate::catalog::str_eq;

verus! {

/// What a line of input asks for.
pub enum Command {
    /// A blank line.
    Nothing,
    Install { name: String, version: Option<String> },
    Remove { name: String },
    List,
    Available,
    Search { query: String },
    Help,
    Exit,
    /// `install` or `remove` without a package name.
    MissingName,
    /// `search` without a query.
    MissingQuery,
    Unknown { word: String },
}

/// What `str::split_whitespace` makes of a line: its words, in order.
pub uninterp spec fn words_of(line: Seq<char>) -> Seq<Seq<char>>;

pub open spec fn word_views(words: Seq<String>) -> Seq<Seq<char>> {
    words.map_values(|w: String| w@)
}

/// Relies on str::split_whitespace: the words of the line, which depend on
/// its characters alone.
#[verifier::external_body]
fn split_words(line: &str) -> (r: Vec<String>)
    ensures
        word_views(r@) == words_of(line@),
{
    line.split_whitespace().map(|w| w.to_string()).collect()
}

/// The words joined with single spaces.
pub open spec fn joined(words: Seq<Seq<char>>) -> Seq<char>
    decreases words.len(),
{
    if words.len() == 0 {
        Seq::empty()
    } else if words.len() == 1 {
        words[0]
    } else {
        joined(words.drop_last()) + " "@ + words.last()
    }
}

/// Joins the words from position `from` on with single spaces.
pub fn join_from(words: &Vec<String>, from: usize) -> (r: String)
    requires
        from <= words@.len(),
    ensures
        r@ == joined(word_views(words@).subrange(from as int, words@.len() as int)),
{
    let ghost w = word_views(words@);
    let mut out = String::new();
    let mut i: usize = from;
    proof {
        assert(w.subrange(from as int, from as int) =~= Seq::<Seq<char>>::empty());
    }
    while i < words.len()
        invariant
            from <= i <= words@.len(),
            w == word_views(words@),
            out@ == joined(w.subrange(from as int, i as int)),
        decreases words@.len() - i,
    {
        if i > from {
            out.append(" ");
        }
        out.append(words[i].as_str());
        proof {
            let prev = w.subrange(from as int, i as int);
            let next = w.subrange(from as int, (i + 1) as int);
            assert(next.drop_last() =~= prev);
            assert(next.last() == words@[i as int]@);
            if i == from {
                assert(out@ =~= next[0]);
            }
        }
        i = i + 1;
    }
    out
}

/// The command that a line of words asks for: the first word names it, the
/// next words are its arguments.
pub open spec fn command_matches(words: Seq<Seq<char>>, c: Command) -> bool {
    if words.len() == 0 {
        c is Nothing
    } else if words[0] == "install"@ {
        if words.len() < 2 {
            c is MissingName
        } else {
            match c {
                Command::Install { name, version } => name@ == words[1] && match version {
                    Some(v) => words.len() > 2 && v@ == words[2],
                    None => words.len() == 2,
                },
                _ => false,
            }
        }
    } else if words[0] == "remove"@ {
        if words.len() < 2 {
            c is MissingName
        } else {
            match c {
                Command::Remove { name } => name@ == words[1],
                _ => false,
            }
        }
    } else if words[0] == "list"@ {
        c is List
    } else if words[0] == "available"@ {
        c is Available
    } else if words[0] == "search"@ {
        if words.len() < 2 {
            c is MissingQuery
        } else {
            match c {
                Command::Search { query } => query@ == joined(words.subrange(1, words.len() as int)),
                _ => false,
            }
        }
    } else if words[0] == "help"@ {
        c is Help
    } else if words[0] == "exit"@ {
        c is Exit
    } else {
        match c {
            Command::Unknown { word } => word@ == words[0],
            _ => false,
        }
    }
}

/// Reads the command from the words of a line.
pub fn command_from_words(words: &Vec<String>) -> (r: Command)
    ensures
        command_matches(word_views(words@), r),
{
    let ghost w = word_views(words@);
    if words.len() == 0 {
        return Command::Nothing;
    }
    proof {
        assert(w[0] == words@[0]@);
        if words@.len() > 1 {
            assert(w[1] == words@[1]@);
        }
        if words@.len() > 2 {
            assert(w[2] == words@[2]@);
        }
    }
    let first = words[0].as_str();
    if str_eq(first, "install") {
        if words.len() < 2 {
            Command::MissingName
        } else {
            let version = if words.len() > 2 {
                Some(words[2].clone())
            } else {
                None
            };
            Command::Install { name: words[1].clone(), version }
        }
    } else if str_eq(first, "remove") {
        if words.len() < 2 {
            Command::MissingName
        } else {
            Command::Remove { name: words[1].clone() }
        }
    } else if str_eq(first, "list") {
        Command::List
    } else if str_eq(first, "available") {
        Command::Available
    } else if str_eq(first, "search") {
        if words.len() < 2 {
            Command::MissingQuery
        } else {
            Command::Search { query: join_from(words, 1) }
        }
    } else if str_eq(first, "help") {
        Command::Help
    } else if str_eq(first, "exit") {
        Command::Exit
    } else {
        Command::Unknown { word: words[0].clone() }
    }
}

/// Reads the command on a line of input.
pub fn parse_command(line: &str) -> (r: Command)
    ensures
        command_matches(words_of(line@), r),
{
    let words = split_words(line);
    command_from_words(&words)
}

} // verus!
