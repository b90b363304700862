use vstd::prelude::*;

use crate::text::{chars_of, concat_chars, lemma_split_nonempty, split_by, split_chars, string_from, sub_chars};

verus! {

/// How much the shell prints.
#[derive(Clone, Copy, Debug, PartialEq, Eq, Structural)]
pub enum Verbosity {
    Quiet,
    Regular,
    Verbose,
    VeryVerbose,
}

/// The verbosity the global flags ask for: `--quiet` wins; otherwise one
/// step up for each `-v`, at most two.
pub open spec fn verbosity_of(quiet: bool, verbose: u8) -> Verbosity {
    if quiet {
        Verbosity::Quiet
    } else if verbose == 0 {
        Verbosity::Regular
    } else if verbose == 1 {
        Verbosity::Verbose
    } else {
        Verbosity::VeryVerbose
    }
}

impl Verbosity {
    /// The verbosity for `--quiet` and the number of `-v` flags.
    pub fn from_flags(quiet: bool, verbose: u8) -> (r: Verbosity)
        ensures
            r == verbosity_of(quiet, verbose),
    {
        if quiet {
            Verbosity::Quiet
        } else if verbose == 0 {
            Verbosity::Regular
        } else if verbose == 1 {
            Verbosity::Verbose
        } else {
            Verbosity::VeryVerbose
        }
    }

    /// Whether status lines and notes are printed: all but `Quiet` print
    /// them.
    pub fn shows_status(&self) -> (r: bool)
        ensures
            r == !(*self is Quiet),
    {
        match self {
            Verbosity::Quiet => false,
            _ => true,
        }
    }
}

/// A failed command: the error, if there is one to report, and the code the
/// process exits with.
pub struct CliError<E> {
    pub error: Option<E>,
    pub exit_code: i32,
}

impl<E> CliError<E> {
    /// An error to report and the exit code that goes with it.
    pub fn new(error: E, code: i32) -> (r: CliError<E>)
        ensures
            r.error == Some(error),
            r.exit_code == code,
    {
        CliError { error: Some(error), exit_code: code }
    }

    /// A command that failed: exit code 101.
    pub fn from_failure(error: E) -> (r: CliError<E>)
        ensures
            r.error == Some(error),
            r.exit_code == 101,
    {
        CliError::new(error, 101)
    }

    /// A command line that was refused, or a request for help or the
    /// version: exit code 1 when the message goes to standard error, 0 when
    /// it goes to standard output.
    pub fn from_usage(error: E, to_stderr: bool) -> (r: CliError<E>)
        ensures
            r.error == Some(error),
            r.exit_code == if to_stderr {
                1i32
            } else {
                0i32
            },
    {
        let code: i32 = if to_stderr {
            1
        } else {
            0
        };
        CliError::new(error, code)
    }

    /// An input or output error: exit code 1.
    pub fn from_io(error: E) -> (r: CliError<E>)
        ensures
            r.error == Some(error),
            r.exit_code == 1,
    {
        CliError::new(error, 1)
    }
}

/// A line without the carriage return that ends it.
pub open spec fn strip_cr(l: Seq<char>) -> Seq<char> {
    if l.len() > 0 && l.last() == '\r' {
        l.drop_last()
    } else {
        l
    }
}

/// The lines of a text, as `str::lines` gives them: split at each line
/// feed, a carriage return before the line feed dropped, and no line after
/// a final line feed.
pub open spec fn lines_of(t: Seq<char>) -> Seq<Seq<char>> {
    let parts = split_by(t, '\n');
    let full = parts.take(parts.len() - 1).map_values(|l: Seq<char>| strip_cr(l));
    if parts.len() == 0 || parts.last().len() == 0 {
        full
    } else {
        full.push(parts.last())
    }
}

/// A line of a cause in an error report: indented by two spaces, and an
/// empty line kept empty.
pub open spec fn indent_line(l: Seq<char>) -> Seq<char> {
    if l.len() == 0 {
        seq!['\n']
    } else {
        seq![' ', ' '] + l + seq!['\n']
    }
}

/// Each line indented, each followed by a line feed.
pub open spec fn indented(ls: Seq<Seq<char>>) -> Seq<char>
    decreases ls.len(),
{
    if ls.len() == 0 {
        Seq::empty()
    } else {
        indented(ls.drop_last()) + indent_line(ls.last())
    }
}

fn push_indented(out: &mut Vec<char>, line: &Vec<char>)
    ensures
        final(out)@ == old(out)@ + indent_line(line@),
{
    if line.len() == 0 {
        out.push('\n');
    } else {
        out.push(' ');
        out.push(' ');
        let joined = concat_chars(out, line);
        *out = joined;
        out.push('\n');
    }
}

/// The text of a cause in an error report: each of its lines indented.
pub fn indent_cause(text: &str) -> (r: String)
    ensures
        r@ == indented(lines_of(text@)),
{
    let v = chars_of(text);
    let parts = split_chars(&v, '\n');
    proof {
        lemma_split_nonempty(v@, '\n');
    }
    let ghost all = split_by(v@, '\n');
    let ghost ls = lines_of(v@);
    let n = parts.len();
    let mut out: Vec<char> = Vec::new();
    let mut i: usize = 0;
    assert(ls.take(0) =~= Seq::<Seq<char>>::empty());
    while i + 1 < n
        invariant
            n == parts@.len(),
            n == all.len(),
            n >= 1,
            i + 1 <= n,
            all == split_by(v@, '\n'),
            ls == lines_of(v@),
            forall|j: int| 0 <= j < n ==> #[trigger] parts@[j]@ == all[j],
            out@ == indented(ls.take(i as int)),
        decreases n - i,
    {
        let part = &parts[i];
        let line = if part.len() > 0 && part[part.len() - 1] == '\r' {
            sub_chars(part, 0, part.len() - 1)
        } else {
            sub_chars(part, 0, part.len())
        };
        proof {
            assert(part@.len() > 0 ==> part@.subrange(0, part@.len() - 1) =~= part@.drop_last());
            assert(part@.subrange(0, part@.len() as int) =~= part@);
            assert(line@ == strip_cr(all[i as int]));
            assert(ls[i as int] == strip_cr(all[i as int]));
            assert(ls.take(i + 1).drop_last() =~= ls.take(i as int));
        }
        push_indented(&mut out, &line);
        i += 1;
    }
    let last = &parts[n - 1];
    if last.len() > 0 {
        proof {
            assert(ls.drop_last() =~= ls.take(i as int));
        }
        push_indented(&mut out, last);
    } else {
        assert(ls =~= ls.take(i as int));
    }
    string_from(&out)
}

} // verus!
