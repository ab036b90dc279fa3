//! The command dispatcher: process arguments parsed into one of a fixed set
//! of subcommands, and the application of a parsed command to a list.
//!
//! The caller hands the raw arguments in (the first one being the program
//! name, as processes receive them) and performs whatever the parsed command
//! asks: applying a mutation, printing the table or the usage text.

use vstd::prelude::*;
use vstd::string::StrSliceExecFns;
use crate::todo::{cleaned, ItemModel, TodoError, TodoList};

verus! {

/// One parsed invocation: what to do, with its arguments.
pub enum Command {
    Add(String),
    Edit(usize, String),
    Finish(usize),
    Remove(usize),
    Clean,
    Help,
    Show,
}

/// Mathematical model of a parsed invocation.
pub ghost enum CommandModel {
    Add(Seq<char>),
    Edit(int, Seq<char>),
    Finish(int),
    Remove(int),
    Clean,
    Help,
    Show,
}

impl View for Command {
    type V = CommandModel;

    open spec fn view(&self) -> CommandModel {
        match self {
            Command::Add(d) => CommandModel::Add(d@),
            Command::Edit(i, d) => CommandModel::Edit(*i as int, d@),
            Command::Finish(i) => CommandModel::Finish(*i as int),
            Command::Remove(i) => CommandModel::Remove(*i as int),
            Command::Clean => CommandModel::Clean,
            Command::Help => CommandModel::Help,
            Command::Show => CommandModel::Show,
        }
    }
}

/// The errors of argument parsing: a subcommand outside the fixed set, a
/// positional argument that is not there, and an index argument that is not
/// a number.
#[derive(Debug, PartialEq, Eq, Structural, Clone, Copy)]
pub enum CliError {
    UnknownCommand,
    MissingArgument,
    InvalidIndex,
}

// ---------------------------------------------------------------------------
// Numeric index arguments.
// ---------------------------------------------------------------------------

/// The value of a run of decimal digits, most significant first.
pub open spec fn digits_val(s: Seq<char>) -> int
    decreases s.len(),
{
    if s.len() == 0 {
        0
    } else {
        digits_val(s.drop_last()) * 10 + (s.last() as int - '0' as int)
    }
}

/// A non-empty run of decimal digits.
pub open spec fn is_digits(s: Seq<char>) -> bool {
    s.len() > 0 && forall|k: int| 0 <= k < s.len() ==> '0' <= #[trigger] s[k] <= '9'
}

/// What a numeric index argument means: an optional leading `+`, then
/// decimal digits whose value fits the machine's index type.
pub open spec fn spec_parse_index(s: Seq<char>) -> Option<int> {
    let ds = if s.len() > 0 && s[0] == '+' {
        s.drop_first()
    } else {
        s
    };
    if is_digits(ds) && digits_val(ds) <= usize::MAX {
        Some(digits_val(ds))
    } else {
        None
    }
}

proof fn lemma_digits_val_nonneg(s: Seq<char>)
    requires
        forall|k: int| 0 <= k < s.len() ==> '0' <= #[trigger] s[k] <= '9',
    ensures
        digits_val(s) >= 0,
    decreases s.len(),
{
    if s.len() > 0 {
        assert(forall|k: int|
            0 <= k < s.drop_last().len() ==> '0' <= #[trigger] s.drop_last()[k] <= '9');
        lemma_digits_val_nonneg(s.drop_last());
    }
}

/// The value of a prefix of a digit run is at most the value of the run.
proof fn lemma_digits_prefix_le(s: Seq<char>, m: int)
    requires
        0 <= m <= s.len(),
        forall|k: int| 0 <= k < s.len() ==> '0' <= #[trigger] s[k] <= '9',
    ensures
        digits_val(s.take(m)) <= digits_val(s),
    decreases s.len() - m,
{
    if m == s.len() {
        assert(s.take(m) =~= s);
    } else {
        assert(s.take(m + 1).drop_last() =~= s.take(m));
        assert(s.take(m + 1).last() == s[m]);
        assert(forall|k: int|
            0 <= k < s.take(m).len() ==> '0' <= #[trigger] s.take(m)[k] <= '9');
        lemma_digits_val_nonneg(s.take(m));
        assert(digits_val(s.take(m)) <= digits_val(s.take(m + 1)));
        lemma_digits_prefix_le(s, m + 1);
    }
}

/// Reads a numeric index argument, exactly when it is an optional `+` and
/// then decimal digits whose value fits.
pub fn parse_index(s: &String) -> (r: Option<usize>)
    ensures
        match r {
            Some(v) => spec_parse_index(s@) == Some(v as int),
            None => spec_parse_index(s@) is None,
        },
{
    let n = s.as_str().unicode_len();
    let start: usize = if n > 0 && s.as_str().get_char(0) == '+' {
        1
    } else {
        0
    };
    let ghost ds = if s@.len() > 0 && s@[0] == '+' {
        s@.drop_first()
    } else {
        s@
    };
    proof {
        assert(ds.len() == n - start);
        assert(forall|q: int| 0 <= q < ds.len() ==> ds[q] == s@[q + start]);
    }
    if start >= n {
        return None;
    }
    let mut acc: usize = 0;
    let mut k = start;
    while k < n
        invariant
            n == s@.len(),
            start <= k <= n,
            start < n,
            start == 0 || start == 1,
            ds == (if s@.len() > 0 && s@[0] == '+' {
                s@.drop_first()
            } else {
                s@
            }),
            ds.len() == n - start,
            forall|q: int| 0 <= q < ds.len() ==> ds[q] == s@[q + start],
            forall|q: int| 0 <= q < k - start ==> '0' <= #[trigger] ds[q] <= '9',
            acc as int == digits_val(ds.take(k - start)),
        decreases n - k,
    {
        let c = s.as_str().get_char(k);
        if c < '0' || c > '9' {
            proof {
                assert(ds[k - start] == c);
            }
            return None;
        }
        let d = (c as u32 - '0' as u32) as usize;
        if acc > (usize::MAX - d) / 10 {
            proof {
                assert(acc * 10 + d > usize::MAX);
                assert(ds.take(k + 1 - start).drop_last() =~= ds.take(k - start));
                assert(ds.take(k + 1 - start).last() == ds[k - start]);
                assert(digits_val(ds.take(k + 1 - start)) > usize::MAX);
                if is_digits(ds) {
                    lemma_digits_val_nonneg(ds.take(k + 1 - start));
                    lemma_digits_prefix_le(ds, k + 1 - start);
                }
            }
            return None;
        }
        proof {
            assert(ds.take(k + 1 - start).drop_last() =~= ds.take(k - start));
            assert(ds.take(k + 1 - start).last() == ds[k - start]);
        }
        acc = acc * 10 + d;
        k = k + 1;
    }
    proof {
        assert(ds.take(n - start) =~= ds);
        assert(is_digits(ds));
    }
    Some(acc)
}

// ---------------------------------------------------------------------------
// The subcommand words and their parsing.
// ---------------------------------------------------------------------------

pub open spec fn is_add_word(w: Seq<char>) -> bool {
    w == "add"@ || w == "-a"@ || w == "--add"@
}

pub open spec fn is_edit_word(w: Seq<char>) -> bool {
    w == "edit"@ || w == "-e"@ || w == "--edit"@
}

pub open spec fn is_finish_word(w: Seq<char>) -> bool {
    w == "finish"@ || w == "-f"@ || w == "--finish"@
}

pub open spec fn is_remove_word(w: Seq<char>) -> bool {
    w == "remove"@ || w == "-r"@ || w == "--remove"@
}

pub open spec fn is_clean_word(w: Seq<char>) -> bool {
    w == "clean"@ || w == "-c"@ || w == "--clean"@
}

pub open spec fn is_help_word(w: Seq<char>) -> bool {
    w == "help"@ || w == "-h"@ || w == "--help"@
}

/// What parsing a full argument vector yields: no arguments beyond the
/// program name shows the table; otherwise the first argument selects the
/// subcommand and the rest are its positional arguments.
pub open spec fn spec_parse_command(a: Seq<Seq<char>>) -> Result<CommandModel, CliError> {
    if a.len() <= 1 {
        Ok(CommandModel::Show)
    } else {
        let sub = a[1];
        if is_add_word(sub) {
            if a.len() >= 3 {
                Ok(CommandModel::Add(a[2]))
            } else {
                Err(CliError::MissingArgument)
            }
        } else if is_edit_word(sub) {
            if a.len() >= 4 {
                match spec_parse_index(a[2]) {
                    Some(v) => Ok(CommandModel::Edit(v, a[3])),
                    None => Err(CliError::InvalidIndex),
                }
            } else {
                Err(CliError::MissingArgument)
            }
        } else if is_finish_word(sub) {
            if a.len() >= 3 {
                match spec_parse_index(a[2]) {
                    Some(v) => Ok(CommandModel::Finish(v)),
                    None => Err(CliError::InvalidIndex),
                }
            } else {
                Err(CliError::MissingArgument)
            }
        } else if is_remove_word(sub) {
            if a.len() >= 3 {
                match spec_parse_index(a[2]) {
                    Some(v) => Ok(CommandModel::Remove(v)),
                    None => Err(CliError::InvalidIndex),
                }
            } else {
                Err(CliError::MissingArgument)
            }
        } else if is_clean_word(sub) {
            Ok(CommandModel::Clean)
        } else if is_help_word(sub) {
            Ok(CommandModel::Help)
        } else {
            Err(CliError::UnknownCommand)
        }
    }
}

fn word_eq(a: &String, w: &str) -> (r: bool)
    ensures
        r == (a@ == w@),
{
    a.eq(&w.to_owned())
}

/// Parses the process arguments into a command, or reports exactly why they
/// are not one.
pub fn parse_command(args: &Vec<String>) -> (r: Result<Command, CliError>)
    ensures
        ({
            let sp = spec_parse_command(args@.map_values(|x: String| x@));
            match r {
                Ok(c) => sp == Ok::<CommandModel, CliError>(c@),
                Err(e) => sp == Err::<CommandModel, CliError>(e),
            }
        }),
{
    if args.len() <= 1 {
        return Ok(Command::Show);
    }
    let sub = &args[1];
    if word_eq(sub, "add") || word_eq(sub, "-a") || word_eq(sub, "--add") {
        if args.len() >= 3 {
            Ok(Command::Add(args[2].clone()))
        } else {
            Err(CliError::MissingArgument)
        }
    } else if word_eq(sub, "edit") || word_eq(sub, "-e") || word_eq(sub, "--edit") {
        if args.len() >= 4 {
            match parse_index(&args[2]) {
                Some(v) => Ok(Command::Edit(v, args[3].clone())),
                None => Err(CliError::InvalidIndex),
            }
        } else {
            Err(CliError::MissingArgument)
        }
    } else if word_eq(sub, "finish") || word_eq(sub, "-f") || word_eq(sub, "--finish") {
        if args.len() >= 3 {
            match parse_index(&args[2]) {
                Some(v) => Ok(Command::Finish(v)),
                None => Err(CliError::InvalidIndex),
            }
        } else {
            Err(CliError::MissingArgument)
        }
    } else if word_eq(sub, "remove") || word_eq(sub, "-r") || word_eq(sub, "--remove") {
        if args.len() >= 3 {
            match parse_index(&args[2]) {
                Some(v) => Ok(Command::Remove(v)),
                None => Err(CliError::InvalidIndex),
            }
        } else {
            Err(CliError::MissingArgument)
        }
    } else if word_eq(sub, "clean") || word_eq(sub, "-c") || word_eq(sub, "--clean") {
        Ok(Command::Clean)
    } else if word_eq(sub, "help") || word_eq(sub, "-h") || word_eq(sub, "--help") {
        Ok(Command::Help)
    } else {
        Err(CliError::UnknownCommand)
    }
}

// ---------------------------------------------------------------------------
// Applying a command.
// ---------------------------------------------------------------------------

impl Command {
    /// Whether the command changes the list, so that the caller must write
    /// the document back afterwards.
    pub open spec fn spec_mutates(&self) -> bool {
        match self {
            Command::Add(_) => true,
            Command::Edit(_, _) => true,
            Command::Finish(_) => true,
            Command::Remove(_) => true,
            Command::Clean => true,
            Command::Help => false,
            Command::Show => false,
        }
    }

    pub fn mutates(&self) -> (r: bool)
        ensures
            r == self.spec_mutates(),
    {
        match self {
            Command::Add(_) => true,
            Command::Edit(_, _) => true,
            Command::Finish(_) => true,
            Command::Remove(_) => true,
            Command::Clean => true,
            Command::Help => false,
            Command::Show => false,
        }
    }
}

/// Applies one parsed command to the list: the single mutation the command
/// asks for, or nothing at all for `help` and `show`, or nothing at all with
/// the error when the command's index addresses no item.
pub fn apply(list: &mut TodoList, cmd: &Command) -> (r: Result<(), TodoError>)
    ensures
        match cmd {
            Command::Add(d) => r is Ok && final(list)@ == old(list)@.push(
                ItemModel { description: d@, status: false },
            ),
            Command::Edit(i, d) => {
                &&& (r is Ok <==> *i < old(list)@.len())
                &&& r is Ok ==> final(list)@ == old(list)@.update(
                    *i as int,
                    ItemModel { description: d@, status: old(list)@[*i as int].status },
                )
                &&& r is Err ==> *final(list) == *old(list) && r == Err::<(), TodoError>(
                    TodoError::OutOfRange,
                )
            },
            Command::Finish(i) => {
                &&& (r is Ok <==> *i < old(list)@.len())
                &&& r is Ok ==> final(list)@ == old(list)@.update(
                    *i as int,
                    ItemModel {
                        description: old(list)@[*i as int].description,
                        status: true,
                    },
                )
                &&& r is Err ==> *final(list) == *old(list) && r == Err::<(), TodoError>(
                    TodoError::OutOfRange,
                )
            },
            Command::Remove(i) => {
                &&& (r is Ok <==> *i < old(list)@.len())
                &&& r is Ok ==> final(list)@ == old(list)@.remove(*i as int)
                &&& r is Err ==> *final(list) == *old(list) && r == Err::<(), TodoError>(
                    TodoError::OutOfRange,
                )
            },
            Command::Clean => r is Ok && final(list)@ == cleaned(old(list)@),
            Command::Help => r is Ok && *final(list) == *old(list),
            Command::Show => r is Ok && *final(list) == *old(list),
        },
{
    match cmd {
        Command::Add(d) => {
            list.add(d.as_str());
            Ok(())
        },
        Command::Edit(i, d) => {
            let r = list.edit(*i, d.as_str());
            proof {
                if r is Ok {
                    assert(list@ =~= old(list)@.update(
                        *i as int,
                        ItemModel { description: d@, status: old(list)@[*i as int].status },
                    ));
                }
            }
            r
        },
        Command::Finish(i) => {
            let r = list.finish(*i);
            proof {
                if r is Ok {
                    assert(list@ =~= old(list)@.update(
                        *i as int,
                        ItemModel {
                            description: old(list)@[*i as int].description,
                            status: true,
                        },
                    ));
                }
            }
            r
        },
        Command::Remove(i) => {
            let r = list.remove(*i);
            proof {
                if r is Ok {
                    assert(list@ =~= old(list)@.remove(*i as int));
                }
            }
            r
        },
        Command::Clean => {
            list.clean();
            Ok(())
        },
        Command::Help => Ok(()),
        Command::Show => Ok(()),
    }
}

} // verus!
