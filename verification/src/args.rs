//! The parsed command line, and the decisions taken from it.
use crate::operations::LogType;
use std::path::PathBuf;
use vstd::prelude::*;

verus! {

/// The parsed command line: the set operation `op`, what count to report with
/// each line, and the paths of the operands.
pub struct Args {
    /// `op` is the set operation requested
    pub op: OpName,
    /// Should we count the number of times each line occurs?
    pub log_type: LogType,
    /// `paths` is the list of files from the command line
    pub paths: Vec<PathBuf>,
}

/// Set operation to perform
#[derive(PartialEq, Eq, Structural, Debug, Clone, Copy)]
pub enum OpName {
    /// Print the lines present in every file
    Intersect,
    /// Print the lines present in any file
    Union,
    /// Print the lines present in the first file but no other
    Diff,
    /// Print the lines present exactly once in the entire input
    Single,
    /// Print the lines present in exactly one file
    SingleByFile,
    /// Print the lines present more than once in the entire input
    Multiple,
    /// Print the lines present in two or more files
    MultipleByFile,
}

/// Name of the requested operation, as the command line gives it
#[derive(PartialEq, Eq, Structural, Debug, Clone, Copy)]
pub enum CliName {
    /// Print the lines present in every file
    Intersect,
    /// Print the lines present in any file
    Union,
    /// Print the lines present in the first file but no other
    Diff,
    /// Print the lines present in exactly one file
    Single,
    /// Print the lines present in two or more files
    Multiple,
    /// Print a help message
    Help,
}

/// The flags and the command of a parsed command line, as far as they decide
/// what to do. A flag that a later flag overrides is already cleared.
#[derive(PartialEq, Eq, Structural, Debug, Clone, Copy)]
pub struct CliFlags {
    /// `--count-files`: report the number of files a line occurs in
    pub count_files: bool,
    /// `--count-lines`: report the times a line appears in the entire input
    pub count_lines: bool,
    /// `--count` (`-c`): like `--count-lines`, but `--files` makes it act like `--count-files`
    pub count: bool,
    /// `--files`: `single` and `multiple` count a line once per file it occurs in
    pub files: bool,
    /// `--help` (`-h`): print the help message and exit
    pub help: bool,
    /// `--version` (`-V`): print our name and version, then exit
    pub version: bool,
    /// The operation named, if any
    pub command: Option<CliName>,
}

/// What the command line asks for.
#[derive(PartialEq, Eq, Structural, Debug, Clone, Copy)]
pub enum Request {
    /// Print the help message and exit
    Help,
    /// Print the name and version, then exit
    Version,
    /// Perform `op`, reporting the count that `log_type` names
    Run { op: OpName, log_type: LogType },
}

/// The count reported with each line: `--count-files` wins over
/// `--count-lines`, which wins over `--count`; `--count` reports files with
/// `--files`, lines otherwise.
pub open spec fn log_type_of(count_files: bool, count_lines: bool, count: bool, files: bool) -> LogType {
    if count_files {
        LogType::Files
    } else if count_lines {
        LogType::Lines
    } else if count {
        if files {
            LogType::Files
        } else {
            LogType::Lines
        }
    } else {
        LogType::NoCount
    }
}

/// The operation a command names: `single` and `multiple` count files with
/// `--files` and lines otherwise; `help` names none.
pub open spec fn op_of(name: CliName, files: bool) -> Option<OpName> {
    match name {
        CliName::Help => None,
        CliName::Intersect => Some(OpName::Intersect),
        CliName::Union => Some(OpName::Union),
        CliName::Diff => Some(OpName::Diff),
        CliName::Single => Some(if files { OpName::SingleByFile } else { OpName::Single }),
        CliName::Multiple => Some(if files { OpName::MultipleByFile } else { OpName::Multiple }),
    }
}

/// What a command line with `flags` asks for: help if `--help` is given, if
/// no operation is named, or if `help` is; else the version if `--version`
/// is given; else the operation named.
pub open spec fn request_of(flags: CliFlags) -> Request {
    if flags.help {
        Request::Help
    } else if flags.version {
        Request::Version
    } else {
        match flags.command {
            None => Request::Help,
            Some(name) => match op_of(name, flags.files) {
                None => Request::Help,
                Some(op) => Request::Run {
                    op,
                    log_type: log_type_of(flags.count_files, flags.count_lines, flags.count, flags.files),
                },
            },
        }
    }
}

/// The count to report, from the count flags and `--files`.
pub fn log_type_for(count_files: bool, count_lines: bool, count: bool, files: bool) -> (r: LogType)
    ensures
        r == log_type_of(count_files, count_lines, count, files),
{
    if count_files {
        LogType::Files
    } else if count_lines {
        LogType::Lines
    } else if count {
        if files {
            LogType::Files
        } else {
            LogType::Lines
        }
    } else {
        LogType::NoCount
    }
}

/// The operation that `name` asks for, given `--files`; `None` for `help`.
pub fn op_for(name: CliName, files: bool) -> (r: Option<OpName>)
    ensures
        r == op_of(name, files),
{
    match name {
        CliName::Help => None,
        CliName::Intersect => Some(OpName::Intersect),
        CliName::Union => Some(OpName::Union),
        CliName::Diff => Some(OpName::Diff),
        CliName::Single => {
            if files {
                Some(OpName::SingleByFile)
            } else {
                Some(OpName::Single)
            }
        },
        CliName::Multiple => {
            if files {
                Some(OpName::MultipleByFile)
            } else {
                Some(OpName::Multiple)
            }
        },
    }
}

/// What the parsed command line `flags` asks for.
pub fn request(flags: &CliFlags) -> (r: Request)
    ensures
        r == request_of(*flags),
{
    if flags.help {
        return Request::Help;
    }
    if flags.version {
        return Request::Version;
    }
    let name = match flags.command {
        None => return Request::Help,
        Some(name) => name,
    };
    let log_type = log_type_for(flags.count_files, flags.count_lines, flags.count, flags.files);
    match op_for(name, flags.files) {
        None => Request::Help,
        Some(op) => Request::Run { op, log_type },
    }
}

/// The operation to perform in place of `op` on `number_of_operands`
/// operands, or `None` when there is nothing to output (see `operation_for`).
pub open spec fn optimized(op: OpName, number_of_operands: nat) -> Option<OpName> {
    if number_of_operands == 1 {
        match op {
            OpName::Union | OpName::Intersect | OpName::Diff | OpName::SingleByFile => Some(OpName::Union),
            OpName::MultipleByFile => None,
            OpName::Single | OpName::Multiple => Some(op),
        }
    } else {
        Some(op)
    }
}

/// The operation to perform in place of `op` on `number_of_operands`
/// operands, or `None` when there is nothing to output. For a single operand
/// `Union` gives what `Intersect`, `Diff` and `SingleByFile` give, slightly
/// faster; and no line can occur in multiple files if there is only one file.
/// Even for a single operand, `Single` and `Multiple` differ from `Union`.
pub fn operation_for(op: OpName, number_of_operands: usize) -> (r: Option<OpName>)
    ensures
        r == optimized(op, number_of_operands as nat),
{
    if number_of_operands == 1 {
        match op {
            OpName::Union | OpName::Intersect | OpName::Diff | OpName::SingleByFile => Some(OpName::Union),
            OpName::MultipleByFile => None,
            OpName::Single | OpName::Multiple => Some(op),
        }
    } else {
        Some(op)
    }
}

} // verus!
