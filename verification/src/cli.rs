//! What the command line can choose, and what each choice means.
use vstd::prelude::*;

use crate::blockhash::HashMode;
use crate::report::ReportFormat;

verus! {

/// The format that a file is read as.
#[derive(Clone, Copy, Debug, PartialEq, Eq, Structural)]
pub enum ArchiveFormatArg {
    /// As its first bytes tell.
    Auto,
    Anvil,
    LinearV2,
    BLinearV3,
}

/// What of a chunk is hashed.
#[derive(Clone, Copy, Debug, PartialEq, Eq, Structural)]
pub enum HashModeArg {
    /// The raw bytes: any change shows.
    Raw,
    /// The blocks only.
    Blocks,
    /// The blocks and the block entities.
    BlocksEntities,
}

/// The form of a report.
#[derive(Clone, Copy, Debug, PartialEq, Eq, Structural)]
pub enum ReportFormatArg {
    Text,
    Json,
    Html,
}

/// The hash mode of an argument.
pub fn hash_mode_from_arg(arg: HashModeArg) -> (r: HashMode)
    ensures
        r == match arg {
            HashModeArg::Raw => HashMode::Raw,
            HashModeArg::Blocks => HashMode::Blocks,
            HashModeArg::BlocksEntities => HashMode::BlocksAndEntities,
        },
{
    match arg {
        HashModeArg::Raw => HashMode::Raw,
        HashModeArg::Blocks => HashMode::Blocks,
        HashModeArg::BlocksEntities => HashMode::BlocksAndEntities,
    }
}

/// The report format of an argument.
pub fn report_format_from_arg(arg: ReportFormatArg) -> (r: ReportFormat)
    ensures
        r == match arg {
            ReportFormatArg::Text => ReportFormat::Text,
            ReportFormatArg::Json => ReportFormat::Json,
            ReportFormatArg::Html => ReportFormat::Html,
        },
{
    match arg {
        ReportFormatArg::Text => ReportFormat::Text,
        ReportFormatArg::Json => ReportFormat::Json,
        ReportFormatArg::Html => ReportFormat::Html,
    }
}

/// How many threads work: as many as asked for, else one for each processor, and at least one.
pub fn worker_count(threads: Option<usize>, processors: usize) -> (r: usize)
    ensures
        r == match threads {
            Some(0) => 1,
            Some(n) => n,
            None => if processors == 0 {
                1
            } else {
                processors
            },
        },
{
    let n: usize = match threads {
        Some(n) => n,
        None => processors,
    };
    if n < 1 {
        1
    } else {
        n
    }
}

} // verus!
