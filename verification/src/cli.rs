//! The options of the `rscpio` command line, as plain values (paths as UTF-8 strings).
use vstd::prelude::*;

verus! {

#[derive(Debug, Clone)]
pub struct Cli {
    pub command: Command,
    pub args: SharedArgs,
}

#[derive(Debug, Clone)]
pub struct SharedArgs {
    /// Change to directory DIR
    pub directory: Option<String>,
    /// Verbosely list the files processed
    pub verbose: bool,
    /// Print a "." for each file processed
    pub print_dot: bool,
}

#[derive(Debug, Clone)]
pub enum Command {
    /// Create cpio archive
    Create(CreateArgs),
    /// List files
    List(ListArgs),
    /// Strips the cpio of select information
    Strip(StripArgs),
}

#[derive(Debug, Clone, Copy)]
pub struct CopyInAndCopyPassArgs {
    /// Dereference symbolic links: copy the files that they point to instead of the links.
    pub dereference: bool,
}

#[derive(Debug, Clone)]
pub struct CreateArgs {
    pub input: Option<String>,
    pub output: Option<String>,
    pub input_shared: CopyInAndCopyPassArgs,
}

#[derive(Debug, Clone)]
pub struct ListArgs {
    pub input: Option<String>,
    /// end each output line with NUL, not newline
    pub zero: bool,
}

#[derive(Debug, Clone)]
pub struct StripArgs {
    pub input: Option<String>,
    pub output: Option<String>,
    pub reset_ino: bool,
    pub reset_mtime: bool,
    pub sort: bool,
}

} // verus!
