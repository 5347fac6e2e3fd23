//! The compiler's command-line arguments.

use vstd::prelude::*;

verus! {

/// A Jib to Javascript compiler.
#[derive(Debug)]
pub struct Args {
    /// The source directory.
    pub directory: String,
}

/// The directory that is compiled where the command line names none.
pub open spec fn default_directory() -> Seq<char> {
    "./"@
}

/// Settles the arguments from what the command line gave: the directory
/// named there, or the current directory where it named none.
pub fn get_args(directory: Option<String>) -> (args: Args)
    ensures
        args.directory@ == (match directory {
            Some(path) => path@,
            None => default_directory(),
        }),
{
    match directory {
        Some(path) => Args { directory: path },
        None => Args { directory: "./".to_owned() },
    }
}

} // verus!
