//! The arguments of a run.
use vstd::prelude::*;
use crate::printer::PrintFormat;

verus! {

/// What a run is asked to do.
#[derive(Debug, Clone)]
pub struct Args {
    /// The name of the dependency to search for.
    pub name: String,
    /// The directory to search in.
    pub path: String,
    /// The version requirement to filter by, if any.
    pub filter: Option<String>,
    /// The output format.
    pub output: PrintFormat,
    /// Whether to search lock files as well.
    pub deep: bool,
    /// Whether to explore with several workers.
    pub threaded: bool,
    /// Whether to follow symbolic links.
    pub symlinks: bool,
}

impl Args {
    /// The arguments of a plain search for `name`: in the current
    /// directory, unfiltered, as a table, manifests only, in one thread,
    /// links not followed.
    pub fn new(name: String) -> (args: Args)
        ensures
            args.name == name,
            args.path@ == "."@,
            args.filter is None,
            args.output == PrintFormat::Table,
            !args.deep,
            !args.threaded,
            !args.symlinks,
    {
        Args {
            name,
            path: ".".to_owned(),
            filter: None,
            output: PrintFormat::Table,
            deep: false,
            threaded: false,
            symlinks: false,
        }
    }
}

} // verus!
