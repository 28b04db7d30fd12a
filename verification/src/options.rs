//! The settings of a run, and the search for the file that holds them.

use vstd::prelude::*;
use std::path::PathBuf;

verus! {

/// The path type of the standard library, carried through as it is.
#[verifier::external_type_specification]
#[verifier::external_body]
pub struct ExPathBuf(PathBuf);

/// The name of the configuration file.
pub const CONFIG_FILENAME: &'static str = ".timesheet";

/// The settings of a run.
#[derive(Debug)]
pub struct Opt {
    /// Merge the lines and stop: no digest.
    pub dryrun: bool,
    /// The version-control log.
    pub gitlogfile: PathBuf,
    /// The journal export.
    pub macjournalfile: PathBuf,
    /// Where the digest goes, if not to the standard output.
    pub outfile: Option<PathBuf>,
    /// Report the settings in place of the digest.
    pub verbose: bool,
}

/// Where the search for the configuration file stands. Directories are
/// counted from the starting directory, which is 0, towards the root.
#[derive(Debug, Clone, Copy, PartialEq, Eq, Structural)]
pub enum ConfigSearch {
    /// Look next into this directory.
    Probe(usize),
    /// The file is in this directory.
    Found(usize),
    /// No directory up to the root holds the file.
    Missing,
}

/// One step of the search for the configuration file, which goes from the
/// starting directory up through its `ancestors` directories, itself
/// included, and ends at the first that holds the file.
///
/// `probed` is the directory just looked into, `is_file` whether the file
/// is there. The search is over when it is; else it goes on with the parent
/// directory, if there is one.
pub fn find_config_file(ancestors: usize, probed: usize, is_file: bool) -> (next: ConfigSearch)
    ensures
        is_file ==> next == ConfigSearch::Found(probed),
        !is_file && probed + 1 < ancestors ==> next == ConfigSearch::Probe((probed + 1) as usize),
        !is_file && probed + 1 >= ancestors ==> next == ConfigSearch::Missing,
{
    if is_file {
        ConfigSearch::Found(probed)
    } else if ancestors > 0 && probed < ancestors - 1 {
        ConfigSearch::Probe(probed + 1)
    } else {
        ConfigSearch::Missing
    }
}

} // verus!
