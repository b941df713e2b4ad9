use std::path::PathBuf;
use vstd::prelude::*;

verus! {

/// `std::path::PathBuf`, carried as it is: nothing is said of what a path
/// holds.
#[verifier::external_type_specification]
#[verifier::external_body]
pub struct ExPathBuf(PathBuf);

/// What the command line asks for.
#[derive(Debug)]
pub struct Opt {
    /// Sort each group of duplicate files lexicographically.
    pub sort: bool,
    /// Number of worker threads; 0 leaves the choice to the thread pool.
    pub num_threads: usize,
    /// Root directory from which to start the search.
    pub root: PathBuf,
}

impl Opt {
    /// The number of worker threads to set up the thread pool with, if the
    /// command line fixes one: a count of 0 asks for the pool's own default.
    pub fn thread_override(&self) -> (count: Option<usize>)
        ensures
            count == (if self.num_threads == 0 { None } else { Some(self.num_threads) }),
    {
        if self.num_threads != 0 {
            Some(self.num_threads)
        } else {
            None
        }
    }
}

} // verus!
