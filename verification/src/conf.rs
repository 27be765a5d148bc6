//! The configuration of the server.

use vstd::prelude::*;
use std::path::PathBuf;

verus! {

/// A path of the file system (`std::path::PathBuf`, carried as it is).
#[verifier::external_type_specification]
#[verifier::external_body]
pub struct ExPathBuf(PathBuf);

/// Where the log files are, and the `log_format` their lines follow.
#[derive(Debug)]
pub struct Config {
    pub base_dir: PathBuf,
    pub format: String,
}

impl Config {
    pub fn base_dir(&self) -> (r: &PathBuf)
        ensures
            *r == self.base_dir,
    {
        &self.base_dir
    }
}

} // verus!
