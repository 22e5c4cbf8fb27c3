//! Where the tool clones repositories from and works in.
use vstd::prelude::*;

verus! {

/// The settings read from `config.json`.
#[derive(Debug, Clone)]
pub struct Config {
    pub git_cloud_base_url: String,
    pub path_projects: String,
    pub work_directory: String,
}

} // verus!
