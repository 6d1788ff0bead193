//! Configuration as the library sees it: the daemon settings, each user's
//! test groups and branches, and the per-user tolerance for broken entries.

use vstd::prelude::*;
use crate::namemap::NameMap;

verus! {

/// The daemon's own settings.
pub struct Ktestrc {
    pub linux_repo: String,
    pub output_dir: String,
    pub ktest_dir: String,
    pub users_dir: String,
    pub subtest_duration_max: u64,
    pub subtest_duration_def: u64,
    pub verbose: bool,
}

/// One named group of tests and its scheduling knobs.
pub struct RcTestGroup {
    pub max_commits: u64,
    pub nice: u64,
    pub test_duration_nice: u64,
    pub test_always_passes_nice: u64,
    pub tests: Vec<Vec<u8>>,
}

impl Default for RcTestGroup {
    fn default() -> (r: RcTestGroup)
        ensures
            r.max_commits == 50,
            r.nice == 0,
            r.test_duration_nice == 180,
            r.test_always_passes_nice == 10,
            r.tests@.len() == 0,
    {
        RcTestGroup {
            max_commits: 50,
            nice: 0,
            test_duration_nice: 180,
            test_always_passes_nice: 10,
            tests: Vec::new(),
        }
    }
}

/// One tracked branch: where to fetch it from and which test groups run on
/// it.
pub struct RcBranch {
    pub fetch: String,
    pub tests: Vec<Vec<u8>>,
}

/// One user's configuration.
pub struct Userrc {
    pub test_group: NameMap<RcTestGroup>,
    pub branch: NameMap<RcBranch>,
}

/// The full deployment configuration: the daemon settings, and each user's
/// configuration or the reason it failed to parse (a broken user is skipped,
/// not fatal).
pub struct CiConfig {
    pub ktest: Ktestrc,
    pub users: Vec<(Vec<u8>, Result<Userrc, String>)>,
}

} // verus!
