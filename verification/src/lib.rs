//! Core logic of a continuous-integration job queue: durable test-result
//! records, historical duration statistics, per-user job generation with
//! fair scheduling, and an exactly-once claim protocol over lock markers.
//!
//! Everything here is pure logic over plain values; reading and writing the
//! files these values live in is left to the surrounding binaries.

pub mod bytes;
pub mod claim;
pub mod claimer;
pub mod codec;
pub mod durations;
pub mod config;
pub mod fairshare;
pub mod generator;
pub mod jobs;
pub mod namemap;
pub mod queue;
pub mod records;
pub mod scan;
pub mod status;
pub mod subtests;
pub mod workers;

pub use status::TestStatus;
pub use records::{
    TestResult,
    TestResultsMap,
    CommitResultSet,
    Worker,
    UserStats,
    TestStats,
    DurationTable,
};
pub use jobs::{TestJob, testjob_weight};
pub use config::{Ktestrc, CiConfig, Userrc, RcTestGroup, RcBranch};
pub use subtests::subtest_full_name;
pub use durations::test_stats;
pub use claimer::{ClaimBatch, claim_pass, commit_test_matches};
pub use claim::ClaimSet;
