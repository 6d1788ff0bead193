//! Fair-share decay and selection, nice composition, accounting updates, and
//! the worker registry.

use ci_jobqueue::fairshare::{
    decay, HALFLIFE_SECONDS, select_user, user_stats_update, user_stats_recent, UserChoice,
};
use ci_jobqueue::records::{UserStats, Worker, TestStats};
use ci_jobqueue::jobs::{TestJob, testjob_weight, job_nice, have_result, INPROGRESS_TIMEOUT_SECONDS};
use ci_jobqueue::workers::workers_update_list;
use ci_jobqueue::namemap::NameMap;
use ci_jobqueue::records::TestResult;
use ci_jobqueue::TestStatus;
use ci_jobqueue::durations::{accumulate_durations, durations_from_sums, DurationAcc};

#[test]
fn decay_of_one_halflife_is_half() {
    assert_eq!(decay(1000, 0, HALFLIFE_SECONDS), 500);
    assert_eq!(decay(1001, 0, HALFLIFE_SECONDS), 500);
    assert_eq!(decay(u64::MAX, 0, HALFLIFE_SECONDS), u64::MAX / 2);
}

#[test]
fn decay_identity_and_interpolation() {
    assert_eq!(decay(1000, 500, 500), 1000);
    assert_eq!(decay(1000, 500, 100), 1000);
    // halfway into a half-life the linear interpolation gives three quarters
    assert_eq!(decay(1000, 0, HALFLIFE_SECONDS / 2), 750);
    // two whole half-lives: a quarter
    assert_eq!(decay(1000, 0, 2 * HALFLIFE_SECONDS), 250);
}

#[test]
fn decay_converges_to_zero() {
    assert_eq!(decay(u64::MAX, 0, 64 * HALFLIFE_SECONDS), 0);
    assert_eq!(decay(123, 0, 64 * HALFLIFE_SECONDS + 5), 0);
    let mut x = 1_000_000u64;
    let mut t = 0u64;
    for _ in 0..30 {
        let x2 = decay(x, t, t + HALFLIFE_SECONDS);
        assert!(x2 <= x);
        x = x2;
        t += HALFLIFE_SECONDS;
    }
    assert_eq!(x, 0);
}

#[test]
fn new_users_win_selection_and_ties_go_first() {
    let stats = vec![
        UserStats {
            user: b"busy".to_vec(),
            total_seconds: 100000,
            recent_seconds: 5000,
            last_updated: 1000,
        },
        UserStats {
            user: b"idle".to_vec(),
            total_seconds: 100000,
            recent_seconds: 0,
            last_updated: 1000,
        },
    ];
    let avail = vec![
        UserChoice { user: b"busy".to_vec(), nice_tenths: 0 },
        UserChoice { user: b"idle".to_vec(), nice_tenths: 0 },
        UserChoice { user: b"newcomer".to_vec(), nice_tenths: 0 },
    ];
    // idle (0) ties with newcomer (0); the first of the two wins
    assert_eq!(select_user(&avail, &stats, 2000), Some(1));
    let only_busy = vec![UserChoice { user: b"busy".to_vec(), nice_tenths: 0 }];
    assert_eq!(select_user(&only_busy, &stats, 2000), Some(0));
    assert_eq!(select_user(&Vec::new(), &stats, 2000), None);
}

#[test]
fn nice_override_scales_effective_runtime() {
    let stats = vec![
        UserStats { user: b"a".to_vec(), total_seconds: 0, recent_seconds: 100, last_updated: 0 },
        UserStats { user: b"b".to_vec(), total_seconds: 0, recent_seconds: 150, last_updated: 0 },
    ];
    // without overrides, a (100) beats b (150)
    let plain = vec![
        UserChoice { user: b"b".to_vec(), nice_tenths: 0 },
        UserChoice { user: b"a".to_vec(), nice_tenths: 0 },
    ];
    assert_eq!(select_user(&plain, &stats, 0), Some(1));
    // a nice override of +10 tenths doubles a's effective runtime: b wins
    let tilted = vec![
        UserChoice { user: b"b".to_vec(), nice_tenths: 0 },
        UserChoice { user: b"a".to_vec(), nice_tenths: 10 },
    ];
    assert_eq!(select_user(&tilted, &stats, 0), Some(0));
}

#[test]
fn accounting_updates_decay_then_add() {
    let mut list = vec![
        UserStats {
            user: b"alice".to_vec(),
            total_seconds: 1000,
            recent_seconds: 800,
            last_updated: 0,
        },
    ];
    // one half-life later alice's 800 has decayed to 400, then 100 is added
    user_stats_update(&mut list, b"alice".to_vec(), 100, HALFLIFE_SECONDS);
    assert_eq!(list.len(), 1);
    assert_eq!(list[0].total_seconds, 1100);
    assert_eq!(list[0].recent_seconds, 500);
    assert_eq!(list[0].last_updated, HALFLIFE_SECONDS);
    // a new user starts fresh
    user_stats_update(&mut list, b"bob".to_vec(), 60, HALFLIFE_SECONDS);
    assert_eq!(list.len(), 2);
    assert_eq!(list[1].user, b"bob".to_vec());
    assert_eq!(list[1].total_seconds, 60);
    assert_eq!(list[1].recent_seconds, 60);
    // reading the recent runtime decays it as of the query time
    assert_eq!(user_stats_recent(&list[0], 2 * HALFLIFE_SECONDS), 250);
}

#[test]
fn job_weight_and_nice_composition() {
    let j = TestJob {
        user: b"u".to_vec(),
        branch: b"br".to_vec(),
        commit: b"c".to_vec(),
        age: 7,
        nice: 5,
        expected_duration: 0,
        test: b"t".to_vec(),
        subtest: b"s".to_vec(),
    };
    assert_eq!(testjob_weight(&j), 12);
    // enough one-sided history earns the always-passes penalty, and the
    // average duration adds its scaled share
    let steady = TestStats { nr: 20, passed: 20, failed: 0, duration: 360 };
    assert_eq!(job_nice(5, 10, 180, Some(steady)), 5 + 10 + 2);
    // a flaky test (both passes and failures) is not penalized
    let flaky = TestStats { nr: 20, passed: 10, failed: 10, duration: 360 };
    assert_eq!(job_nice(5, 10, 180, Some(flaky)), 5 + 2);
    // too little history: no always-passes penalty
    let sparse = TestStats { nr: 5, passed: 5, failed: 0, duration: 0 };
    assert_eq!(job_nice(5, 10, 180, Some(sparse)), 5);
    // no statistics at all: the base nice stands
    assert_eq!(job_nice(5, 10, 180, None), 5);
    // a zero duration divisor disables the duration share
    assert_eq!(job_nice(5, 10, 0, Some(steady)), 15);
}

#[test]
fn have_result_honours_the_in_progress_timeout() {
    let mut results = NameMap::new();
    results.insert(
        b"t.old".to_vec(),
        TestResult { status: TestStatus::Inprogress, starttime: 0, duration: 0 },
    );
    results.insert(
        b"t.young".to_vec(),
        TestResult { status: TestStatus::Inprogress, starttime: 10_000, duration: 0 },
    );
    results.insert(
        b"t.done".to_vec(),
        TestResult { status: TestStatus::Passed, starttime: 0, duration: 5 },
    );
    let now = 10_000 + INPROGRESS_TIMEOUT_SECONDS - 1;
    assert!(!have_result(&results, b"t.old", now));
    assert!(have_result(&results, b"t.young", now));
    assert!(have_result(&results, b"t.done", now));
    assert!(!have_result(&results, b"t.absent", now));
}

#[test]
fn heartbeat_replaces_its_slot_only() {
    let w = |host: &[u8], dir: &[u8], tests: &[u8]| Worker {
        hostname: host.to_vec(),
        workdir: dir.to_vec(),
        user: Vec::new(),
        branch: Vec::new(),
        commit: Vec::new(),
        tests: tests.to_vec(),
        starttime: 0,
        age: 0,
    };
    let ws = vec![w(b"h1", b"a", b"one"), w(b"h1", b"b", b"two"), w(b"h2", b"a", b"three")];
    let updated = workers_update_list(ws, w(b"h1", b"b", b"fresh"));
    assert_eq!(updated.len(), 3);
    assert_eq!(updated[0].tests, b"one".to_vec());
    assert_eq!(updated[1].tests, b"three".to_vec());
    assert_eq!(updated[2].hostname, b"h1".to_vec());
    assert_eq!(updated[2].workdir, b"b".to_vec());
    assert_eq!(updated[2].tests, b"fresh".to_vec());
}

#[test]
fn duration_rebuild_accumulates_and_averages() {
    let mut acc: NameMap<DurationAcc> = NameMap::new();
    let mut c1 = NameMap::new();
    c1.insert(b"t.x".to_vec(), TestResult { status: TestStatus::Passed, starttime: 0, duration: 10 });
    c1.insert(b"t.y".to_vec(), TestResult { status: TestStatus::Failed, starttime: 0, duration: 50 });
    let mut c2 = NameMap::new();
    c2.insert(b"t.x".to_vec(), TestResult { status: TestStatus::Passed, starttime: 0, duration: 21 });
    accumulate_durations(&mut acc, &c1);
    accumulate_durations(&mut acc, &c2);
    let table = durations_from_sums(&acc);
    assert_eq!(table.len(), 2);
    let x = table.get(b"t.x").unwrap();
    assert_eq!(x.nr, 2);
    assert_eq!(x.passed, 2);
    assert_eq!(x.failed, 0);
    assert_eq!(x.duration, 15);
    let y = table.get(b"t.y").unwrap();
    assert_eq!(y.nr, 1);
    assert_eq!(y.failed, 1);
    assert_eq!(y.duration, 50);
}
