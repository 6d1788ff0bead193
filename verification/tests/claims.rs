//! The claim protocol, queue files, the claim pass and the end-to-end
//! generation-and-claiming scenario.

use ci_jobqueue::claim::{ClaimSet, LockState, lock_is_stale, LOCK_TIMEOUT_SECONDS};
use ci_jobqueue::jobs::TestJob;
use ci_jobqueue::queue::{make_queue, parse_queue, u64_to_dec, parse_dec};
use ci_jobqueue::claimer::claim_pass;
use ci_jobqueue::generator::{branch_test_jobs, missing_subtests, CommitEntry};
use ci_jobqueue::namemap::NameMap;
use ci_jobqueue::records::{TestResult, DurationTable, TestStats};
use ci_jobqueue::TestStatus;

#[test]
fn at_most_one_claim_succeeds() {
    let mut cs = ClaimSet::new();
    let commit = b"c0ffee";
    let name = b"t.sub";
    let mut successes = 0;
    for _ in 0..5 {
        let (claimed, _) = cs.claim_lock(commit, name, 1000);
        if claimed {
            successes += 1;
        }
    }
    assert_eq!(successes, 1);
    assert!(cs.holds(commit, name));
    // a fresh claim is not reclaimable before the timeout
    let (held, reclaimed) = cs.check_lock(commit, name, 1000 + LOCK_TIMEOUT_SECONDS);
    assert!(held);
    assert!(!reclaimed);
}

#[test]
fn stale_reclamation_is_idempotent_and_reopens_the_claim() {
    let mut cs = ClaimSet::new();
    let commit = b"c0ffee";
    let name = b"t.sub";
    // an abandoned, empty marker from long ago
    cs.set_lock(commit, name, LockState { len: 0, mtime: 0 });
    let now = LOCK_TIMEOUT_SECONDS + 1;
    assert!(cs.reclaim_stale(commit, name, now));
    // reclaiming again changes nothing
    assert!(!cs.reclaim_stale(commit, name, now));
    assert!(!cs.holds(commit, name));
    // after reclamation exactly one of several claims succeeds
    let mut successes = 0;
    for _ in 0..4 {
        let (claimed, _) = cs.claim_lock(commit, name, now);
        if claimed {
            successes += 1;
        }
    }
    assert_eq!(successes, 1);
}

#[test]
fn nonempty_markers_are_never_stale() {
    assert!(lock_is_stale(0, 0, LOCK_TIMEOUT_SECONDS + 1));
    assert!(!lock_is_stale(0, 0, LOCK_TIMEOUT_SECONDS));
    assert!(!lock_is_stale(5, 0, LOCK_TIMEOUT_SECONDS + 1));
    let mut cs = ClaimSet::new();
    cs.set_lock(b"c", b"n", LockState { len: 12, mtime: 0 });
    assert!(!cs.reclaim_stale(b"c", b"n", u64::MAX));
    assert!(cs.holds(b"c", b"n"));
}

#[test]
fn decimal_text_roundtrip() {
    for n in [0u64, 1, 9, 10, 99, 1234567890, u64::MAX] {
        let text = u64_to_dec(n);
        assert_eq!(parse_dec(text.as_slice()), Some(n));
    }
    assert_eq!(parse_dec(b"007"), None);
    assert_eq!(parse_dec(b""), None);
    assert_eq!(parse_dec(b"12a"), None);
    assert_eq!(parse_dec(b"18446744073709551616"), None);
    assert_eq!(parse_dec(b"18446744073709551615"), Some(u64::MAX));
}

fn job(commit: &[u8], age: u64, nice: u64, sub: &[u8]) -> TestJob {
    TestJob {
        user: b"alice".to_vec(),
        branch: b"alice/main".to_vec(),
        commit: commit.to_vec(),
        age,
        nice,
        expected_duration: 100,
        test: b"fs/foo.ktest".to_vec(),
        subtest: sub.to_vec(),
    }
}

#[test]
fn queue_text_roundtrip_and_order() {
    let jobs = vec![
        job(b"cccc", 2, 0, b"s1"),
        job(b"aaaa", 0, 0, b"s1"),
        job(b"bbbb", 1, 0, b"s2"),
    ];
    let (ordered, bytes) = make_queue(jobs);
    // most urgent (lowest age + nice) last
    assert_eq!(ordered[0].commit, b"cccc".to_vec());
    assert_eq!(ordered[1].commit, b"bbbb".to_vec());
    assert_eq!(ordered[2].commit, b"aaaa".to_vec());
    let lines = parse_queue(bytes.as_slice()).expect("rendered queue must parse");
    assert_eq!(lines.len(), 3);
    assert_eq!(lines[2].commit, b"aaaa".to_vec());
    assert_eq!(lines[2].age, 0);
    assert_eq!(lines[2].branch, b"alice/main".to_vec());
    assert_eq!(lines[2].test, b"fs/foo.ktest".to_vec());
    assert_eq!(lines[2].subtest, b"s1".to_vec());
    // offsets point at line starts
    assert_eq!(lines[0].offset, 0);
    assert_eq!(bytes[lines[1].offset - 1], b'\n');
    assert!(parse_queue(b"not a queue").is_none());
    assert_eq!(parse_queue(b"").map(|l| l.len()), Some(0));
}

#[test]
fn claim_pass_takes_the_most_urgent_and_truncates() {
    let jobs = vec![
        job(b"aaaa", 0, 0, b"s1"),
        job(b"aaaa", 0, 0, b"s2"),
        job(b"bbbb", 1, 0, b"s1"),
    ];
    let (_, bytes) = make_queue(jobs);
    let lines = parse_queue(bytes.as_slice()).unwrap();
    let mut cs = ClaimSet::new();
    // a generous budget takes both subtests of the newest commit, then stops
    // at the older commit
    let (batch, dur, new_len, dirty) =
        claim_pass(&lines, bytes.len(), None, 100, 1000, &mut cs, 50, false);
    let batch = batch.expect("work was available");
    assert_eq!(batch.commit, b"aaaa".to_vec());
    assert_eq!(batch.subtests.len(), 2);
    assert_eq!(dur, 200);
    assert!(dirty.is_empty());
    // the file shrinks to exactly the unconsumed prefix
    let rest = &bytes[..new_len];
    let rest_lines = parse_queue(rest).expect("truncated queue must parse");
    assert_eq!(rest_lines.len(), 1);
    assert_eq!(rest_lines[0].commit, b"bbbb".to_vec());
    // both subtests are now claimed
    assert!(cs.holds(b"aaaa", b"fs.foo.s1"));
    assert!(cs.holds(b"aaaa", b"fs.foo.s2"));
}

#[test]
fn claim_pass_skips_contested_subtests_silently() {
    let jobs = vec![job(b"aaaa", 0, 0, b"s1"), job(b"aaaa", 0, 0, b"s2")];
    let (_, bytes) = make_queue(jobs);
    let lines = parse_queue(bytes.as_slice()).unwrap();
    // another worker already holds the most urgent (last) subtest
    let last_sub = lines.last().unwrap().subtest.clone();
    let full_last = ci_jobqueue::subtest_full_name(b"fs/foo.ktest", last_sub.as_slice());
    let mut cs2 = ClaimSet::new();
    cs2.set_lock(b"aaaa", full_last.as_slice(), LockState { len: 0, mtime: 35 });
    let (batch, _, _, dirty) = claim_pass(&lines, bytes.len(), None, 100, 1000, &mut cs2, 40, false);
    let batch = batch.expect("the other subtest is free");
    assert_eq!(batch.subtests.len(), 1);
    assert_ne!(batch.subtests[0], last_sub);
    assert!(dirty.is_empty());
}

#[test]
fn claim_pass_reclaims_stale_markers_and_reports_the_commit() {
    let jobs = vec![job(b"aaaa", 0, 0, b"s1")];
    let (_, bytes) = make_queue(jobs);
    let lines = parse_queue(bytes.as_slice()).unwrap();
    let mut cs = ClaimSet::new();
    cs.set_lock(b"aaaa", b"fs.foo.s1", LockState { len: 0, mtime: 0 });
    let now = LOCK_TIMEOUT_SECONDS + 10;
    let (batch, _, _, dirty) = claim_pass(&lines, bytes.len(), None, 100, 1000, &mut cs, now, false);
    assert!(batch.is_some());
    assert_eq!(dirty, vec![b"aaaa".to_vec()]);
}

#[test]
fn dry_run_claims_nothing() {
    let jobs = vec![job(b"aaaa", 0, 0, b"s1")];
    let (_, bytes) = make_queue(jobs);
    let lines = parse_queue(bytes.as_slice()).unwrap();
    let mut cs = ClaimSet::new();
    let (batch, _, new_len, _) = claim_pass(&lines, bytes.len(), None, 100, 1000, &mut cs, 50, true);
    assert!(batch.is_some());
    assert!(!cs.holds(b"aaaa", b"fs.foo.s1"));
    // the caller must not truncate after a dry run; the reported length still
    // names the consumed region
    assert_eq!(new_len, 0);
}

#[test]
fn empty_queue_yields_no_job() {
    let lines = parse_queue(b"").unwrap();
    let mut cs = ClaimSet::new();
    let (batch, dur, new_len, dirty) = claim_pass(&lines, 0, None, 100, 1000, &mut cs, 50, false);
    assert!(batch.is_none());
    assert_eq!(dur, 0);
    assert_eq!(new_len, 0);
    assert!(dirty.is_empty());
}

#[test]
fn generation_skips_recorded_and_claimed_work() {
    let subtests = vec![b"s1".to_vec(), b"s2".to_vec()];
    let mut results = NameMap::new();
    results.insert(
        b"fs.foo.s1".to_vec(),
        TestResult { status: TestStatus::Passed, starttime: 0, duration: 3 },
    );
    let mut cs = ClaimSet::new();
    let (missing, reclaimed) =
        missing_subtests(b"fs/foo.ktest", &subtests, &results, &mut cs, b"aaaa", 100);
    assert_eq!(missing, vec![b"s2".to_vec()]);
    assert!(!reclaimed);
    // a live claim hides the remaining subtest too
    let (claimed, _) = cs.claim_lock(b"aaaa", b"fs.foo.s2", 100);
    assert!(claimed);
    let (missing2, _) = missing_subtests(b"fs/foo.ktest", &subtests, &results, &mut cs, b"aaaa", 100);
    assert!(missing2.is_empty());
}

fn hex_commit(i: u8) -> Vec<u8> {
    let mut v = Vec::new();
    for _ in 0..40 {
        v.push(b'0' + i);
    }
    v
}

#[test]
fn five_commits_two_subtests_end_to_end() {
    // a repository with 5 commits and a test group of 2 subtests
    let subtests = vec![b"s1".to_vec(), b"s2".to_vec()];
    let mut commits = Vec::new();
    for i in 0..5 {
        commits.push(CommitEntry { commit: hex_commit(i), results: NameMap::new() });
    }
    let mut cs = ClaimSet::new();
    let now = 1_000_000;
    let (jobs, dirty) = branch_test_jobs(
        b"alice",
        b"alice/main",
        b"fs/foo.ktest",
        &subtests,
        &commits,
        0,
        10,
        180,
        None,
        100,
        &mut cs,
        now,
    );
    assert_eq!(jobs.len(), 10);
    assert!(dirty.is_empty());
    let (_, bytes) = make_queue(jobs);
    let lines = parse_queue(bytes.as_slice()).unwrap();
    assert_eq!(lines.len(), 10);
    // a budget covering one subtest's duration claims exactly one
    let (batch, dur, new_len, _) =
        claim_pass(&lines, bytes.len(), None, 100, 100, &mut cs, now, false);
    let batch = batch.expect("work is available");
    assert_eq!(batch.commit, hex_commit(0));
    assert_eq!(batch.age, 0);
    assert_eq!(batch.subtests.len(), 1);
    assert_eq!(dur, 100);
    // nine lines remain, byte-identical
    let rest = bytes[..new_len].to_vec();
    let rest_lines = parse_queue(rest.as_slice()).unwrap();
    assert_eq!(rest_lines.len(), 9);
    for (a, b) in rest_lines.iter().zip(lines.iter()) {
        assert_eq!(a.commit, b.commit);
        assert_eq!(a.subtest, b.subtest);
        assert_eq!(a.offset, b.offset);
    }
    // a second call returns the newest commit's other subtest
    let (batch2, _, new_len2, _) =
        claim_pass(&rest_lines, rest.len(), None, 100, 100, &mut cs, now, false);
    let batch2 = batch2.expect("more work is available");
    assert_eq!(batch2.commit, hex_commit(0));
    assert_eq!(batch2.subtests.len(), 1);
    assert_ne!(batch2.subtests[0], batch.subtests[0]);
    let rest2 = parse_queue(&rest[..new_len2]).unwrap();
    assert_eq!(rest2.len(), 8);
    // once results are recorded, regeneration produces fewer lines
    let mut done = NameMap::new();
    done.insert(
        b"fs.foo.s1".to_vec(),
        TestResult { status: TestStatus::Passed, starttime: 0, duration: 5 },
    );
    done.insert(
        b"fs.foo.s2".to_vec(),
        TestResult { status: TestStatus::Passed, starttime: 0, duration: 5 },
    );
    let commits2 = vec![
        CommitEntry { commit: hex_commit(0), results: done },
        CommitEntry { commit: hex_commit(1), results: NameMap::new() },
    ];
    let mut cs2 = ClaimSet::new();
    let (jobs2, _) = branch_test_jobs(
        b"alice",
        b"alice/main",
        b"fs/foo.ktest",
        &subtests,
        &commits2,
        0,
        10,
        180,
        None,
        100,
        &mut cs2,
        now,
    );
    assert_eq!(jobs2.len(), 2);
}

#[test]
fn expected_durations_come_from_the_table() {
    let mut t: DurationTable = NameMap::new();
    t.push_sorted(b"fs.foo.s1".to_vec(), TestStats { nr: 4, passed: 4, failed: 0, duration: 70 });
    let jobs = vec![job(b"aaaa", 0, 0, b"s1"), job(b"aaaa", 0, 0, b"s2")];
    let (_, bytes) = make_queue(jobs);
    let lines = parse_queue(bytes.as_slice()).unwrap();
    let mut cs = ClaimSet::new();
    // budget 100: the first subtest (whichever ends the file) is taken; with
    // s1 at 70 and the default 100 for s2, both fit only if s1 comes first
    let (batch, dur, _, _) = claim_pass(&lines, bytes.len(), Some(&t), 100, 1000, &mut cs, 5, false);
    let batch = batch.unwrap();
    assert_eq!(batch.subtests.len(), 2);
    assert_eq!(dur, 170);
}
