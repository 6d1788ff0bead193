//! Status markers, subtest names, the binary record files, and the result
//! scan.

use ci_jobqueue::TestStatus;
use ci_jobqueue::subtests::subtest_full_name;
use ci_jobqueue::namemap::NameMap;
use ci_jobqueue::records::{
    TestResult, CommitResultSet, Worker, UserStats, TestStats, DurationTable, encode_commit,
    decode_commit, encode_workers, decode_workers, encode_user_stats, decode_user_stats,
    encode_durations, decode_durations,
};
use ci_jobqueue::scan::{ScanEntry, results_from_scan, set_message, duration_of};
use ci_jobqueue::durations::test_stats;

#[test]
fn status_from_marker_text() {
    assert_eq!(TestStatus::from_str(b""), TestStatus::Inprogress);
    assert_eq!(TestStatus::from_str(b"IN PROGRESS"), TestStatus::Inprogress);
    assert_eq!(TestStatus::from_str(b"test PASSED ok"), TestStatus::Passed);
    assert_eq!(TestStatus::from_str(b"FAILED"), TestStatus::Failed);
    assert_eq!(TestStatus::from_str(b"NOTRUN"), TestStatus::Notrun);
    assert_eq!(TestStatus::from_str(b"NOT STARTED"), TestStatus::Notstarted);
    assert_eq!(TestStatus::from_str(b"something else"), TestStatus::Unknown);
    // the keyword checks run in a fixed order: PASSED wins over FAILED
    assert_eq!(TestStatus::from_str(b"FAILED then PASSED"), TestStatus::Passed);
    // an empty marker means claimed but unreported, like IN PROGRESS
    assert_eq!(TestStatus::from_str(b"x IN PROGRESS x"), TestStatus::Inprogress);
}

#[test]
fn status_labels() {
    assert_eq!(TestStatus::Passed.to_str(), "Passed");
    assert_eq!(TestStatus::Inprogress.to_str(), "In progress");
    assert_eq!(TestStatus::Notstarted.to_str(), "Not started");
    assert_eq!(TestStatus::Passed.table_class(), "table-success");
    assert_eq!(TestStatus::Failed.table_class(), "table-danger");
    assert_eq!(TestStatus::Unknown.table_class(), "table-secondary");
}

#[test]
fn full_names_are_dotted() {
    assert_eq!(
        subtest_full_name(b"fs/bcachefs.ktest", b"snapshots/repro"),
        b"fs.bcachefs.snapshots.repro".to_vec()
    );
    assert_eq!(subtest_full_name(b"single.ktest", b"sub"), b"single.sub".to_vec());
    assert_eq!(subtest_full_name(b"noext", b"s"), b"noext.s".to_vec());
}

fn sample_commit() -> CommitResultSet {
    let mut results = NameMap::new();
    results.insert(
        b"t.alpha".to_vec(),
        TestResult { status: TestStatus::Passed, starttime: 1700000000, duration: 42 },
    );
    results.insert(
        b"t.beta".to_vec(),
        TestResult { status: TestStatus::Failed, starttime: 1700000100, duration: 7 },
    );
    CommitResultSet {
        commit_id: b"0123456789abcdef0123456789abcdef01234567".to_vec(),
        message: b"fix the frobnicator\n\nlong body".to_vec(),
        results,
    }
}

#[test]
fn commit_record_roundtrip() {
    let c = sample_commit();
    let bytes = encode_commit(&c);
    let d = decode_commit(bytes.as_slice()).expect("canonical record must decode");
    assert_eq!(d.commit_id, c.commit_id);
    assert_eq!(d.message, c.message);
    assert_eq!(d.results.len(), 2);
    let a = d.results.get(b"t.alpha").expect("alpha present");
    assert_eq!(a.status, TestStatus::Passed);
    assert_eq!(a.starttime, 1700000000);
    assert_eq!(a.duration, 42);
    let b = d.results.get(b"t.beta").expect("beta present");
    assert_eq!(b.status, TestStatus::Failed);
    assert_eq!(b.duration, 7);
}

#[test]
fn commit_record_rejects_corrupt_input() {
    assert!(decode_commit(b"").is_none());
    assert!(decode_commit(b"garbage").is_none());
    let c = sample_commit();
    let mut bytes = encode_commit(&c);
    bytes.pop();
    assert!(decode_commit(bytes.as_slice()).is_none());
    let mut extra = encode_commit(&c);
    extra.push(0);
    assert!(decode_commit(extra.as_slice()).is_none());
}

#[test]
fn worker_registry_roundtrip() {
    let ws = vec![
        Worker {
            hostname: b"host1".to_vec(),
            workdir: b"w0".to_vec(),
            user: b"alice".to_vec(),
            branch: b"alice/main".to_vec(),
            commit: b"deadbeef".to_vec(),
            tests: b"fs/foo a b".to_vec(),
            starttime: 1700000000,
            age: 3,
        },
        Worker {
            hostname: b"host2".to_vec(),
            workdir: b"w1".to_vec(),
            user: Vec::new(),
            branch: Vec::new(),
            commit: Vec::new(),
            tests: Vec::new(),
            starttime: 1700000500,
            age: 0,
        },
    ];
    let bytes = encode_workers(&ws);
    let d = decode_workers(bytes.as_slice()).expect("registry must decode");
    assert_eq!(d.len(), 2);
    assert_eq!(d[0].hostname, ws[0].hostname);
    assert_eq!(d[0].workdir, ws[0].workdir);
    assert_eq!(d[0].user, ws[0].user);
    assert_eq!(d[0].branch, ws[0].branch);
    assert_eq!(d[0].commit, ws[0].commit);
    assert_eq!(d[0].tests, ws[0].tests);
    assert_eq!(d[0].starttime, ws[0].starttime);
    assert_eq!(d[0].age, ws[0].age);
    assert_eq!(d[1].hostname, ws[1].hostname);
    assert_eq!(d[1].tests, ws[1].tests);
}

#[test]
fn user_stats_roundtrip() {
    let us = vec![
        UserStats {
            user: b"alice".to_vec(),
            total_seconds: 100000,
            recent_seconds: 1234,
            last_updated: 1700000000,
        },
        UserStats { user: b"bob".to_vec(), total_seconds: 0, recent_seconds: 0, last_updated: 0 },
    ];
    let bytes = encode_user_stats(&us);
    let d = decode_user_stats(bytes.as_slice()).expect("stats must decode");
    assert_eq!(d.len(), 2);
    assert_eq!(d[0].user, us[0].user);
    assert_eq!(d[0].total_seconds, 100000);
    assert_eq!(d[0].recent_seconds, 1234);
    assert_eq!(d[0].last_updated, 1700000000);
    assert_eq!(d[1].user, us[1].user);
}

#[test]
fn duration_table_roundtrip_and_corruption() {
    let mut t: DurationTable = NameMap::new();
    t.push_sorted(b"a.first".to_vec(), TestStats { nr: 10, passed: 9, failed: 1, duration: 30 });
    t.push_sorted(b"m.middle".to_vec(), TestStats { nr: 5, passed: 5, failed: 0, duration: 60 });
    t.push_sorted(b"z.last".to_vec(), TestStats { nr: 1, passed: 0, failed: 1, duration: 600 });
    let bytes = encode_durations(&t);
    let d = decode_durations(bytes.as_slice()).expect("table must decode");
    assert_eq!(d.len(), 3);
    assert_eq!(*d.get(b"m.middle").unwrap(), TestStats { nr: 5, passed: 5, failed: 0, duration: 60 });
    assert!(decode_durations(b"junk").is_none());
}

#[test]
fn duration_lookup_hits_every_present_key_and_no_other() {
    // table keys are fully qualified names, as `test_stats` builds them
    let mut t: DurationTable = NameMap::new();
    t.push_sorted(b"t.a".to_vec(), TestStats { nr: 1, passed: 1, failed: 0, duration: 11 });
    t.push_sorted(b"t.b".to_vec(), TestStats { nr: 2, passed: 1, failed: 1, duration: 22 });
    t.push_sorted(b"t.z".to_vec(), TestStats { nr: 3, passed: 0, failed: 3, duration: 33 });
    // first, middle and last keys are all found
    assert_eq!(test_stats(Some(&t), b"t.ktest", b"a").unwrap().duration, 11);
    assert_eq!(test_stats(Some(&t), b"t.ktest", b"b").unwrap().duration, 22);
    assert_eq!(test_stats(Some(&t), b"t.ktest", b"z").unwrap().duration, 33);
    // keys before the first, between entries and after the last are absent
    assert!(test_stats(Some(&t), b"t.ktest", b"0").is_none());
    assert!(test_stats(Some(&t), b"t.ktest", b"c").is_none());
    assert!(test_stats(Some(&t), b"t.ktest", b"zz").is_none());
    // no table means no statistics
    assert!(test_stats(None, b"t.ktest", b"a").is_none());
}

#[test]
fn scan_builds_results() {
    let entries = vec![
        ScanEntry {
            name: b"t.one".to_vec(),
            status_text: b"PASSED".to_vec(),
            duration_text: Some(b"12".to_vec()),
            mtime: 1000,
        },
        ScanEntry {
            name: b"t.two".to_vec(),
            status_text: b"".to_vec(),
            duration_text: None,
            mtime: 2000,
        },
        // a second observation of t.one wins over the first
        ScanEntry {
            name: b"t.one".to_vec(),
            status_text: b"FAILED".to_vec(),
            duration_text: Some(b"nonsense".to_vec()),
            mtime: 3000,
        },
    ];
    let r = results_from_scan(entries);
    assert_eq!(r.len(), 2);
    let one = r.get(b"t.one").unwrap();
    assert_eq!(one.status, TestStatus::Failed);
    assert_eq!(one.duration, 0);
    assert_eq!(one.starttime, 3000);
    let two = r.get(b"t.two").unwrap();
    assert_eq!(two.status, TestStatus::Inprogress);
    assert_eq!(two.duration, 0);
}

#[test]
fn duration_sidecar_parsing() {
    assert_eq!(duration_of(Some(&b"0".to_vec())), 0);
    assert_eq!(duration_of(Some(&b"007".to_vec())), 7);
    assert_eq!(duration_of(Some(&b"1234".to_vec())), 1234);
    assert_eq!(duration_of(Some(&b"12x".to_vec())), 0);
    assert_eq!(duration_of(Some(&b"".to_vec())), 0);
    assert_eq!(duration_of(Some(&b"99999999999999999999999".to_vec())), 0);
    assert_eq!(duration_of(None), 0);
}

#[test]
fn set_message_touches_only_the_message() {
    let mut c = sample_commit();
    let old_id = c.commit_id.clone();
    set_message(&mut c, b"new subject".to_vec());
    assert_eq!(c.commit_id, old_id);
    assert_eq!(c.message, b"new subject".to_vec());
    assert_eq!(c.results.len(), 2);
}
