//! The durable record types and their binary file images: per-commit test
//! results, the worker registry, per-user fair-share accounting, and the
//! historical duration table.  Each type has a canonical row image; a file
//! decodes successfully exactly when it is such a canonical image.

use vstd::prelude::*;
use vstd::slice::slice_to_vec;
use crate::status::TestStatus;
use crate::namemap::{NameMap, keys_sorted};
use crate::bytes::{lex_lt, cmp_bytes, Cmp};
use crate::codec::{
    RowV,
    Row,
    rows_vw,
    senc_rows,
    sdec_rows,
    encode_rows,
    parse_rows,
    rows_wf,
    lemma_rt_rows,
};

verus! {

// --------------------------------------------------------------- statuses

/// Wire code of a status.
pub open spec fn status_code(st: TestStatus) -> u64 {
    match st {
        TestStatus::Inprogress => 0,
        TestStatus::Passed => 1,
        TestStatus::Failed => 2,
        TestStatus::Notrun => 3,
        TestStatus::Notstarted => 4,
        TestStatus::Unknown => 5,
    }
}

pub open spec fn spec_status_from_code(c: u64) -> Option<TestStatus> {
    if c == 0 {
        Some(TestStatus::Inprogress)
    } else if c == 1 {
        Some(TestStatus::Passed)
    } else if c == 2 {
        Some(TestStatus::Failed)
    } else if c == 3 {
        Some(TestStatus::Notrun)
    } else if c == 4 {
        Some(TestStatus::Notstarted)
    } else if c == 5 {
        Some(TestStatus::Unknown)
    } else {
        None
    }
}

pub fn code_of_status(st: TestStatus) -> (c: u64)
    ensures
        c == status_code(st),
        spec_status_from_code(c) == Some(st),
{
    match st {
        TestStatus::Inprogress => 0,
        TestStatus::Passed => 1,
        TestStatus::Failed => 2,
        TestStatus::Notrun => 3,
        TestStatus::Notstarted => 4,
        TestStatus::Unknown => 5,
    }
}

pub fn status_from_code(c: u64) -> (r: Option<TestStatus>)
    ensures
        r == spec_status_from_code(c),
{
    if c == 0 {
        Some(TestStatus::Inprogress)
    } else if c == 1 {
        Some(TestStatus::Passed)
    } else if c == 2 {
        Some(TestStatus::Failed)
    } else if c == 3 {
        Some(TestStatus::Notrun)
    } else if c == 4 {
        Some(TestStatus::Notstarted)
    } else if c == 5 {
        Some(TestStatus::Unknown)
    } else {
        None
    }
}

// --------------------------------------------------------- commit results

/// Outcome of one subtest: status, start time (seconds since the epoch) and
/// duration in seconds.
#[derive(Clone, Copy, Debug, PartialEq, Eq, Structural)]
pub struct TestResult {
    pub status: TestStatus,
    pub starttime: u64,
    pub duration: u64,
}

/// All known results of one commit, keyed by fully qualified subtest name.
pub type TestResultsMap = NameMap<TestResult>;

/// Everything the result store keeps for one commit.
pub struct CommitResultSet {
    pub commit_id: Vec<u8>,
    pub message: Vec<u8>,
    pub results: TestResultsMap,
}

/// Row image of one result entry.
pub open spec fn entry_row(e: (Seq<u8>, TestResult)) -> RowV {
    (seq![e.0], seq![status_code(e.1.status), e.1.duration, e.1.starttime])
}

/// Row image of a whole commit record: a header row carrying the commit id
/// and message, then one row per result in name order.
pub open spec fn commit_rows(cid: Seq<u8>, msg: Seq<u8>, entries: Seq<(Seq<u8>, TestResult)>) -> Seq<
    RowV,
> {
    seq![(seq![cid, msg], Seq::<u64>::empty())] + entries.map_values(|e: (Seq<u8>, TestResult)| entry_row(e))
}

pub open spec fn entry_shaped(r: RowV) -> bool {
    &&& r.0.len() == 1
    &&& r.1.len() == 3
    &&& spec_status_from_code(r.1[0]) is Some
}

/// The shape a row set must have to be a canonical commit record.
pub open spec fn commit_shaped(rows: Seq<RowV>) -> bool {
    &&& rows.len() >= 1
    &&& rows[0].0.len() == 2
    &&& rows[0].1.len() == 0
    &&& forall|i: int| 1 <= i < rows.len() ==> entry_shaped(#[trigger] rows[i])
    &&& forall|i: int| 2 <= i < rows.len() ==> lex_lt(rows[i - 1].0[0], #[trigger] rows[i].0[0])
}

/// Serialize a commit record.
pub fn encode_commit(c: &CommitResultSet) -> (out: Vec<u8>)
    ensures
        out@ == senc_rows(commit_rows(c.commit_id@, c.message@, c.results@)),
{
    let ghost target = commit_rows(c.commit_id@, c.message@, c.results@);
    let ghost entries = c.results@;
    let mut rows: Vec<Row> = Vec::new();
    let header = Row {
        strs: vec![slice_to_vec(c.commit_id.as_slice()), slice_to_vec(c.message.as_slice())],
        nums: Vec::new(),
    };
    proof {
        assert(header@.0 =~~= seq![c.commit_id@, c.message@]);
        assert(header@.1 =~= Seq::<u64>::empty());
    }
    rows.push(header);
    let n = c.results.len();
    let mut i: usize = 0;
    while i < n
        invariant
            n == entries.len(),
            entries == c.results@,
            target == commit_rows(c.commit_id@, c.message@, entries),
            i <= n,
            rows_vw(rows@) =~= target.take(i + 1),
        decreases n - i,
    {
        let (name, res) = c.results.entry_at(i);
        let row = Row {
            strs: vec![slice_to_vec(name.as_slice())],
            nums: vec![code_of_status(res.status), res.duration, res.starttime],
        };
        proof {
            assert(row@.0 =~~= seq![entries[i as int].0]);
            assert(row@.1 =~= seq![
                status_code(entries[i as int].1.status),
                entries[i as int].1.duration,
                entries[i as int].1.starttime,
            ]);
            assert(row@ == entry_row(entries[i as int]));
        }
        let ghost prev = rows_vw(rows@);
        let ghost rowv = row@;
        rows.push(row);
        proof {
            assert(rows_vw(rows@) =~= prev.push(rowv));
            assert(target[i + 1] == entries.map_values(
                |e: (Seq<u8>, TestResult)| entry_row(e),
            )[i as int]);
            assert(target[i + 1] == rowv);
            assert(target.take(i + 2) =~= target.take(i + 1).push(target[i + 1]));
            assert(rows_vw(rows@) =~= target.take(i + 2));
        }
        i += 1;
    }
    proof {
        assert(target.take(n + 1) =~= target);
    }
    encode_rows(&rows)
}

/// Deserialize a commit record; `None` exactly when the bytes are not a
/// canonical commit record image.
pub fn decode_commit(b: &[u8]) -> (r: Option<CommitResultSet>)
    ensures
        match r {
            Some(c) => c.results.wf() && sdec_rows(b@) == Some(
                commit_rows(c.commit_id@, c.message@, c.results@),
            ),
            None => match sdec_rows(b@) {
                None => true,
                Some(rows) => !commit_shaped(rows),
            },
        },
{
    let rows = match parse_rows(b) {
        None => {
            return None;
        },
        Some(rows) => rows,
    };
    let ghost rv = rows_vw(rows@);
    let n = rows.len();
    if n == 0 {
        return None;
    }
    {
        let header = &rows[0];
        if header.strs.len() != 2 || header.nums.len() != 0 {
            return None;
        }
    }
    let commit_id = slice_to_vec(rows[0].strs[0].as_slice());
    let message = slice_to_vec(rows[0].strs[1].as_slice());
    let mut results: TestResultsMap = NameMap::new();
    let mut i: usize = 1;
    while i < n
        invariant
            rv == rows_vw(rows@),
            n == rows@.len(),
            n == rv.len(),
            sdec_rows(b@) == Some(rv),
            1 <= i <= n,
            results.wf(),
            results@.len() == i - 1,
            forall|j: int| 1 <= j < i ==> rv[j] == entry_row(#[trigger] results@[j - 1]),
            forall|j: int| 1 <= j < i ==> entry_shaped(#[trigger] rv[j]),
            forall|j: int| 2 <= j < i ==> lex_lt(rv[j - 1].0[0], #[trigger] rv[j].0[0]),
        decreases n - i,
    {
        let row = &rows[i];
        if row.strs.len() != 1 || row.nums.len() != 3 {
            proof {
                assert(rv[i as int] == rows@[i as int]@);
                assert(!entry_shaped(rv[i as int]));
            }
            return None;
        }
        let status = match status_from_code(row.nums[0]) {
            None => {
                proof {
                    assert(rv[i as int] == rows@[i as int]@);
                    assert(!entry_shaped(rv[i as int]));
                }
                return None;
            },
            Some(st) => st,
        };
        let name = &row.strs[0];
        proof {
            assert(rv[i as int] == rows@[i as int]@);
            assert(rv[i as int].0[0] == name@);
        }
        if results.len() > 0 {
            let last = results.len() - 1;
            let (last_name, _) = results.entry_at(last);
            match cmp_bytes(last_name.as_slice(), name.as_slice()) {
                Cmp::Lt => {},
                _ => {
                    proof {
                        assert(rv[i - 1] == entry_row(results@[i - 2]));
                        assert(rv[i - 1].0[0] == results@[i - 2].0);
                        assert(!lex_lt(rv[i - 1].0[0], rv[i as int].0[0]));
                    }
                    return None;
                },
            }
        }
        let res = TestResult { status, duration: row.nums[1], starttime: row.nums[2] };
        let ghost pre = results@;
        results.push_sorted(slice_to_vec(name.as_slice()), res);
        proof {
            assert(results@[i - 1] == (name@, res));
            assert(entry_row((name@, res)).0 =~~= rv[i as int].0);
            assert(entry_row((name@, res)).1 =~= rv[i as int].1);
            assert(rv[i as int] == entry_row(results@[i - 1]));
        }
        i += 1;
    }
    proof {
        let entries = results@;
        let target = commit_rows(commit_id@, message@, entries);
        assert(rv[0].0 =~~= seq![commit_id@, message@]);
        assert(rv[0].1 =~= Seq::<u64>::empty());
        assert(rv =~= target) by {
            assert(target[0] == (seq![commit_id@, message@], Seq::<u64>::empty()));
            assert(forall|j: int|
                1 <= j < rv.len() ==> target[j] == entry_row(#[trigger] entries[j - 1]));
        }
    }
    Some(CommitResultSet { commit_id, message, results })
}

/// Decoding inverts encoding for every commit record.
pub proof fn lemma_commit_roundtrip(cid: Seq<u8>, msg: Seq<u8>, entries: Seq<(Seq<u8>, TestResult)>)
    requires
        cid.len() <= u64::MAX,
        msg.len() <= u64::MAX,
        entries.len() < u64::MAX,
        forall|i: int| 0 <= i < entries.len() ==> (#[trigger] entries[i]).0.len() <= u64::MAX,
        keys_sorted(entries),
    ensures
        sdec_rows(senc_rows(commit_rows(cid, msg, entries))) == Some(commit_rows(cid, msg, entries)),
        commit_shaped(commit_rows(cid, msg, entries)),
{
    let rows = commit_rows(cid, msg, entries);
    let emap = entries.map_values(|e: (Seq<u8>, TestResult)| entry_row(e));
    assert(rows_wf(rows)) by {
        assert(rows.len() == entries.len() + 1);
        assert forall|i: int| 0 <= i < rows.len() implies crate::codec::row_wf(#[trigger] rows[i]) by {
            if i == 0 {
                assert(rows[0] == (seq![cid, msg], Seq::<u64>::empty()));
                assert(rows[0].0[0] == cid);
                assert(rows[0].0[1] == msg);
                assert(forall|j: int| 0 <= j < 2 ==> crate::codec::blob_wf(#[trigger] rows[0].0[j]));
            } else {
                assert(rows[i] == emap[i - 1]);
                assert(emap[i - 1] == entry_row(entries[i - 1]));
                assert(rows[i].0[0] == entries[i - 1].0);
                assert(forall|j: int| 0 <= j < 1 ==> crate::codec::blob_wf(#[trigger] rows[i].0[j]));
            }
        }
    }
    lemma_rt_rows(rows);
    assert(commit_shaped(rows)) by {
        assert forall|i: int| 1 <= i < rows.len() implies entry_shaped(#[trigger] rows[i]) by {
            assert(rows[i] == entry_row(entries[i - 1]));
        }
        assert forall|i: int| 2 <= i < rows.len() implies lex_lt(
            rows[i - 1].0[0],
            #[trigger] rows[i].0[0],
        ) by {
            assert(rows[i] == entry_row(entries[i - 1]));
            assert(rows[i - 1] == entry_row(entries[i - 2]));
            assert(lex_lt(entries[i - 2].0, entries[i - 1].0));
        }
    }
}

} // verus!

verus! {

// --------------------------------------------------------- worker registry

/// One worker slot's heartbeat: what this (hostname, workdir) is doing now.
pub struct Worker {
    pub hostname: Vec<u8>,
    pub workdir: Vec<u8>,
    pub user: Vec<u8>,
    pub branch: Vec<u8>,
    pub commit: Vec<u8>,
    pub tests: Vec<u8>,
    pub starttime: u64,
    pub age: u64,
}

/// Row image of one worker record.
pub open spec fn worker_row(w: Worker) -> RowV {
    (
        seq![w.hostname@, w.workdir@, w.user@, w.branch@, w.commit@, w.tests@],
        seq![w.starttime, w.age],
    )
}

pub open spec fn workers_rows(ws: Seq<Worker>) -> Seq<RowV> {
    ws.map_values(|w: Worker| worker_row(w))
}

pub open spec fn worker_shaped(r: RowV) -> bool {
    r.0.len() == 6 && r.1.len() == 2
}

pub open spec fn workers_shaped(rows: Seq<RowV>) -> bool {
    forall|i: int| 0 <= i < rows.len() ==> worker_shaped(#[trigger] rows[i])
}

pub open spec fn worker_wf(w: Worker) -> bool {
    &&& w.hostname@.len() <= u64::MAX
    &&& w.workdir@.len() <= u64::MAX
    &&& w.user@.len() <= u64::MAX
    &&& w.branch@.len() <= u64::MAX
    &&& w.commit@.len() <= u64::MAX
    &&& w.tests@.len() <= u64::MAX
}

/// Serialize the worker registry.
pub fn encode_workers(ws: &Vec<Worker>) -> (out: Vec<u8>)
    ensures
        out@ == senc_rows(workers_rows(ws@)),
{
    let ghost target = workers_rows(ws@);
    let mut rows: Vec<Row> = Vec::new();
    let mut i: usize = 0;
    while i < ws.len()
        invariant
            target == workers_rows(ws@),
            target.len() == ws@.len(),
            i <= ws@.len(),
            rows_vw(rows@) =~= target.take(i as int),
        decreases ws@.len() - i,
    {
        let w = &ws[i];
        let row = Row {
            strs: vec![
                slice_to_vec(w.hostname.as_slice()),
                slice_to_vec(w.workdir.as_slice()),
                slice_to_vec(w.user.as_slice()),
                slice_to_vec(w.branch.as_slice()),
                slice_to_vec(w.commit.as_slice()),
                slice_to_vec(w.tests.as_slice()),
            ],
            nums: vec![w.starttime, w.age],
        };
        proof {
            assert(row@.0 =~~= worker_row(ws@[i as int]).0);
            assert(row@.1 =~= worker_row(ws@[i as int]).1);
            assert(row@ == worker_row(ws@[i as int]));
        }
        let ghost prev = rows_vw(rows@);
        let ghost rowv = row@;
        rows.push(row);
        proof {
            assert(rows_vw(rows@) =~= prev.push(rowv));
            assert(target[i as int] == rowv);
            assert(target.take(i + 1) =~= target.take(i as int).push(target[i as int]));
        }
        i += 1;
    }
    proof {
        assert(target.take(target.len() as int) =~= target);
    }
    encode_rows(&rows)
}

/// Deserialize the worker registry; `None` exactly when the bytes are not a
/// canonical registry image.
pub fn decode_workers(b: &[u8]) -> (r: Option<Vec<Worker>>)
    ensures
        match r {
            Some(ws) => sdec_rows(b@) == Some(workers_rows(ws@)),
            None => match sdec_rows(b@) {
                None => true,
                Some(rows) => !workers_shaped(rows),
            },
        },
{
    let rows = match parse_rows(b) {
        None => {
            return None;
        },
        Some(rows) => rows,
    };
    let ghost rv = rows_vw(rows@);
    let n = rows.len();
    let mut ws: Vec<Worker> = Vec::new();
    let mut i: usize = 0;
    while i < n
        invariant
            rv == rows_vw(rows@),
            n == rows@.len(),
            n == rv.len(),
            sdec_rows(b@) == Some(rv),
            i <= n,
            ws@.len() == i,
            forall|j: int| 0 <= j < i ==> rv[j] == worker_row(#[trigger] ws@[j]),
        decreases n - i,
    {
        let row = &rows[i];
        if row.strs.len() != 6 || row.nums.len() != 2 {
            proof {
                assert(rv[i as int] == rows@[i as int]@);
                assert(!worker_shaped(rv[i as int]));
            }
            return None;
        }
        let w = Worker {
            hostname: slice_to_vec(row.strs[0].as_slice()),
            workdir: slice_to_vec(row.strs[1].as_slice()),
            user: slice_to_vec(row.strs[2].as_slice()),
            branch: slice_to_vec(row.strs[3].as_slice()),
            commit: slice_to_vec(row.strs[4].as_slice()),
            tests: slice_to_vec(row.strs[5].as_slice()),
            starttime: row.nums[0],
            age: row.nums[1],
        };
        proof {
            assert(rv[i as int] == rows@[i as int]@);
            assert(worker_row(w).0 =~~= rv[i as int].0);
            assert(worker_row(w).1 =~= rv[i as int].1);
            assert(worker_row(w) == rv[i as int]);
        }
        ws.push(w);
        i += 1;
    }
    proof {
        assert(rv =~= workers_rows(ws@));
    }
    Some(ws)
}

/// Decoding inverts encoding for every worker registry.
pub proof fn lemma_workers_roundtrip(ws: Seq<Worker>)
    requires
        ws.len() <= u64::MAX,
        forall|i: int| 0 <= i < ws.len() ==> worker_wf(#[trigger] ws[i]),
    ensures
        sdec_rows(senc_rows(workers_rows(ws))) == Some(workers_rows(ws)),
        workers_shaped(workers_rows(ws)),
{
    let rows = workers_rows(ws);
    assert(rows_wf(rows)) by {
        assert forall|i: int| 0 <= i < rows.len() implies crate::codec::row_wf(#[trigger] rows[i]) by {
            assert(rows[i] == worker_row(ws[i]));
            assert(forall|j: int| 0 <= j < 6 ==> crate::codec::blob_wf(#[trigger] rows[i].0[j]));
        }
    }
    lemma_rt_rows(rows);
    assert forall|i: int| 0 <= i < rows.len() implies worker_shaped(#[trigger] rows[i]) by {
        assert(rows[i] == worker_row(ws[i]));
    }
}

// ------------------------------------------------------ per-user accounting

/// Per-user lifetime and recent (time-decayed) runtime accounting.
pub struct UserStats {
    pub user: Vec<u8>,
    pub total_seconds: u64,
    pub recent_seconds: u64,
    pub last_updated: u64,
}

/// Row image of one user's accounting record.
pub open spec fn user_stats_row(u: UserStats) -> RowV {
    (seq![u.user@], seq![u.total_seconds, u.recent_seconds, u.last_updated])
}

pub open spec fn user_stats_rows(us: Seq<UserStats>) -> Seq<RowV> {
    us.map_values(|u: UserStats| user_stats_row(u))
}

pub open spec fn user_stats_shaped(r: RowV) -> bool {
    r.0.len() == 1 && r.1.len() == 3
}

pub open spec fn user_stats_list_shaped(rows: Seq<RowV>) -> bool {
    forall|i: int| 0 <= i < rows.len() ==> user_stats_shaped(#[trigger] rows[i])
}

/// Serialize the user accounting list.
pub fn encode_user_stats(us: &Vec<UserStats>) -> (out: Vec<u8>)
    ensures
        out@ == senc_rows(user_stats_rows(us@)),
{
    let ghost target = user_stats_rows(us@);
    let mut rows: Vec<Row> = Vec::new();
    let mut i: usize = 0;
    while i < us.len()
        invariant
            target == user_stats_rows(us@),
            target.len() == us@.len(),
            i <= us@.len(),
            rows_vw(rows@) =~= target.take(i as int),
        decreases us@.len() - i,
    {
        let u = &us[i];
        let row = Row {
            strs: vec![slice_to_vec(u.user.as_slice())],
            nums: vec![u.total_seconds, u.recent_seconds, u.last_updated],
        };
        proof {
            assert(row@.0 =~~= user_stats_row(us@[i as int]).0);
            assert(row@.1 =~= user_stats_row(us@[i as int]).1);
            assert(row@ == user_stats_row(us@[i as int]));
        }
        let ghost prev = rows_vw(rows@);
        let ghost rowv = row@;
        rows.push(row);
        proof {
            assert(rows_vw(rows@) =~= prev.push(rowv));
            assert(target[i as int] == rowv);
            assert(target.take(i + 1) =~= target.take(i as int).push(target[i as int]));
        }
        i += 1;
    }
    proof {
        assert(target.take(target.len() as int) =~= target);
    }
    encode_rows(&rows)
}

/// Deserialize the user accounting list.
pub fn decode_user_stats(b: &[u8]) -> (r: Option<Vec<UserStats>>)
    ensures
        match r {
            Some(us) => sdec_rows(b@) == Some(user_stats_rows(us@)),
            None => match sdec_rows(b@) {
                None => true,
                Some(rows) => !user_stats_list_shaped(rows),
            },
        },
{
    let rows = match parse_rows(b) {
        None => {
            return None;
        },
        Some(rows) => rows,
    };
    let ghost rv = rows_vw(rows@);
    let n = rows.len();
    let mut us: Vec<UserStats> = Vec::new();
    let mut i: usize = 0;
    while i < n
        invariant
            rv == rows_vw(rows@),
            n == rows@.len(),
            n == rv.len(),
            sdec_rows(b@) == Some(rv),
            i <= n,
            us@.len() == i,
            forall|j: int| 0 <= j < i ==> rv[j] == user_stats_row(#[trigger] us@[j]),
        decreases n - i,
    {
        let row = &rows[i];
        if row.strs.len() != 1 || row.nums.len() != 3 {
            proof {
                assert(rv[i as int] == rows@[i as int]@);
                assert(!user_stats_shaped(rv[i as int]));
            }
            return None;
        }
        let u = UserStats {
            user: slice_to_vec(row.strs[0].as_slice()),
            total_seconds: row.nums[0],
            recent_seconds: row.nums[1],
            last_updated: row.nums[2],
        };
        proof {
            assert(rv[i as int] == rows@[i as int]@);
            assert(user_stats_row(u).0 =~~= rv[i as int].0);
            assert(user_stats_row(u).1 =~= rv[i as int].1);
            assert(user_stats_row(u) == rv[i as int]);
        }
        us.push(u);
        i += 1;
    }
    proof {
        assert(rv =~= user_stats_rows(us@));
    }
    Some(us)
}

/// Decoding inverts encoding for every user accounting list.
pub proof fn lemma_user_stats_roundtrip(us: Seq<UserStats>)
    requires
        us.len() <= u64::MAX,
        forall|i: int| 0 <= i < us.len() ==> (#[trigger] us[i]).user@.len() <= u64::MAX,
    ensures
        sdec_rows(senc_rows(user_stats_rows(us))) == Some(user_stats_rows(us)),
        user_stats_list_shaped(user_stats_rows(us)),
{
    let rows = user_stats_rows(us);
    assert(rows_wf(rows)) by {
        assert forall|i: int| 0 <= i < rows.len() implies crate::codec::row_wf(#[trigger] rows[i]) by {
            assert(rows[i] == user_stats_row(us[i]));
            assert(forall|j: int| 0 <= j < 1 ==> crate::codec::blob_wf(#[trigger] rows[i].0[j]));
        }
    }
    lemma_rt_rows(rows);
    assert forall|i: int| 0 <= i < rows.len() implies user_stats_shaped(#[trigger] rows[i]) by {
        assert(rows[i] == user_stats_row(us[i]));
    }
}

// --------------------------------------------------------- duration table

/// Historical run statistics of one subtest.
#[derive(Clone, Copy, Debug, PartialEq, Eq, Structural)]
pub struct TestStats {
    pub nr: u64,
    pub passed: u64,
    pub failed: u64,
    pub duration: u64,
}

/// The sorted duration index, keyed by fully qualified subtest name.
pub type DurationTable = NameMap<TestStats>;

/// Row image of one duration entry.
pub open spec fn duration_row(e: (Seq<u8>, TestStats)) -> RowV {
    (seq![e.0], seq![e.1.nr, e.1.passed, e.1.failed, e.1.duration])
}

pub open spec fn duration_rows(entries: Seq<(Seq<u8>, TestStats)>) -> Seq<RowV> {
    entries.map_values(|e: (Seq<u8>, TestStats)| duration_row(e))
}

pub open spec fn duration_shaped(r: RowV) -> bool {
    r.0.len() == 1 && r.1.len() == 4
}

/// The shape a row set must have to be a canonical duration table: one
/// well-shaped row per subtest, in strictly increasing name order.
pub open spec fn durations_shaped(rows: Seq<RowV>) -> bool {
    &&& forall|i: int| 0 <= i < rows.len() ==> duration_shaped(#[trigger] rows[i])
    &&& forall|i: int| 1 <= i < rows.len() ==> lex_lt(rows[i - 1].0[0], #[trigger] rows[i].0[0])
}

/// Serialize the duration table.
pub fn encode_durations(t: &DurationTable) -> (out: Vec<u8>)
    ensures
        out@ == senc_rows(duration_rows(t@)),
{
    let ghost target = duration_rows(t@);
    let ghost entries = t@;
    let mut rows: Vec<Row> = Vec::new();
    let n = t.len();
    let mut i: usize = 0;
    while i < n
        invariant
            n == entries.len(),
            entries == t@,
            target == duration_rows(entries),
            target.len() == entries.len(),
            i <= n,
            rows_vw(rows@) =~= target.take(i as int),
        decreases n - i,
    {
        let (name, st) = t.entry_at(i);
        let row = Row {
            strs: vec![slice_to_vec(name.as_slice())],
            nums: vec![st.nr, st.passed, st.failed, st.duration],
        };
        proof {
            assert(row@.0 =~~= duration_row(entries[i as int]).0);
            assert(row@.1 =~= duration_row(entries[i as int]).1);
            assert(row@ == duration_row(entries[i as int]));
        }
        let ghost prev = rows_vw(rows@);
        let ghost rowv = row@;
        rows.push(row);
        proof {
            assert(rows_vw(rows@) =~= prev.push(rowv));
            assert(target[i as int] == rowv);
            assert(target.take(i + 1) =~= target.take(i as int).push(target[i as int]));
        }
        i += 1;
    }
    proof {
        assert(target.take(target.len() as int) =~= target);
    }
    encode_rows(&rows)
}

/// Deserialize the duration table; `None` exactly when the bytes are not a
/// canonical table image.
pub fn decode_durations(b: &[u8]) -> (r: Option<DurationTable>)
    ensures
        match r {
            Some(t) => t.wf() && sdec_rows(b@) == Some(duration_rows(t@)),
            None => match sdec_rows(b@) {
                None => true,
                Some(rows) => !durations_shaped(rows),
            },
        },
{
    let rows = match parse_rows(b) {
        None => {
            return None;
        },
        Some(rows) => rows,
    };
    let ghost rv = rows_vw(rows@);
    let n = rows.len();
    let mut t: DurationTable = NameMap::new();
    let mut i: usize = 0;
    while i < n
        invariant
            rv == rows_vw(rows@),
            n == rows@.len(),
            n == rv.len(),
            sdec_rows(b@) == Some(rv),
            i <= n,
            t.wf(),
            t@.len() == i,
            forall|j: int| 0 <= j < i ==> rv[j] == duration_row(#[trigger] t@[j]),
            forall|j: int| 0 <= j < i ==> duration_shaped(#[trigger] rv[j]),
            forall|j: int| 1 <= j < i ==> lex_lt(rv[j - 1].0[0], #[trigger] rv[j].0[0]),
        decreases n - i,
    {
        let row = &rows[i];
        if row.strs.len() != 1 || row.nums.len() != 4 {
            proof {
                assert(rv[i as int] == rows@[i as int]@);
                assert(!duration_shaped(rv[i as int]));
            }
            return None;
        }
        let name = &row.strs[0];
        proof {
            assert(rv[i as int] == rows@[i as int]@);
            assert(rv[i as int].0[0] == name@);
        }
        if t.len() > 0 {
            let last = t.len() - 1;
            let (last_name, _) = t.entry_at(last);
            match cmp_bytes(last_name.as_slice(), name.as_slice()) {
                Cmp::Lt => {},
                _ => {
                    proof {
                        assert(rv[i - 1] == duration_row(t@[i - 1]));
                        assert(rv[i - 1].0[0] == t@[i - 1].0);
                        assert(!lex_lt(rv[i - 1].0[0], rv[i as int].0[0]));
                    }
                    return None;
                },
            }
        }
        let st = TestStats {
            nr: row.nums[0],
            passed: row.nums[1],
            failed: row.nums[2],
            duration: row.nums[3],
        };
        t.push_sorted(slice_to_vec(name.as_slice()), st);
        proof {
            assert(t@[i as int] == (name@, st));
            assert(duration_row((name@, st)).0 =~~= rv[i as int].0);
            assert(duration_row((name@, st)).1 =~= rv[i as int].1);
            assert(rv[i as int] == duration_row(t@[i as int]));
        }
        i += 1;
    }
    proof {
        assert(rv =~= duration_rows(t@));
    }
    Some(t)
}

/// Decoding inverts encoding for every duration table.
pub proof fn lemma_durations_roundtrip(entries: Seq<(Seq<u8>, TestStats)>)
    requires
        entries.len() <= u64::MAX,
        forall|i: int| 0 <= i < entries.len() ==> (#[trigger] entries[i]).0.len() <= u64::MAX,
        keys_sorted(entries),
    ensures
        sdec_rows(senc_rows(duration_rows(entries))) == Some(duration_rows(entries)),
        durations_shaped(duration_rows(entries)),
{
    let rows = duration_rows(entries);
    assert(rows_wf(rows)) by {
        assert forall|i: int| 0 <= i < rows.len() implies crate::codec::row_wf(#[trigger] rows[i]) by {
            assert(rows[i] == duration_row(entries[i]));
            assert(forall|j: int| 0 <= j < 1 ==> crate::codec::blob_wf(#[trigger] rows[i].0[j]));
        }
    }
    lemma_rt_rows(rows);
    assert(durations_shaped(rows)) by {
        assert forall|i: int| 0 <= i < rows.len() implies duration_shaped(#[trigger] rows[i]) by {
            assert(rows[i] == duration_row(entries[i]));
        }
        assert forall|i: int| 1 <= i < rows.len() implies lex_lt(
            rows[i - 1].0[0],
            #[trigger] rows[i].0[0],
        ) by {
            assert(rows[i] == duration_row(entries[i]));
            assert(rows[i - 1] == duration_row(entries[i - 1]));
            assert(lex_lt(entries[i - 1].0, entries[i].0));
        }
    }
}

} // verus!
