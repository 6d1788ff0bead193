//! Rebuilding a commit's result set from what a scan of its status
//! directories observed: the marker text decides the status, the marker's
//! modification time is the start time, and a numeric sidecar (zero when
//! missing or unreadable) is the duration.

use vstd::prelude::*;
use crate::namemap::{NameMap, has_key, value_at};
use crate::records::{TestResult, TestResultsMap, CommitResultSet};
use crate::status::{TestStatus, spec_status_of};
use crate::queue::dec_val;

verus! {

/// What a scan observed for one subtest directory.
pub struct ScanEntry {
    pub name: Vec<u8>,
    pub status_text: Vec<u8>,
    pub duration_text: Option<Vec<u8>>,
    pub mtime: u64,
}

pub open spec fn all_digits(s: Seq<u8>) -> bool {
    forall|i: int| 0 <= i < s.len() ==> 48 <= #[trigger] s[i] <= 57
}

/// The duration a sidecar text denotes: its numeric value when it is a plain
/// digit string that fits, zero otherwise.
pub open spec fn spec_duration_of(t: Option<Seq<u8>>) -> u64 {
    match t {
        None => 0,
        Some(s) => if s.len() > 0 && all_digits(s) && dec_val(s) <= u64::MAX {
            dec_val(s) as u64
        } else {
            0
        },
    }
}

/// Parse a duration sidecar.
pub fn duration_of(t: Option<&Vec<u8>>) -> (r: u64)
    ensures
        r == spec_duration_of(match t {
            None => None,
            Some(v) => Some(v@),
        }),
{
    match t {
        None => 0,
        Some(s) => duration_of_text(s.as_slice()),
    }
}

/// Parse the text of a duration sidecar.
pub fn duration_of_text(s: &[u8]) -> (r: u64)
    ensures
        r == spec_duration_of(Some(s@)),
{
    let len = s.len();
    if len == 0 {
        return 0;
    }
    let mut acc: u64 = 0;
    let mut i: usize = 0;
    proof {
        assert(s@.take(0) =~= Seq::<u8>::empty());
    }
    while i < len
        invariant
            len == s@.len(),
            0 < len,
            i <= len,
            forall|k: int| 0 <= k < i ==> 48 <= #[trigger] s@[k] <= 57,
            acc as int == dec_val(s@.take(i as int)),
        decreases len - i,
    {
        let c = s[i];
        if c < 48 || c > 57 {
            proof {
                assert(!all_digits(s@)) by {
                    assert(!(48 <= s@[i as int] <= 57));
                }
                assert(spec_duration_of(Some(s@)) == 0);
            }
            return 0;
        }
        let d = (c - 48) as u64;
        if acc > (u64::MAX - d) / 10 {
            proof {
                let t1 = s@.take(i + 1);
                assert(t1.drop_last() =~= s@.take(i as int));
                assert(t1.last() == s@[i as int]);
                assert(dec_val(t1) == (acc as int) * 10 + d);
                assert((acc as int) * 10 + d > u64::MAX) by (nonlinear_arith)
                    requires
                        acc as int > (u64::MAX - d) / 10,
                        0 <= d <= 9,
                        acc as int >= 0,
                ;
                if all_digits(s@) {
                    crate::queue::lemma_dec_val_prefix_le(s@, i + 1);
                    assert(dec_val(s@) > u64::MAX);
                }
                assert(spec_duration_of(Some(s@)) == 0);
            }
            return 0;
        }
        proof {
            let t1 = s@.take(i + 1);
            assert(t1.drop_last() =~= s@.take(i as int));
            assert(t1.last() == s@[i as int]);
            assert((acc as int) * 10 + d <= u64::MAX) by (nonlinear_arith)
                requires
                    acc as int <= (u64::MAX - d) / 10,
                    0 <= d <= 9,
                    acc as int >= 0,
            ;
        }
        acc = acc * 10 + d;
        i += 1;
    }
    proof {
        assert(s@.take(len as int) =~= s@);
    }
    acc
}

/// The result one scan entry denotes.
pub open spec fn entry_result(e: ScanEntry) -> TestResult {
    TestResult {
        status: spec_status_of(e.status_text@),
        starttime: e.mtime,
        duration: spec_duration_of(match e.duration_text {
            None => None,
            Some(v) => Some(v@),
        }),
    }
}

/// Build a commit's result map from a scan.  Every scanned name is present;
/// when a name is scanned twice, the later observation wins.
pub fn results_from_scan(entries: Vec<ScanEntry>) -> (r: TestResultsMap)
    ensures
        r.wf(),
        forall|k: Seq<u8>| #[trigger]
            has_key(r@, k) <==> exists|i: int|
                0 <= i < entries@.len() && (#[trigger] entries@[i]).name@ == k,
        forall|i: int|
            0 <= i < entries@.len() && (forall|j: int|
                i < j < entries@.len() ==> (#[trigger] entries@[j]).name@ != entries@[i].name@)
                ==> value_at(r@, (#[trigger] entries@[i]).name@) == entry_result(entries@[i]),
{
    let ghost es = entries@;
    let n = entries.len();
    let mut r: TestResultsMap = NameMap::new();
    let mut i: usize = 0;
    let mut rest = entries;
    proof {
        assert(rest@ =~= es.skip(0));
    }
    while i < n
        invariant
            r.wf(),
            n == es.len(),
            i <= n,
            rest@ == es.skip(i as int),
            forall|k: Seq<u8>| #[trigger]
                has_key(r@, k) <==> exists|x: int| 0 <= x < i && (#[trigger] es[x]).name@ == k,
            forall|x: int|
                0 <= x < i && (forall|j: int| x < j < i ==> (#[trigger] es[j]).name@ != es[x].name@)
                    ==> value_at(r@, (#[trigger] es[x]).name@) == entry_result(es[x]),
        decreases n - i,
    {
        let e = rest.remove(0);
        let ghost ev = e;
        proof {
            assert(es.skip(i as int)[0] == es[i as int]);
            assert(ev == es[i as int]);
            assert(rest@ =~= es.skip(i + 1));
        }
        let status = TestStatus::from_str(e.status_text.as_slice());
        let duration = duration_of(match &e.duration_text {
            None => None,
            Some(v) => Some(v),
        });
        let res = TestResult { status, starttime: e.mtime, duration };
        proof {
            assert(res == entry_result(ev));
        }
        r.insert(e.name, res);
        proof {
            assert forall|k: Seq<u8>| #[trigger]
                has_key(r@, k) <==> exists|x: int| 0 <= x < i + 1 && (#[trigger] es[x]).name@
                    == k by {
                if has_key(r@, k) {
                    if k == ev.name@ {
                        assert(es[i as int].name@ == k);
                    }
                }
                if exists|x: int| 0 <= x < i + 1 && (#[trigger] es[x]).name@ == k {
                    let x = choose|x: int| 0 <= x < i + 1 && (#[trigger] es[x]).name@ == k;
                    if x == i {
                        assert(k == ev.name@);
                    }
                }
            }
        }
        i += 1;
    }
    r
}

/// Replace only the message of a cached commit record, the narrow repair
/// path for backfilling metadata.
pub fn set_message(c: &mut CommitResultSet, message: Vec<u8>)
    ensures
        final(c).commit_id@ == old(c).commit_id@,
        final(c).results@ == old(c).results@,
        final(c).message@ == message@,
{
    c.message = message;
}

} // verus!
