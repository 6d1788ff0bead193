//! The duration index: looking up a subtest's historical run statistics, and
//! rebuilding the whole sorted table from the result-store corpus.

use vstd::prelude::*;
use crate::namemap::{NameMap, has_key, value_at};
use crate::records::{TestStats, TestResult, TestResultsMap, DurationTable};
use crate::status::TestStatus;
use crate::subtests::{subtest_full_name, spec_subtest_full_name};

verus! {

/// The statistics the table holds for fully qualified name `full`, if any.
pub open spec fn spec_lookup(t: Seq<(Seq<u8>, TestStats)>, full: Seq<u8>) -> Option<TestStats> {
    if has_key(t, full) {
        Some(value_at(t, full))
    } else {
        None
    }
}

/// Historical statistics of one subtest, or `None` when no table is at hand
/// or the subtest has never run: present exactly when the table holds the
/// fully qualified name.
pub fn test_stats(durations: Option<&DurationTable>, test: &[u8], subtest: &[u8]) -> (r: Option<
    TestStats,
>)
    requires
        match durations {
            Some(t) => t.wf(),
            None => true,
        },
    ensures
        r == match durations {
            None => None::<TestStats>,
            Some(t) => spec_lookup(t@, spec_subtest_full_name(test@, subtest@)),
        },
{
    match durations {
        None => None,
        Some(t) => {
            let full = subtest_full_name(test, subtest);
            match t.get(full.as_slice()) {
                None => None,
                Some(st) => Some(*st),
            }
        },
    }
}

// ------------------------------------------------------------- the rebuild

/// Running sums for one subtest while the corpus is scanned.
#[derive(Clone, Copy, Debug, PartialEq, Eq, Structural, Default)]
pub struct DurationAcc {
    pub secs: u64,
    pub nr: u64,
    pub nr_passed: u64,
    pub nr_failed: u64,
}

/// Fold one observed result into the sums (saturating, so a corrupt corpus
/// cannot overflow the counters).
pub open spec fn spec_acc_add(a: DurationAcc, r: TestResult) -> DurationAcc {
    DurationAcc {
        secs: if a.secs + r.duration > u64::MAX {
            u64::MAX
        } else {
            (a.secs + r.duration) as u64
        },
        nr: if a.nr + 1 > u64::MAX {
            u64::MAX
        } else {
            (a.nr + 1) as u64
        },
        nr_passed: if a.nr_passed + (if r.status == TestStatus::Passed {
            1int
        } else {
            0int
        }) > u64::MAX {
            u64::MAX
        } else {
            (a.nr_passed + (if r.status == TestStatus::Passed {
                1int
            } else {
                0int
            })) as u64
        },
        nr_failed: if a.nr_failed + (if r.status == TestStatus::Failed {
            1int
        } else {
            0int
        }) > u64::MAX {
            u64::MAX
        } else {
            (a.nr_failed + (if r.status == TestStatus::Failed {
                1int
            } else {
                0int
            })) as u64
        },
    }
}

pub open spec fn zero_acc() -> DurationAcc {
    DurationAcc { secs: 0, nr: 0, nr_passed: 0, nr_failed: 0 }
}

fn acc_add(a: DurationAcc, r: &TestResult) -> (out: DurationAcc)
    ensures
        out == spec_acc_add(a, *r),
{
    DurationAcc {
        secs: if a.secs > u64::MAX - r.duration {
            u64::MAX
        } else {
            a.secs + r.duration
        },
        nr: if a.nr == u64::MAX {
            u64::MAX
        } else {
            a.nr + 1
        },
        nr_passed: if matches!(r.status, TestStatus::Passed) {
            if a.nr_passed == u64::MAX {
                u64::MAX
            } else {
                a.nr_passed + 1
            }
        } else {
            a.nr_passed
        },
        nr_failed: if matches!(r.status, TestStatus::Failed) {
            if a.nr_failed == u64::MAX {
                u64::MAX
            } else {
                a.nr_failed + 1
            }
        } else {
            a.nr_failed
        },
    }
}

/// Fold one commit's results into the running sums.  Each subtest name of
/// `results` has its accumulator advanced by its result; every other name
/// keeps its sums.
pub fn accumulate_durations(acc: &mut NameMap<DurationAcc>, results: &TestResultsMap)
    requires
        old(acc).wf(),
        results.wf(),
    ensures
        final(acc).wf(),
        forall|k: Seq<u8>| #[trigger]
            has_key(final(acc)@, k) <==> (has_key(old(acc)@, k) || has_key(results@, k)),
        forall|k: Seq<u8>|
            has_key(results@, k) ==> #[trigger] value_at(final(acc)@, k) == spec_acc_add(
                if has_key(old(acc)@, k) {
                    value_at(old(acc)@, k)
                } else {
                    zero_acc()
                },
                value_at(results@, k),
            ),
        forall|k: Seq<u8>|
            has_key(old(acc)@, k) && !has_key(results@, k) ==> #[trigger] value_at(final(acc)@, k)
                == value_at(old(acc)@, k),
{
    let ghost base = acc@;
    let ghost rs = results@;
    let n = results.len();
    let mut i: usize = 0;
    while i < n
        invariant
            acc.wf(),
            results.wf(),
            base == old(acc)@,
            rs == results@,
            n == rs.len(),
            i <= n,
            forall|k: Seq<u8>| #[trigger]
                has_key(acc@, k) <==> (has_key(base, k) || has_key(rs.take(i as int), k)),
            forall|k: Seq<u8>|
                has_key(rs.take(i as int), k) ==> #[trigger] value_at(acc@, k) == spec_acc_add(
                    if has_key(base, k) {
                        value_at(base, k)
                    } else {
                        zero_acc()
                    },
                    value_at(rs, k),
                ),
            forall|k: Seq<u8>|
                has_key(base, k) && !has_key(rs.take(i as int), k) ==> #[trigger] value_at(acc@, k)
                    == value_at(base, k),
        decreases n - i,
    {
        let (name, res) = results.entry_at(i);
        let ghost k0 = rs[i as int].0;
        proof {
            crate::namemap::lemma_value_at_entry(rs, i as int);
            assert(!has_key(rs.take(i as int), k0)) by {
                if has_key(rs.take(i as int), k0) {
                    let w = choose|j: int| 0 <= j < i && rs.take(i as int)[j].0 == k0;
                    crate::namemap::lemma_unique_keys(rs, w, i as int);
                }
            }
        }
        let prev = match acc.get(name.as_slice()) {
            Some(a) => *a,
            None => DurationAcc { secs: 0, nr: 0, nr_passed: 0, nr_failed: 0 },
        };
        let next = acc_add(prev, res);
        let owned = vstd::slice::slice_to_vec(name.as_slice());
        acc.insert(owned, next);
        proof {
            let t0 = rs.take(i as int);
            let t1 = rs.take(i + 1);
            assert(t1 =~= t0.push(rs[i as int]));
            assert forall|k: Seq<u8>| #[trigger]
                has_key(t1, k) <==> (has_key(t0, k) || k == k0) by {
                if has_key(t1, k) {
                    let w = choose|j: int| 0 <= j < t1.len() && t1[j].0 == k;
                    if w < i {
                        assert(t0[w].0 == k);
                    }
                }
                if has_key(t0, k) {
                    let w = choose|j: int| 0 <= j < t0.len() && t0[j].0 == k;
                    assert(t1[w].0 == k);
                }
                if k == k0 {
                    assert(t1[i as int].0 == k);
                }
            }
        }
        i += 1;
    }
    proof {
        assert(rs.take(n as int) =~= rs);
    }
}

/// The published statistics derived from one subtest's sums: the average
/// duration is the integer quotient of total seconds by run count.
pub open spec fn stats_of_acc(a: DurationAcc) -> TestStats {
    TestStats {
        nr: a.nr,
        passed: a.nr_passed,
        failed: a.nr_failed,
        duration: if a.nr == 0 {
            0
        } else {
            (a.secs / a.nr) as u64
        },
    }
}

/// Turn the finished sums into the sorted duration table.
pub fn durations_from_sums(acc: &NameMap<DurationAcc>) -> (t: DurationTable)
    requires
        acc.wf(),
    ensures
        t.wf(),
        t@.len() == acc@.len(),
        forall|i: int|
            0 <= i < acc@.len() ==> #[trigger] t@[i] == (acc@[i].0, stats_of_acc(acc@[i].1)),
{
    let mut t: DurationTable = NameMap::new();
    let n = acc.len();
    let mut i: usize = 0;
    while i < n
        invariant
            acc.wf(),
            n == acc@.len(),
            i <= n,
            t.wf(),
            t@.len() == i,
            forall|j: int| 0 <= j < i ==> #[trigger] t@[j] == (acc@[j].0, stats_of_acc(acc@[j].1)),
        decreases n - i,
    {
        let (name, a) = acc.entry_at(i);
        let st = TestStats {
            nr: a.nr,
            passed: a.nr_passed,
            failed: a.nr_failed,
            duration: if a.nr == 0 {
                0
            } else {
                a.secs / a.nr
            },
        };
        proof {
            if i > 0 {
                assert(t@[i - 1].0 == acc@[i - 1].0);
            }
        }
        t.push_sorted(vstd::slice::slice_to_vec(name.as_slice()), st);
        i += 1;
    }
    t
}

} // verus!
