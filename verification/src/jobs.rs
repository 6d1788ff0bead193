//! Job generation: which (commit, subtest) pairs still need work, what
//! scheduling weight each gets, and the urgency order of the resulting jobs.

use vstd::prelude::*;
use crate::bytes::{lex_lt, cmp_bytes, Cmp, lemma_lex_trichotomy, lemma_lex_transitive};
use crate::namemap::has_key;
use crate::records::{TestResult, TestResultsMap, TestStats};
use crate::status::TestStatus;
use crate::fairshare::sat_add;
use crate::namemap::value_at;

verus! {

/// An in-progress result younger than this (in seconds) counts as handled.
pub const INPROGRESS_TIMEOUT_SECONDS: u64 = 1800;

/// One unit of missing work, destined for one queue-file line.
pub struct TestJob {
    pub user: Vec<u8>,
    pub branch: Vec<u8>,
    pub commit: Vec<u8>,
    pub age: u64,
    pub nice: u64,
    pub expected_duration: u64,
    pub test: Vec<u8>,
    pub subtest: Vec<u8>,
}

/// A job's scheduling weight: its commit age plus its nice penalty; lower is
/// more urgent.
pub open spec fn spec_testjob_weight(j: TestJob) -> u64 {
    sat_add(j.age, j.nice)
}

pub fn testjob_weight(j: &TestJob) -> (w: u64)
    ensures
        w == spec_testjob_weight(*j),
{
    if j.age > u64::MAX - j.nice {
        u64::MAX
    } else {
        j.age + j.nice
    }
}

/// The urgency order: weight first, ties broken by commit, test and expected
/// duration so generation is deterministic.
pub open spec fn job_le(a: TestJob, b: TestJob) -> bool {
    let wa = spec_testjob_weight(a);
    let wb = spec_testjob_weight(b);
    ||| wa < wb
    ||| (wa == wb && lex_lt(a.commit@, b.commit@))
    ||| (wa == wb && a.commit@ == b.commit@ && lex_lt(a.test@, b.test@))
    ||| (wa == wb && a.commit@ == b.commit@ && a.test@ == b.test@ && a.expected_duration
        <= b.expected_duration)
}

pub proof fn lemma_job_le_total(a: TestJob, b: TestJob)
    ensures
        job_le(a, b) || job_le(b, a),
{
    lemma_lex_trichotomy(a.commit@, b.commit@);
    lemma_lex_trichotomy(a.test@, b.test@);
}

pub proof fn lemma_job_le_trans(a: TestJob, b: TestJob, c: TestJob)
    requires
        job_le(a, b),
        job_le(b, c),
    ensures
        job_le(a, c),
{
    lemma_lex_trichotomy(a.commit@, b.commit@);
    lemma_lex_trichotomy(b.commit@, c.commit@);
    lemma_lex_trichotomy(a.test@, b.test@);
    lemma_lex_trichotomy(b.test@, c.test@);
    if lex_lt(a.commit@, b.commit@) && lex_lt(b.commit@, c.commit@) {
        lemma_lex_transitive(a.commit@, b.commit@, c.commit@);
    }
    if lex_lt(a.test@, b.test@) && lex_lt(b.test@, c.test@) {
        lemma_lex_transitive(a.test@, b.test@, c.test@);
    }
}

fn job_le_exec(a: &TestJob, b: &TestJob) -> (r: bool)
    ensures
        r == job_le(*a, *b),
{
    let wa = testjob_weight(a);
    let wb = testjob_weight(b);
    if wa < wb {
        return true;
    }
    if wa > wb {
        return false;
    }
    match cmp_bytes(a.commit.as_slice(), b.commit.as_slice()) {
        Cmp::Lt => true,
        Cmp::Gt => {
            proof {
                lemma_lex_trichotomy(a.commit@, b.commit@);
            }
            false
        },
        Cmp::Eq => match cmp_bytes(a.test.as_slice(), b.test.as_slice()) {
            Cmp::Lt => true,
            Cmp::Gt => {
                proof {
                    lemma_lex_trichotomy(a.test@, b.test@);
                }
                false
            },
            Cmp::Eq => a.expected_duration <= b.expected_duration,
        },
    }
}

/// Ascending urgency order (the most urgent job first).
pub open spec fn jobs_sorted(s: Seq<TestJob>) -> bool {
    forall|i: int, j: int| 0 <= i < j < s.len() ==> job_le(#[trigger] s[i], #[trigger] s[j])
}

/// Sort jobs into ascending urgency order, keeping exactly the same jobs.
pub fn sort_jobs(jobs: &mut Vec<TestJob>)
    ensures
        jobs_sorted(final(jobs)@),
        final(jobs)@.to_multiset() == old(jobs)@.to_multiset(),
        final(jobs)@.len() == old(jobs)@.len(),
{
    broadcast use vstd::seq_lib::group_to_multiset_ensures, vstd::seq_lib::to_multiset_insert;

    let n = jobs.len();
    if n <= 1 {
        return ;
    }
    let mut i: usize = 1;
    while i < n
        invariant
            n == jobs@.len(),
            n == old(jobs)@.len(),
            1 <= i <= n,
            jobs@.to_multiset() == old(jobs)@.to_multiset(),
            forall|a: int, b: int| 0 <= a < b < i ==> job_le(#[trigger] jobs@[a], #[trigger] jobs@[b]),
        decreases n - i,
    {
        let ghost orig = jobs@;
        let x = jobs.remove(i);
        let ghost xv = x;
        let ghost v1 = jobs@;
        proof {
            assert(v1 =~= orig.remove(i as int));
            assert(forall|k: int| 0 <= k < i ==> v1[k] == orig[k]);
        }
        let mut p: usize = i;
        while p > 0 && !job_le_exec(&jobs[p - 1], &x)
            invariant
                v1 == jobs@,
                n - 1 == v1.len(),
                1 <= i <= n - 1,
                p <= i,
                xv == x,
                forall|k: int| p <= k < i ==> job_le(xv, #[trigger] v1[k]),
                forall|a: int, b: int| 0 <= a < b < i ==> job_le(
                    #[trigger] v1[a],
                    #[trigger] v1[b],
                ),
            decreases p,
        {
            proof {
                lemma_job_le_total(v1[p - 1], xv);
            }
            p -= 1;
        }
        proof {
            assert forall|k: int| 0 <= k < p implies job_le(#[trigger] v1[k], xv) by {
                if k < p - 1 {
                    lemma_job_le_trans(v1[k], v1[p - 1], xv);
                }
            }
        }
        jobs.insert(p, x);
        proof {
            let v2 = jobs@;
            assert(v2 =~= v1.insert(p as int, xv));
            vstd::seq_lib::to_multiset_insert(v1, p as int, xv);
            assert(v2.to_multiset() == v1.to_multiset().insert(xv));
            assert(orig[i as int] == xv);
            orig.to_multiset_ensures();
            assert(v1.to_multiset() == orig.to_multiset().remove(xv));
            assert(orig.to_multiset().contains(xv)) by {
                assert(orig.contains(xv));
            }
            assert(v2.to_multiset() =~= orig.to_multiset());
            assert forall|a: int, b: int| 0 <= a < b < i + 1 implies job_le(
                #[trigger] v2[a],
                #[trigger] v2[b],
            ) by {
                if b < p {
                } else if b == p {
                    assert(v2[b] == xv);
                    assert(v2[a] == v1[a]);
                } else {
                    assert(v2[b] == v1[b - 1]);
                    if a < p {
                        assert(v2[a] == v1[a]);
                        if p <= b - 1 < i {
                            lemma_job_le_trans(v1[a], xv, v1[b - 1]);
                        }
                    } else if a == p {
                        assert(v2[a] == xv);
                    } else {
                        assert(v2[a] == v1[a - 1]);
                    }
                }
            }
        }
        i += 1;
    }
}

/// The nice penalty of one subtest under a test group's settings: the
/// group's base nice; plus the always-passes bonus when the subtest has run
/// often enough and only ever passed or only ever failed; plus its average
/// duration scaled down by the duration-nice divisor.
pub open spec fn spec_job_nice(nice: u64, always_passes_nice: u64, duration_nice: u64, stats: Option<TestStats>) -> u64 {
    match stats {
        None => nice,
        Some(s) => {
            let b1 = if s.passed + s.failed > always_passes_nice && ((s.passed == 0) != (s.failed
                == 0)) {
                sat_add(nice, always_passes_nice)
            } else {
                nice
            };
            if duration_nice > 0 {
                sat_add(b1, (s.duration / duration_nice) as u64)
            } else {
                b1
            }
        },
    }
}

pub fn job_nice(nice: u64, always_passes_nice: u64, duration_nice: u64, stats: Option<TestStats>) -> (r: u64)
    ensures
        r == spec_job_nice(nice, always_passes_nice, duration_nice, stats),
{
    match stats {
        None => nice,
        Some(s) => {
            let enough = s.passed <= u64::MAX - s.failed && s.passed + s.failed
                > always_passes_nice || s.passed > u64::MAX - s.failed;
            let one_sided = (s.passed == 0) != (s.failed == 0);
            let b1 = if enough && one_sided {
                if nice > u64::MAX - always_passes_nice {
                    u64::MAX
                } else {
                    nice + always_passes_nice
                }
            } else {
                nice
            };
            if duration_nice > 0 {
                let extra = s.duration / duration_nice;
                if b1 > u64::MAX - extra {
                    u64::MAX
                } else {
                    b1 + extra
                }
            } else {
                b1
            }
        },
    }
}

/// A commit already has a usable result for this subtest: any finished
/// status counts, and an in-progress one counts while it is young.
pub open spec fn spec_have_result(
    results: Seq<(Seq<u8>, TestResult)>,
    name: Seq<u8>,
    now: u64,
) -> bool {
    has_key(results, name) && {
        let r = value_at(results, name);
        r.status != TestStatus::Inprogress || now < r.starttime + INPROGRESS_TIMEOUT_SECONDS
    }
}

pub fn have_result(results: &TestResultsMap, name: &[u8], now: u64) -> (r: bool)
    requires
        results.wf(),
    ensures
        r == spec_have_result(results@, name@, now),
{
    match results.get(name) {
        None => false,
        Some(res) => {
            if !matches!(res.status, TestStatus::Inprogress) {
                true
            } else if res.starttime >= now {
                true
            } else {
                now - res.starttime < INPROGRESS_TIMEOUT_SECONDS
            }
        },
    }
}

} // verus!
