//! Walking a branch's commits to find the subtests that still need work, and
//! turning them into jobs.

use vstd::prelude::*;
use crate::claim::{ClaimSet, LockState, spec_claim_key, spec_lock_stale, m_reclaim};
use crate::jobs::{TestJob, spec_have_result, spec_job_nice, job_nice, have_result};
use crate::records::{TestResult, TestResultsMap, TestStats, DurationTable};
use crate::subtests::{subtest_full_name, spec_subtest_full_name};
use crate::durations::{test_stats, spec_lookup};

verus! {

/// Queue regeneration is skipped while the last successful fetch is younger
/// than this (in seconds).
pub const FETCH_COOLDOWN_SECONDS: u64 = 30;

/// Whether a new remote fetch is due, given the fetch marker's modification
/// time (absent on the first run): within the cooldown window nothing is
/// fetched and regeneration is skipped.
pub fn fetch_due(marker_mtime: Option<u64>, now: u64) -> (r: bool)
    ensures
        r == match marker_mtime {
            None => true,
            Some(m) => !(now >= m && now - m < FETCH_COOLDOWN_SECONDS),
        },
{
    match marker_mtime {
        None => true,
        Some(m) => !(now >= m && now - m < FETCH_COOLDOWN_SECONDS),
    }
}

/// The marker key of one subtest of `test` on `commit`.
pub open spec fn subtest_key(commit: Seq<u8>, test: Seq<u8>, sub: Seq<u8>) -> Seq<u8> {
    spec_claim_key(commit, spec_subtest_full_name(test, sub))
}

/// A subtest still needs work on a commit: no usable result is recorded and
/// no claim marker survives stale reclamation.
pub open spec fn is_missing(
    test: Seq<u8>,
    sub: Seq<u8>,
    results: Seq<(Seq<u8>, TestResult)>,
    locks: Map<Seq<u8>, LockState>,
    commit: Seq<u8>,
    now: u64,
) -> bool {
    let full = spec_subtest_full_name(test, sub);
    let key = spec_claim_key(commit, full);
    !spec_have_result(results, full, now) && !m_reclaim(locks, key, now).dom().contains(key)
}

/// The subtests of `subs` that still need work, in list order.
pub open spec fn missing_list(
    test: Seq<u8>,
    subs: Seq<Seq<u8>>,
    results: Seq<(Seq<u8>, TestResult)>,
    locks: Map<Seq<u8>, LockState>,
    commit: Seq<u8>,
    now: u64,
) -> Seq<Seq<u8>>
    decreases subs.len(),
{
    if subs.len() == 0 {
        Seq::empty()
    } else {
        let rest = missing_list(test, subs.drop_last(), results, locks, commit, now);
        if is_missing(test, subs.last(), results, locks, commit, now) {
            rest.push(subs.last())
        } else {
            rest
        }
    }
}

/// The marker directory after each listed subtest's stale marker was
/// reclaimed.
pub open spec fn reclaim_all(
    locks: Map<Seq<u8>, LockState>,
    test: Seq<u8>,
    subs: Seq<Seq<u8>>,
    commit: Seq<u8>,
    now: u64,
) -> Map<Seq<u8>, LockState>
    decreases subs.len(),
{
    if subs.len() == 0 {
        locks
    } else {
        m_reclaim(
            reclaim_all(locks, test, subs.drop_last(), commit, now),
            subtest_key(commit, test, subs.last()),
            now,
        )
    }
}

/// Whether scanning `subs` reclaims at least one stale marker.
pub open spec fn any_reclaimed(
    locks: Map<Seq<u8>, LockState>,
    test: Seq<u8>,
    subs: Seq<Seq<u8>>,
    commit: Seq<u8>,
    now: u64,
) -> bool
    decreases subs.len(),
{
    if subs.len() == 0 {
        false
    } else {
        let m = reclaim_all(locks, test, subs.drop_last(), commit, now);
        let key = subtest_key(commit, test, subs.last());
        any_reclaimed(locks, test, subs.drop_last(), commit, now) || (m.dom().contains(key)
            && spec_lock_stale(m[key], now))
    }
}

/// Reclamation only removes markers that were stale to begin with, and never
/// changes a surviving marker.
pub proof fn lemma_reclaim_all_frame(
    locks: Map<Seq<u8>, LockState>,
    test: Seq<u8>,
    subs: Seq<Seq<u8>>,
    commit: Seq<u8>,
    now: u64,
)
    ensures
        ({
            let m = reclaim_all(locks, test, subs, commit, now);
            &&& forall|k: Seq<u8>| #[trigger]
                m.dom().contains(k) ==> locks.dom().contains(k) && m[k] == locks[k]
            &&& forall|k: Seq<u8>|
                locks.dom().contains(k) && !#[trigger] m.dom().contains(k) ==> spec_lock_stale(
                    locks[k],
                    now,
                )
        }),
    decreases subs.len(),
{
    if subs.len() > 0 {
        lemma_reclaim_all_frame(locks, test, subs.drop_last(), commit, now);
        let m0 = reclaim_all(locks, test, subs.drop_last(), commit, now);
        let key = subtest_key(commit, test, subs.last());
        let m = reclaim_all(locks, test, subs, commit, now);
        assert forall|k: Seq<u8>| #[trigger] m.dom().contains(k) implies locks.dom().contains(k)
            && m[k] == locks[k] by {
            assert(m0.dom().contains(k));
            assert(m[k] == m0[k]);
        }
        assert forall|k: Seq<u8>|
            locks.dom().contains(k) && !#[trigger] m.dom().contains(k) implies spec_lock_stale(
            locks[k],
            now,
        ) by {
            if m0.dom().contains(k) {
                assert(k == key);
                assert(spec_lock_stale(m0[k], now));
                assert(m0[k] == locks[k]);
            }
        }
    }
}

/// Under any reclaim-only evolution of the marker directory, the missing
/// decision for a key is the same as against the original directory.
pub proof fn lemma_reclaimed_decision(
    locks: Map<Seq<u8>, LockState>,
    test: Seq<u8>,
    subs: Seq<Seq<u8>>,
    commit: Seq<u8>,
    now: u64,
    k: Seq<u8>,
)
    ensures
        ({
            let m = reclaim_all(locks, test, subs, commit, now);
            m_reclaim(m, k, now).dom().contains(k) == m_reclaim(locks, k, now).dom().contains(k)
        }),
{
    lemma_reclaim_all_frame(locks, test, subs, commit, now);
}

/// Compute the subtests of `test` that still need work on `commit`,
/// reclaiming stale markers on the way; also reports whether any marker was
/// reclaimed (the caller then rebuilds the commit's cached results).
pub fn missing_subtests(
    test: &[u8],
    subtests: &Vec<Vec<u8>>,
    results: &TestResultsMap,
    claims: &mut ClaimSet,
    commit: &[u8],
    now: u64,
) -> (r: (Vec<Vec<u8>>, bool))
    requires
        results.wf(),
        old(claims).wf(),
    ensures
        final(claims).wf(),
        r.0.deep_view() == missing_list(
            test@,
            subtests.deep_view(),
            results@,
            old(claims)@,
            commit@,
            now,
        ),
        final(claims)@ == reclaim_all(old(claims)@, test@, subtests.deep_view(), commit@, now),
        r.1 == any_reclaimed(old(claims)@, test@, subtests.deep_view(), commit@, now),
{
    let ghost subs = subtests.deep_view();
    let ghost locks0 = old(claims)@;
    let n = subtests.len();
    let mut out: Vec<Vec<u8>> = Vec::new();
    let mut reclaimed_any = false;
    let mut i: usize = 0;
    proof {
        assert(subs.take(0) =~= Seq::<Seq<u8>>::empty());
        assert(out.deep_view() =~= Seq::<Seq<u8>>::empty());
    }
    while i < n
        invariant
            claims.wf(),
            results.wf(),
            subs == subtests.deep_view(),
            locks0 == old(claims)@,
            n == subs.len(),
            i <= n,
            out.deep_view() == missing_list(test@, subs.take(i as int), results@, locks0, commit@, now),
            claims@ == reclaim_all(locks0, test@, subs.take(i as int), commit@, now),
            reclaimed_any == any_reclaimed(locks0, test@, subs.take(i as int), commit@, now),
        decreases n - i,
    {
        let ghost pre_locks = claims@;
        let sub = &subtests[i];
        proof {
            assert(subs[i as int] == subtests@[i as int]@);
        }
        let full = subtest_full_name(test, sub.as_slice());
        let (held, reclaimed) = claims.check_lock(commit, full.as_slice(), now);
        let missing = !have_result(results, full.as_slice(), now) && !held;
        proof {
            let t1 = subs.take(i + 1);
            assert(t1.drop_last() =~= subs.take(i as int));
            assert(t1.last() == subs[i as int]);
            let key = subtest_key(commit@, test@, subs[i as int]);
            lemma_reclaimed_decision(locks0, test@, subs.take(i as int), commit@, now, key);
            lemma_reclaim_all_frame(locks0, test@, subs.take(i as int), commit@, now);
            assert(missing == is_missing(test@, subs[i as int], results@, locks0, commit@, now));
        }
        if missing {
            let ghost pre = out.deep_view();
            out.push(vstd::slice::slice_to_vec(sub.as_slice()));
            proof {
                assert(out.deep_view() =~~= pre.push(subs[i as int]));
            }
        }
        if reclaimed {
            reclaimed_any = true;
        }
        i += 1;
    }
    proof {
        assert(subs.take(n as int) =~= subs);
    }
    (out, reclaimed_any)
}

/// One commit handed to the generator: its id and its cached results.
pub struct CommitEntry {
    pub commit: Vec<u8>,
    pub results: TestResultsMap,
}

pub open spec fn commit_entry_wf(c: CommitEntry) -> bool {
    c.results.wf()
}

/// The expected duration a job is labelled with.
pub open spec fn spec_expected(
    tbl: Option<Seq<(Seq<u8>, TestStats)>>,
    test: Seq<u8>,
    sub: Seq<u8>,
    def: u64,
) -> u64 {
    match tbl {
        None => def,
        Some(t) => match spec_lookup(t, spec_subtest_full_name(test, sub)) {
            None => def,
            Some(s) => s.duration,
        },
    }
}

/// The statistics a job's nice is computed from.
pub open spec fn spec_stats_of(
    tbl: Option<Seq<(Seq<u8>, TestStats)>>,
    test: Seq<u8>,
    sub: Seq<u8>,
) -> Option<TestStats> {
    match tbl {
        None => None,
        Some(t) => spec_lookup(t, spec_subtest_full_name(test, sub)),
    }
}

/// Every field a generated job must carry for commit index `c` and subtest
/// `sub`.
pub open spec fn job_fields_ok(
    j: TestJob,
    user: Seq<u8>,
    branch: Seq<u8>,
    test: Seq<u8>,
    commits: Seq<CommitEntry>,
    c: int,
    tbl: Option<Seq<(Seq<u8>, TestStats)>>,
    group_nice: u64,
    group_tap: u64,
    group_tdn: u64,
    def: u64,
) -> bool {
    &&& j.user@ == user
    &&& j.branch@ == branch
    &&& j.test@ == test
    &&& 0 <= c < commits.len()
    &&& j.commit@ == commits[c].commit@
    &&& j.age == c
    &&& j.nice == spec_job_nice(
        group_nice,
        group_tap,
        group_tdn,
        spec_stats_of(tbl, test, j.subtest@),
    )
    &&& j.expected_duration == spec_expected(tbl, test, j.subtest@, def)
}

/// One generated job is sound: correctly labelled, for a listed subtest that
/// really is missing on its commit.
pub open spec fn job_sound(
    j: TestJob,
    user: Seq<u8>,
    branch: Seq<u8>,
    test: Seq<u8>,
    subs: Seq<Seq<u8>>,
    commits: Seq<CommitEntry>,
    tbl: Option<Seq<(Seq<u8>, TestStats)>>,
    group_nice: u64,
    group_tap: u64,
    group_tdn: u64,
    def: u64,
    locks0: Map<Seq<u8>, LockState>,
    now: u64,
) -> bool {
    exists|c: int|
        #![trigger commits[c]]
        {
            &&& job_fields_ok(
                j,
                user,
                branch,
                test,
                commits,
                c,
                tbl,
                group_nice,
                group_tap,
                group_tdn,
                def,
            )
            &&& subs.contains(j.subtest@)
            &&& is_missing(test, j.subtest@, commits[c].results@, locks0, commits[c].commit@, now)
        }
}

/// Some job in `out` covers the missing subtest `sub` of the commit at
/// index `c`.
pub open spec fn has_job_for(out: Seq<TestJob>, commit: Seq<u8>, c: int, sub: Seq<u8>) -> bool {
    exists|ji: int|
        0 <= ji < out.len() && (#[trigger] out[ji]).commit@ == commit && out[ji].age == c
            && out[ji].subtest@ == sub
}

proof fn lemma_has_job_push(out: Seq<TestJob>, j: TestJob, commit: Seq<u8>, c: int, sub: Seq<u8>)
    requires
        has_job_for(out, commit, c, sub),
    ensures
        has_job_for(out.push(j), commit, c, sub),
{
    let ji = choose|ji: int|
        0 <= ji < out.len() && (#[trigger] out[ji]).commit@ == commit && out[ji].age == c
            && out[ji].subtest@ == sub;
    assert(out.push(j)[ji] == out[ji]);
}

/// Walk the given commits (newest first, age = position) and emit one job
/// per missing subtest, together with the ids of commits whose stale markers
/// were reclaimed (their cached results must be rebuilt).
pub fn branch_test_jobs(
    user: &[u8],
    branch: &[u8],
    test: &[u8],
    subtests: &Vec<Vec<u8>>,
    commits: &Vec<CommitEntry>,
    group_nice: u64,
    group_tap: u64,
    group_tdn: u64,
    durations: Option<&DurationTable>,
    def_duration: u64,
    claims: &mut ClaimSet,
    now: u64,
) -> (r: (Vec<TestJob>, Vec<Vec<u8>>))
    requires
        old(claims).wf(),
        forall|c: int| 0 <= c < commits@.len() ==> commit_entry_wf(#[trigger] commits@[c]),
        commits@.len() <= u64::MAX,
        match durations {
            Some(t) => t.wf(),
            None => true,
        },
    ensures
        final(claims).wf(),
        // soundness: every job is a missing subtest of its commit, correctly
        // labelled
        forall|ji: int|
            0 <= ji < r.0@.len() ==> job_sound(
                #[trigger] r.0@[ji],
                user@,
                branch@,
                test@,
                subtests.deep_view(),
                commits@,
                tbl_vw(durations),
                group_nice,
                group_tap,
                group_tdn,
                def_duration,
                old(claims)@,
                now,
            ),
        // completeness: every missing subtest of every commit appears as a job
        forall|c: int, si: int|
            0 <= c < commits@.len() && 0 <= si < subtests.deep_view().len() && is_missing(
                test@,
                #[trigger] subtests.deep_view()[si],
                (#[trigger] commits@[c]).results@,
                old(claims)@,
                commits@[c].commit@,
                now,
            ) ==> has_job_for(r.0@, commits@[c].commit@, c, subtests.deep_view()[si]),
        // jobs come out grouped by commit, in walk order
        forall|i: int, j: int|
            0 <= i < j < r.0@.len() ==> (#[trigger] r.0@[i]).age <= (#[trigger] r.0@[j]).age,
{
    let ghost subs = subtests.deep_view();
    let ghost locks0 = old(claims)@;
    let ghost tblv = tbl_vw(durations);
    let n = commits.len();
    let mut out: Vec<TestJob> = Vec::new();
    let mut dirty: Vec<Vec<u8>> = Vec::new();
    let mut c: usize = 0;
    while c < n
        invariant
            claims.wf(),
            subs == subtests.deep_view(),
            tblv == tbl_vw(durations),
            forall|k: int| 0 <= k < commits@.len() ==> commit_entry_wf(#[trigger] commits@[k]),
            commits@.len() <= u64::MAX,
            match durations {
                Some(t) => t.wf(),
                None => true,
            },
            n == commits@.len(),
            c <= n,
            locks0 == old(claims)@,
            forall|k: Seq<u8>| #[trigger]
                claims@.dom().contains(k) ==> locks0.dom().contains(k) && claims@[k] == locks0[k],
            forall|k: Seq<u8>|
                locks0.dom().contains(k) && !#[trigger] claims@.dom().contains(k)
                    ==> spec_lock_stale(locks0[k], now),
            forall|ji: int|
                0 <= ji < out@.len() ==> job_sound(
                    #[trigger] out@[ji],
                    user@,
                    branch@,
                    test@,
                    subs,
                    commits@,
                    tblv,
                    group_nice,
                    group_tap,
                    group_tdn,
                    def_duration,
                    locks0,
                    now,
                ),
            forall|cc: int, si: int|
                0 <= cc < c && 0 <= si < subs.len() && is_missing(
                    test@,
                    #[trigger] subs[si],
                    (#[trigger] commits@[cc]).results@,
                    locks0,
                    commits@[cc].commit@,
                    now,
                ) ==> has_job_for(out@, commits@[cc].commit@, cc, subs[si]),
            forall|ji: int| 0 <= ji < out@.len() ==> (#[trigger] out@[ji]).age <= c,
            forall|i: int, j: int|
                0 <= i < j < out@.len() ==> (#[trigger] out@[i]).age <= (#[trigger] out@[j]).age,
        decreases n - c,
    {
        let entry = &commits[c];
        let ghost pre_locks = claims@;
        let (missing, reclaimed) = missing_subtests(
            test,
            subtests,
            &entry.results,
            claims,
            entry.commit.as_slice(),
            now,
        );
        proof {
            lemma_missing_vs_original(
                locks0,
                pre_locks,
                test@,
                subs,
                commits@[c as int].results@,
                commits@[c as int].commit@,
                now,
            );
            lemma_reclaim_all_preserves_frame(
                locks0,
                pre_locks,
                test@,
                subs,
                commits@[c as int].commit@,
                now,
            );
        }
        if reclaimed {
            dirty.push(vstd::slice::slice_to_vec(entry.commit.as_slice()));
        }
        let ghost ml = missing_list(
            test@,
            subs,
            commits@[c as int].results@,
            locks0,
            commits@[c as int].commit@,
            now,
        );
        let m = missing.len();
        let mut si: usize = 0;
        while si < m
            invariant
                claims.wf(),
                subs == subtests.deep_view(),
                tblv == tbl_vw(durations),
                forall|k: int| 0 <= k < commits@.len() ==> commit_entry_wf(#[trigger] commits@[k]),
                commits@.len() <= u64::MAX,
                match durations {
                    Some(t) => t.wf(),
                    None => true,
                },
                n == commits@.len(),
                c < n,
                si <= m,
                entry.commit@ == commits@[c as int].commit@,
                locks0 == old(claims)@,
                m == ml.len(),
                missing.deep_view() == ml,
                ml == missing_list(
                    test@,
                    subs,
                    commits@[c as int].results@,
                    locks0,
                    commits@[c as int].commit@,
                    now,
                ),
                forall|k: Seq<u8>| #[trigger]
                    claims@.dom().contains(k) ==> locks0.dom().contains(k) && claims@[k]
                        == locks0[k],
                forall|k: Seq<u8>|
                    locks0.dom().contains(k) && !#[trigger] claims@.dom().contains(k)
                        ==> spec_lock_stale(locks0[k], now),
                forall|ji: int|
                    0 <= ji < out@.len() ==> job_sound(
                        #[trigger] out@[ji],
                        user@,
                        branch@,
                        test@,
                        subs,
                        commits@,
                        tblv,
                        group_nice,
                        group_tap,
                        group_tdn,
                        def_duration,
                        locks0,
                        now,
                    ),
                forall|cc: int, sj: int|
                    0 <= cc < c && 0 <= sj < subs.len() && is_missing(
                        test@,
                        #[trigger] subs[sj],
                        (#[trigger] commits@[cc]).results@,
                        locks0,
                        commits@[cc].commit@,
                        now,
                    ) ==> has_job_for(out@, commits@[cc].commit@, cc, subs[sj]),
                forall|sj: int|
                    0 <= sj < si ==> has_job_for(
                        out@,
                        commits@[c as int].commit@,
                        c as int,
                        #[trigger] ml[sj],
                    ),
                forall|ji: int| 0 <= ji < out@.len() ==> (#[trigger] out@[ji]).age <= c,
                forall|i: int, j: int|
                    0 <= i < j < out@.len() ==> (#[trigger] out@[i]).age <= (#[trigger] out@[j]).age,
            decreases m - si,
        {
            let sub = &missing[si];
            proof {
                assert(ml[si as int] == missing@[si as int]@);
                lemma_missing_list_member(
                    test@,
                    subs,
                    commits@[c as int].results@,
                    locks0,
                    commits@[c as int].commit@,
                    now,
                    si as int,
                );
            }
            let st = test_stats(durations, test, sub.as_slice());
            let expected = match &st {
                Some(s) => s.duration,
                None => def_duration,
            };
            let nice = job_nice(group_nice, group_tap, group_tdn, st);
            let j = TestJob {
                user: vstd::slice::slice_to_vec(user),
                branch: vstd::slice::slice_to_vec(branch),
                commit: vstd::slice::slice_to_vec(entry.commit.as_slice()),
                age: c as u64,
                nice,
                expected_duration: expected,
                test: vstd::slice::slice_to_vec(test),
                subtest: vstd::slice::slice_to_vec(sub.as_slice()),
            };
            let ghost jv = j;
            let ghost pre_out = out@;
            out.push(j);
            proof {
                let cc = c as int;
                assert(jv.subtest@ == ml[si as int]);
                assert(jv.commit@ == commits@[cc].commit@);
                assert(st == spec_stats_of(tblv, test@, jv.subtest@));
                assert(job_fields_ok(
                    jv,
                    user@,
                    branch@,
                    test@,
                    commits@,
                    cc,
                    tblv,
                    group_nice,
                    group_tap,
                    group_tdn,
                    def_duration,
                ));
                assert(job_sound(
                    jv,
                    user@,
                    branch@,
                    test@,
                    subs,
                    commits@,
                    tblv,
                    group_nice,
                    group_tap,
                    group_tdn,
                    def_duration,
                    locks0,
                    now,
                ));
                assert(out@ == pre_out.push(jv));
                assert(forall|ji: int| 0 <= ji < pre_out.len() ==> out@[ji] == pre_out[ji]);
                assert(out@[pre_out.len() as int] == jv);
                assert forall|cc2: int, sj: int|
                    0 <= cc2 < c && 0 <= sj < subs.len() && is_missing(
                        test@,
                        #[trigger] subs[sj],
                        (#[trigger] commits@[cc2]).results@,
                        locks0,
                        commits@[cc2].commit@,
                        now,
                    ) implies has_job_for(out@, commits@[cc2].commit@, cc2, subs[sj]) by {
                    lemma_has_job_push(pre_out, jv, commits@[cc2].commit@, cc2, subs[sj]);
                }
                assert forall|sj: int| 0 <= sj < si + 1 implies has_job_for(
                    out@,
                    commits@[cc].commit@,
                    cc,
                    #[trigger] ml[sj],
                ) by {
                    if sj < si {
                        lemma_has_job_push(pre_out, jv, commits@[cc].commit@, cc, ml[sj]);
                    } else {
                        assert(has_job_for(out@, commits@[cc].commit@, cc, ml[sj]));
                    }
                }
            }
            si += 1;
        }
        proof {
            assert forall|sj: int|
                0 <= sj < subs.len() && is_missing(
                    test@,
                    #[trigger] subs[sj],
                    commits@[c as int].results@,
                    locks0,
                    commits@[c as int].commit@,
                    now,
                ) implies has_job_for(out@, commits@[c as int].commit@, c as int, subs[sj]) by {
                lemma_missing_list_complete(
                    test@,
                    subs,
                    commits@[c as int].results@,
                    locks0,
                    commits@[c as int].commit@,
                    now,
                    sj,
                );
                let mi = choose|mi: int| 0 <= mi < ml.len() && ml[mi] == subs[sj];
                assert(has_job_for(out@, commits@[c as int].commit@, c as int, ml[mi]));
            }
        }
        c += 1;
    }
    (out, dirty)
}

/// The duration table's specification view.
pub open spec fn tbl_vw(durations: Option<&DurationTable>) -> Option<Seq<(Seq<u8>, TestStats)>> {
    match durations {
        None => None,
        Some(t) => Some(t@),
    }
}

/// Each member of the missing list is a missing subtest of the list.
proof fn lemma_missing_list_member(
    test: Seq<u8>,
    subs: Seq<Seq<u8>>,
    results: Seq<(Seq<u8>, TestResult)>,
    locks: Map<Seq<u8>, LockState>,
    commit: Seq<u8>,
    now: u64,
    mi: int,
)
    requires
        0 <= mi < missing_list(test, subs, results, locks, commit, now).len(),
    ensures
        subs.contains(missing_list(test, subs, results, locks, commit, now)[mi]),
        is_missing(
            test,
            missing_list(test, subs, results, locks, commit, now)[mi],
            results,
            locks,
            commit,
            now,
        ),
    decreases subs.len(),
{
    if subs.len() > 0 {
        let rest = missing_list(test, subs.drop_last(), results, locks, commit, now);
        if mi < rest.len() {
            lemma_missing_list_member(test, subs.drop_last(), results, locks, commit, now, mi);
            assert(subs.drop_last().contains(rest[mi]));
            let w = choose|w: int|
                0 <= w < subs.drop_last().len() && subs.drop_last()[w] == rest[mi];
            assert(subs[w] == rest[mi]);
        } else {
            assert(subs.last() == subs[subs.len() - 1]);
        }
    }
}

/// Every missing subtest appears in the missing list.
proof fn lemma_missing_list_complete(
    test: Seq<u8>,
    subs: Seq<Seq<u8>>,
    results: Seq<(Seq<u8>, TestResult)>,
    locks: Map<Seq<u8>, LockState>,
    commit: Seq<u8>,
    now: u64,
    sj: int,
)
    requires
        0 <= sj < subs.len(),
        is_missing(test, subs[sj], results, locks, commit, now),
    ensures
        exists|mi: int|
            0 <= mi < missing_list(test, subs, results, locks, commit, now).len() && missing_list(
                test,
                subs,
                results,
                locks,
                commit,
                now,
            )[mi] == subs[sj],
    decreases subs.len(),
{
    let ml = missing_list(test, subs, results, locks, commit, now);
    let rest = missing_list(test, subs.drop_last(), results, locks, commit, now);
    if sj == subs.len() - 1 {
        assert(ml[ml.len() - 1] == subs[sj]);
    } else {
        assert(subs.drop_last()[sj] == subs[sj]);
        lemma_missing_list_complete(test, subs.drop_last(), results, locks, commit, now, sj);
        let mi = choose|mi: int| 0 <= mi < rest.len() && rest[mi] == subs[sj];
        assert(ml[mi] == subs[sj]);
    }
}

/// A missing list computed against a reclaim-only evolution of the original
/// marker directory is the same as against the original.
proof fn lemma_missing_vs_original(
    locks0: Map<Seq<u8>, LockState>,
    cur: Map<Seq<u8>, LockState>,
    test: Seq<u8>,
    subs: Seq<Seq<u8>>,
    results: Seq<(Seq<u8>, TestResult)>,
    commit: Seq<u8>,
    now: u64,
)
    requires
        forall|k: Seq<u8>| #[trigger] cur.dom().contains(k) ==> locks0.dom().contains(k) && cur[k]
            == locks0[k],
        forall|k: Seq<u8>|
            locks0.dom().contains(k) && !#[trigger] cur.dom().contains(k) ==> spec_lock_stale(
                locks0[k],
                now,
            ),
    ensures
        missing_list(test, subs, results, cur, commit, now) == missing_list(
            test,
            subs,
            results,
            locks0,
            commit,
            now,
        ),
    decreases subs.len(),
{
    if subs.len() > 0 {
        lemma_missing_vs_original(locks0, cur, test, subs.drop_last(), results, commit, now);
        let key = subtest_key(commit, test, subs.last());
        assert(m_reclaim(cur, key, now).dom().contains(key) == m_reclaim(
            locks0,
            key,
            now,
        ).dom().contains(key)) by {
            if cur.dom().contains(key) {
                assert(cur[key] == locks0[key]);
            } else {
                if locks0.dom().contains(key) {
                    assert(spec_lock_stale(locks0[key], now));
                }
            }
        }
        assert(is_missing(test, subs.last(), results, cur, commit, now) == is_missing(
            test,
            subs.last(),
            results,
            locks0,
            commit,
            now,
        ));
    }
}

/// A reclaim-only evolution, evolved further by reclaims, is still a
/// reclaim-only evolution of the original.
proof fn lemma_reclaim_all_preserves_frame(
    locks0: Map<Seq<u8>, LockState>,
    cur: Map<Seq<u8>, LockState>,
    test: Seq<u8>,
    subs: Seq<Seq<u8>>,
    commit: Seq<u8>,
    now: u64,
)
    requires
        forall|k: Seq<u8>| #[trigger] cur.dom().contains(k) ==> locks0.dom().contains(k) && cur[k]
            == locks0[k],
        forall|k: Seq<u8>|
            locks0.dom().contains(k) && !#[trigger] cur.dom().contains(k) ==> spec_lock_stale(
                locks0[k],
                now,
            ),
    ensures
        ({
            let m = reclaim_all(cur, test, subs, commit, now);
            &&& forall|k: Seq<u8>| #[trigger]
                m.dom().contains(k) ==> locks0.dom().contains(k) && m[k] == locks0[k]
            &&& forall|k: Seq<u8>|
                locks0.dom().contains(k) && !#[trigger] m.dom().contains(k) ==> spec_lock_stale(
                    locks0[k],
                    now,
                )
        }),
{
    lemma_reclaim_all_frame(cur, test, subs, commit, now);
    let m = reclaim_all(cur, test, subs, commit, now);
    assert forall|k: Seq<u8>| #[trigger] m.dom().contains(k) implies locks0.dom().contains(k)
        && m[k] == locks0[k] by {
        assert(cur.dom().contains(k));
    }
    assert forall|k: Seq<u8>|
        locks0.dom().contains(k) && !#[trigger] m.dom().contains(k) implies spec_lock_stale(
        locks0[k],
        now,
    ) by {
        if cur.dom().contains(k) {
            assert(spec_lock_stale(cur[k], now));
            assert(cur[k] == locks0[k]);
        }
    }
}

} // verus!
