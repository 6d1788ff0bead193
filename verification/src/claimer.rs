//! The claim pass: scan a queue from its most urgent end, claim subtests one
//! by one until the batch would span a second (commit, test) pair or exceed
//! the duration budget, and report where the file should be truncated.

use vstd::prelude::*;
use crate::queue::{QueueLine, LineV, lines_vw, line_vw};
use crate::claim::{ClaimSet, LockState, spec_claim_key, spec_lock_stale, m_claim, m_reclaim};
use crate::records::{TestStats, DurationTable};
use crate::durations::{test_stats, spec_lookup};
use crate::subtests::spec_subtest_full_name;

verus! {

/// The batch being assembled, at the specification level.
pub struct BatchV {
    pub branch: Seq<u8>,
    pub commit: Seq<u8>,
    pub age: u64,
    pub test: Seq<u8>,
    pub subtests: Seq<Seq<u8>>,
    pub dur_sum: int,
}

/// The whole pass state, at the specification level.
pub struct PassV {
    pub batch: Option<BatchV>,
    pub locks: Map<Seq<u8>, LockState>,
    pub new_len: int,
    pub dirty: Seq<Seq<u8>>,
}

/// The expected duration of one line's subtest: its historical average, or
/// the configured default when no statistics are at hand.
pub open spec fn spec_line_duration(
    tbl: Option<Seq<(Seq<u8>, TestStats)>>,
    test: Seq<u8>,
    subtest: Seq<u8>,
    def: u64,
) -> u64 {
    match tbl {
        None => def,
        Some(t) => match spec_lookup(t, spec_subtest_full_name(test, subtest)) {
            None => def,
            Some(s) => s.duration,
        },
    }
}

/// The claim pass over the last `k` remaining lines, newest first.  Scanning
/// stops at a line of a different (commit, test) pair than the batch, or
/// when the batch's duration budget would be exceeded; an already claimed
/// subtest is skipped; a claimed one joins the batch and moves the
/// truncation point to its line's offset.  Stale markers seen on the way are
/// reclaimed and their commits recorded.
pub open spec fn spec_pass(
    lines: Seq<(LineV, int)>,
    k: int,
    st: PassV,
    tbl: Option<Seq<(Seq<u8>, TestStats)>>,
    def: u64,
    max: u64,
    now: u64,
    dry: bool,
) -> PassV
    decreases k,
{
    if k <= 0 || k > lines.len() {
        st
    } else {
        let l = lines[k - 1].0;
        let off = lines[k - 1].1;
        let mismatch = match st.batch {
            Some(bv) => !(bv.commit == l.1 && bv.test == l.3),
            None => false,
        };
        if mismatch {
            st
        } else {
            let dur = spec_line_duration(tbl, l.3, l.4, def);
            let dur_sum = match st.batch {
                Some(bv) => bv.dur_sum,
                None => 0,
            };
            if dur_sum != 0 && dur_sum + dur > max {
                st
            } else {
                let full = spec_subtest_full_name(l.3, l.4);
                let key = spec_claim_key(l.1, full);
                let was_stale = st.locks.dom().contains(key) && spec_lock_stale(
                    st.locks[key],
                    now,
                );
                let m1 = m_reclaim(st.locks, key, now);
                let dirty1 = if was_stale && !st.dirty.contains(l.1) {
                    st.dirty.push(l.1)
                } else {
                    st.dirty
                };
                let claimed = !m1.dom().contains(key);
                let m2 = if dry {
                    m1
                } else {
                    m_claim(m1, key, now)
                };
                if !claimed {
                    spec_pass(
                        lines,
                        k - 1,
                        PassV { locks: m2, dirty: dirty1, ..st },
                        tbl,
                        def,
                        max,
                        now,
                        dry,
                    )
                } else {
                    let nb = match st.batch {
                        None => BatchV {
                            branch: l.0,
                            commit: l.1,
                            age: l.2,
                            test: l.3,
                            subtests: seq![l.4],
                            dur_sum: dur as int,
                        },
                        Some(bv) => BatchV {
                            subtests: bv.subtests.push(l.4),
                            dur_sum: bv.dur_sum + dur,
                            ..bv
                        },
                    };
                    spec_pass(
                        lines,
                        k - 1,
                        PassV { batch: Some(nb), locks: m2, new_len: off, dirty: dirty1 },
                        tbl,
                        def,
                        max,
                        now,
                        dry,
                    )
                }
            }
        }
    }
}

/// The truncation point only ever moves to the offset of a scanned line.
pub proof fn lemma_pass_new_len(
    lines: Seq<(LineV, int)>,
    k: int,
    st: PassV,
    tbl: Option<Seq<(Seq<u8>, TestStats)>>,
    def: u64,
    max: u64,
    now: u64,
    dry: bool,
)
    ensures
        ({
            let res = spec_pass(lines, k, st, tbl, def, max, now, dry);
            res.new_len == st.new_len || exists|i: int|
                0 <= i < k && i < lines.len() && res.new_len == #[trigger] lines[i].1
        }),
    decreases k,
{
    if 0 < k <= lines.len() {
        let res = spec_pass(lines, k, st, tbl, def, max, now, dry);
        let l = lines[k - 1].0;
        let mismatch = match st.batch {
            Some(bv) => !(bv.commit == l.1 && bv.test == l.3),
            None => false,
        };
        if !mismatch {
            let dur = spec_line_duration(tbl, l.3, l.4, def);
            let dur_sum = match st.batch {
                Some(bv) => bv.dur_sum,
                None => 0,
            };
            if !(dur_sum != 0 && dur_sum + dur > max) {
                let full = spec_subtest_full_name(l.3, l.4);
                let key = spec_claim_key(l.1, full);
                let was_stale = st.locks.dom().contains(key) && spec_lock_stale(
                    st.locks[key],
                    now,
                );
                let m1 = m_reclaim(st.locks, key, now);
                let dirty1 = if was_stale && !st.dirty.contains(l.1) {
                    st.dirty.push(l.1)
                } else {
                    st.dirty
                };
                let claimed = !m1.dom().contains(key);
                let m2 = if dry {
                    m1
                } else {
                    m_claim(m1, key, now)
                };
                if !claimed {
                    lemma_pass_new_len(
                        lines,
                        k - 1,
                        PassV { locks: m2, dirty: dirty1, ..st },
                        tbl,
                        def,
                        max,
                        now,
                        dry,
                    );
                } else {
                    let nb = match st.batch {
                        None => BatchV {
                            branch: l.0,
                            commit: l.1,
                            age: l.2,
                            test: l.3,
                            subtests: seq![l.4],
                            dur_sum: dur as int,
                        },
                        Some(bv) => BatchV {
                            subtests: bv.subtests.push(l.4),
                            dur_sum: bv.dur_sum + dur,
                            ..bv
                        },
                    };
                    lemma_pass_new_len(
                        lines,
                        k - 1,
                        PassV { batch: Some(nb), locks: m2, new_len: lines[k - 1].1, dirty: dirty1 },
                        tbl,
                        def,
                        max,
                        now,
                        dry,
                    );
                }
            }
        }
    }
}

/// Whether a queue line's (commit, test) pair belongs to the batch being
/// assembled; with no batch yet, nothing matches.
pub fn commit_test_matches(batch: &Option<ClaimBatch>, commit: &[u8], test: &[u8]) -> (r: bool)
    ensures
        r == match batch {
            Some(b) => b.commit@ == commit@ && b.test@ == test@,
            None => false,
        },
{
    match batch {
        Some(b) => crate::bytes::eq_bytes(b.commit.as_slice(), commit) && crate::bytes::eq_bytes(
            b.test.as_slice(),
            test,
        ),
        None => false,
    }
}

/// Whether adding `dur` to a batch already holding `dur_sum` seconds of
/// expected work would exceed the per-dispatch budget (a first subtest is
/// always taken).
pub fn budget_exceeded(dur_sum: u128, dur: u64, max: u64) -> (r: bool)
    requires
        dur_sum <= u128::MAX - dur,
    ensures
        r == (dur_sum != 0 && dur_sum + dur > max),
{
    dur_sum != 0 && dur_sum + (dur as u128) > (max as u128)
}

/// One claimed batch: a single (commit, test) pair and the subtests taken.
pub struct ClaimBatch {
    pub branch: Vec<u8>,
    pub commit: Vec<u8>,
    pub age: u64,
    pub test: Vec<u8>,
    pub subtests: Vec<Vec<u8>>,
}

/// The batch's specification view, given the exact duration sum.
pub open spec fn cur_batch_vw(b: Option<ClaimBatch>, ds: int) -> Option<BatchV> {
    match b {
        None => None,
        Some(b) => Some(
            BatchV {
                branch: b.branch@,
                commit: b.commit@,
                age: b.age,
                test: b.test@,
                subtests: b.subtests.deep_view(),
                dur_sum: ds,
            },
        ),
    }
}

/// The duration table's specification view.
pub open spec fn tbl_view(durations: Option<&DurationTable>) -> Option<Seq<(Seq<u8>, TestStats)>> {
    match durations {
        None => None,
        Some(t) => Some(t@),
    }
}

/// The pass state a claim pass starts from.
pub open spec fn init_pass(locks: Map<Seq<u8>, LockState>, qlen: int) -> PassV {
    PassV { batch: None, locks, new_len: qlen, dirty: Seq::empty() }
}

fn vec_contains_bytes(v: &Vec<Vec<u8>>, x: &[u8]) -> (r: bool)
    ensures
        r == v.deep_view().contains(x@),
{
    let n = v.len();
    let mut i: usize = 0;
    while i < n
        invariant
            n == v@.len(),
            i <= n,
            forall|k: int| 0 <= k < i ==> v.deep_view()[k] != x@,
        decreases n - i,
    {
        let hit = crate::bytes::eq_bytes(v[i].as_slice(), x);
        proof {
            assert(v.deep_view()[i as int] == v@[i as int]@);
        }
        if hit {
            assert(v.deep_view()[i as int] == x@);
            return true;
        }
        i += 1;
    }
    assert(forall|k: int| 0 <= k < v.deep_view().len() ==> v.deep_view()[k] != x@);
    false
}

/// Run one claim pass over the parsed queue `lines` of a file `qlen` bytes
/// long.  Returns the batch (if any), the exact sum of its expected
/// durations, the new file length to truncate to, and the commits whose
/// stale markers were reclaimed.  In a dry run markers are only probed,
/// never created, and the caller must not truncate.
pub fn claim_pass(
    lines: &Vec<QueueLine>,
    qlen: usize,
    durations: Option<&DurationTable>,
    def: u64,
    max: u64,
    claims: &mut ClaimSet,
    now: u64,
    dry: bool,
) -> (r: (Option<ClaimBatch>, u128, usize, Vec<Vec<u8>>))
    requires
        old(claims).wf(),
        match durations {
            Some(t) => t.wf(),
            None => true,
        },
    ensures
        final(claims).wf(),
        ({
            let res = spec_pass(
                lines_vw(lines@),
                lines@.len() as int,
                init_pass(old(claims)@, qlen as int),
                tbl_view(durations),
                def,
                max,
                now,
                dry,
            );
            &&& res.batch == cur_batch_vw(r.0, r.1 as int)
            &&& res.locks == final(claims)@
            &&& res.new_len == r.2 as int
            &&& res.dirty == r.3.deep_view()
            &&& (r.0 is None ==> r.1 == 0)
        }),
{
    let ghost lv = lines_vw(lines@);
    let ghost n_g = lines@.len();
    let ghost tblv = tbl_view(durations);
    let ghost st0 = init_pass(old(claims)@, qlen as int);
    let n = lines.len();
    let mut k: usize = n;
    let mut batch: Option<ClaimBatch> = None;
    let mut dur_sum: u128 = 0;
    let mut new_len: usize = qlen;
    let mut dirty: Vec<Vec<u8>> = Vec::new();
    let mut done: bool = false;
    proof {
        assert(dirty.deep_view() =~= Seq::<Seq<u8>>::empty());
        assert(spec_pass(lv, n_g as int, st0, tblv, def, max, now, dry) == spec_pass(
            lv,
            k as int,
            PassV {
                batch: cur_batch_vw(batch, dur_sum as int),
                locks: claims@,
                new_len: new_len as int,
                dirty: dirty.deep_view(),
            },
            tblv,
            def,
            max,
            now,
            dry,
        ));
    }
    while k > 0 && !done
        invariant
            claims.wf(),
            match durations {
                Some(t) => t.wf(),
                None => true,
            },
            lv == lines_vw(lines@),
            n == lines@.len(),
            n_g == n,
            tblv == tbl_view(durations),
            st0 == init_pass(old(claims)@, qlen as int),
            k <= n,
            batch is None ==> dur_sum == 0,
            dur_sum <= (n - k) as int * 0xffff_ffff_ffff_ffffint,
            spec_pass(lv, n as int, st0, tblv, def, max, now, dry) == if done {
                PassV {
                    batch: cur_batch_vw(batch, dur_sum as int),
                    locks: claims@,
                    new_len: new_len as int,
                    dirty: dirty.deep_view(),
                }
            } else {
                spec_pass(
                    lv,
                    k as int,
                    PassV {
                        batch: cur_batch_vw(batch, dur_sum as int),
                        locks: claims@,
                        new_len: new_len as int,
                        dirty: dirty.deep_view(),
                    },
                    tblv,
                    def,
                    max,
                    now,
                    dry,
                )
            },
        decreases k + (if done {
            0int
        } else {
            1int
        }),
    {
        let ghost cur = PassV {
            batch: cur_batch_vw(batch, dur_sum as int),
            locks: claims@,
            new_len: new_len as int,
            dirty: dirty.deep_view(),
        };
        let line = &lines[k - 1];
        proof {
            assert(lv[k - 1] == line_vw(lines@[k - 1]));
        }
        let ghost l = lv[k - 1].0;
        // A batch never spans two (commit, test) pairs.
        let has_batch = match &batch {
            Some(_) => true,
            None => false,
        };
        let mismatch = has_batch && !commit_test_matches(
            &batch,
            line.commit.as_slice(),
            line.test.as_slice(),
        );
        if mismatch {
            done = true;
            continue ;
        }
        // The expected duration of this subtest.
        let st = test_stats(durations, line.test.as_slice(), line.subtest.as_slice());
        let dur = match st {
            Some(s) => s.duration,
            None => def,
        };
        proof {
            assert(dur == spec_line_duration(tblv, l.3, l.4, def));
        }
        // The batch's duration budget.
        if dur_sum != 0 && dur_sum + (dur as u128) > (max as u128) {
            done = true;
            continue ;
        }
        let full = crate::subtests::subtest_full_name(
            line.test.as_slice(),
            line.subtest.as_slice(),
        );
        let (claimed, reclaimed) = if dry {
            let (held, reclaimed) = claims.check_lock(line.commit.as_slice(), full.as_slice(), now);
            (!held, reclaimed)
        } else {
            claims.claim_lock(line.commit.as_slice(), full.as_slice(), now)
        };
        if reclaimed && !vec_contains_bytes(&dirty, line.commit.as_slice()) {
            let ghost pre = dirty.deep_view();
            dirty.push(vstd::slice::slice_to_vec(line.commit.as_slice()));
            proof {
                assert(dirty.deep_view() =~~= pre.push(l.1));
            }
        }
        if claimed {
            proof {
                assert(dur_sum + (dur as u128) <= (n - (k - 1)) as int
                    * 0xffff_ffff_ffff_ffffint) by (nonlinear_arith)
                    requires
                        dur_sum <= (n - k) as int * 0xffff_ffff_ffff_ffffint,
                        0 <= dur <= 0xffff_ffff_ffff_ffffu64,
                        0 < k <= n,
                ;
            }
            let subtest_copy = vstd::slice::slice_to_vec(line.subtest.as_slice());
            batch = match batch {
                None => Some(
                    ClaimBatch {
                        branch: vstd::slice::slice_to_vec(line.branch.as_slice()),
                        commit: vstd::slice::slice_to_vec(line.commit.as_slice()),
                        age: line.age,
                        test: vstd::slice::slice_to_vec(line.test.as_slice()),
                        subtests: vec![subtest_copy],
                    },
                ),
                Some(mut b) => {
                    let ghost presub = b.subtests.deep_view();
                    b.subtests.push(subtest_copy);
                    proof {
                        assert(b.subtests.deep_view() =~~= presub.push(l.4));
                    }
                    Some(b)
                },
            };
            proof {
                match &batch {
                    Some(b) => {
                        assert(b.subtests.deep_view() =~~= match cur.batch {
                            None => seq![l.4],
                            Some(bv) => bv.subtests.push(l.4),
                        });
                    },
                    None => {
                        assert(false);
                    },
                }
            }
            dur_sum = dur_sum + (dur as u128);
            new_len = line.offset;
        }
        k -= 1;
        proof {
            let nxt = PassV {
                batch: cur_batch_vw(batch, dur_sum as int),
                locks: claims@,
                new_len: new_len as int,
                dirty: dirty.deep_view(),
            };
            assert(spec_pass(lv, k + 1, cur, tblv, def, max, now, dry) == spec_pass(
                lv,
                k as int,
                nxt,
                tblv,
                def,
                max,
                now,
                dry,
            ));
        }
    }
    proof {
        if !done {
            assert(spec_pass(lv, 0, PassV {
                batch: cur_batch_vw(batch, dur_sum as int),
                locks: claims@,
                new_len: new_len as int,
                dirty: dirty.deep_view(),
            }, tblv, def, max, now, dry) == PassV {
                batch: cur_batch_vw(batch, dur_sum as int),
                locks: claims@,
                new_len: new_len as int,
                dirty: dirty.deep_view(),
            });
        }
    }
    (batch, dur_sum, new_len, dirty)
}

} // verus!
