//! Fair-share accounting: exponentially decayed recent runtime per user,
//! and the rule that picks which user's queue to serve next.
//!
//! The decay halves a user's recent runtime every 24 hours.  Whole
//! half-lives are applied as halvings; the remainder of a half-life is
//! applied as a linear interpolation between 1 and 1/2, so the value at
//! exactly one half-life is exactly the integer half.

use vstd::prelude::*;
use vstd::arithmetic::div_mod::{
    lemma_div_is_ordered,
    lemma_div_multiples_vanish,
    lemma_div_pos_is_pos,
};
use vstd::arithmetic::mul::lemma_mul_is_commutative;
use crate::records::UserStats;

verus! {

/// One half-life of the recent-runtime decay, in seconds.
pub const HALFLIFE_SECONDS: u64 = 86400;

/// `x` decayed from time `t0` to time `t1` (both in seconds); times that do
/// not advance leave the value unchanged.
pub open spec fn spec_decay(x: u64, t0: u64, t1: u64) -> u64 {
    if t1 <= t0 {
        x
    } else {
        let dt = t1 - t0;
        let n = dt / (HALFLIFE_SECONDS as int);
        let r = dt % (HALFLIFE_SECONDS as int);
        let base: int = if n >= 64 {
            0
        } else {
            (x >> (n as u64)) as int
        };
        ((base * (2 * HALFLIFE_SECONDS - r)) / (2 * HALFLIFE_SECONDS as int)) as u64
    }
}

/// Compute the decayed value.
pub fn decay(x: u64, t0: u64, t1: u64) -> (res: u64)
    ensures
        res == spec_decay(x, t0, t1),
{
    if t1 <= t0 {
        return x;
    }
    let dt = t1 - t0;
    let n = dt / HALFLIFE_SECONDS;
    let rem = dt % HALFLIFE_SECONDS;
    let base: u64 = if n >= 64 {
        0
    } else {
        x >> n
    };
    let factor: u64 = 2 * HALFLIFE_SECONDS - rem;
    proof {
        assert((base as int) * (factor as int) <= 0xffff_ffff_ffff_ffffint * 172800int) by (nonlinear_arith)
            requires
                0 <= base <= 0xffff_ffff_ffff_ffffu64,
                0 <= factor <= 172800u64,
        ;
    }
    let num: u128 = (base as u128) * (factor as u128);
    let q: u128 = num / ((2 * HALFLIFE_SECONDS) as u128);
    proof {
        let bi = base as int;
        let d = 2 * HALFLIFE_SECONDS as int;
        let rm = rem as int;
        assert(bi * (d - rm) <= bi * d) by (nonlinear_arith)
            requires
                bi >= 0,
                rm >= 0,
                d >= 0,
        ;
        lemma_div_is_ordered(bi * (d - rm), bi * d, d);
        lemma_mul_is_commutative(bi, d);
        lemma_div_multiples_vanish(bi, d);
        assert(q == bi * (d - rm) / d);
        assert(q <= bi);
    }
    q as u64
}

/// No time elapsed: nothing decays.
pub proof fn lemma_decay_now(x: u64, t: u64)
    ensures
        spec_decay(x, t, t) == x,
{
}

/// Exactly one half-life halves the value (integer division by two).
pub proof fn lemma_decay_halflife(x: u64, t0: u64, t1: u64)
    requires
        t1 == t0 + HALFLIFE_SECONDS,
    ensures
        spec_decay(x, t0, t1) == x / 2,
{
    let d = 2 * HALFLIFE_SECONDS as int;
    assert(x >> 1u64 == x / 2) by (bit_vector);
    let base = (x / 2) as int;
    lemma_mul_is_commutative(base, d);
    lemma_div_multiples_vanish(base, d);
    assert((base * d) / d == base);
}

/// Decay never increases a value.
pub proof fn lemma_decay_le(x: u64, t0: u64, t1: u64)
    ensures
        spec_decay(x, t0, t1) <= x,
{
    if t1 > t0 {
        let dt = t1 - t0;
        let n = dt / (HALFLIFE_SECONDS as int);
        let r = dt % (HALFLIFE_SECONDS as int);
        let base: int = if n >= 64 {
            0
        } else {
            (x >> (n as u64)) as int
        };
        let d = 2 * HALFLIFE_SECONDS as int;
        if n < 64 {
            let nu = n as u64;
            assert(x >> nu <= x) by (bit_vector);
        }
        assert(base * (d - r) <= base * d) by (nonlinear_arith)
            requires
                base >= 0,
                r >= 0,
                d >= 0,
        ;
        lemma_div_is_ordered(base * (d - r), base * d, d);
        lemma_mul_is_commutative(base, d);
        lemma_div_multiples_vanish(base, d);
    }
}

/// After sixty-four half-lives nothing is left: a user who receives no work
/// long enough always becomes eligible again.
pub proof fn lemma_decay_exhausted(x: u64, t0: u64, t1: u64)
    requires
        t1 - t0 >= 64 * HALFLIFE_SECONDS,
    ensures
        spec_decay(x, t0, t1) == 0,
{
    let dt = t1 - t0;
    let n = dt / (HALFLIFE_SECONDS as int);
    let r = dt % (HALFLIFE_SECONDS as int);
    let d = 2 * HALFLIFE_SECONDS as int;
    assert(n >= 64) by (nonlinear_arith)
        requires
            dt >= 64 * 86400,
            n == dt / 86400int,
    ;
    assert(0int * (d - r) == 0) by (nonlinear_arith);
    lemma_div_pos_is_pos(0, d);
    lemma_div_is_ordered(0, 0, d);
    assert(0int / d == 0);
}

// ----------------------------------------------------------- the scheduler

/// Saturating addition on seconds.
pub open spec fn sat_add(a: u64, b: u64) -> u64 {
    if a + b > u64::MAX {
        u64::MAX
    } else {
        (a + b) as u64
    }
}

/// The priority multiplier for a configured nice override, in tenths: never
/// below one tenth.
pub open spec fn spec_factor_tenths(nice_tenths: i64) -> int {
    if nice_tenths <= -9 {
        1
    } else {
        10 + nice_tenths
    }
}

/// A user's effective recent runtime, in tenths of a second: the decayed
/// recent runtime scaled by the nice multiplier.
pub open spec fn spec_effective(recent: u64, last: u64, now: u64, nice_tenths: i64) -> int {
    (spec_decay(recent, last, now) as int) * spec_factor_tenths(nice_tenths)
}

/// The first accounting record for `name`, if any.
pub open spec fn spec_find_stats(us: Seq<UserStats>, name: Seq<u8>) -> Option<UserStats>
    decreases us.len(),
{
    if us.len() == 0 {
        None
    } else if us[0].user@ == name {
        Some(us[0])
    } else {
        spec_find_stats(us.skip(1), name)
    }
}

/// A user's effective runtime under the accounting list: a user with no
/// record counts as zero (new users get maximum priority).
pub open spec fn spec_user_effective(us: Seq<UserStats>, name: Seq<u8>, nice_tenths: i64, now: u64) -> int {
    match spec_find_stats(us, name) {
        None => 0,
        Some(s) => spec_effective(s.recent_seconds, s.last_updated, now, nice_tenths),
    }
}

/// Find a user's accounting record.
pub fn find_user_stats<'a>(us: &'a Vec<UserStats>, name: &[u8]) -> (r: Option<&'a UserStats>)
    ensures
        match r {
            Some(s) => spec_find_stats(us@, name@) == Some(*s),
            None => spec_find_stats(us@, name@) is None,
        },
{
    let n = us.len();
    let mut i: usize = 0;
    proof {
        assert(us@.skip(0) =~= us@);
    }
    while i < n
        invariant
            n == us@.len(),
            i <= n,
            spec_find_stats(us@, name@) == spec_find_stats(us@.skip(i as int), name@),
        decreases n - i,
    {
        proof {
            assert(us@.skip(i as int)[0] == us@[i as int]);
            assert(us@.skip(i as int).skip(1) =~= us@.skip(i + 1));
        }
        if crate::bytes::eq_bytes(us[i].user.as_slice(), name) {
            return Some(&us[i]);
        }
        i += 1;
    }
    None
}

fn factor_tenths(nice_tenths: i64) -> (r: u64)
    ensures
        r as int == spec_factor_tenths(nice_tenths),
{
    if nice_tenths <= -9 {
        1
    } else if nice_tenths < 0 {
        (10 + nice_tenths) as u64
    } else {
        (nice_tenths as u64) + 10
    }
}

/// Compute a user's effective recent runtime in tenths of a second.
pub fn user_effective(us: &Vec<UserStats>, name: &[u8], nice_tenths: i64, now: u64) -> (r: u128)
    ensures
        r as int == spec_user_effective(us@, name@, nice_tenths, now),
{
    match find_user_stats(us, name) {
        None => 0,
        Some(s) => {
            let dec = decay(s.recent_seconds, s.last_updated, now);
            let f = factor_tenths(nice_tenths);
            proof {
                assert((dec as int) * (f as int) <= 0xffff_ffff_ffff_ffffint
                    * 0x8000_0000_0000_0009int) by (nonlinear_arith)
                    requires
                        0 <= dec <= 0xffff_ffff_ffff_ffffu64,
                        0 <= f <= 0x8000_0000_0000_0009u64,
                ;
            }
            (dec as u128) * (f as u128)
        },
    }
}

/// One user the scheduler may pick: its name and its configured nice
/// override in tenths.
pub struct UserChoice {
    pub user: Vec<u8>,
    pub nice_tenths: i64,
}

/// Effective runtime of the `j`-th available user.
pub open spec fn choice_effective(
    avail: Seq<UserChoice>,
    us: Seq<UserStats>,
    now: u64,
    j: int,
) -> int {
    spec_user_effective(us, avail[j].user@, avail[j].nice_tenths, now)
}

/// Pick the available user with the least effective recent runtime; the
/// first one wins a tie.  `None` only when no user is available.
pub fn select_user(avail: &Vec<UserChoice>, stats: &Vec<UserStats>, now: u64) -> (r: Option<usize>)
    ensures
        (r is Some) <==> avail@.len() > 0,
        match r {
            Some(i) => i < avail@.len() && (forall|j: int|
                0 <= j < avail@.len() ==> choice_effective(avail@, stats@, now, j)
                    >= choice_effective(avail@, stats@, now, i as int)) && (forall|j: int|
                0 <= j < i ==> choice_effective(avail@, stats@, now, j) > choice_effective(
                    avail@,
                    stats@,
                    now,
                    i as int,
                )),
            None => true,
        },
{
    let n = avail.len();
    if n == 0 {
        return None;
    }
    let mut best: usize = 0;
    let mut best_eff: u128 = user_effective(stats, avail[0].user.as_slice(), avail[0].nice_tenths, now);
    let mut j: usize = 1;
    while j < n
        invariant
            n == avail@.len(),
            1 <= j <= n,
            best < j,
            best_eff as int == choice_effective(avail@, stats@, now, best as int),
            forall|k: int|
                0 <= k < j ==> choice_effective(avail@, stats@, now, k) >= choice_effective(
                    avail@,
                    stats@,
                    now,
                    best as int,
                ),
            forall|k: int|
                0 <= k < best ==> choice_effective(avail@, stats@, now, k) > choice_effective(
                    avail@,
                    stats@,
                    now,
                    best as int,
                ),
        decreases n - j,
    {
        let eff = user_effective(stats, avail[j].user.as_slice(), avail[j].nice_tenths, now);
        if eff < best_eff {
            best = j;
            best_eff = eff;
        }
        j += 1;
    }
    Some(best)
}

/// Index of the first accounting record for `name`.
pub open spec fn spec_stats_index(us: Seq<UserStats>, name: Seq<u8>) -> Option<int>
    decreases us.len(),
{
    if us.len() == 0 {
        None
    } else if us[0].user@ == name {
        Some(0)
    } else {
        match spec_stats_index(us.skip(1), name) {
            None => None,
            Some(i) => Some(i + 1),
        }
    }
}

/// Record a dispatched batch of `expected` seconds for `user` at time `now`:
/// the lifetime total grows by `expected`; the recent runtime is decayed to
/// `now` and then grows by `expected`; a user without a record starts fresh.
pub fn user_stats_update(list: &mut Vec<UserStats>, user: Vec<u8>, expected: u64, now: u64)
    ensures
        match spec_stats_index(old(list)@, user@) {
            Some(j) => {
                &&& final(list)@.len() == old(list)@.len()
                &&& forall|k: int|
                    0 <= k < old(list)@.len() && k != j ==> #[trigger] final(list)@[k] == old(
                        list,
                    )@[k]
                &&& final(list)@[j].user@ == old(list)@[j].user@
                &&& final(list)@[j].total_seconds == sat_add(old(list)@[j].total_seconds, expected)
                &&& final(list)@[j].recent_seconds == sat_add(
                    spec_decay(old(list)@[j].recent_seconds, old(list)@[j].last_updated, now),
                    expected,
                )
                &&& final(list)@[j].last_updated == now
            },
            None => {
                &&& final(list)@.len() == old(list)@.len() + 1
                &&& forall|k: int|
                    0 <= k < old(list)@.len() ==> #[trigger] final(list)@[k] == old(list)@[k]
                &&& final(list)@.last().user@ == user@
                &&& final(list)@.last().total_seconds == expected
                &&& final(list)@.last().recent_seconds == expected
                &&& final(list)@.last().last_updated == now
            },
        },
{
    let ghost orig = list@;
    let n = list.len();
    let mut i: usize = 0;
    proof {
        assert(orig.skip(0) =~= orig);
    }
    while i < n
        invariant
            list@ == orig,
            orig == old(list)@,
            n == orig.len(),
            i <= n,
            match spec_stats_index(orig.skip(i as int), user@) {
                None => spec_stats_index(orig, user@) is None,
                Some(j) => spec_stats_index(orig, user@) == Some(j + i),
            },
        decreases n - i,
    {
        proof {
            assert(orig.skip(i as int)[0] == orig[i as int]);
            assert(orig.skip(i as int).skip(1) =~= orig.skip(i + 1));
        }
        if crate::bytes::eq_bytes(list[i].user.as_slice(), user.as_slice()) {
            let s = &list[i];
            let dec = decay(s.recent_seconds, s.last_updated, now);
            let total = if s.total_seconds > u64::MAX - expected {
                u64::MAX
            } else {
                s.total_seconds + expected
            };
            let recent = if dec > u64::MAX - expected {
                u64::MAX
            } else {
                dec + expected
            };
            let updated = UserStats {
                user: vstd::slice::slice_to_vec(s.user.as_slice()),
                total_seconds: total,
                recent_seconds: recent,
                last_updated: now,
            };
            list.set(i, updated);
            proof {
                assert(spec_stats_index(orig, user@) == Some(i as int));
            }
            return ;
        }
        i += 1;
    }
    proof {
        assert(orig.skip(n as int) =~= Seq::<UserStats>::empty());
        assert(spec_stats_index(orig, user@) is None);
    }
    let fresh = UserStats {
        user,
        total_seconds: expected,
        recent_seconds: expected,
        last_updated: now,
    };
    list.push(fresh);
}

/// A user's recent runtime as of `now`.
pub fn user_stats_recent(s: &UserStats, now: u64) -> (r: u64)
    ensures
        r == spec_decay(s.recent_seconds, s.last_updated, now),
{
    decay(s.recent_seconds, s.last_updated, now)
}

} // verus!
