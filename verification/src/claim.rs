//! The claim protocol: a zero-length lock marker per (commit, subtest) whose
//! atomic creation is the sole mutual-exclusion primitive, and the rule that
//! an empty marker older than the timeout is abandoned and may be reclaimed.
//!
//! `ClaimSet` is the library's model of the marker directory; the public
//! lemmas state the protocol's guarantees: at most one claim can be active,
//! and stale reclamation is idempotent.

use vstd::prelude::*;
use vstd::map::*;
use crate::namemap::{NameMap, has_key, value_at};

verus! {

/// A claim marker older than this (in seconds) with no content is abandoned.
pub const LOCK_TIMEOUT_SECONDS: u64 = 3600;

/// What is known of one marker file: its length and modification time.
#[derive(Clone, Copy, Debug, PartialEq, Eq, Structural)]
pub struct LockState {
    pub len: u64,
    pub mtime: u64,
}

/// An empty marker whose age exceeds the timeout is abandoned.
pub open spec fn spec_lock_stale(l: LockState, now: u64) -> bool {
    l.len == 0 && now > l.mtime && now - l.mtime > LOCK_TIMEOUT_SECONDS
}

/// Whether a marker with length `len` and modification time `mtime` may be
/// reclaimed at time `now`.
pub fn lock_is_stale(len: u64, mtime: u64, now: u64) -> (r: bool)
    ensures
        r == spec_lock_stale(LockState { len, mtime }, now),
{
    len == 0 && now > mtime && now - mtime > LOCK_TIMEOUT_SECONDS
}

/// The marker key of a subtest on a commit.
pub open spec fn spec_claim_key(commit: Seq<u8>, name: Seq<u8>) -> Seq<u8> {
    commit + seq![47u8] + name
}

/// Build the marker key.
pub fn claim_key(commit: &[u8], name: &[u8]) -> (r: Vec<u8>)
    ensures
        r@ == spec_claim_key(commit@, name@),
{
    let mut r: Vec<u8> = Vec::new();
    r.extend_from_slice(commit);
    r.push(47);
    r.extend_from_slice(name);
    assert(r@ =~= spec_claim_key(commit@, name@));
    r
}

// ------------------------------------------- the protocol, over ghost maps

/// Claiming succeeds exactly when no marker is present.
pub open spec fn m_claim_ok(m: Map<Seq<u8>, LockState>, k: Seq<u8>) -> bool {
    !m.dom().contains(k)
}

/// The marker directory after a claim attempt at time `now`: on success a
/// fresh empty marker appears; a failed attempt changes nothing.
pub open spec fn m_claim(m: Map<Seq<u8>, LockState>, k: Seq<u8>, now: u64) -> Map<
    Seq<u8>,
    LockState,
> {
    if m_claim_ok(m, k) {
        m.insert(k, LockState { len: 0, mtime: now })
    } else {
        m
    }
}

/// The marker directory after a reclamation attempt at time `now`: a stale
/// marker disappears; anything else stays.
pub open spec fn m_reclaim(m: Map<Seq<u8>, LockState>, k: Seq<u8>, now: u64) -> Map<
    Seq<u8>,
    LockState,
> {
    if m.dom().contains(k) && spec_lock_stale(m[k], now) {
        m.remove(k)
    } else {
        m
    }
}

/// Outcome of `n` successive claim attempts on the same key: how many
/// succeed, and the resulting directory.
pub open spec fn m_claim_successes(m: Map<Seq<u8>, LockState>, k: Seq<u8>, now: u64, n: nat) -> nat
    decreases n,
{
    if n == 0 {
        0
    } else {
        (if m_claim_ok(m, k) {
            1nat
        } else {
            0nat
        }) + m_claim_successes(m_claim(m, k, now), k, now, (n - 1) as nat)
    }
}

/// While a marker is present, no claim attempt succeeds.
pub proof fn lemma_no_success_while_held(m: Map<Seq<u8>, LockState>, k: Seq<u8>, now: u64, n: nat)
    requires
        m.dom().contains(k),
    ensures
        m_claim_successes(m, k, now, n) == 0,
    decreases n,
{
    if n > 0 {
        lemma_no_success_while_held(m_claim(m, k, now), k, now, (n - 1) as nat);
    }
}

/// At most one active claim: any number of claim attempts on one key yield
/// exactly one success if the key was free, and none if it was held.
pub proof fn lemma_exactly_one_success(m: Map<Seq<u8>, LockState>, k: Seq<u8>, now: u64, n: nat)
    requires
        n >= 1,
    ensures
        m_claim_successes(m, k, now, n) == if m_claim_ok(m, k) {
            1nat
        } else {
            0nat
        },
{
    lemma_no_success_while_held(m_claim(m, k, now), k, now, (n - 1) as nat);
}

/// A fresh claim is not stale until the timeout passes, so reclamation
/// cannot remove it.
pub proof fn lemma_fresh_claim_not_reclaimed(
    m: Map<Seq<u8>, LockState>,
    k: Seq<u8>,
    now: u64,
    later: u64,
)
    requires
        m_claim_ok(m, k),
        later <= now + LOCK_TIMEOUT_SECONDS,
    ensures
        m_reclaim(m_claim(m, k, now), k, later) == m_claim(m, k, now),
{
}

/// Stale reclamation is idempotent: reclaiming twice is the same as once.
pub proof fn lemma_reclaim_idempotent(m: Map<Seq<u8>, LockState>, k: Seq<u8>, now: u64)
    ensures
        m_reclaim(m_reclaim(m, k, now), k, now) == m_reclaim(m, k, now),
{
}

/// After a stale marker is reclaimed, any number of claim attempts yield
/// exactly one success.
pub proof fn lemma_reclaim_then_one_success(
    m: Map<Seq<u8>, LockState>,
    k: Seq<u8>,
    now: u64,
    n: nat,
)
    requires
        n >= 1,
        m.dom().contains(k) ==> spec_lock_stale(m[k], now),
    ensures
        m_claim_successes(m_reclaim(m, k, now), k, now, n) == 1,
{
    lemma_exactly_one_success(m_reclaim(m, k, now), k, now, n);
}

// ------------------------------------------------------ the in-memory model

/// The library's model of the marker directory: which keys are claimed, and
/// each marker's state.
pub struct ClaimSet {
    locks: NameMap<LockState>,
}

impl View for ClaimSet {
    type V = Map<Seq<u8>, LockState>;

    closed spec fn view(&self) -> Map<Seq<u8>, LockState> {
        Map::new(|k: Seq<u8>| has_key(self.locks@, k), |k: Seq<u8>| value_at(self.locks@, k))
    }
}

impl ClaimSet {
    pub closed spec fn wf(&self) -> bool {
        self.locks.wf()
    }

    pub fn new() -> (r: ClaimSet)
        ensures
            r.wf(),
            r@ == Map::<Seq<u8>, LockState>::empty(),
    {
        let r = ClaimSet { locks: NameMap::new() };
        proof {
            assert(r@ =~= Map::<Seq<u8>, LockState>::empty());
        }
        r
    }

    /// Whether the subtest's marker exists.
    pub fn holds(&self, commit: &[u8], name: &[u8]) -> (r: bool)
        requires
            self.wf(),
        ensures
            r == self@.dom().contains(spec_claim_key(commit@, name@)),
    {
        let key = claim_key(commit, name);
        self.locks.contains(key.as_slice())
    }

    /// Install a marker with an explicit state, as when loading an observed
    /// directory into the model.
    pub fn set_lock(&mut self, commit: &[u8], name: &[u8], state: LockState)
        requires
            old(self).wf(),
        ensures
            final(self).wf(),
            final(self)@ == old(self)@.insert(spec_claim_key(commit@, name@), state),
    {
        let key = claim_key(commit, name);
        self.locks.insert(key, state);
        proof {
            assert(self@ =~= old(self)@.insert(spec_claim_key(commit@, name@), state));
        }
    }

    /// Attempt to claim: succeeds exactly when no marker exists, leaving a
    /// fresh empty marker stamped `now`.
    pub fn try_claim(&mut self, commit: &[u8], name: &[u8], now: u64) -> (ok: bool)
        requires
            old(self).wf(),
        ensures
            final(self).wf(),
            ok == m_claim_ok(old(self)@, spec_claim_key(commit@, name@)),
            final(self)@ == m_claim(old(self)@, spec_claim_key(commit@, name@), now),
    {
        let key = claim_key(commit, name);
        if self.locks.contains(key.as_slice()) {
            proof {
                assert(self@ =~= m_claim(old(self)@, spec_claim_key(commit@, name@), now));
            }
            false
        } else {
            self.locks.insert(key, LockState { len: 0, mtime: now });
            proof {
                assert(self@ =~= m_claim(old(self)@, spec_claim_key(commit@, name@), now));
            }
            true
        }
    }

    /// Remove the subtest's marker if it is stale at `now`.
    pub fn reclaim_stale(&mut self, commit: &[u8], name: &[u8], now: u64) -> (removed: bool)
        requires
            old(self).wf(),
        ensures
            final(self).wf(),
            removed == (old(self)@.dom().contains(spec_claim_key(commit@, name@))
                && spec_lock_stale(old(self)@[spec_claim_key(commit@, name@)], now)),
            final(self)@ == m_reclaim(old(self)@, spec_claim_key(commit@, name@), now),
    {
        let key = claim_key(commit, name);
        let stale = match self.locks.get(key.as_slice()) {
            None => false,
            Some(l) => lock_is_stale(l.len, l.mtime, now),
        };
        if stale {
            self.locks.remove(key.as_slice());
            proof {
                assert(self@ =~= m_reclaim(old(self)@, spec_claim_key(commit@, name@), now));
            }
            true
        } else {
            proof {
                assert(self@ =~= m_reclaim(old(self)@, spec_claim_key(commit@, name@), now));
            }
            false
        }
    }

    /// Read-only probe, reclaiming a stale marker first: whether the subtest
    /// is (still) claimed, and whether a stale marker was reclaimed.
    pub fn check_lock(&mut self, commit: &[u8], name: &[u8], now: u64) -> (r: (bool, bool))
        requires
            old(self).wf(),
        ensures
            final(self).wf(),
            final(self)@ == m_reclaim(old(self)@, spec_claim_key(commit@, name@), now),
            r.0 == final(self)@.dom().contains(spec_claim_key(commit@, name@)),
            r.1 == (old(self)@.dom().contains(spec_claim_key(commit@, name@)) && spec_lock_stale(
                old(self)@[spec_claim_key(commit@, name@)],
                now,
            )),
    {
        let reclaimed = self.reclaim_stale(commit, name, now);
        let held = self.holds(commit, name);
        (held, reclaimed)
    }

    /// Claiming probe, reclaiming a stale marker first: whether this caller
    /// now owns the claim, and whether a stale marker was reclaimed.
    pub fn claim_lock(&mut self, commit: &[u8], name: &[u8], now: u64) -> (r: (bool, bool))
        requires
            old(self).wf(),
        ensures
            final(self).wf(),
            final(self)@ == m_claim(
                m_reclaim(old(self)@, spec_claim_key(commit@, name@), now),
                spec_claim_key(commit@, name@),
                now,
            ),
            r.0 == m_claim_ok(
                m_reclaim(old(self)@, spec_claim_key(commit@, name@), now),
                spec_claim_key(commit@, name@),
            ),
            r.1 == (old(self)@.dom().contains(spec_claim_key(commit@, name@)) && spec_lock_stale(
                old(self)@[spec_claim_key(commit@, name@)],
                now,
            )),
    {
        let reclaimed = self.reclaim_stale(commit, name, now);
        let claimed = self.try_claim(commit, name, now);
        (claimed, reclaimed)
    }
}

} // verus!
