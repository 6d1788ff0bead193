//! A map from byte-string names to values, kept as a vector sorted strictly
//! by name and looked up with binary search.

use vstd::prelude::*;
use crate::bytes::{lex_lt, cmp_bytes, Cmp, lemma_lex_trichotomy, lemma_lex_transitive};

verus! {

/// Keys appear in strictly increasing order (hence at most once each).
pub open spec fn keys_sorted<V>(s: Seq<(Seq<u8>, V)>) -> bool {
    forall|i: int, j: int| 0 <= i < j < s.len() ==> lex_lt(s[i].0, s[j].0)
}

/// Some entry carries key `k`.
pub open spec fn has_key<V>(s: Seq<(Seq<u8>, V)>, k: Seq<u8>) -> bool {
    exists|i: int| 0 <= i < s.len() && s[i].0 == k
}

/// The value stored under key `k` (meaningful only when `has_key` holds
/// and keys are unique).
pub open spec fn value_at<V>(s: Seq<(Seq<u8>, V)>, k: Seq<u8>) -> V {
    s[choose|i: int| 0 <= i < s.len() && s[i].0 == k].1
}

/// Two entries of a sorted sequence with the same key are the same entry.
pub proof fn lemma_unique_keys<V>(s: Seq<(Seq<u8>, V)>, i: int, j: int)
    requires
        keys_sorted(s),
        0 <= i < s.len(),
        0 <= j < s.len(),
        s[i].0 == s[j].0,
    ensures
        i == j,
{
    if i < j {
        lemma_lex_trichotomy(s[i].0, s[j].0);
    } else if j < i {
        lemma_lex_trichotomy(s[j].0, s[i].0);
    }
}

/// The value stored at position `i` is what `value_at` reads for its key.
pub proof fn lemma_value_at_entry<V>(s: Seq<(Seq<u8>, V)>, i: int)
    requires
        keys_sorted(s),
        0 <= i < s.len(),
    ensures
        has_key(s, s[i].0),
        value_at(s, s[i].0) == s[i].1,
{
    assert(has_key(s, s[i].0));
    let w = choose|j: int| 0 <= j < s.len() && s[j].0 == s[i].0;
    assert(0 <= w < s.len() && s[w].0 == s[i].0);
    lemma_unique_keys(s, w, i);
}

pub struct NameMap<V> {
    entries: Vec<(Vec<u8>, V)>,
}

impl<V> View for NameMap<V> {
    type V = Seq<(Seq<u8>, V)>;

    closed spec fn view(&self) -> Seq<(Seq<u8>, V)> {
        self.entries@.map_values(|p: (Vec<u8>, V)| (p.0@, p.1))
    }
}

impl<V> NameMap<V> {
    pub open spec fn wf(&self) -> bool {
        keys_sorted(self@)
    }

    pub fn new() -> (r: NameMap<V>)
        ensures
            r.wf(),
            r@ == Seq::<(Seq<u8>, V)>::empty(),
    {
        let r = NameMap { entries: Vec::new() };
        assert(r@ =~= Seq::<(Seq<u8>, V)>::empty());
        r
    }

    pub fn len(&self) -> (n: usize)
        ensures
            n == self@.len(),
    {
        self.entries.len()
    }

    /// The entry at position `i` in name order.
    pub fn entry_at(&self, i: usize) -> (r: (&Vec<u8>, &V))
        requires
            i < self@.len(),
        ensures
            r.0@ == self@[i as int].0,
            *r.1 == self@[i as int].1,
    {
        let p = &self.entries[i];
        (&p.0, &p.1)
    }

    /// Binary search: the value under `key`, if any.
    pub fn get(&self, key: &[u8]) -> (r: Option<&V>)
        requires
            self.wf(),
        ensures
            match r {
                Some(v) => has_key(self@, key@) && *v == value_at(self@, key@),
                None => !has_key(self@, key@),
            },
    {
        let ghost s = self@;
        let mut lo: usize = 0;
        let mut hi: usize = self.entries.len();
        while lo < hi
            invariant
                self.wf(),
                s == self@,
                lo <= hi <= s.len(),
                forall|i: int| 0 <= i < lo ==> lex_lt(s[i].0, key@),
                forall|i: int| hi <= i < s.len() ==> lex_lt(key@, s[i].0),
            decreases hi - lo,
        {
            let mid = lo + (hi - lo) / 2;
            let entry_key: &Vec<u8> = &self.entries[mid].0;
            match cmp_bytes(entry_key.as_slice(), key) {
                Cmp::Lt => {
                    assert forall|i: int| 0 <= i < mid + 1 implies lex_lt(s[i].0, key@) by {
                        if i < mid {
                            lemma_lex_transitive(s[i].0, s[mid as int].0, key@);
                        }
                    }
                    lo = mid + 1;
                },
                Cmp::Gt => {
                    assert forall|i: int| mid <= i < s.len() implies lex_lt(key@, s[i].0) by {
                        if i > mid {
                            lemma_lex_transitive(key@, s[mid as int].0, s[i].0);
                        }
                    }
                    hi = mid;
                },
                Cmp::Eq => {
                    proof {
                        assert(s[mid as int].0 == key@);
                        lemma_value_at_entry(s, mid as int);
                    }
                    return Some(&self.entries[mid].1);
                },
            }
        }
        proof {
            assert forall|i: int| 0 <= i < s.len() implies s[i].0 != key@ by {
                lemma_lex_trichotomy(s[i].0, key@);
            }
        }
        None
    }

    /// Whether `key` is present.
    pub fn contains(&self, key: &[u8]) -> (r: bool)
        requires
            self.wf(),
        ensures
            r == has_key(self@, key@),
    {
        self.get(key).is_some()
    }

    /// Append an entry whose key is larger than every present key.
    pub fn push_sorted(&mut self, key: Vec<u8>, value: V)
        requires
            old(self).wf(),
            old(self)@.len() == 0 || lex_lt(old(self)@.last().0, key@),
        ensures
            final(self).wf(),
            final(self)@ == old(self)@.push((key@, value)),
    {
        let ghost s = self@;
        proof {
            if s.len() > 0 {
                assert forall|i: int| 0 <= i < s.len() implies lex_lt(s[i].0, key@) by {
                    if i < s.len() - 1 {
                        lemma_lex_transitive(s[i].0, s[s.len() - 1].0, key@);
                    }
                }
            }
        }
        self.entries.push((key, value));
        proof {
            assert(self@ =~= s.push((key@, value)));
            assert forall|i: int, j: int|
                0 <= i < j < self@.len() implies lex_lt(self@[i].0, self@[j].0) by {
                if j < s.len() {
                    assert(lex_lt(s[i].0, s[j].0));
                }
            }
        }
    }

    /// Remove the entry under `key`, if any.
    pub fn remove(&mut self, key: &[u8]) -> (removed: bool)
        requires
            old(self).wf(),
        ensures
            final(self).wf(),
            removed == has_key(old(self)@, key@),
            forall|k: Seq<u8>| #[trigger] has_key(final(self)@, k) <==> (has_key(old(self)@, k) && k
                != key@),
            forall|k: Seq<u8>|
                has_key(old(self)@, k) && k != key@ ==> #[trigger] value_at(final(self)@, k)
                    == value_at(old(self)@, k),
    {
        let ghost s = self@;
        let mut lo: usize = 0;
        let mut hi: usize = self.entries.len();
        while lo < hi
            invariant
                self.wf(),
                s == self@,
                s == old(self)@,
                lo <= hi <= s.len(),
                forall|i: int| 0 <= i < lo ==> lex_lt(s[i].0, key@),
                forall|i: int| hi <= i < s.len() ==> lex_lt(key@, s[i].0),
            decreases hi - lo,
        {
            let mid = lo + (hi - lo) / 2;
            let c = {
                let entry_key: &Vec<u8> = &self.entries[mid].0;
                cmp_bytes(entry_key.as_slice(), key)
            };
            match c {
                Cmp::Lt => {
                    assert forall|i: int| 0 <= i < mid + 1 implies lex_lt(s[i].0, key@) by {
                        if i < mid {
                            lemma_lex_transitive(s[i].0, s[mid as int].0, key@);
                        }
                    }
                    lo = mid + 1;
                },
                Cmp::Gt => {
                    assert forall|i: int| mid <= i < s.len() implies lex_lt(key@, s[i].0) by {
                        if i > mid {
                            lemma_lex_transitive(key@, s[mid as int].0, s[i].0);
                        }
                    }
                    hi = mid;
                },
                Cmp::Eq => {
                    let ghost m = mid as int;
                    proof {
                        assert(s[m].0 == key@);
                        assert(has_key(s, key@));
                    }
                    self.entries.remove(mid);
                    proof {
                        assert(self@ =~= s.remove(m));
                        lemma_remove_post(s, m);
                    }
                    return true;
                },
            }
        }
        proof {
            assert forall|i: int| 0 <= i < s.len() implies s[i].0 != key@ by {
                lemma_lex_trichotomy(s[i].0, key@);
            }
        }
        false
    }

    /// Insert `value` under `key`, replacing any previous value.
    pub fn insert(&mut self, key: Vec<u8>, value: V)
        requires
            old(self).wf(),
        ensures
            final(self).wf(),
            final(self)@.len() == old(self)@.len() + (if has_key(old(self)@, key@) {
                0int
            } else {
                1int
            }),
            forall|k: Seq<u8>| #[trigger] has_key(final(self)@, k) <==> (has_key(old(self)@, k) || k
                == key@),
            value_at(final(self)@, key@) == value,
            forall|k: Seq<u8>|
                has_key(old(self)@, k) && k != key@ ==> #[trigger] value_at(final(self)@, k)
                    == value_at(old(self)@, k),
    {
        let ghost s = self@;
        let mut lo: usize = 0;
        let mut hi: usize = self.entries.len();
        while lo < hi
            invariant
                self.wf(),
                s == self@,
                s == old(self)@,
                lo <= hi <= s.len(),
                forall|i: int| 0 <= i < lo ==> lex_lt(s[i].0, key@),
                forall|i: int| hi <= i < s.len() ==> lex_lt(key@, s[i].0),
            decreases hi - lo,
        {
            let mid = lo + (hi - lo) / 2;
            let c = {
                let entry_key: &Vec<u8> = &self.entries[mid].0;
                cmp_bytes(entry_key.as_slice(), key.as_slice())
            };
            match c {
                Cmp::Lt => {
                    assert forall|i: int| 0 <= i < mid + 1 implies lex_lt(s[i].0, key@) by {
                        if i < mid {
                            lemma_lex_transitive(s[i].0, s[mid as int].0, key@);
                        }
                    }
                    lo = mid + 1;
                },
                Cmp::Gt => {
                    assert forall|i: int| mid <= i < s.len() implies lex_lt(key@, s[i].0) by {
                        if i > mid {
                            lemma_lex_transitive(key@, s[mid as int].0, s[i].0);
                        }
                    }
                    hi = mid;
                },
                Cmp::Eq => {
                    let ghost m = mid as int;
                    proof {
                        assert(s[m].0 == key@);
                        assert(has_key(s, key@));
                    }
                    self.entries.set(mid, (key, value));
                    proof {
                        assert(self@ =~= s.update(m, (key@, value)));
                        lemma_insert_replace_post(s, m, key@, value);
                    }
                    return ;
                },
            }
        }
        let ghost p = lo as int;
        self.entries.insert(lo, (key, value));
        proof {
            assert(self@ =~= s.subrange(0, p) + seq![(key@, value)] + s.subrange(p, s.len() as int));
            assert forall|i: int| 0 <= i < s.len() implies s[i].0 != key@ by {
                lemma_lex_trichotomy(s[i].0, key@);
            }
            lemma_insert_new_post(s, p, key@, value);
        }
    }
}

/// After removing the entry at `m`, the map reads as expected.
proof fn lemma_remove_post<V>(s: Seq<(Seq<u8>, V)>, m: int)
    requires
        keys_sorted(s),
        0 <= m < s.len(),
    ensures
        keys_sorted(s.remove(m)),
        forall|k2: Seq<u8>| #[trigger] has_key(s.remove(m), k2) <==> (has_key(s, k2) && k2
            != s[m].0),
        forall|k2: Seq<u8>|
            has_key(s, k2) && k2 != s[m].0 ==> #[trigger] value_at(s.remove(m), k2) == value_at(
                s,
                k2,
            ),
{
    let t = s.remove(m);
    assert(forall|i: int| 0 <= i < m ==> t[i] == s[i]);
    assert(forall|i: int| m <= i < t.len() ==> t[i] == s[i + 1]);
    assert(keys_sorted(t));
    assert forall|k2: Seq<u8>| #[trigger] has_key(t, k2) <==> (has_key(s, k2) && k2 != s[m].0) by {
        if has_key(t, k2) {
            let i = choose|i: int| 0 <= i < t.len() && t[i].0 == k2;
            if i < m {
                assert(s[i].0 == k2);
                lemma_lex_trichotomy(s[i].0, s[m].0);
            } else {
                assert(s[i + 1].0 == k2);
                lemma_lex_trichotomy(s[m].0, s[i + 1].0);
            }
        }
        if has_key(s, k2) && k2 != s[m].0 {
            let i = choose|i: int| 0 <= i < s.len() && s[i].0 == k2;
            assert(i != m);
            if i < m {
                assert(t[i].0 == k2);
            } else {
                assert(t[i - 1].0 == k2);
            }
        }
    }
    assert forall|k2: Seq<u8>| has_key(s, k2) && k2 != s[m].0 implies #[trigger] value_at(t, k2)
        == value_at(s, k2) by {
        let i = choose|i: int| 0 <= i < s.len() && s[i].0 == k2;
        lemma_value_at_entry(s, i);
        assert(i != m);
        if i < m {
            assert(t[i] == s[i]);
            lemma_value_at_entry(t, i);
        } else {
            assert(t[i - 1] == s[i]);
            lemma_value_at_entry(t, i - 1);
        }
    }
}

/// After replacing the entry at `m` (whose key already was `k`), the map
/// reads as expected.
proof fn lemma_insert_replace_post<V>(s: Seq<(Seq<u8>, V)>, m: int, k: Seq<u8>, v: V)
    requires
        keys_sorted(s),
        0 <= m < s.len(),
        s[m].0 == k,
    ensures
        keys_sorted(s.update(m, (k, v))),
        forall|k2: Seq<u8>| #[trigger] has_key(s.update(m, (k, v)), k2) <==> (has_key(s, k2) || k2
            == k),
        value_at(s.update(m, (k, v)), k) == v,
        forall|k2: Seq<u8>|
            has_key(s, k2) && k2 != k ==> #[trigger] value_at(s.update(m, (k, v)), k2) == value_at(
                s,
                k2,
            ),
{
    let t = s.update(m, (k, v));
    assert(keys_sorted(t)) by {
        assert(forall|i: int| 0 <= i < s.len() ==> t[i].0 == s[i].0);
    }
    assert forall|k2: Seq<u8>| #[trigger] has_key(t, k2) <==> (has_key(s, k2) || k2 == k) by {
        assert(forall|i: int| 0 <= i < s.len() ==> t[i].0 == s[i].0);
        if has_key(t, k2) {
            let i = choose|i: int| 0 <= i < t.len() && t[i].0 == k2;
            assert(s[i].0 == k2);
        }
        if has_key(s, k2) {
            let i = choose|i: int| 0 <= i < s.len() && s[i].0 == k2;
            assert(t[i].0 == k2);
        }
    }
    assert(value_at(t, k) == v) by {
        assert(t[m].0 == k);
        lemma_value_at_entry(t, m);
    }
    assert forall|k2: Seq<u8>| has_key(s, k2) && k2 != k implies #[trigger] value_at(t, k2)
        == value_at(s, k2) by {
        let i = choose|i: int| 0 <= i < s.len() && s[i].0 == k2;
        assert(t[i].0 == k2);
        assert(i != m);
        lemma_value_at_entry(t, i);
        lemma_value_at_entry(s, i);
    }
}

/// After inserting a fresh key `k` at its sorted position `p`, the map
/// reads as expected.
proof fn lemma_insert_new_post<V>(s: Seq<(Seq<u8>, V)>, p: int, k: Seq<u8>, v: V)
    requires
        keys_sorted(s),
        0 <= p <= s.len(),
        forall|i: int| 0 <= i < p ==> lex_lt(s[i].0, k),
        forall|i: int| p <= i < s.len() ==> lex_lt(k, s[i].0),
        forall|i: int| 0 <= i < s.len() ==> s[i].0 != k,
    ensures
        keys_sorted(s.subrange(0, p) + seq![(k, v)] + s.subrange(p, s.len() as int)),
        forall|k2: Seq<u8>|
            #[trigger] has_key(s.subrange(0, p) + seq![(k, v)] + s.subrange(p, s.len() as int), k2)
                <==> (has_key(s, k2) || k2 == k),
        value_at(s.subrange(0, p) + seq![(k, v)] + s.subrange(p, s.len() as int), k) == v,
        forall|k2: Seq<u8>|
            has_key(s, k2) && k2 != k ==> #[trigger] value_at(
                s.subrange(0, p) + seq![(k, v)] + s.subrange(p, s.len() as int),
                k2,
            ) == value_at(s, k2),
{
    let t = s.subrange(0, p) + seq![(k, v)] + s.subrange(p, s.len() as int);
    assert(t.len() == s.len() + 1);
    assert(forall|i: int| 0 <= i < p ==> t[i] == s[i]);
    assert(t[p] == (k, v));
    assert(forall|i: int| p < i < t.len() ==> t[i] == s[i - 1]);
    assert(keys_sorted(t)) by {
        assert forall|i: int, j: int| 0 <= i < j < t.len() implies lex_lt(t[i].0, t[j].0) by {
            if i < p && j < p {
            } else if i < p && j == p {
            } else if i < p && j > p {
            } else if i == p && j > p {
            } else if i > p && j > p {
            }
        }
    }
    assert forall|k2: Seq<u8>| #[trigger] has_key(t, k2) <==> (has_key(s, k2) || k2 == k) by {
        if has_key(t, k2) {
            let i = choose|i: int| 0 <= i < t.len() && t[i].0 == k2;
            if i < p {
                assert(s[i].0 == k2);
            } else if i > p {
                assert(s[i - 1].0 == k2);
            }
        }
        if has_key(s, k2) {
            let i = choose|i: int| 0 <= i < s.len() && s[i].0 == k2;
            if i < p {
                assert(t[i].0 == k2);
            } else {
                assert(t[i + 1].0 == k2);
            }
        }
        if k2 == k {
            assert(t[p].0 == k2);
        }
    }
    assert(value_at(t, k) == v) by {
        assert(t[p].0 == k);
        lemma_value_at_entry(t, p);
    }
    assert forall|k2: Seq<u8>| has_key(s, k2) && k2 != k implies #[trigger] value_at(t, k2)
        == value_at(s, k2) by {
        let i = choose|i: int| 0 <= i < s.len() && s[i].0 == k2;
        lemma_value_at_entry(s, i);
        if i < p {
            assert(t[i] == s[i]);
            lemma_value_at_entry(t, i);
        } else {
            assert(t[i + 1] == s[i]);
            lemma_value_at_entry(t, i + 1);
        }
    }
}

} // verus!
