//! The per-user queue file: one text line per job, `branch commit age test
//! subtest`, each line ended by a newline.  The most urgent job stands last;
//! the claimer scans from the end and truncates what it consumed, so the
//! remaining file is byte-identical to the unconsumed prefix.

use vstd::prelude::*;
use crate::jobs::{TestJob, jobs_sorted, sort_jobs, job_le};

verus! {

// ----------------------------------------------------------- decimal text

/// Canonical decimal digits of `n` (no leading zeros).
pub open spec fn dec_rep(n: int) -> Seq<u8>
    decreases n,
{
    if n < 10 {
        seq![(48 + if n >= 0 {
            n
        } else {
            0
        }) as u8]
    } else {
        dec_rep(n / 10).push((48 + n % 10) as u8)
    }
}

/// Numeric value of a digit string (most significant first).
pub open spec fn dec_val(s: Seq<u8>) -> int
    decreases s.len(),
{
    if s.len() == 0 {
        0
    } else {
        dec_val(s.drop_last()) * 10 + (s.last() - 48)
    }
}

/// A canonical decimal representation of a `u64`.
pub open spec fn is_canon_dec(s: Seq<u8>) -> bool {
    &&& s.len() > 0
    &&& forall|i: int| 0 <= i < s.len() ==> 48 <= #[trigger] s[i] <= 57
    &&& (s.len() == 1 || s[0] != 48)
    &&& dec_val(s) <= u64::MAX
}

/// Render `n` in decimal.
pub fn u64_to_dec(n: u64) -> (v: Vec<u8>)
    ensures
        v@ == dec_rep(n as int),
    decreases n,
{
    if n < 10 {
        let mut v: Vec<u8> = Vec::new();
        v.push(48 + (n as u8));
        assert(v@ =~= dec_rep(n as int));
        v
    } else {
        let mut v = u64_to_dec(n / 10);
        v.push(48 + ((n % 10) as u8));
        v
    }
}

/// The rendering of any `u64` is canonical and reads back as itself.
pub proof fn lemma_dec_rep_canon(n: int)
    requires
        0 <= n <= u64::MAX,
    ensures
        is_canon_dec(dec_rep(n)),
        dec_val(dec_rep(n)) == n,
        n >= 1 ==> dec_rep(n)[0] != 48,
    decreases n,
{
    if n < 10 {
        assert(dec_rep(n) =~= seq![(48 + n) as u8]);
        assert(dec_rep(n).drop_last() =~= Seq::<u8>::empty());
        assert(dec_rep(n).last() == (48 + n) as u8);
        assert(dec_rep(n)[0] == (48 + n) as u8);
        assert(dec_val(Seq::<u8>::empty()) == 0);
        assert((48 + n) as u8 == 48 + n);
        assert(dec_val(dec_rep(n)) == 0 * 10 + (((48 + n) as u8) - 48));
    } else {
        lemma_dec_rep_canon(n / 10);
        let s = dec_rep(n);
        let h = dec_rep(n / 10);
        assert(s == h.push((48 + n % 10) as u8));
        assert(s.drop_last() =~= h);
        assert(s.last() == (48 + n % 10) as u8);
        assert(dec_val(s) == dec_val(h) * 10 + n % 10);
        assert(dec_val(h) == n / 10);
        assert(n / 10 * 10 + n % 10 == n) by {
            vstd::arithmetic::div_mod::lemma_fundamental_div_mod(n, 10);
        }
        assert(h.len() > 0);
        assert(s[0] == h[0]);
        assert(n / 10 >= 1);
        assert(s[0] != 48);
        assert forall|i: int| 0 <= i < s.len() implies 48 <= #[trigger] s[i] <= 57 by {
            if i < h.len() {
                assert(s[i] == h[i]);
            }
        }
    }
}

/// Parse a canonical decimal string; `None` exactly on anything else.
pub fn parse_dec(s: &[u8]) -> (r: Option<u64>)
    ensures
        match r {
            Some(n) => is_canon_dec(s@) && n as int == dec_val(s@),
            None => !is_canon_dec(s@),
        },
{
    let len = s.len();
    if len == 0 {
        return None;
    }
    if len > 1 && s[0] == 48 {
        return None;
    }
    let mut acc: u64 = 0;
    let mut i: usize = 0;
    proof {
        assert(s@.take(0) =~= Seq::<u8>::empty());
    }
    while i < len
        invariant
            len == s@.len(),
            0 < len,
            i <= len,
            len == 1 || s@[0] != 48,
            forall|k: int| 0 <= k < i ==> 48 <= #[trigger] s@[k] <= 57,
            acc as int == dec_val(s@.take(i as int)),
        decreases len - i,
    {
        let c = s[i];
        if c < 48 || c > 57 {
            return None;
        }
        let d = (c - 48) as u64;
        if acc > (u64::MAX - d) / 10 {
            // The value would exceed `u64::MAX`.
            proof {
                let t = s@.take(i + 1);
                assert(t.drop_last() =~= s@.take(i as int));
                assert(t.last() == s@[i as int]);
                assert(dec_val(t) == (acc as int) * 10 + d);
                assert((acc as int) * 10 + d > u64::MAX) by (nonlinear_arith)
                    requires
                        acc as int > (u64::MAX - d) / 10,
                        0 <= d <= 9,
                        acc as int >= 0,
                ;
                assert(!is_canon_dec(s@)) by {
                    if is_canon_dec(s@) {
                        lemma_dec_val_prefix_le(s@, i + 1);
                    }
                }
            }
            return None;
        }
        proof {
            let t = s@.take(i + 1);
            assert(t.drop_last() =~= s@.take(i as int));
            assert(t.last() == s@[i as int]);
            assert((acc as int) * 10 + d <= u64::MAX) by (nonlinear_arith)
                requires
                    acc as int <= (u64::MAX - d) / 10,
                    0 <= d <= 9,
                    acc as int >= 0,
            ;
        }
        acc = acc * 10 + d;
        i += 1;
    }
    proof {
        assert(s@.take(len as int) =~= s@);
    }
    Some(acc)
}

/// A digit string's value bounds the value of each of its prefixes.
pub proof fn lemma_dec_val_prefix_le(s: Seq<u8>, i: int)
    requires
        0 <= i <= s.len(),
        forall|k: int| 0 <= k < s.len() ==> 48 <= #[trigger] s[k] <= 57,
    ensures
        dec_val(s.take(i)) <= dec_val(s),
    decreases s.len() - i,
{
    if i < s.len() {
        let t = s.take(i + 1);
        assert(t.drop_last() =~= s.take(i));
        assert(t.last() == s[i]);
        assert(forall|k: int| 0 <= k < s.take(i).len() ==> 48 <= #[trigger] s.take(i)[k] <= 57);
        lemma_dec_val_nonneg(s.take(i));
        assert(dec_val(t) == dec_val(s.take(i)) * 10 + (s[i] - 48));
        assert(dec_val(s.take(i)) * 10 + (s[i] - 48) >= dec_val(s.take(i))) by (nonlinear_arith)
            requires
                s[i] >= 48,
                dec_val(s.take(i)) >= 0,
        ;
        lemma_dec_val_prefix_le(s, i + 1);
        assert(s.take(s.len() as int) =~= s);
    } else {
        assert(s.take(i) =~= s);
    }
}

proof fn lemma_dec_val_nonneg(s: Seq<u8>)
    requires
        forall|k: int| 0 <= k < s.len() ==> 48 <= #[trigger] s[k] <= 57,
    ensures
        dec_val(s) >= 0,
    decreases s.len(),
{
    if s.len() > 0 {
        assert(forall|k: int| 0 <= k < s.drop_last().len() ==> 48 <= #[trigger] s.drop_last()[k]
            <= 57);
        lemma_dec_val_nonneg(s.drop_last());
        assert(dec_val(s.drop_last()) * 10 >= 0) by (nonlinear_arith)
            requires
                dec_val(s.drop_last()) >= 0,
        ;
    }
}

// -------------------------------------------------------------- line format

/// A field may not be empty nor contain the separators.
pub open spec fn field_ok(s: Seq<u8>) -> bool {
    s.len() > 0 && forall|i: int| 0 <= i < s.len() ==> #[trigger] s[i] != 32 && s[i] != 10
}

/// A job whose fields can stand in a queue line.
pub open spec fn job_wf(j: TestJob) -> bool {
    field_ok(j.branch@) && field_ok(j.commit@) && field_ok(j.test@) && field_ok(j.subtest@)
}

/// The text line of one job.
pub open spec fn job_line(j: TestJob) -> Seq<u8> {
    j.branch@ + seq![32u8] + j.commit@ + seq![32u8] + dec_rep(j.age as int) + seq![32u8] + j.test@
        + seq![32u8] + j.subtest@ + seq![10u8]
}

/// The whole queue file of a job list, in list order.
pub open spec fn senc_queue(jobs: Seq<TestJob>) -> Seq<u8>
    decreases jobs.len(),
{
    if jobs.len() == 0 {
        Seq::empty()
    } else {
        job_line(jobs[0]) + senc_queue(jobs.skip(1))
    }
}

proof fn lemma_senc_queue_push(jobs: Seq<TestJob>, j: TestJob)
    ensures
        senc_queue(jobs.push(j)) == senc_queue(jobs) + job_line(j),
    decreases jobs.len(),
{
    if jobs.len() == 0 {
        assert(jobs.push(j).skip(1) =~= Seq::<TestJob>::empty());
        assert(senc_queue(Seq::<TestJob>::empty()) == Seq::<u8>::empty());
        assert(jobs.push(j)[0] == j);
        assert(senc_queue(jobs.push(j)) =~= job_line(j));
        assert(senc_queue(jobs) + job_line(j) =~= job_line(j));
    } else {
        lemma_senc_queue_push(jobs.skip(1), j);
        assert(jobs.push(j).skip(1) =~= jobs.skip(1).push(j));
        assert(jobs.push(j)[0] == jobs[0]);
        assert(job_line(jobs[0]) + (senc_queue(jobs.skip(1)) + job_line(j)) =~= (job_line(jobs[0])
            + senc_queue(jobs.skip(1))) + job_line(j));
    }
}

/// The queue splits at any line boundary.
pub proof fn lemma_senc_queue_split(jobs: Seq<TestJob>, k: int)
    requires
        0 <= k <= jobs.len(),
    ensures
        senc_queue(jobs) == senc_queue(jobs.take(k)) + senc_queue(jobs.skip(k)),
    decreases k,
{
    if k == 0 {
        assert(jobs.take(0) =~= Seq::<TestJob>::empty());
        assert(jobs.skip(0) =~= jobs);
        assert(senc_queue(Seq::<TestJob>::empty()) + senc_queue(jobs) =~= senc_queue(jobs));
    } else {
        lemma_senc_queue_split(jobs, k - 1);
        assert(jobs.take(k) =~= jobs.take(k - 1).push(jobs[k - 1]));
        lemma_senc_queue_push(jobs.take(k - 1), jobs[k - 1]);
        assert(jobs.skip(k - 1) =~= seq![jobs[k - 1]] + jobs.skip(k));
        assert(senc_queue(jobs.skip(k - 1)) == job_line(jobs[k - 1]) + senc_queue(
            jobs.skip(k),
        )) by {
            assert(jobs.skip(k - 1)[0] == jobs[k - 1]);
            assert(jobs.skip(k - 1).skip(1) =~= jobs.skip(k));
        }
        assert((senc_queue(jobs.take(k - 1)) + job_line(jobs[k - 1])) + senc_queue(jobs.skip(k))
            =~= senc_queue(jobs.take(k - 1)) + (job_line(jobs[k - 1]) + senc_queue(jobs.skip(k))));
    }
}

/// Truncating the queue at a line boundary leaves exactly the first `k`
/// lines, byte for byte.
pub proof fn lemma_queue_truncation(jobs: Seq<TestJob>, k: int)
    requires
        0 <= k <= jobs.len(),
    ensures
        senc_queue(jobs).subrange(0, senc_queue(jobs.take(k)).len() as int) == senc_queue(
            jobs.take(k),
        ),
{
    lemma_senc_queue_split(jobs, k);
    let u = senc_queue(jobs.take(k));
    let v = senc_queue(jobs.skip(k));
    assert(senc_queue(jobs).subrange(0, u.len() as int) =~= u) by {
        assert(forall|i: int| 0 <= i < u.len() ==> senc_queue(jobs)[i] == (u + v)[i]);
    }
}

/// Append one job's line.
pub fn emit_queue_line(out: &mut Vec<u8>, j: &TestJob)
    ensures
        final(out)@ == old(out)@ + job_line(*j),
{
    let ghost base = out@;
    out.extend_from_slice(j.branch.as_slice());
    out.push(32);
    out.extend_from_slice(j.commit.as_slice());
    out.push(32);
    let mut age = u64_to_dec(j.age);
    out.append(&mut age);
    out.push(32);
    out.extend_from_slice(j.test.as_slice());
    out.push(32);
    out.extend_from_slice(j.subtest.as_slice());
    out.push(10);
    proof {
        assert(out@ =~= base + job_line(*j));
    }
}

/// Sort jobs by urgency, reverse them so the most urgent stands last, and
/// render the queue file.
pub fn make_queue(jobs: Vec<TestJob>) -> (r: (Vec<TestJob>, Vec<u8>))
    ensures
        r.0@.to_multiset() == jobs@.to_multiset(),
        r.0@.len() == jobs@.len(),
        // most urgent last: later lines never have larger weight keys
        forall|a: int, b: int| 0 <= a < b < r.0@.len() ==> job_le(#[trigger] r.0@[b], #[trigger] r.0@[a]),
        r.1@ == senc_queue(r.0@),
{
    broadcast use vstd::seq_lib::group_to_multiset_ensures;

    let mut sorted = jobs;
    sort_jobs(&mut sorted);
    let ghost asc = sorted@;
    let mut rev: Vec<TestJob> = Vec::new();
    let mut left: usize = sorted.len();
    while left > 0
        invariant
            sorted@ == asc.take(left as int),
            left <= asc.len(),
            rev@.len() == asc.len() - left,
            forall|k: int| 0 <= k < rev@.len() ==> rev@[k] == asc[asc.len() - 1 - k],
            jobs_sorted(asc),
        decreases left,
    {
        let x = match sorted.pop() {
            Some(x) => x,
            None => {
                proof {
                    assert(false);
                }
                unreached()
            },
        };
        proof {
            assert(asc.take(left as int).last() == asc[left - 1]);
            assert(asc.take(left as int).drop_last() =~= asc.take(left - 1));
        }
        rev.push(x);
        left -= 1;
    }
    proof {
        assert(rev@.len() == asc.len());
        assert(rev@.to_multiset() =~= asc.to_multiset()) by {
            assert(rev@ =~= asc.reverse());
            asc.lemma_reverse_to_multiset();
        }
        assert forall|a: int, b: int| 0 <= a < b < rev@.len() implies job_le(
            #[trigger] rev@[b],
            #[trigger] rev@[a],
        ) by {
            assert(rev@[a] == asc[asc.len() - 1 - a]);
            assert(rev@[b] == asc[asc.len() - 1 - b]);
        }
    }
    let mut out: Vec<u8> = Vec::new();
    let n = rev.len();
    let mut i: usize = 0;
    proof {
        assert(rev@.take(0) =~= Seq::<TestJob>::empty());
        assert(out@ =~= senc_queue(rev@.take(0)));
    }
    while i < n
        invariant
            n == rev@.len(),
            i <= n,
            out@ == senc_queue(rev@.take(i as int)),
            rev@.to_multiset() == jobs@.to_multiset(),
            forall|a: int, b: int| 0 <= a < b < rev@.len() ==> job_le(
                #[trigger] rev@[b],
                #[trigger] rev@[a],
            ),
        decreases n - i,
    {
        emit_queue_line(&mut out, &rev[i]);
        proof {
            assert(rev@.take(i + 1) =~= rev@.take(i as int).push(rev@[i as int]));
            lemma_senc_queue_push(rev@.take(i as int), rev@[i as int]);
        }
        i += 1;
    }
    proof {
        assert(rev@.take(n as int) =~= rev@);
    }
    (rev, out)
}

} // verus!

verus! {

// ----------------------------------------------------------- queue parsing

/// The first position at or after `pos` that holds byte `c`.
pub open spec fn find_byte(b: Seq<u8>, pos: int, c: u8) -> Option<int>
    decreases b.len() - pos,
    when 0 <= pos <= b.len()
{
    if pos >= b.len() {
        None
    } else if b[pos] == c {
        Some(pos)
    } else {
        find_byte(b, pos + 1, c)
    }
}

/// One field: the bytes before the next separator `c`, consuming it.
pub open spec fn sdec_field(b: Seq<u8>, pos: int, c: u8) -> Option<(Seq<u8>, int)> {
    match find_byte(b, pos, c) {
        None => None,
        Some(e) => Some((b.subrange(pos, e), e + 1)),
    }
}

/// A parsed line: branch, commit, age, test, subtest.
pub type LineV = (Seq<u8>, Seq<u8>, u64, Seq<u8>, Seq<u8>);

pub open spec fn sdec_line(b: Seq<u8>, pos: int) -> Option<(LineV, int)> {
    match sdec_field(b, pos, 32) {
        None => None,
        Some((branch, p1)) => match sdec_field(b, p1, 32) {
            None => None,
            Some((commit, p2)) => match sdec_field(b, p2, 32) {
                None => None,
                Some((agestr, p3)) => if is_canon_dec(agestr) {
                    match sdec_field(b, p3, 32) {
                        None => None,
                        Some((test, p4)) => match sdec_field(b, p4, 10) {
                            None => None,
                            Some((subtest, p5)) => Some(
                                ((branch, commit, dec_val(agestr) as u64, test, subtest), p5),
                            ),
                        },
                    }
                } else {
                    None
                },
            },
        },
    }
}

/// The whole file from `pos` to its end: each line with its start offset.
pub open spec fn sdec_queue(b: Seq<u8>, pos: int) -> Option<Seq<(LineV, int)>>
    decreases b.len() - pos,
    when 0 <= pos <= b.len()
{
    if pos == b.len() {
        Some(Seq::empty())
    } else {
        match sdec_line(b, pos) {
            None => None,
            Some((l, p2)) => if pos < p2 <= b.len() {
                match sdec_queue(b, p2) {
            None => None,
                    Some(rest) => Some(seq![(l, pos)] + rest),
                }
            } else {
                None
            },
        }
    }
}

/// One parsed queue line, with the file offset its text starts at.
pub struct QueueLine {
    pub branch: Vec<u8>,
    pub commit: Vec<u8>,
    pub age: u64,
    pub test: Vec<u8>,
    pub subtest: Vec<u8>,
    pub offset: usize,
}

pub open spec fn line_vw(l: QueueLine) -> (LineV, int) {
    ((l.branch@, l.commit@, l.age, l.test@, l.subtest@), l.offset as int)
}

pub open spec fn lines_vw(s: Seq<QueueLine>) -> Seq<(LineV, int)> {
    s.map_values(|l: QueueLine| line_vw(l))
}

fn find_byte_exec(b: &[u8], pos: usize, c: u8) -> (r: Option<usize>)
    requires
        pos <= b@.len(),
    ensures
        match r {
            Some(e) => find_byte(b@, pos as int, c) == Some(e as int),
            None => find_byte(b@, pos as int, c) is None,
        },
{
    let n = b.len();
    let mut i: usize = pos;
    while i < n
        invariant
            pos <= i <= n,
            n == b@.len(),
            find_byte(b@, pos as int, c) == find_byte(b@, i as int, c),
        decreases n - i,
    {
        if b[i] == c {
            return Some(i);
        }
        i += 1;
    }
    None
}

fn parse_field(b: &[u8], pos: usize, c: u8) -> (r: Option<(Vec<u8>, usize)>)
    requires
        pos <= b@.len(),
    ensures
        match r {
            Some((f, p)) => sdec_field(b@, pos as int, c) == Some((f@, p as int)) && pos < p
                <= b@.len(),
            None => sdec_field(b@, pos as int, c) is None,
        },
{
    let n = b.len();
    match find_byte_exec(b, pos, c) {
        None => None,
        Some(e) => {
            proof {
                lemma_find_byte_in_range(b@, pos as int, c);
                assert(e < n);
            }
            let f = crate::codec::read_bytes(b, pos, e - pos);
            Some((f, e + 1))
        },
    }
}

/// A found separator lies within the buffer, at or after the start.
proof fn lemma_find_byte_in_range(b: Seq<u8>, pos: int, c: u8)
    requires
        0 <= pos <= b.len(),
    ensures
        match find_byte(b, pos, c) {
            Some(e) => pos <= e < b.len() && b[e] == c && (forall|k: int|
                pos <= k < e ==> b[k] != c),
            None => forall|k: int| pos <= k < b.len() ==> b[k] != c,
        },
    decreases b.len() - pos,
{
    if pos < b.len() && b[pos] != c {
        lemma_find_byte_in_range(b, pos + 1, c);
    }
}

/// Parse one line starting at `pos`.
fn parse_line(b: &[u8], pos: usize) -> (r: Option<(QueueLine, usize)>)
    requires
        pos <= b@.len(),
    ensures
        match r {
            Some((l, p)) => sdec_line(b@, pos as int) == Some((line_vw(l).0, p as int)) && l.offset
                == pos && pos < p <= b@.len(),
            None => sdec_line(b@, pos as int) is None,
        },
{
    let (branch, p1) = match parse_field(b, pos, 32) {
        None => {
            return None;
        },
        Some(v) => v,
    };
    let (commit, p2) = match parse_field(b, p1, 32) {
        None => {
            return None;
        },
        Some(v) => v,
    };
    let (agestr, p3) = match parse_field(b, p2, 32) {
        None => {
            return None;
        },
        Some(v) => v,
    };
    let age = match parse_dec(agestr.as_slice()) {
        None => {
            return None;
        },
        Some(a) => a,
    };
    let (test, p4) = match parse_field(b, p3, 32) {
        None => {
            return None;
        },
        Some(v) => v,
    };
    let (subtest, p5) = match parse_field(b, p4, 10) {
        None => {
            return None;
        },
        Some(v) => v,
    };
    Some((QueueLine { branch, commit, age, test, subtest, offset: pos }, p5))
}

/// Parse a whole queue file; `None` exactly when it is not a well-formed
/// sequence of lines (the queue format is an internal invariant, so a bad
/// line is an error, not data).
pub fn parse_queue(b: &[u8]) -> (r: Option<Vec<QueueLine>>)
    ensures
        match r {
            Some(ls) => sdec_queue(b@, 0) == Some(lines_vw(ls@)),
            None => sdec_queue(b@, 0) is None,
        },
{
    let n = b.len();
    let mut out: Vec<QueueLine> = Vec::new();
    let mut pos: usize = 0;
    proof {
        assert(lines_vw(out@) =~= Seq::<(LineV, int)>::empty());
    }
    while pos < n
        invariant
            n == b@.len(),
            pos <= n,
            match sdec_queue(b@, pos as int) {
                None => sdec_queue(b@, 0) is None,
                Some(rest) => sdec_queue(b@, 0) == Some(lines_vw(out@) + rest),
            },
        decreases n - pos,
    {
        let ghost pre = lines_vw(out@);
        match parse_line(b, pos) {
            None => {
                return None;
            },
            Some((l, p2)) => {
                let ghost lv = line_vw(l);
                proof {
                    assert(lv.1 == pos as int);
                }
                out.push(l);
                proof {
                    assert(lines_vw(out@) =~= pre.push(lv));
                    match sdec_queue(b@, p2 as int) {
                        None => {},
                        Some(rest) => {
                            assert(pre + (seq![lv] + rest) =~= pre.push(lv) + rest);
                        },
                    }
                }
                pos = p2;
            },
        }
    }
    proof {
        assert(sdec_queue(b@, n as int) == Some(Seq::<(LineV, int)>::empty()));
        assert(lines_vw(out@) + Seq::<(LineV, int)>::empty() =~= lines_vw(out@));
    }
    Some(out)
}

// ------------------------------------------------------- queue round trip

/// The view of one job as a parsed line.
pub open spec fn line_of_job(j: TestJob) -> LineV {
    (j.branch@, j.commit@, j.age, j.test@, j.subtest@)
}

/// The parsed image of a job list laid out from `base`.
pub open spec fn queue_lines_of(jobs: Seq<TestJob>, base: int) -> Seq<(LineV, int)>
    decreases jobs.len(),
{
    if jobs.len() == 0 {
        Seq::empty()
    } else {
        seq![(line_of_job(jobs[0]), base)] + queue_lines_of(
            jobs.skip(1),
            base + job_line(jobs[0]).len(),
        )
    }
}

/// A field followed by its separator parses back to exactly the field.
proof fn lemma_field_rt(b: Seq<u8>, pos: int, f: Seq<u8>, c: u8)
    requires
        0 <= pos,
        pos + f.len() + 1 <= b.len(),
        b.subrange(pos, pos + f.len()) == f,
        b[pos + f.len()] == c,
        forall|i: int| 0 <= i < f.len() ==> #[trigger] f[i] != c,
    ensures
        sdec_field(b, pos, c) == Some((f, pos + f.len() + 1)),
{
    assert forall|k: int| pos <= k < pos + f.len() implies b[k] != c by {
        assert(b.subrange(pos, pos + f.len())[k - pos] == b[k]);
        assert(f[k - pos] != c);
    }
    assert(find_byte(b, pos, c) == Some(pos + f.len())) by {
        lemma_find_byte_skips(b, pos, pos + f.len(), c);
    }
    assert(b.subrange(pos, pos + f.len()) == f);
}

/// `find_byte` lands on `e` when nothing before `e` matches and `b[e]` does.
proof fn lemma_find_byte_skips(b: Seq<u8>, pos: int, e: int, c: u8)
    requires
        0 <= pos <= e < b.len(),
        b[e] == c,
        forall|k: int| pos <= k < e ==> b[k] != c,
    ensures
        find_byte(b, pos, c) == Some(e),
    decreases e - pos,
{
    if pos < e {
        lemma_find_byte_skips(b, pos + 1, e, c);
    }
}

/// A line placed at `pos` parses back to exactly its job's fields.
proof fn lemma_line_rt(b: Seq<u8>, pos: int, j: TestJob)
    requires
        job_wf(j),
        0 <= pos,
        pos + job_line(j).len() <= b.len(),
        b.subrange(pos, pos + job_line(j).len()) == job_line(j),
    ensures
        sdec_line(b, pos) == Some((line_of_job(j), pos + job_line(j).len())),
{
    let line = job_line(j);
    let agestr = dec_rep(j.age as int);
    lemma_dec_rep_canon(j.age as int);
    assert(forall|i: int| 0 <= i < agestr.len() ==> #[trigger] agestr[i] != 32) by {
        assert(forall|i: int| 0 <= i < agestr.len() ==> 48 <= #[trigger] agestr[i] <= 57);
    }
    let sp = seq![32u8];
    let nl = seq![10u8];
    let r1 = j.commit@ + sp + agestr + sp + j.test@ + sp + j.subtest@ + nl;
    let r2 = agestr + sp + j.test@ + sp + j.subtest@ + nl;
    let r3 = j.test@ + sp + j.subtest@ + nl;
    let r4 = j.subtest@ + nl;
    let f1 = j.branch@ + sp;
    let f2 = j.commit@ + sp;
    let f3 = agestr + sp;
    let f4 = j.test@ + sp;
    let f5 = j.subtest@ + nl;
    assert(line =~= f1 + (f2 + r2));
    assert(f2 + r2 =~= r1);
    assert(line =~= f1 + r1);
    lemma_subrange_split_q(b, pos, f1, r1);
    let p1 = pos + f1.len();
    lemma_field_rt_sep(b, pos, j.branch@, 32);
    assert(r1 =~= f2 + r2);
    lemma_subrange_split_q(b, p1, f2, r2);
    let p2 = p1 + f2.len();
    lemma_field_rt_sep(b, p1, j.commit@, 32);
    assert(r2 =~= f3 + r3);
    lemma_subrange_split_q(b, p2, f3, r3);
    let p3 = p2 + f3.len();
    lemma_field_rt_sep(b, p2, agestr, 32);
    assert(r3 =~= f4 + r4);
    lemma_subrange_split_q(b, p3, f4, r4);
    let p4 = p3 + f4.len();
    lemma_field_rt_sep(b, p3, j.test@, 32);
    lemma_field_rt_sep(b, p4, j.subtest@, 10);
    assert(dec_val(agestr) as u64 == j.age);
    assert(p4 + f5.len() == pos + line.len());
    assert(sdec_line(b, pos) == Some((line_of_job(j), pos + line.len())));
}

/// Splitting a known concatenation out of a larger buffer.
proof fn lemma_subrange_split_q(b: Seq<u8>, pos: int, u: Seq<u8>, v: Seq<u8>)
    requires
        0 <= pos,
        pos + u.len() + v.len() <= b.len(),
        b.subrange(pos, pos + u.len() + v.len()) == u + v,
    ensures
        b.subrange(pos, pos + u.len()) == u,
        b.subrange(pos + u.len(), pos + u.len() + v.len()) == v,
{
    crate::codec::lemma_subrange_split(b, pos, u, v);
}

/// A field-plus-separator chunk placed at `pos` parses as one field.
proof fn lemma_field_rt_sep(b: Seq<u8>, pos: int, f: Seq<u8>, c: u8)
    requires
        0 <= pos,
        pos + f.len() + 1 <= b.len(),
        b.subrange(pos, pos + f.len() + 1) == f + seq![c],
        forall|i: int| 0 <= i < f.len() ==> #[trigger] f[i] != c,
    ensures
        sdec_field(b, pos, c) == Some((f, pos + f.len() + 1)),
{
    crate::codec::lemma_subrange_split(b, pos, f, seq![c]);
    assert(b.subrange(pos + f.len(), pos + f.len() + 1)[0] == b[pos + f.len()]);
    assert(b[pos + f.len()] == c);
    lemma_field_rt(b, pos, f, c);
}

/// Parsing inverts rendering: the queue file of any well-formed job list
/// parses back to those jobs' lines, with the right offsets.
pub proof fn lemma_queue_roundtrip_at(b: Seq<u8>, pos: int, jobs: Seq<TestJob>)
    requires
        forall|i: int| 0 <= i < jobs.len() ==> job_wf(#[trigger] jobs[i]),
        0 <= pos,
        pos + senc_queue(jobs).len() == b.len(),
        b.subrange(pos, b.len() as int) == senc_queue(jobs),
    ensures
        sdec_queue(b, pos) == Some(queue_lines_of(jobs, pos)),
    decreases jobs.len(),
{
    if jobs.len() == 0 {
        assert(queue_lines_of(jobs, pos) =~= Seq::<(LineV, int)>::empty());
    } else {
        let j = jobs[0];
        let line = job_line(j);
        assert(senc_queue(jobs) == line + senc_queue(jobs.skip(1)));
        assert(job_line(j).len() >= 1) by {
            assert(line[line.len() - 1] == 10);
        }
        assert(b.subrange(pos, pos + line.len()) =~= line) by {
            assert(forall|i: int|
                0 <= i < line.len() ==> b.subrange(pos, b.len() as int)[i] == b[pos + i]);
            assert(forall|i: int| 0 <= i < line.len() ==> senc_queue(jobs)[i] == line[i]);
        }
        lemma_line_rt(b, pos, j);
        assert(b.subrange(pos + line.len(), b.len() as int) =~= senc_queue(jobs.skip(1))) by {
            let tail = senc_queue(jobs.skip(1));
            assert forall|i: int| 0 <= i < tail.len() implies b[pos + line.len() + i] == tail[i] by {
                assert(b.subrange(pos, b.len() as int)[line.len() + i] == b[pos + line.len() + i]);
                assert(senc_queue(jobs)[line.len() + i] == tail[i]);
            }
        }
        lemma_queue_roundtrip_at(b, pos + line.len(), jobs.skip(1));
        assert(sdec_queue(b, pos) == Some(
            seq![(line_of_job(j), pos)] + queue_lines_of(jobs.skip(1), pos + line.len()),
        ));
    }
}

/// A job list's parsed image has one entry per job.
pub proof fn lemma_queue_lines_len(jobs: Seq<TestJob>, base: int)
    ensures
        queue_lines_of(jobs, base).len() == jobs.len(),
    decreases jobs.len(),
{
    if jobs.len() > 0 {
        lemma_queue_lines_len(jobs.skip(1), base + job_line(jobs[0]).len());
    }
}

/// Each parsed line's offset is the byte length of the lines before it, so
/// truncating the file at a line's offset keeps exactly the earlier lines.
pub proof fn lemma_queue_offsets(jobs: Seq<TestJob>, base: int, i: int)
    requires
        0 <= i < jobs.len(),
    ensures
        queue_lines_of(jobs, base)[i].1 == base + senc_queue(jobs.take(i)).len(),
    decreases i,
{
    if i == 0 {
        assert(jobs.take(0) =~= Seq::<TestJob>::empty());
    } else {
        let l0 = job_line(jobs[0]).len() as int;
        lemma_queue_lines_len(jobs.skip(1), base + l0);
        lemma_queue_offsets(jobs.skip(1), base + l0, i - 1);
        assert(queue_lines_of(jobs, base)[i] == queue_lines_of(jobs.skip(1), base + l0)[i - 1]);
        assert(jobs.skip(1).take(i - 1) =~= jobs.take(i).skip(1));
        assert(jobs.take(i)[0] == jobs[0]);
        assert(senc_queue(jobs.take(i)) == job_line(jobs[0]) + senc_queue(jobs.take(i).skip(1)));
    }
}

/// The whole-file statement: render, then parse, and every line with its
/// offset comes back.
pub proof fn lemma_queue_roundtrip(jobs: Seq<TestJob>)
    requires
        forall|i: int| 0 <= i < jobs.len() ==> job_wf(#[trigger] jobs[i]),
    ensures
        sdec_queue(senc_queue(jobs), 0) == Some(queue_lines_of(jobs, 0)),
{
    let b = senc_queue(jobs);
    assert(b.subrange(0, b.len() as int) =~= b);
    lemma_queue_roundtrip_at(b, 0, jobs);
}

} // verus!
