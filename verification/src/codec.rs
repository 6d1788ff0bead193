//! The compact binary encoding behind every durable record file: length-
//! prefixed byte strings and little-endian integers, grouped into rows of
//! (byte strings, numbers), grouped into row sets.  One row set is one file.
//!
//! `senc_*` are the specification-level encoders, `sdec_*` the matching
//! decoders; each executable function is proved equal to them, and the
//! `lemma_rt_*` family proves that decoding inverts encoding.

use vstd::prelude::*;
use vstd::bytes::{
    spec_u64_to_le_bytes,
    spec_u64_from_le_bytes,
    lemma_auto_spec_u64_to_from_le_bytes,
    u64_to_le_bytes,
    u64_from_le_bytes,
};

verus! {

// ---------------------------------------------------------------- encoding

pub open spec fn senc_u64(x: u64) -> Seq<u8> {
    spec_u64_to_le_bytes(x)
}

/// A byte string short enough for its length prefix.
pub open spec fn blob_wf(b: Seq<u8>) -> bool {
    b.len() <= u64::MAX
}

pub open spec fn senc_blob(b: Seq<u8>) -> Seq<u8> {
    senc_u64(b.len() as u64) + b
}

pub open spec fn senc_blob_items(bs: Seq<Seq<u8>>) -> Seq<u8>
    decreases bs.len(),
{
    if bs.len() == 0 {
        Seq::empty()
    } else {
        senc_blob(bs[0]) + senc_blob_items(bs.skip(1))
    }
}

pub open spec fn senc_blobs(bs: Seq<Seq<u8>>) -> Seq<u8> {
    senc_u64(bs.len() as u64) + senc_blob_items(bs)
}

pub open spec fn senc_num_items(ns: Seq<u64>) -> Seq<u8>
    decreases ns.len(),
{
    if ns.len() == 0 {
        Seq::empty()
    } else {
        senc_u64(ns[0]) + senc_num_items(ns.skip(1))
    }
}

pub open spec fn senc_nums(ns: Seq<u64>) -> Seq<u8> {
    senc_u64(ns.len() as u64) + senc_num_items(ns)
}

/// One record: a list of byte strings and a list of numbers.
pub type RowV = (Seq<Seq<u8>>, Seq<u64>);

pub open spec fn row_wf(r: RowV) -> bool {
    &&& r.0.len() <= u64::MAX
    &&& r.1.len() <= u64::MAX
    &&& forall|i: int| 0 <= i < r.0.len() ==> blob_wf(#[trigger] r.0[i])
}

pub open spec fn senc_row(r: RowV) -> Seq<u8> {
    senc_blobs(r.0) + senc_nums(r.1)
}

pub open spec fn senc_row_items(rs: Seq<RowV>) -> Seq<u8>
    decreases rs.len(),
{
    if rs.len() == 0 {
        Seq::empty()
    } else {
        senc_row(rs[0]) + senc_row_items(rs.skip(1))
    }
}

pub open spec fn rows_wf(rs: Seq<RowV>) -> bool {
    rs.len() <= u64::MAX && forall|i: int| 0 <= i < rs.len() ==> row_wf(#[trigger] rs[i])
}

/// The whole file: a count followed by that many rows.
pub open spec fn senc_rows(rs: Seq<RowV>) -> Seq<u8> {
    senc_u64(rs.len() as u64) + senc_row_items(rs)
}

// ---------------------------------------------------------------- decoding

pub open spec fn sdec_u64(b: Seq<u8>, pos: int) -> Option<(u64, int)> {
    if 0 <= pos && pos + 8 <= b.len() {
        Some((spec_u64_from_le_bytes(b.subrange(pos, pos + 8)), pos + 8))
    } else {
        None
    }
}

pub open spec fn sdec_blob(b: Seq<u8>, pos: int) -> Option<(Seq<u8>, int)> {
    match sdec_u64(b, pos) {
        None => None,
        Some((n, p)) => if p + n <= b.len() {
            Some((b.subrange(p, p + n as int), p + n as int))
        } else {
            None
        },
    }
}

pub open spec fn sdec_blob_items(b: Seq<u8>, pos: int, n: nat) -> Option<(Seq<Seq<u8>>, int)>
    decreases n,
{
    if n == 0 {
        Some((Seq::empty(), pos))
    } else {
        match sdec_blob(b, pos) {
            None => None,
            Some((x, p)) => match sdec_blob_items(b, p, (n - 1) as nat) {
                None => None,
                Some((xs, q)) => Some((seq![x] + xs, q)),
            },
        }
    }
}

pub open spec fn sdec_blobs(b: Seq<u8>, pos: int) -> Option<(Seq<Seq<u8>>, int)> {
    match sdec_u64(b, pos) {
        None => None,
        Some((n, p)) => sdec_blob_items(b, p, n as nat),
    }
}

pub open spec fn sdec_num_items(b: Seq<u8>, pos: int, n: nat) -> Option<(Seq<u64>, int)>
    decreases n,
{
    if n == 0 {
        Some((Seq::empty(), pos))
    } else {
        match sdec_u64(b, pos) {
            None => None,
            Some((x, p)) => match sdec_num_items(b, p, (n - 1) as nat) {
                None => None,
                Some((xs, q)) => Some((seq![x] + xs, q)),
            },
        }
    }
}

pub open spec fn sdec_nums(b: Seq<u8>, pos: int) -> Option<(Seq<u64>, int)> {
    match sdec_u64(b, pos) {
        None => None,
        Some((n, p)) => sdec_num_items(b, p, n as nat),
    }
}

pub open spec fn sdec_row(b: Seq<u8>, pos: int) -> Option<(RowV, int)> {
    match sdec_blobs(b, pos) {
        None => None,
        Some((ss, p)) => match sdec_nums(b, p) {
            None => None,
            Some((ns, q)) => Some(((ss, ns), q)),
        },
    }
}

pub open spec fn sdec_row_items(b: Seq<u8>, pos: int, n: nat) -> Option<(Seq<RowV>, int)>
    decreases n,
{
    if n == 0 {
        Some((Seq::empty(), pos))
    } else {
        match sdec_row(b, pos) {
            None => None,
            Some((x, p)) => match sdec_row_items(b, p, (n - 1) as nat) {
                None => None,
                Some((xs, q)) => Some((seq![x] + xs, q)),
            },
        }
    }
}

/// The whole file; anything left over after the counted rows is a parse
/// error, so exactly the encodings of row sequences decode.
pub open spec fn sdec_rows(b: Seq<u8>) -> Option<Seq<RowV>> {
    match sdec_u64(b, 0) {
        None => None,
        Some((n, p)) => match sdec_row_items(b, p, n as nat) {
            None => None,
            Some((rs, q)) => if q == b.len() {
                Some(rs)
            } else {
                None
            },
        },
    }
}

// ------------------------------------------------------ round-trip lemmas

/// Splitting a known concatenation out of a larger buffer.
pub proof fn lemma_subrange_split(b: Seq<u8>, pos: int, u: Seq<u8>, v: Seq<u8>)
    requires
        0 <= pos,
        pos + u.len() + v.len() <= b.len(),
        b.subrange(pos, pos + u.len() + v.len()) == u + v,
    ensures
        b.subrange(pos, pos + u.len()) == u,
        b.subrange(pos + u.len(), pos + u.len() + v.len()) == v,
{
    let w = b.subrange(pos, pos + u.len() + v.len());
    assert(b.subrange(pos, pos + u.len()) =~= u) by {
        assert(forall|i: int| 0 <= i < u.len() ==> b[pos + i] == w[i] && w[i] == (u + v)[i]);
    }
    assert(b.subrange(pos + u.len(), pos + u.len() + v.len()) =~= v) by {
        assert forall|i: int| 0 <= i < v.len() implies b[pos + u.len() + i] == v[i] by {
            assert(b[pos + u.len() + i] == w[u.len() + i]);
            assert(w[u.len() + i] == (u + v)[u.len() + i]);
        }
    }
}

pub proof fn lemma_rt_u64(b: Seq<u8>, pos: int, x: u64)
    requires
        0 <= pos,
        pos + 8 <= b.len(),
        b.subrange(pos, pos + 8) == senc_u64(x),
    ensures
        sdec_u64(b, pos) == Some((x, pos + 8)),
{
    lemma_auto_spec_u64_to_from_le_bytes();
}

pub proof fn lemma_senc_u64_len(x: u64)
    ensures
        senc_u64(x).len() == 8,
{
    lemma_auto_spec_u64_to_from_le_bytes();
}

pub proof fn lemma_rt_blob(b: Seq<u8>, pos: int, x: Seq<u8>)
    requires
        blob_wf(x),
        0 <= pos,
        pos + senc_blob(x).len() <= b.len(),
        b.subrange(pos, pos + senc_blob(x).len()) == senc_blob(x),
    ensures
        sdec_blob(b, pos) == Some((x, pos + senc_blob(x).len())),
{
    lemma_senc_u64_len(x.len() as u64);
    lemma_subrange_split(b, pos, senc_u64(x.len() as u64), x);
    lemma_rt_u64(b, pos, x.len() as u64);
}

pub proof fn lemma_rt_blob_items(b: Seq<u8>, pos: int, xs: Seq<Seq<u8>>)
    requires
        forall|i: int| 0 <= i < xs.len() ==> blob_wf(#[trigger] xs[i]),
        0 <= pos,
        pos + senc_blob_items(xs).len() <= b.len(),
        b.subrange(pos, pos + senc_blob_items(xs).len()) == senc_blob_items(xs),
    ensures
        sdec_blob_items(b, pos, xs.len()) == Some((xs, pos + senc_blob_items(xs).len())),
    decreases xs.len(),
{
    if xs.len() == 0 {
        assert(sdec_blob_items(b, pos, 0) == Some((Seq::<Seq<u8>>::empty(), pos)));
        assert(xs =~= Seq::<Seq<u8>>::empty());
    } else {
        let head = senc_blob(xs[0]);
        let tail = senc_blob_items(xs.skip(1));
        lemma_subrange_split(b, pos, head, tail);
        lemma_rt_blob(b, pos, xs[0]);
        lemma_rt_blob_items(b, pos + head.len(), xs.skip(1));
        assert(xs =~= seq![xs[0]] + xs.skip(1));
    }
}

pub proof fn lemma_rt_blobs(b: Seq<u8>, pos: int, xs: Seq<Seq<u8>>)
    requires
        xs.len() <= u64::MAX,
        forall|i: int| 0 <= i < xs.len() ==> blob_wf(#[trigger] xs[i]),
        0 <= pos,
        pos + senc_blobs(xs).len() <= b.len(),
        b.subrange(pos, pos + senc_blobs(xs).len()) == senc_blobs(xs),
    ensures
        sdec_blobs(b, pos) == Some((xs, pos + senc_blobs(xs).len())),
{
    lemma_senc_u64_len(xs.len() as u64);
    lemma_subrange_split(b, pos, senc_u64(xs.len() as u64), senc_blob_items(xs));
    lemma_rt_u64(b, pos, xs.len() as u64);
    lemma_rt_blob_items(b, pos + 8, xs);
}

pub proof fn lemma_rt_num_items(b: Seq<u8>, pos: int, xs: Seq<u64>)
    requires
        0 <= pos,
        pos + senc_num_items(xs).len() <= b.len(),
        b.subrange(pos, pos + senc_num_items(xs).len()) == senc_num_items(xs),
    ensures
        sdec_num_items(b, pos, xs.len()) == Some((xs, pos + senc_num_items(xs).len())),
    decreases xs.len(),
{
    if xs.len() == 0 {
        assert(xs =~= Seq::<u64>::empty());
    } else {
        let head = senc_u64(xs[0]);
        let tail = senc_num_items(xs.skip(1));
        lemma_senc_u64_len(xs[0]);
        lemma_subrange_split(b, pos, head, tail);
        lemma_rt_u64(b, pos, xs[0]);
        lemma_rt_num_items(b, pos + head.len(), xs.skip(1));
        assert(xs =~= seq![xs[0]] + xs.skip(1));
    }
}

pub proof fn lemma_rt_nums(b: Seq<u8>, pos: int, xs: Seq<u64>)
    requires
        xs.len() <= u64::MAX,
        0 <= pos,
        pos + senc_nums(xs).len() <= b.len(),
        b.subrange(pos, pos + senc_nums(xs).len()) == senc_nums(xs),
    ensures
        sdec_nums(b, pos) == Some((xs, pos + senc_nums(xs).len())),
{
    lemma_senc_u64_len(xs.len() as u64);
    lemma_subrange_split(b, pos, senc_u64(xs.len() as u64), senc_num_items(xs));
    lemma_rt_u64(b, pos, xs.len() as u64);
    lemma_rt_num_items(b, pos + 8, xs);
}

pub proof fn lemma_rt_row(b: Seq<u8>, pos: int, r: RowV)
    requires
        row_wf(r),
        0 <= pos,
        pos + senc_row(r).len() <= b.len(),
        b.subrange(pos, pos + senc_row(r).len()) == senc_row(r),
    ensures
        sdec_row(b, pos) == Some((r, pos + senc_row(r).len())),
{
    lemma_subrange_split(b, pos, senc_blobs(r.0), senc_nums(r.1));
    lemma_rt_blobs(b, pos, r.0);
    lemma_rt_nums(b, pos + senc_blobs(r.0).len(), r.1);
}

pub proof fn lemma_rt_row_items(b: Seq<u8>, pos: int, rs: Seq<RowV>)
    requires
        forall|i: int| 0 <= i < rs.len() ==> row_wf(#[trigger] rs[i]),
        0 <= pos,
        pos + senc_row_items(rs).len() <= b.len(),
        b.subrange(pos, pos + senc_row_items(rs).len()) == senc_row_items(rs),
    ensures
        sdec_row_items(b, pos, rs.len()) == Some((rs, pos + senc_row_items(rs).len())),
    decreases rs.len(),
{
    if rs.len() == 0 {
        assert(rs =~= Seq::<RowV>::empty());
    } else {
        let head = senc_row(rs[0]);
        let tail = senc_row_items(rs.skip(1));
        lemma_subrange_split(b, pos, head, tail);
        lemma_rt_row(b, pos, rs[0]);
        lemma_rt_row_items(b, pos + head.len(), rs.skip(1));
        assert(rs =~= seq![rs[0]] + rs.skip(1));
    }
}

/// Decoding inverts encoding for every well-formed row set.
pub proof fn lemma_rt_rows(rs: Seq<RowV>)
    requires
        rows_wf(rs),
    ensures
        sdec_rows(senc_rows(rs)) == Some(rs),
{
    let b = senc_rows(rs);
    lemma_senc_u64_len(rs.len() as u64);
    assert(b.subrange(0, b.len() as int) =~= b);
    lemma_subrange_split(b, 0, senc_u64(rs.len() as u64), senc_row_items(rs));
    lemma_rt_u64(b, 0, rs.len() as u64);
    lemma_rt_row_items(b, 8, rs);
}

} // verus!

verus! {

// ------------------------------------------------------ executable encoders

pub fn emit_u64(out: &mut Vec<u8>, x: u64)
    ensures
        final(out)@ == old(out)@ + senc_u64(x),
{
    let mut s = u64_to_le_bytes(x);
    out.append(&mut s);
}

pub fn emit_blob(out: &mut Vec<u8>, b: &[u8])
    ensures
        final(out)@ == old(out)@ + senc_blob(b@),
{
    let ghost base = out@;
    emit_u64(out, b.len() as u64);
    out.extend_from_slice(b);
    assert(out@ =~= base + senc_blob(b@));
}

/// Items-part helpers: encoding grows one item at a time from the left.
proof fn lemma_senc_blob_items_push(s: Seq<Seq<u8>>, x: Seq<u8>)
    ensures
        senc_blob_items(s.push(x)) == senc_blob_items(s) + senc_blob(x),
    decreases s.len(),
{
    if s.len() == 0 {
        assert(s.push(x).skip(1) =~= Seq::<Seq<u8>>::empty());
        assert(senc_blob_items(Seq::<Seq<u8>>::empty()) == Seq::<u8>::empty());
        assert(s.push(x)[0] == x);
        assert(senc_blob_items(s.push(x)) =~= senc_blob(x));
        assert(senc_blob_items(s) + senc_blob(x) =~= senc_blob(x));
    } else {
        lemma_senc_blob_items_push(s.skip(1), x);
        assert(s.push(x).skip(1) =~= s.skip(1).push(x));
        assert(s.push(x)[0] == s[0]);
        assert(senc_blob(s[0]) + (senc_blob_items(s.skip(1)) + senc_blob(x)) =~= (senc_blob(s[0])
            + senc_blob_items(s.skip(1))) + senc_blob(x));
    }
}

proof fn lemma_senc_num_items_push(s: Seq<u64>, x: u64)
    ensures
        senc_num_items(s.push(x)) == senc_num_items(s) + senc_u64(x),
    decreases s.len(),
{
    if s.len() == 0 {
        assert(s.push(x).skip(1) =~= Seq::<u64>::empty());
        assert(senc_num_items(Seq::<u64>::empty()) == Seq::<u8>::empty());
        assert(s.push(x)[0] == x);
        assert(senc_num_items(s.push(x)) =~= senc_u64(x));
        assert(senc_num_items(s) + senc_u64(x) =~= senc_u64(x));
    } else {
        lemma_senc_num_items_push(s.skip(1), x);
        assert(s.push(x).skip(1) =~= s.skip(1).push(x));
        assert(s.push(x)[0] == s[0]);
        assert(senc_u64(s[0]) + (senc_num_items(s.skip(1)) + senc_u64(x)) =~= (senc_u64(s[0])
            + senc_num_items(s.skip(1))) + senc_u64(x));
    }
}

proof fn lemma_senc_row_items_push(s: Seq<RowV>, x: RowV)
    ensures
        senc_row_items(s.push(x)) == senc_row_items(s) + senc_row(x),
    decreases s.len(),
{
    if s.len() == 0 {
        assert(s.push(x).skip(1) =~= Seq::<RowV>::empty());
        assert(senc_row_items(Seq::<RowV>::empty()) == Seq::<u8>::empty());
        assert(s.push(x)[0] == x);
        assert(senc_row_items(s.push(x)) =~= senc_row(x));
        assert(senc_row_items(s) + senc_row(x) =~= senc_row(x));
    } else {
        lemma_senc_row_items_push(s.skip(1), x);
        assert(s.push(x).skip(1) =~= s.skip(1).push(x));
        assert(s.push(x)[0] == s[0]);
        assert(senc_row(s[0]) + (senc_row_items(s.skip(1)) + senc_row(x)) =~= (senc_row(s[0])
            + senc_row_items(s.skip(1))) + senc_row(x));
    }
}

pub fn emit_blobs(out: &mut Vec<u8>, bs: &Vec<Vec<u8>>)
    ensures
        final(out)@ == old(out)@ + senc_blobs(bs.deep_view()),
{
    let ghost base = out@;
    let ghost items = bs.deep_view();
    emit_u64(out, bs.len() as u64);
    assert(items.len() == bs@.len());
    let mut i: usize = 0;
    while i < bs.len()
        invariant
            items == bs.deep_view(),
            items.len() == bs@.len(),
            i <= bs@.len(),
            out@ == base + senc_u64(bs@.len() as u64) + senc_blob_items(items.take(i as int)),
        decreases bs@.len() - i,
    {
        let ghost pre = items.take(i as int);
        emit_blob(out, bs[i].as_slice());
        proof {
            assert(bs[i as int]@ == items[i as int]);
            lemma_senc_blob_items_push(pre, items[i as int]);
            assert(items.take(i + 1) =~= pre.push(items[i as int]));
            assert(base + senc_u64(bs@.len() as u64) + senc_blob_items(pre) + senc_blob(
                items[i as int],
            ) =~= base + senc_u64(bs@.len() as u64) + (senc_blob_items(pre) + senc_blob(
                items[i as int],
            )));
        }
        i += 1;
    }
    proof {
        assert(items.take(items.len() as int) =~= items);
        assert(base + senc_u64(bs@.len() as u64) + senc_blob_items(items) =~= base + senc_blobs(
            items,
        ));
    }
}

pub fn emit_nums(out: &mut Vec<u8>, ns: &Vec<u64>)
    ensures
        final(out)@ == old(out)@ + senc_nums(ns@),
{
    let ghost base = out@;
    let ghost items = ns@;
    emit_u64(out, ns.len() as u64);
    let mut i: usize = 0;
    while i < ns.len()
        invariant
            items == ns@,
            i <= ns@.len(),
            out@ == base + senc_u64(ns@.len() as u64) + senc_num_items(items.take(i as int)),
        decreases ns@.len() - i,
    {
        let ghost pre = items.take(i as int);
        emit_u64(out, ns[i]);
        proof {
            lemma_senc_num_items_push(pre, items[i as int]);
            assert(items.take(i + 1) =~= pre.push(items[i as int]));
            assert(base + senc_u64(ns@.len() as u64) + senc_num_items(pre) + senc_u64(
                items[i as int],
            ) =~= base + senc_u64(ns@.len() as u64) + (senc_num_items(pre) + senc_u64(
                items[i as int],
            )));
        }
        i += 1;
    }
    proof {
        assert(items.take(items.len() as int) =~= items);
        assert(base + senc_u64(ns@.len() as u64) + senc_num_items(items) =~= base + senc_nums(
            items,
        ));
    }
}

/// One record of a durable file.
pub struct Row {
    pub strs: Vec<Vec<u8>>,
    pub nums: Vec<u64>,
}

impl View for Row {
    type V = RowV;

    open spec fn view(&self) -> RowV {
        (self.strs.deep_view(), self.nums@)
    }
}

pub open spec fn rows_vw(rows: Seq<Row>) -> Seq<RowV> {
    rows.map_values(|r: Row| r@)
}

pub fn emit_row(out: &mut Vec<u8>, r: &Row)
    ensures
        final(out)@ == old(out)@ + senc_row(r@),
{
    let ghost base = out@;
    emit_blobs(out, &r.strs);
    emit_nums(out, &r.nums);
    assert(out@ =~= base + senc_row(r@));
}

/// Encode a whole file.
pub fn encode_rows(rows: &Vec<Row>) -> (out: Vec<u8>)
    ensures
        out@ == senc_rows(rows_vw(rows@)),
{
    let ghost items = rows_vw(rows@);
    let mut out: Vec<u8> = Vec::new();
    emit_u64(&mut out, rows.len() as u64);
    assert(out@ =~= senc_u64(rows@.len() as u64));
    let mut i: usize = 0;
    while i < rows.len()
        invariant
            items == rows_vw(rows@),
            items.len() == rows@.len(),
            i <= rows@.len(),
            out@ == senc_u64(rows@.len() as u64) + senc_row_items(items.take(i as int)),
        decreases rows@.len() - i,
    {
        let ghost pre = items.take(i as int);
        emit_row(&mut out, &rows[i]);
        proof {
            assert(rows@[i as int]@ == items[i as int]);
            lemma_senc_row_items_push(pre, items[i as int]);
            assert(items.take(i + 1) =~= pre.push(items[i as int]));
            assert(senc_u64(rows@.len() as u64) + senc_row_items(pre) + senc_row(items[i as int])
                =~= senc_u64(rows@.len() as u64) + (senc_row_items(pre) + senc_row(
                items[i as int],
            )));
        }
        i += 1;
    }
    proof {
        assert(items.take(items.len() as int) =~= items);
    }
    out
}

} // verus!

verus! {

// ------------------------------------------------------- executable parsers

pub fn read_bytes(b: &[u8], pos: usize, n: usize) -> (r: Vec<u8>)
    requires
        pos + n <= b@.len(),
    ensures
        r@ == b@.subrange(pos as int, pos + n),
{
    let slen = b.len();
    let mut out: Vec<u8> = Vec::new();
    let mut i: usize = 0;
    while i < n
        invariant
            pos + n <= b@.len(),
            slen == b@.len(),
            i <= n,
            out@ == b@.subrange(pos as int, pos + i),
        decreases n - i,
    {
        out.push(b[pos + i]);
        proof {
            assert(out@ =~= b@.subrange(pos as int, pos + i + 1));
        }
        i += 1;
    }
    out
}

pub fn parse_u64(b: &[u8], pos: usize) -> (r: Option<(u64, usize)>)
    ensures
        match r {
            Some((x, p)) => sdec_u64(b@, pos as int) == Some((x, p as int)),
            None => sdec_u64(b@, pos as int) is None,
        },
{
    if b.len() < 8 || pos > b.len() - 8 {
        return None;
    }
    let v = read_bytes(b, pos, 8);
    let x = u64_from_le_bytes(v.as_slice());
    Some((x, pos + 8))
}

pub fn parse_blob(b: &[u8], pos: usize) -> (r: Option<(Vec<u8>, usize)>)
    ensures
        match r {
            Some((x, p)) => sdec_blob(b@, pos as int) == Some((x@, p as int)),
            None => sdec_blob(b@, pos as int) is None,
        },
{
    match parse_u64(b, pos) {
        None => None,
        Some((n, p)) => {
            let rem = b.len() - p;
            if n > rem as u64 {
                return None;
            }
            let n_us = n as usize;
            let x = read_bytes(b, p, n_us);
            Some((x, p + n_us))
        },
    }
}

pub fn parse_blobs(b: &[u8], pos: usize) -> (r: Option<(Vec<Vec<u8>>, usize)>)
    ensures
        match r {
            Some((xs, p)) => sdec_blobs(b@, pos as int) == Some((xs.deep_view(), p as int)),
            None => sdec_blobs(b@, pos as int) is None,
        },
{
    let (n, start) = match parse_u64(b, pos) {
        None => {
            return None;
        },
        Some(v) => v,
    };
    let mut out: Vec<Vec<u8>> = Vec::new();
    let mut cur: usize = start;
    let mut i: u64 = 0;
    while i < n
        invariant
            i <= n,
            sdec_blobs(b@, pos as int) == sdec_blob_items(b@, start as int, n as nat),
            sdec_blob_items(b@, start as int, n as nat) == match sdec_blob_items(
                b@,
                cur as int,
                (n - i) as nat,
            ) {
                None => None::<(Seq<Seq<u8>>, int)>,
                Some((xs, q)) => Some((out.deep_view() + xs, q)),
            },
        decreases n - i,
    {
        let ghost pre = out.deep_view();
        match parse_blob(b, cur) {
            None => {
                return None;
            },
            Some((x, p)) => {
                let ghost xv = x@;
                out.push(x);
                proof {
                    assert(out.deep_view() =~~= pre.push(xv));
                    let rest = sdec_blob_items(b@, p as int, (n - i - 1) as nat);
                    match rest {
                        None => {},
                        Some((xs2, q2)) => {
                            assert(pre + (seq![xv] + xs2) =~= pre.push(xv) + xs2);
                        },
                    }
                }
                cur = p;
            },
        }
        i += 1;
    }
    proof {
        assert(sdec_blob_items(b@, cur as int, 0nat) == Some((Seq::<Seq<u8>>::empty(), cur as int)));
        assert(out.deep_view() + Seq::<Seq<u8>>::empty() =~= out.deep_view());
    }
    Some((out, cur))
}

pub fn parse_nums(b: &[u8], pos: usize) -> (r: Option<(Vec<u64>, usize)>)
    ensures
        match r {
            Some((xs, p)) => sdec_nums(b@, pos as int) == Some((xs@, p as int)),
            None => sdec_nums(b@, pos as int) is None,
        },
{
    let (n, start) = match parse_u64(b, pos) {
        None => {
            return None;
        },
        Some(v) => v,
    };
    let mut out: Vec<u64> = Vec::new();
    let mut cur: usize = start;
    let mut i: u64 = 0;
    while i < n
        invariant
            i <= n,
            sdec_nums(b@, pos as int) == sdec_num_items(b@, start as int, n as nat),
            sdec_num_items(b@, start as int, n as nat) == match sdec_num_items(
                b@,
                cur as int,
                (n - i) as nat,
            ) {
                None => None::<(Seq<u64>, int)>,
                Some((xs, q)) => Some((out@ + xs, q)),
            },
        decreases n - i,
    {
        let ghost pre = out@;
        match parse_u64(b, cur) {
            None => {
                return None;
            },
            Some((x, p)) => {
                out.push(x);
                proof {
                    let rest = sdec_num_items(b@, p as int, (n - i - 1) as nat);
                    match rest {
                        None => {},
                        Some((xs2, q2)) => {
                            assert(pre + (seq![x] + xs2) =~= pre.push(x) + xs2);
                        },
                    }
                }
                cur = p;
            },
        }
        i += 1;
    }
    proof {
        assert(sdec_num_items(b@, cur as int, 0nat) == Some((Seq::<u64>::empty(), cur as int)));
        assert(out@ + Seq::<u64>::empty() =~= out@);
    }
    Some((out, cur))
}

pub fn parse_row(b: &[u8], pos: usize) -> (r: Option<(Row, usize)>)
    ensures
        match r {
            Some((x, p)) => sdec_row(b@, pos as int) == Some((x@, p as int)),
            None => sdec_row(b@, pos as int) is None,
        },
{
    match parse_blobs(b, pos) {
        None => None,
        Some((ss, p)) => match parse_nums(b, p) {
            None => None,
            Some((ns, q)) => Some((Row { strs: ss, nums: ns }, q)),
        },
    }
}

/// Decode a whole file.
pub fn parse_rows(b: &[u8]) -> (r: Option<Vec<Row>>)
    ensures
        match r {
            Some(rows) => sdec_rows(b@) == Some(rows_vw(rows@)),
            None => sdec_rows(b@) is None,
        },
{
    let (n, start) = match parse_u64(b, 0) {
        None => {
            return None;
        },
        Some(v) => v,
    };
    let mut out: Vec<Row> = Vec::new();
    let mut cur: usize = start;
    let mut i: u64 = 0;
    while i < n
        invariant
            i <= n,
            sdec_u64(b@, 0) == Some((n, start as int)),
            sdec_row_items(b@, start as int, n as nat) == match sdec_row_items(
                b@,
                cur as int,
                (n - i) as nat,
            ) {
                None => None::<(Seq<RowV>, int)>,
                Some((xs, q)) => Some((rows_vw(out@) + xs, q)),
            },
        decreases n - i,
    {
        let ghost pre = rows_vw(out@);
        match parse_row(b, cur) {
            None => {
                return None;
            },
            Some((x, p)) => {
                let ghost xv = x@;
                out.push(x);
                proof {
                    assert(rows_vw(out@) =~= pre.push(xv));
                    let rest = sdec_row_items(b@, p as int, (n - i - 1) as nat);
                    match rest {
                        None => {},
                        Some((xs2, q2)) => {
                            assert(pre + (seq![xv] + xs2) =~= pre.push(xv) + xs2);
                        },
                    }
                }
                cur = p;
            },
        }
        i += 1;
    }
    if cur != b.len() {
        return None;
    }
    proof {
        assert(sdec_row_items(b@, cur as int, 0nat) == Some((Seq::<RowV>::empty(), cur as int)));
        assert(rows_vw(out@) + Seq::<RowV>::empty() =~= rows_vw(out@));
    }
    Some(out)
}

} // verus!

verus! {

// ------------------------------------------------------- decoder soundness

/// Whatever an eight-byte read yields re-encodes to the very bytes read.
proof fn lemma_sdec_u64_sound(b: Seq<u8>, pos: int)
    ensures
        match sdec_u64(b, pos) {
            Some((x, p)) => 0 <= pos && p == pos + 8 && p <= b.len() && b.subrange(pos, p)
                == senc_u64(x),
            None => true,
        },
{
    lemma_auto_spec_u64_to_from_le_bytes();
}

proof fn lemma_sdec_blob_sound(b: Seq<u8>, pos: int)
    ensures
        match sdec_blob(b, pos) {
            Some((v, p)) => 0 <= pos <= p <= b.len() && blob_wf(v) && b.subrange(pos, p)
                == senc_blob(v),
            None => true,
        },
{
    lemma_sdec_u64_sound(b, pos);
    match sdec_u64(b, pos) {
        Some((n, p0)) => {
            if p0 + n <= b.len() {
                let v = b.subrange(p0, p0 + n as int);
                assert(v.len() == n);
                assert(senc_blob(v) =~= senc_u64(n) + v);
                lemma_subrange_join(b, pos, p0, p0 + n as int);
                assert(b.subrange(pos, p0 + n as int) =~= senc_u64(n) + v);
            }
        },
        None => {},
    }
}

proof fn lemma_sdec_blob_items_sound(b: Seq<u8>, pos: int, n: nat)
    requires
        0 <= pos <= b.len(),
    ensures
        match sdec_blob_items(b, pos, n) {
            Some((vs, p)) => {
                &&& pos <= p <= b.len()
                &&& vs.len() == n
                &&& forall|i: int| 0 <= i < vs.len() ==> blob_wf(#[trigger] vs[i])
                &&& b.subrange(pos, p) == senc_blob_items(vs)
            },
            None => true,
        },
    decreases n,
{
    if n == 0 {
        assert(b.subrange(pos, pos) =~= senc_blob_items(Seq::<Seq<u8>>::empty()));
    } else {
        lemma_sdec_blob_sound(b, pos);
        match sdec_blob(b, pos) {
            Some((v, p1)) => {
                lemma_sdec_blob_items_sound(b, p1, (n - 1) as nat);
                match sdec_blob_items(b, p1, (n - 1) as nat) {
                    Some((vs2, p2)) => {
                        let vs = seq![v] + vs2;
                        assert(vs[0] == v);
                        assert(vs.skip(1) =~= vs2);
                        assert(senc_blob_items(vs) == senc_blob(v) + senc_blob_items(vs2));
                        lemma_subrange_join(b, pos, p1, p2);
                    },
                    None => {},
                }
            },
            None => {},
        }
    }
}

/// Adjacent subranges concatenate.
proof fn lemma_subrange_join(b: Seq<u8>, pos: int, mid: int, end: int)
    requires
        0 <= pos <= mid <= end <= b.len(),
    ensures
        b.subrange(pos, end) == b.subrange(pos, mid) + b.subrange(mid, end),
{
    assert(b.subrange(pos, end) =~= b.subrange(pos, mid) + b.subrange(mid, end));
}

proof fn lemma_sdec_num_items_sound(b: Seq<u8>, pos: int, n: nat)
    requires
        0 <= pos <= b.len(),
    ensures
        match sdec_num_items(b, pos, n) {
            Some((vs, p)) => pos <= p <= b.len() && vs.len() == n && b.subrange(pos, p)
                == senc_num_items(vs),
            None => true,
        },
    decreases n,
{
    if n == 0 {
        assert(b.subrange(pos, pos) =~= senc_num_items(Seq::<u64>::empty()));
    } else {
        lemma_sdec_u64_sound(b, pos);
        match sdec_u64(b, pos) {
            Some((x, p1)) => {
                lemma_sdec_num_items_sound(b, p1, (n - 1) as nat);
                match sdec_num_items(b, p1, (n - 1) as nat) {
                    Some((vs2, p2)) => {
                        let vs = seq![x] + vs2;
                        assert(vs[0] == x);
                        assert(vs.skip(1) =~= vs2);
                        assert(senc_num_items(vs) == senc_u64(x) + senc_num_items(vs2));
                        lemma_subrange_join(b, pos, p1, p2);
                    },
                    None => {},
                }
            },
            None => {},
        }
    }
}

proof fn lemma_sdec_blobs_sound(b: Seq<u8>, pos: int)
    ensures
        match sdec_blobs(b, pos) {
            Some((vs, p)) => {
                &&& 0 <= pos <= p <= b.len()
                &&& vs.len() <= u64::MAX
                &&& forall|i: int| 0 <= i < vs.len() ==> blob_wf(#[trigger] vs[i])
                &&& b.subrange(pos, p) == senc_blobs(vs)
            },
            None => true,
        },
{
    lemma_sdec_u64_sound(b, pos);
    match sdec_u64(b, pos) {
        Some((n, p0)) => {
            lemma_sdec_blob_items_sound(b, p0, n as nat);
            match sdec_blob_items(b, p0, n as nat) {
                Some((vs, p)) => {
                    assert(vs.len() as u64 == n);
                    lemma_subrange_join(b, pos, p0, p);
                },
                None => {},
            }
        },
        None => {},
    }
}

proof fn lemma_sdec_nums_sound(b: Seq<u8>, pos: int)
    ensures
        match sdec_nums(b, pos) {
            Some((vs, p)) => 0 <= pos <= p <= b.len() && vs.len() <= u64::MAX && b.subrange(pos, p)
                == senc_nums(vs),
            None => true,
        },
{
    lemma_sdec_u64_sound(b, pos);
    match sdec_u64(b, pos) {
        Some((n, p0)) => {
            lemma_sdec_num_items_sound(b, p0, n as nat);
            match sdec_num_items(b, p0, n as nat) {
                Some((vs, p)) => {
                    assert(vs.len() as u64 == n);
                    lemma_subrange_join(b, pos, p0, p);
                },
                None => {},
            }
        },
        None => {},
    }
}

proof fn lemma_sdec_row_sound(b: Seq<u8>, pos: int)
    ensures
        match sdec_row(b, pos) {
            Some((r, p)) => 0 <= pos <= p <= b.len() && row_wf(r) && b.subrange(pos, p)
                == senc_row(r),
            None => true,
        },
{
    lemma_sdec_blobs_sound(b, pos);
    match sdec_blobs(b, pos) {
        Some((ss, p1)) => {
            lemma_sdec_nums_sound(b, p1);
            match sdec_nums(b, p1) {
                Some((ns, p2)) => {
                    lemma_subrange_join(b, pos, p1, p2);
                },
                None => {},
            }
        },
        None => {},
    }
}

proof fn lemma_sdec_row_items_sound(b: Seq<u8>, pos: int, n: nat)
    requires
        0 <= pos <= b.len(),
    ensures
        match sdec_row_items(b, pos, n) {
            Some((rs, p)) => {
                &&& pos <= p <= b.len()
                &&& rs.len() == n
                &&& forall|i: int| 0 <= i < rs.len() ==> row_wf(#[trigger] rs[i])
                &&& b.subrange(pos, p) == senc_row_items(rs)
            },
            None => true,
        },
    decreases n,
{
    if n == 0 {
        assert(b.subrange(pos, pos) =~= senc_row_items(Seq::<RowV>::empty()));
    } else {
        lemma_sdec_row_sound(b, pos);
        match sdec_row(b, pos) {
            Some((r, p1)) => {
                lemma_sdec_row_items_sound(b, p1, (n - 1) as nat);
                match sdec_row_items(b, p1, (n - 1) as nat) {
                    Some((rs2, p2)) => {
                        let rs = seq![r] + rs2;
                        assert(rs[0] == r);
                        assert(rs.skip(1) =~= rs2);
                        assert(senc_row_items(rs) == senc_row(r) + senc_row_items(rs2));
                        lemma_subrange_join(b, pos, p1, p2);
                    },
                    None => {},
                }
            },
            None => {},
        }
    }
}

/// The format is canonical: whatever decodes as a row set is well formed and
/// re-encodes to exactly the bytes decoded, so no two values share an image.
pub proof fn lemma_sdec_rows_sound(b: Seq<u8>)
    ensures
        match sdec_rows(b) {
            Some(rs) => rows_wf(rs) && senc_rows(rs) == b,
            None => true,
        },
{
    lemma_sdec_u64_sound(b, 0);
    match sdec_u64(b, 0) {
        Some((n, p0)) => {
            lemma_sdec_row_items_sound(b, p0, n as nat);
            match sdec_row_items(b, p0, n as nat) {
                Some((rs, p)) => {
                    if p == b.len() {
                        assert(rs.len() as u64 == n);
                        lemma_subrange_join(b, 0, p0, p);
                        assert(b.subrange(0, b.len() as int) =~= b);
                    }
                },
                None => {},
            }
        },
        None => {},
    }
}

} // verus!
