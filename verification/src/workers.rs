//! Worker-registry maintenance: a heartbeat replaces the record of its
//! (hostname, workdir) slot and appends itself, leaving every other slot's
//! record in place.

use vstd::prelude::*;
use crate::records::Worker;

verus! {

/// Two records describe the same worker slot.
pub open spec fn same_slot(a: Worker, b: Worker) -> bool {
    a.hostname@ == b.hostname@ && a.workdir@ == b.workdir@
}

/// The records of `ws` that belong to a different slot than `n`, in order.
pub open spec fn spec_keep_others(ws: Seq<Worker>, n: Worker) -> Seq<Worker> {
    ws.filter(|w: Worker| !same_slot(w, n))
}

/// The registry after a heartbeat `n`: every record of another slot, in
/// order, then `n`.
pub open spec fn spec_registry_update(ws: Seq<Worker>, n: Worker) -> Seq<Worker> {
    spec_keep_others(ws, n).push(n)
}

/// Filtering one more record keeps it exactly when its slot differs.
proof fn lemma_keep_others_push(ws: Seq<Worker>, x: Worker, n: Worker)
    ensures
        spec_keep_others(ws.push(x), n) == if !same_slot(x, n) {
            spec_keep_others(ws, n).push(x)
        } else {
            spec_keep_others(ws, n)
        },
{
    reveal_with_fuel(Seq::<Worker>::filter, 2);
    assert(ws.push(x).drop_last() =~= ws);
    assert(ws.push(x).last() == x);
}

fn slot_differs(w: &Worker, n: &Worker) -> (r: bool)
    ensures
        r == !same_slot(*w, *n),
{
    !(crate::bytes::eq_bytes(w.hostname.as_slice(), n.hostname.as_slice())
        && crate::bytes::eq_bytes(w.workdir.as_slice(), n.workdir.as_slice()))
}

/// Apply one heartbeat to the registry.
pub fn workers_update_list(ws: Vec<Worker>, n: Worker) -> (out: Vec<Worker>)
    ensures
        out@ == spec_registry_update(ws@, n),
{
    let ghost orig = ws@;
    let mut rest = ws;
    let mut out: Vec<Worker> = Vec::new();
    let mut i: usize = 0;
    let len = rest.len();
    proof {
        assert(rest@ =~= orig.skip(0));
        assert(orig.take(0) =~= Seq::<Worker>::empty());
        assert(spec_keep_others(Seq::<Worker>::empty(), n) =~= Seq::<Worker>::empty()) by {
            reveal_with_fuel(Seq::<Worker>::filter, 2);
        }
        assert(out@ =~= Seq::<Worker>::empty());
    }
    while i < len
        invariant
            len == orig.len(),
            rest@ == orig.skip(i as int),
            i <= len,
            out@ == spec_keep_others(orig.take(i as int), n),
        decreases len - i,
    {
        let w = rest.remove(0);
        let ghost wv = w;
        proof {
            assert(orig.skip(i as int)[0] == orig[i as int]);
            assert(wv == orig[i as int]);
            assert(rest@ =~= orig.skip(i + 1));
        }
        let keep = slot_differs(&w, &n);
        let ghost pre = out@;
        if keep {
            out.push(w);
        }
        proof {
            assert(orig.take(i + 1) =~= orig.take(i as int).push(orig[i as int]));
            lemma_keep_others_push(orig.take(i as int), orig[i as int], n);
            if keep {
                assert(out@ =~= pre.push(wv));
            }
        }
        i += 1;
    }
    proof {
        assert(orig.take(orig.len() as int) =~= orig);
    }
    out.push(n);
    out
}

} // verus!
