//! Fully qualified subtest names: test-file name with its extension removed,
//! a dot, and the subtest path, with every slash turned into a dot.

use vstd::prelude::*;
use crate::bytes::is_match_at;

verus! {

/// The extension stripped from test file names.
pub open spec fn ktest_suffix() -> Seq<u8> {
    seq![46u8, 107u8, 116u8, 101u8, 115u8, 116u8]
}

/// Remove every occurrence of `p` from `s`, scanning left to right without
/// overlap.
pub open spec fn remove_pat(s: Seq<u8>, p: Seq<u8>) -> Seq<u8>
    decreases s.len(),
{
    if p.len() == 0 || s.len() == 0 {
        s
    } else if is_match_at(s, p, 0) {
        remove_pat(s.skip(p.len() as int), p)
    } else {
        seq![s[0]] + remove_pat(s.skip(1), p)
    }
}

pub open spec fn dot_of_slash(c: u8) -> u8 {
    if c == 47 {
        46
    } else {
        c
    }
}

pub open spec fn slashes_to_dots(s: Seq<u8>) -> Seq<u8> {
    s.map_values(|c: u8| dot_of_slash(c))
}

/// The fully qualified name of `subtest` within test file `test`.
pub open spec fn spec_subtest_full_name(test: Seq<u8>, subtest: Seq<u8>) -> Seq<u8> {
    slashes_to_dots(remove_pat(test, ktest_suffix()) + seq![46u8] + subtest)
}

fn ktest_suffix_vec() -> (v: Vec<u8>)
    ensures
        v@ == ktest_suffix(),
{
    let mut v: Vec<u8> = Vec::new();
    v.push(46);
    v.push(107);
    v.push(116);
    v.push(101);
    v.push(115);
    v.push(116);
    assert(v@ =~= ktest_suffix());
    v
}

/// Map one byte, turning a slash into a dot.
fn exec_dot_of_slash(c: u8) -> (r: u8)
    ensures
        r == dot_of_slash(c),
{
    if c == 47 {
        46
    } else {
        c
    }
}

/// Build the fully qualified subtest name.
pub fn subtest_full_name(test: &[u8], subtest: &[u8]) -> (r: Vec<u8>)
    ensures
        r@ == spec_subtest_full_name(test@, subtest@),
{
    let pat = ktest_suffix_vec();
    let ghost p = ktest_suffix();
    let mut out: Vec<u8> = Vec::new();
    let tlen = test.len();
    let mut i: usize = 0;
    proof {
        assert(test@.skip(0) =~= test@);
        assert(out@ + slashes_to_dots(remove_pat(test@, p)) =~= slashes_to_dots(
            remove_pat(test@, p),
        ));
    }
    while i < tlen
        invariant
            p == ktest_suffix(),
            pat@ == p,
            tlen == test@.len(),
            i <= tlen,
            slashes_to_dots(remove_pat(test@, p)) == out@ + slashes_to_dots(
                remove_pat(test@.skip(i as int), p),
            ),
        decreases tlen - i,
    {
        let ghost rest = test@.skip(i as int);
        if tlen - i >= pat.len() && crate::bytes::match_at(test, pat.as_slice(), i) {
            proof {
                assert(is_match_at(rest, p, 0)) by {
                    assert(rest.subrange(0, p.len() as int) =~= test@.subrange(
                        i as int,
                        i + p.len(),
                    ));
                }
                assert(remove_pat(rest, p) == remove_pat(rest.skip(p.len() as int), p));
                assert(test@.skip(i + p.len() as int) =~= rest.skip(p.len() as int));
            }
            i += pat.len();
        } else {
            proof {
                if rest.len() >= p.len() {
                    assert(!is_match_at(test@, p, i as int));
                    assert(!is_match_at(rest, p, 0)) by {
                        if is_match_at(rest, p, 0) {
                            assert(test@.subrange(i as int, i + p.len()) =~= rest.subrange(
                                0,
                                p.len() as int,
                            ));
                        }
                    }
                } else {
                    assert(!is_match_at(rest, p, 0));
                }
                assert(remove_pat(rest, p) == seq![rest[0]] + remove_pat(rest.skip(1), p));
            }
            let ghost pre = out@;
            out.push(exec_dot_of_slash(test[i]));
            proof {
                assert(rest[0] == test@[i as int]);
                assert(test@.skip(i + 1) =~= rest.skip(1));
                assert(slashes_to_dots(seq![rest[0]] + remove_pat(rest.skip(1), p)) =~= seq![
                    dot_of_slash(rest[0]),
                ] + slashes_to_dots(remove_pat(rest.skip(1), p)));
                assert(pre + (seq![dot_of_slash(rest[0])] + slashes_to_dots(
                    remove_pat(rest.skip(1), p),
                )) =~= out@ + slashes_to_dots(remove_pat(rest.skip(1), p)));
            }
            i += 1;
        }
    }
    proof {
        assert(test@.skip(tlen as int) =~= Seq::<u8>::empty());
        assert(remove_pat(Seq::<u8>::empty(), p) == Seq::<u8>::empty());
        assert(slashes_to_dots(Seq::<u8>::empty()) =~= Seq::<u8>::empty());
        assert(out@ =~= slashes_to_dots(remove_pat(test@, p)));
    }
    let ghost removed = slashes_to_dots(remove_pat(test@, p));
    out.push(46);
    proof {
        assert(out@ =~= removed + slashes_to_dots(seq![46u8])) by {
            assert(slashes_to_dots(seq![46u8]) =~= seq![46u8]);
        }
    }
    let slen = subtest.len();
    let mut j: usize = 0;
    while j < slen
        invariant
            slen == subtest@.len(),
            j <= slen,
            removed == slashes_to_dots(remove_pat(test@, ktest_suffix())),
            out@ == removed + slashes_to_dots(seq![46u8]) + slashes_to_dots(
                subtest@.take(j as int),
            ),
        decreases slen - j,
    {
        out.push(exec_dot_of_slash(subtest[j]));
        proof {
            assert(slashes_to_dots(subtest@.take(j + 1)) =~= slashes_to_dots(
                subtest@.take(j as int),
            ).push(dot_of_slash(subtest@[j as int])));
            assert(out@ =~= removed + slashes_to_dots(seq![46u8]) + slashes_to_dots(
                subtest@.take(j + 1),
            ));
        }
        j += 1;
    }
    proof {
        assert(subtest@.take(slen as int) =~= subtest@);
        assert(spec_subtest_full_name(test@, subtest@) =~= removed + slashes_to_dots(seq![46u8])
            + slashes_to_dots(subtest@)) by {
            assert(slashes_to_dots(
                remove_pat(test@, ktest_suffix()) + seq![46u8] + subtest@,
            ) =~= slashes_to_dots(remove_pat(test@, ktest_suffix())) + slashes_to_dots(seq![46u8])
                + slashes_to_dots(subtest@));
        }
    }
    out
}

} // verus!
