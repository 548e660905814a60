//! A stable ordering of items by a key, largest first.
use vstd::prelude::*;

verus! {

/// `idx` lists every position of `keys` once, largest key first, equal keys
/// in their original order.
pub open spec fn sorted_desc_order(keys: Seq<u64>, idx: Seq<int>) -> bool {
    &&& idx.len() == keys.len()
    &&& idx.no_duplicates()
    &&& forall|k: int| 0 <= k < idx.len() ==> 0 <= #[trigger] idx[k] < keys.len()
    &&& forall|a: int, b: int| 0 <= a < b < idx.len() ==> keys[idx[a]] >= keys[idx[b]]
    &&& forall|a: int, b: int| 0 <= a < b < idx.len() && keys[idx[a]] == keys[idx[b]] ==> idx[a] < idx[b]
}

/// The positions of `keys` ordered by key, largest first; ties keep their
/// order.
pub fn order_desc(keys: &[u64]) -> (out: Vec<usize>)
    ensures
        sorted_desc_order(keys@, Seq::new(out@.len(), |k: int| out@[k] as int)),
{
    let n = keys.len();
    let mut out: Vec<usize> = Vec::new();
    let mut i: usize = 0;
    while i < n
        invariant
            n == keys@.len(),
            i <= n,
            out@.len() == i,
            forall|k: int| 0 <= k < out@.len() ==> #[trigger] out@[k] < i,
            forall|a: int, b: int| 0 <= a < out@.len() && 0 <= b < out@.len() && a != b ==> out@[a] != out@[b],
            forall|a: int, b: int| 0 <= a < b < out@.len() ==> keys@[out@[a] as int] >= keys@[out@[b] as int],
            forall|a: int, b: int|
                0 <= a < b < out@.len() && keys@[out@[a] as int] == keys@[out@[b] as int] ==> out@[a] < out@[b],
        decreases n - i,
    {
        let ki = keys[i];
        let mut p: usize = 0;
        while p < out.len() && !(ki > keys[out[p]])
            invariant
                p <= out@.len(),
                out@.len() == i,
                i < n,
                n == keys@.len(),
                ki == keys@[i as int],
                forall|k: int| 0 <= k < out@.len() ==> #[trigger] out@[k] < i,
                forall|k: int| 0 <= k < p ==> keys@[out@[k] as int] >= ki,
            decreases out@.len() - p,
        {
            p += 1;
        }
        let ghost o0 = out@;
        out.insert(p, i);
        proof {
            assert forall|k: int| 0 <= k < out@.len() implies #[trigger] out@[k] < i + 1 by {
                if k < p {
                    assert(out@[k] == o0[k]);
                } else if k > p {
                    assert(out@[k] == o0[k - 1]);
                }
            }
            assert forall|a: int, b: int| 0 <= a < out@.len() && 0 <= b < out@.len() && a != b implies out@[a]
                != out@[b] by {
                let ia = if a < p { a } else if a > p { a - 1 } else { -1 };
                let ib = if b < p { b } else if b > p { b - 1 } else { -1 };
                if a != p as int && b != p as int {
                    assert(out@[a] == o0[ia] && out@[b] == o0[ib]);
                } else if a == p as int {
                    assert(out@[b] == o0[ib]);
                    assert(o0[ib] < i);
                } else {
                    assert(out@[a] == o0[ia]);
                    assert(o0[ia] < i);
                }
            }
            assert forall|a: int, b: int| 0 <= a < b < out@.len() implies keys@[out@[a] as int]
                >= keys@[out@[b] as int] by {
                if a < p && b < p {
                    assert(out@[a] == o0[a] && out@[b] == o0[b]);
                } else if a < p && b == p {
                    assert(out@[a] == o0[a]);
                } else if a < p && b > p {
                    assert(out@[a] == o0[a] && out@[b] == o0[b - 1]);
                    if p < o0.len() {
                        assert(ki > keys@[o0[p as int] as int]);
                        if b - 1 > p {
                            assert(keys@[o0[p as int] as int] >= keys@[o0[b - 1] as int]);
                        }
                    }
                } else if a == p {
                    assert(out@[b] == o0[b - 1]);
                    assert(ki > keys@[o0[p as int] as int]);
                    if b - 1 > p {
                        assert(keys@[o0[p as int] as int] >= keys@[o0[b - 1] as int]);
                    }
                } else {
                    assert(out@[a] == o0[a - 1] && out@[b] == o0[b - 1]);
                }
            }
            assert forall|a: int, b: int|
                0 <= a < b < out@.len() && keys@[out@[a] as int] == keys@[out@[b] as int] implies out@[a]
                < out@[b] by {
                if a < p && b < p {
                    assert(out@[a] == o0[a] && out@[b] == o0[b]);
                } else if a < p && b == p {
                    assert(out@[a] == o0[a]);
                    assert(o0[a] < i);
                } else if a < p && b > p {
                    assert(out@[a] == o0[a] && out@[b] == o0[b - 1]);
                    assert(ki > keys@[o0[p as int] as int]);
                    if b - 1 > p {
                        assert(keys@[o0[p as int] as int] >= keys@[o0[b - 1] as int]);
                    }
                    assert(keys@[o0[a] as int] >= ki);
                } else if a == p {
                    assert(out@[b] == o0[b - 1]);
                    assert(ki > keys@[o0[p as int] as int]);
                    if b - 1 > p {
                        assert(keys@[o0[p as int] as int] >= keys@[o0[b - 1] as int]);
                    }
                } else {
                    assert(out@[a] == o0[a - 1] && out@[b] == o0[b - 1]);
                }
            }
        }
        i += 1;
    }
    proof {
        let idx = Seq::new(out@.len(), |k: int| out@[k] as int);
        assert forall|a: int, b: int| 0 <= a < idx.len() && 0 <= b < idx.len() && a != b implies idx[a] != idx[b] by {}
    }
    out
}

} // verus!
