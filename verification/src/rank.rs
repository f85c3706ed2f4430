use vstd::multiset::Multiset;
use vstd::prelude::*;

verus! {

broadcast use vstd::seq_lib::group_to_multiset_ensures;

/// Pairs of a ranking key and a position into some other sequence.
pub type KeyPair = (i64, usize);

/// Keys never increase along the sequence.
pub open spec fn sorted_desc(s: Seq<KeyPair>) -> bool {
    forall|a: int, b: int| 0 <= a < b < s.len() ==> (#[trigger] s[a]).0 >= (#[trigger] s[b]).0
}

/// Keys never decrease along the sequence.
pub open spec fn sorted_asc(s: Seq<KeyPair>) -> bool {
    forall|a: int, b: int| 0 <= a < b < s.len() ==> (#[trigger] s[a]).0 <= (#[trigger] s[b]).0
}

/// The key order used by `sort_pairs`: ascending or descending.
pub open spec fn key_le(asc: bool, x: i64, y: i64) -> bool {
    if asc {
        x <= y
    } else {
        x >= y
    }
}

/// Rearranges the pairs by key — ascending when `asc` holds, else
/// descending. The result is a permutation of the input; the relative order
/// of equal keys is left open.
pub fn sort_pairs(v: Vec<KeyPair>, asc: bool) -> (r: Vec<KeyPair>)
    ensures
        r@.to_multiset() == v@.to_multiset(),
        r@.len() == v@.len(),
        asc ==> sorted_asc(r@),
        !asc ==> sorted_desc(r@),
{
    let mut rest = v;
    let mut out: Vec<KeyPair> = Vec::new();
    proof {
        assert(out@.to_multiset().add(rest@.to_multiset()) =~= v@.to_multiset());
    }
    while rest.len() > 0
        invariant
            out@.to_multiset().add(rest@.to_multiset()) == v@.to_multiset(),
            out@.len() + rest@.len() == v@.len(),
            forall|a: int, b: int|
                0 <= a < out@.len() && 0 <= b < rest@.len() ==> key_le(
                    asc,
                    (#[trigger] out@[a]).0,
                    (#[trigger] rest@[b]).0,
                ),
            forall|a: int, b: int|
                0 <= a < b < out@.len() ==> key_le(asc, (#[trigger] out@[a]).0, (
                #[trigger] out@[b]).0),
        decreases rest@.len(),
    {
        let n = rest.len();
        let mut m: usize = 0;
        let mut j: usize = 1;
        while j < n
            invariant
                n == rest@.len(),
                0 <= m < n,
                1 <= j <= n,
                forall|k: int| 0 <= k < j ==> key_le(asc, rest@[m as int].0, (#[trigger] rest@[k]).0),
            decreases n - j,
        {
            let better = if asc {
                rest[j].0 < rest[m].0
            } else {
                rest[j].0 > rest[m].0
            };
            if better {
                m = j;
            }
            j = j + 1;
        }
        let ghost rest0 = rest@;
        let ghost out0 = out@;
        let x = rest.remove(m);
        out.push(x);
        proof {
            assert(rest@ == rest0.remove(m as int));
            assert(rest@.to_multiset() == rest0.to_multiset().remove(x));
            assert(out@.to_multiset() == out0.to_multiset().insert(x));
            assert(rest0.to_multiset().count(x) > 0) by {
                assert(rest0.contains(x));
            }
            assert(out@.to_multiset().add(rest@.to_multiset()) =~= v@.to_multiset());
            assert forall|a: int, b: int|
                0 <= a < out@.len() && 0 <= b < rest@.len() implies key_le(
                asc,
                (#[trigger] out@[a]).0,
                (#[trigger] rest@[b]).0,
            ) by {
                assert(rest@[b] == if b < m as int {
                    rest0[b]
                } else {
                    rest0[b + 1]
                });
                if a < out0.len() {
                    assert(out@[a] == out0[a]);
                } else {
                    assert(out@[a] == x);
                }
            }
            assert forall|a: int, b: int| 0 <= a < b < out@.len() implies key_le(
                asc,
                (#[trigger] out@[a]).0,
                (#[trigger] out@[b]).0,
            ) by {
                if b == out0.len() {
                    assert(key_le(asc, out0[a].0, rest0[m as int].0));
                }
            }
        }
    }
    proof {
        assert(rest@.to_multiset() =~= Multiset::<KeyPair>::empty());
        assert(out@.to_multiset() =~= v@.to_multiset());
    }
    out
}

/// The smaller of a limit and an available count.
pub fn take_count(limit: usize, available: usize) -> (r: usize)
    ensures
        r == if limit < available {
            limit as int
        } else {
            available as int
        },
{
    if limit < available {
        limit
    } else {
        available
    }
}

} // verus!
