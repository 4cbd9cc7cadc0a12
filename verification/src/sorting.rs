//! What a stable sort promises, and the step of an insertion sort that
//! keeps it.

use vstd::prelude::*;

verus! {

/// `out` is `inp` rearranged by `p`: position `k` of `out` holds what
/// position `p[k]` of `inp` held, and no position of `inp` is used twice.
pub open spec fn rearranges<T>(out: Seq<T>, inp: Seq<T>, p: Seq<int>) -> bool {
    &&& p.len() == out.len()
    &&& inp.len() == out.len()
    &&& forall|k: int| 0 <= k < p.len() ==> 0 <= #[trigger] p[k] < inp.len() && out[k] == inp[p[k]]
    &&& forall|a: int, b: int| 0 <= a < b < p.len() ==> #[trigger] p[a] != #[trigger] p[b]
}

/// Of two entries that `tie`, the one that came first in the input comes
/// first in the output.
pub open spec fn keeps_ties<T>(out: Seq<T>, p: Seq<int>, tie: spec_fn(T, T) -> bool) -> bool {
    forall|a: int, b: int| 0 <= a < b < out.len() && tie(#[trigger] out[a], #[trigger] out[b]) ==> p[a] < p[b]
}

/// `out` is a rearrangement of `inp` that keeps tied entries in their input
/// order: what a stable sort gives.
pub open spec fn stable_rearrangement<T>(out: Seq<T>, inp: Seq<T>, tie: spec_fn(T, T) -> bool) -> bool {
    exists|p: Seq<int>| rearranges(out, inp, p) && keeps_ties(out, p, tie)
}

/// The identity rearrangement.
pub open spec fn identity(n: nat) -> Seq<int> {
    Seq::new(n, |k: int| k)
}

/// The state of an insertion sort before its `i`-th step: the prefix
/// before `i` is a stable rearrangement of the input's, the rest untouched.
pub open spec fn sorted_prefix<T>(s: Seq<T>, inp: Seq<T>, p: Seq<int>, i: int, tie: spec_fn(T, T) -> bool) -> bool {
    &&& rearranges(s, inp, p)
    &&& forall|k: int| i <= k < p.len() ==> #[trigger] p[k] == k
    &&& forall|a: int, b: int| 0 <= a < b < i && tie(#[trigger] s[a], #[trigger] s[b]) ==> p[a] < p[b]
}

/// Nothing sorted yet: the identity.
pub proof fn lemma_sorted_prefix_start<T>(inp: Seq<T>, tie: spec_fn(T, T) -> bool)
    ensures
        sorted_prefix(inp, inp, identity(inp.len()), 1, tie),
        sorted_prefix(inp, inp, identity(inp.len()), 0, tie),
{
}

/// Everything sorted: a stable rearrangement.
pub proof fn lemma_sorted_prefix_done<T>(s: Seq<T>, inp: Seq<T>, p: Seq<int>, tie: spec_fn(T, T) -> bool)
    requires
        sorted_prefix(s, inp, p, s.len() as int, tie),
    ensures
        stable_rearrangement(s, inp, tie),
{
    assert(rearranges(s, inp, p) && keeps_ties(s, p, tie));
}

/// Moving entry `i` back to position `j`, past entries it does not tie
/// with, sorts one more entry.
pub proof fn lemma_sorted_prefix_step<T>(s: Seq<T>, inp: Seq<T>, p: Seq<int>, i: int, j: int, tie: spec_fn(T, T) -> bool)
    requires
        sorted_prefix(s, inp, p, i, tie),
        0 <= j <= i < s.len(),
        forall|k: int| j <= k < i ==> !tie(s[i], #[trigger] s[k]),
    ensures
        sorted_prefix(s.remove(i).insert(j, s[i]), inp, p.remove(i).insert(j, i), i + 1, tie),
{
    let x = s[i];
    let t = s.remove(i).insert(j, x);
    let q = p.remove(i).insert(j, i);
    let n = s.len();
    // Where each new position came from.
    assert forall|k: int| 0 <= k < n implies #[trigger] t[k] == s[if k < j { k } else if k == j { i } else if k <= i { k - 1 } else { k }]
        && q[k] == p[if k < j { k } else if k == j { i } else if k <= i { k - 1 } else { k }] by {
    }
    // The sorted prefix holds only input positions before `i`.
    assert forall|a: int| 0 <= a < i implies #[trigger] p[a] < i by {
        if p[a] >= i {
            let k = p[a];
            assert(k < n);
            assert(p[k] == k);
            if a < k {
                assert(p[a] != p[k]);
            }
        }
    }
    assert forall|a: int, b: int| 0 <= a < b < n implies #[trigger] q[a] != #[trigger] q[b] by {
        let fa = if a < j { a } else if a == j { i } else if a <= i { a - 1 } else { a };
        let fb = if b < j { b } else if b == j { i } else if b <= i { b - 1 } else { b };
        assert(fa != fb);
        if fa < fb {
            assert(p[fa] != p[fb]);
        } else {
            assert(p[fb] != p[fa]);
        }
    }
    assert forall|k: int| 0 <= k < q.len() implies 0 <= #[trigger] q[k] < inp.len() && t[k] == inp[q[k]] by {
        let f = if k < j { k } else if k == j { i } else if k <= i { k - 1 } else { k };
        assert(t[k] == s[f] && q[k] == p[f]);
    }
    assert forall|a: int, b: int| 0 <= a < b < i + 1 && tie(#[trigger] t[a], #[trigger] t[b]) implies q[a] < q[b] by {
        let fa = if a < j { a } else if a == j { i } else { a - 1 };
        let fb = if b < j { b } else if b == j { i } else { b - 1 };
        assert(t[a] == s[fa] && q[a] == p[fa]);
        assert(t[b] == s[fb] && q[b] == p[fb]);
        if a == j {
            assert(fb < i && j <= fb);
            assert(!tie(x, s[fb]));
        } else if b == j {
            assert(p[fa] < i);
        } else {
            assert(fa < fb);
        }
    }
    assert forall|k: int| i + 1 <= k < q.len() implies #[trigger] q[k] == k by {
        assert(q[k] == p[k]);
    }
}

} // verus!
