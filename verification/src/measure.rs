use vstd::prelude::*;

verus! {

/// `b` raised to the power `k` (one for `k` below one).
pub open spec fn place(b: int, k: int) -> int
    decreases k,
{
    if k <= 0 {
        1
    } else {
        b * place(b, k - 1)
    }
}

/// A power of a positive base is positive.
pub proof fn lemma_place_positive(b: int, k: int)
    requires
        b >= 1,
    ensures
        place(b, k) >= 1,
    decreases k,
{
    if k > 0 {
        lemma_place_positive(b, k - 1);
        assert(b * place(b, k - 1) >= 1) by (nonlinear_arith)
            requires
                b >= 1,
                place(b, k - 1) >= 1,
        ;
    }
}

/// The number of values in layer `l`, where `ends[l]` is the offset at
/// which layer `l` ends.
pub open spec fn size_at(ends: Seq<int>, l: int) -> int {
    ends[l] - if l <= 0 {
        0
    } else {
        ends[l - 1]
    }
}

/// The sizes of the first `l` layers read as the leading digits of a number
/// in base `n + 2` with `n + 1` digits.
pub open spec fn weight_to(ends: Seq<int>, n: int, l: int) -> int
    decreases l,
{
    if l <= 0 {
        0
    } else {
        weight_to(ends, n, l - 1) + size_at(ends, l - 1) * place(n + 2, n - (l - 1))
    }
}

/// Layers that end at the same offsets weigh the same.
pub proof fn lemma_weight_same(e1: Seq<int>, e2: Seq<int>, n: int, l: int)
    requires
        forall|i: int| 0 <= i < l ==> e1[i] == e2[i],
    ensures
        weight_to(e1, n, l) == weight_to(e2, n, l),
    decreases l,
{
    if l > 0 {
        lemma_weight_same(e1, e2, n, l - 1);
    }
}

/// The digits after position `t`, up to position `d`, together with two
/// units of the last place, stay below one unit of place `t`.
pub proof fn lemma_tail(ends: Seq<int>, n: int, t: int, d: int)
    requires
        -1 <= t < d <= n,
        forall|l: int| 0 <= l <= d ==> 0 <= #[trigger] size_at(ends, l) <= n,
    ensures
        weight_to(ends, n, d + 1) - weight_to(ends, n, t + 1) + 2 * place(n + 2, n - d) <= place(
            n + 2,
            n - t,
        ),
    decreases d - t,
{
    let p = place(n + 2, n - d);
    let s = size_at(ends, d);
    lemma_place_positive(n + 2, n - d);
    assert(place(n + 2, n - d + 1) == (n + 2) * p);
    assert(s * p + 2 * p <= (n + 2) * p) by (nonlinear_arith)
        requires
            0 <= s <= n,
            p >= 1,
    ;
    if d == t + 1 {
    } else {
        lemma_tail(ends, n, t, d - 1);
    }
}

} // verus!
