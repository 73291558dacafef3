//! Multi-layer delta transform of one variable's values within a message.
//!
//! Three layers are used: each residual is the third difference of the
//! values where three earlier values exist, else the highest difference
//! available (the value itself for the first sample of a message).
use vstd::prelude::*;

verus! {

/// The difference of `a` and `b`: wrapping subtraction, or XOR.
pub open spec fn combine(a: i32, b: i32, xor: bool) -> i32 {
    if xor {
        a ^ b
    } else {
        a.wrapping_sub(b)
    }
}

/// Adds the difference `d` back onto `b`: wrapping addition, or XOR.
pub open spec fn accumulate(b: i32, d: i32, xor: bool) -> i32 {
    if xor {
        b ^ d
    } else {
        b.wrapping_add(d)
    }
}

/// Layer `k` of the delta stack of `xs` at index `j`: the values themselves
/// for `k == 0`, else the difference of layer `k - 1` at `j` and at `j - 1`.
pub open spec fn layer(xs: Seq<i32>, k: nat, j: int, xor: bool) -> i32
    decreases k,
{
    if k == 0 {
        xs[j]
    } else {
        combine(layer(xs, (k - 1) as nat, j, xor), layer(xs, (k - 1) as nat, j - 1, xor), xor)
    }
}

/// The residual written for index `j` of `xs`: the value itself at index 0,
/// else the highest delta layer available there (at most three).
pub open spec fn residual(xs: Seq<i32>, j: int, xor: bool) -> i32 {
    if j == 0 {
        xs[0]
    } else if j < 3 {
        layer(xs, j as nat, j, xor)
    } else {
        layer(xs, 3, j, xor)
    }
}

/// The residuals of all of `xs`.
pub open spec fn residuals(xs: Seq<i32>, xor: bool) -> Seq<i32> {
    Seq::new(xs.len(), |j: int| residual(xs, j, xor))
}

/// Taking a difference and adding it back gives the value.
pub proof fn lemma_accumulate_combine(a: i32, b: i32, xor: bool)
    ensures
        accumulate(b, combine(a, b, xor), xor) == a,
        combine(accumulate(b, a, xor), b, xor) == a,
{
    assert(((b ^ (a ^ b)) == a) && (((b ^ a) ^ b) == a)) by (bit_vector);
}

/// The difference of `a` and `b`: wrapping subtraction, or XOR.
pub fn combine_exec(a: i32, b: i32, xor: bool) -> (r: i32)
    ensures
        r == combine(a, b, xor),
{
    if xor {
        a ^ b
    } else {
        a.wrapping_sub(b)
    }
}

/// Adds the difference `d` back onto `b`: wrapping addition, or XOR.
pub fn accumulate_exec(b: i32, d: i32, xor: bool) -> (r: i32)
    ensures
        r == accumulate(b, d, xor),
{
    if xor {
        b ^ d
    } else {
        b.wrapping_add(d)
    }
}

/// Whether the delta state `prev` of variable `i` (among `m`) holds the
/// layers of `xs` at its last index: layer `k` at `prev[k * m + i]`, for
/// each layer that exists there.
pub open spec fn holds_layers(prev: Seq<i32>, m: int, i: int, xs: Seq<i32>, xor: bool) -> bool {
    let e = xs.len() - 1;
    xs.len() >= 1 ==> {
        &&& prev[i] == layer(xs, 0, e, xor)
        &&& e >= 1 ==> prev[m + i] == layer(xs, 1, e, xor)
        &&& e >= 2 ==> prev[2 * m + i] == layer(xs, 2, e, xor)
    }
}

/// A layer at an index it reaches back from does not change when values are
/// appended.
pub proof fn lemma_layer_prefix(xs: Seq<i32>, v: i32, k: nat, j: int, xor: bool)
    requires
        k <= j < xs.len(),
    ensures
        layer(xs.push(v), k, j, xor) == layer(xs, k, j, xor),
    decreases k,
{
    if k > 0 {
        lemma_layer_prefix(xs, v, (k - 1) as nat, j, xor);
        lemma_layer_prefix(xs, v, (k - 1) as nat, j - 1, xor);
    }
}

/// The residual at an index does not change when values are appended.
pub proof fn lemma_residual_prefix(xs: Seq<i32>, v: i32, j: int, xor: bool)
    requires
        0 <= j < xs.len(),
    ensures
        residual(xs.push(v), j, xor) == residual(xs, j, xor),
{
    if j >= 3 {
        lemma_layer_prefix(xs, v, 3, j, xor);
    } else if j > 0 {
        lemma_layer_prefix(xs, v, j as nat, j, xor);
    }
}

/// Takes the next value `val` of variable `i` (among `m`): returns its
/// residual and moves the delta state `prev` on to it. `xs` are the values
/// of the variable so far, `val` the last of them.
pub fn delta_step(
    prev: &mut Vec<i32>,
    m: usize,
    i: usize,
    j: usize,
    val: i32,
    xor: bool,
    Ghost(xs): Ghost<Seq<i32>>,
) -> (r: i32)
    requires
        i < m,
        old(prev)@.len() == 3 * m,
        xs.len() == j + 1,
        xs.last() == val,
        holds_layers(old(prev)@, m as int, i as int, xs.drop_last(), xor),
    ensures
        r == residual(xs, xs.len() - 1, xor),
        final(prev)@.len() == 3 * m,
        holds_layers(final(prev)@, m as int, i as int, xs, xor),
        forall|k: int|
            0 <= k < 3 * m && k != i && k != m + i && k != 2 * m + i ==> final(prev)@[k]
                == old(prev)@[k],
{
    let ghost init = xs.drop_last();
    let ghost before = prev@;
    let _len = prev.len();
    proof {
        assert(init.push(val) =~= xs);
        if j > 0 {
            lemma_layer_prefix(init, val, 0, j - 1, xor);
            if j > 1 {
                lemma_layer_prefix(init, val, 1, j - 1, xor);
            }
            if j > 2 {
                lemma_layer_prefix(init, val, 2, j - 1, xor);
            }
        }
    }
    if j == 0 {
        prev.set(i, val);
        return val;
    }
    let d0 = combine_exec(val, prev[i], xor);
    assert(layer(xs, 0, j as int, xor) == val);
    assert(layer(xs, 0, j - 1, xor) == before[i as int]);
    assert(d0 == layer(xs, 1, j as int, xor));
    prev.set(i, val);
    if j == 1 {
        prev.set(m + i, d0);
        return d0;
    }
    let d1 = combine_exec(d0, prev[m + i], xor);
    assert(layer(xs, 1, j - 1, xor) == before[m + i]);
    assert(d1 == layer(xs, 2, j as int, xor));
    prev.set(m + i, d0);
    if j == 2 {
        prev.set(2 * m + i, d1);
        return d1;
    }
    assert(2 * m + i < 3 * m);
    let d2 = combine_exec(d1, prev[2 * m + i], xor);
    assert(layer(xs, 2, j - 1, xor) == before[2 * m + i]);
    assert(d2 == layer(xs, 3, j as int, xor));
    prev.set(2 * m + i, d1);
    d2
}

proof fn lemma_accumulate_zero(d: i32, xor: bool)
    ensures
        accumulate(0, d, xor) == d,
{
    assert(0i32 ^ d == d) by (bit_vector);
}

/// Rebuilds the values whose residuals are `rs`.
pub fn undelta(rs: &[i32], xor: bool) -> (xs: Vec<i32>)
    ensures
        residuals(xs@, xor) == rs@,
{
    let mut xs: Vec<i32> = Vec::new();
    let mut d0: i32 = 0;
    let mut d1: i32 = 0;
    let mut j: usize = 0;
    while j < rs.len()
        invariant
            j <= rs@.len(),
            xs@.len() == j,
            forall|k: int| 0 <= k < j ==> #[trigger] residual(xs@, k, xor) == rs@[k],
            j >= 2 ==> d0 == layer(xs@, 1, j - 1, xor),
            j >= 3 ==> d1 == layer(xs@, 2, j - 1, xor),
            j <= 1 ==> d0 == 0,
            j <= 2 ==> d1 == 0,
        decreases rs@.len() - j,
    {
        let r = rs[j];
        let ghost old_xs = xs@;
        let v: i32;
        if j == 0 {
            v = r;
        } else {
            proof {
                lemma_accumulate_zero(r, xor);
            }
            if j == 1 {
                d0 = accumulate_exec(d0, r, xor);
            } else {
                d1 = accumulate_exec(d1, r, xor);
                d0 = accumulate_exec(d0, d1, xor);
            }
            v = accumulate_exec(xs[j - 1], d0, xor);
        }
        xs.push(v);
        proof {
            assert(xs@ == old_xs.push(v));
            assert forall|k: int| 0 <= k < j implies #[trigger] residual(xs@, k, xor) == rs@[k] by {
                lemma_residual_prefix(old_xs, v, k, xor);
            }
            if j >= 1 {
                lemma_layer_prefix(old_xs, v, 0, j - 1, xor);
                lemma_accumulate_combine(d0, old_xs[j - 1], xor);
                assert(layer(xs@, 0, j as int, xor) == v);
                assert(layer(xs@, 0, j - 1, xor) == old_xs[j - 1]);
                assert(layer(xs@, 1, j as int, xor) == d0);
            }
            if j >= 2 {
                lemma_layer_prefix(old_xs, v, 1, j - 1, xor);
                assert(layer(xs@, 1, j - 1, xor) == layer(old_xs, 1, j - 1, xor));
                lemma_accumulate_combine(d1, layer(old_xs, 1, j - 1, xor), xor);
                assert(layer(xs@, 2, j as int, xor) == d1);
            }
            if j >= 3 {
                lemma_layer_prefix(old_xs, v, 2, j - 1, xor);
                assert(layer(xs@, 2, j - 1, xor) == layer(old_xs, 2, j - 1, xor));
                lemma_accumulate_combine(r, layer(old_xs, 2, j - 1, xor), xor);
                assert(layer(xs@, 3, j as int, xor) == r);
            }
        }
        j += 1;
    }
    assert(residuals(xs@, xor) =~= rs@);
    xs
}

proof fn lemma_layer_agree(xs: Seq<i32>, ys: Seq<i32>, k: nat, j: int, xor: bool)
    requires
        k <= j,
        forall|t: int| j - k <= t <= j ==> xs[t] == ys[t],
    ensures
        layer(xs, k, j, xor) == layer(ys, k, j, xor),
    decreases k,
{
    if k > 0 {
        lemma_layer_agree(xs, ys, (k - 1) as nat, j, xor);
        lemma_layer_agree(xs, ys, (k - 1) as nat, j - 1, xor);
    }
}

proof fn lemma_layer_peel(xs: Seq<i32>, ys: Seq<i32>, k: nat, j: int, xor: bool)
    requires
        k <= j,
        forall|t: int| j - k <= t < j ==> xs[t] == ys[t],
        layer(xs, k, j, xor) == layer(ys, k, j, xor),
    ensures
        xs[j] == ys[j],
    decreases k,
{
    if k > 0 {
        lemma_layer_agree(xs, ys, (k - 1) as nat, j - 1, xor);
        let b = layer(xs, (k - 1) as nat, j - 1, xor);
        lemma_accumulate_combine(layer(xs, (k - 1) as nat, j, xor), b, xor);
        lemma_accumulate_combine(layer(ys, (k - 1) as nat, j, xor), b, xor);
        lemma_layer_peel(xs, ys, (k - 1) as nat, j, xor);
    }
}

/// Values are determined by their residuals: two sequences with the same
/// residuals are equal.
pub proof fn lemma_residuals_injective(xs: Seq<i32>, ys: Seq<i32>, xor: bool)
    requires
        xs.len() == ys.len(),
        residuals(xs, xor) == residuals(ys, xor),
    ensures
        xs == ys,
{
    assert forall|j: int| 0 <= j < xs.len() implies xs[j] == ys[j] by {
        lemma_agree_upto(xs, ys, xor, j);
    }
    assert(xs =~= ys);
}

proof fn lemma_agree_upto(xs: Seq<i32>, ys: Seq<i32>, xor: bool, j: int)
    requires
        0 <= j < xs.len(),
        xs.len() == ys.len(),
        residuals(xs, xor) == residuals(ys, xor),
    ensures
        forall|t: int| 0 <= t <= j ==> xs[t] == ys[t],
    decreases j,
{
    if j > 0 {
        lemma_agree_upto(xs, ys, xor, j - 1);
    }
    assert(residuals(xs, xor)[j] == residuals(ys, xor)[j]);
    assert(residuals(xs, xor)[j] == residual(xs, j, xor));
    assert(residuals(ys, xor)[j] == residual(ys, j, xor));
    if j > 0 {
        let k: nat = if j < 3 {
            j as nat
        } else {
            3
        };
        assert(residual(xs, j, xor) == layer(xs, k, j, xor));
        assert(residual(ys, j, xor) == layer(ys, k, j, xor));
        lemma_layer_peel(xs, ys, k, j, xor);
    }
}

} // verus!
