//! Run-length encoding of one variable's quality words within a message.
use vstd::prelude::*;
use crate::QualityHistory;

verus! {

/// The runs `r` after one more quality word `q`: the last run grows when it
/// holds `q`, else a run of one `q` starts.
pub open spec fn push_run(r: Seq<QualityHistory>, q: u32) -> Seq<QualityHistory> {
    if r.len() > 0 && r.last().value == q {
        r.update(r.len() - 1, QualityHistory { value: q, samples: (r.last().samples + 1) as u32 })
    } else {
        r.push(QualityHistory { value: q, samples: 1 })
    }
}

/// The runs of equal words in `qs`, in order.
pub open spec fn runs_of(qs: Seq<u32>) -> Seq<QualityHistory>
    decreases qs.len(),
{
    if qs.len() == 0 {
        Seq::empty()
    } else {
        push_run(runs_of(qs.drop_last()), qs.last())
    }
}

/// The runs as written in a message: the last one's length is 0, which
/// stands for "all the samples that are left".
pub open spec fn close_runs(r: Seq<QualityHistory>) -> Seq<QualityHistory> {
    if r.len() == 0 {
        r
    } else {
        r.update(r.len() - 1, QualityHistory { value: r.last().value, samples: 0 })
    }
}

/// The quality words of `n` samples that the runs `r` describe, read from
/// the first run on: a run of length 0, or one that reaches past `n`,
/// covers all the samples that are left.
pub open spec fn expand(r: Seq<QualityHistory>, n: nat) -> Seq<u32>
    decreases r.len(),
{
    if n == 0 || r.len() == 0 {
        Seq::empty()
    } else if r[0].samples == 0 || r[0].samples >= n {
        Seq::new(n, |k: int| r[0].value)
    } else {
        Seq::new(r[0].samples as nat, |k: int| r[0].value) + expand(
            r.skip(1),
            (n - r[0].samples) as nat,
        )
    }
}

/// The words that the runs `r` spell out, each run's word repeated over its
/// length.
pub open spec fn flatten(r: Seq<QualityHistory>) -> Seq<u32>
    decreases r.len(),
{
    if r.len() == 0 {
        Seq::empty()
    } else {
        Seq::new(r[0].samples as nat, |k: int| r[0].value) + flatten(r.skip(1))
    }
}

/// The total length of the runs `r`.
pub open spec fn total(r: Seq<QualityHistory>) -> nat
    decreases r.len(),
{
    if r.len() == 0 {
        0
    } else {
        (r[0].samples + total(r.skip(1))) as nat
    }
}

proof fn lemma_push_back(r: Seq<QualityHistory>, h: QualityHistory)
    ensures
        flatten(r.push(h)) == flatten(r) + Seq::new(h.samples as nat, |k: int| h.value),
        total(r.push(h)) == total(r) + h.samples,
    decreases r.len(),
{
    let e = Seq::<QualityHistory>::empty();
    assert(flatten(e) == Seq::<u32>::empty() && total(e) == 0);
    if r.len() == 0 {
        assert(r.push(h).skip(1) =~= e);
        assert(r.push(h)[0] == h);
        assert(flatten(r.push(h)) =~= flatten(r) + Seq::new(h.samples as nat, |k: int| h.value));
    } else {
        lemma_push_back(r.skip(1), h);
        assert(r.push(h).skip(1) =~= r.skip(1).push(h));
        assert(r.push(h)[0] == r[0]);
        assert(flatten(r.push(h)) =~= flatten(r) + Seq::new(h.samples as nat, |k: int| h.value));
    }
}

proof fn lemma_grow_back(r: Seq<QualityHistory>)
    requires
        r.len() > 0,
        r.last().samples < u32::MAX,
    ensures
        ({
            let g = r.update(
                r.len() - 1,
                QualityHistory { value: r.last().value, samples: (r.last().samples + 1) as u32 },
            );
            &&& flatten(g) == flatten(r).push(r.last().value)
            &&& total(g) == total(r) + 1
        }),
{
    let h = r.last();
    let g = r.update(r.len() - 1, QualityHistory { value: h.value, samples: (h.samples + 1) as u32 });
    let init = r.drop_last();
    assert(r =~= init.push(h));
    assert(g =~= init.push(g.last()));
    lemma_push_back(init, h);
    lemma_push_back(init, g.last());
    assert(flatten(g) =~= flatten(r).push(h.value));
}

/// The runs of `qs` spell out `qs`; each is at least one long, and their
/// lengths add up to the length of `qs`.
pub proof fn lemma_runs_of(qs: Seq<u32>)
    requires
        qs.len() < u32::MAX,
    ensures
        flatten(runs_of(qs)) == qs,
        total(runs_of(qs)) == qs.len(),
        forall|k: int| 0 <= k < runs_of(qs).len() ==> (#[trigger] runs_of(qs)[k]).samples >= 1,
        qs.len() > 0 <==> runs_of(qs).len() > 0,
    decreases qs.len(),
{
    if qs.len() > 0 {
        let init = qs.drop_last();
        lemma_runs_of(init);
        let r = runs_of(init);
        let q = qs.last();
        if r.len() > 0 && r.last().value == q {
            lemma_total_bounds(r, r.len() - 1);
            lemma_grow_back(r);
        } else {
            lemma_push_back(r, QualityHistory { value: q, samples: 1 });
            assert(Seq::new(1, |k: int| q) =~= seq![q]);
        }
        assert(init.push(q) =~= qs);
    } else {
        assert(flatten(runs_of(qs)) =~= qs);
    }
}

pub proof fn lemma_total_bounds(r: Seq<QualityHistory>, k: int)
    requires
        0 <= k < r.len(),
    ensures
        r[k].samples <= total(r),
    decreases r.len(),
{
    if k > 0 {
        lemma_total_bounds(r.skip(1), k - 1);
    }
}

proof fn lemma_expand_closed(r: Seq<QualityHistory>)
    requires
        r.len() > 0,
        forall|k: int| 0 <= k < r.len() ==> (#[trigger] r[k]).samples >= 1,
    ensures
        expand(close_runs(r), total(r)) == flatten(r),
    decreases r.len(),
{
    let c = close_runs(r);
    if r.len() == 1 {
        let e = Seq::<QualityHistory>::empty();
        assert(flatten(e) == Seq::<u32>::empty() && total(e) == 0);
        assert(r.skip(1) =~= e);
        assert(flatten(r) =~= expand(c, total(r)));
    } else {
        let rest = r.skip(1);
        assert(c.skip(1) =~= close_runs(rest));
        assert forall|k: int| 0 <= k < rest.len() implies (#[trigger] rest[k]).samples >= 1 by {
            assert(rest[k] == r[k + 1]);
        }
        lemma_expand_closed(rest);
        assert(total(rest) >= 1) by {
            lemma_total_bounds(rest, 0);
        }
        assert(c[0] == r[0]);
    }
}

/// Expanding the closed runs of a message's quality words gives the words
/// back.
pub proof fn lemma_quality_round_trip(qs: Seq<u32>)
    requires
        qs.len() < u32::MAX,
    ensures
        expand(close_runs(runs_of(qs)), qs.len()) == qs,
{
    lemma_runs_of(qs);
    if qs.len() > 0 {
        lemma_expand_closed(runs_of(qs));
    }
}

/// Records the next quality word `q` in the runs `history`.
pub fn push_quality(history: &mut Vec<QualityHistory>, q: u32)
    requires
        old(history)@.len() > 0 ==> old(history)@.last().samples < u32::MAX,
    ensures
        final(history)@ == push_run(old(history)@, q),
{
    let n = history.len();
    if n > 0 && history[n - 1].value == q {
        let s = history[n - 1].samples;
        history.set(n - 1, QualityHistory { value: q, samples: s + 1 });
    } else {
        history.push(QualityHistory { value: q, samples: 1 });
    }
}

/// The quality words of `n` samples that the runs `r` describe.
pub fn expand_runs(r: &[QualityHistory], n: usize) -> (out: Vec<u32>)
    ensures
        out@ == expand(r@, n as nat),
{
    let mut out: Vec<u32> = Vec::new();
    let mut k: usize = 0;
    let mut left: usize = n;
    assert(r@.skip(0) =~= r@);
    assert(out@ + expand(r@, n as nat) =~= expand(r@, n as nat));
    while k < r.len() && left > 0
        invariant
            k <= r@.len(),
            left <= n,
            out@.len() + left == n,
            expand(r@, n as nat) == out@ + expand(r@.skip(k as int), left as nat),
        decreases r@.len() - k,
    {
        let h = r[k];
        let ghost rest = r@.skip(k as int);
        assert(rest[0] == h);
        if h.samples == 0 || h.samples as usize >= left {
            let mut i: usize = 0;
            let ghost base = out@;
            while i < left
                invariant
                    i <= left,
                    out@ == base + Seq::new(i as nat, |j: int| h.value),
                decreases left - i,
            {
                out.push(h.value);
                i += 1;
                assert(out@ =~= base + Seq::new(i as nat, |j: int| h.value));
            }
            assert(expand(rest, left as nat) == Seq::new(left as nat, |j: int| h.value));
            assert(out@ + expand(r@.skip(k + 1), 0) =~= out@);
            left = 0;
        } else {
            let c = h.samples as usize;
            let mut i: usize = 0;
            let ghost base = out@;
            while i < c
                invariant
                    i <= c,
                    out@ == base + Seq::new(i as nat, |j: int| h.value),
                decreases c - i,
            {
                out.push(h.value);
                i += 1;
                assert(out@ =~= base + Seq::new(i as nat, |j: int| h.value));
            }
            assert(rest.skip(1) =~= r@.skip(k + 1));
            assert(base + expand(rest, left as nat) =~= out@ + expand(r@.skip(k + 1), (left - c) as nat));
            left = left - c;
        }
        k += 1;
    }
    proof {
        if left > 0 {
            assert(r@.skip(k as int).len() == 0);
        }
        assert(out@ + expand(r@.skip(k as int), left as nat) =~= out@);
    }
    out
}

} // verus!
