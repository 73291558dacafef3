//! Decoding a frame gives back the samples it was encoded from.
use vstd::prelude::*;
use crate::{QualityHistory, SampleView};
use crate::delta::{residual, residuals};
use crate::encoding::bitops::{lemma_zig_zag_round_trip, unzig_spec, zig_spec};
use crate::encoding::simple8b::{
    be_bytes, be_u64, be_words, decode_words, greedy_words, lemma_decode_concat,
    lemma_decode_prefix, lemma_greedy_succeeds, lemma_simple8b_round_trip,
    lemma_words_bytes_round_trip, unpack_word, words_bytes, words_needed, MAX_VALUE,
};
use crate::frame::{
    column, packed_section, quality_column, quality_section, runs_bytes, varint_row,
    varint_section, zig_column,
};
use crate::decoder::{all_runs_at, runs_at, stream_at, stream_residual, varints_at, DecoderView, Parsed};
use crate::encoder::{sample_fits, valid_refs, EncoderView};
use crate::compress::{gunzip, gzip_best};
use crate::frame::{adjusted, frame, payload, start_time};
use crate::quality::{expand, lemma_quality_round_trip};
use crate::delta::{lemma_accumulate_combine, lemma_residuals_injective};
use crate::CodecError;
use crate::quality::{close_runs, lemma_runs_of, runs_of, total};
use crate::varint::{
    lemma_uvarint_round_trip, lemma_zig32_round_trip, unzig32, uvarint_bytes, uvarint_at,
    varint_bytes, zig32,
};

verus! {

/// The words of the Simple-8b section of the first `m` variables.
pub open spec fn packed_words(ss: Seq<SampleView>, refs: Seq<Option<usize>>, xor: bool, m: nat) -> Seq<
    u64,
>
    decreases m,
{
    if m == 0 {
        Seq::empty()
    } else {
        packed_words(ss, refs, xor, (m - 1) as nat) + greedy_words(
            zig_column(residuals(column(ss, refs, m - 1), xor)),
        ).unwrap()
    }
}

/// The values that the Simple-8b section of the first `m` variables holds.
pub open spec fn packed_values(ss: Seq<SampleView>, refs: Seq<Option<usize>>, xor: bool, m: nat) -> Seq<
    u64,
>
    decreases m,
{
    if m == 0 {
        Seq::empty()
    } else {
        packed_values(ss, refs, xor, (m - 1) as nat) + zig_column(
            residuals(column(ss, refs, m - 1), xor),
        )
    }
}

proof fn lemma_words_bytes_concat(a: Seq<u64>, b: Seq<u64>)
    ensures
        words_bytes(a + b) == words_bytes(a) + words_bytes(b),
    decreases b.len(),
{
    if b.len() == 0 {
        assert(a + b =~= a);
        assert(words_bytes(a) + words_bytes(b) =~= words_bytes(a));
    } else {
        lemma_words_bytes_concat(a, b.drop_last());
        assert((a + b).drop_last() =~= a + b.drop_last());
        assert(words_bytes(a) + words_bytes(b.drop_last()) + be_bytes(b.last()) =~= words_bytes(a)
            + (words_bytes(b.drop_last()) + be_bytes(b.last())));
    }
}

proof fn lemma_zig_column_small(rs: Seq<i32>)
    ensures
        forall|k: int| 0 <= k < rs.len() ==> #[trigger] zig_column(rs)[k] <= MAX_VALUE,
{
}

proof fn lemma_packed(ss: Seq<SampleView>, refs: Seq<Option<usize>>, xor: bool, m: nat)
    ensures
        packed_section(ss, refs, xor, m) == words_bytes(packed_words(ss, refs, xor, m)),
        decode_words(packed_words(ss, refs, xor, m)) == packed_values(ss, refs, xor, m),
        packed_values(ss, refs, xor, m).len() == m * ss.len(),
        forall|i: int, j: int|
            0 <= i < m && 0 <= j < ss.len() ==> #[trigger] packed_values(ss, refs, xor, m)[i
                * ss.len() + j] == zig_spec(residual(column(ss, refs, i), j, xor) as i64),
    decreases m,
{
    if m > 0 {
        let n = ss.len();
        lemma_packed(ss, refs, xor, (m - 1) as nat);
        let zc = zig_column(residuals(column(ss, refs, m - 1), xor));
        lemma_zig_column_small(residuals(column(ss, refs, m - 1), xor));
        lemma_greedy_succeeds(zc);
        lemma_simple8b_round_trip(zc);
        let w0 = packed_words(ss, refs, xor, (m - 1) as nat);
        let w1 = greedy_words(zc).unwrap();
        lemma_words_bytes_concat(w0, w1);
        lemma_decode_concat(w0, w1);
        let pv = packed_values(ss, refs, xor, m);
        let pv0 = packed_values(ss, refs, xor, (m - 1) as nat);
        assert((m - 1) * n + n == m * n) by (nonlinear_arith);
        assert forall|i: int, j: int| 0 <= i < m && 0 <= j < n implies #[trigger] pv[i * n + j]
            == zig_spec(residual(column(ss, refs, i), j, xor) as i64) by {
            if i < m - 1 {
                assert(i * n + j < (m - 1) * n) by (nonlinear_arith)
                    requires
                        0 <= i < m - 1,
                        0 <= j < n,
                ;
                assert(0 <= i * n) by (nonlinear_arith)
                    requires
                        0 <= i,
                ;
                assert(pv[i * n + j] == pv0[i * n + j]);
            } else {
                assert(pv[i * n + j] == zc[j]);
            }
        }
    }
}

/// Words read back from bytes that start with their encoding.
proof fn lemma_be_words_prefix(w: Seq<u64>, rest: Seq<u8>)
    ensures
        be_words(words_bytes(w) + rest).len() >= w.len(),
        be_words(words_bytes(w) + rest).take(w.len() as int) == w,
{
    lemma_words_bytes_round_trip(w);
    let b = words_bytes(w) + rest;
    let wb = words_bytes(w);
    assert forall|k: int| 0 <= k < w.len() implies #[trigger] be_words(b)[k] == w[k] by {
        assert(be_words(wb)[k] == w[k]);
        assert(be_u64(b, 8 * k) == be_u64(wb, 8 * k));
    }
    assert(be_words(b).take(w.len() as int) =~= w);
}

proof fn lemma_unpack_nonempty(w: u64)
    ensures
        unpack_word(w).len() >= 1,
{
}

proof fn lemma_decode_len(ws: Seq<u64>)
    ensures
        decode_words(ws).len() >= ws.len(),
    decreases ws.len(),
{
    if ws.len() > 0 {
        lemma_decode_len(ws.drop_last());
        lemma_unpack_nonempty(ws.last());
    }
}

proof fn lemma_words_needed(ws: Seq<u64>, w: Seq<u64>, limit: nat, k: nat)
    requires
        k <= w.len(),
        ws.len() >= w.len(),
        ws.take(w.len() as int) == w,
        decode_words(w).len() == limit,
    ensures
        words_needed(ws, limit, k) == w.len(),
    decreases w.len() - k,
{
    if k < w.len() {
        assert(ws.take(k as int) =~= w.take(k as int));
        lemma_decode_prefix(w, k as int);
        lemma_decode_len(w.skip(k as int));
        lemma_words_needed(ws, w, limit, k + 1);
    } else {
        assert(ws.take(k as int) =~= w);
    }
}

/// A Simple-8b reader that wants `limit` values from bytes that start with
/// the encoding of words holding exactly that many reads those words.
pub proof fn lemma_packed_stream(w: Seq<u64>, rest: Seq<u8>)
    ensures
        ({
            let ws = be_words(words_bytes(w) + rest);
            &&& words_needed(ws, decode_words(w).len(), 0) == w.len()
            &&& decode_words(ws.take(w.len() as int)) == decode_words(w)
        }),
{
    lemma_be_words_prefix(w, rest);
    lemma_words_needed(be_words(words_bytes(w) + rest), w, decode_words(w).len(), 0);
}

/// Whether `a` is where `b` starts.
pub open spec fn starts(b: Seq<u8>, a: Seq<u8>) -> bool {
    a.len() <= b.len() && b.take(a.len() as int) == a
}

proof fn lemma_uvarint_at_start(b: Seq<u8>, p: int, x: u32)
    requires
        0 <= p <= b.len(),
        starts(b.skip(p), uvarint_bytes(x)),
    ensures
        uvarint_at(b.skip(p), 0) == Some((x, uvarint_bytes(x).len())),
{
    let l = uvarint_bytes(x).len() as int;
    assert(b.skip(p) =~= uvarint_bytes(x) + b.skip(p + l));
    lemma_uvarint_round_trip(x, b.skip(p + l));
}

proof fn lemma_starts_split(b: Seq<u8>, p: int, x: Seq<u8>, y: Seq<u8>)
    requires
        0 <= p <= b.len(),
        starts(b.skip(p), x + y),
    ensures
        starts(b.skip(p), x),
        starts(b.skip(p + x.len()), y),
{
    assert(b.skip(p).take(x.len() as int) =~= (x + y).take(x.len() as int));
    assert((x + y).take(x.len() as int) =~= x);
    assert(b.skip(p + x.len()).take(y.len() as int) =~= (x + y).skip(x.len() as int));
    assert((x + y).skip(x.len() as int) =~= y);
}

/// The first `j` varint rows and `i` varints of row `j`.
pub open spec fn varint_prefix(
    ss: Seq<SampleView>,
    refs: Seq<Option<usize>>,
    xor: bool,
    m: nat,
    j: int,
    i: nat,
) -> Seq<u8> {
    varint_section(ss, refs, xor, m, j as nat) + varint_row(ss, refs, xor, j, i)
}

proof fn lemma_varint_parse(
    ss: Seq<SampleView>,
    refs: Seq<Option<usize>>,
    xor: bool,
    m: nat,
    b: Seq<u8>,
    j: nat,
    i: nat,
)
    requires
        m >= 1,
        i <= m,
        starts(b, varint_prefix(ss, refs, xor, m, j as int, i)),
    ensures
        varints_at(b, 0, j * m + i) matches Some((vs, e)) && e == varint_prefix(
            ss,
            refs,
            xor,
            m,
            j as int,
            i,
        ).len() && vs.len() == j * m + i && (forall|j2: int, i2: int|
            0 <= j2 < j && 0 <= i2 < m ==> #[trigger] vs[j2 * m + i2] == residual(
                column(ss, refs, i2),
                j2,
                xor,
            )) && (forall|i2: int|
            0 <= i2 < i ==> #[trigger] vs[j * m + i2] == residual(column(ss, refs, i2), j as int, xor)),
    decreases j, i,
{
    let pre = varint_prefix(ss, refs, xor, m, j as int, i);
    assert(b.skip(0) =~= b);
    if i > 0 {
        let ip = (i - 1) as nat;
        let pre0 = varint_prefix(ss, refs, xor, m, j as int, ip);
        let r = residual(column(ss, refs, ip as int), j as int, xor);
        assert(pre =~= pre0 + varint_bytes(r));
        lemma_starts_split(b, 0, pre0, varint_bytes(r));
        lemma_varint_parse(ss, refs, xor, m, b, j, ip);
        let k0 = j * m + ip;
        let (vs, e) = varints_at(b, 0, k0).unwrap();
        lemma_uvarint_at_start(b, e as int, zig32(r));
        lemma_zig32_round_trip(r);
        let k1 = j * m + i;
        assert(k1 == k0 + 1);
        assert((k1 - 1) as nat == k0);
        let vs2 = vs.push(unzig32(zig32(r)));
        assert(varints_at(b, 0, k1) == Some((vs2, e + varint_bytes(r).len())));
        assert forall|j2: int, i2: int| 0 <= j2 < j && 0 <= i2 < m implies #[trigger] vs2[j2 * m
            + i2] == residual(column(ss, refs, i2), j2, xor) by {
            assert(j2 * m + i2 < j * m) by (nonlinear_arith)
                requires
                    0 <= j2 < j,
                    0 <= i2 < m,
            ;
            assert(0 <= j2 * m) by (nonlinear_arith)
                requires
                    0 <= j2,
            ;
            assert(vs2[j2 * m + i2] == vs[j2 * m + i2]);
        }
        assert forall|i2: int| 0 <= i2 < i implies #[trigger] vs2[j * m + i2] == residual(
            column(ss, refs, i2),
            j as int,
            xor,
        ) by {
            if i2 < ip {
                assert(vs2[j * m + i2] == vs[j * m + i2]);
            }
        }
    } else if j > 0 {
        let jp = (j - 1) as nat;
        assert(varint_row(ss, refs, xor, j as int, 0) =~= Seq::<u8>::empty());
        assert(varint_section(ss, refs, xor, m, j) == varint_section(ss, refs, xor, m, jp)
            + varint_row(ss, refs, xor, jp as int, m));
        assert(pre =~= varint_prefix(ss, refs, xor, m, jp as int, m));
        lemma_varint_parse(ss, refs, xor, m, b, jp, m);
        assert(jp * m + m == j * m) by (nonlinear_arith)
            requires
                jp + 1 == j,
        ;
        let (vs, e) = varints_at(b, 0, jp * m + m).unwrap();
        assert forall|j2: int, i2: int| 0 <= j2 < j && 0 <= i2 < m implies #[trigger] vs[j2 * m
            + i2] == residual(column(ss, refs, i2), j2, xor) by {
            if j2 == jp {
                assert(vs[jp * m + i2] == residual(column(ss, refs, i2), jp as int, xor));
            } else {
                assert(j2 < jp);
            }
        }
        assert(varints_at(b, 0, j * m) == Some((vs, e)));
        assert(j * m + i == j * m);
        assert(varints_at(b, 0, j * m + i) == Some((vs, e)));
        assert(e == pre.len());
        assert(vs.len() == j * m + i);
    } else {
        assert(pre =~= Seq::<u8>::empty());
    }
}

proof fn lemma_runs_bytes_concat(a: Seq<QualityHistory>, b: Seq<QualityHistory>)
    ensures
        runs_bytes(a + b) == runs_bytes(a) + runs_bytes(b),
    decreases b.len(),
{
    if b.len() == 0 {
        assert(a + b =~= a);
        assert(runs_bytes(a) + runs_bytes(b) =~= runs_bytes(a));
    } else {
        lemma_runs_bytes_concat(a, b.drop_last());
        assert((a + b).drop_last() =~= a + b.drop_last());
        let l = b.last();
        assert(runs_bytes(a) + runs_bytes(b.drop_last()) + uvarint_bytes(l.value) + uvarint_bytes(
            l.samples,
        ) =~= runs_bytes(a) + (runs_bytes(b.drop_last()) + uvarint_bytes(l.value)
            + uvarint_bytes(l.samples)));
    }
}

proof fn lemma_runs_parse(r: Seq<QualityHistory>, b: Seq<u8>, p: nat)
    requires
        r.len() >= 1,
        forall|k: int| 0 <= k < r.len() ==> (#[trigger] r[k]).samples >= 1,
        p <= b.len(),
        starts(b.skip(p as int), runs_bytes(close_runs(r))),
    ensures
        runs_at(b, p, total(r)) == Some((close_runs(r), p + runs_bytes(close_runs(r)).len())),
    decreases r.len(),
{
    let c = close_runs(r);
    let h = c[0];
    let rest = c.skip(1);
    assert(c =~= seq![h] + rest);
    lemma_runs_bytes_concat(seq![h], rest);
    assert(seq![h].drop_last() =~= Seq::<QualityHistory>::empty());
    assert(runs_bytes(Seq::<QualityHistory>::empty()) =~= Seq::<u8>::empty());
    let hb = runs_bytes(seq![h]);
    assert(hb =~= uvarint_bytes(h.value) + uvarint_bytes(h.samples));
    lemma_starts_split(b, p as int, hb, runs_bytes(rest));
    lemma_starts_split(b, p as int, uvarint_bytes(h.value), uvarint_bytes(h.samples));
    lemma_uvarint_at_start(b, p as int, h.value);
    let e1 = uvarint_bytes(h.value).len();
    lemma_uvarint_at_start(b, (p + e1) as int, h.samples);
    let e2 = uvarint_bytes(h.samples).len();
    assert(total(r) >= 1) by {
        crate::quality::lemma_total_bounds(r, 0);
    }
    if r.len() == 1 {
        assert(rest =~= Seq::<QualityHistory>::empty());
        assert(runs_bytes(rest) =~= Seq::<u8>::empty());
        assert(c =~= seq![h]);
    } else {
        let r2 = r.skip(1);
        assert(h == r[0]);
        assert(close_runs(r2) =~= rest);
        assert(total(r2) >= 1) by {
            crate::quality::lemma_total_bounds(r2, 0);
            assert(r2[0] == r[1]);
        }
        assert forall|k: int| 0 <= k < r2.len() implies (#[trigger] r2[k]).samples >= 1 by {
            assert(r2[k] == r[k + 1]);
        }
        lemma_runs_parse(r2, b, p + e1 + e2);
    }
}

proof fn lemma_all_runs_parse(ss: Seq<SampleView>, b: Seq<u8>, pos: nat, m: nat)
    requires
        1 <= ss.len() < u32::MAX,
        pos <= b.len(),
        starts(b.skip(pos as int), quality_section(ss, m)),
    ensures
        all_runs_at(b, pos, ss.len(), m) == Some((
            Seq::new(m, |i: int| close_runs(runs_of(quality_column(ss, i)))),
            pos + quality_section(ss, m).len(),
        )),
    decreases m,
{
    if m > 0 {
        let q0 = quality_section(ss, (m - 1) as nat);
        let qc = quality_column(ss, m - 1);
        let rb = runs_bytes(close_runs(runs_of(qc)));
        lemma_starts_split(b, pos as int, q0, rb);
        lemma_all_runs_parse(ss, b, pos, (m - 1) as nat);
        lemma_runs_of(qc);
        lemma_runs_parse(runs_of(qc), b, pos + q0.len());
        assert(Seq::new((m - 1) as nat, |i: int| close_runs(runs_of(quality_column(ss, i)))).push(
            close_runs(runs_of(qc)),
        ) =~= Seq::new(m, |i: int| close_runs(runs_of(quality_column(ss, i)))));
    } else {
        assert(Seq::new(0, |i: int| close_runs(runs_of(quality_column(ss, i)))) =~= Seq::<
            Seq<QualityHistory>,
        >::empty());
    }
}

/// Samples are determined by their adjusted values under a spatial
/// reference map.
proof fn lemma_adjusted_injective(a: SampleView, b: SampleView, refs: Seq<Option<usize>>, m: nat)
    requires
        valid_refs(refs, m),
        a.1.len() == m,
        b.1.len() == m,
        forall|i: int| 0 <= i < m ==> #[trigger] adjusted(a, refs, i) == adjusted(b, refs, i),
    ensures
        a.1 == b.1,
{
    assert forall|i: int| 0 <= i < m implies a.1[i] == b.1[i] by {
        lemma_adjusted_upto(a, b, refs, m, i);
    }
    assert(a.1 =~= b.1);
}

proof fn lemma_adjusted_upto(a: SampleView, b: SampleView, refs: Seq<Option<usize>>, m: nat, i: int)
    requires
        valid_refs(refs, m),
        a.1.len() == m,
        b.1.len() == m,
        0 <= i < m,
        forall|i2: int| 0 <= i2 < m ==> #[trigger] adjusted(a, refs, i2) == adjusted(b, refs, i2),
    ensures
        forall|t: int| 0 <= t <= i ==> a.1[t] == b.1[t],
    decreases i,
{
    if i > 0 {
        lemma_adjusted_upto(a, b, refs, m, i - 1);
    }
    assert(adjusted(a, refs, i) == adjusted(b, refs, i));
    match refs[i] {
        Some(r) => {
            assert(a.1[r as int] == b.1[r as int]);
            lemma_accumulate_combine(a.1[i], a.1[r as int], false);
            lemma_accumulate_combine(b.1[i], b.1[r as int], false);
        },
        None => {},
    }
}

/// The values section of a payload, followed by `q`, reads back as a
/// residual stream that holds every variable's residuals, and ends where
/// the section does.
proof fn lemma_values_stream(
    ss: Seq<SampleView>,
    refs: Seq<Option<usize>>,
    xor: bool,
    m: nat,
    simple8b: bool,
    q: Seq<u8>,
    vals_section: Seq<u8>,
)
    requires
        m >= 1,
        ss.len() >= 1,
        vals_section == if simple8b {
            packed_section(ss, refs, xor, m)
        } else {
            varint_section(ss, refs, xor, m, ss.len())
        },
    ensures
        stream_at(vals_section + q, ss.len(), m, simple8b) matches Some((st, pos)) && pos
            == vals_section.len() && (forall|i: int, j: int|
            0 <= i < m && 0 <= j < ss.len() ==> #[trigger] stream_residual(
                st,
                ss.len(),
                m,
                simple8b,
                i,
                j,
            ) == residual(column(ss, refs, i), j, xor)),
{
    let n = ss.len();
    if simple8b {
        let pl = packed_section(ss, refs, xor, m) + q;
        lemma_packed(ss, refs, xor, m);
        let w = packed_words(ss, refs, xor, m);
        lemma_packed_stream(w, q);
        lemma_words_bytes_round_trip(w);
        assert(m * n == n * m) by (nonlinear_arith);
        let vals = packed_values(ss, refs, xor, m);
        let sr = stream_at(pl, n, m, true);
        assert(sr == Some((Seq::new(n * m, |k: int| unzig_spec(vals[k]) as i32), 8 * w.len())));
        assert forall|i: int, j: int| 0 <= i < m && 0 <= j < n implies #[trigger] stream_residual(
            sr.unwrap().0,
            n,
            m,
            true,
            i,
            j,
        ) == residual(column(ss, refs, i), j, xor) by {
            crate::encoder::lemma_flat_index(i, j, m as int, n as int);
            let r = residual(column(ss, refs, i), j, xor);
            assert(vals[i * n + j] == zig_spec(r as i64));
            lemma_zig_zag_round_trip(r as i64);
        }
    } else {
        let pl = vals_section + q;
        assert(varint_prefix(ss, refs, xor, m, n - 1, m) =~= vals_section);
        assert(pl.take(vals_section.len() as int) =~= vals_section);
        lemma_varint_parse(ss, refs, xor, m, pl, (n - 1) as nat, m);
        assert((n - 1) * m + m == n * m) by (nonlinear_arith)
            requires
                n >= 1,
        ;
        let sr = stream_at(pl, n, m, false);
        assert forall|i: int, j: int| 0 <= i < m && 0 <= j < n implies #[trigger] stream_residual(
            sr.unwrap().0,
            n,
            m,
            false,
            i,
            j,
        ) == residual(column(ss, refs, i), j, xor) by {
            let vs = sr.unwrap().0;
            if j < n - 1 {
                assert(vs[j * m + i] == residual(column(ss, refs, i), j, xor));
            } else {
                assert(vs[(n - 1) * m + i] == residual(column(ss, refs, i), j, xor));
            }
        }
    }
}

/// The payload of a message reads back as its residual stream followed by
/// quality runs that spell out every variable's quality words.
proof fn lemma_payload_parses(
    ss: Seq<SampleView>,
    refs: Seq<Option<usize>>,
    xor: bool,
    m: nat,
    simple8b: bool,
)
    requires
        m >= 1,
        1 <= ss.len() < u32::MAX,
    ensures
        ({
            let n = ss.len();
            let pl = payload(ss, refs, xor, m, simple8b);
            stream_at(pl, n, m, simple8b) matches Some((st, pos)) && (forall|i: int, j: int|
                0 <= i < m && 0 <= j < n ==> #[trigger] stream_residual(st, n, m, simple8b, i, j)
                    == residual(column(ss, refs, i), j, xor)) && (all_runs_at(pl, pos, n, m) matches Some(
                (runs, end),
            ) && (forall|i: int| 0 <= i < m ==> #[trigger] expand(runs[i], n) == quality_column(ss, i)))
        }),
{
    let n = ss.len();
    let q = quality_section(ss, m);
    let vals_section = if simple8b {
        packed_section(ss, refs, xor, m)
    } else {
        varint_section(ss, refs, xor, m, n)
    };
    let pl = payload(ss, refs, xor, m, simple8b);
    assert(pl == vals_section + q);
    lemma_values_stream(ss, refs, xor, m, simple8b, q, vals_section);
    let pos = vals_section.len();
    assert(pl.skip(pos as int) =~= q);
    assert(pl.skip(pos as int).take(q.len() as int) =~= q);
    lemma_all_runs_parse(ss, pl, pos, m);
    let runs = Seq::new(m, |i2: int| close_runs(runs_of(quality_column(ss, i2))));
    assert forall|i: int| 0 <= i < m implies #[trigger] expand(runs[i], n) == quality_column(ss, i) by {
        lemma_quality_round_trip(quality_column(ss, i));
    }
    let (st, p0) = stream_at(pl, n, m, simple8b).unwrap();
    assert(stream_at(vals_section + q, n, m, simple8b) == stream_at(pl, n, m, simple8b));
    assert(p0 == pos);
    assert(all_runs_at(pl, pos, n, m) == Some((runs, pos + q.len())));
    assert forall|i: int, j: int| 0 <= i < m && 0 <= j < n implies #[trigger] stream_residual(
        st,
        n,
        m,
        simple8b,
        i,
        j,
    ) == residual(column(ss, refs, i), j, xor) by {
        let (st2, p2) = stream_at(vals_section + q, n, m, simple8b).unwrap();
        assert(st2 == st);
        assert(stream_residual(st2, n, m, simple8b, i, j) == residual(column(ss, refs, i), j, xor));
    }
}

/// What a decoder reads from an encoder's frame: the sample count and first
/// timestamp, every variable's residuals, and quality runs that spell out
/// every variable's quality words.
#[verifier::rlimit(50)]
pub proof fn lemma_frame_parses(e: EncoderView, d: DecoderView, ss: Seq<SampleView>)
    requires
        e.id.len() == 16,
        d.id == e.id,
        d.i32_count == e.i32_count,
        e.i32_count >= 1,
        d.samples_per_message == e.samples_per_message,
        e.samples_per_message <= i32::MAX,
        d.use_xor == e.use_xor,
        d.refs == e.refs,
        1 <= ss.len() <= e.samples_per_message,
        ss.len() > 4096 ==> gunzip(
            gzip_best(payload(ss, e.refs, e.use_xor, e.i32_count, e.simple8b())),
        ) == Some(payload(ss, e.refs, e.use_xor, e.i32_count, e.simple8b())),
    ensures
        d.parse(e.frame_of(ss)) matches Ok(p) && p.count == ss.len() && p.ts == ss[0].0 && (
        forall|i: int, j: int|
            0 <= i < e.i32_count && 0 <= j < ss.len() ==> #[trigger] stream_residual(
                p.stream,
                p.count,
                e.i32_count,
                e.simple8b(),
                i,
                j,
            ) == residual(column(ss, e.refs, i), j, e.use_xor)) && (forall|i: int|
            0 <= i < e.i32_count ==> #[trigger] expand(p.runs[i], p.count) == quality_column(
                ss,
                i,
            )),
{
    let m = e.i32_count;
    let n = ss.len();
    let f = e.frame_of(ss);
    let pl = payload(ss, e.refs, e.use_xor, m, e.simple8b());
    let body = if n > 4096 {
        gzip_best(pl)
    } else {
        pl
    };
    crate::encoder::lemma_frame_header(e, ss);
    let vb = varint_bytes(n as i32);
    assert(f =~= e.id + be_bytes(start_time(ss)) + vb + body);
    assert(f.skip(24) =~= vb + body);
    lemma_uvarint_round_trip(zig32(n as i32), body);
    lemma_zig32_round_trip(n as i32);
    assert(f.skip(24 + vb.len() as int) =~= body);
    assert(n < u32::MAX);
    lemma_payload_parses(ss, e.refs, e.use_xor, m, e.simple8b());
    let (st, pos) = stream_at(pl, n, m, e.simple8b()).unwrap();
    let (runs, end) = all_runs_at(pl, pos, n, m).unwrap();
    assert(uvarint_at(f.skip(24), 0) == Some((zig32(n as i32), vb.len())));
    assert(unzig32(zig32(n as i32)) == n as i32);
    assert(f.take(16) == d.id);
    assert(be_u64(f, 16) == ss[0].0);
    let p = Parsed { ts: ss[0].0, count: n, stream: st, runs };
    assert(d.parse(f) == Ok::<Parsed, CodecError>(p));
}

/// Decoding an encoder's frame gives back the samples it was made of: the
/// state a decoder of the same configuration is left in by the frame holds
/// every sample's values and quality words. Frames of more than 4096 samples
/// are covered where flate2 inflates the compressed body back.
pub proof fn lemma_round_trip(
    e: EncoderView,
    d: DecoderView,
    ss: Seq<SampleView>,
    after: DecoderView,
)
    requires
        e.id.len() == 16,
        d.id == e.id,
        d.i32_count == e.i32_count,
        e.i32_count >= 1,
        d.samples_per_message == e.samples_per_message,
        e.samples_per_message <= i32::MAX,
        d.use_xor == e.use_xor,
        d.refs == e.refs,
        valid_refs(e.refs, e.i32_count),
        1 <= ss.len() <= e.samples_per_message,
        forall|j: int| 0 <= j < ss.len() ==> sample_fits(#[trigger] ss[j], e.i32_count),
        ss.len() > 4096 ==> gunzip(
            gzip_best(payload(ss, e.refs, e.use_xor, e.i32_count, e.simple8b())),
        ) == Some(payload(ss, e.refs, e.use_xor, e.i32_count, e.simple8b())),
        after.i32_count == d.i32_count,
        after.samples_per_message == d.samples_per_message,
        after.use_xor == d.use_xor,
        after.refs == d.refs,
        after.out_fits(),
        after.out.len() >= ss.len(),
        d.parse(e.frame_of(ss)) matches Ok(p) ==> after.holds(p),
    ensures
        d.parse(e.frame_of(ss)) is Ok,
        after.decoded == ss.len(),
        forall|j: int|
            0 <= j < ss.len() ==> (#[trigger] after.out[j]).1 == ss[j].1 && after.out[j].2
                == ss[j].2,
{
    lemma_frame_parses(e, d, ss);
    let p = d.parse(e.frame_of(ss)).unwrap();
    let m = e.i32_count;
    let n = ss.len();
    let outs = after.out.take(n as int);
    assert forall|i: int| 0 <= i < m implies #[trigger] column(outs, e.refs, i) == column(
        ss,
        e.refs,
        i,
    ) by {
        assert(residuals(column(outs, e.refs, i), e.use_xor) == Seq::new(
            n,
            |j: int| stream_residual(p.stream, n, m, e.simple8b(), i, j),
        ));
        assert(residuals(column(ss, e.refs, i), e.use_xor) =~= Seq::new(
            n,
            |j: int| stream_residual(p.stream, n, m, e.simple8b(), i, j),
        ));
        lemma_residuals_injective(column(outs, e.refs, i), column(ss, e.refs, i), e.use_xor);
    }
    assert forall|j: int| 0 <= j < n implies (#[trigger] after.out[j]).1 == ss[j].1
        && after.out[j].2 == ss[j].2 by {
        assert forall|i: int| 0 <= i < m implies #[trigger] adjusted(after.out[j], e.refs, i)
            == adjusted(ss[j], e.refs, i) by {
            assert(column(outs, e.refs, i)[j] == column(ss, e.refs, i)[j]);
        }
        assert(sample_fits(ss[j], m));
        lemma_adjusted_injective(after.out[j], ss[j], e.refs, m);
        assert forall|i: int| 0 <= i < m implies after.out[j].2[i] == ss[j].2[i] by {
            assert(quality_column(outs, i) == expand(p.runs[i], n));
            assert(quality_column(outs, i)[j] == quality_column(ss, i)[j]);
        }
        assert(after.out[j].2 =~= ss[j].2);
    }
}

} // verus!
