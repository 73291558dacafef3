//! The decoder: reads a frame back into the samples it carries.
use vstd::prelude::*;
use vstd::slice::{slice_subrange, slice_to_vec};
use crate::{
    create_spatial_refs, get_delta_encoding, spatial_ref_at, spatial_stride, CodecError,
    DatasetWithQuality, QualityHistory, SampleView, SIMPLE8B_THRESHOLD_SAMPLES,
    USE_GZIP_THRESHOLD_SAMPLES,
};
use crate::compress::{gunzip, gzip_decompress};
use crate::delta::{lemma_accumulate_combine, residual, residuals};
use crate::encoding::bitops::{unzig_spec, zig_zag_decode64};
use crate::encoding::simple8b::{be_u64, be_words, decode_words, for_each, read_be_u64, words_needed};
use crate::encoder::lemma_flat_index;
use crate::frame::{adjusted, column, quality_column};
use crate::quality::{expand, expand_runs};
use crate::varint::{unzig32, uvarint32, uvarint_at, varint32};

verus! {

/// The values that a Simple-8b reader collects from `body` when it wants
/// `limit` of them, and the number of words it reads.
pub open spec fn packed_stream(body: Seq<u8>, limit: nat) -> (Seq<u64>, nat) {
    let ws = be_words(body);
    let w = words_needed(ws, limit, 0);
    (decode_words(ws.take(w as int)), w)
}

/// `k` signed varints read one after another from `pos` on, and the index
/// just past them; `None` if one of them is malformed.
pub open spec fn varints_at(b: Seq<u8>, pos: nat, k: nat) -> Option<(Seq<i32>, nat)>
    decreases k,
{
    if k == 0 {
        Some((Seq::empty(), pos))
    } else {
        match varints_at(b, pos, (k - 1) as nat) {
            Some((vs, p)) => match uvarint_at(b.skip(p as int), 0) {
                Some((u, e)) => Some((vs.push(unzig32(u)), p + e)),
                None => None,
            },
            None => None,
        }
    }
}

/// Quality runs read from `pos` on until they cover `left` samples (a run
/// of length 0 covers all of them), and the index just past them.
pub open spec fn runs_at(b: Seq<u8>, pos: nat, left: nat) -> Option<(Seq<QualityHistory>, nat)>
    decreases left,
{
    if left == 0 {
        Some((Seq::empty(), pos))
    } else {
        match uvarint_at(b.skip(pos as int), 0) {
            Some((v, e1)) => match uvarint_at(b.skip((pos + e1) as int), 0) {
                Some((s, e2)) => {
                    let h = QualityHistory { value: v, samples: s };
                    if s == 0 || s >= left {
                        Some((seq![h], pos + e1 + e2))
                    } else {
                        match runs_at(b, pos + e1 + e2, (left - s) as nat) {
                            Some((rs, end)) => Some((seq![h] + rs, end)),
                            None => None,
                        }
                    }
                },
                None => None,
            },
            None => None,
        }
    }
}

/// The quality runs of the first `m` variables, each covering `count`
/// samples, read one variable after another from `pos` on.
pub open spec fn all_runs_at(b: Seq<u8>, pos: nat, count: nat, m: nat) -> Option<
    (Seq<Seq<QualityHistory>>, nat),
>
    decreases m,
{
    if m == 0 {
        Some((Seq::empty(), pos))
    } else {
        match all_runs_at(b, pos, count, (m - 1) as nat) {
            Some((rss, p)) => match runs_at(b, p, count) {
                Some((rs, end)) => Some((rss.push(rs), end)),
                None => None,
            },
            None => None,
        }
    }
}

/// Reads `count` residuals of each of `m` variables from Simple-8b words at
/// the front of `body`: variable by variable, in order of time. Also returns
/// the number of bytes the words take.
fn read_packed(body: &[u8], count: usize, m: usize) -> (r: Result<(Vec<i32>, usize), CodecError>)
    requires
        count * m <= usize::MAX,
    ensures
        ({
            let (vals, w) = packed_stream(body@, (count * m) as nat);
            &&& vals.len() < count * m ==> r == Err::<(Vec<i32>, usize), CodecError>(
                CodecError::Truncated,
            )
            &&& vals.len() >= count * m ==> (r matches Ok((rs, end)) && end == 8 * w && end
                <= body@.len() && rs@ == Seq::new(
                (count * m) as nat,
                |k: int| unzig_spec(vals[k]) as i32,
            ))
        }),
{
    let limit = count * m;
    let blen = body.len();
    let (vals, w) = for_each(body, limit);
    if vals.len() < limit {
        return Err(CodecError::Truncated);
    }
    let mut rs: Vec<i32> = Vec::new();
    let mut k: usize = 0;
    while k < limit
        invariant
            k <= limit,
            vals@.len() == limit,
            rs@ =~= Seq::new(k as nat, |k2: int| unzig_spec(vals@[k2]) as i32),
        decreases limit - k,
    {
        rs.push(zig_zag_decode64(vals[k]) as i32);
        k += 1;
    }
    assert(8 * w <= blen);
    Ok((rs, 8 * w))
}

/// Reads `k` signed varints one after another from the front of `body`;
/// also returns the number of bytes they take.
fn read_varints(body: &[u8], k: usize) -> (r: Result<(Vec<i32>, usize), CodecError>)
    ensures
        varints_at(body@, 0, k as nat) is None ==> r == Err::<(Vec<i32>, usize), CodecError>(
            CodecError::VarintOverflow,
        ),
        varints_at(body@, 0, k as nat) matches Some((vs, end)) ==> (r matches Ok((v, e)) && v@
            == vs && e == end),
{
    let mut vs: Vec<i32> = Vec::new();
    let mut pos: usize = 0;
    let mut n: usize = 0;
    while n < k
        invariant
            n <= k,
            pos <= body@.len(),
            varints_at(body@, 0, n as nat) == Some((vs@, pos as nat)),
        decreases k - n,
    {
        let rest = slice_subrange(body, pos, body.len());
        assert(rest@ =~= body@.skip(pos as int));
        match varint32(rest) {
            Ok((v, len)) => {
                proof {
                    lemma_uvarint_at_len(rest@);
                }
                vs.push(v);
                pos = pos + len;
            },
            Err(e) => {
                proof {
                    lemma_varints_none(body@, n as nat, k as nat);
                }
                return Err(e);
            },
        }
        n += 1;
    }
    Ok((vs, pos))
}

/// A varint takes at least one byte and no more than are there.
pub proof fn lemma_uvarint_at_len(s: Seq<u8>)
    ensures
        uvarint_at(s, 0) matches Some((v, e)) ==> 1 <= e <= s.len(),
{
    lemma_uvarint_at_len_from(s, 0);
}

proof fn lemma_uvarint_at_len_from(s: Seq<u8>, i: nat)
    ensures
        uvarint_at(s, i) matches Some((v, e)) ==> i + 1 <= e <= s.len(),
    decreases 5 - i,
{
    if i < 5 && i < s.len() && s[i as int] >= 0x80 {
        lemma_uvarint_at_len_from(s, i + 1);
    }
}

proof fn lemma_varints_none(b: Seq<u8>, n: nat, k: nat)
    requires
        n < k,
        varints_at(b, 0, (n + 1) as nat) is None,
    ensures
        varints_at(b, 0, k) is None,
    decreases k - n,
{
    if n + 1 < k {
        lemma_varints_none(b, n + 1, k);
    }
}

/// Reads the quality runs of one variable from `b[pos..]`, until they cover
/// `count` samples; also returns the index just past them.
fn read_runs(b: &[u8], pos: usize, count: usize) -> (r: Result<(Vec<QualityHistory>, usize), CodecError>)
    requires
        pos <= b@.len(),
    ensures
        runs_at(b@, pos as nat, count as nat) is None ==> r == Err::<
            (Vec<QualityHistory>, usize),
            CodecError,
        >(CodecError::VarintOverflow),
        runs_at(b@, pos as nat, count as nat) matches Some((rs, end)) ==> (r matches Ok((v, e))
            && v@ == rs && e == end),
{
    let mut runs: Vec<QualityHistory> = Vec::new();
    let mut p: usize = pos;
    let mut left: usize = count;
    proof {
        match runs_at(b@, pos as nat, count as nat) {
            Some((rs, e)) => {
                assert(Seq::<QualityHistory>::empty() + rs =~= rs);
            },
            None => {},
        }
    }
    while left > 0
        invariant
            p <= b@.len(),
            left <= count,
            runs_at(b@, pos as nat, count as nat) == match runs_at(b@, p as nat, left as nat) {
                Some((rs, e)) => Some((runs@ + rs, e)),
                None => None::<(Seq<QualityHistory>, nat)>,
            },
        decreases left,
    {
        let rest = slice_subrange(b, p, b.len());
        assert(rest@ =~= b@.skip(p as int));
        proof {
            lemma_uvarint_at_len(rest@);
        }
        let (v, e1) = uvarint32(rest)?;
        let p1 = p + e1;
        let rest1 = slice_subrange(b, p1, b.len());
        assert(rest1@ =~= b@.skip(p1 as int));
        proof {
            lemma_uvarint_at_len(rest1@);
        }
        let (smp, e2) = uvarint32(rest1)?;
        let h = QualityHistory { value: v, samples: smp };
        let ghost before = runs@;
        runs.push(h);
        p = p1 + e2;
        if smp == 0 || smp as usize >= left {
            assert(runs_at(b@, p as nat, 0) == Some((Seq::<QualityHistory>::empty(), p as nat)));
            assert(before + seq![h] =~= runs@ + Seq::<QualityHistory>::empty());
            left = 0;
        } else {
            proof {
                match runs_at(b@, p as nat, (left - smp) as nat) {
                    Some((rs, e)) => {
                        assert(before + (seq![h] + rs) =~= runs@ + rs);
                    },
                    None => {},
                }
            }
            left = left - smp as usize;
        }
    }
    assert(runs@ + Seq::<QualityHistory>::empty() =~= runs@);
    Ok((runs, p))
}

/// Reads the quality runs of `m` variables, each covering `count` samples,
/// one variable after another from `b[pos..]`; also returns the index just
/// past them.
fn read_all_runs(b: &[u8], pos: usize, count: usize, m: usize) -> (r: Result<
    (Vec<Vec<QualityHistory>>, usize),
    CodecError,
>)
    requires
        pos <= b@.len(),
    ensures
        all_runs_at(b@, pos as nat, count as nat, m as nat) is None ==> r == Err::<
            (Vec<Vec<QualityHistory>>, usize),
            CodecError,
        >(CodecError::VarintOverflow),
        all_runs_at(b@, pos as nat, count as nat, m as nat) matches Some((rss, end)) ==> (
        r matches Ok((v, e)) && v@.len() == rss.len() && (forall|i: int|
            0 <= i < rss.len() ==> (#[trigger] v@[i])@ == rss[i]) && e == end),
{
    let mut all: Vec<Vec<QualityHistory>> = Vec::new();
    let mut p: usize = pos;
    let mut i: usize = 0;
    while i < m
        invariant
            i <= m,
            p <= b@.len(),
            all_runs_at(b@, pos as nat, count as nat, i as nat) matches Some((rss, end)) && all@.len()
                == rss.len() && (forall|k: int| 0 <= k < rss.len() ==> (#[trigger] all@[k])@
                == rss[k]) && p == end,
        decreases m - i,
    {
        match read_runs(b, p, count) {
            Ok((runs, end)) => {
                proof {
                    lemma_runs_at_end(b@, p as nat, count as nat);
                }
                let ghost before = all@;
                all.push(runs);
                proof {
                    let (rss, e0) = all_runs_at(b@, pos as nat, count as nat, i as nat).unwrap();
                    assert forall|k: int| 0 <= k < rss.len() + 1 implies (#[trigger] all@[k])@
                        == rss.push(runs@)[k] by {
                        if k < rss.len() {
                            assert(all@[k] == before[k]);
                        }
                    }
                }
                p = end;
            },
            Err(e) => {
                proof {
                    lemma_all_runs_none(b@, pos as nat, count as nat, i as nat, m as nat);
                }
                return Err(e);
            },
        }
        i += 1;
    }
    Ok((all, p))
}

proof fn lemma_runs_at_end(b: Seq<u8>, pos: nat, left: nat)
    requires
        pos <= b.len(),
    ensures
        runs_at(b, pos, left) matches Some((rs, end)) ==> pos <= end <= b.len(),
    decreases left,
{
    if left > 0 {
        lemma_uvarint_at_len(b.skip(pos as int));
        match uvarint_at(b.skip(pos as int), 0) {
            Some((v, e1)) => {
                lemma_uvarint_at_len(b.skip((pos + e1) as int));
                match uvarint_at(b.skip((pos + e1) as int), 0) {
                    Some((s, e2)) => {
                        if !(s == 0 || s >= left) {
                            lemma_runs_at_end(b, pos + e1 + e2, (left - s) as nat);
                        }
                    },
                    None => {},
                }
            },
            None => {},
        }
    }
}

proof fn lemma_all_runs_none(b: Seq<u8>, pos: nat, count: nat, i: nat, m: nat)
    requires
        i < m,
        all_runs_at(b, pos, count, i + 1) is None,
    ensures
        all_runs_at(b, pos, count, m) is None,
    decreases m - i,
{
    if i + 1 < m {
        lemma_all_runs_none(b, pos, count, i + 1, m);
    }
}

/// Builds output sample `j` from the rebuilt values `xs` (before spatial
/// references are added back) and quality words `qs` of every variable:
/// each variable whose reference is set gets the reference's final value
/// added, in order of variables.
fn build_row(
    xs: &Vec<Vec<i32>>,
    qs: &Vec<Vec<u32>>,
    refs: &Vec<Option<usize>>,
    j: usize,
    t: u64,
) -> (r: DatasetWithQuality)
    requires
        xs@.len() == refs@.len(),
        qs@.len() == refs@.len(),
        forall|i: int| 0 <= i < refs@.len() ==> j < (#[trigger] xs@[i])@.len(),
        forall|i: int| 0 <= i < refs@.len() ==> j < (#[trigger] qs@[i])@.len(),
        forall|i: int| 0 <= i < refs@.len() ==> (#[trigger] refs@[i] matches Some(k) ==> k < i),
    ensures
        r@.0 == t,
        r@.1.len() == refs@.len(),
        r@.2 == Seq::new(refs@.len(), |i: int| qs@[i]@[j as int]),
        forall|i: int| 0 <= i < refs@.len() ==> #[trigger] adjusted(r@, refs@, i) == xs@[i]@[j as int],
{
    let m = refs.len();
    let mut vals: Vec<i32> = Vec::new();
    let mut q: Vec<u32> = Vec::new();
    let mut i: usize = 0;
    while i < m
        invariant
            m == refs@.len(),
            xs@.len() == m,
            qs@.len() == m,
            forall|i2: int| 0 <= i2 < m ==> j < (#[trigger] xs@[i2])@.len(),
            forall|i2: int| 0 <= i2 < m ==> j < (#[trigger] qs@[i2])@.len(),
            forall|i2: int| 0 <= i2 < m ==> (#[trigger] refs@[i2] matches Some(k) ==> k < i2),
            i <= m,
            vals@.len() == i,
            q@ == Seq::new(i as nat, |i2: int| qs@[i2]@[j as int]),
            forall|i2: int| 0 <= i2 < i ==> #[trigger] adjusted((t, vals@, q@), refs@, i2)
                == xs@[i2]@[j as int],
        decreases m - i,
    {
        let x = xs[i][j];
        let v = match refs[i] {
            Some(k) => x.wrapping_add(vals[k]),
            None => x,
        };
        let ghost before = vals@;
        vals.push(v);
        q.push(qs[i][j]);
        proof {
            assert(q@ =~= Seq::new((i + 1) as nat, |i2: int| qs@[i2]@[j as int]));
            assert forall|i2: int| 0 <= i2 < i + 1 implies #[trigger] adjusted(
                (t, vals@, q@),
                refs@,
                i2,
            ) == xs@[i2]@[j as int] by {
                if i2 < i {
                    assert(adjusted((t, before, Seq::new(i as nat, |i3: int| qs@[i3]@[j as int])), refs@, i2) == xs@[i2]@[j as int]);
                } else {
                    match refs@[i2] {
                        Some(k) => {
                            lemma_accumulate_combine(x, vals@[k as int], false);
                        },
                        None => {},
                    }
                }
            }
        }
        i += 1;
    }
    DatasetWithQuality { t, i32s: vals, q }
}

/// The residual streams of `count` samples of `m` variables at the front
/// of `body`: Simple-8b words variable by variable, or varints sample by
/// sample. Also the index just past them.
pub open spec fn stream_at(body: Seq<u8>, count: nat, m: nat, simple8b: bool) -> Option<
    (Seq<i32>, nat),
> {
    if simple8b {
        let (vals, w) = packed_stream(body, count * m);
        if vals.len() < count * m {
            None
        } else {
            Some((Seq::new(count * m, |k: int| unzig_spec(vals[k]) as i32), 8 * w))
        }
    } else {
        varints_at(body, 0, count * m)
    }
}

/// Residual `j` of variable `i` in a stream of `count` samples of `m`
/// variables.
pub open spec fn stream_residual(
    stream: Seq<i32>,
    count: nat,
    m: nat,
    simple8b: bool,
    i: int,
    j: int,
) -> i32 {
    if simple8b {
        stream[i * count + j]
    } else {
        stream[j * m + i]
    }
}

/// What a frame holds, as read: the start timestamp, the sample count, the
/// residual stream and each variable's quality runs.
pub struct Parsed {
    pub ts: u64,
    pub count: nat,
    pub stream: Seq<i32>,
    pub runs: Seq<Seq<QualityHistory>>,
}

/// Reads the frame `b` for a stream with identifier `id`, messages of `n`
/// samples and `m` variables, or says why it cannot be read.
pub open spec fn parse_frame(b: Seq<u8>, id: Seq<u8>, n: nat, m: nat, simple8b: bool) -> Result<
    Parsed,
    CodecError,
> {
    if b.len() < 16 {
        Err(CodecError::Truncated)
    } else if b.take(16) != id {
        Err(CodecError::IdMismatch)
    } else if b.len() < 24 {
        Err(CodecError::Truncated)
    } else {
        match uvarint_at(b.skip(24), 0) {
            None => Err(CodecError::VarintOverflow),
            Some((u, e)) => {
                let raw = unzig32(u);
                if raw < 0 {
                    Err(CodecError::VarintOverflow)
                } else {
                    let count: nat = if raw <= n {
                        raw as nat
                    } else {
                        n
                    };
                    let raw_body = b.skip(24 + e as int);
                    let body_opt = if count > USE_GZIP_THRESHOLD_SAMPLES {
                        gunzip(raw_body)
                    } else {
                        Some(raw_body)
                    };
                    match body_opt {
                        None => Err(CodecError::InflateError),
                        Some(body) => match stream_at(body, count, m, simple8b) {
                            None => Err(
                                if simple8b {
                                    CodecError::Truncated
                                } else {
                                    CodecError::VarintOverflow
                                },
                            ),
                            Some((stream, pos)) => match all_runs_at(body, pos, count, m) {
                                None => Err(CodecError::VarintOverflow),
                                Some((runs, end)) => Ok(
                                    Parsed { ts: be_u64(b, 16), count, stream, runs },
                                ),
                            },
                        },
                    }
                }
            },
        }
    }
}

/// A decoder as plain values: its configuration, its output samples and
/// how many of them the last frame filled.
pub struct DecoderView {
    pub id: Seq<u8>,
    pub i32_count: nat,
    pub sampling_rate: nat,
    pub samples_per_message: nat,
    pub use_xor: bool,
    pub refs: Seq<Option<usize>>,
    pub out: Seq<SampleView>,
    pub decoded: nat,
}

impl DecoderView {
    /// Whether the values are packed with Simple-8b rather than varints.
    pub open spec fn simple8b(&self) -> bool {
        self.samples_per_message > SIMPLE8B_THRESHOLD_SAMPLES
    }

    /// Reads the frame `b` under this configuration.
    pub open spec fn parse(&self, b: Seq<u8>) -> Result<Parsed, CodecError> {
        parse_frame(b, self.id, self.samples_per_message, self.i32_count, self.simple8b())
    }

    /// Whether every output sample has a value and a quality word for each
    /// variable.
    pub open spec fn out_fits(&self) -> bool {
        forall|j: int|
            0 <= j < self.out.len() ==> (#[trigger] self.out[j]).1.len() == self.i32_count
                && self.out[j].2.len() == self.i32_count
    }

    /// Whether the output holds what the frame `p` says: every variable's
    /// adjusted values have the residuals of the frame, the quality words
    /// are those the runs spell out, and the first sample carries the
    /// frame's timestamp, the others their index.
    pub open spec fn holds(&self, p: Parsed) -> bool {
        let outs = self.out.take(p.count as int);
        &&& self.decoded == p.count
        &&& forall|i: int|
            0 <= i < self.i32_count ==> #[trigger] residuals(column(outs, self.refs, i), self.use_xor)
                == Seq::new(
                p.count,
                |j: int|
                    stream_residual(p.stream, p.count, self.i32_count, self.simple8b(), i, j),
            )
        &&& forall|i: int|
            0 <= i < self.i32_count ==> #[trigger] quality_column(outs, i) == expand(
                p.runs[i],
                p.count,
            )
        &&& p.count > 0 ==> self.out[0].0 == p.ts
        &&& forall|j: int| 1 <= j < p.count ==> #[trigger] self.out[j].0 == j
    }
}

/// Decodes frames of `samples_per_message` samples of `i32_count`
/// variables into a buffer of samples allocated once.
pub struct Decoder {
    pub id: [u8; 16],
    pub sampling_rate: usize,
    pub samples_per_message: usize,
    encoded_samples: usize,
    pub i32_count: usize,
    pub out: Vec<DatasetWithQuality>,
    using_simple8b: bool,
    delta_encoding_layers: usize,
    /// Use XOR delta instead of arithmetic delta.
    pub use_xor: bool,
    spatial_ref: Vec<Option<usize>>,
}

impl View for Decoder {
    type V = DecoderView;

    closed spec fn view(&self) -> DecoderView {
        DecoderView {
            id: self.id@,
            i32_count: self.i32_count as nat,
            sampling_rate: self.sampling_rate as nat,
            samples_per_message: self.samples_per_message as nat,
            use_xor: self.use_xor,
            refs: self.spatial_ref@,
            out: self.out@.map_values(|s: DatasetWithQuality| s@),
            decoded: self.encoded_samples as nat,
        }
    }
}

impl Decoder {
    /// The configuration is consistent and the output buffer is in shape.
    pub closed spec fn wf(&self) -> bool {
        let m = self.i32_count as int;
        let n = self.samples_per_message as int;
        &&& m >= 1
        &&& n >= 1
        &&& m * n <= usize::MAX
        &&& self.using_simple8b == (n > SIMPLE8B_THRESHOLD_SAMPLES)
        &&& self.delta_encoding_layers == 3
        &&& self.spatial_ref@.len() == m
        &&& forall|i: int|
            0 <= i < m ==> (#[trigger] self.spatial_ref@[i] matches Some(r) ==> r < i)
        &&& self.out@.len() == n
        &&& forall|j: int|
            0 <= j < n ==> (#[trigger] self.out@[j]).i32s@.len() == m && self.out@[j].q@.len()
                == m
        &&& self.encoded_samples <= n
    }

    /// A decoder for messages of `samples_per_message` samples of
    /// `i32_count` variables.
    pub fn new(id: [u8; 16], i32_count: usize, sampling_rate: usize, samples_per_message: usize) -> (r:
        Decoder)
        requires
            i32_count >= 1,
            samples_per_message >= 1,
            i32_count * samples_per_message <= usize::MAX,
        ensures
            r.wf(),
            r@.out_fits(),
            r@.id == id@,
            r@.i32_count == i32_count,
            r@.sampling_rate == sampling_rate,
            r@.samples_per_message == samples_per_message,
            !r@.use_xor,
            r@.refs == Seq::new(i32_count as nat, |i: int| None::<usize>),
            r@.decoded == 0,
            r@.out.len() == samples_per_message,
    {
        let mut out: Vec<DatasetWithQuality> = Vec::new();
        let mut k: usize = 0;
        while k < samples_per_message
            invariant
                k <= samples_per_message,
                out@.len() == k,
                forall|j: int|
                    0 <= j < k ==> (#[trigger] out@[j]).i32s@.len() == i32_count && out@[j].q@.len()
                        == i32_count,
            decreases samples_per_message - k,
        {
            out.push(DatasetWithQuality::new(i32_count));
            k += 1;
        }
        let mut spatial_ref: Vec<Option<usize>> = Vec::new();
        k = 0;
        while k < i32_count
            invariant
                k <= i32_count,
                spatial_ref@.len() == k,
                forall|i: int| 0 <= i < k ==> #[trigger] spatial_ref@[i] == None::<usize>,
            decreases i32_count - k,
        {
            spatial_ref.push(None);
            k += 1;
        }
        assert(spatial_ref@ =~= Seq::new(i32_count as nat, |i: int| None::<usize>));
        Decoder {
            id,
            sampling_rate,
            samples_per_message,
            encoded_samples: 0,
            i32_count,
            out,
            using_simple8b: samples_per_message > SIMPLE8B_THRESHOLD_SAMPLES,
            delta_encoding_layers: get_delta_encoding(sampling_rate),
            use_xor: false,
            spatial_ref,
        }
    }

    /// Sets the spatial reference map built by `create_spatial_refs`.
    pub fn set_spatial_refs(
        &mut self,
        count: usize,
        count_v: usize,
        count_i: usize,
        include_neutral: bool,
    )
        requires
            old(self).wf(),
            count == old(self)@.i32_count,
            (count_v + count_i + 1) * 4 <= usize::MAX,
        ensures
            final(self).wf(),
            final(self)@ == (DecoderView { refs: final(self)@.refs, ..old(self)@ }),
            final(self)@.refs.len() == count,
            forall|i: int|
                0 <= i < count ==> #[trigger] final(self)@.refs[i] == spatial_ref_at(
                    i,
                    count_v as int,
                    count_i as int,
                    spatial_stride(include_neutral),
                ),
    {
        self.spatial_ref = create_spatial_refs(count, count_v, count_i, include_neutral);
        proof {
            let refs = self.spatial_ref@;
            assert forall|i: int| 0 <= i < count implies (#[trigger] refs[i] matches Some(r) ==> r
                < i) by {
                assert(refs[i] == spatial_ref_at(
                    i,
                    count_v as int,
                    count_i as int,
                    spatial_stride(include_neutral),
                ));
            }
        }
    }

    /// Chooses XOR delta (true) or arithmetic delta (false).
    pub fn set_xor(&mut self, xor: bool)
        requires
            old(self).wf(),
        ensures
            final(self).wf(),
            final(self)@ == (DecoderView { use_xor: xor, ..old(self)@ }),
    {
        self.use_xor = xor;
    }

    /// How many samples the last frame filled.
    pub fn decoded_samples(&self) -> (r: usize)
        ensures
            r == self@.decoded,
    {
        self.encoded_samples
    }

    /// Decodes the frame `buf` into `out`: on success the first
    /// `decoded_samples()` samples of `out` hold the message. On any error
    /// nothing is changed.
    pub fn decode_to_buffer(&mut self, buf: &[u8], _total_length: usize) -> (r: Result<(), CodecError>)
        requires
            old(self).wf(),
        ensures
            final(self).wf(),
            final(self)@.out_fits(),
            final(self)@.out.len() == final(self)@.samples_per_message,
            match old(self)@.parse(buf@) {
                Ok(p) => r is Ok && final(self)@.holds(p) && final(self)@ == (DecoderView {
                    out: final(self)@.out,
                    decoded: p.count,
                    ..old(self)@
                }),
                Err(e) => r == Err::<(), CodecError>(e) && final(self)@ == old(self)@,
            },
    {
        let ghost b = buf@;
        let m = self.i32_count;
        let n = self.samples_per_message;
        if buf.len() < 16 {
            return Err(CodecError::Truncated);
        }
        if !id_matches(buf, &self.id) {
            return Err(CodecError::IdMismatch);
        }
        if buf.len() < 24 {
            return Err(CodecError::Truncated);
        }
        let ts = read_be_u64(buf, 16);
        let rest = slice_subrange(buf, 24, buf.len());
        assert(rest@ =~= buf@.skip(24));
        let (raw, e) = varint32(rest)?;
        proof {
            lemma_uvarint_at_len(rest@);
        }
        if raw < 0 {
            return Err(CodecError::VarintOverflow);
        }
        let count: usize = if (raw as usize) <= n {
            raw as usize
        } else {
            n
        };
        assert(count * m <= usize::MAX) by (nonlinear_arith)
            requires
                count <= n,
                m * n <= usize::MAX,
        ;
        let raw_body = slice_subrange(buf, 24 + e, buf.len());
        assert(raw_body@ =~= buf@.skip(24 + e as int));
        let body: Vec<u8> = if count > USE_GZIP_THRESHOLD_SAMPLES {
            match gzip_decompress(raw_body) {
                Ok(z) => z,
                Err(_) => {
                    return Err(CodecError::InflateError);
                },
            }
        } else {
            slice_to_vec(raw_body)
        };
        let (stream, pos) = if self.using_simple8b {
            read_packed(body.as_slice(), count, m)?
        } else {
            read_varints(body.as_slice(), count * m)?
        };
        let ghost p_opt = stream_at(body@, count as nat, m as nat, self.using_simple8b);
        assert(p_opt == Some((stream@, pos as nat)));
        proof {
            lemma_varints_end(body@, (count * m) as nat);
        }
        let (runs, _end) = read_all_runs(body.as_slice(), pos, count, m)?;
        proof {
            lemma_all_runs_len(body@, pos as nat, count as nat, m as nat);
            lemma_all_runs_cover(body@, pos as nat, count as nat, m as nat);
        }
        let ghost parsed = old(self)@.parse(buf@).unwrap();
        assert(parsed.stream == stream@ && parsed.count == count && parsed.ts == ts);
        // rebuild every variable's values and quality words
        let mut xs: Vec<Vec<i32>> = Vec::new();
        let mut qs: Vec<Vec<u32>> = Vec::new();
        let mut i: usize = 0;
        while i < m
            invariant
                m == self.i32_count,
                n == self.samples_per_message,
                count <= n,
                count * m <= usize::MAX,
                stream@.len() == count * m,
                runs@.len() == m,
                forall|i2: int| 0 <= i2 < m ==> (#[trigger] runs@[i2])@ == parsed.runs[i2],
                i <= m,
                xs@.len() == i,
                qs@.len() == i,
                forall|i2: int|
                    0 <= i2 < i ==> #[trigger] residuals(xs@[i2]@, self.use_xor) == Seq::new(
                        count as nat,
                        |j: int|
                            stream_residual(
                                stream@,
                                count as nat,
                                m as nat,
                                self.using_simple8b,
                                i2,
                                j,
                            ),
                    ),
                forall|i2: int|
                    0 <= i2 < i ==> (#[trigger] qs@[i2])@ == expand(parsed.runs[i2], count as nat),
                forall|i2: int| 0 <= i2 < i ==> (#[trigger] xs@[i2])@.len() == count,
                forall|i2: int| 0 <= i2 < i ==> (#[trigger] qs@[i2])@.len() == count,
                forall|i2: int| 0 <= i2 < m ==> #[trigger] expand(parsed.runs[i2], count as nat).len() == count,
            decreases m - i,
        {
            let ghost want = Seq::new(
                count as nat,
                |j: int| stream_residual(stream@, count as nat, m as nat, self.using_simple8b, i as int, j),
            );
            let mut rs: Vec<i32> = Vec::new();
            let mut j: usize = 0;
            while j < count
                invariant
                    m == self.i32_count,
                    count * m <= usize::MAX,
                    stream@.len() == count * m,
                    i < m,
                    j <= count,
                    want == Seq::new(
                        count as nat,
                        |j2: int| stream_residual(stream@, count as nat, m as nat, self.using_simple8b, i as int, j2),
                    ),
                    rs@ == want.take(j as int),
                decreases count - j,
            {
                let x = if self.using_simple8b {
                    proof {
                        lemma_flat_index(i as int, j as int, m as int, count as int);
                        assert(i * count + j < count * m) by (nonlinear_arith)
                            requires
                                i * count + j < m * count,
                        ;
                    }
                    stream[i * count + j]
                } else {
                    proof {
                        lemma_flat_index(j as int, i as int, count as int, m as int);
                    }
                    stream[j * m + i]
                };
                rs.push(x);
                assert(rs@ =~= want.take(j + 1));
                j += 1;
            }
            assert(rs@ =~= want);
            let col = crate::delta::undelta(rs.as_slice(), self.use_xor);
            assert(residuals(col@, self.use_xor).len() == col@.len());
            xs.push(col);
            let qcol = expand_runs(runs[i].as_slice(), count);
            qs.push(qcol);
            i += 1;
        }
        // write the samples
        let mut j: usize = 0;
        while j < count
            invariant
                old(self).wf(),
                m == self.i32_count,
                n == self.samples_per_message,
                count <= n,
                self.out@.len() == n,
                self.i32_count == old(self).i32_count,
                self.samples_per_message == old(self).samples_per_message,
                self.spatial_ref@ == old(self).spatial_ref@,
                self.id == old(self).id,
                self.sampling_rate == old(self).sampling_rate,
                self.use_xor == old(self).use_xor,
                self.using_simple8b == old(self).using_simple8b,
                self.delta_encoding_layers == old(self).delta_encoding_layers,
                self.encoded_samples == old(self).encoded_samples,
                xs@.len() == m,
                qs@.len() == m,
                forall|i2: int| 0 <= i2 < m ==> (#[trigger] xs@[i2])@.len() == count,
                forall|i2: int| 0 <= i2 < m ==> (#[trigger] qs@[i2])@.len() == count,
                j <= count,
                forall|j2: int|
                    0 <= j2 < n ==> (#[trigger] self.out@[j2]).i32s@.len() == m
                        && self.out@[j2].q@.len() == m,
                forall|j2: int|
                    j <= j2 < n ==> #[trigger] self.out@[j2] == old(self).out@[j2],
                forall|j2: int, i2: int|
                    0 <= j2 < j && 0 <= i2 < m ==> #[trigger] adjusted(
                        self.out@[j2]@,
                        self.spatial_ref@,
                        i2,
                    ) == xs@[i2]@[j2],
                forall|j2: int|
                    0 <= j2 < j ==> (#[trigger] self.out@[j2]).q@ == Seq::new(
                        m as nat,
                        |i2: int| qs@[i2]@[j2],
                    ),
                forall|j2: int|
                    0 <= j2 < j ==> (#[trigger] self.out@[j2]).t == if j2 == 0 {
                        ts
                    } else {
                        j2 as u64
                    },
            decreases count - j,
        {
            let t: u64 = if j == 0 {
                ts
            } else {
                j as u64
            };
            let row = build_row(&xs, &qs, &self.spatial_ref, j, t);
            self.out.set(j, row);
            j += 1;
        }
        self.encoded_samples = count;
        proof {
            let v = self@;
            let outs = v.out.take(count as int);
            assert forall|i2: int| 0 <= i2 < m implies #[trigger] residuals(
                column(outs, v.refs, i2),
                v.use_xor,
            ) == Seq::new(
                count as nat,
                |j2: int| stream_residual(parsed.stream, count as nat, m as nat, v.simple8b(), i2, j2),
            ) by {
                assert(column(outs, v.refs, i2) =~= xs@[i2]@);
            }
            assert forall|i2: int| 0 <= i2 < m implies #[trigger] quality_column(outs, i2) == expand(
                parsed.runs[i2],
                count as nat,
            ) by {
                assert(quality_column(outs, i2) =~= qs@[i2]@);
            }
            assert forall|j2: int| 1 <= j2 < count implies #[trigger] v.out[j2].0 == j2 by {}
            assert(v.out.len() == old(self)@.out.len());
        }
        Ok(())
    }
}

/// Whether the frame `buf` starts with the identifier `id`.
fn id_matches(buf: &[u8], id: &[u8; 16]) -> (r: bool)
    requires
        buf@.len() >= 16,
    ensures
        r == (buf@.take(16) == id@),
{
    let mut k: usize = 0;
    while k < 16
        invariant
            k <= 16,
            buf@.len() >= 16,
            forall|k2: int| 0 <= k2 < k ==> buf@[k2] == id@[k2],
        decreases 16 - k,
    {
        if buf[k] != id[k] {
            assert(buf@.take(16)[k as int] != id@[k as int]);
            return false;
        }
        k += 1;
    }
    assert(buf@.take(16) =~= id@);
    true
}

proof fn lemma_runs_cover(b: Seq<u8>, pos: nat, left: nat)
    ensures
        runs_at(b, pos, left) matches Some((rs, end)) ==> expand(rs, left).len() == left,
    decreases left,
{
    if left > 0 {
        match uvarint_at(b.skip(pos as int), 0) {
            Some((v, e1)) => match uvarint_at(b.skip((pos + e1) as int), 0) {
                Some((s, e2)) => {
                    let h = QualityHistory { value: v, samples: s };
                    if !(s == 0 || s >= left) {
                        lemma_runs_cover(b, pos + e1 + e2, (left - s) as nat);
                        match runs_at(b, pos + e1 + e2, (left - s) as nat) {
                            Some((rs, end)) => {
                                assert((seq![h] + rs).skip(1) =~= rs);
                                assert((seq![h] + rs)[0] == h);
                            },
                            None => {},
                        }
                    }
                },
                None => {},
            },
            None => {},
        }
    }
}

proof fn lemma_all_runs_cover(b: Seq<u8>, pos: nat, count: nat, m: nat)
    ensures
        all_runs_at(b, pos, count, m) matches Some((rss, end)) ==> forall|i: int|
            0 <= i < m ==> #[trigger] expand(rss[i], count).len() == count,
    decreases m,
{
    if m > 0 {
        lemma_all_runs_cover(b, pos, count, (m - 1) as nat);
        lemma_all_runs_len(b, pos, count, (m - 1) as nat);
        match all_runs_at(b, pos, count, (m - 1) as nat) {
            Some((rss, p)) => {
                lemma_runs_cover(b, p, count);
            },
            None => {},
        }
    }
}

proof fn lemma_all_runs_len(b: Seq<u8>, pos: nat, count: nat, m: nat)
    ensures
        all_runs_at(b, pos, count, m) matches Some((rss, end)) ==> rss.len() == m,
    decreases m,
{
    if m > 0 {
        lemma_all_runs_len(b, pos, count, (m - 1) as nat);
    }
}

proof fn lemma_varints_end(b: Seq<u8>, k: nat)
    ensures
        varints_at(b, 0, k) matches Some((vs, end)) ==> end <= b.len() && vs.len() == k,
    decreases k,
{
    if k > 0 {
        lemma_varints_end(b, (k - 1) as nat);
        match varints_at(b, 0, (k - 1) as nat) {
            Some((vs, p)) => {
                lemma_uvarint_at_len(b.skip(p as int));
            },
            None => {},
        }
    }
}

/// A decoder rejects every frame of an encoder with another identifier:
/// `decode_to_buffer` then returns `IdMismatch` and changes nothing.
pub proof fn lemma_id_mismatch(e: crate::encoder::EncoderView, d: DecoderView, ss: Seq<SampleView>)
    requires
        e.id.len() == 16,
        d.id.len() == 16,
        e.id != d.id,
    ensures
        d.parse(e.frame_of(ss)) == Err::<Parsed, CodecError>(CodecError::IdMismatch),
{
    crate::encoder::lemma_frame_header(e, ss);
}

} // verus!
