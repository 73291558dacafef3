//! The encoder: takes one sample at a time and emits a frame once a message
//! is complete.
use vstd::prelude::*;
use crate::{
    create_spatial_refs, get_delta_encoding, spatial_ref_at, spatial_stride, CodecError,
    DatasetWithQuality, QualityHistory, SampleView, SIMPLE8B_THRESHOLD_SAMPLES,
    USE_GZIP_THRESHOLD_SAMPLES,
};
use crate::compress::gzip_compress;
use crate::delta::{delta_step, holds_layers, lemma_residual_prefix, residual, residuals};
use crate::encoding::bitops::zig_zag_encode64;
use crate::encoding::simple8b::{
    be_u64, lemma_be_round_trip, encode_all_ref, greedy_words, lemma_greedy_succeeds, push_be_u64, words_to_bytes, MAX_VALUE,
};
use crate::frame::{adjusted, column, frame, frame_header, packed_section, payload, quality_column, quality_section, runs_bytes, start_time, varint_row, varint_section, zig_column};
use crate::quality::{close_runs, lemma_runs_of, lemma_total_bounds, push_quality, runs_of};
use crate::varint::{put_uvarint32, put_varint32};

verus! {

/// Whether `refs` is a spatial reference map for `m` variables: each
/// variable refers, if at all, to one before it.
pub open spec fn valid_refs(refs: Seq<Option<usize>>, m: nat) -> bool {
    &&& refs.len() == m
    &&& forall|i: int| 0 <= i < m ==> (#[trigger] refs[i] matches Some(r) ==> r < i)
}

/// Whether the sample `s` has `m` values and `m` quality words.
pub open spec fn sample_fits(s: SampleView, m: nat) -> bool {
    s.1.len() == m && s.2.len() == m
}

pub proof fn lemma_flat_index(i: int, j: int, m: int, n: int)
    requires
        0 <= i < m,
        0 <= j < n,
    ensures
        0 <= i * n + j < m * n,
        i * n <= i * n + j,
{
    assert(i * n + j < m * n) by (nonlinear_arith)
        requires
            0 <= i < m,
            0 <= j < n,
    ;
    assert(0 <= i * n) by (nonlinear_arith)
        requires
            0 <= i,
            0 <= n,
    ;
}

/// An encoder as plain values: its configuration and the samples of the
/// message under way.
pub struct EncoderView {
    pub id: Seq<u8>,
    pub i32_count: nat,
    pub sampling_rate: nat,
    pub samples_per_message: nat,
    pub use_xor: bool,
    pub refs: Seq<Option<usize>>,
    pub pending: Seq<SampleView>,
}

impl EncoderView {
    /// Whether the values are packed with Simple-8b rather than varints.
    pub open spec fn simple8b(&self) -> bool {
        self.samples_per_message > SIMPLE8B_THRESHOLD_SAMPLES
    }

    /// The frame of a message of the samples `ss` under this configuration.
    pub open spec fn frame_of(&self, ss: Seq<SampleView>) -> Seq<u8> {
        frame(self.id, ss, self.refs, self.use_xor, self.i32_count, self.simple8b())
    }

    /// The same configuration, with the message under way replaced by `ss`.
    pub open spec fn with_pending(&self, ss: Seq<SampleView>) -> EncoderView {
        EncoderView { pending: ss, ..*self }
    }
}

/// Encodes a stream of samples into frames of `samples_per_message`
/// samples each.
pub struct Encoder {
    pub id: [u8; 16],
    pub sampling_rate: usize,
    pub samples_per_message: usize,
    pub i32_count: usize,
    /// Use XOR delta instead of arithmetic delta.
    pub use_xor: bool,
    encoded_samples: usize,
    using_simple8b: bool,
    delta_encoding_layers: usize,
    start_timestamp: u64,
    prev_data: Vec<i32>,
    residuals: Vec<i32>,
    quality_history: Vec<Vec<QualityHistory>>,
    spatial_ref: Vec<Option<usize>>,
    pending: Ghost<Seq<SampleView>>,
}

impl View for Encoder {
    type V = EncoderView;

    closed spec fn view(&self) -> EncoderView {
        EncoderView {
            id: self.id@,
            i32_count: self.i32_count as nat,
            sampling_rate: self.sampling_rate as nat,
            samples_per_message: self.samples_per_message as nat,
            use_xor: self.use_xor,
            refs: self.spatial_ref@,
            pending: self.pending@,
        }
    }
}

impl Encoder {
    /// The state is consistent with the samples of the message under way,
    /// of which there may be a full message's worth.
    pub closed spec fn inner_wf(&self) -> bool {
        let m = self.i32_count as int;
        let n = self.samples_per_message as int;
        let ss = self.pending@;
        let refs = self.spatial_ref@;
        &&& m >= 1
        &&& n >= 1
        &&& n <= i32::MAX
        &&& m * n <= usize::MAX
        &&& self.using_simple8b == (n > SIMPLE8B_THRESHOLD_SAMPLES)
        &&& self.delta_encoding_layers == 3
        &&& valid_refs(refs, m as nat)
        &&& self.prev_data@.len() == 3 * m
        &&& self.residuals@.len() == m * n
        &&& self.quality_history@.len() == m
        &&& self.encoded_samples == ss.len()
        &&& ss.len() <= n
        &&& forall|j: int| 0 <= j < ss.len() ==> sample_fits(#[trigger] ss[j], m as nat)
        &&& forall|i: int, j: int|
            0 <= i < m && 0 <= j < ss.len() ==> self.residuals@[i * n + j] == #[trigger] residual(
                column(ss, refs, i),
                j,
                self.use_xor,
            )
        &&& forall|i: int|
            0 <= i < m ==> #[trigger] holds_layers(
                self.prev_data@,
                m,
                i,
                column(ss, refs, i),
                self.use_xor,
            )
        &&& forall|i: int|
            0 <= i < m ==> (#[trigger] self.quality_history@[i])@ == runs_of(
                quality_column(ss, i),
            )
        &&& self.start_timestamp == start_time(ss)
    }

    /// The state is consistent, and the message under way is not full.
    pub closed spec fn wf(&self) -> bool {
        &&& self.inner_wf()
        &&& self.pending@.len() < self.samples_per_message
    }

    /// An encoder for messages of `samples_per_message` samples of
    /// `i32_count` variables, with no message under way.
    pub fn new(id: [u8; 16], i32_count: usize, sampling_rate: usize, samples_per_message: usize) -> (r:
        Encoder)
        requires
            i32_count >= 1,
            1 <= samples_per_message <= i32::MAX,
            i32_count * samples_per_message <= usize::MAX,
            3 * i32_count <= usize::MAX,
        ensures
            r.wf(),
            r@ == (EncoderView {
                id: id@,
                i32_count: i32_count as nat,
                sampling_rate: sampling_rate as nat,
                samples_per_message: samples_per_message as nat,
                use_xor: false,
                refs: Seq::new(i32_count as nat, |i: int| None::<usize>),
                pending: Seq::empty(),
            }),
    {
        let mut quality_history: Vec<Vec<QualityHistory>> = Vec::new();
        let mut spatial_ref: Vec<Option<usize>> = Vec::new();
        let mut k: usize = 0;
        while k < i32_count
            invariant
                k <= i32_count,
                quality_history@.len() == k,
                spatial_ref@.len() == k,
                forall|i: int| 0 <= i < k ==> (#[trigger] quality_history@[i])@.len() == 0,
                forall|i: int| 0 <= i < k ==> #[trigger] spatial_ref@[i] == None::<usize>,
            decreases i32_count - k,
        {
            quality_history.push(Vec::new());
            spatial_ref.push(None);
            k += 1;
        }
        let r = Encoder {
            id,
            sampling_rate,
            samples_per_message,
            i32_count,
            use_xor: false,
            encoded_samples: 0,
            using_simple8b: samples_per_message > SIMPLE8B_THRESHOLD_SAMPLES,
            delta_encoding_layers: get_delta_encoding(sampling_rate),
            start_timestamp: 0,
            prev_data: vec![0; 3 * i32_count],
            residuals: vec![0; i32_count * samples_per_message],
            quality_history,
            spatial_ref,
            pending: Ghost(Seq::empty()),
        };
        proof {
            assert forall|i: int| 0 <= i < i32_count implies (#[trigger] r.quality_history@[i])@
                == runs_of(quality_column(r.pending@, i)) by {
                assert(r.quality_history@[i]@ =~= runs_of(quality_column(r.pending@, i)));
            }
            assert(r.spatial_ref@ =~= Seq::new(i32_count as nat, |i: int| None::<usize>));
        }
        r
    }

    /// Sets the spatial reference map built by `create_spatial_refs`.
    pub fn set_spatial_refs(
        &mut self,
        count: usize,
        count_v: usize,
        count_i: usize,
        include_neutral: bool,
    )
        requires
            old(self).wf(),
            old(self)@.pending.len() == 0,
            count == old(self)@.i32_count,
            (count_v + count_i + 1) * 4 <= usize::MAX,
        ensures
            final(self).wf(),
            final(self)@ == (EncoderView { refs: final(self)@.refs, ..old(self)@ }),
            final(self)@.refs.len() == count,
            forall|i: int|
                0 <= i < count ==> #[trigger] final(self)@.refs[i] == spatial_ref_at(
                    i,
                    count_v as int,
                    count_i as int,
                    spatial_stride(include_neutral),
                ),
    {
        self.spatial_ref = create_spatial_refs(count, count_v, count_i, include_neutral);
        proof {
            let refs = self.spatial_ref@;
            assert forall|i: int| 0 <= i < count implies (#[trigger] refs[i] matches Some(r) ==> r
                < i) by {
                assert(refs[i] == spatial_ref_at(
                    i,
                    count_v as int,
                    count_i as int,
                    spatial_stride(include_neutral),
                ));
            }
            assert forall|i: int| 0 <= i < self.i32_count implies #[trigger] holds_layers(
                self.prev_data@,
                self.i32_count as int,
                i,
                column(self.pending@, refs, i),
                self.use_xor,
            ) by {}
            assert forall|i: int| 0 <= i < self.i32_count implies (
            #[trigger] self.quality_history@[i])@ == runs_of(quality_column(self.pending@, i)) by {}
        }
    }

    /// Chooses XOR delta (true) or arithmetic delta (false).
    pub fn set_xor(&mut self, xor: bool)
        requires
            old(self).wf(),
            old(self)@.pending.len() == 0,
        ensures
            final(self).wf(),
            final(self)@ == (EncoderView { use_xor: xor, ..old(self)@ }),
    {
        self.use_xor = xor;
        proof {
            assert forall|i: int| 0 <= i < self.i32_count implies #[trigger] holds_layers(
                self.prev_data@,
                self.i32_count as int,
                i,
                column(self.pending@, self.spatial_ref@, i),
                self.use_xor,
            ) by {}
            assert forall|i: int| 0 <= i < self.i32_count implies (
            #[trigger] self.quality_history@[i])@ == runs_of(quality_column(self.pending@, i)) by {}
        }
    }

    /// Appends the Simple-8b words of every variable's residuals.
    fn write_packed(&self, body: &mut Vec<u8>)
        requires
            self.inner_wf(),
        ensures
            final(body)@ == old(body)@ + packed_section(
                self.pending@,
                self.spatial_ref@,
                self.use_xor,
                self.i32_count as nat,
            ),
    {
        let ghost ss = self.pending@;
        let ghost refs = self.spatial_ref@;
        let ghost start = body@;
        let m = self.i32_count;
        let n = self.samples_per_message;
        let count = self.encoded_samples;
        let mut i: usize = 0;
        while i < m
            invariant
                self.inner_wf(),
                ss == self.pending@,
                refs == self.spatial_ref@,
                m == self.i32_count,
                n == self.samples_per_message,
                count == ss.len(),
                i <= m,
                body@ == start + packed_section(ss, refs, self.use_xor, i as nat),
            decreases m - i,
        {
            let ghost zcol = zig_column(residuals(column(ss, refs, i as int), self.use_xor));
            let mut col: Vec<u64> = Vec::new();
            let mut j: usize = 0;
            while j < count
                invariant
                    self.inner_wf(),
                    ss == self.pending@,
                    refs == self.spatial_ref@,
                    m == self.i32_count,
                    n == self.samples_per_message,
                    count == ss.len(),
                    i < m,
                    j <= count,
                    zcol == zig_column(residuals(column(ss, refs, i as int), self.use_xor)),
                    zcol.len() == count,
                    col@ == zcol.take(j as int),
                    forall|k: int| 0 <= k < j ==> #[trigger] col@[k] <= MAX_VALUE,
                decreases count - j,
            {
                proof {
                    lemma_flat_index(i as int, j as int, m as int, n as int);
                    assert(self.residuals@[i * n + j] == residual(
                        column(ss, refs, i as int),
                        j as int,
                        self.use_xor,
                    ));
                }
                let z = zig_zag_encode64(self.residuals[i * n + j] as i64);
                assert(residuals(column(ss, refs, i as int), self.use_xor)[j as int] == residual(
                    column(ss, refs, i as int),
                    j as int,
                    self.use_xor,
                ));
                assert(zcol[j as int] == z);
                col.push(z);
                assert(col@ =~= zcol.take(j + 1));
                j += 1;
            }
            assert(col@ =~= zcol);
            proof {
                lemma_greedy_succeeds(zcol);
            }
            let mut words: Vec<u64> = vec![0; count];
            let k = match encode_all_ref(words.as_mut_slice(), col.as_slice()) {
                Ok(k) => k,
                Err(_) => 0,
            };
            words.truncate(k);
            assert(words@ =~= greedy_words(zcol).unwrap());
            let mut bytes = words_to_bytes(words.as_slice());
            body.append(&mut bytes);
            i += 1;
        }
    }

    /// Appends the varints of the residuals, sample by sample.
    fn write_varints(&self, body: &mut Vec<u8>)
        requires
            self.inner_wf(),
        ensures
            final(body)@ == old(body)@ + varint_section(
                self.pending@,
                self.spatial_ref@,
                self.use_xor,
                self.i32_count as nat,
                self.pending@.len(),
            ),
    {
        let ghost ss = self.pending@;
        let ghost refs = self.spatial_ref@;
        let ghost start = body@;
        let m = self.i32_count;
        let n = self.samples_per_message;
        let count = self.encoded_samples;
        let mut j: usize = 0;
        while j < count
            invariant
                self.inner_wf(),
                ss == self.pending@,
                refs == self.spatial_ref@,
                m == self.i32_count,
                n == self.samples_per_message,
                count == ss.len(),
                j <= count,
                body@ == start + varint_section(ss, refs, self.use_xor, m as nat, j as nat),
            decreases count - j,
        {
            let ghost row_start = body@;
            let mut i: usize = 0;
            while i < m
                invariant
                    self.inner_wf(),
                    ss == self.pending@,
                    refs == self.spatial_ref@,
                    m == self.i32_count,
                    n == self.samples_per_message,
                    count == ss.len(),
                    j < count,
                    i <= m,
                    row_start == start + varint_section(ss, refs, self.use_xor, m as nat, j as nat),
                    body@ == row_start + varint_row(ss, refs, self.use_xor, j as int, i as nat),
                decreases m - i,
            {
                proof {
                    lemma_flat_index(i as int, j as int, m as int, n as int);
                    assert(self.residuals@[i * n + j] == residual(
                        column(ss, refs, i as int),
                        j as int,
                        self.use_xor,
                    ));
                }
                put_varint32(body, self.residuals[i * n + j]);
                assert(body@ =~= row_start + varint_row(ss, refs, self.use_xor, j as int, (i + 1) as nat));
                i += 1;
            }
            assert(body@ =~= start + varint_section(ss, refs, self.use_xor, m as nat, (j + 1) as nat));
            j += 1;
        }
    }

    /// Appends every variable's quality runs, the last run of each closed.
    fn write_quality(&self, body: &mut Vec<u8>)
        requires
            self.inner_wf(),
        ensures
            final(body)@ == old(body)@ + quality_section(self.pending@, self.i32_count as nat),
    {
        let ghost ss = self.pending@;
        let ghost start = body@;
        let m = self.i32_count;
        let mut i: usize = 0;
        while i < m
            invariant
                self.inner_wf(),
                ss == self.pending@,
                m == self.i32_count,
                i <= m,
                body@ == start + quality_section(ss, i as nat),
            decreases m - i,
        {
            let ghost runs = self.quality_history@[i as int]@;
            let ghost closed = close_runs(runs);
            let ghost var_start = body@;
            let len = self.quality_history[i].len();
            let mut k: usize = 0;
            assert(closed.take(0) =~= Seq::<QualityHistory>::empty());
            while k < len
                invariant
                    self.inner_wf(),
                    ss == self.pending@,
                    m == self.i32_count,
                    i < m,
                    runs == self.quality_history@[i as int]@,
                    closed == close_runs(runs),
                    len == runs.len(),
                    k <= len,
                    var_start == start + quality_section(ss, i as nat),
                    body@ == var_start + runs_bytes(closed.take(k as int)),
                decreases len - k,
            {
                let h = self.quality_history[i][k];
                let samples: u32 = if k + 1 == len {
                    0
                } else {
                    h.samples
                };
                assert(closed[k as int] == QualityHistory { value: h.value, samples });
                assert(closed.take(k + 1).drop_last() =~= closed.take(k as int));
                put_uvarint32(body, h.value);
                put_uvarint32(body, samples);
                assert(body@ =~= var_start + runs_bytes(closed.take(k + 1)));
                k += 1;
            }
            assert(closed.take(len as int) =~= closed);
            assert(runs == runs_of(quality_column(ss, i as int)));
            assert(body@ =~= start + quality_section(ss, (i + 1) as nat));
            i += 1;
        }
    }

    /// Forgets the message under way.
    fn reset(&mut self)
        requires
            old(self).inner_wf(),
        ensures
            final(self).wf(),
            final(self)@ == old(self)@.with_pending(Seq::empty()),
    {
        let mut quality_history: Vec<Vec<QualityHistory>> = Vec::new();
        let mut k: usize = 0;
        while k < self.i32_count
            invariant
                k <= self.i32_count,
                quality_history@.len() == k,
                forall|i: int| 0 <= i < k ==> (#[trigger] quality_history@[i])@.len() == 0,
            decreases self.i32_count - k,
        {
            quality_history.push(Vec::new());
            k += 1;
        }
        self.quality_history = quality_history;
        self.encoded_samples = 0;
        self.start_timestamp = 0;
        self.pending = Ghost(Seq::empty());
        proof {
            assert forall|i: int| 0 <= i < self.i32_count implies (
            #[trigger] self.quality_history@[i])@ == runs_of(quality_column(self.pending@, i)) by {
                assert(self.quality_history@[i]@ =~= runs_of(quality_column(self.pending@, i)));
            }
            assert forall|i: int| 0 <= i < self.i32_count implies #[trigger] holds_layers(
                self.prev_data@,
                self.i32_count as int,
                i,
                column(self.pending@, self.spatial_ref@, i),
                self.use_xor,
            ) by {}
        }
    }

    /// Emits the frame of the message under way and starts a new one.
    fn flush(&mut self) -> (r: Result<(Vec<u8>, usize), CodecError>)
        requires
            old(self).inner_wf(),
        ensures
            final(self).wf(),
            final(self)@ == old(self)@.with_pending(Seq::empty()),
            r matches Ok((f, len)) ==> f@ == old(self)@.frame_of(old(self)@.pending) && len
                == f@.len(),
            r is Err ==> r == Err::<(Vec<u8>, usize), CodecError>(CodecError::CompressWriteError)
                && old(self)@.pending.len() > USE_GZIP_THRESHOLD_SAMPLES,
            old(self)@.pending.len() <= USE_GZIP_THRESHOLD_SAMPLES ==> r is Ok,
    {
        let ghost ss = self.pending@;
        let count = self.encoded_samples;
        let mut out: Vec<u8> = Vec::new();
        let mut k: usize = 0;
        while k < 16
            invariant
                k <= 16,
                out@ == self.id@.take(k as int),
            decreases 16 - k,
        {
            out.push(self.id[k]);
            assert(out@ =~= self.id@.take(k + 1));
            k += 1;
        }
        assert(self.id@.take(16) =~= self.id@);
        push_be_u64(&mut out, self.start_timestamp);
        put_varint32(&mut out, count as i32);
        assert(out@ == frame_header(self.id@, ss));
        let mut body: Vec<u8> = Vec::new();
        if self.using_simple8b {
            self.write_packed(&mut body);
        } else {
            self.write_varints(&mut body);
        }
        self.write_quality(&mut body);
        assert(body@ =~= payload(
            ss,
            self.spatial_ref@,
            self.use_xor,
            self.i32_count as nat,
            self.samples_per_message > SIMPLE8B_THRESHOLD_SAMPLES,
        ));
        if count > USE_GZIP_THRESHOLD_SAMPLES {
            match gzip_compress(body.as_slice()) {
                Ok(mut z) => {
                    out.append(&mut z);
                },
                Err(_) => {
                    self.reset();
                    return Err(CodecError::CompressWriteError);
                },
            }
        } else {
            out.append(&mut body);
        }
        self.reset();
        let len = out.len();
        Ok((out, len))
    }

    /// Takes the next sample. When it completes a message, returns the
    /// message's frame and starts a new one; otherwise returns no bytes.
    pub fn encode(&mut self, data: &DatasetWithQuality) -> (r: Result<(Vec<u8>, usize), CodecError>)
        requires
            old(self).wf(),
            sample_fits(data@, old(self)@.i32_count),
        ensures
            final(self).wf(),
            ({
                let ss = old(self)@.pending.push(data@);
                if ss.len() == old(self)@.samples_per_message {
                    &&& final(self)@ == old(self)@.with_pending(Seq::empty())
                    &&& r matches Ok((f, len)) ==> f@ == old(self)@.frame_of(ss) && len == f@.len()
                    &&& r is Err ==> r == Err::<(Vec<u8>, usize), CodecError>(
                        CodecError::CompressWriteError,
                    ) && ss.len() > USE_GZIP_THRESHOLD_SAMPLES
                    &&& ss.len() <= USE_GZIP_THRESHOLD_SAMPLES ==> r is Ok
                } else {
                    &&& final(self)@ == old(self)@.with_pending(ss)
                    &&& r matches Ok((f, len)) && f@.len() == 0 && len == 0
                }
            }),
    {
        let ghost old_ss = self.pending@;
        let ghost ss = old_ss.push(data@);
        let ghost refs = self.spatial_ref@;
        let ghost xor = self.use_xor;
        let j = self.encoded_samples;
        let m = self.i32_count;
        let n = self.samples_per_message;
        proof {
            assert forall|k: int| 0 <= k < m implies #[trigger] column(ss, refs, k) == column(
                old_ss,
                refs,
                k,
            ).push(adjusted(data@, refs, k)) by {
                assert(column(ss, refs, k) =~= column(old_ss, refs, k).push(adjusted(data@, refs, k)));
            }
            assert forall|k: int| 0 <= k < m implies #[trigger] quality_column(ss, k)
                == quality_column(old_ss, k).push(data@.2[k]) by {
                assert(quality_column(ss, k) =~= quality_column(old_ss, k).push(data@.2[k]));
            }
        }
        if j == 0 {
            self.start_timestamp = data.t;
        }
        let mut i: usize = 0;
        while i < m
            invariant
                old(self).inner_wf(),
                self.id == old(self).id,
                self.sampling_rate == old(self).sampling_rate,
                self.using_simple8b == old(self).using_simple8b,
                self.delta_encoding_layers == old(self).delta_encoding_layers,
                self.encoded_samples == old(self).encoded_samples,
                self.start_timestamp == start_time(ss),
                self.samples_per_message == old(self).samples_per_message,
                self.spatial_ref@ == old(self).spatial_ref@,
                self.use_xor == old(self).use_xor,
                self.prev_data@ == old(self).prev_data@,
                self.residuals@ == old(self).residuals@,
                m == self.i32_count,
                m == old(self).i32_count,
                j == old_ss.len(),
                j < self.samples_per_message,
                self.samples_per_message <= i32::MAX,
                old_ss == old(self).pending@,
                ss == old_ss.push(data@),
                data@.2.len() == m,
                i <= m,
                self.quality_history@.len() == m,
                forall|k: int| 0 <= k < m ==> #[trigger] quality_column(ss, k)
                    == quality_column(old_ss, k).push(data@.2[k]),
                forall|k: int| 0 <= k < i ==> (#[trigger] self.quality_history@[k])@ == runs_of(
                    quality_column(ss, k),
                ),
                forall|k: int| i <= k < m ==> #[trigger] self.quality_history@[k] == old(
                    self,
                ).quality_history@[k],
            decreases m - i,
        {
            proof {
                if j == 0 {
                    assert(start_time(ss) == data@.0);
                }
                let qc = quality_column(old_ss, i as int);
                assert(old(self).quality_history@[i as int]@ == runs_of(qc));
                lemma_runs_of(qc);
                if runs_of(qc).len() > 0 {
                    lemma_total_bounds(runs_of(qc), runs_of(qc).len() - 1);
                }
                assert(quality_column(ss, i as int).drop_last() =~= qc);
            }
            push_quality(&mut self.quality_history[i], data.q[i]);
            i += 1;
        }
        i = 0;
        while i < m
            invariant
                old(self).inner_wf(),
                self.id == old(self).id,
                self.sampling_rate == old(self).sampling_rate,
                self.using_simple8b == old(self).using_simple8b,
                self.delta_encoding_layers == old(self).delta_encoding_layers,
                self.encoded_samples == old(self).encoded_samples,
                self.start_timestamp == start_time(ss),
                self.quality_history@.len() == m,
                forall|k: int| 0 <= k < m ==> (#[trigger] self.quality_history@[k])@ == runs_of(
                    quality_column(ss, k),
                ),
                m == self.i32_count,
                m == old(self).i32_count,
                n == self.samples_per_message,
                n == old(self).samples_per_message,
                j == old_ss.len(),
                j < n,
                old_ss == old(self).pending@,
                ss == old_ss.push(data@),
                refs == self.spatial_ref@,
                refs == old(self).spatial_ref@,
                xor == self.use_xor,
                xor == old(self).use_xor,
                sample_fits(data@, m as nat),
                i <= m,
                self.prev_data@.len() == 3 * m,
                self.residuals@.len() == m * n,
                forall|k: int| 0 <= k < m ==> #[trigger] column(ss, refs, k) == column(
                    old_ss,
                    refs,
                    k,
                ).push(adjusted(data@, refs, k)),
                forall|k: int, j2: int|
                    0 <= k < m && 0 <= j2 < j ==> self.residuals@[k * n + j2]
                        == #[trigger] residual(column(old_ss, refs, k), j2, xor),
                forall|k: int|
                    0 <= k < i ==> self.residuals@[k * n + j] == #[trigger] residual(
                        column(ss, refs, k),
                        j as int,
                        xor,
                    ),
                forall|k: int|
                    0 <= k < i ==> #[trigger] holds_layers(
                        self.prev_data@,
                        m as int,
                        k,
                        column(ss, refs, k),
                        xor,
                    ),
                forall|k: int|
                    i <= k < m ==> #[trigger] holds_layers(
                        self.prev_data@,
                        m as int,
                        k,
                        column(old_ss, refs, k),
                        xor,
                    ),
            decreases m - i,
        {
            let mut val = data.i32s[i];
            match self.spatial_ref[i] {
                Some(r) => {
                    val = val.wrapping_sub(data.i32s[r]);
                },
                None => {},
            }
            let ghost xs = column(ss, refs, i as int);
            assert(xs.last() == val);
            assert(xs.drop_last() =~= column(old_ss, refs, i as int));
            let ghost before = self.prev_data@;
            let res = delta_step(&mut self.prev_data, m, i, j, val, self.use_xor, Ghost(xs));
            proof {
                lemma_flat_index(i as int, j as int, m as int, n as int);
                assert forall|k: int| 0 <= k < i implies #[trigger] holds_layers(
                    self.prev_data@,
                    m as int,
                    k,
                    column(ss, refs, k),
                    xor,
                ) by {
                    assert(holds_layers(before, m as int, k, column(ss, refs, k), xor));
                }
                assert forall|k: int| i < k < m implies #[trigger] holds_layers(
                    self.prev_data@,
                    m as int,
                    k,
                    column(old_ss, refs, k),
                    xor,
                ) by {
                    assert(holds_layers(before, m as int, k, column(old_ss, refs, k), xor));
                }
            }
            let ghost before_res = self.residuals@;
            self.residuals.set(i * n + j, res);
            proof {
                assert forall|k: int, j2: int|
                    0 <= k < m && 0 <= j2 < j implies self.residuals@[k * n + j2]
                    == #[trigger] residual(column(old_ss, refs, k), j2, xor) by {
                    lemma_flat_index(k, j2, m as int, n as int);
                    assert(before_res[k * n + j2] == residual(column(old_ss, refs, k), j2, xor));
                    assert(k * n + j2 != i * n + j) by (nonlinear_arith)
                        requires
                            0 <= j2 < j < n,
                            0 <= k,
                            0 <= i,
                    ;
                }
                assert forall|k: int| 0 <= k < i + 1 implies self.residuals@[k * n + j]
                    == #[trigger] residual(column(ss, refs, k), j as int, xor) by {
                    lemma_flat_index(k, j as int, m as int, n as int);
                    if k < i {
                        assert(before_res[k * n + j] == residual(column(ss, refs, k), j as int, xor));
                        assert(k * n + j != i * n + j) by (nonlinear_arith)
                            requires
                                k < i,
                                n > 0,
                        ;
                    }
                }
            }
            i += 1;
        }
        self.encoded_samples = j + 1;
        self.pending = Ghost(ss);
        proof {
            assert forall|k: int, j2: int|
                0 <= k < m && 0 <= j2 < ss.len() implies self.residuals@[k * n + j2]
                == #[trigger] residual(column(ss, refs, k), j2, xor) by {
                if j2 < j {
                    lemma_residual_prefix(column(old_ss, refs, k), adjusted(data@, refs, k), j2, xor);
                    assert(self.residuals@[k * n + j2] == residual(column(old_ss, refs, k), j2, xor));
                } else {
                    assert(self.residuals@[k * n + j] == residual(column(ss, refs, k), j as int, xor));
                }
            }
            assert forall|k: int| 0 <= k < ss.len() implies sample_fits(#[trigger] ss[k], m as nat) by {
                if k < j {
                    assert(ss[k] == old_ss[k]);
                }
            }
            assert(self.start_timestamp == start_time(ss));
        }
        if j + 1 >= n {
            self.flush()
        } else {
            Ok((Vec::new(), 0))
        }
    }

    /// Ends the message under way early and returns its frame: every sample
    /// encoded so far, none if there are none.
    pub fn end_encode(&mut self) -> (r: Result<(Vec<u8>, usize), CodecError>)
        requires
            old(self).wf(),
        ensures
            final(self).wf(),
            final(self)@ == old(self)@.with_pending(Seq::empty()),
            r matches Ok((f, len)) ==> f@ == old(self)@.frame_of(old(self)@.pending) && len
                == f@.len(),
            r is Err ==> r == Err::<(Vec<u8>, usize), CodecError>(CodecError::CompressWriteError)
                && old(self)@.pending.len() > USE_GZIP_THRESHOLD_SAMPLES,
            old(self)@.pending.len() <= USE_GZIP_THRESHOLD_SAMPLES ==> r is Ok,
    {
        self.flush()
    }

    /// Drops the message under way without emitting anything.
    pub fn cancel_encode(&mut self)
        requires
            old(self).wf(),
        ensures
            final(self).wf(),
            final(self)@ == old(self)@.with_pending(Seq::empty()),
    {
        self.reset();
    }
}

/// Every frame starts with the stream identifier, followed by the first
/// sample's timestamp, big-endian.
pub proof fn lemma_frame_header(v: EncoderView, ss: Seq<SampleView>)
    requires
        v.id.len() == 16,
    ensures
        v.frame_of(ss).take(16) == v.id,
        v.frame_of(ss).len() >= 24,
        be_u64(v.frame_of(ss), 16) == start_time(ss),
        ss.len() > 0 ==> be_u64(v.frame_of(ss), 16) == ss[0].0,
{
    let f = v.frame_of(ss);
    let ts = start_time(ss);
    let tb = crate::encoding::simple8b::be_bytes(ts);
    assert(f.take(16) =~= v.id);
    lemma_be_round_trip(ts);
    assert forall|k: int| 0 <= k < 8 implies f[16 + k] == #[trigger] tb[k] by {}
    assert(be_u64(f, 16) == be_u64(tb, 0));
}

/// Ending or cancelling a message leaves an encoder in the state that a new
/// encoder of the same configuration starts in; as every contract of the
/// encoder speaks of that state alone, it then behaves as a new one.
pub proof fn lemma_reset_is_fresh(used: EncoderView, fresh: EncoderView)
    requires
        fresh.pending.len() == 0,
        fresh.id == used.id,
        fresh.i32_count == used.i32_count,
        fresh.sampling_rate == used.sampling_rate,
        fresh.samples_per_message == used.samples_per_message,
        fresh.use_xor == used.use_xor,
        fresh.refs == used.refs,
    ensures
        used.with_pending(Seq::empty()) == fresh,
{
    assert(fresh.pending =~= Seq::<SampleView>::empty());
}

} // verus!
