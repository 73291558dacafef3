//! Streaming codec for high-rate sampled measurement data: batches of
//! samples of integer variables with quality words are packed into compact
//! self-describing frames and reconstructed bit-exactly.
pub mod encoding;
pub mod varint;
pub mod delta;
pub mod quality;
pub mod compress;
pub mod frame;
pub mod encoder;
pub mod decoder;
pub mod round_trip;

pub use crate::decoder::Decoder;
pub use crate::encoder::Encoder;
use vstd::prelude::*;

verus! {

/// What can go wrong while encoding or decoding a frame.
#[derive(Debug, Clone, Copy, PartialEq, Eq, Structural)]
pub enum CodecError {
    /// The frame carries an identifier other than the stream's own.
    IdMismatch,
    /// A value is too large to be packed (at least 2^60).
    ValueOutOfBounds,
    /// A variable-length integer is malformed: too long, too large, or cut off.
    VarintOverflow,
    /// The frame ends before the data that its header announces.
    Truncated,
    /// The compressed payload body could not be inflated.
    InflateError,
    /// The payload body could not be compressed.
    CompressWriteError,
}

impl CodecError {
    /// A human-readable description of the error.
    pub fn to_string(&self) -> (r: String) {
        match self {
            CodecError::IdMismatch => "IDs did not match".to_string(),
            CodecError::ValueOutOfBounds => "value out of bounds".to_string(),
            CodecError::VarintOverflow => "varint overflow".to_string(),
            CodecError::Truncated => "frame truncated".to_string(),
            CodecError::InflateError => "gzip error".to_string(),
            CodecError::CompressWriteError => "could not write gz".to_string(),
        }
    }
}

/// Above this many samples per message the values are packed with Simple-8b
/// rather than written as varints.
pub const SIMPLE8B_THRESHOLD_SAMPLES: usize = 16;

/// The number of delta layers.
pub const DEFAULT_DELTA_ENCODING_LAYERS: usize = 3;

/// The number of delta layers at high sampling rates.
pub const HIGH_DELTA_ENCODING_LAYERS: usize = 3;

/// Above this many samples in a message the payload body is compressed.
pub const USE_GZIP_THRESHOLD_SAMPLES: usize = 4096;

/// The values of the variables of one sample.
#[derive(Clone)]
pub struct Dataset {
    pub i32s: Vec<i32>,
}

impl Dataset {
    /// `count` variables, all zero.
    pub fn new(count: usize) -> (r: Dataset)
        ensures
            r.i32s@ == Seq::new(count as nat, |k: int| 0i32),
    {
        let r = Dataset { i32s: vec![0; count] };
        assert(r.i32s@ =~= Seq::new(count as nat, |k: int| 0i32));
        r
    }
}

/// One sample: a timestamp, the values of the variables and their quality
/// words.
#[derive(Clone)]
pub struct DatasetWithQuality {
    pub t: u64,
    pub i32s: Vec<i32>,
    pub q: Vec<u32>,
}

/// A sample as plain values: timestamp, variable values, quality words.
pub type SampleView = (u64, Seq<i32>, Seq<u32>);

impl View for DatasetWithQuality {
    type V = SampleView;

    open spec fn view(&self) -> SampleView {
        (self.t, self.i32s@, self.q@)
    }
}

impl DatasetWithQuality {
    /// A sample at time 0 with `count` variables, values and qualities zero.
    pub fn new(count: usize) -> (r: DatasetWithQuality)
        ensures
            r@ == (0u64, Seq::new(count as nat, |k: int| 0i32), Seq::new(count as nat, |k: int| 0u32)),
    {
        let r = DatasetWithQuality { t: 0, i32s: vec![0; count], q: vec![0; count] };
        assert(r.i32s@ =~= Seq::new(count as nat, |k: int| 0i32));
        assert(r.q@ =~= Seq::new(count as nat, |k: int| 0u32));
        r
    }
}

/// One run of equal quality words: the word and the number of samples it
/// covers (0 on the last run of a message: "all the rest").
#[derive(Clone, Copy, Debug, PartialEq, Eq, Structural)]
pub struct QualityHistory {
    pub value: u32,
    pub samples: u32,
}

/// Whether variable `i` is encoded against a neighbour under the spatial
/// reference map built from these arguments, with `inc` the group stride.
pub open spec fn spatial_ref_at(i: int, count_v: int, count_i: int, inc: int) -> Option<usize> {
    if i >= inc && (i < count_v * inc || (i >= (count_v + 1) * inc && i < (count_v + count_i)
        * inc)) {
        Some((i - inc) as usize)
    } else {
        None
    }
}

/// The stride of a group of phases: four with a neutral, else three.
pub open spec fn spatial_stride(include_neutral: bool) -> int {
    if include_neutral {
        4
    } else {
        3
    }
}

/// The spatial reference map for `count` variables laid out as `count_v`
/// voltage groups followed by `count_i` current groups: each variable of a
/// group after the first of its kind refers to the same phase of the group
/// before.
pub fn create_spatial_refs(count: usize, count_v: usize, count_i: usize, include_neutral: bool) -> (r:
    Vec<Option<usize>>)
    requires
        (count_v + count_i + 1) * 4 <= usize::MAX,
    ensures
        r@.len() == count,
        forall|i: int|
            0 <= i < count ==> #[trigger] r@[i] == spatial_ref_at(
                i,
                count_v as int,
                count_i as int,
                spatial_stride(include_neutral),
            ),
{
    let inc: usize = if include_neutral {
        4
    } else {
        3
    };
    assert((count_v + 1) * inc <= (count_v + count_i + 1) * 4 && (count_v + count_i) * inc <= (
    count_v + count_i + 1) * 4) by (nonlinear_arith)
        requires
            inc <= 4,
    ;
    let mut refs: Vec<Option<usize>> = Vec::new();
    let mut i: usize = 0;
    while i < count
        invariant
            i <= count,
            inc == spatial_stride(include_neutral),
            (count_v + 1) * inc <= usize::MAX,
            (count_v + count_i) * inc <= usize::MAX,
            refs@.len() == i,
            forall|k: int|
                0 <= k < i ==> #[trigger] refs@[k] == spatial_ref_at(
                    k,
                    count_v as int,
                    count_i as int,
                    inc as int,
                ),
        decreases count - i,
    {
        assert(count_v * inc <= (count_v + 1) * inc) by (nonlinear_arith);
        if i >= inc && (i < count_v * inc || (i >= (count_v + 1) * inc && i < (count_v + count_i)
            * inc)) {
            refs.push(Some(i - inc));
        } else {
            refs.push(None);
        }
        i += 1;
    }
    refs
}

/// The number of delta layers for a sampling rate. Both branches give three
/// layers; the rate is kept as a hook for tuning.
pub fn get_delta_encoding(sampling_rate: usize) -> (r: usize)
    ensures
        r == 3,
{
    if sampling_rate > 100_000 {
        HIGH_DELTA_ENCODING_LAYERS
    } else {
        DEFAULT_DELTA_ENCODING_LAYERS
    }
}

} // verus!
