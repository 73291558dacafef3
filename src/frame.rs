//! The wire format of a frame, stated over plain values.
//!
//! A frame is the stream identifier (16 bytes), the first sample's timestamp
//! (8 bytes, big-endian), the zig-zag varint of the sample count, then the
//! payload body: the residuals of every variable (Simple-8b words per
//! variable, or varints sample by sample), then every variable's quality
//! runs as varint pairs. Above `USE_GZIP_THRESHOLD_SAMPLES` samples the body
//! is gzip-compressed.
use vstd::prelude::*;
use crate::SampleView;
use crate::QualityHistory;
use crate::compress::gzip_best;
use crate::delta::{residual, residuals};
use crate::encoding::bitops::zig_spec;
use crate::encoding::simple8b::{be_bytes, greedy_words, words_bytes};
use crate::quality::{close_runs, runs_of};
use crate::varint::{uvarint_bytes, varint_bytes};

verus! {

/// The value that variable `i` of sample `s` contributes to the delta
/// stack: its own value, less (wrapping) that of its spatial reference.
pub open spec fn adjusted(s: SampleView, refs: Seq<Option<usize>>, i: int) -> i32 {
    match refs[i] {
        Some(r) => s.1[i].wrapping_sub(s.1[r as int]),
        None => s.1[i],
    }
}

/// The adjusted values of variable `i` over the samples `ss`.
pub open spec fn column(ss: Seq<SampleView>, refs: Seq<Option<usize>>, i: int) -> Seq<i32> {
    Seq::new(ss.len(), |j: int| adjusted(ss[j], refs, i))
}

/// The quality words of variable `i` over the samples `ss`.
pub open spec fn quality_column(ss: Seq<SampleView>, i: int) -> Seq<u32> {
    Seq::new(ss.len(), |j: int| ss[j].2[i])
}

/// The zig-zag images of the residuals `rs`.
pub open spec fn zig_column(rs: Seq<i32>) -> Seq<u64> {
    Seq::new(rs.len(), |j: int| zig_spec(rs[j] as i64))
}

/// The Simple-8b bytes of variable `i`.
pub open spec fn packed_column(
    ss: Seq<SampleView>,
    refs: Seq<Option<usize>>,
    xor: bool,
    i: int,
) -> Seq<u8> {
    words_bytes(greedy_words(zig_column(residuals(column(ss, refs, i), xor))).unwrap())
}

/// The Simple-8b bytes of the first `m` variables, one after another.
pub open spec fn packed_section(
    ss: Seq<SampleView>,
    refs: Seq<Option<usize>>,
    xor: bool,
    m: nat,
) -> Seq<u8>
    decreases m,
{
    if m == 0 {
        Seq::empty()
    } else {
        packed_section(ss, refs, xor, (m - 1) as nat) + packed_column(ss, refs, xor, m - 1)
    }
}

/// The varints of the residuals of the first `m` variables at sample `j`.
pub open spec fn varint_row(
    ss: Seq<SampleView>,
    refs: Seq<Option<usize>>,
    xor: bool,
    j: int,
    m: nat,
) -> Seq<u8>
    decreases m,
{
    if m == 0 {
        Seq::empty()
    } else {
        varint_row(ss, refs, xor, j, (m - 1) as nat) + varint_bytes(
            residual(column(ss, refs, m - 1), j, xor),
        )
    }
}

/// The varint rows of the first `n` samples, one after another.
pub open spec fn varint_section(
    ss: Seq<SampleView>,
    refs: Seq<Option<usize>>,
    xor: bool,
    m: nat,
    n: nat,
) -> Seq<u8>
    decreases n,
{
    if n == 0 {
        Seq::empty()
    } else {
        varint_section(ss, refs, xor, m, (n - 1) as nat) + varint_row(ss, refs, xor, n - 1, m)
    }
}

/// The runs `r` as varint pairs: word, then length.
pub open spec fn runs_bytes(r: Seq<QualityHistory>) -> Seq<u8>
    decreases r.len(),
{
    if r.len() == 0 {
        Seq::empty()
    } else {
        runs_bytes(r.drop_last()) + uvarint_bytes(r.last().value) + uvarint_bytes(
            r.last().samples,
        )
    }
}

/// The closed quality runs of the first `m` variables, one after another.
pub open spec fn quality_section(ss: Seq<SampleView>, m: nat) -> Seq<u8>
    decreases m,
{
    if m == 0 {
        Seq::empty()
    } else {
        quality_section(ss, (m - 1) as nat) + runs_bytes(
            close_runs(runs_of(quality_column(ss, m - 1))),
        )
    }
}

/// The payload body of a message of the samples `ss` with `m` variables,
/// before compression.
pub open spec fn payload(
    ss: Seq<SampleView>,
    refs: Seq<Option<usize>>,
    xor: bool,
    m: nat,
    simple8b: bool,
) -> Seq<u8> {
    (if simple8b {
        packed_section(ss, refs, xor, m)
    } else {
        varint_section(ss, refs, xor, m, ss.len())
    }) + quality_section(ss, m)
}

/// The timestamp a message carries: that of its first sample, 0 if empty.
pub open spec fn start_time(ss: Seq<SampleView>) -> u64 {
    if ss.len() > 0 {
        ss[0].0
    } else {
        0
    }
}

/// The uncompressed header of a message of the samples `ss`.
pub open spec fn frame_header(id: Seq<u8>, ss: Seq<SampleView>) -> Seq<u8> {
    id + be_bytes(start_time(ss)) + varint_bytes(ss.len() as i32)
}

/// The frame of a message of the samples `ss`.
pub open spec fn frame(
    id: Seq<u8>,
    ss: Seq<SampleView>,
    refs: Seq<Option<usize>>,
    xor: bool,
    m: nat,
    simple8b: bool,
) -> Seq<u8> {
    let p = payload(ss, refs, xor, m, simple8b);
    frame_header(id, ss) + if ss.len() > 4096 {
        gzip_best(p)
    } else {
        p
    }
}

} // verus!
