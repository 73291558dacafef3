use jetstream::encoding::bitops::{zig_zag_decode64, zig_zag_encode64};
use jetstream::encoding::simple8b;
use jetstream::varint::{put_uvarint32, put_varint32, uvarint32, varint32};
use jetstream::{
    create_spatial_refs, get_delta_encoding, CodecError, Dataset, DatasetWithQuality, Decoder,
    Encoder,
};

const ID: [u8; 16] = [1, 2, 3, 4, 5, 6, 7, 8, 9, 10, 11, 12, 13, 14, 15, 16];

fn sample(t: u64, i32s: &[i32], q: &[u32]) -> DatasetWithQuality {
    DatasetWithQuality {
        t,
        i32s: i32s.to_vec(),
        q: q.to_vec(),
    }
}

#[test]
fn zig_zag_values() {
    assert_eq!(zig_zag_encode64(0), 0);
    assert_eq!(zig_zag_encode64(-1), 1);
    assert_eq!(zig_zag_encode64(1), 2);
    assert_eq!(zig_zag_encode64(-2), 3);
    assert_eq!(zig_zag_encode64(i64::MAX), u64::MAX - 1);
    assert_eq!(zig_zag_encode64(i64::MIN), u64::MAX);
    for x in [0i64, 1, -1, 12345, -98765, i64::MAX, i64::MIN] {
        assert_eq!(zig_zag_decode64(zig_zag_encode64(x)), x);
    }
}

#[test]
fn varint_values() {
    let mut buf = Vec::new();
    assert_eq!(put_uvarint32(&mut buf, 300), 2);
    assert_eq!(buf, vec![0xac, 0x02]);
    assert_eq!(uvarint32(&buf), Ok((300, 2)));
    let mut buf = Vec::new();
    assert_eq!(put_uvarint32(&mut buf, u32::MAX), 5);
    assert_eq!(buf, vec![0xff, 0xff, 0xff, 0xff, 0x0f]);
    assert_eq!(uvarint32(&buf), Ok((u32::MAX, 5)));
    let mut buf = Vec::new();
    assert_eq!(put_varint32(&mut buf, -3), 1);
    assert_eq!(buf, vec![5]);
    assert_eq!(varint32(&buf), Ok((-3, 1)));
    let mut buf = Vec::new();
    put_varint32(&mut buf, i32::MIN);
    assert_eq!(varint32(&buf), Ok((i32::MIN, 5)));
}

#[test]
fn varint_six_byte_chain_is_an_error() {
    let buf = [0x80u8, 0x80, 0x80, 0x80, 0x80, 0x01];
    assert_eq!(uvarint32(&buf), Err(CodecError::VarintOverflow));
    assert_eq!(varint32(&buf), Err(CodecError::VarintOverflow));
}

#[test]
fn varint_fifth_byte_too_large_is_an_error() {
    let buf = [0xffu8, 0xff, 0xff, 0xff, 0x10];
    assert_eq!(uvarint32(&buf), Err(CodecError::VarintOverflow));
}

#[test]
fn varint_cut_off_is_an_error() {
    assert_eq!(uvarint32(&[0x80u8, 0x80]), Err(CodecError::VarintOverflow));
    assert_eq!(uvarint32(&[]), Err(CodecError::VarintOverflow));
}

#[test]
fn simple8b_selector_words() {
    assert_eq!(simple8b::encode_all(&vec![1; 240]).unwrap(), vec![0]);
    assert_eq!(simple8b::encode_all(&vec![1; 120]).unwrap(), vec![1 << 60]);
    assert_eq!(
        simple8b::encode_all(&vec![1; 60]).unwrap(),
        vec![(2 << 60) | ((1 << 60) - 1)]
    );
    assert_eq!(simple8b::encode_all(&[5, 7]).unwrap(), vec![(14 << 60) | 5 | (7 << 30)]);
    assert_eq!(simple8b::encode_all(&[1 << 40]).unwrap(), vec![(15 << 60) | (1 << 40)]);
    // 250 ones: a run of 240, then the ten that are left at 6 bits each
    let words = simple8b::encode_all(&vec![1; 250]).unwrap();
    assert_eq!(words.len(), 2);
    assert_eq!(words[0], 0);
    assert_eq!(words[1] >> 60, 7);
}

#[test]
fn simple8b_round_trip_mixed() {
    let values: Vec<u64> = (0..1000u64).map(|k| (k * k * 7919) % (1 << (k % 61))).collect();
    let words = simple8b::encode_all(&values).unwrap();
    let mut decoded = Vec::new();
    let n = simple8b::decode_all(&mut decoded, &words).unwrap();
    assert_eq!(n, values.len());
    assert_eq!(decoded, values);
    let mut dst = vec![0u64; values.len()];
    let j = simple8b::encode_all_ref(&mut dst, &values).unwrap();
    assert_eq!(&dst[..j], &words[..]);
}

#[test]
fn simple8b_value_out_of_bounds() {
    assert_eq!(
        simple8b::encode_all(&[3, 1 << 60]),
        Err(CodecError::ValueOutOfBounds)
    );
    let mut dst = vec![0u64; 2];
    assert_eq!(
        simple8b::encode_all_ref(&mut dst, &[u64::MAX, 0]),
        Err(CodecError::ValueOutOfBounds)
    );
}

#[test]
fn simple8b_for_each_stops_at_limit() {
    let mut enc = simple8b::Encoder::new();
    for k in 0..30u64 {
        enc.write(k);
    }
    enc.write(1 << 50);
    let bytes = enc.bytes().unwrap();
    // the first word holds fifteen values of four bits
    let (vals, words) = simple8b::for_each(&bytes, 5);
    assert_eq!(vals, vec![0, 1, 2, 3, 4]);
    assert_eq!(words, 1);
    let (all, words_all) = simple8b::for_each(&bytes, 1000);
    assert_eq!(all.len(), 31);
    assert_eq!(all[30], 1 << 50);
    assert_eq!(words_all, bytes.len() / 8);
    assert_eq!(simple8b::count_bytes(&bytes), Ok(31));
}

#[test]
fn spatial_refs_map() {
    let refs = create_spatial_refs(16, 2, 2, true);
    let mut expected = vec![None; 16];
    for i in 4..8 {
        expected[i] = Some(i - 4);
    }
    for i in 12..16 {
        expected[i] = Some(i - 4);
    }
    assert_eq!(refs, expected);
    let refs = create_spatial_refs(9, 2, 1, false);
    assert_eq!(
        refs,
        vec![None, None, None, Some(0), Some(1), Some(2), None, None, None]
    );
}

#[test]
fn delta_layers_are_three() {
    assert_eq!(get_delta_encoding(4000), 3);
    assert_eq!(get_delta_encoding(150000), 3);
}

#[test]
fn new_datasets_are_zero() {
    assert_eq!(Dataset::new(3).i32s, vec![0, 0, 0]);
    let d = DatasetWithQuality::new(2);
    assert_eq!((d.t, d.i32s, d.q), (0, vec![0, 0], vec![0, 0]));
}

#[test]
fn empty_message_is_header_only() {
    let mut enc = Encoder::new(ID, 8, 4000, 20);
    let (frame, len) = enc.end_encode().unwrap();
    assert_eq!(len, 25);
    assert_eq!(&frame[..16], &ID[..]);
    assert_eq!(&frame[16..24], &[0u8; 8]);
    assert_eq!(frame[24], 0);
    let mut dec = Decoder::new(ID, 8, 4000, 20);
    assert_eq!(dec.decode_to_buffer(&frame, len), Ok(()));
    assert_eq!(dec.decoded_samples(), 0);
}

fn varied(k: usize, m: usize) -> DatasetWithQuality {
    let vals: Vec<i32> = (0..m)
        .map(|i| ((k * k * 31 + i * 1_000_003) % 200_003) as i32 - 100_000)
        .collect();
    let q: Vec<u32> = (0..m).map(|i| if (k / 3 + i) % 4 == 0 { 7 } else { 0 }).collect();
    sample(1_000 + k as u64, &vals, &q)
}

fn round_trip(m: usize, n: usize, xor: bool, spatial: bool, extreme: bool) {
    let mut enc = Encoder::new(ID, m, 4000, n);
    let mut dec = Decoder::new(ID, m, 4000, n);
    enc.set_xor(xor);
    dec.set_xor(xor);
    if spatial {
        enc.set_spatial_refs(m, 2, 0, false);
        dec.set_spatial_refs(m, 2, 0, false);
    }
    let data: Vec<DatasetWithQuality> = (0..n)
        .map(|k| {
            let mut s = varied(k, m);
            if extreme {
                s.i32s[0] = if k % 2 == 0 { i32::MAX } else { i32::MIN };
            }
            s
        })
        .collect();
    let mut frame = Vec::new();
    for (k, d) in data.iter().enumerate() {
        let (f, len) = enc.encode(d).unwrap();
        if k + 1 < n {
            assert_eq!(len, 0);
        } else {
            assert_eq!(len, f.len());
            frame = f;
        }
    }
    // header: identifier, then the first timestamp big-endian
    assert_eq!(&frame[..16], &ID[..]);
    assert_eq!(&frame[16..24], &1_000u64.to_be_bytes());
    dec.decode_to_buffer(&frame, frame.len()).unwrap();
    assert_eq!(dec.decoded_samples(), n);
    for k in 0..n {
        assert_eq!(dec.out[k].i32s, data[k].i32s, "values at {}", k);
        assert_eq!(dec.out[k].q, data[k].q, "quality at {}", k);
    }
    assert_eq!(dec.out[0].t, 1_000);
    if n > 1 {
        assert_eq!(dec.out[n - 1].t, (n - 1) as u64);
    }
}

#[test]
fn round_trip_varint_mode() {
    round_trip(6, 16, false, false, false);
}

#[test]
fn round_trip_simple8b_mode() {
    round_trip(6, 100, false, false, false);
}

#[test]
fn round_trip_xor() {
    round_trip(6, 100, true, false, false);
    round_trip(6, 10, true, false, false);
}

#[test]
fn round_trip_spatial_refs() {
    round_trip(6, 100, false, true, false);
    round_trip(6, 7, false, true, true);
}

#[test]
fn round_trip_wrapping_extremes() {
    round_trip(3, 50, false, false, true);
    round_trip(3, 5, false, false, true);
    round_trip(3, 50, true, false, true);
}

#[test]
fn round_trip_compressed_body() {
    let n = 5000;
    let m = 2;
    let mut enc = Encoder::new(ID, m, 4000, n);
    let mut dec = Decoder::new(ID, m, 4000, n);
    let data: Vec<DatasetWithQuality> = (0..n).map(|k| varied(k, m)).collect();
    let mut frame = Vec::new();
    for d in &data {
        let (f, len) = enc.encode(d).unwrap();
        if len > 0 {
            frame = f;
        }
    }
    // the body after the 24-byte header and the 2-byte count is a gzip member
    assert_eq!(&frame[24..26], &[0x90, 0x4e]);
    assert_eq!(&frame[26..28], &[0x1f, 0x8b]);
    dec.decode_to_buffer(&frame, frame.len()).unwrap();
    for k in 0..n {
        assert_eq!(dec.out[k].i32s, data[k].i32s);
        assert_eq!(dec.out[k].q, data[k].q);
    }
}

#[test]
fn early_end_encode() {
    let mut enc = Encoder::new(ID, 2, 4000, 40);
    let mut dec = Decoder::new(ID, 2, 4000, 40);
    for k in 0..5 {
        assert_eq!(enc.encode(&varied(k, 2)).unwrap().1, 0);
    }
    let (frame, _) = enc.end_encode().unwrap();
    dec.decode_to_buffer(&frame, frame.len()).unwrap();
    assert_eq!(dec.decoded_samples(), 5);
    for k in 0..5 {
        assert_eq!(dec.out[k].i32s, varied(k, 2).i32s);
    }
}

#[test]
fn reset_behaves_as_new() {
    let data: Vec<DatasetWithQuality> = (0..4).map(|k| varied(k, 3)).collect();
    let mut fresh = Encoder::new(ID, 3, 4000, 4);
    let mut used = Encoder::new(ID, 3, 4000, 4);
    used.encode(&varied(90, 3)).unwrap();
    used.encode(&varied(91, 3)).unwrap();
    used.cancel_encode();
    let mut reused = Encoder::new(ID, 3, 4000, 4);
    reused.encode(&varied(50, 3)).unwrap();
    reused.end_encode().unwrap();
    let mut frames = Vec::new();
    for enc in [&mut fresh, &mut used, &mut reused] {
        let mut last = Vec::new();
        for d in &data {
            last = enc.encode(d).unwrap().0;
        }
        frames.push(last);
    }
    assert!(!frames[0].is_empty());
    assert_eq!(frames[0], frames[1]);
    assert_eq!(frames[0], frames[2]);
}

#[test]
fn wrong_id_leaves_output_unchanged() {
    let mut enc = Encoder::new(ID, 2, 4000, 1);
    let (frame, _) = enc.encode(&sample(5, &[10, -10], &[1, 2])).unwrap();
    let mut other = ID;
    other[15] = 99;
    let mut dec = Decoder::new(other, 2, 4000, 1);
    assert_eq!(
        dec.decode_to_buffer(&frame, frame.len()),
        Err(CodecError::IdMismatch)
    );
    assert_eq!(dec.out[0].i32s, vec![0, 0]);
    assert_eq!(dec.out[0].q, vec![0, 0]);
}

#[test]
fn malformed_frames() {
    let mut dec = Decoder::new(ID, 2, 4000, 5000);
    assert_eq!(dec.decode_to_buffer(&ID[..10], 10), Err(CodecError::Truncated));
    assert_eq!(dec.decode_to_buffer(&ID, 16), Err(CodecError::Truncated));
    let mut frame = ID.to_vec();
    frame.extend_from_slice(&[0; 8]);
    frame.extend_from_slice(&[0x80, 0x80, 0x80, 0x80, 0x80, 0x80]);
    assert_eq!(
        dec.decode_to_buffer(&frame, frame.len()),
        Err(CodecError::VarintOverflow)
    );
    // a count above the compression threshold with a body that is no gzip member
    let mut frame = ID.to_vec();
    frame.extend_from_slice(&[0; 8]);
    frame.extend_from_slice(&[0xd0, 0x4e]);
    frame.extend_from_slice(&[1, 2, 3, 4]);
    assert_eq!(
        dec.decode_to_buffer(&frame, frame.len()),
        Err(CodecError::InflateError)
    );
    // packed values missing
    let mut dec = Decoder::new(ID, 2, 4000, 20);
    let mut frame = ID.to_vec();
    frame.extend_from_slice(&[0; 8]);
    frame.push(6);
    assert_eq!(
        dec.decode_to_buffer(&frame, frame.len()),
        Err(CodecError::Truncated)
    );
}

#[test]
fn quality_runs_round_trip() {
    let mut enc = Encoder::new(ID, 1, 4000, 8);
    let mut dec = Decoder::new(ID, 1, 4000, 8);
    let qs = [0u32, 0, 1, 0x41, 0x41, 0x41, 0, 9];
    let mut frame = Vec::new();
    for (k, q) in qs.iter().enumerate() {
        frame = enc.encode(&sample(k as u64, &[k as i32], &[*q])).unwrap().0;
    }
    dec.decode_to_buffer(&frame, frame.len()).unwrap();
    let got: Vec<u32> = (0..8).map(|k| dec.out[k].q[0]).collect();
    assert_eq!(got, qs.to_vec());
    // the quality section: runs (0,2) (1,1) (0x41,3) (0,1) and (9,0) closing
    let tail = &frame[frame.len() - 10..];
    assert_eq!(tail, &[0, 2, 1, 1, 0x41, 3, 0, 1, 9, 0]);
}

#[test]
fn error_messages() {
    assert_eq!(CodecError::ValueOutOfBounds.to_string(), "value out of bounds");
    assert_eq!(CodecError::VarintOverflow.to_string(), "varint overflow");
    assert_eq!(CodecError::Truncated.to_string(), "frame truncated");
    assert_eq!(CodecError::InflateError.to_string(), "gzip error");
    assert_eq!(CodecError::CompressWriteError.to_string(), "could not write gz");
}
