use jetstream::{CodecError, DatasetWithQuality, Decoder, Encoder};
use std::f64::consts::PI;

const TWO_PI_OVER_THREE: f64 = 2.0 * PI / 3.0;

/// A deterministic stand-in for the three-phase waveform emulator: a
/// positive-sequence phasor with harmonics and Gaussian noise.
struct Phase {
    pos_seq_mag: f64,
    phase_offset: f64,
    harmonic_numbers: Vec<f64>,
    harmonic_mags: Vec<f64>,
    harmonic_angs: Vec<f64>,
    noise_max: f64,
    p_angle: f64,
    a: f64,
    b: f64,
    c: f64,
}

struct Emulator {
    ts: f64,
    f: f64,
    v: Phase,
    i: Phase,
    seed: u64,
}

impl Emulator {
    fn uniform(&mut self) -> f64 {
        self.seed ^= self.seed << 13;
        self.seed ^= self.seed >> 7;
        self.seed ^= self.seed << 17;
        ((self.seed >> 11) as f64 + 0.5) / ((1u64 << 53) as f64)
    }

    fn normal(&mut self) -> f64 {
        let u1 = self.uniform();
        let u2 = self.uniform();
        (-2.0 * u1.ln()).sqrt() * (2.0 * PI * u2).cos()
    }

    fn step_phase(&mut self, use_v: bool) {
        let (f, ts) = (self.f, self.ts);
        let noise = [self.normal(), self.normal(), self.normal()];
        let p = if use_v { &mut self.v } else { &mut self.i };
        let mut angle = f * 2.0 * PI * ts + p.p_angle;
        if angle > PI {
            angle -= 2.0 * PI;
        }
        p.p_angle = angle;
        let ph = p.phase_offset + p.p_angle;
        let mag = p.pos_seq_mag;
        let mut a = f64::sin(ph) * mag;
        let mut b = f64::sin(ph - TWO_PI_OVER_THREE) * mag;
        let mut c = f64::sin(ph + TWO_PI_OVER_THREE) * mag;
        for k in 0..p.harmonic_numbers.len() {
            let n = p.harmonic_numbers[k];
            let hm = p.harmonic_mags[k] * mag;
            let ang = p.harmonic_angs[k];
            a += f64::sin(n * ph + ang) * hm;
            b += f64::sin(n * (ph - TWO_PI_OVER_THREE) + ang) * hm;
            c += f64::sin(n * (ph + TWO_PI_OVER_THREE) + ang) * hm;
        }
        p.a = a + noise[0] * p.noise_max * mag;
        p.b = b + noise[1] * p.noise_max * mag;
        p.c = c + noise[2] * p.noise_max * mag;
    }

    fn step(&mut self) {
        self.step_phase(true);
        self.step_phase(false);
    }
}

fn create_emulator(sampling_rate: usize, seed: u64) -> Emulator {
    Emulator {
        ts: 1.0 / (sampling_rate as f64),
        f: 50.03,
        v: Phase {
            pos_seq_mag: 400000.0 / f64::sqrt(3.0) * f64::sqrt(2.0),
            phase_offset: 0.0,
            harmonic_numbers: vec![],
            harmonic_mags: vec![],
            harmonic_angs: vec![],
            noise_max: 0.000001,
            p_angle: 0.0,
            a: 0.0,
            b: 0.0,
            c: 0.0,
        },
        i: Phase {
            pos_seq_mag: 500.0,
            phase_offset: 0.0,
            harmonic_numbers: vec![5.0, 7.0, 11.0, 13.0, 17.0, 19.0, 23.0, 25.0],
            harmonic_mags: vec![0.2164, 0.1242, 0.0892, 0.0693, 0.0541, 0.0458, 0.0370, 0.0332],
            harmonic_angs: vec![171.5, 100.4, -52.4, 128.3, 80.0, 2.9, -146.8, 133.9],
            noise_max: 0.00001,
            p_angle: 0.0,
            a: 0.0,
            b: 0.0,
            c: 0.0,
        },
        seed: 0x9e37_79b9_7f4a_7c15 ^ seed,
    }
}

fn set_quality(d: &mut DatasetWithQuality, k: usize, quality_change: bool) {
    for j in 0..d.q.len() {
        d.q[j] = 0;
    }
    if quality_change {
        if k == 2 {
            d.q[0] = 1
        } else if k == 3 {
            d.q[0] = 0x41
        }
    }
}

fn create_input_data(
    ied: &mut Emulator,
    samples: usize,
    count_of_variables: usize,
    quality_change: bool,
) -> Vec<DatasetWithQuality> {
    let mut data = vec![DatasetWithQuality::new(count_of_variables); samples];
    for (k, d) in data.iter_mut().enumerate() {
        ied.step();
        d.t = k as u64;
        let (i, v) = (&ied.i, &ied.v);
        d.i32s[0] = (i.a * 1000.0) as i32;
        d.i32s[1] = (i.b * 1000.0) as i32;
        d.i32s[2] = (i.c * 1000.0) as i32;
        d.i32s[3] = ((i.a + i.b + i.c) * 1000.0) as i32;
        d.i32s[4] = (v.a * 100.0) as i32;
        d.i32s[5] = (v.b * 100.0) as i32;
        d.i32s[6] = (v.c * 100.0) as i32;
        d.i32s[7] = ((v.a + v.b + v.c) * 100.0) as i32;
        set_quality(d, k, quality_change);
    }
    data
}

fn create_input_data_dual_ied(
    ied1: &mut Emulator,
    ied2: &mut Emulator,
    samples: usize,
    count_of_variables: usize,
    quality_change: bool,
) -> Vec<DatasetWithQuality> {
    let mut data = vec![DatasetWithQuality::new(count_of_variables); samples];
    for (k, d) in data.iter_mut().enumerate() {
        ied1.step();
        ied2.step();
        d.t = k as u64;
        let (i1, v1, i2, v2) = (&ied1.i, &ied1.v, &ied2.i, &ied2.v);
        d.i32s[0] = (v1.a * 100.0) as i32;
        d.i32s[1] = (v1.b * 100.0) as i32;
        d.i32s[2] = (v1.c * 100.0) as i32;
        d.i32s[3] = ((v1.a + v1.b + v1.c) * 100.0) as i32;
        d.i32s[4] = (v2.a * 100.0) as i32;
        d.i32s[5] = (v2.b * 100.0) as i32;
        d.i32s[6] = (v2.c * 100.0) as i32;
        d.i32s[7] = ((v2.a + v2.b + v2.c) * 100.0) as i32;
        d.i32s[8] = (i1.a * 1000.0) as i32;
        d.i32s[9] = (i1.b * 1000.0) as i32;
        d.i32s[10] = (i1.c * 1000.0) as i32;
        d.i32s[11] = ((i1.a + i1.b + i1.c) * 1000.0) as i32;
        d.i32s[12] = (i2.a * 1000.0) as i32;
        d.i32s[13] = (i2.b * 1000.0) as i32;
        d.i32s[14] = (i2.c * 1000.0) as i32;
        d.i32s[15] = ((i2.a + i2.b + i2.c) * 1000.0) as i32;
        set_quality(d, k, quality_change);
    }
    data
}

#[derive(Default)]
struct TestCase {
    sampling_rate: usize,
    count_of_variables: usize,
    samples: usize,
    samples_per_message: usize,
    quality_change: bool,
    early_encoding_stop: bool,
    use_spatial_refs: bool,
    expected_size: f64,
}

fn case(name: &str) -> TestCase {
    let (sampling_rate, count_of_variables, samples, samples_per_message, expected_size) =
        match name {
            "a10-1" => (4000, 8, 10, 1, 53.0),
            "a10-2" | "a10-2q" => (4000, 8, 10, 2, 37.0),
            "a10-10" => (4000, 8, 10, 10, 37.0),
            "a4-2q" => (4000, 8, 4, 2, 37.0),
            "a8-8q" => (4000, 8, 8, 8, 24.0),
            "b4000-2" => (4000, 8, 4000, 2, 37.0),
            "b4000-80" => (4000, 8, 4000, 80, 18.0),
            "b4000-60" => (4000, 8, 4000, 60, 18.0),
            "b4000-800" => (4000, 8, 800, 800, 17.0),
            "b4000-4000" => (4000, 8, 4000, 4000, 18.0),
            "b4000-4000s1" | "b4000-4000s2" => (4000, 16, 4000, 4000, 18.0),
            "c4800-2" => (4800, 8, 4800, 2, 36.0),
            "c4800-20" => (4800, 8, 4800, 20, 20.0),
            "d14400-6" => (14400, 8, 14400, 6, 24.0),
            "d4000-4000q" => (4000, 8, 4000, 4000, 17.0),
            "e14400-14400" => (14400, 8, 14400, 14400, 36.0),
            "e14400-14400s" => (14400, 8, 14400, 14400, 20.0),
            "e14400-14400q" => (14400, 8, 14400, 14400, 18.0),
            "f40000-40000" => (4000, 8, 40000, 40000, 17.0),
            "g150000-150000" => (150000, 8, 150000, 150000, 16.0),
            _ => panic!("unknown case {}", name),
        };
    TestCase {
        sampling_rate,
        count_of_variables,
        samples,
        samples_per_message,
        quality_change: name.ends_with('q'),
        early_encoding_stop: name == "e14400-14400s",
        use_spatial_refs: name == "b4000-4000s2",
        expected_size,
    }
}

#[derive(Debug)]
struct EncodeStats {
    samples: usize,
    messages: usize,
    total_bytes: usize,
    total_header_bytes: usize,
}

const EARLY_ENCODING_STOP_SAMPLES: usize = 100;

fn encode_and_decode(
    compare: bool,
    data: &mut [DatasetWithQuality],
    enc: &mut Encoder,
    dec: &mut Decoder,
    early_encoding_stop: bool,
) -> Result<EncodeStats, String> {
    let mut encode_stats = EncodeStats {
        samples: 0,
        messages: 0,
        total_bytes: 0,
        total_header_bytes: 0,
    };
    let mut total_samples_read = 0;

    for i in 0..data.len() {
        encode_stats.samples += 1;
        let (buf, length) = enc.encode(&data[i]).map_err(|e| e.to_string())?;

        // simulate encoding stopping early
        let (buf, length) =
            if early_encoding_stop && length != 0 && i == (EARLY_ENCODING_STOP_SAMPLES - 1) {
                enc.end_encode().map_err(|e| e.to_string())?
            } else {
                (buf, length)
            };

        if length > 0 {
            encode_stats.messages += 1;
            encode_stats.total_bytes += length;
            encode_stats.total_header_bytes += 24;

            dec.decode_to_buffer(&buf, length).map_err(|e| e.to_string())?;

            if compare {
                for i in 0..dec.out.len() {
                    if early_encoding_stop && i >= EARLY_ENCODING_STOP_SAMPLES {
                        break;
                    }
                    for j in 0..dec.i32_count {
                        assert_eq!(
                            data[total_samples_read + i].i32s[j],
                            dec.out[i].i32s[j],
                            "error at {},{}",
                            i,
                            j
                        );
                        assert_eq!(
                            data[total_samples_read + i].q[j],
                            dec.out[i].q[j],
                            "Q fail: {} != {} - ({},{})",
                            data[total_samples_read + i].q[j],
                            dec.out[i].q[j],
                            i,
                            j
                        );
                    }
                }
            }

            total_samples_read += enc.samples_per_message;

            if early_encoding_stop {
                return Ok(encode_stats);
            }
        }
    }

    Ok(encode_stats)
}

fn run_case(name: &str) {
    let id = *uuid::Uuid::new_v4().as_bytes();
    let test = case(name);

    let mut ied = create_emulator(test.sampling_rate, 1);
    let mut data: Vec<DatasetWithQuality> = if test.count_of_variables == 16 {
        let mut ied2 = create_emulator(test.sampling_rate, 2);
        create_input_data_dual_ied(
            &mut ied,
            &mut ied2,
            test.samples,
            test.count_of_variables,
            test.quality_change,
        )
    } else {
        create_input_data(&mut ied, test.samples, test.count_of_variables, test.quality_change)
    };

    let mut stream = Encoder::new(
        id,
        test.count_of_variables,
        test.sampling_rate,
        test.samples_per_message,
    );
    let mut stream_decoder = Decoder::new(
        id,
        test.count_of_variables,
        test.sampling_rate,
        test.samples_per_message,
    );

    if test.use_spatial_refs {
        let groups = test.count_of_variables / 8;
        stream.set_spatial_refs(test.count_of_variables, groups, groups, true);
        stream_decoder.set_spatial_refs(test.count_of_variables, groups, groups, true);
    }

    let encode_stats = encode_and_decode(
        true,
        &mut data,
        &mut stream,
        &mut stream_decoder,
        test.early_encoding_stop,
    )
    .unwrap();

    let theory_bytes_per_message = if test.early_encoding_stop {
        test.count_of_variables * encode_stats.samples * 16
    } else {
        test.count_of_variables * test.samples_per_message * 16
    };
    let mean_bytes_per_message =
        (encode_stats.total_bytes as f64) / (encode_stats.messages as f64);
    let percent = 100.0 * mean_bytes_per_message / (theory_bytes_per_message as f64);
    println!(
        "{}\t{}\t{}\t{}\t{}\t{:.1}\t{:.1}",
        name,
        encode_stats.samples,
        encode_stats.messages,
        encode_stats.total_header_bytes,
        test.samples_per_message,
        mean_bytes_per_message,
        percent
    );
    assert!(percent <= test.expected_size, "{}: {:.1}% > {}%", name, percent, test.expected_size);
}

#[test]
fn test_encode_decode() {
    for name in [
        "a10-1",
        "a10-10",
        "a10-2",
        "a10-2q",
        "a4-2q",
        "a8-8q",
        "b4000-2",
        "b4000-4000",
        "b4000-4000s1",
        "b4000-4000s2",
        "b4000-60",
        "b4000-80",
        "b4000-800",
        "c4800-2",
        "c4800-20",
        "d14400-6",
        "d4000-4000q",
    ] {
        run_case(name);
    }
}

#[test]
fn test_encode_decode_e14400() {
    run_case("e14400-14400");
}

#[test]
fn test_encode_decode_e14400_early_stop() {
    run_case("e14400-14400s");
}

#[test]
fn test_encode_decode_e14400_quality() {
    run_case("e14400-14400q");
}

#[test]
fn test_encode_decode_f40000() {
    run_case("f40000-40000");
}

#[test]
fn test_encode_decode_g150000() {
    run_case("g150000-150000");
}

#[test]
fn test_wrong_id() {
    let id = *uuid::Uuid::new_v4().as_bytes();
    let test = case("a10-1");

    let mut ied = create_emulator(test.sampling_rate, 1);
    let wrong_id = *uuid::Uuid::new_v4().as_bytes();

    let mut data = create_input_data(
        &mut ied,
        test.samples,
        test.count_of_variables,
        test.quality_change,
    );

    let mut stream = Encoder::new(
        id,
        test.count_of_variables,
        test.sampling_rate,
        test.samples_per_message,
    );
    let mut stream_decoder = Decoder::new(
        wrong_id,
        test.count_of_variables,
        test.sampling_rate,
        test.samples_per_message,
    );

    let err = encode_and_decode(
        true,
        &mut data,
        &mut stream,
        &mut stream_decoder,
        test.early_encoding_stop,
    )
    .unwrap_err();
    assert_eq!(err, "IDs did not match");
    assert_eq!(stream_decoder.decoded_samples(), 0);
    assert_eq!(stream_decoder.out[0].i32s, vec![0; 8]);
    assert_eq!(CodecError::IdMismatch.to_string(), "IDs did not match");
}

#[test]
fn test_compressed_frame_not_larger() {
    let id = *uuid::Uuid::new_v4().as_bytes();
    let n = 5000;
    let mut ied = create_emulator(4000, 3);
    let data = create_input_data(&mut ied, n, 8, false);
    let mut enc = Encoder::new(id, 8, 4000, n);
    let mut frame = Vec::new();
    for d in &data {
        let (f, len) = enc.encode(d).unwrap();
        if len > 0 {
            frame = f;
        }
    }
    // header: 16-byte identifier, 8-byte timestamp, 2-byte count
    let mut payload = Vec::new();
    std::io::Read::read_to_end(
        &mut flate2::read::GzDecoder::new(&frame[26..]),
        &mut payload,
    )
    .unwrap();
    assert!(frame.len() <= 26 + payload.len());
    let mut dec = Decoder::new(id, 8, 4000, n);
    dec.decode_to_buffer(&frame, frame.len()).unwrap();
    assert_eq!(dec.decoded_samples(), n);
    assert_eq!(dec.out[n - 1].i32s, data[n - 1].i32s);
}
