use rownorm::matrix::Cpx;
use rownorm::matrix::SourceMat;
use rownorm::matrix::decode_index;
use rownorm::matrix::decode_matrix;
use rownorm::matrix::extract_row;
use rownorm::matrix::flatten;
use rownorm::normalize::normalize;
use rownorm::output::encode_samples;
use rownorm::PipelineError;

fn cpx(re: f64, im: f64) -> Cpx {
    Cpx { re_bits: re.to_bits(), im_bits: im.to_bits() }
}

fn bits(vals: &[f64]) -> Vec<u64> {
    vals.iter().map(|v| v.to_bits()).collect()
}

#[test]
fn decode_index_fixint() {
    assert_eq!(decode_index(&vec![0x07]), Ok(7));
}

#[test]
fn decode_index_uint8() {
    assert_eq!(decode_index(&vec![0xcc, 0xfe]), Ok(254));
}

#[test]
fn decode_index_uint16_big_endian() {
    assert_eq!(decode_index(&vec![0xcd, 0x01, 0x00]), Ok(256));
}

#[test]
fn decode_index_uint64_big_endian() {
    assert_eq!(
        decode_index(&vec![0xcf, 0x01, 0, 0, 0, 0, 0, 0, 0x02]),
        Ok((1u64 << 56) + 2)
    );
}

#[test]
fn decode_index_rejects_truncated_uint() {
    assert_eq!(decode_index(&vec![0xcd, 0x01]), Err(PipelineError::DecodeError));
}

#[test]
fn decode_index_rejects_signed_marker() {
    // 0xff is a negative fixint, not an unsigned encoding.
    assert_eq!(decode_index(&vec![0xff]), Err(PipelineError::DecodeError));
}

#[test]
fn decode_matrix_reads_fields() {
    // [2, 1, [[1.5, -0.5], [3.0, 0.25]]]
    let mut m = vec![0x93, 0x02, 0x01, 0x92];
    for &(re, im) in &[(1.5f64, -0.5f64), (3.0f64, 0.25f64)] {
        m.push(0x92);
        m.push(0xcb);
        m.extend_from_slice(&re.to_bits().to_be_bytes());
        m.push(0xcb);
        m.extend_from_slice(&im.to_bits().to_be_bytes());
    }
    let mat = decode_matrix(&m).unwrap();
    assert_eq!(mat.rows, 2);
    assert_eq!(mat.cols, 1);
    assert_eq!(mat.raw_values, vec![cpx(1.5, -0.5), cpx(3.0, 0.25)]);
}

#[test]
fn decode_matrix_rejects_non_pair_sample() {
    // Sample array holds a three-element entry.
    let mut m = vec![0x93, 0x01, 0x01, 0x91, 0x93];
    for _ in 0..3 {
        m.push(0xcb);
        m.extend_from_slice(&1.0f64.to_bits().to_be_bytes());
    }
    assert_eq!(decode_matrix(&m).err(), Some(PipelineError::DecodeError));
}

#[test]
fn extract_row_returns_selected_row_in_order() {
    let mat = SourceMat {
        rows: 2,
        cols: 2,
        raw_values: vec![cpx(1.0, 2.0), cpx(3.0, 4.0), cpx(5.0, 6.0), cpx(7.0, 8.0)],
    };
    let row = extract_row(&mat, 1).unwrap();
    assert_eq!(row, vec![cpx(5.0, 6.0), cpx(7.0, 8.0)]);
}

#[test]
fn extract_row_rejects_index_equal_to_rows() {
    let mat = SourceMat { rows: 2, cols: 1, raw_values: vec![cpx(1.0, 0.0), cpx(2.0, 0.0)] };
    assert_eq!(extract_row(&mat, 2), Err(PipelineError::IndexOutOfRange));
}

#[test]
fn flatten_interleaves_real_then_imaginary() {
    let row = vec![cpx(1.0, -2.0), cpx(4.0, 0.0)];
    let flat = flatten(&row);
    assert_eq!(flat, bits(&[1.0, -2.0, 4.0, 0.0]));
}

#[test]
fn normalize_truncates_toward_zero() {
    // -2 * 32767 / 3 = -21844.67; truncation keeps -21844.
    let out = normalize(&bits(&[3.0, -2.0])).unwrap();
    assert_eq!(out, vec![32767, -21844]);
}

#[test]
fn normalize_peak_maps_to_full_scale() {
    let out = normalize(&bits(&[0.25, -8.0, 4.0])).unwrap();
    assert_eq!(out, vec![1023, -32767, 16383]);
}

#[test]
fn normalize_negative_peak_uses_magnitude() {
    let out = normalize(&bits(&[-4.0, 1.0])).unwrap();
    assert_eq!(out, vec![-32767, 8191]);
}

#[test]
fn normalize_subnormal_peak_is_exact() {
    // The smallest positive double still normalizes to full scale.
    let tiny = f64::from_bits(1);
    let out = normalize(&bits(&[tiny, 0.0])).unwrap();
    assert_eq!(out, vec![32767, 0]);
}

#[test]
fn normalize_huge_exponent_spread() {
    let out = normalize(&bits(&[1.0e300, 1.0e-300])).unwrap();
    assert_eq!(out, vec![32767, 0]);
}

#[test]
fn normalize_rejects_empty_input() {
    assert_eq!(normalize(&Vec::new()), Err(PipelineError::NormalizationError));
}

#[test]
fn normalize_rejects_all_zero_input() {
    assert_eq!(normalize(&bits(&[0.0, -0.0])), Err(PipelineError::NormalizationError));
}

#[test]
fn normalize_rejects_nan() {
    assert_eq!(normalize(&bits(&[1.0, f64::NAN])), Err(PipelineError::NormalizationError));
}

#[test]
fn normalize_rejects_infinity() {
    assert_eq!(
        normalize(&bits(&[1.0, f64::NEG_INFINITY])),
        Err(PipelineError::NormalizationError)
    );
}

#[test]
fn encode_samples_little_endian() {
    let out = encode_samples(&vec![1, -1, 0x01020304]);
    assert_eq!(
        out,
        vec![1, 0, 0, 0, 0xff, 0xff, 0xff, 0xff, 0x04, 0x03, 0x02, 0x01]
    );
}
