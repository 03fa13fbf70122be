use rownorm::run_pipeline;
use rownorm::PipelineError;

fn f64_be(v: f64) -> [u8; 8] {
    v.to_bits().to_be_bytes()
}

/// Hand-built MessagePack matrix record: fixarray(3) of rows, cols,
/// and a fixarray of fixarray(2) float-64 pairs. Counts must stay
/// within fixint/fixarray range.
fn matrix_bytes(rows: u8, cols: u8, values: &[(f64, f64)]) -> Vec<u8> {
    assert!(rows < 0x80 && cols < 0x80 && values.len() < 16);
    let mut out = vec![0x93u8, rows, cols, 0x90 + values.len() as u8];
    for &(re, im) in values {
        out.push(0x92);
        out.push(0xcb);
        out.extend_from_slice(&f64_be(re));
        out.push(0xcb);
        out.extend_from_slice(&f64_be(im));
    }
    out
}

fn index_bytes(i: u8) -> Vec<u8> {
    assert!(i < 0x80);
    vec![i]
}

fn le_words(words: &[i32]) -> Vec<u8> {
    words.iter().flat_map(|w| w.to_le_bytes()).collect()
}

#[test]
fn round_trip_worked_example() {
    let m = matrix_bytes(1, 2, &[(1.0, -2.0), (4.0, 0.0)]);
    let i = index_bytes(0);
    let out = run_pipeline(&i, &m).unwrap();
    assert_eq!(out, le_words(&[8191, -16383, 32767, 0]));
}

#[test]
fn rmp_serde_encoding_matches_hand_built() {
    let m = rmp_serde::to_vec(&(1u32, 2u32, vec![(1.0f64, -2.0f64), (4.0f64, 0.0f64)]))
        .unwrap();
    assert_eq!(m, matrix_bytes(1, 2, &[(1.0, -2.0), (4.0, 0.0)]));
    let i = rmp_serde::to_vec(&0u32).unwrap();
    assert_eq!(i, index_bytes(0));
    let out = run_pipeline(&i, &m).unwrap();
    assert_eq!(out, le_words(&[8191, -16383, 32767, 0]));
}

#[test]
fn rerun_is_byte_identical() {
    let m = matrix_bytes(2, 2, &[(0.5, -1.5), (2.5, 3.5), (-4.5, 5.5), (6.5, -7.5)]);
    let i = index_bytes(1);
    let first = run_pipeline(&i, &m).unwrap();
    let second = run_pipeline(&i, &m).unwrap();
    assert_eq!(first, second);
}

#[test]
fn second_row_selected() {
    let m = matrix_bytes(2, 1, &[(1.0, 1.0), (2.0, -1.0)]);
    let i = index_bytes(1);
    let out = run_pipeline(&i, &m).unwrap();
    assert_eq!(out, le_words(&[32767, -16383]));
}

#[test]
fn index_one_past_last_row_fails() {
    let m = matrix_bytes(1, 2, &[(1.0, -2.0), (4.0, 0.0)]);
    let i = index_bytes(1);
    assert_eq!(run_pipeline(&i, &m), Err(PipelineError::IndexOutOfRange));
}

#[test]
fn index_far_out_of_range_fails() {
    let m = matrix_bytes(1, 2, &[(1.0, -2.0), (4.0, 0.0)]);
    let i = vec![0xcc, 0xff];
    assert_eq!(run_pipeline(&i, &m), Err(PipelineError::IndexOutOfRange));
}

#[test]
fn zero_column_matrix_fails() {
    let m = matrix_bytes(1, 0, &[]);
    let i = index_bytes(0);
    assert_eq!(run_pipeline(&i, &m), Err(PipelineError::IndexOutOfRange));
}

#[test]
fn all_zero_row_fails_normalization() {
    let m = matrix_bytes(1, 2, &[(0.0, 0.0), (0.0, 0.0)]);
    let i = index_bytes(0);
    assert_eq!(run_pipeline(&i, &m), Err(PipelineError::NormalizationError));
}

#[test]
fn negative_zero_row_fails_normalization() {
    let m = matrix_bytes(1, 1, &[(-0.0, -0.0)]);
    let i = index_bytes(0);
    assert_eq!(run_pipeline(&i, &m), Err(PipelineError::NormalizationError));
}

#[test]
fn nan_sample_fails_normalization() {
    let m = matrix_bytes(1, 2, &[(1.0, f64::NAN), (4.0, 0.0)]);
    let i = index_bytes(0);
    assert_eq!(run_pipeline(&i, &m), Err(PipelineError::NormalizationError));
}

#[test]
fn infinite_sample_fails_normalization() {
    let m = matrix_bytes(1, 1, &[(f64::INFINITY, 1.0)]);
    let i = index_bytes(0);
    assert_eq!(run_pipeline(&i, &m), Err(PipelineError::NormalizationError));
}

#[test]
fn shape_mismatch_detected() {
    let m = matrix_bytes(2, 2, &[(1.0, 0.0)]);
    let i = index_bytes(0);
    assert_eq!(run_pipeline(&i, &m), Err(PipelineError::ShapeMismatch));
}

#[test]
fn wrong_field_count_fails_decode() {
    // Two-field record: rows and cols only.
    let m = vec![0x92, 0x01, 0x02];
    let i = index_bytes(0);
    assert_eq!(run_pipeline(&i, &m), Err(PipelineError::DecodeError));
}

#[test]
fn wrong_primitive_type_for_rows_fails_decode() {
    // `rows` encoded as a float 64 instead of an unsigned integer.
    let mut m = vec![0x93, 0xcb];
    m.extend_from_slice(&f64_be(1.0));
    m.extend_from_slice(&[0x02, 0x90]);
    let i = index_bytes(0);
    assert_eq!(run_pipeline(&i, &m), Err(PipelineError::DecodeError));
}

#[test]
fn truncated_matrix_fails_decode() {
    let mut m = matrix_bytes(1, 2, &[(1.0, -2.0), (4.0, 0.0)]);
    m.pop();
    let i = index_bytes(0);
    assert_eq!(run_pipeline(&i, &m), Err(PipelineError::DecodeError));
}

#[test]
fn trailing_garbage_after_matrix_fails_decode() {
    let mut m = matrix_bytes(1, 2, &[(1.0, -2.0), (4.0, 0.0)]);
    m.push(0x00);
    let i = index_bytes(0);
    assert_eq!(run_pipeline(&i, &m), Err(PipelineError::DecodeError));
}

#[test]
fn empty_index_fails_decode() {
    let m = matrix_bytes(1, 2, &[(1.0, -2.0), (4.0, 0.0)]);
    let i: Vec<u8> = Vec::new();
    assert_eq!(run_pipeline(&i, &m), Err(PipelineError::DecodeError));
}

#[test]
fn trailing_garbage_after_index_fails_decode() {
    let m = matrix_bytes(1, 2, &[(1.0, -2.0), (4.0, 0.0)]);
    let i = vec![0x00, 0x00];
    assert_eq!(run_pipeline(&i, &m), Err(PipelineError::DecodeError));
}

#[test]
fn wide_index_encodings_accepted() {
    // Six rows, one column each; row magnitudes distinguish them.
    let vals: Vec<(f64, f64)> = (0..6).map(|r| (r as f64 + 1.0, 0.0)).collect();
    let m = matrix_bytes(6, 1, &vals);
    let i16enc = vec![0xcd, 0x00, 0x05];
    let out = run_pipeline(&i16enc, &m).unwrap();
    assert_eq!(out, le_words(&[32767, 0]));
    let i32enc = vec![0xce, 0x00, 0x00, 0x00, 0x05];
    assert_eq!(run_pipeline(&i32enc, &m).unwrap(), le_words(&[32767, 0]));
    let i64enc = vec![0xcf, 0, 0, 0, 0, 0, 0, 0, 0x05];
    assert_eq!(run_pipeline(&i64enc, &m).unwrap(), le_words(&[32767, 0]));
}
