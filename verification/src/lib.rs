//! Row extraction and fixed-point normalization for complex-valued matrices.
//!
//! The crate decodes a MessagePack-encoded row index and source matrix,
//! slices out the selected row, interleaves each sample's real and
//! imaginary parts, rescales every value so the peak magnitude maps to
//! the largest signed 16-bit sample, and serializes the result as raw
//! little-endian 32-bit integers. Floating-point samples are carried as
//! their IEEE 754 bit patterns, so the whole pipeline is exact integer
//! arithmetic.

use vstd::prelude::*;

pub mod float_bits;
pub mod matrix;
pub mod msgpack;
pub mod normalize;
pub mod output;

verus! {

use crate::matrix::spec_decode_index;
use crate::matrix::spec_decode_matrix;
use crate::matrix::flatten_spec;
use crate::matrix::decode_index;
use crate::matrix::decode_matrix;
use crate::matrix::extract_row;
use crate::matrix::flatten;
use crate::matrix::shape_ok;
use crate::normalize::norm_ok;
use crate::normalize::normalize_spec;
use crate::normalize::normalize;
use crate::output::encode_spec;
use crate::output::encode_samples;

/// Failure conditions of the pipeline stages.
#[derive(Clone, Copy, Debug, PartialEq, Eq, Structural)]
pub enum PipelineError {
    /// Input bytes do not match the expected MessagePack schema.
    DecodeError,
    /// The matrix's declared `rows * cols` disagrees with the sample count.
    ShapeMismatch,
    /// The selected row index is outside `[0, rows)`, or the matrix has no columns.
    IndexOutOfRange,
    /// The peak magnitude is zero, or some sample is not finite.
    NormalizationError,
}

/// What the whole pipeline produces from the two input buffers: decode
/// the index and the matrix, validate the shape, slice the selected
/// row, interleave its components, rescale against the peak, and
/// serialize as little-endian 32-bit words — or the error of the first
/// stage that fails.
pub open spec fn spec_run(ibuf: Seq<u8>, mbuf: Seq<u8>) -> Result<Seq<u8>, PipelineError> {
    match spec_decode_index(ibuf) {
        None => Err(PipelineError::DecodeError),
        Some(index) => match spec_decode_matrix(mbuf) {
            None => Err(PipelineError::DecodeError),
            Some((rows, cols, vals)) => {
                if rows * cols != vals.len() {
                    Err(PipelineError::ShapeMismatch)
                } else if !(index < rows && cols >= 1) {
                    Err(PipelineError::IndexOutOfRange)
                } else {
                    let f = flatten_spec(
                        vals.subrange(index * cols, index * cols + cols),
                    );
                    if !norm_ok(f) {
                        Err(PipelineError::NormalizationError)
                    } else {
                        Ok(encode_spec(normalize_spec(f)))
                    }
                }
            },
        },
    }
}

/// Runs the whole pipeline on the two input buffers and returns the
/// raw output bytes, or the error of the first stage that fails;
/// the result is exactly `spec_run` of the buffers.
pub fn run_pipeline(index_buf: &Vec<u8>, mat_buf: &Vec<u8>) -> (r: Result<
    Vec<u8>,
    PipelineError,
>)
    ensures
        match r {
            Ok(out) => spec_run(index_buf@, mat_buf@) == Ok::<Seq<u8>, PipelineError>(out@),
            Err(e) => spec_run(index_buf@, mat_buf@) == Err::<Seq<u8>, PipelineError>(e),
        },
{
    let index = match decode_index(index_buf) {
        Ok(v) => v,
        Err(e) => {
            return Err(e);
        },
    };
    let mat = match decode_matrix(mat_buf) {
        Ok(m) => m,
        Err(e) => {
            return Err(e);
        },
    };
    proof {
        let r64: int = 0xFFFF_FFFF_FFFF_FFFF;
        assert((mat.rows as int) * (mat.cols as int) <= r64 * r64) by (nonlinear_arith)
            requires
                0 <= mat.rows as int <= r64,
                0 <= mat.cols as int <= r64,
        ;
    }
    if (mat.rows as u128) * (mat.cols as u128) != mat.raw_values.len() as u128 {
        return Err(PipelineError::ShapeMismatch);
    }
    proof {
        assert(shape_ok(&mat));
    }
    let row = match extract_row(&mat, index) {
        Ok(v) => v,
        Err(e) => {
            return Err(e);
        },
    };
    let flat = flatten(&row);
    let norm = match normalize(&flat) {
        Ok(n) => n,
        Err(e) => {
            return Err(e);
        },
    };
    let out = encode_samples(&norm);
    proof {
        assert(norm@.map_values(|x: i32| x as int) =~= normalize_spec(flat@));
    }
    Ok(out)
}

/// Output-size law: a successful run emits exactly `4 * 2 * cols`
/// bytes — one little-endian 32-bit word for each interleaved
/// component of the selected row, with no header or padding.
pub proof fn lemma_output_size(
    ibuf: Seq<u8>,
    mbuf: Seq<u8>,
    out: Seq<u8>,
    rows: u64,
    cols: u64,
    vals: Seq<crate::matrix::Cpx>,
)
    requires
        spec_run(ibuf, mbuf) == Ok::<Seq<u8>, PipelineError>(out),
        spec_decode_matrix(mbuf) == Some((rows, cols, vals)),
    ensures
        out.len() as int == 4 * 2 * (cols as int),
{
    match spec_decode_index(ibuf) {
        None => {
            assert(false);
        },
        Some(index) => {
            assert(rows * cols == vals.len());
            assert(index < rows && cols >= 1);
            vstd::arithmetic::mul::lemma_mul_nonnegative(index as int, cols as int);
            vstd::arithmetic::mul::lemma_mul_inequality(index as int + 1, rows as int, cols as int);
            assert((index as int + 1) * cols as int == index as int * cols as int + cols as int)
                by (nonlinear_arith);
            let row = vals.subrange(index * cols, index * cols + cols);
            let f = flatten_spec(row);
            assert(row.len() == cols);
            assert(f.len() == 2 * cols);
            assert(out == encode_spec(normalize_spec(f)));
            assert(normalize_spec(f).len() == f.len());
            assert(out.len() == 4 * normalize_spec(f).len());
            assert(f.len() as int == 2 * (cols as int));
            assert(out.len() as int == 4 * (f.len() as int));
            assert(out.len() as int == 8 * (cols as int));
        },
    }
}

/// Determinism law: the pipeline's output is a function of the input
/// buffers alone, so re-running it on identical inputs produces
/// byte-identical output.
pub proof fn lemma_pipeline_deterministic(i1: Seq<u8>, m1: Seq<u8>, i2: Seq<u8>, m2: Seq<u8>)
    requires
        i1 == i2,
        m1 == m2,
    ensures
        spec_run(i1, m1) == spec_run(i2, m2),
{
}

} // verus!
