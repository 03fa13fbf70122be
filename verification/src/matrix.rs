//! The source matrix: decoding, row extraction, and flattening.
//!
//! A matrix is a MessagePack array of three fields — row count, column
//! count, and a flattened row-major array of complex samples, each a
//! two-element array of 64-bit floats. The decoders are proved to agree
//! exactly with specification parsers; extraction and flattening are
//! specified over the decoded sequence.

use vstd::prelude::*;

verus! {

use vstd::arithmetic::mul::lemma_mul_inequality;
use crate::msgpack::spec_parse_uint;
use crate::msgpack::spec_parse_array_len;
use crate::msgpack::spec_parse_f64_bits;
use crate::msgpack::parse_uint;
use crate::msgpack::parse_array_len;
use crate::msgpack::parse_f64_bits;
use crate::PipelineError;

/// One complex sample, both components carried as IEEE 754 bit
/// patterns.
#[derive(Clone, Copy, Debug, PartialEq, Eq, Structural)]
pub struct Cpx {
    pub re_bits: u64,
    pub im_bits: u64,
}

/// Matrix descriptor: declared shape and the flattened row-major
/// sample array. The sample at logical position `(r, c)` sits at flat
/// index `r * cols + c`.
pub struct SourceMat {
    pub rows: u64,
    pub cols: u64,
    pub raw_values: Vec<Cpx>,
}

/// The declared shape agrees with the number of samples actually
/// decoded.
pub open spec fn shape_ok(m: &SourceMat) -> bool {
    m.rows * m.cols == m.raw_values@.len()
}

/// Specification parser for one complex sample: a two-element array of
/// two `float 64` values, real part first.
pub open spec fn spec_parse_pair(s: Seq<u8>) -> Option<(int, Cpx)> {
    match spec_parse_array_len(s) {
        None => None,
        Some((c0, alen)) => {
            if alen != 2 {
                None
            } else {
                match spec_parse_f64_bits(s.skip(c0)) {
                    None => None,
                    Some((c1, re)) => {
                        match spec_parse_f64_bits(s.skip(c0 + c1)) {
                            None => None,
                            Some((c2, im)) => Some(
                                (c0 + c1 + c2, Cpx { re_bits: re, im_bits: im }),
                            ),
                        }
                    },
                }
            }
        },
    }
}

/// Specification parser for `n` consecutive complex samples.
pub open spec fn spec_parse_samples(s: Seq<u8>, n: u64) -> Option<(int, Seq<Cpx>)>
    decreases n,
{
    if n == 0 {
        Some((0int, Seq::empty()))
    } else {
        match spec_parse_pair(s) {
            None => None,
            Some((c, p)) => {
                match spec_parse_samples(s.skip(c), (n - 1) as u64) {
                    None => None,
                    Some((c2, rest)) => Some((c + c2, seq![p] + rest)),
                }
            },
        }
    }
}

/// The selected-index file: a single unsigned integer filling the whole
/// buffer.
pub open spec fn spec_decode_index(s: Seq<u8>) -> Option<u64> {
    match spec_parse_uint(s) {
        None => None,
        Some((c, v)) => {
            if c == s.len() {
                Some(v)
            } else {
                None
            }
        },
    }
}

/// The matrix file: an array header of exactly three fields — two
/// unsigned integers and the sample array — filling the whole buffer.
pub open spec fn spec_decode_matrix(s: Seq<u8>) -> Option<(u64, u64, Seq<Cpx>)> {
    match spec_parse_array_len(s) {
        None => None,
        Some((c0, hlen)) => {
            if hlen != 3 {
                None
            } else {
                match spec_parse_uint(s.skip(c0)) {
                    None => None,
                    Some((c1, rows)) => {
                        match spec_parse_uint(s.skip(c0 + c1)) {
                            None => None,
                            Some((c2, cols)) => {
                                match spec_parse_array_len(s.skip(c0 + c1 + c2)) {
                                    None => None,
                                    Some((c3, n)) => {
                                        match spec_parse_samples(s.skip(c0 + c1 + c2 + c3), n) {
                                            None => None,
                                            Some((c4, vals)) => {
                                                if c0 + c1 + c2 + c3 + c4 == s.len() {
                                                    Some((rows, cols, vals))
                                                } else {
                                                    None
                                                }
                                            },
                                        }
                                    },
                                }
                            },
                        }
                    },
                }
            }
        },
    }
}

/// Decodes the selected row index from its own buffer.
///
/// Fails with `DecodeError` exactly when the buffer is not one complete
/// unsigned-integer encoding with nothing after it.
pub fn decode_index(buf: &Vec<u8>) -> (r: Result<u64, PipelineError>)
    ensures
        match r {
            Ok(v) => spec_decode_index(buf@) == Some(v),
            Err(e) => e == PipelineError::DecodeError && spec_decode_index(buf@) is None,
        },
{
    proof {
        assert(buf@.skip(0) =~= buf@);
    }
    match parse_uint(buf, 0) {
        None => Err(PipelineError::DecodeError),
        Some((v, p)) => {
            if p == buf.len() {
                Ok(v)
            } else {
                Err(PipelineError::DecodeError)
            }
        },
    }
}

/// Decodes one complex sample at `pos`; agrees exactly with
/// `spec_parse_pair` on the suffix starting there.
fn parse_pair(buf: &Vec<u8>, pos: usize) -> (r: Option<(Cpx, usize)>)
    requires
        pos <= buf@.len(),
    ensures
        match r {
            Some(cp) => {
                &&& spec_parse_pair(buf@.skip(pos as int)) == Some(((cp.1 - pos) as int, cp.0))
                &&& pos < cp.1 <= buf@.len()
            },
            None => spec_parse_pair(buf@.skip(pos as int)) is None,
        },
{
    let ghost t = buf@.skip(pos as int);
    match parse_array_len(buf, pos) {
        None => None,
        Some((alen, p1)) => {
            proof {
                assert(t.skip((p1 - pos) as int) =~= buf@.skip(p1 as int));
            }
            if alen != 2 {
                return None;
            }
            match parse_f64_bits(buf, p1) {
                None => None,
                Some((re, p2)) => {
                    proof {
                        assert(t.skip((p2 - pos) as int) =~= buf@.skip(p2 as int));
                    }
                    match parse_f64_bits(buf, p2) {
                        None => None,
                        Some((im, p3)) => Some((Cpx { re_bits: re, im_bits: im }, p3)),
                    }
                },
            }
        },
    }
}

/// Decodes `n` consecutive complex samples starting at `pos`; agrees
/// exactly with `spec_parse_samples` on the suffix starting there.
fn parse_samples(buf: &Vec<u8>, pos: usize, n: u64) -> (r: Option<(Vec<Cpx>, usize)>)
    requires
        pos <= buf@.len(),
    ensures
        match r {
            Some(vp) => {
                &&& spec_parse_samples(buf@.skip(pos as int), n) == Some(
                    ((vp.1 - pos) as int, vp.0@),
                )
                &&& pos <= vp.1 <= buf@.len()
            },
            None => spec_parse_samples(buf@.skip(pos as int), n) is None,
        },
{
    let ghost full = buf@.skip(pos as int);
    let mut acc: Vec<Cpx> = Vec::new();
    let mut p: usize = pos;
    let mut i: u64 = 0;
    proof {
        match spec_parse_samples(full, n) {
            Some((c2, v2)) => {
                assert(Seq::<Cpx>::empty() + v2 =~= v2);
            },
            None => {},
        }
    }
    while i < n
        invariant
            pos <= p <= buf@.len(),
            i <= n,
            acc@.len() == i as nat,
            full == buf@.skip(pos as int),
            spec_parse_samples(full, n) == (match spec_parse_samples(
                buf@.skip(p as int),
                (n - i) as u64,
            ) {
                None => None::<(int, Seq<Cpx>)>,
                Some((c2, v2)) => Some((p - pos + c2, acc@ + v2)),
            }),
        decreases n - i,
    {
        let ghost rem = buf@.skip(p as int);
        match parse_pair(buf, p) {
            None => {
                proof {
                    assert(spec_parse_samples(rem, (n - i) as u64) is None);
                }
                return None;
            },
            Some((cpx, p2)) => {
                proof {
                    assert(rem.skip((p2 - p) as int) =~= buf@.skip(p2 as int));
                    match spec_parse_samples(buf@.skip(p2 as int), (n - i - 1) as u64) {
                        Some((c2, v2)) => {
                            assert(acc@ + (seq![cpx] + v2) =~= acc@.push(cpx) + v2);
                        },
                        None => {},
                    }
                }
                acc.push(cpx);
                p = p2;
                i = i + 1;
            },
        }
    }
    proof {
        assert(acc@ + Seq::<Cpx>::empty() =~= acc@);
    }
    Some((acc, p))
}

/// Decodes a source matrix from its own buffer.
///
/// Fails with `DecodeError` exactly when the buffer is not one complete
/// matrix record with nothing after it. The declared shape is *not*
/// validated here; see `shape_ok` and the pipeline's `ShapeMismatch`.
pub fn decode_matrix(buf: &Vec<u8>) -> (r: Result<SourceMat, PipelineError>)
    ensures
        match r {
            Ok(m) => spec_decode_matrix(buf@) == Some((m.rows, m.cols, m.raw_values@)),
            Err(e) => e == PipelineError::DecodeError && spec_decode_matrix(buf@) is None,
        },
{
    proof {
        assert(buf@.skip(0) =~= buf@);
    }
    let hdr = parse_array_len(buf, 0);
    match hdr {
        None => Err(PipelineError::DecodeError),
        Some((hlen, p0)) => {
            if hlen != 3 {
                return Err(PipelineError::DecodeError);
            }
            match parse_uint(buf, p0) {
                None => Err(PipelineError::DecodeError),
                Some((rows, p1)) => {
                    match parse_uint(buf, p1) {
                        None => Err(PipelineError::DecodeError),
                        Some((cols, p2)) => {
                            match parse_array_len(buf, p2) {
                                None => Err(PipelineError::DecodeError),
                                Some((count, p3)) => {
                                    match parse_samples(buf, p3, count) {
                                        None => Err(PipelineError::DecodeError),
                                        Some((vals, p4)) => {
                                            if p4 == buf.len() {
                                                Ok(SourceMat { rows, cols, raw_values: vals })
                                            } else {
                                                Err(PipelineError::DecodeError)
                                            }
                                        },
                                    }
                                },
                            }
                        },
                    }
                },
            }
        },
    }
}

/// Slices the selected row out of the matrix: exactly `cols` samples,
/// in their original order.
///
/// Fails with `IndexOutOfRange` exactly when the index is at or past
/// the row count, or the matrix has no columns.
pub fn extract_row(m: &SourceMat, index: u64) -> (r: Result<Vec<Cpx>, PipelineError>)
    requires
        shape_ok(m),
    ensures
        match r {
            Ok(row) => {
                &&& index < m.rows
                &&& m.cols >= 1
                &&& row@ == m.raw_values@.subrange(
                    index as int * m.cols as int,
                    index as int * m.cols as int + m.cols as int,
                )
            },
            Err(e) => {
                &&& e == PipelineError::IndexOutOfRange
                &&& !(index < m.rows && m.cols >= 1)
            },
        },
{
    if m.cols == 0 || index >= m.rows {
        return Err(PipelineError::IndexOutOfRange);
    }
    let len = m.raw_values.len();
    proof {
        lemma_mul_inequality(index as int + 1, m.rows as int, m.cols as int);
        assert((index as int + 1) * m.cols as int == index as int * m.cols as int + m.cols as int)
            by (nonlinear_arith);
        assert(index as int * m.cols as int + m.cols as int <= len as int);
    }
    let off = (index * m.cols) as usize;
    let cols = m.cols as usize;
    let mut out: Vec<Cpx> = Vec::new();
    let mut j: usize = 0;
    while j < cols
        invariant
            shape_ok(m),
            cols == m.cols,
            off as int == index as int * m.cols as int,
            off + cols <= m.raw_values@.len(),
            m.raw_values@.len() <= usize::MAX,
            j <= cols,
            out@.len() == j as nat,
            forall|k: int| 0 <= k < j ==> out@[k] == m.raw_values@[off + k],
        decreases cols - j,
    {
        let v = m.raw_values[off + j];
        out.push(v);
        j = j + 1;
    }
    proof {
        assert(out@ =~= m.raw_values@.subrange(
            index as int * m.cols as int,
            index as int * m.cols as int + m.cols as int,
        ));
    }
    Ok(out)
}

/// The flattened form of a row: real and imaginary parts interleaved,
/// doubling the element count.
pub open spec fn flatten_spec(row: Seq<Cpx>) -> Seq<u64> {
    Seq::new(
        2 * row.len(),
        |k: int|
            if k % 2 == 0 {
                row[k / 2].re_bits
            } else {
                row[k / 2].im_bits
            },
    )
}

/// Interleaves each sample's real and imaginary parts into a flat
/// sequence of bit patterns.
pub fn flatten(row: &Vec<Cpx>) -> (r: Vec<u64>)
    ensures
        r@ == flatten_spec(row@),
{
    let mut out: Vec<u64> = Vec::new();
    let mut j: usize = 0;
    while j < row.len()
        invariant
            j <= row@.len(),
            out@.len() == 2 * j as nat,
            forall|k: int| 0 <= k < 2 * j ==> out@[k] == flatten_spec(row@)[k],
        decreases row@.len() - j,
    {
        let c = row[j];
        out.push(c.re_bits);
        out.push(c.im_bits);
        j = j + 1;
    }
    proof {
        assert(out@ =~= flatten_spec(row@));
    }
    out
}

} // verus!
