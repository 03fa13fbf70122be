//! MessagePack primitive decoding: unsigned integers, array headers,
//! and 64-bit float payloads (kept as raw bit patterns).
//!
//! Each primitive has a specification parser over a byte sequence that
//! returns the consumed length and the value, and an executable parser
//! proved to agree with it exactly — including exactly when decoding
//! fails.

use vstd::prelude::*;

verus! {

use vstd::arithmetic::power2::pow2;
use vstd::arithmetic::power2::lemma_pow2_adds;
use vstd::arithmetic::power2::lemma_pow2_strictly_increases;
use vstd::arithmetic::power2::lemma2_to64;
use vstd::arithmetic::power2::lemma2_to64_rest;

/// The big-endian value of the `n` bytes of `s` starting at `off`.
pub open spec fn be_bytes(s: Seq<u8>, off: int, n: int) -> int
    decreases n,
{
    if n <= 0 {
        0
    } else {
        be_bytes(s, off, n - 1) * 0x100 + s[off + n - 1]
    }
}

/// A big-endian value of `n` bytes lies below `2^(8n)`.
pub proof fn lemma_be_bytes_bound(s: Seq<u8>, off: int, n: int)
    requires
        0 <= n,
        0 <= off,
        off + n <= s.len(),
    ensures
        0 <= be_bytes(s, off, n) < pow2((8 * n) as nat),
    decreases n,
{
    lemma2_to64();
    if n > 0 {
        lemma_be_bytes_bound(s, off, n - 1);
        lemma_pow2_adds((8 * (n - 1)) as nat, 8);
    }
}

/// Reading from a suffix is reading from the original, shifted.
pub proof fn lemma_be_bytes_skip(s: Seq<u8>, d: int, off: int, n: int)
    requires
        0 <= d <= s.len(),
        0 <= off,
        0 <= n,
        d + off + n <= s.len(),
    ensures
        be_bytes(s.skip(d), off, n) == be_bytes(s, d + off, n),
    decreases n,
{
    if n > 0 {
        lemma_be_bytes_skip(s, d, off, n - 1);
    }
}

/// Specification parser for a MessagePack-encoded unsigned integer:
/// positive fixint or the `uint 8/16/32/64` families. Returns the
/// consumed byte count and the value, or nothing if the bytes do not
/// start with a complete unsigned-integer encoding.
pub open spec fn spec_parse_uint(s: Seq<u8>) -> Option<(int, u64)> {
    if s.len() == 0 {
        None
    } else if s[0] < 0x80 {
        Some((1int, s[0] as u64))
    } else if s[0] == 0xcc && s.len() >= 2 {
        Some((2int, s[1] as u64))
    } else if s[0] == 0xcd && s.len() >= 3 {
        Some((3int, be_bytes(s, 1, 2) as u64))
    } else if s[0] == 0xce && s.len() >= 5 {
        Some((5int, be_bytes(s, 1, 4) as u64))
    } else if s[0] == 0xcf && s.len() >= 9 {
        Some((9int, be_bytes(s, 1, 8) as u64))
    } else {
        None
    }
}

/// Specification parser for a MessagePack array header: fixarray or
/// `array 16/32`. Returns the consumed byte count and the element
/// count.
pub open spec fn spec_parse_array_len(s: Seq<u8>) -> Option<(int, u64)> {
    if s.len() == 0 {
        None
    } else if 0x90 <= s[0] && s[0] <= 0x9f {
        Some((1int, (s[0] - 0x90) as u64))
    } else if s[0] == 0xdc && s.len() >= 3 {
        Some((3int, be_bytes(s, 1, 2) as u64))
    } else if s[0] == 0xdd && s.len() >= 5 {
        Some((5int, be_bytes(s, 1, 4) as u64))
    } else {
        None
    }
}

/// Specification parser for a MessagePack `float 64`: the `0xcb` marker
/// followed by the eight big-endian bytes of the IEEE 754 bit pattern,
/// which is returned undecoded.
pub open spec fn spec_parse_f64_bits(s: Seq<u8>) -> Option<(int, u64)> {
    if s.len() >= 9 && s[0] == 0xcb {
        Some((9int, be_bytes(s, 1, 8) as u64))
    } else {
        None
    }
}

/// Reads `n` big-endian bytes at `pos` as an unsigned integer.
fn read_be(buf: &Vec<u8>, pos: usize, n: usize) -> (r: u64)
    requires
        pos + n <= buf@.len(),
        n <= 8,
    ensures
        r as int == be_bytes(buf@, pos as int, n as int),
{
    let blen = buf.len();
    let mut v: u64 = 0;
    let mut i: usize = 0;
    while i < n
        invariant
            pos + n <= blen,
            blen == buf@.len(),
            n <= 8,
            i <= n,
            v as int == be_bytes(buf@, pos as int, i as int),
        decreases n - i,
    {
        proof {
            lemma_be_bytes_bound(buf@, pos as int, i as int);
            lemma2_to64();
            lemma2_to64_rest();
            if 8 * i < 56 {
                lemma_pow2_strictly_increases((8 * i) as nat, 56);
            }
            assert(v < 0x100_0000_0000_0000);
        }
        v = v * 0x100 + (buf[pos + i] as u64);
        i = i + 1;
    }
    v
}

/// Decodes an unsigned integer at `pos`; agrees exactly with
/// `spec_parse_uint` on the suffix starting there.
pub fn parse_uint(buf: &Vec<u8>, pos: usize) -> (r: Option<(u64, usize)>)
    requires
        pos <= buf@.len(),
    ensures
        match r {
            Some(vp) => {
                &&& spec_parse_uint(buf@.skip(pos as int)) == Some(((vp.1 - pos) as int, vp.0))
                &&& pos < vp.1 <= buf@.len()
            },
            None => spec_parse_uint(buf@.skip(pos as int)) is None,
        },
{
    let ghost t = buf@.skip(pos as int);
    proof {
        assert(t.len() == buf@.len() - pos);
        assert(forall|j: int| 0 <= j < t.len() ==> t[j] == buf@[pos + j]);
    }
    let n = buf.len();
    if pos >= n {
        return None;
    }
    let b0 = buf[pos];
    if b0 < 0x80 {
        Some((b0 as u64, pos + 1))
    } else if b0 == 0xcc {
        if n - pos >= 2 {
            Some((buf[pos + 1] as u64, pos + 2))
        } else {
            None
        }
    } else if b0 == 0xcd {
        if n - pos >= 3 {
            let v = read_be(buf, pos + 1, 2);
            proof {
                lemma_be_bytes_skip(buf@, pos as int, 1, 2);
                lemma_be_bytes_bound(t, 1, 2);
                lemma2_to64();
            }
            Some((v, pos + 3))
        } else {
            None
        }
    } else if b0 == 0xce {
        if n - pos >= 5 {
            let v = read_be(buf, pos + 1, 4);
            proof {
                lemma_be_bytes_skip(buf@, pos as int, 1, 4);
                lemma_be_bytes_bound(t, 1, 4);
                lemma2_to64();
            }
            Some((v, pos + 5))
        } else {
            None
        }
    } else if b0 == 0xcf {
        if n - pos >= 9 {
            let v = read_be(buf, pos + 1, 8);
            proof {
                lemma_be_bytes_skip(buf@, pos as int, 1, 8);
                lemma_be_bytes_bound(t, 1, 8);
                lemma2_to64();
            }
            Some((v, pos + 9))
        } else {
            None
        }
    } else {
        None
    }
}

/// Decodes an array header at `pos`; agrees exactly with
/// `spec_parse_array_len` on the suffix starting there.
pub fn parse_array_len(buf: &Vec<u8>, pos: usize) -> (r: Option<(u64, usize)>)
    requires
        pos <= buf@.len(),
    ensures
        match r {
            Some(vp) => {
                &&& spec_parse_array_len(buf@.skip(pos as int)) == Some(((vp.1 - pos) as int, vp.0))
                &&& pos < vp.1 <= buf@.len()
            },
            None => spec_parse_array_len(buf@.skip(pos as int)) is None,
        },
{
    let ghost t = buf@.skip(pos as int);
    proof {
        assert(t.len() == buf@.len() - pos);
        assert(forall|j: int| 0 <= j < t.len() ==> t[j] == buf@[pos + j]);
    }
    let n = buf.len();
    if pos >= n {
        return None;
    }
    let b0 = buf[pos];
    if 0x90 <= b0 && b0 <= 0x9f {
        Some(((b0 - 0x90) as u64, pos + 1))
    } else if b0 == 0xdc {
        if n - pos >= 3 {
            let v = read_be(buf, pos + 1, 2);
            proof {
                lemma_be_bytes_skip(buf@, pos as int, 1, 2);
                lemma_be_bytes_bound(t, 1, 2);
                lemma2_to64();
            }
            Some((v, pos + 3))
        } else {
            None
        }
    } else if b0 == 0xdd {
        if n - pos >= 5 {
            let v = read_be(buf, pos + 1, 4);
            proof {
                lemma_be_bytes_skip(buf@, pos as int, 1, 4);
                lemma_be_bytes_bound(t, 1, 4);
                lemma2_to64();
            }
            Some((v, pos + 5))
        } else {
            None
        }
    } else {
        None
    }
}

/// Decodes a `float 64` at `pos`, returning its raw bit pattern;
/// agrees exactly with `spec_parse_f64_bits` on the suffix starting
/// there.
pub fn parse_f64_bits(buf: &Vec<u8>, pos: usize) -> (r: Option<(u64, usize)>)
    requires
        pos <= buf@.len(),
    ensures
        match r {
            Some(vp) => {
                &&& spec_parse_f64_bits(buf@.skip(pos as int)) == Some(((vp.1 - pos) as int, vp.0))
                &&& pos < vp.1 <= buf@.len()
            },
            None => spec_parse_f64_bits(buf@.skip(pos as int)) is None,
        },
{
    let ghost t = buf@.skip(pos as int);
    proof {
        assert(t.len() == buf@.len() - pos);
        assert(forall|j: int| 0 <= j < t.len() ==> t[j] == buf@[pos + j]);
    }
    let n = buf.len();
    if pos >= n || n - pos < 9 {
        return None;
    }
    let b0 = buf[pos];
    if b0 == 0xcb {
        let v = read_be(buf, pos + 1, 8);
        proof {
            lemma_be_bytes_skip(buf@, pos as int, 1, 8);
            lemma_be_bytes_bound(t, 1, 8);
            lemma2_to64();
        }
        Some((v, pos + 9))
    } else {
        None
    }
}

} // verus!
