//! Serialization of the normalized samples: each signed 32-bit integer
//! becomes four little-endian bytes, concatenated with no header,
//! length prefix, or padding.

use vstd::prelude::*;

verus! {

use vstd::arithmetic::div_mod::lemma_small_mod;
use vstd::arithmetic::div_mod::lemma_mod_add_multiples_vanish;

/// The four little-endian bytes of a signed 32-bit value, via its
/// two's-complement residue.
pub open spec fn le_bytes_of(v: int) -> Seq<u8> {
    let u = v % 0x1_0000_0000;
    seq![
        (u % 0x100) as u8,
        ((u / 0x100) % 0x100) as u8,
        ((u / 0x1_0000) % 0x100) as u8,
        ((u / 0x100_0000) % 0x100) as u8,
    ]
}

/// A whole sample sequence serialized: sample `j` occupies bytes
/// `4j .. 4j + 4`.
pub open spec fn encode_spec(s: Seq<int>) -> Seq<u8> {
    Seq::new(4 * s.len(), |k: int| le_bytes_of(s[k / 4])[k % 4])
}

/// Serializes the samples as raw little-endian 32-bit words.
pub fn encode_samples(v: &Vec<i32>) -> (r: Vec<u8>)
    ensures
        r@ == encode_spec(v@.map_values(|x: i32| x as int)),
{
    let ghost sv = v@.map_values(|x: i32| x as int);
    let mut out: Vec<u8> = Vec::new();
    let mut j: usize = 0;
    while j < v.len()
        invariant
            j <= v@.len(),
            sv == v@.map_values(|x: i32| x as int),
            out@.len() == 4 * j as nat,
            forall|k: int| 0 <= k < 4 * j ==> out@[k] == encode_spec(sv)[k],
        decreases v@.len() - j,
    {
        let x = v[j];
        let w: u32 = if x >= 0 {
            proof {
                lemma_small_mod(x as nat, 0x1_0000_0000);
            }
            x as u32
        } else {
            proof {
                lemma_mod_add_multiples_vanish(x as int, 0x1_0000_0000);
                lemma_small_mod((x as int + 0x1_0000_0000) as nat, 0x1_0000_0000);
            }
            ((x as i64) + 0x1_0000_0000) as u32
        };
        proof {
            assert(w as int == (x as int) % 0x1_0000_0000);
        }
        out.push((w % 0x100) as u8);
        out.push(((w / 0x100) % 0x100) as u8);
        out.push(((w / 0x1_0000) % 0x100) as u8);
        out.push(((w / 0x100_0000) % 0x100) as u8);
        proof {
            assert(sv[j as int] == x as int);
            assert forall|k: int| 4 * j <= k < 4 * (j + 1) implies out@[k] == encode_spec(sv)[k] by {
                assert(k / 4 == j as int);
                assert(k % 4 == k - 4 * (j as int));
            }
        }
        j = j + 1;
    }
    proof {
        assert(out@ =~= encode_spec(sv));
    }
    out
}

} // verus!
