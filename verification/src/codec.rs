//! Bit-interleaving codec between three 21-bit per-axis coordinates and the
//! 63 payload bits of a Morton code: bit `i` of the x coordinate lands in
//! code bit `3*i`, y in `3*i + 1`, z in `3*i + 2`.

use vstd::prelude::*;
use vstd::arithmetic::power2::{
    lemma2_to64, lemma2_to64_rest, lemma_pow2_adds, lemma_pow2_strictly_increases,
    lemma_pow2_unfold, pow2,
};
use crate::morton::Morton;

verus! {

/// The interleaving of the low `n` bits of three nonnegative integers:
/// bit `i` of `x` has weight `8^i`, of `y` weight `2 * 8^i`, of `z` weight
/// `4 * 8^i`. Bits at or beyond `n` are ignored.
pub open spec fn interleave3(x: int, y: int, z: int, n: nat) -> int
    recommends
        0 <= x,
        0 <= y,
        0 <= z,
    decreases n,
{
    if n == 0 {
        0
    } else {
        x % 2 + 2 * (y % 2) + 4 * (z % 2) + 8 * interleave3(x / 2, y / 2, z / 2, (n - 1) as nat)
    }
}

/// An interleaving of `n` bits per axis occupies `3 * n` bits.
pub proof fn lemma_interleave3_bound(x: int, y: int, z: int, n: nat)
    requires
        0 <= x,
        0 <= y,
        0 <= z,
    ensures
        0 <= interleave3(x, y, z, n) < pow2(3 * n),
    decreases n,
{
    if n == 0 {
        assert(pow2(0) == 1) by {
            lemma2_to64();
        }
    } else {
        lemma_interleave3_bound(x / 2, y / 2, z / 2, (n - 1) as nat);
        lemma_pow2_adds(3 * (n - 1) as nat, 3);
        assert(pow2(3) == 8) by {
            lemma2_to64();
        }
    }
}

/// Interleaving loses nothing: distinct coordinate triples below `2^n`
/// give distinct codes, so deinterleaving is exact. This is the bit-level
/// core of the encode/decode round trip.
pub proof fn lemma_interleave3_injective(
    x1: int,
    y1: int,
    z1: int,
    x2: int,
    y2: int,
    z2: int,
    n: nat,
)
    requires
        0 <= x1 < pow2(n),
        0 <= y1 < pow2(n),
        0 <= z1 < pow2(n),
        0 <= x2 < pow2(n),
        0 <= y2 < pow2(n),
        0 <= z2 < pow2(n),
        interleave3(x1, y1, z1, n) == interleave3(x2, y2, z2, n),
    ensures
        x1 == x2,
        y1 == y2,
        z1 == z2,
    decreases n,
{
    if n == 0 {
        assert(pow2(0) == 1) by {
            lemma2_to64();
        }
    } else {
        let t1 = x1 % 2 + 2 * (y1 % 2) + 4 * (z1 % 2);
        let t2 = x2 % 2 + 2 * (y2 % 2) + 4 * (z2 % 2);
        let r1 = interleave3(x1 / 2, y1 / 2, z1 / 2, (n - 1) as nat);
        let r2 = interleave3(x2 / 2, y2 / 2, z2 / 2, (n - 1) as nat);
        lemma_interleave3_bound(x1 / 2, y1 / 2, z1 / 2, (n - 1) as nat);
        lemma_interleave3_bound(x2 / 2, y2 / 2, z2 / 2, (n - 1) as nat);
        assert(t1 + 8 * r1 == t2 + 8 * r2);
        assert(t1 == t2 && r1 == r2);
        assert(x1 % 2 == x2 % 2 && y1 % 2 == y2 % 2 && z1 % 2 == z2 % 2);
        assert(pow2((n - 1) as nat) * 2 == pow2(n)) by {
            lemma_pow2_unfold(n);
        }
        assert(x1 / 2 < pow2((n - 1) as nat) && x2 / 2 < pow2((n - 1) as nat) && y1 / 2 < pow2(
            (n - 1) as nat,
        ) && y2 / 2 < pow2((n - 1) as nat) && z1 / 2 < pow2((n - 1) as nat) && z2 / 2 < pow2(
            (n - 1) as nat,
        ));
        lemma_interleave3_injective(x1 / 2, y1 / 2, z1 / 2, x2 / 2, y2 / 2, z2 / 2, (n - 1) as nat);
        assert(x1 == 2 * (x1 / 2) + x1 % 2);
        assert(x2 == 2 * (x2 / 2) + x2 % 2);
        assert(y1 == 2 * (y1 / 2) + y1 % 2);
        assert(y2 == 2 * (y2 / 2) + y2 % 2);
        assert(z1 == 2 * (z1 / 2) + z1 % 2);
        assert(z2 == 2 * (z2 / 2) + z2 % 2);
    }
}

/// Interleaves the low 21 bits of each coordinate into a 63-bit code.
pub(crate) fn interleave_coords(x: u64, y: u64, z: u64) -> (r: u64)
    ensures
        r as int == interleave3(x as int, y as int, z as int, 21),
        r < 0x8000_0000_0000_0000u64,
{
    let mut r: u64 = 0;
    let mut i: u64 = 21;
    proof {
        assert(pow2(0) == 1) by {
            lemma2_to64();
        }
    }
    while i > 0
        invariant
            i <= 21,
            r as int == interleave3(
                (x >> i) as int,
                (y >> i) as int,
                (z >> i) as int,
                (21 - i) as nat,
            ),
            r < pow2((3 * (21 - i)) as nat),
        decreases i,
    {
        let j: u64 = i - 1;
        let xb: u64 = (x >> j) & 1;
        let yb: u64 = (y >> j) & 1;
        let zb: u64 = (z >> j) & 1;
        proof {
            lemma_step_down(x, j, xb);
            lemma_step_down(y, j, yb);
            lemma_step_down(z, j, zb);
            lemma_pow2_adds((3 * (21 - i)) as nat, 3);
            assert(pow2(3) == 8) by {
                lemma2_to64();
            }
            assert(pow2((3 * (21 - j)) as nat) <= pow2(63)) by {
                if 3 * (21 - j) < 63 {
                    lemma_pow2_strictly_increases((3 * (21 - j)) as nat, 63);
                }
            }
            assert(pow2(63) == 0x8000_0000_0000_0000) by {
                lemma2_to64_rest();
            }
        }
        let t: u64 = xb + 2 * yb + 4 * zb;
        r = r * 8 + t;
        i = j;
    }
    proof {
        assert(x >> 0u64 == x && y >> 0u64 == y && z >> 0u64 == z) by (bit_vector);
        assert(pow2(63) == 0x8000_0000_0000_0000) by {
            lemma2_to64_rest();
        }
    }
    r
}

/// One bit of the downward scan: shifting by `j` instead of `j + 1` brings
/// in exactly bit `j` as the new low bit.
proof fn lemma_step_down(x: u64, j: u64, xb: u64)
    by (bit_vector)
    requires
        j < 21,
        xb == (x >> j) & 1,
    ensures
        ((x >> j) as int) % 2 == xb as int,
        ((x >> j) as int) / 2 == (x >> ((j + 1) as u64)) as int,
        xb < 2,
{
}

/// Recovers the three per-axis coordinates from a 63-bit interleaved code.
pub(crate) fn deinterleave_coords(code: u64) -> (r: (u64, u64, u64))
    requires
        code < 0x8000_0000_0000_0000u64,
    ensures
        interleave3(r.0 as int, r.1 as int, r.2 as int, 21) == code as int,
        r.0 < 0x20_0000,
        r.1 < 0x20_0000,
        r.2 < 0x20_0000,
{
    let mut x: u64 = 0;
    let mut y: u64 = 0;
    let mut z: u64 = 0;
    let mut i: u64 = 21;
    proof {
        assert(code >> ((3 * 21u64) as u64) == 0) by (bit_vector)
            requires
                code < 0x8000_0000_0000_0000u64,
        ;
        assert(pow2(0) == 1) by {
            lemma2_to64();
        }
    }
    while i > 0
        invariant
            i <= 21,
            x < pow2((21 - i) as nat),
            y < pow2((21 - i) as nat),
            z < pow2((21 - i) as nat),
            interleave3(x as int, y as int, z as int, (21 - i) as nat) == (code >> ((3
                * i) as u64)) as int,
        decreases i,
    {
        let j: u64 = i - 1;
        let t: u64 = (code >> (3 * j)) & 7;
        proof {
            lemma_triplet_split(code, j, t);
            lemma_pow2_unfold((21 - j) as nat);
            assert(pow2((21 - j) as nat) <= pow2(21)) by {
                if 21 - j < 21 {
                    lemma_pow2_strictly_increases((21 - j) as nat, 21);
                }
            }
            assert(pow2(21) == 0x20_0000) by {
                lemma2_to64();
            }
        }
        let xb: u64 = t & 1;
        let yb: u64 = (t >> 1u64) & 1;
        let zb: u64 = (t >> 2u64) & 1;
        let x2: u64 = 2 * x + xb;
        let y2: u64 = 2 * y + yb;
        let z2: u64 = 2 * z + zb;
        proof {
            lemma_shift_in_bit(x as int, xb as int);
            lemma_shift_in_bit(y as int, yb as int);
            lemma_shift_in_bit(z as int, zb as int);
        }
        x = x2;
        y = y2;
        z = z2;
        i = j;
    }
    proof {
        assert(code >> ((3 * 0u64) as u64) == code) by (bit_vector);
        assert(pow2(21) == 0x20_0000) by {
            lemma2_to64();
        }
    }
    (x, y, z)
}

/// A triplet of the code, split off from the bits above it, with its three
/// component bits.
proof fn lemma_triplet_split(code: u64, j: u64, t: u64)
    by (bit_vector)
    requires
        j < 21,
        t == (code >> ((3 * j) as u64)) & 7,
    ensures
        t < 8,
        (code >> ((3 * j) as u64)) as int == t as int + 8 * ((code >> ((3 * j + 3) as u64)) as int),
        t as int == (t & 1) as int + 2 * ((t >> 1u64) & 1) as int + 4 * ((t >> 2u64) & 1) as int,
        (t & 1) < 2,
        ((t >> 1u64) & 1) < 2,
        ((t >> 2u64) & 1) < 2,
{
}

/// Appending a low bit doubles the value and adds the bit.
proof fn lemma_shift_in_bit(x: int, b: int)
    by (nonlinear_arith)
    requires
        0 <= x,
        0 <= b < 2,
    ensures
        (2 * x + b) % 2 == b,
        (2 * x + b) / 2 == x,
{
}

impl Morton {
    /// Encodes three per-axis cell indices (each below `2^21`) into a
    /// Morton code; the reserved top bit of the result is zero. Bits of the
    /// coordinates at or beyond 21 are ignored.
    pub fn from_coords(x: u64, y: u64, z: u64) -> (r: Morton)
        ensures
            r.0 as int == interleave3(x as int, y as int, z as int, 21),
            r.inv(),
    {
        let c: u64 = interleave_coords(x, y, z);
        proof {
            assert(c >> 63u64 == 0) by (bit_vector)
                requires
                    c < 0x8000_0000_0000_0000u64,
            ;
        }
        Morton(c)
    }

    /// Decodes the code back into its three per-axis cell indices, each
    /// below `2^21`. Exact inverse of `from_coords` on in-range coordinates
    /// (see `lemma_interleave3_injective`).
    pub fn to_coords(self) -> (r: (u64, u64, u64))
        requires
            self.inv(),
        ensures
            interleave3(r.0 as int, r.1 as int, r.2 as int, 21) == self.0 as int,
            r.0 < 0x20_0000,
            r.1 < 0x20_0000,
            r.2 < 0x20_0000,
    {
        let c: u64 = self.0;
        proof {
            assert(c < 0x8000_0000_0000_0000u64) by (bit_vector)
                requires
                    c >> 63u64 == 0,
            ;
        }
        deinterleave_coords(c)
    }
}

} // verus!
