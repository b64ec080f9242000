//! The digest expander: a small xorshift generator that spreads the bytes of
//! a short block over 64 bytes. It mixes; it keeps nothing secret.

use vstd::prelude::*;

verus! {

/// One step of the 32-bit xorshift recurrence.
pub open spec fn xorshift(x: u32) -> u32 {
    let x = x ^ (x << 13);
    let x = x ^ (x >> 17);
    x ^ (x << 5)
}

/// `n` steps of the recurrence from `x`.
pub open spec fn xorshift_n(x: u32, n: nat) -> u32
    decreases n,
{
    if n == 0 {
        x
    } else {
        xorshift(xorshift_n(x, (n - 1) as nat))
    }
}

/// Byte `i` of the seed, and zero beyond its end.
pub open spec fn seed_byte(seed: Seq<u8>, i: int) -> int {
    if 0 <= i < seed.len() {
        seed[i] as int
    } else {
        0
    }
}

/// The first `n` bytes of the seed's four-byte group `i`, read as a
/// little-endian word.
pub open spec fn seed_partial(seed: Seq<u8>, i: int, n: int) -> int {
    (if n > 0 {
        seed_byte(seed, 4 * i)
    } else {
        0
    }) + (if n > 1 {
        seed_byte(seed, 4 * i + 1) * 0x100
    } else {
        0
    }) + (if n > 2 {
        seed_byte(seed, 4 * i + 2) * 0x1_0000
    } else {
        0
    }) + (if n > 3 {
        seed_byte(seed, 4 * i + 3) * 0x100_0000
    } else {
        0
    })
}

/// The seed's four-byte group `i` read as a little-endian word; a group that
/// the seed ends in counts its missing bytes as zero.
pub open spec fn seed_word(seed: Seq<u8>, i: int) -> u32 {
    seed_partial(seed, i, 4) as u32
}

/// How many lanes the expansion of a seed of `len` bytes takes its bytes from.
pub open spec fn lanes_in_use(len: nat) -> int {
    if len < 16 {
        1
    } else if len < 32 {
        4
    } else {
        8
    }
}

/// The low byte of a word.
pub open spec fn low_byte(x: u32) -> u8 {
    (x & 255) as u8
}

/// Byte `p` of the stream that the lanes expand to: the lanes in use advance
/// together and their low bytes are interleaved.
pub open spec fn stream_byte(lanes: Seq<u32>, len: nat, p: int) -> u8 {
    let w = lanes_in_use(len);
    low_byte(xorshift_n(lanes[p % w], (p / w + 1) as nat))
}

/// Byte `p` of the 64-byte expansion of a seed of 1 to 63 bytes.
pub open spec fn expansion_byte(seed: Seq<u8>, p: int) -> u8 {
    let w = lanes_in_use(seed.len());
    low_byte(xorshift_n(seed_word(seed, p % w), (p / w + 1) as nat))
}

/// Once a seed of 1 to 63 bytes is set, the stream of the lanes is the
/// expansion of that seed: every lane in use was filled from it.
pub proof fn lemma_seeded_stream(lanes: Seq<u32>, seed: Seq<u8>, p: int)
    requires
        0 < seed.len() < 64,
        lanes.len() == 8,
        forall|i: int| 0 <= i < 8 && 4 * i < seed.len() ==> lanes[i] == seed_word(seed, i),
        0 <= p < 64,
    ensures
        stream_byte(lanes, seed.len(), p) == expansion_byte(seed, p),
{
    let w = lanes_in_use(seed.len());
    assert(0 <= p % w < w);
    assert(4 * (p % w) < seed.len());
}

/// The recurrence is linear over XOR.
pub proof fn lemma_xorshift_linear(x: u32, y: u32)
    ensures
        xorshift(x) ^ xorshift(y) == xorshift(x ^ y),
{
    assert(((x ^ (x << 13)) ^ ((x ^ (x << 13)) >> 17) ^ (((x ^ (x << 13)) ^ ((x ^ (x << 13))
        >> 17)) << 5)) ^ ((y ^ (y << 13)) ^ ((y ^ (y << 13)) >> 17) ^ (((y ^ (y << 13)) ^ ((y ^ (y
        << 13)) >> 17)) << 5)) == (((x ^ y) ^ ((x ^ y) << 13)) ^ (((x ^ y) ^ ((x ^ y) << 13))
        >> 17) ^ ((((x ^ y) ^ ((x ^ y) << 13)) ^ (((x ^ y) ^ ((x ^ y) << 13)) >> 17)) << 5)))
        by (bit_vector);
}

/// `n` steps of the recurrence are linear over XOR too.
pub proof fn lemma_xorshift_n_linear(x: u32, y: u32, n: nat)
    ensures
        xorshift_n(x, n) ^ xorshift_n(y, n) == xorshift_n(x ^ y, n),
    decreases n,
{
    if n > 0 {
        lemma_xorshift_n_linear(x, y, (n - 1) as nat);
        lemma_xorshift_linear(xorshift_n(x, (n - 1) as nat), xorshift_n(y, (n - 1) as nat));
    }
}

/// A word other than zero shows a byte other than zero within five steps.
pub proof fn lemma_five_steps(z: u32, z1: u32, z2: u32, z3: u32, z4: u32, z5: u32)
    requires
        z1 == xorshift(z),
        z2 == xorshift(z1),
        z3 == xorshift(z2),
        z4 == xorshift(z3),
        z5 == xorshift(z4),
        z1 & 255 == 0,
        z2 & 255 == 0,
        z3 & 255 == 0,
        z4 & 255 == 0,
        z5 & 255 == 0,
    ensures
        z == 0,
{
    assert(z == 0) by (bit_vector)
        requires
            z1 == (z ^ (z << 13)) ^ ((z ^ (z << 13)) >> 17) ^ (((z ^ (z << 13)) ^ ((z ^ (z
                << 13)) >> 17)) << 5),
            z2 == (z1 ^ (z1 << 13)) ^ ((z1 ^ (z1 << 13)) >> 17) ^ (((z1 ^ (z1 << 13)) ^ ((z1 ^ (z1
                << 13)) >> 17)) << 5),
            z3 == (z2 ^ (z2 << 13)) ^ ((z2 ^ (z2 << 13)) >> 17) ^ (((z2 ^ (z2 << 13)) ^ ((z2 ^ (z2
                << 13)) >> 17)) << 5),
            z4 == (z3 ^ (z3 << 13)) ^ ((z3 ^ (z3 << 13)) >> 17) ^ (((z3 ^ (z3 << 13)) ^ ((z3 ^ (z3
                << 13)) >> 17)) << 5),
            z5 == (z4 ^ (z4 << 13)) ^ ((z4 ^ (z4 << 13)) >> 17) ^ (((z4 ^ (z4 << 13)) ^ ((z4 ^ (z4
                << 13)) >> 17)) << 5),
            z1 & 255 == 0,
            z2 & 255 == 0,
            z3 & 255 == 0,
            z4 & 255 == 0,
            z5 & 255 == 0,
    ;
}

/// The first five bytes of a lane's stream determine the lane: two lanes
/// that start apart show it within five steps.
pub proof fn lemma_stream_tells_lanes_apart(x: u32, y: u32)
    requires
        x != y,
    ensures
        exists|r: nat| 1 <= r <= 5 && low_byte(xorshift_n(x, r)) != low_byte(xorshift_n(y, r)),
{
    let z = x ^ y;
    assert(z != 0) by (bit_vector)
        requires
            x != y,
            z == x ^ y,
    ;
    if forall|r: nat| 1 <= r <= 5 ==> low_byte(xorshift_n(x, r)) == low_byte(xorshift_n(y, r)) {
        assert forall|r: nat| 1 <= r <= 5 implies xorshift_n(z, r) & 255 == 0 by {
            let a = xorshift_n(x, r);
            let b = xorshift_n(y, r);
            lemma_xorshift_n_linear(x, y, r);
            assert(low_byte(a) == low_byte(b));
            assert(a & 255 < 256 && b & 255 < 256) by (bit_vector);
            assert((a ^ b) & 255 == 0) by (bit_vector)
                requires
                    a & 255 == b & 255,
            ;
        }
        assert(xorshift_n(z, 0) == z);
        assert(xorshift_n(z, 1) & 255 == 0);
        assert(xorshift_n(z, 2) & 255 == 0);
        assert(xorshift_n(z, 3) & 255 == 0);
        assert(xorshift_n(z, 4) & 255 == 0);
        assert(xorshift_n(z, 5) & 255 == 0);
        lemma_five_steps(
            z,
            xorshift_n(z, 1),
            xorshift_n(z, 2),
            xorshift_n(z, 3),
            xorshift_n(z, 4),
            xorshift_n(z, 5),
        );
    }
}

/// Four bytes are read off the little-endian word that they make.
pub proof fn lemma_word_tells_bytes_apart(
    a0: int,
    a1: int,
    a2: int,
    a3: int,
    b0: int,
    b1: int,
    b2: int,
    b3: int,
)
    requires
        0 <= a0 < 256 && 0 <= a1 < 256 && 0 <= a2 < 256 && 0 <= a3 < 256,
        0 <= b0 < 256 && 0 <= b1 < 256 && 0 <= b2 < 256 && 0 <= b3 < 256,
        a0 + a1 * 0x100 + a2 * 0x1_0000 + a3 * 0x100_0000 == b0 + b1 * 0x100 + b2 * 0x1_0000 + b3
            * 0x100_0000,
    ensures
        a0 == b0 && a1 == b1 && a2 == b2 && a3 == b3,
{
    let t0 = (a1 - b1) + 0x100 * (a2 - b2) + 0x1_0000 * (a3 - b3);
    assert((a0 - b0) + 0x100 * t0 == 0);
    assert(t0 == 0);
    let t1 = (a2 - b2) + 0x100 * (a3 - b3);
    assert((a1 - b1) + 0x100 * t1 == 0);
    assert(t1 == 0);
    assert((a2 - b2) + 0x100 * (a3 - b3) == 0);
    assert(a3 - b3 == 0);
}

/// Two seeds of one length give the same word in lane `b` exactly if they
/// hold the same bytes in their four-byte group `b`.
pub proof fn lemma_seed_word_reads_its_group(c1: Seq<u8>, c2: Seq<u8>, b: int)
    requires
        c1.len() == c2.len(),
        0 <= b,
    ensures
        seed_word(c1, b) == seed_word(c2, b) <==> forall|i: int|
            4 * b <= i < 4 * b + 4 && i < c1.len() ==> c1[i] == c2[i],
{
    let a0 = seed_byte(c1, 4 * b);
    let a1 = seed_byte(c1, 4 * b + 1);
    let a2 = seed_byte(c1, 4 * b + 2);
    let a3 = seed_byte(c1, 4 * b + 3);
    let b0 = seed_byte(c2, 4 * b);
    let b1 = seed_byte(c2, 4 * b + 1);
    let b2 = seed_byte(c2, 4 * b + 2);
    let b3 = seed_byte(c2, 4 * b + 3);
    assert(seed_word(c1, b) == a0 + a1 * 0x100 + a2 * 0x1_0000 + a3 * 0x100_0000);
    assert(seed_word(c2, b) == b0 + b1 * 0x100 + b2 * 0x1_0000 + b3 * 0x100_0000);
    if seed_word(c1, b) == seed_word(c2, b) {
        lemma_word_tells_bytes_apart(a0, a1, a2, a3, b0, b1, b2, b3);
        assert forall|i: int| 4 * b <= i < 4 * b + 4 && i < c1.len() implies c1[i] == c2[i] by {
            assert(c1[i] == seed_byte(c1, i) && c2[i] == seed_byte(c2, i));
        }
    }
    if forall|i: int| 4 * b <= i < 4 * b + 4 && i < c1.len() ==> c1[i] == c2[i] {
        assert(a0 == b0 && a1 == b1 && a2 == b2 && a3 == b3);
    }
}

/// One step of the recurrence.
fn step(x: u32) -> (r: u32)
    ensures
        r == xorshift(x),
{
    let mut s: u32 = x;
    s ^= s << 13;
    s ^= s >> 17;
    s ^= s << 5;
    s
}

/// The low byte of `x`.
fn low(x: u32) -> (r: u8)
    ensures
        r == low_byte(x),
{
    assert(x & 255 < 256) by (bit_vector);
    (x & 255) as u8
}

/// The generator: eight lanes of state and the length of the last seed.
pub struct XorShiftSIMD {
    state: [u32; 8],
    len: usize,
}

impl XorShiftSIMD {
    /// The eight lanes.
    pub closed spec fn lanes(&self) -> Seq<u32> {
        self.state@
    }

    /// The length of the seed set last.
    pub closed spec fn seed_len(&self) -> nat {
        self.len as nat
    }

    /// A generator with all lanes zero and no seed.
    pub fn new() -> (r: Self)
        ensures
            r.seed_len() == 0,
            r.lanes() == Seq::new(8, |i: int| 0u32),
    {
        let r = Self { state: [0u32; 8], len: 0 };
        assert(r.state@ =~= Seq::new(8, |i: int| 0u32));
        r
    }

    /// Folds the seed into the lanes, four bytes to a lane, and records its
    /// length. Lanes that no byte of the seed reaches keep their value, and
    /// so do all of them beyond the first eight groups.
    pub fn set_seed(&mut self, seed: &[u8])
        ensures
            final(self).seed_len() == seed@.len(),
            final(self).lanes().len() == 8,
            forall|i: int|
                0 <= i < 8 ==> final(self).lanes()[i] == if 4 * i < seed@.len() {
                    seed_word(seed@, i)
                } else {
                    old(self).lanes()[i]
                },
    {
        let len: usize = seed.len();
        self.len = len;
        let mut i: usize = 0;
        while i < 8 && 4 * i < len
            invariant
                i <= 8,
                i > 0 ==> 4 * (i - 1) < len,
                len == seed@.len(),
                self.len == len,
                forall|j: int| 0 <= j < i ==> self.state@[j] == seed_word(seed@, j),
                forall|j: int| i <= j < 8 ==> self.state@[j] == old(self).state@[j],
            decreases 8 - i,
        {
            let n: usize = if len - 4 * i >= 4 {
                4
            } else {
                len - 4 * i
            };
            let mut acc: u32 = 0;
            let mut pos: usize = 0;
            while pos < n
                invariant
                    pos <= n <= 4,
                    i < 8,
                    4 * i + n <= len,
                    len == seed@.len(),
                    acc == seed_partial(seed@, i as int, pos as int),
                decreases n - pos,
            {
                let byte: u32 = seed[4 * i + pos] as u32;
                let shift: u32 = 8 * (pos as u32);
                let ghost prev = acc;
                assert(byte << shift == byte * (if pos == 0 {
                    1u32
                } else if pos == 1 {
                    0x100u32
                } else if pos == 2 {
                    0x1_0000u32
                } else {
                    0x100_0000u32
                })) by (bit_vector)
                    requires
                        byte < 256,
                        shift == 8 * (pos as u32),
                        pos < 4,
                ;
                acc = acc.wrapping_add(byte << shift);
                pos += 1;
            }
            assert(seed_partial(seed@, i as int, n as int) == seed_partial(seed@, i as int, 4));
            self.state[i] = acc;
            i += 1;
        }
    }

    /// XORs the 64-byte stream of the lanes into `slice`. With a seed of
    /// fewer than 16 bytes lane 0 itself advances; otherwise the lanes are
    /// left as they were.
    pub fn xor_with_slice(&mut self, slice: &mut [u8; 64])
        ensures
            forall|p: int|
                0 <= p < 64 ==> final(slice)@[p] == old(slice)@[p] ^ stream_byte(
                    old(self).lanes(),
                    old(self).seed_len(),
                    p,
                ),
            final(self).seed_len() == old(self).seed_len(),
            final(self).lanes() == if old(self).seed_len() < 16 {
                old(self).lanes().update(0, xorshift_n(old(self).lanes()[0], 64))
            } else {
                old(self).lanes()
            },
    {
        if self.len < 16 {
            let mut s: u32 = self.state[0];
            let mut p: usize = 0;
            while p < 64
                invariant
                    p <= 64,
                    s == xorshift_n(old(self).state@[0], p as nat),
                    forall|q: int|
                        0 <= q < p ==> slice@[q] == old(slice)@[q] ^ low_byte(
                            xorshift_n(old(self).state@[0], (q + 1) as nat),
                        ),
                    forall|q: int| p <= q < 64 ==> slice@[q] == old(slice)@[q],
                decreases 64 - p,
            {
                s = step(s);
                slice[p] = slice[p] ^ low(s);
                p += 1;
            }
            self.state[0] = s;
            assert(self.state@ =~= old(self).state@.update(0, xorshift_n(old(self).state@[0], 64)));
        } else if self.len < 32 {
            let mut s: [u32; 4] = [self.state[0], self.state[1], self.state[2], self.state[3]];
            let mut p: usize = 0;
            let mut round: usize = 0;
            while round < 16
                invariant
                    round <= 16,
                    p == 4 * round,
                    forall|b: int|
                        0 <= b < 4 ==> s@[b] == xorshift_n(old(self).state@[b], round as nat),
                    forall|q: int|
                        0 <= q < p ==> slice@[q] == old(slice)@[q] ^ low_byte(
                            xorshift_n(old(self).state@[q % 4], (q / 4 + 1) as nat),
                        ),
                    forall|q: int| p <= q < 64 ==> slice@[q] == old(slice)@[q],
                decreases 16 - round,
            {
                let mut b: usize = 0;
                while b < 4
                    invariant
                        b <= 4,
                        round < 16,
                        p == 4 * round + b,
                        forall|c: int|
                            0 <= c < b ==> s@[c] == xorshift_n(
                                old(self).state@[c],
                                (round + 1) as nat,
                            ),
                        forall|c: int|
                            b <= c < 4 ==> s@[c] == xorshift_n(old(self).state@[c], round as nat),
                        forall|q: int|
                            0 <= q < p ==> slice@[q] == old(slice)@[q] ^ low_byte(
                                xorshift_n(old(self).state@[q % 4], (q / 4 + 1) as nat),
                            ),
                        forall|q: int| p <= q < 64 ==> slice@[q] == old(slice)@[q],
                    decreases 4 - b,
                {
                    s[b] = step(s[b]);
                    slice[p] = slice[p] ^ low(s[b]);
                    p += 1;
                    b += 1;
                }
                round += 1;
            }
        } else {
            let mut s: [u32; 8] = self.state;
            let mut p: usize = 0;
            let mut round: usize = 0;
            while round < 8
                invariant
                    round <= 8,
                    p == 8 * round,
                    forall|b: int|
                        0 <= b < 8 ==> s@[b] == xorshift_n(old(self).state@[b], round as nat),
                    forall|q: int|
                        0 <= q < p ==> slice@[q] == old(slice)@[q] ^ low_byte(
                            xorshift_n(old(self).state@[q % 8], (q / 8 + 1) as nat),
                        ),
                    forall|q: int| p <= q < 64 ==> slice@[q] == old(slice)@[q],
                decreases 8 - round,
            {
                let mut b: usize = 0;
                while b < 8
                    invariant
                        b <= 8,
                        round < 8,
                        p == 8 * round + b,
                        forall|c: int|
                            0 <= c < b ==> s@[c] == xorshift_n(
                                old(self).state@[c],
                                (round + 1) as nat,
                            ),
                        forall|c: int|
                            b <= c < 8 ==> s@[c] == xorshift_n(old(self).state@[c], round as nat),
                        forall|q: int|
                            0 <= q < p ==> slice@[q] == old(slice)@[q] ^ low_byte(
                                xorshift_n(old(self).state@[q % 8], (q / 8 + 1) as nat),
                            ),
                        forall|q: int| p <= q < 64 ==> slice@[q] == old(slice)@[q],
                    decreases 8 - b,
                {
                    s[b] = step(s[b]);
                    slice[p] = slice[p] ^ low(s[b]);
                    p += 1;
                    b += 1;
                }
                round += 1;
            }
        }
    }
}

} // verus!
