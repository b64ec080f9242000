//! The block engine: the cipher state of sixteen words, the quarter round,
//! the twenty-round permutation and the keystream block derived from them.

use vstd::prelude::*;

verus! {

/// The four fixed words that open every cipher state.
pub const SIGMA0: u32 = 0x61707865;

pub const SIGMA1: u32 = 0x3320646E;

pub const SIGMA2: u32 = 0x79622D32;

pub const SIGMA3: u32 = 0x6B206574;

/// Word `i` of the four fixed words.
pub open spec fn sigma(i: int) -> u32 {
    if i == 0 {
        SIGMA0
    } else if i == 1 {
        SIGMA1
    } else if i == 2 {
        SIGMA2
    } else {
        SIGMA3
    }
}

/// `x` rotated left by `n` bits, for `0 < n < 32`.
pub open spec fn rotl(x: u32, n: u32) -> u32 {
    (x << n) | (x >> ((32 - n) as u32))
}

/// The little-endian word made of the first four bytes of `s`.
pub open spec fn le_word(s: Seq<u8>) -> u32 {
    (s[0] as int + s[1] as int * 0x100 + s[2] as int * 0x1_0000 + s[3] as int * 0x100_0000) as u32
}

/// Byte `k` (0 is the lowest) of the word `w`.
pub open spec fn word_byte(w: u32, k: int) -> u8 {
    if k == 0 {
        (w & 0xff) as u8
    } else if k == 1 {
        ((w >> 8) & 0xff) as u8
    } else if k == 2 {
        ((w >> 16) & 0xff) as u8
    } else {
        ((w >> 24) & 0xff) as u8
    }
}

/// The little-endian serialization of a sequence of words.
pub open spec fn le_bytes(words: Seq<u32>) -> Seq<u8> {
    Seq::new(4 * words.len(), |i: int| word_byte(words[i / 4], i % 4))
}

/// The quarter round on four words.
pub open spec fn quarter(a: u32, b: u32, c: u32, d: u32) -> (u32, u32, u32, u32) {
    let a = a.wrapping_add(b);
    let d = rotl(d ^ a, 16);
    let c = c.wrapping_add(d);
    let b = rotl(b ^ c, 12);
    let a = a.wrapping_add(b);
    let d = rotl(d ^ a, 8);
    let c = c.wrapping_add(d);
    let b = rotl(b ^ c, 7);
    (a, b, c, d)
}

/// The quarter round applied to the words of `s` at the indices `a`, `b`, `c`, `d`.
pub open spec fn quarter_at(s: Seq<u32>, a: int, b: int, c: int, d: int) -> Seq<u32> {
    let q = quarter(s[a], s[b], s[c], s[d]);
    s.update(a, q.0).update(b, q.1).update(c, q.2).update(d, q.3)
}

/// Four quarter rounds down the columns of the state.
pub open spec fn column_round(s: Seq<u32>) -> Seq<u32> {
    let s = quarter_at(s, 0, 4, 8, 12);
    let s = quarter_at(s, 1, 5, 9, 13);
    let s = quarter_at(s, 2, 6, 10, 14);
    quarter_at(s, 3, 7, 11, 15)
}

/// Four quarter rounds along the diagonals of the state.
pub open spec fn diagonal_round(s: Seq<u32>) -> Seq<u32> {
    let s = quarter_at(s, 0, 5, 10, 15);
    let s = quarter_at(s, 1, 6, 11, 12);
    let s = quarter_at(s, 2, 7, 8, 13);
    quarter_at(s, 3, 4, 9, 14)
}

/// `n` double rounds: a column round followed by a diagonal round, `n` times.
pub open spec fn double_rounds(s: Seq<u32>, n: nat) -> Seq<u32>
    decreases n,
{
    if n == 0 {
        s
    } else {
        diagonal_round(column_round(double_rounds(s, (n - 1) as nat)))
    }
}

/// The full permutation: ten double rounds, twenty rounds in all.
pub open spec fn permute(s: Seq<u32>) -> Seq<u32> {
    double_rounds(s, 10)
}

/// The sixteen keystream words of a state: the permuted state with the
/// state itself added back in, word by word.
pub open spec fn keystream_words(s: Seq<u32>) -> Seq<u32> {
    Seq::new(16, |i: int| permute(s)[i].wrapping_add(s[i]))
}

/// The 64-byte keystream block of a state.
pub open spec fn keystream_block(s: Seq<u32>) -> Seq<u8> {
    le_bytes(keystream_words(s))
}

/// The state with which a cipher starts: constants, key, a zero block
/// counter, nonce.
pub open spec fn initial_state(key: Seq<u8>, nonce: Seq<u8>) -> Seq<u32> {
    Seq::new(
        16,
        |i: int|
            if i < 4 {
                sigma(i)
            } else if i < 12 {
                le_word(key.subrange(4 * (i - 4), 4 * (i - 4) + 4))
            } else if i == 12 {
                0u32
            } else {
                le_word(nonce.subrange(4 * (i - 13), 4 * (i - 13) + 4))
            },
    )
}

/// The state after `k` blocks have been produced from `s`: only the block
/// counter, word 12, has moved, by `k` modulo 2^32.
pub open spec fn state_after(s: Seq<u32>, k: nat) -> Seq<u32> {
    s.update(12, ((s[12] as int + k as int) % 0x1_0000_0000) as u32)
}

/// Byte `i` of the keystream that starts at the state `s`.
pub open spec fn keystream_byte(s: Seq<u32>, i: int) -> u8 {
    keystream_block(state_after(s, (i / 64) as nat))[i % 64]
}

/// Number of blocks that a buffer of `len` bytes is cut into.
pub open spec fn block_count(len: nat) -> nat {
    ((len + 63) / 64) as nat
}

/// Rotates `x` left by `n` bits.
pub fn rotate_left(x: u32, n: u32) -> (r: u32)
    requires
        0 < n < 32,
    ensures
        r == rotl(x, n),
{
    (x << n) | (x >> (32 - n))
}

/// Reads four bytes as a little-endian word.
pub fn u32_from_le_bytes(slice: &[u8]) -> (r: u32)
    requires
        slice@.len() == 4,
    ensures
        r == le_word(slice@),
{
    let b0: u32 = slice[0] as u32;
    let b1: u32 = slice[1] as u32;
    let b2: u32 = slice[2] as u32;
    let b3: u32 = slice[3] as u32;
    assert(b0 | (b1 << 8) | (b2 << 16) | (b3 << 24) == b0 + b1 * 0x100 + b2 * 0x1_0000 + b3
        * 0x100_0000) by (bit_vector)
        requires
            b0 < 256,
            b1 < 256,
            b2 < 256,
            b3 < 256,
    ;
    b0 | (b1 << 8) | (b2 << 16) | (b3 << 24)
}

/// The word at `4 * i` of `bytes`, read little-endian.
fn word_at(bytes: &[u8], i: usize) -> (r: u32)
    requires
        i < 8,
        4 * i + 4 <= bytes@.len(),
    ensures
        r == le_word(bytes@.subrange(4 * i, 4 * i + 4)),
{
    u32_from_le_bytes(vstd::slice::slice_subrange(bytes, 4 * i, 4 * i + 4))
}

/// Lays out the starting state for a key and a nonce.
pub fn init_state(key: &[u8; 32], nonce: &[u8; 12]) -> (state: [u32; 16])
    ensures
        state@ == initial_state(key@, nonce@),
{
    let k = key.as_slice();
    let n = nonce.as_slice();
    let state: [u32; 16] = [
        SIGMA0,
        SIGMA1,
        SIGMA2,
        SIGMA3,
        word_at(k, 0),
        word_at(k, 1),
        word_at(k, 2),
        word_at(k, 3),
        word_at(k, 4),
        word_at(k, 5),
        word_at(k, 6),
        word_at(k, 7),
        0,
        word_at(n, 0),
        word_at(n, 1),
        word_at(n, 2),
    ];
    assert(state@ =~= initial_state(key@, nonce@));
    state
}

/// Serializes sixteen words to their 64 little-endian bytes.
pub fn words_to_le_bytes(words: &[u32; 16]) -> (bytes: [u8; 64])
    ensures
        bytes@ == le_bytes(words@),
{
    let mut bytes: [u8; 64] = [0u8; 64];
    let mut i: usize = 0;
    while i < 16
        invariant
            i <= 16,
            forall|j: int| 0 <= j < 4 * i ==> bytes@[j] == word_byte(words@[j / 4], j % 4),
        decreases 16 - i,
    {
        let w: u32 = words[i];
        assert(w & 0xff < 256 && (w >> 8) & 0xff < 256 && (w >> 16) & 0xff < 256 && (w >> 24)
            & 0xff < 256) by (bit_vector);
        bytes[4 * i] = (w & 0xff) as u8;
        bytes[4 * i + 1] = ((w >> 8) & 0xff) as u8;
        bytes[4 * i + 2] = ((w >> 16) & 0xff) as u8;
        bytes[4 * i + 3] = ((w >> 24) & 0xff) as u8;
        i += 1;
    }
    assert(bytes@ =~= le_bytes(words@));
    bytes
}

/// Adds the words of `base` into `words`, wrapping, word by word.
pub fn add_words(words: &mut [u32; 16], base: &[u32; 16])
    ensures
        forall|i: int| 0 <= i < 16 ==> final(words)@[i] == old(words)@[i].wrapping_add(base@[i]),
{
    let mut i: usize = 0;
    while i < 16
        invariant
            i <= 16,
            forall|j: int| 0 <= j < i ==> words@[j] == old(words)@[j].wrapping_add(base@[j]),
            forall|j: int| i <= j < 16 ==> words@[j] == old(words)@[j],
        decreases 16 - i,
    {
        words[i] = words[i].wrapping_add(base[i]);
        i += 1;
    }
}

/// Moving the block counter by one, `k` times over, is moving it by `k`.
pub proof fn lemma_state_after_step(s: Seq<u32>, k: nat)
    requires
        s.len() == 16,
    ensures
        state_after(s, k).update(12, state_after(s, k)[12].wrapping_add(1)) == state_after(
            s,
            k + 1,
        ),
        state_after(s, 0) == s,
        state_after(state_after(s, k), 1) == state_after(s, k + 1),
{
    assert(state_after(s, k).update(12, state_after(s, k)[12].wrapping_add(1)) =~= state_after(
        s,
        k + 1,
    ));
    assert(state_after(s, 0) =~= s);
    assert(state_after(state_after(s, k), 1) =~= state_after(s, k + 1));
}

/// Where byte `start + n - 1` lies, for a block that begins at `start`.
pub proof fn lemma_block_index(start: int, n: int)
    requires
        0 <= start,
        start % 64 == 0,
        0 < n <= 64,
    ensures
        block_count(start as nat) == start / 64,
        64 * (start / 64) == start,
        (start + n - 1) / 64 == start / 64,
        (start + n - 1) % 64 == n - 1,
        block_count((start + n) as nat) == start / 64 + 1,
{
}

/// XORing the same byte in twice gives the first byte back.
pub proof fn lemma_xor_twice(a: u8, k: u8)
    ensures
        (a ^ k) ^ k == a,
{
    assert((a ^ k) ^ k == a) by (bit_vector);
}

/// Two bytes XORed with the same byte differ exactly if they differ.
pub proof fn lemma_xor_keeps_difference(a: u8, b: u8, k: u8)
    ensures
        (a ^ k != b ^ k) <==> a != b,
        (k ^ a != k ^ b) <==> a != b,
{
    assert((a ^ k != b ^ k) <==> a != b) by (bit_vector);
    assert((k ^ a != k ^ b) <==> a != b) by (bit_vector);
}

/// Producing blocks moves the block counter and nothing else: constants,
/// key and nonce stay as they were laid out.
pub proof fn lemma_only_counter_moves(s: Seq<u32>, k: nat, i: int)
    requires
        s.len() == 16,
        0 <= i < 16,
        i != 12,
    ensures
        state_after(s, k)[i] == s[i],
        state_after(s, k).len() == 16,
{
}

/// The block counter cycles: after 2^32 blocks the state is what it was,
/// and the keystream repeats from there on.
pub proof fn lemma_counter_cycles(s: Seq<u32>)
    requires
        s.len() == 16,
    ensures
        state_after(s, 0x1_0000_0000) == s,
{
    assert(state_after(s, 0x1_0000_0000) =~= s);
}

} // verus!
