//! The diffusion-chained cipher: the keystream of the base cipher, and a
//! running 64-byte digest of the ciphertext that is folded into every block.

use crate::block::{
    add_words, block_count, double_rounds, init_state, initial_state, keystream_block,
    keystream_byte, keystream_words, le_bytes, lemma_block_index, lemma_state_after_step,
    permute, quarter_at, rotate_left, state_after, words_to_le_bytes,
};
use crate::wiped::{wiped_bytes, wiped_new, wiped_store, WipedBlock};
use crate::xorshift::{expansion_byte, lemma_seeded_stream, XorShiftSIMD};
use vstd::slice::slice_subrange;
use vstd::prelude::*;

verus! {

/// Where block `k` of a buffer of `len` bytes ends.
pub open spec fn chunk_end(len: nat, k: int) -> int {
    if 64 * k + 64 <= len {
        64 * k + 64
    } else {
        len as int
    }
}

/// Block `k` of `data`: 64 bytes, or fewer where the data ends.
pub open spec fn chunk(data: Seq<u8>, k: int) -> Seq<u8> {
    data.subrange(64 * k, chunk_end(data.len(), k))
}

/// The digest after a block whose ciphertext is `cipher_chunk`. A full block
/// is XORed in as it is; a short one goes through the digest expander first.
pub open spec fn digest_update(digest: Seq<u8>, cipher_chunk: Seq<u8>) -> Seq<u8> {
    Seq::new(
        64,
        |i: int|
            digest[i] ^ (if cipher_chunk.len() == 64 {
                cipher_chunk[i]
            } else {
                expansion_byte(cipher_chunk, i)
            }),
    )
}

/// The digest with which block `k` of the ciphertext `ct` is met, when the
/// digest was `d0` at block 0.
pub open spec fn digest_before(d0: Seq<u8>, ct: Seq<u8>, k: nat) -> Seq<u8>
    decreases k,
{
    if k == 0 {
        d0
    } else {
        digest_update(digest_before(d0, ct, (k - 1) as nat), chunk(ct, k - 1))
    }
}

/// Block `k` of `data` combined with the keystream of `s` and the digest `d`.
pub open spec fn mix_chunk(s: Seq<u32>, d: Seq<u8>, data: Seq<u8>, k: int) -> Seq<u8> {
    Seq::new(
        chunk(data, k).len(),
        |i: int| data[64 * k + i] ^ keystream_byte(s, 64 * k + i) ^ d[i],
    )
}

/// The digest with which block `k` of the plaintext `pt` is met during
/// encryption from the state `s` and the digest `d0`.
pub open spec fn encrypt_digest(s: Seq<u32>, d0: Seq<u8>, pt: Seq<u8>, k: nat) -> Seq<u8>
    decreases k,
{
    if k == 0 {
        d0
    } else {
        let d = encrypt_digest(s, d0, pt, (k - 1) as nat);
        digest_update(d, mix_chunk(s, d, pt, k - 1))
    }
}

/// The ciphertext of `pt`.
pub open spec fn chain_encrypt(s: Seq<u32>, d0: Seq<u8>, pt: Seq<u8>) -> Seq<u8> {
    Seq::new(
        pt.len(),
        |i: int| pt[i] ^ keystream_byte(s, i) ^ encrypt_digest(s, d0, pt, (i / 64) as nat)[i % 64],
    )
}

/// The plaintext of `ct`.
pub open spec fn chain_decrypt(s: Seq<u32>, d0: Seq<u8>, ct: Seq<u8>) -> Seq<u8> {
    Seq::new(
        ct.len(),
        |i: int| ct[i] ^ keystream_byte(s, i) ^ digest_before(d0, ct, (i / 64) as nat)[i % 64],
    )
}

/// One block of encryption carries the agreement of a buffer with the
/// ciphertext from `start` on to the end of the block.
pub proof fn lemma_encrypt_block(
    s0: Seq<u32>,
    d0: Seq<u8>,
    pt: Seq<u8>,
    before: Seq<u8>,
    after: Seq<u8>,
    digest: Seq<u8>,
    start: int,
    n: int,
)
    requires
        s0.len() == 16,
        0 <= start,
        start % 64 == 0,
        0 < n <= 64,
        start + n <= pt.len(),
        n == 64 || start + n == pt.len(),
        before.len() == pt.len(),
        after.len() == pt.len(),
        forall|j: int| 0 <= j < start ==> before[j] == chain_encrypt(s0, d0, pt)[j],
        forall|j: int| start <= j < pt.len() ==> before[j] == pt[j],
        forall|i: int|
            start <= i < start + n ==> after[i] == before[i] ^ keystream_block(
                state_after(s0, (start / 64) as nat),
            )[i - start] ^ encrypt_digest(s0, d0, pt, (start / 64) as nat)[i - start],
        forall|i: int| 0 <= i < start || start + n <= i < pt.len() ==> after[i] == before[i],
        digest == digest_update(
            encrypt_digest(s0, d0, pt, (start / 64) as nat),
            after.subrange(start, start + n),
        ),
    ensures
        forall|j: int| 0 <= j < start + n ==> after[j] == chain_encrypt(s0, d0, pt)[j],
        forall|j: int| start + n <= j < pt.len() ==> after[j] == pt[j],
        digest == encrypt_digest(s0, d0, pt, (start / 64 + 1) as nat),
{
    let k = start / 64;
    let d = encrypt_digest(s0, d0, pt, k as nat);
    let sk = state_after(s0, k as nat);
    assert(64 * k == start);
    assert(chunk_end(pt.len(), k) == start + n);
    assert forall|j: int| start <= j < start + n implies after[j] == chain_encrypt(s0, d0, pt)[j] by {
        assert(j / 64 == k && j % 64 == j - start);
        assert(keystream_byte(s0, j) == keystream_block(sk)[j - start]);
    }
    let part = after.subrange(start, start + n);
    let mixed = mix_chunk(s0, d, pt, k);
    assert(mixed.len() == n);
    assert forall|i: int| 0 <= i < n implies part[i] == mixed[i] by {
        let j = start + i;
        assert(j / 64 == k && j % 64 == i);
        assert(keystream_byte(s0, j) == keystream_block(sk)[i]);
        assert(part[i] == after[j]);
    }
    assert(part =~= mixed);
}

/// One block of decryption carries the agreement of a buffer with the
/// plaintext from `start` on to the end of the block.
pub proof fn lemma_decrypt_block(
    s0: Seq<u32>,
    d0: Seq<u8>,
    ct: Seq<u8>,
    before: Seq<u8>,
    after: Seq<u8>,
    digest: Seq<u8>,
    start: int,
    n: int,
)
    requires
        s0.len() == 16,
        0 <= start,
        start % 64 == 0,
        0 < n <= 64,
        start + n <= ct.len(),
        n == 64 || start + n == ct.len(),
        before.len() == ct.len(),
        after.len() == ct.len(),
        forall|j: int| 0 <= j < start ==> before[j] == chain_decrypt(s0, d0, ct)[j],
        forall|j: int| start <= j < ct.len() ==> before[j] == ct[j],
        forall|i: int|
            start <= i < start + n ==> after[i] == before[i] ^ keystream_block(
                state_after(s0, (start / 64) as nat),
            )[i - start] ^ digest_before(d0, ct, (start / 64) as nat)[i - start],
        forall|i: int| 0 <= i < start || start + n <= i < ct.len() ==> after[i] == before[i],
        digest == digest_update(
            digest_before(d0, ct, (start / 64) as nat),
            before.subrange(start, start + n),
        ),
    ensures
        forall|j: int| 0 <= j < start + n ==> after[j] == chain_decrypt(s0, d0, ct)[j],
        forall|j: int| start + n <= j < ct.len() ==> after[j] == ct[j],
        digest == digest_before(d0, ct, (start / 64 + 1) as nat),
{
    let k = start / 64;
    let sk = state_after(s0, k as nat);
    assert(64 * k == start);
    assert(chunk_end(ct.len(), k) == start + n);
    assert forall|j: int| start <= j < start + n implies after[j] == chain_decrypt(s0, d0, ct)[j] by {
        assert(j / 64 == k && j % 64 == j - start);
        assert(keystream_byte(s0, j) == keystream_block(sk)[j - start]);
    }
    assert(before.subrange(start, start + n) =~= chunk(ct, k));
}

/// XORs the 64 bytes of `src` into `digest`.
fn xor_into(digest: &mut [u8; 64], src: &[u8])
    requires
        src@.len() == 64,
    ensures
        forall|i: int| 0 <= i < 64 ==> final(digest)@[i] == old(digest)@[i] ^ src@[i],
{
    let mut i: usize = 0;
    while i < 64
        invariant
            i <= 64,
            src@.len() == 64,
            forall|j: int| 0 <= j < i ==> digest@[j] == old(digest)@[j] ^ src@[j],
            forall|j: int| i <= j < 64 ==> digest@[j] == old(digest)@[j],
        decreases 64 - i,
    {
        digest[i] = digest[i] ^ src[i];
        i += 1;
    }
}

/// A cipher instance: the state, the running digest, and scratch space.
pub struct DChaCha20 {
    state: [u32; 16],
    keystream: [u32; 16],
    keystream_buffer: [u8; 64],
    prev_dig: [u8; 64],
    prev_ciph: WipedBlock,
    xorshift: XorShiftSIMD,
}

impl DChaCha20 {
    /// The sixteen words of the cipher state.
    pub closed spec fn words(&self) -> Seq<u32> {
        self.state@
    }

    /// The 64 bytes of the running digest.
    pub closed spec fn digest(&self) -> Seq<u8> {
        self.prev_dig@
    }

    /// A cipher at block 0 of the keystream of `key` and `nonce`, with a
    /// digest of zeros.
    pub fn new(key: &[u8; 32], nonce: &[u8; 12]) -> (cipher: Self)
        ensures
            cipher.words() == initial_state(key@, nonce@),
            cipher.digest() == Seq::new(64, |i: int| 0u8),
    {
        let cipher = Self {
            state: init_state(key, nonce),
            keystream: [0u32; 16],
            keystream_buffer: [0u8; 64],
            prev_dig: [0u8; 64],
            prev_ciph: wiped_new([0u8; 64]),
            xorshift: XorShiftSIMD::new(),
        };
        assert(cipher.prev_dig@ =~= Seq::new(64, |i: int| 0u8));
        cipher
    }

    /// The quarter round on the words at four distinct indices.
    pub fn quarter_round(state: &mut [u32; 16], a: usize, b: usize, c: usize, d: usize)
        requires
            a < 16 && b < 16 && c < 16 && d < 16,
            a != b && a != c && a != d && b != c && b != d && c != d,
        ensures
            final(state)@ == quarter_at(old(state)@, a as int, b as int, c as int, d as int),
    {
        state[a] = state[a].wrapping_add(state[b]);
        state[d] = rotate_left(state[d] ^ state[a], 16);
        state[c] = state[c].wrapping_add(state[d]);
        state[b] = rotate_left(state[b] ^ state[c], 12);
        state[a] = state[a].wrapping_add(state[b]);
        state[d] = rotate_left(state[d] ^ state[a], 8);
        state[c] = state[c].wrapping_add(state[d]);
        state[b] = rotate_left(state[b] ^ state[c], 7);
        assert(state@ =~= quarter_at(old(state)@, a as int, b as int, c as int, d as int));
    }

    /// The twenty-round permutation, word by word.
    pub fn rounds(state: &mut [u32; 16])
        ensures
            final(state)@ == permute(old(state)@),
    {
        let mut n: usize = 0;
        while n < 10
            invariant
                n <= 10,
                state@ == double_rounds(old(state)@, n as nat),
            decreases 10 - n,
        {
            // column round
            Self::quarter_round(state, 0, 4, 8, 12);
            Self::quarter_round(state, 1, 5, 9, 13);
            Self::quarter_round(state, 2, 6, 10, 14);
            Self::quarter_round(state, 3, 7, 11, 15);

            // diagonal round
            Self::quarter_round(state, 0, 5, 10, 15);
            Self::quarter_round(state, 1, 6, 11, 12);
            Self::quarter_round(state, 2, 7, 8, 13);
            Self::quarter_round(state, 3, 4, 9, 14);
            n += 1;
        }
    }

    /// Produces the keystream words of the current block and moves the
    /// block counter on by one.
    fn block_fn(&mut self)
        ensures
            final(self).keystream@ == keystream_words(old(self).words()),
            final(self).words() == state_after(old(self).words(), 1),
            final(self).digest() == old(self).digest(),
            final(self).xorshift == old(self).xorshift,
            final(self).prev_ciph == old(self).prev_ciph,
    {
        self.keystream = self.state;
        Self::rounds(&mut self.keystream);
        add_words(&mut self.keystream, &self.state);
        assert(self.keystream@ =~= keystream_words(self.state@));
        self.state[12] = self.state[12].wrapping_add(1);
        proof {
            lemma_state_after_step(old(self).state@, 0);
        }
    }

    /// Serializes the keystream words into the keystream buffer.
    fn convert_keystream_to_u8_arr(&mut self)
        ensures
            final(self).keystream_buffer@ == le_bytes(old(self).keystream@),
            final(self).words() == old(self).words(),
            final(self).digest() == old(self).digest(),
            final(self).xorshift == old(self).xorshift,
            final(self).prev_ciph == old(self).prev_ciph,
    {
        self.keystream_buffer = words_to_le_bytes(&self.keystream);
    }

    /// XORs the next keystream block and the digest into the bytes of `buff`
    /// from `start` up to `end`.
    fn apply_keystream(&mut self, buff: &mut [u8], start: usize, end: usize)
        requires
            start <= end <= old(buff)@.len(),
            end - start <= 64,
        ensures
            final(self).words() == state_after(old(self).words(), 1),
            final(self).digest() == old(self).digest(),
            final(self).xorshift == old(self).xorshift,
            final(self).prev_ciph == old(self).prev_ciph,
            final(buff)@.len() == old(buff)@.len(),
            forall|i: int|
                start <= i < end ==> final(buff)@[i] == old(buff)@[i] ^ keystream_block(
                    old(self).words(),
                )[i - start] ^ old(self).digest()[i - start],
            forall|i: int|
                0 <= i < start || end <= i < old(buff)@.len() ==> final(buff)@[i] == old(
                    buff,
                )@[i],
    {
        self.block_fn();
        self.convert_keystream_to_u8_arr();
        let mut i: usize = start;
        while i < end
            invariant
                start <= i <= end <= buff@.len(),
                end - start <= 64,
                buff@.len() == old(buff)@.len(),
                self.keystream_buffer@ == keystream_block(old(self).words()),
                self.prev_dig@ == old(self).prev_dig@,
                self.state@ == state_after(old(self).words(), 1),
                self.xorshift == old(self).xorshift,
                self.prev_ciph == old(self).prev_ciph,
                forall|j: int|
                    start <= j < i ==> buff@[j] == old(buff)@[j] ^ self.keystream_buffer@[j
                        - start] ^ self.prev_dig@[j - start],
                forall|j: int|
                    0 <= j < start || i <= j < buff@.len() ==> buff@[j] == old(buff)@[j],
            decreases end - i,
        {
            buff[i] = buff[i] ^ self.keystream_buffer[i - start] ^ self.prev_dig[i - start];
            i += 1;
        }
    }

    /// Encrypts the block of `buff` from `start` up to `end` and folds its
    /// ciphertext into the digest.
    fn encrypt_chunk(&mut self, buff: &mut [u8], start: usize, end: usize)
        requires
            start < end <= old(buff)@.len(),
            end - start <= 64,
        ensures
            final(self).words() == state_after(old(self).words(), 1),
            final(buff)@.len() == old(buff)@.len(),
            forall|i: int|
                start <= i < end ==> final(buff)@[i] == old(buff)@[i] ^ keystream_block(
                    old(self).words(),
                )[i - start] ^ old(self).digest()[i - start],
            forall|i: int|
                0 <= i < start || end <= i < old(buff)@.len() ==> final(buff)@[i] == old(
                    buff,
                )@[i],
            final(self).digest() == digest_update(
                old(self).digest(),
                final(buff)@.subrange(start as int, end as int),
            ),
    {
        let ghost d = self.digest();
        self.apply_keystream(buff, start, end);
        let part = slice_subrange(buff, start, end);
        if end - start == 64 {
            xor_into(&mut self.prev_dig, part);
        } else {
            self.xorshift.set_seed(part);
            let ghost lanes = self.xorshift.lanes();
            self.xorshift.xor_with_slice(&mut self.prev_dig);
            proof {
                assert forall|p: int| 0 <= p < 64 implies self.prev_dig@[p] == d[p]
                    ^ expansion_byte(part@, p) by {
                    lemma_seeded_stream(lanes, part@, p);
                }
            }
        }
        assert(self.prev_dig@ =~= digest_update(d, part@));
    }

    /// Decrypts the block of `buff` from `start` up to `end` and folds the
    /// ciphertext that stood there into the digest.
    fn decrypt_chunk(&mut self, buff: &mut [u8], start: usize, end: usize)
        requires
            start < end <= old(buff)@.len(),
            end - start <= 64,
        ensures
            final(self).words() == state_after(old(self).words(), 1),
            final(buff)@.len() == old(buff)@.len(),
            forall|i: int|
                start <= i < end ==> final(buff)@[i] == old(buff)@[i] ^ keystream_block(
                    old(self).words(),
                )[i - start] ^ old(self).digest()[i - start],
            forall|i: int|
                0 <= i < start || end <= i < old(buff)@.len() ==> final(buff)@[i] == old(
                    buff,
                )@[i],
            final(self).digest() == digest_update(
                old(self).digest(),
                old(buff)@.subrange(start as int, end as int),
            ),
    {
        let ghost d = self.digest();
        let part = slice_subrange(buff, start, end);
        let ghost seed = part@;
        if end - start != 64 {
            self.xorshift.set_seed(part);
        } else {
            wiped_store(&mut self.prev_ciph, part);
        }
        self.apply_keystream(buff, start, end);
        if end - start == 64 {
            xor_into(&mut self.prev_dig, wiped_bytes(&self.prev_ciph));
        } else {
            let ghost lanes = self.xorshift.lanes();
            self.xorshift.xor_with_slice(&mut self.prev_dig);
            proof {
                assert forall|p: int| 0 <= p < 64 implies self.prev_dig@[p] == d[p]
                    ^ expansion_byte(seed, p) by {
                    lemma_seeded_stream(lanes, seed, p);
                }
            }
        }
        assert(self.prev_dig@ =~= digest_update(d, seed));
    }

    /// Encrypts `plaintext` in place, block by block, and folds each block
    /// of ciphertext into the digest as soon as it is made.
    pub fn encrypt(&mut self, plaintext: &mut [u8])
        ensures
            final(plaintext)@ == chain_encrypt(
                old(self).words(),
                old(self).digest(),
                old(plaintext)@,
            ),
            final(self).words() == state_after(
                old(self).words(),
                block_count(old(plaintext)@.len()),
            ),
            final(self).digest() == encrypt_digest(
                old(self).words(),
                old(self).digest(),
                old(plaintext)@,
                block_count(old(plaintext)@.len()),
            ),
    {
        let len: usize = plaintext.len();
        let mut start: usize = 0;
        let ghost s0 = self.words();
        let ghost d0 = self.digest();
        let ghost pt = plaintext@;
        proof {
            lemma_state_after_step(s0, 0);
        }
        while start < len
            invariant
                start <= len,
                len == plaintext@.len(),
                pt.len() == len,
                s0.len() == 16,
                start % 64 == 0 || start == len,
                self.words() == state_after(s0, block_count(start as nat)),
                self.digest() == encrypt_digest(s0, d0, pt, block_count(start as nat)),
                forall|j: int| 0 <= j < start ==> plaintext@[j] == chain_encrypt(s0, d0, pt)[j],
                forall|j: int| start <= j < len ==> plaintext@[j] == pt[j],
            decreases len - start,
        {
            let end: usize = if len - start >= 64 {
                start + 64
            } else {
                len
            };
            let ghost before = plaintext@;
            proof {
                lemma_block_index(start as int, end - start);
                lemma_state_after_step(s0, block_count(start as nat));
            }
            self.encrypt_chunk(plaintext, start, end);
            proof {
                lemma_encrypt_block(
                    s0,
                    d0,
                    pt,
                    before,
                    plaintext@,
                    self.digest(),
                    start as int,
                    end - start,
                );
            }
            start = end;
        }
        assert(plaintext@ =~= chain_encrypt(s0, d0, pt));
    }

    /// Decrypts `ciphertext` in place, block by block, and folds each block
    /// of ciphertext, as it was before the block was decrypted, into the
    /// digest.
    pub fn decrypt(&mut self, ciphertext: &mut [u8])
        ensures
            final(ciphertext)@ == chain_decrypt(
                old(self).words(),
                old(self).digest(),
                old(ciphertext)@,
            ),
            final(self).words() == state_after(
                old(self).words(),
                block_count(old(ciphertext)@.len()),
            ),
            final(self).digest() == digest_before(
                old(self).digest(),
                old(ciphertext)@,
                block_count(old(ciphertext)@.len()),
            ),
    {
        let len: usize = ciphertext.len();
        let mut start: usize = 0;
        let ghost s0 = self.words();
        let ghost d0 = self.digest();
        let ghost ct = ciphertext@;
        proof {
            lemma_state_after_step(s0, 0);
        }
        while start < len
            invariant
                start <= len,
                len == ciphertext@.len(),
                ct.len() == len,
                s0.len() == 16,
                start % 64 == 0 || start == len,
                self.words() == state_after(s0, block_count(start as nat)),
                self.digest() == digest_before(d0, ct, block_count(start as nat)),
                forall|j: int| 0 <= j < start ==> ciphertext@[j] == chain_decrypt(s0, d0, ct)[j],
                forall|j: int| start <= j < len ==> ciphertext@[j] == ct[j],
            decreases len - start,
        {
            let end: usize = if len - start >= 64 {
                start + 64
            } else {
                len
            };
            let ghost before = ciphertext@;
            proof {
                lemma_block_index(start as int, end - start);
                lemma_state_after_step(s0, block_count(start as nat));
            }
            self.decrypt_chunk(ciphertext, start, end);
            proof {
                lemma_decrypt_block(
                    s0,
                    d0,
                    ct,
                    before,
                    ciphertext@,
                    self.digest(),
                    start as int,
                    end - start,
                );
            }
            start = end;
        }
        assert(ciphertext@ =~= chain_decrypt(s0, d0, ct));
    }
}

} // verus!
