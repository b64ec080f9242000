//! What the chaining gives: encryption and decryption stay in step, and a
//! change in the ciphertext reaches every later block.

use crate::block::{block_count, keystream_byte, lemma_xor_keeps_difference};
use crate::chacha20::xor_keystream;
use crate::dchacha20::{
    chain_decrypt, chain_encrypt, chunk, chunk_end, digest_before, digest_update, encrypt_digest,
    mix_chunk,
};
use crate::xorshift::{
    expansion_byte, lanes_in_use, lemma_seed_word_reads_its_group,
    lemma_stream_tells_lanes_apart, low_byte, seed_word, xorshift_n,
};
use vstd::prelude::*;

verus! {

/// A digest has 64 bytes before every block.
pub proof fn lemma_digest_len(d0: Seq<u8>, ct: Seq<u8>, k: nat)
    requires
        d0.len() == 64,
    ensures
        digest_before(d0, ct, k).len() == 64,
{
}

/// In step: the digest with which decryption meets block `k` of the
/// ciphertext is the digest with which encryption met block `k` of the
/// plaintext.
pub proof fn lemma_digests_in_step(s: Seq<u32>, d0: Seq<u8>, pt: Seq<u8>, k: nat)
    requires
        k <= block_count(pt.len()),
    ensures
        digest_before(d0, chain_encrypt(s, d0, pt), k) == encrypt_digest(s, d0, pt, k),
    decreases k,
{
    if k > 0 {
        let j = (k - 1) as nat;
        lemma_digests_in_step(s, d0, pt, j);
        let ct = chain_encrypt(s, d0, pt);
        let d = encrypt_digest(s, d0, pt, j);
        assert(64 * j < pt.len());
        assert(chunk(ct, j as int).len() == chunk_end(pt.len(), j as int) - 64 * j);
        assert forall|i: int| 0 <= i < chunk(ct, j as int).len() implies chunk(ct, j as int)[i]
            == mix_chunk(s, d, pt, j as int)[i] by {
            let q = 64 * j + i;
            assert(q / 64 == j && q % 64 == i);
            assert(chunk(ct, j as int)[i] == ct[q]);
        }
        assert(chunk(ct, j as int) =~= mix_chunk(s, d, pt, j as int));
    }
}

/// Round trip: what one cipher encrypts, a cipher in the same state and with
/// the same digest decrypts to the message that went in, whatever the
/// message and its length; and the two are left with the same digest.
pub proof fn lemma_round_trip(s: Seq<u32>, d0: Seq<u8>, message: Seq<u8>)
    ensures
        chain_decrypt(s, d0, chain_encrypt(s, d0, message)) == message,
        digest_before(d0, chain_encrypt(s, d0, message), block_count(message.len()))
            == encrypt_digest(s, d0, message, block_count(message.len())),
{
    let ct = chain_encrypt(s, d0, message);
    lemma_digests_in_step(s, d0, message, block_count(message.len()));
    assert forall|i: int| 0 <= i < message.len() implies chain_decrypt(s, d0, ct)[i]
        == message[i] by {
        let k = (i / 64) as nat;
        lemma_digests_in_step(s, d0, message, k);
        let d = encrypt_digest(s, d0, message, k)[i % 64];
        lemma_mix_twice(message[i], keystream_byte(s, i), d);
    }
    assert(chain_decrypt(s, d0, ct) =~= message);
}

/// With a digest of zeros the first block is plain keystream XOR: a message
/// of at most 64 bytes is encrypted as the base cipher encrypts it.
pub proof fn lemma_first_block_is_plain(s: Seq<u32>, message: Seq<u8>)
    requires
        message.len() <= 64,
    ensures
        chain_encrypt(s, Seq::new(64, |i: int| 0u8), message) == xor_keystream(s, message),
{
    let zeros = Seq::new(64, |i: int| 0u8);
    assert forall|i: int| 0 <= i < message.len() implies chain_encrypt(s, zeros, message)[i]
        == xor_keystream(s, message)[i] by {
        assert(i / 64 == 0 && i % 64 == i);
        let x = message[i] ^ keystream_byte(s, i);
        assert(x ^ 0u8 == x) by (bit_vector);
    }
    assert(chain_encrypt(s, zeros, message) =~= xor_keystream(s, message));
}

/// Mixing the same keystream byte and digest byte in twice gives the first
/// byte back.
pub proof fn lemma_mix_twice(a: u8, k: u8, d: u8)
    ensures
        ((a ^ k ^ d) ^ k) ^ d == a,
{
    assert(((a ^ k ^ d) ^ k) ^ d == a) by (bit_vector);
}

/// Two digests that differ in byte `j` and nowhere else.
pub open spec fn differ_only_at(d1: Seq<u8>, d2: Seq<u8>, j: int) -> bool {
    &&& d1.len() == 64
    &&& d2.len() == 64
    &&& forall|i: int| 0 <= i < 64 ==> ((d1[i] != d2[i]) <==> i == j)
}

/// Two ciphertexts of one length that differ in the single byte `p`.
pub open spec fn flipped_at(c1: Seq<u8>, c2: Seq<u8>, p: int) -> bool {
    &&& c1.len() == c2.len()
    &&& 0 <= p < c1.len()
    &&& c1[p] != c2[p]
    &&& forall|i: int| 0 <= i < c1.len() && i != p ==> c1[i] == c2[i]
}

/// Up to the block of the changed byte the digests of the two ciphertexts
/// are the same.
pub proof fn lemma_digest_before_flip(d0: Seq<u8>, c1: Seq<u8>, c2: Seq<u8>, p: int, k: nat)
    requires
        flipped_at(c1, c2, p),
        k <= p / 64,
    ensures
        digest_before(d0, c1, k) == digest_before(d0, c2, k),
    decreases k,
{
    if k > 0 {
        let j = (k - 1) as nat;
        lemma_digest_before_flip(d0, c1, c2, p, j);
        assert(chunk(c1, j as int) =~= chunk(c2, j as int));
    }
}

/// After the block of the changed byte, where that block is a full one, the
/// digests of the two ciphertexts differ in the byte's place within its
/// block, and nowhere else, before every later block and at the end.
pub proof fn lemma_digest_after_flip(d0: Seq<u8>, c1: Seq<u8>, c2: Seq<u8>, p: int, k: nat)
    requires
        d0.len() == 64,
        flipped_at(c1, c2, p),
        64 * (p / 64) + 64 <= c1.len(),
        p / 64 < k <= block_count(c1.len()),
    ensures
        differ_only_at(digest_before(d0, c1, k), digest_before(d0, c2, k), p % 64),
    decreases k,
{
    let j = (k - 1) as nat;
    let e1 = digest_before(d0, c1, j);
    let e2 = digest_before(d0, c2, j);
    let b1 = chunk(c1, j as int);
    let b2 = chunk(c2, j as int);
    lemma_digest_len(d0, c1, j);
    lemma_digest_len(d0, c2, j);
    if j == p / 64 {
        lemma_digest_before_flip(d0, c1, c2, p, j);
        assert(b1.len() == 64 && b2.len() == 64);
        assert forall|i: int| 0 <= i < 64 implies ((digest_update(e1, b1)[i] != digest_update(
            e2,
            b2,
        )[i]) <==> i == p % 64) by {
            assert(b1[i] == c1[64 * j + i] && b2[i] == c2[64 * j + i]);
            lemma_xor_keeps_difference(b1[i], b2[i], e1[i]);
        }
    } else {
        lemma_digest_after_flip(d0, c1, c2, p, j);
        assert(64 * j < c1.len());
        assert(b1 =~= b2);
        assert forall|i: int| 0 <= i < 64 implies ((digest_update(e1, b1)[i] != digest_update(
            e2,
            b2,
        )[i]) <==> i == p % 64) by {
            let x = if b1.len() == 64 {
                b1[i]
            } else {
                expansion_byte(b1, i)
            };
            lemma_xor_keeps_difference(e1[i], e2[i], x);
        }
    }
}

/// Chaining: if two ciphertexts of one length differ in the single byte `p`,
/// their decryptions from the same state and digest differ in byte `p`, in
/// the byte at the same place of every later block that reaches that place,
/// and in no other byte.
pub proof fn lemma_flip_spreads(s: Seq<u32>, d0: Seq<u8>, c1: Seq<u8>, c2: Seq<u8>, p: int)
    requires
        d0.len() == 64,
        flipped_at(c1, c2, p),
    ensures
        forall|q: int|
            0 <= q < c1.len() ==> ((chain_decrypt(s, d0, c1)[q] != chain_decrypt(s, d0, c2)[q])
                <==> (q >= p && q % 64 == p % 64)),
{
    assert forall|q: int| 0 <= q < c1.len() implies ((chain_decrypt(s, d0, c1)[q] != chain_decrypt(
        s,
        d0,
        c2,
    )[q]) <==> (q >= p && q % 64 == p % 64)) by {
        let k = (q / 64) as nat;
        let e1 = digest_before(d0, c1, k)[q % 64];
        let e2 = digest_before(d0, c2, k)[q % 64];
        let ks = keystream_byte(s, q);
        if k <= p / 64 {
            lemma_digest_before_flip(d0, c1, c2, p, k);
            lemma_xor_keeps_difference(c1[q], c2[q], ks);
            lemma_xor_keeps_difference(c1[q] ^ ks, c2[q] ^ ks, e1);
        } else {
            lemma_digest_after_flip(d0, c1, c2, p, k);
            lemma_xor_keeps_difference(e1, e2, c1[q] ^ ks);
        }
    }
}

/// How many of the leading bytes of a short block of `len` bytes the digest
/// expander reads: those of the lanes in use, four bytes to a lane.
pub open spec fn seed_reach(len: nat) -> int {
    if 4 * lanes_in_use(len) <= len {
        4 * lanes_in_use(len)
    } else {
        len as int
    }
}

/// Two short blocks of one length leave the same digest exactly if they
/// hold the same bytes where the expander reads.
pub proof fn lemma_short_block_moves_digest(d: Seq<u8>, c1: Seq<u8>, c2: Seq<u8>)
    requires
        c1.len() == c2.len(),
        0 < c1.len() < 64,
    ensures
        digest_update(d, c1) == digest_update(d, c2) <==> forall|i: int|
            0 <= i < seed_reach(c1.len()) ==> c1[i] == c2[i],
{
    let w = lanes_in_use(c1.len());
    if forall|i: int| 0 <= i < seed_reach(c1.len()) ==> c1[i] == c2[i] {
        assert forall|p: int| 0 <= p < 64 implies expansion_byte(c1, p) == expansion_byte(
            c2,
            p,
        ) by {
            lemma_seed_word_reads_its_group(c1, c2, p % w);
        }
        assert(digest_update(d, c1) =~= digest_update(d, c2));
    } else {
        let i = choose|i: int| 0 <= i < seed_reach(c1.len()) && c1[i] != c2[i];
        let b = i / 4;
        lemma_seed_word_reads_its_group(c1, c2, b);
        let x = seed_word(c1, b);
        let y = seed_word(c2, b);
        lemma_stream_tells_lanes_apart(x, y);
        let r = choose|r: nat|
            1 <= r <= 5 && low_byte(xorshift_n(x, r)) != low_byte(xorshift_n(y, r));
        let p = (r - 1) * w + b;
        assert(0 <= p < 64 && p % w == b && p / w == r - 1) by {
            if w == 1 {
                assert(p == r - 1);
            } else if w == 4 {
                assert(p == 4 * (r - 1) + b);
            } else {
                assert(p == 8 * (r - 1) + b);
            }
        }
        assert(expansion_byte(c1, p) != expansion_byte(c2, p));
        lemma_xor_keeps_difference(expansion_byte(c1, p), expansion_byte(c2, p), d[p]);
        assert(digest_update(d, c1)[p] != digest_update(d, c2)[p]);
    }
}

/// Messages that agree in their first `64 * k` bytes are met with the same
/// digest up to block `k`.
pub proof fn lemma_same_blocks_same_digest(
    s: Seq<u32>,
    d0: Seq<u8>,
    m1: Seq<u8>,
    m2: Seq<u8>,
    k: nat,
)
    requires
        m1.len() == m2.len(),
        64 * k <= m1.len(),
        forall|i: int| 0 <= i < 64 * k ==> m1[i] == m2[i],
    ensures
        encrypt_digest(s, d0, m1, k) == encrypt_digest(s, d0, m2, k),
    decreases k,
{
    if k > 0 {
        let j = (k - 1) as nat;
        lemma_same_blocks_same_digest(s, d0, m1, m2, j);
        let d = encrypt_digest(s, d0, m1, j);
        assert(mix_chunk(s, d, m1, j as int) =~= mix_chunk(s, d, m2, j as int));
    }
}

/// A short last block is felt: of two messages of one length that end in a
/// short block and agree before it, encryption leaves the same digest
/// exactly if the two short blocks hold the same bytes where the expander
/// reads.
pub proof fn lemma_short_last_block_moves_digest(
    s: Seq<u32>,
    d0: Seq<u8>,
    m1: Seq<u8>,
    m2: Seq<u8>,
)
    requires
        m1.len() == m2.len(),
        m1.len() % 64 != 0,
        forall|i: int| 0 <= i < 64 * (m1.len() / 64) ==> m1[i] == m2[i],
    ensures
        encrypt_digest(s, d0, m1, block_count(m1.len())) == encrypt_digest(
            s,
            d0,
            m2,
            block_count(m1.len()),
        ) <==> forall|i: int|
            64 * (m1.len() / 64) <= i < 64 * (m1.len() / 64) + seed_reach(
                (m1.len() % 64) as nat,
            ) ==> m1[i] == m2[i],
{
    let len = m1.len();
    let j = len / 64;
    let t = 64 * j;
    let n = len % 64;
    assert(block_count(len) == j + 1);
    lemma_same_blocks_same_digest(s, d0, m1, m2, j);
    let d = encrypt_digest(s, d0, m1, j);
    let c1 = mix_chunk(s, d, m1, j as int);
    let c2 = mix_chunk(s, d, m2, j as int);
    assert(chunk_end(len, j as int) == len);
    assert(c1.len() == n && c2.len() == n);
    assert(seed_reach(n as nat) <= n);
    assert forall|i: int| 0 <= i < n implies ((c1[i] == c2[i]) <==> m1[t + i] == m2[t + i]) by {
        let ks = keystream_byte(s, t + i);
        lemma_xor_keeps_difference(m1[t + i], m2[t + i], ks);
        lemma_xor_keeps_difference(m1[t + i] ^ ks, m2[t + i] ^ ks, d[i]);
    }
    lemma_short_block_moves_digest(d, c1, c2);
    let reach = seed_reach(n as nat);
    if forall|i: int| 0 <= i < reach ==> c1[i] == c2[i] {
        assert forall|i: int| t <= i < t + reach implies m1[i] == m2[i] by {
            assert(c1[i - t] == c2[i - t]);
        }
    }
    if forall|i: int| t <= i < t + reach ==> m1[i] == m2[i] {
        assert forall|i: int| 0 <= i < reach implies c1[i] == c2[i] by {
            assert(m1[t + i] == m2[t + i]);
        }
    }
    assert(encrypt_digest(s, d0, m1, (j + 1) as nat) == digest_update(d, c1));
    assert(encrypt_digest(s, d0, m2, (j + 1) as nat) == digest_update(d, c2));
}

/// The digest shows: a full block encrypted from the same state with two
/// digests comes out the same exactly if the digests are the same.
pub proof fn lemma_digest_shows_in_next_block(
    s: Seq<u32>,
    d1: Seq<u8>,
    d2: Seq<u8>,
    block: Seq<u8>,
)
    requires
        d1.len() == 64,
        d2.len() == 64,
        block.len() == 64,
    ensures
        chain_encrypt(s, d1, block) == chain_encrypt(s, d2, block) <==> d1 == d2,
{
    if d1 == d2 {
    } else {
        assert(!(d1 =~= d2));
        let i = choose|i: int| 0 <= i < 64 && d1[i] != d2[i];
        assert(i / 64 == 0 && i % 64 == i);
        lemma_xor_keeps_difference(d1[i], d2[i], block[i] ^ keystream_byte(s, i));
        assert(chain_encrypt(s, d1, block)[i] != chain_encrypt(s, d2, block)[i]);
    }
}

} // verus!
