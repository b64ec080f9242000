//! The base stream cipher. Its block engine works on the four rows of the
//! state, four lanes at a time; it is proved to compute the same permutation
//! as the word-by-word definition.

use crate::block::{
    add_words, block_count, column_round, diagonal_round, double_rounds, init_state,
    initial_state, keystream_block, keystream_byte, keystream_words, lemma_block_index,
    lemma_state_after_step, lemma_xor_keeps_difference, lemma_xor_twice, permute, quarter,
    rotate_left, rotl, state_after, words_to_le_bytes,
};
use vstd::prelude::*;

verus! {

/// Keystream XOR: byte `i` of `data` combined with byte `i` of the keystream
/// that starts at the state `s`.
pub open spec fn xor_keystream(s: Seq<u32>, data: Seq<u8>) -> Seq<u8> {
    Seq::new(data.len(), |i: int| data[i] ^ keystream_byte(s, i))
}

/// Component `r` of a quarter-round result.
pub open spec fn part(q: (u32, u32, u32, u32), r: int) -> u32 {
    if r == 0 {
        q.0
    } else if r == 1 {
        q.1
    } else if r == 2 {
        q.2
    } else {
        q.3
    }
}

/// The four rows of a state laid end to end.
pub open spec fn rows(a: Seq<u32>, b: Seq<u32>, c: Seq<u32>, d: Seq<u32>) -> Seq<u32> {
    Seq::new(
        16,
        |i: int|
            if i < 4 {
                a[i]
            } else if i < 8 {
                b[i - 4]
            } else if i < 12 {
                c[i - 8]
            } else {
                d[i - 12]
            },
    )
}

/// The quarter round taken in all four lanes of the rows at once.
pub open spec fn lanes_quarter(s: Seq<u32>) -> Seq<u32> {
    Seq::new(16, |i: int| part(quarter(s[i % 4], s[4 + i % 4], s[8 + i % 4], s[12 + i % 4]), i / 4))
}

/// Rows 1, 2 and 3 turned left by 1, 2 and 3 lanes: the diagonals become columns.
pub open spec fn turn_left(s: Seq<u32>) -> Seq<u32> {
    Seq::new(16, |i: int| s[4 * (i / 4) + (i % 4 + i / 4) % 4])
}

/// The inverse of `turn_left`.
pub open spec fn turn_right(s: Seq<u32>) -> Seq<u32> {
    Seq::new(16, |i: int| s[4 * (i / 4) + (i % 4 + 4 - i / 4) % 4])
}

/// The lane-wise quarter round is the column round.
#[verifier::rlimit(50)]
pub proof fn lemma_lanes_are_columns(s: Seq<u32>)
    requires
        s.len() == 16,
    ensures
        lanes_quarter(s) == column_round(s),
{
    assert(lanes_quarter(s) =~= column_round(s));
}

/// The lane-wise quarter round between two turns of the rows is the
/// diagonal round.
#[verifier::rlimit(50)]
pub proof fn lemma_turned_lanes_are_diagonals(s: Seq<u32>)
    requires
        s.len() == 16,
    ensures
        turn_right(lanes_quarter(turn_left(s))) == diagonal_round(s),
{
    assert(turn_right(lanes_quarter(turn_left(s))) =~= diagonal_round(s));
}

/// A column round and a diagonal round, both taken lane-wise.
pub open spec fn lanes_double_round(s: Seq<u32>) -> Seq<u32> {
    turn_right(lanes_quarter(turn_left(lanes_quarter(s))))
}

/// The lane-wise double round is the double round of the word-by-word
/// definition.
pub proof fn lemma_lanes_double_round(s: Seq<u32>)
    requires
        s.len() == 16,
    ensures
        lanes_double_round(s) == diagonal_round(column_round(s)),
{
    lemma_lanes_are_columns(s);
    lemma_turned_lanes_are_diagonals(lanes_quarter(s));
}

/// Round trip: what one cipher encrypts, a cipher in the same state decrypts
/// to the message that went in, whatever the message and its length.
pub proof fn lemma_round_trip(s: Seq<u32>, message: Seq<u8>)
    ensures
        xor_keystream(s, xor_keystream(s, message)) == message,
{
    let ct = xor_keystream(s, message);
    assert forall|i: int| 0 <= i < message.len() implies xor_keystream(s, ct)[i] == message[i] by {
        lemma_xor_twice(message[i], keystream_byte(s, i));
    }
    assert(xor_keystream(s, ct) =~= message);
}

/// Determinism: two ciphers made from the same key and nonce turn the same
/// message into the same ciphertext, and are in the same state afterwards.
pub proof fn lemma_same_key_same_ciphertext(
    first: ChaCha20,
    second: ChaCha20,
    key: Seq<u8>,
    nonce: Seq<u8>,
    message: Seq<u8>,
)
    requires
        first.words() == initial_state(key, nonce),
        second.words() == initial_state(key, nonce),
    ensures
        xor_keystream(first.words(), message) == xor_keystream(second.words(), message),
        state_after(first.words(), block_count(message.len())) == state_after(
            second.words(),
            block_count(message.len()),
        ),
{
}

/// No chaining: if two ciphertexts of one length differ in the single byte
/// `p`, their decryptions from the same state differ in byte `p` and in no
/// other.
pub proof fn lemma_flip_stays_local(s: Seq<u32>, c1: Seq<u8>, c2: Seq<u8>, p: int)
    requires
        c1.len() == c2.len(),
        0 <= p < c1.len(),
        c1[p] != c2[p],
        forall|i: int| 0 <= i < c1.len() && i != p ==> c1[i] == c2[i],
    ensures
        forall|q: int|
            0 <= q < c1.len() ==> ((xor_keystream(s, c1)[q] != xor_keystream(s, c2)[q]) <==> q
                == p),
{
    assert forall|q: int| 0 <= q < c1.len() implies ((xor_keystream(s, c1)[q] != xor_keystream(
        s,
        c2,
    )[q]) <==> q == p) by {
        lemma_xor_keeps_difference(c1[q], c2[q], keystream_byte(s, q));
    }
}

/// `n` double rounds, each taken lane-wise.
pub open spec fn lanes_double_rounds(s: Seq<u32>, n: nat) -> Seq<u32>
    decreases n,
{
    if n == 0 {
        s
    } else {
        lanes_double_round(lanes_double_rounds(s, (n - 1) as nat))
    }
}

/// Row-wise and word-by-word agree: any number of double rounds taken in
/// lanes on the rows gives, for every state, the words that the
/// word-by-word definition gives; so the two ways to run the permutation
/// yield the same keystream block at every block index.
pub proof fn lemma_lanes_agree_with_words(s: Seq<u32>, n: nat)
    requires
        s.len() == 16,
    ensures
        lanes_double_rounds(s, n) == double_rounds(s, n),
        double_rounds(s, n).len() == 16,
    decreases n,
{
    if n > 0 {
        lemma_lanes_agree_with_words(s, (n - 1) as nat);
        lemma_lanes_double_round(double_rounds(s, (n - 1) as nat));
    }
}

/// One block of keystream carries the agreement of a buffer with the
/// transformed data from `start` on to the end of the block.
pub proof fn lemma_xor_block(
    s0: Seq<u32>,
    data: Seq<u8>,
    before: Seq<u8>,
    after: Seq<u8>,
    start: int,
    n: int,
)
    requires
        s0.len() == 16,
        0 <= start,
        start % 64 == 0,
        0 < n <= 64,
        start + n <= data.len(),
        before.len() == data.len(),
        after.len() == data.len(),
        forall|j: int| 0 <= j < start ==> before[j] == xor_keystream(s0, data)[j],
        forall|j: int| start <= j < data.len() ==> before[j] == data[j],
        forall|i: int|
            start <= i < start + n ==> after[i] == before[i] ^ keystream_block(
                state_after(s0, (start / 64) as nat),
            )[i - start],
        forall|i: int| 0 <= i < start || start + n <= i < data.len() ==> after[i] == before[i],
    ensures
        forall|j: int| 0 <= j < start + n ==> after[j] == xor_keystream(s0, data)[j],
        forall|j: int| start + n <= j < data.len() ==> after[j] == data[j],
{
    let k = start / 64;
    assert forall|j: int| start <= j < start + n implies after[j] == xor_keystream(s0, data)[j] by {
        assert(j / 64 == k && j % 64 == j - start);
        assert(keystream_byte(s0, j) == keystream_block(state_after(s0, k as nat))[j - start]);
    }
}

/// Adds `b` into `a`, wrapping, lane by lane.
fn lanes_add(a: &mut [u32; 4], b: &[u32; 4])
    ensures
        forall|i: int| 0 <= i < 4 ==> final(a)@[i] == old(a)@[i].wrapping_add(b@[i]),
{
    a[0] = a[0].wrapping_add(b[0]);
    a[1] = a[1].wrapping_add(b[1]);
    a[2] = a[2].wrapping_add(b[2]);
    a[3] = a[3].wrapping_add(b[3]);
}

/// XORs `a` into `d` and rotates each lane of the result left by `n` bits.
fn lanes_xor_rotate(d: &mut [u32; 4], a: &[u32; 4], n: u32)
    requires
        0 < n < 32,
    ensures
        forall|i: int| 0 <= i < 4 ==> final(d)@[i] == rotl(old(d)@[i] ^ a@[i], n),
{
    d[0] = rotate_left(d[0] ^ a[0], n);
    d[1] = rotate_left(d[1] ^ a[1], n);
    d[2] = rotate_left(d[2] ^ a[2], n);
    d[3] = rotate_left(d[3] ^ a[3], n);
}

/// A cipher instance: the state, and the keystream words of the block
/// produced last.
pub struct ChaCha20 {
    state: [u32; 16],
    keystream: [u32; 16],
}

impl ChaCha20 {
    /// The sixteen words of the cipher state.
    pub closed spec fn words(&self) -> Seq<u32> {
        self.state@
    }

    /// A cipher at block 0 of the keystream of `key` and `nonce`.
    pub fn new(key: &[u8; 32], nonce: &[u8; 12]) -> (cipher: Self)
        ensures
            cipher.words() == initial_state(key@, nonce@),
    {
        Self { state: init_state(key, nonce), keystream: [0u32; 16] }
    }

    /// The quarter round in four lanes at once.
    pub fn quarter_round(a: &mut [u32; 4], b: &mut [u32; 4], c: &mut [u32; 4], d: &mut [u32; 4])
        ensures
            rows(final(a)@, final(b)@, final(c)@, final(d)@) == lanes_quarter(
                rows(old(a)@, old(b)@, old(c)@, old(d)@),
            ),
    {
        lanes_add(a, b);
        lanes_xor_rotate(d, a, 16);
        lanes_add(c, d);
        lanes_xor_rotate(b, c, 12);
        lanes_add(a, b);
        lanes_xor_rotate(d, a, 8);
        lanes_add(c, d);
        lanes_xor_rotate(b, c, 7);
        assert(rows(a@, b@, c@, d@) =~= lanes_quarter(rows(old(a)@, old(b)@, old(c)@, old(d)@)));
    }

    /// The twenty-round permutation, computed row-wise.
    #[verifier::rlimit(50)]
    pub fn rounds(state: &mut [u32; 16])
        ensures
            final(state)@ == permute(old(state)@),
    {
        let mut a: [u32; 4] = [state[0], state[1], state[2], state[3]];
        let mut b: [u32; 4] = [state[4], state[5], state[6], state[7]];
        let mut c: [u32; 4] = [state[8], state[9], state[10], state[11]];
        let mut d: [u32; 4] = [state[12], state[13], state[14], state[15]];
        assert(rows(a@, b@, c@, d@) =~= state@);
        let mut n: usize = 0;
        while n < 10
            invariant
                n <= 10,
                rows(a@, b@, c@, d@) == double_rounds(old(state)@, n as nat),
            decreases 10 - n,
        {
            let ghost s0 = rows(a@, b@, c@, d@);
            // column round
            Self::quarter_round(&mut a, &mut b, &mut c, &mut d);
            let ghost s1 = rows(a@, b@, c@, d@);

            // diagonal round
            b = [b[1], b[2], b[3], b[0]];
            c = [c[2], c[3], c[0], c[1]];
            d = [d[3], d[0], d[1], d[2]];
            assert(rows(a@, b@, c@, d@) =~= turn_left(s1));

            Self::quarter_round(&mut a, &mut b, &mut c, &mut d);
            let ghost s2 = rows(a@, b@, c@, d@);

            b = [b[3], b[0], b[1], b[2]];
            c = [c[2], c[3], c[0], c[1]];
            d = [d[1], d[2], d[3], d[0]];
            assert(rows(a@, b@, c@, d@) =~= turn_right(s2));
            proof {
                lemma_lanes_double_round(s0);
            }
            n += 1;
        }
        state[0] = a[0];
        state[1] = a[1];
        state[2] = a[2];
        state[3] = a[3];
        state[4] = b[0];
        state[5] = b[1];
        state[6] = b[2];
        state[7] = b[3];
        state[8] = c[0];
        state[9] = c[1];
        state[10] = c[2];
        state[11] = c[3];
        state[12] = d[0];
        state[13] = d[1];
        state[14] = d[2];
        state[15] = d[3];
        assert(state@ =~= rows(a@, b@, c@, d@));
    }

    /// Produces the keystream words of the current block and moves the
    /// block counter on by one.
    fn block_fn(&mut self)
        ensures
            final(self).keystream@ == keystream_words(old(self).words()),
            final(self).words() == state_after(old(self).words(), 1),
    {
        self.keystream = self.state;
        Self::rounds(&mut self.keystream);
        add_words(&mut self.keystream, &self.state);
        assert(self.keystream@ =~= keystream_words(self.state@));
        self.state[12] = self.state[12].wrapping_add(1);
        proof {
            lemma_state_after_step(old(self).state@, 0);
        }
    }

    /// XORs the next keystream block into the bytes of `buff` from `start`
    /// up to `end`.
    fn apply_keystream(&mut self, buff: &mut [u8], start: usize, end: usize)
        requires
            start <= end <= old(buff)@.len(),
            end - start <= 64,
        ensures
            final(self).words() == state_after(old(self).words(), 1),
            final(buff)@.len() == old(buff)@.len(),
            forall|i: int|
                start <= i < end ==> final(buff)@[i] == old(buff)@[i] ^ keystream_block(
                    old(self).words(),
                )[i - start],
            forall|i: int|
                0 <= i < start || end <= i < old(buff)@.len() ==> final(buff)@[i] == old(
                    buff,
                )@[i],
    {
        self.block_fn();
        let ks: [u8; 64] = words_to_le_bytes(&self.keystream);
        let mut i: usize = start;
        while i < end
            invariant
                start <= i <= end <= buff@.len(),
                end - start <= 64,
                buff@.len() == old(buff)@.len(),
                ks@ == keystream_block(old(self).words()),
                forall|j: int| start <= j < i ==> buff@[j] == old(buff)@[j] ^ ks@[j - start],
                forall|j: int|
                    0 <= j < start || i <= j < buff@.len() ==> buff@[j] == old(buff)@[j],
            decreases end - i,
        {
            buff[i] = buff[i] ^ ks[i - start];
            i += 1;
        }
    }

    /// XORs the keystream into `buff`, one block of at most 64 bytes after
    /// another.
    fn apply_stream(&mut self, buff: &mut [u8])
        ensures
            final(buff)@ == xor_keystream(old(self).words(), old(buff)@),
            final(self).words() == state_after(
                old(self).words(),
                block_count(old(buff)@.len()),
            ),
    {
        let len: usize = buff.len();
        let mut start: usize = 0;
        proof {
            lemma_state_after_step(old(self).state@, 0);
        }
        while start < len
            invariant
                start <= len,
                len == buff@.len(),
                buff@.len() == old(buff)@.len(),
                start % 64 == 0 || start == len,
                self.words() == state_after(old(self).words(), block_count(start as nat)),
                forall|j: int|
                    0 <= j < start ==> buff@[j] == xor_keystream(
                        old(self).words(),
                        old(buff)@,
                    )[j],
                forall|j: int| start <= j < len ==> buff@[j] == old(buff)@[j],
            decreases len - start,
        {
            let end: usize = if len - start >= 64 {
                start + 64
            } else {
                len
            };
            let ghost before = buff@;
            proof {
                lemma_block_index(start as int, end - start);
                lemma_state_after_step(old(self).words(), block_count(start as nat));
            }
            self.apply_keystream(buff, start, end);
            proof {
                lemma_xor_block(
                    old(self).words(),
                    old(buff)@,
                    before,
                    buff@,
                    start as int,
                    end - start,
                );
            }
            start = end;
        }
        assert(buff@ =~= xor_keystream(old(self).words(), old(buff)@));
    }

    /// Encrypts `plaintext` in place.
    pub fn encrypt(&mut self, plaintext: &mut [u8])
        ensures
            final(plaintext)@ == xor_keystream(old(self).words(), old(plaintext)@),
            final(self).words() == state_after(
                old(self).words(),
                block_count(old(plaintext)@.len()),
            ),
    {
        self.apply_stream(plaintext);
    }

    /// Decrypts `ciphertext` in place: the same transformation as `encrypt`.
    pub fn decrypt(&mut self, ciphertext: &mut [u8])
        ensures
            final(ciphertext)@ == xor_keystream(old(self).words(), old(ciphertext)@),
            final(self).words() == state_after(
                old(self).words(),
                block_count(old(ciphertext)@.len()),
            ),
    {
        self.apply_stream(ciphertext);
    }
}

} // verus!
