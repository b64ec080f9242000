use dchacha20::{ChaCha20, DChaCha20};
use rand::RngCore;

fn from_hex(text: &str) -> Vec<u8> {
    let digits: Vec<u8> = text
        .bytes()
        .filter(|b| !b.is_ascii_whitespace())
        .map(|b| (b as char).to_digit(16).unwrap() as u8)
        .collect();
    digits.chunks(2).map(|pair| pair[0] * 16 + pair[1]).collect()
}

fn test_key() -> [u8; 32] {
    from_hex(
        "00 01 02 03 04 05 06 07 08 09 0a 0b 0c 0d 0e 0f 10 11 12 13 14 15 16 17 18 19 1a 1b 1c 1d 1e 1f",
    )
    .try_into()
    .unwrap()
}

fn test_nonce() -> [u8; 12] {
    from_hex("00 00 00 00 00 00 00 4a 00 00 00 00").try_into().unwrap()
}

#[test]
fn dchacha20_validate() {
    let key = test_key();
    let nonce = test_nonce();

    let msg = "Ladies and Gentlemen of the class of '99: If I could offer you only one tip for the future, sunscreen would be it.".as_bytes().to_vec();
    let msg1 = "111111111".as_bytes().to_vec();
    let msg2 = "1111111112222222222222222222".as_bytes().to_vec();
    let msg3 = "1111111112222222222222222222333333".as_bytes().to_vec();

    let mut cipher = DChaCha20::new(&key, &nonce);
    let mut cipher1 = DChaCha20::new(&key, &nonce);

    let mut buffer1 = msg.clone();
    let mut buffer2 = msg.clone();
    let mut buffer3 = msg.clone();
    let mut buffer4 = msg1.clone();
    let mut buffer5 = msg2.clone();
    let mut buffer6 = msg3.clone();

    cipher.encrypt(&mut buffer1);
    cipher.encrypt(&mut buffer2);
    cipher.encrypt(&mut buffer3);
    cipher.encrypt(&mut buffer4);
    cipher.encrypt(&mut buffer5);
    cipher.encrypt(&mut buffer6);

    assert_eq!(buffer1, from_hex("e3647a29ded31528ef56bac70f7a7ac3b735c7444da42d99823ef9938c8ebfdcf05bb71a822c62981aa1ea608f47933f2ed755b62d9312ae72037674f3e93e24af4752faf1a6a9e9b4e1ed88d176150e4f4ebde616fd5f0e8e141f5f61081ed71912d8dc9e6c1f65dab4fa8d0009206223b5"));

    assert_eq!(buffer2, from_hex("baa993a9d12b536004c7c88e1495bad4ff4e76d0300a107631071ddc547353ad41ab964a399ad38e241539eadbc82348d7c5b2c90261ffd680f973c83b8ab31583466f9a5bedd74009b240aea81c31d79e7fbf65f7ee336c63cc4695d25f779523ab3774ac4bec6f1647f9e3a0f7a044a5b8"));

    assert_eq!(buffer3, from_hex("9b30a8c27dcfc009452d9e9513ec4f6c2de03b67f6f93dc68f7bec8a46fb21394c5fc1380718ae60134b0010a18be6af46a7e1cf1b0d0cd3b5d4e8a617bddfbe478f5d0ced2d7415c61f46a4af5519872f3b19ccdced672e6b7e96ac272955ace8a0800f6d21b1f07e701cc9865614005584"));

    assert_eq!(buffer4, from_hex("67d74ed67435de1e63"));
    assert_eq!(buffer5, from_hex("022a199635c83fc3604f804bafdb3f121b888350693d0a0db31ac3e0"));
    assert_eq!(buffer6, from_hex("ce34b79c788723be97da5c3f661420b64131ccbfcfd9e92eec9981a76ce5ddecc203"));

    cipher1.decrypt(&mut buffer1);
    cipher1.decrypt(&mut buffer2);
    cipher1.decrypt(&mut buffer3);
    cipher1.decrypt(&mut buffer4);
    cipher1.decrypt(&mut buffer5);
    cipher1.decrypt(&mut buffer6);

    assert_eq!(buffer1, msg);
    assert_eq!(buffer2, msg);
    assert_eq!(buffer3, msg);
    assert_eq!(buffer4, msg1);
    assert_eq!(buffer5, msg2);
    assert_eq!(buffer6, msg3);
}

#[test]
fn dchacha20_encrypt_decrypt() {
    let mut rand = rand::rngs::OsRng {};
    let mut key = [0u8; 32];
    rand.fill_bytes(&mut key);
    let mut nonce = [0u8; 12];
    rand.fill_bytes(&mut nonce);

    let mut cipher = DChaCha20::new(&key, &nonce);
    let mut cipher1 = DChaCha20::new(&key, &nonce);

    for _ in 0..100 {
        let mut msg = b"hello".to_vec();
        cipher.encrypt(&mut msg);
        cipher1.decrypt(&mut msg);
        assert_eq!(msg, b"hello");
    }

    for _ in 0..100 {
        let mut msg = b"hello".repeat(300);
        cipher.encrypt(&mut msg);
        cipher1.decrypt(&mut msg);
        assert_eq!(msg, b"hello".repeat(300));
    }
}

#[test]
fn dchacha20_first_block_is_plain_keystream() {
    let mut chained = DChaCha20::new(&test_key(), &test_nonce());
    let mut base = ChaCha20::new(&test_key(), &test_nonce());
    let mut a = [0u8; 64];
    let mut b = [0u8; 64];
    chained.encrypt(&mut a);
    base.encrypt(&mut b);
    assert_eq!(a, b);
}

#[test]
fn dchacha20_full_block_is_folded_into_the_next() {
    let mut cipher = DChaCha20::new(&test_key(), &test_nonce());
    let mut first = [0u8; 64];
    let mut second = [0u8; 64];
    cipher.encrypt(&mut first);
    cipher.encrypt(&mut second);
    assert_eq!(second.to_vec(), from_hex("8d4a4fb3fbbbeca8aeecbdefd27713425e4bbda850e74d5b8819565f711111d70940d2dfd06b513395f8d7cb4225206838ee8392cbc24005fd507a416ce15ffc"));
}

#[test]
fn dchacha20_short_block_is_expanded_into_the_next() {
    let mut cipher = DChaCha20::new(&test_key(), &test_nonce());
    let mut first = [0u8; 5];
    let mut second = [0u8; 8];
    cipher.encrypt(&mut first);
    cipher.encrypt(&mut second);
    assert_eq!(first.to_vec(), from_hex("af051e40bb"));
    assert_eq!(second.to_vec(), from_hex("9871ae8ac9ce02e1"));
}

#[test]
fn dchacha20_empty_buffer_changes_nothing() {
    let mut cipher = DChaCha20::new(&test_key(), &test_nonce());
    let mut nothing: [u8; 0] = [];
    cipher.encrypt(&mut nothing);
    cipher.decrypt(&mut nothing);
    let mut msg = "111111111".as_bytes().to_vec();
    cipher.encrypt(&mut msg);
    assert_eq!(msg, from_hex("9e342f718a910478b0"));
}

#[test]
fn dchacha20_round_trip_over_every_short_length() {
    let mut enc = DChaCha20::new(&test_key(), &test_nonce());
    let mut dec = DChaCha20::new(&test_key(), &test_nonce());
    for len in 0..200usize {
        let msg: Vec<u8> = (0..len).map(|i| (i * 7 + len) as u8).collect();
        let mut buf = msg.clone();
        enc.encrypt(&mut buf);
        dec.decrypt(&mut buf);
        assert_eq!(buf, msg);
    }
}

#[test]
fn dchacha20_flipped_byte_spoils_every_later_block() {
    let msg = b"hello".repeat(40);
    let mut ct = msg.clone();
    DChaCha20::new(&test_key(), &test_nonce()).encrypt(&mut ct);
    ct[70] ^= 0x20;
    DChaCha20::new(&test_key(), &test_nonce()).decrypt(&mut ct);
    for i in 0..msg.len() {
        assert_eq!(ct[i] != msg[i], i == 70 || i == 134 || i == 198);
    }
}

#[test]
fn dchacha20_flipped_byte_misses_a_shorter_last_block() {
    let msg = b"hello".repeat(40);
    let mut ct = msg.clone();
    DChaCha20::new(&test_key(), &test_nonce()).encrypt(&mut ct);
    ct[74] ^= 0x01;
    DChaCha20::new(&test_key(), &test_nonce()).decrypt(&mut ct);
    for i in 0..msg.len() {
        assert_eq!(ct[i] != msg[i], i == 74 || i == 138);
    }
}

#[test]
fn dchacha20_short_last_block_changes_the_digest() {
    let mut one = DChaCha20::new(&test_key(), &test_nonce());
    let mut two = DChaCha20::new(&test_key(), &test_nonce());
    let mut a = [9u8; 70];
    let mut b = [9u8; 70];
    b[65] = 10;
    one.encrypt(&mut a);
    two.encrypt(&mut b);
    assert_eq!(a[..64], b[..64]);
    let mut next_a = [0u8; 64];
    let mut next_b = [0u8; 64];
    one.encrypt(&mut next_a);
    two.encrypt(&mut next_b);
    assert_ne!(next_a, next_b);
}

#[test]
fn dchacha20_short_last_block_is_read_only_where_the_lanes_reach() {
    let mut one = DChaCha20::new(&test_key(), &test_nonce());
    let mut two = DChaCha20::new(&test_key(), &test_nonce());
    let mut a = [9u8; 73];
    let mut b = [9u8; 73];
    b[72] = 10;
    one.encrypt(&mut a);
    two.encrypt(&mut b);
    assert_ne!(a[72], b[72]);
    let mut next_a = [0u8; 64];
    let mut next_b = [0u8; 64];
    one.encrypt(&mut next_a);
    two.encrypt(&mut next_b);
    assert_eq!(next_a, next_b);
}

#[test]
fn dchacha20_rounds_word_by_word() {
    let start: [u32; 16] = [
        0x61707865, 0x3320646e, 0x79622d32, 0x6b206574, 0x03020100, 0x07060504, 0x0b0a0908,
        0x0f0e0d0c, 0x13121110, 0x17161514, 0x1b1a1918, 0x1f1e1d1c, 0, 0, 0x4a000000, 0,
    ];
    let mut scalar = start;
    let mut rows = start;
    DChaCha20::rounds(&mut scalar);
    ChaCha20::rounds(&mut rows);
    assert_eq!(scalar, rows);
    assert_eq!(scalar[0], 0xdead8d4a);
    assert_eq!(scalar[15], 0x4b1e9c9c);
}

#[test]
fn dchacha20_rows_and_words_agree_on_many_states() {
    let mut state = [0u32; 16];
    for round in 0..50u32 {
        for (i, word) in state.iter_mut().enumerate() {
            *word = word.wrapping_mul(0x9e3779b9).wrapping_add(round * 16 + i as u32);
        }
        let mut scalar = state;
        let mut rows = state;
        DChaCha20::rounds(&mut scalar);
        ChaCha20::rounds(&mut rows);
        assert_eq!(scalar, rows);
        state = scalar;
    }
}

#[test]
fn dchacha20_quarter_round_on_four_words() {
    let mut state = [0u32; 16];
    state[2] = 0x11111111;
    state[7] = 0x01020304;
    state[8] = 0x9b8d6f43;
    state[13] = 0x01234567;
    DChaCha20::quarter_round(&mut state, 2, 7, 8, 13);
    assert_eq!(state[2], 0xea2a92f4);
    assert_eq!(state[7], 0xcb1cf8ce);
    assert_eq!(state[8], 0x4581472e);
    assert_eq!(state[13], 0x5881c4bb);
    assert_eq!(state[0], 0);
    assert_eq!(state[15], 0);
}
