use dchacha20::ChaCha20;
use rand::RngCore;

fn unhex(text: &str) -> Vec<u8> {
    let digits: Vec<u8> = text
        .bytes()
        .filter(|b| !b.is_ascii_whitespace())
        .map(|b| (b as char).to_digit(16).unwrap() as u8)
        .collect();
    digits.chunks(2).map(|pair| pair[0] * 16 + pair[1]).collect()
}

fn key_and_nonce() -> ([u8; 32], [u8; 12]) {
    let key: [u8; 32] = unhex(
        "00 01 02 03 04 05 06 07 08 09 0a 0b 0c 0d 0e 0f 10 11 12 13 14 15 16 17 18 19 1a 1b 1c 1d 1e 1f",
    )
    .try_into()
    .unwrap();
    let nonce: [u8; 12] = unhex("00 00 00 00 00 00 00 4a 00 00 00 00").try_into().unwrap();
    (key, nonce)
}

const SUNSCREEN: &str = "Ladies and Gentlemen of the class of '99: If I could offer you only one tip for the future, sunscreen would be it.";

#[test]
fn chacha20_validate() {
    let (key, nonce) = key_and_nonce();

    let msg = SUNSCREEN.as_bytes().to_vec();

    let mut cipher = ChaCha20::new(&key, &nonce);
    let mut cipher1 = ChaCha20::new(&key, &nonce);

    let mut buffer1 = msg.clone();
    let mut buffer2 = msg.clone();
    let mut buffer3 = msg.clone();

    cipher.encrypt(&mut buffer1);
    cipher.encrypt(&mut buffer2);
    cipher.encrypt(&mut buffer3);

    assert_eq!(buffer1, unhex("e3647a29ded31528ef56bac70f7a7ac3b735c7444da42d99823ef9938c8ebfdcf05bb71a822c62981aa1ea608f47933f2ed755b62d9312ae72037674f3e93e244c2328d32f75bcc15bb7574fde0c6fcdf87b7aa25b5972970c2ae6cced86a10be9496fc61c407dfdc01510ed8f4eb35d0d62"));

    assert_eq!(buffer2, unhex("25c710f65a102f204caede6f8923b01243b9510350d6ea538781a01aa76038364aab01bc3aa415b0fb47a3abb0545e489c161867534f7cc7ed899c9156e4e482a6817f6c01fdf860451c9ec1213f81c5ddc6ee66a738d93fe44de68f753f4fa3690036c896eff9dfed005a4810a3fe0c39ae"));

    assert_eq!(buffer3, unhex("e2b2918e9ffe293d5e01676f500ab8ff0492462b0dd8a056111de080861d1a72baad5228a3e09fe296d56d86e4db61cce87e7f1735ca431f85a3650416d4ed49a53dcc8272d35d28981e21cbff5fa1782ba95fe7d135c7787a63762ca1344fde520dd227cec12e12e8a5714f628d75ccbdfa"));

    cipher1.decrypt(&mut buffer1);
    cipher1.decrypt(&mut buffer2);
    cipher1.decrypt(&mut buffer3);

    assert_eq!(buffer1, msg);
    assert_eq!(buffer2, msg);
    assert_eq!(buffer3, msg);
}

#[test]
fn chacha20_encrypt_decrypt() {
    let mut rand = rand::rngs::OsRng {};
    let mut key = [0u8; 32];
    rand.fill_bytes(&mut key);
    let mut nonce = [0u8; 12];
    rand.fill_bytes(&mut nonce);

    let mut cipher = ChaCha20::new(&key, &nonce);
    let mut cipher1 = ChaCha20::new(&key, &nonce);

    for _ in 0..100 {
        let mut msg = b"hello".to_vec();
        cipher.encrypt(&mut msg);
        cipher1.decrypt(&mut msg);
        assert_eq!(msg, b"hello");
    }

    for _ in 0..100 {
        let mut msg = b"hello".repeat(300);
        cipher.encrypt(&mut msg);
        cipher1.decrypt(&mut msg);
        assert_eq!(msg, b"hello".repeat(300));
    }
}

#[test]
fn chacha20_first_keystream_block() {
    let (key, nonce) = key_and_nonce();
    let mut cipher = ChaCha20::new(&key, &nonce);
    let mut zeros = [0u8; 64];
    cipher.encrypt(&mut zeros);
    assert_eq!(zeros.to_vec(), unhex("af051e40bba0354981329a806a140eafd258a22a6dcb4bb9f6569cb3efe2deaf837bd87ca20b5ba12081a306af0eb35c41a239d20dfc74c81771560d9c9c1e4b"));
    let mut more = [0u8; 8];
    cipher.encrypt(&mut more);
    assert_eq!(more.to_vec(), unhex("224f51f3401bd9e1"));
}

#[test]
fn chacha20_same_key_and_nonce_same_ciphertext() {
    let (key, nonce) = key_and_nonce();
    let mut first = ChaCha20::new(&key, &nonce);
    let mut second = ChaCha20::new(&key, &nonce);
    let mut a = b"hello".repeat(40);
    let mut b = b"hello".repeat(40);
    first.encrypt(&mut a);
    second.encrypt(&mut b);
    assert_eq!(a, b);
    assert_ne!(a, b"hello".repeat(40));
}

#[test]
fn chacha20_empty_buffer_uses_no_block() {
    let (key, nonce) = key_and_nonce();
    let mut cipher = ChaCha20::new(&key, &nonce);
    let mut nothing: [u8; 0] = [];
    cipher.encrypt(&mut nothing);
    cipher.decrypt(&mut nothing);
    let mut msg = SUNSCREEN.as_bytes().to_vec();
    cipher.encrypt(&mut msg);
    assert_eq!(msg[..16].to_vec(), unhex("e3647a29ded31528ef56bac70f7a7ac3"));
}

#[test]
fn chacha20_short_chunk_uses_a_whole_block() {
    let (key, nonce) = key_and_nonce();
    let mut whole = ChaCha20::new(&key, &nonce);
    let mut parts = ChaCha20::new(&key, &nonce);
    let mut a = [7u8; 128];
    whole.encrypt(&mut a);
    let mut head = [7u8; 5];
    let mut tail = [7u8; 64];
    parts.encrypt(&mut head);
    parts.encrypt(&mut tail);
    assert_eq!(head[..], a[..5]);
    assert_eq!(tail[..], a[64..]);
}

#[test]
fn chacha20_block_by_block_equals_all_at_once() {
    let (key, nonce) = key_and_nonce();
    let mut whole = ChaCha20::new(&key, &nonce);
    let mut parts = ChaCha20::new(&key, &nonce);
    let mut a = b"hello".repeat(40);
    whole.encrypt(&mut a);
    let mut b = b"hello".repeat(40);
    let (left, right) = b.split_at_mut(128);
    parts.encrypt(left);
    parts.encrypt(right);
    assert_eq!(a, b);
}

#[test]
fn chacha20_flipped_byte_stays_in_its_place() {
    let (key, nonce) = key_and_nonce();
    let msg = b"hello".repeat(40);
    let mut ct = msg.clone();
    ChaCha20::new(&key, &nonce).encrypt(&mut ct);
    ct[70] ^= 0x20;
    ChaCha20::new(&key, &nonce).decrypt(&mut ct);
    for i in 0..msg.len() {
        assert_eq!(ct[i] != msg[i], i == 70);
    }
}

#[test]
fn chacha20_rounds_on_rows() {
    let mut state: [u32; 16] = [
        0x61707865, 0x3320646e, 0x79622d32, 0x6b206574, 0x03020100, 0x07060504, 0x0b0a0908,
        0x0f0e0d0c, 0x13121110, 0x17161514, 0x1b1a1918, 0x1f1e1d1c, 0, 0, 0x4a000000, 0,
    ];
    ChaCha20::rounds(&mut state);
    assert_eq!(
        state,
        [
            0xdead8d4a, 0x16153c4d, 0x0738054f, 0x43edaef6, 0x27a057d2, 0xb245c669, 0xa8924dee,
            0xa0d0d5e3, 0x69c66a73, 0x8a44f68e, 0xeb896808, 0x3d94f193, 0xd239a241, 0xc874fc0d,
            0xc3567117, 0x4b1e9c9c,
        ]
    );
}

#[test]
fn chacha20_quarter_round_in_every_lane() {
    let mut a = [0x11111111u32; 4];
    let mut b = [0x01020304u32; 4];
    let mut c = [0x9b8d6f43u32; 4];
    let mut d = [0x01234567u32; 4];
    ChaCha20::quarter_round(&mut a, &mut b, &mut c, &mut d);
    assert_eq!(a, [0xea2a92f4u32; 4]);
    assert_eq!(b, [0xcb1cf8ceu32; 4]);
    assert_eq!(c, [0x4581472eu32; 4]);
    assert_eq!(d, [0x5881c4bbu32; 4]);
}
