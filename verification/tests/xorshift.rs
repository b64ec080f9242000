use dchacha20::xorshift::XorShiftSIMD;

fn bytes_of(text: &str) -> Vec<u8> {
    let digits: Vec<u8> =
        text.bytes().map(|b| (b as char).to_digit(16).unwrap() as u8).collect();
    digits.chunks(2).map(|pair| pair[0] * 16 + pair[1]).collect()
}

fn expansion(seed: &[u8]) -> Vec<u8> {
    let mut generator = XorShiftSIMD::new();
    generator.set_seed(seed);
    let mut out = [0u8; 64];
    generator.xor_with_slice(&mut out);
    out.to_vec()
}

#[test]
fn one_lane_for_a_seed_under_16_bytes() {
    assert_eq!(expansion(b"abc"), bytes_of("b65d4650e28c5bf06deb6d970d3566b371247b67ec5802f5d340d51465fcc2765fa8cd799a47f6d9c09fd1b850afd3df46b2c01546cc23819fa7e7ddd1a380ea"));
}

#[test]
fn only_the_first_group_counts_under_16_bytes() {
    assert_eq!(expansion(&[1, 2, 3, 4, 5]), bytes_of("203264f2d5fc562f0b6252beac4296db540dab0fffcb9abc9f38260d14f6ae20c4ca95172b8325f04756cffa91db9b70987c5d46ea5fd29d07debf4ce3fdb0b1"));
    assert_eq!(expansion(&[1, 2, 3, 4, 5]), expansion(&[1, 2, 3, 4, 6, 7]));
    assert_ne!(expansion(&[1, 2, 3, 4, 5]), expansion(&[1, 2, 3, 5, 5]));
}

#[test]
fn four_lanes_for_a_seed_of_16_to_31_bytes() {
    assert_eq!(expansion(b"0123456789abcdefghij"), bytes_of("fa7cfbf71f7f766a2be3beda330af7a2c2f21beb3fd527995644dc0b64e257f4658bd698cba33e2ac60a67cdf90f5d80e1d16c4cc10b7bebeeb32324de2873f1"));
}

#[test]
fn eight_lanes_for_a_seed_of_32_bytes_or_more() {
    let seed: Vec<u8> = (100u8..140).collect();
    assert_eq!(expansion(&seed), bytes_of("a12bad1e9812947945ed8dd7b71f7f999f579fb37bb37b1eeb88b18db4d7ee7ded3707fdcd17277a6dff1573990be1ae85f2e0756710028c6a3dbb7cfaad2b9c"));
}

#[test]
fn zero_lanes_give_a_zero_stream() {
    let mut generator = XorShiftSIMD::new();
    let mut out = [0x5au8; 64];
    generator.xor_with_slice(&mut out);
    assert_eq!(out, [0x5au8; 64]);
    assert_eq!(expansion(&[0, 0, 0, 0, 9]), vec![0u8; 64]);
}

#[test]
fn an_empty_seed_leaves_the_lanes() {
    let mut generator = XorShiftSIMD::new();
    generator.set_seed(b"abc");
    let mut first = [0u8; 64];
    generator.xor_with_slice(&mut first);
    generator.set_seed(&[]);
    let mut second = [0u8; 64];
    generator.xor_with_slice(&mut second);
    assert_eq!(second.to_vec(), bytes_of("d7457c736702700cec567fc33d11115587f37aafc93c77bce05052393214336c66b3b64f9b9f8a38d85ba7e48efe0219b1608fa6d874d595ba5b77376cfe01f7"));
}

#[test]
fn the_stream_is_xored_into_what_is_there() {
    let mut generator = XorShiftSIMD::new();
    generator.set_seed(b"abc");
    let mut out = [0xffu8; 64];
    generator.xor_with_slice(&mut out);
    assert_eq!(out[0], 0xb6 ^ 0xff);
    assert_eq!(out[63], 0xea ^ 0xff);
}
