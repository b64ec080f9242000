//! A 20-round ChaCha stream cipher and a ciphertext-chained variant of it,
//! with their behaviour stated and proved over sequences of bytes and words.

pub mod block;
pub mod chacha20;
pub mod chaining;
pub mod dchacha20;
pub mod wiped;
pub mod xorshift;

pub use chacha20::ChaCha20;
pub use dchacha20::DChaCha20;
