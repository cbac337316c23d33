//! Classical substitution ciphers over lowercase Latin text: Caesar, shift,
//! Atbash and Vigenère, with a decoder for text written as alphabet
//! positions. Characters other than `a` to `z` pass through unchanged.
pub mod alphabet;
pub mod cipher;
pub mod dispatch;
pub mod laws;
pub mod numeric;
pub mod table;
pub mod vigenere;

pub use cipher::{atbash, caesar, shift};
pub use dispatch::{apply_cipher, Cipher};
pub use numeric::numeric_decrypt;
pub use vigenere::vigenere;
