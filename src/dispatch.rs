//! Choosing one cipher and applying it.
use std::string::FromUtf8Error;
use vstd::prelude::*;
use crate::cipher::{atbash, atbash_text, caesar, caesar_text, shift, shift_text};
use crate::vigenere::{vigenere, vigenere_text};

verus! {

/// One cipher, with what it needs besides the text.
pub enum Cipher {
    Caesar,
    Atbash,
    /// The Vigenère cipher, with its key.
    Vigenere(String),
    /// The shift cipher, with the number of places.
    Shift(i8),
}

/// What applying a cipher to `s` gives; with no cipher, `s` itself.
pub open spec fn cipher_text(s: Seq<char>, cipher: Option<Cipher>, encrypt: bool) -> Seq<char> {
    match cipher {
        None => s,
        Some(Cipher::Caesar) => caesar_text(s, encrypt),
        Some(Cipher::Atbash) => atbash_text(s),
        Some(Cipher::Vigenere(key)) => vigenere_text(s, key@, encrypt),
        Some(Cipher::Shift(by)) => shift_text(s, by as int),
    }
}

/// Applies the chosen cipher to `text`, encrypting or decrypting where the
/// cipher tells the two apart; with no cipher the text is returned as it
/// is.
pub fn apply_cipher(text: &str, cipher: &Option<Cipher>, encrypt: bool) -> (r: Result<
    String,
    FromUtf8Error,
>)
    ensures
        r is Ok,
        r->Ok_0@ == cipher_text(text@, *cipher, encrypt),
{
    match cipher {
        None => Ok(text.to_owned()),
        Some(Cipher::Caesar) => caesar(text, encrypt),
        Some(Cipher::Atbash) => atbash(text),
        Some(Cipher::Vigenere(key)) => vigenere(text, key.as_str(), encrypt),
        Some(Cipher::Shift(by)) => shift(text, *by),
    }
}

} // verus!
