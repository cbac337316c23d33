//! The ciphers: Caesar, shift, Atbash and Vigenère.
use std::collections::HashMap;
use std::string::FromUtf8Error;
use vstd::prelude::*;
use crate::alphabet::{
    alphabet, alphabet_seq, atbash_char, atbash_table_spec, is_letter, is_letter_byte,
    is_letter_table, lemma_atbash_char_byte, lemma_shift_char_byte, shift_char, shift_table, translate_char,
};
use crate::table::{make_atbash, make_shift, translate_string};

verus! {

/// Every letter of `s` moved `n` places along the alphabet.
pub open spec fn shift_text(s: Seq<char>, n: int) -> Seq<char> {
    s.map_values(|c: char| shift_char(c, n))
}

/// Every letter of `s` replaced by its mirror image.
pub open spec fn atbash_text(s: Seq<char>) -> Seq<char> {
    s.map_values(|c: char| atbash_char(c))
}

/// The Caesar cipher of `s`: three places on to encrypt, three back to
/// decrypt.
pub open spec fn caesar_text(s: Seq<char>, encrypt: bool) -> Seq<char> {
    shift_text(s, if encrypt { 3 } else { -3 })
}

proof fn lemma_shift_table_chars(s: Seq<char>, n: int)
    ensures
        is_letter_table(shift_table(n)),
        s.map_values(|c: char| translate_char(shift_table(n), c)) == shift_text(s, n),
{
    assert forall|b: u8| #[trigger] shift_table(n).contains_key(b) implies is_letter_byte(b)
        && is_letter_byte(shift_table(n)[b]) by {}
    assert forall|i: int| 0 <= i < s.len() implies translate_char(shift_table(n), s[i])
        == shift_char(s[i], n) by {
        lemma_shift_char_byte(s[i], n);
    }
    assert(s.map_values(|c: char| translate_char(shift_table(n), c)) =~= shift_text(s, n));
}

proof fn lemma_atbash_table_chars(s: Seq<char>)
    ensures
        is_letter_table(atbash_table_spec()),
        s.map_values(|c: char| translate_char(atbash_table_spec(), c)) == atbash_text(s),
{
    assert forall|i: int| 0 <= i < s.len() implies translate_char(atbash_table_spec(), s[i])
        == atbash_char(s[i]) by {
        lemma_atbash_char_byte(s[i]);
    }
    assert(s.map_values(|c: char| translate_char(atbash_table_spec(), c)) =~= atbash_text(s));
}

/// Moves every letter of `text` the given number of places along the
/// alphabet, counting round from `z` to `a`; the amount is taken modulo 26,
/// so a negative amount moves letters back. Other characters are kept.
pub fn shift(text: &str, by: i8) -> (r: Result<String, FromUtf8Error>)
    ensures
        r is Ok,
        r->Ok_0@ == shift_text(text@, by as int),
{
    let alphabet = alphabet();
    let table = make_shift(&alphabet, by);
    proof {
        lemma_shift_table_chars(text@, by as int);
    }
    translate_string(text, &table)
}

/// The Caesar cipher: a shift of three places, forward to encrypt and back
/// to decrypt.
pub fn caesar(text: &str, encrypt: bool) -> (r: Result<String, FromUtf8Error>)
    ensures
        r is Ok,
        r->Ok_0@ == caesar_text(text@, encrypt),
{
    if encrypt {
        shift(text, 3)
    } else {
        shift(text, -3)
    }
}

/// The Atbash cipher: every letter becomes its mirror image in the
/// alphabet; other characters are kept.
pub fn atbash(text: &str) -> (r: Result<String, FromUtf8Error>)
    ensures
        r is Ok,
        r->Ok_0@ == atbash_text(text@),
{
    let alphabet = alphabet();
    let table = make_atbash(&alphabet);
    proof {
        lemma_atbash_table_chars(text@);
    }
    translate_string(text, &table)
}

} // verus!
