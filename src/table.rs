//! Translation tables over bytes, and applying them to text.
use std::collections::HashMap;
use std::string::FromUtf8Error;
use vstd::prelude::*;
use vstd::utf8::*;
use crate::alphabet::{
    alphabet_seq, atbash_table_spec, is_letter_table, lemma_translate_encoding, shift_table,
    translate_byte, translate_char,
};

verus! {

broadcast use vstd::std_specs::hash::group_hash_axioms;

/// `std::string::FromUtf8Error`, what `String::from_utf8` fails with; it is
/// only carried through, never looked into.
#[verifier::external_type_specification]
#[verifier::external_body]
pub struct ExFromUtf8Error(FromUtf8Error);

/// Relies on `String::from_utf8`: it succeeds exactly on valid UTF-8, and
/// the string then holds the characters those bytes encode.
#[verifier::external_body]
pub(crate) fn string_from_utf8(bytes: Vec<u8>) -> (r: Result<String, FromUtf8Error>)
    ensures
        r is Ok <==> valid_utf8(bytes@),
        r is Ok ==> r->Ok_0@ == decode_utf8(bytes@),
{
    String::from_utf8(bytes)
}

/// The shift amount reduced into `0..26`.
pub fn normalize_shift(by: i8) -> (r: u8)
    ensures
        r < 26,
        r as int == (by as int) % 26,
{
    if by < 0 {
        let mag: u8 = (-(by as i16)) as u8;
        let rem: u8 = mag % 26;
        if rem == 0 {
            0
        } else {
            assert((by as int) % 26 == 26 - rem) by (nonlinear_arith)
                requires
                    mag as int == -(by as int),
                    rem as int == (mag as int) % 26,
                    rem != 0,
            ;
            26 - rem
        }
    } else {
        (by as u8) % 26
    }
}

/// Builds the table that sends each letter of `alphabet` the given number
/// of places along it, counting round from `z` to `a`.
pub fn make_shift(alphabet: &Vec<u8>, by: i8) -> (r: HashMap<u8, u8>)
    requires
        alphabet@ == alphabet_seq(),
    ensures
        r@ == shift_table(by as int),
{
    let shift: u8 = normalize_shift(by);
    let mut translate: HashMap<u8, u8> = HashMap::new();
    let mut i: usize = 0;
    while i < 26
        invariant
            i <= 26,
            shift < 26,
            shift as int == (by as int) % 26,
            alphabet@ == alphabet_seq(),
            translate@ =~= Map::new(
                |b: u8| 97 <= b < 97 + i,
                |b: u8| ((b - 97 + by as int) % 26 + 97) as u8,
            ),
        decreases 26 - i,
    {
        let j: usize = (i + shift as usize) % 26;
        let original: u8 = alphabet[i];
        let translated: u8 = alphabet[j];
        assert(translated as int == ((original - 97 + by as int) % 26 + 97)) by (nonlinear_arith)
            requires
                original as int == 97 + i,
                translated as int == 97 + j,
                j as int == (i + shift as int) % 26,
                shift as int == (by as int) % 26,
        {
            vstd::arithmetic::div_mod::lemma_add_mod_noop(i as int, by as int, 26);
        }
        translate.insert(original, translated);
        i = i + 1;
    }
    assert(translate@ =~= shift_table(by as int));
    translate
}

/// Builds the table that sends each letter of `alphabet` to its mirror
/// image, the letter as far from the end as it is from the start.
pub fn make_atbash(alphabet: &Vec<u8>) -> (r: HashMap<u8, u8>)
    requires
        alphabet@ == alphabet_seq(),
    ensures
        r@ == atbash_table_spec(),
{
    let mut translate: HashMap<u8, u8> = HashMap::new();
    let mut i: usize = 0;
    while i < 26
        invariant
            i <= 26,
            alphabet@ == alphabet_seq(),
            translate@ =~= Map::new(|b: u8| 97 <= b < 97 + i, |b: u8| (219 - b) as u8),
        decreases 26 - i,
    {
        let front: u8 = alphabet[i];
        let back: u8 = alphabet[25 - i];
        translate.insert(front, back);
        i = i + 1;
    }
    assert(translate@ =~= atbash_table_spec());
    translate
}

/// The table that sends each alphabet position (0 to 25) to its letter.
pub open spec fn position_table() -> Map<u8, u8> {
    Map::new(|n: u8| n < 26, |n: u8| (n + 97) as u8)
}

/// Builds the table that sends each position in `alphabet` to the letter
/// there.
pub fn make_positions(alphabet: &Vec<u8>) -> (r: HashMap<u8, u8>)
    requires
        alphabet@ == alphabet_seq(),
    ensures
        r@ == position_table(),
{
    let mut translate: HashMap<u8, u8> = HashMap::new();
    let mut index: usize = 0;
    while index < alphabet.len()
        invariant
            index <= 26,
            alphabet@ == alphabet_seq(),
            translate@ =~= Map::new(|n: u8| n < index, |n: u8| (n + 97) as u8),
        decreases 26 - index,
    {
        translate.insert(index as u8, alphabet[index]);
        index = index + 1;
    }
    assert(translate@ =~= position_table());
    translate
}

/// Replaces each byte that `table` holds by the byte it maps to, passes the
/// others through, and reads the result as UTF-8 text.
pub fn map_translate(text: &[u8], table: &HashMap<u8, u8>) -> (r: Result<String, FromUtf8Error>)
    ensures
        r is Ok <==> valid_utf8(text@.map_values(|b: u8| translate_byte(table@, b))),
        r is Ok ==> r->Ok_0@ == decode_utf8(text@.map_values(|b: u8| translate_byte(table@, b))),
{
    let mut out: Vec<u8> = Vec::new();
    let mut i: usize = 0;
    while i < text.len()
        invariant
            i <= text@.len(),
            out@ =~= text@.subrange(0, i as int).map_values(|b: u8| translate_byte(table@, b)),
        decreases text@.len() - i,
    {
        let c: u8 = text[i];
        let mapped: u8 = match table.get(&c) {
            Some(ch) => *ch,
            None => c,
        };
        out.push(mapped);
        i = i + 1;
    }
    assert(text@.subrange(0, text@.len() as int) =~= text@);
    string_from_utf8(out)
}

/// Applies a letter table to the bytes of `text`; since letters go to
/// letters, the result is always valid text.
pub fn translate_string(text: &str, table: &HashMap<u8, u8>) -> (r: Result<String, FromUtf8Error>)
    requires
        is_letter_table(table@),
    ensures
        r is Ok,
        r->Ok_0@ == text@.map_values(|c: char| translate_char(table@, c)),
{
    let bytes = text.as_bytes();
    proof {
        let g = |c: char| translate_char(table@, c);
        lemma_translate_encoding(table@, text@);
        encode_utf8_valid_utf8(text@.map_values(g));
        encode_utf8_decode_utf8(text@.map_values(g));
    }
    map_translate(bytes, table)
}

} // verus!
