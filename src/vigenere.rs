//! The Vigenère cipher: each letter of the text is shifted by the next
//! letter of a repeating key.
use std::collections::HashMap;
use std::string::FromUtf8Error;
use vstd::prelude::*;
use vstd::utf8::*;
use crate::alphabet::{
    alphabet, is_letter, is_letter_byte, lemma_scalar_head, lemma_shift_char_byte, shift_byte,
    shift_char, shift_table,
};
use crate::table::{make_shift, string_from_utf8};

verus! {

broadcast use vstd::std_specs::hash::group_hash_axioms;

/// The shift value (`a` is 0, `z` is 25) of each letter of a key, in order;
/// other characters of the key take no part.
pub open spec fn key_shifts(key: Seq<char>) -> Seq<u8>
    decreases key.len(),
{
    if key.len() == 0 {
        seq![]
    } else {
        (if is_letter(key[0]) {
            seq![((key[0] as u32) - 97) as u8]
        } else {
            seq![]
        }) + key_shifts(key.drop_first())
    }
}

/// The shift value of each letter byte of a key, in order.
pub open spec fn key_shifts_bytes(key: Seq<u8>) -> Seq<u8>
    decreases key.len(),
{
    if key.len() == 0 {
        seq![]
    } else {
        (if is_letter_byte(key[0]) {
            seq![(key[0] - 97) as u8]
        } else {
            seq![]
        }) + key_shifts_bytes(key.drop_first())
    }
}

/// A key letter's shift, forward to encrypt and back to decrypt.
pub open spec fn signed_shift(k: u8, encrypt: bool) -> int {
    if encrypt {
        k as int
    } else {
        -(k as int)
    }
}

/// The Vigenère cipher of `s` with the key's shift values `ks`, starting at
/// key position `k`: each letter is shifted by the key value at the cursor,
/// which then moves on, round to the start after the last; any other
/// character is kept and leaves the cursor where it is. With no key
/// values, the text is kept as it is.
pub open spec fn vigenere_from(s: Seq<char>, ks: Seq<u8>, k: int, encrypt: bool) -> Seq<char>
    decreases s.len(),
{
    if s.len() == 0 {
        seq![]
    } else if is_letter(s[0]) && ks.len() > 0 {
        seq![shift_char(s[0], signed_shift(ks[k], encrypt))] + vigenere_from(
            s.drop_first(),
            ks,
            (k + 1) % (ks.len() as int),
            encrypt,
        )
    } else {
        seq![s[0]] + vigenere_from(s.drop_first(), ks, k, encrypt)
    }
}

/// The Vigenère cipher of `s` under `key`, from the key's first letter.
pub open spec fn vigenere_text(s: Seq<char>, key: Seq<char>, encrypt: bool) -> Seq<char> {
    vigenere_from(s, key_shifts(key), 0, encrypt)
}

/// `vigenere_from` over the bytes of the text.
pub open spec fn vigenere_bytes_from(s: Seq<u8>, ks: Seq<u8>, k: int, encrypt: bool) -> Seq<u8>
    decreases s.len(),
{
    if s.len() == 0 {
        seq![]
    } else if is_letter_byte(s[0]) && ks.len() > 0 {
        seq![shift_byte(s[0], signed_shift(ks[k], encrypt))] + vigenere_bytes_from(
            s.drop_first(),
            ks,
            (k + 1) % (ks.len() as int),
            encrypt,
        )
    } else {
        seq![s[0]] + vigenere_bytes_from(s.drop_first(), ks, k, encrypt)
    }
}

proof fn lemma_key_nonletter_prefix(h: Seq<u8>, r: Seq<u8>)
    requires
        forall|i: int| 0 <= i < h.len() ==> !is_letter_byte(#[trigger] h[i]),
    ensures
        key_shifts_bytes(h + r) == key_shifts_bytes(r),
    decreases h.len(),
{
    if h.len() > 0 {
        assert((h + r).drop_first() =~= h.drop_first() + r);
        assert((h + r)[0] == h[0]);
        lemma_key_nonletter_prefix(h.drop_first(), r);
        assert(key_shifts_bytes(h + r) =~= key_shifts_bytes(r));
    } else {
        assert(h + r =~= r);
    }
}

proof fn lemma_vigenere_nonletter_prefix(h: Seq<u8>, r: Seq<u8>, ks: Seq<u8>, k: int, e: bool)
    requires
        forall|i: int| 0 <= i < h.len() ==> !is_letter_byte(#[trigger] h[i]),
    ensures
        vigenere_bytes_from(h + r, ks, k, e) == h + vigenere_bytes_from(r, ks, k, e),
    decreases h.len(),
{
    if h.len() > 0 {
        assert((h + r).drop_first() =~= h.drop_first() + r);
        assert((h + r)[0] == h[0]);
        lemma_vigenere_nonletter_prefix(h.drop_first(), r, ks, k, e);
        assert(vigenere_bytes_from(h + r, ks, k, e) =~= h + vigenere_bytes_from(r, ks, k, e));
    } else {
        assert(h + r =~= r);
    }
}

proof fn lemma_key_encoding(key: Seq<char>)
    ensures
        key_shifts_bytes(encode_utf8(key)) == key_shifts(key),
    decreases key.len(),
{
    if key.len() > 0 {
        let c = key[0];
        let rest = key.drop_first();
        let head = encode_scalar(c as u32);
        lemma_key_encoding(rest);
        lemma_scalar_head(c);
        assert(encode_utf8(key) == head + encode_utf8(rest));
        if (c as u32) < 0x80 {
            assert((head + encode_utf8(rest)).drop_first() =~= encode_utf8(rest));
            let b = (c as u32) as u8;
            assert((head + encode_utf8(rest))[0] == b);
            assert(is_letter(c) <==> is_letter_byte(b));
            assert(is_letter(c) ==> ((c as u32) - 97) as u8 == (b - 97) as u8);
            assert(key_shifts_bytes(encode_utf8(key)) =~= key_shifts(key));
        } else {
            lemma_key_nonletter_prefix(head, encode_utf8(rest));
            assert(!is_letter(c));
            assert(key_shifts_bytes(encode_utf8(key)) =~= key_shifts(key));
        }
    }
}

proof fn lemma_vigenere_encoding(s: Seq<char>, ks: Seq<u8>, k: int, e: bool)
    ensures
        encode_utf8(vigenere_from(s, ks, k, e)) == vigenere_bytes_from(encode_utf8(s), ks, k, e),
    decreases s.len(),
{
    if s.len() == 0 {
        assert(encode_utf8(vigenere_from(s, ks, k, e)) =~= seq![]);
    } else {
        let c = s[0];
        let rest = s.drop_first();
        let head = encode_scalar(c as u32);
        let out = vigenere_from(s, ks, k, e);
        lemma_scalar_head(c);
        assert(encode_utf8(s) == head + encode_utf8(rest));
        assert(out.drop_first() =~= vigenere_from(
            rest,
            ks,
            if is_letter(c) && ks.len() > 0 {
                (k + 1) % (ks.len() as int)
            } else {
                k
            },
            e,
        ));
        if (c as u32) < 0x80 {
            assert((head + encode_utf8(rest)).drop_first() =~= encode_utf8(rest));
            assert((head + encode_utf8(rest))[0] == (c as u32) as u8);
            let d = out[0];
            lemma_shift_char_byte(c, signed_shift(ks[k], e));
            assert((d as u32) < 0x80);
            lemma_scalar_head(d);
            if is_letter(c) && ks.len() > 0 {
                lemma_vigenere_encoding(rest, ks, (k + 1) % (ks.len() as int), e);
            } else {
                lemma_vigenere_encoding(rest, ks, k, e);
            }
            assert(encode_utf8(out) == encode_scalar(d as u32) + encode_utf8(out.drop_first()));
        } else {
            assert(!is_letter(c));
            lemma_vigenere_encoding(rest, ks, k, e);
            lemma_vigenere_nonletter_prefix(head, encode_utf8(rest), ks, k, e);
            assert(out[0] == c);
            assert(encode_utf8(out) == head + encode_utf8(out.drop_first()));
        }
    }
}

/// The shift value of each letter of `key`, in order.
fn key_letter_shifts(key: &str) -> (r: Vec<u8>)
    ensures
        r@ == key_shifts(key@),
        forall|j: int| 0 <= j < r@.len() ==> #[trigger] r@[j] < 26,
{
    let bytes = key.as_bytes();
    let mut r: Vec<u8> = Vec::new();
    let mut i: usize = 0;
    assert(bytes@.subrange(0, bytes@.len() as int) =~= bytes@);
    assert(r@ + key_shifts_bytes(bytes@) =~= key_shifts_bytes(bytes@));
    while i < bytes.len()
        invariant
            i <= bytes@.len(),
            r@ + key_shifts_bytes(bytes@.subrange(i as int, bytes@.len() as int))
                == key_shifts_bytes(bytes@),
            forall|j: int| 0 <= j < r@.len() ==> #[trigger] r@[j] < 26,
        decreases bytes@.len() - i,
    {
        let b: u8 = bytes[i];
        let ghost tail = bytes@.subrange(i as int, bytes@.len() as int);
        assert(tail.drop_first() =~= bytes@.subrange(i + 1, bytes@.len() as int));
        if 97 <= b && b <= 122 {
            r.push(b - 97);
        }
        i = i + 1;
        assert(r@ + key_shifts_bytes(bytes@.subrange(i as int, bytes@.len() as int))
            =~= key_shifts_bytes(bytes@));
    }
    assert(bytes@.subrange(bytes@.len() as int, bytes@.len() as int) =~= Seq::<u8>::empty());
    assert(r@ =~= key_shifts_bytes(bytes@));
    proof {
        lemma_key_encoding(key@);
    }
    r
}

/// The Vigenère cipher: each letter of `text` is shifted by the next letter
/// of `key` (`a` by 0, `z` by 25), forward to encrypt and back to decrypt,
/// the key repeating as often as needed. Characters that are not letters
/// are kept and use up no key letter; neither do characters of the key that
/// are not letters. A key without letters leaves the text as it is.
pub fn vigenere(text: &str, key: &str, enc: bool) -> (r: Result<String, FromUtf8Error>)
    ensures
        r is Ok,
        r->Ok_0@ == vigenere_text(text@, key@, enc),
{
    let alphabet = alphabet();
    let ks = key_letter_shifts(key);
    let bytes = text.as_bytes();
    let mut shift_dicts: HashMap<i8, HashMap<u8, u8>> = HashMap::new();
    let mut result: Vec<u8> = Vec::new();
    let mut cursor: usize = 0;
    let mut i: usize = 0;
    let ghost n = bytes@.len() as int;
    assert(bytes@.subrange(0, n) =~= bytes@);
    assert(result@ + vigenere_bytes_from(bytes@, ks@, 0, enc) =~= vigenere_bytes_from(
        bytes@,
        ks@,
        0,
        enc,
    ));
    while i < bytes.len()
        invariant
            i <= n,
            n == bytes@.len(),
            alphabet@ == crate::alphabet::alphabet_seq(),
            ks@.len() == 0 ==> cursor == 0,
            ks@.len() > 0 ==> cursor < ks@.len(),
            forall|j: int| 0 <= j < ks@.len() ==> #[trigger] ks@[j] < 26,
            forall|s: i8| #[trigger]
                shift_dicts@.contains_key(s) ==> shift_dicts@[s]@ == shift_table(s as int),
            result@ + vigenere_bytes_from(bytes@.subrange(i as int, n), ks@, cursor as int, enc)
                == vigenere_bytes_from(bytes@, ks@, 0, enc),
        decreases n - i,
    {
        let letter: u8 = bytes[i];
        let ghost tail = bytes@.subrange(i as int, n);
        assert(tail.drop_first() =~= bytes@.subrange(i + 1, n));
        assert(tail[0] == letter);
        if letter < 97 || letter > 122 || ks.len() == 0 {
            // Not a letter: it is kept, and the key cursor stays.
            result.push(letter);
        } else {
            let k: u8 = ks[cursor];
            let shift: i8 = if enc {
                k as i8
            } else {
                -(k as i8)
            };
            assert(shift as int == signed_shift(ks@[cursor as int], enc));
            let c: u8 = match shift_dicts.get(&shift) {
                Some(table) => match table.get(&letter) {
                    Some(ch) => *ch,
                    None => letter,
                },
                None => {
                    let table = make_shift(&alphabet, shift);
                    let ch: u8 = match table.get(&letter) {
                        Some(ch) => *ch,
                        None => letter,
                    };
                    shift_dicts.insert(shift, table);
                    ch
                },
            };
            assert(c == shift_byte(letter, shift as int));
            result.push(c);
            cursor = (cursor + 1) % ks.len();
        }
        i = i + 1;
        assert(result@ + vigenere_bytes_from(bytes@.subrange(i as int, n), ks@, cursor as int, enc)
            =~= vigenere_bytes_from(bytes@, ks@, 0, enc));
    }
    assert(bytes@.subrange(0, n) =~= bytes@);
    assert(bytes@.subrange(n, n) =~= Seq::<u8>::empty());
    assert(result@ =~= vigenere_bytes_from(bytes@, ks@, 0, enc));
    proof {
        lemma_vigenere_encoding(text@, ks@, 0, enc);
        encode_utf8_valid_utf8(vigenere_from(text@, ks@, 0, enc));
        encode_utf8_decode_utf8(vigenere_from(text@, ks@, 0, enc));
    }
    string_from_utf8(result)
}

} // verus!
