//! Laws that relate the ciphers to each other and to themselves.
use vstd::prelude::*;
use crate::alphabet::{atbash_char, is_letter, lemma_atbash_char_byte, shift_char};
use crate::cipher::{atbash_text, caesar_text, shift_text};
use crate::vigenere::{key_shifts, signed_shift, vigenere_from, vigenere_text};

verus! {

proof fn lemma_shift_char_back(c: char, n: int)
    ensures
        shift_char(shift_char(c, n), -n) == c,
        is_letter(shift_char(c, n)) == is_letter(c),
{
    if is_letter(c) {
        let x = (c as u32) as int - 97;
        let y = (x + n) % 26;
        assert(0 <= y < 26);
        assert(((y + 97) as char) as u32 == y + 97);
        assert((y - n) % 26 == x) by {
            vstd::arithmetic::div_mod::lemma_add_mod_noop(x + n, -n, 26);
            vstd::arithmetic::div_mod::lemma_mod_self_0(26);
            vstd::arithmetic::div_mod::lemma_small_mod(x as nat, 26);
            vstd::arithmetic::div_mod::lemma_mod_twice(x + n, 26);
        }
        assert(((x + 97) as char) == c);
    }
}

/// Shifting a text by `n` and then by `-n` gives the text back.
pub proof fn lemma_shift_round_trip(s: Seq<char>, n: int)
    ensures
        shift_text(shift_text(s, n), -n) == s,
{
    assert forall|i: int| 0 <= i < s.len() implies shift_text(shift_text(s, n), -n)[i] == s[i] by {
        lemma_shift_char_back(s[i], n);
    }
    assert(shift_text(shift_text(s, n), -n) =~= s);
}

/// Decrypting a Caesar encryption gives the text back.
pub proof fn lemma_caesar_round_trip(s: Seq<char>)
    ensures
        caesar_text(caesar_text(s, true), false) == s,
{
    lemma_shift_round_trip(s, 3);
}

/// Atbash is its own inverse.
pub proof fn lemma_atbash_involution(s: Seq<char>)
    ensures
        atbash_text(atbash_text(s)) == s,
{
    assert forall|i: int| 0 <= i < s.len() implies atbash_text(atbash_text(s))[i] == s[i] by {
        let c = s[i];
        lemma_atbash_char_byte(c);
        lemma_atbash_char_byte(atbash_char(c));
        if is_letter(c) {
            let x = 219 - (c as u32) as int;
            assert(97 <= x < 123);
            assert(((x as char) as u32) == x);
            vstd::utf8::char_u32_cast(c, c as u32);
            assert(((219 - x) as char) == c);
        }
    }
    assert(atbash_text(atbash_text(s)) =~= s);
}

proof fn lemma_vigenere_from_round_trip(s: Seq<char>, ks: Seq<u8>, k: int)
    ensures
        vigenere_from(vigenere_from(s, ks, k, true), ks, k, false) == s,
    decreases s.len(),
{
    if s.len() > 0 {
        let c = s[0];
        let t = vigenere_from(s, ks, k, true);
        if is_letter(c) && ks.len() > 0 {
            let a = signed_shift(ks[k], true);
            lemma_shift_char_back(c, a);
            let k2 = (k + 1) % (ks.len() as int);
            lemma_vigenere_from_round_trip(s.drop_first(), ks, k2);
            assert(t.drop_first() =~= vigenere_from(s.drop_first(), ks, k2, true));
            assert(signed_shift(ks[k], false) == -a);
        } else {
            lemma_vigenere_from_round_trip(s.drop_first(), ks, k);
            assert(t.drop_first() =~= vigenere_from(s.drop_first(), ks, k, true));
        }
        assert(vigenere_from(t, ks, k, false) =~= s);
    }
}

/// Decrypting a Vigenère encryption with the same key gives the text back.
pub proof fn lemma_vigenere_round_trip(s: Seq<char>, key: Seq<char>)
    ensures
        vigenere_text(vigenere_text(s, key, true), key, false) == s,
{
    lemma_vigenere_from_round_trip(s, key_shifts(key), 0);
}

proof fn lemma_vigenere_from_keeps_non_letters(s: Seq<char>, ks: Seq<u8>, k: int, e: bool)
    ensures
        vigenere_from(s, ks, k, e).len() == s.len(),
        forall|i: int|
            0 <= i < s.len() && !is_letter(#[trigger] s[i]) ==> vigenere_from(s, ks, k, e)[i]
                == s[i],
    decreases s.len(),
{
    if s.len() > 0 {
        let t = vigenere_from(s, ks, k, e);
        let k2 = if is_letter(s[0]) && ks.len() > 0 {
            (k + 1) % (ks.len() as int)
        } else {
            k
        };
        lemma_vigenere_from_keeps_non_letters(s.drop_first(), ks, k2, e);
        assert(t.drop_first() =~= vigenere_from(s.drop_first(), ks, k2, e));
        assert forall|i: int| 0 <= i < s.len() && !is_letter(#[trigger] s[i]) implies t[i]
            == s[i] by {
            if i > 0 {
                assert(t[i] == t.drop_first()[i - 1]);
                assert(s[i] == s.drop_first()[i - 1]);
            }
        }
    }
}

/// Every cipher keeps the length of the text and each character that is
/// not a letter, in its place.
pub proof fn lemma_non_letters_kept(s: Seq<char>, n: int, key: Seq<char>, encrypt: bool)
    ensures
        shift_text(s, n).len() == s.len(),
        caesar_text(s, encrypt).len() == s.len(),
        atbash_text(s).len() == s.len(),
        vigenere_text(s, key, encrypt).len() == s.len(),
        forall|i: int|
            0 <= i < s.len() && !is_letter(#[trigger] s[i]) ==> shift_text(s, n)[i] == s[i]
                && caesar_text(s, encrypt)[i] == s[i] && atbash_text(s)[i] == s[i]
                && vigenere_text(s, key, encrypt)[i] == s[i],
{
    lemma_vigenere_from_keeps_non_letters(s, key_shifts(key), 0, encrypt);
}

} // verus!
