//! The alphabet `a` to `z`, the letter maps of the ciphers, and how a map
//! over bytes of UTF-8 text relates to the same map over its characters.
use vstd::prelude::*;
use vstd::utf8::*;

verus! {

/// True for the bytes `a` to `z`.
pub open spec fn is_letter_byte(b: u8) -> bool {
    97 <= b && b <= 122
}

/// True for the characters `a` to `z`.
pub open spec fn is_letter(c: char) -> bool {
    97 <= (c as u32) && (c as u32) <= 122
}

/// The alphabet `a` to `z` as bytes, in order.
pub open spec fn alphabet_seq() -> Seq<u8> {
    Seq::new(26, |i: int| (97 + i) as u8)
}

/// The letter `n` places after `c`, counting round from `z` to `a`; any
/// other character stays as it is.
pub open spec fn shift_char(c: char, n: int) -> char {
    if is_letter(c) {
        (((c as u32) as int - 97 + n) % 26 + 97) as char
    } else {
        c
    }
}

/// The byte `n` letters after `b`, counting round from `z` to `a`; any
/// byte that is not a letter stays as it is.
pub open spec fn shift_byte(b: u8, n: int) -> u8 {
    if is_letter_byte(b) {
        ((b - 97 + n) % 26 + 97) as u8
    } else {
        b
    }
}

/// The mirror image of a letter in the alphabet (`a` and `z`, `b` and `y`);
/// any other character stays as it is.
pub open spec fn atbash_char(c: char) -> char {
    if is_letter(c) {
        (219 - (c as u32) as int) as char
    } else {
        c
    }
}

/// A translation table that maps letters to letters and nothing else.
pub open spec fn is_letter_table(t: Map<u8, u8>) -> bool {
    forall|b: u8| #[trigger] t.contains_key(b) ==> is_letter_byte(b) && is_letter_byte(t[b])
}

/// A byte looked up in a translation table; a byte that the table does not
/// hold passes through.
pub open spec fn translate_byte(t: Map<u8, u8>, b: u8) -> u8 {
    if t.contains_key(b) {
        t[b]
    } else {
        b
    }
}

/// A character looked up in a translation table over bytes; a character
/// that the table does not hold passes through.
pub open spec fn translate_char(t: Map<u8, u8>, c: char) -> char {
    if (c as u32) < 128 && t.contains_key((c as u32) as u8) {
        t[(c as u32) as u8] as char
    } else {
        c
    }
}

/// The table that sends each letter `n` places along the alphabet.
pub open spec fn shift_table(n: int) -> Map<u8, u8> {
    Map::new(|b: u8| is_letter_byte(b), |b: u8| ((b - 97 + n) % 26 + 97) as u8)
}

/// The table that sends each letter to its mirror image.
pub open spec fn atbash_table_spec() -> Map<u8, u8> {
    Map::new(|b: u8| is_letter_byte(b), |b: u8| (219 - b) as u8)
}

/// Builds the alphabet `a` to `z` as bytes, in order.
pub fn alphabet() -> (r: Vec<u8>)
    ensures
        r@ == alphabet_seq(),
{
    let mut r: Vec<u8> = Vec::new();
    let mut b: u8 = 97;
    while b <= 122
        invariant
            97 <= b <= 123,
            r@ =~= Seq::new((b - 97) as nat, |i: int| (97 + i) as u8),
        decreases 123 - b,
    {
        r.push(b);
        b = b + 1;
    }
    assert(r@ =~= alphabet_seq());
    r
}

/// The UTF-8 encoding of a character below 128 is its one byte; every byte
/// of the encoding of any other character is at least 128, so no letter.
pub proof fn lemma_scalar_head(c: char)
    ensures
        (c as u32) < 0x80 ==> encode_scalar(c as u32) == seq![(c as u32) as u8],
        (c as u32) >= 0x80 ==> forall|i: int|
            0 <= i < encode_scalar(c as u32).len() ==> !is_letter_byte(
                #[trigger] encode_scalar(c as u32)[i],
            ),
{
    let v = c as u32;
    char_is_scalar(c);
    if v < 0x80 {
        assert((v & 0x7Fu32) as u8 == v as u8) by (bit_vector)
            requires
                v < 0x80u32,
        ;
    } else {
        assert(0xC0u8 | (((v >> 6u32) & 0x1Fu32) as u8) >= 0x80u8) by (bit_vector);
        assert(0xE0u8 | (((v >> 12u32) & 0x0Fu32) as u8) >= 0x80u8) by (bit_vector);
        assert(0xF0u8 | (((v >> 18u32) & 0x7u32) as u8) >= 0x80u8) by (bit_vector);
        assert(0x80u8 | ((v & 0x3Fu32) as u8) >= 0x80u8) by (bit_vector);
        assert(0x80u8 | (((v >> 6u32) & 0x3Fu32) as u8) >= 0x80u8) by (bit_vector);
        assert(0x80u8 | (((v >> 12u32) & 0x3Fu32) as u8) >= 0x80u8) by (bit_vector);
    }
}

/// Mapping the UTF-8 bytes of a text through a letter table gives the UTF-8
/// bytes of the text mapped character by character.
pub proof fn lemma_translate_encoding(t: Map<u8, u8>, s: Seq<char>)
    requires
        is_letter_table(t),
    ensures
        encode_utf8(s.map_values(|c: char| translate_char(t, c))) == encode_utf8(s).map_values(
            |b: u8| translate_byte(t, b),
        ),
    decreases s.len(),
{
    let g = |c: char| translate_char(t, c);
    let f = |b: u8| translate_byte(t, b);
    if s.len() == 0 {
        assert(encode_utf8(s).map_values(f) =~= seq![]);
        assert(s.map_values(g) =~= seq![]);
    } else {
        let c = s[0];
        let rest = s.drop_first();
        lemma_translate_encoding(t, rest);
        assert(s.map_values(g).drop_first() =~= rest.map_values(g));
        let v = c as u32;
        let head = encode_scalar(v);
        lemma_scalar_head(c);
        if v < 0x80 {
            let d = g(c);
            if t.contains_key((c as u32) as u8) {
                assert(d == t[(c as u32) as u8] as char);
                assert((d as u32) < 0x80);
                assert((d as u32) as u8 == t[(c as u32) as u8]);
                lemma_scalar_head(d);
                assert(encode_scalar(d as u32) =~= head.map_values(f));
            } else {
                assert(d == c);
                assert(encode_scalar(d as u32) =~= head.map_values(f));
            }
        } else {
            assert(g(c) == c);
            assert(head.map_values(f) =~= head);
        }
        assert(encode_utf8(s) == head + encode_utf8(rest));
        assert((head + encode_utf8(rest)).map_values(f) =~= head.map_values(f) + encode_utf8(
            rest,
        ).map_values(f));
        assert(encode_utf8(s.map_values(g)) == encode_scalar(g(c) as u32) + encode_utf8(
            s.map_values(g).drop_first(),
        ));
    }
}

/// A shifted letter is the letter whose byte is the shifted byte.
pub proof fn lemma_shift_char_byte(c: char, n: int)
    ensures
        is_letter(c) ==> is_letter(shift_char(c, n)) && (shift_char(c, n) as u32) as u8
            == shift_byte((c as u32) as u8, n) && shift_char(c, n) == (shift_byte(
            (c as u32) as u8,
            n,
        ) as char),
        !is_letter(c) ==> shift_char(c, n) == c,
{
    if is_letter(c) {
        let x = ((c as u32) as int - 97 + n) % 26 + 97;
        assert(97 <= x < 123);
        assert(((x as char) as u32) == x);
        assert(((x as u8) as char) == (x as char));
    }
}

/// A mirrored letter is the letter whose byte is the mirrored byte.
pub proof fn lemma_atbash_char_byte(c: char)
    ensures
        is_letter(c) ==> is_letter(atbash_char(c)) && atbash_char(c) == (((219 - (c as u32) as u8)
            as u8) as char),
        !is_letter(c) ==> atbash_char(c) == c,
{
    if is_letter(c) {
        let x = 219 - (c as u32) as int;
        assert(97 <= x < 123);
        assert(((x as char) as u32) == x);
        assert(((x as u8) as char) == (x as char));
    }
}

} // verus!
