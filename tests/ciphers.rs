use ciphers::{apply_cipher, atbash, caesar, numeric_decrypt, shift, vigenere, Cipher};

#[test]
fn shift_moves_letters_forward() {
    assert_eq!(shift("abc", 1).unwrap(), "bcd");
}

#[test]
fn shift_wraps_round_the_end() {
    assert_eq!(shift("xyz", 1).unwrap(), "yza");
}

#[test]
fn shift_keeps_non_letters() {
    assert_eq!(shift("hello, world! 123", 3).unwrap(), "khoor, zruog! 123");
}

#[test]
fn shift_negative_moves_back() {
    assert_eq!(shift("abc", -1).unwrap(), "zab");
}

#[test]
fn shift_reduces_modulo_alphabet() {
    assert_eq!(shift("abc", 26).unwrap(), "abc");
    assert_eq!(shift("abc", 27).unwrap(), "bcd");
    assert_eq!(shift("abc", -27).unwrap(), "zab");
}

#[test]
fn shift_by_smallest_amount() {
    assert_eq!(shift("abc", -128).unwrap(), "cde");
    assert_eq!(shift("abc", 127).unwrap(), "xyz");
}

#[test]
fn shift_round_trip_on_letters() {
    let text = "thequickbrownfoxjumpsoverthelazydog";
    for n in -25i8..=25 {
        let there = shift(text, n).unwrap();
        assert_eq!(shift(&there, -n).unwrap(), text);
    }
}

#[test]
fn shift_empty_text() {
    assert_eq!(shift("", 5).unwrap(), "");
}

#[test]
fn shift_keeps_multibyte_characters() {
    assert_eq!(shift("héllo", 1).unwrap(), "iémmp");
}

#[test]
fn shift_leaves_upper_case() {
    assert_eq!(shift("Abc", 1).unwrap(), "Acd");
}

#[test]
fn caesar_encrypts_by_three() {
    assert_eq!(caesar("hello", true).unwrap(), "khoor");
}

#[test]
fn caesar_decrypts_by_three() {
    assert_eq!(caesar("khoor", false).unwrap(), "hello");
    assert_eq!(caesar("abc", false).unwrap(), "xyz");
}

#[test]
fn caesar_round_trip() {
    let text = "attack at dawn, 6am!";
    let there = caesar(text, true).unwrap();
    assert_eq!(caesar(&there, false).unwrap(), text);
}

#[test]
fn atbash_mirrors_letters() {
    assert_eq!(atbash("attack").unwrap(), "zggzxp");
    assert_eq!(atbash("abcxyz").unwrap(), "zyxcba");
}

#[test]
fn atbash_is_its_own_inverse() {
    assert_eq!(atbash(&atbash("attack").unwrap()).unwrap(), "attack");
    let text = "the quick brown fox, 42 times";
    assert_eq!(atbash(&atbash(text).unwrap()).unwrap(), text);
}

#[test]
fn atbash_keeps_non_letters() {
    assert_eq!(atbash("a-b c!9").unwrap(), "z-y x!9");
}

#[test]
fn vigenere_encrypts_with_repeating_key() {
    assert_eq!(vigenere("attackatdawn", "lemon", true).unwrap(), "lxfopvefrnhr");
}

#[test]
fn vigenere_decrypts_with_repeating_key() {
    assert_eq!(vigenere("lxfopvefrnhr", "lemon", false).unwrap(), "attackatdawn");
}

#[test]
fn vigenere_cursor_skips_non_letters() {
    assert_eq!(vigenere("a b", "xy", true).unwrap(), "x z");
}

#[test]
fn vigenere_round_trip() {
    let text = "meet me at the old mill, 9pm";
    let there = vigenere(text, "secret", true).unwrap();
    assert_eq!(vigenere(&there, "secret", false).unwrap(), text);
}

#[test]
fn vigenere_empty_key_keeps_text() {
    assert_eq!(vigenere("hello", "", true).unwrap(), "hello");
}

#[test]
fn vigenere_key_without_letters_keeps_text() {
    assert_eq!(vigenere("hello", "12 !", false).unwrap(), "hello");
}

#[test]
fn vigenere_skips_non_letters_of_key() {
    assert_eq!(vigenere("aaa", "b-c", true).unwrap(), "bcb");
}

#[test]
fn numeric_decrypt_decodes_positions() {
    assert_eq!(numeric_decrypt("7-4-11-11-14").unwrap(), "hello");
}

#[test]
fn numeric_decrypt_joins_groups_with_spaces() {
    assert_eq!(numeric_decrypt("7-4 11-11-14").unwrap(), "he llo");
    assert_eq!(numeric_decrypt("  0\t25\n").unwrap(), "a z");
}

#[test]
fn numeric_decrypt_empty_text() {
    assert_eq!(numeric_decrypt("").unwrap(), "");
}

#[test]
fn numeric_decrypt_accepts_plus_sign() {
    assert_eq!(numeric_decrypt("+7-04").unwrap(), "he");
}

#[test]
fn numeric_decrypt_malformed_numeral_fails() {
    assert_eq!(numeric_decrypt("7-x-11").unwrap_err(), "Something has gone wrong");
    assert!(numeric_decrypt("7-4 11-11-14 a").is_err());
}

#[test]
fn numeric_decrypt_empty_numeral_fails() {
    assert!(numeric_decrypt("1--2").is_err());
}

#[test]
fn numeric_decrypt_out_of_range_number_fails() {
    assert!(numeric_decrypt("256").is_err());
    assert!(numeric_decrypt("200").is_err());
}

#[test]
fn numeric_decrypt_passes_other_numbers_through() {
    assert_eq!(numeric_decrypt("33-0").unwrap(), "!a");
    assert_eq!(numeric_decrypt("195-169").unwrap(), "é");
}

#[test]
fn numeric_decrypt_marker_in_output_fails() {
    assert!(numeric_decrypt("69-82-82-79-82").is_err());
}

#[test]
fn apply_cipher_selects_each_cipher() {
    assert_eq!(apply_cipher("abc", &Some(Cipher::Caesar), true).unwrap(), "def");
    assert_eq!(apply_cipher("abc", &Some(Cipher::Atbash), true).unwrap(), "zyx");
    assert_eq!(
        apply_cipher("abc", &Some(Cipher::Vigenere("b".to_string())), false).unwrap(),
        "zab"
    );
    assert_eq!(apply_cipher("abc", &Some(Cipher::Shift(2)), true).unwrap(), "cde");
}

#[test]
fn apply_cipher_without_cipher_keeps_text() {
    assert_eq!(apply_cipher("abc, 1", &None, true).unwrap(), "abc, 1");
}

#[test]
fn numeric_decrypt_unicode_whitespace_only() {
    assert_eq!(numeric_decrypt("\u{85}").unwrap(), "");
    assert_eq!(numeric_decrypt("\u{a0} \u{2028}").unwrap(), "");
}

#[test]
fn numeric_decrypt_splits_at_unicode_whitespace() {
    assert_eq!(numeric_decrypt("0\u{3000}1").unwrap(), "a b");
    assert_eq!(numeric_decrypt("7-4\u{a0}11-11-14").unwrap(), "he llo");
    assert_eq!(numeric_decrypt("2\u{2000}3\u{200a}4\u{205f}5\u{1680}6").unwrap(), "c d e f g");
}

#[test]
fn numeric_decrypt_non_whitespace_character_fails() {
    assert!(numeric_decrypt("0\u{200b}1").is_err());
}
