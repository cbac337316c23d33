//! Decoding text written as numbers: groups of alphabet positions joined by
//! `-` (`a` is 0, `z` is 25), the groups separated by whitespace.
use vstd::prelude::*;
use vstd::std_specs::iter::IteratorSpec;
use vstd::utf8::*;
use std::collections::HashMap;
use crate::alphabet::{alphabet, translate_byte};
use crate::table::{make_positions, map_translate, position_table, string_from_utf8};

verus! {

broadcast use vstd::string::group_string_axioms;

/// The characters that separate groups: those with the Unicode White_Space
/// property, which are the ones `char::is_whitespace` accepts.
pub open spec fn is_whitespace_char(c: char) -> bool {
    let v = c as u32;
    ||| 9 <= v <= 13
    ||| v == 0x20
    ||| v == 0x85
    ||| v == 0xA0
    ||| v == 0x1680
    ||| 0x2000 <= v <= 0x200A
    ||| v == 0x2028
    ||| v == 0x2029
    ||| v == 0x202F
    ||| v == 0x205F
    ||| v == 0x3000
}

/// The character `-`, which separates the numbers of a group.
pub open spec fn is_dash(c: char) -> bool {
    c as u32 == 45
}

/// The pieces of `s` between whitespace characters, empty ones included.
pub open spec fn fields(s: Seq<char>) -> Seq<Seq<char>>
    decreases s.len(),
{
    if s.len() == 0 {
        seq![seq![]]
    } else {
        let r = fields(s.drop_last());
        if is_whitespace_char(s.last()) {
            r.push(seq![])
        } else {
            r.update(r.len() - 1, r.last().push(s.last()))
        }
    }
}

/// The pieces of `s` between `-` characters, empty ones included.
pub open spec fn pieces(s: Seq<char>) -> Seq<Seq<char>>
    decreases s.len(),
{
    if s.len() == 0 {
        seq![seq![]]
    } else {
        let r = pieces(s.drop_last());
        if is_dash(s.last()) {
            r.push(seq![])
        } else {
            r.update(r.len() - 1, r.last().push(s.last()))
        }
    }
}

/// The pieces of `ps` that are not empty, in order.
pub open spec fn non_empty(ps: Seq<Seq<char>>) -> Seq<Seq<char>>
    decreases ps.len(),
{
    if ps.len() == 0 {
        ps
    } else if ps.last().len() > 0 {
        non_empty(ps.drop_last()).push(ps.last())
    } else {
        non_empty(ps.drop_last())
    }
}

/// The whitespace-separated groups of `s`.
pub open spec fn groups(s: Seq<char>) -> Seq<Seq<char>> {
    non_empty(fields(s))
}

/// True when every character of `d` is a decimal digit.
pub open spec fn all_digits(d: Seq<char>) -> bool {
    forall|i: int| 0 <= i < d.len() ==> 48 <= #[trigger] (d[i] as u32) <= 57
}

/// The value of a string of decimal digits.
pub open spec fn digits_value(d: Seq<char>) -> int
    decreases d.len(),
{
    if d.len() == 0 {
        0
    } else {
        digits_value(d.drop_last()) * 10 + (d.last() as u32 - 48)
    }
}

/// An unsigned byte written in decimal, as `u8::from_str` reads it: an
/// optional `+`, then at least one digit, for a value of at most 255.
pub open spec fn parse_u8_spec(d: Seq<char>) -> Option<u8> {
    let ds = if d.len() > 0 && d[0] as u32 == 43 {
        d.drop_first()
    } else {
        d
    };
    if ds.len() > 0 && all_digits(ds) && digits_value(ds) <= 255 {
        Some(digits_value(ds) as u8)
    } else {
        None
    }
}

/// The byte that a number stands for: the letter at that position of the
/// alphabet for 0 to 25, otherwise the number itself.
pub open spec fn number_byte(n: u8) -> u8 {
    translate_byte(position_table(), n)
}

/// True when every piece reads as a number.
pub open spec fn all_parse(ps: Seq<Seq<char>>) -> bool {
    forall|i: int| 0 <= i < ps.len() ==> (#[trigger] parse_u8_spec(ps[i])) is Some
}

/// The numbers that the pieces read as, given that each reads as one.
pub open spec fn numbers_of(ps: Seq<Seq<char>>) -> Seq<u8> {
    Seq::new(ps.len(), |i: int| parse_u8_spec(ps[i])->Some_0)
}

/// The bytes that the pieces stand for, given that each reads as a number.
pub open spec fn number_bytes(ps: Seq<Seq<char>>) -> Seq<u8> {
    Seq::new(ps.len(), |i: int| number_byte(numbers_of(ps)[i]))
}

/// The marker that stands in the output for a group that cannot be decoded.
pub open spec fn marker() -> Seq<u8> {
    seq![69, 82, 82, 79, 82]
}

/// The bytes that a group decodes to: the bytes its numbers stand for, or
/// the marker where a number does not read or the bytes are not UTF-8.
pub open spec fn group_out(g: Seq<char>) -> Seq<u8> {
    let ps = pieces(g);
    if all_parse(ps) && valid_utf8(number_bytes(ps)) {
        number_bytes(ps)
    } else {
        marker()
    }
}

/// The decoded groups, one space between each two.
pub open spec fn join_groups(gs: Seq<Seq<char>>) -> Seq<u8>
    decreases gs.len(),
{
    if gs.len() == 0 {
        seq![]
    } else if gs.len() == 1 {
        group_out(gs[0])
    } else {
        join_groups(gs.drop_last()) + seq![32u8] + group_out(gs.last())
    }
}

/// The decoded bytes of a whole text.
pub open spec fn decoded(s: Seq<char>) -> Seq<u8> {
    join_groups(groups(s))
}

/// True when `m` occurs in `s` at some position.
pub open spec fn contains(s: Seq<u8>, m: Seq<u8>) -> bool {
    exists|i: int| 0 <= i && i + m.len() <= s.len() && #[trigger] s.subrange(i, i + m.len()) == m
}

proof fn lemma_fields_len(s: Seq<char>)
    ensures
        fields(s).len() >= 1,
    decreases s.len(),
{
    if s.len() > 0 {
        lemma_fields_len(s.drop_last());
    }
}

proof fn lemma_pieces_len(s: Seq<char>)
    ensures
        pieces(s).len() >= 1,
    decreases s.len(),
{
    if s.len() > 0 {
        lemma_pieces_len(s.drop_last());
    }
}

proof fn lemma_digits_value_nonneg(d: Seq<char>)
    requires
        all_digits(d),
    ensures
        digits_value(d) >= 0,
    decreases d.len(),
{
    if d.len() > 0 {
        lemma_digits_value_nonneg(d.drop_last());
    }
}

proof fn lemma_marker_valid()
    ensures
        valid_utf8(marker()),
        valid_utf8(seq![32u8]),
{
    reveal_with_fuel(valid_utf8, 6);
    assert(pop_first_scalar(marker()) =~= seq![82u8, 82, 79, 82]);
    assert(pop_first_scalar(seq![82u8, 82, 79, 82]) =~= seq![82u8, 79, 82]);
    assert(pop_first_scalar(seq![82u8, 79, 82]) =~= seq![79u8, 82]);
    assert(pop_first_scalar(seq![79u8, 82]) =~= seq![82u8]);
    assert(pop_first_scalar(seq![82u8]) =~= Seq::<u8>::empty());
    assert(pop_first_scalar(seq![32u8]) =~= Seq::<u8>::empty());
}

proof fn lemma_join_valid(gs: Seq<Seq<char>>)
    ensures
        valid_utf8(join_groups(gs)),
    decreases gs.len(),
{
    lemma_marker_valid();
    if gs.len() > 1 {
        lemma_join_valid(gs.drop_last());
        valid_utf8_concat(join_groups(gs.drop_last()), seq![32u8]);
        valid_utf8_concat(join_groups(gs.drop_last()) + seq![32u8], group_out(gs.last()));
    }
}

/// Reads a number written in decimal, as `u8::from_str` does.
pub fn parse_number(d: &Vec<char>) -> (r: Option<u8>)
    ensures
        r == parse_u8_spec(d@),
{
    let mut start: usize = 0;
    if d.len() > 0 && d[0] as u32 == 43 {
        start = 1;
    }
    let ghost ds = d@.subrange(start as int, d@.len() as int);
    proof {
        if start == 1 {
            assert(ds =~= d@.drop_first());
        } else {
            assert(ds =~= d@);
        }
    }
    if start >= d.len() {
        return None;
    }
    let mut value: u32 = 0;
    let mut i: usize = start;
    while i < d.len()
        invariant
            start <= i <= d@.len(),
            ds == d@.subrange(start as int, d@.len() as int),
            ds == (if d@.len() > 0 && d@[0] as u32 == 43 {
                d@.drop_first()
            } else {
                d@
            }),
            all_digits(d@.subrange(start as int, i as int)),
            value <= 256,
            value == if digits_value(d@.subrange(start as int, i as int)) <= 255 {
                digits_value(d@.subrange(start as int, i as int))
            } else {
                256
            },
        decreases d@.len() - i,
    {
        let b: u32 = d[i] as u32;
        let ghost pre = d@.subrange(start as int, i as int);
        let ghost next = d@.subrange(start as int, i + 1);
        assert(next.drop_last() =~= pre);
        if b < 48 || b > 57 {
            assert(!all_digits(ds)) by {
                assert(ds[i - start] as u32 == b);
            }
            return None;
        }
        proof {
            lemma_digits_value_nonneg(pre);
        }
        let v: u32 = value * 10 + (b - 48);
        value = if v > 255 {
            256
        } else {
            v
        };
        i = i + 1;
        assert(all_digits(next));
    }
    assert(d@.subrange(start as int, i as int) =~= ds);
    if value > 255 {
        None
    } else {
        Some(value as u8)
    }
}

/// True for the characters that separate groups, as `char::is_whitespace`
/// decides.
pub fn is_whitespace(c: char) -> (r: bool)
    ensures
        r == is_whitespace_char(c),
{
    let v: u32 = c as u32;
    (9 <= v && v <= 13) || v == 0x20 || v == 0x85 || v == 0xA0 || v == 0x1680 || (0x2000 <= v
        && v <= 0x200A) || v == 0x2028 || v == 0x2029 || v == 0x202F || v == 0x205F || v == 0x3000
}

fn marker_bytes() -> (r: Vec<u8>)
    ensures
        r@ == marker(),
{
    let r: Vec<u8> = vec![69, 82, 82, 79, 82];
    assert(r@ =~= marker());
    r
}

/// Decodes one group: the bytes its numbers stand for, or the marker where
/// a number does not read or the bytes are not valid UTF-8.
pub fn decode_group(g: &Vec<char>, positions: &HashMap<u8, u8>) -> (r: Vec<u8>)
    requires
        positions@ == position_table(),
    ensures
        r@ == group_out(g@),
{
    let mut numbers: Vec<u8> = Vec::new();
    let mut numeral: Vec<char> = Vec::new();
    let mut ok: bool = true;
    let mut j: usize = 0;
    assert(g@.subrange(0, 0) =~= Seq::<char>::empty());
    while j < g.len()
        invariant
            j <= g@.len(),
            pieces(g@.subrange(0, j as int)).len() >= 1,
            numeral@ == pieces(g@.subrange(0, j as int)).last(),
            ok == all_parse(pieces(g@.subrange(0, j as int)).drop_last()),
            ok ==> numbers@ =~= numbers_of(pieces(g@.subrange(0, j as int)).drop_last()),
        decreases g@.len() - j,
    {
        let b: char = g[j];
        let ghost pre = pieces(g@.subrange(0, j as int));
        assert(g@.subrange(0, j + 1).drop_last() =~= g@.subrange(0, j as int));
        if b as u32 == 45 {
            let parsed = parse_number(&numeral);
            match parsed {
                Some(n) => {
                    if ok {
                        numbers.push(n);
                    }
                },
                None => {
                    ok = false;
                },
            }
            numeral = Vec::new();
            proof {
                let post = pieces(g@.subrange(0, j + 1));
                assert(post == pre.push(seq![]));
                assert(post.drop_last() =~= pre);
                assert(pre =~= pre.drop_last().push(pre.last()));
            }
        } else {
            numeral.push(b);
            proof {
                let post = pieces(g@.subrange(0, j + 1));
                assert(post.drop_last() =~= pre.drop_last());
            }
        }
        j = j + 1;
    }
    assert(g@.subrange(0, g@.len() as int) =~= g@);
    let ghost ps = pieces(g@);
    proof {
        lemma_pieces_len(g@);
        assert(ps =~= ps.drop_last().push(ps.last()));
    }
    match parse_number(&numeral) {
        Some(n) => {
            if ok {
                numbers.push(n);
            }
        },
        None => {
            ok = false;
        },
    }
    assert(ok == all_parse(ps));
    if !ok {
        return marker_bytes();
    }
    assert(numbers@ =~= numbers_of(ps));
    assert(numbers@.map_values(|b: u8| translate_byte(position_table(), b)) =~= number_bytes(ps));
    match map_translate(numbers.as_slice(), positions) {
        Ok(s) => {
            let bytes = s.as_str().as_bytes();
            proof {
                decode_utf8_encode_utf8(number_bytes(ps));
            }
            let mut r: Vec<u8> = Vec::new();
            let mut k: usize = 0;
            while k < bytes.len()
                invariant
                    k <= bytes@.len(),
                    r@ =~= bytes@.subrange(0, k as int),
                decreases bytes@.len() - k,
            {
                r.push(bytes[k]);
                k = k + 1;
            }
            r
        },
        Err(_) => marker_bytes(),
    }
}

fn append_group(out: &mut Vec<u8>, g: &Vec<char>, positions: &HashMap<u8, u8>, first: bool)
    requires
        positions@ == position_table(),
    ensures
        final(out)@ == old(out)@ + (if first {
            seq![]
        } else {
            seq![32u8]
        }) + group_out(g@),
{
    let d = decode_group(g, positions);
    if !first {
        out.push(32);
    }
    let ghost mid = out@;
    let mut k: usize = 0;
    while k < d.len()
        invariant
            k <= d@.len(),
            out@ =~= mid + d@.subrange(0, k as int),
        decreases d@.len() - k,
    {
        out.push(d[k]);
        k = k + 1;
    }
    assert(d@.subrange(0, d@.len() as int) =~= d@);
}

/// True when the marker occurs in `s`.
pub fn contains_marker(s: &Vec<u8>) -> (r: bool)
    ensures
        r == contains(s@, marker()),
{
    if s.len() < 5 {
        return false;
    }
    let m = marker_bytes();
    let mut i: usize = 0;
    while i <= s.len() - 5
        invariant
            m@ == marker(),
            s@.len() >= 5,
            i + 5 <= s@.len() + 1,
            forall|j: int| 0 <= j < i ==> #[trigger] s@.subrange(j, j + 5) != marker(),
        decreases s@.len() - i,
    {
        if s[i] == m[0] && s[i + 1] == m[1] && s[i + 2] == m[2] && s[i + 3] == m[3] && s[i + 4]
            == m[4] {
            assert(s@.subrange(i as int, i + 5) =~= marker());
            return true;
        }
        assert(s@.subrange(i as int, i + 5)[0] == s@[i as int]);
        assert(s@.subrange(i as int, i + 5)[4] == s@[i + 4]);
        assert(s@.subrange(i as int, i + 5) != marker()) by {
            if s@.subrange(i as int, i + 5) == marker() {
                assert(s@.subrange(i as int, i + 5)[1] == s@[i + 1]);
                assert(s@.subrange(i as int, i + 5)[2] == s@[i + 2]);
                assert(s@.subrange(i as int, i + 5)[3] == s@[i + 3]);
            }
        }
        i = i + 1;
    }
    false
}

/// Decodes text written as numbers: each whitespace-separated group is a
/// `-`-separated list of alphabet positions (`7-4-11-11-14` is `hello`),
/// and the decoded groups are joined by single spaces. A group with a
/// number that does not read, or whose bytes are not valid UTF-8, decodes
/// to the marker `ERROR`; the whole decoding fails when the joined result
/// holds the marker anywhere, which a group that decodes to those letters
/// also brings about.
pub fn numeric_decrypt(text: &str) -> (r: Result<String, String>)
    ensures
        r is Err <==> contains(decoded(text@), marker()),
        r is Ok ==> r->Ok_0@ == decode_utf8(decoded(text@)),
        r is Err ==> r->Err_0@ == "Something has gone wrong"@,
{
    let alphabet = alphabet();
    let positions = make_positions(&alphabet);
    let ghost s = text@;
    let ghost n = s.len() as int;
    let mut chars = text.chars();
    let mut out: Vec<u8> = Vec::new();
    let mut group: Vec<char> = Vec::new();
    let mut emitted: bool = false;
    let ghost mut i: int = 0;
    assert(s.subrange(0, 0) =~= Seq::<char>::empty());
    assert(s.subrange(0, n) =~= s);
    loop
        invariant
            0 <= i <= n,
            n == s.len(),
            chars.obeys_prophetic_iter_laws(),
            chars.remaining() == s.subrange(i, n),
            fields(s.subrange(0, i)).len() >= 1,
            group@ == fields(s.subrange(0, i)).last(),
            positions@ == position_table(),
            out@ == join_groups(non_empty(fields(s.subrange(0, i)).drop_last())),
            emitted == (non_empty(fields(s.subrange(0, i)).drop_last()).len() > 0),
        ensures
            i == n,
            fields(s.subrange(0, i)).len() >= 1,
            group@ == fields(s.subrange(0, i)).last(),
            out@ == join_groups(non_empty(fields(s.subrange(0, i)).drop_last())),
            emitted == (non_empty(fields(s.subrange(0, i)).drop_last()).len() > 0),
        decreases n - i,
    {
        let c: char = match chars.next() {
            Some(c) => c,
            None => {
                assert(s.subrange(i, n).len() == 0);
                break;
            },
        };
        assert(s.subrange(i, n)[0] == s[i]);
        let ghost pre = fields(s.subrange(0, i));
        let ghost done = non_empty(pre.drop_last());
        assert(s.subrange(0, i + 1).drop_last() =~= s.subrange(0, i));
        assert(s.subrange(i, n).drop_first() =~= s.subrange(i + 1, n));
        if is_whitespace(c) {
            if group.len() > 0 {
                append_group(&mut out, &group, &positions, !emitted);
                emitted = true;
                proof {
                    assert(pre =~= pre.drop_last().push(pre.last()));
                    assert(done.push(group@).drop_last() =~= done);
                }
            } else {
                assert(pre =~= pre.drop_last().push(pre.last()));
            }
            group = Vec::new();
            proof {
                let post = fields(s.subrange(0, i + 1));
                assert(post.drop_last() =~= pre);
            }
        } else {
            group.push(c);
            proof {
                let post = fields(s.subrange(0, i + 1));
                assert(post.drop_last() =~= pre.drop_last());
            }
        }
        proof {
            i = i + 1;
        }
    }
    assert(s.subrange(0, n) =~= s);
    let ghost all = fields(s);
    let ghost done = non_empty(all.drop_last());
    proof {
        assert(all =~= all.drop_last().push(all.last()));
    }
    if group.len() > 0 {
        append_group(&mut out, &group, &positions, !emitted);
        assert(done.push(group@).drop_last() =~= done);
    }
    assert(out@ == decoded(s));
    if contains_marker(&out) {
        return Err("Something has gone wrong".to_owned());
    }
    proof {
        lemma_join_valid(groups(s));
    }
    match string_from_utf8(out) {
        Ok(t) => Ok(t),
        Err(_) => Err("Something has gone wrong".to_owned()),
    }
}

} // verus!
