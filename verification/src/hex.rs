//! Hex rendering of palette slots.
//!
//! A finished scheme is written out as one line per slot: the key is `base`
//! followed by the slot index in two upper-case hex digits, the value the
//! slot's RGB bytes in six lower-case hex digits. Both directions of the
//! value rendering live here, and rendering then parsing returns the bytes
//! unchanged.

use vstd::arithmetic::div_mod::lemma_fundamental_div_mod;
use vstd::prelude::*;

verus! {

/// The lower-case hex digit of a value below 16.
pub open spec fn hex_digit(n: int) -> char {
    if n == 0 {
        '0'
    } else if n == 1 {
        '1'
    } else if n == 2 {
        '2'
    } else if n == 3 {
        '3'
    } else if n == 4 {
        '4'
    } else if n == 5 {
        '5'
    } else if n == 6 {
        '6'
    } else if n == 7 {
        '7'
    } else if n == 8 {
        '8'
    } else if n == 9 {
        '9'
    } else if n == 10 {
        'a'
    } else if n == 11 {
        'b'
    } else if n == 12 {
        'c'
    } else if n == 13 {
        'd'
    } else if n == 14 {
        'e'
    } else {
        'f'
    }
}

/// The upper-case hex digit of a value below 16.
pub open spec fn hex_digit_upper(n: int) -> char {
    if n < 10 {
        hex_digit(n)
    } else if n == 10 {
        'A'
    } else if n == 11 {
        'B'
    } else if n == 12 {
        'C'
    } else if n == 13 {
        'D'
    } else if n == 14 {
        'E'
    } else {
        'F'
    }
}

/// The value of a lower-case hex digit; 16 marks a character that is no
/// such digit.
pub open spec fn hex_value(c: char) -> int {
    if c == '0' {
        0
    } else if c == '1' {
        1
    } else if c == '2' {
        2
    } else if c == '3' {
        3
    } else if c == '4' {
        4
    } else if c == '5' {
        5
    } else if c == '6' {
        6
    } else if c == '7' {
        7
    } else if c == '8' {
        8
    } else if c == '9' {
        9
    } else if c == 'a' {
        10
    } else if c == 'b' {
        11
    } else if c == 'c' {
        12
    } else if c == 'd' {
        13
    } else if c == 'e' {
        14
    } else if c == 'f' {
        15
    } else {
        16
    }
}

/// A byte as two lower-case hex digits.
pub open spec fn byte_hex(b: u8) -> Seq<char> {
    seq![hex_digit(b as int / 16), hex_digit(b as int % 16)]
}

/// An RGB triple as its six-digit `rrggbb` rendering.
pub open spec fn rgb_hex(r: u8, g: u8, b: u8) -> Seq<char> {
    byte_hex(r) + byte_hex(g) + byte_hex(b)
}

/// The `baseXX` key of a palette slot, with the index in two upper-case hex
/// digits.
pub open spec fn slot_key_spec(idx: u8) -> Seq<char> {
    seq![
        'b',
        'a',
        's',
        'e',
        hex_digit_upper(idx as int / 16),
        hex_digit_upper(idx as int % 16),
    ]
}

/// Whether a character sequence is a six-digit lower-case hex rendering.
pub open spec fn is_hex_seq(s: Seq<char>) -> bool {
    s.len() == 6 && forall|i: int| 0 <= i < 6 ==> hex_value(#[trigger] s[i]) < 16
}

/// The RGB triple a six-digit rendering stands for.
pub open spec fn parsed_rgb(s: Seq<char>) -> (u8, u8, u8) {
    (
        (hex_value(s[0]) * 16 + hex_value(s[1])) as u8,
        (hex_value(s[2]) * 16 + hex_value(s[3])) as u8,
        (hex_value(s[4]) * 16 + hex_value(s[5])) as u8,
    )
}

/// One lower-case hex digit as a string slice.
fn hex_digit_str(n: u8) -> (s: &'static str)
    requires
        n < 16,
    ensures
        s@ =~= seq![hex_digit(n as int)],
{
    proof {
        reveal_strlit("0");
        reveal_strlit("1");
        reveal_strlit("2");
        reveal_strlit("3");
        reveal_strlit("4");
        reveal_strlit("5");
        reveal_strlit("6");
        reveal_strlit("7");
        reveal_strlit("8");
        reveal_strlit("9");
        reveal_strlit("a");
        reveal_strlit("b");
        reveal_strlit("c");
        reveal_strlit("d");
        reveal_strlit("e");
        reveal_strlit("f");
    }
    match n {
        0 => "0",
        1 => "1",
        2 => "2",
        3 => "3",
        4 => "4",
        5 => "5",
        6 => "6",
        7 => "7",
        8 => "8",
        9 => "9",
        10 => "a",
        11 => "b",
        12 => "c",
        13 => "d",
        14 => "e",
        _ => "f",
    }
}

/// One upper-case hex digit as a string slice.
fn hex_digit_upper_str(n: u8) -> (s: &'static str)
    requires
        n < 16,
    ensures
        s@ =~= seq![hex_digit_upper(n as int)],
{
    if n < 10 {
        hex_digit_str(n)
    } else {
        proof {
            reveal_strlit("A");
            reveal_strlit("B");
            reveal_strlit("C");
            reveal_strlit("D");
            reveal_strlit("E");
            reveal_strlit("F");
        }
        match n {
            10 => "A",
            11 => "B",
            12 => "C",
            13 => "D",
            14 => "E",
            _ => "F",
        }
    }
}

/// Render an RGB triple as its six lower-case hex digits.
pub fn rgb_to_hex(r: u8, g: u8, b: u8) -> (s: String)
    ensures
        s@ == rgb_hex(r, g, b),
{
    let mut s = String::new();
    s.append(hex_digit_str(r / 16));
    s.append(hex_digit_str(r % 16));
    s.append(hex_digit_str(g / 16));
    s.append(hex_digit_str(g % 16));
    s.append(hex_digit_str(b / 16));
    s.append(hex_digit_str(b % 16));
    proof {
        assert(s@ =~= rgb_hex(r, g, b));
    }
    s
}

/// Render a palette slot's key: `base` and the index in two upper-case hex
/// digits.
pub fn slot_key(idx: u8) -> (s: String)
    requires
        idx < 24,
    ensures
        s@ == slot_key_spec(idx),
{
    proof {
        reveal_strlit("base");
    }
    let mut s = String::from_str("base");
    s.append(hex_digit_upper_str(idx / 16));
    s.append(hex_digit_upper_str(idx % 16));
    proof {
        assert(s@ =~= slot_key_spec(idx));
    }
    s
}

/// The value of one character, 16 when it is no lower-case hex digit.
fn hex_value_char(c: char) -> (v: u8)
    ensures
        v as int == hex_value(c),
{
    match c {
        '0' => 0,
        '1' => 1,
        '2' => 2,
        '3' => 3,
        '4' => 4,
        '5' => 5,
        '6' => 6,
        '7' => 7,
        '8' => 8,
        '9' => 9,
        'a' => 10,
        'b' => 11,
        'c' => 12,
        'd' => 13,
        'e' => 14,
        'f' => 15,
        _ => 16,
    }
}

/// Parse a six-digit lower-case hex rendering back into its RGB triple.
/// Anything of another length, or holding another character, is rejected.
pub fn hex_to_rgb(s: &str) -> (r: Option<(u8, u8, u8)>)
    ensures
        (r is Some) <==> is_hex_seq(s@),
        r matches Some(t) ==> t == parsed_rgb(s@),
{
    let n = s.unicode_len();
    if n != 6 {
        return None;
    }
    let v0 = hex_value_char(s.get_char(0));
    let v1 = hex_value_char(s.get_char(1));
    let v2 = hex_value_char(s.get_char(2));
    let v3 = hex_value_char(s.get_char(3));
    let v4 = hex_value_char(s.get_char(4));
    let v5 = hex_value_char(s.get_char(5));
    if v0 < 16 && v1 < 16 && v2 < 16 && v3 < 16 && v4 < 16 && v5 < 16 {
        Some((v0 * 16 + v1, v2 * 16 + v3, v4 * 16 + v5))
    } else {
        None
    }
}

/// A hex digit stands for the value it was made from.
#[verifier::rlimit(50)]
proof fn lemma_digit_value(n: int)
    requires
        0 <= n < 16,
    ensures
        hex_value(hex_digit(n)) == n,
{
}

/// Law: rendering an RGB triple and parsing the rendering back returns the
/// same triple.
pub proof fn lemma_hex_round_trip(r: u8, g: u8, b: u8)
    ensures
        is_hex_seq(rgb_hex(r, g, b)),
        parsed_rgb(rgb_hex(r, g, b)) == (r, g, b),
{
    let s = rgb_hex(r, g, b);
    lemma_fundamental_div_mod(r as int, 16);
    lemma_fundamental_div_mod(g as int, 16);
    lemma_fundamental_div_mod(b as int, 16);
    assert(s[0] == hex_digit(r as int / 16) && s[1] == hex_digit(r as int % 16));
    assert(s[2] == hex_digit(g as int / 16) && s[3] == hex_digit(g as int % 16));
    assert(s[4] == hex_digit(b as int / 16) && s[5] == hex_digit(b as int % 16));
    lemma_digit_value(r as int / 16);
    lemma_digit_value(r as int % 16);
    lemma_digit_value(g as int / 16);
    lemma_digit_value(g as int % 16);
    lemma_digit_value(b as int / 16);
    lemma_digit_value(b as int % 16);
    assert forall|i: int| 0 <= i < 6 implies hex_value(#[trigger] s[i]) < 16 by {}
}

} // verus!
