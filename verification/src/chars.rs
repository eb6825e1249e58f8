//! Digit characters: classification, numeric values, and rendering.

use vstd::prelude::*;

verus! {

/// `c` is an ASCII hexadecimal digit, either case.
pub open spec fn is_hex_digit(c: char) -> bool {
    (48 <= c as u32 && c as u32 <= 57)  // '0'..='9'
    || (97 <= c as u32 && c as u32 <= 102)  // 'a'..='f'
    || (65 <= c as u32 && c as u32 <= 70)  // 'A'..='F'
}

/// `c` is an ASCII decimal digit.
pub open spec fn is_dec_digit(c: char) -> bool {
    48 <= c as u32 && c as u32 <= 57
}

/// Numeric value of a hexadecimal digit character.
pub open spec fn hex_digit_val(c: char) -> nat {
    if 48 <= c as u32 && c as u32 <= 57 {
        (c as u32 - 48) as nat
    } else if 97 <= c as u32 && c as u32 <= 102 {
        (c as u32 - 87) as nat
    } else if 65 <= c as u32 && c as u32 <= 70 {
        (c as u32 - 55) as nat
    } else {
        0
    }
}

/// Numeric value of a decimal digit character.
pub open spec fn dec_digit_val(c: char) -> nat {
    if 48 <= c as u32 && c as u32 <= 57 {
        (c as u32 - 48) as nat
    } else {
        0
    }
}

/// The lowercase hexadecimal digit character for a value below 16.
pub open spec fn hex_digit_char(v: nat) -> char {
    if v < 10 {
        ((v + 48) as u8) as char
    } else if v < 16 {
        ((v + 87) as u8) as char
    } else {
        '0'
    }
}

/// Classify one character: `Some(v)` when it is a hex digit of value `v`.
pub fn hex_digit_of(c: char) -> (r: Option<u8>)
    ensures
        r matches Some(v) ==> is_hex_digit(c) && v as nat == hex_digit_val(c),
        r is None ==> !is_hex_digit(c),
{
    let u = c as u32;
    if 48 <= u && u <= 57 {
        Some((u - 48) as u8)
    } else if 97 <= u && u <= 102 {
        Some((u - 87) as u8)
    } else if 65 <= u && u <= 70 {
        Some((u - 55) as u8)
    } else {
        None
    }
}

/// Classify one character: `Some(v)` when it is a decimal digit of value `v`.
pub fn dec_digit_of(c: char) -> (r: Option<u8>)
    ensures
        r matches Some(v) ==> is_dec_digit(c) && v as nat == dec_digit_val(c),
        r is None ==> !is_dec_digit(c),
{
    let u = c as u32;
    if 48 <= u && u <= 57 {
        Some((u - 48) as u8)
    } else {
        None
    }
}

/// A one-character string holding the lowercase hex digit for `v`.
pub fn hex_digit_str(v: u8) -> (r: &'static str)
    requires
        v < 16,
    ensures
        r@ =~= seq![hex_digit_char(v as nat)],
{
    proof {
        reveal_strlit("0");
        reveal_strlit("1");
        reveal_strlit("2");
        reveal_strlit("3");
        reveal_strlit("4");
        reveal_strlit("5");
        reveal_strlit("6");
        reveal_strlit("7");
        reveal_strlit("8");
        reveal_strlit("9");
        reveal_strlit("a");
        reveal_strlit("b");
        reveal_strlit("c");
        reveal_strlit("d");
        reveal_strlit("e");
        reveal_strlit("f");
    }
    match v {
        0 => "0",
        1 => "1",
        2 => "2",
        3 => "3",
        4 => "4",
        5 => "5",
        6 => "6",
        7 => "7",
        8 => "8",
        9 => "9",
        10 => "a",
        11 => "b",
        12 => "c",
        13 => "d",
        14 => "e",
        _ => "f",
    }
}

} // verus!
