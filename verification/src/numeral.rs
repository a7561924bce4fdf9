//! Numeric literals as text: checked parsing of decimal and hexadecimal
//! literals into `u32`, and rendering of `u32` values as decimal,
//! hexadecimal and binary strings.
//!
//! Every conversion is specified against a recursive mathematical definition
//! of positional notation, so a parsed or rendered string means exactly the
//! number it came from.

use vstd::prelude::*;

verus! {

// ---------------------------------------------------------------------------
// Digits
// ---------------------------------------------------------------------------

/// An ASCII decimal digit `0`..`9`.
pub open spec fn is_dec_digit(c: char) -> bool {
    '0' as u32 <= c as u32 && c as u32 <= '9' as u32
}

/// An ASCII hexadecimal digit `0`..`9`, `a`..`f` or `A`..`F`.
pub open spec fn is_hex_digit(c: char) -> bool {
    ||| is_dec_digit(c)
    ||| 'a' as u32 <= c as u32 && c as u32 <= 'f' as u32
    ||| 'A' as u32 <= c as u32 && c as u32 <= 'F' as u32
}

/// The numeric value of a decimal digit (0 for anything else).
pub open spec fn dec_digit_val(c: char) -> nat {
    if is_dec_digit(c) {
        (c as u32 - '0' as u32) as nat
    } else {
        0
    }
}

/// The numeric value of a hexadecimal digit (0 for anything else).
pub open spec fn hex_digit_val(c: char) -> nat {
    if is_dec_digit(c) {
        (c as u32 - '0' as u32) as nat
    } else if 'a' as u32 <= c as u32 && c as u32 <= 'f' as u32 {
        (c as u32 - 'a' as u32 + 10) as nat
    } else if 'A' as u32 <= c as u32 && c as u32 <= 'F' as u32 {
        (c as u32 - 'A' as u32 + 10) as nat
    } else {
        0
    }
}

// ---------------------------------------------------------------------------
// The value of a digit string
// ---------------------------------------------------------------------------

/// The number written by a string of decimal digits, most significant first.
pub open spec fn dec_val(s: Seq<char>) -> nat
    decreases s.len(),
{
    if s.len() == 0 {
        0
    } else {
        dec_val(s.drop_last()) * 10 + dec_digit_val(s.last())
    }
}

/// The number written by a string of hexadecimal digits, most significant first.
pub open spec fn hex_val(s: Seq<char>) -> nat
    decreases s.len(),
{
    if s.len() == 0 {
        0
    } else {
        hex_val(s.drop_last()) * 16 + hex_digit_val(s.last())
    }
}

/// A non-empty string of decimal digits.
pub open spec fn is_dec_string(s: Seq<char>) -> bool {
    s.len() > 0 && (forall|k: int| 0 <= k < s.len() ==> is_dec_digit(s[k]))
}

/// A non-empty string of hexadecimal digits.
pub open spec fn is_hex_string(s: Seq<char>) -> bool {
    s.len() > 0 && (forall|k: int| 0 <= k < s.len() ==> is_hex_digit(s[k]))
}

/// What parsing a decimal literal yields: the written value, if the string is
/// a non-empty run of decimal digits whose value fits in 32 bits.
pub open spec fn spec_parse_dec(s: Seq<char>) -> Option<u32> {
    if is_dec_string(s) && dec_val(s) <= u32::MAX {
        Some(dec_val(s) as u32)
    } else {
        None
    }
}

/// What parsing a string of hexadecimal digits (without the `0x` prefix)
/// yields: the written value, if it is a non-empty run of hexadecimal digits
/// whose value fits in 32 bits.
pub open spec fn spec_parse_hex(s: Seq<char>) -> Option<u32> {
    if is_hex_string(s) && hex_val(s) <= u32::MAX {
        Some(hex_val(s) as u32)
    } else {
        None
    }
}

// ---------------------------------------------------------------------------
// Checked parsing
// ---------------------------------------------------------------------------

/// Parses a decimal literal into a `u32`; `None` on any non-digit character,
/// on the empty string, and on values above `u32::MAX`.
pub fn parse_dec_u32(s: &str) -> (r: Option<u32>)
    ensures
        r == spec_parse_dec(s@),
{
    let n = s.unicode_len();
    if n == 0 {
        return None;
    }
    let mut i: usize = 0;
    let mut acc: u64 = 0;
    while i < n
        invariant
            n == s@.len(),
            0 < n,
            0 <= i <= n,
            forall|k: int| 0 <= k < i ==> is_dec_digit(s@[k]),
            dec_val(s@.subrange(0, i as int)) <= u32::MAX ==> acc == dec_val(
                s@.subrange(0, i as int),
            ),
            dec_val(s@.subrange(0, i as int)) > u32::MAX ==> acc == 0x1_0000_0000u64,
            acc <= 0x1_0000_0000u64,
        decreases n - i,
    {
        let c = s.get_char(i);
        let u: u32 = c as u32;
        if u < 48 || u > 57 {
            return None;
        }
        let d: u64 = (u - 48) as u64;
        proof {
            assert(s@.subrange(0, i as int + 1) =~= s@.subrange(0, i as int).push(s@[i as int]));
            assert(s@.subrange(0, i as int).push(s@[i as int]).drop_last() =~= s@.subrange(
                0,
                i as int,
            ));
        }
        let next: u64 = acc * 10 + d;
        if next > 0xffff_ffffu64 {
            acc = 0x1_0000_0000u64;
        } else {
            acc = next;
        }
        i = i + 1;
    }
    proof {
        assert(s@.subrange(0, n as int) =~= s@);
    }
    if acc <= 0xffff_ffffu64 {
        Some(acc as u32)
    } else {
        None
    }
}

/// Parses a run of hexadecimal digits (no `0x` prefix) into a `u32`; `None`
/// on any non-digit character, on the empty string, and on values above
/// `u32::MAX`.
pub fn parse_hex_u32(s: &str) -> (r: Option<u32>)
    ensures
        r == spec_parse_hex(s@),
{
    let n = s.unicode_len();
    if n == 0 {
        return None;
    }
    let mut i: usize = 0;
    let mut acc: u64 = 0;
    while i < n
        invariant
            n == s@.len(),
            0 < n,
            0 <= i <= n,
            forall|k: int| 0 <= k < i ==> is_hex_digit(s@[k]),
            hex_val(s@.subrange(0, i as int)) <= u32::MAX ==> acc == hex_val(
                s@.subrange(0, i as int),
            ),
            hex_val(s@.subrange(0, i as int)) > u32::MAX ==> acc == 0x1_0000_0000u64,
            acc <= 0x1_0000_0000u64,
        decreases n - i,
    {
        let c = s.get_char(i);
        let u: u32 = c as u32;
        let d: u64 = if u >= 48 && u <= 57 {
            (u - 48) as u64
        } else if u >= 97 && u <= 102 {
            (u - 87) as u64
        } else if u >= 65 && u <= 70 {
            (u - 55) as u64
        } else {
            return None;
        };
        proof {
            assert(s@.subrange(0, i as int + 1) =~= s@.subrange(0, i as int).push(s@[i as int]));
            assert(s@.subrange(0, i as int).push(s@[i as int]).drop_last() =~= s@.subrange(
                0,
                i as int,
            ));
        }
        let next: u64 = acc * 16 + d;
        if next > 0xffff_ffffu64 {
            acc = 0x1_0000_0000u64;
        } else {
            acc = next;
        }
        i = i + 1;
    }
    proof {
        assert(s@.subrange(0, n as int) =~= s@);
    }
    if acc <= 0xffff_ffffu64 {
        Some(acc as u32)
    } else {
        None
    }
}

// ---------------------------------------------------------------------------
// Rendering
// ---------------------------------------------------------------------------

/// The decimal digit character for a value below 10.
pub open spec fn dec_digit_char(d: nat) -> char {
    if d == 0 {
        '0'
    } else if d == 1 {
        '1'
    } else if d == 2 {
        '2'
    } else if d == 3 {
        '3'
    } else if d == 4 {
        '4'
    } else if d == 5 {
        '5'
    } else if d == 6 {
        '6'
    } else if d == 7 {
        '7'
    } else if d == 8 {
        '8'
    } else {
        '9'
    }
}

/// The lowercase hexadecimal digit character for a value below 16.
pub open spec fn hex_digit_char(d: nat) -> char {
    if d < 10 {
        dec_digit_char(d)
    } else if d == 10 {
        'a'
    } else if d == 11 {
        'b'
    } else if d == 12 {
        'c'
    } else if d == 13 {
        'd'
    } else if d == 14 {
        'e'
    } else {
        'f'
    }
}

/// The shortest decimal rendering of a number (so `0` is "0").
pub open spec fn dec_chars(n: nat) -> Seq<char>
    decreases n,
{
    if n < 10 {
        seq![dec_digit_char(n)]
    } else {
        dec_chars(n / 10) + seq![dec_digit_char(n % 10)]
    }
}

/// The shortest lowercase hexadecimal rendering of a number, no prefix.
pub open spec fn hex_chars(n: nat) -> Seq<char>
    decreases n,
{
    if n < 16 {
        seq![hex_digit_char(n)]
    } else {
        hex_chars(n / 16) + seq![hex_digit_char(n % 16)]
    }
}

/// The shortest binary rendering of a number, no prefix.
pub open spec fn bin_chars(n: nat) -> Seq<char>
    decreases n,
{
    if n < 2 {
        seq![dec_digit_char(n)]
    } else {
        bin_chars(n / 2) + seq![dec_digit_char(n % 2)]
    }
}

fn dec_digit_str(d: u32) -> (s: &'static str)
    requires
        d < 10,
    ensures
        s@ == seq![dec_digit_char(d as nat)],
{
    proof {
        reveal_strlit("0");
        reveal_strlit("1");
        reveal_strlit("2");
        reveal_strlit("3");
        reveal_strlit("4");
        reveal_strlit("5");
        reveal_strlit("6");
        reveal_strlit("7");
        reveal_strlit("8");
        reveal_strlit("9");
    }
    let s: &'static str = if d == 0 {
        "0"
    } else if d == 1 {
        "1"
    } else if d == 2 {
        "2"
    } else if d == 3 {
        "3"
    } else if d == 4 {
        "4"
    } else if d == 5 {
        "5"
    } else if d == 6 {
        "6"
    } else if d == 7 {
        "7"
    } else if d == 8 {
        "8"
    } else {
        "9"
    };
    proof {
        assert(s@ =~= seq![dec_digit_char(d as nat)]);
    }
    s
}

fn hex_digit_str(d: u32) -> (s: &'static str)
    requires
        d < 16,
    ensures
        s@ == seq![hex_digit_char(d as nat)],
{
    if d < 10 {
        dec_digit_str(d)
    } else {
        proof {
            reveal_strlit("a");
            reveal_strlit("b");
            reveal_strlit("c");
            reveal_strlit("d");
            reveal_strlit("e");
            reveal_strlit("f");
        }
        let s: &'static str = if d == 10 {
            "a"
        } else if d == 11 {
            "b"
        } else if d == 12 {
            "c"
        } else if d == 13 {
            "d"
        } else if d == 14 {
            "e"
        } else {
            "f"
        };
        proof {
            assert(s@ =~= seq![hex_digit_char(d as nat)]);
        }
        s
    }
}

/// Renders a `u32` in decimal, as the evaluator's trace and the final result
/// line print it.
pub fn u32_to_dec(n: u32) -> (s: String)
    ensures
        s@ == dec_chars(n as nat),
    decreases n,
{
    if n < 10 {
        dec_digit_str(n).to_owned()
    } else {
        let mut s = u32_to_dec(n / 10);
        s.append(dec_digit_str(n % 10));
        s
    }
}

fn u32_to_hex_digits(n: u32) -> (s: String)
    ensures
        s@ == hex_chars(n as nat),
    decreases n,
{
    if n < 16 {
        hex_digit_str(n).to_owned()
    } else {
        let mut s = u32_to_hex_digits(n / 16);
        s.append(hex_digit_str(n % 16));
        s
    }
}

fn u32_to_bin_digits(n: u32) -> (s: String)
    ensures
        s@ == bin_chars(n as nat),
    decreases n,
{
    if n < 2 {
        dec_digit_str(n).to_owned()
    } else {
        let mut s = u32_to_bin_digits(n / 2);
        s.append(dec_digit_str(n % 2));
        s
    }
}

/// Renders a `u32` as a `0x`-prefixed lowercase hexadecimal literal.
pub fn u32_to_hex(n: u32) -> (s: String)
    ensures
        s@ == "0x"@ + hex_chars(n as nat),
{
    let mut s = String::from_str("0x");
    let digits = u32_to_hex_digits(n);
    s.append(digits.as_str());
    s
}

/// Renders a `u32` as a `0b`-prefixed binary literal.
pub fn u32_to_bin(n: u32) -> (s: String)
    ensures
        s@ == "0b"@ + bin_chars(n as nat),
{
    let mut s = String::from_str("0b");
    let digits = u32_to_bin_digits(n);
    s.append(digits.as_str());
    s
}

} // verus!
