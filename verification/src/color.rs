//! Color-literal conversion: parsing `rgba(..)`, `rgb(..)` and `0x..` hex
//! literals into their four 8-bit channels, and formatting channels back
//! into an `rgba(..)` literal.

use vstd::prelude::*;
use crate::config::HyprlandConfig;
use crate::text::{starts_with_s, str_starts_with, strip_char_end, strip_char_end_of};

verus! {

/// A hexadecimal digit, in either case.
pub open spec fn is_hex_digit(c: char) -> bool {
    (0x30 <= c as u32 && c as u32 <= 0x39) || (0x61 <= c as u32 && c as u32 <= 0x66) || (0x41
        <= c as u32 && c as u32 <= 0x46)
}

/// The value of a hexadecimal digit (0 for anything else).
pub open spec fn hex_val(c: char) -> int {
    if 0x30 <= c as u32 && c as u32 <= 0x39 {
        c as u32 - 0x30
    } else if 0x61 <= c as u32 && c as u32 <= 0x66 {
        c as u32 - 0x61 + 10
    } else if 0x41 <= c as u32 && c as u32 <= 0x46 {
        c as u32 - 0x41 + 10
    } else {
        0
    }
}

pub open spec fn all_hex(s: Seq<char>) -> bool {
    forall|i: int| 0 <= i < s.len() ==> is_hex_digit(#[trigger] s[i])
}

/// The value of a digit string, most significant digit first.
pub open spec fn hex_seq_val(s: Seq<char>) -> int
    decreases s.len(),
{
    if s.len() == 0 {
        0
    } else {
        hex_seq_val(s.drop_last()) * 16 + hex_val(s[s.len() - 1])
    }
}

/// The digits of a hex literal: `u32::from_str_radix` allows one leading
/// `+` sign.
pub open spec fn hex_digits_of(s: Seq<char>) -> Seq<char> {
    if s.len() > 0 && s[0] == '+' {
        s.skip(1)
    } else {
        s
    }
}

/// When `u32::from_str_radix(s, 16)` succeeds: at least one digit after the
/// optional sign, every character a hex digit, and the value in range.
pub open spec fn hex_parse_ok(s: Seq<char>) -> bool {
    hex_digits_of(s).len() > 0 && all_hex(hex_digits_of(s)) && hex_seq_val(hex_digits_of(s))
        <= u32::MAX
}

pub open spec fn hex_parse_val(s: Seq<char>) -> int {
    hex_seq_val(hex_digits_of(s))
}

/// A digit string's value never shrinks as digits are appended.
pub proof fn lemma_hex_val_bounds(s: Seq<char>)
    ensures
        hex_seq_val(s) >= 0,
        forall|m: int| 0 <= m <= s.len() ==> hex_seq_val(s.take(m)) <= hex_seq_val(s),
    decreases s.len(),
{
    if s.len() == 0 {
        assert forall|m: int| 0 <= m <= s.len() implies hex_seq_val(s.take(m)) <= hex_seq_val(
            s,
        ) by {
            assert(s.take(m) =~= s);
        }
    } else {
        lemma_hex_val_bounds(s.drop_last());
        assert(hex_val(s[s.len() - 1]) >= 0);
        assert forall|m: int| 0 <= m <= s.len() implies hex_seq_val(s.take(m)) <= hex_seq_val(
            s,
        ) by {
            if m == s.len() {
                assert(s.take(m) =~= s);
            } else {
                assert(s.take(m) =~= s.drop_last().take(m));
                assert(hex_seq_val(s.drop_last()) <= hex_seq_val(s.drop_last()) * 16 + hex_val(
                    s[s.len() - 1],
                ));
            }
        }
    }
}

/// `u32::from_str_radix(s, 16)` as a verified scan: `Some` exactly on the
/// strings the spec accepts, with the spec's value.
pub fn parse_hex_u32(s: &str) -> (r: Option<u32>)
    ensures
        hex_parse_ok(s@) ==> r == Some(hex_parse_val(s@) as u32),
        !hex_parse_ok(s@) ==> r is None,
{
    proof {
        lemma_hex_val_bounds(hex_digits_of(s@));
    }
    let n: usize = s.unicode_len();
    let mut start: usize = 0;
    if n > 0 && s.get_char(0) == '+' {
        start = 1;
    }
    let ghost digits = hex_digits_of(s@);
    proof {
        assert(digits =~= s@.skip(start as int));
    }
    if start >= n {
        assert(digits.len() == 0);
        return None;
    }
    let mut acc: u32 = 0;
    let mut i: usize = start;
    while i < n
        invariant
            start <= i <= n,
            n == s@.len(),
            digits == hex_digits_of(s@),
            digits == s@.skip(start as int),
            digits.len() == n - start,
            hex_seq_val(digits) >= 0,
            forall|m: int| 0 <= m <= digits.len() ==> hex_seq_val(#[trigger] digits.take(m))
                <= hex_seq_val(digits),
            all_hex(digits.take(i - start)),
            acc == hex_seq_val(digits.take(i - start)),
        decreases n - i,
    {
        let c: char = s.get_char(i);
        proof {
            assert(digits[i - start] == s@[i as int]);
        }
        let cu: u32 = c as u32;
        let d: u32 = if 0x30 <= cu && cu <= 0x39 {
            cu - 0x30
        } else if 0x61 <= cu && cu <= 0x66 {
            cu - 0x61 + 10
        } else if 0x41 <= cu && cu <= 0x46 {
            cu - 0x41 + 10
        } else {
            proof {
                assert(!is_hex_digit(digits[i - start]));
                assert(!all_hex(digits));
            }
            return None;
        };
        proof {
            assert(is_hex_digit(digits[i - start]));
            assert(d == hex_val(digits[i - start]));
        }
        if acc > 0x0fff_ffff {
            proof {
                assert(digits.take(i - start + 1) =~= digits.take(i - start).push(
                    digits[i - start],
                ));
                assert(digits.take(i - start + 1).drop_last() =~= digits.take(i - start));
                assert(hex_seq_val(digits.take(i - start + 1)) == acc * 16 + d);
                assert(hex_seq_val(digits) >= acc * 16 + d);
                assert(hex_seq_val(digits) > u32::MAX);
            }
            return None;
        }
        let next: u32 = acc * 16 + d;
        proof {
            assert(digits.take(i - start + 1) =~= digits.take(i - start).push(digits[i - start]));
            assert(digits.take(i - start + 1).drop_last() =~= digits.take(i - start));
            assert(next == hex_seq_val(digits.take(i - start + 1)));
            assert(all_hex(digits.take(i - start + 1)));
        }
        acc = next;
        i = i + 1;
    }
    proof {
        assert(digits.take(n - start) =~= digits);
        assert(hex_parse_ok(s@));
    }
    Some(acc)
}

/// All leading occurrences of the prefix `p` removed, as
/// `str::trim_start_matches` does.
pub open spec fn strip_prefix_all(s: Seq<char>, p: Seq<char>) -> Seq<char>
    decreases s.len(),
{
    if p.len() > 0 && starts_with_s(s, p) {
        strip_prefix_all(s.skip(p.len() as int), p)
    } else {
        s
    }
}

/// `str::trim_start_matches`, verified against `strip_prefix_all`.
pub fn strip_prefix_all_of<'a>(s: &'a str, p: &str) -> (r: &'a str)
    ensures
        r@ == strip_prefix_all(s@, p@),
{
    let pn: usize = p.unicode_len();
    let mut rest: &str = s;
    loop
        invariant
            pn == p@.len(),
            strip_prefix_all(rest@, p@) == strip_prefix_all(s@, p@),
        decreases rest@.len(),
    {
        if pn > 0 && str_starts_with(rest, p) {
            let next: &str = rest.substring_char(pn, rest.unicode_len());
            assert(next@ =~= rest@.skip(pn as int));
            rest = next;
        } else {
            return rest;
        }
    }
}

/// The channel values of a color literal, each in `0 ..= 255`:
/// - `rgba(` with 8 hex digits: red, green, blue, alpha;
/// - `rgb(` with 6 hex digits: red, green, blue, alpha fixed at 255;
/// - `0x` with 8 hex digits: alpha in the most significant byte.
/// Anything else, or an invalid hex payload, yields `None`.
pub open spec fn parse_color_s(s: Seq<char>) -> Option<(u8, u8, u8, u8)> {
    if starts_with_s(s, "rgba("@) {
        let body = strip_char_end(strip_prefix_all(s, "rgba("@), ')');
        if hex_parse_ok(body) {
            let v = hex_parse_val(body) as u32;
            Some(
                (
                    ((v >> 24) & 0xff) as u8,
                    ((v >> 16) & 0xff) as u8,
                    ((v >> 8) & 0xff) as u8,
                    (v & 0xff) as u8,
                ),
            )
        } else {
            None
        }
    } else if starts_with_s(s, "rgb("@) {
        let body = strip_char_end(strip_prefix_all(s, "rgb("@), ')');
        if hex_parse_ok(body) {
            let v = hex_parse_val(body) as u32;
            Some(
                (((v >> 16) & 0xff) as u8, ((v >> 8) & 0xff) as u8, (v & 0xff) as u8, 255u8),
            )
        } else {
            None
        }
    } else if starts_with_s(s, "0x"@) {
        let body = s.skip(2);
        if hex_parse_ok(body) {
            let v = hex_parse_val(body) as u32;
            Some(
                (
                    ((v >> 16) & 0xff) as u8,
                    ((v >> 8) & 0xff) as u8,
                    (v & 0xff) as u8,
                    ((v >> 24) & 0xff) as u8,
                ),
            )
        } else {
            None
        }
    } else {
        None
    }
}

/// The hexadecimal digit for a value below 16, lowercase.
pub open spec fn hex_char(v: int) -> char {
    if v == 0 {
        '0'
    } else if v == 1 {
        '1'
    } else if v == 2 {
        '2'
    } else if v == 3 {
        '3'
    } else if v == 4 {
        '4'
    } else if v == 5 {
        '5'
    } else if v == 6 {
        '6'
    } else if v == 7 {
        '7'
    } else if v == 8 {
        '8'
    } else if v == 9 {
        '9'
    } else if v == 10 {
        'a'
    } else if v == 11 {
        'b'
    } else if v == 12 {
        'c'
    } else if v == 13 {
        'd'
    } else if v == 14 {
        'e'
    } else {
        'f'
    }
}

/// A byte as two lowercase hexadecimal digits.
pub open spec fn byte_hex(b: int) -> Seq<char> {
    seq![hex_char(b / 16), hex_char(b % 16)]
}

/// What formatting a color yields: `rgba(` then the four channels as two
/// lowercase hex digits each, then `)`.
pub open spec fn format_color_s(r: u8, g: u8, b: u8, a: u8) -> Seq<char> {
    "rgba("@ + byte_hex(r as int) + byte_hex(g as int) + byte_hex(b as int) + byte_hex(a as int)
        + ")"@
}

/// The lowercase hexadecimal digit of a value below 16.
fn nibble_str(v: u8) -> (r: &'static str)
    requires
        v < 16,
    ensures
        r@ == seq![hex_char(v as int)],
{
    proof {
        reveal_strlit("0");
        reveal_strlit("1");
        reveal_strlit("2");
        reveal_strlit("3");
        reveal_strlit("4");
        reveal_strlit("5");
        reveal_strlit("6");
        reveal_strlit("7");
        reveal_strlit("8");
        reveal_strlit("9");
        reveal_strlit("a");
        reveal_strlit("b");
        reveal_strlit("c");
        reveal_strlit("d");
        reveal_strlit("e");
        reveal_strlit("f");
    }
    let r: &'static str = if v == 0 {
        "0"
    } else if v == 1 {
        "1"
    } else if v == 2 {
        "2"
    } else if v == 3 {
        "3"
    } else if v == 4 {
        "4"
    } else if v == 5 {
        "5"
    } else if v == 6 {
        "6"
    } else if v == 7 {
        "7"
    } else if v == 8 {
        "8"
    } else if v == 9 {
        "9"
    } else if v == 10 {
        "a"
    } else if v == 11 {
        "b"
    } else if v == 12 {
        "c"
    } else if v == 13 {
        "d"
    } else if v == 14 {
        "e"
    } else {
        "f"
    };
    proof {
        assert(r@ =~= seq![hex_char(v as int)]);
    }
    r
}

impl HyprlandConfig {
    /// Parses a color literal into its four channels, `(red, green, blue,
    /// alpha)`, each a byte. `rgba(RRGGBBAA)` and `rgb(RRGGBB)` carry their
    /// channels in order (`rgb` with alpha fixed at 255, full opacity);
    /// `0xAARRGGBB` carries alpha in the most significant byte. A literal
    /// with any other prefix, or whose payload is not plain hexadecimal
    /// digits, yields `None`.
    pub fn parse_color(&self, color_str: &str) -> (r: Option<(u8, u8, u8, u8)>)
        ensures
            r == parse_color_s(color_str@),
    {
        if str_starts_with(color_str, "rgba(") {
            let body: &str = strip_char_end_of(strip_prefix_all_of(color_str, "rgba("), ')');
            match parse_hex_u32(body) {
                Some(v) => Some(
                    (
                        ((v >> 24) & 0xff) as u8,
                        ((v >> 16) & 0xff) as u8,
                        ((v >> 8) & 0xff) as u8,
                        (v & 0xff) as u8,
                    ),
                ),
                None => None,
            }
        } else if str_starts_with(color_str, "rgb(") {
            let body: &str = strip_char_end_of(strip_prefix_all_of(color_str, "rgb("), ')');
            match parse_hex_u32(body) {
                Some(v) => Some(
                    (((v >> 16) & 0xff) as u8, ((v >> 8) & 0xff) as u8, (v & 0xff) as u8, 255u8),
                ),
                None => None,
            }
        } else if str_starts_with(color_str, "0x") {
            proof {
                reveal_strlit("0x");
            }
            let body: &str = color_str.substring_char(2, color_str.unicode_len());
            assert(body@ =~= color_str@.skip(2));
            match parse_hex_u32(body) {
                Some(v) => Some(
                    (
                        ((v >> 16) & 0xff) as u8,
                        ((v >> 8) & 0xff) as u8,
                        (v & 0xff) as u8,
                        ((v >> 24) & 0xff) as u8,
                    ),
                ),
                None => None,
            }
        } else {
            None
        }
    }

    /// Formats four channel bytes as `rgba(` followed by eight lowercase
    /// hexadecimal digits, `RRGGBBAA`, and a closing parenthesis.
    pub fn format_color(&self, red: u8, green: u8, blue: u8, alpha: u8) -> (s: String)
        ensures
            s@ == format_color_s(red, green, blue, alpha),
    {
        let mut out: String = "rgba(".to_owned();
        out.append(nibble_str(red / 16));
        out.append(nibble_str(red % 16));
        out.append(nibble_str(green / 16));
        out.append(nibble_str(green % 16));
        out.append(nibble_str(blue / 16));
        out.append(nibble_str(blue % 16));
        out.append(nibble_str(alpha / 16));
        out.append(nibble_str(alpha % 16));
        out.append(")");
        proof {
            assert(out@ =~= format_color_s(red, green, blue, alpha));
        }
        out
    }
}

} // verus!
