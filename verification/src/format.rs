//! Canonical hexadecimal formatting of IEEE-754 bit patterns.
//!
//! For conversion, `to_hex_string` is provided. For formatting, the `Format`
//! wrapper is provided. Values are carried as bit patterns (`F32Bits`,
//! `F64Bits`) so that the text is a pure function of the encoding, including
//! the sign of zero and all NaN payloads.

use crate::chars::{hex_digit_char, hex_digit_str};
use vstd::prelude::*;
use vstd::string::{StrSliceExecFns, StringExecFns};

verus! {

/// Fixed-width, zero-padded lowercase hexadecimal digits of `v`.
pub open spec fn hex_fixed(v: nat, w: nat) -> Seq<char>
    decreases w,
{
    if w == 0 {
        Seq::<char>::empty()
    } else {
        hex_fixed(v / 16, (w - 1) as nat).push(hex_digit_char(v % 16))
    }
}

/// Decimal digits of `v`, most significant first, no leading zeros.
pub open spec fn dec_chars(v: nat) -> Seq<char>
    decreases v,
{
    if v < 10 {
        seq![hex_digit_char(v)]
    } else {
        dec_chars(v / 10).push(hex_digit_char(v % 10))
    }
}

/// Exponent text: an explicit sign followed by the decimal magnitude.
pub open spec fn exp_chars(e: int) -> Seq<char> {
    if e >= 0 {
        seq!['+'] + dec_chars(e as nat)
    } else {
        seq!['-'] + dec_chars((-e) as nat)
    }
}

/// Canonical text of a zero, without its sign: `0x0.0p+0`.
pub open spec fn zero_chars() -> Seq<char> {
    seq!['0', 'x', '0', '.', '0', 'p', '+', '0']
}

/// Canonical text of an infinity, without its sign: `inf`.
pub open spec fn inf_chars() -> Seq<char> {
    seq!['i', 'n', 'f']
}

/// The single text every NaN collapses to: `NaN`.
pub open spec fn nan_chars() -> Seq<char> {
    seq!['N', 'a', 'N']
}

/// Canonical text of a finite nonzero value, without its sign: the leading
/// significand digit (`0` or `1`), a fraction of exactly `w` hex digits, and
/// the binary exponent with an explicit sign.
pub open spec fn finite_chars(lead: nat, fracv: nat, w: nat, p: int) -> Seq<char> {
    seq!['0', 'x', hex_digit_char(lead), '.'] + hex_fixed(fracv, w) + seq!['p'] + exp_chars(p)
}

/// The sign prefix: `-` for a set sign bit, empty otherwise.
pub open spec fn sign_chars(neg: bool) -> Seq<char> {
    if neg {
        seq!['-']
    } else {
        Seq::<char>::empty()
    }
}

/// Canonical hexadecimal text of an IEEE-754 binary32 bit pattern.
///
/// The significand (implicit bit included) and the binary exponent of its
/// least significant bit are recovered from the encoding; the fraction is
/// printed as 6 hex digits (24 bits, so the 23-bit field is shifted up once)
/// and the printed exponent is referenced to the implicit bit.
pub open spec fn spec_hexf32(bits: u32) -> Seq<char> {
    let neg = bits >= 0x80000000;
    let expf = (bits as nat / 0x800000) % 0x100;
    let frac = bits as nat % 0x800000;
    if expf == 0 && frac == 0 {
        sign_chars(neg) + zero_chars()
    } else if expf == 0xff && frac == 0 {
        sign_chars(neg) + inf_chars()
    } else if expf == 0xff {
        nan_chars()
    } else {
        let mant = if expf == 0 {
            frac
        } else {
            frac + 0x800000
        };
        let e = if expf == 0 {
            -149int
        } else {
            expf as int - 150
        };
        sign_chars(neg) + finite_chars(mant / 0x800000, (mant % 0x800000) * 2, 6, e + 23)
    }
}

/// Canonical hexadecimal text of an IEEE-754 binary64 bit pattern: as for
/// binary32, with a 13-hex-digit (52-bit) fraction.
pub open spec fn spec_hexf64(bits: u64) -> Seq<char> {
    let neg = bits >= 0x8000000000000000;
    let expf = (bits as nat / 0x10000000000000) % 0x800;
    let frac = bits as nat % 0x10000000000000;
    if expf == 0 && frac == 0 {
        sign_chars(neg) + zero_chars()
    } else if expf == 0x7ff && frac == 0 {
        sign_chars(neg) + inf_chars()
    } else if expf == 0x7ff {
        nan_chars()
    } else {
        let mant = if expf == 0 {
            frac
        } else {
            frac + 0x10000000000000
        };
        let e = if expf == 0 {
            -1074int
        } else {
            expf as int - 1075
        };
        sign_chars(neg) + finite_chars(mant / 0x10000000000000, mant % 0x10000000000000, 13, e + 52)
    }
}

/// Render `w` zero-padded hex digits of `v`.
fn hex_fixed_string(v: u64, w: u64) -> (r: String)
    requires
        w <= 16,
    ensures
        r@ == hex_fixed(v as nat, w as nat),
    decreases w,
{
    if w == 0 {
        let r = String::new();
        assert(r@ =~= hex_fixed(v as nat, 0));
        r
    } else {
        let mut r = hex_fixed_string(v / 16, w - 1);
        r.append(hex_digit_str((v % 16) as u8));
        assert(r@ =~= hex_fixed(v as nat, w as nat));
        r
    }
}

/// Render the decimal digits of `v`.
fn dec_string(v: u64) -> (r: String)
    ensures
        r@ == dec_chars(v as nat),
    decreases v,
{
    if v < 10 {
        let mut r = String::new();
        r.append(hex_digit_str(v as u8));
        assert(r@ =~= dec_chars(v as nat));
        r
    } else {
        let mut r = dec_string(v / 10);
        r.append(hex_digit_str((v % 10) as u8));
        assert(r@ =~= dec_chars(v as nat));
        r
    }
}

/// Render the canonical text of a finite nonzero value.
fn finite_string(neg: bool, lead: u8, fracv: u64, w: u64, p: i64) -> (r: String)
    requires
        lead < 16,
        w <= 16,
        -1100 < p < 1100,
    ensures
        r@ == sign_chars(neg) + finite_chars(lead as nat, fracv as nat, w as nat, p as int),
{
    proof {
        reveal_strlit("-");
        reveal_strlit("+");
        reveal_strlit("0x");
        reveal_strlit(".");
        reveal_strlit("p");
    }
    let mut r = String::new();
    if neg {
        r.append("-");
    }
    r.append("0x");
    r.append(hex_digit_str(lead));
    r.append(".");
    let frac = hex_fixed_string(fracv, w);
    r.append(frac.as_str());
    r.append("p");
    if p >= 0 {
        r.append("+");
        let d = dec_string(p as u64);
        r.append(d.as_str());
    } else {
        r.append("-");
        let d = dec_string((-p) as u64);
        r.append(d.as_str());
    }
    assert(r@ =~= sign_chars(neg) + finite_chars(lead as nat, fracv as nat, w as nat, p as int));
    r
}

/// A hexadecimal-formattable float encoding.
pub trait FormatHexf: Sized {
    /// The value is negative: the sign bit is set and the encoding is not a
    /// NaN. A NaN is signless here, so its printed sign prefix is empty.
    spec fn spec_is_negative(&self) -> bool;

    /// The encoding is neither an infinity nor a NaN.
    spec fn spec_is_finite(&self) -> bool;

    /// The canonical text of this encoding.
    spec fn hexf_chars(&self) -> Seq<char>;

    /// The sign prefix of the printed text.
    fn sign_string(&self) -> (r: &'static str)
        ensures
            r@ == sign_chars(self.spec_is_negative()),
    ;

    /// Render a finite (normal, subnormal or zero) value.
    fn fmt_finite(&self) -> (r: String)
        requires
            self.spec_is_finite(),
        ensures
            r@ == self.hexf_chars(),
    ;

    /// Render any value: finite, infinite or NaN.
    fn fmt(&self) -> (r: String)
        ensures
            r@ == self.hexf_chars(),
    ;
}

/// An IEEE-754 binary32 value, carried as its bit pattern.
#[derive(Clone, Copy, Debug, PartialEq, Eq, Structural)]
pub struct F32Bits {
    pub bits: u32,
}

/// An IEEE-754 binary64 value, carried as its bit pattern.
#[derive(Clone, Copy, Debug, PartialEq, Eq, Structural)]
pub struct F64Bits {
    pub bits: u64,
}

impl FormatHexf for F32Bits {
    open spec fn spec_is_negative(&self) -> bool {
        self.bits >= 0x80000000 && !((self.bits as nat / 0x800000) % 0x100 == 0xff
            && self.bits as nat % 0x800000 != 0)
    }

    open spec fn spec_is_finite(&self) -> bool {
        (self.bits as nat / 0x800000) % 0x100 != 0xff
    }

    open spec fn hexf_chars(&self) -> Seq<char> {
        spec_hexf32(self.bits)
    }

    fn sign_string(&self) -> (r: &'static str) {
        proof {
            reveal_strlit("-");
            reveal_strlit("");
        }
        let expf = (self.bits / 0x800000) % 0x100;
        let frac = self.bits % 0x800000;
        if self.bits >= 0x80000000 && !(expf == 0xff && frac != 0) {
            let r = "-";
            assert(r@ =~= sign_chars(true));
            r
        } else {
            let r = "";
            assert(r@ =~= sign_chars(false));
            r
        }
    }

    fn fmt_finite(&self) -> (r: String) {
        let neg = self.bits >= 0x80000000;
        let expf = (self.bits / 0x800000) % 0x100;
        let frac = self.bits % 0x800000;
        if expf == 0 && frac == 0 {
            proof {
                reveal_strlit("0x0.0p+0");
            }
            let mut r = String::new();
            r.append(self.sign_string());
            r.append("0x0.0p+0");
            assert(r@ =~= sign_chars(neg) + zero_chars());
            r
        } else {
            let mant: u32 = if expf == 0 {
                frac
            } else {
                frac + 0x800000
            };
            let e: i64 = if expf == 0 {
                -149
            } else {
                expf as i64 - 150
            };
            finite_string(neg, (mant / 0x800000) as u8, ((mant % 0x800000) * 2) as u64, 6, e + 23)
        }
    }

    fn fmt(&self) -> (r: String) {
        let expf = (self.bits / 0x800000) % 0x100;
        let frac = self.bits % 0x800000;
        if expf == 0xff && frac == 0 {
            proof {
                reveal_strlit("inf");
            }
            let mut r = String::new();
            r.append(self.sign_string());
            r.append("inf");
            assert(r@ =~= sign_chars(self.spec_is_negative()) + inf_chars());
            r
        } else if expf == 0xff {
            proof {
                reveal_strlit("NaN");
            }
            let mut r = String::new();
            r.append("NaN");
            assert(r@ =~= nan_chars());
            r
        } else {
            self.fmt_finite()
        }
    }
}

impl FormatHexf for F64Bits {
    open spec fn spec_is_negative(&self) -> bool {
        self.bits >= 0x8000000000000000 && !((self.bits as nat / 0x10000000000000) % 0x800
            == 0x7ff && self.bits as nat % 0x10000000000000 != 0)
    }

    open spec fn spec_is_finite(&self) -> bool {
        (self.bits as nat / 0x10000000000000) % 0x800 != 0x7ff
    }

    open spec fn hexf_chars(&self) -> Seq<char> {
        spec_hexf64(self.bits)
    }

    fn sign_string(&self) -> (r: &'static str) {
        proof {
            reveal_strlit("-");
            reveal_strlit("");
        }
        let expf = (self.bits / 0x10000000000000) % 0x800;
        let frac = self.bits % 0x10000000000000;
        if self.bits >= 0x8000000000000000 && !(expf == 0x7ff && frac != 0) {
            let r = "-";
            assert(r@ =~= sign_chars(true));
            r
        } else {
            let r = "";
            assert(r@ =~= sign_chars(false));
            r
        }
    }

    fn fmt_finite(&self) -> (r: String) {
        let neg = self.bits >= 0x8000000000000000;
        let expf = (self.bits / 0x10000000000000) % 0x800;
        let frac = self.bits % 0x10000000000000;
        if expf == 0 && frac == 0 {
            proof {
                reveal_strlit("0x0.0p+0");
            }
            let mut r = String::new();
            r.append(self.sign_string());
            r.append("0x0.0p+0");
            assert(r@ =~= sign_chars(neg) + zero_chars());
            r
        } else {
            let mant: u64 = if expf == 0 {
                frac
            } else {
                frac + 0x10000000000000
            };
            let e: i64 = if expf == 0 {
                -1074
            } else {
                expf as i64 - 1075
            };
            finite_string(neg, (mant / 0x10000000000000) as u8, mant % 0x10000000000000, 13, e + 52)
        }
    }

    fn fmt(&self) -> (r: String) {
        let expf = (self.bits / 0x10000000000000) % 0x800;
        let frac = self.bits % 0x10000000000000;
        if expf == 0x7ff && frac == 0 {
            proof {
                reveal_strlit("inf");
            }
            let mut r = String::new();
            r.append(self.sign_string());
            r.append("inf");
            assert(r@ =~= sign_chars(self.spec_is_negative()) + inf_chars());
            r
        } else if expf == 0x7ff {
            proof {
                reveal_strlit("NaN");
            }
            let mut r = String::new();
            r.append("NaN");
            assert(r@ =~= nan_chars());
            r
        } else {
            self.fmt_finite()
        }
    }
}

/// Wrap a float encoding to be a hexadecimal formattable value.
pub struct Format<T: FormatHexf>(pub T);

impl<T: FormatHexf> Format<T> {
    /// Render the wrapped value's canonical hexadecimal text.
    pub fn fmt(&self) -> (r: String)
        ensures
            r@ == self.0.hexf_chars(),
    {
        self.0.fmt()
    }
}

/// Format a binary32 or binary64 encoding to hexadecimal.
pub fn to_hex_string<T: FormatHexf>(value: T) -> (r: String)
    ensures
        r@ == value.hexf_chars(),
{
    value.fmt()
}

/// Every binary32 NaN encoding, whatever its sign or payload, formats as the
/// single three-character text `NaN`.
pub proof fn lemma_hexf32_nan_collapses(bits: u32)
    requires
        (bits as nat / 0x800000) % 0x100 == 0xff,
        bits as nat % 0x800000 != 0,
    ensures
        spec_hexf32(bits) == nan_chars(),
{
}

/// Every binary64 NaN encoding, whatever its sign or payload, formats as the
/// single three-character text `NaN`.
pub proof fn lemma_hexf64_nan_collapses(bits: u64)
    requires
        (bits as nat / 0x10000000000000) % 0x800 == 0x7ff,
        bits as nat % 0x10000000000000 != 0,
    ensures
        spec_hexf64(bits) == nan_chars(),
{
}

/// Every binary32 infinity formats as `inf` behind its sign prefix.
pub proof fn lemma_hexf32_infinity_text(bits: u32)
    requires
        (bits as nat / 0x800000) % 0x100 == 0xff,
        bits as nat % 0x800000 == 0,
    ensures
        spec_hexf32(bits) == sign_chars(bits >= 0x80000000) + inf_chars(),
{
}

/// Every binary64 infinity formats as `inf` behind its sign prefix.
pub proof fn lemma_hexf64_infinity_text(bits: u64)
    requires
        (bits as nat / 0x10000000000000) % 0x800 == 0x7ff,
        bits as nat % 0x10000000000000 == 0,
    ensures
        spec_hexf64(bits) == sign_chars(bits >= 0x8000000000000000) + inf_chars(),
{
}

} // verus!
