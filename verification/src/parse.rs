//! Parsing of hexadecimal floating-point literals into IEEE-754 bit patterns.
//!
//! The grammar is
//!
//! ```text
//! literal       := sign? "0x" mantissa_part exponent_part
//! sign          := "+" | "-"
//! mantissa_part := hexdigits ("." hexdigits?)? | "." hexdigits
//! exponent_part := "p" sign? decdigits
//! ```
//!
//! where a digit run may carry single `_` separators strictly between two
//! digits, and only when they are allowed. The literal's exact value is
//! `(-1)^sign * M * 2^(p - 4*f)` with `M` the hex integer formed by all
//! mantissa digits, `p` the decimal exponent and `f` the number of fraction
//! digits; it is rounded to the target width to nearest, ties to even.

use crate::chars::{hex_digit_val, dec_digit_val, hex_digit_of, dec_digit_of, is_dec_digit, is_hex_digit};
use crate::rounding::{log2, pow2_u64, rne, lemma_log2_bounds, lemma_log2_ge, lemma_log2_lt, lemma_log2_scale, lemma_rne_split, lemma2_to64_more};
use vstd::arithmetic::power2::{pow2, lemma2_to64, lemma_pow2_adds, lemma_pow2_pos, lemma_pow2_strictly_increases, lemma_pow2_unfold};
use vstd::arithmetic::div_mod::{lemma_basic_div, lemma_small_mod};
use vstd::arithmetic::mul::{lemma_mul_inequality, lemma_mul_strict_inequality};
use vstd::prelude::*;
use vstd::string::StrSliceExecFns;

verus! {

/// Why a literal was rejected.
#[derive(Clone, Copy, Debug, PartialEq, Eq, Structural)]
pub enum ParseHexfError {
    /// The text does not match the literal grammar.
    MalformedLiteral,
    /// The value is too large in magnitude for a finite value of the target
    /// width; the parser never silently saturates to infinity.
    Overflow,
    /// The value is nonzero but below half the smallest subnormal, so no
    /// shifted significand can represent it.
    Underflow,
}

// ---------------------------------------------------------------------------
// Grammar
// ---------------------------------------------------------------------------

/// `c` is a digit of the requested base.
pub open spec fn is_digit(c: char, hex: bool) -> bool {
    if hex {
        is_hex_digit(c)
    } else {
        is_dec_digit(c)
    }
}

/// A valid prefix of a digit run: digits and separators only, starting with
/// a digit, each `_` followed by a digit, and no `_` at all unless allowed.
pub open spec fn run_prefix_ok(s: Seq<char>, hex: bool, allow_underscore: bool) -> bool {
    &&& forall|i: int| 0 <= i < s.len() ==> is_digit(#[trigger] s[i], hex) || s[i] == '_'
    &&& (s.len() > 0 ==> is_digit(s[0], hex))
    &&& forall|i: int| 0 <= i < s.len() - 1 && #[trigger] s[i] == '_' ==> is_digit(s[i + 1], hex)
    &&& (allow_underscore || forall|i: int| 0 <= i < s.len() ==> #[trigger] s[i] != '_')
}

/// A complete digit run: a nonempty valid prefix ending in a digit.
pub open spec fn run_ok(s: Seq<char>, hex: bool, allow_underscore: bool) -> bool {
    run_prefix_ok(s, hex, allow_underscore) && s.len() >= 1 && is_digit(s[s.len() - 1], hex)
}

/// Index of the first occurrence of `c` in `s`, or -1 when absent.
pub open spec fn find_char(s: Seq<char>, c: char) -> int
    decreases s.len(),
{
    if s.len() == 0 {
        -1
    } else if s[0] == c {
        0
    } else if find_char(s.skip(1), c) == -1 {
        -1
    } else {
        find_char(s.skip(1), c) + 1
    }
}

pub proof fn lemma_find_char_is(s: Seq<char>, c: char, i: int)
    requires
        0 <= i < s.len(),
        s[i] == c,
        forall|j: int| 0 <= j < i ==> s[j] != c,
    ensures
        find_char(s, c) == i,
    decreases i,
{
    if i > 0 {
        lemma_find_char_is(s.skip(1), c, i - 1);
    }
}

pub proof fn lemma_find_char_none(s: Seq<char>, c: char)
    requires
        forall|j: int| 0 <= j < s.len() ==> s[j] != c,
    ensures
        find_char(s, c) == -1,
    decreases s.len(),
{
    if s.len() > 0 {
        lemma_find_char_none(s.skip(1), c);
    }
}

pub proof fn lemma_find_char_props(s: Seq<char>, c: char)
    ensures
        find_char(s, c) != -1 ==> 0 <= find_char(s, c) < s.len() && s[find_char(s, c)] == c
            && forall|j: int| 0 <= j < find_char(s, c) ==> s[j] != c,
        find_char(s, c) == -1 ==> forall|j: int| 0 <= j < s.len() ==> s[j] != c,
    decreases s.len(),
{
    if s.len() > 0 && s[0] != c {
        let t = s.skip(1);
        lemma_find_char_props(t, c);
        assert(forall|j: int| 0 <= j < t.len() ==> #[trigger] t[j] == s[j + 1]);
        assert(forall|j: int| 1 <= j < s.len() ==> #[trigger] s[j] == t[j - 1]);
        let f = find_char(t, c);
        if f != -1 {
            assert(find_char(s, c) == f + 1);
        }
    }
}

/// The digit characters of a run, separators removed, order kept.
pub open spec fn digits_of(s: Seq<char>) -> Seq<char>
    decreases s.len(),
{
    if s.len() == 0 {
        Seq::<char>::empty()
    } else if s.last() == '_' {
        digits_of(s.drop_last())
    } else {
        digits_of(s.drop_last()).push(s.last())
    }
}

/// The number a sequence of hex digit characters denotes.
pub open spec fn hex_value(ds: Seq<char>) -> nat
    decreases ds.len(),
{
    if ds.len() == 0 {
        0
    } else {
        hex_value(ds.drop_last()) * 16 + hex_digit_val(ds.last())
    }
}

/// The number a sequence of decimal digit characters denotes.
pub open spec fn dec_value(ds: Seq<char>) -> nat
    decreases ds.len(),
{
    if ds.len() == 0 {
        0
    } else {
        dec_value(ds.drop_last()) * 10 + dec_digit_val(ds.last())
    }
}

/// The literal begins with a minus sign.
pub open spec fn literal_neg(s: Seq<char>) -> bool {
    s.len() > 0 && s[0] == '-'
}

/// The literal with any leading sign removed.
pub open spec fn after_sign(s: Seq<char>) -> Seq<char> {
    if s.len() > 0 && (s[0] == '+' || s[0] == '-') {
        s.skip(1)
    } else {
        s
    }
}

/// The text after the `0x` prefix.
pub open spec fn body_of(s: Seq<char>) -> Seq<char> {
    after_sign(s).skip(2)
}

/// The mantissa region: the body up to the first `p`.
pub open spec fn mant_of(s: Seq<char>) -> Seq<char> {
    let u = body_of(s);
    u.take(find_char(u, 'p'))
}

/// The exponent region: the body after the first `p`.
pub open spec fn expo_of(s: Seq<char>) -> Seq<char> {
    let u = body_of(s);
    u.skip(find_char(u, 'p') + 1)
}

/// The mantissa region is one hex run, or two hex runs around one dot of
/// which at most one may be empty.
pub open spec fn mant_ok(m: Seq<char>, allow_underscore: bool) -> bool {
    let d = find_char(m, '.');
    if d == -1 {
        run_ok(m, true, allow_underscore)
    } else {
        let ip = m.take(d);
        let fp = m.skip(d + 1);
        if ip.len() == 0 {
            run_ok(fp, true, allow_underscore)
        } else {
            run_ok(ip, true, allow_underscore) && (fp.len() == 0 || run_ok(fp, true,
                allow_underscore))
        }
    }
}

/// The exponent's digit run, behind its optional sign.
pub open spec fn expo_digits_part(e: Seq<char>) -> Seq<char> {
    if e.len() > 0 && (e[0] == '+' || e[0] == '-') {
        e.skip(1)
    } else {
        e
    }
}

/// The exponent is negated.
pub open spec fn expo_neg(e: Seq<char>) -> bool {
    e.len() > 0 && e[0] == '-'
}

/// The exponent region is an optional sign and one decimal run.
pub open spec fn expo_ok(e: Seq<char>, allow_underscore: bool) -> bool {
    run_ok(expo_digits_part(e), false, allow_underscore)
}

/// The whole text matches the literal grammar.
pub open spec fn literal_ok(s: Seq<char>, allow_underscore: bool) -> bool {
    let t = after_sign(s);
    &&& t.len() >= 2
    &&& t[0] == '0'
    &&& t[1] == 'x'
    &&& find_char(body_of(s), 'p') >= 0
    &&& mant_ok(mant_of(s), allow_underscore)
    &&& expo_ok(expo_of(s), allow_underscore)
}

// ---------------------------------------------------------------------------
// Value
// ---------------------------------------------------------------------------

/// The digits before the dot (or all digits when there is no dot).
pub open spec fn mant_int_digits(m: Seq<char>) -> Seq<char> {
    let d = find_char(m, '.');
    if d == -1 {
        digits_of(m)
    } else {
        digits_of(m.take(d))
    }
}

/// The digits after the dot.
pub open spec fn mant_frac_digits(m: Seq<char>) -> Seq<char> {
    let d = find_char(m, '.');
    if d == -1 {
        Seq::<char>::empty()
    } else {
        digits_of(m.skip(d + 1))
    }
}

/// The literal's significand: every mantissa digit read as one hex integer.
pub open spec fn literal_mantissa(s: Seq<char>) -> nat {
    hex_value(mant_int_digits(mant_of(s)) + mant_frac_digits(mant_of(s)))
}

/// The signed value of the exponent region.
pub open spec fn expo_value(e: Seq<char>) -> int {
    if expo_neg(e) {
        -(dec_value(digits_of(expo_digits_part(e))) as int)
    } else {
        dec_value(digits_of(expo_digits_part(e))) as int
    }
}

/// The binary exponent scaling the significand: the `p` exponent, less four
/// bits for each fraction digit.
pub open spec fn literal_exp(s: Seq<char>) -> int {
    expo_value(expo_of(s)) - 4 * mant_frac_digits(mant_of(s)).len()
}

// ---------------------------------------------------------------------------
// Rounding to a target width
// ---------------------------------------------------------------------------

/// Lay the three IEEE-754 fields out as one unsigned bit pattern.
pub open spec fn assemble_bits(neg: bool, biased: nat, field: nat, prec: nat, ebits: nat) -> nat {
    (if neg {
        pow2((prec - 1 + ebits) as nat)
    } else {
        0
    }) + biased * pow2((prec - 1) as nat) + field
}

/// Round the exact value `(-1)^neg * m * 2^e` (with `m > 0`) to the format
/// with `prec` significand bits (implicit bit included), greatest normal
/// exponent `emax` and an `ebits`-bit exponent field.
///
/// A value below half the least subnormal cannot be represented by any
/// shifted significand and reports `Underflow`; on the boundary, rounding
/// may still yield signed zero. A value whose rounded magnitude needs an
/// exponent above `emax` reports `Overflow` rather than saturating.
pub open spec fn round_to_bits(neg: bool, m: nat, e: int, prec: nat, emax: int, ebits: nat)
    -> Result<nat, ParseHexfError> {
    let qmin = 2 - emax - prec;
    let ereal = e + log2(m);
    if ereal < qmin - 1 {
        Err(ParseHexfError::Underflow)
    } else {
        let q = if ereal - (prec - 1) >= qmin {
            ereal - (prec - 1)
        } else {
            qmin
        };
        let n0 = rne(m, q - e);
        let n = if n0 == pow2(prec) {
            pow2((prec - 1) as nat)
        } else {
            n0
        };
        let q2 = if n0 == pow2(prec) {
            q + 1
        } else {
            q
        };
        if n == 0 {
            Ok(assemble_bits(neg, 0, 0, prec, ebits))
        } else if n < pow2((prec - 1) as nat) {
            Ok(assemble_bits(neg, 0, n, prec, ebits))
        } else if q2 + (prec - 1) + emax > 2 * emax {
            Err(ParseHexfError::Overflow)
        } else {
            Ok(assemble_bits(neg, (q2 + (prec - 1) + emax) as nat,
                (n - pow2((prec - 1) as nat)) as nat, prec, ebits))
        }
    }
}

/// What parsing returns: a grammar failure, a range failure, or the bit
/// pattern of the correctly rounded value.
pub open spec fn spec_parse(s: Seq<char>, allow_underscore: bool, prec: nat, emax: int,
    ebits: nat) -> Result<nat, ParseHexfError> {
    if !literal_ok(s, allow_underscore) {
        Err(ParseHexfError::MalformedLiteral)
    } else if literal_mantissa(s) == 0 {
        Ok(assemble_bits(literal_neg(s), 0, 0, prec, ebits))
    } else {
        round_to_bits(literal_neg(s), literal_mantissa(s), literal_exp(s), prec, emax, ebits)
    }
}

// ---------------------------------------------------------------------------
// Grammar violations
// ---------------------------------------------------------------------------

/// A character that is neither a hex digit, a separator nor the dot defeats
/// the mantissa grammar.
proof fn lemma_mant_bad_char(m: Seq<char>, allow_underscore: bool, k: int)
    requires
        0 <= k < m.len(),
        !is_hex_digit(m[k]),
        m[k] != '_',
        m[k] != '.',
    ensures
        !mant_ok(m, allow_underscore),
{
    let d = find_char(m, '.');
    lemma_find_char_props(m, '.');
    if d == -1 {
        assert(!run_ok(m, true, allow_underscore));
    } else {
        let ip = m.take(d);
        let fp = m.skip(d + 1);
        if k < d {
            assert(ip[k] == m[k]);
            assert(!run_ok(ip, true, allow_underscore));
            assert(ip.len() > 0);
        } else {
            assert(k > d);
            assert(fp[k - d - 1] == m[k]);
            assert(fp.len() > 0);
            assert(!run_ok(fp, true, allow_underscore));
        }
    }
}

/// A separator not immediately followed by a digit ends its run illegally.
proof fn lemma_mant_underscore_no_digit_after(m: Seq<char>, allow_underscore: bool, k: int)
    requires
        0 <= k < m.len(),
        m[k] == '_',
        k + 1 == m.len() || !is_hex_digit(m[k + 1]),
    ensures
        !mant_ok(m, allow_underscore),
{
    let d = find_char(m, '.');
    lemma_find_char_props(m, '.');
    if d == -1 {
        if k + 1 == m.len() {
            assert(!is_digit(m[m.len() - 1], true));
        }
        assert(!run_ok(m, true, allow_underscore));
    } else {
        let ip = m.take(d);
        let fp = m.skip(d + 1);
        if k < d {
            assert(ip.len() > 0);
            if k + 1 == d {
                assert(ip[ip.len() - 1] == m[k]);
                assert(!run_ok(ip, true, allow_underscore));
            } else {
                assert(ip[k] == m[k] && ip[k + 1] == m[k + 1]);
                assert(!run_ok(ip, true, allow_underscore));
            }
        } else {
            assert(k > d);
            assert(fp.len() > 0);
            assert(fp[k - d - 1] == m[k]);
            if k + 1 == m.len() {
                assert(fp[fp.len() - 1] == m[k]);
                assert(!run_ok(fp, true, allow_underscore));
            } else {
                assert(fp[k - d] == m[k + 1]);
                assert(!run_ok(fp, true, allow_underscore));
            }
        }
    }
}

/// A separator at the start of a run (at the front, or right after the dot)
/// defeats the grammar.
proof fn lemma_mant_underscore_at_run_start(m: Seq<char>, allow_underscore: bool, k: int)
    requires
        0 <= k < m.len(),
        m[k] == '_',
        k == 0 || m[k - 1] == '.',
    ensures
        !mant_ok(m, allow_underscore),
{
    let d = find_char(m, '.');
    lemma_find_char_props(m, '.');
    if k == 0 {
        if d == -1 {
            assert(!run_ok(m, true, allow_underscore));
        } else {
            assert(d > 0);
            let ip = m.take(d);
            assert(ip[0] == m[0]);
            assert(ip.len() > 0);
            assert(!run_ok(ip, true, allow_underscore));
        }
    } else {
        assert(d != -1 && d <= k - 1);
        let fp = m.skip(d + 1);
        assert(fp.len() > 0);
        if d == k - 1 {
            assert(fp[0] == m[k]);
            assert(!run_ok(fp, true, allow_underscore));
        } else {
            assert(fp[k - 1 - d - 1] == m[k - 1]);
            assert(!is_hex_digit('.') && '.' != '_') by {
                assert('.' as u32 == 46);
            }
            assert(!run_ok(fp, true, allow_underscore));
        }
    }
}

/// Any separator defeats the grammar when separators are disallowed.
proof fn lemma_mant_underscore_disallowed(m: Seq<char>, k: int)
    requires
        0 <= k < m.len(),
        m[k] == '_',
    ensures
        !mant_ok(m, false),
{
    let d = find_char(m, '.');
    lemma_find_char_props(m, '.');
    if d == -1 {
        assert(!run_ok(m, true, false));
    } else {
        let ip = m.take(d);
        let fp = m.skip(d + 1);
        if k < d {
            assert(ip[k] == m[k]);
            assert(ip.len() > 0);
            assert(!run_ok(ip, true, false));
        } else {
            assert(k > d);
            assert(fp[k - d - 1] == m[k]);
            assert(fp.len() > 0);
            assert(!run_ok(fp, true, false));
        }
    }
}

/// A second dot defeats the grammar.
proof fn lemma_mant_two_dots(m: Seq<char>, allow_underscore: bool, k1: int, k2: int)
    requires
        0 <= k1 < k2 < m.len(),
        m[k1] == '.',
        m[k2] == '.',
        forall|j: int| 0 <= j < k1 ==> m[j] != '.',
    ensures
        !mant_ok(m, allow_underscore),
{
    lemma_find_char_is(m, '.', k1);
    let fp = m.skip(k1 + 1);
    assert(fp[k2 - k1 - 1] == m[k2]);
    assert(fp.len() > 0);
    assert(!is_hex_digit('.') && '.' != '_') by {
        assert('.' as u32 == 46);
    }
    assert(!run_ok(fp, true, allow_underscore));
}

// ---------------------------------------------------------------------------
// Separators are cosmetic
// ---------------------------------------------------------------------------

/// The text with every `_` separator removed, other characters kept in
/// order.
pub open spec fn strip_separators(s: Seq<char>) -> Seq<char> {
    digits_of(s)
}

/// Separator removal distributes over concatenation.
proof fn lemma_digits_of_concat(a: Seq<char>, b: Seq<char>)
    ensures
        digits_of(a + b) == digits_of(a) + digits_of(b),
    decreases b.len(),
{
    if b.len() == 0 {
        assert(a + b =~= a);
        assert(digits_of(b) =~= Seq::<char>::empty());
        assert(digits_of(a) + digits_of(b) =~= digits_of(a));
    } else {
        lemma_digits_of_concat(a, b.drop_last());
        assert((a + b).drop_last() =~= a + b.drop_last());
        assert((a + b).last() == b.last());
        assert(digits_of(b).len() >= 0);
        if b.last() == '_' {
            assert(digits_of(a + b) == digits_of(a) + digits_of(b.drop_last()));
            assert(digits_of(b) == digits_of(b.drop_last()));
        } else {
            assert(digits_of(a + b) == (digits_of(a) + digits_of(b.drop_last())).push(b.last()));
            assert(digits_of(b) == digits_of(b.drop_last()).push(b.last()));
            assert((digits_of(a) + digits_of(b.drop_last())).push(b.last()) =~= digits_of(a)
                + digits_of(b.drop_last()).push(b.last()));
        }
    }
}

/// A text without separators is unchanged by their removal.
proof fn lemma_digits_of_id(s: Seq<char>)
    requires
        forall|i: int| 0 <= i < s.len() ==> s[i] != '_',
    ensures
        digits_of(s) == s,
    decreases s.len(),
{
    if s.len() > 0 {
        lemma_digits_of_id(s.drop_last());
        assert(digits_of(s) =~= s);
    } else {
        assert(digits_of(s) =~= s);
    }
}

/// Removing the separators of a digit-and-separator text leaves digits
/// only, and keeps at least one when one was there.
proof fn lemma_digits_of_classes(x: Seq<char>, hex: bool)
    requires
        forall|i: int| 0 <= i < x.len() ==> is_digit(#[trigger] x[i], hex) || x[i] == '_',
    ensures
        forall|i: int| 0 <= i < digits_of(x).len() ==> is_digit(#[trigger] digits_of(x)[i], hex),
        (exists|i: int| 0 <= i < x.len() && is_digit(#[trigger] x[i], hex)) ==> digits_of(
            x).len() >= 1,
    decreases x.len(),
{
    if x.len() > 0 {
        let y = x.drop_last();
        assert(forall|i: int| 0 <= i < y.len() ==> #[trigger] y[i] == x[i]);
        lemma_digits_of_classes(y, hex);
        if x.last() == '_' {
            assert(digits_of(x) == digits_of(y));
            if exists|i: int| 0 <= i < x.len() && is_digit(#[trigger] x[i], hex) {
                let i = choose|i: int| 0 <= i < x.len() && is_digit(#[trigger] x[i], hex);
                assert(i < x.len() - 1);
                assert(is_digit(y[i], hex));
            }
        } else {
            assert(digits_of(x) == digits_of(y).push(x.last()));
            assert(is_digit(x.last(), hex));
            assert(forall|i: int| 0 <= i < digits_of(y).len() ==> #[trigger] digits_of(x)[i]
                == digits_of(y)[i]);
        }
    }
}

/// Stripping a complete run of its separators leaves a nonempty run of
/// bare digits, valid at either separator setting.
proof fn lemma_digits_of_run(x: Seq<char>, hex: bool, allow_underscore: bool)
    requires
        run_ok(x, hex, true),
    ensures
        run_ok(digits_of(x), hex, allow_underscore),
        digits_of(x).len() >= 1,
        forall|i: int| 0 <= i < digits_of(x).len() ==> is_digit(#[trigger] digits_of(x)[i], hex),
{
    lemma_digits_of_classes(x, hex);
    assert(is_digit(x[0], hex));
    assert(digits_of(x).len() >= 1);
    assert(forall|i: int| 0 <= i < digits_of(x).len() ==> #[trigger] digits_of(x)[i] != '_');
}

/// The decomposition of a well-formed literal into its regions, rebuilt as
/// one concatenation.
proof fn lemma_literal_decompose(s: Seq<char>)
    requires
        after_sign(s).len() >= 2,
        find_char(body_of(s), 'p') >= 0,
    ensures
        after_sign(s) =~= seq![after_sign(s)[0], after_sign(s)[1]] + body_of(s),
        body_of(s) =~= mant_of(s) + seq!['p'] + expo_of(s),
        s =~= (if s.len() > 0 && (s[0] == '+' || s[0] == '-') {
            seq![s[0]]
        } else {
            Seq::<char>::empty()
        }) + after_sign(s),
{
    let u = body_of(s);
    let jp = find_char(u, 'p');
    lemma_find_char_props(u, 'p');
    assert(u =~= u.take(jp) + seq![u[jp]] + u.skip(jp + 1));
}

/// Separators are cosmetic: a literal whose separators each sit between
/// two digits of one run keeps its grammar, sign, significand and exponent
/// when every separator is removed, at either separator setting.
#[verifier::rlimit(100)]
#[verifier::spinoff_prover]
pub proof fn lemma_strip_separators_literal(s: Seq<char>, allow_underscore: bool)
    requires
        literal_ok(s, true),
    ensures
        literal_ok(strip_separators(s), allow_underscore),
        literal_neg(strip_separators(s)) == literal_neg(s),
        literal_mantissa(strip_separators(s)) == literal_mantissa(s),
        literal_exp(strip_separators(s)) == literal_exp(s),
{
    let t = after_sign(s);
    let u = body_of(s);
    let jp = find_char(u, 'p');
    let m = mant_of(s);
    let ex = expo_of(s);
    lemma_find_char_props(u, 'p');
    lemma_literal_decompose(s);
    let signpart = if s.len() > 0 && (s[0] == '+' || s[0] == '-') {
        seq![s[0]]
    } else {
        Seq::<char>::empty()
    };
    // Strip each region; the fixed marks survive unchanged.
    lemma_digits_of_concat(signpart + seq![t[0], t[1]], u);
    lemma_digits_of_concat(signpart, seq![t[0], t[1]]);
    lemma_digits_of_concat(m + seq!['p'], ex);
    lemma_digits_of_concat(m, seq!['p']);
    lemma_digits_of_id(signpart);
    lemma_digits_of_id(seq![t[0], t[1]]);
    lemma_digits_of_id(seq!['p']);
    assert((signpart + seq![t[0], t[1]]) + u =~= s);
    assert((m + seq!['p']) + ex =~= u);
    let sp = strip_separators(s);
    assert(sp == (signpart + seq![t[0], t[1]]) + (digits_of(m) + seq!['p'] + digits_of(ex)));
    // The stripped literal's own regions.
    let tp = after_sign(sp);
    assert(literal_neg(sp) == literal_neg(s)) by {
        if signpart.len() > 0 {
            assert(sp[0] == s[0]);
        } else {
            assert(sp[0] == t[0] && t[0] == '0');
            assert(s.len() > 0 && !(s[0] == '+' || s[0] == '-'));
            assert(s[0] == t[0]);
        }
    }
    assert(tp =~= seq![t[0], t[1]] + (digits_of(m) + seq!['p'] + digits_of(ex)));
    let up = body_of(sp);
    assert(up =~= digits_of(m) + seq!['p'] + digits_of(ex));
    // Classify the stripped mantissa's characters.
    let d = find_char(m, '.');
    lemma_find_char_props(m, '.');
    if d == -1 {
        lemma_digits_of_run(m, true, allow_underscore);
        assert(forall|k: int| 0 <= k < digits_of(m).len() ==> #[trigger] up[k] == digits_of(
            m)[k]);
        assert(forall|k: int| 0 <= k < digits_of(m).len() ==> up[k] != 'p');
        assert(up[digits_of(m).len() as int] == 'p');
        lemma_find_char_is(up, 'p', digits_of(m).len() as int);
        let mp = up.take(digits_of(m).len() as int);
        assert(mp =~= digits_of(m));
        assert(mant_of(sp) == mp);
        lemma_find_char_none(mp, '.');
        assert(mant_ok(mp, allow_underscore));
        lemma_digits_of_id(digits_of(m));
        assert(mant_int_digits(mp) == digits_of(m) && mant_int_digits(m) == digits_of(m));
        assert(mant_frac_digits(mp) =~= mant_frac_digits(m));
    } else {
        let ip = m.take(d);
        let fp = m.skip(d + 1);
        assert(m =~= ip + seq!['.'] + fp);
        lemma_digits_of_concat(ip + seq!['.'], fp);
        lemma_digits_of_concat(ip, seq!['.']);
        lemma_digits_of_id(seq!['.']);
        assert(digits_of(m) == digits_of(ip) + seq!['.'] + digits_of(fp));
        let dp = digits_of(ip).len() as int;
        // run characters are digits after stripping
        if ip.len() > 0 {
            lemma_digits_of_run(ip, true, allow_underscore);
        } else {
            assert(digits_of(ip) =~= Seq::<char>::empty());
        }
        if fp.len() > 0 {
            lemma_digits_of_run(fp, true, allow_underscore);
        } else {
            assert(digits_of(fp) =~= Seq::<char>::empty());
        }
        assert(!is_hex_digit('.') && !is_hex_digit('p')) by {
            assert('.' as u32 == 46 && 'p' as u32 == 112);
        }
        // find the marker and the dot in the stripped body
        assert(forall|k: int| 0 <= k < dp ==> #[trigger] up[k] == digits_of(ip)[k]);
        assert(up[dp] == '.');
        assert(forall|k: int| dp < k < digits_of(m).len() ==> #[trigger] up[k] == digits_of(
            fp)[k - dp - 1]);
        assert(forall|k: int| 0 <= k < digits_of(m).len() ==> up[k] != 'p');
        assert(up[digits_of(m).len() as int] == 'p');
        lemma_find_char_is(up, 'p', digits_of(m).len() as int);
        let mp = up.take(digits_of(m).len() as int);
        assert(mp =~= digits_of(m));
        assert(mant_of(sp) == mp);
        assert(forall|k: int| 0 <= k < dp ==> #[trigger] mp[k] == digits_of(ip)[k]);
        assert(forall|k: int| 0 <= k < dp ==> mp[k] != '.');
        assert(mp[dp] == '.');
        lemma_find_char_is(mp, '.', dp);
        assert(mp.take(dp) =~= digits_of(ip));
        assert(mp.skip(dp + 1) =~= digits_of(fp));
        assert(mant_ok(mp, allow_underscore)) by {
            if ip.len() == 0 {
                assert(run_ok(fp, true, true));
                assert(digits_of(ip).len() == 0);
            } else {
                assert(run_ok(ip, true, true));
            }
        }
        lemma_digits_of_id(digits_of(ip));
        lemma_digits_of_id(digits_of(fp));
        assert(mant_int_digits(mp) == digits_of(ip) && mant_int_digits(m) == digits_of(ip));
        assert(mant_frac_digits(mp) == digits_of(fp) && mant_frac_digits(m) == digits_of(fp));
    }
    assert(mant_int_digits(mant_of(sp)) + mant_frac_digits(mant_of(sp)) =~= mant_int_digits(m)
        + mant_frac_digits(m));
    assert(literal_mantissa(sp) == literal_mantissa(s));
    // The exponent region: its optional sign survives, its run strips.
    let exp_p = expo_of(sp);
    assert(exp_p =~= digits_of(ex));
    let ed = expo_digits_part(ex);
    assert(run_ok(ed, false, true));
    lemma_digits_of_run(ed, false, allow_underscore);
    if ex.len() > 0 && (ex[0] == '+' || ex[0] == '-') {
        assert(ex =~= seq![ex[0]] + ed);
        lemma_digits_of_concat(seq![ex[0]], ed);
        lemma_digits_of_id(seq![ex[0]]);
        assert(exp_p =~= seq![ex[0]] + digits_of(ed));
        assert(exp_p[0] == ex[0]);
        assert(expo_digits_part(exp_p) =~= digits_of(ed));
        assert(expo_neg(exp_p) == expo_neg(ex));
    } else {
        assert(ex =~= ed);
        assert(exp_p =~= digits_of(ed));
        assert(is_digit(exp_p[0], false));
        assert(exp_p[0] != '+' && exp_p[0] != '-' && exp_p[0] != '_') by {
            assert('+' as u32 == 43 && '-' as u32 == 45 && '_' as u32 == 95);
        }
        assert(expo_digits_part(exp_p) =~= digits_of(ed));
        assert(expo_neg(exp_p) == expo_neg(ex));
    }
    assert(expo_ok(exp_p, allow_underscore));
    lemma_digits_of_id(digits_of(ed));
    assert(expo_value(exp_p) == expo_value(ex));
    assert(literal_exp(sp) == literal_exp(s));
    assert(literal_ok(sp, allow_underscore)) by {
        assert(tp.len() >= 2 && tp[0] == t[0] && tp[1] == t[1]);
        assert(find_char(body_of(sp), 'p') >= 0);
    }
}

/// Separators never change the value: a literal whose separators each sit
/// between two digits parses, at either separator setting, to exactly what
/// the same literal with every separator removed parses to.
pub proof fn lemma_separators_cosmetic(s: Seq<char>, allow_underscore: bool, prec: nat,
    emax: int, ebits: nat)
    requires
        literal_ok(s, true),
    ensures
        spec_parse(strip_separators(s), allow_underscore, prec, emax, ebits) == spec_parse(s,
            true, prec, emax, ebits),
{
    lemma_strip_separators_literal(s, allow_underscore);
}

// ---------------------------------------------------------------------------
// Range facts
// ---------------------------------------------------------------------------

/// When the value's real binary exponent exceeds `emax`, rounding always
/// reports an overflow, whatever the significand.
proof fn lemma_round_overflow(neg: bool, m: nat, e: int, prec: nat, emax: int, ebits: nat)
    requires
        m >= 1,
        2 <= prec,
        1 <= emax,
        e + log2(m) > emax,
    ensures
        round_to_bits(neg, m, e, prec, emax, ebits) == Err::<nat, ParseHexfError>(
            ParseHexfError::Overflow,
        ),
{
    let qmin = 2 - emax - prec;
    let l = log2(m);
    let ereal = e + l;
    lemma_log2_bounds(m);
    lemma_pow2_pos((prec - 1) as nat);
    assert(ereal >= qmin - 1);
    assert(ereal - (prec - 1) >= qmin);
    let q = ereal - (prec - 1);
    let sh = q - e;
    assert(sh == l - (prec - 1));
    let n0 = rne(m, sh);
    if sh <= 0 {
        let k = (-sh) as nat;
        assert(l + k == prec - 1);
        lemma_pow2_adds(l, k);
        lemma_mul_inequality(pow2(l) as int, m as int, pow2(k) as int);
        lemma_pow2_pos(k);
        assert(pow2(l) * pow2(k) <= m * pow2(k));
        assert(n0 >= pow2((prec - 1) as nat));
    } else {
        lemma_pow2_pos(sh as nat);
        vstd::arithmetic::div_mod::lemma_div_is_ordered(
            pow2(l) as int,
            m as int,
            pow2(sh as nat) as int,
        );
        vstd::arithmetic::power2::lemma_pow2_subtracts(sh as nat, l);
        assert(pow2(l) / pow2(sh as nat) == pow2((prec - 1) as nat));
        assert(m / pow2(sh as nat) >= pow2((prec - 1) as nat));
        assert(n0 >= m / pow2(sh as nat));
    }
    let n = if n0 == pow2(prec) {
        pow2((prec - 1) as nat)
    } else {
        n0
    };
    let q2 = if n0 == pow2(prec) {
        q + 1
    } else {
        q
    };
    assert(n >= pow2((prec - 1) as nat));
    assert(n != 0);
    assert(q2 + (prec - 1) + emax >= ereal + emax);
    assert(q2 + (prec - 1) + emax > 2 * emax);
}

/// The executable result agrees with the specified one.
pub open spec fn result_matches(r: Result<u64, ParseHexfError>, sr: Result<nat, ParseHexfError>)
    -> bool {
    match (r, sr) {
        (Ok(rb), Ok(sn)) => rb as nat == sn,
        (Err(re), Err(se)) => re == se,
        _ => false,
    }
}

/// The two supported targets: binary32 and binary64.
pub open spec fn valid_target(prec: u64, emax: i64, ebits: u64) -> bool {
    (prec == 24 && emax == 127 && ebits == 8) || (prec == 53 && emax == 1023 && ebits == 11)
}

/// Concrete powers of two the encoder reasons with.
pub(crate) proof fn lemma_pow2_facts()
    ensures
        pow2(0) == 1,
        pow2(4) == 16,
        pow2(23) == 0x800000,
        pow2(24) == 0x1000000,
        pow2(31) == 0x80000000,
        pow2(32) == 0x100000000,
        pow2(52) == 0x10000000000000,
        pow2(53) == 0x20000000000000,
        pow2(60) == 0x1000000000000000,
        pow2(63) == 0x8000000000000000,
        pow2(64) == 0x10000000000000000,
{
    lemma2_to64();
    lemma2_to64_more();
    lemma_pow2_adds(32, 20);
    lemma_pow2_adds(32, 21);
    lemma_pow2_adds(32, 28);
}

/// Round the positive significand `mant * 2^(4*dropped) + rtail` scaled by
/// `2^elit` into the target's bit pattern, or report the range failure.
#[verifier::rlimit(100)]
fn encode_rounded(
    neg: bool,
    mant: u64,
    dropped: u64,
    Ghost(rtail): Ghost<nat>,
    sticky: bool,
    elit: i128,
    prec: u64,
    emax: i64,
    ebits: u64,
) -> (r: Result<u64, ParseHexfError>)
    requires
        valid_target(prec, emax, ebits),
        mant >= 1,
        rtail < pow2((4 * dropped) as nat),
        sticky == (rtail != 0),
        dropped > 0 ==> mant as nat >= pow2(60),
        -0x40000000000000000000000000 <= elit <= 0x40000000000000000000000000,
        dropped <= 0xffffffffffffffff,
    ensures
        result_matches(
            r,
            round_to_bits(
                neg,
                (mant * pow2((4 * dropped) as nat) + rtail) as nat,
                elit as int,
                prec as nat,
                emax as int,
                ebits as nat,
            ),
        ),
        r matches Ok(rb) ==> (rb as nat) < pow2((prec + ebits) as nat),
{
    proof {
        lemma_pow2_facts();
    }
    let ghost t: nat = (4 * dropped) as nat;
    let ghost bigm: nat = (mant * pow2(t) + rtail) as nat;
    // Position of the most significant bit of mant.
    let mut l: u64 = 0;
    let mut x: u64 = mant;
    proof {
        lemma_log2_lt(mant as nat, 64);
    }
    while x >= 2
        invariant
            1 <= x <= mant,
            log2(mant as nat) == l + log2(x as nat),
            log2(mant as nat) <= 63,
        decreases x,
    {
        x = x / 2;
        l = l + 1;
    }
    assert(l == log2(mant as nat));
    proof {
        lemma_log2_scale(mant as nat, t, rtail);
        assert(log2(bigm) == l + t);
        lemma_log2_bounds(mant as nat);
        assert(dropped > 0 ==> l >= 60) by {
            if dropped > 0 {
                lemma_log2_ge(mant as nat, 60);
            }
        }
    }
    let qmin: i128 = 2 - emax as i128 - prec as i128;
    let tshift: i128 = 4 * dropped as i128;
    let e0: i128 = elit + tshift;
    let bige: i128 = e0 + l as i128;
    proof {
        assert(bige == elit + log2(bigm));
    }
    if bige < qmin - 1 {
        return Err(ParseHexfError::Underflow);
    }
    let q: i128 = if bige - (prec as i128 - 1) >= qmin {
        bige - (prec as i128 - 1)
    } else {
        qmin
    };
    let sh: i128 = q - e0;
    proof {
        assert(sh >= l as i128 - (prec as i128 - 1));
        assert(sh <= l as i128 + 1);
        assert(-52 <= sh <= 64);
        assert(dropped > 0 ==> sh >= 8);
    }
    let n0: u64;
    if sh <= 0 {
        proof {
            assert(dropped == 0);
            assert(t == 0 && rtail == 0);
            assert(bigm == mant * pow2(0));
            assert(bigm == mant);
            // mant * 2^(-sh) stays below 2^prec
            let k = (-sh) as nat;
            assert(l + 1 + k <= prec);
            lemma_pow2_adds(l as nat + 1, k);
            assert(mant < pow2(l as nat + 1));
            lemma_pow2_pos(k);
            lemma_mul_strict_inequality(mant as int, pow2(l as nat + 1) as int, pow2(k) as int);
            assert(mant * pow2(k) < pow2((l + 1) as nat + k));
            if (l as nat + 1 + k) < prec as nat {
                lemma_pow2_strictly_increases(l as nat + 1 + k, prec as nat);
            }
            assert(mant * pow2(k) < pow2(prec as nat));
            assert(pow2(prec as nat) <= pow2(53));
        }
        let p = pow2_u64((-sh) as u64);
        n0 = mant * p;
        proof {
            assert(n0 as nat == rne(bigm, sh as int + t));
            assert(n0 as nat <= pow2(prec as nat));
        }
    } else {
        let shv = sh as u64;
        let kept: u64;
        let xrem: u64;
        if shv == 64 {
            kept = 0;
            xrem = mant;
            proof {
                lemma_basic_div(mant as int, pow2(64) as int);
                lemma_small_mod(mant as nat, pow2(64));
                assert(kept as nat == mant as nat / pow2(shv as nat));
                assert(xrem as nat == mant as nat % pow2(shv as nat));
            }
        } else {
            proof {
                lemma_pow2_pos(shv as nat);
            }
            let p = pow2_u64(shv);
            kept = mant / p;
            xrem = mant % p;
        }
        let half = pow2_u64(shv - 1);
        proof {
            lemma_pow2_unfold(shv as nat);
            assert(pow2(shv as nat) == 2 * half);
            lemma_rne_split(mant as nat, t, rtail, shv as nat);
            vstd::arithmetic::div_mod::lemma_div_is_ordered_by_denominator(mant as int, 2,
                pow2(shv as nat) as int);
            assert(kept <= mant / 2);
            // kept stays below 2^prec, so rounding stays at or below it
            assert(mant < pow2(shv as nat) * pow2((l + 1 - sh) as nat)) by {
                lemma_pow2_adds(shv as nat, (l + 1 - sh) as nat);
                assert(mant < pow2(l as nat + 1));
            }
            vstd::arithmetic::div_mod::lemma_multiply_divide_lt(mant as int,
                pow2(shv as nat) as int, pow2((l + 1 - sh) as nat) as int);
            assert((kept as nat) < pow2((l + 1 - sh) as nat));
            assert(l + 1 - sh <= prec) by {
                assert(sh >= l as i128 - (prec as i128 - 1));
            }
            if ((l + 1 - sh) as nat) < prec as nat {
                lemma_pow2_strictly_increases((l + 1 - sh) as nat, prec as nat);
            }
            assert((kept as nat) < pow2(prec as nat));
            assert(pow2(prec as nat) <= pow2(53));
        }
        let up = xrem > half || (xrem == half && (sticky || kept % 2 == 1));
        n0 = if up {
            kept + 1
        } else {
            kept
        };
        proof {
            assert(n0 as nat == rne(bigm, sh as int + t));
            assert(n0 as nat <= pow2(prec as nat));
        }
    }
    proof {
        assert(sh as int + t == q - elit);
    }
    // Carry out of an all-ones significand bumps the exponent.
    let pprec1 = pow2_u64(prec - 1);
    let nfin: u64;
    let qfin: i128;
    if n0 == 2 * pprec1 {
        nfin = pprec1;
        qfin = q + 1;
        proof {
            assert(pow2(prec as nat) == 2 * pow2((prec - 1) as nat)) by {
                lemma_pow2_unfold(prec as nat);
            }
        }
    } else {
        nfin = n0;
        qfin = q;
        proof {
            assert(pow2(prec as nat) == 2 * pow2((prec - 1) as nat)) by {
                lemma_pow2_unfold(prec as nat);
            }
        }
    }
    let sb: u64 = if neg {
        pow2_u64(prec - 1 + ebits)
    } else {
        0
    };
    proof {
        assert(sb as nat == (if neg { pow2((prec - 1 + ebits) as nat) } else { 0nat }));
    }
    proof {
        assert(pow2((prec + ebits) as nat) == (if prec == 24 { 0x100000000nat } else {
            0x10000000000000000nat
        })) by {
            lemma_pow2_facts();
        }
    }
    if nfin == 0 {
        proof {
            assert(assemble_bits(neg, 0, 0, prec as nat, ebits as nat) == sb as nat);
            assert((sb as nat) < pow2((prec + ebits) as nat));
        }
        Ok(sb)
    } else if nfin < pprec1 {
        proof {
            assert(assemble_bits(neg, 0, nfin as nat, prec as nat, ebits as nat) == sb as nat
                + nfin as nat);
            assert(((sb + nfin) as nat) < pow2((prec + ebits) as nat));
        }
        Ok(sb + nfin)
    } else {
        let biased: i128 = qfin + (prec as i128 - 1) + emax as i128;
        if biased > 2 * emax as i128 {
            return Err(ParseHexfError::Overflow);
        }
        proof {
            assert(biased >= 1);
            assert(biased <= 2046);
            assert(((nfin - pprec1) as nat) < pow2((prec - 1) as nat));
            assert((biased as u64) * pprec1 <= 2046 * pow2(52)) by {
                lemma_mul_inequality(biased as int, 2046, pprec1 as int);
            }
        }
        let bits = sb + (biased as u64) * pprec1 + (nfin - pprec1);
        proof {
            assert(assemble_bits(neg, biased as nat, (nfin - pprec1) as nat, prec as nat,
                ebits as nat) == bits as nat);
            assert((bits as nat) < pow2((prec + ebits) as nat));
        }
        Ok(bits)
    }
}

/// Extending a valid run prefix with a digit, or with a separator right
/// after a digit, keeps it valid.
proof fn lemma_run_prefix_push(s: Seq<char>, hex: bool, allow_underscore: bool, c: char)
    requires
        run_prefix_ok(s, hex, allow_underscore),
        is_digit(c, hex) || (c == '_' && allow_underscore && s.len() > 0 && is_digit(
            s[s.len() - 1],
            hex,
        )),
    ensures
        run_prefix_ok(s.push(c), hex, allow_underscore),
{
    let t = s.push(c);
    assert(forall|i: int| 0 <= i < s.len() ==> t[i] == #[trigger] s[i]);
    assert(t[s.len() as int] == c);
}

/// Appending one character to a run extends its digit characters.
proof fn lemma_digits_of_push(s: Seq<char>, c: char)
    ensures
        digits_of(s.push(c)) == (if c == '_' {
            digits_of(s)
        } else {
            digits_of(s).push(c)
        }),
{
    assert(s.push(c).drop_last() =~= s);
}

proof fn lemma_hex_value_push(ds: Seq<char>, c: char)
    ensures
        hex_value(ds.push(c)) == hex_value(ds) * 16 + hex_digit_val(c),
{
    assert(ds.push(c).drop_last() =~= ds);
}

proof fn lemma_dec_value_push(ds: Seq<char>, c: char)
    ensures
        dec_value(ds.push(c)) == dec_value(ds) * 10 + dec_digit_val(c),
{
    assert(ds.push(c).drop_last() =~= ds);
}

/// Exponent magnitudes saturate here; the cap exceeds any value a literal
/// whose digits fit in memory could need to distinguish.
const EXP_CAP: i128 = 0x10000000000000000000000000;

/// Turn a scanned literal's components into the final result: signed zero
/// for an all-zero significand, a decisive range error for a saturated
/// exponent, and the rounded encoding otherwise.
#[verifier::rlimit(100)]
fn finish_parse(
    Ghost(sv): Ghost<Seq<char>>,
    Ghost(allow_underscore): Ghost<bool>,
    neg: bool,
    mant: u64,
    dropped: u64,
    Ghost(rtail): Ghost<nat>,
    sticky: bool,
    eneg: bool,
    acc: i128,
    Ghost(edec): Ghost<nat>,
    fraccount: u64,
    prec: u64,
    emax: i64,
    ebits: u64,
) -> (r: Result<u64, ParseHexfError>)
    requires
        valid_target(prec, emax, ebits),
        literal_ok(sv, allow_underscore),
        literal_neg(sv) == neg,
        literal_mantissa(sv) == mant * pow2((4 * dropped) as nat) + rtail,
        rtail < pow2((4 * dropped) as nat),
        sticky == (rtail != 0),
        dropped > 0 ==> mant as nat >= pow2(60),
        literal_exp(sv) == (if eneg {
            -(edec as int)
        } else {
            edec as int
        }) - 4 * (fraccount as int),
        0 <= acc,
        acc as int <= edec,
        edec < EXP_CAP as int ==> acc as int == edec,
        edec >= EXP_CAP as int ==> acc >= EXP_CAP,
    ensures
        result_matches(r, spec_parse(sv, allow_underscore, prec as nat, emax as int,
            ebits as nat)),
        r matches Ok(rb) ==> (rb as nat) < pow2((prec + ebits) as nat),
{
    // All-zero mantissa digits denote signed zero, whatever the exponent.
    if mant == 0 {
        proof {
            lemma_pow2_facts();
            assert(dropped == 0);
            assert(pow2(0) == 1);
            assert(literal_mantissa(sv) == 0);
            if prec == 24 {
                lemma_pow2_adds(23, 8);
            } else {
                lemma_pow2_adds(52, 11);
            }
            lemma_pow2_strictly_increases((prec - 1 + ebits) as nat, (prec + ebits) as nat);
        }
        let sb: u64 = if neg {
            pow2_u64(prec - 1 + ebits)
        } else {
            0
        };
        proof {
            assert(sb as nat == assemble_bits(neg, 0, 0, prec as nat, ebits as nat));
        }
        return Ok(sb);
    }
    proof {
        lemma_pow2_facts();
        assert(literal_mantissa(sv) >= 1) by {
            lemma_pow2_facts();
            lemma_pow2_pos((4 * dropped) as nat);
            lemma_mul_inequality(1, mant as int, pow2((4 * dropped) as nat) as int);
        }
        lemma_log2_lt(mant as nat, 64);
        lemma_log2_scale(mant as nat, (4 * dropped) as nat, rtail);
        assert(log2(literal_mantissa(sv)) == log2(mant as nat) + 4 * dropped);
        assert(log2(mant as nat) <= 63);
    }
    // A saturated exponent is decisively out of range either way.
    if acc >= EXP_CAP {
        proof {
            assert(edec >= EXP_CAP as int);
            assert(fraccount <= 0xffffffffffffffff);
            assert(dropped <= 0xffffffffffffffff);
        }
        if eneg {
            proof {
                assert(literal_exp(sv) <= -EXP_CAP);
                assert(literal_exp(sv) + log2(literal_mantissa(sv)) < 2 - (emax as int) - (
                prec as int) - 1);
            }
            return Err(ParseHexfError::Underflow);
        } else {
            proof {
                assert(literal_exp(sv) >= EXP_CAP - 4 * 0xffffffffffffffff);
                lemma_round_overflow(neg, literal_mantissa(sv), literal_exp(sv), prec as nat,
                    emax as int, ebits as nat);
            }
            return Err(ParseHexfError::Overflow);
        }
    }
    proof {
        assert(edec < EXP_CAP as int);
        assert(acc as int == edec);
    }
    let elit: i128 = (if eneg {
        -acc
    } else {
        acc
    }) - 4 * (fraccount as i128);
    proof {
        assert(elit as int == literal_exp(sv));
    }
    let r = encode_rounded(neg, mant, dropped, Ghost(rtail), sticky, elit, prec, emax, ebits);
    r
}

/// Scan the exponent region (after the `p`) and finish the parse.
#[verifier::rlimit(100)]
#[verifier::spinoff_prover]
fn parse_expo_and_finish(
    s: &str,
    allow_underscore: bool,
    ustart: usize,
    jp: usize,
    neg: bool,
    mant: u64,
    dropped: usize,
    Ghost(rtail): Ghost<nat>,
    sticky: bool,
    fraccount: usize,
    prec: u64,
    emax: i64,
    ebits: u64,
) -> (r: Result<u64, ParseHexfError>)
    requires
        valid_target(prec, emax, ebits),
        2 <= ustart <= jp < s@.len(),
        body_of(s@) == s@.skip(ustart as int),
        find_char(body_of(s@), 'p') == jp - ustart,
        literal_neg(s@) == neg,
        literal_ok(s@, allow_underscore) == (mant_ok(mant_of(s@), allow_underscore) && expo_ok(
            expo_of(s@),
            allow_underscore,
        )),
        mant_ok(mant_of(s@), allow_underscore),
        literal_mantissa(s@) == mant * pow2((4 * dropped) as nat) + rtail,
        rtail < pow2((4 * dropped) as nat),
        sticky == (rtail != 0),
        dropped > 0 ==> mant as nat >= pow2(60),
        fraccount as nat == mant_frac_digits(mant_of(s@)).len(),
    ensures
        result_matches(r, spec_parse(s@, allow_underscore, prec as nat, emax as int,
            ebits as nat)),
        r matches Ok(rb) ==> (rb as nat) < pow2((prec + ebits) as nat),
{
    let ghost sv = s@;
    let slen = s.unicode_len();
    let ghost u = sv.skip(ustart as int);
    let ghost jpu = jp - ustart;
    let ghost mreg = u.take(jpu as int);
    let ghost ereg = u.skip(jpu as int + 1);
    proof {
        assert(mant_of(sv) == mreg);
        assert(expo_of(sv) == ereg);
        assert(forall|k: int| 0 <= k < u.len() ==> #[trigger] u[k] == sv[ustart + k]);
    }
    // Exponent: optional sign, then a decimal run.
    let mut eneg = false;
    let mut estart = jp + 1;
    if jp + 1 < slen {
        let c = s.get_char(jp + 1);
        if c == '-' {
            eneg = true;
            estart = jp + 2;
        } else if c == '+' {
            estart = jp + 2;
        }
    }
    let ghost edreg = u.subrange(estart - ustart, u.len() as int);
    proof {
        if jp + 1 < slen {
            assert(ereg[0] == sv[jp + 1]);
        }
        assert(expo_digits_part(ereg) =~= edreg);
        assert(expo_neg(ereg) == eneg);
        assert(forall|k: int| 0 <= k < edreg.len() ==> #[trigger] edreg[k] == sv[estart + k]);
    }
    let mut acc: i128 = 0;
    let ghost mut eseq: Seq<char> = Seq::<char>::empty();
    let mut elast_digit = false;
    let mut elast_under = false;
    let mut j2 = estart;
    while j2 < slen
        invariant
            sv == s@,
            ustart <= jp < estart <= j2 <= slen,
            estart <= jp + 2,
            slen == sv.len(),
            u == sv.skip(ustart as int),
            jpu == jp - ustart,
            mreg == u.take(jpu as int),
            ereg == u.skip(jpu as int + 1),
            edreg == u.subrange(estart - ustart, u.len() as int),
            mant_of(sv) == mreg,
            expo_of(sv) == ereg,
            literal_neg(sv) == neg,
            expo_digits_part(ereg) == edreg,
            expo_neg(ereg) == eneg,
            literal_ok(sv, allow_underscore) == (mant_ok(mreg, allow_underscore) && expo_ok(ereg,
                allow_underscore)),
            mant_ok(mreg, allow_underscore),
            forall|k: int| 0 <= k < edreg.len() ==> #[trigger] edreg[k] == sv[estart + k],
            // carried mantissa results
            literal_mantissa(sv) == mant * pow2((4 * dropped) as nat) + rtail,
            rtail < pow2((4 * dropped) as nat),
            sticky == (rtail != 0),
            dropped > 0 ==> mant as nat >= pow2(60),
            fraccount as nat == mant_frac_digits(mreg).len(),
            // exponent scan state
            run_prefix_ok(edreg.take(j2 - estart), false, allow_underscore),
            elast_digit == (j2 > estart && is_dec_digit(edreg[j2 - estart - 1])),
            elast_under == (j2 > estart && edreg[j2 - estart - 1] == '_'),
            eseq == digits_of(edreg.take(j2 - estart)),
            0 <= acc < 0x100000000000000000000000000000,
            acc as int <= dec_value(eseq),
            dec_value(eseq) < EXP_CAP ==> acc as int == dec_value(eseq),
            dec_value(eseq) >= EXP_CAP ==> acc >= EXP_CAP,
        decreases slen - j2,
    {
        let ghost ek = j2 - estart;
        let c = s.get_char(j2);
        proof {
            assert(c == edreg[ek]);
            assert(edreg.take(ek + 1) =~= edreg.take(ek).push(c));
        }
        match dec_digit_of(c) {
            Some(d) => {
                proof {
                    lemma_run_prefix_push(edreg.take(ek), false, allow_underscore, c);
                    lemma_digits_of_push(edreg.take(ek), c);
                    lemma_dec_value_push(eseq, c);
                    eseq = eseq.push(c);
                }
                if acc < EXP_CAP {
                    acc = acc * 10 + d as i128;
                }
                elast_digit = true;
                elast_under = false;
            },
            None => {
                if c == '_' && allow_underscore && elast_digit {
                    proof {
                        lemma_run_prefix_push(edreg.take(ek), false, allow_underscore, c);
                        lemma_digits_of_push(edreg.take(ek), c);
                    }
                    elast_digit = false;
                    elast_under = true;
                } else {
                    proof {
                        assert(edreg.len() > 0);
                        if c == '_' && !allow_underscore {
                            assert(!run_ok(edreg, false, allow_underscore));
                        } else if c == '_' {
                            // a separator at a run start or after another
                            if ek == 0 {
                                assert(!is_dec_digit(edreg[0]));
                                assert(!run_ok(edreg, false, allow_underscore));
                            } else {
                                assert(edreg[ek - 1] == '_');
                                assert(!run_ok(edreg, false, allow_underscore));
                            }
                        } else {
                            assert(!is_dec_digit(edreg[ek]) && edreg[ek] != '_');
                            assert(!run_ok(edreg, false, allow_underscore));
                        }
                        assert(!expo_ok(ereg, allow_underscore));
                    }
                    return Err(ParseHexfError::MalformedLiteral);
                }
            },
        }
        j2 = j2 + 1;
    }
    if estart == slen || elast_under {
        proof {
            if estart == slen {
                assert(edreg.len() == 0);
                assert(!run_ok(edreg, false, allow_underscore));
            } else {
                assert(edreg[edreg.len() - 1] == '_');
                assert(!run_ok(edreg, false, allow_underscore));
            }
            assert(!expo_ok(ereg, allow_underscore));
        }
        return Err(ParseHexfError::MalformedLiteral);
    }
    proof {
        assert(edreg.take(edreg.len() as int) =~= edreg);
        assert(is_dec_digit(edreg[edreg.len() - 1]) || edreg[edreg.len() - 1] == '_');
        assert(run_ok(edreg, false, allow_underscore));
        assert(expo_ok(ereg, allow_underscore));
        assert(literal_ok(sv, allow_underscore));
        assert(eseq == digits_of(edreg));
        assert(expo_value(ereg) == (if eneg {
            -(dec_value(eseq) as int)
        } else {
            dec_value(eseq) as int
        }));
        assert(literal_exp(sv) == expo_value(ereg) - 4 * (fraccount as int));
    }
    proof {
        assert(literal_mantissa(sv) == mant * pow2((4 * (dropped as u64)) as nat) + rtail);
    }
    finish_parse(Ghost(sv), Ghost(allow_underscore), neg, mant, dropped as u64, Ghost(rtail),
        sticky, eneg, acc, Ghost(dec_value(eseq)), fraccount as u64, prec, emax, ebits)
}

/// Scan one literal and round it for the given target.
#[verifier::rlimit(100)]
#[verifier::spinoff_prover]
fn parse_hexf_core(s: &str, allow_underscore: bool, prec: u64, emax: i64, ebits: u64) -> (r:
    Result<u64, ParseHexfError>)
    requires
        valid_target(prec, emax, ebits),
    ensures
        result_matches(r, spec_parse(s@, allow_underscore, prec as nat, emax as int,
            ebits as nat)),
        r matches Ok(rb) ==> (rb as nat) < pow2((prec + ebits) as nat),
{
    let ghost sv = s@;
    let slen = s.unicode_len();
    // Sign.
    let mut start: usize = 0;
    let mut neg = false;
    if slen > 0 {
        let c = s.get_char(0);
        if c == '-' {
            neg = true;
            start = 1;
        } else if c == '+' {
            start = 1;
        }
    }
    proof {
        assert(after_sign(sv) =~= sv.skip(start as int));
        assert(literal_neg(sv) == neg);
    }
    // "0x" prefix.
    if slen < start + 2 {
        proof {
            assert(after_sign(sv).len() < 2);
            assert(!literal_ok(sv, allow_underscore));
        }
        return Err(ParseHexfError::MalformedLiteral);
    }
    let c0 = s.get_char(start);
    let c1 = s.get_char(start + 1);
    if !(c0 == '0' && c1 == 'x') {
        proof {
            assert(after_sign(sv)[0] == sv[start as int]);
            assert(after_sign(sv)[1] == sv[start as int + 1]);
            assert(!literal_ok(sv, allow_underscore));
        }
        return Err(ParseHexfError::MalformedLiteral);
    }
    let ustart = start + 2;
    let ghost u = sv.skip(ustart as int);
    proof {
        assert(u =~= body_of(sv));
        assert(forall|k: int| 0 <= k < u.len() ==> #[trigger] u[k] == sv[ustart + k]);
        assert(after_sign(sv).len() >= 2 && after_sign(sv)[0] == '0' && after_sign(sv)[1] == 'x');
    }
    // Find the exponent marker.
    let mut jp = ustart;
    let mut found = false;
    while jp < slen && !found
        invariant
            sv == s@,
            ustart <= jp <= slen,
            slen == sv.len(),
            ustart <= 3,
            u == sv.skip(ustart as int),
            forall|k: int| ustart <= k < jp ==> sv[k] != 'p',
            found ==> jp < slen && sv[jp as int] == 'p',
        decreases slen - jp, (if found { 0int } else { 1int }),
    {
        let c = s.get_char(jp);
        if c == 'p' {
            found = true;
        } else {
            jp = jp + 1;
        }
    }
    if !found {
        proof {
            assert(forall|k: int| 0 <= k < u.len() ==> #[trigger] u[k] != 'p');
            lemma_find_char_none(u, 'p');
            assert(!literal_ok(sv, allow_underscore));
        }
        return Err(ParseHexfError::MalformedLiteral);
    }
    let ghost jpu = jp - ustart;
    let ghost mreg = u.take(jpu as int);
    let ghost ereg = u.skip(jpu as int + 1);
    proof {
        assert(u[jpu] == 'p');
        assert(forall|k: int| 0 <= k < jpu ==> #[trigger] u[k] != 'p');
        lemma_find_char_is(u, 'p', jpu);
        assert(mant_of(sv) == mreg);
        assert(expo_of(sv) == ereg);
        assert(literal_ok(sv, allow_underscore) == (mant_ok(mreg, allow_underscore) && expo_ok(
            ereg,
            allow_underscore,
        )));
        assert(forall|k: int| 0 <= k < mreg.len() ==> #[trigger] mreg[k] == u[k]);
        lemma2_to64();
    }
    // Mantissa: accumulate the significand, saturating into a sticky tail.
    let mut mant: u64 = 0;
    let mut dropped: usize = 0;
    let ghost mut rtail: nat = 0nat;
    let mut sticky = false;
    let mut seen_digit = false;
    let mut seen_dot = false;
    let ghost mut dotp: int = 0;
    let mut fraccount: usize = 0;
    let mut last_digit = false;
    let mut last_under = false;
    let ghost mut dseq: Seq<char> = Seq::<char>::empty();
    let mut j = ustart;
    while j < jp
        invariant
            sv == s@,
            ustart <= j <= jp < slen,
            slen == sv.len(),
            u == sv.skip(ustart as int),
            jpu == jp - ustart,
            0 <= jpu <= u.len(),
            mreg == u.take(jpu as int),
            ereg == u.skip(jpu as int + 1),
            mant_of(sv) == mreg,
            expo_of(sv) == ereg,
            literal_neg(sv) == neg,
            literal_ok(sv, allow_underscore) == (mant_ok(mreg, allow_underscore) && expo_ok(ereg,
                allow_underscore)),
            forall|k: int| 0 <= k < mreg.len() ==> #[trigger] mreg[k] == u[k],
            forall|k: int| 0 <= k < u.len() ==> #[trigger] u[k] == sv[ustart + k],
            seen_dot ==> 0 <= dotp < j - ustart && mreg[dotp] == '.' && (dotp == 0 || run_ok(
                mreg.take(dotp),
                true,
                allow_underscore,
            )) && run_prefix_ok(mreg.subrange(dotp + 1, j - ustart), true, allow_underscore) && (
            forall|k: int| 0 <= k < j - ustart && k != dotp ==> #[trigger] mreg[k] != '.'),
            !seen_dot ==> run_prefix_ok(mreg.take(j - ustart), true, allow_underscore) && (forall|
                k: int,
            | 0 <= k < j - ustart ==> #[trigger] mreg[k] != '.'),
            last_digit == (j > ustart && is_hex_digit(mreg[j - ustart - 1])),
            last_under == (j > ustart && mreg[j - ustart - 1] == '_'),
            seen_digit == (if seen_dot {
                dotp > 0 || j - ustart > dotp + 1
            } else {
                j > ustart
            }),
            fraccount as int <= j - ustart,
            dropped as int <= j - ustart,
            fraccount as nat == (if seen_dot {
                digits_of(mreg.subrange(dotp + 1, j - ustart)).len()
            } else {
                0nat
            }),
            dseq == (if seen_dot {
                digits_of(mreg.take(dotp)) + digits_of(mreg.subrange(dotp + 1, j - ustart))
            } else {
                digits_of(mreg.take(j - ustart))
            }),
            hex_value(dseq) == mant * pow2((4 * dropped) as nat) + rtail,
            rtail < pow2((4 * dropped) as nat),
            sticky == (rtail != 0),
            dropped > 0 ==> mant as nat >= pow2(60),
        decreases jp - j,
    {
        let ghost mj = j - ustart;
        let c = s.get_char(j);
        proof {
            lemma_pow2_facts();
            assert(c == mreg[mj]);
            assert(mreg.take(mj + 1) =~= mreg.take(mj).push(c));
            if seen_dot {
                assert(mreg.subrange(dotp + 1, mj + 1) =~= mreg.subrange(dotp + 1, mj).push(c));
            }
        }
        match hex_digit_of(c) {
            Some(d) => {
                proof {
                    if seen_dot {
                        lemma_run_prefix_push(mreg.subrange(dotp + 1, mj), true, allow_underscore,
                            c);
                        lemma_digits_of_push(mreg.subrange(dotp + 1, mj), c);
                    } else {
                        lemma_run_prefix_push(mreg.take(mj), true, allow_underscore, c);
                        lemma_digits_of_push(mreg.take(mj), c);
                    }
                    lemma_hex_value_push(dseq, c);
                }
                if mant < 0x1000000000000000 {
                    proof {
                        assert(dropped == 0);
                        assert(pow2(0) == 1);
                        assert(rtail == 0);
                        assert(hex_value(dseq) == mant);
                    }
                    mant = mant * 16 + d as u64;
                } else {
                    proof {
                        assert(mant as nat >= pow2(60));
                        let pt = pow2((4 * dropped) as nat);
                        lemma_pow2_adds((4 * dropped) as nat, 4);
                        assert(pow2((4 * (dropped + 1)) as nat) == pt * 16);
                        assert((mant * pt + rtail) * 16 + hex_digit_val(c) == mant * (pt * 16) + (
                        16 * rtail + hex_digit_val(c))) by (nonlinear_arith);
                        assert(16 * rtail + hex_digit_val(c) < pt * 16);
                        rtail = (16 * rtail + hex_digit_val(c)) as nat;
                    }
                    dropped = dropped + 1;
                    sticky = sticky || d > 0;
                }
                proof {
                    dseq = dseq.push(c);
                }
                if seen_dot {
                    fraccount = fraccount + 1;
                }
                seen_digit = true;
                last_digit = true;
                last_under = false;
            },
            None => {
                if c == '_' {
                    if !allow_underscore {
                        proof {
                            lemma_mant_underscore_disallowed(mreg, mj);
                        }
                        return Err(ParseHexfError::MalformedLiteral);
                    }
                    if !last_digit {
                        proof {
                            if mj == 0 {
                                lemma_mant_underscore_at_run_start(mreg, allow_underscore, mj);
                            } else if mreg[mj - 1] == '.' {
                                lemma_mant_underscore_at_run_start(mreg, allow_underscore, mj);
                            } else {
                                assert(mreg[mj - 1] == '_');
                                lemma_mant_underscore_no_digit_after(mreg, allow_underscore,
                                    mj - 1);
                            }
                        }
                        return Err(ParseHexfError::MalformedLiteral);
                    }
                    proof {
                        if seen_dot {
                            lemma_run_prefix_push(mreg.subrange(dotp + 1, mj), true,
                                allow_underscore, c);
                            lemma_digits_of_push(mreg.subrange(dotp + 1, mj), c);
                        } else {
                            lemma_run_prefix_push(mreg.take(mj), true, allow_underscore, c);
                            lemma_digits_of_push(mreg.take(mj), c);
                        }
                    }
                    last_digit = false;
                    last_under = true;
                } else if c == '.' {
                    if seen_dot {
                        proof {
                            lemma_mant_two_dots(mreg, allow_underscore, dotp, mj);
                        }
                        return Err(ParseHexfError::MalformedLiteral);
                    }
                    if last_under {
                        proof {
                            lemma_mant_underscore_no_digit_after(mreg, allow_underscore, mj - 1);
                        }
                        return Err(ParseHexfError::MalformedLiteral);
                    }
                    proof {
                        // The integer part is complete; if nonempty it ends
                        // in a digit.
                        if mj > 0 {
                            assert(is_hex_digit(mreg[mj - 1]) || mreg[mj - 1] == '_');
                            assert(run_ok(mreg.take(mj), true, allow_underscore));
                        }
                        assert(mreg.subrange(mj + 1, mj + 1) =~= Seq::<char>::empty());
                        assert(digits_of(mreg.take(mj)) + digits_of(mreg.subrange(mj + 1, mj + 1))
                            =~= digits_of(mreg.take(mj)));
                        dotp = mj;
                    }
                    seen_dot = true;
                    last_digit = false;
                    last_under = false;
                } else {
                    proof {
                        lemma_mant_bad_char(mreg, allow_underscore, mj);
                    }
                    return Err(ParseHexfError::MalformedLiteral);
                }
            },
        }
        j = j + 1;
    }
    // End of mantissa region.
    if last_under {
        proof {
            lemma_mant_underscore_no_digit_after(mreg, allow_underscore, jpu - 1);
        }
        return Err(ParseHexfError::MalformedLiteral);
    }
    if !seen_digit {
        proof {
            if !seen_dot {
                assert(mreg.len() == 0);
                lemma_find_char_none(mreg, '.');
                assert(!run_ok(mreg, true, allow_underscore));
            } else {
                assert(dotp == 0 && jpu == 1);
                lemma_find_char_is(mreg, '.', 0);
                assert(mreg.take(0).len() == 0);
                assert(mreg.skip(1).len() == 0);
                assert(!run_ok(mreg.skip(1), true, allow_underscore));
            }
            assert(!mant_ok(mreg, allow_underscore));
        }
        return Err(ParseHexfError::MalformedLiteral);
    }
    proof {
        // The mantissa region is well formed; identify its digits and value.
        if !seen_dot {
            lemma_find_char_none(mreg, '.');
            assert(mreg.take(jpu as int) =~= mreg);
            assert(is_hex_digit(mreg[jpu - 1]) || mreg[jpu - 1] == '_');
            assert(run_ok(mreg, true, allow_underscore));
            assert(mant_ok(mreg, allow_underscore));
            assert(mant_int_digits(mreg) == digits_of(mreg));
            assert(mant_frac_digits(mreg) == Seq::<char>::empty());
            assert(digits_of(mreg) + Seq::<char>::empty() =~= digits_of(mreg));
            assert(dseq == mant_int_digits(mreg) + mant_frac_digits(mreg));
            assert(fraccount as nat == mant_frac_digits(mreg).len());
        } else {
            lemma_find_char_is(mreg, '.', dotp);
            let fp = mreg.skip(dotp + 1);
            assert(fp =~= mreg.subrange(dotp + 1, jpu as int));
            if dotp == 0 {
                assert(jpu > dotp + 1);
                assert(fp.len() > 0);
                assert(is_hex_digit(fp[fp.len() - 1]) || fp[fp.len() - 1] == '_');
                assert(run_ok(fp, true, allow_underscore));
            } else {
                if fp.len() > 0 {
                    assert(is_hex_digit(fp[fp.len() - 1]) || fp[fp.len() - 1] == '_');
                    assert(run_ok(fp, true, allow_underscore));
                }
            }
            assert(mant_ok(mreg, allow_underscore));
            assert(mant_int_digits(mreg) == digits_of(mreg.take(dotp)));
            assert(mant_frac_digits(mreg) == digits_of(fp));
            assert(dseq == mant_int_digits(mreg) + mant_frac_digits(mreg));
            assert(fraccount as nat == mant_frac_digits(mreg).len());
        }
        assert(literal_mantissa(sv) == hex_value(dseq));
    }
    proof {
        assert(literal_mantissa(sv) == hex_value(dseq));
    }
    parse_expo_and_finish(s, allow_underscore, ustart, jp, neg, mant, dropped, Ghost(rtail),
        sticky, fraccount, prec, emax, ebits)
}

/// Parse a hexadecimal float literal into the bit pattern of the binary32
/// value it denotes: grammar errors, overflow and underflow are reported,
/// and excess mantissa bits round to nearest, ties to even.
pub fn parse_hexf32(s: &str, allow_underscore: bool) -> (r: Result<u32, ParseHexfError>)
    ensures
        r == spec_parse_hexf32(s@, allow_underscore),
{
    match parse_hexf_core(s, allow_underscore, 24, 127, 8) {
        Ok(b) => {
            proof {
                lemma_pow2_facts();
            }
            Ok(b as u32)
        },
        Err(e) => Err(e),
    }
}

/// Parse a hexadecimal float literal into the bit pattern of the binary64
/// value it denotes: grammar errors, overflow and underflow are reported,
/// and excess mantissa bits round to nearest, ties to even.
pub fn parse_hexf64(s: &str, allow_underscore: bool) -> (r: Result<u64, ParseHexfError>)
    ensures
        r == spec_parse_hexf64(s@, allow_underscore),
{
    parse_hexf_core(s, allow_underscore, 53, 1023, 11)
}

/// Parsing for binary32: 24 significand bits, `emax` 127, 8 exponent bits.
pub open spec fn spec_parse_hexf32(s: Seq<char>, allow_underscore: bool)
    -> Result<u32, ParseHexfError> {
    match spec_parse(s, allow_underscore, 24, 127, 8) {
        Ok(n) => Ok(n as u32),
        Err(e) => Err(e),
    }
}

/// Parsing for binary64: 53 significand bits, `emax` 1023, 11 exponent bits.
pub open spec fn spec_parse_hexf64(s: Seq<char>, allow_underscore: bool)
    -> Result<u64, ParseHexfError> {
    match spec_parse(s, allow_underscore, 53, 1023, 11) {
        Ok(n) => Ok(n as u64),
        Err(e) => Err(e),
    }
}

} // verus!
