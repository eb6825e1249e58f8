//! Round-trip: re-parsing the canonical text of any finite bit pattern
//! yields that pattern back, exactly, including the sign of zero.

use crate::chars::{hex_digit_char, hex_digit_val, dec_digit_val, is_dec_digit, is_hex_digit};
use crate::format::{
    dec_chars, exp_chars, finite_chars, hex_fixed, sign_chars, spec_hexf32, spec_hexf64,
    zero_chars,
};
use crate::parse::{
    after_sign, assemble_bits, dec_value, digits_of, expo_digits_part, expo_neg, expo_ok,
    expo_value, hex_value, lemma_find_char_is, literal_exp, literal_mantissa, literal_neg,
    literal_ok, mant_frac_digits, mant_int_digits, mant_ok, mant_of, expo_of, round_to_bits,
    run_ok, spec_parse, spec_parse_hexf32, spec_parse_hexf64, ParseHexfError,
};
use crate::rounding::{log2, rne, lemma_log2_unique};
use vstd::arithmetic::div_mod::{
    lemma_div_by_multiple, lemma_fundamental_div_mod, lemma_mod_multiples_basic,
};
use vstd::arithmetic::power2::{
    lemma2_to64, lemma_pow2_adds, lemma_pow2_pos, lemma_pow2_strictly_increases, pow2,
};
use vstd::prelude::*;

verus! {

/// The sixteen digit characters: their class, their value, and what they
/// are not.
proof fn lemma_hex_digit_char_props(v: nat)
    requires
        v < 16,
    ensures
        is_hex_digit(hex_digit_char(v)),
        hex_digit_val(hex_digit_char(v)) == v,
        hex_digit_char(v) != '_',
        hex_digit_char(v) != '.',
        hex_digit_char(v) != 'p',
        v < 10 ==> is_dec_digit(hex_digit_char(v)) && dec_digit_val(hex_digit_char(v)) == v,
{
}

/// A fixed-width hex rendering: `w` digit characters denoting exactly `v`.
proof fn lemma_hex_fixed_props(v: nat, w: nat)
    requires
        v < pow2(4 * w),
    ensures
        hex_fixed(v, w).len() == w,
        forall|i: int| 0 <= i < w ==> is_hex_digit(#[trigger] hex_fixed(v, w)[i]),
        forall|i: int| 0 <= i < w ==> #[trigger] hex_fixed(v, w)[i] != '_' && hex_fixed(v, w)[i]
            != 'p' && hex_fixed(v, w)[i] != '.',
        digits_of(hex_fixed(v, w)) == hex_fixed(v, w),
        hex_value(hex_fixed(v, w)) == v,
    decreases w,
{
    if w == 0 {
        assert(pow2(0) == 1) by {
            lemma2_to64();
        }
        assert(hex_fixed(v, 0) =~= Seq::<char>::empty());
    } else {
        let s = hex_fixed(v, w);
        let s0 = hex_fixed(v / 16, (w - 1) as nat);
        assert(v / 16 < pow2(4 * (w - 1) as nat)) by {
            lemma_pow2_adds(4 * (w - 1) as nat, 4);
            lemma2_to64();
            vstd::arithmetic::div_mod::lemma_multiply_divide_lt(v as int, 16,
                pow2(4 * (w - 1) as nat) as int);
        }
        lemma_hex_fixed_props(v / 16, (w - 1) as nat);
        lemma_hex_digit_char_props(v % 16);
        assert(s == s0.push(hex_digit_char(v % 16)));
        assert(forall|i: int| 0 <= i < w - 1 ==> #[trigger] s[i] == s0[i]);
        assert(s.drop_last() =~= s0);
        assert(digits_of(s) == digits_of(s0).push(s.last()));
        assert(hex_value(s) == hex_value(s0) * 16 + hex_digit_val(s.last()));
        lemma_fundamental_div_mod(v as int, 16);
    }
}

/// A decimal rendering: at least one digit character, denoting exactly `n`.
proof fn lemma_dec_chars_props(n: nat)
    ensures
        dec_chars(n).len() >= 1,
        forall|i: int| 0 <= i < dec_chars(n).len() ==> is_dec_digit(#[trigger] dec_chars(n)[i]),
        forall|i: int| 0 <= i < dec_chars(n).len() ==> #[trigger] dec_chars(n)[i] != '_',
        digits_of(dec_chars(n)) == dec_chars(n),
        dec_value(dec_chars(n)) == n,
    decreases n,
{
    if n < 10 {
        lemma_hex_digit_char_props(n);
        let s = dec_chars(n);
        assert(s.len() == 1 && s.last() == hex_digit_char(n));
        assert(s.drop_last() =~= Seq::<char>::empty());
        assert(dec_value(Seq::<char>::empty()) == 0);
        assert(dec_value(s) == dec_value(s.drop_last()) * 10 + dec_digit_val(s.last()));
        assert(dec_value(s) == n);
        assert(digits_of(s) == digits_of(Seq::<char>::empty()).push(s.last()));
        assert(digits_of(s) =~= s);
    } else {
        let s = dec_chars(n);
        let s0 = dec_chars(n / 10);
        lemma_dec_chars_props(n / 10);
        lemma_hex_digit_char_props(n % 10);
        assert(s == s0.push(hex_digit_char(n % 10)));
        assert(forall|i: int| 0 <= i < s0.len() ==> #[trigger] s[i] == s0[i]);
        assert(s.drop_last() =~= s0);
        assert(digits_of(s) == digits_of(s0).push(s.last()));
        assert(dec_value(s) == dec_value(s0) * 10 + dec_digit_val(s.last()));
        lemma_fundamental_div_mod(n as int, 10);
    }
}

/// Reading digits after a leading digit scales its weight by the tail's
/// width.
proof fn lemma_hex_value_prepend(c: char, ds: Seq<char>)
    ensures
        hex_value(seq![c] + ds) == hex_digit_val(c) * pow2(4 * ds.len()) + hex_value(ds),
    decreases ds.len(),
{
    let s = seq![c] + ds;
    if ds.len() == 0 {
        assert(s =~= seq![c]);
        assert(s.len() == 1 && s.last() == c);
        assert(s.drop_last() =~= Seq::<char>::empty());
        assert(hex_value(Seq::<char>::empty()) == 0);
        assert(hex_value(s) == hex_value(s.drop_last()) * 16 + hex_digit_val(s.last()));
        assert(hex_value(s) == hex_digit_val(c));
        assert(pow2(0) == 1) by {
            lemma2_to64();
        }
        assert(hex_value(ds) == 0);
        assert(hex_digit_val(c) * 1 + 0 == hex_digit_val(c)) by (nonlinear_arith);
        assert(hex_value(s) == hex_digit_val(c) * pow2(4 * ds.len()) + hex_value(ds));
    } else {
        lemma_hex_value_prepend(c, ds.drop_last());
        assert(s.drop_last() =~= seq![c] + ds.drop_last());
        assert(s.last() == ds.last());
        assert(hex_value(s) == hex_value(seq![c] + ds.drop_last()) * 16 + hex_digit_val(
            ds.last()));
        assert(hex_value(ds) == hex_value(ds.drop_last()) * 16 + hex_digit_val(ds.last()));
        let wl = ds.len() - 1;
        lemma_pow2_adds(4 * wl as nat, 4);
        lemma2_to64();
        assert(pow2(4 * ds.len()) == pow2(4 * wl as nat) * 16);
        assert((hex_digit_val(c) * pow2(4 * wl as nat) + hex_value(ds.drop_last())) * 16
            == hex_digit_val(c) * (pow2(4 * wl as nat) * 16) + hex_value(ds.drop_last()) * 16)
            by (nonlinear_arith);
        assert(hex_value(s) == hex_digit_val(c) * pow2(4 * ds.len()) + hex_value(ds));
    }
}

/// Rounding an exactly scaled significand returns it unchanged.
proof fn lemma_rne_exact(m0: nat, k: nat)
    ensures
        rne(m0 * pow2(k), k as int) == m0,
{
    lemma_pow2_pos(k);
    if k == 0 {
        assert(pow2(0) == 1) by {
            lemma2_to64();
        }
        assert(rne(m0 * pow2(0), 0) == (m0 * pow2(0)) * pow2(0));
        assert((m0 * 1) * 1 == m0) by (nonlinear_arith);
    } else {
        let p = pow2(k);
        lemma_div_by_multiple(m0 as int, p as int);
        lemma_mod_multiples_basic(m0 as int, p as int);
        assert((m0 * p) / p == m0);
        assert((m0 * p) % p == 0);
        assert(rne(m0 * p, k as int) == m0);
    }
}

/// Rounding a value that is already exactly representable gives back its
/// very encoding: the significand passes through and the exponent selects
/// the stored field.
proof fn lemma_round_exact(neg: bool, m0: nat, q0: int, k: nat, prec: nat, emax: int, ebits: nat)
    requires
        2 <= prec,
        1 <= emax,
        ({
            let qmin = 2 - emax - prec;
            (pow2((prec - 1) as nat) <= m0 < pow2(prec) && qmin <= q0 <= emax - (prec - 1)) || (0
                < m0 < pow2((prec - 1) as nat) && q0 == qmin)
        }),
    ensures
        round_to_bits(neg, m0 * pow2(k), q0 - k, prec, emax, ebits) == Ok::<nat, ParseHexfError>(
            if m0 >= pow2((prec - 1) as nat) {
                assemble_bits(neg, (q0 + (prec - 1) + emax) as nat,
                    (m0 - pow2((prec - 1) as nat)) as nat, prec, ebits)
            } else {
                assemble_bits(neg, 0, m0, prec, ebits)
            },
        ),
{
    let qmin = 2 - emax - prec;
    let bigm = m0 * pow2(k);
    lemma_pow2_pos(k);
    lemma_pow2_pos((prec - 1) as nat);
    crate::rounding::lemma_log2_scale(m0, k, 0);
    assert(bigm == m0 * pow2(k) + 0);
    assert(log2(bigm) == log2(m0) + k);
    let lm = log2(m0);
    let e = q0 - k;
    let ereal = e + log2(bigm);
    assert(ereal == q0 + lm);
    lemma_rne_exact(m0, k);
    if m0 >= pow2((prec - 1) as nat) {
        lemma_log2_unique(m0, (prec - 1) as nat);
        assert(lm == prec - 1);
        assert(ereal == q0 + prec - 1);
        assert(ereal >= qmin - 1);
        assert(ereal - (prec - 1) == q0);
        assert(q0 >= qmin);
        assert(rne(bigm, q0 - e) == m0);
        assert(m0 != pow2(prec));
        assert(q0 + (prec - 1) + emax <= 2 * emax);
        assert(q0 + (prec - 1) + emax >= qmin + prec - 1 + emax == 1);
    } else {
        crate::rounding::lemma_log2_lt(m0, (prec - 1) as nat);
        assert(lm < prec - 1);
        assert(ereal == qmin + lm);
        assert(ereal >= qmin - 1);
        assert(ereal - (prec - 1) < qmin);
        assert(rne(bigm, qmin - e) == m0);
        lemma_pow2_strictly_increases((prec - 1) as nat, prec);
        assert(m0 != pow2(prec));
        assert(m0 != 0 && m0 < pow2((prec - 1) as nat));
    }
}

/// An IEEE-754 bit pattern is its three fields laid side by side: `a` is
/// the weight of the exponent field, `b` the count of its values.
proof fn lemma_bits_split(x: nat, a: nat, b: nat)
    requires
        0 < a,
        0 < b,
        x < 2 * (a * b),
    ensures
        x == (if x >= a * b {
            a * b
        } else {
            0nat
        }) + ((x / a) % b) * a + x % a,
{
    let s = a * b;
    let hi = x / s;
    let r1 = x % s;
    lemma_fundamental_div_mod(x as int, s as int);
    assert(x == s * hi + r1);
    vstd::arithmetic::div_mod::lemma_multiply_divide_lt(x as int, s as int, 2);
    assert(hi < 2);
    if x >= s {
        vstd::arithmetic::div_mod::lemma_div_is_ordered(s as int, x as int, s as int);
        vstd::arithmetic::div_mod::lemma_div_by_self(s as int);
        assert(hi == 1);
        assert(s * 1 == s);
        assert(x == a * b + r1);
    } else {
        vstd::arithmetic::div_mod::lemma_basic_div(x as int, s as int);
        assert(hi == 0);
        assert(s * 0 == 0);
        assert(x == r1);
    }
    vstd::arithmetic::div_mod::lemma_multiply_divide_lt(r1 as int, a as int, b as int);
    assert(r1 / a < b);
    if x >= s {
        assert(x / a == b + r1 / a) by {
            vstd::arithmetic::div_mod::lemma_hoist_over_denominator(r1 as int, b as int, a);
            assert(r1 + b * a == x) by {
                assert(b * a == a * b);
            }
        }
        assert((x / a) % b == r1 / a) by {
            vstd::arithmetic::div_mod::lemma_mod_multiples_vanish(1, (r1 / a) as int, b as int);
            assert(b * 1 + r1 / a == x / a);
            vstd::arithmetic::div_mod::lemma_small_mod(r1 / a, b);
        }
        assert(x % a == r1 % a) by {
            vstd::arithmetic::div_mod::lemma_mod_multiples_vanish(b as int, r1 as int, a as int);
            assert(a * b + r1 == x);
        }
    } else {
        assert(x / a == r1 / a);
        assert((x / a) % b == r1 / a) by {
            vstd::arithmetic::div_mod::lemma_small_mod(r1 / a, b);
        }
        assert(x % a == r1 % a);
    }
    lemma_fundamental_div_mod(r1 as int, a as int);
    assert(r1 == a * (r1 / a) + r1 % a);
    assert(((x / a) % b) * a == a * (r1 / a));
}

/// The canonical finite text parses back into its printed components.
#[verifier::rlimit(100)]
#[verifier::spinoff_prover]
proof fn lemma_parse_finite(neg: bool, lead: nat, fracv: nat, w: nat, p: int,
    allow_underscore: bool)
    requires
        lead < 16,
        1 <= w,
        fracv < pow2(4 * w),
    ensures
        ({
            let s = sign_chars(neg) + finite_chars(lead, fracv, w, p);
            &&& literal_ok(s, allow_underscore)
            &&& literal_neg(s) == neg
            &&& literal_mantissa(s) == lead * pow2(4 * w) + fracv
            &&& literal_exp(s) == p - 4 * w
        }),
{
    let s = sign_chars(neg) + finite_chars(lead, fracv, w, p);
    let hf = hex_fixed(fracv, w);
    let ec = exp_chars(p);
    let dc = dec_chars(if p >= 0 {
        p as nat
    } else {
        (-p) as nat
    });
    lemma_hex_fixed_props(fracv, w);
    lemma_hex_digit_char_props(lead);
    lemma_dec_chars_props(if p >= 0 {
        p as nat
    } else {
        (-p) as nat
    });
    let unsigned = finite_chars(lead, fracv, w, p);
    assert(unsigned == seq!['0', 'x', hex_digit_char(lead), '.'] + hf + seq!['p'] + ec);
    assert(ec == (if p >= 0 {
        seq!['+']
    } else {
        seq!['-']
    }) + dc);
    assert(after_sign(s) =~= unsigned) by {
        if neg {
            assert(s[0] == '-');
        } else {
            assert(s =~= unsigned);
            assert(s[0] == '0');
        }
    }
    assert(literal_neg(s) == neg) by {
        if neg {
            assert(s[0] == '-');
        } else {
            assert(s[0] == '0');
        }
    }
    let u = crate::parse::body_of(s);
    let body = seq![hex_digit_char(lead), '.'] + hf + seq!['p'] + ec;
    assert(u =~= body);
    // the exponent marker sits right after the w fraction digits
    assert(body[2 + w as int] == 'p');
    assert(forall|k: int| 2 <= k < 2 + w ==> #[trigger] body[k] == hf[k - 2]);
    assert(forall|k: int| 0 <= k < 2 + w ==> body[k] != 'p');
    lemma_find_char_is(u, 'p', 2 + w as int);
    let mreg = u.take(2 + w as int);
    let ereg = u.skip(2 + w as int + 1);
    assert(mant_of(s) == mreg);
    assert(expo_of(s) == ereg);
    assert(mreg =~= seq![hex_digit_char(lead), '.'] + hf);
    assert(ereg =~= ec);
    // the mantissa splits at the dot into the lead digit and the fraction
    assert(mreg[1] == '.');
    assert(mreg[0] == hex_digit_char(lead));
    lemma_find_char_is(mreg, '.', 1);
    let ip = mreg.take(1);
    let fp = mreg.skip(2);
    assert(ip =~= seq![hex_digit_char(lead)]);
    assert(fp =~= hf);
    assert(run_ok(ip, true, allow_underscore));
    assert(run_ok(fp, true, allow_underscore));
    assert(mant_ok(mreg, allow_underscore));
    // the exponent region is a sign and a digit run
    assert(ereg[0] == (if p >= 0 {
        '+'
    } else {
        '-'
    }));
    assert(expo_digits_part(ereg) =~= dc);
    assert(run_ok(dc, false, allow_underscore));
    assert(expo_ok(ereg, allow_underscore));
    assert(expo_neg(ereg) == (p < 0));
    assert(expo_value(ereg) == p);
    assert(after_sign(s).len() >= 2 && after_sign(s)[0] == '0' && after_sign(s)[1] == 'x');
    assert(literal_ok(s, allow_underscore));
    // the significand and exponent recovered are the printed ones
    assert(digits_of(ip) =~= ip) by {
        assert(ip.drop_last() =~= Seq::<char>::empty());
        assert(digits_of(ip) == digits_of(Seq::<char>::empty()).push(ip.last()));
    }
    assert(mant_int_digits(mreg) == digits_of(ip));
    assert(mant_frac_digits(mreg) == digits_of(fp));
    assert(mant_int_digits(mreg) + mant_frac_digits(mreg) =~= seq![hex_digit_char(lead)] + hf);
    lemma_hex_value_prepend(hex_digit_char(lead), hf);
    assert(literal_mantissa(s) == lead * pow2(4 * w) + fracv);
    assert(mant_frac_digits(mreg).len() == w);
    assert(literal_exp(s) == p - 4 * w);
}

/// Round-trip for binary32: re-parsing the canonical text of any finite
/// bit pattern, with either separator setting, returns exactly that
/// pattern, the sign of zero included.
#[verifier::rlimit(100)]
#[verifier::spinoff_prover]
pub proof fn lemma_roundtrip_hexf32(bits: u32, allow_underscore: bool)
    requires
        (bits as nat / 0x800000) % 0x100 != 0xff,
    ensures
        spec_parse_hexf32(spec_hexf32(bits), allow_underscore) == Ok::<u32, ParseHexfError>(bits),
{
    crate::parse::lemma_pow2_facts();
    let neg = bits >= 0x80000000;
    let expf = (bits as nat / 0x800000) % 0x100;
    let frac = bits as nat % 0x800000;
    lemma_bits_split(bits as nat, 0x800000, 0x100);
    assert(bits as nat == (if neg {
        0x80000000nat
    } else {
        0nat
    }) + expf * 0x800000 + frac);
    lemma_pow2_adds(23, 8);
    if expf == 0 && frac == 0 {
        assert(hex_fixed(0, 0) =~= Seq::<char>::empty());
        assert(hex_fixed(0, 1) =~= seq![hex_digit_char(0)]);
        assert(hex_digit_char(0) == '0');
        assert(dec_chars(0) =~= seq!['0']);
        assert(exp_chars(0) =~= seq!['+', '0']);
        assert(zero_chars() =~= finite_chars(0, 0, 1, 0));
        lemma_parse_finite(neg, 0, 0, 1, 0, allow_underscore);
        let s = spec_hexf32(bits);
        assert(s == sign_chars(neg) + finite_chars(0, 0, 1, 0));
        assert(literal_mantissa(s) == 0);
        assert(spec_parse(s, allow_underscore, 24, 127, 8) == Ok::<nat, ParseHexfError>(
            assemble_bits(neg, 0, 0, 24, 8)));
        assert(assemble_bits(neg, 0, 0, 24, 8) == bits as nat);
    } else {
        let mant = if expf == 0 {
            frac
        } else {
            (frac + 0x800000) as nat
        };
        let e = if expf == 0 {
            -149int
        } else {
            expf as int - 150
        };
        let lead = mant / 0x800000;
        let fracv = (mant % 0x800000) * 2;
        let s = spec_hexf32(bits);
        assert(s == sign_chars(neg) + finite_chars(lead, fracv, 6, e + 23));
        assert(pow2(24) == 0x1000000);
        lemma_parse_finite(neg, lead, fracv, 6, e + 23, allow_underscore);
        assert(literal_mantissa(s) == lead * 0x1000000 + fracv);
        assert(literal_mantissa(s) == 2 * mant) by {
            lemma_fundamental_div_mod(mant as int, 0x800000);
        }
        assert(literal_exp(s) == e - 1);
        assert(2 * mant == mant * pow2(1)) by {
            lemma2_to64();
        }
        if expf == 0 {
            assert(0 < mant < 0x800000);
            lemma_round_exact(neg, mant, -149, 1, 24, 127, 8);
            assert(round_to_bits(neg, 2 * mant, e - 1, 24, 127, 8) == Ok::<nat, ParseHexfError>(
                assemble_bits(neg, 0, mant, 24, 8)));
            assert(assemble_bits(neg, 0, mant, 24, 8) == bits as nat);
        } else {
            assert(0x800000 <= mant < 0x1000000);
            assert(1 <= expf <= 254);
            assert(-149 <= e <= 104);
            lemma_round_exact(neg, mant, e, 1, 24, 127, 8);
            assert(round_to_bits(neg, 2 * mant, e - 1, 24, 127, 8) == Ok::<nat, ParseHexfError>(
                assemble_bits(neg, (e + 23 + 127) as nat, (mant - 0x800000) as nat, 24, 8)));
            assert((e + 23 + 127) as nat == expf);
            assert((mant - 0x800000) as nat == frac);
            assert(assemble_bits(neg, expf, frac, 24, 8) == bits as nat);
        }
        assert(literal_mantissa(s) != 0);
        assert(spec_parse(s, allow_underscore, 24, 127, 8) == Ok::<nat, ParseHexfError>(
            bits as nat));
    }
    assert(pow2(32) == 0x100000000);
}

/// Round-trip for binary64: re-parsing the canonical text of any finite
/// bit pattern, with either separator setting, returns exactly that
/// pattern, the sign of zero included.
#[verifier::rlimit(100)]
#[verifier::spinoff_prover]
pub proof fn lemma_roundtrip_hexf64(bits: u64, allow_underscore: bool)
    requires
        (bits as nat / 0x10000000000000) % 0x800 != 0x7ff,
    ensures
        spec_parse_hexf64(spec_hexf64(bits), allow_underscore) == Ok::<u64, ParseHexfError>(bits),
{
    crate::parse::lemma_pow2_facts();
    let neg = bits >= 0x8000000000000000;
    let expf = (bits as nat / 0x10000000000000) % 0x800;
    let frac = bits as nat % 0x10000000000000;
    lemma_bits_split(bits as nat, 0x10000000000000, 0x800);
    assert(bits as nat == (if neg {
        0x8000000000000000nat
    } else {
        0nat
    }) + expf * 0x10000000000000 + frac);
    lemma_pow2_adds(52, 11);
    if expf == 0 && frac == 0 {
        assert(hex_fixed(0, 0) =~= Seq::<char>::empty());
        assert(hex_fixed(0, 1) =~= seq![hex_digit_char(0)]);
        assert(hex_digit_char(0) == '0');
        assert(dec_chars(0) =~= seq!['0']);
        assert(exp_chars(0) =~= seq!['+', '0']);
        assert(zero_chars() =~= finite_chars(0, 0, 1, 0));
        lemma_parse_finite(neg, 0, 0, 1, 0, allow_underscore);
        let s = spec_hexf64(bits);
        assert(s == sign_chars(neg) + finite_chars(0, 0, 1, 0));
        assert(literal_mantissa(s) == 0);
        assert(spec_parse(s, allow_underscore, 53, 1023, 11) == Ok::<nat, ParseHexfError>(
            assemble_bits(neg, 0, 0, 53, 11)));
        assert(assemble_bits(neg, 0, 0, 53, 11) == bits as nat);
    } else {
        let mant = if expf == 0 {
            frac
        } else {
            (frac + 0x10000000000000) as nat
        };
        let e = if expf == 0 {
            -1074int
        } else {
            expf as int - 1075
        };
        let lead = mant / 0x10000000000000;
        let fracv = mant % 0x10000000000000;
        let s = spec_hexf64(bits);
        assert(s == sign_chars(neg) + finite_chars(lead, fracv, 13, e + 52));
        lemma_parse_finite(neg, lead, fracv, 13, e + 52, allow_underscore);
        assert(literal_mantissa(s) == lead * pow2(52) + fracv);
        assert(literal_mantissa(s) == mant) by {
            lemma_fundamental_div_mod(mant as int, 0x10000000000000);
        }
        assert(literal_exp(s) == e);
        assert(mant == mant * pow2(0)) by {
            lemma2_to64();
        }
        if expf == 0 {
            assert(0 < mant < 0x10000000000000);
            lemma_round_exact(neg, mant, -1074, 0, 53, 1023, 11);
            assert(round_to_bits(neg, mant, e, 53, 1023, 11) == Ok::<nat, ParseHexfError>(
                assemble_bits(neg, 0, mant, 53, 11)));
            assert(assemble_bits(neg, 0, mant, 53, 11) == bits as nat);
        } else {
            assert(0x10000000000000 <= mant < 0x20000000000000);
            assert(1 <= expf <= 2046);
            assert(-1074 <= e <= 971);
            lemma_round_exact(neg, mant, e, 0, 53, 1023, 11);
            assert(round_to_bits(neg, mant, e, 53, 1023, 11) == Ok::<nat, ParseHexfError>(
                assemble_bits(neg, (e + 52 + 1023) as nat, (mant - 0x10000000000000) as nat, 53,
                11)));
            assert((e + 52 + 1023) as nat == expf);
            assert((mant - 0x10000000000000) as nat == frac);
            assert(assemble_bits(neg, expf, frac, 53, 11) == bits as nat);
        }
        assert(literal_mantissa(s) != 0);
        assert(spec_parse(s, allow_underscore, 53, 1023, 11) == Ok::<nat, ParseHexfError>(
            bits as nat));
    }
}

} // verus!
