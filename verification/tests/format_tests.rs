use hexf::{parse_hexf32, parse_hexf64, to_hex_string, F32Bits, F64Bits, Format, FormatHexf};

// A fixed-seed linear congruential generator stands in for a thread-local
// random source, so the sweep is reproducible.
struct Lcg(u64);

impl Lcg {
    fn next_u64(&mut self) -> u64 {
        self.0 = self.0.wrapping_mul(6364136223846793005).wrapping_add(1442695040888963407);
        self.0
    }

    fn next_u32(&mut self) -> u32 {
        (self.next_u64() >> 32) as u32
    }
}

#[test]
fn test_format_finite_hexf32() {
    let mut rng = Lcg(0x853c49e6748fea9b);
    for _ in 0..20000 {
        let bits = rng.next_u32();
        let f = f32::from_bits(bits);
        if !f.is_finite() {
            continue;
        }

        let hex = to_hex_string(F32Bits { bits });
        let roundtrip = f32::from_bits(parse_hexf32(&hex, false).unwrap());
        assert_eq!(f, roundtrip, "{} {} {}", f, hex, roundtrip);
        if f == 0.0 {
            assert_eq!(f.is_sign_negative(), roundtrip.is_sign_negative(), "{}", hex);
        }
    }
}

#[test]
fn test_format_finite_hexf64() {
    let mut rng = Lcg(0xda3e39cb94b95bdb);
    for _ in 0..20000 {
        let bits = rng.next_u64();
        let f = f64::from_bits(bits);
        if !f.is_finite() {
            continue;
        }
        let hex = to_hex_string(F64Bits { bits });
        let roundtrip = f64::from_bits(parse_hexf64(&hex, false).unwrap());
        assert_eq!(f, roundtrip, "{} {} {}", f, hex, roundtrip);
        if f == 0.0 {
            assert_eq!(f.is_sign_negative(), roundtrip.is_sign_negative(), "{}", hex);
        }
    }
}

#[test]
fn test_to_hex_string() {
    assert_eq!(to_hex_string(F64Bits { bits: 0.0f64.to_bits() }), "0x0.0p+0");
    assert_eq!(to_hex_string(F32Bits { bits: 0.0f32.to_bits() }), "0x0.0p+0");
    assert_eq!(to_hex_string(F64Bits { bits: (-0.0f64).to_bits() }), "-0x0.0p+0");
    assert_eq!(to_hex_string(F32Bits { bits: (-0.0f32).to_bits() }), "-0x0.0p+0");

    assert_eq!(
        to_hex_string(F64Bits { bits: f64::INFINITY.to_bits() }),
        "inf".parse::<f64>().unwrap().to_string()
    );
    assert_eq!(
        to_hex_string(F64Bits { bits: (-f64::INFINITY).to_bits() }),
        "-inf".parse::<f64>().unwrap().to_string()
    );
    assert_eq!(
        to_hex_string(F64Bits { bits: f64::NAN.to_bits() }),
        "NaN".parse::<f64>().unwrap().to_string()
    );
}

#[test]
fn format_wrapper() {
    assert_eq!(Format(F32Bits { bits: 0.1f32.to_bits() }).fmt(), "0x1.99999ap-4");
    assert_eq!(Format(F64Bits { bits: 0.1f64.to_bits() }).fmt(), "0x1.999999999999ap-4");
}

#[test]
fn format_vectors() {
    assert_eq!(to_hex_string(F32Bits { bits: 0.1f32.to_bits() }), "0x1.99999ap-4");
    assert_eq!(to_hex_string(F64Bits { bits: 0.1f64.to_bits() }), "0x1.999999999999ap-4");
    assert_eq!(to_hex_string(F32Bits { bits: 1.0f32.to_bits() }), "0x1.000000p+0");
    assert_eq!(to_hex_string(F64Bits { bits: (-2.5f64).to_bits() }), "-0x1.4000000000000p+1");
}

#[test]
fn format_nan_collapses() {
    // Every payload and either sign print as the same three characters.
    assert_eq!(to_hex_string(F32Bits { bits: 0x7fc00000 }), "NaN");
    assert_eq!(to_hex_string(F32Bits { bits: 0xffc00001 }), "NaN");
    assert_eq!(to_hex_string(F32Bits { bits: 0x7f800001 }), "NaN");
    assert_eq!(to_hex_string(F64Bits { bits: 0x7ff8000000000000 }), "NaN");
    assert_eq!(to_hex_string(F64Bits { bits: 0xfff0000000000001 }), "NaN");
}

#[test]
fn sign_prefix() {
    // The sign prefix follows the sign bit for every value but a NaN,
    // which is signless: a NaN with the sign bit set still prints none.
    assert_eq!(F32Bits { bits: (-0.0f32).to_bits() }.sign_string(), "-");
    assert_eq!(F32Bits { bits: (-f32::INFINITY).to_bits() }.sign_string(), "-");
    assert_eq!(F32Bits { bits: 1.0f32.to_bits() }.sign_string(), "");
    assert_eq!(F32Bits { bits: 0xffc00000 }.sign_string(), "");
    assert_eq!(F64Bits { bits: (-0.0f64).to_bits() }.sign_string(), "-");
    assert_eq!(F64Bits { bits: 0xfff8000000000000 }.sign_string(), "");
}

#[test]
fn format_infinities() {
    assert_eq!(to_hex_string(F32Bits { bits: 0x7f800000 }), "inf");
    assert_eq!(to_hex_string(F32Bits { bits: 0xff800000 }), "-inf");
    assert_eq!(to_hex_string(F64Bits { bits: 0x7ff0000000000000 }), "inf");
    assert_eq!(to_hex_string(F64Bits { bits: 0xfff0000000000000 }), "-inf");
}

#[test]
fn format_subnormals() {
    // The leading digit of a subnormal is 0 and the exponent pins to the
    // minimum normal exponent.
    assert_eq!(to_hex_string(F32Bits { bits: 1 }), "0x0.000002p-126");
    assert_eq!(to_hex_string(F32Bits { bits: 0x007fffff }), "0x0.fffffep-126");
    assert_eq!(to_hex_string(F64Bits { bits: 1 }), "0x0.0000000000001p-1022");
    assert_eq!(parse_hexf32("0x0.000002p-126", false), Ok(1));
    assert_eq!(parse_hexf64("0x0.0000000000001p-1022", false), Ok(1));
}
