use shamir::field::Value;

/// Converts a decimal digit string to minimal lower-case hex, by schoolbook
/// long division; enough for checking 256-bit constants.
fn dec_to_hex(dec: &str) -> String {
    let mut digits: Vec<u8> = dec.bytes().map(|b| b - b'0').collect();
    let mut hex_rev = String::new();
    while digits.iter().any(|&d| d != 0) {
        let mut rem: u32 = 0;
        let mut quot: Vec<u8> = Vec::new();
        for &d in &digits {
            let cur = rem * 10 + d as u32;
            quot.push((cur / 16) as u8);
            rem = cur % 16;
        }
        hex_rev.push(char::from_digit(rem, 16).unwrap());
        let first_nonzero = quot.iter().position(|&d| d != 0).unwrap_or(quot.len());
        digits = quot[first_nonzero..].to_vec();
    }
    if hex_rev.is_empty() {
        hex_rev.push('0');
    }
    hex_rev.chars().rev().collect()
}

fn eq(a: &Value, b: &Value) -> bool {
    a.sub(b).is_zero()
}

#[test]
fn prime_order() {
    // assuming this proof is OK
    // https://safecurves.cr.yp.to/proof/115792089237316195423570985008687907853269984665640564039457584007908834671663.html
    let p_hex = dec_to_hex(
        "115792089237316195423570985008687907853269984665640564039457584007908834671663",
    );
    // The modulus itself has no representative, but prime - 1 has: 0 - 1.
    // Bump its last hex digit by one to recover the modulus.
    let mut pm1_hex = Value::zero().sub(&Value::one()).to_hex_string();
    assert!(pm1_hex.ends_with('e'));
    pm1_hex.pop();
    pm1_hex.push('f');
    assert_eq!(p_hex, pm1_hex);
}

#[test]
fn mod_inv() {
    for i in 1u64..1000 {
        let val = Value::from_u64(i);
        let inv = val.mod_inverse().unwrap();
        assert!(eq(&val.mul(&inv), &Value::from_u64(1)));
    }
}

#[test]
fn division() {
    for i in (0..100).map(|i| i + 236_662).map(Value::from_u64) {
        for j in (0..100).map(|k| k + 4423).map(Value::from_u64) {
            let div = i.div(&j).unwrap();
            assert!(eq(&div.mul(&j), &i));
        }
    }
}

#[test]
fn sub_wraparound() {
    let x = Value::zero().sub(&Value::one());
    let p_minus_1_hex = "fffffffffffffffffffffffffffffffffffffffffffffffffffffffefffffc2e";
    assert_eq!(x.to_hex_string(), p_minus_1_hex);

    assert!(x.add(&Value::one()).is_zero());
}

#[test]
fn add_and_mul_concrete() {
    assert_eq!(Value::from_u64(2).add(&Value::from_u64(3)).to_hex_string(), "5");
    assert_eq!(Value::from_u64(7).mul(&Value::from_u64(6)).to_hex_string(), "2a");
    assert_eq!(Value::from_u64(100).sub(&Value::from_u64(58)).to_hex_string(), "2a");
}

#[test]
fn inverse_of_zero_fails() {
    assert!(matches!(
        Value::zero().mod_inverse(),
        Err(shamir::Error::DivisionByZero)
    ));
    assert!(matches!(
        Value::from_u64(17).div(&Value::zero()),
        Err(shamir::Error::DivisionByZero)
    ));
}

#[test]
fn hex_round_trip() {
    let v = Value::from_u64(0xdeadbeef);
    assert_eq!(v.to_hex_string(), "deadbeef");
    let back = Value::parse_hex("deadbeef").unwrap();
    assert!(eq(&v, &back));

    assert_eq!(Value::zero().to_hex_string(), "0");
    assert!(Value::parse_hex("0").unwrap().is_zero());
    assert!(Value::parse_hex("000").unwrap().is_zero());

    // Upper and lower case digits denote the same value.
    let upper = Value::parse_hex("ABCDEF").unwrap();
    let lower = Value::parse_hex("abcdef").unwrap();
    assert!(eq(&upper, &lower));

    // A value at or above the modulus is reduced on parsing.
    let p_hex = "fffffffffffffffffffffffffffffffffffffffffffffffffffffffefffffc2f";
    assert!(Value::parse_hex(p_hex).unwrap().is_zero());
}

#[test]
fn malformed_hex_is_rejected() {
    assert!(matches!(Value::parse_hex(""), Err(shamir::Error::MalformedInput)));
    assert!(matches!(Value::parse_hex("12g4"), Err(shamir::Error::MalformedInput)));
    assert!(matches!(Value::parse_hex("0x12"), Err(shamir::Error::MalformedInput)));
    assert!(matches!(Value::parse_hex(" 12"), Err(shamir::Error::MalformedInput)));
}

#[test]
fn be_bytes_reduce_modulo_the_prime() {
    let zeroes = [0u8; 32];
    assert!(Value::from_be_bytes_mod(&zeroes).is_zero());

    let mut one = [0u8; 32];
    one[31] = 1;
    assert_eq!(Value::from_be_bytes_mod(&one).to_hex_string(), "1");

    let mut beef = [0u8; 32];
    beef[30] = 0xbe;
    beef[31] = 0xef;
    assert_eq!(Value::from_be_bytes_mod(&beef).to_hex_string(), "beef");

    // All-ones is 2^256 - 1, which exceeds the prime 2^256 - 2^32 - 977
    // by exactly 2^32 + 976.
    let ones = [0xffu8; 32];
    assert_eq!(Value::from_be_bytes_mod(&ones).to_hex_string(), "1000003d0");
}

#[test]
fn random_values_are_canonical() {
    for _ in 0..16 {
        let v = Value::random().unwrap();
        // The representative round-trips through its hex form unchanged.
        let again = Value::parse_hex(&v.to_hex_string()).unwrap();
        assert!(eq(&v, &again));
    }
}
