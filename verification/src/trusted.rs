//! The trusted boundary: wrappers around the outside crates and the parts
//! of std that carry no specification here.
//!
//! The field arithmetic works on `num::bigint::BigInt` values because the
//! modulus is a 256-bit prime. The type is opaque here; the spec function
//! [`big_val`] names the mathematical integer a `BigInt` holds, and every
//! wrapper below states what the called operation does to that value.

use vstd::prelude::*;

verus! {

#[verifier::external_type_specification]
#[verifier::external_body]
pub struct ExBigInt(num::bigint::BigInt);

/// The mathematical integer that a `BigInt` holds.
pub uninterp spec fn big_val(b: num::bigint::BigInt) -> int;

/// Relies on `BigInt`'s `From<u64>`: the converted integer keeps its value.
#[verifier::external_body]
pub(crate) fn big_from_u64(x: u64) -> (r: num::bigint::BigInt)
    ensures
        big_val(r) == x as int,
{
    num::bigint::BigInt::from(x)
}

/// Relies on `BigInt`'s `Clone`: the copy holds the same integer.
#[verifier::external_body]
pub(crate) fn big_clone(a: &num::bigint::BigInt) -> (r: num::bigint::BigInt)
    ensures
        big_val(r) == big_val(*a),
{
    a.clone()
}

/// Relies on `BigInt`'s `Add`: exact integer addition, no overflow.
#[verifier::external_body]
pub(crate) fn big_add(a: &num::bigint::BigInt, b: &num::bigint::BigInt) -> (r: num::bigint::BigInt)
    ensures
        big_val(r) == big_val(*a) + big_val(*b),
{
    a + b
}

/// Relies on `BigInt`'s `Sub`: exact integer subtraction.
#[verifier::external_body]
pub(crate) fn big_sub(a: &num::bigint::BigInt, b: &num::bigint::BigInt) -> (r: num::bigint::BigInt)
    ensures
        big_val(r) == big_val(*a) - big_val(*b),
{
    a - b
}

/// Relies on `BigInt`'s `Mul`: exact integer multiplication.
#[verifier::external_body]
pub(crate) fn big_mul(a: &num::bigint::BigInt, b: &num::bigint::BigInt) -> (r: num::bigint::BigInt)
    ensures
        big_val(r) == big_val(*a) * big_val(*b),
{
    a * b
}

/// Relies on `num::Integer::mod_floor` for `BigInt`: the floored remainder,
/// which for a positive modulus lies in `[0, m)` and agrees with the
/// mathematical `%`.
#[verifier::external_body]
pub(crate) fn big_mod_floor(a: &num::bigint::BigInt, m: &num::bigint::BigInt) -> (r: num::bigint::BigInt)
    requires
        big_val(*m) > 0,
    ensures
        big_val(r) == big_val(*a) % big_val(*m),
{
    num::Integer::mod_floor(a, m)
}

/// Relies on `num::Integer::div_floor` for `BigInt`: the floored quotient,
/// which for a positive divisor agrees with the mathematical `/`.
#[verifier::external_body]
pub(crate) fn big_div_floor(a: &num::bigint::BigInt, m: &num::bigint::BigInt) -> (r: num::bigint::BigInt)
    requires
        big_val(*m) > 0,
    ensures
        big_val(r) == big_val(*a) / big_val(*m),
{
    num::Integer::div_floor(a, m)
}

/// Relies on `BigInt`'s `Ord`: the comparison orders by the held integers.
#[verifier::external_body]
pub(crate) fn big_le(a: &num::bigint::BigInt, b: &num::bigint::BigInt) -> (r: bool)
    ensures
        r == (big_val(*a) <= big_val(*b)),
{
    a <= b
}

/// Relies on `BigInt`'s `PartialEq`: equality of the held integers.
#[verifier::external_body]
pub(crate) fn big_eq(a: &num::bigint::BigInt, b: &num::bigint::BigInt) -> (r: bool)
    ensures
        r == (big_val(*a) == big_val(*b)),
{
    a == b
}

/// The integer a big-endian byte string denotes.
pub open spec fn be_bytes_val(s: Seq<u8>) -> int
    decreases s.len(),
{
    if s.len() == 0 {
        0
    } else {
        be_bytes_val(s.drop_last()) * 256 + s.last()
    }
}

/// Relies on `BigInt::from_bytes_be`: with a plus sign it returns the
/// nonnegative integer the bytes denote in big-endian order.
#[verifier::external_body]
pub(crate) fn big_from_bytes_be(bytes: &[u8; 32]) -> (r: num::bigint::BigInt)
    ensures
        big_val(r) == be_bytes_val(bytes@),
{
    num::bigint::BigInt::from_bytes_be(num::bigint::Sign::Plus, bytes)
}

/// Relies on `num::ToPrimitive::to_u64` for `BigInt`: a value that fits in
/// 64 bits converts exactly.
#[verifier::external_body]
pub(crate) fn big_to_u64(a: &num::bigint::BigInt) -> (r: u64)
    requires
        0 <= big_val(*a) < 0x1_0000_0000_0000_0000,
    ensures
        r as int == big_val(*a),
{
    num::ToPrimitive::to_u64(a).unwrap_or(0)
}

/// Relies on `String::from_utf8`: ASCII bytes decode to the string of the
/// characters with the same code points.
#[verifier::external_body]
pub(crate) fn ascii_to_string(v: Vec<u8>) -> (r: String)
    requires
        forall|i: int| 0 <= i < v@.len() ==> v@[i] < 128,
    ensures
        r@.len() == v@.len(),
        forall|i: int| 0 <= i < v@.len() ==> r@[i] == v@[i] as char,
{
    String::from_utf8(v).unwrap_or_default()
}

/// Relies on `rand`'s `OsRng` and `RngCore::try_fill_bytes`: the buffer is
/// filled from the operating system's entropy source, or the failure is
/// reported. Nothing can be promised of the bytes themselves.
#[verifier::external_body]
pub(crate) fn os_random_bytes() -> (r: Option<[u8; 32]>)
{
    let mut buf = [0u8; 32];
    match rand::RngCore::try_fill_bytes(&mut rand::rngs::OsRng, &mut buf) {
        Ok(()) => Some(buf),
        Err(_) => None,
    }
}

} // verus!
