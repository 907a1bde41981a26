//! Arithmetic in the prime field of order 2^256 - 2^32 - 977.

use vstd::prelude::*;
use crate::trusted::{big_val, big_from_u64, big_clone, big_add, big_sub, big_mul, big_mod_floor, big_div_floor, big_le, big_eq};
use crate::Error;
use crate::trusted::{big_to_u64, ascii_to_string, big_from_bytes_be, os_random_bytes, be_bytes_val};
use vstd::arithmetic::div_mod::{lemma_small_mod, lemma_mod_add_multiples_vanish, lemma_mod_division_less_than_divisor, lemma_mod_self_0, lemma_mod_multiples_vanish, lemma_mul_mod_noop_left, lemma_mul_mod_noop_right, lemma_sub_mod_noop, lemma_fundamental_div_mod, lemma_div_is_strictly_smaller};
use vstd::arithmetic::power::pow;
use vstd::string::StrSliceExecFns;

verus! {

/// The modulus: 2^256 - 2^32 - 977, a prime.
pub open spec fn prime_int() -> int {
    0xfffffffffffffffffffffffffffffffffffffffffffffffffffffffefffffc2fint
}

/// Field addition on canonical representatives.
pub open spec fn fadd(a: int, b: int) -> int {
    (a + b) % prime_int()
}

/// Field subtraction on canonical representatives.
pub open spec fn fsub(a: int, b: int) -> int {
    (a - b) % prime_int()
}

/// Field multiplication on canonical representatives.
pub open spec fn fmul(a: int, b: int) -> int {
    (a * b) % prime_int()
}

/// The greatest common divisor, by Euclid's recursion.
pub open spec fn gcd(a: nat, b: nat) -> nat
    decreases b,
{
    if b == 0 {
        a
    } else {
        gcd(b, a % b)
    }
}

/// A canonical representative has a multiplicative inverse exactly when it
/// is coprime with the modulus; zero never has one. Since the modulus is
/// prime, this holds of every nonzero element, though nothing here rests on
/// primality: the inversion algorithm itself reports the coprimality check.
pub open spec fn invertible(a: int) -> bool {
    gcd(prime_int() as nat, a as nat) == 1
}

/// The multiplicative inverse of `a`, where one exists: the unique
/// representative `b` with `a * b == 1` in the field.
pub open spec fn finv(a: int) -> int {
    choose|b: int| 0 <= b < prime_int() && fmul(a, b) == 1
}

/// Some representative multiplies `a` to one.
pub open spec fn has_inverse(a: int) -> bool {
    exists|b: int| 0 <= b < prime_int() && fmul(a, b) == 1
}

/// Where an inverse exists, `finv` denotes one: it is in range and
/// multiplies `a` to one.
pub proof fn lemma_finv_works(a: int)
    requires
        has_inverse(a),
    ensures
        0 <= finv(a) < prime_int(),
        fmul(a, finv(a)) == 1,
{
    let b = choose|b: int| 0 <= b < prime_int() && fmul(a, b) == 1;
    assert(0 <= b < prime_int() && fmul(a, b) == 1);
}

/// Inverses are unique: two representatives that both multiply `a` to one
/// are equal.
pub proof fn lemma_inverse_unique(a: int, b1: int, b2: int)
    requires
        0 <= a < prime_int(),
        0 <= b1 < prime_int(),
        0 <= b2 < prime_int(),
        fmul(a, b1) == 1,
        fmul(a, b2) == 1,
    ensures
        b1 == b2,
{
    let p = prime_int();
    lemma_small_mod(b1 as nat, p as nat);
    lemma_mul_mod_noop_right(b1, a * b2, p);
    assert(b1 * (a * b2) == (a * b1) * b2) by (nonlinear_arith);
    lemma_mul_mod_noop_left(a * b1, b2, p);
    lemma_small_mod(b2 as nat, p as nat);
    assert(b1 == (b1 * ((a * b2) % p)) % p);
    assert((b1 * (a * b2)) % p == ((a * b1) % p * b2) % p);
}

/// The law that every inverse obeys: a representative `b` that multiplies
/// `a` to one is the inverse of `a`, and `a * finv(a) == 1`.
pub proof fn lemma_mul_inverse(a: int, b: int)
    requires
        0 <= a < prime_int(),
        0 <= b < prime_int(),
        fmul(a, b) == 1,
    ensures
        finv(a) == b,
        fmul(a, finv(a)) == 1,
{
    assert(0 <= b < prime_int() && fmul(a, b) == 1);
    let c = finv(a);
    assert(0 <= c < prime_int() && fmul(a, c) == 1);
    lemma_inverse_unique(a, b, c);
}

/// Bezout's identity, by induction along Euclid's recursion: some integer
/// combination of `m` and `b` equals their greatest common divisor.
proof fn lemma_bezout(m: nat, b: nat) -> (r: (int, int))
    requires
        0 < m,
    ensures
        r.0 * m + r.1 * b == gcd(m, b),
    decreases b,
{
    if b == 0 {
        (1int, 0int)
    } else {
        let (u, v) = lemma_bezout(b, m % b);
        lemma_fundamental_div_mod(m as int, b as int);
        let q = m as int / b as int;
        assert(u * b + v * (m - q * b) == v * m + (u - v * q) * b) by (nonlinear_arith);
        (v, u - v * q)
    }
}

/// Every representative coprime with the modulus has an inverse, and
/// multiplying by it yields one: the inverse law in its general form.
/// Because the modulus is prime this covers every nonzero element, though
/// primality itself is not proved here.
pub proof fn lemma_invertible_has_inverse(a: int)
    requires
        0 < a < prime_int(),
        invertible(a),
    ensures
        has_inverse(a),
        0 <= finv(a) < prime_int(),
        fmul(a, finv(a)) == 1,
{
    let p = prime_int();
    let (u, v) = lemma_bezout(p as nat, a as nat);
    let w = v % p;
    assert(a * v == 1 - u * p) by (nonlinear_arith)
        requires
            u * p + v * a == 1,
    ;
    lemma_mul_mod_noop_right(a, v, p);
    lemma_mod_multiples_vanish(-u, 1, p);
    assert(p * -u + 1 == 1 - u * p) by (nonlinear_arith);
    lemma_small_mod(1nat, p as nat);
    lemma_mod_division_less_than_divisor(v, p);
    assert(fmul(a, w) == 1);
    assert(0 <= w < p && fmul(a, w) == 1);
    lemma_finv_works(a);
}

/// The division law in its general form: dividing by any element coprime
/// with the modulus and multiplying back restores the dividend.
pub proof fn lemma_div_mul_cancel(a: int, b: int)
    requires
        0 <= a < prime_int(),
        0 < b < prime_int(),
        invertible(b),
    ensures
        fmul(fmul(a, finv(b)), b) == a,
{
    lemma_invertible_has_inverse(b);
    lemma_div_then_mul(a, b, finv(b));
}

/// The division law: multiplying a quotient back by the divisor restores
/// the dividend. Here `w` is any inverse of the divisor `b`.
pub proof fn lemma_div_then_mul(a: int, b: int, w: int)
    requires
        0 <= a < prime_int(),
        0 <= b < prime_int(),
        0 <= w < prime_int(),
        fmul(b, w) == 1,
    ensures
        fmul(fmul(a, w), b) == a,
{
    let p = prime_int();
    lemma_mul_mod_noop_left(a * w, b, p);
    assert(a * w * b == a * (w * b)) by (nonlinear_arith);
    lemma_mul_mod_noop_right(a, w * b, p);
    assert(w * b == b * w);
    lemma_small_mod(a as nat, p as nat);
    assert(((a * w) % p * b) % p == (a * w * b) % p);
    assert((a * (w * b)) % p == (a * ((b * w) % p)) % p);
}

/// The wraparound law: zero minus one is `prime - 1`, and adding one back
/// yields zero again.
pub proof fn lemma_sub_wraparound()
    ensures
        fsub(0, 1) == prime_int() - 1,
        fadd(prime_int() - 1, 1) == 0,
{
    let p = prime_int();
    lemma_mod_add_multiples_vanish(-1, p);
    lemma_small_mod((p - 1) as nat, p as nat);
    lemma_mod_self_0(p);
}

/// Whether a character is a hexadecimal digit, in either case.
pub open spec fn is_hex_digit(c: char) -> bool {
    (48 <= c as u32 && c as u32 <= 57) || (97 <= c as u32 && c as u32 <= 102) || (65 <= c as u32
        && c as u32 <= 70)
}

/// Whether a character is a digit or a lower-case hexadecimal letter.
pub open spec fn is_lower_hex_digit(c: char) -> bool {
    (48 <= c as u32 && c as u32 <= 57) || (97 <= c as u32 && c as u32 <= 102)
}

/// The value of one hexadecimal digit.
pub open spec fn hex_digit_val(c: char) -> int {
    if 48 <= c as u32 && c as u32 <= 57 {
        c as u32 - 48
    } else if 97 <= c as u32 && c as u32 <= 102 {
        c as u32 - 87
    } else {
        c as u32 - 55
    }
}

/// The integer a big-endian string of hexadecimal digits denotes.
pub open spec fn hex_val(s: Seq<char>) -> int
    decreases s.len(),
{
    if s.len() == 0 {
        0
    } else {
        hex_val(s.drop_last()) * 16 + hex_digit_val(s.last())
    }
}

/// The integer the same digits denote when read little-end first.
pub open spec fn hex_val_lsb(s: Seq<char>) -> int
    decreases s.len(),
{
    if s.len() == 0 {
        0
    } else {
        hex_digit_val(s.first()) + 16 * hex_val_lsb(s.drop_first())
    }
}

/// Reversing a digit string swaps the two readings.
proof fn lemma_hex_val_reverse(s: Seq<char>)
    ensures
        hex_val(s.reverse()) == hex_val_lsb(s),
    decreases s.len(),
{
    if s.len() == 0 {
        assert(s.reverse() =~= s);
    } else {
        let rest = s.drop_first();
        lemma_hex_val_reverse(rest);
        assert(s.reverse().drop_last() =~= rest.reverse());
        assert(s.reverse().last() == s.first());
    }
}

/// Appending a digit at the little end adds its value at the next power.
proof fn lemma_hex_val_lsb_push(s: Seq<char>, c: char)
    ensures
        hex_val_lsb(s.push(c)) == hex_val_lsb(s) + hex_digit_val(c) * pow(16, s.len()),
    decreases s.len(),
{
    reveal(pow);
    if s.len() == 0 {
        assert(s.push(c).drop_first() =~= Seq::<char>::empty());
        assert(s.push(c).first() == c);
        assert(hex_val_lsb(Seq::<char>::empty()) == 0);
        assert(hex_val_lsb(s.push(c)) == hex_digit_val(c) + 16 * hex_val_lsb(
            s.push(c).drop_first(),
        ));
        assert(hex_val_lsb(s) == 0);
        assert(pow(16, 0) == 1);
        assert(hex_digit_val(c) * 1 == hex_digit_val(c));
    } else {
        let rest = s.drop_first();
        assert(s.push(c).drop_first() =~= rest.push(c));
        assert(s.push(c).first() == s.first());
        lemma_hex_val_lsb_push(rest, c);
        assert(rest.len() == s.len() - 1);
        assert(pow(16, s.len()) == 16 * pow(16, rest.len()));
        assert(hex_val_lsb(s.push(c)) == hex_digit_val(s.first()) + 16 * hex_val_lsb(rest.push(c)));
        assert(hex_val_lsb(s) == hex_digit_val(s.first()) + 16 * hex_val_lsb(rest));
        assert(16 * (hex_val_lsb(rest) + hex_digit_val(c) * pow(16, rest.len())) == 16
            * hex_val_lsb(rest) + hex_digit_val(c) * (16 * pow(16, rest.len())))
            by (nonlinear_arith);
    }
}

/// An element of the prime field: an arbitrary-precision integer whose
/// canonical representative lies in `[0, prime_int())`.
pub struct Value(num::bigint::BigInt);

impl View for Value {
    type V = int;

    closed spec fn view(&self) -> int {
        big_val(self.0)
    }
}

/// Builds the modulus as a `BigInt`: 2^256 - 2^32 - 977.
fn prime_big() -> (r: num::bigint::BigInt)
    ensures
        big_val(r) == prime_int(),
{
    let two_32 = big_from_u64(0x1_0000_0000);
    let two_64 = big_mul(&two_32, &two_32);
    let two_128 = big_mul(&two_64, &two_64);
    let two_256 = big_mul(&two_128, &two_128);
    let low = big_from_u64(977);
    let near = big_sub(&two_256, &two_32);
    let r = big_sub(&near, &low);
    proof {
        assert(0x1_0000_0000int * 0x1_0000_0000int == 0x1_0000_0000_0000_0000int)
            by (nonlinear_arith);
        assert(0x1_0000_0000_0000_0000int * 0x1_0000_0000_0000_0000int
            == 0x1_00000000_00000000_00000000_00000000int) by (nonlinear_arith);
        assert(0x1_00000000_00000000_00000000_00000000int
            * 0x1_00000000_00000000_00000000_00000000int
            == 0x1_00000000_00000000_00000000_00000000_00000000_00000000_00000000_00000000int)
            by (nonlinear_arith);
        assert(big_val(r) == prime_int());
    }
    r
}

impl Value {
    /// The canonical representative is in range.
    pub open spec fn valid(&self) -> bool {
        0 <= self@ < prime_int()
    }

    /// The zero element.
    pub fn zero() -> (r: Value)
        ensures
            r@ == 0,
            r.valid(),
    {
        Value(big_from_u64(0))
    }

    /// The one element.
    pub fn one() -> (r: Value)
        ensures
            r@ == 1,
            r.valid(),
    {
        Value(big_from_u64(1))
    }

    /// Embeds a machine integer; every `u64` is below the modulus.
    pub fn from_u64(x: u64) -> (r: Value)
        ensures
            r@ == x as int,
            r.valid(),
    {
        Value(big_from_u64(x))
    }

    /// Whether this is the zero element.
    pub fn is_zero(&self) -> (r: bool)
        ensures
            r == (self@ == 0),
    {
        let z = big_from_u64(0);
        big_eq(&self.0, &z)
    }

    /// A copy of the element.
    pub fn dup(&self) -> (r: Value)
        ensures
            r@ == self@,
    {
        Value(big_clone(&self.0))
    }

    /// Field addition: the sum reduced into canonical range.
    pub fn add(&self, other: &Value) -> (r: Value)
        requires
            self.valid(),
            other.valid(),
        ensures
            r.valid(),
            r@ == fadd(self@, other@),
    {
        let p = prime_big();
        let s = big_add(&self.0, &other.0);
        let m = big_mod_floor(&s, &p);
        proof {
            lemma_mod_division_less_than_divisor(self@ + other@, prime_int());
        }
        Value(m)
    }

    /// Field multiplication: the product reduced into canonical range.
    pub fn mul(&self, other: &Value) -> (r: Value)
        requires
            self.valid(),
            other.valid(),
        ensures
            r.valid(),
            r@ == fmul(self@, other@),
    {
        let p = prime_big();
        let s = big_mul(&self.0, &other.0);
        let m = big_mod_floor(&s, &p);
        proof {
            lemma_mod_division_less_than_divisor(self@ * other@, prime_int());
        }
        Value(m)
    }

    /// Field subtraction. When the subtrahend exceeds the minuend the
    /// difference wraps: the result is `prime - other + self`, so that for
    /// example `0 - 1` is `prime - 1`.
    pub fn sub(&self, other: &Value) -> (r: Value)
        requires
            self.valid(),
            other.valid(),
        ensures
            r.valid(),
            r@ == fsub(self@, other@),
    {
        if big_le(&other.0, &self.0) {
            let d = big_sub(&self.0, &other.0);
            proof {
                lemma_small_mod((self@ - other@) as nat, prime_int() as nat);
            }
            Value(d)
        } else {
            let p = prime_big();
            let d = big_sub(&p, &other.0);
            let r = big_add(&d, &self.0);
            proof {
                lemma_mod_add_multiples_vanish(self@ - other@, prime_int());
                lemma_small_mod((prime_int() - other@ + self@) as nat, prime_int() as nat);
            }
            Value(r)
        }
    }

    /// The multiplicative inverse, by the extended Euclidean algorithm over
    /// the modulus and the element. Inverting zero fails; so would inverting
    /// any element not coprime with the modulus, but since the modulus is
    /// prime no such nonzero element exists.
    #[verifier::rlimit(50)]
    pub fn mod_inverse(&self) -> (r: Result<Value, Error>)
        requires
            self.valid(),
        ensures
            r matches Ok(v) ==> v.valid() && fmul(self@, v@) == 1 && v@ == finv(self@),
            (r is Ok) <==> invertible(self@),
            r is Err ==> r == Err::<Value, Error>(Error::DivisionByZero),
    {
        let ghost a0: int = self@;
        let ghost p_int: int = prime_int();
        if self.is_zero() {
            proof {
                assert(gcd(p_int as nat, 0) == p_int as nat);
            }
            return Err(Error::DivisionByZero);
        }
        let p = prime_big();
        let zero = big_from_u64(0);
        let mut t = big_from_u64(0);
        let mut newt = big_from_u64(1);
        let mut r = big_clone(&p);
        let mut newr = big_clone(&self.0);
        proof {
            lemma_mod_self_0(p_int);
            lemma_small_mod(a0 as nat, p_int as nat);
        }
        while !big_eq(&newr, &zero)
            invariant
                big_val(p) == p_int,
                big_val(zero) == 0,
                p_int == prime_int(),
                0 <= a0 < p_int,
                0 <= big_val(newr) < big_val(r),
                0 <= big_val(t) < p_int,
                0 <= big_val(newt) < p_int,
                (big_val(t) * a0) % p_int == big_val(r) % p_int,
                (big_val(newt) * a0) % p_int == big_val(newr) % p_int,
                gcd(big_val(r) as nat, big_val(newr) as nat) == gcd(p_int as nat, a0 as nat),
            decreases big_val(newr),
        {
            let ghost rv: int = big_val(r);
            let ghost nrv: int = big_val(newr);
            let ghost tv: int = big_val(t);
            let ghost ntv: int = big_val(newt);
            let q = big_div_floor(&r, &newr);
            let rem = big_mod_floor(&r, &newr);
            let qn = big_mul(&q, &newt);
            let tdiff = big_sub(&t, &qn);
            let tnew = big_mod_floor(&tdiff, &p);
            proof {
                let ghost qv = rv / nrv;
                let ghost remv = rv % nrv;
                lemma_fundamental_div_mod(rv, nrv);
                assert(remv == rv - qv * nrv) by (nonlinear_arith)
                    requires rv == nrv * qv + remv;
                lemma_mod_division_less_than_divisor(rv, nrv);
                // The Bezout relation survives the update of t.
                lemma_mul_mod_noop_left(tv - qv * ntv, a0, p_int);
                assert((tv - qv * ntv) * a0 == tv * a0 - qv * (ntv * a0))
                    by (nonlinear_arith);
                lemma_mul_mod_noop_right(qv, ntv * a0, p_int);
                lemma_mul_mod_noop_right(qv, nrv, p_int);
                lemma_sub_mod_noop(tv * a0, qv * (ntv * a0), p_int);
                lemma_sub_mod_noop(tv * a0, qv * nrv, p_int);
                lemma_mod_division_less_than_divisor(tv - qv * ntv, p_int);
                // The pair keeps its greatest common divisor.
                assert(gcd(rv as nat, nrv as nat) == gcd(nrv as nat, remv as nat));
            }
            t = newt;
            newt = tnew;
            r = newr;
            newr = rem;
        }
        let one = big_from_u64(1);
        if big_eq(&r, &one) {
            proof {
                assert(gcd(big_val(r) as nat, 0) == big_val(r) as nat);
                lemma_small_mod(1nat, p_int as nat);
                assert((big_val(t) * a0) % p_int == 1);
                assert(big_val(t) * a0 == a0 * big_val(t));
                lemma_mul_inverse(a0, big_val(t));
            }
            Ok(Value(t))
        } else {
            proof {
                assert(gcd(big_val(r) as nat, 0) == big_val(r) as nat);
            }
            Err(Error::DivisionByZero)
        }
    }

    /// Field division: multiplication by the divisor's inverse. Fails
    /// exactly where inversion does, in particular on a zero divisor.
    pub fn div(&self, other: &Value) -> (r: Result<Value, Error>)
        requires
            self.valid(),
            other.valid(),
        ensures
            r matches Ok(v) ==> v.valid() && v@ == fmul(self@, finv(other@)) && fmul(v@, other@)
                == self@,
            (r is Ok) <==> invertible(other@),
            r is Err ==> r == Err::<Value, Error>(Error::DivisionByZero),
    {
        match other.mod_inverse() {
            Err(e) => Err(e),
            Ok(w) => {
                let v = self.mul(&w);
                proof {
                    assert(other@ * w@ == w@ * other@);
                    lemma_div_then_mul(self@, other@, w@);
                }
                Ok(v)
            },
        }
    }

    /// The field element a big-endian byte string denotes: its unsigned
    /// value, reduced modulo the prime.
    pub fn from_be_bytes_mod(bytes: &[u8; 32]) -> (r: Value)
        ensures
            r.valid(),
            r@ == be_bytes_val(bytes@) % prime_int(),
    {
        let b = big_from_bytes_be(bytes);
        let p = prime_big();
        let m = big_mod_floor(&b, &p);
        proof {
            lemma_mod_division_less_than_divisor(be_bytes_val(bytes@), prime_int());
        }
        Value(m)
    }

    /// One random field element: 256 bits from the operating system's
    /// entropy source, handed to [`Value::from_be_bytes_mod`]. Of the bytes
    /// themselves nothing can be promised; what is done with whatever came
    /// back is pinned there. Representatives below `2^256 mod prime` are
    /// marginally more likely than the rest; that bias is accepted.
    pub fn random() -> (r: Result<Value, Error>)
        ensures
            r matches Ok(v) ==> v.valid(),
            r is Err ==> r == Err::<Value, Error>(Error::RandomnessUnavailable),
    {
        match os_random_bytes() {
            None => Err(Error::RandomnessUnavailable),
            Some(bytes) => Ok(Value::from_be_bytes_mod(&bytes)),
        }
    }

    /// Reads a field element from a hexadecimal string: the denoted integer,
    /// reduced into canonical range. An empty string or any character that
    /// is no hexadecimal digit is malformed.
    pub fn parse_hex(s: &str) -> (r: Result<Value, Error>)
        ensures
            r matches Ok(v) ==> v.valid() && v@ == hex_val(s@) % prime_int(),
            (r is Ok) <==> (s@.len() > 0 && forall|i: int|
                0 <= i < s@.len() ==> is_hex_digit(s@[i])),
            r is Err ==> r == Err::<Value, Error>(Error::MalformedInput),
    {
        let n = s.unicode_len();
        if n == 0 {
            return Err(Error::MalformedInput);
        }
        let sixteen = big_from_u64(16);
        let mut acc = big_from_u64(0);
        let mut i: usize = 0;
        while i < n
            invariant
                0 <= i <= n,
                n == s@.len(),
                big_val(sixteen) == 16,
                big_val(acc) >= 0,
                big_val(acc) == hex_val(s@.take(i as int)),
                forall|j: int| 0 <= j < i ==> is_hex_digit(s@[j]),
            decreases n - i,
        {
            let c = s.get_char(i);
            let u = c as u32;
            let d: u64 = if 48 <= u && u <= 57 {
                (u - 48) as u64
            } else if 97 <= u && u <= 102 {
                (u - 87) as u64
            } else if 65 <= u && u <= 70 {
                (u - 55) as u64
            } else {
                return Err(Error::MalformedInput);
            };
            let shifted = big_mul(&acc, &sixteen);
            let dig = big_from_u64(d);
            let next = big_add(&shifted, &dig);
            proof {
                assert(s@.take(i + 1).drop_last() =~= s@.take(i as int));
                assert(s@.take(i + 1).last() == s@[i as int]);
            }
            acc = next;
            i = i + 1;
        }
        proof {
            assert(s@.take(n as int) =~= s@);
        }
        let p = prime_big();
        let m = big_mod_floor(&acc, &p);
        proof {
            lemma_mod_division_less_than_divisor(hex_val(s@), prime_int());
        }
        Ok(Value(m))
    }

    /// Writes the canonical representative as minimal lower-case
    /// hexadecimal: no leading zero, and just "0" for the zero element.
    pub fn to_hex_string(&self) -> (r: String)
        requires
            self.valid(),
        ensures
            r@.len() > 0,
            forall|i: int| 0 <= i < r@.len() ==> is_lower_hex_digit(r@[i]),
            hex_val(r@) == self@,
            self@ != 0 ==> hex_digit_val(r@[0]) != 0,
            self@ == 0 ==> r@.len() == 1,
    {
        let zero = big_from_u64(0);
        if self.is_zero() {
            let mut out: Vec<u8> = Vec::new();
            out.push(48);
            let st = ascii_to_string(out);
            proof {
                assert(st@.len() == 1);
                assert(st@[0] == 48u8 as char);
                assert((48u8 as char) as u32 == 48);
                assert(st@.drop_last() =~= Seq::<char>::empty());
                assert(st@.last() == st@[0]);
                assert(hex_val(st@.drop_last()) == 0);
                assert(hex_digit_val(st@.last()) == 0);
                assert(hex_val(st@) == hex_val(st@.drop_last()) * 16 + hex_digit_val(st@.last()));
            }
            return st;
        }
        let sixteen = big_from_u64(16);
        let mut cur = big_clone(&self.0);
        let mut digits: Vec<u8> = Vec::new();
        proof {
            reveal(pow);
            assert(digits@.map_values(|b: u8| b as char) =~= Seq::<char>::empty());
            assert(pow(16, 0) == 1);
            assert(big_val(cur) * 1 == big_val(cur));
        }
        while !big_eq(&cur, &zero)
            invariant
                big_val(zero) == 0,
                big_val(sixteen) == 16,
                big_val(cur) >= 0,
                self@ == hex_val_lsb(digits@.map_values(|b: u8| b as char)) + big_val(cur) * pow(
                    16,
                    digits@.len(),
                ),
                forall|j: int|
                    0 <= j < digits@.len() ==> digits@[j] < 128 && is_lower_hex_digit(
                        #[trigger] digits@[j] as char,
                    ),
                big_val(cur) == 0 ==> digits@.len() > 0 && hex_digit_val(
                    digits@[digits@.len() - 1] as char,
                ) != 0,
            decreases big_val(cur),
        {
            let ghost cv: int = big_val(cur);
            let ghost k: nat = digits@.len();
            let ghost prefix: Seq<char> = digits@.map_values(|b: u8| b as char);
            let d = big_mod_floor(&cur, &sixteen);
            let q = big_div_floor(&cur, &sixteen);
            let du = big_to_u64(&d);
            let b: u8 = if du < 10 {
                48 + (du as u8)
            } else {
                87 + (du as u8)
            };
            digits.push(b);
            cur = q;
            proof {
                reveal(pow);
                lemma_fundamental_div_mod(cv, 16);
                lemma_mod_division_less_than_divisor(cv, 16);
                lemma_div_is_strictly_smaller(cv, 16);
                assert((b as char) as u32 == b);
                assert(hex_digit_val(b as char) == cv % 16);
                assert(digits@.map_values(|x: u8| x as char) =~= prefix.push(b as char));
                lemma_hex_val_lsb_push(prefix, b as char);
                assert(pow(16, k + 1) == 16 * pow(16, k));
                assert(cv * pow(16, k) == (cv % 16) * pow(16, k) + (cv / 16) * (16 * pow(16, k)))
                    by (nonlinear_arith)
                    requires
                        cv == 16 * (cv / 16) + cv % 16,
                ;
            }
        }
        let n = digits.len();
        let mut out: Vec<u8> = Vec::new();
        let mut j = n;
        while j > 0
            invariant
                j <= n,
                n == digits@.len(),
                out@.len() == n - j,
                forall|m: int| 0 <= m < out@.len() ==> out@[m] == digits@[n - 1 - m],
                forall|m: int|
                    0 <= m < digits@.len() ==> digits@[m] < 128 && is_lower_hex_digit(
                        #[trigger] digits@[m] as char,
                    ),
            decreases j,
        {
            j = j - 1;
            let b = digits[j];
            out.push(b);
        }
        proof {
            assert(out@ =~= digits@.reverse());
            assert(out@.map_values(|b: u8| b as char) =~= digits@.map_values(
                |b: u8| b as char,
            ).reverse());
            lemma_hex_val_reverse(digits@.map_values(|b: u8| b as char));
        }
        let st = ascii_to_string(out);
        proof {
            assert(st@ =~= digits@.map_values(|b: u8| b as char).reverse());
        }
        st
    }
}

} // verus!
