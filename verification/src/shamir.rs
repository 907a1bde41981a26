//! Share generation and reconstruction.
//!
//! A secret field element is embedded as the constant term of a polynomial
//! with random nonzero higher coefficients; shares are the polynomial's
//! values at random nonzero points. Any `t` shares with distinct
//! x-coordinates recover the secret by Lagrange interpolation at zero.

use vstd::prelude::*;
use crate::Error;
use crate::field::{Value, prime_int, fadd, fsub, fmul, finv, invertible, gcd, hex_val, is_hex_digit, is_lower_hex_digit, hex_digit_val, has_inverse, lemma_finv_works, lemma_mul_inverse};
use vstd::arithmetic::power::{pow, lemma0_pow};
use vstd::arithmetic::div_mod::{lemma_small_mod, lemma_add_mod_noop, lemma_mul_mod_noop_left, lemma_mul_mod_noop_right, lemma_mul_mod_noop_general};
use vstd::slice::slice_index_get;

verus! {

/// How often a whole batch of random elements is redrawn after one
/// containing zero, before the entropy source is deemed broken.
pub const MAX_BATCH_TRIES: usize = 64;

/// One share: the polynomial's value `y` at the evaluation index `x`.
pub struct Point {
    pub x: Value,
    pub y: Value,
}

impl Point {
    /// Both coordinates are canonical representatives.
    pub open spec fn valid(&self) -> bool {
        self.x.valid() && self.y.valid()
    }

    /// A copy of the share.
    pub fn dup(&self) -> (r: Point)
        ensures
            r.x@ == self.x@,
            r.y@ == self.y@,
    {
        Point { x: self.x.dup(), y: self.y.dup() }
    }
}

/// A share rendered for transport: each coordinate as a hexadecimal string.
pub struct JsonPoint {
    pub x: String,
    pub y: String,
}

/// A nonempty string of hexadecimal digits.
pub open spec fn hex_record_ok(s: Seq<char>) -> bool {
    s.len() > 0 && forall|i: int| 0 <= i < s.len() ==> is_hex_digit(#[trigger] s[i])
}

/// Both coordinates of a record are well-formed hexadecimal.
pub open spec fn record_ok(jp: JsonPoint) -> bool {
    hex_record_ok(jp.x@) && hex_record_ok(jp.y@)
}

/// The canonical rendering of a coordinate: minimal lower-case hexadecimal
/// denoting exactly the given representative, a single zero digit included.
pub open spec fn canonical_hex(s: Seq<char>, v: int) -> bool {
    &&& s.len() > 0
    &&& (forall|i: int| 0 <= i < s.len() ==> is_lower_hex_digit(#[trigger] s[i]))
    &&& hex_val(s) == v
    &&& (v != 0 ==> hex_digit_val(s[0]) != 0)
    &&& (v == 0 ==> s.len() == 1)
}

impl JsonPoint {
    /// Renders a share's coordinates as canonical hexadecimal strings.
    pub fn from(p: &Point) -> (r: JsonPoint)
        requires
            p.valid(),
        ensures
            record_ok(r),
            canonical_hex(r.x@, p.x@),
            canonical_hex(r.y@, p.y@),
    {
        JsonPoint { x: p.x.to_hex_string(), y: p.y.to_hex_string() }
    }

    /// Parses the two coordinates back into a share; any string that is not
    /// plain hexadecimal makes the record malformed.
    pub fn to_point(&self) -> (r: Result<Point, Error>)
        ensures
            r matches Ok(pt) ==> pt.valid() && pt.x@ == hex_val(self.x@) % prime_int() && pt.y@
                == hex_val(self.y@) % prime_int(),
            (r is Ok) <==> record_ok(*self),
            r is Err ==> r == Err::<Point, Error>(Error::MalformedInput),
    {
        let x = match Value::parse_hex(self.x.as_str()) {
            Ok(v) => v,
            Err(_) => {
                return Err(Error::MalformedInput);
            },
        };
        let y = match Value::parse_hex(self.y.as_str()) {
            Ok(v) => v,
            Err(_) => {
                return Err(Error::MalformedInput);
            },
        };
        Ok(Point { x, y })
    }
}

/// Parses a whole run of records; one malformed record fails the run, and
/// no partial result is handed out.
pub fn parse_points(records: &Vec<JsonPoint>) -> (r: Result<Vec<Point>, Error>)
    ensures
        r matches Ok(ps) ==> ps@.len() == records@.len() && (forall|i: int|
            0 <= i < ps@.len() ==> (#[trigger] ps@[i]).valid() && ps@[i].x@ == hex_val(
                records@[i].x@,
            ) % prime_int() && ps@[i].y@ == hex_val(records@[i].y@) % prime_int()),
        (r is Ok) <==> (forall|i: int| 0 <= i < records@.len() ==> record_ok(#[trigger] records@[i])),
        r is Err ==> r == Err::<Vec<Point>, Error>(Error::MalformedInput),
{
    let mut out: Vec<Point> = Vec::new();
    let mut i: usize = 0;
    while i < records.len()
        invariant
            i <= records@.len(),
            out@.len() == i,
            forall|k: int| 0 <= k < i ==> record_ok(#[trigger] records@[k]),
            forall|k: int|
                0 <= k < i ==> (#[trigger] out@[k]).valid() && out@[k].x@ == hex_val(
                    records@[k].x@,
                ) % prime_int() && out@[k].y@ == hex_val(records@[k].y@) % prime_int(),
        decreases records@.len() - i,
    {
        let pt = match records[i].to_point() {
            Ok(pt) => pt,
            Err(_) => {
                return Err(Error::MalformedInput);
            },
        };
        out.push(pt);
        i = i + 1;
    }
    Ok(out)
}

/// The unreduced value at `x` of the polynomial with constant term `s` and
/// higher coefficients `cs`, where `cs[i]` multiplies `x^(i+1)`.
pub open spec fn poly_full(s: int, cs: Seq<int>, x: int) -> int
    decreases cs.len(),
{
    if cs.len() == 0 {
        s
    } else {
        poly_full(s, cs.drop_last(), x) + cs.last() * pow(x, cs.len())
    }
}

/// The field value of the polynomial at `x`.
pub open spec fn poly_at(s: int, cs: Seq<int>, x: int) -> int {
    poly_full(s, cs, x) % prime_int()
}

/// Every coefficient is a nonzero canonical representative.
pub open spec fn all_nonzero_coeffs(cs: Seq<int>) -> bool {
    forall|k: int| 0 <= k < cs.len() ==> 0 < #[trigger] cs[k] < prime_int()
}

/// The shares all lie on the polynomial with constant term `secret` and
/// higher coefficients `cs`, at nonzero evaluation indices.
pub open spec fn shares_of_poly(secret: int, cs: Seq<int>, ps: Seq<Point>) -> bool {
    forall|i: int|
        0 <= i < ps.len() ==> (#[trigger] ps[i]).valid() && ps[i].x@ != 0 && ps[i].y@ == poly_at(
            secret,
            cs,
            ps[i].x@,
        )
}

/// The shares come from some polynomial of degree `t - 1` whose constant
/// term is the secret and whose higher coefficients are all nonzero.
pub open spec fn valid_sharing(secret: int, t: int, ps: Seq<Point>) -> bool {
    exists|cs: Seq<int>|
        #[trigger] shares_of_poly(secret, cs, ps) && cs.len() == t - 1 && all_nonzero_coeffs(cs)
}

/// The x-coordinates of a run of shares.
pub open spec fn xs_of(ps: Seq<Point>) -> Seq<int> {
    ps.map_values(|p: Point| p.x@)
}

/// Two distinct shares carry the same x-coordinate.
pub open spec fn has_duplicate_x(ps: Seq<Point>) -> bool {
    exists|i: int, j: int|
        #![trigger ps[i].x@, ps[j].x@]
        0 <= i < ps.len() && 0 <= j < ps.len() && i != j && ps[i].x@ == ps[j].x@
}

/// Every denominator of the Lagrange basis for index `j` has an inverse:
/// `x_j - x_i` is coprime with the modulus for every other index `i`.
pub open spec fn denoms_ok(j: int, xs: Seq<int>) -> bool {
    forall|i: int| 0 <= i < xs.len() && i != j ==> invertible(#[trigger] fsub(xs[j], xs[i]))
}

/// Every Lagrange denominator of every index has an inverse.
pub open spec fn all_denoms_ok(xs: Seq<int>) -> bool {
    forall|j: int| 0 <= j < xs.len() ==> #[trigger] denoms_ok(j, xs)
}

/// The Lagrange basis for index `j` at zero, over the first `k` shares:
/// the product of `(0 - x_i) / (x_j - x_i)` for `i < k`, `i != j`.
pub open spec fn basis_prefix(j: int, xs: Seq<int>, k: int) -> int
    decreases k,
{
    if k <= 0 {
        1
    } else if k - 1 == j {
        basis_prefix(j, xs, k - 1)
    } else {
        fmul(basis_prefix(j, xs, k - 1), fmul(fsub(0, xs[k - 1]), finv(fsub(xs[j], xs[k - 1]))))
    }
}

/// The Lagrange basis for index `j` evaluated at zero.
pub open spec fn lagrange_basis_zero(j: int, xs: Seq<int>) -> int {
    basis_prefix(j, xs, xs.len() as int)
}

/// The interpolated value at zero over the first `k` shares: the running
/// sum of `y_j` times the basis for `j`.
pub open spec fn interp_prefix(ps: Seq<Point>, k: int) -> int
    decreases k,
{
    if k <= 0 {
        0
    } else {
        fadd(interp_prefix(ps, k - 1), fmul(ps[k - 1].y@, lagrange_basis_zero(k - 1, xs_of(ps))))
    }
}

/// The value that Lagrange interpolation at zero assigns to a run of shares.
pub open spec fn interpolate_zero(ps: Seq<Point>) -> int {
    interp_prefix(ps, ps.len() as int)
}

/// At zero every higher term vanishes, so the polynomial's unreduced value
/// is its constant term.
proof fn lemma_poly_full_at_zero(s: int, cs: Seq<int>)
    ensures
        poly_full(s, cs, 0) == s,
    decreases cs.len(),
{
    if cs.len() > 0 {
        lemma_poly_full_at_zero(s, cs.drop_last());
        lemma0_pow(cs.len());
    }
}

/// The generated polynomial embeds the secret: its value at zero is the
/// secret itself.
pub proof fn lemma_secret_at_zero(s: int, cs: Seq<int>)
    requires
        0 <= s < prime_int(),
    ensures
        poly_at(s, cs, 0) == s,
{
    lemma_poly_full_at_zero(s, cs);
    lemma_small_mod(s as nat, prime_int() as nat);
}

/// Reconstruction at the smallest threshold: two shares of a polynomial of
/// degree one whose x-difference has an inverse interpolate back to the
/// secret. The analogue for higher thresholds holds by the uniqueness of
/// polynomial interpolation and is exercised by the test suite.
pub proof fn lemma_reconstruct_two(s: int, c: int, ps: Seq<Point>)
    requires
        0 <= s < prime_int(),
        ps.len() == 2,
        shares_of_poly(s, seq![c], ps),
        has_inverse(fsub(ps[0].x@, ps[1].x@)),
    ensures
        interpolate_zero(ps) == s,
{
    reveal(pow);
    let p = prime_int();
    let xs = xs_of(ps);
    let x0 = ps[0].x@;
    let x1 = ps[1].x@;
    let y0 = ps[0].y@;
    let y1 = ps[1].y@;
    let cs = seq![c];
    assert(ps[0].valid() && ps[1].valid());
    assert(xs[0] == x0 && xs[1] == x1 && xs.len() == 2);

    // The share values, written out: y_i is s + c * x_i reduced.
    assert(cs.drop_last() =~= Seq::<int>::empty());
    assert(cs.last() == c && cs.len() == 1);
    assert(pow(x0, 1) == x0 * pow(x0, 0) && pow(x0, 0) == 1);
    assert(pow(x1, 1) == x1 * pow(x1, 0) && pow(x1, 0) == 1);
    assert(poly_full(s, Seq::<int>::empty(), x0) == s);
    assert(poly_full(s, Seq::<int>::empty(), x1) == s);
    assert(poly_full(s, cs, x0) == poly_full(s, cs.drop_last(), x0) + c * pow(x0, 1));
    assert(poly_full(s, cs, x1) == poly_full(s, cs.drop_last(), x1) + c * pow(x1, 1));
    assert(poly_full(s, cs, x0) == s + c * x0);
    assert(poly_full(s, cs, x1) == s + c * x1);
    assert(y0 == (s + c * x0) % p);
    assert(y1 == (s + c * x1) % p);

    // The two inverses: W inverts x0 - x1, and 0 - W inverts x1 - x0.
    let dd = fsub(x0, x1);
    let w = finv(dd);
    lemma_finv_works(dd);
    let dr = fsub(x1, x0);
    let mw = fsub(0, w);
    assert(fmul(dr, mw) == 1) by {
        lemma_mul_mod_noop_general(x1 - x0, 0 - w, p);
        assert((x1 - x0) * (0 - w) == (x0 - x1) * w) by (nonlinear_arith);
        lemma_mul_mod_noop_left(x0 - x1, w, p);
    }
    lemma_mul_inverse(dr, mw);

    // The two basis values at zero.
    let l0 = lagrange_basis_zero(0, xs);
    let l1 = lagrange_basis_zero(1, xs);
    assert(basis_prefix(0, xs, 1) == basis_prefix(0, xs, 0));
    assert(l0 == fmul(1, fmul(fsub(0, x1), w)));
    lemma_small_mod(fmul(fsub(0, x1), w) as nat, p as nat);
    assert(l0 == fmul(fsub(0, x1), w));
    assert(basis_prefix(1, xs, 2) == basis_prefix(1, xs, 1));
    assert(basis_prefix(1, xs, 0) == 1);
    assert(basis_prefix(1, xs, 1) == fmul(
        basis_prefix(1, xs, 0),
        fmul(fsub(0, xs[0]), finv(fsub(xs[1], xs[0]))),
    ));
    assert(l1 == fmul(1, fmul(fsub(0, x0), mw)));
    lemma_small_mod(fmul(fsub(0, x0), mw) as nat, p as nat);
    assert(l1 == fmul(fsub(0, x0), mw));
    assert(l0 == ((0 - x1) * w) % p) by {
        lemma_mul_mod_noop_left(0 - x1, w, p);
    }
    assert(l1 == (x0 * w) % p) by {
        lemma_mul_mod_noop_general(0 - x0, 0 - w, p);
        assert((0 - x0) * (0 - w) == x0 * w) by (nonlinear_arith);
    }

    // The two terms of the interpolation sum, unreduced.
    let a0 = (s + c * x0) * ((0 - x1) * w);
    let a1 = (s + c * x1) * (x0 * w);
    let t0 = fmul(y0, l0);
    let t1 = fmul(y1, l1);
    assert(t0 == a0 % p) by {
        lemma_mul_mod_noop_general(s + c * x0, (0 - x1) * w, p);
    }
    assert(t1 == a1 % p) by {
        lemma_mul_mod_noop_general(s + c * x1, x0 * w, p);
    }

    // The sum collapses: the cross terms cancel and the difference times
    // its inverse is one.
    assert(interp_prefix(ps, 0) == 0);
    assert(interp_prefix(ps, 1) == fadd(0, t0));
    lemma_small_mod(t0 as nat, p as nat);
    assert(interp_prefix(ps, 2) == fadd(t0, t1));
    assert(fadd(t0, t1) == (a0 + a1) % p) by {
        lemma_add_mod_noop(a0, a1, p);
    }
    assert((s + c * x0) * ((0 - x1) * w) + (s + c * x1) * (x0 * w) == s * ((x0 - x1) * w))
        by (nonlinear_arith);
    assert(a0 + a1 == s * ((x0 - x1) * w));
    assert(((x0 - x1) * w) % p == 1) by {
        lemma_mul_mod_noop_left(x0 - x1, w, p);
    }
    assert((s * ((x0 - x1) * w)) % p == s) by {
        lemma_mul_mod_noop_right(s, (x0 - x1) * w, p);
        lemma_small_mod(s as nat, p as nat);
    }
}

/// Two shares with the same x-coordinate leave some Lagrange denominator
/// zero, and zero has no inverse.
pub proof fn lemma_duplicate_x_breaks_denoms(xs: Seq<int>, i: int, j: int)
    requires
        0 <= i < xs.len(),
        0 <= j < xs.len(),
        i != j,
        xs[i] == xs[j],
    ensures
        !all_denoms_ok(xs),
{
    let p = prime_int();
    assert(fsub(xs[j], xs[i]) == 0) by {
        lemma_small_mod(0, p as nat);
    }
    assert(gcd(p as nat, 0) == p as nat);
    assert(!invertible(fsub(xs[j], xs[i])));
    assert(!denoms_ok(j, xs));
}

/// Draws one batch of `len` independent random field elements; a batch
/// containing a zero element is discarded whole and redrawn.
pub fn make_nonzero_inputs(len: usize) -> (r: Result<Vec<Value>, Error>)
    ensures
        r matches Ok(vs) ==> vs@.len() == len && (forall|i: int|
            0 <= i < vs@.len() ==> (#[trigger] vs@[i]).valid() && vs@[i]@ != 0),
        r is Err ==> r == Err::<Vec<Value>, Error>(Error::RandomnessUnavailable),
{
    let mut tries: usize = 0;
    while tries < MAX_BATCH_TRIES
        decreases MAX_BATCH_TRIES - tries,
    {
        let mut batch: Vec<Value> = Vec::new();
        let mut saw_zero = false;
        let mut i: usize = 0;
        while i < len
            invariant
                i <= len,
                batch@.len() == i,
                forall|k: int|
                    0 <= k < i ==> (#[trigger] batch@[k]).valid() && (!saw_zero ==> batch@[k]@
                        != 0),
            decreases len - i,
        {
            let v = match Value::random() {
                Ok(v) => v,
                Err(_) => {
                    return Err(Error::RandomnessUnavailable);
                },
            };
            if v.is_zero() {
                saw_zero = true;
            }
            batch.push(v);
            i = i + 1;
        }
        if !saw_zero {
            return Ok(batch);
        }
        tries = tries + 1;
    }
    Err(Error::RandomnessUnavailable)
}

/// Evaluates the polynomial at `x` by iterative accumulation: a running
/// power of `x` is multiplied by each coefficient and added in.
fn apply_polynomial(secret: &Value, coeffs: &Vec<Value>, x: &Value) -> (r: Point)
    requires
        secret.valid(),
        x.valid(),
        forall|i: int| 0 <= i < coeffs@.len() ==> (#[trigger] coeffs@[i]).valid(),
    ensures
        r.valid(),
        r.x@ == x@,
        r.y@ == poly_at(secret@, coeffs@.map_values(|c: Value| c@), x@),
{
    let ghost cs: Seq<int> = coeffs@.map_values(|c: Value| c@);
    let ghost p: int = prime_int();
    let mut out = secret.dup();
    let mut x_to_the = x.dup();
    proof {
        reveal(pow);
        assert(cs.take(0) =~= Seq::<int>::empty());
        lemma_small_mod(secret@ as nat, p as nat);
        assert(pow(x@, 1) == x@ * pow(x@, 0));
        lemma_small_mod(x@ as nat, p as nat);
    }
    let mut i: usize = 0;
    while i < coeffs.len()
        invariant
            i <= coeffs@.len(),
            p == prime_int(),
            cs == coeffs@.map_values(|c: Value| c@),
            secret.valid(),
            x.valid(),
            forall|k: int| 0 <= k < coeffs@.len() ==> (#[trigger] coeffs@[k]).valid(),
            out.valid(),
            x_to_the.valid(),
            out@ == poly_at(secret@, cs.take(i as int), x@),
            x_to_the@ == pow(x@, (i + 1) as nat) % p,
        decreases coeffs@.len() - i,
    {
        let term = coeffs[i].mul(&x_to_the);
        out = out.add(&term);
        x_to_the = x_to_the.mul(x);
        proof {
            reveal(pow);
            let e: nat = (i + 1) as nat;
            lemma_mul_mod_noop_right(cs[i as int], pow(x@, e), p);
            lemma_add_mod_noop(poly_full(secret@, cs.take(i as int), x@), cs[i as int] * pow(
                x@,
                e,
            ), p);
            assert(cs.take(i + 1).drop_last() =~= cs.take(i as int));
            assert(cs.take(i + 1).last() == cs[i as int]);
            lemma_mul_mod_noop_left(pow(x@, e), x@, p);
            assert(pow(x@, (e + 1) as nat) == x@ * pow(x@, e));
            assert(x@ * pow(x@, e) == pow(x@, e) * x@) by (nonlinear_arith);
        }
        i = i + 1;
    }
    proof {
        assert(cs.take(coeffs@.len() as int) =~= cs);
    }
    Point { x: x.dup(), y: out }
}

/// Splits a secret into `n` shares, any `t` of which recover it: a random
/// polynomial of degree `t - 1` with the secret as constant term is built
/// and evaluated at `n` random nonzero indices. The parameters are checked
/// before any randomness is drawn.
pub fn secret_sharing(secret: &Value, t: usize, n: usize) -> (r: Result<Vec<Point>, Error>)
    requires
        secret.valid(),
    ensures
        (r == Err::<Vec<Point>, Error>(Error::InvalidArgument)) <==> (t <= 1 || t > n),
        r is Err ==> r == Err::<Vec<Point>, Error>(Error::InvalidArgument) || r == Err::<
            Vec<Point>,
            Error,
        >(Error::RandomnessUnavailable),
        r matches Ok(ps) ==> ps@.len() == n && valid_sharing(secret@, t as int, ps@),
{
    if t <= 1 || t > n {
        return Err(Error::InvalidArgument);
    }
    let coeffs = match make_nonzero_inputs(t - 1) {
        Ok(v) => v,
        Err(_) => {
            return Err(Error::RandomnessUnavailable);
        },
    };
    let xs = match make_nonzero_inputs(n) {
        Ok(v) => v,
        Err(_) => {
            return Err(Error::RandomnessUnavailable);
        },
    };
    let ghost cs: Seq<int> = coeffs@.map_values(|c: Value| c@);
    let mut out: Vec<Point> = Vec::new();
    let mut i: usize = 0;
    while i < n
        invariant
            i <= n,
            out@.len() == i,
            xs@.len() == n,
            coeffs@.len() == (t - 1) as int,
            cs == coeffs@.map_values(|c: Value| c@),
            secret.valid(),
            forall|k: int| 0 <= k < coeffs@.len() ==> (#[trigger] coeffs@[k]).valid(),
            forall|k: int| 0 <= k < xs@.len() ==> (#[trigger] xs@[k]).valid() && xs@[k]@ != 0,
            forall|k: int|
                0 <= k < i ==> (#[trigger] out@[k]).valid() && out@[k].x@ != 0 && out@[k].y@
                    == poly_at(secret@, cs, out@[k].x@),
        decreases n - i,
    {
        let pt = apply_polynomial(secret, &coeffs, &xs[i]);
        out.push(pt);
        i = i + 1;
    }
    proof {
        assert(shares_of_poly(secret@, cs, out@));
        assert(all_nonzero_coeffs(cs));
        assert(cs.len() == t - 1);
        assert(valid_sharing(secret@, t as int, out@));
    }
    Ok(out)
}

/// The value at zero of the Lagrange basis polynomial for index `j`: the
/// product over every other share of `(0 - x_i) / (x_j - x_i)`. A share
/// whose x-coordinate equals `x_j` makes a denominator zero and fails.
pub fn lagrange_basis_at_zero(j: usize, points: &[Point]) -> (r: Result<Value, Error>)
    requires
        j < points@.len(),
        forall|i: int| 0 <= i < points@.len() ==> (#[trigger] points@[i]).valid(),
    ensures
        r matches Ok(v) ==> v.valid() && v@ == lagrange_basis_zero(j as int, xs_of(points@)),
        (r is Ok) <==> denoms_ok(j as int, xs_of(points@)),
        r is Err ==> r == Err::<Value, Error>(Error::DivisionByZero),
{
    let ghost xs: Seq<int> = xs_of(points@);
    let pj = slice_index_get(points, j);
    let mut accum = Value::one();
    let mut i: usize = 0;
    while i < points.len()
        invariant
            i <= points@.len(),
            j < points@.len(),
            xs == xs_of(points@),
            forall|k: int| 0 <= k < points@.len() ==> (#[trigger] points@[k]).valid(),
            pj == points@[j as int],
            accum.valid(),
            accum@ == basis_prefix(j as int, xs, i as int),
            forall|m: int|
                0 <= m < i && m != j ==> invertible(#[trigger] fsub(xs[j as int], xs[m])),
        decreases points@.len() - i,
    {
        if i != j {
            let pi = slice_index_get(points, i);
            let zero = Value::zero();
            let numerator = zero.sub(&pi.x);
            let denominator = pj.x.sub(&pi.x);
            let q = match numerator.div(&denominator) {
                Ok(q) => q,
                Err(_) => {
                    proof {
                        assert(!invertible(fsub(xs[j as int], xs[i as int])));
                        assert(!denoms_ok(j as int, xs));
                    }
                    return Err(Error::DivisionByZero);
                },
            };
            accum = accum.mul(&q);
        }
        i = i + 1;
    }
    Ok(accum)
}

/// Recovers the constant term of the polynomial through the given shares:
/// the sum over all shares of `y_j` times the Lagrange basis for `j` at
/// zero. Two shares with one x-coordinate fail with a division by zero.
pub fn extract_secret(points: &[Point]) -> (r: Result<Value, Error>)
    requires
        forall|i: int| 0 <= i < points@.len() ==> (#[trigger] points@[i]).valid(),
    ensures
        r matches Ok(v) ==> v.valid() && v@ == interpolate_zero(points@),
        (r is Ok) <==> all_denoms_ok(xs_of(points@)),
        r is Err ==> r == Err::<Value, Error>(Error::DivisionByZero),
        has_duplicate_x(points@) ==> r == Err::<Value, Error>(Error::DivisionByZero),
{
    let ghost xs: Seq<int> = xs_of(points@);
    let mut accum = Value::zero();
    let mut j: usize = 0;
    while j < points.len()
        invariant
            j <= points@.len(),
            xs == xs_of(points@),
            forall|k: int| 0 <= k < points@.len() ==> (#[trigger] points@[k]).valid(),
            accum.valid(),
            accum@ == interp_prefix(points@, j as int),
            forall|m: int| 0 <= m < j ==> #[trigger] denoms_ok(m, xs),
        decreases points@.len() - j,
    {
        let basis = match lagrange_basis_at_zero(j, points) {
            Ok(b) => b,
            Err(_) => {
                proof {
                    assert(!all_denoms_ok(xs));
                }
                return Err(Error::DivisionByZero);
            },
        };
        let pj = slice_index_get(points, j);
        let term = pj.y.mul(&basis);
        accum = accum.add(&term);
        j = j + 1;
    }
    proof {
        if has_duplicate_x(points@) {
            let (di, dj): (int, int) = choose|di: int, dj: int|
                #![trigger points@[di].x@, points@[dj].x@]
                0 <= di < points@.len() && 0 <= dj < points@.len() && di != dj
                    && points@[di].x@ == points@[dj].x@;
            assert(xs[di] == xs[dj]);
            lemma_duplicate_x_breaks_denoms(xs, di, dj);
        }
    }
    Ok(accum)
}

} // verus!

