//! Elements of the prime field of integers modulo `P`.
//!
//! A `FieldElement` is an immutable residue in `[0, P)`. All operations are
//! pure: they take their operands by reference and return a fresh element.
//! The wide intermediates that modular addition, subtraction and
//! multiplication need (the operands are close to 128 bits wide) are taken
//! from `primitive_types`; everything around them is verified against the
//! mathematical residue arithmetic.

use vstd::prelude::*;
use vstd::arithmetic::div_mod::lemma_mod_bound;
use vstd::arithmetic::div_mod::lemma_small_mod;
use vstd::arithmetic::div_mod::lemma_mod_self_0;
use vstd::arithmetic::div_mod::lemma_mod_multiples_vanish;
use vstd::arithmetic::div_mod::lemma_sub_mod_noop;
use vstd::arithmetic::div_mod::lemma_sub_mod_noop_right;
use vstd::arithmetic::div_mod::lemma_mul_mod_noop_left;
use vstd::arithmetic::div_mod::lemma_mul_mod_noop_right;
use vstd::arithmetic::div_mod::lemma_fundamental_div_mod;
use vstd::arithmetic::mul::lemma_mul_is_commutative;
use vstd::arithmetic::mul::lemma_mul_is_associative;
use vstd::arithmetic::power::pow;
use vstd::arithmetic::power::lemma_pow0;
use vstd::arithmetic::power::lemma_square_is_pow2;
use vstd::arithmetic::power::lemma_pow_multiplies;
use vstd::arithmetic::power::lemma_pow_mod_noop;
use primitive_types::U256;
use primitive_types::U512;

verus! {

/// The modulus shared by every field element: the prime `1 + 407 * 2^119`.
pub const P: u128 = 270497897142230380135924736767050121217;

/// Residue addition: `(a + b) mod P`.
pub open spec fn spec_addm(a: nat, b: nat) -> nat {
    (a + b) % (P as nat)
}

/// Residue multiplication: `(a * b) mod P`.
pub open spec fn spec_mulm(a: nat, b: nat) -> nat {
    (a * b) % (P as nat)
}

/// Residue subtraction: `(P + a - b) mod P`, the modulus added up front so
/// that the difference never goes negative for `b <= P`.
pub open spec fn spec_subm(a: nat, b: nat) -> nat {
    ((P as int + a as int - b as int) % (P as int)) as nat
}

/// Residue negation: `(P - a) mod P`.
pub open spec fn spec_negm(a: nat) -> nat {
    ((P as int - a as int) % (P as int)) as nat
}

/// The decimal digits of `n` as ASCII bytes, most significant first, with
/// no sign and no leading zeros.
pub open spec fn spec_decimal(n: nat) -> Seq<u8>
    decreases n,
{
    if n < 10 {
        seq![(48 + n) as u8]
    } else {
        spec_decimal(n / 10).push((48 + n % 10) as u8)
    }
}

/// The greatest common divisor, by the Euclidean recursion.
pub open spec fn spec_gcd(a: nat, b: nat) -> nat
    decreases b,
{
    if b == 0 {
        a
    } else {
        spec_gcd(b, a % b)
    }
}

/// The multiplicative inverse of `v` modulo `P`: the reduced residue whose
/// product with `v` is one, when such a residue exists.
pub open spec fn spec_inverse(v: nat) -> nat {
    choose|w: nat| w < P as nat && spec_mulm(v, w) == 1
}

/// The gcd of zero and a positive number is that number.
proof fn lemma_gcd_of_zero(y: nat)
    requires
        y > 0,
    ensures
        spec_gcd(0, y) == y,
{
    lemma_small_mod(0, y);
    assert(spec_gcd(0, y) == spec_gcd(y, 0));
}

/// One step of a Euclidean coefficient chain kept reduced modulo `m`: if
/// `oc` and `c` are the coefficients standing for `orr` and `rr`, then
/// `(m + oc - (q * c) % m) % m` is the coefficient standing for `orr % rr`.
proof fn lemma_coeff_step(v: int, m: int, oc: int, c: int, orr: int, rr: int, q: int, nc: int)
    requires
        m > 0,
        rr > 0,
        orr >= 0,
        q == orr / rr,
        (oc * v) % m == orr % m,
        (c * v) % m == rr % m,
        nc == (m + oc - (q * c) % m) % m,
    ensures
        0 <= nc < m,
        (nc * v) % m == (orr % rr) % m,
{
    lemma_mod_bound(m + oc - (q * c) % m, m);
    assert(nc == (m * 1 + (oc - (q * c) % m)) % m);
    lemma_mod_multiples_vanish(1, oc - (q * c) % m, m);
    lemma_sub_mod_noop_right(oc, q * c, m);
    assert(nc == (oc - q * c) % m);
    lemma_mul_mod_noop_left(nc, v, m);
    lemma_mul_mod_noop_left(oc - q * c, v, m);
    assert((nc * v) % m == ((oc - q * c) * v) % m);
    assert((oc - q * c) * v == oc * v - q * (c * v)) by (nonlinear_arith);
    lemma_sub_mod_noop(oc * v, q * (c * v), m);
    lemma_mul_mod_noop_right(q, c * v, m);
    lemma_mul_mod_noop_right(q, rr, m);
    assert((q * (c * v)) % m == (q * rr) % m);
    lemma_sub_mod_noop(orr, q * rr, m);
    assert((nc * v) % m == (orr - q * rr) % m);
    lemma_fundamental_div_mod(orr, rr);
    assert(orr - q * rr == orr % rr);
}

/// Two reduced residues that both invert `v` are the same residue.
proof fn lemma_inverse_unique(v: nat, w1: nat, w2: nat)
    requires
        w1 < P as nat,
        w2 < P as nat,
        spec_mulm(v, w1) == 1,
        spec_mulm(v, w2) == 1,
    ensures
        w1 == w2,
{
    let p = P as int;
    let vi = v as int;
    let a1 = w1 as int;
    let a2 = w2 as int;
    assert((vi * a1) % p == 1);
    assert((vi * a2) % p == 1);
    lemma_mul_mod_noop_right(a1, vi * a2, p);
    assert((a1 * ((vi * a2) % p)) % p == (a1 * (vi * a2)) % p);
    lemma_small_mod(w1, P as nat);
    assert((a1 * (vi * a2)) % p == a1);
    assert(a1 * (vi * a2) == (vi * a1) * a2) by (nonlinear_arith);
    lemma_mul_mod_noop_left(vi * a1, a2, p);
    assert((((vi * a1) % p) * a2) % p == ((vi * a1) * a2) % p);
    lemma_small_mod(w2, P as nat);
    assert(((vi * a1) * a2) % p == a2);
}

/// Multiplying by an inverse of `b` undoes multiplying by `b`.
proof fn lemma_mul_by_inverse_cancels(l: nat, b: nat, w: nat)
    requires
        l < P as nat,
        spec_mulm(b, w) == 1,
    ensures
        spec_mulm(spec_mulm(l, w), b) == l,
{
    let p = P as int;
    let li = l as int;
    let bi = b as int;
    let wi = w as int;
    lemma_mul_mod_noop_left(li * wi, bi, p);
    assert((((li * wi) % p) * bi) % p == ((li * wi) * bi) % p);
    assert((li * wi) * bi == li * (bi * wi)) by (nonlinear_arith);
    lemma_mul_mod_noop_right(li, bi * wi, p);
    assert((li * ((bi * wi) % p)) % p == (li * (bi * wi)) % p);
    lemma_small_mod(l, P as nat);
}

/// One step of square-and-multiply: halving the exponent and squaring the
/// base keeps the running product unchanged modulo `m`.
proof fn lemma_exp_step(a: int, b: int, e: nat, m: int)
    requires
        m > 0,
        e > 0,
    ensures
        e % 2 == 0 ==> (a * pow((b * b) % m, (e / 2) as nat)) % m == (a * pow(b, e)) % m,
        e % 2 == 1 ==> (((a * b) % m) * pow((b * b) % m, (e / 2) as nat)) % m == (a * pow(
            b,
            e,
        )) % m,
{
    reveal(pow);
    let h = (e / 2) as nat;
    let x = pow((b * b) % m, h);
    lemma_pow_mod_noop(b * b, h, m);
    lemma_square_is_pow2(b);
    lemma_pow_multiplies(b, 2, h);
    assert(x % m == pow(b, 2 * h) % m);
    if e % 2 == 0 {
        assert(e == 2 * h);
        lemma_mul_mod_noop_right(a, x, m);
        lemma_mul_mod_noop_right(a, pow(b, 2 * h), m);
        assert((a * x) % m == (a * pow(b, e)) % m);
    } else {
        assert(e == 2 * h + 1);
        lemma_mul_mod_noop_left(a * b, x, m);
        assert((((a * b) % m) * x) % m == ((a * b) * x) % m);
        lemma_mul_mod_noop_right(a * b, x, m);
        lemma_mul_mod_noop_right(a * b, pow(b, 2 * h), m);
        assert(((a * b) * x) % m == ((a * b) * pow(b, 2 * h)) % m);
        lemma_mul_is_associative(a, b, pow(b, 2 * h));
        assert(pow(b, e) == b * pow(b, (e - 1) as nat));
        assert((a * b) * pow(b, 2 * h) == a * pow(b, e));
    }
}

/// Bezout's identity: some integer combination of `a` and `b` equals their
/// greatest common divisor.
proof fn lemma_bezout(a: nat, b: nat)
    ensures
        exists|s: int, t: int| #![trigger s * a, t * b] s * a + t * b == spec_gcd(a, b),
    decreases b,
{
    if b == 0 {
        assert(1int * a + 0int * b == spec_gcd(a, b));
    } else {
        lemma_bezout(b, a % b);
        let (s2, t2) = choose|s2: int, t2: int|
            #![trigger s2 * b, t2 * ((a % b) as int)]
            s2 * b + t2 * ((a % b) as int) == spec_gcd(b, a % b);
        lemma_fundamental_div_mod(a as int, b as int);
        let q = a as int / b as int;
        assert((a % b) as int == a - q * b);
        let s = t2;
        let t = s2 - t2 * q;
        assert(s * a + t * b == s2 * b + t2 * (a - q * b)) by (nonlinear_arith)
            requires
                s == t2,
                t == s2 - t2 * q,
        ;
        assert(s * a + t * b == spec_gcd(a, b));
    }
}

/// A residue coprime with the modulus has a multiplicative inverse, and
/// `spec_inverse` denotes it.
pub proof fn lemma_inverse_exists(v: nat)
    requires
        spec_gcd(v, P as nat) == 1,
    ensures
        spec_inverse(v) < P as nat,
        spec_mulm(v, spec_inverse(v)) == 1,
{
    let p = P as int;
    lemma_bezout(v, P as nat);
    let (s, t) = choose|s: int, t: int|
        #![trigger s * v, t * (P as nat)]
        s * v + t * (P as nat) == spec_gcd(v, P as nat);
    assert(s * v == p * (-t) + 1) by (nonlinear_arith)
        requires
            s * v + t * p == 1,
    ;
    lemma_mod_multiples_vanish(-t, 1, p);
    lemma_small_mod(1, P as nat);
    assert((s * v) % p == 1);
    let w = s % p;
    lemma_mod_bound(s, p);
    lemma_mul_mod_noop_left(s, v as int, p);
    assert((w * v) % p == 1);
    lemma_mul_is_commutative(w, v as int);
    assert(spec_mulm(v, w as nat) == 1);
    assert(exists|u: nat| u < P as nat && spec_mulm(v, u) == 1);
    let c = spec_inverse(v);
    assert(c < P as nat && spec_mulm(v, c) == 1);
}

/// In the field a product of two reduced residues vanishes only if a factor
/// vanishes; stated here for a factor coprime with the modulus, which every
/// nonzero residue is, the modulus being prime.
pub proof fn lemma_nonzero_product(x: nat, y: nat)
    requires
        y < P as nat,
        y != 0,
        spec_gcd(x, P as nat) == 1,
    ensures
        spec_mulm(x, y) != 0,
{
    let p = P as int;
    if spec_mulm(x, y) == 0 {
        lemma_inverse_exists(x);
        let w = spec_inverse(x);
        assert((x as int * w as int) % p == 1);
        lemma_mul_mod_noop_right(w as int, x as int * y as int, p);
        assert((w as int * ((x as int * y as int) % p)) % p == (w as int * (x as int * y as int))
            % p);
        lemma_small_mod(0, P as nat);
        assert((w as int * (x as int * y as int)) % p == 0);
        assert(w as int * (x as int * y as int) == (x as int * w as int) * y as int)
            by (nonlinear_arith);
        lemma_mul_mod_noop_left(x as int * w as int, y as int, p);
        lemma_small_mod(y, P as nat);
        assert(y as int == 0);
    }
}

/// Law: adding the zero element leaves any element unchanged.
pub proof fn lemma_add_zero_law(a: FieldElement)
    requires
        a.wf(),
    ensures
        spec_addm(a@, 0) == a@,
{
    lemma_small_mod(a@, P as nat);
}

/// Law: multiplying by the one element leaves any element unchanged.
pub proof fn lemma_mul_one_law(a: FieldElement)
    requires
        a.wf(),
    ensures
        spec_mulm(a@, 1) == a@,
{
    assert(a@ * 1 == a@);
    lemma_small_mod(a@, P as nat);
}

/// Law: an element plus its negation is the zero element.
pub proof fn lemma_add_negate_law(a: FieldElement)
    requires
        a.wf(),
    ensures
        spec_addm(a@, spec_negm(a@)) == 0,
{
    lemma_mod_self_0(P as int);
    if a@ == 0 {
        lemma_small_mod(0, P as nat);
        assert(spec_negm(0) == 0);
        lemma_small_mod(0, P as nat);
    } else {
        lemma_small_mod((P as int - a@ as int) as nat, P as nat);
        assert(spec_negm(a@) == (P as int - a@ as int) as nat);
        assert(a@ + spec_negm(a@) == P as nat);
    }
}

/// Law: a nonzero element times its inverse is the one element. The
/// coprimality hypothesis holds of every nonzero residue because the modulus
/// is prime; primality itself is not derived here.
pub proof fn lemma_mul_inverse_law(a: FieldElement)
    requires
        a.wf(),
        a@ != 0,
        spec_gcd(a@, P as nat) == 1,
    ensures
        spec_mulm(a@, spec_inverse(a@)) == 1,
{
    lemma_inverse_exists(a@);
}

/// Law: dividing by a nonzero `b` is multiplying by the inverse of `b`, so
/// multiplying the quotient back by `b` recovers the dividend. The
/// coprimality hypothesis holds of every nonzero residue because the modulus
/// is prime; primality itself is not derived here.
pub proof fn lemma_divide_is_multiply_by_inverse(a: FieldElement, b: FieldElement)
    requires
        a.wf(),
        b.wf(),
        b@ != 0,
        spec_gcd(b@, P as nat) == 1,
    ensures
        spec_mulm(spec_mulm(a@, spec_inverse(b@)), b@) == a@,
{
    lemma_inverse_exists(b@);
    lemma_mul_by_inverse_cancels(a@, b@, spec_inverse(b@));
}

/// An element of the field: a residue modulo `P`.
#[derive(Clone, Copy, Debug, PartialEq, Eq, Structural)]
pub struct FieldElement {
    value: u128,
}

impl View for FieldElement {
    type V = nat;

    closed spec fn view(&self) -> nat {
        self.value as nat
    }
}

/// Relies on `primitive_types::U256`: widening addition of two 128-bit
/// values followed by the remainder, so the sum is never truncated.
#[verifier::external_body]
fn add_mod_wide(a: u128, b: u128, m: u128) -> (r: u128)
    requires
        m > 0,
    ensures
        r as nat == (a as nat + b as nat) % (m as nat),
{
    ((U256::from(a) + U256::from(b)) % U256::from(m)).as_u128()
}

/// Relies on `primitive_types::U256`: widening multiplication of two 128-bit
/// values followed by the remainder, so the product is never truncated.
#[verifier::external_body]
fn mul_mod_wide(a: u128, b: u128, m: u128) -> (r: u128)
    requires
        m > 0,
    ensures
        r as nat == (a as nat * b as nat) % (m as nat),
{
    ((U256::from(a) * U256::from(b)) % U256::from(m)).as_u128()
}

/// Relies on `primitive_types::U512`: `((m + a) - b) % m` computed at double
/// width, so adding the modulus before subtracting cannot overflow and the
/// difference cannot underflow for `b <= m`.
#[verifier::external_body]
fn sub_mod_wide(a: u128, b: u128, m: u128) -> (r: u128)
    requires
        m > 0,
        b <= m,
    ensures
        r as int == (m as int + a as int - b as int) % (m as int),
{
    (((U512::from(m) + U512::from(a)) - U512::from(b)) % U512::from(m)).as_u128()
}

impl FieldElement {
    /// A well-formed element holds a fully reduced residue.
    pub open spec fn wf(self) -> bool {
        self@ < P as nat
    }

    /// Builds the element representing `value mod P`.
    pub fn new(value: u128) -> (r: Self)
        ensures
            r.wf(),
            r@ == value as nat % (P as nat),
    {
        proof {
            lemma_mod_bound(value as int, P as int);
        }
        FieldElement { value: value % P }
    }

    /// The additive identity.
    pub fn zero() -> (r: Self)
        ensures
            r.wf(),
            r@ == 0,
    {
        FieldElement { value: 0 }
    }

    /// The multiplicative identity.
    pub fn one() -> (r: Self)
        ensures
            r.wf(),
            r@ == 1,
    {
        FieldElement { value: 1 }
    }

    /// Whether this is the additive identity.
    pub fn is_zero(&self) -> (r: bool)
        ensures
            r <==> self@ == 0,
    {
        self.value == 0
    }

    /// Structural equality of residues.
    pub fn equals(left: &FieldElement, right: &FieldElement) -> (r: bool)
        ensures
            r <==> left@ == right@,
    {
        left.value == right.value
    }

    /// The sum of the two operands.
    pub fn add(left: &FieldElement, right: &FieldElement) -> (r: Self)
        requires
            left.wf(),
            right.wf(),
        ensures
            r.wf(),
            r@ == spec_addm(left@, right@),
    {
        let v = add_mod_wide(left.value, right.value, P);
        proof {
            lemma_mod_bound((left@ + right@) as int, P as int);
        }
        FieldElement { value: v }
    }

    /// The product of the two operands.
    pub fn multiply(left: &FieldElement, right: &FieldElement) -> (r: Self)
        requires
            left.wf(),
            right.wf(),
        ensures
            r.wf(),
            r@ == spec_mulm(left@, right@),
    {
        let v = mul_mod_wide(left.value, right.value, P);
        proof {
            lemma_mod_bound((left@ * right@) as int, P as int);
        }
        FieldElement { value: v }
    }

    /// The difference of the two operands, `left - right` in the field.
    pub fn subtract(left: &FieldElement, right: &FieldElement) -> (r: Self)
        requires
            left.wf(),
            right.wf(),
        ensures
            r.wf(),
            r@ == spec_subm(left@, right@),
    {
        let v = sub_mod_wide(left.value, right.value, P);
        proof {
            lemma_mod_bound(P as int + left@ - right@, P as int);
        }
        FieldElement { value: v }
    }

    /// The additive inverse of the operand.
    pub fn negate(operand: &FieldElement) -> (r: Self)
        requires
            operand.wf(),
        ensures
            r.wf(),
            r@ == spec_negm(operand@),
    {
        if operand.value == 0 {
            proof {
                lemma_mod_self_0(P as int);
            }
            FieldElement { value: 0 }
        } else {
            proof {
                lemma_small_mod((P - operand@) as nat, P as nat);
            }
            FieldElement { value: P - operand.value }
        }
    }

    /// The decimal rendering of the residue, as ASCII digit bytes.
    pub fn to_decimal(&self) -> (r: Vec<u8>)
        ensures
            r@ == spec_decimal(self@),
    {
        let mut out: Vec<u8> = Vec::new();
        push_decimal(self.value, &mut out);
        proof {
            assert(out@ =~= spec_decimal(self@));
        }
        out
    }

    /// The decimal rendering of the residue, as a string.
    pub fn to_decimal_string(&self) -> (r: String)
        ensures
            r@ == spec_decimal(self@).map_values(|d: u8| d as char),
    {
        decimal_string_of(self.value)
    }

    /// The multiplicative inverse, by the extended Euclidean algorithm.
    ///
    /// Inverting the zero element is a precondition failure in the reference
    /// semantics; here it is surfaced as `None`, so the operation stays
    /// total and callers decide how to propagate the failure.
    pub fn inverse(operand: &FieldElement) -> (r: Option<FieldElement>)
        requires
            operand.wf(),
        ensures
            r is None <==> (operand@ == 0 || spec_gcd(operand@, P as nat) != 1),
            r matches Some(w) ==> w.wf() && spec_mulm(operand@, w@) == 1 && w@ == spec_inverse(
                operand@,
            ),
    {
        if operand.value == 0 {
            proof {
                lemma_gcd_of_zero(P as nat);
            }
            return Option::None;
        }
        let (sc, _tc, g) = xgd(operand.value, P);
        if g == 1 {
            proof {
                lemma_small_mod(1, P as nat);
                lemma_mul_is_commutative(sc as int, operand@ as int);
                assert(spec_mulm(operand@, sc as nat) == 1);
                assert(exists|w: nat| w < P as nat && spec_mulm(operand@, w) == 1);
                let c = spec_inverse(operand@);
                assert(c < P as nat && spec_mulm(operand@, c) == 1);
                lemma_inverse_unique(operand@, sc as nat, c);
            }
            Option::Some(FieldElement { value: sc })
        } else {
            Option::None
        }
    }

    /// The quotient `left / right`, computed as `left` times the inverse of
    /// `right`. Dividing by the zero element is a precondition failure in
    /// the reference semantics; here it is surfaced as `None`.
    pub fn divide(left: &FieldElement, right: &FieldElement) -> (r: Option<FieldElement>)
        requires
            left.wf(),
            right.wf(),
        ensures
            r is None <==> (right@ == 0 || spec_gcd(right@, P as nat) != 1),
            r matches Some(d) ==> d.wf() && d@ == spec_mulm(left@, spec_inverse(right@))
                && spec_mulm(d@, right@) == left@,
    {
        match FieldElement::inverse(right) {
            Option::None => Option::None,
            Option::Some(w) => {
                let d = FieldElement::multiply(left, &w);
                proof {
                    lemma_mul_by_inverse_cancels(left@, right@, w@);
                }
                Option::Some(d)
            },
        }
    }

    /// Raises the operand to the given power by binary square-and-multiply,
    /// so the number of field multiplications is proportional to the
    /// exponent's bit length.
    pub fn exponentiate(&self, exponent: u128) -> (r: Self)
        requires
            self.wf(),
        ensures
            r.wf(),
            r@ as int == pow(self@ as int, exponent as nat) % (P as int),
    {
        let mut acc = FieldElement::one();
        let mut base = *self;
        let mut e: u128 = exponent;
        while e > 0
            invariant
                acc.wf(),
                base.wf(),
                (acc@ as int * pow(base@ as int, e as nat)) % (P as int) == pow(
                    self@ as int,
                    exponent as nat,
                ) % (P as int),
            decreases e,
        {
            proof {
                lemma_exp_step(acc@ as int, base@ as int, e as nat, P as int);
            }
            if e % 2 == 1 {
                acc = FieldElement::multiply(&acc, &base);
            }
            base = FieldElement::multiply(&base, &base);
            e = e / 2;
        }
        proof {
            lemma_pow0(base@ as int);
            lemma_small_mod(acc@, P as nat);
        }
        acc
    }
}

/// Appends the decimal digits of `v` to `out`, most significant first.
fn push_decimal(v: u128, out: &mut Vec<u8>)
    ensures
        final(out)@ == old(out)@ + spec_decimal(v as nat),
    decreases v,
{
    if v < 10 {
        out.push(48 + (v as u8));
        proof {
            assert(final(out)@ =~= old(out)@ + spec_decimal(v as nat));
        }
    } else {
        push_decimal(v / 10, out);
        out.push(48 + ((v % 10) as u8));
        proof {
            assert(final(out)@ =~= old(out)@ + spec_decimal(v as nat));
        }
    }
}

/// Relies on u128's `Display` implementation: the decimal digits of the
/// value, most significant first, with no sign and no leading zeros.
#[verifier::external_body]
fn decimal_string_of(v: u128) -> (r: String)
    ensures
        r@ == spec_decimal(v as nat).map_values(|d: u8| d as char),
{
    format!("{}", v)
}

/// The extended Euclidean algorithm on `(x, y)`: the returned triple
/// `(s, t, g)` has `g == gcd(x, y)`, with `s` and `t` the Bezout
/// coefficients of `x` and `y` kept reduced modulo `y` and modulo `x`
/// respectively, so the chains never go negative.
pub fn xgd(x: u128, y: u128) -> (res: (u128, u128, u128))
    ensures
        res.2 as nat == spec_gcd(x as nat, y as nat),
        y > 0 ==> res.0 < y && (res.0 as nat * x as nat) % (y as nat) == res.2 as nat % (y as nat),
        x > 0 ==> res.1 < x && (res.1 as nat * y as nat) % (x as nat) == res.2 as nat % (x as nat),
{
    if y == 0 {
        proof {
            if x > 0 {
                lemma_mod_self_0(x as int);
                lemma_small_mod(0, x as nat);
            }
        }
        return (1, 0, x);
    }
    if x == 0 {
        proof {
            lemma_gcd_of_zero(y as nat);
            lemma_mod_self_0(y as int);
            lemma_small_mod(0, y as nat);
        }
        return (0, 1, y);
    }
    let mut old_r: u128 = x;
    let mut r: u128 = y;
    let mut old_s: u128 = 1 % y;
    let mut s: u128 = 0;
    let mut old_t: u128 = 0;
    let mut t: u128 = 1 % x;
    proof {
        lemma_mul_mod_noop_left(1, x as int, y as int);
        lemma_mul_mod_noop_left(1, y as int, x as int);
        lemma_mod_self_0(y as int);
        lemma_mod_self_0(x as int);
        lemma_small_mod(0, y as nat);
        lemma_small_mod(0, x as nat);
        lemma_mod_bound(1, y as int);
        lemma_mod_bound(1, x as int);
    }
    while r != 0
        invariant
            x > 0,
            y > 0,
            old_s < y,
            s < y,
            old_t < x,
            t < x,
            spec_gcd(old_r as nat, r as nat) == spec_gcd(x as nat, y as nat),
            (old_s as nat * x as nat) % (y as nat) == old_r as nat % (y as nat),
            (s as nat * x as nat) % (y as nat) == r as nat % (y as nat),
            (old_t as nat * y as nat) % (x as nat) == old_r as nat % (x as nat),
            (t as nat * y as nat) % (x as nat) == r as nat % (x as nat),
        decreases r,
    {
        let q = old_r / r;
        let new_r = old_r % r;
        let qs = mul_mod_wide(q, s, y);
        proof {
            lemma_mod_bound(q as int * s as int, y as int);
        }
        let new_s = sub_mod_wide(old_s, qs, y);
        let qt = mul_mod_wide(q, t, x);
        proof {
            lemma_mod_bound(q as int * t as int, x as int);
        }
        let new_t = sub_mod_wide(old_t, qt, x);
        proof {
            lemma_coeff_step(
                x as int,
                y as int,
                old_s as int,
                s as int,
                old_r as int,
                r as int,
                q as int,
                new_s as int,
            );
            lemma_coeff_step(
                y as int,
                x as int,
                old_t as int,
                t as int,
                old_r as int,
                r as int,
                q as int,
                new_t as int,
            );
            assert(spec_gcd(old_r as nat, r as nat) == spec_gcd(r as nat, new_r as nat));
        }
        old_r = r;
        r = new_r;
        old_s = s;
        s = new_s;
        old_t = t;
        t = new_t;
    }
    (old_s, old_t, old_r)
}

} // verus!
