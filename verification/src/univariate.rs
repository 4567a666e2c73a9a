//! Univariate polynomials over the prime field.
//!
//! A polynomial is an ordered coefficient vector: index `i` holds the
//! coefficient of the degree-`i` term. The canonical degree is the highest
//! index holding a nonzero coefficient, with -1 standing for the zero
//! polynomial. Trailing zero coefficients are kept in storage but carry no
//! meaning: degree and equality ignore them.

use vstd::prelude::*;
use vstd::arithmetic::div_mod::lemma_small_mod;
use vstd::arithmetic::div_mod::lemma_mod_bound;
use vstd::arithmetic::div_mod::lemma_add_mod_noop;
use crate::field::FieldElement;
use crate::field::P;
use crate::field::spec_addm;
use crate::field::spec_mulm;
use crate::field::spec_negm;
use crate::field::spec_gcd;
use crate::field::lemma_nonzero_product;

verus! {

/// The coefficient of `s` at index `k`: zero outside the stored range.
pub open spec fn coeff(s: Seq<nat>, k: int) -> nat {
    if 0 <= k < s.len() {
        s[k]
    } else {
        0
    }
}

/// The canonical degree: the highest index holding a nonzero coefficient,
/// or -1 when there is none.
pub open spec fn spec_degree(s: Seq<nat>) -> int
    decreases s.len(),
{
    if s.len() == 0 {
        -1
    } else if s[s.len() - 1] != 0 {
        s.len() - 1
    } else {
        spec_degree(s.drop_last())
    }
}

/// Every stored coefficient is a reduced residue.
pub open spec fn coeffs_wf(s: Seq<nat>) -> bool {
    forall|i: int| 0 <= i < s.len() ==> s[i] < P as nat
}

/// Ring equality: equal canonical degrees, and equal coefficients up to and
/// including that degree.
pub open spec fn poly_eq(a: Seq<nat>, b: Seq<nat>) -> bool {
    spec_degree(a) == spec_degree(b) && (forall|k: int|
        0 <= k <= spec_degree(a) ==> coeff(a, k) == coeff(b, k))
}

/// Coefficientwise negation of a coefficient vector.
pub open spec fn spec_poly_neg(s: Seq<nat>) -> Seq<nat> {
    Seq::new(s.len(), |i: int| spec_negm(s[i]))
}

/// The sum of two coefficient vectors: the other addend when one is the
/// zero polynomial, otherwise coefficientwise residue addition over the
/// longer stored length.
pub open spec fn spec_poly_add(a: Seq<nat>, b: Seq<nat>) -> Seq<nat> {
    if spec_degree(a) == -1 {
        b
    } else if spec_degree(b) == -1 {
        a
    } else {
        Seq::new(
            if a.len() >= b.len() {
                a.len()
            } else {
                b.len()
            },
            |k: int| spec_addm(coeff(a, k), coeff(b, k)),
        )
    }
}

/// The first `n` convolution terms at output index `k`: the sum of
/// `a[i] * b[k - i]` over `i < n`, not yet reduced.
pub open spec fn conv_partial(a: Seq<nat>, b: Seq<nat>, k: int, n: nat) -> nat
    decreases n,
{
    if n == 0 {
        0
    } else {
        conv_partial(a, b, k, (n - 1) as nat) + coeff(a, n - 1) * coeff(b, k - (n - 1))
    }
}

/// The product of two coefficient vectors: empty when either stores nothing,
/// otherwise the reduced convolution over length `a.len() + b.len()`.
pub open spec fn spec_poly_mul(a: Seq<nat>, b: Seq<nat>) -> Seq<nat> {
    if a.len() == 0 || b.len() == 0 {
        Seq::empty()
    } else {
        Seq::new(a.len() + b.len(), |k: int| conv_partial(a, b, k, a.len()) % (P as nat))
    }
}

/// The canonical degree lies below the stored length.
pub proof fn lemma_degree_bound(s: Seq<nat>)
    ensures
        -1 <= spec_degree(s) < s.len(),
    decreases s.len(),
{
    if s.len() == 0 {
    } else if s[s.len() - 1] != 0 {
    } else {
        lemma_degree_bound(s.drop_last());
    }
}

/// Above the canonical degree every coefficient is zero.
pub proof fn lemma_coeff_above_degree(s: Seq<nat>, k: int)
    requires
        k > spec_degree(s),
    ensures
        coeff(s, k) == 0,
    decreases s.len(),
{
    if s.len() == 0 {
    } else if s[s.len() - 1] != 0 {
    } else {
        if 0 <= k < s.len() - 1 {
            lemma_coeff_above_degree(s.drop_last(), k);
            assert(s.drop_last()[k] == s[k]);
        }
    }
}

/// A nonnegative canonical degree marks a nonzero coefficient.
pub proof fn lemma_leading_coeff_nonzero(s: Seq<nat>)
    requires
        spec_degree(s) >= 0,
    ensures
        coeff(s, spec_degree(s)) != 0,
    decreases s.len(),
{
    if s.len() == 0 {
    } else if s[s.len() - 1] != 0 {
    } else {
        lemma_leading_coeff_nonzero(s.drop_last());
        lemma_degree_bound(s.drop_last());
        assert(s.drop_last()[spec_degree(s)] == s[spec_degree(s)]);
    }
}

/// Vectors with the same coefficient function are equal in the ring.
pub proof fn lemma_coeffwise_eq(a: Seq<nat>, b: Seq<nat>)
    requires
        forall|k: int| coeff(a, k) == coeff(b, k),
    ensures
        poly_eq(a, b),
{
    lemma_degree_bound(a);
    lemma_degree_bound(b);
    let da = spec_degree(a);
    let db = spec_degree(b);
    if da > db {
        lemma_leading_coeff_nonzero(a);
        lemma_coeff_above_degree(b, da);
        assert(false);
    }
    if db > da {
        lemma_leading_coeff_nonzero(b);
        lemma_coeff_above_degree(a, db);
        assert(false);
    }
}

/// Stored or not, every coefficient of a well-formed vector is reduced.
pub proof fn lemma_coeff_bound(s: Seq<nat>, k: int)
    requires
        coeffs_wf(s),
    ensures
        coeff(s, k) < P as nat,
{
}

/// Coefficients of a sum are residue sums of coefficients.
pub proof fn lemma_add_coeff(a: Seq<nat>, b: Seq<nat>, k: int)
    requires
        coeffs_wf(a),
        coeffs_wf(b),
    ensures
        coeff(spec_poly_add(a, b), k) == spec_addm(coeff(a, k), coeff(b, k)),
{
    lemma_coeff_bound(a, k);
    lemma_coeff_bound(b, k);
    if spec_degree(a) == -1 {
        if k > -1 {
            lemma_coeff_above_degree(a, k);
        }
        lemma_small_mod(coeff(b, k), P as nat);
    } else if spec_degree(b) == -1 {
        if k > -1 {
            lemma_coeff_above_degree(b, k);
        }
        lemma_small_mod(coeff(a, k), P as nat);
    } else {
        let m = if a.len() >= b.len() {
            a.len() as int
        } else {
            b.len() as int
        };
        if !(0 <= k < m) {
            lemma_small_mod(0, P as nat);
        }
    }
}

/// Sums of well-formed vectors are well-formed.
pub proof fn lemma_add_wf(a: Seq<nat>, b: Seq<nat>)
    requires
        coeffs_wf(a),
        coeffs_wf(b),
    ensures
        coeffs_wf(spec_poly_add(a, b)),
{
    let s = spec_poly_add(a, b);
    assert forall|i: int| 0 <= i < s.len() implies s[i] < P as nat by {
        if spec_degree(a) != -1 && spec_degree(b) != -1 {
            lemma_mod_bound((coeff(a, i) + coeff(b, i)) as int, P as int);
        }
    };
}

/// Law: polynomial addition is associative up to ring equality.
pub proof fn lemma_poly_add_assoc(a: Seq<nat>, b: Seq<nat>, c: Seq<nat>)
    requires
        coeffs_wf(a),
        coeffs_wf(b),
        coeffs_wf(c),
    ensures
        poly_eq(
            spec_poly_add(spec_poly_add(a, b), c),
            spec_poly_add(a, spec_poly_add(b, c)),
        ),
{
    lemma_add_wf(a, b);
    lemma_add_wf(b, c);
    let lhs = spec_poly_add(spec_poly_add(a, b), c);
    let rhs = spec_poly_add(a, spec_poly_add(b, c));
    assert forall|k: int| coeff(lhs, k) == coeff(rhs, k) by {
        lemma_add_coeff(spec_poly_add(a, b), c, k);
        lemma_add_coeff(a, b, k);
        lemma_add_coeff(a, spec_poly_add(b, c), k);
        lemma_add_coeff(b, c, k);
        lemma_coeff_bound(a, k);
        lemma_coeff_bound(b, k);
        lemma_coeff_bound(c, k);
        let x = coeff(a, k) as int;
        let y = coeff(b, k) as int;
        let z = coeff(c, k) as int;
        let p = P as int;
        lemma_small_mod(coeff(a, k), P as nat);
        lemma_small_mod(coeff(c, k), P as nat);
        lemma_add_mod_noop(x + y, z, p);
        lemma_add_mod_noop(x, y + z, p);
    };
    lemma_coeffwise_eq(lhs, rhs);
}

/// Law: adding the zero polynomial gives the same polynomial in the ring.
pub proof fn lemma_poly_add_zero(a: Seq<nat>, z: Seq<nat>)
    requires
        spec_degree(z) == -1,
    ensures
        poly_eq(spec_poly_add(a, z), a),
{
    if spec_degree(a) == -1 {
        assert(spec_poly_add(a, z) == z);
    }
}

/// Law: ring equality is reflexive.
pub proof fn lemma_poly_eq_reflexive(a: Seq<nat>)
    ensures
        poly_eq(a, a),
{
}

/// Law: ring equality is symmetric.
pub proof fn lemma_poly_eq_symmetric(a: Seq<nat>, b: Seq<nat>)
    requires
        poly_eq(a, b),
    ensures
        poly_eq(b, a),
{
    assert forall|k: int| 0 <= k <= spec_degree(b) implies coeff(b, k) == coeff(a, k) by {
        assert(coeff(a, k) == coeff(b, k));
    };
}

/// Law: ring equality is transitive.
pub proof fn lemma_poly_eq_transitive(a: Seq<nat>, b: Seq<nat>, c: Seq<nat>)
    requires
        poly_eq(a, b),
        poly_eq(b, c),
    ensures
        poly_eq(a, c),
{
    assert forall|k: int| 0 <= k <= spec_degree(a) implies coeff(a, k) == coeff(c, k) by {
        assert(coeff(a, k) == coeff(b, k));
        assert(coeff(b, k) == coeff(c, k));
    };
}

/// Appending trailing zeros never moves the canonical degree.
pub proof fn lemma_degree_padding(a: Seq<nat>, n: nat)
    ensures
        spec_degree(a + Seq::new(n, |i: int| 0nat)) == spec_degree(a),
    decreases n,
{
    let padded = a + Seq::new(n, |i: int| 0nat);
    if n == 0 {
        assert(padded =~= a);
    } else {
        lemma_degree_padding(a, (n - 1) as nat);
        let prev = a + Seq::new((n - 1) as nat, |i: int| 0nat);
        assert(padded[padded.len() - 1] == 0);
        assert(padded.drop_last() =~= prev);
    }
}

/// Law: a polynomial equals itself under any amount of trailing zero
/// padding.
pub proof fn lemma_poly_eq_padding(a: Seq<nat>, n: nat)
    ensures
        poly_eq(a, a + Seq::new(n, |i: int| 0nat)),
{
    lemma_degree_padding(a, n);
    lemma_degree_bound(a);
}

/// Every convolution term above the degree sum vanishes.
proof fn lemma_conv_above(a: Seq<nat>, b: Seq<nat>, k: int, n: nat)
    requires
        k > spec_degree(a) + spec_degree(b),
    ensures
        conv_partial(a, b, k, n) == 0,
    decreases n,
{
    if n > 0 {
        lemma_conv_above(a, b, k, (n - 1) as nat);
        let i = n - 1;
        if i > spec_degree(a) {
            lemma_coeff_above_degree(a, i);
        } else {
            lemma_coeff_above_degree(b, k - i);
        }
    }
}

/// At the degree sum only the product of the leading coefficients remains.
proof fn lemma_conv_top(a: Seq<nat>, b: Seq<nat>, n: nat)
    requires
        spec_degree(a) >= 0,
        spec_degree(b) >= 0,
    ensures
        conv_partial(a, b, spec_degree(a) + spec_degree(b), n) == if n > spec_degree(a) {
            coeff(a, spec_degree(a)) * coeff(b, spec_degree(b))
        } else {
            0nat
        },
    decreases n,
{
    let da = spec_degree(a);
    let db = spec_degree(b);
    if n > 0 {
        lemma_conv_top(a, b, (n - 1) as nat);
        let i = n - 1;
        if i < da {
            lemma_coeff_above_degree(b, da + db - i);
        } else if i > da {
            lemma_coeff_above_degree(a, i);
        }
    }
}

/// Law: for nonzero polynomials the degree of the product is the sum of the
/// degrees. The hypothesis that the leading coefficient of `a` is coprime
/// with the modulus holds of every nonzero residue because the modulus is
/// prime; primality itself is not derived here.
pub proof fn lemma_poly_mul_degree(a: Seq<nat>, b: Seq<nat>)
    requires
        coeffs_wf(a),
        coeffs_wf(b),
        spec_degree(a) >= 0,
        spec_degree(b) >= 0,
        spec_gcd(coeff(a, spec_degree(a)), P as nat) == 1,
    ensures
        spec_degree(spec_poly_mul(a, b)) == spec_degree(a) + spec_degree(b),
{
    let da = spec_degree(a);
    let db = spec_degree(b);
    let prod = spec_poly_mul(a, b);
    lemma_degree_bound(a);
    lemma_degree_bound(b);
    assert(prod.len() == a.len() + b.len());
    lemma_conv_top(a, b, a.len());
    lemma_leading_coeff_nonzero(a);
    lemma_leading_coeff_nonzero(b);
    lemma_coeff_bound(b, db);
    lemma_nonzero_product(coeff(a, da), coeff(b, db));
    assert(coeff(prod, da + db) == spec_mulm(coeff(a, da), coeff(b, db)));
    assert(coeff(prod, da + db) != 0);
    assert forall|k: int| k > da + db implies coeff(prod, k) == 0 by {
        if 0 <= k < prod.len() {
            lemma_conv_above(a, b, k, a.len());
            lemma_small_mod(0, P as nat);
        }
    };
    let d = spec_degree(prod);
    lemma_degree_bound(prod);
    if d > da + db {
        lemma_leading_coeff_nonzero(prod);
        assert(false);
    }
    if d < da + db {
        lemma_coeff_above_degree(prod, da + db);
        assert(false);
    }
}

/// A polynomial: an immutable ordered coefficient vector over the field.
pub struct Univariate {
    coefficients: Vec<FieldElement>,
}

impl View for Univariate {
    type V = Seq<nat>;

    closed spec fn view(&self) -> Seq<nat> {
        Seq::new(self.coefficients@.len(), |i: int| self.coefficients@[i]@)
    }
}

impl Univariate {
    /// A well-formed polynomial stores reduced residues only.
    pub open spec fn wf(&self) -> bool {
        coeffs_wf(self@)
    }

    /// Wraps an explicit coefficient list; index `i` is the degree-`i` term.
    pub fn new(coefficients: Vec<FieldElement>) -> (r: Self)
        ensures
            r@.len() == coefficients@.len(),
            forall|i: int| 0 <= i < r@.len() ==> r@[i] == coefficients@[i]@,
    {
        Univariate { coefficients }
    }

    /// The index of the highest nonzero coefficient, if any.
    fn leading_index(&self) -> (r: Option<usize>)
        ensures
            r is None <==> spec_degree(self@) == -1,
            r matches Some(i) ==> i < self@.len() && i as int == spec_degree(self@),
    {
        let n = self.coefficients.len();
        proof {
            assert(self@.take(n as int) =~= self@);
        }
        let mut i: usize = n;
        while i > 0
            invariant
                i <= n,
                n == self@.len(),
                spec_degree(self@) == spec_degree(self@.take(i as int)),
            decreases i,
        {
            let c = self.coefficients[i - 1];
            if !c.is_zero() {
                proof {
                    let t = self@.take(i as int);
                    assert(t[i as int - 1] == self@[i as int - 1]);
                    assert(spec_degree(t) == i - 1);
                }
                return Option::Some(i - 1);
            }
            proof {
                let t = self@.take(i as int);
                assert(t[i as int - 1] == self@[i as int - 1]);
                assert(t.drop_last() =~= self@.take(i as int - 1));
            }
            i = i - 1;
        }
        proof {
            assert(self@.take(0).len() == 0);
        }
        Option::None
    }

    /// The canonical degree, or -1 for the zero polynomial.
    pub fn degree(&self) -> (d: i32)
        requires
            self@.len() <= 0x7fff_ffff,
        ensures
            d as int == spec_degree(self@),
    {
        match self.leading_index() {
            Option::Some(i) => i as i32,
            Option::None => -1,
        }
    }

    /// Whether this is the zero polynomial: no nonzero coefficient at all.
    pub fn is_zero(&self) -> (r: bool)
        ensures
            r <==> spec_degree(self@) == -1,
    {
        self.leading_index().is_none()
    }

    /// A fresh polynomial with the same stored coefficients.
    fn duplicated(&self) -> (r: Self)
        ensures
            r@ == self@,
    {
        let mut out: Vec<FieldElement> = Vec::new();
        let mut k: usize = 0;
        while k < self.coefficients.len()
            invariant
                k <= self@.len(),
                self@.len() == self.coefficients@.len(),
                out@.len() == k,
                forall|j: int| 0 <= j < k ==> out@[j]@ == self@[j],
            decreases self@.len() - k,
        {
            let c = self.coefficients[k];
            out.push(c);
            k = k + 1;
        }
        let r = Univariate { coefficients: out };
        proof {
            assert(r@ =~= self@);
        }
        r
    }

    /// Coefficientwise negation; the stored length is kept.
    pub fn negate(operand: &Univariate) -> (r: Univariate)
        requires
            operand.wf(),
        ensures
            r.wf(),
            r@ == spec_poly_neg(operand@),
    {
        let mut out: Vec<FieldElement> = Vec::new();
        let mut k: usize = 0;
        while k < operand.coefficients.len()
            invariant
                operand.wf(),
                k <= operand@.len(),
                operand@.len() == operand.coefficients@.len(),
                out@.len() == k,
                forall|j: int| 0 <= j < k ==> out@[j]@ == spec_negm(operand@[j]) && out@[j]@
                    < P as nat,
            decreases operand@.len() - k,
        {
            let c = operand.coefficients[k];
            proof {
                assert(c@ == operand@[k as int]);
            }
            let neg = FieldElement::negate(&c);
            out.push(neg);
            k = k + 1;
        }
        let r = Univariate { coefficients: out };
        proof {
            assert(r@ =~= spec_poly_neg(operand@));
        }
        r
    }

    /// The sum: a copy of the other addend when one operand is the zero
    /// polynomial, otherwise coefficientwise field addition over the longer
    /// stored length.
    pub fn add(left: &Univariate, right: &Univariate) -> (r: Univariate)
        requires
            left.wf(),
            right.wf(),
        ensures
            r.wf(),
            r@ == spec_poly_add(left@, right@),
    {
        if left.is_zero() {
            return right.duplicated();
        }
        if right.is_zero() {
            return left.duplicated();
        }
        let ll = left.coefficients.len();
        let rl = right.coefficients.len();
        let n = if ll >= rl {
            ll
        } else {
            rl
        };
        let mut out: Vec<FieldElement> = Vec::new();
        let mut k: usize = 0;
        while k < n
            invariant
                left.wf(),
                right.wf(),
                ll == left@.len(),
                rl == right@.len(),
                ll == left.coefficients@.len(),
                rl == right.coefficients@.len(),
                n == if ll >= rl { ll as int } else { rl as int },
                k <= n,
                out@.len() == k,
                forall|j: int|
                    0 <= j < k ==> out@[j]@ == spec_addm(coeff(left@, j), coeff(right@, j))
                        && out@[j]@ < P as nat,
            decreases n - k,
        {
            let lc = if k < ll {
                left.coefficients[k]
            } else {
                FieldElement::zero()
            };
            let rc = if k < rl {
                right.coefficients[k]
            } else {
                FieldElement::zero()
            };
            proof {
                assert(lc@ == coeff(left@, k as int));
                assert(rc@ == coeff(right@, k as int));
            }
            let sum = FieldElement::add(&lc, &rc);
            out.push(sum);
            k = k + 1;
        }
        let r = Univariate { coefficients: out };
        proof {
            assert(r@ =~= spec_poly_add(left@, right@));
        }
        r
    }

    /// The difference, as `left` plus the negation of `right`.
    pub fn subtract(left: &Univariate, right: &Univariate) -> (r: Univariate)
        requires
            left.wf(),
            right.wf(),
        ensures
            r.wf(),
            r@ == spec_poly_add(left@, spec_poly_neg(right@)),
    {
        let neg = Univariate::negate(right);
        Univariate::add(left, &neg)
    }

    /// The product by coefficient convolution: output index `i + j`
    /// accumulates `left[i] * right[j]`; the result stores
    /// `len(left) + len(right)` coefficients, or none when either operand
    /// stores none.
    pub fn multiply(left: &Univariate, right: &Univariate) -> (r: Univariate)
        requires
            left.wf(),
            right.wf(),
            left@.len() + right@.len() <= usize::MAX,
        ensures
            r.wf(),
            r@ == spec_poly_mul(left@, right@),
    {
        let ll = left.coefficients.len();
        let rl = right.coefficients.len();
        if ll == 0 || rl == 0 {
            let r = Univariate { coefficients: Vec::new() };
            proof {
                assert(r@ =~= spec_poly_mul(left@, right@));
            }
            return r;
        }
        let n = ll + rl;
        let mut buf: Vec<FieldElement> = Vec::new();
        proof {
            lemma_small_mod(0, P as nat);
        }
        while buf.len() < n
            invariant
                n == left@.len() + right@.len(),
                buf@.len() <= n,
                forall|j: int| 0 <= j < buf@.len() ==> buf@[j]@ == 0,
            decreases n - buf@.len(),
        {
            buf.push(FieldElement::zero());
        }
        let mut i: usize = 0;
        while i < ll
            invariant
                left.wf(),
                right.wf(),
                ll == left@.len(),
                rl == right@.len(),
                ll == left.coefficients@.len(),
                rl == right.coefficients@.len(),
                ll > 0,
                rl > 0,
                n == ll + rl,
                buf@.len() == n,
                i <= ll,
                forall|k: int|
                    0 <= k < n ==> buf@[k]@ == conv_partial(left@, right@, k, i as nat) % (
                    P as nat) && buf@[k]@ < P as nat,
            decreases ll - i,
        {
            let a_i = left.coefficients[i];
            proof {
                assert(a_i@ == left@[i as int]);
            }
            let mut j: usize = 0;
            while j < rl
                invariant
                    left.wf(),
                    right.wf(),
                    ll == left@.len(),
                    rl == right@.len(),
                    ll == left.coefficients@.len(),
                    rl == right.coefficients@.len(),
                    ll > 0,
                    rl > 0,
                    n == ll + rl,
                    buf@.len() == n,
                    i < ll,
                    j <= rl,
                    a_i@ == left@[i as int],
                    forall|k: int| 0 <= k < n ==> buf@[k]@ < P as nat,
                    forall|k: int|
                        0 <= k < n && i <= k < i + j ==> buf@[k]@ == conv_partial(
                            left@,
                            right@,
                            k,
                            (i + 1) as nat,
                        ) % (P as nat),
                    forall|k: int|
                        0 <= k < n && !(i <= k < i + j) ==> buf@[k]@ == conv_partial(
                            left@,
                            right@,
                            k,
                            i as nat,
                        ) % (P as nat),
                decreases rl - j,
            {
                let b_j = right.coefficients[j];
                proof {
                    assert(b_j@ == right@[j as int]);
                }
                let prod = FieldElement::multiply(&a_i, &b_j);
                let idx = i + j;
                let cur = buf[idx];
                let updated = FieldElement::add(&cur, &prod);
                buf.set(idx, updated);
                proof {
                    let k = idx as int;
                    let a = left@;
                    let b = right@;
                    assert(coeff(a, i as int) == a[i as int]);
                    assert(coeff(b, k - i) == b[j as int]);
                    assert(conv_partial(a, b, k, (i + 1) as nat) == conv_partial(a, b, k, i as nat)
                        + coeff(a, i as int) * coeff(b, k - i));
                    lemma_add_mod_noop(
                        conv_partial(a, b, k, i as nat) as int,
                        (a[i as int] * b[j as int]) as int,
                        P as int,
                    );
                    lemma_mod_bound(
                        (conv_partial(a, b, k, i as nat) + a[i as int] * b[j as int]) as int,
                        P as int,
                    );
                }
                j = j + 1;
            }
            proof {
                assert forall|k: int|
                    0 <= k < n implies buf@[k]@ == conv_partial(
                    left@,
                    right@,
                    k,
                    (i + 1) as nat,
                ) % (P as nat) by {
                    if !(i <= k < i + rl) {
                        assert(coeff(right@, k - i) == 0);
                        reveal_with_fuel(conv_partial, 2);
                        assert(conv_partial(left@, right@, k, (i + 1) as nat) == conv_partial(
                            left@,
                            right@,
                            k,
                            i as nat,
                        ) + coeff(left@, i as int) * coeff(right@, k - i));
                        assert(coeff(left@, i as int) * 0 == 0);
                    }
                };
            }
            i = i + 1;
        }
        let r = Univariate { coefficients: buf };
        proof {
            assert(r@ =~= spec_poly_mul(left@, right@));
        }
        r
    }
}

impl PartialEq for Univariate {
    /// Ring equality: equal canonical degrees and equal coefficients up to
    /// and including that degree; trailing zero padding is ignored.
    fn eq(&self, other: &Univariate) -> (r: bool) {
        let my = self.leading_index();
        let theirs = other.leading_index();
        match (my, theirs) {
            (Option::None, Option::None) => true,
            (Option::Some(i), Option::Some(j)) => {
                if i != j {
                    return false;
                }
                let cap = self.coefficients.len();
                let mut k: usize = 0;
                let mut same: bool = true;
                while k <= i
                    invariant
                        cap == self@.len(),
                        i as int == spec_degree(self@),
                        i as int == spec_degree(other@),
                        i < self@.len(),
                        i < other@.len(),
                        self@.len() == self.coefficients@.len(),
                        other@.len() == other.coefficients@.len(),
                        k <= i + 1,
                        same <==> (forall|m: int| 0 <= m < k ==> self@[m] == other@[m]),
                    decreases i + 1 - k,
                {
                    let e = FieldElement::equals(&self.coefficients[k], &other.coefficients[k]);
                    proof {
                        assert(self.coefficients@[k as int]@ == self@[k as int]);
                        assert(other.coefficients@[k as int]@ == other@[k as int]);
                    }
                    same = same && e;
                    k = k + 1;
                }
                proof {
                    if same {
                        assert forall|m: int|
                            0 <= m <= spec_degree(self@) implies coeff(self@, m) == coeff(
                            other@,
                            m,
                        ) by {
                            assert(self@[m] == other@[m]);
                        };
                        assert(poly_eq(self@, other@));
                    }
                    if poly_eq(self@, other@) {
                        assert forall|m: int| 0 <= m < i + 1 implies self@[m] == other@[m] by {
                            assert(coeff(self@, m) == coeff(other@, m));
                        };
                    }
                }
                same
            },
            _ => false,
        }
    }
}

impl vstd::std_specs::cmp::PartialEqSpecImpl for Univariate {
    open spec fn obeys_eq_spec() -> bool {
        true
    }

    open spec fn eq_spec(&self, other: &Univariate) -> bool {
        poly_eq(self@, other@)
    }
}

} // verus!
