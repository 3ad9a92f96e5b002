//! Prime-field arithmetic: the extended Euclidean algorithm, a `Field` of
//! integers modulo a prime, and `FieldElement` values in such a field.
//!
//! A `FieldElement` stores a raw integer that is not forced into `[0, p)`;
//! the ring operations always return a representative of the residue class
//! stated in their contracts, and raw and normalized equality are exposed
//! separately.

use vstd::prelude::*;
use vstd::arithmetic::div_mod::*;
use vstd::arithmetic::power::*;
use vstd::arithmetic::power2::*;
use vstd::math::abs;
use crate::big::{
    Big, big_add, big_div, big_mul, big_rem, big_sub, big_val, lemma_limbs_val_single,
    lemma_tdiv_tmod, lemma_tmod_congruent, limbs_val, tdiv, tmod, wf_big,
};

verus! {

/// Primality of an integer, the property the multiplicative contracts rest on.
pub open spec fn is_prime(p: int) -> bool {
    p >= 2 && forall|d: int| 2 <= d < p ==> #[trigger] (p % d) != 0
}

/// The modulus of the well-known main field: 1 + 407 * 2^119.
pub open spec fn main_modulus() -> int {
    270497897142230380135924736767050121217
}

/// The fixed generator of the main field's multiplicative group.
pub open spec fn main_generator_value() -> int {
    85408008396924667383611388730472331217
}

/// The extended Euclidean recurrences as a mathematical function: the exact
/// Bezout coefficients and generator the iterative algorithm computes, with
/// truncating quotients throughout.
pub open spec fn xgcd_spec(x: int, y: int) -> (int, int, int)
    decreases abs(y) via xgcd_spec_decreases
{
    if y == 0 {
        (1, 0, x)
    } else {
        let q = tdiv(x, y);
        let rec = xgcd_spec(y, x - q * y);
        (rec.1, rec.0 - q * rec.1, rec.2)
    }
}

#[via_fn]
proof fn xgcd_spec_decreases(x: int, y: int) {
    if y != 0 {
        lemma_tdiv_tmod(x, y);
    }
}

/// Extended Euclidean algorithm. For inputs `x`, `y` it returns exactly the
/// triple `(a, b, g)` of the iterative recurrences (`xgcd_spec`), with
/// `a*x + b*y == g` and `g` generating the ideal generated by `x` and `y`:
/// it divides both, and every common divisor divides it (by the Bezout
/// identity). For non-negative inputs `g` is non-negative.
#[verifier::rlimit(100)]
pub fn xgcd(x: &Big, y: &Big) -> (res: (Big, Big, Big))
    requires
        wf_big(*x),
        wf_big(*y),
    ensures
        wf_big(res.0),
        wf_big(res.1),
        wf_big(res.2),
        (big_val(res.0), big_val(res.1), big_val(res.2)) == xgcd_spec(big_val(*x), big_val(*y)),
        big_val(res.0) * big_val(*x) + big_val(res.1) * big_val(*y) == big_val(res.2),
        exists|k: int| big_val(*x) == #[trigger] (k * big_val(res.2)),
        exists|k: int| big_val(*y) == #[trigger] (k * big_val(res.2)),
        big_val(*x) >= 0 && big_val(*y) >= 0 ==> big_val(res.2) >= 0,
{
    let ghost xx = big_val(*x);
    let ghost yy = big_val(*y);
    let mut old_r = x.duplicate();
    let mut r = y.duplicate();
    let mut old_s = Big::from_u64(1);
    let mut s = Big::from_u64(0);
    let mut old_t = Big::from_u64(0);
    let mut t = Big::from_u64(1);
    // `x` and `y` stay integer combinations of `old_r` and `r` throughout.
    let ghost mut cu: int = 1;
    let ghost mut cv: int = 0;
    let ghost mut cw: int = 0;
    let ghost mut cz: int = 1;
    loop
        invariant_except_break
            wf_big(old_r) && wf_big(r) && wf_big(old_s) && wf_big(s) && wf_big(old_t) && wf_big(t),
            big_val(old_s) * xx + big_val(old_t) * yy == big_val(old_r),
            big_val(s) * xx + big_val(t) * yy == big_val(r),
            xx == cu * big_val(old_r) + cv * big_val(r),
            yy == cw * big_val(old_r) + cz * big_val(r),
            xx >= 0 && yy >= 0 ==> big_val(old_r) >= 0 && big_val(r) >= 0,
            xgcd_spec(xx, yy).0 == xgcd_spec(big_val(old_r), big_val(r)).0 * big_val(old_s)
                + xgcd_spec(big_val(old_r), big_val(r)).1 * big_val(s),
            xgcd_spec(xx, yy).1 == xgcd_spec(big_val(old_r), big_val(r)).0 * big_val(old_t)
                + xgcd_spec(big_val(old_r), big_val(r)).1 * big_val(t),
            xgcd_spec(xx, yy).2 == xgcd_spec(big_val(old_r), big_val(r)).2,
        ensures
            wf_big(old_r) && wf_big(old_s) && wf_big(old_t),
            big_val(old_s) * xx + big_val(old_t) * yy == big_val(old_r),
            xx == cu * big_val(old_r),
            yy == cw * big_val(old_r),
            xx >= 0 && yy >= 0 ==> big_val(old_r) >= 0,
            xgcd_spec(xx, yy) == (big_val(old_s), big_val(old_t), big_val(old_r)),
        decreases abs(big_val(r)),
    {
        if r.is_zero() {
            proof {
                assert(cu * big_val(old_r) + cv * 0 == cu * big_val(old_r)) by (nonlinear_arith);
                assert(cw * big_val(old_r) + cz * 0 == cw * big_val(old_r)) by (nonlinear_arith);
                assert(xgcd_spec(big_val(old_r), 0) == (1int, 0int, big_val(old_r)));
                let av = xgcd_spec(xx, yy).0;
                let bv = xgcd_spec(xx, yy).1;
                assert(av == 1 * big_val(old_s) + 0 * big_val(s)) by (nonlinear_arith)
                    requires
                        av == xgcd_spec(big_val(old_r), 0).0 * big_val(old_s) + xgcd_spec(
                            big_val(old_r),
                            0,
                        ).1 * big_val(s),
                        xgcd_spec(big_val(old_r), 0).0 == 1,
                        xgcd_spec(big_val(old_r), 0).1 == 0;
                assert(bv == 1 * big_val(old_t) + 0 * big_val(t)) by (nonlinear_arith)
                    requires
                        bv == xgcd_spec(big_val(old_r), 0).0 * big_val(old_t) + xgcd_spec(
                            big_val(old_r),
                            0,
                        ).1 * big_val(t),
                        xgcd_spec(big_val(old_r), 0).0 == 1,
                        xgcd_spec(big_val(old_r), 0).1 == 0;
                assert(1 * big_val(old_s) + 0 * big_val(s) == big_val(old_s)) by (nonlinear_arith);
                assert(1 * big_val(old_t) + 0 * big_val(t) == big_val(old_t)) by (nonlinear_arith);
            }
            break;
        }
        let ghost orv = big_val(old_r);
        let ghost rv = big_val(r);
        let q = big_div(&old_r, &r);
        let ghost qv = big_val(q);
        let new_r = big_sub(&old_r, &big_mul(&q, &r));
        let new_s = big_sub(&old_s, &big_mul(&q, &s));
        let new_t = big_sub(&old_t, &big_mul(&q, &t));
        let ghost ncu = cu * qv + cv;
        let ghost ncv = cu;
        let ghost ncw = cw * qv + cz;
        let ghost ncz = cw;
        proof {
            lemma_tdiv_tmod(orv, rv);
            assert(big_val(new_r) == tmod(orv, rv));
            assert(abs(big_val(new_r)) < abs(rv));
            let osv = big_val(old_s);
            let sv = big_val(s);
            let otv = big_val(old_t);
            let tv = big_val(t);
            assert((osv - qv * sv) * xx + (otv - qv * tv) * yy == orv - qv * rv) by (nonlinear_arith)
                requires
                    osv * xx + otv * yy == orv,
                    sv * xx + tv * yy == rv;
            let nrv = orv - qv * rv;
            assert(xx == ncu * rv + ncv * nrv) by (nonlinear_arith)
                requires
                    xx == cu * orv + cv * rv,
                    nrv == orv - qv * rv,
                    ncu == cu * qv + cv,
                    ncv == cu;
            assert(yy == ncw * rv + ncz * nrv) by (nonlinear_arith)
                requires
                    yy == cw * orv + cz * rv,
                    nrv == orv - qv * rv,
                    ncw == cw * qv + cz,
                    ncz == cw;
            // the spec recurrence unfolds one step along the loop
            let rec = xgcd_spec(rv, nrv);
            assert(xgcd_spec(orv, rv) == (rec.1, rec.0 - qv * rec.1, rec.2));
            assert(xgcd_spec(xx, yy).0 == rec.0 * sv + rec.1 * big_val(new_s))
                by (nonlinear_arith)
                requires
                    xgcd_spec(xx, yy).0 == xgcd_spec(orv, rv).0 * osv + xgcd_spec(orv, rv).1 * sv,
                    xgcd_spec(orv, rv).0 == rec.1,
                    xgcd_spec(orv, rv).1 == rec.0 - qv * rec.1,
                    big_val(new_s) == osv - qv * sv;
            assert(xgcd_spec(xx, yy).1 == rec.0 * tv + rec.1 * big_val(new_t))
                by (nonlinear_arith)
                requires
                    xgcd_spec(xx, yy).1 == xgcd_spec(orv, rv).0 * otv + xgcd_spec(orv, rv).1 * tv,
                    xgcd_spec(orv, rv).0 == rec.1,
                    xgcd_spec(orv, rv).1 == rec.0 - qv * rec.1,
                    big_val(new_t) == otv - qv * tv;
            cu = ncu;
            cv = ncv;
            cw = ncw;
            cz = ncz;
        }
        old_r = r;
        r = new_r;
        old_s = s;
        s = new_s;
        old_t = t;
        t = new_t;
    }
    (old_s, old_t, old_r)
}

/// The ring of integers modulo a prime `p`. Immutable after construction.
#[derive(Clone, Debug)]
pub struct Field {
    pub p: Big,
}

/// An integer value interpreted within a specific `Field`. The stored value
/// is raw: it is not forced into `[0, p)` by construction.
#[derive(Clone, Debug)]
pub struct FieldElement {
    pub value: Big,
    pub field: Field,
}

proof fn lemma_limbs_val4(s: Seq<u32>)
    requires
        s.len() == 4,
    ensures
        limbs_val(s) == s[0] + 0x1_0000_0000 * (s[1] + 0x1_0000_0000 * (s[2]
            + 0x1_0000_0000 * (s[3] as int))),
{
    let s1 = s.subrange(1, 4);
    let s2 = s1.subrange(1, 3);
    let s3 = s2.subrange(1, 2);
    assert(s1[0] == s[1] && s2[0] == s[2] && s3[0] == s[3]);
    lemma_limbs_val_single(s3);
    assert(limbs_val(s2) == s2[0] + 0x1_0000_0000 * limbs_val(s3));
    assert(limbs_val(s1) == s1[0] + 0x1_0000_0000 * limbs_val(s2));
    assert(limbs_val(s) == s[0] + 0x1_0000_0000 * limbs_val(s1));
}

/// Congruent factors have congruent products.
pub proof fn lemma_cong_mul(x: int, x2: int, y: int, y2: int, m: int)
    requires
        m > 0,
        x % m == x2 % m,
        y % m == y2 % m,
    ensures
        (x * y) % m == (x2 * y2) % m,
{
    lemma_mul_mod_noop_general(x, y, m);
    lemma_mul_mod_noop_general(x2, y2, m);
}

impl Field {
    /// The modulus this field reduces by.
    pub open spec fn modulus(self) -> int {
        big_val(self.p)
    }

    pub open spec fn wf(self) -> bool {
        wf_big(self.p) && self.modulus() >= 2
    }

    /// A field with the given modulus.
    pub fn new(p: Big) -> (f: Field)
        requires
            wf_big(p),
            big_val(p) >= 2,
        ensures
            f.wf(),
            f.modulus() == big_val(p),
    {
        Field { p }
    }

    /// The well-known field of modulus 1 + 407 * 2^119.
    pub fn main() -> (f: Field)
        ensures
            f.wf(),
            f.modulus() == main_modulus(),
    {
        let mut limbs: Vec<u32> = Vec::new();
        limbs.push(1);
        limbs.push(0);
        limbs.push(0);
        limbs.push(3414163456);
        proof {
            lemma_limbs_val4(limbs@);
        }
        Field { p: Big { negative: false, limbs } }
    }

    /// An identical copy.
    pub fn duplicate(&self) -> (f: Field)
        ensures
            f.p.negative == self.p.negative,
            f.p.limbs@ == self.p.limbs@,
            f.modulus() == self.modulus(),
            self.wf() ==> f.wf(),
    {
        Field { p: self.p.duplicate() }
    }

    /// The additive identity.
    pub fn zero(&self) -> (res: FieldElement)
        requires
            self.wf(),
        ensures
            res.wf(),
            res.modulus() == self.modulus(),
            res.val() == 0,
    {
        FieldElement { value: Big::from_u64(0), field: self.duplicate() }
    }

    /// The multiplicative identity.
    pub fn one(&self) -> (res: FieldElement)
        requires
            self.wf(),
        ensures
            res.wf(),
            res.modulus() == self.modulus(),
            res.val() == 1,
    {
        FieldElement { value: Big::from_u64(1), field: self.duplicate() }
    }

    /// The sum `(left + right) mod p`.
    pub fn add(&self, left: &FieldElement, right: &FieldElement) -> (res: FieldElement)
        requires
            self.wf(),
            left.wf(),
            right.wf(),
            left.modulus() == self.modulus(),
            right.modulus() == self.modulus(),
        ensures
            res.wf(),
            res.modulus() == self.modulus(),
            res.val() == tmod(left.val() + right.val(), self.modulus()),
            left.val() >= 0 && right.val() >= 0 ==> res.val() == (left.val() + right.val())
                % self.modulus() && 0 <= res.val() < self.modulus(),
    {
        let sum = big_add(&left.value, &right.value);
        proof {
            lemma_tdiv_tmod(big_val(sum), self.modulus());
            lemma_mod_bound(big_val(sum), self.modulus());
        }
        FieldElement { value: big_rem(&sum, &self.p), field: self.duplicate() }
    }

    /// The difference `(left - right) mod p`; the modulus is added first so
    /// that in-range operands give an in-range result.
    pub fn subtract(&self, left: &FieldElement, right: &FieldElement) -> (res: FieldElement)
        requires
            self.wf(),
            left.wf(),
            right.wf(),
            left.modulus() == self.modulus(),
            right.modulus() == self.modulus(),
        ensures
            res.wf(),
            res.modulus() == self.modulus(),
            res.val() == tmod(self.modulus() + left.val() - right.val(), self.modulus()),
            left.val() >= 0 && right.val() < self.modulus() ==> res.val() == (left.val()
                - right.val()) % self.modulus() && 0 <= res.val() < self.modulus(),
    {
        let shifted = big_sub(&big_add(&self.p, &left.value), &right.value);
        proof {
            let m = self.modulus();
            lemma_tdiv_tmod(big_val(shifted), m);
            lemma_mod_bound(big_val(shifted), m);
            if left.val() >= 0 && right.val() < m {
                lemma_mod_add_multiples_vanish(left.val() - right.val(), m);
            }
        }
        FieldElement { value: big_rem(&shifted, &self.p), field: self.duplicate() }
    }

    /// The product `(left * right) mod p`.
    pub fn multiply(&self, left: &FieldElement, right: &FieldElement) -> (res: FieldElement)
        requires
            self.wf(),
            left.wf(),
            right.wf(),
            left.modulus() == self.modulus(),
            right.modulus() == self.modulus(),
        ensures
            res.wf(),
            res.modulus() == self.modulus(),
            res.val() == tmod(left.val() * right.val(), self.modulus()),
            left.val() >= 0 && right.val() >= 0 ==> res.val() == (left.val() * right.val())
                % self.modulus() && 0 <= res.val() < self.modulus(),
    {
        let prod = big_mul(&left.value, &right.value);
        proof {
            lemma_tdiv_tmod(big_val(prod), self.modulus());
            lemma_mod_bound(big_val(prod), self.modulus());
            assert(left.val() >= 0 && right.val() >= 0 ==> left.val() * right.val() >= 0)
                by (nonlinear_arith);
        }
        FieldElement { value: big_rem(&prod, &self.p), field: self.duplicate() }
    }

    /// The additive inverse `(p - operand) mod p`.
    pub fn negate(&self, operand: &FieldElement) -> (res: FieldElement)
        requires
            self.wf(),
            operand.wf(),
            operand.modulus() == self.modulus(),
        ensures
            res.wf(),
            res.modulus() == self.modulus(),
            res.val() == tmod(self.modulus() - operand.val(), self.modulus()),
            0 <= operand.val() < self.modulus() ==> res.val() == (-operand.val())
                % self.modulus() && 0 <= res.val() < self.modulus(),
    {
        let diff = big_sub(&self.p, &operand.value);
        proof {
            let m = self.modulus();
            lemma_tdiv_tmod(big_val(diff), m);
            lemma_mod_bound(big_val(diff), m);
            if 0 <= operand.val() < m {
                lemma_mod_add_multiples_vanish(-operand.val(), m);
            }
        }
        FieldElement { value: big_rem(&diff, &self.p), field: self.duplicate() }
    }

    /// The multiplicative inverse, computed from the extended Euclidean
    /// algorithm and normalized into `[0, p)`. On a prime modulus and a
    /// non-negative operand outside the zero class, the result is the true
    /// inverse of the operand's residue.
    pub fn inverse(&self, operand: &FieldElement) -> (res: FieldElement)
        requires
            self.wf(),
            operand.wf(),
            operand.modulus() == self.modulus(),
            operand.val() % self.modulus() != 0,
        ensures
            res.wf(),
            res.modulus() == self.modulus(),
            0 <= res.val() < self.modulus(),
            is_prime(self.modulus()) && operand.val() >= 0 ==> (res.val() * operand.val())
                % self.modulus() == 1,
    {
        let (a, b, g) = xgcd(&operand.value, &self.p);
        let t1 = big_rem(&a, &self.p);
        let t2 = big_add(&t1, &self.p);
        let vres = big_rem(&t2, &self.p);
        proof {
            let p = self.modulus();
            let v = operand.val();
            let av = big_val(a);
            let bv = big_val(b);
            let gv = big_val(g);
            lemma_tdiv_tmod(av, p);
            lemma_tmod_congruent(av, p);
            lemma_tdiv_tmod(big_val(t2), p);
            lemma_mod_bound(big_val(t2), p);
            lemma_mod_add_multiples_vanish(big_val(t1), p);
            assert(big_val(vres) == av % p);
            lemma_mod_bound(av, p);
            if is_prime(p) && v >= 0 {
                lemma_prime_bezout_unit(av, bv, gv, v, p);
                // av * v == p * (-bv) + 1
                assert(av * v == p * (-bv) + 1) by (nonlinear_arith)
                    requires
                        av * v + bv * p == 1;
                lemma_mod_multiples_vanish(-bv, 1, p);
                lemma_small_mod(1 as nat, p as nat);
                lemma_mul_mod_noop_left(av, v, p);
                assert((big_val(vres) * v) % p == 1);
            }
        }
        FieldElement { value: vres, field: self.duplicate() }
    }

    /// The quotient `left * inverse(right) mod p`, computed from the Bezout
    /// coefficient and normalized into `[0, p)`.
    pub fn divide(&self, left: &FieldElement, right: &FieldElement) -> (res: FieldElement)
        requires
            self.wf(),
            left.wf(),
            right.wf(),
            left.modulus() == self.modulus(),
            right.modulus() == self.modulus(),
            right.val() % self.modulus() != 0,
        ensures
            res.wf(),
            res.modulus() == self.modulus(),
            0 <= res.val() < self.modulus(),
            is_prime(self.modulus()) && left.val() >= 0 && right.val() >= 0 ==> (res.val()
                * right.val()) % self.modulus() == left.val() % self.modulus(),
    {
        let (a, b, g) = xgcd(&right.value, &self.p);
        let prod = big_mul(&left.value, &a);
        let t1 = big_rem(&prod, &self.p);
        let t2 = big_add(&t1, &self.p);
        let vres = big_rem(&t2, &self.p);
        proof {
            let p = self.modulus();
            let l = left.val();
            let v = right.val();
            let av = big_val(a);
            let bv = big_val(b);
            let gv = big_val(g);
            lemma_tdiv_tmod(big_val(prod), p);
            lemma_tmod_congruent(big_val(prod), p);
            lemma_tdiv_tmod(big_val(t2), p);
            lemma_mod_bound(big_val(t2), p);
            lemma_mod_add_multiples_vanish(big_val(t1), p);
            assert(big_val(vres) == big_val(prod) % p);
            lemma_mod_bound(big_val(prod), p);
            lemma_small_mod(big_val(vres) as nat, p as nat);
            if is_prime(p) && l >= 0 && v >= 0 {
                lemma_prime_bezout_unit(av, bv, gv, v, p);
                // vres is congruent to l * av, so vres * v is congruent to
                // l * (av * v + bv * p) - l * bv * p == l
                lemma_mul_mod_noop_left(big_val(vres), v, p);
                lemma_mul_mod_noop_left(l * av, v, p);
                assert((big_val(vres) * v) % p == (l * av * v) % p);
                assert(l * av * v == p * (l * (-bv)) + l) by (nonlinear_arith)
                    requires
                        av * v + bv * p == 1;
                lemma_mod_multiples_vanish(l * (-bv), l, p);
                assert((big_val(vres) * v) % p == l % p);
            }
        }
        FieldElement { value: vres, field: self.duplicate() }
    }

    /// The fixed generator of the main field's multiplicative group. Only the
    /// main field knows one.
    pub fn generator(&self) -> (res: FieldElement)
        requires
            self.wf(),
            self.modulus() == main_modulus(),
        ensures
            res.wf(),
            res.modulus() == main_modulus(),
            res.val() == main_generator_value(),
            0 <= res.val() < main_modulus(),
    {
        let mut limbs: Vec<u32> = Vec::new();
        limbs.push(418838481);
        limbs.push(3036909468);
        limbs.push(317605647);
        limbs.push(1078000621);
        proof {
            lemma_limbs_val4(limbs@);
        }
        FieldElement { value: Big { negative: false, limbs }, field: self.duplicate() }
    }

    /// An element of exact multiplicative order `n` in the main field: the
    /// known order-2^119 root, squared until its order is `n`. Only powers of
    /// two up to 2^119 are supported; for a 32-bit `n` that is every power of
    /// two.
    pub fn primitive_nth_root(&self, n: u32) -> (res: FieldElement)
        requires
            self.wf(),
            self.modulus() == main_modulus(),
            exists|k: nat| k <= 119 && n == pow2(k),
        ensures
            res.wf(),
            res.modulus() == main_modulus(),
            0 <= res.val() < main_modulus(),
            forall|k: nat| k <= 119 && n == #[trigger] pow2(k) ==> res.val() == pow(
                main_generator_value(),
                pow2((119 - k) as nat),
            ) % main_modulus(),
            pow(res.val(), n as nat) % main_modulus() == 1,
            n > 1 ==> pow(res.val(), (n / 2) as nat) % main_modulus()
                == main_modulus() - 1,
    {
        let ghost gk: nat = choose|k: nat| k <= 119 && n == pow2(k);
        let mut root = self.generator();
        let mut order: u128 = 664613997892457936451903530140172288;
        let ghost mut j: nat = 119;
        proof {
            lemma2_to64();
            lemma2_to64_rest();
            lemma_pow2_adds(64, 55);
            assert(order == pow2(119));
            lemma_pow1(main_generator_value());
            assert(pow2(0) == 1);
            lemma_small_mod(main_generator_value() as nat, main_modulus() as nat);
        }
        while order != (n as u128)
            invariant
                self.wf(),
                self.modulus() == main_modulus(),
                root.wf(),
                root.modulus() == main_modulus(),
                0 <= root.val() < main_modulus(),
                gk <= j <= 119,
                n == pow2(gk),
                order == pow2(j),
                root.val() == pow(main_generator_value(), pow2((119 - j) as nat))
                    % main_modulus(),
            decreases j,
        {
            proof {
                if j == gk {
                    assert(false);
                }
                lemma_pow2_unfold(j);
            }
            let ghost old_root = root.val();
            let ghost e = pow2((119 - j) as nat);
            root = self.multiply(&root, &root);
            order = order / 2;
            proof {
                let m = main_modulus();
                let gen = main_generator_value();
                j = (j - 1) as nat;
                lemma_pow2_unfold((119 - j) as nat);
                // the square of `gen^e mod m` is `gen^(2e) mod m`
                lemma_pow_positive(gen, e);
                lemma_pow_mod_noop(pow(gen, e), 2, m);
                lemma_cong_mul(old_root, pow(gen, e), old_root, pow(gen, e), m);
                lemma_pow_adds(gen, e, e);
                assert(root.val() == pow(gen, (e + e) as nat) % m);
                assert(pow2((119 - j) as nat) == e + e);
            }
        }
        proof {
            if j != gk {
                lemma_pow2_strictly_increases(if j < gk { j } else { gk }, if j < gk { gk } else { j });
                assert(false);
            }
            assert forall|k: nat| k <= 119 && n == #[trigger] pow2(k) implies root.val() == pow(
                main_generator_value(),
                pow2((119 - k) as nat),
            ) % main_modulus() by {
                if k != gk {
                    lemma_pow2_strictly_increases(if k < gk { k } else { gk }, if k < gk { gk } else { k });
                }
            }
            // the result's exact multiplicative order: its n-th power closes
            // the ladder at one, and its (n/2)-th stops at minus one
            lemma_generator_orders();
            let g = main_generator_value();
            let p = main_modulus();
            let e = pow2((119 - gk) as nat);
            assert(root.val() == pow(g, e) % p);
            lemma_pow_mod_noop(pow(g, e), pow2(gk), p);
            lemma_pow_multiplies(g, e, pow2(gk));
            lemma_pow2_adds((119 - gk) as nat, gk);
            assert(n as nat == pow2(gk));
            assert(pow(root.val(), n as nat) % p == 1);
            if n > 1 {
                assert(gk >= 1) by {
                    if gk == 0 {
                        lemma2_to64();
                    }
                }
                lemma_pow2_unfold(gk);
                assert((n / 2) as nat == pow2((gk - 1) as nat));
                lemma_pow_mod_noop(pow(g, e), pow2((gk - 1) as nat), p);
                lemma_pow_multiplies(g, e, pow2((gk - 1) as nat));
                lemma_pow2_adds((119 - gk) as nat, (gk - 1) as nat);
                assert((119 - gk) + (gk - 1) == 118);
                assert(pow(root.val(), (n / 2) as nat) % p == p - 1);
            }
        }
        root
    }

    /// The field element a big-endian byte string denotes: the bytes read as
    /// one unsigned integer, reduced modulo `p`.
    pub fn sample(&self, byte_array: &[u8]) -> (res: FieldElement)
        requires
            self.wf(),
        ensures
            res.wf(),
            res.modulus() == self.modulus(),
            res.val() == bytes_val(byte_array@) % self.modulus(),
            0 <= res.val() < self.modulus(),
    {
        let mut acc = Big::from_u64(0);
        let c256 = Big::from_u64(256);
        let mut i: usize = 0;
        while i < byte_array.len()
            invariant
                wf_big(acc),
                wf_big(c256),
                big_val(c256) == 256,
                i <= byte_array@.len(),
                big_val(acc) == bytes_val(byte_array@.subrange(0, i as int)),
            decreases byte_array@.len() - i,
        {
            let b = Big::from_u64(byte_array[i] as u64);
            acc = big_add(&big_mul(&acc, &c256), &b);
            proof {
                let pre = byte_array@.subrange(0, i as int);
                let post = byte_array@.subrange(0, i + 1);
                assert(post.drop_last() =~= pre);
                assert(post.last() == byte_array@[i as int]);
            }
            i += 1;
        }
        proof {
            assert(byte_array@.subrange(0, byte_array@.len() as int) =~= byte_array@);
            lemma_bytes_val_nonneg(byte_array@);
            lemma_tdiv_tmod(big_val(acc), self.modulus());
            lemma_mod_bound(big_val(acc), self.modulus());
        }
        FieldElement { value: big_rem(&acc, &self.p), field: self.duplicate() }
    }
}

impl FieldElement {
    /// The raw stored integer.
    pub open spec fn val(self) -> int {
        big_val(self.value)
    }

    /// The modulus of the field this element belongs to.
    pub open spec fn modulus(self) -> int {
        self.field.modulus()
    }

    pub open spec fn wf(self) -> bool {
        wf_big(self.value) && self.field.wf()
    }

    /// Whether the raw value already lies in `[0, p)`.
    pub open spec fn in_range(self) -> bool {
        0 <= self.val() < self.modulus()
    }

    /// An element holding the given raw value; the value is not reduced.
    pub fn new(value: Big, field: Field) -> (res: FieldElement)
        ensures
            res.val() == big_val(value),
            res.modulus() == field.modulus(),
            wf_big(value) && field.wf() ==> res.wf(),
    {
        FieldElement { value, field }
    }

    /// An identical copy.
    pub fn duplicate(&self) -> (res: FieldElement)
        ensures
            res.val() == self.val(),
            res.modulus() == self.modulus(),
            self.wf() ==> res.wf(),
    {
        FieldElement { value: self.value.duplicate(), field: self.field.duplicate() }
    }

    /// The multiplicative inverse within the owning field.
    pub fn inverse(&self) -> (res: FieldElement)
        requires
            self.wf(),
            self.val() % self.modulus() != 0,
        ensures
            res.wf(),
            res.modulus() == self.modulus(),
            0 <= res.val() < self.modulus(),
            is_prime(self.modulus()) && self.val() >= 0 ==> (res.val() * self.val())
                % self.modulus() == 1,
    {
        self.field.inverse(self)
    }

    /// Square-and-multiply exponentiation by a non-negative exponent. For a
    /// non-negative base value the result is exactly `base^exponent mod p`.
    pub fn pow(&self, exponent: &Big) -> (res: FieldElement)
        requires
            self.wf(),
            wf_big(*exponent),
            big_val(*exponent) >= 0,
        ensures
            res.wf(),
            res.modulus() == self.modulus(),
            self.val() >= 0 ==> res.val() == pow(self.val(), big_val(*exponent) as nat)
                % self.modulus() && 0 <= res.val() < self.modulus(),
    {
        let ghost v0 = self.val();
        let ghost e0 = big_val(*exponent);
        let ghost m = self.modulus();
        let mut acc = FieldElement { value: Big::from_u64(1), field: self.field.duplicate() };
        let mut base = self.duplicate();
        let mut e = exponent.duplicate();
        let two = Big::from_u64(2);
        proof {
            lemma_pow1(v0);
            if v0 >= 0 {
                lemma_small_mod(1 as nat, m as nat);
            }
        }
        loop
            invariant_except_break
                acc.wf(),
                base.wf(),
                wf_big(e),
                wf_big(two),
                big_val(two) == 2,
                acc.modulus() == m,
                base.modulus() == m,
                self.field.wf(),
                self.field.modulus() == m,
                m >= 2,
                big_val(e) >= 0,
                v0 >= 0 ==> 0 <= acc.val() < m && base.val() >= 0 && (acc.val() * pow(
                    base.val(),
                    big_val(e) as nat,
                )) % m == pow(v0, e0 as nat) % m,
            ensures
                acc.wf(),
                acc.modulus() == m,
                big_val(e) == 0,
                v0 >= 0 ==> 0 <= acc.val() < m && (acc.val() * pow(base.val(), 0)) % m == pow(
                    v0,
                    e0 as nat,
                ) % m,
            decreases big_val(e),
        {
            if e.is_zero() {
                break;
            }
            let ghost av = acc.val();
            let ghost bv = base.val();
            let ghost ev = big_val(e);
            let odd = e.is_odd();
            if odd {
                acc = self.field.multiply(&acc, &base);
            }
            base = self.field.multiply(&base, &base);
            e = big_div(&e, &two);
            proof {
                lemma_tdiv_tmod(ev, 2);
                assert(big_val(e) == ev / 2);
                lemma_fundamental_div_mod(ev, 2);
                lemma_mod_bound(ev, 2);
                let h = (ev / 2) as nat;
                if v0 >= 0 {
                    // pow(bv, ev) splits into pow(bv*bv, h) and one factor for
                    // the low bit
                    lemma_pow_adds(bv, h, h);
                    lemma_pow_distributes(bv, bv, h);
                    lemma_pow_mod_noop(bv * bv, h, m);
                    assert(bv * bv >= 0) by (nonlinear_arith)
                        requires
                            bv >= 0;
                    if odd {
                        lemma_pow_adds(bv, (h + h) as nat, 1);
                        lemma_pow1(bv);
                        assert(pow(bv, ev as nat) == pow(bv * bv, h) * bv) by (nonlinear_arith)
                            requires
                                ev == 2 * h + 1,
                                pow(bv, ev as nat) == pow(bv, (h + h) as nat) * pow(bv, 1),
                                pow(bv, (h + h) as nat) == pow(bv, h) * pow(bv, h),
                                pow(bv * bv, h) == pow(bv, h) * pow(bv, h),
                                pow(bv, 1) == bv;
                        // acc' == (av * bv) % m, base' == (bv * bv) % m
                        lemma_mod_twice(av * bv, m);
                        lemma_cong_mul(acc.val(), av * bv, pow(base.val(), h), pow(bv * bv, h), m);
                        assert((av * bv) * pow(bv * bv, h) == av * pow(bv, ev as nat))
                            by (nonlinear_arith)
                            requires
                                pow(bv, ev as nat) == pow(bv * bv, h) * bv;
                        assert((acc.val() * pow(base.val(), big_val(e) as nat)) % m == (av * pow(
                            bv,
                            ev as nat,
                        )) % m);
                    } else {
                        assert(pow(bv, ev as nat) == pow(bv * bv, h)) by (nonlinear_arith)
                            requires
                                ev == 2 * h,
                                pow(bv, (h + h) as nat) == pow(bv, h) * pow(bv, h),
                                pow(bv * bv, h) == pow(bv, h) * pow(bv, h),
                                pow(bv, ev as nat) == pow(bv, (h + h) as nat);
                        lemma_cong_mul(acc.val(), av, pow(base.val(), h), pow(bv * bv, h), m);
                        lemma_small_mod(av as nat, m as nat);
                        assert((acc.val() * pow(base.val(), big_val(e) as nat)) % m == (av * pow(
                            bv,
                            ev as nat,
                        )) % m);
                    }
                }
            }
        }
        proof {
            if v0 >= 0 {
                lemma_pow0(base.val());
                lemma_small_mod(acc.val() as nat, m as nat);
            }
        }
        acc
    }

    /// Exponentiation by a machine-word exponent.
    pub fn pow_u64(&self, exponent: u64) -> (res: FieldElement)
        requires
            self.wf(),
        ensures
            res.wf(),
            res.modulus() == self.modulus(),
            self.val() >= 0 ==> res.val() == pow(self.val(), exponent as nat) % self.modulus()
                && 0 <= res.val() < self.modulus(),
    {
        self.pow(&Big::from_u64(exponent))
    }

    /// Raw equality with zero: whether the stored value is the integer zero,
    /// with no reduction.
    pub fn is_zero(&self) -> (r: bool)
        requires
            wf_big(self.value),
        ensures
            r == (self.val() == 0),
    {
        self.value.is_zero()
    }

    /// The stored value reduced into `[0, p)`.
    pub fn normalized_value(&self) -> (r: Big)
        requires
            self.wf(),
        ensures
            wf_big(r),
            big_val(r) == self.val() % self.modulus(),
            0 <= big_val(r) < self.modulus(),
    {
        let ghost m = self.modulus();
        let ghost v = self.val();
        if self.value.is_negative() {
            let t1 = big_rem(&self.value, &self.field.p);
            let t2 = big_add(&t1, &self.field.p);
            proof {
                lemma_tdiv_tmod(v, m);
                lemma_tmod_congruent(v, m);
                lemma_tdiv_tmod(big_val(t2), m);
                lemma_mod_bound(big_val(t2), m);
                lemma_mod_add_multiples_vanish(big_val(t1), m);
            }
            big_rem(&t2, &self.field.p)
        } else {
            proof {
                lemma_tdiv_tmod(v, m);
                lemma_mod_bound(v, m);
            }
            big_rem(&self.value, &self.field.p)
        }
    }

    /// Normalized equality: whether the two elements denote the same residue
    /// class, each reduced by its own modulus.
    pub fn is_equivalent_to(&self, other: &FieldElement) -> (r: bool)
        requires
            self.wf(),
            other.wf(),
        ensures
            r == (self.val() % self.modulus() == other.val() % other.modulus()),
    {
        let left = self.normalized_value();
        let right = other.normalized_value();
        left.same_value(&right)
    }

    /// Raw equality: whether the two stored integers are equal, with no
    /// reduction. Values `p` and `0` are not raw-equal.
    pub fn eq_raw(&self, other: &FieldElement) -> (r: bool)
        requires
            wf_big(self.value),
            wf_big(other.value),
        ensures
            r == (self.val() == other.val()),
    {
        self.value.same_value(&other.value)
    }

    /// The sum within the owning field.
    pub fn add(&self, rhs: &FieldElement) -> (res: FieldElement)
        requires
            self.wf(),
            rhs.wf(),
            rhs.modulus() == self.modulus(),
        ensures
            res.wf(),
            res.modulus() == self.modulus(),
            res.val() == tmod(self.val() + rhs.val(), self.modulus()),
            self.val() >= 0 && rhs.val() >= 0 ==> res.val() == (self.val() + rhs.val())
                % self.modulus() && 0 <= res.val() < self.modulus(),
    {
        self.field.add(self, rhs)
    }

    /// The difference within the owning field.
    pub fn sub(&self, rhs: &FieldElement) -> (res: FieldElement)
        requires
            self.wf(),
            rhs.wf(),
            rhs.modulus() == self.modulus(),
        ensures
            res.wf(),
            res.modulus() == self.modulus(),
            res.val() == tmod(self.modulus() + self.val() - rhs.val(), self.modulus()),
            self.val() >= 0 && rhs.val() < self.modulus() ==> res.val() == (self.val()
                - rhs.val()) % self.modulus() && 0 <= res.val() < self.modulus(),
    {
        self.field.subtract(self, rhs)
    }

    /// The product within the owning field.
    pub fn mul(&self, rhs: &FieldElement) -> (res: FieldElement)
        requires
            self.wf(),
            rhs.wf(),
            rhs.modulus() == self.modulus(),
        ensures
            res.wf(),
            res.modulus() == self.modulus(),
            res.val() == tmod(self.val() * rhs.val(), self.modulus()),
            self.val() >= 0 && rhs.val() >= 0 ==> res.val() == (self.val() * rhs.val())
                % self.modulus() && 0 <= res.val() < self.modulus(),
    {
        self.field.multiply(self, rhs)
    }

    /// The quotient within the owning field.
    pub fn div(&self, rhs: &FieldElement) -> (res: FieldElement)
        requires
            self.wf(),
            rhs.wf(),
            rhs.modulus() == self.modulus(),
            rhs.val() % self.modulus() != 0,
        ensures
            res.wf(),
            res.modulus() == self.modulus(),
            0 <= res.val() < self.modulus(),
            is_prime(self.modulus()) && self.val() >= 0 && rhs.val() >= 0 ==> (res.val()
                * rhs.val()) % self.modulus() == self.val() % self.modulus(),
    {
        self.field.divide(self, rhs)
    }

    /// The additive inverse within the owning field.
    pub fn neg(&self) -> (res: FieldElement)
        requires
            self.wf(),
        ensures
            res.wf(),
            res.modulus() == self.modulus(),
            res.val() == tmod(self.modulus() - self.val(), self.modulus()),
            self.in_range() ==> res.val() == (-self.val()) % self.modulus() && 0 <= res.val()
                < self.modulus(),
    {
        self.field.negate(self)
    }
}

/// The unsigned integer a big-endian byte string denotes.
pub open spec fn bytes_val(s: Seq<u8>) -> int
    decreases s.len(),
{
    if s.len() == 0 {
        0
    } else {
        256 * bytes_val(s.drop_last()) + s.last()
    }
}

pub proof fn lemma_bytes_val_nonneg(s: Seq<u8>)
    ensures
        bytes_val(s) >= 0,
    decreases s.len(),
{
    if s.len() > 0 {
        lemma_bytes_val_nonneg(s.drop_last());
    }
}

/// The spec-level extended Euclidean recurrences satisfy the Bezout
/// identity, their generator divides both inputs, and it is non-negative
/// for non-negative inputs.
pub proof fn lemma_xgcd_spec_props(x: int, y: int)
    ensures
        xgcd_spec(x, y).0 * x + xgcd_spec(x, y).1 * y == xgcd_spec(x, y).2,
        exists|k: int| x == #[trigger] (k * xgcd_spec(x, y).2),
        exists|k: int| y == #[trigger] (k * xgcd_spec(x, y).2),
        x >= 0 && y >= 0 ==> xgcd_spec(x, y).2 >= 0,
    decreases abs(y),
{
    if y == 0 {
        let g = xgcd_spec(x, y).2;
        assert(g == x);
        assert(1 * x + 0 * y == x) by (nonlinear_arith)
            requires
                y == 0;
        assert(x == 1 * g) by (nonlinear_arith)
            requires
                g == x;
        assert(y == 0 * g) by (nonlinear_arith)
            requires
                y == 0;
    } else {
        lemma_tdiv_tmod(x, y);
        let q = tdiv(x, y);
        let r = x - q * y;
        lemma_xgcd_spec_props(y, r);
        let rec = xgcd_spec(y, r);
        let g = rec.2;
        assert(rec.1 * x + (rec.0 - q * rec.1) * y == g) by (nonlinear_arith)
            requires
                rec.0 * y + rec.1 * r == g,
                r == x - q * y;
        let k1 = choose|k: int| y == #[trigger] (k * g);
        let k2 = choose|k: int| r == #[trigger] (k * g);
        assert(x == (q * k1 + k2) * g) by (nonlinear_arith)
            requires
                y == k1 * g,
                r == k2 * g,
                x == q * y + r;
        assert(x == (q * k1 + k2) * xgcd_spec(x, y).2);
        assert(y == k1 * xgcd_spec(x, y).2);
    }
}

/// Every residue outside the zero class of a prime modulus has a
/// multiplicative inverse.
pub proof fn lemma_prime_inverse_exists(x: int, p: int)
    requires
        is_prime(p),
        x % p != 0,
    ensures
        exists|u: int| #[trigger] ((u * x) % p) == 1,
{
    let xr = x % p;
    lemma_mod_bound(x, p);
    lemma_xgcd_spec_props(xr, p);
    let t = xgcd_spec(xr, p);
    lemma_small_mod(xr as nat, p as nat);
    lemma_prime_bezout_unit(t.0, t.1, t.2, xr, p);
    assert(t.0 * xr == p * (-t.1) + 1) by (nonlinear_arith)
        requires
            t.0 * xr + t.1 * p == 1;
    lemma_mod_multiples_vanish(-t.1, 1, p);
    lemma_small_mod(1 as nat, p as nat);
    assert((t.0 * xr) % p == 1);
    lemma_mul_mod_noop_right(t.0, x, p);
    assert((t.0 * x) % p == 1);
}

/// Euclid's lemma: a prime modulus admits no zero divisors. If a product
/// vanishes and one factor does not, the other factor vanishes.
pub proof fn lemma_prime_zero_divisor(x: int, y: int, p: int)
    requires
        is_prime(p),
        (x * y) % p == 0,
        x % p != 0,
    ensures
        y % p == 0,
{
    lemma_prime_inverse_exists(x, p);
    let u = choose|u: int| #[trigger] ((u * x) % p) == 1;
    lemma_mul_mod_noop_left(u * x, y, p);
    assert(1 * y == y) by (nonlinear_arith);
    assert(u * x * y == u * (x * y)) by (nonlinear_arith);
    lemma_mul_mod_noop_right(u, x * y, p);
    assert(u * 0 == 0) by (nonlinear_arith);
    lemma_small_mod(0 as nat, p as nat);
}

/// Multiplication distributes over addition among field residues: for any
/// residues `a`, `b`, `c`, multiplying `a` by the field sum of `b` and `c`
/// and reducing equals the field sum of the two reduced products. This is the
/// law the field's `multiply` and `add` contracts compose to.
pub proof fn lemma_field_distributive(a: int, b: int, c: int, p: int)
    requires
        p >= 2,
    ensures
        (a * ((b + c) % p)) % p == ((a * b) % p + (a * c) % p) % p,
{
    lemma_mul_mod_noop_right(a, b + c, p);
    assert(a * (b + c) == a * b + a * c) by (nonlinear_arith);
    lemma_add_mod_noop(a * b, a * c, p);
}

/// Every in-range residue plus the value the field's negate operation
/// returns for it reduces to the additive identity.
pub proof fn lemma_field_add_negate(a: int, p: int)
    requires
        p >= 2,
        0 <= a < p,
    ensures
        (a + ((p - a) % p)) % p == 0,
{
    lemma_mod_self_0(p);
    lemma_small_mod(0 as nat, p as nat);
    if a > 0 {
        lemma_small_mod((p - a) as nat, p as nat);
    }
}

/// One modular squaring step up the two-power exponent ladder.
proof fn lemma_pow2_square_step(g: int, v: int, w: int, j: nat, p: int)
    requires
        p > 0,
        pow(g, pow2(j)) % p == v,
        (v * v) % p == w,
    ensures
        pow(g, pow2((j + 1) as nat)) % p == w,
{
    lemma_pow2_unfold((j + 1) as nat);
    lemma_pow_adds(g, pow2(j), pow2(j));
    lemma_mul_mod_noop_general(pow(g, pow2(j)), pow(g, pow2(j)), p);
    assert(pow2(j) + pow2(j) == pow2((j + 1) as nat));
}

/// The two-adic orders of the main field's fixed generator: squared up the
/// ladder it reaches the additive inverse of one at the 2^118-th power and
/// one itself at the 2^119-th, so the ladder's elements have exact two-power
/// multiplicative orders. Each step is one concrete modular squaring.
#[verifier::rlimit(100)]
pub proof fn lemma_generator_orders()
    ensures
        pow(main_generator_value(), pow2(118)) % main_modulus() == main_modulus() - 1,
        pow(main_generator_value(), pow2(119)) % main_modulus() == 1,
{
    let g = main_generator_value();
    let p = main_modulus();
    lemma2_to64();
    lemma_pow1(g);
    lemma_small_mod(g as nat, p as nat);
    assert(pow(g, pow2(0)) % p == 85408008396924667383611388730472331217);
    lemma_pow2_square_step(g, 85408008396924667383611388730472331217, 149224634558074809886965749048363504499, 0, p);
    lemma_pow2_square_step(g, 149224634558074809886965749048363504499, 196162427740603549034094478475071502895, 1, p);
    lemma_pow2_square_step(g, 196162427740603549034094478475071502895, 116907268213658073643575533712566658409, 2, p);
    lemma_pow2_square_step(g, 116907268213658073643575533712566658409, 166617961947997291532655829812349960164, 3, p);
    lemma_pow2_square_step(g, 166617961947997291532655829812349960164, 66539852496339537101639054531930604572, 4, p);
    lemma_pow2_square_step(g, 66539852496339537101639054531930604572, 11440213797608215834996383946810379256, 5, p);
    lemma_pow2_square_step(g, 11440213797608215834996383946810379256, 17602296786744439286762978807761752841, 6, p);
    lemma_pow2_square_step(g, 17602296786744439286762978807761752841, 199541424264935087850924453643565512551, 7, p);
    lemma_pow2_square_step(g, 199541424264935087850924453643565512551, 246850224108186744029793303077107928002, 8, p);
    lemma_pow2_square_step(g, 246850224108186744029793303077107928002, 167821236365404291148050121994212534469, 9, p);
    lemma_pow2_square_step(g, 167821236365404291148050121994212534469, 88976046038924257398602493835937884988, 10, p);
    lemma_pow2_square_step(g, 88976046038924257398602493835937884988, 113311751783716775014335921307100660215, 11, p);
    lemma_pow2_square_step(g, 113311751783716775014335921307100660215, 252518172258572391743594285991950099575, 12, p);
    lemma_pow2_square_step(g, 252518172258572391743594285991950099575, 11299117659779408681013300157561799534, 13, p);
    lemma_pow2_square_step(g, 11299117659779408681013300157561799534, 270412624064662740304871610389070347221, 14, p);
    lemma_pow2_square_step(g, 270412624064662740304871610389070347221, 107947943573123063506061990015412277862, 15, p);
    lemma_pow2_square_step(g, 107947943573123063506061990015412277862, 80416519481334871588817435157238859049, 16, p);
    lemma_pow2_square_step(g, 80416519481334871588817435157238859049, 225121490872289251628820053790942300823, 17, p);
    lemma_pow2_square_step(g, 225121490872289251628820053790942300823, 261542952432975256673517305685335932442, 18, p);
    lemma_pow2_square_step(g, 261542952432975256673517305685335932442, 255386618866870105815482582995418345528, 19, p);
    lemma_pow2_square_step(g, 255386618866870105815482582995418345528, 169357868963646291131969861540516148345, 20, p);
    lemma_pow2_square_step(g, 169357868963646291131969861540516148345, 42860547447461522328132211891982695648, 21, p);
    lemma_pow2_square_step(g, 42860547447461522328132211891982695648, 247455619237964463369664434510801692452, 22, p);
    lemma_pow2_square_step(g, 247455619237964463369664434510801692452, 130122049647530062205581222296118697477, 23, p);
    lemma_pow2_square_step(g, 130122049647530062205581222296118697477, 180551018904150520211061380083100186190, 24, p);
    lemma_pow2_square_step(g, 180551018904150520211061380083100186190, 224760921383767948157608946181935986226, 25, p);
    lemma_pow2_square_step(g, 224760921383767948157608946181935986226, 176992033890563115156737092951553092095, 26, p);
    lemma_pow2_square_step(g, 176992033890563115156737092951553092095, 27682845242716721946598882822503610202, 27, p);
    lemma_pow2_square_step(g, 27682845242716721946598882822503610202, 108002185358140313573024299302487023714, 28, p);
    lemma_pow2_square_step(g, 108002185358140313573024299302487023714, 62939139381922072894452418990800650140, 29, p);
    lemma_pow2_square_step(g, 62939139381922072894452418990800650140, 57924891631807238565598727485572045644, 30, p);
    lemma_pow2_square_step(g, 57924891631807238565598727485572045644, 124100165001946951453904346266445263568, 31, p);
    lemma_pow2_square_step(g, 124100165001946951453904346266445263568, 17790046619295832126019970320279295517, 32, p);
    lemma_pow2_square_step(g, 17790046619295832126019970320279295517, 122164916714994622816075438467735778924, 33, p);
    lemma_pow2_square_step(g, 122164916714994622816075438467735778924, 13786098917239544716937413746546575312, 34, p);
    lemma_pow2_square_step(g, 13786098917239544716937413746546575312, 185263851514126330133912249213886199221, 35, p);
    lemma_pow2_square_step(g, 185263851514126330133912249213886199221, 179244674670192837828247893482562699105, 36, p);
    lemma_pow2_square_step(g, 179244674670192837828247893482562699105, 20563719943151555632205195012007115505, 37, p);
    lemma_pow2_square_step(g, 20563719943151555632205195012007115505, 140621402111036775988008772915844879174, 38, p);
    lemma_pow2_square_step(g, 140621402111036775988008772915844879174, 202836202521740724160226012827507627891, 39, p);
    lemma_pow2_square_step(g, 202836202521740724160226012827507627891, 23027356669772877248389090475997951526, 40, p);
    lemma_pow2_square_step(g, 23027356669772877248389090475997951526, 58138121265556465467198353860315416106, 41, p);
    lemma_pow2_square_step(g, 58138121265556465467198353860315416106, 165266553723404018475348156398223269877, 42, p);
    lemma_pow2_square_step(g, 165266553723404018475348156398223269877, 261141639789913469346277529426114455260, 43, p);
    lemma_pow2_square_step(g, 261141639789913469346277529426114455260, 58728008449227361815617982044258415329, 44, p);
    lemma_pow2_square_step(g, 58728008449227361815617982044258415329, 37725989879039022500469842541563242074, 45, p);
    lemma_pow2_square_step(g, 37725989879039022500469842541563242074, 60681604994722136887109123241705708294, 46, p);
    lemma_pow2_square_step(g, 60681604994722136887109123241705708294, 141194708474709860713418838910853647399, 47, p);
    lemma_pow2_square_step(g, 141194708474709860713418838910853647399, 114111171465583200206545561993065702547, 48, p);
    lemma_pow2_square_step(g, 114111171465583200206545561993065702547, 133809604871796689988030087412326146557, 49, p);
    lemma_pow2_square_step(g, 133809604871796689988030087412326146557, 139778377801951755471378484836047612481, 50, p);
    lemma_pow2_square_step(g, 139778377801951755471378484836047612481, 268724245828496293570156221921880532962, 51, p);
    lemma_pow2_square_step(g, 268724245828496293570156221921880532962, 3958032543719356951799974873689414320, 52, p);
    lemma_pow2_square_step(g, 3958032543719356951799974873689414320, 53059386756353717559522727970609300717, 53, p);
    lemma_pow2_square_step(g, 53059386756353717559522727970609300717, 164705897179045511576021990306356833063, 54, p);
    lemma_pow2_square_step(g, 164705897179045511576021990306356833063, 105295318520168687186049693150401624994, 55, p);
    lemma_pow2_square_step(g, 105295318520168687186049693150401624994, 16699477141478102951009382564178171941, 56, p);
    lemma_pow2_square_step(g, 16699477141478102951009382564178171941, 149055539229067169652728748735484291821, 57, p);
    lemma_pow2_square_step(g, 149055539229067169652728748735484291821, 138645589299768798093686386428214378832, 58, p);
    lemma_pow2_square_step(g, 138645589299768798093686386428214378832, 131074062203379889953062526448314520318, 59, p);
    lemma_pow2_square_step(g, 131074062203379889953062526448314520318, 26536124405033603670713480101053962456, 60, p);
    lemma_pow2_square_step(g, 26536124405033603670713480101053962456, 57784280522505321714756156840676764917, 61, p);
    lemma_pow2_square_step(g, 57784280522505321714756156840676764917, 7012453248280543647378601745987878829, 62, p);
    lemma_pow2_square_step(g, 7012453248280543647378601745987878829, 119309974934634033526503127276303555971, 63, p);
    lemma_pow2_square_step(g, 119309974934634033526503127276303555971, 115920883987797986801259308440027594150, 64, p);
    lemma_pow2_square_step(g, 115920883987797986801259308440027594150, 149290865943755429783762521900753254994, 65, p);
    lemma_pow2_square_step(g, 149290865943755429783762521900753254994, 231142037842266224342672198120388832262, 66, p);
    lemma_pow2_square_step(g, 231142037842266224342672198120388832262, 164609129545297704292836920354710862498, 67, p);
    lemma_pow2_square_step(g, 164609129545297704292836920354710862498, 50932702601501463798052246008257562581, 68, p);
    lemma_pow2_square_step(g, 50932702601501463798052246008257562581, 87996014433354069326265695207609150526, 69, p);
    lemma_pow2_square_step(g, 87996014433354069326265695207609150526, 30459465645563241462545685926180803515, 70, p);
    lemma_pow2_square_step(g, 30459465645563241462545685926180803515, 230796742234458129108932900195113208666, 71, p);
    lemma_pow2_square_step(g, 230796742234458129108932900195113208666, 57339134353009133810797907793724699763, 72, p);
    lemma_pow2_square_step(g, 57339134353009133810797907793724699763, 71986082510956851263451977148123322035, 73, p);
    lemma_pow2_square_step(g, 71986082510956851263451977148123322035, 47679057791719070864231322410555492847, 74, p);
    lemma_pow2_square_step(g, 47679057791719070864231322410555492847, 165826587459566835239990104129175411136, 75, p);
    lemma_pow2_square_step(g, 165826587459566835239990104129175411136, 87633478589235870927785904175920872344, 76, p);
    lemma_pow2_square_step(g, 87633478589235870927785904175920872344, 175911951539014832173347546270092274198, 77, p);
    lemma_pow2_square_step(g, 175911951539014832173347546270092274198, 168180781047028361987806241322463554771, 78, p);
    lemma_pow2_square_step(g, 168180781047028361987806241322463554771, 188760366701737051411748298026312469771, 79, p);
    lemma_pow2_square_step(g, 188760366701737051411748298026312469771, 137043329739432280743935136466033442567, 80, p);
    lemma_pow2_square_step(g, 137043329739432280743935136466033442567, 254811542197935531661802877449773277617, 81, p);
    lemma_pow2_square_step(g, 254811542197935531661802877449773277617, 146121351841646199955613554491793313345, 82, p);
    lemma_pow2_square_step(g, 146121351841646199955613554491793313345, 202134711252280552281770353669653550211, 83, p);
    lemma_pow2_square_step(g, 202134711252280552281770353669653550211, 62020643629271613536358612995472649224, 84, p);
    lemma_pow2_square_step(g, 62020643629271613536358612995472649224, 60955409100920546531994404498493215995, 85, p);
    lemma_pow2_square_step(g, 60955409100920546531994404498493215995, 267306289615708092041963651785810633313, 86, p);
    lemma_pow2_square_step(g, 267306289615708092041963651785810633313, 82886710661896431930683110203913025715, 87, p);
    lemma_pow2_square_step(g, 82886710661896431930683110203913025715, 183672562657124655756044190146949222768, 88, p);
    lemma_pow2_square_step(g, 183672562657124655756044190146949222768, 132011392005246224365974131170596379858, 89, p);
    lemma_pow2_square_step(g, 132011392005246224365974131170596379858, 70175474737685246412980779337185950443, 90, p);
    lemma_pow2_square_step(g, 70175474737685246412980779337185950443, 220997914137524785485614782437485244991, 91, p);
    lemma_pow2_square_step(g, 220997914137524785485614782437485244991, 171593735460794207840454921346185543981, 92, p);
    lemma_pow2_square_step(g, 171593735460794207840454921346185543981, 71288948178855918325178708028277674438, 93, p);
    lemma_pow2_square_step(g, 71288948178855918325178708028277674438, 65925256741735993773732873161688574648, 94, p);
    lemma_pow2_square_step(g, 65925256741735993773732873161688574648, 223621218216708547223464078625256957762, 95, p);
    lemma_pow2_square_step(g, 223621218216708547223464078625256957762, 70183190447477977100017978035181125195, 96, p);
    lemma_pow2_square_step(g, 70183190447477977100017978035181125195, 81205103701858762222647973189173115555, 97, p);
    lemma_pow2_square_step(g, 81205103701858762222647973189173115555, 246476146805045146772952495119713591992, 98, p);
    lemma_pow2_square_step(g, 246476146805045146772952495119713591992, 205585349689748417101142707299351452499, 99, p);
    lemma_pow2_square_step(g, 205585349689748417101142707299351452499, 235536536747046009653031169237027907708, 100, p);
    lemma_pow2_square_step(g, 235536536747046009653031169237027907708, 124563061566547205452168207223266849609, 101, p);
    lemma_pow2_square_step(g, 124563061566547205452168207223266849609, 60852861674981758841349565467922926979, 102, p);
    lemma_pow2_square_step(g, 60852861674981758841349565467922926979, 47297075848054312102354453716405586435, 103, p);
    lemma_pow2_square_step(g, 47297075848054312102354453716405586435, 218316119641727656000523521043738064690, 104, p);
    lemma_pow2_square_step(g, 218316119641727656000523521043738064690, 185080982397478044717513752950010250958, 105, p);
    lemma_pow2_square_step(g, 185080982397478044717513752950010250958, 106535815141977674204471003459472633885, 106, p);
    lemma_pow2_square_step(g, 106535815141977674204471003459472633885, 240639785279454729936319549588094844628, 107, p);
    lemma_pow2_square_step(g, 240639785279454729936319549588094844628, 157047144299673000979490264221078274179, 108, p);
    lemma_pow2_square_step(g, 157047144299673000979490264221078274179, 11068365217297290165464327737828832066, 109, p);
    lemma_pow2_square_step(g, 11068365217297290165464327737828832066, 178902808384765167578311106676137348214, 110, p);
    lemma_pow2_square_step(g, 178902808384765167578311106676137348214, 65907963977709178563567092354521124432, 111, p);
    lemma_pow2_square_step(g, 65907963977709178563567092354521124432, 59478736836296470922896375673044043947, 112, p);
    lemma_pow2_square_step(g, 59478736836296470922896375673044043947, 16698199167658661640320272194027702370, 113, p);
    lemma_pow2_square_step(g, 16698199167658661640320272194027702370, 22186728119017901039385635608201850931, 114, p);
    lemma_pow2_square_step(g, 22186728119017901039385635608201850931, 131076302407280330469229082343774091404, 115, p);
    lemma_pow2_square_step(g, 131076302407280330469229082343774091404, 259052015163170058651980223774986375587, 116, p);
    lemma_pow2_square_step(g, 259052015163170058651980223774986375587, 270497897142230380135924736767050121216, 117, p);
    lemma_pow2_square_step(g, 270497897142230380135924736767050121216, 1, 118, p);
}

/// On a prime modulus, a Bezout identity for a non-negative value outside the
/// zero class forces the ideal generator to be the unit.
proof fn lemma_prime_bezout_unit(av: int, bv: int, gv: int, v: int, p: int)
    requires
        is_prime(p),
        v >= 0,
        v % p != 0,
        av * v + bv * p == gv,
        exists|k: int| v == #[trigger] (k * gv),
        exists|k: int| p == #[trigger] (k * gv),
        gv >= 0,
    ensures
        gv == 1,
        av * v + bv * p == 1,
{
    let k1 = choose|k: int| v == #[trigger] (k * gv);
    let k2 = choose|k: int| p == #[trigger] (k * gv);
    if gv == 0 {
        assert(p == k2 * 0);
        assert(false);
    }
    assert(k2 >= 1) by (nonlinear_arith)
        requires
            p == k2 * gv,
            gv > 0,
            p >= 2;
    assert(gv <= p) by (nonlinear_arith)
        requires
            p == k2 * gv,
            gv > 0,
            k2 >= 1;
    if 2 <= gv && gv < p {
        lemma_mod_multiples_basic(k2, gv);
        assert(p % gv == 0);
        assert(false);
    }
    if gv == p {
        lemma_mod_multiples_basic(k1, p);
        assert(v % p == 0);
        assert(false);
    }
}

} // verus!
