//! Signed arbitrary-precision integers, modelled as a sign and a little-endian
//! base-2^32 limb vector. The mathematical value of every `Big` is pinned down
//! by the spec function `big_val`; the four ring operations and truncating
//! division are delegated to `num_bigint` through trusted wrappers whose
//! contracts state the exact integer result.

use vstd::prelude::*;
use vstd::arithmetic::div_mod::*;
use vstd::math::abs;

verus! {

/// A signed big integer: `negative` is the sign, `limbs` the magnitude in
/// little-endian base-2^32 digits.
#[derive(Clone, Debug)]
pub struct Big {
    pub negative: bool,
    pub limbs: Vec<u32>,
}

/// The integer denoted by a little-endian base-2^32 digit sequence.
pub open spec fn limbs_val(s: Seq<u32>) -> int
    decreases s.len(),
{
    if s.len() == 0 {
        0
    } else {
        s[0] + 0x1_0000_0000 * limbs_val(s.subrange(1, s.len() as int))
    }
}

/// A digit sequence is canonical when it carries no leading zero digit.
pub open spec fn canon_limbs(s: Seq<u32>) -> bool {
    s.len() > 0 ==> s[s.len() - 1] != 0
}

/// Well-formed big integers are canonical, and zero is never negative.
pub open spec fn wf_big(b: Big) -> bool {
    canon_limbs(b.limbs@) && (b.negative ==> b.limbs.len() > 0)
}

/// The integer a `Big` denotes.
pub open spec fn big_val(b: Big) -> int {
    if b.negative {
        -limbs_val(b.limbs@)
    } else {
        limbs_val(b.limbs@)
    }
}

/// Truncating quotient, rounding toward zero, as `num_bigint` divides.
pub open spec fn tdiv(a: int, b: int) -> int {
    if (a >= 0) == (b >= 0) {
        abs(a) as int / abs(b) as int
    } else {
        -(abs(a) as int / abs(b) as int)
    }
}

/// Truncating remainder, carrying the sign of the dividend, as `num_bigint` does.
pub open spec fn tmod(a: int, b: int) -> int {
    if a >= 0 {
        abs(a) as int % abs(b) as int
    } else {
        -(abs(a) as int % abs(b) as int)
    }
}

pub proof fn lemma_limbs_val_single(s: Seq<u32>)
    requires
        s.len() == 1,
    ensures
        limbs_val(s) == s[0],
{
    assert(s.subrange(1, 1) =~= Seq::<u32>::empty());
    assert(limbs_val(Seq::<u32>::empty()) == 0);
}

pub proof fn lemma_limbs_val_nonneg(s: Seq<u32>)
    ensures
        limbs_val(s) >= 0,
    decreases s.len(),
{
    if s.len() > 0 {
        lemma_limbs_val_nonneg(s.subrange(1, s.len() as int));
    }
}

pub proof fn lemma_limbs_val_pos(s: Seq<u32>)
    requires
        s.len() > 0,
        s[s.len() - 1] != 0,
    ensures
        limbs_val(s) > 0,
    decreases s.len(),
{
    let t = s.subrange(1, s.len() as int);
    if s.len() == 1 {
        assert(limbs_val(t) == 0);
    } else {
        assert(t[t.len() - 1] == s[s.len() - 1]);
        lemma_limbs_val_pos(t);
    }
}

/// Canonical digit sequences denote their value uniquely.
pub proof fn lemma_limbs_val_injective(s: Seq<u32>, t: Seq<u32>)
    requires
        canon_limbs(s),
        canon_limbs(t),
        limbs_val(s) == limbs_val(t),
    ensures
        s == t,
    decreases s.len(),
{
    if s.len() == 0 && t.len() == 0 {
        assert(s =~= t);
    } else if s.len() == 0 {
        lemma_limbs_val_pos(t);
        assert(false);
    } else if t.len() == 0 {
        lemma_limbs_val_pos(s);
        assert(false);
    } else {
        let st = s.subrange(1, s.len() as int);
        let tt = t.subrange(1, t.len() as int);
        lemma_limbs_val_nonneg(st);
        lemma_limbs_val_nonneg(tt);
        let v = limbs_val(s);
        lemma_fundamental_div_mod_converse(v, 0x1_0000_0000, limbs_val(st), s[0] as int);
        lemma_fundamental_div_mod_converse(v, 0x1_0000_0000, limbs_val(tt), t[0] as int);
        assert(s[0] == t[0]);
        assert(limbs_val(st) == limbs_val(tt));
        assert(canon_limbs(st)) by {
            if st.len() > 0 {
                assert(st[st.len() - 1] == s[s.len() - 1]);
            }
        }
        assert(canon_limbs(tt)) by {
            if tt.len() > 0 {
                assert(tt[tt.len() - 1] == t[t.len() - 1]);
            }
        }
        lemma_limbs_val_injective(st, tt);
        assert forall|i: int| 0 <= i < s.len() implies s[i] == t[i] by {
            if i > 0 {
                assert(s[i] == st[i - 1]);
                assert(t[i] == tt[i - 1]);
            }
        }
        assert(s =~= t);
    }
}

/// A well-formed `Big` is zero exactly when it has no limbs, and negative
/// exactly when its sign flag is set.
pub proof fn lemma_big_val_sign(b: Big)
    requires
        wf_big(b),
    ensures
        (big_val(b) == 0) == (b.limbs.len() == 0),
        (big_val(b) < 0) == b.negative,
{
    lemma_limbs_val_nonneg(b.limbs@);
    if b.limbs.len() > 0 {
        lemma_limbs_val_pos(b.limbs@);
    }
}

/// Well-formed big integers with equal values are structurally equal.
pub proof fn lemma_big_val_injective(a: Big, b: Big)
    requires
        wf_big(a),
        wf_big(b),
        big_val(a) == big_val(b),
    ensures
        a.negative == b.negative,
        a.limbs@ == b.limbs@,
{
    lemma_big_val_sign(a);
    lemma_big_val_sign(b);
    if a.negative == b.negative {
        lemma_limbs_val_injective(a.limbs@, b.limbs@);
    }
}

/// The truncating quotient and remainder decompose the dividend, the
/// remainder is smaller than the divisor and carries the dividend's sign,
/// and on non-negative operands they agree with Euclidean division.
pub proof fn lemma_tdiv_tmod(a: int, b: int)
    requires
        b != 0,
    ensures
        a == b * tdiv(a, b) + tmod(a, b),
        abs(tmod(a, b)) < abs(b),
        a >= 0 ==> tmod(a, b) >= 0,
        a <= 0 ==> tmod(a, b) <= 0,
        a >= 0 && b > 0 ==> tdiv(a, b) == a / b && tmod(a, b) == a % b,
{
    let aa = abs(a) as int;
    let ab = abs(b) as int;
    let q0 = aa / ab;
    let r0 = aa % ab;
    lemma_fundamental_div_mod(aa, ab);
    lemma_mod_bound(aa, ab);
    assert(aa == ab * q0 + r0);
    lemma_div_pos_is_pos(aa, ab);
    if a >= 0 && b > 0 {
        assert(a == b * tdiv(a, b) + tmod(a, b));
    } else if a >= 0 && b < 0 {
        assert(tdiv(a, b) == -q0);
        assert(b * (-q0) == ab * q0) by (nonlinear_arith)
            requires ab == -b;
        assert(a == b * tdiv(a, b) + tmod(a, b));
    } else if a < 0 && b > 0 {
        assert(tdiv(a, b) == -q0);
        assert(b * (-q0) == -(ab * q0)) by (nonlinear_arith)
            requires ab == b;
        assert(a == b * tdiv(a, b) + tmod(a, b));
    } else {
        assert(tdiv(a, b) == q0);
        assert(b * q0 == -(ab * q0)) by (nonlinear_arith)
            requires ab == -b;
        assert(a == b * tdiv(a, b) + tmod(a, b));
    }
}

/// The truncating remainder is congruent to the dividend.
pub proof fn lemma_tmod_congruent(a: int, b: int)
    requires
        b > 0,
    ensures
        tmod(a, b) % b == a % b,
{
    lemma_tdiv_tmod(a, b);
    lemma_mod_multiples_vanish(tdiv(a, b), tmod(a, b), b);
    assert(b * tdiv(a, b) + tmod(a, b) == a);
}

impl Big {
    /// The big integer denoting a machine word.
    pub fn from_u64(x: u64) -> (r: Big)
        ensures
            wf_big(r),
            big_val(r) == x,
    {
        let lo: u32 = (x % 0x1_0000_0000) as u32;
        let hi: u32 = (x / 0x1_0000_0000) as u32;
        let mut limbs: Vec<u32> = Vec::new();
        if hi != 0 {
            limbs.push(lo);
            limbs.push(hi);
            proof {
                let s = limbs@;
                assert(s.subrange(1, 2)[0] == hi);
                lemma_limbs_val_single(s.subrange(1, 2));
                assert(limbs_val(s.subrange(1, 2)) == hi);
                assert(limbs_val(s) == lo + 0x1_0000_0000 * (hi as int));
                lemma_fundamental_div_mod(x as int, 0x1_0000_0000);
            }
        } else if lo != 0 {
            limbs.push(lo);
            proof {
                let s = limbs@;
                lemma_limbs_val_single(s);
                assert(limbs_val(s) == lo);
                lemma_fundamental_div_mod(x as int, 0x1_0000_0000);
            }
        } else {
            proof {
                lemma_fundamental_div_mod(x as int, 0x1_0000_0000);
            }
        }
        Big { negative: false, limbs }
    }

    /// An identical copy.
    pub fn duplicate(&self) -> (r: Big)
        ensures
            r.negative == self.negative,
            r.limbs@ == self.limbs@,
            big_val(r) == big_val(*self),
            wf_big(*self) ==> wf_big(r),
    {
        Big { negative: self.negative, limbs: copy_limbs(&self.limbs) }
    }

    /// Whether this big integer denotes zero.
    pub fn is_zero(&self) -> (r: bool)
        requires
            wf_big(*self),
        ensures
            r == (big_val(*self) == 0),
    {
        proof {
            lemma_big_val_sign(*self);
        }
        self.limbs.len() == 0
    }

    /// Whether this big integer denotes a negative value.
    pub fn is_negative(&self) -> (r: bool)
        requires
            wf_big(*self),
        ensures
            r == (big_val(*self) < 0),
    {
        proof {
            lemma_big_val_sign(*self);
        }
        self.negative
    }

    /// Whether this big integer denotes an odd value.
    pub fn is_odd(&self) -> (r: bool)
        requires
            wf_big(*self),
        ensures
            r == (abs(big_val(*self)) % 2 == 1),
    {
        if self.limbs.len() == 0 {
            proof {
                lemma_big_val_sign(*self);
            }
            false
        } else {
            proof {
                let s = self.limbs@;
                let rest = limbs_val(s.subrange(1, s.len() as int));
                lemma_limbs_val_nonneg(s.subrange(1, s.len() as int));
                assert(limbs_val(s) == s[0] + 0x1_0000_0000 * rest);
                lemma_mod_multiples_vanish(0x8000_0000 * rest, s[0] as int, 2);
                assert(2 * (0x8000_0000 * rest) == 0x1_0000_0000 * rest) by (nonlinear_arith);
                assert(limbs_val(s) % 2 == s[0] % 2);
                assert(abs(big_val(*self)) == limbs_val(s));
                lemma_mod_bound(s[0] as int, 2);
            }
            self.limbs[0] % 2 == 1
        }
    }

    /// Whether two big integers denote the same value.
    pub fn same_value(&self, other: &Big) -> (r: bool)
        requires
            wf_big(*self),
            wf_big(*other),
        ensures
            r == (big_val(*self) == big_val(*other)),
    {
        proof {
            lemma_big_val_sign(*self);
            lemma_big_val_sign(*other);
            if big_val(*self) == big_val(*other) {
                lemma_big_val_injective(*self, *other);
            }
        }
        if self.negative != other.negative {
            false
        } else {
            limbs_eq(&self.limbs, &other.limbs)
        }
    }
}

fn copy_limbs(a: &Vec<u32>) -> (r: Vec<u32>)
    ensures
        r@ == a@,
{
    let mut r: Vec<u32> = Vec::new();
    let mut i: usize = 0;
    while i < a.len()
        invariant
            i <= a.len(),
            r@ == a@.subrange(0, i as int),
        decreases a.len() - i,
    {
        r.push(a[i]);
        i += 1;
        proof {
            assert(r@ =~= a@.subrange(0, i as int));
        }
    }
    proof {
        assert(r@ =~= a@);
    }
    r
}

fn limbs_eq(a: &Vec<u32>, b: &Vec<u32>) -> (r: bool)
    ensures
        r == (a@ == b@),
{
    if a.len() != b.len() {
        proof {
            assert(a@.len() != b@.len());
        }
        return false;
    }
    let mut i: usize = 0;
    while i < a.len()
        invariant
            a@.len() == b@.len(),
            i <= a.len(),
            forall|j: int| 0 <= j < i ==> a@[j] == b@[j],
        decreases a.len() - i,
    {
        if a[i] != b[i] {
            return false;
        }
        i += 1;
    }
    proof {
        assert(a@ =~= b@);
    }
    true
}

/// Relies on `num_bigint::BigInt` addition: the exact integer sum.
#[verifier::external_body]
pub(crate) fn big_add(a: &Big, b: &Big) -> (r: Big)
    ensures
        wf_big(r),
        big_val(r) == big_val(*a) + big_val(*b),
{
    let x = num_bigint::BigInt::new(if a.negative { num_bigint::Sign::Minus } else { num_bigint::Sign::Plus }, a.limbs.clone());
    let y = num_bigint::BigInt::new(if b.negative { num_bigint::Sign::Minus } else { num_bigint::Sign::Plus }, b.limbs.clone());
    let (sign, limbs) = (x + y).to_u32_digits();
    Big { negative: matches!(sign, num_bigint::Sign::Minus), limbs }
}

/// Relies on `num_bigint::BigInt` subtraction: the exact integer difference.
#[verifier::external_body]
pub(crate) fn big_sub(a: &Big, b: &Big) -> (r: Big)
    ensures
        wf_big(r),
        big_val(r) == big_val(*a) - big_val(*b),
{
    let x = num_bigint::BigInt::new(if a.negative { num_bigint::Sign::Minus } else { num_bigint::Sign::Plus }, a.limbs.clone());
    let y = num_bigint::BigInt::new(if b.negative { num_bigint::Sign::Minus } else { num_bigint::Sign::Plus }, b.limbs.clone());
    let (sign, limbs) = (x - y).to_u32_digits();
    Big { negative: matches!(sign, num_bigint::Sign::Minus), limbs }
}

/// Relies on `num_bigint::BigInt` multiplication: the exact integer product.
#[verifier::external_body]
pub(crate) fn big_mul(a: &Big, b: &Big) -> (r: Big)
    ensures
        wf_big(r),
        big_val(r) == big_val(*a) * big_val(*b),
{
    let x = num_bigint::BigInt::new(if a.negative { num_bigint::Sign::Minus } else { num_bigint::Sign::Plus }, a.limbs.clone());
    let y = num_bigint::BigInt::new(if b.negative { num_bigint::Sign::Minus } else { num_bigint::Sign::Plus }, b.limbs.clone());
    let (sign, limbs) = (x * y).to_u32_digits();
    Big { negative: matches!(sign, num_bigint::Sign::Minus), limbs }
}

/// Relies on `num_bigint::BigInt` division: the quotient truncated toward zero.
#[verifier::external_body]
pub(crate) fn big_div(a: &Big, b: &Big) -> (r: Big)
    requires
        big_val(*b) != 0,
    ensures
        wf_big(r),
        big_val(r) == tdiv(big_val(*a), big_val(*b)),
{
    let x = num_bigint::BigInt::new(if a.negative { num_bigint::Sign::Minus } else { num_bigint::Sign::Plus }, a.limbs.clone());
    let y = num_bigint::BigInt::new(if b.negative { num_bigint::Sign::Minus } else { num_bigint::Sign::Plus }, b.limbs.clone());
    let (sign, limbs) = (x / y).to_u32_digits();
    Big { negative: matches!(sign, num_bigint::Sign::Minus), limbs }
}

/// Relies on `num_bigint::BigInt` remainder: the truncating remainder, with
/// the sign of the dividend.
#[verifier::external_body]
pub(crate) fn big_rem(a: &Big, b: &Big) -> (r: Big)
    requires
        big_val(*b) != 0,
    ensures
        wf_big(r),
        big_val(r) == tmod(big_val(*a), big_val(*b)),
{
    let x = num_bigint::BigInt::new(if a.negative { num_bigint::Sign::Minus } else { num_bigint::Sign::Plus }, a.limbs.clone());
    let y = num_bigint::BigInt::new(if b.negative { num_bigint::Sign::Minus } else { num_bigint::Sign::Plus }, b.limbs.clone());
    let (sign, limbs) = (x % y).to_u32_digits();
    Big { negative: matches!(sign, num_bigint::Sign::Minus), limbs }
}

} // verus!
