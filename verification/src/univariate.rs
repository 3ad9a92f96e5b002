//! Dense univariate polynomials over a prime field: a coefficient vector in
//! increasing-degree order, with arithmetic, long division, Lagrange
//! interpolation, zerofier construction and evaluation.

use vstd::prelude::*;
use vstd::arithmetic::div_mod::*;
use vstd::arithmetic::power::*;
use vstd::math::abs;
use crate::algebra::{is_prime, lemma_cong_mul, FieldElement};
use crate::big::{big_div, big_val, lemma_tdiv_tmod, lemma_tmod_congruent, tmod, wf_big, Big};

verus! {

/// A dense polynomial; index `i` holds the coefficient of `x^i`. The field is
/// derived from the coefficients; high positions may hold the field's zero.
#[derive(Clone, Debug)]
pub struct Polynomial {
    pub coefficients: Vec<FieldElement>,
}

/// The coefficient of `x^k` in a coefficient-value sequence, zero beyond its
/// length.
pub open spec fn pad_at(c: Seq<int>, k: int) -> int {
    if 0 <= k < c.len() {
        c[k]
    } else {
        0
    }
}

/// The degree of a coefficient-value sequence modulo `m`: the highest index
/// whose residue is non-zero, `-1` if there is none.
pub open spec fn deg_of(c: Seq<int>, m: int) -> int
    decreases c.len(),
{
    if c.len() == 0 {
        -1
    } else if c.last() % m != 0 {
        c.len() - 1
    } else {
        deg_of(c.drop_last(), m)
    }
}

/// The coefficient of `x^k` in the product of two coefficient sequences,
/// summed over the first `i` coefficients of `a`.
pub open spec fn conv_upto(a: Seq<int>, b: Seq<int>, k: int, i: int) -> int
    decreases i,
{
    if i <= 0 {
        0
    } else {
        conv_upto(a, b, k, i - 1) + pad_at(a, i - 1) * pad_at(b, k - (i - 1))
    }
}

/// The coefficient of `x^k` in the product of two coefficient sequences.
pub open spec fn conv_at(a: Seq<int>, b: Seq<int>, k: int) -> int {
    conv_upto(a, b, k, a.len() as int)
}

/// The value of a coefficient sequence at the point `x`, over the integers.
pub open spec fn eval_at(c: Seq<int>, x: int) -> int
    decreases c.len(),
{
    if c.len() == 0 {
        0
    } else {
        c[0] + x * eval_at(c.subrange(1, c.len() as int), x)
    }
}

pub proof fn lemma_deg_of_props(c: Seq<int>, m: int)
    requires
        m >= 1,
    ensures
        -1 <= deg_of(c, m) < c.len(),
        deg_of(c, m) >= 0 ==> c[deg_of(c, m)] % m != 0,
        forall|i: int| deg_of(c, m) < i < c.len() ==> #[trigger] (c[i] % m) == 0,
    decreases c.len(),
{
    if c.len() > 0 && c.last() % m == 0 {
        lemma_deg_of_props(c.drop_last(), m);
        assert forall|i: int| deg_of(c, m) < i < c.len() implies #[trigger] (c[i] % m) == 0 by {
            if i < c.len() - 1 {
                assert(c[i] == c.drop_last()[i]);
            }
        }
    }
}

/// A sequence whose residues vanish above some index keeps its degree when
/// truncated there.
pub proof fn lemma_deg_of_prefix(c: Seq<int>, m: int, n: int)
    requires
        m >= 1,
        0 <= n <= c.len(),
        forall|i: int| n <= i < c.len() ==> #[trigger] (c[i] % m) == 0,
    ensures
        deg_of(c, m) == deg_of(c.subrange(0, n), m),
    decreases c.len() - n,
{
    if n < c.len() {
        assert(c.last() % m == 0);
        assert(c.drop_last() =~= c.subrange(0, c.len() - 1));
        lemma_deg_of_prefix(c.subrange(0, c.len() - 1), m, n);
        assert(c.subrange(0, c.len() - 1).subrange(0, n) =~= c.subrange(0, n));
    } else {
        assert(c.subrange(0, n) =~= c);
    }
}

impl Polynomial {
    /// The sequence of raw coefficient values.
    pub open spec fn coeffs(self) -> Seq<int> {
        self.coefficients@.map(|i: int, e: FieldElement| e.val())
    }

    /// The number of stored coefficients.
    pub open spec fn poly_len(self) -> nat {
        self.coefficients@.len()
    }

    /// The modulus of the field the coefficients belong to (meaningful when
    /// there is at least one coefficient).
    pub open spec fn modulus(self) -> int {
        self.coefficients@[0].modulus()
    }

    /// All coefficients are well-formed elements of a field of modulus `m`.
    pub open spec fn wf_with(self, m: int) -> bool {
        m >= 2 && forall|i: int|
            0 <= i < self.coefficients@.len() ==> (#[trigger] self.coefficients@[i]).wf()
                && self.coefficients@[i].modulus() == m
    }

    pub open spec fn wf(self) -> bool {
        self.poly_len() > 0 ==> self.wf_with(self.modulus())
    }

    /// Well-formed with every raw coefficient already reduced into `[0, m)`.
    pub open spec fn in_range_with(self, m: int) -> bool {
        self.wf_with(m) && forall|i: int|
            0 <= i < self.coeffs().len() ==> 0 <= #[trigger] self.coeffs()[i] < m
    }

    /// The degree of this polynomial as a mathematical value.
    pub open spec fn deg(self) -> int {
        deg_of(self.coeffs(), self.modulus())
    }

    /// Whether this polynomial is the zero polynomial: empty, or every
    /// coefficient in the zero residue class.
    pub open spec fn zero_spec(self) -> bool {
        self.poly_len() == 0 || self.deg() == -1
    }

    /// Two polynomials may meet in an operation: if both are non-empty they
    /// share one modulus.
    pub open spec fn compat(self, other: Polynomial) -> bool {
        self.poly_len() > 0 && other.poly_len() > 0 ==> self.modulus() == other.modulus()
    }

    /// A polynomial with the given coefficients, exactly as given.
    pub fn new(coefficients: Vec<FieldElement>) -> (res: Polynomial)
        ensures
            res.coefficients@ == coefficients@,
    {
        Polynomial { coefficients }
    }

    /// An identical copy: same coefficient values over the same modulus.
    pub fn duplicate(&self) -> (res: Polynomial)
        ensures
            res.coeffs() == self.coeffs(),
            res.poly_len() == self.poly_len(),
            self.poly_len() > 0 ==> res.modulus() == self.modulus(),
            forall|m: int| self.wf_with(m) ==> res.wf_with(m),
            forall|m: int| self.in_range_with(m) ==> res.in_range_with(m),
    {
        let mut coefficients: Vec<FieldElement> = Vec::new();
        let mut i: usize = 0;
        while i < self.coefficients.len()
            invariant
                i <= self.coefficients@.len(),
                coefficients@.len() == i,
                forall|j: int| 0 <= j < i ==> (#[trigger] coefficients@[j]).val()
                    == self.coefficients@[j].val() && coefficients@[j].modulus()
                    == self.coefficients@[j].modulus() && (self.coefficients@[j].wf()
                    ==> coefficients@[j].wf()),
            decreases self.coefficients@.len() - i,
        {
            coefficients.push(self.coefficients[i].duplicate());
            i += 1;
        }
        let res = Polynomial { coefficients };
        proof {
            assert(res.coeffs() =~= self.coeffs());
        }
        res
    }

    /// The degree: `-1` for the zero polynomial, otherwise the highest index
    /// whose coefficient is not equivalent to the field's zero.
    pub fn degree(&self) -> (d: i32)
        requires
            self.wf(),
            self.poly_len() <= 0x7fff_ffff,
        ensures
            d == if self.poly_len() == 0 {
                -1
            } else {
                self.deg()
            },
    {
        if self.coefficients.len() == 0 {
            return -1;
        }
        let ghost m = self.modulus();
        let mut i: usize = self.coefficients.len();
        proof {
            assert(self.coeffs().subrange(0, i as int) =~= self.coeffs());
        }
        while i > 0
            invariant
                self.wf(),
                self.poly_len() > 0,
                self.poly_len() <= 0x7fff_ffff,
                m == self.modulus(),
                i <= self.coefficients@.len(),
                deg_of(self.coeffs(), m) == deg_of(self.coeffs().subrange(0, i as int), m),
            decreases i,
        {
            let nz = !self.coefficients[i - 1].normalized_value().is_zero();
            proof {
                let pre = self.coeffs().subrange(0, i as int);
                assert(pre.last() == self.coeffs()[i - 1]);
                assert(pre.drop_last() =~= self.coeffs().subrange(0, i - 1));
            }
            if nz {
                proof {
                    let pre = self.coeffs().subrange(0, i as int);
                    assert(deg_of(pre, m) == i - 1);
                }
                return (i - 1) as i32;
            }
            i -= 1;
        }
        proof {
            assert(self.coeffs().subrange(0, 0) =~= Seq::<int>::empty());
        }
        -1
    }

    /// The coefficient at the degree position.
    pub fn leading_coefficient(&self) -> (res: FieldElement)
        requires
            self.wf(),
            self.poly_len() <= 0x7fff_ffff,
            self.poly_len() > 0,
            self.deg() >= 0,
        ensures
            res.wf(),
            res.modulus() == self.modulus(),
            res.val() == self.coeffs()[self.deg()],
            res.val() % self.modulus() != 0,
    {
        proof {
            lemma_deg_of_props(self.coeffs(), self.modulus());
        }
        let d = self.degree();
        self.coefficients[d as usize].duplicate()
    }

    /// Whether this is the zero polynomial (degree `-1`).
    pub fn is_zero(&self) -> (r: bool)
        requires
            self.wf(),
            self.poly_len() <= 0x7fff_ffff,
        ensures
            r == self.zero_spec(),
    {
        self.degree() == -1
    }

    /// Coefficient-wise additive inverse.
    pub fn neg(&self) -> (res: Polynomial)
        requires
            self.wf(),
        ensures
            res.poly_len() == self.poly_len(),
            forall|m: int| self.wf_with(m) ==> res.wf_with(m),
            self.poly_len() > 0 ==> res.modulus() == self.modulus(),
            forall|k: int| 0 <= k < self.coeffs().len() ==> #[trigger] res.coeffs()[k] == tmod(
                self.modulus() - self.coeffs()[k],
                self.modulus(),
            ),
            forall|m: int| self.in_range_with(m) ==> res.in_range_with(m),
            forall|k: int|
                0 <= k < self.coeffs().len() && 0 <= self.coeffs()[k] < self.modulus()
                    ==> #[trigger] res.coeffs()[k] == (-self.coeffs()[k]) % self.modulus(),
    {
        let mut coefficients: Vec<FieldElement> = Vec::new();
        let mut i: usize = 0;
        while i < self.coefficients.len()
            invariant
                self.wf(),
                i <= self.coefficients@.len(),
                coefficients@.len() == i,
                forall|j: int| 0 <= j < i ==> (#[trigger] coefficients@[j]).wf()
                    && coefficients@[j].modulus() == self.modulus() && coefficients@[j].val()
                    == tmod(self.modulus() - self.coefficients@[j].val(), self.modulus()),
                forall|j: int| 0 <= j < i && 0 <= self.coefficients@[j].val() < self.modulus()
                    ==> (#[trigger] coefficients@[j]).val() == (-self.coefficients@[j].val())
                    % self.modulus() && 0 <= coefficients@[j].val() < self.modulus(),
            decreases self.coefficients@.len() - i,
        {
            coefficients.push(self.coefficients[i].neg());
            i += 1;
        }
        let res = Polynomial { coefficients };
        proof {
            assert(self.coeffs().len() == res.coeffs().len());
            assert forall|m: int| self.in_range_with(m) implies res.in_range_with(m) by {
                if self.poly_len() > 0 {
                    assert(m == self.modulus());
                    assert forall|j: int| 0 <= j < res.coeffs().len() implies 0
                        <= #[trigger] res.coeffs()[j] < m by {
                        assert(0 <= self.coeffs()[j] < m);
                        assert(res.coeffs()[j] == res.coefficients@[j].val());
                    }
                }
            }
        }
        res
    }

    /// Coefficient-wise sum. Adding the zero polynomial returns the other
    /// operand unchanged; otherwise the shorter operand is zero-padded.
    pub fn add(&self, other: &Polynomial) -> (res: Polynomial)
        requires
            self.wf(),
            other.wf(),
            self.compat(*other),
            self.poly_len() <= 0x7fff_ffff,
            other.poly_len() <= 0x7fff_ffff,
        ensures
            self.zero_spec() ==> res.coeffs() == other.coeffs() && res.poly_len()
                == other.poly_len() && (other.poly_len() > 0 ==> res.modulus() == other.modulus())
                && (forall|m: int| other.wf_with(m) ==> res.wf_with(m)) && (forall|m: int|
                other.in_range_with(m) ==> res.in_range_with(m)),
            !self.zero_spec() && other.zero_spec() ==> res.coeffs() == self.coeffs()
                && res.poly_len() == self.poly_len() && res.modulus() == self.modulus() && (
            forall|m: int| self.wf_with(m) ==> res.wf_with(m)) && (forall|m: int|
                self.in_range_with(m) ==> res.in_range_with(m)),
            !self.zero_spec() && !other.zero_spec() ==> res.poly_len() == vstd::math::max(
                self.poly_len() as int,
                other.poly_len() as int,
            ) && res.wf_with(self.modulus()) && res.modulus() == self.modulus() && forall|k: int|
                0 <= k < res.coeffs().len() ==> #[trigger] res.coeffs()[k] == tmod(
                    pad_at(self.coeffs(), k) + pad_at(other.coeffs(), k),
                    self.modulus(),
                ),
            !self.zero_spec() && !other.zero_spec() && self.in_range_with(self.modulus())
                && other.in_range_with(self.modulus()) ==> res.in_range_with(self.modulus())
                && forall|k: int| 0 <= k < res.coeffs().len() ==> #[trigger] res.coeffs()[k] == (
            pad_at(self.coeffs(), k) + pad_at(other.coeffs(), k)) % self.modulus(),
    {
        if self.is_zero() {
            return other.duplicate();
        }
        if other.is_zero() {
            return self.duplicate();
        }
        let ghost m = self.modulus();
        let field = self.coefficients[0].field.duplicate();
        let la = self.coefficients.len();
        let lb = other.coefficients.len();
        let max_len: usize = if la >= lb {
            la
        } else {
            lb
        };
        let mut coefficients: Vec<FieldElement> = Vec::new();
        let mut k: usize = 0;
        while k < max_len
            invariant
                self.wf(),
                other.wf(),
                self.poly_len() > 0,
                other.poly_len() > 0,
                m == self.modulus(),
                m == other.modulus(),
                field.wf(),
                field.modulus() == m,
                la == self.poly_len(),
                lb == other.poly_len(),
                max_len == vstd::math::max(la as int, lb as int),
                k <= max_len,
                coefficients@.len() == k,
                forall|j: int| 0 <= j < k ==> (#[trigger] coefficients@[j]).wf()
                    && coefficients@[j].modulus() == m && coefficients@[j].val() == tmod(
                    pad_at(self.coeffs(), j) + pad_at(other.coeffs(), j),
                    m,
                ),
                forall|j: int| 0 <= j < k && 0 <= pad_at(self.coeffs(), j) < m && 0 <= pad_at(
                    other.coeffs(),
                    j,
                ) < m ==> (#[trigger] coefficients@[j]).val() == (pad_at(self.coeffs(), j)
                    + pad_at(other.coeffs(), j)) % m && 0 <= coefficients@[j].val() < m,
            decreases max_len - k,
        {
            let av = if k < la {
                self.coefficients[k].duplicate()
            } else {
                field.zero()
            };
            let bv = if k < lb {
                other.coefficients[k].duplicate()
            } else {
                field.zero()
            };
            proof {
                assert(av.val() == pad_at(self.coeffs(), k as int));
                assert(bv.val() == pad_at(other.coeffs(), k as int));
            }
            coefficients.push(field.add(&av, &bv));
            k += 1;
        }
        let res = Polynomial { coefficients };
        proof {
            assert forall|k2: int| 0 <= k2 < res.coeffs().len() implies #[trigger] res.coeffs()[k2]
                == tmod(pad_at(self.coeffs(), k2) + pad_at(other.coeffs(), k2), m) by {
                assert(res.coeffs()[k2] == res.coefficients@[k2].val());
            }
            if self.in_range_with(m) && other.in_range_with(m) {
                assert forall|k2: int| 0 <= k2 < res.coeffs().len() implies (
                #[trigger] res.coeffs()[k2] == (pad_at(self.coeffs(), k2) + pad_at(
                    other.coeffs(),
                    k2,
                )) % m && 0 <= res.coeffs()[k2] < m) by {
                    assert(0 <= pad_at(self.coeffs(), k2) < m && 0 <= pad_at(other.coeffs(), k2)
                        < m);
                    assert(res.coeffs()[k2] == res.coefficients@[k2].val());
                }
            }
        }
        res
    }

    /// Coefficient-wise difference: the sum with the other operand negated.
    pub fn sub(&self, other: &Polynomial) -> (res: Polynomial)
        requires
            self.wf(),
            other.wf(),
            self.compat(*other),
            self.poly_len() <= 0x7fff_ffff,
            other.poly_len() <= 0x7fff_ffff,
        ensures
            self.zero_spec() ==> res.poly_len() == other.poly_len() && (other.poly_len() > 0
                ==> res.modulus() == other.modulus()) && forall|k: int|
                0 <= k < other.coeffs().len() ==> #[trigger] res.coeffs()[k] == tmod(
                    other.modulus() - other.coeffs()[k],
                    other.modulus(),
                ),
            !self.zero_spec() && deg_of(
                neg_vals(other.coeffs(), other.modulus()),
                self.modulus(),
            ) == -1 ==> res.coeffs() == self.coeffs() && res.poly_len() == self.poly_len()
                && res.modulus() == self.modulus(),
            !self.zero_spec() && other.poly_len() > 0 && deg_of(
                neg_vals(other.coeffs(), other.modulus()),
                self.modulus(),
            ) >= 0 ==> res.poly_len() == vstd::math::max(
                self.poly_len() as int,
                other.poly_len() as int,
            ) && res.wf_with(self.modulus()) && res.modulus() == self.modulus() && forall|k: int|
                0 <= k < res.coeffs().len() ==> #[trigger] res.coeffs()[k] == tmod(
                    pad_at(self.coeffs(), k) + pad_at(
                        neg_vals(other.coeffs(), other.modulus()),
                        k,
                    ),
                    self.modulus(),
                ),
            !self.zero_spec() ==> res.wf_with(self.modulus()),
    {
        let negated = other.neg();
        proof {
            assert(negated.coeffs() =~= neg_vals(other.coeffs(), other.modulus()));
            if negated.poly_len() > 0 {
                assert(negated.modulus() == other.modulus());
            }
        }
        let res = self.add(&negated);
        proof {
            if !self.zero_spec() && negated.zero_spec() {
                if negated.poly_len() == 0 {
                    assert(deg_of(neg_vals(other.coeffs(), other.modulus()), self.modulus())
                        == -1);
                }
            }
        }
        res
    }
}

fn zero_coeffs(field: &crate::algebra::Field, n: usize) -> (r: Vec<FieldElement>)
    requires
        field.wf(),
    ensures
        r@.len() == n,
        forall|t: int| 0 <= t < n ==> (#[trigger] r@[t]).wf() && r@[t].modulus()
            == field.modulus() && r@[t].val() == 0,
{
    let mut r: Vec<FieldElement> = Vec::new();
    let mut i: usize = 0;
    while i < n
        invariant
            field.wf(),
            i <= n,
            r@.len() == i,
            forall|t: int| 0 <= t < i ==> (#[trigger] r@[t]).wf() && r@[t].modulus()
                == field.modulus() && r@[t].val() == 0,
        decreases n - i,
    {
        r.push(field.zero());
        i += 1;
    }
    r
}

/// The running contribution to the product coefficient of `x^k` from one
/// partly-processed row of the convolution.
pub open spec fn row_term(a: Seq<int>, b: Seq<int>, k: int, i: int, j: int) -> int {
    if 0 <= k - i < j {
        pad_at(a, i) * pad_at(b, k - i)
    } else {
        0
    }
}

impl Polynomial {
    /// The product: zero if either operand is the zero polynomial, otherwise
    /// the full convolution of the coefficient sequences.
    pub fn mul(&self, other: &Polynomial) -> (res: Polynomial)
        requires
            self.wf(),
            other.wf(),
            self.compat(*other),
            self.poly_len() <= 0x3fff_ffff,
            other.poly_len() <= 0x3fff_ffff,
        ensures
            self.zero_spec() || other.zero_spec() ==> res.poly_len() == 0,
            !self.zero_spec() && !other.zero_spec() ==> res.poly_len() == self.poly_len()
                + other.poly_len() - 1 && res.wf_with(self.modulus()) && res.modulus()
                == self.modulus() && forall|k: int| 0 <= k < res.coeffs().len()
                ==> #[trigger] res.coeffs()[k] % self.modulus() == conv_at(
                    self.coeffs(),
                    other.coeffs(),
                    k,
                ) % self.modulus(),
            !self.zero_spec() && !other.zero_spec() && self.in_range_with(self.modulus())
                && other.in_range_with(self.modulus()) ==> res.in_range_with(self.modulus())
                && forall|k: int| 0 <= k < res.coeffs().len() ==> #[trigger] res.coeffs()[k]
                == conv_at(self.coeffs(), other.coeffs(), k) % self.modulus(),
    {
        if self.is_zero() || other.is_zero() {
            return Polynomial { coefficients: Vec::new() };
        }
        let ghost m = self.modulus();
        let ghost aa = self.coeffs();
        let ghost bb = other.coeffs();
        let ghost inr = self.in_range_with(m) && other.in_range_with(m);
        let field = self.coefficients[0].field.duplicate();
        let la = self.coefficients.len();
        let lb = other.coefficients.len();
        let out_len: usize = la + lb - 1;
        let mut buf: Vec<FieldElement> = Vec::new();
        let mut z: usize = 0;
        while z < out_len
            invariant
                field.wf(),
                field.modulus() == m,
                z <= out_len,
                buf@.len() == z,
                forall|t: int| 0 <= t < z ==> (#[trigger] buf@[t]).wf() && buf@[t].modulus() == m
                    && buf@[t].val() == 0,
            decreases out_len - z,
        {
            buf.push(field.zero());
            z += 1;
        }
        let mut i: usize = 0;
        proof {
            lemma_small_mod(0 as nat, m as nat);
        }
        while i < la
            invariant
                self.wf(),
                other.wf(),
                self.poly_len() > 0,
                other.poly_len() > 0,
                m == self.modulus(),
                m == other.modulus(),
                aa == self.coeffs(),
                bb == other.coeffs(),
                inr == (self.in_range_with(m) && other.in_range_with(m)),
                field.wf(),
                field.modulus() == m,
                la == self.poly_len(),
                lb == other.poly_len(),
                la <= 0x3fff_ffff,
                lb <= 0x3fff_ffff,
                out_len == la + lb - 1,
                i <= la,
                buf@.len() == out_len,
                forall|t: int| 0 <= t < out_len ==> (#[trigger] buf@[t]).wf() && buf@[t].modulus()
                    == m && buf@[t].val() % m == conv_upto(aa, bb, t, i as int) % m,
                inr ==> forall|t: int| 0 <= t < out_len ==> 0 <= (#[trigger] buf@[t]).val() < m,
            decreases la - i,
        {
            let mut j: usize = 0;
            while j < lb
                invariant
                    self.wf(),
                    other.wf(),
                    self.poly_len() > 0,
                    other.poly_len() > 0,
                    m == self.modulus(),
                    m == other.modulus(),
                    aa == self.coeffs(),
                    bb == other.coeffs(),
                    inr == (self.in_range_with(m) && other.in_range_with(m)),
                    field.wf(),
                    field.modulus() == m,
                    la == self.poly_len(),
                    lb == other.poly_len(),
                    la <= 0x3fff_ffff,
                    lb <= 0x3fff_ffff,
                    out_len == la + lb - 1,
                    i < la,
                    j <= lb,
                    buf@.len() == out_len,
                    forall|t: int| 0 <= t < out_len ==> (#[trigger] buf@[t]).wf()
                        && buf@[t].modulus() == m && buf@[t].val() % m == (conv_upto(
                        aa,
                        bb,
                        t,
                        i as int,
                    ) + row_term(aa, bb, t, i as int, j as int)) % m,
                    inr ==> forall|t: int| 0 <= t < out_len ==> 0 <= (#[trigger] buf@[t]).val()
                        < m,
                decreases lb - j,
            {
                let idx = i + j;
                let prod = field.multiply(&self.coefficients[i], &other.coefficients[j]);
                let updated = field.add(&buf[idx], &prod);
                let ghost oldv = buf@[idx as int].val();
                buf[idx] = updated;
                proof {
                    let ab = aa[i as int] * bb[j as int];
                    lemma_tmod_congruent(oldv + prod.val(), m);
                    lemma_tmod_congruent(ab, m);
                    lemma_add_mod_noop(oldv, prod.val(), m);
                    lemma_add_mod_noop(oldv, ab, m);
                    let convpart = conv_upto(aa, bb, idx as int, i as int);
                    lemma_add_mod_noop(convpart, ab, m);
                    assert(row_term(aa, bb, idx as int, i as int, j as int) == 0);
                    assert(buf@[idx as int].val() % m == (convpart + ab) % m);
                    assert(row_term(aa, bb, idx as int, i as int, j as int + 1) == ab);
                    assert forall|t: int| 0 <= t < out_len && t != idx implies row_term(
                        aa,
                        bb,
                        t,
                        i as int,
                        j as int + 1,
                    ) == row_term(aa, bb, t, i as int, j as int) by {}
                    if inr {
                        assert(0 <= aa[i as int] < m && 0 <= bb[j as int] < m);
                    }
                }
                j += 1;
            }
            proof {
                assert forall|t: int| 0 <= t < out_len implies (conv_upto(aa, bb, t, i as int)
                    + row_term(aa, bb, t, i as int, lb as int)) % m == conv_upto(
                    aa,
                    bb,
                    t,
                    i as int + 1,
                ) % m by {
                    assert(conv_upto(aa, bb, t, i as int + 1) == conv_upto(aa, bb, t, i as int)
                        + pad_at(aa, i as int) * pad_at(bb, t - i));
                    if !(0 <= t - i < lb) {
                        assert(pad_at(bb, t - i) == 0);
                        assert(pad_at(aa, i as int) * 0 == 0) by (nonlinear_arith);
                    }
                }
            }
            i += 1;
        }
        let res = Polynomial { coefficients: buf };
        proof {
            assert forall|k: int| 0 <= k < res.coeffs().len() implies #[trigger] res.coeffs()[k]
                % m == conv_at(aa, bb, k) % m by {
                assert(res.coeffs()[k] == res.coefficients@[k].val());
            }
            if inr {
                assert forall|k: int| 0 <= k < res.coeffs().len() implies (
                #[trigger] res.coeffs()[k] == conv_at(aa, bb, k) % m && 0 <= res.coeffs()[k]
                    < m) by {
                    assert(res.coeffs()[k] == res.coefficients@[k].val());
                    lemma_small_mod(res.coefficients@[k].val() as nat, m as nat);
                }
            }
        }
        res
    }

    /// The polynomial multiplied by `x^shift`: the coefficients preceded by
    /// `shift` field zeros.
    pub fn shift(&self, shift: usize) -> (res: Polynomial)
        requires
            self.wf(),
            self.poly_len() > 0,
            self.poly_len() + shift <= 0xffff_ffff,
        ensures
            res.poly_len() == self.poly_len() + shift,
            res.wf_with(self.modulus()),
            res.modulus() == self.modulus(),
            forall|k: int| 0 <= k < shift ==> #[trigger] res.coeffs()[k] == 0,
            forall|k: int| shift <= k < res.coeffs().len() ==> #[trigger] res.coeffs()[k]
                == self.coeffs()[k - shift],
    {
        let field = self.coefficients[0].field.duplicate();
        let mut coefficients: Vec<FieldElement> = Vec::new();
        let mut i: usize = 0;
        while i < shift
            invariant
                field.wf(),
                field.modulus() == self.modulus(),
                i <= shift,
                coefficients@.len() == i,
                forall|t: int| 0 <= t < i ==> (#[trigger] coefficients@[t]).wf()
                    && coefficients@[t].modulus() == self.modulus() && coefficients@[t].val()
                    == 0,
            decreases shift - i,
        {
            coefficients.push(field.zero());
            i += 1;
        }
        let mut j: usize = 0;
        while j < self.coefficients.len()
            invariant
                self.wf(),
                self.poly_len() > 0,
                j <= self.poly_len(),
                coefficients@.len() == shift + j,
                forall|t: int| 0 <= t < shift ==> (#[trigger] coefficients@[t]).wf()
                    && coefficients@[t].modulus() == self.modulus() && coefficients@[t].val()
                    == 0,
                forall|t: int| shift <= t < shift + j ==> (#[trigger] coefficients@[t]).wf()
                    && coefficients@[t].modulus() == self.modulus() && coefficients@[t].val()
                    == self.coeffs()[t - shift],
            decreases self.poly_len() - j,
        {
            coefficients.push(self.coefficients[j].duplicate());
            j += 1;
        }
        let res = Polynomial { coefficients };
        proof {
            assert forall|k: int| 0 <= k < res.coeffs().len() implies res.coeffs()[k]
                == res.coefficients@[k].val() by {}
        }
        res
    }

    /// The polynomial with each coefficient of `x^i` multiplied by
    /// `factor^i`: a multiplicative change of evaluation domain.
    pub fn scale(&self, factor: &FieldElement) -> (res: Polynomial)
        requires
            self.wf(),
            factor.wf(),
            factor.val() >= 0,
            self.poly_len() > 0 ==> factor.modulus() == self.modulus(),
            self.poly_len() <= 0xffff_ffff,
        ensures
            res.poly_len() == self.poly_len(),
            self.poly_len() > 0 ==> res.wf_with(self.modulus()) && res.modulus()
                == self.modulus(),
            forall|k: int| 0 <= k < self.coeffs().len() ==> #[trigger] res.coeffs()[k] == tmod(
                (pow(factor.val(), k as nat) % self.modulus()) * self.coeffs()[k],
                self.modulus(),
            ),
            self.in_range_with(self.modulus()) ==> res.in_range_with(self.modulus()) && forall|
                k: int,
            |
                0 <= k < self.coeffs().len() ==> #[trigger] res.coeffs()[k] == (pow(
                    factor.val(),
                    k as nat,
                ) * self.coeffs()[k]) % self.modulus(),
    {
        let mut coefficients: Vec<FieldElement> = Vec::new();
        let mut k: usize = 0;
        let ghost m = self.modulus();
        while k < self.coefficients.len()
            invariant
                self.wf(),
                factor.wf(),
                factor.val() >= 0,
                m == self.modulus(),
                self.poly_len() > 0 ==> factor.modulus() == m,
                self.poly_len() <= 0xffff_ffff,
                k <= self.poly_len(),
                coefficients@.len() == k,
                forall|t: int| 0 <= t < k ==> (#[trigger] coefficients@[t]).wf()
                    && coefficients@[t].modulus() == m && coefficients@[t].val() == tmod(
                    (pow(factor.val(), t as nat) % m) * self.coeffs()[t],
                    m,
                ),
                forall|t: int| 0 <= t < k && 0 <= self.coeffs()[t] < m ==> (
                #[trigger] coefficients@[t]).val() == (pow(factor.val(), t as nat)
                    * self.coeffs()[t]) % m && 0 <= coefficients@[t].val() < m,
            decreases self.poly_len() - k,
        {
            let e = Big::from_u64(k as u64);
            let p = factor.pow(&e);
            let scaled = self.coefficients[0].field.multiply(&p, &self.coefficients[k]);
            proof {
                if 0 <= self.coeffs()[k as int] < m {
                    lemma_mul_mod_noop_left(pow(factor.val(), k as nat), self.coeffs()[k as int], m);
                }
            }
            coefficients.push(scaled);
            k += 1;
        }
        let res = Polynomial { coefficients };
        proof {
            assert forall|k2: int| 0 <= k2 < res.coeffs().len() implies res.coeffs()[k2]
                == res.coefficients@[k2].val() by {}
            if self.in_range_with(m) {
                assert forall|k2: int| 0 <= k2 < res.coeffs().len() implies 0
                    <= #[trigger] res.coeffs()[k2] < m by {
                    assert(0 <= self.coeffs()[k2] < m);
                }
            }
        }
        res
    }
}

pub proof fn lemma_conv_zero_left(a: Seq<int>, b: Seq<int>, k: int, i: int)
    requires
        forall|t: int| 0 <= t < a.len() ==> a[t] == 0,
    ensures
        conv_upto(a, b, k, i) == 0,
    decreases i,
{
    if i > 0 {
        lemma_conv_zero_left(a, b, k, i - 1);
        assert(pad_at(a, i - 1) == 0);
    }
}

/// Changing one coefficient of the left factor shifts every product
/// coefficient by the change times the matching right coefficient.
pub proof fn lemma_conv_update(a: Seq<int>, b: Seq<int>, k: int, i: int, pos: int, v: int)
    requires
        0 <= pos < a.len(),
    ensures
        conv_upto(a.update(pos, v), b, k, i) == conv_upto(a, b, k, i) + (if pos < i {
            (v - a[pos]) * pad_at(b, k - pos)
        } else {
            0
        }),
    decreases i,
{
    if i > 0 {
        lemma_conv_update(a, b, k, i - 1, pos, v);
        if pos == i - 1 {
            assert(pad_at(a.update(pos, v), i - 1) == v);
            assert(v * pad_at(b, k - pos) - a[pos] * pad_at(b, k - pos) == (v - a[pos]) * pad_at(
                b,
                k - pos,
            )) by (nonlinear_arith);
        } else {
            assert(pad_at(a.update(pos, v), i - 1) == pad_at(a, i - 1));
        }
    }
}

impl Polynomial {
    /// Schoolbook long division. `None` exactly when the denominator is the
    /// zero polynomial; otherwise `Some((quotient, remainder))` with
    /// `quotient * denominator + remainder == numerator` coefficient-wise
    /// modulo the field, and the remainder of degree below the denominator's.
    ///
    /// The preconditions name what the algorithm already depends on: a prime
    /// modulus makes every non-zero leading coefficient invertible, which is
    /// what drives the remainder's degree down and so makes the loop
    /// terminate; a denominator carrying coefficients above its degree would
    /// be subtracted outside the remainder's bounds; and reduced coefficient
    /// values are what every operation of this library produces.
    #[verifier::rlimit(100)]
    pub fn divide(numerator: &Polynomial, denominator: &Polynomial) -> (res: Option<
        (Polynomial, Polynomial),
    >)
        requires
            numerator.wf(),
            denominator.wf(),
            numerator.compat(*denominator),
            numerator.poly_len() <= 0x3fff_ffff,
            denominator.poly_len() <= 0x3fff_ffff,
            numerator.poly_len() > 0 ==> numerator.in_range_with(numerator.modulus()),
            denominator.poly_len() > 0 ==> denominator.in_range_with(denominator.modulus()),
            !denominator.zero_spec() ==> is_prime(denominator.modulus()),
            denominator.zero_spec() || denominator.deg() == denominator.poly_len() - 1,
        ensures
            res is None <==> denominator.zero_spec(),
            res matches Some((quo, rem)) ==> quo.wf_with(denominator.modulus())
                && rem.in_range_with(denominator.modulus()) && rem.poly_len()
                <= numerator.poly_len() && (rem.poly_len() == 0 || deg_of(
                rem.coeffs(),
                denominator.modulus(),
            ) < denominator.deg()) && (forall|k: int| 0 <= k ==> (conv_at(
                quo.coeffs(),
                denominator.coeffs(),
                k,
            ) + pad_at(rem.coeffs(), k)) % denominator.modulus() == #[trigger] pad_at(
                numerator.coeffs(),
                k,
            ) % denominator.modulus()),
            res matches Some((quo, rem)) ==> quo.poly_len() == (if numerator.poly_len() > 0
                && numerator.deg() >= denominator.deg() {
                numerator.deg() - denominator.deg() + 1
            } else {
                0
            }),
            res matches Some((quo, rem)) ==> ((numerator.poly_len() == 0 || numerator.deg()
                < denominator.deg()) ==> rem.coeffs() == numerator.coeffs() && rem.poly_len()
                == numerator.poly_len()),
    {
        if denominator.is_zero() {
            return None;
        }
        let dd = denominator.degree();
        let dn = numerator.degree();
        let ghost m = denominator.modulus();
        let ghost nc = numerator.coeffs();
        let ghost dc = denominator.coeffs();
        if numerator.coefficients.len() == 0 || dn < dd {
            let quo = Polynomial { coefficients: Vec::new() };
            let rem = numerator.duplicate();
            proof {
                assert forall|k: int| 0 <= k implies (conv_at(quo.coeffs(), dc, k) + pad_at(
                    rem.coeffs(),
                    k,
                )) % m == #[trigger] pad_at(nc, k) % m by {
                    lemma_conv_zero_left(quo.coeffs(), dc, k, quo.coeffs().len() as int);
                    assert(pad_at(rem.coeffs(), k) == pad_at(nc, k));
                }
                lemma_deg_of_props(nc, m);
            }
            return Some((quo, rem));
        }
        let field = denominator.coefficients[0].field.duplicate();
        proof {
            lemma_deg_of_props(nc, m);
            lemma_deg_of_props(dc, m);
            assert(dd <= dn < numerator.poly_len());
        }
        let rem_poly = numerator.duplicate();
        let mut rem_coeffs: Vec<FieldElement> = rem_poly.coefficients;
        proof {
            assert(rem_coeffs@.map(|i: int, e: FieldElement| e.val()) == rem_poly.coeffs());
            assert forall|t: int| 0 <= t < rem_coeffs@.len() implies (#[trigger] rem_coeffs@[t]).wf()
                && rem_coeffs@[t].modulus() == m && 0 <= rem_coeffs@[t].val() < m by {
                assert(rem_poly.coeffs()[t] == rem_coeffs@[t].val());
                assert(0 <= rem_poly.coeffs()[t] < m);
            }
        }
        let qlen: usize = (dn - dd + 1) as usize;
        let mut quotient: Vec<FieldElement> = Vec::new();
        let mut z: usize = 0;
        while z < qlen
            invariant
                field.wf(),
                field.modulus() == m,
                z <= qlen,
                quotient@.len() == z,
                forall|t: int| 0 <= t < z ==> (#[trigger] quotient@[t]).wf()
                    && quotient@[t].modulus() == m && quotient@[t].val() == 0,
            decreases qlen - z,
        {
            quotient.push(field.zero());
            z += 1;
        }
        let lead_d = denominator.leading_coefficient();
        let ghost ld = denominator.poly_len() as int;
        proof {
            lemma_small_mod(0 as nat, m as nat);
            assert forall|k: int| 0 <= k implies (conv_at(quotient@.map(
                |i: int, e: FieldElement| e.val(),
            ), dc, k) + pad_at(rem_coeffs@.map(|i: int, e: FieldElement| e.val()), k)) % m
                == #[trigger] pad_at(nc, k) % m by {
                let qc = quotient@.map(|i: int, e: FieldElement| e.val());
                lemma_conv_zero_left(qc, dc, k, qc.len() as int);
            }
        }
        loop
            invariant_except_break
                denominator.wf(),
                denominator.poly_len() > 0,
                denominator.in_range_with(m),
                m == denominator.modulus(),
                is_prime(m),
                dc == denominator.coeffs(),
                ld == denominator.poly_len(),
                0 <= dd,
                dd == ld - 1,
                dc[dd as int] % m != 0,
                field.wf(),
                field.modulus() == m,
                lead_d.wf(),
                lead_d.modulus() == m,
                lead_d.val() == dc[dd as int],
                0 <= lead_d.val() < m,
                rem_coeffs@.len() <= numerator.poly_len(),
                numerator.poly_len() <= 0x3fff_ffff,
                dd <= dn < numerator.poly_len(),
                qlen == dn - dd + 1,
                deg_of(rem_coeffs@.map(|i: int, e: FieldElement| e.val()), m) <= dn,
                forall|t: int| 0 <= t <= deg_of(rem_coeffs@.map(|i: int, e: FieldElement| e.val()), m) - dd
                    ==> (#[trigger] quotient@[t]).val() == 0,
                forall|t: int| 0 <= t < rem_coeffs@.len() ==> (#[trigger] rem_coeffs@[t]).wf()
                    && rem_coeffs@[t].modulus() == m && 0 <= rem_coeffs@[t].val() < m,
                quotient@.len() == qlen,
                forall|t: int| 0 <= t < qlen ==> (#[trigger] quotient@[t]).wf()
                    && quotient@[t].modulus() == m && -m < quotient@[t].val() < m,
                forall|k: int| 0 <= k ==> (conv_at(
                    quotient@.map(|i: int, e: FieldElement| e.val()),
                    dc,
                    k,
                ) + pad_at(rem_coeffs@.map(|i: int, e: FieldElement| e.val()), k)) % m
                    == #[trigger] pad_at(nc, k) % m,
            ensures
                rem_coeffs@.len() <= numerator.poly_len(),
                forall|t: int| 0 <= t < rem_coeffs@.len() ==> (#[trigger] rem_coeffs@[t]).wf()
                    && rem_coeffs@[t].modulus() == m && 0 <= rem_coeffs@[t].val() < m,
                rem_coeffs@.len() == 0 || deg_of(
                    rem_coeffs@.map(|i: int, e: FieldElement| e.val()),
                    m,
                ) < dd,
                quotient@.len() == qlen,
                forall|t: int| 0 <= t < qlen ==> (#[trigger] quotient@[t]).wf()
                    && quotient@[t].modulus() == m && -m < quotient@[t].val() < m,
                forall|k: int| 0 <= k ==> (conv_at(
                    quotient@.map(|i: int, e: FieldElement| e.val()),
                    dc,
                    k,
                ) + pad_at(rem_coeffs@.map(|i: int, e: FieldElement| e.val()), k)) % m
                    == #[trigger] pad_at(nc, k) % m,
            decreases (deg_of(rem_coeffs@.map(|i: int, e: FieldElement| e.val()), m) + 1) as nat,
        {
            let remainder = Polynomial { coefficients: rem_coeffs };
            let dr = remainder.degree();
            proof {
                assert(remainder.coeffs() == rem_coeffs@.map(|i: int, e: FieldElement| e.val()));
            }
            if dr < dd {
                rem_coeffs = remainder.coefficients;
                break;
            }
            let ghost rc0 = remainder.coeffs();
            let ghost dr0 = deg_of(rc0, m);
            let lead_r = remainder.leading_coefficient();
            let coefficient = field.divide(&lead_r, &lead_d);
            let shift: usize = (dr - dd) as usize;
            let ghost qc0 = quotient@.map(|i: int, e: FieldElement| e.val());
            let ghost cv = coefficient.val();
            proof {
                lemma_deg_of_props(rc0, m);
            }
            proof {
                assert(dr0 <= dn);
                assert(shift < qlen);
            }
            rem_coeffs = remainder.coefficients;
            quotient[shift] = coefficient.duplicate();
            proof {
                let qc1 = quotient@.map(|i: int, e: FieldElement| e.val());
                assert(qc1 =~= qc0.update(shift as int, cv));
                assert forall|k: int| 0 <= k implies (conv_at(qc1, dc, k) + pad_at(rc0, k)) % m
                    == (#[trigger] pad_at(nc, k) + (if k - shift >= 0 {
                    cv * pad_at(dc, k - shift)
                } else {
                    0
                })) % m by {
                    lemma_conv_update(qc0, dc, k, qc0.len() as int, shift as int, cv);
                    assert(qc0[shift as int] == 0);
                    let delta = cv * pad_at(dc, k - shift);
                    if k - shift >= 0 {
                        lemma_add_mod_noop(conv_at(qc0, dc, k) + pad_at(rc0, k), delta, m);
                        lemma_add_mod_noop(pad_at(nc, k), delta, m);
                    } else {
                        assert(pad_at(dc, k - shift) == 0);
                        assert(cv * 0 == 0) by (nonlinear_arith);
                    }
                }
            }
            let mut i: usize = 0;
            while i < denominator.coefficients.len()
                invariant
                    denominator.wf(),
                    denominator.poly_len() > 0,
                    denominator.in_range_with(m),
                    m == denominator.modulus(),
                    is_prime(m),
                    dc == denominator.coeffs(),
                    ld == denominator.poly_len(),
                    0 <= dd,
                    dd == ld - 1,
                    field.wf(),
                    field.modulus() == m,
                    i <= ld,
                    shift + dd == dr0,
                    dr0 < rem_coeffs@.len(),
                    rem_coeffs@.len() == rc0.len(),
                    rem_coeffs@.len() <= numerator.poly_len(),
                    rem_coeffs@.len() <= 0x3fff_ffff,
                    forall|t: int| 0 <= t < rem_coeffs@.len() ==> (#[trigger] rem_coeffs@[t]).wf() && rem_coeffs@[t].modulus() == m && 0 <= rem_coeffs@[t].val() < m,
                    -m < cv < m,
                    coefficient.wf(),
                    coefficient.modulus() == m,
                    coefficient.val() == cv,
                    (cv * dc[dd as int]) % m == rc0[dr0] % m,
                    forall|k: int| shift <= k < shift + i ==> (#[trigger] rem_coeffs@[k]).val()
                        % m == (rc0[k] - cv * dc[k - shift]) % m,
                    forall|k: int| 0 <= k < rc0.len() && !(shift <= k < shift + i) ==> (
                    #[trigger] rem_coeffs@[k]).val() == rc0[k],
                    forall|k: int| 0 <= k ==> (conv_at(
                        quotient@.map(|i2: int, e: FieldElement| e.val()),
                        dc,
                        k,
                    ) + pad_at(rem_coeffs@.map(|i2: int, e: FieldElement| e.val()), k)) % m == (
                    #[trigger] pad_at(nc, k) + (if k - shift >= i {
                        cv * pad_at(dc, k - shift)
                    } else {
                        0
                    })) % m,
                    quotient@.len() == qlen,
                    forall|t: int| 0 <= t < qlen ==> (#[trigger] quotient@[t]).wf()
                        && quotient@[t].modulus() == m && -m < quotient@[t].val() < m,
                decreases ld - i,
            {
                let idx = shift + i;
                let ghost rc_pre = rem_coeffs@.map(|i2: int, e: FieldElement| e.val());
                let subtrahend = field.multiply(&coefficient, &denominator.coefficients[i]);
                let updated = field.subtract(&rem_coeffs[idx], &subtrahend);
                proof {
                    assert(0 <= dc[i as int] < m);
                    assert(subtrahend.val() == tmod(cv * dc[i as int], m));
                    lemma_tdiv_tmod(cv * dc[i as int], m);
                    assert(subtrahend.val() < m);
                }
                rem_coeffs[idx] = updated;
                proof {
                    let rc1 = rem_coeffs@.map(|i2: int, e: FieldElement| e.val());
                    assert(rc1 =~= rc_pre.update(idx as int, updated.val()));
                    let a_old = rc_pre[idx as int];
                    let bsub = cv * dc[i as int];
                    // the updated slot is congruent to the old value minus
                    // the subtracted product
                    lemma_tmod_congruent(m + a_old - subtrahend.val(), m);
                    lemma_mod_add_multiples_vanish(a_old - subtrahend.val(), m);
                    lemma_tmod_congruent(bsub, m);
                    lemma_sub_mod_noop(a_old, subtrahend.val(), m);
                    lemma_sub_mod_noop(a_old, bsub, m);
                    assert(updated.val() % m == (a_old - bsub) % m);
                    assert(rem_coeffs@[idx as int].val() % m == (rc0[idx as int] - cv * dc[idx - shift]) % m);
                    let qc1 = quotient@.map(|i2: int, e: FieldElement| e.val());
                    assert forall|k: int| 0 <= k implies (conv_at(qc1, dc, k) + pad_at(rc1, k))
                        % m == (#[trigger] pad_at(nc, k) + (if k - shift >= i + 1 {
                        cv * pad_at(dc, k - shift)
                    } else {
                        0
                    })) % m by {
                        if k == idx {
                            let conv = conv_at(qc1, dc, k);
                            lemma_add_mod_noop(conv, pad_at(rc1, k), m);
                            lemma_add_mod_noop(conv, a_old - bsub, m);
                            assert((conv + pad_at(rc1, k)) % m == (conv + (a_old - bsub)) % m);
                            assert((conv + (a_old - bsub)) == (conv + a_old) - bsub);
                            lemma_sub_mod_noop(conv + a_old, bsub, m);
                            assert((conv + a_old) % m == (pad_at(nc, k) + cv * pad_at(
                                dc,
                                k - shift,
                            )) % m);
                            assert(pad_at(dc, k - shift) == dc[i as int]);
                            lemma_sub_mod_noop(pad_at(nc, k) + cv * pad_at(dc, k - shift), bsub, m);
                            assert((pad_at(nc, k) + cv * dc[i as int]) - bsub == pad_at(nc, k));
                        } else {
                            assert(pad_at(rc1, k) == pad_at(rc_pre, k));
                        }
                    }
                }
                i += 1;
            }
            proof {
                // past the final row the compensation term is gone
                assert forall|k: int| 0 <= k implies (conv_at(
                    quotient@.map(|i2: int, e: FieldElement| e.val()),
                    dc,
                    k,
                ) + pad_at(rem_coeffs@.map(|i2: int, e: FieldElement| e.val()), k)) % m
                    == #[trigger] pad_at(nc, k) % m by {
                    if k - shift >= ld {
                        assert(pad_at(dc, k - shift) == 0);
                        assert(cv * 0 == 0) by (nonlinear_arith);
                    }
                }
                let rc2 = rem_coeffs@.map(|i2: int, e: FieldElement| e.val());
                // the leading slot cancels exactly
                assert(rc2[dr0] % m == (rc0[dr0] - cv * dc[dd as int]) % m);
                lemma_sub_mod_noop(rc0[dr0], cv * dc[dd as int], m);
                lemma_mod_twice(rc0[dr0], m);
                lemma_small_mod(0 as nat, m as nat);
                assert((rc0[dr0] % m - (cv * dc[dd as int]) % m) % m == (rc0[dr0] % m - rc0[dr0]
                    % m) % m);
                assert(rc2[dr0] % m == 0);
                assert forall|k: int| dr0 <= k < rc2.len() implies #[trigger] (rc2[k] % m)
                    == 0 by {
                    if k > dr0 {
                        lemma_deg_of_props(rc0, m);
                        assert(rc0[k] % m == 0);
                        if shift <= k < shift + ld {
                            assert(rc2[k] % m == (rc0[k] - cv * dc[k - shift]) % m);
                            assert(k - shift > dd);
                        } else {
                            assert(rc2[k] == rc0[k]);
                        }
                    }
                }
                lemma_deg_of_prefix(rc2, m, dr0);
                lemma_deg_of_props(rc2.subrange(0, dr0), m);
                assert(deg_of(rc2, m) < dr0);
            }
            // drop raw-zero high coefficients from the remainder
            loop
                invariant_except_break
                    m >= 2,
                    rem_coeffs@.len() <= numerator.poly_len(),
                    forall|t: int| 0 <= t < rem_coeffs@.len() ==> (#[trigger] rem_coeffs@[t]).wf() && rem_coeffs@[t].modulus() == m && 0 <= rem_coeffs@[t].val() < m,
                    deg_of(rem_coeffs@.map(|i2: int, e: FieldElement| e.val()), m) < dr0,
                    forall|k: int| 0 <= k ==> (conv_at(
                        quotient@.map(|i2: int, e: FieldElement| e.val()),
                        dc,
                        k,
                    ) + pad_at(rem_coeffs@.map(|i2: int, e: FieldElement| e.val()), k)) % m
                        == #[trigger] pad_at(nc, k) % m,
                ensures
                    rem_coeffs@.len() <= numerator.poly_len(),
                    forall|t: int| 0 <= t < rem_coeffs@.len() ==> (#[trigger] rem_coeffs@[t]).wf() && rem_coeffs@[t].modulus() == m && 0 <= rem_coeffs@[t].val() < m,
                    deg_of(rem_coeffs@.map(|i2: int, e: FieldElement| e.val()), m) < dr0,
                    forall|k: int| 0 <= k ==> (conv_at(
                        quotient@.map(|i2: int, e: FieldElement| e.val()),
                        dc,
                        k,
                    ) + pad_at(rem_coeffs@.map(|i2: int, e: FieldElement| e.val()), k)) % m
                        == #[trigger] pad_at(nc, k) % m,
                decreases rem_coeffs@.len(),
            {
                if rem_coeffs.len() == 0 {
                    break;
                }
                let last = rem_coeffs.len() - 1;
                if !rem_coeffs[last].is_zero() {
                    break;
                }
                let ghost rc_pre = rem_coeffs@.map(|i2: int, e: FieldElement| e.val());
                proof {
                    assert(rc_pre.last() == rem_coeffs@[rem_coeffs@.len() - 1].val());
                    assert(rc_pre.last() == 0);
                    lemma_small_mod(0 as nat, m as nat);
                }
                rem_coeffs.pop();
                proof {
                    let rc1 = rem_coeffs@.map(|i2: int, e: FieldElement| e.val());
                    assert(rc1 =~= rc_pre.drop_last());
                    assert(rc_pre.last() % m == 0);
                    assert(deg_of(rc_pre, m) == deg_of(rc1, m));
                    assert forall|k: int| 0 <= k implies pad_at(rc1, k) == pad_at(rc_pre, k) by {
                        if 0 <= k < rc1.len() {
                        }
                    }
                }
            }
            proof {
                lemma_deg_of_props(rem_coeffs@.map(|i2: int, e: FieldElement| e.val()), m);
            }
        }
        let quo = Polynomial { coefficients: quotient };
        let rem = Polynomial { coefficients: rem_coeffs };
        proof {
            assert(quo.coeffs() =~= quo.coefficients@.map(|i2: int, e: FieldElement| e.val()));
            assert(rem.coeffs() =~= rem.coefficients@.map(|i2: int, e: FieldElement| e.val()));
            if rem.poly_len() > 0 {
                lemma_deg_of_props(rem.coeffs(), m);
            }
        }
        Some((quo, rem))
    }
}

/// Appending a coefficient adds its term to the value.
pub proof fn lemma_eval_push(c: Seq<int>, v: int, x: int)
    ensures
        eval_at(c.push(v), x) == eval_at(c, x) + v * pow(x, c.len()),
    decreases c.len(),
{
    reveal(pow);
    if c.len() == 0 {
        assert(c.push(v)[0] == v);
        assert(c.push(v).subrange(1, 1) =~= Seq::<int>::empty());
        assert(eval_at(Seq::<int>::empty(), x) == 0);
        assert(eval_at(c.push(v), x) == v + x * eval_at(c.push(v).subrange(1, 1), x));
        assert(v + x * 0 == v);
        assert(pow(x, 0) == 1);
        assert(v * 1 == v) by (nonlinear_arith);
    } else {
        let t = c.subrange(1, c.len() as int);
        assert(c.push(v).subrange(1, c.len() as int + 1) =~= t.push(v));
        lemma_eval_push(t, v, x);
        assert(x * (eval_at(t, x) + v * pow(x, t.len())) == x * eval_at(t, x) + v * (x * pow(
            x,
            t.len(),
        ))) by (nonlinear_arith);
        assert(pow(x, c.len()) == x * pow(x, (c.len() - 1) as nat));
    }
}

/// Coefficient-wise congruent sequences evaluate to congruent values.
pub proof fn lemma_eval_cong(c: Seq<int>, c2: Seq<int>, x: int, m: int)
    requires
        m >= 1,
        c.len() == c2.len(),
        forall|i: int| 0 <= i < c.len() ==> #[trigger] (c[i] % m) == c2[i] % m,
    ensures
        eval_at(c, x) % m == eval_at(c2, x) % m,
    decreases c.len(),
{
    if c.len() > 0 {
        let t = c.subrange(1, c.len() as int);
        let t2 = c2.subrange(1, c2.len() as int);
        assert forall|i: int| 0 <= i < t.len() implies #[trigger] (t[i] % m) == t2[i] % m by {
            assert(t[i] == c[i + 1] && t2[i] == c2[i + 1]);
            assert(c[i + 1] % m == c2[i + 1] % m);
        }
        lemma_eval_cong(t, t2, x, m);
        lemma_cong_mul(x, x, eval_at(t, x), eval_at(t2, x), m);
        lemma_add_mod_noop(c[0], x * eval_at(t, x), m);
        lemma_add_mod_noop(c2[0], x * eval_at(t2, x), m);
        assert(c[0] % m == c2[0] % m);
    }
}

/// The exact coefficient sequence of a product with a linear factor
/// `b0 + b1 x`.
pub open spec fn lin_vals(a: Seq<int>, b0: int, b1: int) -> Seq<int> {
    Seq::new(a.len() + 1, |k: int| pad_at(a, k) * b0 + pad_at(a, k - 1) * b1)
}

proof fn lemma_conv_upto_linear(a: Seq<int>, b: Seq<int>, k: int, i: int)
    requires
        b.len() == 2,
        0 <= i <= a.len(),
    ensures
        conv_upto(a, b, k, i) == (if 0 <= k < i {
            a[k] * b[0]
        } else {
            0
        }) + (if 0 <= k - 1 < i {
            a[k - 1] * b[1]
        } else {
            0
        }),
    decreases i,
{
    if i > 0 {
        lemma_conv_upto_linear(a, b, k, i - 1);
        let term = pad_at(a, i - 1) * pad_at(b, k - (i - 1));
        if k - (i - 1) == 0 {
            assert(term == a[k] * b[0]);
        } else if k - (i - 1) == 1 {
            assert(term == a[k - 1] * b[1]);
        } else {
            assert(pad_at(b, k - (i - 1)) == 0);
            assert(pad_at(a, i - 1) * 0 == 0) by (nonlinear_arith);
        }
    }
}

/// A product coefficient against a two-term factor collapses to two terms.
pub proof fn lemma_conv_linear(a: Seq<int>, b: Seq<int>, k: int)
    requires
        b.len() == 2,
    ensures
        conv_at(a, b, k) == pad_at(a, k) * b[0] + pad_at(a, k - 1) * b[1],
{
    lemma_conv_upto_linear(a, b, k, a.len() as int);
    assert(conv_at(a, b, k) == conv_upto(a, b, k, a.len() as int));
    if !(0 <= k < a.len()) {
        assert(pad_at(a, k) * b[0] == 0) by (nonlinear_arith)
            requires
                pad_at(a, k) == 0;
    }
    if !(0 <= k - 1 < a.len()) {
        assert(pad_at(a, k - 1) * b[1] == 0) by (nonlinear_arith)
            requires
                pad_at(a, k - 1) == 0;
    }
}

/// Evaluating the product with a linear factor multiplies the values.
pub proof fn lemma_eval_lin_exact(a: Seq<int>, b0: int, b1: int, x: int)
    ensures
        eval_at(lin_vals(a, b0, b1), x) == eval_at(a, x) * (b0 + b1 * x),
    decreases a.len(),
{
    let lv = lin_vals(a, b0, b1);
    if a.len() == 0 {
        assert(lv[0] == 0 * b0 + 0 * b1);
        assert(0 * b0 + 0 * b1 == 0) by (nonlinear_arith);
        assert(lv.subrange(1, 1) =~= Seq::<int>::empty());
        assert(eval_at(Seq::<int>::empty(), x) == 0);
        assert(eval_at(lv, x) == lv[0] + x * eval_at(lv.subrange(1, 1), x));
        assert(eval_at(lv, x) == 0);
        assert(0 * (b0 + b1 * x) == 0) by (nonlinear_arith);
    } else {
        let t = a.subrange(1, a.len() as int);
        let lt = lin_vals(t, b0, b1);
        lemma_eval_lin_exact(t, b0, b1, x);
        let bumped = lt.update(0, lt[0] + a[0] * b1);
        assert(lv.subrange(1, lv.len() as int) =~= bumped) by {
            assert forall|k: int| 0 <= k < lv.len() - 1 implies lv.subrange(1, lv.len() as int)[k]
                == bumped[k] by {
                assert(lv.subrange(1, lv.len() as int)[k] == lv[k + 1]);
                if k == 0 {
                    assert(lv[1] == pad_at(a, 1) * b0 + a[0] * b1);
                    assert(lt[0] == pad_at(t, 0) * b0 + pad_at(t, -1) * b1);
                    assert(pad_at(t, -1) * b1 == 0) by (nonlinear_arith)
                        requires
                            pad_at(t, -1) == 0;
                    assert(pad_at(t, 0) == pad_at(a, 1));
                } else {
                    assert(lv[k + 1] == pad_at(a, k + 1) * b0 + pad_at(a, k) * b1);
                    assert(lt[k] == pad_at(t, k) * b0 + pad_at(t, k - 1) * b1);
                    assert(pad_at(t, k) == pad_at(a, k + 1));
                    assert(pad_at(t, k - 1) == pad_at(a, k));
                }
            }
        }
        // the head of the bumped tail absorbs the cross term
        assert(bumped.subrange(1, bumped.len() as int) =~= lt.subrange(1, lt.len() as int));
        assert(eval_at(bumped, x) == bumped[0] + x * eval_at(
            bumped.subrange(1, bumped.len() as int),
            x,
        ));
        assert(eval_at(lt, x) == lt[0] + x * eval_at(lt.subrange(1, lt.len() as int), x));
        assert(eval_at(bumped, x) == eval_at(lt, x) + a[0] * b1);
        assert(lv[0] == pad_at(a, 0) * b0 + pad_at(a, -1) * b1);
        assert(pad_at(a, -1) * b1 == 0) by (nonlinear_arith)
            requires
                pad_at(a, -1) == 0;
        assert(eval_at(lv, x) == a[0] * b0 + x * (eval_at(t, x) * (b0 + b1 * x) + a[0] * b1));
        assert(a[0] * b0 + x * (eval_at(t, x) * (b0 + b1 * x) + a[0] * b1) == (a[0] + x * eval_at(
            t,
            x,
        )) * (b0 + b1 * x)) by (nonlinear_arith);
    }
}

impl Polynomial {
    /// The value at a point: coefficients combined from lowest to highest
    /// degree with an accumulated power of the point.
    pub fn evaluate(&self, point: &FieldElement) -> (res: FieldElement)
        requires
            self.wf(),
            point.wf(),
            point.in_range(),
            self.poly_len() > 0 ==> self.modulus() == point.modulus() && self.in_range_with(
                self.modulus(),
            ),
        ensures
            res.wf(),
            res.modulus() == point.modulus(),
            res.val() == eval_at(self.coeffs(), point.val()) % point.modulus(),
            0 <= res.val() < point.modulus(),
    {
        let ghost m = point.modulus();
        let ghost x = point.val();
        let field = point.field.duplicate();
        let mut xi = field.one();
        let mut value = field.zero();
        let mut i: usize = 0;
        proof {
            assert(self.coeffs().subrange(0, 0) =~= Seq::<int>::empty());
            lemma_small_mod(0 as nat, m as nat);
            lemma_small_mod(1 as nat, m as nat);
            lemma_pow0(x);
        }
        while i < self.coefficients.len()
            invariant
                self.wf(),
                point.wf(),
                point.in_range(),
                m == point.modulus(),
                x == point.val(),
                self.poly_len() > 0 ==> self.modulus() == m && self.in_range_with(m),
                field.wf(),
                field.modulus() == m,
                i <= self.poly_len(),
                value.wf(),
                value.modulus() == m,
                0 <= value.val() < m,
                xi.wf(),
                xi.modulus() == m,
                0 <= xi.val() < m,
                value.val() == eval_at(self.coeffs().subrange(0, i as int), x) % m,
                xi.val() == pow(x, i as nat) % m,
            decreases self.poly_len() - i,
        {
            let term = field.multiply(&self.coefficients[i], &xi);
            let nvalue = field.add(&value, &term);
            let nxi = field.multiply(&xi, point);
            proof {
                let pre = self.coeffs().subrange(0, i as int);
                let cval = self.coeffs()[i as int];
                assert(self.coefficients@[i as int].val() == cval);
                assert(0 <= cval < m);
                assert(self.coeffs().subrange(0, i + 1) =~= pre.push(cval));
                lemma_eval_push(pre, cval, x);
                lemma_small_mod(xi.val() as nat, m as nat);
                lemma_mod_twice(pow(x, i as nat), m);
                lemma_cong_mul(cval, cval, xi.val(), pow(x, i as nat), m);
                lemma_add_mod_noop(eval_at(pre, x), cval * pow(x, i as nat), m);
                lemma_mod_twice(eval_at(pre, x), m);
                lemma_mod_twice(cval * pow(x, i as nat), m);
                // the new accumulated power
                lemma_mul_mod_noop_left(pow(x, i as nat), x, m);
                reveal(pow);
                assert(pow(x, (i + 1) as nat) == x * pow(x, i as nat));
                assert(x * pow(x, i as nat) == pow(x, i as nat) * x) by (nonlinear_arith);
            }
            value = nvalue;
            xi = nxi;
            i += 1;
        }
        proof {
            assert(self.coeffs().subrange(0, self.coeffs().len() as int) =~= self.coeffs());
        }
        value
    }

    /// The values at each point of a domain, in the domain's order.
    pub fn evaluate_domain(&self, domain: &[FieldElement]) -> (res: Vec<FieldElement>)
        requires
            self.wf(),
            self.poly_len() > 0 ==> self.in_range_with(self.modulus()),
            forall|t: int| 0 <= t < domain@.len() ==> (#[trigger] domain@[t]).wf()
                && domain@[t].in_range() && (self.poly_len() > 0 ==> domain@[t].modulus()
                == self.modulus()),
        ensures
            res@.len() == domain@.len(),
            forall|t: int| 0 <= t < domain@.len() ==> (#[trigger] res@[t]).wf()
                && res@[t].modulus() == domain@[t].modulus() && res@[t].val() == eval_at(
                self.coeffs(),
                domain@[t].val(),
            ) % domain@[t].modulus(),
    {
        let mut res: Vec<FieldElement> = Vec::new();
        let mut i: usize = 0;
        while i < domain.len()
            invariant
                self.wf(),
                self.poly_len() > 0 ==> self.in_range_with(self.modulus()),
                forall|t: int| 0 <= t < domain@.len() ==> (#[trigger] domain@[t]).wf()
                    && domain@[t].in_range() && (self.poly_len() > 0 ==> domain@[t].modulus()
                    == self.modulus()),
                i <= domain@.len(),
                res@.len() == i,
                forall|t: int| 0 <= t < i ==> (#[trigger] res@[t]).wf() && res@[t].modulus()
                    == domain@[t].modulus() && res@[t].val() == eval_at(
                    self.coeffs(),
                    domain@[t].val(),
                ) % domain@[t].modulus(),
            decreases domain@.len() - i,
        {
            res.push(self.evaluate(&domain[i]));
            i += 1;
        }
        res
    }
}

/// The zerofier's exact coefficients over a sequence of domain values: the
/// left fold of the monic linear factors `x - d`, reduced modulo `m` at each
/// coefficient.
pub open spec fn zerofier_vals(d: Seq<int>, m: int) -> Seq<int>
    decreases d.len(),
{
    if d.len() == 0 {
        seq![1int]
    } else {
        let prev = zerofier_vals(d.drop_last(), m);
        Seq::new(
            prev.len() + 1,
            |k: int| (pad_at(prev, k) * ((m - d.last()) % m) + pad_at(prev, k - 1)) % m,
        )
    }
}

/// The value of the product of the linear factors `x - d` over a domain of
/// values, over the integers.
pub open spec fn zerofier_product(d: Seq<int>, x: int) -> int
    decreases d.len(),
{
    if d.len() == 0 {
        1
    } else {
        zerofier_product(d.drop_last(), x) * (x - d.last())
    }
}

/// The zerofier's coefficients evaluate to the product of its factors.
pub proof fn lemma_zerofier_vals_eval(d: Seq<int>, m: int, x: int)
    requires
        m >= 2,
    ensures
        eval_at(zerofier_vals(d, m), x) % m == zerofier_product(d, x) % m,
    decreases d.len(),
{
    if d.len() == 0 {
        let zv = zerofier_vals(d, m);
        assert(zv =~= seq![1int]);
        assert(zv.subrange(1, 1) =~= Seq::<int>::empty());
        assert(eval_at(zv, x) == 1 + x * eval_at(Seq::<int>::empty(), x));
        assert(x * 0 == 0) by (nonlinear_arith);
    } else {
        let prev = zerofier_vals(d.drop_last(), m);
        let w = (m - d.last()) % m;
        let zv = zerofier_vals(d, m);
        let lv = lin_vals(prev, w, 1);
        assert(zv.len() == prev.len() + 1 && lv.len() == prev.len() + 1);
        assert forall|k: int| 0 <= k < zv.len() implies #[trigger] (zv[k] % m) == lv[k] % m by {
            assert(zv[k] == (pad_at(prev, k) * w + pad_at(prev, k - 1)) % m);
            lemma_mod_twice(pad_at(prev, k) * w + pad_at(prev, k - 1), m);
            assert(pad_at(prev, k - 1) * 1 == pad_at(prev, k - 1)) by (nonlinear_arith);
        }
        lemma_eval_cong(zv, lv, x, m);
        lemma_eval_lin_exact(prev, w, 1, x);
        lemma_zerofier_vals_eval(d.drop_last(), m, x);
        assert(1 * x == x) by (nonlinear_arith);
        lemma_add_mod_noop(m - d.last(), x, m);
        lemma_add_mod_noop((m - d.last()) % m, x, m);
        lemma_mod_twice(m - d.last(), m);
        lemma_mod_twice(x, m);
        lemma_mod_add_multiples_vanish(x - d.last(), m);
        assert((w + x) % m == (x - d.last()) % m);
        lemma_cong_mul(
            eval_at(prev, x),
            zerofier_product(d.drop_last(), x),
            w + x,
            x - d.last(),
            m,
        );
    }
}

proof fn lemma_zerofier_product_nonzero(d: Seq<int>, m: int, x: int)
    requires
        is_prime(m),
        forall|i: int| 0 <= i < d.len() ==> #[trigger] ((x - d[i]) % m) != 0,
    ensures
        zerofier_product(d, x) % m != 0,
    decreases d.len(),
{
    if d.len() == 0 {
        lemma_small_mod(1 as nat, m as nat);
    } else {
        let t = d.drop_last();
        assert forall|i: int| 0 <= i < t.len() implies #[trigger] ((x - t[i]) % m) != 0 by {
            assert(t[i] == d[i]);
            assert((x - d[i]) % m != 0);
        }
        lemma_zerofier_product_nonzero(t, m, x);
        assert((x - d.last()) % m != 0);
        if zerofier_product(d, x) % m == 0 {
            assert(zerofier_product(t, x) * (x - d.last()) == (x - d.last())
                * zerofier_product(t, x)) by (nonlinear_arith);
            crate::algebra::lemma_prime_zero_divisor(x - d.last(), zerofier_product(t, x), m);
            assert(false);
        }
    }
}

/// Off its domain the zerofier vanishes nowhere: at any point outside every
/// domain residue class its value is non-zero. This is deterministic, not
/// probabilistic: a prime field has no zero divisors, so the product of the
/// non-vanishing factors `x - d` cannot vanish.
pub proof fn lemma_zerofier_offdomain(d: Seq<int>, m: int, x: int)
    requires
        is_prime(m),
        forall|i: int| 0 <= i < d.len() ==> #[trigger] ((x - d[i]) % m) != 0,
    ensures
        eval_at(zerofier_vals(d, m), x) % m != 0,
{
    lemma_zerofier_vals_eval(d, m, x);
    lemma_zerofier_product_nonzero(d, m, x);
}

impl Polynomial {
    /// The monic polynomial of degree `|domain|` vanishing exactly on the
    /// domain: the product of the factors `x - d` over the domain points.
    pub fn zerofier_domain(domain: &[FieldElement]) -> (res: Polynomial)
        requires
            domain@.len() > 0,
            domain@.len() <= 0xffff,
            forall|t: int| 0 <= t < domain@.len() ==> (#[trigger] domain@[t]).wf()
                && domain@[t].in_range() && domain@[t].modulus() == domain@[0].modulus(),
        ensures
            res.poly_len() == domain@.len() + 1,
            res.modulus() == domain@[0].modulus(),
            res.in_range_with(domain@[0].modulus()),
            res.coeffs() == zerofier_vals(
                domain@.map(|i: int, e: FieldElement| e.val()),
                domain@[0].modulus(),
            ),
            res.coeffs()[domain@.len() as int] == 1,
            res.deg() == domain@.len(),
            forall|t: int| 0 <= t < domain@.len() ==> eval_at(
                res.coeffs(),
                (#[trigger] domain@[t]).val(),
            ) % domain@[0].modulus() == 0,
    {
        let field = domain[0].field.duplicate();
        let ghost m = domain@[0].modulus();
        let ghost dm = domain@.map(|i: int, e: FieldElement| e.val());
        let mut xc: Vec<FieldElement> = Vec::new();
        xc.push(field.zero());
        xc.push(field.one());
        let x_poly = Polynomial { coefficients: xc };
        proof {
            lemma_small_mod(1 as nat, m as nat);
            lemma_small_mod(0 as nat, m as nat);
            assert(x_poly.coeffs()[0] == 0 && x_poly.coeffs()[1] == 1);
            assert(x_poly.coeffs().last() == 1);
            assert(x_poly.deg() == 1);
        }
        let mut acc_c: Vec<FieldElement> = Vec::new();
        acc_c.push(field.one());
        let mut acc = Polynomial { coefficients: acc_c };
        proof {
            assert(dm.subrange(0, 0) =~= Seq::<int>::empty());
            assert(acc.coeffs() =~= zerofier_vals(Seq::<int>::empty(), m));
        }
        let mut i: usize = 0;
        while i < domain.len()
            invariant
                domain@.len() > 0,
                domain@.len() <= 0xffff,
                forall|t: int| 0 <= t < domain@.len() ==> (#[trigger] domain@[t]).wf()
                    && domain@[t].in_range() && domain@[t].modulus() == domain@[0].modulus(),
                m == domain@[0].modulus(),
                m >= 2,
                field.wf(),
                field.modulus() == m,
                x_poly.poly_len() == 2,
                x_poly.modulus() == m,
                x_poly.in_range_with(m),
                x_poly.coeffs()[0] == 0,
                x_poly.coeffs()[1] == 1,
                x_poly.deg() == 1,
                i <= domain@.len(),
                dm == domain@.map(|i2: int, e: FieldElement| e.val()),
                acc.poly_len() == i + 1,
                acc.modulus() == m,
                acc.in_range_with(m),
                acc.coeffs() == zerofier_vals(dm.subrange(0, i as int), m),
                acc.coeffs()[i as int] == 1,
                forall|t: int| 0 <= t < i ==> eval_at(
                    acc.coeffs(),
                    (#[trigger] domain@[t]).val(),
                ) % m == 0,
            decreases domain@.len() - i,
        {
            let ghost acc0 = acc.coeffs();
            let mut dc_vec: Vec<FieldElement> = Vec::new();
            dc_vec.push(domain[i].duplicate());
            let dpoly = Polynomial { coefficients: dc_vec };
            let ghost dv = domain@[i as int].val();
            let factor = x_poly.sub(&dpoly);
            proof {
                lemma_small_mod(1 as nat, m as nat);
                assert(!x_poly.zero_spec());
                let negv = neg_vals(dpoly.coeffs(), m);
                assert(negv.len() == 1 && negv[0] == tmod(m - dv, m));
                lemma_tdiv_tmod(m - dv, m);
                lemma_mod_bound(m - dv, m);
                let w = tmod(m - dv, m);
                assert(w == (m - dv) % m && 0 <= w < m);
                lemma_small_mod(w as nat, m as nat);
                assert(dpoly.modulus() == m);
                lemma_deg_of_props(negv, m);
                if deg_of(negv, m) == -1 {
                    // the domain point is the field's zero and subtraction
                    // returned the x polynomial unchanged
                    lemma_deg_of_props(negv, m);
                    assert(negv[0] % m == 0);
                    assert(factor.coeffs() == x_poly.coeffs());
                    assert(factor.coeffs()[0] == 0 && w == 0);
                } else {
                    assert(factor.poly_len() == 2);
                    assert(factor.coeffs()[0] == tmod(pad_at(x_poly.coeffs(), 0) + pad_at(
                        negv,
                        0,
                    ), m));
                    assert(pad_at(x_poly.coeffs(), 0) + pad_at(negv, 0) == w);
                    lemma_tdiv_tmod(w, m);
                    assert(factor.coeffs()[0] == w);
                    assert(factor.coeffs()[1] == tmod(pad_at(x_poly.coeffs(), 1) + pad_at(
                        negv,
                        1,
                    ), m));
                    assert(pad_at(x_poly.coeffs(), 1) + pad_at(negv, 1) == 1);
                    lemma_tdiv_tmod(1, m);
                    assert(factor.coeffs()[1] == 1);
                }
                assert(factor.poly_len() == 2 && factor.coeffs()[1] == 1 && factor.coeffs()[0]
                    == tmod(m - dv, m));
                assert(factor.coeffs().last() == 1);
                assert(factor.deg() == 1);
                assert forall|t2: int| 0 <= t2 < factor.coeffs().len() implies 0
                    <= #[trigger] factor.coeffs()[t2] < m by {
                    assert(t2 == 0 || t2 == 1);
                }
                assert(factor.in_range_with(m));
                assert(acc.coeffs().last() == 1);
                assert(acc.deg() == i);
                assert(!acc.zero_spec() && !factor.zero_spec());
            }
            let new_acc = acc.mul(&factor);
            proof {
                let fc = factor.coeffs();
                let f0 = fc[0];
                let nc2 = new_acc.coeffs();
                assert(new_acc.poly_len() == i + 2);
                // the product of two monic polynomials is monic
                lemma_conv_linear(acc0, fc, i as int + 1);
                assert(pad_at(acc0, i as int + 1) == 0);
                assert(0 * f0 == 0) by (nonlinear_arith);
                assert(pad_at(acc0, i as int) == 1);
                assert(conv_at(acc0, fc, i as int + 1) == 1);
                lemma_small_mod(1 as nat, m as nat);
                assert(nc2[i as int + 1] == 1);
                // the coefficients follow the zerofier fold exactly
                let pre = dm.subrange(0, i as int);
                let cur = dm.subrange(0, i as int + 1);
                assert(cur.drop_last() =~= pre);
                assert(cur.last() == dv);
                let znew = zerofier_vals(cur, m);
                assert(znew.len() == i + 2);
                assert forall|k: int| 0 <= k < nc2.len() implies nc2[k] == znew[k] by {
                    lemma_conv_linear(acc0, fc, k);
                    assert(nc2[k] == conv_at(acc0, fc, k) % m);
                    assert(pad_at(acc0, k - 1) * fc[1] == pad_at(acc0, k - 1)) by (nonlinear_arith)
                        requires
                            fc[1] == 1;
                    assert(fc[0] == tmod(m - dv, m));
                    lemma_tdiv_tmod(m - dv, m);
                    assert(fc[0] == (m - dv) % m);
                    assert(zerofier_vals(pre, m) == acc0);
                    assert(znew[k] == (pad_at(acc0, k) * ((m - dv) % m) + pad_at(acc0, k - 1))
                        % m);
                }
                assert(nc2 =~= znew);
                // the product vanishes on every processed point and on the
                // new one
                assert forall|t: int| 0 <= t < i + 1 implies eval_at(
                    nc2,
                    (#[trigger] domain@[t]).val(),
                ) % m == 0 by {
                    let dt = domain@[t].val();
                    let lv = lin_vals(acc0, f0, 1);
                    assert forall|k: int| 0 <= k < nc2.len() implies #[trigger] (nc2[k] % m) == lv[k] % m by {
                        lemma_conv_linear(acc0, fc, k);
                        assert(lv[k] == pad_at(acc0, k) * f0 + pad_at(acc0, k - 1) * 1);
                        assert(pad_at(acc0, k - 1) * 1 == pad_at(acc0, k - 1)) by (nonlinear_arith);
                        assert(pad_at(acc0, k - 1) * fc[1] == pad_at(acc0, k - 1))
                            by (nonlinear_arith)
                            requires
                                fc[1] == 1;
                        assert(nc2[k] % m == conv_at(acc0, fc, k) % m);
                    }
                    lemma_eval_cong(nc2, lv, dt, m);
                    lemma_eval_lin_exact(acc0, f0, 1, dt);
                    assert(1 * dt == dt) by (nonlinear_arith);
                    let ev = eval_at(acc0, dt);
                    lemma_small_mod(0 as nat, m as nat);
                    if t < i {
                        lemma_mul_mod_noop_left(ev, f0 + dt, m);
                        assert(0 * (f0 + dt) == 0) by (nonlinear_arith);
                        assert((ev * (f0 + dt)) % m == 0);
                    } else {
                        assert(dt == dv);
                        assert(f0 == tmod(m - dv, m));
                        lemma_tdiv_tmod(m - dv, m);
                        lemma_mod_bound(m - dv, m);
                        assert((f0 + dt) % m == 0) by {
                            if dv > 0 {
                                lemma_small_mod((m - dv) as nat, m as nat);
                                assert(f0 == m - dv);
                                lemma_mod_self_0(m);
                            } else {
                                lemma_mod_self_0(m);
                                assert(f0 == 0);
                            }
                        }
                        lemma_mul_mod_noop_right(ev, f0 + dt, m);
                        assert(ev * 0 == 0) by (nonlinear_arith);
                        assert((ev * (f0 + dt)) % m == 0);
                    }
                }
            }
            acc = new_acc;
            i += 1;
        }
        proof {
            assert(acc.coeffs().last() == 1);
            lemma_small_mod(1 as nat, m as nat);
            assert(acc.deg() == domain@.len());
            assert(dm.subrange(0, domain@.len() as int) =~= dm);
        }
        acc
    }
}

/// A sequence whose residues all vanish evaluates to a vanishing value.
pub proof fn lemma_eval_zero(c: Seq<int>, x: int, m: int)
    requires
        m >= 1,
        forall|i: int| 0 <= i < c.len() ==> #[trigger] (c[i] % m) == 0,
    ensures
        eval_at(c, x) % m == 0,
    decreases c.len(),
{
    lemma_small_mod(0 as nat, m as nat);
    if c.len() > 0 {
        let t = c.subrange(1, c.len() as int);
        assert forall|i: int| 0 <= i < t.len() implies #[trigger] (t[i] % m) == 0 by {
            assert(t[i] == c[i + 1]);
            assert(c[i + 1] % m == 0);
        }
        lemma_eval_zero(t, x, m);
        lemma_mul_mod_noop_right(x, eval_at(t, x), m);
        assert(x * 0 == 0) by (nonlinear_arith);
        lemma_add_mod_noop(c[0], x * eval_at(t, x), m);
    }
}

/// A sequence of exact zeros evaluates to exactly zero.
pub proof fn lemma_eval_exact_zero(c: Seq<int>, x: int)
    requires
        forall|i: int| 0 <= i < c.len() ==> #[trigger] c[i] == 0,
    ensures
        eval_at(c, x) == 0,
    decreases c.len(),
{
    if c.len() > 0 {
        let t = c.subrange(1, c.len() as int);
        assert forall|i: int| 0 <= i < t.len() implies #[trigger] t[i] == 0 by {
            assert(t[i] == c[i + 1]);
        }
        lemma_eval_exact_zero(t, x);
        assert(x * 0 == 0) by (nonlinear_arith);
    }
}

proof fn lemma_conv_upto_const(a: Seq<int>, b: Seq<int>, k: int, i: int)
    requires
        b.len() == 1,
        0 <= i <= a.len(),
    ensures
        conv_upto(a, b, k, i) == (if 0 <= k < i {
            a[k] * b[0]
        } else {
            0
        }),
    decreases i,
{
    if i > 0 {
        lemma_conv_upto_const(a, b, k, i - 1);
        if k != i - 1 {
            assert(pad_at(b, k - (i - 1)) == 0);
            assert(pad_at(a, i - 1) * 0 == 0) by (nonlinear_arith);
        }
    }
}

/// A product coefficient against a constant factor is a scaled coefficient.
pub proof fn lemma_conv_const(a: Seq<int>, b: Seq<int>, k: int)
    requires
        b.len() == 1,
    ensures
        conv_at(a, b, k) == pad_at(a, k) * b[0],
{
    lemma_conv_upto_const(a, b, k, a.len() as int);
    if !(0 <= k < a.len()) {
        assert(pad_at(a, k) * b[0] == 0) by (nonlinear_arith)
            requires
                pad_at(a, k) == 0;
    }
}

/// Evaluating a padded coefficient-wise sum adds the values.
pub proof fn lemma_eval_pad_sum(a: Seq<int>, b: Seq<int>, n: int, x: int)
    requires
        a.len() <= n,
        b.len() <= n,
        0 <= n,
    ensures
        eval_at(Seq::new(n as nat, |k: int| pad_at(a, k) + pad_at(b, k)), x) == eval_at(a, x)
            + eval_at(b, x),
    decreases n,
{
    let s = Seq::new(n as nat, |k: int| pad_at(a, k) + pad_at(b, k));
    if n == 0 {
        assert(s =~= Seq::<int>::empty());
    } else {
        let ta = if a.len() > 0 {
            a.subrange(1, a.len() as int)
        } else {
            a
        };
        let tb = if b.len() > 0 {
            b.subrange(1, b.len() as int)
        } else {
            b
        };
        lemma_eval_pad_sum(ta, tb, n - 1, x);
        let st = Seq::new((n - 1) as nat, |k: int| pad_at(ta, k) + pad_at(tb, k));
        assert(s.subrange(1, n) =~= st) by {
            assert forall|k: int| 0 <= k < n - 1 implies s.subrange(1, n)[k] == st[k] by {
                assert(s.subrange(1, n)[k] == s[k + 1]);
                assert(pad_at(ta, k) == pad_at(a, k + 1));
                assert(pad_at(tb, k) == pad_at(b, k + 1));
            }
        }
        assert(s[0] == pad_at(a, 0) + pad_at(b, 0));
        if a.len() > 0 {
            assert(eval_at(a, x) == a[0] + x * eval_at(ta, x));
        } else {
            assert(eval_at(ta, x) == 0 && pad_at(a, 0) == 0);
        }
        if b.len() > 0 {
            assert(eval_at(b, x) == b[0] + x * eval_at(tb, x));
        } else {
            assert(eval_at(tb, x) == 0 && pad_at(b, 0) == 0);
        }
        assert(x * (eval_at(ta, x) + eval_at(tb, x)) == x * eval_at(ta, x) + x * eval_at(tb, x))
            by (nonlinear_arith);
    }
}

impl Polynomial {
    /// Lagrange interpolation: the polynomial of degree below the domain
    /// size taking the given value at each domain point. The domain points
    /// must be pairwise distinct, and the modulus prime, for the basis
    /// denominators to be invertible; reduced values are what the field
    /// operations produce.
    #[verifier::rlimit(100)]
    pub fn interpolate_domain(domain: &[FieldElement], values: &[FieldElement]) -> (res:
        Polynomial)
        requires
            domain@.len() == values@.len(),
            domain@.len() > 0,
            domain@.len() <= 0xffff,
            forall|t: int| 0 <= t < domain@.len() ==> (#[trigger] domain@[t]).wf()
                && domain@[t].in_range() && domain@[t].modulus() == domain@[0].modulus(),
            forall|t: int| 0 <= t < values@.len() ==> (#[trigger] values@[t]).wf()
                && values@[t].in_range() && values@[t].modulus() == domain@[0].modulus(),
            is_prime(domain@[0].modulus()),
            forall|t1: int, t2: int| 0 <= t1 < t2 < domain@.len() ==> (
            #[trigger] domain@[t1]).val() != (#[trigger] domain@[t2]).val(),
        ensures
            res.poly_len() <= domain@.len(),
            res.wf(),
            res.poly_len() > 0 ==> res.modulus() == domain@[0].modulus() && res.in_range_with(
                domain@[0].modulus(),
            ) && res.deg() < domain@.len(),
            forall|t: int| 0 <= t < domain@.len() ==> eval_at(
                res.coeffs(),
                (#[trigger] domain@[t]).val(),
            ) % domain@[0].modulus() == values@[t].val() % domain@[0].modulus(),
    {
        let ghost m = domain@[0].modulus();
        let ghost n = domain@.len() as int;
        let field = domain[0].field.duplicate();
        let mut xc: Vec<FieldElement> = Vec::new();
        xc.push(field.zero());
        xc.push(field.one());
        let x_poly = Polynomial { coefficients: xc };
        proof {
            lemma_small_mod(1 as nat, m as nat);
            lemma_small_mod(0 as nat, m as nat);
            assert(x_poly.coeffs()[0] == 0 && x_poly.coeffs()[1] == 1);
            assert(x_poly.coeffs().last() == 1);
            assert(x_poly.deg() == 1);
        }
        let mut acc = Polynomial { coefficients: Vec::new() };
        let mut i: usize = 0;
        while i < domain.len()
            invariant
                domain@.len() == values@.len(),
                domain@.len() > 0,
                domain@.len() <= 0xffff,
                n == domain@.len(),
                forall|t: int| 0 <= t < domain@.len() ==> (#[trigger] domain@[t]).wf()
                    && domain@[t].in_range() && domain@[t].modulus() == domain@[0].modulus(),
                forall|t: int| 0 <= t < values@.len() ==> (#[trigger] values@[t]).wf()
                    && values@[t].in_range() && values@[t].modulus() == domain@[0].modulus(),
                is_prime(m),
                forall|t1: int, t2: int| 0 <= t1 < t2 < domain@.len() ==> (
                #[trigger] domain@[t1]).val() != (#[trigger] domain@[t2]).val(),
                m == domain@[0].modulus(),
                m >= 2,
                field.wf(),
                field.modulus() == m,
                x_poly.poly_len() == 2,
                x_poly.modulus() == m,
                x_poly.in_range_with(m),
                x_poly.coeffs()[0] == 0,
                x_poly.coeffs()[1] == 1,
                x_poly.deg() == 1,
                i <= n,
                acc.poly_len() <= n,
                acc.wf(),
                acc.poly_len() > 0 ==> acc.modulus() == m && acc.in_range_with(m),
                forall|t: int| 0 <= t < n ==> eval_at(acc.coeffs(), (#[trigger] domain@[t]).val())
                    % m == (if t < i {
                    values@[t].val() % m
                } else {
                    0
                }),
            decreases n - i,
        {
            let ghost di = domain@[i as int].val();
            let mut pc: Vec<FieldElement> = Vec::new();
            pc.push(values[i].duplicate());
            let mut prod = Polynomial { coefficients: pc };
            proof {
                let vi = values@[i as int].val();
                assert(prod.coeffs() =~= seq![vi]);
                assert(prod.coeffs().subrange(1, 1) =~= Seq::<int>::empty());
                assert forall|t: int| 0 <= t < n implies eval_at(
                    prod.coeffs(),
                    (#[trigger] domain@[t]).val(),
                ) % m == vi % m by {
                    assert(eval_at(prod.coeffs(), domain@[t].val()) == vi + domain@[t].val()
                        * eval_at(Seq::<int>::empty(), domain@[t].val()));
                    assert(domain@[t].val() * 0 == 0) by (nonlinear_arith);
                }
            }
            let mut j: usize = 0;
            while j < domain.len()
                invariant
                    domain@.len() == values@.len(),
                    domain@.len() > 0,
                    domain@.len() <= 0xffff,
                    n == domain@.len(),
                    forall|t: int| 0 <= t < domain@.len() ==> (#[trigger] domain@[t]).wf()
                        && domain@[t].in_range() && domain@[t].modulus() == domain@[0].modulus(),
                    forall|t: int| 0 <= t < values@.len() ==> (#[trigger] values@[t]).wf()
                        && values@[t].in_range() && values@[t].modulus() == domain@[0].modulus(),
                    is_prime(m),
                    forall|t1: int, t2: int| 0 <= t1 < t2 < domain@.len() ==> (
                    #[trigger] domain@[t1]).val() != (#[trigger] domain@[t2]).val(),
                    m == domain@[0].modulus(),
                    m >= 2,
                    field.wf(),
                    field.modulus() == m,
                    x_poly.poly_len() == 2,
                    x_poly.modulus() == m,
                    x_poly.in_range_with(m),
                    x_poly.coeffs()[0] == 0,
                    x_poly.coeffs()[1] == 1,
                    x_poly.deg() == 1,
                    i < n,
                    di == domain@[i as int].val(),
                    j <= n,
                    prod.poly_len() <= (if j <= i { j + 1 } else { j as int }),
                    prod.wf(),
                    prod.poly_len() > 0 ==> prod.modulus() == m && prod.in_range_with(m),
                    forall|t: int| 0 <= t < j && t != i ==> eval_at(
                        prod.coeffs(),
                        (#[trigger] domain@[t]).val(),
                    ) % m == 0,
                    eval_at(prod.coeffs(), di) % m == values@[i as int].val() % m,
                decreases n - j,
            {
                if j != i {
                    let ghost dj = domain@[j as int].val();
                    let ghost prod0 = prod.coeffs();
                    let mut djc: Vec<FieldElement> = Vec::new();
                    djc.push(domain[j].duplicate());
                    let dpoly = Polynomial { coefficients: djc };
                    let factor = x_poly.sub(&dpoly);
                    proof {
                        lemma_small_mod(1 as nat, m as nat);
                        assert(!x_poly.zero_spec());
                        assert(dpoly.modulus() == m);
                        let negv = neg_vals(dpoly.coeffs(), m);
                        assert(negv.len() == 1 && negv[0] == tmod(m - dj, m));
                        lemma_tdiv_tmod(m - dj, m);
                        lemma_mod_bound(m - dj, m);
                        let w = tmod(m - dj, m);
                        lemma_small_mod(w as nat, m as nat);
                        lemma_deg_of_props(negv, m);
                        if deg_of(negv, m) == -1 {
                            assert(negv[0] % m == 0);
                            assert(factor.coeffs() == x_poly.coeffs());
                            assert(factor.coeffs()[0] == 0 && w == 0);
                        } else {
                            assert(factor.poly_len() == 2);
                            assert(factor.coeffs()[0] == tmod(pad_at(x_poly.coeffs(), 0) + pad_at(
                                negv,
                                0,
                            ), m));
                            assert(pad_at(x_poly.coeffs(), 0) + pad_at(negv, 0) == w);
                            lemma_tdiv_tmod(w, m);
                            assert(factor.coeffs()[0] == w);
                            assert(factor.coeffs()[1] == tmod(pad_at(x_poly.coeffs(), 1) + pad_at(
                                negv,
                                1,
                            ), m));
                            assert(pad_at(x_poly.coeffs(), 1) + pad_at(negv, 1) == 1);
                            lemma_tdiv_tmod(1, m);
                            assert(factor.coeffs()[1] == 1);
                        }
                        assert(factor.poly_len() == 2 && factor.coeffs()[1] == 1
                            && factor.coeffs()[0] == tmod(m - dj, m));
                        assert(factor.coeffs().last() == 1);
                        assert(factor.deg() == 1);
                        assert forall|t2: int| 0 <= t2 < factor.coeffs().len() implies 0
                            <= #[trigger] factor.coeffs()[t2] < m by {
                            assert(t2 == 0 || t2 == 1);
                        }
                        assert(factor.in_range_with(m));
                    }
                    let diff = field.subtract(&domain[i], &domain[j]);
                    proof {
                        // distinct in-range points give a non-zero residue
                        assert(diff.val() == (di - dj) % m);
                        assert(di != dj) by {
                            if i < j {
                                assert(domain@[i as int].val() != domain@[j as int].val());
                            } else {
                                assert(domain@[j as int].val() != domain@[i as int].val());
                            }
                        }
                        assert(diff.val() != 0) by {
                            if di > dj {
                                lemma_small_mod((di - dj) as nat, m as nat);
                            } else {
                                lemma_mod_add_multiples_vanish(di - dj, m);
                                lemma_small_mod((m + di - dj) as nat, m as nat);
                            }
                        }
                        lemma_small_mod(diff.val() as nat, m as nat);
                    }
                    let inv_el = field.inverse(&diff);
                    let mut ic: Vec<FieldElement> = Vec::new();
                    ic.push(inv_el);
                    let invpoly = Polynomial { coefficients: ic };
                    proof {
                        let iv = invpoly.coeffs()[0];
                        assert((iv * diff.val()) % m == 1);
                        assert(iv != 0) by {
                            if iv == 0 {
                                assert(0 * diff.val() == 0) by (nonlinear_arith);
                                lemma_small_mod(0 as nat, m as nat);
                            }
                        }
                        lemma_small_mod(iv as nat, m as nat);
                        assert(invpoly.coeffs().last() % m != 0);
                        assert(invpoly.deg() == 0);
                        assert(!invpoly.zero_spec());
                    }
                    let factor2 = factor.mul(&invpoly);
                    proof {
                        let iv = invpoly.coeffs()[0];
                        let fc = factor.coeffs();
                        let f2 = factor2.coeffs();
                        assert(factor2.poly_len() == 2);
                        lemma_conv_const(fc, invpoly.coeffs(), 0);
                        lemma_conv_const(fc, invpoly.coeffs(), 1);
                        assert(f2[0] == (fc[0] * iv) % m);
                        assert(f2[1] == (fc[1] * iv) % m);
                        assert(fc[1] * iv == iv) by (nonlinear_arith)
                            requires
                                fc[1] == 1;
                        lemma_small_mod(iv as nat, m as nat);
                        assert(f2[1] == iv);
                        assert(factor2.coeffs().last() % m != 0);
                        assert(factor2.deg() == 1);
                        assert(!factor2.zero_spec());
                    }
                    let new_prod = prod.mul(&factor2);
                    proof {
                        let iv = invpoly.coeffs()[0];
                        let f2 = factor2.coeffs();
                        let f20 = f2[0];
                        let w = tmod(m - dj, m);
                        let npc = new_prod.coeffs();
                        if prod.zero_spec() {
                            // a zero product stays zero; its value facts are
                            // all zero residues
                            assert(new_prod.poly_len() == 0);
                            assert forall|t: int| 0 <= t < n implies eval_at(
                                npc,
                                (#[trigger] domain@[t]).val(),
                            ) % m == 0 by {
                                lemma_eval_zero(npc, domain@[t].val(), m);
                            }
                            assert(eval_at(prod0, di) % m == 0) by {
                                if prod.poly_len() > 0 {
                                    lemma_deg_of_props(prod0, m);
                                    assert forall|t2: int| 0 <= t2 < prod0.len() implies
                                        #[trigger] (prod0[t2] % m) == 0 by {
                                        assert(prod0[t2] % m == 0);
                                    }
                                    lemma_eval_zero(prod0, di, m);
                                } else {
                                    lemma_small_mod(0 as nat, m as nat);
                                }
                            }
                        } else {
                            assert(new_prod.poly_len() == prod.poly_len() + 1);
                            assert forall|t: int| 0 <= t < n implies eval_at(
                                npc,
                                (#[trigger] domain@[t]).val(),
                            ) % m == (eval_at(prod0, domain@[t].val()) * (f20 + f2[1]
                                * domain@[t].val())) % m by {
                                let dt = domain@[t].val();
                                let lv = lin_vals(prod0, f20, f2[1]);
                                assert forall|k: int| 0 <= k < npc.len() implies #[trigger] (npc[k]
                                    % m) == lv[k] % m by {
                                    lemma_conv_linear(prod0, f2, k);
                                    assert(npc[k] % m == conv_at(prod0, f2, k) % m);
                                }
                                lemma_eval_cong(npc, lv, dt, m);
                                lemma_eval_lin_exact(prod0, f20, f2[1], dt);
                            }
                        }
                        // the combined factor vanishes at the new point and
                        // is the unit at the interpolation point
                        assert((f20 + f2[1] * dj) % m == 0) by {
                            assert(f20 == (w * iv) % m);
                            lemma_add_mod_noop(w * iv, iv * dj, m);
                            lemma_add_mod_noop((w * iv) % m, iv * dj, m);
                            lemma_mod_twice(w * iv, m);
                            lemma_mod_twice(iv * dj, m);
                            assert(w * iv + iv * dj == iv * (w + dj)) by (nonlinear_arith);
                            assert(f2[1] * dj == iv * dj);
                            assert((w + dj) % m == 0) by {
                                lemma_tdiv_tmod(m - dj, m);
                                lemma_mod_bound(m - dj, m);
                                if dj > 0 {
                                    lemma_small_mod((m - dj) as nat, m as nat);
                                    lemma_mod_self_0(m);
                                } else {
                                    lemma_mod_self_0(m);
                                    lemma_small_mod(0 as nat, m as nat);
                                }
                            }
                            lemma_mul_mod_noop_right(iv, w + dj, m);
                            assert(iv * 0 == 0) by (nonlinear_arith);
                            lemma_small_mod(0 as nat, m as nat);
                        }
                        assert((f20 + f2[1] * di) % m == 1) by {
                            assert(f20 == (w * iv) % m);
                            lemma_add_mod_noop(w * iv, iv * di, m);
                            lemma_add_mod_noop((w * iv) % m, iv * di, m);
                            lemma_mod_twice(w * iv, m);
                            lemma_mod_twice(iv * di, m);
                            assert(w * iv + iv * di == iv * (w + di)) by (nonlinear_arith);
                            assert(f2[1] * di == iv * di);
                            assert((w + di) % m == diff.val() % m) by {
                                lemma_tdiv_tmod(m - dj, m);
                                // w is congruent to -dj, so w + di is
                                // congruent to di - dj
                                lemma_mod_add_multiples_vanish(di - dj, m);
                                lemma_add_mod_noop(m - dj, di, m);
                                lemma_add_mod_noop((m - dj) % m, di, m);
                                lemma_mod_twice(m - dj, m);
                                lemma_mod_twice(di, m);
                            }
                            lemma_mul_mod_noop_right(iv, w + di, m);
                            lemma_mul_mod_noop_right(iv, diff.val(), m);
                            lemma_small_mod(diff.val() as nat, m as nat);
                        }
                        // carry the two running value facts
                        assert forall|t: int| 0 <= t < j + 1 && t != i implies eval_at(
                            new_prod.coeffs(),
                            (#[trigger] domain@[t]).val(),
                        ) % m == 0 by {
                            let dt = domain@[t].val();
                            if !prod.zero_spec() {
                                if t < j {
                                    lemma_mul_mod_noop_left(eval_at(prod0, dt), f20 + f2[1] * dt,
                                        m);
                                    assert(0 * (f20 + f2[1] * dt) == 0) by (nonlinear_arith);
                                    lemma_small_mod(0 as nat, m as nat);
                                } else {
                                    assert(dt == dj);
                                    lemma_mul_mod_noop_right(eval_at(prod0, dt), f20 + f2[1] * dt,
                                        m);
                                    assert(eval_at(prod0, dt) * 0 == 0) by (nonlinear_arith);
                                    lemma_small_mod(0 as nat, m as nat);
                                }
                            }
                        }
                        assert(eval_at(new_prod.coeffs(), di) % m == values@[i as int].val()
                            % m) by {
                            if prod.zero_spec() {
                            } else {
                                lemma_mul_mod_noop_right(eval_at(prod0, di), f20 + f2[1] * di, m);
                                assert(eval_at(prod0, di) * 1 == eval_at(prod0, di))
                                    by (nonlinear_arith);
                                lemma_mul_mod_noop_left(eval_at(prod0, di), 1, m);
                            }
                        }
                    }
                    prod = new_prod;
                }
                j += 1;
            }
            let ghost acc0 = acc.coeffs();
            let new_acc = acc.add(&prod);
            proof {
                let nac = new_acc.coeffs();
                let pc2 = prod.coeffs();
                assert(new_acc.poly_len() <= n) by {
                    if !acc.zero_spec() && !prod.zero_spec() {
                        assert(prod.poly_len() <= n);
                    }
                }
                assert forall|t: int| 0 <= t < n implies eval_at(
                    nac,
                    (#[trigger] domain@[t]).val(),
                ) % m == (if t < i + 1 {
                    values@[t].val() % m
                } else {
                    0
                }) by {
                    let dt = domain@[t].val();
                    let ea = eval_at(acc0, dt) % m;
                    let ep = eval_at(pc2, dt) % m;
                    lemma_small_mod(0 as nat, m as nat);
                    if acc.zero_spec() {
                        // the sum is the product itself; the accumulator's
                        // residues all vanish
                        assert(nac == pc2);
                        assert(ea == 0) by {
                            if acc.poly_len() > 0 {
                                lemma_deg_of_props(acc0, m);
                                lemma_eval_zero(acc0, dt, m);
                            }
                        }
                        if t < i {
                            assert(values@[t].val() % m == 0);
                        }
                    } else if prod.zero_spec() {
                        assert(nac == acc0);
                        assert(ep == 0) by {
                            if prod.poly_len() > 0 {
                                lemma_deg_of_props(pc2, m);
                                lemma_eval_zero(pc2, dt, m);
                            }
                        }
                        if t == i {
                            assert(values@[t].val() % m == 0);
                        }
                    } else {
                        let big = vstd::math::max(acc.poly_len() as int, prod.poly_len() as int);
                        let sums = Seq::new(big as nat, |k: int| pad_at(acc0, k) + pad_at(
                            pc2,
                            k,
                        ));
                        assert forall|k: int| 0 <= k < nac.len() implies #[trigger] (nac[k] % m)
                            == sums[k] % m by {
                            lemma_tmod_congruent(pad_at(acc0, k) + pad_at(pc2, k), m);
                        }
                        lemma_eval_cong(nac, sums, dt, m);
                        lemma_eval_pad_sum(acc0, pc2, big, dt);
                        lemma_add_mod_noop(eval_at(acc0, dt), eval_at(pc2, dt), m);
                        lemma_mod_twice(values@[t].val(), m);
                    }
                }
            }
            acc = new_acc;
            i += 1;
        }
        proof {
            if acc.poly_len() > 0 {
                lemma_deg_of_props(acc.coeffs(), acc.modulus());
                assert(acc.deg() < acc.coeffs().len());
                assert(acc.coeffs().len() == acc.poly_len());
            }
        }
        acc
    }
}

impl Polynomial {
    /// Square-and-multiply exponentiation by a non-negative exponent. The
    /// zero polynomial to any power is zero; any other polynomial to the
    /// zeroth power is the constant one; in general the result has exactly
    /// the product length `e * (len - 1) + 1` and evaluates at every point
    /// to the exponent-fold power of the base polynomial's value.
    #[verifier::rlimit(100)]
    pub fn pow(&self, exponent: &Big) -> (res: Polynomial)
        requires
            self.wf(),
            wf_big(*exponent),
            big_val(*exponent) >= 0,
            self.poly_len() <= 0x7fff_ffff,
            self.poly_len() * big_val(*exponent) <= 0x1fff_ffff,
        ensures
            self.zero_spec() ==> res.poly_len() == 0,
            !self.zero_spec() ==> res.wf() && res.poly_len() > 0 && res.modulus()
                == self.modulus() && res.wf_with(self.modulus()),
            !self.zero_spec() ==> res.poly_len() == big_val(*exponent) * (self.poly_len() - 1)
                + 1,
            !self.zero_spec() && big_val(*exponent) == 0 ==> res.poly_len() == 1
                && res.coeffs()[0] == 1,
            !self.zero_spec() ==> forall|xv: int| eval_at(res.coeffs(), xv) % self.modulus()
                == pow(eval_at(self.coeffs(), xv), big_val(*exponent) as nat) % self.modulus(),
    {
        if self.is_zero() {
            return Polynomial { coefficients: Vec::new() };
        }
        let ghost m = self.modulus();
        let ghost e0 = big_val(*exponent);
        let ghost sc = self.coeffs();
        let ghost l0 = self.poly_len() as int;
        let ghost budget = self.poly_len() * big_val(*exponent);
        let field = self.coefficients[0].field.duplicate();
        let mut oc: Vec<FieldElement> = Vec::new();
        oc.push(field.one());
        let mut acc = Polynomial { coefficients: oc };
        proof {
            assert(acc.coeffs() =~= seq![1int]);
            assert(acc.coeffs().subrange(1, 1) =~= Seq::<int>::empty());
            assert forall|xv: int| eval_at(acc.coeffs(), xv) == 1 by {
                assert(eval_at(acc.coeffs(), xv) == 1 + xv * eval_at(
                    acc.coeffs().subrange(1, 1),
                    xv,
                ));
                assert(xv * 0 == 0) by (nonlinear_arith);
            }
        }
        if exponent.is_zero() {
            proof {
                assert(e0 * (l0 - 1) == 0) by (nonlinear_arith)
                    requires
                        e0 == 0;
                assert forall|xv: int| eval_at(acc.coeffs(), xv) % m == pow(
                    eval_at(sc, xv),
                    e0 as nat,
                ) % m by {
                    lemma_pow0(eval_at(sc, xv));
                    lemma_small_mod(1 as nat, m as nat);
                }
            }
            return acc;
        }
        let mut base = self.duplicate();
        let mut e = exponent.duplicate();
        let two = Big::from_u64(2);
        let ghost mut am: int = 0;
        let ghost mut pw: int = 1;
        proof {
            assert((acc.poly_len() - 1) + (base.poly_len() - 1) * big_val(e) <= budget
                && acc.poly_len() - 1 == am * (l0 - 1) && base.poly_len() - 1 == pw * (l0 - 1)
                && am + pw * big_val(e) == e0) by (nonlinear_arith)
                requires
                    acc.poly_len() == 1,
                    base.poly_len() == self.poly_len(),
                    l0 == self.poly_len(),
                    big_val(e) == big_val(*exponent),
                    budget == self.poly_len() * big_val(*exponent),
                    e0 == big_val(*exponent),
                    big_val(e) >= 0,
                    am == 0,
                    pw == 1,
                    base.poly_len() >= 1;
            assert forall|xv: int| (eval_at(acc.coeffs(), xv) * pow(
                eval_at(base.coeffs(), xv),
                big_val(e) as nat,
            )) % m == pow(eval_at(sc, xv), e0 as nat) % m by {
                assert(eval_at(base.coeffs(), xv) == eval_at(sc, xv));
                assert(1 * pow(eval_at(sc, xv), e0 as nat) == pow(eval_at(sc, xv), e0 as nat))
                    by (nonlinear_arith);
            }
        }
        loop
            invariant_except_break
                m >= 2,
                field.wf(),
                field.modulus() == m,
                wf_big(e),
                wf_big(two),
                big_val(two) == 2,
                big_val(e) >= 0,
                budget <= 0x1fff_ffff,
                l0 >= 1,
                am >= 0,
                pw >= 1,
                acc.wf(),
                acc.poly_len() > 0,
                acc.modulus() == m,
                acc.wf_with(m),
                base.wf(),
                base.poly_len() >= 1,
                base.modulus() == m,
                base.wf_with(m),
                acc.poly_len() - 1 == am * (l0 - 1),
                base.poly_len() - 1 == pw * (l0 - 1),
                am + pw * big_val(e) == e0,
                (acc.poly_len() - 1) + (base.poly_len() - 1) * big_val(e) <= budget,
                forall|xv: int| (eval_at(acc.coeffs(), xv) * pow(
                    eval_at(base.coeffs(), xv),
                    big_val(e) as nat,
                )) % m == pow(eval_at(sc, xv), e0 as nat) % m,
            ensures
                acc.wf(),
                acc.poly_len() > 0,
                acc.modulus() == m,
                acc.wf_with(m),
                acc.poly_len() - 1 == e0 * (l0 - 1),
                forall|xv: int| (eval_at(acc.coeffs(), xv) * pow(eval_at(base.coeffs(), xv), 0))
                    % m == pow(eval_at(sc, xv), e0 as nat) % m,
            decreases big_val(e),
        {
            if e.is_zero() {
                proof {
                    assert(pw * 0 == 0) by (nonlinear_arith);
                    assert(acc.poly_len() - 1 == e0 * (l0 - 1));
                }
                break;
            }
            let ghost ev = big_val(e);
            let ghost al = acc.poly_len() as int;
            let ghost bl = base.poly_len() as int;
            let ghost acc0 = acc.coeffs();
            let ghost base0 = base.coeffs();
            proof {
                assert(al - 1 <= budget && (bl - 1) * ev <= budget) by (nonlinear_arith)
                    requires
                        (al - 1) + (bl - 1) * ev == (acc.poly_len() - 1) + (base.poly_len() - 1)
                            * big_val(e),
                        (acc.poly_len() - 1) + (base.poly_len() - 1) * big_val(e) <= budget,
                        al >= 1,
                        bl >= 1,
                        ev >= 1;
                assert(bl - 1 <= budget) by (nonlinear_arith)
                    requires
                        (bl - 1) * ev <= budget,
                        ev >= 1,
                        bl >= 1;
            }
            let ghost was_odd = abs(big_val(e)) % 2 == 1;
            if e.is_odd() {
                let nacc = acc.mul(&base);
                proof {
                    if acc.zero_spec() || base.zero_spec() {
                        assert(nacc.poly_len() == 0);
                    }
                }
                if nacc.coefficients.len() == 0 {
                    proof {
                        assert(acc.zero_spec() || base.zero_spec()) by {
                            if !acc.zero_spec() && !base.zero_spec() {
                            }
                        }
                        assert(deg_of(acc0, m) == -1 || deg_of(base0, m) == -1);
                    }
                    // the product vanished: a zero polynomial of the
                    // product's length keeps both value and shape
                    let zlen = acc.coefficients.len() + base.coefficients.len() - 1;
                    acc = Polynomial { coefficients: zero_coeffs(&field, zlen) };
                    proof {
                        assert forall|xv: int| eval_at(acc.coeffs(), xv) % m == (eval_at(
                            acc0,
                            xv,
                        ) * eval_at(base0, xv)) % m by {
                            assert forall|t2: int| 0 <= t2 < acc.coeffs().len() implies
                                #[trigger] acc.coeffs()[t2] == 0 by {
                                assert(acc.coeffs()[t2] == acc.coefficients@[t2].val());
                            }
                            lemma_eval_exact_zero(acc.coeffs(), xv);
                            lemma_small_mod(0 as nat, m as nat);
                            if deg_of(acc0, m) == -1 {
                                lemma_deg_of_props(acc0, m);
                                lemma_eval_zero(acc0, xv, m);
                                lemma_mul_mod_noop_left(eval_at(acc0, xv), eval_at(base0, xv), m);
                                assert(0 * eval_at(base0, xv) == 0) by (nonlinear_arith);
                            } else {
                                lemma_deg_of_props(base0, m);
                                lemma_eval_zero(base0, xv, m);
                                lemma_mul_mod_noop_right(eval_at(acc0, xv), eval_at(base0, xv), m);
                                assert(eval_at(acc0, xv) * 0 == 0) by (nonlinear_arith);
                            }
                        }
                    }
                } else {
                    acc = nacc;
                    proof {
                        assert forall|xv: int| eval_at(acc.coeffs(), xv) % m == (eval_at(
                            acc0,
                            xv,
                        ) * eval_at(base0, xv)) % m by {
                            assert forall|k: int| 0 <= k < acc.coeffs().len() implies #[trigger] (
                            acc.coeffs()[k] % m) == conv_vals(acc0, base0)[k] % m by {
                                assert(acc.coeffs()[k] % m == conv_at(acc0, base0, k) % m);
                            }
                            lemma_eval_cong(acc.coeffs(), conv_vals(acc0, base0), xv, m);
                            lemma_eval_conv(acc0, base0, xv);
                        }
                    }
                }
                proof {
                    am = am + pw;
                    assert(acc.poly_len() == al + bl - 1);
                    assert(acc.poly_len() - 1 == am * (l0 - 1)) by (nonlinear_arith)
                        requires
                            acc.poly_len() - 1 == (al - 1) + (bl - 1),
                            al - 1 == (am - pw) * (l0 - 1),
                            bl - 1 == pw * (l0 - 1);
                }
            }
            let nbase0 = base.mul(&base);
            let ghost base_vanished = nbase0.coefficients@.len() == 0;
            proof {
                if base_vanished {
                    assert(base.zero_spec()) by {
                        if !base.zero_spec() {
                        }
                    }
                    assert(deg_of(base0, m) == -1);
                }
            }
            let nbase = if nbase0.coefficients.len() == 0 {
                let zl = base.coefficients.len() + base.coefficients.len() - 1;
                Polynomial { coefficients: zero_coeffs(&field, zl) }
            } else {
                nbase0
            };
            proof {
                let nal = acc.poly_len() as int;
                let nbl = nbase.poly_len() as int;
                let h = ev / 2;
                lemma_fundamental_div_mod(ev, 2);
                lemma_mod_bound(ev, 2);
                assert(nbl - 1 == 2 * (bl - 1));
                pw = 2 * pw;
                assert(nbl - 1 == pw * (l0 - 1)) by (nonlinear_arith)
                    requires
                        nbl - 1 == 2 * (bl - 1),
                        bl - 1 == (pw / 2) * (l0 - 1),
                        pw == 2 * (pw / 2);
                if was_odd {
                    assert(ev % 2 == 1);
                    assert(nal - 1 <= (al - 1) + (bl - 1));
                    assert((nal - 1) + (nbl - 1) * h <= budget && am + pw * h == e0)
                        by (nonlinear_arith)
                        requires
                            nal - 1 <= (al - 1) + (bl - 1),
                            nbl - 1 <= 2 * (bl - 1),
                            nbl >= 1,
                            (al - 1) + (bl - 1) * ev <= budget,
                            ev == 2 * h + 1,
                            h >= 0,
                            bl >= 1,
                            al >= 1,
                            nal >= 1,
                            am == (e0 - (pw / 2) * ev) + pw / 2,
                            pw == 2 * (pw / 2),
                            (e0 - (pw / 2) * ev) + (pw / 2) * ev == e0;
                } else {
                    assert(ev % 2 == 0);
                    assert(nal == al);
                    assert((nal - 1) + (nbl - 1) * h <= budget && am + pw * h == e0)
                        by (nonlinear_arith)
                        requires
                            nal == al,
                            nbl - 1 <= 2 * (bl - 1),
                            nbl >= 1,
                            (al - 1) + (bl - 1) * ev <= budget,
                            ev == 2 * h,
                            h >= 0,
                            bl >= 1,
                            al >= 1,
                            am + (pw / 2) * ev == e0,
                            pw == 2 * (pw / 2);
                }
            }
            base = nbase;
            proof {
                assert forall|xv: int| eval_at(base.coeffs(), xv) % m == (eval_at(base0, xv)
                    * eval_at(base0, xv)) % m by {
                    if base_vanished {
                        assert forall|t2: int| 0 <= t2 < base.coeffs().len() implies
                            #[trigger] base.coeffs()[t2] == 0 by {
                            assert(base.coeffs()[t2] == base.coefficients@[t2].val());
                        }
                        lemma_eval_exact_zero(base.coeffs(), xv);
                        lemma_small_mod(0 as nat, m as nat);
                        lemma_deg_of_props(base0, m);
                        lemma_eval_zero(base0, xv, m);
                        lemma_mul_mod_noop_left(eval_at(base0, xv), eval_at(base0, xv), m);
                        assert(0 * eval_at(base0, xv) == 0) by (nonlinear_arith);
                    } else {
                        assert forall|k: int| 0 <= k < base.coeffs().len() implies #[trigger] (
                        base.coeffs()[k] % m) == conv_vals(base0, base0)[k] % m by {
                            assert(base.coeffs()[k] % m == conv_at(base0, base0, k) % m);
                        }
                        lemma_eval_cong(base.coeffs(), conv_vals(base0, base0), xv, m);
                        lemma_eval_conv(base0, base0, xv);
                    }
                }
            }
            e = big_div(&e, &two);
            proof {
                lemma_tdiv_tmod(ev, 2);
                let h = (ev / 2) as nat;
                assert(big_val(e) == ev / 2);
                assert forall|xv: int| (eval_at(acc.coeffs(), xv) * pow(
                    eval_at(base.coeffs(), xv),
                    big_val(e) as nat,
                )) % m == pow(eval_at(sc, xv), e0 as nat) % m by {
                    let ea = eval_at(acc0, xv);
                    let eb = eval_at(base0, xv);
                    let ea2 = eval_at(acc.coeffs(), xv);
                    let eb2 = eval_at(base.coeffs(), xv);
                    assert((ea * pow(eb, ev as nat)) % m == pow(eval_at(sc, xv), e0 as nat) % m);
                    lemma_pow_cong(eb2, eb * eb, h, m);
                    lemma_pow_adds(eb, h, h);
                    lemma_pow_distributes(eb, eb, h);
                    if was_odd {
                        lemma_pow_adds(eb, (h + h) as nat, 1);
                        lemma_pow1(eb);
                        assert(pow(eb, ev as nat) == pow(eb * eb, h) * eb) by (nonlinear_arith)
                            requires
                                ev == 2 * h + 1,
                                pow(eb, ev as nat) == pow(eb, (h + h) as nat) * pow(eb, 1),
                                pow(eb, (h + h) as nat) == pow(eb, h) * pow(eb, h),
                                pow(eb * eb, h) == pow(eb, h) * pow(eb, h),
                                pow(eb, 1) == eb;
                        lemma_cong_mul(ea2, ea * eb, pow(eb2, h), pow(eb * eb, h), m);
                        assert((ea * eb) * pow(eb * eb, h) == ea * pow(eb, ev as nat))
                            by (nonlinear_arith)
                            requires
                                pow(eb, ev as nat) == pow(eb * eb, h) * eb;
                    } else {
                        assert(pow(eb, ev as nat) == pow(eb * eb, h)) by (nonlinear_arith)
                            requires
                                ev == 2 * h,
                                pow(eb, (h + h) as nat) == pow(eb, h) * pow(eb, h),
                                pow(eb * eb, h) == pow(eb, h) * pow(eb, h),
                                pow(eb, ev as nat) == pow(eb, (h + h) as nat);
                        assert(ea2 % m == ea % m);
                        lemma_cong_mul(ea2, ea, pow(eb2, h), pow(eb * eb, h), m);
                    }
                }
            }
        }
        proof {
            assert forall|xv: int| eval_at(acc.coeffs(), xv) % m == pow(eval_at(sc, xv), e0 as nat)
                % m by {
                lemma_pow0(eval_at(base.coeffs(), xv));
                assert((eval_at(acc.coeffs(), xv) * pow(eval_at(base.coeffs(), xv), 0)) % m == pow(
                    eval_at(sc, xv),
                    e0 as nat,
                ) % m);
                assert(eval_at(acc.coeffs(), xv) * 1 == eval_at(acc.coeffs(), xv))
                    by (nonlinear_arith);
            }
        }
        acc
    }

    /// Normalized equality: equal lengths and pairwise equivalent
    /// coefficients.
    pub fn equals(&self, other: &Polynomial) -> (r: bool)
        requires
            self.wf(),
            other.wf(),
        ensures
            r == (self.poly_len() == other.poly_len() && forall|k: int|
                0 <= k < self.coeffs().len() ==> #[trigger] self.coeffs()[k] % self.modulus()
                    == other.coeffs()[k] % other.modulus()),
    {
        if self.coefficients.len() != other.coefficients.len() {
            proof {
                assert(self.poly_len() != other.poly_len());
            }
            return false;
        }
        let mut k: usize = 0;
        while k < self.coefficients.len()
            invariant
                self.wf(),
                other.wf(),
                self.poly_len() == other.poly_len(),
                k <= self.poly_len(),
                forall|t: int| 0 <= t < k ==> #[trigger] self.coeffs()[t] % self.modulus()
                    == other.coeffs()[t] % other.modulus(),
            decreases self.poly_len() - k,
        {
            if !self.coefficients[k].is_equivalent_to(&other.coefficients[k]) {
                proof {
                    assert(self.coeffs()[k as int] == self.coefficients@[k as int].val());
                    assert(other.coeffs()[k as int] == other.coefficients@[k as int].val());
                    assert(self.coefficients@[k as int].modulus() == self.modulus());
                    assert(other.coefficients@[k as int].modulus() == other.modulus());
                }
                return false;
            }
            k += 1;
        }
        true
    }
}

impl Polynomial {
    /// Exact division: `None` when the long division leaves a non-zero
    /// remainder, `Some` with the quotient when it divides out, the
    /// quotient's product with the divisor giving back the dividend
    /// coefficient-wise. A zero dividend always divides out. Whether a
    /// non-zero remainder must appear for a given dividend is quotient
    /// uniqueness, which is not stated here.
    pub fn div(&self, other: &Polynomial) -> (res: Option<Polynomial>)
        requires
            self.wf(),
            other.wf(),
            self.compat(*other),
            self.poly_len() <= 0x3fff_ffff,
            other.poly_len() <= 0x3fff_ffff,
            self.poly_len() > 0 ==> self.in_range_with(self.modulus()),
            other.poly_len() > 0 ==> other.in_range_with(other.modulus()),
            !other.zero_spec(),
            is_prime(other.modulus()),
            other.deg() == other.poly_len() - 1,
        ensures
            res matches Some(quo) ==> quo.wf_with(other.modulus()) && quo.poly_len() == (if
                self.poly_len() > 0 && self.deg() >= other.deg() {
                self.deg() - other.deg() + 1
            } else {
                0
            }) && (forall|k: int| 0 <= k ==> conv_at(quo.coeffs(), other.coeffs(), k)
                % other.modulus() == #[trigger] pad_at(self.coeffs(), k) % other.modulus()),
            self.zero_spec() ==> res is Some,
    {
        let ghost m = other.modulus();
        let pair = Polynomial::divide(self, other);
        match pair {
            Some((quo, rem)) => {
                proof {
                    if self.zero_spec() {
                        // the trivial branch returned the dividend itself,
                        // whose residues all vanish
                        if self.poly_len() > 0 {
                            lemma_deg_of_props(self.coeffs(), m);
                            assert(rem.coeffs() == self.coeffs());
                            assert(deg_of(rem.coeffs(), m) == -1);
                        }
                        assert(rem.zero_spec());
                    }
                }
                if rem.is_zero() {
                    proof {
                        if rem.poly_len() > 0 {
                            assert(rem.modulus() == m);
                            assert(deg_of(rem.coeffs(), m) == -1);
                            lemma_deg_of_props(rem.coeffs(), m);
                        }
                        assert forall|k: int| 0 <= k implies conv_at(quo.coeffs(), other.coeffs(), k)
                            % m == #[trigger] pad_at(self.coeffs(), k) % m by {
                            if 0 <= k < rem.coeffs().len() {
                                assert(rem.coeffs()[k] % m == 0);
                                lemma_small_mod(rem.coeffs()[k] as nat, m as nat);
                                assert(pad_at(rem.coeffs(), k) == 0);
                            } else {
                                assert(pad_at(rem.coeffs(), k) == 0);
                            }
                        }
                    }
                    Some(quo)
                } else {
                    None
                }
            },
            None => None,
        }
    }
}

/// Whether the line `a + b*x` passes through every given point, modulo `m`.
pub open spec fn line_fits(a: int, b: int, pts: Seq<(FieldElement, FieldElement)>, m: int) -> bool {
    forall|t: int| 0 <= t < pts.len() ==> (a + b * (#[trigger] pts[t]).0.val()) % m == pts[t].1.val()
        % m
}

/// Whether the given points lie on one line: the interpolating polynomial
/// through them has degree exactly one. A `true` answer carries a witness:
/// some line `a + b*x` with non-zero slope passes through every point. (The
/// converse, that such a line forces a `true` answer, is the uniqueness of
/// interpolation and is not stated here.)
pub fn test_colinearity(points: &[(FieldElement, FieldElement)]) -> (r: bool)
    requires
        points@.len() > 0,
        points@.len() <= 0xffff,
        forall|t: int| 0 <= t < points@.len() ==> (#[trigger] points@[t]).0.wf()
            && points@[t].0.in_range() && points@[t].0.modulus() == points@[0].0.modulus(),
        forall|t: int| 0 <= t < points@.len() ==> (#[trigger] points@[t]).1.wf()
            && points@[t].1.in_range() && points@[t].1.modulus() == points@[0].0.modulus(),
        is_prime(points@[0].0.modulus()),
        forall|t1: int, t2: int| 0 <= t1 < t2 < points@.len() ==> (#[trigger] points@[t1]).0.val()
            != (#[trigger] points@[t2]).0.val(),
    ensures
        r ==> exists|a: int, b: int|
            0 <= a < points@[0].0.modulus() && 0 <= b < points@[0].0.modulus() && b != 0
                && #[trigger] line_fits(a, b, points@, points@[0].0.modulus()),
{
    let mut domain: Vec<FieldElement> = Vec::new();
    let mut values: Vec<FieldElement> = Vec::new();
    let mut i: usize = 0;
    while i < points.len()
        invariant
            points@.len() <= 0xffff,
            forall|t: int| 0 <= t < points@.len() ==> (#[trigger] points@[t]).0.wf()
                && points@[t].0.in_range() && points@[t].0.modulus() == points@[0].0.modulus(),
            forall|t: int| 0 <= t < points@.len() ==> (#[trigger] points@[t]).1.wf()
                && points@[t].1.in_range() && points@[t].1.modulus() == points@[0].0.modulus(),
            forall|t1: int, t2: int| 0 <= t1 < t2 < points@.len() ==> (
            #[trigger] points@[t1]).0.val() != (#[trigger] points@[t2]).0.val(),
            i <= points@.len(),
            domain@.len() == i,
            values@.len() == i,
            forall|t: int| 0 <= t < i ==> (#[trigger] domain@[t]).wf() && domain@[t].in_range()
                && domain@[t].modulus() == points@[0].0.modulus() && domain@[t].val()
                == points@[t].0.val(),
            forall|t: int| 0 <= t < i ==> (#[trigger] values@[t]).wf() && values@[t].in_range()
                && values@[t].modulus() == points@[0].0.modulus() && values@[t].val()
                == points@[t].1.val(),
        decreases points@.len() - i,
    {
        domain.push(points[i].0.duplicate());
        values.push(points[i].1.duplicate());
        i += 1;
    }
    proof {
        assert(domain@[0].modulus() == points@[0].0.modulus());
    }
    let dslice = domain.as_slice();
    let vslice = values.as_slice();
    let polynomial = Polynomial::interpolate_domain(dslice, vslice);
    let d = polynomial.degree();
    proof {
        let mm = points@[0].0.modulus();
        if d == 1 {
            let pc = polynomial.coeffs();
            lemma_deg_of_props(pc, mm);
            assert(pc.len() >= 2);
            let c0 = pc[0];
            let c1 = pc[1];
            assert(0 <= c0 < mm && 0 <= c1 < mm);
            lemma_small_mod(c1 as nat, mm as nat);
            assert(c1 != 0);
            // beyond the linear part every coefficient is exactly zero, so
            // the interpolant's value is the line through the points
            let rest = pc.subrange(2, pc.len() as int);
            assert forall|t2: int| 0 <= t2 < rest.len() implies #[trigger] rest[t2] == 0 by {
                assert(rest[t2] == pc[t2 + 2]);
                assert(pc[t2 + 2] % mm == 0);
                lemma_small_mod(pc[t2 + 2] as nat, mm as nat);
            }
            assert forall|t: int| 0 <= t < points@.len() implies (c0 + c1 * (
            #[trigger] points@[t]).0.val()) % mm == points@[t].1.val() % mm by {
                let xt = points@[t].0.val();
                lemma_eval_exact_zero(rest, xt);
                let tail = pc.subrange(1, pc.len() as int);
                assert(tail.subrange(1, tail.len() as int) =~= rest);
                assert(eval_at(tail, xt) == c1 + xt * eval_at(rest, xt));
                assert(xt * 0 == 0) by (nonlinear_arith);
                assert(eval_at(pc, xt) == c0 + xt * eval_at(tail, xt));
                assert(xt * c1 == c1 * xt) by (nonlinear_arith);
                assert(dslice@ == domain@ && vslice@ == values@);
                assert(dslice@[t].val() == xt);
                assert(eval_at(pc, dslice@[t].val()) % mm == vslice@[t].val() % mm);
                assert(eval_at(pc, xt) % mm == values@[t].val() % mm);
            }
            assert(line_fits(c0, c1, points@, mm));
        }
    }
    d == 1
}

/// The exact coefficient sequence of the product of two non-empty
/// coefficient sequences.
pub open spec fn conv_vals(a: Seq<int>, b: Seq<int>) -> Seq<int> {
    Seq::new((a.len() + b.len() - 1) as nat, |k: int| conv_at(a, b, k))
}

proof fn lemma_conv_upto_neg(a: Seq<int>, b: Seq<int>, k: int, i: int)
    requires
        k < 0,
    ensures
        conv_upto(a, b, k, i) == 0,
    decreases i,
{
    if i > 0 {
        lemma_conv_upto_neg(a, b, k, i - 1);
        assert(pad_at(b, k - (i - 1)) == 0);
        assert(pad_at(a, i - 1) * 0 == 0) by (nonlinear_arith);
    }
}

proof fn lemma_conv_upto_front(a: Seq<int>, b: Seq<int>, k: int, i: int)
    requires
        b.len() >= 1,
        0 <= i <= a.len(),
    ensures
        conv_upto(a, b, k, i) == conv_upto(a, b.subrange(1, b.len() as int), k - 1, i) + (if 0
            <= k < i {
            a[k] * b[0]
        } else {
            0
        }),
    decreases i,
{
    if i > 0 {
        lemma_conv_upto_front(a, b, k, i - 1);
        let bt = b.subrange(1, b.len() as int);
        let j = k - (i - 1);
        if j == 0 {
            assert(pad_at(b, j) == b[0]);
            assert(pad_at(bt, j - 1) == 0);
            assert(pad_at(a, i - 1) * 0 == 0) by (nonlinear_arith);
        } else if j < 0 {
            assert(pad_at(b, j) == 0 && pad_at(bt, j - 1) == 0);
        } else {
            assert(pad_at(b, j) == pad_at(bt, j - 1));
        }
    }
}

/// The front decomposition of a product coefficient: the head of the right
/// factor scales the left factor, the tail shifts by one.
pub proof fn lemma_conv_front(a: Seq<int>, b: Seq<int>, k: int)
    requires
        b.len() >= 1,
    ensures
        conv_at(a, b, k) == conv_at(a, b.subrange(1, b.len() as int), k - 1) + pad_at(a, k)
            * b[0],
{
    lemma_conv_upto_front(a, b, k, a.len() as int);
    if !(0 <= k < a.len()) {
        assert(pad_at(a, k) * b[0] == 0) by (nonlinear_arith)
            requires
                pad_at(a, k) == 0;
    }
}

/// Evaluating the convolution of two coefficient sequences multiplies their
/// values: polynomial evaluation is a ring homomorphism on products.
pub proof fn lemma_eval_conv(a: Seq<int>, b: Seq<int>, x: int)
    requires
        a.len() >= 1,
        b.len() >= 1,
    ensures
        eval_at(conv_vals(a, b), x) == eval_at(a, x) * eval_at(b, x),
    decreases b.len(),
{
    let cv = conv_vals(a, b);
    let b0 = b[0];
    if b.len() == 1 {
        assert(b.subrange(1, 1) =~= Seq::<int>::empty());
        assert(eval_at(b, x) == b0 + x * eval_at(Seq::<int>::empty(), x));
        assert(b0 + x * 0 == b0);
        let lv = lin_vals(a, b0, 0);
        assert(lv =~= cv.push(0)) by {
            assert forall|k: int| 0 <= k < lv.len() implies lv[k] == cv.push(0)[k] by {
                assert(pad_at(a, k - 1) * 0 == 0) by (nonlinear_arith);
                if k < cv.len() {
                    lemma_conv_const(a, b, k);
                } else {
                    assert(pad_at(a, k) == 0);
                    assert(pad_at(a, k) * b0 == 0) by (nonlinear_arith)
                        requires
                            pad_at(a, k) == 0;
                }
            }
        }
        lemma_eval_push(cv, 0, x);
        lemma_eval_lin_exact(a, b0, 0, x);
        assert(b0 + 0 * x == b0) by (nonlinear_arith);
    } else {
        let bt = b.subrange(1, b.len() as int);
        let ct = conv_vals(a, bt);
        lemma_eval_conv(a, bt, x);
        let scaled = lin_vals(a, b0, 0);
        let shifted = seq![0int].add(ct);
        let summed = Seq::new(cv.len(), |k: int| pad_at(scaled, k) + pad_at(shifted, k));
        assert(cv =~= summed) by {
            assert forall|k: int| 0 <= k < cv.len() implies cv[k] == summed[k] by {
                lemma_conv_front(a, b, k);
                if k - 1 < 0 {
                    lemma_conv_upto_neg(a, bt, k - 1, a.len() as int);
                    assert(pad_at(shifted, k) == 0);
                } else {
                    assert(shifted[k] == ct[k - 1]);
                    assert(pad_at(shifted, k) == conv_at(a, bt, k - 1));
                }
                if k <= a.len() {
                    assert(pad_at(scaled, k) == pad_at(a, k) * b0 + pad_at(a, k - 1) * 0);
                    assert(pad_at(a, k - 1) * 0 == 0) by (nonlinear_arith);
                } else {
                    assert(pad_at(scaled, k) == 0);
                    assert(pad_at(a, k) == 0);
                    assert(pad_at(a, k) * b0 == 0) by (nonlinear_arith)
                        requires
                            pad_at(a, k) == 0;
                }
            }
        }
        lemma_eval_pad_sum(scaled, shifted, cv.len() as int, x);
        lemma_eval_lin_exact(a, b0, 0, x);
        assert(shifted.subrange(1, shifted.len() as int) =~= ct);
        assert(eval_at(shifted, x) == 0 + x * eval_at(ct, x));
        assert(eval_at(b, x) == b0 + x * eval_at(bt, x));
        assert(eval_at(a, x) * (b0 + 0 * x) + x * (eval_at(a, x) * eval_at(bt, x)) == eval_at(
            a,
            x,
        ) * (b0 + x * eval_at(bt, x))) by (nonlinear_arith);
    }
}

/// Congruent bases have congruent powers.
pub proof fn lemma_pow_cong(x: int, y: int, e: nat, m: int)
    requires
        m > 0,
        x % m == y % m,
    ensures
        pow(x, e) % m == pow(y, e) % m,
{
    lemma_pow_mod_noop(x, e, m);
    lemma_pow_mod_noop(y, e, m);
}

/// Each coefficient value replaced by the representative of its negation
/// that the field's negate operation returns.
pub open spec fn neg_vals(c: Seq<int>, m: int) -> Seq<int> {
    c.map(|i: int, v: int| tmod(m - v, m))
}

} // verus!
