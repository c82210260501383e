//! Dense multilinear polynomials over `{0,1}^l`, held as the table of the
//! `2^l` hypercube values. The multilinear extension is pinned down by the
//! spec function `eval_int`; the two executable evaluators, the restriction
//! and the hypercube sum are all proved against it.

use vstd::prelude::*;
use vstd::arithmetic::power2::{
    lemma2_to64, lemma2_to64_rest, lemma_pow2_pos, lemma_pow2_strictly_increases,
    lemma_pow2_unfold, pow2,
};
use vstd::arithmetic::div_mod::{
    lemma_add_mod_noop, lemma_add_mod_noop_right, lemma_div_denominator,
    lemma_mod_twice, lemma_mul_mod_noop_general, lemma_small_mod,
};
use vstd::bits::lemma_u64_shr_is_div;
use crate::field::{Fp, points_wf, vals};
use super::{ConstructionError, MultivariatePolynomialOracle};

verus! {

/// The multilinear factor a hypercube bit contributes at the point `x`:
/// `x` where the bit is set, `1 - x` where it is clear.
pub open spec fn chi(b: int, x: int) -> int {
    if b == 1 {
        x
    } else {
        1 - x
    }
}

/// The multilinear Lagrange basis value of hypercube index `w` at the point
/// `r`, peeling the last coordinate off the low bit of `w`.
pub open spec fn basis(w: nat, r: Seq<int>) -> int
    decreases r.len(),
{
    if r.len() == 0 {
        1
    } else {
        basis(w / 2, r.drop_last()) * chi(w as int % 2, r.last())
    }
}

/// The dot product of a table with the basis values at `r`:
/// `sum_w f[w] * basis(w, r)`. This is the Lagrange-product form of the
/// multilinear extension.
pub open spec fn dot_basis(f: Seq<int>, r: Seq<int>) -> int
    decreases f.len(),
{
    if f.len() == 0 {
        0
    } else {
        dot_basis(f.drop_last(), r) + f.last() * basis((f.len() - 1) as nat, r)
    }
}

/// The multilinear extension of the table `f` at the point `r`, splitting the
/// table by the leading variable: the low half is the restriction of the
/// first variable to 0, the high half to 1.
pub open spec fn eval_int(f: Seq<int>, r: Seq<int>) -> int
    decreases r.len(),
{
    if r.len() == 0 {
        if f.len() >= 1 {
            f[0]
        } else {
            0
        }
    } else {
        let h = f.len() as int / 2;
        (1 - r[0]) * eval_int(f.take(h), r.drop_first()) + r[0] * eval_int(
            f.skip(h),
            r.drop_first(),
        )
    }
}

/// The sum of all entries of a table.
pub open spec fn sum_int(f: Seq<int>) -> int
    decreases f.len(),
{
    if f.len() == 0 {
        0
    } else {
        sum_int(f.drop_last()) + f.last()
    }
}

/// The table of the restriction of the leading variable to `x`, entry by
/// entry: pairs that differ only in their leading bit are folded with
/// weights `1 - x` and `x`.
pub open spec fn spec_fix(t: Seq<int>, x: int, m: int) -> Seq<int> {
    Seq::new((t.len() / 2) as nat, |j: int| ((1 - x) * t[j] + x * t[j + t.len() / 2]) % m)
}

/// The pointwise affine combination of two tables, reduced: entry `j` is
/// `((1 - x) * a[j] + x * b[j]) % m`.
pub open spec fn combine(a: Seq<int>, b: Seq<int>, x: int, m: int) -> Seq<int> {
    Seq::new(a.len(), |j: int| ((1 - x) * a[j] + x * b[j]) % m)
}

/// Splitting the leading coordinate out of a basis value: for an index below
/// `2^(len-1)` the leading bit is clear and contributes `1 - r[0]`; adding
/// `2^(len-1)` sets it and contributes `r[0]`.
pub proof fn lemma_basis_split(w: nat, r: Seq<int>)
    requires
        r.len() >= 1,
        w < pow2((r.len() - 1) as nat),
    ensures
        basis(w, r) == (1 - r[0]) * basis(w, r.drop_first()),
        basis(w + pow2((r.len() - 1) as nat), r) == r[0] * basis(w, r.drop_first()),
    decreases r.len(),
{
    let h = pow2((r.len() - 1) as nat);
    if r.len() == 1 {
        assert(pow2(0) == 1) by {
            lemma2_to64();
        }
        assert(w == 0);
        assert(r.drop_first() =~= Seq::<int>::empty());
        assert(basis(0, r) == basis(0, r.drop_last()) * chi(0, r.last()));
        assert(r.drop_last() =~= Seq::<int>::empty());
        assert(basis(0, r) == 1 - r[0]);
        assert(basis(1, r) == basis(0, r.drop_last()) * chi(1, r.last()));
        assert(basis(1, r) == r[0]);
    } else {
        let rp = r.drop_last();
        let rl = r.last();
        let hp = pow2((r.len() - 2) as nat);
        assert(h == 2 * hp) by {
            lemma_pow2_unfold((r.len() - 1) as nat);
        }
        assert(w / 2 < hp);
        lemma_basis_split(w / 2, rp);
        assert(rp[0] == r[0]);
        // the index below 2^(len-1)
        assert(basis(w, r) == basis(w / 2, rp) * chi(w as int % 2, rl));
        assert(basis(w / 2, rp) == (1 - r[0]) * basis(w / 2, rp.drop_first()));
        let rest = basis(w / 2, rp.drop_first());
        let c = chi(w as int % 2, rl);
        assert(((1 - r[0]) * rest) * c == (1 - r[0]) * (rest * c)) by (nonlinear_arith);
        assert(r.drop_first().drop_last() =~= rp.drop_first());
        assert(r.drop_first().last() == rl);
        assert(basis(w, r.drop_first()) == rest * chi(w as int % 2, rl));
        assert(basis(w, r) == (1 - r[0]) * basis(w, r.drop_first()));
        // the index with the leading bit set
        let wh = w + h;
        assert(wh / 2 == w / 2 + hp);
        assert(wh as int % 2 == w as int % 2);
        assert(basis(wh, r) == basis(w / 2 + hp, rp) * chi(w as int % 2, rl));
        assert(basis(w / 2 + hp, rp) == r[0] * rest);
        assert((r[0] * rest) * c == r[0] * (rest * c)) by (nonlinear_arith);
        assert(basis(wh, r) == r[0] * basis(w, r.drop_first()));
    }
}

/// A dot product whose indices all keep the leading bit clear factors out
/// `1 - r[0]`.
proof fn lemma_dot_low(f: Seq<int>, r: Seq<int>)
    requires
        r.len() >= 1,
        f.len() <= pow2((r.len() - 1) as nat),
    ensures
        dot_basis(f, r) == (1 - r[0]) * dot_basis(f, r.drop_first()),
    decreases f.len(),
{
    if f.len() == 0 {
        assert((1 - r[0]) * 0 == 0) by (nonlinear_arith);
    } else {
        lemma_dot_low(f.drop_last(), r);
        let w = (f.len() - 1) as nat;
        lemma_basis_split(w, r);
        let a = 1 - r[0];
        let d = dot_basis(f.drop_last(), r.drop_first());
        let fl = f.last();
        let b = basis(w, r.drop_first());
        assert(dot_basis(f, r) == a * d + fl * (a * b));
        assert(a * d + fl * (a * b) == a * (d + fl * b)) by (nonlinear_arith);
    }
}

/// A dot product over a table whose first `2^(len-1)` entries are a full low
/// half splits into the low half plus `r[0]` times the high-half dot product.
proof fn lemma_dot_high(f: Seq<int>, g: Seq<int>, r: Seq<int>)
    requires
        r.len() >= 1,
        f.len() == pow2((r.len() - 1) as nat),
        g.len() <= pow2((r.len() - 1) as nat),
    ensures
        dot_basis(f + g, r) == dot_basis(f, r) + r[0] * dot_basis(g, r.drop_first()),
    decreases g.len(),
{
    let h = pow2((r.len() - 1) as nat);
    if g.len() == 0 {
        assert(f + g =~= f);
        assert(r[0] * 0 == 0) by (nonlinear_arith);
    } else {
        lemma_dot_high(f, g.drop_last(), r);
        assert((f + g).drop_last() =~= f + g.drop_last());
        let w = (g.len() - 1) as nat;
        lemma_basis_split(w, r);
        let gl = g.last();
        let b = basis(w, r.drop_first());
        let d = dot_basis(g.drop_last(), r.drop_first());
        assert((f + g).len() - 1 == h + w);
        assert((f + g).last() == gl);
        assert(dot_basis(f + g, r) == dot_basis(f, r) + r[0] * d + gl * (r[0] * b));
        assert(r[0] * d + gl * (r[0] * b) == r[0] * (d + gl * b)) by (nonlinear_arith);
    }
}

/// The Lagrange-product form and the half-splitting form of the multilinear
/// extension agree exactly: `sum_w f[w] * basis(w, r)` equals `eval_int`.
pub proof fn lemma_dot_eq_eval(f: Seq<int>, r: Seq<int>)
    requires
        f.len() == pow2(r.len()),
    ensures
        dot_basis(f, r) == eval_int(f, r),
    decreases r.len(),
{
    if r.len() == 0 {
        assert(pow2(0) == 1) by {
            lemma2_to64();
        }
        assert(f.drop_last() =~= Seq::<int>::empty());
        assert(dot_basis(f.drop_last(), r) == 0);
        assert(basis((f.len() - 1) as nat, r) == 1);
        assert(dot_basis(f, r) == 0 + f.last() * 1);
        assert(f.last() * 1 == f.last()) by (nonlinear_arith);
        assert(f.last() == f[0]);
    } else {
        let h = pow2((r.len() - 1) as nat);
        assert(f.len() == 2 * h) by {
            lemma_pow2_unfold(r.len());
        }
        let lo = f.take(h as int);
        let hi = f.skip(h as int);
        assert(f =~= lo + hi);
        lemma_dot_high(lo, hi, r);
        lemma_dot_low(lo, r);
        lemma_dot_eq_eval(lo, r.drop_first());
        lemma_dot_eq_eval(hi, r.drop_first());
        assert(f.len() as int / 2 == h);
    }
}

/// The sum of a table splits at any cut.
pub proof fn lemma_sum_split(f: Seq<int>, j: int)
    requires
        0 <= j <= f.len(),
    ensures
        sum_int(f) == sum_int(f.take(j)) + sum_int(f.skip(j)),
    decreases f.len(),
{
    if j == f.len() {
        assert(f.take(j) =~= f);
        assert(f.skip(j) =~= Seq::<int>::empty());
    } else {
        lemma_sum_split(f.drop_last(), j);
        assert(f.drop_last().take(j) =~= f.take(j));
        assert(f.skip(j).drop_last() =~= f.drop_last().skip(j));
        assert(f.skip(j).len() >= 1);
        assert(f.skip(j).last() == f.last());
    }
}

/// Summing a reduced affine combination of two tables is congruent to the
/// affine combination of their sums.
pub proof fn lemma_sum_combine(a: Seq<int>, b: Seq<int>, x: int, m: int)
    requires
        a.len() == b.len(),
        m >= 2,
    ensures
        sum_int(combine(a, b, x, m)) % m == ((1 - x) * sum_int(a) + x * sum_int(b)) % m,
    decreases a.len(),
{
    let c = combine(a, b, x, m);
    if a.len() == 0 {
        assert(c =~= Seq::<int>::empty());
        assert((1 - x) * 0 + x * 0 == 0) by (nonlinear_arith);
    } else {
        lemma_sum_combine(a.drop_last(), b.drop_last(), x, m);
        assert(c.drop_last() =~= combine(a.drop_last(), b.drop_last(), x, m));
        let sa = sum_int(a.drop_last());
        let sb = sum_int(b.drop_last());
        let al = a.last();
        let bl = b.last();
        let e = (1 - x) * al + x * bl;
        assert(c.last() == e % m);
        assert(sum_int(c) == sum_int(c.drop_last()) + e % m);
        // push both addends into one residue class
        lemma_add_mod_noop(sum_int(c.drop_last()), e % m, m);
        lemma_mod_twice(sum_int(c.drop_last()), m);
        lemma_mod_twice(e % m, m);
        lemma_mod_twice(e, m);
        assert(sum_int(c) % m == (sum_int(c.drop_last()) % m + e % m) % m);
        lemma_add_mod_noop((1 - x) * sa + x * sb, e, m);
        assert((((1 - x) * sa + x * sb) % m + e % m) % m == ((1 - x) * sa + x * sb + e) % m);
        assert((1 - x) * sa + x * sb + ((1 - x) * al + x * bl) == (1 - x) * (sa + al) + x * (sb
            + bl)) by (nonlinear_arith);
    }
}

/// Evaluating a reduced affine combination of two tables is congruent to the
/// affine combination of their evaluations.
pub proof fn lemma_eval_combine(a: Seq<int>, b: Seq<int>, x: int, m: int, r: Seq<int>)
    requires
        a.len() == b.len(),
        a.len() == pow2(r.len()),
        m >= 2,
    ensures
        eval_int(combine(a, b, x, m), r) % m == ((1 - x) * eval_int(a, r) + x * eval_int(b, r))
            % m,
    decreases r.len(),
{
    let c = combine(a, b, x, m);
    if r.len() == 0 {
        assert(pow2(0) == 1) by {
            lemma2_to64();
        }
        assert(c.len() == 1);
        assert(eval_int(c, r) == ((1 - x) * a[0] + x * b[0]) % m);
        lemma_mod_twice((1 - x) * a[0] + x * b[0], m);
    } else {
        let h = pow2((r.len() - 1) as nat);
        assert(a.len() == 2 * h) by {
            lemma_pow2_unfold(r.len());
        }
        let hh = a.len() as int / 2;
        assert(hh == h);
        let rp = r.drop_first();
        assert(c.take(hh) =~= combine(a.take(hh), b.take(hh), x, m));
        assert(c.skip(hh) =~= combine(a.skip(hh), b.skip(hh), x, m));
        lemma_eval_combine(a.take(hh), b.take(hh), x, m, rp);
        lemma_eval_combine(a.skip(hh), b.skip(hh), x, m, rp);
        let e1 = eval_int(c.take(hh), rp);
        let e2 = eval_int(c.skip(hh), rp);
        let alo = eval_int(a.take(hh), rp);
        let ahi = eval_int(a.skip(hh), rp);
        let blo = eval_int(b.take(hh), rp);
        let bhi = eval_int(b.skip(hh), rp);
        assert(eval_int(c, r) == (1 - r[0]) * e1 + r[0] * e2);
        // replace each half by its residue class
        lemma_mul_mod_noop_general(1 - r[0], e1, m);
        assert(((1 - r[0]) * (e1 % m)) % m == ((1 - r[0]) * e1) % m);
        lemma_mul_mod_noop_general(1 - r[0], ((1 - x) * alo + x * blo), m);
        assert(((1 - r[0]) * (((1 - x) * alo + x * blo) % m)) % m == ((1 - r[0]) * ((1 - x) * alo
            + x * blo)) % m);
        assert(((1 - r[0]) * e1) % m == ((1 - r[0]) * ((1 - x) * alo + x * blo)) % m);
        lemma_mul_mod_noop_general(r[0], e2, m);
        lemma_mul_mod_noop_general(r[0], ((1 - x) * ahi + x * bhi), m);
        assert((r[0] * e2) % m == (r[0] * ((1 - x) * ahi + x * bhi)) % m);
        lemma_add_mod_noop((1 - r[0]) * e1, r[0] * e2, m);
        lemma_add_mod_noop(
            (1 - r[0]) * ((1 - x) * alo + x * blo),
            r[0] * ((1 - x) * ahi + x * bhi),
            m,
        );
        assert(eval_int(c, r) % m == ((1 - r[0]) * ((1 - x) * alo + x * blo) + r[0] * ((1 - x)
            * ahi + x * bhi)) % m);
        assert((1 - r[0]) * ((1 - x) * alo + x * blo) + r[0] * ((1 - x) * ahi + x * bhi) == (1 - x)
            * ((1 - r[0]) * alo + r[0] * ahi) + x * ((1 - r[0]) * blo + r[0] * bhi))
            by (nonlinear_arith);
    }
}

/// Restriction commutes with evaluation: evaluating the fold of the leading
/// variable at `x` on the remaining point `r` is evaluating the original
/// table at `x` followed by `r`.
pub proof fn lemma_fix_evaluate(t: Seq<int>, x: int, m: int, r: Seq<int>)
    requires
        t.len() == pow2((r.len() + 1) as nat),
        m >= 2,
    ensures
        eval_int(spec_fix(t, x, m), r) % m == eval_int(t, seq![x] + r) % m,
{
    let h = pow2(r.len());
    assert(t.len() == 2 * h) by {
        lemma_pow2_unfold((r.len() + 1) as nat);
    }
    let hh = t.len() as int / 2;
    assert(hh == h);
    let lo = t.take(hh);
    let hi = t.skip(hh);
    assert(spec_fix(t, x, m) =~= combine(lo, hi, x, m));
    lemma_eval_combine(lo, hi, x, m, r);
    let xr = seq![x] + r;
    assert(xr[0] == x);
    assert(xr.drop_first() =~= r);
    assert(xr.len() >= 1);
    assert(eval_int(t, xr) == (1 - x) * eval_int(lo, r) + x * eval_int(hi, r));
}

/// A dense multilinear polynomial: `l` variables and the table of its values
/// on the hypercube, index `w` read as an `l`-bit big-endian assignment.
#[derive(Debug)]
pub struct MultilinearPolynomial {
    l: u64,
    f: Vec<Fp>,
}

impl MultilinearPolynomial {
    /// The table of hypercube values as integers.
    pub closed spec fn table(self) -> Seq<int> {
        vals(self.f@)
    }

    /// The common modulus of the table.
    pub closed spec fn m(self) -> int {
        self.f@[0].m()
    }

    /// The number of variables.
    pub closed spec fn vars(self) -> nat {
        self.l as nat
    }

    /// The table holds `2^l` entries, all reduced under one modulus.
    pub closed spec fn wf(self) -> bool {
        &&& self.l < 64
        &&& self.f@.len() == pow2(self.l as nat)
        &&& points_wf(self.f@, self.m())
    }

    /// Build a polynomial from its hypercube table; rejects a table whose
    /// length is not `2^l` and entries that do not share one well-formed
    /// modulus.
    pub fn new(l: u64, f: Vec<Fp>) -> (res: Result<MultilinearPolynomial, ConstructionError>)
        ensures
            res is Ok <==> l < 64 && f@.len() == pow2(l as nat) && points_wf(f@, f@[0].m()),
            res == Err::<MultilinearPolynomial, ConstructionError>(ConstructionError::TableLength)
                <==> (l >= 64 || f@.len() != pow2(l as nat)),
            res matches Ok(p) ==> p.wf() && p.vars() == l as nat && p.table() == vals(f@)
                && p.m() == f@[0].m(),
    {
        if l >= 64 {
            return Err(ConstructionError::TableLength);
        }
        let mut p: u64 = 1;
        let mut i: u64 = 0;
        proof {
            lemma2_to64();
        }
        while i < l
            invariant
                0 <= i <= l,
                l < 64,
                p == pow2(i as nat),
            decreases l - i,
        {
            proof {
                lemma_pow2_unfold((i + 1) as nat);
                lemma_pow2_strictly_increases((i + 1) as nat, 64);
                lemma2_to64_rest();
            }
            p = p * 2;
            i += 1;
        }
        if f.len() as u64 != p {
            return Err(ConstructionError::TableLength);
        }
        proof {
            assert(f@.len() == pow2(l as nat));
            lemma_pow2_pos(l as nat);
        }
        let m0: u64 = f[0].modulus;
        let mut k: usize = 0;
        while k < f.len()
            invariant
                0 <= k <= f@.len(),
                f@.len() >= 1,
                l < 64,
                f@.len() == pow2(l as nat),
                m0 == f@[0].modulus,
                forall|j: int|
                    0 <= j < k ==> (#[trigger] f@[j]).wf() && f@[j].m() == m0 as int,
            decreases f@.len() - k,
        {
            let e = f[k];
            if !(e.modulus == m0 && e.modulus >= 2 && e.value < e.modulus) {
                return Err(ConstructionError::MixedModulus);
            }
            k += 1;
        }
        Ok(MultilinearPolynomial { l, f })
    }

    /// What construction guarantees: the modulus admits the identities and
    /// the table has one entry per hypercube point.
    pub proof fn lemma_wf_facts(self)
        requires
            self.wf(),
        ensures
            self.m() >= 2,
            self.table().len() == pow2(self.vars()),
    {
        lemma_pow2_pos(self.l as nat);
    }

    /// The common modulus of the table.
    pub fn modulus(&self) -> (m: u64)
        requires
            self.wf(),
        ensures
            m as int == self.m(),
            m >= 2,
    {
        proof {
            lemma_pow2_pos(self.l as nat);
        }
        self.f[0].modulus
    }

    /// An element-for-element copy.
    pub fn duplicate(&self) -> (p: MultilinearPolynomial)
        ensures
            p.table() == self.table(),
            p.m() == self.m(),
            p.vars() == self.vars(),
            p.wf() == self.wf(),
    {
        let mut c: Vec<Fp> = Vec::new();
        let mut i: usize = 0;
        while i < self.f.len()
            invariant
                0 <= i <= self.f@.len(),
                c@ == self.f@.take(i as int),
            decreases self.f@.len() - i,
        {
            c.push(self.f[i]);
            proof {
                assert(c@ =~= self.f@.take(i + 1));
            }
            i += 1;
        }
        proof {
            assert(c@ =~= self.f@);
        }
        MultilinearPolynomial { l: self.l, f: c }
    }

    /// Evaluate at an arbitrary point by the direct Lagrange-product formula:
    /// for each hypercube index the basis product is accumulated bit by bit,
    /// then dotted with the table.
    pub fn evaluate_cty11(&self, r: &Vec<Fp>) -> (res: Fp)
        requires
            self.wf(),
            r@.len() == self.vars(),
            points_wf(r@, self.m()),
        ensures
            res.wf(),
            res.m() == self.m(),
            res.v() == eval_int(self.table(), vals(r@)) % self.m(),
    {
        proof {
            lemma_pow2_pos(self.l as nat);
        }
        let m: u64 = self.f[0].modulus;
        let one: Fp = Fp::one(m);
        let mut fr: Fp = Fp::zero(m);
        let rv = Ghost(vals(r@));
        let t = Ghost(self.table());
        let mut w: usize = 0;
        proof {
            lemma_small_mod(0, m as nat);
            assert(t@.take(0) =~= Seq::<int>::empty());
        }
        while w < self.f.len()
            invariant
                0 <= w <= self.f@.len(),
                self.wf(),
                m as int == self.m(),
                r@.len() == self.vars(),
                points_wf(r@, self.m()),
                rv@ == vals(r@),
                t@ == self.table(),
                one.wf() && one.m() == m as int && one.v() == 1,
                fr.wf(),
                fr.m() == m as int,
                fr.v() == dot_basis(t@.take(w as int), rv@) % m as int,
            decreases self.f@.len() - w,
        {
            let mut term: Fp = one;
            let mut i: usize = 0;
            proof {
                lemma_small_mod(1, m as nat);
                assert(rv@.take(0) =~= Seq::<int>::empty());
                assert((w as nat) / pow2(self.l as nat) == 0) by {
                    assert(w < pow2(self.l as nat));
                    vstd::arithmetic::div_mod::lemma_basic_div(w as int, pow2(self.l as nat) as int);
                }
            }
            while i < r.len()
                invariant
                    0 <= i <= r@.len(),
                    self.wf(),
                    m as int == self.m(),
                    r@.len() == self.vars(),
                    points_wf(r@, self.m()),
                    rv@ == vals(r@),
                    w < self.f@.len(),
                    one.wf() && one.m() == m as int && one.v() == 1,
                    term.wf(),
                    term.m() == m as int,
                    term.v() == basis(
                        (w as nat) / pow2((self.l - i) as nat),
                        rv@.take(i as int),
                    ) % m as int,
                decreases r@.len() - i,
            {
                let sh: u64 = self.l - 1 - i as u64;
                let q: u64 = (w as u64) >> sh;
                let bit: u64 = q % 2;
                proof {
                    lemma_u64_shr_is_div(w as u64, sh);
                    lemma_pow2_unfold((self.l - i) as nat);
                    lemma_pow2_pos(sh as nat);
                    lemma_div_denominator(w as int, pow2(sh as nat) as int, 2);
                    assert(q as nat / 2 == (w as nat) / pow2((self.l - i) as nat));
                }
                let factor: Fp = if bit == 1 {
                    proof {
                        lemma_small_mod(r@[i as int].value as nat, m as nat);
                    }
                    r[i]
                } else {
                    one.sub(r[i])
                };
                proof {
                    let wq = (w as nat) / pow2((self.l - i) as nat);
                    let wq1 = q as nat;
                    let rvi = rv@[i as int];
                    assert(rv@.take(i + 1).drop_last() =~= rv@.take(i as int));
                    assert(rv@.take(i + 1).last() == rvi);
                    assert(basis(wq1, rv@.take(i + 1)) == basis(wq, rv@.take(i as int)) * chi(
                        wq1 as int % 2,
                        rvi,
                    ));
                    assert(factor.v() == chi(bit as int, rvi) % m as int);
                    let bs = basis(wq, rv@.take(i as int));
                    let c = chi(bit as int, rvi);
                    lemma_mul_mod_noop_general(bs, c, m as int);
                    assert((term.v() * factor.v()) % m as int == (bs * c) % m as int);
                }
                term = term.mul(factor);
                i += 1;
            }
            proof {
                assert(rv@.take(r@.len() as int) =~= rv@);
                assert(pow2(0) == 1) by {
                    lemma2_to64();
                }
                assert((w as nat) / 1 == w as nat);
                assert(term.v() == basis(w as nat, rv@) % m as int);
            }
            let fw: Fp = self.f[w];
            let prod: Fp = fw.mul(term);
            proof {
                let tw = t@[w as int];
                let bw = basis(w as nat, rv@);
                lemma_mul_mod_noop_general(tw, bw, m as int);
                assert((tw * term.v()) % m as int == (tw * bw) % m as int);
                assert(t@.take(w + 1).drop_last() =~= t@.take(w as int));
                assert(t@.take(w + 1).last() == tw);
                assert(dot_basis(t@.take(w + 1), rv@) == dot_basis(t@.take(w as int), rv@) + tw
                    * bw);
                lemma_add_mod_noop_right(dot_basis(t@.take(w as int), rv@), tw * bw, m as int);
                lemma_add_mod_noop(dot_basis(t@.take(w as int), rv@), tw * bw, m as int);
                lemma_mod_twice(tw * bw, m as int);
            }
            fr = fr.add(prod);
            w += 1;
        }
        proof {
            assert(t@.take(self.f@.len() as int) =~= t@);
            lemma_dot_eq_eval(t@, rv@);
        }
        fr
    }

    /// Restrict the leading variable to `x`, producing a polynomial over one
    /// variable fewer; each pair of entries that differ only in their leading
    /// bit is folded with weights `1 - x` and `x`.
    pub fn fix_variable(&self, x: Fp) -> (res: MultilinearPolynomial)
        requires
            self.wf(),
            self.vars() >= 1,
            x.wf(),
            x.m() == self.m(),
        ensures
            res.wf(),
            res.vars() == self.vars() - 1,
            res.m() == self.m(),
            res.table() == spec_fix(self.table(), x.v(), self.m()),
    {
        proof {
            lemma_pow2_pos(self.l as nat);
        }
        let m: u64 = self.f[0].modulus;
        let one: Fp = Fp::one(m);
        let one_minus: Fp = one.sub(x);
        let half: usize = self.f.len() / 2;
        let t = Ghost(self.table());
        proof {
            lemma_pow2_unfold(self.l as nat);
            lemma_pow2_pos((self.l - 1) as nat);
            assert(half == pow2((self.l - 1) as nat));
        }
        let mut nf: Vec<Fp> = Vec::new();
        let mut j: usize = 0;
        while j < half
            invariant
                0 <= j <= half,
                self.wf(),
                self.vars() >= 1,
                m as int == self.m(),
                x.wf() && x.m() == m as int,
                one_minus.wf() && one_minus.m() == m as int && one_minus.v() == (1 - x.v())
                    % m as int,
                t@ == self.table(),
                half == pow2((self.l - 1) as nat),
                self.f@.len() == 2 * half,
                self.f@.len() <= usize::MAX,
                nf@.len() == j,
                forall|k: int|
                    0 <= k < j ==> (#[trigger] nf@[k]).wf() && nf@[k].m() == m as int
                        && nf@[k].v() == ((1 - x.v()) * t@[k] + x.v() * t@[k + half]) % m as int,
            decreases half - j,
        {
            let lo: Fp = one_minus.mul(self.f[j]);
            let hi: Fp = x.mul(self.f[j + half]);
            proof {
                let tj = t@[j as int];
                let th = t@[j + half];
                lemma_mul_mod_noop_general(1 - x.v(), tj, m as int);
                assert(lo.v() == ((1 - x.v()) * tj) % m as int);
                lemma_small_mod(x.value as nat, m as nat);
                assert(hi.v() == (x.v() * th) % m as int);
                lemma_add_mod_noop((1 - x.v()) * tj, x.v() * th, m as int);
                lemma_mod_twice((1 - x.v()) * tj, m as int);
                lemma_mod_twice(x.v() * th, m as int);
                assert((lo.v() + hi.v()) % m as int == ((1 - x.v()) * tj + x.v() * th) % m as int);
            }
            nf.push(lo.add(hi));
            j += 1;
        }
        let res = MultilinearPolynomial { l: self.l - 1, f: nf };
        proof {
            assert(res.table() =~= spec_fix(self.table(), x.v(), self.m()));
            assert(res.m() == m as int);
        }
        res
    }

    /// The sum of the table over the whole hypercube.
    pub fn sum(&self) -> (res: Fp)
        requires
            self.wf(),
        ensures
            res.wf(),
            res.m() == self.m(),
            res.v() == sum_int(self.table()) % self.m(),
    {
        proof {
            lemma_pow2_pos(self.l as nat);
        }
        let m: u64 = self.f[0].modulus;
        let mut acc: Fp = Fp::zero(m);
        let t = Ghost(self.table());
        let mut w: usize = 0;
        proof {
            lemma_small_mod(0, m as nat);
            assert(t@.take(0) =~= Seq::<int>::empty());
        }
        while w < self.f.len()
            invariant
                0 <= w <= self.f@.len(),
                self.wf(),
                m as int == self.m(),
                t@ == self.table(),
                acc.wf(),
                acc.m() == m as int,
                acc.v() == sum_int(t@.take(w as int)) % m as int,
            decreases self.f@.len() - w,
        {
            proof {
                let tw = t@[w as int];
                assert(t@.take(w + 1).drop_last() =~= t@.take(w as int));
                assert(t@.take(w + 1).last() == tw);
                lemma_add_mod_noop(sum_int(t@.take(w as int)), tw, m as int);
                lemma_small_mod(self.f@[w as int].value as nat, m as nat);
            }
            acc = acc.add(self.f[w]);
            w += 1;
        }
        proof {
            assert(t@.take(self.f@.len() as int) =~= t@);
        }
        acc
    }
}

impl MultivariatePolynomialOracle for MultilinearPolynomial {
    open spec fn o_wf(&self) -> bool {
        self.wf()
    }

    open spec fn o_modulus(&self) -> int {
        self.m()
    }

    open spec fn o_vars(&self) -> nat {
        self.vars()
    }

    open spec fn o_eval(&self, r: Seq<int>) -> int {
        eval_int(self.table(), r)
    }

    open spec fn o_deg(&self, i: int) -> int {
        1
    }

    /// Evaluate at an arbitrary point in `O(2^l)` time by table doubling:
    /// starting from a table holding only `1`, each coordinate splits every
    /// entry `b[j]` into `b[j] * (1 - r_i)` and `b[j] * r_i`; after all `l`
    /// coordinates the table holds every basis value, and the result is its
    /// dot product with the hypercube table.
    fn evaluate(&self, r: &Vec<Fp>) -> (res: Fp) {
        proof {
            lemma_pow2_pos(self.l as nat);
        }
        let m: u64 = self.f[0].modulus;
        let one: Fp = Fp::one(m);
        let rv = Ghost(vals(r@));
        let t = Ghost(self.table());
        let mut b: Vec<Fp> = Vec::new();
        b.push(one);
        let mut i: usize = 0;
        proof {
            lemma_small_mod(1, m as nat);
            assert(rv@.take(0) =~= Seq::<int>::empty());
            assert(pow2(0) == 1) by {
                lemma2_to64();
            }
        }
        while i < r.len()
            invariant
                0 <= i <= r@.len(),
                self.wf(),
                m as int == self.m(),
                r@.len() == self.vars(),
                points_wf(r@, self.m()),
                rv@ == vals(r@),
                one.wf() && one.m() == m as int && one.v() == 1,
                b@.len() == pow2(i as nat),
                b@.len() <= self.f@.len(),
                forall|k: int|
                    0 <= k < b@.len() ==> (#[trigger] b@[k]).wf() && b@[k].m() == m as int
                        && b@[k].v() == basis(k as nat, rv@.take(i as int)) % m as int,
            decreases r@.len() - i,
        {
            let ri: Fp = r[i];
            let one_minus: Fp = one.sub(ri);
            let mut nb: Vec<Fp> = Vec::new();
            let mut j: usize = 0;
            proof {
                lemma_pow2_unfold((i + 1) as nat);
                if ((i + 1) as nat) < (self.l as nat) {
                    lemma_pow2_strictly_increases((i + 1) as nat, self.l as nat);
                }
            }
            while j < b.len()
                invariant
                    0 <= j <= b@.len(),
                    self.wf(),
                    m as int == self.m(),
                    r@.len() == self.vars(),
                    points_wf(r@, self.m()),
                    rv@ == vals(r@),
                    i < r@.len(),
                    ri == r@[i as int],
                    one_minus.wf() && one_minus.m() == m as int,
                    one_minus.v() == (1 - rv@[i as int]) % m as int,
                    forall|k: int|
                        0 <= k < b@.len() ==> (#[trigger] b@[k]).wf() && b@[k].m() == m as int
                            && b@[k].v() == basis(k as nat, rv@.take(i as int)) % m as int,
                    nb@.len() == 2 * j,
                    forall|k: int|
                        0 <= k < nb@.len() ==> (#[trigger] nb@[k]).wf() && nb@[k].m() == m as int
                            && nb@[k].v() == basis(k as nat, rv@.take(i + 1)) % m as int,
                decreases b@.len() - j,
            {
                proof {
                    let bj = basis(j as nat, rv@.take(i as int));
                    let rvi = rv@[i as int];
                    assert(rv@.take(i + 1).drop_last() =~= rv@.take(i as int));
                    assert(rv@.take(i + 1).last() == rvi);
                    assert((2 * j) as nat / 2 == j as nat);
                    assert((2 * j) as int % 2 == 0);
                    assert((2 * j + 1) as nat / 2 == j as nat);
                    assert((2 * j + 1) as int % 2 == 1);
                    assert(basis((2 * j) as nat, rv@.take(i + 1)) == bj * chi(0, rvi));
                    assert(basis((2 * j + 1) as nat, rv@.take(i + 1)) == bj * chi(1, rvi));
                    lemma_mul_mod_noop_general(bj, 1 - rvi, m as int);
                    lemma_mul_mod_noop_general(bj, rvi, m as int);
                    lemma_small_mod(r@[i as int].value as nat, m as nat);
                }
                nb.push(b[j].mul(one_minus));
                nb.push(b[j].mul(ri));
                j += 1;
            }
            b = nb;
            i += 1;
        }
        let mut acc: Fp = Fp::zero(m);
        let mut w: usize = 0;
        proof {
            lemma_small_mod(0, m as nat);
            assert(rv@.take(r@.len() as int) =~= rv@);
            assert(t@.take(0) =~= Seq::<int>::empty());
        }
        while w < self.f.len()
            invariant
                0 <= w <= self.f@.len(),
                self.wf(),
                m as int == self.m(),
                t@ == self.table(),
                rv@ == vals(r@),
                b@.len() == self.f@.len(),
                forall|k: int|
                    0 <= k < b@.len() ==> (#[trigger] b@[k]).wf() && b@[k].m() == m as int
                        && b@[k].v() == basis(k as nat, rv@) % m as int,
                acc.wf(),
                acc.m() == m as int,
                acc.v() == dot_basis(t@.take(w as int), rv@) % m as int,
            decreases self.f@.len() - w,
        {
            let prod: Fp = self.f[w].mul(b[w]);
            proof {
                let tw = t@[w as int];
                let bw = basis(w as nat, rv@);
                lemma_mul_mod_noop_general(tw, bw, m as int);
                assert((tw * b@[w as int].v()) % m as int == (tw * bw) % m as int);
                assert(t@.take(w + 1).drop_last() =~= t@.take(w as int));
                assert(t@.take(w + 1).last() == tw);
                lemma_add_mod_noop(dot_basis(t@.take(w as int), rv@), tw * bw, m as int);
            }
            acc = acc.add(prod);
            w += 1;
        }
        proof {
            assert(t@.take(self.f@.len() as int) =~= t@);
            lemma_dot_eq_eval(t@, rv@);
        }
        acc
    }

    /// The degree of every variable of a multilinear polynomial is 1.
    fn deg(&self, i: u64) -> (d: u64) {
        1
    }
}

} // verus!
