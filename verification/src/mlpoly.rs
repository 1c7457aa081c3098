//! Multilinear polynomials in evaluation form.
//!
//! A polynomial in `n` variables is the table of its `2^n` values on the
//! boolean hypercube. Entry `i` is the value at the point whose `k`-th
//! coordinate is bit `k` of `i`, the first variable being the lowest bit.

use crate::field::{fadd, fmul, fsub, is_canonical, modulus, Fe};
use vstd::arithmetic::div_mod::{
    lemma_add_mod_noop, lemma_mod_twice, lemma_mul_mod_noop_right, lemma_small_mod,
};
use vstd::arithmetic::power2::{
    lemma2_to64, lemma_pow2_adds, lemma_pow2_pos, lemma_pow2_strictly_increases,
    lemma_pow2_unfold, pow2,
};
use vstd::prelude::*;

verus! {

/// The sum of the entries of `s`, as an integer.
pub open spec fn sum(s: Seq<int>) -> int
    decreases s.len(),
{
    if s.len() == 0 {
        0
    } else {
        sum(s.drop_last()) + s.last()
    }
}

/// The sum of the entries of `s` in the field.
pub open spec fn total(s: Seq<int>) -> int {
    sum(s) % modulus()
}

/// The entries of `s` at even indices: the table with the first variable
/// fixed to 0.
pub open spec fn evens(s: Seq<int>) -> Seq<int> {
    Seq::new(s.len() / 2, |i: int| s[2 * i])
}

/// The entries of `s` at odd indices: the table with the first variable
/// fixed to 1.
pub open spec fn odds(s: Seq<int>) -> Seq<int> {
    Seq::new(s.len() / 2, |i: int| s[2 * i + 1])
}

/// The value at `r` of the line through `(0, a)` and `(1, b)`, in the form
/// `a * (1 - r) + b * r`.
pub open spec fn interpolate(a: int, b: int, r: int) -> int {
    fadd(fmul(a, fsub(1, r)), fmul(b, r))
}

/// The table with the first variable fixed to `r`.
pub open spec fn fold(s: Seq<int>, r: int) -> Seq<int> {
    Seq::new(s.len() / 2, |i: int| interpolate(s[2 * i], s[2 * i + 1], r))
}

/// The table with its first `rs.len()` variables fixed to `rs`, in order.
pub open spec fn fold_many(s: Seq<int>, rs: Seq<int>) -> Seq<int>
    decreases rs.len(),
{
    if rs.len() == 0 {
        s
    } else {
        fold(fold_many(s, rs.drop_last()), rs.last())
    }
}

/// The value of the multilinear extension of `s` at `x`.
pub open spec fn eval(s: Seq<int>, x: Seq<int>) -> int {
    fold_many(s, x)[0]
}

/// Whether every entry of `s` is the canonical representative of a field
/// element, as the entries of a table are.
pub open spec fn all_canonical(s: Seq<int>) -> bool {
    forall|i: int| 0 <= i < s.len() ==> is_canonical(#[trigger] s[i])
}

/// Whether every coordinate of `x` is 0 or 1.
pub open spec fn is_boolean(x: Seq<int>) -> bool {
    forall|i: int| 0 <= i < x.len() ==> #[trigger] x[i] == 0 || x[i] == 1
}

/// The index of the hypercube point `x` in a table: coordinate `k` is bit
/// `k` of the index.
pub open spec fn index_from_bits(x: Seq<int>) -> int
    decreases x.len(),
{
    if x.len() == 0 {
        0
    } else {
        index_from_bits(x.drop_last()) + x.last() * pow2((x.len() - 1) as nat)
    }
}

/// A multilinear polynomial: its number of variables and its values on the
/// hypercube.
#[derive(Debug, PartialEq, Eq)]
pub struct MLPoly {
    pub n_vars: usize,
    pub evals: Vec<Fe>,
}

impl View for MLPoly {
    type V = Seq<int>;

    open spec fn view(&self) -> Seq<int> {
        self.evals.deep_view()
    }
}

impl Clone for MLPoly {
    fn clone(&self) -> (r: MLPoly)
        ensures
            r.n_vars == self.n_vars,
            r.evals@ == self.evals@,
    {
        MLPoly { n_vars: self.n_vars, evals: self.evals.clone() }
    }
}

/// A table that fits in memory has fewer than 64 variables.
pub proof fn lemma_log_bound(k: nat)
    requires
        pow2(k) <= usize::MAX,
    ensures
        k < 64,
{
    vstd::arithmetic::power2::lemma2_to64_rest();
    if k > 64 {
        lemma_pow2_strictly_increases(64, k);
    }
}

impl MLPoly {
    /// The table has one entry for each point of the hypercube.
    pub open spec fn wf(&self) -> bool {
        self.evals@.len() == pow2(self.n_vars as nat)
    }

    /// The polynomial in `n_vars` variables that is zero everywhere.
    pub fn new(n_vars: usize) -> (r: MLPoly)
        requires
            pow2(n_vars as nat) <= usize::MAX,
        ensures
            r.wf(),
            r.n_vars == n_vars,
            r@ == Seq::new(pow2(n_vars as nat), |i: int| 0int),
    {
        let mut len: usize = 1;
        let mut k: usize = 0;
        proof {
            lemma_pow2_unfold(1);
            assert(pow2(0) == 1) by {
                lemma2_to64();
            }
        }
        while k < n_vars
            invariant
                k <= n_vars,
                len == pow2(k as nat),
                pow2(n_vars as nat) <= usize::MAX,
            decreases n_vars - k,
        {
            proof {
                lemma_pow2_unfold((k + 1) as nat);
                if k + 1 < n_vars {
                    lemma_pow2_strictly_increases((k + 1) as nat, n_vars as nat);
                }
            }
            len = len * 2;
            k = k + 1;
        }
        let mut evals: Vec<Fe> = Vec::with_capacity(len);
        let mut i: usize = 0;
        while i < len
            invariant
                i <= len,
                evals@.len() == i,
                forall|j: int| 0 <= j < i ==> (#[trigger] evals@[j])@ == 0,
            decreases len - i,
        {
            evals.push(Fe::zero());
            i = i + 1;
        }
        let r = MLPoly { n_vars, evals };
        assert(r@ =~= Seq::new(pow2(n_vars as nat), |i: int| 0int));
        r
    }

    /// The polynomial with the given table. The number of entries must be a
    /// power of two; the number of variables is its logarithm.
    pub fn from_evals(evals: Vec<Fe>) -> (r: MLPoly)
        requires
            exists|n: nat| evals@.len() == pow2(n),
        ensures
            r.wf(),
            r.evals == evals,
    {
        let ghost n: nat = choose|n: nat| evals@.len() == pow2(n);
        let mut len: usize = 1;
        let mut k: usize = 0;
        proof {
            assert(pow2(0) == 1) by {
                lemma2_to64();
            }
            lemma_pow2_pos(n);
        }
        while len < evals.len()
            invariant
                len == pow2(k as nat),
                1 <= len <= evals@.len(),
                evals@.len() == pow2(n),
                k <= n,
            decreases evals@.len() - len,
        {
            proof {
                lemma_log_bound(k as nat);
                lemma_pow2_unfold((k + 1) as nat);
                if k + 1 < n {
                    lemma_pow2_strictly_increases((k + 1) as nat, n);
                }
            }
            len = len * 2;
            k = k + 1;
        }
        MLPoly { n_vars: k, evals }
    }

    /// The number of entries of the table.
    pub fn len(&self) -> (r: usize)
        ensures
            r == self@.len(),
    {
        self.evals.len()
    }

    /// Whether the polynomial has no variables left.
    pub fn is_constant(&self) -> (r: bool)
        ensures
            r == (self.n_vars == 0 && self@.len() == 1),
    {
        self.n_vars == 0 && self.evals.len() == 1
    }

    /// The entry at `index`, if the table has one.
    pub fn get(&self, index: usize) -> (r: Option<&Fe>)
        ensures
            index < self@.len() ==> r == Some(&self.evals@[index as int]),
            index >= self@.len() ==> r is None,
    {
        if index < self.evals.len() {
            Some(&self.evals[index])
        } else {
            None
        }
    }

    /// The sum of the polynomial over the hypercube.
    pub fn sum_all(&self) -> (r: Fe)
        ensures
            r@ == total(self@),
    {
        let mut acc = Fe::zero();
        let n = self.evals.len();
        let mut i: usize = 0;
        proof {
            assert(self@.take(0) =~= Seq::<int>::empty());
            lemma_small_mod(0, modulus() as nat);
        }
        while i < n
            invariant
                i <= n,
                n == self.evals@.len(),
                acc@ == total(self@.take(i as int)),
            decreases n - i,
        {
            proof {
                let next = self@.take(i + 1);
                assert(next.drop_last() =~= self@.take(i as int));
                lemma_add_mod_noop(sum(self@.take(i as int)), self@[i as int], modulus());
            }
            acc = acc.plus(self.evals[i]);
            i = i + 1;
        }
        proof {
            assert(self@.take(n as int) =~= self@);
        }
        acc
    }

    /// The polynomial in one variable fewer that fixes the first variable to
    /// `r`: entry `i` is `evals[2i] * (1 - r) + evals[2i + 1] * r`. At 0
    /// these are the entries at even indices, at 1 those at odd indices.
    pub fn fold_first_var(&self, r: Fe) -> (out: MLPoly)
        requires
            self.wf(),
            self.n_vars > 0,
        ensures
            out.wf(),
            out.n_vars == self.n_vars - 1,
            out@ == fold(self@, r@),
            r@ == 0 ==> out@ == evens(self@),
            r@ == 1 ==> out@ == odds(self@),
            all_canonical(self@),
    {
        let n = self.evals.len();
        let half = n / 2;
        let one_minus_r = Fe::one().minus(r);
        let mut out: Vec<Fe> = Vec::with_capacity(half);
        let mut i: usize = 0;
        while i < half
            invariant
                i <= half,
                n == self.evals@.len(),
                half == n / 2,
                one_minus_r@ == fsub(1, r@),
                out@.len() == i,
                forall|j: int| 0 <= j < i ==> (#[trigger] out@[j])@ == fold(self@, r@)[j],
                forall|j: int| 0 <= j < 2 * i ==> is_canonical(#[trigger] self@[j]),
            decreases half - i,
        {
            let lo = self.evals[2 * i].times(one_minus_r);
            let hi = self.evals[2 * i + 1].times(r);
            out.push(lo.plus(hi));
            i = i + 1;
        }
        proof {
            lemma_pow2_unfold(self.n_vars as nat);
            lemma_fold_at_zero(self@);
            lemma_fold_at_one(self@);
        }
        let folded = MLPoly { n_vars: self.n_vars - 1, evals: out };
        assert(folded@ =~= fold(self@, r@));
        folded
    }

    /// Fixes the first `r_vec.len()` variables to `r_vec`, in order.
    pub fn fold_many(&self, r_vec: &[Fe]) -> (out: MLPoly)
        requires
            self.wf(),
            r_vec@.len() <= self.n_vars,
        ensures
            out.wf(),
            out.n_vars == self.n_vars - r_vec@.len(),
            out@ == fold_many(self@, r_vec.deep_view()),
            r_vec@.len() > 0 ==> all_canonical(self@),
    {
        let mut cur = self.clone();
        let mut i: usize = 0;
        proof {
            assert(r_vec.deep_view().take(0) =~= Seq::<int>::empty());
            assert(cur@ =~= self@);
        }
        while i < r_vec.len()
            invariant
                i <= r_vec@.len() <= self.n_vars,
                cur.wf(),
                cur.n_vars == self.n_vars - i,
                cur@ == fold_many(self@, r_vec.deep_view().take(i as int)),
                i > 0 ==> all_canonical(self@),
            decreases r_vec@.len() - i,
        {
            proof {
                let next = r_vec.deep_view().take(i + 1);
                assert(next.drop_last() =~= r_vec.deep_view().take(i as int));
                assert(next.last() == r_vec@[i as int]@);
            }
            cur = cur.fold_first_var(r_vec[i]);
            i = i + 1;
        }
        proof {
            assert(r_vec.deep_view().take(i as int) =~= r_vec.deep_view());
        }
        cur
    }

    /// The value of the multilinear extension at `x`, which has one
    /// coordinate for each variable. At a point of the hypercube it is the
    /// entry that the table holds for that point.
    pub fn eval_at(&self, x: &[Fe]) -> (r: Fe)
        requires
            self.wf(),
            x@.len() == self.n_vars,
        ensures
            r@ == eval(self@, x.deep_view()),
            is_boolean(x.deep_view()) ==> {
                &&& 0 <= index_from_bits(x.deep_view()) < self@.len()
                &&& r@ == self@[index_from_bits(x.deep_view())]
            },
    {
        let cur = self.fold_many(x);
        proof {
            lemma2_to64();
            if is_boolean(x.deep_view()) {
                if self.n_vars > 0 {
                    lemma_eval_at_boolean_point(self@, self.n_vars as nat, x.deep_view());
                } else {
                    assert(index_from_bits(x.deep_view()) == 0);
                }
            }
        }
        cur.evals[0]
    }

    /// The sums of the polynomial over the hypercube with the first variable
    /// fixed to 0 and to 1: the sums of the entries at even and at odd
    /// indices. With at least one variable the two add up to `sum_all`.
    pub fn round_sum_g0_g1(&self) -> (r: (Fe, Fe))
        ensures
            r.0@ == total(evens(self@)),
            r.1@ == total(odds(self@)),
            self@.len() % 2 == 0 ==> fadd(r.0@, r.1@) == total(self@),
    {
        let mut g0 = Fe::zero();
        let mut g1 = Fe::zero();
        let n = self.evals.len();
        let half = n / 2;
        let mut j: usize = 0;
        proof {
            assert(evens(self@).take(0) =~= Seq::<int>::empty());
            assert(odds(self@).take(0) =~= Seq::<int>::empty());
            lemma_small_mod(0, modulus() as nat);
        }
        while j < half
            invariant
                j <= half,
                n == self.evals@.len(),
                half == n / 2,
                g0@ == total(evens(self@).take(j as int)),
                g1@ == total(odds(self@).take(j as int)),
            decreases half - j,
        {
            proof {
                let e = evens(self@);
                let o = odds(self@);
                assert(e.take(j + 1).drop_last() =~= e.take(j as int));
                assert(o.take(j + 1).drop_last() =~= o.take(j as int));
                lemma_add_mod_noop(sum(e.take(j as int)), e[j as int], modulus());
                lemma_add_mod_noop(sum(o.take(j as int)), o[j as int], modulus());
            }
            g0 = g0.plus(self.evals[2 * j]);
            g1 = g1.plus(self.evals[2 * j + 1]);
            j = j + 1;
        }
        proof {
            assert(evens(self@).take(half as int) =~= evens(self@));
            assert(odds(self@).take(half as int) =~= odds(self@));
            if self@.len() % 2 == 0 {
                lemma_round_sums(self@);
            }
        }
        (g0, g1)
    }
}

/// The entries at even indices and those at odd indices add up to all the
/// entries, when there are as many of the one as of the other.
pub proof fn lemma_sum_split(s: Seq<int>)
    requires
        s.len() % 2 == 0,
    ensures
        sum(evens(s)) + sum(odds(s)) == sum(s),
    decreases s.len(),
{
    if s.len() == 0 {
        assert(evens(s) =~= Seq::<int>::empty());
        assert(odds(s) =~= Seq::<int>::empty());
    } else {
        let t = s.take(s.len() - 2);
        lemma_sum_split(t);
        assert(evens(s).drop_last() =~= evens(t));
        assert(odds(s).drop_last() =~= odds(t));
        let u = s.drop_last();
        assert(u.drop_last() =~= t);
        assert(sum(s) == sum(u) + s.last());
        assert(sum(u) == sum(u.drop_last()) + u.last());
        assert(sum(s) == sum(t) + s[s.len() - 2] + s[s.len() - 1]);
        assert(sum(evens(s)) == sum(evens(t)) + s[s.len() - 2]);
        assert(sum(odds(s)) == sum(odds(t)) + s[s.len() - 1]);
    }
}

/// The two sums of a round add up, in the field, to the sum over the whole
/// hypercube.
pub proof fn lemma_round_sums(s: Seq<int>)
    requires
        s.len() % 2 == 0,
    ensures
        fadd(total(evens(s)), total(odds(s))) == total(s),
{
    lemma_sum_split(s);
    lemma_add_mod_noop(sum(evens(s)), sum(odds(s)), modulus());
}

/// Fixing the first variable to 0 leaves the entries at even indices.
pub proof fn lemma_fold_at_zero(s: Seq<int>)
    requires
        all_canonical(s),
    ensures
        fold(s, 0) == evens(s),
{
    assert forall|i: int| 0 <= i < s.len() / 2 implies #[trigger] fold(s, 0)[i] == s[2 * i] by {
        assert(is_canonical(s[2 * i]));
        assert(s[2 * i + 1] * 0 == 0);
        assert(s[2 * i] * 1 == s[2 * i]);
    }
    assert(fold(s, 0) =~= evens(s));
}

/// Fixing the first variable to 1 leaves the entries at odd indices.
pub proof fn lemma_fold_at_one(s: Seq<int>)
    requires
        all_canonical(s),
    ensures
        fold(s, 1) == odds(s),
{
    assert forall|i: int| 0 <= i < s.len() / 2 implies #[trigger] fold(s, 1)[i] == s[2 * i
        + 1] by {
        assert(is_canonical(s[2 * i + 1]));
        assert(s[2 * i] * 0 == 0);
        assert(s[2 * i + 1] * 1 == s[2 * i + 1]);
    }
    assert(fold(s, 1) =~= odds(s));
}

/// Whatever the table, the entries of a folded table are canonical.
pub proof fn lemma_fold_canonical(s: Seq<int>, r: int)
    ensures
        all_canonical(fold(s, r)),
{
}

/// The index of a hypercube point of `k` coordinates is below `2^k`.
pub proof fn lemma_index_bound(x: Seq<int>)
    requires
        is_boolean(x),
    ensures
        0 <= index_from_bits(x) < pow2(x.len()),
    decreases x.len(),
{
    if x.len() == 0 {
        lemma2_to64();
    } else {
        let y = x.drop_last();
        assert(is_boolean(y)) by {
            assert forall|i: int| 0 <= i < y.len() implies #[trigger] y[i] == 0 || y[i] == 1 by {
                assert(y[i] == x[i]);
            }
        }
        lemma_index_bound(y);
        lemma_pow2_unfold(x.len());
        assert(x.last() == 0 || x.last() == 1) by {
            assert(x.last() == x[x.len() - 1]);
        }
        lemma_pow2_pos((x.len() - 1) as nat);
    }
}

/// With its first `k` variables fixed to the coordinates of a hypercube
/// point, a table of `2^n` entries keeps `2^(n - k)` of them: those whose
/// index has the point in its `k` lowest bits.
pub proof fn lemma_fold_many_boolean(s: Seq<int>, n: nat, x: Seq<int>)
    requires
        s.len() == pow2(n),
        all_canonical(s),
        is_boolean(x),
        x.len() <= n,
    ensures
        fold_many(s, x).len() == pow2((n - x.len()) as nat),
        all_canonical(fold_many(s, x)),
        0 <= index_from_bits(x) < pow2(x.len()),
        pow2(x.len()) * pow2((n - x.len()) as nat) == s.len(),
        forall|j: int|
            0 <= j < pow2((n - x.len()) as nat) ==> #[trigger] fold_many(s, x)[j] == s[index_from_bits(
                x,
            ) + pow2(x.len()) * j],
    decreases x.len(),
{
    let k = x.len();
    if k == 0 {
        lemma2_to64();
        assert(pow2(0) == 1);
        assert forall|j: int| 0 <= j < pow2(n) implies #[trigger] fold_many(s, x)[j] == s[index_from_bits(
            x,
        ) + pow2(k) * j] by {
            assert(pow2(k) * j == j);
        }
    } else {
        let y = x.drop_last();
        let b = x.last();
        assert(is_boolean(y)) by {
            assert forall|i: int| 0 <= i < y.len() implies #[trigger] y[i] == 0 || y[i] == 1 by {
                assert(y[i] == x[i]);
            }
        }
        assert(b == 0 || b == 1) by {
            assert(b == x[k - 1]);
        }
        lemma_fold_many_boolean(s, n, y);
        lemma_index_bound(x);
        let t = fold_many(s, y);
        let half = pow2((n - k) as nat);
        let low = pow2((k - 1) as nat);
        lemma_pow2_unfold((n - k + 1) as nat);
        lemma_pow2_unfold(k);
        lemma_pow2_pos((k - 1) as nat);
        lemma_pow2_pos((n - k) as nat);
        lemma_pow2_adds(k, (n - k) as nat);
        assert(t.len() == 2 * half);
        if b == 0 {
            lemma_fold_at_zero(t);
        } else {
            lemma_fold_at_one(t);
        }
        assert(fold_many(s, x).len() == half);
        lemma_fold_canonical(t, b);
        assert forall|j: int| 0 <= j < half implies #[trigger] fold_many(s, x)[j] == s[index_from_bits(
            x,
        ) + pow2(k) * j] by {
            let src = 2 * j + b;
            assert(fold_many(s, x)[j] == t[src]);
            assert(t[src] == s[index_from_bits(y) + low * src]);
            assert(low * src == b * low + pow2(k) * j) by (nonlinear_arith)
                requires
                    src == 2 * j + b,
                    pow2(k) == 2 * low,
            ;
        }
    }
}

/// At a point of the hypercube the multilinear extension takes the value
/// that the table holds for that point.
pub proof fn lemma_eval_at_boolean_point(s: Seq<int>, n: nat, x: Seq<int>)
    requires
        s.len() == pow2(n),
        all_canonical(s),
        is_boolean(x),
        x.len() == n,
    ensures
        0 <= index_from_bits(x) < s.len(),
        eval(s, x) == s[index_from_bits(x)],
{
    lemma_fold_many_boolean(s, n, x);
    lemma2_to64();
    assert(pow2(n) * 0 == 0);
    assert(fold_many(s, x)[0] == s[index_from_bits(x) + pow2(n) * 0]);
}

/// The line through two entries is, modulo the field order, the integer
/// `a * (1 - r) + b * r`.
pub proof fn lemma_interpolate_congruent(a: int, b: int, r: int)
    ensures
        interpolate(a, b, r) == (a * (1 - r) + b * r) % modulus(),
{
    let p = modulus();
    lemma_mul_mod_noop_right(a, 1 - r, p);
    lemma_add_mod_noop(a * (1 - r), b * r, p);
}

/// The sum of a folded table is, modulo the field order, the line through
/// the sums of the even and of the odd entries.
pub proof fn lemma_sum_fold_congruent(s: Seq<int>, r: int)
    requires
        s.len() % 2 == 0,
    ensures
        sum(fold(s, r)) % modulus() == ((1 - r) * sum(evens(s)) + r * sum(odds(s))) % modulus(),
    decreases s.len(),
{
    let p = modulus();
    if s.len() == 0 {
        assert(fold(s, r) =~= Seq::<int>::empty());
        assert(evens(s) =~= Seq::<int>::empty());
        assert(odds(s) =~= Seq::<int>::empty());
        assert((1 - r) * 0 + r * 0 == 0) by (nonlinear_arith);
    } else {
        let t = s.take(s.len() - 2);
        let a = s[s.len() - 2];
        let b = s[s.len() - 1];
        lemma_sum_fold_congruent(t, r);
        assert(fold(s, r).drop_last() =~= fold(t, r));
        assert(evens(s).drop_last() =~= evens(t));
        assert(odds(s).drop_last() =~= odds(t));
        let x = sum(fold(t, r));
        let i = interpolate(a, b, r);
        let x1 = (1 - r) * sum(evens(t)) + r * sum(odds(t));
        let i1 = a * (1 - r) + b * r;
        assert(sum(fold(s, r)) == x + i);
        assert(sum(evens(s)) == sum(evens(t)) + a);
        assert(sum(odds(s)) == sum(odds(t)) + b);
        lemma_interpolate_congruent(a, b, r);
        lemma_mod_twice(i1, p);
        lemma_add_mod_noop(x, i, p);
        lemma_add_mod_noop(x1, i1, p);
        assert(x1 + i1 == (1 - r) * (sum(evens(t)) + a) + r * (sum(odds(t)) + b))
            by (nonlinear_arith)
            requires
                x1 == (1 - r) * sum(evens(t)) + r * sum(odds(t)),
                i1 == a * (1 - r) + b * r,
        ;
    }
}

} // verus!
