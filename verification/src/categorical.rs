//! The categorical distribution: `k` outcomes `0..k`, each with a weight.

use vstd::prelude::*;
use crate::arithmetic::{
    plus,
    over,
    from_count,
    is_operand,
    lemma_quotients_rise,
    lemma_scaled_below,
    lemma_sum_of_weights,
    lemma_units_of_one,
    times,
    of_count,
    product,
    quotient,
    sum,
    ONE,
};
use crate::binary64::{
    ge,
    greater,
    gt,
    is_count,
    is_infinite,
    is_nan,
    is_negative,
    is_weight,
    is_zero,
    lemma_count_by_whole_part,
    lemma_units_order,
    lemma_whole_part_rises,
    weight,
    whole,
    whole_exactly,
    whole_part,
    within,
    zero,
};
use crate::error::StatsError;

verus! {

/// Whether `p` can weigh the outcomes of a distribution: every entry is a
/// number that is zero or above, and at least one entry is not zero. The
/// empty sequence has no such entry.
pub open spec fn valid_prob_mass(p: Seq<u64>) -> bool {
    &&& forall|i: int| 0 <= i < p.len() ==> is_weight(#[trigger] p[i])
    &&& exists|i: int| 0 <= i < p.len() && !is_zero(#[trigger] p[i])
}

/// The sum of the weights of the outcomes `0..=i`, added up from the left.
pub open spec fn total_at(p: Seq<u64>, i: int) -> u64
    decreases i,
{
    if i <= 0 {
        p[0]
    } else {
        sum(total_at(p, i - 1), p[i])
    }
}

/// The cumulative weights of `p`: for each outcome the sum up to it.
pub open spec fn running_totals(p: Seq<u64>) -> Seq<u64> {
    Seq::new(p.len(), |i: int| total_at(p, i))
}

/// The sum of all the weights.
pub open spec fn total(p: Seq<u64>) -> u64 {
    total_at(p, p.len() - 1)
}

/// The probability masses of `p`: each weight over the sum of all.
pub open spec fn masses_of(p: Seq<u64>) -> Seq<u64> {
    Seq::new(p.len(), |i: int| quotient(p[i], total(p)))
}

/// The sum of the first `n` masses of `m`, each times its outcome, added up
/// from the left and beginning with zero.
pub open spec fn mean_upto(m: Seq<u64>, n: int) -> u64
    decreases n,
{
    if n <= 0 {
        0
    } else {
        sum(mean_upto(m, n - 1), product(of_count((n - 1) as nat), m[n - 1]))
    }
}

/// The mean of the distribution with the masses `m`.
pub open spec fn mean_of(m: Seq<u64>) -> u64 {
    mean_upto(m, m.len() as int)
}

/// Whether `c` can serve as the cumulative weights of a distribution: not
/// empty, weights throughout, never falling, and ending above zero.
pub open spec fn is_cumulative(c: Seq<u64>) -> bool {
    &&& c.len() > 0
    &&& forall|i: int| 0 <= i < c.len() ==> is_weight(#[trigger] c[i])
    &&& forall|i: int, j: int| 0 <= i <= j < c.len() ==> ge(#[trigger] c[j], #[trigger] c[i])
    &&& !is_zero(c.last())
}

/// Whether `u` can be a uniform draw: a number from zero up to, but not
/// at, one.
pub open spec fn is_uniform(u: u64) -> bool {
    is_weight(u) && gt(ONE, u)
}

/// Where the draw `draw` lands among the cumulative weights `c`: on the
/// first outcome whose cumulative weight the draw does not exceed or, for a
/// draw of zero, on the first outcome whose cumulative weight is not zero.
pub open spec fn lands_on(c: Seq<u64>, draw: u64, idx: int) -> bool {
    &&& 0 <= idx < c.len()
    &&& if is_zero(draw) {
        &&& !is_zero(c[idx])
        &&& forall|j: int| 0 <= j < idx ==> is_zero(#[trigger] c[j])
    } else {
        &&& !gt(draw, c[idx])
        &&& forall|j: int| 0 <= j < idx ==> gt(draw, #[trigger] c[j])
    }
}

/// Weights are valid exactly when there is at least one of them, none is
/// below zero, none is a NaN, and not all of them are zero.
pub proof fn lemma_valid_prob_mass(p: Seq<u64>)
    ensures
        valid_prob_mass(p) <==> {
            &&& p.len() > 0
            &&& !(exists|i: int| 0 <= i < p.len() && is_negative(#[trigger] p[i]))
            &&& !(exists|i: int| 0 <= i < p.len() && is_nan(#[trigger] p[i]))
            &&& !(forall|i: int| 0 <= i < p.len() ==> is_zero(#[trigger] p[i]))
        },
{
    if valid_prob_mass(p) {
        let w = choose|i: int| 0 <= i < p.len() && !is_zero(#[trigger] p[i]);
        assert(!is_zero(p[w]));
        assert forall|i: int| 0 <= i < p.len() implies !is_negative(#[trigger] p[i]) && !is_nan(
            p[i],
        ) by {
            assert(is_weight(p[i]));
        }
    }
}

/// The running totals of valid weights are weights that never fall, each
/// at least the weight at its place.
pub proof fn lemma_totals_rise(p: Seq<u64>, i: int, j: int)
    requires
        valid_prob_mass(p),
        0 <= i <= j < p.len(),
    ensures
        is_weight(total_at(p, i)),
        is_weight(total_at(p, j)),
        ge(total_at(p, j), total_at(p, i)),
        ge(total_at(p, i), p[i]),
    decreases j,
{
    assert(is_weight(p[0]));
    assert(is_weight(p[i]));
    assert(is_weight(p[j]));
    if j > 0 {
        if i < j {
            lemma_totals_rise(p, i, j - 1);
        } else {
            lemma_totals_rise(p, i - 1, j - 1);
        }
        lemma_sum_of_weights(total_at(p, j - 1), p[j]);
    }
}

/// The running totals of valid weights are cumulative weights.
pub proof fn lemma_totals_are_cumulative(p: Seq<u64>)
    requires
        valid_prob_mass(p),
    ensures
        is_cumulative(running_totals(p)),
        running_totals(p).last() == total(p),
{
    let c = running_totals(p);
    assert forall|i: int, j: int| 0 <= i <= j < c.len() implies ge(#[trigger] c[j], #[trigger] c[i])
        by {
        lemma_totals_rise(p, i, j);
    }
    assert forall|i: int| 0 <= i < c.len() implies is_weight(#[trigger] c[i]) by {
        lemma_totals_rise(p, i, i);
    }
    let w = choose|i: int| 0 <= i < p.len() && !is_zero(#[trigger] p[i]);
    let last = p.len() - 1;
    lemma_totals_rise(p, w, last);
    assert(is_weight(p[w]));
    lemma_units_order(p[w], p[w]);
    lemma_units_order(c[w], c[w]);
    lemma_units_order(c[last], c[last]);
}

/// As long as the sum of the weights is finite, each mass is a number from
/// zero to one, and zero where the weight is.
pub proof fn lemma_masses_are_shares(p: Seq<u64>, i: int)
    requires
        valid_prob_mass(p),
        !is_infinite(total(p)),
        0 <= i < p.len(),
    ensures
        is_weight(masses_of(p)[i]),
        ge(ONE, masses_of(p)[i]),
        is_zero(p[i]) ==> is_zero(masses_of(p)[i]),
{
    lemma_totals_are_cumulative(p);
    lemma_totals_rise(p, i, p.len() - 1);
    assert(is_weight(p[i]));
    lemma_quotients_rise(p[i], p[i], total(p));
    lemma_units_order(p[i], p[i]);
}

/// A draw lands on one outcome only.
pub proof fn lemma_lands_on_one(c: Seq<u64>, draw: u64, i: int, j: int)
    requires
        lands_on(c, draw, i),
        lands_on(c, draw, j),
    ensures
        i == j,
{
    if i < j {
        assert(is_zero(draw) ==> is_zero(c[i]));
        assert(!is_zero(draw) ==> gt(draw, c[i]));
    }
    if j < i {
        assert(is_zero(draw) ==> is_zero(c[j]));
        assert(!is_zero(draw) ==> gt(draw, c[j]));
    }
}

/// A uniform draw, scaled by the sum of the weights, never lands on an
/// outcome whose weight is zero, unless the draw is zero and the sum is
/// infinite, when the scaled draw is no number.
pub proof fn lemma_sample_has_weight(p: Seq<u64>, uniform: u64, idx: int)
    requires
        valid_prob_mass(p),
        is_uniform(uniform),
        !(is_zero(uniform) && is_infinite(total(p))),
        lands_on(running_totals(p), product(uniform, total(p)), idx),
    ensures
        !is_zero(p[idx]),
{
    let c = running_totals(p);
    let draw = product(uniform, total(p));
    lemma_totals_are_cumulative(p);
    lemma_units_of_one();
    lemma_units_order(uniform, uniform);
    lemma_scaled_below(uniform, total(p));
    assert(is_weight(draw));
    lemma_totals_rise(p, idx, idx);
    lemma_units_order(draw, draw);
    lemma_units_order(c[idx], c[idx]);
    if idx > 0 {
        lemma_totals_rise(p, idx - 1, idx);
        lemma_units_order(c[idx - 1], c[idx - 1]);
        lemma_sum_of_weights(c[idx - 1], p[idx]);
        if is_zero(draw) {
            assert(is_zero(c[idx - 1]));
        } else {
            assert(gt(draw, c[idx - 1]));
        }
    }
}

/// Decides [`valid_prob_mass`].
pub fn is_valid_prob_mass(p: &[u64]) -> (r: bool)
    ensures
        r == valid_prob_mass(p@),
{
    let n: usize = p.len();
    let mut seen: bool = false;
    let mut i: usize = 0;
    while i < n
        invariant
            i <= n,
            n == p@.len(),
            forall|j: int| 0 <= j < i ==> is_weight(#[trigger] p@[j]),
            seen <==> exists|j: int| 0 <= j < i && !is_zero(#[trigger] p@[j]),
        decreases n - i,
    {
        let x: u64 = p[i];
        if !weight(x) {
            return false;
        }
        if !zero(x) {
            seen = true;
        }
        i = i + 1;
    }
    seen
}

/// A categorical distribution over the outcomes `0..k`.
///
/// It holds, by their encodings, the probability mass of each outcome and
/// the cumulative weights: the running totals of the weights it was made
/// from, not divided by their sum.
#[derive(Debug)]
pub struct Categorical {
    norm_pmf: Vec<u64>,
    cdf: Vec<u64>,
}

impl Categorical {
    /// The cumulative weights, one for each outcome.
    pub closed spec fn cumulative(&self) -> Seq<u64> {
        self.cdf@
    }

    /// The probability masses, one for each outcome.
    pub closed spec fn masses(&self) -> Seq<u64> {
        self.norm_pmf@
    }

    /// The number of outcomes, `k`.
    pub open spec fn outcomes(&self) -> nat {
        self.cumulative().len()
    }

    /// What holds of every distribution: its cumulative weights are
    /// cumulative, and it has a mass for each of them, which is a weight
    /// or a NaN.
    pub open spec fn wf(&self) -> bool {
        &&& is_cumulative(self.cumulative())
        &&& self.masses().len() == self.cumulative().len()
        &&& forall|i: int| 0 <= i < self.masses().len() ==> is_operand(#[trigger] self.masses()[i])
    }

    #[verifier::type_invariant]
    spec fn inv(&self) -> bool {
        self.wf()
    }

    /// Makes a distribution over `prob_mass.len()` outcomes from their
    /// weights, which need not sum to one.
    ///
    /// The cumulative weights are the sums of the weights from the left,
    /// and each mass is its weight over the last of these sums. Weights
    /// that are not valid give `BadParams`.
    pub fn new(prob_mass: &[u64]) -> (r: Result<Categorical, StatsError>)
        ensures
            r is Ok <==> valid_prob_mass(prob_mass@),
            r matches Ok(c) ==> c.wf() && c.outcomes() == prob_mass@.len() && c.cumulative()
                == running_totals(prob_mass@) && c.masses() == masses_of(prob_mass@),
            r matches Err(e) ==> e == StatsError::BadParams,
    {
        if !is_valid_prob_mass(prob_mass) {
            return Err(StatsError::BadParams);
        }
        let ghost p = prob_mass@;
        let n: usize = prob_mass.len();
        let mut cdf: Vec<u64> = Vec::new();
        cdf.push(prob_mass[0]);
        let mut i: usize = 1;
        while i < n
            invariant
                1 <= i <= n,
                n == p.len(),
                p == prob_mass@,
                valid_prob_mass(p),
                cdf@.len() == i,
                forall|j: int| 0 <= j < i ==> #[trigger] cdf@[j] == total_at(p, j),
            decreases n - i,
        {
            proof {
                lemma_totals_rise(p, i - 1, i - 1);
                assert(is_weight(p[i as int]));
            }
            let val: u64 = plus(cdf[i - 1], prob_mass[i]);
            cdf.push(val);
            i = i + 1;
        }
        proof {
            lemma_totals_are_cumulative(p);
            assert(cdf@ =~= running_totals(p));
        }
        let sum: u64 = cdf[n - 1];
        let mut norm_pmf: Vec<u64> = Vec::new();
        let mut i: usize = 0;
        while i < n
            invariant
                i <= n,
                n == p.len(),
                p == prob_mass@,
                valid_prob_mass(p),
                sum == total(p),
                is_weight(sum),
                !is_zero(sum),
                norm_pmf@.len() == i,
                forall|j: int| 0 <= j < i ==> #[trigger] norm_pmf@[j] == quotient(p[j], sum),
                forall|j: int| 0 <= j < i ==> is_operand(#[trigger] norm_pmf@[j]),
            decreases n - i,
        {
            proof {
                assert(is_weight(p[i as int]));
            }
            let mass: u64 = over(prob_mass[i], sum);
            norm_pmf.push(mass);
            i = i + 1;
        }
        proof {
            assert(norm_pmf@ =~= masses_of(p));
        }
        Ok(Categorical { norm_pmf, cdf })
    }

    /// The last cumulative weight: the sum of all weights.
    pub fn cdf_max(&self) -> (r: u64)
        ensures
            self.wf(),
            r == self.cumulative().last(),
            is_weight(r),
            !is_zero(r),
    {
        proof {
            use_type_invariant(self);
        }
        self.cdf[self.cdf.len() - 1]
    }

    /// The cumulative weights, in the order of the outcomes.
    pub fn totals(&self) -> (r: &Vec<u64>)
        ensures
            self.wf(),
            r@ == self.cumulative(),
    {
        proof {
            use_type_invariant(self);
        }
        &self.cdf
    }

    /// The probability masses, in the order of the outcomes.
    pub fn norm_pmf(&self) -> (r: &Vec<u64>)
        ensures
            self.wf(),
            r@ == self.masses(),
    {
        proof {
            use_type_invariant(self);
        }
        &self.norm_pmf
    }

    /// The outcome on which the scaled draw `draw` lands.
    ///
    /// The search runs from outcome 0 upwards. It ends within the outcomes
    /// because the draw does not exceed the last cumulative weight; a draw of
    /// zero first passes the outcomes whose cumulative weight is zero, which
    /// ends because the last one is not.
    pub fn locate(&self, draw: u64) -> (idx: usize)
        requires
            !gt(draw, self.cumulative().last()),
        ensures
            self.wf(),
            lands_on(self.cumulative(), draw, idx as int),
    {
        proof {
            use_type_invariant(self);
        }
        let n: usize = self.cdf.len();
        let mut idx: usize = 0;
        if zero(draw) {
            while zero(self.cdf[idx])
                invariant
                    n == self.cdf@.len(),
                    idx < n,
                    !is_zero(self.cdf@[n - 1]),
                    forall|j: int| 0 <= j < idx ==> is_zero(#[trigger] self.cdf@[j]),
                decreases n - idx,
            {
                idx = idx + 1;
            }
            proof {
                lemma_units_order(draw, draw);
                lemma_units_order(self.cdf@[idx as int], self.cdf@[idx as int]);
                assert(is_weight(self.cdf@[idx as int]));
            }
        }
        while greater(draw, self.cdf[idx])
            invariant
                n == self.cdf@.len(),
                idx < n,
                !gt(draw, self.cdf@[n - 1]),
                !is_zero(draw) ==> forall|j: int| 0 <= j < idx ==> gt(draw, #[trigger] self.cdf@[j]),
                is_zero(draw) ==> !gt(draw, self.cdf@[idx as int]),
                is_zero(draw) ==> !is_zero(self.cdf@[idx as int]),
                is_zero(draw) ==> forall|j: int| 0 <= j < idx ==> is_zero(#[trigger] self.cdf@[j]),
            decreases n - idx,
        {
            idx = idx + 1;
        }
        idx
    }

    /// The outcome that the uniform draw `uniform` from `[0, 1)` selects:
    /// the one on which the draw, scaled by the sum of the weights, lands.
    pub fn sample(&self, uniform: u64) -> (idx: usize)
        requires
            is_uniform(uniform),
        ensures
            self.wf(),
            lands_on(
                self.cumulative(),
                product(uniform, self.cumulative().last()),
                idx as int,
            ),
    {
        let sum: u64 = self.cdf_max();
        proof {
            lemma_units_of_one();
            lemma_units_order(uniform, uniform);
            lemma_scaled_below(uniform, sum);
        }
        let draw: u64 = times(uniform, sum);
        self.locate(draw)
    }

    /// Whether the distribution function is defined at the point `x`: it is
    /// a number from zero to `k`, both included.
    pub open spec fn in_domain(&self, x: u64) -> bool {
        within(x, self.outcomes())
    }

    /// The distribution function at the point `x`: one at `k`, and below `k`
    /// the cumulative weight of the outcome that is the whole part of `x`,
    /// over the last cumulative weight.
    pub open spec fn cdf_at(&self, x: u64) -> u64 {
        if is_count(x, self.outcomes()) {
            ONE
        } else {
            quotient(self.cumulative()[whole_part(x) as int], self.cumulative().last())
        }
    }

    /// Decides [`Categorical::in_domain`].
    pub fn admits(&self, x: u64) -> (r: bool)
        ensures
            r == self.in_domain(x),
    {
        proof {
            use_type_invariant(self);
            lemma_count_by_whole_part(x, self.outcomes());
        }
        if !weight(x) {
            return false;
        }
        let k: u64 = self.cdf.len() as u64;
        match whole(x) {
            Some(w) => w < k || (w == k && whole_exactly(x)),
            None => false,
        }
    }

    /// The cumulative distribution function at the point `x`.
    pub fn cdf(&self, x: u64) -> (r: u64)
        requires
            self.in_domain(x),
        ensures
            self.wf(),
            r == self.cdf_at(x),
    {
        proof {
            use_type_invariant(self);
            lemma_count_by_whole_part(x, self.outcomes());
        }
        let k: usize = self.cdf.len();
        let w: u64 = match whole(x) {
            Some(w) => w,
            None => k as u64,
        };
        if w >= k as u64 {
            ONE
        } else {
            over(self.cdf[w as usize], self.cdf[k - 1])
        }
    }

    /// The distribution function never falls and never exceeds one, as long
    /// as the sum of the weights is finite: at a point that is not below
    /// another it is not below what it is there.
    pub proof fn lemma_cdf_rises(self, x: u64, y: u64)
        requires
            self.wf(),
            self.in_domain(x),
            self.in_domain(y),
            ge(y, x),
            !is_infinite(self.cumulative().last()),
        ensures
            is_weight(self.cdf_at(x)),
            ge(self.cdf_at(y), self.cdf_at(x)),
            ge(ONE, self.cdf_at(y)),
    {
        let k = self.outcomes();
        let c = self.cumulative();
        lemma_units_of_one();
        lemma_units_order(x, x);
        lemma_units_order(y, y);
        lemma_units_order(ONE, ONE);
        lemma_count_by_whole_part(x, k);
        lemma_count_by_whole_part(y, k);
        lemma_whole_part_rises(x, y);
        let wx = whole_part(x) as int;
        let wy = whole_part(y) as int;
        if !is_count(x, k) {
            assert(ge(c[k - 1], c[wx]));
            lemma_quotients_rise(c[wx], c[wx], c.last());
            if !is_count(y, k) {
                assert(ge(c[wy], c[wx]));
                assert(ge(c[k - 1], c[wy]));
                lemma_quotients_rise(c[wx], c[wy], c.last());
            }
        }
    }

    /// The distribution function is a step function: it is one at `k`, and
    /// below `k` it reads the outcome that is the point's whole part, so it
    /// is the same at all points that share their whole part.
    pub proof fn lemma_cdf_steps(self, x: u64, y: u64)
        requires
            self.wf(),
            self.in_domain(x),
            self.in_domain(y),
        ensures
            is_count(x, self.outcomes()) ==> self.cdf_at(x) == ONE,
            !is_count(x, self.outcomes()) ==> whole_part(x) < self.outcomes(),
            !is_count(x, self.outcomes()) && !is_count(y, self.outcomes()) && whole_part(x)
                == whole_part(y) ==> self.cdf_at(x) == self.cdf_at(y),
    {
        lemma_count_by_whole_part(x, self.outcomes());
    }

    /// The smallest outcome.
    pub fn min(&self) -> (r: u64)
        ensures
            r == 0,
    {
        0
    }

    /// The largest outcome, `k - 1`.
    pub fn max(&self) -> (r: u64)
        ensures
            self.wf(),
            r == self.outcomes() - 1,
    {
        proof {
            use_type_invariant(self);
        }
        self.cdf.len() as u64 - 1
    }

    /// The mean: the sum over the outcomes of each outcome times its mass,
    /// added up in the order of the outcomes.
    pub fn mean(&self) -> (r: u64)
        ensures
            self.wf(),
            r == mean_of(self.masses()),
    {
        proof {
            use_type_invariant(self);
        }
        let n: usize = self.norm_pmf.len();
        let mut acc: u64 = 0;
        let mut i: usize = 0;
        while i < n
            invariant
                i <= n,
                n == self.norm_pmf@.len(),
                forall|j: int| 0 <= j < n ==> is_operand(#[trigger] self.norm_pmf@[j]),
                acc == mean_upto(self.norm_pmf@, i as int),
                is_operand(acc),
            decreases n - i,
        {
            let outcome: u64 = from_count(i as u64);
            let term: u64 = times(outcome, self.norm_pmf[i]);
            acc = plus(acc, term);
            i = i + 1;
        }
        acc
    }
}

impl Clone for Categorical {
    /// A distribution with the same masses and cumulative weights.
    fn clone(&self) -> (r: Self)
        ensures
            r.wf(),
            r.cumulative() == self.cumulative(),
            r.masses() == self.masses(),
    {
        proof {
            use_type_invariant(self);
        }
        let norm_pmf: Vec<u64> = self.norm_pmf.clone();
        let cdf: Vec<u64> = self.cdf.clone();
        assert(norm_pmf@ =~= self.norm_pmf@);
        assert(cdf@ =~= self.cdf@);
        Categorical { norm_pmf, cdf }
    }
}

} // verus!
