//! Mean and population variance of elapsed times.
//!
//! Elapsed times are whole microseconds. The statistics are kept exact: a
//! count `n`, the sum of the samples, and `n` times the sum of their squares
//! less the square of their sum. The mean is the sum over `n`, the population
//! variance the last figure over `n * n`.

use vstd::prelude::*;

verus! {

/// The sum of the samples.
pub open spec fn sum(samples: Seq<u64>) -> int
    decreases samples.len(),
{
    if samples.len() == 0 {
        0
    } else {
        sum(samples.drop_last()) + samples.last()
    }
}

/// The sum of the squares of the samples.
pub open spec fn sum_of_squares(samples: Seq<u64>) -> int
    decreases samples.len(),
{
    if samples.len() == 0 {
        0
    } else {
        sum_of_squares(samples.drop_last()) + samples.last() * samples.last()
    }
}

/// The population variance of the samples, times the square of their number.
pub open spec fn spread(samples: Seq<u64>) -> int {
    samples.len() * sum_of_squares(samples) - sum(samples) * sum(samples)
}

/// The sum of `(n * x - t) * (n * x - t)` over the samples `x`. With `n` the
/// number of samples and `t` their sum, each term is the square of a
/// sample's distance from the mean, times `n * n`.
pub open spec fn square_deviations(samples: Seq<u64>, n: int, t: int) -> int
    decreases samples.len(),
{
    if samples.len() == 0 {
        0
    } else {
        square_deviations(samples.drop_last(), n, t) + (n * samples.last() - t) * (n
            * samples.last() - t)
    }
}

/// Whether the statistics of the samples exist and fit in 128 bits: there is
/// a sample, and their number times the sum of their squares fits.
pub open spec fn summable(samples: Seq<u64>) -> bool {
    samples.len() > 0 && samples.len() * sum_of_squares(samples) <= u128::MAX
}

/// Exact statistics of a run's elapsed times.
#[derive(Clone, Copy, Debug, PartialEq, Eq, Structural)]
pub struct Stats {
    /// The number of samples.
    pub count: usize,
    /// The sum of the samples.
    pub total: u128,
    /// The population variance, times the square of `count`.
    pub spread: u128,
}

impl Stats {
    /// Whether these are the statistics of `samples`.
    pub open spec fn describes(&self, samples: Seq<u64>) -> bool {
        &&& samples.len() > 0
        &&& self.count == samples.len()
        &&& self.total == sum(samples)
        &&& self.spread == spread(samples)
    }

    /// The mean, rounded down to whole microseconds.
    pub fn mean(&self) -> (mean: u128)
        requires
            self.count > 0,
        ensures
            mean == self.total / (self.count as u128),
    {
        self.total / (self.count as u128)
    }

    /// The population variance, rounded down to whole square microseconds.
    pub fn variance(&self) -> (variance: u128)
        requires
            self.count > 0,
        ensures
            variance == self.spread as int / (self.count * self.count),
    {
        let n: u128 = self.count as u128;
        assert(n * n <= u128::MAX && n * n > 0) by (nonlinear_arith)
            requires
                0 < n <= u64::MAX,
        ;
        self.spread / (n * n)
    }
}

proof fn lemma_sums_of_prefix(samples: Seq<u64>, k: int)
    requires
        0 <= k <= samples.len(),
    ensures
        0 <= sum(samples.take(k)) <= sum(samples),
        sum(samples.take(k)) <= k * u64::MAX,
        0 <= sum_of_squares(samples.take(k)) <= sum_of_squares(samples),
    decreases samples.len() - k,
{
    if k == samples.len() {
        assert(samples.take(k) =~= samples);
        lemma_sums_bounded(samples);
    } else {
        lemma_sums_of_prefix(samples, k + 1);
        assert(samples.take(k + 1).drop_last() =~= samples.take(k));
        assert(samples[k] * samples[k] >= 0) by (nonlinear_arith);
        lemma_sums_bounded(samples.take(k));
    }
}

proof fn lemma_sums_bounded(samples: Seq<u64>)
    ensures
        0 <= sum(samples) <= samples.len() * u64::MAX,
        0 <= sum_of_squares(samples),
    decreases samples.len(),
{
    if samples.len() > 0 {
        lemma_sums_bounded(samples.drop_last());
        assert(samples.last() * samples.last() >= 0) by (nonlinear_arith);
    }
}

proof fn lemma_square_deviations(samples: Seq<u64>, n: int, t: int)
    ensures
        square_deviations(samples, n, t) >= 0,
        square_deviations(samples, n, t) == n * n * sum_of_squares(samples) - 2 * n * t * sum(
            samples,
        ) + samples.len() * t * t,
    decreases samples.len(),
{
    if samples.len() > 0 {
        let rest = samples.drop_last();
        let x = samples.last() as int;
        let q = sum_of_squares(rest);
        let s = sum(rest);
        let k = rest.len() as int;
        lemma_square_deviations(rest, n, t);
        assert((n * x - t) * (n * x - t) >= 0) by (nonlinear_arith);
        assert(n * n * q - 2 * n * t * s + k * t * t + (n * x - t) * (n * x - t) == n * n * (q + x
            * x) - 2 * n * t * (s + x) + (k + 1) * t * t) by (nonlinear_arith);
    }
}

/// The variance is the population variance: the squared distances of the
/// samples from their mean, summed and divided by the number of samples.
/// Scaled to whole numbers, `n * spread` is the sum of the squares of
/// `n * x - sum` over the samples `x`; so the spread is never negative.
pub proof fn lemma_spread_is_population_variance(samples: Seq<u64>)
    ensures
        samples.len() * spread(samples) == square_deviations(
            samples,
            samples.len() as int,
            sum(samples),
        ),
        spread(samples) >= 0,
{
    let n = samples.len() as int;
    let t = sum(samples);
    let q = sum_of_squares(samples);
    lemma_square_deviations(samples, n, t);
    assert(n * n * q - 2 * n * t * t + n * t * t == n * (n * q - t * t)) by (nonlinear_arith);
    if n > 0 {
        assert(n * q - t * t >= 0) by (nonlinear_arith)
            requires
                n > 0,
                n * (n * q - t * t) >= 0,
        ;
    }
}

proof fn lemma_sums_without(samples: Seq<u64>, i: int)
    requires
        0 <= i < samples.len(),
    ensures
        sum(samples) == sum(samples.remove(i)) + samples[i],
        sum_of_squares(samples) == sum_of_squares(samples.remove(i)) + samples[i] * samples[i],
    decreases samples.len(),
{
    if i == samples.len() - 1 {
        assert(samples.remove(i) =~= samples.drop_last());
    } else {
        lemma_sums_without(samples.drop_last(), i);
        assert(samples.remove(i).drop_last() =~= samples.drop_last().remove(i));
    }
}

/// The statistics do not depend on the order in which the samples arrive:
/// two sequences that hold the same samples, each as often as the other,
/// have the same sum, the same sum of squares and the same spread.
pub proof fn lemma_order_independent(a: Seq<u64>, b: Seq<u64>)
    requires
        a.to_multiset() == b.to_multiset(),
    ensures
        a.len() == b.len(),
        sum(a) == sum(b),
        sum_of_squares(a) == sum_of_squares(b),
        spread(a) == spread(b),
    decreases a.len(),
{
    a.to_multiset_ensures();
    b.to_multiset_ensures();
    if a.len() > 0 {
        let x = a.last();
        assert(a.contains(x));
        assert(b.to_multiset().count(x) > 0);
        assert(b.contains(x));
        let i = choose|i: int| 0 <= i < b.len() && b[i] == x;
        assert(a.drop_last() =~= a.remove(a.len() - 1));
        lemma_order_independent(a.drop_last(), b.remove(i));
        lemma_sums_without(b, i);
    }
}

/// Reduces the elapsed times of a run to their statistics.
///
/// There are none for an empty run, nor where the number of samples times
/// the sum of their squares does not fit in 128 bits.
pub fn aggregate(samples: &[u64]) -> (stats: Option<Stats>)
    ensures
        stats is Some <==> summable(samples@),
        stats matches Some(s) ==> s.describes(samples@),
{
    let n: usize = samples.len();
    if n == 0 {
        return None;
    }
    let mut total: u128 = 0;
    let mut squares: u128 = 0;
    let mut i: usize = 0;
    while i < n
        invariant
            i <= n,
            n == samples@.len(),
            total == sum(samples@.take(i as int)),
            squares == sum_of_squares(samples@.take(i as int)),
        decreases n - i,
    {
        let x: u128 = samples[i] as u128;
        proof {
            lemma_sums_of_prefix(samples@, i as int);
            lemma_sums_of_prefix(samples@, i + 1);
            assert(samples@.take(i + 1).drop_last() =~= samples@.take(i as int));
            assert(x * x <= u128::MAX) by (nonlinear_arith)
                requires
                    x <= u64::MAX,
            ;
            assert((i + 1) * u64::MAX <= u128::MAX) by (nonlinear_arith)
                requires
                    i < u64::MAX,
            ;
        }
        total = total + x;
        match squares.checked_add(x * x) {
            Some(more) => {
                squares = more;
            },
            None => {
                proof {
                    assert(n * sum_of_squares(samples@) >= sum_of_squares(samples@))
                        by (nonlinear_arith)
                        requires
                            n >= 1,
                            sum_of_squares(samples@) >= 0,
                    ;
                }
                return None;
            },
        }
        i = i + 1;
    }
    assert(samples@.take(n as int) =~= samples@);
    match (n as u128).checked_mul(squares) {
        None => None,
        Some(scaled) => {
            proof {
                lemma_spread_is_population_variance(samples@);
            }
            Some(Stats { count: n, total, spread: scaled - total * total })
        },
    }
}

} // verus!
