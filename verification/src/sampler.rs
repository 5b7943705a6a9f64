//! Weighted sampling and dice draws, built on the `rand` crate.
//!
//! The weighted-index distribution and the uniform draws are the only places
//! where randomness enters the crate; both are wrapped behind trusted
//! contracts that state what holds of every outcome.
use vstd::prelude::*;

use crate::model::PART_BOUND;
use crate::model::TableError;
use vstd::string::StringExecFns;

verus! {

/// A weighted-index distribution: the weighted-sampling structure of a
/// table, built once from the rule weights. The field is a `WeightedIndex`
/// of the `rand` crate, opaque to the verifier and described by
/// [`dist_weights`].
#[verifier::external_body]
#[derive(Debug, PartialEq)]
pub struct WeightedDist {
    inner: rand::distributions::WeightedIndex<u64>,
}

/// The error type of weighted-index construction in the `rand` crate.
#[verifier::external_type_specification]
#[verifier::external_body]
pub struct ExWeightedError(rand::distributions::WeightedError);

/// The weights a weighted-index distribution was built from.
pub uninterp spec fn dist_weights(d: WeightedDist) -> Seq<u64>;

/// The sum of a sequence of weights.
pub open spec fn sum_weights(s: Seq<u64>) -> int
    decreases s.len(),
{
    if s.len() == 0 {
        0
    } else {
        s[0] + sum_weights(s.skip(1))
    }
}

/// Whether a weight vector can build a distribution: non-empty, with a
/// positive total that fits in a `u64`.
pub open spec fn valid_weights(s: Seq<u64>) -> bool {
    s.len() > 0 && 0 < sum_weights(s) <= u64::MAX
}

/// Relies on `WeightedIndex::new` of the `rand` crate: it returns `Ok`
/// exactly when the weights are non-empty with a positive total (`u64`
/// weights cannot be negative), and the distribution then draws among exactly
/// those weights. Construction sums the weights, so the total must fit.
#[verifier::external_body]
fn weighted_index_new(weights: &Vec<u64>) -> (r: Result<
    WeightedDist,
    rand::distributions::WeightedError,
>)
    requires
        sum_weights(weights@) <= u64::MAX,
    ensures
        r is Ok <==> (weights@.len() > 0 && sum_weights(weights@) > 0),
        r is Ok ==> dist_weights(r.unwrap()) == weights@,
{
    rand::distributions::WeightedIndex::new(weights).map(|d| WeightedDist { inner: d })
}

/// Relies on sampling a `WeightedIndex` of the `rand` crate (through
/// `Distribution::sample`, with `thread_rng`): the drawn value is the index
/// of one of the weights, an index whose weight is not zero.
#[verifier::external_body]
fn weighted_index_sample(d: &WeightedDist) -> (i: usize)
    requires
        dist_weights(*d).len() > 0,
    ensures
        i < dist_weights(*d).len(),
        dist_weights(*d)[i as int] > 0,
{
    rand::distributions::Distribution::sample(&d.inner, &mut rand::thread_rng())
}

impl WeightedDist {
    /// Builds the weighted-sampling structure from a table's rule weights.
    /// Construction succeeds exactly on valid weight vectors: non-empty, with
    /// a positive total that fits.
    pub fn new(weights: &Vec<u64>) -> (r: Result<WeightedDist, TableError>)
        ensures
            r is Ok <==> valid_weights(weights@),
            r is Ok ==> dist_weights(r.unwrap()) == weights@,
            r is Err ==> r.unwrap_err() is InvalidDefinition,
    {
        let total = match checked_weight_sum(weights) {
            Some(t) => t,
            None => {
                return Err(
                    TableError::InvalidDefinition(
                        String::from_str("total rule weight is too large"),
                    ),
                );
            },
        };
        match weighted_index_new(weights) {
            Ok(d) => Ok(d),
            Err(_) => Err(
                TableError::InvalidDefinition(
                    String::from_str("a table needs at least one rule with a positive weight"),
                ),
            ),
        }
    }

    /// Draws the index of one rule, proportionally to the weights; an index
    /// with weight zero is never drawn.
    pub fn sample(&self) -> (i: usize)
        requires
            dist_weights(*self).len() > 0,
        ensures
            i < dist_weights(*self).len(),
            dist_weights(*self)[i as int] > 0,
    {
        weighted_index_sample(self)
    }
}

/// Relies on `Rng::gen_range` of the `rand` crate over an inclusive range
/// (with `thread_rng`): the draw lies within the non-empty range.
#[verifier::external_body]
pub(crate) fn rand_range_inclusive(lo: u64, hi: u64) -> (r: u64)
    requires
        lo <= hi,
    ensures
        lo <= r <= hi,
{
    rand::Rng::gen_range(&mut rand::thread_rng(), lo..=hi)
}

/// The sum of the weights, when it fits in a `u64`.
pub fn checked_weight_sum(weights: &Vec<u64>) -> (r: Option<u64>)
    ensures
        r is Some <==> sum_weights(weights@) <= u64::MAX,
        r is Some ==> r.unwrap() == sum_weights(weights@),
{
    let mut acc: u64 = 0;
    let mut i: usize = 0;
    while i < weights.len()
        invariant
            i <= weights.len(),
            acc == sum_weights(weights@.take(i as int)),
            sum_weights(weights@.take(i as int)) <= u64::MAX,
        decreases weights.len() - i,
    {
        let w = weights[i];
        proof {
            lemma_sum_weights_take_succ(weights@, i as int);
        }
        if w > u64::MAX - acc {
            proof {
                lemma_sum_weights_monotone(weights@, i as int + 1);
            }
            return None;
        }
        acc = acc + w;
        i += 1;
    }
    proof {
        assert(weights@.take(weights@.len() as int) =~= weights@);
    }
    Some(acc)
}

/// Extending a weight prefix by one element adds that element's weight.
pub proof fn lemma_sum_weights_take_succ(s: Seq<u64>, i: int)
    requires
        0 <= i < s.len(),
    ensures
        sum_weights(s.take(i + 1)) == sum_weights(s.take(i)) + s[i],
    decreases i,
{
    if i == 0 {
        assert(s.take(1) =~= seq![s[0]]);
        assert(s.take(1).skip(1) =~= Seq::<u64>::empty());
        assert(s.take(0) =~= Seq::<u64>::empty());
    } else {
        assert(s.take(i + 1).skip(1) =~= s.skip(1).take(i));
        assert(s.take(i).skip(1) =~= s.skip(1).take(i - 1));
        lemma_sum_weights_take_succ(s.skip(1), i - 1);
        assert(s.take(i + 1)[0] == s[0]);
        assert(s.take(i)[0] == s[0]);
        assert(s.skip(1)[i - 1] == s[i]);
    }
}

/// A prefix of the weights sums to no more than the whole.
pub proof fn lemma_sum_weights_monotone(s: Seq<u64>, i: int)
    requires
        0 <= i <= s.len(),
    ensures
        sum_weights(s.take(i)) <= sum_weights(s),
    decreases s.len() - i,
{
    if i == s.len() {
        assert(s.take(i) =~= s);
    } else {
        lemma_sum_weights_take_succ(s, i);
        lemma_sum_weights_monotone(s, i + 1);
    }
}

/// The sum of `count` independent uniform draws over `[1, sides]`.
pub fn roll_dice(count: u64, sides: u64) -> (total: u64)
    requires
        1 <= sides,
        count <= PART_BOUND,
        sides <= PART_BOUND,
    ensures
        count <= total <= count * sides,
{
    let mut total: u64 = 0;
    let mut i: u64 = 0;
    proof {
        assert(count * sides <= PART_BOUND * PART_BOUND) by (nonlinear_arith)
            requires
                count <= PART_BOUND && sides <= PART_BOUND,
        ;
    }
    while i < count
        invariant
            i <= count,
            1 <= sides <= PART_BOUND,
            count <= PART_BOUND,
            i <= total,
            total <= i * sides,
            count * sides <= PART_BOUND * PART_BOUND,
        decreases count - i,
    {
        let d = rand_range_inclusive(1, sides);
        proof {
            assert((i + 1) * sides <= count * sides && i * sides + sides == (i + 1) * sides)
                by (nonlinear_arith)
                requires
                    i < count && sides >= 1,
            ;
        }
        total = total + d;
        i = i + 1;
    }
    proof {
        assert(count * sides >= count) by (nonlinear_arith)
            requires
                sides >= 1 && count >= 0,
        ;
    }
    total
}

} // verus!
