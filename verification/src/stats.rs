use crate::reducer::{lemma_trunc_div_between, mean_from, mean_toward_zero, sum_of};
use vstd::prelude::*;

verus! {

/// The running statistic of one key in unbounded integers: how many values
/// were observed, their exact sum, and the least and the greatest of them.
pub struct Summary {
    pub count: nat,
    pub sum: int,
    pub min: int,
    pub max: int,
}

impl Summary {
    /// The statistic of a key before its first observation: `min` starts at
    /// the greatest value there is and `max` at the least.
    pub open spec fn empty() -> Summary {
        Summary { count: 0, sum: 0, min: i16::MAX as int, max: i16::MIN as int }
    }

    /// The statistic after one more observation.
    pub open spec fn observe(self, value: int) -> Summary {
        Summary {
            count: self.count + 1,
            sum: self.sum + value,
            min: if value < self.min {
                value
            } else {
                self.min
            },
            max: if value > self.max {
                value
            } else {
                self.max
            },
        }
    }

    /// The mean, rounded toward zero; 0 before the first observation.
    pub open spec fn mean(self) -> int {
        mean_from(self.sum, self.count as int)
    }

    /// What holds of every statistic that observations of `i16` values lead
    /// to: without observations it is the empty one, and with some the sum
    /// lies between `count` times the least and `count` times the greatest.
    pub open spec fn valid(self) -> bool {
        if self.count == 0 {
            self == Summary::empty()
        } else {
            &&& i16::MIN <= self.min <= self.max <= i16::MAX
            &&& self.count * self.min <= self.sum <= self.count * self.max
        }
    }
}

/// The statistic of a run of values, observed one after the other.
pub open spec fn summarize(values: Seq<i16>) -> Summary {
    values.fold_left(Summary::empty(), |s: Summary, v: i16| s.observe(v as int))
}

/// One more observation keeps a statistic valid.
pub proof fn lemma_observe_valid(s: Summary, value: i16)
    requires
        s.valid(),
    ensures
        s.observe(value as int).valid(),
{
    let t = s.observe(value as int);
    if s.count > 0 {
        let n = s.count as int;
        assert((n + 1) * t.min <= s.sum + value) by (nonlinear_arith)
            requires
                n > 0,
                n * s.min <= s.sum,
                t.min <= s.min,
                t.min <= value,
        ;
        assert(s.sum + value <= (n + 1) * t.max) by (nonlinear_arith)
            requires
                n > 0,
                s.sum <= n * s.max,
                s.max <= t.max,
                value <= t.max,
        ;
    }
}

/// A valid statistic with at least one observation has its mean between its
/// least and its greatest value.
pub proof fn lemma_mean_between(s: Summary)
    requires
        s.valid(),
        s.count > 0,
    ensures
        s.min <= s.mean() <= s.max,
{
    lemma_trunc_div_between(s.sum, s.count as int, s.min, s.max);
}

/// The sum of a valid statistic is within what its count allows.
pub proof fn lemma_sum_within(s: Summary)
    requires
        s.valid(),
    ensures
        i16::MIN * s.count <= s.sum <= i16::MAX * s.count,
{
    if s.count > 0 {
        let n = s.count as int;
        assert(i16::MIN * n <= n * s.min) by (nonlinear_arith)
            requires
                n > 0,
                i16::MIN <= s.min,
        ;
        assert(n * s.max <= i16::MAX * n) by (nonlinear_arith)
            requires
                n > 0,
                s.max <= i16::MAX,
        ;
    }
}

/// Observing `value` last: the statistic of the longer run is the statistic
/// of the run before it with one more observation.
pub proof fn lemma_summarize_push(values: Seq<i16>, value: i16)
    ensures
        summarize(values.push(value)) == summarize(values).observe(value as int),
{
    assert(values.push(value).drop_last() =~= values);
}

/// The statistic of a run of values is what its name says: the number of the
/// values, their exact sum, a least value that no value is below and a
/// greatest value that no value is above, both of them values of the run.
pub proof fn lemma_summarize_is_exact(values: Seq<i16>)
    ensures
        summarize(values).valid(),
        summarize(values).count == values.len(),
        summarize(values).sum == sum_of(values),
        forall|i: int|
            0 <= i < values.len() ==> summarize(values).min <= #[trigger] values[i] <= summarize(
                values,
            ).max,
        values.len() > 0 ==> exists|i: int|
            0 <= i < values.len() && #[trigger] values[i] == summarize(values).min,
        values.len() > 0 ==> exists|i: int|
            0 <= i < values.len() && #[trigger] values[i] == summarize(values).max,
    decreases values.len(),
{
    if values.len() > 0 {
        let head = values.drop_last();
        let last = values.last();
        lemma_summarize_is_exact(head);
        lemma_observe_valid(summarize(head), last);
        let s = summarize(values);
        assert forall|i: int| 0 <= i < values.len() implies s.min <= #[trigger] values[i]
            <= s.max by {
            if i < head.len() {
                assert(head[i] == values[i]);
            }
        }
    }
}

/// The order of the observations does not matter: two runs that hold the
/// same values the same number of times have the same statistic.
pub proof fn lemma_summarize_order_insensitive(a: Seq<i16>, b: Seq<i16>)
    requires
        a.to_multiset() == b.to_multiset(),
    ensures
        summarize(a) == summarize(b),
{
    let f = |s: Summary, v: i16| s.observe(v as int);
    assert(vstd::seq_lib::commutative_foldl(f)) by {
        assert forall|x: i16, y: i16, s: Summary| #[trigger] f(f(s, x), y) == f(f(s, y), x) by {}
    }
    vstd::seq_lib::lemma_fold_left_permutation(a, b, f, Summary::empty());
}

/// The running statistic of one key.
///
/// The sum is kept in 128 bits and the count in 64: no run of `i16` values
/// that a count of 64 bits can number overflows the sum.
#[derive(Clone, Copy, Debug)]
pub struct City {
    count: u64,
    sum: i128,
    min: i16,
    max: i16,
}

impl View for City {
    type V = Summary;

    closed spec fn view(&self) -> Summary {
        Summary {
            count: self.count as nat,
            sum: self.sum as int,
            min: self.min as int,
            max: self.max as int,
        }
    }
}

impl Default for City {
    /// The statistic of a key that was not observed yet.
    fn default() -> (city: City)
        ensures
            city@ == Summary::empty(),
    {
        City { count: 0, sum: 0, min: i16::MAX, max: i16::MIN }
    }
}

impl City {
    /// Whether the statistic is one that observations lead to.
    pub open spec fn wf(&self) -> bool {
        self@.valid()
    }

    /// Observes one more value: the count goes up by one, the sum by the
    /// value, and `min` and `max` follow where the value is beyond them.
    pub fn add(&mut self, value: i16)
        requires
            old(self).wf(),
            old(self)@.count < u64::MAX,
        ensures
            final(self).wf(),
            final(self)@ == old(self)@.observe(value as int),
    {
        proof {
            lemma_observe_valid(self@, value);
            lemma_sum_within(self@);
        }
        self.count = self.count + 1;
        self.sum = self.sum + value as i128;
        if value < self.min {
            self.min = value;
        }
        if value > self.max {
            self.max = value;
        }
    }

    /// The mean of the observed values, rounded toward zero; 0 where nothing
    /// was observed.
    pub fn mean(&self) -> (mean: i16)
        requires
            self.wf(),
        ensures
            mean == self@.mean(),
    {
        proof {
            lemma_sum_within(self@);
        }
        mean_toward_zero(self.sum, self.count)
    }

    /// How many values were observed.
    pub fn count(&self) -> (count: u64)
        ensures
            count == self@.count,
    {
        self.count
    }

    /// The exact sum of the observed values.
    pub fn sum(&self) -> (sum: i128)
        ensures
            sum == self@.sum,
    {
        self.sum
    }

    /// The least observed value; `i16::MAX` where nothing was observed.
    pub fn min(&self) -> (min: i16)
        ensures
            min == self@.min,
    {
        self.min
    }

    /// The greatest observed value; `i16::MIN` where nothing was observed.
    pub fn max(&self) -> (max: i16)
        ensures
            max == self@.max,
    {
        self.max
    }
}

} // verus!
