//! Distributions over integer samples.
//!
//! A `Histogram` accumulates duration or percentage samples by insertion and
//! answers statistic queries (count, max, mean, median, arbitrary
//! percentiles). Samples are kept sorted, so a histogram's contents are a
//! function of the multiset of samples added, never of their order.
//! Percentile selection and the mean truncate toward zero, matching how the
//! textual reports round.

use vstd::prelude::*;
use vstd::multiset::Multiset;
use vstd::seq_lib::to_multiset_insert;
use vstd::arithmetic::div_mod::{
    lemma_div_is_ordered, lemma_div_multiples_vanish, lemma_div_pos_is_pos,
};
use vstd::arithmetic::mul::lemma_mul_inequality;

verus! {

/// Whether a sequence of samples is sorted in non-decreasing order.
pub open spec fn sorted(s: Seq<u64>) -> bool {
    forall|i: int, j: int| 0 <= i <= j < s.len() ==> s[i] <= s[j]
}

/// The sum of a sequence of samples.
pub open spec fn sample_sum(s: Seq<u64>) -> int
    decreases s.len(),
{
    if s.len() == 0 {
        0
    } else {
        sample_sum(s.drop_last()) + s.last()
    }
}

/// An accumulator over duration samples, queryable for statistics.
pub struct Histogram {
    samples: Vec<u64>,
    sum: u128,
}

/// An accumulator over percentage samples (values 0 through 100).
pub type PercentageHistogram = Histogram;

/// An accumulator over duration samples.
pub type DurationHistogram = Histogram;

impl View for Histogram {
    type V = Seq<u64>;

    closed spec fn view(&self) -> Seq<u64> {
        self.samples@
    }
}

impl Histogram {
    /// Well-formed: samples sorted, and the cached sum is the sample sum.
    pub open spec fn wf(&self) -> bool {
        sorted(self@) && self.sum_ok()
    }

    #[verifier::opaque]
    pub closed spec fn sum_ok(&self) -> bool {
        self.sum == sample_sum(self.samples@)
    }

    /// The samples as a multiset: everything a histogram reports is a
    /// function of this.
    pub open spec fn ms(&self) -> Multiset<u64> {
        self@.to_multiset()
    }

    pub fn new() -> (r: Histogram)
        ensures
            r.wf(),
            r@ =~= Seq::<u64>::empty(),
    {
        let r = Histogram { samples: Vec::new(), sum: 0 };
        proof {
            reveal(Histogram::sum_ok);
        }
        r
    }

    /// Record one sample.
    pub fn add(&mut self, x: u64)
        requires
            old(self).wf(),
        ensures
            final(self).wf(),
            final(self).ms() == old(self).ms().insert(x),
            final(self)@.len() == old(self)@.len() + 1,
    {
        proof {
            reveal(Histogram::sum_ok);
            lemma_sample_sum_bound(self.samples@);
        }
        let n = self.samples.len();
        let mut i: usize = 0;
        while i < n && self.samples[i] <= x
            invariant
                n == self.samples@.len(),
                i <= n,
                forall|j: int| 0 <= j < i ==> self.samples@[j] <= x,
            decreases n - i,
        {
            i = i + 1;
        }
        proof {
            to_multiset_insert(self.samples@, i as int, x);
            lemma_sample_sum_insert(self.samples@, i as int, x);
        }
        self.samples.insert(i, x);
        self.sum = self.sum + x as u128;
        proof {
            assert(sorted(self.samples@)) by {
                assert(forall|j: int|
                    0 <= j < self.samples@.len() && j < i ==> self.samples@[j] <= x);
                assert(forall|j: int|
                    i < j < self.samples@.len() ==> x <= self.samples@[j]);
            }
        }
    }

    /// How many samples have been recorded.
    pub fn count(&self) -> (r: usize)
        ensures
            r == self@.len(),
    {
        self.samples.len()
    }

    /// The largest sample, or nothing if no samples were recorded.
    pub fn max(&self) -> (r: Option<u64>)
        requires
            self.wf(),
        ensures
            match r {
                Some(m) => self@.len() > 0 && m == self@.last() && self.ms().contains(m)
                    && forall|i: int| 0 <= i < self@.len() ==> self@[i] <= m,
                None => self@.len() == 0,
            },
    {
        if self.samples.len() == 0 {
            None
        } else {
            let m = self.samples[self.samples.len() - 1];
            proof {
                vstd::seq_lib::to_multiset_build(self@.drop_last(), self@.last());
                assert(self@.drop_last().push(self@.last()) =~= self@);
            }
            Some(m)
        }
    }

    /// The sample at the given percentile of the sorted samples (truncating
    /// index selection), or nothing if no samples were recorded.
    pub fn percentile(&self, p: u64) -> (r: Option<u64>)
        requires
            self.wf(),
            p <= 100,
        ensures
            match r {
                Some(v) => self@.len() > 0 && v == self@[percentile_index(
                    self@.len() as int,
                    p as int,
                )],
                None => self@.len() == 0,
            },
    {
        let n = self.samples.len();
        if n == 0 {
            None
        } else {
            proof {
                lemma_mul_inequality(p as int, 100, (n - 1) as int);
            }
            let idx_wide: u128 = (p as u128) * ((n - 1) as u128) / 100;
            proof {
                lemma_div_is_ordered(
                    p as int * (n - 1) as int,
                    100 * (n - 1) as int,
                    100,
                );
                lemma_div_multiples_vanish((n - 1) as int, 100);
                lemma_div_pos_is_pos(p as int * (n - 1) as int, 100);
            }
            let idx = idx_wide as usize;
            Some(self.samples[idx])
        }
    }

    /// The median: the 50th percentile.
    pub fn median(&self) -> (r: Option<u64>)
        requires
            self.wf(),
        ensures
            match r {
                Some(v) => self@.len() > 0 && v == self@[percentile_index(
                    self@.len() as int,
                    50,
                )],
                None => self@.len() == 0,
            },
    {
        self.percentile(50)
    }

    /// The mean of the samples, truncated toward zero, or nothing if no
    /// samples were recorded.
    pub fn mean(&self) -> (r: Option<u64>)
        requires
            self.wf(),
        ensures
            match r {
                Some(v) => self@.len() > 0 && v == sample_sum(self@) / self@.len() as int,
                None => self@.len() == 0,
            },
    {
        let n = self.samples.len();
        if n == 0 {
            None
        } else {
            proof {
                reveal(Histogram::sum_ok);
                lemma_sample_sum_bound(self.samples@);
                lemma_mul_inequality(n as int, n as int, u64::MAX as int);
                lemma_div_is_ordered(
                    sample_sum(self@),
                    n as int * u64::MAX as int,
                    n as int,
                );
                assert(n as int * u64::MAX as int == u64::MAX as int * n as int)
                    by (nonlinear_arith);
                lemma_div_multiples_vanish(u64::MAX as int, n as int);
                lemma_div_pos_is_pos(sample_sum(self@), n as int);
            }
            Some((self.sum / n as u128) as u64)
        }
    }
}

/// Which sorted sample a percentile query selects.
pub open spec fn percentile_index(len: int, p: int) -> int {
    p * (len - 1) / 100
}

/// A sample sum is at most the sample count times the largest possible
/// sample.
proof fn lemma_sample_sum_bound(s: Seq<u64>)
    ensures
        0 <= sample_sum(s) <= s.len() * u64::MAX,
    decreases s.len(),
{
    if s.len() == 0 {
    } else {
        lemma_sample_sum_bound(s.drop_last());
        assert((s.len() - 1) * u64::MAX + u64::MAX == s.len() * u64::MAX) by (nonlinear_arith);
    }
}

/// Inserting a sample adds it to the sum.
proof fn lemma_sample_sum_insert(s: Seq<u64>, i: int, x: u64)
    requires
        0 <= i <= s.len(),
    ensures
        sample_sum(s.insert(i, x)) == sample_sum(s) + x,
    decreases s.len(),
{
    if i == s.len() {
        assert(s.insert(i, x).drop_last() =~= s);
    } else {
        assert(s.insert(i, x).drop_last() =~= s.drop_last().insert(i, x));
        assert(s.insert(i, x).last() == s.last());
        lemma_sample_sum_insert(s.drop_last(), i, x);
    }
}

} // verus!
