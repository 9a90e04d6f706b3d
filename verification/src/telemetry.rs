//! Fixed-size callback timing histogram for realtime use: 64 buckets over
//! zero to twice the callback budget. The host turns each callback's time
//! into a bucket index and a percentile into a sample count; here the
//! buckets are counted and searched.

use vstd::prelude::*;

verus! {

/// Number of buckets.
pub const BUCKETS: usize = 64;

/// Counts of callbacks per bucket.
#[derive(Debug, Clone)]
pub struct CallbackHistogram {
    buckets: Vec<u64>,
    samples: u64,
}

/// Sum of the first `n` counts.
pub open spec fn cumulative(b: Seq<u64>, n: int) -> int
    decreases n,
{
    if n <= 0 || n > b.len() {
        0
    } else {
        cumulative(b, n - 1) + b[n - 1]
    }
}

/// Callbacks counted in buckets `0..=j`.
pub open spec fn reached(b: Seq<u64>, j: int) -> int {
    cumulative(b, j + 1)
}

impl CallbackHistogram {
    pub closed spec fn counts(&self) -> Seq<u64> {
        self.buckets@
    }

    pub closed spec fn total(&self) -> u64 {
        self.samples
    }

    /// The samples are the sum of the bucket counts.
    pub open spec fn wf(&self) -> bool {
        &&& self.counts().len() == BUCKETS
        &&& cumulative(self.counts(), BUCKETS as int) == self.total()
    }

    /// No callbacks observed.
    pub fn new() -> (h: Self)
        ensures
            h.wf(),
            h.total() == 0,
            forall|i: int| 0 <= i < BUCKETS ==> h.counts()[i] == 0,
    {
        let mut buckets: Vec<u64> = Vec::new();
        while buckets.len() < BUCKETS
            invariant
                buckets@.len() <= BUCKETS,
                forall|i: int| 0 <= i < buckets@.len() ==> buckets@[i] == 0,
            decreases BUCKETS - buckets@.len(),
        {
            buckets.push(0);
        }
        proof {
            lemma_cumulative_zero(buckets@, BUCKETS as int);
        }
        CallbackHistogram { buckets, samples: 0 }
    }

    /// Counts one callback in bucket `index`.
    pub fn observe_bucket(&mut self, index: usize)
        requires
            old(self).wf(),
            index < BUCKETS,
            old(self).total() < u64::MAX,
        ensures
            final(self).wf(),
            final(self).counts() == old(self).counts().update(index as int, (old(self).counts()[index as int] + 1) as u64),
            final(self).total() == old(self).total() + 1,
    {
        proof {
            lemma_cumulative_le(self.buckets@, index as int + 1, BUCKETS as int);
            lemma_cumulative_le(self.buckets@, 0, index as int);
            assert(cumulative(self.buckets@, index as int + 1) == cumulative(self.buckets@, index as int)
                + self.buckets@[index as int]);
        }
        let c = self.buckets[index];
        let ghost before = self.buckets@;
        self.buckets.set(index, c + 1);
        self.samples = self.samples + 1;
        proof {
            lemma_cumulative_update(before, index as int, BUCKETS as int);
        }
    }

    pub fn samples(&self) -> (r: u64)
        ensures
            r == self.total(),
    {
        self.samples
    }

    /// The first bucket at which at least `target` callbacks have been
    /// counted, or `None` when fewer were.
    pub fn bucket_reaching(&self, target: u64) -> (r: Option<usize>)
        requires
            self.wf(),
        ensures
            match r {
                Some(i) => i < BUCKETS && reached(self.counts(), i as int) >= target && forall|j: int|
                    0 <= j < i ==> #[trigger] reached(self.counts(), j) < target,
                None => forall|j: int| 0 <= j < BUCKETS ==> #[trigger] reached(self.counts(), j) < target,
            },
    {
        let mut sum: u64 = 0;
        let mut i: usize = 0;
        while i < BUCKETS
            invariant
                self.wf(),
                i <= BUCKETS,
                sum == cumulative(self.buckets@, i as int),
                forall|j: int| 0 <= j < i ==> #[trigger] reached(self.buckets@, j) < target,
            decreases BUCKETS - i,
        {
            proof {
                lemma_cumulative_le(self.buckets@, i as int + 1, BUCKETS as int);
            }
            sum = sum + self.buckets[i];
            if sum >= target {
                return Some(i);
            }
            i = i + 1;
        }
        None
    }
}

proof fn lemma_cumulative_zero(b: Seq<u64>, n: int)
    requires
        0 <= n <= b.len(),
        forall|i: int| 0 <= i < b.len() ==> b[i] == 0,
    ensures
        cumulative(b, n) == 0,
    decreases n,
{
    if n > 0 {
        lemma_cumulative_zero(b, n - 1);
    }
}

proof fn lemma_cumulative_le(b: Seq<u64>, m: int, n: int)
    requires
        0 <= m <= n <= b.len(),
    ensures
        cumulative(b, m) <= cumulative(b, n),
    decreases n - m,
{
    if m < n {
        lemma_cumulative_le(b, m, n - 1);
    }
}

proof fn lemma_cumulative_update(b: Seq<u64>, k: int, n: int)
    requires
        0 <= k < b.len(),
        b[k] < u64::MAX,
        0 <= n <= b.len(),
    ensures
        cumulative(b.update(k, (b[k] + 1) as u64), n) == cumulative(b, n) + if k < n {
            1int
        } else {
            0
        },
    decreases n,
{
    if n > 0 {
        lemma_cumulative_update(b, k, n - 1);
    }
}

/// Counting a callback raises the cumulative count of its bucket and every
/// later bucket by one and leaves earlier ones unchanged, so percentiles
/// only move toward the buckets observed.
pub proof fn law_observe_raises_cumulative(b: Seq<u64>, k: int, n: int)
    requires
        0 <= k < b.len(),
        b[k] < u64::MAX,
        0 <= n <= b.len(),
    ensures
        cumulative(b.update(k, (b[k] + 1) as u64), n) == cumulative(b, n) + (if k < n {
            1int
        } else {
            0
        }),
{
    lemma_cumulative_update(b, k, n);
}

} // verus!
