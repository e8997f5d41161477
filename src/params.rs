//! Buffer configuration: tenant count, capacity and per-tenant quotas.

use vstd::prelude::*;
use crate::types::MAX_TENANTS;

verus! {

/// Sum of the `qmin` components of a list of quota triples.
pub open spec fn sum_qmin(qs: Seq<(usize, usize, usize)>) -> int
    decreases qs.len(),
{
    if qs.len() == 0 {
        0
    } else {
        sum_qmin(qs.drop_last()) + qs.last().0
    }
}

/// The configuration of a buffer: tenants, capacity and per-tenant quotas.
#[derive(Debug, Clone, Default)]
pub struct Params {
    pub num_tenants_n: usize,
    pub buffer_size_q: usize,
    pub priorities_lt: Vec<u8>,
    pub db_size_dt: Vec<usize>,
    /// `(qmin, qbase, qmax)` per tenant.
    pub buffer_sizes_qt: Vec<(usize, usize, usize)>,
}

impl Params {
    pub open spec fn n(&self) -> int {
        self.num_tenants_n as int
    }

    pub open spec fn q(&self) -> int {
        self.buffer_size_q as int
    }

    pub open spec fn qmin(&self, t: int) -> int {
        self.buffer_sizes_qt@[t].0 as int
    }

    pub open spec fn qbase(&self, t: int) -> int {
        self.buffer_sizes_qt@[t].1 as int
    }

    pub open spec fn qmax(&self, t: int) -> int {
        self.buffer_sizes_qt@[t].2 as int
    }

    /// Table sizes agree with the tenant count, every quota triple is
    /// ordered, and the guaranteed minimums fit in the buffer together.
    pub open spec fn valid(&self) -> bool {
        &&& self.num_tenants_n <= MAX_TENANTS
        &&& self.priorities_lt@.len() == self.n()
        &&& self.db_size_dt@.len() == self.n()
        &&& self.buffer_sizes_qt@.len() == self.n()
        &&& forall|t: int|
            0 <= t < self.n() ==> self.qmin(t) <= #[trigger] self.qbase(t) <= self.qmax(t)
        &&& sum_qmin(self.buffer_sizes_qt@) <= self.q()
    }

    /// Decides `valid`.
    pub fn is_valid(&self) -> (r: bool)
        ensures
            r == self.valid(),
    {
        let n = self.num_tenants_n;
        if n > MAX_TENANTS || self.priorities_lt.len() != n || self.db_size_dt.len() != n
            || self.buffer_sizes_qt.len() != n {
            return false;
        }
        let mut sum: usize = 0;
        let mut i: usize = 0;
        while i < n
            invariant
                n == self.n(),
                self.buffer_sizes_qt@.len() == n,
                i <= n,
                sum == sum_qmin(self.buffer_sizes_qt@.subrange(0, i as int)),
                sum <= self.q(),
                forall|t: int| 0 <= t < i ==> self.qmin(t) <= #[trigger] self.qbase(t) <= self.qmax(t),
            decreases n - i,
        {
            let (qmin, qbase, qmax) = self.buffer_sizes_qt[i];
            assert(self.buffer_sizes_qt@.subrange(0, i + 1).drop_last()
                =~= self.buffer_sizes_qt@.subrange(0, i as int));
            if qmin > qbase || qbase > qmax || qmin > self.buffer_size_q - sum {
                proof {
                    assert(self.qbase(i as int) == qbase);
                    if qmin <= qbase && qbase <= qmax {
                        let pre = self.buffer_sizes_qt@.subrange(0, i + 1);
                        assert(sum_qmin(pre) == sum + qmin);
                        lemma_sum_qmin_prefix(self.buffer_sizes_qt@, i as int + 1);
                    }
                }
                return false;
            }
            sum = sum + qmin;
            i = i + 1;
        }
        assert(self.buffer_sizes_qt@.subrange(0, n as int) =~= self.buffer_sizes_qt@);
        true
    }
}

/// The sum over a prefix never exceeds the sum over the whole list.
pub proof fn lemma_sum_qmin_prefix(qs: Seq<(usize, usize, usize)>, k: int)
    requires
        0 <= k <= qs.len(),
    ensures
        sum_qmin(qs.subrange(0, k)) <= sum_qmin(qs),
    decreases qs.len(),
{
    if k < qs.len() {
        assert(qs.drop_last().subrange(0, k) =~= qs.subrange(0, k));
        lemma_sum_qmin_prefix(qs.drop_last(), k);
    } else {
        assert(qs.subrange(0, k) =~= qs);
    }
}

} // verus!
