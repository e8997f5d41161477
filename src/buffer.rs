//! The executable engine, proved to follow the model access by access.

use vstd::prelude::*;
use crate::lru::{find, lemma_find_bounds, LruList};
use crate::model::{
    ArcState, best_donor, consistent, eligible, family, lemma_best_donor, lemma_sum_lens_nonneg,
    preferred, replace_victim, resident, sum_lens, inc, count_miss, count_hit, count_eviction,
    evict, take_in, ghost_hit, full_miss, step,
};
use crate::laws::{lemma_step_consistent, lemma_tenant_ceiling};
use crate::params::Params;
use crate::types::{Counters, Entry, ListKind, Operation, NO_SLOT};

verus! {

/// The contents of each list of a family.
pub open spec fn views(v: Seq<LruList>) -> Seq<Seq<Entry>> {
    v.map_values(|l: LruList| l@)
}

/// The quota-aware ARC engine: four list families, the adaptation
/// parameter, the location high-water mark, the clock and the counters.
pub struct Buffer {
    params: Params,
    t1: Vec<LruList>,
    t2: Vec<LruList>,
    b1: LruList,
    b2: LruList,
    p: usize,
    max_loc: usize,
    now: u64,
    counters: Vec<Counters>,
}

impl View for Buffer {
    type V = ArcState;

    closed spec fn view(&self) -> ArcState {
        ArcState {
            t1: views(self.t1@),
            t2: views(self.t2@),
            b1: self.b1@,
            b2: self.b2@,
            p: self.p as int,
            max_loc: self.max_loc as int,
            now: self.now as int,
            counters: self.counters@,
        }
    }
}

impl Buffer {
    /// The configuration the buffer was made with.
    pub closed spec fn cfg(&self) -> Params {
        self.params
    }

    /// The engine's invariant holds of the current state.
    pub open spec fn wf(&self) -> bool {
        consistent(self.cfg(), self@) && self.shaped()
    }

    /// One list per tenant in each per-tenant family, every list well formed.
    pub closed spec fn shaped(&self) -> bool {
        &&& self.params.buffer_sizes_qt@.len() == self.params.n()
        &&& self.t1@.len() == self.params.n()
        &&& self.t2@.len() == self.params.n()
        &&& self.counters@.len() == self.params.n()
        &&& forall|u: int| 0 <= u < self.params.n() ==> (#[trigger] self.t1@[u]).wf()
        &&& forall|u: int| 0 <= u < self.params.n() ==> (#[trigger] self.t2@[u]).wf()
        &&& self.b1.wf()
        &&& self.b2.wf()
    }

    /// An empty buffer: no page known, no location handed out.
    pub fn with_params(params: Params) -> (r: Buffer)
        requires
            params.valid(),
        ensures
            r.cfg() == params,
            r.wf(),
            r@.t1 == Seq::new(params.n() as nat, |i: int| Seq::<Entry>::empty()),
            r@.t2 == Seq::new(params.n() as nat, |i: int| Seq::<Entry>::empty()),
            r@.b1 == Seq::<Entry>::empty(),
            r@.b2 == Seq::<Entry>::empty(),
            r@.p == 0,
            r@.max_loc == 0,
            r@.now == 0,
            r@.counters == Seq::new(params.n() as nat, |i: int| (Counters { hits: 0, misses: 0, evictions: 0 })),
    {
        let n = params.num_tenants_n;
        let mut t1: Vec<LruList> = Vec::new();
        let mut t2: Vec<LruList> = Vec::new();
        let mut counters: Vec<Counters> = Vec::new();
        let mut i: usize = 0;
        while i < n
            invariant
                i <= n,
                t1@.len() == i,
                t2@.len() == i,
                counters@.len() == i,
                forall|j: int| 0 <= j < i ==> (#[trigger] t1@[j])@ == Seq::<Entry>::empty() && t1@[j].wf(),
                forall|j: int| 0 <= j < i ==> (#[trigger] t2@[j])@ == Seq::<Entry>::empty() && t2@[j].wf(),
                forall|j: int| 0 <= j < i ==> #[trigger] counters@[j] == (Counters { hits: 0, misses: 0, evictions: 0 }),
            decreases n - i,
        {
            t1.push(LruList::new());
            t2.push(LruList::new());
            counters.push(Counters { hits: 0, misses: 0, evictions: 0 });
            i = i + 1;
        }
        let r = Buffer {
            params,
            t1,
            t2,
            b1: LruList::new(),
            b2: LruList::new(),
            p: 0,
            max_loc: 0,
            now: 0,
            counters,
        };
        assert(r@.t1 =~= Seq::new(n as nat, |i: int| Seq::<Entry>::empty()));
        assert(r@.t2 =~= Seq::new(n as nat, |i: int| Seq::<Entry>::empty()));
        assert(r@.counters =~= Seq::new(n as nat, |i: int| (Counters { hits: 0, misses: 0, evictions: 0 })));
        proof {
            lemma_sum_lens_empty(r@.t1);
            lemma_sum_lens_empty(r@.t2);
        }
        r
    }

    /// Number of distinct locations handed out so far.
    pub fn len(&self) -> (r: usize)
        ensures
            r == self@.max_loc,
    {
        self.max_loc
    }

    /// The configuration the buffer was made with.
    pub fn params(&self) -> (r: &Params)
        ensures
            *r == self.cfg(),
    {
        &self.params
    }

    /// Number of accesses served so far.
    pub fn now(&self) -> (r: u64)
        ensures
            r == self@.now,
    {
        self.now
    }

    /// Hit, miss and eviction counts, one record per tenant.
    pub fn counters(&self) -> (r: &Vec<Counters>)
        ensures
            r@ == self@.counters,
    {
        &self.counters
    }
}

impl Buffer {
    /// Total number of records in a family of per-tenant lists.
    fn total_len(lists: &Vec<LruList>, bound: usize) -> (r: usize)
        requires
            sum_lens(views(lists@)) <= bound,
            forall|u: int| 0 <= u < lists@.len() ==> (#[trigger] lists@[u]).wf(),
        ensures
            r == sum_lens(views(lists@)),
    {
        let ghost ls = views(lists@);
        let mut sum: usize = 0;
        let mut i: usize = 0;
        while i < lists.len()
            invariant
                ls == views(lists@),
                i <= ls.len(),
                sum == sum_lens(ls.subrange(0, i as int)),
                sum_lens(ls) <= bound,
                forall|u: int| 0 <= u < lists@.len() ==> (#[trigger] lists@[u]).wf(),
            decreases lists@.len() - i,
        {
            assert(ls.subrange(0, i + 1).drop_last() =~= ls.subrange(0, i as int));
            proof {
                lemma_sum_lens_prefix(ls, i + 1);
            }
            sum = sum + lists[i].len();
            i = i + 1;
        }
        assert(ls.subrange(0, i as int) =~= ls);
        sum
    }

    fn resident_of(&self, e: usize) -> (r: usize)
        requires
            self.wf(),
            e < self.params.n(),
        ensures
            r == resident(self@.t1, self@.t2, e as int),
    {
        assert(resident(self@.t1, self@.t2, e as int) <= self.params.qmax(e as int));
        self.t1[e].len() + self.t2[e].len()
    }

    fn eligible(&self, r: usize, e: usize) -> (b: bool)
        requires
            self.wf(),
            r < self.params.n(),
            e < self.params.n(),
        ensures
            b == eligible(self.params, self@.t1, self@.t2, r as int, e as int),
    {
        let (qmin, _, qmax) = self.params.buffer_sizes_qt[e];
        let (_, _, rmax) = self.params.buffer_sizes_qt[r];
        if self.resident_of(r) == rmax {
            e == r
        } else if e == r {
            self.resident_of(e) >= qmin
        } else {
            self.resident_of(e) > qmin
        }
    }

    /// The donor tenant for the list family `kind` (T1 or T2).
    fn best_donor(&self, kind: ListKind, r: usize, tiered: bool) -> (d: Option<usize>)
        requires
            self.wf(),
            r < self.params.n(),
        ensures
            d matches Some(x) ==> best_donor(self.params, self@.t1, self@.t2, family(self@.t1, self@.t2, kind), r as int, tiered, self.params.n()) == Some(x as int),
            d is None ==> best_donor(self.params, self@.t1, self@.t2, family(self@.t1, self@.t2, kind), r as int, tiered, self.params.n()) is None,
    {
        let lists = if kind == ListKind::T1 { &self.t1 } else { &self.t2 };
        let ghost src = family(self@.t1, self@.t2, kind);
        assert(views(lists@) == src);
        let n = self.params.num_tenants_n;
        let mut best: Option<usize> = None;
        let mut i: usize = 0;
        while i < n
            invariant
                self.wf(),
                r < n,
                n == self.params.n(),
                views(lists@) == src,
                src == family(self@.t1, self@.t2, kind),
                forall|u: int| 0 <= u < n ==> (#[trigger] lists@[u]).wf(),
                i <= n,
                best matches Some(x) ==> best_donor(self.params, self@.t1, self@.t2, src, r as int, tiered, i as int) == Some(x as int),
                best is None ==> best_donor(self.params, self@.t1, self@.t2, src, r as int, tiered, i as int) is None,
            decreases n - i,
        {
            proof {
                lemma_best_donor(self.params, self@.t1, self@.t2, src, r as int, tiered, i as int);
            }
            if self.eligible(r, i) && lists[i].len() > 0 {
                match best {
                    None => {
                        best = Some(i);
                    },
                    Some(b) => {
                        let ce = lists[i].peek_lru().unwrap().clock;
                        let cb = lists[b].peek_lru().unwrap().clock;
                        let better = if tiered {
                            let (_, ebase, _) = self.params.buffer_sizes_qt[i];
                            let (_, bbase, _) = self.params.buffer_sizes_qt[b];
                            let eo = self.resident_of(i) > ebase;
                            let bo = self.resident_of(b) > bbase;
                            if eo != bo {
                                eo
                            } else {
                                ce < cb
                            }
                        } else {
                            ce < cb
                        };
                        assert(better == preferred(self.params, self@.t1, self@.t2, src, tiered, i as int, b as int));
                        if better {
                            best = Some(i);
                        }
                    },
                }
            }
            i = i + 1;
        }
        best
    }

    /// The list family and tenant that give up a page, for adaptation `p`.
    fn replace_victim(&self, p: usize, r: usize, from_b2: bool) -> (v: Option<(ListKind, usize)>)
        requires
            self.wf(),
            r < self.params.n(),
        ensures
            v matches Some((k, d)) ==> replace_victim(self.params, self@.t1, self@.t2, p as int, r as int, from_b2) == Some((k, d as int)),
            v is None ==> replace_victim(self.params, self@.t1, self@.t2, p as int, r as int, from_b2) is None,
    {
        proof {
            lemma_sum_lens_nonneg(self@.t2);
        }
        let t1_len = Buffer::total_len(&self.t1, self.max_loc);
        let first = if t1_len > 0 && (t1_len > p || (from_b2 && t1_len == p)) {
            ListKind::T1
        } else {
            ListKind::T2
        };
        let second = if first == ListKind::T1 {
            ListKind::T2
        } else {
            ListKind::T1
        };
        match self.best_donor(first, r, true) {
            Some(d) => Some((first, d)),
            None => match self.best_donor(second, r, true) {
                Some(d) => Some((second, d)),
                None => None,
            },
        }
    }
}

fn bump(x: u64) -> (r: u64)
    ensures
        r == inc(x),
{
    if x == u64::MAX {
        x
    } else {
        x + 1
    }
}

impl Buffer {
    fn count_miss(&mut self, t: usize)
        requires
            old(self).shaped(),
            t < old(self).params.n(),
        ensures
            final(self).shaped(),
            final(self).params == old(self).params,
            final(self)@ == (ArcState { counters: count_miss(old(self)@.counters, t as int), ..old(self)@ }),
            final(self).t1 == old(self).t1,
            final(self).t2 == old(self).t2,
            final(self).b1 == old(self).b1,
            final(self).b2 == old(self).b2,
    {
        let mut c = self.counters[t];
        c.misses = bump(c.misses);
        self.counters.set(t, c);
        assert(self@.counters =~= count_miss(old(self)@.counters, t as int));
    }

    fn count_hit(&mut self, t: usize)
        requires
            old(self).shaped(),
            t < old(self).params.n(),
        ensures
            final(self).shaped(),
            final(self).params == old(self).params,
            final(self)@ == (ArcState { counters: count_hit(old(self)@.counters, t as int), ..old(self)@ }),
            final(self).t1 == old(self).t1,
            final(self).t2 == old(self).t2,
            final(self).b1 == old(self).b1,
            final(self).b2 == old(self).b2,
    {
        let mut c = self.counters[t];
        c.hits = bump(c.hits);
        self.counters.set(t, c);
        assert(self@.counters =~= count_hit(old(self)@.counters, t as int));
    }

    fn count_eviction(&mut self, t: usize)
        requires
            old(self).shaped(),
            t < old(self).params.n(),
        ensures
            final(self).shaped(),
            final(self).params == old(self).params,
            final(self)@ == (ArcState { counters: count_eviction(old(self)@.counters, t as int), ..old(self)@ }),
            final(self).t1 == old(self).t1,
            final(self).t2 == old(self).t2,
            final(self).b1 == old(self).b1,
            final(self).b2 == old(self).b2,
    {
        let mut c = self.counters[t];
        c.evictions = bump(c.evictions);
        self.counters.set(t, c);
        assert(self@.counters =~= count_eviction(old(self)@.counters, t as int));
    }

    /// Evicts the LRU record of tenant `d`'s list of kind `k` into the
    /// matching ghost list; returns the location it held.
    fn evict(&mut self, k: ListKind, d: usize) -> (loc: usize)
        requires
            old(self).shaped(),
            d < old(self).params.n(),
            family(old(self)@.t1, old(self)@.t2, k)[d as int].len() > 0,
        ensures
            final(self).shaped(),
            final(self).params == old(self).params,
            (final(self)@, loc) == evict(old(self)@, k, d as int),
            forall|j: int| 0 <= j < old(self).b1.handles().len() ==> final(self).b1.handles()[j] == old(self).b1.handles()[j],
            forall|j: int| 0 <= j < old(self).b2.handles().len() ==> final(self).b2.handles()[j] == old(self).b2.handles()[j],
    {
        if k == ListKind::T1 {
            let e = self.t1[d].pop_lru().unwrap();
            self.b1.push_mru(Entry { loc: NO_SLOT, ..e });
            assert(self@.t1 =~= old(self)@.t1.update(d as int, old(self)@.t1[d as int].remove(0)));
            self.count_eviction(d);
            e.loc
        } else {
            let e = self.t2[d].pop_lru().unwrap();
            self.b2.push_mru(Entry { loc: NO_SLOT, ..e });
            assert(self@.t2 =~= old(self)@.t2.update(d as int, old(self)@.t2[d as int].remove(0)));
            self.count_eviction(d);
            e.loc
        }
    }

    /// Places a newly seen page at the MRU end of its tenant's T1.
    fn take_in(&mut self, t: usize, page: u32, loc: usize) -> (r: usize)
        requires
            old(self).shaped(),
            t < old(self).params.n(),
        ensures
            final(self).shaped(),
            final(self).params == old(self).params,
            (final(self)@, r) == take_in(old(self)@, t as int, page, loc),
    {
        self.t1[t].push_mru(Entry { tenant: t, page, clock: self.now, loc });
        assert(self@.t1 =~= old(self)@.t1.update(
            t as int,
            old(self)@.t1[t as int].push(Entry { tenant: t, page, clock: self.now, loc }),
        ));
        self.count_miss(t);
        loc
    }
}

impl Buffer {
    /// The ghost record at position `i` of B1 (of B2 with `from_b2`) is
    /// hit: adapt `p`, evict, and bring the page back into T2.
    fn ghost_hit(&mut self, t: usize, page: u32, h: usize, i: Ghost<int>, from_b2: bool) -> (r: Option<usize>)
        requires
            old(self).wf(),
            t < old(self).params.n(),
            from_b2 ==> 0 <= i@ < old(self)@.b2.len() && old(self).b2.handles()[i@] == h,
            !from_b2 ==> 0 <= i@ < old(self)@.b1.len() && old(self).b1.handles()[i@] == h,
        ensures
            final(self).shaped(),
            final(self).params == old(self).params,
            match ghost_hit(old(self).params, old(self)@, t as int, page, i@, from_b2) {
                Some((s, loc)) => r == Some(loc) && final(self)@ == s,
                None => r is None && final(self)@ == old(self)@,
            },
    {
        let q = self.params.buffer_size_q;
        let p = if !from_b2 {
            let ratio = self.b2.len() / self.b1.len();
            let delta = if ratio > 1 {
                ratio
            } else {
                1
            };
            if delta > q - self.p {
                q
            } else {
                self.p + delta
            }
        } else {
            let ratio = self.b1.len() / self.b2.len();
            let delta = if ratio > 1 {
                ratio
            } else {
                1
            };
            if delta > self.p {
                0
            } else {
                self.p - delta
            }
        };
        match self.replace_victim(p, t, from_b2) {
            None => None,
            Some((k, d)) => {
                proof {
                    lemma_best_donor(self.params, self@.t1, self@.t2, family(self@.t1, self@.t2, k), t as int, true, self.params.n());
                }
                self.p = p;
                let loc = self.evict(k, d);
                if from_b2 {
                    proof {
                        old(self).b2.lemma_wf();
                        self.b2.lemma_wf();
                        assert(self@.b2.len() >= old(self)@.b2.len());
                        assert(self.b2.handles()[i@] == h);
                        assert(self.b2.handles().contains(h));
                    }
                    self.b2.remove(h);
                } else {
                    proof {
                        old(self).b1.lemma_wf();
                        self.b1.lemma_wf();
                        assert(self@.b1.len() >= old(self)@.b1.len());
                        assert(self.b1.handles()[i@] == h);
                        assert(self.b1.handles().contains(h));
                    }
                    self.b1.remove(h);
                }
                let ghost mid = self@;
                self.t2[t].push_mru(Entry { tenant: t, page, clock: self.now, loc });
                assert(self@.t2 =~= mid.t2.update(
                    t as int,
                    mid.t2[t as int].push(Entry { tenant: t, page, clock: self.now, loc }),
                ));
                self.count_miss(t);
                Some(loc)
            },
        }
    }
}

impl Buffer {
    /// `(t, page)` is known nowhere: find it a location and place it in T1.
    fn full_miss(&mut self, t: usize, page: u32) -> (r: Option<usize>)
        requires
            old(self).wf(),
            t < old(self).params.n(),
        ensures
            final(self).shaped(),
            final(self).params == old(self).params,
            match full_miss(old(self).params, old(self)@, t as int, page) {
                Some((s, loc)) => r == Some(loc) && final(self)@ == s,
                None => r is None && final(self)@ == old(self)@,
            },
    {
        proof {
            lemma_sum_lens_nonneg(self@.t1);
            lemma_sum_lens_nonneg(self@.t2);
        }
        let q = self.params.buffer_size_q;
        let t1_len = Buffer::total_len(&self.t1, self.max_loc);
        let t2_len = Buffer::total_len(&self.t2, self.max_loc);
        let l1_len = t1_len as u128 + self.b1.len() as u128;
        let (_, _, qmax) = self.params.buffer_sizes_qt[t];
        if l1_len == q as u128 {
            if t1_len < q {
                match self.replace_victim(self.p, t, false) {
                    None => None,
                    Some((k, d)) => {
                        proof {
                            lemma_best_donor(self.params, self@.t1, self@.t2, family(self@.t1, self@.t2, k), t as int, true, self.params.n());
                        }
                        self.b1.pop_lru();
                        let loc = self.evict(k, d);
                        Some(self.take_in(t, page, loc))
                    },
                }
            } else {
                match self.best_donor(ListKind::T1, t, false) {
                    None => None,
                    Some(d) => {
                        proof {
                            lemma_best_donor(self.params, self@.t1, self@.t2, self@.t1, t as int, false, self.params.n());
                        }
                        let e = self.t1[d].pop_lru().unwrap();
                        assert(self@.t1 =~= old(self)@.t1.update(d as int, old(self)@.t1[d as int].remove(0)));
                        self.count_eviction(d);
                        Some(self.take_in(t, page, e.loc))
                    },
                }
            }
        } else if l1_len + t2_len as u128 + self.b2.len() as u128 >= q as u128 || self.resident_of(t) == qmax {
            match self.replace_victim(self.p, t, false) {
                None => None,
                Some((k, d)) => {
                    proof {
                        lemma_best_donor(self.params, self@.t1, self@.t2, family(self@.t1, self@.t2, k), t as int, true, self.params.n());
                    }
                    if t1_len as u128 + t2_len as u128 + self.b2.len() as u128 == 2 * (q as u128)
                        && self.b2.len() > 0 {
                        self.b2.pop_lru();
                    }
                    let loc = self.evict(k, d);
                    Some(self.take_in(t, page, loc))
                },
            }
        } else {
            self.max_loc = self.max_loc + 1;
            let loc = self.max_loc;
            Some(self.take_in(t, page, loc))
        }
    }
}

impl Buffer {
    /// The location of `op`'s page after the access, or `None` when no
    /// tenant may give up a page for it, in which case nothing changes.
    pub fn locate(&mut self, op: Operation) -> (r: Option<usize>)
        requires
            old(self).wf(),
            1 <= op.tenant.0 <= old(self).cfg().n(),
            1 <= op.page.0 <= old(self).cfg().db_size_dt@[op.tenant.0 - 1],
            old(self)@.now < u64::MAX,
        ensures
            final(self).cfg() == old(self).cfg(),
            final(self).wf(),
            r matches Some(loc) ==> 1 <= loc <= old(self).cfg().q(),
            match step(old(self).cfg(), old(self)@, op) {
                Some((s, loc)) => r == Some(loc) && final(self)@ == s,
                None => r is None && final(self)@ == old(self)@,
            },
    {
        proof {
            lemma_step_consistent(old(self).cfg(), old(self)@, op);
        }
        let t = op.tenant.index();
        let page = op.page.0;
        let old_now = self.now;
        self.now = self.now + 1;
        if let Some(h) = self.t1[t].find(t, page) {
            let ghost i = find(old(self)@.t1[t as int], t as int, page)->Some_0;
            proof {
                lemma_find_bounds(old(self)@.t1[t as int], t as int, page);
            }
            proof {
                self.t1@[t as int].lemma_wf();
                assert(self.t1@[t as int].handles()[i] == h);
            }
            let e = self.t1[t].remove(h);
            let ghost mid = self@;
            self.t2[t].push_mru(Entry { tenant: t, page, clock: self.now, loc: e.loc });
            assert(self@.t1 =~= old(self)@.t1.update(t as int, old(self)@.t1[t as int].remove(i)));
            assert(self@.t2 =~= old(self)@.t2.update(
                t as int,
                old(self)@.t2[t as int].push(Entry { tenant: t, page, clock: self.now, loc: e.loc }),
            ));
            self.count_hit(t);
            return Some(e.loc);
        }
        if let Some(h) = self.t2[t].find(t, page) {
            let ghost i = find(old(self)@.t2[t as int], t as int, page)->Some_0;
            proof {
                lemma_find_bounds(old(self)@.t2[t as int], t as int, page);
            }
            proof {
                self.t2@[t as int].lemma_wf();
                assert(self.t2@[t as int].handles()[i] == h);
            }
            let e = self.t2[t].remove(h);
            self.t2[t].push_mru(Entry { tenant: t, page, clock: self.now, loc: e.loc });
            assert(self@.t2 =~= old(self)@.t2.update(
                t as int,
                old(self)@.t2[t as int].remove(i).push(
                    Entry { tenant: t, page, clock: self.now, loc: e.loc },
                ),
            ));
            self.count_hit(t);
            return Some(e.loc);
        }
        let r = if let Some(h) = self.b1.find(t, page) {
            let ghost i = find(old(self)@.b1, t as int, page)->Some_0;
            proof {
                lemma_find_bounds(old(self)@.b1, t as int, page);
            }
            self.ghost_hit(t, page, h, Ghost(i), false)
        } else if let Some(h) = self.b2.find(t, page) {
            let ghost i = find(old(self)@.b2, t as int, page)->Some_0;
            proof {
                lemma_find_bounds(old(self)@.b2, t as int, page);
            }
            self.ghost_hit(t, page, h, Ghost(i), true)
        } else {
            self.full_miss(t, page)
        };
        if r.is_none() {
            self.now = old_now;
        }
        r
    }
}

impl Buffer {
    /// The accounting every observation must see: the resident lists hold
    /// exactly `max_loc` pages, `max_loc` is within `Q`, and every tenant is
    /// within its `qmax` and its number of distinct pages `D_t`.
    pub open spec fn counts_hold(&self) -> bool {
        &&& sum_lens(self@.t1) + sum_lens(self@.t2) == self@.max_loc
        &&& self@.max_loc <= self.cfg().q()
        &&& forall|t: int|
            0 <= t < self.cfg().n() ==> #[trigger] resident(self@.t1, self@.t2, t) <= self.cfg().qmax(t)
                && resident(self@.t1, self@.t2, t) <= self.cfg().db_size_dt@[t]
    }

    /// Decides `counts_hold`.
    pub fn check_invariants(&self) -> (r: bool)
        requires
            self.wf(),
        ensures
            r == self.counts_hold(),
            r,
    {
        proof {
            lemma_sum_lens_nonneg(self@.t1);
            lemma_sum_lens_nonneg(self@.t2);
            assert forall|t: int| 0 <= t < self.cfg().n() implies #[trigger] resident(self@.t1, self@.t2, t) <= self.cfg().qmax(t)
                && resident(self@.t1, self@.t2, t) <= self.cfg().db_size_dt@[t] by {
                lemma_tenant_ceiling(self.cfg(), self@, t);
            }
        }
        let t1_len = Buffer::total_len(&self.t1, self.max_loc);
        let t2_len = Buffer::total_len(&self.t2, self.max_loc);
        if t1_len + t2_len != self.max_loc || self.max_loc > self.params.buffer_size_q {
            return false;
        }
        let n = self.params.num_tenants_n;
        let mut t: usize = 0;
        while t < n
            invariant
                self.wf(),
                self.counts_hold(),
                n == self.cfg().n(),
                t <= n,
                forall|u: int|
                    0 <= u < t ==> #[trigger] resident(self@.t1, self@.t2, u) <= self.cfg().qmax(u)
                        && resident(self@.t1, self@.t2, u) <= self.cfg().db_size_dt@[u],
            decreases n - t,
        {
            let res = self.resident_of(t);
            let (_, _, qmax) = self.params.buffer_sizes_qt[t];
            if res > qmax || res > self.params.db_size_dt[t] {
                return false;
            }
            t = t + 1;
        }
        true
    }
}

/// A prefix of a family holds no more records than the whole family.
pub proof fn lemma_sum_lens_prefix(ls: Seq<Seq<Entry>>, k: int)
    requires
        0 <= k <= ls.len(),
    ensures
        sum_lens(ls.subrange(0, k)) <= sum_lens(ls),
    decreases ls.len(),
{
    if k < ls.len() {
        assert(ls.drop_last().subrange(0, k) =~= ls.subrange(0, k));
        lemma_sum_lens_prefix(ls.drop_last(), k);
    } else {
        assert(ls.subrange(0, k) =~= ls);
    }
}

/// A family of empty lists holds no record.
pub proof fn lemma_sum_lens_empty(ls: Seq<Seq<Entry>>)
    requires
        forall|i: int| 0 <= i < ls.len() ==> (#[trigger] ls[i]).len() == 0,
    ensures
        sum_lens(ls) == 0,
    decreases ls.len(),
{
    if ls.len() > 0 {
        lemma_sum_lens_empty(ls.drop_last());
    }
}

} // verus!
