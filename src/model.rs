//! The mathematical model of the engine: its state, one access as a function on states, and the invariant.

use vstd::prelude::*;
use crate::lru::find;
use crate::params::Params;
use crate::types::{Counters, Entry, ListKind, Operation, NO_SLOT};

verus! {

/// The abstract state of the replacement engine.
pub struct ArcState {
    /// Per-tenant recency lists (resident, seen once).
    pub t1: Seq<Seq<Entry>>,
    /// Per-tenant frequency lists (resident, seen again).
    pub t2: Seq<Seq<Entry>>,
    /// Shared ghost list of records evicted from some T1.
    pub b1: Seq<Entry>,
    /// Shared ghost list of records evicted from some T2.
    pub b2: Seq<Entry>,
    /// Adaptation parameter: target size of the recency side.
    pub p: int,
    /// Number of distinct locations handed out so far.
    pub max_loc: int,
    /// Global clock, advanced once per access.
    pub now: int,
    pub counters: Seq<Counters>,
}

/// Total length of a family of per-tenant lists.
pub open spec fn sum_lens(ls: Seq<Seq<Entry>>) -> int
    decreases ls.len(),
{
    if ls.len() == 0 {
        0
    } else {
        sum_lens(ls.drop_last()) + ls.last().len()
    }
}

/// A family never holds a negative number of records.
pub proof fn lemma_sum_lens_nonneg(ls: Seq<Seq<Entry>>)
    ensures
        sum_lens(ls) >= 0,
    decreases ls.len(),
{
    if ls.len() > 0 {
        lemma_sum_lens_nonneg(ls.drop_last());
    }
}

/// Number of resident pages of tenant `e`.
pub open spec fn resident(t1: Seq<Seq<Entry>>, t2: Seq<Seq<Entry>>, e: int) -> int {
    (t1[e].len() + t2[e].len()) as int
}

/// Tenant `r` holds as many resident pages as its `qmax` allows.
pub open spec fn at_qmax(cfg: Params, t1: Seq<Seq<Entry>>, t2: Seq<Seq<Entry>>, r: int) -> bool {
    resident(t1, t2, r) == cfg.qmax(r)
}

/// May tenant `e` give up a resident page for an access of tenant `r`?
pub open spec fn eligible(
    cfg: Params,
    t1: Seq<Seq<Entry>>,
    t2: Seq<Seq<Entry>>,
    r: int,
    e: int,
) -> bool {
    if at_qmax(cfg, t1, t2, r) {
        e == r
    } else if e == r {
        resident(t1, t2, e) >= cfg.qmin(e)
    } else {
        resident(t1, t2, e) > cfg.qmin(e)
    }
}

/// Tenant `e` holds more resident pages than its `qbase`.
pub open spec fn over_base(cfg: Params, t1: Seq<Seq<Entry>>, t2: Seq<Seq<Entry>>, e: int) -> bool {
    resident(t1, t2, e) > cfg.qbase(e)
}

/// Does tenant `e`'s list in `src` win over tenant `b`'s as a donor?
/// With `tiered`, tenants above their `qbase` come first; then the oldest
/// least recently used record wins.
pub open spec fn preferred(
    cfg: Params,
    t1: Seq<Seq<Entry>>,
    t2: Seq<Seq<Entry>>,
    src: Seq<Seq<Entry>>,
    tiered: bool,
    e: int,
    b: int,
) -> bool {
    if tiered && over_base(cfg, t1, t2, e) != over_base(cfg, t1, t2, b) {
        over_base(cfg, t1, t2, e)
    } else {
        src[e][0].clock < src[b][0].clock
    }
}

/// The donor chosen among tenants `0..k` for list family `src`; earlier
/// tenants win ties.
pub open spec fn best_donor(
    cfg: Params,
    t1: Seq<Seq<Entry>>,
    t2: Seq<Seq<Entry>>,
    src: Seq<Seq<Entry>>,
    r: int,
    tiered: bool,
    k: int,
) -> Option<int>
    decreases k,
{
    if k <= 0 {
        None
    } else {
        let prev = best_donor(cfg, t1, t2, src, r, tiered, k - 1);
        let e = k - 1;
        if !(eligible(cfg, t1, t2, r, e) && src[e].len() > 0) {
            prev
        } else {
            match prev {
                None => Some(e),
                Some(b) => if preferred(cfg, t1, t2, src, tiered, e, b) {
                    Some(e)
                } else {
                    prev
                },
            }
        }
    }
}

/// The per-tenant list family of kind `k` (T1, or T2 for any other kind).
pub open spec fn family(t1: Seq<Seq<Entry>>, t2: Seq<Seq<Entry>>, k: ListKind) -> Seq<Seq<Entry>> {
    if k == ListKind::T1 {
        t1
    } else {
        t2
    }
}

/// The donor chosen is eligible and has a record in `src`; when none is
/// chosen, no tenant of `0..k` qualifies.
pub proof fn lemma_best_donor(
    cfg: Params,
    t1: Seq<Seq<Entry>>,
    t2: Seq<Seq<Entry>>,
    src: Seq<Seq<Entry>>,
    r: int,
    tiered: bool,
    k: int,
)
    ensures
        match best_donor(cfg, t1, t2, src, r, tiered, k) {
            Some(b) => 0 <= b < k && eligible(cfg, t1, t2, r, b) && src[b].len() > 0,
            None => forall|e: int|
                0 <= e < k ==> !(eligible(cfg, t1, t2, r, e) && #[trigger] src[e].len() > 0),
        },
    decreases k,
{
    if k > 0 {
        lemma_best_donor(cfg, t1, t2, src, r, tiered, k - 1);
    }
}

/// The eviction search: the list family and tenant that give up a page.
pub open spec fn replace_victim(
    cfg: Params,
    t1: Seq<Seq<Entry>>,
    t2: Seq<Seq<Entry>>,
    p: int,
    r: int,
    from_b2: bool,
) -> Option<(ListKind, int)> {
    let t1_len = sum_lens(t1);
    let first = if t1_len > 0 && (t1_len > p || (from_b2 && t1_len == p)) {
        ListKind::T1
    } else {
        ListKind::T2
    };
    let second = if first == ListKind::T1 {
        ListKind::T2
    } else {
        ListKind::T1
    };
    match best_donor(cfg, t1, t2, family(t1, t2, first), r, true, t1.len() as int) {
        Some(d) => Some((first, d)),
        None => match best_donor(cfg, t1, t2, family(t1, t2, second), r, true, t1.len() as int) {
            Some(d) => Some((second, d)),
            None => None,
        },
    }
}

/// Adds one, saturating at `u64::MAX`.
pub open spec fn inc(x: u64) -> u64 {
    if x == u64::MAX {
        x
    } else {
        (x + 1) as u64
    }
}

/// One more hit for tenant `t`.
pub open spec fn count_hit(cs: Seq<Counters>, t: int) -> Seq<Counters> {
    cs.update(t, Counters { hits: inc(cs[t].hits), ..cs[t] })
}

/// One more miss for tenant `t`.
pub open spec fn count_miss(cs: Seq<Counters>, t: int) -> Seq<Counters> {
    cs.update(t, Counters { misses: inc(cs[t].misses), ..cs[t] })
}

/// One more eviction for tenant `t`.
pub open spec fn count_eviction(cs: Seq<Counters>, t: int) -> Seq<Counters> {
    cs.update(t, Counters { evictions: inc(cs[t].evictions), ..cs[t] })
}

/// The ghost left behind by an evicted record: it holds no location.
pub open spec fn ghost_of(e: Entry) -> Entry {
    Entry { loc: NO_SLOT, ..e }
}

/// Moves the least recently used record of tenant `d`'s list of kind `k`
/// to the matching ghost list; yields the freed location.
pub open spec fn evict(s: ArcState, k: ListKind, d: int) -> (ArcState, usize) {
    if k == ListKind::T1 {
        let e = s.t1[d][0];
        (
            ArcState {
                t1: s.t1.update(d, s.t1[d].remove(0)),
                b1: s.b1.push(ghost_of(e)),
                counters: count_eviction(s.counters, d),
                ..s
            },
            e.loc,
        )
    } else {
        let e = s.t2[d][0];
        (
            ArcState {
                t2: s.t2.update(d, s.t2[d].remove(0)),
                b2: s.b2.push(ghost_of(e)),
                counters: count_eviction(s.counters, d),
                ..s
            },
            e.loc,
        )
    }
}

/// Places a newly seen page of tenant `t` at the MRU end of its T1.
pub open spec fn take_in(s: ArcState, t: int, page: u32, loc: usize) -> (ArcState, usize) {
    let e = Entry { tenant: t as usize, page, clock: s.now as u64, loc };
    (ArcState { t1: s.t1.update(t, s.t1[t].push(e)), counters: count_miss(s.counters, t), ..s }, loc)
}

/// A ghost record of `(t, page)` at position `i` of B1 (or of B2, with
/// `from_b2`) is hit: adapt `p`, evict, and bring the page back into T2.
pub open spec fn ghost_hit(cfg: Params, s: ArcState, t: int, page: u32, i: int, from_b2: bool) -> Option<
    (ArcState, usize),
> {
    let q = cfg.q();
    let p = if !from_b2 {
        let delta = if s.b2.len() / s.b1.len() > 1 {
            s.b2.len() / s.b1.len()
        } else {
            1
        };
        if s.p + delta > q {
            q
        } else {
            s.p + delta
        }
    } else {
        let delta = if s.b1.len() / s.b2.len() > 1 {
            s.b1.len() / s.b2.len()
        } else {
            1
        };
        if s.p - delta < 0 {
            0
        } else {
            s.p - delta
        }
    };
    match replace_victim(cfg, s.t1, s.t2, p, t, from_b2) {
        None => None,
        Some((k, d)) => {
            let (s1, loc) = evict(ArcState { p, ..s }, k, d);
            let s2 = if from_b2 {
                ArcState { b2: s1.b2.remove(i), ..s1 }
            } else {
                ArcState { b1: s1.b1.remove(i), ..s1 }
            };
            let e = Entry { tenant: t as usize, page, clock: s.now as u64, loc };
            Some(
                (
                    ArcState {
                        t2: s2.t2.update(t, s2.t2[t].push(e)),
                        counters: count_miss(s2.counters, t),
                        ..s2
                    },
                    loc,
                ),
            )
        },
    }
}

/// `(t, page)` is known nowhere: find it a location and place it in T1.
pub open spec fn full_miss(cfg: Params, s: ArcState, t: int, page: u32) -> Option<(ArcState, usize)> {
    let q = cfg.q();
    let t1_len = sum_lens(s.t1);
    let t2_len = sum_lens(s.t2);
    let l1_len = t1_len + s.b1.len();
    if l1_len == q {
        if t1_len < q {
            match replace_victim(cfg, s.t1, s.t2, s.p, t, false) {
                None => None,
                Some((k, d)) => {
                    let (s1, loc) = evict(ArcState { b1: s.b1.remove(0), ..s }, k, d);
                    Some(take_in(s1, t, page, loc))
                },
            }
        } else {
            match best_donor(cfg, s.t1, s.t2, s.t1, t, false, s.t1.len() as int) {
                None => None,
                Some(d) => {
                    let loc = s.t1[d][0].loc;
                    let s1 = ArcState {
                        t1: s.t1.update(d, s.t1[d].remove(0)),
                        counters: count_eviction(s.counters, d),
                        ..s
                    };
                    Some(take_in(s1, t, page, loc))
                },
            }
        }
    } else if l1_len + t2_len + s.b2.len() >= q || at_qmax(cfg, s.t1, s.t2, t) {
        match replace_victim(cfg, s.t1, s.t2, s.p, t, false) {
            None => None,
            Some((k, d)) => {
                let s0 = if t1_len + t2_len + s.b2.len() == 2 * q && s.b2.len() > 0 {
                    ArcState { b2: s.b2.remove(0), ..s }
                } else {
                    s
                };
                let (s1, loc) = evict(s0, k, d);
                Some(take_in(s1, t, page, loc))
            },
        }
    } else {
        let loc = (s.max_loc + 1) as usize;
        Some(take_in(ArcState { max_loc: s.max_loc + 1, ..s }, t, page, loc))
    }
}

/// One access: the new state and the location of the page, or `None` when
/// no tenant may give up a page for it (the state is then left unchanged).
pub open spec fn step(cfg: Params, s: ArcState, op: Operation) -> Option<(ArcState, usize)> {
    let t = op.tenant.0 - 1;
    let page = op.page.0;
    let s0 = ArcState { now: s.now + 1, ..s };
    let renewed = |loc: usize| Entry { tenant: t as usize, page, clock: (s.now + 1) as u64, loc };
    match find(s.t1[t], t, page) {
        Some(i) => {
            let loc = s.t1[t][i].loc;
            Some(
                (
                    ArcState {
                        t1: s.t1.update(t, s.t1[t].remove(i)),
                        t2: s.t2.update(t, s.t2[t].push(renewed(loc))),
                        counters: count_hit(s.counters, t),
                        ..s0
                    },
                    loc,
                ),
            )
        },
        None => match find(s.t2[t], t, page) {
            Some(i) => {
                let loc = s.t2[t][i].loc;
                Some(
                    (
                        ArcState {
                            t2: s.t2.update(t, s.t2[t].remove(i).push(renewed(loc))),
                            counters: count_hit(s.counters, t),
                            ..s0
                        },
                        loc,
                    ),
                )
            },
            None => match find(s.b1, t, page) {
                Some(i) => ghost_hit(cfg, s0, t, page, i, false),
                None => match find(s.b2, t, page) {
                    Some(i) => ghost_hit(cfg, s0, t, page, i, true),
                    None => full_miss(cfg, s0, t, page),
                },
            },
        },
    }
}

/// Every family has one list per tenant and a counter record per tenant; the
/// resident lists account for every location handed out; `p` stays in
/// `[0, Q]`; every tenant is within its ceiling; no T1 list holds two
/// records of one page; resident pages hold distinct locations in
/// `[1, max_loc]`; and each tenant's resident pages are distinct pages of
/// its own, in `[1, D_t]`; ghost records hold no location and every tenant
/// page has at most one record over the four families; and the recency
/// side (all of T1 and B1) holds at most `Q` records.
pub open spec fn consistent(cfg: Params, s: ArcState) -> bool {
    &&& cfg.valid()
    &&& s.t1.len() == cfg.n()
    &&& s.t2.len() == cfg.n()
    &&& s.counters.len() == cfg.n()
    &&& sum_lens(s.t1) + sum_lens(s.t2) == s.max_loc
    &&& s.max_loc <= cfg.q()
    &&& 0 <= s.p <= cfg.q()
    &&& 0 <= s.now <= u64::MAX
    &&& forall|t: int| 0 <= t < cfg.n() ==> #[trigger] resident(s.t1, s.t2, t) <= cfg.qmax(t)
    &&& forall|t: int| 0 <= t < cfg.n() ==> unique_keys(#[trigger] s.t1[t])
    &&& locs_within(s.t1, s.max_loc)
    &&& locs_within(s.t2, s.max_loc)
    &&& distinct_locs(s.t1, s.t2)
    &&& pages_ok(cfg, s.t1, s.t2)
    &&& ghosts_ok(cfg, s.t1, s.t2, s.b1, s.b2)
    &&& sum_lens(s.t1) + s.b1.len() <= cfg.q()
}

/// The T1 family after cutting record `i` of tenant `u`'s T2 (with `f`) or T1.
pub open spec fn cut_t1(t1: Seq<Seq<Entry>>, f: bool, u: int, i: int) -> Seq<Seq<Entry>> {
    if f {
        t1
    } else {
        t1.update(u, t1[u].remove(i))
    }
}

/// The T2 family after cutting record `i` of tenant `u`'s T2 (with `f`) or T1.
pub open spec fn cut_t2(t2: Seq<Seq<Entry>>, f: bool, u: int, i: int) -> Seq<Seq<Entry>> {
    if f {
        t2.update(u, t2[u].remove(i))
    } else {
        t2
    }
}

/// The T1 family after placing `e` at the MRU end of tenant `u`'s T2 (with `f`) or T1.
pub open spec fn put_t1(t1: Seq<Seq<Entry>>, f: bool, u: int, e: Entry) -> Seq<Seq<Entry>> {
    if f {
        t1
    } else {
        t1.update(u, t1[u].push(e))
    }
}

/// The T2 family after placing `e` at the MRU end of tenant `u`'s T2 (with `f`) or T1.
pub open spec fn put_t2(t2: Seq<Seq<Entry>>, f: bool, u: int, e: Entry) -> Seq<Seq<Entry>> {
    if f {
        t2.update(u, t2[u].push(e))
    } else {
        t2
    }
}

/// The resident records of tenant `t`: its T1 followed by its T2.
pub open spec fn both(t1: Seq<Seq<Entry>>, t2: Seq<Seq<Entry>>, t: int) -> Seq<Entry> {
    t1[t] + t2[t]
}

/// Each tenant's resident records are its own pages, each in `[1, D_t]`,
/// and none of them twice.
pub open spec fn pages_ok(cfg: Params, t1: Seq<Seq<Entry>>, t2: Seq<Seq<Entry>>) -> bool {
    forall|t: int| 0 <= t < cfg.n() ==> {
        &&& unique_keys(#[trigger] both(t1, t2, t))
        &&& forall|i: int| 0 <= i < both(t1, t2, t).len() ==> {
            &&& (#[trigger] both(t1, t2, t)[i]).tenant == t
            &&& 1 <= both(t1, t2, t)[i].page <= cfg.db_size_dt@[t]
        }
    }
}

/// The record at position `i` of tenant `u`'s T2 (with `f`) or T1.
pub open spec fn rec(t1: Seq<Seq<Entry>>, t2: Seq<Seq<Entry>>, f: bool, u: int, i: int) -> Entry {
    if f {
        t2[u][i]
    } else {
        t1[u][i]
    }
}

/// Position `i` of tenant `u`'s T2 (with `f`) or T1 holds a record.
pub open spec fn has_pos(t1: Seq<Seq<Entry>>, t2: Seq<Seq<Entry>>, f: bool, u: int, i: int) -> bool {
    if f {
        0 <= u < t2.len() && 0 <= i < t2[u].len()
    } else {
        0 <= u < t1.len() && 0 <= i < t1[u].len()
    }
}

/// No two resident records, over all tenants, hold the same location.
pub open spec fn distinct_locs(t1: Seq<Seq<Entry>>, t2: Seq<Seq<Entry>>) -> bool {
    forall|f1: bool, u1: int, i1: int, f2: bool, u2: int, i2: int|
        has_pos(t1, t2, f1, u1, i1) && has_pos(t1, t2, f2, u2, i2) && !(f1 == f2 && u1 == u2 && i1
            == i2) ==> #[trigger] rec(t1, t2, f1, u1, i1).loc != #[trigger] rec(t1, t2, f2, u2, i2).loc
}

/// No resident record holds location `l`.
pub open spec fn loc_free(t1: Seq<Seq<Entry>>, t2: Seq<Seq<Entry>>, l: int) -> bool {
    forall|f: bool, u: int, i: int| has_pos(t1, t2, f, u, i) ==> #[trigger] rec(t1, t2, f, u, i).loc != l
}

/// Every record of the family holds a location in `[1, m]`.
pub open spec fn locs_within(ls: Seq<Seq<Entry>>, m: int) -> bool {
    forall|t: int, i: int|
        0 <= t < ls.len() && 0 <= i < ls[t].len() ==> 1 <= (#[trigger] ls[t][i]).loc <= m
}

/// From `s` to `s1`, on an access of tenant `r`: every other tenant that
/// lost resident pages still holds at least its `qmin`.
pub open spec fn floor_kept(cfg: Params, s: ArcState, s1: ArcState, r: int) -> bool {
    forall|u: int|
        0 <= u < cfg.n() && u != r ==> #[trigger] resident(s1.t1, s1.t2, u) >= resident(s.t1, s.t2, u)
            || resident(s1.t1, s1.t2, u) >= cfg.qmin(u)
}

/// No two records of `s` belong to the same tenant page.
pub open spec fn unique_keys(s: Seq<Entry>) -> bool {
    forall|i: int, j: int|
        0 <= i < j < s.len() ==> !(#[trigger] s[i]).is_key(s[j].tenant as int, #[trigger] s[j].page)
}

/// The ghost lists hold no location; no tenant page has two ghost
/// records; and no ghost record belongs to a resident page.
pub open spec fn ghosts_ok(
    cfg: Params,
    t1: Seq<Seq<Entry>>,
    t2: Seq<Seq<Entry>>,
    b1: Seq<Entry>,
    b2: Seq<Entry>,
) -> bool {
    &&& forall|j: int| 0 <= j < b1.len() ==> (#[trigger] b1[j]).loc == NO_SLOT
    &&& forall|j: int| 0 <= j < b2.len() ==> (#[trigger] b2[j]).loc == NO_SLOT
    &&& unique_keys(b1 + b2)
    &&& forall|t: int, j: int, k: int|
        0 <= t < cfg.n() && 0 <= j < both(t1, t2, t).len() && 0 <= k < (b1 + b2).len() ==> !(#[trigger] (b1
            + b2)[k]).is_key(t, #[trigger] both(t1, t2, t)[j].page)
}

} // verus!
