//! Properties that hold of every access, proved over the model.

use vstd::prelude::*;
use crate::lemmas::{
    lemma_absent_both, lemma_absent_ghosts, lemma_full_miss_consistent, lemma_ghost_hit_consistent,
    lemma_hit_consistent, lemma_on_top, lemma_pages_bound,
};
use crate::lru::{find, lemma_find_bounds};
use crate::model::{
    ArcState, both, consistent, count_hit, distinct_locs, floor_kept, resident, step, sum_lens,
};
use crate::params::Params;
use crate::types::Operation;

verus! {

/// Every access keeps the engine's invariant (`consistent`): each family
/// has one list per tenant, the resident lists account for exactly the
/// locations handed out (never more than `Q`), `p` stays in `[0, Q]`, every
/// tenant stays within its `qmax`, resident pages hold distinct locations in
/// `[1, max_loc]`, and each tenant's resident pages are distinct pages of
/// its own. The location returned is in `[1, Q]`, and no tenant other than
/// the one accessing is pushed below its `qmin`.
pub proof fn lemma_step_consistent(cfg: Params, s: ArcState, op: Operation)
    requires
        consistent(cfg, s),
        1 <= op.tenant.0 <= cfg.n(),
        1 <= op.page.0 <= cfg.db_size_dt@[op.tenant.0 - 1],
        s.now < u64::MAX,
    ensures
        step(cfg, s, op) matches Some((s1, loc)) ==> consistent(cfg, s1) && 1 <= loc <= cfg.q()
            && floor_kept(cfg, s, s1, op.tenant.0 - 1),
{
    let t = op.tenant.0 - 1;
    let page = op.page.0;
    lemma_find_bounds(s.t1[t], t, page);
    if find(s.t1[t], t, page) is Some || find(s.t2[t], t, page) is Some {
        lemma_hit_consistent(cfg, s, op);
    } else {
        let s0 = ArcState { now: s.now + 1, ..s };
        lemma_find_bounds(s.b1, t, page);
        lemma_find_bounds(s.b2, t, page);
        lemma_find_bounds(s.t2[t], t, page);
        lemma_absent_both(s.t1, s.t2, t, page);
        if find(s.b1, t, page) is None && find(s.b2, t, page) is None {
            lemma_absent_ghosts(s.b1, s.b2, t, page);
        }
        match find(s.b1, t, page) {
            Some(i) => lemma_ghost_hit_consistent(cfg, s0, t, page, i, false),
            None => match find(s.b2, t, page) {
                Some(i) => lemma_ghost_hit_consistent(cfg, s0, t, page, i, true),
                None => lemma_full_miss_consistent(cfg, s0, t, page),
            },
        }
    }
}

/// Every location an access returns lies in `[1, Q]`.
pub proof fn lemma_location_in_range(cfg: Params, s: ArcState, op: Operation)
    requires
        consistent(cfg, s),
        1 <= op.tenant.0 <= cfg.n(),
        1 <= op.page.0 <= cfg.db_size_dt@[op.tenant.0 - 1],
        s.now < u64::MAX,
    ensures
        step(cfg, s, op) matches Some((s1, loc)) ==> 1 <= loc <= cfg.q(),
{
    lemma_step_consistent(cfg, s, op);
}

/// An access of tenant `r` never takes a resident page from another tenant
/// that holds no more than its `qmin`: whoever loses a page keeps at least
/// `qmin`.
pub proof fn lemma_floor_protected(cfg: Params, s: ArcState, op: Operation)
    requires
        consistent(cfg, s),
        1 <= op.tenant.0 <= cfg.n(),
        1 <= op.page.0 <= cfg.db_size_dt@[op.tenant.0 - 1],
        s.now < u64::MAX,
    ensures
        step(cfg, s, op) matches Some((s1, loc)) ==> floor_kept(cfg, s, s1, op.tenant.0 - 1),
{
    lemma_step_consistent(cfg, s, op);
}

/// After any access no two resident pages, over all tenants, hold the same
/// location.
pub proof fn lemma_locations_distinct(cfg: Params, s: ArcState, op: Operation)
    requires
        consistent(cfg, s),
        1 <= op.tenant.0 <= cfg.n(),
        1 <= op.page.0 <= cfg.db_size_dt@[op.tenant.0 - 1],
        s.now < u64::MAX,
    ensures
        step(cfg, s, op) matches Some((s1, loc)) ==> distinct_locs(s1.t1, s1.t2),
{
    lemma_step_consistent(cfg, s, op);
}

/// After any access the per-tenant resident lists hold, all together,
/// exactly as many pages as locations were ever handed out; that count
/// never exceeds `Q` and never decreases.
pub proof fn lemma_accounting(cfg: Params, s: ArcState, op: Operation)
    requires
        consistent(cfg, s),
        1 <= op.tenant.0 <= cfg.n(),
        1 <= op.page.0 <= cfg.db_size_dt@[op.tenant.0 - 1],
        s.now < u64::MAX,
    ensures
        step(cfg, s, op) matches Some((s1, loc)) ==> sum_lens(s1.t1) + sum_lens(s1.t2) == s1.max_loc
            <= cfg.q() && s1.max_loc >= s.max_loc,
{
    lemma_step_consistent(cfg, s, op);
}

/// Repeating an access at once returns the same location as the first
/// call, and counts as a hit of the tenant, not a miss.
pub proof fn lemma_repeat_is_hit(cfg: Params, s: ArcState, op: Operation)
    requires
        consistent(cfg, s),
        1 <= op.tenant.0 <= cfg.n(),
        s.now + 1 < u64::MAX,
    ensures
        step(cfg, s, op) matches Some((s1, loc)) ==> {
            &&& step(cfg, s1, op) matches Some((s2, loc2))
            &&& loc2 == loc
            &&& s2.counters == count_hit(s1.counters, op.tenant.0 - 1)
            &&& s2.max_loc == s1.max_loc
        },
{
    lemma_on_top(cfg, s, op);
}

/// In every consistent state each tenant holds at most `qmax` and at most
/// `D_t` resident pages.
pub proof fn lemma_tenant_ceiling(cfg: Params, s: ArcState, t: int)
    requires
        consistent(cfg, s),
        0 <= t < cfg.n(),
    ensures
        resident(s.t1, s.t2, t) <= cfg.qmax(t),
        resident(s.t1, s.t2, t) <= cfg.db_size_dt@[t],
{
    lemma_pages_bound(cfg, s.t1, s.t2, t);
}

/// After an access its page is resident, holds the location returned, and
/// has no ghost record left (a ghost hit leaves no ghost behind).
pub proof fn lemma_page_resident_after(cfg: Params, s: ArcState, op: Operation)
    requires
        consistent(cfg, s),
        1 <= op.tenant.0 <= cfg.n(),
        1 <= op.page.0 <= cfg.db_size_dt@[op.tenant.0 - 1],
        s.now < u64::MAX,
    ensures
        step(cfg, s, op) matches Some((s1, loc)) ==> {
            let t = op.tenant.0 - 1;
            &&& exists|j: int| 0 <= j < both(s1.t1, s1.t2, t).len() && (#[trigger] both(s1.t1, s1.t2, t)[j]).is_key(t, op.page.0)
                && both(s1.t1, s1.t2, t)[j].loc == loc
            &&& forall|q: int| 0 <= q < (s1.b1 + s1.b2).len() ==> !(#[trigger] (s1.b1 + s1.b2)[q]).is_key(t, op.page.0)
        },
{
    lemma_step_consistent(cfg, s, op);
    lemma_on_top(cfg, s, op);
    if let Some((s1, loc)) = step(cfg, s, op) {
        let t = op.tenant.0 - 1;
        let page = op.page.0;
        let x = both(s1.t1, s1.t2, t);
        let j = if s1.t1[t].len() > 0 && find(s1.t1[t], t, page) == Some(s1.t1[t].len() - 1) {
            s1.t1[t].len() - 1
        } else {
            s1.t1[t].len() + s1.t2[t].len() - 1
        };
        lemma_find_bounds(s1.t1[t], t, page);
        lemma_find_bounds(s1.t2[t], t, page);
        assert(x[j].is_key(t, page) && x[j].loc == loc);
        assert forall|q: int| 0 <= q < (s1.b1 + s1.b2).len() implies !(#[trigger] (s1.b1 + s1.b2)[q]).is_key(t, page) by {
            assert(!(s1.b1 + s1.b2)[q].is_key(t, x[j].page));
        }
    }
}

} // verus!
