//! Proof steps behind the laws.

use vstd::prelude::*;
use crate::lru::{find, lemma_find_bounds};
use crate::model::{
    ArcState, at_qmax, best_donor, consistent, eligible, evict, family, full_miss, ghost_hit,
    lemma_best_donor, lemma_sum_lens_nonneg, locs_within, replace_victim, resident, step,
    sum_lens, unique_keys, floor_kept, rec, has_pos, distinct_locs, loc_free,
    both, pages_ok, cut_t1, cut_t2, put_t1, put_t2, ghosts_ok, ghost_of,
};
use crate::params::Params;
use crate::types::{Entry, ListKind, Operation, NO_SLOT};

verus! {

pub(crate) proof fn lemma_sum_lens_update(ls: Seq<Seq<Entry>>, i: int, x: Seq<Entry>)
    requires
        0 <= i < ls.len(),
    ensures
        sum_lens(ls.update(i, x)) == sum_lens(ls) - ls[i].len() + x.len(),
    decreases ls.len(),
{
    if i < ls.len() - 1 {
        assert(ls.update(i, x).drop_last() =~= ls.drop_last().update(i, x));
        lemma_sum_lens_update(ls.drop_last(), i, x);
    } else {
        assert(ls.update(i, x).drop_last() =~= ls.drop_last());
    }
}

pub(crate) proof fn lemma_unique_keys_remove(s: Seq<Entry>, i: int)
    requires
        unique_keys(s),
        0 <= i < s.len(),
    ensures
        unique_keys(s.remove(i)),
{
    let r = s.remove(i);
    assert forall|a: int, b: int| 0 <= a < b < r.len() implies !(#[trigger] r[a]).is_key(
        r[b].tenant as int,
        #[trigger] r[b].page,
    ) by {
        let a0 = if a < i { a } else { a + 1 };
        let b0 = if b < i { b } else { b + 1 };
        assert(r[a] == s[a0] && r[b] == s[b0]);
        assert(!s[a0].is_key(s[b0].tenant as int, s[b0].page));
    }
}

pub(crate) proof fn lemma_unique_keys_push(s: Seq<Entry>, e: Entry)
    requires
        unique_keys(s),
        forall|j: int| 0 <= j < s.len() ==> !(#[trigger] s[j]).is_key(e.tenant as int, e.page),
    ensures
        unique_keys(s.push(e)),
{
    let r = s.push(e);
    assert forall|a: int, b: int| 0 <= a < b < r.len() implies !(#[trigger] r[a]).is_key(
        r[b].tenant as int,
        #[trigger] r[b].page,
    ) by {
        if b < s.len() {
            assert(r[a] == s[a] && r[b] == s[b]);
        } else {
            assert(r[a] == s[a]);
        }
    }
}

/// Facts on the state after an eviction by the search. `(rt, page)` is a
/// key that tenant `rt`'s T1 does not hold; it still does not after.
pub(crate) proof fn lemma_evict(cfg: Params, s: ArcState, k: ListKind, d: int, rt: int, page: u32)
    requires
        consistent(cfg, s),
        0 <= d < cfg.n(),
        0 <= rt < cfg.n(),
        family(s.t1, s.t2, k)[d].len() > 0,
        forall|j: int| 0 <= j < both(s.t1, s.t2, rt).len() ==> !(#[trigger] both(s.t1, s.t2, rt)[j]).is_key(rt, page),
    ensures
        ({
            let (s1, loc) = evict(s, k, d);
            &&& s1.t1.len() == cfg.n()
            &&& s1.t2.len() == cfg.n()
            &&& s1.counters.len() == cfg.n()
            &&& sum_lens(s1.t1) + sum_lens(s1.t2) == s.max_loc - 1
            &&& resident(s1.t1, s1.t2, d) == resident(s.t1, s.t2, d) - 1
            &&& forall|e: int| 0 <= e < cfg.n() && e != d ==> #[trigger] resident(s1.t1, s1.t2, e) == resident(s.t1, s.t2, e)
            &&& forall|t: int| 0 <= t < cfg.n() ==> unique_keys(#[trigger] s1.t1[t])
            &&& forall|j: int| 0 <= j < s1.t1[rt].len() ==> !(#[trigger] s1.t1[rt][j]).is_key(rt, page)
            &&& locs_within(s1.t1, s.max_loc)
            &&& locs_within(s1.t2, s.max_loc)
            &&& 1 <= loc <= s.max_loc
            &&& s1.max_loc == s.max_loc && s1.p == s.p && s1.now == s.now
            &&& distinct_locs(s1.t1, s1.t2)
            &&& loc_free(s1.t1, s1.t2, loc as int)
            &&& pages_ok(cfg, s1.t1, s1.t2)
            &&& forall|j: int| 0 <= j < both(s1.t1, s1.t2, rt).len() ==> !(#[trigger] both(s1.t1, s1.t2, rt)[j]).is_key(rt, page)
            &&& ghosts_ok(cfg, s1.t1, s1.t2, s1.b1, s1.b2)
            &&& sum_lens(s1.t1) + s1.b1.len() == sum_lens(s.t1) + s.b1.len()
            &&& (forall|q: int| 0 <= q < (s.b1 + s.b2).len() ==> !(#[trigger] (s.b1 + s.b2)[q]).is_key(rt, page))
                ==> (forall|q: int| 0 <= q < (s1.b1 + s1.b2).len() ==> !(#[trigger] (s1.b1 + s1.b2)[q]).is_key(rt, page))
        }),
{
    let (s1, loc) = evict(s, k, d);
    let f = k != ListKind::T1;
    let c = family(s.t1, s.t2, k)[d][0];
    let idx = if f { s.t1[d].len() as int } else { 0 };
    let g = s.b1 + s.b2;
    assert(rec(s.t1, s.t2, f, d, 0) == c);
    assert(both(s.t1, s.t2, d)[idx] == c);
    assert(c.tenant == d);
    assert forall|q: int| 0 <= q < g.len() implies !(#[trigger] g[q]).is_key(d, c.page) by {
        assert(!g[q].is_key(d, both(s.t1, s.t2, d)[idx].page));
    }
    lemma_cut_ghosts(cfg, s.t1, s.t2, s.b1, s.b2, f, d, 0);
    lemma_cut_pages(cfg, s.t1, s.t2, f, d, 0);
    lemma_push_ghost(cfg, cut_t1(s.t1, f, d, 0), cut_t2(s.t2, f, d, 0), s.b1, s.b2, ghost_of(c), f);
    if forall|q: int| 0 <= q < g.len() ==> !(#[trigger] g[q]).is_key(rt, page) {
        let ng = s1.b1 + s1.b2;
        let pos = if f { g.len() as int } else { s.b1.len() as int };
        if f {
            assert(ng =~= g.push(ghost_of(c)));
        } else {
            assert(ng =~= s.b1.push(ghost_of(c)) + s.b2);
        }
        assert(!c.is_key(rt, page)) by {
            if rt == d {
                assert(!both(s.t1, s.t2, rt)[idx].is_key(rt, page));
            }
        }
        assert forall|q: int| 0 <= q < ng.len() implies !(#[trigger] ng[q]).is_key(rt, page) by {
            if q != pos {
                let q0 = if q < pos { q } else { q - 1 };
                assert(ng[q] == g[q0]);
            }
        }
    }
    lemma_cut_distinct(s.t1, s.t2, k != ListKind::T1, d, 0);
    lemma_cut_pages(cfg, s.t1, s.t2, k != ListKind::T1, d, 0);
    lemma_cut_absent(s.t1, s.t2, k != ListKind::T1, d, 0, rt, page);
    assert forall|j: int| 0 <= j < s.t1[rt].len() implies !(#[trigger] s.t1[rt][j]).is_key(rt, page) by {
        assert(both(s.t1, s.t2, rt)[j] == s.t1[rt][j]);
    }
    if k == ListKind::T1 {
        lemma_sum_lens_update(s.t1, d, s.t1[d].remove(0));
        lemma_unique_keys_remove(s.t1[d], 0);
        assert(s.t1[d][0] == s.t1[d][0]);
        assert forall|j: int| 0 <= j < s1.t1[rt].len() implies !(#[trigger] s1.t1[rt][j]).is_key(rt, page) by {
            if rt == d {
                assert(s1.t1[rt][j] == s.t1[rt][j + 1]);
            }
        }
        assert forall|t: int, i: int| 0 <= t < s1.t1.len() && 0 <= i < s1.t1[t].len() implies 1 <= (#[trigger] s1.t1[t][i]).loc <= s.max_loc by {
            if t == d {
                assert(s1.t1[t][i] == s.t1[t][i + 1]);
            }
        }
    } else {
        lemma_sum_lens_update(s.t2, d, s.t2[d].remove(0));
        assert(s.t2[d][0] == s.t2[d][0]);
        assert forall|t: int, i: int| 0 <= t < s1.t2.len() && 0 <= i < s1.t2[t].len() implies 1 <= (#[trigger] s1.t2[t][i]).loc <= s.max_loc by {
            if t == d {
                assert(s1.t2[t][i] == s.t2[t][i + 1]);
            }
        }
    }
}

/// Facts on the state after a page is placed at the MRU end of a
/// resident list of tenant `t` (T2 with `into_t2`, else T1).
pub(crate) proof fn lemma_place(cfg: Params, s: ArcState, t: int, e: Entry, m: int, into_t2: bool)
    requires
        s.t1.len() == cfg.n(),
        s.t2.len() == cfg.n(),
        0 <= t < cfg.n(),
        sum_lens(s.t1) + sum_lens(s.t2) == m - 1,
        locs_within(s.t1, m),
        locs_within(s.t2, m),
        1 <= e.loc <= m,
        forall|u: int| 0 <= u < cfg.n() ==> unique_keys(#[trigger] s.t1[u]),
        forall|j: int| 0 <= j < both(s.t1, s.t2, t).len() ==> !(#[trigger] both(s.t1, s.t2, t)[j]).is_key(t, e.page),
        e.tenant == t,
        1 <= e.page <= cfg.db_size_dt@[t],
        distinct_locs(s.t1, s.t2),
        loc_free(s.t1, s.t2, e.loc as int),
        pages_ok(cfg, s.t1, s.t2),
        ghosts_ok(cfg, s.t1, s.t2, s.b1, s.b2),
        forall|q: int| 0 <= q < (s.b1 + s.b2).len() ==> !(#[trigger] (s.b1 + s.b2)[q]).is_key(t, e.page),
    ensures
        ({
            let t1 = if into_t2 { s.t1 } else { s.t1.update(t, s.t1[t].push(e)) };
            let t2 = if into_t2 { s.t2.update(t, s.t2[t].push(e)) } else { s.t2 };
            &&& t1.len() == cfg.n()
            &&& t2.len() == cfg.n()
            &&& sum_lens(t1) + sum_lens(t2) == m
            &&& locs_within(t1, m)
            &&& locs_within(t2, m)
            &&& forall|u: int| 0 <= u < cfg.n() ==> unique_keys(#[trigger] t1[u])
            &&& resident(t1, t2, t) == resident(s.t1, s.t2, t) + 1
            &&& forall|u: int| 0 <= u < cfg.n() && u != t ==> #[trigger] resident(t1, t2, u) == resident(s.t1, s.t2, u)
            &&& distinct_locs(t1, t2)
            &&& pages_ok(cfg, t1, t2)
            &&& ghosts_ok(cfg, t1, t2, s.b1, s.b2)
            &&& sum_lens(t1) == sum_lens(s.t1) + (if into_t2 { 0int } else { 1int })
        }),
{
    lemma_put_ghosts(cfg, s.t1, s.t2, s.b1, s.b2, into_t2, t, e);
    lemma_place_distinct(s.t1, s.t2, into_t2, t, e);
    lemma_place_pages(cfg, s.t1, s.t2, into_t2, t, e);
    assert forall|j: int| 0 <= j < s.t1[t].len() implies !(#[trigger] s.t1[t][j]).is_key(e.tenant as int, e.page) by {
        assert(both(s.t1, s.t2, t)[j] == s.t1[t][j]);
    }
    if into_t2 {
        let t2 = s.t2.update(t, s.t2[t].push(e));
        lemma_sum_lens_update(s.t2, t, s.t2[t].push(e));
        assert forall|u: int, i: int| 0 <= u < t2.len() && 0 <= i < t2[u].len() implies 1 <= (#[trigger] t2[u][i]).loc <= m by {
            if u == t && i < s.t2[t].len() {
                assert(t2[u][i] == s.t2[u][i]);
            }
        }
    } else {
        let t1 = s.t1.update(t, s.t1[t].push(e));
        lemma_sum_lens_update(s.t1, t, s.t1[t].push(e));
        lemma_unique_keys_push(s.t1[t], e);
        assert forall|u: int, i: int| 0 <= u < t1.len() && 0 <= i < t1[u].len() implies 1 <= (#[trigger] t1[u][i]).loc <= m by {
            if u == t && i < s.t1[t].len() {
                assert(t1[u][i] == s.t1[u][i]);
            }
        }
    }
}

/// Facts on a family after one record is cut out of tenant `t`'s list.
pub(crate) proof fn lemma_cut(ls: Seq<Seq<Entry>>, t: int, i: int, m: int)
    requires
        0 <= t < ls.len(),
        0 <= i < ls[t].len(),
        locs_within(ls, m),
    ensures
        sum_lens(ls.update(t, ls[t].remove(i))) == sum_lens(ls) - 1,
        locs_within(ls.update(t, ls[t].remove(i)), m),
        1 <= ls[t][i].loc <= m,
{
    let l2 = ls.update(t, ls[t].remove(i));
    lemma_sum_lens_update(ls, t, ls[t].remove(i));
    assert forall|u: int, j: int| 0 <= u < l2.len() && 0 <= j < l2[u].len() implies 1 <= (#[trigger] l2[u][j]).loc <= m by {
        if u == t {
            if j < i {
                assert(l2[u][j] == ls[u][j]);
            } else {
                assert(l2[u][j] == ls[u][j + 1]);
            }
        }
    }
}

/// A page found in a resident list: the hit keeps every fact of the state.
pub(crate) proof fn lemma_hit_consistent(cfg: Params, s: ArcState, op: Operation)
    requires
        consistent(cfg, s),
        1 <= op.tenant.0 <= cfg.n(),
        1 <= op.page.0 <= cfg.db_size_dt@[op.tenant.0 - 1],
        s.now < u64::MAX,
        find(s.t1[op.tenant.0 - 1], op.tenant.0 - 1, op.page.0) is Some
            || find(s.t2[op.tenant.0 - 1], op.tenant.0 - 1, op.page.0) is Some,
    ensures
        step(cfg, s, op) matches Some((s1, loc)) && consistent(cfg, s1) && 1 <= loc <= cfg.q()
            && floor_kept(cfg, s, s1, op.tenant.0 - 1),
{
    let t = op.tenant.0 - 1;
    let page = op.page.0;
    lemma_find_bounds(s.t1[t], t, page);
    lemma_find_bounds(s.t2[t], t, page);
    match find(s.t1[t], t, page) {
        Some(i) => {
            let e = s.t1[t][i];
            let ne = Entry { tenant: t as usize, page, clock: (s.now + 1) as u64, loc: e.loc };
            lemma_cut(s.t1, t, i, s.max_loc);
            lemma_cut_distinct(s.t1, s.t2, false, t, i);
            lemma_cut_pages(cfg, s.t1, s.t2, false, t, i);
            assert(rec(s.t1, s.t2, false, t, i) == e);
            lemma_unique_keys_remove(s.t1[t], i);
            lemma_cut_ghosts(cfg, s.t1, s.t2, s.b1, s.b2, false, t, i);
            lemma_resident_not_ghost(cfg, s, false, t, i);
            let sr = ArcState { t1: s.t1.update(t, s.t1[t].remove(i)), ..s };
            lemma_place(cfg, sr, t, ne, s.max_loc, true);
            let (s1, loc) = step(cfg, s, op)->Some_0;
            assert forall|u: int| 0 <= u < cfg.n() implies #[trigger] resident(s1.t1, s1.t2, u) <= cfg.qmax(u) by {
                assert(resident(s.t1, s.t2, u) <= cfg.qmax(u));
            }
            assert forall|u: int| 0 <= u < cfg.n() implies unique_keys(#[trigger] s1.t1[u]) by {
                assert(unique_keys(s.t1[u]));
            }
        },
        None => {
            let i = find(s.t2[t], t, page)->Some_0;
            let e = s.t2[t][i];
            let ne = Entry { tenant: t as usize, page, clock: (s.now + 1) as u64, loc: e.loc };
            lemma_cut(s.t2, t, i, s.max_loc);
            lemma_cut_distinct(s.t1, s.t2, true, t, i);
            lemma_cut_pages(cfg, s.t1, s.t2, true, t, i);
            assert(rec(s.t1, s.t2, true, t, i) == e);
            lemma_cut_ghosts(cfg, s.t1, s.t2, s.b1, s.b2, true, t, i);
            lemma_resident_not_ghost(cfg, s, true, t, i);
            let sr = ArcState { t2: s.t2.update(t, s.t2[t].remove(i)), ..s };
            lemma_place(cfg, sr, t, ne, s.max_loc, true);
            assert(sr.t2.update(t, sr.t2[t].push(ne)) =~= s.t2.update(t, s.t2[t].remove(i).push(ne)));
            let (s1, loc) = step(cfg, s, op)->Some_0;
            assert forall|u: int| 0 <= u < cfg.n() implies #[trigger] resident(s1.t1, s1.t2, u) <= cfg.qmax(u) by {
                assert(resident(s.t1, s.t2, u) <= cfg.qmax(u));
            }
        },
    }
}

/// After an eviction for tenant `t` that freed a page of donor `d`, one
/// more page for `t` keeps every tenant within its ceiling.
pub(crate) proof fn lemma_ceiling_after_swap(cfg: Params, s: ArcState, t1: Seq<Seq<Entry>>, t2: Seq<Seq<Entry>>, t: int, d: int)
    requires
        consistent(cfg, s),
        0 <= t < cfg.n(),
        0 <= d < cfg.n(),
        eligible(cfg, s.t1, s.t2, t, d),
        t1.len() == cfg.n(),
        t2.len() == cfg.n(),
        d != t ==> resident(t1, t2, d) == resident(s.t1, s.t2, d) - 1,
        d != t ==> resident(t1, t2, t) == resident(s.t1, s.t2, t) + 1,
        d == t ==> resident(t1, t2, t) == resident(s.t1, s.t2, t),
        forall|u: int| 0 <= u < cfg.n() && u != t && u != d ==> #[trigger] resident(t1, t2, u) == resident(s.t1, s.t2, u),
    ensures
        forall|u: int| 0 <= u < cfg.n() ==> #[trigger] resident(t1, t2, u) <= cfg.qmax(u),
        floor_kept(cfg, s, ArcState { t1, t2, ..s }, t),
{
    assert forall|u: int| 0 <= u < cfg.n() implies #[trigger] resident(t1, t2, u) <= cfg.qmax(u) by {
        assert(resident(s.t1, s.t2, u) <= cfg.qmax(u));
        assert(resident(s.t1, s.t2, t) <= cfg.qmax(t));
    }
}

/// A hit on a ghost record keeps every fact of the state.
pub(crate) proof fn lemma_ghost_hit_consistent(cfg: Params, s: ArcState, t: int, page: u32, i: int, from_b2: bool)
    requires
        consistent(cfg, s),
        0 <= t < cfg.n(),
        from_b2 ==> 0 <= i < s.b2.len(),
        !from_b2 ==> 0 <= i < s.b1.len(),
        from_b2 ==> s.b2[i].is_key(t, page),
        !from_b2 ==> s.b1[i].is_key(t, page),
        forall|j: int| 0 <= j < s.t1[t].len() ==> !(#[trigger] s.t1[t][j]).is_key(t, page),
        forall|j: int| 0 <= j < both(s.t1, s.t2, t).len() ==> !(#[trigger] both(s.t1, s.t2, t)[j]).is_key(t, page),
        1 <= page <= cfg.db_size_dt@[t],
    ensures
        ghost_hit(cfg, s, t, page, i, from_b2) matches Some((s1, loc)) ==> consistent(cfg, s1) && 1 <= loc <= cfg.q()
            && floor_kept(cfg, s, s1, t),
{
    if let Some((s1, loc)) = ghost_hit(cfg, s, t, page, i, from_b2) {
        let q = cfg.q();
        let p = if !from_b2 {
            let delta = if s.b2.len() / s.b1.len() > 1 { s.b2.len() / s.b1.len() } else { 1 };
            if s.p + delta > q { q } else { s.p + delta }
        } else {
            let delta = if s.b1.len() / s.b2.len() > 1 { s.b1.len() / s.b2.len() } else { 1 };
            if s.p - delta < 0 { 0 } else { s.p - delta }
        };
        let (k, d) = replace_victim(cfg, s.t1, s.t2, p, t, from_b2)->Some_0;
        lemma_best_donor(cfg, s.t1, s.t2, family(s.t1, s.t2, k), t, true, cfg.n());
        let sp = ArcState { p, ..s };
        lemma_evict(cfg, sp, k, d, t, page);
        let (se, l) = evict(sp, k, d);
        let s2 = if from_b2 { ArcState { b2: se.b2.remove(i), ..se } } else { ArcState { b1: se.b1.remove(i), ..se } };
        lemma_drop_ghost(cfg, se.t1, se.t2, se.b1, se.b2, from_b2, i);
        if from_b2 {
            assert(se.b2[i] == s.b2[i]);
        } else {
            assert(se.b1[i] == s.b1[i]);
        }
        let ne = Entry { tenant: t as usize, page, clock: s.now as u64, loc: l };
        lemma_place(cfg, s2, t, ne, s.max_loc, true);
        lemma_ceiling_after_swap(cfg, s, s1.t1, s1.t2, t, d);
    }
}

/// A page known nowhere: placing it keeps every fact of the state.
pub(crate) proof fn lemma_full_miss_consistent(cfg: Params, s: ArcState, t: int, page: u32)
    requires
        consistent(cfg, s),
        0 <= t < cfg.n(),
        forall|j: int| 0 <= j < s.t1[t].len() ==> !(#[trigger] s.t1[t][j]).is_key(t, page),
        forall|j: int| 0 <= j < both(s.t1, s.t2, t).len() ==> !(#[trigger] both(s.t1, s.t2, t)[j]).is_key(t, page),
        forall|q: int| 0 <= q < (s.b1 + s.b2).len() ==> !(#[trigger] (s.b1 + s.b2)[q]).is_key(t, page),
        1 <= page <= cfg.db_size_dt@[t],
    ensures
        full_miss(cfg, s, t, page) matches Some((s1, loc)) ==> consistent(cfg, s1) && 1 <= loc <= cfg.q()
            && floor_kept(cfg, s, s1, t),
{
    if let Some((s1, loc)) = full_miss(cfg, s, t, page) {
        let q = cfg.q();
        let t1_len = sum_lens(s.t1);
        let t2_len = sum_lens(s.t2);
        let l1_len = t1_len + s.b1.len();
        lemma_sum_lens_nonneg(s.t1);
        lemma_sum_lens_nonneg(s.t2);
        let ne = Entry { tenant: t as usize, page, clock: s.now as u64, loc };
        if l1_len == q && t1_len >= q {
            let d = best_donor(cfg, s.t1, s.t2, s.t1, t, false, s.t1.len() as int)->Some_0;
            lemma_best_donor(cfg, s.t1, s.t2, s.t1, t, false, cfg.n());
            lemma_evict(cfg, s, ListKind::T1, d, t, page);
            lemma_cut_ghosts(cfg, s.t1, s.t2, s.b1, s.b2, false, d, 0);
            let se = ArcState { b1: s.b1, ..evict(s, ListKind::T1, d).0 };
            lemma_place(cfg, se, t, ne, s.max_loc, false);
            lemma_ceiling_after_swap(cfg, s, s1.t1, s1.t2, t, d);
        } else if l1_len == q || l1_len + t2_len + s.b2.len() >= q || at_qmax(cfg, s.t1, s.t2, t) {
            let (k, d) = replace_victim(cfg, s.t1, s.t2, s.p, t, false)->Some_0;
            lemma_best_donor(cfg, s.t1, s.t2, family(s.t1, s.t2, k), t, true, cfg.n());
            let s0 = if l1_len == q {
                ArcState { b1: s.b1.remove(0), ..s }
            } else if t1_len + t2_len + s.b2.len() == 2 * q && s.b2.len() > 0 {
                ArcState { b2: s.b2.remove(0), ..s }
            } else {
                s
            };
            if l1_len == q {
                lemma_drop_ghost(cfg, s.t1, s.t2, s.b1, s.b2, false, 0);
                lemma_drop_keeps_absent(s.b1, s.b2, false, 0, t, page);
            } else if t1_len + t2_len + s.b2.len() == 2 * q && s.b2.len() > 0 {
                lemma_drop_ghost(cfg, s.t1, s.t2, s.b1, s.b2, true, 0);
                lemma_drop_keeps_absent(s.b1, s.b2, true, 0, t, page);
            }
            assert(consistent(cfg, s0));
            lemma_evict(cfg, s0, k, d, t, page);
            let se = evict(s0, k, d).0;
            lemma_place(cfg, se, t, ne, s.max_loc, false);
            lemma_ceiling_after_swap(cfg, s, s1.t1, s1.t2, t, d);
        } else {
            let sg = ArcState { max_loc: s.max_loc + 1, ..s };
            assert(locs_within(s.t1, s.max_loc + 1));
            assert(locs_within(s.t2, s.max_loc + 1));
            assert forall|f: bool, u: int, i: int| has_pos(s.t1, s.t2, f, u, i) implies #[trigger] rec(s.t1, s.t2, f, u, i).loc != s.max_loc + 1 by {
                if f {
                    assert(s.t2[u][i].loc <= s.max_loc);
                } else {
                    assert(s.t1[u][i].loc <= s.max_loc);
                }
            }
            lemma_place(cfg, sg, t, ne, s.max_loc + 1, false);
            assert forall|u: int| 0 <= u < cfg.n() implies #[trigger] resident(s1.t1, s1.t2, u) <= cfg.qmax(u) by {
                assert(resident(s.t1, s.t2, u) <= cfg.qmax(u));
            }
            assert(floor_kept(cfg, s, s1, t));
        }
    }
}

/// No record of `s` belongs to `(t, page)`: it cannot be found there.
pub(crate) proof fn lemma_find_none(s: Seq<Entry>, t: int, page: u32)
    requires
        forall|j: int| 0 <= j < s.len() ==> !(#[trigger] s[j]).is_key(t, page),
    ensures
        find(s, t, page) is None,
{
    lemma_find_bounds(s, t, page);
}

/// After an access, its page is the most recent record of its tenant's T1,
/// or is absent from that T1 and the most recent record of its T2; that
/// record holds the location returned.
pub(crate) proof fn lemma_on_top(cfg: Params, s: ArcState, op: Operation)
    requires
        consistent(cfg, s),
        1 <= op.tenant.0 <= cfg.n(),
        s.now < u64::MAX,
    ensures
        step(cfg, s, op) matches Some((s1, loc)) ==> {
            let t = op.tenant.0 - 1;
            ||| s1.t1[t].len() > 0 && find(s1.t1[t], t, op.page.0) == Some(s1.t1[t].len() - 1)
                && s1.t1[t].last().loc == loc
            ||| find(s1.t1[t], t, op.page.0) is None && s1.t2[t].len() > 0
                && find(s1.t2[t], t, op.page.0) == Some(s1.t2[t].len() - 1) && s1.t2[t].last().loc == loc
        },
{
    let t = op.tenant.0 - 1;
    let page = op.page.0;
    lemma_find_bounds(s.t1[t], t, page);
    lemma_find_bounds(s.t2[t], t, page);
    lemma_find_bounds(s.b1, t, page);
    lemma_find_bounds(s.b2, t, page);
    if let Some((s1, loc)) = step(cfg, s, op) {
        match find(s.t1[t], t, page) {
            Some(i) => {
                let r = s.t1[t].remove(i);
                assert forall|j: int| 0 <= j < r.len() implies !(#[trigger] r[j]).is_key(t, page) by {
                    if j < i {
                        assert(r[j] == s.t1[t][j]);
                        assert(!s.t1[t][j].is_key(s.t1[t][i].tenant as int, s.t1[t][i].page));
                    } else {
                        assert(r[j] == s.t1[t][j + 1]);
                        assert(!s.t1[t][i].is_key(s.t1[t][j + 1].tenant as int, s.t1[t][j + 1].page));
                    }
                }
                lemma_find_none(r, t, page);
            },
            None => {
                if find(s.t2[t], t, page) is None {
                    let s0 = ArcState { now: s.now + 1, ..s };
                    lemma_absent_both(s.t1, s.t2, t, page);
                    if find(s.b1, t, page) is Some || find(s.b2, t, page) is Some {
                        let from_b2 = find(s.b1, t, page) is None;
                        let i = if from_b2 { find(s.b2, t, page)->Some_0 } else { find(s.b1, t, page)->Some_0 };
                        let q = cfg.q();
                        let p = if !from_b2 {
                            let delta = if s.b2.len() / s.b1.len() > 1 { s.b2.len() / s.b1.len() } else { 1 };
                            if s.p + delta > q { q } else { s.p + delta }
                        } else {
                            let delta = if s.b1.len() / s.b2.len() > 1 { s.b1.len() / s.b2.len() } else { 1 };
                            if s.p - delta < 0 { 0 } else { s.p - delta }
                        };
                        let (k, d) = replace_victim(cfg, s.t1, s.t2, p, t, from_b2)->Some_0;
                        lemma_best_donor(cfg, s.t1, s.t2, family(s.t1, s.t2, k), t, true, cfg.n());
                        let sp = ArcState { p, ..s0 };
                        lemma_evict(cfg, sp, k, d, t, page);
                        lemma_find_none(s1.t1[t], t, page);
                        assert(s1.t2[t].last().is_key(t, page));
                    } else {
                        lemma_full_miss_top(cfg, s0, t, page);
                    }
                } else {
                    assert(s1.t2[t].last().is_key(t, page));
                    assert(s1.t2[t].last().loc == loc);
                }
            },
        }
    }
}

pub(crate) proof fn lemma_full_miss_top(cfg: Params, s: ArcState, t: int, page: u32)
    requires
        consistent(cfg, s),
        0 <= t < cfg.n(),
        forall|j: int| 0 <= j < both(s.t1, s.t2, t).len() ==> !(#[trigger] both(s.t1, s.t2, t)[j]).is_key(t, page),
    ensures
        full_miss(cfg, s, t, page) matches Some((s1, loc)) ==> s1.t1[t].len() > 0
            && s1.t1[t].last().is_key(t, page) && s1.t1[t].last().loc == loc,
{
    if let Some((s1, loc)) = full_miss(cfg, s, t, page) {
        let q = cfg.q();
        let t1_len = sum_lens(s.t1);
        let t2_len = sum_lens(s.t2);
        let l1_len = t1_len + s.b1.len();
        if l1_len == q && t1_len >= q {
            let d = best_donor(cfg, s.t1, s.t2, s.t1, t, false, s.t1.len() as int)->Some_0;
            lemma_best_donor(cfg, s.t1, s.t2, s.t1, t, false, cfg.n());
            lemma_evict(cfg, s, ListKind::T1, d, t, page);
        } else if l1_len == q || l1_len + t2_len + s.b2.len() >= q || at_qmax(cfg, s.t1, s.t2, t) {
            let (k, d) = replace_victim(cfg, s.t1, s.t2, s.p, t, false)->Some_0;
            lemma_best_donor(cfg, s.t1, s.t2, family(s.t1, s.t2, k), t, true, cfg.n());
            let s0 = if l1_len == q {
                ArcState { b1: s.b1.remove(0), ..s }
            } else if t1_len + t2_len + s.b2.len() == 2 * q && s.b2.len() > 0 {
                ArcState { b2: s.b2.remove(0), ..s }
            } else {
                s
            };
            if l1_len == q {
                lemma_drop_ghost(cfg, s.t1, s.t2, s.b1, s.b2, false, 0);
            } else if t1_len + t2_len + s.b2.len() == 2 * q && s.b2.len() > 0 {
                lemma_drop_ghost(cfg, s.t1, s.t2, s.b1, s.b2, true, 0);
            }
            lemma_evict(cfg, s0, k, d, t, page);
        }
    }
}

/// Cutting a record out of a resident list keeps locations distinct and
/// frees the location it held.
pub(crate) proof fn lemma_cut_distinct(t1: Seq<Seq<Entry>>, t2: Seq<Seq<Entry>>, f: bool, t: int, i: int)
    requires
        distinct_locs(t1, t2),
        has_pos(t1, t2, f, t, i),
    ensures
        ({
            let n1 = cut_t1(t1, f, t, i);
            let n2 = cut_t2(t2, f, t, i);
            distinct_locs(n1, n2) && loc_free(n1, n2, rec(t1, t2, f, t, i).loc as int)
        }),
{
    let n1 = cut_t1(t1, f, t, i);
    let n2 = cut_t2(t2, f, t, i);
    assert forall|g: bool, u: int, j: int| #[trigger] has_pos(n1, n2, g, u, j) implies has_pos(t1, t2, g, u, if g == f && u == t && j >= i { j + 1 } else { j })
        && rec(n1, n2, g, u, j) == rec(t1, t2, g, u, if g == f && u == t && j >= i { j + 1 } else { j }) by {}
    assert forall|f1: bool, u1: int, i1: int, f2: bool, u2: int, i2: int|
        has_pos(n1, n2, f1, u1, i1) && has_pos(n1, n2, f2, u2, i2) && !(f1 == f2 && u1 == u2 && i1 == i2)
        implies #[trigger] rec(n1, n2, f1, u1, i1).loc != #[trigger] rec(n1, n2, f2, u2, i2).loc by {
        let j1 = if f1 == f && u1 == t && i1 >= i { i1 + 1 } else { i1 };
        let j2 = if f2 == f && u2 == t && i2 >= i { i2 + 1 } else { i2 };
        assert(has_pos(n1, n2, f1, u1, i1));
        assert(has_pos(n1, n2, f2, u2, i2));
        assert(rec(t1, t2, f1, u1, j1).loc != rec(t1, t2, f2, u2, j2).loc);
    }
    assert forall|g: bool, u: int, j: int| has_pos(n1, n2, g, u, j) implies #[trigger] rec(n1, n2, g, u, j).loc != rec(t1, t2, f, t, i).loc by {
        let j1 = if g == f && u == t && j >= i { j + 1 } else { j };
        assert(has_pos(n1, n2, g, u, j));
        assert(rec(t1, t2, g, u, j1).loc != rec(t1, t2, f, t, i).loc);
    }
}

/// Placing a record with a free location keeps locations distinct.
pub(crate) proof fn lemma_place_distinct(t1: Seq<Seq<Entry>>, t2: Seq<Seq<Entry>>, f: bool, t: int, e: Entry)
    requires
        distinct_locs(t1, t2),
        loc_free(t1, t2, e.loc as int),
        0 <= t < (if f { t2.len() } else { t1.len() }),
    ensures
        ({
            let n1 = put_t1(t1, f, t, e);
            let n2 = put_t2(t2, f, t, e);
            distinct_locs(n1, n2)
        }),
{
    let n1 = put_t1(t1, f, t, e);
    let n2 = put_t2(t2, f, t, e);
    let len = if f { t2[t].len() as int } else { t1[t].len() as int };
    assert forall|g: bool, u: int, j: int| #[trigger] has_pos(n1, n2, g, u, j) && !(g == f && u == t && j == len) implies has_pos(t1, t2, g, u, j)
        && rec(n1, n2, g, u, j) == rec(t1, t2, g, u, j) by {}
    assert(rec(n1, n2, f, t, len) == e);
    assert forall|f1: bool, u1: int, i1: int, f2: bool, u2: int, i2: int|
        has_pos(n1, n2, f1, u1, i1) && has_pos(n1, n2, f2, u2, i2) && !(f1 == f2 && u1 == u2 && i1 == i2)
        implies #[trigger] rec(n1, n2, f1, u1, i1).loc != #[trigger] rec(n1, n2, f2, u2, i2).loc by {
        assert(has_pos(n1, n2, f1, u1, i1));
        assert(has_pos(n1, n2, f2, u2, i2));
        if f1 == f && u1 == t && i1 == len {
            assert(rec(t1, t2, f2, u2, i2).loc != e.loc);
        } else if f2 == f && u2 == t && i2 == len {
            assert(rec(t1, t2, f1, u1, i1).loc != e.loc);
        } else {
            assert(rec(t1, t2, f1, u1, i1).loc != rec(t1, t2, f2, u2, i2).loc);
        }
    }
}

pub(crate) proof fn lemma_unique_keys_insert(a: Seq<Entry>, b: Seq<Entry>, e: Entry)
    requires
        unique_keys(a + b),
        forall|j: int| 0 <= j < (a + b).len() ==> !(#[trigger] (a + b)[j]).is_key(e.tenant as int, e.page),
    ensures
        unique_keys(a.push(e) + b),
{
    let x = a + b;
    let y = a.push(e) + b;
    let n = a.len() as int;
    assert forall|i: int, j: int| 0 <= i < j < y.len() implies !(#[trigger] y[i]).is_key(
        y[j].tenant as int,
        #[trigger] y[j].page,
    ) by {
        let oi = if i < n { i } else { i - 1 };
        let oj = if j < n { j } else { j - 1 };
        if i == n {
            assert(y[j] == x[oj]);
            assert(!x[oj].is_key(e.tenant as int, e.page));
        } else if j == n {
            assert(y[i] == x[oi]);
            assert(!x[oi].is_key(e.tenant as int, e.page));
        } else {
            assert(y[i] == x[oi] && y[j] == x[oj]);
            assert(!x[oi].is_key(x[oj].tenant as int, x[oj].page));
        }
    }
}

/// Cutting a record out of a resident list keeps `pages_ok`; the key of
/// the record cut is absent from its tenant's lists afterwards.
pub(crate) proof fn lemma_cut_pages(cfg: Params, t1: Seq<Seq<Entry>>, t2: Seq<Seq<Entry>>, f: bool, u: int, i: int)
    requires
        pages_ok(cfg, t1, t2),
        t1.len() == cfg.n(),
        t2.len() == cfg.n(),
        has_pos(t1, t2, f, u, i),
    ensures
        ({
            let n1 = cut_t1(t1, f, u, i);
            let n2 = cut_t2(t2, f, u, i);
            let c = rec(t1, t2, f, u, i);
            &&& pages_ok(cfg, n1, n2)
            &&& forall|j: int| 0 <= j < both(n1, n2, u).len() ==> !(#[trigger] both(n1, n2, u)[j]).is_key(c.tenant as int, c.page)
        }),
{
    let n1 = cut_t1(t1, f, u, i);
    let n2 = cut_t2(t2, f, u, i);
    let x = both(t1, t2, u);
    let idx = if f { t1[u].len() + i } else { i };
    assert(both(n1, n2, u) =~= x.remove(idx));
    assert(x[idx] == rec(t1, t2, f, u, i));
    assert(unique_keys(x));
    lemma_unique_keys_remove(x, idx);
    assert forall|t: int| 0 <= t < cfg.n() && t != u implies both(n1, n2, t) == both(t1, t2, t) by {}
    assert forall|j: int| 0 <= j < both(n1, n2, u).len() implies !(#[trigger] both(n1, n2, u)[j]).is_key(x[idx].tenant as int, x[idx].page) by {
        if j < idx {
            assert(both(n1, n2, u)[j] == x[j]);
            assert(!x[j].is_key(x[idx].tenant as int, x[idx].page));
        } else {
            assert(both(n1, n2, u)[j] == x[j + 1]);
            assert(!x[idx].is_key(x[j + 1].tenant as int, x[j + 1].page));
        }
    }
    assert forall|t: int| 0 <= t < cfg.n() implies {
        &&& unique_keys(#[trigger] both(n1, n2, t))
        &&& forall|k: int| 0 <= k < both(n1, n2, t).len() ==> {
            &&& (#[trigger] both(n1, n2, t)[k]).tenant == t
            &&& 1 <= both(n1, n2, t)[k].page <= cfg.db_size_dt@[t]
        }
    } by {
        if t == u {
            assert forall|k: int| 0 <= k < both(n1, n2, t).len() implies {
                &&& (#[trigger] both(n1, n2, t)[k]).tenant == t
                &&& 1 <= both(n1, n2, t)[k].page <= cfg.db_size_dt@[t]
            } by {
                if k < idx {
                    assert(both(n1, n2, t)[k] == x[k]);
                } else {
                    assert(both(n1, n2, t)[k] == x[k + 1]);
                }
            }
        }
    }
}

/// A key absent from a tenant's resident lists stays absent when a record
/// is cut out of a resident list.
pub(crate) proof fn lemma_cut_absent(t1: Seq<Seq<Entry>>, t2: Seq<Seq<Entry>>, f: bool, u: int, i: int, rt: int, page: u32)
    requires
        has_pos(t1, t2, f, u, i),
        0 <= rt < t1.len(),
        t1.len() == t2.len(),
        forall|j: int| 0 <= j < both(t1, t2, rt).len() ==> !(#[trigger] both(t1, t2, rt)[j]).is_key(rt, page),
    ensures
        ({
            let n1 = cut_t1(t1, f, u, i);
            let n2 = cut_t2(t2, f, u, i);
            forall|j: int| 0 <= j < both(n1, n2, rt).len() ==> !(#[trigger] both(n1, n2, rt)[j]).is_key(rt, page)
        }),
{
    let n1 = cut_t1(t1, f, u, i);
    let n2 = cut_t2(t2, f, u, i);
    let x = both(t1, t2, rt);
    let idx = if f { t1[u].len() + i } else { i };
    if rt == u {
        assert(both(n1, n2, rt) =~= x.remove(idx));
    } else {
        assert(both(n1, n2, rt) == x);
    }
    assert forall|j: int| 0 <= j < both(n1, n2, rt).len() implies !(#[trigger] both(n1, n2, rt)[j]).is_key(rt, page) by {
        if rt == u {
            if j < idx {
                assert(both(n1, n2, rt)[j] == x[j]);
            } else {
                assert(both(n1, n2, rt)[j] == x[j + 1]);
            }
        } else {
            assert(both(n1, n2, rt)[j] == x[j]);
        }
    }
}

/// Placing a record of tenant `u`'s own page, absent from its lists and
/// within `[1, D_u]`, keeps `pages_ok`.
pub(crate) proof fn lemma_place_pages(cfg: Params, t1: Seq<Seq<Entry>>, t2: Seq<Seq<Entry>>, f: bool, u: int, e: Entry)
    requires
        pages_ok(cfg, t1, t2),
        t1.len() == cfg.n(),
        t2.len() == cfg.n(),
        0 <= u < cfg.n(),
        e.tenant == u,
        1 <= e.page <= cfg.db_size_dt@[u],
        forall|j: int| 0 <= j < both(t1, t2, u).len() ==> !(#[trigger] both(t1, t2, u)[j]).is_key(u, e.page),
    ensures
        ({
            let n1 = put_t1(t1, f, u, e);
            let n2 = put_t2(t2, f, u, e);
            pages_ok(cfg, n1, n2)
        }),
{
    let n1 = put_t1(t1, f, u, e);
    let n2 = put_t2(t2, f, u, e);
    let x = both(t1, t2, u);
    assert(unique_keys(x));
    if f {
        assert(both(n1, n2, u) =~= x.push(e));
        lemma_unique_keys_push(x, e);
    } else {
        assert(both(n1, n2, u) =~= t1[u].push(e) + t2[u]);
        lemma_unique_keys_insert(t1[u], t2[u], e);
    }
    assert forall|t: int| 0 <= t < cfg.n() && t != u implies both(n1, n2, t) == both(t1, t2, t) by {}
    assert forall|t: int| 0 <= t < cfg.n() implies {
        &&& unique_keys(#[trigger] both(n1, n2, t))
        &&& forall|k: int| 0 <= k < both(n1, n2, t).len() ==> {
            &&& (#[trigger] both(n1, n2, t)[k]).tenant == t
            &&& 1 <= both(n1, n2, t)[k].page <= cfg.db_size_dt@[t]
        }
    } by {
        if t == u {
            let l1 = t1[u].len() as int;
            assert forall|k: int| 0 <= k < both(n1, n2, t).len() implies {
                &&& (#[trigger] both(n1, n2, t)[k]).tenant == t
                &&& 1 <= both(n1, n2, t)[k].page <= cfg.db_size_dt@[t]
            } by {
                if f {
                    if k < x.len() {
                        assert(both(n1, n2, t)[k] == x[k]);
                    }
                } else {
                    if k < l1 {
                        assert(both(n1, n2, t)[k] == x[k]);
                    } else if k > l1 {
                        assert(both(n1, n2, t)[k] == x[k - 1]);
                    }
                }
            }
        }
    }
}

/// A tenant whose resident records are distinct pages of `[1, D_t]` has
/// at most `D_t` of them.
pub(crate) proof fn lemma_pages_bound(cfg: Params, t1: Seq<Seq<Entry>>, t2: Seq<Seq<Entry>>, t: int)
    requires
        pages_ok(cfg, t1, t2),
        0 <= t < cfg.n(),
    ensures
        resident(t1, t2, t) <= cfg.db_size_dt@[t],
{
    let x = both(t1, t2, t);
    let ps = x.map_values(|e: Entry| e.page as int);
    assert forall|i: int, j: int| 0 <= i < ps.len() && 0 <= j < ps.len() && i != j implies ps[i] != ps[j] by {
        if i < j {
            assert(!x[i].is_key(x[j].tenant as int, x[j].page));
        } else {
            assert(!x[j].is_key(x[i].tenant as int, x[i].page));
        }
    }
    assert(ps.no_duplicates());
    ps.unique_seq_to_set();
    let range = vstd::set_lib::set_int_range(1, cfg.db_size_dt@[t] + 1);
    vstd::set_lib::lemma_int_range(1, cfg.db_size_dt@[t] + 1);
    assert forall|v: int| ps.to_set().contains(v) implies range.contains(v) by {
        let i = choose|i: int| 0 <= i < ps.len() && ps[i] == v;
        assert(x[i].page == v);
    }
    vstd::set_lib::lemma_len_subset(ps.to_set(), range);
}

/// A key absent from a tenant's T1 and T2 is absent from its resident records.
pub(crate) proof fn lemma_absent_both(t1: Seq<Seq<Entry>>, t2: Seq<Seq<Entry>>, t: int, page: u32)
    requires
        0 <= t < t1.len(),
        t1.len() == t2.len(),
        forall|j: int| 0 <= j < t1[t].len() ==> !(#[trigger] t1[t][j]).is_key(t, page),
        forall|j: int| 0 <= j < t2[t].len() ==> !(#[trigger] t2[t][j]).is_key(t, page),
    ensures
        forall|j: int| 0 <= j < both(t1, t2, t).len() ==> !(#[trigger] both(t1, t2, t)[j]).is_key(t, page),
{
    assert forall|j: int| 0 <= j < both(t1, t2, t).len() implies !(#[trigger] both(t1, t2, t)[j]).is_key(t, page) by {
        if j < t1[t].len() {
            assert(both(t1, t2, t)[j] == t1[t][j]);
        } else {
            assert(both(t1, t2, t)[j] == t2[t][j - t1[t].len()]);
        }
    }
}

/// Cutting a resident record keeps `ghosts_ok`.
pub(crate) proof fn lemma_cut_ghosts(cfg: Params, t1: Seq<Seq<Entry>>, t2: Seq<Seq<Entry>>, b1: Seq<Entry>, b2: Seq<Entry>, f: bool, u: int, i: int)
    requires
        ghosts_ok(cfg, t1, t2, b1, b2),
        t1.len() == cfg.n(),
        t2.len() == cfg.n(),
        has_pos(t1, t2, f, u, i),
    ensures
        ghosts_ok(cfg, cut_t1(t1, f, u, i), cut_t2(t2, f, u, i), b1, b2),
{
    let n1 = cut_t1(t1, f, u, i);
    let n2 = cut_t2(t2, f, u, i);
    let g = b1 + b2;
    let idx = if f { t1[u].len() + i } else { i };
    assert(both(n1, n2, u) =~= both(t1, t2, u).remove(idx));
    assert forall|t: int, j: int, k: int|
        0 <= t < cfg.n() && 0 <= j < both(n1, n2, t).len() && 0 <= k < g.len() implies !(#[trigger] g[k]).is_key(t, #[trigger] both(n1, n2, t)[j].page) by {
        if t == u {
            let j0 = if j < idx { j } else { j + 1 };
            assert(both(n1, n2, t)[j] == both(t1, t2, t)[j0]);
            assert(!g[k].is_key(t, both(t1, t2, t)[j0].page));
        } else {
            assert(both(n1, n2, t) == both(t1, t2, t));
            assert(!g[k].is_key(t, both(t1, t2, t)[j].page));
        }
    }
}

/// Placing a resident record whose key has no ghost keeps `ghosts_ok`.
pub(crate) proof fn lemma_put_ghosts(cfg: Params, t1: Seq<Seq<Entry>>, t2: Seq<Seq<Entry>>, b1: Seq<Entry>, b2: Seq<Entry>, f: bool, u: int, e: Entry)
    requires
        ghosts_ok(cfg, t1, t2, b1, b2),
        t1.len() == cfg.n(),
        t2.len() == cfg.n(),
        0 <= u < cfg.n(),
        forall|k: int| 0 <= k < (b1 + b2).len() ==> !(#[trigger] (b1 + b2)[k]).is_key(u, e.page),
    ensures
        ghosts_ok(cfg, put_t1(t1, f, u, e), put_t2(t2, f, u, e), b1, b2),
{
    let n1 = put_t1(t1, f, u, e);
    let n2 = put_t2(t2, f, u, e);
    let g = b1 + b2;
    let x = both(t1, t2, u);
    let l1 = t1[u].len() as int;
    assert forall|t: int, j: int, k: int|
        0 <= t < cfg.n() && 0 <= j < both(n1, n2, t).len() && 0 <= k < g.len() implies !(#[trigger] g[k]).is_key(t, #[trigger] both(n1, n2, t)[j].page) by {
        if t == u {
            if f {
                if j < x.len() {
                    assert(both(n1, n2, t)[j] == x[j]);
                    assert(!g[k].is_key(t, x[j].page));
                } else {
                    assert(both(n1, n2, t)[j] == e);
                }
            } else {
                if j < l1 {
                    assert(both(n1, n2, t)[j] == x[j]);
                    assert(!g[k].is_key(t, x[j].page));
                } else if j == l1 {
                    assert(both(n1, n2, t)[j] == e);
                } else {
                    assert(both(n1, n2, t)[j] == x[j - 1]);
                    assert(!g[k].is_key(t, x[j - 1].page));
                }
            }
        } else {
            assert(both(n1, n2, t) == both(t1, t2, t));
            assert(!g[k].is_key(t, both(t1, t2, t)[j].page));
        }
    }
}

/// Adding a ghost record that holds no location, of a key with no other
/// record, keeps `ghosts_ok`.
pub(crate) proof fn lemma_push_ghost(cfg: Params, t1: Seq<Seq<Entry>>, t2: Seq<Seq<Entry>>, b1: Seq<Entry>, b2: Seq<Entry>, c: Entry, into_b2: bool)
    requires
        ghosts_ok(cfg, t1, t2, b1, b2),
        pages_ok(cfg, t1, t2),
        t1.len() == cfg.n(),
        t2.len() == cfg.n(),
        c.loc == NO_SLOT,
        0 <= c.tenant < cfg.n(),
        forall|j: int| 0 <= j < both(t1, t2, c.tenant as int).len() ==> !(#[trigger] both(t1, t2, c.tenant as int)[j]).is_key(c.tenant as int, c.page),
        forall|k: int| 0 <= k < (b1 + b2).len() ==> !(#[trigger] (b1 + b2)[k]).is_key(c.tenant as int, c.page),
    ensures
        into_b2 ==> ghosts_ok(cfg, t1, t2, b1, b2.push(c)),
        !into_b2 ==> ghosts_ok(cfg, t1, t2, b1.push(c), b2),
{
    let nb1 = if into_b2 { b1 } else { b1.push(c) };
    let nb2 = if into_b2 { b2.push(c) } else { b2 };
    let g = b1 + b2;
    let ng = nb1 + nb2;
    let pos = if into_b2 { g.len() as int } else { b1.len() as int };
    if into_b2 {
        assert(ng =~= g.push(c));
        lemma_unique_keys_push(g, c);
    } else {
        assert(ng =~= b1.push(c) + b2);
        lemma_unique_keys_insert(b1, b2, c);
    }
    assert(ng[pos] == c);
    assert forall|k: int| 0 <= k < ng.len() && k != pos implies #[trigger] ng[k] == g[if k < pos { k } else { k - 1 }] by {}
    assert forall|t: int, j: int, k: int|
        0 <= t < cfg.n() && 0 <= j < both(t1, t2, t).len() && 0 <= k < ng.len() implies !(#[trigger] ng[k]).is_key(t, #[trigger] both(t1, t2, t)[j].page) by {
        if k == pos {
            if t == c.tenant {
                assert(!both(t1, t2, t)[j].is_key(c.tenant as int, c.page));
                assert(both(t1, t2, t)[j].tenant == t);
            }
        } else {
            let k0 = if k < pos { k } else { k - 1 };
            assert(ng[k] == g[k0]);
            assert(!g[k0].is_key(t, both(t1, t2, t)[j].page));
        }
    }
    assert forall|j: int| 0 <= j < nb1.len() implies (#[trigger] nb1[j]).loc == NO_SLOT by {
        if j < b1.len() {
            assert(nb1[j] == b1[j]);
        }
    }
    assert forall|j: int| 0 <= j < nb2.len() implies (#[trigger] nb2[j]).loc == NO_SLOT by {
        if j < b2.len() {
            assert(nb2[j] == b2[j]);
        }
    }
}

/// Dropping a ghost record keeps `ghosts_ok`; its key then has no ghost.
pub(crate) proof fn lemma_drop_ghost(cfg: Params, t1: Seq<Seq<Entry>>, t2: Seq<Seq<Entry>>, b1: Seq<Entry>, b2: Seq<Entry>, from_b2: bool, i: int)
    requires
        ghosts_ok(cfg, t1, t2, b1, b2),
        from_b2 ==> 0 <= i < b2.len(),
        !from_b2 ==> 0 <= i < b1.len(),
    ensures
        from_b2 ==> ghosts_ok(cfg, t1, t2, b1, b2.remove(i))
            && forall|k: int| 0 <= k < (b1 + b2.remove(i)).len() ==> !(#[trigger] (b1 + b2.remove(i))[k]).is_key(b2[i].tenant as int, b2[i].page),
        !from_b2 ==> ghosts_ok(cfg, t1, t2, b1.remove(i), b2)
            && forall|k: int| 0 <= k < (b1.remove(i) + b2).len() ==> !(#[trigger] (b1.remove(i) + b2)[k]).is_key(b1[i].tenant as int, b1[i].page),
{
    let nb1 = if from_b2 { b1 } else { b1.remove(i) };
    let nb2 = if from_b2 { b2.remove(i) } else { b2 };
    let g = b1 + b2;
    let ng = nb1 + nb2;
    let pos = if from_b2 { b1.len() + i } else { i };
    assert(ng =~= g.remove(pos));
    lemma_unique_keys_remove(g, pos);
    let c = g[pos];
    assert(c == if from_b2 { b2[i] } else { b1[i] });
    assert forall|k: int| 0 <= k < ng.len() implies !(#[trigger] ng[k]).is_key(c.tenant as int, c.page) by {
        if k < pos {
            assert(ng[k] == g[k]);
            assert(!g[k].is_key(g[pos].tenant as int, g[pos].page));
        } else {
            assert(ng[k] == g[k + 1]);
            assert(!g[pos].is_key(g[k + 1].tenant as int, g[k + 1].page));
        }
    }
    assert forall|t: int, j: int, k: int|
        0 <= t < cfg.n() && 0 <= j < both(t1, t2, t).len() && 0 <= k < ng.len() implies !(#[trigger] ng[k]).is_key(t, #[trigger] both(t1, t2, t)[j].page) by {
        let k0 = if k < pos { k } else { k + 1 };
        assert(ng[k] == g[k0]);
        assert(!g[k0].is_key(t, both(t1, t2, t)[j].page));
    }
    assert forall|j: int| 0 <= j < nb1.len() implies (#[trigger] nb1[j]).loc == NO_SLOT by {
        if !from_b2 {
            let j0 = if j < i { j } else { j + 1 };
            assert(nb1[j] == b1[j0]);
        }
    }
    assert forall|j: int| 0 <= j < nb2.len() implies (#[trigger] nb2[j]).loc == NO_SLOT by {
        if from_b2 {
            let j0 = if j < i { j } else { j + 1 };
            assert(nb2[j] == b2[j0]);
        }
    }
}

/// A resident record's page has no ghost.
pub(crate) proof fn lemma_resident_not_ghost(cfg: Params, s: ArcState, f: bool, t: int, i: int)
    requires
        consistent(cfg, s),
        0 <= t < cfg.n(),
        has_pos(s.t1, s.t2, f, t, i),
    ensures
        forall|q: int| 0 <= q < (s.b1 + s.b2).len() ==> !(#[trigger] (s.b1 + s.b2)[q]).is_key(t, rec(s.t1, s.t2, f, t, i).page),
{
    let idx = if f { s.t1[t].len() + i } else { i };
    assert(both(s.t1, s.t2, t)[idx] == rec(s.t1, s.t2, f, t, i));
    assert forall|q: int| 0 <= q < (s.b1 + s.b2).len() implies !(#[trigger] (s.b1 + s.b2)[q]).is_key(t, rec(s.t1, s.t2, f, t, i).page) by {
        assert(!(s.b1 + s.b2)[q].is_key(t, both(s.t1, s.t2, t)[idx].page));
    }
}

/// A key with no ghost still has none after a ghost record is dropped.
pub(crate) proof fn lemma_drop_keeps_absent(b1: Seq<Entry>, b2: Seq<Entry>, from_b2: bool, i: int, t: int, page: u32)
    requires
        from_b2 ==> 0 <= i < b2.len(),
        !from_b2 ==> 0 <= i < b1.len(),
        forall|q: int| 0 <= q < (b1 + b2).len() ==> !(#[trigger] (b1 + b2)[q]).is_key(t, page),
    ensures
        from_b2 ==> forall|q: int| 0 <= q < (b1 + b2.remove(i)).len() ==> !(#[trigger] (b1 + b2.remove(i))[q]).is_key(t, page),
        !from_b2 ==> forall|q: int| 0 <= q < (b1.remove(i) + b2).len() ==> !(#[trigger] (b1.remove(i) + b2)[q]).is_key(t, page),
{
    let g = b1 + b2;
    if from_b2 {
        let ng = b1 + b2.remove(i);
        let pos = b1.len() + i;
        assert(ng =~= g.remove(pos));
        assert forall|q: int| 0 <= q < ng.len() implies !(#[trigger] ng[q]).is_key(t, page) by {
            let q0 = if q < pos { q } else { q + 1 };
            assert(ng[q] == g[q0]);
        }
    } else {
        let ng = b1.remove(i) + b2;
        assert(ng =~= g.remove(i));
        assert forall|q: int| 0 <= q < ng.len() implies !(#[trigger] ng[q]).is_key(t, page) by {
            let q0 = if q < i { q } else { q + 1 };
            assert(ng[q] == g[q0]);
        }
    }
}

/// A key found in neither ghost list has no ghost.
pub(crate) proof fn lemma_absent_ghosts(b1: Seq<Entry>, b2: Seq<Entry>, t: int, page: u32)
    requires
        forall|j: int| 0 <= j < b1.len() ==> !(#[trigger] b1[j]).is_key(t, page),
        forall|j: int| 0 <= j < b2.len() ==> !(#[trigger] b2[j]).is_key(t, page),
    ensures
        forall|q: int| 0 <= q < (b1 + b2).len() ==> !(#[trigger] (b1 + b2)[q]).is_key(t, page),
{
    assert forall|q: int| 0 <= q < (b1 + b2).len() implies !(#[trigger] (b1 + b2)[q]).is_key(t, page) by {
        if q < b1.len() {
            assert((b1 + b2)[q] == b1[q]);
        } else {
            assert((b1 + b2)[q] == b2[q - b1.len()]);
        }
    }
}

} // verus!
