//! The recency list: an arena-backed doubly linked list with stable handles.

use vstd::prelude::*;
use crate::types::Entry;

verus! {

/// Position of the most recent record of `(tenant, page)` in `s`, if any.
pub open spec fn find(s: Seq<Entry>, tenant: int, page: u32) -> Option<int>
    decreases s.len(),
{
    if s.len() == 0 {
        None
    } else if s.last().is_key(tenant, page) {
        Some(s.len() - 1)
    } else {
        find(s.drop_last(), tenant, page)
    }
}

/// `find` yields a position holding the key, or there is none.
pub proof fn lemma_find_bounds(s: Seq<Entry>, tenant: int, page: u32)
    ensures
        match find(s, tenant, page) {
            Some(i) => 0 <= i < s.len() && s[i].is_key(tenant, page),
            None => forall|j: int| 0 <= j < s.len() ==> !(#[trigger] s[j]).is_key(tenant, page),
        },
    decreases s.len(),
{
    if s.len() > 0 && !s.last().is_key(tenant, page) {
        lemma_find_bounds(s.drop_last(), tenant, page);
        assert forall|j: int| 0 <= j < s.len() - 1 implies s[j] == s.drop_last()[j] by {}
    }
}

/// One cell of the arena: a record and the links to its neighbours.
#[derive(Clone, Copy)]
struct Slot {
    entry: Entry,
    prev: Option<usize>,
    next: Option<usize>,
}

/// A doubly linked list of records, ordered from least recently used
/// (head) to most recently used (tail), kept in an arena of slots. A handle
/// is the index of a record's slot: it stays valid until that record leaves
/// the list, and removing a record by its handle takes constant time.
pub struct LruList {
    slots: Vec<Slot>,
    /// Slots that hold no record of the list, ready for reuse.
    free: Vec<usize>,
    head: Option<usize>,
    tail: Option<usize>,
    len: usize,
    /// Slot indices of the records, from head to tail.
    order: Ghost<Seq<usize>>,
}

impl View for LruList {
    type V = Seq<Entry>;

    closed spec fn view(&self) -> Seq<Entry> {
        self.order@.map_values(|i: usize| self.slots@[i as int].entry)
    }
}

impl LruList {
    /// The handles of the records, in list order.
    pub closed spec fn handles(&self) -> Seq<usize> {
        self.order@
    }

    /// The links agree with `order`, and every slot holds either a record
    /// or a free cell.
    pub closed spec fn wf(&self) -> bool {
        let o = self.order@;
        let n = o.len() as int;
        &&& self.len == n
        &&& self.slots@.len() == n + self.free@.len()
        &&& o.no_duplicates()
        &&& self.free@.no_duplicates()
        &&& forall|k: int| 0 <= k < n ==> (#[trigger] o[k]) < self.slots@.len()
        &&& forall|j: int| 0 <= j < self.free@.len() ==> (#[trigger] self.free@[j]) < self.slots@.len()
            && !o.contains(self.free@[j])
        &&& forall|k: int|
            0 <= k < n ==> (#[trigger] self.slots@[o[k] as int]).prev == (if k == 0 {
                None
            } else {
                Some(o[k - 1])
            })
        &&& forall|k: int|
            0 <= k < n ==> (#[trigger] self.slots@[o[k] as int]).next == (if k == n - 1 {
                None
            } else {
                Some(o[k + 1])
            })
        &&& self.head == (if n == 0 { None } else { Some(o[0]) })
        &&& self.tail == (if n == 0 { None } else { Some(o[n - 1]) })
    }

    /// A well-formed list has one handle per record, no handle twice.
    pub proof fn lemma_wf(&self)
        requires
            self.wf(),
        ensures
            self.handles().len() == self@.len(),
            self.handles().no_duplicates(),
    {
    }

    pub fn new() -> (r: LruList)
        ensures
            r.wf(),
            r@ == Seq::<Entry>::empty(),
    {
        let r = LruList {
            slots: Vec::new(),
            free: Vec::new(),
            head: None,
            tail: None,
            len: 0,
            order: Ghost(Seq::empty()),
        };
        assert(r@ =~= Seq::<Entry>::empty());
        r
    }

    pub fn len(&self) -> (r: usize)
        requires
            self.wf(),
        ensures
            r == self@.len(),
    {
        self.len
    }

    /// Appends a record at the most recently used end; returns its handle.
    pub fn push_mru(&mut self, e: Entry) -> (h: usize)
        requires
            old(self).wf(),
        ensures
            final(self).wf(),
            final(self)@ == old(self)@.push(e),
            final(self).handles() == old(self).handles().push(h),
    {
        let ghost o = self.order@;
        let ghost n = o.len() as int;
        let slot = Slot { entry: e, prev: self.tail, next: None };
        let h = match self.free.pop() {
            Some(f) => {
                self.slots.set(f, slot);
                f
            },
            None => {
                self.slots.push(slot);
                self.slots.len() - 1
            },
        };
        assert(!o.contains(h));
        let ghost mid = self.slots@;
        match self.tail {
            Some(t) => {
                let mut st = self.slots[t];
                st.next = Some(h);
                self.slots.set(t, st);
            },
            None => {
                self.head = Some(h);
            },
        }
        let total = self.slots.len();
        self.tail = Some(h);
        self.len = self.len + 1;
        self.order = Ghost(o.push(h));
        proof {
            let o2 = o.push(h);
            assert forall|k: int| 0 <= k < n implies self.slots@[o[k] as int].entry == old(self).slots@[o[k] as int].entry by {
                assert(o[k] != h);
            }
            assert(self@ =~= old(self)@.push(e));
            assert forall|k: int| 0 <= k < n + 1 implies (#[trigger] self.slots@[o2[k] as int]).prev == (if k == 0 {
                None
            } else {
                Some(o2[k - 1])
            }) by {
                if k < n {
                    assert(o2[k] == o[k] && o[k] != h);
                }
            }
            assert forall|k: int| 0 <= k < n + 1 implies (#[trigger] self.slots@[o2[k] as int]).next == (if k == n {
                None
            } else {
                Some(o2[k + 1])
            }) by {
                if k < n {
                    assert(o2[k] == o[k] && o[k] != h);
                }
            }
            assert forall|j: int| 0 <= j < self.free@.len() implies (#[trigger] self.free@[j]) < self.slots@.len()
                && !o2.contains(self.free@[j]) by {
                assert(self.free@[j] == old(self).free@[j]);
                if self.free@[j] == h {
                    assert(old(self).free@[old(self).free@.len() - 1] == h);
                }
                assert(!o.contains(self.free@[j]));
            }
            assert(o2.no_duplicates());
        }
        h
    }

    /// Cuts the record behind `h` out of the list.
    pub fn remove(&mut self, h: usize) -> (r: Entry)
        requires
            old(self).wf(),
            old(self).handles().contains(h),
        ensures
            final(self).wf(),
            forall|k: int|
                0 <= k < old(self).handles().len() && old(self).handles()[k] == h ==> {
                    &&& r == old(self)@[k]
                    &&& final(self)@ == old(self)@.remove(k)
                    &&& final(self).handles() == old(self).handles().remove(k)
                },
    {
        let ghost o = self.order@;
        let ghost n = o.len() as int;
        let ghost k = choose|k: int| 0 <= k < n && o[k] == h;
        let slot = self.slots[h];
        match slot.prev {
            Some(p) => {
                let mut sp = self.slots[p];
                sp.next = slot.next;
                self.slots.set(p, sp);
            },
            None => {
                self.head = slot.next;
            },
        }
        match slot.next {
            Some(q) => {
                let mut sq = self.slots[q];
                sq.prev = slot.prev;
                self.slots.set(q, sq);
            },
            None => {
                self.tail = slot.prev;
            },
        }
        self.free.push(h);
        self.len = self.len - 1;
        self.order = Ghost(o.remove(k));
        proof {
            let o2 = o.remove(k);
            assert forall|j: int| 0 <= j < n && j != k implies o[j] != h by {}
            assert forall|j: int| 0 <= j < n - 1 implies (#[trigger] o2[j]) == (if j < k { o[j] } else { o[j + 1] }) by {}
            assert forall|j: int| 0 <= j < n - 1 implies (#[trigger] self.slots@[o2[j] as int]).entry == old(self).slots@[o2[j] as int].entry by {}
            assert(self@ =~= old(self)@.remove(k));
            assert forall|j: int| 0 <= j < n - 1 implies (#[trigger] self.slots@[o2[j] as int]).prev == (if j == 0 {
                None
            } else {
                Some(o2[j - 1])
            }) by {
                let oj = if j < k { j } else { j + 1 };
                assert(o2[j] == o[oj]);
            }
            assert forall|j: int| 0 <= j < n - 1 implies (#[trigger] self.slots@[o2[j] as int]).next == (if j == n - 2 {
                None
            } else {
                Some(o2[j + 1])
            }) by {
                let oj = if j < k { j } else { j + 1 };
                assert(o2[j] == o[oj]);
            }
            assert forall|j: int| 0 <= j < self.free@.len() implies (#[trigger] self.free@[j]) < self.slots@.len()
                && !o2.contains(self.free@[j]) by {
                if j < old(self).free@.len() {
                    assert(self.free@[j] == old(self).free@[j]);
                    assert(!o.contains(self.free@[j]));
                }
            }
            assert(o2.no_duplicates());
            assert(self.free@.no_duplicates()) by {
                assert(!old(self).free@.contains(h));
            }
            assert forall|k2: int| 0 <= k2 < n && o[k2] == h implies k2 == k by {}
        }
        slot.entry
    }

    /// Removes the least recently used record.
    pub fn pop_lru(&mut self) -> (r: Option<Entry>)
        requires
            old(self).wf(),
        ensures
            final(self).wf(),
            old(self)@.len() == 0 ==> r is None && final(self)@ == old(self)@ && final(self).handles() == old(self).handles(),
            old(self)@.len() > 0 ==> r == Some(old(self)@[0]) && final(self)@ == old(self)@.remove(0)
                && final(self).handles() == old(self).handles().remove(0),
    {
        match self.head {
            None => None,
            Some(h) => {
                assert(self.handles()[0] == h);
                Some(self.remove(h))
            },
        }
    }

    /// Removes the most recently used record.
    pub fn pop_mru(&mut self) -> (r: Option<Entry>)
        requires
            old(self).wf(),
        ensures
            final(self).wf(),
            old(self)@.len() == 0 ==> r is None && final(self)@ == old(self)@,
            old(self)@.len() > 0 ==> r == Some(old(self)@.last()) && final(self)@ == old(self)@.drop_last(),
    {
        match self.tail {
            None => None,
            Some(h) => {
                let ghost n = self@.len() as int;
                assert(self.handles()[n - 1] == h);
                let r = self.remove(h);
                assert(old(self)@.remove(n - 1) =~= old(self)@.drop_last());
                Some(r)
            },
        }
    }

    /// The least recently used record, left in place.
    pub fn peek_lru(&self) -> (r: Option<Entry>)
        requires
            self.wf(),
        ensures
            self@.len() == 0 ==> r is None,
            self@.len() > 0 ==> r == Some(self@[0]),
    {
        match self.head {
            None => None,
            Some(h) => Some(self.slots[h].entry),
        }
    }

    /// The record behind `h`, left in place.
    pub fn get(&self, h: usize) -> (r: Entry)
        requires
            self.wf(),
            self.handles().contains(h),
        ensures
            forall|k: int| 0 <= k < self.handles().len() && self.handles()[k] == h ==> r == self@[k],
    {
        self.slots[h].entry
    }

    /// Handle of the most recent record of `(tenant, page)`, walking the
    /// links from the most recently used end.
    pub fn find(&self, tenant: usize, page: u32) -> (r: Option<usize>)
        requires
            self.wf(),
        ensures
            r matches Some(h) ==> (find(self@, tenant as int, page) matches Some(k) && self.handles()[k] == h),
            r is None ==> find(self@, tenant as int, page) is None,
    {
        let ghost o = self.order@;
        let mut cur = self.tail;
        let ghost mut k: int = o.len() as int;
        assert(self@.subrange(0, k) =~= self@);
        loop
            invariant
                self.wf(),
                o == self.order@,
                0 <= k <= o.len(),
                cur == (if k == 0 { None } else { Some(o[k - 1]) }),
                find(self@, tenant as int, page) == find(self@.subrange(0, k), tenant as int, page),
            decreases k,
        {
            match cur {
                None => {
                    return None;
                },
                Some(c) => {
                    let e = self.slots[c].entry;
                    let ghost pre = self@.subrange(0, k);
                    assert(pre.drop_last() =~= self@.subrange(0, k - 1));
                    assert(pre.last() == e);
                    if e.tenant == tenant && e.page == page {
                        return Some(c);
                    }
                    cur = self.slots[c].prev;
                    proof {
                        k = k - 1;
                    }
                },
            }
        }
    }
}

} // verus!
