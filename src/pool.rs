//! The pool proper: clean slots on a stack, dirty slots in maximal ranges.
use crate::outside::{
    queue_change_priority, queue_entries, queue_is_empty, queue_new, queue_pop, queue_push,
    queue_remove, slab_entries, slab_get, slab_insert, slab_remove, slab_set, slab_with_capacity,
};
use priority_queue::PriorityQueue;
use slab::Slab;
use vstd::prelude::*;

verus! {

/// The index of one slot in the bank.
#[derive(Clone, Copy, Debug, PartialEq, Eq, Structural)]
pub struct SlotId(pub usize);

/// A byte region of the bank that must be decommitted.
#[derive(Clone, Copy, Debug, PartialEq, Eq, Structural)]
pub struct Region {
    pub address: usize,
    pub length: usize,
}

/// What `allocate` hands out: a slot, and the region that the caller must
/// decommit before it uses the slot, if any.
#[derive(Clone, Copy, Debug, PartialEq, Eq, Structural)]
pub struct Allocation {
    pub slot: SlotId,
    pub decommit: Option<Region>,
}

/// The bits that decide when the size hint of a grown range is refreshed:
/// it is refreshed when `end - begin` has none of them set.
const REFRESH_MASK: usize = 0x11111;

/// Slot `s` lies in the closed range `r`.
pub open spec fn in_range(r: (usize, usize), s: int) -> bool {
    r.0 <= s <= r.1
}

/// Two ranges neither overlap nor touch: at least one slot lies between them.
pub open spec fn apart(a: (usize, usize), b: (usize, usize)) -> bool {
    a.1 + 1 < b.0 || b.1 + 1 < a.0
}

/// The slots `0 .. n`.
pub open spec fn below(n: nat) -> Set<usize> {
    Set::new(|s: usize| s < n)
}

/// The range `r` ends right before slot `s` or begins right after it.
pub open spec fn touches(r: (usize, usize), s: int) -> bool {
    r.1 + 1 == s || r.0 == s + 1
}

/// The slots `begin + 1 ..= end`, in increasing order.
pub open spec fn rest_of(begin: usize, end: usize) -> Seq<usize> {
    Seq::new((end - begin) as nat, |i: int| (begin + 1 + i) as usize)
}

/// Keeps slots that wait for reuse. Clean slots can be handed out at once;
/// dirty slots are kept as maximal ranges, each to be decommitted in one call
/// when it is needed.
pub struct LazyPool {
    max_instances: usize,
    stack_size: usize,
    base: usize,
    // range key -> (begin, end)
    dirty_ranges_slab: Slab<(usize, usize)>,
    // begin -> range key
    dirty_begin_mapping: Vec<Option<usize>>,
    // end -> range key
    dirty_end_mapping: Vec<Option<usize>>,
    // range key, by a hint of its length
    dirty_ranges: PriorityQueue<usize, usize>,
    clean: Vec<SlotId>,
}

impl LazyPool {
    /// The number of slots in the bank.
    pub closed spec fn max_instances(&self) -> nat {
        self.max_instances as nat
    }

    /// The size of one slot in bytes.
    pub closed spec fn slot_size(&self) -> nat {
        self.stack_size as nat
    }

    /// The address of slot 0.
    pub closed spec fn base(&self) -> nat {
        self.base as nat
    }

    /// The dirty ranges, by their key.
    pub closed spec fn ranges(&self) -> Map<usize, (usize, usize)> {
        slab_entries(self.dirty_ranges_slab)
    }

    /// The size hint under which each range key is queued.
    pub closed spec fn priorities(&self) -> Map<usize, usize> {
        queue_entries(self.dirty_ranges)
    }

    /// The clean slots, the next to be handed out last.
    pub closed spec fn clean(&self) -> Seq<usize> {
        self.clean@.map_values(|s: SlotId| s.0)
    }

    /// For each slot, the key of the range that begins there.
    pub closed spec fn begin_index(&self) -> Seq<Option<usize>> {
        self.dirty_begin_mapping@
    }

    /// For each slot, the key of the range that ends there.
    pub closed spec fn end_index(&self) -> Seq<Option<usize>> {
        self.dirty_end_mapping@
    }

    /// Slot `s` lies in some dirty range.
    pub open spec fn is_dirty(&self, s: int) -> bool {
        exists|id: usize| #[trigger]
            self.ranges().contains_key(id) && in_range(self.ranges()[id], s)
    }

    /// The slots of all dirty ranges.
    pub open spec fn dirty(&self) -> Set<usize> {
        Set::new(|s: usize| self.is_dirty(s as int))
    }

    /// The slots that the pool holds, clean or dirty.
    pub open spec fn held(&self) -> Set<usize> {
        self.clean().to_set() + self.dirty()
    }

    /// The slots of the bank that are out with callers.
    pub open spec fn live(&self) -> Set<usize> {
        Set::new(|s: usize| s < self.max_instances() && !self.held().contains(s))
    }

    /// `allocate` has a slot to hand out.
    pub open spec fn has_slot(&self) -> bool {
        self.clean().len() > 0 || !self.ranges().is_empty()
    }

    /// The same bank: the same number of slots, slot size and base address.
    pub open spec fn same_bank(&self, other: &Self) -> bool {
        self.max_instances() == other.max_instances() && self.slot_size() == other.slot_size()
            && self.base() == other.base()
    }

    /// The region of the bank that the slots `begin ..= end` occupy.
    pub open spec fn region(&self, begin: usize, end: usize) -> Region {
        Region {
            address: (self.base() + begin * self.slot_size()) as usize,
            length: ((end - begin + 1) * self.slot_size()) as usize,
        }
    }

    /// The first slot of the range that slot `i` joins when freed: that of
    /// the range ending right before it, or `i` itself.
    pub open spec fn joined_begin(&self, i: usize) -> usize {
        if exists|id: usize| #[trigger]
            self.ranges().contains_key(id) && self.ranges()[id].1 + 1 == i {
            self.ranges()[choose|id: usize| #[trigger]
                self.ranges().contains_key(id) && self.ranges()[id].1 + 1 == i].0
        } else {
            i
        }
    }

    /// The last slot of the range that slot `i` joins when freed: that of
    /// the range beginning right after it, or `i` itself.
    pub open spec fn joined_end(&self, i: usize) -> usize {
        if exists|id: usize| #[trigger]
            self.ranges().contains_key(id) && self.ranges()[id].0 == i + 1 {
            self.ranges()[choose|id: usize| #[trigger]
                self.ranges().contains_key(id) && self.ranges()[id].0 == i + 1].1
        } else {
            i
        }
    }

    /// The key `id` is queued with a size hint at least as large as any other.
    pub open spec fn is_first(&self, id: usize) -> bool {
        forall|j: usize| #[trigger]
            self.priorities().contains_key(j) ==> self.priorities()[j] <= self.priorities()[id]
    }

    /// The pool's invariant.
    pub open spec fn wf(&self) -> bool {
        &&& self.begin_index().len() == self.max_instances()
        &&& self.end_index().len() == self.max_instances()
        &&& self.base() + self.max_instances() * self.slot_size() <= usize::MAX
        &&& forall|id: usize| #[trigger]
            self.ranges().contains_key(id) ==> {
                let r = self.ranges()[id];
                &&& r.0 <= r.1 < self.max_instances()
                &&& self.begin_index()[r.0 as int] == Some(id)
                &&& self.end_index()[r.1 as int] == Some(id)
            }
        &&& forall|s: int|
            0 <= s < self.max_instances() && (#[trigger] self.begin_index()[s]) is Some ==> {
                let id = self.begin_index()[s]->Some_0;
                self.ranges().contains_key(id) && self.ranges()[id].0 == s
            }
        &&& forall|s: int|
            0 <= s < self.max_instances() && (#[trigger] self.end_index()[s]) is Some ==> {
                let id = self.end_index()[s]->Some_0;
                self.ranges().contains_key(id) && self.ranges()[id].1 == s
            }
        &&& forall|a: usize, b: usize|
            #![trigger self.ranges().contains_key(a), self.ranges().contains_key(b)]
            self.ranges().contains_key(a) && self.ranges().contains_key(b) && a != b ==> apart(
                self.ranges()[a],
                self.ranges()[b],
            )
        &&& self.priorities().dom() == self.ranges().dom()
        &&& self.clean().no_duplicates()
        &&& forall|i: int|
            0 <= i < self.clean().len() ==> #[trigger] self.clean()[i] < self.max_instances()
                && !self.is_dirty(self.clean()[i] as int)
    }

    /// Creates a pool of `max_instances` slots of `stack_size` bytes from
    /// `base` on, whose clean slots are `ids`, and which has no dirty slot.
    pub fn new(ids: Vec<SlotId>, max_instances: usize, stack_size: usize, base: usize) -> (r: Self)
        requires
            base + max_instances * stack_size <= usize::MAX,
            forall|i: int| 0 <= i < ids.len() ==> #[trigger] ids[i].0 < max_instances,
            ids@.map_values(|s: SlotId| s.0).no_duplicates(),
        ensures
            r.wf(),
            r.max_instances() == max_instances,
            r.slot_size() == stack_size,
            r.base() == base,
            r.clean() == ids@.map_values(|s: SlotId| s.0),
            r.ranges().is_empty(),
    {
        let mut dirty_begin_mapping: Vec<Option<usize>> = Vec::with_capacity(max_instances);
        let mut dirty_end_mapping: Vec<Option<usize>> = Vec::with_capacity(max_instances);
        let mut n: usize = 0;
        while n < max_instances
            invariant
                n <= max_instances,
                dirty_begin_mapping@ == Seq::new(n as nat, |i: int| None::<usize>),
                dirty_end_mapping@ == Seq::new(n as nat, |i: int| None::<usize>),
            decreases max_instances - n,
        {
            dirty_begin_mapping.push(None);
            dirty_end_mapping.push(None);
            n = n + 1;
            assert(dirty_begin_mapping@ =~= Seq::new(n as nat, |i: int| None::<usize>));
            assert(dirty_end_mapping@ =~= Seq::new(n as nat, |i: int| None::<usize>));
        }
        let r = LazyPool {
            max_instances,
            stack_size,
            base,
            dirty_ranges_slab: slab_with_capacity(max_instances),
            dirty_begin_mapping,
            dirty_end_mapping,
            dirty_ranges: queue_new(),
            clean: ids,
        };
        assert(r.ranges() =~= Map::empty());
        assert(r.priorities().dom() =~= r.ranges().dom());
        r
    }

    /// True iff the pool holds no slot, clean or dirty.
    pub fn is_empty(&self) -> (r: bool)
        requires
            self.wf(),
        ensures
            r == !self.has_slot(),
    {
        self.clean.len() == 0 && queue_is_empty(&self.dirty_ranges)
    }

    /// Hands out a slot. A clean slot is taken first, the one pushed last.
    /// With no clean slot left, the range queued with the greatest size hint
    /// is taken whole: its first slot is handed out with the range's region
    /// to decommit, and its other slots become clean.
    pub fn allocate(&mut self) -> (r: Allocation)
        requires
            old(self).wf(),
            old(self).has_slot(),
        ensures
            final(self).wf(),
            final(self).same_bank(old(self)),
            old(self).held().contains(r.slot.0),
            final(self).held() == old(self).held().remove(r.slot.0),
            old(self).clean().len() > 0 ==> {
                &&& r.decommit is None
                &&& r.slot.0 == old(self).clean().last()
                &&& final(self).clean() == old(self).clean().drop_last()
                &&& final(self).ranges() == old(self).ranges()
                &&& final(self).priorities() == old(self).priorities()
            },
            old(self).clean().len() == 0 ==> exists|id: usize|
                #[trigger] old(self).ranges().contains_key(id) && {
                    let (b, e) = old(self).ranges()[id];
                    &&& old(self).is_first(id)
                    &&& r.slot.0 == b
                    &&& r.decommit == Some(old(self).region(b, e))
                    &&& final(self).clean() == rest_of(b, e)
                    &&& final(self).ranges() == old(self).ranges().remove(id)
                    &&& final(self).priorities() == old(self).priorities().remove(id)
                },
    {
        if self.clean.len() > 0 {
            let id = self.clean.pop().unwrap();
            proof {
                let ghost o = *old(self);
                assert(self.clean() =~= o.clean().drop_last());
                assert forall|i: int| 0 <= i < self.clean().len() implies #[trigger] self.clean()[i]
                    < self.max_instances() && !self.is_dirty(self.clean()[i] as int) by {
                    assert(self.clean()[i] == o.clean()[i]);
                }
                assert(o.clean() =~= self.clean().push(id.0));
                assert(!self.clean().contains(id.0)) by {
                    if self.clean().contains(id.0) {
                        let j = choose|j: int| 0 <= j < self.clean().len() && self.clean()[j] == id.0;
                        assert(o.clean()[j] == o.clean()[o.clean().len() - 1]);
                    }
                }
                assert(o.clean().to_set() =~= self.clean().to_set().insert(id.0)) by {
                    assert forall|s: usize| #[trigger] o.clean().contains(s) implies self.clean().contains(s) || s == id.0 by {
                        let j = choose|j: int| 0 <= j < o.clean().len() && o.clean()[j] == s;
                        if j < self.clean().len() {
                            assert(self.clean()[j] == s);
                        }
                    }
                    assert forall|s: usize| #[trigger] self.clean().contains(s) implies o.clean().contains(s) by {
                        let j = choose|j: int| 0 <= j < self.clean().len() && self.clean()[j] == s;
                        assert(o.clean()[j] == s);
                    }
                    assert(o.clean()[o.clean().len() - 1] == id.0);
                }
                assert(!o.is_dirty(id.0 as int)) by {
                    assert(o.clean()[o.clean().len() - 1] == id.0);
                }
                assert(self.dirty_ranges_slab == o.dirty_ranges_slab);
                assert(self.ranges() == o.ranges());
                assert(self.dirty() =~= o.dirty());
                assert(self.held() =~= o.held().remove(id.0));
            }
            return Allocation { slot: id, decommit: None };
        }
        let ghost o = *self;
        let top = queue_pop(&mut self.dirty_ranges);
        let (slab_id, _) = top.unwrap();
        let (left, right) = slab_remove(&mut self.dirty_ranges_slab, slab_id);
        self.dirty_begin_mapping.set(left, None);
        self.dirty_end_mapping.set(right, None);
        proof {
            assert(left as int * self.stack_size <= self.max_instances * self.stack_size)
                by (nonlinear_arith)
                requires
                    left < self.max_instances,
            ;
            assert((right + 1 - left) as int * self.stack_size <= self.max_instances
                * self.stack_size) by (nonlinear_arith)
                requires
                    left <= right < self.max_instances,
            ;
        }
        let begin = left * self.stack_size + self.base;
        let len = (right + 1 - left) * self.stack_size;
        let mut rest: Vec<SlotId> = Vec::new();
        let mut id = left + 1;
        while id <= right
            invariant
                left < id <= right + 1,
                right < usize::MAX,
                rest@.len() == id - left - 1,
                forall|i: int| 0 <= i < rest@.len() ==> #[trigger] rest@[i].0 == left + 1 + i,
            decreases right + 1 - id,
        {
            rest.push(SlotId(id));
            id = id + 1;
        }
        self.clean = rest;
        proof {
            assert(self.clean() =~= rest_of(left, right));
            self.lemma_drained(o, slab_id);
        }
        Allocation { slot: SlotId(left), decommit: Some(Region { address: begin, length: len }) }
    }

    /// What is left of a pool after the range `id` was taken out of its
    /// store, queue and indices, and its slots after the first made clean.
    proof fn lemma_drained(&self, o: Self, id: usize)
        requires
            o.wf(),
            o.clean().len() == 0,
            o.ranges().contains_key(id),
            self.same_bank(&o),
            self.ranges() == o.ranges().remove(id),
            self.priorities() == o.priorities().remove(id),
            self.begin_index() == o.begin_index().update(o.ranges()[id].0 as int, None),
            self.end_index() == o.end_index().update(o.ranges()[id].1 as int, None),
            self.clean() == rest_of(o.ranges()[id].0, o.ranges()[id].1),
        ensures
            self.wf(),
            self.held() == o.held().remove(o.ranges()[id].0),
    {
        let (b, e) = o.ranges()[id];
        assert forall|k: usize| #[trigger] self.ranges().contains_key(k) implies {
            let r = self.ranges()[k];
            &&& r.0 <= r.1 < self.max_instances()
            &&& self.begin_index()[r.0 as int] == Some(k)
            &&& self.end_index()[r.1 as int] == Some(k)
        } by {
            assert(o.ranges().contains_key(k) && o.ranges().contains_key(id) && k != id);
            assert(apart(o.ranges()[k], o.ranges()[id]));
        }
        assert forall|s: int|
            0 <= s < self.max_instances() && (#[trigger] self.begin_index()[s]) is Some implies {
            let k = self.begin_index()[s]->Some_0;
            self.ranges().contains_key(k) && self.ranges()[k].0 == s
        } by {
            assert(s != b);
            assert(o.begin_index()[s] is Some);
        }
        assert forall|s: int|
            0 <= s < self.max_instances() && (#[trigger] self.end_index()[s]) is Some implies {
            let k = self.end_index()[s]->Some_0;
            self.ranges().contains_key(k) && self.ranges()[k].1 == s
        } by {
            assert(s != e);
            assert(o.end_index()[s] is Some);
        }
        assert forall|a: usize, c: usize|
            self.ranges().contains_key(a) && self.ranges().contains_key(c) && a != c implies apart(
            self.ranges()[a],
            self.ranges()[c],
        ) by {
            assert(o.ranges().contains_key(a) && o.ranges().contains_key(c));
        }
        assert(self.priorities().dom() =~= self.ranges().dom());
        assert forall|i: int, j: int|
            0 <= i < self.clean().len() && 0 <= j < self.clean().len() && i != j implies self.clean()[i]
            != self.clean()[j] by {}
        assert forall|i: int| 0 <= i < self.clean().len() implies #[trigger] self.clean()[i]
            < self.max_instances() && !self.is_dirty(self.clean()[i] as int) by {
            let s = self.clean()[i] as int;
            if self.is_dirty(s) {
                let k = choose|k: usize| #[trigger]
                    self.ranges().contains_key(k) && in_range(self.ranges()[k], s);
                assert(o.ranges().contains_key(k) && o.ranges().contains_key(id) && k != id);
                assert(apart(o.ranges()[k], o.ranges()[id]));
            }
        }
        assert(self.held() =~= o.held().remove(b)) by {
            assert(o.clean().to_set() =~= Set::empty());
            assert forall|s: usize| #[trigger] self.held().contains(s) implies o.held().remove(
                b,
            ).contains(s) by {
                if self.clean().to_set().contains(s) {
                    let i = choose|i: int| 0 <= i < self.clean().len() && self.clean()[i] == s;
                    assert(o.ranges().contains_key(id) && in_range(o.ranges()[id], s as int));
                } else {
                    let k = choose|k: usize| #[trigger]
                        self.ranges().contains_key(k) && in_range(self.ranges()[k], s as int);
                    assert(o.ranges().contains_key(k) && o.ranges().contains_key(id) && k != id);
                    assert(apart(o.ranges()[k], o.ranges()[id]));
                    assert(o.is_dirty(s as int));
                }
            }
            assert forall|s: usize| #[trigger] o.held().remove(b).contains(s) implies self.held().contains(
                s,
            ) by {
                let k = choose|k: usize| #[trigger]
                    o.ranges().contains_key(k) && in_range(o.ranges()[k], s as int);
                if k == id {
                    assert(self.clean()[s - b - 1] == s);
                    assert(self.clean().to_set().contains(s));
                } else {
                    assert(self.ranges().contains_key(k));
                    assert(self.is_dirty(s as int));
                }
            }
        }
    }

    /// Takes back slot `index` from its caller as dirty. It joins the dirty
    /// range that ends right before it and the one that begins right after
    /// it, so that the ranges stay maximal; with neither, it becomes a range
    /// of its own, queued with size hint 1.
    pub fn free(&mut self, index: SlotId)
        requires
            old(self).wf(),
            old(self).live().contains(index.0),
        ensures
            final(self).wf(),
            final(self).same_bank(old(self)),
            final(self).clean() == old(self).clean(),
            final(self).dirty() == old(self).dirty().insert(index.0),
            final(self).held() == old(self).held().insert(index.0),
            final(self).has_slot(),
            exists|k: usize|
                {
                    &&& #[trigger] final(self).ranges().contains_key(k)
                    &&& final(self).ranges()[k] == (
                        old(self).joined_begin(index.0),
                        old(self).joined_end(index.0),
                    )
                    &&& forall|id: usize|
                        id != k ==> (#[trigger] final(self).ranges().contains_key(id) <==> (old(
                            self,
                        ).ranges().contains_key(id) && !touches(
                            old(self).ranges()[id],
                            index.0 as int,
                        )))
                },
            forall|id: usize| #[trigger]
                old(self).ranges().contains_key(id) && !touches(
                    old(self).ranges()[id],
                    index.0 as int,
                ) ==> final(self).ranges().contains_key(id) && final(self).ranges()[id] == old(
                    self,
                ).ranges()[id] && final(self).priorities()[id] == old(self).priorities()[id],
            (forall|id: usize| #[trigger]
                old(self).ranges().contains_key(id) ==> !touches(
                    old(self).ranges()[id],
                    index.0 as int,
                )) ==> exists|k: usize|
                !old(self).ranges().contains_key(k) && #[trigger] final(self).ranges().contains_key(
                    k,
                ) && final(self).ranges()[k] == (index.0, index.0) && final(self).priorities()[k]
                    == 1,
    {
        let ghost o = *self;
        let i = index.0;
        let mut slab_left: Option<usize> = None;
        let mut slab_right: Option<usize> = None;
        if i > 0 {
            let prev = i - 1;
            slab_left = self.dirty_end_mapping[prev];
            self.dirty_end_mapping.set(prev, None);
        }
        if i + 1 < self.max_instances {
            let next = i + 1;
            slab_right = self.dirty_begin_mapping[next];
            self.dirty_begin_mapping.set(next, None);
        }
        proof {
            assert(!o.is_dirty(i as int));
            if slab_left is None {
                assert forall|id: usize| #[trigger] o.ranges().contains_key(id) implies o.ranges()[id].1 + 1 != i by {
                    if o.ranges()[id].1 + 1 == i {
                        assert(o.end_index()[i - 1] == Some(id));
                    }
                }
            }
            if slab_right is None {
                assert forall|id: usize| #[trigger] o.ranges().contains_key(id) implies o.ranges()[id].0 != i + 1 by {
                    if o.ranges()[id].0 == i + 1 {
                        assert(o.begin_index()[i + 1] == Some(id));
                    }
                }
            }
        }
        let ghost mut k: usize = 0;
        let ghost mut nb: usize = i;
        let ghost mut ne: usize = i;
        match (slab_left, slab_right) {
            (None, None) => {
                let slab_id = slab_insert(&mut self.dirty_ranges_slab, (i, i));
                self.dirty_begin_mapping.set(i, Some(slab_id));
                self.dirty_end_mapping.set(i, Some(slab_id));
                queue_push(&mut self.dirty_ranges, slab_id, 1);
                proof {
                    k = slab_id;
                }
            },
            (Some(slab_id), None) => {
                self.dirty_end_mapping.set(i, Some(slab_id));
                let range = slab_get(&self.dirty_ranges_slab, slab_id);
                slab_set(&mut self.dirty_ranges_slab, slab_id, (range.0, i));
                let size = i - range.0;
                if size & REFRESH_MASK == 0 {
                    queue_change_priority(&mut self.dirty_ranges, slab_id, size);
                }
                proof {
                    k = slab_id;
                    nb = range.0;
                }
            },
            (None, Some(slab_id)) => {
                self.dirty_begin_mapping.set(i, Some(slab_id));
                let range = slab_get(&self.dirty_ranges_slab, slab_id);
                slab_set(&mut self.dirty_ranges_slab, slab_id, (i, range.1));
                let size = range.1 - i;
                if size & REFRESH_MASK == 0 {
                    queue_change_priority(&mut self.dirty_ranges, slab_id, size);
                }
                proof {
                    k = slab_id;
                    ne = range.1;
                }
            },
            (Some(left_slab_id), Some(right_slab_id)) => {
                let right_range = slab_remove(&mut self.dirty_ranges_slab, right_slab_id);
                let range = slab_get(&self.dirty_ranges_slab, left_slab_id);
                slab_set(&mut self.dirty_ranges_slab, left_slab_id, (range.0, right_range.1));
                self.dirty_end_mapping.set(right_range.1, Some(left_slab_id));
                let size = right_range.1 - range.0;
                if size & REFRESH_MASK == 0 {
                    queue_change_priority(&mut self.dirty_ranges, left_slab_id, size);
                }
                queue_remove(&mut self.dirty_ranges, right_slab_id);
                proof {
                    k = left_slab_id;
                    nb = range.0;
                    ne = right_range.1;
                }
            },
        }
        proof {
            assert(self.priorities().dom() =~= self.ranges().dom());
            self.lemma_freed(o, i, slab_left, slab_right, k, nb, ne);
            if let Some(l) = slab_left {
                let c = choose|id: usize| #[trigger]
                    o.ranges().contains_key(id) && o.ranges()[id].1 + 1 == i;
                assert(o.end_index()[i - 1] == Some(c));
                assert(nb == o.joined_begin(i));
            } else {
                assert(nb == o.joined_begin(i));
            }
            if let Some(r) = slab_right {
                let c = choose|id: usize| #[trigger]
                    o.ranges().contains_key(id) && o.ranges()[id].0 == i + 1;
                assert(o.begin_index()[i + 1] == Some(c));
                assert(ne == o.joined_end(i));
            } else {
                assert(ne == o.joined_end(i));
            }
            assert(self.ranges().contains_key(k));
            if slab_left is None && slab_right is None {
                assert(!o.ranges().contains_key(k) && self.ranges().contains_key(k));
                assert(self.ranges()[k] == (i, i) && self.priorities()[k] == 1);
            }
        }
    }

    /// What holds of a pool after slot `i` was joined with the ranges
    /// `left` (ending right before it) and `right` (beginning right after
    /// it) into the range `k`, which now spans `nb ..= ne`.
    proof fn lemma_freed(
        &self,
        o: Self,
        i: usize,
        left: Option<usize>,
        right: Option<usize>,
        k: usize,
        nb: usize,
        ne: usize,
    )
        requires
            o.wf(),
            o.live().contains(i),
            self.same_bank(&o),
            self.clean() == o.clean(),
            left matches Some(l) ==> o.ranges().contains_key(l) && o.ranges()[l].1 + 1 == i
                && nb == o.ranges()[l].0 && k == l,
            left is None ==> nb == i && forall|id: usize| #[trigger]
                o.ranges().contains_key(id) ==> o.ranges()[id].1 + 1 != i,
            right matches Some(r) ==> o.ranges().contains_key(r) && o.ranges()[r].0 == i + 1
                && ne == o.ranges()[r].1 && (left is None ==> k == r),
            right is None ==> ne == i && forall|id: usize| #[trigger]
                o.ranges().contains_key(id) ==> o.ranges()[id].0 != i + 1,
            left is None && right is None ==> !o.ranges().contains_key(k),
            self.ranges().contains_key(k),
            self.ranges()[k] == (nb, ne),
            forall|id: usize|
                #![trigger self.ranges().contains_key(id)]
                #![trigger o.ranges().contains_key(id)]
                id != k ==> (self.ranges().contains_key(id) <==> (o.ranges().contains_key(id)
                    && !touches(o.ranges()[id], i as int))),
            forall|id: usize| #[trigger]
                self.ranges().contains_key(id) && id != k ==> self.ranges()[id] == o.ranges()[id],
            self.begin_index().len() == o.begin_index().len(),
            self.end_index().len() == o.end_index().len(),
            forall|s: int|
                0 <= s < o.max_instances() ==> #[trigger] self.begin_index()[s] == (if s == nb {
                    Some(k)
                } else if s == i + 1 {
                    None
                } else {
                    o.begin_index()[s]
                }),
            forall|s: int|
                0 <= s < o.max_instances() ==> #[trigger] self.end_index()[s] == (if s == ne {
                    Some(k)
                } else if s == i - 1 {
                    None
                } else {
                    o.end_index()[s]
                }),
            self.priorities().dom() == self.ranges().dom(),
        ensures
            self.wf(),
            self.dirty() == o.dirty().insert(i),
            self.held() == o.held().insert(i),
    {
    }

    /// Each slot of the bank is in exactly one of three states: out with a
    /// caller, clean, or in a dirty range; and the pool holds no slot outside
    /// the bank.
    pub proof fn lemma_partition(&self)
        requires
            self.wf(),
        ensures
            self.held().subset_of(below(self.max_instances())),
            forall|s: usize|
                s < self.max_instances() ==> #[trigger] self.live().contains(s)
                    || self.clean().contains(s) || self.dirty().contains(s),
            forall|s: usize| !(#[trigger] self.live().contains(s) && self.clean().contains(s)),
            forall|s: usize| !(#[trigger] self.live().contains(s) && self.dirty().contains(s)),
            forall|s: usize| !(#[trigger] self.clean().contains(s) && self.dirty().contains(s)),
            self.clean().no_duplicates(),
    {
        assert forall|s: usize| #[trigger] self.held().contains(s) implies s
            < self.max_instances() by {
            if self.clean().contains(s) {
                let i = choose|i: int| 0 <= i < self.clean().len() && self.clean()[i] == s;
            } else {
                let k = choose|k: usize| #[trigger]
                    self.ranges().contains_key(k) && in_range(self.ranges()[k], s as int);
            }
        }
        assert forall|s: usize| !(#[trigger] self.clean().contains(s) && self.dirty().contains(s)) by {
            if self.clean().contains(s) {
                let i = choose|i: int| 0 <= i < self.clean().len() && self.clean()[i] == s;
            }
        }
    }

    /// No two dirty ranges overlap or touch: a slot that is not dirty lies
    /// between any two of them.
    pub proof fn lemma_ranges_apart(&self)
        requires
            self.wf(),
        ensures
            forall|a: usize, b: usize|
                #![trigger self.ranges().contains_key(a), self.ranges().contains_key(b)]
                self.ranges().contains_key(a) && self.ranges().contains_key(b) && a != b
                    ==> apart(self.ranges()[a], self.ranges()[b]),
    {
    }

    /// The begin index holds each range's key at its first slot and the end
    /// index at its last slot, and neither holds a key anywhere else.
    pub proof fn lemma_boundary_indices(&self)
        requires
            self.wf(),
        ensures
            forall|id: usize| #[trigger]
                self.ranges().contains_key(id) ==> self.begin_index()[self.ranges()[id].0 as int]
                    == Some(id) && self.end_index()[self.ranges()[id].1 as int] == Some(id),
            forall|s: int|
                0 <= s < self.max_instances() && (#[trigger] self.begin_index()[s]) is Some
                    ==> self.ranges().contains_key(self.begin_index()[s]->Some_0)
                    && self.ranges()[self.begin_index()[s]->Some_0].0 == s,
            forall|s: int|
                0 <= s < self.max_instances() && (#[trigger] self.end_index()[s]) is Some
                    ==> self.ranges().contains_key(self.end_index()[s]->Some_0)
                    && self.ranges()[self.end_index()[s]->Some_0].1 == s,
    {
    }

    /// The queue holds exactly the keys of the dirty ranges.
    pub proof fn lemma_queue_keys(&self)
        requires
            self.wf(),
        ensures
            self.priorities().dom() == self.ranges().dom(),
    {
    }

    /// `allocate` has a slot to hand out exactly when the pool holds a slot,
    /// clean or dirty; the set of held slots is finite.
    pub proof fn lemma_has_slot(&self)
        requires
            self.wf(),
        ensures
            self.held().finite(),
            self.has_slot() <==> self.held().len() > 0,
    {
        self.lemma_partition();
        lemma_below(self.max_instances());
        vstd::set_lib::lemma_len_subset(self.held(), below(self.max_instances()));
        if self.clean().len() > 0 {
            assert(self.held().contains(self.clean()[0]));
        } else if !self.ranges().is_empty() {
            let k = choose|k: usize| self.ranges().contains_key(k);
            assert(self.dirty().contains(self.ranges()[k].0));
            assert(self.held().contains(self.ranges()[k].0));
        }
        if self.held().len() > 0 {
            let s = self.held().choose();
            assert(self.held().contains(s));
            if self.clean().to_set().contains(s) {
                let i = choose|i: int| 0 <= i < self.clean().len() && self.clean()[i] == s;
            } else {
                let k = choose|k: usize| #[trigger]
                    self.ranges().contains_key(k) && in_range(self.ranges()[k], s as int);
                assert(self.ranges().dom().contains(k));
            }
        }
    }

    /// Once every slot is back in the pool, `max_instances` allocations in a
    /// row all find a slot: in a run of pools, each the outcome of an
    /// allocation from the one before, the first of which holds all slots,
    /// each of the first `max_instances` pools has a slot to hand out.
    pub proof fn lemma_round_trip(pools: Seq<LazyPool>, slots: Seq<usize>)
        requires
            pools.len() > 0,
            pools[0].wf(),
            pools[0].live().is_empty(),
            slots.len() + 1 >= pools.len(),
            forall|j: int|
                0 <= j < pools.len() - 1 ==> {
                    &&& (#[trigger] pools[j + 1]).wf()
                    &&& pools[j + 1].same_bank(&pools[j])
                    &&& pools[j].held().contains(slots[j])
                    &&& pools[j + 1].held() == pools[j].held().remove(slots[j])
                },
        ensures
            forall|j: int|
                0 <= j < pools.len() && j < pools[0].max_instances() ==> (#[trigger] pools[j]).has_slot(),
    {
        let n = pools[0].max_instances();
        pools[0].lemma_partition();
        lemma_below(n);
        assert(pools[0].held() =~= below(n)) by {
            assert forall|s: usize| below(n).contains(s) implies pools[0].held().contains(s) by {
                assert(!pools[0].live().contains(s));
            }
        }
        assert forall|j: int|
            0 <= j < pools.len() && j < n implies (#[trigger] pools[j]).has_slot() by {
            Self::lemma_run_len(pools, slots, j);
            pools[j].lemma_has_slot();
        }
    }

    /// Along a run of allocations, each pool holds one slot fewer than the
    /// one before.
    proof fn lemma_run_len(pools: Seq<LazyPool>, slots: Seq<usize>, j: int)
        requires
            0 <= j < pools.len(),
            pools[0].wf(),
            pools[0].held().finite(),
            forall|k: int|
                0 <= k < pools.len() - 1 ==> {
                    &&& (#[trigger] pools[k + 1]).wf()
                    &&& pools[k + 1].same_bank(&pools[k])
                    &&& pools[k].held().contains(slots[k])
                    &&& pools[k + 1].held() == pools[k].held().remove(slots[k])
                },
        ensures
            pools[j].wf(),
            pools[j].max_instances() == pools[0].max_instances(),
            pools[j].held().finite(),
            pools[j].held().len() + j == pools[0].held().len(),
        decreases j,
    {
        if j > 0 {
            Self::lemma_run_len(pools, slots, j - 1);
            assert(pools[j - 1 + 1].wf());
        }
    }
}

/// The slots below `n` are finite and `n` in number.
pub proof fn lemma_below(n: nat)
    requires
        n <= usize::MAX,
    ensures
        below(n).finite(),
        below(n).len() == n,
    decreases n,
{
    if n == 0 {
        assert(below(0) =~= Set::empty());
    } else {
        lemma_below((n - 1) as nat);
        assert(below(n) =~= below((n - 1) as nat).insert((n - 1) as usize));
        assert(!below((n - 1) as nat).contains((n - 1) as usize));
    }
}

} // verus!
