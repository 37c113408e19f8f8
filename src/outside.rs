//! The outside collections that the pool is built on: `slab::Slab` for the
//! dirty ranges and `priority_queue::PriorityQueue` for their size order.
//! Each is declared here, its contents are given a name, and each method that
//! the pool calls gets a wrapper whose contract speaks of that name.
use priority_queue::PriorityQueue;
use slab::Slab;
use vstd::prelude::*;

verus! {

#[verifier::external_type_specification]
#[verifier::external_body]
#[verifier::reject_recursive_types(T)]
pub struct ExSlab<T>(Slab<T>);

#[verifier::external_type_specification]
#[verifier::external_body]
#[verifier::reject_recursive_types(I)]
#[verifier::reject_recursive_types(P)]
#[verifier::reject_recursive_types(H)]
pub struct ExPriorityQueue<I, P, H>(PriorityQueue<I, P, H>);

/// The occupied entries of a slab of ranges: key to `(begin, end)`.
pub uninterp spec fn slab_entries(s: Slab<(usize, usize)>) -> Map<usize, (usize, usize)>;

/// The contents of a priority queue of range keys: key to priority.
pub uninterp spec fn queue_entries(q: PriorityQueue<usize, usize>) -> Map<usize, usize>;

/// Relies on `Slab::with_capacity`: a new slab holds no entry.
#[verifier::external_body]
pub(crate) fn slab_with_capacity(capacity: usize) -> (r: Slab<(usize, usize)>)
    ensures
        slab_entries(r).dom().is_empty(),
{
    Slab::with_capacity(capacity)
}

/// Relies on `Slab::insert`: the value is stored under a key that was vacant,
/// and that key is returned.
#[verifier::external_body]
pub(crate) fn slab_insert(s: &mut Slab<(usize, usize)>, val: (usize, usize)) -> (key: usize)
    ensures
        !slab_entries(*old(s)).contains_key(key),
        slab_entries(*final(s)) == slab_entries(*old(s)).insert(key, val),
{
    s.insert(val)
}

/// Relies on `Slab::remove`: the entry under an occupied key is taken out and
/// returned (the call panics on a vacant key).
#[verifier::external_body]
pub(crate) fn slab_remove(s: &mut Slab<(usize, usize)>, key: usize) -> (r: (usize, usize))
    requires
        slab_entries(*old(s)).contains_key(key),
    ensures
        r == slab_entries(*old(s))[key],
        slab_entries(*final(s)) == slab_entries(*old(s)).remove(key),
{
    s.remove(key)
}

/// Relies on `Index for Slab`: reads the entry under an occupied key (the
/// call panics on a vacant key).
#[verifier::external_body]
pub(crate) fn slab_get(s: &Slab<(usize, usize)>, key: usize) -> (r: (usize, usize))
    requires
        slab_entries(*s).contains_key(key),
    ensures
        r == slab_entries(*s)[key],
{
    s[key]
}

/// Relies on `IndexMut for Slab`: overwrites the entry under an occupied key
/// (the call panics on a vacant key).
#[verifier::external_body]
pub(crate) fn slab_set(s: &mut Slab<(usize, usize)>, key: usize, val: (usize, usize))
    requires
        slab_entries(*old(s)).contains_key(key),
    ensures
        slab_entries(*final(s)) == slab_entries(*old(s)).insert(key, val),
{
    s[key] = val;
}

/// Relies on `PriorityQueue::new`: a new queue is empty.
#[verifier::external_body]
pub(crate) fn queue_new() -> (r: PriorityQueue<usize, usize>)
    ensures
        queue_entries(r).dom().is_empty(),
{
    PriorityQueue::new()
}

/// Relies on `PriorityQueue::is_empty`: true iff the queue holds no item.
#[verifier::external_body]
pub(crate) fn queue_is_empty(q: &PriorityQueue<usize, usize>) -> (r: bool)
    ensures
        r == (queue_entries(*q).dom().is_empty()),
{
    q.is_empty()
}

/// Relies on `PriorityQueue::push`: the item is inserted with the priority,
/// or its priority is replaced; the old priority is returned.
#[verifier::external_body]
pub(crate) fn queue_push(q: &mut PriorityQueue<usize, usize>, item: usize, priority: usize) -> (r:
    Option<usize>)
    ensures
        queue_entries(*final(q)) == queue_entries(*old(q)).insert(item, priority),
        r == (if queue_entries(*old(q)).contains_key(item) {
            Some(queue_entries(*old(q))[item])
        } else {
            None
        }),
{
    q.push(item, priority)
}

/// Relies on `PriorityQueue::pop`: takes out an item of greatest priority,
/// with its priority, or gives `None` on an empty queue. Which of several
/// items of equal priority leaves is not said.
#[verifier::external_body]
pub(crate) fn queue_pop(q: &mut PriorityQueue<usize, usize>) -> (r: Option<(usize, usize)>)
    ensures
        queue_entries(*old(q)).dom().is_empty() ==> r is None && queue_entries(
            *final(q),
        ) == queue_entries(*old(q)),
        queue_entries(*old(q)).dom().is_empty() == false ==> r is Some,
        r matches Some((item, priority)) ==> {
            &&& queue_entries(*old(q)).contains_key(item)
            &&& queue_entries(*old(q))[item] == priority
            &&& forall|j: usize| #[trigger]
                queue_entries(*old(q)).contains_key(j) ==> queue_entries(*old(q))[j] <= priority
            &&& queue_entries(*final(q)) == queue_entries(*old(q)).remove(item)
        },
{
    q.pop()
}

/// Relies on `PriorityQueue::change_priority`: replaces the priority of an
/// item that is present and returns the old one; leaves the queue as it is
/// and gives `None` otherwise.
#[verifier::external_body]
pub(crate) fn queue_change_priority(
    q: &mut PriorityQueue<usize, usize>,
    item: usize,
    priority: usize,
) -> (r: Option<usize>)
    ensures
        queue_entries(*old(q)).contains_key(item) ==> queue_entries(*final(q)) == queue_entries(
            *old(q),
        ).insert(item, priority) && r == Some(queue_entries(*old(q))[item]),
        !queue_entries(*old(q)).contains_key(item) ==> queue_entries(*final(q)) == queue_entries(
            *old(q),
        ) && r is None,
{
    q.change_priority(&item, priority)
}

/// Relies on `PriorityQueue::remove`: takes out an item that is present,
/// with its priority; leaves the queue as it is and gives `None` otherwise.
#[verifier::external_body]
pub(crate) fn queue_remove(q: &mut PriorityQueue<usize, usize>, item: usize) -> (r: Option<
    (usize, usize),
>)
    ensures
        queue_entries(*old(q)).contains_key(item) ==> queue_entries(*final(q)) == queue_entries(
            *old(q),
        ).remove(item) && r == Some((item, queue_entries(*old(q))[item])),
        !queue_entries(*old(q)).contains_key(item) ==> queue_entries(*final(q)) == queue_entries(
            *old(q),
        ) && r is None,
{
    q.remove(&item)
}

} // verus!
