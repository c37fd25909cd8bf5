//! The priority queue behind the network evaluator's best-first search: a
//! monotone max-heap from the `radix_heap` crate. The search stores each
//! queued rider state under the key `u64::MAX - score`, so that popping the
//! greatest key hands back a state with the least score.
//!
//! The heap is an outside collection, so its behaviour is stated here as
//! trusted contracts over two names: `heap_entries`, the multiset of
//! key-value pairs it holds, and `heap_top`, the bound that future keys must
//! not exceed (the key of the last popped entry, or none before the first
//! pop).

use crate::evaluate::QueueNode;
use vstd::multiset::Multiset;
use vstd::prelude::*;

verus! {

#[verifier::external_type_specification]
#[verifier::external_body]
#[verifier::reject_recursive_types(K)]
#[verifier::reject_recursive_types(V)]
pub struct ExRadixHeapMap<K, V>(radix_heap::RadixHeapMap<K, V>);

/// The key-value pairs the heap currently holds, with multiplicity.
pub uninterp spec fn heap_entries(h: radix_heap::RadixHeapMap<u64, QueueNode>) -> Multiset<
    (u64, QueueNode),
>;

/// The heap's current top key: every key pushed from now on must be at most
/// this. It is the key of the last popped entry; a fresh heap has none.
pub uninterp spec fn heap_top(h: radix_heap::RadixHeapMap<u64, QueueNode>) -> Option<u64>;

/// Relies on `radix_heap::RadixHeapMap::new`: a fresh heap is empty and has
/// no top key set.
#[verifier::external_body]
pub fn heap_new() -> (h: radix_heap::RadixHeapMap<u64, QueueNode>)
    ensures
        heap_entries(h) == Multiset::<(u64, QueueNode)>::empty(),
        heap_top(h) is None,
{
    radix_heap::RadixHeapMap::new()
}

/// Relies on `radix_heap::RadixHeapMap::push`: it adds one entry and keeps
/// the top key; it panics when the key is above the current top key, so that
/// case is excluded here.
#[verifier::external_body]
pub fn heap_push(h: &mut radix_heap::RadixHeapMap<u64, QueueNode>, key: u64, value: QueueNode)
    requires
        heap_top(*old(h)) matches Some(t) ==> key <= t,
    ensures
        heap_entries(*final(h)) == heap_entries(*old(h)).insert((key, value)),
        heap_top(*final(h)) == heap_top(*old(h)),
{
    h.push(key, value)
}

/// Relies on `radix_heap::RadixHeapMap::pop`: it removes and returns an entry
/// with the greatest key, or returns nothing from an empty heap; the popped
/// key becomes the new top key.
#[verifier::external_body]
pub fn heap_pop(h: &mut radix_heap::RadixHeapMap<u64, QueueNode>) -> (r: Option<(u64, QueueNode)>)
    ensures
        match r {
            Some(e) => {
                &&& heap_entries(*old(h)).count(e) > 0
                &&& heap_entries(*final(h)) == heap_entries(*old(h)).remove(e)
                &&& heap_top(*final(h)) == Some(e.0)
                &&& forall|e2: (u64, QueueNode)|
                    heap_entries(*old(h)).count(e2) > 0 ==> e2.0 <= e.0
            },
            None => {
                &&& heap_entries(*old(h)) == Multiset::<(u64, QueueNode)>::empty()
                &&& heap_entries(*final(h)) == heap_entries(*old(h))
                &&& heap_top(*final(h)) == heap_top(*old(h))
            },
        },
{
    h.pop()
}

} // verus!
