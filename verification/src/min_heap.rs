use vstd::prelude::*;
use vstd::multiset::Multiset;
use binary_heap_plus::{BinaryHeap, MinComparator};

verus! {

#[verifier::external_type_specification]
#[verifier::external_body]
#[verifier::reject_recursive_types(T)]
#[verifier::reject_recursive_types(C)]
pub struct ExBinaryHeap<T, C>(BinaryHeap<T, C>);

#[verifier::external_type_specification]
#[verifier::external_body]
pub struct ExMinComparator(MinComparator);

/// What the position heap holds, as a multiset of positions.
pub uninterp spec fn heap_contents(h: &BinaryHeap<usize, MinComparator>) -> Multiset<usize>;

/// Relies on binary_heap_plus::BinaryHeap::new_min: an empty heap that
/// hands its smallest item out first.
#[verifier::external_body]
pub fn heap_new_min() -> (h: BinaryHeap<usize, MinComparator>)
    ensures
        heap_contents(&h) == Multiset::<usize>::empty(),
{
    BinaryHeap::new_min()
}

/// Relies on binary_heap_plus::BinaryHeap::push: the item joins the heap's
/// contents.
#[verifier::external_body]
pub fn heap_push(h: &mut BinaryHeap<usize, MinComparator>, v: usize)
    ensures
        heap_contents(final(h)) == heap_contents(old(h)).insert(v),
{
    h.push(v)
}

/// Relies on binary_heap_plus::BinaryHeap::pop with the minimum-first
/// comparator: the smallest item leaves the heap and is returned; an empty
/// heap yields nothing and stays as it is.
#[verifier::external_body]
pub fn heap_pop(h: &mut BinaryHeap<usize, MinComparator>) -> (r: Option<usize>)
    ensures
        heap_contents(old(h)).len() == 0 ==> r is None && heap_contents(final(h)) == heap_contents(
            old(h),
        ),
        heap_contents(old(h)).len() > 0 ==> (match r {
            Some(m) => heap_contents(old(h)).count(m) > 0 && heap_contents(final(h))
                == heap_contents(old(h)).remove(m) && (forall|x: usize|
                heap_contents(old(h)).count(x) > 0 ==> m <= x),
            None => false,
        }),
{
    h.pop()
}

/// Relies on binary_heap_plus::BinaryHeap::peek with the minimum-first
/// comparator: a copy of the smallest item, with the heap untouched.
#[verifier::external_body]
pub fn heap_peek(h: &BinaryHeap<usize, MinComparator>) -> (r: Option<usize>)
    ensures
        heap_contents(h).len() == 0 ==> r is None,
        heap_contents(h).len() > 0 ==> (match r {
            Some(m) => heap_contents(h).count(m) > 0 && (forall|x: usize|
                heap_contents(h).count(x) > 0 ==> m <= x),
            None => false,
        }),
{
    h.peek().copied()
}

/// Relies on binary_heap_plus::BinaryHeap::len: how many items the heap
/// holds.
#[verifier::external_body]
pub fn heap_len(h: &BinaryHeap<usize, MinComparator>) -> (r: usize)
    ensures
        r == heap_contents(h).len(),
{
    h.len()
}

} // verus!
