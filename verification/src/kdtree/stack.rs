//! The stack of ranges of a k-d query: a `tinyvec::TinyVec` that keeps its first 33 entries
//! inline, as the query's stack rarely grows past them.
use vstd::prelude::*;

use tinyvec::TinyVec;

verus! {

/// A stack of ranges held in a `tinyvec::TinyVec`, which starts inline (33 entries) and moves to
/// the heap when full.
#[verifier::external_body]
pub struct RangeStack {
    items: TinyVec<[usize; 33]>,
}

/// The entries of a stack of ranges, bottom first.
pub uninterp spec fn stack_items(s: RangeStack) -> Seq<usize>;

/// `TinyVec::new`: an empty vector.
#[verifier::external_body]
pub(crate) fn stack_new() -> (r: RangeStack)
    ensures
        stack_items(r) == Seq::<usize>::empty(),
{
    RangeStack { items: TinyVec::new() }
}

/// `TinyVec::push`: the value goes on the end (inline while there is room, else on the heap;
/// it fails only where `Vec::push` would, when memory runs out).
#[verifier::external_body]
pub(crate) fn stack_push(s: &mut RangeStack, v: usize)
    ensures
        stack_items(*final(s)) == stack_items(*old(s)).push(v),
{
    s.items.push(v)
}

/// `TinyVec::pop`: takes the last value off, `None` when the vector is empty.
#[verifier::external_body]
pub(crate) fn stack_pop(s: &mut RangeStack) -> (r: Option<usize>)
    ensures
        stack_items(*old(s)).len() == 0 ==> r is None && stack_items(*final(s)) == stack_items(*old(s)),
        stack_items(*old(s)).len() > 0 ==> r == Some(stack_items(*old(s)).last()) && stack_items(*final(s))
            == stack_items(*old(s)).drop_last(),
{
    s.items.pop()
}

/// `TinyVec::len`: the number of values.
#[verifier::external_body]
pub(crate) fn stack_len(s: &RangeStack) -> (r: usize)
    ensures
        r == stack_items(*s).len(),
{
    s.items.len()
}

} // verus!
