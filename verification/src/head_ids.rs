//! The short list of identities that a container keeps as its head. It is
//! held in a `SmallVec` of the crate `smallvec`, which keeps up to two
//! identities in place; what this module states of it is taken on trust
//! from that crate.

use smallvec::SmallVec;
use vstd::prelude::*;

verus! {

/// A head: a `SmallVec` of identities, each as its peer and its counter.
#[verifier::external_body]
pub struct HeadIds {
    items: SmallVec<[(u64, i32); 2]>,
}

/// The identities a head holds, in the order in which they were pushed.
pub uninterp spec fn head_ids(v: HeadIds) -> Seq<(u64, i32)>;

/// `SmallVec::new`: a list that holds nothing.
#[verifier::external_body]
pub(crate) fn head_new() -> (fresh: HeadIds)
    ensures
        head_ids(fresh) =~= Seq::empty(),
{
    HeadIds { items: SmallVec::new() }
}

/// `SmallVec::push`: the item is added at the end.
#[verifier::external_body]
pub(crate) fn head_push(v: &mut HeadIds, id: (u64, i32))
    requires
        head_ids(*old(v)).len() < 0x7fff_ffff,
    ensures
        head_ids(*final(v)) == head_ids(*old(v)).push(id),
{
    v.items.push(id);
}

/// `SmallVec::to_vec`: the items, in order.
#[verifier::external_body]
pub(crate) fn head_to_vec(v: &HeadIds) -> (items: Vec<(u64, i32)>)
    ensures
        items@ == head_ids(*v),
{
    v.items.to_vec()
}

} // verus!
