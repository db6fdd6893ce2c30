//! The capability set that every list storage exposes to the algorithms.
use crate::dumb_common::{
    id_order, scan_start, scan_stop, unique_ids, Cursor, Iter, Op, OpId,
};
use std::cmp::Ordering;
use vstd::prelude::*;

verus! {

/// A set of operation identities, scoped to one integration call.
pub trait OpSet: Sized {
    /// The identities held.
    spec fn members(&self) -> Set<OpId>;

    fn new() -> (s: Self)
        ensures
            s.members() == Set::<OpId>::empty(),
    ;

    fn insert(&mut self, value: &Op)
        ensures
            final(self).members() == old(self).members().insert(value.id),
    ;

    fn contain(&self, id: OpId) -> (r: bool)
        ensures
            r == self.members().contains(id),
    ;

    fn clear(&mut self)
        ensures
            final(self).members() == Set::<OpId>::empty(),
    ;
}

/// Something that designates an operation of a sequence.
pub trait GetOp {
    /// The operation designated.
    spec fn target(&self) -> Op;

    fn get_op(&self) -> (r: Op)
        ensures
            r == self.target(),
    ;
}

/// An ordered sequence of operations, scanned between two identities.
pub trait ListCrdt {
    /// The operations in storage order.
    spec fn ops(&self) -> Seq<Op>;

    fn len(&self) -> (r: usize)
        ensures
            r == self.ops().len(),
    ;

    /// A scan from `from` to `to` (`None`: the start, the end of the
    /// sequence); the two bounds are part of the scan unless `exclude_bounds`.
    fn iter(&self, from: Option<OpId>, to: Option<OpId>, exclude_bounds: bool) -> (it: Iter)
        requires
            unique_ids(self.ops()),
        ensures
            it.index == scan_start(self.ops(), from, exclude_bounds),
            it.stop == scan_stop(self.ops(), to, exclude_bounds),
    ;

    /// The next position of a scan, if any is left.
    fn next(&self, it: &mut Iter) -> (r: Option<Cursor>)
        requires
            old(it).stop <= self.ops().len(),
        ensures
            old(it).index < old(it).stop ==> r == Some(
                Cursor { pos: old(it).index, op: self.ops()[old(it).index as int] },
            ) && final(it).index == old(it).index + 1 && final(it).stop == old(it).stop,
            old(it).index >= old(it).stop ==> r is None && *final(it) == *old(it),
    ;

    /// The total order of identities: by client, then by clock.
    fn cmp_id(op_a: &Op, op_b: &Op) -> (r: Ordering)
        ensures
            r == id_order(op_a.id, op_b.id),
    ;
}

} // verus!
