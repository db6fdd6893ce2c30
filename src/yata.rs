//! YATA, the algorithm of Yjs: one forward pass between the two origins,
//! with a set of conflicting operations.
use crate::crdt::{GetOp, ListCrdt, OpSet};
use crate::dumb_common::{
    has_id, id_less, id_order, index_of, lemma_index_after_insert, lemma_index_of_present,
    lemma_insert_unique, lemma_scan_in_range, ref_present, same_id,
    scan_start, scan_stop, unique_ids, Cursor, Op, OpId, OpSetImpl,
};
use std::cmp::Ordering;
use vstd::prelude::*;

verus! {

/// What YATA needs of a sequence besides the scan, which it makes with both
/// origins excluded.
pub trait Yata: ListCrdt {
    /// Puts `op` right after the position of `anchor`.
    fn insert_after(&mut self, anchor: Cursor, op: Op)
        requires
            anchor.pos < old(self).ops().len(),
        ensures
            final(self).ops() == old(self).ops().insert(anchor.pos + 1, op),
    ;

    /// Puts `op` right after the operation `id`, or first when `id` is `None`.
    fn insert_after_id(&mut self, id: Option<OpId>, op: Op)
        requires
            unique_ids(old(self).ops()),
            ref_present(old(self).ops(), id),
        ensures
            final(self).ops() == old(self).ops().insert(after_id(old(self).ops(), id), op),
    ;
}

/// The position right after `id`, or 0 when `id` is `None`.
pub open spec fn after_id(s: Seq<Op>, id: Option<OpId>) -> int {
    match id {
        Some(x) => index_of(s, x) + 1,
        None => 0,
    }
}

/// The state of a YATA scan: the anchor found so far (-1 for none), the
/// identities visited, those in conflict, and whether the scan has stopped.
pub struct YataScan {
    pub anchor: int,
    pub visited: Set<OpId>,
    pub conflicting: Set<OpId>,
    pub done: bool,
}

/// One step of the scan, at position `i`.
pub open spec fn yata_step(s: Seq<Op>, op: Op, i: int, st: YataScan) -> YataScan {
    let other = s[i];
    let visited = st.visited.insert(other.id);
    let conflicting = st.conflicting.insert(other.id);
    if other.left == op.left {
        if id_order(op.id, other.id) == Ordering::Greater {
            YataScan { anchor: i, visited, conflicting: Set::empty(), done: false }
        } else {
            YataScan { anchor: st.anchor, visited, conflicting, done: other.right == op.right }
        }
    } else if other.left is Some && visited.contains(other.left.unwrap()) {
        if !conflicting.contains(other.left.unwrap()) {
            YataScan { anchor: i, visited, conflicting: Set::empty(), done: false }
        } else {
            YataScan { anchor: st.anchor, visited, conflicting, done: false }
        }
    } else {
        YataScan { anchor: st.anchor, visited, conflicting, done: true }
    }
}

/// The scan over positions `i..hi` from state `st`.
pub open spec fn yata_scan(s: Seq<Op>, op: Op, i: int, hi: int, st: YataScan) -> YataScan
    decreases hi - i,
{
    if i >= hi || st.done {
        st
    } else {
        yata_scan(s, op, i + 1, hi, yata_step(s, op, i, st))
    }
}

/// The state a YATA scan starts from: no anchor, nothing visited.
pub open spec fn yata_start() -> YataScan {
    YataScan { anchor: -1, visited: Set::empty(), conflicting: Set::empty(), done: false }
}

/// Where YATA puts `op`: right after the anchor that the scan between its
/// origins finds, else right after its left origin.
pub open spec fn yata_index(s: Seq<Op>, op: Op) -> int {
    let lo = scan_start(s, op.left, true);
    let hi = scan_stop(s, op.right, true);
    let st = yata_scan(s, op, lo, hi, yata_start());
    if st.anchor >= 0 {
        st.anchor + 1
    } else {
        after_id(s, op.left)
    }
}

/// A scan that excludes its bounds never yields either of them: the
/// operations it visits lie strictly between the two origins.
pub proof fn lemma_scan_excludes_origins(
    s: Seq<Op>,
    left: Option<OpId>,
    right: Option<OpId>,
    i: int,
)
    requires
        unique_ids(s),
        scan_start(s, left, true) <= i < scan_stop(s, right, true),
        0 <= i < s.len(),
    ensures
        Some(s[i].id) != left,
        Some(s[i].id) != right,
{
    if left is Some && has_id(s, left.unwrap()) {
        lemma_index_of_present(s, left.unwrap());
    }
    if right is Some && has_id(s, right.unwrap()) {
        lemma_index_of_present(s, right.unwrap());
    }
}

proof fn lemma_scan_stops(s: Seq<Op>, op: Op, i: int, hi: int, st: YataScan)
    requires
        i < hi,
        !st.done,
        yata_step(s, op, i, st).done,
    ensures
        yata_scan(s, op, i, hi, st) == yata_step(s, op, i, st),
        yata_step(s, op, i, st).anchor == st.anchor,
{
    assert(yata_scan(s, op, i + 1, hi, yata_step(s, op, i, st)) == yata_step(s, op, i, st));
}

/// Two operations made concurrently between the same two adjacent
/// operations (nothing lies between their origins) commute under YATA:
/// integrating them in either order gives the same sequence, with the
/// smaller identity first.
pub proof fn lemma_yata_adjacent_commute(s: Seq<Op>, a: Op, b: Op)
    requires
        unique_ids(s),
        !has_id(s, a.id),
        !has_id(s, b.id),
        id_less(a.id, b.id),
        a.left == b.left,
        a.right == b.right,
        ref_present(s, a.left),
        ref_present(s, a.right),
        scan_start(s, a.left, true) == scan_stop(s, a.right, true),
    ensures
        ({
            let p = after_id(s, a.left);
            let ab = s.insert(yata_index(s, a), a);
            let ba = s.insert(yata_index(s, b), b);
            &&& ab.insert(yata_index(ab, b), b) == s.insert(p, a).insert(p + 1, b)
            &&& ba.insert(yata_index(ba, a), a) == s.insert(p, a).insert(p + 1, b)
        }),
{
    let p = after_id(s, a.left);
    lemma_scan_in_range(s, a.left, a.right, true);
    if a.left is Some {
        lemma_index_of_present(s, a.left.unwrap());
    }
    assert(scan_start(s, a.left, true) == p);
    assert(yata_index(s, a) == p);
    assert(yata_index(s, b) == p);
    // a first, then b
    let ab = s.insert(p, a);
    assert(ab[p] == a);
    lemma_insert_unique(s, p, a);
    if a.left is Some {
        lemma_index_after_insert(s, p, a, a.left.unwrap());
    }
    if a.right is Some {
        lemma_index_after_insert(s, p, a, a.right.unwrap());
    }
    assert(scan_start(ab, b.left, true) == p);
    assert(scan_stop(ab, b.right, true) == p + 1);
    let st = yata_step(ab, b, p, yata_start());
    assert(st.anchor == p);
    assert(yata_scan(ab, b, p + 1, p + 1, st) == st);
    assert(yata_index(ab, b) == p + 1);
    // b first, then a
    let ba = s.insert(p, b);
    assert(ba[p] == b);
    lemma_insert_unique(s, p, b);
    if a.left is Some {
        lemma_index_after_insert(s, p, b, a.left.unwrap());
    }
    if a.right is Some {
        lemma_index_after_insert(s, p, b, a.right.unwrap());
    }
    assert(scan_start(ba, a.left, true) == p);
    assert(scan_stop(ba, a.right, true) == p + 1);
    let st2 = yata_step(ba, a, p, yata_start());
    assert(st2.done && st2.anchor == -1);
    assert(yata_scan(ba, a, p + 1, p + 1, st2) == st2);
    assert(yata_scan(ba, a, p, p + 1, yata_start()) == st2);
    assert(after_id(ba, a.left) == p);
    assert(yata_index(ba, a) == p);
    assert(ba.insert(p, a) =~= s.insert(p, a).insert(p + 1, b));
}

/// The position of an anchor, -1 for none.
pub open spec fn anchor_pos(c: Option<Cursor>) -> int {
    match c {
        Some(c) => c.pos as int,
        None => -1,
    }
}

/// Integrates `to_insert` by YATA's rule.
pub fn integrate<T: Yata>(container: &mut T, to_insert: Op)
    requires
        unique_ids(old(container).ops()),
        ref_present(old(container).ops(), to_insert.left),
    ensures
        final(container).ops() == old(container).ops().insert(
            yata_index(old(container).ops(), to_insert),
            to_insert,
        ),
        0 <= yata_index(old(container).ops(), to_insert) <= old(container).ops().len(),
        ({
            let s = old(container).ops();
            let lo = scan_start(s, to_insert.left, true);
            let hi = scan_stop(s, to_insert.right, true);
            lo <= hi ==> lo <= yata_index(s, to_insert) <= hi
        }),
{
    let ghost s = container.ops();
    let this_left_origin = to_insert.left;
    let this_right_origin = to_insert.right;
    let mut cursor: Option<Cursor> = None;
    let mut visited = OpSetImpl::new();
    let mut conflicting_set = OpSetImpl::new();
    proof {
        lemma_scan_in_range(s, this_left_origin, this_right_origin, true);
    }
    let mut it = container.iter(this_left_origin, this_right_origin, true);
    let ghost lo = it.index as int;
    let ghost hi = it.stop as int;
    loop
        invariant_except_break
            yata_scan(
                s,
                to_insert,
                it.index as int,
                hi,
                YataScan {
                    anchor: anchor_pos(cursor),
                    visited: visited.members(),
                    conflicting: conflicting_set.members(),
                    done: false,
                },
            ) == yata_scan(s, to_insert, lo, hi, yata_start()),
        invariant
            container.ops() == s,
            s == old(container).ops(),
            unique_ids(s),
            this_left_origin == to_insert.left,
            this_right_origin == to_insert.right,
            it.stop == hi,
            0 <= lo <= it.index <= s.len(),
            hi <= s.len(),
            lo == scan_start(s, this_left_origin, true),
            hi == scan_stop(s, this_right_origin, true),
            cursor is Some ==> lo <= cursor.unwrap().pos < it.index,
            lo <= hi ==> it.index <= hi,
        ensures
            anchor_pos(cursor) == yata_scan(s, to_insert, lo, hi, yata_start()).anchor,
        decreases s.len() - it.index,
    {
        let ghost i = it.index as int;
        let ghost st = YataScan {
            anchor: anchor_pos(cursor),
            visited: visited.members(),
            conflicting: conflicting_set.members(),
            done: false,
        };
        match container.next(&mut it) {
            None => {
                break ;
            },
            Some(other_cursor) => {
                let other = other_cursor.get_op();
                proof {
                    lemma_scan_excludes_origins(s, this_left_origin, this_right_origin, i);
                    assert(Some(other.id) != this_left_origin && Some(other.id) != this_right_origin);
                }
                visited.insert(&other);
                conflicting_set.insert(&other);
                let other_left_origin = other.left;
                if same_id(other_left_origin, this_left_origin) {
                    match T::cmp_id(&to_insert, &other) {
                        Ordering::Greater => {
                            cursor = Some(other_cursor);
                            conflicting_set.clear();
                        },
                        _ => {
                            if same_id(other.right, this_right_origin) {
                                proof {
                                    lemma_scan_stops(s, to_insert, i, hi, st);
                                }
                                break ;
                            }
                        },
                    }
                } else if other_left_origin.is_some() && visited.contain(
                    other_left_origin.unwrap(),
                ) {
                    if !conflicting_set.contain(other_left_origin.unwrap()) {
                        cursor = Some(other_cursor);
                        conflicting_set.clear();
                    }
                } else {
                    proof {
                        lemma_scan_stops(s, to_insert, i, hi, st);
                    }
                    break ;
                }
                assert(yata_step(s, to_insert, i, st) == YataScan {
                    anchor: anchor_pos(cursor),
                    visited: visited.members(),
                    conflicting: conflicting_set.members(),
                    done: false,
                });
            },
        }
    }
    match cursor {
        Some(anchor) => {
            container.insert_after(anchor, to_insert);
        },
        None => {
            proof {
                if this_left_origin is Some {
                    lemma_index_of_present(s, this_left_origin.unwrap());
                }
            }
            container.insert_after_id(this_left_origin, to_insert);
        },
    }
}

} // verus!
