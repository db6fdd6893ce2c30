//! Fugue: YATA's scan, with concurrent runs kept apart by comparing right
//! parents, so that runs typed at one place do not interleave.
use crate::crdt::{GetOp, OpSet};
use crate::dumb_common::{
    has_id, id_less, id_order, index_of, lemma_index_after_insert, lemma_index_of_present,
    lemma_insert_unique, lemma_scan_in_range, ref_present,
    refers_within, same_id, scan_start, scan_stop, unique_ids, Cursor, Op, OpId, OpSetImpl,
};
use crate::yata::{after_id, anchor_pos, lemma_scan_excludes_origins, Yata};
use std::cmp::Ordering;
use vstd::prelude::*;

verus! {

/// What Fugue needs of a sequence besides YATA's capabilities.
pub trait Fugue: Yata {
    /// The left origin of the operation `op_id`.
    fn left_origin_of_id(&self, op_id: OpId) -> (r: Option<OpId>)
        requires
            unique_ids(self.ops()),
            has_id(self.ops(), op_id),
        ensures
            r == self.ops()[index_of(self.ops(), op_id)].left,
    ;

    /// Compares two optional identities by storage position; an absent one
    /// sorts after every present one.
    fn cmp_pos(&self, op_a: Option<OpId>, op_b: Option<OpId>) -> (r: Ordering)
        requires
            unique_ids(self.ops()),
            ref_present(self.ops(), op_a),
            ref_present(self.ops(), op_b),
        ensures
            r == pos_order(self.ops(), op_a, op_b),
    ;
}

/// Storage order of two optional identities; an absent one sorts last.
pub open spec fn pos_order(s: Seq<Op>, a: Option<OpId>, b: Option<OpId>) -> Ordering {
    match (a, b) {
        (None, None) => Ordering::Equal,
        (None, Some(_)) => Ordering::Greater,
        (Some(_), None) => Ordering::Less,
        (Some(x), Some(y)) => if x == y {
            Ordering::Equal
        } else if index_of(s, x) < index_of(s, y) {
            Ordering::Less
        } else {
            Ordering::Greater
        },
    }
}

/// The right parent: the right origin `r`, when its own left origin is `left`.
pub open spec fn right_parent(s: Seq<Op>, r: Option<OpId>, left: Option<OpId>) -> Option<OpId> {
    match r {
        Some(x) => if s[index_of(s, x)].left == left {
            Some(x)
        } else {
            None
        },
        None => None,
    }
}

/// The state of a Fugue scan: the anchor found so far (-1 for none), the
/// identities visited, whether the scan is skipping, and whether it has stopped.
pub struct FugueScan {
    pub anchor: int,
    pub visited: Set<OpId>,
    pub scanning: bool,
    pub done: bool,
}

/// One step of the scan, at position `i`; `rp` is the right parent of `op`.
pub open spec fn fugue_step(s: Seq<Op>, op: Op, rp: Option<OpId>, i: int, st: FugueScan) -> FugueScan {
    let other = s[i];
    let ol = other.left;
    let unknown = match ol {
        Some(x) => !st.visited.contains(x),
        None => true,
    };
    if unknown && ol != op.left {
        FugueScan { anchor: st.anchor, visited: st.visited, scanning: st.scanning, done: true }
    } else {
        let visited = st.visited.insert(other.id);
        if ol == op.left {
            let c = pos_order(s, right_parent(s, other.right, op.left), rp);
            if c == Ordering::Less {
                FugueScan { anchor: st.anchor, visited, scanning: true, done: false }
            } else if c == Ordering::Equal && id_order(other.id, op.id) == Ordering::Greater {
                FugueScan { anchor: st.anchor, visited, scanning: st.scanning, done: true }
            } else {
                FugueScan { anchor: i, visited, scanning: false, done: false }
            }
        } else {
            FugueScan {
                anchor: if st.scanning {
                    st.anchor
                } else {
                    i
                },
                visited,
                scanning: st.scanning,
                done: false,
            }
        }
    }
}

/// The scan over positions `i..hi` from state `st`.
pub open spec fn fugue_scan(s: Seq<Op>, op: Op, rp: Option<OpId>, i: int, hi: int, st: FugueScan) -> FugueScan
    decreases hi - i,
{
    if i >= hi || st.done {
        st
    } else {
        fugue_scan(s, op, rp, i + 1, hi, fugue_step(s, op, rp, i, st))
    }
}

/// The state a Fugue scan starts from: no anchor, nothing visited.
pub open spec fn fugue_start() -> FugueScan {
    FugueScan { anchor: -1, visited: Set::empty(), scanning: false, done: false }
}

/// Where Fugue puts `op`: right after the anchor that the scan between its
/// origins finds, else right after its left origin.
pub open spec fn fugue_index(s: Seq<Op>, op: Op) -> int {
    let lo = scan_start(s, op.left, true);
    let hi = scan_stop(s, op.right, true);
    let rp = right_parent(s, op.right, op.left);
    let st = fugue_scan(s, op, rp, lo, hi, fugue_start());
    if st.anchor >= 0 {
        st.anchor + 1
    } else {
        after_id(s, op.left)
    }
}

proof fn lemma_scan_stops(s: Seq<Op>, op: Op, rp: Option<OpId>, i: int, hi: int, st: FugueScan)
    requires
        i < hi,
        !st.done,
        fugue_step(s, op, rp, i, st).done,
    ensures
        fugue_scan(s, op, rp, i, hi, st) == fugue_step(s, op, rp, i, st),
        fugue_step(s, op, rp, i, st).anchor == st.anchor,
{
    assert(fugue_scan(s, op, rp, i + 1, hi, fugue_step(s, op, rp, i, st)) == fugue_step(
        s,
        op,
        rp,
        i,
        st,
    ));
}

/// Two operations made concurrently between the same two adjacent
/// operations (nothing lies between their origins) commute under Fugue:
/// integrating them in either order gives the same sequence, with the
/// smaller identity first.
pub proof fn lemma_fugue_adjacent_commute(s: Seq<Op>, a: Op, b: Op)
    requires
        unique_ids(s),
        !has_id(s, a.id),
        !has_id(s, b.id),
        id_less(a.id, b.id),
        a.left == b.left,
        a.right == b.right,
        ref_present(s, a.left),
        ref_present(s, a.right),
        scan_start(s, a.left, true) == scan_stop(s, a.right, true),
    ensures
        ({
            let p = after_id(s, a.left);
            let ab = s.insert(fugue_index(s, a), a);
            let ba = s.insert(fugue_index(s, b), b);
            &&& ab.insert(fugue_index(ab, b), b) == s.insert(p, a).insert(p + 1, b)
            &&& ba.insert(fugue_index(ba, a), a) == s.insert(p, a).insert(p + 1, b)
        }),
{
    let p = after_id(s, a.left);
    lemma_scan_in_range(s, a.left, a.right, true);
    if a.left is Some {
        lemma_index_of_present(s, a.left.unwrap());
    }
    assert(scan_start(s, a.left, true) == p);
    assert(fugue_index(s, a) == p);
    assert(fugue_index(s, b) == p);
    // a first, then b
    let ab = s.insert(p, a);
    assert(ab[p] == a);
    lemma_insert_unique(s, p, a);
    if a.left is Some {
        lemma_index_after_insert(s, p, a, a.left.unwrap());
    }
    if a.right is Some {
        lemma_index_after_insert(s, p, a, a.right.unwrap());
    }
    assert(scan_start(ab, b.left, true) == p);
    assert(scan_stop(ab, b.right, true) == p + 1);
    let rp = right_parent(ab, b.right, b.left);
    assert(pos_order(ab, right_parent(ab, a.right, b.left), rp) == Ordering::Equal);
    let st = fugue_step(ab, b, rp, p, fugue_start());
    assert(st.anchor == p);
    assert(fugue_scan(ab, b, rp, p + 1, p + 1, st) == st);
    assert(fugue_index(ab, b) == p + 1);
    // b first, then a
    let ba = s.insert(p, b);
    assert(ba[p] == b);
    lemma_insert_unique(s, p, b);
    if a.left is Some {
        lemma_index_after_insert(s, p, b, a.left.unwrap());
    }
    if a.right is Some {
        lemma_index_after_insert(s, p, b, a.right.unwrap());
    }
    assert(scan_start(ba, a.left, true) == p);
    assert(scan_stop(ba, a.right, true) == p + 1);
    let rp2 = right_parent(ba, a.right, a.left);
    assert(pos_order(ba, right_parent(ba, b.right, a.left), rp2) == Ordering::Equal);
    let st2 = fugue_step(ba, a, rp2, p, fugue_start());
    assert(st2.done && st2.anchor == -1);
    assert(fugue_scan(ba, a, rp2, p + 1, p + 1, st2) == st2);
    assert(fugue_scan(ba, a, rp2, p, p + 1, fugue_start()) == st2);
    assert(after_id(ba, a.left) == p);
    assert(fugue_index(ba, a) == p);
    assert(ba.insert(p, a) =~= s.insert(p, a).insert(p + 1, b));
}

/// The right parent of an operation whose right origin is `r`.
fn right_parent_of<T: Fugue>(container: &T, r: Option<OpId>, left: Option<OpId>) -> (res: Option<
    OpId,
>)
    requires
        unique_ids(container.ops()),
        ref_present(container.ops(), r),
    ensures
        res == right_parent(container.ops(), r, left),
        ref_present(container.ops(), res),
{
    match r {
        Some(x) => {
            if same_id(container.left_origin_of_id(x), left) {
                Some(x)
            } else {
                None
            }
        },
        None => None,
    }
}

/// Integrates `to_insert` by Fugue's rule.
pub fn integrate<T: Fugue>(container: &mut T, to_insert: Op)
    requires
        unique_ids(old(container).ops()),
        refers_within(old(container).ops()),
        ref_present(old(container).ops(), to_insert.left),
        ref_present(old(container).ops(), to_insert.right),
    ensures
        final(container).ops() == old(container).ops().insert(
            fugue_index(old(container).ops(), to_insert),
            to_insert,
        ),
        0 <= fugue_index(old(container).ops(), to_insert) <= old(container).ops().len(),
        ({
            let s = old(container).ops();
            let lo = scan_start(s, to_insert.left, true);
            let hi = scan_stop(s, to_insert.right, true);
            lo <= hi ==> lo <= fugue_index(s, to_insert) <= hi
        }),
{
    let ghost s = container.ops();
    let this_left_origin = to_insert.left;
    let this_right_origin = to_insert.right;
    let this_right_parent = right_parent_of(container, this_right_origin, this_left_origin);
    let mut cursor: Option<Cursor> = None;
    let mut visited = OpSetImpl::new();
    let mut scanning = false;
    proof {
        lemma_scan_in_range(s, this_left_origin, this_right_origin, true);
    }
    let mut it = container.iter(this_left_origin, this_right_origin, true);
    let ghost lo = it.index as int;
    let ghost hi = it.stop as int;
    loop
        invariant_except_break
            fugue_scan(
                s,
                to_insert,
                this_right_parent,
                it.index as int,
                hi,
                FugueScan {
                    anchor: anchor_pos(cursor),
                    visited: visited.members(),
                    scanning,
                    done: false,
                },
            ) == fugue_scan(s, to_insert, this_right_parent, lo, hi, fugue_start()),
        invariant
            container.ops() == s,
            s == old(container).ops(),
            unique_ids(s),
            refers_within(s),
            this_left_origin == to_insert.left,
            this_right_origin == to_insert.right,
            this_right_parent == right_parent(s, to_insert.right, to_insert.left),
            ref_present(s, this_right_parent),
            it.stop == hi,
            0 <= lo <= it.index <= s.len(),
            hi <= s.len(),
            lo == scan_start(s, this_left_origin, true),
            hi == scan_stop(s, this_right_origin, true),
            cursor is Some ==> lo <= cursor.unwrap().pos < it.index,
            lo <= hi ==> it.index <= hi,
        ensures
            anchor_pos(cursor) == fugue_scan(
                s,
                to_insert,
                this_right_parent,
                lo,
                hi,
                fugue_start(),
            ).anchor,
        decreases s.len() - it.index,
    {
        let ghost i = it.index as int;
        let ghost st = FugueScan {
            anchor: anchor_pos(cursor),
            visited: visited.members(),
            scanning,
            done: false,
        };
        match container.next(&mut it) {
            None => {
                break ;
            },
            Some(other_cursor) => {
                let other = other_cursor.get_op();
                proof {
                    lemma_scan_excludes_origins(s, this_left_origin, this_right_origin, i);
                    assert(Some(other.id) != this_left_origin && Some(other.id) != this_right_origin);
                }
                let o_left_origin = other.left;
                let unknown = match o_left_origin {
                    Some(x) => !visited.contain(x),
                    None => true,
                };
                if unknown && !same_id(o_left_origin, this_left_origin) {
                    proof {
                        lemma_scan_stops(s, to_insert, this_right_parent, i, hi, st);
                    }
                    break ;
                }
                visited.insert(&other);
                if same_id(o_left_origin, this_left_origin) {
                    assert(ref_present(s, s[i].left));
                    let o_right_parent = right_parent_of(container, other.right, this_left_origin);
                    match container.cmp_pos(o_right_parent, this_right_parent) {
                        Ordering::Less => {
                            scanning = true;
                        },
                        Ordering::Equal => {
                            match T::cmp_id(&other, &to_insert) {
                                Ordering::Greater => {
                                    proof {
                                        lemma_scan_stops(s, to_insert, this_right_parent, i, hi, st);
                                    }
                                    break ;
                                },
                                _ => {
                                    scanning = false;
                                },
                            }
                        },
                        Ordering::Greater => {
                            scanning = false;
                        },
                    }
                }
                if !scanning {
                    cursor = Some(other_cursor);
                }
                assert(fugue_step(s, to_insert, this_right_parent, i, st) == FugueScan {
                    anchor: anchor_pos(cursor),
                    visited: visited.members(),
                    scanning,
                    done: false,
                });
            },
        }
    }
    match cursor {
        Some(anchor) => {
            container.insert_after(anchor, to_insert);
        },
        None => {
            proof {
                if this_left_origin is Some {
                    lemma_index_of_present(s, this_left_origin.unwrap());
                }
            }
            container.insert_after_id(this_left_origin, to_insert);
        },
    }
}

} // verus!
