//! WOOT: the new operation goes between its two neighbours; concurrent
//! operations found there narrow that range until it is empty.
use crate::crdt::{GetOp, ListCrdt, OpSet};
use crate::dumb_common::{
    has_id, id_less, index_of, lemma_index_after_insert, lemma_index_of_present,
    lemma_index_of_unique, lemma_insert_unique, lemma_scan_in_range,
    ref_present, same_id, scan_start, scan_stop, unique_ids, Op, OpId, OpSetImpl,
};
use std::cmp::Ordering;
use vstd::prelude::*;

verus! {

/// What WOOT needs of a sequence besides the scan: splicing at absolute positions.
pub trait Woot: ListCrdt {
    /// The storage position of `id`.
    fn get_pos_of(&self, id: OpId) -> (r: usize)
        requires
            unique_ids(self.ops()),
            has_id(self.ops(), id),
        ensures
            r == index_of(self.ops(), id),
    ;

    /// Puts `op` at storage position `pos`.
    fn insert_at(&mut self, pos: usize, op: Op)
        requires
            pos <= old(self).ops().len(),
        ensures
            final(self).ops() == old(self).ops().insert(pos as int, op),
    ;
}

/// `o` is one of the two bounds of the range.
pub open spec fn is_bound(o: Op, prev: Option<OpId>, next: Option<OpId>) -> bool {
    Some(o.id) == prev || Some(o.id) == next
}

/// The identities found at positions `i..hi`, the two bounds left out.
pub open spec fn woot_conflicts(
    s: Seq<Op>,
    prev: Option<OpId>,
    next: Option<OpId>,
    i: int,
    hi: int,
) -> Set<OpId>
    decreases hi - i,
{
    if i >= hi {
        Set::empty()
    } else {
        let rest = woot_conflicts(s, prev, next, i + 1, hi);
        if is_bound(s[i], prev, next) {
            rest
        } else {
            rest.insert(s[i].id)
        }
    }
}

/// `o` has a neighbour inside the range, which shields it.
pub open spec fn shielded(o: Op, set: Set<OpId>) -> bool {
    (o.left is Some && set.contains(o.left.unwrap())) || (o.right is Some && set.contains(
        o.right.unwrap(),
    ))
}

/// The positions of the narrowed bounds, scanning `i..hi`: the last
/// unshielded operation that sorts before `op` (`pp`, -1 for none), and the
/// first one that does not (-1 for none).
pub open spec fn woot_narrow(
    s: Seq<Op>,
    op: Op,
    set: Set<OpId>,
    prev: Option<OpId>,
    next: Option<OpId>,
    i: int,
    hi: int,
    pp: int,
) -> (int, int)
    decreases hi - i,
{
    if i >= hi {
        (pp, -1)
    } else if shielded(s[i], set) || is_bound(s[i], prev, next) {
        woot_narrow(s, op, set, prev, next, i + 1, hi, pp)
    } else if id_less(s[i].id, op.id) {
        woot_narrow(s, op, set, prev, next, i + 1, hi, i)
    } else {
        (pp, i)
    }
}

/// The bound at position `k`, or `b` when `k` is -1.
pub open spec fn bound_at(s: Seq<Op>, k: int, b: Option<OpId>) -> Option<OpId> {
    if k < 0 {
        b
    } else {
        Some(s[k].id)
    }
}

/// The position of a bound; `none_pos` stands for a missing one.
pub open spec fn bound_pos(s: Seq<Op>, b: Option<OpId>, none_pos: int) -> int {
    match b {
        Some(x) => index_of(s, x),
        None => none_pos,
    }
}

/// The distance between the two bounds, the start and end sentinels counted.
pub open spec fn woot_span(s: Seq<Op>, prev: Option<OpId>, next: Option<OpId>) -> int {
    bound_pos(s, next, s.len() as int) - bound_pos(s, prev, -1)
}

/// The narrowed bounds of one round.
pub open spec fn woot_round(s: Seq<Op>, op: Op, prev: Option<OpId>, next: Option<OpId>) -> (
    Option<OpId>,
    Option<OpId>,
) {
    let lo = scan_start(s, prev, false);
    let hi = scan_stop(s, next, false);
    let set = woot_conflicts(s, prev, next, lo, hi);
    let r = woot_narrow(s, op, set, prev, next, lo, hi, -1);
    (bound_at(s, r.0, prev), bound_at(s, r.1, next))
}

/// Where WOOT puts `op` between `prev` and `next`: right before `next` once
/// nothing lies between them, else where the narrowed bounds put it. When
/// every operation between them is shielded the bounds stay as they are, and
/// `op` goes right before `next`.
pub open spec fn woot_index(s: Seq<Op>, op: Op, prev: Option<OpId>, next: Option<OpId>) -> int
    decreases woot_span(s, prev, next),
{
    let lo = scan_start(s, prev, false);
    let hi = scan_stop(s, next, false);
    if woot_conflicts(s, prev, next, lo, hi) == Set::<OpId>::empty() {
        bound_pos(s, next, s.len() as int)
    } else {
        let pn = woot_round(s, op, prev, next);
        if 0 <= woot_span(s, pn.0, pn.1) < woot_span(s, prev, next) {
            woot_index(s, op, pn.0, pn.1)
        } else {
            bound_pos(s, next, s.len() as int)
        }
    }
}

proof fn lemma_narrow_shape(
    s: Seq<Op>,
    op: Op,
    set: Set<OpId>,
    prev: Option<OpId>,
    next: Option<OpId>,
    lo: int,
    i: int,
    hi: int,
    pp: int,
)
    requires
        0 <= lo <= i,
        hi <= s.len(),
        pp == -1 || (lo <= pp < i && pp < hi && !is_bound(s[pp], prev, next)),
    ensures
        ({
            let r = woot_narrow(s, op, set, prev, next, i, hi, pp);
            &&& r.0 == -1 || (lo <= r.0 < hi && !is_bound(s[r.0], prev, next))
            &&& r.1 == -1 || (lo <= r.1 < hi && r.0 < r.1 && !is_bound(s[r.1], prev, next))
        }),
    decreases hi - i,
{
    if i < hi {
        if shielded(s[i], set) || is_bound(s[i], prev, next) {
            lemma_narrow_shape(s, op, set, prev, next, lo, i + 1, hi, pp);
        } else if id_less(s[i].id, op.id) {
            lemma_narrow_shape(s, op, set, prev, next, lo, i + 1, hi, i);
        }
    }
}

/// Each round of WOOT's narrowing either keeps both bounds or strictly
/// shrinks the distance between them, so the narrowing ends.
pub proof fn lemma_woot_narrowing_shrinks(
    s: Seq<Op>,
    op: Op,
    prev: Option<OpId>,
    next: Option<OpId>,
)
    requires
        unique_ids(s),
        ref_present(s, prev),
        ref_present(s, next),
    ensures
        ({
            let pn = woot_round(s, op, prev, next);
            (pn.0 == prev && pn.1 == next) || 0 < woot_span(s, pn.0, pn.1) < woot_span(
                s,
                prev,
                next,
            )
        }),
        ref_present(s, woot_round(s, op, prev, next).0),
        ref_present(s, woot_round(s, op, prev, next).1),
        bound_pos(s, woot_round(s, op, prev, next).0, -1) >= bound_pos(s, prev, -1),
        bound_pos(s, woot_round(s, op, prev, next).1, s.len() as int) <= bound_pos(
            s,
            next,
            s.len() as int,
        ),
{
    let lo = scan_start(s, prev, false);
    let hi = scan_stop(s, next, false);
    let set = woot_conflicts(s, prev, next, lo, hi);
    let r = woot_narrow(s, op, set, prev, next, lo, hi, -1);
    lemma_scan_in_range(s, prev, next, false);
    lemma_narrow_shape(s, op, set, prev, next, lo, lo, hi, -1);
    let pp = bound_pos(s, prev, -1);
    let np = bound_pos(s, next, s.len() as int);
    if prev is Some {
        lemma_index_of_present(s, prev.unwrap());
    }
    if next is Some {
        lemma_index_of_present(s, next.unwrap());
    }
    if r.0 >= 0 {
        lemma_index_of_unique(s, r.0);
        if prev is Some {
            assert(r.0 != pp);
        }
        assert(pp < r.0);
        if next is Some {
            assert(r.0 != np);
        }
        assert(r.0 < np);
    }
    if r.1 >= 0 {
        lemma_index_of_unique(s, r.1);
        if prev is Some {
            assert(r.1 != pp);
        }
        assert(pp < r.1);
        if next is Some {
            assert(r.1 != np);
        }
        assert(r.1 < np);
    }
}

/// WOOT puts an operation after `prev` and no later than `next`, when
/// `prev` comes before `next`.
pub proof fn lemma_woot_index_between(s: Seq<Op>, op: Op, prev: Option<OpId>, next: Option<OpId>)
    requires
        unique_ids(s),
        ref_present(s, prev),
        ref_present(s, next),
        bound_pos(s, prev, -1) < bound_pos(s, next, s.len() as int),
    ensures
        bound_pos(s, prev, -1) < woot_index(s, op, prev, next) <= bound_pos(s, next, s.len() as int),
    decreases woot_span(s, prev, next),
{
    let lo = scan_start(s, prev, false);
    let hi = scan_stop(s, next, false);
    if woot_conflicts(s, prev, next, lo, hi) != Set::<OpId>::empty() {
        let pn = woot_round(s, op, prev, next);
        lemma_woot_narrowing_shrinks(s, op, prev, next);
        if 0 <= woot_span(s, pn.0, pn.1) < woot_span(s, prev, next) {
            lemma_woot_index_between(s, op, pn.0, pn.1);
        }
    }
}

proof fn lemma_conflicts_at_most_one(
    s: Seq<Op>,
    prev: Option<OpId>,
    next: Option<OpId>,
    i: int,
    hi: int,
    q: int,
)
    requires
        forall|k: int| i <= k < hi && k != q ==> is_bound(#[trigger] s[k], prev, next),
    ensures
        woot_conflicts(s, prev, next, i, hi) == if i <= q < hi && !is_bound(s[q], prev, next) {
            Set::<OpId>::empty().insert(s[q].id)
        } else {
            Set::<OpId>::empty()
        },
    decreases hi - i,
{
    if i < hi {
        lemma_conflicts_at_most_one(s, prev, next, i + 1, hi, q);
        if i == q && !is_bound(s[q], prev, next) {
            assert(woot_conflicts(s, prev, next, i + 1, hi) == Set::<OpId>::empty());
        }
    }
}

proof fn lemma_narrow_one(
    s: Seq<Op>,
    op: Op,
    set: Set<OpId>,
    prev: Option<OpId>,
    next: Option<OpId>,
    i: int,
    hi: int,
    q: int,
    pp: int,
)
    requires
        i <= q < hi,
        forall|k: int| i <= k < hi && k != q ==> is_bound(#[trigger] s[k], prev, next),
        !is_bound(s[q], prev, next),
        !shielded(s[q], set),
    ensures
        woot_narrow(s, op, set, prev, next, i, hi, pp) == if id_less(s[q].id, op.id) {
            (q, -1int)
        } else {
            (pp, q)
        },
    decreases hi - i,
{
    if i < q {
        lemma_narrow_one(s, op, set, prev, next, i + 1, hi, q, pp);
    } else if id_less(s[q].id, op.id) {
        lemma_narrow_none(s, op, set, prev, next, q + 1, hi, q);
    }
}

proof fn lemma_narrow_none(
    s: Seq<Op>,
    op: Op,
    set: Set<OpId>,
    prev: Option<OpId>,
    next: Option<OpId>,
    i: int,
    hi: int,
    pp: int,
)
    requires
        forall|k: int| i <= k < hi ==> is_bound(#[trigger] s[k], prev, next),
    ensures
        woot_narrow(s, op, set, prev, next, i, hi, pp) == (pp, -1int),
    decreases hi - i,
{
    if i < hi {
        lemma_narrow_none(s, op, set, prev, next, i + 1, hi, pp);
    }
}

/// Where WOOT puts `op` when only its two bounds lie between them.
proof fn lemma_woot_adjacent(s: Seq<Op>, op: Op, prev: Option<OpId>, next: Option<OpId>)
    requires
        unique_ids(s),
        ref_present(s, prev),
        ref_present(s, next),
        scan_start(s, prev, true) == scan_stop(s, next, true),
    ensures
        woot_index(s, op, prev, next) == after_bound(s, prev),
{
    let lo = scan_start(s, prev, false);
    let hi = scan_stop(s, next, false);
    lemma_scan_in_range(s, prev, next, true);
    if prev is Some {
        lemma_index_of_present(s, prev.unwrap());
    }
    if next is Some {
        lemma_index_of_present(s, next.unwrap());
    }
    assert forall|k: int| lo <= k < hi && k != -1 implies is_bound(#[trigger] s[k], prev, next) by {
        if prev is Some && k == index_of(s, prev.unwrap()) {
        } else {
            assert(next is Some && k == index_of(s, next.unwrap()));
        }
    }
    lemma_conflicts_at_most_one(s, prev, next, lo, hi, -1);
}

/// The position right after `prev`, or 0 when `prev` is `None`.
pub open spec fn after_bound(s: Seq<Op>, prev: Option<OpId>) -> int {
    match prev {
        Some(x) => index_of(s, x) + 1,
        None => 0,
    }
}

/// Two operations made concurrently between the same two adjacent
/// operations commute under WOOT: integrating them in either order gives the
/// same sequence, with the smaller identity first.
pub proof fn lemma_woot_adjacent_commute(s: Seq<Op>, a: Op, b: Op)
    requires
        unique_ids(s),
        !has_id(s, a.id),
        !has_id(s, b.id),
        id_less(a.id, b.id),
        a.left == b.left,
        a.right == b.right,
        ref_present(s, a.left),
        ref_present(s, a.right),
        scan_start(s, a.left, true) == scan_stop(s, a.right, true),
    ensures
        ({
            let p = after_bound(s, a.left);
            let ab = s.insert(woot_index(s, a, a.left, a.right), a);
            let ba = s.insert(woot_index(s, b, b.left, b.right), b);
            &&& ab.insert(woot_index(ab, b, b.left, b.right), b) == s.insert(p, a).insert(p + 1, b)
            &&& ba.insert(woot_index(ba, a, a.left, a.right), a) == s.insert(p, a).insert(p + 1, b)
        }),
{
    let l = a.left;
    let r = a.right;
    let p = after_bound(s, l);
    lemma_woot_adjacent(s, a, l, r);
    lemma_woot_adjacent(s, b, l, r);
    lemma_scan_in_range(s, l, r, true);
    if l is Some {
        lemma_index_of_present(s, l.unwrap());
    }
    if r is Some {
        lemma_index_of_present(s, r.unwrap());
    }
    lemma_woot_second(s, a, b, p);
    lemma_woot_second(s, b, a, p);
    assert(s.insert(p, b).insert(p, a) =~= s.insert(p, a).insert(p + 1, b));
}

/// After `x` went between two adjacent bounds at `p`, where `y` goes.
proof fn lemma_woot_second(s: Seq<Op>, x: Op, y: Op, p: int)
    requires
        unique_ids(s),
        !has_id(s, x.id),
        !has_id(s, y.id),
        x.id != y.id,
        x.left == y.left,
        x.right == y.right,
        ref_present(s, x.left),
        ref_present(s, x.right),
        scan_start(s, x.left, true) == scan_stop(s, x.right, true),
        p == after_bound(s, x.left),
    ensures
        woot_index(s.insert(p, x), y, y.left, y.right) == if id_less(x.id, y.id) {
            p + 1
        } else {
            p
        },
{
    let l = x.left;
    let r = x.right;
    let t = s.insert(p, x);
    lemma_scan_in_range(s, l, r, true);
    if l is Some {
        lemma_index_of_present(s, l.unwrap());
        lemma_index_after_insert(s, p, x, l.unwrap());
    }
    if r is Some {
        lemma_index_of_present(s, r.unwrap());
        lemma_index_after_insert(s, p, x, r.unwrap());
    }
    lemma_insert_unique(s, p, x);
    assert(t[p] == x);
    let lo = scan_start(t, l, false);
    let hi = scan_stop(t, r, false);
    assert(lo <= p < hi);
    assert forall|k: int| lo <= k < hi && k != p implies is_bound(#[trigger] t[k], l, r) by {
        if l is Some && k == index_of(t, l.unwrap()) {
        } else {
            assert(r is Some && k == index_of(t, r.unwrap()));
        }
    }
    assert(!is_bound(t[p], l, r));
    lemma_conflicts_at_most_one(t, l, r, lo, hi, p);
    let set = woot_conflicts(t, l, r, lo, hi);
    assert(set == Set::<OpId>::empty().insert(x.id));
    assert(set.contains(x.id));
    assert(!shielded(t[p], set));
    lemma_narrow_one(t, y, set, l, r, lo, hi, p, -1);
    let pn = woot_round(t, y, l, r);
    if id_less(x.id, y.id) {
        assert(pn == (Some(x.id), r));
        assert(scan_start(t, Some(x.id), true) == scan_stop(t, r, true));
        lemma_woot_adjacent(t, y, Some(x.id), r);
    } else {
        assert(pn == (l, Some(x.id)));
        assert(scan_start(t, l, true) == scan_stop(t, Some(x.id), true));
        lemma_woot_adjacent(t, y, l, Some(x.id));
    }
}

fn shields(o: &Op, set: &OpSetImpl) -> (r: bool)
    ensures
        r == shielded(*o, set.members()),
{
    (o.left.is_some() && set.contain(o.left.unwrap())) || (o.right.is_some() && set.contain(
        o.right.unwrap(),
    ))
}

/// Puts `op` right before `next`, or last when `next` is `None`.
fn insert_before<T: Woot>(container: &mut T, next: Option<OpId>, op: Op)
    requires
        unique_ids(old(container).ops()),
        ref_present(old(container).ops(), next),
    ensures
        final(container).ops() == old(container).ops().insert(
            bound_pos(old(container).ops(), next, old(container).ops().len() as int),
            op,
        ),
{
    match next {
        Some(r) => {
            let pos = container.get_pos_of(r);
            proof {
                lemma_index_of_present(old(container).ops(), r);
            }
            container.insert_at(pos, op);
        },
        None => {
            let n = container.len();
            container.insert_at(n, op);
        },
    }
}

/// Integrates `to_insert` between its neighbours `left` and `right` by WOOT's rule.
pub fn integrate<T: Woot>(
    container: &mut T,
    to_insert: Op,
    left: Option<OpId>,
    right: Option<OpId>,
)
    requires
        unique_ids(old(container).ops()),
        ref_present(old(container).ops(), left),
        ref_present(old(container).ops(), right),
    ensures
        final(container).ops() == old(container).ops().insert(
            woot_index(old(container).ops(), to_insert, left, right),
            to_insert,
        ),
        0 <= woot_index(old(container).ops(), to_insert, left, right) <= old(container).ops().len(),
        ({
            let s = old(container).ops();
            bound_pos(s, left, -1) < bound_pos(s, right, s.len() as int) ==> bound_pos(s, left, -1)
                < woot_index(s, to_insert, left, right) <= bound_pos(s, right, s.len() as int)
        }),
{
    let ghost s = container.ops();
    proof {
        if bound_pos(s, left, -1) < bound_pos(s, right, s.len() as int) {
            lemma_woot_index_between(s, to_insert, left, right);
        }
    }
    let mut prev = left;
    let mut next = right;
    loop
        invariant
            container.ops() == s,
            s == old(container).ops(),
            unique_ids(s),
            ref_present(s, prev),
            ref_present(s, next),
            woot_index(s, to_insert, prev, next) == woot_index(s, to_insert, left, right),
            bound_pos(s, left, -1) < bound_pos(s, right, s.len() as int) ==> bound_pos(s, left, -1)
                < woot_index(s, to_insert, left, right) <= bound_pos(s, right, s.len() as int),
        decreases woot_span(s, prev, next),
    {
        proof {
            lemma_scan_in_range(s, prev, next, false);
        }
        let mut set = OpSetImpl::new();
        let mut empty = true;
        let mut it = container.iter(prev, next, false);
        let ghost lo = it.index as int;
        let ghost hi = it.stop as int;
        loop
            invariant
                container.ops() == s,
                it.stop == hi,
                0 <= lo <= it.index <= s.len(),
                hi <= s.len(),
                set.members().union(woot_conflicts(s, prev, next, it.index as int, hi))
                    == woot_conflicts(s, prev, next, lo, hi),
                empty == (set.members() == Set::<OpId>::empty()),
            ensures
                it.index >= hi,
            decreases s.len() - it.index,
        {
            let ghost i = it.index as int;
            match container.next(&mut it) {
                None => {
                    break ;
                },
                Some(cur) => {
                    let op = cur.get_op();
                    let ghost before = set.members();
                    if !((prev.is_some() && op.id == prev.unwrap()) || (next.is_some() && op.id
                        == next.unwrap())) {
                        empty = false;
                        set.insert(&op);
                        assert(set.members().contains(op.id));
                    }
                    assert(set.members().union(woot_conflicts(s, prev, next, i + 1, hi))
                        =~= before.union(woot_conflicts(s, prev, next, i, hi)));
                },
            }
        }
        assert(woot_conflicts(s, prev, next, it.index as int, hi) == Set::<OpId>::empty());
        assert(set.members().union(Set::<OpId>::empty()) =~= set.members());
        if empty {
            insert_before(container, next, to_insert);
            return ;
        }
        let ghost conflicts = set.members();
        let mut p = prev;
        let mut n = next;
        let ghost mut pp: int = -1;
        let ghost mut np: int = -1;
        let mut it = container.iter(prev, next, false);
        loop
            invariant_except_break
                woot_narrow(s, to_insert, conflicts, prev, next, it.index as int, hi, pp)
                    == woot_narrow(s, to_insert, conflicts, prev, next, lo, hi, -1),
                np == -1,
            invariant
                container.ops() == s,
                set.members() == conflicts,
                it.stop == hi,
                0 <= lo <= it.index <= s.len(),
                hi <= s.len(),
                p == bound_at(s, pp, prev),
                n == bound_at(s, np, next),
            ensures
                (pp, np) == woot_narrow(s, to_insert, conflicts, prev, next, lo, hi, -1),
            decreases s.len() - it.index,
        {
            let ghost i = it.index as int;
            match container.next(&mut it) {
                None => {
                    break ;
                },
                Some(cur) => {
                    let op = cur.get_op();
                    if shields(&op, &set) || (prev.is_some() && op.id == prev.unwrap()) || (
                    next.is_some() && op.id == next.unwrap()) {
                    } else {
                        match T::cmp_id(&op, &to_insert) {
                            Ordering::Less => {
                                p = Some(op.id);
                                proof {
                                    pp = i;
                                }
                            },
                            _ => {
                                n = Some(op.id);
                                proof {
                                    np = i;
                                }
                                break ;
                            },
                        }
                    }
                },
            }
        }
        proof {
            lemma_woot_narrowing_shrinks(s, to_insert, prev, next);
        }
        if same_id(p, prev) && same_id(n, next) {
            insert_before(container, next, to_insert);
            return ;
        }
        prev = p;
        next = n;
    }
}

} // verus!
