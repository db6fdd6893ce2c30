//! RGA: a single forward pass from the left origin, ordered by
//! (Lamport clock, client).
use crate::crdt::{GetOp, ListCrdt};
use crate::dumb_common::{
    has_id, index_of, lemma_index_of_present, lemma_index_of_unique, lemma_insert_unique,
    lemma_scan_in_range, ref_present, scan_start, unique_ids, Op, OpId,
};
use vstd::prelude::*;

verus! {

/// What RGA needs of a sequence besides the scan.
pub trait Rga: ListCrdt {
    /// Puts `op` right after the operation `left`, or first when `left` is `None`.
    fn insert_after(&mut self, left: Option<OpId>, op: Op)
        requires
            unique_ids(old(self).ops()),
            left is Some ==> has_id(old(self).ops(), left.unwrap()),
        ensures
            final(self).ops() == old(self).ops().insert(
                match left {
                    Some(x) => index_of(old(self).ops(), x) + 1,
                    None => 0,
                },
                op,
            ),
    ;

    /// Puts `op` right before the operation `id`.
    fn insert_before(&mut self, id: OpId, op: Op)
        requires
            unique_ids(old(self).ops()),
            has_id(old(self).ops(), id),
        ensures
            final(self).ops() == old(self).ops().insert(index_of(old(self).ops(), id), op),
    ;
}

/// `a` is dominated by `b`: a smaller Lamport clock, or the same one and a smaller client.
pub open spec fn rga_less(a: Op, b: Op) -> bool {
    a.lamport < b.lamport || (a.lamport == b.lamport && a.id.client_id < b.id.client_id)
}

/// The first position from `i` on whose operation dominates `op`, or the length.
pub open spec fn rga_stop(s: Seq<Op>, op: Op, i: int) -> int
    decreases s.len() - i,
{
    if i >= s.len() {
        s.len() as int
    } else if rga_less(op, s[i]) {
        i
    } else {
        rga_stop(s, op, i + 1)
    }
}

/// Where RGA puts `op`: right before the first operation, from its left
/// origin on, that dominates it; at the end when none does.
pub open spec fn rga_index(s: Seq<Op>, op: Op) -> int {
    rga_stop(s, op, scan_start(s, op.left, false))
}

proof fn lemma_rga_stop_range(s: Seq<Op>, op: Op, i: int)
    requires
        0 <= i <= s.len(),
    ensures
        i <= rga_stop(s, op, i) <= s.len(),
    decreases s.len() - i,
{
    if i < s.len() && !rga_less(op, s[i]) {
        lemma_rga_stop_range(s, op, i + 1);
    }
}

/// Two operations made concurrently right after the last operation of the
/// sequence (or into an empty one), neither dominated by that operation,
/// commute under RGA: integrating them in either order appends them with
/// the dominated one first.
pub proof fn lemma_rga_append_commute(s: Seq<Op>, a: Op, b: Op)
    requires
        unique_ids(s),
        !has_id(s, a.id),
        !has_id(s, b.id),
        a.id != b.id,
        a.left == b.left,
        rga_less(a, b) || rga_less(b, a),
        match a.left {
            Some(l) => s.len() > 0 && s.last().id == l && !rga_less(a, s.last()) && !rga_less(
                b,
                s.last(),
            ),
            None => s.len() == 0,
        },
    ensures
        ({
            let ab = s.insert(rga_index(s, a), a);
            let ba = s.insert(rga_index(s, b), b);
            let both = if rga_less(a, b) {
                s.push(a).push(b)
            } else {
                s.push(b).push(a)
            };
            &&& ab.insert(rga_index(ab, b), b) == both
            &&& ba.insert(rga_index(ba, a), a) == both
        }),
{
    let n = s.len() as int;
    if a.left is Some {
        lemma_index_of_unique(s, n - 1);
    }
    lemma_rga_append_second(s, a, b);
    lemma_rga_append_second(s, b, a);
    assert(s.insert(n, a) =~= s.push(a));
    assert(s.insert(n, b) =~= s.push(b));
    assert(s.push(a).insert(n, b) =~= s.push(b).push(a));
    assert(s.push(a).insert(n + 1, b) =~= s.push(a).push(b));
    assert(s.push(b).insert(n, a) =~= s.push(a).push(b));
    assert(s.push(b).insert(n + 1, a) =~= s.push(b).push(a));
}

proof fn lemma_rga_append_second(s: Seq<Op>, x: Op, y: Op)
    requires
        unique_ids(s),
        !has_id(s, x.id),
        x.left == y.left,
        match x.left {
            Some(l) => s.len() > 0 && s.last().id == l && !rga_less(x, s.last()) && !rga_less(
                y,
                s.last(),
            ),
            None => s.len() == 0,
        },
    ensures
        rga_index(s, x) == s.len(),
        rga_index(s.insert(s.len() as int, x), y) == if rga_less(y, x) {
            s.len() as int
        } else {
            s.len() + 1int
        },
{
    let n = s.len() as int;
    let t = s.insert(n, x);
    assert(t[n] == x);
    lemma_insert_unique(s, n, x);
    if x.left is Some {
        let l = x.left.unwrap();
        lemma_index_of_unique(s, n - 1);
        assert(t[n - 1] == s[n - 1]);
        lemma_index_of_unique(t, n - 1);
        assert(rga_stop(s, x, n) == n);
        assert(rga_stop(s, x, n - 1) == n);
        assert(rga_stop(t, y, n + 1) == n + 1);
        assert(rga_stop(t, y, n - 1) == rga_stop(t, y, n));
    } else {
        assert(rga_stop(t, y, 1) == 1);
    }
}

fn dominated(a: &Op, b: &Op) -> (r: bool)
    ensures
        r == rga_less(*a, *b),
{
    a.lamport < b.lamport || (a.lamport == b.lamport && a.id.client_id < b.id.client_id)
}

/// Integrates `to_insert` into `container` by RGA's rule.
pub fn integrate<T: Rga>(container: &mut T, to_insert: Op)
    requires
        unique_ids(old(container).ops()),
        ref_present(old(container).ops(), to_insert.left),
    ensures
        final(container).ops() == old(container).ops().insert(
            rga_index(old(container).ops(), to_insert),
            to_insert,
        ),
        0 <= rga_index(old(container).ops(), to_insert) <= old(container).ops().len(),
{
    let ghost s = container.ops();
    let mut it = container.iter(to_insert.left, None, false);
    let ghost start = it.index as int;
    let ghost mut k: int = 0;
    proof {
        lemma_scan_in_range(s, to_insert.left, None, false);
    }
    let mut left: Option<OpId> = None;
    loop
        invariant_except_break
            rga_stop(s, to_insert, it.index as int) == rga_stop(s, to_insert, start),
            left == if it.index == start {
                None
            } else {
                Some(s[it.index - 1].id)
            },
        invariant
            container.ops() == s,
            unique_ids(s),
            it.stop == s.len(),
            start == scan_start(s, to_insert.left, false),
            0 <= start <= it.index <= s.len(),
        ensures
            start <= k <= s.len(),
            k == rga_stop(s, to_insert, start),
            left == if k == start {
                None
            } else {
                Some(s[k - 1].id)
            },
        decreases s.len() - it.index,
    {
        let ghost i = it.index as int;
        match container.next(&mut it) {
            None => {
                proof {
                    k = i;
                }
                break ;
            },
            Some(cur) => {
                let other = cur.get_op();
                if dominated(&to_insert, &other) {
                    proof {
                        k = i;
                    }
                    break ;
                }
                left = Some(other.id);
            },
        }
    }
    proof {
        lemma_rga_stop_range(s, to_insert, start);
        if k != start {
            lemma_index_of_unique(s, k - 1);
        }
    }
    match left {
        Some(_) => {
            container.insert_after(left, to_insert);
        },
        None => match to_insert.left {
            None => {
                container.insert_after(None, to_insert);
            },
            Some(origin) => {
                proof {
                    lemma_index_of_present(s, origin);
                }
                container.insert_before(origin, to_insert);
            },
        },
    }
}

} // verus!
