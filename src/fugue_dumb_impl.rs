//! Fugue over the array-backed container.
pub use crate::dumb_common::{Container, Content, Cursor, Iter, Op, OpId, OpSetImpl};
use crate::dumb_common::{
    has_id, index_of, lemma_index_of_present, lemma_index_of_unique, lemma_integrate_keeps_wf,
    unique_ids,
};
use crate::fugue::{self, fugue_index, Fugue};
use crate::test::{
    container_view, fresh_view, inserted_view, made_view, replica_ready, ReplicaView, TestFramework,
};
use std::cmp::Ordering;
use vstd::prelude::*;

verus! {

impl Fugue for Content {
    fn left_origin_of_id(&self, op_id: OpId) -> (r: Option<OpId>) {
        let mut i: usize = 0;
        while i < self.0.len()
            invariant
                i <= self@.len(),
                unique_ids(self@),
                has_id(self@, op_id),
                forall|j: int| 0 <= j < i ==> self@[j].id != op_id,
            decreases self@.len() - i,
        {
            if self.0[i].id == op_id {
                proof {
                    lemma_index_of_unique(self@, i as int);
                }
                return self.0[i].left;
            }
            i += 1;
        }
        proof {
            lemma_index_of_present(self@, op_id);
        }
        None
    }

    fn cmp_pos(&self, op_a: Option<OpId>, op_b: Option<OpId>) -> (r: Ordering) {
        match (op_a, op_b) {
            (None, None) => Ordering::Equal,
            (None, Some(_)) => Ordering::Greater,
            (Some(_), None) => Ordering::Less,
            (Some(a), Some(b)) => {
                if a == b {
                    return Ordering::Equal;
                }
                proof {
                    lemma_index_of_present(self@, a);
                    lemma_index_of_present(self@, b);
                }
                let mut i: usize = 0;
                while i < self.0.len()
                    invariant
                        i <= self@.len(),
                        unique_ids(self@),
                        op_a == Some(a),
                        op_b == Some(b),
                        a != b,
                        has_id(self@, a),
                        has_id(self@, b),
                        0 <= index_of(self@, a) < self@.len(),
                        0 <= index_of(self@, b) < self@.len(),
                        self@[index_of(self@, a)].id == a,
                        self@[index_of(self@, b)].id == b,
                        forall|j: int| 0 <= j < i ==> self@[j].id != a && self@[j].id != b,
                    decreases self@.len() - i,
                {
                    if self.0[i].id == a {
                        proof {
                            lemma_index_of_unique(self@, i as int);
                        }
                        return Ordering::Less;
                    }
                    if self.0[i].id == b {
                        proof {
                            lemma_index_of_unique(self@, i as int);
                        }
                        return Ordering::Greater;
                    }
                    i += 1;
                }
                Ordering::Equal
            },
        }
    }
}

/// Fugue, for the harness.
pub struct FugueImpl;

impl TestFramework for FugueImpl {
    type Container = Container;

    open spec fn wf(c: &Container) -> bool {
        c.wf()
    }

    open spec fn replica(c: &Container) -> ReplicaView {
        container_view(*c, 0)
    }

    open spec fn ready(v: ReplicaView, op: Op) -> bool {
        replica_ready(v, op)
    }

    open spec fn integrated(v: ReplicaView, op: Op) -> ReplicaView {
        inserted_view(v, fugue_index(v.content, op), op)
    }

    open spec fn made(v: ReplicaView, pos: usize) -> (ReplicaView, Option<Op>) {
        made_view(v, pos, 0)
    }

    open spec fn fresh(id: usize) -> ReplicaView {
        fresh_view(id)
    }

    fn is_content_eq(a: &Container, b: &Container) -> (r: bool) {
        a.visible_eq(b)
    }

    fn new_container(id: usize) -> (c: Container) {
        let c = Container::new(id);
        assert(c.content@ =~= Seq::<Op>::empty());
        c
    }

    fn new_op(container: &mut Container, pos: usize) -> (r: Option<Op>) {
        container.new_op(pos, 0)
    }

    fn new_del_op(container: &Container, pos: usize, len: usize) -> (r: Vec<OpId>) {
        container.new_del_op(pos, len)
    }

    fn integrate_delete_op(container: &mut Container, op: &Vec<OpId>) {
        container.integrate_delete_op(op);
    }

    fn integrate(container: &mut Container, op: Op) {
        let ghost before = *container;
        fugue::integrate::<Content>(&mut container.content, op);
        container.record(op.id);
        proof {
            lemma_integrate_keeps_wf(before, *container, fugue_index(before.content@, op), op);
        }
    }

    fn can_integrate(container: &Container, op: &Op) -> (r: bool) {
        container.can_integrate(op)
    }
}

} // verus!
