//! YATA over the array-backed container.
pub use crate::dumb_common::{Container, Content, Cursor, Iter, Op, OpId, OpSetImpl};
use crate::dumb_common::{lemma_index_of_present, lemma_integrate_keeps_wf};
use crate::test::{
    container_view, fresh_view, inserted_view, made_view, replica_ready, ReplicaView, TestFramework,
};
use crate::yata::{self, yata_index, Yata};
use vstd::prelude::*;

verus! {

impl Yata for Content {
    fn insert_after(&mut self, anchor: Cursor, op: Op) {
        if anchor.pos >= self.0.len() - 1 {
            self.0.push(op);
        } else {
            self.insert(anchor.pos + 1, op);
        }
    }

    fn insert_after_id(&mut self, id: Option<OpId>, op: Op) {
        match id {
            Some(x) => {
                let pos = self.position_of(x);
                proof {
                    lemma_index_of_present(self@, x);
                }
                self.insert(pos + 1, op);
            },
            None => {
                self.insert(0, op);
            },
        }
    }
}

/// YATA, for the harness.
pub struct YataImpl;

impl TestFramework for YataImpl {
    type Container = Container;

    open spec fn wf(c: &Container) -> bool {
        c.wf()
    }

    open spec fn replica(c: &Container) -> ReplicaView {
        container_view(*c, 0)
    }

    open spec fn ready(v: ReplicaView, op: Op) -> bool {
        replica_ready(v, op)
    }

    open spec fn integrated(v: ReplicaView, op: Op) -> ReplicaView {
        inserted_view(v, yata_index(v.content, op), op)
    }

    open spec fn made(v: ReplicaView, pos: usize) -> (ReplicaView, Option<Op>) {
        made_view(v, pos, 0)
    }

    open spec fn fresh(id: usize) -> ReplicaView {
        fresh_view(id)
    }

    fn is_content_eq(a: &Container, b: &Container) -> (r: bool) {
        a.visible_eq(b)
    }

    fn new_container(id: usize) -> (c: Container) {
        let c = Container::new(id);
        assert(c.content@ =~= Seq::<Op>::empty());
        c
    }

    fn new_op(container: &mut Container, pos: usize) -> (r: Option<Op>) {
        container.new_op(pos, 0)
    }

    fn new_del_op(container: &Container, pos: usize, len: usize) -> (r: Vec<OpId>) {
        container.new_del_op(pos, len)
    }

    fn integrate_delete_op(container: &mut Container, op: &Vec<OpId>) {
        container.integrate_delete_op(op);
    }

    fn integrate(container: &mut Container, op: Op) {
        let ghost before = *container;
        yata::integrate::<Content>(&mut container.content, op);
        container.record(op.id);
        proof {
            lemma_integrate_keeps_wf(before, *container, yata_index(before.content@, op), op);
        }
    }

    fn can_integrate(container: &Container, op: &Op) -> (r: bool) {
        container.can_integrate(op)
    }
}

} // verus!
