//! WOOT over the array-backed container.
pub use crate::dumb_common::{Container, Content, Cursor, Iter, Op, OpId, OpSetImpl};
use crate::dumb_common::lemma_integrate_keeps_wf;
use crate::test::{
    container_view, fresh_view, inserted_view, made_view, replica_ready, ReplicaView, TestFramework,
};
use crate::woot::{self, woot_index, Woot};
use vstd::prelude::*;

verus! {

impl Woot for Content {
    fn get_pos_of(&self, id: OpId) -> (r: usize) {
        self.position_of(id)
    }

    fn insert_at(&mut self, pos: usize, op: Op) {
        self.insert(pos, op);
    }
}

/// WOOT, for the harness.
pub struct WootImpl;

impl TestFramework for WootImpl {
    type Container = Container;

    open spec fn wf(c: &Container) -> bool {
        c.wf()
    }

    open spec fn replica(c: &Container) -> ReplicaView {
        container_view(*c, 0)
    }

    open spec fn ready(v: ReplicaView, op: Op) -> bool {
        replica_ready(v, op)
    }

    open spec fn integrated(v: ReplicaView, op: Op) -> ReplicaView {
        inserted_view(v, woot_index(v.content, op, op.left, op.right), op)
    }

    open spec fn made(v: ReplicaView, pos: usize) -> (ReplicaView, Option<Op>) {
        made_view(v, pos, 0)
    }

    open spec fn fresh(id: usize) -> ReplicaView {
        fresh_view(id)
    }

    fn is_content_eq(a: &Container, b: &Container) -> (r: bool) {
        a.visible_eq(b)
    }

    fn new_container(id: usize) -> (c: Container) {
        let c = Container::new(id);
        assert(c.content@ =~= Seq::<Op>::empty());
        c
    }

    fn new_op(container: &mut Container, pos: usize) -> (r: Option<Op>) {
        container.new_op(pos, 0)
    }

    fn new_del_op(container: &Container, pos: usize, len: usize) -> (r: Vec<OpId>) {
        container.new_del_op(pos, len)
    }

    fn integrate_delete_op(container: &mut Container, op: &Vec<OpId>) {
        container.integrate_delete_op(op);
    }

    fn integrate(container: &mut Container, op: Op) {
        let ghost before = *container;
        woot::integrate::<Content>(&mut container.content, op, op.left, op.right);
        container.record(op.id);
        proof {
            lemma_integrate_keeps_wf(before, *container, woot_index(before.content@, op, op.left, op.right), op);
        }
    }

    fn can_integrate(container: &Container, op: &Op) -> (r: bool) {
        container.can_integrate(op)
    }
}

} // verus!
