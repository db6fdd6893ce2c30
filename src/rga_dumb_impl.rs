//! RGA over the array-backed container, with a Lamport clock per replica.
pub use crate::dumb_common::{Container, Content, Cursor, Iter, Op, OpId, OpSetImpl};
use crate::dumb_common::{lemma_index_of_present, lemma_integrate_keeps_wf};
use crate::rga::{self, rga_index, Rga};
use crate::test::{
    container_view, fresh_view, inserted_view, made_view, replica_ready, ReplicaView, TestFramework,
};
use vstd::prelude::*;

verus! {

impl Rga for Content {
    fn insert_before(&mut self, id: OpId, op: Op) {
        let pos = self.position_of(id);
        proof {
            lemma_index_of_present(self@, id);
        }
        self.insert(pos, op);
    }

    fn insert_after(&mut self, left: Option<OpId>, op: Op) {
        match left {
            Some(x) => {
                let pos = self.position_of(x);
                proof {
                    lemma_index_of_present(self@, x);
                }
                self.insert(pos + 1, op);
            },
            None => {
                self.insert(0, op);
            },
        }
    }
}

/// A replica's container with the Lamport clock for its next operation.
#[derive(Debug)]
pub struct RgaContainer {
    pub container: Container,
    pub next_lamport: u32,
}

/// RGA, for the harness.
pub struct RgaImpl;

/// The Lamport clock after seeing an operation with clock `lamport`.
pub open spec fn lamport_after(next_lamport: u32, lamport: u32) -> u32 {
    if next_lamport > lamport {
        next_lamport
    } else {
        (lamport + 1) as u32
    }
}

impl TestFramework for RgaImpl {
    type Container = RgaContainer;

    open spec fn wf(c: &RgaContainer) -> bool {
        c.container.wf()
    }

    open spec fn replica(c: &RgaContainer) -> ReplicaView {
        container_view(c.container, c.next_lamport)
    }

    open spec fn ready(v: ReplicaView, op: Op) -> bool {
        replica_ready(v, op) && op.lamport < u32::MAX
    }

    open spec fn integrated(v: ReplicaView, op: Op) -> ReplicaView {
        ReplicaView {
            next_lamport: lamport_after(v.next_lamport, op.lamport),
            ..inserted_view(v, rga_index(v.content, op), op)
        }
    }

    open spec fn made(v: ReplicaView, pos: usize) -> (ReplicaView, Option<Op>) {
        if v.next_lamport == u32::MAX || v.max_clock == usize::MAX {
            (v, None)
        } else {
            let m = made_view(v, pos, v.next_lamport);
            (ReplicaView { next_lamport: (v.next_lamport + 1) as u32, ..m.0 }, m.1)
        }
    }

    open spec fn fresh(id: usize) -> ReplicaView {
        fresh_view(id)
    }

    fn is_content_eq(a: &RgaContainer, b: &RgaContainer) -> (r: bool) {
        a.container.visible_eq(&b.container)
    }

    fn new_container(id: usize) -> (c: RgaContainer) {
        let c = RgaContainer { container: Container::new(id), next_lamport: 0 };
        assert(c.container.content@ =~= Seq::<Op>::empty());
        c
    }

    fn new_op(container: &mut RgaContainer, pos: usize) -> (r: Option<Op>) {
        if container.next_lamport == u32::MAX {
            return None;
        }
        let r = container.container.new_op(pos, container.next_lamport);
        if r.is_some() {
            container.next_lamport = container.next_lamport + 1;
        }
        r
    }

    fn new_del_op(container: &RgaContainer, pos: usize, len: usize) -> (r: Vec<OpId>) {
        container.container.new_del_op(pos, len)
    }

    fn integrate_delete_op(container: &mut RgaContainer, op: &Vec<OpId>) {
        container.container.integrate_delete_op(op);
    }

    fn integrate(container: &mut RgaContainer, op: Op) {
        let ghost before = container.container;
        if container.next_lamport <= op.lamport {
            container.next_lamport = op.lamport + 1;
        }
        rga::integrate::<Content>(&mut container.container.content, op);
        container.container.record(op.id);
        proof {
            lemma_integrate_keeps_wf(before, container.container, rga_index(before.content@, op), op);
        }
    }

    fn can_integrate(container: &RgaContainer, op: &Op) -> (r: bool) {
        container.container.can_integrate(op) && op.lamport < u32::MAX
    }
}

} // verus!
