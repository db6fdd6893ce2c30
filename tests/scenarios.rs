use crdt_list::dumb_common::{Op, OpId};
use crdt_list::fugue_dumb_impl::FugueImpl;
use crdt_list::rga_dumb_impl::RgaImpl;
use crdt_list::test::{Action, Actor, TestFramework};
use crdt_list::woot_dumb_impl::WootImpl;
use crdt_list::yata_dumb_impl::YataImpl;

fn actors<T: TestFramework>(n: usize) -> Vec<Actor<T>> {
    (0..n).map(|i| Actor::<T>::new(i, n)).collect()
}

fn run<T: TestFramework>(actors: &mut Vec<Actor<T>>, actions: &[Action]) {
    for a in actions {
        Actor::run_action(*a, actors);
    }
}

fn ids(ops: &[Op]) -> Vec<(usize, usize)> {
    ops.iter().map(|o| (o.id.client_id, o.id.clock)).collect()
}

fn new_op(client_id: usize, pos: usize) -> Action {
    Action::NewOp { client_id, pos }
}

fn sync(from: usize, to: usize) -> Action {
    Action::Sync { from, to }
}

const TWO_CONCURRENT: [Action; 4] = [
    Action::NewOp { client_id: 0, pos: 0 },
    Action::NewOp { client_id: 1, pos: 0 },
    Action::Sync { from: 1, to: 0 },
    Action::Sync { from: 0, to: 1 },
];

#[test]
fn concurrent_inserts_at_start_woot() {
    let mut a = actors::<WootImpl>(2);
    run(&mut a, &TWO_CONCURRENT);
    assert_eq!(ids(&a[0].container.content.0), vec![(0, 0), (1, 0)]);
    assert_eq!(ids(&a[1].container.content.0), vec![(0, 0), (1, 0)]);
}

#[test]
fn concurrent_inserts_at_start_rga() {
    let mut a = actors::<RgaImpl>(2);
    run(&mut a, &TWO_CONCURRENT);
    assert_eq!(ids(&a[0].container.container.content.0), vec![(0, 0), (1, 0)]);
    assert_eq!(ids(&a[1].container.container.content.0), vec![(0, 0), (1, 0)]);
}

#[test]
fn concurrent_inserts_at_start_yata() {
    let mut a = actors::<YataImpl>(2);
    run(&mut a, &TWO_CONCURRENT);
    assert_eq!(ids(&a[0].container.content.0), vec![(0, 0), (1, 0)]);
    assert_eq!(ids(&a[1].container.content.0), vec![(0, 0), (1, 0)]);
}

#[test]
fn concurrent_inserts_at_start_fugue() {
    let mut a = actors::<FugueImpl>(2);
    run(&mut a, &TWO_CONCURRENT);
    assert_eq!(ids(&a[0].container.content.0), vec![(0, 0), (1, 0)]);
    assert_eq!(ids(&a[1].container.content.0), vec![(0, 0), (1, 0)]);
}

#[test]
fn woot_three_each_at_same_position_terminates() {
    let mut a = actors::<WootImpl>(2);
    run(
        &mut a,
        &[
            new_op(0, 0),
            new_op(0, 0),
            new_op(0, 0),
            new_op(1, 0),
            new_op(1, 0),
            new_op(1, 0),
            sync(0, 1),
            sync(1, 0),
        ],
    );
    let left = ids(&a[0].container.content.0);
    assert_eq!(left.len(), 6);
    assert_eq!(left, ids(&a[1].container.content.0));
    assert!(WootImpl::is_content_eq(&a[0].container, &a[1].container));
    assert!(Actor::check(&mut a));
}

#[test]
fn yata_two_inserts_between_adjacent_origins() {
    let mut a = actors::<YataImpl>(2);
    run(
        &mut a,
        &[new_op(0, 0), new_op(0, 1), sync(0, 1), new_op(0, 1), new_op(1, 1), sync(0, 1), sync(1, 0)],
    );
    let expected = vec![(0, 0), (0, 2), (1, 0), (0, 1)];
    assert_eq!(ids(&a[0].container.content.0), expected);
    assert_eq!(ids(&a[1].container.content.0), expected);
    let q = a[1].container.content.0[2];
    assert_eq!(q.left, Some(OpId { client_id: 0, clock: 0 }));
    assert_eq!(q.right, Some(OpId { client_id: 0, clock: 1 }));
}

fn contiguous(order: &[(usize, usize)], client: usize) -> bool {
    let first = order.iter().position(|x| x.0 == client).unwrap();
    let last = order.iter().rposition(|x| x.0 == client).unwrap();
    order[first..=last].iter().all(|x| x.0 == client)
}

#[test]
fn fugue_concurrent_runs_do_not_interleave() {
    let mut a = actors::<FugueImpl>(2);
    let mut script = Vec::new();
    for client in 0..2 {
        for k in 0..5 {
            script.push(new_op(client, k));
        }
    }
    script.push(sync(0, 1));
    script.push(sync(1, 0));
    run(&mut a, &script);
    let order = ids(&a[0].container.content.0);
    assert_eq!(order.len(), 10);
    assert_eq!(order, ids(&a[1].container.content.0));
    assert!(contiguous(&order, 0));
    assert!(contiguous(&order, 1));
}

#[test]
fn fugue_runs_typed_backwards_do_not_interleave() {
    let mut a = actors::<FugueImpl>(2);
    let mut script = vec![new_op(0, 0), new_op(0, 1), sync(0, 1)];
    for client in 0..2 {
        for k in 0..5 {
            script.push(new_op(client, 1 + k));
        }
    }
    script.push(sync(0, 1));
    script.push(sync(1, 0));
    run(&mut a, &script);
    let order = ids(&a[0].container.content.0);
    assert_eq!(order.len(), 12);
    assert_eq!(order, ids(&a[1].container.content.0));
    assert!(contiguous(&order[1..11], 0));
    assert!(contiguous(&order[1..11], 1));
    assert_eq!(order[0], (0, 0));
    assert_eq!(order[11], (0, 1));
}

fn delivery_orders_agree<T: TestFramework>() -> bool {
    let mut a = actors::<T>(4);
    run(
        &mut a,
        &[
            new_op(0, 0),
            new_op(0, 1),
            sync(0, 1),
            new_op(0, 1),
            new_op(0, 0),
            new_op(1, 1),
            new_op(1, 2),
            new_op(1, 0),
            sync(0, 2),
            sync(1, 2),
            sync(1, 3),
            sync(0, 3),
        ],
    );
    T::is_content_eq(&a[2].container, &a[3].container)
}

#[test]
fn delivery_order_does_not_matter() {
    assert!(delivery_orders_agree::<WootImpl>());
    assert!(delivery_orders_agree::<RgaImpl>());
    assert!(delivery_orders_agree::<YataImpl>());
    assert!(delivery_orders_agree::<FugueImpl>());
}

#[test]
fn buffered_operations_wait_for_their_prerequisites() {
    // replica 2 learns replica 1's operation, which refers to replica 0's,
    // before it learns replica 0's: it waits in the buffer.
    let mut a = actors::<YataImpl>(3);
    run(&mut a, &[new_op(0, 0), sync(0, 1), new_op(1, 1)]);
    let mut dst = a.remove(2);
    let mut only_one = Actor::<YataImpl>::new(1, 3);
    only_one.ops[1] = a[1].ops[1].clone();
    dst.sync(&only_one);
    assert_eq!(dst.container.content.0.len(), 0);
    assert_eq!(dst.pending_ops.len(), 1);
    dst.sync(&a[0]);
    assert_eq!(dst.pending_ops.len(), 0);
    assert_eq!(ids(&dst.container.content.0), vec![(0, 0), (1, 0)]);
}

fn replay<T: TestFramework>(script: &[Action]) -> Vec<Actor<T>> {
    let mut a = actors::<T>(3);
    run(&mut a, script);
    a
}

#[test]
fn replay_gives_identical_containers() {
    let script = [
        new_op(0, 0),
        new_op(1, 0),
        new_op(2, 0),
        sync(0, 1),
        new_op(1, 1),
        sync(2, 0),
        Action::Delete { client_id: 0, pos: 1, len: 1 },
        sync(1, 2),
        new_op(2, 3),
        sync(2, 0),
    ];
    let a = replay::<WootImpl>(&script);
    let b = replay::<WootImpl>(&script);
    for i in 0..3 {
        assert_eq!(a[i].container.content, b[i].container.content);
    }
    let a = replay::<FugueImpl>(&script);
    let b = replay::<FugueImpl>(&script);
    for i in 0..3 {
        assert_eq!(a[i].container.content, b[i].container.content);
    }
    let a = replay::<RgaImpl>(&script);
    let b = replay::<RgaImpl>(&script);
    for i in 0..3 {
        assert_eq!(a[i].container.container.content, b[i].container.container.content);
    }
    let a = replay::<YataImpl>(&script);
    let b = replay::<YataImpl>(&script);
    for i in 0..3 {
        assert_eq!(a[i].container.content, b[i].container.content);
    }
}

fn mixed_script() -> Vec<Action> {
    let mut v = Vec::new();
    for k in 0..60usize {
        v.push(new_op(k % 4, k * 7));
        if k % 5 == 0 {
            v.push(Action::Delete { client_id: (k / 5) % 4, pos: k, len: 3 });
        }
        if k % 3 == 0 {
            v.push(sync(k % 4, (k + 1 + k / 3) % 4));
        }
    }
    v
}

#[test]
fn convergence_with_deletions() {
    let script = mixed_script();
    assert!(crdt_list::test::test_with_actions::<WootImpl>(4, 100, script.clone()));
    assert!(crdt_list::test::test_with_actions::<RgaImpl>(4, 100, script.clone()));
    assert!(crdt_list::test::test_with_actions::<YataImpl>(4, 100, script.clone()));
    assert!(crdt_list::test::test_with_actions::<FugueImpl>(4, 100, script));
}

#[test]
fn sync_transfers_only_unseen_log_suffix() {
    let mut a = actors::<WootImpl>(2);
    run(&mut a, &[new_op(0, 0), new_op(0, 0), sync(0, 1), new_op(0, 0), sync(0, 1)]);
    assert_eq!(a[1].ops[0].len(), 3);
    assert_eq!(a[1].ops[0], a[0].ops[0]);
    assert_eq!(a[1].container.content, a[0].container.content);
}

