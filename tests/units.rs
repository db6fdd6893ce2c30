use crdt_list::crdt::{GetOp, ListCrdt, OpSet};
use crdt_list::dumb_common::{compare_ids, Container, Content, Cursor, Op, OpId, OpSetImpl};
use crdt_list::fugue::Fugue;
use crdt_list::rga_dumb_impl::RgaImpl;
use crdt_list::test::{action_from_draws, normalize_actions, Action, Actor, TestFramework};
use crdt_list::woot_dumb_impl::WootImpl;
use crdt_list::yata::Yata;
use std::cmp::Ordering;

fn id(client_id: usize, clock: usize) -> OpId {
    OpId { client_id, clock }
}

fn op(client_id: usize, clock: usize, left: Option<OpId>, right: Option<OpId>) -> Op {
    Op { id: id(client_id, clock), lamport: 0, left, right, deleted: false }
}

fn content(ops: Vec<Op>) -> Content {
    Content(ops)
}

fn clocks(c: &Content) -> Vec<(usize, usize)> {
    c.0.iter().map(|o| (o.id.client_id, o.id.clock)).collect()
}

#[test]
fn normalize_reduces_each_field() {
    let mut a = Action::Sync { from: 7, to: 12 };
    a.normalize(5, 100);
    assert_eq!(a, Action::Sync { from: 2, to: 2 });
    let mut b = Action::NewOp { client_id: 13, pos: 250 };
    b.normalize(5, 100);
    assert_eq!(b, Action::NewOp { client_id: 3, pos: 50 });
    let mut c = Action::Delete { client_id: 9, pos: 305, len: 1001 };
    c.normalize(4, 100);
    assert_eq!(c, Action::Delete { client_id: 1, pos: 5, len: 1 });
}

#[test]
fn normalize_actions_touches_every_action() {
    let mut v = vec![
        Action::NewOp { client_id: 10, pos: 10 },
        Action::Sync { from: 3, to: 4 },
        Action::Delete { client_id: 2, pos: 7, len: 6 },
    ];
    normalize_actions(&mut v, 3, 4);
    assert_eq!(
        v,
        vec![
            Action::NewOp { client_id: 1, pos: 2 },
            Action::Sync { from: 0, to: 1 },
            Action::Delete { client_id: 2, pos: 3, len: 2 },
        ]
    );
}

#[test]
fn self_sync_becomes_sync_from_next_replica() {
    assert!(crdt_list::test::test_with_actions::<WootImpl>(
        2,
        10,
        vec![Action::NewOp { client_id: 0, pos: 0 }, Action::Sync { from: 1, to: 1 }],
    ));
}

fn tombstoned() -> Content {
    let mut v = vec![
        op(0, 0, None, None),
        op(0, 1, None, None),
        op(0, 2, None, None),
        op(0, 3, None, None),
    ];
    v[0].deleted = true;
    v[2].deleted = true;
    content(v)
}

#[test]
fn visible_positions() {
    let c = tombstoned();
    assert_eq!(c.real_len(), 2);
    assert_eq!(c.real_index(0), 1);
    assert_eq!(c.real_index(1), 3);
    let real: Vec<usize> = c.iter_real().iter().map(|o| o.id.clock).collect();
    assert_eq!(real, vec![1, 3]);
    assert_eq!(content(vec![]).real_len(), 0);
}

#[test]
fn position_lookup() {
    let c = content(vec![op(0, 0, None, None), op(1, 0, None, None)]);
    assert_eq!(c.position_of(id(1, 0)), 1);
    assert_eq!(c.position_of(id(2, 0)), 2);
}

#[test]
fn scan_bounds_inclusive_and_exclusive() {
    let c = content(vec![
        op(0, 0, None, None),
        op(0, 1, None, None),
        op(0, 2, None, None),
        op(0, 3, None, None),
    ]);
    let it = c.iter(Some(id(0, 1)), Some(id(0, 3)), false);
    assert_eq!((it.index, it.stop), (1, 4));
    let it = c.iter(Some(id(0, 1)), Some(id(0, 3)), true);
    assert_eq!((it.index, it.stop), (2, 3));
    let it = c.iter(None, None, true);
    assert_eq!((it.index, it.stop), (0, 4));
    let it = c.iter(Some(id(9, 9)), None, false);
    assert_eq!((it.index, it.stop), (4, 4));
    let mut it = c.iter(Some(id(0, 2)), None, true);
    let cur = c.next(&mut it).unwrap();
    assert_eq!(cur.pos, 3);
    assert_eq!(cur.get_op().id, id(0, 3));
    assert!(c.next(&mut it).is_none());
}

#[test]
fn identity_order() {
    assert_eq!(compare_ids(id(0, 5), id(1, 0)), Ordering::Less);
    assert_eq!(compare_ids(id(1, 2), id(1, 1)), Ordering::Greater);
    assert_eq!(compare_ids(id(3, 3), id(3, 3)), Ordering::Equal);
    let a = op(2, 0, None, None);
    let b = op(1, 9, None, None);
    assert_eq!(<Content as ListCrdt>::cmp_id(&a, &b), Ordering::Greater);
}

#[test]
fn op_set_membership() {
    let mut s = <OpSetImpl as OpSet>::new();
    assert!(!s.contain(id(0, 0)));
    s.insert(&op(0, 0, None, None));
    s.insert(&op(1, 4, None, None));
    assert!(s.contain(id(0, 0)));
    assert!(s.contain(id(1, 4)));
    assert!(!s.contain(id(1, 3)));
    s.clear();
    assert!(!s.contain(id(0, 0)));
}

fn three_ops() -> Container {
    let mut c = Container::new(7);
    c.content = content(vec![
        op(1, 0, None, None),
        op(1, 1, Some(id(1, 0)), None),
        op(1, 2, Some(id(1, 1)), None),
    ]);
    c.version_vector[1] = 3;
    c
}

#[test]
fn new_op_takes_neighbours_of_the_hinted_position() {
    let mut c = three_ops();
    let a = c.new_op(5, 9).unwrap();
    assert_eq!(a.id, id(7, 0));
    assert_eq!(a.lamport, 9);
    assert_eq!((a.left, a.right), (Some(id(1, 0)), Some(id(1, 1))));
    let b = c.new_op(3, 0).unwrap();
    assert_eq!(b.id, id(7, 1));
    assert_eq!((b.left, b.right), (Some(id(1, 2)), None));
    let d = c.new_op(4, 0).unwrap();
    assert_eq!((d.left, d.right), (None, Some(id(1, 0))));
    assert_eq!(c.max_clock, 3);
    let mut empty = Container::new(0);
    let e = empty.new_op(17, 0).unwrap();
    assert_eq!((e.left, e.right), (None, None));
    empty.max_clock = usize::MAX;
    assert!(empty.new_op(0, 0).is_none());
}

#[test]
fn readiness() {
    let c = three_ops();
    assert!(c.can_integrate(&op(1, 3, Some(id(1, 2)), None)));
    assert!(c.can_integrate(&op(2, 0, None, Some(id(1, 0)))));
    assert!(!c.can_integrate(&op(1, 4, None, None)));
    assert!(!c.can_integrate(&op(1, 2, None, None)));
    assert!(!c.can_integrate(&op(2, 0, Some(id(5, 5)), None)));
    assert!(!c.can_integrate(&op(2, 1, None, None)));
    assert!(c.container_contains(None));
    assert!(c.container_contains(Some(id(1, 1))));
    assert!(!c.container_contains(Some(id(1, 3))));
}

#[test]
fn deletion_range_wraps_and_clamps() {
    let c = three_ops();
    assert_eq!(c.new_del_op(4, 10), vec![id(1, 1), id(1, 2)]);
    assert_eq!(c.new_del_op(0, 2), vec![id(1, 0), id(1, 1)]);
    assert_eq!(c.new_del_op(2, 0), vec![]);
    assert_eq!(Container::new(0).new_del_op(3, 3), vec![]);
}

#[test]
fn deletion_tombstones_named_operations() {
    let mut c = three_ops();
    c.integrate_delete_op(&vec![id(1, 1), id(4, 4)]);
    assert_eq!(c.content.0.len(), 3);
    assert!(c.content.0[1].deleted);
    assert!(!c.content.0[0].deleted && !c.content.0[2].deleted);
    assert_eq!(c.content.real_len(), 2);
    let mut d = three_ops();
    assert!(!c.visible_eq(&d));
    d.integrate_delete_op(&vec![id(1, 1)]);
    assert!(c.visible_eq(&d));
}

#[test]
fn record_grows_the_version_vector() {
    let mut c = Container::new(0);
    c.record(id(12, 0));
    assert_eq!(c.version_vector.len(), 13);
    assert_eq!(c.version_vector[12], 1);
    c.record(id(3, 5));
    assert_eq!(c.version_vector[3], 6);
}

#[test]
fn woot_narrows_between_concurrent_neighbours() {
    // two operations inserted concurrently at the start: the one with the
    // larger identity goes after the smaller one
    let mut c = content(vec![op(0, 0, None, None)]);
    crdt_list::woot::integrate::<Content>(&mut c, op(1, 0, None, None), None, None);
    assert_eq!(clocks(&c), vec![(0, 0), (1, 0)]);
    let mut d = content(vec![op(1, 0, None, None)]);
    crdt_list::woot::integrate::<Content>(&mut d, op(0, 0, None, None), None, None);
    assert_eq!(clocks(&d), vec![(0, 0), (1, 0)]);
    // inserted between two neighbours with nothing between them
    let mut e = content(vec![op(0, 0, None, None), op(0, 1, None, None)]);
    crdt_list::woot::integrate::<Content>(&mut e, op(2, 0, None, None), Some(id(0, 0)), Some(id(0, 1)));
    assert_eq!(clocks(&e), vec![(0, 0), (2, 0), (0, 1)]);
}

#[test]
fn rga_orders_by_lamport_then_client() {
    let mut c = content(vec![
        Op { id: id(0, 0), lamport: 0, left: None, right: None, deleted: false },
        Op { id: id(0, 1), lamport: 1, left: Some(id(0, 0)), right: None, deleted: false },
    ]);
    let x = Op { id: id(1, 0), lamport: 1, left: None, right: None, deleted: false };
    crdt_list::rga::integrate::<Content>(&mut c, x);
    assert_eq!(clocks(&c), vec![(0, 0), (0, 1), (1, 0)]);
    let y = Op { id: id(2, 0), lamport: 0, left: None, right: None, deleted: false };
    crdt_list::rga::integrate::<Content>(&mut c, y);
    assert_eq!(clocks(&c), vec![(0, 0), (2, 0), (0, 1), (1, 0)]);
}

#[test]
fn rga_lamport_clock_advances_past_what_it_sees() {
    let mut c = RgaImpl::new_container(3);
    let x = Op { id: id(1, 0), lamport: 41, left: None, right: None, deleted: false };
    assert!(RgaImpl::can_integrate(&c, &x));
    RgaImpl::integrate(&mut c, x);
    assert_eq!(c.next_lamport, 42);
    let mine = RgaImpl::new_op(&mut c, 1).unwrap();
    assert_eq!(mine.lamport, 42);
    assert_eq!(mine.left, Some(id(1, 0)));
    assert_eq!(c.next_lamport, 43);
    let old = Op { id: id(2, 0), lamport: 3, left: None, right: None, deleted: false };
    RgaImpl::integrate(&mut c, old);
    assert_eq!(c.next_lamport, 43);
}

#[test]
fn yata_insertion_helpers() {
    let mut c = content(vec![op(0, 0, None, None), op(0, 1, None, None)]);
    c.insert_after(Cursor { pos: 1, op: c.0[1] }, op(5, 0, None, None));
    assert_eq!(clocks(&c), vec![(0, 0), (0, 1), (5, 0)]);
    <Content as Yata>::insert_after_id(&mut c, Some(id(0, 0)), op(6, 0, None, None));
    assert_eq!(clocks(&c), vec![(0, 0), (6, 0), (0, 1), (5, 0)]);
    <Content as Yata>::insert_after_id(&mut c, None, op(7, 0, None, None));
    assert_eq!(clocks(&c)[0], (7, 0));
}

#[test]
fn fugue_position_helpers() {
    let c = content(vec![
        op(0, 0, None, None),
        op(0, 1, Some(id(0, 0)), None),
        op(1, 0, Some(id(0, 0)), Some(id(0, 1))),
    ]);
    assert_eq!(c.left_origin_of_id(id(0, 1)), Some(id(0, 0)));
    assert_eq!(c.left_origin_of_id(id(0, 0)), None);
    assert_eq!(c.cmp_pos(Some(id(0, 0)), Some(id(1, 0))), Ordering::Less);
    assert_eq!(c.cmp_pos(Some(id(1, 0)), Some(id(0, 1))), Ordering::Greater);
    assert_eq!(c.cmp_pos(Some(id(0, 1)), Some(id(0, 1))), Ordering::Equal);
    assert_eq!(c.cmp_pos(None, Some(id(0, 1))), Ordering::Greater);
    assert_eq!(c.cmp_pos(Some(id(0, 1)), None), Ordering::Less);
    assert_eq!(c.cmp_pos(None, None), Ordering::Equal);
}

#[test]
fn random_actions_stay_in_bounds_and_vary() {
    let mut rng: rand::rngs::StdRng = rand::SeedableRng::seed_from_u64(7);
    let mut syncs = 0;
    let mut new_ops = 0;
    let mut positions = std::collections::HashSet::new();
    for _ in 0..400 {
        match Actor::<WootImpl>::gen(&mut rng, 4) {
            Action::Sync { from, to } => {
                assert!(from < 4 && to < 4 && from != to);
                syncs += 1;
            }
            Action::NewOp { client_id, pos } => {
                assert!(client_id < 4 && pos < 256);
                positions.insert(pos);
                new_ops += 1;
            }
            Action::Delete { .. } => panic!("no deletion is drawn"),
        }
    }
    assert!(syncs > 50 && new_ops > 50);
    assert!(positions.len() > 20);
}

#[test]
fn rga_goes_before_a_dominating_origin() {
    let mut c = content(vec![
        Op { id: id(0, 0), lamport: 0, left: None, right: None, deleted: false },
        Op { id: id(0, 1), lamport: 5, left: Some(id(0, 0)), right: None, deleted: false },
    ]);
    let x = Op { id: id(1, 0), lamport: 1, left: Some(id(0, 1)), right: None, deleted: false };
    crdt_list::rga::integrate::<Content>(&mut c, x);
    assert_eq!(clocks(&c), vec![(0, 0), (1, 0), (0, 1)]);
}

#[test]
fn actions_from_drawn_numbers() {
    assert_eq!(action_from_draws(5, 0, 3, 4), Action::Sync { from: 3, to: 2 });
    assert_eq!(action_from_draws(5, 0, 1, 2), Action::Sync { from: 1, to: 3 });
    assert_eq!(action_from_draws(5, 1, 4, 1000), Action::NewOp { client_id: 4, pos: 232 });
}
