//! The operation model and a plain array-backed sequence container.
use crate::crdt::{GetOp, ListCrdt, OpSet};
use std::cmp::Ordering;
use vstd::prelude::*;

verus! {

/// The identity of an operation: the replica that made it and that replica's clock.
#[derive(Debug, Clone, Copy, PartialEq, Eq, Structural)]
pub struct OpId {
    pub client_id: usize,
    pub clock: usize,
}

/// One inserted element, with the neighbours it was inserted between.
#[derive(Debug, Clone, Copy, PartialEq, Eq, Structural)]
pub struct Op {
    pub id: OpId,
    pub lamport: u32,
    pub left: Option<OpId>,
    pub right: Option<OpId>,
    pub deleted: bool,
}

/// `a` sorts before `b`: by client, then by clock.
pub open spec fn id_less(a: OpId, b: OpId) -> bool {
    a.client_id < b.client_id || (a.client_id == b.client_id && a.clock < b.clock)
}

/// The total order of identities as an `Ordering`.
pub open spec fn id_order(a: OpId, b: OpId) -> Ordering {
    if id_less(a, b) {
        Ordering::Less
    } else if a == b {
        Ordering::Equal
    } else {
        Ordering::Greater
    }
}

/// Compares two identities by client, then by clock.
pub fn compare_ids(a: OpId, b: OpId) -> (r: Ordering)
    ensures
        r == id_order(a, b),
{
    if a.client_id < b.client_id || (a.client_id == b.client_id && a.clock < b.clock) {
        Ordering::Less
    } else if a.client_id == b.client_id && a.clock == b.clock {
        Ordering::Equal
    } else {
        Ordering::Greater
    }
}

/// Whether two optional identities are the same.
pub fn same_id(a: Option<OpId>, b: Option<OpId>) -> (r: bool)
    ensures
        r == (a == b),
{
    match (a, b) {
        (Some(x), Some(y)) => x == y,
        (None, None) => true,
        _ => false,
    }
}

/// Some operation of `s` has identity `id`.
pub open spec fn has_id(s: Seq<Op>, id: OpId) -> bool {
    exists|i: int| 0 <= i < s.len() && s[i].id == id
}

/// The position of `id` in `s`, or `s.len()` when it is absent.
pub open spec fn index_of(s: Seq<Op>, id: OpId) -> int {
    if has_id(s, id) {
        choose|i: int| 0 <= i < s.len() && s[i].id == id
    } else {
        s.len() as int
    }
}

/// No two operations of `s` share an identity.
pub open spec fn unique_ids(s: Seq<Op>) -> bool {
    forall|i: int, j: int|
        0 <= i < s.len() && 0 <= j < s.len() && #[trigger] s[i].id == #[trigger] s[j].id ==> i == j
}

/// `r` is absent or names an operation of `s`.
pub open spec fn ref_present(s: Seq<Op>, r: Option<OpId>) -> bool {
    match r {
        Some(x) => has_id(s, x),
        None => true,
    }
}

/// Every neighbour reference in `s` names an operation of `s`.
pub open spec fn refers_within(s: Seq<Op>) -> bool {
    forall|i: int|
        0 <= i < s.len() ==> ref_present(s, #[trigger] s[i].left) && ref_present(s, s[i].right)
}

/// The operations that are not tombstoned, in storage order.
pub open spec fn visible(s: Seq<Op>) -> Seq<Op>
    decreases s.len(),
{
    if s.len() == 0 {
        Seq::empty()
    } else {
        let rest = visible(s.drop_last());
        if s.last().deleted {
            rest
        } else {
            rest.push(s.last())
        }
    }
}

/// Where a scan from `from` starts.
pub open spec fn scan_start(s: Seq<Op>, from: Option<OpId>, exclude_bounds: bool) -> int {
    match from {
        None => 0,
        Some(f) => if has_id(s, f) {
            index_of(s, f) + if exclude_bounds {
                1int
            } else {
                0int
            }
        } else {
            s.len() as int
        },
    }
}

/// Where a scan to `to` stops (exclusive).
pub open spec fn scan_stop(s: Seq<Op>, to: Option<OpId>, exclude_bounds: bool) -> int {
    match to {
        None => s.len() as int,
        Some(t) => if has_id(s, t) {
            index_of(s, t) + if exclude_bounds {
                0int
            } else {
                1int
            }
        } else {
            s.len() as int
        },
    }
}

/// With unique identities, the operation at `k` is found at `k`.
pub proof fn lemma_index_of_unique(s: Seq<Op>, k: int)
    requires
        unique_ids(s),
        0 <= k < s.len(),
    ensures
        has_id(s, s[k].id),
        index_of(s, s[k].id) == k,
{
    assert(has_id(s, s[k].id));
}

/// A present identity is found inside the sequence.
pub proof fn lemma_index_of_present(s: Seq<Op>, id: OpId)
    requires
        has_id(s, id),
    ensures
        0 <= index_of(s, id) < s.len(),
        s[index_of(s, id)].id == id,
{
}

/// Scan bounds lie within the sequence.
pub proof fn lemma_scan_in_range(s: Seq<Op>, from: Option<OpId>, to: Option<OpId>, x: bool)
    ensures
        0 <= scan_start(s, from, x) <= s.len(),
        0 <= scan_stop(s, to, x) <= s.len(),
{
    if from is Some && has_id(s, from.unwrap()) {
        lemma_index_of_present(s, from.unwrap());
    }
    if to is Some && has_id(s, to.unwrap()) {
        lemma_index_of_present(s, to.unwrap());
    }
}

/// Inserting keeps every identity that was there.
pub proof fn lemma_insert_has_id(s: Seq<Op>, k: int, op: Op, id: OpId)
    requires
        0 <= k <= s.len(),
        has_id(s, id),
    ensures
        has_id(s.insert(k, op), id),
{
    let i = choose|i: int| 0 <= i < s.len() && s[i].id == id;
    if i < k {
        assert(s.insert(k, op)[i].id == id);
    } else {
        assert(s.insert(k, op)[i + 1].id == id);
    }
}

/// Inserting an operation with a fresh identity keeps the identities unique.
pub proof fn lemma_insert_unique(s: Seq<Op>, k: int, op: Op)
    requires
        0 <= k <= s.len(),
        unique_ids(s),
        !has_id(s, op.id),
    ensures
        unique_ids(s.insert(k, op)),
        has_id(s.insert(k, op), op.id),
        index_of(s.insert(k, op), op.id) == k,
{
    let t = s.insert(k, op);
    assert(t[k] == op);
    assert forall|i: int, j: int|
        0 <= i < t.len() && 0 <= j < t.len() && #[trigger] t[i].id == #[trigger] t[j].id implies i
        == j by {
        let i0 = if i < k {
            i
        } else {
            i - 1
        };
        let j0 = if j < k {
            j
        } else {
            j - 1
        };
        if i != k {
            assert(t[i] == s[i0]);
        }
        if j != k {
            assert(t[j] == s[j0]);
        }
    }
    lemma_index_of_unique(t, k);
}

/// Where an identity of `s` stands after an insertion at `k`.
pub proof fn lemma_index_after_insert(s: Seq<Op>, k: int, op: Op, id: OpId)
    requires
        0 <= k <= s.len(),
        unique_ids(s),
        !has_id(s, op.id),
        has_id(s, id),
    ensures
        has_id(s.insert(k, op), id),
        index_of(s.insert(k, op), id) == if index_of(s, id) < k {
            index_of(s, id)
        } else {
            index_of(s, id) + 1
        },
{
    let t = s.insert(k, op);
    lemma_insert_unique(s, k, op);
    lemma_index_of_present(s, id);
    let i = index_of(s, id);
    if i < k {
        assert(t[i] == s[i]);
        lemma_index_of_unique(t, i);
    } else {
        assert(t[i + 1] == s[i]);
        lemma_index_of_unique(t, i + 1);
    }
}

/// Inserting an operation with a fresh identity whose references are present
/// keeps the identities unique and the references inside the sequence.
pub proof fn lemma_insert_closed(s: Seq<Op>, k: int, op: Op)
    requires
        0 <= k <= s.len(),
        unique_ids(s),
        refers_within(s),
        !has_id(s, op.id),
        ref_present(s, op.left),
        ref_present(s, op.right),
    ensures
        unique_ids(s.insert(k, op)),
        refers_within(s.insert(k, op)),
        has_id(s.insert(k, op), op.id),
{
    let t = s.insert(k, op);
    assert(t[k] == op);
    assert forall|i: int, j: int|
        0 <= i < t.len() && 0 <= j < t.len() && #[trigger] t[i].id == #[trigger] t[j].id implies i
        == j by {
        if i != k && j != k {
            let i0 = if i < k {
                i
            } else {
                i - 1
            };
            let j0 = if j < k {
                j
            } else {
                j - 1
            };
            assert(t[i] == s[i0]);
            assert(t[j] == s[j0]);
        } else if i == k && j != k {
            let j0 = if j < k {
                j
            } else {
                j - 1
            };
            assert(t[j] == s[j0]);
        } else if j == k && i != k {
            let i0 = if i < k {
                i
            } else {
                i - 1
            };
            assert(t[i] == s[i0]);
        }
    }
    assert forall|i: int| 0 <= i < t.len() implies ref_present(t, #[trigger] t[i].left)
        && ref_present(t, t[i].right) by {
        let o = t[i];
        let i0 = if i < k {
            i
        } else {
            i - 1
        };
        if i != k {
            assert(o == s[i0]);
        }
        if o.left is Some {
            lemma_insert_has_id(s, k, op, o.left.unwrap());
        }
        if o.right is Some {
            lemma_insert_has_id(s, k, op, o.right.unwrap());
        }
    }
    assert(has_id(t, op.id));
}

/// A set of identities backed by a vector.
pub struct OpSetImpl {
    pub set: Vec<OpId>,
}

impl OpSet for OpSetImpl {
    open spec fn members(&self) -> Set<OpId> {
        Set::new(|id: OpId| self.set@.contains(id))
    }

    fn new() -> (s: Self) {
        let s = OpSetImpl { set: Vec::new() };
        assert(s.members() =~= Set::<OpId>::empty());
        s
    }

    fn insert(&mut self, value: &Op) {
        let ghost before = self.set@;
        self.set.push(value.id);
        assert forall|id: OpId| #[trigger] self.set@.contains(id) == (before.contains(id) || id
            == value.id) by {
            if before.contains(id) {
                let i = choose|i: int| 0 <= i < before.len() && before[i] == id;
                assert(self.set@[i] == id);
            }
            if self.set@.contains(id) {
                let i = choose|i: int| 0 <= i < self.set@.len() && self.set@[i] == id;
                if i < before.len() {
                    assert(before[i] == id);
                }
            }
            if id == value.id {
                assert(self.set@[before.len() as int] == id);
            }
        }
        assert(self.members() =~= old(self).members().insert(value.id));
    }

    fn contain(&self, id: OpId) -> (r: bool) {
        let mut i: usize = 0;
        while i < self.set.len()
            invariant
                i <= self.set.len(),
                forall|j: int| 0 <= j < i ==> self.set@[j] != id,
            decreases self.set.len() - i,
        {
            if self.set[i] == id {
                return true;
            }
            i += 1;
        }
        false
    }

    fn clear(&mut self) {
        self.set.clear();
        assert(self.members() =~= Set::<OpId>::empty());
    }
}

/// The storage sequence of one replica.
#[derive(Debug, PartialEq, Eq)]
pub struct Content(pub Vec<Op>);

impl View for Content {
    type V = Seq<Op>;

    open spec fn view(&self) -> Seq<Op> {
        self.0@
    }
}

impl Content {
    /// The first position that holds `id`, or the length when none does.
    pub fn position_of(&self, id: OpId) -> (r: usize)
        requires
            unique_ids(self@),
        ensures
            r == index_of(self@, id),
            self@.len() <= usize::MAX,
    {
        let mut i: usize = 0;
        while i < self.0.len()
            invariant
                i <= self.0.len(),
                unique_ids(self@),
                forall|j: int| 0 <= j < i ==> self@[j].id != id,
            decreases self.0.len() - i,
        {
            if self.0[i].id == id {
                proof {
                    lemma_index_of_unique(self@, i as int);
                }
                return i;
            }
            i += 1;
        }
        i
    }

    /// The number of operations that are not tombstoned.
    pub fn real_len(&self) -> (r: usize)
        ensures
            r == visible(self@).len(),
    {
        let mut count: usize = 0;
        let mut i: usize = 0;
        while i < self.0.len()
            invariant
                i <= self.0.len(),
                count == visible(self@.take(i as int)).len(),
                count <= i,
            decreases self.0.len() - i,
        {
            assert(self@.take(i + 1).drop_last() =~= self@.take(i as int));
            if !self.0[i].deleted {
                count += 1;
            }
            i += 1;
        }
        assert(self@.take(i as int) =~= self@);
        count
    }

    /// The storage position of the `index`-th operation that is not tombstoned.
    pub fn real_index(&self, index: usize) -> (r: usize)
        requires
            index < visible(self@).len(),
        ensures
            r < self@.len(),
            !self@[r as int].deleted,
            visible(self@.take(r as int)).len() == index,
    {
        let mut count: usize = 0;
        let mut i: usize = 0;
        while i < self.0.len()
            invariant
                i <= self.0.len(),
                count == visible(self@.take(i as int)).len(),
                count <= index,
                index < visible(self@).len(),
            decreases self.0.len() - i,
        {
            assert(self@.take(i + 1).drop_last() =~= self@.take(i as int));
            if !self.0[i].deleted {
                if count == index {
                    return i;
                }
                count += 1;
            }
            i += 1;
        }
        assert(self@.take(i as int) =~= self@);
        i
    }

    /// The operations that are not tombstoned, in storage order.
    pub fn iter_real(&self) -> (r: Vec<Op>)
        ensures
            r@ == visible(self@),
    {
        let mut r: Vec<Op> = Vec::new();
        let mut i: usize = 0;
        while i < self.0.len()
            invariant
                i <= self.0.len(),
                r@ == visible(self@.take(i as int)),
            decreases self.0.len() - i,
        {
            assert(self@.take(i + 1).drop_last() =~= self@.take(i as int));
            if !self.0[i].deleted {
                r.push(self.0[i]);
            }
            i += 1;
        }
        assert(self@.take(i as int) =~= self@);
        r
    }

    /// Puts `op` at storage position `pos`.
    pub fn insert(&mut self, pos: usize, op: Op)
        requires
            pos <= old(self)@.len(),
        ensures
            final(self)@ == old(self)@.insert(pos as int, op),
    {
        self.0.insert(pos, op);
    }
}

/// A bounded scan: the positions from `index` up to `stop` (exclusive).
pub struct Iter {
    pub index: usize,
    pub stop: usize,
}

/// A position of a scan, with the operation found there.
pub struct Cursor {
    pub pos: usize,
    pub op: Op,
}

impl GetOp for Cursor {
    open spec fn target(&self) -> Op {
        self.op
    }

    fn get_op(&self) -> (r: Op) {
        self.op
    }
}

impl ListCrdt for Content {
    open spec fn ops(&self) -> Seq<Op> {
        self@
    }

    fn len(&self) -> (r: usize) {
        self.0.len()
    }

    fn iter(&self, from: Option<OpId>, to: Option<OpId>, exclude_bounds: bool) -> (it: Iter) {
        let n = self.0.len();
        let index = match from {
            None => 0,
            Some(f) => {
                let p = self.position_of(f);
                if p < n && exclude_bounds {
                    p + 1
                } else {
                    p
                }
            },
        };
        let stop = match to {
            None => n,
            Some(t) => {
                let p = self.position_of(t);
                if p < n && !exclude_bounds {
                    p + 1
                } else {
                    p
                }
            },
        };
        proof {
            if from is Some {
                if has_id(self@, from.unwrap()) {
                    lemma_index_of_present(self@, from.unwrap());
                }
            }
            if to is Some {
                if has_id(self@, to.unwrap()) {
                    lemma_index_of_present(self@, to.unwrap());
                }
            }
        }
        Iter { index, stop }
    }

    fn next(&self, it: &mut Iter) -> (r: Option<Cursor>) {
        if it.index < it.stop {
            let pos = it.index;
            it.index = it.index + 1;
            Some(Cursor { pos, op: self.0[pos] })
        } else {
            None
        }
    }

    fn cmp_id(op_a: &Op, op_b: &Op) -> (r: Ordering) {
        compare_ids(op_a.id, op_b.id)
    }
}


/// Whether `ids` holds `id`.
pub fn ids_contain(ids: &Vec<OpId>, id: OpId) -> (r: bool)
    ensures
        r == ids@.contains(id),
{
    let mut i: usize = 0;
    while i < ids.len()
        invariant
            i <= ids.len(),
            forall|j: int| 0 <= j < i ==> ids@[j] != id,
        decreases ids.len() - i,
    {
        if ids[i] == id {
            assert(ids@[i as int] == id);
            return true;
        }
        i += 1;
    }
    false
}

/// Whether two operations are equal, field by field.
pub fn same_op(a: &Op, b: &Op) -> (r: bool)
    ensures
        r == (*a == *b),
{
    a.id == b.id && a.lamport == b.lamport && same_id(a.left, b.left) && same_id(a.right, b.right)
        && a.deleted == b.deleted
}

/// The next clock expected from `client` under version vector `vv`.
pub open spec fn next_expected(vv: Seq<usize>, client: usize) -> int {
    if client < vv.len() {
        vv[client as int] as int
    } else {
        0
    }
}

/// The neighbours that an operation made at position `p` of `s` refers to.
pub open spec fn neighbours(s: Seq<Op>, p: int) -> (Option<OpId>, Option<OpId>) {
    (
        if p == 0 {
            None
        } else {
            Some(s[p - 1].id)
        },
        if p == s.len() {
            None
        } else {
            Some(s[p].id)
        },
    )
}

/// Where an operation made with position hint `pos` goes: the hint modulo
/// one more than the length.
pub open spec fn hint_pos(s: Seq<Op>, pos: usize) -> int {
    (pos as int) % ((s.len() + 1) as int)
}

/// The neighbours of a position are present and adjacent: nothing lies
/// between them, and the position is right after the left one. So two
/// operations made at the same position of the same sequence have the same
/// adjacent origins.
pub proof fn lemma_neighbours_adjacent(s: Seq<Op>, p: int)
    requires
        unique_ids(s),
        0 <= p <= s.len(),
    ensures
        ref_present(s, neighbours(s, p).0),
        ref_present(s, neighbours(s, p).1),
        scan_start(s, neighbours(s, p).0, true) == p,
        scan_stop(s, neighbours(s, p).1, true) == p,
{
    if p > 0 {
        lemma_index_of_unique(s, p - 1);
    }
    if p < s.len() {
        lemma_index_of_unique(s, p);
    }
}

/// The identities that a deletion of `len` visible operations from visible
/// position `pos` removes: `pos` wraps around the visible length and `len`
/// is clamped to what follows it.
pub open spec fn deletion_ids(v: Seq<Op>, pos: int, len: int) -> Seq<OpId> {
    if v.len() == 0 {
        Seq::empty()
    } else {
        let p = pos % (v.len() as int);
        let l = if len < v.len() - p {
            len
        } else {
            v.len() - p
        };
        Seq::new(l as nat, |k: int| v[p + k].id)
    }
}

/// `s` with every operation named in `ids` tombstoned.
pub open spec fn tombstone(s: Seq<Op>, ids: Seq<OpId>) -> Seq<Op> {
    Seq::new(
        s.len(),
        |i: int|
            if ids.contains(s[i].id) {
                Op { deleted: true, ..s[i] }
            } else {
                s[i]
            },
    )
}

/// Tombstoning keeps every identity and reference.
pub proof fn lemma_tombstone_keeps(s: Seq<Op>, ids: Seq<OpId>)
    requires
        unique_ids(s),
        refers_within(s),
    ensures
        unique_ids(tombstone(s, ids)),
        refers_within(tombstone(s, ids)),
        forall|x: OpId| has_id(tombstone(s, ids), x) == has_id(s, x),
{
    let t = tombstone(s, ids);
    assert forall|i: int| 0 <= i < s.len() implies #[trigger] t[i].id == s[i].id && t[i].left
        == s[i].left && t[i].right == s[i].right by {}
    assert forall|x: OpId| has_id(t, x) == has_id(s, x) by {
        if has_id(s, x) {
            let i = choose|i: int| 0 <= i < s.len() && s[i].id == x;
            assert(t[i].id == x);
        }
        if has_id(t, x) {
            let i = choose|i: int| 0 <= i < t.len() && t[i].id == x;
            assert(s[i].id == x);
        }
    }
    assert forall|i: int| 0 <= i < t.len() implies ref_present(t, #[trigger] t[i].left)
        && ref_present(t, t[i].right) by {
        assert(t[i].left == s[i].left);
        assert(ref_present(s, s[i].left));
    }
}

/// One replica's storage: the sequence, the version vector (the next clock
/// expected from each client) and the clock of its own next operation.
#[derive(Debug)]
pub struct Container {
    pub content: Content,
    pub version_vector: Vec<usize>,
    pub max_clock: usize,
    pub id: usize,
}

impl Container {
    /// Identities unique, references inside the sequence, and every clock
    /// below what the version vector expects next from its client.
    pub open spec fn wf(&self) -> bool {
        let s = self.content@;
        &&& unique_ids(s)
        &&& refers_within(s)
        &&& forall|i: int|
            0 <= i < s.len() ==> (#[trigger] s[i]).id.clock < next_expected(
                self.version_vector@,
                s[i].id.client_id,
            )
    }

    /// `op` can be integrated: its neighbours are here and it is the next
    /// operation expected from its client.
    pub open spec fn ready(&self, op: Op) -> bool {
        &&& ref_present(self.content@, op.left)
        &&& ref_present(self.content@, op.right)
        &&& op.id.clock < usize::MAX
        &&& next_expected(self.version_vector@, op.id.client_id) == op.id.clock
    }

    /// An empty replica with identity `id`.
    pub fn new(id: usize) -> (c: Container)
        ensures
            c.wf(),
            c.id == id,
            c.content@.len() == 0,
            c.max_clock == 0,
            c.version_vector@ == initial_version_vector(),
            forall|client: usize| next_expected(c.version_vector@, client) == 0,
    {
        let mut version_vector: Vec<usize> = Vec::new();
        while version_vector.len() < 10
            invariant
                version_vector.len() <= 10,
                version_vector@ == Seq::new(version_vector.len() as nat, |i: int| 0usize),
            decreases 10 - version_vector.len(),
        {
            version_vector.push(0);
            assert(version_vector@ =~= Seq::new(version_vector.len() as nat, |i: int| 0usize));
        }
        Container { content: Content(Vec::new()), version_vector, max_clock: 0, id }
    }

    /// `op_id` is absent or names an operation held here.
    pub fn container_contains(&self, op_id: Option<OpId>) -> (r: bool)
        ensures
            r == ref_present(self.content@, op_id),
    {
        match op_id {
            None => true,
            Some(x) => {
                let mut i: usize = 0;
                while i < self.content.0.len()
                    invariant
                        op_id == Some(x),
                        i <= self.content@.len(),
                        forall|j: int| 0 <= j < i ==> self.content@[j].id != x,
                    decreases self.content@.len() - i,
                {
                    if self.content.0[i].id == x {
                        assert(self.content@[i as int].id == x);
                        return true;
                    }
                    i += 1;
                }
                false
            },
        }
    }

    fn expected_clock(&self, client: usize) -> (r: usize)
        ensures
            r == next_expected(self.version_vector@, client),
    {
        if client < self.version_vector.len() {
            self.version_vector[client]
        } else {
            0
        }
    }

    /// Whether `op` can be integrated now.
    pub fn can_integrate(&self, op: &Op) -> (r: bool)
        ensures
            r == self.ready(*op),
    {
        self.container_contains(op.left) && self.container_contains(op.right) && op.id.clock
            < usize::MAX && self.expected_clock(op.id.client_id) == op.id.clock
    }

    /// Makes this replica's next operation, at position `pos` modulo one
    /// more than the length, with Lamport clock `lamport`; `None` once the
    /// replica's clock is spent.
    pub fn new_op(&mut self, pos: usize, lamport: u32) -> (r: Option<Op>)
        ensures
            old(self).max_clock == usize::MAX ==> r is None && *final(self) == *old(self),
            old(self).max_clock < usize::MAX ==> r == Some(
                Op {
                    id: OpId { client_id: old(self).id, clock: old(self).max_clock },
                    lamport,
                    left: neighbours(old(self).content@, hint_pos(old(self).content@, pos)).0,
                    right: neighbours(old(self).content@, hint_pos(old(self).content@, pos)).1,
                    deleted: false,
                },
            ) && final(self).max_clock == old(self).max_clock + 1 && final(self).content
                == old(self).content && final(self).version_vector == old(self).version_vector
                && final(self).id == old(self).id,
    {
        if self.max_clock == usize::MAX {
            return None;
        }
        let n = self.content.0.len();
        let insert_pos = if n == usize::MAX {
            proof {
                vstd::arithmetic::div_mod::lemma_small_mod(pos as nat, n as nat + 1);
            }
            pos
        } else {
            pos % (n + 1)
        };
        let left = if insert_pos == 0 {
            None
        } else {
            Some(self.content.0[insert_pos - 1].id)
        };
        let right = if insert_pos == n {
            None
        } else {
            Some(self.content.0[insert_pos].id)
        };
        let op = Op {
            id: OpId { client_id: self.id, clock: self.max_clock },
            lamport,
            left,
            right,
            deleted: false,
        };
        self.max_clock = self.max_clock + 1;
        Some(op)
    }

    /// The identities to tombstone for a deletion at visible position `pos`
    /// of `len` operations.
    pub fn new_del_op(&self, pos: usize, len: usize) -> (r: Vec<OpId>)
        ensures
            r@ == deletion_ids(visible(self.content@), pos as int, len as int),
    {
        let vis = self.content.iter_real();
        let n = vis.len();
        let mut deleted: Vec<OpId> = Vec::new();
        if n == 0 {
            assert(deleted@ =~= deletion_ids(visible(self.content@), pos as int, len as int));
            return deleted;
        }
        let p = pos % n;
        let l = if len < n - p {
            len
        } else {
            n - p
        };
        let mut k: usize = 0;
        while k < l
            invariant
                vis@ == visible(self.content@),
                n == vis@.len(),
                p < n,
                l <= n - p,
                k <= l,
                deleted@ =~= Seq::new(k as nat, |j: int| vis@[p + j].id),
            decreases l - k,
        {
            deleted.push(vis[p + k].id);
            k += 1;
        }
        deleted
    }

    /// Tombstones every operation named in `ids`.
    pub fn integrate_delete_op(&mut self, ids: &Vec<OpId>)
        requires
            old(self).wf(),
        ensures
            final(self).content@ == tombstone(old(self).content@, ids@),
            final(self).version_vector == old(self).version_vector,
            final(self).max_clock == old(self).max_clock,
            final(self).id == old(self).id,
            final(self).wf(),
            forall|o: Op| final(self).ready(o) == old(self).ready(o),
    {
        let ghost s = self.content@;
        let mut i: usize = 0;
        while i < self.content.0.len()
            invariant
                self.content@.len() == s.len(),
                i <= s.len(),
                forall|j: int| 0 <= j < i ==> self.content@[j] == tombstone(s, ids@)[j],
                forall|j: int| i <= j < s.len() ==> self.content@[j] == s[j],
                self.version_vector == old(self).version_vector,
                self.max_clock == old(self).max_clock,
                self.id == old(self).id,
            decreases s.len() - i,
        {
            let o = self.content.0[i];
            if !o.deleted && ids_contain(ids, o.id) {
                self.content.0.set(i, Op { deleted: true, ..o });
            }
            i += 1;
        }
        assert(self.content@ =~= tombstone(s, ids@));
        proof {
            lemma_tombstone_keeps(s, ids@);
            let t = tombstone(s, ids@);
            assert forall|j: int| 0 <= j < t.len() implies (#[trigger] t[j]).id.clock
                < next_expected(self.version_vector@, t[j].id.client_id) by {
                assert(t[j].id == s[j].id);
            }
        }
    }

    /// Notes that the operation `id` is integrated: the next clock expected
    /// from its client is one past its clock.
    pub fn record(&mut self, id: OpId)
        requires
            id.clock < usize::MAX,
        ensures
            final(self).version_vector@ == recorded(old(self).version_vector@, id),
            forall|c: usize|
                next_expected(final(self).version_vector@, c) == if c == id.client_id {
                    id.clock + 1
                } else {
                    next_expected(old(self).version_vector@, c)
                },
            final(self).content == old(self).content,
            final(self).max_clock == old(self).max_clock,
            final(self).id == old(self).id,
    {
        let ghost start = self.version_vector@;
        while self.version_vector.len() <= id.client_id
            invariant
                forall|c: usize|
                    next_expected(self.version_vector@, c) == next_expected(
                        old(self).version_vector@,
                        c,
                    ),
                start == old(self).version_vector@,
                self.version_vector@.len() >= start.len(),
                self.version_vector@ == start + Seq::new(
                    (self.version_vector@.len() - start.len()) as nat,
                    |i: int| 0usize,
                ),
                start.len() <= id.client_id ==> self.version_vector@.len() <= id.client_id + 1,
                start.len() > id.client_id ==> self.version_vector@.len() == start.len(),
                self.content == old(self).content,
                self.max_clock == old(self).max_clock,
                self.id == old(self).id,
            decreases id.client_id + 1 - self.version_vector.len(),
        {
            self.version_vector.push(0);
            assert(self.version_vector@ =~= start + Seq::new(
                (self.version_vector@.len() - start.len()) as nat,
                |i: int| 0usize,
            ));
        }
        proof {
            if start.len() > id.client_id {
                assert(self.version_vector@ =~= start);
            }
        }
        self.version_vector.set(id.client_id, id.clock + 1);
    }

    /// Whether two replicas show the same operations, tombstones left out.
    pub fn visible_eq(&self, other: &Container) -> (r: bool)
        ensures
            r == (visible(self.content@) == visible(other.content@)),
    {
        let a = self.content.iter_real();
        let b = other.content.iter_real();
        if a.len() != b.len() {
            return false;
        }
        let mut i: usize = 0;
        while i < a.len()
            invariant
                a@ == visible(self.content@),
                b@ == visible(other.content@),
                a.len() == b.len(),
                i <= a.len(),
                forall|j: int| 0 <= j < i ==> a@[j] == b@[j],
            decreases a.len() - i,
        {
            if !same_op(&a[i], &b[i]) {
                assert(a@[i as int] != b@[i as int]);
                return false;
            }
            i += 1;
        }
        assert(a@ =~= b@);
        true
    }
}

/// An operation that is ready is not yet in the sequence.
pub proof fn lemma_ready_is_fresh(c: Container, op: Op)
    requires
        c.wf(),
        c.ready(op),
    ensures
        !has_id(c.content@, op.id),
{
    let s = c.content@;
    if has_id(s, op.id) {
        let i = choose|i: int| 0 <= i < s.len() && s[i].id == op.id;
        assert(s[i].id.clock < next_expected(c.version_vector@, s[i].id.client_id));
    }
}

/// Inserting a ready operation anywhere and recording it keeps a replica
/// well formed.
pub proof fn lemma_integrate_keeps_wf(before: Container, after: Container, k: int, op: Op)
    requires
        before.wf(),
        before.ready(op),
        0 <= k <= before.content@.len(),
        after.content@ == before.content@.insert(k, op),
        forall|c: usize|
            next_expected(after.version_vector@, c) == if c == op.id.client_id {
                op.id.clock + 1
            } else {
                next_expected(before.version_vector@, c)
            },
    ensures
        after.wf(),
{
    let s = before.content@;
    let t = after.content@;
    lemma_ready_is_fresh(before, op);
    lemma_insert_closed(s, k, op);
    assert forall|i: int| 0 <= i < t.len() implies (#[trigger] t[i]).id.clock < next_expected(
        after.version_vector@,
        t[i].id.client_id,
    ) by {
        if i != k {
            let i0 = if i < k {
                i
            } else {
                i - 1
            };
            assert(t[i] == s[i0]);
        }
    }
}

/// The version vector of a fresh replica.
pub open spec fn initial_version_vector() -> Seq<usize> {
    Seq::new(10, |i: int| 0usize)
}

/// `vv` after the operation `id` is integrated: grown with zeros up to its
/// client, whose entry becomes one past its clock.
pub open spec fn recorded(vv: Seq<usize>, id: OpId) -> Seq<usize> {
    let grown = if id.client_id < vv.len() {
        vv
    } else {
        vv + Seq::new((id.client_id + 1 - vv.len()) as nat, |i: int| 0usize)
    };
    grown.update(id.client_id as int, (id.clock + 1) as usize)
}

/// `after` is `before` with `op` put at position `k` and recorded in the
/// version vector.
pub open spec fn integrated_at(before: Container, after: Container, k: int, op: Op) -> bool {
    &&& after.content@ == before.content@.insert(k, op)
    &&& after.version_vector@ == recorded(before.version_vector@, op.id)
    &&& forall|c: usize|
        next_expected(after.version_vector@, c) == if c == op.id.client_id {
            op.id.clock + 1
        } else {
            next_expected(before.version_vector@, c)
        }
    &&& after.max_clock == before.max_clock
    &&& after.id == before.id
}

} // verus!
