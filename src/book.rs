use crate::ids::IdSequence;
use rustc_hash::FxBuildHasher;
use std::collections::HashMap;
use vstd::prelude::*;

verus! {

#[derive(Clone, Copy, Debug, PartialEq, Eq, Structural)]
pub enum Side {
    Bid,
    Ask,
}

pub open spec fn opposite(side: Side) -> Side {
    match side {
        Side::Bid => Side::Ask,
        Side::Ask => Side::Bid,
    }
}

/// Price `a` has strictly better priority than price `b` on a ladder of `side`:
/// a higher bid, or a lower ask.
pub open spec fn ahead(side: Side, a: u64, b: u64) -> bool {
    match side {
        Side::Bid => a > b,
        Side::Ask => a < b,
    }
}

/// An aggressive order of `side` with limit `limit` may trade against a resting
/// order of the opposite side posted at `price`.
pub open spec fn crosses(side: Side, limit: u64, price: u64) -> bool {
    match side {
        Side::Bid => price <= limit,
        Side::Ask => price >= limit,
    }
}

fn beats(side: Side, a: u64, b: u64) -> (r: bool)
    ensures
        r == ahead(side, a, b),
{
    match side {
        Side::Bid => a > b,
        Side::Ask => a < b,
    }
}

/// A resting level at `level` lies beyond the limit `limit` of an aggressive
/// order of `side`: matching stops there.
fn is_deeper(level: u64, limit: u64, side: Side) -> (r: bool)
    ensures
        r == !crosses(side, limit, level),
{
    match side {
        Side::Bid => level > limit,
        Side::Ask => level < limit,
    }
}

/// Relies on `std::time::SystemTime::now`: the time is read from the system clock,
/// so nothing is known of the value (nanoseconds since the Unix epoch, or zero
/// for a clock set before it).
#[verifier::external_body]
pub fn get_current_timestamp() -> (r: u128) {
    std::time::SystemTime::now()
        .duration_since(std::time::UNIX_EPOCH)
        .unwrap_or_default()
        .as_nanos()
}

/// A market participant. Orders refer to their client by its identifier.
#[derive(Clone, Copy, Debug)]
pub struct Client {
    id: u64,
}

impl Client {
    pub closed spec fn spec_id(&self) -> u64 {
        self.id
    }

    pub fn new(ids: &mut IdSequence) -> (r: Client)
        requires
            old(ids).next_client() < u64::MAX,
        ensures
            r.id() == old(ids).next_client(),
            final(ids).next_client() == old(ids).next_client() + 1,
            final(ids).next_order() == old(ids).next_order(),
            final(ids).next_trade() == old(ids).next_trade(),
    {
        Client { id: ids.next_client_id() }
    }

    #[verifier::when_used_as_spec(spec_id)]
    pub fn id(&self) -> (r: u64)
        ensures
            r == self.spec_id(),
    {
        self.id
    }
}

/// A limit order: `size` units at `price` ticks or better.
#[derive(Clone, Copy, Debug)]
pub struct Order {
    id: u64,
    side: Side,
    price: u64,
    size: u64,
    client: u64,
    timestamp: u128,
}

impl Order {
    pub closed spec fn spec_id(&self) -> u64 {
        self.id
    }

    pub closed spec fn spec_side(&self) -> Side {
        self.side
    }

    pub closed spec fn spec_price(&self) -> u64 {
        self.price
    }

    pub closed spec fn spec_size(&self) -> u64 {
        self.size
    }

    pub closed spec fn spec_client(&self) -> u64 {
        self.client
    }

    /// The same order with `size` units left.
    pub closed spec fn with_size(self, size: u64) -> Order {
        Order { size, ..self }
    }

    /// The order with a new size differs from it in the size alone.
    pub proof fn lemma_with_size(self, size: u64)
        ensures
            self.with_size(size).id() == self.id(),
            self.with_size(size).side() == self.side(),
            self.with_size(size).price() == self.price(),
            self.with_size(size).size() == size,
            self.with_size(size).client_id() == self.client_id(),
            size == self.size() ==> self.with_size(size) == self,
    {
    }

    pub fn new(side: Side, price: u64, size: u64, client: &Client, ids: &mut IdSequence) -> (r: Order)
        requires
            old(ids).next_order() < u64::MAX,
        ensures
            r.id() == old(ids).next_order(),
            r.side() == side,
            r.price() == price,
            r.size() == size,
            r.client_id() == client.id(),
            final(ids).next_order() == old(ids).next_order() + 1,
            final(ids).next_client() == old(ids).next_client(),
            final(ids).next_trade() == old(ids).next_trade(),
    {
        let id = ids.next_order_id();
        Order { id, side, price, size, client: client.id, timestamp: get_current_timestamp() }
    }

    #[verifier::when_used_as_spec(spec_id)]
    pub fn id(&self) -> (r: u64)
        ensures
            r == self.spec_id(),
    {
        self.id
    }

    #[verifier::when_used_as_spec(spec_side)]
    pub fn side(&self) -> (r: Side)
        ensures
            r == self.spec_side(),
    {
        self.side
    }

    #[verifier::when_used_as_spec(spec_price)]
    pub fn price(&self) -> (r: u64)
        ensures
            r == self.spec_price(),
    {
        self.price
    }

    #[verifier::when_used_as_spec(spec_size)]
    pub fn size(&self) -> (r: u64)
        ensures
            r == self.spec_size(),
    {
        self.size
    }

    #[verifier::when_used_as_spec(spec_client)]
    pub fn client_id(&self) -> (r: u64)
        ensures
            r == self.spec_client(),
    {
        self.client
    }

    pub fn timestamp(&self) -> (r: u128) {
        self.timestamp
    }
}

/// An execution: `size` units changed hands at the resting order's `price`.
#[derive(Clone, Copy, Debug)]
pub struct Trade {
    id: u64,
    price: u64,
    size: u64,
    timestamp: u128,
}

impl Trade {
    pub closed spec fn spec_id(&self) -> u64 {
        self.id
    }

    pub closed spec fn spec_price(&self) -> u64 {
        self.price
    }

    pub closed spec fn spec_size(&self) -> u64 {
        self.size
    }

    pub fn new(price: u64, size: u64, ids: &mut IdSequence) -> (r: Trade)
        requires
            old(ids).next_trade() < u64::MAX,
        ensures
            r.id() == old(ids).next_trade(),
            r.price() == price,
            r.size() == size,
            final(ids).next_trade() == old(ids).next_trade() + 1,
            final(ids).next_client() == old(ids).next_client(),
            final(ids).next_order() == old(ids).next_order(),
    {
        let id = ids.next_trade_id();
        Trade { id, price, size, timestamp: get_current_timestamp() }
    }

    #[verifier::when_used_as_spec(spec_id)]
    pub fn id(&self) -> (r: u64)
        ensures
            r == self.spec_id(),
    {
        self.id
    }

    #[verifier::when_used_as_spec(spec_price)]
    pub fn price(&self) -> (r: u64)
        ensures
            r == self.spec_price(),
    {
        self.price
    }

    #[verifier::when_used_as_spec(spec_size)]
    pub fn size(&self) -> (r: u64)
        ensures
            r == self.spec_size(),
    {
        self.size
    }

    pub fn timestamp(&self) -> (r: u128) {
        self.timestamp
    }
}

/// The (price, size) of each trade, in order.
pub open spec fn terms(trades: Seq<Trade>) -> Seq<(u64, u64)> {
    trades.map_values(|t: Trade| (t.price(), t.size()))
}

/// rustc_hash's hasher builder, the hashing of the lookup table.
#[verifier::external_type_specification]
#[verifier::external_body]
pub struct ExFxBuildHasher(FxBuildHasher);

/// Relies on `HashMap::insert` (with rustc_hash's `FxBuildHasher`): the key is
/// mapped to the value, every other entry stays.
#[verifier::external_body]
fn index_insert(m: &mut HashMap<u64, (Side, u64), FxBuildHasher>, k: u64, v: (Side, u64))
    ensures
        final(m)@ == old(m)@.insert(k, v),
{
    m.insert(k, v);
}

/// Relies on `HashMap::remove` (with rustc_hash's `FxBuildHasher`): the entry of
/// the key leaves the map and its value is returned.
#[verifier::external_body]
fn index_remove(m: &mut HashMap<u64, (Side, u64), FxBuildHasher>, k: u64) -> (r: Option<(Side, u64)>)
    ensures
        final(m)@ == old(m)@.remove(k),
        r == (if old(m)@.contains_key(k) { Some(old(m)@[k]) } else { None::<(Side, u64)> }),
{
    m.remove(&k)
}

/// Relies on `HashMap::contains_key` (with rustc_hash's `FxBuildHasher`).
#[verifier::external_body]
fn index_contains(m: &HashMap<u64, (Side, u64), FxBuildHasher>, k: u64) -> (r: bool)
    ensures
        r == m@.contains_key(k),
{
    m.contains_key(&k)
}

/// A well-formed ladder of `side`: every order belongs to the side, has a
/// positive price and size, no order has better priority than one before it,
/// and no identifier occurs twice.
pub open spec fn ladder_ok(side: Side, q: Seq<Order>) -> bool {
    &&& forall|i: int|
        #![trigger q[i]]
        0 <= i < q.len() ==> q[i].side() == side && q[i].size() > 0 && q[i].price() > 0
    &&& forall|i: int, j: int| 0 <= i < j < q.len() ==> !ahead(side, #[trigger] q[j].price(), #[trigger] q[i].price())
    &&& forall|i: int, j: int| 0 <= i < j < q.len() ==> #[trigger] q[i].id() != #[trigger] q[j].id()
}

/// Some order of `q` has identifier `id`.
pub open spec fn holds(q: Seq<Order>, id: u64) -> bool {
    exists|i: int| 0 <= i < q.len() && #[trigger] q[i].id() == id
}

/// Every order of `q` is recorded in `m` with its side and price.
pub open spec fn indexed(side: Side, q: Seq<Order>, m: Map<u64, (Side, u64)>) -> bool {
    forall|i: int|
        0 <= i < q.len() ==> m.contains_key(#[trigger] q[i].id()) && m[q[i].id()] == (side, q[i].price())
}

/// Where an order of `side` at `price` goes in the ladder `q`: after every
/// order that it does not beat, that is at the back of its price level.
pub open spec fn slot(side: Side, q: Seq<Order>, price: u64) -> int
    decreases q.len(),
{
    if q.len() == 0 {
        0
    } else if ahead(side, price, q.last().price()) {
        slot(side, q.drop_last(), price)
    } else {
        q.len() as int
    }
}

/// The ladder `q` after the order `o` came to rest in it.
pub open spec fn rest_in(side: Side, q: Seq<Order>, o: Order) -> Seq<Order> {
    q.insert(slot(side, q, o.price()), o)
}

/// Total size of the orders of `q` posted at `price`.
pub open spec fn level_size(q: Seq<Order>, price: u64) -> nat
    decreases q.len(),
{
    if q.len() == 0 {
        0
    } else {
        level_size(q.drop_last(), price) + if q.last().price() == price {
            q.last().size() as nat
        } else {
            0
        }
    }
}

/// Matching an aggressive order of `side`, limit `limit` and `size` units
/// against the opposite ladder `q`, best first: the ladder left behind, the
/// (price, size) of each trade in order, and the size left unfilled.
pub open spec fn fill(q: Seq<Order>, side: Side, limit: u64, size: u64) -> (Seq<Order>, Seq<(u64, u64)>, u64)
    decreases q.len(),
{
    if size == 0 || q.len() == 0 || !crosses(side, limit, q[0].price()) {
        (q, Seq::empty(), size)
    } else if q[0].size() <= size {
        let rest = fill(q.drop_first(), side, limit, (size - q[0].size()) as u64);
        (rest.0, seq![(q[0].price(), q[0].size())] + rest.1, rest.2)
    } else {
        (q.update(0, q[0].with_size((q[0].size() - size) as u64)), seq![(q[0].price(), size)], 0)
    }
}

/// The identifiers of the first `n` orders of `q`.
pub open spec fn ids_before(q: Seq<Order>, n: int) -> Set<u64> {
    Set::new(|id: u64| exists|j: int| 0 <= j < n && #[trigger] q[j].id() == id)
}

/// Puts `o` at the back of its price level in the ladder `q`.
fn rest_order(q: &mut Vec<Order>, o: Order)
    requires
        ladder_ok(o.side(), old(q)@),
        o.size() > 0,
        o.price() > 0,
        !holds(old(q)@, o.id()),
    ensures
        final(q)@ == rest_in(o.side(), old(q)@, o),
        ladder_ok(o.side(), final(q)@),
        0 <= slot(o.side(), old(q)@, o.price()) <= old(q)@.len(),
{
    let ghost q0 = q@;
    let ghost side = o.side;
    let mut pos: usize = q.len();
    assert(q0.take(pos as int) =~= q0);
    while pos > 0 && beats(o.side, o.price, q[pos - 1].price)
        invariant
            pos <= q@.len(),
            q@ == q0,
            side == o.side(),
            slot(side, q0, o.price()) == slot(side, q0.take(pos as int), o.price()),
            forall|j: int| pos <= j < q0.len() ==> ahead(side, o.price(), #[trigger] q0[j].price()),
        decreases pos,
    {
        assert(q0.take(pos as int).drop_last() =~= q0.take(pos - 1));
        pos = pos - 1;
    }
    proof {
        if pos > 0 {
            assert(q0.take(pos as int).last() == q0[pos - 1]);
        }
        assert(slot(side, q0, o.price()) == pos);
    }
    q.insert(pos, o);
    proof {
        let q1 = q@;
        assert(q1 == q0.insert(pos as int, o));
        assert forall|i: int, j: int| 0 <= i < j < q1.len() implies !ahead(side, #[trigger] q1[j].price(), #[trigger] q1[i].price()) by {
            if j == pos {
                if i < pos - 1 {
                    assert(!ahead(side, q0[pos - 1].price(), q0[i].price()));
                }
            } else if i == pos {
                assert(ahead(side, o.price(), q0[j - 1].price()));
            } else if i < pos && j > pos {
                assert(!ahead(side, q0[j - 1].price(), q0[i].price()));
            } else if i > pos {
                assert(!ahead(side, q0[j - 1].price(), q0[i - 1].price()));
            }
        }
        assert forall|i: int, j: int| 0 <= i < j < q1.len() implies #[trigger] q1[i].id() != #[trigger] q1[j].id() by {
            if i == pos {
                assert(q1[j] == q0[j - 1]);
            } else if j == pos {
                assert(q1[i] == q0[i]);
            }
        }
    }
}

proof fn lemma_skip_ok(side: Side, q: Seq<Order>, n: int)
    requires
        ladder_ok(side, q),
        0 <= n <= q.len(),
    ensures
        ladder_ok(side, q.skip(n)),
{
    let r = q.skip(n);
    assert forall|i: int, j: int| 0 <= i < j < r.len() implies !ahead(side, #[trigger] r[j].price(), #[trigger] r[i].price()) by {
        assert(r[i] == q[i + n] && r[j] == q[j + n]);
    }
    assert forall|i: int, j: int| 0 <= i < j < r.len() implies #[trigger] r[i].id() != #[trigger] r[j].id() by {
        assert(r[i] == q[i + n] && r[j] == q[j + n]);
    }
    assert forall|i: int| #![trigger r[i]] 0 <= i < r.len() implies r[i].side() == side && r[i].size() > 0 && r[i].price() > 0 by {
        assert(r[i] == q[i + n]);
    }
}

proof fn lemma_shrink_ok(side: Side, q: Seq<Order>, n: int, size: u64)
    requires
        ladder_ok(side, q),
        0 <= n < q.len(),
        size > 0,
    ensures
        ladder_ok(side, q.update(n, q[n].with_size(size))),
{
    let r = q.update(n, q[n].with_size(size));
    assert forall|i: int, j: int| 0 <= i < j < r.len() implies !ahead(side, #[trigger] r[j].price(), #[trigger] r[i].price()) by {
        assert(r[i].price() == q[i].price() && r[j].price() == q[j].price());
    }
    assert forall|i: int, j: int| 0 <= i < j < r.len() implies #[trigger] r[i].id() != #[trigger] r[j].id() by {
        assert(r[i].id() == q[i].id() && r[j].id() == q[j].id());
    }
    assert forall|i: int| #![trigger r[i]] 0 <= i < r.len() implies r[i].side() == side && r[i].size() > 0 && r[i].price() > 0 by {
        assert(r[i].side() == q[i].side() && r[i].price() == q[i].price());
    }
}

proof fn lemma_slot_bounds(side: Side, q: Seq<Order>, price: u64)
    ensures
        0 <= slot(side, q, price) <= q.len(),
    decreases q.len(),
{
    if q.len() > 0 {
        lemma_slot_bounds(side, q.drop_last(), price);
    }
}

/// The front of a ladder after an order came to rest is that order or the
/// former front.
proof fn lemma_rest_front(side: Side, q: Seq<Order>, o: Order)
    ensures
        rest_in(side, q, o)[0] == o || (q.len() > 0 && rest_in(side, q, o)[0] == q[0]),
{
    lemma_slot_bounds(side, q, o.price());
}

/// The trades are numbered consecutively from `first`.
pub open spec fn numbered(trades: Seq<Trade>, first: u64) -> bool {
    forall|k: int| 0 <= k < trades.len() ==> #[trigger] trades[k].id() == first + k
}

/// Takes the order with identifier `id` out of `q`; returns where it stood.
fn remove_id(q: &mut Vec<Order>, id: u64) -> (r: usize)
    requires
        holds(old(q)@, id),
    ensures
        r < old(q)@.len(),
        old(q)@[r as int].id() == id,
        final(q)@ == old(q)@.remove(r as int),
{
    let mut i: usize = 0;
    while i < q.len() && q[i].id != id
        invariant
            q@ == old(q)@,
            i <= q@.len(),
            exists|j: int| i <= j < q@.len() && #[trigger] q@[j].id() == id,
        decreases q@.len() - i,
    {
        i = i + 1;
    }
    proof {
        if i == q@.len() {
            let j = choose|j: int| i <= j < q@.len() && #[trigger] q@[j].id() == id;
        }
    }
    q.remove(i);
    i
}

proof fn lemma_remove_ok(side: Side, q: Seq<Order>, n: int)
    requires
        ladder_ok(side, q),
        0 <= n < q.len(),
    ensures
        ladder_ok(side, q.remove(n)),
{
    let r = q.remove(n);
    assert forall|i: int, j: int| 0 <= i < j < r.len() implies !ahead(side, #[trigger] r[j].price(), #[trigger] r[i].price()) by {
        let a = if i < n { i } else { i + 1 };
        let b = if j < n { j } else { j + 1 };
        assert(r[i] == q[a] && r[j] == q[b]);
    }
    assert forall|i: int, j: int| 0 <= i < j < r.len() implies #[trigger] r[i].id() != #[trigger] r[j].id() by {
        let a = if i < n { i } else { i + 1 };
        let b = if j < n { j } else { j + 1 };
        assert(r[i] == q[a] && r[j] == q[b]);
    }
    assert forall|i: int| #![trigger r[i]] 0 <= i < r.len() implies r[i].side() == side && r[i].size() > 0 && r[i].price() > 0 by {
        let a = if i < n { i } else { i + 1 };
        assert(r[i] == q[a]);
    }
}

/// Matches an aggressive order of `side`, limit `limit` and `size` units
/// against the opposite ladder `q`, best first, and drops the identifiers of
/// the orders that it fills in full from `index`. Returns the trades and the
/// size left unfilled.
#[verifier::rlimit(50)]
fn match_order(
    q: &mut Vec<Order>,
    index: &mut HashMap<u64, (Side, u64), FxBuildHasher>,
    side: Side,
    limit: u64,
    size: u64,
    ids: &mut IdSequence,
) -> (r: (Vec<Trade>, u64))
    requires
        ladder_ok(opposite(side), old(q)@),
        old(ids).next_trade() + size <= u64::MAX,
    ensures
        final(q)@ == fill(old(q)@, side, limit, size).0,
        terms(r.0@) == fill(old(q)@, side, limit, size).1,
        r.1 == fill(old(q)@, side, limit, size).2,
        r.1 <= size,
        ladder_ok(opposite(side), final(q)@),
        final(q)@.len() <= old(q)@.len(),
        final(index)@ == old(index)@.remove_keys(ids_before(old(q)@, old(q)@.len() - final(q)@.len())),
        forall|k: int|
            0 <= k < final(q)@.len() ==> #[trigger] final(q)@[k].id() == old(q)@[k + old(q)@.len()
                - final(q)@.len()].id() && final(q)@[k].price() == old(q)@[k + old(q)@.len()
                - final(q)@.len()].price(),
        r.1 > 0 ==> final(q)@.len() == 0 || !crosses(side, limit, final(q)@[0].price()),
        forall|k: int| 0 <= k < r.0@.len() ==> #[trigger] r.0@[k].id() == old(ids).next_trade() + k,
        final(ids).next_trade() == old(ids).next_trade() + r.0@.len(),
        final(ids).next_client() == old(ids).next_client(),
        final(ids).next_order() == old(ids).next_order(),
{
    let ghost q0 = q@;
    let ghost m0 = index@;
    let ghost t0 = ids.next_trade();
    let mut trades: Vec<Trade> = Vec::new();
    let mut left: u64 = size;
    let mut done: usize = 0;
    assert(q0.skip(0) =~= q0);
    assert(terms(trades@) =~= Seq::empty());
    assert(ids_before(q0, 0) =~= Set::empty());
    assert(m0.remove_keys(Set::empty()) =~= m0);
    while done < q.len() && left > 0 && !is_deeper(q[done].price, limit, side) && q[done].size <= left
        invariant
            q@ == q0,
            done <= q0.len(),
            ladder_ok(opposite(side), q0),
            left <= size,
            trades@.len() <= size - left,
            t0 + size <= u64::MAX,
            ids.next_trade() == t0 + trades@.len(),
            ids.next_client() == old(ids).next_client(),
            ids.next_order() == old(ids).next_order(),
            t0 == old(ids).next_trade(),
            forall|k: int| 0 <= k < trades@.len() ==> #[trigger] trades@[k].id() == t0 + k,
            fill(q0, side, limit, size) == ({
                let f = fill(q0.skip(done as int), side, limit, left);
                (f.0, terms(trades@) + f.1, f.2)
            }),
            index@ == m0.remove_keys(ids_before(q0, done as int)),
        decreases q0.len() - done,
    {
        let o = q[done];
        let ghost before = trades@;
        proof {
            assert(q0.skip(done as int).drop_first() =~= q0.skip(done + 1));
            assert(q0.skip(done as int)[0] == o);
            assert(q0[done as int].size() > 0);
        }
        let t = Trade::new(o.price, o.size, ids);
        trades.push(t);
        index_remove(index, o.id);
        left = left - o.size;
        done = done + 1;
        proof {
            let f = fill(q0.skip(done as int), side, limit, left);
            assert(terms(trades@) =~= terms(before) + seq![(o.price(), o.size())]);
            assert(terms(trades@) + f.1 =~= terms(before) + (seq![(o.price(), o.size())] + f.1));
            assert(ids_before(q0, done as int) =~= ids_before(q0, done - 1).insert(o.id()));
            assert(m0.remove_keys(ids_before(q0, done - 1)).remove(o.id()) =~= m0.remove_keys(
                ids_before(q0, done as int),
            ));
        }
    }
    let ghost before = trades@;
    if done < q.len() && left > 0 && !is_deeper(q[done].price, limit, side) {
        let o = q[done];
        let t = Trade::new(o.price, left, ids);
        trades.push(t);
        let rested = Order { size: o.size - left, ..o };
        q.set(done, rested);
        proof {
            assert(rested == o.with_size((o.size() - left) as u64));
            lemma_shrink_ok(opposite(side), q0, done as int, (o.size() - left) as u64);
            assert(q0.skip(done as int)[0] == o);
            assert(q0.skip(done as int).update(0, rested) =~= q@.skip(done as int));
            assert(terms(trades@) =~= terms(before) + seq![(o.price(), left)]);
        }
        left = 0;
    } else {
        proof {
            assert(terms(before) + Seq::empty() =~= terms(before));
        }
    }
    let ghost q1 = q@;
    let tail = q.split_off(done);
    *q = tail;
    proof {
        assert(q@ =~= q1.skip(done as int));
        lemma_skip_ok(opposite(side), q1, done as int);
    }
    (trades, left)
}

#[derive(Clone, Copy, Debug, PartialEq, Eq, Structural)]
pub enum BookError {
    /// The order's price or size is not positive.
    InvalidOrder,
    /// No resting order has the identifier.
    OrderNotFound,
}

pub enum OrderBookResult {
    /// The order rests in the book under this identifier, without trades.
    OrderId(u64),
    /// The order was filled in full by these trades.
    Trades(Vec<Trade>),
    /// The order traded and its remainder rests under this identifier.
    OrderIdTrades(u64, Vec<Trade>),
    Error(BookError),
    Canceled,
}

/// A two-sided book. Each side keeps its resting orders in priority order,
/// best price first and, within a price, in order of arrival; `lookup` maps
/// the identifier of each resting order to its side and price.
pub struct OrderBook {
    bids: Vec<Order>,
    asks: Vec<Order>,
    lookup: HashMap<u64, (Side, u64), FxBuildHasher>,
}

impl OrderBook {
    /// The resting orders of `side`, in priority order.
    pub closed spec fn queue(&self, side: Side) -> Seq<Order> {
        match side {
            Side::Bid => self.bids@,
            Side::Ask => self.asks@,
        }
    }

    /// The lookup table: identifier to (side, price).
    pub closed spec fn index(&self) -> Map<u64, (Side, u64)> {
        self.lookup@
    }

    pub open spec fn has_order(&self, id: u64) -> bool {
        self.index().contains_key(id)
    }

    pub open spec fn index_ok(&self) -> bool {
        &&& indexed(Side::Bid, self.queue(Side::Bid), self.index())
        &&& indexed(Side::Ask, self.queue(Side::Ask), self.index())
        &&& forall|id: u64| #[trigger]
            self.index().contains_key(id) ==> holds(self.queue(self.index()[id].0), id)
    }

    /// The best bid is below the best ask whenever both sides hold orders.
    pub open spec fn uncrossed(&self) -> bool {
        self.queue(Side::Bid).len() > 0 && self.queue(Side::Ask).len() > 0
            ==> self.queue(Side::Bid)[0].price() < self.queue(Side::Ask)[0].price()
    }

    /// The book's invariant: both ladders are well formed, the lookup table
    /// agrees with them, and the book is not crossed.
    pub open spec fn wf(&self) -> bool {
        &&& ladder_ok(Side::Bid, self.queue(Side::Bid))
        &&& ladder_ok(Side::Ask, self.queue(Side::Ask))
        &&& self.index_ok()
        &&& self.uncrossed()
    }

    pub fn new() -> (r: OrderBook)
        ensures
            r.wf(),
            r.queue(Side::Bid).len() == 0,
            r.queue(Side::Ask).len() == 0,
            r.index() == Map::<u64, (Side, u64)>::empty(),
    {
        OrderBook { bids: Vec::new(), asks: Vec::new(), lookup: HashMap::default() }
    }

    /// An order is accepted only with a positive price and size.
    fn validate_order(order: &Order) -> (r: Result<(), BookError>)
        ensures
            r matches Ok(_) <==> order.size() > 0 && order.price() > 0,
            r matches Err(e) ==> e == BookError::InvalidOrder,
    {
        if order.size > 0 && order.price > 0 {
            Ok(())
        } else {
            Err(BookError::InvalidOrder)
        }
    }

    fn get_ladder(&self, side: Side) -> (r: &Vec<Order>)
        ensures
            r@ == self.queue(side),
    {
        match side {
            Side::Bid => &self.bids,
            Side::Ask => &self.asks,
        }
    }

    /// Rests `order` in its ladder and records it in the lookup table.
    #[verifier::rlimit(40)]
    fn place_passive(&mut self, order: Order) -> (r: u64)
        requires
            ladder_ok(Side::Bid, old(self).queue(Side::Bid)),
            ladder_ok(Side::Ask, old(self).queue(Side::Ask)),
            old(self).index_ok(),
            !old(self).has_order(order.id()),
            order.size() > 0,
            order.price() > 0,
        ensures
            r == order.id(),
            final(self).queue(order.side()) == rest_in(order.side(), old(self).queue(order.side()), order),
            final(self).queue(opposite(order.side())) == old(self).queue(opposite(order.side())),
            final(self).index() == old(self).index().insert(order.id(), (order.side(), order.price())),
            ladder_ok(Side::Bid, final(self).queue(Side::Bid)),
            ladder_ok(Side::Ask, final(self).queue(Side::Ask)),
            final(self).index_ok(),
    {
        let id = order.id;
        let ghost side = order.side;
        let ghost old_book = *self;
        let ghost q0 = self.queue(side);
        proof {
            assert(!holds(q0, id)) by {
                if holds(q0, id) {
                    let i = choose|i: int| 0 <= i < q0.len() && #[trigger] q0[i].id() == id;
                    assert(old_book.index().contains_key(q0[i].id()));
                }
            }
        }
        index_insert(&mut self.lookup, id, (order.side, order.price));
        match order.side {
            Side::Bid => rest_order(&mut self.bids, order),
            Side::Ask => rest_order(&mut self.asks, order),
        }
        proof {
            let p = slot(side, q0, order.price());
            let q1 = self.queue(side);
            let m0 = old_book.index();
            let m1 = self.index();
            assert(q1 == q0.insert(p, order));
            assert forall|i: int| 0 <= i < q1.len() implies m1.contains_key(#[trigger] q1[i].id())
                && m1[q1[i].id()] == (side, q1[i].price()) by {
                if i < p {
                    assert(q1[i] == q0[i]);
                    assert(m0.contains_key(q0[i].id()));
                } else if i > p {
                    assert(q1[i] == q0[i - 1]);
                    assert(m0.contains_key(q0[i - 1].id()));
                }
            }
            let oq = old_book.queue(opposite(side));
            assert forall|i: int| 0 <= i < oq.len() implies m1.contains_key(#[trigger] oq[i].id())
                && m1[oq[i].id()] == (opposite(side), oq[i].price()) by {
                assert(m0.contains_key(oq[i].id()));
            }
            assert(indexed(side, q1, m1));
            assert(indexed(opposite(side), oq, m1));
            assert(indexed(Side::Bid, self.queue(Side::Bid), m1));
            assert(indexed(Side::Ask, self.queue(Side::Ask), m1));
            assert forall|k: u64| #[trigger] m1.contains_key(k) implies holds(self.queue(m1[k].0), k) by {
                if k == id {
                    assert(q1[p].id() == k);
                } else {
                    assert(m0.contains_key(k));
                    let s = m0[k].0;
                    let j = choose|j: int| 0 <= j < old_book.queue(s).len() && #[trigger] old_book.queue(s)[j].id() == k;
                    if s == side {
                        if j < p {
                            assert(q1[j] == q0[j]);
                        } else {
                            assert(q1[j + 1] == q0[j]);
                        }
                    } else {
                        assert(self.queue(s)[j].id() == k);
                    }
                }
            }
        }
        id
    }

    /// The order cannot trade at once: the other side is empty, or its best
    /// price does not cross the order's limit.
    fn is_passive(&self, order: &Order) -> (r: bool)
        ensures
            r == (self.queue(opposite(order.side())).len() == 0 || !crosses(
                order.side(),
                order.price(),
                self.queue(opposite(order.side()))[0].price(),
            )),
    {
        let other = match order.side {
            Side::Bid => Side::Ask,
            Side::Ask => Side::Bid,
        };
        match Self::best_price(self.get_ladder(other)) {
            None => true,
            Some(best) => is_deeper(best, order.price, order.side),
        }
    }

    /// Submits an order. An order with a price or size of zero is refused and
    /// the book is left as it was. Otherwise the order trades against the other
    /// side, best price first and in order of arrival within a price, as long
    /// as the prices cross; each trade is at the resting order's price. What is
    /// left of the order then rests at the back of its price level.
    #[verifier::rlimit(30)]
    pub fn insert(&mut self, order: Order, ids: &mut IdSequence) -> (r: OrderBookResult)
        requires
            old(self).wf(),
            !old(self).has_order(order.id()),
            old(ids).next_trade() + order.size() <= u64::MAX,
        ensures
            final(self).wf(),
            final(ids).next_client() == old(ids).next_client(),
            final(ids).next_order() == old(ids).next_order(),
            order.size() == 0 || order.price() == 0 ==> {
                &&& r matches OrderBookResult::Error(BookError::InvalidOrder)
                &&& *final(self) == *old(self)
                &&& *final(ids) == *old(ids)
            },
            order.size() > 0 && order.price() > 0 ==> ({
                let side = order.side();
                let f = fill(old(self).queue(opposite(side)), side, order.price(), order.size());
                &&& final(self).queue(opposite(side)) == f.0
                &&& final(self).queue(side) == (if f.2 > 0 {
                    rest_in(side, old(self).queue(side), order.with_size(f.2))
                } else {
                    old(self).queue(side)
                })
                &&& final(ids).next_trade() == old(ids).next_trade() + f.1.len()
                &&& match r {
                    OrderBookResult::OrderId(id) => id == order.id() && f.1.len() == 0 && f.2
                        == order.size(),
                    OrderBookResult::Trades(t) => terms(t@) == f.1 && numbered(t@, old(ids).next_trade())
                        && f.1.len() > 0 && f.2 == 0,
                    OrderBookResult::OrderIdTrades(id, t) => id == order.id() && terms(t@) == f.1
                        && numbered(t@, old(ids).next_trade()) && f.1.len() > 0 && f.2 > 0,
                    _ => false,
                }
            }),
    {
        if let Err(e) = Self::validate_order(&order) {
            return OrderBookResult::Error(e);
        }
        let ghost side = order.side;
        let ghost b0 = *self;
        if self.is_passive(&order) {
            let id = self.place_passive(order);
            proof {
                assert(order.with_size(order.size()) == order);
                lemma_rest_front(side, b0.queue(side), order);
            }
            return OrderBookResult::OrderId(id);
        }
        let (trades, left) = match order.side {
            Side::Bid => match_order(&mut self.asks, &mut self.lookup, Side::Bid, order.price, order.size, ids),
            Side::Ask => match_order(&mut self.bids, &mut self.lookup, Side::Ask, order.price, order.size, ids),
        };
        proof {
            self.lemma_after_match(b0, side, order.price(), order.size());
        }
        if left == 0 {
            OrderBookResult::Trades(trades)
        } else {
            let rest = Order { size: left, ..order };
            let ghost b1 = *self;
            let id = self.place_passive(rest);
            proof {
                assert(rest == order.with_size(left));
                lemma_rest_front(side, b1.queue(side), rest);
            }
            OrderBookResult::OrderIdTrades(id, trades)
        }
    }

    /// The book right after matching an order of `side` against `old`:
    /// the lookup table still agrees with both ladders and the book is not
    /// crossed.
    #[verifier::rlimit(30)]
    proof fn lemma_after_match(self, old: OrderBook, side: Side, limit: u64, size: u64)
        requires
            old.wf(),
            size > 0,
            self.queue(side) == old.queue(side),
            self.queue(opposite(side)) == fill(old.queue(opposite(side)), side, limit, size).0,
            ladder_ok(opposite(side), self.queue(opposite(side))),
            self.queue(opposite(side)).len() <= old.queue(opposite(side)).len(),
            self.index() == old.index().remove_keys(
                ids_before(
                    old.queue(opposite(side)),
                    old.queue(opposite(side)).len() - self.queue(opposite(side)).len(),
                ),
            ),
            forall|k: int|
                0 <= k < self.queue(opposite(side)).len() ==> #[trigger] self.queue(opposite(side))[k].id()
                    == old.queue(opposite(side))[k + old.queue(opposite(side)).len() - self.queue(
                    opposite(side),
                ).len()].id() && self.queue(opposite(side))[k].price() == old.queue(
                    opposite(side),
                )[k + old.queue(opposite(side)).len() - self.queue(opposite(side)).len()].price(),
        ensures
            self.wf(),
    {
        let q0 = old.queue(opposite(side));
        let q1 = self.queue(opposite(side));
        let qs = self.queue(side);
        let d = q0.len() - q1.len();
        let m0 = old.index();
        let m1 = self.index();
        let gone = ids_before(q0, d);
        assert forall|k: int| 0 <= k < q1.len() implies m1.contains_key(#[trigger] q1[k].id()) && m1[q1[k].id()]
            == (opposite(side), q1[k].price()) by {
            assert(q1[k].id() == q0[k + d].id());
            assert(m0.contains_key(q0[k + d].id()));
            if gone.contains(q1[k].id()) {
                let j = choose|j: int| 0 <= j < d && #[trigger] q0[j].id() == q1[k].id();
                assert(q0[j].id() != q0[k + d].id());
            }
        }
        assert forall|k: int| 0 <= k < qs.len() implies m1.contains_key(#[trigger] qs[k].id()) && m1[qs[k].id()]
            == (side, qs[k].price()) by {
            assert(m0.contains_key(qs[k].id()));
            if gone.contains(qs[k].id()) {
                let j = choose|j: int| 0 <= j < d && #[trigger] q0[j].id() == qs[k].id();
                assert(m0.contains_key(q0[j].id()));
            }
        }
        assert(indexed(side, qs, m1));
        assert(indexed(opposite(side), q1, m1));
        assert(indexed(Side::Bid, self.queue(Side::Bid), m1));
        assert(indexed(Side::Ask, self.queue(Side::Ask), m1));
        assert forall|id: u64| #[trigger] m1.contains_key(id) implies holds(self.queue(m1[id].0), id) by {
            assert(m0.contains_key(id));
            let s = m0[id].0;
            let j = choose|j: int| 0 <= j < old.queue(s).len() && #[trigger] old.queue(s)[j].id() == id;
            if s != side {
                assert(s == opposite(side));
                if j < d {
                    assert(gone.contains(id));
                } else {
                    assert(q1[j - d].id() == id);
                }
            }
        }
        assert(self.index_ok());
        if q1.len() > 0 {
            assert(q1[0].id() == q0[d].id());
            assert(q1[0].price() == q0[d].price());
            if d > 0 {
                assert(!ahead(opposite(side), q0[d].price(), q0[0].price()));
            }
        }
        match side {
            Side::Bid => assert(self.uncrossed()),
            Side::Ask => assert(self.uncrossed()),
        }
    }

    /// Cancels the resting order `order_id`. An identifier that is not in the
    /// book gives `OrderNotFound` and leaves the book as it was; otherwise the
    /// order leaves its ladder and the lookup table, the other orders keep
    /// their places.
    #[verifier::rlimit(30)]
    pub fn cancel(&mut self, order_id: u64) -> (r: OrderBookResult)
        requires
            old(self).wf(),
        ensures
            final(self).wf(),
            !old(self).has_order(order_id) ==> {
                &&& r matches OrderBookResult::Error(BookError::OrderNotFound)
                &&& *final(self) == *old(self)
            },
            old(self).has_order(order_id) ==> ({
                let side = old(self).index()[order_id].0;
                &&& r matches OrderBookResult::Canceled
                &&& final(self).index() == old(self).index().remove(order_id)
                &&& final(self).queue(opposite(side)) == old(self).queue(opposite(side))
                &&& exists|i: int|
                    0 <= i < old(self).queue(side).len() && #[trigger] old(self).queue(side)[i].id()
                        == order_id && final(self).queue(side) == old(self).queue(side).remove(i)
            }),
    {
        if !index_contains(&self.lookup, order_id) {
            return OrderBookResult::Error(BookError::OrderNotFound);
        }
        let ghost b0 = *self;
        let entry = index_remove(&mut self.lookup, order_id);
        if let Some((side, _price)) = entry {
            let i = match side {
                Side::Bid => remove_id(&mut self.bids, order_id),
                Side::Ask => remove_id(&mut self.asks, order_id),
            };
            proof {
                self.lemma_after_remove(b0, side, order_id, i as int);
            }
        }
        OrderBookResult::Canceled
    }

    /// The book right after the order `id` left the ladder of `side`, where it
    /// stood at position `n`, and the lookup table.
    #[verifier::rlimit(30)]
    proof fn lemma_after_remove(self, old: OrderBook, side: Side, id: u64, n: int)
        requires
            old.wf(),
            old.has_order(id),
            old.index()[id].0 == side,
            0 <= n < old.queue(side).len(),
            old.queue(side)[n].id() == id,
            self.queue(side) == old.queue(side).remove(n),
            self.queue(opposite(side)) == old.queue(opposite(side)),
            self.index() == old.index().remove(id),
        ensures
            self.wf(),
    {
        let q0 = old.queue(side);
        let q1 = self.queue(side);
        let oq = old.queue(opposite(side));
        let m0 = old.index();
        let m1 = self.index();
        lemma_remove_ok(side, q0, n);
        assert forall|k: int| 0 <= k < q1.len() implies m1.contains_key(#[trigger] q1[k].id()) && m1[q1[k].id()]
            == (side, q1[k].price()) by {
            let a = if k < n { k } else { k + 1 };
            assert(q1[k] == q0[a]);
            assert(m0.contains_key(q0[a].id()));
        }
        assert forall|k: int| 0 <= k < oq.len() implies m1.contains_key(#[trigger] oq[k].id()) && m1[oq[k].id()]
            == (opposite(side), oq[k].price()) by {
            assert(m0.contains_key(oq[k].id()));
        }
        assert(indexed(side, q1, m1));
        assert(indexed(opposite(side), oq, m1));
        assert(indexed(Side::Bid, self.queue(Side::Bid), m1));
        assert(indexed(Side::Ask, self.queue(Side::Ask), m1));
        assert forall|k: u64| #[trigger] m1.contains_key(k) implies holds(self.queue(m1[k].0), k) by {
            assert(m0.contains_key(k));
            let s = m0[k].0;
            let j = choose|j: int| 0 <= j < old.queue(s).len() && #[trigger] old.queue(s)[j].id() == k;
            if s == side {
                if j < n {
                    assert(q1[j] == q0[j]);
                } else {
                    assert(j != n);
                    assert(q1[j - 1] == q0[j]);
                }
            }
        }
        assert(self.index_ok());
        if q1.len() > 0 {
            if n == 0 {
                assert(q1[0] == q0[1]);
                assert(!ahead(side, q0[1].price(), q0[0].price()));
            } else {
                assert(q1[0] == q0[0]);
            }
        }
        match side {
            Side::Bid => assert(self.uncrossed()),
            Side::Ask => assert(self.uncrossed()),
        }
    }

    /// Whether an order with this identifier rests in the book.
    pub fn is_resting(&self, id: u64) -> (r: bool)
        ensures
            r == self.has_order(id),
    {
        index_contains(&self.lookup, id)
    }

    fn best_price(q: &Vec<Order>) -> (r: Option<u64>)
        ensures
            r == (if q@.len() == 0 { None } else { Some(q@[0].price()) }),
    {
        if q.len() == 0 {
            None
        } else {
            Some(q[0].price)
        }
    }

    /// Best bid price: the highest price on the bid side.
    pub fn best_bid(&self) -> (r: Option<u64>)
        requires
            self.wf(),
        ensures
            r == (if self.queue(Side::Bid).len() == 0 { None } else { Some(self.queue(Side::Bid)[0].price()) }),
            r matches Some(p) ==> forall|i: int|
                0 <= i < self.queue(Side::Bid).len() ==> #[trigger] self.queue(Side::Bid)[i].price() <= p,
    {
        Self::best_price(&self.bids)
    }

    /// Best ask price: the lowest price on the ask side.
    pub fn best_ask(&self) -> (r: Option<u64>)
        requires
            self.wf(),
        ensures
            r == (if self.queue(Side::Ask).len() == 0 { None } else { Some(self.queue(Side::Ask)[0].price()) }),
            r matches Some(p) ==> forall|i: int|
                0 <= i < self.queue(Side::Ask).len() ==> #[trigger] self.queue(Side::Ask)[i].price() >= p,
    {
        Self::best_price(&self.asks)
    }

    /// Total size of the orders of `q` posted at `price`.
    fn level_total(q: &Vec<Order>, price: u64) -> (r: u128)
        ensures
            r == level_size(q@, price),
    {
        let mut total: u128 = 0;
        let mut i: usize = 0;
        while i < q.len()
            invariant
                i <= q@.len(),
                total == level_size(q@.take(i as int), price),
                total <= i * 18446744073709551615u128,
            decreases q@.len() - i,
        {
            assert(q@.take(i + 1).drop_last() =~= q@.take(i as int));
            let add: u128 = if q[i].price == price { q[i].size as u128 } else { 0 };
            proof {
                assert(i < 18446744073709551616u128);
                assert(total + add <= (i + 1) * 18446744073709551615u128) by (nonlinear_arith)
                    requires
                        total <= i * 18446744073709551615u128,
                        add <= 18446744073709551615u128,
                        i < 18446744073709551616u128,
                ;
            }
            total = total + add;
            i = i + 1;
        }
        assert(q@.take(q@.len() as int) =~= q@);
        total
    }

    fn best_level_size(q: &Vec<Order>) -> (r: Option<u128>)
        ensures
            r == (if q@.len() == 0 { None } else { Some(level_size(q@, q@[0].price()) as u128) }),
    {
        if q.len() == 0 {
            None
        } else {
            Some(Self::level_total(q, q[0].price))
        }
    }

    /// Total size resting on `side` at `price`; zero where no order rests there.
    pub fn get_size(&self, side: Side, price: u64) -> (r: u128)
        ensures
            r == level_size(self.queue(side), price),
    {
        Self::level_total(self.get_ladder(side), price)
    }

    /// Total size resting at the best bid price.
    pub fn best_bid_size(&self) -> (r: Option<u128>)
        requires
            self.wf(),
        ensures
            r == (if self.queue(Side::Bid).len() == 0 {
                None
            } else {
                Some(level_size(self.queue(Side::Bid), self.queue(Side::Bid)[0].price()) as u128)
            }),
    {
        Self::best_level_size(&self.bids)
    }

    /// Total size resting at the best ask price.
    pub fn best_ask_size(&self) -> (r: Option<u128>)
        requires
            self.wf(),
        ensures
            r == (if self.queue(Side::Ask).len() == 0 {
                None
            } else {
                Some(level_size(self.queue(Side::Ask), self.queue(Side::Ask)[0].price()) as u128)
            }),
    {
        Self::best_level_size(&self.asks)
    }
}

/// In a well-formed book every bid price is below every ask price: the book
/// is never left crossed.
pub proof fn book_never_crossed(book: OrderBook, i: int, j: int)
    requires
        book.wf(),
        0 <= i < book.queue(Side::Bid).len(),
        0 <= j < book.queue(Side::Ask).len(),
    ensures
        book.queue(Side::Bid)[i].price() < book.queue(Side::Ask)[j].price(),
{
    let b = book.queue(Side::Bid);
    let a = book.queue(Side::Ask);
    if i > 0 {
        assert(!ahead(Side::Bid, b[i].price(), b[0].price()));
    }
    if j > 0 {
        assert(!ahead(Side::Ask, a[j].price(), a[0].price()));
    }
}

/// An identifier is in the lookup table exactly when an order with it rests
/// in one of the ladders; it then rests in exactly one place, on the recorded
/// side and at the recorded price.
pub proof fn lookup_agrees_with_ladders(book: OrderBook, id: u64)
    requires
        book.wf(),
    ensures
        book.has_order(id) <==> holds(book.queue(Side::Bid), id) || holds(book.queue(Side::Ask), id),
        !(holds(book.queue(Side::Bid), id) && holds(book.queue(Side::Ask), id)),
        book.has_order(id) ==> exists|i: int|
            0 <= i < book.queue(book.index()[id].0).len() && #[trigger] book.queue(book.index()[id].0)[i].id() == id
                && book.queue(book.index()[id].0)[i].price() == book.index()[id].1,
        forall|s: Side, i: int, j: int|
            0 <= i < j < book.queue(s).len() ==> #[trigger] book.queue(s)[i].id() != #[trigger] book.queue(s)[j].id(),
{
    let b = book.queue(Side::Bid);
    let a = book.queue(Side::Ask);
    let m = book.index();
    if holds(b, id) {
        let i = choose|i: int| 0 <= i < b.len() && #[trigger] b[i].id() == id;
        assert(m.contains_key(b[i].id()));
    }
    if holds(a, id) {
        let i = choose|i: int| 0 <= i < a.len() && #[trigger] a[i].id() == id;
        assert(m.contains_key(a[i].id()));
    }
    if book.has_order(id) {
        let q = book.queue(m[id].0);
        let i = choose|i: int| 0 <= i < q.len() && #[trigger] q[i].id() == id;
        match m[id].0 {
            Side::Bid => assert(m.contains_key(b[i].id())),
            Side::Ask => assert(m.contains_key(a[i].id())),
        }
    }
    assert forall|s: Side, i: int, j: int| 0 <= i < j < book.queue(s).len() implies #[trigger] book.queue(s)[i].id()
        != #[trigger] book.queue(s)[j].id() by {
        match s {
            Side::Bid => {},
            Side::Ask => {},
        }
    }
}

/// An order comes to rest behind every order of its ladder posted at its own
/// price: time priority within a price level.
pub proof fn rest_keeps_arrival_order(side: Side, q: Seq<Order>, o: Order)
    ensures
        rest_in(side, q, o)[slot(side, q, o.price())] == o,
        forall|i: int| 0 <= i < q.len() && #[trigger] q[i].price() == o.price() ==> i < slot(side, q, o.price())
            && rest_in(side, q, o)[i] == q[i],
{
    lemma_slot_bounds(side, q, o.price());
    lemma_slot_behind(side, q, o.price());
    assert forall|i: int| 0 <= i < q.len() && #[trigger] q[i].price() == o.price() implies i < slot(side, q, o.price()) by {
        if i >= slot(side, q, o.price()) {
            assert(ahead(side, o.price(), q[i].price()));
        }
    }
}

proof fn lemma_slot_behind(side: Side, q: Seq<Order>, price: u64)
    ensures
        forall|j: int| slot(side, q, price) <= j < q.len() ==> ahead(side, price, #[trigger] q[j].price()),
    decreases q.len(),
{
    if q.len() > 0 && ahead(side, price, q.last().price()) {
        let r = q.drop_last();
        lemma_slot_behind(side, r, price);
        lemma_slot_bounds(side, r, price);
        assert forall|j: int| slot(side, q, price) <= j < q.len() implies ahead(side, price, #[trigger] q[j].price()) by {
            if j < q.len() - 1 {
                assert(q[j] == r[j]);
            }
        }
    }
}

/// Matching walks the ladder in order: the first `d` orders are filled in
/// full, one trade each and in their order, and at most one more trade takes
/// part of the next order; the orders behind it are not touched. So of two
/// orders at one price, the later one trades only once the earlier one has
/// been filled in full.
pub proof fn fill_is_fifo(q: Seq<Order>, side: Side, limit: u64, size: u64)
    ensures
        ({
            let f = fill(q, side, limit, size);
            let d = q.len() - f.0.len();
            &&& 0 <= d <= q.len()
            &&& f.1.len() == d || f.1.len() == d + 1
            &&& forall|k: int| 0 <= k < d ==> #[trigger] f.1[k] == (q[k].price(), q[k].size())
            &&& f.1.len() == d ==> f.0 == q.skip(d)
            &&& f.1.len() == d + 1 ==> {
                &&& d < q.len()
                &&& f.1[d].1 < q[d].size()
                &&& f.1[d].0 == q[d].price()
                &&& f.0 == q.skip(d).update(0, q[d].with_size((q[d].size() - f.1[d].1) as u64))
            }
        }),
    decreases q.len(),
{
    let f = fill(q, side, limit, size);
    if size == 0 || q.len() == 0 || !crosses(side, limit, q[0].price()) {
        assert(q.skip(0) =~= q);
    } else if q[0].size() <= size {
        let t = q.drop_first();
        let g = fill(t, side, limit, (size - q[0].size()) as u64);
        fill_is_fifo(t, side, limit, (size - q[0].size()) as u64);
        let d = q.len() - f.0.len();
        assert(t.skip(d - 1) =~= q.skip(d));
        assert forall|k: int| 0 <= k < d implies #[trigger] f.1[k] == (q[k].price(), q[k].size()) by {
            if k > 0 {
                assert(f.1[k] == g.1[k - 1]);
                assert(t[k - 1] == q[k]);
            }
        }
        if f.1.len() == d + 1 {
            assert(f.1[d] == g.1[d - 1]);
            assert(t[d - 1] == q[d]);
        }
    } else {
        assert(q.skip(0) =~= q);
    }
}

} // verus!
