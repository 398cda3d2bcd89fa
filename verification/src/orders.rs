//! Resting orders, their escrow accounting, and the priority index.
//!
//! An order is a standing intent to exchange `amount_from_remaining` of
//! `token_from` for `amount_to_remaining` of `token_to`. Orders are stored
//! in insertion order and identified by their position, which never
//! changes; terminal orders stay retrievable by id. The escrow of an asset
//! is the sum of the unfilled `amount_from_remaining` over live orders
//! giving that asset: the matching engine's conservation law is stated
//! over these sums.

use vstd::prelude::*;
use vstd::pervasive::VecAdditionalExecFns;

use crate::address::Address;
use crate::errors::DexError;

verus! {

/// Lifecycle of an order. `Filled` and `Cancelled` are terminal.
#[derive(Clone, Copy, Debug, PartialEq, Eq, Structural)]
pub enum OrderStatus {
    Open,
    PartiallyFilled,
    Filled,
    Cancelled,
}

/// A standing intent to exchange one asset for another, owned by one
/// account. The remaining amounts only ever decrease, through fills.
pub struct Order {
    pub owner: Address,
    pub token_from: u64,
    pub token_to: u64,
    pub amount_from_remaining: u64,
    pub amount_to_remaining: u64,
    pub status: OrderStatus,
}

/// Whether the order still rests in the matching index.
pub open spec fn is_live(o: Order) -> bool {
    o.status == OrderStatus::Open || o.status == OrderStatus::PartiallyFilled
}

/// Internal consistency of one order: it trades distinct assets, and a
/// live order still offers and still wants a positive amount.
pub open spec fn order_ok(o: Order) -> bool {
    &&& o.token_from != o.token_to
    &&& (is_live(o) ==> o.amount_from_remaining > 0 && o.amount_to_remaining > 0)
}

/// What one order holds in escrow of asset `a`.
pub open spec fn escrow_part(o: Order, a: u64) -> int {
    if is_live(o) && o.token_from == a {
        o.amount_from_remaining as int
    } else {
        0
    }
}

/// The escrowed total of asset `a` across all live orders.
pub open spec fn escrow_for(s: Seq<Order>, a: u64) -> int
    decreases s.len(),
{
    if s.len() == 0 {
        0
    } else {
        escrow_part(s[0], a) + escrow_for(s.skip(1), a)
    }
}

/// Whether an order stands on the opposite side of a trade from
/// `token_from` to `token_to`: it gives `token_to` and wants `token_from`.
pub open spec fn side_matches(o: Order, token_from: u64, token_to: u64) -> bool {
    o.token_from == token_to && o.token_to == token_from
}

/// Deterministic matching priority between two resting orders on the same
/// side: the better exchange rate first (more offered per unit wanted),
/// ties broken by insertion order, earliest first.
pub open spec fn prio_before(o1: Order, o2: Order, i1: int, i2: int) -> bool {
    let r1 = (o1.amount_from_remaining as int) * (o2.amount_to_remaining as int);
    let r2 = (o2.amount_from_remaining as int) * (o1.amount_to_remaining as int);
    r1 > r2 || (r1 == r2 && i1 < i2)
}

/// The product of two values below 2^64 fits in 128 bits.
pub proof fn lemma_u64_mul_fits(x: int, y: int)
    requires
        0 <= x <= u64::MAX,
        0 <= y <= u64::MAX,
    ensures
        0 <= x * y <= u64::MAX * u64::MAX,
{
    assert(0 <= x * y <= u64::MAX * u64::MAX) by (nonlinear_arith)
        requires
            0 <= x <= u64::MAX,
            0 <= y <= u64::MAX,
    ;
}

proof fn lemma_rate_trans(a1: int, b1: int, a2: int, b2: int, a3: int, b3: int)
    requires
        b1 > 0,
        b2 > 0,
        b3 > 0,
        a1 * b2 >= a2 * b1,
        a2 * b3 >= a3 * b2,
    ensures
        a1 * b3 >= a3 * b1,
{
    assert((a1 * b3) * b2 >= (a3 * b1) * b2) by (nonlinear_arith)
        requires
            b1 > 0,
            b2 > 0,
            b3 > 0,
            a1 * b2 >= a2 * b1,
            a2 * b3 >= a3 * b2,
    ;
    assert(a1 * b3 >= a3 * b1) by (nonlinear_arith)
        requires
            (a1 * b3) * b2 >= (a3 * b1) * b2,
            b2 > 0,
    ;
}

proof fn lemma_rate_trans_strict(a1: int, b1: int, a2: int, b2: int, a3: int, b3: int)
    requires
        b1 > 0,
        b2 > 0,
        b3 > 0,
        a1 * b2 >= a2 * b1,
        a2 * b3 >= a3 * b2,
        a1 * b2 > a2 * b1 || a2 * b3 > a3 * b2,
    ensures
        a1 * b3 > a3 * b1,
{
    assert((a1 * b3) * b2 > (a3 * b1) * b2) by (nonlinear_arith)
        requires
            b1 > 0,
            b2 > 0,
            b3 > 0,
            a1 * b2 >= a2 * b1,
            a2 * b3 >= a3 * b2,
            a1 * b2 > a2 * b1 || a2 * b3 > a3 * b2,
    ;
    assert(a1 * b3 > a3 * b1) by (nonlinear_arith)
        requires
            (a1 * b3) * b2 > (a3 * b1) * b2,
            b2 > 0,
    ;
}

/// Matching priority is transitive over live, internally consistent
/// orders, so the candidate listing is a total order.
pub proof fn lemma_prio_trans(o1: Order, o2: Order, o3: Order, i1: int, i2: int, i3: int)
    requires
        o1.amount_to_remaining > 0,
        o2.amount_to_remaining > 0,
        o3.amount_to_remaining > 0,
        prio_before(o1, o2, i1, i2),
        prio_before(o2, o3, i2, i3),
    ensures
        prio_before(o1, o3, i1, i3),
{
    let a1 = o1.amount_from_remaining as int;
    let b1 = o1.amount_to_remaining as int;
    let a2 = o2.amount_from_remaining as int;
    let b2 = o2.amount_to_remaining as int;
    let a3 = o3.amount_from_remaining as int;
    let b3 = o3.amount_to_remaining as int;
    if a1 * b2 == a2 * b1 && a2 * b3 == a3 * b2 {
        lemma_rate_trans(a1, b1, a2, b2, a3, b3);
        lemma_rate_trans(a3, b3, a2, b2, a1, b1);
    } else {
        lemma_rate_trans_strict(a1, b1, a2, b2, a3, b3);
    }
}

pub proof fn lemma_escrow_nonneg(s: Seq<Order>, a: u64)
    ensures
        escrow_for(s, a) >= 0,
    decreases s.len(),
{
    if s.len() > 0 {
        lemma_escrow_nonneg(s.skip(1), a);
    }
}

/// One order's escrow never exceeds the asset's escrowed total.
pub proof fn lemma_escrow_at_le(s: Seq<Order>, i: int, a: u64)
    requires
        0 <= i < s.len(),
    ensures
        escrow_part(s[i], a) <= escrow_for(s, a),
    decreases s.len(),
{
    if i == 0 {
        lemma_escrow_nonneg(s.skip(1), a);
    } else {
        assert(s.skip(1)[i - 1] == s[i]);
        lemma_escrow_at_le(s.skip(1), i - 1, a);
        assert(escrow_part(s[0], a) >= 0);
    }
}

/// Replacing one order moves each escrow total by the difference of that
/// order's escrow parts.
pub proof fn lemma_escrow_update(s: Seq<Order>, i: int, o: Order, a: u64)
    requires
        0 <= i < s.len(),
    ensures
        escrow_for(s.update(i, o), a) == escrow_for(s, a) + escrow_part(o, a) - escrow_part(
            s[i],
            a,
        ),
    decreases s.len(),
{
    let t = s.update(i, o);
    if i == 0 {
        assert(t.skip(1) =~= s.skip(1));
    } else {
        assert(t[0] == s[0]);
        assert(t.skip(1) =~= s.skip(1).update(i - 1, o));
        assert(s.skip(1)[i - 1] == s[i]);
        lemma_escrow_update(s.skip(1), i - 1, o, a);
    }
}

/// Appending an order adds its escrow part to each total.
pub proof fn lemma_escrow_push(s: Seq<Order>, o: Order, a: u64)
    ensures
        escrow_for(s.push(o), a) == escrow_for(s, a) + escrow_part(o, a),
    decreases s.len(),
{
    let t = s.push(o);
    if s.len() == 0 {
        assert(t[0] == o);
        assert(t.skip(1) =~= Seq::<Order>::empty());
        assert(escrow_for(t.skip(1), a) == 0);
        assert(escrow_for(s, a) == 0);
    } else {
        assert(t[0] == s[0]);
        assert(t.skip(1) =~= s.skip(1).push(o));
        lemma_escrow_push(s.skip(1), o, a);
    }
}

/// Across a transition of the order store, the total that fills paid
/// toward orders owned by account `o`: the sum, over the positions both
/// stores share, of how far each order's wanted remainder came down.
/// Fills settle two-legged, so this is exactly what the owner's balance
/// of the assets those orders want was credited.
pub open spec fn paid_out(old_s: Seq<Order>, new_s: Seq<Order>, o: Seq<char>) -> int
    decreases old_s.len(),
{
    if old_s.len() == 0 {
        0
    } else {
        (if old_s[0].owner@ == o {
            old_s[0].amount_to_remaining - new_s[0].amount_to_remaining
        } else {
            0
        }) + paid_out(old_s.skip(1), new_s.skip(1), o)
    }
}

/// An unchanged store pays nothing out.
pub proof fn lemma_paid_out_refl(s: Seq<Order>, o: Seq<char>)
    ensures
        paid_out(s, s, o) == 0,
    decreases s.len(),
{
    if s.len() > 0 {
        lemma_paid_out_refl(s.skip(1), o);
    }
}

/// Reducing one order's wanted remainder pays its owner the difference.
pub proof fn lemma_paid_out_update(
    old_s: Seq<Order>,
    new_s: Seq<Order>,
    i: int,
    e: Order,
    o: Seq<char>,
)
    requires
        old_s.len() <= new_s.len(),
        0 <= i < old_s.len(),
    ensures
        paid_out(old_s, new_s.update(i, e), o) == paid_out(old_s, new_s, o) + (if old_s[i].owner@
            == o {
            new_s[i].amount_to_remaining - e.amount_to_remaining
        } else {
            0
        }),
    decreases old_s.len(),
{
    let t = new_s.update(i, e);
    if i == 0 {
        assert(t.skip(1) =~= new_s.skip(1));
    } else {
        assert(t[0] == new_s[0]);
        assert(t.skip(1) =~= new_s.skip(1).update(i - 1, e));
        assert(new_s.skip(1)[i - 1] == new_s[i]);
        assert(old_s.skip(1)[i - 1] == old_s[i]);
        lemma_paid_out_update(old_s.skip(1), new_s.skip(1), i - 1, e, o);
    }
}

/// Appending to the new store pays nothing more out.
pub proof fn lemma_paid_out_push(old_s: Seq<Order>, new_s: Seq<Order>, x: Order, o: Seq<char>)
    requires
        old_s.len() <= new_s.len(),
    ensures
        paid_out(old_s, new_s.push(x), o) == paid_out(old_s, new_s, o),
    decreases old_s.len(),
{
    if old_s.len() > 0 {
        let t = new_s.push(x);
        assert(t[0] == new_s[0]);
        assert(t.skip(1) =~= new_s.skip(1).push(x));
        lemma_paid_out_push(old_s.skip(1), new_s.skip(1), x, o);
    }
}

/// The set of orders. An order's id is its position, assigned at insert
/// and stable for the life of the contract.
pub struct OrderStore {
    pub orders: Vec<Order>,
}

impl OrderStore {
    /// Every stored order is internally consistent.
    pub open spec fn wf(self) -> bool {
        forall|i: int| 0 <= i < self.orders@.len() ==> order_ok(#[trigger] self.orders@[i])
    }

    /// The escrowed total of asset `a` across live orders.
    pub open spec fn escrow(self, a: u64) -> int {
        escrow_for(self.orders@, a)
    }

    /// An empty store.
    pub fn new() -> (r: OrderStore)
        ensures
            r.wf(),
            r.orders@.len() == 0,
            forall|a: u64| r.escrow(a) == 0,
    {
        OrderStore { orders: Vec::new() }
    }

    /// How many ids have been issued.
    pub fn len(&self) -> (r: usize)
        ensures
            r == self.orders@.len(),
    {
        self.orders.len()
    }

    /// The order with the given id, also after it reached a terminal
    /// state; `None` for an id that was never issued.
    pub fn get(&self, id: usize) -> (r: Option<&Order>)
        ensures
            match r {
                Some(o) => id < self.orders@.len() && *o == self.orders@[id as int],
                None => id >= self.orders@.len(),
            },
    {
        if id < self.orders.len() {
            Some(&self.orders[id])
        } else {
            None
        }
    }

    /// Adds a live order and returns its id. Each escrow total grows by
    /// the order's escrow part.
    pub fn insert(&mut self, o: Order) -> (id: usize)
        requires
            old(self).wf(),
            order_ok(o),
            is_live(o),
        ensures
            final(self).wf(),
            id == old(self).orders@.len(),
            final(self).orders@ == old(self).orders@.push(o),
            forall|a: u64| #![trigger final(self).escrow(a)]
                final(self).escrow(a) == old(self).escrow(a) + escrow_part(o, a),
    {
        proof {
            assert forall|a: u64|
                escrow_for(self.orders@.push(o), a) == escrow_for(self.orders@, a) + escrow_part(
                    o,
                    a,
                ) by {
                lemma_escrow_push(self.orders@, o, a);
            }
        }
        let id = self.orders.len();
        self.orders.push(o);
        id
    }

    /// Applies one fill to a live order: both remaining amounts shrink by
    /// the filled quantities; when the offered remainder reaches zero the
    /// order becomes `Filled` and leaves the matching index, otherwise it
    /// becomes `PartiallyFilled`.
    pub fn reduce(&mut self, id: usize, fill_from: u64, fill_to: u64)
        requires
            old(self).wf(),
            id < old(self).orders@.len(),
            is_live(old(self).orders@[id as int]),
            0 < fill_from <= old(self).orders@[id as int].amount_from_remaining,
            fill_to <= old(self).orders@[id as int].amount_to_remaining,
            (fill_from == old(self).orders@[id as int].amount_from_remaining <==> fill_to == old(
                self,
            ).orders@[id as int].amount_to_remaining),
        ensures
            final(self).wf(),
            final(self).orders@.len() == old(self).orders@.len(),
            final(self).orders@ == old(self).orders@.update(
                id as int,
                Order {
                    amount_from_remaining: (old(self).orders@[id as int].amount_from_remaining
                        - fill_from) as u64,
                    amount_to_remaining: (old(self).orders@[id as int].amount_to_remaining
                        - fill_to) as u64,
                    status: if old(self).orders@[id as int].amount_from_remaining == fill_from {
                        OrderStatus::Filled
                    } else {
                        OrderStatus::PartiallyFilled
                    },
                    ..old(self).orders@[id as int]
                },
            ),
            forall|a: u64| #![trigger final(self).escrow(a)]
                final(self).escrow(a) == old(self).escrow(a) - if old(
                    self,
                ).orders@[id as int].token_from == a {
                    fill_from as int
                } else {
                    0
                },
    {
        let afr = self.orders[id].amount_from_remaining;
        let atr = self.orders[id].amount_to_remaining;
        let o = Order {
            owner: self.orders[id].owner.dup(),
            token_from: self.orders[id].token_from,
            token_to: self.orders[id].token_to,
            amount_from_remaining: afr - fill_from,
            amount_to_remaining: atr - fill_to,
            status: if afr == fill_from {
                OrderStatus::Filled
            } else {
                OrderStatus::PartiallyFilled
            },
        };
        proof {
            assert(o == Order {
                amount_from_remaining: (afr - fill_from) as u64,
                amount_to_remaining: (atr - fill_to) as u64,
                status: if afr == fill_from {
                    OrderStatus::Filled
                } else {
                    OrderStatus::PartiallyFilled
                },
                ..self.orders@[id as int]
            });
            assert forall|a: u64|
                escrow_for(self.orders@.update(id as int, o), a) == escrow_for(self.orders@, a)
                    - if self.orders@[id as int].token_from == a {
                    fill_from as int
                } else {
                    0
                } by {
                lemma_escrow_update(self.orders@, id as int, o, a);
            }
        }
        self.orders.set(id, o);
    }

    /// Cancels a live order on behalf of `requester` and returns the
    /// unfilled `amount_from_remaining` so the caller can release the
    /// escrow. Fails with `OrderNotFound` for an unknown id, `NotOwner`
    /// when the requester does not own the order, and `AlreadyTerminal`
    /// when the order is already Filled or Cancelled; on failure nothing
    /// changes.
    pub fn cancel(&mut self, id: usize, requester: &Address) -> (r: Result<u64, DexError>)
        requires
            old(self).wf(),
        ensures
            final(self).wf(),
            id >= old(self).orders@.len() ==> r == Err::<u64, DexError>(DexError::OrderNotFound),
            id < old(self).orders@.len() && old(self).orders@[id as int].owner@ != requester@ ==> r
                == Err::<u64, DexError>(DexError::NotOwner),
            id < old(self).orders@.len() && old(self).orders@[id as int].owner@ == requester@
                && !is_live(old(self).orders@[id as int]) ==> r == Err::<u64, DexError>(
                DexError::AlreadyTerminal,
            ),
            id < old(self).orders@.len() && old(self).orders@[id as int].owner@ == requester@
                && is_live(old(self).orders@[id as int]) ==> r == Ok::<u64, DexError>(
                old(self).orders@[id as int].amount_from_remaining,
            ),
            r is Err ==> final(self).orders@ == old(self).orders@,
            r is Ok ==> final(self).orders@ == old(self).orders@.update(
                id as int,
                Order { status: OrderStatus::Cancelled, ..old(self).orders@[id as int] },
            ),
            forall|a: u64| #![trigger final(self).escrow(a)]
                final(self).escrow(a) == old(self).escrow(a) - if r is Ok && old(
                    self,
                ).orders@[id as int].token_from == a {
                    old(self).orders@[id as int].amount_from_remaining as int
                } else {
                    0
                },
    {
        if id >= self.orders.len() {
            return Err(DexError::OrderNotFound);
        }
        if !self.orders[id].owner.same(requester) {
            return Err(DexError::NotOwner);
        }
        let live = match self.orders[id].status {
            OrderStatus::Open => true,
            OrderStatus::PartiallyFilled => true,
            _ => false,
        };
        if !live {
            return Err(DexError::AlreadyTerminal);
        }
        let released = self.orders[id].amount_from_remaining;
        let o = Order {
            owner: self.orders[id].owner.dup(),
            token_from: self.orders[id].token_from,
            token_to: self.orders[id].token_to,
            amount_from_remaining: released,
            amount_to_remaining: self.orders[id].amount_to_remaining,
            status: OrderStatus::Cancelled,
        };
        proof {
            assert(o == Order { status: OrderStatus::Cancelled, ..self.orders@[id as int] });
            assert forall|a: u64|
                escrow_for(self.orders@.update(id as int, o), a) == escrow_for(self.orders@, a)
                    - if self.orders@[id as int].token_from == a {
                    released as int
                } else {
                    0
                } by {
                lemma_escrow_update(self.orders@, id as int, o, a);
            }
        }
        self.orders.set(id, o);
        Ok(released)
    }

    /// The escrowed total of `asset`, as a wide word: the sum of the
    /// unfilled remainders of every live order giving that asset.
    pub fn escrow_of(&self, asset: u64) -> (r: u128)
        ensures
            r as int == self.escrow(asset),
    {
        let s = Ghost(self.orders@);
        let n = self.orders.len();
        let mut total: u128 = 0;
        let mut i: usize = 0;
        proof {
            assert(s@.skip(0) =~= s@);
        }
        while i < n
            invariant
                i <= n,
                n == s@.len(),
                s@ == self.orders@,
                total as int + escrow_for(s@.skip(i as int), asset) == escrow_for(s@, asset),
                total as int <= i as int * u64::MAX,
            decreases n - i,
        {
            proof {
                assert(s@.skip(i as int)[0] == s@[i as int]);
                assert(s@.skip(i as int).skip(1) =~= s@.skip(i as int + 1));
                assert((i as int + 1) * u64::MAX <= 0x1_0000_0000_0000_0000 * u64::MAX)
                    by (nonlinear_arith)
                    requires
                        0 <= i as int + 1 <= 0x1_0000_0000_0000_0000,
                ;
                assert(i as int * u64::MAX + u64::MAX == (i as int + 1) * u64::MAX)
                    by (nonlinear_arith);
            }
            let o = &self.orders[i];
            let live = match o.status {
                OrderStatus::Open => true,
                OrderStatus::PartiallyFilled => true,
                _ => false,
            };
            if live && o.token_from == asset {
                total = total + o.amount_from_remaining as u128;
            }
            i = i + 1;
        }
        proof {
            assert(s@.skip(n as int) =~= Seq::<Order>::empty());
            assert(escrow_for(s@.skip(n as int), asset) == 0);
        }
        total
    }

    /// Whether every stored order is internally consistent.
    pub fn check_orders_ok(&self) -> (r: bool)
        ensures
            r == self.wf(),
    {
        let n = self.orders.len();
        let mut i: usize = 0;
        while i < n
            invariant
                i <= n,
                n == self.orders@.len(),
                forall|j: int| 0 <= j < i ==> order_ok(#[trigger] self.orders@[j]),
            decreases n - i,
        {
            let o = &self.orders[i];
            let live = match o.status {
                OrderStatus::Open => true,
                OrderStatus::PartiallyFilled => true,
                _ => false,
            };
            if o.token_from == o.token_to {
                return false;
            }
            if live && (o.amount_from_remaining == 0 || o.amount_to_remaining == 0) {
                return false;
            }
            i = i + 1;
        }
        true
    }

    /// The ids of every order an account owns, terminal ones included,
    /// in insertion order. The listing is sound and complete.
    pub fn orders_of(&self, owner: &Address) -> (ids: Vec<usize>)
        ensures
            forall|k: int| #![trigger ids@[k]]
                0 <= k < ids@.len() ==> ids@[k] < self.orders@.len()
                    && self.orders@[ids@[k] as int].owner@ == owner@,
            forall|j: int|
                0 <= j < self.orders@.len() && (#[trigger] self.orders@[j]).owner@ == owner@
                    ==> ids@.contains(j as usize),
            forall|k1: int, k2: int| 0 <= k1 < k2 < ids@.len() ==> ids@[k1] < ids@[k2],
    {
        let n = self.orders.len();
        let mut ids: Vec<usize> = Vec::new();
        let mut i: usize = 0;
        while i < n
            invariant
                i <= n,
                n == self.orders@.len(),
                forall|k: int| #![trigger ids@[k]]
                    0 <= k < ids@.len() ==> ids@[k] < i && self.orders@[ids@[k] as int].owner@
                        == owner@,
                forall|j: int|
                    0 <= j < i && (#[trigger] self.orders@[j]).owner@ == owner@ ==> ids@.contains(
                        j as usize,
                    ),
                forall|k1: int, k2: int| 0 <= k1 < k2 < ids@.len() ==> ids@[k1] < ids@[k2],
            decreases n - i,
        {
            let ghost prev = ids@;
            if self.orders[i].owner.same(owner) {
                ids.push(i);
            }
            proof {
                assert forall|j: int|
                    0 <= j < i + 1 && self.orders@[j].owner@ == owner@ implies ids@.contains(
                    j as usize,
                ) by {
                    if j < i {
                        let k = choose|k: int| 0 <= k < prev.len() && prev[k] == j as usize;
                        assert(ids@[k] == j as usize);
                    } else {
                        assert(ids@[ids@.len() - 1] == i);
                    }
                }
            }
            i = i + 1;
        }
        ids
    }

    /// Exec comparison by matching priority of the orders at two ids.
    fn prio_first(&self, i1: usize, i2: usize) -> (r: bool)
        requires
            i1 < self.orders@.len(),
            i2 < self.orders@.len(),
        ensures
            r == prio_before(self.orders@[i1 as int], self.orders@[i2 as int], i1 as int, i2 as int),
    {
        let o1 = &self.orders[i1];
        let o2 = &self.orders[i2];
        proof {
            lemma_u64_mul_fits(
                o1.amount_from_remaining as int,
                o2.amount_to_remaining as int,
            );
            lemma_u64_mul_fits(
                o2.amount_from_remaining as int,
                o1.amount_to_remaining as int,
            );
        }
        let r1 = (o1.amount_from_remaining as u128) * (o2.amount_to_remaining as u128);
        let r2 = (o2.amount_from_remaining as u128) * (o1.amount_to_remaining as u128);
        r1 > r2 || (r1 == r2 && i1 < i2)
    }

    /// The live orders on the opposite side of a trade from `token_from`
    /// to `token_to` (those giving `token_to` and wanting `token_from`),
    /// as ids, in deterministic matching priority: best exchange rate
    /// first, ties by insertion order. The listing is sound, complete and
    /// free of duplicates.
    pub fn candidates_for(&self, token_from: u64, token_to: u64) -> (ids: Vec<usize>)
        requires
            self.wf(),
        ensures
            forall|k: int| #![trigger ids@[k]]
                0 <= k < ids@.len() ==> ids@[k] < self.orders@.len() && side_matches(
                    self.orders@[ids@[k] as int],
                    token_from,
                    token_to,
                ) && is_live(self.orders@[ids@[k] as int]),
            forall|j: int|
                0 <= j < self.orders@.len() && side_matches(
                    #[trigger] self.orders@[j],
                    token_from,
                    token_to,
                ) && is_live(self.orders@[j]) ==> ids@.contains(j as usize),
            forall|k1: int, k2: int| 0 <= k1 < k2 < ids@.len() ==> ids@[k1] != ids@[k2],
            forall|k1: int, k2: int|
                0 <= k1 < k2 < ids@.len() ==> prio_before(
                    self.orders@[ids@[k1] as int],
                    self.orders@[ids@[k2] as int],
                    ids@[k1] as int,
                    ids@[k2] as int,
                ),
    {
        let n = self.orders.len();
        let mut pool: Vec<usize> = Vec::new();
        let mut i: usize = 0;
        while i < n
            invariant
                i <= n,
                n == self.orders@.len(),
                forall|k: int| #![trigger pool@[k]]
                    0 <= k < pool@.len() ==> pool@[k] < i && side_matches(
                        self.orders@[pool@[k] as int],
                        token_from,
                        token_to,
                    ) && is_live(self.orders@[pool@[k] as int]),
                forall|j: int|
                    0 <= j < i && side_matches(#[trigger] self.orders@[j], token_from, token_to)
                        && is_live(self.orders@[j]) ==> pool@.contains(j as usize),
                forall|k1: int, k2: int| 0 <= k1 < k2 < pool@.len() ==> pool@[k1] != pool@[k2],
            decreases n - i,
        {
            let ghost prev = pool@;
            let o = &self.orders[i];
            let live = match o.status {
                OrderStatus::Open => true,
                OrderStatus::PartiallyFilled => true,
                _ => false,
            };
            if live && o.token_from == token_to && o.token_to == token_from {
                pool.push(i);
            }
            proof {
                assert forall|j: int|
                    0 <= j < i + 1 && side_matches(self.orders@[j], token_from, token_to)
                        && is_live(self.orders@[j]) implies pool@.contains(j as usize) by {
                    if j < i {
                        let k = choose|k: int| 0 <= k < prev.len() && prev[k] == j as usize;
                        assert(pool@[k] == j as usize);
                    } else {
                        assert(pool@[pool@.len() - 1] == i);
                    }
                }
            }
            i = i + 1;
        }
        // Repeatedly move the best-priority id of the pool to the output:
        // the output stays sorted and stands before everything still pooled.
        let mut ids: Vec<usize> = Vec::new();
        while pool.len() > 0
            invariant
                self.wf(),
                forall|k: int| #![trigger pool@[k]]
                    0 <= k < pool@.len() ==> pool@[k] < self.orders@.len() && side_matches(
                        self.orders@[pool@[k] as int],
                        token_from,
                        token_to,
                    ) && is_live(self.orders@[pool@[k] as int]),
                forall|k: int| #![trigger ids@[k]]
                    0 <= k < ids@.len() ==> ids@[k] < self.orders@.len() && side_matches(
                        self.orders@[ids@[k] as int],
                        token_from,
                        token_to,
                    ) && is_live(self.orders@[ids@[k] as int]),
                forall|j: int|
                    0 <= j < self.orders@.len() && side_matches(
                        #[trigger] self.orders@[j],
                        token_from,
                        token_to,
                    ) && is_live(self.orders@[j]) ==> ids@.contains(j as usize) || pool@.contains(
                        j as usize,
                    ),
                forall|k1: int, k2: int| 0 <= k1 < k2 < pool@.len() ==> pool@[k1] != pool@[k2],
                forall|k1: int, k2: int| 0 <= k1 < k2 < ids@.len() ==> ids@[k1] != ids@[k2],
                forall|k1: int, k2: int|
                    0 <= k1 < ids@.len() && 0 <= k2 < pool@.len() ==> ids@[k1] != pool@[k2],
                forall|k1: int, k2: int|
                    0 <= k1 < k2 < ids@.len() ==> prio_before(
                        self.orders@[ids@[k1] as int],
                        self.orders@[ids@[k2] as int],
                        ids@[k1] as int,
                        ids@[k2] as int,
                    ),
                forall|k1: int, k2: int|
                    0 <= k1 < ids@.len() && 0 <= k2 < pool@.len() ==> prio_before(
                        self.orders@[ids@[k1] as int],
                        self.orders@[pool@[k2] as int],
                        ids@[k1] as int,
                        pool@[k2] as int,
                    ),
            decreases pool.len(),
        {
            let ghost prev_pool = pool@;
            let ghost prev_ids = ids@;
            let m = pool.len();
            let mut best: usize = 0;
            let mut k: usize = 1;
            while k < m
                invariant
                    self.wf(),
                    m == pool@.len(),
                    0 < m,
                    best < k,
                    k <= m,
                    forall|k2: int| #![trigger pool@[k2]]
                        0 <= k2 < pool@.len() ==> pool@[k2] < self.orders@.len() && is_live(
                            self.orders@[pool@[k2] as int],
                        ),
                    forall|k1: int, k2: int| 0 <= k1 < k2 < pool@.len() ==> pool@[k1] != pool@[k2],
                    forall|k2: int|
                        0 <= k2 < k && k2 != best ==> prio_before(
                            self.orders@[pool@[best as int] as int],
                            self.orders@[pool@[k2] as int],
                            pool@[best as int] as int,
                            pool@[k2] as int,
                        ),
                decreases m - k,
            {
                let ghost prev_best = best as int;
                if self.prio_first(pool[k], pool[best]) {
                    proof {
                        assert forall|k2: int| 0 <= k2 < k + 1 && k2 != k implies prio_before(
                            self.orders@[pool@[k as int] as int],
                            self.orders@[pool@[k2] as int],
                            pool@[k as int] as int,
                            pool@[k2] as int,
                        ) by {
                            if k2 != prev_best {
                                lemma_prio_trans(
                                    self.orders@[pool@[k as int] as int],
                                    self.orders@[pool@[prev_best] as int],
                                    self.orders@[pool@[k2] as int],
                                    pool@[k as int] as int,
                                    pool@[prev_best] as int,
                                    pool@[k2] as int,
                                );
                            }
                        }
                    }
                    best = k;
                }
                k = k + 1;
            }
            let chosen = pool.remove(best);
            ids.push(chosen);
            proof {
                prev_pool.remove_ensures(best as int);
                assert(chosen == prev_pool[best as int]);
                assert forall|j: int|
                    0 <= j < self.orders@.len() && side_matches(
                        self.orders@[j],
                        token_from,
                        token_to,
                    ) && is_live(self.orders@[j]) implies ids@.contains(j as usize)
                    || pool@.contains(j as usize) by {
                    if prev_ids.contains(j as usize) {
                        let k1 = choose|k1: int|
                            0 <= k1 < prev_ids.len() && prev_ids[k1] == j as usize;
                        assert(ids@[k1] == j as usize);
                    } else {
                        let k1 = choose|k1: int|
                            0 <= k1 < prev_pool.len() && prev_pool[k1] == j as usize;
                        if k1 == best as int {
                            assert(ids@[ids@.len() - 1] == j as usize);
                        } else if k1 < best as int {
                            assert(pool@[k1] == j as usize);
                        } else {
                            assert(pool@[k1 - 1] == j as usize);
                        }
                    }
                }
            }
        }
        ids
    }
}

} // verus!
