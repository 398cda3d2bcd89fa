//! The contract facade: the public operation set of the exchange.
//!
//! A `DexContract` owns a ledger of balances and a store of orders, plus
//! the name, symbol and total supply of its own native token (the asset
//! with identifier [`NATIVE_ASSET`]). The facade validates inputs, calls
//! the ledger and the matching engine, and returns typed errors.
//!
//! The central invariant, kept by every operation: for each asset, the
//! sum of all ledger balances plus the escrow held by live orders — the
//! asset's total — changes only through `deposit`, `withdraw` and `burn`,
//! and by exactly the requested amount; trading moves value between
//! accounts but neither creates nor destroys it.

use vstd::prelude::*;

use crate::address::Address;
use crate::errors::DexError;
use crate::fill::compute_fill;
use crate::fill::lemma_taker_rate;
use crate::ledger::Ledger;
use crate::ledger::lemma_bal_le_sum;
use crate::orders::Order;
use crate::orders::OrderStatus;
use crate::orders::OrderStore;
use crate::orders::escrow_part;
use crate::orders::is_live;
use crate::orders::lemma_escrow_at_le;
use crate::orders::lemma_escrow_nonneg;
use crate::orders::lemma_paid_out_push;
use crate::orders::lemma_paid_out_refl;
use crate::orders::lemma_paid_out_update;
use crate::orders::lemma_u64_mul_fits;
use crate::orders::paid_out;
use crate::orders::side_matches;

verus! {

/// The asset identifier of the contract's own native token, the one
/// minted at construction and burned by `burn`.
pub const NATIVE_ASSET: u64 = 0;

/// What `place_order` produced: either the incoming order was fully
/// filled against resting orders and left nothing behind, or its
/// remainder now rests in the order store under the returned id.
#[derive(Clone, Copy, Debug, PartialEq, Eq, Structural)]
pub enum PlacedOrder {
    FullyFilled,
    Resting(usize),
}

/// No balance is ever negative: every balance the contract can report,
/// of any account in any asset and in any state, is an unsigned quantity
/// bounded below by zero.
pub proof fn lemma_no_negative_balance(c: DexContract, o: Seq<char>, a: u64)
    ensures
        c.balance(o, a) >= 0,
{
}

/// Reading a balance is a pure query: two `get_balance` results taken
/// from the same state — two calls with no mutation between them — are
/// identical, each being exactly the recorded balance.
pub proof fn lemma_get_balance_idempotent(
    c: DexContract,
    sender: Seq<char>,
    r1: Result<u64, DexError>,
    r2: Result<u64, DexError>,
)
    requires
        r1 == Ok::<u64, DexError>(c.balance(sender, NATIVE_ASSET)),
        r2 == Ok::<u64, DexError>(c.balance(sender, NATIVE_ASSET)),
    ensures
        r1 == r2,
{
}

/// Cancellation releases exactly the unfilled remainder. When an order
/// rests without any fill, `place_order` leaves the owner's balance of
/// the offered asset lowered by exactly `amount_from`, and `cancel_order`
/// raises it by exactly the unfilled remainder, here the whole
/// `amount_from`: the balance before placing returns after cancelling.
pub proof fn lemma_cancel_restores_balance(
    before_place: DexContract,
    after_place: DexContract,
    after_cancel: DexContract,
    owner: Seq<char>,
    token_from: u64,
    amount_from: u64,
)
    requires
        after_place.balance(owner, token_from) as int == before_place.balance(owner, token_from)
            - amount_from,
        after_cancel.balance(owner, token_from) as int == after_place.balance(owner, token_from)
            + amount_from,
    ensures
        after_cancel.balance(owner, token_from) == before_place.balance(owner, token_from),
{
}

/// How one pre-existing order may change across a `place_order` call
/// with the given arguments: either it is untouched, or — only for a
/// live, opposite-side order of another account whose rate is compatible
/// with the incoming limit — it is reduced by one positive fill at the
/// order's own exact rate (so its remaining amounts keep their ratio and
/// never increase), becoming `Filled` exactly when its offer is
/// exhausted and `PartiallyFilled` otherwise.
pub open spec fn maker_transition(
    a: Order,
    b: Order,
    owner: Seq<char>,
    token_from: u64,
    token_to: u64,
    amount_from: u64,
    amount_to: u64,
) -> bool {
    &&& b.owner == a.owner
    &&& b.token_from == a.token_from
    &&& b.token_to == a.token_to
    &&& b.amount_from_remaining <= a.amount_from_remaining
    &&& b.amount_to_remaining <= a.amount_to_remaining
    &&& (b == a || ({
        &&& is_live(a)
        &&& side_matches(a, token_from, token_to)
        &&& a.owner@ != owner
        &&& (a.amount_from_remaining as int) * (amount_from as int) >= (amount_to as int) * (
        a.amount_to_remaining as int)
        &&& a.amount_from_remaining > b.amount_from_remaining
        &&& (a.amount_from_remaining - b.amount_from_remaining) * (a.amount_to_remaining as int)
            == (a.amount_to_remaining - b.amount_to_remaining) * (a.amount_from_remaining as int)
        &&& b.status == (if b.amount_from_remaining == 0 {
            OrderStatus::Filled
        } else {
            OrderStatus::PartiallyFilled
        })
    }))
}

/// What `place_order` leaves behind when the incoming order is not fully
/// satisfied: its remainder rests as a new live order at the next id,
/// owned by the caller, over the requested pair, within the requested
/// amounts; it is `Open` exactly when nothing filled, in which case both
/// amounts are whole; the caller's offered balance is down by exactly
/// the escrowed `amount_from` and its wanted balance is up by exactly
/// what the fills delivered.
pub open spec fn rested_remainder(
    old_c: DexContract,
    new_c: DexContract,
    owner: Seq<char>,
    token_from: u64,
    token_to: u64,
    amount_from: u64,
    amount_to: u64,
    id: int,
) -> bool {
    let o = new_c.orders.orders@[id];
    &&& id == old_c.orders.orders@.len()
    &&& new_c.orders.orders@.len() == id + 1
    &&& o.owner@ == owner
    &&& o.token_from == token_from
    &&& o.token_to == token_to
    &&& is_live(o)
    &&& 0 < o.amount_from_remaining <= amount_from
    &&& 0 < o.amount_to_remaining <= amount_to
    &&& (o.status == OrderStatus::Open <==> o.amount_to_remaining == amount_to)
    &&& (o.amount_to_remaining == amount_to ==> o.amount_from_remaining == amount_from)
    &&& new_c.balance(owner, token_from) as int == old_c.balance(owner, token_from) - amount_from
    &&& new_c.balance(owner, token_to) as int == old_c.balance(owner, token_to) + amount_to
        - o.amount_to_remaining
}

/// Whether position `j` holds the only live opposite-side order for a
/// trade from `token_from` to `token_to`, and it belongs to another
/// account than the taker.
pub open spec fn lone_candidate(
    s: Seq<Order>,
    j: int,
    owner: Seq<char>,
    token_from: u64,
    token_to: u64,
) -> bool {
    &&& 0 <= j < s.len()
    &&& side_matches(s[j], token_from, token_to)
    &&& is_live(s[j])
    &&& s[j].owner@ != owner
    &&& forall|j2: int|
        0 <= j2 < s.len() && j2 != j ==> !(side_matches(#[trigger] s[j2], token_from, token_to)
            && is_live(s[j2]))
}

/// The exact outcome of `place_order` against a lone candidate at
/// position `j`: one maximal whole-lot fill at the maker's rate — none
/// when the maker's rate is incompatible with the taker's limit or not
/// even one lot fits — then the usual remainder handling. Settlement is
/// two-legged: the maker's balance gains exactly what the taker paid,
/// the taker's gains exactly what the maker gave.
pub open spec fn lone_candidate_outcome(
    old_c: DexContract,
    new_c: DexContract,
    r: Result<PlacedOrder, DexError>,
    owner: Seq<char>,
    token_from: u64,
    token_to: u64,
    amount_from: u64,
    amount_to: u64,
    j: int,
) -> bool {
    let m = old_c.orders.orders@[j];
    let q = crate::fill::fill_quanta(
        m.amount_from_remaining,
        m.amount_to_remaining,
        amount_from,
        amount_to,
    );
    let take = q.0;
    let pay = q.1;
    let compatible = (m.amount_from_remaining as int) * (amount_from as int) >= (
    amount_to as int) * (m.amount_to_remaining as int);
    let rest_id = old_c.orders.orders@.len() as int;
    if !compatible || take == 0 {
        &&& r == Ok::<PlacedOrder, DexError>(PlacedOrder::Resting(rest_id as usize))
        &&& new_c.orders.orders@[j] == m
        &&& new_c.orders.orders@[rest_id].amount_from_remaining == amount_from
        &&& new_c.orders.orders@[rest_id].amount_to_remaining == amount_to
        &&& new_c.balance(m.owner@, token_from) == old_c.balance(m.owner@, token_from)
    } else {
        &&& new_c.orders.orders@[j] == (Order {
            amount_from_remaining: (m.amount_from_remaining - take) as u64,
            amount_to_remaining: (m.amount_to_remaining - pay) as u64,
            status: if m.amount_from_remaining == take {
                OrderStatus::Filled
            } else {
                OrderStatus::PartiallyFilled
            },
            ..m
        })
        &&& new_c.balance(m.owner@, token_from) as int == old_c.balance(m.owner@, token_from)
            + pay
        &&& new_c.balance(owner, token_to) as int == old_c.balance(owner, token_to) + take
        &&& if take == amount_to {
            &&& r == Ok::<PlacedOrder, DexError>(PlacedOrder::FullyFilled)
            &&& new_c.balance(owner, token_from) as int == old_c.balance(owner, token_from) - pay
        } else {
            &&& r == Ok::<PlacedOrder, DexError>(PlacedOrder::Resting(rest_id as usize))
            &&& new_c.balance(owner, token_from) as int == old_c.balance(owner, token_from)
                - amount_from
            &&& new_c.orders.orders@[rest_id].amount_from_remaining as int == amount_from - pay
            &&& new_c.orders.orders@[rest_id].amount_to_remaining as int == amount_to - take
        }
    }
}

/// The accounting and matching core of the exchange.
pub struct DexContract {
    pub name: String,
    pub symbol: String,
    pub total_supply: u64,
    pub ledger: Ledger,
    pub orders: OrderStore,
}

impl DexContract {
    /// The balance of an account in an asset; absence reads as zero.
    pub open spec fn balance(self, o: Seq<char>, a: u64) -> u64 {
        self.ledger.balance(o, a)
    }

    /// The total of an asset over the whole contract: every ledger
    /// balance plus every live order's escrow.
    pub open spec fn asset_total(self, a: u64) -> int {
        self.ledger.sum(a) + self.orders.escrow(a)
    }

    /// Well-formedness: ledger and order store are consistent, and the
    /// recorded total supply equals the native asset's total.
    pub open spec fn wf(self) -> bool {
        &&& self.ledger.wf()
        &&& self.orders.wf()
        &&& self.total_supply as int == self.asset_total(NATIVE_ASSET)
    }

    /// Whether this value satisfies the facade's well-formedness
    /// invariant. A host that rebuilds the contract from a persisted
    /// snapshot calls this before dispatching operations: a `true`
    /// result re-establishes what every operation's contract requires.
    pub fn check_wf(&self) -> (r: bool)
        ensures
            r == self.wf(),
    {
        if !self.ledger.check_keys_unique() {
            return false;
        }
        if !self.orders.check_orders_ok() {
            return false;
        }
        let total = self.ledger.sum_of(NATIVE_ASSET);
        let escrowed = self.orders.escrow_of(NATIVE_ASSET);
        proof {
            crate::ledger::lemma_sum_nonneg(self.ledger.entries@, NATIVE_ASSET);
            lemma_escrow_nonneg(self.orders.orders@, NATIVE_ASSET);
        }
        if escrowed > u128::MAX - total {
            return false;
        }
        (self.total_supply as u128) == total + escrowed
    }

    /// A fresh contract: the creator holds the whole initial supply of
    /// the native token, every other balance is zero, no orders rest.
    pub fn new(creator: &Address, initial_supply: u64, name: String, symbol: String) -> (r:
        DexContract)
        ensures
            r.wf(),
            r.name == name,
            r.symbol == symbol,
            r.total_supply == initial_supply,
            r.balance(creator@, NATIVE_ASSET) == initial_supply,
            forall|o: Seq<char>, a: u64|
                o != creator@ || a != NATIVE_ASSET ==> #[trigger] r.balance(o, a) == 0,
            forall|a: u64| #![trigger r.asset_total(a)]
                r.asset_total(a) == if a == NATIVE_ASSET {
                    initial_supply as int
                } else {
                    0
                },
            r.orders.orders@.len() == 0,
    {
        let mut ledger = Ledger::new();
        let c = ledger.credit(creator, NATIVE_ASSET, initial_supply);
        assert(c is Ok);
        DexContract { name, symbol, total_supply: initial_supply, ledger, orders: OrderStore::new() }
    }

    /// The name of the native token.
    pub fn get_name(&self) -> (r: Result<String, DexError>)
        ensures
            r == Ok::<String, DexError>(self.name),
    {
        Ok(self.name.clone())
    }

    /// The symbol of the native token.
    pub fn get_symbol(&self) -> (r: Result<String, DexError>)
        ensures
            r == Ok::<String, DexError>(self.symbol),
    {
        Ok(self.symbol.clone())
    }

    /// The caller's balance of the native token. Never fails; an account
    /// never credited reads as zero.
    pub fn get_balance(&self, msg_sender: &Address) -> (r: Result<u64, DexError>)
        ensures
            r == Ok::<u64, DexError>(self.balance(msg_sender@, NATIVE_ASSET)),
    {
        Ok(self.ledger.balance_of(msg_sender, NATIVE_ASSET))
    }

    /// An account's balance of any asset. Never fails; absence reads as
    /// zero.
    pub fn get_user_balance(&self, owner: &Address, asset: u64) -> (r: u64)
        ensures
            r == self.balance(owner@, asset),
    {
        self.ledger.balance_of(owner, asset)
    }

    /// Mints `amount` of `asset` into the owner's balance. Fails with
    /// `Overflow`, changing nothing, exactly when the balance — or, for
    /// the native asset, the total supply — would leave the representable
    /// range. The asset's total grows by exactly `amount`.
    pub fn deposit(&mut self, owner: &Address, asset: u64, amount: u64) -> (r: Result<
        (),
        DexError,
    >)
        requires
            old(self).wf(),
        ensures
            final(self).wf(),
            r is Ok <==> old(self).balance(owner@, asset) + amount <= u64::MAX && (asset
                != NATIVE_ASSET || old(self).total_supply + amount <= u64::MAX),
            r is Err ==> r == Err::<(), DexError>(DexError::Overflow),
            forall|o: Seq<char>, a: u64| #![trigger final(self).balance(o, a)]
                final(self).balance(o, a) == if r is Ok && o == owner@ && a == asset {
                    (old(self).balance(owner@, asset) + amount) as u64
                } else {
                    old(self).balance(o, a)
                },
            forall|a: u64| #![trigger final(self).asset_total(a)]
                final(self).asset_total(a) == old(self).asset_total(a) + if r is Ok && a == asset {
                    amount as int
                } else {
                    0
                },
            final(self).orders.orders@ == old(self).orders.orders@,
            final(self).total_supply == if r is Ok && asset == NATIVE_ASSET {
                (old(self).total_supply + amount) as u64
            } else {
                old(self).total_supply
            },
            final(self).name == old(self).name,
            final(self).symbol == old(self).symbol,
    {
        if asset == NATIVE_ASSET {
            if amount > u64::MAX - self.total_supply {
                proof {
                    lemma_bal_le_sum(self.ledger.entries@, owner@, asset);
                    lemma_escrow_nonneg(self.orders.orders@, asset);
                }
                return Err(DexError::Overflow);
            }
        }
        let c = self.ledger.credit(owner, asset, amount);
        match c {
            Ok(()) => {
                if asset == NATIVE_ASSET {
                    self.total_supply = self.total_supply + amount;
                }
                Ok(())
            },
            Err(e) => Err(e),
        }
    }

    /// Withdraws (burns) `amount` of `asset` from the owner's spendable
    /// balance. Funds escrowed by the owner's open orders are not
    /// spendable. Fails with `InsufficientFunds`, changing nothing,
    /// exactly when the spendable balance is smaller than `amount`. The
    /// asset's total shrinks by exactly `amount`.
    pub fn withdraw(&mut self, owner: &Address, asset: u64, amount: u64) -> (r: Result<
        (),
        DexError,
    >)
        requires
            old(self).wf(),
        ensures
            final(self).wf(),
            r is Ok <==> old(self).balance(owner@, asset) >= amount,
            r is Err ==> r == Err::<(), DexError>(DexError::InsufficientFunds),
            forall|o: Seq<char>, a: u64| #![trigger final(self).balance(o, a)]
                final(self).balance(o, a) == if r is Ok && o == owner@ && a == asset {
                    (old(self).balance(owner@, asset) - amount) as u64
                } else {
                    old(self).balance(o, a)
                },
            forall|a: u64| #![trigger final(self).asset_total(a)]
                final(self).asset_total(a) == old(self).asset_total(a) - if r is Ok && a == asset {
                    amount as int
                } else {
                    0
                },
            final(self).orders.orders@ == old(self).orders.orders@,
            final(self).total_supply == if r is Ok && asset == NATIVE_ASSET {
                (old(self).total_supply - amount) as u64
            } else {
                old(self).total_supply
            },
            final(self).name == old(self).name,
            final(self).symbol == old(self).symbol,
    {
        proof {
            lemma_bal_le_sum(self.ledger.entries@, owner@, asset);
            lemma_escrow_nonneg(self.orders.orders@, asset);
        }
        let d = self.ledger.debit(owner, asset, amount);
        match d {
            Ok(()) => {
                if asset == NATIVE_ASSET {
                    self.total_supply = self.total_supply - amount;
                }
                Ok(())
            },
            Err(e) => Err(e),
        }
    }

    /// Moves `value` of the native token from the caller to `to`,
    /// atomically: on any failure nothing changes.
    pub fn transfer(&mut self, msg_sender: &Address, to: &Address, value: u64) -> (r: Result<
        (),
        DexError,
    >)
        requires
            old(self).wf(),
        ensures
            final(self).wf(),
            msg_sender@ == to@ ==> (r is Ok <==> old(self).balance(msg_sender@, NATIVE_ASSET)
                >= value),
            msg_sender@ != to@ ==> (r is Ok <==> old(self).balance(msg_sender@, NATIVE_ASSET)
                >= value && old(self).balance(to@, NATIVE_ASSET) + value <= u64::MAX),
            old(self).balance(msg_sender@, NATIVE_ASSET) < value ==> r == Err::<(), DexError>(
                DexError::InsufficientFunds,
            ),
            r is Err ==> (r == Err::<(), DexError>(DexError::InsufficientFunds) || r == Err::<
                (),
                DexError,
            >(DexError::Overflow)),
            forall|o: Seq<char>, a: u64| #![trigger final(self).balance(o, a)]
                final(self).balance(o, a) == if r is Ok && msg_sender@ != to@ && o == msg_sender@
                    && a == NATIVE_ASSET {
                    (old(self).balance(msg_sender@, NATIVE_ASSET) - value) as u64
                } else if r is Ok && msg_sender@ != to@ && o == to@ && a == NATIVE_ASSET {
                    (old(self).balance(to@, NATIVE_ASSET) + value) as u64
                } else {
                    old(self).balance(o, a)
                },
            forall|a: u64| #![trigger final(self).asset_total(a)]
                final(self).asset_total(a) == old(self).asset_total(a),
            final(self).orders.orders@ == old(self).orders.orders@,
            final(self).total_supply == old(self).total_supply,
            final(self).name == old(self).name,
            final(self).symbol == old(self).symbol,
    {
        self.ledger.transfer(msg_sender, to, NATIVE_ASSET, value)
    }

    /// Destroys `value` of the caller's native-token balance and shrinks
    /// the total supply by the same amount. Fails with
    /// `InsufficientFunds`, changing nothing, exactly when the balance is
    /// smaller than `value`.
    pub fn burn(&mut self, msg_sender: &Address, value: u64) -> (r: Result<(), DexError>)
        requires
            old(self).wf(),
        ensures
            final(self).wf(),
            r is Ok <==> old(self).balance(msg_sender@, NATIVE_ASSET) >= value,
            r is Err ==> r == Err::<(), DexError>(DexError::InsufficientFunds),
            r is Ok ==> final(self).total_supply == old(self).total_supply - value,
            r is Err ==> final(self).total_supply == old(self).total_supply,
            forall|a: u64| #![trigger final(self).asset_total(a)]
                final(self).asset_total(a) == old(self).asset_total(a) - if r is Ok && a
                    == NATIVE_ASSET {
                    value as int
                } else {
                    0
                },
            forall|o: Seq<char>, a: u64| #![trigger final(self).balance(o, a)]
                final(self).balance(o, a) == if r is Ok && o == msg_sender@ && a == NATIVE_ASSET {
                    (old(self).balance(msg_sender@, NATIVE_ASSET) - value) as u64
                } else {
                    old(self).balance(o, a)
                },
            final(self).orders.orders@ == old(self).orders.orders@,
            final(self).name == old(self).name,
            final(self).symbol == old(self).symbol,
    {
        self.withdraw(msg_sender, NATIVE_ASSET, value)
    }

    /// Cancels a live order of the caller and releases its escrow: the
    /// unfilled `amount_from_remaining` returns to the caller's balance,
    /// and is also the returned value. Fails with `OrderNotFound` for an
    /// unknown id, `NotOwner` when the caller does not own the order,
    /// `AlreadyTerminal` when the order is Filled or Cancelled, and
    /// `Overflow` when releasing the escrow would overflow the balance;
    /// on failure nothing changes. Every asset's total is unchanged.
    pub fn cancel_order(&mut self, owner: &Address, order_id: usize) -> (r: Result<u64, DexError>)
        requires
            old(self).wf(),
        ensures
            final(self).wf(),
            order_id >= old(self).orders.orders@.len() ==> r == Err::<u64, DexError>(
                DexError::OrderNotFound,
            ),
            order_id < old(self).orders.orders@.len() && old(self).orders.orders@[order_id as int].owner@ != owner@ ==> r == Err::<u64, DexError>(
                DexError::NotOwner,
            ),
            order_id < old(self).orders.orders@.len() && old(self).orders.orders@[order_id as int].owner@ == owner@ && !is_live(
                old(self).orders.orders@[order_id as int],
            ) ==> r == Err::<u64, DexError>(DexError::AlreadyTerminal),
            r is Err ==> *final(self) == *old(self),
            order_id < old(self).orders.orders@.len() && old(
                self,
            ).orders.orders@[order_id as int].owner@ == owner@ && is_live(
                old(self).orders.orders@[order_id as int],
            ) ==> if old(self).balance(owner@, old(self).orders.orders@[order_id as int].token_from)
                + old(self).orders.orders@[order_id as int].amount_from_remaining <= u64::MAX {
                r is Ok
            } else {
                r == Err::<u64, DexError>(DexError::Overflow)
            },
            r is Ok ==> ({
                let o = old(self).orders.orders@[order_id as int];
                &&& order_id < old(self).orders.orders@.len()
                &&& o.owner@ == owner@
                &&& is_live(o)
                &&& r == Ok::<u64, DexError>(o.amount_from_remaining)
                &&& final(self).orders.orders@ == old(self).orders.orders@.update(
                    order_id as int,
                    Order { status: OrderStatus::Cancelled, ..o },
                )
                &&& forall|o2: Seq<char>, a: u64| #![trigger final(self).balance(o2, a)]
                    final(self).balance(o2, a) == if o2 == owner@ && a == o.token_from {
                        (old(self).balance(owner@, o.token_from) + o.amount_from_remaining) as u64
                    } else {
                        old(self).balance(o2, a)
                    }
            }),
            forall|a: u64| #![trigger final(self).asset_total(a)]
                final(self).asset_total(a) == old(self).asset_total(a),
            final(self).total_supply == old(self).total_supply,
            final(self).name == old(self).name,
            final(self).symbol == old(self).symbol,
    {
        let (tf, afr, owner_ok, live) = match self.orders.get(order_id) {
            None => {
                return Err(DexError::OrderNotFound);
            },
            Some(o) => {
                let live = match o.status {
                    OrderStatus::Open => true,
                    OrderStatus::PartiallyFilled => true,
                    _ => false,
                };
                (o.token_from, o.amount_from_remaining, o.owner.same(owner), live)
            },
        };
        if !owner_ok {
            return Err(DexError::NotOwner);
        }
        if !live {
            return Err(DexError::AlreadyTerminal);
        }
        let held = self.ledger.balance_of(owner, tf);
        if afr > u64::MAX - held {
            // Releasing the escrow would overflow the owner's balance.
            return Err(DexError::Overflow);
        }
        let cancelled = self.orders.cancel(order_id, owner);
        let released = match cancelled {
            Ok(v) => v,
            Err(_) => {
                // Unreachable: the order was checked to be the caller's
                // and live.
                assert(false);
                0
            },
        };
        let c = self.ledger.credit(owner, tf, released);
        assert(c is Ok);
        Ok(released)
    }

    /// Places an order to give `amount_from` of `token_from` for at least
    /// `amount_to` of `token_to`, at the implied limit rate.
    ///
    /// The whole `amount_from` is escrowed up front; the engine then
    /// walks the opposite-side resting orders in priority order and
    /// settles each compatible fill at the resting (maker) order's rate.
    /// A remainder rests in the order store under the returned id; a
    /// fully satisfied order returns `FullyFilled` and the unspent escrow
    /// returns to the caller. An order never fills against the caller's
    /// own resting orders.
    ///
    /// The contract pins the settlement: every pre-existing order either
    /// stays untouched or — only a live, opposite-side, rate-compatible
    /// order of another account — shrinks by one fill in its own exact
    /// ratio, and every account other than the caller gains of the
    /// offered asset exactly what fills paid toward its orders. When the
    /// remainder rests, no live compatible order is left that could
    /// still fill one whole lot against it: the book never rests
    /// crossed. Against at most one candidate the whole outcome is fixed
    /// exactly.
    ///
    /// Failures: `InvalidOrder` (equal assets or a zero amount) and
    /// `InsufficientFunds` (spendable balance below `amount_from`) abort
    /// with no state change. A credit overflow on one leg of one fill
    /// abandons only that fill, stops matching, rests the remainder,
    /// and reports `Overflow`; it cannot occur while both assets' totals
    /// are representable. Every asset's total is unchanged: matching is
    /// a zero-sum transfer.
    pub fn place_order(
        &mut self,
        owner: &Address,
        token_from: u64,
        token_to: u64,
        amount_from: u64,
        amount_to: u64,
    ) -> (r: Result<PlacedOrder, DexError>)
        requires
            old(self).wf(),
        ensures
            final(self).wf(),
            (r == Err::<PlacedOrder, DexError>(DexError::InvalidOrder) <==> (token_from == token_to
                || amount_from == 0 || amount_to == 0)),
            r == Err::<PlacedOrder, DexError>(DexError::InvalidOrder) ==> *final(self)
                == *old(self),
            (r == Err::<PlacedOrder, DexError>(DexError::InsufficientFunds) <==> (token_from
                != token_to && amount_from > 0 && amount_to > 0 && old(self).balance(
                owner@,
                token_from,
            ) < amount_from)),
            r == Err::<PlacedOrder, DexError>(DexError::InsufficientFunds)
                ==> final(self).orders.orders@ == old(self).orders.orders@ && forall|o: Seq<char>, a: u64|
                #![trigger final(self).balance(o, a)]
                final(self).balance(o, a) == old(self).balance(o, a),
            r is Err ==> r == Err::<PlacedOrder, DexError>(DexError::InvalidOrder) || r == Err::<
                PlacedOrder,
                DexError,
            >(DexError::InsufficientFunds) || r == Err::<PlacedOrder, DexError>(DexError::Overflow),
            token_from != token_to && amount_from > 0 && amount_to > 0 && old(self).balance(
                owner@,
                token_from,
            ) >= amount_from && old(self).asset_total(token_from) <= u64::MAX && old(self).asset_total(token_to) <= u64::MAX ==> r is Ok,
            forall|a: u64| #![trigger final(self).asset_total(a)]
                final(self).asset_total(a) == old(self).asset_total(a),
            final(self).total_supply == old(self).total_supply,
            final(self).name == old(self).name,
            final(self).symbol == old(self).symbol,
            r == Ok::<PlacedOrder, DexError>(PlacedOrder::FullyFilled) ==> old(self).balance(
                owner@,
                token_to,
            ) + amount_to <= u64::MAX && final(self).balance(owner@, token_to) == (old(self).balance(owner@, token_to) + amount_to) as u64 && final(self).balance(
                owner@,
                token_from,
            ) as int >= old(self).balance(owner@, token_from) - amount_from && final(self).balance(
                owner@,
                token_from,
            ) <= old(self).balance(owner@, token_from) && final(self).orders.orders@.len() == old(self).orders.orders@.len(),
            r matches Ok(PlacedOrder::Resting(id)) ==> rested_remainder(
                *old(self),
                *final(self),
                owner@,
                token_from,
                token_to,
                amount_from,
                amount_to,
                id as int,
            ),
            r == Err::<PlacedOrder, DexError>(DexError::Overflow) ==> rested_remainder(
                *old(self),
                *final(self),
                owner@,
                token_from,
                token_to,
                amount_from,
                amount_to,
                old(self).orders.orders@.len() as int,
            ),
            forall|j: int|
                0 <= j < old(self).orders.orders@.len() ==> maker_transition(
                    #[trigger] old(self).orders.orders@[j],
                    final(self).orders.orders@[j],
                    owner@,
                    token_from,
                    token_to,
                    amount_from,
                    amount_to,
                ),
            forall|o: Seq<char>, a: u64|
                a != token_from && a != token_to ==> #[trigger] final(self).balance(o, a) == old(
                    self,
                ).balance(o, a),
            forall|o: Seq<char>|
                o != owner@ ==> #[trigger] final(self).balance(o, token_to) == old(self).balance(
                    o,
                    token_to,
                ),
            forall|o: Seq<char>|
                o != owner@ ==> #[trigger] final(self).balance(o, token_from) as int == old(
                    self,
                ).balance(o, token_from) + paid_out(
                    old(self).orders.orders@,
                    final(self).orders.orders@,
                    o,
                ),
            forall|j: int|
                token_from != token_to && amount_from > 0 && amount_to > 0 && old(self).balance(
                    owner@,
                    token_from,
                ) >= amount_from && old(self).asset_total(token_from) <= u64::MAX && old(
                    self,
                ).asset_total(token_to) <= u64::MAX && #[trigger] lone_candidate(
                    old(self).orders.orders@,
                    j,
                    owner@,
                    token_from,
                    token_to,
                ) ==> lone_candidate_outcome(
                    *old(self),
                    *final(self),
                    r,
                    owner@,
                    token_from,
                    token_to,
                    amount_from,
                    amount_to,
                    j,
                ),
            r matches Ok(PlacedOrder::Resting(id)) ==> forall|j: int|
                0 <= j < old(self).orders.orders@.len() && final(self).orders.orders@[j]
                    == #[trigger] old(self).orders.orders@[j] && is_live(
                    old(self).orders.orders@[j],
                ) && side_matches(old(self).orders.orders@[j], token_from, token_to) && old(
                    self,
                ).orders.orders@[j].owner@ != owner@ && (old(
                    self,
                ).orders.orders@[j].amount_from_remaining as int) * (amount_from as int) >= (
                amount_to as int) * (old(self).orders.orders@[j].amount_to_remaining as int)
                    ==> crate::fill::fill_quanta(
                    old(self).orders.orders@[j].amount_from_remaining,
                    old(self).orders.orders@[j].amount_to_remaining,
                    final(self).orders.orders@[id as int].amount_from_remaining,
                    final(self).orders.orders@[id as int].amount_to_remaining,
                ).0 == 0,
            token_from != token_to && amount_from > 0 && amount_to > 0 && old(self).balance(
                owner@,
                token_from,
            ) >= amount_from && (forall|j: int|
                0 <= j < old(self).orders.orders@.len() ==> !(side_matches(
                    #[trigger] old(self).orders.orders@[j],
                    token_from,
                    token_to,
                ) && is_live(old(self).orders.orders@[j]))) ==> r == Ok::<PlacedOrder, DexError>(
                PlacedOrder::Resting(old(self).orders.orders@.len() as usize),
            ) && final(self).orders.orders@[old(self).orders.orders@.len() as int].amount_to_remaining
                == amount_to,
    {
        proof {
            assert forall|o: Seq<char>|
                paid_out(self.orders.orders@, self.orders.orders@, o) == 0 by {
                lemma_paid_out_refl(self.orders.orders@, o);
            }
        }
        if token_from == token_to || amount_from == 0 || amount_to == 0 {
            return Err(DexError::InvalidOrder);
        }
        // Escrow the whole offered amount up front; matching never
        // re-reads the caller's spendable balance.
        let escrowed = self.ledger.debit(owner, token_from, amount_from);
        if escrowed.is_err() {
            return Err(DexError::InsufficientFunds);
        }
        let cands = self.orders.candidates_for(token_from, token_to);
        proof {
            assert(self.orders.orders@ == old(self).orders.orders@);
            if cands@.len() > 0 {
                assert(side_matches(old(self).orders.orders@[cands@[0] as int], token_from, token_to));
                assert(is_live(old(self).orders.orders@[cands@[0] as int]));
            }
        }
        let n = cands.len();
        let order_count = self.orders.len();
        proof {
            assert(order_count as int == old(self).orders.orders@.len());
        }
        let mut rem_pay: u64 = amount_from;
        let mut rem_want: u64 = amount_to;
        let mut failed = false;
        let mut k: usize = 0;
        while k < n && rem_want > 0 && !failed
            invariant
                old(self).wf(),
                self.ledger.wf(),
                self.orders.wf(),
                self.total_supply == old(self).total_supply,
                self.name == old(self).name,
                self.symbol == old(self).symbol,
                token_from != token_to,
                0 < amount_from,
                0 < amount_to,
                old(self).balance(owner@, token_from) >= amount_from,
                k <= n,
                n == cands@.len(),
                self.orders.orders@.len() == old(self).orders.orders@.len(),
                forall|j: int| #![trigger cands@[j]]
                    0 <= j < cands@.len() ==> cands@[j] < self.orders.orders@.len(),
                forall|k1: int, k2: int| 0 <= k1 < k2 < cands@.len() ==> cands@[k1] != cands@[k2],
                forall|k2: int| #![trigger cands@[k2]]
                    0 <= k2 < cands@.len() ==> side_matches(
                        old(self).orders.orders@[cands@[k2] as int],
                        token_from,
                        token_to,
                    ) && is_live(old(self).orders.orders@[cands@[k2] as int]),
                forall|k2: int|
                    k <= k2 < cands@.len() ==> #[trigger] self.orders.orders@[cands@[k2] as int]
                        == old(self).orders.orders@[cands@[k2] as int],
                k == 0 ==> self.orders.orders@ == old(self).orders.orders@ && rem_pay
                    == amount_from && rem_want == amount_to && !failed,
                forall|k2: int| #![trigger cands@[k2]]
                    0 <= k2 < k && !failed ==> ({
                        let m = old(self).orders.orders@[cands@[k2] as int];
                        (self.orders.orders@[cands@[k2] as int] == m && is_live(m) && m.owner@
                            != owner@ && (m.amount_from_remaining as int) * (amount_from as int)
                            >= (amount_to as int) * (m.amount_to_remaining as int))
                            ==> crate::fill::fill_quanta(
                            m.amount_from_remaining,
                            m.amount_to_remaining,
                            rem_pay,
                            rem_want,
                        ).0 == 0
                    }),
                forall|j: int|
                    old(self).asset_total(token_from) <= u64::MAX && old(self).asset_total(
                        token_to,
                    ) <= u64::MAX && #[trigger] lone_candidate(
                        old(self).orders.orders@,
                        j,
                        owner@,
                        token_from,
                        token_to,
                    ) && k >= 1 ==> ({
                        let m = old(self).orders.orders@[j];
                        let q = crate::fill::fill_quanta(
                            m.amount_from_remaining,
                            m.amount_to_remaining,
                            amount_from,
                            amount_to,
                        );
                        let take = q.0;
                        let pay = q.1;
                        let compatible = (m.amount_from_remaining as int) * (amount_from as int)
                            >= (amount_to as int) * (m.amount_to_remaining as int);
                        &&& !failed
                        &&& if !compatible || take == 0 {
                            &&& self.orders.orders@[j] == m
                            &&& rem_pay == amount_from
                            &&& rem_want == amount_to
                            &&& self.ledger.balance(m.owner@, token_from) == old(self).balance(
                                m.owner@,
                                token_from,
                            )
                        } else {
                            &&& self.orders.orders@[j] == (Order {
                                amount_from_remaining: (m.amount_from_remaining - take) as u64,
                                amount_to_remaining: (m.amount_to_remaining - pay) as u64,
                                status: if m.amount_from_remaining == take {
                                    OrderStatus::Filled
                                } else {
                                    OrderStatus::PartiallyFilled
                                },
                                ..m
                            })
                            &&& rem_pay as int == amount_from - pay
                            &&& rem_want as int == amount_to - take
                            &&& self.ledger.balance(m.owner@, token_from) as int == old(
                                self,
                            ).balance(m.owner@, token_from) + pay
                        }
                    }),
                forall|j: int|
                    0 <= j < old(self).orders.orders@.len() ==> maker_transition(
                        #[trigger] old(self).orders.orders@[j],
                        self.orders.orders@[j],
                        owner@,
                        token_from,
                        token_to,
                        amount_from,
                        amount_to,
                    ),
                forall|o: Seq<char>, a: u64|
                    a != token_from && a != token_to ==> #[trigger] self.ledger.balance(o, a)
                        == old(self).balance(o, a),
                forall|o: Seq<char>|
                    o != owner@ ==> #[trigger] self.ledger.balance(o, token_to) == old(
                        self,
                    ).balance(o, token_to),
                forall|o: Seq<char>|
                    o != owner@ ==> #[trigger] self.ledger.balance(o, token_from) as int == old(
                        self,
                    ).balance(o, token_from) + paid_out(
                        old(self).orders.orders@,
                        self.orders.orders@,
                        o,
                    ),
                rem_pay <= amount_from,
                rem_want <= amount_to,
                (rem_want == amount_to <==> rem_pay == amount_from),
                cands@.len() == 0 ==> rem_want == amount_to && !failed,
                rem_pay as int * amount_to as int >= rem_want as int * amount_from as int,
                self.ledger.balance(owner@, token_from) as int == old(self).balance(
                    owner@,
                    token_from,
                ) - amount_from,
                self.ledger.balance(owner@, token_to) as int == old(self).balance(owner@, token_to)
                    + amount_to - rem_want,
                old(self).balance(owner@, token_to) + amount_to - rem_want <= u64::MAX,
                forall|a: u64| #![trigger self.ledger.sum(a)]
                    self.ledger.sum(a) + self.orders.escrow(a) + (if a == token_from {
                        rem_pay as int
                    } else {
                        0
                    }) == old(self).asset_total(a),
                failed ==> old(self).asset_total(token_from) > u64::MAX || old(self).asset_total(
                    token_to,
                ) > u64::MAX,
            decreases n - k,
        {
            let ghost entry_orders = self.orders.orders@;
            let ghost entry_k = k as int;
            let id = cands[k];
            let m_live = match self.orders.orders[id].status {
                OrderStatus::Open => true,
                OrderStatus::PartiallyFilled => true,
                _ => false,
            };
            let m_side = self.orders.orders[id].token_from == token_to
                && self.orders.orders[id].token_to == token_from;
            let m_from = self.orders.orders[id].amount_from_remaining;
            let m_to = self.orders.orders[id].amount_to_remaining;
            let m_owner = self.orders.orders[id].owner.dup();
            let own = m_owner.same(owner);
            proof {
                lemma_paid_out_refl(old(self).orders.orders@, m_owner@);
            }
            if m_live && m_side && !own {
                proof {
                    lemma_u64_mul_fits(m_from as int, amount_from as int);
                    lemma_u64_mul_fits(amount_to as int, m_to as int);
                }
                let compatible = (m_from as u128) * (amount_from as u128) >= (amount_to as u128)
                    * (m_to as u128);
                if compatible {
                    let fill = compute_fill(m_from, m_to, rem_pay, rem_want);
                    let take = fill.0;
                    let pay = fill.1;
                    if take > 0 {
                        let maker_held = self.ledger.balance_of(&m_owner, token_from);
                        let taker_held = self.ledger.balance_of(owner, token_to);
                        if pay > u64::MAX - maker_held || take > u64::MAX - taker_held {
                            proof {
                                if pay > u64::MAX - maker_held {
                                    lemma_bal_le_sum(self.ledger.entries@, m_owner@, token_from);
                                    lemma_escrow_nonneg(self.orders.orders@, token_from);
                                    assert(maker_held <= self.ledger.sum(token_from));
                                    assert(self.ledger.sum(token_from) + self.orders.escrow(
                                        token_from,
                                    ) + rem_pay as int == old(self).asset_total(token_from));
                                    assert(old(self).asset_total(token_from) > u64::MAX);
                                } else {
                                    lemma_bal_le_sum(self.ledger.entries@, owner@, token_to);
                                    lemma_escrow_at_le(self.orders.orders@, id as int, token_to);
                                    assert(taker_held <= self.ledger.sum(token_to));
                                    assert(escrow_part(self.orders.orders@[id as int], token_to)
                                        == m_from as int);
                                    assert(m_from as int <= self.orders.escrow(token_to));
                                    assert(self.ledger.sum(token_to) + self.orders.escrow(token_to)
                                        == old(self).asset_total(token_to));
                                    assert(old(self).asset_total(token_to) > u64::MAX);
                                }
                            }
                            failed = true;
                        } else {
                            let ghost rem_pay0 = rem_pay as int;
                            let ghost rem_want0 = rem_want as int;
                            let ghost rem_pay_prev = rem_pay;
                            let ghost rem_want_prev = rem_want;
                            let c1 = self.ledger.credit(&m_owner, token_from, pay);
                            assert(c1 is Ok);
                            let c2 = self.ledger.credit(owner, token_to, take);
                            assert(c2 is Ok);
                            let ghost pre_reduce = self.orders.orders@;
                            self.orders.reduce(id, take, pay);
                            rem_pay = rem_pay - pay;
                            rem_want = rem_want - take;
                            proof {
                                let ghost reduced = self.orders.orders@[id as int];
                                assert(self.orders.orders@ == pre_reduce.update(
                                    id as int,
                                    reduced,
                                ));
                                assert forall|o: Seq<char>|
                                    paid_out(old(self).orders.orders@, self.orders.orders@, o)
                                        == paid_out(old(self).orders.orders@, pre_reduce, o) + (
                                    if o == m_owner@ {
                                        pay as int
                                    } else {
                                        0
                                    }) by {
                                    lemma_paid_out_update(
                                        old(self).orders.orders@,
                                        pre_reduce,
                                        id as int,
                                        reduced,
                                        o,
                                    );
                                }
                                lemma_taker_rate(
                                    take as int,
                                    pay as int,
                                    m_from as int,
                                    m_to as int,
                                    amount_from as int,
                                    amount_to as int,
                                );
                                assert(rem_pay as int * amount_to as int >= rem_want as int
                                    * amount_from as int) by (nonlinear_arith)
                                    requires
                                        rem_pay as int == rem_pay0 - pay,
                                        rem_want as int == rem_want0 - take,
                                        rem_pay0 * amount_to as int >= rem_want0
                                            * amount_from as int,
                                        take as int * amount_from as int >= pay as int
                                            * amount_to as int,
                                ;
                                assert forall|k2: int| 0 <= k2 < entry_k implies ({
                                    let m2 = old(self).orders.orders@[#[trigger] cands@[k2] as int];
                                    (self.orders.orders@[cands@[k2] as int] == m2 && is_live(m2)
                                        && m2.owner@ != owner@ && (
                                    m2.amount_from_remaining as int) * (amount_from as int) >= (
                                    amount_to as int) * (m2.amount_to_remaining as int))
                                        ==> crate::fill::fill_quanta(
                                        m2.amount_from_remaining,
                                        m2.amount_to_remaining,
                                        rem_pay,
                                        rem_want,
                                    ).0 == 0
                                }) by {
                                    let m2 = old(self).orders.orders@[cands@[k2] as int];
                                    if self.orders.orders@[cands@[k2] as int] == m2 && is_live(m2)
                                        && m2.owner@ != owner@ && (
                                    m2.amount_from_remaining as int) * (amount_from as int) >= (
                                    amount_to as int) * (m2.amount_to_remaining as int) {
                                        crate::fill::lemma_fill_zero_monotone(
                                            m2.amount_from_remaining,
                                            m2.amount_to_remaining,
                                            rem_pay_prev,
                                            rem_want_prev,
                                            rem_pay,
                                            rem_want,
                                        );
                                    }
                                }
                            }
                        }
                    }
                }
            }
            k = k + 1;
            proof {
                assert forall|j: int|
                    old(self).asset_total(token_from) <= u64::MAX && old(self).asset_total(
                        token_to,
                    ) <= u64::MAX && #[trigger] lone_candidate(
                        old(self).orders.orders@,
                        j,
                        owner@,
                        token_from,
                        token_to,
                    ) && k >= 1 implies ({
                    let m = old(self).orders.orders@[j];
                    let q = crate::fill::fill_quanta(
                        m.amount_from_remaining,
                        m.amount_to_remaining,
                        amount_from,
                        amount_to,
                    );
                    let take = q.0;
                    let pay = q.1;
                    let compatible = (m.amount_from_remaining as int) * (amount_from as int) >= (
                    amount_to as int) * (m.amount_to_remaining as int);
                    &&& !failed
                    &&& if !compatible || take == 0 {
                        &&& self.orders.orders@[j] == m
                        &&& rem_pay == amount_from
                        &&& rem_want == amount_to
                        &&& self.ledger.balance(m.owner@, token_from) == old(self).balance(
                            m.owner@,
                            token_from,
                        )
                    } else {
                        &&& self.orders.orders@[j] == (Order {
                            amount_from_remaining: (m.amount_from_remaining - take) as u64,
                            amount_to_remaining: (m.amount_to_remaining - pay) as u64,
                            status: if m.amount_from_remaining == take {
                                OrderStatus::Filled
                            } else {
                                OrderStatus::PartiallyFilled
                            },
                            ..m
                        })
                        &&& rem_pay as int == amount_from - pay
                        &&& rem_want as int == amount_to - take
                        &&& self.ledger.balance(m.owner@, token_from) as int == old(self).balance(
                            m.owner@,
                            token_from,
                        ) + pay
                    }
                }) by {
                    if !failed {
                        // The one candidate is the order this iteration
                        // visited, and it was still untouched.
                        assert(side_matches(
                            old(self).orders.orders@[id as int],
                            token_from,
                            token_to,
                        ));
                        assert(is_live(old(self).orders.orders@[id as int]));
                        assert(id as int == j);
                        if cands@.len() >= 2 {
                            assert(side_matches(
                                old(self).orders.orders@[cands@[0] as int],
                                token_from,
                                token_to,
                            ));
                            assert(side_matches(
                                old(self).orders.orders@[cands@[1] as int],
                                token_from,
                                token_to,
                            ));
                            assert(cands@[0] as int == j && cands@[1] as int == j);
                            assert(false);
                        }
                        assert(entry_orders[id as int] == old(self).orders.orders@[id as int]);
                        assert(entry_k == 0);
                        assert(m_owner@ == old(self).orders.orders@[j].owner@);
                        lemma_paid_out_refl(old(self).orders.orders@, m_owner@);
                    }
                }
            }
        }
        if rem_want == 0 {
            // The incoming order is fully satisfied; return the unspent
            // escrow to the caller.
            let c = self.ledger.credit(owner, token_from, rem_pay);
            assert(c is Ok);
            return Ok(PlacedOrder::FullyFilled);
        }
        proof {
            assert(rem_pay > 0) by (nonlinear_arith)
                requires
                    rem_pay as int * amount_to as int >= rem_want as int * amount_from as int,
                    rem_want > 0,
                    amount_from > 0,
                    amount_to > 0,
            ;
        }
        proof {
            if !failed {
                assert forall|j: int|
                    0 <= j < old(self).orders.orders@.len() && self.orders.orders@[j] == old(
                        self,
                    ).orders.orders@[j] && is_live(old(self).orders.orders@[j]) && side_matches(
                        old(self).orders.orders@[j],
                        token_from,
                        token_to,
                    ) && old(self).orders.orders@[j].owner@ != owner@ && (old(
                        self,
                    ).orders.orders@[j].amount_from_remaining as int) * (amount_from as int) >= (
                    amount_to as int) * (old(
                        self,
                    ).orders.orders@[j].amount_to_remaining as int) implies crate::fill::fill_quanta(
                    old(self).orders.orders@[j].amount_from_remaining,
                    old(self).orders.orders@[j].amount_to_remaining,
                    rem_pay,
                    rem_want,
                ).0 == 0 by {
                    assert(j <= order_count as int);
                    assert(cands@.contains(j as usize));
                    let k2 = choose|k2: int|
                        0 <= k2 < cands@.len() && cands@[k2] == j as usize;
                    assert(cands@[k2] == j as usize);
                    assert(k as int == cands@.len());
                    assert(0 <= k2 < k as int);
                    assert(cands@[k2] as int == j);
                    assert(old(self).orders.orders@[cands@[k2] as int] == old(
                        self,
                    ).orders.orders@[j]);
                }
            }
        }
        // Rest the remainder; its escrow stays debited until it fills or
        // is cancelled.
        let resting = Order {
            owner: owner.dup(),
            token_from,
            token_to,
            amount_from_remaining: rem_pay,
            amount_to_remaining: rem_want,
            status: if rem_want < amount_to {
                OrderStatus::PartiallyFilled
            } else {
                OrderStatus::Open
            },
        };
        proof {
            assert forall|o: Seq<char>|
                paid_out(old(self).orders.orders@, self.orders.orders@.push(resting), o)
                    == paid_out(old(self).orders.orders@, self.orders.orders@, o) by {
                lemma_paid_out_push(old(self).orders.orders@, self.orders.orders@, resting, o);
            }
        }
        let id = self.orders.insert(resting);
        if failed {
            Err(DexError::Overflow)
        } else {
            Ok(PlacedOrder::Resting(id))
        }
    }
}

} // verus!
