use dex_contract::address::Address;
use dex_contract::dex::{DexContract, PlacedOrder, NATIVE_ASSET};
use dex_contract::errors::DexError;
use dex_contract::orders::OrderStatus;

const X: u64 = 1;
const Y: u64 = 2;

fn addr(s: &str) -> Address {
    Address::from(String::from(s))
}

fn fresh() -> DexContract {
    DexContract::new(
        &addr("creator"),
        1_000,
        String::from("Ekiden Token"),
        String::from("EKI"),
    )
}

#[test]
fn new_contract() {
    let name = "Ekiden Token";
    let symbol = "EKI";
    let a1 = Address::from(String::from("testaddr"));
    let c = DexContract::new(&a1, 8, String::from(name), String::from(symbol));
    assert_eq!(name, c.get_name().unwrap(), "name should be set");
    assert_eq!(symbol, c.get_symbol().unwrap(), "symbol should be set");
    assert!(0 < c.total_supply, "total_supply should be set");
}

#[test]
fn get_initial_balance() {
    let a1 = Address::from(String::from("testaddr"));
    let c = DexContract::new(&a1, 8, String::from("Ekiden Tokiden"), String::from("EKI"));
    let b = c.get_balance(&a1).expect("testaddr should have tokens");
    assert_eq!(c.total_supply, b, "creator should get all the tokens");
}

// Scenario: a first order with no resting counterparty rests Open and
// escrows the whole offered amount.
#[test]
fn scenario_open_order_escrows() {
    let mut c = fresh();
    let a = addr("alice");
    assert_eq!(c.deposit(&a, X, 100), Ok(()));
    let r = c.place_order(&a, X, Y, 100, 50);
    assert_eq!(r, Ok(PlacedOrder::Resting(0)));
    let o = c.orders.get(0).unwrap();
    assert!(o.status == OrderStatus::Open);
    assert_eq!(o.amount_from_remaining, 100);
    assert_eq!(o.amount_to_remaining, 50);
    assert_eq!(c.get_user_balance(&a, X), 0);
    assert_eq!(c.get_user_balance(&a, Y), 0);
}

// Scenario: a fully compatible opposite order matches completely at the
// maker's rate; the taker's unspent escrow returns.
#[test]
fn scenario_full_match() {
    let mut c = fresh();
    let a = addr("alice");
    let b = addr("bob");
    assert_eq!(c.deposit(&a, X, 100), Ok(()));
    assert_eq!(c.place_order(&a, X, Y, 100, 50), Ok(PlacedOrder::Resting(0)));
    assert_eq!(c.deposit(&b, Y, 60), Ok(()));
    let r = c.place_order(&b, Y, X, 60, 100);
    assert_eq!(r, Ok(PlacedOrder::FullyFilled));
    assert_eq!(c.get_user_balance(&a, Y), 50);
    assert_eq!(c.get_user_balance(&b, X), 100);
    // At the maker's rate B paid 50 of the 60 escrowed; the rest returned.
    assert_eq!(c.get_user_balance(&b, Y), 10);
    let o = c.orders.get(0).unwrap();
    assert!(o.status == OrderStatus::Filled);
    assert_eq!(o.amount_from_remaining, 0);
    assert_eq!(c.orders.len(), 1, "no resting order for the taker");
}

// Scenario: a smaller opposite order fills partially; the maker's
// remaining amounts keep its original ratio.
#[test]
fn scenario_partial_fill() {
    let mut c = fresh();
    let a = addr("alice");
    let b = addr("bob");
    assert_eq!(c.deposit(&a, X, 100), Ok(()));
    assert_eq!(c.place_order(&a, X, Y, 100, 50), Ok(PlacedOrder::Resting(0)));
    assert_eq!(c.deposit(&b, Y, 30), Ok(()));
    let r = c.place_order(&b, Y, X, 30, 60);
    assert_eq!(r, Ok(PlacedOrder::FullyFilled));
    assert_eq!(c.get_user_balance(&a, Y), 30);
    assert_eq!(c.get_user_balance(&b, X), 60);
    assert_eq!(c.get_user_balance(&b, Y), 0);
    let o = c.orders.get(0).unwrap();
    assert!(o.status == OrderStatus::PartiallyFilled);
    assert_eq!(o.amount_from_remaining, 40);
    assert_eq!(o.amount_to_remaining, 20);
}

// Scenario: escrowed funds are not spendable.
#[test]
fn scenario_withdraw_escrowed_fails() {
    let mut c = fresh();
    let a = addr("alice");
    assert_eq!(c.deposit(&a, X, 100), Ok(()));
    assert_eq!(c.place_order(&a, X, Y, 80, 40), Ok(PlacedOrder::Resting(0)));
    // 20 is spendable, 80 is escrowed.
    assert_eq!(c.withdraw(&a, X, 21), Err(DexError::InsufficientFunds));
    assert_eq!(c.get_user_balance(&a, X), 20);
    assert_eq!(c.withdraw(&a, X, 20), Ok(()));
    assert_eq!(c.get_user_balance(&a, X), 0);
}

// Cancellation releases exactly the unfilled remainder: with no fills in
// between, the balance before placing returns after cancelling.
#[test]
fn cancel_releases_unfilled_remainder() {
    let mut c = fresh();
    let a = addr("alice");
    assert_eq!(c.deposit(&a, X, 100), Ok(()));
    let before_place = c.get_user_balance(&a, X);
    assert_eq!(c.place_order(&a, X, Y, 100, 50), Ok(PlacedOrder::Resting(0)));
    assert_eq!(c.cancel_order(&a, 0), Ok(100));
    assert_eq!(c.get_user_balance(&a, X), before_place);
    let o = c.orders.get(0).unwrap();
    assert!(o.status == OrderStatus::Cancelled);
}

#[test]
fn cancel_after_partial_fill_releases_rest() {
    let mut c = fresh();
    let a = addr("alice");
    let b = addr("bob");
    assert_eq!(c.deposit(&a, X, 100), Ok(()));
    assert_eq!(c.place_order(&a, X, Y, 100, 50), Ok(PlacedOrder::Resting(0)));
    assert_eq!(c.deposit(&b, Y, 30), Ok(()));
    assert_eq!(c.place_order(&b, Y, X, 30, 60), Ok(PlacedOrder::FullyFilled));
    // 60 of the 100 filled; cancelling returns the remaining 40.
    assert_eq!(c.cancel_order(&a, 0), Ok(40));
    assert_eq!(c.get_user_balance(&a, X), 40);
    assert_eq!(c.get_user_balance(&a, Y), 30);
}

#[test]
fn cancel_errors() {
    let mut c = fresh();
    let a = addr("alice");
    let b = addr("bob");
    assert_eq!(c.cancel_order(&a, 7), Err(DexError::OrderNotFound));
    assert_eq!(c.deposit(&a, X, 10), Ok(()));
    assert_eq!(c.place_order(&a, X, Y, 10, 5), Ok(PlacedOrder::Resting(0)));
    assert_eq!(c.cancel_order(&b, 0), Err(DexError::NotOwner));
    assert_eq!(c.cancel_order(&a, 0), Ok(10));
    assert_eq!(c.cancel_order(&a, 0), Err(DexError::AlreadyTerminal));
}

// Releasing escrow that no longer fits the balance is refused and the
// order stays live.
#[test]
fn cancel_overflow_is_rejected() {
    let mut c = fresh();
    let a = addr("alice");
    assert_eq!(c.deposit(&a, X, u64::MAX), Ok(()));
    assert_eq!(c.place_order(&a, X, Y, 10, 5), Ok(PlacedOrder::Resting(0)));
    assert_eq!(c.deposit(&a, X, 10), Ok(()));
    assert_eq!(c.cancel_order(&a, 0), Err(DexError::Overflow));
    let o = c.orders.get(0).unwrap();
    assert!(o.status == OrderStatus::Open);
    assert_eq!(c.get_user_balance(&a, X), u64::MAX);
}

#[test]
fn place_order_rejects_invalid() {
    let mut c = fresh();
    let a = addr("alice");
    assert_eq!(c.deposit(&a, X, 10), Ok(()));
    assert_eq!(c.place_order(&a, X, X, 10, 10), Err(DexError::InvalidOrder));
    assert_eq!(c.place_order(&a, X, Y, 0, 10), Err(DexError::InvalidOrder));
    assert_eq!(c.place_order(&a, X, Y, 10, 0), Err(DexError::InvalidOrder));
    assert_eq!(c.get_user_balance(&a, X), 10, "no state change on rejection");
}

#[test]
fn place_order_rejects_unfunded() {
    let mut c = fresh();
    let a = addr("alice");
    assert_eq!(c.deposit(&a, X, 10), Ok(()));
    assert_eq!(
        c.place_order(&a, X, Y, 11, 5),
        Err(DexError::InsufficientFunds)
    );
    assert_eq!(c.get_user_balance(&a, X), 10);
    assert_eq!(c.orders.len(), 0);
}

// The best exchange rate is matched first.
#[test]
fn matching_prefers_best_rate() {
    let mut c = fresh();
    let m1 = addr("maker_dear");
    let m2 = addr("maker_cheap");
    let t = addr("taker");
    assert_eq!(c.deposit(&m1, X, 100), Ok(()));
    assert_eq!(c.place_order(&m1, X, Y, 100, 50), Ok(PlacedOrder::Resting(0)));
    assert_eq!(c.deposit(&m2, X, 100), Ok(()));
    // m2 asks only 25 Y for 100 X: the better rate for a taker.
    assert_eq!(c.place_order(&m2, X, Y, 100, 25), Ok(PlacedOrder::Resting(1)));
    assert_eq!(c.deposit(&t, Y, 50), Ok(()));
    assert_eq!(c.place_order(&t, Y, X, 50, 100), Ok(PlacedOrder::FullyFilled));
    // The whole fill came from m2 at its rate: 25 Y for 100 X.
    assert_eq!(c.get_user_balance(&m2, Y), 25);
    assert_eq!(c.get_user_balance(&m1, Y), 0);
    assert_eq!(c.get_user_balance(&t, X), 100);
    assert_eq!(c.get_user_balance(&t, Y), 25);
    assert!(c.orders.get(0).unwrap().status == OrderStatus::Open);
    assert!(c.orders.get(1).unwrap().status == OrderStatus::Filled);
}

// Equal rates: the earlier order is matched first.
#[test]
fn matching_ties_by_insertion_order() {
    let mut c = fresh();
    let m1 = addr("maker_first");
    let m2 = addr("maker_second");
    let t = addr("taker");
    assert_eq!(c.deposit(&m1, X, 100), Ok(()));
    assert_eq!(c.place_order(&m1, X, Y, 100, 50), Ok(PlacedOrder::Resting(0)));
    assert_eq!(c.deposit(&m2, X, 100), Ok(()));
    assert_eq!(c.place_order(&m2, X, Y, 100, 50), Ok(PlacedOrder::Resting(1)));
    assert_eq!(c.deposit(&t, Y, 50), Ok(()));
    assert_eq!(c.place_order(&t, Y, X, 50, 100), Ok(PlacedOrder::FullyFilled));
    assert_eq!(c.get_user_balance(&m1, Y), 50);
    assert_eq!(c.get_user_balance(&m2, Y), 0);
    assert!(c.orders.get(0).unwrap().status == OrderStatus::Filled);
    assert!(c.orders.get(1).unwrap().status == OrderStatus::Open);
}

// An order never fills against the same account's own resting orders.
#[test]
fn no_self_matching() {
    let mut c = fresh();
    let a = addr("alice");
    assert_eq!(c.deposit(&a, X, 100), Ok(()));
    assert_eq!(c.deposit(&a, Y, 50), Ok(()));
    assert_eq!(c.place_order(&a, X, Y, 100, 50), Ok(PlacedOrder::Resting(0)));
    assert_eq!(c.place_order(&a, Y, X, 50, 100), Ok(PlacedOrder::Resting(1)));
    assert!(c.orders.get(0).unwrap().status == OrderStatus::Open);
    assert!(c.orders.get(1).unwrap().status == OrderStatus::Open);
}

// Fills are made of whole maker lots: a taker asking for less than one
// lot rests instead of breaking the maker's ratio.
#[test]
fn no_fractional_lot_fill() {
    let mut c = fresh();
    let a = addr("alice");
    let b = addr("bob");
    assert_eq!(c.deposit(&a, X, 3), Ok(()));
    assert_eq!(c.place_order(&a, X, Y, 3, 2), Ok(PlacedOrder::Resting(0)));
    assert_eq!(c.deposit(&b, Y, 2), Ok(()));
    let r = c.place_order(&b, Y, X, 2, 2);
    assert_eq!(r, Ok(PlacedOrder::Resting(1)));
    assert!(c.orders.get(0).unwrap().status == OrderStatus::Open);
    assert_eq!(c.orders.get(0).unwrap().amount_from_remaining, 3);
}

// Conservation: across deposits, orders and cancellations the per-asset
// total of balances plus escrow moves only with deposit and withdraw.
#[test]
fn conservation_across_operations() {
    let mut c = fresh();
    let a = addr("alice");
    let b = addr("bob");
    let parties = [addr("alice"), addr("bob"), addr("creator")];
    let total = |c: &DexContract, asset: u64, parties: &[Address]| -> u64 {
        let mut t: u64 = 0;
        for p in parties {
            t += c.get_user_balance(p, asset);
        }
        for id in 0..c.orders.len() {
            let o = c.orders.get(id).unwrap();
            let live = o.status == OrderStatus::Open || o.status == OrderStatus::PartiallyFilled;
            if live && o.token_from == asset {
                t += o.amount_from_remaining;
            }
        }
        t
    };
    assert_eq!(c.deposit(&a, X, 100), Ok(()));
    assert_eq!(c.deposit(&b, Y, 30), Ok(()));
    assert_eq!(total(&c, X, &parties), 100);
    assert_eq!(total(&c, Y, &parties), 30);
    assert_eq!(c.place_order(&a, X, Y, 100, 50), Ok(PlacedOrder::Resting(0)));
    assert_eq!(total(&c, X, &parties), 100);
    assert_eq!(total(&c, Y, &parties), 30);
    assert_eq!(c.place_order(&b, Y, X, 30, 60), Ok(PlacedOrder::FullyFilled));
    assert_eq!(total(&c, X, &parties), 100);
    assert_eq!(total(&c, Y, &parties), 30);
    assert_eq!(c.cancel_order(&a, 0), Ok(40));
    assert_eq!(total(&c, X, &parties), 100);
    assert_eq!(total(&c, Y, &parties), 30);
    assert_eq!(c.withdraw(&b, X, 60), Ok(()));
    assert_eq!(total(&c, X, &parties), 40);
}

// A rate-consistent fill: the taker asked at most 1 Y per 2 X given up
// and paid exactly the maker's better price.
#[test]
fn fill_rate_within_limits() {
    let mut c = fresh();
    let a = addr("alice");
    let b = addr("bob");
    assert_eq!(c.deposit(&a, X, 100), Ok(()));
    assert_eq!(c.place_order(&a, X, Y, 100, 40), Ok(PlacedOrder::Resting(0)));
    assert_eq!(c.deposit(&b, Y, 50), Ok(()));
    assert_eq!(c.place_order(&b, Y, X, 50, 100), Ok(PlacedOrder::FullyFilled));
    // Maker's rate: 40 Y for 100 X. Taker offered up to 50 Y, paid 40.
    let paid_y = 50 - c.get_user_balance(&b, Y);
    let got_x = c.get_user_balance(&b, X);
    assert_eq!(got_x, 100);
    assert_eq!(paid_y, 40);
    // Taker's limit: at least 100 X per 50 Y. 100 * 50 >= 40 * 100.
    assert!(got_x * 50 >= paid_y * 100);
    // Maker's limit: at least 40 Y per 100 X, met exactly.
    assert!(paid_y * 100 >= got_x * 40);
}

// Reading a balance twice with no mutation in between gives the same
// answer.
#[test]
fn get_balance_is_idempotent() {
    let a = addr("alice");
    let c = DexContract::new(&a, 500, String::from("Tok"), String::from("TOK"));
    let r1 = c.get_balance(&a);
    let r2 = c.get_balance(&a);
    assert_eq!(r1, r2);
    assert_eq!(r1, Ok(500));
}

#[test]
fn balances_never_negative() {
    let mut c = fresh();
    let a = addr("alice");
    let nobody = addr("nobody");
    assert_eq!(c.get_user_balance(&nobody, X), 0);
    assert_eq!(c.deposit(&a, X, 5), Ok(()));
    assert_eq!(c.withdraw(&a, X, 9), Err(DexError::InsufficientFunds));
    assert_eq!(c.get_user_balance(&a, X), 5);
    assert_eq!(c.withdraw(&a, X, 5), Ok(()));
    assert_eq!(c.get_user_balance(&a, X), 0);
}

#[test]
fn deposit_overflow_is_rejected() {
    let mut c = fresh();
    let a = addr("alice");
    assert_eq!(c.deposit(&a, X, u64::MAX), Ok(()));
    assert_eq!(c.deposit(&a, X, 1), Err(DexError::Overflow));
    assert_eq!(c.get_user_balance(&a, X), u64::MAX);
    // The native asset also guards the total supply.
    let supply_room = u64::MAX - c.total_supply;
    assert_eq!(
        c.deposit(&a, NATIVE_ASSET, supply_room + 1),
        Err(DexError::Overflow)
    );
}

#[test]
fn transfer_moves_native_tokens() {
    let a = addr("alice");
    let b = addr("bob");
    let mut c = DexContract::new(&a, 100, String::from("Tok"), String::from("TOK"));
    assert_eq!(c.transfer(&a, &b, 30), Ok(()));
    assert_eq!(c.get_balance(&a), Ok(70));
    assert_eq!(c.get_balance(&b), Ok(30));
    assert_eq!(
        c.transfer(&a, &b, 71),
        Err(DexError::InsufficientFunds)
    );
    assert_eq!(c.get_balance(&a), Ok(70));
}

#[test]
fn deposits_accumulate() {
    let mut c = fresh();
    let a = addr("alice");
    assert_eq!(c.deposit(&a, X, 5), Ok(()));
    assert_eq!(c.deposit(&a, X, 7), Ok(()));
    assert_eq!(c.get_user_balance(&a, X), 12);
    assert_eq!(c.withdraw(&a, X, 4), Ok(()));
    assert_eq!(c.get_user_balance(&a, X), 8);
}

#[test]
fn orders_listed_by_owner() {
    let mut c = fresh();
    let a = addr("alice");
    let b = addr("bob");
    assert_eq!(c.deposit(&a, X, 30), Ok(()));
    assert_eq!(c.deposit(&b, Y, 30), Ok(()));
    assert_eq!(c.place_order(&a, X, Y, 10, 90), Ok(PlacedOrder::Resting(0)));
    assert_eq!(c.place_order(&b, Y, X, 10, 90), Ok(PlacedOrder::Resting(1)));
    assert_eq!(c.place_order(&a, X, Y, 20, 180), Ok(PlacedOrder::Resting(2)));
    assert_eq!(c.orders.orders_of(&a), vec![0, 2]);
    assert_eq!(c.orders.orders_of(&b), vec![1]);
    assert_eq!(c.orders.orders_of(&addr("nobody")), Vec::<usize>::new());
}

// The well-formedness validator accepts every state the operations
// produce and rejects an inconsistent one.
#[test]
fn check_wf_validates_state() {
    let mut c = fresh();
    assert!(c.check_wf());
    let a = addr("alice");
    assert_eq!(c.deposit(&a, X, 100), Ok(()));
    assert_eq!(c.place_order(&a, X, Y, 60, 30), Ok(PlacedOrder::Resting(0)));
    assert!(c.check_wf());
    // A tampered supply breaks the native-asset accounting.
    c.total_supply += 1;
    assert!(!c.check_wf());
}

#[test]
fn burn_shrinks_supply() {
    let a = addr("alice");
    let mut c = DexContract::new(&a, 100, String::from("Tok"), String::from("TOK"));
    assert_eq!(c.burn(&a, 40), Ok(()));
    assert_eq!(c.total_supply, 60);
    assert_eq!(c.get_balance(&a), Ok(60));
    assert_eq!(c.burn(&a, 61), Err(DexError::InsufficientFunds));
    assert_eq!(c.total_supply, 60);
}
