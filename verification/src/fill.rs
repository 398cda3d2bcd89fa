//! Computing one fill between a resting (maker) order and an incoming
//! (taker) order.
//!
//! A fill executes at the maker's rate. To keep both remaining amounts of
//! the maker in their exact original ratio with integer quantities, fills
//! are made of whole lots: one lot is `maker_from / g` of the offered
//! asset against `maker_to / g` of the wanted asset, where `g` is the
//! greatest common divisor of the maker's remaining amounts. The fill is
//! the largest number of lots that the taker still wants, the maker still
//! offers, and the taker's remaining escrow can pay for.

use vstd::prelude::*;
use vstd::arithmetic::div_mod::{
    lemma_div_is_ordered,
    lemma_div_pos_is_pos,
    lemma_fundamental_div_mod,
    lemma_mod_multiples_basic,
};

verus! {

/// Mathematical greatest common divisor, by Euclid's rule.
pub open spec fn gcd(a: nat, b: nat) -> nat
    decreases b,
{
    if b == 0 {
        a
    } else {
        gcd(b, a % b)
    }
}

/// The smaller of two integers.
pub open spec fn min_int(a: int, b: int) -> int {
    if a <= b {
        a
    } else {
        b
    }
}

/// The gcd of a positive number is positive and divides both arguments.
pub proof fn lemma_gcd_divides(a: nat, b: nat)
    requires
        a > 0,
    ensures
        gcd(a, b) > 0,
        a % gcd(a, b) == 0,
        b % gcd(a, b) == 0,
    decreases b,
{
    if b == 0 {
        assert(a % a == 0) by (nonlinear_arith)
            requires
                a > 0,
        ;
        assert(0nat % a == 0) by (nonlinear_arith)
            requires
                a > 0,
        ;
    } else {
        lemma_gcd_divides(b, a % b);
        let g = gcd(b, a % b) as int;
        let ai = a as int;
        let bi = b as int;
        let r = ai % bi;
        lemma_fundamental_div_mod(ai, bi);
        lemma_fundamental_div_mod(bi, g);
        lemma_fundamental_div_mod(r, g);
        let q = ai / bi;
        let bg = bi / g;
        let rg = r / g;
        assert(ai == g * (bg * q + rg)) by (nonlinear_arith)
            requires
                ai == bi * q + r,
                bi == g * bg,
                r == g * rg,
        ;
        lemma_mod_multiples_basic(bg * q + rg, g);
        assert((bg * q + rg) * g == g * (bg * q + rg)) by (nonlinear_arith);
    }
}

/// Greatest common divisor of two machine words.
pub fn gcd_u64(a: u64, b: u64) -> (g: u64)
    ensures
        g as nat == gcd(a as nat, b as nat),
{
    let mut x = a;
    let mut y = b;
    while y != 0
        invariant
            gcd(x as nat, y as nat) == gcd(a as nat, b as nat),
        decreases y,
    {
        let r = x % y;
        x = y;
        y = r;
    }
    x
}

/// The fill the engine makes, as mathematical quantities: the number of
/// whole maker lots bounded by what the taker wants, what the maker
/// offers, and what the taker can still pay, times the lot sizes. The
/// first component is of the maker's offered asset, the second of the
/// maker's wanted asset.
pub open spec fn fill_quanta(
    maker_from: u64,
    maker_to: u64,
    taker_rem_pay: u64,
    taker_rem_want: u64,
) -> (int, int) {
    let g = gcd(maker_from as nat, maker_to as nat) as int;
    let lot_give = maker_from as int / g;
    let lot_get = maker_to as int / g;
    let n = min_int(taker_rem_want as int / lot_give, min_int(g, taker_rem_pay as int / lot_get));
    (n * lot_give, n * lot_get)
}

/// Executing at the maker's rate never costs the taker more than its
/// limit: a fill in the maker's exact ratio, against a maker whose rate
/// is compatible with the taker's original `amount_from` / `amount_to`
/// limit, gives the taker at least its asked rate.
pub proof fn lemma_taker_rate(
    take: int,
    pay: int,
    maker_from: int,
    maker_to: int,
    limit_from: int,
    limit_to: int,
)
    requires
        take >= 0,
        maker_from > 0,
        take * maker_to == pay * maker_from,
        maker_from * limit_from >= limit_to * maker_to,
    ensures
        take * limit_from >= pay * limit_to,
{
    assert((take * limit_from) * maker_from >= (pay * limit_to) * maker_from) by (nonlinear_arith)
        requires
            take >= 0,
            maker_from > 0,
            take * maker_to == pay * maker_from,
            maker_from * limit_from >= limit_to * maker_to,
    ;
    assert(take * limit_from >= pay * limit_to) by (nonlinear_arith)
        requires
            (take * limit_from) * maker_from >= (pay * limit_to) * maker_from,
            maker_from > 0,
    ;
}

/// A fill of zero whole lots stays zero when the taker's remainder
/// shrinks: once an order cannot fill one lot against a remainder, it
/// cannot against any smaller remainder either.
pub proof fn lemma_fill_zero_monotone(
    maker_from: u64,
    maker_to: u64,
    pay1: u64,
    want1: u64,
    pay2: u64,
    want2: u64,
)
    requires
        maker_from > 0,
        maker_to > 0,
        pay2 <= pay1,
        want2 <= want1,
        fill_quanta(maker_from, maker_to, pay1, want1).0 == 0,
    ensures
        fill_quanta(maker_from, maker_to, pay2, want2).0 == 0,
{
    lemma_gcd_divides(maker_from as nat, maker_to as nat);
    let g = gcd(maker_from as nat, maker_to as nat) as int;
    lemma_fundamental_div_mod(maker_from as int, g);
    lemma_fundamental_div_mod(maker_to as int, g);
    let lot_give = maker_from as int / g;
    let lot_get = maker_to as int / g;
    assert(lot_give > 0 && lot_get > 0) by (nonlinear_arith)
        requires
            maker_from as int == g * lot_give,
            maker_to as int == g * lot_get,
            maker_from > 0,
            maker_to > 0,
            g > 0,
            lot_give >= 0,
            lot_get >= 0,
    ;
    lemma_div_pos_is_pos(want1 as int, lot_give);
    lemma_div_pos_is_pos(pay1 as int, lot_get);
    lemma_div_pos_is_pos(want2 as int, lot_give);
    lemma_div_pos_is_pos(pay2 as int, lot_get);
    lemma_div_is_ordered(want2 as int, want1 as int, lot_give);
    lemma_div_is_ordered(pay2 as int, pay1 as int, lot_get);
    let n1 = min_int(want1 as int / lot_give, min_int(g, pay1 as int / lot_get));
    let n2 = min_int(want2 as int / lot_give, min_int(g, pay2 as int / lot_get));
    assert(n1 * lot_give == 0 ==> n1 == 0) by (nonlinear_arith)
        requires
            lot_give > 0,
    ;
    assert(n2 == 0);
    assert(n2 * lot_give == 0) by (nonlinear_arith)
        requires
            n2 == 0,
    ;
}

/// Rate consistency of one fill. A fill in the maker's exact ratio,
/// against a maker whose offered rate is compatible with the taker's
/// limit, leaves the maker with no less than its asked ratio and the
/// taker paying no more than its limit ratio.
pub proof fn lemma_fill_rate_consistent(
    take: int,
    pay: int,
    maker_from: int,
    maker_to: int,
    limit_from: int,
    limit_to: int,
)
    requires
        take >= 0,
        maker_from > 0,
        take * maker_to == pay * maker_from,
        maker_from * limit_from >= limit_to * maker_to,
    ensures
        pay * maker_from >= take * maker_to,
        take * limit_from >= pay * limit_to,
{
    lemma_taker_rate(take, pay, maker_from, maker_to, limit_from, limit_to);
}

/// One fill at the maker's rate, in whole lots.
///
/// The result `(take, pay)` moves `take` of the maker's offered asset to
/// the taker against `pay` of the maker's wanted asset. It is in the
/// maker's exact ratio (`take * maker_to == pay * maker_from`), within
/// every bound, exhausts the maker's two sides together, and is the
/// largest such fill in whole lots.
pub fn compute_fill(maker_from: u64, maker_to: u64, taker_rem_pay: u64, taker_rem_want: u64) -> (f:
    (u64, u64))
    requires
        maker_from > 0,
        maker_to > 0,
    ensures
        (f.0 as int, f.1 as int) == fill_quanta(maker_from, maker_to, taker_rem_pay, taker_rem_want),
        f.0 <= taker_rem_want,
        f.0 <= maker_from,
        f.1 <= taker_rem_pay,
        f.1 <= maker_to,
        f.0 as int * maker_to as int == f.1 as int * maker_from as int,
        (f.0 == maker_from <==> f.1 == maker_to),
        (f.0 == 0 <==> f.1 == 0),
{
    proof {
        lemma_gcd_divides(maker_from as nat, maker_to as nat);
    }
    let g = gcd_u64(maker_from, maker_to);
    let ghost gi = g as int;
    let lot_give = maker_from / g;
    let lot_get = maker_to / g;
    proof {
        lemma_fundamental_div_mod(maker_from as int, gi);
        lemma_fundamental_div_mod(maker_to as int, gi);
        assert(maker_from as int == gi * lot_give as int);
        assert(maker_to as int == gi * lot_get as int);
        assert(lot_give > 0 && lot_get > 0) by (nonlinear_arith)
            requires
                maker_from as int == gi * lot_give as int,
                maker_to as int == gi * lot_get as int,
                maker_from > 0,
                maker_to > 0,
                gi > 0,
                lot_give >= 0,
                lot_get >= 0,
        ;
    }
    let by_want = taker_rem_want / lot_give;
    let by_pay = taker_rem_pay / lot_get;
    let n = if by_want <= g {
        if by_want <= by_pay {
            by_want
        } else {
            by_pay
        }
    } else {
        if g <= by_pay {
            g
        } else {
            by_pay
        }
    };
    proof {
        assert(n as int == min_int(by_want as int, min_int(gi, by_pay as int)));
        assert(n as int * lot_give as int <= maker_from as int && n as int * lot_get as int
            <= maker_to as int) by (nonlinear_arith)
            requires
                n <= g,
                maker_from as int == gi * lot_give as int,
                maker_to as int == gi * lot_get as int,
                gi == g as int,
                lot_give >= 0,
                lot_get >= 0,
                n >= 0,
        ;
        lemma_fundamental_div_mod(taker_rem_want as int, lot_give as int);
        assert(n as int * lot_give as int <= taker_rem_want as int) by (nonlinear_arith)
            requires
                n <= by_want,
                n >= 0,
                lot_give > 0,
                taker_rem_want as int == lot_give as int * (by_want as int) + taker_rem_want as int
                    % lot_give as int,
                taker_rem_want as int % lot_give as int >= 0,
        ;
        lemma_fundamental_div_mod(taker_rem_pay as int, lot_get as int);
        assert(n as int * lot_get as int <= taker_rem_pay as int) by (nonlinear_arith)
            requires
                n <= by_pay,
                n >= 0,
                lot_get > 0,
                taker_rem_pay as int == lot_get as int * (by_pay as int) + taker_rem_pay as int
                    % lot_get as int,
                taker_rem_pay as int % lot_get as int >= 0,
        ;
    }
    let take = n * lot_give;
    let pay = n * lot_get;
    proof {
        assert(take as int * maker_to as int == pay as int * maker_from as int)
            by (nonlinear_arith)
            requires
                take as int == n as int * lot_give as int,
                pay as int == n as int * lot_get as int,
                maker_from as int == gi * lot_give as int,
                maker_to as int == gi * lot_get as int,
        ;
        assert((take == maker_from <==> n == g) && (pay == maker_to <==> n == g))
            by (nonlinear_arith)
            requires
                take as int == n as int * lot_give as int,
                pay as int == n as int * lot_get as int,
                maker_from as int == gi * lot_give as int,
                maker_to as int == gi * lot_get as int,
                gi == g as int,
                lot_give > 0,
                lot_get > 0,
                0 <= n <= g,
        ;
        assert((take == 0 <==> n == 0) && (pay == 0 <==> n == 0)) by (nonlinear_arith)
            requires
                take as int == n as int * lot_give as int,
                pay as int == n as int * lot_get as int,
                lot_give > 0,
                lot_get > 0,
                n >= 0,
        ;
    }
    (take, pay)
}

} // verus!
