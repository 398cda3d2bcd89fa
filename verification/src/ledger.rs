//! Per-account, per-asset balances with conservative credit and debit.
//!
//! The ledger is an association list from (account, asset) to an unsigned
//! quantity. A missing entry reads as zero and is indistinguishable from an
//! explicit zero. Every mutation states pointwise what happened to each
//! balance and what happened to the per-asset sum, so that the conservation
//! law of the whole contract can be proved from these contracts alone.

use vstd::prelude::*;
use vstd::pervasive::VecAdditionalExecFns;

use crate::address::Address;
use crate::errors::DexError;

verus! {

/// One (account, asset) -> amount record.
pub struct LedgerEntry {
    pub owner: Address,
    pub asset: u64,
    pub amount: u64,
}

/// Whether an entry is the record for account view `o` and asset `a`.
pub open spec fn entry_matches(e: LedgerEntry, o: Seq<char>, a: u64) -> bool {
    e.owner@ == o && e.asset == a
}

/// The balance recorded for (o, a): the amount of the first matching
/// entry, zero when none matches.
pub open spec fn bal_in(s: Seq<LedgerEntry>, o: Seq<char>, a: u64) -> u64
    decreases s.len(),
{
    if s.len() == 0 {
        0
    } else if entry_matches(s[0], o, a) {
        s[0].amount
    } else {
        bal_in(s.skip(1), o, a)
    }
}

/// What one entry contributes to the total of asset `a`.
pub open spec fn asset_part(e: LedgerEntry, a: u64) -> int {
    if e.asset == a {
        e.amount as int
    } else {
        0
    }
}

/// The sum of all recorded amounts of asset `a`.
pub open spec fn sum_for(s: Seq<LedgerEntry>, a: u64) -> int
    decreases s.len(),
{
    if s.len() == 0 {
        0
    } else {
        asset_part(s[0], a) + sum_for(s.skip(1), a)
    }
}

/// No two entries share a key, so each balance lives in one record.
pub open spec fn wf_entries(s: Seq<LedgerEntry>) -> bool {
    forall|i: int, j: int|
        0 <= i < j < s.len() ==> !(s[i].owner@ == s[j].owner@ && s[i].asset == s[j].asset)
}

pub proof fn lemma_sum_nonneg(s: Seq<LedgerEntry>, a: u64)
    ensures
        sum_for(s, a) >= 0,
    decreases s.len(),
{
    if s.len() > 0 {
        lemma_sum_nonneg(s.skip(1), a);
    }
}

/// A single balance never exceeds the asset's total.
pub proof fn lemma_bal_le_sum(s: Seq<LedgerEntry>, o: Seq<char>, a: u64)
    ensures
        bal_in(s, o, a) <= sum_for(s, a),
    decreases s.len(),
{
    if s.len() > 0 {
        if entry_matches(s[0], o, a) {
            lemma_sum_nonneg(s.skip(1), a);
        } else {
            lemma_bal_le_sum(s.skip(1), o, a);
        }
    }
}

/// When nothing matches, the balance reads zero.
pub proof fn lemma_bal_no_match(s: Seq<LedgerEntry>, o: Seq<char>, a: u64)
    requires
        forall|i: int| 0 <= i < s.len() ==> !entry_matches(s[i], o, a),
    ensures
        bal_in(s, o, a) == 0,
    decreases s.len(),
{
    if s.len() > 0 {
        assert(forall|i: int|
            0 <= i < s.skip(1).len() ==> s.skip(1)[i] == s[i + 1] && !entry_matches(
                s[i + 1],
                o,
                a,
            ));
        lemma_bal_no_match(s.skip(1), o, a);
    }
}

/// The first matching entry decides the balance.
pub proof fn lemma_bal_at(s: Seq<LedgerEntry>, i: int, o: Seq<char>, a: u64)
    requires
        0 <= i < s.len(),
        entry_matches(s[i], o, a),
        forall|j: int| 0 <= j < i ==> !entry_matches(s[j], o, a),
    ensures
        bal_in(s, o, a) == s[i].amount,
    decreases s.len(),
{
    if i > 0 {
        assert(s.skip(1)[i - 1] == s[i]);
        assert(forall|j: int| 0 <= j < i - 1 ==> s.skip(1)[j] == s[j + 1]);
        lemma_bal_at(s.skip(1), i - 1, o, a);
    }
}

/// Replacing the first record of a key rewrites that key's balance and
/// leaves every other balance as it was.
pub proof fn lemma_bal_update(
    s: Seq<LedgerEntry>,
    i: int,
    e: LedgerEntry,
    o: Seq<char>,
    a: u64,
)
    requires
        0 <= i < s.len(),
        e.owner@ == s[i].owner@,
        e.asset == s[i].asset,
        forall|j: int| 0 <= j < i ==> !entry_matches(s[j], s[i].owner@, s[i].asset),
    ensures
        bal_in(s.update(i, e), o, a) == if o == s[i].owner@ && a == s[i].asset {
            e.amount
        } else {
            bal_in(s, o, a)
        },
    decreases s.len(),
{
    let t = s.update(i, e);
    if i == 0 {
        assert(t.skip(1) =~= s.skip(1));
        if o == s[0].owner@ && a == s[0].asset {
            assert(entry_matches(t[0], o, a));
        } else {
            assert(!entry_matches(t[0], o, a));
            assert(!entry_matches(s[0], o, a));
        }
    } else {
        assert(t[0] == s[0]);
        assert(t.skip(1) =~= s.skip(1).update(i - 1, e));
        assert(s.skip(1)[i - 1] == s[i]);
        assert(forall|j: int| 0 <= j < i - 1 ==> s.skip(1)[j] == s[j + 1]);
        lemma_bal_update(s.skip(1), i - 1, e, o, a);
        if entry_matches(s[0], o, a) {
            assert(!(o == s[i].owner@ && a == s[i].asset));
        }
    }
}

/// Appending a record for a fresh key sets that key's balance and leaves
/// every other balance as it was.
pub proof fn lemma_bal_push(s: Seq<LedgerEntry>, e: LedgerEntry, o: Seq<char>, a: u64)
    requires
        forall|j: int| 0 <= j < s.len() ==> !entry_matches(s[j], e.owner@, e.asset),
    ensures
        bal_in(s.push(e), o, a) == if o == e.owner@ && a == e.asset {
            e.amount
        } else {
            bal_in(s, o, a)
        },
    decreases s.len(),
{
    let t = s.push(e);
    if s.len() == 0 {
        assert(t[0] == e);
        assert(t.skip(1) =~= Seq::<LedgerEntry>::empty());
        assert(bal_in(t.skip(1), o, a) == 0);
        assert(bal_in(s, o, a) == 0);
    } else {
        assert(t[0] == s[0]);
        assert(t.skip(1) =~= s.skip(1).push(e));
        assert(forall|j: int| 0 <= j < s.skip(1).len() ==> s.skip(1)[j] == s[j + 1]);
        lemma_bal_push(s.skip(1), e, o, a);
        if entry_matches(s[0], o, a) {
            assert(!(o == e.owner@ && a == e.asset));
        }
    }
}

/// Replacing a record moves the asset totals by the difference of the
/// contributions.
pub proof fn lemma_sum_update(s: Seq<LedgerEntry>, i: int, e: LedgerEntry, a: u64)
    requires
        0 <= i < s.len(),
    ensures
        sum_for(s.update(i, e), a) == sum_for(s, a) + asset_part(e, a) - asset_part(s[i], a),
    decreases s.len(),
{
    let t = s.update(i, e);
    if i == 0 {
        assert(t.skip(1) =~= s.skip(1));
    } else {
        assert(t[0] == s[0]);
        assert(t.skip(1) =~= s.skip(1).update(i - 1, e));
        assert(s.skip(1)[i - 1] == s[i]);
        lemma_sum_update(s.skip(1), i - 1, e, a);
    }
}

/// Appending a record adds its contribution to the asset totals.
pub proof fn lemma_sum_push(s: Seq<LedgerEntry>, e: LedgerEntry, a: u64)
    ensures
        sum_for(s.push(e), a) == sum_for(s, a) + asset_part(e, a),
    decreases s.len(),
{
    let t = s.push(e);
    if s.len() == 0 {
        assert(t[0] == e);
        assert(t.skip(1) =~= Seq::<LedgerEntry>::empty());
        assert(sum_for(t.skip(1), a) == 0);
        assert(sum_for(s, a) == 0);
    } else {
        assert(t[0] == s[0]);
        assert(t.skip(1) =~= s.skip(1).push(e));
        lemma_sum_push(s.skip(1), e, a);
    }
}

/// The map of balances. Every operation's contract describes each balance
/// and each per-asset sum after the call.
pub struct Ledger {
    pub entries: Vec<LedgerEntry>,
}

impl Ledger {
    /// The balance of account view `o` in asset `a`; zero when absent.
    pub open spec fn balance(self, o: Seq<char>, a: u64) -> u64 {
        bal_in(self.entries@, o, a)
    }

    /// The total of all balances of asset `a`.
    pub open spec fn sum(self, a: u64) -> int {
        sum_for(self.entries@, a)
    }

    /// One record per (account, asset) key.
    pub open spec fn wf(self) -> bool {
        wf_entries(self.entries@)
    }

    /// An empty ledger: every balance zero.
    pub fn new() -> (r: Ledger)
        ensures
            r.wf(),
            forall|o: Seq<char>, a: u64| r.balance(o, a) == 0,
            forall|a: u64| r.sum(a) == 0,
    {
        Ledger { entries: Vec::new() }
    }

    /// The total of all balances of `asset`, as a wide word: the sum of
    /// every recorded amount of that asset.
    pub fn sum_of(&self, asset: u64) -> (r: u128)
        ensures
            r as int == self.sum(asset),
    {
        let s = Ghost(self.entries@);
        let n = self.entries.len();
        let mut total: u128 = 0;
        let mut i: usize = 0;
        proof {
            assert(s@.skip(0) =~= s@);
        }
        while i < n
            invariant
                i <= n,
                n == s@.len(),
                s@ == self.entries@,
                total as int + sum_for(s@.skip(i as int), asset) == sum_for(s@, asset),
                total as int <= i as int * u64::MAX,
            decreases n - i,
        {
            proof {
                assert(s@.skip(i as int)[0] == s@[i as int]);
                assert(s@.skip(i as int).skip(1) =~= s@.skip(i as int + 1));
                assert((i as int + 1) * u64::MAX <= 0x1_0000_0000_0000_0000 * u64::MAX)
                    by (nonlinear_arith)
                    requires
                        0 <= i as int + 1 <= 0x1_0000_0000_0000_0000,
                ;
                assert(i as int * u64::MAX + u64::MAX == (i as int + 1) * u64::MAX)
                    by (nonlinear_arith);
            }
            let e = &self.entries[i];
            if e.asset == asset {
                total = total + e.amount as u128;
            }
            i = i + 1;
        }
        proof {
            assert(s@.skip(n as int) =~= Seq::<LedgerEntry>::empty());
            assert(sum_for(s@.skip(n as int), asset) == 0);
        }
        total
    }

    /// Whether the entries carry one record per (account, asset) key.
    pub fn check_keys_unique(&self) -> (r: bool)
        ensures
            r == self.wf(),
    {
        let n = self.entries.len();
        let mut i: usize = 0;
        while i < n
            invariant
                i <= n,
                n == self.entries@.len(),
                forall|i2: int, j2: int|
                    0 <= i2 < j2 < n && i2 < i ==> !(self.entries@[i2].owner@
                        == self.entries@[j2].owner@ && self.entries@[i2].asset
                        == self.entries@[j2].asset),
            decreases n - i,
        {
            let mut j: usize = i + 1;
            while j < n
                invariant
                    i < j <= n,
                    n == self.entries@.len(),
                    forall|j2: int|
                        i < j2 < j ==> !(self.entries@[i as int].owner@ == self.entries@[j2].owner@
                            && self.entries@[i as int].asset == self.entries@[j2].asset),
                decreases n - j,
            {
                if self.entries[i].owner.same(&self.entries[j].owner) && self.entries[i].asset
                    == self.entries[j].asset {
                    return false;
                }
                j = j + 1;
            }
            i = i + 1;
        }
        true
    }

    /// The index of the record for (owner, asset), if any.
    fn find(&self, owner: &Address, asset: u64) -> (r: Option<usize>)
        ensures
            match r {
                Some(i) => i < self.entries@.len() && entry_matches(
                    self.entries@[i as int],
                    owner@,
                    asset,
                ) && forall|j: int|
                    0 <= j < i ==> !entry_matches(self.entries@[j], owner@, asset),
                None => forall|j: int|
                    0 <= j < self.entries@.len() ==> !entry_matches(
                        self.entries@[j],
                        owner@,
                        asset,
                    ),
            },
    {
        let n = self.entries.len();
        let mut i: usize = 0;
        while i < n
            invariant
                i <= n,
                n == self.entries@.len(),
                forall|j: int| 0 <= j < i ==> !entry_matches(self.entries@[j], owner@, asset),
            decreases n - i,
        {
            let e = &self.entries[i];
            if e.owner.same(owner) && e.asset == asset {
                return Some(i);
            }
            i = i + 1;
        }
        None
    }

    /// The current balance; never fails, absence reads as zero.
    pub fn balance_of(&self, owner: &Address, asset: u64) -> (r: u64)
        ensures
            r == self.balance(owner@, asset),
    {
        match self.find(owner, asset) {
            Some(i) => {
                proof {
                    lemma_bal_at(self.entries@, i as int, owner@, asset);
                }
                self.entries[i].amount
            },
            None => {
                proof {
                    lemma_bal_no_match(self.entries@, owner@, asset);
                }
                0
            },
        }
    }

    /// Adds `amount` to the balance of (owner, asset). Fails with
    /// `Overflow`, and changes nothing, exactly when the addition would
    /// leave the representable range.
    pub fn credit(&mut self, owner: &Address, asset: u64, amount: u64) -> (r: Result<
        (),
        DexError,
    >)
        requires
            old(self).wf(),
        ensures
            final(self).wf(),
            r is Ok <==> old(self).balance(owner@, asset) + amount <= u64::MAX,
            r is Err ==> r == Err::<(), DexError>(DexError::Overflow) && final(self).entries@
                == old(self).entries@,
            forall|o: Seq<char>, a: u64| #![trigger final(self).balance(o, a)]
                final(self).balance(o, a) == if r is Ok && o == owner@ && a == asset {
                    (old(self).balance(owner@, asset) + amount) as u64
                } else {
                    old(self).balance(o, a)
                },
            forall|a: u64| #![trigger final(self).sum(a)]
                final(self).sum(a) == old(self).sum(a) + if r is Ok && a == asset {
                    amount as int
                } else {
                    0
                },
    {
        match self.find(owner, asset) {
            Some(i) => {
                let held = self.entries[i].amount;
                proof {
                    lemma_bal_at(self.entries@, i as int, owner@, asset);
                }
                if amount > u64::MAX - held {
                    return Err(DexError::Overflow);
                }
                let e = LedgerEntry { owner: owner.dup(), asset, amount: held + amount };
                proof {
                    lemma_bal_update(self.entries@, i as int, e, owner@, asset);
                    assert forall|o: Seq<char>, a: u64| !(o == owner@ && a == asset) implies bal_in(
                        self.entries@.update(i as int, e),
                        o,
                        a,
                    ) == bal_in(self.entries@, o, a) by {
                        lemma_bal_update(self.entries@, i as int, e, o, a);
                    }
                    assert forall|a: u64|
                        sum_for(self.entries@.update(i as int, e), a) == sum_for(self.entries@, a)
                            + if a == asset {
                            amount as int
                        } else {
                            0
                        } by {
                        lemma_sum_update(self.entries@, i as int, e, a);
                    }
                }
                self.entries.set(i, e);
                Ok(())
            },
            None => {
                proof {
                    lemma_bal_no_match(self.entries@, owner@, asset);
                }
                let e = LedgerEntry { owner: owner.dup(), asset, amount };
                proof {
                    assert forall|o: Seq<char>, a: u64|
                        bal_in(self.entries@.push(e), o, a) == if o == owner@ && a == asset {
                            amount
                        } else {
                            bal_in(self.entries@, o, a)
                        } by {
                        lemma_bal_push(self.entries@, e, o, a);
                    }
                    assert forall|a: u64|
                        sum_for(self.entries@.push(e), a) == sum_for(self.entries@, a) + if a
                            == asset {
                            amount as int
                        } else {
                            0
                        } by {
                        lemma_sum_push(self.entries@, e, a);
                    }
                    assert(wf_entries(self.entries@.push(e)));
                }
                self.entries.push(e);
                Ok(())
            },
        }
    }

    /// Removes `amount` from the balance of (owner, asset). Fails with
    /// `InsufficientFunds`, and changes nothing, exactly when the balance
    /// is smaller than `amount`. Never leaves a negative balance.
    pub fn debit(&mut self, owner: &Address, asset: u64, amount: u64) -> (r: Result<
        (),
        DexError,
    >)
        requires
            old(self).wf(),
        ensures
            final(self).wf(),
            r is Ok <==> old(self).balance(owner@, asset) >= amount,
            r is Err ==> r == Err::<(), DexError>(DexError::InsufficientFunds)
                && final(self).entries@ == old(self).entries@,
            forall|o: Seq<char>, a: u64| #![trigger final(self).balance(o, a)]
                final(self).balance(o, a) == if r is Ok && o == owner@ && a == asset {
                    (old(self).balance(owner@, asset) - amount) as u64
                } else {
                    old(self).balance(o, a)
                },
            forall|a: u64| #![trigger final(self).sum(a)]
                final(self).sum(a) == old(self).sum(a) - if r is Ok && a == asset {
                    amount as int
                } else {
                    0
                },
    {
        match self.find(owner, asset) {
            Some(i) => {
                let held = self.entries[i].amount;
                proof {
                    lemma_bal_at(self.entries@, i as int, owner@, asset);
                }
                if held < amount {
                    return Err(DexError::InsufficientFunds);
                }
                let e = LedgerEntry { owner: owner.dup(), asset, amount: held - amount };
                proof {
                    assert forall|o: Seq<char>, a: u64|
                        bal_in(self.entries@.update(i as int, e), o, a) == if o == owner@ && a
                            == asset {
                            e.amount
                        } else {
                            bal_in(self.entries@, o, a)
                        } by {
                        lemma_bal_update(self.entries@, i as int, e, o, a);
                    }
                    assert forall|a: u64|
                        sum_for(self.entries@.update(i as int, e), a) == sum_for(self.entries@, a)
                            - if a == asset {
                            amount as int
                        } else {
                            0
                        } by {
                        lemma_sum_update(self.entries@, i as int, e, a);
                    }
                }
                self.entries.set(i, e);
                Ok(())
            },
            None => {
                proof {
                    lemma_bal_no_match(self.entries@, owner@, asset);
                }
                if amount == 0 {
                    Ok(())
                } else {
                    Err(DexError::InsufficientFunds)
                }
            },
        }
    }

    /// Moves `amount` of `asset` from one account to the other: debit then
    /// credit, atomically. When the credit would overflow, the debit is
    /// compensated and the call reports `Overflow` with no net change.
    pub fn transfer(&mut self, from: &Address, to: &Address, asset: u64, amount: u64) -> (r:
        Result<(), DexError>)
        requires
            old(self).wf(),
        ensures
            final(self).wf(),
            from@ == to@ ==> (r is Ok <==> old(self).balance(from@, asset) >= amount),
            from@ != to@ ==> (r is Ok <==> old(self).balance(from@, asset) >= amount && old(
                self,
            ).balance(to@, asset) + amount <= u64::MAX),
            old(self).balance(from@, asset) < amount ==> r == Err::<(), DexError>(
                DexError::InsufficientFunds,
            ),
            r is Err ==> (r == Err::<(), DexError>(DexError::InsufficientFunds) || r == Err::<
                (),
                DexError,
            >(DexError::Overflow)),
            forall|o: Seq<char>, a: u64| #![trigger final(self).balance(o, a)]
                final(self).balance(o, a) == if r is Ok && from@ != to@ && o == from@ && a
                    == asset {
                    (old(self).balance(from@, asset) - amount) as u64
                } else if r is Ok && from@ != to@ && o == to@ && a == asset {
                    (old(self).balance(to@, asset) + amount) as u64
                } else {
                    old(self).balance(o, a)
                },
            forall|a: u64| #![trigger final(self).sum(a)] final(self).sum(a) == old(self).sum(a),
    {
        if from.same(to) {
            // A self-transfer moves nothing; it still demands the funds.
            let held = self.balance_of(from, asset);
            if held < amount {
                return Err(DexError::InsufficientFunds);
            }
            return Ok(());
        }
        match self.debit(from, asset, amount) {
            Err(e) => Err(e),
            Ok(()) => {
                match self.credit(to, asset, amount) {
                    Ok(()) => Ok(()),
                    Err(e) => {
                        // Roll the debit back: the credit cannot overflow,
                        // the amount was just removed from this balance.
                        let undo = self.credit(from, asset, amount);
                        assert(undo is Ok);
                        Err(e)
                    },
                }
            },
        }
    }
}

} // verus!
