//! The stake ledger: per-account balances with a reserved portion, plus the
//! aggregate stake of the whole system.
//!
//! An account's `balance` is its total holding; `reserved` is the part of it
//! locked as collateral (a bond). The spendable part is `balance - reserved`.
//! Accounts that the ledger does not list hold nothing: the spec functions
//! treat them as zero balances, so creating an empty entry is unobservable.

use vstd::prelude::*;

verus! {

/// One account's holdings: total balance and the reserved part of it.
pub struct Account {
    pub who: u64,
    pub balance: u64,
    pub reserved: u64,
}

/// The balance book: one entry per account, and the configured total stake
/// used as the electorate size by vote thresholds.
pub struct StakeLedger {
    pub accounts: Vec<Account>,
    pub total_stake: u64,
}

/// Total balance of `who` in the entry sequence; 0 when unlisted.
pub open spec fn balance_in(s: Seq<Account>, who: u64) -> u64
    decreases s.len(),
{
    if s.len() == 0 {
        0u64
    } else if s[0].who == who {
        s[0].balance
    } else {
        balance_in(s.drop_first(), who)
    }
}

/// Reserved balance of `who` in the entry sequence; 0 when unlisted.
pub open spec fn reserved_in(s: Seq<Account>, who: u64) -> u64
    decreases s.len(),
{
    if s.len() == 0 {
        0u64
    } else if s[0].who == who {
        s[0].reserved
    } else {
        reserved_in(s.drop_first(), who)
    }
}

/// Sum of all total balances, as an unbounded integer.
pub open spec fn sum_balance(s: Seq<Account>) -> int
    decreases s.len(),
{
    if s.len() == 0 {
        0int
    } else {
        s[0].balance + sum_balance(s.drop_first())
    }
}

/// No account is listed twice.
pub open spec fn distinct_accounts(s: Seq<Account>) -> bool {
    forall|i: int, j: int| 0 <= i < j < s.len() ==> s[i].who != s[j].who
}

/// `a + b` clamped to the `u64` range.
pub open spec fn sat_add_u64(a: u64, b: u64) -> u64 {
    if a + b > u64::MAX {
        u64::MAX
    } else {
        (a + b) as u64
    }
}

/// The smaller of two values.
pub open spec fn min_u64(a: u64, b: u64) -> u64 {
    if a <= b {
        a
    } else {
        b
    }
}

proof fn lemma_lookup(s: Seq<Account>, i: int)
    requires
        distinct_accounts(s),
        0 <= i < s.len(),
    ensures
        balance_in(s, s[i].who) == s[i].balance,
        reserved_in(s, s[i].who) == s[i].reserved,
    decreases s.len(),
{
    if i > 0 {
        lemma_lookup(s.drop_first(), i - 1);
    }
}

proof fn lemma_absent(s: Seq<Account>, who: u64)
    requires
        forall|j: int| 0 <= j < s.len() ==> s[j].who != who,
    ensures
        balance_in(s, who) == 0,
        reserved_in(s, who) == 0,
    decreases s.len(),
{
    if s.len() > 0 {
        lemma_absent(s.drop_first(), who);
    }
}

proof fn lemma_update_frame(s: Seq<Account>, i: int, a: Account, w: u64)
    requires
        0 <= i < s.len(),
        w != a.who,
        w != s[i].who,
    ensures
        balance_in(s.update(i, a), w) == balance_in(s, w),
        reserved_in(s.update(i, a), w) == reserved_in(s, w),
    decreases s.len(),
{
    let u = s.update(i, a);
    if i == 0 {
        assert(u.drop_first() =~= s.drop_first());
    } else {
        assert(u.drop_first() =~= s.drop_first().update(i - 1, a));
        lemma_update_frame(s.drop_first(), i - 1, a, w);
    }
}

proof fn lemma_update_sum(s: Seq<Account>, i: int, a: Account)
    requires
        0 <= i < s.len(),
    ensures
        sum_balance(s.update(i, a)) == sum_balance(s) - s[i].balance + a.balance,
    decreases s.len(),
{
    let u = s.update(i, a);
    if i == 0 {
        assert(u.drop_first() =~= s.drop_first());
    } else {
        assert(u.drop_first() =~= s.drop_first().update(i - 1, a));
        lemma_update_sum(s.drop_first(), i - 1, a);
    }
}

proof fn lemma_update(s: Seq<Account>, i: int, a: Account)
    requires
        distinct_accounts(s),
        0 <= i < s.len(),
        a.who == s[i].who,
    ensures
        distinct_accounts(s.update(i, a)),
        balance_in(s.update(i, a), a.who) == a.balance,
        reserved_in(s.update(i, a), a.who) == a.reserved,
        forall|w: u64| w != a.who ==> balance_in(s.update(i, a), w) == balance_in(s, w),
        forall|w: u64| w != a.who ==> reserved_in(s.update(i, a), w) == reserved_in(s, w),
        sum_balance(s.update(i, a)) == sum_balance(s) - s[i].balance + a.balance,
{
    lemma_lookup(s.update(i, a), i);
    lemma_update_sum(s, i, a);
    assert forall|w: u64| w != a.who implies balance_in(s.update(i, a), w) == balance_in(s, w)
        && reserved_in(s.update(i, a), w) == reserved_in(s, w) by {
        lemma_update_frame(s, i, a, w);
    }
}

proof fn lemma_push_frame(s: Seq<Account>, a: Account, w: u64)
    requires
        w != a.who,
    ensures
        balance_in(s.push(a), w) == balance_in(s, w),
        reserved_in(s.push(a), w) == reserved_in(s, w),
    decreases s.len(),
{
    let u = s.push(a);
    if s.len() == 0 {
        assert(u[0] == a);
        assert(u.drop_first() =~= Seq::<Account>::empty());
        assert(balance_in(Seq::<Account>::empty(), w) == 0);
        assert(reserved_in(Seq::<Account>::empty(), w) == 0);
    } else {
        assert(u[0] == s[0]);
        assert(u.drop_first() =~= s.drop_first().push(a));
        lemma_push_frame(s.drop_first(), a, w);
    }
}

proof fn lemma_push_sum(s: Seq<Account>, a: Account)
    ensures
        sum_balance(s.push(a)) == sum_balance(s) + a.balance,
    decreases s.len(),
{
    let u = s.push(a);
    if s.len() == 0 {
        assert(u.drop_first() =~= Seq::<Account>::empty());
        assert(sum_balance(Seq::<Account>::empty()) == 0);
    } else {
        assert(u[0] == s[0]);
        assert(u.drop_first() =~= s.drop_first().push(a));
        lemma_push_sum(s.drop_first(), a);
    }
}

proof fn lemma_push(s: Seq<Account>, a: Account)
    requires
        distinct_accounts(s),
        forall|j: int| 0 <= j < s.len() ==> s[j].who != a.who,
    ensures
        distinct_accounts(s.push(a)),
        balance_in(s.push(a), a.who) == a.balance,
        reserved_in(s.push(a), a.who) == a.reserved,
        forall|w: u64| w != a.who ==> balance_in(s.push(a), w) == balance_in(s, w),
        forall|w: u64| w != a.who ==> reserved_in(s.push(a), w) == reserved_in(s, w),
        sum_balance(s.push(a)) == sum_balance(s) + a.balance,
{
    lemma_lookup(s.push(a), s.len() as int);
    lemma_push_sum(s, a);
    assert forall|w: u64| w != a.who implies balance_in(s.push(a), w) == balance_in(s, w)
        && reserved_in(s.push(a), w) == reserved_in(s, w) by {
        lemma_push_frame(s, a, w);
    }
}

proof fn lemma_reserved_le_balance(s: Seq<Account>, who: u64)
    requires
        forall|i: int| 0 <= i < s.len() ==> s[i].reserved <= s[i].balance,
    ensures
        reserved_in(s, who) <= balance_in(s, who),
    decreases s.len(),
{
    if s.len() > 0 {
        lemma_reserved_le_balance(s.drop_first(), who);
    }
}

/// Bond conservation for reserved bonds: a ledger that reserved a bond for
/// an account (a first-time vote) and then released it (a retraction) holds
/// exactly the balances it started with, on every account. The hypotheses
/// are the ledger clauses of `CouncilState::set_approvals` for a new voter
/// and of `CouncilState::retract_voter`.
pub proof fn lemma_voting_bond_round_trip(
    l0: StakeLedger,
    l1: StakeLedger,
    l2: StakeLedger,
    who: u64,
    bond: u64,
)
    requires
        l1.same_except(l0, who),
        l1.balance_of(who) == l0.balance_of(who),
        l1.reserved_of(who) == l0.reserved_of(who) + bond,
        l2.same_except(l1, who),
        l2.balance_of(who) == l1.balance_of(who),
        l2.reserved_of(who) == l1.reserved_of(who) - min_u64(bond, l1.reserved_of(who)),
    ensures
        forall|w: u64| l2.balance_of(w) == l0.balance_of(w),
        forall|w: u64| l2.reserved_of(w) == l0.reserved_of(w),
        l2.total_stake == l0.total_stake,
{
}

/// Bond conservation for deducted bonds: a ledger that deducted a bond from
/// an account (a candidacy submission) and then granted it back (the
/// winner's refund) holds exactly the balances it started with, on every
/// account; the grant can never saturate, because the deduction made room
/// for it. The hypotheses are the ledger clauses of
/// `CouncilState::submit_candidacy` and of the refunds in
/// `CouncilState::finalise_rel`.
pub proof fn lemma_candidacy_bond_round_trip(
    l0: StakeLedger,
    l1: StakeLedger,
    l2: StakeLedger,
    who: u64,
    bond: u64,
)
    requires
        bond <= l0.balance_of(who),
        l1.same_except(l0, who),
        l1.balance_of(who) == l0.balance_of(who) - bond,
        l1.reserved_of(who) == l0.reserved_of(who),
        l2.same_except(l1, who),
        l2.balance_of(who) == sat_add_u64(l1.balance_of(who), bond),
        l2.reserved_of(who) == l1.reserved_of(who),
    ensures
        forall|w: u64| l2.balance_of(w) == l0.balance_of(w),
        forall|w: u64| l2.reserved_of(w) == l0.reserved_of(w),
        l2.total_stake == l0.total_stake,
{
}

impl StakeLedger {
    /// Every listed account appears once and reserves no more than it holds.
    pub open spec fn wf(self) -> bool {
        &&& distinct_accounts(self.accounts@)
        &&& forall|i: int|
            0 <= i < self.accounts@.len() ==> self.accounts@[i].reserved
                <= self.accounts@[i].balance
    }

    /// Total balance of `who` (spendable and reserved together).
    pub open spec fn balance_of(self, who: u64) -> u64 {
        balance_in(self.accounts@, who)
    }

    /// The part of `who`'s balance locked as collateral.
    pub open spec fn reserved_of(self, who: u64) -> u64 {
        reserved_in(self.accounts@, who)
    }

    /// The part of `who`'s balance that may be spent or newly reserved.
    pub open spec fn spendable_of(self, who: u64) -> int {
        self.balance_of(who) - self.reserved_of(who)
    }

    /// Sum of all total balances.
    pub open spec fn sum(self) -> int {
        sum_balance(self.accounts@)
    }

    /// All accounts other than `who` hold exactly what they held in `other`.
    pub open spec fn same_except(self, other: StakeLedger, who: u64) -> bool {
        &&& forall|w: u64| w != who ==> self.balance_of(w) == other.balance_of(w)
        &&& forall|w: u64| w != who ==> self.reserved_of(w) == other.reserved_of(w)
        &&& self.total_stake == other.total_stake
    }

    /// An empty ledger with the given aggregate stake.
    pub fn new(total_stake: u64) -> (r: StakeLedger)
        ensures
            r.wf(),
            r.accounts@.len() == 0,
            r.total_stake == total_stake,
            forall|w: u64| r.balance_of(w) == 0 && r.reserved_of(w) == 0,
            r.sum() == 0,
    {
        StakeLedger { accounts: Vec::new(), total_stake }
    }

    /// Position of `who`'s entry, if listed.
    fn find_index(&self, who: u64) -> (r: Option<usize>)
        ensures
            match r {
                Some(i) => i < self.accounts@.len() && self.accounts@[i as int].who == who,
                None => forall|j: int| 0 <= j < self.accounts@.len() ==> self.accounts@[j].who != who,
            },
    {
        let mut k: usize = 0;
        while k < self.accounts.len()
            invariant
                k <= self.accounts@.len(),
                forall|j: int| 0 <= j < k ==> self.accounts@[j].who != who,
            decreases self.accounts@.len() - k,
        {
            if self.accounts[k].who == who {
                return Some(k);
            }
            k += 1;
        }
        None
    }

    /// Total balance of `who`.
    pub fn balance(&self, who: u64) -> (r: u64)
        requires
            self.wf(),
        ensures
            r == self.balance_of(who),
    {
        match self.find_index(who) {
            Some(i) => {
                proof {
                    lemma_lookup(self.accounts@, i as int);
                }
                self.accounts[i].balance
            },
            None => {
                proof {
                    lemma_absent(self.accounts@, who);
                }
                0
            },
        }
    }

    /// Reserved balance of `who`.
    pub fn reserved(&self, who: u64) -> (r: u64)
        requires
            self.wf(),
        ensures
            r == self.reserved_of(who),
    {
        match self.find_index(who) {
            Some(i) => {
                proof {
                    lemma_lookup(self.accounts@, i as int);
                }
                self.accounts[i].reserved
            },
            None => {
                proof {
                    lemma_absent(self.accounts@, who);
                }
                0
            },
        }
    }

    /// The part of `who`'s balance not locked as collateral.
    pub fn spendable(&self, who: u64) -> (r: u64)
        requires
            self.wf(),
        ensures
            r == self.spendable_of(who),
    {
        proof {
            lemma_reserved_le_balance(self.accounts@, who);
        }
        self.balance(who) - self.reserved(who)
    }

    /// Whether `amount` could be taken from `who` by a slash.
    pub fn can_slash(&self, who: u64, amount: u64) -> (r: bool)
        requires
            self.wf(),
        ensures
            r == (self.balance_of(who) >= amount),
    {
        self.balance(who) >= amount
    }

    /// Position of `who`'s entry, creating an empty one when unlisted.
    fn entry_index(&mut self, who: u64) -> (i: usize)
        requires
            old(self).wf(),
            old(self).accounts@.len() < usize::MAX,
        ensures
            final(self).wf(),
            i < final(self).accounts@.len(),
            final(self).accounts@.len() <= old(self).accounts@.len() + 1,
            final(self).accounts@[i as int].who == who,
            final(self).accounts@[i as int].balance == old(self).balance_of(who),
            final(self).accounts@[i as int].reserved == old(self).reserved_of(who),
            forall|w: u64| final(self).balance_of(w) == old(self).balance_of(w),
            forall|w: u64| final(self).reserved_of(w) == old(self).reserved_of(w),
            final(self).sum() == old(self).sum(),
            final(self).total_stake == old(self).total_stake,
            distinct_accounts(final(self).accounts@),
            forall|j: int|
                0 <= j < final(self).accounts@.len() && j != i ==> final(self).accounts@[j].who
                    != who,
    {
        match self.find_index(who) {
            Some(i) => {
                proof {
                    lemma_lookup(self.accounts@, i as int);
                }
                i
            },
            None => {
                proof {
                    lemma_absent(self.accounts@, who);
                    lemma_push(self.accounts@, Account { who, balance: 0u64, reserved: 0u64 });
                }
                let i = self.accounts.len();
                self.accounts.push(Account { who, balance: 0, reserved: 0 });
                i
            },
        }
    }

    /// Lock `amount` of `who`'s spendable balance as collateral. Fails,
    /// changing nothing, when the spendable balance is too small.
    pub fn reserve(&mut self, who: u64, amount: u64) -> (r: bool)
        requires
            old(self).wf(),
            old(self).accounts@.len() < usize::MAX,
        ensures
            final(self).wf(),
            final(self).accounts@.len() <= old(self).accounts@.len() + 1,
            r == (old(self).spendable_of(who) >= amount),
            final(self).same_except(*old(self), who),
            final(self).balance_of(who) == old(self).balance_of(who),
            final(self).reserved_of(who) == if r {
                (old(self).reserved_of(who) + amount) as u64
            } else {
                old(self).reserved_of(who)
            },
            final(self).sum() == old(self).sum(),
            !r ==> *final(self) == *old(self),
    {
        proof {
            lemma_reserved_le_balance(self.accounts@, who);
        }
        let spendable = self.balance(who) - self.reserved(who);
        if amount > spendable {
            return false;
        }
        let i = self.entry_index(who);
        let bal = self.accounts[i].balance;
        let res = self.accounts[i].reserved;
        proof {
            lemma_update(
                self.accounts@,
                i as int,
                Account { who, balance: bal, reserved: (res + amount) as u64 },
            );
        }
        self.accounts[i] = Account { who, balance: bal, reserved: res + amount };
        true
    }

    /// Release up to `amount` of `who`'s reserved balance back to spendable.
    pub fn unreserve(&mut self, who: u64, amount: u64)
        requires
            old(self).wf(),
            old(self).accounts@.len() < usize::MAX,
        ensures
            final(self).wf(),
            final(self).accounts@.len() <= old(self).accounts@.len() + 1,
            final(self).same_except(*old(self), who),
            final(self).balance_of(who) == old(self).balance_of(who),
            final(self).reserved_of(who) == (old(self).reserved_of(who) - min_u64(
                amount,
                old(self).reserved_of(who),
            )) as u64,
            final(self).sum() == old(self).sum(),
    {
        let i = self.entry_index(who);
        let bal = self.accounts[i].balance;
        let res = self.accounts[i].reserved;
        let m = if amount <= res {
            amount
        } else {
            res
        };
        proof {
            lemma_update(
                self.accounts@,
                i as int,
                Account { who, balance: bal, reserved: (res - m) as u64 },
            );
        }
        self.accounts[i] = Account { who, balance: bal, reserved: res - m };
    }

    /// Destroy up to `amount` of `who`'s reserved balance.
    pub fn slash_reserved(&mut self, who: u64, amount: u64) -> (burned: u64)
        requires
            old(self).wf(),
            old(self).accounts@.len() < usize::MAX,
        ensures
            final(self).wf(),
            final(self).accounts@.len() <= old(self).accounts@.len() + 1,
            burned == min_u64(amount, old(self).reserved_of(who)),
            burned <= old(self).balance_of(who),
            final(self).same_except(*old(self), who),
            final(self).balance_of(who) == (old(self).balance_of(who) - burned) as u64,
            final(self).reserved_of(who) == (old(self).reserved_of(who) - burned) as u64,
            final(self).sum() == old(self).sum() - burned,
    {
        proof {
            lemma_reserved_le_balance(self.accounts@, who);
        }
        let i = self.entry_index(who);
        let bal = self.accounts[i].balance;
        let res = self.accounts[i].reserved;
        let m = if amount <= res {
            amount
        } else {
            res
        };
        proof {
            lemma_update(
                self.accounts@,
                i as int,
                Account { who, balance: (bal - m) as u64, reserved: (res - m) as u64 },
            );
        }
        self.accounts[i] = Account { who, balance: bal - m, reserved: res - m };
        m
    }

    /// Move up to `amount` of `from`'s reserved balance into `to`'s spendable
    /// balance (the reward path of a successful reap). `to`'s balance
    /// saturates at the `u64` limit.
    pub fn transfer_reserved(&mut self, from: u64, to: u64, amount: u64) -> (moved: u64)
        requires
            old(self).wf(),
            from != to,
            old(self).accounts@.len() + 1 < usize::MAX,
        ensures
            final(self).wf(),
            final(self).accounts@.len() <= old(self).accounts@.len() + 2,
            moved == min_u64(amount, old(self).reserved_of(from)),
            moved <= old(self).balance_of(from),
            final(self).balance_of(from) == (old(self).balance_of(from) - moved) as u64,
            final(self).reserved_of(from) == (old(self).reserved_of(from) - moved) as u64,
            final(self).balance_of(to) == sat_add_u64(old(self).balance_of(to), moved),
            final(self).reserved_of(to) == old(self).reserved_of(to),
            forall|w: u64|
                w != from && w != to ==> final(self).balance_of(w) == old(self).balance_of(w)
                    && final(self).reserved_of(w) == old(self).reserved_of(w),
            final(self).sum() == old(self).sum() - moved + (
            final(self).balance_of(to) - old(self).balance_of(to)),
            final(self).total_stake == old(self).total_stake,
    {
        proof {
            lemma_reserved_le_balance(self.accounts@, from);
        }
        let i = self.entry_index(from);
        let bal = self.accounts[i].balance;
        let res = self.accounts[i].reserved;
        let m = if amount <= res {
            amount
        } else {
            res
        };
        proof {
            lemma_update(
                self.accounts@,
                i as int,
                Account { who: from, balance: (bal - m) as u64, reserved: (res - m) as u64 },
            );
        }
        self.accounts[i] = Account { who: from, balance: bal - m, reserved: res - m };
        proof {
            assert(self.balance_of(from) == (old(self).balance_of(from) - m) as u64);
            assert(self.reserved_of(from) == (old(self).reserved_of(from) - m) as u64);
        }
        let ghost mid1 = *self;
        let j = self.entry_index(to);
        let ghost mid2 = *self;
        let tbal = self.accounts[j].balance;
        let tres = self.accounts[j].reserved;
        let nbal = if m > u64::MAX - tbal {
            u64::MAX
        } else {
            tbal + m
        };
        proof {
            lemma_update(
                self.accounts@,
                j as int,
                Account { who: to, balance: nbal, reserved: tres },
            );
        }
        self.accounts[j] = Account { who: to, balance: nbal, reserved: tres };
        proof {
            assert(self.balance_of(from) == (old(self).balance_of(from) - m) as u64);
            assert(self.reserved_of(from) == (old(self).reserved_of(from) - m) as u64);
            assert forall|w: u64| w != from && w != to implies self.balance_of(w) == old(
                self,
            ).balance_of(w) && self.reserved_of(w) == old(self).reserved_of(w) by {
                assert(mid2.balance_of(w) == mid1.balance_of(w));
                assert(mid1.balance_of(w) == old(self).balance_of(w));
                assert(mid2.reserved_of(w) == mid1.reserved_of(w));
                assert(mid1.reserved_of(w) == old(self).reserved_of(w));
            }
        }
        m
    }

    /// Destroy up to `amount` of `who`'s total balance, spendable part first.
    pub fn slash(&mut self, who: u64, amount: u64) -> (burned: u64)
        requires
            old(self).wf(),
            old(self).accounts@.len() < usize::MAX,
        ensures
            final(self).wf(),
            final(self).accounts@.len() <= old(self).accounts@.len() + 1,
            burned == min_u64(amount, old(self).balance_of(who)),
            final(self).same_except(*old(self), who),
            final(self).balance_of(who) == (old(self).balance_of(who) - burned) as u64,
            final(self).reserved_of(who) == min_u64(
                old(self).reserved_of(who),
                (old(self).balance_of(who) - burned) as u64,
            ),
            final(self).sum() == old(self).sum() - burned,
    {
        let i = self.entry_index(who);
        let bal = self.accounts[i].balance;
        let res = self.accounts[i].reserved;
        let m = if amount <= bal {
            amount
        } else {
            bal
        };
        let nbal = bal - m;
        let nres = if res <= nbal {
            res
        } else {
            nbal
        };
        proof {
            lemma_update(
                self.accounts@,
                i as int,
                Account { who, balance: nbal, reserved: nres },
            );
        }
        self.accounts[i] = Account { who, balance: nbal, reserved: nres };
        m
    }

    /// Take `amount` from `who`'s spendable balance as a non-refundable
    /// payment. Fails, changing nothing, when the spendable balance is too
    /// small.
    pub fn deduct_unbonded(&mut self, who: u64, amount: u64) -> (r: bool)
        requires
            old(self).wf(),
            old(self).accounts@.len() < usize::MAX,
        ensures
            final(self).wf(),
            final(self).accounts@.len() <= old(self).accounts@.len() + 1,
            r == (old(self).spendable_of(who) >= amount),
            final(self).same_except(*old(self), who),
            final(self).balance_of(who) == if r {
                (old(self).balance_of(who) - amount) as u64
            } else {
                old(self).balance_of(who)
            },
            final(self).reserved_of(who) == old(self).reserved_of(who),
            final(self).sum() == if r {
                old(self).sum() - amount
            } else {
                old(self).sum()
            },
            !r ==> *final(self) == *old(self),
    {
        proof {
            lemma_reserved_le_balance(self.accounts@, who);
        }
        let spendable = self.balance(who) - self.reserved(who);
        if amount > spendable {
            return false;
        }
        let i = self.entry_index(who);
        let bal = self.accounts[i].balance;
        let res = self.accounts[i].reserved;
        proof {
            lemma_update(
                self.accounts@,
                i as int,
                Account { who, balance: (bal - amount) as u64, reserved: res },
            );
        }
        self.accounts[i] = Account { who, balance: bal - amount, reserved: res };
        true
    }

    /// Grant `amount` to `who`'s spendable balance, saturating at the `u64`
    /// limit (the bond-return path for elected candidates and launched
    /// proposals).
    pub fn refund(&mut self, who: u64, amount: u64) -> (granted: u64)
        requires
            old(self).wf(),
            old(self).accounts@.len() < usize::MAX,
        ensures
            final(self).wf(),
            final(self).accounts@.len() <= old(self).accounts@.len() + 1,
            final(self).same_except(*old(self), who),
            final(self).balance_of(who) == sat_add_u64(old(self).balance_of(who), amount),
            granted == final(self).balance_of(who) - old(self).balance_of(who),
            final(self).reserved_of(who) == old(self).reserved_of(who),
            final(self).sum() == old(self).sum() + granted,
    {
        let i = self.entry_index(who);
        let bal = self.accounts[i].balance;
        let res = self.accounts[i].reserved;
        let nbal = if amount > u64::MAX - bal {
            u64::MAX
        } else {
            bal + amount
        };
        proof {
            lemma_update(self.accounts@, i as int, Account { who, balance: nbal, reserved: res });
        }
        self.accounts[i] = Account { who, balance: nbal, reserved: res };
        nbal - bal
    }
}

} // verus!
