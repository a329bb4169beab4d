//! Vote thresholds: the predicate deciding whether a tally of stake-weighted
//! ayes and nays, out of a total electorate stake, carries a referendum.
//!
//! The supermajority variants bias the comparison by the integer square roots
//! of the turnout and of the electorate: a proposal carries under
//! `SuperMajorityApprove` when `nay * sqrt(electorate) < aye * sqrt(turnout)`,
//! so a low turnout demands a larger margin of approval; the `Against` variant
//! mirrors the bias in the proposal's favour.

use vstd::prelude::*;

verus! {

/// Largest `r` with `r * r <= n`, defined over unbounded integers.
pub open spec fn sqrt_floor(n: nat) -> nat
    decreases n,
{
    if n == 0 {
        0
    } else {
        let p = sqrt_floor((n - 1) as nat);
        if (p + 1) * (p + 1) <= n {
            p + 1
        } else {
            p
        }
    }
}

/// `sqrt_floor(n)` is indeed the integer square root of `n`.
pub proof fn lemma_sqrt_floor(n: nat)
    ensures
        sqrt_floor(n) * sqrt_floor(n) <= n,
        (sqrt_floor(n) + 1) * (sqrt_floor(n) + 1) > n,
    decreases n,
{
    if n == 0 {
        assert(sqrt_floor(0) == 0);
        assert((sqrt_floor(n) + 1) * (sqrt_floor(n) + 1) == 1) by (nonlinear_arith)
            requires
                n == 0 && sqrt_floor(n) == 0,
        ;
    } else {
        lemma_sqrt_floor((n - 1) as nat);
        let p = sqrt_floor((n - 1) as nat);
        if (p + 1) * (p + 1) <= n {
            assert(sqrt_floor(n) == p + 1);
            assert((p + 2) * (p + 2) > (p + 1) * (p + 1)) by (nonlinear_arith);
            assert((p + 1) * (p + 1) > n - 1);
            assert((p + 2) * (p + 2) > n);
            assert((sqrt_floor(n) + 1) * (sqrt_floor(n) + 1) == (p + 2) * (p + 2));
        } else {
            assert(sqrt_floor(n) == p);
            assert((sqrt_floor(n) + 1) * (sqrt_floor(n) + 1) == (p + 1) * (p + 1));
        }
    }
}

/// Any `r` bracketing `n` between `r * r` and `(r + 1) * (r + 1)` is its
/// integer square root: the bracketing value is unique.
pub proof fn lemma_sqrt_floor_unique(n: nat, r: nat)
    requires
        r * r <= n,
        (r + 1) * (r + 1) > n,
    ensures
        r == sqrt_floor(n),
{
    let s = sqrt_floor(n);
    lemma_sqrt_floor(n);
    if r < s {
        assert((r + 1) * (r + 1) <= s * s) by (nonlinear_arith)
            requires
                r + 1 <= s,
        ;
    }
    if s < r {
        assert((s + 1) * (s + 1) <= r * r) by (nonlinear_arith)
            requires
                s + 1 <= r,
        ;
    }
}

/// Integer square root of a `u128`, by bisection.
pub fn isqrt(n: u128) -> (r: u64)
    ensures
        r == sqrt_floor(n as nat),
{
    let mut lo: u128 = 0;
    let mut hi: u128 = 0x1_0000_0000_0000_0000;
    while lo + 1 < hi
        invariant
            lo < hi <= 0x1_0000_0000_0000_0000,
            lo * lo <= n,
            hi * hi > n,
        decreases hi - lo,
    {
        let mid = lo + (hi - lo) / 2;
        assert(mid * mid < 0x1_0000_0000_0000_0000 * 0x1_0000_0000_0000_0000) by (nonlinear_arith)
            requires
                mid < 0x1_0000_0000_0000_0000,
        ;
        if mid * mid <= n {
            lo = mid;
        } else {
            hi = mid;
        }
    }
    proof {
        lemma_sqrt_floor_unique(n as nat, lo as nat);
    }
    lo as u64
}

/// How a referendum's tally is judged against the electorate.
#[derive(Clone, Copy, PartialEq, Eq, Structural, Debug)]
pub enum VoteThreshold {
    /// Approval must clear a turnout-biased supermajority.
    SuperMajorityApprove,
    /// Rejection must clear a turnout-biased supermajority.
    SuperMajorityAgainst,
    /// A bare majority of stake carries.
    SimpleMajority,
}

impl VoteThreshold {
    /// Whether a tally of `aye` stake for and `nay` stake against, out of a
    /// total electorate stake of `total`, carries the proposal.
    pub open spec fn approved_spec(self, aye: u64, nay: u64, total: u64) -> bool {
        let sqrt_turnout = sqrt_floor((aye + nay) as nat);
        let sqrt_electorate = sqrt_floor(total as nat);
        match self {
            VoteThreshold::SuperMajorityApprove => nay * sqrt_electorate < aye * sqrt_turnout,
            VoteThreshold::SuperMajorityAgainst => nay * sqrt_turnout < aye * sqrt_electorate,
            VoteThreshold::SimpleMajority => nay < aye,
        }
    }

    /// Judge a tally. An empty turnout never carries a proposal.
    pub fn approved(&self, aye: u64, nay: u64, total: u64) -> (r: bool)
        ensures
            r == self.approved_spec(aye, nay, total),
    {
        let sqrt_turnout = isqrt(aye as u128 + nay as u128);
        let sqrt_electorate = isqrt(total as u128);
        proof {
            assert((nay as int) * (sqrt_electorate as int) <= (u64::MAX as int) * (u64::MAX as int))
                by (nonlinear_arith)
                requires
                    nay <= u64::MAX && sqrt_electorate <= u64::MAX,
            ;
            assert((aye as int) * (sqrt_turnout as int) <= (u64::MAX as int) * (u64::MAX as int))
                by (nonlinear_arith)
                requires
                    aye <= u64::MAX && sqrt_turnout <= u64::MAX,
            ;
            assert((nay as int) * (sqrt_turnout as int) <= (u64::MAX as int) * (u64::MAX as int))
                by (nonlinear_arith)
                requires
                    nay <= u64::MAX && sqrt_turnout <= u64::MAX,
            ;
            assert((aye as int) * (sqrt_electorate as int) <= (u64::MAX as int) * (u64::MAX as int))
                by (nonlinear_arith)
                requires
                    aye <= u64::MAX && sqrt_electorate <= u64::MAX,
            ;
        }
        match self {
            VoteThreshold::SuperMajorityApprove => {
                (nay as u128) * (sqrt_electorate as u128) < (aye as u128) * (sqrt_turnout as u128)
            },
            VoteThreshold::SuperMajorityAgainst => {
                (nay as u128) * (sqrt_turnout as u128) < (aye as u128) * (sqrt_electorate as u128)
            },
            VoteThreshold::SimpleMajority => nay < aye,
        }
    }
}

} // verus!
