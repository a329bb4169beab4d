//! The referendum engine: bonded public proposals, their escalation to
//! stake-weighted referenda at launch-period boundaries, and the tallying
//! and dispatch of matured referenda.
//!
//! All state lives in an explicit [`DemocracyState`] value; deposits are
//! drawn from a [`StakeLedger`] passed to each operation. Every operation
//! either succeeds, or fails with a named [`DemocracyError`] and changes
//! nothing.

use vstd::prelude::*;
use vstd::std_specs::vec::vec_index_mut;

use crate::ledger::sat_add_u64;
use crate::ledger::StakeLedger;
use crate::vote_threshold::VoteThreshold;

verus! {

/// A dispatchable governance action. Council administration and referendum
/// cancellation close the governance feedback loop; any other action is
/// carried opaquely by its identifier.
#[derive(Clone, Copy, PartialEq, Eq, Structural, Debug)]
pub enum Proposal {
    /// Set the council's desired seat count.
    SetDesiredSeats(u32),
    /// Force a member off the council.
    RemoveMember(u64),
    /// Set the council's presentation duration.
    SetPresentationDuration(u64),
    /// Set the council's term duration.
    SetTermDuration(u64),
    /// Cancel the referendum with the given index.
    CancelReferendum(u32),
    /// An action outside the governance engines, named by an identifier.
    Opaque(u64),
}

/// Recognising the referendum-cancellation action inside a proposal.
pub trait IsCancelReferendum {
    /// The referendum a value would cancel, if any.
    spec fn cancel_target(&self) -> Option<u32>;

    /// Return the referendum this value would cancel, if any.
    fn is_cancel_referendum(&self) -> (r: Option<u32>)
        ensures
            r == self.cancel_target(),
    ;
}

impl IsCancelReferendum for Proposal {
    open spec fn cancel_target(&self) -> Option<u32> {
        match *self {
            Proposal::CancelReferendum(i) => Some(i),
            _ => None,
        }
    }

    fn is_cancel_referendum(&self) -> (r: Option<u32>) {
        match *self {
            Proposal::CancelReferendum(i) => Some(i),
            _ => None,
        }
    }
}

/// One account's recorded vote on a referendum.
#[derive(Clone, Copy, PartialEq, Eq, Structural, Debug)]
pub struct VoteEntry {
    pub who: u64,
    pub approve: bool,
}

/// A live referendum: maturation block, the proposed action, the threshold
/// judging its tally, and the votes recorded so far.
#[derive(Debug)]
pub struct ReferendumInfo {
    pub end: u64,
    pub proposal: Proposal,
    pub threshold: VoteThreshold,
    pub voters: Vec<VoteEntry>,
}

/// A pending public proposal: its index, action, proposer, the deposit each
/// backer pays, and every backer (the proposer first; an account seconding
/// twice appears twice and pays twice).
#[derive(Debug)]
pub struct PublicProp {
    pub index: u32,
    pub proposal: Proposal,
    pub proposer: u64,
    pub deposit: u64,
    pub depositors: Vec<u64>,
}

/// The named failure conditions of referendum operations.
#[derive(Clone, Copy, PartialEq, Eq, Structural, Debug)]
pub enum DemocracyError {
    /// The offered deposit is below the configured minimum.
    DepositBelowMinimum,
    /// The proposer cannot pay the offered deposit.
    ProposerCannotAfford,
    /// No pending proposal has the given index.
    SecondNonexistentProposal,
    /// The seconder cannot pay the proposal's deposit.
    SeconderCannotAfford,
    /// The vote names no active referendum.
    VoteInvalidReferendum,
    /// A voter must hold some balance to signal approval.
    VoterBalanceZero,
    /// A referendum cannot mature earlier than the one before it.
    ReferendumEndsTooEarly,
}

/// The referendum engine's entire state: configuration parameters, the
/// pending-proposal queue, and the referendum registry. A referendum's
/// index is its position in `referenda`; a cleared referendum leaves a
/// permanent hole.
pub struct DemocracyState {
    /// Public referenda launch only at multiples of this period.
    pub launch_period: u64,
    /// The least deposit a public proposal may offer.
    pub minimum_deposit: u64,
    /// Blocks between a referendum's injection and its maturation.
    pub voting_period: u64,
    /// Number of public proposals ever made; the next proposal's index.
    pub public_prop_count: u32,
    /// The pending public proposals, unsorted.
    pub public_props: Vec<PublicProp>,
    /// Every referendum ever started, by index; `None` once cleared.
    pub referenda: Vec<Option<ReferendumInfo>>,
    /// The first referendum index not yet tallied.
    pub next_tally: u32,
}

/// Some pending proposal carries index `i`.
pub open spec fn has_prop(s: Seq<PublicProp>, i: u32) -> bool {
    exists|j: int| 0 <= j < s.len() && s[j].index == i
}

/// The position of the pending proposal with index `i`.
pub open spec fn prop_pos(s: Seq<PublicProp>, i: u32) -> int {
    choose|j: int| 0 <= j < s.len() && s[j].index == i
}

/// Pending proposals carry distinct indices.
pub open spec fn props_distinct(s: Seq<PublicProp>) -> bool {
    forall|a: int, b: int| 0 <= a < b < s.len() ==> s[a].index != s[b].index
}

/// No account votes twice on one referendum.
pub open spec fn votes_distinct(s: Seq<VoteEntry>) -> bool {
    forall|a: int, b: int| 0 <= a < b < s.len() ==> s[a].who != s[b].who
}

/// The total locked behind a proposal: its deposit from each backer,
/// clamped to the `u64` range.
pub open spec fn locked_of(p: PublicProp) -> u64 {
    if p.deposit * p.depositors@.len() > u64::MAX {
        u64::MAX
    } else {
        (p.deposit * p.depositors@.len()) as u64
    }
}

impl DemocracyState {
    /// The structural invariant every operation preserves.
    pub open spec fn wf(self) -> bool {
        &&& self.launch_period >= 1
        &&& self.referenda@.len() <= u32::MAX
        &&& self.next_tally <= self.referenda@.len()
        &&& props_distinct(self.public_props@)
        &&& forall|j: int|
            0 <= j < self.public_props@.len() ==> self.public_props@[j].depositors@.len() >= 1
        &&& forall|j: int|
            0 <= j < self.public_props@.len() ==> self.public_props@[j].index
                < self.public_prop_count
        &&& forall|j: int|
            #![trigger self.referenda@[j]]
            0 <= j < self.referenda@.len() && self.referenda@[j] is Some ==> votes_distinct(
                self.referenda@[j]->0.voters@,
            )
    }

    /// A fresh engine: the given parameters, no proposals or referenda.
    pub fn new(launch_period: u64, minimum_deposit: u64, voting_period: u64) -> (r: DemocracyState)
        requires
            launch_period >= 1,
        ensures
            r.wf(),
            r.launch_period == launch_period,
            r.minimum_deposit == minimum_deposit,
            r.voting_period == voting_period,
            r.public_prop_count == 0,
            r.public_props@.len() == 0,
            r.referenda@.len() == 0,
            r.next_tally == 0,
    {
        DemocracyState {
            launch_period,
            minimum_deposit,
            voting_period,
            public_prop_count: 0,
            public_props: Vec::new(),
            referenda: Vec::new(),
            next_tally: 0,
        }
    }

    /// Number of referenda ever started; the next referendum's index.
    pub fn referendum_count(&self) -> (r: u32)
        requires
            self.wf(),
        ensures
            r == self.referenda@.len(),
    {
        self.referenda.len() as u32
    }

    /// Position of the pending proposal with index `i`, if any.
    fn find_prop(&self, i: u32) -> (r: Option<usize>)
        ensures
            match r {
                Some(j) => j < self.public_props@.len() && self.public_props@[j as int].index == i,
                None => !has_prop(self.public_props@, i),
            },
    {
        let mut k: usize = 0;
        while k < self.public_props.len()
            invariant
                k <= self.public_props@.len(),
                forall|j: int| 0 <= j < k ==> self.public_props@[j].index != i,
            decreases self.public_props@.len() - k,
        {
            if self.public_props[k].index == i {
                return Some(k);
            }
            k += 1;
        }
        None
    }

    /// The amount locked in support of pending proposal `proposal`: its
    /// deposit times its backer count; `None` when no such proposal is
    /// pending.
    pub fn locked_for(&self, proposal: u32) -> (r: Option<u64>)
        requires
            self.wf(),
        ensures
            match r {
                Some(v) => has_prop(self.public_props@, proposal) && v == locked_of(
                    self.public_props@[prop_pos(self.public_props@, proposal)],
                ),
                None => !has_prop(self.public_props@, proposal),
            },
    {
        match self.find_prop(proposal) {
            Some(j) => {
                proof {
                    let p = prop_pos(self.public_props@, proposal);
                    assert(self.public_props@[j as int].index == proposal);
                    assert(0 <= p < self.public_props@.len() && self.public_props@[p].index
                        == proposal);
                    assert(p == j);
                }
                Some(locked_amount(&self.public_props[j]))
            },
            None => None,
        }
    }

    /// Whether `ref_index` names an on-going referendum.
    pub open spec fn is_active_spec(self, ref_index: u32) -> bool {
        ref_index < self.referenda@.len() && self.referenda@[ref_index as int] is Some
    }

    /// True while `ref_index` names an on-going referendum.
    pub fn is_active_referendum(&self, ref_index: u32) -> (r: bool)
        ensures
            r == self.is_active_spec(ref_index),
    {
        let i = ref_index as usize;
        i < self.referenda.len() && self.referenda[i].is_some()
    }

    /// Why `propose` would fail, if it would.
    pub open spec fn propose_check(self, l: StakeLedger, who: u64, value: u64) -> Option<
        DemocracyError,
    > {
        if value < self.minimum_deposit {
            Some(DemocracyError::DepositBelowMinimum)
        } else if l.spendable_of(who) < value {
            Some(DemocracyError::ProposerCannotAfford)
        } else {
            None
        }
    }

    /// Queue a public proposal under a fresh index, taking `value` from the
    /// proposer's spendable balance as its deposit.
    pub fn propose(&mut self, l: &mut StakeLedger, who: u64, proposal: Proposal, value: u64) -> (r:
        Result<(), DemocracyError>)
        requires
            old(self).wf(),
            old(l).wf(),
            old(l).accounts@.len() < usize::MAX,
            old(self).public_prop_count < u32::MAX,
            old(self).public_props@.len() < usize::MAX,
        ensures
            final(self).wf(),
            final(l).wf(),
            final(l).accounts@.len() <= old(l).accounts@.len() + 1,
            match r {
                Err(e) => {
                    &&& Some(e) == old(self).propose_check(*old(l), who, value)
                    &&& *final(self) == *old(self)
                    &&& *final(l) == *old(l)
                },
                Ok(_) => {
                    &&& old(self).propose_check(*old(l), who, value) is None
                    &&& final(self).public_prop_count == old(self).public_prop_count + 1
                    &&& final(self).public_props@.len() == old(self).public_props@.len() + 1
                    &&& forall|j: int|
                        0 <= j < old(self).public_props@.len() ==> final(self).public_props@[j]
                            == old(self).public_props@[j]
                    &&& final(self).public_props@.last().index == old(self).public_prop_count
                    &&& final(self).public_props@.last().proposal == proposal
                    &&& final(self).public_props@.last().proposer == who
                    &&& final(self).public_props@.last().deposit == value
                    &&& final(self).public_props@.last().depositors@ == seq![who]
                    &&& *final(self) == (DemocracyState {
                        public_prop_count: final(self).public_prop_count,
                        public_props: final(self).public_props,
                        ..*old(self)
                    })
                    &&& final(l).same_except(*old(l), who)
                    &&& final(l).balance_of(who) == old(l).balance_of(who) - value
                    &&& final(l).reserved_of(who) == old(l).reserved_of(who)
                    &&& final(l).sum() == old(l).sum() - value
                },
            },
    {
        if value < self.minimum_deposit {
            return Err(DemocracyError::DepositBelowMinimum);
        }
        if !l.deduct_unbonded(who, value) {
            return Err(DemocracyError::ProposerCannotAfford);
        }
        let index = self.public_prop_count;
        self.public_prop_count = index + 1;
        let mut depositors: Vec<u64> = Vec::new();
        depositors.push(who);
        proof {
            assert(depositors@ =~= seq![who]);
        }
        self.public_props.push(
            PublicProp { index, proposal, proposer: who, deposit: value, depositors },
        );
        Ok(())
    }

    /// Why `second` would fail, if it would.
    pub open spec fn second_check(self, l: StakeLedger, who: u64, proposal: u32) -> Option<
        DemocracyError,
    > {
        if !has_prop(self.public_props@, proposal) {
            Some(DemocracyError::SecondNonexistentProposal)
        } else if l.spendable_of(who) < self.public_props@[prop_pos(
            self.public_props@,
            proposal,
        )].deposit {
            Some(DemocracyError::SeconderCannotAfford)
        } else {
            None
        }
    }

    /// Back the pending proposal `proposal`, paying its full deposit again
    /// from the seconder's spendable balance.
    pub fn second(&mut self, l: &mut StakeLedger, who: u64, proposal: u32) -> (r: Result<
        (),
        DemocracyError,
    >)
        requires
            old(self).wf(),
            old(l).wf(),
            old(l).accounts@.len() < usize::MAX,
            forall|j: int|
                0 <= j < old(self).public_props@.len() ==> old(
                    self,
                ).public_props@[j].depositors@.len() < usize::MAX,
        ensures
            final(self).wf(),
            final(l).wf(),
            final(l).accounts@.len() <= old(l).accounts@.len() + 1,
            match r {
                Err(e) => {
                    &&& Some(e) == old(self).second_check(*old(l), who, proposal)
                    &&& *final(self) == *old(self)
                    &&& *final(l) == *old(l)
                },
                Ok(_) => {
                    let p = prop_pos(old(self).public_props@, proposal);
                    let dep = old(self).public_props@[p].deposit;
                    &&& old(self).second_check(*old(l), who, proposal) is None
                    &&& final(self).public_props@.len() == old(self).public_props@.len()
                    &&& forall|j: int|
                        0 <= j < old(self).public_props@.len() && j != p
                            ==> final(self).public_props@[j] == old(self).public_props@[j]
                    &&& final(self).public_props@[p].index == old(self).public_props@[p].index
                    &&& final(self).public_props@[p].proposal
                        == old(self).public_props@[p].proposal
                    &&& final(self).public_props@[p].proposer
                        == old(self).public_props@[p].proposer
                    &&& final(self).public_props@[p].deposit == dep
                    &&& final(self).public_props@[p].depositors@
                        == old(self).public_props@[p].depositors@.push(who)
                    &&& *final(self) == (DemocracyState {
                        public_props: final(self).public_props,
                        ..*old(self)
                    })
                    &&& final(l).same_except(*old(l), who)
                    &&& final(l).balance_of(who) == old(l).balance_of(who) - dep
                    &&& final(l).reserved_of(who) == old(l).reserved_of(who)
                    &&& final(l).sum() == old(l).sum() - dep
                },
            },
    {
        let j = match self.find_prop(proposal) {
            Some(j) => j,
            None => {
                return Err(DemocracyError::SecondNonexistentProposal);
            },
        };
        proof {
            let p = prop_pos(self.public_props@, proposal);
            assert(self.public_props@[j as int].index == proposal);
            assert(0 <= p < self.public_props@.len() && self.public_props@[p].index == proposal);
            assert(p == j);
        }
        let dep = self.public_props[j].deposit;
        if !l.deduct_unbonded(who, dep) {
            return Err(DemocracyError::SeconderCannotAfford);
        }
        let entry = vec_index_mut(&mut self.public_props, j);
        entry.depositors.push(who);
        Ok(())
    }

    /// Why `vote` would fail, if it would.
    pub open spec fn vote_check(self, l: StakeLedger, who: u64, ref_index: u32) -> Option<
        DemocracyError,
    > {
        if !self.is_active_spec(ref_index) {
            Some(DemocracyError::VoteInvalidReferendum)
        } else if l.balance_of(who) == 0 {
            Some(DemocracyError::VoterBalanceZero)
        } else {
            None
        }
    }

    /// Record or overwrite `who`'s vote on the active referendum
    /// `ref_index`; a first-time voter joins its voter list.
    pub fn vote(&mut self, l: &StakeLedger, who: u64, ref_index: u32, approve: bool) -> (r: Result<
        (),
        DemocracyError,
    >)
        requires
            old(self).wf(),
            l.wf(),
            old(self).is_active_spec(ref_index) ==> old(self).referenda@[ref_index as int]
                ->0.voters@.len() < usize::MAX,
        ensures
            final(self).wf(),
            match r {
                Err(e) => {
                    &&& Some(e) == old(self).vote_check(*l, who, ref_index)
                    &&& *final(self) == *old(self)
                },
                Ok(_) => {
                    let i = ref_index as int;
                    let ov = old(self).referenda@[i]->0.voters@;
                    let nv = final(self).referenda@[i]->0.voters@;
                    &&& old(self).vote_check(*l, who, ref_index) is None
                    &&& final(self).referenda@.len() == old(self).referenda@.len()
                    &&& forall|j: int|
                        0 <= j < old(self).referenda@.len() && j != i ==> final(self).referenda@[j]
                            == old(self).referenda@[j]
                    &&& final(self).referenda@[i] is Some
                    &&& final(self).referenda@[i]->0.end == old(self).referenda@[i]->0.end
                    &&& final(self).referenda@[i]->0.proposal
                        == old(self).referenda@[i]->0.proposal
                    &&& final(self).referenda@[i]->0.threshold
                        == old(self).referenda@[i]->0.threshold
                    &&& if is_vote_of(ov, who) {
                        &&& nv.len() == ov.len()
                        &&& forall|j: int| 0 <= j < ov.len() && ov[j].who != who ==> nv[j] == ov[j]
                        &&& forall|j: int|
                            0 <= j < ov.len() && ov[j].who == who ==> nv[j] == (VoteEntry {
                                who,
                                approve,
                            })
                    } else {
                        nv == ov.push(VoteEntry { who, approve })
                    }
                    &&& *final(self) == (DemocracyState {
                        referenda: final(self).referenda,
                        ..*old(self)
                    })
                },
            },
    {
        if !self.is_active_referendum(ref_index) {
            return Err(DemocracyError::VoteInvalidReferendum);
        }
        if l.balance(who) == 0 {
            return Err(DemocracyError::VoterBalanceZero);
        }
        let i = ref_index as usize;
        let pos: Option<usize> = match &self.referenda[i] {
            Some(info) => find_vote(&info.voters, who),
            None => None,
        };
        let slot = vec_index_mut(&mut self.referenda, i);
        match slot {
            Some(info) => {
                match pos {
                    Some(k) => {
                        info.voters[k] = VoteEntry { who, approve };
                    },
                    None => {
                        info.voters.push(VoteEntry { who, approve });
                    },
                }
            },
            None => {
                proof {
                    assert(false);
                }
            },
        }
        proof {
            let ov = old(self).referenda@[i as int]->0.voters@;
            let nv = self.referenda@[i as int]->0.voters@;
            if is_vote_of(ov, who) {
                assert(pos is Some);
            } else {
                assert(pos is None);
                assert(nv == ov.push(VoteEntry { who, approve }));
                assert(votes_distinct(nv)) by {
                    assert forall|a: int, b: int| 0 <= a < b < nv.len() implies nv[a].who
                        != nv[b].who by {
                        if b < ov.len() {
                        } else {
                            assert(nv[b] == (VoteEntry { who, approve }));
                            assert(nv[a] == ov[a]);
                        }
                    }
                }
            }
            assert forall|j: int|
                #![trigger self.referenda@[j]]
                0 <= j < self.referenda@.len() && self.referenda@[j] is Some implies votes_distinct(
                self.referenda@[j]->0.voters@,
            ) by {
                if j != i {
                    assert(self.referenda@[j] == old(self).referenda@[j]);
                }
            }
        }
        Ok(())
    }
}

impl DemocracyState {
    /// The vote list of `ref_index`; empty when it is not active.
    pub open spec fn vote_seq(self, ref_index: u32) -> Seq<VoteEntry> {
        if self.is_active_spec(ref_index) {
            self.referenda@[ref_index as int]->0.voters@
        } else {
            Seq::empty()
        }
    }

    /// Sum the stake-weighted ayes and nays recorded on `ref_index`, at the
    /// ledger's current balances, each clamped to the `u64` range. A
    /// cleared or unknown referendum tallies to zero.
    pub fn tally(&self, l: &StakeLedger, ref_index: u32) -> (r: (u64, u64))
        requires
            self.wf(),
            l.wf(),
        ensures
            r.0 == sat64(tally_ayes(self.vote_seq(ref_index), *l)),
            r.1 == sat64(tally_nays(self.vote_seq(ref_index), *l)),
    {
        if !self.is_active_referendum(ref_index) {
            return (0, 0);
        }
        let i = ref_index as usize;
        let ghost votes = self.referenda@[i as int]->0.voters@;
        match &self.referenda[i] {
            Some(info) => {
                let n = info.voters.len();
                let mut ayes: u128 = 0;
                let mut nays: u128 = 0;
                let mut k: usize = 0;
                while k < n
                    invariant
                        l.wf(),
                        n == votes.len(),
                        votes == info.voters@,
                        k <= n,
                        ayes == ayes_upto(votes, *l, k as int),
                        nays == nays_upto(votes, *l, k as int),
                        ayes <= (k as int) * (u64::MAX as int),
                        nays <= (k as int) * (u64::MAX as int),
                    decreases n - k,
                {
                    let bal = l.balance(info.voters[k].who);
                    if info.voters[k].approve {
                        ayes = ayes + bal as u128;
                    } else {
                        nays = nays + bal as u128;
                    }
                    k += 1;
                }
                let a: u64 = if ayes > u64::MAX as u128 {
                    u64::MAX
                } else {
                    ayes as u64
                };
                let b: u64 = if nays > u64::MAX as u128 {
                    u64::MAX
                } else {
                    nays as u64
                };
                (a, b)
            },
            None => {
                proof {
                    assert(false);
                }
                (0, 0)
            },
        }
    }

    /// Every still-stored referendum not yet tallied, as
    /// `(index, maturation block, proposal, threshold)` rows.
    pub fn active_referendums(&self) -> (r: Vec<(u32, u64, Proposal, VoteThreshold)>)
        requires
            self.wf(),
        ensures
            r@ == actives(
                self.referenda@,
                self.next_tally as int,
                self.referenda@.len() as int,
            ),
    {
        let mut out: Vec<(u32, u64, Proposal, VoteThreshold)> = Vec::new();
        let mut k: usize = self.next_tally as usize;
        while k < self.referenda.len()
            invariant
                self.next_tally <= k <= self.referenda@.len(),
                out@ == actives(self.referenda@, self.next_tally as int, k as int),
            decreases self.referenda@.len() - k,
        {
            match &self.referenda[k] {
                Some(info) => {
                    out.push((k as u32, info.end, info.proposal, info.threshold));
                },
                None => {},
            }
            k += 1;
        }
        out
    }

    /// The referenda ready for tally at block `n`: the maturing rows from
    /// the next-tally pointer up to the first one maturing later.
    pub fn maturing_referendums_at(&self, n: u64) -> (r: Vec<(u32, u64, Proposal, VoteThreshold)>)
        requires
            self.wf(),
        ensures
            r@ == maturing(
                self.referenda@,
                self.next_tally as int,
                self.referenda@.len() as int,
                n,
            ),
    {
        let ghost from0 = self.next_tally as int;
        let ghost to = self.referenda@.len() as int;
        let mut out: Vec<(u32, u64, Proposal, VoteThreshold)> = Vec::new();
        let mut cur: usize = self.next_tally as usize;
        let mut done = false;
        while cur < self.referenda.len() && !done
            invariant
                from0 <= cur <= to,
                to == self.referenda@.len(),
                maturing(self.referenda@, from0, to, n) == out@ + (if done {
                    Seq::<(u32, u64, Proposal, VoteThreshold)>::empty()
                } else {
                    maturing(self.referenda@, cur as int, to, n)
                }),
            decreases to - cur + (if done {
                0int
            } else {
                1int
            }),
        {
            match &self.referenda[cur] {
                Some(info) => {
                    if info.end == n {
                        let row = (cur as u32, info.end, info.proposal, info.threshold);
                        proof {
                            assert(maturing(self.referenda@, cur as int, to, n) == seq![row]
                                + maturing(self.referenda@, cur + 1, to, n));
                            assert(out@ + (seq![row] + maturing(self.referenda@, cur + 1, to, n))
                                =~= out@.push(row) + maturing(self.referenda@, cur + 1, to, n));
                        }
                        out.push(row);
                        cur += 1;
                    } else {
                        proof {
                            assert(maturing(self.referenda@, cur as int, to, n) =~= Seq::<
                                (u32, u64, Proposal, VoteThreshold),
                            >::empty());
                            assert(out@ + Seq::<(u32, u64, Proposal, VoteThreshold)>::empty()
                                =~= out@);
                        }
                        done = true;
                    }
                },
                None => {
                    cur += 1;
                },
            }
        }
        proof {
            if !done {
                assert(maturing(self.referenda@, cur as int, to, n) =~= Seq::<
                    (u32, u64, Proposal, VoteThreshold),
                >::empty());
            }
            assert(out@ =~= maturing(self.referenda@, from0, to, n));
        }
        out
    }

    /// What registering a referendum does: a new entry under the next free
    /// index, maturing at `end`, with no votes; everything else unchanged.
    pub open spec fn injected_rel(
        pre: DemocracyState,
        end: u64,
        proposal: Proposal,
        threshold: VoteThreshold,
        post: DemocracyState,
    ) -> bool {
        &&& post.referenda@.len() == pre.referenda@.len() + 1
        &&& forall|j: int| 0 <= j < pre.referenda@.len() ==> post.referenda@[j] == pre.referenda@[j]
        &&& post.referenda@.last() is Some
        &&& post.referenda@.last()->0.end == end
        &&& post.referenda@.last()->0.proposal == proposal
        &&& post.referenda@.last()->0.threshold == threshold
        &&& post.referenda@.last()->0.voters@ == Seq::<VoteEntry>::empty()
        &&& post == (DemocracyState { referenda: post.referenda, ..pre })
    }

    /// Why injecting a referendum maturing at `end` would fail, if it
    /// would.
    pub open spec fn inject_check(self, end: u64) -> Option<DemocracyError> {
        if self.referenda@.len() > 0 && self.referenda@.last() is Some
            && self.referenda@.last()->0.end > end {
            Some(DemocracyError::ReferendumEndsTooEarly)
        } else {
            None
        }
    }

    /// Register a referendum maturing at `end` under the next free index.
    /// It must not mature earlier than the latest-registered referendum.
    pub fn inject_referendum(
        &mut self,
        end: u64,
        proposal: Proposal,
        threshold: VoteThreshold,
    ) -> (r: Result<u32, DemocracyError>)
        requires
            old(self).wf(),
            old(self).referenda@.len() < u32::MAX,
        ensures
            final(self).wf(),
            match r {
                Err(e) => {
                    &&& Some(e) == old(self).inject_check(end)
                    &&& *final(self) == *old(self)
                },
                Ok(ix) => {
                    &&& old(self).inject_check(end) is None
                    &&& ix == old(self).referenda@.len()
                    &&& DemocracyState::injected_rel(*old(self), end, proposal, threshold, *final(self))
                },
            },
    {
        let rlen = self.referenda.len();
        if rlen > 0 {
            let blocking = match &self.referenda[rlen - 1] {
                Some(prev) => prev.end > end,
                None => false,
            };
            if blocking {
                return Err(DemocracyError::ReferendumEndsTooEarly);
            }
        }
        self.referenda.push(
            Some(ReferendumInfo { end, proposal, threshold, voters: Vec::new() }),
        );
        proof {
            assert forall|j: int|
                #![trigger self.referenda@[j]]
                0 <= j < self.referenda@.len() && self.referenda@[j] is Some implies votes_distinct(
                self.referenda@[j]->0.voters@,
            ) by {
                if j < old(self).referenda@.len() {
                    assert(self.referenda@[j] == old(self).referenda@[j]);
                }
            }
        }
        Ok(rlen as u32)
    }

    /// Remove all record of referendum `ref_index`: its entry, votes and
    /// voter list together. Unknown indices are ignored.
    pub fn clear_referendum(&mut self, ref_index: u32)
        requires
            old(self).wf(),
        ensures
            final(self).wf(),
            final(self).referenda@ == if ref_index < old(self).referenda@.len() {
                old(self).referenda@.update(ref_index as int, None)
            } else {
                old(self).referenda@
            },
            *final(self) == (DemocracyState { referenda: final(self).referenda, ..*old(self) }),
    {
        let i = ref_index as usize;
        if i < self.referenda.len() {
            self.referenda[i] = None;
            proof {
                assert forall|j: int|
                    #![trigger self.referenda@[j]]
                    0 <= j < self.referenda@.len() && self.referenda@[j]
                        is Some implies votes_distinct(self.referenda@[j]->0.voters@) by {
                    if j != i {
                        assert(self.referenda@[j] == old(self).referenda@[j]);
                    }
                }
            }
        }
    }

    /// Start a referendum directly (the privileged dispatch entry point):
    /// it matures one voting period from `now`.
    pub fn start_referendum(
        &mut self,
        now: u64,
        proposal: Proposal,
        threshold: VoteThreshold,
    ) -> (r: Result<u32, DemocracyError>)
        requires
            old(self).wf(),
            old(self).referenda@.len() < u32::MAX,
            now + old(self).voting_period <= u64::MAX,
        ensures
            final(self).wf(),
            match r {
                Err(e) => {
                    &&& Some(e) == old(self).inject_check((now + old(self).voting_period) as u64)
                    &&& *final(self) == *old(self)
                },
                Ok(ix) => {
                    &&& old(self).inject_check((now + old(self).voting_period) as u64) is None
                    &&& ix == old(self).referenda@.len()
                    &&& DemocracyState::injected_rel(
                        *old(self),
                        (now + old(self).voting_period) as u64,
                        proposal,
                        threshold,
                        *final(self),
                    )
                },
            },
    {
        let end = now + self.voting_period;
        self.inject_referendum(end, proposal, threshold)
    }

    /// Start a referendum on behalf of the council.
    pub fn internal_start_referendum(
        &mut self,
        now: u64,
        proposal: Proposal,
        threshold: VoteThreshold,
    ) -> (r: Result<u32, DemocracyError>)
        requires
            old(self).wf(),
            old(self).referenda@.len() < u32::MAX,
            now + old(self).voting_period <= u64::MAX,
        ensures
            final(self).wf(),
            match r {
                Err(e) => {
                    &&& Some(e) == old(self).inject_check((now + old(self).voting_period) as u64)
                    &&& *final(self) == *old(self)
                },
                Ok(ix) => {
                    &&& old(self).inject_check((now + old(self).voting_period) as u64) is None
                    &&& ix == old(self).referenda@.len()
                    &&& DemocracyState::injected_rel(
                        *old(self),
                        (now + old(self).voting_period) as u64,
                        proposal,
                        threshold,
                        *final(self),
                    )
                },
            },
    {
        self.start_referendum(now, proposal, threshold)
    }

    /// Cancel a referendum (the privileged dispatch entry point).
    pub fn cancel_referendum(&mut self, ref_index: u32)
        requires
            old(self).wf(),
        ensures
            final(self).wf(),
            final(self).referenda@ == if ref_index < old(self).referenda@.len() {
                old(self).referenda@.update(ref_index as int, None)
            } else {
                old(self).referenda@
            },
            *final(self) == (DemocracyState { referenda: final(self).referenda, ..*old(self) }),
    {
        self.clear_referendum(ref_index);
    }

    /// A public proposal launches at `now`: it is a launch-period boundary
    /// and some proposal is pending.
    pub open spec fn launch_due(self, now: u64) -> bool {
        &&& now % self.launch_period == 0
        &&& self.public_props@.len() > 0
    }

    /// Why the block-end pass would fail at `now`, if it would.
    pub open spec fn launch_check(self, now: u64) -> Option<DemocracyError> {
        if self.launch_due(now) {
            self.inject_check((now + self.voting_period) as u64)
        } else {
            None
        }
    }

    /// What the launch phase does: at a launch boundary the pending
    /// proposal with the most locked stake (earliest wins ties) leaves the
    /// queue by swap-removal, every backer is refunded its deposit, and it
    /// becomes a referendum maturing one voting period ahead under the
    /// default supermajority-approval threshold.
    pub open spec fn launch_rel(
        pre: DemocracyState,
        pre_l: StakeLedger,
        now: u64,
        post: DemocracyState,
        post_l: StakeLedger,
    ) -> bool {
        if pre.launch_due(now) {
            let b = best_prop(pre.public_props@);
            let p = pre.public_props@[b];
            let end = (now + pre.voting_period) as u64;
            &&& post.public_props@ == crate::council::swap_removed(pre.public_props@, b)
            &&& post.referenda@.len() == pre.referenda@.len() + 1
            &&& forall|j: int|
                0 <= j < pre.referenda@.len() ==> post.referenda@[j] == pre.referenda@[j]
            &&& post.referenda@.last() is Some
            &&& post.referenda@.last()->0.end == end
            &&& post.referenda@.last()->0.proposal == p.proposal
            &&& post.referenda@.last()->0.threshold == VoteThreshold::SuperMajorityApprove
            &&& post.referenda@.last()->0.voters@ == Seq::<VoteEntry>::empty()
            &&& post.next_tally == pre.next_tally
            &&& post.public_prop_count == pre.public_prop_count
            &&& post.launch_period == pre.launch_period
            &&& post.minimum_deposit == pre.minimum_deposit
            &&& post.voting_period == pre.voting_period
            &&& forall|w: u64|
                post_l.balance_of(w) == bal_after_refunds(pre_l, p.depositors@, p.deposit, w)
            &&& forall|w: u64| post_l.reserved_of(w) == pre_l.reserved_of(w)
            &&& post_l.total_stake == pre_l.total_stake
            &&& post_l.sum() == pre_l.sum() + refunds_granted(pre_l, p.depositors@, p.deposit)
        } else {
            post == pre && post_l == pre_l
        }
    }

    /// What the maturing phase does: every referendum maturing at `now` is
    /// tallied at current balances, cleared, and its proposal collected
    /// when its threshold approves the tally; the next-tally pointer
    /// advances past each one.
    pub open spec fn mature_rel(
        pre: DemocracyState,
        l: StakeLedger,
        now: u64,
        post: DemocracyState,
        approved: Seq<Proposal>,
    ) -> bool {
        let ms = maturing(pre.referenda@, pre.next_tally as int, pre.referenda@.len() as int, now);
        &&& post.referenda@.len() == pre.referenda@.len()
        &&& forall|j: int|
            #![trigger post.referenda@[j]]
            0 <= j < pre.referenda@.len() ==> post.referenda@[j] == (if ms_has_index(ms, j) {
                None
            } else {
                pre.referenda@[j]
            })
        &&& post.next_tally == if ms.len() > 0 {
            (ms.last().0 + 1) as u32
        } else {
            pre.next_tally
        }
        &&& approved == approved_proposals(ms, pre.referenda@, l)
        &&& post == (DemocracyState {
            referenda: post.referenda,
            next_tally: post.next_tally,
            ..pre
        })
    }

    pub open spec fn end_block_phases(
        pre: DemocracyState,
        pre_l: StakeLedger,
        now: u64,
        mid: DemocracyState,
        post: DemocracyState,
        post_l: StakeLedger,
        approved: Seq<Proposal>,
    ) -> bool {
        &&& DemocracyState::launch_rel(pre, pre_l, now, mid, post_l)
        &&& DemocracyState::mature_rel(mid, post_l, now, post, approved)
    }

    pub open spec fn end_block_rel(
        pre: DemocracyState,
        pre_l: StakeLedger,
        now: u64,
        post: DemocracyState,
        post_l: StakeLedger,
        approved: Seq<Proposal>,
    ) -> bool {
        exists|mid: DemocracyState|
            #[trigger] DemocracyState::end_block_phases(pre, pre_l, now, mid, post, post_l, approved)
    }

    /// The referendum engine's once-per-block hook: launch the
    /// best-backed public proposal at a launch boundary, then tally,
    /// clear, and judge every referendum maturing at `now`. Returns the
    /// approved proposals, in maturation order, for dispatch; fails,
    /// changing nothing, only when a launch would break maturation order.
    pub fn end_block(&mut self, l: &mut StakeLedger, now: u64) -> (r: Result<
        Vec<Proposal>,
        DemocracyError,
    >)
        requires
            old(self).wf(),
            old(l).wf(),
            now + old(self).voting_period <= u64::MAX,
            old(self).referenda@.len() < u32::MAX,
            forall|j: int|
                0 <= j < old(self).public_props@.len() ==> old(l).accounts@.len() + old(
                    self,
                ).public_props@[j].depositors@.len() < usize::MAX,
        ensures
            final(self).wf(),
            final(l).wf(),
            match r {
                Err(e) => {
                    &&& Some(e) == old(self).launch_check(now)
                    &&& *final(self) == *old(self)
                    &&& *final(l) == *old(l)
                },
                Ok(approved) => {
                    &&& old(self).launch_check(now) is None
                    &&& DemocracyState::end_block_rel(
                        *old(self),
                        *old(l),
                        now,
                        *final(self),
                        *final(l),
                        approved@,
                    )
                },
            },
    {
        if now % self.launch_period == 0 && self.public_props.len() > 0 {
            let end = now + self.voting_period;
            let rlen = self.referenda.len();
            if rlen > 0 {
                let blocking = match &self.referenda[rlen - 1] {
                    Some(prev) => prev.end > end,
                    None => false,
                };
                if blocking {
                    return Err(DemocracyError::ReferendumEndsTooEarly);
                }
            }
            proof {
                lemma_best_prop(self.public_props@);
            }
            let mut b: usize = 0;
            let mut k: usize = 1;
            while k < self.public_props.len()
                invariant
                    self.public_props@.len() > 0,
                    b < k <= self.public_props@.len() || (k <= 1 && b == 0),
                    b < self.public_props@.len(),
                    b == best_prop(self.public_props@.subrange(0, k as int)) || k
                        > self.public_props@.len(),
                    k >= 1,
                    b == best_prop(self.public_props@.subrange(0, k as int)),
                decreases self.public_props@.len() - k,
            {
                proof {
                    assert(self.public_props@.subrange(0, k + 1).drop_last() =~= self
                        .public_props@.subrange(0, k as int));
                    assert(self.public_props@.subrange(0, k + 1).last() == self.public_props@[
                        k as int]);
                }
                if locked_amount(&self.public_props[k]) > locked_amount(&self.public_props[b]) {
                    b = k;
                }
                k += 1;
            }
            proof {
                assert(self.public_props@.subrange(0, self.public_props@.len() as int) =~= self
                    .public_props@);
            }
            let winner = self.public_props.swap_remove(b);
            let ghost deps = winner.depositors@;
            let ghost dep_amt = winner.deposit;
            let ghost l0 = *l;
            let mut d: usize = 0;
            while d < winner.depositors.len()
                invariant
                    l.wf(),
                    deps == winner.depositors@,
                    dep_amt == winner.deposit,
                    d <= deps.len(),
                    l0.accounts@.len() + deps.len() < usize::MAX,
                    l.accounts@.len() <= l0.accounts@.len() + d,
                    forall|w: u64|
                        l.balance_of(w) == bal_after_refunds(l0, deps.subrange(0, d as int), dep_amt, w),
                    forall|w: u64| l.reserved_of(w) == l0.reserved_of(w),
                    l.total_stake == l0.total_stake,
                    l.sum() == l0.sum() + refunds_granted(l0, deps.subrange(0, d as int), dep_amt),
                decreases deps.len() - d,
            {
                let who = winner.depositors[d];
                let ghost pre_bal = l.balance_of(who);
                l.refund(who, winner.deposit);
                proof {
                    assert(deps.subrange(0, d + 1).drop_last() =~= deps.subrange(0, d as int));
                    assert(deps.subrange(0, d + 1).last() == deps[d as int]);
                    assert forall|w: u64| l.balance_of(w) == bal_after_refunds(
                        l0,
                        deps.subrange(0, d + 1),
                        dep_amt,
                        w,
                    ) by {}
                }
                d += 1;
            }
            proof {
                assert(deps.subrange(0, deps.len() as int) =~= deps);
            }
            let res = self.inject_referendum(
                end,
                winner.proposal,
                VoteThreshold::SuperMajorityApprove,
            );
            proof {
                assert(res is Ok);
            }
        }
        let ghost mid = *self;
        let ghost mid_l = *l;
        proof {
            assert(DemocracyState::launch_rel(*old(self), *old(l), now, mid, mid_l));
        }
        let ms = self.maturing_referendums_at(now);
        let ghost msv = ms@;
        proof {
            lemma_maturing(
                mid.referenda@,
                mid.next_tally as int,
                mid.referenda@.len() as int,
                now,
            );
        }
        let mut approved: Vec<Proposal> = Vec::new();
        let mut t: usize = 0;
        while t < ms.len()
            invariant
                l.wf(),
                self.wf(),
                *l == mid_l,
                msv == ms@,
                msv == maturing(
                    mid.referenda@,
                    mid.next_tally as int,
                    mid.referenda@.len() as int,
                    now,
                ),
                mid.wf(),
                t <= msv.len(),
                forall|t1: int|
                    #![trigger msv[t1]]
                    0 <= t1 < msv.len() ==> mid.next_tally <= msv[t1].0
                        < mid.referenda@.len() && mid.referenda@[msv[t1].0 as int] is Some
                        && msv[t1].2 == mid.referenda@[msv[t1].0 as int]->0.proposal && msv[t1].3
                        == mid.referenda@[msv[t1].0 as int]->0.threshold,
                forall|t1: int, t2: int| 0 <= t1 < t2 < msv.len() ==> msv[t1].0 < msv[t2].0,
                self.referenda@.len() == mid.referenda@.len(),
                forall|j: int|
                    #![trigger self.referenda@[j]]
                    0 <= j < mid.referenda@.len() ==> self.referenda@[j] == (if ms_has_index(
                        msv.subrange(0, t as int),
                        j,
                    ) {
                        None
                    } else {
                        mid.referenda@[j]
                    }),
                self.next_tally == if t > 0 {
                    (msv[t as int - 1].0 + 1) as u32
                } else {
                    mid.next_tally
                },
                approved@ == approved_proposals(msv.subrange(0, t as int), mid.referenda@, mid_l),
                *self == (DemocracyState {
                    referenda: self.referenda,
                    next_tally: self.next_tally,
                    ..mid
                }),
            decreases msv.len() - t,
        {
            let row = ms[t];
            let index = row.0;
            let ghost votes = mid.referenda@[index as int]->0.voters@;
            proof {
                assert(!ms_has_index(msv.subrange(0, t as int), index as int)) by {
                    if ms_has_index(msv.subrange(0, t as int), index as int) {
                        let t1 = choose|t1: int|
                            #![trigger msv.subrange(0, t as int)[t1]]
                            0 <= t1 < t && msv.subrange(0, t as int)[t1].0 == index as int;
                        assert(msv[t1].0 == msv[t as int].0);
                    }
                }
                assert(self.referenda@[index as int] == mid.referenda@[index as int]);
                assert(self.vote_seq(index) == votes);
            }
            let (ayes, nays) = self.tally(l, index);
            let total = l.total_stake;
            self.clear_referendum(index);
            if row.3.approved(ayes, nays, total) {
                approved.push(row.2);
            }
            self.next_tally = index + 1;
            proof {
                assert(msv.subrange(0, t + 1).drop_last() =~= msv.subrange(0, t as int));
                assert(msv.subrange(0, t + 1).last() == msv[t as int]);
                assert forall|j: int|
                    #![trigger self.referenda@[j]]
                    0 <= j < mid.referenda@.len() implies self.referenda@[j] == (if ms_has_index(
                    msv.subrange(0, t + 1),
                    j,
                ) {
                    None
                } else {
                    mid.referenda@[j]
                }) by {
                    if j == index as int {
                        assert(msv.subrange(0, t + 1)[t as int].0 == j);
                    } else {
                        if ms_has_index(msv.subrange(0, t + 1), j) {
                            let t1 = choose|t1: int|
                                #![trigger msv.subrange(0, t + 1)[t1]]
                                0 <= t1 < t + 1 && msv.subrange(0, t + 1)[t1].0 == j;
                            assert(t1 < t);
                            assert(msv.subrange(0, t as int)[t1].0 == j);
                        } else {
                            if ms_has_index(msv.subrange(0, t as int), j) {
                                let t1 = choose|t1: int|
                                    #![trigger msv.subrange(0, t as int)[t1]]
                                    0 <= t1 < t && msv.subrange(0, t as int)[t1].0 == j;
                                assert(msv.subrange(0, t + 1)[t1].0 == j);
                            }
                        }
                    }
                }
                assert(approved@ == approved_proposals(
                    msv.subrange(0, t + 1),
                    mid.referenda@,
                    mid_l,
                ));
            }
            t += 1;
        }
        proof {
            assert(msv.subrange(0, msv.len() as int) =~= msv);
            assert(DemocracyState::mature_rel(mid, *l, now, *self, approved@));
            assert(DemocracyState::end_block_phases(
                *old(self),
                *old(l),
                now,
                mid,
                *self,
                *l,
                approved@,
            ));
        }
        Ok(approved)
    }

    /// Cancel a referendum on behalf of the council.
    pub fn internal_cancel_referendum(&mut self, ref_index: u32)
        requires
            old(self).wf(),
        ensures
            final(self).wf(),
            final(self).referenda@ == if ref_index < old(self).referenda@.len() {
                old(self).referenda@.update(ref_index as int, None)
            } else {
                old(self).referenda@
            },
            *final(self) == (DemocracyState { referenda: final(self).referenda, ..*old(self) }),
    {
        self.clear_referendum(ref_index);
    }
}

/// Some vote in the list is `who`'s.
pub open spec fn is_vote_of(s: Seq<VoteEntry>, who: u64) -> bool {
    exists|i: int| 0 <= i < s.len() && s[i].who == who
}

/// `v` clamped to the `u64` range.
pub open spec fn sat64(v: int) -> u64 {
    if v > u64::MAX {
        u64::MAX
    } else if v < 0 {
        0u64
    } else {
        v as u64
    }
}

/// Stake voting aye among the first `k` votes, at current balances.
pub open spec fn ayes_upto(votes: Seq<VoteEntry>, l: StakeLedger, k: int) -> int
    decreases k,
{
    if k <= 0 {
        0int
    } else {
        ayes_upto(votes, l, k - 1) + if votes[k - 1].approve {
            l.balance_of(votes[k - 1].who) as int
        } else {
            0int
        }
    }
}

/// Stake voting nay among the first `k` votes, at current balances.
pub open spec fn nays_upto(votes: Seq<VoteEntry>, l: StakeLedger, k: int) -> int
    decreases k,
{
    if k <= 0 {
        0int
    } else {
        nays_upto(votes, l, k - 1) + if votes[k - 1].approve {
            0int
        } else {
            l.balance_of(votes[k - 1].who) as int
        }
    }
}

/// The full stake-weighted aye total of a vote list.
pub open spec fn tally_ayes(votes: Seq<VoteEntry>, l: StakeLedger) -> int {
    ayes_upto(votes, l, votes.len() as int)
}

/// The full stake-weighted nay total of a vote list.
pub open spec fn tally_nays(votes: Seq<VoteEntry>, l: StakeLedger) -> int {
    nays_upto(votes, l, votes.len() as int)
}

/// The `(index, end, proposal, threshold)` rows of the still-stored
/// referenda with indices in `[from, to)`.
pub open spec fn actives(s: Seq<Option<ReferendumInfo>>, from: int, to: int) -> Seq<
    (u32, u64, Proposal, VoteThreshold),
>
    decreases to - from,
{
    if from >= to {
        Seq::empty()
    } else {
        let rest = actives(s, from, to - 1);
        if s[to - 1] is Some {
            rest.push(
                (
                    (to - 1) as u32,
                    s[to - 1]->0.end,
                    s[to - 1]->0.proposal,
                    s[to - 1]->0.threshold,
                ),
            )
        } else {
            rest
        }
    }
}

/// The rows of the referenda maturing exactly at block `n`: scanning up
/// from `from`, cleared indices are passed over, and the scan stops at the
/// first stored referendum maturing at another block.
pub open spec fn maturing(s: Seq<Option<ReferendumInfo>>, from: int, to: int, n: u64) -> Seq<
    (u32, u64, Proposal, VoteThreshold),
>
    decreases to - from,
{
    if from >= to {
        Seq::empty()
    } else if s[from] is None {
        maturing(s, from + 1, to, n)
    } else if s[from]->0.end == n {
        seq![(from as u32, s[from]->0.end, s[from]->0.proposal, s[from]->0.threshold)] + maturing(
            s,
            from + 1,
            to,
            n,
        )
    } else {
        Seq::empty()
    }
}

/// The maturing rows name stored referenda maturing at `n`, in strictly
/// increasing index order within `[from, to)`.
pub proof fn lemma_maturing(s: Seq<Option<ReferendumInfo>>, from: int, to: int, n: u64)
    requires
        0 <= from,
        to <= s.len(),
        to <= u32::MAX,
    ensures
        forall|t: int|
            #![trigger maturing(s, from, to, n)[t]]
            0 <= t < maturing(s, from, to, n).len() ==> {
                let e = maturing(s, from, to, n)[t];
                &&& from <= e.0 < to
                &&& s[e.0 as int] is Some
                &&& s[e.0 as int]->0.end == n
                &&& e.1 == n
                &&& e.2 == s[e.0 as int]->0.proposal
                &&& e.3 == s[e.0 as int]->0.threshold
            },
        forall|t1: int, t2: int|
            0 <= t1 < t2 < maturing(s, from, to, n).len() ==> maturing(s, from, to, n)[t1].0
                < maturing(s, from, to, n)[t2].0,
    decreases to - from,
{
    if from < to && s[from] is None {
        lemma_maturing(s, from + 1, to, n);
    } else if from < to && s[from] is Some && s[from]->0.end == n {
        lemma_maturing(s, from + 1, to, n);
        let ms = maturing(s, from, to, n);
        let rest = maturing(s, from + 1, to, n);
        assert forall|t: int| #![trigger ms[t]] 0 <= t < ms.len() implies {
            let e = ms[t];
            &&& from <= e.0 < to
            &&& s[e.0 as int] is Some
            &&& s[e.0 as int]->0.end == n
            &&& e.1 == n
            &&& e.2 == s[e.0 as int]->0.proposal
            &&& e.3 == s[e.0 as int]->0.threshold
        } by {
            if t > 0 {
                assert(ms[t] == rest[t - 1]);
            } else {
                assert(ms[0] == (
                    from as u32,
                    s[from]->0.end,
                    s[from]->0.proposal,
                    s[from]->0.threshold,
                ));
            }
        }
        assert forall|t1: int, t2: int| 0 <= t1 < t2 < ms.len() implies ms[t1].0 < ms[t2].0 by {
            if t1 > 0 {
                assert(ms[t1] == rest[t1 - 1]);
                assert(ms[t2] == rest[t2 - 1]);
            } else {
                assert(ms[t2] == rest[t2 - 1]);
            }
        }
    }
}

/// Some maturing row names index `j`.
pub open spec fn ms_has_index(ms: Seq<(u32, u64, Proposal, VoteThreshold)>, j: int) -> bool {
    exists|t: int| 0 <= t < ms.len() && ms[t].0 == j
}

/// The position of the pending proposal backed by the most locked stake;
/// the earliest position wins ties.
pub open spec fn best_prop(s: Seq<PublicProp>) -> int
    decreases s.len(),
{
    if s.len() <= 1 {
        0int
    } else {
        let b = best_prop(s.drop_last());
        if locked_of(s.last()) > locked_of(s[b]) {
            s.len() - 1
        } else {
            b
        }
    }
}

/// `best_prop` stays in range and no earlier proposal beats it.
pub proof fn lemma_best_prop(s: Seq<PublicProp>)
    requires
        s.len() > 0,
    ensures
        0 <= best_prop(s) < s.len(),
    decreases s.len(),
{
    if s.len() > 1 {
        lemma_best_prop(s.drop_last());
    }
}

/// `w`'s balance after the members of `deps` (possibly repeating) are each
/// granted `amt`, saturating at the `u64` limit.
pub open spec fn bal_after_refunds(l: StakeLedger, deps: Seq<u64>, amt: u64, w: u64) -> u64
    decreases deps.len(),
{
    if deps.len() == 0 {
        l.balance_of(w)
    } else {
        let prev = bal_after_refunds(l, deps.drop_last(), amt, w);
        if deps.last() == w {
            sat_add_u64(prev, amt)
        } else {
            prev
        }
    }
}

/// The total actually granted when the members of `deps` are each refunded
/// `amt` in order.
pub open spec fn refunds_granted(l: StakeLedger, deps: Seq<u64>, amt: u64) -> int
    decreases deps.len(),
{
    if deps.len() == 0 {
        0int
    } else {
        let prev = bal_after_refunds(l, deps.drop_last(), amt, deps.last());
        refunds_granted(l, deps.drop_last(), amt) + (sat_add_u64(prev, amt) - prev)
    }
}

/// The proposals of the maturing rows whose tallies (at the given ledger)
/// their thresholds approve, in maturation order.
pub open spec fn approved_proposals(
    ms: Seq<(u32, u64, Proposal, VoteThreshold)>,
    pre_ref: Seq<Option<ReferendumInfo>>,
    l: StakeLedger,
) -> Seq<Proposal>
    decreases ms.len(),
{
    if ms.len() == 0 {
        Seq::empty()
    } else {
        let rest = approved_proposals(ms.drop_last(), pre_ref, l);
        let e = ms.last();
        let votes = pre_ref[e.0 as int]->0.voters@;
        if e.3.approved_spec(
            sat64(tally_ayes(votes, l)),
            sat64(tally_nays(votes, l)),
            l.total_stake,
        ) {
            rest.push(e.2)
        } else {
            rest
        }
    }
}

/// Position of `who`'s vote in the list, if recorded.
fn find_vote(voters: &Vec<VoteEntry>, who: u64) -> (r: Option<usize>)
    ensures
        match r {
            Some(k) => k < voters@.len() && voters@[k as int].who == who,
            None => !is_vote_of(voters@, who),
        },
{
    let mut k: usize = 0;
    while k < voters.len()
        invariant
            k <= voters@.len(),
            forall|j: int| 0 <= j < k ==> voters@[j].who != who,
        decreases voters@.len() - k,
    {
        if voters[k].who == who {
            return Some(k);
        }
        k += 1;
    }
    None
}

/// The total locked behind a pending proposal.
pub fn locked_amount(p: &PublicProp) -> (r: u64)
    ensures
        r == locked_of(*p),
{
    let n = p.depositors.len();
    proof {
        assert((p.deposit as int) * (n as int) <= (u64::MAX as int) * (usize::MAX as int))
            by (nonlinear_arith)
            requires
                p.deposit <= u64::MAX && n <= usize::MAX,
        ;
    }
    let prod: u128 = (p.deposit as u128) * (n as u128);
    if prod > u64::MAX as u128 {
        u64::MAX
    } else {
        prod as u64
    }
}

} // verus!
