use governance::democracy::DemocracyError;
use governance::democracy::IsCancelReferendum;
use governance::DemocracyState;
use governance::Proposal;
use governance::StakeLedger;
use governance::VoteThreshold;

const ALICE: u64 = 1;
const BOB: u64 = 2;
const CHARLIE: u64 = 3;
const DAVE: u64 = 4;
const EVE: u64 = 5;
const FERDIE: u64 = 6;

fn test_ledger() -> StakeLedger {
    let mut l = StakeLedger::new(210);
    l.refund(ALICE, 10);
    l.refund(BOB, 20);
    l.refund(CHARLIE, 30);
    l.refund(DAVE, 40);
    l.refund(EVE, 50);
    l.refund(FERDIE, 60);
    l
}

fn new_democracy() -> DemocracyState {
    DemocracyState::new(1, 1, 1)
}

fn voters_for(d: &DemocracyState, r: u32) -> Vec<u64> {
    let mut out = Vec::new();
    if let Some(info) = &d.referenda[r as usize] {
        for v in info.voters.iter() {
            out.push(v.who);
        }
    }
    out
}

#[test]
fn params_should_work() {
    let d = new_democracy();
    assert_eq!(d.launch_period, 1);
    assert_eq!(d.voting_period, 1);
    assert_eq!(d.minimum_deposit, 1);
    assert_eq!(d.referendum_count(), 0);
    assert_eq!(test_ledger().total_stake, 210);
}

#[test]
fn is_cancel_referendum_recognises_the_action() {
    assert_eq!(Proposal::CancelReferendum(3).is_cancel_referendum(), Some(3));
    assert_eq!(Proposal::Opaque(3).is_cancel_referendum(), None);
    assert_eq!(Proposal::SetDesiredSeats(3).is_cancel_referendum(), None);
}

#[test]
fn locked_for_should_work() {
    let mut d = new_democracy();
    let mut l = test_ledger();
    d.propose(&mut l, ALICE, Proposal::Opaque(2), 2).unwrap();
    d.propose(&mut l, ALICE, Proposal::Opaque(4), 4).unwrap();
    d.propose(&mut l, ALICE, Proposal::Opaque(3), 3).unwrap();
    assert_eq!(d.locked_for(0), Some(2));
    assert_eq!(d.locked_for(1), Some(4));
    assert_eq!(d.locked_for(2), Some(3));
    assert_eq!(d.locked_for(3), None);
}

#[test]
fn single_proposal_should_work() {
    let mut d = new_democracy();
    let mut l = test_ledger();
    d.propose(&mut l, ALICE, Proposal::Opaque(2), 1).unwrap();
    let approved = d.end_block(&mut l, 1).unwrap();
    assert!(approved.is_empty());

    let r = 0;
    d.vote(&l, ALICE, r, true).unwrap();
    assert_eq!(d.referendum_count(), 1);
    assert_eq!(voters_for(&d, r), vec![ALICE]);
    assert_eq!(d.tally(&l, r), (10, 0));

    let approved = d.end_block(&mut l, 2).unwrap();
    assert_eq!(approved, vec![Proposal::Opaque(2)]);
    assert!(!d.is_active_referendum(r));
}

#[test]
fn deposit_for_proposals_should_be_taken() {
    let mut d = new_democracy();
    let mut l = test_ledger();
    d.propose(&mut l, ALICE, Proposal::Opaque(2), 5).unwrap();
    d.second(&mut l, BOB, 0).unwrap();
    d.second(&mut l, EVE, 0).unwrap();
    d.second(&mut l, EVE, 0).unwrap();
    d.second(&mut l, EVE, 0).unwrap();
    assert_eq!(l.balance(ALICE), 5);
    assert_eq!(l.balance(BOB), 15);
    assert_eq!(l.balance(EVE), 35);
    assert_eq!(d.locked_for(0), Some(25));
}

#[test]
fn deposit_for_proposals_should_be_returned() {
    let mut d = new_democracy();
    let mut l = test_ledger();
    d.propose(&mut l, ALICE, Proposal::Opaque(2), 5).unwrap();
    d.second(&mut l, BOB, 0).unwrap();
    d.second(&mut l, EVE, 0).unwrap();
    d.second(&mut l, EVE, 0).unwrap();
    d.second(&mut l, EVE, 0).unwrap();
    d.end_block(&mut l, 1).unwrap();
    assert_eq!(l.balance(ALICE), 10);
    assert_eq!(l.balance(BOB), 20);
    assert_eq!(l.balance(EVE), 50);
}

#[test]
fn proposal_with_deposit_below_minimum_is_rejected() {
    let mut d = new_democracy();
    let mut l = test_ledger();
    assert_eq!(
        d.propose(&mut l, ALICE, Proposal::Opaque(2), 0),
        Err(DemocracyError::DepositBelowMinimum)
    );
}

#[test]
fn poor_proposer_is_rejected() {
    let mut d = new_democracy();
    let mut l = test_ledger();
    assert_eq!(
        d.propose(&mut l, ALICE, Proposal::Opaque(2), 11),
        Err(DemocracyError::ProposerCannotAfford)
    );
}

#[test]
fn poor_seconder_is_rejected() {
    let mut d = new_democracy();
    let mut l = test_ledger();
    d.propose(&mut l, BOB, Proposal::Opaque(2), 11).unwrap();
    assert_eq!(d.second(&mut l, ALICE, 0), Err(DemocracyError::SeconderCannotAfford));
}

#[test]
fn seconding_a_missing_proposal_is_rejected() {
    let mut d = new_democracy();
    let mut l = test_ledger();
    assert_eq!(d.second(&mut l, ALICE, 0), Err(DemocracyError::SecondNonexistentProposal));
}

#[test]
fn runners_up_should_come_after() {
    let mut d = new_democracy();
    let mut l = test_ledger();
    d.propose(&mut l, ALICE, Proposal::Opaque(2), 2).unwrap();
    d.propose(&mut l, ALICE, Proposal::Opaque(4), 4).unwrap();
    d.propose(&mut l, ALICE, Proposal::Opaque(3), 3).unwrap();
    // Launch order follows the locked totals: 4, then 3, then 2.
    d.end_block(&mut l, 0).unwrap();
    assert_eq!(d.referenda[0].as_ref().unwrap().proposal, Proposal::Opaque(4));
    d.end_block(&mut l, 1).unwrap();
    assert_eq!(d.referenda[1].as_ref().unwrap().proposal, Proposal::Opaque(3));
    d.end_block(&mut l, 2).unwrap();
    assert_eq!(d.referenda[2].as_ref().unwrap().proposal, Proposal::Opaque(2));
}

#[test]
fn launch_ties_go_to_the_earliest_proposal() {
    let mut d = new_democracy();
    let mut l = test_ledger();
    d.propose(&mut l, ALICE, Proposal::Opaque(7), 3).unwrap();
    d.propose(&mut l, BOB, Proposal::Opaque(8), 3).unwrap();
    d.end_block(&mut l, 1).unwrap();
    assert_eq!(d.referenda[0].as_ref().unwrap().proposal, Proposal::Opaque(7));
}

#[test]
fn simple_passing_should_work() {
    let mut d = new_democracy();
    let mut l = test_ledger();
    let r = d
        .internal_start_referendum(0, Proposal::Opaque(2), VoteThreshold::SuperMajorityApprove)
        .unwrap();
    d.vote(&l, ALICE, r, true).unwrap();
    assert_eq!(voters_for(&d, r), vec![ALICE]);
    assert_eq!(d.tally(&l, r), (10, 0));
    let approved = d.end_block(&mut l, 1).unwrap();
    assert_eq!(approved, vec![Proposal::Opaque(2)]);
}

#[test]
fn simple_failing_should_work() {
    let mut d = new_democracy();
    let mut l = test_ledger();
    let r = d
        .internal_start_referendum(0, Proposal::Opaque(2), VoteThreshold::SuperMajorityApprove)
        .unwrap();
    d.vote(&l, ALICE, r, false).unwrap();
    assert_eq!(d.tally(&l, r), (0, 10));
    let approved = d.end_block(&mut l, 1).unwrap();
    assert!(approved.is_empty());
    assert!(!d.is_active_referendum(r));
}

#[test]
fn controversial_voting_should_work() {
    let mut d = new_democracy();
    let mut l = test_ledger();
    let r = d
        .internal_start_referendum(0, Proposal::Opaque(2), VoteThreshold::SuperMajorityApprove)
        .unwrap();
    d.vote(&l, ALICE, r, true).unwrap();
    d.vote(&l, BOB, r, false).unwrap();
    d.vote(&l, CHARLIE, r, false).unwrap();
    d.vote(&l, DAVE, r, true).unwrap();
    d.vote(&l, EVE, r, false).unwrap();
    d.vote(&l, FERDIE, r, true).unwrap();
    assert_eq!(d.tally(&l, r), (110, 100));
    let approved = d.end_block(&mut l, 1).unwrap();
    assert_eq!(approved, vec![Proposal::Opaque(2)]);
}

#[test]
fn controversial_low_turnout_voting_should_work() {
    let mut d = new_democracy();
    let mut l = test_ledger();
    let r = d
        .internal_start_referendum(0, Proposal::Opaque(2), VoteThreshold::SuperMajorityApprove)
        .unwrap();
    d.vote(&l, EVE, r, false).unwrap();
    d.vote(&l, FERDIE, r, true).unwrap();
    assert_eq!(d.tally(&l, r), (60, 50));
    let approved = d.end_block(&mut l, 1).unwrap();
    assert!(approved.is_empty());
}

#[test]
fn passing_low_turnout_voting_should_work() {
    let mut d = new_democracy();
    let mut l = test_ledger();
    let r = d
        .internal_start_referendum(0, Proposal::Opaque(2), VoteThreshold::SuperMajorityApprove)
        .unwrap();
    d.vote(&l, DAVE, r, true).unwrap();
    d.vote(&l, EVE, r, false).unwrap();
    d.vote(&l, FERDIE, r, true).unwrap();
    assert_eq!(d.tally(&l, r), (100, 50));
    let approved = d.end_block(&mut l, 1).unwrap();
    assert_eq!(approved, vec![Proposal::Opaque(2)]);
}

#[test]
fn revoting_overwrites_the_recorded_vote() {
    let mut d = new_democracy();
    let mut l = test_ledger();
    let r = d
        .internal_start_referendum(0, Proposal::Opaque(2), VoteThreshold::SuperMajorityApprove)
        .unwrap();
    d.vote(&l, ALICE, r, true).unwrap();
    d.vote(&l, ALICE, r, false).unwrap();
    assert_eq!(voters_for(&d, r), vec![ALICE]);
    assert_eq!(d.tally(&l, r), (0, 10));
}

#[test]
fn cancel_referendum_should_work() {
    let mut d = new_democracy();
    let mut l = test_ledger();
    let r = d
        .internal_start_referendum(0, Proposal::Opaque(2), VoteThreshold::SuperMajorityApprove)
        .unwrap();
    d.vote(&l, ALICE, r, true).unwrap();
    d.internal_cancel_referendum(r);
    assert!(!d.is_active_referendum(r));
    let approved = d.end_block(&mut l, 1).unwrap();
    assert!(approved.is_empty());
}

#[test]
fn vote_on_invalid_referendum_is_rejected() {
    let mut d = new_democracy();
    let l = test_ledger();
    assert_eq!(d.vote(&l, ALICE, 0, true), Err(DemocracyError::VoteInvalidReferendum));
}

#[test]
fn vote_without_balance_is_rejected() {
    let mut d = new_democracy();
    let l = test_ledger();
    d.internal_start_referendum(0, Proposal::Opaque(2), VoteThreshold::SuperMajorityApprove)
        .unwrap();
    assert_eq!(d.vote(&l, 99, 0, true), Err(DemocracyError::VoterBalanceZero));
}

#[test]
fn referendum_maturing_too_early_is_rejected() {
    let mut d = new_democracy();
    d.internal_start_referendum(4, Proposal::Opaque(1), VoteThreshold::SimpleMajority)
        .unwrap();
    assert_eq!(
        d.internal_start_referendum(2, Proposal::Opaque(2), VoteThreshold::SimpleMajority),
        Err(DemocracyError::ReferendumEndsTooEarly)
    );
}

#[test]
fn maturing_referendums_form_a_prefix() {
    let mut d = new_democracy();
    let l = test_ledger();
    d.internal_start_referendum(0, Proposal::Opaque(1), VoteThreshold::SimpleMajority)
        .unwrap();
    d.internal_start_referendum(0, Proposal::Opaque(2), VoteThreshold::SimpleMajority)
        .unwrap();
    d.internal_start_referendum(1, Proposal::Opaque(3), VoteThreshold::SimpleMajority)
        .unwrap();
    // A cancelled referendum leaves a hole the scan passes over.
    d.internal_cancel_referendum(1);
    let rows = d.maturing_referendums_at(1);
    assert_eq!(rows.len(), 1);
    assert_eq!(rows[0].0, 0);
    assert_eq!(rows[0].2, Proposal::Opaque(1));
    let all = d.active_referendums();
    assert_eq!(all.len(), 2);
    let _ = l;
}

#[test]
fn active_referendums_lists_survivors() {
    let mut d = new_democracy();
    d.internal_start_referendum(0, Proposal::Opaque(1), VoteThreshold::SimpleMajority)
        .unwrap();
    d.internal_start_referendum(3, Proposal::Opaque(2), VoteThreshold::SuperMajorityAgainst)
        .unwrap();
    let rows = d.active_referendums();
    assert_eq!(rows.len(), 2);
    assert_eq!(rows[0], (0, 1, Proposal::Opaque(1), VoteThreshold::SimpleMajority));
    assert_eq!(rows[1], (1, 4, Proposal::Opaque(2), VoteThreshold::SuperMajorityAgainst));
}
