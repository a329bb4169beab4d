use governance::DemocracyState;
use governance::Governance;
use governance::Proposal;
use governance::StakeLedger;
use governance::TestingConfig;

const ALICE: u64 = 1;
const BOB: u64 = 2;
const EVE: u64 = 5;
const DAVE: u64 = 4;

fn test_ledger() -> StakeLedger {
    let mut l = StakeLedger::new(210);
    l.refund(ALICE, 10);
    l.refund(BOB, 20);
    l.refund(3, 30);
    l.refund(DAVE, 40);
    l.refund(EVE, 50);
    l.refund(6, 60);
    l
}

fn idle_governance() -> Governance {
    let cfg: TestingConfig = Default::default();
    Governance {
        council: cfg.council_state(),
        democracy: DemocracyState::new(1, 1, 1),
        ledger: test_ledger(),
    }
}

#[test]
fn proposal_lifecycle_dispatches_the_action() {
    // Minimum deposit 1, voting period 1, launch period 1. Alice proposes
    // an action with deposit 2; the block end launches it as a referendum
    // maturing next period; Alice votes aye with stake 10; the next block
    // end clears the referendum, and the threshold approves 10 aye and 0
    // nay out of a total stake of 210, so the action is dispatched.
    let mut g = idle_governance();
    g.democracy.propose(&mut g.ledger, ALICE, Proposal::Opaque(7), 2).unwrap();
    assert_eq!(g.ledger.balance(ALICE), 8);

    let dispatched = g.execute(1).unwrap();
    assert!(dispatched.is_empty());
    assert_eq!(g.ledger.balance(ALICE), 10);
    assert!(g.democracy.is_active_referendum(0));

    g.democracy.vote(&g.ledger, ALICE, 0, true).unwrap();
    assert_eq!(g.democracy.tally(&g.ledger, 0), (10, 0));

    let dispatched = g.execute(2).unwrap();
    assert_eq!(dispatched, vec![Proposal::Opaque(7)]);
    assert!(!g.democracy.is_active_referendum(0));
}

#[test]
fn referendum_can_administer_the_council() {
    let mut g = idle_governance();
    assert_eq!(g.council.desired_seats, 0);
    g.democracy.propose(&mut g.ledger, ALICE, Proposal::SetDesiredSeats(3), 2).unwrap();
    g.execute(1).unwrap();
    g.democracy.vote(&g.ledger, ALICE, 0, true).unwrap();
    let dispatched = g.execute(2).unwrap();
    assert_eq!(dispatched, vec![Proposal::SetDesiredSeats(3)]);
    assert_eq!(g.council.desired_seats, 3);
}

#[test]
fn referendum_can_remove_a_member() {
    let cfg = TestingConfig::with_council();
    let mut g = Governance {
        council: cfg.council_state(),
        democracy: DemocracyState::new(1, 1, 1),
        ledger: test_ledger(),
    };
    // Keep the council engine idle during the test blocks.
    g.council.voting_period = 1000;
    g.council.desired_seats = 0;
    assert_eq!(g.council.active_council.len(), 3);
    g.democracy.propose(&mut g.ledger, ALICE, Proposal::RemoveMember(2), 2).unwrap();
    g.execute(1).unwrap();
    g.democracy.vote(&g.ledger, ALICE, 0, true).unwrap();
    let dispatched = g.execute(2).unwrap();
    assert_eq!(dispatched, vec![Proposal::RemoveMember(2)]);
    assert_eq!(g.council.active_council.len(), 2);
    assert_eq!(g.council.active_council[0].who, 1);
    assert_eq!(g.council.active_council[1].who, 3);
}

#[test]
fn referendum_can_cancel_a_referendum() {
    let mut g = idle_governance();
    // The public proposal becomes referendum 0 and will cancel referendum
    // 1, which matures one block later and is still pending at dispatch.
    g.democracy
        .propose(&mut g.ledger, ALICE, Proposal::CancelReferendum(1), 2)
        .unwrap();
    g.execute(1).unwrap();
    g.democracy
        .internal_start_referendum(2, Proposal::Opaque(9), governance::VoteThreshold::SimpleMajority)
        .unwrap();
    assert!(g.democracy.is_active_referendum(1));
    g.democracy.vote(&g.ledger, ALICE, 0, true).unwrap();
    let dispatched = g.execute(2).unwrap();
    assert_eq!(dispatched, vec![Proposal::CancelReferendum(1)]);
    assert!(!g.democracy.is_active_referendum(1));
}

#[test]
fn bond_flows_balance_over_an_election_cycle() {
    // Bond conservation over a full council election cycle: the candidacy
    // bonds of the two winners come back, the voting bonds stay reserved
    // with their voters, and nothing else moves, so the ledger ends where
    // accounts started, less nothing at all.
    let cfg = TestingConfig::new();
    let mut c = cfg.council_state();
    let mut l = test_ledger();
    let total_before: u128 = [ALICE, BOB, 3, DAVE, EVE, 6]
        .iter()
        .map(|&w| l.balance(w) as u128)
        .sum();

    c.submit_candidacy(&mut l, BOB, 0).unwrap();
    c.submit_candidacy(&mut l, EVE, 1).unwrap();
    c.set_approvals(&mut l, BOB, vec![true, false], 0).unwrap();
    c.set_approvals(&mut l, EVE, vec![false, true], 0).unwrap();
    c.end_block(&mut l, 4);
    c.present_winner(&mut l, DAVE, BOB, 11, 0).unwrap();
    c.present_winner(&mut l, DAVE, EVE, 41, 0).unwrap();
    c.end_block(&mut l, 6);

    // Both candidacy bonds were refunded to the elected members; the
    // voting bonds are still reserved, not destroyed.
    let total_after: u128 = [ALICE, BOB, 3, DAVE, EVE, 6]
        .iter()
        .map(|&w| l.balance(w) as u128)
        .sum();
    assert_eq!(total_before, total_after);
    assert_eq!(l.reserved(BOB), 3);
    assert_eq!(l.reserved(EVE), 3);

    // Retraction closes the voting-bond round trip as well.
    c.retract_voter(&mut l, BOB, 0).unwrap();
    assert_eq!(l.reserved(BOB), 0);
    assert_eq!(l.balance(BOB), 20);
}
